//! The state of one batch: counts, probabilities, segmented builds and their
//! differences.

use vstd::prelude::*;
use crate::comparator::{
    comparisons_of, comparisons_wf, first_seen, fresh_comparisons, is_known,
    law_scored_builds_differ, lemma_row_fails, lemma_rows_fail, row_upto, rows_upto, same_path,
    score, to_compare, Comparison, ComparisonId,
};
use crate::model::{
    context_total, count_of, count_token, counts_wf, distribution, distribution_upto, group_of,
    Group, learned, lemma_distribution_unique, lemma_distribution_upto, lemma_sum_prefix,
    lemma_total_bounds, occurrences_at, occurrences_upto, sum_counts, table_of, table_wf,
    window_count, window_count_upto, ProbabilityId, TokenCount, TokenProbability, MIN_CONTEXT_TOTAL,
};
use crate::error::FatalError;
use crate::segmenter::{
    best_path, best_upto, has_broken_window, lemma_best_wf, path_wf, path_identity, paths_of,
    CompoundCache, PathId, SegmentedPath,
};
use crate::text::{copy_texts, join, join_spec, text_less, texts};
use crate::tokens::{building_separator, Token, TokenId, MAX_TOKEN_SIZE};

verus! {

/// The state of one batch.
pub struct Builds {
    pub tokens: Vec<TokenCount>,
    pub cached_token_probability: CompoundCache,
    /// the number of windows counted so far
    pub windows_seen: u32,
    pub probability: Vec<TokenProbability>,
    pub token_paths: Vec<SegmentedPath>,
    pub skipped_builds: Vec<String>,
    pub build_comparison_information: Vec<Comparison>,
}

impl Builds {
    /// The counts add up, every probability is well formed, every path covers
    /// its build, and what the cache keeps holds for the probabilities.
    pub open spec fn wf(&self) -> bool {
        &&& counts_wf(self.tokens@, self.windows_seen as int)
        &&& table_wf(table_of(self.probability@))
        &&& forall|i: int| 0 <= i < self.token_paths.len() ==> path_wf(#[trigger] self.token_paths[i]@)
        &&& comparisons_wf(comparisons_of(self.build_comparison_information@))
        &&& self.cached_token_probability.sound(self.probability@)
    }

    /// A batch that has seen nothing.
    pub fn new() -> (builds: Builds)
        ensures
            builds.wf(),
            builds.tokens@.len() == 0,
            builds.cached_token_probability.kept() == 0,
            builds.windows_seen == 0,
            builds.probability@.len() == 0,
            builds.token_paths@.len() == 0,
            builds.skipped_builds@.len() == 0,
            builds.build_comparison_information@.len() == 0,
    {
        Builds {
            tokens: Vec::new(),
            cached_token_probability: CompoundCache::new(),
            windows_seen: 0,
            probability: Vec::new(),
            token_paths: Vec::new(),
            skipped_builds: Vec::new(),
            build_comparison_information: Vec::new(),
        }
    }

    /// Counts every window of the build under the population `token_prefix`:
    /// at every start the windows of 1 to `MAX_TOKEN_SIZE` actions that fit.
    pub fn generate_tokens(&mut self, build: &Vec<String>, token_prefix: String)
        requires
            old(self).wf(),
            old(self).windows_seen + MAX_TOKEN_SIZE * build.len() <= u32::MAX,
        ensures
            final(self).wf(),
            learned(old(self).tokens@, final(self).tokens@, token_prefix@, texts(build@)),
            final(self).windows_seen == old(self).windows_seen + window_count(build.len() as int),
            final(self).probability == old(self).probability,
            final(self).cached_token_probability == old(self).cached_token_probability,
            final(self).token_paths == old(self).token_paths,
            final(self).skipped_builds == old(self).skipped_builds,
            final(self).build_comparison_information == old(self).build_comparison_information,
    {
        let ghost population = token_prefix@;
        let ghost actions = texts(build@);
        let ghost before = self.tokens@;
        let mut i: usize = 0;
        while i < build.len()
            invariant
                i <= build.len(),
                population == token_prefix@,
                actions == texts(build@),
                before == old(self).tokens@,
                self.wf(),
                old(self).windows_seen + MAX_TOKEN_SIZE * build.len() <= u32::MAX,
                self.windows_seen == old(self).windows_seen + window_count_upto(
                    build.len() as int,
                    i as int,
                ),
                self.windows_seen <= old(self).windows_seen + MAX_TOKEN_SIZE * i,
                forall|t: TokenId|
                    #[trigger] count_of(self.tokens@, t) == count_of(before, t) + occurrences_upto(
                        population,
                        actions,
                        i as int,
                        t,
                    ),
                self.probability == old(self).probability,
                self.cached_token_probability == old(self).cached_token_probability,
                self.token_paths == old(self).token_paths,
                self.skipped_builds == old(self).skipped_builds,
                self.build_comparison_information == old(self).build_comparison_information,
            decreases build.len() - i,
        {
            let ghost row_start = self.tokens@;
            let ghost seen_start = self.windows_seen;
            let mut window_size: usize = 1;
            while window_size <= MAX_TOKEN_SIZE && i + window_size <= build.len()
                invariant
                    i < build.len(),
                    1 <= window_size <= MAX_TOKEN_SIZE + 1,
                    i + window_size <= build.len() + 1,
                    population == token_prefix@,
                    actions == texts(build@),
                    self.wf(),
                    old(self).windows_seen + MAX_TOKEN_SIZE * build.len() <= u32::MAX,
                    seen_start <= old(self).windows_seen + MAX_TOKEN_SIZE * i,
                    self.windows_seen == seen_start + (window_size - 1),
                    forall|t: TokenId|
                        #[trigger] count_of(self.tokens@, t) == count_of(row_start, t)
                            + occurrences_at(population, actions, i as int, window_size - 1, t),
                    self.probability == old(self).probability,
                    self.cached_token_probability == old(self).cached_token_probability,
                    self.token_paths == old(self).token_paths,
                    self.skipped_builds == old(self).skipped_builds,
                    self.build_comparison_information == old(self).build_comparison_information,
                decreases MAX_TOKEN_SIZE + 1 - window_size,
            {
                let token = Token::of_window(token_prefix.as_str(), build, i, window_size);
                let ghost counted = self.tokens@;
                count_token(&mut self.tokens, token);
                self.windows_seen = self.windows_seen + 1;
                proof {
                    assert forall|t: TokenId|
                        #[trigger] count_of(self.tokens@, t) == count_of(row_start, t)
                            + occurrences_at(
                            population,
                            actions,
                            i as int,
                            window_size as int,
                            t,
                        ) by {
                        assert(count_of(counted, t) == count_of(row_start, t) + occurrences_at(
                            population,
                            actions,
                            i as int,
                            window_size - 1,
                            t,
                        ));
                    }
                }
                window_size = window_size + 1;
            }
            proof {
                assert forall|t: TokenId|
                    #[trigger] count_of(self.tokens@, t) == count_of(before, t) + occurrences_upto(
                        population,
                        actions,
                        i + 1,
                        t,
                    ) by {
                    lemma_occurrences_at_fit(population, actions, i as int, window_size - 1, t);
                    assert(count_of(row_start, t) == count_of(before, t) + occurrences_upto(
                        population,
                        actions,
                        i as int,
                        t,
                    ));
                }
            }
            i = i + 1;
        }
    }

    /// Makes the probabilities from the counts: every token whose group was
    /// seen at least `MIN_CONTEXT_TOTAL` times gets its count out of the
    /// group's total. The probabilities made before are replaced.
    pub fn generate_token_distributions(&mut self)
        requires
            old(self).wf(),
        ensures
            final(self).wf(),
            table_of(final(self).probability@) == distribution(final(self).tokens@),
            final(self).cached_token_probability.kept() == 0,
            final(self).tokens == old(self).tokens,
            final(self).windows_seen == old(self).windows_seen,
            final(self).token_paths == old(self).token_paths,
            final(self).skipped_builds == old(self).skipped_builds,
            final(self).build_comparison_information == old(self).build_comparison_information,
    {
        let mut table: Vec<TokenProbability> = Vec::new();
        let mut k: usize = 0;
        assert(table_of(table@) =~= distribution_upto(self.tokens@, 0));
        while k < self.tokens.len()
            invariant
                k <= self.tokens.len(),
                self.wf(),
                *self == *old(self),
                table_of(table@) == distribution_upto(self.tokens@, k as int),
            decreases self.tokens.len() - k,
        {
            let total = group_total(&self.tokens, k);
            let ghost shown = table_of(table@);
            if total >= MIN_CONTEXT_TOTAL {
                table.push(
                    TokenProbability {
                        token: self.tokens[k].token.copy(),
                        count: self.tokens[k].count,
                        total,
                    },
                );
                assert(table_of(table@) =~= shown.push(
                    ProbabilityId {
                        token: self.tokens[k as int].token@,
                        count: self.tokens[k as int].count as int,
                        total: total as int,
                    },
                ));
            }
            k = k + 1;
        }
        proof {
            lemma_distribution_upto(
                self.tokens@,
                self.tokens.len() as int,
                Group { population: Seq::empty(), terminal: true, context: Seq::empty() },
            );
            lemma_distribution_unique(self.tokens@, self.tokens.len() as int);
        }
        self.probability = table;
        // what was worked out from the earlier probabilities no longer holds
        self.cached_token_probability = CompoundCache::new();
    }

    /// Cuts the build into the windows that make it most probable under the
    /// population `build_prefix`, and keeps the path. A build that cannot be
    /// cut into windows with a probability is noted as skipped. Where the
    /// search meets a window with a probability whose shorter windows have
    /// none, nothing is kept and the fault is returned.
    pub fn generate_token_paths(&mut self, build: &Vec<String>, build_prefix: String) -> (r: Result<
        (),
        FatalError,
    >)
        requires
            old(self).wf(),
        ensures
            final(self).wf(),
            final(self).tokens == old(self).tokens,
            final(self).windows_seen == old(self).windows_seen,
            final(self).probability == old(self).probability,
            final(self).build_comparison_information == old(self).build_comparison_information,
            match r {
                Err(e) => {
                    &&& e == FatalError::MissingFragmentProbability
                    &&& has_broken_window(old(self).probability@, build_prefix@, texts(build@))
                    &&& final(self).token_paths == old(self).token_paths
                    &&& final(self).skipped_builds == old(self).skipped_builds
                },
                Ok(_) => {
                    &&& !has_broken_window(old(self).probability@, build_prefix@, texts(build@))
                    &&& match best_upto(
                        old(self).probability@,
                        build_prefix@,
                        texts(build@),
                        build.len() as int,
                    ) {
                        Some(c) => {
                            &&& paths_of(final(self).token_paths@) == paths_of(
                                old(self).token_paths@,
                            ).push(
                                PathId {
                                    population: build_prefix@,
                                    actions: texts(build@),
                                    windows: c.windows,
                                    numerators: c.numerators,
                                    denominators: c.denominators,
                                },
                            )
                            &&& final(self).skipped_builds == old(self).skipped_builds
                        },
                        None => {
                            &&& final(self).token_paths == old(self).token_paths
                            &&& texts(final(self).skipped_builds@) == texts(
                                old(self).skipped_builds@,
                            ).push(join_spec(texts(build@), building_separator()))
                        },
                    }
                },
            },
    {
        let found = best_path(
            &self.probability,
            &mut self.cached_token_probability,
            build,
            &build_prefix,
        );
        match found {
            Err(e) => Err(e),
            Ok(None) => {
                proof {
                    reveal_strlit(",");
                    assert(","@ =~= building_separator());
                    assert(texts(build@).subrange(0, build.len() as int) =~= texts(build@));
                }
                let ghost skipped = texts(self.skipped_builds@);
                self.skipped_builds.push(join(build, 0, build.len(), ","));
                assert(texts(self.skipped_builds@) =~= skipped.push(
                    join_spec(texts(build@), building_separator()),
                ));
                Ok(())
            },
            Ok(Some(c)) => {
                proof {
                    lemma_best_wf(
                        self.probability@,
                        build_prefix@,
                        texts(build@),
                        build.len() as int,
                        0,
                    );
                }
                let path = SegmentedPath {
                    population: build_prefix,
                    actions: copy_texts(build),
                    windows: c.windows,
                    numerators: c.numerators,
                    denominators: c.denominators,
                };
                let ghost kept = paths_of(self.token_paths@);
                let ghost before = self.token_paths@;
                self.token_paths.push(path);
                assert(paths_of(self.token_paths@) =~= kept.push(path@));
                assert forall|i: int| 0 <= i < self.token_paths.len() implies path_wf(
                    #[trigger] self.token_paths[i]@,
                ) by {
                    if i < before.len() {
                        assert(self.token_paths[i] == before[i]);
                    }
                }
                Ok(())
            },
        }
    }

    /// Scores the difference of every two kept paths of one population whose
    /// identities are not the same text, each pair once, and keeps the
    /// differences that were not known, each under the two identities, the
    /// lower text first. Where a difference rests on an action without a
    /// probability, nothing is kept and the fault is returned.
    pub fn compare_builds(&mut self) -> (r: Result<(), FatalError>)
        requires
            old(self).wf(),
        ensures
            final(self).wf(),
            final(self).tokens == old(self).tokens,
            final(self).windows_seen == old(self).windows_seen,
            final(self).probability == old(self).probability,
            final(self).cached_token_probability == old(self).cached_token_probability,
            final(self).token_paths == old(self).token_paths,
            final(self).skipped_builds == old(self).skipped_builds,
            match fresh_comparisons(
                comparisons_of(old(self).build_comparison_information@),
                old(self).probability@,
                paths_of(old(self).token_paths@),
            ) {
                Some(fresh) => r is Ok && comparisons_of(final(self).build_comparison_information@)
                    == comparisons_of(old(self).build_comparison_information@) + fresh,
                None => r == Err::<(), FatalError>(FatalError::MissingActionProbability)
                    && final(self).build_comparison_information == old(
                    self,
                ).build_comparison_information,
            },
    {
        let ghost known = comparisons_of(self.build_comparison_information@);
        let ghost table = self.probability@;
        let ghost paths = paths_of(self.token_paths@);
        let n = self.token_paths.len();
        let mut ids: Vec<String> = Vec::new();
        let mut k: usize = 0;
        while k < n
            invariant
                k <= n,
                *self == *old(self),
                self.wf(),
                n == self.token_paths.len(),
                paths == paths_of(self.token_paths@),
                ids.len() == k,
                forall|t: int| 0 <= t < k ==> (#[trigger] ids[t])@ == path_identity(paths[t]),
            decreases n - k,
        {
            ids.push(self.token_paths[k].identity());
            k = k + 1;
        }
        let mut firsts: Vec<bool> = Vec::new();
        let mut i: usize = 0;
        while i < n
            invariant
                i <= n,
                n == self.token_paths.len(),
                paths == paths_of(self.token_paths@),
                ids.len() == n,
                forall|t: int| 0 <= t < n ==> (#[trigger] ids[t])@ == path_identity(paths[t]),
                firsts.len() == i,
                forall|t: int| 0 <= t < i ==> #[trigger] firsts[t] == first_seen(paths, t),
            decreases n - i,
        {
            let mut first = true;
            let mut k: usize = 0;
            while k < i
                invariant
                    k <= i < n,
                    n == self.token_paths.len(),
                    paths == paths_of(self.token_paths@),
                    ids.len() == n,
                    forall|t: int| 0 <= t < n ==> (#[trigger] ids[t])@ == path_identity(paths[t]),
                    first == (forall|t: int|
                        0 <= t < k ==> !same_path(#[trigger] paths[t], paths[i as int])),
                decreases i - k,
            {
                if self.token_paths[k].population == self.token_paths[i].population && ids[k]
                    == ids[i] {
                    assert(same_path(paths[k as int], paths[i as int]));
                    first = false;
                }
                k = k + 1;
            }
            firsts.push(first);
            i = i + 1;
        }
        let mut fresh: Vec<Comparison> = Vec::new();
        let mut i: usize = 0;
        assert(comparisons_of(fresh@) =~= Seq::<ComparisonId>::empty());
        while i < n
            invariant
                i <= n,
                *self == *old(self),
                self.wf(),
                n == self.token_paths.len(),
                n == paths.len(),
                known == comparisons_of(self.build_comparison_information@),
                table == self.probability@,
                paths == paths_of(self.token_paths@),
                firsts.len() == n,
                forall|t: int| 0 <= t < n ==> #[trigger] firsts[t] == first_seen(paths, t),
                ids.len() == n,
                forall|t: int| 0 <= t < n ==> (#[trigger] ids[t])@ == path_identity(paths[t]),
                rows_upto(known, table, paths, i as int) == Some(comparisons_of(fresh@)),
                comparisons_wf(comparisons_of(fresh@)),
            decreases n - i,
        {
            if firsts[i] {
                let ghost start = comparisons_of(fresh@);
                let ghost mut row = Seq::<ComparisonId>::empty();
                let mut j: usize = i + 1;
                assert(start + row =~= start);
                while j < n
                    invariant
                        i < j <= n,
                        *self == *old(self),
                        self.wf(),
                        firsts[i as int],
                        n == paths.len(),
                        n == self.token_paths.len(),
                        known == comparisons_of(self.build_comparison_information@),
                        table == self.probability@,
                        paths == paths_of(self.token_paths@),
                        firsts.len() == n,
                        forall|t: int| 0 <= t < n ==> #[trigger] firsts[t] == first_seen(paths, t),
                        ids.len() == n,
                        forall|t: int|
                            0 <= t < n ==> (#[trigger] ids[t])@ == path_identity(paths[t]),
                        rows_upto(known, table, paths, i as int) == Some(start),
                        row_upto(known, table, paths, i as int, j as int) == Some(row),
                        comparisons_of(fresh@) == start + row,
                        comparisons_wf(comparisons_of(fresh@)),
                    decreases n - j,
                {
                    if firsts[j] {
                        if self.token_paths[i].population == self.token_paths[j].population
                            && !(ids[i] == ids[j]) {
                            let i_first = text_less(ids[i].as_str(), ids[j].as_str());
                            let known_already = if i_first {
                                is_known(&self.build_comparison_information, &ids[i], &ids[j])
                            } else {
                                is_known(&self.build_comparison_information, &ids[j], &ids[i])
                            };
                            if !known_already {
                                assert(to_compare(known, paths, i as int, j as int));
                                let difference = if i_first {
                                    score(
                                        &self.probability,
                                        &self.token_paths[i],
                                        &self.token_paths[j],
                                    )
                                } else {
                                    score(
                                        &self.probability,
                                        &self.token_paths[j],
                                        &self.token_paths[i],
                                    )
                                };
                                match difference {
                                    Ok(c) => {
                                        proof {
                                            law_scored_builds_differ(
                                                table,
                                                paths[i as int],
                                                paths[j as int],
                                            );
                                        }
                                        let ghost before = comparisons_of(fresh@);
                                        fresh.push(c);
                                        proof {
                                            assert(comparisons_of(fresh@) =~= before.push(c@));
                                            assert(before.push(c@) =~= start + row.push(c@));
                                            row = row.push(c@);
                                        }
                                    },
                                    Err(e) => {
                                        proof {
                                            lemma_row_fails(
                                                known,
                                                table,
                                                paths,
                                                i as int,
                                                j + 1,
                                                n as int,
                                            );
                                            assert(first_seen(paths, i as int));
                                            assert(rows_upto(known, table, paths, i + 1) is None);
                                            lemma_rows_fail(known, table, paths, i + 1, n as int);
                                        }
                                        return Err(e);
                                    },
                                }
                            } else {
                                assert(!to_compare(known, paths, i as int, j as int));
                            }
                        } else {
                            assert(!to_compare(known, paths, i as int, j as int));
                        }
                    } else {
                        assert(!to_compare(known, paths, i as int, j as int));
                    }
                    j = j + 1;
                }
            }
            i = i + 1;
        }
        let ghost added = comparisons_of(fresh@);
        self.build_comparison_information.append(&mut fresh);
        assert(comparisons_of(self.build_comparison_information@) =~= known + added);
        Ok(())
    }
}

/// Windows that do not fit into the build make no token.
proof fn lemma_occurrences_at_fit(
    population: Seq<char>,
    build: Seq<Seq<char>>,
    start: int,
    sizes: int,
    t: TokenId,
)
    requires
        0 <= sizes <= MAX_TOKEN_SIZE,
        sizes == MAX_TOKEN_SIZE || start + sizes + 1 > build.len(),
    ensures
        occurrences_at(population, build, start, MAX_TOKEN_SIZE as int, t) == occurrences_at(
            population,
            build,
            start,
            sizes,
            t,
        ),
        sizes == if build.len() - start < MAX_TOKEN_SIZE {
            build.len() - start
        } else {
            MAX_TOKEN_SIZE as int
        } || start + sizes > build.len(),
{
    reveal_with_fuel(occurrences_at, 5);
}

/// Whether two tokens belong to one group.
fn same_group(a: &Token, b: &Token) -> (r: bool)
    ensures
        r == (group_of(a@) == group_of(b@)),
{
    if !(a.population == b.population) {
        return false;
    }
    let a_terminal = a.is_terminal();
    let b_terminal = b.is_terminal();
    if a_terminal || b_terminal {
        a_terminal && b_terminal
    } else {
        a.context == b.context
    }
}

/// The total of the group of the token at `k`.
fn group_total(tokens: &Vec<TokenCount>, k: usize) -> (total: u32)
    requires
        k < tokens.len(),
        sum_counts(tokens@) <= u32::MAX,
    ensures
        total == context_total(tokens@, group_of(tokens[k as int].token@)),
{
    let ghost group = group_of(tokens[k as int].token@);
    let mut total: u32 = 0;
    let mut j: usize = 0;
    assert(tokens@.take(0) =~= Seq::<TokenCount>::empty());
    while j < tokens.len()
        invariant
            j <= tokens.len(),
            k < tokens.len(),
            group == group_of(tokens[k as int].token@),
            sum_counts(tokens@) <= u32::MAX,
            total == context_total(tokens@.take(j as int), group),
        decreases tokens.len() - j,
    {
        proof {
            assert(tokens@.take(j + 1).drop_last() =~= tokens@.take(j as int));
            lemma_sum_prefix(tokens@, j + 1);
            lemma_total_bounds(tokens@.take(j + 1), group);
        }
        if same_group(&tokens[j].token, &tokens[k].token) {
            total = total + tokens[j].count;
        }
        j = j + 1;
    }
    assert(tokens@.take(j as int) =~= tokens@);
    total
}

} // verus!
