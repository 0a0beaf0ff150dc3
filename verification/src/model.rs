//! Token counts and the conditional probabilities made from them.

use vstd::prelude::*;
use crate::tokens::{token_terminator, window_token, Token, TokenId, MAX_TOKEN_SIZE};

verus! {

/// How often a token was seen.
#[derive(Debug, Clone, PartialEq, Eq)]
pub struct TokenCount {
    pub token: Token,
    pub count: u32,
}

/// The probability of a token given its context: `count` out of `total`.
#[derive(Debug, Clone, PartialEq, Eq)]
pub struct TokenProbability {
    pub token: Token,
    pub count: u32,
    pub total: u32,
}

/// A probability as mathematical values.
pub struct ProbabilityId {
    pub token: TokenId,
    pub count: int,
    pub total: int,
}

impl View for TokenProbability {
    type V = ProbabilityId;

    open spec fn view(&self) -> ProbabilityId {
        ProbabilityId { token: self.token@, count: self.count as int, total: self.total as int }
    }
}

/// The probabilities that a vector holds.
pub open spec fn table_of(v: Seq<TokenProbability>) -> Seq<ProbabilityId> {
    Seq::new(v.len(), |i: int| v[i]@)
}

/// A context has a probability only from this many occurrences on.
pub const MIN_CONTEXT_TOTAL: u32 = 10;

/// How often `t` was counted.
pub open spec fn count_of(entries: Seq<TokenCount>, t: TokenId) -> int
    decreases entries.len(),
{
    if entries.len() == 0 {
        0
    } else {
        count_of(entries.drop_last(), t) + if entries.last().token@ == t {
            entries.last().count as int
        } else {
            0
        }
    }
}

/// The sum of all counts.
pub open spec fn sum_counts(entries: Seq<TokenCount>) -> int
    decreases entries.len(),
{
    if entries.len() == 0 {
        0
    } else {
        sum_counts(entries.drop_last()) + entries.last().count
    }
}

/// What tokens share when their counts make one total. The tokens that are
/// keyed by the terminator make one group per population; the others make one
/// group per population and context.
pub struct Group {
    pub population: Seq<char>,
    pub terminal: bool,
    pub context: Seq<char>,
}

/// The group of a token.
pub open spec fn group_of(t: TokenId) -> Group {
    if t.next == token_terminator() {
        Group { population: t.population, terminal: true, context: Seq::empty() }
    } else {
        Group { population: t.population, terminal: false, context: t.context }
    }
}

/// The sum of the counts of the tokens of one group.
pub open spec fn context_total(entries: Seq<TokenCount>, group: Group) -> int
    decreases entries.len(),
{
    if entries.len() == 0 {
        0
    } else {
        context_total(entries.drop_last(), group) + if group_of(entries.last().token@) == group {
            entries.last().count as int
        } else {
            0
        }
    }
}

/// The probabilities made from the first `n` counts: one for each token whose
/// group was seen at least `MIN_CONTEXT_TOTAL` times, in the order of the counts.
pub open spec fn distribution_upto(entries: Seq<TokenCount>, n: int) -> Seq<ProbabilityId>
    decreases n,
{
    if n <= 0 {
        Seq::empty()
    } else {
        let e = entries[n - 1];
        let total = context_total(entries, group_of(e.token@));
        if total >= MIN_CONTEXT_TOTAL {
            distribution_upto(entries, n - 1).push(
                ProbabilityId { token: e.token@, count: e.count as int, total },
            )
        } else {
            distribution_upto(entries, n - 1)
        }
    }
}

/// The probabilities made from the counts.
pub open spec fn distribution(entries: Seq<TokenCount>) -> Seq<ProbabilityId> {
    distribution_upto(entries, entries.len() as int)
}

/// How many of the windows of sizes 1 to `sizes` that start at `start` make
/// the token `t`.
pub open spec fn occurrences_at(
    population: Seq<char>,
    build: Seq<Seq<char>>,
    start: int,
    sizes: int,
    t: TokenId,
) -> int
    decreases sizes,
{
    if sizes <= 0 {
        0
    } else {
        occurrences_at(population, build, start, sizes - 1, t) + if start + sizes <= build.len()
            && window_token(population, build, start, sizes) == t {
            1int
        } else {
            0
        }
    }
}

/// How many of the windows that start before `starts` make the token `t`.
pub open spec fn occurrences_upto(
    population: Seq<char>,
    build: Seq<Seq<char>>,
    starts: int,
    t: TokenId,
) -> int
    decreases starts,
{
    if starts <= 0 {
        0
    } else {
        occurrences_upto(population, build, starts - 1, t) + occurrences_at(
            population,
            build,
            starts - 1,
            MAX_TOKEN_SIZE as int,
            t,
        )
    }
}

/// How many windows of the build make the token `t`: windows of 1 to
/// `MAX_TOKEN_SIZE` actions at every start.
pub open spec fn occurrences(population: Seq<char>, build: Seq<Seq<char>>, t: TokenId) -> int {
    occurrences_upto(population, build, build.len() as int, t)
}

/// `after` counts what `before` counts and every window of the build once.
pub open spec fn learned(
    before: Seq<TokenCount>,
    after: Seq<TokenCount>,
    population: Seq<char>,
    build: Seq<Seq<char>>,
) -> bool {
    forall|t: TokenId|
        #[trigger] count_of(after, t) == count_of(before, t) + occurrences(population, build, t)
}

/// No token is counted in two places, no count is 0, and the counts add up to
/// `seen`.
pub open spec fn counts_wf(entries: Seq<TokenCount>, seen: int) -> bool {
    &&& forall|i: int| 0 <= i < entries.len() ==> (#[trigger] entries[i]).count >= 1
    &&& forall|i: int, j: int|
        0 <= i < j < entries.len() ==> (#[trigger] entries[i]).token@ != (#[trigger] entries[j]).token@
    &&& sum_counts(entries) == seen
}

/// A count is at most the sum of all counts.
pub proof fn lemma_count_bounds(entries: Seq<TokenCount>, t: TokenId)
    ensures
        0 <= count_of(entries, t) <= sum_counts(entries),
    decreases entries.len(),
{
    if entries.len() > 0 {
        lemma_count_bounds(entries.drop_last(), t);
    }
}

/// The total of a group is at most the sum of all counts.
pub proof fn lemma_total_bounds(entries: Seq<TokenCount>, group: Group)
    ensures
        0 <= context_total(entries, group) <= sum_counts(entries),
    decreases entries.len(),
{
    if entries.len() > 0 {
        lemma_total_bounds(entries.drop_last(), group);
    }
}

/// An entry's count is part of its group's total, and of the sum.
pub proof fn lemma_entry_in_total(entries: Seq<TokenCount>, i: int)
    requires
        0 <= i < entries.len(),
    ensures
        entries[i].count <= context_total(entries, group_of(entries[i].token@)),
        entries[i].count <= sum_counts(entries),
    decreases entries.len(),
{
    let g = group_of(entries[i].token@);
    if i < entries.len() - 1 {
        lemma_entry_in_total(entries.drop_last(), i);
    } else {
        lemma_total_bounds(entries.drop_last(), g);
        lemma_count_bounds(entries.drop_last(), entries[i].token@);
    }
}

/// What one more occurrence at entry `k` does to the counts.
pub proof fn lemma_count_raised(before: Seq<TokenCount>, after: Seq<TokenCount>, k: int, t: TokenId)
    requires
        0 <= k < before.len(),
        after.len() == before.len(),
        forall|i: int| 0 <= i < before.len() && i != k ==> after[i] == before[i],
        after[k].token@ == before[k].token@,
        after[k].count == before[k].count + 1,
    ensures
        count_of(after, t) == count_of(before, t) + if before[k].token@ == t {
            1int
        } else {
            0
        },
        sum_counts(after) == sum_counts(before) + 1,
    decreases before.len(),
{
    let n = before.len() - 1;
    if k < n {
        assert(after.last() == before.last());
        lemma_count_raised(before.drop_last(), after.drop_last(), k, t);
    } else {
        assert(after.drop_last() =~= before.drop_last());
    }
}

/// The first counts add up to no more than all of them.
pub proof fn lemma_sum_prefix(entries: Seq<TokenCount>, n: int)
    requires
        0 <= n <= entries.len(),
    ensures
        0 <= sum_counts(entries.take(n)) <= sum_counts(entries),
    decreases entries.len() - n,
{
    if n < entries.len() {
        lemma_sum_prefix(entries, n + 1);
        assert(entries.take(n + 1).drop_last() =~= entries.take(n));
        lemma_total_bounds(entries.take(n), Group { population: Seq::empty(), terminal: true, context: Seq::empty() });
    } else {
        assert(entries.take(n) =~= entries);
        lemma_total_bounds(entries, Group { population: Seq::empty(), terminal: true, context: Seq::empty() });
    }
}

/// Every probability is a count of at least 1 out of a total of at least
/// `MIN_CONTEXT_TOTAL` that holds it.
pub open spec fn probabilities_fit(table: Seq<ProbabilityId>) -> bool {
    forall|i: int|
        0 <= i < table.len() ==> 1 <= (#[trigger] table[i]).count <= table[i].total
            && MIN_CONTEXT_TOTAL <= table[i].total <= u32::MAX
}

/// No token has two probabilities.
pub open spec fn no_token_twice(table: Seq<ProbabilityId>) -> bool {
    forall|i: int, j: int|
        0 <= i < j < table.len() ==> (#[trigger] table[i]).token != (#[trigger] table[j]).token
}

/// The table maps tokens to probabilities: every probability fits, and no
/// token has two.
pub open spec fn table_wf(table: Seq<ProbabilityId>) -> bool {
    probabilities_fit(table) && no_token_twice(table)
}

/// The sum of the counts of the probabilities of one group.
pub open spec fn group_sum(table: Seq<ProbabilityId>, group: Group) -> int
    decreases table.len(),
{
    if table.len() == 0 {
        0
    } else {
        group_sum(table.drop_last(), group) + if group_of(table.last().token) == group {
            table.last().count
        } else {
            0
        }
    }
}

/// What holds of the probabilities made from the first `n` counts: they
/// fit, those of one group have the group's total, and their counts
/// add up to what the first `n` counts hold of the group.
pub proof fn lemma_distribution_upto(entries: Seq<TokenCount>, n: int, group: Group)
    requires
        0 <= n <= entries.len(),
        forall|i: int| 0 <= i < entries.len() ==> (#[trigger] entries[i]).count >= 1,
        sum_counts(entries) <= u32::MAX,
    ensures
        probabilities_fit(distribution_upto(entries, n)),
        group_sum(distribution_upto(entries, n), group) == if context_total(entries, group)
            >= MIN_CONTEXT_TOTAL {
            context_total(entries.take(n), group)
        } else {
            0
        },
        forall|i: int|
            0 <= i < distribution_upto(entries, n).len() && group_of(
                (#[trigger] distribution_upto(entries, n)[i]).token,
            ) == group ==> distribution_upto(entries, n)[i].total == context_total(entries, group),
    decreases n,
{
    if n > 0 {
        lemma_distribution_upto(entries, n - 1, group);
        let e = entries[n - 1];
        assert(entries.take(n).drop_last() =~= entries.take(n - 1));
        assert(entries.take(n).last() == e);
        lemma_entry_in_total(entries, n - 1);
        lemma_total_bounds(entries, group_of(e.token@));
        let d = distribution_upto(entries, n);
        let d1 = distribution_upto(entries, n - 1);
        if context_total(entries, group_of(e.token@)) >= MIN_CONTEXT_TOTAL {
            assert(d.drop_last() =~= d1);
        }
    } else {
        assert(entries.take(0) =~= Seq::<TokenCount>::empty());
    }
}

/// The probabilities made from counts that hold no token twice hold no token
/// twice, and each is that of one of the counts.
pub proof fn lemma_distribution_unique(entries: Seq<TokenCount>, n: int)
    requires
        0 <= n <= entries.len(),
        forall|i: int, j: int|
            0 <= i < j < entries.len() ==> (#[trigger] entries[i]).token@ != (
            #[trigger] entries[j]).token@,
    ensures
        no_token_twice(distribution_upto(entries, n)),
        forall|i: int|
            0 <= i < distribution_upto(entries, n).len() ==> exists|k: int|
                0 <= k < n && (#[trigger] entries[k]).token@ == (#[trigger] distribution_upto(
                    entries,
                    n,
                )[i]).token,
    decreases n,
{
    if n > 0 {
        lemma_distribution_unique(entries, n - 1);
        let e = entries[n - 1];
        let d = distribution_upto(entries, n);
        let d1 = distribution_upto(entries, n - 1);
        assert forall|i: int| 0 <= i < d.len() implies exists|k: int|
            0 <= k < n && (#[trigger] entries[k]).token@ == (#[trigger] d[i]).token by {
            if i < d1.len() {
                assert(d[i] == d1[i]);
                let k = choose|k: int|
                    0 <= k < n - 1 && (#[trigger] entries[k]).token@ == d1[i].token;
                assert(entries[k].token@ == d[i].token);
            } else {
                assert(entries[n - 1].token@ == d[i].token);
            }
        }
        assert forall|i: int, j: int| 0 <= i < j < d.len() implies (#[trigger] d[i]).token != (
        #[trigger] d[j]).token by {
            if j < d1.len() {
                assert(d[i] == d1[i] && d[j] == d1[j]);
            } else {
                assert(d[i] == d1[i]);
                let k = choose|k: int|
                    0 <= k < n - 1 && (#[trigger] entries[k]).token@ == d1[i].token;
                assert(entries[k].token@ != entries[n - 1].token@);
            }
        }
    }
}

/// Every counted token whose group was seen often enough has its
/// probability: its count out of the total of its group.
pub proof fn law_counted_token_has_probability(entries: Seq<TokenCount>, k: int)
    requires
        0 <= k < entries.len(),
        context_total(entries, group_of(entries[k].token@)) >= MIN_CONTEXT_TOTAL,
    ensures
        distribution(entries).contains(
            ProbabilityId {
                token: entries[k].token@,
                count: entries[k].count as int,
                total: context_total(entries, group_of(entries[k].token@)),
            },
        ),
{
    lemma_distribution_keeps(entries, entries.len() as int, k);
}

proof fn lemma_distribution_keeps(entries: Seq<TokenCount>, n: int, k: int)
    requires
        0 <= k < n <= entries.len(),
        context_total(entries, group_of(entries[k].token@)) >= MIN_CONTEXT_TOTAL,
    ensures
        distribution_upto(entries, n).contains(
            ProbabilityId {
                token: entries[k].token@,
                count: entries[k].count as int,
                total: context_total(entries, group_of(entries[k].token@)),
            },
        ),
    decreases n,
{
    let p = ProbabilityId {
        token: entries[k].token@,
        count: entries[k].count as int,
        total: context_total(entries, group_of(entries[k].token@)),
    };
    let d = distribution_upto(entries, n);
    if k == n - 1 {
        assert(d[d.len() - 1] == p);
    } else {
        lemma_distribution_keeps(entries, n - 1, k);
        let d1 = distribution_upto(entries, n - 1);
        let i = choose|i: int| 0 <= i < d1.len() && d1[i] == p;
        assert(d[i] == p);
    }
}

/// Of every group with a probability, the counts of its probabilities add up
/// to the total that each of them is out of: the probabilities of the tokens
/// that share a context sum to one.
pub proof fn law_group_sums_to_total(entries: Seq<TokenCount>, group: Group)
    requires
        forall|i: int| 0 <= i < entries.len() ==> (#[trigger] entries[i]).count >= 1,
        sum_counts(entries) <= u32::MAX,
    ensures
        context_total(entries, group) >= MIN_CONTEXT_TOTAL ==> group_sum(
            distribution(entries),
            group,
        ) == context_total(entries, group),
        context_total(entries, group) < MIN_CONTEXT_TOTAL ==> group_sum(
            distribution(entries),
            group,
        ) == 0,
        forall|i: int|
            0 <= i < distribution(entries).len() && group_of(
                (#[trigger] distribution(entries)[i]).token,
            ) == group ==> distribution(entries)[i].total == context_total(entries, group)
                && context_total(entries, group) >= MIN_CONTEXT_TOTAL,
{
    lemma_distribution_upto(entries, entries.len() as int, group);
    assert(entries.take(entries.len() as int) =~= entries);
}

/// Counting a build twice adds to every count twice what counting it once
/// adds, and leaves the count of a token that the build does not make as it
/// was.
pub proof fn law_learning_twice_doubles(
    start: Seq<TokenCount>,
    once: Seq<TokenCount>,
    twice: Seq<TokenCount>,
    population: Seq<char>,
    build: Seq<Seq<char>>,
    t: TokenId,
)
    requires
        learned(start, once, population, build),
        learned(once, twice, population, build),
    ensures
        count_of(twice, t) - count_of(start, t) == 2 * (count_of(once, t) - count_of(start, t)),
        count_of(start, t) == 0 ==> count_of(twice, t) == 2 * count_of(once, t),
        occurrences(population, build, t) == 0 ==> count_of(twice, t) == count_of(start, t),
{
    assert(count_of(once, t) == count_of(start, t) + occurrences(population, build, t));
    assert(count_of(twice, t) == count_of(once, t) + occurrences(population, build, t));
}

/// The number of windows of a build that start before `starts`.
pub open spec fn window_count_upto(len: int, starts: int) -> int
    decreases starts,
{
    if starts <= 0 {
        0
    } else {
        window_count_upto(len, starts - 1) + if len - (starts - 1) < MAX_TOKEN_SIZE {
            len - (starts - 1)
        } else {
            MAX_TOKEN_SIZE as int
        }
    }
}

/// The number of windows of a build of `len` actions.
pub open spec fn window_count(len: int) -> int {
    window_count_upto(len, len)
}

/// Counts one more occurrence of `token`.
pub fn count_token(tokens: &mut Vec<TokenCount>, token: Token)
    requires
        counts_wf(old(tokens)@, sum_counts(old(tokens)@)),
        sum_counts(old(tokens)@) < u32::MAX,
    ensures
        counts_wf(final(tokens)@, sum_counts(old(tokens)@) + 1),
        forall|t: TokenId|
            #[trigger] count_of(final(tokens)@, t) == count_of(old(tokens)@, t) + if t == token@ {
                1int
            } else {
                0
            },
{
    let ghost before = tokens@;
    let mut k: usize = 0;
    while k < tokens.len()
        invariant
            k <= tokens.len(),
            tokens@ == before,
            before == old(tokens)@,
            counts_wf(before, sum_counts(before)),
            sum_counts(before) < u32::MAX,
            forall|i: int| 0 <= i < k ==> (#[trigger] tokens[i]).token@ != token@,
        decreases tokens.len() - k,
    {
        if tokens[k].token.same(&token) {
            proof {
                lemma_entry_in_total(before, k as int);
            }
            assert(tokens[k as int].count < u32::MAX);
            let raised: u32 = tokens[k].count + 1;
            tokens[k].count = raised;
            proof {
                let after = tokens@;
                assert(after.len() == before.len());
                assert(after[k as int].count == before[k as int].count + 1);
                assert(after[k as int].token == before[k as int].token);
                assert(forall|i: int| 0 <= i < before.len() && i != k ==> after[i] == before[i]);
                assert forall|t: TokenId|
                    #[trigger] count_of(after, t) == count_of(before, t) + if t == token@ {
                        1int
                    } else {
                        0
                    } by {
                    lemma_count_raised(before, after, k as int, t);
                }
                lemma_count_raised(before, after, k as int, token@);
            }
            return ;
        }
        k = k + 1;
    }
    tokens.push(TokenCount { token, count: 1 });
    proof {
        assert(tokens@.drop_last() =~= before);
    }
}

} // verus!
