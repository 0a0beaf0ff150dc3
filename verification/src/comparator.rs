//! The weighted difference between two segmented builds of one population,
//! kept under the identities of the two paths.

use vstd::prelude::*;
use crate::aligner::{
    blocks_of, get_matching_blocks, law_blocks_sorted, matching_blocks, whole, Block,
};
use crate::error::FatalError;
use crate::model::TokenProbability;
use crate::segmenter::{lookup, lookup_probability, path_identity, path_wf, PathId, SegmentedPath};
use crate::text::{lemma_lex_total, lex_less, text_less, texts};
use crate::tokens::{token_terminator, Token, TokenId};

verus! {

/// Only the actions at the first `SCORED_ACTIONS` places of a build add to a
/// difference.
pub const SCORED_ACTIONS: usize = 10;

/// Up to this place an action weighs in full.
pub const FULL_WEIGHT_UPTO: usize = 5;

/// The number of places over which the weight falls to nothing.
pub const DECAY_PLACES: usize = 5;

/// The share of its weight that a term at place `index` keeps, as numerator
/// and denominator: all of it up to place `FULL_WEIGHT_UPTO`, then one part
/// in `DECAY_PLACES` less with every place, and nothing from place
/// `SCORED_ACTIONS` on.
pub open spec fn decay_spec(index: int) -> (int, int) {
    if index <= FULL_WEIGHT_UPTO {
        (DECAY_PLACES as int, DECAY_PLACES as int)
    } else if index < SCORED_ACTIONS {
        (DECAY_PLACES - (index - FULL_WEIGHT_UPTO), DECAY_PLACES as int)
    } else {
        (0, DECAY_PLACES as int)
    }
}

/// The share of its weight that a term at place `index` keeps.
pub fn decay(index: usize) -> (share: (usize, usize))
    ensures
        share.0 == decay_spec(index as int).0,
        share.1 == decay_spec(index as int).1,
{
    if index <= FULL_WEIGHT_UPTO {
        (DECAY_PLACES, DECAY_PLACES)
    } else if index < SCORED_ACTIONS {
        (DECAY_PLACES - (index - FULL_WEIGHT_UPTO), DECAY_PLACES)
    } else {
        (0, DECAY_PLACES)
    }
}

/// One term of a difference: an action that one build has outside every
/// common block. The action's probability is `count` out of `total`;
/// `repetitions` says how often the action is missing in that build, `index`
/// where in the build this occurrence stands. The term weighs in with the
/// surprisal of the action, over `repetitions`, times the share that
/// `decay` gives for `index`.
#[derive(Debug, Clone, PartialEq, Eq)]
pub struct ScoreTerm {
    pub count: u32,
    pub total: u32,
    pub repetitions: usize,
    pub index: usize,
}

/// A term as mathematical values.
pub struct TermId {
    pub count: int,
    pub total: int,
    pub repetitions: int,
    pub index: int,
}

impl View for ScoreTerm {
    type V = TermId;

    open spec fn view(&self) -> TermId {
        TermId {
            count: self.count as int,
            total: self.total as int,
            repetitions: self.repetitions as int,
            index: self.index as int,
        }
    }
}

/// The difference between two paths of one population. `first` and `second`
/// are the identities of the paths, `first` being the text that comes first. `terms`
/// holds the terms of the first build, then those of the second.
#[derive(Debug, Clone, PartialEq, Eq)]
pub struct Comparison {
    pub first: String,
    pub second: String,
    pub terms: Vec<ScoreTerm>,
}

/// A difference as mathematical values.
pub struct ComparisonId {
    pub first: Seq<char>,
    pub second: Seq<char>,
    pub terms: Seq<TermId>,
}

/// The terms that a vector holds.
pub open spec fn terms_of(v: Seq<ScoreTerm>) -> Seq<TermId> {
    Seq::new(v.len(), |i: int| v[i]@)
}

impl View for Comparison {
    type V = ComparisonId;

    open spec fn view(&self) -> ComparisonId {
        ComparisonId { first: self.first@, second: self.second@, terms: terms_of(self.terms@) }
    }
}

/// The differences that a vector holds.
pub open spec fn comparisons_of(v: Seq<Comparison>) -> Seq<ComparisonId> {
    Seq::new(v.len(), |i: int| v[i]@)
}

/// The text that identifies a comparison: the identities of the two paths
/// with the build separator between them.
pub open spec fn comparison_key(c: ComparisonId) -> Seq<char> {
    c.first + crate::tokens::build_separator() + c.second
}

/// Where the block starts in the first build, or in the second.
pub open spec fn block_start(b: Block, in_second: bool) -> int {
    if in_second {
        b.1
    } else {
        b.0
    }
}

/// Place `i` lies in one of the blocks.
pub open spec fn in_block(blocks: Seq<Block>, in_second: bool, i: int) -> bool
    decreases blocks.len(),
{
    if blocks.len() == 0 {
        false
    } else {
        let b = blocks.last();
        (block_start(b, in_second) <= i < block_start(b, in_second) + b.2) || in_block(
            blocks.drop_last(),
            in_second,
            i,
        )
    }
}

/// How often `action` stands outside every block at the first `n` places.
pub open spec fn repetitions_upto(
    actions: Seq<Seq<char>>,
    blocks: Seq<Block>,
    in_second: bool,
    action: Seq<char>,
    n: int,
) -> int
    decreases n,
{
    if n <= 0 {
        0
    } else {
        repetitions_upto(actions, blocks, in_second, action, n - 1) + if !in_block(
            blocks,
            in_second,
            n - 1,
        ) && actions[n - 1] == action {
            1int
        } else {
            0
        }
    }
}

/// The token of an action on its own.
pub open spec fn action_token(population: Seq<char>, action: Seq<char>) -> TokenId {
    TokenId { population, context: action, next: token_terminator() }
}

/// The terms of the actions that stand outside every block at the first `n`
/// places. `None` where one of these actions has no probability.
pub open spec fn missing_terms_upto(
    table: Seq<TokenProbability>,
    population: Seq<char>,
    actions: Seq<Seq<char>>,
    blocks: Seq<Block>,
    in_second: bool,
    n: int,
) -> Option<Seq<TermId>>
    decreases n,
{
    if n <= 0 {
        Some(Seq::empty())
    } else {
        match missing_terms_upto(table, population, actions, blocks, in_second, n - 1) {
            None => None,
            Some(terms) => if in_block(blocks, in_second, n - 1) {
                Some(terms)
            } else {
                match lookup(table, action_token(population, actions[n - 1])) {
                    None => None,
                    Some(p) => Some(
                        terms.push(
                            TermId {
                                count: p.0 as int,
                                total: p.1 as int,
                                repetitions: repetitions_upto(
                                    actions,
                                    blocks,
                                    in_second,
                                    actions[n - 1],
                                    actions.len() as int,
                                ),
                                index: n - 1,
                            },
                        ),
                    ),
                }
            },
        }
    }
}

/// The number of places of a build that are scored.
pub open spec fn scored_len(len: int) -> int {
    if len < SCORED_ACTIONS {
        len
    } else {
        SCORED_ACTIONS as int
    }
}

/// The terms of one build of a comparison.
pub open spec fn missing_terms(
    table: Seq<TokenProbability>,
    population: Seq<char>,
    actions: Seq<Seq<char>>,
    blocks: Seq<Block>,
    in_second: bool,
) -> Option<Seq<TermId>> {
    missing_terms_upto(
        table,
        population,
        actions,
        blocks,
        in_second,
        scored_len(actions.len() as int),
    )
}

/// What comparing two paths comes to.
pub enum Outcome {
    /// The paths are of different populations, or they are the same text.
    Skipped,
    /// An action that the difference rests on has no probability.
    Fault,
    /// The difference.
    Scored(ComparisonId),
}

/// The difference between the paths `p` and `q` of one population, `p` taken
/// as the first.
pub open spec fn scored(table: Seq<TokenProbability>, p: PathId, q: PathId) -> Outcome {
    let blocks = matching_blocks(p.actions, q.actions);
    match (
        missing_terms(table, p.population, p.actions, blocks, false),
        missing_terms(table, p.population, q.actions, blocks, true),
    ) {
        (Some(in_p), Some(in_q)) => Outcome::Scored(
            ComparisonId { first: path_identity(p), second: path_identity(q), terms: in_p + in_q },
        ),
        _ => Outcome::Fault,
    }
}

/// The two paths can be compared: they are of one population, and their
/// identities are not the same text.
pub open spec fn comparable(p: PathId, q: PathId) -> bool {
    p.population == q.population && path_identity(p) != path_identity(q)
}

/// `p` is the first path of the comparison of `p` and `q`: its identity is
/// the text that comes first.
pub open spec fn comes_first(p: PathId, q: PathId) -> bool {
    lex_less(path_identity(p), path_identity(q))
}

/// What comparing `p` and `q` comes to. The path whose identity comes first
/// in the order of texts is taken as the first, so the outcome does not depend
/// on the order in which the two are given.
pub open spec fn pair_outcome(table: Seq<TokenProbability>, p: PathId, q: PathId) -> Outcome {
    if !comparable(p, q) {
        Outcome::Skipped
    } else if comes_first(p, q) {
        scored(table, p, q)
    } else {
        scored(table, q, p)
    }
}

/// No block reaches beyond what a `usize` holds.
pub open spec fn blocks_fit(blocks: Seq<(usize, usize, usize)>) -> bool {
    forall|t: int|
        0 <= t < blocks.len() ==> (#[trigger] blocks[t]).0 + blocks[t].2 <= usize::MAX && blocks[t].1
            + blocks[t].2 <= usize::MAX
}

/// Whether place `i` lies in one of the blocks.
fn is_in_block(blocks: &Vec<(usize, usize, usize)>, in_second: bool, i: usize) -> (r: bool)
    requires
        blocks_fit(blocks@),
    ensures
        r == in_block(blocks_of(blocks@), in_second, i as int),
{
    let ghost all = blocks_of(blocks@);
    let mut k: usize = 0;
    assert(all.take(0) =~= Seq::<Block>::empty());
    while k < blocks.len()
        invariant
            k <= blocks.len(),
            all == blocks_of(blocks@),
            blocks_fit(blocks@),
            !in_block(all.take(k as int), in_second, i as int),
        decreases blocks.len() - k,
    {
        let block = blocks[k];
        let start = if in_second {
            block.1
        } else {
            block.0
        };
        proof {
            assert(all.take(k + 1).drop_last() =~= all.take(k as int));
            assert(all.take(k + 1).last() == crate::aligner::block_of(block));
        }
        if start <= i && i < start + block.2 {
            proof {
                lemma_in_block_grows(all, in_second, i as int, k + 1);
            }
            return true;
        }
        k = k + 1;
    }
    assert(all.take(k as int) =~= all);
    false
}

/// A place that lies in one of the first blocks lies in one of all blocks.
proof fn lemma_in_block_grows(blocks: Seq<Block>, in_second: bool, i: int, n: int)
    requires
        0 <= n <= blocks.len(),
        in_block(blocks.take(n), in_second, i),
    ensures
        in_block(blocks, in_second, i),
    decreases blocks.len() - n,
{
    if n < blocks.len() {
        assert(blocks.take(n + 1).drop_last() =~= blocks.take(n));
        lemma_in_block_grows(blocks, in_second, i, n + 1);
    } else {
        assert(blocks.take(n) =~= blocks);
    }
}

/// How often `action` stands outside every block.
fn count_repetitions(
    actions: &Vec<String>,
    blocks: &Vec<(usize, usize, usize)>,
    in_second: bool,
    action: &String,
) -> (count: usize)
    requires
        blocks_fit(blocks@),
    ensures
        count == repetitions_upto(
            texts(actions@),
            blocks_of(blocks@),
            in_second,
            action@,
            actions.len() as int,
        ),
{
    let mut count: usize = 0;
    let mut j: usize = 0;
    while j < actions.len()
        invariant
            j <= actions.len(),
            count <= j,
            blocks_fit(blocks@),
            count == repetitions_upto(
                texts(actions@),
                blocks_of(blocks@),
                in_second,
                action@,
                j as int,
            ),
        decreases actions.len() - j,
    {
        if !is_in_block(blocks, in_second, j) && actions[j] == *action {
            count = count + 1;
        }
        j = j + 1;
    }
    count
}

/// The terms of one build of a comparison.
fn terms_of_side(
    table: &Vec<TokenProbability>,
    population: &str,
    actions: &Vec<String>,
    blocks: &Vec<(usize, usize, usize)>,
    in_second: bool,
) -> (r: Option<Vec<ScoreTerm>>)
    requires
        blocks_fit(blocks@),
    ensures
        match r {
            Some(v) => missing_terms(
                table@,
                population@,
                texts(actions@),
                blocks_of(blocks@),
                in_second,
            ) == Some(terms_of(v@)),
            None => missing_terms(
                table@,
                population@,
                texts(actions@),
                blocks_of(blocks@),
                in_second,
            ) is None,
        },
{
    let scored: usize = if actions.len() < SCORED_ACTIONS {
        actions.len()
    } else {
        SCORED_ACTIONS
    };
    let mut terms: Vec<ScoreTerm> = Vec::new();
    let mut index: usize = 0;
    assert(terms_of(terms@) =~= Seq::<TermId>::empty());
    while index < scored
        invariant
            index <= scored <= actions.len(),
            scored == scored_len(actions.len() as int),
            blocks_fit(blocks@),
            missing_terms_upto(
                table@,
                population@,
                texts(actions@),
                blocks_of(blocks@),
                in_second,
                index as int,
            ) == Some(terms_of(terms@)),
        decreases scored - index,
    {
        if !is_in_block(blocks, in_second, index) {
            proof {
                reveal_strlit("NONE");
                assert("NONE"@ =~= token_terminator());
            }
            let token = Token {
                population: String::from_str(population),
                context: actions[index].clone(),
                next: String::from_str("NONE"),
            };
            assert(token@ == action_token(population@, texts(actions@)[index as int]));
            match lookup_probability(table, &token) {
                None => {
                    proof {
                        lemma_missing_terms_fail(
                            table@,
                            population@,
                            texts(actions@),
                            blocks_of(blocks@),
                            in_second,
                            index + 1,
                            scored as int,
                        );
                    }
                    return None;
                },
                Some(p) => {
                    let repetitions = count_repetitions(actions, blocks, in_second, &actions[index]);
                    let ghost before = terms_of(terms@);
                    terms.push(ScoreTerm { count: p.0, total: p.1, repetitions, index });
                    assert(terms_of(terms@) =~= before.push(
                        TermId {
                            count: p.0 as int,
                            total: p.1 as int,
                            repetitions: repetitions as int,
                            index: index as int,
                        },
                    ));
                },
            }
        }
        index = index + 1;
    }
    Some(terms)
}

/// Once an action has no probability, the terms stay undefined.
proof fn lemma_missing_terms_fail(
    table: Seq<TokenProbability>,
    population: Seq<char>,
    actions: Seq<Seq<char>>,
    blocks: Seq<Block>,
    in_second: bool,
    n: int,
    m: int,
)
    requires
        0 <= n <= m,
        missing_terms_upto(table, population, actions, blocks, in_second, n) is None,
    ensures
        missing_terms_upto(table, population, actions, blocks, in_second, m) is None,
    decreases m - n,
{
    if n < m {
        lemma_missing_terms_fail(table, population, actions, blocks, in_second, n, m - 1);
    }
}

/// The difference between the paths `p` and `q` of one population, `p` taken
/// as the first.
pub fn score(table: &Vec<TokenProbability>, p: &SegmentedPath, q: &SegmentedPath) -> (r: Result<
    Comparison,
    FatalError,
>)
    requires
        path_wf(p@),
        path_wf(q@),
    ensures
        match scored(table@, p@, q@) {
            Outcome::Scored(c) => r matches Ok(x) && x@ == c,
            _ => r == Err::<Comparison, FatalError>(FatalError::MissingActionProbability),
        },
{
    let a = &p.actions;
    let b = &q.actions;
    let blocks = get_matching_blocks(a, b);
    proof {
        law_blocks_sorted(texts(a@), texts(b@));
        assert forall|t: int| 0 <= t < blocks.len() implies (#[trigger] blocks[t]).0 + blocks[t].2
            <= usize::MAX && blocks[t].1 + blocks[t].2 <= usize::MAX by {
            let found = matching_blocks(texts(a@), texts(b@));
            assert(found[t] == crate::aligner::block_of(blocks[t]));
            assert(crate::aligner::match_within(
                texts(a@),
                texts(b@),
                whole(texts(a@), texts(b@)),
                found[t].0,
                found[t].1,
                found[t].2,
            ));
            assert(texts(a@).len() == a.len() && texts(b@).len() == b.len());
            assert(found[t].0 + found[t].2 <= a.len());
            assert(found[t].1 + found[t].2 <= b.len());
            assert(found[t].0 == blocks[t].0 && found[t].1 == blocks[t].1 && found[t].2
                == blocks[t].2);
        }
    }
    let in_p = terms_of_side(table, p.population.as_str(), a, &blocks, false);
    let in_q = terms_of_side(table, p.population.as_str(), b, &blocks, true);
    match (in_p, in_q) {
        (Some(mut terms), Some(mut more)) => {
            let ghost front = terms_of(terms@);
            let ghost back = terms_of(more@);
            terms.append(&mut more);
            assert(terms_of(terms@) =~= front + back);
            Ok(Comparison { first: p.identity(), second: q.identity(), terms })
        },
        _ => Err(FatalError::MissingActionProbability),
    }
}

/// Compares two segmented builds. Paths of different populations, and two
/// paths whose identities are the same text, are not compared. The terms of
/// the difference are those of the actions that the first path has outside
/// every block common to both, then those of the second path.
pub fn compare_pair(table: &Vec<TokenProbability>, p: &SegmentedPath, q: &SegmentedPath) -> (r:
    Result<Option<Comparison>, FatalError>)
    requires
        path_wf(p@),
        path_wf(q@),
    ensures
        match pair_outcome(table@, p@, q@) {
            Outcome::Skipped => r == Ok::<Option<Comparison>, FatalError>(None),
            Outcome::Fault => r == Err::<Option<Comparison>, FatalError>(
                FatalError::MissingActionProbability,
            ),
            Outcome::Scored(c) => r matches Ok(Some(x)) && x@ == c,
        },
{
    match pair_key(p, q) {
        None => Ok(None),
        Some(key) => {
            let difference = if key.2 {
                score(table, p, q)
            } else {
                score(table, q, p)
            };
            match difference {
                Ok(c) => Ok(Some(c)),
                Err(e) => Err(e),
            }
        },
    }
}

/// The identity that the comparison of `p` and `q` has as its first.
pub open spec fn pair_first(p: PathId, q: PathId) -> Seq<char> {
    if comes_first(p, q) {
        path_identity(p)
    } else {
        path_identity(q)
    }
}

/// The identity that the comparison of `p` and `q` has as its second.
pub open spec fn pair_second(p: PathId, q: PathId) -> Seq<char> {
    if comes_first(p, q) {
        path_identity(q)
    } else {
        path_identity(p)
    }
}

/// Of two paths that can be compared one comes first, and never both.
pub proof fn lemma_comparable_apart(p: PathId, q: PathId)
    requires
        comparable(p, q),
    ensures
        lex_less(pair_first(p, q), pair_second(p, q)),
        comes_first(p, q) <==> !comes_first(q, p),
{
    lemma_lex_total(path_identity(p), path_identity(q));
}

/// The comparison of two paths does not depend on the order in which they
/// are given.
pub proof fn law_comparison_symmetric(table: Seq<TokenProbability>, p: PathId, q: PathId)
    ensures
        pair_outcome(table, p, q) == pair_outcome(table, q, p),
{
    if comparable(p, q) {
        lemma_comparable_apart(p, q);
    }
}

/// A path is never compared with itself, nor with a path of the same
/// identity.
pub proof fn law_no_comparison_with_itself(table: Seq<TokenProbability>, p: PathId, q: PathId)
    requires
        path_identity(p) == path_identity(q),
    ensures
        pair_outcome(table, p, q) == Outcome::Skipped,
        pair_outcome(table, p, p) == Outcome::Skipped,
{
}

/// A difference that is scored is between two paths of different identities,
/// and names the identity first that comes first in the order of texts.
pub proof fn law_scored_builds_differ(table: Seq<TokenProbability>, p: PathId, q: PathId)
    ensures
        match pair_outcome(table, p, q) {
            Outcome::Scored(c) => c.first == pair_first(p, q) && c.second == pair_second(p, q)
                && lex_less(c.first, c.second) && c.first != c.second,
            _ => true,
        },
{
    if comparable(p, q) {
        lemma_comparable_apart(p, q);
        lemma_lex_total(pair_first(p, q), pair_second(p, q));
    }
}

/// The two paths are the same for a comparison: the same identity in the
/// same population.
pub open spec fn same_path(p: PathId, q: PathId) -> bool {
    p.population == q.population && path_identity(p) == path_identity(q)
}

/// Path `i` is the first of the paths with its identity and population.
pub open spec fn first_seen(paths: Seq<PathId>, i: int) -> bool {
    forall|k: int| 0 <= k < i ==> !same_path(#[trigger] paths[k], paths[i])
}

/// A difference between the paths of these two identities is known.
pub open spec fn has_comparison(known: Seq<ComparisonId>, first: Seq<char>, second: Seq<char>) -> bool {
    exists|i: int| 0 <= i < known.len() && (#[trigger] known[i]).first == first && known[i].second == second
}

/// Path `j` is to be compared with path `i`: it is the first with its
/// identity, the two can be compared, and their difference is not known.
pub open spec fn to_compare(known: Seq<ComparisonId>, paths: Seq<PathId>, i: int, j: int) -> bool {
    &&& first_seen(paths, j)
    &&& comparable(paths[i], paths[j])
    &&& !has_comparison(known, pair_first(paths[i], paths[j]), pair_second(paths[i], paths[j]))
}

/// The differences between path `i` and the paths after it and before
/// `j_end`. `None` where one of them meets an action without a probability.
pub open spec fn row_upto(
    known: Seq<ComparisonId>,
    table: Seq<TokenProbability>,
    paths: Seq<PathId>,
    i: int,
    j_end: int,
) -> Option<Seq<ComparisonId>>
    decreases j_end - i,
{
    if j_end <= i + 1 {
        Some(Seq::empty())
    } else {
        match row_upto(known, table, paths, i, j_end - 1) {
            None => None,
            Some(acc) => if to_compare(known, paths, i, j_end - 1) {
                match pair_outcome(table, paths[i], paths[j_end - 1]) {
                    Outcome::Scored(c) => Some(acc.push(c)),
                    _ => None,
                }
            } else {
                Some(acc)
            },
        }
    }
}

/// The differences between every two paths of which the first stands before
/// `i_end`, each pair of paths of one population and different identities
/// once.
pub open spec fn rows_upto(
    known: Seq<ComparisonId>,
    table: Seq<TokenProbability>,
    paths: Seq<PathId>,
    i_end: int,
) -> Option<Seq<ComparisonId>>
    decreases i_end,
{
    if i_end <= 0 {
        Some(Seq::empty())
    } else {
        match rows_upto(known, table, paths, i_end - 1) {
            None => None,
            Some(acc) => if first_seen(paths, i_end - 1) {
                match row_upto(known, table, paths, i_end - 1, paths.len() as int) {
                    None => None,
                    Some(row) => Some(acc + row),
                }
            } else {
                Some(acc)
            },
        }
    }
}

/// The differences that are not known yet: one for every two paths of one
/// population whose identities differ.
pub open spec fn fresh_comparisons(
    known: Seq<ComparisonId>,
    table: Seq<TokenProbability>,
    paths: Seq<PathId>,
) -> Option<Seq<ComparisonId>> {
    rows_upto(known, table, paths, paths.len() as int)
}

/// A row that meets an action without a probability stays undefined.
pub proof fn lemma_row_fails(
    known: Seq<ComparisonId>,
    table: Seq<TokenProbability>,
    paths: Seq<PathId>,
    i: int,
    n: int,
    m: int,
)
    requires
        n <= m,
        row_upto(known, table, paths, i, n) is None,
    ensures
        row_upto(known, table, paths, i, m) is None,
    decreases m - n,
{
    if n < m {
        lemma_row_fails(known, table, paths, i, n, m - 1);
    }
}

/// Rows that meet an action without a probability stay undefined.
pub proof fn lemma_rows_fail(
    known: Seq<ComparisonId>,
    table: Seq<TokenProbability>,
    paths: Seq<PathId>,
    n: int,
    m: int,
)
    requires
        n <= m,
        rows_upto(known, table, paths, n) is None,
    ensures
        rows_upto(known, table, paths, m) is None,
    decreases m - n,
{
    if n < m {
        lemma_rows_fail(known, table, paths, n, m - 1);
    }
}

/// Every difference names its first build first in the order of texts.
pub open spec fn comparisons_wf(known: Seq<ComparisonId>) -> bool {
    forall|i: int| 0 <= i < known.len() ==> lex_less((#[trigger] known[i]).first, known[i].second)
}

/// Whether a difference between the paths of these two identities is known.
pub fn is_known(known: &Vec<Comparison>, first: &String, second: &String) -> (r: bool)
    ensures
        r == has_comparison(comparisons_of(known@), first@, second@),
{
    let mut k: usize = 0;
    while k < known.len()
        invariant
            k <= known.len(),
            forall|i: int|
                0 <= i < k ==> !((#[trigger] comparisons_of(known@)[i]).first == first@
                    && comparisons_of(known@)[i].second == second@),
        decreases known.len() - k,
    {
        if known[k].first == *first && known[k].second == *second {
            assert(comparisons_of(known@)[k as int].first == first@);
            return true;
        }
        k = k + 1;
    }
    false
}

/// The two identities of the comparison of `p` and `q`, the first first, and
/// whether `p` is the first. `None` where the two are not compared.
pub fn pair_key(p: &SegmentedPath, q: &SegmentedPath) -> (r: Option<(String, String, bool)>)
    requires
        path_wf(p@),
        path_wf(q@),
    ensures
        match r {
            None => !comparable(p@, q@),
            Some(key) => {
                &&& comparable(p@, q@)
                &&& key.0@ == pair_first(p@, q@)
                &&& key.1@ == pair_second(p@, q@)
                &&& key.2 == comes_first(p@, q@)
            },
        },
{
    if !(p.population == q.population) {
        return None;
    }
    let id = p.identity();
    let other_id = q.identity();
    if id == other_id {
        return None;
    }
    if text_less(id.as_str(), other_id.as_str()) {
        Some((id, other_id, true))
    } else {
        Some((other_id, id, false))
    }
}

impl Comparison {
    /// The text that identifies the comparison.
    pub fn key(&self) -> (k: String)
        ensures
            k@ == comparison_key(self@),
    {
        proof {
            reveal_strlit("--");
            assert("--"@ =~= crate::tokens::build_separator());
        }
        let mut k = self.first.clone();
        k.append("--");
        k.append(self.second.as_str());
        k
    }
}

} // verus!
