//! What holds of the differences that are kept for a list of paths: every two
//! paths of one population whose identities differ have their difference, and
//! every difference is that of two of the paths.

use vstd::prelude::*;
use crate::comparator::{
    comparable, first_seen, fresh_comparisons, has_comparison, law_scored_builds_differ,
    lemma_comparable_apart, pair_first, pair_outcome, pair_second, row_upto, rows_upto, same_path,
    to_compare, ComparisonId, Outcome,
};
use crate::model::TokenProbability;
use crate::segmenter::PathId;

verus! {

/// The first path with the identity and population of path `i`.
proof fn lemma_first_of_build(paths: Seq<PathId>, i: int) -> (f: int)
    requires
        0 <= i < paths.len(),
    ensures
        0 <= f <= i,
        same_path(paths[f], paths[i]),
        first_seen(paths, f),
    decreases i,
{
    if first_seen(paths, i) {
        i
    } else {
        let k = choose|k: int| 0 <= k < i && same_path(#[trigger] paths[k], paths[i]);
        lemma_first_of_build(paths, k)
    }
}

/// A difference that row `i` holds for column `j` is in the row.
proof fn lemma_row_holds(
    known: Seq<ComparisonId>,
    table: Seq<TokenProbability>,
    paths: Seq<PathId>,
    i: int,
    j_end: int,
    j: int,
)
    requires
        i < j < j_end,
        row_upto(known, table, paths, i, j_end) is Some,
        to_compare(known, paths, i, j),
    ensures
        pair_outcome(table, paths[i], paths[j]) is Scored,
        row_upto(known, table, paths, i, j_end)->0.contains(
            pair_outcome(table, paths[i], paths[j])->Scored_0,
        ),
    decreases j_end - i,
{
    let row = row_upto(known, table, paths, i, j_end)->0;
    let before = row_upto(known, table, paths, i, j_end - 1)->0;
    if j == j_end - 1 {
        let c = pair_outcome(table, paths[i], paths[j])->Scored_0;
        assert(row == before.push(c));
        assert(row[row.len() - 1] == c);
    } else {
        lemma_row_holds(known, table, paths, i, j_end - 1, j);
        let c = pair_outcome(table, paths[i], paths[j])->Scored_0;
        let k = choose|k: int| 0 <= k < before.len() && before[k] == c;
        if to_compare(known, paths, i, j_end - 1) {
            assert(row[k] == c);
        }
    }
}

/// What a row of a first path holds is among the differences of all rows.
proof fn lemma_rows_hold(
    known: Seq<ComparisonId>,
    table: Seq<TokenProbability>,
    paths: Seq<PathId>,
    i_end: int,
    i: int,
    c: ComparisonId,
)
    requires
        0 <= i < i_end,
        rows_upto(known, table, paths, i_end) is Some,
        first_seen(paths, i),
    ensures
        row_upto(known, table, paths, i, paths.len() as int) is Some,
        row_upto(known, table, paths, i, paths.len() as int)->0.contains(c) ==> rows_upto(
            known,
            table,
            paths,
            i_end,
        )->0.contains(c),
    decreases i_end,
{
    let all = rows_upto(known, table, paths, i_end)->0;
    let before = rows_upto(known, table, paths, i_end - 1)->0;
    if i == i_end - 1 {
        let row = row_upto(known, table, paths, i, paths.len() as int)->0;
        if row.contains(c) {
            let k = choose|k: int| 0 <= k < row.len() && row[k] == c;
            assert(all == before + row);
            assert(all[before.len() + k] == c);
        }
    } else {
        lemma_rows_hold(known, table, paths, i_end - 1, i, c);
        if before.contains(c) {
            let k = choose|k: int| 0 <= k < before.len() && before[k] == c;
            assert(all[k] == c);
        }
    }
}

/// Once the fresh differences are kept, every two paths that can be compared
/// have their difference.
pub proof fn law_every_pair_is_scored(
    known: Seq<ComparisonId>,
    table: Seq<TokenProbability>,
    paths: Seq<PathId>,
    i: int,
    j: int,
)
    requires
        fresh_comparisons(known, table, paths) is Some,
        0 <= i < paths.len(),
        0 <= j < paths.len(),
        comparable(paths[i], paths[j]),
    ensures
        has_comparison(
            known + fresh_comparisons(known, table, paths)->0,
            pair_first(paths[i], paths[j]),
            pair_second(paths[i], paths[j]),
        ),
{
    let fresh = fresh_comparisons(known, table, paths)->0;
    let a = lemma_first_of_build(paths, i);
    let b = lemma_first_of_build(paths, j);
    let first = pair_first(paths[i], paths[j]);
    let second = pair_second(paths[i], paths[j]);
    lemma_comparable_apart(paths[i], paths[j]);
    lemma_comparable_apart(paths[a], paths[b]);
    lemma_comparable_apart(paths[b], paths[a]);
    assert(a != b);
    let lo = if a < b {
        a
    } else {
        b
    };
    let hi = if a < b {
        b
    } else {
        a
    };
    assert(pair_first(paths[lo], paths[hi]) == first);
    assert(pair_second(paths[lo], paths[hi]) == second);
    if has_comparison(known, first, second) {
        let k = choose|k: int|
            0 <= k < known.len() && (#[trigger] known[k]).first == first && known[k].second
                == second;
        assert((known + fresh)[k] == known[k]);
    } else {
        assert(to_compare(known, paths, lo, hi));
        let c = pair_outcome(table, paths[lo], paths[hi])->Scored_0;
        lemma_rows_hold(known, table, paths, paths.len() as int, lo, c);
        lemma_row_holds(known, table, paths, lo, paths.len() as int, hi);
        law_scored_builds_differ(table, paths[lo], paths[hi]);
        let k = choose|k: int| 0 <= k < fresh.len() && fresh[k] == c;
        assert((known + fresh)[known.len() + k] == c);
    }
}

/// Every difference of a row is that of the row's path and a path behind it,
/// and was not known.
proof fn lemma_row_is_of_pairs(
    known: Seq<ComparisonId>,
    table: Seq<TokenProbability>,
    paths: Seq<PathId>,
    i: int,
    j_end: int,
    k: int,
)
    requires
        row_upto(known, table, paths, i, j_end) is Some,
        0 <= k < row_upto(known, table, paths, i, j_end)->0.len(),
    ensures
        exists|j: int|
            i < j < j_end && #[trigger] pair_outcome(table, paths[i], paths[j]) == Outcome::Scored(
                row_upto(known, table, paths, i, j_end)->0[k],
            ) && to_compare(known, paths, i, j),
    decreases j_end - i,
{
    if j_end > i + 1 {
        let before = row_upto(known, table, paths, i, j_end - 1)->0;
        if k < before.len() {
            lemma_row_is_of_pairs(known, table, paths, i, j_end - 1, k);
            let j = choose|j: int|
                i < j < j_end - 1 && #[trigger] pair_outcome(table, paths[i], paths[j])
                    == Outcome::Scored(before[k]) && to_compare(known, paths, i, j);
            assert(pair_outcome(table, paths[i], paths[j]) == Outcome::Scored(
                row_upto(known, table, paths, i, j_end)->0[k],
            ));
        } else {
            assert(pair_outcome(table, paths[i], paths[j_end - 1]) == Outcome::Scored(
                row_upto(known, table, paths, i, j_end)->0[k],
            ));
        }
    }
}

/// Every fresh difference is that of two of the paths, which can be
/// compared and whose difference was not known.
pub proof fn law_every_difference_is_of_a_pair(
    known: Seq<ComparisonId>,
    table: Seq<TokenProbability>,
    paths: Seq<PathId>,
    i_end: int,
    k: int,
)
    requires
        0 <= i_end <= paths.len(),
        rows_upto(known, table, paths, i_end) is Some,
        0 <= k < rows_upto(known, table, paths, i_end)->0.len(),
    ensures
        exists|i: int, j: int|
            0 <= i < j < paths.len() && #[trigger] pair_outcome(table, paths[i], paths[j])
                == Outcome::Scored(rows_upto(known, table, paths, i_end)->0[k]) && comparable(
                paths[i],
                paths[j],
            ) && !has_comparison(
                known,
                pair_first(paths[i], paths[j]),
                pair_second(paths[i], paths[j]),
            ),
    decreases i_end,
{
    if i_end > 0 {
        let all = rows_upto(known, table, paths, i_end)->0;
        let before = rows_upto(known, table, paths, i_end - 1)->0;
        if k < before.len() {
            law_every_difference_is_of_a_pair(known, table, paths, i_end - 1, k);
            let (i, j) = choose|i: int, j: int|
                0 <= i < j < paths.len() && #[trigger] pair_outcome(table, paths[i], paths[j])
                    == Outcome::Scored(before[k]) && comparable(paths[i], paths[j])
                    && !has_comparison(
                    known,
                    pair_first(paths[i], paths[j]),
                    pair_second(paths[i], paths[j]),
                );
            assert(all[k] == before[k]);
            assert(pair_outcome(table, paths[i], paths[j]) == Outcome::Scored(all[k]));
        } else {
            let i = i_end - 1;
            let row = row_upto(known, table, paths, i, paths.len() as int)->0;
            assert(all == before + row);
            lemma_row_is_of_pairs(known, table, paths, i, paths.len() as int, k - before.len());
            let j = choose|j: int|
                i < j < paths.len() && #[trigger] pair_outcome(table, paths[i], paths[j])
                    == Outcome::Scored(row[k - before.len()]) && to_compare(known, paths, i, j);
            assert(pair_outcome(table, paths[i], paths[j]) == Outcome::Scored(all[k]));
        }
    }
}

} // verus!
