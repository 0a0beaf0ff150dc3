//! Alignment of two sequences by their longest common contiguous blocks.

use vstd::prelude::*;
use crate::text::texts;

verus! {

/// A common block as mathematical integers: offset in the first sequence,
/// offset in the second, length.
pub type Block = (int, int, int);

/// A pair of half-open ranges, one in each sequence.
pub struct Window {
    pub a_low: int,
    pub a_high: int,
    pub b_low: int,
    pub b_high: int,
}

/// `x[i..i+k]` and `y[j..j+k]` exist and are equal, element by element.
pub open spec fn is_match<A>(x: Seq<A>, y: Seq<A>, i: int, j: int, k: int) -> bool {
    &&& 0 <= i
    &&& 0 <= j
    &&& 0 <= k
    &&& i + k <= x.len()
    &&& j + k <= y.len()
    &&& forall|p: int| i <= p < i + k ==> #[trigger] x[p] == y[p - i + j]
}

/// A match that lies inside the window.
pub open spec fn match_within<A>(x: Seq<A>, y: Seq<A>, w: Window, i: int, j: int, k: int) -> bool {
    &&& w.a_low <= i
    &&& i + k <= w.a_high
    &&& w.b_low <= j
    &&& j + k <= w.b_high
    &&& is_match(x, y, i, j, k)
}

/// `(i, j)` comes no later than `(i2, j2)` in the order that looks at the first
/// sequence first.
pub open spec fn starts_no_later(i: int, j: int, i2: int, j2: int) -> bool {
    i < i2 || (i == i2 && j <= j2)
}

/// `m` is the longest match inside the window; among the longest the one that
/// starts earliest in the first sequence, and among those the one that starts
/// earliest in the second. Where the window holds no common element, `m` is the
/// empty block at the window's lower corner.
pub open spec fn is_longest_match<A>(x: Seq<A>, y: Seq<A>, w: Window, m: Block) -> bool {
    if m.2 == 0 {
        &&& m.0 == w.a_low
        &&& m.1 == w.b_low
        &&& forall|i: int, j: int|
            w.a_low <= i < w.a_high && w.b_low <= j < w.b_high && 0 <= i < x.len() && 0 <= j < y.len()
                ==> x[i] != y[j]
    } else {
        &&& m.2 > 0
        &&& match_within(x, y, w, m.0, m.1, m.2)
        &&& forall|i: int, j: int, k: int| #[trigger]
            match_within(x, y, w, i, j, k) ==> k < m.2 || (k == m.2 && starts_no_later(
                m.0,
                m.1,
                i,
                j,
            ))
    }
}

/// Length of the common run that ends at `x[i]`, `y[j]` and does not reach below
/// `a_low` or `b_low`.
pub open spec fn run_ending<A>(x: Seq<A>, y: Seq<A>, a_low: int, b_low: int, i: int, j: int) -> int
    decreases i - a_low + 1,
{
    if i < a_low || j < b_low || i < 0 || j < 0 || i >= x.len() || j >= y.len() || x[i] != y[j] {
        0
    } else {
        1 + run_ending(x, y, a_low, b_low, i - 1, j - 1)
    }
}

/// Cell `(i, j)` is looked at before cell `(i2, j2)` when the first sequence is
/// walked in the outer loop.
pub open spec fn cell_before(i: int, j: int, i2: int, j2: int) -> bool {
    i < i2 || (i == i2 && j < j2)
}

/// `m` is the best block among the runs that end at the cells looked at before
/// `(pi, pj)`: the longest run, and the first cell that reaches it.
pub open spec fn best_before<A>(x: Seq<A>, y: Seq<A>, w: Window, pi: int, pj: int, m: Block) -> bool {
    &&& m.2 >= 0
    &&& m.2 == 0 ==> m.0 == w.a_low && m.1 == w.b_low
    &&& m.2 > 0 ==> {
        &&& w.a_low <= m.0
        &&& w.b_low <= m.1
        &&& m.1 + m.2 <= w.b_high
        &&& cell_before(m.0 + m.2 - 1, m.1 + m.2 - 1, pi, pj)
        &&& run_ending(x, y, w.a_low, w.b_low, m.0 + m.2 - 1, m.1 + m.2 - 1) == m.2
    }
    &&& forall|i: int, j: int|
        w.a_low <= i && w.b_low <= j < w.b_high && cell_before(i, j, pi, pj) ==> {
            let r = #[trigger] run_ending(x, y, w.a_low, w.b_low, i, j);
            &&& r <= m.2
            &&& r == m.2 && r > 0 ==> !cell_before(i, j, m.0 + m.2 - 1, m.1 + m.2 - 1)
        }
}

/// A run is no longer than the cells between its end and the lower bounds.
pub proof fn lemma_run_bounds<A>(x: Seq<A>, y: Seq<A>, a_low: int, b_low: int, i: int, j: int)
    ensures
        0 <= run_ending(x, y, a_low, b_low, i, j),
        i >= a_low ==> run_ending(x, y, a_low, b_low, i, j) <= i - a_low + 1,
        j >= b_low ==> run_ending(x, y, a_low, b_low, i, j) <= j - b_low + 1,
        i < a_low || j < b_low ==> run_ending(x, y, a_low, b_low, i, j) == 0,
    decreases i - a_low + 1,
{
    if !(i < a_low || j < b_low || i < 0 || j < 0 || i >= x.len() || j >= y.len() || x[i] != y[j]) {
        lemma_run_bounds(x, y, a_low, b_low, i - 1, j - 1);
    }
}

/// The run that ends at a cell is a match that starts inside the lower bounds.
pub proof fn lemma_run_is_match<A>(x: Seq<A>, y: Seq<A>, a_low: int, b_low: int, i: int, j: int)
    requires
        0 <= a_low,
        0 <= b_low,
    ensures
        ({
            let r = run_ending(x, y, a_low, b_low, i, j);
            r > 0 ==> is_match(x, y, i - r + 1, j - r + 1, r) && a_low <= i - r + 1 && b_low <= j
                - r + 1
        }),
    decreases i - a_low + 1,
{
    let r = run_ending(x, y, a_low, b_low, i, j);
    if r > 0 {
        lemma_run_is_match(x, y, a_low, b_low, i - 1, j - 1);
        lemma_run_bounds(x, y, a_low, b_low, i - 1, j - 1);
        let r1 = run_ending(x, y, a_low, b_low, i - 1, j - 1);
        assert(r == r1 + 1);
        assert forall|p: int| i - r + 1 <= p < i + 1 implies #[trigger] x[p] == y[p - (i - r + 1) + (j
            - r + 1)] by {
            if p < i {
                assert(x[p] == y[p - ((i - 1) - r1 + 1) + ((j - 1) - r1 + 1)]);
            }
        }
    }
}

/// A match of length `k` that starts inside the lower bounds is covered by the
/// run that ends at its last cell.
pub proof fn lemma_match_in_run<A>(
    x: Seq<A>,
    y: Seq<A>,
    a_low: int,
    b_low: int,
    i: int,
    j: int,
    k: int,
)
    requires
        is_match(x, y, i, j, k),
        a_low <= i,
        b_low <= j,
        k >= 1,
    ensures
        run_ending(x, y, a_low, b_low, i + k - 1, j + k - 1) >= k,
    decreases k,
{
    let last = i + k - 1;
    assert(x[last] == y[last - i + j]);
    if k > 1 {
        lemma_match_in_run(x, y, a_low, b_low, i, j, k - 1);
    } else {
        lemma_run_bounds(x, y, a_low, b_low, i - 1, j - 1);
    }
}

/// Once every cell of the window has been looked at, the best block is the
/// longest match of the window.
pub proof fn lemma_best_is_longest<A>(x: Seq<A>, y: Seq<A>, w: Window, m: Block)
    requires
        0 <= w.a_low,
        0 <= w.b_low,
        w.a_high <= x.len(),
        w.b_high <= y.len(),
        best_before(x, y, w, w.a_high, w.b_low, m),
        m.2 > 0 ==> m.0 + m.2 <= w.a_high,
    ensures
        is_longest_match(x, y, w, m),
{
    if m.2 == 0 {
        assert forall|i: int, j: int|
            w.a_low <= i < w.a_high && w.b_low <= j < w.b_high && 0 <= i < x.len() && 0 <= j
                < y.len() implies x[i] != y[j] by {
            if x[i] == y[j] {
                lemma_run_bounds(x, y, w.a_low, w.b_low, i - 1, j - 1);
                assert(cell_before(i, j, w.a_high, w.b_low));
                assert(run_ending(x, y, w.a_low, w.b_low, i, j) >= 1);
            }
        }
    } else {
        lemma_run_is_match(x, y, w.a_low, w.b_low, m.0 + m.2 - 1, m.1 + m.2 - 1);
        assert forall|i: int, j: int, k: int| #[trigger]
            match_within(x, y, w, i, j, k) implies k < m.2 || (k == m.2 && starts_no_later(
            m.0,
            m.1,
            i,
            j,
        )) by {
            if k >= 1 {
                lemma_match_in_run(x, y, w.a_low, w.b_low, i, j, k);
                let ei = i + k - 1;
                let ej = j + k - 1;
                assert(cell_before(ei, ej, w.a_high, w.b_low));
                let r = run_ending(x, y, w.a_low, w.b_low, ei, ej);
                assert(r <= m.2);
                if k == m.2 {
                    assert(!cell_before(ei, ej, m.0 + m.2 - 1, m.1 + m.2 - 1));
                }
            }
        }
    }
}

/// A window has at most one longest match.
pub proof fn lemma_longest_unique<A>(x: Seq<A>, y: Seq<A>, w: Window, m1: Block, m2: Block)
    requires
        is_longest_match(x, y, w, m1),
        is_longest_match(x, y, w, m2),
    ensures
        m1 == m2,
{
    if m1.2 == 0 && m2.2 != 0 {
        assert(x[m2.0] == y[m2.0 - m2.0 + m2.1]);
    }
    if m2.2 == 0 && m1.2 != 0 {
        assert(x[m1.0] == y[m1.0 - m1.0 + m1.1]);
    }
    if m1.2 != 0 && m2.2 != 0 {
        assert(match_within(x, y, w, m1.0, m1.1, m1.2));
        assert(match_within(x, y, w, m2.0, m2.1, m2.2));
    }
}

proof fn lemma_best_exists<A>(x: Seq<A>, y: Seq<A>, w: Window, pi: int, pj: int) -> (m: Block)
    requires
        w.a_low <= pi,
        w.b_low <= pj <= w.b_high,
    ensures
        best_before(x, y, w, pi, pj, m),
        m.2 > 0 ==> m.0 + m.2 - 1 <= pi,
        m.2 > 0 && pj == w.b_low ==> m.0 + m.2 - 1 < pi,
    decreases pi - w.a_low, pj - w.b_low,
{
    if pj > w.b_low {
        let prev = lemma_best_exists(x, y, w, pi, pj - 1);
        let r = run_ending(x, y, w.a_low, w.b_low, pi, pj - 1);
        lemma_run_bounds(x, y, w.a_low, w.b_low, pi, pj - 1);
        if r > prev.2 {
            (pi + 1 - r, pj - r, r)
        } else {
            prev
        }
    } else if pi > w.a_low {
        lemma_best_exists(x, y, w, pi - 1, w.b_high)
    } else {
        (w.a_low, w.b_low, 0)
    }
}

/// Every window inside the two sequences has a longest match.
pub proof fn lemma_longest_exists<A>(x: Seq<A>, y: Seq<A>, w: Window)
    requires
        0 <= w.a_low,
        0 <= w.b_low,
        w.a_high <= x.len(),
        w.b_high <= y.len(),
    ensures
        is_longest_match(x, y, w, longest_match(x, y, w)),
{
    if w.a_low < w.a_high && w.b_low < w.b_high {
        let m = lemma_best_exists(x, y, w, w.a_high, w.b_low);
        lemma_best_is_longest(x, y, w, m);
    } else {
        assert(is_longest_match(x, y, w, (w.a_low, w.b_low, 0)));
    }
}

/// The longest match of a window, as `is_longest_match` singles it out.
pub open spec fn longest_match<A>(x: Seq<A>, y: Seq<A>, w: Window) -> Block {
    choose|m: Block| is_longest_match(x, y, w, m)
}

/// The common blocks of a window in the order of their positions: those before
/// the longest match, the longest match, those after it.
pub open spec fn blocks_in<A>(x: Seq<A>, y: Seq<A>, w: Window) -> Seq<Block>
    decreases w.a_high - w.a_low,
{
    let m = longest_match(x, y, w);
    if w.a_low < w.a_high && w.b_low < w.b_high && m.2 > 0 && w.a_low <= m.0 && m.0 + m.2
        <= w.a_high {
        blocks_in(x, y, Window { a_low: w.a_low, a_high: m.0, b_low: w.b_low, b_high: m.1 })
            + seq![m] + blocks_in(
            x,
            y,
            Window { a_low: m.0 + m.2, a_high: w.a_high, b_low: m.1 + m.2, b_high: w.b_high },
        )
    } else {
        Seq::empty()
    }
}

/// The second block begins where the first ends, in both sequences.
pub open spec fn adjacent(p: Block, q: Block) -> bool {
    p.0 + p.2 == q.0 && p.1 + p.2 == q.1
}

/// `acc` alone, unless it is empty.
pub open spec fn kept(acc: Block) -> Seq<Block> {
    if acc.2 != 0 {
        seq![acc]
    } else {
        Seq::empty()
    }
}

/// Merges each block into the one before it where the two are adjacent; `acc`
/// is the block that is being grown.
pub open spec fn merge_from(blocks: Seq<Block>, acc: Block) -> Seq<Block>
    decreases blocks.len(),
{
    if blocks.len() == 0 {
        kept(acc)
    } else if adjacent(acc, blocks[0]) {
        merge_from(blocks.drop_first(), (acc.0, acc.1, acc.2 + blocks[0].2))
    } else {
        kept(acc) + merge_from(blocks.drop_first(), blocks[0])
    }
}

/// The blocks with every run of adjacent ones made into one.
pub open spec fn merge_adjacent(blocks: Seq<Block>) -> Seq<Block> {
    merge_from(blocks, (0, 0, 0))
}

/// The window that holds both sequences whole.
pub open spec fn whole<A>(x: Seq<A>, y: Seq<A>) -> Window {
    Window { a_low: 0, a_high: x.len() as int, b_low: 0, b_high: y.len() as int }
}

/// The maximal common blocks of two sequences, in the order of their positions.
pub open spec fn matching_blocks<A>(x: Seq<A>, y: Seq<A>) -> Seq<Block> {
    merge_adjacent(blocks_in(x, y, whole(x, y)))
}

/// Each block ends before the next begins, in both sequences.
pub open spec fn sorted_blocks(bs: Seq<Block>) -> bool {
    forall|s: int, t: int|
        0 <= s < t < bs.len() ==> (#[trigger] bs[s]).0 + bs[s].2 <= (#[trigger] bs[t]).0 && bs[s].1
            + bs[s].2 <= bs[t].1
}

/// No block could be merged with the next.
pub open spec fn no_adjacent(bs: Seq<Block>) -> bool {
    forall|t: int| 0 <= t < bs.len() - 1 ==> !adjacent(#[trigger] bs[t], bs[t + 1])
}

/// Every block is a non-empty match inside the window.
pub open spec fn all_within<A>(x: Seq<A>, y: Seq<A>, w: Window, bs: Seq<Block>) -> bool {
    forall|t: int|
        0 <= t < bs.len() ==> (#[trigger] bs[t]).2 > 0 && match_within(
            x,
            y,
            w,
            bs[t].0,
            bs[t].1,
            bs[t].2,
        )
}

/// The blocks of a window lie inside it, are sorted, and no two of them are
/// adjacent.
pub proof fn lemma_blocks_in<A>(x: Seq<A>, y: Seq<A>, w: Window)
    requires
        0 <= w.a_low,
        0 <= w.b_low,
        w.a_high <= x.len(),
        w.b_high <= y.len(),
    ensures
        all_within(x, y, w, blocks_in(x, y, w)),
        sorted_blocks(blocks_in(x, y, w)),
        no_adjacent(blocks_in(x, y, w)),
    decreases w.a_high - w.a_low,
{
    let m = longest_match(x, y, w);
    lemma_longest_exists(x, y, w);
    if w.a_low < w.a_high && w.b_low < w.b_high && m.2 > 0 && w.a_low <= m.0 && m.0 + m.2
        <= w.a_high {
        let wl = Window { a_low: w.a_low, a_high: m.0, b_low: w.b_low, b_high: m.1 };
        let wr = Window {
            a_low: m.0 + m.2,
            a_high: w.a_high,
            b_low: m.1 + m.2,
            b_high: w.b_high,
        };
        lemma_blocks_in(x, y, wl);
        lemma_blocks_in(x, y, wr);
        let l = blocks_in(x, y, wl);
        let r = blocks_in(x, y, wr);
        let bs = blocks_in(x, y, w);
        assert(bs == l + seq![m] + r);
        assert forall|t: int| 0 <= t < bs.len() implies (#[trigger] bs[t]).2 > 0 && match_within(
            x,
            y,
            w,
            bs[t].0,
            bs[t].1,
            bs[t].2,
        ) by {
            if t < l.len() {
                assert(bs[t] == l[t]);
            } else if t > l.len() {
                assert(bs[t] == r[t - l.len() - 1]);
            }
        }
        assert forall|s: int, t: int| 0 <= s < t < bs.len() implies (#[trigger] bs[s]).0 + bs[s].2
            <= (#[trigger] bs[t]).0 && bs[s].1 + bs[s].2 <= bs[t].1 by {
            if s < l.len() {
                assert(bs[s] == l[s]);
            } else if s > l.len() {
                assert(bs[s] == r[s - l.len() - 1]);
            }
            if t < l.len() {
                assert(bs[t] == l[t]);
            } else if t > l.len() {
                assert(bs[t] == r[t - l.len() - 1]);
            }
        }
        assert forall|t: int| 0 <= t < bs.len() - 1 implies !adjacent(#[trigger] bs[t], bs[t + 1]) by {
            if t + 1 < l.len() {
                assert(bs[t] == l[t] && bs[t + 1] == l[t + 1]);
            } else if t + 1 == l.len() {
                let p = l[t];
                assert(bs[t] == p && bs[t + 1] == m);
                if adjacent(p, m) {
                    let last = p.0 + p.2 - 1;
                    assert(x[last] == y[last - p.0 + p.1]);
                    assert(match_within(x, y, w, m.0 - 1, m.1 - 1, m.2 + 1)) by {
                        assert forall|q: int| m.0 - 1 <= q < m.0 + m.2 implies #[trigger] x[q]
                            == y[q - (m.0 - 1) + (m.1 - 1)] by {
                            if q >= m.0 {
                                assert(x[q] == y[q - m.0 + m.1]);
                            }
                        }
                    }
                }
            } else if t == l.len() {
                let q = r[0];
                assert(bs[t] == m && bs[t + 1] == q);
                if adjacent(m, q) {
                    assert(x[q.0] == y[q.0 - q.0 + q.1]);
                    assert(match_within(x, y, w, m.0, m.1, m.2 + 1)) by {
                        assert forall|p: int| m.0 <= p < m.0 + m.2 + 1 implies #[trigger] x[p]
                            == y[p - m.0 + m.1] by {}
                    }
                }
            } else {
                assert(bs[t] == r[t - l.len() - 1] && bs[t + 1] == r[t + 1 - l.len() - 1]);
            }
        }
    }
}

/// Where no block is adjacent to the next, merging changes nothing.
pub proof fn lemma_merge_from_keeps(bs: Seq<Block>, acc: Block)
    requires
        no_adjacent(bs),
        forall|t: int| 0 <= t < bs.len() ==> (#[trigger] bs[t]).2 > 0,
        bs.len() > 0 ==> !adjacent(acc, bs[0]),
    ensures
        merge_from(bs, acc) == kept(acc) + bs,
    decreases bs.len(),
{
    if bs.len() > 0 {
        let rest = bs.drop_first();
        assert forall|t: int| 0 <= t < rest.len() - 1 implies !adjacent(
            #[trigger] rest[t],
            rest[t + 1],
        ) by {
            assert(!adjacent(bs[t + 1], bs[t + 1 + 1]));
        }
        if rest.len() > 0 {
            assert(!adjacent(bs[0int], bs[0int + 1]));
        }
        lemma_merge_from_keeps(rest, bs[0]);
        assert(kept(acc) + (kept(bs[0]) + rest) =~= kept(acc) + bs);
    } else {
        assert(kept(acc) + bs =~= kept(acc));
    }
}

/// Merging leaves the blocks of two sequences as they are: a longest match
/// leaves no equal neighbours outside it.
pub proof fn lemma_matching_blocks_unmerged<A>(x: Seq<A>, y: Seq<A>)
    ensures
        matching_blocks(x, y) == blocks_in(x, y, whole(x, y)),
{
    let bs = blocks_in(x, y, whole(x, y));
    lemma_blocks_in(x, y, whole(x, y));
    if bs.len() > 0 {
        let rest = bs.drop_first();
        assert forall|t: int| 0 <= t < rest.len() - 1 implies !adjacent(
            #[trigger] rest[t],
            rest[t + 1],
        ) by {
            assert(!adjacent(bs[t + 1], bs[t + 1 + 1]));
        }
        if rest.len() > 0 {
            assert(!adjacent(bs[0int], bs[0int + 1]));
        }
        if adjacent((0, 0, 0), bs[0]) {
            lemma_merge_from_keeps(rest, (0, 0, 0 + bs[0].2));
            assert(bs[0] == (0int, 0int, 0 + bs[0].2));
        } else {
            lemma_merge_from_keeps(rest, bs[0]);
        }
        assert(kept(bs[0]) + rest =~= bs);
    }
}

/// The window between these bounds.
pub open spec fn window_of(a_low: usize, a_high: usize, b_low: usize, b_high: usize) -> Window {
    Window { a_low: a_low as int, a_high: a_high as int, b_low: b_low as int, b_high: b_high as int }
}

/// The block that an executable triple stands for.
pub open spec fn block_of(m: (usize, usize, usize)) -> Block {
    (m.0 as int, m.1 as int, m.2 as int)
}

/// Finds the longest block common to `build[build_low..build_high]` and
/// `other_build[other_build_low..other_build_high]`, returned as (start in
/// `build`, start in `other_build`, length). Of several longest blocks the one
/// that starts earliest in `build` wins, then the one that starts earliest in
/// `other_build`. The length is 0 when the ranges share no element.
pub fn find_longest_match(
    build: &Vec<String>,
    other_build: &Vec<String>,
    build_low: usize,
    build_high: usize,
    other_build_low: usize,
    other_build_high: usize,
) -> (m: (usize, usize, usize))
    requires
        build_high <= build.len(),
        other_build_high <= other_build.len(),
    ensures
        is_longest_match(
            texts(build@),
            texts(other_build@),
            window_of(build_low, build_high, other_build_low, other_build_high),
            block_of(m),
        ),
{
    let ghost x = texts(build@);
    let ghost y = texts(other_build@);
    let ghost w = window_of(build_low, build_high, other_build_low, other_build_high);
    if build_low >= build_high || other_build_low >= other_build_high {
        return (build_low, other_build_low, 0);
    }
    let mut best_a: usize = build_low;
    let mut best_b: usize = other_build_low;
    let mut best_len: usize = 0;
    // lengths of the runs that end in the previous row, by offset from other_build_low
    let mut match_sizes: Vec<usize> = Vec::new();
    let mut i: usize = build_low;
    while i < build_high
        invariant
            x == texts(build@),
            y == texts(other_build@),
            w == window_of(build_low, build_high, other_build_low, other_build_high),
            build_high <= build.len(),
            other_build_high <= other_build.len(),
            build_low <= i <= build_high,
            other_build_low < other_build_high,
            i > build_low ==> match_sizes.len() == other_build_high - other_build_low,
            forall|t: int|
                0 <= t < match_sizes.len() ==> #[trigger] match_sizes[t] == run_ending(
                    x,
                    y,
                    w.a_low,
                    w.b_low,
                    i - 1,
                    other_build_low + t,
                ),
            best_before(x, y, w, i as int, other_build_low as int, (best_a as int, best_b as int, best_len as int)),
            best_len > 0 ==> best_a + best_len <= i,
        decreases build_high - i,
    {
        let mut new_match_sizes: Vec<usize> = Vec::new();
        let mut j: usize = other_build_low;
        while j < other_build_high
            invariant
                x == texts(build@),
                y == texts(other_build@),
                w == window_of(build_low, build_high, other_build_low, other_build_high),
                build_high <= build.len(),
                other_build_high <= other_build.len(),
                build_low <= i < build_high,
                other_build_low <= j <= other_build_high,
                i > build_low ==> match_sizes.len() == other_build_high - other_build_low,
                forall|t: int|
                    0 <= t < match_sizes.len() ==> #[trigger] match_sizes[t] == run_ending(
                        x,
                        y,
                        w.a_low,
                        w.b_low,
                        i - 1,
                        other_build_low + t,
                    ),
                new_match_sizes.len() == j - other_build_low,
                forall|t: int|
                    0 <= t < new_match_sizes.len() ==> #[trigger] new_match_sizes[t] == run_ending(
                        x,
                        y,
                        w.a_low,
                        w.b_low,
                        i as int,
                        other_build_low + t,
                    ),
                best_before(x, y, w, i as int, j as int, (best_a as int, best_b as int, best_len as int)),
                best_len > 0 ==> best_a + best_len <= i + 1,
            decreases other_build_high - j,
        {
            let ghost r = run_ending(x, y, w.a_low, w.b_low, i as int, j as int);
            proof {
                lemma_run_bounds(x, y, w.a_low, w.b_low, i as int, j as int);
                lemma_run_bounds(x, y, w.a_low, w.b_low, i - 1, j - 1);
            }
            let mut new_match_size: usize = 0;
            if build[i] == other_build[j] {
                if i > build_low && j > other_build_low {
                    assert(match_sizes[j - other_build_low - 1] == run_ending(
                        x,
                        y,
                        w.a_low,
                        w.b_low,
                        i - 1,
                        other_build_low + (j - other_build_low - 1),
                    ));
                    new_match_size = match_sizes[j - other_build_low - 1] + 1;
                } else {
                    new_match_size = 1;
                }
            }
            assert(new_match_size == r);
            new_match_sizes.push(new_match_size);
            if new_match_size > best_len {
                best_a = i + 1 - new_match_size;
                best_b = j + 1 - new_match_size;
                best_len = new_match_size;
            }
            j = j + 1;
        }
        match_sizes = new_match_sizes;
        i = i + 1;
    }
    proof {
        lemma_best_is_longest(x, y, w, (best_a as int, best_b as int, best_len as int));
    }
    // A longest block has no equal neighbours left to take in: both loops end at once.
    while best_a > build_low && best_b > other_build_low && build[best_a - 1] == other_build[best_b
        - 1]
        invariant
            x == texts(build@),
            y == texts(other_build@),
            build_high <= build.len(),
            other_build_high <= other_build.len(),
            best_a < build.len(),
            best_b < other_build.len(),
            w == window_of(build_low, build_high, other_build_low, other_build_high),
            is_longest_match(x, y, w, (best_a as int, best_b as int, best_len as int)),
        decreases best_a,
    {
        proof {
            assert(match_within(x, y, w, best_a - 1, best_b - 1, best_len + 1)) by {
                assert forall|p: int| best_a - 1 <= p < best_a + best_len implies #[trigger] x[p]
                    == y[p - (best_a - 1) + (best_b - 1)] by {
                    if p >= best_a {
                        assert(x[p] == y[p - best_a + best_b]);
                    }
                }
            }
            assert(false);
        }
        best_a = best_a - 1;
        best_b = best_b - 1;
        best_len = best_len + 1;
    }
    while best_a + best_len < build_high && best_b + best_len < other_build_high && build[best_a
        + best_len] == other_build[best_b + best_len]
        invariant
            x == texts(build@),
            y == texts(other_build@),
            build_high <= build.len(),
            other_build_high <= other_build.len(),
            best_a + best_len <= build_high,
            best_b + best_len <= other_build_high,
            w == window_of(build_low, build_high, other_build_low, other_build_high),
            is_longest_match(x, y, w, (best_a as int, best_b as int, best_len as int)),
        decreases build_high - best_a - best_len,
    {
        proof {
            assert(x[best_a + best_len] == y[best_b + best_len]);
            if best_len > 0 {
                assert(match_within(x, y, w, best_a as int, best_b as int, best_len + 1)) by {
                    assert forall|p: int| best_a <= p < best_a + best_len + 1 implies #[trigger] x[p]
                        == y[p - best_a + best_b] by {}
                }
            }
            assert(false);
        }
        best_len = best_len + 1;
    }
    (best_a, best_b, best_len)
}

/// The blocks that a vector of executable triples stands for.
pub open spec fn blocks_of(v: Seq<(usize, usize, usize)>) -> Seq<Block> {
    Seq::new(v.len(), |i: int| block_of(v[i]))
}

/// Makes every run of adjacent blocks into one block.
pub fn merge_adjacent_blocks(matching_blocks: &Vec<(usize, usize, usize)>) -> (non_adjacent: Vec<
    (usize, usize, usize),
>)
    requires
        forall|t: int|
            0 <= t < matching_blocks.len() ==> (#[trigger] matching_blocks[t]).0
                + matching_blocks[t].2 <= usize::MAX && matching_blocks[t].1 + matching_blocks[t].2
                <= usize::MAX,
    ensures
        blocks_of(non_adjacent@) == merge_adjacent(blocks_of(matching_blocks@)),
{
    let ghost all = blocks_of(matching_blocks@);
    let mut previous: (usize, usize, usize) = (0, 0, 0);
    let mut non_adjacent: Vec<(usize, usize, usize)> = Vec::new();
    let mut n: usize = 0;
    assert(all.skip(0) =~= all);
    assert(blocks_of(non_adjacent@) =~= Seq::<Block>::empty());
    while n < matching_blocks.len()
        invariant
            n <= matching_blocks.len(),
            all == blocks_of(matching_blocks@),
            previous.0 + previous.2 <= usize::MAX,
            previous.1 + previous.2 <= usize::MAX,
            forall|t: int|
                0 <= t < matching_blocks.len() ==> (#[trigger] matching_blocks[t]).0
                    + matching_blocks[t].2 <= usize::MAX && matching_blocks[t].1
                    + matching_blocks[t].2 <= usize::MAX,
            blocks_of(non_adjacent@) + merge_from(all.skip(n as int), block_of(previous))
                == merge_adjacent(all),
        decreases matching_blocks.len() - n,
    {
        let block = matching_blocks[n];
        let ghost out = blocks_of(non_adjacent@);
        assert(all.skip(n as int)[0] == block_of(block));
        assert(all.skip(n as int).drop_first() =~= all.skip(n + 1));
        if previous.0 + previous.2 == block.0 && previous.1 + previous.2 == block.1 {
            previous = (previous.0, previous.1, previous.2 + block.2);
        } else {
            if previous.2 != 0 {
                non_adjacent.push(previous);
                assert(blocks_of(non_adjacent@) =~= out + kept(block_of(previous)));
            } else {
                assert(out + kept(block_of(previous)) =~= out);
            }
            assert((out + kept(block_of(previous))) + merge_from(
                all.skip(n + 1),
                block_of(block),
            ) =~= out + (kept(block_of(previous)) + merge_from(all.skip(n + 1), block_of(block))));
            previous = block;
        }
        n = n + 1;
    }
    let ghost out = blocks_of(non_adjacent@);
    if previous.2 != 0 {
        non_adjacent.push(previous);
        assert(blocks_of(non_adjacent@) =~= out + kept(block_of(previous)));
    } else {
        assert(out + kept(block_of(previous)) =~= out);
    }
    non_adjacent
}

/// A piece of work for the search: a window still to be searched, or a block
/// that was found and waits for the blocks before it.
enum Work {
    Range { a_low: usize, a_high: usize, b_low: usize, b_high: usize },
    Found { block: (usize, usize, usize) },
}

spec fn work_blocks<A>(x: Seq<A>, y: Seq<A>, item: Work) -> Seq<Block> {
    match item {
        Work::Range { a_low, a_high, b_low, b_high } => blocks_in(
            x,
            y,
            window_of(a_low, a_high, b_low, b_high),
        ),
        Work::Found { block } => seq![block_of(block)],
    }
}

/// The blocks that the work list will still yield, the last item first.
spec fn pending<A>(x: Seq<A>, y: Seq<A>, stack: Seq<Work>) -> Seq<Block>
    decreases stack.len(),
{
    if stack.len() == 0 {
        Seq::empty()
    } else {
        work_blocks(x, y, stack.last()) + pending(x, y, stack.drop_last())
    }
}

spec fn work_weight(item: Work) -> nat {
    match item {
        Work::Range { a_low, a_high, b_low, b_high } => if a_low <= a_high {
            (3 * (a_high - a_low) + 1) as nat
        } else {
            1
        },
        Work::Found { block } => 1,
    }
}

spec fn stack_weight(stack: Seq<Work>) -> nat
    decreases stack.len(),
{
    if stack.len() == 0 {
        0
    } else {
        work_weight(stack.last()) + stack_weight(stack.drop_last())
    }
}

spec fn work_fits(item: Work, a_len: int, b_len: int) -> bool {
    match item {
        Work::Range { a_low, a_high, b_low, b_high } => a_low <= a_high <= a_len && b_low <= b_high
            <= b_len,
        Work::Found { block } => true,
    }
}

proof fn lemma_push_work<A>(x: Seq<A>, y: Seq<A>, stack: Seq<Work>, item: Work)
    ensures
        pending(x, y, stack.push(item)) == work_blocks(x, y, item) + pending(x, y, stack),
        stack_weight(stack.push(item)) == work_weight(item) + stack_weight(stack),
{
    assert(stack.push(item).drop_last() =~= stack);
}

/// The maximal blocks common to two sequences, in the order of their positions:
/// the longest common block, then, in the same way, what lies before it in both
/// sequences and what lies after it. The search keeps its open windows on a
/// work list.
pub fn get_matching_blocks(build: &Vec<String>, other_build: &Vec<String>) -> (blocks: Vec<
    (usize, usize, usize),
>)
    ensures
        blocks_of(blocks@) == matching_blocks(texts(build@), texts(other_build@)),
{
    let ghost x = texts(build@);
    let ghost y = texts(other_build@);
    let mut queue: Vec<Work> = Vec::new();
    queue.push(
        Work::Range { a_low: 0, a_high: build.len(), b_low: 0, b_high: other_build.len() },
    );
    let mut found: Vec<(usize, usize, usize)> = Vec::new();
    proof {
        lemma_push_work(
            x,
            y,
            Seq::<Work>::empty(),
            Work::Range { a_low: 0, a_high: build.len(), b_low: 0, b_high: other_build.len() },
        );
        assert(blocks_of(found@) =~= Seq::<Block>::empty());
        assert(queue@ =~= Seq::<Work>::empty().push(queue@[0]));
        assert(blocks_of(found@) + pending(x, y, queue@) =~= blocks_in(x, y, whole(x, y)));
    }
    while queue.len() != 0
        invariant
            x == texts(build@),
            y == texts(other_build@),
            blocks_of(found@) + pending(x, y, queue@) == blocks_in(x, y, whole(x, y)),
            forall|t: int|
                0 <= t < queue.len() ==> work_fits(#[trigger] queue[t], x.len() as int, y.len() as int),
        decreases stack_weight(queue@),
    {
        let ghost before = queue@;
        let ghost done = blocks_of(found@);
        let item = queue.pop().unwrap();
        let ghost rest = queue@;
        assert(rest =~= before.drop_last());
        match item {
            Work::Found { block } => {
                found.push(block);
                assert(blocks_of(found@) =~= done + seq![block_of(block)]);
                assert((done + seq![block_of(block)]) + pending(x, y, rest) =~= done + (
                seq![block_of(block)] + pending(x, y, rest)));
            },
            Work::Range { a_low, a_high, b_low, b_high } => {
                let ghost w = window_of(a_low, a_high, b_low, b_high);
                let longest_match = find_longest_match(
                    build,
                    other_build,
                    a_low,
                    a_high,
                    b_low,
                    b_high,
                );
                let ghost m = block_of(longest_match);
                proof {
                    lemma_longest_exists(x, y, w);
                    lemma_longest_unique(x, y, w, m, crate::aligner::longest_match(x, y, w));
                }
                if longest_match.2 != 0 {
                    let ghost wl = Window {
                        a_low: w.a_low,
                        a_high: m.0,
                        b_low: w.b_low,
                        b_high: m.1,
                    };
                    let ghost wr = Window {
                        a_low: m.0 + m.2,
                        a_high: w.a_high,
                        b_low: m.1 + m.2,
                        b_high: w.b_high,
                    };
                    assert(blocks_in(x, y, w) == blocks_in(x, y, wl) + seq![m] + blocks_in(
                        x,
                        y,
                        wr,
                    ));
                    let ghost mut tail = pending(x, y, rest);
                    if longest_match.0 + longest_match.2 < a_high && longest_match.1
                        + longest_match.2 < b_high {
                        let right = Work::Range {
                            a_low: longest_match.0 + longest_match.2,
                            a_high,
                            b_low: longest_match.1 + longest_match.2,
                            b_high,
                        };
                        proof {
                            lemma_push_work(x, y, queue@, right);
                        }
                        queue.push(right);
                    }
                    assert(pending(x, y, queue@) =~= blocks_in(x, y, wr) + tail);
                    proof {
                        lemma_push_work(x, y, queue@, Work::Found { block: longest_match });
                    }
                    queue.push(Work::Found { block: longest_match });
                    if a_low < longest_match.0 && b_low < longest_match.1 {
                        let left = Work::Range {
                            a_low,
                            a_high: longest_match.0,
                            b_low,
                            b_high: longest_match.1,
                        };
                        proof {
                            lemma_push_work(x, y, queue@, left);
                        }
                        queue.push(left);
                    }
                    assert(pending(x, y, queue@) =~= blocks_in(x, y, wl) + (seq![m] + (blocks_in(
                        x,
                        y,
                        wr,
                    ) + tail)));
                    assert(done + pending(x, y, queue@) =~= done + (blocks_in(x, y, w) + tail));
                }
            },
        }
    }
    proof {
        assert(blocks_of(found@) + pending(x, y, queue@) =~= blocks_of(found@));
        lemma_blocks_in(x, y, whole(x, y));
        assert forall|t: int| 0 <= t < found.len() implies (#[trigger] found[t]).0 + found[t].2
            <= usize::MAX && found[t].1 + found[t].2 <= usize::MAX by {
            assert(blocks_of(found@)[t] == block_of(found[t]));
        }
    }
    merge_adjacent_blocks(&found)
}

/// The blocks are matches, and each ends before the next begins: none overlaps
/// another, and they are sorted by position in both sequences.
pub proof fn law_blocks_sorted<A>(x: Seq<A>, y: Seq<A>)
    ensures
        all_within(x, y, whole(x, y), matching_blocks(x, y)),
        sorted_blocks(matching_blocks(x, y)),
{
    lemma_matching_blocks_unmerged(x, y);
    lemma_blocks_in(x, y, whole(x, y));
}

/// The blocks are maximal: no block could be merged with the next.
pub proof fn law_blocks_maximal<A>(x: Seq<A>, y: Seq<A>)
    ensures
        no_adjacent(matching_blocks(x, y)),
{
    lemma_matching_blocks_unmerged(x, y);
    lemma_blocks_in(x, y, whole(x, y));
}

/// Sequences that share no element have no block in common.
pub proof fn law_disjoint_no_blocks<A>(x: Seq<A>, y: Seq<A>)
    requires
        forall|i: int, j: int| 0 <= i < x.len() && 0 <= j < y.len() ==> x[i] != y[j],
    ensures
        matching_blocks(x, y) == Seq::<Block>::empty(),
{
    let w = whole(x, y);
    lemma_matching_blocks_unmerged(x, y);
    lemma_longest_exists(x, y, w);
    assert(is_longest_match(x, y, w, (0, 0, 0)));
    lemma_longest_unique(x, y, w, (0, 0, 0), longest_match(x, y, w));
}

/// A non-empty sequence has with itself one block, which covers it whole.
pub proof fn law_same_one_block<A>(x: Seq<A>)
    requires
        x.len() > 0,
    ensures
        matching_blocks(x, x) == seq![(0int, 0int, x.len() as int)],
{
    let w = whole(x, x);
    let m = (0int, 0int, x.len() as int);
    lemma_matching_blocks_unmerged(x, x);
    lemma_longest_exists(x, x, w);
    assert(is_longest_match(x, x, w, m));
    lemma_longest_unique(x, x, w, m, longest_match(x, x, w));
    let wl = Window { a_low: 0, a_high: 0, b_low: 0, b_high: 0 };
    let wr = Window {
        a_low: x.len() as int,
        a_high: x.len() as int,
        b_low: x.len() as int,
        b_high: x.len() as int,
    };
    assert(blocks_in(x, x, wl) =~= Seq::<Block>::empty());
    assert(blocks_in(x, x, wr) =~= Seq::<Block>::empty());
    assert(blocks_in(x, x, w) =~= seq![m]);
}

} // verus!
