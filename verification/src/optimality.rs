//! What holds of the path that the segmenter chooses: it is a way to cut the
//! build, no other way is more probable, and its windows make up the build.

use vstd::prelude::*;
use crate::bignat::{
    lemma_product_concat, lemma_product_nonnegative, lemma_product_positive, product,
};
use crate::model::{table_of, table_wf, TokenProbability};
use crate::segmenter::{
    all_positive, best_among, best_upto, candidate_wf, covered, extended, lemma_best_wf,
    lemma_extended_wf, lemma_window_factors_positive, more_probable, path_wf, sizes_allowed,
    window_factors, CandidateId, PathId,
};
use crate::tokens::MAX_TOKEN_SIZE;

verus! {

/// The candidate that the sizes make: the build cut front to back into
/// windows of these sizes. `None` where a size is not allowed or a window has
/// no factors.
pub open spec fn segmentation(
    table: Seq<TokenProbability>,
    population: Seq<char>,
    build: Seq<Seq<char>>,
    sizes: Seq<int>,
) -> Option<CandidateId>
    decreases sizes.len(),
{
    if sizes.len() == 0 {
        Some(
            CandidateId {
                windows: Seq::empty(),
                numerators: Seq::empty(),
                denominators: Seq::empty(),
            },
        )
    } else {
        match (
            segmentation(table, population, build, sizes.drop_last()),
            window_factors(table, population, build, covered(sizes.drop_last()), sizes.last()),
        ) {
            (Some(head), Some(factors)) => if 1 <= sizes.last() <= MAX_TOKEN_SIZE {
                Some(extended(head, sizes.last(), factors))
            } else {
                None
            },
            _ => None,
        }
    }
}

/// `a` is at most as probable as `b`.
pub open spec fn at_most_as_probable(a: CandidateId, b: CandidateId) -> bool {
    !more_probable(a, b)
}

proof fn lemma_order_transitive(
    an: int,
    ad: int,
    bn: int,
    bd: int,
    cn: int,
    cd: int,
)
    by (nonlinear_arith)
    requires
        an >= 0,
        bn >= 0,
        cn >= 0,
        ad > 0,
        bd > 0,
        cd > 0,
        an * bd <= bn * ad,
        bn * cd <= cn * bd,
    ensures
        an * cd <= cn * ad,
{
    assert((an * bd) * cd <= (bn * ad) * cd);
    assert((bn * cd) * ad <= (cn * bd) * ad);
    assert((an * cd) * bd <= (cn * ad) * bd);
}

proof fn lemma_order_scaled(an: int, ad: int, bn: int, bd: int, n: int, d: int)
    by (nonlinear_arith)
    requires
        n >= 0,
        d >= 0,
        an * bd <= bn * ad,
    ensures
        (an * n) * (bd * d) <= (bn * n) * (ad * d),
{
    assert((an * bd) * (n * d) <= (bn * ad) * (n * d));
}

/// Being at most as probable carries over from one candidate to the next.
pub proof fn lemma_at_most_transitive(a: CandidateId, b: CandidateId, c: CandidateId)
    requires
        all_positive(a.denominators),
        all_positive(b.denominators),
        all_positive(c.denominators),
        at_most_as_probable(a, b),
        at_most_as_probable(b, c),
    ensures
        at_most_as_probable(a, c),
{
    lemma_product_nonnegative(a.numerators);
    lemma_product_nonnegative(b.numerators);
    lemma_product_nonnegative(c.numerators);
    lemma_product_positive(a.denominators);
    lemma_product_positive(b.denominators);
    lemma_product_positive(c.denominators);
    lemma_order_transitive(
        product(a.numerators),
        product(a.denominators),
        product(b.numerators),
        product(b.denominators),
        product(c.numerators),
        product(c.denominators),
    );
}

/// The same window added to two candidates keeps their order.
pub proof fn lemma_extended_keeps_order(
    a: CandidateId,
    b: CandidateId,
    size: int,
    factors: (Seq<u32>, Seq<u32>),
)
    requires
        at_most_as_probable(a, b),
    ensures
        at_most_as_probable(extended(a, size, factors), extended(b, size, factors)),
{
    lemma_product_concat(a.numerators, factors.0);
    lemma_product_concat(a.denominators, factors.1);
    lemma_product_concat(b.numerators, factors.0);
    lemma_product_concat(b.denominators, factors.1);
    lemma_product_nonnegative(factors.0);
    lemma_product_nonnegative(factors.1);
    lemma_order_scaled(
        product(a.numerators),
        product(a.denominators),
        product(b.numerators),
        product(b.denominators),
        product(factors.0),
        product(factors.1),
    );
}

/// Allowed sizes cover more with every window.
pub proof fn lemma_covered_nonnegative(sizes: Seq<int>)
    requires
        sizes_allowed(sizes),
    ensures
        0 <= covered(sizes),
        sizes.len() > 0 ==> covered(sizes.drop_last()) < covered(sizes),
        sizes.len() > 0 ==> sizes_allowed(sizes.drop_last()),
    decreases sizes.len(),
{
    if sizes.len() > 0 {
        assert(1 <= sizes[sizes.len() - 1]);
        assert forall|i: int| 0 <= i < sizes.drop_last().len() implies 1 <= #[trigger] sizes.drop_last()[i]
            <= MAX_TOKEN_SIZE by {
            assert(1 <= sizes[i] <= MAX_TOKEN_SIZE);
        }
        lemma_covered_nonnegative(sizes.drop_last());
    }
}

/// A segmentation is a candidate for the actions that its sizes cover.
pub proof fn lemma_segmentation_wf(
    table: Seq<TokenProbability>,
    population: Seq<char>,
    build: Seq<Seq<char>>,
    sizes: Seq<int>,
)
    requires
        table_wf(table_of(table)),
    ensures
        match segmentation(table, population, build, sizes) {
            Some(c) => candidate_wf(c, covered(sizes)) && c.windows == sizes,
            None => true,
        },
    decreases sizes.len(),
{
    if sizes.len() > 0 {
        lemma_segmentation_wf(table, population, build, sizes.drop_last());
        lemma_window_factors_positive(
            table,
            population,
            build,
            covered(sizes.drop_last()),
            sizes.last(),
        );
        match (
            segmentation(table, population, build, sizes.drop_last()),
            window_factors(table, population, build, covered(sizes.drop_last()), sizes.last()),
        ) {
            (Some(head), Some(factors)) => {
                if 1 <= sizes.last() <= MAX_TOKEN_SIZE {
                    lemma_extended_wf(head, sizes.last(), factors, covered(sizes));
                    assert(head.windows.push(sizes.last()) =~= sizes);
                }
            },
            _ => {},
        }
    }
}

/// The best way with a last window of at most `sizes` actions is at least as
/// probable as the best way to the start of any such window, with that window
/// added.
proof fn lemma_best_among_dominates(
    table: Seq<TokenProbability>,
    population: Seq<char>,
    build: Seq<Seq<char>>,
    end: int,
    sizes: int,
    size: int,
)
    requires
        table_wf(table_of(table)),
        1 <= size <= sizes <= MAX_TOKEN_SIZE,
        size <= end,
        best_upto(table, population, build, end - size) is Some,
        window_factors(table, population, build, end - size, size) is Some,
    ensures
        best_among(table, population, build, end, sizes) is Some,
        at_most_as_probable(
            extended(
                best_upto(table, population, build, end - size)->0,
                size,
                window_factors(table, population, build, end - size, size)->0,
            ),
            best_among(table, population, build, end, sizes)->0,
        ),
    decreases sizes,
{
    let head = best_upto(table, population, build, end - size)->0;
    let factors = window_factors(table, population, build, end - size, size)->0;
    let added = extended(head, size, factors);
    let shorter = best_among(table, population, build, end, sizes - 1);
    lemma_best_wf(table, population, build, end, sizes);
    lemma_best_wf(table, population, build, end, sizes - 1);
    lemma_best_wf(table, population, build, end - size, 0);
    lemma_window_factors_positive(table, population, build, end - size, size);
    lemma_extended_wf(head, size, factors, end);
    if size < sizes {
        lemma_best_among_dominates(table, population, build, end, sizes - 1, size);
        let kept = shorter->0;
        let out = best_among(table, population, build, end, sizes)->0;
        if out != kept {
            // the longer window replaced what was kept: it is more probable
            lemma_at_most_transitive(added, kept, out);
        }
    }
}

/// What the segmenter chooses is a way to cut the build: its factors are those
/// of its own windows.
pub proof fn law_best_is_a_segmentation(
    table: Seq<TokenProbability>,
    population: Seq<char>,
    build: Seq<Seq<char>>,
    end: int,
    sizes: int,
)
    requires
        table_wf(table_of(table)),
        0 <= end,
    ensures
        match best_upto(table, population, build, end) {
            Some(c) => segmentation(table, population, build, c.windows) == Some(c) && covered(
                c.windows,
            ) == end,
            None => true,
        },
        match best_among(table, population, build, end, sizes) {
            Some(c) => segmentation(table, population, build, c.windows) == Some(c) && covered(
                c.windows,
            ) == end,
            None => true,
        },
    decreases end, MAX_TOKEN_SIZE + 1, sizes,
{
    if end > 0 {
        lemma_best_among_is_a_segmentation(table, population, build, end, MAX_TOKEN_SIZE as int);
        lemma_best_among_is_a_segmentation(table, population, build, end, sizes);
    }
}

proof fn lemma_best_among_is_a_segmentation(
    table: Seq<TokenProbability>,
    population: Seq<char>,
    build: Seq<Seq<char>>,
    end: int,
    sizes: int,
)
    requires
        table_wf(table_of(table)),
        0 < end,
    ensures
        match best_among(table, population, build, end, sizes) {
            Some(c) => segmentation(table, population, build, c.windows) == Some(c) && covered(
                c.windows,
            ) == end,
            None => true,
        },
    decreases end, 0int, sizes,
{
    if !(sizes <= 0 || sizes > MAX_TOKEN_SIZE) {
        lemma_best_among_is_a_segmentation(table, population, build, end, sizes - 1);
        if sizes <= end {
            law_best_is_a_segmentation(table, population, build, end - sizes, 0);
            lemma_best_wf(table, population, build, end - sizes, 0);
            match (
                best_upto(table, population, build, end - sizes),
                window_factors(table, population, build, end - sizes, sizes),
            ) {
                (Some(head), Some(factors)) => {
                    let longer = extended(head, sizes, factors);
                    assert(longer.windows.drop_last() =~= head.windows);
                    assert(longer.windows.last() == sizes);
                },
                _ => {},
            }
        }
    }
}

/// No way to cut the build is more probable than the one the segmenter
/// chooses, and where there is a way at all the segmenter chooses one.
pub proof fn law_best_is_most_probable(
    table: Seq<TokenProbability>,
    population: Seq<char>,
    build: Seq<Seq<char>>,
    sizes: Seq<int>,
)
    requires
        table_wf(table_of(table)),
        segmentation(table, population, build, sizes) is Some,
    ensures
        best_upto(table, population, build, covered(sizes)) is Some,
        at_most_as_probable(
            segmentation(table, population, build, sizes)->0,
            best_upto(table, population, build, covered(sizes))->0,
        ),
    decreases sizes.len(),
{
    let end = covered(sizes);
    let c = segmentation(table, population, build, sizes)->0;
    lemma_segmentation_wf(table, population, build, sizes);
    lemma_covered_nonnegative(sizes);
    if sizes.len() > 0 {
        lemma_covered_nonnegative(sizes.drop_last());
        let front = sizes.drop_last();
        let size = sizes.last();
        let head = segmentation(table, population, build, front)->0;
        let factors = window_factors(table, population, build, covered(front), size)->0;
        lemma_segmentation_wf(table, population, build, front);
        law_best_is_most_probable(table, population, build, front);
        let best_head = best_upto(table, population, build, covered(front))->0;
        lemma_best_among_dominates(table, population, build, end, MAX_TOKEN_SIZE as int, size);
        let added = extended(best_head, size, factors);
        let best = best_upto(table, population, build, end)->0;
        lemma_extended_keeps_order(head, best_head, size, factors);
        lemma_best_wf(table, population, build, end, 0);
        lemma_best_wf(table, population, build, covered(front), 0);
        lemma_window_factors_positive(table, population, build, covered(front), size);
        lemma_extended_wf(best_head, size, factors, end);
        lemma_at_most_transitive(c, added, best);
    }
}

/// The windows that the sizes cut out of the actions, front to back.
pub open spec fn chosen_windows(actions: Seq<Seq<char>>, sizes: Seq<int>) -> Seq<Seq<Seq<char>>>
    decreases sizes.len(),
{
    if sizes.len() == 0 {
        Seq::empty()
    } else {
        chosen_windows(actions, sizes.drop_last()).push(
            actions.subrange(covered(sizes.drop_last()), covered(sizes)),
        )
    }
}

/// The windows written one after the other.
pub open spec fn concatenated(windows: Seq<Seq<Seq<char>>>) -> Seq<Seq<char>>
    decreases windows.len(),
{
    if windows.len() == 0 {
        Seq::empty()
    } else {
        concatenated(windows.drop_last()) + windows.last()
    }
}

proof fn lemma_windows_make_front(actions: Seq<Seq<char>>, sizes: Seq<int>)
    requires
        sizes_allowed(sizes),
        covered(sizes) <= actions.len(),
    ensures
        concatenated(chosen_windows(actions, sizes)) == actions.take(covered(sizes)),
    decreases sizes.len(),
{
    lemma_covered_nonnegative(sizes);
    if sizes.len() > 0 {
        lemma_covered_nonnegative(sizes.drop_last());
        lemma_windows_make_front(actions, sizes.drop_last());
        let windows = chosen_windows(actions, sizes);
        assert(windows.drop_last() =~= chosen_windows(actions, sizes.drop_last()));
        assert(actions.take(covered(sizes.drop_last())) + actions.subrange(
            covered(sizes.drop_last()),
            covered(sizes),
        ) =~= actions.take(covered(sizes)));
    } else {
        assert(actions.take(0) =~= Seq::<Seq<char>>::empty());
    }
}

/// The chosen windows of a path, written one after the other, are the build.
pub proof fn law_windows_make_build(p: PathId)
    requires
        path_wf(p),
    ensures
        concatenated(chosen_windows(p.actions, p.windows)) == p.actions,
{
    lemma_windows_make_front(p.actions, p.windows);
    assert(p.actions.take(p.actions.len() as int) =~= p.actions);
}

} // verus!
