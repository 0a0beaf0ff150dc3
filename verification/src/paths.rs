//! What the prefix tree spells: the labels on the way from the root to a
//! node, written one after the other, are the front of a build that was put
//! in.

use vstd::prelude::*;
use crate::cluster::{
    common_prefix, first_match, grown, inserted, label_separator, leaf, lemma_common_prefix,
    lemma_first_match, lemma_sorted, match_key_spec, run_of, same_items, sorted_by_total,
    split_tree, with_leaf, with_value, Tree,
};
use crate::text::{free_of, join_spec, lemma_split_join, lemma_split_parts_free};
use crate::tokens::action_fits;

verus! {

/// The actions that a label stands for. The empty label stands for no action.
pub open spec fn actions_of(label: Seq<char>) -> Seq<Seq<char>> {
    if label.len() == 0 {
        Seq::empty()
    } else {
        run_of(label)
    }
}

/// `run` is the front of `all`.
pub open spec fn is_front(run: Seq<Seq<char>>, all: Seq<Seq<char>>) -> bool {
    run.len() <= all.len() && all.take(run.len() as int) == run
}

/// One of the trees, or a node below one of them, is reached by the actions
/// of `run`.
pub open spec fn spells_any(trees: Seq<Tree>, run: Seq<Seq<char>>) -> bool {
    exists|i: int| 0 <= i < trees.len() && #[trigger] spells_from(trees[i], run)
}

/// One of the first `n` trees, or a node below one of them, is reached by the
/// actions of `run`.
pub open spec fn spells_upto(trees: Seq<Tree>, n: int, run: Seq<Seq<char>>) -> bool
    decreases trees, n,
{
    0 < n <= trees.len() && (spells_from(trees[n - 1], run) || spells_upto(trees, n - 1, run))
}

/// The node `c`, or a node below it, is reached by the actions of `run`: the
/// run begins with the actions of the label of `c`, and ends there or goes on
/// below `c`.
pub open spec fn spells_from(c: Tree, run: Seq<Seq<char>>) -> bool
    decreases c, 0int,
{
    let own = actions_of(c.label);
    own.len() <= run.len() && run.take(own.len() as int) == own && (run.len() == own.len()
        || spells_upto(c.children, c.children.len() as int, run.skip(own.len() as int)))
}

/// One of the first `n` trees is reached just when one of them is.
pub proof fn lemma_spells_upto(trees: Seq<Tree>, n: int, run: Seq<Seq<char>>)
    requires
        0 <= n <= trees.len(),
    ensures
        spells_upto(trees, n, run) <==> exists|i: int|
            0 <= i < n && #[trigger] spells_from(trees[i], run),
    decreases n,
{
    if n > 0 {
        lemma_spells_upto(trees, n - 1, run);
        if spells_upto(trees, n, run) {
            if spells_from(trees[n - 1], run) {
            } else {
                let i = choose|i: int| 0 <= i < n - 1 && #[trigger] spells_from(trees[i], run);
                assert(spells_from(trees[i], run));
            }
        }
        if exists|i: int| 0 <= i < n && #[trigger] spells_from(trees[i], run) {
            let i = choose|i: int| 0 <= i < n && #[trigger] spells_from(trees[i], run);
            if i < n - 1 {
                assert(spells_from(trees[i], run));
            }
        }
    }
}

/// What it means that a node is reached, in terms of its children.
pub proof fn lemma_spells_from(c: Tree, run: Seq<Seq<char>>)
    ensures
        spells_from(c, run) <==> {
            let own = actions_of(c.label);
            own.len() <= run.len() && run.take(own.len() as int) == own && (run.len() == own.len()
                || spells_any(c.children, run.skip(own.len() as int)))
        },
{
    let own = actions_of(c.label);
    lemma_spells_upto(c.children, c.children.len() as int, run.skip(own.len() as int));
}

/// A node below the root `t` is reached by the actions of `run`.
pub open spec fn spells(t: Tree, run: Seq<Seq<char>>) -> bool {
    spells_any(t.children, run)
}

/// No action is the empty text.
pub open spec fn no_empty(parts: Seq<Seq<char>>) -> bool {
    forall|i: int| 0 <= i < parts.len() ==> (#[trigger] parts[i]).len() > 0
}

/// The label is empty, or none of its actions is.
pub open spec fn clean_label(label: Seq<char>) -> bool {
    label.len() == 0 || no_empty(run_of(label))
}

/// Every label below the root is clean.
pub open spec fn clean_tree(t: Tree) -> bool
    decreases t,
{
    forall|i: int|
        0 <= i < t.children.len() ==> clean_label((#[trigger] t.children[i]).label) && clean_tree(
            t.children[i],
        )
}

/// The two sequences agree on what they share at the front.
proof fn lemma_common_prefix_equal(a: Seq<Seq<char>>, b: Seq<Seq<char>>)
    ensures
        a.take(common_prefix(a, b)) == b.take(common_prefix(a, b)),
    decreases a.len(),
{
    lemma_common_prefix(a, b);
    let m = common_prefix(a, b);
    if m > 0 {
        lemma_common_prefix_equal(a.drop_first(), b.drop_first());
        lemma_common_prefix(a.drop_first(), b.drop_first());
        assert forall|i: int| 0 <= i < m implies a.take(m)[i] == b.take(m)[i] by {
            if i > 0 {
                assert(a.drop_first().take(m - 1)[i - 1] == b.drop_first().take(m - 1)[i - 1]);
            }
        }
        assert(a.take(m) =~= b.take(m));
    } else {
        assert(a.take(0) =~= b.take(0));
    }
}

/// A text joined from at least one part, the first of which is not empty, is
/// not empty.
proof fn lemma_join_not_empty(parts: Seq<Seq<char>>)
    requires
        parts.len() >= 1,
        parts[0].len() > 0,
    ensures
        join_spec(parts, label_separator()).len() > 0,
{
}

/// A slice of the actions of a clean label, joined, stands for just these
/// actions, and is a clean label.
proof fn lemma_slice_actions(label: Seq<char>, from: int, to: int)
    requires
        label.len() > 0,
        no_empty(run_of(label)),
        0 <= from <= to <= run_of(label).len(),
    ensures
        actions_of(join_spec(run_of(label).subrange(from, to), label_separator())) == run_of(
            label,
        ).subrange(from, to),
        clean_label(join_spec(run_of(label).subrange(from, to), label_separator())),
{
    let tokens = run_of(label);
    let x = tokens.subrange(from, to);
    lemma_split_parts_free(label, ',');
    if x.len() == 0 {
        assert(x =~= Seq::<Seq<char>>::empty());
    } else {
        assert forall|i: int| 0 <= i < x.len() implies free_of(#[trigger] x[i], ',') by {
            assert(free_of(tokens[from + i], ','));
        }
        assert forall|i: int| 0 <= i < x.len() implies (#[trigger] x[i]).len() > 0 by {
            assert(tokens[from + i].len() > 0);
        }
        lemma_split_join(x, ',');
        assert(x[0].len() > 0);
        lemma_join_not_empty(x);
    }
}

/// The parts of a label that a build shares and does not share, and what of
/// the build is left behind the shared part, as actions.
pub struct Shares {
    pub front: Seq<Seq<char>>,
    pub back: Seq<Seq<char>>,
    pub rest: Seq<Seq<char>>,
}

/// The label cut where the build stops to share its actions.
pub open spec fn shares(label: Seq<char>, build: Seq<char>) -> Shares {
    let shared = match_key_spec(label, build);
    Shares {
        front: actions_of(join_spec(run_of(label).take(shared), label_separator())),
        back: actions_of(join_spec(run_of(label).skip(shared), label_separator())),
        rest: actions_of(join_spec(run_of(build).skip(shared), label_separator())),
    }
}

/// Where a clean build shares a leading action with a clean label: the two
/// parts of the label make up the label, the shared part and the rest of the
/// build make up the build, and all three parts are clean labels.
proof fn lemma_shares(label: Seq<char>, build: Seq<char>)
    requires
        clean_label(label),
        clean_label(build),
        match_key_spec(label, build) > 0,
    ensures
        shares(label, build).front + shares(label, build).back == actions_of(label),
        shares(label, build).front + shares(label, build).rest == actions_of(build),
        match_key_spec(label, build) == run_of(label).len() ==> shares(label, build).front
            == actions_of(label),
        1 <= match_key_spec(label, build) <= run_of(label).len(),
        match_key_spec(label, build) <= run_of(build).len(),
        clean_label(join_spec(run_of(label).take(match_key_spec(label, build)), label_separator())),
        clean_label(join_spec(run_of(label).skip(match_key_spec(label, build)), label_separator())),
        clean_label(join_spec(run_of(build).skip(match_key_spec(label, build)), label_separator())),
{
    let l = run_of(label);
    let t = run_of(build);
    let m = match_key_spec(label, build);
    lemma_common_prefix(t, l);
    lemma_common_prefix_equal(t, l);
    assert(t.take(m)[0] == l.take(m)[0]);
    assert(t[0] == l[0]);
    if build.len() == 0 {
        // the one action of the build is empty, so the label is empty too
        assert(t[0].len() == 0);
        assert(label.len() == 0);
        assert(l =~= seq![Seq::<char>::empty()]);
        assert(t =~= seq![Seq::<char>::empty()]);
        assert(m == 1) by {
            assert(common_prefix(t.drop_first(), l.drop_first()) == 0);
        }
        assert(l.take(1) =~= seq![Seq::<char>::empty()]);
        assert(l.skip(1) =~= Seq::<Seq<char>>::empty());
        assert(t.skip(1) =~= Seq::<Seq<char>>::empty());
        assert(join_spec(l.take(1), label_separator()) =~= Seq::<char>::empty());
        assert(join_spec(l.skip(1), label_separator()) =~= Seq::<char>::empty());
        assert(shares(label, build).front + shares(label, build).back =~= actions_of(label));
        assert(shares(label, build).front + shares(label, build).rest =~= actions_of(build));
    } else {
        assert(t[0].len() > 0);
        assert(label.len() > 0);
        assert(l.take(m) =~= l.subrange(0, m));
        assert(l.skip(m) =~= l.subrange(m, l.len() as int));
        assert(t.skip(m) =~= t.subrange(m, t.len() as int));
        assert(t.take(m) =~= t.subrange(0, m));
        lemma_slice_actions(label, 0, m);
        lemma_slice_actions(label, m, l.len() as int);
        lemma_slice_actions(build, m, t.len() as int);
        assert(l.subrange(0, m) + l.subrange(m, l.len() as int) =~= l);
        assert(t.subrange(0, m) + t.subrange(m, t.len() as int) =~= t);
        if m == l.len() {
            assert(l.take(m) =~= l);
        }
    }
}

/// What holds the same trees spells the same runs.
proof fn lemma_spells_same_items(a: Seq<Tree>, b: Seq<Tree>, run: Seq<Seq<char>>)
    requires
        same_items(a, b),
        spells_any(a, run),
    ensures
        spells_any(b, run),
{
    let i = choose|i: int| 0 <= i < a.len() && #[trigger] spells_from(a[i], run);
    assert(a.contains(a[i]));
    assert(b.contains(a[i]));
    let j = choose|j: int| 0 <= j < b.len() && b[j] == a[i];
    assert(spells_from(b[j], run));
}

/// A node with one more leaf spells what it spelled, and the leaf.
proof fn lemma_with_leaf_spells(t: Tree, label: Seq<char>, count: int, run: Seq<Seq<char>>)
    requires
        spells(with_leaf(t, label, count), run),
    ensures
        spells(t, run) || run == actions_of(label),
{
    let more = t.children.push(leaf(label, count));
    lemma_sorted(more);
    lemma_spells_same_items(sorted_by_total(more), more, run);
    let i = choose|i: int| 0 <= i < more.len() && #[trigger] spells_from(more[i], run);
    if i < t.children.len() {
        assert(spells_from(t.children[i], run));
    } else {
        let own = actions_of(label);
        assert(more[i] == leaf(label, count));
        lemma_spells_from(leaf(label, count), run);
        assert(run.take(run.len() as int) =~= run);
    }
}

/// A front followed by the front of the rest is a front of the whole.
proof fn lemma_front_extends(run: Seq<Seq<char>>, head: Seq<Seq<char>>, rest: Seq<Seq<char>>)
    requires
        head.len() <= run.len(),
        run.take(head.len() as int) == head,
        is_front(run.skip(head.len() as int), rest),
    ensures
        is_front(run, head + rest),
{
    let all = head + rest;
    let tail = run.skip(head.len() as int);
    assert forall|i: int| 0 <= i < run.len() implies all.take(run.len() as int)[i] == run[i] by {
        if i < head.len() {
            assert(run.take(head.len() as int)[i] == head[i]);
        } else {
            assert(rest.take(tail.len() as int)[i - head.len()] == tail[i - head.len()]);
        }
    }
    assert(all.take(run.len() as int) =~= run);
}

/// What a tree spells once a build is put in it spelled before, or it is a
/// front of the build.
pub proof fn lemma_inserted_spells(t: Tree, build: Seq<char>, count: int, run: Seq<Seq<char>>)
    requires
        clean_tree(t),
        clean_label(build),
        spells(inserted(t, build, count), run),
    ensures
        spells(t, run) || is_front(run, actions_of(build)),
    decreases t, 0nat,
{
    let k = first_match(t.children, build);
    lemma_first_match(t.children, build);
    if 0 <= k < t.children.len() {
        let child = t.children[k];
        let changed = t.children.update(k, grown(child, build, count));
        lemma_sorted(changed);
        lemma_spells_same_items(sorted_by_total(changed), changed, run);
        let i = choose|i: int| 0 <= i < changed.len() && #[trigger] spells_from(changed[i], run);
        if i == k {
            lemma_first_match_found(t.children, build);
            lemma_grown_spells(child, build, count, run);
            if spells_from(child, run) {
                assert(spells_from(t.children[k], run));
            }
        } else {
            assert(spells_from(t.children[i], run));
        }
    } else {
        lemma_with_leaf_spells(t, build, count, run);
        if run == actions_of(build) {
            assert(run.take(run.len() as int) =~= run);
        }
    }
}

/// The child that `first_match` finds shares a leading action with the build.
proof fn lemma_first_match_found(children: Seq<Tree>, build: Seq<char>)
    requires
        0 <= first_match(children, build) < children.len(),
    ensures
        match_key_spec(children[first_match(children, build)].label, build) > 0,
    decreases children.len(),
{
    if !(children.len() == 0 || match_key_spec(children[0].label, build) > 0) {
        lemma_first_match(children.drop_first(), build);
        lemma_first_match_found(children.drop_first(), build);
    }
}

/// What a child spells once it has taken a build it spelled before, or it is
/// a front of the build.
proof fn lemma_grown_spells(child: Tree, build: Seq<char>, count: int, run: Seq<Seq<char>>)
    requires
        clean_label(child.label),
        clean_tree(child),
        clean_label(build),
        match_key_spec(child.label, build) > 0,
        spells_from(grown(child, build, count), run),
    ensures
        spells_from(child, run) || is_front(run, actions_of(build)),
    decreases child, 1nat,
{
    let shared = match_key_spec(child.label, build);
    let rest = join_spec(run_of(build).skip(shared), label_separator());
    let parts = shares(child.label, build);
    let own = actions_of(child.label);
    lemma_shares(child.label, build);
    lemma_spells_from(grown(child, build, count), run);
    lemma_spells_from(child, run);
    if shared == run_of(child.label).len() {
        assert(parts.front == own);
        let below = run.skip(own.len() as int);
        if child.children.len() != 0 {
            lemma_inserted_label(child, rest, count);
            if run.len() != own.len() {
                lemma_inserted_spells(child, rest, count, below);
                if !spells(child, below) {
                    lemma_front_extends(run, own, parts.rest);
                }
            }
        } else {
            if run.len() != own.len() {
                lemma_with_leaf_spells(child, rest, count, below);
                assert(!spells(child, below));
                assert(below.take(below.len() as int) =~= below);
                lemma_front_extends(run, own, parts.rest);
            }
        }
    } else {
        let halved = split_tree(child, shared);
        let demoted = Tree {
            label: join_spec(run_of(child.label).skip(shared), label_separator()),
            children: child.children,
            value: child.value,
            total: child.total,
        };
        let one = seq![demoted];
        lemma_sorted(one);
        let head = parts.front;
        let below = run.skip(head.len() as int);
        assert(actions_of(halved.label) == head);
        if run.len() == head.len() {
            // the split node itself
            assert(parts.rest.take(0) =~= below);
            lemma_front_extends(run, head, parts.rest);
        } else {
            let through_demoted = if run_of(build).len() > shared {
                lemma_with_leaf_spells(halved, rest, count, below);
                spells(halved, below)
            } else {
                true
            };
            if through_demoted {
                assert(spells_any(sorted_by_total(one), below));
                lemma_spells_same_items(sorted_by_total(one), one, below);
                let i = choose|i: int| 0 <= i < one.len() && #[trigger] spells_from(one[i], below);
                assert(one[i] == demoted);
                lemma_spells_from(demoted, below);
                // the way through the demoted node is the old way through the child
                assert(actions_of(demoted.label) == parts.back);
                assert(run.take(own.len() as int) =~= head + parts.back) by {
                    assert forall|j: int| 0 <= j < own.len() implies run[j] == (head
                        + parts.back)[j] by {
                        if j < head.len() {
                            assert(run.take(head.len() as int)[j] == head[j]);
                        } else {
                            assert(below.take(parts.back.len() as int)[j - head.len()]
                                == parts.back[j - head.len()]);
                        }
                    }
                }
                assert(below.skip(parts.back.len() as int) =~= run.skip(own.len() as int));
            } else {
                assert(below.take(below.len() as int) =~= below);
                lemma_front_extends(run, head, parts.rest);
            }
        }
    }
}

/// Putting a build in keeps the label of the node it is put below.
proof fn lemma_inserted_label(t: Tree, build: Seq<char>, count: int)
    ensures
        inserted(t, build, count).label == t.label,
{
}

/// A clean node that gains a clean leaf stays clean.
proof fn lemma_with_leaf_clean(t: Tree, label: Seq<char>, count: int)
    requires
        clean_tree(t),
        clean_label(label),
    ensures
        clean_tree(with_leaf(t, label, count)),
{
    let more = t.children.push(leaf(label, count));
    lemma_sorted(more);
    let out = with_leaf(t, label, count);
    assert forall|i: int| 0 <= i < out.children.len() implies clean_label(
        (#[trigger] out.children[i]).label,
    ) && clean_tree(out.children[i]) by {
        let x = out.children[i];
        assert(out.children.contains(x));
        assert(more.contains(x));
        let j = choose|j: int| 0 <= j < more.len() && more[j] == x;
        if j < t.children.len() {
            assert(x == t.children[j]);
        }
    }
}

/// A clean child that takes a clean build stays clean.
proof fn lemma_grown_clean(child: Tree, build: Seq<char>, count: int)
    requires
        clean_label(child.label),
        clean_tree(child),
        clean_label(build),
        match_key_spec(child.label, build) > 0,
    ensures
        clean_label(grown(child, build, count).label),
        clean_tree(grown(child, build, count)),
    decreases child, 1nat,
{
    let shared = match_key_spec(child.label, build);
    let rest = join_spec(run_of(build).skip(shared), label_separator());
    lemma_shares(child.label, build);
    if shared == run_of(child.label).len() {
        if child.children.len() != 0 {
            law_inserted_stays_clean(child, rest, count);
        } else {
            lemma_with_leaf_clean(child, rest, count);
        }
    } else {
        let halved = split_tree(child, shared);
        let demoted = Tree {
            label: join_spec(run_of(child.label).skip(shared), label_separator()),
            children: child.children,
            value: child.value,
            total: child.total,
        };
        let one = seq![demoted];
        lemma_sorted(one);
        assert(clean_tree(demoted)) by {
            assert forall|i: int| 0 <= i < demoted.children.len() implies clean_label(
                (#[trigger] demoted.children[i]).label,
            ) && clean_tree(demoted.children[i]) by {
                assert(clean_label(child.children[i].label) && clean_tree(child.children[i]));
            }
        }
        assert(clean_tree(halved)) by {
            assert forall|i: int| 0 <= i < halved.children.len() implies clean_label(
                (#[trigger] halved.children[i]).label,
            ) && clean_tree(halved.children[i]) by {
                let x = halved.children[i];
                assert(halved.children.contains(x));
                assert(one.contains(x));
                let j = choose|j: int| 0 <= j < one.len() && one[j] == x;
                assert(x == demoted);
            }
        }
        if run_of(build).len() > shared {
            lemma_with_leaf_clean(halved, rest, count);
        } else {
            let out = with_value(halved, count);
            assert forall|i: int| 0 <= i < out.children.len() implies clean_label(
                (#[trigger] out.children[i]).label,
            ) && clean_tree(out.children[i]) by {
                assert(clean_label(halved.children[i].label) && clean_tree(halved.children[i]));
            }
        }
    }
}

/// A clean tree that takes a clean build stays clean.
pub proof fn law_inserted_stays_clean(t: Tree, build: Seq<char>, count: int)
    requires
        clean_tree(t),
        clean_label(build),
    ensures
        clean_tree(inserted(t, build, count)),
    decreases t, 0nat,
{
    let k = first_match(t.children, build);
    lemma_first_match(t.children, build);
    if 0 <= k < t.children.len() {
        let child = t.children[k];
        let changed = t.children.update(k, grown(child, build, count));
        lemma_sorted(changed);
        lemma_first_match_found(t.children, build);
        lemma_grown_clean(child, build, count);
        let out = inserted(t, build, count);
        assert forall|i: int| 0 <= i < out.children.len() implies clean_label(
            (#[trigger] out.children[i]).label,
        ) && clean_tree(out.children[i]) by {
            let x = out.children[i];
            assert(out.children.contains(x));
            assert(changed.contains(x));
            let j = choose|j: int| 0 <= j < changed.len() && changed[j] == x;
            if j != k {
                assert(x == t.children[j]);
            }
        }
    } else {
        lemma_with_leaf_clean(t, build, count);
    }
}

/// The tree that holds the builds of `history`, each put in with its weight,
/// in order. The empty build is left out.
pub open spec fn tree_after(history: Seq<(Seq<char>, int)>) -> Tree
    decreases history.len(),
{
    if history.len() == 0 {
        leaf("ROOT"@, 0)
    } else if history.last().0.len() == 0 {
        tree_after(history.drop_last())
    } else {
        inserted(tree_after(history.drop_last()), history.last().0, history.last().1)
    }
}

/// The sum of the weights of the builds that are not empty.
pub open spec fn sum_weights(history: Seq<(Seq<char>, int)>) -> int
    decreases history.len(),
{
    if history.len() == 0 {
        0
    } else if history.last().0.len() == 0 {
        sum_weights(history.drop_last())
    } else {
        sum_weights(history.drop_last()) + history.last().1
    }
}

/// The total of the root is the sum of the weights of the builds put in.
pub proof fn law_root_total_is_sum(history: Seq<(Seq<char>, int)>)
    ensures
        tree_after(history).total == sum_weights(history),
    decreases history.len(),
{
    if history.len() > 0 {
        law_root_total_is_sum(history.drop_last());
    }
}

/// Where no build has an empty action, the labels on the way from the root
/// to any node, written one after the other, are the front of a build that
/// was put in.
pub proof fn law_paths_spell_fronts(history: Seq<(Seq<char>, int)>, run: Seq<Seq<char>>)
    requires
        forall|i: int| 0 <= i < history.len() ==> clean_label((#[trigger] history[i]).0),
        spells(tree_after(history), run),
    ensures
        exists|i: int|
            0 <= i < history.len() && (#[trigger] history[i]).0.len() > 0 && is_front(
                run,
                actions_of(history[i].0),
            ),
    decreases history.len(),
{
    if history.len() == 0 {
        assert(tree_after(history).children.len() == 0);
    } else {
        let before = history.drop_last();
        let n = history.len() - 1;
        assert forall|i: int| 0 <= i < before.len() implies clean_label((#[trigger] before[i]).0) by {
            assert(clean_label(history[i].0));
        }
        lemma_history_clean(before);
        let spelled_before = if history.last().0.len() == 0 {
            true
        } else {
            assert(clean_label(history[n].0));
            lemma_inserted_spells(tree_after(before), history.last().0, history.last().1, run);
            spells(tree_after(before), run)
        };
        if spelled_before {
            law_paths_spell_fronts(before, run);
            let i = choose|i: int|
                0 <= i < before.len() && (#[trigger] before[i]).0.len() > 0 && is_front(
                    run,
                    actions_of(before[i].0),
                );
            assert(history[i] == before[i]);
        } else {
            assert(history[n].0.len() > 0 && is_front(run, actions_of(history[n].0)));
        }
    }
}

/// A tree that took only clean builds is clean.
proof fn lemma_history_clean(history: Seq<(Seq<char>, int)>)
    requires
        forall|i: int| 0 <= i < history.len() ==> clean_label((#[trigger] history[i]).0),
    ensures
        clean_tree(tree_after(history)),
    decreases history.len(),
{
    if history.len() > 0 {
        let before = history.drop_last();
        assert forall|i: int| 0 <= i < before.len() implies clean_label((#[trigger] before[i]).0) by {
            assert(clean_label(history[i].0));
        }
        lemma_history_clean(before);
        if history.last().0.len() != 0 {
            assert(clean_label(history[history.len() - 1].0));
            law_inserted_stays_clean(tree_after(before), history.last().0, history.last().1);
        }
    }
}

/// One tree is in order as it is.
proof fn lemma_sorted_one(x: Tree)
    ensures
        sorted_by_total(seq![x]) == seq![x],
{
    let one = seq![x];
    assert(crate::cluster::sorted_upto(one, 0) =~= Seq::<Tree>::empty());
    assert(crate::cluster::first_lower(Seq::<Tree>::empty(), x.total) == 0);
    assert(crate::cluster::placed(Seq::<Tree>::empty(), x) =~= one);
    assert(crate::cluster::sorted_upto(one, 1) == crate::cluster::placed(
        crate::cluster::sorted_upto(one, 0),
        one[0],
    ));
}

/// Two builds that share their first actions, and each go on after them,
/// make one node that holds what they share, with one leaf below it for what
/// follows in the first build and one for what follows in the second.
pub proof fn law_shared_prefix_is_one_edge(
    first: Seq<char>,
    first_count: int,
    second: Seq<char>,
    second_count: int,
)
    requires
        first.len() > 0,
        second.len() > 0,
        0 < match_key_spec(first, second) < run_of(first).len(),
        match_key_spec(first, second) < run_of(second).len(),
    ensures
        ({
            let shared = match_key_spec(first, second);
            let tree = tree_after(seq![(first, first_count), (second, second_count)]);
            &&& tree.total == first_count + second_count
            &&& tree.children.len() == 1
            &&& tree.children[0].label == join_spec(run_of(first).take(shared), label_separator())
            &&& tree.children[0].value == 0
            &&& tree.children[0].total == first_count + second_count
            &&& tree.children[0].children == sorted_by_total(
                seq![
                    leaf(join_spec(run_of(first).skip(shared), label_separator()), first_count),
                    leaf(join_spec(run_of(second).skip(shared), label_separator()), second_count),
                ],
            )
        }),
{
    let shared = match_key_spec(first, second);
    let root = leaf("ROOT"@, 0);
    let history = seq![(first, first_count), (second, second_count)];
    let one = seq![(first, first_count)];
    assert(history.drop_last() =~= one);
    assert(one.drop_last() =~= Seq::<(Seq<char>, int)>::empty());
    assert(tree_after(one.drop_last()) == root);
    assert(tree_after(one) == inserted(root, first, first_count));
    let after_first = inserted(root, first, first_count);
    let first_leaf = leaf(first, first_count);
    assert(first_match(root.children, first) == 0);
    assert(root.children.push(first_leaf) =~= seq![first_leaf]);
    lemma_sorted_one(first_leaf);
    assert(after_first.children == seq![first_leaf]);
    assert(tree_after(history) == inserted(after_first, second, second_count));
    assert(first_match(after_first.children, second) == 0);
    let halved = split_tree(first_leaf, shared);
    let demoted = leaf(join_spec(run_of(first).skip(shared), label_separator()), first_count);
    lemma_sorted_one(demoted);
    assert(halved.children == seq![demoted]);
    let rest = join_spec(run_of(second).skip(shared), label_separator());
    let taken = grown(first_leaf, second, second_count);
    assert(taken == with_leaf(halved, rest, second_count));
    assert(halved.children.push(leaf(rest, second_count)) =~= seq![
        demoted,
        leaf(rest, second_count),
    ]);
    assert(after_first.children.update(0, taken) =~= seq![taken]);
    lemma_sorted_one(taken);
}

/// A build of actions that fit, joined by commas, is a clean label that
/// stands for just these actions.
pub proof fn law_fit_build_is_clean(actions: Seq<Seq<char>>)
    requires
        forall|i: int| 0 <= i < actions.len() ==> action_fits(#[trigger] actions[i]),
    ensures
        clean_label(join_spec(actions, label_separator())),
        actions_of(join_spec(actions, label_separator())) == actions,
{
    if actions.len() > 0 {
        assert forall|i: int| 0 <= i < actions.len() implies free_of(#[trigger] actions[i], ',') by {
            assert(action_fits(actions[i]));
            assert forall|j: int| 0 <= j < actions[i].len() implies actions[i][j] != ',' by {
                assert(!crate::tokens::separates(actions[i][j]));
            }
        }
        lemma_split_join(actions, ',');
        assert(action_fits(actions[0]));
        lemma_join_not_empty(actions);
        assert forall|i: int| 0 <= i < actions.len() implies (#[trigger] actions[i]).len() > 0 by {
            assert(action_fits(actions[i]));
        }
    } else {
        assert(actions =~= Seq::<Seq<char>>::empty());
    }
}

/// A tree among trees that hold it is reached where the tree itself is.
proof fn lemma_spells_one_of(trees: Seq<Tree>, x: Tree, run: Seq<Seq<char>>)
    requires
        trees.contains(x),
        spells_from(x, run),
    ensures
        spells_any(trees, run),
{
    let i = choose|i: int| 0 <= i < trees.len() && trees[i] == x;
    assert(spells_from(trees[i], run));
}

/// A leaf is reached by the actions of its label.
proof fn lemma_leaf_spells(label: Seq<char>, count: int)
    ensures
        spells_from(leaf(label, count), actions_of(label)),
{
    let own = actions_of(label);
    lemma_spells_from(leaf(label, count), own);
    assert(own.take(own.len() as int) =~= own);
}

/// A node that gains a leaf spells the leaf by the leaf's actions.
proof fn lemma_with_leaf_spells_leaf(t: Tree, label: Seq<char>, count: int)
    ensures
        spells(with_leaf(t, label, count), actions_of(label)),
{
    let more = t.children.push(leaf(label, count));
    lemma_sorted(more);
    lemma_leaf_spells(label, count);
    assert(more[more.len() - 1] == leaf(label, count));
    assert(more.contains(leaf(label, count)));
    lemma_spells_one_of(sorted_by_total(more), leaf(label, count), actions_of(label));
}

/// A child that has taken a build spells the build.
proof fn lemma_grown_spells_build(child: Tree, build: Seq<char>, count: int)
    requires
        clean_label(child.label),
        clean_tree(child),
        clean_label(build),
        match_key_spec(child.label, build) > 0,
    ensures
        spells_from(grown(child, build, count), actions_of(build)),
    decreases child, 1nat,
{
    let shared = match_key_spec(child.label, build);
    let rest = join_spec(run_of(build).skip(shared), label_separator());
    let parts = shares(child.label, build);
    let all = actions_of(build);
    let taken = grown(child, build, count);
    lemma_shares(child.label, build);
    lemma_spells_from(taken, all);
    let head = parts.front;
    assert(all.take(head.len() as int) =~= head);
    assert(all.skip(head.len() as int) =~= parts.rest);
    if shared == run_of(child.label).len() {
        assert(head == actions_of(child.label));
        if child.children.len() != 0 {
            lemma_inserted_label(child, rest, count);
            law_inserted_build_is_spelled(child, rest, count);
        } else {
            lemma_with_leaf_spells_leaf(child, rest, count);
        }
    } else {
        let halved = split_tree(child, shared);
        assert(actions_of(halved.label) == head);
        if run_of(build).len() > shared {
            lemma_with_leaf_spells_leaf(halved, rest, count);
        } else {
            assert(run_of(build).skip(shared) =~= Seq::<Seq<char>>::empty());
            assert(rest =~= Seq::<char>::empty());
        }
    }
}

/// A build that is put into a tree is spelled by the labels on the way to one
/// of the nodes.
pub proof fn law_inserted_build_is_spelled(t: Tree, build: Seq<char>, count: int)
    requires
        clean_tree(t),
        clean_label(build),
    ensures
        spells(inserted(t, build, count), actions_of(build)),
    decreases t, 0nat,
{
    let k = first_match(t.children, build);
    lemma_first_match(t.children, build);
    if 0 <= k < t.children.len() {
        let child = t.children[k];
        let taken = grown(child, build, count);
        let changed = t.children.update(k, taken);
        lemma_sorted(changed);
        lemma_first_match_found(t.children, build);
        lemma_grown_spells_build(child, build, count);
        assert(changed[k] == taken);
        assert(changed.contains(taken));
        lemma_spells_one_of(sorted_by_total(changed), taken, actions_of(build));
    } else {
        lemma_with_leaf_spells_leaf(t, build, count);
    }
}

/// What a child spelled it spells once it has taken a build.
proof fn lemma_grown_keeps(child: Tree, build: Seq<char>, count: int, run: Seq<Seq<char>>)
    requires
        clean_label(child.label),
        clean_tree(child),
        clean_label(build),
        match_key_spec(child.label, build) > 0,
        spells_from(child, run),
    ensures
        spells_from(grown(child, build, count), run),
    decreases child, 1nat,
{
    let shared = match_key_spec(child.label, build);
    let rest = join_spec(run_of(build).skip(shared), label_separator());
    let parts = shares(child.label, build);
    let own = actions_of(child.label);
    let taken = grown(child, build, count);
    lemma_shares(child.label, build);
    lemma_spells_from(taken, run);
    lemma_spells_from(child, run);
    if shared == run_of(child.label).len() {
        if child.children.len() != 0 {
            lemma_inserted_label(child, rest, count);
            if run.len() != own.len() {
                law_inserted_keeps_paths(child, rest, count, run.skip(own.len() as int));
            }
        } else {
            assert(!spells_any(child.children, run.skip(own.len() as int)));
        }
    } else {
        let halved = split_tree(child, shared);
        let demoted = Tree {
            label: join_spec(run_of(child.label).skip(shared), label_separator()),
            children: child.children,
            value: child.value,
            total: child.total,
        };
        let one = seq![demoted];
        lemma_sorted(one);
        let head = parts.front;
        let back = parts.back;
        let below = run.skip(head.len() as int);
        assert(actions_of(halved.label) == head);
        assert(actions_of(demoted.label) == back);
        assert(run.take(head.len() as int) =~= head) by {
            assert forall|j: int| 0 <= j < head.len() implies run[j] == head[j] by {
                assert(run.take(own.len() as int)[j] == (head + back)[j]);
            }
        }
        assert(below.take(back.len() as int) =~= back) by {
            assert forall|j: int| 0 <= j < back.len() implies below[j] == back[j] by {
                assert(run.take(own.len() as int)[head.len() + j] == (head + back)[head.len() + j]);
            }
        }
        assert(below.skip(back.len() as int) =~= run.skip(own.len() as int));
        lemma_spells_from(demoted, below);
        assert(spells_from(demoted, below));
        assert(one[0] == demoted);
        assert(one.contains(demoted));
        assert(halved.children.contains(demoted));
        if run_of(build).len() > shared {
            let more = halved.children.push(leaf(rest, count));
            lemma_sorted(more);
            let i = choose|i: int| 0 <= i < halved.children.len() && halved.children[i] == demoted;
            assert(more[i] == demoted);
            assert(more.contains(demoted));
            lemma_spells_one_of(sorted_by_total(more), demoted, below);
        } else {
            lemma_spells_one_of(halved.children, demoted, below);
        }
    }
}

/// What a tree spelled it spells once a build is put in.
pub proof fn law_inserted_keeps_paths(t: Tree, build: Seq<char>, count: int, run: Seq<Seq<char>>)
    requires
        clean_tree(t),
        clean_label(build),
        spells(t, run),
    ensures
        spells(inserted(t, build, count), run),
    decreases t, 0nat,
{
    let k = first_match(t.children, build);
    lemma_first_match(t.children, build);
    let i = choose|i: int| 0 <= i < t.children.len() && #[trigger] spells_from(t.children[i], run);
    if 0 <= k < t.children.len() {
        let child = t.children[k];
        let taken = grown(child, build, count);
        let changed = t.children.update(k, taken);
        lemma_sorted(changed);
        if i == k {
            lemma_first_match_found(t.children, build);
            lemma_grown_keeps(child, build, count, run);
        }
        assert(spells_from(changed[i], run));
        assert(changed.contains(changed[i]));
        lemma_spells_one_of(sorted_by_total(changed), changed[i], run);
    } else {
        let more = t.children.push(leaf(build, count));
        lemma_sorted(more);
        assert(more[i] == t.children[i]);
        assert(more.contains(t.children[i]));
        lemma_spells_one_of(sorted_by_total(more), t.children[i], run);
    }
}

/// Where no build has an empty action, every build that was put in is
/// spelled by the labels on the way from the root to one of the nodes.
pub proof fn law_every_build_is_spelled(history: Seq<(Seq<char>, int)>, i: int)
    requires
        forall|k: int| 0 <= k < history.len() ==> clean_label((#[trigger] history[k]).0),
        0 <= i < history.len(),
        history[i].0.len() > 0,
    ensures
        spells(tree_after(history), actions_of(history[i].0)),
    decreases history.len(),
{
    let before = history.drop_last();
    let n = history.len() - 1;
    assert forall|k: int| 0 <= k < before.len() implies clean_label((#[trigger] before[k]).0) by {
        assert(clean_label(history[k].0));
    }
    lemma_history_clean(before);
    assert(clean_label(history[n].0));
    if i == n {
        law_inserted_build_is_spelled(tree_after(before), history[n].0, history[n].1);
    } else {
        law_every_build_is_spelled(before, i);
        assert(before[i] == history[i]);
        if history[n].0.len() != 0 {
            law_inserted_keeps_paths(
                tree_after(before),
                history[n].0,
                history[n].1,
                actions_of(history[i].0),
            );
        }
    }
}

} // verus!
