//! A compressed prefix tree over comma-delimited runs of actions.

use vstd::prelude::*;
use crate::text::{join, join_spec, split, split_spec, texts};

verus! {

/// A term of a cluster tree with the terms below it.
#[derive(Debug)]
pub struct ClusterTreeNode {
    pub label: String,
    pub matchup: String,
    pub children: Vec<ClusterTreeNode>,
}

/// The terms at the top of a cluster tree.
#[derive(Debug)]
pub struct ClusterTree {
    pub terms: Vec<ClusterTreeNode>,
}

/// A node of the tree as mathematical values.
pub struct Tree {
    pub label: Seq<char>,
    pub children: Seq<Tree>,
    pub value: int,
    pub total: int,
}

/// A node of the prefix tree: a run of actions joined by commas, the weight of
/// the builds that end here, and the weight of all builds below and here.
#[derive(Debug)]
pub struct Node {
    pub label: String,
    pub children: Vec<Node>,
    pub value: u16,
    pub total: u16,
}

/// A prefix tree; its root holds no actions.
#[derive(Debug)]
pub struct RadixTree {
    pub root: Node,
}

impl View for Node {
    type V = Tree;

    open spec fn view(&self) -> Tree
        decreases self, 0nat,
    {
        Tree {
            label: self.label@,
            children: trees_upto(self.children, self.children.len() as nat),
            value: self.value as int,
            total: self.total as int,
        }
    }
}

/// What the first `n` nodes stand for.
pub open spec fn trees_upto(nodes: Vec<Node>, n: nat) -> Seq<Tree>
    decreases nodes, n,
{
    if n == 0 || n > nodes.len() {
        Seq::empty()
    } else {
        trees_upto(nodes, (n - 1) as nat).push(nodes[n - 1]@)
    }
}

impl View for RadixTree {
    type V = Tree;

    open spec fn view(&self) -> Tree {
        self.root@
    }
}

/// The trees that a vector of nodes stands for.
pub open spec fn trees_of(nodes: Seq<Node>) -> Seq<Tree> {
    Seq::new(nodes.len(), |i: int| nodes[i]@)
}

/// Stands between the actions of a label: ",".
pub open spec fn label_separator() -> Seq<char> {
    seq![',']
}

/// The actions of a label or of a build.
pub open spec fn run_of(label: Seq<char>) -> Seq<Seq<char>> {
    split_spec(label, ',')
}

/// The number of leading items that the two sequences share.
pub open spec fn common_prefix(a: Seq<Seq<char>>, b: Seq<Seq<char>>) -> int
    decreases a.len(),
{
    if a.len() == 0 || b.len() == 0 || a[0] != b[0] {
        0
    } else {
        1 + common_prefix(a.drop_first(), b.drop_first())
    }
}

/// The number of leading actions that a label and a build share.
pub open spec fn match_key_spec(label: Seq<char>, build: Seq<char>) -> int {
    common_prefix(run_of(build), run_of(label))
}

/// A node without children.
pub open spec fn leaf(label: Seq<char>, value: int) -> Tree {
    Tree { label, children: Seq::empty(), value, total: value }
}

/// The sum of the totals of the trees.
pub open spec fn sum_totals(trees: Seq<Tree>) -> int
    decreases trees.len(),
{
    if trees.len() == 0 {
        0
    } else {
        sum_totals(trees.drop_last()) + trees.last().total
    }
}

/// The place of the first tree whose total is below `total`; the number of
/// trees where there is none.
pub open spec fn first_lower(trees: Seq<Tree>, total: int) -> int
    decreases trees.len(),
{
    if trees.len() == 0 || trees[0].total < total {
        0
    } else {
        1 + first_lower(trees.drop_first(), total)
    }
}

/// The trees with `t` put before the first tree of a lower total.
pub open spec fn placed(trees: Seq<Tree>, t: Tree) -> Seq<Tree> {
    let p = first_lower(trees, t.total);
    trees.take(p).push(t) + trees.skip(p)
}

/// The first `n` trees, each in turn put before the first tree of a lower
/// total.
pub open spec fn sorted_upto(trees: Seq<Tree>, n: int) -> Seq<Tree>
    decreases n,
{
    if n <= 0 {
        Seq::empty()
    } else {
        placed(sorted_upto(trees, n - 1), trees[n - 1])
    }
}

/// The trees by descending total; trees of one total keep their order.
pub open spec fn sorted_by_total(trees: Seq<Tree>) -> Seq<Tree> {
    sorted_upto(trees, trees.len() as int)
}

/// No tree has a higher total than one before it.
pub open spec fn descending(trees: Seq<Tree>) -> bool {
    forall|i: int, j: int| 0 <= i < j < trees.len() ==> (#[trigger] trees[i]).total >= (#[trigger] trees[j]).total
}

/// The place of the first child that shares a leading action with the build;
/// the number of children where none does.
pub open spec fn first_match(children: Seq<Tree>, build: Seq<char>) -> int
    decreases children.len(),
{
    if children.len() == 0 || match_key_spec(children[0].label, build) > 0 {
        0
    } else {
        1 + first_match(children.drop_first(), build)
    }
}

/// The node with its label cut after `idx` actions: the node keeps the front
/// and its total; what follows moves, with the children and the weight, into
/// the one child that the node then has.
pub open spec fn split_tree(t: Tree, idx: int) -> Tree {
    let run = run_of(t.label);
    let demoted = Tree {
        label: join_spec(run.skip(idx), label_separator()),
        children: t.children,
        value: t.value,
        total: t.total,
    };
    Tree {
        label: join_spec(run.take(idx), label_separator()),
        children: sorted_by_total(seq![demoted]),
        value: 0,
        total: t.total,
    }
}

/// The node with one more leaf among its children.
pub open spec fn with_leaf(t: Tree, label: Seq<char>, count: int) -> Tree {
    Tree {
        label: t.label,
        children: sorted_by_total(t.children.push(leaf(label, count))),
        value: t.value,
        total: t.total + count,
    }
}

/// The node with the weight of a build that ends at it.
pub open spec fn with_value(t: Tree, count: int) -> Tree {
    Tree { label: t.label, children: t.children, value: count, total: t.total + count }
}

/// The tree below `t` with the build put in. The first child that shares a
/// leading action with the build takes it; where no child shares anything, the
/// build becomes a new child. Every node on the way gains `count`.
pub open spec fn inserted(t: Tree, build: Seq<char>, count: int) -> Tree
    decreases t, 0nat,
{
    let k = first_match(t.children, build);
    if 0 <= k < t.children.len() {
        Tree {
            label: t.label,
            children: sorted_by_total(t.children.update(k, grown(t.children[k], build, count))),
            value: t.value,
            total: t.total + count,
        }
    } else {
        with_leaf(t, build, count)
    }
}

/// A child that takes the build. Where the build holds the child's whole
/// label, the rest of the build goes below the child; where it holds only a
/// part, the child is split there, and the rest of the build becomes a leaf
/// below it, or the child's own weight where nothing is left.
pub open spec fn grown(child: Tree, build: Seq<char>, count: int) -> Tree
    decreases child, 1nat,
{
    let shared = match_key_spec(child.label, build);
    let rest = join_spec(run_of(build).skip(shared), label_separator());
    if shared == run_of(child.label).len() {
        if child.children.len() != 0 {
            inserted(child, rest, count)
        } else {
            with_leaf(child, rest, count)
        }
    } else {
        let halved = split_tree(child, shared);
        if run_of(build).len() > shared {
            with_leaf(halved, rest, count)
        } else {
            with_value(halved, count)
        }
    }
}

/// The total of every node is its own weight and the totals of its children,
/// and children stand by descending total.
pub open spec fn tree_wf(t: Tree) -> bool
    decreases t,
{
    &&& 0 <= t.value
    &&& t.total == t.value + sum_totals(t.children)
    &&& descending(t.children)
    &&& forall|i: int| 0 <= i < t.children.len() ==> tree_wf(#[trigger] t.children[i])
}

/// Both sequences hold the same trees.
pub open spec fn same_items(a: Seq<Tree>, b: Seq<Tree>) -> bool {
    forall|x: Tree| a.contains(x) <==> b.contains(x)
}

/// The sum over two sequences written one after the other.
pub proof fn lemma_sum_totals_concat(a: Seq<Tree>, b: Seq<Tree>)
    ensures
        sum_totals(a + b) == sum_totals(a) + sum_totals(b),
    decreases b.len(),
{
    if b.len() == 0 {
        assert(a + b =~= a);
    } else {
        assert((a + b).drop_last() =~= a + b.drop_last());
        lemma_sum_totals_concat(a, b.drop_last());
    }
}

/// What a change of one tree does to the sum of the totals.
pub proof fn lemma_sum_totals_update(trees: Seq<Tree>, k: int, t: Tree)
    requires
        0 <= k < trees.len(),
    ensures
        sum_totals(trees.update(k, t)) == sum_totals(trees) - trees[k].total + t.total,
    decreases trees.len(),
{
    if k < trees.len() - 1 {
        assert(trees.update(k, t).drop_last() =~= trees.drop_last().update(k, t));
        lemma_sum_totals_update(trees.drop_last(), k, t);
    } else {
        assert(trees.update(k, t).drop_last() =~= trees.drop_last());
    }
}

/// A total that is not negative is at most the sum that holds it.
pub proof fn lemma_total_in_sum(trees: Seq<Tree>, k: int)
    requires
        0 <= k < trees.len(),
        forall|i: int| 0 <= i < trees.len() ==> (#[trigger] trees[i]).total >= 0,
    ensures
        0 <= trees[k].total <= sum_totals(trees),
        0 <= sum_totals(trees),
    decreases trees.len(),
{
    assert(trees[trees.len() - 1].total >= 0);
    if trees.len() > 1 {
        let front = trees.drop_last();
        assert forall|i: int| 0 <= i < front.len() implies (#[trigger] front[i]).total >= 0 by {
            assert(trees[i].total >= 0);
        }
        if k < trees.len() - 1 {
            lemma_total_in_sum(front, k);
        } else {
            lemma_total_in_sum(front, 0);
        }
    } else {
        assert(sum_totals(trees.drop_last()) == 0);
    }
}

/// Before the place that `first_lower` gives no total is lower, and the
/// total at the place is.
pub proof fn lemma_first_lower(trees: Seq<Tree>, total: int)
    ensures
        0 <= first_lower(trees, total) <= trees.len(),
        forall|i: int| 0 <= i < first_lower(trees, total) ==> (#[trigger] trees[i]).total >= total,
        first_lower(trees, total) < trees.len() ==> trees[first_lower(trees, total)].total < total,
    decreases trees.len(),
{
    if !(trees.len() == 0 || trees[0].total < total) {
        let rest = trees.drop_first();
        lemma_first_lower(rest, total);
        assert forall|i: int| 0 <= i < first_lower(trees, total) implies (#[trigger] trees[i]).total
            >= total by {
            if i > 0 {
                assert(rest[i - 1].total >= total);
            }
        }
        if first_lower(trees, total) < trees.len() {
            assert(rest[first_lower(rest, total)] == trees[first_lower(trees, total)]);
        }
    }
}

/// Where each tree stands once `t` has been put in place.
pub proof fn lemma_placed_items(trees: Seq<Tree>, t: Tree)
    ensures
        0 <= first_lower(trees, t.total) <= trees.len(),
        placed(trees, t).len() == trees.len() + 1,
        placed(trees, t)[first_lower(trees, t.total)] == t,
        forall|i: int|
            0 <= i < first_lower(trees, t.total) ==> #[trigger] placed(trees, t)[i] == trees[i],
        forall|i: int|
            first_lower(trees, t.total) < i <= trees.len() ==> #[trigger] placed(trees, t)[i]
                == trees[i - 1],
{
    lemma_first_lower(trees, t.total);
}

/// Putting a tree in place adds its total to the sum.
pub proof fn lemma_placed_sum(trees: Seq<Tree>, t: Tree)
    ensures
        sum_totals(placed(trees, t)) == sum_totals(trees) + t.total,
{
    let p = first_lower(trees, t.total);
    lemma_first_lower(trees, t.total);
    let front = trees.take(p);
    let back = trees.skip(p);
    lemma_sum_totals_concat(front.push(t), back);
    lemma_sum_totals_concat(front, back);
    assert(front + back =~= trees);
    assert(front.push(t).drop_last() =~= front);
}

/// Putting a tree in place keeps the other trees.
pub proof fn lemma_placed_same(trees: Seq<Tree>, t: Tree, x: Tree)
    ensures
        placed(trees, t).contains(x) <==> (trees.contains(x) || x == t),
{
    let p = first_lower(trees, t.total);
    let out = placed(trees, t);
    lemma_placed_items(trees, t);
    if out.contains(x) {
        let i = choose|i: int| 0 <= i < out.len() && out[i] == x;
        if i < p {
            assert(trees[i] == x);
        } else if i > p {
            assert(out[i] == trees[i - 1]);
            assert(trees[i - 1] == x);
        }
    }
    if trees.contains(x) {
        let i = choose|i: int| 0 <= i < trees.len() && trees[i] == x;
        if i < p {
            assert(out[i] == x);
        } else {
            assert(out[i + 1] == trees[i + 1 - 1]);
            assert(out[i + 1] == x);
        }
    }
    if x == t {
        assert(out[p] == x);
    }
}

/// Putting a tree in place keeps a descending order.
pub proof fn lemma_placed_descending(trees: Seq<Tree>, t: Tree)
    requires
        descending(trees),
    ensures
        descending(placed(trees, t)),
{
    let p = first_lower(trees, t.total);
    let out = placed(trees, t);
    lemma_placed_items(trees, t);
    lemma_first_lower(trees, t.total);
    assert forall|i: int, j: int| 0 <= i < j < out.len() implies (#[trigger] out[i]).total >= (
    #[trigger] out[j]).total by {
        if j < p {
            assert(out[i] == trees[i] && out[j] == trees[j]);
        } else if j == p {
            assert(out[i] == trees[i]);
            assert(trees[i].total >= t.total);
        } else if i < p {
            assert(out[i] == trees[i] && out[j] == trees[j - 1]);
        } else if i == p {
            assert(out[j] == trees[j - 1]);
            assert(trees[p].total < t.total);
            assert(p < j - 1 ==> trees[p].total >= trees[j - 1].total);
        } else {
            assert(out[i] == trees[i - 1] && out[j] == trees[j - 1]);
        }
    }
}

/// What holds of the trees once one more is put in place.
pub proof fn lemma_placed(trees: Seq<Tree>, t: Tree)
    ensures
        placed(trees, t).len() == trees.len() + 1,
        sum_totals(placed(trees, t)) == sum_totals(trees) + t.total,
        descending(trees) ==> descending(placed(trees, t)),
        forall|x: Tree| placed(trees, t).contains(x) <==> (trees.contains(x) || x == t),
{
    lemma_placed_items(trees, t);
    lemma_placed_sum(trees, t);
    if descending(trees) {
        lemma_placed_descending(trees, t);
    }
    assert forall|x: Tree| placed(trees, t).contains(x) <==> (trees.contains(x) || x == t) by {
        lemma_placed_same(trees, t, x);
    }
}

/// Sorting keeps the trees and the sum of their totals, and the outcome is
/// descending.
pub proof fn lemma_sorted_upto(trees: Seq<Tree>, n: int)
    requires
        0 <= n <= trees.len(),
    ensures
        sorted_upto(trees, n).len() == n,
        sum_totals(sorted_upto(trees, n)) == sum_totals(trees.take(n)),
        descending(sorted_upto(trees, n)),
        same_items(sorted_upto(trees, n), trees.take(n)),
    decreases n,
{
    if n > 0 {
        lemma_sorted_upto(trees, n - 1);
        let before = sorted_upto(trees, n - 1);
        lemma_placed(before, trees[n - 1]);
        assert(trees.take(n).drop_last() =~= trees.take(n - 1));
        let out = sorted_upto(trees, n);
        let now = trees.take(n);
        let earlier = trees.take(n - 1);
        assert forall|x: Tree| out.contains(x) <==> now.contains(x) by {
            if now.contains(x) {
                let i = choose|i: int| 0 <= i < now.len() && now[i] == x;
                if i < n - 1 {
                    assert(earlier[i] == x);
                }
            }
            if earlier.contains(x) {
                let i = choose|i: int| 0 <= i < earlier.len() && earlier[i] == x;
                assert(now[i] == x);
            }
            assert(now[n - 1] == trees[n - 1]);
        }
    } else {
        assert(trees.take(0) =~= Seq::<Tree>::empty());
    }
}

/// Sorting keeps the trees and the sum of their totals, and the outcome is
/// descending.
pub proof fn lemma_sorted(trees: Seq<Tree>)
    ensures
        sorted_by_total(trees).len() == trees.len(),
        sum_totals(sorted_by_total(trees)) == sum_totals(trees),
        descending(sorted_by_total(trees)),
        same_items(sorted_by_total(trees), trees),
{
    lemma_sorted_upto(trees, trees.len() as int);
    assert(trees.take(trees.len() as int) =~= trees);
}

/// Two sequences share no more than either holds.
pub proof fn lemma_common_prefix(a: Seq<Seq<char>>, b: Seq<Seq<char>>)
    ensures
        0 <= common_prefix(a, b) <= a.len(),
        common_prefix(a, b) <= b.len(),
    decreases a.len(),
{
    if !(a.len() == 0 || b.len() == 0 || a[0] != b[0]) {
        lemma_common_prefix(a.drop_first(), b.drop_first());
    }
}

/// The place that `first_match` gives is a place among the children, or
/// their number.
pub proof fn lemma_first_match(children: Seq<Tree>, build: Seq<char>)
    ensures
        0 <= first_match(children, build) <= children.len(),
    decreases children.len(),
{
    if !(children.len() == 0 || match_key_spec(children[0].label, build) > 0) {
        lemma_first_match(children.drop_first(), build);
    }
}

proof fn lemma_trees_upto(nodes: Vec<Node>, n: nat)
    requires
        n <= nodes.len(),
    ensures
        trees_upto(nodes, n) == trees_of(nodes@).take(n as int),
    decreases n,
{
    if n > 0 {
        lemma_trees_upto(nodes, (n - 1) as nat);
        assert(trees_of(nodes@).take(n as int) =~= trees_of(nodes@).take(n - 1).push(nodes[n - 1]@));
    } else {
        assert(trees_of(nodes@).take(0) =~= Seq::<Tree>::empty());
    }
}

/// What a node stands for, part by part.
pub proof fn lemma_node_view(node: Node)
    ensures
        node@.label == node.label@,
        node@.children == trees_of(node.children@),
        node@.value == node.value,
        node@.total == node.total,
{
    lemma_trees_upto(node.children, node.children.len() as nat);
    assert(trees_of(node.children@).take(node.children.len() as int) =~= trees_of(node.children@));
}

/// In a well-formed tree no total is negative, and no child has more than
/// its parent.
pub proof fn lemma_total_nonnegative(t: Tree)
    requires
        tree_wf(t),
    ensures
        0 <= t.total,
        0 <= sum_totals(t.children),
        forall|i: int| 0 <= i < t.children.len() ==> 0 <= (#[trigger] t.children[i]).total <= t.total,
    decreases t,
{
    assert forall|i: int| 0 <= i < t.children.len() implies 0 <= (#[trigger] t.children[i]).total by {
        lemma_total_nonnegative(t.children[i]);
    }
    if t.children.len() > 0 {
        lemma_total_in_sum(t.children, 0);
        assert forall|i: int| 0 <= i < t.children.len() implies (#[trigger] t.children[i]).total
            <= t.total by {
            lemma_total_in_sum(t.children, i);
        }
    }
}

/// A node that gains a leaf stays well formed.
pub proof fn lemma_with_leaf_wf(t: Tree, label: Seq<char>, count: int)
    requires
        tree_wf(t),
        0 <= count,
    ensures
        tree_wf(with_leaf(t, label, count)),
{
    let more = t.children.push(leaf(label, count));
    lemma_sorted(more);
    assert(more.drop_last() =~= t.children);
    let out = with_leaf(t, label, count);
    assert forall|i: int| 0 <= i < out.children.len() implies tree_wf(#[trigger] out.children[i]) by {
        let x = out.children[i];
        assert(out.children.contains(x));
        assert(more.contains(x));
        let j = choose|j: int| 0 <= j < more.len() && more[j] == x;
        if j < t.children.len() {
            assert(x == t.children[j]);
        } else {
            assert(x == leaf(label, count));
            assert(sum_totals(x.children) == 0);
        }
    }
}

/// A node that is split stays well formed.
pub proof fn lemma_split_wf(t: Tree, idx: int)
    requires
        tree_wf(t),
    ensures
        tree_wf(split_tree(t, idx)),
        split_tree(t, idx).total == t.total,
        split_tree(t, idx).value == 0,
{
    let run = run_of(t.label);
    let demoted = Tree {
        label: join_spec(run.skip(idx), label_separator()),
        children: t.children,
        value: t.value,
        total: t.total,
    };
    let one = seq![demoted];
    lemma_sorted(one);
    let out = split_tree(t, idx);
    assert(one.drop_last() =~= Seq::<Tree>::empty());
    assert(sum_totals(one) == sum_totals(one.drop_last()) + demoted.total);
    assert(sum_totals(one.drop_last()) == 0);
    assert(tree_wf(demoted)) by {
        assert forall|i: int| 0 <= i < demoted.children.len() implies tree_wf(
            #[trigger] demoted.children[i],
        ) by {
            assert(tree_wf(t.children[i]));
        }
    }
    assert forall|i: int| 0 <= i < out.children.len() implies tree_wf(#[trigger] out.children[i]) by {
        let x = out.children[i];
        assert(out.children.contains(x));
        assert(one.contains(x));
        let j = choose|j: int| 0 <= j < one.len() && one[j] == x;
        assert(x == demoted);
    }
}

/// A node whose child has grown by `count` stays well formed.
pub proof fn lemma_grown_wf(t: Tree, k: int, grown: Tree, count: int)
    requires
        tree_wf(t),
        0 <= k < t.children.len(),
        tree_wf(grown),
        grown.total == t.children[k].total + count,
    ensures
        tree_wf(
            Tree {
                label: t.label,
                children: sorted_by_total(t.children.update(k, grown)),
                value: t.value,
                total: t.total + count,
            },
        ),
{
    let changed = t.children.update(k, grown);
    lemma_sorted(changed);
    lemma_sum_totals_update(t.children, k, grown);
    let out = sorted_by_total(changed);
    assert forall|i: int| 0 <= i < out.len() implies tree_wf(#[trigger] out[i]) by {
        let x = out[i];
        assert(out.contains(x));
        assert(changed.contains(x));
        let j = choose|j: int| 0 <= j < changed.len() && changed[j] == x;
        if j != k {
            assert(x == t.children[j]);
        }
    }
}

/// Putting a build into a well-formed tree leaves it well formed, and its
/// total grows by the build's weight.
pub proof fn lemma_inserted_wf(t: Tree, build: Seq<char>, count: int)
    requires
        tree_wf(t),
        0 <= count,
    ensures
        tree_wf(inserted(t, build, count)),
        inserted(t, build, count).total == t.total + count,
        inserted(t, build, count).value == t.value,
        inserted(t, build, count).label == t.label,
    decreases t, 0nat,
{
    let k = first_match(t.children, build);
    if 0 <= k < t.children.len() {
        assert(tree_wf(t.children[k]));
        lemma_grown_total(t.children[k], build, count);
        lemma_grown_wf(t, k, grown(t.children[k], build, count), count);
    } else {
        lemma_with_leaf_wf(t, build, count);
    }
}

/// A child that takes a build stays well formed, and its total grows by the
/// build's weight.
pub proof fn lemma_grown_total(child: Tree, build: Seq<char>, count: int)
    requires
        tree_wf(child),
        0 <= count,
    ensures
        tree_wf(grown(child, build, count)),
        grown(child, build, count).total == child.total + count,
    decreases child, 1nat,
{
    let shared = match_key_spec(child.label, build);
    let rest = join_spec(run_of(build).skip(shared), label_separator());
    if shared == run_of(child.label).len() {
        if child.children.len() != 0 {
            lemma_inserted_wf(child, rest, count);
        } else {
            lemma_with_leaf_wf(child, rest, count);
        }
    } else {
        let halved = split_tree(child, shared);
        lemma_split_wf(child, shared);
        if run_of(build).len() > shared {
            lemma_with_leaf_wf(halved, rest, count);
        }
    }
}

/// The place where `total` goes among the nodes.
fn place_of(nodes: &Vec<Node>, total: u16) -> (p: usize)
    ensures
        p == first_lower(trees_of(nodes@), total as int),
        p <= nodes.len(),
{
    let ghost all = trees_of(nodes@);
    let mut p: usize = 0;
    assert(all.skip(0) =~= all);
    while p < nodes.len() && nodes[p].total >= total
        invariant
            p <= nodes.len(),
            all == trees_of(nodes@),
            first_lower(all, total as int) == p + first_lower(all.skip(p as int), total as int),
        decreases nodes.len() - p,
    {
        assert(all.skip(p as int).drop_first() =~= all.skip(p + 1));
        assert(all.skip(p as int)[0] == nodes[p as int]@);
        p = p + 1;
    }
    proof {
        if p < nodes.len() {
            assert(all.skip(p as int)[0] == nodes[p as int]@);
        }
    }
    p
}

/// Sorts the nodes by descending total; nodes of one total keep their order.
pub fn sort_by_total(children: &mut Vec<Node>)
    ensures
        trees_of(final(children)@) == sorted_by_total(trees_of(old(children)@)),
{
    let ghost all = trees_of(children@);
    let mut rest: Vec<Node> = Vec::new();
    core::mem::swap(children, &mut rest);
    let mut sorted: Vec<Node> = Vec::new();
    let ghost mut n: int = 0;
    assert(trees_of(sorted@) =~= sorted_upto(all, 0));
    assert(all.skip(0) =~= all);
    while rest.len() > 0
        invariant
            0 <= n <= all.len(),
            n + rest.len() == all.len(),
            trees_of(rest@) == all.skip(n),
            trees_of(sorted@) == sorted_upto(all, n),
        decreases rest.len(),
    {
        let ghost pending = rest@;
        let ghost done = sorted@;
        let node = rest.remove(0);
        assert(node@ == all[n]) by {
            assert(trees_of(pending)[0] == all.skip(n)[0]);
        }
        let p = place_of(&sorted, node.total);
        sorted.insert(p, node);
        proof {
            assert(trees_of(rest@) =~= all.skip(n + 1)) by {
                assert forall|i: int| 0 <= i < rest.len() implies trees_of(rest@)[i] == all.skip(
                    n + 1,
                )[i] by {
                    assert(trees_of(pending)[i + 1] == all.skip(n)[i + 1]);
                }
            }
            assert(trees_of(sorted@) =~= placed(trees_of(done), all[n]));
            n = n + 1;
        }
    }
    *children = sorted;
}

impl Node {
    /// A node without children that holds `value`.
    pub fn new(label: String, value: u16) -> (node: Node)
        ensures
            node@ == leaf(label@, value as int),
            tree_wf(node@),
    {
        let node = Node { label, children: Vec::new(), value, total: value };
        assert(node@.children =~= Seq::<Tree>::empty());
        node
    }

    /// The number of leading actions that the build shares with the label.
    pub fn match_key(&self, build: &str) -> (match_length: usize)
        ensures
            match_length == match_key_spec(self.label@, build@),
    {
        let key_buildings = split(build, ',');
        let node_buildings = split(self.label.as_str(), ',');
        let ghost a = run_of(build@);
        let ghost b = run_of(self.label@);
        let mut match_length: usize = 0;
        assert(a.skip(0) =~= a);
        assert(b.skip(0) =~= b);
        while match_length < key_buildings.len() && match_length < node_buildings.len()
            && key_buildings[match_length] == node_buildings[match_length]
            invariant
                a == texts(key_buildings@),
                b == texts(node_buildings@),
                match_length <= key_buildings.len(),
                match_length <= node_buildings.len(),
                common_prefix(a, b) == match_length + common_prefix(
                    a.skip(match_length as int),
                    b.skip(match_length as int),
                ),
            decreases key_buildings.len() - match_length,
        {
            assert(a.skip(match_length as int).drop_first() =~= a.skip(match_length + 1));
            assert(b.skip(match_length as int).drop_first() =~= b.skip(match_length + 1));
            assert(a.skip(match_length as int)[0] == key_buildings[match_length as int]@);
            assert(b.skip(match_length as int)[0] == node_buildings[match_length as int]@);
            match_length = match_length + 1;
        }
        proof {
            if match_length < key_buildings.len() && match_length < node_buildings.len() {
                assert(a.skip(match_length as int)[0] == key_buildings[match_length as int]@);
                assert(b.skip(match_length as int)[0] == node_buildings[match_length as int]@);
            }
        }
        match_length
    }

    /// Cuts the label after `idx` actions. What follows moves, with the
    /// children and the weight, into a new node, which becomes the only child.
    pub fn split_at(&mut self, idx: usize)
        requires
            idx <= run_of(old(self).label@).len(),
        ensures
            final(self)@ == split_tree(old(self)@, idx as int),
    {
        proof {
            reveal_strlit(",");
            assert(","@ =~= label_separator());
        }
        let buildings = split(self.label.as_str(), ',');
        let ghost run = run_of(self.label@);
        assert(run.take(idx as int) =~= run.subrange(0, idx as int));
        assert(run.skip(idx as int) =~= run.subrange(idx as int, run.len() as int));
        let mut new_node = Node {
            label: join(&buildings, idx, buildings.len(), ","),
            children: Vec::new(),
            value: self.value,
            total: self.total,
        };
        core::mem::swap(&mut new_node.children, &mut self.children);
        let ghost demoted = new_node@;
        proof {
            lemma_node_view(new_node);
            lemma_node_view(*old(self));
        }
        self.children.push(new_node);
        assert(trees_of(self.children@) =~= seq![demoted]);
        sort_by_total(&mut self.children);
        self.label = join(&buildings, 0, idx, ",");
        self.value = 0;
        proof {
            lemma_node_view(*self);
        }
    }

    /// Puts a leaf with the label and the weight among the children.
    fn add_leaf(&mut self, label: String, count: u16)
        requires
            old(self).total + count <= u16::MAX,
        ensures
            final(self)@ == with_leaf(old(self)@, label@, count as int),
    {
        proof {
            lemma_node_view(*self);
        }
        let ghost before = trees_of(self.children@);
        let new_node = Node::new(label, count);
        self.children.push(new_node);
        assert(trees_of(self.children@) =~= before.push(leaf(label@, count as int)));
        sort_by_total(&mut self.children);
        self.total = self.total + count;
        proof {
            lemma_node_view(*self);
        }
    }

    /// Puts the build in below this node and adds its weight to the totals on
    /// the way.
    pub fn walk(&mut self, build_fragment: &str, count: u16)
        requires
            tree_wf(old(self)@),
            old(self).total + count <= u16::MAX,
        ensures
            final(self)@ == inserted(old(self)@, build_fragment@, count as int),
            tree_wf(final(self)@),
        decreases *old(self),
    {
        let ghost before = self@;
        let ghost kids = trees_of(self.children@);
        proof {
            reveal_strlit(",");
            assert(","@ =~= label_separator());
            lemma_node_view(*self);
            lemma_inserted_wf(before, build_fragment@, count as int);
            lemma_total_nonnegative(before);
        }
        let mut k: usize = 0;
        assert(kids.skip(0) =~= kids);
        while k < self.children.len() && self.children[k].match_key(build_fragment) == 0
            invariant
                *self == *old(self),
                kids == trees_of(self.children@),
                k <= self.children.len(),
                first_match(kids, build_fragment@) == k + first_match(
                    kids.skip(k as int),
                    build_fragment@,
                ),
            decreases self.children.len() - k,
        {
            proof {
                lemma_node_view(self.children[k as int]);
                assert(kids.skip(k as int)[0] == self.children[k as int]@);
                assert(kids.skip(k as int).drop_first() =~= kids.skip(k + 1));
            }
            k = k + 1;
        }
        if k == self.children.len() {
            assert(first_match(kids, build_fragment@) == k);
            self.add_leaf(String::from_str(build_fragment), count);
            return ;
        }
        proof {
            lemma_node_view(self.children[k as int]);
            assert(kids.skip(k as int)[0] == self.children[k as int]@);
            assert(first_match(kids, build_fragment@) == k);
            assert(kids[k as int] == self.children[k as int]@);
            lemma_common_prefix(run_of(build_fragment@), run_of(self.children[k as int].label@));
            assert(tree_wf(before.children[k as int]));
            lemma_total_nonnegative(before.children[k as int]);
        }
        let ghost child = kids[k as int];
        let match_length = self.children[k].match_key(build_fragment);
        let buildings = split(build_fragment, ',');
        let node_build_length = split(self.children[k].label.as_str(), ',').len();
        let next_fragment = join(&buildings, match_length, buildings.len(), ",");
        assert(run_of(build_fragment@).skip(match_length as int) =~= texts(buildings@).subrange(
            match_length as int,
            buildings.len() as int,
        ));
        if match_length == node_build_length {
            if self.children[k].children.len() != 0 {
                self.children[k].walk(next_fragment.as_str(), count);
            } else {
                self.children[k].add_leaf(next_fragment, count);
            }
        } else {
            self.children[k].split_at(match_length);
            proof {
                lemma_split_wf(child, match_length as int);
            }
            if buildings.len() > match_length {
                self.children[k].add_leaf(next_fragment, count);
            } else {
                self.children[k].value = count;
                self.children[k].total = self.children[k].total + count;
                proof {
                    lemma_node_view(self.children[k as int]);
                }
            }
        }
        assert(trees_of(self.children@) =~= kids.update(k as int, self.children[k as int]@));
        sort_by_total(&mut self.children);
        self.total = self.total + count;
        proof {
            lemma_node_view(*self);
        }
    }
}

impl RadixTree {
    /// A tree that holds no build.
    pub fn new() -> (tree: RadixTree)
        ensures
            tree@ == leaf("ROOT"@, 0),
            tree_wf(tree@),
    {
        RadixTree { root: Node::new(String::from_str("ROOT"), 0) }
    }

    /// A tree that holds one build.
    pub fn from(build: &str, count: u16) -> (tree: RadixTree)
        ensures
            tree@ == if build@.len() == 0 {
                leaf("ROOT"@, 0)
            } else {
                inserted(leaf("ROOT"@, 0), build@, count as int)
            },
            tree_wf(tree@),
    {
        let mut tree = RadixTree::new();
        tree.insert(build, count);
        tree
    }

    /// Puts the build into the tree with the weight `count`. The empty build
    /// is left out.
    pub fn insert(&mut self, build: &str, count: u16)
        requires
            build@.len() > 0 ==> tree_wf(old(self)@) && old(self).root.total + count <= u16::MAX,
        ensures
            build@.len() == 0 ==> *final(self) == *old(self),
            final(self)@ == if build@.len() == 0 {
                old(self)@
            } else {
                inserted(old(self)@, build@, count as int)
            },
            tree_wf(old(self)@) ==> tree_wf(final(self)@),
            final(self).root.total == if build@.len() == 0 {
                old(self).root.total as int
            } else {
                old(self).root.total + count
            },
    {
        if build.is_empty() {
            return ;
        }
        proof {
            lemma_inserted_wf(self@, build@, count as int);
        }
        self.root.walk(build, count);
    }
}

} // verus!
