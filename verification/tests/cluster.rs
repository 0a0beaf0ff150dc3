use build_orders::cluster::{sort_by_total, ClusterTree, ClusterTreeNode, Node, RadixTree};

fn shape(node: &Node) -> String {
    let kids: Vec<String> = node.children.iter().map(shape).collect();
    format!("{}[{}/{}]({})", node.label, node.value, node.total, kids.join(" "))
}

fn well_formed(node: &Node) -> bool {
    let sum: u32 = node.children.iter().map(|c| c.total as u32).sum();
    node.total as u32 == node.value as u32 + sum
        && node.children.windows(2).all(|w| w[0].total >= w[1].total)
        && node.children.iter().all(well_formed)
}

#[test]
fn new_node_is_a_leaf() {
    let node = Node::new("a,b".to_string(), 7);
    assert_eq!(node.label, "a,b");
    assert_eq!(node.value, 7);
    assert_eq!(node.total, 7);
    assert!(node.children.is_empty());
}

#[test]
fn match_key_counts_shared_leading_actions() {
    let node = Node::new("a,b,c".to_string(), 1);
    assert_eq!(node.match_key("a,b,c"), 3);
    assert_eq!(node.match_key("a,b,c,d"), 3);
    assert_eq!(node.match_key("a,b"), 2);
    assert_eq!(node.match_key("a,x,c"), 1);
    assert_eq!(node.match_key("x,b,c"), 0);
    assert_eq!(node.match_key("ab,c"), 0);
    assert_eq!(node.match_key(""), 0);
    // an empty label is one empty action
    assert_eq!(Node::new(String::new(), 1).match_key(""), 1);
    assert_eq!(Node::new(String::new(), 1).match_key(",a"), 1);
}

#[test]
fn split_at_moves_the_rest_into_a_child() {
    let mut node = Node::new("a,b,c".to_string(), 5);
    node.split_at(1);
    assert_eq!(shape(&node), "a[0/5](b,c[5/5]())");
    let mut whole = Node::new("a,b".to_string(), 3);
    whole.split_at(2);
    assert_eq!(shape(&whole), "a,b[0/3]([3/3]())");
    let mut none = Node::new("a,b".to_string(), 3);
    none.split_at(0);
    assert_eq!(shape(&none), "[0/3](a,b[3/3]())");
}

#[test]
fn split_at_keeps_the_children_below_the_rest() {
    let mut tree = RadixTree::new();
    tree.insert("a,b,c", 2);
    tree.insert("a,b,d", 1);
    assert_eq!(shape(&tree.root), "ROOT[0/3](a,b[0/3](c[2/2]() d[1/1]()))");
    tree.root.children[0].split_at(1);
    assert_eq!(shape(&tree.root), "ROOT[0/3](a[0/3](b[0/3](c[2/2]() d[1/1]())))");
    assert!(well_formed(&tree.root));
}

#[test]
fn two_builds_with_a_shared_prefix_share_one_edge() {
    let mut tree = RadixTree::new();
    tree.insert("Hatchery,SpawningPool,Overlord", 3);
    tree.insert("Hatchery,SpawningPool,Queen", 4);
    assert_eq!(
        shape(&tree.root),
        "ROOT[0/7](Hatchery,SpawningPool[0/7](Queen[4/4]() Overlord[3/3]()))"
    );
    assert!(well_formed(&tree.root));
}

#[test]
fn root_total_is_the_sum_of_the_weights() {
    let mut tree = RadixTree::new();
    let builds = [("a,b,c", 5u16), ("a,b", 2), ("a,b,c,d", 7), ("x", 1), ("a,q", 3), ("x,y", 4), ("a,b,c", 6)];
    let mut sum = 0;
    for (build, weight) in builds {
        tree.insert(build, weight);
        sum += weight;
        assert_eq!(tree.root.total, sum);
        assert!(well_formed(&tree.root));
    }
    tree.insert("", 9);
    assert_eq!(tree.root.total, sum);
}

#[test]
fn a_build_that_ends_inside_a_label_sets_the_weight_there() {
    let mut tree = RadixTree::new();
    tree.insert("a,b,c", 5);
    tree.insert("a,b", 2);
    assert_eq!(shape(&tree.root), "ROOT[0/7](a,b[2/7](c[5/5]()))");
}

#[test]
fn a_build_that_is_there_already_gets_an_empty_leaf() {
    let mut tree = RadixTree::new();
    tree.insert("a,b", 5);
    tree.insert("a,b", 2);
    assert_eq!(shape(&tree.root), "ROOT[0/7](a,b[5/7]([2/2]()))");
    tree.insert("a,b", 1);
    assert_eq!(shape(&tree.root), "ROOT[0/8](a,b[5/8]([2/3]([1/1]())))");
}

#[test]
fn a_longer_build_goes_below_the_node_it_holds() {
    let mut tree = RadixTree::new();
    tree.insert("a", 1);
    tree.insert("a,b", 2);
    tree.insert("a,b,c", 4);
    assert_eq!(shape(&tree.root), "ROOT[0/7](a[1/7](b[2/6](c[4/4]())))");
    tree.insert("a,x", 9);
    assert_eq!(shape(&tree.root), "ROOT[0/16](a[1/16](x[9/9]() b[2/6](c[4/4]())))");
}

#[test]
fn children_stand_by_descending_total() {
    let mut tree = RadixTree::new();
    tree.insert("a", 1);
    tree.insert("b", 1);
    tree.insert("c", 1);
    assert_eq!(shape(&tree.root), "ROOT[0/3](a[1/1]() b[1/1]() c[1/1]())");
    tree.insert("c,x", 1);
    assert_eq!(shape(&tree.root), "ROOT[0/4](c[1/2](x[1/1]()) a[1/1]() b[1/1]())");
    tree.insert("b,y", 5);
    assert_eq!(
        shape(&tree.root),
        "ROOT[0/9](b[1/6](y[5/5]()) c[1/2](x[1/1]()) a[1/1]())"
    );
}

#[test]
fn sort_keeps_the_order_of_equal_totals() {
    let mut nodes = vec![
        Node::new("a".to_string(), 2),
        Node::new("b".to_string(), 5),
        Node::new("c".to_string(), 2),
        Node::new("d".to_string(), 9),
        Node::new("e".to_string(), 5),
    ];
    sort_by_total(&mut nodes);
    let labels: Vec<&str> = nodes.iter().map(|n| n.label.as_str()).collect();
    assert_eq!(labels, vec!["d", "b", "e", "a", "c"]);
}

#[test]
fn from_holds_one_build() {
    let tree = RadixTree::from("a,b", 4);
    assert_eq!(shape(&tree.root), "ROOT[0/4](a,b[4/4]())");
    let empty = RadixTree::from("", 4);
    assert_eq!(shape(&empty.root), "ROOT[0/0]()");
    assert_eq!(shape(&RadixTree::new().root), "ROOT[0/0]()");
}

#[test]
fn every_path_spells_the_front_of_a_build() {
    fn paths(node: &Node, prefix: &str, out: &mut Vec<String>) {
        for child in &node.children {
            let path = if prefix.is_empty() || child.label.is_empty() {
                format!("{}{}", prefix, child.label)
            } else {
                format!("{},{}", prefix, child.label)
            };
            out.push(path.clone());
            paths(child, &path, out);
        }
    }
    let builds = ["a,b,c", "a,b", "a,b,c,d", "x", "a,q", "x,y", "a,b,c"];
    let mut tree = RadixTree::new();
    for build in builds {
        tree.insert(build, 1);
    }
    let mut found = vec![];
    paths(&tree.root, "", &mut found);
    assert!(!found.is_empty());
    for path in found {
        assert!(builds.iter().any(|b| *b == path || b.starts_with(&format!("{},", path))), "{}", path);
    }
}

#[test]
fn cluster_trees_hold_their_terms() {
    let leaf = ClusterTreeNode { label: "Gateway".to_string(), matchup: "PvT".to_string(), children: vec![] };
    let tree = ClusterTree {
        terms: vec![ClusterTreeNode {
            label: "Pylon".to_string(),
            matchup: "PvT".to_string(),
            children: vec![leaf],
        }],
    };
    assert_eq!(tree.terms.len(), 1);
    assert_eq!(tree.terms[0].children[0].label, "Gateway");
    assert_eq!(tree.terms[0].matchup, "PvT");
}

#[test]
fn the_empty_build_leaves_a_full_tree_as_it_is() {
    let mut tree = RadixTree::new();
    tree.insert("a,b", u16::MAX);
    assert_eq!(tree.root.total, u16::MAX);
    let before = shape(&tree.root);
    tree.insert("", 1);
    tree.insert("", u16::MAX);
    assert_eq!(shape(&tree.root), before);
}
