use build_orders::aligner::{find_longest_match, get_matching_blocks, merge_adjacent_blocks};

fn strings(items: &[&str]) -> Vec<String> {
    items.iter().map(|s| s.to_string()).collect()
}

#[test]
fn blocks_around_one_changed_action() {
    let a = strings(&["A", "B", "C"]);
    let b = strings(&["A", "X", "C"]);
    assert_eq!(get_matching_blocks(&a, &b), vec![(0, 0, 1), (2, 2, 1)]);
}

#[test]
fn no_common_action_gives_no_block() {
    let a = strings(&["A", "B"]);
    let b = strings(&["C", "D", "E"]);
    assert_eq!(get_matching_blocks(&a, &b), vec![]);
}

#[test]
fn equal_builds_give_one_block() {
    let a = strings(&["Hatchery", "SpawningPool", "Overlord", "Queen"]);
    assert_eq!(get_matching_blocks(&a, &a), vec![(0, 0, 4)]);
}

#[test]
fn empty_builds_give_no_block() {
    let a: Vec<String> = vec![];
    let b = strings(&["A"]);
    assert_eq!(get_matching_blocks(&a, &a), vec![]);
    assert_eq!(get_matching_blocks(&a, &b), vec![]);
    assert_eq!(get_matching_blocks(&b, &a), vec![]);
}

#[test]
fn longest_match_prefers_the_earliest_start() {
    let a = strings(&["x", "y", "x", "y"]);
    let b = strings(&["y", "x", "y", "x"]);
    // "x y x" and "y x y" are both three long; the one that starts first in `a` wins
    assert_eq!(find_longest_match(&a, &b, 0, 4, 0, 4), (0, 1, 3));
    assert_eq!(find_longest_match(&b, &a, 0, 4, 0, 4), (0, 1, 3));
}

#[test]
fn longest_match_stays_inside_its_ranges() {
    let a = strings(&["a", "b", "c", "d", "e"]);
    let b = strings(&["b", "c", "d", "e", "a"]);
    assert_eq!(find_longest_match(&a, &b, 0, 5, 0, 5), (1, 0, 4));
    assert_eq!(find_longest_match(&a, &b, 0, 3, 0, 5), (1, 0, 2));
    assert_eq!(find_longest_match(&a, &b, 0, 5, 2, 5), (3, 2, 2));
    assert_eq!(find_longest_match(&a, &b, 0, 1, 0, 4), (0, 0, 0));
    assert_eq!(find_longest_match(&a, &b, 2, 2, 1, 4), (2, 1, 0));
    assert_eq!(find_longest_match(&a, &b, 3, 2, 1, 4), (3, 1, 0));
}

#[test]
fn blocks_are_sorted_and_apart() {
    let a = strings(&["q", "a", "b", "x", "c", "d", "y", "e"]);
    let b = strings(&["a", "b", "z", "z", "c", "d", "e", "q"]);
    let blocks = get_matching_blocks(&a, &b);
    assert_eq!(blocks, vec![(1, 0, 2), (4, 4, 2), (7, 6, 1)]);
    for pair in blocks.windows(2) {
        assert!(pair[0].0 + pair[0].2 <= pair[1].0);
        assert!(pair[0].1 + pair[0].2 <= pair[1].1);
        assert!(pair[0].0 + pair[0].2 != pair[1].0 || pair[0].1 + pair[0].2 != pair[1].1);
    }
}

#[test]
fn adjacent_blocks_are_merged() {
    let blocks = vec![(0, 0, 2), (2, 2, 1), (4, 5, 1), (5, 6, 2), (9, 9, 1)];
    assert_eq!(merge_adjacent_blocks(&blocks), vec![(0, 0, 3), (4, 5, 3), (9, 9, 1)]);
    let none: Vec<(usize, usize, usize)> = vec![];
    assert_eq!(merge_adjacent_blocks(&none), vec![]);
    // a block that is adjacent in one build only stays apart
    assert_eq!(merge_adjacent_blocks(&vec![(1, 0, 2), (3, 5, 1)]), vec![(1, 0, 2), (3, 5, 1)]);
}
