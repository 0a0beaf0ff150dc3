use build_orders::population::{population_key, sorted_texts};

fn strings(items: &[&str]) -> Vec<String> {
    items.iter().map(|s| s.to_string()).collect()
}

#[test]
fn the_key_names_the_race_and_the_sorted_match() {
    assert_eq!(population_key("Zerg", &strings(&["Zerg", "Terran"])), "Zerg-Terran,Zerg");
    assert_eq!(population_key("Terran", &strings(&["Zerg", "Terran"])), "Terran-Terran,Zerg");
    assert_eq!(population_key("Protoss", &strings(&["Protoss", "Protoss"])), "Protoss-Protoss,Protoss");
    assert_eq!(population_key("Zerg", &strings(&[])), "Zerg-");
}

#[test]
fn texts_are_sorted_as_strings_are() {
    let cases = [
        strings(&[]),
        strings(&["b"]),
        strings(&["b", "a"]),
        strings(&["Zerg", "Terran", "Protoss", "Terran", "Random", "", "Z", "zerg", "é", "a\u{10000}", "a\u{ffff}"]),
    ];
    for case in cases {
        let mut expected = case.clone();
        expected.sort();
        assert_eq!(sorted_texts(&case), expected);
    }
}
