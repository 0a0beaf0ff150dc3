use build_orders::text::{copy_texts, join, split, text_less};

fn strings(items: &[&str]) -> Vec<String> {
    items.iter().map(|s| s.to_string()).collect()
}

#[test]
fn split_cuts_at_every_separator() {
    assert_eq!(split("a,b,c", ','), strings(&["a", "b", "c"]));
    assert_eq!(split("Hatchery,SpawningPool", ','), strings(&["Hatchery", "SpawningPool"]));
    assert_eq!(split("abc", ','), strings(&["abc"]));
    assert_eq!(split("", ','), strings(&[""]));
    assert_eq!(split(",", ','), strings(&["", ""]));
    assert_eq!(split("a,,b,", ','), strings(&["a", "", "b", ""]));
    assert_eq!(split("a:b,c", ':'), strings(&["a", "b,c"]));
    assert_eq!(split("né,ü", ','), strings(&["né", "ü"]));
}

#[test]
fn join_puts_the_separator_between_neighbours() {
    let parts = strings(&["a", "b", "c", "d"]);
    assert_eq!(join(&parts, 0, 4, ","), "a,b,c,d");
    assert_eq!(join(&parts, 1, 3, ","), "b,c");
    assert_eq!(join(&parts, 2, 3, ","), "c");
    assert_eq!(join(&parts, 2, 2, ","), "");
    assert_eq!(join(&parts, 0, 4, "__"), "a__b__c__d");
    assert_eq!(join(&strings(&["", ""]), 0, 2, ","), ",");
}

#[test]
fn split_and_join_undo_each_other() {
    for text in ["", "a", "a,b", ",a,,b,", "Nexus,Pylon,Gateway"] {
        let parts = split(text, ',');
        assert_eq!(join(&parts, 0, parts.len(), ","), text);
    }
    let parts = strings(&["x", "", "yz"]);
    assert_eq!(split(&join(&parts, 0, 3, ","), ','), parts);
}

#[test]
fn text_less_orders_as_strings_do() {
    let texts = ["", "a", "ab", "b", "P__a,b", "P__a,x", "P__a", "Z", "é", "z", "aé", "a\u{10000}", "a\u{ffff}"];
    for a in texts {
        for b in texts {
            assert_eq!(text_less(a, b), a < b, "{:?} {:?}", a, b);
        }
    }
}

#[test]
fn copy_texts_copies() {
    let parts = strings(&["a", "", "bc"]);
    assert_eq!(copy_texts(&parts), parts);
    assert_eq!(copy_texts(&vec![]), Vec::<String>::new());
}
