use build_orders::search::{Index, IndexEntry, Search, SearchResult};

fn strings(items: &[&str]) -> Vec<String> {
    items.iter().map(|s| s.to_string()).collect()
}

fn index(name: &str, entries: &[(&str, &[&str])]) -> Index {
    Index {
        name: name.to_string(),
        hash_entries: entries
            .iter()
            .map(|(term, references)| IndexEntry { term: term.to_string(), references: strings(references) })
            .collect(),
    }
}

fn result(key: &str, references: &[&str]) -> SearchResult {
    SearchResult { key: key.to_string(), references: strings(references) }
}

#[test]
fn a_new_search_has_found_nothing() {
    assert!(Search::new().results.is_empty());
}

#[test]
fn search_keeps_what_each_index_refers_to() {
    let players = index("players", &[("serral", &["r1", "r2"]), ("maru", &["r3"])]);
    let maps = index("maps", &[("serral", &["m1"])]);
    let empty = index("empty", &[]);
    let mut search = Search::new();
    search.search("serral".to_string(), &vec![&players, &empty, &maps]);
    assert_eq!(
        search.results,
        vec![result("players__serral", &["r1", "r2"]), result("maps__serral", &["m1"])]
    );
    search.search("maru".to_string(), &vec![&players, &maps]);
    assert_eq!(search.results.len(), 3);
    assert_eq!(search.results[2], result("players__maru", &["r3"]));
    search.search("nobody".to_string(), &vec![&players, &maps]);
    assert_eq!(search.results.len(), 3);
}

#[test]
fn a_reference_is_kept_once() {
    let first = index("players", &[("serral", &["r1", "r2", "r1"])]);
    let second = index("players", &[("serral", &["r2", "r3"])]);
    let mut search = Search::new();
    search.search("serral".to_string(), &vec![&first, &second, &first]);
    assert_eq!(search.results, vec![result("players__serral", &["r1", "r2", "r3"])]);
}

#[test]
fn of_two_entries_of_a_term_the_first_counts() {
    let both = index("players", &[("serral", &["r1"]), ("serral", &["r9"])]);
    let mut search = Search::new();
    search.search("serral".to_string(), &vec![&both]);
    assert_eq!(search.results, vec![result("players__serral", &["r1"])]);
}
