use build_orders::builds::Builds;
use build_orders::comparator::{compare_pair, decay, pair_key, Comparison, ScoreTerm};
use build_orders::error::FatalError;
use build_orders::model::TokenProbability;
use build_orders::segmenter::SegmentedPath;
use build_orders::tokens::Token;

fn strings(items: &[&str]) -> Vec<String> {
    items.iter().map(|s| s.to_string()).collect()
}

fn path(population: &str, actions: &[&str]) -> SegmentedPath {
    SegmentedPath {
        population: population.to_string(),
        actions: strings(actions),
        windows: vec![1; actions.len()],
        numerators: vec![1; actions.len()],
        denominators: vec![2; actions.len()],
    }
}

fn unigram(population: &str, action: &str, count: u32, total: u32) -> TokenProbability {
    TokenProbability {
        token: Token {
            population: population.to_string(),
            context: action.to_string(),
            next: "NONE".to_string(),
        },
        count,
        total,
    }
}

fn term(count: u32, total: u32, repetitions: usize, index: usize) -> ScoreTerm {
    ScoreTerm { count, total, repetitions, index }
}

#[test]
fn builds_of_different_populations_are_not_compared() {
    let table = vec![unigram("P", "a", 10, 20), unigram("Q", "b", 10, 20)];
    assert_eq!(compare_pair(&table, &path("P", &["a"]), &path("Q", &["b"])), Ok(None));
}

#[test]
fn a_build_is_not_compared_with_itself() {
    let table = vec![unigram("P", "a", 10, 20)];
    let p = path("P", &["a", "a"]);
    let mut other = path("P", &["a", "a"]);
    other.windows = vec![2];
    let same = path("P", &["a", "a"]);
    assert_eq!(compare_pair(&table, &p, &p), Ok(None));
    assert_eq!(compare_pair(&table, &p, &same), Ok(None));
    // the same actions cut another way are another text: nothing is missing
    let expected =
        Comparison { first: "P__a,a".to_string(), second: "P__a:a".to_string(), terms: vec![] };
    assert_eq!(compare_pair(&table, &p, &other), Ok(Some(expected.clone())));
    assert_eq!(compare_pair(&table, &other, &p), Ok(Some(expected)));
}

#[test]
fn the_key_joins_the_two_path_identities() {
    let mut p = path("P", &["A", "B"]);
    let q = path("P", &["A", "C"]);
    assert_eq!(pair_key(&p, &q), Some(("P__A:B".to_string(), "P__A:C".to_string(), true)));
    assert_eq!(pair_key(&q, &p), Some(("P__A:B".to_string(), "P__A:C".to_string(), false)));
    let table = vec![unigram("P", "B", 1, 10), unigram("P", "C", 2, 10)];
    let found = compare_pair(&table, &q, &p).unwrap().unwrap();
    assert_eq!(found.key(), "P__A:B--P__A:C");
    assert_eq!(found.terms, vec![term(1, 10, 1, 1), term(2, 10, 1, 1)]);
    // one window of two actions reads "A,B", which comes before "A:C" too
    p.windows = vec![2];
    assert_eq!(compare_pair(&table, &q, &p).unwrap().unwrap().key(), "P__A,B--P__A:C");
    assert_eq!(pair_key(&p, &path("Q", &["A", "C"])), None);
    assert_eq!(pair_key(&p, &p), None);
}

#[test]
fn missing_actions_make_the_terms() {
    let table = vec![unigram("P", "q", 4, 20), unigram("P", "a", 5, 20), unigram("P", "b", 6, 20)];
    let long = path("P", &["q", "a", "q", "b", "q"]);
    let short = path("P", &["a", "b"]);
    let expected = Comparison {
        first: "P__a:b".to_string(),
        second: "P__q:a:q:b:q".to_string(),
        terms: vec![term(4, 20, 3, 0), term(4, 20, 3, 2), term(4, 20, 3, 4)],
    };
    assert_eq!(compare_pair(&table, &long, &short), Ok(Some(expected.clone())));
    assert_eq!(compare_pair(&table, &short, &long), Ok(Some(expected)));
}

#[test]
fn both_builds_add_their_terms() {
    let table = vec![
        unigram("P", "a", 1, 40),
        unigram("P", "b", 2, 40),
        unigram("P", "c", 3, 40),
        unigram("P", "x", 4, 40),
    ];
    let first = path("P", &["a", "b", "c"]);
    let second = path("P", &["a", "x", "c"]);
    let expected = Comparison {
        first: "P__a:b:c".to_string(),
        second: "P__a:x:c".to_string(),
        terms: vec![term(2, 40, 1, 1), term(4, 40, 1, 1)],
    };
    assert_eq!(compare_pair(&table, &second, &first), Ok(Some(expected)));
}

#[test]
fn builds_without_a_common_action_miss_everything() {
    let table = vec![unigram("P", "a", 1, 40), unigram("P", "b", 2, 40)];
    let found = compare_pair(&table, &path("P", &["b", "b"]), &path("P", &["a"])).unwrap().unwrap();
    assert_eq!(found.first, "P__a");
    assert_eq!(found.second, "P__b:b");
    assert_eq!(found.terms, vec![term(1, 40, 1, 0), term(2, 40, 2, 0), term(2, 40, 2, 1)]);
}

#[test]
fn only_the_first_ten_places_are_scored() {
    let table = vec![unigram("P", "a", 1, 40), unigram("P", "b", 2, 40)];
    let long = path("P", &["a"; 12]);
    let other = path("P", &["b"]);
    let found = compare_pair(&table, &long, &other).unwrap().unwrap();
    assert_eq!(found.first, "P__a:a:a:a:a:a:a:a:a:a:a:a");
    assert_eq!(found.terms.len(), 11);
    for (index, t) in found.terms.iter().take(10).enumerate() {
        assert_eq!(*t, term(1, 40, 12, index));
    }
    assert_eq!(found.terms[10], term(2, 40, 1, 0));
}

#[test]
fn an_action_beyond_the_tenth_place_needs_no_probability() {
    let table = vec![unigram("P", "a", 1, 40), unigram("P", "b", 2, 40)];
    let mut actions = vec!["a"; 10];
    actions.push("z");
    let found = compare_pair(&table, &path("P", &actions), &path("P", &["b"])).unwrap().unwrap();
    assert_eq!(found.terms.len(), 11);
}

#[test]
fn an_action_without_probability_is_fatal() {
    let table = vec![unigram("P", "a", 1, 40)];
    assert_eq!(
        compare_pair(&table, &path("P", &["a", "z"]), &path("P", &["a"])),
        Err(FatalError::MissingActionProbability)
    );
    // the common action needs none
    let only_z = vec![unigram("P", "z", 1, 40)];
    assert!(compare_pair(&only_z, &path("P", &["a", "z"]), &path("P", &["a"])).is_ok());
}

#[test]
fn compare_builds_scores_each_pair_once() {
    let mut builds = Builds::new();
    let abc = strings(&["a", "b", "c"]);
    let axc = strings(&["a", "x", "c"]);
    for _ in 0..10 {
        builds.generate_tokens(&abc, "P".to_string());
        builds.generate_tokens(&axc, "P".to_string());
        builds.generate_tokens(&abc, "Q".to_string());
    }
    builds.generate_token_distributions();
    for build in [&abc, &axc, &abc, &axc] {
        assert_eq!(builds.generate_token_paths(build, "P".to_string()), Ok(()));
    }
    assert_eq!(builds.generate_token_paths(&abc, "Q".to_string()), Ok(()));
    assert_eq!(builds.token_paths.len(), 5);
    assert_eq!(builds.compare_builds(), Ok(()));
    assert_eq!(builds.token_paths[0].identity(), "P__a,b:c");
    assert_eq!(builds.token_paths[1].identity(), "P__a,x:c");
    assert_eq!(
        builds.build_comparison_information,
        vec![Comparison {
            first: "P__a,b:c".to_string(),
            second: "P__a,x:c".to_string(),
            terms: vec![term(10, 80, 1, 1), term(10, 80, 1, 1)],
        }]
    );
    assert_eq!(builds.build_comparison_information[0].key(), "P__a,b:c--P__a,x:c");
    // what is known is not scored again
    assert_eq!(builds.compare_builds(), Ok(()));
    assert_eq!(builds.build_comparison_information.len(), 1);
    for c in &builds.build_comparison_information {
        assert!(c.first < c.second);
    }
}

#[test]
fn compare_builds_reports_a_missing_probability() {
    let mut builds = Builds::new();
    builds.token_paths.push(path("P", &["a", "z"]));
    builds.token_paths.push(path("P", &["a"]));
    builds.probability.push(unigram("P", "a", 10, 20));
    assert_eq!(builds.compare_builds(), Err(FatalError::MissingActionProbability));
    assert!(builds.build_comparison_information.is_empty());
}

#[test]
fn the_weight_falls_from_the_sixth_place_on() {
    for index in 0..=5 {
        assert_eq!(decay(index), (5, 5));
    }
    assert_eq!(decay(6), (4, 5));
    assert_eq!(decay(7), (3, 5));
    assert_eq!(decay(8), (2, 5));
    assert_eq!(decay(9), (1, 5));
    assert_eq!(decay(10), (0, 5));
    assert_eq!(decay(usize::MAX), (0, 5));
}
