use build_orders::builds::Builds;
use build_orders::error::FatalError;
use build_orders::tokens::{is_fit_action, is_fit_build, Token};

fn strings(items: &[&str]) -> Vec<String> {
    items.iter().map(|s| s.to_string()).collect()
}

fn count(builds: &Builds, key: &str) -> u32 {
    builds.tokens.iter().filter(|e| e.token.key() == key).map(|e| e.count).sum()
}

fn probability(builds: &Builds, key: &str) -> Option<(u32, u32)> {
    builds.probability.iter().find(|e| e.token.key() == key).map(|e| (e.count, e.total))
}

#[test]
fn window_tokens_follow_the_window_rule() {
    let build = strings(&["a", "b", "c", "d", "e"]);
    assert_eq!(Token::of_window("P", &build, 0, 1).key(), "P__a__NONE");
    assert_eq!(Token::of_window("P", &build, 0, 2).key(), "P__a__b");
    assert_eq!(Token::of_window("P", &build, 1, 3).key(), "P__b,c__d");
    assert_eq!(Token::of_window("P", &build, 1, 4).key(), "P__b,c,d__e");
    let whole = strings(&["a", "b", "c"]);
    assert_eq!(Token::of_window("P", &whole, 0, 3).key(), "P__a,b,c__NONE");
    assert_eq!(Token::of_window("P", &whole, 0, 2).key(), "P__a__b");
    assert!(Token::of_window("P", &whole, 0, 3).is_terminal());
    assert!(!Token::of_window("P", &whole, 1, 2).is_terminal());
}

#[test]
fn learning_counts_every_window() {
    let mut builds = Builds::new();
    builds.generate_tokens(&strings(&["a", "b", "c", "d", "e"]), "P".to_string());
    // 5 + 4 + 3 + 2 windows
    assert_eq!(builds.windows_seen, 14);
    assert_eq!(builds.tokens.len(), 14);
    assert_eq!(count(&builds, "P__a__NONE"), 1);
    assert_eq!(count(&builds, "P__a,b,c__d"), 1);
    assert_eq!(count(&builds, "P__b,c,d__e"), 1);
    assert_eq!(count(&builds, "P__a,b,c,d__e"), 0);
    assert_eq!(count(&builds, "Q__a__NONE"), 0);
}

#[test]
fn learning_twice_doubles_the_counts() {
    let build = strings(&["a", "b", "a", "b"]);
    let mut once = Builds::new();
    once.generate_tokens(&build, "P".to_string());
    let mut twice = Builds::new();
    twice.generate_tokens(&strings(&["z"]), "P".to_string());
    twice.generate_tokens(&build, "P".to_string());
    twice.generate_tokens(&build, "P".to_string());
    assert_eq!(count(&once, "P__a__NONE"), 2);
    assert_eq!(count(&once, "P__a__b"), 2);
    assert_eq!(count(&once, "P__a,b,a,b__NONE"), 1);
    for entry in &once.tokens {
        assert_eq!(count(&twice, &entry.token.key()), 2 * entry.count);
    }
    assert_eq!(count(&twice, "P__z__NONE"), 1);
    assert_eq!(twice.windows_seen, 1 + 2 * once.windows_seen);
}

#[test]
fn probabilities_need_ten_occurrences() {
    let mut builds = Builds::new();
    for _ in 0..9 {
        builds.generate_tokens(&strings(&["a"]), "P".to_string());
    }
    builds.generate_token_distributions();
    assert!(builds.probability.is_empty());
    builds.generate_tokens(&strings(&["a"]), "P".to_string());
    builds.generate_token_distributions();
    assert_eq!(probability(&builds, "P__a__NONE"), Some((10, 10)));
    assert_eq!(builds.probability.len(), 1);
}

#[test]
fn probabilities_of_a_context_sum_to_one() {
    let mut builds = Builds::new();
    for _ in 0..7 {
        builds.generate_tokens(&strings(&["a", "b", "c", "d"]), "P".to_string());
    }
    for _ in 0..5 {
        builds.generate_tokens(&strings(&["a", "b", "x", "d"]), "P".to_string());
    }
    builds.generate_tokens(&strings(&["a", "b", "c", "d"]), "Q".to_string());
    builds.generate_token_distributions();
    assert_eq!(probability(&builds, "P__a,b__c"), Some((7, 12)));
    assert_eq!(probability(&builds, "P__a,b__x"), Some((5, 12)));
    assert_eq!(probability(&builds, "Q__a,b__c"), None);
    // every token keyed by the terminator shares one total per population
    assert_eq!(probability(&builds, "P__a__NONE"), Some((12, 60)));
    assert_eq!(probability(&builds, "P__a,b,c,d__NONE"), Some((7, 60)));
    let mut sums: Vec<(String, String, u32, u32)> = vec![];
    for p in &builds.probability {
        let group = if p.token.is_terminal() { "NONE".to_string() } else { p.token.context.clone() };
        match sums.iter_mut().find(|s| s.0 == p.token.population && s.1 == group) {
            Some(s) => {
                assert_eq!(s.3, p.total);
                s.2 += p.count;
            }
            None => sums.push((p.token.population.clone(), group, p.count, p.total)),
        }
    }
    assert!(!sums.is_empty());
    for s in sums {
        assert_eq!(s.2, s.3);
        assert!(s.3 >= 10);
    }
}

#[test]
fn end_to_end_two_openings() {
    let population = "Zerg-Zerg,Terran";
    let overlord = strings(&["Hatchery", "SpawningPool", "Overlord"]);
    let queen = strings(&["Hatchery", "SpawningPool", "Queen"]);
    let mut builds = Builds::new();
    for _ in 0..10 {
        builds.generate_tokens(&overlord, population.to_string());
        builds.generate_tokens(&queen, population.to_string());
    }
    builds.generate_token_distributions();
    // a window that is the whole build is keyed by the terminator, so it is the context
    // "SpawningPool" that has the two next actions
    assert_eq!(probability(&builds, "Zerg-Zerg,Terran__SpawningPool__Overlord"), Some((10, 20)));
    assert_eq!(probability(&builds, "Zerg-Zerg,Terran__SpawningPool__Queen"), Some((10, 20)));
    assert_eq!(probability(&builds, "Zerg-Zerg,Terran__Hatchery,SpawningPool__Overlord"), None);
    assert_eq!(
        probability(&builds, "Zerg-Zerg,Terran__Hatchery,SpawningPool,Overlord__NONE"),
        Some((10, 80))
    );
    assert_eq!(builds.generate_token_paths(&overlord, population.to_string()), Ok(()));
    assert_eq!(builds.token_paths.len(), 1);
    assert!(builds.skipped_builds.is_empty());
    let path = &builds.token_paths[0];
    assert_eq!(path.actions, overlord);
    assert_eq!(path.windows.iter().sum::<usize>(), 3);
    assert!(path.numerators.iter().all(|n| *n > 0));
    assert!(path.denominators.iter().all(|d| *d > 0));
}

#[test]
fn unknown_builds_are_skipped() {
    let mut builds = Builds::new();
    for _ in 0..10 {
        builds.generate_tokens(&strings(&["a", "b"]), "P".to_string());
    }
    builds.generate_token_distributions();
    assert_eq!(builds.generate_token_paths(&strings(&["a", "q", "b"]), "P".to_string()), Ok(()));
    assert_eq!(builds.generate_token_paths(&strings(&["a", "b"]), "Q".to_string()), Ok(()));
    assert!(builds.token_paths.is_empty());
    assert_eq!(builds.skipped_builds, vec!["a,q,b".to_string(), "a,b".to_string()]);
}

#[test]
fn a_window_without_its_fragments_is_fatal() {
    let mut builds = Builds::new();
    for _ in 0..10 {
        builds.generate_tokens(&strings(&["a", "b", "c"]), "P".to_string());
    }
    builds.generate_token_distributions();
    // drop the probability of "a" alone: the window "a b" still has one
    builds.probability.retain(|p| p.token.key() != "P__a__NONE");
    assert_eq!(
        builds.generate_token_paths(&strings(&["a", "b", "c", "a"]), "P".to_string()),
        Err(FatalError::MissingFragmentProbability)
    );
    assert!(builds.token_paths.is_empty());
    assert!(builds.skipped_builds.is_empty());
}

#[test]
fn compound_probabilities_are_kept_and_dropped_with_the_table() {
    let build = strings(&["a", "b", "c", "d", "e"]);
    let mut builds = Builds::new();
    for _ in 0..10 {
        builds.generate_tokens(&build, "P".to_string());
    }
    builds.generate_token_distributions();
    assert_eq!(builds.cached_token_probability.len(), 0);
    assert_eq!(builds.generate_token_paths(&build, "P".to_string()), Ok(()));
    let kept = builds.cached_token_probability.len();
    assert!(kept > 0);
    // the same build once more is worked out from what is kept
    assert_eq!(builds.generate_token_paths(&build, "P".to_string()), Ok(()));
    assert_eq!(builds.cached_token_probability.len(), kept);
    assert_eq!(builds.token_paths[0], builds.token_paths[1]);
    builds.generate_token_distributions();
    assert_eq!(builds.cached_token_probability.len(), 0);
}

#[test]
fn actions_with_separators_do_not_fit() {
    for action in ["Hatchery", "a", "a_b", "a-b", "_", "-", "a_-_b", "NONE1", "none", "é"] {
        assert!(is_fit_action(action), "{}", action);
    }
    for action in ["", "a,b", ",", "a:b", "a__b", "__", "a--b", "x--", "__y", "a_b__c", "NONE"] {
        assert!(!is_fit_action(action), "{}", action);
    }
    assert!(is_fit_build(&strings(&["Hatchery", "SpawningPool"])));
    assert!(is_fit_build(&strings(&[])));
    assert!(!is_fit_build(&strings(&["Hatchery", "Spawning,Pool"])));
    assert!(!is_fit_build(&strings(&["Hatchery", ""])));
}

#[test]
fn a_context_that_reads_like_the_terminator_has_its_own_total() {
    let mut builds = Builds::new();
    // "NONE" as an action is not fit, but where it is counted it makes its own group
    for _ in 0..4 {
        builds.generate_tokens(&strings(&["NONE", "b", "c"]), "P".to_string());
        builds.generate_tokens(&strings(&["NONE", "x", "c"]), "P".to_string());
        builds.generate_tokens(&strings(&["NONE", "y", "c"]), "P".to_string());
    }
    builds.generate_token_distributions();
    assert_eq!(probability(&builds, "P__NONE__b"), Some((4, 12)));
    assert_eq!(probability(&builds, "P__NONE__x"), Some((4, 12)));
    assert_eq!(probability(&builds, "P__NONE__y"), Some((4, 12)));
    assert_eq!(probability(&builds, "P__c__NONE"), Some((12, 48)));
}

#[test]
fn no_token_has_two_probabilities() {
    let mut builds = Builds::new();
    for _ in 0..10 {
        builds.generate_tokens(&strings(&["a", "b", "a", "b", "a"]), "P".to_string());
    }
    builds.generate_token_distributions();
    let mut keys: Vec<String> = builds.probability.iter().map(|p| p.token.key()).collect();
    let all = keys.len();
    keys.sort();
    keys.dedup();
    assert_eq!(keys.len(), all);
    assert!(all > 0);
}
