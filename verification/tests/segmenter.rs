use build_orders::builds::Builds;
use build_orders::model::TokenProbability;
use build_orders::segmenter::{best_path, factors_of_window, lookup_probability, CompoundCache, SegmentedPath};
use build_orders::tokens::Token;

fn strings(items: &[&str]) -> Vec<String> {
    items.iter().map(|s| s.to_string()).collect()
}

fn entry(context: &str, next: &str, count: u32, total: u32) -> TokenProbability {
    TokenProbability {
        token: Token { population: "P".to_string(), context: context.to_string(), next: next.to_string() },
        count,
        total,
    }
}

fn table(pair: u32) -> Vec<TokenProbability> {
    vec![
        entry("a", "NONE", 5, 10),
        entry("b", "NONE", 2, 10),
        entry("c", "NONE", 3, 10),
        entry("a", "b", pair, 10),
    ]
}

#[test]
fn lookup_finds_the_first_entry_of_a_token() {
    let mut t = table(9);
    t.push(entry("a", "b", 1, 10));
    let token = Token { population: "P".to_string(), context: "a".to_string(), next: "b".to_string() };
    assert_eq!(lookup_probability(&t, &token), Some((9, 10)));
    let other = Token { population: "Q".to_string(), context: "a".to_string(), next: "b".to_string() };
    assert_eq!(lookup_probability(&t, &other), None);
}

#[test]
fn a_window_has_the_factors_of_all_its_fronts() {
    let t = table(9);
    let build = strings(&["a", "b", "c"]);
    let mut cache = CompoundCache::new();
    let population = "P".to_string();
    assert_eq!(factors_of_window(&t, &mut cache, &population, &build, 0, 2), Some((vec![9, 5], vec![10, 10])));
    assert_eq!(factors_of_window(&t, &mut cache, &population, &build, 2, 1), Some((vec![3], vec![10])));
    // no probability for "b c", none for the whole build
    assert_eq!(factors_of_window(&t, &mut cache, &population, &build, 1, 2), None);
    assert_eq!(factors_of_window(&t, &mut cache, &population, &build, 0, 3), None);
    assert_eq!(cache.len(), 2);
    // from the cache the same comes back
    assert_eq!(factors_of_window(&t, &mut cache, &population, &build, 0, 2), Some((vec![9, 5], vec![10, 10])));
    assert_eq!(cache.len(), 2);
}

#[test]
fn a_longer_window_uses_what_is_kept_of_its_front() {
    let t = vec![
        entry("a", "NONE", 5, 10),
        entry("a", "b", 9, 10),
        entry("a,b", "c", 7, 10),
    ];
    let build = strings(&["a", "b", "c", "d"]);
    let population = "P".to_string();
    let mut cold = CompoundCache::new();
    let direct = factors_of_window(&t, &mut cold, &population, &build, 0, 3);
    assert_eq!(direct, Some((vec![7, 9, 5], vec![10, 10, 10])));
    let mut warm = CompoundCache::new();
    assert!(factors_of_window(&t, &mut warm, &population, &build, 0, 2).is_some());
    assert_eq!(factors_of_window(&t, &mut warm, &population, &build, 0, 3), direct);
}

#[test]
fn the_most_probable_path_is_chosen() {
    let build = strings(&["a", "b", "c"]);
    let population = "P".to_string();
    // "a b" as one window: 9/10 * 5/10, against 5/10 * 2/10 for "a" and "b" apart
    let found = best_path(&table(9), &mut CompoundCache::new(), &build, &population).unwrap().unwrap();
    assert_eq!(found.windows, vec![2, 1]);
    assert_eq!(found.numerators, vec![9, 5, 3]);
    assert_eq!(found.denominators, vec![10, 10, 10]);
    // 1/10 * 5/10 is less than 5/10 * 2/10
    let apart = best_path(&table(1), &mut CompoundCache::new(), &build, &population).unwrap().unwrap();
    assert_eq!(apart.windows, vec![1, 1, 1]);
    assert_eq!(apart.numerators, vec![5, 2, 3]);
}

#[test]
fn of_equally_probable_paths_the_shorter_last_window_wins() {
    let build = strings(&["a", "b", "c"]);
    let found = best_path(&table(2), &mut CompoundCache::new(), &build, &"P".to_string()).unwrap().unwrap();
    assert_eq!(found.windows, vec![1, 1, 1]);
}

#[test]
fn the_empty_build_has_the_empty_path() {
    let found = best_path(&table(9), &mut CompoundCache::new(), &vec![], &"P".to_string()).unwrap().unwrap();
    assert!(found.windows.is_empty());
    assert!(found.numerators.is_empty());
    let mut builds = Builds::new();
    assert_eq!(builds.generate_token_paths(&vec![], "P".to_string()), Ok(()));
    assert_eq!(builds.token_paths[0].identity(), "P__");
    assert_eq!(builds.token_paths[0].length(), 0);
}

#[test]
fn a_build_without_a_path_has_none() {
    let build = strings(&["a", "z"]);
    assert_eq!(best_path(&table(9), &mut CompoundCache::new(), &build, &"P".to_string()).unwrap(), None);
}

#[test]
fn identity_names_population_and_windows() {
    let path = SegmentedPath {
        population: "Zerg-Zerg,Terran".to_string(),
        actions: strings(&["Hatchery", "SpawningPool", "Overlord", "Queen"]),
        windows: vec![2, 1, 1],
        numerators: vec![1, 1, 1, 1],
        denominators: vec![2, 2, 2, 2],
    };
    assert_eq!(path.identity(), "Zerg-Zerg,Terran__Hatchery,SpawningPool:Overlord:Queen");
    assert_eq!(path.length(), 4);
}

/// every way to cut `len` actions into windows of 1 to 4
fn cuts(len: usize) -> Vec<Vec<usize>> {
    if len == 0 {
        return vec![vec![]];
    }
    let mut all = vec![];
    for last in 1..=4usize.min(len) {
        for mut front in cuts(len - last) {
            front.push(last);
            all.push(front);
        }
    }
    all
}

#[test]
fn no_other_path_is_more_probable_and_the_windows_make_the_build() {
    let mut builds = Builds::new();
    let learned = [
        strings(&["a", "b", "c", "d", "e", "f"]),
        strings(&["a", "b", "c", "x", "e", "f"]),
        strings(&["a", "b", "d", "e", "f", "c"]),
        strings(&["b", "c", "d", "a", "b", "c"]),
    ];
    for (times, build) in learned.iter().enumerate() {
        for _ in 0..(3 * times + 4) {
            builds.generate_tokens(build, "P".to_string());
        }
    }
    builds.generate_token_distributions();
    let population = "P".to_string();
    let build = strings(&["a", "b", "c", "d", "e", "f"]);
    assert_eq!(builds.generate_token_paths(&build, population.clone()), Ok(()));
    let best = builds.token_paths[0].clone();
    assert_eq!(best.windows.iter().sum::<usize>(), build.len());
    assert!(best.windows.iter().all(|w| (1..=4).contains(w)));
    let mut offset = 0;
    let mut spelled = vec![];
    for size in &best.windows {
        spelled.extend_from_slice(&best.actions[offset..offset + size]);
        offset += size;
    }
    assert_eq!(spelled, build);
    let product = |v: &Vec<u32>| v.iter().fold(1f64, |acc, x| acc * *x as f64);
    let best_probability = product(&best.numerators) / product(&best.denominators);
    let mut ways = 0;
    for cut in cuts(build.len()) {
        let mut numerators = vec![];
        let mut denominators = vec![];
        let mut start = 0;
        let mut known = true;
        for size in &cut {
            match factors_of_window(&builds.probability, &mut CompoundCache::new(), &population, &build, start, *size) {
                Some((n, d)) => {
                    numerators.extend(n);
                    denominators.extend(d);
                }
                None => known = false,
            }
            start += size;
        }
        if known {
            ways += 1;
            let probability = product(&numerators) / product(&denominators);
            assert!(probability <= best_probability * (1.0 + 1e-9), "{:?}", cut);
        }
    }
    assert!(ways > 1);
}
