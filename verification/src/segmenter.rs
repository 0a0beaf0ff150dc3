//! The most probable way to cut a build into windows that the model knows.

use vstd::prelude::*;
use crate::bignat::{product, product_at_most};
use crate::error::FatalError;
use crate::model::{probabilities_fit, table_of, table_wf, TokenProbability};
use crate::text::{join, join_spec, texts};
use crate::tokens::{
    building_separator, section_separator, token_separator, window_token, Token, TokenId,
    MAX_TOKEN_SIZE,
};

verus! {

/// A build cut into windows, as mathematical values. The probability of the
/// path is the product of `numerators` over the product of `denominators`.
pub struct PathId {
    pub population: Seq<char>,
    pub actions: Seq<Seq<char>>,
    pub windows: Seq<int>,
    pub numerators: Seq<u32>,
    pub denominators: Seq<u32>,
}

/// A build cut into the windows that make it most probable.
#[derive(Debug, Clone, PartialEq, Eq)]
pub struct SegmentedPath {
    pub population: String,
    pub actions: Vec<String>,
    /// the sizes of the chosen windows, in order
    pub windows: Vec<usize>,
    pub numerators: Vec<u32>,
    pub denominators: Vec<u32>,
}

/// Sizes as mathematical integers.
pub open spec fn sizes_of(v: Seq<usize>) -> Seq<int> {
    Seq::new(v.len(), |i: int| v[i] as int)
}

impl View for SegmentedPath {
    type V = PathId;

    open spec fn view(&self) -> PathId {
        PathId {
            population: self.population@,
            actions: texts(self.actions@),
            windows: sizes_of(self.windows@),
            numerators: self.numerators@,
            denominators: self.denominators@,
        }
    }
}

/// The paths that a vector holds.
pub open spec fn paths_of(v: Seq<SegmentedPath>) -> Seq<PathId> {
    Seq::new(v.len(), |i: int| v[i]@)
}

/// The sum of the sizes.
pub open spec fn covered(sizes: Seq<int>) -> int
    decreases sizes.len(),
{
    if sizes.len() == 0 {
        0
    } else {
        covered(sizes.drop_last()) + sizes.last()
    }
}

/// Every window holds 1 to `MAX_TOKEN_SIZE` actions.
pub open spec fn sizes_allowed(sizes: Seq<int>) -> bool {
    forall|i: int| 0 <= i < sizes.len() ==> 1 <= #[trigger] sizes[i] <= MAX_TOKEN_SIZE
}

/// The windows cover the actions, and every factor of the probability is a
/// positive count.
pub open spec fn path_wf(p: PathId) -> bool {
    &&& sizes_allowed(p.windows)
    &&& covered(p.windows) == p.actions.len()
    &&& forall|i: int| 0 <= i < p.numerators.len() ==> #[trigger] p.numerators[i] > 0
    &&& forall|i: int| 0 <= i < p.denominators.len() ==> #[trigger] p.denominators[i] > 0
}

/// The probability of `t` as count and total, from the first entry of the
/// table that holds `t`.
pub open spec fn lookup(table: Seq<TokenProbability>, t: TokenId) -> Option<(u32, u32)>
    decreases table.len(),
{
    if table.len() == 0 {
        None
    } else if table[0].token@ == t {
        Some((table[0].count, table[0].total))
    } else {
        lookup(table.drop_first(), t)
    }
}

/// The factors of the window `build[start..start + size]`: the probability of
/// its token and of the token of every shorter window at the same start, the
/// longest first, numerators and denominators apart. `None` where one of them
/// has no probability.
pub open spec fn window_factors(
    table: Seq<TokenProbability>,
    population: Seq<char>,
    build: Seq<Seq<char>>,
    start: int,
    size: int,
) -> Option<(Seq<u32>, Seq<u32>)>
    decreases size,
{
    if size <= 0 {
        Some((Seq::empty(), Seq::empty()))
    } else {
        match (
            lookup(table, window_token(population, build, start, size)),
            window_factors(table, population, build, start, size - 1),
        ) {
            (Some(p), Some(rest)) => Some((seq![p.0] + rest.0, seq![p.1] + rest.1)),
            _ => None,
        }
    }
}

/// The token of a window given by its own actions; `whole` says that the
/// window is the whole build.
pub open spec fn token_of_actions(population: Seq<char>, actions: Seq<Seq<char>>, whole: bool) -> TokenId {
    if actions.len() > 1 && !whole {
        TokenId {
            population,
            context: join_spec(actions.drop_last(), building_separator()),
            next: actions.last(),
        }
    } else {
        TokenId {
            population,
            context: join_spec(actions, building_separator()),
            next: crate::tokens::token_terminator(),
        }
    }
}

/// The factors of the first `n` actions of a window, as `window_factors`
/// gives them, from the window's own actions.
pub open spec fn compound_upto(
    table: Seq<TokenProbability>,
    population: Seq<char>,
    actions: Seq<Seq<char>>,
    whole: bool,
    n: int,
) -> Option<(Seq<u32>, Seq<u32>)>
    decreases n,
{
    if n <= 0 {
        Some((Seq::empty(), Seq::empty()))
    } else {
        match (
            lookup(table, token_of_actions(population, actions.take(n), whole && n == actions.len())),
            compound_upto(table, population, actions, whole, n - 1),
        ) {
            (Some(p), Some(rest)) => Some((seq![p.0] + rest.0, seq![p.1] + rest.1)),
            _ => None,
        }
    }
}

/// The factors of a window: its compound probability.
pub open spec fn compound_factors(
    table: Seq<TokenProbability>,
    population: Seq<char>,
    actions: Seq<Seq<char>>,
    whole: bool,
) -> Option<(Seq<u32>, Seq<u32>)> {
    compound_upto(table, population, actions, whole, actions.len() as int)
}

/// The factors of a window of a build are those of the window's own actions.
pub proof fn lemma_window_is_compound(
    table: Seq<TokenProbability>,
    population: Seq<char>,
    build: Seq<Seq<char>>,
    start: int,
    size: int,
    n: int,
)
    requires
        0 <= start,
        0 <= n <= size,
        start + size <= build.len(),
    ensures
        window_factors(table, population, build, start, n) == compound_upto(
            table,
            population,
            build.subrange(start, start + size),
            size == build.len(),
            n,
        ),
    decreases n,
{
    if n > 0 {
        lemma_window_is_compound(table, population, build, start, size, n - 1);
        let window = build.subrange(start, start + size);
        assert(window.take(n) =~= build.subrange(start, start + n));
    }
}

/// The compound probability of a window, kept for the next build that holds
/// the same window.
#[derive(Debug)]
pub struct CachedWindow {
    pub population: String,
    pub actions: Vec<String>,
    /// the window was the whole build
    pub whole: bool,
    pub numerators: Vec<u32>,
    pub denominators: Vec<u32>,
}

/// The compound probabilities that were worked out so far. They hold for one
/// table of probabilities.
#[derive(Debug)]
pub struct CompoundCache {
    entries: Vec<CachedWindow>,
}

impl CompoundCache {
    /// Every kept compound probability is the one that the table gives.
    pub closed spec fn sound(&self, table: Seq<TokenProbability>) -> bool {
        cache_sound(self.entries@, table)
    }

    /// A cache that holds nothing.
    pub fn new() -> (cache: CompoundCache)
        ensures
            cache.kept() == 0,
            forall|table: Seq<TokenProbability>| #[trigger] cache.sound(table),
    {
        CompoundCache { entries: Vec::new() }
    }

    /// The number of windows whose compound probability is kept.
    pub closed spec fn kept(&self) -> nat {
        self.entries@.len()
    }

    /// The number of windows whose compound probability is kept.
    pub fn len(&self) -> (n: usize)
        ensures
            n == self.kept(),
    {
        self.entries.len()
    }
}

/// Every kept compound probability is the one that the table gives.
pub open spec fn cache_sound(cache: Seq<CachedWindow>, table: Seq<TokenProbability>) -> bool {
    forall|i: int|
        0 <= i < cache.len() ==> compound_factors(
            table,
            (#[trigger] cache[i]).population@,
            texts(cache[i].actions@),
            cache[i].whole,
        ) == Some((cache[i].numerators@, cache[i].denominators@))
}

/// A way to cut the front of a build into windows, with the factors of its
/// probability.
pub struct CandidateId {
    pub windows: Seq<int>,
    pub numerators: Seq<u32>,
    pub denominators: Seq<u32>,
}

/// `a` is strictly more probable than `b`.
pub open spec fn more_probable(a: CandidateId, b: CandidateId) -> bool {
    product(a.numerators) * product(b.denominators) > product(b.numerators) * product(
        a.denominators,
    )
}

/// `head` with one more window.
pub open spec fn extended(head: CandidateId, size: int, factors: (Seq<u32>, Seq<u32>)) -> CandidateId {
    CandidateId {
        windows: head.windows.push(size),
        numerators: head.numerators + factors.0,
        denominators: head.denominators + factors.1,
    }
}

/// The most probable way to cut `build[0..end]` into windows that have a
/// probability; `None` where there is no such way. Of equally probable ways
/// the one with the shorter last window is taken.
pub open spec fn best_upto(
    table: Seq<TokenProbability>,
    population: Seq<char>,
    build: Seq<Seq<char>>,
    end: int,
) -> Option<CandidateId>
    decreases end, MAX_TOKEN_SIZE + 1,
{
    if end <= 0 {
        Some(
            CandidateId {
                windows: Seq::empty(),
                numerators: Seq::empty(),
                denominators: Seq::empty(),
            },
        )
    } else {
        best_among(table, population, build, end, MAX_TOKEN_SIZE as int)
    }
}

/// As `best_upto`, with a last window of at most `sizes` actions.
pub open spec fn best_among(
    table: Seq<TokenProbability>,
    population: Seq<char>,
    build: Seq<Seq<char>>,
    end: int,
    sizes: int,
) -> Option<CandidateId>
    decreases end, sizes,
{
    if sizes <= 0 || sizes > MAX_TOKEN_SIZE || end <= 0 {
        None
    } else {
        let shorter = best_among(table, population, build, end, sizes - 1);
        if sizes <= end {
            match (
                best_upto(table, population, build, end - sizes),
                window_factors(table, population, build, end - sizes, sizes),
            ) {
                (Some(head), Some(factors)) => {
                    let longer = extended(head, sizes, factors);
                    match shorter {
                        Some(kept) => if more_probable(longer, kept) {
                            Some(longer)
                        } else {
                            Some(kept)
                        },
                        None => Some(longer),
                    }
                },
                _ => shorter,
            }
        } else {
            shorter
        }
    }
}

/// The window `build[start..start + size]` can be reached and has a
/// probability, and a shorter window at the same start has none.
pub open spec fn broken_window(
    table: Seq<TokenProbability>,
    population: Seq<char>,
    build: Seq<Seq<char>>,
    start: int,
    size: int,
) -> bool {
    &&& 0 <= start
    &&& 1 <= size <= MAX_TOKEN_SIZE
    &&& start + size <= build.len()
    &&& best_upto(table, population, build, start) is Some
    &&& lookup(table, window_token(population, build, start, size)) is Some
    &&& window_factors(table, population, build, start, size) is None
}

/// The search meets a broken window.
pub open spec fn has_broken_window(
    table: Seq<TokenProbability>,
    population: Seq<char>,
    build: Seq<Seq<char>>,
) -> bool {
    exists|start: int, size: int| #[trigger] broken_window(table, population, build, start, size)
}

/// A way to cut the front of a build into windows.
#[derive(Debug, Clone, PartialEq, Eq)]
pub struct Candidate {
    pub windows: Vec<usize>,
    pub numerators: Vec<u32>,
    pub denominators: Vec<u32>,
}

impl View for Candidate {
    type V = CandidateId;

    open spec fn view(&self) -> CandidateId {
        CandidateId {
            windows: sizes_of(self.windows@),
            numerators: self.numerators@,
            denominators: self.denominators@,
        }
    }
}

/// What an optional candidate stands for.
pub open spec fn candidate_of(c: Option<Candidate>) -> Option<CandidateId> {
    match c {
        Some(c) => Some(c@),
        None => None,
    }
}

fn copy_numbers(v: &Vec<u32>) -> (r: Vec<u32>)
    ensures
        r@ == v@,
{
    let mut r: Vec<u32> = Vec::new();
    let mut i: usize = 0;
    while i < v.len()
        invariant
            i <= v.len(),
            r@ == v@.take(i as int),
        decreases v.len() - i,
    {
        r.push(v[i]);
        assert(v@.take(i + 1) =~= v@.take(i as int).push(v[i as int]));
        i = i + 1;
    }
    assert(v@.take(i as int) =~= v@);
    r
}

fn copy_sizes(v: &Vec<usize>) -> (r: Vec<usize>)
    ensures
        r@ == v@,
{
    let mut r: Vec<usize> = Vec::new();
    let mut i: usize = 0;
    while i < v.len()
        invariant
            i <= v.len(),
            r@ == v@.take(i as int),
        decreases v.len() - i,
    {
        r.push(v[i]);
        assert(v@.take(i + 1) =~= v@.take(i as int).push(v[i as int]));
        i = i + 1;
    }
    assert(v@.take(i as int) =~= v@);
    r
}

/// Puts the numbers of `more` behind those of `v`.
fn extend_numbers(v: &mut Vec<u32>, more: &Vec<u32>)
    ensures
        final(v)@ == old(v)@ + more@,
{
    let mut i: usize = 0;
    assert(old(v)@ + more@.take(0) =~= old(v)@);
    while i < more.len()
        invariant
            i <= more.len(),
            v@ == old(v)@ + more@.take(i as int),
        decreases more.len() - i,
    {
        v.push(more[i]);
        assert(old(v)@ + more@.take(i + 1) =~= (old(v)@ + more@.take(i as int)).push(
            more[i as int],
        ));
        i = i + 1;
    }
    assert(more@.take(i as int) =~= more@);
}

/// The probability of `token`, as count and total.
pub fn lookup_probability(table: &Vec<TokenProbability>, token: &Token) -> (p: Option<(u32, u32)>)
    ensures
        p == lookup(table@, token@),
{
    let mut k: usize = 0;
    assert(table@.skip(0) =~= table@);
    while k < table.len()
        invariant
            k <= table.len(),
            lookup(table@, token@) == lookup(table@.skip(k as int), token@),
        decreases table.len() - k,
    {
        assert(table@.skip(k as int).drop_first() =~= table@.skip(k + 1));
        if table[k].token.same(token) {
            return Some((table[k].count, table[k].total));
        }
        k = k + 1;
    }
    None
}

/// Whether the window `build[start..start + size]` holds just these actions.
fn same_window(actions: &Vec<String>, build: &Vec<String>, start: usize, size: usize) -> (r: bool)
    requires
        start + size <= build.len(),
    ensures
        r == (texts(actions@) == texts(build@).subrange(start as int, start + size)),
{
    let ghost window = texts(build@).subrange(start as int, start + size);
    if actions.len() != size {
        assert(texts(actions@).len() != window.len());
        return false;
    }
    let mut i: usize = 0;
    while i < size
        invariant
            i <= size,
            actions.len() == size,
            start + size <= build.len(),
            window == texts(build@).subrange(start as int, start + size),
            forall|j: int| 0 <= j < i ==> #[trigger] texts(actions@)[j] == window[j],
        decreases size - i,
    {
        if !(actions[i] == build[start + i]) {
            assert(texts(actions@)[i as int] != window[i as int]);
            return false;
        }
        i = i + 1;
    }
    assert(texts(actions@) =~= window);
    true
}

/// The entry keeps the compound probability of the window `window` of the
/// population; `whole` says that the window is the whole build.
pub open spec fn keeps_window(
    entry: CachedWindow,
    population: Seq<char>,
    window: Seq<Seq<char>>,
    whole: bool,
) -> bool {
    &&& entry.whole == whole
    &&& entry.population@ == population
    &&& texts(entry.actions@) == window
}

/// The place of the first entry that keeps the compound probability of the
/// window `build[start..start + size]`; `None` where no entry keeps it.
fn find_cached(
    cache: &Vec<CachedWindow>,
    population: &String,
    build: &Vec<String>,
    start: usize,
    size: usize,
    whole: bool,
) -> (r: Option<usize>)
    requires
        start + size <= build.len(),
    ensures
        match r {
            Some(i) => {
                &&& i < cache.len()
                &&& keeps_window(
                    cache[i as int],
                    population@,
                    texts(build@).subrange(start as int, start + size),
                    whole,
                )
                &&& forall|j: int|
                    0 <= j < i ==> !keeps_window(
                        #[trigger] cache[j],
                        population@,
                        texts(build@).subrange(start as int, start + size),
                        whole,
                    )
            },
            None => forall|j: int|
                0 <= j < cache.len() ==> !keeps_window(
                    #[trigger] cache[j],
                    population@,
                    texts(build@).subrange(start as int, start + size),
                    whole,
                ),
        },
{
    let ghost window = texts(build@).subrange(start as int, start + size);
    let mut i: usize = 0;
    while i < cache.len()
        invariant
            i <= cache.len(),
            start + size <= build.len(),
            window == texts(build@).subrange(start as int, start + size),
            forall|j: int| 0 <= j < i ==> !keeps_window(#[trigger] cache[j], population@, window, whole),
        decreases cache.len() - i,
    {
        if cache[i].whole == whole && cache[i].population == *population && same_window(
            &cache[i].actions,
            build,
            start,
            size,
        ) {
            return Some(i);
        }
        i = i + 1;
    }
    None
}

/// A copy of the actions `build[start..start + size]`.
fn copy_window(build: &Vec<String>, start: usize, size: usize) -> (r: Vec<String>)
    requires
        start + size <= build.len(),
    ensures
        texts(r@) == texts(build@).subrange(start as int, start + size),
{
    let ghost window = texts(build@).subrange(start as int, start + size);
    let mut r: Vec<String> = Vec::new();
    let mut i: usize = 0;
    while i < size
        invariant
            i <= size,
            r.len() == i,
            start + size <= build.len(),
            window == texts(build@).subrange(start as int, start + size),
            forall|j: int| 0 <= j < i ==> #[trigger] texts(r@)[j] == window[j],
        decreases size - i,
    {
        let ghost held = r@;
        r.push(build[start + i].clone());
        assert forall|j: int| 0 <= j < i + 1 implies #[trigger] texts(r@)[j] == window[j] by {
            if j < i {
                assert(texts(held)[j] == window[j]);
            }
        }
        i = i + 1;
    }
    assert(texts(r@) =~= window);
    r
}

/// The factors of the window `build[start..start + size]`: its compound
/// probability. A compound probability that was worked out before is taken
/// from the cache; a new one is worked out from the window and its shorter
/// fronts, down to a front whose compound probability is kept, and is then
/// kept itself.
pub fn factors_of_window(
    table: &Vec<TokenProbability>,
    cache: &mut CompoundCache,
    population: &String,
    build: &Vec<String>,
    start: usize,
    size: usize,
) -> (factors: Option<(Vec<u32>, Vec<u32>)>)
    requires
        start + size <= build.len(),
        old(cache).sound(table@),
    ensures
        final(cache).sound(table@),
        match factors {
            Some(f) => window_factors(table@, population@, texts(build@), start as int, size as int)
                == Some((f.0@, f.1@)),
            None => window_factors(table@, population@, texts(build@), start as int, size as int)
                is None,
        },
{
    let ghost window = texts(build@).subrange(start as int, start + size);
    let whole = size == build.len();
    proof {
        lemma_window_is_compound(
            table@,
            population@,
            texts(build@),
            start as int,
            size as int,
            size as int,
        );
    }
    match find_cached(&cache.entries, population, build, start, size, whole) {
        Some(i) => {
            return Some((copy_numbers(&cache.entries[i].numerators), copy_numbers(&cache.entries[i].denominators)));
        },
        None => {},
    }
    let mut numerators: Vec<u32> = Vec::new();
    let mut denominators: Vec<u32> = Vec::new();
    let mut fragment: usize = size;
    let ghost all = window_factors(table@, population@, texts(build@), start as int, size as int);
    proof {
        match all {
            Some(w) => {
                assert(numerators@ + w.0 =~= w.0);
                assert(denominators@ + w.1 =~= w.1);
            },
            None => {},
        }
    }
    while fragment > 0
        invariant
            fragment <= size,
            start + size <= build.len(),
            cache.entries@ == old(cache).entries@,
            cache_sound(cache.entries@, table@),
            window == texts(build@).subrange(start as int, start + size),
            all == window_factors(table@, population@, texts(build@), start as int, size as int),
            match window_factors(table@, population@, texts(build@), start as int, fragment as int) {
                Some(rest) => all == Some((numerators@ + rest.0, denominators@ + rest.1)),
                None => all is None,
            },
        decreases fragment,
    {
        let kept = if fragment < size {
            find_cached(&cache.entries, population, build, start, fragment, false)
        } else {
            None
        };
        match kept {
            Some(i) => {
                proof {
                    lemma_window_is_compound(
                        table@,
                        population@,
                        texts(build@),
                        start as int,
                        fragment as int,
                        fragment as int,
                    );
                    let kept = cache.entries[i as int];
                    assert(compound_factors(
                        table@,
                        kept.population@,
                        texts(kept.actions@),
                        kept.whole,
                    ) == Some((kept.numerators@, kept.denominators@)));
                    assert(texts(kept.actions@).len() == fragment);
                    assert(window_factors(
                        table@,
                        population@,
                        texts(build@),
                        start as int,
                        fragment as int,
                    ) == Some((kept.numerators@, kept.denominators@)));
                    assert(numerators@ + kept.numerators@ + Seq::<u32>::empty() =~= numerators@
                        + kept.numerators@);
                    assert(denominators@ + kept.denominators@ + Seq::<u32>::empty()
                        =~= denominators@ + kept.denominators@);
                }
                extend_numbers(&mut numerators, &cache.entries[i].numerators);
                extend_numbers(&mut denominators, &cache.entries[i].denominators);
                fragment = 0;
            },
            None => {
                let token = Token::of_window(population.as_str(), build, start, fragment);
                match lookup_probability(table, &token) {
                    None => {
                        return None;
                    },
                    Some(p) => {
                        proof {
                            let rest = window_factors(
                                table@,
                                population@,
                                texts(build@),
                                start as int,
                                fragment - 1,
                            );
                            match rest {
                                Some(r) => {
                                    assert((numerators@.push(p.0)) + r.0 =~= numerators@ + (
                                    seq![p.0] + r.0));
                                    assert((denominators@.push(p.1)) + r.1 =~= denominators@ + (
                                    seq![p.1] + r.1));
                                },
                                None => {},
                            }
                        }
                        numerators.push(p.0);
                        denominators.push(p.1);
                    },
                }
                fragment = fragment - 1;
            },
        }
    }
    proof {
        assert(numerators@ + Seq::<u32>::empty() =~= numerators@);
        assert(denominators@ + Seq::<u32>::empty() =~= denominators@);
    }
    let entry = CachedWindow {
        population: population.clone(),
        actions: copy_window(build, start, size),
        whole,
        numerators: copy_numbers(&numerators),
        denominators: copy_numbers(&denominators),
    };
    let ghost before = cache.entries@;
    cache.entries.push(entry);
    assert forall|i: int| 0 <= i < cache.entries.len() implies compound_factors(
        table@,
        (#[trigger] cache.entries[i]).population@,
        texts(cache.entries[i].actions@),
        cache.entries[i].whole,
    ) == Some((cache.entries[i].numerators@, cache.entries[i].denominators@)) by {
        if i < before.len() {
            assert(cache.entries[i] == before[i]);
        }
    }
    Some((numerators, denominators))
}

/// The most probable way to cut the build into windows that have a
/// probability, found front to back: the best way to each end is kept and
/// used for the ends behind it.
pub fn best_path(
    table: &Vec<TokenProbability>,
    cache: &mut CompoundCache,
    build: &Vec<String>,
    build_prefix: &String,
) -> (r: Result<Option<Candidate>, FatalError>)
    requires
        old(cache).sound(table@),
    ensures
        final(cache).sound(table@),
        match r {
            Ok(c) => !has_broken_window(table@, build_prefix@, texts(build@)) && candidate_of(c)
                == best_upto(table@, build_prefix@, texts(build@), build.len() as int),
            Err(e) => e == FatalError::MissingFragmentProbability && has_broken_window(
                table@,
                build_prefix@,
                texts(build@),
            ),
        },
{
    let ghost t = table@;
    let ghost p = build_prefix@;
    let ghost b = texts(build@);
    let mut best: Vec<Option<Candidate>> = Vec::new();
    best.push(
        Some(Candidate { windows: Vec::new(), numerators: Vec::new(), denominators: Vec::new() }),
    );
    assert(sizes_of(best[0]->0.windows@) =~= Seq::<int>::empty());
    let mut done: usize = 0;
    while done < build.len()
        invariant
            done <= build.len(),
            t == table@,
            p == build_prefix@,
            b == texts(build@),
            best.len() == done + 1,
            cache.sound(t),
            forall|e: int| 0 <= e <= done ==> candidate_of(#[trigger] best[e]) == best_upto(t, p, b, e),
            forall|start: int, size: int|
                start + size <= done ==> !#[trigger] broken_window(t, p, b, start, size),
        decreases build.len() - done,
    {
        let end: usize = done + 1;
        let mut chosen: Option<Candidate> = None;
        let mut size: usize = 1;
        while size <= MAX_TOKEN_SIZE && size <= end
            invariant
                1 <= size <= MAX_TOKEN_SIZE + 1,
                1 <= end <= build.len(),
                t == table@,
                p == build_prefix@,
                b == texts(build@),
                best.len() == end,
                cache.sound(t),
                forall|e: int|
                    0 <= e < end ==> candidate_of(#[trigger] best[e]) == best_upto(t, p, b, e),
                forall|start: int, size: int|
                    start + size < end ==> !#[trigger] broken_window(t, p, b, start, size),
                forall|s: int| 1 <= s < size ==> !#[trigger] broken_window(t, p, b, end - s, s),
                candidate_of(chosen) == best_among(t, p, b, end as int, size - 1),
            decreases MAX_TOKEN_SIZE + 1 - size,
        {
            let start: usize = end - size;
            assert(candidate_of(best[start as int]) == best_upto(t, p, b, start as int));
            match &best[start] {
                Some(head) => {
                    match factors_of_window(table, cache, build_prefix, build, start, size) {
                        Some(f) => {
                            let mut windows = copy_sizes(&head.windows);
                            windows.push(size);
                            assert(sizes_of(windows@) =~= sizes_of(head.windows@).push(size as int));
                            let mut numerators = copy_numbers(&head.numerators);
                            extend_numbers(&mut numerators, &f.0);
                            let mut denominators = copy_numbers(&head.denominators);
                            extend_numbers(&mut denominators, &f.1);
                            let longer = Candidate { windows, numerators, denominators };
                            assert(longer@ == extended(head@, size as int, (f.0@, f.1@)));
                            let replace = match &chosen {
                                Some(kept) => !product_at_most(
                                    &longer.numerators,
                                    &kept.denominators,
                                    &kept.numerators,
                                    &longer.denominators,
                                ),
                                None => true,
                            };
                            if replace {
                                chosen = Some(longer);
                            }
                        },
                        None => {
                            let token = Token::of_window(build_prefix.as_str(), build, start, size);
                            if lookup_probability(table, &token).is_some() {
                                assert(broken_window(t, p, b, start as int, size as int));
                                return Err(FatalError::MissingFragmentProbability);
                            }
                        },
                    }
                },
                None => {},
            }
            size = size + 1;
        }
        proof {
            reveal_with_fuel(best_among, 6);
            assert(candidate_of(chosen) == best_upto(t, p, b, end as int));
            assert forall|start: int, size: int| start + size < end + 1 implies !#[trigger] broken_window(
                t,
                p,
                b,
                start,
                size,
            ) by {
                if start + size == end && 1 <= size <= MAX_TOKEN_SIZE && 0 <= start {
                    assert(!broken_window(t, p, b, end - size, size));
                }
            }
        }
        best.push(chosen);
        done = end;
    }
    assert(!has_broken_window(t, p, b)) by {
        if has_broken_window(t, p, b) {
            let (start, size) = choose|start: int, size: int| #[trigger]
                broken_window(t, p, b, start, size);
            assert(start + size <= done);
        }
    }
    let last = best.pop();
    match last {
        Some(c) => Ok(c),
        None => Ok(None),
    }
}

/// What the table gives is a positive count out of a positive total.
pub proof fn lemma_lookup_positive(table: Seq<TokenProbability>, t: TokenId)
    requires
        probabilities_fit(table_of(table)),
    ensures
        match lookup(table, t) {
            Some(p) => p.0 >= 1 && p.1 >= 1,
            None => true,
        },
    decreases table.len(),
{
    if table.len() > 0 {
        assert(table_of(table)[0] == table[0]@);
        if table[0].token@ != t {
            assert forall|i: int| 0 <= i < table_of(table.drop_first()).len() implies 1 <= (
            #[trigger] table_of(table.drop_first())[i]).count <= table_of(
                table.drop_first(),
            )[i].total && crate::model::MIN_CONTEXT_TOTAL <= table_of(table.drop_first())[i].total
                <= u32::MAX by {
                assert(table_of(table)[i + 1] == table[i + 1]@);
            }
            lemma_lookup_positive(table.drop_first(), t);
        }
    }
}

/// Every number of the sequence is positive.
pub open spec fn all_positive(s: Seq<u32>) -> bool {
    forall|i: int| 0 <= i < s.len() ==> #[trigger] s[i] > 0
}

/// The factors of a window are positive.
pub proof fn lemma_window_factors_positive(
    table: Seq<TokenProbability>,
    population: Seq<char>,
    build: Seq<Seq<char>>,
    start: int,
    size: int,
)
    requires
        table_wf(table_of(table)),
    ensures
        match window_factors(table, population, build, start, size) {
            Some(f) => all_positive(f.0) && all_positive(f.1),
            None => true,
        },
    decreases size,
{
    if size > 0 {
        lemma_window_factors_positive(table, population, build, start, size - 1);
        lemma_lookup_positive(table, window_token(population, build, start, size));
    }
}

/// A candidate covers `end` actions with windows of allowed sizes, and its
/// factors are positive.
pub open spec fn candidate_wf(c: CandidateId, end: int) -> bool {
    &&& sizes_allowed(c.windows)
    &&& covered(c.windows) == end
    &&& all_positive(c.numerators)
    &&& all_positive(c.denominators)
}

/// A candidate with one more allowed window with positive factors is a
/// candidate for the end of that window.
pub proof fn lemma_extended_wf(head: CandidateId, size: int, factors: (Seq<u32>, Seq<u32>), end: int)
    requires
        candidate_wf(head, end - size),
        1 <= size <= MAX_TOKEN_SIZE,
        all_positive(factors.0),
        all_positive(factors.1),
    ensures
        candidate_wf(extended(head, size, factors), end),
{
    let c = extended(head, size, factors);
    assert(c.windows.drop_last() =~= head.windows);
}

/// The best way to an end is a candidate for that end.
pub proof fn lemma_best_wf(
    table: Seq<TokenProbability>,
    population: Seq<char>,
    build: Seq<Seq<char>>,
    end: int,
    sizes: int,
)
    requires
        table_wf(table_of(table)),
        0 <= end,
    ensures
        match best_upto(table, population, build, end) {
            Some(c) => candidate_wf(c, end),
            None => true,
        },
        match best_among(table, population, build, end, sizes) {
            Some(c) => candidate_wf(c, end),
            None => true,
        },
    decreases end, MAX_TOKEN_SIZE + 1, sizes,
{
    if end > 0 {
        lemma_best_among_wf(table, population, build, end, MAX_TOKEN_SIZE as int);
        lemma_best_among_wf(table, population, build, end, sizes);
    }
}

proof fn lemma_best_among_wf(
    table: Seq<TokenProbability>,
    population: Seq<char>,
    build: Seq<Seq<char>>,
    end: int,
    sizes: int,
)
    requires
        table_wf(table_of(table)),
        0 < end,
    ensures
        match best_among(table, population, build, end, sizes) {
            Some(c) => candidate_wf(c, end),
            None => true,
        },
    decreases end, 0int, sizes,
{
    if !(sizes <= 0 || sizes > MAX_TOKEN_SIZE) {
        lemma_best_among_wf(table, population, build, end, sizes - 1);
        if sizes <= end {
            lemma_best_wf(table, population, build, end - sizes, 0);
            lemma_window_factors_positive(table, population, build, end - sizes, sizes);
            match (
                best_upto(table, population, build, end - sizes),
                window_factors(table, population, build, end - sizes, sizes),
            ) {
                (Some(head), Some(factors)) => {
                    lemma_extended_wf(head, sizes, factors, end);
                },
                _ => {},
            }
        }
    }
}

/// The texts of the windows that the sizes cut out of the actions, each the
/// actions of one window joined by the building separator.
pub open spec fn window_texts(actions: Seq<Seq<char>>, sizes: Seq<int>) -> Seq<Seq<char>>
    decreases sizes.len(),
{
    if sizes.len() == 0 {
        Seq::empty()
    } else {
        window_texts(actions, sizes.drop_last()).push(
            join_spec(
                actions.subrange(covered(sizes.drop_last()), covered(sizes)),
                building_separator(),
            ),
        )
    }
}

/// The text that identifies a path: the population, the section separator,
/// and the windows with the token separator between them.
pub open spec fn path_identity(p: PathId) -> Seq<char> {
    p.population + section_separator() + join_spec(
        window_texts(p.actions, p.windows),
        token_separator(),
    )
}

/// The first windows cover no more than all of them.
pub proof fn lemma_covered_front(sizes: Seq<int>, k: int)
    requires
        sizes_allowed(sizes),
        0 <= k <= sizes.len(),
    ensures
        0 <= covered(sizes.take(k)) <= covered(sizes),
        k < sizes.len() ==> covered(sizes.take(k + 1)) == covered(sizes.take(k)) + sizes[k],
    decreases sizes.len() - k,
{
    if k < sizes.len() {
        lemma_covered_front(sizes, k + 1);
        assert(sizes.take(k + 1).drop_last() =~= sizes.take(k));
        assert(1 <= sizes[k]);
        lemma_covered_least(sizes.take(k));
    } else {
        assert(sizes.take(k) =~= sizes);
        lemma_covered_least(sizes);
    }
}

proof fn lemma_covered_least(sizes: Seq<int>)
    requires
        forall|i: int| 0 <= i < sizes.len() ==> 1 <= #[trigger] sizes[i],
    ensures
        0 <= covered(sizes),
    decreases sizes.len(),
{
    if sizes.len() > 0 {
        assert(1 <= sizes[sizes.len() - 1]);
        assert forall|i: int| 0 <= i < sizes.drop_last().len() implies 1
            <= #[trigger] sizes.drop_last()[i] by {
            assert(1 <= sizes[i]);
        }
        lemma_covered_least(sizes.drop_last());
    }
}

impl SegmentedPath {
    /// The number of actions that the path covers.
    pub fn length(&self) -> (n: usize)
        ensures
            n == self@.actions.len(),
    {
        self.actions.len()
    }

    /// The text that identifies the path.
    pub fn identity(&self) -> (id: String)
        requires
            path_wf(self@),
        ensures
            id@ == path_identity(self@),
    {
        let ghost actions = texts(self.actions@);
        let ghost sizes = sizes_of(self.windows@);
        let mut parts: Vec<String> = Vec::new();
        let mut offset: usize = 0;
        let mut k: usize = 0;
        proof {
            reveal_strlit(",");
            reveal_strlit(":");
            reveal_strlit("__");
            assert(","@ =~= building_separator());
            assert(":"@ =~= token_separator());
            assert("__"@ =~= section_separator());
            assert(sizes.take(0) =~= Seq::<int>::empty());
            assert(texts(parts@) =~= window_texts(actions, sizes.take(0)));
        }
        while k < self.windows.len()
            invariant
                k <= self.windows.len(),
                actions == texts(self.actions@),
                sizes == sizes_of(self.windows@),
                path_wf(self@),
                offset == covered(sizes.take(k as int)),
                offset <= self.actions.len(),
                parts.len() == k,
                texts(parts@) == window_texts(actions, sizes.take(k as int)),
            decreases self.windows.len() - k,
        {
            let size = self.windows[k];
            proof {
                lemma_covered_front(sizes, k as int);
                lemma_covered_front(sizes, k + 1);
                assert(sizes.take(k + 1).drop_last() =~= sizes.take(k as int));
                assert(sizes[k as int] == size);
                reveal_strlit(",");
                assert(","@ =~= building_separator());
            }
            let ghost before = texts(parts@);
            let ghost held = parts@;
            let part = join(&self.actions, offset, offset + size, ",");
            let ghost text = part@;
            parts.push(part);
            assert forall|i: int| 0 <= i < parts.len() implies #[trigger] texts(parts@)[i]
                == before.push(text)[i] by {
                if i < held.len() {
                    assert(texts(held)[i] == held[i]@);
                }
            }
            assert(texts(parts@) =~= before.push(
                join_spec(
                    actions.subrange(offset as int, offset + size),
                    building_separator(),
                ),
            ));
            offset = offset + size;
            k = k + 1;
        }
        assert(sizes.take(k as int) =~= sizes);
        assert(texts(parts@).subrange(0, parts.len() as int) =~= texts(parts@));
        let mut id = self.population.clone();
        id.append("__");
        let joined = join(&parts, 0, parts.len(), ":");
        id.append(joined.as_str());
        id
    }
}

} // verus!
