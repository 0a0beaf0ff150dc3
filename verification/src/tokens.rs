//! Tokens: a window of a build, told apart by population, context and next
//! action, and the text that identifies each.

use vstd::prelude::*;
use vstd::std_specs::iter::IteratorSpec;
use crate::text::{join, join_spec, texts};

verus! {

/// The longest window of actions that makes a token.
pub const MAX_TOKEN_SIZE: usize = 4;

/// Stands between the sections of an identity: "__".
pub open spec fn section_separator() -> Seq<char> {
    seq!['_', '_']
}

/// Stands between the actions of one window: ",".
pub open spec fn building_separator() -> Seq<char> {
    seq![',']
}

/// Stands between the windows of a path: ":".
pub open spec fn token_separator() -> Seq<char> {
    seq![':']
}

/// Stands between the two builds of a comparison: "--".
pub open spec fn build_separator() -> Seq<char> {
    seq!['-', '-']
}

/// Stands for "no next action": "NONE".
pub open spec fn token_terminator() -> Seq<char> {
    seq!['N', 'O', 'N', 'E']
}

/// What a token is: the population it was seen in, the actions before the
/// last one joined into one text, and the last action or the terminator.
pub struct TokenId {
    pub population: Seq<char>,
    pub context: Seq<char>,
    pub next: Seq<char>,
}

/// A token as the library holds it.
#[derive(Debug, Clone, PartialEq, Eq)]
pub struct Token {
    pub population: String,
    pub context: String,
    pub next: String,
}

impl View for Token {
    type V = TokenId;

    open spec fn view(&self) -> TokenId {
        TokenId { population: self.population@, context: self.context@, next: self.next@ }
    }
}

/// The token of the window `build[start..start + size]`. A window of one
/// action, and a window that is the whole build, is keyed by the terminator;
/// any other window by its last action.
pub open spec fn window_token(
    population: Seq<char>,
    build: Seq<Seq<char>>,
    start: int,
    size: int,
) -> TokenId {
    let window = build.subrange(start, start + size);
    if size > 1 && size != build.len() {
        TokenId {
            population,
            context: join_spec(window.drop_last(), building_separator()),
            next: window.last(),
        }
    } else {
        TokenId {
            population,
            context: join_spec(window, building_separator()),
            next: token_terminator(),
        }
    }
}

/// The text that identifies a token: population, context and next action with
/// the section separator between them.
pub open spec fn token_key(t: TokenId) -> Seq<char> {
    t.population + section_separator() + t.context + section_separator() + t.next
}

impl Token {
    /// The token of the window `build[start..start + size]`.
    pub fn of_window(population: &str, build: &Vec<String>, start: usize, size: usize) -> (t: Token)
        requires
            1 <= size,
            start + size <= build.len(),
        ensures
            t@ == window_token(population@, texts(build@), start as int, size as int),
    {
        let ghost window = texts(build@).subrange(start as int, start + size);
        proof {
            reveal_strlit(",");
            reveal_strlit("NONE");
            assert(","@ =~= building_separator());
            assert("NONE"@ =~= token_terminator());
        }
        if size > 1 && size != build.len() {
            assert(window.drop_last() =~= texts(build@).subrange(start as int, start + size - 1));
            Token {
                population: String::from_str(population),
                context: join(build, start, start + size - 1, ","),
                next: build[start + size - 1].clone(),
            }
        } else {
            Token {
                population: String::from_str(population),
                context: join(build, start, start + size, ","),
                next: String::from_str("NONE"),
            }
        }
    }

    /// Whether the two are the same token.
    pub fn same(&self, other: &Token) -> (r: bool)
        ensures
            r == (self@ == other@),
    {
        self.population == other.population && self.context == other.context && self.next
            == other.next
    }

    /// Whether the token is keyed by the terminator.
    pub fn is_terminal(&self) -> (r: bool)
        ensures
            r == (self@.next == token_terminator()),
    {
        proof {
            reveal_strlit("NONE");
            assert("NONE"@ =~= token_terminator());
        }
        let terminator = String::from_str("NONE");
        self.next == terminator
    }

    /// The text that identifies the token.
    pub fn key(&self) -> (k: String)
        ensures
            k@ == token_key(self@),
    {
        proof {
            reveal_strlit("__");
            assert("__"@ =~= section_separator());
        }
        let mut k = self.population.clone();
        k.append("__");
        k.append(self.context.as_str());
        k.append("__");
        k.append(self.next.as_str());
        k
    }

    /// A copy of the token.
    pub fn copy(&self) -> (t: Token)
        ensures
            t@ == self@,
    {
        Token {
            population: self.population.clone(),
            context: self.context.clone(),
            next: self.next.clone(),
        }
    }
}

/// The character stands in one of the separators.
pub open spec fn separates(c: char) -> bool {
    c == ',' || c == ':'
}

/// The two characters, one after the other, are a separator.
pub open spec fn separate(c: char, d: char) -> bool {
    (c == '_' && d == '_') || (c == '-' && d == '-')
}

/// The action can stand in a key: it is not empty, it is not the terminator
/// and it holds no separator.
pub open spec fn action_fits(action: Seq<char>) -> bool {
    &&& action.len() > 0
    &&& action != token_terminator()
    &&& forall|i: int| 0 <= i < action.len() ==> !separates(#[trigger] action[i])
    &&& forall|i: int| 0 < i < action.len() ==> !separate(action[i - 1], #[trigger] action[i])
}

/// Whether the action can stand in a key. Keys that are made of other actions
/// do not tell builds apart.
pub fn is_fit_action(action: &str) -> (r: bool)
    ensures
        r == action_fits(action@),
{
    broadcast use vstd::string::group_string_axioms;

    let n = action.unicode_len();
    if n == 0 {
        return false;
    }
    proof {
        reveal_strlit("NONE");
        assert("NONE"@ =~= token_terminator());
    }
    if String::from_str(action) == String::from_str("NONE") {
        return false;
    }
    let mut rest = action.chars();
    let mut last: char = ' ';
    let mut i: usize = 0;
    assert(action@.skip(0) =~= action@);
    loop
        invariant
            n == action@.len(),
            n > 0,
            action@ != token_terminator(),
            i <= n,
            IteratorSpec::remaining(&rest) == action@.skip(i as int),
            i > 0 ==> last == action@[i - 1],
            forall|j: int| 0 <= j < i ==> !separates(#[trigger] action@[j]),
            forall|j: int| 0 < j < i ==> !separate(action@[j - 1], #[trigger] action@[j]),
        ensures
            i == n,
            forall|j: int| 0 <= j < n ==> !separates(#[trigger] action@[j]),
            forall|j: int| 0 < j < n ==> !separate(action@[j - 1], #[trigger] action@[j]),
        decreases n - i,
    {
        match rest.next() {
            None => {
                break ;
            },
            Some(c) => {
                assert(action@.skip(i as int).drop_first() =~= action@.skip(i + 1));
                assert(c == action@[i as int]);
                if c == ',' || c == ':' {
                    return false;
                }
                if i > 0 && ((last == '_' && c == '_') || (last == '-' && c == '-')) {
                    return false;
                }
                last = c;
                i = i + 1;
            },
        }
    }
    true
}

/// Whether every action of the build can stand in a key.
pub fn is_fit_build(build: &Vec<String>) -> (r: bool)
    ensures
        r == (forall|i: int| 0 <= i < build.len() ==> action_fits(#[trigger] texts(build@)[i])),
{
    let mut i: usize = 0;
    while i < build.len()
        invariant
            i <= build.len(),
            forall|j: int| 0 <= j < i ==> action_fits(#[trigger] texts(build@)[j]),
        decreases build.len() - i,
    {
        if !is_fit_action(build[i].as_str()) {
            assert(!action_fits(texts(build@)[i as int]));
            return false;
        }
        i = i + 1;
    }
    true
}

} // verus!
