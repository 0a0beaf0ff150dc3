//! The key of a population: a race and the races of the match, in order.

use vstd::prelude::*;
use crate::text::{join, join_spec, lemma_lex_total, lex_less, text_less, texts};
use crate::tokens::building_separator;

verus! {

/// Stands between the race and the races of the match: "-".
pub open spec fn race_separator() -> Seq<char> {
    seq!['-']
}

/// The place of the first text that comes after `t`; the number of texts
/// where none does.
pub open spec fn first_after(all: Seq<Seq<char>>, t: Seq<char>) -> int
    decreases all.len(),
{
    if all.len() == 0 || lex_less(t, all[0]) {
        0
    } else {
        1 + first_after(all.drop_first(), t)
    }
}

/// The texts with `t` put before the first text that comes after it.
pub open spec fn put_in_order(all: Seq<Seq<char>>, t: Seq<char>) -> Seq<Seq<char>> {
    let p = first_after(all, t);
    all.take(p).push(t) + all.skip(p)
}

/// The first `n` texts, each in turn put before the first text that comes
/// after it.
pub open spec fn in_order_upto(all: Seq<Seq<char>>, n: int) -> Seq<Seq<char>>
    decreases n,
{
    if n <= 0 {
        Seq::empty()
    } else {
        put_in_order(in_order_upto(all, n - 1), all[n - 1])
    }
}

/// The texts in the order of texts; equal texts keep their order.
pub open spec fn in_order(all: Seq<Seq<char>>) -> Seq<Seq<char>> {
    in_order_upto(all, all.len() as int)
}

/// No text comes before one that stands before it.
pub open spec fn ascending(all: Seq<Seq<char>>) -> bool {
    forall|i: int, j: int| 0 <= i < j < all.len() ==> !lex_less(#[trigger] all[j], #[trigger] all[i])
}

/// The key of the population of a player: the player's race, and the races of
/// all players of the match in order.
pub open spec fn population_key_spec(race: Seq<char>, matchup: Seq<Seq<char>>) -> Seq<char> {
    race + race_separator() + join_spec(in_order(matchup), building_separator())
}

/// What comes before a text that comes before a third comes before the third.
pub proof fn lemma_lex_transitive(a: Seq<char>, b: Seq<char>, c: Seq<char>)
    requires
        lex_less(a, b),
        lex_less(b, c),
    ensures
        lex_less(a, c),
    decreases a.len(),
{
    if a.len() > 0 && b.len() > 0 && c.len() > 0 {
        if a[0] == b[0] && b[0] == c[0] {
            lemma_lex_transitive(a.drop_first(), b.drop_first(), c.drop_first());
        }
    }
}

/// Before the place that `first_after` gives no text comes after `t`, and the
/// text at the place does.
pub proof fn lemma_first_after(all: Seq<Seq<char>>, t: Seq<char>)
    ensures
        0 <= first_after(all, t) <= all.len(),
        forall|i: int| 0 <= i < first_after(all, t) ==> !lex_less(t, #[trigger] all[i]),
        first_after(all, t) < all.len() ==> lex_less(t, all[first_after(all, t)]),
    decreases all.len(),
{
    if !(all.len() == 0 || lex_less(t, all[0])) {
        let rest = all.drop_first();
        lemma_first_after(rest, t);
        assert forall|i: int| 0 <= i < first_after(all, t) implies !lex_less(t, #[trigger] all[i]) by {
            if i > 0 {
                assert(!lex_less(t, rest[i - 1]));
            }
        }
        if first_after(all, t) < all.len() {
            assert(rest[first_after(rest, t)] == all[first_after(all, t)]);
        }
    }
}

/// Putting a text in order keeps an ascending order.
pub proof fn lemma_put_in_order(all: Seq<Seq<char>>, t: Seq<char>)
    requires
        ascending(all),
    ensures
        ascending(put_in_order(all, t)),
        put_in_order(all, t).len() == all.len() + 1,
{
    let p = first_after(all, t);
    let out = put_in_order(all, t);
    lemma_first_after(all, t);
    assert forall|i: int, j: int| 0 <= i < j < out.len() implies !lex_less(
        #[trigger] out[j],
        #[trigger] out[i],
    ) by {
        if j < p {
            assert(out[i] == all[i] && out[j] == all[j]);
        } else if j == p {
            assert(out[i] == all[i]);
        } else if i < p {
            assert(out[i] == all[i] && out[j] == all[j - 1]);
        } else if i == p {
            assert(out[j] == all[j - 1]);
            // t comes before all[p], which does not come after all[j - 1]
            if lex_less(all[j - 1], t) {
                lemma_lex_transitive(all[j - 1], t, all[p]);
                assert(p < j - 1 ==> !lex_less(all[j - 1], all[p]));
                lemma_lex_total(all[p], all[p]);
            }
        } else {
            assert(out[i] == all[i - 1] && out[j] == all[j - 1]);
        }
    }
}

/// The texts in order are ascending, and as many as before.
pub proof fn law_in_order_ascends(all: Seq<Seq<char>>, n: int)
    requires
        0 <= n <= all.len(),
    ensures
        ascending(in_order_upto(all, n)),
        in_order_upto(all, n).len() == n,
    decreases n,
{
    if n > 0 {
        law_in_order_ascends(all, n - 1);
        lemma_put_in_order(in_order_upto(all, n - 1), all[n - 1]);
    }
}

/// The place where `t` goes among the texts.
fn place_after(all: &Vec<String>, t: &String) -> (p: usize)
    ensures
        p == first_after(texts(all@), t@),
        p <= all.len(),
{
    let ghost held = texts(all@);
    let mut p: usize = 0;
    assert(held.skip(0) =~= held);
    while p < all.len() && !text_less(t.as_str(), all[p].as_str())
        invariant
            p <= all.len(),
            held == texts(all@),
            first_after(held, t@) == p + first_after(held.skip(p as int), t@),
        decreases all.len() - p,
    {
        assert(held.skip(p as int).drop_first() =~= held.skip(p + 1));
        assert(held.skip(p as int)[0] == all[p as int]@);
        p = p + 1;
    }
    proof {
        if p < all.len() {
            assert(held.skip(p as int)[0] == all[p as int]@);
        }
    }
    p
}

/// The texts in the order of texts; equal texts keep their order.
pub fn sorted_texts(all: &Vec<String>) -> (sorted: Vec<String>)
    ensures
        texts(sorted@) == in_order(texts(all@)),
{
    let ghost held = texts(all@);
    let mut sorted: Vec<String> = Vec::new();
    let mut n: usize = 0;
    assert(texts(sorted@) =~= in_order_upto(held, 0));
    while n < all.len()
        invariant
            n <= all.len(),
            held == texts(all@),
            texts(sorted@) == in_order_upto(held, n as int),
        decreases all.len() - n,
    {
        let ghost done = sorted@;
        let p = place_after(&sorted, &all[n]);
        sorted.insert(p, all[n].clone());
        assert(texts(sorted@) =~= put_in_order(texts(done), held[n as int])) by {
            assert forall|i: int| 0 <= i < sorted.len() implies #[trigger] texts(sorted@)[i]
                == put_in_order(texts(done), held[n as int])[i] by {
                if i < p {
                    assert(texts(done)[i] == done[i]@);
                } else if i > p {
                    assert(texts(done)[i - 1] == done[i - 1]@);
                }
            }
        }
        n = n + 1;
    }
    sorted
}

/// The key of the population of a player of `race` in a match of the races
/// `matchup`.
pub fn population_key(race: &str, matchup: &Vec<String>) -> (key: String)
    ensures
        key@ == population_key_spec(race@, texts(matchup@)),
{
    proof {
        reveal_strlit("-");
        reveal_strlit(",");
        assert("-"@ =~= race_separator());
        assert(","@ =~= building_separator());
    }
    let sorted = sorted_texts(matchup);
    assert(texts(sorted@).subrange(0, sorted.len() as int) =~= texts(sorted@));
    let mut key = String::from_str(race);
    key.append("-");
    let joined = join(&sorted, 0, sorted.len(), ",");
    key.append(joined.as_str());
    key
}

} // verus!
