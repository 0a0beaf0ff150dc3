//! Splitting and joining of separator-delimited text.

use vstd::prelude::*;
use vstd::std_specs::iter::IteratorSpec;

verus! {

/// The texts held by a sequence of strings.
pub open spec fn texts(v: Seq<String>) -> Seq<Seq<char>> {
    Seq::new(v.len(), |i: int| v[i]@)
}

/// The pieces of `s` between occurrences of `sep`; always at least one piece.
pub open spec fn split_spec(s: Seq<char>, sep: char) -> Seq<Seq<char>>
    decreases s.len(),
{
    if s.len() == 0 {
        seq![Seq::<char>::empty()]
    } else {
        let rest = split_spec(s.drop_last(), sep);
        if s.last() == sep {
            rest.push(Seq::<char>::empty())
        } else {
            rest.drop_last().push(rest.last().push(s.last()))
        }
    }
}

/// The parts written one after another with `sep` between neighbours.
pub open spec fn join_spec(parts: Seq<Seq<char>>, sep: Seq<char>) -> Seq<char>
    decreases parts.len(),
{
    if parts.len() == 0 {
        Seq::<char>::empty()
    } else if parts.len() == 1 {
        parts[0]
    } else {
        join_spec(parts.drop_last(), sep) + sep + parts.last()
    }
}

/// Cuts `s` at every occurrence of `sep`.
pub fn split(s: &str, sep: char) -> (parts: Vec<String>)
    ensures
        texts(parts@) == split_spec(s@, sep),
{
    broadcast use vstd::string::group_string_axioms;

    let mut parts: Vec<String> = Vec::new();
    let mut start: usize = 0;
    let mut i: usize = 0;
    let mut it = s.chars();
    let n = s.unicode_len();
    assert(s@.take(0) =~= Seq::<char>::empty());
    assert(texts(parts@).push(s@.subrange(0, 0)) =~= seq![Seq::<char>::empty()]);
    loop
        invariant
            n == s@.len(),
            start <= i <= n,
            IteratorSpec::remaining(&it) == s@.skip(i as int),
            split_spec(s@.take(i as int), sep) == texts(parts@).push(
                s@.subrange(start as int, i as int),
            ),
        ensures
            i == n,
        decreases n - i,
    {
        match it.next() {
            None => {
                break ;
            },
            Some(c) => {
                assert(c == s@[i as int]);
                let ghost prev = texts(parts@);
                assert(s@.take(i + 1).drop_last() =~= s@.take(i as int));
                let ghost cur = s@.subrange(start as int, i as int);
                assert(s@.take(i + 1).last() == c);
                if c == sep {
                    parts.push(String::from_str(s.substring_char(start, i)));
                    start = i + 1;
                    assert(texts(parts@) =~= prev.push(cur));
                    assert(s@.subrange(i + 1, i + 1) =~= Seq::<char>::empty());
                } else {
                    assert(prev.push(cur).drop_last() =~= prev);
                    assert(cur.push(c) =~= s@.subrange(start as int, i + 1));
                }
                i = i + 1;
            },
        }
    }
    assert(s@.take(i as int) =~= s@);
    let ghost prev = texts(parts@);
    parts.push(String::from_str(s.substring_char(start, i)));
    assert(texts(parts@) =~= prev.push(s@.subrange(start as int, i as int)));
    parts
}

/// Joins `parts[from..to]` with `sep` between neighbours.
pub fn join(parts: &Vec<String>, from: usize, to: usize, sep: &str) -> (joined: String)
    requires
        from <= to <= parts.len(),
    ensures
        joined@ == join_spec(texts(parts@).subrange(from as int, to as int), sep@),
{
    let ghost all = texts(parts@);
    let mut joined = String::new();
    let mut i: usize = from;
    assert(all.subrange(from as int, from as int) =~= Seq::<Seq<char>>::empty());
    while i < to
        invariant
            from <= i <= to <= parts.len(),
            all == texts(parts@),
            joined@ == join_spec(all.subrange(from as int, i as int), sep@),
        decreases to - i,
    {
        let ghost before = all.subrange(from as int, i as int);
        let ghost after = all.subrange(from as int, i + 1);
        assert(after.drop_last() =~= before);
        assert(after.last() == parts[i as int]@);
        if i > from {
            joined.append(sep);
        } else {
            assert(joined@ + parts[i as int]@ =~= parts[i as int]@);
        }
        joined.append(parts[i].as_str());
        i = i + 1;
    }
    joined
}

/// A copy of the strings.
pub fn copy_texts(v: &Vec<String>) -> (r: Vec<String>)
    ensures
        texts(r@) == texts(v@),
{
    let mut r: Vec<String> = Vec::new();
    let mut i: usize = 0;
    while i < v.len()
        invariant
            i <= v.len(),
            r.len() == i,
            texts(r@) == texts(v@).take(i as int),
        decreases v.len() - i,
    {
        let ghost prev = r@;
        r.push(v[i].clone());
        assert forall|j: int| 0 <= j < i + 1 implies #[trigger] texts(r@)[j] == texts(v@)[j] by {
            if j < i {
                assert(texts(prev)[j] == texts(v@).take(i as int)[j]);
            }
        }
        assert(texts(r@) =~= texts(v@).take(i + 1));
        i = i + 1;
    }
    assert(texts(v@).take(i as int) =~= texts(v@));
    r
}

/// `a` comes before `b` in the order of texts: at the first place where they
/// differ `a` has the lower character, or `a` ends there and `b` goes on.
pub open spec fn lex_less(a: Seq<char>, b: Seq<char>) -> bool
    decreases a.len(),
{
    if b.len() == 0 {
        false
    } else if a.len() == 0 {
        true
    } else if a[0] != b[0] {
        (a[0] as u32) < (b[0] as u32)
    } else {
        lex_less(a.drop_first(), b.drop_first())
    }
}

/// Of two different texts one comes before the other, and never both; no text
/// comes before itself.
pub proof fn lemma_lex_total(a: Seq<char>, b: Seq<char>)
    ensures
        a == b ==> !lex_less(a, b),
        a != b ==> (lex_less(a, b) <==> !lex_less(b, a)),
    decreases a.len(),
{
    if a.len() > 0 && b.len() > 0 {
        if a[0] == b[0] {
            lemma_lex_total(a.drop_first(), b.drop_first());
            if a.drop_first() == b.drop_first() {
                assert(a =~= seq![a[0]] + a.drop_first());
                assert(b =~= seq![b[0]] + b.drop_first());
            }
        } else {
            vstd::utf8::char_u32_cast(a[0], a[0] as u32);
            vstd::utf8::char_u32_cast(b[0], b[0] as u32);
        }
    } else if a.len() == 0 && b.len() == 0 {
        assert(a =~= b);
    }
}

/// Whether `a` comes before `b` in the order of texts.
pub fn text_less(a: &str, b: &str) -> (r: bool)
    ensures
        r == lex_less(a@, b@),
{
    broadcast use vstd::string::group_string_axioms;

    let mut rest_a = a.chars();
    let mut rest_b = b.chars();
    let n = b.unicode_len();
    let mut i: usize = 0;
    assert(b@.skip(0) =~= b@);
    loop
        invariant
            n == b@.len(),
            i <= n,
            IteratorSpec::remaining(&rest_b) == b@.skip(i as int),
            lex_less(a@, b@) == lex_less(
                IteratorSpec::remaining(&rest_a),
                IteratorSpec::remaining(&rest_b),
            ),
        decreases n - i,
    {
        match rest_b.next() {
            None => {
                return false;
            },
            Some(in_b) => {
                assert(b@.skip(i as int).drop_first() =~= b@.skip(i + 1));
                match rest_a.next() {
                    None => {
                        return true;
                    },
                    Some(in_a) => {
                        if in_a != in_b {
                            return (in_a as u32) < (in_b as u32);
                        }
                        i = i + 1;
                    },
                }
            },
        }
    }
}

/// The text does not hold the character.
pub open spec fn free_of(part: Seq<char>, sep: char) -> bool {
    forall|i: int| 0 <= i < part.len() ==> part[i] != sep
}

/// No part holds the character.
pub open spec fn all_free_of(parts: Seq<Seq<char>>, sep: char) -> bool {
    forall|i: int| 0 <= i < parts.len() ==> free_of(#[trigger] parts[i], sep)
}

/// A text has at least one piece, and no piece holds the separator.
pub proof fn lemma_split_parts_free(s: Seq<char>, sep: char)
    ensures
        split_spec(s, sep).len() >= 1,
        all_free_of(split_spec(s, sep), sep),
    decreases s.len(),
{
    if s.len() > 0 {
        lemma_split_parts_free(s.drop_last(), sep);
        let rest = split_spec(s.drop_last(), sep);
        let parts = split_spec(s, sep);
        assert forall|i: int| 0 <= i < parts.len() implies free_of(#[trigger] parts[i], sep) by {
            if i < rest.len() - 1 {
                assert(parts[i] == rest[i]);
            } else if s.last() == sep {
                if i < rest.len() {
                    assert(parts[i] == rest[i]);
                }
            } else {
                assert(free_of(rest[rest.len() - 1], sep));
            }
        }
    }
}

/// A text without the separator is its own single piece.
pub proof fn lemma_split_free(p: Seq<char>, sep: char)
    requires
        free_of(p, sep),
    ensures
        split_spec(p, sep) == seq![p],
    decreases p.len(),
{
    if p.len() > 0 {
        assert(p[p.len() - 1] != sep);
        lemma_split_free(p.drop_last(), sep);
        let rest = split_spec(p.drop_last(), sep);
        assert(rest.drop_last().push(rest.last().push(p.last())) =~= seq![p.drop_last().push(p.last())]);
        assert(p.drop_last().push(p.last()) =~= p);
    } else {
        assert(p =~= Seq::<char>::empty());
    }
}

/// A separator and a text without one, put behind a text, add one piece.
pub proof fn lemma_split_append(x: Seq<char>, y: Seq<char>, sep: char)
    requires
        free_of(y, sep),
    ensures
        split_spec(x + seq![sep] + y, sep) == split_spec(x, sep).push(y),
    decreases y.len(),
{
    let whole = x + seq![sep] + y;
    if y.len() == 0 {
        assert(whole.drop_last() =~= x);
        assert(whole.last() == sep);
        assert(y =~= Seq::<char>::empty());
    } else {
        let front = y.drop_last();
        let c = y.last();
        assert(y[y.len() - 1] != sep);
        lemma_split_append(x, front, sep);
        assert(whole.drop_last() =~= x + seq![sep] + front);
        assert(whole.last() == c);
        let rest = split_spec(x, sep).push(front);
        assert(rest.drop_last() =~= split_spec(x, sep));
        assert(front.push(c) =~= y);
    }
}

/// Texts without the separator, joined and split again, are the same texts.
pub proof fn lemma_split_join(parts: Seq<Seq<char>>, sep: char)
    requires
        parts.len() >= 1,
        all_free_of(parts, sep),
    ensures
        split_spec(join_spec(parts, seq![sep]), sep) == parts,
    decreases parts.len(),
{
    if parts.len() == 1 {
        assert(free_of(parts[0], sep));
        lemma_split_free(parts[0], sep);
        assert(seq![parts[0]] =~= parts);
    } else {
        let front = parts.drop_last();
        assert forall|i: int| 0 <= i < front.len() implies free_of(#[trigger] front[i], sep) by {
            assert(free_of(parts[i], sep));
        }
        assert(free_of(parts[parts.len() - 1], sep));
        lemma_split_join(front, sep);
        lemma_split_append(join_spec(front, seq![sep]), parts.last(), sep);
        assert(front.push(parts.last()) =~= parts);
    }
}

} // verus!
