//! Looking a term up in several indexes and keeping what each of them refers
//! to, by index and term.

use vstd::prelude::*;
use crate::text::texts;
use crate::tokens::section_separator;

verus! {

/// What an index holds for one term.
#[derive(Debug, Clone, PartialEq, Eq)]
pub struct IndexEntry {
    pub term: String,
    pub references: Vec<String>,
}

/// A named index from terms to what they refer to.
#[derive(Debug, Clone, PartialEq, Eq)]
pub struct Index {
    pub name: String,
    pub hash_entries: Vec<IndexEntry>,
}

/// What was found for one term in one index: the key names the index and the
/// term, and no reference stands twice.
#[derive(Debug, Clone, PartialEq, Eq)]
pub struct SearchResult {
    pub key: String,
    pub references: Vec<String>,
}

/// What the searches so far have found.
#[derive(Debug)]
pub struct Search {
    pub results: Vec<SearchResult>,
}

/// An index as mathematical values: its name, and its terms each with what it
/// refers to.
pub struct IndexId {
    pub name: Seq<char>,
    pub entries: Seq<(Seq<char>, Seq<Seq<char>>)>,
}

/// A result as mathematical values.
pub struct ResultId {
    pub key: Seq<char>,
    pub references: Seq<Seq<char>>,
}

/// The entries that a vector holds.
pub open spec fn entries_of(v: Seq<IndexEntry>) -> Seq<(Seq<char>, Seq<Seq<char>>)> {
    Seq::new(v.len(), |i: int| (v[i].term@, texts(v[i].references@)))
}

impl View for Index {
    type V = IndexId;

    open spec fn view(&self) -> IndexId {
        IndexId { name: self.name@, entries: entries_of(self.hash_entries@) }
    }
}

impl View for SearchResult {
    type V = ResultId;

    open spec fn view(&self) -> ResultId {
        ResultId { key: self.key@, references: texts(self.references@) }
    }
}

/// The results that a vector holds.
pub open spec fn results_of(v: Seq<SearchResult>) -> Seq<ResultId> {
    Seq::new(v.len(), |i: int| v[i]@)
}

/// The indexes that a vector refers to.
pub open spec fn indexes_of(v: Seq<&Index>) -> Seq<IndexId> {
    Seq::new(v.len(), |i: int| v[i]@)
}

/// The key of what an index holds for a term: the name of the index, the
/// section separator, the term.
pub open spec fn search_key(name: Seq<char>, term: Seq<char>) -> Seq<char> {
    name + section_separator() + term
}

/// What the index refers to under the term; `None` where it does not hold the
/// term.
pub open spec fn index_entry(entries: Seq<(Seq<char>, Seq<Seq<char>>)>, term: Seq<char>) -> Option<
    Seq<Seq<char>>,
>
    decreases entries.len(),
{
    if entries.len() == 0 {
        None
    } else if entries[0].0 == term {
        Some(entries[0].1)
    } else {
        index_entry(entries.drop_first(), term)
    }
}

/// The references with those of `more` that they do not hold put behind them,
/// each once.
pub open spec fn merged(have: Seq<Seq<char>>, more: Seq<Seq<char>>) -> Seq<Seq<char>>
    decreases more.len(),
{
    if more.len() == 0 {
        have
    } else {
        let front = merged(have, more.drop_last());
        if front.contains(more.last()) {
            front
        } else {
            front.push(more.last())
        }
    }
}

/// The place of the first result with the key; the number of results where
/// none has it.
pub open spec fn result_place(results: Seq<ResultId>, key: Seq<char>) -> int
    decreases results.len(),
{
    if results.len() == 0 || results[0].key == key {
        0
    } else {
        1 + result_place(results.drop_first(), key)
    }
}

/// The results once the term was looked up in one index: where the index
/// holds the term, what it refers to is added to the result of the index and
/// the term, or makes a new result.
pub open spec fn searched_one(results: Seq<ResultId>, index: IndexId, term: Seq<char>) -> Seq<
    ResultId,
> {
    match index_entry(index.entries, term) {
        None => results,
        Some(references) => {
            let key = search_key(index.name, term);
            let p = result_place(results, key);
            if 0 <= p < results.len() {
                results.update(
                    p,
                    ResultId { key: results[p].key, references: merged(results[p].references, references) },
                )
            } else {
                results.push(ResultId { key, references: merged(Seq::empty(), references) })
            }
        },
    }
}

/// The results once the term was looked up in the first `n` indexes, one
/// after the other.
pub open spec fn searched(results: Seq<ResultId>, indexes: Seq<IndexId>, term: Seq<char>, n: int) -> Seq<
    ResultId,
>
    decreases n,
{
    if n <= 0 {
        results
    } else {
        searched_one(searched(results, indexes, term, n - 1), indexes[n - 1], term)
    }
}

/// Whether the texts hold the text.
fn holds_text(all: &Vec<String>, t: &String) -> (r: bool)
    ensures
        r == texts(all@).contains(t@),
{
    let mut i: usize = 0;
    while i < all.len()
        invariant
            i <= all.len(),
            forall|j: int| 0 <= j < i ==> #[trigger] texts(all@)[j] != t@,
        decreases all.len() - i,
    {
        if all[i] == *t {
            assert(texts(all@)[i as int] == t@);
            return true;
        }
        i = i + 1;
    }
    false
}

/// Puts the references of `more` that `have` does not hold behind those of
/// `have`.
fn merge_references(have: &mut Vec<String>, more: &Vec<String>)
    ensures
        texts(final(have)@) == merged(texts(old(have)@), texts(more@)),
{
    let ghost start = texts(have@);
    let ghost added = texts(more@);
    let mut i: usize = 0;
    assert(added.take(0) =~= Seq::<Seq<char>>::empty());
    while i < more.len()
        invariant
            i <= more.len(),
            added == texts(more@),
            texts(have@) == merged(start, added.take(i as int)),
        decreases more.len() - i,
    {
        assert(added.take(i + 1).drop_last() =~= added.take(i as int));
        assert(added.take(i + 1).last() == more[i as int]@);
        if !holds_text(have, &more[i]) {
            let ghost before = have@;
            have.push(more[i].clone());
            assert(texts(have@) =~= texts(before).push(more[i as int]@)) by {
                assert forall|j: int| 0 <= j < have.len() implies #[trigger] texts(have@)[j]
                    == texts(before).push(more[i as int]@)[j] by {
                    if j < before.len() {
                        assert(texts(before)[j] == before[j]@);
                    }
                }
            }
        }
        i = i + 1;
    }
    assert(added.take(i as int) =~= added);
}

/// The place of the first entry of the term.
fn find_entry(entries: &Vec<IndexEntry>, term: &String) -> (r: Option<usize>)
    ensures
        match r {
            Some(i) => i < entries.len() && index_entry(entries_of(entries@), term@) == Some(
                texts(entries[i as int].references@),
            ),
            None => index_entry(entries_of(entries@), term@) is None,
        },
{
    let ghost all = entries_of(entries@);
    let mut i: usize = 0;
    assert(all.skip(0) =~= all);
    while i < entries.len()
        invariant
            i <= entries.len(),
            all == entries_of(entries@),
            index_entry(all, term@) == index_entry(all.skip(i as int), term@),
        decreases entries.len() - i,
    {
        assert(all.skip(i as int).drop_first() =~= all.skip(i + 1));
        assert(all.skip(i as int)[0] == all[i as int]);
        if entries[i].term == *term {
            return Some(i);
        }
        i = i + 1;
    }
    None
}

/// The place of the first result with the key.
fn find_result(results: &Vec<SearchResult>, key: &String) -> (p: usize)
    ensures
        p == result_place(results_of(results@), key@),
        p <= results.len(),
{
    let ghost all = results_of(results@);
    let mut p: usize = 0;
    assert(all.skip(0) =~= all);
    while p < results.len() && !(results[p].key == *key)
        invariant
            p <= results.len(),
            all == results_of(results@),
            result_place(all, key@) == p + result_place(all.skip(p as int), key@),
        decreases results.len() - p,
    {
        assert(all.skip(p as int).drop_first() =~= all.skip(p + 1));
        assert(all.skip(p as int)[0] == all[p as int]);
        p = p + 1;
    }
    proof {
        if p < results.len() {
            assert(all.skip(p as int)[0] == all[p as int]);
        }
    }
    p
}

impl Search {
    /// A search that has found nothing.
    pub fn new() -> (search: Search)
        ensures
            search.results@.len() == 0,
    {
        Search { results: Vec::new() }
    }

    /// Looks the term up in every index, one after the other, and keeps what
    /// each index refers to under the key of the index and the term.
    pub fn search(&mut self, term: String, indexes: &Vec<&Index>)
        ensures
            results_of(final(self).results@) == searched(
                results_of(old(self).results@),
                indexes_of(indexes@),
                term@,
                indexes.len() as int,
            ),
    {
        let ghost start = results_of(self.results@);
        let ghost all = indexes_of(indexes@);
        let mut n: usize = 0;
        while n < indexes.len()
            invariant
                n <= indexes.len(),
                all == indexes_of(indexes@),
                results_of(self.results@) == searched(start, all, term@, n as int),
            decreases indexes.len() - n,
        {
            let index = indexes[n];
            let ghost before = results_of(self.results@);
            assert(all[n as int] == index@);
            match find_entry(&index.hash_entries, &term) {
                Some(e) => {
                    proof {
                        reveal_strlit("__");
                        assert("__"@ =~= section_separator());
                    }
                    let mut results_key = index.name.clone();
                    results_key.append("__");
                    results_key.append(term.as_str());
                    let p = find_result(&self.results, &results_key);
                    if p < self.results.len() {
                        let ghost held = self.results@;
                        merge_references(
                            &mut self.results[p].references,
                            &index.hash_entries[e].references,
                        );
                        assert(results_of(self.results@) =~= searched_one(before, index@, term@)) by {
                            assert(self.results@.len() == held.len());
                            assert forall|j: int| 0 <= j < held.len() && j != p implies self.results@[j]
                                == held[j] by {}
                            assert(self.results@[p as int].key == held[p as int].key);
                        }
                    } else {
                        let mut references: Vec<String> = Vec::new();
                        merge_references(&mut references, &index.hash_entries[e].references);
                        assert(texts(Seq::<String>::empty()) =~= Seq::<Seq<char>>::empty());
                        self.results.push(SearchResult { key: results_key, references });
                        assert(results_of(self.results@) =~= searched_one(before, index@, term@));
                    }
                },
                None => {},
            }
            n = n + 1;
        }
    }
}

/// The results hold the reference under the key.
pub open spec fn held(results: Seq<ResultId>, key: Seq<char>, reference: Seq<char>) -> bool {
    exists|i: int|
        0 <= i < results.len() && (#[trigger] results[i]).key == key && results[i].references.contains(
            reference,
        )
}

/// The index refers to the reference under the term, and `key` is the key of
/// the index and the term.
pub open spec fn refers(index: IndexId, term: Seq<char>, key: Seq<char>, reference: Seq<char>) -> bool {
    match index_entry(index.entries, term) {
        Some(references) => key == search_key(index.name, term) && references.contains(reference),
        None => false,
    }
}

/// Merged references hold what either side held, and nothing else.
pub proof fn lemma_merged_holds(have: Seq<Seq<char>>, more: Seq<Seq<char>>, x: Seq<char>)
    ensures
        merged(have, more).contains(x) <==> have.contains(x) || more.contains(x),
        have.len() <= merged(have, more).len(),
        forall|i: int| 0 <= i < have.len() ==> merged(have, more)[i] == have[i],
    decreases more.len(),
{
    if more.len() > 0 {
        let front = merged(have, more.drop_last());
        lemma_merged_holds(have, more.drop_last(), x);
        let last = more.last();
        if more.contains(x) {
            let i = choose|i: int| 0 <= i < more.len() && more[i] == x;
            if i < more.len() - 1 {
                assert(more.drop_last()[i] == x);
            }
        }
        if more.drop_last().contains(x) {
            let i = choose|i: int| 0 <= i < more.drop_last().len() && more.drop_last()[i] == x;
            assert(more[i] == x);
        }
        assert(more[more.len() - 1] == last);
        if !front.contains(last) {
            let out = front.push(last);
            assert(out[out.len() - 1] == last);
            if front.contains(x) {
                let i = choose|i: int| 0 <= i < front.len() && front[i] == x;
                assert(out[i] == x);
            }
            if out.contains(x) {
                let i = choose|i: int| 0 <= i < out.len() && out[i] == x;
                if i < front.len() {
                    assert(front[i] == x);
                }
            }
        }
    }
}

/// The place that `result_place` gives is the first with the key.
pub proof fn lemma_result_place(results: Seq<ResultId>, key: Seq<char>)
    ensures
        0 <= result_place(results, key) <= results.len(),
        result_place(results, key) < results.len() ==> results[result_place(results, key)].key
            == key,
        forall|i: int| 0 <= i < result_place(results, key) ==> (#[trigger] results[i]).key != key,
    decreases results.len(),
{
    if !(results.len() == 0 || results[0].key == key) {
        let rest = results.drop_first();
        lemma_result_place(rest, key);
        assert forall|i: int| 0 <= i < result_place(results, key) implies (
        #[trigger] results[i]).key != key by {
            if i > 0 {
                assert(rest[i - 1].key != key);
            }
        }
        if result_place(results, key) < results.len() {
            assert(rest[result_place(rest, key)] == results[result_place(results, key)]);
        }
    }
}

/// Once the term was looked up in an index, the results hold what they held
/// and what the index refers to under the term, and nothing else.
pub proof fn law_search_one(
    results: Seq<ResultId>,
    index: IndexId,
    term: Seq<char>,
    key: Seq<char>,
    reference: Seq<char>,
)
    ensures
        held(searched_one(results, index, term), key, reference) <==> held(results, key, reference)
            || refers(index, term, key, reference),
{
    let out = searched_one(results, index, term);
    match index_entry(index.entries, term) {
        None => {},
        Some(references) => {
            let own = search_key(index.name, term);
            let p = result_place(results, own);
            lemma_result_place(results, own);
            if 0 <= p < results.len() {
                lemma_merged_holds(results[p].references, references, reference);
                if held(results, key, reference) {
                    let i = choose|i: int|
                        0 <= i < results.len() && (#[trigger] results[i]).key == key
                            && results[i].references.contains(reference);
                    assert(out[i].key == key && out[i].references.contains(reference));
                }
                if refers(index, term, key, reference) {
                    assert(out[p].key == key && out[p].references.contains(reference));
                }
                if held(out, key, reference) {
                    let i = choose|i: int|
                        0 <= i < out.len() && (#[trigger] out[i]).key == key
                            && out[i].references.contains(reference);
                    if i != p {
                        assert(results[i].key == key && results[i].references.contains(reference));
                    } else if results[p].references.contains(reference) {
                        assert(results[p].key == key);
                    }
                }
            } else {
                lemma_merged_holds(Seq::empty(), references, reference);
                assert(!Seq::<Seq<char>>::empty().contains(reference));
                let n = results.len() as int;
                assert(out[n].key == own);
                if held(results, key, reference) {
                    let i = choose|i: int|
                        0 <= i < results.len() && (#[trigger] results[i]).key == key
                            && results[i].references.contains(reference);
                    assert(out[i].key == key && out[i].references.contains(reference));
                }
                if refers(index, term, key, reference) {
                    assert(out[n].key == key && out[n].references.contains(reference));
                }
                if held(out, key, reference) {
                    let i = choose|i: int|
                        0 <= i < out.len() && (#[trigger] out[i]).key == key
                            && out[i].references.contains(reference);
                    if i < n {
                        assert(results[i].key == key && results[i].references.contains(reference));
                    }
                }
            }
        },
    }
}

/// Once the term was looked up in the indexes, the results hold what they
/// held and what each index refers to under the term, and nothing else.
pub proof fn law_search_finds(
    results: Seq<ResultId>,
    indexes: Seq<IndexId>,
    term: Seq<char>,
    n: int,
    key: Seq<char>,
    reference: Seq<char>,
)
    requires
        0 <= n <= indexes.len(),
    ensures
        held(searched(results, indexes, term, n), key, reference) <==> held(results, key, reference)
            || exists|k: int| 0 <= k < n && refers(#[trigger] indexes[k], term, key, reference),
    decreases n,
{
    if n > 0 {
        law_search_finds(results, indexes, term, n - 1, key, reference);
        law_search_one(searched(results, indexes, term, n - 1), indexes[n - 1], term, key, reference);
        if exists|k: int| 0 <= k < n && refers(#[trigger] indexes[k], term, key, reference) {
            let k = choose|k: int| 0 <= k < n && refers(#[trigger] indexes[k], term, key, reference);
            if k < n - 1 {
                assert(refers(indexes[k], term, key, reference));
            }
        }
        if exists|k: int| 0 <= k < n - 1 && refers(#[trigger] indexes[k], term, key, reference) {
            let k = choose|k: int|
                0 <= k < n - 1 && refers(#[trigger] indexes[k], term, key, reference);
            assert(refers(indexes[k], term, key, reference));
        }
    }
}

} // verus!
