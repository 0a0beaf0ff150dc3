//! Replays by what they hold: a replay that was read twice is used once.

use vstd::prelude::*;

verus! {

/// The SHA-256 hash of the bytes, written as text.
pub uninterp spec fn sha256_hex(bytes: Seq<u8>) -> Seq<char>;

/// Calls `sha256::digest` on the bytes. The hash depends on the bytes alone;
/// the contract gives it its name and says nothing of what it looks like.
#[verifier::external_body]
fn content_digest(bytes: &Vec<u8>) -> (hash: String)
    ensures
        hash@ == sha256_hex(bytes@),
{
    sha256::digest(bytes.as_slice())
}

/// A replay as far as the library looks at it: where it was read and the hash
/// of what it holds.
#[derive(Debug, Clone, PartialEq, Eq)]
pub struct Replay {
    pub file_path: String,
    pub content_hash: String,
}

/// The hashes of the replays.
pub open spec fn hashes_of(replays: Seq<Replay>) -> Seq<Seq<char>> {
    Seq::new(replays.len(), |i: int| replays[i].content_hash@)
}

/// No text before place `i` is the text at place `i`.
pub open spec fn first_of_its_kind(texts: Seq<Seq<char>>, i: int) -> bool {
    forall|k: int| 0 <= k < i ==> #[trigger] texts[k] != texts[i]
}

/// The places before `n` whose text stands at no earlier place, in order.
pub open spec fn firsts_upto(texts: Seq<Seq<char>>, n: int) -> Seq<int>
    decreases n,
{
    if n <= 0 {
        Seq::empty()
    } else if first_of_its_kind(texts, n - 1) {
        firsts_upto(texts, n - 1).push(n - 1)
    } else {
        firsts_upto(texts, n - 1)
    }
}

/// Places as mathematical integers.
pub open spec fn places_of(v: Seq<usize>) -> Seq<int> {
    Seq::new(v.len(), |i: int| v[i] as int)
}

impl Replay {
    /// The replay that holds `bytes` and was read at `path`.
    pub fn new(bytes: Vec<u8>, path: &str) -> (replay: Replay)
        ensures
            replay.file_path@ == path@,
            replay.content_hash@ == sha256_hex(bytes@),
    {
        let content_hash = content_digest(&bytes);
        Replay { file_path: String::from_str(path), content_hash }
    }
}

/// The places of the replays that are to be used: each replay whose content
/// no earlier replay holds.
pub fn unseen_replays(replays: &Vec<Replay>) -> (unseen: Vec<usize>)
    ensures
        places_of(unseen@) == firsts_upto(hashes_of(replays@), replays.len() as int),
{
    let ghost hashes = hashes_of(replays@);
    let mut unseen: Vec<usize> = Vec::new();
    let mut i: usize = 0;
    assert(places_of(unseen@) =~= firsts_upto(hashes, 0));
    while i < replays.len()
        invariant
            i <= replays.len(),
            hashes == hashes_of(replays@),
            places_of(unseen@) == firsts_upto(hashes, i as int),
        decreases replays.len() - i,
    {
        let mut first = true;
        let mut k: usize = 0;
        while k < i
            invariant
                k <= i < replays.len(),
                hashes == hashes_of(replays@),
                first == (forall|t: int| 0 <= t < k ==> #[trigger] hashes[t] != hashes[i as int]),
            decreases i - k,
        {
            if replays[k].content_hash == replays[i].content_hash {
                assert(hashes[k as int] == hashes[i as int]);
                first = false;
            }
            k = k + 1;
        }
        if first {
            let ghost before = places_of(unseen@);
            unseen.push(i);
            assert(places_of(unseen@) =~= before.push(i as int));
        }
        i = i + 1;
    }
    unseen
}

} // verus!
