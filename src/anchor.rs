use vstd::prelude::*;

use crate::codec::encode_entry;
use crate::entry::{strings_view, Entry, EntryView};
use crate::store::{hash_entry, EntryHash, Store, StoreView};

verus! {

/// The address of the anchor named by `path`: a function of the path alone.
pub open spec fn anchor_of(path: Seq<Seq<char>>) -> Seq<u8> {
    encode_entry(EntryView::Path(path))
}

fn copy_path(path: &Vec<String>) -> (r: Vec<String>)
    ensures
        strings_view(r@) == strings_view(path@),
{
    let mut r: Vec<String> = Vec::new();
    let mut i: usize = 0;
    while i < path.len()
        invariant
            i <= path@.len(),
            strings_view(r@) == strings_view(path@.take(i as int)),
        decreases path@.len() - i,
    {
        let c = path[i].clone();
        let ghost prev = r@;
        r.push(c);
        assert(strings_view(r@) =~= strings_view(prev).push(path@[i as int]@));
        assert(path@.take(i + 1) =~= path@.take(i as int).push(path@[i as int]));
        assert(strings_view(path@.take(i + 1)) =~= strings_view(path@.take(i as int)).push(path@[i as int]@));
        i = i + 1;
    }
    assert(path@.take(i as int) =~= path@);
    r
}

/// The address of the anchor for `path`, computed without touching the store.
pub fn anchor_hash(path: &Vec<String>) -> (r: EntryHash)
    ensures
        r@ == anchor_of(strings_view(path@)),
{
    hash_entry(&Entry::Path(copy_path(path)))
}

/// Makes sure the anchor for `path` is stored, and returns its address; safe to repeat.
pub fn ensure_anchor(store: &mut Store, path: &Vec<String>) -> (r: EntryHash)
    requires
        old(store)@.wf(),
    ensures
        r@ == anchor_of(strings_view(path@)),
        final(store)@ == old(store)@.put(r@),
        final(store)@.wf(),
{
    store.put(&Entry::Path(copy_path(path)))
}

/// An anchor's address depends on its path alone: equal paths give equal addresses.
pub proof fn lemma_anchor_deterministic(p: Seq<Seq<char>>, q: Seq<Seq<char>>)
    requires
        p == q,
    ensures
        anchor_of(p) == anchor_of(q),
{
}

/// Ensuring an anchor twice leaves the store as ensuring it once, holding its record
/// exactly once.
pub proof fn lemma_ensure_anchor_idempotent(s: StoreView, p: Seq<Seq<char>>)
    requires
        s.wf(),
    ensures
        s.put(anchor_of(p)).put(anchor_of(p)) == s.put(anchor_of(p)),
        s.put(anchor_of(p)).wf(),
        exists|i: int|
            0 <= i < s.put(anchor_of(p)).entries.len() && s.put(anchor_of(p)).entries[i]
                == anchor_of(p),
        forall|i: int, j: int|
            0 <= i < s.put(anchor_of(p)).entries.len() && 0 <= j < s.put(
                anchor_of(p),
            ).entries.len() && s.put(anchor_of(p)).entries[i] == anchor_of(p) && s.put(
                anchor_of(p),
            ).entries[j] == anchor_of(p) ==> i == j,
{
    let h = anchor_of(p);
    let t = s.put(h);
    if !s.entries.contains(h) {
        assert(t.entries.last() == h);
        assert forall|i: int| 0 <= i < t.entries.len() - 1 implies t.entries[i] != h by {
            assert(t.entries[i] == s.entries[i]);
        }
    }
    assert(t.entries.contains(h));
}

} // verus!
