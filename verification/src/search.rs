//! Searching inside one node of an index.

use vstd::prelude::*;
use crate::key::{Rel, entry_rel, rank};
use crate::layout::{NONE, PAGE_SIZE};
use crate::node::{ENTRIES_OFF, Entry, EntryV, MAX_KEY, NodeV, fit, ip_count, ip_key_size, ip_leaf, lemma_slot_range, node_at, slot_size, storable};
use crate::shape::{rank_of, sorted};

verus! {

/// The entries of a node as the image stores them.
pub open spec fn evs(es: Seq<Entry>) -> Seq<EntryV> {
    Seq::new(es.len(), |i: int| es[i]@)
}

/// Every key has width `ks`.
pub open spec fn keyed(es: Seq<EntryV>, ks: int) -> bool {
    forall|i: int| 0 <= i < es.len() ==> (#[trigger] es[i]).key.len() == ks
}

/// A node read from a page has keys of its key width, no child in a leaf, and
/// fits on a page.
#[verifier::spinoff_prover]
pub proof fn lemma_decoded(s: Seq<u8>)
    requires
        s.len() == PAGE_SIZE,
    ensures
        storable(node_at(s)),
        keyed(node_at(s).entries, node_at(s).key_size as int),
{
    let nv = node_at(s);
    let ks = nv.key_size as int;
    assert forall|i: int| 0 <= i < nv.entries.len() implies (#[trigger] nv.entries[i]).key.len() == ks by {
        lemma_slot_range(i, fit(ks, nv.leaf), slot_size(ks, nv.leaf));
    }
}

/// Position of the first entry that ranks above `(key, rid)`.
#[verifier::spinoff_prover]
pub fn upper_bound(es: &Vec<Entry>, key: &[u8], rid: u32) -> (i: usize)
    requires
        sorted(evs(es@)),
        keyed(evs(es@), key@.len() as int),
    ensures
        i <= es@.len(),
        forall|j: int| 0 <= j < i ==> rank_of(#[trigger] evs(es@)[j]) <= rank(key@, rid),
        forall|j: int| i <= j < es@.len() ==> rank_of(#[trigger] evs(es@)[j]) > rank(key@, rid),
{
    let mut lo: usize = 0;
    let mut hi: usize = es.len();
    while lo < hi
        invariant
            lo <= hi <= es@.len(),
            sorted(evs(es@)),
            keyed(evs(es@), key@.len() as int),
            forall|j: int| 0 <= j < lo ==> rank_of(#[trigger] evs(es@)[j]) <= rank(key@, rid),
            forall|j: int| hi <= j < es@.len() ==> rank_of(#[trigger] evs(es@)[j]) > rank(key@, rid),
        decreases hi - lo,
    {
        let mid: usize = lo + (hi - lo) / 2;
        assert(evs(es@)[mid as int] == es@[mid as int]@);
        assert(evs(es@)[mid as int].key.len() == key@.len());
        match entry_rel(es[mid].key.as_slice(), es[mid].rid, key, rid) {
            Rel::Greater => {
                assert forall|j: int| mid <= j < es@.len() implies rank_of(#[trigger] evs(es@)[j]) > rank(key@, rid) by {
                    if j > mid {
                        assert(rank_of(evs(es@)[mid as int]) < rank_of(evs(es@)[j]));
                    }
                }
                hi = mid;
            },
            _ => {
                assert forall|j: int| 0 <= j < mid + 1 implies rank_of(#[trigger] evs(es@)[j]) <= rank(key@, rid) by {
                    if j < mid {
                        assert(rank_of(evs(es@)[j]) < rank_of(evs(es@)[mid as int]));
                    }
                }
                lo = mid + 1;
            },
        }
    }
    lo
}

/// Position of the first entry that does not rank below `(key, rid)`.
#[verifier::spinoff_prover]
pub fn lower_bound(es: &Vec<Entry>, key: &[u8], rid: u32) -> (i: usize)
    requires
        sorted(evs(es@)),
        keyed(evs(es@), key@.len() as int),
    ensures
        i <= es@.len(),
        forall|j: int| 0 <= j < i ==> rank_of(#[trigger] evs(es@)[j]) < rank(key@, rid),
        forall|j: int| i <= j < es@.len() ==> rank_of(#[trigger] evs(es@)[j]) >= rank(key@, rid),
{
    let mut lo: usize = 0;
    let mut hi: usize = es.len();
    while lo < hi
        invariant
            lo <= hi <= es@.len(),
            sorted(evs(es@)),
            keyed(evs(es@), key@.len() as int),
            forall|j: int| 0 <= j < lo ==> rank_of(#[trigger] evs(es@)[j]) < rank(key@, rid),
            forall|j: int| hi <= j < es@.len() ==> rank_of(#[trigger] evs(es@)[j]) >= rank(key@, rid),
        decreases hi - lo,
    {
        let mid: usize = lo + (hi - lo) / 2;
        assert(evs(es@)[mid as int] == es@[mid as int]@);
        assert(evs(es@)[mid as int].key.len() == key@.len());
        match entry_rel(es[mid].key.as_slice(), es[mid].rid, key, rid) {
            Rel::Less => {
                assert forall|j: int| 0 <= j < mid + 1 implies rank_of(#[trigger] evs(es@)[j]) < rank(key@, rid) by {
                    if j < mid {
                        assert(rank_of(evs(es@)[j]) < rank_of(evs(es@)[mid as int]));
                    }
                }
                lo = mid + 1;
            },
            _ => {
                assert forall|j: int| mid <= j < es@.len() implies rank_of(#[trigger] evs(es@)[j]) >= rank(key@, rid) by {
                    if j > mid {
                        assert(rank_of(evs(es@)[mid as int]) < rank_of(evs(es@)[j]));
                    }
                }
                hi = mid;
            },
        }
    }
    lo
}

/// Position of the child that holds `(key, rid)`: the last separator that does
/// not rank above it.
#[verifier::spinoff_prover]
pub fn child_for(es: &Vec<Entry>, key: &[u8], rid: u32) -> (i: usize)
    requires
        sorted(evs(es@)),
        keyed(evs(es@), key@.len() as int),
        es@.len() > 0,
        rank_of(evs(es@)[0]) <= rank(key@, rid),
    ensures
        i < es@.len(),
        rank_of(evs(es@)[i as int]) <= rank(key@, rid),
        i + 1 < es@.len() ==> rank(key@, rid) < rank_of(evs(es@)[i + 1]),
{
    let u: usize = upper_bound(es, key, rid);
    assert(u > 0) by {
        if u == 0 {
            assert(rank_of(evs(es@)[0]) > rank(key@, rid));
        }
    }
    u - 1
}

} // verus!
