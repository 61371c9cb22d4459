//! Layout of an index page, one node of a B+-tree.
//!
//! ```text
//! 0..4    prev: u32        previous leaf of the ring (leaves only)
//! 4..8    next: u32        next leaf of the ring (leaves only)
//! 8..10   count: u16       entries in use
//! 10..12  cap: u16         entries the node may hold
//! 12..14  key_size: u16
//! 14..16  slot_size: u16   key_size + 4 in a leaf, key_size + 8 otherwise
//! 16      leaf: u8
//! 20..    entries, slot_size bytes each, sorted:
//!           leaf:      key, rid: u32
//!           internal:  key, child: u32, rid: u32
//! ```
//!
//! An internal entry is a separator `(key, rid)` and the child that holds the
//! entries from that separator up to the next one.

use vstd::prelude::*;
use crate::layout::{NONE, PAGE_SIZE, get16, get32, get_bytes, le16, le32, put16, put32, put8, put_bytes, same_inside, same_outside};

verus! {

pub const IP_PREV: usize = 0;

pub const IP_NEXT: usize = 4;

pub const IP_COUNT: usize = 8;

pub const IP_CAP: usize = 10;

pub const IP_KEY_SIZE: usize = 12;

pub const IP_SLOT_SIZE: usize = 14;

pub const IP_LEAF: usize = 16;

pub const ENTRIES_OFF: usize = 20;

/// Widest key an index stores.
pub const MAX_KEY: usize = 255;

/// One entry of a node. In a leaf `child` is `NONE`.
#[derive(Debug, Clone, PartialEq, Eq)]
pub struct Entry {
    pub key: Vec<u8>,
    pub rid: u32,
    pub child: u32,
}

pub struct EntryV {
    pub key: Seq<u8>,
    pub rid: u32,
    pub child: u32,
}

impl View for Entry {
    type V = EntryV;

    open spec fn view(&self) -> EntryV {
        EntryV { key: self.key@, rid: self.rid, child: self.child }
    }
}

/// An index page read out of the image.
#[derive(Debug, Clone, PartialEq, Eq)]
pub struct IndexPage {
    pub prev: u32,
    pub next: u32,
    pub leaf: bool,
    pub cap: u16,
    pub key_size: u16,
    pub entries: Vec<Entry>,
}

pub struct NodeV {
    pub prev: u32,
    pub next: u32,
    pub leaf: bool,
    pub cap: u16,
    pub key_size: u16,
    pub entries: Seq<EntryV>,
}

impl View for IndexPage {
    type V = NodeV;

    open spec fn view(&self) -> NodeV {
        NodeV {
            prev: self.prev,
            next: self.next,
            leaf: self.leaf,
            cap: self.cap,
            key_size: self.key_size,
            entries: Seq::new(self.entries@.len(), |i: int| self.entries@[i]@),
        }
    }
}

/// Bytes one entry takes.
pub open spec fn slot_size(ks: int, leaf: bool) -> int {
    if leaf {
        ks + 4
    } else {
        ks + 8
    }
}

/// Entries that fit on a page.
pub open spec fn fit(ks: int, leaf: bool) -> int {
    (PAGE_SIZE - ENTRIES_OFF) / slot_size(ks, leaf)
}

pub open spec fn ip_leaf(s: Seq<u8>) -> bool {
    s[IP_LEAF as int] != 0
}

/// The key width; a stored width beyond the maximum reads as the maximum.
pub open spec fn ip_key_size(s: Seq<u8>) -> u16 {
    let k = le16(s, IP_KEY_SIZE as int);
    if k <= MAX_KEY {
        k
    } else {
        MAX_KEY as u16
    }
}

/// The entry count; a stored count beyond what fits reads as a full page.
pub open spec fn ip_count(s: Seq<u8>) -> int {
    let n = le16(s, IP_COUNT as int) as int;
    let f = fit(ip_key_size(s) as int, ip_leaf(s));
    if n <= f {
        n
    } else {
        f
    }
}

/// Entry `i` of a page whose entries have key width `ks`.
pub open spec fn entry_in(s: Seq<u8>, leaf: bool, ks: int, i: int) -> EntryV {
    let off = ENTRIES_OFF + i * slot_size(ks, leaf);
    EntryV {
        key: s.subrange(off, off + ks),
        rid: if leaf {
            le32(s, off + ks)
        } else {
            le32(s, off + ks + 4)
        },
        child: if leaf {
            NONE
        } else {
            le32(s, off + ks)
        },
    }
}

/// The node stored in `s`.
pub open spec fn node_at(s: Seq<u8>) -> NodeV {
    NodeV {
        prev: le32(s, IP_PREV as int),
        next: le32(s, IP_NEXT as int),
        leaf: ip_leaf(s),
        cap: le16(s, IP_CAP as int),
        key_size: ip_key_size(s),
        entries: Seq::new(ip_count(s) as nat, |i: int| entry_in(s, ip_leaf(s), ip_key_size(s) as int, i)),
    }
}

/// What [`store_node`] asks of a node: keys of the node's width, no child in a
/// leaf, and no more entries than fit on a page.
pub open spec fn storable(n: NodeV) -> bool {
    &&& n.key_size <= MAX_KEY
    &&& n.entries.len() <= fit(n.key_size as int, n.leaf)
    &&& forall|i: int| 0 <= i < n.entries.len() ==> (#[trigger] n.entries[i]).key.len() == n.key_size
    &&& n.leaf ==> forall|i: int| 0 <= i < n.entries.len() ==> (#[trigger] n.entries[i]).child == NONE
}

pub proof fn lemma_slot_range(i: int, n: int, slot: int)
    by (nonlinear_arith)
    requires
        0 <= i < n,
        0 < slot,
        n <= (PAGE_SIZE - ENTRIES_OFF) / slot,
    ensures
        0 <= i * slot,
        i * slot + slot <= n * slot,
        n * slot <= PAGE_SIZE - ENTRIES_OFF,
        (i + 1) * slot == i * slot + slot,
{
}

pub proof fn lemma_slots_apart(i: int, j: int, slot: int)
    by (nonlinear_arith)
    requires
        0 <= i < j,
        0 < slot,
    ensures
        i * slot + slot <= j * slot,
        0 <= i * slot,
{
}

#[verifier::spinoff_prover]
pub proof fn lemma_entry_same(a: Seq<u8>, b: Seq<u8>, leaf: bool, ks: int, i: int)
    requires
        a.len() == PAGE_SIZE,
        b.len() == PAGE_SIZE,
        0 <= ks <= MAX_KEY,
        0 <= i < fit(ks, leaf),
        same_inside(a, b, ENTRIES_OFF + i * slot_size(ks, leaf), ENTRIES_OFF + i * slot_size(ks, leaf) + slot_size(ks, leaf)),
    ensures
        entry_in(b, leaf, ks, i) == entry_in(a, leaf, ks, i),
{
    lemma_slot_range(i, fit(ks, leaf), slot_size(ks, leaf));
    assert(entry_in(b, leaf, ks, i).key =~= entry_in(a, leaf, ks, i).key);
}

#[verifier::spinoff_prover]
pub fn read_entry(page: &Vec<u8>, leaf: bool, ks: usize, i: usize) -> (e: Entry)
    requires
        page.len() == PAGE_SIZE,
        ks <= MAX_KEY,
        i < fit(ks as int, leaf),
    ensures
        e@ == entry_in(page@, leaf, ks as int, i as int),
{
    let slot: usize = if leaf { ks + 4 } else { ks + 8 };
    proof {
        lemma_slot_range(i as int, fit(ks as int, leaf), slot as int);
    }
    let off: usize = ENTRIES_OFF + i * slot;
    if leaf {
        Entry { key: get_bytes(page, off, ks), rid: get32(page, off + ks), child: NONE }
    } else {
        Entry { key: get_bytes(page, off, ks), rid: get32(page, off + ks + 4), child: get32(page, off + ks) }
    }
}

#[verifier::spinoff_prover]
pub fn write_entry(page: &mut Vec<u8>, leaf: bool, ks: usize, i: usize, e: &Entry)
    requires
        old(page).len() == PAGE_SIZE,
        ks <= MAX_KEY,
        i < fit(ks as int, leaf),
        e.key.len() == ks,
        leaf ==> e.child == NONE,
    ensures
        final(page).len() == PAGE_SIZE,
        entry_in(final(page)@, leaf, ks as int, i as int) == e@,
        same_outside(
            old(page)@,
            final(page)@,
            ENTRIES_OFF + i * slot_size(ks as int, leaf),
            ENTRIES_OFF + i * slot_size(ks as int, leaf) + slot_size(ks as int, leaf),
        ),
{
    let slot: usize = if leaf { ks + 4 } else { ks + 8 };
    proof {
        lemma_slot_range(i as int, fit(ks as int, leaf), slot as int);
    }
    let off: usize = ENTRIES_OFF + i * slot;
    put_bytes(page, off, e.key.as_slice());
    if leaf {
        put32(page, off + ks, e.rid);
    } else {
        put32(page, off + ks, e.child);
        put32(page, off + ks + 4, e.rid);
    }
    proof {
        assert(page@.subrange(off as int, off + ks) =~= e.key@);
    }
}

/// Reads a whole node.
#[verifier::spinoff_prover]
pub fn load_node(page: &Vec<u8>) -> (n: IndexPage)
    requires
        page.len() == PAGE_SIZE,
    ensures
        n@ == node_at(page@),
        n.key_size <= MAX_KEY,
        n.entries.len() <= fit(n.key_size as int, n.leaf),
{
    let leaf: bool = page[IP_LEAF] != 0;
    let k: u16 = get16(page, IP_KEY_SIZE);
    let ks: u16 = if k as usize <= MAX_KEY { k } else { MAX_KEY as u16 };
    let slot: usize = if leaf { ks as usize + 4 } else { ks as usize + 8 };
    let f: usize = (PAGE_SIZE - ENTRIES_OFF) / slot;
    let c: usize = get16(page, IP_COUNT) as usize;
    let count: usize = if c <= f { c } else { f };
    let mut entries: Vec<Entry> = Vec::new();
    let mut i: usize = 0;
    while i < count
        invariant
            i <= count,
            count == ip_count(page@),
            count <= fit(ks as int, leaf),
            ks <= MAX_KEY,
            page.len() == PAGE_SIZE,
            entries@.len() == i,
            forall|j: int| 0 <= j < i ==> (#[trigger] entries@[j])@ == entry_in(page@, leaf, ks as int, j),
        decreases count - i,
    {
        entries.push(read_entry(page, leaf, ks as usize, i));
        i += 1;
    }
    let n = IndexPage { prev: get32(page, IP_PREV), next: get32(page, IP_NEXT), leaf, cap: get16(page, IP_CAP), key_size: ks, entries };
    assert(n@.entries =~= node_at(page@).entries);
    n
}

/// Writes a whole node.
#[verifier::spinoff_prover]
pub fn store_node(page: &mut Vec<u8>, n: &IndexPage)
    requires
        old(page).len() == PAGE_SIZE,
        storable(n@),
    ensures
        final(page).len() == PAGE_SIZE,
        node_at(final(page)@) == n@,
{
    let leaf: bool = n.leaf;
    let ks: usize = n.key_size as usize;
    let slot: usize = if leaf { ks + 4 } else { ks + 8 };
    put32(page, IP_PREV, n.prev);
    put32(page, IP_NEXT, n.next);
    put16(page, IP_COUNT, n.entries.len() as u16);
    put16(page, IP_CAP, n.cap);
    put16(page, IP_KEY_SIZE, n.key_size);
    put16(page, IP_SLOT_SIZE, slot as u16);
    put8(page, IP_LEAF, if leaf { 1 } else { 0 });
    let ghost head = page@;
    let count: usize = n.entries.len();
    let mut i: usize = 0;
    while i < count
        invariant
            i <= count,
            count == n.entries.len(),
            count <= fit(ks as int, leaf),
            ks == n.key_size,
            leaf == n.leaf,
            storable(n@),
            slot == slot_size(ks as int, leaf),
            page.len() == PAGE_SIZE,
            same_inside(head, page@, 0, ENTRIES_OFF as int),
            forall|j: int| 0 <= j < i ==> entry_in(page@, leaf, ks as int, j) == (#[trigger] n.entries@[j])@,
        decreases count - i,
    {
        let ghost before = page@;
        assert(n@.entries[i as int] == n.entries@[i as int]@);
        write_entry(page, leaf, ks, i, &n.entries[i]);
        proof {
            lemma_slot_range(i as int, fit(ks as int, leaf), slot as int);
            assert forall|j: int| 0 <= j < i implies entry_in(page@, leaf, ks as int, j) == (#[trigger] n.entries@[j])@ by {
                lemma_slots_apart(j, i as int, slot as int);
                lemma_entry_same(before, page@, leaf, ks as int, j);
            }
        }
        i += 1;
    }
    proof {
        assert(ip_leaf(page@) == leaf);
        assert(ip_key_size(page@) == n.key_size);
        assert(ip_count(page@) == count);
        assert(node_at(page@).entries =~= n@.entries);
    }
}

} // verus!
