//! File geometry and the byte-level primitives every page layout is built from.
//!
//! All multi-byte integers are stored little-endian. A page is a byte sequence of
//! exactly `PAGE_SIZE` bytes; the helpers here read and write fields at fixed
//! offsets and say precisely which bytes a write touches.

use vstd::prelude::*;

verus! {

/// Size of one page in bytes.
pub const PAGE_SIZE: usize = 8192;

/// Largest number of pages a database file may hold (64 GiB of 8 KiB pages).
pub const MAX_PAGE: usize = 8388608;

/// The "no page" sentinel used by every link field.
pub const NONE: u32 = 0xFFFF_FFFF;

/// The "no table" sentinel of a foreign-key reference.
pub const NO_TABLE: u8 = 0xFF;

/// Length of the format tag at the start of the meta page.
pub const MAGIC_LEN: usize = 16;

/// Capacity of the table directory.
pub const MAX_TABLE: usize = 32;

/// Table names are shorter than this many bytes.
pub const MAX_TABLE_NAME: usize = 28;

/// A table has fewer than this many columns.
pub const MAX_COL: usize = 64;

/// Column names are shorter than this many bytes.
pub const MAX_COL_NAME: usize = 24;

/// Smallest slot a data page hands out.
pub const MIN_SLOT_SIZE: usize = 16;

/// Number of 32-bit words in a data page's occupancy bitmap.
pub const MAX_SLOT_BS: usize = 16;

/// Bytes taken by the header of a data page.
pub const DATA_HEAD: usize = 80;

/// Largest record a data page can hold.
pub const MAX_DATA_BYTE: usize = 8112;

/// Slots per page never reach this bound, so a slot number fits in nine bits.
pub const MAX_SLOT: usize = 512;

/// The format tag, `pagedb format 01` in ASCII.
pub open spec fn magic_bytes() -> Seq<u8> {
    seq![112u8, 97u8, 103u8, 101u8, 100u8, 98u8, 32u8, 102u8, 111u8, 114u8, 109u8, 97u8, 116u8, 32u8, 48u8, 49u8]
}

/// The format tag as an owned buffer.
#[verifier::spinoff_prover]
pub fn magic() -> (m: Vec<u8>)
    ensures
        m@ == magic_bytes(),
{
    let m: Vec<u8> = vec![112u8, 97u8, 103u8, 101u8, 100u8, 98u8, 32u8, 102u8, 111u8, 114u8, 109u8, 97u8, 116u8, 32u8, 48u8, 49u8];
    assert(m@ =~= magic_bytes());
    m
}

/// The 16-bit little-endian integer stored at `off`.
pub open spec fn le16(s: Seq<u8>, off: int) -> u16 {
    (s[off] as int + 256 * (s[off + 1] as int)) as u16
}

/// The 32-bit little-endian integer stored at `off`.
pub open spec fn le32(s: Seq<u8>, off: int) -> u32 {
    (s[off] as int + 256 * (s[off + 1] as int) + 65536 * (s[off + 2] as int) + 16777216 * (
    s[off + 3] as int)) as u32
}

/// `b` agrees with `a` on every byte outside `[lo, hi)`.
pub open spec fn same_outside(a: Seq<u8>, b: Seq<u8>, lo: int, hi: int) -> bool {
    &&& a.len() == b.len()
    &&& forall|j: int| 0 <= j < a.len() && !(lo <= j < hi) ==> b[j] == a[j]
}

/// `b` agrees with `a` on every byte inside `[lo, hi)`.
pub open spec fn same_inside(a: Seq<u8>, b: Seq<u8>, lo: int, hi: int) -> bool {
    forall|j: int| lo <= j < hi ==> b[j] == a[j]
}

#[verifier::spinoff_prover]
pub fn get16(page: &Vec<u8>, off: usize) -> (r: u16)
    requires
        off + 2 <= page.len(),
    ensures
        r == le16(page@, off as int),
{
    let b0: u16 = page[off] as u16;
    let b1: u16 = page[off + 1] as u16;
    b0 + 256 * b1
}

#[verifier::spinoff_prover]
pub fn put16(page: &mut Vec<u8>, off: usize, v: u16)
    requires
        off + 2 <= old(page).len(),
    ensures
        le16(final(page)@, off as int) == v,
        same_outside(old(page)@, final(page)@, off as int, off + 2),
{
    page.set(off, (v % 256) as u8);
    page.set(off + 1, (v / 256) as u8);
}

#[verifier::spinoff_prover]
pub fn get32(page: &Vec<u8>, off: usize) -> (r: u32)
    requires
        off + 4 <= page.len(),
    ensures
        r == le32(page@, off as int),
{
    let b0: u32 = page[off] as u32;
    let b1: u32 = page[off + 1] as u32;
    let b2: u32 = page[off + 2] as u32;
    let b3: u32 = page[off + 3] as u32;
    b0 + 256 * b1 + 65536 * b2 + 16777216 * b3
}

#[verifier::spinoff_prover]
pub fn put32(page: &mut Vec<u8>, off: usize, v: u32)
    requires
        off + 4 <= old(page).len(),
    ensures
        le32(final(page)@, off as int) == v,
        same_outside(old(page)@, final(page)@, off as int, off + 4),
{
    page.set(off, (v % 256) as u8);
    page.set(off + 1, (v / 256 % 256) as u8);
    page.set(off + 2, (v / 65536 % 256) as u8);
    page.set(off + 3, (v / 16777216) as u8);
}

#[verifier::spinoff_prover]
pub fn put8(page: &mut Vec<u8>, off: usize, v: u8)
    requires
        off < old(page).len(),
    ensures
        final(page)@[off as int] == v,
        same_outside(old(page)@, final(page)@, off as int, off + 1),
{
    page.set(off, v);
}

/// Copies `len` bytes starting at `off` out of a page.
#[verifier::spinoff_prover]
pub fn get_bytes(page: &Vec<u8>, off: usize, len: usize) -> (r: Vec<u8>)
    requires
        off + len <= page.len(),
    ensures
        r@ == page@.subrange(off as int, off + len),
{
    let mut r: Vec<u8> = Vec::new();
    let mut i: usize = 0;
    while i < len
        invariant
            i <= len,
            off + len <= page.len(),
            r@ == page@.subrange(off as int, off + i),
        decreases len - i,
    {
        r.push(page[off + i]);
        i += 1;
        assert(r@ =~= page@.subrange(off as int, off + i));
    }
    r
}

/// Copies `src` into a page starting at `off`.
#[verifier::spinoff_prover]
pub fn put_bytes(page: &mut Vec<u8>, off: usize, src: &[u8])
    requires
        off + src.len() <= old(page).len(),
    ensures
        final(page)@.subrange(off as int, off + src.len()) == src@,
        same_outside(old(page)@, final(page)@, off as int, off + src.len()),
{
    let mut i: usize = 0;
    while i < src.len()
        invariant
            i <= src.len(),
            off + src.len() <= page.len(),
            page.len() == old(page).len(),
            forall|j: int| 0 <= j < i ==> page@[off + j] == src@[j],
            forall|j: int| 0 <= j < page.len() && !(off <= j < off + i) ==> page@[j] == old(page)@[j],
        decreases src.len() - i,
    {
        page.set(off + i, src[i]);
        i += 1;
    }
    assert(page@.subrange(off as int, off + src.len()) =~= src@);
}

/// Whether `len` bytes of a page starting at `off` equal `other`.
#[verifier::spinoff_prover]
pub fn bytes_match(page: &Vec<u8>, off: usize, len: usize, other: &[u8]) -> (r: bool)
    requires
        off + len <= page.len(),
    ensures
        r == (page@.subrange(off as int, off + len) == other@),
{
    if other.len() != len {
        assert(page@.subrange(off as int, off + len).len() == len);
        return false;
    }
    let mut i: usize = 0;
    while i < len
        invariant
            i <= len,
            other.len() == len,
            off + len <= page.len(),
            forall|j: int| 0 <= j < i ==> page@[off + j] == other@[j],
        decreases len - i,
    {
        if page[off + i] != other[i] {
            assert(page@.subrange(off as int, off + len)[i as int] != other@[i as int]);
            return false;
        }
        i += 1;
    }
    assert(page@.subrange(off as int, off + len) =~= other@);
    true
}

/// A page of `PAGE_SIZE` zero bytes.
#[verifier::spinoff_prover]
pub fn zero_page() -> (p: Vec<u8>)
    ensures
        p@ == Seq::new(PAGE_SIZE as nat, |i: int| 0u8),
{
    let mut p: Vec<u8> = Vec::new();
    let mut i: usize = 0;
    while i < PAGE_SIZE
        invariant
            i <= PAGE_SIZE,
            p@ == Seq::new(i as nat, |k: int| 0u8),
        decreases PAGE_SIZE - i,
    {
        p.push(0u8);
        i += 1;
        assert(p@ =~= Seq::new(i as nat, |k: int| 0u8));
    }
    p
}

} // verus!
