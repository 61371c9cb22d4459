//! Layout of a data page: ring links, the link of the free-slot chain, the
//! occupancy bitmap and the row slots.
//!
//! ```text
//! 0..4    prev: u32
//! 4..8    next: u32
//! 8..12   next_free: u32
//! 12..14  count: u16        occupied slots
//! 16..80  used[16]: u32     bit b of word w is slot 32 * w + b
//! 80..    slots, `size` bytes each
//! ```

use vstd::prelude::*;
use crate::layout::{DATA_HEAD, MAX_SLOT_BS, PAGE_SIZE, get16, get32, le16, le32, put16, put32, same_outside};

verus! {

pub const DP_PREV: usize = 0;

pub const DP_NEXT: usize = 4;

pub const DP_NEXT_FREE: usize = 8;

pub const DP_COUNT: usize = 12;

pub const USED_OFF: usize = 16;

pub open spec fn dp_prev(s: Seq<u8>) -> u32 {
    le32(s, DP_PREV as int)
}

pub open spec fn dp_next(s: Seq<u8>) -> u32 {
    le32(s, DP_NEXT as int)
}

pub open spec fn dp_next_free(s: Seq<u8>) -> u32 {
    le32(s, DP_NEXT_FREE as int)
}

pub open spec fn dp_count(s: Seq<u8>) -> u16 {
    le16(s, DP_COUNT as int)
}

/// Word `w` of the occupancy bitmap.
pub open spec fn used_word(s: Seq<u8>, w: int) -> u32 {
    le32(s, USED_OFF + 4 * w)
}

/// Whether bit `b` of `x` is set.
pub open spec fn bit(x: u32, b: u32) -> bool {
    (x >> b) & 1 == 1
}

/// Whether slot `k` of a data page is occupied.
pub open spec fn slot_used(s: Seq<u8>, k: int) -> bool {
    bit(used_word(s, k / 32), (k % 32) as u32)
}

/// The occupied slots below `cap`.
pub open spec fn used_slots(s: Seq<u8>, cap: int) -> Set<int> {
    Set::new(|k: int| 0 <= k < cap && slot_used(s, k))
}

#[verifier::spinoff_prover]
pub proof fn lemma_used_slots_finite(s: Seq<u8>, cap: int)
    requires
        0 <= cap,
    ensures
        used_slots(s, cap).finite(),
        used_slots(s, cap).len() <= cap,
{
    let r = vstd::set_lib::set_int_range(0, cap);
    vstd::set_lib::lemma_int_range(0, cap);
    assert(used_slots(s, cap).subset_of(r));
    vstd::set_lib::lemma_len_subset(used_slots(s, cap), r);
}

/// Setting bit `b` sets that bit and keeps every other.
#[verifier::spinoff_prover]
pub proof fn lemma_bit_set(x: u32, b: u32, c: u32)
    requires
        b < 32,
        c < 32,
    ensures
        bit(x | (1u32 << b), c) == (c == b || bit(x, c)),
{
    assert(((x | (1u32 << b)) >> c) & 1 == 1 <==> (c == b || (x >> c) & 1 == 1)) by (bit_vector)
        requires
            b < 32,
            c < 32,
    ;
}

/// Clearing bit `b` clears that bit and keeps every other.
#[verifier::spinoff_prover]
pub proof fn lemma_bit_clear(x: u32, b: u32, c: u32)
    requires
        b < 32,
        c < 32,
    ensures
        bit(x & !(1u32 << b), c) == (c != b && bit(x, c)),
{
    assert(((x & !(1u32 << b)) >> c) & 1 == 1 <==> (c != b && (x >> c) & 1 == 1)) by (bit_vector)
        requires
            b < 32,
            c < 32,
    ;
}

/// A word with all of its 32 bits set is the all-ones word.
#[verifier::spinoff_prover]
pub proof fn lemma_all_bits(x: u32)
    requires
        forall|c: u32| c < 32 ==> bit(x, c),
    ensures
        x == 0xFFFF_FFFFu32,
{
    assert(bit(x, 0) && bit(x, 1) && bit(x, 2) && bit(x, 3) && bit(x, 4) && bit(x, 5) && bit(x, 6) && bit(x, 7));
    assert(bit(x, 8) && bit(x, 9) && bit(x, 10) && bit(x, 11) && bit(x, 12) && bit(x, 13) && bit(x, 14) && bit(x, 15));
    assert(bit(x, 16) && bit(x, 17) && bit(x, 18) && bit(x, 19) && bit(x, 20) && bit(x, 21) && bit(x, 22) && bit(x, 23));
    assert(bit(x, 24) && bit(x, 25) && bit(x, 26) && bit(x, 27) && bit(x, 28) && bit(x, 29) && bit(x, 30) && bit(x, 31));
    assert(x == 0xFFFF_FFFFu32) by (bit_vector)
        requires
            (x >> 0) & 1 == 1, (x >> 1) & 1 == 1, (x >> 2) & 1 == 1, (x >> 3) & 1 == 1,
            (x >> 4) & 1 == 1, (x >> 5) & 1 == 1, (x >> 6) & 1 == 1, (x >> 7) & 1 == 1,
            (x >> 8) & 1 == 1, (x >> 9) & 1 == 1, (x >> 10) & 1 == 1, (x >> 11) & 1 == 1,
            (x >> 12) & 1 == 1, (x >> 13) & 1 == 1, (x >> 14) & 1 == 1, (x >> 15) & 1 == 1,
            (x >> 16) & 1 == 1, (x >> 17) & 1 == 1, (x >> 18) & 1 == 1, (x >> 19) & 1 == 1,
            (x >> 20) & 1 == 1, (x >> 21) & 1 == 1, (x >> 22) & 1 == 1, (x >> 23) & 1 == 1,
            (x >> 24) & 1 == 1, (x >> 25) & 1 == 1, (x >> 26) & 1 == 1, (x >> 27) & 1 == 1,
            (x >> 28) & 1 == 1, (x >> 29) & 1 == 1, (x >> 30) & 1 == 1, (x >> 31) & 1 == 1,
    ;
}

/// What a write to a data page leaves alone when it stays inside `[lo, hi)`.
#[verifier::spinoff_prover]
pub proof fn lemma_data_frame(a: Seq<u8>, b: Seq<u8>, lo: int, hi: int)
    requires
        a.len() == PAGE_SIZE,
        b.len() == PAGE_SIZE,
        same_outside(a, b, lo, hi),
        0 <= lo <= hi,
    ensures
        lo >= DP_PREV + 4 ==> dp_prev(b) == dp_prev(a),
        lo >= DP_NEXT + 4 || hi <= DP_NEXT ==> dp_next(b) == dp_next(a),
        lo >= DP_NEXT_FREE + 4 || hi <= DP_NEXT_FREE ==> dp_next_free(b) == dp_next_free(a),
        lo >= DP_COUNT + 2 || hi <= DP_COUNT ==> dp_count(b) == dp_count(a),
        forall|w: int|
            0 <= w < MAX_SLOT_BS && (hi <= USED_OFF + 4 * w || lo >= USED_OFF + 4 * w + 4)
                ==> #[trigger] used_word(b, w) == used_word(a, w),
{
}

/// Pages with the same bitmap words have the same occupied slots.
#[verifier::spinoff_prover]
pub proof fn lemma_same_words(a: Seq<u8>, b: Seq<u8>, cap: int)
    requires
        0 <= cap <= 32 * MAX_SLOT_BS,
        forall|w: int| 0 <= w < MAX_SLOT_BS ==> #[trigger] used_word(b, w) == used_word(a, w),
    ensures
        used_slots(b, cap) == used_slots(a, cap),
{
    assert forall|k: int| 0 <= k < cap implies slot_used(b, k) == slot_used(a, k) by {
        assert(used_word(b, k / 32) == used_word(a, k / 32));
    }
    assert(used_slots(b, cap) =~= used_slots(a, cap));
}

#[verifier::spinoff_prover]
pub fn read_used_word(page: &Vec<u8>, w: usize) -> (r: u32)
    requires
        page.len() == PAGE_SIZE,
        w < MAX_SLOT_BS,
    ensures
        r == used_word(page@, w as int),
{
    get32(page, USED_OFF + 4 * w)
}

#[verifier::spinoff_prover]
pub fn write_used_word(page: &mut Vec<u8>, w: usize, v: u32)
    requires
        old(page).len() == PAGE_SIZE,
        w < MAX_SLOT_BS,
    ensures
        final(page).len() == PAGE_SIZE,
        used_word(final(page)@, w as int) == v,
        forall|u: int| 0 <= u < MAX_SLOT_BS && u != w ==> #[trigger] used_word(final(page)@, u) == used_word(old(page)@, u),
        dp_prev(final(page)@) == dp_prev(old(page)@),
        dp_next(final(page)@) == dp_next(old(page)@),
        dp_next_free(final(page)@) == dp_next_free(old(page)@),
        dp_count(final(page)@) == dp_count(old(page)@),
        same_outside(old(page)@, final(page)@, 0, DATA_HEAD as int),
{
    put32(page, USED_OFF + 4 * w, v);
    proof {
        lemma_data_frame(old(page)@, page@, USED_OFF + 4 * w, USED_OFF + 4 * w + 4);
    }
}

#[verifier::spinoff_prover]
pub fn read_count(page: &Vec<u8>) -> (r: u16)
    requires
        page.len() == PAGE_SIZE,
    ensures
        r == dp_count(page@),
{
    get16(page, DP_COUNT)
}

#[verifier::spinoff_prover]
pub fn write_count(page: &mut Vec<u8>, v: u16)
    requires
        old(page).len() == PAGE_SIZE,
    ensures
        final(page).len() == PAGE_SIZE,
        dp_count(final(page)@) == v,
        forall|u: int| 0 <= u < MAX_SLOT_BS ==> #[trigger] used_word(final(page)@, u) == used_word(old(page)@, u),
        dp_prev(final(page)@) == dp_prev(old(page)@),
        dp_next(final(page)@) == dp_next(old(page)@),
        dp_next_free(final(page)@) == dp_next_free(old(page)@),
        same_outside(old(page)@, final(page)@, 0, DATA_HEAD as int),
{
    put16(page, DP_COUNT, v);
    proof {
        lemma_data_frame(old(page)@, page@, DP_COUNT as int, DP_COUNT + 2);
    }
}

/// Reads one of the three links at byte offset `off` (0, 4 or 8).
#[verifier::spinoff_prover]
pub fn read_link(page: &Vec<u8>, off: usize) -> (r: u32)
    requires
        page.len() == PAGE_SIZE,
        off + 4 <= PAGE_SIZE,
    ensures
        r == le32(page@, off as int),
{
    get32(page, off)
}

#[verifier::spinoff_prover]
pub fn write_prev(page: &mut Vec<u8>, v: u32)
    requires
        old(page).len() == PAGE_SIZE,
    ensures
        final(page).len() == PAGE_SIZE,
        dp_prev(final(page)@) == v,
        same_outside(old(page)@, final(page)@, DP_PREV as int, DP_PREV + 4),
        forall|u: int| 0 <= u < MAX_SLOT_BS ==> #[trigger] used_word(final(page)@, u) == used_word(old(page)@, u),
        dp_count(final(page)@) == dp_count(old(page)@),
        dp_next(final(page)@) == dp_next(old(page)@),
        dp_next_free(final(page)@) == dp_next_free(old(page)@),
{
    put32(page, DP_PREV, v);
    proof {
        lemma_data_frame(old(page)@, page@, DP_PREV as int, DP_PREV + 4);
    }
}

#[verifier::spinoff_prover]
pub fn write_next(page: &mut Vec<u8>, v: u32)
    requires
        old(page).len() == PAGE_SIZE,
    ensures
        final(page).len() == PAGE_SIZE,
        dp_next(final(page)@) == v,
        same_outside(old(page)@, final(page)@, DP_NEXT as int, DP_NEXT + 4),
        forall|u: int| 0 <= u < MAX_SLOT_BS ==> #[trigger] used_word(final(page)@, u) == used_word(old(page)@, u),
        dp_count(final(page)@) == dp_count(old(page)@),
        dp_prev(final(page)@) == dp_prev(old(page)@),
        dp_next_free(final(page)@) == dp_next_free(old(page)@),
{
    put32(page, DP_NEXT, v);
    proof {
        lemma_data_frame(old(page)@, page@, DP_NEXT as int, DP_NEXT + 4);
    }
}

#[verifier::spinoff_prover]
pub fn write_next_free(page: &mut Vec<u8>, v: u32)
    requires
        old(page).len() == PAGE_SIZE,
    ensures
        final(page).len() == PAGE_SIZE,
        dp_next_free(final(page)@) == v,
        same_outside(old(page)@, final(page)@, DP_NEXT_FREE as int, DP_NEXT_FREE + 4),
        forall|u: int| 0 <= u < MAX_SLOT_BS ==> #[trigger] used_word(final(page)@, u) == used_word(old(page)@, u),
        dp_count(final(page)@) == dp_count(old(page)@),
        dp_prev(final(page)@) == dp_prev(old(page)@),
        dp_next(final(page)@) == dp_next(old(page)@),
{
    put32(page, DP_NEXT_FREE, v);
    proof {
        lemma_data_frame(old(page)@, page@, DP_NEXT_FREE as int, DP_NEXT_FREE + 4);
    }
}

/// Lays out an empty data page with the given ring links.
#[verifier::spinoff_prover]
pub fn init_data_page(page: &mut Vec<u8>, prev: u32, next: u32)
    requires
        old(page).len() == PAGE_SIZE,
    ensures
        final(page).len() == PAGE_SIZE,
        dp_prev(final(page)@) == prev,
        dp_next(final(page)@) == next,
        dp_next_free(final(page)@) == crate::layout::NONE,
        dp_count(final(page)@) == 0,
        forall|u: int| 0 <= u < MAX_SLOT_BS ==> #[trigger] used_word(final(page)@, u) == 0,
        same_outside(old(page)@, final(page)@, 0, DATA_HEAD as int),
{
    write_prev(page, prev);
    write_next(page, next);
    write_next_free(page, crate::layout::NONE);
    write_count(page, 0);
    let mut w: usize = 0;
    while w < MAX_SLOT_BS
        invariant
            w <= MAX_SLOT_BS,
            page.len() == PAGE_SIZE,
            dp_prev(page@) == prev,
            dp_next(page@) == next,
            dp_next_free(page@) == crate::layout::NONE,
            dp_count(page@) == 0,
            forall|u: int| 0 <= u < w ==> #[trigger] used_word(page@, u) == 0,
            same_outside(old(page)@, page@, 0, DATA_HEAD as int),
        decreases MAX_SLOT_BS - w,
    {
        write_used_word(page, w, 0);
        w += 1;
    }
}

} // verus!
