//! Row slots: the data pages of a table, their occupancy bitmaps and the chain
//! of pages that still have a free slot.

use vstd::prelude::*;
use crate::shape::tight;
use crate::db::{Db, lemma_entries_frame, loose_kept, next_page};
use crate::layout::{DATA_HEAD, MAX_PAGE, MAX_SLOT, MAX_SLOT_BS, NONE, PAGE_SIZE, same_outside};
use crate::data::{bit, dp_count, dp_next, dp_next_free, dp_prev, init_data_page, lemma_all_bits, lemma_bit_clear, lemma_bit_set, lemma_same_words, lemma_used_slots_finite, read_count, read_link, read_used_word, slot_used, used_slots, used_word, write_count, write_next, write_next_free, write_used_word, DP_NEXT, DP_NEXT_FREE};
use crate::meta::{FIRST_FREE_OFF, tables};
use crate::schema::Rid;
use crate::shape::{Heap, Kind, Relax, Shape, apart, chain_ok_at, child_ok, data_ok, dir_ok_at, foreign_ok_at, image_inv, page_ok, pager_inv, ring_ok_at, root_ok_at, structure_inv, table_of, table_ok, unique_ok_at, free_ok_at};
use crate::table::{TablePage, TablePageV, write_table_links};
use crate::frames::{catalog_same, heap_same, heap_touch, lemma_heap_touch, nodes_same};

verus! {

/// The rows of the table whose table-meta page is `t`: the occupied slots of
/// its data pages.
pub open spec fn rows_of(pg: Seq<Seq<u8>>, sh: Shape, t: nat) -> Set<Rid> {
    Set::new(
        |r: Rid|
            r.spec_page() < pg.len() && (sh.kinds[r.spec_page() as int] matches Kind::Data { table, .. } && table == t)
                && r.spec_slot() < table_of(pg, t as int).cap && slot_used(pg[r.spec_page() as int], r.spec_slot() as int),
    )
}

/// The lowest free slot of a data page.
pub open spec fn lowest_free(page: Seq<u8>, k: int) -> bool {
    &&& !slot_used(page, k)
    &&& forall|j: int| 0 <= j < k ==> slot_used(page, j)
}

#[verifier::spinoff_prover]
pub proof fn lemma_has_free_slot(page: Seq<u8>, cap: int)
    requires
        0 <= cap,
        used_slots(page, cap).len() < cap,
    ensures
        exists|k: int| 0 <= k < cap && !slot_used(page, k),
{
    if forall|k: int| 0 <= k < cap ==> slot_used(page, k) {
        vstd::set_lib::lemma_int_range(0, cap);
        assert(used_slots(page, cap) =~= vstd::set_lib::set_int_range(0, cap));
    }
}

/// Finds the lowest free slot of a data page that has one below `cap`.
#[verifier::spinoff_prover]
pub fn first_clear(page: &Vec<u8>, cap: usize) -> (k: usize)
    requires
        page.len() == PAGE_SIZE,
        cap <= MAX_SLOT,
        exists|j: int| 0 <= j < cap && !slot_used(page@, j),
    ensures
        k < cap,
        lowest_free(page@, k as int),
{
    let ghost j0 = choose|j: int| 0 <= j < cap && !slot_used(page@, j);
    let mut w: usize = 0;
    while w < MAX_SLOT_BS
        invariant
            w <= MAX_SLOT_BS,
            page.len() == PAGE_SIZE,
            0 <= j0 < cap <= MAX_SLOT,
            !slot_used(page@, j0),
            forall|j: int| 0 <= j < 32 * w ==> slot_used(page@, j),
        decreases MAX_SLOT_BS - w,
    {
        let x: u32 = read_used_word(page, w);
        if x != 0xFFFF_FFFFu32 {
            let mut b: u32 = 0;
            while b < 32
                invariant
                    b <= 32,
                    w < MAX_SLOT_BS,
                    x == used_word(page@, w as int),
                    x != 0xFFFF_FFFFu32,
                    0 <= j0 < cap <= MAX_SLOT,
                    !slot_used(page@, j0),
                    forall|j: int| 0 <= j < 32 * w ==> slot_used(page@, j),
                    forall|c: u32| c < b ==> bit(x, c),
                decreases 32 - b,
            {
                if (x >> b) & 1 == 0 {
                    let k: usize = w * 32 + b as usize;
                    proof {
                        assert(!slot_used(page@, k as int));
                        assert forall|j: int| 0 <= j < k implies slot_used(page@, j) by {
                            if j >= 32 * w {
                                assert(j / 32 == w);
                                assert(bit(x, (j % 32) as u32));
                            }
                        }
                        if k > j0 {
                            assert(slot_used(page@, j0));
                        }
                    }
                    return k;
                }
                proof {
                    assert((x >> b) & 1 == 0 || (x >> b) & 1 == 1) by (bit_vector);
                }
                b += 1;
            }
            proof {
                lemma_all_bits(x);
            }
        }
        proof {
            assert forall|j: int| 0 <= j < 32 * (w + 1) implies slot_used(page@, j) by {
                if j >= 32 * w {
                    assert(j / 32 == w);
                    assert forall|c: u32| c < 32 implies bit(0xFFFF_FFFFu32, c) by {
                        assert((0xFFFF_FFFFu32 >> c) & 1 == 1) by (bit_vector)
                            requires
                                c < 32,
                        ;
                    }
                    assert(bit(x, (j % 32) as u32));
                }
            }
        }
        w += 1;
    }
    proof {
        assert(slot_used(page@, j0));
    }
    0
}

/// Marks slot `k` of a data page as occupied.
#[verifier::spinoff_prover]
pub(crate) fn mark_slot(page: &mut Vec<u8>, k: usize, Ghost(cap): Ghost<int>)
    requires
        old(page).len() == PAGE_SIZE,
        k < cap <= MAX_SLOT,
        !slot_used(old(page)@, k as int),
    ensures
        final(page).len() == PAGE_SIZE,
        used_slots(final(page)@, cap) == used_slots(old(page)@, cap).insert(k as int),
        forall|j: int| 0 <= j < MAX_SLOT ==> slot_used(final(page)@, j) == (j == k || slot_used(old(page)@, j)),
        crate::data::dp_prev(final(page)@) == crate::data::dp_prev(old(page)@),
        crate::data::dp_next(final(page)@) == crate::data::dp_next(old(page)@),
        crate::data::dp_next_free(final(page)@) == crate::data::dp_next_free(old(page)@),
        dp_count(final(page)@) == dp_count(old(page)@),
        crate::layout::same_outside(old(page)@, final(page)@, 0, DATA_HEAD as int),
{
    let w: usize = k / 32;
    let b: u32 = (k % 32) as u32;
    let x: u32 = read_used_word(page, w);
    write_used_word(page, w, x | (1u32 << b));
    proof {
        assert forall|j: int| 0 <= j < MAX_SLOT implies slot_used(page@, j) == (j == k || slot_used(old(page)@, j)) by {
            if j / 32 == w {
                lemma_bit_set(x, b, (j % 32) as u32);
            } else {
                assert(used_word(page@, j / 32) == used_word(old(page)@, j / 32));
            }
        }
        assert(used_slots(page@, cap) =~= used_slots(old(page)@, cap).insert(k as int));
    }
}

/// Marks slot `k` of a data page as free.
#[verifier::spinoff_prover]
pub(crate) fn clear_slot(page: &mut Vec<u8>, k: usize, Ghost(cap): Ghost<int>)
    requires
        old(page).len() == PAGE_SIZE,
        k < cap <= MAX_SLOT,
    ensures
        final(page).len() == PAGE_SIZE,
        used_slots(final(page)@, cap) == used_slots(old(page)@, cap).remove(k as int),
        forall|j: int| 0 <= j < MAX_SLOT ==> slot_used(final(page)@, j) == (j != k && slot_used(old(page)@, j)),
        crate::data::dp_prev(final(page)@) == crate::data::dp_prev(old(page)@),
        crate::data::dp_next(final(page)@) == crate::data::dp_next(old(page)@),
        crate::data::dp_next_free(final(page)@) == crate::data::dp_next_free(old(page)@),
        dp_count(final(page)@) == dp_count(old(page)@),
        crate::layout::same_outside(old(page)@, final(page)@, 0, DATA_HEAD as int),
{
    let w: usize = k / 32;
    let b: u32 = (k % 32) as u32;
    let x: u32 = read_used_word(page, w);
    write_used_word(page, w, x & !(1u32 << b));
    proof {
        assert forall|j: int| 0 <= j < MAX_SLOT implies slot_used(page@, j) == (j != k && slot_used(old(page)@, j)) by {
            if j / 32 == w {
                lemma_bit_clear(x, b, (j % 32) as u32);
            } else {
                assert(used_word(page@, j / 32) == used_word(old(page)@, j / 32));
            }
        }
        assert(used_slots(page@, cap) =~= used_slots(old(page)@, cap).remove(k as int));
    }
}

pub proof fn lemma_cap_bounds(size: int)
    by (nonlinear_arith)
    requires
        16 <= size <= 8112,
    ensures
        1 <= 8112int / size <= 507,
{
}

/// A bitmap of zero words has no occupied slot.
#[verifier::spinoff_prover]
pub proof fn lemma_blank_bitmap(page: Seq<u8>, cap: int)
    requires
        0 <= cap <= MAX_SLOT,
        forall|w: int| 0 <= w < MAX_SLOT_BS ==> #[trigger] used_word(page, w) == 0,
    ensures
        forall|k: int| 0 <= k < cap ==> !slot_used(page, k),
        used_slots(page, cap) == Set::<int>::empty(),
        used_slots(page, cap).len() == 0,
{
    assert forall|k: int| 0 <= k < cap implies !slot_used(page, k) by {
        let b = (k % 32) as u32;
        assert(used_word(page, k / 32) == 0);
        assert((0u32 >> b) & 1 == 0) by (bit_vector);
    }
    assert(used_slots(page, cap) =~= Set::<int>::empty());
}

/// What an operation on the rows of table `t` leaves alone: the table
/// directory, every column catalog, every index, and the rows of every other
/// table.
#[verifier::opaque]
pub open spec fn heap_step(pg: Seq<Seq<u8>>, sh: Shape, pg2: Seq<Seq<u8>>, sh2: Shape, t: nat) -> bool {
    &&& catalog_same(pg, sh, pg2, sh2)
    &&& nodes_same(pg, sh, pg2, sh2)
    &&& forall|u: nat| u != t && 0 < u < pg.len() && sh.kinds[u as int] is Table ==> #[trigger] rows_of(pg2, sh2, u) == rows_of(pg, sh, u)
}

/// Two operations on the rows of table `t` in a row leave alone what each of
/// them does.
#[verifier::spinoff_prover]
pub proof fn lemma_heap_step_twice(pg: Seq<Seq<u8>>, sh: Shape, pg1: Seq<Seq<u8>>, sh1: Shape, pg2: Seq<Seq<u8>>, sh2: Shape, t: nat)
    requires
        heap_step(pg, sh, pg1, sh1, t),
        heap_step(pg1, sh1, pg2, sh2, t),
    ensures
        heap_step(pg, sh, pg2, sh2, t),
{
    reveal(heap_step);
    assert forall|u: nat| u != t && 0 < u < pg.len() && sh.kinds[u as int] is Table implies #[trigger] rows_of(pg2, sh2, u) == rows_of(pg, sh, u) by {
        assert(rows_of(pg1, sh1, u) == rows_of(pg, sh, u));
        assert(sh1.kinds[u as int] is Table);
    }
}

/// How the pages change when slot `k` of the data page `d` of table `t` is
/// taken: the bit of the slot is set and the count is one more; a page that
/// became full leaves the chain of pages with a free slot, whose head it was.
/// The rows of the page and every other page keep their bytes.
#[verifier::opaque]
pub open spec fn slot_taken(pg: Seq<Seq<u8>>, pg2: Seq<Seq<u8>>, t: int, d: int, k: int) -> bool {
    let tv = table_of(pg, t);
    &&& pg2.len() == pg.len()
    &&& forall|p: int| 0 <= p < pg.len() && p != d && p != t ==> #[trigger] pg2[p] == pg[p]
    &&& same_outside(pg[d], pg2[d], 0, DATA_HEAD as int)
    &&& dp_prev(pg2[d]) == dp_prev(pg[d])
    &&& dp_next(pg2[d]) == dp_next(pg[d])
    &&& dp_next_free(pg2[d]) == dp_next_free(pg[d])
    &&& dp_count(pg2[d]) == dp_count(pg[d]) + 1
    &&& forall|j: int| 0 <= j < MAX_SLOT ==> #[trigger] slot_used(pg2[d], j) == (j == k || slot_used(pg[d], j))
    &&& table_of(pg2, t) == (TablePageV {
        first_free: if dp_count(pg[d]) + 1 == tv.cap {
            dp_next_free(pg[d])
        } else {
            tv.first_free
        },
        ..tv
    })
}

/// How the pages change when slot `k` of the data page `d` of table `t` is
/// freed: the bit of the slot is cleared and the count is one less; a page that
/// was full becomes the head of the chain of pages with a free slot, before
/// the former head. The rows of the page and every other page keep their bytes.
#[verifier::opaque]
pub open spec fn slot_freed(pg: Seq<Seq<u8>>, pg2: Seq<Seq<u8>>, t: int, d: int, k: int) -> bool {
    let tv = table_of(pg, t);
    let full = dp_count(pg[d]) == tv.cap;
    &&& pg2.len() == pg.len()
    &&& forall|p: int| 0 <= p < pg.len() && p != d && p != t ==> #[trigger] pg2[p] == pg[p]
    &&& same_outside(pg[d], pg2[d], 0, DATA_HEAD as int)
    &&& dp_prev(pg2[d]) == dp_prev(pg[d])
    &&& dp_next(pg2[d]) == dp_next(pg[d])
    &&& dp_next_free(pg2[d]) == (if full {
        tv.first_free
    } else {
        dp_next_free(pg[d])
    })
    &&& dp_count(pg2[d]) == dp_count(pg[d]) - 1
    &&& forall|j: int| 0 <= j < MAX_SLOT ==> #[trigger] slot_used(pg2[d], j) == (j != k && slot_used(pg[d], j))
    &&& table_of(pg2, t) == (TablePageV {
        first_free: if full {
            d as u32
        } else {
            tv.first_free
        },
        ..tv
    })
}

/// How the pages change when the table `t`, none of whose pages has a free
/// slot, gets the empty data page `d`: the page is laid out behind the last
/// page of the ring and is the only page of the chain of pages with a free
/// slot. What lies behind the header of the page keeps its bytes; so does every
/// other page but for the link of the last page of the ring and the head of
/// the free list.
#[verifier::opaque]
pub open spec fn page_joined(pg: Seq<Seq<u8>>, pg2: Seq<Seq<u8>>, t: int, d: int) -> bool {
    let tv = table_of(pg, t);
    let tail = tv.prev as int;
    &&& pg.len() <= pg2.len() <= pg.len() + 1
    &&& 0 < d < pg2.len()
    &&& d != t
    &&& d != tail
    &&& forall|p: int| 0 < p < pg.len() && p != d && p != t && p != tail ==> #[trigger] pg2[p] == pg[p]
    &&& same_outside(pg[0], pg2[0], FIRST_FREE_OFF as int, FIRST_FREE_OFF + 4)
    &&& d < pg.len() ==> same_outside(pg[d], pg2[d], 0, DATA_HEAD as int)
    &&& dp_prev(pg2[d]) == tv.prev
    &&& dp_next(pg2[d]) == t
    &&& dp_next_free(pg2[d]) == NONE
    &&& dp_count(pg2[d]) == 0
    &&& forall|j: int| 0 <= j < MAX_SLOT ==> !#[trigger] slot_used(pg2[d], j)
    &&& tail != t ==> dp_next(pg2[tail]) == d && same_outside(pg[tail], pg2[tail], DP_NEXT as int, DP_NEXT + 4)
    &&& table_of(pg2, t) == (TablePageV {
        prev: d as u32,
        next: if tail == t {
            d as u32
        } else {
            tv.next
        },
        first_free: d as u32,
        ..tv
    })
}

/// How the pages change when the first row of a new data page `d` of table `t`
/// is allocated: the page joins the table as [`page_joined`] says and its slot
/// 0 is taken as [`slot_taken`] says.
#[verifier::opaque]
pub open spec fn page_added(pg: Seq<Seq<u8>>, pg2: Seq<Seq<u8>>, t: int, d: int) -> bool {
    let tv = table_of(pg, t);
    let tail = tv.prev as int;
    &&& pg.len() <= pg2.len() <= pg.len() + 1
    &&& 0 < d < pg2.len()
    &&& forall|p: int| 0 < p < pg.len() && p != d && p != t && p != tail ==> #[trigger] pg2[p] == pg[p]
    &&& same_outside(pg[0], pg2[0], FIRST_FREE_OFF as int, FIRST_FREE_OFF + 4)
    &&& d < pg.len() ==> same_outside(pg[d], pg2[d], 0, DATA_HEAD as int)
    &&& dp_prev(pg2[d]) == tv.prev
    &&& dp_next(pg2[d]) == t
    &&& dp_next_free(pg2[d]) == NONE
    &&& dp_count(pg2[d]) == 1
    &&& forall|j: int| 0 <= j < MAX_SLOT ==> #[trigger] slot_used(pg2[d], j) == (j == 0)
    &&& tail != t ==> dp_next(pg2[tail]) == d && same_outside(pg[tail], pg2[tail], DP_NEXT as int, DP_NEXT + 4)
    &&& table_of(pg2, t) == (TablePageV {
        prev: d as u32,
        next: if tail == t {
            d as u32
        } else {
            tv.next
        },
        first_free: if tv.cap == 1 {
            NONE
        } else {
            d as u32
        },
        ..tv
    })
}

/// A page that joined a table and whose slot 0 was then taken was added with
/// its first row.
#[verifier::spinoff_prover]
pub proof fn lemma_page_added(pg: Seq<Seq<u8>>, pg1: Seq<Seq<u8>>, pg2: Seq<Seq<u8>>, t: int, d: int)
    requires
        page_joined(pg, pg1, t, d),
        slot_taken(pg1, pg2, t, d, 0),
        0 < t < pg.len(),
        0 <= table_of(pg, t).prev < pg.len(),
        d < pg.len() ==> pg[d].len() == PAGE_SIZE,
    ensures
        page_added(pg, pg2, t, d),
{
    reveal(page_joined);
    reveal(slot_taken);
    reveal(page_added);
    let tail = table_of(pg, t).prev as int;
    assert(pg2[0] == pg1[0]);
    if tail != t {
        assert(pg2[tail] == pg1[tail]);
    }
    assert forall|p: int| 0 < p < pg.len() && p != d && p != t && p != tail implies #[trigger] pg2[p] == pg[p] by {
        assert(pg1[p] == pg[p]);
    }
}

/// Sum of the slot counts of the first `n` pages of a ring.
pub open spec fn count_sum(pg: Seq<Seq<u8>>, ring: Seq<nat>, n: int) -> int
    decreases n,
{
    if n <= 0 {
        0
    } else {
        count_sum(pg, ring, n - 1) + dp_count(pg[ring[n - 1] as int])
    }
}

impl Db {
    /// Page `t` is a table-meta page.
    pub open spec fn is_table(&self, t: nat) -> bool {
        0 < t < self.page_count() && self.shape().kinds[t as int] is Table
    }

    /// The table-meta page `t`.
    pub open spec fn table(&self, t: nat) -> TablePageV {
        table_of(self.image(), t as int)
    }

    /// The rows of the table whose table-meta page is `t`.
    pub open spec fn rows(&self, t: nat) -> Set<Rid> {
        rows_of(self.image(), self.shape(), t)
    }

    /// The data pages of the table whose table-meta page is `t`, in the order
    /// of its ring.
    pub open spec fn ring(&self, t: nat) -> Seq<nat> {
        self.shape().heaps[t].ring
    }

    /// `tp` is an up-to-date copy of a table-meta page of this database.
    pub open spec fn synced(&self, tp: &TablePage) -> bool {
        self.is_table(tp.id as nat) && tp@ == self.table(tp.id as nat)
    }

    /// Adds an empty data page to a table none of whose pages has a free slot.
    #[verifier::spinoff_prover]
    pub(crate) fn grow_heap(&mut self, tp: &mut TablePage)
        requires
            old(self).wf(),
            old(self).synced(old(tp)),
            old(tp).first_free == NONE,
            old(self).free_list().len() > 0 || old(self).page_count() < MAX_PAGE,
        ensures
            final(self).wf(),
            final(self).synced(final(tp)),
            final(tp).id == old(tp).id,
            final(tp).first_free == next_page(old(self).free_list(), old(self).page_count()),
            final(tp).first_free != NONE,
            heap_step(old(self).image(), old(self).shape(), final(self).image(), final(self).shape(), old(tp).id as nat),
            final(self).spec_path() == old(self).spec_path(),
            final(self).rows(old(tp).id as nat) == old(self).rows(old(tp).id as nat),
            final(self).free_list() == crate::db::free_after_allocate(old(self).free_list()),
            final(self).page_count() == old(self).page_count() + (if old(self).free_list().len() > 0 { 0int } else { 1 }),
            forall|k: int| 0 <= k < MAX_SLOT ==> !slot_used(final(self).image()[final(tp).first_free as int], k),
            page_joined(old(self).image(), final(self).image(), old(tp).id as int, final(tp).first_free as int),
            loose_kept(old(self).image(), old(self).shape(), final(self).image(), final(self).shape()),
            final(self).ring(old(tp).id as nat) == old(self).ring(old(tp).id as nat).push(final(tp).first_free as nat),
    {
        let t: usize = tp.id as usize;
        let ghost pg0 = self.image();
        let ghost sh0 = self.shape();
        let ghost heap0 = sh0.heaps[t as nat];
        let ghost n = heap0.ring.len();
        proof {
            lemma_table_facts(pg0, sh0, t as int);
        }
        let id: usize = self.allocate_page();
        let ghost pg1 = self.image();
        let ghost sh1 = self.shape();
        let tail: u32 = tp.prev;
        let next: u32 = tp.next;
        assert(id != t && id != tail);
        self.append_page(t, id, tail, next);
        tp.prev = id as u32;
        tp.first_free = id as u32;
        if tail == tp.id {
            tp.next = id as u32;
        }
        let ghost heap2 = Heap { ring: heap0.ring.push(id as nat), chain: seq![id as nat] };
        let ghost sh2 = Shape {
            kinds: sh1.kinds.update(id as int, Kind::Data { table: t as nat, pos: n, link: 0 }),
            heaps: sh1.heaps.insert(t as nat, heap2),
            ..sh1
        };
        self.set_shape(Ghost(sh2));
        proof {
            let pg2 = self.image();
            assert(table_of(pg1, t as int) == table_of(pg0, t as int));
            assert(grow_edit(pg0, sh0, pg1, sh1, pg2, sh2, t as int, id as int)) by {
                reveal(grow_edit);
            }
            lemma_grow(pg0, sh0, pg1, sh1, pg2, sh2, t as int, id as int);
            assert(tp@ == table_of(pg2, t as int)) by {
                reveal(grow_edit);
                reveal(grow_writes);
            }
            assert(forall|k: int| 0 <= k < MAX_SLOT ==> !slot_used(pg2[id as int], k));
            assert(page_joined(pg0, pg2, t as int, id as int)) by {
                reveal(page_joined);
                reveal(grow_writes);
                reveal(grow_frames);
                assert forall|p: int| 0 < p < pg0.len() && p != id && p != t && p != tail implies #[trigger] pg2[p] == pg0[p] by {
                    assert(pg1[p] == pg0[p]);
                }
                if id < pg0.len() {
                    assert(pg1[id as int] == pg0[id as int]);
                }
                if tail != t {
                    assert(pg1[tail as int] == pg0[tail as int]);
                }
                assert(pg2[0] == pg1[0]);
            }
            assert(loose_kept(pg0, sh0, pg2, sh2)) by {
                reveal(loose_kept);
                reveal(grow_writes);
                assert forall|p: int| 0 <= p < pg0.len() && (#[trigger] sh0.kinds[p]) is Loose implies p < pg2.len() && sh2.kinds[p] is Loose && pg2[p] == pg0[p] by {
                    assert(p != 0 && p != id && p != t);
                    if tail != t {
                        assert(sh0.kinds[tail as int] is Data);
                    }
                    assert(pg1[p] == pg0[p]);
                    assert(pg2[p] == pg1[p]);
                }
            }
        }
    }

    /// Writes the empty data page `id` and links it behind `tail`, the last page
    /// of the ring of table `t` or `t` itself.
    #[verifier::spinoff_prover]
    fn append_page(&mut self, t: usize, id: usize, tail: u32, next: u32)
        requires
            t < old(self).page_count(),
            id < old(self).page_count(),
            tail == t || tail < old(self).page_count(),
            id != t,
            id != tail,
            old(self).image()[t as int].len() == PAGE_SIZE,
            old(self).image()[id as int].len() == PAGE_SIZE,
            tail != t ==> old(self).image()[tail as int].len() == PAGE_SIZE,
            id < MAX_PAGE,
            t < MAX_PAGE,
        ensures
            grow_writes(old(self).image(), final(self).image(), t as int, id as int, tail as int, next),
            grow_frames(old(self).image(), final(self).image(), t as int, id as int, tail as int),
            final(self).shape() == old(self).shape(),
            final(self).spec_path() == old(self).spec_path(),
    {
        let ghost pg1 = self.image();
        let mut page = self.take_page(id);
        init_data_page(&mut page, tail, t as u32);
        self.put_page(id, page);
        if tail as usize != t {
            let mut last = self.take_page(tail as usize);
            write_next(&mut last, id as u32);
            self.put_page(tail as usize, last);
        }
        let mut head = self.take_page(t);
        write_table_links(&mut head, id as u32, if tail as usize == t { id as u32 } else { next }, id as u32);
        self.put_page(t, head);
        proof {
            reveal(grow_writes);
            reveal(grow_frames);
        }
    }

    /// Takes the lowest free slot of the head of the chain of pages with a free
    /// slot.
    #[verifier::spinoff_prover]
    pub(crate) fn take_slot(&mut self, tp: &mut TablePage) -> (rid: Rid)
        requires
            old(self).wf(),
            old(self).synced(old(tp)),
            old(tp).first_free != NONE,
        ensures
            final(self).wf(),
            final(self).synced(final(tp)),
            final(tp).id == old(tp).id,
            rid.spec_page() == old(tp).first_free,
            rid.spec_slot() < old(tp).cap,
            lowest_free(old(self).image()[old(tp).first_free as int], rid.spec_slot() as int),
            rid == Rid::make(rid.spec_page() as int, rid.spec_slot() as int),
            final(self).rows(old(tp).id as nat) == old(self).rows(old(tp).id as nat).insert(rid),
            !old(self).rows(old(tp).id as nat).contains(rid),
            heap_step(old(self).image(), old(self).shape(), final(self).image(), final(self).shape(), old(tp).id as nat),
            final(self).spec_path() == old(self).spec_path(),
            final(self).free_list() == old(self).free_list(),
            final(self).page_count() == old(self).page_count(),
            slot_taken(old(self).image(), final(self).image(), old(tp).id as int, rid.spec_page() as int, rid.spec_slot() as int),
            loose_kept(old(self).image(), old(self).shape(), final(self).image(), final(self).shape()),
            final(self).ring(old(tp).id as nat) == old(self).ring(old(tp).id as nat),
    {
        let t: usize = tp.id as usize;
        let d: usize = tp.first_free as usize;
        let ghost pg0 = self.image();
        let ghost sh0 = self.shape();
        let ghost cap = tp.cap as int;
        proof {
            lemma_head_facts(pg0, sh0, t as int);
        }
        let mut page = self.take_page(d);
        let k: usize = first_clear(&page, tp.cap as usize);
        mark_slot(&mut page, k, Ghost(cap));
        let ghost marked = page@;
        let count: u16 = read_count(&page) + 1;
        write_count(&mut page, count);
        let nf: u32 = read_link(&page, DP_NEXT_FREE);
        proof {
            lemma_same_words(marked, page@, cap);
            lemma_same_slots(marked, page@);
        }
        let ghost page_after = page@;
        self.put_page(d, page);
        if count == tp.cap {
            tp.first_free = nf;
            let mut head = self.take_page(t);
            write_table_links(&mut head, tp.prev, tp.next, tp.first_free);
            self.put_page(t, head);
        }
        let ghost sh2 = taken_shape(pg0, sh0, t as int, d as int);
        self.set_shape(Ghost(sh2));
        let rid = Rid::new(d as u32, k as u32);
        proof {
            let pg2 = self.image();
            assert(take_edit(pg0, sh0, pg2, sh2, t as int, d as int, k as int)) by {
                reveal(take_edit);
                assert(tp@ == table_of(pg2, t as int));
            }
            lemma_take(pg0, sh0, pg2, sh2, t as int, d as int, k as int);
            assert(slot_taken(pg0, pg2, t as int, d as int, k as int)) by {
                reveal(slot_taken);
                assert(tp@ == table_of(pg2, t as int));
                assert(pg2[d as int] == page_after);
            }
            lemma_take_loose(pg0, sh0, pg2, sh2, t as int, d as int, k as int);
        }
        rid
    }

    /// Allocates a row slot in the table `tp`: the lowest free slot of the first
    /// page of the chain of pages with a free slot. Where no page has one, a new
    /// data page is first added at the end of the ring.
    #[verifier::spinoff_prover]
    pub fn allocate_data_slot(&mut self, tp: &mut TablePage) -> (rid: Rid)
        requires
            old(self).wf(),
            old(self).synced(old(tp)),
            old(tp).first_free != NONE || old(self).free_list().len() > 0 || old(self).page_count() < MAX_PAGE,
        ensures
            final(self).wf(),
            final(self).synced(final(tp)),
            final(tp).id == old(tp).id,
            rid.spec_page() == (if old(tp).first_free != NONE {
                old(tp).first_free as nat
            } else {
                next_page(old(self).free_list(), old(self).page_count())
            }),
            old(tp).first_free != NONE ==> lowest_free(old(self).image()[old(tp).first_free as int], rid.spec_slot() as int),
            old(tp).first_free == NONE ==> rid.spec_slot() == 0,
            final(self).rows(old(tp).id as nat) == old(self).rows(old(tp).id as nat).insert(rid),
            !old(self).rows(old(tp).id as nat).contains(rid),
            heap_step(old(self).image(), old(self).shape(), final(self).image(), final(self).shape(), old(tp).id as nat),
            final(self).spec_path() == old(self).spec_path(),
            final(self).free_list() == (if old(tp).first_free != NONE {
                old(self).free_list()
            } else {
                crate::db::free_after_allocate(old(self).free_list())
            }),
            final(self).page_count() == old(self).page_count() + (if old(tp).first_free == NONE && old(self).free_list().len() == 0 {
                1int
            } else {
                0
            }),
            old(tp).first_free != NONE ==> slot_taken(
                old(self).image(),
                final(self).image(),
                old(tp).id as int,
                rid.spec_page() as int,
                rid.spec_slot() as int,
            ),
            old(tp).first_free == NONE ==> page_added(old(self).image(), final(self).image(), old(tp).id as int, rid.spec_page() as int),
            loose_kept(old(self).image(), old(self).shape(), final(self).image(), final(self).shape()),
            final(self).ring(old(tp).id as nat) == (if old(tp).first_free != NONE {
                old(self).ring(old(tp).id as nat)
            } else {
                old(self).ring(old(tp).id as nat).push(rid.spec_page() as nat)
            }),
    {
        let ghost pg0 = self.image();
        let ghost sh0 = self.shape();
        if tp.first_free == NONE {
            self.grow_heap(tp);
        } else {
            proof {
                lemma_heap_step_self(pg0, sh0, tp.id as nat);
            }
        }
        let ghost pg1 = self.image();
        let ghost sh1 = self.shape();
        let ghost head = tp.first_free as int;
        let rid = self.take_slot(tp);
        proof {
            lemma_heap_step_twice(pg0, sh0, pg1, sh1, self.image(), self.shape(), tp.id as nat);
            if old(tp).first_free == NONE {
                assert(!slot_used(pg1[head], 0));
                if rid.spec_slot() != 0 {
                    assert(slot_used(pg1[head], 0));
                }
                lemma_table_facts(pg0, sh0, old(tp).id as int);
                lemma_page_added(pg0, pg1, self.image(), old(tp).id as int, head);
                crate::create::lemma_loose_twice(pg0, sh0, pg1, sh1, self.image(), self.shape());
            }
        }
        rid
    }

    /// Frees the row slot `rid` of the table `tp`. A page that was full joins the
    /// chain of pages with a free slot at its head. An empty page stays with the
    /// table.
    #[verifier::spinoff_prover]
    pub fn deallocate_data_slot(&mut self, tp: &mut TablePage, rid: Rid)
        requires
            old(self).wf(),
            old(self).synced(old(tp)),
            old(self).rows(old(tp).id as nat).contains(rid),
        ensures
            final(self).wf(),
            final(self).synced(final(tp)),
            final(tp).id == old(tp).id,
            final(self).rows(old(tp).id as nat) == old(self).rows(old(tp).id as nat).remove(rid),
            old(self).image()[rid.spec_page() as int].len() == PAGE_SIZE,
            final(tp).first_free == (if dp_count(old(self).image()[rid.spec_page() as int]) == old(tp).cap {
                rid.spec_page()
            } else {
                old(tp).first_free
            }),
            heap_step(old(self).image(), old(self).shape(), final(self).image(), final(self).shape(), old(tp).id as nat),
            final(self).spec_path() == old(self).spec_path(),
            final(self).free_list() == old(self).free_list(),
            final(self).page_count() == old(self).page_count(),
            slot_freed(old(self).image(), final(self).image(), old(tp).id as int, rid.spec_page() as int, rid.spec_slot() as int),
            loose_kept(old(self).image(), old(self).shape(), final(self).image(), final(self).shape()),
            final(self).ring(old(tp).id as nat) == old(self).ring(old(tp).id as nat),
    {
        let t: usize = tp.id as usize;
        let d: usize = rid.page() as usize;
        let k: usize = rid.slot() as usize;
        let ghost pg0 = self.image();
        let ghost sh0 = self.shape();
        let ghost cap = tp.cap as int;
        proof {
            lemma_row_facts(pg0, sh0, t as int, rid);
        }
        let mut page = self.take_page(d);
        let count: u16 = read_count(&page);
        let was_full: bool = count == tp.cap;
        clear_slot(&mut page, k, Ghost(cap));
        let ghost cleared = page@;
        if was_full {
            write_next_free(&mut page, tp.first_free);
            tp.first_free = d as u32;
        }
        let ghost linked = page@;
        write_count(&mut page, count - 1);
        proof {
            assert forall|w: int| 0 <= w < MAX_SLOT_BS implies #[trigger] used_word(page@, w) == used_word(cleared, w) by {
                assert(used_word(linked, w) == used_word(cleared, w));
            }
            lemma_same_words(cleared, page@, cap);
            lemma_same_slots(cleared, page@);
        }
        let ghost page_after = page@;
        self.put_page(d, page);
        if was_full {
            let mut head = self.take_page(t);
            write_table_links(&mut head, tp.prev, tp.next, tp.first_free);
            self.put_page(t, head);
        }
        let ghost sh2 = released_shape(pg0, sh0, t as int, d as int);
        self.set_shape(Ghost(sh2));
        proof {
            let pg2 = self.image();
            assert(release_edit(pg0, sh0, pg2, sh2, t as int, d as int, k as int)) by {
                reveal(release_edit);
                assert(tp@ == table_of(pg2, t as int));
            }
            lemma_release(pg0, sh0, pg2, sh2, t as int, d as int, k as int);
            assert(Rid::make(d as int, k as int) == rid);
            assert(slot_freed(pg0, pg2, t as int, d as int, k as int)) by {
                reveal(slot_freed);
                assert(tp@ == table_of(pg2, t as int));
                assert(pg2[d as int] == page_after);
            }
            lemma_release_loose(pg0, sh0, pg2, sh2, t as int, d as int, k as int);
        }
    }

    /// Position of the row slot `rid` in the file image: the start of the data
    /// area of its page plus the slot number times the slot size.
    #[verifier::spinoff_prover]
    pub fn get_data_slot(&self, tp: &TablePage, rid: Rid) -> (off: u64)
        ensures
            off == rid.spec_page() * PAGE_SIZE + DATA_HEAD + rid.spec_slot() * tp.size,
    {
        let page: u64 = rid.page() as u64;
        let slot: u64 = rid.slot() as u64;
        let size: u64 = tp.size as u64;
        assert(slot * size <= 512 * 65535) by (nonlinear_arith)
            requires
                slot < 512,
                size <= 65535,
        ;
        page * (PAGE_SIZE as u64) + (DATA_HEAD as u64) + slot * size
    }

    /// The rows of the table `tp`, page by page along the ring and slot by slot
    /// on each page.
    #[verifier::spinoff_prover]
    pub fn record_iter(&self, tp: &TablePage) -> (r: Vec<Rid>)
        requires
            self.wf(),
            self.synced(tp),
        ensures
            r@.no_duplicates(),
            r@.to_set() == self.rows(tp.id as nat),
            self.rows(tp.id as nat).finite(),
            self.rows(tp.id as nat).len() == r.len(),
            r.len() == count_sum(self.image(), self.shape().heaps[tp.id as nat].ring, self.shape().heaps[tp.id as nat].ring.len() as int),
            in_ring_order(self.shape(), r@),
    {
        let t: u32 = tp.id;
        let cap: usize = tp.cap as usize;
        let ghost pg = self.image();
        let ghost sh = self.shape();
        let ghost ring = sh.heaps[t as nat].ring;
        let ghost n = ring.len() as int;
        let mut out: Vec<Rid> = Vec::new();
        let mut cur: u32 = tp.next;
        let ghost mut i: int = 0;
        proof {
            lemma_table_facts(pg, sh, t as int);
            if n > 0 {
                lemma_ring_facts(pg, sh, t as int, 0);
            }
            assert forall|r: Rid| out@.contains(r) <==> #[trigger] listed(pg, sh, t as nat, r, 0, 0) by {}
        }
        while cur != t
            invariant
                self.wf(),
                self.synced(tp),
                pg == self.image(),
                sh == self.shape(),
                ring == sh.heaps[t as nat].ring,
                n == ring.len(),
                t == tp.id,
                cap == tp.cap,
                cap <= 507,
                0 <= i <= n,
                cur == (if i < n { ring[i] as u32 } else { t }),
                i < n ==> ring[i] != t && ring[i] < MAX_PAGE,
                out@.no_duplicates(),
                forall|r: Rid| out@.contains(r) <==> #[trigger] listed(pg, sh, t as nat, r, i, 0),
                out.len() == count_sum(pg, ring, i),
                in_ring_order(sh, out@),
            decreases n - i,
        {
            proof {
                lemma_ring_facts(pg, sh, t as int, i);
            }
            let page = self.get_page(cur as usize);
            let ghost base = out@.len();
            let mut k: usize = 0;
            proof {
                assert(used_slots(page@, 0) =~= Set::<int>::empty());
            }
            while k < cap
                invariant
                    k <= cap,
                    cap <= 507,
                    cap == table_of(pg, t as int).cap,
                    page@ == pg[cur as int],
                    page.len() == PAGE_SIZE,
                    0 < cur < pg.len(),
                    pg.len() <= MAX_PAGE,
                    sh.kinds[cur as int] matches Kind::Data { table, pos, .. } && table == t && pos == i,
                    forall|q: int| 0 <= q < pg.len() && is_ring_page(#[trigger] sh.kinds[q], t as nat, i) ==> q == cur,
                    out@.no_duplicates(),
                    forall|r: Rid| out@.contains(r) <==> #[trigger] listed(pg, sh, t as nat, r, i, k as int),
                    used_slots(page@, k as int).finite(),
                    out.len() == base + used_slots(page@, k as int).len(),
                    in_ring_order(sh, out@),
                decreases cap - k,
            {
                let w: u32 = read_used_word(page, k / 32);
                let b: u32 = (k % 32) as u32;
                let ghost before = out@;
                assert(slot_used(page@, k as int) == ((w >> b) & 1 == 1));
                if (w >> b) & 1 == 1 {
                    let x = Rid::new(cur, k as u32);
                    out.push(x);
                    proof {
                        assert(!listed(pg, sh, t as nat, x, i, k as int));
                        assert(!before.contains(x));
                        lemma_push_member(before, x);
                        assert forall|a: int, b: int| 0 <= a < b < out@.len() implies row_before(sh, #[trigger] out@[a], #[trigger] out@[b]) by {
                            if b < before.len() {
                                assert(row_before(sh, before[a], before[b]));
                            } else {
                                assert(before.contains(before[a]));
                                assert(listed(pg, sh, t as nat, before[a], i, k as int));
                            }
                        }
                        assert(used_slots(page@, k + 1) =~= used_slots(page@, k as int).insert(k as int));
                        assert forall|r: Rid| out@.contains(r) <==> #[trigger] listed(pg, sh, t as nat, r, i, k + 1) by {
                            let was = listed(pg, sh, t as nat, r, i, k as int);
                            assert(before.contains(r) <==> was);
                            assert(out@.contains(r) <==> (before.contains(r) || r == x));
                            if r.spec_page() == cur && r.spec_slot() == k {
                                assert(r.raw == x.raw);
                            }
                        }
                    }
                } else {
                    proof {
                        assert(used_slots(page@, k + 1) =~= used_slots(page@, k as int));
                        assert forall|r: Rid| out@.contains(r) <==> #[trigger] listed(pg, sh, t as nat, r, i, k + 1) by {
                            let was = listed(pg, sh, t as nat, r, i, k as int);
                            assert(before.contains(r) <==> was);
                        }
                    }
                }
                k += 1;
            }
            cur = read_link(page, DP_NEXT);
            proof {
                assert forall|r: Rid| out@.contains(r) <==> #[trigger] listed(pg, sh, t as nat, r, i + 1, 0) by {
                    let was = listed(pg, sh, t as nat, r, i, cap as int);
                    assert(out@.contains(r) <==> was);
                }
                i = i + 1;
                if i < n {
                    lemma_ring_facts(pg, sh, t as int, i);
                }
            }
        }
        proof {
            lemma_listed_all(pg, sh, t as int);
            assert(out@.to_set() =~= self.rows(t as nat)) by {
                assert forall|r: Rid| out@.to_set().contains(r) == self.rows(t as nat).contains(r) by {
                    let was = listed(pg, sh, t as nat, r, n, 0);
                    assert(out@.contains(r) <==> was);
                }
            }
            out@.unique_seq_to_set();
        }
        out
    }
}

/// What the rules give for the table-meta page `t` and the ends of its ring and
/// chain.
#[verifier::spinoff_prover]
#[verifier::rlimit(40)]
pub proof fn lemma_table_facts(pg: Seq<Seq<u8>>, sh: Shape, t: int)
    requires
        image_inv(pg, sh, tight()),
        0 < t < pg.len(),
        sh.kinds[t] is Table,
    ensures
        table_ok(pg, sh, t),
        1 <= table_of(pg, t).cap <= 507,
        table_of(pg, t).first_free == NONE <==> sh.heaps[t as nat].chain.len() == 0,
        table_of(pg, t).prev == t <==> sh.heaps[t as nat].ring.len() == 0,
        table_of(pg, t).next == t <==> sh.heaps[t as nat].ring.len() == 0,
        sh.heaps[t as nat].ring.len() > 0 ==> ring_ok_at(pg, sh, t, sh.heaps[t as nat].ring.len() - 1) && ring_ok_at(pg, sh, t, 0),
        sh.heaps[t as nat].chain.len() > 0 ==> chain_ok_at(pg, sh, t, sh.heaps[t as nat].chain.len() - 1),
{
    reveal(structure_inv);
    assert(page_ok(pg, sh, t, tight()));
    lemma_cap_bounds(table_of(pg, t).size as int);
    let heap = sh.heaps[t as nat];
    if heap.chain.len() > 0 {
        assert(chain_ok_at(pg, sh, t, heap.chain.len() - 1));
    }
    if heap.ring.len() > 0 {
        assert(ring_ok_at(pg, sh, t, heap.ring.len() - 1));
        assert(ring_ok_at(pg, sh, t, 0));
    }
}

/// Tables whose data pages have the same bitmaps have the same rows.
#[verifier::spinoff_prover]
pub proof fn lemma_rows_same(pg: Seq<Seq<u8>>, sh: Shape, pg2: Seq<Seq<u8>>, sh2: Shape, t: nat)
    requires
        table_of(pg2, t as int).cap == table_of(pg, t as int).cap,
        forall|d: int| 0 <= d < pg.len() && ((#[trigger] sh.kinds[d]) matches Kind::Data { table, .. } && table == t) ==> d < pg2.len() && (sh2.kinds[d] matches Kind::Data { table, .. } && table == t)
            && forall|k: int| 0 <= k < MAX_SLOT ==> slot_used(pg2[d], k) == slot_used(pg[d], k),
        forall|d: int| 0 <= d < pg2.len() && ((#[trigger] sh2.kinds[d]) matches Kind::Data { table, .. } && table == t) ==> (d < pg.len() && (sh.kinds[d] matches Kind::Data { table, .. } && table == t)) || forall|k: int| 0 <= k < MAX_SLOT ==> !slot_used(pg2[d], k),
        table_of(pg, t as int).cap <= MAX_SLOT,
    ensures
        rows_of(pg2, sh2, t) == rows_of(pg, sh, t),
{
    assert forall|r: Rid| rows_of(pg2, sh2, t).contains(r) == rows_of(pg, sh, t).contains(r) by {
        let d = r.spec_page() as int;
        if rows_of(pg2, sh2, t).contains(r) {
            assert(sh2.kinds[d] is Data);
        }
        if rows_of(pg, sh, t).contains(r) {
            assert(sh.kinds[d] is Data);
        }
    }
    assert(rows_of(pg2, sh2, t) =~= rows_of(pg, sh, t));
}

/// How the pages change when the empty data page `id` is written and linked
/// behind `tail`, the last page of the ring of table `t` or `t` itself.
#[verifier::opaque]
pub open spec fn grow_writes(pg1: Seq<Seq<u8>>, pg2: Seq<Seq<u8>>, t: int, id: int, tail: int, next: u32) -> bool {
    &&& pg2.len() == pg1.len()
    &&& forall|p: int| 0 <= p < pg2.len() && p != id && p != t && p != tail ==> #[trigger] pg2[p] == pg1[p]
    &&& pg2[id].len() == PAGE_SIZE
    &&& pg2[t].len() == PAGE_SIZE
    &&& crate::data::dp_prev(pg2[id]) == tail
    &&& crate::data::dp_next(pg2[id]) == t
    &&& crate::data::dp_next_free(pg2[id]) == NONE
    &&& dp_count(pg2[id]) == 0
    &&& forall|w: int| 0 <= w < MAX_SLOT_BS ==> #[trigger] used_word(pg2[id], w) == 0
    &&& tail != t ==> {
        &&& pg2[tail].len() == PAGE_SIZE
        &&& crate::data::dp_next(pg2[tail]) == id
        &&& crate::data::dp_prev(pg2[tail]) == crate::data::dp_prev(pg1[tail])
        &&& crate::data::dp_next_free(pg2[tail]) == crate::data::dp_next_free(pg1[tail])
        &&& dp_count(pg2[tail]) == dp_count(pg1[tail])
        &&& forall|w: int| 0 <= w < MAX_SLOT_BS ==> #[trigger] used_word(pg2[tail], w) == used_word(pg1[tail], w)
    }
    &&& table_of(pg2, t) == (TablePageV {
        prev: id as u32,
        next: if tail == t {
            id as u32
        } else {
            next
        },
        first_free: id as u32,
        ..table_of(pg1, t)
    })
}

/// The bytes that stay when the empty data page `id` is written and linked
/// behind `tail`: what lies behind the header of the page, and all of `tail` but
/// its link to the next page.
#[verifier::opaque]
pub open spec fn grow_frames(pg1: Seq<Seq<u8>>, pg2: Seq<Seq<u8>>, t: int, id: int, tail: int) -> bool {
    &&& same_outside(pg1[id], pg2[id], 0, DATA_HEAD as int)
    &&& tail != t ==> same_outside(pg1[tail], pg2[tail], DP_NEXT as int, DP_NEXT + 4)
}

/// How the pages and the shape change when table `t` gets the new data page `id`.
#[verifier::opaque]
pub open spec fn grow_edit(pg0: Seq<Seq<u8>>, sh0: Shape, pg1: Seq<Seq<u8>>, sh1: Shape, pg2: Seq<Seq<u8>>, sh2: Shape, t: int, id: int) -> bool {
    &&& sh1 == crate::db::shape_after_allocate(sh0, id as nat)
    &&& id == next_page(sh0.free, pg0.len())
    &&& 0 < id < pg1.len()
    &&& id < pg0.len() ==> sh0.kinds[id] is Free
    &&& pg1.len() == pg0.len() + (if sh0.free.len() > 0 { 0int } else { 1 })
    &&& forall|p: int| 0 < p < pg0.len() ==> #[trigger] pg1[p] == pg0[p]
    &&& tables(pg1[0]) == tables(pg0[0])
    &&& grow_writes(pg1, pg2, t, id, table_of(pg0, t).prev as int, table_of(pg0, t).next)
    &&& sh2 == (Shape {
        kinds: sh1.kinds.update(id, Kind::Data { table: t as nat, pos: sh0.heaps[t as nat].ring.len(), link: 0 }),
        heaps: sh1.heaps.insert(t as nat, Heap { ring: sh0.heaps[t as nat].ring.push(id as nat), chain: seq![id as nat] }),
        ..sh1
    })
}

#[verifier::spinoff_prover]
#[verifier::rlimit(40)]
proof fn lemma_grow(pg0: Seq<Seq<u8>>, sh0: Shape, pg1: Seq<Seq<u8>>, sh1: Shape, pg2: Seq<Seq<u8>>, sh2: Shape, t: int, id: int)
    requires
        image_inv(pg0, sh0, tight()),
        0 < t < pg0.len(),
        sh0.kinds[t] is Table,
        table_of(pg0, t).first_free == NONE,
        pager_inv(pg1, sh1),
        grow_edit(pg0, sh0, pg1, sh1, pg2, sh2, t, id),
    ensures
        image_inv(pg2, sh2, tight()),
        heap_touch(pg0, sh0, pg2, sh2, t),
        nodes_same(pg0, sh0, pg2, sh2),
        catalog_same(pg0, sh0, pg2, sh2),
        heap_step(pg0, sh0, pg2, sh2, t as nat),
        rows_of(pg2, sh2, t as nat) == rows_of(pg0, sh0, t as nat),
        forall|k: int| 0 <= k < MAX_SLOT ==> !slot_used(pg2[id], k),
{
    reveal(heap_step);
    reveal(structure_inv);
    reveal(grow_edit);
    reveal(grow_writes);
    let heap0 = sh0.heaps[t as nat];
    let heap2 = sh2.heaps[t as nat];
    let n = heap0.ring.len() as int;
    let tv0 = table_of(pg0, t);
    let cap = tv0.cap as int;
    let tail = tv0.prev as int;
    lemma_table_facts(pg0, sh0, t);
    assert(heap0.chain.len() == 0);
    assert(sh0.kinds[id] is Free || id == pg0.len()) by {
        if sh0.free.len() > 0 {
            assert(free_ok_at(pg0, sh0, sh0.free.len() - 1));
        }
    }
    assert forall|i: int| 0 <= i < sh2.free.len() implies #[trigger] free_ok_at(pg2, sh2, i) by {
        assert(free_ok_at(pg1, sh1, i));
    }
    assert(has_magic_kept(pg1, pg2));
    assert(pager_inv(pg2, sh2));
    assert(sh2.heaps.dom() =~= sh0.heaps.dom());
    assert(heap_touch(pg0, sh0, pg2, sh2, t));
    assert forall|d: int| 0 <= d < pg0.len() && (#[trigger] sh0.kinds[d]) is Data implies d < pg2.len() && sh2.kinds[d] == sh0.kinds[d] && forall|k: int| 0 <= k < MAX_SLOT ==> slot_used(pg2[d], k) == slot_used(pg0[d], k) by {
        if d == tail {
            assert forall|k: int| 0 <= k < MAX_SLOT implies slot_used(pg2[d], k) == slot_used(pg0[d], k) by {
                assert(used_word(pg2[d], k / 32) == used_word(pg0[d], k / 32));
            }
        }
    }
    assert forall|i: int| 0 <= i < heap2.ring.len() implies #[trigger] ring_ok_at(pg2, sh2, t, i) by {
        if i < n {
            assert(ring_ok_at(pg0, sh0, t, i));
        }
    }
    assert forall|j: int| 0 <= j < heap2.chain.len() implies #[trigger] chain_ok_at(pg2, sh2, t, j) by {}
    assert forall|c: int| 0 <= c < tv0.cols.len() implies #[trigger] root_ok_at(pg2, sh2, t, c) by {
        assert(root_ok_at(pg0, sh0, t, c));
    }
    assert(table_ok(pg2, sh2, t));
    lemma_blank_bitmap(pg2[id], cap);
    assert forall|d: int| 0 <= d < pg2.len() && ((#[trigger] sh2.kinds[d]) matches Kind::Data { table, .. } && table == t) implies data_ok(pg2, sh2, d) by {
        if d != id {
            assert(page_ok(pg0, sh0, d, tight()));
            if d == tail {
                lemma_same_words(pg0[d], pg2[d], cap);
            }
        }
    }
    lemma_heap_touch(pg0, sh0, pg2, sh2, t);
    lemma_blank_bitmap(pg2[id], MAX_SLOT as int);
    assert forall|u: nat| 0 < u < pg0.len() && sh0.kinds[u as int] is Table implies #[trigger] rows_of(pg2, sh2, u) == rows_of(pg0, sh0, u) by {
        assert(page_ok(pg0, sh0, u as int, tight()));
        lemma_cap_bounds(table_of(pg0, u as int).size as int);
        lemma_rows_same(pg0, sh0, pg2, sh2, u);
    }
}

/// The meta page is the same in both images.
pub open spec fn has_magic_kept(pg: Seq<Seq<u8>>, pg2: Seq<Seq<u8>>) -> bool {
    pg2[0] == pg[0]
}

/// Position of the page of the row `r` in the ring of its table.
pub open spec fn ring_pos(sh: Shape, r: Rid) -> nat {
    match sh.kinds[r.spec_page() as int] {
        Kind::Data { pos, .. } => pos,
        _ => 0,
    }
}

/// The row `a` comes before the row `b`: on an earlier page of the ring, or on
/// the same page in a lower slot.
pub open spec fn row_before(sh: Shape, a: Rid, b: Rid) -> bool {
    ring_pos(sh, a) < ring_pos(sh, b) || (ring_pos(sh, a) == ring_pos(sh, b) && a.spec_slot() < b.spec_slot())
}

/// The rows of `s` stand page by page along the ring and slot by slot on each
/// page.
pub open spec fn in_ring_order(sh: Shape, s: Seq<Rid>) -> bool {
    forall|a: int, b: int| 0 <= a < b < s.len() ==> row_before(sh, #[trigger] s[a], #[trigger] s[b])
}

/// The role of page number `i` of the ring of table `t`.
pub open spec fn is_ring_page(k: Kind, t: nat, i: int) -> bool {
    k matches Kind::Data { table, pos, .. } && table == t && pos == i
}

/// Whether the row `r` of table `t` sits on a ring page before page `i`, or on
/// page `i` in a slot below `k`.
pub open spec fn listed(pg: Seq<Seq<u8>>, sh: Shape, t: nat, r: Rid, i: int, k: int) -> bool {
    &&& r.spec_page() < pg.len()
    &&& r.spec_slot() < table_of(pg, t as int).cap
    &&& slot_used(pg[r.spec_page() as int], r.spec_slot() as int)
    &&& sh.kinds[r.spec_page() as int] matches Kind::Data { table, pos, .. } && table == t && (pos < i || (pos == i
        && r.spec_slot() < k))
}

#[verifier::spinoff_prover]
pub proof fn lemma_push_member<T>(s: Seq<T>, x: T)
    ensures
        forall|r: T| s.push(x).contains(r) <==> (s.contains(r) || r == x),
        s.no_duplicates() && !s.contains(x) ==> s.push(x).no_duplicates(),
{
    assert forall|r: T| s.push(x).contains(r) <==> (s.contains(r) || r == x) by {
        if s.contains(r) {
            let j = choose|j: int| 0 <= j < s.len() && s[j] == r;
            assert(s.push(x)[j] == r);
        }
        if r == x {
            assert(s.push(x)[s.len() as int] == r);
        }
        if s.push(x).contains(r) {
            let j = choose|j: int| 0 <= j < s.push(x).len() && s.push(x)[j] == r;
            if j < s.len() {
                assert(s[j] == r);
            }
        }
    }
}

#[verifier::spinoff_prover]
pub proof fn lemma_heap_step_self(pg: Seq<Seq<u8>>, sh: Shape, t: nat)
    ensures
        heap_step(pg, sh, pg, sh, t),
{
    reveal(heap_step);
}

/// Every row of a table sits on one of the pages of its ring.
#[verifier::spinoff_prover]
#[verifier::rlimit(40)]
pub proof fn lemma_listed_all(pg: Seq<Seq<u8>>, sh: Shape, t: int)
    requires
        image_inv(pg, sh, tight()),
        0 < t < pg.len(),
        sh.kinds[t] is Table,
    ensures
        forall|r: Rid| #[trigger] listed(pg, sh, t as nat, r, sh.heaps[t as nat].ring.len() as int, 0) <==> rows_of(pg, sh, t as nat).contains(r),
{
    reveal(structure_inv);
    assert forall|r: Rid| #[trigger] listed(pg, sh, t as nat, r, sh.heaps[t as nat].ring.len() as int, 0) <==> rows_of(pg, sh, t as nat).contains(r) by {
        if rows_of(pg, sh, t as nat).contains(r) {
            assert(page_ok(pg, sh, r.spec_page() as int, tight()));
        }
    }
}

/// What the rules give for page `i` of the ring of table `t`.
#[verifier::spinoff_prover]
#[verifier::rlimit(40)]
pub proof fn lemma_ring_facts(pg: Seq<Seq<u8>>, sh: Shape, t: int, i: int)
    requires
        image_inv(pg, sh, tight()),
        0 < t < pg.len(),
        sh.kinds[t] is Table,
        0 <= i < sh.heaps[t as nat].ring.len(),
    ensures
        ring_ok_at(pg, sh, t, i),
        sh.heaps[t as nat].ring[i] != t,
        pg[sh.heaps[t as nat].ring[i] as int].len() == PAGE_SIZE,
        data_ok(pg, sh, sh.heaps[t as nat].ring[i] as int),
        sh.heaps[t as nat].ring[i] < MAX_PAGE,
        forall|q: int| 0 <= q < pg.len() && is_ring_page(#[trigger] sh.kinds[q], t as nat, i) ==> q == sh.heaps[t as nat].ring[i],
        i + 1 < sh.heaps[t as nat].ring.len() ==> sh.heaps[t as nat].ring[i + 1] != t && sh.heaps[t as nat].ring[i + 1] < MAX_PAGE,
        count_sum(pg, sh.heaps[t as nat].ring, i + 1) == count_sum(pg, sh.heaps[t as nat].ring, i) + used_slots(
            pg[sh.heaps[t as nat].ring[i] as int],
            table_of(pg, t).cap as int,
        ).len(),
        i + 1 < sh.heaps[t as nat].ring.len() ==> ring_ok_at(pg, sh, t, i + 1),
{
    reveal(structure_inv);
    assert(page_ok(pg, sh, t, tight()));
    assert(ring_ok_at(pg, sh, t, i));
    assert(page_ok(pg, sh, sh.heaps[t as nat].ring[i] as int, tight()));
    if i + 1 < sh.heaps[t as nat].ring.len() {
        assert(ring_ok_at(pg, sh, t, i + 1));
    }
    assert forall|q: int| 0 <= q < pg.len() && is_ring_page(#[trigger] sh.kinds[q], t as nat, i) implies q == sh.heaps[t as nat].ring[i] by {
        assert(page_ok(pg, sh, q, tight()));
    }
}

/// What the rules give for the head of the chain of pages with a free slot.
#[verifier::spinoff_prover]
#[verifier::rlimit(40)]
pub proof fn lemma_head_facts(pg: Seq<Seq<u8>>, sh: Shape, t: int)
    requires
        image_inv(pg, sh, tight()),
        0 < t < pg.len(),
        sh.kinds[t] is Table,
        table_of(pg, t).first_free != NONE,
    ensures
        1 <= table_of(pg, t).cap <= 507,
        0 < table_of(pg, t).first_free < pg.len(),
        table_of(pg, t).first_free != t,
        pg[table_of(pg, t).first_free as int].len() == PAGE_SIZE,
        pg[t].len() == PAGE_SIZE,
        dp_count(pg[table_of(pg, t).first_free as int]) < table_of(pg, t).cap,
        exists|j: int| 0 <= j < table_of(pg, t).cap && !slot_used(pg[table_of(pg, t).first_free as int], j),
{
    reveal(structure_inv);
    lemma_table_facts(pg, sh, t);
    let d = table_of(pg, t).first_free as int;
    let cap = table_of(pg, t).cap as int;
    assert(page_ok(pg, sh, d, tight()));
    lemma_used_slots_finite(pg[d], cap);
    lemma_has_free_slot(pg[d], cap);
}

/// What the rules give for a row of table `t`.
#[verifier::spinoff_prover]
#[verifier::rlimit(40)]
pub proof fn lemma_row_facts(pg: Seq<Seq<u8>>, sh: Shape, t: int, rid: Rid)
    requires
        image_inv(pg, sh, tight()),
        0 < t < pg.len(),
        sh.kinds[t] is Table,
        rows_of(pg, sh, t as nat).contains(rid),
    ensures
        1 <= table_of(pg, t).cap <= 507,
        0 < rid.spec_page() < pg.len(),
        rid.spec_page() != t,
        pg[rid.spec_page() as int].len() == PAGE_SIZE,
        pg[t].len() == PAGE_SIZE,
        1 <= dp_count(pg[rid.spec_page() as int]) <= table_of(pg, t).cap,
{
    reveal(structure_inv);
    lemma_table_facts(pg, sh, t);
    let d = rid.spec_page() as int;
    let cap = table_of(pg, t).cap as int;
    assert(page_ok(pg, sh, d, tight()));
    lemma_used_slots_finite(pg[d], cap);
    assert(used_slots(pg[d], cap).contains(rid.spec_slot() as int));
    assert(used_slots(pg[d], cap).remove(rid.spec_slot() as int).len() >= 0);
}

/// Pages with the same bitmap words have the same slots occupied.
#[verifier::spinoff_prover]
pub proof fn lemma_same_slots(a: Seq<u8>, b: Seq<u8>)
    requires
        forall|w: int| 0 <= w < MAX_SLOT_BS ==> #[trigger] used_word(b, w) == used_word(a, w),
    ensures
        forall|j: int| 0 <= j < MAX_SLOT ==> slot_used(b, j) == slot_used(a, j),
{
    assert forall|j: int| 0 <= j < MAX_SLOT implies slot_used(b, j) == slot_used(a, j) by {
        assert(used_word(b, j / 32) == used_word(a, j / 32));
    }
}

pub open spec fn data_pos(k: Kind) -> nat {
    match k {
        Kind::Data { pos, .. } => pos,
        _ => 0,
    }
}

/// The shape after a slot of page `d`, the head of the chain of table `t`, was
/// taken: a page that became full leaves the chain.
pub open spec fn taken_shape(pg0: Seq<Seq<u8>>, sh0: Shape, t: int, d: int) -> Shape {
    let heap0 = sh0.heaps[t as nat];
    if dp_count(pg0[d]) + 1 == table_of(pg0, t).cap {
        Shape {
            kinds: sh0.kinds.update(d, Kind::Data { table: t as nat, pos: data_pos(sh0.kinds[d]), link: -1 }),
            heaps: sh0.heaps.insert(t as nat, Heap { chain: heap0.chain.drop_last(), ..heap0 }),
            ..sh0
        }
    } else {
        sh0
    }
}

/// The shape after a slot of page `d` of table `t` was freed: a page that was
/// full joins the chain at its head.
pub open spec fn released_shape(pg0: Seq<Seq<u8>>, sh0: Shape, t: int, d: int) -> Shape {
    let heap0 = sh0.heaps[t as nat];
    if dp_count(pg0[d]) == table_of(pg0, t).cap {
        Shape {
            kinds: sh0.kinds.update(d, Kind::Data { table: t as nat, pos: data_pos(sh0.kinds[d]), link: heap0.chain.len() as int }),
            heaps: sh0.heaps.insert(t as nat, Heap { chain: heap0.chain.push(d as nat), ..heap0 }),
            ..sh0
        }
    } else {
        sh0
    }
}

/// How the pages change when slot `k` of page `d` of table `t` is taken.
#[verifier::opaque]
pub open spec fn take_edit(pg0: Seq<Seq<u8>>, sh0: Shape, pg2: Seq<Seq<u8>>, sh2: Shape, t: int, d: int, k: int) -> bool {
    let tv0 = table_of(pg0, t);
    let cap = tv0.cap as int;
    &&& pg2.len() == pg0.len()
    &&& forall|p: int| 0 <= p < pg2.len() && p != d && p != t ==> #[trigger] pg2[p] == pg0[p]
    &&& pg2[d].len() == PAGE_SIZE
    &&& pg2[t].len() == PAGE_SIZE
    &&& 0 <= k < cap
    &&& lowest_free(pg0[d], k)
    &&& forall|j: int| 0 <= j < MAX_SLOT ==> slot_used(pg2[d], j) == (j == k || slot_used(pg0[d], j))
    &&& used_slots(pg2[d], cap) == used_slots(pg0[d], cap).insert(k)
    &&& crate::data::dp_prev(pg2[d]) == crate::data::dp_prev(pg0[d])
    &&& crate::data::dp_next(pg2[d]) == crate::data::dp_next(pg0[d])
    &&& crate::data::dp_next_free(pg2[d]) == crate::data::dp_next_free(pg0[d])
    &&& dp_count(pg2[d]) == dp_count(pg0[d]) + 1
    &&& table_of(pg2, t) == (TablePageV {
        first_free: if dp_count(pg0[d]) + 1 == cap {
            crate::data::dp_next_free(pg0[d])
        } else {
            tv0.first_free
        },
        ..tv0
    })
    &&& sh2 == taken_shape(pg0, sh0, t, d)
}

/// How the pages change when slot `k` of page `d` of table `t` is freed.
#[verifier::opaque]
pub open spec fn release_edit(pg0: Seq<Seq<u8>>, sh0: Shape, pg2: Seq<Seq<u8>>, sh2: Shape, t: int, d: int, k: int) -> bool {
    let tv0 = table_of(pg0, t);
    let cap = tv0.cap as int;
    let was_full = dp_count(pg0[d]) == cap;
    &&& pg2.len() == pg0.len()
    &&& forall|p: int| 0 <= p < pg2.len() && p != d && p != t ==> #[trigger] pg2[p] == pg0[p]
    &&& pg2[d].len() == PAGE_SIZE
    &&& pg2[t].len() == PAGE_SIZE
    &&& forall|j: int| 0 <= j < MAX_SLOT ==> slot_used(pg2[d], j) == (j != k && slot_used(pg0[d], j))
    &&& used_slots(pg2[d], cap) == used_slots(pg0[d], cap).remove(k)
    &&& crate::data::dp_prev(pg2[d]) == crate::data::dp_prev(pg0[d])
    &&& crate::data::dp_next(pg2[d]) == crate::data::dp_next(pg0[d])
    &&& crate::data::dp_next_free(pg2[d]) == (if was_full {
        tv0.first_free
    } else {
        crate::data::dp_next_free(pg0[d])
    })
    &&& dp_count(pg2[d]) == dp_count(pg0[d]) - 1
    &&& table_of(pg2, t) == (TablePageV {
        first_free: if was_full {
            d as u32
        } else {
            tv0.first_free
        },
        ..tv0
    })
    &&& sh2 == released_shape(pg0, sh0, t, d)
}

#[verifier::spinoff_prover]
#[verifier::rlimit(40)]
proof fn lemma_take_pager(pg0: Seq<Seq<u8>>, sh0: Shape, pg2: Seq<Seq<u8>>, sh2: Shape, t: int, d: int, k: int)
    requires
        image_inv(pg0, sh0, tight()),
        0 < t < pg0.len(),
        sh0.kinds[t] is Table,
        table_of(pg0, t).first_free != NONE,
        d == table_of(pg0, t).first_free,
        take_edit(pg0, sh0, pg2, sh2, t, d, k),
    ensures
        pager_inv(pg2, sh2),
        heap_touch(pg0, sh0, pg2, sh2, t),
        sh2.free == sh0.free,
        sh0.kinds[d] matches Kind::Data { table, .. } && table == t,
        sh2.kinds[d] matches Kind::Data { table, .. } && table == t,
        forall|p: int| 0 <= p < pg0.len() && p != d ==> #[trigger] sh2.kinds[p] == sh0.kinds[p],
{
    reveal(structure_inv);
    reveal(take_edit);
    lemma_table_facts(pg0, sh0, t);
    assert(page_ok(pg0, sh0, d, tight()));
    assert forall|i: int| 0 <= i < sh2.free.len() implies #[trigger] free_ok_at(pg2, sh2, i) by {
        assert(free_ok_at(pg0, sh0, i));
    }
    assert(sh2.heaps.dom() =~= sh0.heaps.dom());
}

#[verifier::spinoff_prover]
#[verifier::rlimit(40)]
proof fn lemma_take_table(pg0: Seq<Seq<u8>>, sh0: Shape, pg2: Seq<Seq<u8>>, sh2: Shape, t: int, d: int, k: int)
    requires
        image_inv(pg0, sh0, tight()),
        0 < t < pg0.len(),
        sh0.kinds[t] is Table,
        table_of(pg0, t).first_free != NONE,
        d == table_of(pg0, t).first_free,
        take_edit(pg0, sh0, pg2, sh2, t, d, k),
    ensures
        table_ok(pg2, sh2, t),
{
    reveal(structure_inv);
    reveal(take_edit);
    let heap0 = sh0.heaps[t as nat];
    let heap2 = sh2.heaps[t as nat];
    let m = heap0.chain.len() as int;
    let tv0 = table_of(pg0, t);
    lemma_table_facts(pg0, sh0, t);
    assert(page_ok(pg0, sh0, d, tight()));
    assert forall|i: int| 0 <= i < heap2.ring.len() implies #[trigger] ring_ok_at(pg2, sh2, t, i) by {
        assert(ring_ok_at(pg0, sh0, t, i));
    }
    assert forall|j: int| 0 <= j < heap2.chain.len() implies #[trigger] chain_ok_at(pg2, sh2, t, j) by {
        if j < m {
            assert(chain_ok_at(pg0, sh0, t, j));
        }
    }
    assert forall|c: int| 0 <= c < tv0.cols.len() implies #[trigger] root_ok_at(pg2, sh2, t, c) by {
        assert(root_ok_at(pg0, sh0, t, c));
    }
}

#[verifier::spinoff_prover]
#[verifier::rlimit(40)]
proof fn lemma_take_data(pg0: Seq<Seq<u8>>, sh0: Shape, pg2: Seq<Seq<u8>>, sh2: Shape, t: int, d: int, k: int, e: int)
    requires
        image_inv(pg0, sh0, tight()),
        0 < t < pg0.len(),
        sh0.kinds[t] is Table,
        table_of(pg0, t).first_free != NONE,
        d == table_of(pg0, t).first_free,
        take_edit(pg0, sh0, pg2, sh2, t, d, k),
        0 <= e < pg2.len(),
        sh2.kinds[e] matches Kind::Data { table, .. } && table == t,
    ensures
        data_ok(pg2, sh2, e),
{
    reveal(structure_inv);
    reveal(take_edit);
    let heap0 = sh0.heaps[t as nat];
    let cap = table_of(pg0, t).cap as int;
    lemma_table_facts(pg0, sh0, t);
    assert(page_ok(pg0, sh0, d, tight()));
    assert(page_ok(pg0, sh0, e, tight()));
    lemma_used_slots_finite(pg0[d], cap);
    match sh0.kinds[e] {
        Kind::Data { link, .. } => {
            if link >= 0 {
                assert(chain_ok_at(pg0, sh0, t, link));
            }
        },
        _ => {},
    }
}

#[verifier::spinoff_prover]
proof fn lemma_take_rows(pg0: Seq<Seq<u8>>, sh0: Shape, pg2: Seq<Seq<u8>>, sh2: Shape, t: int, d: int, k: int)
    requires
        image_inv(pg0, sh0, tight()),
        0 < t < pg0.len(),
        sh0.kinds[t] is Table,
        table_of(pg0, t).first_free != NONE,
        d == table_of(pg0, t).first_free,
        take_edit(pg0, sh0, pg2, sh2, t, d, k),
    ensures
        rows_of(pg2, sh2, t as nat) == rows_of(pg0, sh0, t as nat).insert(Rid::make(d, k)),
        forall|u: nat| u != t && 0 < u < pg0.len() && sh0.kinds[u as int] is Table ==> #[trigger] rows_of(pg2, sh2, u) == rows_of(pg0, sh0, u),
{
    lemma_take_pager(pg0, sh0, pg2, sh2, t, d, k);
    lemma_table_facts(pg0, sh0, t);
    reveal(take_edit);
    let rid = Rid::make(d, k);
    assert(0 < d < MAX_PAGE && 0 <= k < MAX_SLOT);
    assert(rid.spec_page() == d && rid.spec_slot() == k);
    assert forall|r: Rid| #[trigger] rows_of(pg2, sh2, t as nat).contains(r) == (rows_of(pg0, sh0, t as nat).insert(Rid::make(d, k))).contains(r) by {
        if r.spec_page() == d && r.spec_slot() == k {
            assert(r.raw == rid.raw);
        }
    }
    assert(rows_of(pg2, sh2, t as nat) =~= rows_of(pg0, sh0, t as nat).insert(Rid::make(d, k)));
    assert forall|u: nat| u != t && 0 < u < pg0.len() && sh0.kinds[u as int] is Table implies #[trigger] rows_of(pg2, sh2, u) == rows_of(pg0, sh0, u) by {
        assert(table_of(pg2, u as int) == table_of(pg0, u as int));
        assert forall|r: Rid| #[trigger] rows_of(pg2, sh2, u).contains(r) == rows_of(pg0, sh0, u).contains(r) by {}
        assert(rows_of(pg2, sh2, u) =~= rows_of(pg0, sh0, u));
    }
}

/// Taking a slot leaves the pages without a role alone.
#[verifier::spinoff_prover]
proof fn lemma_take_loose(pg0: Seq<Seq<u8>>, sh0: Shape, pg2: Seq<Seq<u8>>, sh2: Shape, t: int, d: int, k: int)
    requires
        image_inv(pg0, sh0, tight()),
        0 < t < pg0.len(),
        sh0.kinds[t] is Table,
        table_of(pg0, t).first_free != NONE,
        d == table_of(pg0, t).first_free,
        take_edit(pg0, sh0, pg2, sh2, t, d, k),
    ensures
        loose_kept(pg0, sh0, pg2, sh2),
        sh2.heaps[t as nat].ring == sh0.heaps[t as nat].ring,
{
    lemma_table_facts(pg0, sh0, t);
    assert(sh0.kinds[d] is Data);
    reveal(take_edit);
    reveal(loose_kept);
    assert forall|p: int| 0 <= p < pg0.len() && (#[trigger] sh0.kinds[p]) is Loose implies p < pg2.len() && sh2.kinds[p] is Loose && pg2[p] == pg0[p] by {
        assert(p != t && p != d);
    }
}

/// Freeing a slot leaves the pages without a role alone.
#[verifier::spinoff_prover]
proof fn lemma_release_loose(pg0: Seq<Seq<u8>>, sh0: Shape, pg2: Seq<Seq<u8>>, sh2: Shape, t: int, d: int, k: int)
    requires
        image_inv(pg0, sh0, tight()),
        0 < t < pg0.len(),
        sh0.kinds[t] is Table,
        rows_of(pg0, sh0, t as nat).contains(Rid::make(d, k)),
        0 <= d < MAX_PAGE,
        0 <= k < MAX_SLOT,
        release_edit(pg0, sh0, pg2, sh2, t, d, k),
    ensures
        loose_kept(pg0, sh0, pg2, sh2),
        sh2.heaps[t as nat].ring == sh0.heaps[t as nat].ring,
{
    let rid = Rid::make(d, k);
    assert(rid.spec_page() == d && rid.spec_slot() == k);
    assert(sh0.kinds[d] is Data);
    reveal(release_edit);
    reveal(loose_kept);
    assert forall|p: int| 0 <= p < pg0.len() && (#[trigger] sh0.kinds[p]) is Loose implies p < pg2.len() && sh2.kinds[p] is Loose && pg2[p] == pg0[p] by {
        assert(p != t && p != d);
    }
}

#[verifier::spinoff_prover]
proof fn lemma_take(pg0: Seq<Seq<u8>>, sh0: Shape, pg2: Seq<Seq<u8>>, sh2: Shape, t: int, d: int, k: int)
    requires
        image_inv(pg0, sh0, tight()),
        0 < t < pg0.len(),
        sh0.kinds[t] is Table,
        table_of(pg0, t).first_free != NONE,
        d == table_of(pg0, t).first_free,
        take_edit(pg0, sh0, pg2, sh2, t, d, k),
    ensures
        image_inv(pg2, sh2, tight()),
        heap_step(pg0, sh0, pg2, sh2, t as nat),
        rows_of(pg2, sh2, t as nat) == rows_of(pg0, sh0, t as nat).insert(Rid::make(d, k)),
        !rows_of(pg0, sh0, t as nat).contains(Rid::make(d, k)),
        sh2.free == sh0.free,
{
    assert(!rows_of(pg0, sh0, t as nat).contains(Rid::make(d, k))) by {
        reveal(take_edit);
        lemma_head_facts(pg0, sh0, t);
        let rid = Rid::make(d, k);
        assert(rid.spec_page() == d && rid.spec_slot() == k);
    }
    lemma_take_pager(pg0, sh0, pg2, sh2, t, d, k);
    lemma_take_table(pg0, sh0, pg2, sh2, t, d, k);
    assert forall|e: int| 0 <= e < pg2.len() && ((#[trigger] sh2.kinds[e]) matches Kind::Data { table, .. } && table == t) implies data_ok(pg2, sh2, e) by {
        lemma_take_data(pg0, sh0, pg2, sh2, t, d, k, e);
    }
    lemma_heap_touch(pg0, sh0, pg2, sh2, t);
    lemma_take_rows(pg0, sh0, pg2, sh2, t, d, k);
    reveal(heap_step);
}

#[verifier::spinoff_prover]
#[verifier::rlimit(40)]
proof fn lemma_release_pager(pg0: Seq<Seq<u8>>, sh0: Shape, pg2: Seq<Seq<u8>>, sh2: Shape, t: int, d: int, k: int)
    requires
        image_inv(pg0, sh0, tight()),
        0 < t < pg0.len(),
        sh0.kinds[t] is Table,
        0 < d < pg0.len(),
        sh0.kinds[d] matches Kind::Data { table, .. } && table == t,
        0 <= k < table_of(pg0, t).cap,
        slot_used(pg0[d], k),
        release_edit(pg0, sh0, pg2, sh2, t, d, k),
    ensures
        pager_inv(pg2, sh2),
        heap_touch(pg0, sh0, pg2, sh2, t),
        sh2.free == sh0.free,
        sh0.kinds[d] matches Kind::Data { table, .. } && table == t,
        sh2.kinds[d] matches Kind::Data { table, .. } && table == t,
        forall|p: int| 0 <= p < pg0.len() && p != d ==> #[trigger] sh2.kinds[p] == sh0.kinds[p],
{
    reveal(structure_inv);
    reveal(release_edit);
    lemma_table_facts(pg0, sh0, t);
    assert(page_ok(pg0, sh0, d, tight()));
    assert forall|i: int| 0 <= i < sh2.free.len() implies #[trigger] free_ok_at(pg2, sh2, i) by {
        assert(free_ok_at(pg0, sh0, i));
    }
    assert(sh2.heaps.dom() =~= sh0.heaps.dom());
}

#[verifier::spinoff_prover]
#[verifier::rlimit(40)]
proof fn lemma_release_table(pg0: Seq<Seq<u8>>, sh0: Shape, pg2: Seq<Seq<u8>>, sh2: Shape, t: int, d: int, k: int)
    requires
        image_inv(pg0, sh0, tight()),
        0 < t < pg0.len(),
        sh0.kinds[t] is Table,
        0 < d < pg0.len(),
        sh0.kinds[d] matches Kind::Data { table, .. } && table == t,
        0 <= k < table_of(pg0, t).cap,
        slot_used(pg0[d], k),
        release_edit(pg0, sh0, pg2, sh2, t, d, k),
    ensures
        table_ok(pg2, sh2, t),
{
    reveal(structure_inv);
    reveal(release_edit);
    let heap0 = sh0.heaps[t as nat];
    let heap2 = sh2.heaps[t as nat];
    let m = heap0.chain.len() as int;
    let tv0 = table_of(pg0, t);
    lemma_table_facts(pg0, sh0, t);
    assert(page_ok(pg0, sh0, d, tight()));
    assert forall|i: int| 0 <= i < heap2.ring.len() implies #[trigger] ring_ok_at(pg2, sh2, t, i) by {
        assert(ring_ok_at(pg0, sh0, t, i));
    }
    assert forall|j: int| 0 <= j < heap2.chain.len() implies #[trigger] chain_ok_at(pg2, sh2, t, j) by {
        if j < m {
            assert(chain_ok_at(pg0, sh0, t, j));
        }
    }
    assert forall|c: int| 0 <= c < tv0.cols.len() implies #[trigger] root_ok_at(pg2, sh2, t, c) by {
        assert(root_ok_at(pg0, sh0, t, c));
    }
}

#[verifier::spinoff_prover]
#[verifier::rlimit(40)]
proof fn lemma_release_data(pg0: Seq<Seq<u8>>, sh0: Shape, pg2: Seq<Seq<u8>>, sh2: Shape, t: int, d: int, k: int, e: int)
    requires
        image_inv(pg0, sh0, tight()),
        0 < t < pg0.len(),
        sh0.kinds[t] is Table,
        0 < d < pg0.len(),
        sh0.kinds[d] matches Kind::Data { table, .. } && table == t,
        0 <= k < table_of(pg0, t).cap,
        slot_used(pg0[d], k),
        release_edit(pg0, sh0, pg2, sh2, t, d, k),
        0 <= e < pg2.len(),
        sh2.kinds[e] matches Kind::Data { table, .. } && table == t,
    ensures
        data_ok(pg2, sh2, e),
{
    reveal(structure_inv);
    reveal(release_edit);
    let heap0 = sh0.heaps[t as nat];
    let cap = table_of(pg0, t).cap as int;
    lemma_table_facts(pg0, sh0, t);
    assert(page_ok(pg0, sh0, d, tight()));
    assert(page_ok(pg0, sh0, e, tight()));
    lemma_used_slots_finite(pg0[d], cap);
    match sh0.kinds[e] {
        Kind::Data { link, .. } => {
            if link >= 0 {
                assert(chain_ok_at(pg0, sh0, t, link));
            }
        },
        _ => {},
    }
}

#[verifier::spinoff_prover]
proof fn lemma_release_rows(pg0: Seq<Seq<u8>>, sh0: Shape, pg2: Seq<Seq<u8>>, sh2: Shape, t: int, d: int, k: int)
    requires
        image_inv(pg0, sh0, tight()),
        0 < t < pg0.len(),
        sh0.kinds[t] is Table,
        0 < d < pg0.len(),
        sh0.kinds[d] matches Kind::Data { table, .. } && table == t,
        0 <= k < table_of(pg0, t).cap,
        slot_used(pg0[d], k),
        release_edit(pg0, sh0, pg2, sh2, t, d, k),
    ensures
        rows_of(pg2, sh2, t as nat) == rows_of(pg0, sh0, t as nat).remove(Rid::make(d, k)),
        forall|u: nat| u != t && 0 < u < pg0.len() && sh0.kinds[u as int] is Table ==> #[trigger] rows_of(pg2, sh2, u) == rows_of(pg0, sh0, u),
{
    lemma_release_pager(pg0, sh0, pg2, sh2, t, d, k);
    lemma_table_facts(pg0, sh0, t);
    reveal(release_edit);
    let rid = Rid::make(d, k);
    assert(0 < d < MAX_PAGE && 0 <= k < MAX_SLOT);
    assert(rid.spec_page() == d && rid.spec_slot() == k);
    assert forall|r: Rid| #[trigger] rows_of(pg2, sh2, t as nat).contains(r) == (rows_of(pg0, sh0, t as nat).remove(Rid::make(d, k))).contains(r) by {
        if r.spec_page() == d && r.spec_slot() == k {
            assert(r.raw == rid.raw);
        }
    }
    assert(rows_of(pg2, sh2, t as nat) =~= rows_of(pg0, sh0, t as nat).remove(Rid::make(d, k)));
    assert forall|u: nat| u != t && 0 < u < pg0.len() && sh0.kinds[u as int] is Table implies #[trigger] rows_of(pg2, sh2, u) == rows_of(pg0, sh0, u) by {
        assert(table_of(pg2, u as int) == table_of(pg0, u as int));
        assert forall|r: Rid| #[trigger] rows_of(pg2, sh2, u).contains(r) == rows_of(pg0, sh0, u).contains(r) by {}
        assert(rows_of(pg2, sh2, u) =~= rows_of(pg0, sh0, u));
    }
}

#[verifier::spinoff_prover]
#[verifier::rlimit(40)]
proof fn lemma_release(pg0: Seq<Seq<u8>>, sh0: Shape, pg2: Seq<Seq<u8>>, sh2: Shape, t: int, d: int, k: int)
    requires
        image_inv(pg0, sh0, tight()),
        0 < t < pg0.len(),
        sh0.kinds[t] is Table,
        rows_of(pg0, sh0, t as nat).contains(Rid::make(d, k)),
        0 <= d < MAX_PAGE,
        0 <= k < MAX_SLOT,
        release_edit(pg0, sh0, pg2, sh2, t, d, k),
    ensures
        image_inv(pg2, sh2, tight()),
        heap_step(pg0, sh0, pg2, sh2, t as nat),
        rows_of(pg2, sh2, t as nat) == rows_of(pg0, sh0, t as nat).remove(Rid::make(d, k)),
        sh2.free == sh0.free,
{
    let rid = Rid::make(d, k);
    assert(rid.spec_page() == d && rid.spec_slot() == k);
    assert(0 < d < pg0.len() && (sh0.kinds[d] matches Kind::Data { table, .. } && table == t) && 0 <= k < table_of(pg0, t).cap && slot_used(pg0[d], k)) by {
        reveal(structure_inv);
        assert(page_ok(pg0, sh0, d, tight()));
        assert(sh0.kinds[0] is Meta);
    }
    lemma_release_pager(pg0, sh0, pg2, sh2, t, d, k);
    lemma_release_table(pg0, sh0, pg2, sh2, t, d, k);
    assert forall|e: int| 0 <= e < pg2.len() && ((#[trigger] sh2.kinds[e]) matches Kind::Data { table, .. } && table == t) implies data_ok(pg2, sh2, e) by {
        lemma_release_data(pg0, sh0, pg2, sh2, t, d, k, e);
    }
    lemma_heap_touch(pg0, sh0, pg2, sh2, t);
    lemma_release_rows(pg0, sh0, pg2, sh2, t, d, k);
    reveal(heap_step);
}

} // verus!
