//! Dropping a table: its indexes, its data pages, its directory entry and its
//! table-meta page.

use vstd::prelude::*;
use crate::shape::tight;
use vstd::string::StringSliceAdditionalSpecFns;
use crate::catalog::{index_step, lemma_dir_facts, table_slot};
use crate::db::{Db, lemma_entries_frame, loose_kept, shape_after_deallocate};
use crate::error::{Error, ErrorV, Result};
use crate::frames::{heap_touch, in_tree, index_touch, lemma_heap_touch, sized};
use crate::heap::{lemma_ring_facts, lemma_table_facts, rows_of};
use crate::layout::{MAX_COL, MAX_PAGE, MAX_TABLE, MAX_TABLE_NAME, NONE, NO_TABLE, PAGE_SIZE};
use crate::data::{dp_next, read_link, DP_NEXT};
use crate::meta::{TableInfoV, first_free, has_magic, read_table_info, read_table_num, table_info_at, table_num, tables, write_table_info, write_table_num};
use crate::release::{as_nats, lemma_nodes_ok, lemma_quiet_twice, lemma_quiet_views, lemma_root_facts, lemma_walk_same, post_order, quiet, unindexed};
use crate::node::node_at;
use crate::shape::{Heap, Kind, Relax, Shape, apart, chain_ok_at, child_ok, col_types, data_ok, dir_ok_at, directory_ok, entries_of, foreign_ok, foreign_ok_at, free_ok_at, image_inv, is_leaf_of, is_structural, leaves_apart, node_ok, page_ok, pager_inv, ring_ok_at, root_ok_at, structure_inv, table_of, table_ok, unique_ok_at};
use crate::table::{ColInfo, ColInfoV, TablePage, TablePageV, col_at, col_num, lemma_col_frame, lemma_col_same, load_table_page, read_col, read_col_num, table_page_at, write_col, write_table_links};

verus! {

/// Whether a column of a table other than the one at directory position `idx`
/// refers to that table.
pub open spec fn refers_to(pg: Seq<Seq<u8>>, idx: int) -> bool {
    exists|u: int, d: int| #[trigger] ref_at(pg, idx, u, d)
}

pub open spec fn ref_at(pg: Seq<Seq<u8>>, idx: int, u: int, d: int) -> bool {
    &&& 0 <= u < tables(pg[0]).len()
    &&& u != idx
    &&& 0 <= d < table_of(pg, tables(pg[0])[u].meta as int).cols.len()
    &&& table_of(pg, tables(pg[0])[u].meta as int).cols[d].foreign_table == idx
}

/// A directory position after the entry at `last` moved to `idx`.
pub open spec fn remap_ref(ft: u8, last: int, idx: int) -> u8 {
    if ft == last {
        idx as u8
    } else {
        ft
    }
}

pub open spec fn remap_col(ci: ColInfoV, last: int, idx: int) -> ColInfoV {
    ColInfoV { foreign_table: remap_ref(ci.foreign_table, last, idx), ..ci }
}

/// A table-meta page after the directory entry at `last` moved to `idx`: its
/// foreign keys follow the move.
pub open spec fn remap_table(tv: TablePageV, last: int, idx: int) -> TablePageV {
    TablePageV { cols: Seq::new(tv.cols.len(), |d: int| remap_col(tv.cols[d], last, idx)), ..tv }
}

/// A directory after its entry at `idx` was removed: the last entry takes its
/// place.
pub open spec fn swap_removed(dir: Seq<TableInfoV>, idx: int) -> Seq<TableInfoV> {
    if idx == dir.len() - 1 {
        dir.drop_last()
    } else {
        dir.update(idx, dir.last()).drop_last()
    }
}

impl Db {
    /// Whether a column of another table refers to the table at directory
    /// position `idx`.
    #[verifier::spinoff_prover]
    pub(crate) fn is_referenced(&self, idx: usize) -> (r: bool)
        requires
            self.wf(),
            idx < self.directory().len(),
        ensures
            r == refers_to(self.image(), idx as int),
    {
        let meta = self.get_page(0);
        let n: usize = read_table_num(meta);
        let mut u: usize = 0;
        while u < n
            invariant
                u <= n,
                self.wf(),
                meta@ == self.image()[0],
                meta.len() == PAGE_SIZE,
                n == tables(self.image()[0]).len(),
                idx < n,
                forall|v: int, d: int| 0 <= v < u ==> !#[trigger] ref_at(self.image(), idx as int, v, d),
            decreases n - u,
        {
            if u != idx {
                let ti = read_table_info(meta, u);
                proof {
                    lemma_dir_facts(self.image(), self.shape(), u as int);
                }
                let page = self.get_page(ti.meta as usize);
                let m: usize = read_col_num(page);
                let mut d: usize = 0;
                while d < m
                    invariant
                        d <= m,
                        u < n,
                        u != idx,
                        idx < n,
                        n == tables(self.image()[0]).len(),
                        page.len() == PAGE_SIZE,
                        page@ == self.image()[tables(self.image()[0])[u as int].meta as int],
                        m == col_num(page@),
                        m < MAX_COL,
                        forall|v: int, e: int| 0 <= v < u ==> !#[trigger] ref_at(self.image(), idx as int, v, e),
                        forall|e: int| 0 <= e < d ==> !#[trigger] ref_at(self.image(), idx as int, u as int, e),
                    decreases m - d,
                {
                    let ci = read_col(page, d);
                    if ci.foreign_table as usize == idx {
                        assert(ref_at(self.image(), idx as int, u as int, d as int));
                        return true;
                    }
                    d += 1;
                }
            }
            u += 1;
        }
        false
    }

    /// The data pages of the table `tp` in ring order.
    #[verifier::spinoff_prover]
    pub(crate) fn ring_pages(&self, tp: &TablePage) -> (r: Vec<u32>)
        requires
            self.wf(),
            self.synced(tp),
        ensures
            as_nats(r@) == self.shape().heaps[tp.id as nat].ring,
    {
        let t: u32 = tp.id;
        let ghost pg = self.image();
        let ghost sh = self.shape();
        let ghost ring = sh.heaps[t as nat].ring;
        let ghost n = ring.len() as int;
        let mut out: Vec<u32> = Vec::new();
        let mut cur: u32 = tp.next;
        let ghost mut i: int = 0;
        proof {
            lemma_table_facts(pg, sh, t as int);
            if n > 0 {
                lemma_ring_facts(pg, sh, t as int, 0);
            }
        }
        while cur != t
            invariant
                self.wf(),
                self.synced(tp),
                pg == self.image(),
                sh == self.shape(),
                ring == sh.heaps[t as nat].ring,
                n == ring.len(),
                t == tp.id,
                0 <= i <= n,
                cur == (if i < n { ring[i] as u32 } else { t }),
                i < n ==> ring[i] != t && ring[i] < MAX_PAGE,
                out@.len() == i,
                forall|j: int| 0 <= j < i ==> (#[trigger] out@[j]) as nat == ring[j],
            decreases n - i,
        {
            proof {
                lemma_ring_facts(pg, sh, t as int, i);
            }
            out.push(cur);
            cur = read_link(self.get_page(cur as usize), DP_NEXT);
            proof {
                i = i + 1;
            }
        }
        proof {
            assert(as_nats(out@) =~= ring);
        }
        out
    }
}

/// How the pages change when the ring of table `t` is emptied.
#[verifier::opaque]
pub open spec fn ring_cleared(pg1: Seq<Seq<u8>>, pg2: Seq<Seq<u8>>, t: int) -> bool {
    &&& pg2.len() == pg1.len()
    &&& forall|p: int| 0 <= p < pg2.len() && p != t ==> #[trigger] pg2[p] == pg1[p]
    &&& pg2[t].len() == PAGE_SIZE
    &&& table_of(pg2, t) == (TablePageV { prev: t as u32, next: t as u32, first_free: NONE, ..table_of(pg1, t) })
}

/// The shape after the data pages of table `t` were taken off its ring: they
/// belong to no structure.
pub open spec fn emptied_shape(sh: Shape, t: int) -> Shape {
    Shape {
        kinds: Seq::new(
            sh.kinds.len(),
            |p: int|
                match sh.kinds[p] {
                    Kind::Data { table, .. } => if table == t {
                        Kind::Loose
                    } else {
                        sh.kinds[p]
                    },
                    _ => sh.kinds[p],
                },
        ),
        heaps: sh.heaps.insert(t as nat, Heap { ring: Seq::empty(), chain: Seq::empty() }),
        ..sh
    }
}

#[verifier::spinoff_prover]
proof fn lemma_empty_heap(pg: Seq<Seq<u8>>, sh: Shape, pg2: Seq<Seq<u8>>, sh2: Shape, t: int)
    requires
        image_inv(pg, sh, tight()),
        0 < t < pg.len(),
        sh.kinds[t] is Table,
        ring_cleared(pg, pg2, t),
        sh2 == emptied_shape(sh, t),
    ensures
        image_inv(pg2, sh2, tight()),
        heap_touch(pg, sh, pg2, sh2, t),
        forall|i: int| 0 <= i < sh.heaps[t as nat].ring.len() ==> 0 < #[trigger] sh.heaps[t as nat].ring[i] < pg2.len() && sh2.kinds[sh.heaps[t as nat].ring[i] as int] is Loose,
        sh.heaps[t as nat].ring.no_duplicates(),
        rows_of(pg2, sh2, t as nat) == Set::<crate::schema::Rid>::empty(),
        table_of(pg2, t) == (TablePageV { prev: t as u32, next: t as u32, first_free: NONE, ..table_of(pg, t) }),
        sh2.free == sh.free,
        pg2.len() == pg.len(),
{
    reveal(ring_cleared);
    lemma_table_facts(pg, sh, t);
    let ring = sh.heaps[t as nat].ring;
    assert forall|i: int| 0 <= i < sh2.free.len() implies #[trigger] free_ok_at(pg2, sh2, i) by {
        assert(free_ok_at(pg, sh, i));
    }
    assert(pager_inv(pg2, sh2));
    assert(sh2.heaps.dom() =~= sh.heaps.dom());
    assert(heap_touch(pg, sh, pg2, sh2, t));
    assert forall|c: int| 0 <= c < table_of(pg, t).cols.len() implies #[trigger] root_ok_at(pg2, sh2, t, c) by {
        assert(root_ok_at(pg, sh, t, c));
    }
    assert(table_ok(pg2, sh2, t));
    lemma_heap_touch(pg, sh, pg2, sh2, t);
    assert forall|i: int| 0 <= i < ring.len() implies 0 < #[trigger] ring[i] < pg2.len() && sh2.kinds[ring[i] as int] is Loose by {
        assert(ring_ok_at(pg, sh, t, i));
    }
    assert forall|i: int, j: int| 0 <= i < j < ring.len() implies ring[i] != ring[j] by {
        assert(ring_ok_at(pg, sh, t, i));
        assert(ring_ok_at(pg, sh, t, j));
    }
    assert forall|r: crate::schema::Rid| !(#[trigger] rows_of(pg2, sh2, t as nat).contains(r)) by {}
    assert(rows_of(pg2, sh2, t as nat) =~= Set::<crate::schema::Rid>::empty());
}

impl Db {
    #[verifier::spinoff_prover]
    fn clear_ring(&mut self, tp: &mut TablePage)
        requires
            old(tp).id < old(self).page_count(),
            old(self).image()[old(tp).id as int].len() == PAGE_SIZE,
            old(tp)@ == table_of(old(self).image(), old(tp).id as int),
        ensures
            ring_cleared(old(self).image(), final(self).image(), old(tp).id as int),
            final(tp)@ == table_of(final(self).image(), old(tp).id as int),
            final(tp).id == old(tp).id,
            final(self).shape() == old(self).shape(),
            final(self).spec_path() == old(self).spec_path(),
    {
        let t: usize = tp.id as usize;
        tp.prev = tp.id;
        tp.next = tp.id;
        tp.first_free = NONE;
        let mut head = self.take_page(t);
        write_table_links(&mut head, tp.prev, tp.next, tp.first_free);
        self.put_page(t, head);
        proof {
            reveal(ring_cleared);
        }
    }

    /// Gives every data page of the table `tp` back to the pager, in ring order,
    /// and leaves the table with an empty ring.
    #[verifier::spinoff_prover]
    #[verifier::rlimit(60)]
    pub(crate) fn drop_heap(&mut self, tp: &mut TablePage)
        requires
            old(self).wf(),
            old(self).synced(old(tp)),
        ensures
            final(self).wf(),
            final(self).synced(final(tp)),
            final(tp).id == old(tp).id,
            final(self).table(old(tp).id as nat) == (TablePageV { prev: old(tp).id, next: old(tp).id, first_free: NONE, ..old(self).table(old(tp).id as nat) }),
            final(self).rows(old(tp).id as nat) == Set::<crate::schema::Rid>::empty(),
            final(self).shape().heaps[old(tp).id as nat].ring.len() == 0,
            final(self).free_list() == old(self).free_list() + old(self).shape().heaps[old(tp).id as nat].ring,
            heap_drop_step(old(self).image(), old(self).shape(), final(self).image(), final(self).shape(), old(tp).id as int),
            final(self).spec_path() == old(self).spec_path(),
            final(self).page_count() == old(self).page_count(),
            loose_kept(old(self).image(), old(self).shape(), final(self).image(), final(self).shape()),
    {
        let ghost pg0 = self.image();
        let ghost sh0 = self.shape();
        let t: usize = tp.id as usize;
        proof {
            lemma_table_facts(pg0, sh0, t as int);
        }
        let list = self.ring_pages(tp);
        self.clear_ring(tp);
        self.set_shape(Ghost(emptied_shape(sh0, t as int)));
        let ghost pg1 = self.image();
        let ghost sh1 = self.shape();
        proof {
            lemma_empty_heap(pg0, sh0, pg1, sh1, t as int);
            let ring = sh0.heaps[t as nat].ring;
            assert forall|k: int| 0 <= k < list@.len() implies self.is_loose(#[trigger] list@[k] as nat) by {
                assert(as_nats(list@)[k] == ring[k]);
            }
            assert forall|j: int, k: int| 0 <= j < k < list@.len() implies list@[j] != list@[k] by {
                assert(as_nats(list@)[j] == ring[j]);
                assert(as_nats(list@)[k] == ring[k]);
            }
        }
        self.free_all(&list);
        proof {
            lemma_heap_drop_step(pg0, sh0, pg1, sh1, self.image(), self.shape(), t as int);
            lemma_drop_heap_loose(pg0, sh0, pg1, sh1, self.image(), self.shape(), t as int, list@);
        }
    }
}

/// Giving back the data pages of a table leaves alone the pages that had no
/// role before.
#[verifier::spinoff_prover]
proof fn lemma_drop_heap_loose(pg0: Seq<Seq<u8>>, sh0: Shape, pg1: Seq<Seq<u8>>, sh1: Shape, pg2: Seq<Seq<u8>>, sh2: Shape, t: int, list: Seq<u32>)
    requires
        image_inv(pg0, sh0, tight()),
        0 < t < pg0.len(),
        sh0.kinds[t] is Table,
        as_nats(list) == sh0.heaps[t as nat].ring,
        ring_cleared(pg0, pg1, t),
        sh1 == emptied_shape(sh0, t),
        pg2.len() == pg1.len(),
        forall|p: int| 0 <= p < pg1.len() && (#[trigger] sh1.kinds[p]) is Loose && !list.contains(p as u32) ==> sh2.kinds[p] is Loose && pg2[p] == pg1[p],
    ensures
        loose_kept(pg0, sh0, pg2, sh2),
{
    reveal(loose_kept);
    reveal(ring_cleared);
    lemma_table_facts(pg0, sh0, t);
    assert(pg0.len() <= MAX_PAGE);
    assert forall|p: int| 0 <= p < pg0.len() && (#[trigger] sh0.kinds[p]) is Loose implies p < pg2.len() && sh2.kinds[p] is Loose && pg2[p] == pg0[p] by {
        assert(p != t);
        assert(sh1.kinds[p] is Loose);
        assert(pg1[p] == pg0[p]);
        if list.contains(p as u32) {
            let k = choose|k: int| 0 <= k < list.len() && list[k] == p as u32;
            assert(as_nats(list)[k] == sh0.heaps[t as nat].ring[k]);
            assert(ring_ok_at(pg0, sh0, t, k));
        }
    }
}

/// Taking a table out of the directory and giving back its table-meta page
/// leaves alone the pages that had no role before.
#[verifier::spinoff_prover]
proof fn lemma_remove_loose(pg0: Seq<Seq<u8>>, sh0: Shape, pg1: Seq<Seq<u8>>, pg2: Seq<Seq<u8>>, sh2: Shape, pg3: Seq<Seq<u8>>, sh3: Shape, idx: int)
    requires
        removal(pg0, sh0, pg1, pg2, sh2, idx),
        pg3.len() == pg2.len(),
        sh3 == shape_after_deallocate(sh2, tables(pg0[0])[idx].meta as nat),
        forall|p: int| 0 < p < pg2.len() && p != tables(pg0[0])[idx].meta ==> #[trigger] pg3[p] == pg2[p],
    ensures
        loose_kept(pg0, sh0, pg3, sh3),
{
    reveal(loose_kept);
    lemma_remove_facts(pg0, sh0, pg1, pg2, sh2, idx);
    let m = tables(pg0[0])[idx].meta as int;
    assert(sh0.kinds[0] is Meta);
    assert forall|p: int| 0 <= p < pg0.len() && (#[trigger] sh0.kinds[p]) is Loose implies p < pg3.len() && sh3.kinds[p] is Loose && pg3[p] == pg0[p] by {
        assert(p != 0 && p != m);
        assert(pg2[p] == pg0[p] && sh2.kinds[p] == sh0.kinds[p]);
        assert(pg3[p] == pg2[p]);
    }
}

/// What dropping the data pages of table `t` leaves alone: the directory, every
/// catalog but for the links of `t`, the rows of every other table and the
/// entries of every index.
#[verifier::opaque]
pub open spec fn heap_drop_step(pg: Seq<Seq<u8>>, sh: Shape, pg2: Seq<Seq<u8>>, sh2: Shape, t: int) -> bool {
    &&& tables(pg2[0]) == tables(pg[0])
    &&& sh2.trees == sh.trees
    &&& forall|u: int| 0 < u < pg.len() && (#[trigger] sh.kinds[u]) is Table ==> u < pg2.len() && sh2.kinds[u] == sh.kinds[u] && table_of(pg2, u).cols == table_of(pg, u).cols && (u != t
        ==> table_of(pg2, u) == table_of(pg, u))
    &&& forall|u: int| 0 < u < pg2.len() && (#[trigger] sh2.kinds[u]) is Table ==> u < pg.len() && sh.kinds[u] == sh2.kinds[u]
    &&& forall|u: nat| u != t && 0 < u < pg.len() && sh.kinds[u as int] is Table ==> #[trigger] rows_of(pg2, sh2, u) == rows_of(pg, sh, u)
    &&& forall|u: nat, d: nat| #[trigger] entries_of(pg2, sh2, u, d) == entries_of(pg, sh, u, d)
    &&& forall|p: int| 0 <= p < pg.len() && (#[trigger] sh.kinds[p]) is Node ==> p < pg2.len() && sh2.kinds[p] == sh.kinds[p] && pg2[p] == pg[p]
    &&& forall|u: nat| u != t && 0 < u < pg.len() && sh.kinds[u as int] is Table ==> #[trigger] sh2.heaps[u] == sh.heaps[u]
}

#[verifier::spinoff_prover]
proof fn lemma_heap_drop_step(pg: Seq<Seq<u8>>, sh: Shape, pg1: Seq<Seq<u8>>, sh1: Shape, pg2: Seq<Seq<u8>>, sh2: Shape, t: int)
    requires
        image_inv(pg, sh, tight()),
        heap_touch(pg, sh, pg1, sh1, t),
        pg1.len() == pg.len(),
        quiet(pg1, sh1, pg2, sh2),
    ensures
        heap_drop_step(pg, sh, pg2, sh2, t),
        table_of(pg2, t) == table_of(pg1, t),
        rows_of(pg2, sh2, t as nat) == rows_of(pg1, sh1, t as nat),
        sh2.heaps[t as nat] == sh1.heaps[t as nat],
        0 < t < pg2.len() && sh2.kinds[t] is Table,
{
    reveal(heap_drop_step);
    reveal(quiet);
    assert(is_structural(sh1.kinds[t]));
    assert forall|u: nat| 0 < u < pg1.len() && sh1.kinds[u as int] is Table implies #[trigger] rows_of(pg2, sh2, u) == rows_of(pg1, sh1, u) by {
        assert(is_structural(sh1.kinds[u as int]));
        assert forall|r: crate::schema::Rid| #[trigger] rows_of(pg2, sh2, u).contains(r) == rows_of(pg1, sh1, u).contains(r) by {
            let d = r.spec_page() as int;
            if rows_of(pg2, sh2, u).contains(r) {
                assert(is_structural(sh2.kinds[d]));
            }
            if rows_of(pg1, sh1, u).contains(r) {
                assert(is_structural(sh1.kinds[d]));
            }
        }
        assert(rows_of(pg2, sh2, u) =~= rows_of(pg1, sh1, u));
    }
    assert forall|u: nat| u != t && 0 < u < pg.len() && sh.kinds[u as int] is Table implies #[trigger] rows_of(pg2, sh2, u) == rows_of(pg, sh, u) by {
        assert(rows_of(pg2, sh2, u) == rows_of(pg1, sh1, u));
        lemma_table_facts(pg, sh, u as int);
        assert forall|r: crate::schema::Rid| #[trigger] rows_of(pg1, sh1, u).contains(r) == rows_of(pg, sh, u).contains(r) by {
            let d = r.spec_page() as int;
            if rows_of(pg1, sh1, u).contains(r) {
                assert(sh1.kinds[d] is Data);
            }
            if rows_of(pg, sh, u).contains(r) {
                assert(sh.kinds[d] is Data);
            }
        }
        assert(rows_of(pg1, sh1, u) =~= rows_of(pg, sh, u));
    }
    assert forall|u: nat, d: nat| #[trigger] entries_of(pg2, sh2, u, d) == entries_of(pg, sh, u, d) by {
        assert forall|p: int| 0 <= p < pg.len() && #[trigger] is_leaf_of(sh, p, u, d) implies p < pg2.len() && pg2[p] == pg[p] && is_leaf_of(sh2, p, u, d) by {
            assert(sh.kinds[p] is Node);
            assert(is_structural(sh1.kinds[p]));
        }
        assert forall|p: int| 0 <= p < pg2.len() && #[trigger] is_leaf_of(sh2, p, u, d) implies p < pg.len() && is_leaf_of(sh, p, u, d) by {
            assert(is_structural(sh2.kinds[p]));
            assert(sh1.kinds[p] is Node);
        }
        lemma_entries_frame(pg, sh, pg2, sh2, u, d);
    }
    assert forall|u: int| 0 < u < pg.len() && (#[trigger] sh.kinds[u]) is Table implies u < pg2.len() && sh2.kinds[u] == sh.kinds[u] && table_of(pg2, u).cols == table_of(pg, u).cols && (u != t
        ==> table_of(pg2, u) == table_of(pg, u)) by {
        assert(is_structural(sh1.kinds[u]));
    }
    assert forall|u: int| 0 < u < pg2.len() && (#[trigger] sh2.kinds[u]) is Table implies u < pg.len() && sh.kinds[u] == sh2.kinds[u] by {
        assert(is_structural(sh2.kinds[u]));
        assert(sh1.kinds[u] is Table);
    }
    assert forall|p: int| 0 <= p < pg.len() && (#[trigger] sh.kinds[p]) is Node implies p < pg2.len() && sh2.kinds[p] == sh.kinds[p] && pg2[p] == pg[p] by {
        assert(is_structural(sh1.kinds[p]));
    }
}

/// How the pages change when the directory entry at `idx` is removed.
#[verifier::opaque]
pub open spec fn unlisted(pg1: Seq<Seq<u8>>, pg2: Seq<Seq<u8>>, idx: int) -> bool {
    &&& pg2.len() == pg1.len()
    &&& forall|p: int| 0 < p < pg2.len() ==> #[trigger] pg2[p] == pg1[p]
    &&& pg2[0].len() == PAGE_SIZE
    &&& tables(pg2[0]) == swap_removed(tables(pg1[0]), idx)
    &&& first_free(pg2[0]) == first_free(pg1[0])
    &&& has_magic(pg2[0]) == has_magic(pg1[0])
}

/// Whether `p` is the table-meta page of a directory entry.
pub open spec fn listed_page(pg: Seq<Seq<u8>>, p: int) -> bool {
    exists|u: int| 0 <= u < tables(pg[0]).len() && (#[trigger] tables(pg[0])[u]).meta == p
}

/// How the pages change when the foreign keys of every table follow the move
/// of the directory entry at `last` to `idx`.
#[verifier::opaque]
pub open spec fn refs_fixed(pg1: Seq<Seq<u8>>, pg2: Seq<Seq<u8>>, last: int, idx: int) -> bool {
    &&& pg2.len() == pg1.len()
    &&& pg2[0] == pg1[0]
    &&& forall|u: int| 0 <= u < tables(pg1[0]).len() ==> pg2[(#[trigger] tables(pg1[0])[u]).meta as int].len() == PAGE_SIZE && table_of(pg2, tables(pg1[0])[u].meta as int) == remap_table(
        table_of(pg1, tables(pg1[0])[u].meta as int),
        last,
        idx,
    )
    &&& forall|p: int| 0 <= p < pg2.len() && !listed_page(pg1, p) ==> #[trigger] pg2[p] == pg1[p]
}

/// The directory entries point at distinct pages of full size.
pub open spec fn directory_sound(pg: Seq<Seq<u8>>) -> bool {
    &&& pg.len() >= 1
    &&& pg[0].len() == PAGE_SIZE
    &&& forall|u: int| 0 <= u < tables(pg[0]).len() ==> 0 < (#[trigger] tables(pg[0])[u]).meta < pg.len() && pg[tables(pg[0])[u].meta as int].len() == PAGE_SIZE
    &&& forall|u: int, v: int| 0 <= u < v < tables(pg[0]).len() ==> (#[trigger] tables(pg[0])[u]).meta != (#[trigger] tables(pg[0])[v]).meta
}

impl Db {
    /// Removes the directory entry at `idx`: the last entry takes its place.
    #[verifier::spinoff_prover]
    fn unlist(&mut self, idx: usize)
        requires
            old(self).page_count() >= 1,
            old(self).image()[0].len() == PAGE_SIZE,
            idx < table_num(old(self).image()[0]),
        ensures
            unlisted(old(self).image(), final(self).image(), idx as int),
            final(self).shape() == old(self).shape(),
            final(self).spec_path() == old(self).spec_path(),
    {
        let mut meta = self.take_page(0);
        let ghost meta0 = meta@;
        let n: usize = read_table_num(&meta);
        if idx != n - 1 {
            let ti = read_table_info(&meta, n - 1);
            write_table_info(&mut meta, idx, ti.meta, ti.name.as_slice());
        }
        write_table_num(&mut meta, n - 1);
        proof {
            assert(tables(meta@) =~= swap_removed(tables(meta0), idx as int));
        }
        self.put_page(0, meta);
        proof {
            reveal(unlisted);
        }
    }

    /// Makes the foreign keys of the table-meta page `p` follow the move of the
    /// directory entry at `last` to `idx`.
    #[verifier::spinoff_prover]
    fn fix_refs(&mut self, p: usize, last: u8, idx: u8)
        requires
            p < old(self).page_count(),
            old(self).image()[p as int].len() == PAGE_SIZE,
        ensures
            final(self).image().len() == old(self).image().len(),
            forall|q: int| 0 <= q < old(self).image().len() && q != p ==> #[trigger] final(self).image()[q] == old(self).image()[q],
            final(self).image()[p as int].len() == PAGE_SIZE,
            table_of(final(self).image(), p as int) == remap_table(table_of(old(self).image(), p as int), last as int, idx as int),
            final(self).shape() == old(self).shape(),
            final(self).spec_path() == old(self).spec_path(),
    {
        let ghost pg1 = self.image();
        let mut page = self.take_page(p);
        let ghost page0 = page@;
        let n: usize = read_col_num(&page);
        let mut d: usize = 0;
        while d < n
            invariant
                d <= n,
                n == col_num(page0),
                n <= MAX_COL,
                page.len() == PAGE_SIZE,
                page0.len() == PAGE_SIZE,
                crate::layout::same_outside(page0, page@, crate::table::COLS_OFF as int, PAGE_SIZE as int),
                forall|e: int| 0 <= e < d ==> #[trigger] col_at(page@, e) == remap_col(col_at(page0, e), last as int, idx as int),
                forall|e: int| d <= e < MAX_COL ==> #[trigger] col_at(page@, e) == col_at(page0, e),
            decreases n - d,
        {
            let ci = read_col(&page, d);
            if ci.foreign_table == last {
                let fixed = ColInfo { ty: ci.ty, off: ci.off, flags: ci.flags, index: ci.index, foreign_table: idx, foreign_col: ci.foreign_col, name: ci.name };
                let ghost before = page@;
                write_col(&mut page, d, &fixed);
                proof {
                    assert forall|e: int| 0 <= e < MAX_COL && e != d implies #[trigger] col_at(page@, e) == col_at(before, e) by {
                        lemma_col_same(before, page@, e);
                    }
                }
            }
            d += 1;
        }
        proof {
            assert(table_page_at(p as u32, page@).cols =~= remap_table(table_page_at(p as u32, page0), last as int, idx as int).cols);
        }
        self.put_page(p, page);
    }

    /// Makes the foreign keys of every table follow the move of the directory
    /// entry at `last` to `idx`.
    #[verifier::spinoff_prover]
    fn fix_all(&mut self, last: u8, idx: u8)
        requires
            directory_sound(old(self).image()),
        ensures
            refs_fixed(old(self).image(), final(self).image(), last as int, idx as int),
            final(self).shape() == old(self).shape(),
            final(self).spec_path() == old(self).spec_path(),
    {
        let ghost pg1 = self.image();
        let n: usize = read_table_num(self.get_page(0));
        let mut u: usize = 0;
        while u < n
            invariant
                u <= n,
                n == tables(pg1[0]).len(),
                directory_sound(pg1),
                self.image().len() == pg1.len(),
                self.image()[0] == pg1[0],
                self.shape() == old(self).shape(),
                self.spec_path() == old(self).spec_path(),
                forall|v: int| 0 <= v < n ==> self.image()[(#[trigger] tables(pg1[0])[v]).meta as int].len() == PAGE_SIZE,
                forall|v: int| 0 <= v < u ==> table_of(self.image(), (#[trigger] tables(pg1[0])[v]).meta as int) == remap_table(table_of(pg1, tables(pg1[0])[v].meta as int), last as int, idx as int),
                forall|v: int| u <= v < n ==> self.image()[(#[trigger] tables(pg1[0])[v]).meta as int] == pg1[tables(pg1[0])[v].meta as int],
                forall|p: int| 0 <= p < pg1.len() && !listed_page(pg1, p) ==> #[trigger] self.image()[p] == pg1[p],
            decreases n - u,
        {
            let ti = read_table_info(self.get_page(0), u);
            let ghost before = self.image();
            assert(tables(pg1[0])[u as int].meta == ti.meta);
            self.fix_refs(ti.meta as usize, last, idx);
            proof {
                assert forall|v: int| 0 <= v < u + 1 implies table_of(self.image(), (#[trigger] tables(pg1[0])[v]).meta as int) == remap_table(table_of(pg1, tables(pg1[0])[v].meta as int), last as int, idx as int) by {
                    if v < u {
                        assert(tables(pg1[0])[v].meta != tables(pg1[0])[u as int].meta);
                    }
                }
                assert forall|p: int| 0 <= p < pg1.len() && !listed_page(pg1, p) implies #[trigger] self.image()[p] == pg1[p] by {
                    assert(before[p] == pg1[p]);
                    if p == ti.meta {
                        assert(tables(pg1[0])[u as int].meta == p);
                    }
                }
            }
            u += 1;
        }
        proof {
            reveal(refs_fixed);
        }
    }
}

/// The shape after the table at directory position `idx` left the directory:
/// its table-meta page belongs to no structure, and the table that stood last
/// knows its new position.
pub open spec fn removed_shape(pg: Seq<Seq<u8>>, sh: Shape, idx: int) -> Shape {
    let tabs = tables(pg[0]);
    let last = tabs.len() - 1;
    let m = tabs[idx].meta as int;
    Shape {
        kinds: if idx == last {
            sh.kinds.update(m, Kind::Loose)
        } else {
            sh.kinds.update(m, Kind::Loose).update(tabs[last].meta as int, Kind::Table { slot: idx as nat })
        },
        heaps: sh.heaps.remove(m as nat),
        ..sh
    }
}

/// What [`lemma_remove`] asks: the table at directory position `idx` has no
/// index and no data page, no other table refers to it, and the pages and the
/// shape changed as its removal changes them.
pub open spec fn removal(pg0: Seq<Seq<u8>>, sh0: Shape, pg1: Seq<Seq<u8>>, pg2: Seq<Seq<u8>>, sh2: Shape, idx: int) -> bool {
    let tabs = tables(pg0[0]);
    let m = tabs[idx].meta as int;
    &&& image_inv(pg0, sh0, tight())
    &&& 0 <= idx < tabs.len()
    &&& forall|c: int| 0 <= c < table_of(pg0, m).cols.len() ==> (#[trigger] table_of(pg0, m).cols[c]).index == NONE
    &&& sh0.heaps[m as nat].ring.len() == 0
    &&& !refers_to(pg0, idx)
    &&& unlisted(pg0, pg1, idx)
    &&& refs_fixed(pg1, pg2, tabs.len() - 1, idx)
    &&& sh2 == removed_shape(pg0, sh0, idx)
}

/// The table-meta page `p` of a table that stays.
pub open spec fn stays(pg0: Seq<Seq<u8>>, sh0: Shape, idx: int, p: int) -> bool {
    &&& 0 < p < pg0.len()
    &&& sh0.kinds[p] is Table
    &&& p != tables(pg0[0])[idx].meta
}

#[verifier::spinoff_prover]
proof fn lemma_remove_facts(pg0: Seq<Seq<u8>>, sh0: Shape, pg1: Seq<Seq<u8>>, pg2: Seq<Seq<u8>>, sh2: Shape, idx: int)
    requires
        removal(pg0, sh0, pg1, pg2, sh2, idx),
    ensures
        pager_inv(pg2, sh2),
        0 < tables(pg0[0])[idx].meta < pg0.len(),
        sh0.kinds[tables(pg0[0])[idx].meta as int] == (Kind::Table { slot: idx as nat }),
        sh2.kinds[tables(pg0[0])[idx].meta as int] is Loose,
        tables(pg2[0]) == swap_removed(tables(pg0[0]), idx),
        forall|p: int| #[trigger] stays(pg0, sh0, idx, p) ==> sh2.kinds[p] is Table && table_of(pg2, p) == remap_table(table_of(pg0, p), tables(pg0[0]).len() - 1, idx),
        forall|p: int| 0 < p < pg0.len() && !((#[trigger] sh0.kinds[p]) is Table) ==> pg2[p] == pg0[p] && sh2.kinds[p] == sh0.kinds[p],
        forall|p: int| 0 < p < pg2.len() && (#[trigger] sh2.kinds[p]) is Table ==> stays(pg0, sh0, idx, p),
        forall|p: int| 0 < p < pg2.len() && ((#[trigger] sh2.kinds[p]) is Node || sh2.kinds[p] is Data) ==> sh0.kinds[p] == sh2.kinds[p] && pg2[p] == pg0[p],
        pg2.len() == pg0.len(),
        sh2.kinds.len() == pg2.len(),
        sh2.trees == sh0.trees,
        sh2.free == sh0.free,
        forall|u: nat| u != tables(pg0[0])[idx].meta ==> sh2.heaps.dom().contains(u) == sh0.heaps.dom().contains(u) && #[trigger] sh2.heaps[u] == sh0.heaps[u],
{
    reveal(structure_inv);
    reveal(unlisted);
    reveal(refs_fixed);
    let tabs = tables(pg0[0]);
    let tabs1 = tables(pg1[0]);
    let last = tabs.len() - 1;
    let m = tabs[idx].meta as int;
    assert(dir_ok_at(pg0, sh0, idx));
    assert(dir_ok_at(pg0, sh0, last));
    assert forall|i: int| 0 <= i < sh2.free.len() implies #[trigger] free_ok_at(pg2, sh2, i) by {
        assert(free_ok_at(pg0, sh0, i));
        assert(!listed_page(pg1, sh0.free[i] as int)) by {
            if listed_page(pg1, sh0.free[i] as int) {
                let u = choose|u: int| 0 <= u < tabs1.len() && (#[trigger] tabs1[u]).meta == sh0.free[i] as int;
                assert(dir_ok_at(pg0, sh0, u));
            }
        }
    }
    assert forall|p: int| #[trigger] stays(pg0, sh0, idx, p) implies sh2.kinds[p] is Table && table_of(pg2, p) == remap_table(table_of(pg0, p), last, idx) by {
        match sh0.kinds[p] {
            Kind::Table { slot } => {
                assert(dir_ok_at(pg0, sh0, slot as int));
                let u = if slot == last { idx } else { slot as int };
                assert(tabs1[u].meta == p);
                assert(table_of(pg1, p) == table_of(pg0, p));
            },
            _ => {},
        }
    }
    assert forall|p: int| 0 < p < pg0.len() && !((#[trigger] sh0.kinds[p]) is Table) implies pg2[p] == pg0[p] && sh2.kinds[p] == sh0.kinds[p] by {
        if listed_page(pg1, p) {
            let u = choose|u: int| 0 <= u < tabs1.len() && (#[trigger] tabs1[u]).meta == p;
            assert(dir_ok_at(pg0, sh0, u));
        }
    }
    assert forall|p: int| 0 < p < pg2.len() && ((#[trigger] sh2.kinds[p]) is Node || sh2.kinds[p] is Data) implies sh0.kinds[p] == sh2.kinds[p] && pg2[p] == pg0[p] by {
        if sh0.kinds[p] is Table {
            if p != m {
                assert(stays(pg0, sh0, idx, p));
            }
        }
    }
}

#[verifier::spinoff_prover]
proof fn lemma_remove_directory(pg0: Seq<Seq<u8>>, sh0: Shape, pg1: Seq<Seq<u8>>, pg2: Seq<Seq<u8>>, sh2: Shape, idx: int)
    requires
        removal(pg0, sh0, pg1, pg2, sh2, idx),
    ensures
        directory_ok(pg2, sh2),
{
    lemma_remove_facts(pg0, sh0, pg1, pg2, sh2, idx);
    reveal(structure_inv);
    let tabs = tables(pg0[0]);
    let tabs2 = tables(pg2[0]);
    let last = tabs.len() - 1;
    assert(dir_ok_at(pg0, sh0, idx));
    assert(dir_ok_at(pg0, sh0, last));
    assert forall|t: int| 0 <= t < tabs2.len() implies #[trigger] dir_ok_at(pg2, sh2, t) by {
        assert(dir_ok_at(pg0, sh0, t));
    }
    assert forall|p: int| 0 <= p < pg2.len() implies ((#[trigger] sh2.kinds[p]) matches Kind::Table { slot } ==> slot < tabs2.len() && tabs2[slot as int].meta == p) by {
        if sh2.kinds[p] is Table {
            assert(stays(pg0, sh0, idx, p));
            match sh0.kinds[p] {
                Kind::Table { slot } => {
                    assert(dir_ok_at(pg0, sh0, slot as int));
                },
                _ => {},
            }
        }
    }
}

#[verifier::spinoff_prover]
proof fn lemma_remove_foreign(pg0: Seq<Seq<u8>>, sh0: Shape, pg1: Seq<Seq<u8>>, pg2: Seq<Seq<u8>>, sh2: Shape, idx: int)
    requires
        removal(pg0, sh0, pg1, pg2, sh2, idx),
    ensures
        foreign_ok(pg2),
{
    lemma_remove_facts(pg0, sh0, pg1, pg2, sh2, idx);
    reveal(structure_inv);
    let tabs = tables(pg0[0]);
    let tabs2 = tables(pg2[0]);
    let last = tabs.len() - 1;
    assert(dir_ok_at(pg0, sh0, idx));
    assert(dir_ok_at(pg0, sh0, last));
    assert forall|t: int, c: int| 0 <= t < tabs2.len() && 0 <= c < table_of(pg2, tabs2[t].meta as int).cols.len() implies #[trigger] foreign_ok_at(pg2, t, c) by {
        let t0 = if t == idx { last } else { t };
        assert(dir_ok_at(pg0, sh0, t0));
        let p = tabs[t0].meta as int;
        assert(stays(pg0, sh0, idx, p));
        assert(foreign_ok_at(pg0, t0, c));
        let ft0 = table_of(pg0, p).cols[c].foreign_table;
        assert(!ref_at(pg0, idx, t0, c));
        if ft0 != NO_TABLE {
            assert(dir_ok_at(pg0, sh0, ft0 as int));
            let q = tabs[ft0 as int].meta as int;
            assert(stays(pg0, sh0, idx, q));
        }
    }
}

#[verifier::spinoff_prover]
proof fn lemma_remove_table(pg0: Seq<Seq<u8>>, sh0: Shape, pg1: Seq<Seq<u8>>, pg2: Seq<Seq<u8>>, sh2: Shape, idx: int, p: int)
    requires
        removal(pg0, sh0, pg1, pg2, sh2, idx),
        0 < p < pg2.len(),
        sh2.kinds[p] is Table,
    ensures
        table_ok(pg2, sh2, p),
{
    lemma_remove_facts(pg0, sh0, pg1, pg2, sh2, idx);
    assert(stays(pg0, sh0, idx, p));
    assert(table_ok(pg0, sh0, p)) by {
        reveal(structure_inv);
        assert(page_ok(pg0, sh0, p, tight()));
    }
    let heap = sh0.heaps[p as nat];
    let tv = table_of(pg0, p);
    let tv2 = table_of(pg2, p);
    assert(sh2.heaps[p as nat] == heap);
    assert(col_types(tv2.cols) =~= col_types(tv.cols));
    assert forall|i: int| 0 <= i < heap.ring.len() implies #[trigger] ring_ok_at(pg2, sh2, p, i) by {
        assert(ring_ok_at(pg0, sh0, p, i));
    }
    assert forall|j: int| 0 <= j < heap.chain.len() implies #[trigger] chain_ok_at(pg2, sh2, p, j) by {
        assert(chain_ok_at(pg0, sh0, p, j));
    }
    assert forall|c: int| 0 <= c < tv2.cols.len() implies #[trigger] root_ok_at(pg2, sh2, p, c) by {
        assert(root_ok_at(pg0, sh0, p, c));
    }
}

#[verifier::spinoff_prover]
proof fn lemma_remove_data(pg0: Seq<Seq<u8>>, sh0: Shape, pg1: Seq<Seq<u8>>, pg2: Seq<Seq<u8>>, sh2: Shape, idx: int, p: int)
    requires
        removal(pg0, sh0, pg1, pg2, sh2, idx),
        0 < p < pg2.len(),
        sh2.kinds[p] is Data,
    ensures
        data_ok(pg2, sh2, p),
{
    lemma_remove_facts(pg0, sh0, pg1, pg2, sh2, idx);
    match sh0.kinds[p] {
        Kind::Data { table, pos, link } => {
            assert(data_ok(pg0, sh0, p) && table_ok(pg0, sh0, table as int)) by {
                reveal(structure_inv);
                assert(page_ok(pg0, sh0, p, tight()));
                assert(page_ok(pg0, sh0, table as int, tight()));
            }
            assert(stays(pg0, sh0, idx, table as int));
            assert(sh2.heaps[table] == sh0.heaps[table]);
        },
        _ => {},
    }
}

#[verifier::spinoff_prover]
proof fn lemma_remove_node(pg0: Seq<Seq<u8>>, sh0: Shape, pg1: Seq<Seq<u8>>, pg2: Seq<Seq<u8>>, sh2: Shape, idx: int, p: int)
    requires
        removal(pg0, sh0, pg1, pg2, sh2, idx),
        0 < p < pg2.len(),
        sh2.kinds[p] is Node,
    ensures
        node_ok(pg2, sh2, p, tight()),
{
    lemma_remove_facts(pg0, sh0, pg1, pg2, sh2, idx);
    match sh0.kinds[p] {
        Kind::Node { table, col, height, parent, slot, lo, hi } => {
            assert(node_ok(pg0, sh0, p, tight())) by {
                reveal(structure_inv);
                assert(page_ok(pg0, sh0, p, tight()));
            }
            assert(stays(pg0, sh0, idx, table as int));
            let n = crate::node::node_at(pg0[p]).entries.len();
            if height > 0 {
                assert forall|i: int| 0 <= i < n implies #[trigger] child_ok(pg2, sh2, p, i) by {
                    assert(child_ok(pg0, sh0, p, i));
                }
            }
        },
        _ => {},
    }
}

#[verifier::spinoff_prover]
proof fn lemma_remove_page(pg0: Seq<Seq<u8>>, sh0: Shape, pg1: Seq<Seq<u8>>, pg2: Seq<Seq<u8>>, sh2: Shape, idx: int, p: int)
    requires
        removal(pg0, sh0, pg1, pg2, sh2, idx),
        0 <= p < pg2.len(),
    ensures
        page_ok(pg2, sh2, p, tight()),
{
    lemma_remove_facts(pg0, sh0, pg1, pg2, sh2, idx);
    if p > 0 {
        if sh2.kinds[p] is Table {
            lemma_remove_table(pg0, sh0, pg1, pg2, sh2, idx, p);
        } else if sh2.kinds[p] is Data {
            lemma_remove_data(pg0, sh0, pg1, pg2, sh2, idx, p);
        } else if sh2.kinds[p] is Node {
            lemma_remove_node(pg0, sh0, pg1, pg2, sh2, idx, p);
        }
    }
}

/// What dropping the table at directory position `idx` leaves alone: every
/// other table keeps its catalog, but for foreign keys that follow the move of
/// the last directory entry, its rows and the entries of its indexes.
#[verifier::opaque]
pub open spec fn others_kept(pg0: Seq<Seq<u8>>, sh0: Shape, pg2: Seq<Seq<u8>>, sh2: Shape, idx: int) -> bool {
    &&& forall|p: int| #[trigger] stays(pg0, sh0, idx, p) ==> p < pg2.len() && sh2.kinds[p] is Table && table_of(pg2, p) == remap_table(table_of(pg0, p), tables(pg0[0]).len() - 1, idx)
    &&& forall|p: int| stays(pg0, sh0, idx, p) ==> #[trigger] rows_of(pg2, sh2, p as nat) == rows_of(pg0, sh0, p as nat)
    &&& forall|p: int, d: nat| stays(pg0, sh0, idx, p) ==> #[trigger] entries_of(pg2, sh2, p as nat, d) == entries_of(pg0, sh0, p as nat, d)
}

#[verifier::spinoff_prover]
proof fn lemma_remove_globals(pg0: Seq<Seq<u8>>, sh0: Shape, pg1: Seq<Seq<u8>>, pg2: Seq<Seq<u8>>, sh2: Shape, idx: int)
    requires
        removal(pg0, sh0, pg1, pg2, sh2, idx),
    ensures
        leaves_apart(sh2),
        forall|t: int, c: int| 0 <= t < pg2.len() ==> #[trigger] unique_ok_at(pg2, sh2, t, c),
        others_kept(pg0, sh0, pg2, sh2, idx),
{
    lemma_remove_facts(pg0, sh0, pg1, pg2, sh2, idx);
    reveal(structure_inv);
    reveal(others_kept);
    assert(sh0.kinds[0] is Meta && sh2.kinds[0] is Meta);
    assert forall|p: int, q: int| 0 <= p < sh2.kinds.len() && 0 <= q < sh2.kinds.len() implies #[trigger] apart(sh2, p, q) by {
        if sh2.kinds[p] is Node && sh2.kinds[q] is Node {
            assert(apart(sh0, p, q));
        }
    }
    assert forall|u: nat, d: nat| #[trigger] entries_of(pg2, sh2, u, d) == entries_of(pg0, sh0, u, d) by {
        assert forall|p: int| 0 <= p < pg0.len() && #[trigger] is_leaf_of(sh0, p, u, d) implies p < pg2.len() && pg2[p] == pg0[p] && is_leaf_of(sh2, p, u, d) by {
            assert(sh0.kinds[p] is Node);
        }
        assert forall|p: int| 0 <= p < pg2.len() && #[trigger] is_leaf_of(sh2, p, u, d) implies p < pg0.len() && is_leaf_of(sh0, p, u, d) by {
            assert(sh2.kinds[p] is Node);
        }
        lemma_entries_frame(pg0, sh0, pg2, sh2, u, d);
    }
    assert forall|t: int, c: int| 0 <= t < pg2.len() implies #[trigger] unique_ok_at(pg2, sh2, t, c) by {
        if sh2.kinds[t] is Table {
            assert(stays(pg0, sh0, idx, t));
            assert(unique_ok_at(pg0, sh0, t, c));
            assert(entries_of(pg2, sh2, t as nat, c as nat) == entries_of(pg0, sh0, t as nat, c as nat));
        }
    }
    assert forall|p: int| stays(pg0, sh0, idx, p) implies #[trigger] rows_of(pg2, sh2, p as nat) == rows_of(pg0, sh0, p as nat) by {
        assert forall|r: crate::schema::Rid| #[trigger] rows_of(pg2, sh2, p as nat).contains(r) == rows_of(pg0, sh0, p as nat).contains(r) by {
            let d = r.spec_page() as int;
            if rows_of(pg2, sh2, p as nat).contains(r) {
                assert(sh2.kinds[d] is Data);
            }
            if rows_of(pg0, sh0, p as nat).contains(r) {
                assert(sh0.kinds[d] is Data);
            }
        }
        assert(rows_of(pg2, sh2, p as nat) =~= rows_of(pg0, sh0, p as nat));
    }
}

/// Removing a table that has no index and no data page, and to which no other
/// table refers, leaves an image that obeys every rule.
#[verifier::spinoff_prover]
proof fn lemma_remove(pg0: Seq<Seq<u8>>, sh0: Shape, pg1: Seq<Seq<u8>>, pg2: Seq<Seq<u8>>, sh2: Shape, idx: int)
    requires
        removal(pg0, sh0, pg1, pg2, sh2, idx),
    ensures
        image_inv(pg2, sh2, tight()),
        others_kept(pg0, sh0, pg2, sh2, idx),
        tables(pg2[0]) == swap_removed(tables(pg0[0]), idx),
        0 < tables(pg0[0])[idx].meta < pg2.len(),
        sh2.kinds[tables(pg0[0])[idx].meta as int] is Loose,
        sh2.free == sh0.free,
        pg2.len() == pg0.len(),
{
    lemma_remove_facts(pg0, sh0, pg1, pg2, sh2, idx);
    lemma_remove_directory(pg0, sh0, pg1, pg2, sh2, idx);
    lemma_remove_foreign(pg0, sh0, pg1, pg2, sh2, idx);
    lemma_remove_globals(pg0, sh0, pg1, pg2, sh2, idx);
    assert forall|p: int| 0 <= p < pg2.len() implies #[trigger] page_ok(pg2, sh2, p, tight()) by {
        lemma_remove_page(pg0, sh0, pg1, pg2, sh2, idx, p);
    }
    reveal(structure_inv);
}

/// Only the indexes, the data pages, the links and the index roots of the table
/// whose table-meta page is `m` differ between the two images, as far as tables
/// go.
#[verifier::opaque]
pub open spec fn calm(pg0: Seq<Seq<u8>>, sh0: Shape, pg: Seq<Seq<u8>>, sh: Shape, m: int) -> bool {
    &&& sized(pg0, sh0)
    &&& sized(pg, sh)
    &&& pg.len() == pg0.len()
    &&& tables(pg[0]) == tables(pg0[0])
    &&& forall|u: int| 0 < u < pg0.len() ==> ((#[trigger] sh0.kinds[u]) is Table <==> sh.kinds[u] is Table) && (sh0.kinds[u] is Table ==> sh.kinds[u] == sh0.kinds[u])
    &&& forall|u: int| 0 < u < pg0.len() && (#[trigger] sh0.kinds[u]) is Table && u != m ==> table_of(pg, u) == table_of(pg0, u)
    &&& forall|u: nat| 0 < u < pg0.len() && sh0.kinds[u as int] is Table && u != m ==> #[trigger] rows_of(pg, sh, u) == rows_of(pg0, sh0, u)
    &&& forall|u: nat, d: nat| 0 < u < pg0.len() && sh0.kinds[u as int] is Table && u != m ==> #[trigger] entries_of(pg, sh, u, d) == entries_of(pg0, sh0, u, d)
    &&& table_of(pg, m).cols.len() == table_of(pg0, m).cols.len()
}

/// The second list starts with the first.
pub open spec fn grown(a: Seq<nat>, b: Seq<nat>) -> bool {
    a.len() <= b.len() && b.subrange(0, a.len() as int) == a
}

#[verifier::spinoff_prover]
proof fn lemma_calm_self(pg: Seq<Seq<u8>>, sh: Shape, m: int)
    requires
        sized(pg, sh),
    ensures
        calm(pg, sh, pg, sh, m),
{
    reveal(calm);
}

#[verifier::spinoff_prover]
proof fn lemma_calm_index(pg0: Seq<Seq<u8>>, sh0: Shape, pg: Seq<Seq<u8>>, sh: Shape, pg2: Seq<Seq<u8>>, sh2: Shape, m: int, c: int)
    requires
        calm(pg0, sh0, pg, sh, m),
        0 < m < pg0.len(),
        sh0.kinds[m] is Table,
        index_step(pg, sh, pg2, sh2, m, c),
        pg2.len() == pg.len(),
    ensures
        calm(pg0, sh0, pg2, sh2, m),
        sh2.heaps == sh.heaps,
        forall|d: int| 0 <= d < table_of(pg, m).cols.len() && d != c ==> #[trigger] table_of(pg2, m).cols[d] == table_of(pg, m).cols[d],
        rows_of(pg2, sh2, m as nat) == rows_of(pg, sh, m as nat),
        table_of(pg2, m) == (TablePageV { cols: table_of(pg2, m).cols, ..table_of(pg, m) }),
        sh2.kinds[m] is Table,
{
    reveal(calm);
    reveal(index_step);
    assert forall|u: int| 0 < u < pg0.len() implies ((#[trigger] sh0.kinds[u]) is Table <==> sh2.kinds[u] is Table) && (sh0.kinds[u] is Table ==> sh2.kinds[u] == sh0.kinds[u]) by {
        if sh.kinds[u] is Table {
            assert(is_structural(sh.kinds[u]));
        }
        if sh2.kinds[u] is Table {
            assert(is_structural(sh2.kinds[u]));
        }
    }
    assert forall|u: int| 0 < u < pg0.len() && (#[trigger] sh0.kinds[u]) is Table && u != m implies table_of(pg2, u) == table_of(pg0, u) by {
        assert(is_structural(sh.kinds[u]));
    }
    assert forall|u: nat| 0 < u < pg0.len() && sh0.kinds[u as int] is Table && u != m implies #[trigger] rows_of(pg2, sh2, u) == rows_of(pg0, sh0, u) by {
        assert(rows_of(pg, sh, u) == rows_of(pg0, sh0, u));
        assert(sh.kinds[u as int] is Table);
    }
    assert forall|u: nat, d: nat| 0 < u < pg0.len() && sh0.kinds[u as int] is Table && u != m implies #[trigger] entries_of(pg2, sh2, u, d) == entries_of(pg0, sh0, u, d) by {
        assert(entries_of(pg, sh, u, d) == entries_of(pg0, sh0, u, d));
    }
    assert(sh.kinds[m] is Table);
}

#[verifier::spinoff_prover]
proof fn lemma_calm_heap(pg0: Seq<Seq<u8>>, sh0: Shape, pg: Seq<Seq<u8>>, sh: Shape, pg2: Seq<Seq<u8>>, sh2: Shape, m: int)
    requires
        calm(pg0, sh0, pg, sh, m),
        0 < m < pg0.len(),
        sh0.kinds[m] is Table,
        heap_drop_step(pg, sh, pg2, sh2, m),
        pg2.len() == pg.len(),
        sized(pg2, sh2),
    ensures
        calm(pg0, sh0, pg2, sh2, m),
        table_of(pg2, m).cols == table_of(pg, m).cols,
{
    reveal(calm);
    reveal(heap_drop_step);
    assert(sh.kinds[m] is Table);
    assert forall|u: nat| 0 < u < pg0.len() && sh0.kinds[u as int] is Table && u != m implies #[trigger] rows_of(pg2, sh2, u) == rows_of(pg0, sh0, u) by {
        assert(rows_of(pg, sh, u) == rows_of(pg0, sh0, u));
        assert(sh.kinds[u as int] is Table);
    }
    assert forall|u: nat, d: nat| 0 < u < pg0.len() && sh0.kinds[u as int] is Table && u != m implies #[trigger] entries_of(pg2, sh2, u, d) == entries_of(pg0, sh0, u, d) by {
        assert(entries_of(pg, sh, u, d) == entries_of(pg0, sh0, u, d));
    }
}

/// Whether another table refers to a table depends on the other tables alone.
#[verifier::spinoff_prover]
proof fn lemma_calm_refs(pg0: Seq<Seq<u8>>, sh0: Shape, pg: Seq<Seq<u8>>, sh: Shape, idx: int)
    requires
        image_inv(pg0, sh0, tight()),
        0 <= idx < tables(pg0[0]).len(),
        calm(pg0, sh0, pg, sh, tables(pg0[0])[idx].meta as int),
        !refers_to(pg0, idx),
    ensures
        !refers_to(pg, idx),
{
    reveal(calm);
    reveal(structure_inv);
    if refers_to(pg, idx) {
        let (u, d) = choose|u: int, d: int| #[trigger] ref_at(pg, idx, u, d);
        assert(dir_ok_at(pg0, sh0, u));
        assert(dir_ok_at(pg0, sh0, idx));
        assert(ref_at(pg0, idx, u, d));
    }
}

/// After the steps of a drop, every other table is as [`others_kept`] says.
#[verifier::spinoff_prover]
proof fn lemma_drop_done(pg0: Seq<Seq<u8>>, sh0: Shape, pga: Seq<Seq<u8>>, sha: Shape, pg2: Seq<Seq<u8>>, sh2: Shape, pg3: Seq<Seq<u8>>, sh3: Shape, idx: int)
    requires
        image_inv(pg0, sh0, tight()),
        0 <= idx < tables(pg0[0]).len(),
        calm(pg0, sh0, pga, sha, tables(pg0[0])[idx].meta as int),
        others_kept(pga, sha, pg2, sh2, idx),
        quiet(pg2, sh2, pg3, sh3),
    ensures
        others_kept(pg0, sh0, pg3, sh3, idx),
{
    reveal(calm);
    reveal(others_kept);
    reveal(crate::release::quiet);
    let m = tables(pg0[0])[idx].meta as int;
    assert forall|p: int| #[trigger] stays(pg0, sh0, idx, p) implies p < pg3.len() && sh3.kinds[p] is Table && table_of(pg3, p) == remap_table(table_of(pg0, p), tables(pg0[0]).len() - 1, idx) by {
        assert(stays(pga, sha, idx, p));
        assert(is_structural(sh2.kinds[p]));
    }
    assert forall|p: int| stays(pg0, sh0, idx, p) implies #[trigger] rows_of(pg3, sh3, p as nat) == rows_of(pg0, sh0, p as nat) by {
        assert(stays(pga, sha, idx, p));
        assert(rows_of(pg2, sh2, p as nat) == rows_of(pga, sha, p as nat));
        assert(rows_of(pga, sha, p as nat) == rows_of(pg0, sh0, p as nat));
        assert(is_structural(sh2.kinds[p]));
        assert forall|r: crate::schema::Rid| #[trigger] rows_of(pg3, sh3, p as nat).contains(r) == rows_of(pg2, sh2, p as nat).contains(r) by {
            let d = r.spec_page() as int;
            if rows_of(pg3, sh3, p as nat).contains(r) {
                assert(is_structural(sh3.kinds[d]));
            }
            if rows_of(pg2, sh2, p as nat).contains(r) {
                assert(is_structural(sh2.kinds[d]));
            }
        }
        assert(rows_of(pg3, sh3, p as nat) =~= rows_of(pg2, sh2, p as nat));
    }
    assert forall|p: int, d: nat| stays(pg0, sh0, idx, p) implies #[trigger] entries_of(pg3, sh3, p as nat, d) == entries_of(pg0, sh0, p as nat, d) by {
        assert(stays(pga, sha, idx, p));
        assert(entries_of(pg2, sh2, p as nat, d) == entries_of(pga, sha, p as nat, d));
        assert(entries_of(pga, sha, p as nat, d) == entries_of(pg0, sh0, p as nat, d));
        assert(is_structural(sh2.kinds[p]));
        lemma_quiet_views(pg2, sh2, pg3, sh3, p, d as int);
    }
}

/// What the rules give for the directory after the entry at `idx` was removed.
#[verifier::spinoff_prover]
proof fn lemma_directory_sound(pg: Seq<Seq<u8>>, sh: Shape, pg1: Seq<Seq<u8>>, idx: int)
    requires
        image_inv(pg, sh, tight()),
        0 <= idx < tables(pg[0]).len(),
        unlisted(pg, pg1, idx),
    ensures
        directory_sound(pg1),
        tables(pg[0]).len() <= MAX_TABLE,
{
    reveal(unlisted);
    reveal(structure_inv);
    let tabs = tables(pg[0]);
    let tabs1 = tables(pg1[0]);
    let last = tabs.len() - 1;
    assert forall|u: int| 0 <= u < tabs1.len() implies 0 < (#[trigger] tabs1[u]).meta < pg1.len() && pg1[tabs1[u].meta as int].len() == PAGE_SIZE by {
        assert(dir_ok_at(pg, sh, u));
        assert(dir_ok_at(pg, sh, last));
    }
    assert forall|u: int, v: int| 0 <= u < v < tabs1.len() implies (#[trigger] tabs1[u]).meta != (#[trigger] tabs1[v]).meta by {
        assert(dir_ok_at(pg, sh, u));
        assert(dir_ok_at(pg, sh, v));
        assert(dir_ok_at(pg, sh, last));
    }
}

/// The pages of the indexes on the first `n` columns of the table whose
/// table-meta page is `m`, column by column, the pages of each tree in the order
/// in which a depth-first walk leaves them.
pub open spec fn index_pages(pg: Seq<Seq<u8>>, sh: Shape, m: int, n: int) -> Seq<nat>
    decreases n,
{
    if n <= 0 {
        Seq::empty()
    } else {
        let ci = table_of(pg, m).cols[n - 1];
        index_pages(pg, sh, m, n - 1) + (if ci.index != NONE {
            as_nats(post_order(pg, ci.index as int, sh.trees[(m as nat, (n - 1) as nat)].height))
        } else {
            Seq::empty()
        })
    }
}

/// The indexes on the columns from `c` on of the table whose table-meta page is
/// `m` are in the second image what they are in the first.
#[verifier::opaque]
pub open spec fn later_kept(pg0: Seq<Seq<u8>>, sh0: Shape, pg: Seq<Seq<u8>>, sh: Shape, m: int, c: int) -> bool {
    &&& pg.len() == pg0.len()
    &&& table_of(pg, m).cols.len() == table_of(pg0, m).cols.len()
    &&& forall|d: int| c <= d < table_of(pg0, m).cols.len() ==> #[trigger] table_of(pg, m).cols[d] == table_of(pg0, m).cols[d]
    &&& forall|d: nat| d >= c ==> #[trigger] sh.trees[(m as nat, d)] == sh0.trees[(m as nat, d)]
    &&& forall|p: int|
        0 <= p < pg0.len() && ((#[trigger] sh0.kinds[p]) matches Kind::Node { table, col, .. } && table == m && col >= c) ==> pg[p] == pg0[p] && sh.kinds[p]
            == sh0.kinds[p]
}

#[verifier::spinoff_prover]
proof fn lemma_later_self(pg0: Seq<Seq<u8>>, sh0: Shape, m: int)
    ensures
        later_kept(pg0, sh0, pg0, sh0, m, 0),
{
    reveal(later_kept);
}

#[verifier::spinoff_prover]
proof fn lemma_later_skip(pg0: Seq<Seq<u8>>, sh0: Shape, pg: Seq<Seq<u8>>, sh: Shape, m: int, c: int)
    requires
        later_kept(pg0, sh0, pg, sh, m, c),
    ensures
        later_kept(pg0, sh0, pg, sh, m, c + 1),
{
    reveal(later_kept);
}

#[verifier::spinoff_prover]
proof fn lemma_later_step(pg0: Seq<Seq<u8>>, sh0: Shape, pg: Seq<Seq<u8>>, sh: Shape, pg2: Seq<Seq<u8>>, sh2: Shape, m: int, c: int)
    requires
        later_kept(pg0, sh0, pg, sh, m, c),
        index_step(pg, sh, pg2, sh2, m, c),
        pg2.len() == pg.len(),
        0 <= c,
    ensures
        later_kept(pg0, sh0, pg2, sh2, m, c + 1),
{
    reveal(later_kept);
    reveal(index_step);
    assert forall|d: int| c + 1 <= d < table_of(pg0, m).cols.len() implies #[trigger] table_of(pg2, m).cols[d] == table_of(pg0, m).cols[d] by {
        assert(table_of(pg, m).cols[d] == table_of(pg0, m).cols[d]);
    }
    assert forall|d: nat| d >= c + 1 implies #[trigger] sh2.trees[(m as nat, d)] == sh0.trees[(m as nat, d)] by {
        assert(sh.trees[(m as nat, d)] == sh0.trees[(m as nat, d)]);
        assert((m as nat, d) != (m as nat, c as nat));
    }
    assert forall|p: int| 0 <= p < pg0.len() && ((#[trigger] sh0.kinds[p]) matches Kind::Node { table, col, .. } && table == m && col >= c + 1) implies pg2[p] == pg0[p]
        && sh2.kinds[p] == sh0.kinds[p] by {
        assert(pg[p] == pg0[p] && sh.kinds[p] == sh0.kinds[p]);
        assert(is_structural(sh.kinds[p]));
        assert(!in_tree(sh.kinds[p], m, c));
        assert(p != m);
    }
}

/// The tree of an index that is still to be dropped is what it was.
#[verifier::spinoff_prover]
proof fn lemma_later_tree(pg0: Seq<Seq<u8>>, sh0: Shape, pg: Seq<Seq<u8>>, sh: Shape, m: int, c: int)
    requires
        image_inv(pg0, sh0, tight()),
        later_kept(pg0, sh0, pg, sh, m, c),
        0 < m < pg0.len(),
        sh0.kinds[m] is Table,
        0 <= c < table_of(pg0, m).cols.len(),
        table_of(pg0, m).cols[c].index != NONE,
    ensures
        table_of(pg, m).cols[c] == table_of(pg0, m).cols[c],
        sh.trees[(m as nat, c as nat)] == sh0.trees[(m as nat, c as nat)],
        post_order(pg, table_of(pg0, m).cols[c].index as int, sh0.trees[(m as nat, c as nat)].height) == post_order(
            pg0,
            table_of(pg0, m).cols[c].index as int,
            sh0.trees[(m as nat, c as nat)].height,
        ),
{
    reveal(later_kept);
    lemma_root_facts(pg0, sh0, m, c);
    lemma_nodes_ok(pg0, sh0, m, c);
    let root = table_of(pg0, m).cols[c].index as int;
    let h = sh0.trees[(m as nat, c as nat)].height;
    assert(table_of(pg, m).cols[c] == table_of(pg0, m).cols[c]);
    assert forall|q: int| 0 <= q < pg0.len() && in_tree(#[trigger] sh0.kinds[q], m, c) implies pg[q] == pg0[q] by {}
    lemma_walk_same(pg0, sh0, pg, m, c, root, h, node_at(pg0[root]).entries.len() as int);
    assert(pg[root] == pg0[root]);
}

impl Db {
    /// Why `drop_table(name)` is refused, if it is.
    pub open spec fn drop_table_fault(&self, name: &str) -> Option<ErrorV> {
        match table_slot(self.directory(), name.spec_bytes()) {
            None => Some(ErrorV::NoSuchTable(name@)),
            Some(idx) => if refers_to(self.image(), idx) {
                Some(ErrorV::DropTableWithForeignLink(name@))
            } else {
                None
            },
        }
    }

    /// Drops the index on column `c` of the table whose table-meta page is `m`,
    /// if it has one.
    #[verifier::spinoff_prover]
    #[verifier::rlimit(60)]
    fn drop_col_index(&mut self, m: usize, c: usize, Ghost(pg0): Ghost<Seq<Seq<u8>>>, Ghost(sh0): Ghost<Shape>)
        requires
            old(self).wf(),
            old(self).is_table(m as nat),
            0 < m < pg0.len(),
            sh0.kinds[m as int] is Table,
            c < old(self).table(m as nat).cols.len(),
            calm(pg0, sh0, old(self).image(), old(self).shape(), m as int),
            forall|d: int| 0 <= d < c ==> (#[trigger] old(self).table(m as nat).cols[d]).index == NONE,
            grown(sh0.free, old(self).free_list()),
            image_inv(pg0, sh0, tight()),
            later_kept(pg0, sh0, old(self).image(), old(self).shape(), m as int, c as int),
            old(self).free_list() == sh0.free + index_pages(pg0, sh0, m as int, c as int),
            crate::db::loose_kept(pg0, sh0, old(self).image(), old(self).shape()),
        ensures
            final(self).wf(),
            final(self).is_table(m as nat),
            final(self).table(m as nat).cols.len() == old(self).table(m as nat).cols.len(),
            calm(pg0, sh0, final(self).image(), final(self).shape(), m as int),
            forall|d: int| 0 <= d < c + 1 ==> (#[trigger] final(self).table(m as nat).cols[d]).index == NONE,
            final(self).shape().heaps == old(self).shape().heaps,
            grown(sh0.free, final(self).free_list()),
            final(self).spec_path() == old(self).spec_path(),
            final(self).page_count() == old(self).page_count(),
            later_kept(pg0, sh0, final(self).image(), final(self).shape(), m as int, c + 1),
            final(self).free_list() == sh0.free + index_pages(pg0, sh0, m as int, c + 1),
            crate::db::loose_kept(pg0, sh0, final(self).image(), final(self).shape()),
    {
        let ghost pg = self.image();
        let ghost sh = self.shape();
        proof {
            lemma_table_facts(pg, sh, m as int);
            assert(table_of(pg, m as int).cols[c as int] == table_of(pg0, m as int).cols[c as int] && table_of(pg, m as int).cols.len() == table_of(pg0, m as int).cols.len()) by {
                reveal(later_kept);
            }
            if table_of(pg0, m as int).cols[c as int].index != NONE {
                lemma_later_tree(pg0, sh0, pg, sh, m as int, c as int);
            } else {
                lemma_later_skip(pg0, sh0, pg, sh, m as int, c as int);
                assert(index_pages(pg0, sh0, m as int, c + 1) =~= index_pages(pg0, sh0, m as int, c as int));
            }
        }
        let ci = read_col(self.get_page(m), c);
        if ci.index != NONE {
            self.drop_index_impl(m, c);
            proof {
                lemma_later_step(pg0, sh0, pg, sh, self.image(), self.shape(), m as int, c as int);
                assert(self.free_list() =~= sh0.free + index_pages(pg0, sh0, m as int, c + 1));
                crate::create::lemma_loose_twice(pg0, sh0, pg, sh, self.image(), self.shape());
                lemma_calm_index(pg0, sh0, pg, sh, self.image(), self.shape(), m as int, c as int);
                assert(sh0.free =~= self.free_list().subrange(0, sh0.free.len() as int)) by {
                    assert(sh.free.subrange(0, sh0.free.len() as int) == sh0.free);
                }
                assert forall|d: int| 0 <= d < c + 1 implies (#[trigger] self.table(m as nat).cols[d]).index == NONE by {
                    if d < c {
                        assert(table_of(pg, m as int).cols[d].index == NONE);
                    }
                }
            }
        }
    }

    /// Drops every index of the table whose table-meta page is `m`.
    #[verifier::spinoff_prover]
    fn drop_indexes(&mut self, m: usize)
        requires
            old(self).wf(),
            old(self).is_table(m as nat),
        ensures
            final(self).wf(),
            final(self).is_table(m as nat),
            calm(old(self).image(), old(self).shape(), final(self).image(), final(self).shape(), m as int),
            forall|d: int| 0 <= d < final(self).table(m as nat).cols.len() ==> (#[trigger] final(self).table(m as nat).cols[d]).index == NONE,
            final(self).shape().heaps == old(self).shape().heaps,
            grown(old(self).free_list(), final(self).free_list()),
            final(self).spec_path() == old(self).spec_path(),
            final(self).page_count() == old(self).page_count(),
            final(self).free_list() == old(self).free_list() + index_pages(
                old(self).image(),
                old(self).shape(),
                m as int,
                old(self).table(m as nat).cols.len() as int,
            ),
            crate::db::loose_kept(old(self).image(), old(self).shape(), final(self).image(), final(self).shape()),
    {
        let ghost pg0 = self.image();
        let ghost sh0 = self.shape();
        proof {
            lemma_table_facts(pg0, sh0, m as int);
            lemma_calm_self(pg0, sh0, m as int);
            assert(sh0.free.subrange(0, sh0.free.len() as int) =~= sh0.free);
            lemma_later_self(pg0, sh0, m as int);
            assert(sh0.free =~= sh0.free + index_pages(pg0, sh0, m as int, 0));
            assert(crate::db::loose_kept(pg0, sh0, pg0, sh0)) by {
                reveal(crate::db::loose_kept);
            }
        }
        let n: usize = read_col_num(self.get_page(m));
        let mut c: usize = 0;
        while c < n
            invariant
                c <= n,
                self.wf(),
                self.is_table(m as nat),
                0 < m < pg0.len(),
                sh0.kinds[m as int] is Table,
                n == self.table(m as nat).cols.len(),
                calm(pg0, sh0, self.image(), self.shape(), m as int),
                forall|d: int| 0 <= d < c ==> (#[trigger] self.table(m as nat).cols[d]).index == NONE,
                self.shape().heaps == sh0.heaps,
                grown(sh0.free, self.free_list()),
                self.spec_path() == old(self).spec_path(),
                self.page_count() == pg0.len(),
                image_inv(pg0, sh0, tight()),
                n == table_of(pg0, m as int).cols.len(),
                later_kept(pg0, sh0, self.image(), self.shape(), m as int, c as int),
                self.free_list() == sh0.free + index_pages(pg0, sh0, m as int, c as int),
                crate::db::loose_kept(pg0, sh0, self.image(), self.shape()),
            decreases n - c,
        {
            self.drop_col_index(m, c, Ghost(pg0), Ghost(sh0));
            c += 1;
        }
    }

    /// Drops the table called `name`: its indexes, its data pages in ring order
    /// and last its table-meta page go back to the pager, the last directory
    /// entry takes its place, and the foreign keys of the other tables follow
    /// that move. A table that another table refers to cannot be dropped.
    #[verifier::spinoff_prover]
    pub fn drop_table(&mut self, name: &str) -> (r: Result<()>)
        requires
            old(self).wf(),
        ensures
            final(self).wf(),
            final(self).spec_path() == old(self).spec_path(),
            match r {
                Ok(()) => old(self).drop_table_fault(name) is None && {
                    let idx = table_slot(old(self).directory(), name.spec_bytes())->0;
                    let m = old(self).directory()[idx].meta as nat;
                    let ring = old(self).shape().heaps[m].ring;
                    let free = final(self).free_list();
                    &&& final(self).directory() == swap_removed(old(self).directory(), idx)
                    &&& others_kept(old(self).image(), old(self).shape(), final(self).image(), final(self).shape(), idx)
                    &&& final(self).page_count() == old(self).page_count()
                    &&& free == (old(self).free_list() + index_pages(
                        old(self).image(),
                        old(self).shape(),
                        m as int,
                        old(self).table(m).cols.len() as int,
                    ) + ring).push(m)
                    &&& loose_kept(old(self).image(), old(self).shape(), final(self).image(), final(self).shape())
                },
                Err(e) => old(self).drop_table_fault(name) == Some(e@) && final(self).image() == old(self).image() && final(self).shape()
                    == old(self).shape(),
            },
    {
        let (idx, m) = match self.locate(name.as_bytes()) {
            Some(x) => x,
            None => {
                return Err(Error::NoSuchTable(name.to_owned()));
            },
        };
        if self.is_referenced(idx) {
            return Err(Error::DropTableWithForeignLink(name.to_owned()));
        }
        let ghost pg0 = self.image();
        let ghost sh0 = self.shape();
        self.drop_indexes(m);
        let ghost pgi = self.image();
        let ghost shi = self.shape();
        let mut tp = load_table_page(m as u32, self.get_page(m));
        self.drop_heap(&mut tp);
        let ghost pga = self.image();
        let ghost sha = self.shape();
        proof {
            lemma_calm_heap(pg0, sh0, pgi, shi, pga, sha, m as int);
            lemma_calm_refs(pg0, sh0, pga, sha, idx as int);
            assert(tables(pga[0]) == tables(pg0[0])) by {
                reveal(calm);
            }
        }
        let n: usize = read_table_num(self.get_page(0));
        self.unlist(idx);
        let ghost pg1 = self.image();
        proof {
            lemma_directory_sound(pga, sha, pg1, idx as int);
        }
        self.fix_all((n - 1) as u8, idx as u8);
        self.set_shape(Ghost(removed_shape(pga, sha, idx as int)));
        let ghost pg2 = self.image();
        let ghost sh2 = self.shape();
        proof {
            assert(removal(pga, sha, pg1, pg2, sh2, idx as int));
            lemma_remove(pga, sha, pg1, pg2, sh2, idx as int);
        }
        self.deallocate_page(m);
        proof {
            crate::release::lemma_pager_quiet(pg2, sh2, self.image(), self.shape());
            lemma_drop_done(pg0, sh0, pga, sha, pg2, sh2, self.image(), self.shape(), idx as int);
            let ring = sh0.heaps[m as nat].ring;
            let free = self.free_list();
            assert(sha.free == shi.free + ring);
            assert(free == sha.free.push(m as nat));
            crate::create::lemma_loose_twice(pg0, sh0, pgi, shi, pga, sha);
            lemma_remove_loose(pga, sha, pg1, pg2, sh2, self.image(), self.shape(), idx as int);
            crate::create::lemma_loose_twice(pg0, sh0, pga, sha, self.image(), self.shape());
        }
        Ok(())
    }
}

} // verus!
