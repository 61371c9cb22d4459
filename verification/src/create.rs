//! Creating a table: the commit phase that follows the checks.

use vstd::prelude::*;
use crate::shape::tight;
use vstd::string::StringSliceAdditionalSpecFns;
use crate::catalog::{index_step, indexed, lemma_dir_facts, table_slot};
use crate::db::{Db, lemma_entries_frame, next_page, shape_after_allocate};
use crate::error::{Error, ErrorV, Result};
use crate::frames::{index_touch, sized, table_alike};
use crate::heap::{lemma_cap_bounds, rows_of};
use crate::layout::{DATA_HEAD, MAX_COL, MAX_COL_NAME, MAX_DATA_BYTE, MAX_PAGE, MAX_TABLE, MAX_TABLE_NAME, MIN_SLOT_SIZE, NONE, NO_TABLE, PAGE_SIZE, same_inside};
use crate::meta::{TableInfoV, first_free, has_magic, read_table_num, table_info_at, table_num, tables, write_table_info, write_table_num};
use crate::plan::{Draft, check_size, count_primary, create_table_fault, decl_types, draft_col, draft_ok, first_fault, has_primary, lemma_no_col_fault, names_ok, planned_col, size_faults, col_fault};
use crate::schema::{ColTy, CreateTable, col_offset, row_size};
use crate::shape::{Heap, Kind, Relax, Shape, apart, chain_ok_at, child_ok, col_types, dir_ok_at, directory_ok, entries_of, foreign_ok, foreign_ok_at, free_ok_at, holds, image_inv, is_leaf_of, is_structural, leaves_apart, node_ok, page_ok, pager_inv, ring_ok_at, root_ok_at, slots_per_page, structure_inv, table_of, table_ok, unique_ok_at};
use crate::table::{COLS_OFF, COL_INFO_SIZE, ColFlags, ColInfo, ColInfoV, TablePageV, col_at, col_num, lemma_col_same, table_page_at, write_col, write_table_head};

verus! {

/// A copy of a byte string.
#[verifier::spinoff_prover]
pub fn to_vec(s: &[u8]) -> (v: Vec<u8>)
    ensures
        v@ == s@,
{
    let mut v: Vec<u8> = Vec::new();
    let mut i: usize = 0;
    while i < s.len()
        invariant
            i <= s.len(),
            v@ == s@.subrange(0, i as int),
        decreases s.len() - i,
    {
        v.push(s[i]);
        i += 1;
        assert(v@ =~= s@.subrange(0, i as int));
    }
    assert(v@ =~= s@);
    v
}

/// The catalog entries a new table starts with: as planned, but without an
/// index and not yet unique.
pub open spec fn start_cols(db: &Db, c: CreateTable) -> Seq<ColInfoV> {
    Seq::new(
        c.cols@.len(),
        |i: int| ColInfoV { flags: ColFlags { unique: false, ..planned_col(db, c, i).flags }, ..planned_col(db, c, i) },
    )
}

/// How the pages change when the table-meta page `id` of a new table and its
/// directory entry are written.
#[verifier::opaque]
pub open spec fn table_writes(pg1: Seq<Seq<u8>>, pg2: Seq<Seq<u8>>, id: int, name: Seq<u8>, cols: Seq<ColInfoV>, size: u16) -> bool {
    &&& pg2.len() == pg1.len()
    &&& forall|p: int| 0 < p < pg2.len() && p != id ==> #[trigger] pg2[p] == pg1[p]
    &&& pg2[0].len() == PAGE_SIZE
    &&& pg2[id].len() == PAGE_SIZE
    &&& tables(pg2[0]) == tables(pg1[0]).push(TableInfoV { meta: id as u32, name })
    &&& first_free(pg2[0]) == first_free(pg1[0])
    &&& has_magic(pg2[0]) == has_magic(pg1[0])
    &&& table_of(pg2, id) == (TablePageV {
        id: id as u32,
        prev: id as u32,
        next: id as u32,
        first_free: NONE,
        size,
        cap: slots_per_page(size as int) as u16,
        cols,
    })
}

/// What the checks establish of the catalog entries of a new table.
pub open spec fn cols_ok(pg0: Seq<Seq<u8>>, cols: Seq<ColInfoV>, size: u16) -> bool {
    &&& cols.len() < MAX_COL
    &&& forall|i: int, j: int| 0 <= i < j < cols.len() ==> (#[trigger] cols[i]).name != (#[trigger] cols[j]).name
    &&& forall|i: int| 0 <= i < cols.len() ==> (#[trigger] cols[i]).off == col_offset(col_types(cols), i)
    &&& size == row_size(col_types(cols))
    &&& MIN_SLOT_SIZE <= size <= MAX_DATA_BYTE
    &&& forall|i: int| 0 <= i < cols.len() ==> (#[trigger] cols[i]).index == NONE && !cols[i].flags.unique
    &&& forall|i: int|
        0 <= i < cols.len() && (#[trigger] cols[i]).foreign_table != NO_TABLE ==> cols[i].foreign_table < tables(pg0[0]).len()
            && cols[i].foreign_col < table_of(pg0, tables(pg0[0])[cols[i].foreign_table as int].meta as int).cols.len()
}

/// The shape after the table-meta page `id` joined the directory at position
/// `n`.
pub open spec fn installed_shape(sh1: Shape, id: int, n: int) -> Shape {
    Shape {
        kinds: sh1.kinds.update(id, Kind::Table { slot: n as nat }),
        heaps: sh1.heaps.insert(id as nat, Heap { ring: Seq::empty(), chain: Seq::empty() }),
        ..sh1
    }
}

/// How the pages and the shape change when a table is installed on the new page
/// `id`.
#[verifier::opaque]
pub open spec fn install_edit(pg0: Seq<Seq<u8>>, sh0: Shape, pg1: Seq<Seq<u8>>, sh1: Shape, pg2: Seq<Seq<u8>>, sh2: Shape, id: int, name: Seq<u8>, cols: Seq<ColInfoV>, size: u16) -> bool {
    &&& sh1 == shape_after_allocate(sh0, id as nat)
    &&& id == next_page(sh0.free, pg0.len())
    &&& 0 < id < pg1.len()
    &&& id < pg0.len() ==> sh0.kinds[id] is Free
    &&& pg1.len() == pg0.len() + (if sh0.free.len() > 0 { 0int } else { 1 })
    &&& forall|p: int| 0 < p < pg0.len() ==> #[trigger] pg1[p] == pg0[p]
    &&& tables(pg1[0]) == tables(pg0[0])
    &&& table_writes(pg1, pg2, id, name, cols, size)
    &&& sh2 == installed_shape(sh1, id, tables(pg0[0]).len() as int)
}

/// What creating a table leaves alone: every table that was there, with its
/// catalog, its rows and the entries of its indexes.
#[verifier::opaque]
pub open spec fn tables_kept(pg: Seq<Seq<u8>>, sh: Shape, pg2: Seq<Seq<u8>>, sh2: Shape) -> bool {
    &&& forall|u: int| 0 < u < pg.len() && (#[trigger] sh.kinds[u]) is Table ==> u < pg2.len() && sh2.kinds[u] == sh.kinds[u] && table_of(pg2, u) == table_of(pg, u)
    &&& forall|u: nat| 0 < u < pg.len() && sh.kinds[u as int] is Table ==> #[trigger] rows_of(pg2, sh2, u) == rows_of(pg, sh, u)
    &&& forall|u: nat, d: nat| 0 < u < pg.len() && sh.kinds[u as int] is Table ==> #[trigger] entries_of(pg2, sh2, u, d) == entries_of(pg, sh, u, d)
}

/// The structural pages of the first image are the same in the second.
pub open spec fn pages_kept(pg: Seq<Seq<u8>>, sh: Shape, pg2: Seq<Seq<u8>>, sh2: Shape) -> bool {
    &&& sized(pg, sh)
    &&& sized(pg2, sh2)
    &&& pg.len() <= pg2.len()
    &&& sh2.trees == sh.trees
    &&& forall|p: int| 0 <= p < pg.len() && is_structural(#[trigger] sh.kinds[p]) ==> pg2[p] == pg[p] && sh2.kinds[p] == sh.kinds[p]
    &&& forall|p: int| 0 <= p < pg.len() && (#[trigger] sh.kinds[p]) is Table ==> sh2.heaps.dom().contains(p as nat) == sh.heaps.dom().contains(p as nat) && sh2.heaps[p as nat] == sh.heaps[p as nat]
}

/// The rules of a page read its own structure only.
#[verifier::spinoff_prover]
pub proof fn lemma_page_kept(pg: Seq<Seq<u8>>, sh: Shape, pg2: Seq<Seq<u8>>, sh2: Shape, relax: Relax, p: int)
    requires
        structure_inv(pg, sh, relax),
        pages_kept(pg, sh, pg2, sh2),
        0 <= p < pg.len(),
        is_structural(sh.kinds[p]),
    ensures
        page_ok(pg2, sh2, p, relax),
{
    reveal(structure_inv);
    assert(page_ok(pg, sh, p, relax));
    match sh.kinds[p] {
        Kind::Table { slot } => {
            let heap = sh.heaps[p as nat];
            let tv = table_of(pg, p);
            assert forall|i: int| 0 <= i < heap.ring.len() implies #[trigger] ring_ok_at(pg2, sh2, p, i) by {
                assert(ring_ok_at(pg, sh, p, i));
            }
            assert forall|j: int| 0 <= j < heap.chain.len() implies #[trigger] chain_ok_at(pg2, sh2, p, j) by {
                assert(chain_ok_at(pg, sh, p, j));
            }
            assert forall|c: int| 0 <= c < tv.cols.len() implies #[trigger] root_ok_at(pg2, sh2, p, c) by {
                assert(root_ok_at(pg, sh, p, c));
            }
        },
        Kind::Data { table, pos, link } => {},
        Kind::Node { table, col, height, parent, slot, lo, hi } => {
            let n = crate::node::node_at(pg[p]).entries.len();
            if height > 0 {
                assert forall|i: int| 0 <= i < n implies #[trigger] child_ok(pg2, sh2, p, i) by {
                    assert(child_ok(pg, sh, p, i));
                }
            }
        },
        _ => {},
    }
}

#[verifier::spinoff_prover]
proof fn lemma_install_pager(pg0: Seq<Seq<u8>>, sh0: Shape, pg1: Seq<Seq<u8>>, sh1: Shape, pg2: Seq<Seq<u8>>, sh2: Shape, id: int, name: Seq<u8>, cols: Seq<ColInfoV>, size: u16)
    requires
        image_inv(pg0, sh0, tight()),
        pager_inv(pg1, sh1),
        install_edit(pg0, sh0, pg1, sh1, pg2, sh2, id, name, cols, size),
    ensures
        pager_inv(pg2, sh2),
        pages_kept(pg0, sh0, pg2, sh2),
        id >= pg0.len() || sh0.kinds[id] is Free,
        forall|p: int| 0 <= p < pg2.len() && p != id && is_structural(#[trigger] sh2.kinds[p]) ==> p < pg0.len() && sh0.kinds[p] == sh2.kinds[p],
{
    reveal(install_edit);
    reveal(table_writes);
    if sh0.free.len() > 0 {
        assert(free_ok_at(pg0, sh0, sh0.free.len() - 1));
    }
    assert forall|i: int| 0 <= i < sh2.free.len() implies #[trigger] free_ok_at(pg2, sh2, i) by {
        assert(free_ok_at(pg1, sh1, i));
    }
}

#[verifier::spinoff_prover]
proof fn lemma_install_directory(pg0: Seq<Seq<u8>>, sh0: Shape, pg1: Seq<Seq<u8>>, sh1: Shape, pg2: Seq<Seq<u8>>, sh2: Shape, id: int, name: Seq<u8>, cols: Seq<ColInfoV>, size: u16)
    requires
        image_inv(pg0, sh0, tight()),
        pager_inv(pg1, sh1),
        install_edit(pg0, sh0, pg1, sh1, pg2, sh2, id, name, cols, size),
        forall|t: int| 0 <= t < tables(pg0[0]).len() ==> (#[trigger] tables(pg0[0])[t]).name != name,
        cols_ok(pg0, cols, size),
    ensures
        directory_ok(pg2, sh2),
        foreign_ok(pg2),
{
    lemma_install_pager(pg0, sh0, pg1, sh1, pg2, sh2, id, name, cols, size);
    reveal(install_edit);
    reveal(table_writes);
    reveal(structure_inv);
    let tabs = tables(pg0[0]);
    let tabs2 = tables(pg2[0]);
    let n = tabs.len() as int;
    assert forall|t: int| 0 <= t < tabs2.len() implies #[trigger] dir_ok_at(pg2, sh2, t) by {
        if t < n {
            assert(dir_ok_at(pg0, sh0, t));
        }
    }
    assert forall|t: int, d: int| 0 <= t < tabs2.len() && 0 <= d < table_of(pg2, tabs2[t].meta as int).cols.len() implies #[trigger] foreign_ok_at(pg2, t, d) by {
        if t < n {
            assert(dir_ok_at(pg0, sh0, t));
            assert(foreign_ok_at(pg0, t, d));
            let ft = table_of(pg0, tabs[t].meta as int).cols[d].foreign_table;
            if ft != NO_TABLE {
                assert(dir_ok_at(pg0, sh0, ft as int));
            }
        } else {
            let ft = cols[d].foreign_table;
            if ft != NO_TABLE {
                assert(dir_ok_at(pg0, sh0, ft as int));
            }
        }
    }
}

#[verifier::spinoff_prover]
proof fn lemma_install(pg0: Seq<Seq<u8>>, sh0: Shape, pg1: Seq<Seq<u8>>, sh1: Shape, pg2: Seq<Seq<u8>>, sh2: Shape, id: int, name: Seq<u8>, cols: Seq<ColInfoV>, size: u16)
    requires
        image_inv(pg0, sh0, tight()),
        pager_inv(pg1, sh1),
        install_edit(pg0, sh0, pg1, sh1, pg2, sh2, id, name, cols, size),
        forall|t: int| 0 <= t < tables(pg0[0]).len() ==> (#[trigger] tables(pg0[0])[t]).name != name,
        cols_ok(pg0, cols, size),
    ensures
        image_inv(pg2, sh2, tight()),
        tables_kept(pg0, sh0, pg2, sh2),
        rows_of(pg2, sh2, id as nat) == Set::<crate::schema::Rid>::empty(),
        sh2.kinds[id] is Table,
        forall|u: int| 0 < u < pg2.len() && u != id && (#[trigger] sh2.kinds[u]) is Table ==> u < pg0.len() && sh0.kinds[u] is Table,
{
    lemma_install_pager(pg0, sh0, pg1, sh1, pg2, sh2, id, name, cols, size);
    lemma_install_directory(pg0, sh0, pg1, sh1, pg2, sh2, id, name, cols, size);
    assert(table_ok(pg2, sh2, id) && sh2.kinds[id] is Table) by {
        reveal(install_edit);
        reveal(table_writes);
        lemma_cap_bounds(size as int);
    }
    assert forall|p: int| 0 <= p < pg2.len() implies #[trigger] page_ok(pg2, sh2, p, tight()) by {
        if p != id && is_structural(sh2.kinds[p]) {
            lemma_page_kept(pg0, sh0, pg2, sh2, tight(), p);
        }
    }
    lemma_install_globals(pg0, sh0, pg1, sh1, pg2, sh2, id, name, cols, size);
    reveal(structure_inv);
}

#[verifier::spinoff_prover]
proof fn lemma_install_globals(pg0: Seq<Seq<u8>>, sh0: Shape, pg1: Seq<Seq<u8>>, sh1: Shape, pg2: Seq<Seq<u8>>, sh2: Shape, id: int, name: Seq<u8>, cols: Seq<ColInfoV>, size: u16)
    requires
        image_inv(pg0, sh0, tight()),
        pager_inv(pg1, sh1),
        install_edit(pg0, sh0, pg1, sh1, pg2, sh2, id, name, cols, size),
        cols_ok(pg0, cols, size),
    ensures
        leaves_apart(sh2),
        forall|t: int, c: int| 0 <= t < pg2.len() ==> #[trigger] unique_ok_at(pg2, sh2, t, c),
        tables_kept(pg0, sh0, pg2, sh2),
        rows_of(pg2, sh2, id as nat) == Set::<crate::schema::Rid>::empty(),
        forall|u: int| 0 < u < pg2.len() && u != id && (#[trigger] sh2.kinds[u]) is Table ==> u < pg0.len() && sh0.kinds[u] is Table,
{
    lemma_install_pager(pg0, sh0, pg1, sh1, pg2, sh2, id, name, cols, size);
    reveal(structure_inv);
    reveal(tables_kept);
    assert(0 < id < pg2.len() && sh2.kinds[id] is Table && sh2.kinds.len() == pg2.len() && pg0.len() <= pg2.len()) by {
        reveal(install_edit);
        reveal(table_writes);
    }
    assert(sh0.kinds[0] is Meta && sh2.kinds[0] is Meta);
    assert forall|p: int, q: int| 0 <= p < sh2.kinds.len() && 0 <= q < sh2.kinds.len() implies #[trigger] apart(sh2, p, q) by {
        if sh2.kinds[p] is Node && sh2.kinds[q] is Node {
            assert(apart(sh0, p, q));
        }
    }
    assert forall|u: nat, d: nat| true implies #[trigger] entries_of(pg2, sh2, u, d) == entries_of(pg0, sh0, u, d) by {
        assert forall|p: int| 0 <= p < pg0.len() && #[trigger] is_leaf_of(sh0, p, u, d) implies p < pg2.len() && pg2[p] == pg0[p] && is_leaf_of(sh2, p, u, d) by {
            assert(sh0.kinds[p] is Node);
        }
        assert forall|p: int| 0 <= p < pg2.len() && #[trigger] is_leaf_of(sh2, p, u, d) implies p < pg0.len() && is_leaf_of(sh0, p, u, d) by {
            assert(sh2.kinds[p] is Node);
        }
        lemma_entries_frame(pg0, sh0, pg2, sh2, u, d);
    }
    assert forall|t: int, c: int| 0 <= t < pg2.len() implies #[trigger] unique_ok_at(pg2, sh2, t, c) by {
        if t == id {
            reveal(install_edit);
            reveal(table_writes);
        } else if sh2.kinds[t] is Table {
            assert(unique_ok_at(pg0, sh0, t, c));
            assert(entries_of(pg2, sh2, t as nat, c as nat) == entries_of(pg0, sh0, t as nat, c as nat));
        }
    }
    assert forall|u: nat| 0 < u < pg0.len() && sh0.kinds[u as int] is Table implies #[trigger] rows_of(pg2, sh2, u) == rows_of(pg0, sh0, u) by {
        assert forall|r: crate::schema::Rid| #[trigger] rows_of(pg2, sh2, u).contains(r) == rows_of(pg0, sh0, u).contains(r) by {
            let d = r.spec_page() as int;
            if rows_of(pg2, sh2, u).contains(r) {
                assert(sh2.kinds[d] is Data);
            }
            if rows_of(pg0, sh0, u).contains(r) {
                assert(sh0.kinds[d] is Data);
            }
        }
        assert(rows_of(pg2, sh2, u) =~= rows_of(pg0, sh0, u));
    }
    assert forall|r: crate::schema::Rid| !(#[trigger] rows_of(pg2, sh2, id as nat).contains(r)) by {
        let d = r.spec_page() as int;
        if rows_of(pg2, sh2, id as nat).contains(r) {
            assert(sh2.kinds[d] is Data);
            assert(d != id);
            assert(is_structural(sh2.kinds[d]));
            assert(d < pg0.len() && sh0.kinds[d] == sh2.kinds[d]);
            assert(page_ok(pg0, sh0, d, tight()));
            assert(crate::shape::data_ok(pg0, sh0, d));
            assert(false);
        }
    }
    assert(rows_of(pg2, sh2, id as nat) =~= Set::<crate::schema::Rid>::empty());
}

/// The catalog entry that the checks and the layout give declared column `i`
/// to start with.
pub open spec fn start_col(c: CreateTable, d: Draft, off: u16, i: int) -> ColInfoV {
    ColInfoV {
        ty: c.cols@[i].ty,
        off,
        flags: ColFlags { unique: false, ..d.flags },
        index: NONE,
        foreign_table: d.foreign_table,
        foreign_col: d.foreign_col,
        name: c.cols@[i].name.spec_bytes(),
    }
}

/// What the checks give for the catalog entries a new table starts with.
#[verifier::spinoff_prover]
pub proof fn lemma_start_cols(db: &Db, c: CreateTable, drafts: Seq<Draft>, offs: Seq<u16>, size: u16)
    requires
        names_ok(db, c),
        drafts.len() == c.cols@.len(),
        offs.len() == c.cols@.len(),
        forall|i: int| 0 <= i < drafts.len() ==> draft_ok(db, c, #[trigger] drafts[i], i, c.cons@.len() as int),
        forall|i: int| 0 <= i < offs.len() ==> (#[trigger] offs[i]) == col_offset(decl_types(c), i),
        size == row_size(decl_types(c)),
        MIN_SLOT_SIZE <= size <= MAX_DATA_BYTE,
    ensures
        cols_ok(db.image(), start_cols(db, c), size),
        start_cols(db, c).len() == c.cols@.len(),
        forall|i: int| 0 <= i < c.cols@.len() ==> #[trigger] start_cols(db, c)[i] == start_col(c, drafts[i], offs[i], i) && start_cols(db, c)[i].name.len() < MAX_COL_NAME,
        forall|t: int| 0 <= t < tables(db.image()[0]).len() ==> (#[trigger] tables(db.image()[0])[t]).name != c.name.spec_bytes(),
        db.directory().len() < MAX_TABLE,
{
    let cols = start_cols(db, c);
    let n = c.cols@.len() as int;
    assert(col_types(cols) =~= decl_types(c));
    assert forall|i: int| 0 <= i < n implies #[trigger] cols[i] == start_col(c, drafts[i], offs[i], i) && cols[i].name.len() < MAX_COL_NAME by {
        assert(draft_ok(db, c, drafts[i], i, c.cons@.len() as int));
        assert(offs[i] == col_offset(decl_types(c), i));
        lemma_no_col_fault(c, n, i);
    }
    assert forall|i: int, j: int| 0 <= i < j < cols.len() implies (#[trigger] cols[i]).name != (#[trigger] cols[j]).name by {
        lemma_no_col_fault(c, n, j);
        assert(c.cols@[i].name.spec_bytes() == cols[i].name);
    }
    assert forall|i: int| 0 <= i < cols.len() && (#[trigger] cols[i]).foreign_table != NO_TABLE implies cols[i].foreign_table < tables(db.image()[0]).len()
        && cols[i].foreign_col < table_of(db.image(), tables(db.image()[0])[cols[i].foreign_table as int].meta as int).cols.len() by {
        assert(draft_ok(db, c, drafts[i], i, c.cons@.len() as int));
    }
    assert forall|t: int| 0 <= t < tables(db.image()[0]).len() implies (#[trigger] tables(db.image()[0])[t]).name != c.name.spec_bytes() by {
        if db.directory()[t].name == c.name.spec_bytes() {
            reveal(table_slot);
        }
    }
}

/// The state of column `j` of the new table `id` while its indexes are being
/// created: as it started, or, once its turn has come and it is to be unique, as
/// planned with an empty index.
pub open spec fn col_state(old_db: &Db, c: CreateTable, pg: Seq<Seq<u8>>, sh: Shape, id: nat, j: int, i: int) -> bool {
    let done = j < i;
    let ci = table_of(pg, id as int).cols[j];
    let p = planned_col(old_db, c, j);
    if done && p.flags.unique {
        ci == (ColInfoV { index: ci.index, ..p }) && ci.index != NONE && entries_of(pg, sh, id, j as nat) == Set::<(Seq<u8>, u32)>::empty()
    } else {
        ci == start_cols(old_db, c)[j]
    }
}

/// The new table `id` stands in the directory, empty, with its first `i`
/// columns finished, and every other table is as it was.
#[verifier::opaque]
pub open spec fn building(old_db: &Db, pg: Seq<Seq<u8>>, sh: Shape, c: CreateTable, id: nat, i: int) -> bool {
    let tv = table_of(pg, id as int);
    &&& 0 < id < pg.len()
    &&& sh.kinds[id as int] is Table
    &&& tables(pg[0]) == old_db.directory().push(TableInfoV { meta: id as u32, name: c.name.spec_bytes() })
    &&& rows_of(pg, sh, id) == Set::<crate::schema::Rid>::empty()
    &&& tv.prev == id
    &&& tv.next == id
    &&& tv.first_free == NONE
    &&& tv.size == row_size(decl_types(c))
    &&& tv.cap == slots_per_page(tv.size as int)
    &&& tv.cols.len() == c.cols@.len()
    &&& forall|j: int| 0 <= j < c.cols@.len() ==> #[trigger] col_state(old_db, c, pg, sh, id, j, i)
    &&& tables_kept(old_db.image(), old_db.shape(), pg, sh)
}

/// Number of unique columns among the first `n` of the new table: none, or the
/// one column of the primary key.
pub open spec fn unique_cols(old_db: &Db, c: CreateTable, n: int) -> nat
    decreases n,
{
    if n <= 0 {
        0
    } else {
        unique_cols(old_db, c, n - 1) + (if planned_col(old_db, c, n - 1).flags.unique { 1nat } else { 0 })
    }
}

/// The free list after `k` pages were handed out.
pub open spec fn free_after_taking(free: Seq<nat>, k: nat) -> Seq<nat> {
    if k <= free.len() {
        free.subrange(0, free.len() - k)
    } else {
        Seq::empty()
    }
}

/// The number of pages of a file of `pages` pages, `free` of them on the free
/// list, after `k` pages were handed out.
pub open spec fn pages_after_taking(free: nat, pages: nat, k: nat) -> nat {
    if k <= free {
        pages
    } else {
        (pages + k - free) as nat
    }
}

/// What `create_table(c)` makes of the database `old_db` when it succeeds: the
/// new table stands at the end of the directory on the page the pager handed
/// out first, empty, with the planned catalog and an empty index on every
/// unique column, and every other table is as it was. The root of the index is
/// the page the pager handed out second. No other page was handed out.
pub open spec fn created(old_db: &Db, new_db: &Db, c: CreateTable) -> bool {
    let id = next_page(old_db.free_list(), old_db.page_count());
    let n = c.cols@.len() as int;
    let k = 1 + unique_cols(old_db, c, n);
    &&& create_table_fault(old_db, c) is None
    &&& building(old_db, new_db.image(), new_db.shape(), c, id, n)
    &&& k <= 2
    &&& new_db.free_list() == free_after_taking(old_db.free_list(), k)
    &&& new_db.page_count() == pages_after_taking(old_db.free_list().len(), old_db.page_count(), k)
    &&& forall|j: int|
        0 <= j < n && (#[trigger] planned_col(old_db, c, j)).flags.unique ==> crate::catalog::fresh_index(
            new_db.image(),
            new_db.shape(),
            id as int,
            j,
            next_page(free_after_taking(old_db.free_list(), 1), pages_after_taking(old_db.free_list().len(), old_db.page_count(), 1)) as int,
        )
    &&& new_db.shape().heaps[id].ring.len() == 0
    &&& crate::db::loose_kept(old_db.image(), old_db.shape(), new_db.image(), new_db.shape())
}

/// Without a primary-key constraint no column is part of the primary key.
#[verifier::spinoff_prover]
proof fn lemma_no_primary(c: CreateTable, i: int, k: int)
    requires
        0 <= k,
    ensures
        count_primary(c, k) >= 0,
        count_primary(c, k) == 0 ==> !has_primary(c, i, k),
    decreases k,
{
    if k > 0 {
        lemma_no_primary(c, i, k - 1);
    }
}

/// A single primary-key constraint makes a single column the primary key.
#[verifier::spinoff_prover]
proof fn lemma_one_primary(c: CreateTable, i: int, j: int, k: int)
    requires
        0 <= k,
        count_primary(c, k) == 1,
        has_primary(c, i, k),
        has_primary(c, j, k),
    ensures
        i == j,
    decreases k,
{
    if k > 0 {
        lemma_no_primary(c, i, k - 1);
        lemma_no_primary(c, j, k - 1);
        if c.cons@[k - 1].kind is Primary {
        } else {
            lemma_one_primary(c, i, j, k - 1);
        }
    }
}

/// At most one column of the new table is unique.
#[verifier::spinoff_prover]
proof fn lemma_unique_cols(old_db: &Db, c: CreateTable, n: int)
    requires
        0 <= n,
    ensures
        unique_cols(old_db, c, n) <= 1,
        unique_cols(old_db, c, n) == 0 <==> forall|j: int| 0 <= j < n ==> !(#[trigger] planned_col(old_db, c, j)).flags.unique,
    decreases n,
{
    if n > 0 {
        lemma_unique_cols(old_db, c, n - 1);
        let k = c.cons@.len() as int;
        if planned_col(old_db, c, n - 1).flags.unique && unique_cols(old_db, c, n - 1) != 0 {
            let j = choose|j: int| 0 <= j < n - 1 && (#[trigger] planned_col(old_db, c, j)).flags.unique;
            lemma_one_primary(c, j, n - 1, k);
        }
        if unique_cols(old_db, c, n) == 0 {
            assert forall|j: int| 0 <= j < n implies !(#[trigger] planned_col(old_db, c, j)).flags.unique by {}
        }
    }
}

#[verifier::spinoff_prover]
proof fn lemma_building_start(old_db: &Db, pg1: Seq<Seq<u8>>, sh1: Shape, pg2: Seq<Seq<u8>>, sh2: Shape, c: CreateTable, id: int, size: u16)
    requires
        old_db.wf(),
        pager_inv(pg1, sh1),
        install_edit(old_db.image(), old_db.shape(), pg1, sh1, pg2, sh2, id, c.name.spec_bytes(), start_cols(old_db, c), size),
        forall|t: int| 0 <= t < tables(old_db.image()[0]).len() ==> (#[trigger] tables(old_db.image()[0])[t]).name != c.name.spec_bytes(),
        cols_ok(old_db.image(), start_cols(old_db, c), size),
        size == row_size(decl_types(c)),
    ensures
        image_inv(pg2, sh2, tight()),
        building(old_db, pg2, sh2, c, id as nat, 0),
        id == next_page(old_db.free_list(), old_db.page_count()),
        pg2.len() <= old_db.page_count() + 1,
        pg2.len() == pg1.len(),
        crate::db::loose_kept(old_db.image(), old_db.shape(), pg2, sh2),
        sh2.heaps[id as nat].ring.len() == 0,
{
    assert(sh2.heaps[id as nat].ring.len() == 0) by {
        reveal(install_edit);
    }
    assert(crate::db::loose_kept(old_db.image(), old_db.shape(), pg2, sh2)) by {
        reveal(crate::db::loose_kept);
        reveal(install_edit);
        reveal(table_writes);
        let pg0 = old_db.image();
        let sh0 = old_db.shape();
        assert forall|p: int| 0 <= p < pg0.len() && (#[trigger] sh0.kinds[p]) is Loose implies p < pg2.len() && sh2.kinds[p] is Loose && pg2[p] == pg0[p] by {
            assert(p != 0 && p != id);
            assert(pg1[p] == pg0[p]);
            assert(pg2[p] == pg1[p]);
        }
    }
    lemma_install(old_db.image(), old_db.shape(), pg1, sh1, pg2, sh2, id, c.name.spec_bytes(), start_cols(old_db, c), size);
    reveal(building);
    reveal(install_edit);
    reveal(table_writes);
}

/// An operation on an index of the new table leaves the other tables as they
/// were.
#[verifier::spinoff_prover]
proof fn lemma_kept_step(pg0: Seq<Seq<u8>>, sh0: Shape, pg: Seq<Seq<u8>>, sh: Shape, pg2: Seq<Seq<u8>>, sh2: Shape, id: int, i: int)
    requires
        tables_kept(pg0, sh0, pg, sh),
        index_step(pg, sh, pg2, sh2, id, i),
        id >= pg0.len() || !(sh0.kinds[id] is Table),
        sh0.kinds.len() == pg0.len(),
    ensures
        tables_kept(pg0, sh0, pg2, sh2),
{
    reveal(index_step);
    reveal(tables_kept);
    assert forall|u: int| 0 < u < pg0.len() && (#[trigger] sh0.kinds[u]) is Table implies u < pg2.len() && sh2.kinds[u] == sh0.kinds[u] && table_of(pg2, u) == table_of(pg0, u) by {
        assert(sh.kinds[u] == sh0.kinds[u] && table_of(pg, u) == table_of(pg0, u));
        assert(is_structural(sh.kinds[u]));
    }
    assert forall|u: nat| 0 < u < pg0.len() && sh0.kinds[u as int] is Table implies #[trigger] rows_of(pg2, sh2, u) == rows_of(pg0, sh0, u) by {
        assert(sh.kinds[u as int] == sh0.kinds[u as int]);
        assert(rows_of(pg, sh, u) == rows_of(pg0, sh0, u));
    }
    assert forall|u: nat, d: nat| 0 < u < pg0.len() && sh0.kinds[u as int] is Table implies #[trigger] entries_of(pg2, sh2, u, d) == entries_of(pg0, sh0, u, d) by {
        assert(entries_of(pg, sh, u, d) == entries_of(pg0, sh0, u, d));
    }
}

#[verifier::spinoff_prover]
proof fn lemma_building_step(old_db: &Db, pg: Seq<Seq<u8>>, sh: Shape, pg2: Seq<Seq<u8>>, sh2: Shape, c: CreateTable, id: nat, i: int, root: int)
    requires
        old_db.wf(),
        id == next_page(old_db.free_list(), old_db.page_count()),
        building(old_db, pg, sh, c, id, i),
        0 <= i < c.cols@.len(),
        planned_col(old_db, c, i).flags.unique,
        0 < root < MAX_PAGE,
        index_step(pg, sh, pg2, sh2, id as int, i),
        entries_of(pg2, sh2, id, i as nat) == Set::<(Seq<u8>, u32)>::empty(),
        table_of(pg2, id as int) == (TablePageV {
            cols: table_of(pg, id as int).cols.update(i, indexed(table_of(pg, id as int).cols[i], root, true)),
            ..table_of(pg, id as int)
        }),
    ensures
        building(old_db, pg2, sh2, c, id, i + 1),
        sh2.heaps == sh.heaps,
{
    assert(sh2.heaps == sh.heaps) by {
        reveal(index_step);
    }
    assert(tables_kept(old_db.image(), old_db.shape(), pg2, sh2)) by {
        reveal(building);
        lemma_fresh_id(old_db.image(), old_db.shape());
        lemma_kept_step(old_db.image(), old_db.shape(), pg, sh, pg2, sh2, id as int, i);
    }
    assert forall|j: int| 0 <= j < c.cols@.len() implies #[trigger] col_state(old_db, c, pg2, sh2, id, j, i + 1) by {
        reveal(building);
        reveal(index_step);
        assert(col_state(old_db, c, pg, sh, id, j, i));
        if j != i {
            assert(entries_of(pg2, sh2, id, j as nat) == entries_of(pg, sh, id, j as nat));
        }
    }
    assert(tables(pg2[0]) == tables(pg[0]) && rows_of(pg2, sh2, id) == rows_of(pg, sh, id) && 0 < id < pg2.len() && sh2.kinds[id as int] is Table) by {
        reveal(building);
        reveal(index_step);
    }
    reveal(building);
}

/// The page the next allocation returns is no table-meta page.
#[verifier::spinoff_prover]
pub proof fn lemma_fresh_id(pg: Seq<Seq<u8>>, sh: Shape)
    requires
        pager_inv(pg, sh),
    ensures
        next_page(sh.free, pg.len()) >= pg.len() || sh.kinds[next_page(sh.free, pg.len()) as int] is Free,
{
    if sh.free.len() > 0 {
        assert(free_ok_at(pg, sh, sh.free.len() - 1));
    }
}

impl Db {
    /// Writes the table-meta page `id` of a new table and its directory entry at
    /// position `n`.
    #[verifier::spinoff_prover]
    fn write_table(&mut self, id: usize, n: usize, c: &CreateTable, drafts: &Vec<Draft>, offs: &Vec<u16>, size: u16, Ghost(cols): Ghost<Seq<ColInfoV>>)
        requires
            0 < id < old(self).page_count(),
            id < MAX_PAGE,
            old(self).image()[0].len() == PAGE_SIZE,
            old(self).image()[id as int].len() == PAGE_SIZE,
            n == table_num(old(self).image()[0]),
            n < MAX_TABLE,
            c.name.spec_bytes().len() < MAX_TABLE_NAME,
            c.cols@.len() < MAX_COL,
            drafts@.len() == c.cols@.len(),
            offs@.len() == c.cols@.len(),
            cols.len() == c.cols@.len(),
            MIN_SLOT_SIZE <= size <= MAX_DATA_BYTE,
            forall|i: int| 0 <= i < c.cols@.len() ==> #[trigger] cols[i] == start_col(*c, drafts@[i], offs@[i], i) && cols[i].name.len() < MAX_COL_NAME,
        ensures
            table_writes(old(self).image(), final(self).image(), id as int, c.name.spec_bytes(), cols, size),
            final(self).shape() == old(self).shape(),
            final(self).spec_path() == old(self).spec_path(),
    {
        let ghost pg1 = self.image();
        let mut page = self.take_page(id);
        let ncols: usize = c.cols.len();
        let mut i: usize = 0;
        while i < ncols
            invariant
                i <= ncols,
                ncols == c.cols@.len(),
                ncols < MAX_COL,
                page.len() == PAGE_SIZE,
                drafts@.len() == ncols,
                offs@.len() == ncols,
                cols.len() == ncols,
                forall|j: int| 0 <= j < ncols ==> #[trigger] cols[j] == start_col(*c, drafts@[j], offs@[j], j) && cols[j].name.len() < MAX_COL_NAME,
                forall|j: int| 0 <= j < i ==> #[trigger] col_at(page@, j) == cols[j],
            decreases ncols - i,
        {
            let d = drafts[i];
            let ci = ColInfo {
                ty: c.cols[i].ty,
                off: offs[i],
                flags: ColFlags { notnull: d.flags.notnull, primary: d.flags.primary, unique: false },
                index: NONE,
                foreign_table: d.foreign_table,
                foreign_col: d.foreign_col,
                name: to_vec(c.cols[i].name.as_bytes()),
            };
            assert(ci@ == cols[i as int]);
            let ghost before = page@;
            write_col(&mut page, i, &ci);
            proof {
                assert forall|j: int| 0 <= j < i implies #[trigger] col_at(page@, j) == cols[j] by {
                    lemma_col_same(before, page@, j);
                }
            }
            i += 1;
        }
        proof {
            lemma_cap_bounds(size as int);
        }
        let cap: u16 = ((PAGE_SIZE - DATA_HEAD) / (size as usize)) as u16;
        let ghost body = page@;
        write_table_head(&mut page, id as u32, id as u32, NONE, size, cap, ncols);
        proof {
            assert forall|j: int| 0 <= j < ncols implies #[trigger] col_at(page@, j) == cols[j] by {
                lemma_col_same(body, page@, j);
            }
            assert(table_page_at(id as u32, page@).cols =~= cols);
        }
        self.put_page(id, page);
        let mut meta = self.take_page(0);
        let ghost meta0 = meta@;
        write_table_info(&mut meta, n, id as u32, c.name.as_bytes());
        write_table_num(&mut meta, n + 1);
        proof {
            assert(tables(meta@) =~= tables(meta0).push(TableInfoV { meta: id as u32, name: c.name.spec_bytes() }));
        }
        self.put_page(0, meta);
        proof {
            reveal(table_writes);
        }
    }

    /// Creates the table that `c` defines.
    ///
    /// The definition is checked in full before anything is written; a refusal
    /// leaves the database as it was. On success the table has an empty index on
    /// every unique column.
    #[verifier::spinoff_prover]
    pub fn create_table(&mut self, c: &CreateTable) -> (r: Result<()>)
        requires
            old(self).wf(),
            old(self).free_list().len() + MAX_PAGE - old(self).page_count() >= 2,
        ensures
            final(self).wf(),
            final(self).spec_path() == old(self).spec_path(),
            match r {
                Ok(()) => created(old(self), final(self), *c),
                Err(e) => create_table_fault(old(self), *c) == Some(e@) && final(self).image() == old(self).image()
                    && final(self).shape() == old(self).shape(),
            },
    {
        match self.check_names(c) {
            Err(e) => {
                return Err(e);
            },
            Ok(()) => {},
        }
        let (drafts, pc) = match self.check_cons(c) {
            Err(e) => {
                return Err(e);
            },
            Ok(x) => x,
        };
        let (offs, size) = match check_size(c) {
            Err(n) => {
                return Err(Error::ColSizeTooBig(n));
            },
            Ok(x) => x,
        };
        let ghost pg0 = self.image();
        let ghost sh0 = self.shape();
        let ghost cols = start_cols(old(self), *c);
        proof {
            lemma_start_cols(old(self), *c, drafts@, offs@, size);
        }
        let n: usize = read_table_num(self.get_page(0));
        let id: usize = self.allocate_page();
        let ghost pg1 = self.image();
        let ghost sh1 = self.shape();
        self.write_table(id, n, c, &drafts, &offs, size, Ghost(cols));
        self.set_shape(Ghost(installed_shape(sh1, id as int, n as int)));
        proof {
            assert(install_edit(pg0, sh0, pg1, sh1, self.image(), self.shape(), id as int, c.name.spec_bytes(), cols, size)) by {
                reveal(install_edit);
            }
            lemma_building_start(old(self), pg1, sh1, self.image(), self.shape(), *c, id as int, size);
            assert(self.free_list() =~= free_after_taking(sh0.free, 1));
        }
        let ncols: usize = c.cols.len();
        let mut i: usize = 0;
        let ghost second = next_page(free_after_taking(sh0.free, 1), pages_after_taking(sh0.free.len(), pg0.len(), 1));
        while i < ncols
            invariant
                i <= ncols,
                ncols == c.cols@.len(),
                ncols < MAX_COL,
                old(self).wf(),
                self.wf(),
                self.spec_path() == old(self).spec_path(),
                create_table_fault(old(self), *c) is None,
                id == next_page(old(self).free_list(), old(self).page_count()),
                building(old(self), self.image(), self.shape(), *c, id as nat, i as int),
                pg0 == old(self).image(),
                sh0 == old(self).shape(),
                sh0.free.len() + MAX_PAGE - pg0.len() >= 2,
                second == next_page(free_after_taking(sh0.free, 1), pages_after_taking(sh0.free.len(), pg0.len(), 1)),
                self.free_list() == free_after_taking(sh0.free, 1 + unique_cols(old(self), *c, i as int)),
                self.page_count() == pages_after_taking(sh0.free.len(), pg0.len(), 1 + unique_cols(old(self), *c, i as int)),
                forall|j: int| 0 <= j < i && (#[trigger] planned_col(old(self), *c, j)).flags.unique ==> crate::catalog::fresh_index(self.image(), self.shape(), id as int, j, second as int),
                self.shape().heaps[id as nat].ring.len() == 0,
                crate::db::loose_kept(pg0, sh0, self.image(), self.shape()),
                drafts@.len() == ncols,
                forall|j: int| 0 <= j < ncols ==> draft_ok(old(self), *c, #[trigger] drafts@[j], j, c.cons@.len() as int),
                pc == count_primary(*c, c.cons@.len() as int),
            decreases ncols - i,
        {
            assert(draft_ok(old(self), *c, drafts@[i as int], i as int, c.cons@.len() as int));
            if drafts[i].flags.primary && pc == 1 {
                let ghost pg = self.image();
                let ghost sh = self.shape();
                proof {
                    reveal(building);
                    assert(col_state(old(self), *c, pg, sh, id as nat, i as int, i as int));
                }
                proof {
                    lemma_unique_cols(old(self), *c, i as int);
                    lemma_unique_cols(old(self), *c, i + 1);
                }
                let root = self.build_index(id, i, true);
                proof {
                    lemma_building_step(old(self), pg, sh, self.image(), self.shape(), *c, id as nat, i as int, root as int);
                    assert(self.free_list() =~= free_after_taking(sh0.free, 2));
                    lemma_loose_twice(pg0, sh0, pg, sh, self.image(), self.shape());
                }
            } else {
                proof {
                    lemma_building_skip(old(self), self.image(), self.shape(), *c, id as nat, i as int);
                }
            }
            i += 1;
        }
        proof {
            lemma_unique_cols(old(self), *c, ncols as int);
        }
        Ok(())
    }
}

/// Pages kept over two steps are kept over both.
#[verifier::spinoff_prover]
pub proof fn lemma_loose_twice(pg: Seq<Seq<u8>>, sh: Shape, pg1: Seq<Seq<u8>>, sh1: Shape, pg2: Seq<Seq<u8>>, sh2: Shape)
    requires
        crate::db::loose_kept(pg, sh, pg1, sh1),
        crate::db::loose_kept(pg1, sh1, pg2, sh2),
    ensures
        crate::db::loose_kept(pg, sh, pg2, sh2),
{
    reveal(crate::db::loose_kept);
    assert forall|p: int| 0 <= p < pg.len() && (#[trigger] sh.kinds[p]) is Loose implies p < pg2.len() && sh2.kinds[p] is Loose && pg2[p] == pg[p] by {
        assert(sh1.kinds[p] is Loose);
    }
}

#[verifier::spinoff_prover]
proof fn lemma_building_skip(old_db: &Db, pg: Seq<Seq<u8>>, sh: Shape, c: CreateTable, id: nat, i: int)
    requires
        building(old_db, pg, sh, c, id, i),
        0 <= i < c.cols@.len(),
        !planned_col(old_db, c, i).flags.unique,
    ensures
        building(old_db, pg, sh, c, id, i + 1),
{
    reveal(building);
    assert forall|j: int| 0 <= j < c.cols@.len() implies #[trigger] col_state(old_db, c, pg, sh, id, j, i + 1) by {
        assert(col_state(old_db, c, pg, sh, id, j, i));
    }
}

} // verus!
