//! The catalog: looking up tables and columns, and creating the index of a
//! column.

use vstd::prelude::*;
use crate::shape::tight;
use vstd::string::StringSliceAdditionalSpecFns;
use crate::db::{Db, next_page, shape_after_allocate};
use crate::error::{Error, ErrorV, Result};
use crate::frames::{in_tree, index_touch, lemma_index_touch, tree_ok};
use crate::heap::{lemma_rows_same, lemma_table_facts, rows_of};
use crate::key::{pow256, top};
use crate::layout::{MAX_COL, MAX_PAGE, MAX_SLOT, NONE, PAGE_SIZE};
use crate::meta::{TableInfo, TableInfoV, find_table, read_table_info, tables};
use crate::node::{ENTRIES_OFF, IndexPage, MAX_KEY, NodeV, fit, node_at, store_node};
use crate::schema::{BareTy, ColTy};
use crate::db::lemma_entries_frame;
use crate::shape::{Kind, Relax, Shape, Tree, apart, child_ok, dir_ok_at, entries_of, free_ok_at, holds, image_inv, is_leaf_of, key_width, keys_distinct, leaf_links_ok, node_ok, page_ok, pager_inv, root_ok_at, structure_inv, table_of, unique_ok_at};
use crate::table::{ColFlags, ColInfo, ColInfoV, TablePage, TablePageV, col_at, col_num, find_col, lemma_col_frame, load_table_page, read_col, read_col_num, write_col};

verus! {

/// Position of the table called `name` in a table directory.
#[verifier::opaque]
pub open spec fn table_slot(dir: Seq<TableInfoV>, name: Seq<u8>) -> Option<int> {
    if exists|t: int| 0 <= t < dir.len() && dir[t].name == name {
        Some(choose|t: int| 0 <= t < dir.len() && dir[t].name == name && forall|u: int| 0 <= u < t ==> (#[trigger] dir[u]).name != name)
    } else {
        None
    }
}

/// Position of the column called `name` in a column catalog.
#[verifier::opaque]
pub open spec fn col_slot(cols: Seq<ColInfoV>, name: Seq<u8>) -> Option<int> {
    if exists|c: int| 0 <= c < cols.len() && cols[c].name == name {
        Some(choose|c: int| 0 <= c < cols.len() && cols[c].name == name && forall|d: int| 0 <= d < c ==> (#[trigger] cols[d]).name != name)
    } else {
        None
    }
}

#[verifier::spinoff_prover]
pub proof fn lemma_table_slot(dir: Seq<TableInfoV>, name: Seq<u8>, t: int)
    requires
        0 <= t < dir.len(),
        dir[t].name == name,
        forall|u: int| 0 <= u < t ==> (#[trigger] dir[u]).name != name,
    ensures
        table_slot(dir, name) == Some(t),
{
    reveal(table_slot);
    let w = choose|t: int| 0 <= t < dir.len() && dir[t].name == name && forall|u: int| 0 <= u < t ==> (#[trigger] dir[u]).name != name;
    if w < t {
        assert(dir[w].name != name);
    }
    if t < w {
        assert(dir[t].name != name);
    }
}

#[verifier::spinoff_prover]
pub proof fn lemma_col_slot(cols: Seq<ColInfoV>, name: Seq<u8>, c: int)
    requires
        0 <= c < cols.len(),
        cols[c].name == name,
        forall|d: int| 0 <= d < c ==> (#[trigger] cols[d]).name != name,
    ensures
        col_slot(cols, name) == Some(c),
{
    reveal(col_slot);
    let w = choose|c: int| 0 <= c < cols.len() && cols[c].name == name && forall|d: int| 0 <= d < c ==> (#[trigger] cols[d]).name != name;
    if w < c {
        assert(cols[w].name != name);
    }
    if c < w {
        assert(cols[c].name != name);
    }
}

#[verifier::spinoff_prover]
pub proof fn lemma_table_slot_none(dir: Seq<TableInfoV>, name: Seq<u8>)
    requires
        forall|u: int| 0 <= u < dir.len() ==> (#[trigger] dir[u]).name != name,
    ensures
        table_slot(dir, name) is None,
{
    reveal(table_slot);
}

#[verifier::spinoff_prover]
pub proof fn lemma_col_slot_none(cols: Seq<ColInfoV>, name: Seq<u8>)
    requires
        forall|d: int| 0 <= d < cols.len() ==> (#[trigger] cols[d]).name != name,
    ensures
        col_slot(cols, name) is None,
{
    reveal(col_slot);
}

/// What the rules give for directory entry `t`.
#[verifier::spinoff_prover]
pub proof fn lemma_dir_facts(pg: Seq<Seq<u8>>, sh: Shape, t: int)
    requires
        image_inv(pg, sh, tight()),
        0 <= t < tables(pg[0]).len(),
    ensures
        0 < tables(pg[0])[t].meta < pg.len(),
        pg.len() <= MAX_PAGE,
        sh.kinds[tables(pg[0])[t].meta as int] == (Kind::Table { slot: t as nat }),
        pg[tables(pg[0])[t].meta as int].len() == PAGE_SIZE,
        table_of(pg, tables(pg[0])[t].meta as int).cols.len() < MAX_COL,
{
    reveal(structure_inv);
    assert(dir_ok_at(pg, sh, t));
    assert(page_ok(pg, sh, tables(pg[0])[t].meta as int, tight()));
}

/// Width of the keys of an index on a column of type `ty`.
#[verifier::spinoff_prover]
pub fn key_size_of(ty: ColTy) -> (ks: u16)
    ensures
        ks == key_width(ty),
        ks <= MAX_KEY,
{
    match ty.ty {
        BareTy::Int | BareTy::Float | BareTy::Date => 4,
        BareTy::Bool => 1,
        BareTy::Char | BareTy::VarChar => ty.size as u16,
    }
}

/// Entries a node of a new index may hold: one less than fit on a page.
pub open spec fn default_cap(ks: int) -> int {
    fit(ks, false) - 1
}

pub proof fn lemma_default_cap(ks: int)
    by (nonlinear_arith)
    requires
        0 <= ks <= 255,
    ensures
        30 <= (8192 - 20) / (ks + 8) <= 1021,
        30 <= (8192 - 20) / (ks + 4),
        (8192 - 20) / (ks + 8) <= (8192 - 20) / (ks + 4),
{
}

#[verifier::spinoff_prover]
pub proof fn lemma_top_positive(n: nat)
    ensures
        0 < pow256(n),
        0 < top(n),
    decreases n,
{
    if n > 0 {
        lemma_top_positive((n - 1) as nat);
    }
    assert(pow256(n) * 0x1_0000_0000 > 0) by (nonlinear_arith)
        requires
            pow256(n) > 0,
    ;
}

/// The catalog entry of a column after its index was rooted at page `id`.
pub open spec fn indexed(ci: ColInfoV, id: int, unique: bool) -> ColInfoV {
    ColInfoV { index: id as u32, flags: ColFlags { unique: ci.flags.unique || unique, ..ci.flags }, ..ci }
}

/// The root of an index without entries on the page `id`, for keys of `ks`
/// bytes: a leaf that is its own neighbour in the ring of leaves.
pub open spec fn empty_root(id: int, ks: int) -> NodeV {
    NodeV { prev: id as u32, next: id as u32, leaf: true, cap: default_cap(ks) as u16, key_size: ks as u16, entries: Seq::empty() }
}

/// The index on column `c` of table `t` is a single empty leaf on the page
/// `id`, with the fan-out that a new index has.
#[verifier::opaque]
pub open spec fn fresh_index(pg: Seq<Seq<u8>>, sh: Shape, t: int, c: int, id: int) -> bool {
    let ks = key_width(table_of(pg, t).cols[c].ty);
    &&& table_of(pg, t).cols[c].index == id
    &&& sh.trees[(t as nat, c as nat)] == (Tree { height: 0, cap: default_cap(ks) as nat })
    &&& node_at(pg[id]) == empty_root(id, ks)
}

/// How the pages change when the empty root `id` of the index on column `c` of
/// table `t` is written.
#[verifier::opaque]
pub open spec fn root_writes(pg1: Seq<Seq<u8>>, pg2: Seq<Seq<u8>>, t: int, c: int, id: int, unique: bool) -> bool {
    let tv = table_of(pg1, t);
    let ks = key_width(tv.cols[c].ty);
    &&& pg2.len() == pg1.len()
    &&& forall|p: int| 0 <= p < pg2.len() && p != id && p != t ==> #[trigger] pg2[p] == pg1[p]
    &&& pg2[id].len() == PAGE_SIZE
    &&& pg2[t].len() == PAGE_SIZE
    &&& node_at(pg2[id]) == (NodeV {
        prev: id as u32,
        next: id as u32,
        leaf: true,
        cap: default_cap(ks) as u16,
        key_size: ks as u16,
        entries: Seq::empty(),
    })
    &&& table_of(pg2, t) == (TablePageV { cols: tv.cols.update(c, indexed(tv.cols[c], id, unique)), ..tv })
}

/// How the pages and the shape change when column `c` of table `t` gets an
/// index rooted at the new page `id`.
#[verifier::opaque]
pub open spec fn build_edit(pg0: Seq<Seq<u8>>, sh0: Shape, pg1: Seq<Seq<u8>>, sh1: Shape, pg2: Seq<Seq<u8>>, sh2: Shape, t: int, c: int, id: int, unique: bool) -> bool {
    let ks = key_width(table_of(pg0, t).cols[c].ty);
    &&& sh1 == shape_after_allocate(sh0, id as nat)
    &&& id == next_page(sh0.free, pg0.len())
    &&& 0 < id < pg1.len()
    &&& id < pg0.len() ==> sh0.kinds[id] is Free
    &&& pg1.len() == pg0.len() + (if sh0.free.len() > 0 { 0int } else { 1 })
    &&& forall|p: int| 0 < p < pg0.len() ==> #[trigger] pg1[p] == pg0[p]
    &&& tables(pg1[0]) == tables(pg0[0])
    &&& root_writes(pg1, pg2, t, c, id, unique)
    &&& sh2 == built_shape(sh1, t, c, id, ks)
}

pub open spec fn built_shape(sh1: Shape, t: int, c: int, id: int, ks: int) -> Shape {
    Shape {
        kinds: sh1.kinds.update(id, Kind::Node { table: t as nat, col: c as nat, height: 0, parent: id as nat, slot: 0, lo: 0, hi: top(ks as nat) }),
        trees: sh1.trees.insert((t as nat, c as nat), Tree { height: 0, cap: default_cap(ks) as nat }),
        ..sh1
    }
}

/// What an operation on the index on column `c` of table `t` leaves alone: the
/// table directory, the rows of every table, every column catalog but for that
/// column's index root and unique flag, and the entries of every other index.
#[verifier::opaque]
pub open spec fn index_step(pg: Seq<Seq<u8>>, sh: Shape, pg2: Seq<Seq<u8>>, sh2: Shape, t: int, c: int) -> bool {
    &&& index_touch(pg, sh, pg2, sh2, t, c)
    &&& forall|u: nat| 0 < u < pg.len() && sh.kinds[u as int] is Table ==> #[trigger] rows_of(pg2, sh2, u) == rows_of(pg, sh, u)
    &&& forall|u: nat, d: nat| (u != t || d != c) ==> #[trigger] entries_of(pg2, sh2, u, d) == entries_of(pg, sh, u, d)
}

/// What [`index_touch`] leaves alone.
#[verifier::spinoff_prover]
pub proof fn lemma_index_step(pg: Seq<Seq<u8>>, sh: Shape, pg2: Seq<Seq<u8>>, sh2: Shape, t: int, c: int)
    requires
        image_inv(pg, sh, tight()),
        index_touch(pg, sh, pg2, sh2, t, c),
    ensures
        index_step(pg, sh, pg2, sh2, t, c),
{
    reveal(index_step);
    assert forall|u: nat| 0 < u < pg.len() && sh.kinds[u as int] is Table implies #[trigger] rows_of(pg2, sh2, u) == rows_of(pg, sh, u) by {
        lemma_table_facts(pg, sh, u as int);
        assert forall|r: crate::schema::Rid| #[trigger] rows_of(pg2, sh2, u).contains(r) == rows_of(pg, sh, u).contains(r) by {
            let d = r.spec_page() as int;
            if rows_of(pg2, sh2, u).contains(r) {
                assert(sh2.kinds[d] is Data);
            }
            if rows_of(pg, sh, u).contains(r) {
                assert(sh.kinds[d] is Data);
            }
        }
        assert(rows_of(pg2, sh2, u) =~= rows_of(pg, sh, u));
    }
    assert forall|u: nat, d: nat| (u != t || d != c) implies #[trigger] entries_of(pg2, sh2, u, d) == entries_of(pg, sh, u, d) by {
        assert forall|p: int| 0 <= p < pg.len() && #[trigger] is_leaf_of(sh, p, u, d) implies p < pg2.len() && pg2[p] == pg[p] && is_leaf_of(sh2, p, u, d) by {
            assert(sh.kinds[p] is Node);
            assert(sh.kinds[t] is Table);
        }
        assert forall|p: int| 0 <= p < pg2.len() && #[trigger] is_leaf_of(sh2, p, u, d) implies p < pg.len() && is_leaf_of(sh, p, u, d) by {
            assert(sh2.kinds[p] is Node);
            assert(sh2.kinds[t] is Table);
        }
        lemma_entries_frame(pg, sh, pg2, sh2, u, d);
    }
}

#[verifier::spinoff_prover]
proof fn lemma_build_pager(pg0: Seq<Seq<u8>>, sh0: Shape, pg1: Seq<Seq<u8>>, sh1: Shape, pg2: Seq<Seq<u8>>, sh2: Shape, t: int, c: int, id: int, unique: bool)
    requires
        image_inv(pg0, sh0, tight()),
        0 < t < pg0.len(),
        sh0.kinds[t] is Table,
        0 <= c < table_of(pg0, t).cols.len(),
        table_of(pg0, t).cols[c].index == NONE,
        pager_inv(pg1, sh1),
        build_edit(pg0, sh0, pg1, sh1, pg2, sh2, t, c, id, unique),
    ensures
        pager_inv(pg2, sh2),
        id != t,
        id >= pg0.len() || sh0.kinds[id] is Free,
        forall|p: int| 0 <= p < pg0.len() ==> !in_tree(#[trigger] sh0.kinds[p], t, c),
{
    reveal(structure_inv);
    reveal(build_edit);
    reveal(root_writes);
    if sh0.free.len() > 0 {
        assert(free_ok_at(pg0, sh0, sh0.free.len() - 1));
    }
    assert forall|i: int| 0 <= i < sh2.free.len() implies #[trigger] free_ok_at(pg2, sh2, i) by {
        assert(free_ok_at(pg1, sh1, i));
    }
    assert(pg2[0] == pg1[0]);
    assert forall|p: int| 0 <= p < pg0.len() implies !in_tree(#[trigger] sh0.kinds[p], t, c) by {
        if in_tree(sh0.kinds[p], t, c) {
            assert(page_ok(pg0, sh0, p, tight()));
        }
    }
}

#[verifier::spinoff_prover]
proof fn lemma_build_touch(pg0: Seq<Seq<u8>>, sh0: Shape, pg1: Seq<Seq<u8>>, sh1: Shape, pg2: Seq<Seq<u8>>, sh2: Shape, t: int, c: int, id: int, unique: bool)
    requires
        image_inv(pg0, sh0, tight()),
        0 < t < pg0.len(),
        sh0.kinds[t] is Table,
        0 <= c < table_of(pg0, t).cols.len(),
        table_of(pg0, t).cols[c].index == NONE,
        pager_inv(pg1, sh1),
        build_edit(pg0, sh0, pg1, sh1, pg2, sh2, t, c, id, unique),
    ensures
        index_touch(pg0, sh0, pg2, sh2, t, c),
{
    lemma_build_pager(pg0, sh0, pg1, sh1, pg2, sh2, t, c, id, unique);
    reveal(build_edit);
    reveal(root_writes);
    assert(table_of(pg1, t) == table_of(pg0, t));
}

#[verifier::spinoff_prover]
proof fn lemma_build_node(pg0: Seq<Seq<u8>>, sh0: Shape, pg1: Seq<Seq<u8>>, sh1: Shape, pg2: Seq<Seq<u8>>, sh2: Shape, t: int, c: int, id: int, unique: bool)
    requires
        image_inv(pg0, sh0, tight()),
        0 < t < pg0.len(),
        sh0.kinds[t] is Table,
        0 <= c < table_of(pg0, t).cols.len(),
        table_of(pg0, t).cols[c].index == NONE,
        pager_inv(pg1, sh1),
        build_edit(pg0, sh0, pg1, sh1, pg2, sh2, t, c, id, unique),
    ensures
        root_ok_at(pg2, sh2, t, c),
        node_ok(pg2, sh2, id, tight()),
        forall|p: int| 0 <= p < pg2.len() && in_tree(#[trigger] sh2.kinds[p], t, c) ==> p == id,
        node_at(pg2[id]).entries.len() == 0,
        table_of(pg2, t).cols[c].index != NONE,
{
    lemma_build_pager(pg0, sh0, pg1, sh1, pg2, sh2, t, c, id, unique);
    reveal(build_edit);
    reveal(root_writes);
    let ks = key_width(table_of(pg0, t).cols[c].ty);
    lemma_default_cap(ks);
    lemma_top_positive(ks as nat);
    assert(table_of(pg1, t) == table_of(pg0, t));
    assert(sh2.kinds[t] is Table);
    assert(fit(ks, false) == (8192 - 20) / (ks + 8));
    assert(leaf_links_ok(pg2, sh2, id, ks as nat));
}

#[verifier::spinoff_prover]
proof fn lemma_build_tree(pg0: Seq<Seq<u8>>, sh0: Shape, pg1: Seq<Seq<u8>>, sh1: Shape, pg2: Seq<Seq<u8>>, sh2: Shape, t: int, c: int, id: int, unique: bool)
    requires
        image_inv(pg0, sh0, tight()),
        0 < t < pg0.len(),
        sh0.kinds[t] is Table,
        0 <= c < table_of(pg0, t).cols.len(),
        table_of(pg0, t).cols[c].index == NONE,
        pager_inv(pg1, sh1),
        build_edit(pg0, sh0, pg1, sh1, pg2, sh2, t, c, id, unique),
    ensures
        pager_inv(pg2, sh2),
        index_touch(pg0, sh0, pg2, sh2, t, c),
        tree_ok(pg2, sh2, t, c, tight()),
        entries_of(pg2, sh2, t as nat, c as nat) == Set::<(Seq<u8>, u32)>::empty(),
{
    lemma_build_pager(pg0, sh0, pg1, sh1, pg2, sh2, t, c, id, unique);
    lemma_build_touch(pg0, sh0, pg1, sh1, pg2, sh2, t, c, id, unique);
    lemma_build_node(pg0, sh0, pg1, sh1, pg2, sh2, t, c, id, unique);
    assert forall|e: (Seq<u8>, u32)| !(#[trigger] entries_of(pg2, sh2, t as nat, c as nat).contains(e)) by {
        if entries_of(pg2, sh2, t as nat, c as nat).contains(e) {
            let (p, i) = choose|p: int, i: int| #[trigger] holds(pg2, sh2, t as nat, c as nat, p, i, e);
            assert(in_tree(sh2.kinds[p], t, c));
            assert(p == id);
        }
    }
    assert(entries_of(pg2, sh2, t as nat, c as nat) =~= Set::<(Seq<u8>, u32)>::empty());
    assert(unique_ok_at(pg2, sh2, t, c));
    assert forall|p: int, q: int| 0 <= p < pg2.len() && 0 <= q < pg2.len() && in_tree(sh2.kinds[p], t, c) && in_tree(sh2.kinds[q], t, c) implies #[trigger] apart(sh2, p, q) by {
        assert(p == id && q == id);
    }
}

#[verifier::spinoff_prover]
proof fn lemma_build(pg0: Seq<Seq<u8>>, sh0: Shape, pg1: Seq<Seq<u8>>, sh1: Shape, pg2: Seq<Seq<u8>>, sh2: Shape, t: int, c: int, id: int, unique: bool)
    requires
        image_inv(pg0, sh0, tight()),
        0 < t < pg0.len(),
        sh0.kinds[t] is Table,
        0 <= c < table_of(pg0, t).cols.len(),
        table_of(pg0, t).cols[c].index == NONE,
        pager_inv(pg1, sh1),
        build_edit(pg0, sh0, pg1, sh1, pg2, sh2, t, c, id, unique),
    ensures
        image_inv(pg2, sh2, tight()),
        index_step(pg0, sh0, pg2, sh2, t, c),
        entries_of(pg2, sh2, t as nat, c as nat) == Set::<(Seq<u8>, u32)>::empty(),
        table_of(pg2, t) == (TablePageV { cols: table_of(pg0, t).cols.update(c, indexed(table_of(pg0, t).cols[c], id, unique)), ..table_of(pg0, t) }),
        sh2.free == crate::db::free_after_allocate(sh0.free),
{
    lemma_build_tree(pg0, sh0, pg1, sh1, pg2, sh2, t, c, id, unique);
    lemma_index_touch(pg0, sh0, pg2, sh2, t, c, tight(), tight());
    lemma_index_step(pg0, sh0, pg2, sh2, t, c);
    reveal(build_edit);
    reveal(root_writes);
}

impl Db {
    /// The table directory.
    pub open spec fn directory(&self) -> Seq<TableInfoV> {
        tables(self.image()[0])
    }

    /// The entries of the index on column `c` of the table whose table-meta page
    /// is `t`.
    pub open spec fn entries(&self, t: nat, c: nat) -> Set<(Seq<u8>, u32)> {
        entries_of(self.image(), self.shape(), t, c)
    }

    /// Directory position and table-meta page of the table called `name`.
    #[verifier::spinoff_prover]
    pub(crate) fn locate(&self, name: &[u8]) -> (r: Option<(usize, usize)>)
        requires
            self.wf(),
        ensures
            match r {
                Some((t, m)) => table_slot(self.directory(), name@) == Some(t as int) && t < self.directory().len() && t < crate::layout::MAX_TABLE && m == self.directory()[t as int].meta
                    && self.is_table(m as nat) && self.shape().kinds[m as int] == (Kind::Table { slot: t as nat })
                    && self.image()[m as int].len() == PAGE_SIZE && m < MAX_PAGE && self.table(m as nat).cols.len() < MAX_COL,
                None => table_slot(self.directory(), name@) is None,
            },
    {
        let page = self.get_page(0);
        match find_table(page, name) {
            Some(t) => {
                let ti = read_table_info(page, t);
                proof {
                    lemma_table_slot(self.directory(), name@, t as int);
                    lemma_dir_facts(self.image(), self.shape(), t as int);
                }
                Some((t, ti.meta as usize))
            },
            None => {
                proof {
                    lemma_table_slot_none(self.directory(), name@);
                }
                None
            },
        }
    }

    /// The directory entry of the table called `table`.
    #[verifier::spinoff_prover]
    pub fn get_ti(&self, table: &str) -> (r: Result<TableInfo>)
        requires
            self.wf(),
        ensures
            match r {
                Ok(ti) => table_slot(self.directory(), table.spec_bytes()) matches Some(t) && ti@ == self.directory()[t],
                Err(e) => table_slot(self.directory(), table.spec_bytes()) is None && e@ == ErrorV::NoSuchTable(table@),
            },
    {
        let page = self.get_page(0);
        match find_table(page, table.as_bytes()) {
            Some(t) => {
                proof {
                    lemma_table_slot(self.directory(), table.spec_bytes(), t as int);
                }
                Ok(read_table_info(page, t))
            },
            None => {
                proof {
                    lemma_table_slot_none(self.directory(), table.spec_bytes());
                }
                Err(Error::NoSuchTable(table.to_owned()))
            },
        }
    }

    /// The table-meta page of the table called `table`.
    #[verifier::spinoff_prover]
    pub fn get_tp(&self, table: &str) -> (r: Result<TablePage>)
        requires
            self.wf(),
        ensures
            match r {
                Ok(tp) => table_slot(self.directory(), table.spec_bytes()) matches Some(t) && tp.id == self.directory()[t].meta
                    && self.synced(&tp),
                Err(e) => table_slot(self.directory(), table.spec_bytes()) is None && e@ == ErrorV::NoSuchTable(table@),
            },
    {
        match self.locate(table.as_bytes()) {
            Some((_, m)) => Ok(load_table_page(m as u32, self.get_page(m))),
            None => Err(Error::NoSuchTable(table.to_owned())),
        }
    }

    /// The page id of a table-meta page.
    #[verifier::spinoff_prover]
    pub fn id_of(&self, tp: &TablePage) -> (id: usize)
        ensures
            id == tp.id,
    {
        tp.id as usize
    }

    /// The catalog entry of the column `col` of the table `table`.
    #[verifier::spinoff_prover]
    pub fn get_ci(&self, table: &str, col: &str) -> (r: Result<ColInfo>)
        requires
            self.wf(),
        ensures
            match r {
                Ok(ci) => table_slot(self.directory(), table.spec_bytes()) matches Some(t) && (col_slot(
                    self.table(self.directory()[t].meta as nat).cols,
                    col.spec_bytes(),
                ) matches Some(c) && ci@ == self.table(self.directory()[t].meta as nat).cols[c]),
                Err(e) => match table_slot(self.directory(), table.spec_bytes()) {
                    None => e@ == ErrorV::NoSuchTable(table@),
                    Some(t) => col_slot(self.table(self.directory()[t].meta as nat).cols, col.spec_bytes()) is None && e@
                        == ErrorV::NoSuchCol(col@),
                },
            },
    {
        match self.locate(table.as_bytes()) {
            Some((_, m)) => {
                let page = self.get_page(m);
                match find_col(page, col.as_bytes()) {
                    Some(c) => {
                        proof {
                            lemma_col_slot(self.table(m as nat).cols, col.spec_bytes(), c as int);
                        }
                        Ok(read_col(page, c))
                    },
                    None => {
                        proof {
                            lemma_col_slot_none(self.table(m as nat).cols, col.spec_bytes());
                        }
                        Err(Error::NoSuchCol(col.to_owned()))
                    },
                }
            },
            None => Err(Error::NoSuchTable(table.to_owned())),
        }
    }

    /// Writes the empty root `id` of the index on column `c` of table `t` and
    /// records it in the column's catalog entry.
    #[verifier::spinoff_prover]
    fn write_root(&mut self, t: usize, c: usize, id: usize, unique: bool)
        requires
            t < old(self).page_count(),
            id < old(self).page_count(),
            id != t,
            id < MAX_PAGE,
            c < col_num(old(self).image()[t as int]),
            c < MAX_COL,
            old(self).image()[t as int].len() == PAGE_SIZE,
            old(self).image()[id as int].len() == PAGE_SIZE,
        ensures
            root_writes(old(self).image(), final(self).image(), t as int, c as int, id as int, unique),
            final(self).shape() == old(self).shape(),
            final(self).spec_path() == old(self).spec_path(),
    {
        let ghost pg1 = self.image();
        let mut ci = read_col(self.get_page(t), c);
        let ks: u16 = key_size_of(ci.ty);
        proof {
            lemma_default_cap(ks as int);
        }
        let cap: u16 = ((PAGE_SIZE - ENTRIES_OFF) / (ks as usize + 8) - 1) as u16;
        let node = IndexPage { prev: id as u32, next: id as u32, leaf: true, cap, key_size: ks, entries: Vec::new() };
        let mut page = self.take_page(id);
        assert(node@.entries =~= Seq::empty());
        store_node(&mut page, &node);
        self.put_page(id, page);
        ci.index = id as u32;
        ci.flags = ColFlags { notnull: ci.flags.notnull, primary: ci.flags.primary, unique: ci.flags.unique || unique };
        let mut head = self.take_page(t);
        write_col(&mut head, c, &ci);
        proof {
            lemma_col_frame(t as u32, pg1[t as int], head@, c as int);
        }
        self.put_page(t, head);
        proof {
            reveal(root_writes);
        }
    }

    /// Gives column `c` of table `t` an empty index; with `unique` the column
    /// becomes unique as well.
    #[verifier::spinoff_prover]
    pub(crate) fn build_index(&mut self, t: usize, c: usize, unique: bool) -> (id: usize)
        requires
            old(self).wf(),
            old(self).is_table(t as nat),
            c < old(self).table(t as nat).cols.len(),
            old(self).table(t as nat).cols[c as int].index == NONE,
            old(self).free_list().len() > 0 || old(self).page_count() < MAX_PAGE,
        ensures
            final(self).wf(),
            id == next_page(old(self).free_list(), old(self).page_count()),
            0 < id < final(self).page_count(),
            id < MAX_PAGE,
            index_step(old(self).image(), old(self).shape(), final(self).image(), final(self).shape(), t as int, c as int),
            final(self).entries(t as nat, c as nat) == Set::<(Seq<u8>, u32)>::empty(),
            final(self).table(t as nat) == (TablePageV {
                cols: old(self).table(t as nat).cols.update(c as int, indexed(old(self).table(t as nat).cols[c as int], id as int, unique)),
                ..old(self).table(t as nat)
            }),
            final(self).free_list() == crate::db::free_after_allocate(old(self).free_list()),
            final(self).page_count() == old(self).page_count() + (if old(self).free_list().len() > 0 { 0int } else { 1 }),
            crate::db::loose_kept(old(self).image(), old(self).shape(), final(self).image(), final(self).shape()),
            fresh_index(final(self).image(), final(self).shape(), t as int, c as int, id as int),
            final(self).spec_path() == old(self).spec_path(),
    {
        let ghost pg0 = self.image();
        let ghost sh0 = self.shape();
        proof {
            lemma_table_facts(pg0, sh0, t as int);
        }
        let id: usize = self.allocate_page();
        let ghost pg1 = self.image();
        let ghost sh1 = self.shape();
        assert(id != t);
        assert(pg1[t as int] == pg0[t as int]);
        self.write_root(t, c, id, unique);
        let ghost ks = key_width(table_of(pg0, t as int).cols[c as int].ty);
        let ghost sh2 = built_shape(sh1, t as int, c as int, id as int, ks);
        self.set_shape(Ghost(sh2));
        proof {
            let pg2 = self.image();
            assert(build_edit(pg0, sh0, pg1, sh1, pg2, sh2, t as int, c as int, id as int, unique)) by {
                reveal(build_edit);
            }
            lemma_build(pg0, sh0, pg1, sh1, pg2, sh2, t as int, c as int, id as int, unique);
            assert(pg2.len() == pg1.len()) by {
                reveal(build_edit);
                reveal(root_writes);
            }
            assert(fresh_index(pg2, sh2, t as int, c as int, id as int)) by {
                reveal(fresh_index);
                reveal(root_writes);
                assert(table_of(pg1, t as int) == table_of(pg0, t as int));
            }
            assert(crate::db::loose_kept(pg0, sh0, pg2, sh2)) by {
                reveal(crate::db::loose_kept);
                reveal(root_writes);
                assert forall|p: int| 0 <= p < pg0.len() && (#[trigger] sh0.kinds[p]) is Loose implies p < pg2.len() && sh2.kinds[p] is Loose && pg2[p] == pg0[p] by {
                    assert(p != id && p != t && p != 0);
                    assert(pg1[p] == pg0[p]);
                    assert(pg2[p] == pg1[p]);
                }
            }
        }
        id
    }

    /// Why `create_index(table, col)` is refused, if it is.
    pub open spec fn create_index_fault(&self, table: &str, col: &str) -> Option<ErrorV> {
        match table_slot(self.directory(), table.spec_bytes()) {
            None => Some(ErrorV::NoSuchTable(table@)),
            Some(t) => {
                let m = self.directory()[t].meta as nat;
                if self.rows(m).len() != 0 {
                    Some(ErrorV::CreateIndexOnNonEmpty(table@))
                } else {
                    match col_slot(self.table(m).cols, col.spec_bytes()) {
                        None => Some(ErrorV::NoSuchCol(col@)),
                        Some(c) => if self.table(m).cols[c].index != NONE {
                            Some(ErrorV::DupIndex(col@))
                        } else {
                            None
                        },
                    }
                }
            },
        }
    }

    /// Creates an index on the column `col` of the table `table`, which must be
    /// empty and must not have one yet. The index starts as a single empty leaf.
    #[verifier::spinoff_prover]
    pub fn create_index(&mut self, table: &str, col: &str) -> (r: Result<()>)
        requires
            old(self).wf(),
            old(self).create_index_fault(table, col) is None ==> old(self).free_list().len() > 0 || old(self).page_count() < MAX_PAGE,
        ensures
            final(self).wf(),
            final(self).spec_path() == old(self).spec_path(),
            match r {
                Ok(()) => old(self).create_index_fault(table, col) is None && {
                    let t = table_slot(old(self).directory(), table.spec_bytes())->0;
                    let m = old(self).directory()[t].meta as nat;
                    let c = col_slot(old(self).table(m).cols, col.spec_bytes())->0;
                    &&& index_step(old(self).image(), old(self).shape(), final(self).image(), final(self).shape(), m as int, c)
                    &&& final(self).entries(m, c as nat) == Set::<(Seq<u8>, u32)>::empty()
                    &&& final(self).table(m) == (TablePageV {
                        cols: old(self).table(m).cols.update(
                            c,
                            indexed(old(self).table(m).cols[c], next_page(old(self).free_list(), old(self).page_count()) as int, false),
                        ),
                        ..old(self).table(m)
                    })
                    &&& final(self).free_list() == crate::db::free_after_allocate(old(self).free_list())
                    &&& final(self).page_count() == old(self).page_count() + (if old(self).free_list().len() > 0 { 0int } else { 1 })
                    &&& crate::db::loose_kept(old(self).image(), old(self).shape(), final(self).image(), final(self).shape())
                    &&& fresh_index(
                        final(self).image(),
                        final(self).shape(),
                        m as int,
                        c,
                        next_page(old(self).free_list(), old(self).page_count()) as int,
                    )
                },
                Err(e) => old(self).create_index_fault(table, col) == Some(e@) && final(self).image() == old(self).image()
                    && final(self).shape() == old(self).shape(),
            },
    {
        let m: usize = match self.locate(table.as_bytes()) {
            Some((_, m)) => m,
            None => {
                return Err(Error::NoSuchTable(table.to_owned()));
            },
        };
        let tp = load_table_page(m as u32, self.get_page(m));
        if self.record_iter(&tp).len() != 0 {
            return Err(Error::CreateIndexOnNonEmpty(table.to_owned()));
        }
        let c: usize = match find_col(self.get_page(m), col.as_bytes()) {
            Some(c) => c,
            None => {
                proof {
                    lemma_col_slot_none(self.table(m as nat).cols, col.spec_bytes());
                }
                return Err(Error::NoSuchCol(col.to_owned()));
            },
        };
        proof {
            lemma_col_slot(self.table(m as nat).cols, col.spec_bytes(), c as int);
        }
        if tp.cols[c].index != NONE {
            assert(tp@.cols[c as int] == tp.cols@[c as int]@);
            return Err(Error::DupIndex(col.to_owned()));
        }
        assert(tp@.cols[c as int] == tp.cols@[c as int]@);
        self.build_index(m, c, false);
        Ok(())
    }
}

} // verus!
