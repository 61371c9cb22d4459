//! The consistency rules of a database image.
//!
//! An image is a sequence of pages. What a page holds is decided by how it is
//! reached from the meta page, so beside the bytes the rules speak of a *shape*:
//! for every page its role ([`Kind`]), for the pager its free list, for every
//! table its ring of data pages and its chain of pages with a free slot, and for
//! every index the height and fan-out of its tree. A role records where a page
//! sits in its structure, which makes every rule a statement about one page and
//! its direct neighbours.

use vstd::prelude::*;
use crate::layout::{DATA_HEAD, MAX_COL, MAX_DATA_BYTE, MAX_PAGE, MIN_SLOT_SIZE, NONE, NO_TABLE, PAGE_SIZE, le32};
use crate::meta::{TableInfoV, first_free, has_magic, tables};
use crate::table::{ColInfoV, TablePageV, table_page_at};
use crate::data::{dp_count, dp_next, dp_next_free, dp_prev, used_slots};
use crate::node::{EntryV, NodeV, fit, node_at};
use crate::key::{rank, top};
use crate::schema::{BareTy, ColTy, col_offset, row_size};

verus! {

/// The role of a page.
pub enum Kind {
    /// Page 0.
    Meta,
    /// On the free list, `height` links away from its end.
    Free { height: nat },
    /// Handed out by the pager and not part of any structure.
    Loose,
    /// The table-meta page of the table at directory position `slot`.
    Table { slot: nat },
    /// Data page number `pos` of the ring of `table`; `link` is its distance
    /// from the end of the chain of pages with a free slot, or -1 when full.
    Data { table: nat, pos: nat, link: int },
    /// A node of the index on column `col` of `table`: `height` levels above
    /// the leaves, child number `slot` of `parent`, holding the entries whose
    /// rank lies in `[lo, hi)`.
    Node { table: nat, col: nat, height: nat, parent: nat, slot: nat, lo: int, hi: int },
}

/// The data pages of one table.
pub struct Heap {
    /// The ring in order, first page first.
    pub ring: Seq<nat>,
    /// The pages with a free slot; the last one is the head of the chain.
    pub chain: Seq<nat>,
}

/// The tree of one index.
pub struct Tree {
    /// Levels above the leaves at which the root sits.
    pub height: nat,
    /// Entries a node may hold.
    pub cap: nat,
}

pub struct Shape {
    pub kinds: Seq<Kind>,
    /// The free pages; the last one is the head of the list.
    pub free: Seq<nat>,
    /// By table-meta page.
    pub heaps: Map<nat, Heap>,
    /// By table-meta page and column.
    pub trees: Map<(nat, nat), Tree>,
}

/// During an insertion one node may hold one entry too many, during a deletion
/// one node may hold one too few; while the root is being replaced both can be
/// the case at once.
pub struct Relax {
    pub over: Option<nat>,
    pub under: Option<nat>,
}

/// No exception.
pub open spec fn tight() -> Relax {
    Relax { over: None, under: None }
}

pub open spec fn is_structural(k: Kind) -> bool {
    k is Table || k is Data || k is Node
}

// ---------------------------------------------------------------- pager

pub open spec fn free_ok_at(pg: Seq<Seq<u8>>, sh: Shape, i: int) -> bool {
    &&& 0 < sh.free[i] < pg.len()
    &&& sh.kinds[sh.free[i] as int] == (Kind::Free { height: i as nat })
    &&& le32(pg[sh.free[i] as int], 0) == (if i == 0 {
        NONE
    } else {
        sh.free[i - 1] as u32
    })
}

/// The rules of the pager: page sizes, the format tag and the free list.
pub open spec fn pager_inv(pg: Seq<Seq<u8>>, sh: Shape) -> bool {
    &&& 1 <= pg.len() <= MAX_PAGE
    &&& sh.kinds.len() == pg.len()
    &&& forall|p: int| 0 <= p < pg.len() ==> (#[trigger] pg[p]).len() == PAGE_SIZE
    &&& forall|p: int| 0 <= p < pg.len() ==> ((#[trigger] sh.kinds[p]) is Meta <==> p == 0)
    &&& has_magic(pg[0])
    &&& first_free(pg[0]) == (if sh.free.len() == 0 {
        NONE
    } else {
        sh.free.last() as u32
    })
    &&& forall|i: int| 0 <= i < sh.free.len() ==> #[trigger] free_ok_at(pg, sh, i)
    &&& forall|p: int|
        0 <= p < pg.len() ==> ((#[trigger] sh.kinds[p]) matches Kind::Free { height } ==> height < sh.free.len()
            && sh.free[height as int] == p)
}

// ---------------------------------------------------------------- catalog

/// The catalog of the table whose table-meta page is `t`.
pub open spec fn table_of(pg: Seq<Seq<u8>>, t: int) -> TablePageV {
    table_page_at(t as u32, pg[t])
}

pub open spec fn col_types(cols: Seq<ColInfoV>) -> Seq<ColTy> {
    Seq::new(cols.len(), |c: int| cols[c].ty)
}

/// Width of the keys of an index on a column of type `t`.
pub open spec fn key_width(t: ColTy) -> int {
    match t.ty {
        BareTy::Int | BareTy::Float | BareTy::Date => 4,
        BareTy::Bool => 1,
        BareTy::Char | BareTy::VarChar => t.size as int,
    }
}

/// Slots per data page for rows of `size` bytes.
pub open spec fn slots_per_page(size: int) -> int {
    (PAGE_SIZE - DATA_HEAD) / size
}

pub open spec fn dir_ok_at(pg: Seq<Seq<u8>>, sh: Shape, t: int) -> bool {
    let ti = tables(pg[0])[t];
    &&& 0 < ti.meta < pg.len()
    &&& sh.kinds[ti.meta as int] == (Kind::Table { slot: t as nat })
}

/// The table directory: every live entry points at a table-meta page that knows
/// its position, and no two live tables share a name.
pub open spec fn directory_ok(pg: Seq<Seq<u8>>, sh: Shape) -> bool {
    let tabs = tables(pg[0]);
    &&& forall|t: int| 0 <= t < tabs.len() ==> #[trigger] dir_ok_at(pg, sh, t)
    &&& forall|p: int|
        0 <= p < pg.len() ==> ((#[trigger] sh.kinds[p]) matches Kind::Table { slot } ==> slot < tabs.len()
            && tabs[slot as int].meta == p)
    &&& forall|t: int, u: int| 0 <= t < u < tabs.len() ==> (#[trigger] tabs[t]).name != (#[trigger] tabs[u]).name
}

pub open spec fn ring_ok_at(pg: Seq<Seq<u8>>, sh: Shape, t: int, i: int) -> bool {
    let d = sh.heaps[t as nat].ring[i];
    &&& 0 < d < pg.len()
    &&& sh.kinds[d as int] matches Kind::Data { table, pos, .. } && table == t && pos == i
}

pub open spec fn chain_ok_at(pg: Seq<Seq<u8>>, sh: Shape, t: int, j: int) -> bool {
    let d = sh.heaps[t as nat].chain[j];
    &&& 0 < d < pg.len()
    &&& sh.kinds[d as int] matches Kind::Data { table, link, .. } && table == t && link == j
}

pub open spec fn root_ok_at(pg: Seq<Seq<u8>>, sh: Shape, t: int, c: int) -> bool {
    let ci = table_of(pg, t).cols[c];
    ci.index != NONE ==> {
        &&& sh.trees.dom().contains((t as nat, c as nat))
        &&& ci.index < pg.len()
        &&& sh.kinds[ci.index as int] matches Kind::Node { table, col, height, lo, hi, .. } && table == t && col == c
            && height == sh.trees[(t as nat, c as nat)].height && lo == 0 && hi == top(key_width(ci.ty) as nat)
        &&& 3 <= sh.trees[(t as nat, c as nat)].cap < fit(key_width(ci.ty), false)
    }
}

/// The rules of a table-meta page.
pub open spec fn table_ok(pg: Seq<Seq<u8>>, sh: Shape, t: int) -> bool {
    let tv = table_of(pg, t);
    let heap = sh.heaps[t as nat];
    let n = heap.ring.len() as int;
    let m = heap.chain.len() as int;
    &&& sh.heaps.dom().contains(t as nat)
    &&& tv.cols.len() < MAX_COL
    &&& forall|c: int, d: int| 0 <= c < d < tv.cols.len() ==> (#[trigger] tv.cols[c]).name != (#[trigger] tv.cols[d]).name
    &&& forall|c: int| 0 <= c < tv.cols.len() ==> (#[trigger] tv.cols[c]).off == col_offset(col_types(tv.cols), c)
    &&& tv.size == row_size(col_types(tv.cols))
    &&& MIN_SLOT_SIZE <= tv.size <= MAX_DATA_BYTE
    &&& tv.cap == slots_per_page(tv.size as int)
    &&& tv.next == (if n == 0 {
        t as u32
    } else {
        heap.ring[0] as u32
    })
    &&& tv.prev == (if n == 0 {
        t as u32
    } else {
        heap.ring[n - 1] as u32
    })
    &&& tv.first_free == (if m == 0 {
        NONE
    } else {
        heap.chain[m - 1] as u32
    })
    &&& forall|i: int| 0 <= i < n ==> #[trigger] ring_ok_at(pg, sh, t, i)
    &&& forall|j: int| 0 <= j < m ==> #[trigger] chain_ok_at(pg, sh, t, j)
    &&& forall|c: int| 0 <= c < tv.cols.len() ==> #[trigger] root_ok_at(pg, sh, t, c)
    &&& forall|c: int| 0 <= c < tv.cols.len() ==> ((#[trigger] tv.cols[c]).flags.unique ==> tv.cols[c].index != NONE)
}

/// The rules of a data page.
pub open spec fn data_ok(pg: Seq<Seq<u8>>, sh: Shape, d: int) -> bool {
    match sh.kinds[d] {
        Kind::Data { table, pos, link } => {
            let heap = sh.heaps[table];
            let n = heap.ring.len() as int;
            let cap = table_of(pg, table as int).cap as int;
            let count = dp_count(pg[d]) as int;
            &&& 0 < table < pg.len()
            &&& sh.kinds[table as int] is Table
            &&& pos < n
            &&& heap.ring[pos as int] == d
            &&& dp_prev(pg[d]) == (if pos == 0 {
                table as u32
            } else {
                heap.ring[pos as int - 1] as u32
            })
            &&& dp_next(pg[d]) == (if pos + 1 == n {
                table as u32
            } else {
                heap.ring[pos as int + 1] as u32
            })
            &&& count == used_slots(pg[d], cap).len()
            &&& -1 <= link < heap.chain.len()
            &&& (link == -1 <==> count == cap)
            &&& link >= 0 ==> heap.chain[link] == d && dp_next_free(pg[d]) == (if link == 0 {
                NONE
            } else {
                heap.chain[link - 1] as u32
            })
        },
        _ => true,
    }
}

// ---------------------------------------------------------------- index

pub open spec fn rank_of(e: EntryV) -> int {
    rank(e.key, e.rid)
}

/// Strictly increasing ranks.
pub open spec fn sorted(es: Seq<EntryV>) -> bool {
    forall|i: int, j: int| 0 <= i < j < es.len() ==> rank_of(#[trigger] es[i]) < rank_of(#[trigger] es[j])
}

pub open spec fn within(es: Seq<EntryV>, lo: int, hi: int) -> bool {
    forall|i: int| 0 <= i < es.len() ==> lo <= rank_of(#[trigger] es[i]) < hi
}

/// Fewest entries a node other than the root may hold.
pub open spec fn min_fill(cap: int) -> int {
    (cap + 1) / 2
}

pub open spec fn over(relax: Relax, p: int) -> int {
    if relax.over == Some(p as nat) {
        1
    } else {
        0
    }
}

pub open spec fn under(relax: Relax, p: int) -> int {
    if relax.under == Some(p as nat) {
        1
    } else {
        0
    }
}

/// Child `i` of the internal node `p` carries the role its separator gives it.
pub open spec fn child_ok(pg: Seq<Seq<u8>>, sh: Shape, p: int, i: int) -> bool {
    let es = node_at(pg[p]).entries;
    let c = es[i].child;
    sh.kinds[p] matches Kind::Node { table, col, height, hi, .. } && 0 < c < pg.len() && sh.kinds[c as int] == (
    Kind::Node {
        table,
        col,
        height: (height - 1) as nat,
        parent: p as nat,
        slot: i as nat,
        lo: rank_of(es[i]),
        hi: if i + 1 < es.len() {
            rank_of(es[i + 1])
        } else {
            hi
        },
    })
}

/// The ring links of the leaf `p` lead to the leaves that hold the ranges next
/// to its own; the ring closes from the last leaf to the first.
pub open spec fn leaf_links_ok(pg: Seq<Seq<u8>>, sh: Shape, p: int, ks: nat) -> bool {
    let nv = node_at(pg[p]);
    sh.kinds[p] matches Kind::Node { table, col, lo, hi, .. } && {
        &&& 0 < nv.next < pg.len()
        &&& sh.kinds[nv.next as int] matches Kind::Node { table: t2, col: c2, height: h2, lo: lo2, .. } && t2 == table
            && c2 == col && h2 == 0 && lo2 == (if hi == top(ks) {
            0
        } else {
            hi
        })
        &&& 0 < nv.prev < pg.len()
        &&& sh.kinds[nv.prev as int] matches Kind::Node { table: t3, col: c3, height: h3, hi: hi3, .. } && t3 == table
            && c3 == col && h3 == 0 && hi3 == (if lo == 0 {
            top(ks)
        } else {
            lo
        })
    }
}

pub open spec fn parent_ok(pg: Seq<Seq<u8>>, sh: Shape, p: int) -> bool {
    sh.kinds[p] matches Kind::Node { table, col, height, parent, slot, .. } && {
        &&& 0 < parent < pg.len()
        &&& sh.kinds[parent as int] matches Kind::Node { table: t2, col: c2, height: h2, .. } && t2 == table && c2
            == col && h2 == height + 1
        &&& slot < node_at(pg[parent as int]).entries.len()
        &&& node_at(pg[parent as int]).entries[slot as int].child == p
    }
}

/// The rules of an index page.
pub open spec fn node_ok(pg: Seq<Seq<u8>>, sh: Shape, p: int, relax: Relax) -> bool {
    match sh.kinds[p] {
        Kind::Node { table, col, height, parent, slot, lo, hi } => {
            let nv = node_at(pg[p]);
            let n = nv.entries.len() as int;
            let ci = table_of(pg, table as int).cols[col as int];
            let tree = sh.trees[(table, col)];
            let ks = key_width(ci.ty) as nat;
            &&& 0 < table < pg.len()
            &&& sh.kinds[table as int] is Table
            &&& col < table_of(pg, table as int).cols.len()
            &&& sh.trees.dom().contains((table, col))
            &&& ci.index != NONE
            &&& nv.leaf == (height == 0)
            &&& nv.key_size == ks
            &&& nv.cap == tree.cap
            &&& n <= tree.cap + over(relax, p)
            &&& sorted(nv.entries)
            &&& within(nv.entries, lo, hi)
            &&& 0 <= lo < hi <= top(ks)
            &&& height <= tree.height
            &&& if p == ci.index {
                &&& height == tree.height
                &&& parent == p
                &&& lo == 0
                &&& hi == top(ks)
                &&& height > 0 ==> n + under(relax, p) >= 2
            } else {
                &&& height < tree.height
                &&& parent_ok(pg, sh, p)
                &&& n + under(relax, p) >= min_fill(tree.cap as int)
            }
            &&& height > 0 ==> {
                &&& n >= 1
                &&& rank_of(nv.entries[0]) == lo
                &&& forall|i: int| 0 <= i < n ==> #[trigger] child_ok(pg, sh, p, i)
            }
            &&& height == 0 ==> leaf_links_ok(pg, sh, p, ks)
        },
        _ => true,
    }
}

/// The ranges of two leaves of one index do not overlap.
pub open spec fn apart(sh: Shape, p: int, q: int) -> bool {
    match (sh.kinds[p], sh.kinds[q]) {
        (
            Kind::Node { table, col, height, lo, hi, .. },
            Kind::Node { table: t2, col: c2, height: h2, lo: lo2, hi: hi2, .. },
        ) => (table == t2 && col == c2 && height == 0 && h2 == 0 && p != q) ==> (hi <= lo2 || hi2 <= lo),
        _ => true,
    }
}

pub open spec fn leaves_apart(sh: Shape) -> bool {
    forall|p: int, q: int| 0 <= p < sh.kinds.len() && 0 <= q < sh.kinds.len() ==> #[trigger] apart(sh, p, q)
}

pub open spec fn is_leaf_of(sh: Shape, p: int, t: nat, c: nat) -> bool {
    sh.kinds[p] matches Kind::Node { table, col, height, .. } && table == t && col == c && height == 0
}

/// Whether entry `i` of leaf `p` of the index on column `c` of table `t` is `e`.
pub open spec fn holds(pg: Seq<Seq<u8>>, sh: Shape, t: nat, c: nat, p: int, i: int, e: (Seq<u8>, u32)) -> bool {
    &&& 0 <= p < pg.len()
    &&& is_leaf_of(sh, p, t, c)
    &&& 0 <= i < node_at(pg[p]).entries.len()
    &&& node_at(pg[p]).entries[i].key == e.0
    &&& node_at(pg[p]).entries[i].rid == e.1
}

/// The entries of the index on column `c` of table `t`: what its leaves hold.
pub open spec fn entries_of(pg: Seq<Seq<u8>>, sh: Shape, t: nat, c: nat) -> Set<(Seq<u8>, u32)> {
    Set::new(|e: (Seq<u8>, u32)| exists|p: int, i: int| #[trigger] holds(pg, sh, t, c, p, i, e))
}

/// No two entries share a key.
pub open spec fn keys_distinct(s: Set<(Seq<u8>, u32)>) -> bool {
    forall|a: (Seq<u8>, u32), b: (Seq<u8>, u32)| #[trigger] s.contains(a) && #[trigger] s.contains(b) && a.0 == b.0 ==> a.1 == b.1
}

pub open spec fn unique_ok_at(pg: Seq<Seq<u8>>, sh: Shape, t: int, c: int) -> bool {
    (sh.kinds[t] is Table && 0 <= c < table_of(pg, t).cols.len() && table_of(pg, t).cols[c].flags.unique)
        ==> keys_distinct(entries_of(pg, sh, t as nat, c as nat))
}

pub open spec fn foreign_ok_at(pg: Seq<Seq<u8>>, t: int, c: int) -> bool {
    let tabs = tables(pg[0]);
    let ci = table_of(pg, tabs[t].meta as int).cols[c];
    ci.foreign_table != NO_TABLE ==> ci.foreign_table < tabs.len() && ci.foreign_col < table_of(
        pg,
        tabs[ci.foreign_table as int].meta as int,
    ).cols.len()
}

/// Every foreign-key reference names a live table and one of its columns.
pub open spec fn foreign_ok(pg: Seq<Seq<u8>>) -> bool {
    forall|t: int, c: int|
        0 <= t < tables(pg[0]).len() && 0 <= c < table_of(pg, tables(pg[0])[t].meta as int).cols.len()
            ==> #[trigger] foreign_ok_at(pg, t, c)
}

/// The rules of page `p`, whatever its role.
pub open spec fn page_ok(pg: Seq<Seq<u8>>, sh: Shape, p: int, relax: Relax) -> bool {
    &&& sh.kinds[p] is Table ==> table_ok(pg, sh, p)
    &&& sh.kinds[p] is Data ==> data_ok(pg, sh, p)
    &&& sh.kinds[p] is Node ==> node_ok(pg, sh, p, relax)
}

/// The rules of everything the pager hands out pages for.
#[verifier::opaque]
pub open spec fn structure_inv(pg: Seq<Seq<u8>>, sh: Shape, relax: Relax) -> bool {
    &&& directory_ok(pg, sh)
    &&& forall|p: int| 0 <= p < pg.len() ==> #[trigger] page_ok(pg, sh, p, relax)
    &&& leaves_apart(sh)
    &&& foreign_ok(pg)
    &&& forall|t: int, c: int| 0 <= t < pg.len() ==> #[trigger] unique_ok_at(pg, sh, t, c)
}

/// All rules, with the one exception `relax` names.
pub open spec fn image_inv(pg: Seq<Seq<u8>>, sh: Shape, relax: Relax) -> bool {
    pager_inv(pg, sh) && structure_inv(pg, sh, relax)
}

} // verus!
