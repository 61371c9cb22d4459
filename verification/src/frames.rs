//! What a change to one structure leaves true of the others.
//!
//! The rules of a page speak of the page itself and of its direct neighbours.
//! The lemmas here say, role by role, which parts of an image a rule reads, so
//! that an operation on one table or one index proves the rules of the pages it
//! touched and gets the rest from here.

use vstd::prelude::*;
use crate::shape::tight;
use crate::db::lemma_entries_frame;
use crate::layout::NO_TABLE;
use crate::meta::tables;
use crate::node::node_at;
use crate::table::{ColFlags, ColInfoV, TablePageV};
use crate::shape::{col_types, entries_of, is_leaf_of, is_structural, Kind, Relax, Shape, apart, chain_ok_at, child_ok, data_ok, dir_ok_at, directory_ok, foreign_ok, foreign_ok_at, leaves_apart, node_ok, page_ok, ring_ok_at, root_ok_at, structure_inv, table_of, table_ok, unique_ok_at};

verus! {

/// The two images have the same index pages, with the same roles.
pub open spec fn nodes_same(pg: Seq<Seq<u8>>, sh: Shape, pg2: Seq<Seq<u8>>, sh2: Shape) -> bool {
    &&& forall|q: int| 0 <= q < pg.len() && (#[trigger] sh.kinds[q]) is Node ==> q < pg2.len() && pg2[q] == pg[q] && sh2.kinds[q] == sh.kinds[q]
    &&& forall|q: int| 0 <= q < pg2.len() && (#[trigger] sh2.kinds[q]) is Node ==> q < pg.len() && sh.kinds[q] == sh2.kinds[q]
    &&& sh2.trees == sh.trees
}

/// The two images have the same table directory and the same table-meta pages
/// as far as the column catalogs go.
pub open spec fn catalog_same(pg: Seq<Seq<u8>>, sh: Shape, pg2: Seq<Seq<u8>>, sh2: Shape) -> bool {
    &&& tables(pg2[0]) == tables(pg[0])
    &&& forall|t: int| 0 <= t < pg.len() && (#[trigger] sh.kinds[t]) is Table ==> t < pg2.len() && sh2.kinds[t] == sh.kinds[t] && table_of(pg2, t).cols == table_of(pg, t).cols
    &&& forall|t: int| 0 <= t < pg2.len() && (#[trigger] sh2.kinds[t]) is Table ==> t < pg.len() && sh.kinds[t] == sh2.kinds[t]
}

/// The two images have the same data pages for table `t`, and the same ring and
/// chain through them.
pub open spec fn heap_same(pg: Seq<Seq<u8>>, sh: Shape, pg2: Seq<Seq<u8>>, sh2: Shape, t: int) -> bool {
    &&& sh2.heaps.dom().contains(t as nat) == sh.heaps.dom().contains(t as nat)
    &&& sh2.heaps[t as nat] == sh.heaps[t as nat]
    &&& table_of(pg2, t) == table_of(pg, t)
    &&& forall|d: int| 0 <= d < pg.len() && ((#[trigger] sh.kinds[d]) matches Kind::Data { table, .. } && table == t) ==> d < pg2.len() && pg2[d] == pg[d] && sh2.kinds[d] == sh.kinds[d]
}

pub open spec fn sized(pg: Seq<Seq<u8>>, sh: Shape) -> bool {
    1 <= pg.len() && sh.kinds.len() == pg.len()
}

/// The directory rules read the directory and the roles of table-meta pages.
#[verifier::spinoff_prover]
pub proof fn lemma_directory_frame(pg: Seq<Seq<u8>>, sh: Shape, pg2: Seq<Seq<u8>>, sh2: Shape)
    requires
        directory_ok(pg, sh),
        sized(pg, sh),
        sized(pg2, sh2),
        catalog_same(pg, sh, pg2, sh2),
    ensures
        directory_ok(pg2, sh2),
{
    let tabs = tables(pg[0]);
    assert forall|t: int| 0 <= t < tabs.len() implies #[trigger] dir_ok_at(pg2, sh2, t) by {
        assert(dir_ok_at(pg, sh, t));
    }
}

/// The rules of foreign keys read the directory and the column catalogs.
#[verifier::spinoff_prover]
pub proof fn lemma_foreign_frame(pg: Seq<Seq<u8>>, sh: Shape, pg2: Seq<Seq<u8>>, sh2: Shape)
    requires
        directory_ok(pg, sh),
        foreign_ok(pg),
        sized(pg, sh),
        sized(pg2, sh2),
        catalog_same(pg, sh, pg2, sh2),
    ensures
        foreign_ok(pg2),
{
    let tabs = tables(pg[0]);
    assert forall|t: int, c: int| 0 <= t < tabs.len() && 0 <= c < table_of(pg2, tabs[t].meta as int).cols.len() implies #[trigger] foreign_ok_at(pg2, t, c) by {
        assert(dir_ok_at(pg, sh, t));
        assert(foreign_ok_at(pg, t, c));
        let ft = table_of(pg, tabs[t].meta as int).cols[c].foreign_table;
        if ft != NO_TABLE {
            assert(dir_ok_at(pg, sh, ft as int));
        }
    }
}

/// The rules of an index page read index pages and the column catalogs.
#[verifier::spinoff_prover]
pub proof fn lemma_node_frame(pg: Seq<Seq<u8>>, sh: Shape, pg2: Seq<Seq<u8>>, sh2: Shape, relax: Relax, p: int)
    requires
        0 <= p < pg.len(),
        sh.kinds[p] is Node,
        node_ok(pg, sh, p, relax),
        sized(pg, sh),
        sized(pg2, sh2),
        nodes_same(pg, sh, pg2, sh2),
        catalog_same(pg, sh, pg2, sh2),
    ensures
        node_ok(pg2, sh2, p, relax),
{
    match sh.kinds[p] {
        Kind::Node { table, col, height, parent, slot, lo, hi } => {
            let n = node_at(pg[p]).entries.len();
            if height > 0 {
                assert forall|i: int| 0 <= i < n implies #[trigger] child_ok(pg2, sh2, p, i) by {
                    assert(child_ok(pg, sh, p, i));
                }
            }
        },
        _ => {},
    }
}

/// The entries of every index carry over when no index page changed.
#[verifier::spinoff_prover]
pub proof fn lemma_entries_same(pg: Seq<Seq<u8>>, sh: Shape, pg2: Seq<Seq<u8>>, sh2: Shape, t: nat, c: nat)
    requires
        sized(pg, sh),
        sized(pg2, sh2),
        nodes_same(pg, sh, pg2, sh2),
    ensures
        entries_of(pg2, sh2, t, c) == entries_of(pg, sh, t, c),
{
    assert forall|p: int| 0 <= p < pg.len() && #[trigger] is_leaf_of(sh, p, t, c) implies p < pg2.len() && pg2[p] == pg[p] && is_leaf_of(sh2, p, t, c) by {
        assert(sh.kinds[p] is Node);
    }
    assert forall|p: int| 0 <= p < pg2.len() && #[trigger] is_leaf_of(sh2, p, t, c) implies p < pg.len() && is_leaf_of(sh, p, t, c) by {
        assert(sh2.kinds[p] is Node);
    }
    lemma_entries_frame(pg, sh, pg2, sh2, t, c);
}

#[verifier::spinoff_prover]
proof fn lemma_unique_frame(pg: Seq<Seq<u8>>, sh: Shape, pg2: Seq<Seq<u8>>, sh2: Shape, relax: Relax, t: int, c: int)
    requires
        structure_inv(pg, sh, relax),
        sized(pg, sh),
        sized(pg2, sh2),
        nodes_same(pg, sh, pg2, sh2),
        catalog_same(pg, sh, pg2, sh2),
        0 <= t < pg2.len(),
        forall|t: int, c: int| 0 <= t < pg.len() && sh.kinds[t] is Table && 0 <= c < table_of(pg, t).cols.len() ==> #[trigger] table_of(pg2, t).cols[c].flags == table_of(pg, t).cols[c].flags,
    ensures
        unique_ok_at(pg2, sh2, t, c),
{
    reveal(structure_inv);
    if sh2.kinds[t] is Table && 0 <= c < table_of(pg2, t).cols.len() {
        assert(sh.kinds[t] is Table);
        assert(table_of(pg2, t).cols.len() == table_of(pg, t).cols.len());
        assert(unique_ok_at(pg, sh, t, c));
        assert(table_of(pg2, t).cols[c].flags == table_of(pg, t).cols[c].flags);
        lemma_entries_same(pg, sh, pg2, sh2, t as nat, c as nat);
    }
}

/// The rules that concern indexes alone carry over when no index page changed.
#[verifier::spinoff_prover]
pub proof fn lemma_index_frame(pg: Seq<Seq<u8>>, sh: Shape, pg2: Seq<Seq<u8>>, sh2: Shape, relax: Relax)
    requires
        structure_inv(pg, sh, relax),
        sized(pg, sh),
        sized(pg2, sh2),
        nodes_same(pg, sh, pg2, sh2),
        catalog_same(pg, sh, pg2, sh2),
        forall|t: int, c: int| 0 <= t < pg.len() && sh.kinds[t] is Table && 0 <= c < table_of(pg, t).cols.len() ==> #[trigger] table_of(pg2, t).cols[c].flags == table_of(pg, t).cols[c].flags,
    ensures
        leaves_apart(sh2),
        forall|p: int| 0 <= p < pg2.len() && (#[trigger] sh2.kinds[p]) is Node ==> node_ok(pg2, sh2, p, relax),
        forall|t: int, c: int| 0 <= t < pg2.len() ==> #[trigger] unique_ok_at(pg2, sh2, t, c),
{
    assert forall|t: int, c: int| 0 <= t < pg2.len() implies #[trigger] unique_ok_at(pg2, sh2, t, c) by {
        lemma_unique_frame(pg, sh, pg2, sh2, relax, t, c);
    }
    reveal(structure_inv);
    assert forall|p: int, q: int| 0 <= p < sh2.kinds.len() && 0 <= q < sh2.kinds.len() implies #[trigger] apart(sh2, p, q) by {
        if sh2.kinds[p] is Node && sh2.kinds[q] is Node {
            assert(apart(sh, p, q));
        }
    }
    assert forall|p: int| 0 <= p < pg2.len() && (#[trigger] sh2.kinds[p]) is Node implies node_ok(pg2, sh2, p, relax) by {
        assert(page_ok(pg, sh, p, relax));
        lemma_node_frame(pg, sh, pg2, sh2, relax, p);
    }
}

/// The rules of a table-meta page and of its data pages read that table's
/// pages, its ring and chain, and the roles of its index roots.
#[verifier::spinoff_prover]
pub proof fn lemma_heap_frame(pg: Seq<Seq<u8>>, sh: Shape, pg2: Seq<Seq<u8>>, sh2: Shape, relax: Relax, t: int)
    requires
        structure_inv(pg, sh, relax),
        sized(pg, sh),
        sized(pg2, sh2),
        0 <= t < pg.len(),
        sh.kinds[t] is Table,
        nodes_same(pg, sh, pg2, sh2),
        catalog_same(pg, sh, pg2, sh2),
        heap_same(pg, sh, pg2, sh2, t),
    ensures
        table_ok(pg2, sh2, t),
        forall|d: int| 0 <= d < pg.len() && ((#[trigger] sh.kinds[d]) matches Kind::Data { table, .. } && table == t) ==> data_ok(pg2, sh2, d),
{
    reveal(structure_inv);
    assert(page_ok(pg, sh, t, relax));
    let heap = sh.heaps[t as nat];
    let tv = table_of(pg, t);
    assert forall|i: int| 0 <= i < heap.ring.len() implies #[trigger] ring_ok_at(pg2, sh2, t, i) by {
        assert(ring_ok_at(pg, sh, t, i));
    }
    assert forall|j: int| 0 <= j < heap.chain.len() implies #[trigger] chain_ok_at(pg2, sh2, t, j) by {
        assert(chain_ok_at(pg, sh, t, j));
    }
    assert forall|c: int| 0 <= c < tv.cols.len() implies #[trigger] root_ok_at(pg2, sh2, t, c) by {
        assert(root_ok_at(pg, sh, t, c));
    }
    assert forall|d: int| 0 <= d < pg.len() && ((#[trigger] sh.kinds[d]) matches Kind::Data { table, .. } && table == t) implies data_ok(pg2, sh2, d) by {
        assert(page_ok(pg, sh, d, relax));
    }
}

/// Only pages of the heap of table `t`, pages of no structure and the head of
/// the free list differ between the two images.
pub open spec fn heap_touch(pg: Seq<Seq<u8>>, sh: Shape, pg2: Seq<Seq<u8>>, sh2: Shape, t: int) -> bool {
    &&& sized(pg, sh)
    &&& sized(pg2, sh2)
    &&& 0 < t < pg.len()
    &&& t < pg2.len()
    &&& sh.kinds[t] is Table
    &&& sh2.kinds[t] == sh.kinds[t]
    &&& table_of(pg2, t).cols == table_of(pg, t).cols
    &&& tables(pg2[0]) == tables(pg[0])
    &&& sh2.trees == sh.trees
    &&& sh2.heaps.dom() == sh.heaps.dom()
    &&& forall|u: nat| u != t ==> #[trigger] sh2.heaps[u] == sh.heaps[u]
    &&& forall|p: int| 0 <= p < pg.len() && p != t && outside_heap(#[trigger] sh.kinds[p], t) ==> p < pg2.len() && pg2[p] == pg[p] && sh2.kinds[p] == sh.kinds[p]
    &&& forall|p: int| 0 <= p < pg2.len() && p != t && outside_heap(#[trigger] sh2.kinds[p], t) ==> p < pg.len() && sh.kinds[p] == sh2.kinds[p]
}

/// The role of a page of some structure other than the data pages of table `t`.
pub open spec fn outside_heap(k: Kind, t: int) -> bool {
    match k {
        Kind::Node { .. } => true,
        Kind::Table { .. } => true,
        Kind::Data { table, .. } => table != t,
        _ => false,
    }
}

/// An operation that touched only the heap of table `t` and re-established the
/// rules of that table's pages re-established all rules of all structures.
#[verifier::spinoff_prover]
pub proof fn lemma_heap_touch(pg: Seq<Seq<u8>>, sh: Shape, pg2: Seq<Seq<u8>>, sh2: Shape, t: int)
    requires
        structure_inv(pg, sh, tight()),
        heap_touch(pg, sh, pg2, sh2, t),
        table_ok(pg2, sh2, t),
        forall|d: int| 0 <= d < pg2.len() && ((#[trigger] sh2.kinds[d]) matches Kind::Data { table, .. } && table == t) ==> data_ok(pg2, sh2, d),
    ensures
        structure_inv(pg2, sh2, tight()),
        nodes_same(pg, sh, pg2, sh2),
        catalog_same(pg, sh, pg2, sh2),
        forall|u: int| 0 <= u < pg.len() && u != t && (#[trigger] sh.kinds[u]) is Table ==> heap_same(pg, sh, pg2, sh2, u),
{
    reveal(structure_inv);
    assert(nodes_same(pg, sh, pg2, sh2));
    assert(catalog_same(pg, sh, pg2, sh2));
    assert forall|u: int| 0 <= u < pg.len() && u != t && (#[trigger] sh.kinds[u]) is Table implies heap_same(pg, sh, pg2, sh2, u) by {
        assert(sh2.heaps[u as nat] == sh.heaps[u as nat]);
    }
    lemma_heap_change(pg, sh, pg2, sh2, t);
}

/// An operation on the data pages of table `t` that re-establishes the rules of
/// that table's pages re-establishes all rules.
#[verifier::spinoff_prover]
pub proof fn lemma_heap_change(pg: Seq<Seq<u8>>, sh: Shape, pg2: Seq<Seq<u8>>, sh2: Shape, t: int)
    requires
        structure_inv(pg, sh, tight()),
        sized(pg, sh),
        sized(pg2, sh2),
        nodes_same(pg, sh, pg2, sh2),
        catalog_same(pg, sh, pg2, sh2),
        forall|c: int| 0 <= c < table_of(pg, t).cols.len() ==> #[trigger] table_of(pg2, t).cols[c].flags == table_of(pg, t).cols[c].flags,
        0 <= t < pg.len(),
        sh.kinds[t] is Table,
        forall|u: int| 0 <= u < pg.len() && u != t && (#[trigger] sh.kinds[u]) is Table ==> heap_same(pg, sh, pg2, sh2, u),
        forall|d: int| 0 <= d < pg2.len() && ((#[trigger] sh2.kinds[d]) matches Kind::Data { table, .. } && table != t) ==> d < pg.len() && sh.kinds[d] == sh2.kinds[d],
        table_ok(pg2, sh2, t),
        forall|d: int| 0 <= d < pg2.len() && ((#[trigger] sh2.kinds[d]) matches Kind::Data { table, .. } && table == t) ==> data_ok(pg2, sh2, d),
    ensures
        structure_inv(pg2, sh2, tight()),
{
    reveal(structure_inv);
    lemma_directory_frame(pg, sh, pg2, sh2);
    lemma_foreign_frame(pg, sh, pg2, sh2);
    assert forall|u: int, c: int| 0 <= u < pg.len() && sh.kinds[u] is Table && 0 <= c < table_of(pg, u).cols.len() implies #[trigger] table_of(pg2, u).cols[c].flags == table_of(pg, u).cols[c].flags by {}
    lemma_index_frame(pg, sh, pg2, sh2, tight());
    assert forall|p: int| 0 <= p < pg2.len() implies #[trigger] page_ok(pg2, sh2, p, tight()) by {
        match sh2.kinds[p] {
            Kind::Table { .. } => {
                if p != t {
                    lemma_heap_frame(pg, sh, pg2, sh2, tight(), p);
                }
            },
            Kind::Data { table, .. } => {
                if table != t {
                    assert(page_ok(pg, sh, p, tight()));
                    lemma_heap_frame(pg, sh, pg2, sh2, tight(), table as int);
                }
            },
            _ => {},
        }
    }
}

// ---------------------------------------------------------------- one index

/// The role of a node of the index on column `c` of table `t`.
pub open spec fn in_tree(k: Kind, t: int, c: int) -> bool {
    k matches Kind::Node { table, col, .. } && table == t && col == c
}

/// The exception that `relax` names, if any, is a node of the index on column
/// `c` of table `t`.
pub open spec fn relax_in(relax: Relax, sh: Shape, t: int, c: int) -> bool {
    &&& relax.over matches Some(p) ==> p < sh.kinds.len() && in_tree(sh.kinds[p as int], t, c)
    &&& relax.under matches Some(p) ==> p < sh.kinds.len() && in_tree(sh.kinds[p as int], t, c)
}

/// The second catalog entry differs from the first at most in the index root
/// and in the unique flag.
pub open spec fn col_alike(a: ColInfoV, b: ColInfoV) -> bool {
    b == (ColInfoV { index: b.index, flags: ColFlags { unique: b.flags.unique, ..a.flags }, ..a })
}

/// The second table-meta page differs from the first at most in the index root
/// and the unique flag of column `c`.
pub open spec fn table_alike(a: TablePageV, b: TablePageV, c: int) -> bool {
    &&& b == (TablePageV { cols: b.cols, ..a })
    &&& b.cols.len() == a.cols.len()
    &&& forall|d: int| 0 <= d < a.cols.len() && d != c ==> #[trigger] b.cols[d] == a.cols[d]
    &&& 0 <= c < a.cols.len() ==> col_alike(a.cols[c], b.cols[c])
}

/// Only the nodes of the index on column `c` of table `t`, that column's
/// catalog entry, pages of no structure and the head of the free list differ
/// between the two images.
pub open spec fn index_touch(pg: Seq<Seq<u8>>, sh: Shape, pg2: Seq<Seq<u8>>, sh2: Shape, t: int, c: int) -> bool {
    &&& sized(pg, sh)
    &&& sized(pg2, sh2)
    &&& 0 < t < pg.len()
    &&& t < pg2.len()
    &&& sh.kinds[t] is Table
    &&& sh2.kinds[t] == sh.kinds[t]
    &&& tables(pg2[0]) == tables(pg[0])
    &&& sh2.heaps == sh.heaps
    &&& forall|key: (nat, nat)|
        #![trigger sh2.trees[key]]
        #![trigger sh2.trees.dom().contains(key)]
        #![trigger sh.trees.dom().contains(key)]
        key != (t as nat, c as nat) ==> sh2.trees.dom().contains(key) == sh.trees.dom().contains(key) && sh2.trees[key] == sh.trees[key]
    &&& table_alike(table_of(pg, t), table_of(pg2, t), c)
    &&& forall|p: int| 0 <= p < pg.len() && p != t && is_structural(#[trigger] sh.kinds[p]) && !in_tree(sh.kinds[p], t, c) ==> p < pg2.len() && pg2[p] == pg[p] && sh2.kinds[p] == sh.kinds[p]
    &&& forall|p: int| 0 <= p < pg2.len() && p != t && is_structural(#[trigger] sh2.kinds[p]) && !in_tree(sh2.kinds[p], t, c) ==> p < pg.len() && sh.kinds[p] == sh2.kinds[p]
}

/// What the rules ask of the index on column `c` of table `t` alone.
pub open spec fn tree_ok(pg: Seq<Seq<u8>>, sh: Shape, t: int, c: int, relax: Relax) -> bool {
    &&& root_ok_at(pg, sh, t, c)
    &&& table_of(pg, t).cols[c].flags.unique ==> table_of(pg, t).cols[c].index != crate::layout::NONE
    &&& forall|p: int| 0 <= p < pg.len() && in_tree(#[trigger] sh.kinds[p], t, c) ==> node_ok(pg, sh, p, relax)
    &&& forall|p: int, q: int| 0 <= p < pg.len() && 0 <= q < pg.len() && in_tree(sh.kinds[p], t, c) && in_tree(sh.kinds[q], t, c) ==> #[trigger] apart(sh, p, q)
    &&& unique_ok_at(pg, sh, t, c)
}

#[verifier::spinoff_prover]
proof fn lemma_touch_table(pg: Seq<Seq<u8>>, sh: Shape, pg2: Seq<Seq<u8>>, sh2: Shape, t: int, c: int, relax: Relax, u: int)
    requires
        structure_inv(pg, sh, relax),
        index_touch(pg, sh, pg2, sh2, t, c),
        0 <= c < table_of(pg, t).cols.len(),
        root_ok_at(pg2, sh2, t, c),
        table_of(pg2, t).cols[c].flags.unique ==> table_of(pg2, t).cols[c].index != crate::layout::NONE,
        0 <= u < pg2.len(),
        sh2.kinds[u] is Table,
    ensures
        table_ok(pg2, sh2, u),
{
    reveal(structure_inv);
    assert(page_ok(pg, sh, u, relax));
    let heap = sh.heaps[u as nat];
    let tv = table_of(pg, u);
    let tv2 = table_of(pg2, u);
    assert(col_types(tv2.cols) =~= col_types(tv.cols));
    assert forall|i: int| 0 <= i < heap.ring.len() implies #[trigger] ring_ok_at(pg2, sh2, u, i) by {
        assert(ring_ok_at(pg, sh, u, i));
    }
    assert forall|j: int| 0 <= j < heap.chain.len() implies #[trigger] chain_ok_at(pg2, sh2, u, j) by {
        assert(chain_ok_at(pg, sh, u, j));
    }
    assert forall|d: int| 0 <= d < tv2.cols.len() implies #[trigger] root_ok_at(pg2, sh2, u, d) by {
        if u != t || d != c {
            assert(root_ok_at(pg, sh, u, d));
            assert(sh2.trees[(u as nat, d as nat)] == sh.trees[(u as nat, d as nat)]);
        }
    }
}

#[verifier::spinoff_prover]
proof fn lemma_touch_node(pg: Seq<Seq<u8>>, sh: Shape, pg2: Seq<Seq<u8>>, sh2: Shape, t: int, c: int, relax: Relax, relax2: Relax, p: int)
    requires
        structure_inv(pg, sh, relax),
        index_touch(pg, sh, pg2, sh2, t, c),
        0 <= c < table_of(pg, t).cols.len(),
        relax_in(relax, sh, t, c),
        relax_in(relax2, sh2, t, c),
        0 <= p < pg2.len(),
        sh2.kinds[p] is Node,
        !in_tree(sh2.kinds[p], t, c),
    ensures
        node_ok(pg2, sh2, p, relax2),
{
    reveal(structure_inv);
    assert(page_ok(pg, sh, p, relax));
    match sh.kinds[p] {
        Kind::Node { table, col, height, parent, slot, lo, hi } => {
            assert(sh2.trees[(table, col)] == sh.trees[(table, col)]);
            assert(page_ok(pg, sh, table as int, relax));
            assert(root_ok_at(pg, sh, table as int, col as int));
            let n = node_at(pg[p]).entries.len();
            if height > 0 {
                assert forall|i: int| 0 <= i < n implies #[trigger] child_ok(pg2, sh2, p, i) by {
                    assert(child_ok(pg, sh, p, i));
                }
            }
        },
        _ => {},
    }
}

#[verifier::spinoff_prover]
proof fn lemma_touch_globals(pg: Seq<Seq<u8>>, sh: Shape, pg2: Seq<Seq<u8>>, sh2: Shape, t: int, c: int, relax: Relax, relax2: Relax)
    requires
        structure_inv(pg, sh, relax),
        index_touch(pg, sh, pg2, sh2, t, c),
        0 <= c < table_of(pg, t).cols.len(),
        tree_ok(pg2, sh2, t, c, relax2),
    ensures
        directory_ok(pg2, sh2),
        foreign_ok(pg2),
        leaves_apart(sh2),
        forall|u: int, d: int| 0 <= u < pg2.len() ==> #[trigger] unique_ok_at(pg2, sh2, u, d),
{
    reveal(structure_inv);
    let tabs = tables(pg[0]);
    assert forall|u: int| 0 <= u < tabs.len() implies #[trigger] dir_ok_at(pg2, sh2, u) by {
        assert(dir_ok_at(pg, sh, u));
    }
    assert forall|u: int, d: int| 0 <= u < tabs.len() && 0 <= d < table_of(pg2, tabs[u].meta as int).cols.len() implies #[trigger] foreign_ok_at(pg2, u, d) by {
        assert(dir_ok_at(pg, sh, u));
        assert(foreign_ok_at(pg, u, d));
        let ft = table_of(pg, tabs[u].meta as int).cols[d].foreign_table;
        if ft != NO_TABLE {
            assert(dir_ok_at(pg, sh, ft as int));
        }
    }
    assert forall|p: int, q: int| 0 <= p < sh2.kinds.len() && 0 <= q < sh2.kinds.len() implies #[trigger] apart(sh2, p, q) by {
        if sh2.kinds[p] is Node && sh2.kinds[q] is Node {
            if in_tree(sh2.kinds[p], t, c) && in_tree(sh2.kinds[q], t, c) {
            } else if !in_tree(sh2.kinds[p], t, c) && !in_tree(sh2.kinds[q], t, c) {
                assert(apart(sh, p, q));
            }
        }
    }
    assert forall|u: int, d: int| 0 <= u < pg2.len() implies #[trigger] unique_ok_at(pg2, sh2, u, d) by {
        if sh2.kinds[u] is Table && (u != t || d != c) && 0 <= d {
            assert(unique_ok_at(pg, sh, u, d));
            lemma_entries_frame(pg, sh, pg2, sh2, u as nat, d as nat);
        }
    }
}

/// An operation that touched only the index on column `c` of table `t` and
/// re-established the rules of that index re-established all rules of all
/// structures.
#[verifier::spinoff_prover]
pub proof fn lemma_index_touch(pg: Seq<Seq<u8>>, sh: Shape, pg2: Seq<Seq<u8>>, sh2: Shape, t: int, c: int, relax: Relax, relax2: Relax)
    requires
        structure_inv(pg, sh, relax),
        index_touch(pg, sh, pg2, sh2, t, c),
        0 <= c < table_of(pg, t).cols.len(),
        relax_in(relax, sh, t, c),
        relax_in(relax2, sh2, t, c),
        tree_ok(pg2, sh2, t, c, relax2),
    ensures
        structure_inv(pg2, sh2, relax2),
{
    lemma_touch_globals(pg, sh, pg2, sh2, t, c, relax, relax2);
    assert forall|p: int| 0 <= p < pg2.len() implies #[trigger] page_ok(pg2, sh2, p, relax2) by {
        match sh2.kinds[p] {
            Kind::Table { .. } => {
                lemma_touch_table(pg, sh, pg2, sh2, t, c, relax, p);
            },
            Kind::Data { table, .. } => {
                reveal(structure_inv);
                assert(page_ok(pg, sh, p, relax));
            },
            Kind::Node { .. } => {
                if !in_tree(sh2.kinds[p], t, c) {
                    lemma_touch_node(pg, sh, pg2, sh2, t, c, relax, relax2, p);
                }
            },
            _ => {},
        }
    }
    reveal(structure_inv);
}

} // verus!
