//! Taking away a root that has a single child.

use vstd::prelude::*;
use crate::shape::tight;
use crate::db::Db;
use crate::frames::{in_tree, index_touch, lemma_index_touch, relax_in};
use crate::key::top;
use crate::layout::{MAX_COL, MAX_PAGE, NONE, PAGE_SIZE};
use crate::node::{fit, load_node, node_at};
use crate::release::{node_height, node_hi, node_lo};
use crate::shape::{Kind, Relax, Shape, Tree, apart, child_ok, entries_of, free_ok_at, holds, image_inv, is_leaf_of, is_structural, leaf_links_ok, min_fill, node_ok, page_ok, pager_inv, parent_ok, rank_of, root_ok_at, structure_inv, table_of, unique_ok_at};
use crate::table::{ColInfoV, TablePageV, col_num, lemma_col_frame, read_col, write_col};
use crate::tree::{lemma_descend, node_parent, node_slot, rehung, root_of, width_of};

verus! {

/// What the removal of a root works on: the root and its only child.
pub struct Shrink {
    pub t: int,
    pub c: int,
    pub root: int,
    pub child: int,
}

/// How the pages change when the child is recorded as the root.
#[verifier::opaque]
pub open spec fn shrink_written(pg: Seq<Seq<u8>>, pg2: Seq<Seq<u8>>, k: Shrink) -> bool {
    let tv = table_of(pg, k.t);
    &&& pg2.len() == pg.len()
    &&& forall|q: int| 0 <= q < pg2.len() && q != k.t ==> #[trigger] pg2[q] == pg[q]
    &&& pg2[k.t].len() == PAGE_SIZE
    &&& table_of(pg2, k.t) == (TablePageV { cols: tv.cols.update(k.c, ColInfoV { index: k.child as u32, ..tv.cols[k.c] }), ..tv })
}

/// The shape after the removal: the child is the root of a tree one level
/// lower, and the old root belongs to no structure.
pub open spec fn shrink_shape(sh: Shape, k: Shrink) -> Shape {
    let tree = sh.trees[(k.t as nat, k.c as nat)];
    Shape {
        kinds: sh.kinds.update(k.root, Kind::Loose).update(k.child, rehung(sh.kinds[k.child], k.child, 0)),
        trees: sh.trees.insert((k.t as nat, k.c as nat), Tree { height: (tree.height - 1) as nat, cap: tree.cap }),
        ..sh
    }
}

/// The exception before the removal: the root has a single child.
pub open spec fn shrink_relax(k: Shrink) -> Relax {
    Relax { over: None, under: Some(k.root as nat) }
}

/// What the lemmas about the removal of a root ask.
#[verifier::opaque]
pub open spec fn shrink_edit(pg: Seq<Seq<u8>>, sh: Shape, pg2: Seq<Seq<u8>>, sh2: Shape, k: Shrink) -> bool {
    &&& image_inv(pg, sh, shrink_relax(k))
    &&& 0 < k.t < pg.len()
    &&& sh.kinds[k.t] is Table
    &&& 0 <= k.c < table_of(pg, k.t).cols.len()
    &&& table_of(pg, k.t).cols[k.c].index != NONE
    &&& k.root == root_of(pg, k.t, k.c)
    &&& node_height(sh.kinds[k.root]) > 0
    &&& node_at(pg[k.root]).entries.len() == 1
    &&& k.child == node_at(pg[k.root]).entries[0].child
    &&& shrink_written(pg, pg2, k)
    &&& sh2 == shrink_shape(sh, k)
}

/// The facts about the removal of a root that the lemmas share.
pub open spec fn shrink_facts(pg: Seq<Seq<u8>>, sh: Shape, pg2: Seq<Seq<u8>>, sh2: Shape, k: Shrink) -> bool {
    let tree = sh.trees[(k.t as nat, k.c as nat)];
    let ks = width_of(pg, k.t, k.c);
    &&& 0 < k.t < pg.len()
    &&& 0 < k.root < pg.len()
    &&& 0 < k.child < pg.len()
    &&& pg.len() <= MAX_PAGE
    &&& pg2.len() == pg.len()
    &&& sh.kinds.len() == pg.len()
    &&& sh2.kinds.len() == pg.len()
    &&& k.root != k.t
    &&& k.child != k.t
    &&& k.child != k.root
    &&& sh.kinds[k.t] is Table
    &&& sh2.kinds[k.t] == sh.kinds[k.t]
    &&& sh.kinds[0] is Meta
    &&& 0 <= k.c < table_of(pg, k.t).cols.len()
    &&& table_of(pg2, k.t) == (TablePageV { cols: table_of(pg, k.t).cols.update(k.c, ColInfoV { index: k.child as u32, ..table_of(pg, k.t).cols[k.c] }), ..table_of(pg, k.t) })
    &&& pager_inv(pg, sh)
    &&& sh2.free == sh.free
    &&& sh2.heaps == sh.heaps
    &&& sh.trees.dom().contains((k.t as nat, k.c as nat))
    &&& sh2.trees == sh.trees.insert((k.t as nat, k.c as nat), Tree { height: (tree.height - 1) as nat, cap: tree.cap })
    &&& tree.height >= 1
    &&& 3 <= tree.cap < fit(ks as int, false)
    &&& in_tree(sh.kinds[k.root], k.t, k.c)
    &&& in_tree(sh.kinds[k.child], k.t, k.c)
    &&& node_ok(pg, sh, k.root, shrink_relax(k))
    &&& node_ok(pg, sh, k.child, shrink_relax(k))
    &&& sh.kinds[k.child] == (Kind::Node {
        table: k.t as nat,
        col: k.c as nat,
        height: (tree.height - 1) as nat,
        parent: k.root as nat,
        slot: 0,
        lo: 0,
        hi: top(ks),
    })
    &&& node_height(sh.kinds[k.root]) == tree.height
    &&& sh2.kinds[k.root] is Loose
    &&& sh2.kinds[k.child] == rehung(sh.kinds[k.child], k.child, 0)
    &&& forall|x: int| 0 <= x < pg.len() && x != k.root && x != k.child ==> #[trigger] sh2.kinds[x] == sh.kinds[x]
    &&& forall|q: int| 0 <= q < pg.len() && q != k.t ==> #[trigger] pg2[q] == pg[q]
    &&& pg2[k.t].len() == PAGE_SIZE
    &&& node_at(pg[k.root]).entries.len() == 1
}

#[verifier::spinoff_prover]
pub proof fn lemma_shrink_facts(pg: Seq<Seq<u8>>, sh: Shape, pg2: Seq<Seq<u8>>, sh2: Shape, k: Shrink)
    requires
        shrink_edit(pg, sh, pg2, sh2, k),
    ensures
        shrink_facts(pg, sh, pg2, sh2, k),
{
    reveal(shrink_edit);
    reveal(shrink_written);
    let relax = shrink_relax(k);
    assert(root_ok_at(pg, sh, k.t, k.c) && sh.kinds[0] is Meta) by {
        reveal(structure_inv);
        assert(page_ok(pg, sh, k.t, relax));
    }
    lemma_descend(pg, sh, k.t, k.c, k.root, relax);
    assert(child_ok(pg, sh, k.root, 0));
    lemma_descend(pg, sh, k.t, k.c, k.child, relax);
}

#[verifier::spinoff_prover]
proof fn lemma_shrink_pager(pg: Seq<Seq<u8>>, sh: Shape, pg2: Seq<Seq<u8>>, sh2: Shape, k: Shrink)
    requires
        shrink_edit(pg, sh, pg2, sh2, k),
    ensures
        pager_inv(pg2, sh2),
        index_touch(pg, sh, pg2, sh2, k.t, k.c),
{
    lemma_shrink_facts(pg, sh, pg2, sh2, k);
    assert forall|j: int| 0 <= j < sh2.free.len() implies #[trigger] free_ok_at(pg2, sh2, j) by {
        assert(free_ok_at(pg, sh, j));
    }
    assert(pg2[0] == pg[0]);
}

#[verifier::spinoff_prover]
proof fn lemma_shrink_child(pg: Seq<Seq<u8>>, sh: Shape, pg2: Seq<Seq<u8>>, sh2: Shape, k: Shrink)
    requires
        shrink_edit(pg, sh, pg2, sh2, k),
    ensures
        node_ok(pg2, sh2, k.child, tight()),
        root_ok_at(pg2, sh2, k.t, k.c),
{
    lemma_shrink_facts(pg, sh, pg2, sh2, k);
    let ks = width_of(pg, k.t, k.c);
    let n = node_at(pg[k.child]).entries.len();
    if node_height(sh.kinds[k.child]) > 0 {
        assert forall|j: int| 0 <= j < n implies #[trigger] child_ok(pg2, sh2, k.child, j) by {
            assert(child_ok(pg, sh, k.child, j));
        }
    } else {
        assert(leaf_links_ok(pg, sh, k.child, ks));
        assert(leaf_links_ok(pg2, sh2, k.child, ks));
    }
}

#[verifier::spinoff_prover]
proof fn lemma_shrink_other(pg: Seq<Seq<u8>>, sh: Shape, pg2: Seq<Seq<u8>>, sh2: Shape, k: Shrink, q: int)
    requires
        shrink_edit(pg, sh, pg2, sh2, k),
        0 <= q < pg2.len(),
        in_tree(sh2.kinds[q], k.t, k.c),
        q != k.child,
    ensures
        node_ok(pg2, sh2, q, tight()),
{
    lemma_shrink_facts(pg, sh, pg2, sh2, k);
    let relax = shrink_relax(k);
    assert(image_inv(pg, sh, relax)) by {
        reveal(shrink_edit);
    }
    assert(q != k.root);
    lemma_descend(pg, sh, k.t, k.c, q, relax);
    let ks = width_of(pg, k.t, k.c);
    let n = node_at(pg[q]).entries.len();
    assert(parent_ok(pg, sh, q));
    let up = node_parent(sh.kinds[q]);
    lemma_descend(pg, sh, k.t, k.c, up, relax);
    if up == k.root {
        assert(child_ok(pg, sh, k.root, node_slot(sh.kinds[q])));
    }
    assert(up != k.root);
    assert(parent_ok(pg, sh, up));
    assert(parent_ok(pg2, sh2, q));
    if node_height(sh.kinds[q]) > 0 {
        assert forall|j: int| 0 <= j < n implies #[trigger] child_ok(pg2, sh2, q, j) by {
            assert(child_ok(pg, sh, q, j));
        }
    } else {
        assert(leaf_links_ok(pg, sh, q, ks));
        assert(leaf_links_ok(pg2, sh2, q, ks));
    }
}

#[verifier::spinoff_prover]
proof fn lemma_shrink_rest(pg: Seq<Seq<u8>>, sh: Shape, pg2: Seq<Seq<u8>>, sh2: Shape, k: Shrink)
    requires
        shrink_edit(pg, sh, pg2, sh2, k),
    ensures
        entries_of(pg2, sh2, k.t as nat, k.c as nat) == entries_of(pg, sh, k.t as nat, k.c as nat),
        unique_ok_at(pg2, sh2, k.t, k.c),
        table_of(pg2, k.t).cols[k.c].flags.unique ==> table_of(pg2, k.t).cols[k.c].index != NONE,
        forall|a: int, b: int| 0 <= a < pg2.len() && 0 <= b < pg2.len() && in_tree(sh2.kinds[a], k.t, k.c) && in_tree(sh2.kinds[b], k.t, k.c) ==> #[trigger] apart(sh2, a, b),
        relax_in(shrink_relax(k), sh, k.t, k.c),
{
    lemma_shrink_facts(pg, sh, pg2, sh2, k);
    let t = k.t as nat;
    let c = k.c as nat;
    assert forall|p: int| 0 <= p < pg.len() && #[trigger] is_leaf_of(sh, p, t, c) implies p < pg2.len() && pg2[p] == pg[p] && is_leaf_of(sh2, p, t, c) by {}
    assert forall|p: int| 0 <= p < pg2.len() && #[trigger] is_leaf_of(sh2, p, t, c) implies p < pg.len() && is_leaf_of(sh, p, t, c) by {
        if p != k.child {
            assert(sh2.kinds[p] == sh.kinds[p]);
        }
    }
    crate::db::lemma_entries_frame(pg, sh, pg2, sh2, t, c);
    assert(unique_ok_at(pg, sh, k.t, k.c)) by {
        reveal(shrink_edit);
        reveal(structure_inv);
    }
    assert forall|a: int, b: int| 0 <= a < pg2.len() && 0 <= b < pg2.len() && in_tree(sh2.kinds[a], k.t, k.c) && in_tree(sh2.kinds[b], k.t, k.c) implies #[trigger] apart(sh2, a, b) by {
        assert(apart(sh, a, b)) by {
            reveal(shrink_edit);
            reveal(structure_inv);
        }
    }
}

/// Taking away a root that has a single child leaves a tree, one level lower,
/// that obeys the rules; the old root belongs to no structure; the entries of
/// the index are what they were.
#[verifier::spinoff_prover]
pub proof fn lemma_shrink(pg: Seq<Seq<u8>>, sh: Shape, pg2: Seq<Seq<u8>>, sh2: Shape, k: Shrink)
    requires
        shrink_edit(pg, sh, pg2, sh2, k),
    ensures
        image_inv(pg2, sh2, tight()),
        index_touch(pg, sh, pg2, sh2, k.t, k.c),
        entries_of(pg2, sh2, k.t as nat, k.c as nat) == entries_of(pg, sh, k.t as nat, k.c as nat),
        0 < k.root < pg2.len(),
        sh2.kinds[k.root] is Loose,
        pg2.len() == pg.len(),
{
    lemma_shrink_facts(pg, sh, pg2, sh2, k);
    lemma_shrink_pager(pg, sh, pg2, sh2, k);
    lemma_shrink_child(pg, sh, pg2, sh2, k);
    lemma_shrink_rest(pg, sh, pg2, sh2, k);
    assert forall|q: int| 0 <= q < pg2.len() && in_tree(#[trigger] sh2.kinds[q], k.t, k.c) implies node_ok(pg2, sh2, q, tight()) by {
        if q != k.child {
            lemma_shrink_other(pg, sh, pg2, sh2, k, q);
        }
    }
    assert(image_inv(pg, sh, shrink_relax(k))) by {
        reveal(shrink_edit);
    }
    lemma_index_touch(pg, sh, pg2, sh2, k.t, k.c, shrink_relax(k), tight());
}

/// After the removal the column has the child as its root, the tree is one
/// level lower, and the free list is what it was.
#[verifier::spinoff_prover]
pub proof fn lemma_shrink_after(pg: Seq<Seq<u8>>, sh: Shape, pg2: Seq<Seq<u8>>, sh2: Shape, k: Shrink)
    requires
        shrink_edit(pg, sh, pg2, sh2, k),
    ensures
        table_of(pg2, k.t).cols[k.c].index == k.child as u32,
        0 < k.child < MAX_PAGE,
        sh2.free == sh.free,
        sh2.trees[(k.t as nat, k.c as nat)].height < sh.trees[(k.t as nat, k.c as nat)].height,
        k.root != k.t,
        0 < k.root,
{
    lemma_shrink_facts(pg, sh, pg2, sh2, k);
}

/// The removal of a root leaves alone the pages that had no role before.
#[verifier::spinoff_prover]
pub proof fn lemma_shrink_loose(pg: Seq<Seq<u8>>, sh: Shape, pg2: Seq<Seq<u8>>, sh2: Shape, k: Shrink)
    requires
        shrink_edit(pg, sh, pg2, sh2, k),
    ensures
        crate::db::loose_kept(pg, sh, pg2, sh2),
        !(sh.kinds[k.root] is Loose),
        sh.kinds[0] is Meta,
        pg2.len() == pg.len(),
{
    lemma_shrink_facts(pg, sh, pg2, sh2, k);
    reveal(shrink_edit);
    reveal(shrink_written);
    reveal(crate::db::loose_kept);
    assert forall|x: int| 0 <= x < pg.len() && (#[trigger] sh.kinds[x]) is Loose implies x < pg2.len() && sh2.kinds[x] is Loose && pg2[x] == pg[x] by {
        assert(x != k.t && x != k.root && x != k.child);
    }
}

} // verus!
