//! Merging two neighbouring children of one node.

use vstd::prelude::*;
use crate::shape::tight;
use crate::delete::under_at;
use crate::frames::{in_tree, index_touch, lemma_index_touch, relax_in};
use crate::key::top;
use crate::layout::{MAX_PAGE, NONE, PAGE_SIZE};
use crate::node::{EntryV, NodeV, fit, node_at};
use crate::release::{node_height, node_hi, node_lo};
use crate::search::keyed;
use crate::shape::{Kind, Relax, Shape, apart, child_ok, entries_of, free_ok_at, holds, image_inv, is_structural, leaf_links_ok, min_fill, node_ok, over, page_ok, pager_inv, parent_ok, rank_of, root_ok_at, sorted, structure_inv, table_of, under, unique_ok_at, within};
use crate::tree::{lemma_descend, node_parent, node_slot, ranged, rehung, root_of, width_of};

verus! {

/// What a merge works on: the children `l` and `r` at positions `i` and `i + 1`
/// of the node `p`.
pub struct Merge {
    pub t: int,
    pub c: int,
    pub p: int,
    pub i: int,
    pub l: int,
    pub r: int,
}

/// The entries of both children, in order.
pub open spec fn joined(pg: Seq<Seq<u8>>, m: Merge) -> Seq<EntryV> {
    node_at(pg[m.l]).entries + node_at(pg[m.r]).entries
}

/// The shape after the merge: the left child takes over the range of the right
/// one, whose children hang below it; the right child belongs to no structure;
/// the children of the parent further right move one position back.
pub open spec fn merge_shape(pg: Seq<Seq<u8>>, sh: Shape, m: Merge) -> Shape {
    let nl = node_at(pg[m.l]).entries.len() as int;
    Shape {
        kinds: Seq::new(
            sh.kinds.len(),
            |x: int|
                if x == m.p {
                    sh.kinds[x]
                } else if x == m.l {
                    ranged(sh.kinds[x], node_lo(sh.kinds[x]), node_hi(sh.kinds[m.r]))
                } else if x == m.r {
                    Kind::Loose
                } else if in_tree(sh.kinds[x], m.t, m.c) && node_parent(sh.kinds[x]) == m.r {
                    rehung(sh.kinds[x], m.l, nl + node_slot(sh.kinds[x]))
                } else if in_tree(sh.kinds[x], m.t, m.c) && node_parent(sh.kinds[x]) == m.p && node_slot(sh.kinds[x]) > m.i + 1 {
                    rehung(sh.kinds[x], m.p, node_slot(sh.kinds[x]) - 1)
                } else {
                    sh.kinds[x]
                },
        ),
        ..sh
    }
}

/// How the pages change when the right child is merged into the left.
#[verifier::opaque]
pub open spec fn merge_written(pg: Seq<Seq<u8>>, pg2: Seq<Seq<u8>>, m: Merge) -> bool {
    let lv = node_at(pg[m.l]);
    let rv = node_at(pg[m.r]);
    let nx = rv.next as int;
    &&& pg2.len() == pg.len()
    &&& forall|q: int| 0 <= q < pg2.len() && q != m.l && q != m.p && !(lv.leaf && q == nx) ==> #[trigger] pg2[q] == pg[q]
    &&& pg2[m.l].len() == PAGE_SIZE
    &&& pg2[m.p].len() == PAGE_SIZE
    &&& node_at(pg2[m.l]) == (NodeV {
        entries: joined(pg, m),
        next: if lv.leaf { if nx == m.l { m.l as u32 } else { rv.next } } else { lv.next },
        prev: if lv.leaf && nx == m.l { m.l as u32 } else { lv.prev },
        ..lv
    })
    &&& node_at(pg2[m.p]) == (NodeV { entries: node_at(pg[m.p]).entries.remove(m.i + 1), ..node_at(pg[m.p]) })
    &&& lv.leaf && nx != m.l ==> pg2[nx].len() == PAGE_SIZE && node_at(pg2[nx]) == (NodeV { prev: m.l as u32, ..node_at(pg[nx]) })
}

/// What the lemmas about a merge ask: the rules hold but for one of the two
/// children, which holds one entry too few, and one node can hold the entries
/// of both.
#[verifier::opaque]
pub open spec fn merge_edit(pg: Seq<Seq<u8>>, sh: Shape, pg2: Seq<Seq<u8>>, sh2: Shape, m: Merge, relax: Relax) -> bool {
    let cap = sh.trees[(m.t as nat, m.c as nat)].cap as int;
    &&& image_inv(pg, sh, relax)
    &&& relax.over is None
    &&& relax.under == Some(m.l as nat) || relax.under == Some(m.r as nat)
    &&& 0 < m.p < pg.len()
    &&& in_tree(sh.kinds[m.p], m.t, m.c)
    &&& node_height(sh.kinds[m.p]) > 0
    &&& 0 <= m.i
    &&& m.i + 1 < node_at(pg[m.p]).entries.len()
    &&& m.l == node_at(pg[m.p]).entries[m.i].child
    &&& m.r == node_at(pg[m.p]).entries[m.i + 1].child
    &&& joined(pg, m).len() <= cap
    &&& merge_written(pg, pg2, m)
    &&& sh2 == merge_shape(pg, sh, m)
}

/// The facts about a merge that the lemmas share.
pub open spec fn merge_facts(pg: Seq<Seq<u8>>, sh: Shape, pg2: Seq<Seq<u8>>, sh2: Shape, m: Merge, relax: Relax) -> bool {
    let lv = node_at(pg[m.l]);
    let rv = node_at(pg[m.r]);
    let pv = node_at(pg[m.p]);
    let all = joined(pg, m);
    let nl = lv.entries.len() as int;
    let tree = sh.trees[(m.t as nat, m.c as nat)];
    let ks = width_of(pg, m.t, m.c);
    let h = node_height(sh.kinds[m.p]);
    &&& 0 < m.p < pg.len()
    &&& 0 < m.l < pg.len()
    &&& 0 < m.r < pg.len()
    &&& 0 < m.t < pg.len()
    &&& pg.len() <= MAX_PAGE
    &&& pg2.len() == pg.len()
    &&& sh.kinds.len() == pg.len()
    &&& sh2.kinds.len() == pg.len()
    &&& m.l != m.r
    &&& m.l != m.p
    &&& m.r != m.p
    &&& m.t != m.p
    &&& m.t != m.l
    &&& m.t != m.r
    &&& sh.kinds[m.t] is Table
    &&& sh2.kinds[m.t] == sh.kinds[m.t]
    &&& sh.kinds[0] is Meta
    &&& sh2.kinds[0] is Meta
    &&& 0 <= m.c < table_of(pg, m.t).cols.len()
    &&& table_of(pg2, m.t) == table_of(pg, m.t)
    &&& sh2.trees == sh.trees
    &&& sh2.heaps == sh.heaps
    &&& sh2.free == sh.free
    &&& pager_inv(pg, sh)
    &&& pg2[m.l].len() == PAGE_SIZE
    &&& pg2[m.p].len() == PAGE_SIZE
    &&& pg2[m.r] == pg[m.r]
    &&& in_tree(sh.kinds[m.p], m.t, m.c)
    &&& h > 0
    &&& 0 <= m.i
    &&& m.i + 1 < pv.entries.len()
    &&& m.l == pv.entries[m.i].child
    &&& m.r == pv.entries[m.i + 1].child
    &&& sh2.kinds[m.p] == sh.kinds[m.p]
    &&& sh.kinds[m.l] == (Kind::Node {
        table: m.t as nat,
        col: m.c as nat,
        height: (h - 1) as nat,
        parent: m.p as nat,
        slot: m.i as nat,
        lo: rank_of(pv.entries[m.i]),
        hi: rank_of(pv.entries[m.i + 1]),
    })
    &&& sh.kinds[m.r] == (Kind::Node {
        table: m.t as nat,
        col: m.c as nat,
        height: (h - 1) as nat,
        parent: m.p as nat,
        slot: (m.i + 1) as nat,
        lo: rank_of(pv.entries[m.i + 1]),
        hi: if m.i + 2 < pv.entries.len() { rank_of(pv.entries[m.i + 2]) } else { node_hi(sh.kinds[m.p]) },
    })
    &&& sh2.kinds[m.l] == ranged(sh.kinds[m.l], node_lo(sh.kinds[m.l]), node_hi(sh.kinds[m.r]))
    &&& sh2.kinds[m.r] is Loose
    &&& node_ok(pg, sh, m.p, relax)
    &&& node_ok(pg, sh, m.l, relax)
    &&& node_ok(pg, sh, m.r, relax)
    &&& 3 <= tree.cap < fit(ks as int, false)
    &&& relax.over is None
    &&& relax.under == Some(m.l as nat) || relax.under == Some(m.r as nat)
    &&& all.len() <= tree.cap
    &&& all.len() >= min_fill(tree.cap as int)
    &&& nl >= 1
    &&& rv.entries.len() >= 1
    &&& all.len() == nl + rv.entries.len()
    &&& sorted(all)
    &&& within(all, node_lo(sh.kinds[m.l]), node_hi(sh.kinds[m.r]))
    &&& keyed(all, ks as int)
    &&& lv.leaf == rv.leaf
    &&& lv.leaf == (h == 1)
    &&& node_at(pg2[m.l]).entries == all
    &&& node_at(pg2[m.l]).leaf == lv.leaf
    &&& node_at(pg2[m.l]).cap == lv.cap
    &&& node_at(pg2[m.l]).key_size == lv.key_size
    &&& node_at(pg2[m.p]) == (NodeV { entries: pv.entries.remove(m.i + 1), ..pv })
    &&& lv.leaf ==> 0 < rv.next < pg.len() && in_tree(sh.kinds[rv.next as int], m.t, m.c) && node_height(sh.kinds[rv.next as int]) == 0 && rv.next != m.p && rv.next != m.r
    &&& lv.leaf && rv.next != m.l ==> pg2[rv.next as int].len() == PAGE_SIZE && node_at(pg2[rv.next as int]) == (NodeV { prev: m.l as u32, ..node_at(pg[rv.next as int]) })
    &&& node_at(pg2[m.l]).next == (if lv.leaf { if rv.next == m.l { m.l as u32 } else { rv.next } } else { lv.next })
    &&& node_at(pg2[m.l]).prev == (if lv.leaf && rv.next == m.l { m.l as u32 } else { lv.prev })
    &&& forall|q: int| 0 <= q < pg.len() && q != m.l && q != m.p && !(lv.leaf && q == rv.next) ==> #[trigger] pg2[q] == pg[q]
}

#[verifier::spinoff_prover]
pub proof fn lemma_merge_facts(pg: Seq<Seq<u8>>, sh: Shape, pg2: Seq<Seq<u8>>, sh2: Shape, m: Merge, relax: Relax)
    requires
        merge_edit(pg, sh, pg2, sh2, m, relax),
    ensures
        merge_facts(pg, sh, pg2, sh2, m, relax),
{
    reveal(merge_edit);
    reveal(merge_written);
    lemma_descend(pg, sh, m.t, m.c, m.p, relax);
    assert(child_ok(pg, sh, m.p, m.i));
    assert(child_ok(pg, sh, m.p, m.i + 1));
    lemma_descend(pg, sh, m.t, m.c, m.l, relax);
    lemma_descend(pg, sh, m.t, m.c, m.r, relax);
    let lv = node_at(pg[m.l]);
    let rv = node_at(pg[m.r]);
    let all = joined(pg, m);
    let nl = lv.entries.len() as int;
    let tree = sh.trees[(m.t as nat, m.c as nat)];
    assert(sh.kinds[m.t] is Table && 0 < m.t < pg.len() && 3 <= tree.cap < fit(width_of(pg, m.t, m.c) as int, false) && m.p != m.t && m.l != m.t && m.r != m.t && 0 <= m.c < table_of(pg, m.t).cols.len()
        && sh.kinds[0] is Meta) by {
        reveal(structure_inv);
        assert(page_ok(pg, sh, m.t, relax));
        assert(root_ok_at(pg, sh, m.t, m.c));
    }
    assert forall|a: int, b: int| 0 <= a < b < all.len() implies rank_of(#[trigger] all[a]) < rank_of(#[trigger] all[b]) by {
        if b < nl {
            assert(rank_of(lv.entries[a]) < rank_of(lv.entries[b]));
        } else if a >= nl {
            assert(rank_of(rv.entries[a - nl]) < rank_of(rv.entries[b - nl]));
        } else {
            assert(rank_of(lv.entries[a]) < node_hi(sh.kinds[m.l]));
            assert(rank_of(rv.entries[b - nl]) >= node_lo(sh.kinds[m.r]));
        }
    }
    assert forall|j: int| 0 <= j < all.len() implies node_lo(sh.kinds[m.l]) <= rank_of(#[trigger] all[j]) < node_hi(sh.kinds[m.r]) by {
        if j < nl {
            assert(node_lo(sh.kinds[m.l]) <= rank_of(lv.entries[j]) < node_hi(sh.kinds[m.l]));
        } else {
            assert(node_lo(sh.kinds[m.r]) <= rank_of(rv.entries[j - nl]) < node_hi(sh.kinds[m.r]));
        }
    }
    assert forall|j: int| 0 <= j < all.len() implies (#[trigger] all[j]).key.len() == width_of(pg, m.t, m.c) by {
        if j < nl {
            assert(lv.entries[j].key.len() == width_of(pg, m.t, m.c));
        } else {
            assert(rv.entries[j - nl].key.len() == width_of(pg, m.t, m.c));
        }
    }
    if lv.leaf {
        assert(leaf_links_ok(pg, sh, m.r, width_of(pg, m.t, m.c)));
    }
}

/// The part of the shared facts that speaks of what the merge leaves alone.
#[verifier::spinoff_prover]
proof fn lemma_merge_frame(pg: Seq<Seq<u8>>, sh: Shape, pg2: Seq<Seq<u8>>, sh2: Shape, m: Merge, relax: Relax)
    requires
        merge_edit(pg, sh, pg2, sh2, m, relax),
    ensures
        pager_inv(pg, sh),
        pg2.len() == pg.len(),
        sh2.kinds.len() == sh.kinds.len(),
        sh.kinds.len() == pg.len(),
        sh2.free == sh.free,
        sh2.heaps == sh.heaps,
        sh2.trees == sh.trees,
        forall|q: int| 0 <= q < pg.len() && q != m.l && q != m.p && !(node_at(pg[m.l]).leaf && q == node_at(pg[m.r]).next) ==> #[trigger] pg2[q] == pg[q],
        node_at(pg[m.l]).leaf ==> 0 < node_at(pg[m.r]).next < pg.len() && in_tree(sh.kinds[node_at(pg[m.r]).next as int], m.t, m.c) && node_at(pg[m.r]).next != m.p && node_at(pg[m.r]).next != m.r
            && node_height(sh.kinds[node_at(pg[m.r]).next as int]) == 0,
        node_at(pg[m.l]).leaf == (node_height(sh.kinds[m.l]) == 0),
        pg.len() <= MAX_PAGE,
        pg2[m.l].len() == PAGE_SIZE,
        pg2[m.p].len() == PAGE_SIZE,
        node_at(pg[m.l]).leaf && node_at(pg[m.r]).next != m.l ==> pg2[node_at(pg[m.r]).next as int].len() == PAGE_SIZE,
        0 < m.p < pg.len() && in_tree(sh.kinds[m.p], m.t, m.c),
        0 < m.l < pg.len() && in_tree(sh.kinds[m.l], m.t, m.c),
        0 < m.r < pg.len() && in_tree(sh.kinds[m.r], m.t, m.c),
        m.l != m.r && m.l != m.p && m.r != m.p,
        in_tree(sh2.kinds[m.p], m.t, m.c),
        in_tree(sh2.kinds[m.l], m.t, m.c),
        sh2.kinds[m.r] is Loose,
        sh2.kinds[m.p] == sh.kinds[m.p],
        0 < m.t < pg.len() && sh.kinds[m.t] is Table,
        sh2.kinds[m.t] == sh.kinds[m.t],
        0 <= m.c < table_of(pg, m.t).cols.len(),
        table_of(pg2, m.t) == table_of(pg, m.t),
        m.t != m.p && m.t != m.l && m.t != m.r,
        sh.kinds[0] is Meta,
        node_parent(sh.kinds[m.l]) == m.p && node_parent(sh.kinds[m.r]) == m.p,
        node_slot(sh.kinds[m.l]) == m.i && node_slot(sh.kinds[m.r]) == m.i + 1,
        node_height(sh.kinds[m.l]) == node_height(sh.kinds[m.r]),
        node_height(sh.kinds[m.l]) + 1 == node_height(sh.kinds[m.p]),
        node_hi(sh.kinds[m.l]) == node_lo(sh.kinds[m.r]),
        node_lo(sh.kinds[m.l]) < node_hi(sh.kinds[m.l]) < node_hi(sh.kinds[m.r]),
        sh2.kinds[m.l] == ranged(sh.kinds[m.l], node_lo(sh.kinds[m.l]), node_hi(sh.kinds[m.r])),
        node_at(pg2[m.l]).entries == joined(pg, m),
        joined(pg, m).len() == node_at(pg[m.l]).entries.len() + node_at(pg[m.r]).entries.len(),
        0 <= m.i && m.i + 1 < node_at(pg[m.p]).entries.len(),
        node_at(pg2[m.p]).entries == node_at(pg[m.p]).entries.remove(m.i + 1),
{
    lemma_merge_facts(pg, sh, pg2, sh2, m, relax);
}

/// The roles and the entries of the parent and the two children before and
/// after the merge.
#[verifier::spinoff_prover]
proof fn lemma_merge_sides(pg: Seq<Seq<u8>>, sh: Shape, pg2: Seq<Seq<u8>>, sh2: Shape, m: Merge, relax: Relax)
    requires
        merge_edit(pg, sh, pg2, sh2, m, relax),
    ensures
        0 < m.l < pg.len() && 0 < m.r < pg.len() && 0 < m.p < pg.len(),
        m.l != m.r && m.l != m.p && m.r != m.p,
        pg2.len() == pg.len(),
        pg.len() <= MAX_PAGE,
        sh2.kinds.len() == pg.len(),
        sh.kinds.len() == pg.len(),
        sh.kinds[0] is Meta,
        in_tree(sh.kinds[m.l], m.t, m.c) && in_tree(sh.kinds[m.r], m.t, m.c) && in_tree(sh.kinds[m.p], m.t, m.c),
        node_height(sh.kinds[m.p]) > 0,
        node_parent(sh.kinds[m.l]) == m.p && node_parent(sh.kinds[m.r]) == m.p,
        node_slot(sh.kinds[m.l]) == m.i && node_slot(sh.kinds[m.r]) == m.i + 1,
        node_height(sh.kinds[m.l]) == node_height(sh.kinds[m.r]),
        node_height(sh.kinds[m.l]) + 1 == node_height(sh.kinds[m.p]),
        node_hi(sh.kinds[m.l]) == node_lo(sh.kinds[m.r]),
        0 <= node_lo(sh.kinds[m.l]) < node_hi(sh.kinds[m.l]) < node_hi(sh.kinds[m.r]),
        node_hi(sh.kinds[m.r]) <= top(width_of(pg, m.t, m.c)),
        node_lo(sh.kinds[m.l]) == rank_of(node_at(pg[m.p]).entries[m.i]),
        node_hi(sh.kinds[m.r]) == (if m.i + 2 < node_at(pg[m.p]).entries.len() { rank_of(node_at(pg[m.p]).entries[m.i + 2]) } else { node_hi(sh.kinds[m.p]) }),
        sh2.kinds[m.l] == ranged(sh.kinds[m.l], node_lo(sh.kinds[m.l]), node_hi(sh.kinds[m.r])),
        sh2.kinds[m.p] == sh.kinds[m.p],
        sh2.kinds[m.r] is Loose,
        0 <= m.i && m.i + 1 < node_at(pg[m.p]).entries.len(),
        m.l == node_at(pg[m.p]).entries[m.i].child,
        m.r == node_at(pg[m.p]).entries[m.i + 1].child,
        node_at(pg2[m.p]).entries == node_at(pg[m.p]).entries.remove(m.i + 1),
        node_at(pg2[m.l]).entries == joined(pg, m),
        joined(pg, m).len() == node_at(pg[m.l]).entries.len() + node_at(pg[m.r]).entries.len(),
        forall|k: int| 0 <= k < node_at(pg[m.p]).entries.len() ==> #[trigger] child_ok(pg, sh, m.p, k),
        node_at(pg[m.l]).leaf == (node_height(sh.kinds[m.l]) == 0),
{
    lemma_merge_facts(pg, sh, pg2, sh2, m, relax);
}

/// The pages that the merge leaves alone.
#[verifier::spinoff_prover]
proof fn lemma_merge_pages(pg: Seq<Seq<u8>>, sh: Shape, pg2: Seq<Seq<u8>>, sh2: Shape, m: Merge, relax: Relax, q: int)
    requires
        merge_edit(pg, sh, pg2, sh2, m, relax),
        0 <= q < pg.len(),
        q != m.l,
        q != m.p,
    ensures
        node_at(pg2[q]).entries == node_at(pg[q]).entries,
        node_at(pg2[q]).leaf == node_at(pg[q]).leaf,
        node_at(pg2[q]).cap == node_at(pg[q]).cap,
        node_at(pg2[q]).key_size == node_at(pg[q]).key_size,
        node_at(pg2[q]).next == node_at(pg[q]).next,
        !(node_at(pg[m.l]).leaf && q == node_at(pg[m.r]).next) ==> pg2[q] == pg[q],
        node_at(pg[m.l]).leaf && q == node_at(pg[m.r]).next ==> node_at(pg2[q]).prev == m.l,
{
    lemma_merge_facts(pg, sh, pg2, sh2, m, relax);
}

/// The role of a node other than the parent and the two children after the
/// merge.
#[verifier::spinoff_prover]
proof fn lemma_merge_kind(pg: Seq<Seq<u8>>, sh: Shape, pg2: Seq<Seq<u8>>, sh2: Shape, m: Merge, relax: Relax, x: int)
    requires
        merge_edit(pg, sh, pg2, sh2, m, relax),
        0 <= x < pg.len(),
        x != m.p,
        x != m.l,
        x != m.r,
    ensures
        !in_tree(sh.kinds[x], m.t, m.c) ==> sh2.kinds[x] == sh.kinds[x],
        in_tree(sh.kinds[x], m.t, m.c) ==> sh2.kinds[x] == rehung(sh.kinds[x], node_parent(sh2.kinds[x]), node_slot(sh2.kinds[x])),
        in_tree(sh.kinds[x], m.t, m.c) && node_parent(sh.kinds[x]) != m.r && node_parent(sh.kinds[x]) != m.p ==> sh2.kinds[x] == sh.kinds[x],
        in_tree(sh.kinds[x], m.t, m.c) && node_parent(sh.kinds[x]) == m.r ==> sh2.kinds[x] == rehung(sh.kinds[x], m.l, node_at(pg[m.l]).entries.len() + node_slot(sh.kinds[x])),
        in_tree(sh.kinds[x], m.t, m.c) && node_parent(sh.kinds[x]) == m.p ==> sh2.kinds[x] == (if node_slot(sh.kinds[x]) > m.i + 1 {
            rehung(sh.kinds[x], m.p, node_slot(sh.kinds[x]) - 1)
        } else {
            sh.kinds[x]
        }),
{
    lemma_merge_facts(pg, sh, pg2, sh2, m, relax);
    reveal(merge_edit);
}

#[verifier::spinoff_prover]
proof fn lemma_merge_pager(pg: Seq<Seq<u8>>, sh: Shape, pg2: Seq<Seq<u8>>, sh2: Shape, m: Merge, relax: Relax)
    requires
        merge_edit(pg, sh, pg2, sh2, m, relax),
    ensures
        pager_inv(pg2, sh2),
        index_touch(pg, sh, pg2, sh2, m.t, m.c),
{
    lemma_merge_frame(pg, sh, pg2, sh2, m, relax);
    assert forall|x: int| 0 <= x < pg.len() && !in_tree(#[trigger] sh.kinds[x], m.t, m.c) implies sh2.kinds[x] == sh.kinds[x] by {
        lemma_merge_kind(pg, sh, pg2, sh2, m, relax, x);
    }
    assert forall|x: int| 0 <= x < pg.len() && x != m.r && in_tree(#[trigger] sh.kinds[x], m.t, m.c) implies in_tree(sh2.kinds[x], m.t, m.c) by {
        if x != m.p && x != m.l {
            lemma_merge_kind(pg, sh, pg2, sh2, m, relax, x);
        }
    }
    assert forall|x: int| 0 <= x < pg.len() implies (#[trigger] sh2.kinds[x]) == sh.kinds[x] || in_tree(sh2.kinds[x], m.t, m.c) || x == m.r by {
        if in_tree(sh.kinds[x], m.t, m.c) {
        }
    }
    assert forall|k: int| 0 <= k < sh2.free.len() implies #[trigger] free_ok_at(pg2, sh2, k) by {
        assert(free_ok_at(pg, sh, k));
    }
    assert(pg2[0] == pg[0]);
    assert(pager_inv(pg2, sh2));
    assert forall|x: int| 0 <= x < pg2.len() && x != m.t && is_structural(#[trigger] sh2.kinds[x]) && !in_tree(sh2.kinds[x], m.t, m.c) implies x < pg.len() && sh.kinds[x] == sh2.kinds[x] by {
        assert(!in_tree(sh.kinds[x], m.t, m.c));
    }
}

/// The exception a merge leaves behind: none, unless the parent now holds one
/// entry too few.
pub open spec fn merge_relax(pg2: Seq<Seq<u8>>, sh2: Shape, m: Merge) -> Relax {
    under_at(pg2, sh2, m.t, m.c, m.p)
}

#[verifier::spinoff_prover]
proof fn lemma_merge_parent(pg: Seq<Seq<u8>>, sh: Shape, pg2: Seq<Seq<u8>>, sh2: Shape, m: Merge, relax: Relax)
    requires
        merge_edit(pg, sh, pg2, sh2, m, relax),
    ensures
        node_ok(pg2, sh2, m.p, merge_relax(pg2, sh2, m)),
{
    lemma_merge_facts(pg, sh, pg2, sh2, m, relax);
    let es = node_at(pg[m.p]).entries;
    let es2 = node_at(pg2[m.p]).entries;
    let i = m.i;
    assert forall|a: int, b: int| 0 <= a < b < es2.len() implies rank_of(#[trigger] es2[a]) < rank_of(#[trigger] es2[b]) by {
        let a0 = if a <= i { a } else { a + 1 };
        let b0 = if b <= i { b } else { b + 1 };
        assert(rank_of(es[a0]) < rank_of(es[b0]));
    }
    assert forall|k: int| 0 <= k < es2.len() implies node_lo(sh.kinds[m.p]) <= rank_of(#[trigger] es2[k]) < node_hi(sh.kinds[m.p]) by {
        let k0 = if k <= i { k } else { k + 1 };
        assert(node_lo(sh.kinds[m.p]) <= rank_of(es[k0]) < node_hi(sh.kinds[m.p]));
    }
    assert(es2[0] == es[0]);
    assert forall|j: int| 0 <= j < es2.len() implies #[trigger] child_ok(pg2, sh2, m.p, j) by {
        lemma_merge_child_of_parent(pg, sh, pg2, sh2, m, relax, j);
    }
    assert(root_of(pg2, m.t, m.c) == root_of(pg, m.t, m.c));
    if m.p != root_of(pg, m.t, m.c) {
        assert(parent_ok(pg, sh, m.p));
        let up = node_parent(sh.kinds[m.p]);
        assert(image_inv(pg, sh, relax)) by {
            reveal(merge_edit);
        }
        lemma_descend(pg, sh, m.t, m.c, up, relax);
        assert(up != m.l && up != m.r);
        lemma_merge_kind(pg, sh, pg2, sh2, m, relax, up);
        assert(parent_ok(pg2, sh2, m.p));
    }
}

#[verifier::spinoff_prover]
proof fn lemma_merge_child_of_parent(pg: Seq<Seq<u8>>, sh: Shape, pg2: Seq<Seq<u8>>, sh2: Shape, m: Merge, relax: Relax, j: int)
    requires
        merge_edit(pg, sh, pg2, sh2, m, relax),
        0 <= j < node_at(pg2[m.p]).entries.len(),
    ensures
        child_ok(pg2, sh2, m.p, j),
{
    lemma_merge_sides(pg, sh, pg2, sh2, m, relax);
    let es = node_at(pg[m.p]).entries;
    let es2 = node_at(pg2[m.p]).entries;
    let i = m.i;
    assert(child_ok(pg, sh, m.p, i));
    assert(child_ok(pg, sh, m.p, i + 1));
    if j < i {
        assert(child_ok(pg, sh, m.p, j));
        assert(es2[j] == es[j]);
        assert(es2[j + 1] == es[j + 1]);
        let x = es[j].child as int;
        assert(x != m.l && x != m.r && x != m.p);
        lemma_merge_kind(pg, sh, pg2, sh2, m, relax, x);
        assert(sh2.kinds[x] == sh.kinds[x]);
    } else if j == i {
        assert(es2[i] == es[i]);
        if i + 1 < es2.len() {
            assert(es2[i + 1] == es[i + 2]);
        }
    } else {
        assert(child_ok(pg, sh, m.p, j + 1));
        assert(es2[j] == es[j + 1]);
        if j + 1 < es2.len() {
            assert(es2[j + 1] == es[j + 2]);
        }
        let x = es[j + 1].child as int;
        assert(x != m.l && x != m.r && x != m.p);
        lemma_merge_kind(pg, sh, pg2, sh2, m, relax, x);
        assert(sh2.kinds[x] == rehung(sh.kinds[x], m.p, j));
    }
}

/// After the merge the child of entry `j` of the joined entries hangs below the
/// left child at position `j`.
#[verifier::spinoff_prover]
proof fn lemma_merge_child(pg: Seq<Seq<u8>>, sh: Shape, pg2: Seq<Seq<u8>>, sh2: Shape, m: Merge, relax: Relax, j: int)
    requires
        merge_edit(pg, sh, pg2, sh2, m, relax),
        !node_at(pg[m.l]).leaf,
        0 <= j < joined(pg, m).len(),
    ensures
        child_ok(pg2, sh2, m.l, j),
{
    lemma_merge_facts(pg, sh, pg2, sh2, m, relax);
    let lv = node_at(pg[m.l]);
    let rv = node_at(pg[m.r]);
    let all = joined(pg, m);
    let nl = lv.entries.len() as int;
    let x = all[j].child as int;
    if j < nl {
        assert(child_ok(pg, sh, m.l, j));
        assert(all[j] == lv.entries[j]);
        if j + 1 < nl {
            assert(all[j + 1] == lv.entries[j + 1]);
        } else {
            assert(all[j + 1] == rv.entries[0]);
        }
    } else {
        assert(child_ok(pg, sh, m.r, j - nl));
        assert(all[j] == rv.entries[j - nl]);
        if j + 1 < all.len() {
            assert(all[j + 1] == rv.entries[j - nl + 1]);
        }
    }
    assert(x != m.p && x != m.l && x != m.r);
    lemma_merge_kind(pg, sh, pg2, sh2, m, relax, x);
}

/// How the leaves around the two children are linked.
#[verifier::spinoff_prover]
proof fn lemma_merge_ring(pg: Seq<Seq<u8>>, sh: Shape, pg2: Seq<Seq<u8>>, sh2: Shape, m: Merge, relax: Relax, q: int)
    requires
        merge_edit(pg, sh, pg2, sh2, m, relax),
        node_at(pg[m.l]).leaf,
        0 < q < pg.len(),
        in_tree(sh.kinds[q], m.t, m.c),
        node_height(sh.kinds[q]) == 0,
    ensures
        leaf_links_ok(pg, sh, q, width_of(pg, m.t, m.c)),
        q != m.l ==> node_at(pg[q]).next != m.r,
        q != m.r ==> node_at(pg[q]).prev != m.l,
        q != node_at(pg[m.r]).next ==> node_at(pg[q]).prev != m.r,
        q == m.l ==> node_at(pg[q]).prev != m.l,
        q == m.l && node_at(pg[m.r]).next == m.l ==> node_lo(sh.kinds[m.l]) == 0 && node_hi(sh.kinds[m.r]) == top(width_of(pg, m.t, m.c)),
{
    lemma_merge_frame(pg, sh, pg2, sh2, m, relax);
    assert(image_inv(pg, sh, relax)) by {
        reveal(merge_edit);
    }
    let ks = width_of(pg, m.t, m.c);
    lemma_descend(pg, sh, m.t, m.c, q, relax);
    lemma_descend(pg, sh, m.t, m.c, m.l, relax);
    lemma_descend(pg, sh, m.t, m.c, m.r, relax);
    assert(leaf_links_ok(pg, sh, q, ks));
    assert(leaf_links_ok(pg, sh, m.r, ks));
    assert(leaf_links_ok(pg, sh, m.l, ks));
    let rn = node_at(pg[m.r]).next as int;
    lemma_descend(pg, sh, m.t, m.c, rn, relax);
    reveal(structure_inv);
    assert(apart(sh, q, m.l));
    assert(apart(sh, q, m.r));
    assert(apart(sh, q, rn));
    assert(apart(sh, rn, m.l));
}

#[verifier::spinoff_prover]
proof fn lemma_merge_left(pg: Seq<Seq<u8>>, sh: Shape, pg2: Seq<Seq<u8>>, sh2: Shape, m: Merge, relax: Relax)
    requires
        merge_edit(pg, sh, pg2, sh2, m, relax),
    ensures
        node_ok(pg2, sh2, m.l, merge_relax(pg2, sh2, m)),
{
    lemma_merge_facts(pg, sh, pg2, sh2, m, relax);
    let lv = node_at(pg[m.l]);
    let rv = node_at(pg[m.r]);
    let all = joined(pg, m);
    let ks = width_of(pg, m.t, m.c);
    assert(all[0] == lv.entries[0]);
    assert(parent_ok(pg2, sh2, m.l)) by {
        assert(node_at(pg2[m.p]).entries[m.i] == node_at(pg[m.p]).entries[m.i]);
    }
    assert(m.l != root_of(pg, m.t, m.c));
    if lv.leaf {
        lemma_merge_ring(pg, sh, pg2, sh2, m, relax, m.l);
        assert(leaf_links_ok(pg, sh, m.r, ks)) by {
            lemma_merge_ring(pg, sh, pg2, sh2, m, relax, m.r);
        }
        let nx = rv.next as int;
        let pv = lv.prev as int;
        if nx != m.l {
            lemma_merge_kind(pg, sh, pg2, sh2, m, relax, nx);
            lemma_merge_ring(pg, sh, pg2, sh2, m, relax, nx);
            assert(pv != m.r);
            lemma_merge_kind(pg, sh, pg2, sh2, m, relax, pv);
        }
        assert(leaf_links_ok(pg2, sh2, m.l, ks));
    } else {
        assert forall|j: int| 0 <= j < all.len() implies #[trigger] child_ok(pg2, sh2, m.l, j) by {
            lemma_merge_child(pg, sh, pg2, sh2, m, relax, j);
        }
    }
}

/// A node other than the parent and the two children still finds itself in its
/// parent after the merge.
#[verifier::spinoff_prover]
proof fn lemma_merge_hung(pg: Seq<Seq<u8>>, sh: Shape, pg2: Seq<Seq<u8>>, sh2: Shape, m: Merge, relax: Relax, q: int)
    requires
        merge_edit(pg, sh, pg2, sh2, m, relax),
        0 < q < pg.len(),
        in_tree(sh.kinds[q], m.t, m.c),
        q != m.p,
        q != m.l,
        q != m.r,
        q != root_of(pg, m.t, m.c),
    ensures
        parent_ok(pg2, sh2, q),
{
    lemma_merge_sides(pg, sh, pg2, sh2, m, relax);
    assert(image_inv(pg, sh, relax)) by {
        reveal(merge_edit);
    }
    lemma_descend(pg, sh, m.t, m.c, q, relax);
    assert(parent_ok(pg, sh, q));
    let up = node_parent(sh.kinds[q]);
    let slot = node_slot(sh.kinds[q]);
    let all = joined(pg, m);
    let nl = node_at(pg[m.l]).entries.len() as int;
    lemma_merge_kind(pg, sh, pg2, sh2, m, relax, q);
    if up == m.p {
        assert(child_ok(pg, sh, m.p, slot));
        assert(child_ok(pg, sh, m.p, m.i));
        assert(child_ok(pg, sh, m.p, m.i + 1));
        assert(slot != m.i && slot != m.i + 1);
        if slot > m.i + 1 {
            assert(node_at(pg2[m.p]).entries[slot - 1] == node_at(pg[m.p]).entries[slot]);
        } else {
            assert(node_at(pg2[m.p]).entries[slot] == node_at(pg[m.p]).entries[slot]);
        }
    } else if up == m.l {
        assert(all[slot] == node_at(pg[m.l]).entries[slot]);
    } else if up == m.r {
        assert(all[nl + slot] == node_at(pg[m.r]).entries[slot]);
    } else {
        lemma_merge_kind(pg, sh, pg2, sh2, m, relax, up);
        lemma_merge_pages(pg, sh, pg2, sh2, m, relax, up);
    }
}

#[verifier::spinoff_prover]
proof fn lemma_merge_leaf_links(pg: Seq<Seq<u8>>, sh: Shape, pg2: Seq<Seq<u8>>, sh2: Shape, m: Merge, relax: Relax, q: int)
    requires
        merge_edit(pg, sh, pg2, sh2, m, relax),
        0 < q < pg.len(),
        in_tree(sh.kinds[q], m.t, m.c),
        node_height(sh.kinds[q]) == 0,
        q != m.p,
        q != m.l,
        q != m.r,
    ensures
        leaf_links_ok(pg2, sh2, q, width_of(pg, m.t, m.c)),
{
    lemma_merge_sides(pg, sh, pg2, sh2, m, relax);
    lemma_merge_pages(pg, sh, pg2, sh2, m, relax, q);
    lemma_merge_kind(pg, sh, pg2, sh2, m, relax, q);
    let ks = width_of(pg, m.t, m.c);
    let nx = node_at(pg[q]).next as int;
    let pv = node_at(pg[q]).prev as int;
    if node_at(pg[m.l]).leaf {
        lemma_merge_ring(pg, sh, pg2, sh2, m, relax, q);
        lemma_merge_ring(pg, sh, pg2, sh2, m, relax, m.r);
        let rn = node_at(pg[m.r]).next as int;
        assert(nx != m.r && nx != m.p);
        if nx != m.l {
            lemma_merge_kind(pg, sh, pg2, sh2, m, relax, nx);
        }
        if q != rn {
            assert(pv != m.r && pv != m.l && pv != m.p);
            lemma_merge_kind(pg, sh, pg2, sh2, m, relax, pv);
        }
    } else {
        assert(image_inv(pg, sh, relax)) by {
            reveal(merge_edit);
        }
        lemma_descend(pg, sh, m.t, m.c, q, relax);
        assert(leaf_links_ok(pg, sh, q, ks));
        assert(nx != m.l && nx != m.r && nx != m.p);
        assert(pv != m.l && pv != m.r && pv != m.p);
        lemma_merge_kind(pg, sh, pg2, sh2, m, relax, nx);
        lemma_merge_kind(pg, sh, pg2, sh2, m, relax, pv);
    }
}

#[verifier::spinoff_prover]
proof fn lemma_merge_other(pg: Seq<Seq<u8>>, sh: Shape, pg2: Seq<Seq<u8>>, sh2: Shape, m: Merge, relax: Relax, q: int)
    requires
        merge_edit(pg, sh, pg2, sh2, m, relax),
        0 < q < pg.len(),
        in_tree(sh2.kinds[q], m.t, m.c),
        q != m.p,
        q != m.l,
    ensures
        node_ok(pg2, sh2, q, merge_relax(pg2, sh2, m)),
{
    lemma_merge_frame(pg, sh, pg2, sh2, m, relax);
    assert(q != m.r);
    lemma_merge_kind(pg, sh, pg2, sh2, m, relax, q);
    assert(image_inv(pg, sh, relax) && relax.over is None && (relax.under == Some(m.l as nat) || relax.under == Some(m.r as nat))) by {
        reveal(merge_edit);
    }
    assert(in_tree(sh.kinds[q], m.t, m.c));
    lemma_descend(pg, sh, m.t, m.c, q, relax);
    let ks = width_of(pg, m.t, m.c);
    let n = node_at(pg[q]).entries.len();
    if q != root_of(pg, m.t, m.c) {
        lemma_merge_hung(pg, sh, pg2, sh2, m, relax, q);
    } else {
        assert(node_parent(sh.kinds[q]) == q);
    }
    lemma_merge_pages(pg, sh, pg2, sh2, m, relax, q);
    if node_height(sh.kinds[q]) > 0 {
        assert forall|j: int| 0 <= j < n implies #[trigger] child_ok(pg2, sh2, q, j) by {
            assert(child_ok(pg, sh, q, j));
            let z = node_at(pg[q]).entries[j].child as int;
            assert(z != m.l && z != m.r);
            if z != m.p {
                lemma_merge_kind(pg, sh, pg2, sh2, m, relax, z);
            }
        }
    } else {
        lemma_merge_leaf_links(pg, sh, pg2, sh2, m, relax, q);
    }
    assert(crate::tree::tree_same(pg, sh, pg2, sh2, m.t, m.c)) by {
        reveal(structure_inv);
        assert(page_ok(pg, sh, m.t, relax));
        assert(root_ok_at(pg, sh, m.t, m.c));
    }
    crate::tree::lemma_node_moved(pg, sh, pg2, sh2, m.t, m.c, relax, merge_relax(pg2, sh2, m), q);
}

#[verifier::spinoff_prover]
proof fn lemma_merge_apart(pg: Seq<Seq<u8>>, sh: Shape, pg2: Seq<Seq<u8>>, sh2: Shape, m: Merge, relax: Relax, a: int, b: int)
    requires
        merge_edit(pg, sh, pg2, sh2, m, relax),
        0 <= a < pg2.len(),
        0 <= b < pg2.len(),
        in_tree(sh2.kinds[a], m.t, m.c),
        in_tree(sh2.kinds[b], m.t, m.c),
    ensures
        apart(sh2, a, b),
{
    lemma_merge_frame(pg, sh, pg2, sh2, m, relax);
    assert(apart(sh, a, b) && apart(sh, a, m.l) && apart(sh, a, m.r) && apart(sh, b, m.l) && apart(sh, b, m.r) && apart(sh, m.l, b) && apart(sh, m.r, b) && apart(sh, m.l, a) && apart(sh, m.r, a)) by {
        reveal(merge_edit);
        reveal(structure_inv);
    }
    if a != m.l && a != m.p {
        lemma_merge_kind(pg, sh, pg2, sh2, m, relax, a);
    }
    if b != m.l && b != m.p {
        lemma_merge_kind(pg, sh, pg2, sh2, m, relax, b);
    }
    assert(image_inv(pg, sh, relax)) by {
        reveal(merge_edit);
    }
    lemma_descend(pg, sh, m.t, m.c, a, relax);
    lemma_descend(pg, sh, m.t, m.c, b, relax);
}

#[verifier::spinoff_prover]
proof fn lemma_merge_set(pg: Seq<Seq<u8>>, sh: Shape, pg2: Seq<Seq<u8>>, sh2: Shape, m: Merge, relax: Relax)
    requires
        merge_edit(pg, sh, pg2, sh2, m, relax),
    ensures
        entries_of(pg2, sh2, m.t as nat, m.c as nat) == entries_of(pg, sh, m.t as nat, m.c as nat),
{
    lemma_merge_frame(pg, sh, pg2, sh2, m, relax);
    let t = m.t as nat;
    let c = m.c as nat;
    let a = entries_of(pg, sh, t, c);
    let b = entries_of(pg2, sh2, t, c);
    let all = joined(pg, m);
    let nl = node_at(pg[m.l]).entries.len() as int;
    assert forall|e: (Seq<u8>, u32)| a.contains(e) == b.contains(e) by {
        if a.contains(e) {
            let (q, j) = choose|q: int, j: int| #[trigger] holds(pg, sh, t, c, q, j, e);
            if q == m.l || q == m.r {
                let g = if q == m.l { j } else { nl + j };
                assert(all[g] == node_at(pg[q]).entries[j]);
                assert(holds(pg2, sh2, t, c, m.l, g, e));
            } else {
                assert(q != m.p);
                lemma_merge_kind(pg, sh, pg2, sh2, m, relax, q);
                lemma_merge_pages(pg, sh, pg2, sh2, m, relax, q);
                assert(holds(pg2, sh2, t, c, q, j, e));
            }
        }
        if b.contains(e) {
            let (q, j) = choose|q: int, j: int| #[trigger] holds(pg2, sh2, t, c, q, j, e);
            if q == m.l {
                if j < nl {
                    assert(node_at(pg[m.l]).entries[j] == all[j]);
                    assert(holds(pg, sh, t, c, m.l, j, e));
                } else {
                    assert(node_at(pg[m.r]).entries[j - nl] == all[j]);
                    assert(holds(pg, sh, t, c, m.r, j - nl, e));
                }
            } else {
                assert(q != m.p && q != m.r);
                lemma_merge_kind(pg, sh, pg2, sh2, m, relax, q);
                lemma_merge_pages(pg, sh, pg2, sh2, m, relax, q);
                assert(holds(pg, sh, t, c, q, j, e));
            }
        }
    }
    assert(a =~= b);
}

#[verifier::spinoff_prover]
proof fn lemma_merge_rest(pg: Seq<Seq<u8>>, sh: Shape, pg2: Seq<Seq<u8>>, sh2: Shape, m: Merge, relax: Relax)
    requires
        merge_edit(pg, sh, pg2, sh2, m, relax),
        entries_of(pg2, sh2, m.t as nat, m.c as nat) == entries_of(pg, sh, m.t as nat, m.c as nat),
    ensures
        root_ok_at(pg2, sh2, m.t, m.c),
        table_of(pg2, m.t).cols[m.c].flags.unique ==> table_of(pg2, m.t).cols[m.c].index != NONE,
        unique_ok_at(pg2, sh2, m.t, m.c),
        relax_in(relax, sh, m.t, m.c),
        relax_in(merge_relax(pg2, sh2, m), sh2, m.t, m.c),
{
    lemma_merge_sides(pg, sh, pg2, sh2, m, relax);
    lemma_merge_table(pg, sh, pg2, sh2, m, relax);
    let root = root_of(pg, m.t, m.c);
    if root != m.p {
        assert(root != m.l && root != m.r);
        lemma_merge_kind(pg, sh, pg2, sh2, m, relax, root);
    }
}

/// What the merge leaves of the catalog and of the root.
#[verifier::spinoff_prover]
proof fn lemma_merge_table(pg: Seq<Seq<u8>>, sh: Shape, pg2: Seq<Seq<u8>>, sh2: Shape, m: Merge, relax: Relax)
    requires
        merge_edit(pg, sh, pg2, sh2, m, relax),
    ensures
        root_ok_at(pg, sh, m.t, m.c),
        unique_ok_at(pg, sh, m.t, m.c),
        table_of(pg2, m.t) == table_of(pg, m.t),
        sh2.trees == sh.trees,
        sh2.kinds[m.t] == sh.kinds[m.t],
        sh.kinds[m.t] is Table,
        0 <= m.t && 0 <= m.c,
        table_of(pg, m.t).cols[m.c].index != NONE,
        0 < root_of(pg, m.t, m.c) < pg.len(),
        in_tree(sh.kinds[root_of(pg, m.t, m.c)], m.t, m.c),
        node_parent(sh.kinds[root_of(pg, m.t, m.c)]) == root_of(pg, m.t, m.c),
        relax.over is None,
        relax.under == Some(m.l as nat) || relax.under == Some(m.r as nat),
        pg2.len() == pg.len(),
{
    lemma_merge_facts(pg, sh, pg2, sh2, m, relax);
    reveal(merge_edit);
    reveal(structure_inv);
    assert(page_ok(pg, sh, m.t, relax));
    assert(root_ok_at(pg, sh, m.t, m.c));
    assert(unique_ok_at(pg, sh, m.t, m.c));
    lemma_descend(pg, sh, m.t, m.c, root_of(pg, m.t, m.c), relax);
}

/// Merging two neighbouring children, one of which holds one entry too few,
/// leaves a tree that obeys the rules, but that the parent may now hold one
/// entry too few; the right child belongs to no structure; the entries of the
/// index are what they were.
#[verifier::spinoff_prover]
pub proof fn lemma_merge(pg: Seq<Seq<u8>>, sh: Shape, pg2: Seq<Seq<u8>>, sh2: Shape, m: Merge, relax: Relax)
    requires
        merge_edit(pg, sh, pg2, sh2, m, relax),
    ensures
        image_inv(pg2, sh2, merge_relax(pg2, sh2, m)),
        index_touch(pg, sh, pg2, sh2, m.t, m.c),
        entries_of(pg2, sh2, m.t as nat, m.c as nat) == entries_of(pg, sh, m.t as nat, m.c as nat),
        sh2.kinds[m.p] == sh.kinds[m.p],
        sh2.kinds[m.r] is Loose,
        sh2.trees == sh.trees,
        table_of(pg2, m.t) == table_of(pg, m.t),
        pg2.len() == pg.len(),
        node_at(pg2[m.p]).entries.len() == node_at(pg[m.p]).entries.len() - 1,
{
    let relax2 = merge_relax(pg2, sh2, m);
    lemma_merge_frame(pg, sh, pg2, sh2, m, relax);
    lemma_merge_pager(pg, sh, pg2, sh2, m, relax);
    lemma_merge_set(pg, sh, pg2, sh2, m, relax);
    lemma_merge_rest(pg, sh, pg2, sh2, m, relax);
    lemma_merge_parent(pg, sh, pg2, sh2, m, relax);
    lemma_merge_left(pg, sh, pg2, sh2, m, relax);
    assert forall|q: int| 0 <= q < pg2.len() && in_tree(#[trigger] sh2.kinds[q], m.t, m.c) implies node_ok(pg2, sh2, q, relax2) by {
        if q != m.p && q != m.l {
            lemma_merge_other(pg, sh, pg2, sh2, m, relax, q);
        }
    }
    assert forall|a: int, b: int| 0 <= a < pg2.len() && 0 <= b < pg2.len() && in_tree(sh2.kinds[a], m.t, m.c) && in_tree(sh2.kinds[b], m.t, m.c) implies #[trigger] apart(sh2, a, b) by {
        lemma_merge_apart(pg, sh, pg2, sh2, m, relax, a, b);
    }
    assert(image_inv(pg, sh, relax)) by {
        reveal(merge_edit);
    }
    lemma_index_touch(pg, sh, pg2, sh2, m.t, m.c, relax, relax2);
}

/// A merge touches the parent, its children and their children only: a node
/// higher up in the tree keeps its bytes and its role.
#[verifier::spinoff_prover]
pub proof fn lemma_merge_above(pg: Seq<Seq<u8>>, sh: Shape, pg2: Seq<Seq<u8>>, sh2: Shape, m: Merge, relax: Relax, q: int)
    requires
        merge_edit(pg, sh, pg2, sh2, m, relax),
        0 <= q < pg.len(),
        in_tree(sh.kinds[q], m.t, m.c),
        node_height(sh.kinds[q]) > node_height(sh.kinds[m.p]),
    ensures
        pg2[q] == pg[q],
        sh2.kinds[q] == sh.kinds[q],
        q < pg2.len(),
        q != m.r,
{
    lemma_merge_sides(pg, sh, pg2, sh2, m, relax);
    lemma_merge_kind(pg, sh, pg2, sh2, m, relax, q);
    lemma_merge_pages(pg, sh, pg2, sh2, m, relax, q);
    assert(image_inv(pg, sh, relax)) by {
        reveal(merge_edit);
    }
    lemma_descend(pg, sh, m.t, m.c, q, relax);
    if q != root_of(pg, m.t, m.c) {
        assert(parent_ok(pg, sh, q));
    }
    if node_at(pg[m.l]).leaf {
        lemma_merge_ring(pg, sh, pg2, sh2, m, relax, m.r);
    }
}

/// A merge leaves alone the pages that had no role before.
#[verifier::spinoff_prover]
pub proof fn lemma_merge_loose(pg: Seq<Seq<u8>>, sh: Shape, pg2: Seq<Seq<u8>>, sh2: Shape, m: Merge, relax: Relax)
    requires
        merge_edit(pg, sh, pg2, sh2, m, relax),
    ensures
        crate::db::loose_kept(pg, sh, pg2, sh2),
        !(sh.kinds[m.r] is Loose),
        sh.kinds[0] is Meta,
        pg2.len() == pg.len(),
{
    lemma_merge_sides(pg, sh, pg2, sh2, m, relax);
    lemma_merge_facts(pg, sh, pg2, sh2, m, relax);
    reveal(crate::db::loose_kept);
    assert forall|x: int| 0 <= x < pg.len() && (#[trigger] sh.kinds[x]) is Loose implies x < pg2.len() && sh2.kinds[x] is Loose && pg2[x] == pg[x] by {
        assert(x != m.l && x != m.r && x != m.p);
        lemma_merge_kind(pg, sh, pg2, sh2, m, relax, x);
        lemma_merge_pages(pg, sh, pg2, sh2, m, relax, x);
        if node_at(pg[m.l]).leaf && x == node_at(pg[m.r]).next {
            assert(in_tree(sh.kinds[x], m.t, m.c));
        }
    }
}

} // verus!
