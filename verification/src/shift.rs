//! Moving entries between two neighbouring children of one node.

use vstd::prelude::*;
use crate::shape::tight;
use crate::frames::{in_tree, index_touch, lemma_index_touch, relax_in};
use crate::layout::{MAX_PAGE, NONE, PAGE_SIZE};
use crate::node::{EntryV, NodeV, fit, node_at};
use crate::release::{node_height, node_hi, node_lo};
use crate::search::keyed;
use crate::shape::{Kind, Relax, Shape, apart, child_ok, entries_of, free_ok_at, holds, image_inv, is_structural, leaf_links_ok, min_fill, node_ok, over, page_ok, pager_inv, parent_ok, rank_of, root_ok_at, sorted, structure_inv, table_of, under, unique_ok_at, within};
use crate::tree::{lemma_descend, node_parent, node_slot, ranged, rehung, root_of, width_of};

verus! {

/// What a shift works on: the children `l` and `r` at positions `i` and `i + 1`
/// of the node `p`, and the number `k` of entries that `l` is to hold.
pub struct Shift {
    pub t: int,
    pub c: int,
    pub p: int,
    pub i: int,
    pub l: int,
    pub r: int,
    pub k: int,
}

/// The entries of both children, in order.
pub open spec fn both(pg: Seq<Seq<u8>>, s: Shift) -> Seq<EntryV> {
    node_at(pg[s.l]).entries + node_at(pg[s.r]).entries
}

/// The first entry of the right child after the shift, which becomes its
/// separator.
pub open spec fn pivot(pg: Seq<Seq<u8>>, s: Shift) -> EntryV {
    both(pg, s)[s.k]
}

/// The shape after the shift: the range of the left child ends, and the range
/// of the right child starts, at the new separator; the children of the
/// entries that changed sides hang below their new node.
pub open spec fn shift_shape(pg: Seq<Seq<u8>>, sh: Shape, s: Shift) -> Shape {
    let nl = node_at(pg[s.l]).entries.len() as int;
    let r0 = rank_of(pivot(pg, s));
    Shape {
        kinds: Seq::new(
            sh.kinds.len(),
            |x: int|
                if x == s.p {
                    sh.kinds[x]
                } else if x == s.l {
                    ranged(sh.kinds[x], node_lo(sh.kinds[x]), r0)
                } else if x == s.r {
                    ranged(sh.kinds[x], r0, node_hi(sh.kinds[x]))
                } else if in_tree(sh.kinds[x], s.t, s.c) && node_parent(sh.kinds[x]) == s.l {
                    if node_slot(sh.kinds[x]) >= s.k {
                        rehung(sh.kinds[x], s.r, node_slot(sh.kinds[x]) - s.k)
                    } else {
                        sh.kinds[x]
                    }
                } else if in_tree(sh.kinds[x], s.t, s.c) && node_parent(sh.kinds[x]) == s.r {
                    if nl + node_slot(sh.kinds[x]) < s.k {
                        rehung(sh.kinds[x], s.l, nl + node_slot(sh.kinds[x]))
                    } else {
                        rehung(sh.kinds[x], s.r, nl + node_slot(sh.kinds[x]) - s.k)
                    }
                } else {
                    sh.kinds[x]
                },
        ),
        ..sh
    }
}

/// How the pages change when entries are shifted between the two children.
#[verifier::opaque]
pub open spec fn shift_written(pg: Seq<Seq<u8>>, pg2: Seq<Seq<u8>>, s: Shift) -> bool {
    let all = both(pg, s);
    let e = pivot(pg, s);
    &&& pg2.len() == pg.len()
    &&& forall|q: int| 0 <= q < pg2.len() && q != s.l && q != s.r && q != s.p ==> #[trigger] pg2[q] == pg[q]
    &&& pg2[s.l].len() == PAGE_SIZE
    &&& pg2[s.r].len() == PAGE_SIZE
    &&& pg2[s.p].len() == PAGE_SIZE
    &&& node_at(pg2[s.l]) == (NodeV { entries: all.subrange(0, s.k), ..node_at(pg[s.l]) })
    &&& node_at(pg2[s.r]) == (NodeV { entries: all.subrange(s.k, all.len() as int), ..node_at(pg[s.r]) })
    &&& node_at(pg2[s.p]) == (NodeV {
        entries: node_at(pg[s.p]).entries.update(s.i + 1, EntryV { key: e.key, rid: e.rid, child: s.r as u32 }),
        ..node_at(pg[s.p])
    })
}

/// What the lemmas about a shift ask: the rules hold but for one of the two
/// children, which holds one entry too few; after the shift both hold enough.
#[verifier::opaque]
pub open spec fn shift_edit(pg: Seq<Seq<u8>>, sh: Shape, pg2: Seq<Seq<u8>>, sh2: Shape, s: Shift, relax: Relax) -> bool {
    let cap = sh.trees[(s.t as nat, s.c as nat)].cap as int;
    let all = both(pg, s);
    &&& image_inv(pg, sh, relax)
    &&& relax.over is None
    &&& relax.under == Some(s.l as nat) || relax.under == Some(s.r as nat)
    &&& 0 < s.p < pg.len()
    &&& in_tree(sh.kinds[s.p], s.t, s.c)
    &&& node_height(sh.kinds[s.p]) > 0
    &&& 0 <= s.i
    &&& s.i + 1 < node_at(pg[s.p]).entries.len()
    &&& s.l == node_at(pg[s.p]).entries[s.i].child
    &&& s.r == node_at(pg[s.p]).entries[s.i + 1].child
    &&& min_fill(cap) <= s.k <= cap
    &&& min_fill(cap) <= all.len() - s.k <= cap
    &&& shift_written(pg, pg2, s)
    &&& sh2 == shift_shape(pg, sh, s)
}

/// The facts about a shift that the lemmas share.
pub open spec fn shift_facts(pg: Seq<Seq<u8>>, sh: Shape, pg2: Seq<Seq<u8>>, sh2: Shape, s: Shift, relax: Relax) -> bool {
    let lv = node_at(pg[s.l]);
    let rv = node_at(pg[s.r]);
    let pv = node_at(pg[s.p]);
    let all = both(pg, s);
    let nl = lv.entries.len() as int;
    let tree = sh.trees[(s.t as nat, s.c as nat)];
    let ks = width_of(pg, s.t, s.c);
    let h = node_height(sh.kinds[s.p]);
    let r0 = rank_of(pivot(pg, s));
    &&& 0 < s.p < pg.len()
    &&& 0 < s.l < pg.len()
    &&& 0 < s.r < pg.len()
    &&& 0 < s.t < pg.len()
    &&& pg.len() <= MAX_PAGE
    &&& pg2.len() == pg.len()
    &&& sh.kinds.len() == pg.len()
    &&& sh2.kinds.len() == pg.len()
    &&& s.l != s.r
    &&& s.l != s.p
    &&& s.r != s.p
    &&& s.t != s.p
    &&& s.t != s.l
    &&& s.t != s.r
    &&& sh.kinds[s.t] is Table
    &&& sh2.kinds[s.t] == sh.kinds[s.t]
    &&& sh.kinds[0] is Meta
    &&& sh2.kinds[0] is Meta
    &&& 0 <= s.c < table_of(pg, s.t).cols.len()
    &&& table_of(pg2, s.t) == table_of(pg, s.t)
    &&& sh2.trees == sh.trees
    &&& sh2.heaps == sh.heaps
    &&& sh2.free == sh.free
    &&& pager_inv(pg, sh)
    &&& pg2[s.l].len() == PAGE_SIZE
    &&& pg2[s.r].len() == PAGE_SIZE
    &&& pg2[s.p].len() == PAGE_SIZE
    &&& in_tree(sh.kinds[s.p], s.t, s.c)
    &&& h > 0
    &&& 0 <= s.i
    &&& s.i + 1 < pv.entries.len()
    &&& s.l == pv.entries[s.i].child
    &&& s.r == pv.entries[s.i + 1].child
    &&& sh2.kinds[s.p] == sh.kinds[s.p]
    &&& sh.kinds[s.l] == (Kind::Node {
        table: s.t as nat,
        col: s.c as nat,
        height: (h - 1) as nat,
        parent: s.p as nat,
        slot: s.i as nat,
        lo: rank_of(pv.entries[s.i]),
        hi: rank_of(pv.entries[s.i + 1]),
    })
    &&& sh.kinds[s.r] == (Kind::Node {
        table: s.t as nat,
        col: s.c as nat,
        height: (h - 1) as nat,
        parent: s.p as nat,
        slot: (s.i + 1) as nat,
        lo: rank_of(pv.entries[s.i + 1]),
        hi: if s.i + 2 < pv.entries.len() { rank_of(pv.entries[s.i + 2]) } else { node_hi(sh.kinds[s.p]) },
    })
    &&& sh2.kinds[s.l] == ranged(sh.kinds[s.l], node_lo(sh.kinds[s.l]), r0)
    &&& sh2.kinds[s.r] == ranged(sh.kinds[s.r], r0, node_hi(sh.kinds[s.r]))
    &&& node_ok(pg, sh, s.p, relax)
    &&& node_ok(pg, sh, s.l, relax)
    &&& node_ok(pg, sh, s.r, relax)
    &&& 3 <= tree.cap < fit(ks as int, false)
    &&& relax.over is None
    &&& relax.under == Some(s.l as nat) || relax.under == Some(s.r as nat)
    &&& min_fill(tree.cap as int) <= s.k <= tree.cap
    &&& min_fill(tree.cap as int) <= all.len() - s.k <= tree.cap
    &&& 1 <= s.k < all.len()
    &&& all.len() == nl + rv.entries.len()
    &&& sorted(all)
    &&& within(all, node_lo(sh.kinds[s.l]), node_hi(sh.kinds[s.r]))
    &&& node_lo(sh.kinds[s.l]) < r0 < node_hi(sh.kinds[s.r])
    &&& keyed(all, ks as int)
    &&& lv.leaf == rv.leaf
    &&& lv.leaf == (h == 1)
    &&& node_at(pg2[s.l]) == (NodeV { entries: all.subrange(0, s.k), ..lv })
    &&& node_at(pg2[s.r]) == (NodeV { entries: all.subrange(s.k, all.len() as int), ..rv })
    &&& node_at(pg2[s.p]) == (NodeV { entries: pv.entries.update(s.i + 1, EntryV { key: pivot(pg, s).key, rid: pivot(pg, s).rid, child: s.r as u32 }), ..pv })
    &&& forall|q: int| 0 <= q < pg.len() && q != s.l && q != s.r && q != s.p ==> #[trigger] pg2[q] == pg[q]
}

#[verifier::spinoff_prover]
pub proof fn lemma_shift_facts(pg: Seq<Seq<u8>>, sh: Shape, pg2: Seq<Seq<u8>>, sh2: Shape, s: Shift, relax: Relax)
    requires
        shift_edit(pg, sh, pg2, sh2, s, relax),
    ensures
        shift_facts(pg, sh, pg2, sh2, s, relax),
{
    reveal(shift_edit);
    reveal(shift_written);
    lemma_descend(pg, sh, s.t, s.c, s.p, relax);
    assert(child_ok(pg, sh, s.p, s.i));
    assert(child_ok(pg, sh, s.p, s.i + 1));
    lemma_descend(pg, sh, s.t, s.c, s.l, relax);
    lemma_descend(pg, sh, s.t, s.c, s.r, relax);
    let lv = node_at(pg[s.l]);
    let rv = node_at(pg[s.r]);
    let all = both(pg, s);
    let nl = lv.entries.len() as int;
    let tree = sh.trees[(s.t as nat, s.c as nat)];
    assert(sh.kinds[s.t] is Table && 0 < s.t < pg.len() && 3 <= tree.cap < fit(width_of(pg, s.t, s.c) as int, false) && s.p != s.t && s.l != s.t && s.r != s.t && 0 <= s.c < table_of(pg, s.t).cols.len()
        && sh.kinds[0] is Meta) by {
        reveal(structure_inv);
        assert(page_ok(pg, sh, s.t, relax));
        assert(root_ok_at(pg, sh, s.t, s.c));
    }
    assert forall|a: int, b: int| 0 <= a < b < all.len() implies rank_of(#[trigger] all[a]) < rank_of(#[trigger] all[b]) by {
        if b < nl {
            assert(rank_of(lv.entries[a]) < rank_of(lv.entries[b]));
        } else if a >= nl {
            assert(rank_of(rv.entries[a - nl]) < rank_of(rv.entries[b - nl]));
        } else {
            assert(rank_of(lv.entries[a]) < node_hi(sh.kinds[s.l]));
            assert(rank_of(rv.entries[b - nl]) >= node_lo(sh.kinds[s.r]));
        }
    }
    assert forall|j: int| 0 <= j < all.len() implies node_lo(sh.kinds[s.l]) <= rank_of(#[trigger] all[j]) < node_hi(sh.kinds[s.r]) by {
        if j < nl {
            assert(node_lo(sh.kinds[s.l]) <= rank_of(lv.entries[j]) < node_hi(sh.kinds[s.l]));
        } else {
            assert(node_lo(sh.kinds[s.r]) <= rank_of(rv.entries[j - nl]) < node_hi(sh.kinds[s.r]));
        }
    }
    assert(rank_of(all[0]) < rank_of(all[s.k]));
    assert forall|j: int| 0 <= j < all.len() implies (#[trigger] all[j]).key.len() == width_of(pg, s.t, s.c) by {
        if j < nl {
            assert(lv.entries[j].key.len() == width_of(pg, s.t, s.c));
        } else {
            assert(rv.entries[j - nl].key.len() == width_of(pg, s.t, s.c));
        }
    }
}

/// What a shift leaves alone.
#[verifier::spinoff_prover]
proof fn lemma_shift_frame(pg: Seq<Seq<u8>>, sh: Shape, pg2: Seq<Seq<u8>>, sh2: Shape, s: Shift, relax: Relax)
    requires
        shift_edit(pg, sh, pg2, sh2, s, relax),
    ensures
        pager_inv(pg, sh),
        pg2.len() == pg.len(),
        sh2.kinds.len() == sh.kinds.len(),
        sh2.free == sh.free,
        sh2.heaps == sh.heaps,
        sh2.trees == sh.trees,
        forall|q: int| 0 <= q < pg.len() && q != s.l && q != s.r && q != s.p ==> #[trigger] pg2[q] == pg[q],
        pg2[s.l].len() == PAGE_SIZE,
        pg2[s.r].len() == PAGE_SIZE,
        pg2[s.p].len() == PAGE_SIZE,
        0 < s.p < pg.len() && in_tree(sh.kinds[s.p], s.t, s.c),
        0 < s.l < pg.len() && in_tree(sh.kinds[s.l], s.t, s.c),
        0 < s.r < pg.len() && in_tree(sh.kinds[s.r], s.t, s.c),
        in_tree(sh2.kinds[s.p], s.t, s.c),
        in_tree(sh2.kinds[s.l], s.t, s.c),
        in_tree(sh2.kinds[s.r], s.t, s.c),
        0 < s.t < pg.len() && sh.kinds[s.t] is Table,
        sh2.kinds[s.t] == sh.kinds[s.t],
        0 <= s.c < table_of(pg, s.t).cols.len(),
        table_of(pg2, s.t) == table_of(pg, s.t),
        s.t != s.p && s.t != s.l && s.t != s.r,
{
    lemma_shift_facts(pg, sh, pg2, sh2, s, relax);
}

#[verifier::spinoff_prover]
proof fn lemma_shift_pager(pg: Seq<Seq<u8>>, sh: Shape, pg2: Seq<Seq<u8>>, sh2: Shape, s: Shift, relax: Relax)
    requires
        shift_edit(pg, sh, pg2, sh2, s, relax),
    ensures
        pager_inv(pg2, sh2),
        index_touch(pg, sh, pg2, sh2, s.t, s.c),
{
    lemma_shift_frame(pg, sh, pg2, sh2, s, relax);
    assert forall|x: int| 0 <= x < pg.len() && !in_tree(#[trigger] sh.kinds[x], s.t, s.c) implies sh2.kinds[x] == sh.kinds[x] by {
        lemma_shift_kind(pg, sh, pg2, sh2, s, relax, x);
    }
    assert forall|x: int| 0 <= x < pg.len() && in_tree(#[trigger] sh.kinds[x], s.t, s.c) implies in_tree(sh2.kinds[x], s.t, s.c) by {
        if x != s.p && x != s.l && x != s.r {
            lemma_shift_kind(pg, sh, pg2, sh2, s, relax, x);
        }
    }
    assert forall|x: int| 0 <= x < pg.len() implies (#[trigger] sh2.kinds[x]) == sh.kinds[x] || in_tree(sh2.kinds[x], s.t, s.c) by {
        if in_tree(sh.kinds[x], s.t, s.c) {
        }
    }
    assert forall|k: int| 0 <= k < sh2.free.len() implies #[trigger] free_ok_at(pg2, sh2, k) by {
        assert(free_ok_at(pg, sh, k));
    }
    assert(pg2[0] == pg[0]);
    assert(pager_inv(pg2, sh2));
    assert forall|x: int| 0 <= x < pg2.len() && x != s.t && is_structural(#[trigger] sh2.kinds[x]) && !in_tree(sh2.kinds[x], s.t, s.c) implies x < pg.len() && sh.kinds[x] == sh2.kinds[x] by {
        assert(!in_tree(sh.kinds[x], s.t, s.c));
    }
}

/// The role of a node other than the parent and the two children after the
/// shift.
#[verifier::spinoff_prover]
proof fn lemma_shift_kind(pg: Seq<Seq<u8>>, sh: Shape, pg2: Seq<Seq<u8>>, sh2: Shape, s: Shift, relax: Relax, x: int)
    requires
        shift_edit(pg, sh, pg2, sh2, s, relax),
        0 <= x < pg.len(),
        x != s.p,
        x != s.l,
        x != s.r,
    ensures
        !in_tree(sh.kinds[x], s.t, s.c) ==> sh2.kinds[x] == sh.kinds[x],
        in_tree(sh.kinds[x], s.t, s.c) ==> sh2.kinds[x] == rehung(sh.kinds[x], node_parent(sh2.kinds[x]), node_slot(sh2.kinds[x])),
        in_tree(sh.kinds[x], s.t, s.c) && node_parent(sh.kinds[x]) != s.l && node_parent(sh.kinds[x]) != s.r ==> sh2.kinds[x] == sh.kinds[x],
        in_tree(sh.kinds[x], s.t, s.c) && node_parent(sh.kinds[x]) == s.l ==> sh2.kinds[x] == (if node_slot(sh.kinds[x]) >= s.k {
            rehung(sh.kinds[x], s.r, node_slot(sh.kinds[x]) - s.k)
        } else {
            sh.kinds[x]
        }),
        in_tree(sh.kinds[x], s.t, s.c) && node_parent(sh.kinds[x]) == s.r ==> sh2.kinds[x] == (if node_at(pg[s.l]).entries.len() + node_slot(sh.kinds[x]) < s.k {
            rehung(sh.kinds[x], s.l, node_at(pg[s.l]).entries.len() + node_slot(sh.kinds[x]))
        } else {
            rehung(sh.kinds[x], s.r, node_at(pg[s.l]).entries.len() + node_slot(sh.kinds[x]) - s.k)
        }),
{
    lemma_shift_facts(pg, sh, pg2, sh2, s, relax);
    reveal(shift_edit);
}

#[verifier::spinoff_prover]
proof fn lemma_shift_parent(pg: Seq<Seq<u8>>, sh: Shape, pg2: Seq<Seq<u8>>, sh2: Shape, s: Shift, relax: Relax)
    requires
        shift_edit(pg, sh, pg2, sh2, s, relax),
    ensures
        node_ok(pg2, sh2, s.p, tight()),
{
    lemma_shift_facts(pg, sh, pg2, sh2, s, relax);
    let es = node_at(pg[s.p]).entries;
    let es2 = node_at(pg2[s.p]).entries;
    let r0 = rank_of(pivot(pg, s));
    let i = s.i;
    assert(rank_of(es2[i + 1]) == r0);
    assert forall|a: int, b: int| 0 <= a < b < es2.len() implies rank_of(#[trigger] es2[a]) < rank_of(#[trigger] es2[b]) by {
        if a != i + 1 && b != i + 1 {
            assert(rank_of(es[a]) < rank_of(es[b]));
        } else if a == i + 1 {
            assert(es2[b] == es[b]);
            if b > i + 2 {
                assert(rank_of(es[i + 2]) < rank_of(es[b]));
            }
        } else {
            assert(es2[a] == es[a]);
            if a < i {
                assert(rank_of(es[a]) < rank_of(es[i]));
            }
        }
    }
    assert forall|k: int| 0 <= k < es2.len() implies node_lo(sh.kinds[s.p]) <= rank_of(#[trigger] es2[k]) < node_hi(sh.kinds[s.p]) by {
        if k != i + 1 {
            assert(node_lo(sh.kinds[s.p]) <= rank_of(es[k]) < node_hi(sh.kinds[s.p]));
        } else {
            assert(node_lo(sh.kinds[s.p]) <= rank_of(es[i]));
            if i + 2 < es.len() {
                assert(rank_of(es[i + 2]) < node_hi(sh.kinds[s.p]));
            }
        }
    }
    assert(es2[0] == es[0]);
    assert forall|j: int| 0 <= j < es2.len() implies #[trigger] child_ok(pg2, sh2, s.p, j) by {
        assert(child_ok(pg, sh, s.p, j));
        if j != i && j != i + 1 {
            let x = es[j].child as int;
            assert(child_ok(pg, sh, s.p, i));
            assert(child_ok(pg, sh, s.p, i + 1));
            assert(x != s.l && x != s.r && x != s.p);
            lemma_shift_kind(pg, sh, pg2, sh2, s, relax, x);
            assert(es2[j] == es[j]);
            if j + 1 < es2.len() && j + 1 != i + 1 {
                assert(es2[j + 1] == es[j + 1]);
            }
        } else if j == i {
            assert(es2[i] == es[i]);
        } else {
            if i + 2 < es2.len() {
                assert(es2[i + 2] == es[i + 2]);
            }
        }
    }
    if s.p != root_of(pg, s.t, s.c) {
        assert(parent_ok(pg, sh, s.p));
        let up = node_parent(sh.kinds[s.p]);
        assert(image_inv(pg, sh, relax)) by {
            reveal(shift_edit);
        }
        lemma_descend(pg, sh, s.t, s.c, up, relax);
        assert(up != s.l && up != s.r);
        lemma_shift_kind(pg, sh, pg2, sh2, s, relax, up);
        assert(parent_ok(pg2, sh2, s.p));
    }
}

/// In the ring of leaves the left child leads on to the right child and to no
/// other leaf, and no other leaf leads on to the right child or back to the
/// left.
#[verifier::spinoff_prover]
proof fn lemma_shift_ring(pg: Seq<Seq<u8>>, sh: Shape, pg2: Seq<Seq<u8>>, sh2: Shape, s: Shift, relax: Relax, q: int)
    requires
        shift_edit(pg, sh, pg2, sh2, s, relax),
        node_at(pg[s.l]).leaf,
        0 < q < pg.len(),
        in_tree(sh.kinds[q], s.t, s.c),
        node_height(sh.kinds[q]) == 0,
    ensures
        q == s.l ==> node_at(pg[q]).next == s.r && node_at(pg[q]).prev != s.l,
        q == s.r ==> node_at(pg[q]).prev == s.l && node_at(pg[q]).next != s.r,
        q != s.l ==> node_at(pg[q]).next != s.r,
        q != s.r ==> node_at(pg[q]).prev != s.l,
        leaf_links_ok(pg, sh, q, width_of(pg, s.t, s.c)),
{
    lemma_shift_facts(pg, sh, pg2, sh2, s, relax);
    assert(image_inv(pg, sh, relax)) by {
        reveal(shift_edit);
    }
    let ks = width_of(pg, s.t, s.c);
    lemma_descend(pg, sh, s.t, s.c, q, relax);
    assert(leaf_links_ok(pg, sh, q, ks));
    let nx = node_at(pg[q]).next as int;
    let pv = node_at(pg[q]).prev as int;
    lemma_descend(pg, sh, s.t, s.c, nx, relax);
    lemma_descend(pg, sh, s.t, s.c, pv, relax);
    reveal(structure_inv);
    assert(apart(sh, nx, s.r));
    assert(apart(sh, pv, s.l));
    assert(apart(sh, q, s.l));
    assert(apart(sh, q, s.r));
}

#[verifier::spinoff_prover]
proof fn lemma_shift_left(pg: Seq<Seq<u8>>, sh: Shape, pg2: Seq<Seq<u8>>, sh2: Shape, s: Shift, relax: Relax)
    requires
        shift_edit(pg, sh, pg2, sh2, s, relax),
    ensures
        node_ok(pg2, sh2, s.l, tight()),
{
    lemma_shift_facts(pg, sh, pg2, sh2, s, relax);
    let lv = node_at(pg[s.l]);
    let all = both(pg, s);
    let nl = lv.entries.len() as int;
    let es2 = node_at(pg2[s.l]).entries;
    let r0 = rank_of(pivot(pg, s));
    let ks = width_of(pg, s.t, s.c);
    assert(nl >= 1);
    assert(es2[0] == lv.entries[0]);
    assert forall|a: int, b: int| 0 <= a < b < es2.len() implies rank_of(#[trigger] es2[a]) < rank_of(#[trigger] es2[b]) by {
        assert(rank_of(all[a]) < rank_of(all[b]));
    }
    assert forall|j: int| 0 <= j < es2.len() implies node_lo(sh.kinds[s.l]) <= rank_of(#[trigger] es2[j]) < r0 by {
        assert(node_lo(sh.kinds[s.l]) <= rank_of(all[j]));
        assert(rank_of(all[j]) < rank_of(all[s.k]));
    }
    assert(parent_ok(pg2, sh2, s.l)) by {
        assert(node_at(pg2[s.p]).entries[s.i] == node_at(pg[s.p]).entries[s.i]);
    }
    if lv.leaf {
        lemma_shift_ring(pg, sh, pg2, sh2, s, relax, s.l);
        let pv = lv.prev as int;
        if pv != s.r {
            lemma_shift_kind(pg, sh, pg2, sh2, s, relax, pv);
        }
        assert(leaf_links_ok(pg2, sh2, s.l, ks));
    } else {
        assert forall|j: int| 0 <= j < es2.len() implies #[trigger] child_ok(pg2, sh2, s.l, j) by {
            lemma_shift_child(pg, sh, pg2, sh2, s, relax, j);
        }
    }
}

/// Before the shift the child of entry `j` of both children's entries hangs
/// below the node that holds that entry, with the range from that entry to the
/// next.
spec fn hangs(pg: Seq<Seq<u8>>, sh: Shape, s: Shift, j: int) -> bool {
    let all = both(pg, s);
    let nl = node_at(pg[s.l]).entries.len() as int;
    let x = all[j].child as int;
    &&& 0 < x < pg.len()
    &&& x != s.p && x != s.l && x != s.r
    &&& sh.kinds[x] == (Kind::Node {
        table: s.t as nat,
        col: s.c as nat,
        height: (node_height(sh.kinds[s.l]) - 1) as nat,
        parent: if j < nl { s.l as nat } else { s.r as nat },
        slot: if j < nl { j as nat } else { (j - nl) as nat },
        lo: rank_of(all[j]),
        hi: if j + 1 < all.len() { rank_of(all[j + 1]) } else { node_hi(sh.kinds[s.r]) },
    })
}

#[verifier::spinoff_prover]
proof fn lemma_shift_hangs(pg: Seq<Seq<u8>>, sh: Shape, pg2: Seq<Seq<u8>>, sh2: Shape, s: Shift, relax: Relax, j: int)
    requires
        shift_edit(pg, sh, pg2, sh2, s, relax),
        !node_at(pg[s.l]).leaf,
        0 <= j < both(pg, s).len(),
    ensures
        hangs(pg, sh, s, j),
{
    lemma_shift_facts(pg, sh, pg2, sh2, s, relax);
    let lv = node_at(pg[s.l]);
    let rv = node_at(pg[s.r]);
    let all = both(pg, s);
    let nl = lv.entries.len() as int;
    if j < nl {
        assert(child_ok(pg, sh, s.l, j));
        assert(all[j] == lv.entries[j]);
        if j + 1 < nl {
            assert(all[j + 1] == lv.entries[j + 1]);
        } else {
            assert(all[j + 1] == rv.entries[0]);
        }
    } else {
        assert(child_ok(pg, sh, s.r, j - nl));
        assert(all[j] == rv.entries[j - nl]);
        if j + 1 < all.len() {
            assert(all[j + 1] == rv.entries[j - nl + 1]);
        }
    }
}

/// After the shift the child of entry `j` of both children's entries hangs
/// below the node that holds that entry, at the position of the entry.
#[verifier::spinoff_prover]
proof fn lemma_shift_child(pg: Seq<Seq<u8>>, sh: Shape, pg2: Seq<Seq<u8>>, sh2: Shape, s: Shift, relax: Relax, j: int)
    requires
        shift_edit(pg, sh, pg2, sh2, s, relax),
        !node_at(pg[s.l]).leaf,
        0 <= j < both(pg, s).len(),
    ensures
        j < s.k ==> child_ok(pg2, sh2, s.l, j),
        j >= s.k ==> child_ok(pg2, sh2, s.r, j - s.k),
{
    lemma_shift_hangs(pg, sh, pg2, sh2, s, relax, j);
    lemma_shift_sides(pg, sh, pg2, sh2, s, relax);
    let all = both(pg, s);
    let x = all[j].child as int;
    lemma_shift_kind(pg, sh, pg2, sh2, s, relax, x);
    if j < s.k {
        assert(node_at(pg2[s.l]).entries[j] == all[j]);
        if j + 1 < s.k {
            assert(node_at(pg2[s.l]).entries[j + 1] == all[j + 1]);
        }
    } else {
        assert(node_at(pg2[s.r]).entries[j - s.k] == all[j]);
        if j + 1 < all.len() {
            assert(node_at(pg2[s.r]).entries[j - s.k + 1] == all[j + 1]);
        }
    }
}

#[verifier::spinoff_prover]
proof fn lemma_shift_right(pg: Seq<Seq<u8>>, sh: Shape, pg2: Seq<Seq<u8>>, sh2: Shape, s: Shift, relax: Relax)
    requires
        shift_edit(pg, sh, pg2, sh2, s, relax),
    ensures
        node_ok(pg2, sh2, s.r, tight()),
{
    lemma_shift_facts(pg, sh, pg2, sh2, s, relax);
    let rv = node_at(pg[s.r]);
    let all = both(pg, s);
    let es2 = node_at(pg2[s.r]).entries;
    let r0 = rank_of(pivot(pg, s));
    let ks = width_of(pg, s.t, s.c);
    assert(es2[0] == all[s.k]);
    assert forall|a: int, b: int| 0 <= a < b < es2.len() implies rank_of(#[trigger] es2[a]) < rank_of(#[trigger] es2[b]) by {
        assert(rank_of(all[a + s.k]) < rank_of(all[b + s.k]));
    }
    assert forall|j: int| 0 <= j < es2.len() implies r0 <= rank_of(#[trigger] es2[j]) < node_hi(sh.kinds[s.r]) by {
        assert(rank_of(all[j + s.k]) < node_hi(sh.kinds[s.r]));
        if j > 0 {
            assert(rank_of(all[s.k]) < rank_of(all[j + s.k]));
        }
    }
    assert(parent_ok(pg2, sh2, s.r));
    assert(s.r != root_of(pg, s.t, s.c) && s.l != root_of(pg, s.t, s.c));
    if rv.leaf {
        lemma_shift_ring(pg, sh, pg2, sh2, s, relax, s.r);
        let nx = rv.next as int;
        if nx != s.l {
            lemma_shift_kind(pg, sh, pg2, sh2, s, relax, nx);
        }
        assert(leaf_links_ok(pg2, sh2, s.r, ks));
    } else {
        assert forall|j: int| 0 <= j < es2.len() implies #[trigger] child_ok(pg2, sh2, s.r, j) by {
            lemma_shift_child(pg, sh, pg2, sh2, s, relax, j + s.k);
        }
    }
}

/// A node other than the parent and the two children still finds itself in its
/// parent after the shift.
#[verifier::spinoff_prover]
proof fn lemma_shift_hung(pg: Seq<Seq<u8>>, sh: Shape, pg2: Seq<Seq<u8>>, sh2: Shape, s: Shift, relax: Relax, q: int)
    requires
        shift_edit(pg, sh, pg2, sh2, s, relax),
        0 < q < pg.len(),
        in_tree(sh.kinds[q], s.t, s.c),
        q != s.p,
        q != s.l,
        q != s.r,
        q != root_of(pg, s.t, s.c),
    ensures
        parent_ok(pg2, sh2, q),
{
    lemma_shift_facts(pg, sh, pg2, sh2, s, relax);
    assert(image_inv(pg, sh, relax)) by {
        reveal(shift_edit);
    }
    lemma_descend(pg, sh, s.t, s.c, q, relax);
    assert(parent_ok(pg, sh, q));
    let up = node_parent(sh.kinds[q]);
    let slot = node_slot(sh.kinds[q]);
    let all = both(pg, s);
    let nl = node_at(pg[s.l]).entries.len() as int;
    lemma_shift_kind(pg, sh, pg2, sh2, s, relax, q);
    if up == s.p {
        assert(child_ok(pg, sh, s.p, slot));
        assert(slot != s.i && slot != s.i + 1);
        assert(node_at(pg2[s.p]).entries[slot] == node_at(pg[s.p]).entries[slot]);
    } else if up == s.l {
        assert(all[slot] == node_at(pg[s.l]).entries[slot]);
        if slot >= s.k {
            assert(node_at(pg2[s.r]).entries[slot - s.k] == all[slot]);
        } else {
            assert(node_at(pg2[s.l]).entries[slot] == all[slot]);
        }
    } else if up == s.r {
        assert(all[nl + slot] == node_at(pg[s.r]).entries[slot]);
        if nl + slot < s.k {
            assert(node_at(pg2[s.l]).entries[nl + slot] == all[nl + slot]);
        } else {
            assert(node_at(pg2[s.r]).entries[nl + slot - s.k] == all[nl + slot]);
        }
    } else {
        lemma_descend(pg, sh, s.t, s.c, up, relax);
        lemma_shift_kind(pg, sh, pg2, sh2, s, relax, up);
    }
}

/// The ranges and the entries of the two children before and after the shift.
#[verifier::spinoff_prover]
proof fn lemma_shift_sides(pg: Seq<Seq<u8>>, sh: Shape, pg2: Seq<Seq<u8>>, sh2: Shape, s: Shift, relax: Relax)
    requires
        shift_edit(pg, sh, pg2, sh2, s, relax),
    ensures
        0 < s.l < pg.len() && 0 < s.r < pg.len() && 0 < s.p < pg.len(),
        s.l != s.r && s.l != s.p && s.r != s.p,
        pg2.len() == pg.len(),
        sh2.kinds.len() == pg.len(),
        sh.kinds.len() == pg.len(),
        in_tree(sh.kinds[s.l], s.t, s.c) && in_tree(sh.kinds[s.r], s.t, s.c) && in_tree(sh.kinds[s.p], s.t, s.c),
        node_parent(sh.kinds[s.l]) == s.p && node_parent(sh.kinds[s.r]) == s.p,
        node_height(sh.kinds[s.l]) == node_height(sh.kinds[s.r]),
        node_height(sh.kinds[s.l]) + 1 == node_height(sh.kinds[s.p]),
        node_hi(sh.kinds[s.l]) == node_lo(sh.kinds[s.r]),
        sh2.kinds[s.l] == ranged(sh.kinds[s.l], node_lo(sh.kinds[s.l]), rank_of(pivot(pg, s))),
        sh2.kinds[s.r] == ranged(sh.kinds[s.r], rank_of(pivot(pg, s)), node_hi(sh.kinds[s.r])),
        sh2.kinds[s.p] == sh.kinds[s.p],
        node_lo(sh.kinds[s.l]) < rank_of(pivot(pg, s)) < node_hi(sh.kinds[s.r]),
        node_at(pg2[s.l]).entries == both(pg, s).subrange(0, s.k),
        node_at(pg2[s.r]).entries == both(pg, s).subrange(s.k, both(pg, s).len() as int),
        0 < s.k < both(pg, s).len(),
        both(pg, s).len() == node_at(pg[s.l]).entries.len() + node_at(pg[s.r]).entries.len(),
        forall|q: int| 0 <= q < pg.len() && q != s.l && q != s.r && q != s.p ==> #[trigger] pg2[q] == pg[q],
        sh.kinds[0] is Meta,
{
    lemma_shift_facts(pg, sh, pg2, sh2, s, relax);
}

#[verifier::spinoff_prover]
proof fn lemma_shift_other(pg: Seq<Seq<u8>>, sh: Shape, pg2: Seq<Seq<u8>>, sh2: Shape, s: Shift, relax: Relax, q: int)
    requires
        shift_edit(pg, sh, pg2, sh2, s, relax),
        0 < q < pg.len(),
        in_tree(sh2.kinds[q], s.t, s.c),
        q != s.p,
        q != s.l,
        q != s.r,
    ensures
        node_ok(pg2, sh2, q, tight()),
{
    lemma_shift_frame(pg, sh, pg2, sh2, s, relax);
    lemma_shift_kind(pg, sh, pg2, sh2, s, relax, q);
    assert(image_inv(pg, sh, relax) && relax.over is None && (relax.under == Some(s.l as nat) || relax.under == Some(s.r as nat))) by {
        reveal(shift_edit);
    }
    assert(in_tree(sh.kinds[q], s.t, s.c));
    lemma_descend(pg, sh, s.t, s.c, q, relax);
    let ks = width_of(pg, s.t, s.c);
    let n = node_at(pg[q]).entries.len();
    if q != root_of(pg, s.t, s.c) {
        lemma_shift_hung(pg, sh, pg2, sh2, s, relax, q);
    } else {
        assert(node_parent(sh.kinds[q]) == q);
    }
    if node_height(sh.kinds[q]) > 0 {
        assert forall|j: int| 0 <= j < n implies #[trigger] child_ok(pg2, sh2, q, j) by {
            lemma_shift_grandchild(pg, sh, pg2, sh2, s, relax, q, j);
        }
    } else {
        lemma_shift_leaf_links(pg, sh, pg2, sh2, s, relax, q);
    }
    assert(crate::tree::tree_same(pg, sh, pg2, sh2, s.t, s.c)) by {
        reveal(structure_inv);
        assert(page_ok(pg, sh, s.t, relax));
        assert(root_ok_at(pg, sh, s.t, s.c));
    }
    crate::tree::lemma_node_moved(pg, sh, pg2, sh2, s.t, s.c, relax, tight(), q);
}

#[verifier::spinoff_prover]
proof fn lemma_shift_grandchild(pg: Seq<Seq<u8>>, sh: Shape, pg2: Seq<Seq<u8>>, sh2: Shape, s: Shift, relax: Relax, q: int, j: int)
    requires
        shift_edit(pg, sh, pg2, sh2, s, relax),
        0 < q < pg.len(),
        in_tree(sh.kinds[q], s.t, s.c),
        q != s.p,
        q != s.l,
        q != s.r,
        node_height(sh.kinds[q]) > 0,
        0 <= j < node_at(pg[q]).entries.len(),
        child_ok(pg, sh, q, j),
        sh2.kinds[q] == rehung(sh.kinds[q], node_parent(sh2.kinds[q]), node_slot(sh2.kinds[q])),
    ensures
        child_ok(pg2, sh2, q, j),
{
    lemma_shift_sides(pg, sh, pg2, sh2, s, relax);
    let z = node_at(pg[q]).entries[j].child as int;
    assert(z != s.l && z != s.r);
    if z != s.p {
        lemma_shift_kind(pg, sh, pg2, sh2, s, relax, z);
    }
}

#[verifier::spinoff_prover]
proof fn lemma_shift_leaf_links(pg: Seq<Seq<u8>>, sh: Shape, pg2: Seq<Seq<u8>>, sh2: Shape, s: Shift, relax: Relax, q: int)
    requires
        shift_edit(pg, sh, pg2, sh2, s, relax),
        0 < q < pg.len(),
        in_tree(sh.kinds[q], s.t, s.c),
        node_height(sh.kinds[q]) == 0,
        q != s.p,
        q != s.l,
        q != s.r,
    ensures
        leaf_links_ok(pg2, sh2, q, width_of(pg, s.t, s.c)),
{
    lemma_shift_sides(pg, sh, pg2, sh2, s, relax);
    lemma_shift_kind(pg, sh, pg2, sh2, s, relax, q);
    assert(image_inv(pg, sh, relax)) by {
        reveal(shift_edit);
    }
    let ks = width_of(pg, s.t, s.c);
    lemma_descend(pg, sh, s.t, s.c, q, relax);
    assert(leaf_links_ok(pg, sh, q, ks));
    let nx = node_at(pg[q]).next as int;
    let pv = node_at(pg[q]).prev as int;
    if nx == s.r || pv == s.l {
        lemma_descend(pg, sh, s.t, s.c, s.l, relax);
        lemma_shift_ring(pg, sh, pg2, sh2, s, relax, q);
    }
    if nx != s.l && nx != s.p {
        lemma_shift_kind(pg, sh, pg2, sh2, s, relax, nx);
    }
    if pv != s.r && pv != s.p {
        lemma_shift_kind(pg, sh, pg2, sh2, s, relax, pv);
    }
}

#[verifier::spinoff_prover]
proof fn lemma_shift_apart(pg: Seq<Seq<u8>>, sh: Shape, pg2: Seq<Seq<u8>>, sh2: Shape, s: Shift, relax: Relax, a: int, b: int)
    requires
        shift_edit(pg, sh, pg2, sh2, s, relax),
        0 <= a < pg2.len(),
        0 <= b < pg2.len(),
        in_tree(sh2.kinds[a], s.t, s.c),
        in_tree(sh2.kinds[b], s.t, s.c),
    ensures
        apart(sh2, a, b),
{
    lemma_shift_sides(pg, sh, pg2, sh2, s, relax);
    assert(apart(sh, a, b) && apart(sh, a, s.l) && apart(sh, a, s.r) && apart(sh, b, s.l) && apart(sh, b, s.r) && apart(sh, s.l, b) && apart(sh, s.r, b) && apart(sh, s.l, a) && apart(sh, s.r, a)) by {
        reveal(shift_edit);
        reveal(structure_inv);
    }
    if a != s.r && a != s.l && a != s.p {
        lemma_shift_kind(pg, sh, pg2, sh2, s, relax, a);
    }
    if b != s.r && b != s.l && b != s.p {
        lemma_shift_kind(pg, sh, pg2, sh2, s, relax, b);
    }
    assert(image_inv(pg, sh, relax)) by {
        reveal(shift_edit);
    }
    lemma_descend(pg, sh, s.t, s.c, a, relax);
    lemma_descend(pg, sh, s.t, s.c, b, relax);
}

#[verifier::spinoff_prover]
proof fn lemma_shift_set(pg: Seq<Seq<u8>>, sh: Shape, pg2: Seq<Seq<u8>>, sh2: Shape, s: Shift, relax: Relax)
    requires
        shift_edit(pg, sh, pg2, sh2, s, relax),
    ensures
        entries_of(pg2, sh2, s.t as nat, s.c as nat) == entries_of(pg, sh, s.t as nat, s.c as nat),
{
    lemma_shift_sides(pg, sh, pg2, sh2, s, relax);
    let t = s.t as nat;
    let c = s.c as nat;
    let a = entries_of(pg, sh, t, c);
    let b = entries_of(pg2, sh2, t, c);
    let all = both(pg, s);
    let nl = node_at(pg[s.l]).entries.len() as int;
    assert forall|e: (Seq<u8>, u32)| a.contains(e) == b.contains(e) by {
        if a.contains(e) {
            let (q, j) = choose|q: int, j: int| #[trigger] holds(pg, sh, t, c, q, j, e);
            if q == s.l || q == s.r {
                let g = if q == s.l { j } else { nl + j };
                assert(all[g] == node_at(pg[q]).entries[j]);
                if g < s.k {
                    assert(node_at(pg2[s.l]).entries[g] == all[g]);
                    assert(holds(pg2, sh2, t, c, s.l, g, e));
                } else {
                    assert(node_at(pg2[s.r]).entries[g - s.k] == all[g]);
                    assert(holds(pg2, sh2, t, c, s.r, g - s.k, e));
                }
            } else {
                assert(q != s.p);
                lemma_shift_kind(pg, sh, pg2, sh2, s, relax, q);
                assert(holds(pg2, sh2, t, c, q, j, e));
            }
        }
        if b.contains(e) {
            let (q, j) = choose|q: int, j: int| #[trigger] holds(pg2, sh2, t, c, q, j, e);
            if q == s.l || q == s.r {
                let g = if q == s.l { j } else { s.k + j };
                assert(all[g] == node_at(pg2[q]).entries[j]);
                if g < nl {
                    assert(node_at(pg[s.l]).entries[g] == all[g]);
                    assert(holds(pg, sh, t, c, s.l, g, e));
                } else {
                    assert(node_at(pg[s.r]).entries[g - nl] == all[g]);
                    assert(holds(pg, sh, t, c, s.r, g - nl, e));
                }
            } else {
                assert(q != s.p);
                lemma_shift_kind(pg, sh, pg2, sh2, s, relax, q);
                assert(holds(pg, sh, t, c, q, j, e));
            }
        }
    }
    assert(a =~= b);
}

#[verifier::spinoff_prover]
proof fn lemma_shift_rest(pg: Seq<Seq<u8>>, sh: Shape, pg2: Seq<Seq<u8>>, sh2: Shape, s: Shift, relax: Relax)
    requires
        shift_edit(pg, sh, pg2, sh2, s, relax),
        entries_of(pg2, sh2, s.t as nat, s.c as nat) == entries_of(pg, sh, s.t as nat, s.c as nat),
    ensures
        root_ok_at(pg2, sh2, s.t, s.c),
        table_of(pg2, s.t).cols[s.c].flags.unique ==> table_of(pg2, s.t).cols[s.c].index != NONE,
        unique_ok_at(pg2, sh2, s.t, s.c),
        relax_in(relax, sh, s.t, s.c),
{
    lemma_shift_facts(pg, sh, pg2, sh2, s, relax);
    assert(image_inv(pg, sh, relax)) by {
        reveal(shift_edit);
    }
    reveal(structure_inv);
    assert(page_ok(pg, sh, s.t, relax));
    assert(root_ok_at(pg, sh, s.t, s.c));
    assert(unique_ok_at(pg, sh, s.t, s.c));
    let root = root_of(pg, s.t, s.c);
    if root != s.p {
        lemma_descend(pg, sh, s.t, s.c, root, relax);
        lemma_shift_kind(pg, sh, pg2, sh2, s, relax, root);
    }
}

/// Shifting entries between two neighbouring children, one of which holds one
/// entry too few, so that both hold enough leaves a tree that obeys the rules;
/// the entries of the index are what they were.
#[verifier::spinoff_prover]
pub proof fn lemma_shift(pg: Seq<Seq<u8>>, sh: Shape, pg2: Seq<Seq<u8>>, sh2: Shape, s: Shift, relax: Relax)
    requires
        shift_edit(pg, sh, pg2, sh2, s, relax),
    ensures
        image_inv(pg2, sh2, tight()),
        index_touch(pg, sh, pg2, sh2, s.t, s.c),
        entries_of(pg2, sh2, s.t as nat, s.c as nat) == entries_of(pg, sh, s.t as nat, s.c as nat),
        sh2.kinds[s.p] == sh.kinds[s.p],
        sh2.trees == sh.trees,
        table_of(pg2, s.t) == table_of(pg, s.t),
        pg2.len() == pg.len(),
        node_at(pg2[s.p]).entries.len() == node_at(pg[s.p]).entries.len(),
{
    lemma_shift_facts(pg, sh, pg2, sh2, s, relax);
    lemma_shift_pager(pg, sh, pg2, sh2, s, relax);
    lemma_shift_set(pg, sh, pg2, sh2, s, relax);
    lemma_shift_rest(pg, sh, pg2, sh2, s, relax);
    lemma_shift_parent(pg, sh, pg2, sh2, s, relax);
    lemma_shift_left(pg, sh, pg2, sh2, s, relax);
    lemma_shift_right(pg, sh, pg2, sh2, s, relax);
    assert forall|q: int| 0 <= q < pg2.len() && in_tree(#[trigger] sh2.kinds[q], s.t, s.c) implies node_ok(pg2, sh2, q, tight()) by {
        if q != s.p && q != s.l && q != s.r {
            lemma_shift_other(pg, sh, pg2, sh2, s, relax, q);
        }
    }
    assert forall|a: int, b: int| 0 <= a < pg2.len() && 0 <= b < pg2.len() && in_tree(sh2.kinds[a], s.t, s.c) && in_tree(sh2.kinds[b], s.t, s.c) implies #[trigger] apart(sh2, a, b) by {
        lemma_shift_apart(pg, sh, pg2, sh2, s, relax, a, b);
    }
    assert(image_inv(pg, sh, relax)) by {
        reveal(shift_edit);
    }
    lemma_index_touch(pg, sh, pg2, sh2, s.t, s.c, relax, tight());
}

/// A shift touches the parent and its children only: a node higher up in the
/// tree keeps its bytes and its role.
#[verifier::spinoff_prover]
pub proof fn lemma_shift_above(pg: Seq<Seq<u8>>, sh: Shape, pg2: Seq<Seq<u8>>, sh2: Shape, s: Shift, relax: Relax, q: int)
    requires
        shift_edit(pg, sh, pg2, sh2, s, relax),
        0 <= q < pg.len(),
        in_tree(sh.kinds[q], s.t, s.c),
        node_height(sh.kinds[q]) > node_height(sh.kinds[s.p]),
    ensures
        pg2[q] == pg[q],
        sh2.kinds[q] == sh.kinds[q],
        q < pg2.len(),
{
    lemma_shift_sides(pg, sh, pg2, sh2, s, relax);
    lemma_shift_kind(pg, sh, pg2, sh2, s, relax, q);
    assert(image_inv(pg, sh, relax)) by {
        reveal(shift_edit);
    }
    lemma_descend(pg, sh, s.t, s.c, q, relax);
    if q != root_of(pg, s.t, s.c) {
        assert(parent_ok(pg, sh, q));
    }
}

/// A shift leaves alone the pages that had no role before.
#[verifier::spinoff_prover]
pub proof fn lemma_shift_loose(pg: Seq<Seq<u8>>, sh: Shape, pg2: Seq<Seq<u8>>, sh2: Shape, s: Shift, relax: Relax)
    requires
        shift_edit(pg, sh, pg2, sh2, s, relax),
    ensures
        crate::db::loose_kept(pg, sh, pg2, sh2),
{
    lemma_shift_sides(pg, sh, pg2, sh2, s, relax);
    reveal(crate::db::loose_kept);
    assert forall|x: int| 0 <= x < pg.len() && (#[trigger] sh.kinds[x]) is Loose implies x < pg2.len() && sh2.kinds[x] is Loose && pg2[x] == pg[x] by {
        assert(x != s.l && x != s.r && x != s.p);
        lemma_shift_kind(pg, sh, pg2, sh2, s, relax, x);
        assert(pg2[x] == pg[x]);
    }
}

} // verus!
