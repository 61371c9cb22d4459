//! Splitting a node that holds one entry too many.

use vstd::prelude::*;
use crate::shape::tight;
use crate::db::{Db, lemma_entries_frame, loose_kept, next_page, shape_after_allocate};
use crate::frames::{in_tree, index_touch, lemma_index_touch, relax_in, sized, table_alike, tree_ok};
use crate::insert::{is_unique, over_at};
use crate::key::{rank, top};
use crate::layout::{MAX_PAGE, NONE, PAGE_SIZE};
use crate::node::{Entry, EntryV, IndexPage, NodeV, fit, load_node, node_at, storable};
use crate::release::{node_height, node_hi, node_lo};
use crate::search::{evs, keyed, lemma_decoded};
use crate::shape::{Kind, Relax, Shape, apart, child_ok, entries_of, free_ok_at, holds, image_inv, is_leaf_of, is_structural, key_width, keys_distinct, leaf_links_ok, min_fill, node_ok, over, page_ok, pager_inv, parent_ok, rank_of, root_ok_at, sorted, structure_inv, table_of, under, unique_ok_at, within};
use crate::tree::{lemma_descend, node_parent, node_slot, ranged, rehung, root_of, width_of};

verus! {

/// Where a node of `n` entries is split: the left half keeps this many.
pub open spec fn half(n: int) -> int {
    n / 2
}

/// The role of a child of `p` to the right of child `i`.
pub open spec fn is_shifted(k: Kind, t: int, c: int, p: int, i: int) -> bool {
    in_tree(k, t, c) && node_parent(k) == p && node_slot(k) > i
}

/// The role of a child of `ch` at position `mid` or beyond.
pub open spec fn is_moved(k: Kind, t: int, c: int, ch: int, mid: int) -> bool {
    in_tree(k, t, c) && node_parent(k) == ch && node_slot(k) >= mid
}

/// What the split of child `i` of the node `p` works on.
pub struct Split {
    pub t: int,
    pub c: int,
    /// The parent.
    pub p: int,
    /// The position of the child in the parent.
    pub i: int,
    /// The child, which holds one entry too many.
    pub ch: int,
    /// The new page, which takes the right half.
    pub r: int,
}

/// The child's entries, and where they are cut.
pub open spec fn cut(pg: Seq<Seq<u8>>, s: Split) -> int {
    half(node_at(pg[s.ch]).entries.len() as int)
}

/// The first entry of the right half, which becomes the separator.
pub open spec fn sep(pg: Seq<Seq<u8>>, s: Split) -> EntryV {
    node_at(pg[s.ch]).entries[cut(pg, s)]
}

/// The shape after the split: the child keeps the lower part of its range, the
/// new node takes the upper part, the children of the parent to the right move
/// one position on, and the children of the right half hang below the new node.
pub open spec fn split_shape(pg: Seq<Seq<u8>>, sh1: Shape, s: Split) -> Shape {
    let mid = cut(pg, s);
    let r0 = rank_of(sep(pg, s));
    Shape {
        kinds: Seq::new(
            sh1.kinds.len(),
            |x: int|
                if x == s.p {
                    sh1.kinds[x]
                } else if x == s.ch {
                    ranged(sh1.kinds[x], node_lo(sh1.kinds[x]), r0)
                } else if x == s.r {
                    Kind::Node {
                        table: s.t as nat,
                        col: s.c as nat,
                        height: node_height(sh1.kinds[s.ch]),
                        parent: s.p as nat,
                        slot: (s.i + 1) as nat,
                        lo: r0,
                        hi: node_hi(sh1.kinds[s.ch]),
                    }
                } else if is_shifted(sh1.kinds[x], s.t, s.c, s.p, s.i) {
                    rehung(sh1.kinds[x], s.p, node_slot(sh1.kinds[x]) + 1)
                } else if is_moved(sh1.kinds[x], s.t, s.c, s.ch, mid) {
                    rehung(sh1.kinds[x], s.r, node_slot(sh1.kinds[x]) - mid)
                } else {
                    sh1.kinds[x]
                },
        ),
        ..sh1
    }
}

/// How the pages change when the child is split.
#[verifier::opaque]
pub open spec fn split_written(pg1: Seq<Seq<u8>>, pg2: Seq<Seq<u8>>, s: Split) -> bool {
    let cv = node_at(pg1[s.ch]);
    let pv = node_at(pg1[s.p]);
    let mid = cut(pg1, s);
    let e = sep(pg1, s);
    let nx = cv.next as int;
    &&& pg2.len() == pg1.len()
    &&& forall|q: int| 0 <= q < pg2.len() && q != s.ch && q != s.r && q != s.p && !(cv.leaf && q == nx) ==> #[trigger] pg2[q] == pg1[q]
    &&& pg2[s.ch].len() == PAGE_SIZE
    &&& pg2[s.r].len() == PAGE_SIZE
    &&& pg2[s.p].len() == PAGE_SIZE
    &&& node_at(pg2[s.ch]) == (NodeV {
        entries: cv.entries.subrange(0, mid),
        next: if cv.leaf { s.r as u32 } else { cv.next },
        prev: if cv.leaf && nx == s.ch { s.r as u32 } else { cv.prev },
        ..cv
    })
    &&& node_at(pg2[s.r]) == (NodeV {
        entries: cv.entries.subrange(mid, cv.entries.len() as int),
        prev: if cv.leaf { s.ch as u32 } else { s.r as u32 },
        next: if cv.leaf { cv.next } else { s.r as u32 },
        ..cv
    })
    &&& node_at(pg2[s.p]) == (NodeV { entries: pv.entries.insert(s.i + 1, EntryV { key: e.key, rid: e.rid, child: s.r as u32 }), ..pv })
    &&& cv.leaf && nx != s.ch ==> pg2[nx].len() == PAGE_SIZE && node_at(pg2[nx]) == (NodeV { prev: s.r as u32, ..node_at(pg1[nx]) })
}

/// What the lemmas about a split ask: the rules hold but for the child, which
/// holds one entry too many; a page was taken from the pager; and the pages and
/// the shape changed as the split changes them.
#[verifier::opaque]
pub open spec fn split_edit(pg: Seq<Seq<u8>>, sh: Shape, pg1: Seq<Seq<u8>>, sh1: Shape, pg2: Seq<Seq<u8>>, sh2: Shape, s: Split, relax: Relax) -> bool {
    &&& image_inv(pg, sh, relax)
    &&& relax.over == Some(s.ch as nat)
    &&& relax.under is None || relax.under == Some(s.p as nat)
    &&& 0 < s.p < pg.len()
    &&& in_tree(sh.kinds[s.p], s.t, s.c)
    &&& node_height(sh.kinds[s.p]) > 0
    &&& 0 <= s.i < node_at(pg[s.p]).entries.len()
    &&& s.ch == node_at(pg[s.p]).entries[s.i].child
    &&& node_at(pg[s.ch]).entries.len() == sh.trees[(s.t as nat, s.c as nat)].cap + 1
    &&& pager_inv(pg1, sh1)
    &&& sh1 == shape_after_allocate(sh, s.r as nat)
    &&& s.r == next_page(sh.free, pg.len())
    &&& 0 < s.r < pg1.len()
    &&& s.r < pg.len() ==> sh.kinds[s.r] is Free
    &&& pg1.len() == pg.len() + (if sh.free.len() > 0 { 0int } else { 1 })
    &&& forall|q: int| 0 < q < pg.len() ==> #[trigger] pg1[q] == pg[q]
    &&& crate::meta::tables(pg1[0]) == crate::meta::tables(pg[0])
    &&& split_written(pg1, pg2, s)
    &&& sh2 == split_shape(pg, sh1, s)
}

/// The facts about a split that the lemmas share.
pub open spec fn split_facts(pg: Seq<Seq<u8>>, sh: Shape, pg1: Seq<Seq<u8>>, sh1: Shape, pg2: Seq<Seq<u8>>, sh2: Shape, s: Split, relax: Relax) -> bool {
    let cv = node_at(pg[s.ch]);
    let pv = node_at(pg[s.p]);
    let mid = cut(pg, s);
    let tree = sh.trees[(s.t as nat, s.c as nat)];
    let ks = width_of(pg, s.t, s.c);
    let h = node_height(sh.kinds[s.p]);
    &&& 0 < s.ch < pg.len()
    &&& 0 < s.p < pg.len()
    &&& in_tree(sh.kinds[s.p], s.t, s.c)
    &&& h > 0
    &&& 0 <= s.i < pv.entries.len()
    &&& s.ch == pv.entries[s.i].child
    &&& sh2.trees == sh.trees
    &&& sh2.kinds[s.t] == sh.kinds[s.t]
    &&& sh2.kinds[s.p] == sh.kinds[s.p]
    &&& relax.over == Some(s.ch as nat)
    &&& relax.under is None || relax.under == Some(s.p as nat)
    &&& cv.entries.len() == tree.cap + 1
    &&& s.ch != s.p
    &&& s.r != s.p
    &&& s.r != s.ch
    &&& s.r != s.t
    &&& s.p != s.t
    &&& s.ch != s.t
    &&& 0 < s.t < pg.len()
    &&& sh.kinds[s.t] is Table
    &&& 0 <= s.c < table_of(pg, s.t).cols.len()
    &&& table_of(pg2, s.t) == table_of(pg, s.t)
    &&& in_tree(sh.kinds[s.ch], s.t, s.c)
    &&& sh.kinds[s.ch] == (Kind::Node {
        table: s.t as nat,
        col: s.c as nat,
        height: (h - 1) as nat,
        parent: s.p as nat,
        slot: s.i as nat,
        lo: rank_of(pv.entries[s.i]),
        hi: if s.i + 1 < pv.entries.len() { rank_of(pv.entries[s.i + 1]) } else { node_hi(sh.kinds[s.p]) },
    })
    &&& node_ok(pg, sh, s.p, relax)
    &&& node_ok(pg, sh, s.ch, relax)
    &&& 2 <= tree.cap < fit(ks as int, false)
    &&& 1 <= mid
    &&& mid < cv.entries.len()
    &&& mid >= min_fill(tree.cap as int)
    &&& cv.entries.len() - mid >= min_fill(tree.cap as int)
    &&& mid <= tree.cap
    &&& cv.entries.len() - mid <= tree.cap
    &&& node_lo(sh.kinds[s.ch]) < rank_of(sep(pg, s)) < node_hi(sh.kinds[s.ch])
    &&& pg1[s.ch] == pg[s.ch]
    &&& pg1[s.p] == pg[s.p]
    &&& cv.leaf ==> 0 < cv.next < pg.len() && in_tree(sh.kinds[cv.next as int], s.t, s.c) && node_height(sh.kinds[cv.next as int]) == 0 && pg1[cv.next as int] == pg[cv.next as int] && cv.next != s.p
        && cv.next != s.r
    &&& pg2.len() == pg1.len()
    &&& sh2.kinds.len() == pg2.len()
    &&& sh1.kinds.len() == pg1.len()
    &&& pg.len() <= pg1.len()
    &&& forall|x: int| 0 <= x < pg.len() && x != s.r ==> #[trigger] sh1.kinds[x] == sh.kinds[x]
    &&& !is_structural(sh1.kinds[s.r])
    &&& s.r >= pg.len() || !is_structural(sh.kinds[s.r])
    &&& keyed(cv.entries, ks as int)
    &&& keyed(pv.entries, ks as int)
    &&& cv.key_size == ks
    &&& cv.cap == tree.cap
    &&& cv.leaf == (h == 1)
}

#[verifier::spinoff_prover]
pub proof fn lemma_split_facts(pg: Seq<Seq<u8>>, sh: Shape, pg1: Seq<Seq<u8>>, sh1: Shape, pg2: Seq<Seq<u8>>, sh2: Shape, s: Split, relax: Relax)
    requires
        split_edit(pg, sh, pg1, sh1, pg2, sh2, s, relax),
    ensures
        split_facts(pg, sh, pg1, sh1, pg2, sh2, s, relax),
{
    reveal(split_edit);
    reveal(split_written);
    lemma_descend(pg, sh, s.t, s.c, s.p, relax);
    assert(child_ok(pg, sh, s.p, s.i));
    lemma_descend(pg, sh, s.t, s.c, s.ch, relax);
    let cv = node_at(pg[s.ch]);
    let tree = sh.trees[(s.t as nat, s.c as nat)];
    assert(sh.kinds[s.t] is Table && 0 < s.t < pg.len() && 2 <= tree.cap < fit(width_of(pg, s.t, s.c) as int, false) && s.p != s.t && s.ch != s.t && 0 <= s.c < table_of(pg, s.t).cols.len()) by {
        reveal(structure_inv);
        assert(page_ok(pg, sh, s.t, relax));
        assert(root_ok_at(pg, sh, s.t, s.c));
    }
    if sh.free.len() > 0 {
        assert(free_ok_at(pg, sh, sh.free.len() - 1));
    }
    let mid = cut(pg, s);
    assert(rank_of(cv.entries[0]) < rank_of(cv.entries[mid]));
    if cv.leaf {
        assert(leaf_links_ok(pg, sh, s.ch, width_of(pg, s.t, s.c)));
    }
}

/// The exception a split leaves behind: none, unless the parent now holds more
/// entries than a node may.
pub open spec fn split_relax(pg2: Seq<Seq<u8>>, sh2: Shape, s: Split) -> Relax {
    over_at(pg2, sh2, s.t, s.c, s.p)
}

#[verifier::spinoff_prover]
proof fn lemma_split_pager(pg: Seq<Seq<u8>>, sh: Shape, pg1: Seq<Seq<u8>>, sh1: Shape, pg2: Seq<Seq<u8>>, sh2: Shape, s: Split, relax: Relax)
    requires
        split_edit(pg, sh, pg1, sh1, pg2, sh2, s, relax),
    ensures
        pager_inv(pg2, sh2),
        index_touch(pg, sh, pg2, sh2, s.t, s.c),
        sh2.trees == sh.trees,
        sh2.free == crate::db::free_after_allocate(sh.free),
{
    lemma_split_facts(pg, sh, pg1, sh1, pg2, sh2, s, relax);
    reveal(split_edit);
    reveal(split_written);
    assert forall|k: int| 0 <= k < sh2.free.len() implies #[trigger] free_ok_at(pg2, sh2, k) by {
        assert(free_ok_at(pg1, sh1, k));
    }
    assert(pg2[0] == pg1[0]);
    assert(pager_inv(pg2, sh2));
    assert forall|x: int| 0 <= x < pg.len() && x != s.t && is_structural(#[trigger] sh.kinds[x]) && !in_tree(sh.kinds[x], s.t, s.c) implies x < pg2.len() && pg2[x] == pg[x] && sh2.kinds[x] == sh.kinds[x] by {
        assert(sh.kinds[0] is Meta);
    }
}

/// A sorted list stays sorted, and inside its range, when an entry is inserted
/// where the order wants it.
#[verifier::spinoff_prover]
pub proof fn lemma_insert_sorted(es: Seq<EntryV>, k: int, e: EntryV, lo: int, hi: int)
    requires
        sorted(es),
        within(es, lo, hi),
        0 <= k <= es.len(),
        k > 0 ==> rank_of(es[k - 1]) < rank_of(e),
        k < es.len() ==> rank_of(e) < rank_of(es[k]),
        lo <= rank_of(e) < hi,
    ensures
        sorted(es.insert(k, e)),
        within(es.insert(k, e), lo, hi),
{
    let es2 = es.insert(k, e);
    assert forall|a: int, b: int| 0 <= a < b < es2.len() implies rank_of(#[trigger] es2[a]) < rank_of(#[trigger] es2[b]) by {
        let a0 = if a < k { a } else { a - 1 };
        let b0 = if b < k { b } else { b - 1 };
        if a != k && b != k {
            assert(rank_of(es[a0]) < rank_of(es[b0]));
        } else if a == k {
            assert(es2[b] == es[b - 1]);
            if b - 1 > k {
                assert(rank_of(es[k]) < rank_of(es[b - 1]));
            }
        } else {
            assert(es2[a] == es[a]);
            if a < k - 1 {
                assert(rank_of(es[a]) < rank_of(es[k - 1]));
            }
        }
    }
    assert forall|j: int| 0 <= j < es2.len() implies lo <= rank_of(#[trigger] es2[j]) < hi by {
        let j0 = if j < k { j } else { j - 1 };
        if j != k {
            assert(lo <= rank_of(es[j0]) < hi);
        }
    }
}

#[verifier::spinoff_prover]
proof fn lemma_split_parent_entries(pg: Seq<Seq<u8>>, sh: Shape, pg1: Seq<Seq<u8>>, sh1: Shape, pg2: Seq<Seq<u8>>, sh2: Shape, s: Split, relax: Relax)
    requires
        split_edit(pg, sh, pg1, sh1, pg2, sh2, s, relax),
    ensures
        node_at(pg2[s.p]).entries == node_at(pg[s.p]).entries.insert(s.i + 1, EntryV { key: sep(pg, s).key, rid: sep(pg, s).rid, child: s.r as u32 }),
        node_at(pg2[s.p]) == (NodeV { entries: node_at(pg2[s.p]).entries, ..node_at(pg[s.p]) }),
        sh2.kinds[s.r] == (Kind::Node {
            table: s.t as nat,
            col: s.c as nat,
            height: node_height(sh.kinds[s.ch]),
            parent: s.p as nat,
            slot: (s.i + 1) as nat,
            lo: rank_of(sep(pg, s)),
            hi: node_hi(sh.kinds[s.ch]),
        }),
        sh2.kinds[s.ch] == ranged(sh.kinds[s.ch], node_lo(sh.kinds[s.ch]), rank_of(sep(pg, s))),
        forall|x: int| 0 <= x < pg.len() && x != s.p && x != s.ch && x != s.r ==> #[trigger] sh2.kinds[x] == (if is_shifted(sh.kinds[x], s.t, s.c, s.p, s.i) {
            rehung(sh.kinds[x], s.p, node_slot(sh.kinds[x]) + 1)
        } else if is_moved(sh.kinds[x], s.t, s.c, s.ch, cut(pg, s)) {
            rehung(sh.kinds[x], s.r, node_slot(sh.kinds[x]) - cut(pg, s))
        } else {
            sh.kinds[x]
        }),
        0 <= s.i < node_at(pg[s.p]).entries.len(),
        s.ch == node_at(pg[s.p]).entries[s.i].child,
        forall|k: int| 0 <= k < node_at(pg[s.p]).entries.len() ==> #[trigger] child_ok(pg, sh, s.p, k),
        s.r >= pg.len() || !(sh.kinds[s.r] is Node),
        0 < s.r < pg2.len(),
        pg.len() <= pg2.len(),
        pg2.len() <= MAX_PAGE,
        sh.kinds[0] is Meta,
        sh2.kinds[0] is Meta,
        sh2.kinds[s.p] == sh.kinds[s.p],
        in_tree(sh.kinds[s.p], s.t, s.c),
        in_tree(sh.kinds[s.ch], s.t, s.c),
        node_height(sh.kinds[s.p]) > 0,
        0 < s.p < pg.len(),
        0 < s.ch < pg.len(),
        s.ch != s.p,
        s.r != s.p,
        s.r != s.ch,
        node_at(pg2[s.ch]).entries == node_at(pg[s.ch]).entries.subrange(0, cut(pg, s)),
        node_at(pg2[s.r]).entries == node_at(pg[s.ch]).entries.subrange(cut(pg, s), node_at(pg[s.ch]).entries.len() as int),
        0 < cut(pg, s) < node_at(pg[s.ch]).entries.len(),
        forall|q: int| 0 < q < pg.len() && q != s.p && q != s.ch && q != s.r ==> node_at(#[trigger] pg2[q]).entries == node_at(pg[q]).entries,
        node_height(sh.kinds[s.ch]) + 1 == node_height(sh.kinds[s.p]),
        node_hi(sh.kinds[s.ch]) == (if s.i + 1 < node_at(pg[s.p]).entries.len() { rank_of(node_at(pg[s.p]).entries[s.i + 1]) } else { node_hi(sh.kinds[s.p]) }),
        node_lo(sh.kinds[s.ch]) == rank_of(node_at(pg[s.p]).entries[s.i]),
        sh.kinds[s.ch] is Node,
{
    lemma_split_facts(pg, sh, pg1, sh1, pg2, sh2, s, relax);
    reveal(split_edit);
    reveal(split_written);
}

#[verifier::spinoff_prover]
proof fn lemma_split_child_low(pg: Seq<Seq<u8>>, sh: Shape, pg1: Seq<Seq<u8>>, sh1: Shape, pg2: Seq<Seq<u8>>, sh2: Shape, s: Split, relax: Relax, j: int)
    requires
        split_edit(pg, sh, pg1, sh1, pg2, sh2, s, relax),
        0 <= j < s.i,
    ensures
        child_ok(pg2, sh2, s.p, j),
{
    lemma_split_parent_entries(pg, sh, pg1, sh1, pg2, sh2, s, relax);
    let es = node_at(pg[s.p]).entries;
    let es2 = node_at(pg2[s.p]).entries;
    assert(child_ok(pg, sh, s.p, j));
    assert(child_ok(pg, sh, s.p, s.i));
    assert(es2[j] == es[j]);
    assert(es2[j + 1] == es[j + 1]);
    let x = es[j].child as int;
    assert(x != s.ch && x != s.p && x != s.r);
    assert(!is_shifted(sh.kinds[x], s.t, s.c, s.p, s.i));
    assert(!is_moved(sh.kinds[x], s.t, s.c, s.ch, cut(pg, s)));
    assert(sh2.kinds[x] == sh.kinds[x]);
}

#[verifier::spinoff_prover]
proof fn lemma_split_child_high(pg: Seq<Seq<u8>>, sh: Shape, pg1: Seq<Seq<u8>>, sh1: Shape, pg2: Seq<Seq<u8>>, sh2: Shape, s: Split, relax: Relax, j: int)
    requires
        split_edit(pg, sh, pg1, sh1, pg2, sh2, s, relax),
        s.i + 1 < j < node_at(pg2[s.p]).entries.len(),
    ensures
        child_ok(pg2, sh2, s.p, j),
{
    lemma_split_parent_entries(pg, sh, pg1, sh1, pg2, sh2, s, relax);
    let es = node_at(pg[s.p]).entries;
    let es2 = node_at(pg2[s.p]).entries;
    assert(child_ok(pg, sh, s.p, j - 1));
    assert(child_ok(pg, sh, s.p, s.i));
    assert(es2[j] == es[j - 1]);
    if j + 1 < es2.len() {
        assert(es2[j + 1] == es[j]);
    }
    let x = es[j - 1].child as int;
    assert(x != s.ch && x != s.p && x != s.r);
    assert(is_shifted(sh.kinds[x], s.t, s.c, s.p, s.i));
    assert(sh2.kinds[x] == rehung(sh.kinds[x], s.p, j));
}

#[verifier::spinoff_prover]
proof fn lemma_split_child_mid(pg: Seq<Seq<u8>>, sh: Shape, pg1: Seq<Seq<u8>>, sh1: Shape, pg2: Seq<Seq<u8>>, sh2: Shape, s: Split, relax: Relax, j: int)
    requires
        split_edit(pg, sh, pg1, sh1, pg2, sh2, s, relax),
        j == s.i || j == s.i + 1,
    ensures
        child_ok(pg2, sh2, s.p, j),
{
    lemma_split_parent_entries(pg, sh, pg1, sh1, pg2, sh2, s, relax);
    let es = node_at(pg[s.p]).entries;
    let es2 = node_at(pg2[s.p]).entries;
    let i = s.i;
    assert(child_ok(pg, sh, s.p, i));
    assert(es2[i] == es[i]);
    assert(rank_of(es2[i + 1]) == rank_of(sep(pg, s)));
    if i + 2 < es2.len() {
        assert(es2[i + 2] == es[i + 1]);
    }
}

#[verifier::spinoff_prover]
proof fn lemma_split_child_at(pg: Seq<Seq<u8>>, sh: Shape, pg1: Seq<Seq<u8>>, sh1: Shape, pg2: Seq<Seq<u8>>, sh2: Shape, s: Split, relax: Relax, j: int)
    requires
        split_edit(pg, sh, pg1, sh1, pg2, sh2, s, relax),
        0 <= j < node_at(pg2[s.p]).entries.len(),
    ensures
        child_ok(pg2, sh2, s.p, j),
{
    if j < s.i {
        lemma_split_child_low(pg, sh, pg1, sh1, pg2, sh2, s, relax, j);
    } else if j > s.i + 1 {
        lemma_split_child_high(pg, sh, pg1, sh1, pg2, sh2, s, relax, j);
    } else {
        lemma_split_child_mid(pg, sh, pg1, sh1, pg2, sh2, s, relax, j);
    }
}

#[verifier::spinoff_prover]
proof fn lemma_split_children(pg: Seq<Seq<u8>>, sh: Shape, pg1: Seq<Seq<u8>>, sh1: Shape, pg2: Seq<Seq<u8>>, sh2: Shape, s: Split, relax: Relax)
    requires
        split_edit(pg, sh, pg1, sh1, pg2, sh2, s, relax),
    ensures
        forall|j: int| 0 <= j < node_at(pg2[s.p]).entries.len() ==> #[trigger] child_ok(pg2, sh2, s.p, j),
        sh2.kinds[s.p] == sh.kinds[s.p],
        node_at(pg2[s.p]).entries == node_at(pg[s.p]).entries.insert(s.i + 1, EntryV { key: sep(pg, s).key, rid: sep(pg, s).rid, child: s.r as u32 }),
        node_at(pg2[s.p]) == (NodeV { entries: node_at(pg2[s.p]).entries, ..node_at(pg[s.p]) }),
{
    lemma_split_facts(pg, sh, pg1, sh1, pg2, sh2, s, relax);
    lemma_split_parent_entries(pg, sh, pg1, sh1, pg2, sh2, s, relax);
    assert forall|j: int| 0 <= j < node_at(pg2[s.p]).entries.len() implies #[trigger] child_ok(pg2, sh2, s.p, j) by {
        lemma_split_child_at(pg, sh, pg1, sh1, pg2, sh2, s, relax, j);
    }
}

#[verifier::spinoff_prover]
proof fn lemma_split_parent(pg: Seq<Seq<u8>>, sh: Shape, pg1: Seq<Seq<u8>>, sh1: Shape, pg2: Seq<Seq<u8>>, sh2: Shape, s: Split, relax: Relax)
    requires
        split_edit(pg, sh, pg1, sh1, pg2, sh2, s, relax),
    ensures
        node_ok(pg2, sh2, s.p, split_relax(pg2, sh2, s)),
        sh2.kinds[s.p] == sh.kinds[s.p],
{
    lemma_split_facts(pg, sh, pg1, sh1, pg2, sh2, s, relax);
    lemma_split_children(pg, sh, pg1, sh1, pg2, sh2, s, relax);
    let es = node_at(pg[s.p]).entries;
    let e = EntryV { key: sep(pg, s).key, rid: sep(pg, s).rid, child: s.r as u32 };
    assert(rank_of(e) == rank_of(sep(pg, s)));
    assert(within(es, node_lo(sh.kinds[s.p]), node_hi(sh.kinds[s.p])));
    assert(node_lo(sh.kinds[s.p]) <= rank_of(es[s.i]));
    if s.i + 1 < es.len() {
        assert(rank_of(es[s.i + 1]) < node_hi(sh.kinds[s.p]));
    }
    lemma_insert_sorted(es, s.i + 1, e, node_lo(sh.kinds[s.p]), node_hi(sh.kinds[s.p]));
    assert(es.insert(s.i + 1, e)[0] == es[0]);
    assert(sh2.trees == sh.trees && (relax.under is None || relax.under == Some(s.p as nat))) by {
        reveal(split_edit);
    }
    if s.p != root_of(pg, s.t, s.c) {
        assert(parent_ok(pg2, sh2, s.p)) by {
            reveal(split_edit);
            reveal(split_written);
            assert(parent_ok(pg, sh, s.p));
            let up = node_parent(sh.kinds[s.p]);
            lemma_descend(pg, sh, s.t, s.c, up, relax);
        }
    }
}

#[verifier::spinoff_prover]
proof fn lemma_split_left(pg: Seq<Seq<u8>>, sh: Shape, pg1: Seq<Seq<u8>>, sh1: Shape, pg2: Seq<Seq<u8>>, sh2: Shape, s: Split, relax: Relax)
    requires
        split_edit(pg, sh, pg1, sh1, pg2, sh2, s, relax),
    ensures
        node_ok(pg2, sh2, s.ch, split_relax(pg2, sh2, s)),
{
    lemma_split_facts(pg, sh, pg1, sh1, pg2, sh2, s, relax);
    reveal(split_edit);
    reveal(split_written);
    let cv = node_at(pg[s.ch]);
    let es = cv.entries;
    let es2 = node_at(pg2[s.ch]).entries;
    let mid = cut(pg, s);
    let r0 = rank_of(sep(pg, s));
    let ks = width_of(pg, s.t, s.c);
    assert forall|a: int, b: int| 0 <= a < b < es2.len() implies rank_of(#[trigger] es2[a]) < rank_of(#[trigger] es2[b]) by {
        assert(rank_of(es[a]) < rank_of(es[b]));
    }
    assert forall|k: int| 0 <= k < es2.len() implies node_lo(sh.kinds[s.ch]) <= rank_of(#[trigger] es2[k]) < r0 by {
        assert(node_lo(sh.kinds[s.ch]) <= rank_of(es[k]));
        assert(rank_of(es[k]) < rank_of(es[mid]));
    }
    assert(parent_ok(pg2, sh2, s.ch)) by {
        assert(node_at(pg2[s.p]).entries[s.i] == node_at(pg[s.p]).entries[s.i]);
    }
    if cv.leaf {
        assert(leaf_links_ok(pg, sh, s.ch, ks));
        let pv = cv.prev as int;
        if cv.next != s.ch {
            lemma_split_prev(pg, sh, pg1, sh1, pg2, sh2, s, relax);
        }
        assert(leaf_links_ok(pg2, sh2, s.ch, ks));
    } else {
        assert(es2[0] == es[0]);
        assert forall|j: int| 0 <= j < es2.len() implies #[trigger] child_ok(pg2, sh2, s.ch, j) by {
            assert(child_ok(pg, sh, s.ch, j));
            assert(es2[j] == es[j]);
            if j + 1 < mid {
                assert(es2[j + 1] == es[j + 1]);
            }
            let x = es[j].child as int;
            assert(!is_moved(sh1.kinds[x], s.t, s.c, s.ch, mid));
            assert(!is_shifted(sh1.kinds[x], s.t, s.c, s.p, s.i));
        }
    }
}

/// The leaf before the child in the ring is a leaf of the index whose role the
/// split leaves alone, but for its place in its parent.
#[verifier::spinoff_prover]
proof fn lemma_split_prev(pg: Seq<Seq<u8>>, sh: Shape, pg1: Seq<Seq<u8>>, sh1: Shape, pg2: Seq<Seq<u8>>, sh2: Shape, s: Split, relax: Relax)
    requires
        split_edit(pg, sh, pg1, sh1, pg2, sh2, s, relax),
        node_at(pg[s.ch]).leaf,
        node_at(pg[s.ch]).next != s.ch,
    ensures
        node_at(pg[s.ch]).prev != s.ch,
        node_at(pg[s.ch]).prev != s.r,
        node_at(pg[s.ch]).prev != s.p,
        node_hi(sh2.kinds[node_at(pg[s.ch]).prev as int]) == node_hi(sh.kinds[node_at(pg[s.ch]).prev as int]),
        in_tree(sh2.kinds[node_at(pg[s.ch]).prev as int], s.t, s.c),
        node_height(sh2.kinds[node_at(pg[s.ch]).prev as int]) == 0,
{
    lemma_split_facts(pg, sh, pg1, sh1, pg2, sh2, s, relax);
    reveal(split_edit);
    let cv = node_at(pg[s.ch]);
    let ks = width_of(pg, s.t, s.c);
    assert(leaf_links_ok(pg, sh, s.ch, ks));
    let pv = cv.prev as int;
    let nx = cv.next as int;
    if pv == s.ch {
        // a leaf that is its own predecessor covers every rank, so it is its own successor
        lemma_descend(pg, sh, s.t, s.c, nx, relax);
        reveal(structure_inv);
        assert(apart(sh, nx, s.ch));
    }
}

#[verifier::spinoff_prover]
proof fn lemma_split_right(pg: Seq<Seq<u8>>, sh: Shape, pg1: Seq<Seq<u8>>, sh1: Shape, pg2: Seq<Seq<u8>>, sh2: Shape, s: Split, relax: Relax)
    requires
        split_edit(pg, sh, pg1, sh1, pg2, sh2, s, relax),
    ensures
        node_ok(pg2, sh2, s.r, split_relax(pg2, sh2, s)),
{
    lemma_split_facts(pg, sh, pg1, sh1, pg2, sh2, s, relax);
    reveal(split_edit);
    reveal(split_written);
    let cv = node_at(pg[s.ch]);
    let es = cv.entries;
    let es2 = node_at(pg2[s.r]).entries;
    let mid = cut(pg, s);
    let r0 = rank_of(sep(pg, s));
    let ks = width_of(pg, s.t, s.c);
    assert(es2[0] == es[mid]);
    assert forall|a: int, b: int| 0 <= a < b < es2.len() implies rank_of(#[trigger] es2[a]) < rank_of(#[trigger] es2[b]) by {
        assert(rank_of(es[a + mid]) < rank_of(es[b + mid]));
    }
    assert forall|k: int| 0 <= k < es2.len() implies r0 <= rank_of(#[trigger] es2[k]) < node_hi(sh.kinds[s.ch]) by {
        assert(rank_of(es[k + mid]) < node_hi(sh.kinds[s.ch]));
        if k > 0 {
            assert(rank_of(es[mid]) < rank_of(es[k + mid]));
        }
    }
    assert(parent_ok(pg2, sh2, s.r));
    assert(s.r != root_of(pg, s.t, s.c)) by {
        reveal(structure_inv);
        assert(page_ok(pg, sh, s.t, relax));
        assert(root_ok_at(pg, sh, s.t, s.c));
    }
    if cv.leaf {
        assert(leaf_links_ok(pg, sh, s.ch, ks));
        assert(leaf_links_ok(pg2, sh2, s.r, ks));
    } else {
        assert forall|j: int| 0 <= j < es2.len() implies #[trigger] child_ok(pg2, sh2, s.r, j) by {
            assert(child_ok(pg, sh, s.ch, j + mid));
            assert(es2[j] == es[j + mid]);
            if j + 1 < es2.len() {
                assert(es2[j + 1] == es[j + mid + 1]);
            }
            let x = es[j + mid].child as int;
            assert(is_moved(sh1.kinds[x], s.t, s.c, s.ch, mid));
            assert(!is_shifted(sh1.kinds[x], s.t, s.c, s.p, s.i));
        }
    }
}

#[verifier::spinoff_prover]
proof fn lemma_split_next(pg: Seq<Seq<u8>>, sh: Shape, pg1: Seq<Seq<u8>>, sh1: Shape, pg2: Seq<Seq<u8>>, sh2: Shape, s: Split, relax: Relax)
    requires
        split_edit(pg, sh, pg1, sh1, pg2, sh2, s, relax),
        node_at(pg[s.ch]).leaf,
        node_at(pg[s.ch]).next != s.ch,
    ensures
        node_ok(pg2, sh2, node_at(pg[s.ch]).next as int, split_relax(pg2, sh2, s)),
{
    lemma_split_facts(pg, sh, pg1, sh1, pg2, sh2, s, relax);
    reveal(split_edit);
    reveal(split_written);
    let cv = node_at(pg[s.ch]);
    let nx = cv.next as int;
    let ks = width_of(pg, s.t, s.c);
    lemma_descend(pg, sh, s.t, s.c, nx, relax);
    assert(leaf_links_ok(pg, sh, s.ch, ks));
    assert(leaf_links_ok(pg, sh, nx, ks));
    let nn = node_at(pg[nx]).next as int;
    assert(in_tree(sh2.kinds[nn], s.t, s.c) && node_lo(sh2.kinds[nn]) == node_lo(sh.kinds[nn]) && node_height(sh2.kinds[nn]) == 0);
    assert(leaf_links_ok(pg2, sh2, nx, ks));
    if nx != root_of(pg, s.t, s.c) {
        assert(parent_ok(pg, sh, nx));
        lemma_split_hung(pg, sh, pg1, sh1, pg2, sh2, s, relax, nx);
    }
}

/// A node other than the parent, the child and the new node still finds itself
/// in its parent after the split.
#[verifier::spinoff_prover]
proof fn lemma_split_hung(pg: Seq<Seq<u8>>, sh: Shape, pg1: Seq<Seq<u8>>, sh1: Shape, pg2: Seq<Seq<u8>>, sh2: Shape, s: Split, relax: Relax, q: int)
    requires
        split_edit(pg, sh, pg1, sh1, pg2, sh2, s, relax),
        0 < q < pg.len(),
        in_tree(sh.kinds[q], s.t, s.c),
        q != s.p,
        q != s.ch,
        q != s.r,
        q != root_of(pg, s.t, s.c),
    ensures
        parent_ok(pg2, sh2, q),
        in_tree(sh2.kinds[q], s.t, s.c),
        sh2.kinds[q] == rehung(sh.kinds[q], node_parent(sh2.kinds[q]), node_slot(sh2.kinds[q])),
{
    lemma_split_parent_entries(pg, sh, pg1, sh1, pg2, sh2, s, relax);
    assert(image_inv(pg, sh, relax)) by {
        reveal(split_edit);
    }
    lemma_descend(pg, sh, s.t, s.c, q, relax);
    assert(parent_ok(pg, sh, q));
    let up = node_parent(sh.kinds[q]);
    let slot = node_slot(sh.kinds[q]);
    let mid = cut(pg, s);
    assert(0 < up < pg.len() && in_tree(sh.kinds[up], s.t, s.c));
    assert(up != s.r);
    if up == s.p {
        assert(child_ok(pg, sh, s.p, slot));
        assert(slot != s.i);
        if slot > s.i {
            assert(is_shifted(sh.kinds[q], s.t, s.c, s.p, s.i));
            assert(node_at(pg2[s.p]).entries[slot + 1] == node_at(pg[s.p]).entries[slot]);
        } else {
            assert(!is_shifted(sh.kinds[q], s.t, s.c, s.p, s.i));
            assert(!is_moved(sh.kinds[q], s.t, s.c, s.ch, mid));
            assert(node_at(pg2[s.p]).entries[slot] == node_at(pg[s.p]).entries[slot]);
        }
    } else if up == s.ch {
        assert(!is_shifted(sh.kinds[q], s.t, s.c, s.p, s.i));
        if slot >= mid {
            assert(is_moved(sh.kinds[q], s.t, s.c, s.ch, mid));
            assert(node_at(pg2[s.r]).entries[slot - mid] == node_at(pg[s.ch]).entries[slot]);
        } else {
            assert(node_at(pg2[s.ch]).entries[slot] == node_at(pg[s.ch]).entries[slot]);
        }
    } else {
        assert(!is_shifted(sh.kinds[q], s.t, s.c, s.p, s.i));
        assert(!is_moved(sh.kinds[q], s.t, s.c, s.ch, mid));
        assert(node_at(pg2[up]).entries == node_at(pg[up]).entries);
        assert(in_tree(sh2.kinds[up], s.t, s.c) && node_height(sh2.kinds[up]) == node_height(sh.kinds[up]));
    }
}

/// A node that the split did not write keeps its entries, its range and its
/// height.
#[verifier::spinoff_prover]
proof fn lemma_split_kept(pg: Seq<Seq<u8>>, sh: Shape, pg1: Seq<Seq<u8>>, sh1: Shape, pg2: Seq<Seq<u8>>, sh2: Shape, s: Split, relax: Relax, q: int)
    requires
        split_edit(pg, sh, pg1, sh1, pg2, sh2, s, relax),
        0 < q < pg2.len(),
        in_tree(sh2.kinds[q], s.t, s.c),
        q != s.p,
        q != s.ch,
        q != s.r,
    ensures
        q < pg.len(),
        in_tree(sh.kinds[q], s.t, s.c),
        sh2.kinds[q] == rehung(sh.kinds[q], node_parent(sh2.kinds[q]), node_slot(sh2.kinds[q])),
        q == root_of(pg, s.t, s.c) ==> sh2.kinds[q] == sh.kinds[q],
        node_at(pg2[q]).entries == node_at(pg[q]).entries,
        node_at(pg2[q]).leaf == node_at(pg[q]).leaf,
        node_at(pg2[q]).cap == node_at(pg[q]).cap,
        node_at(pg2[q]).key_size == node_at(pg[q]).key_size,
        node_at(pg2[q]).next == node_at(pg[q]).next,
        !(node_at(pg[s.ch]).leaf && q == node_at(pg[s.ch]).next) ==> node_at(pg2[q]).prev == node_at(pg[q]).prev,
        node_ok(pg, sh, q, relax),
{
    lemma_split_facts(pg, sh, pg1, sh1, pg2, sh2, s, relax);
    reveal(split_edit);
    reveal(split_written);
    lemma_descend(pg, sh, s.t, s.c, q, relax);
    if q == root_of(pg, s.t, s.c) {
        assert(node_parent(sh.kinds[q]) == q);
    }
}

#[verifier::spinoff_prover]
proof fn lemma_split_other(pg: Seq<Seq<u8>>, sh: Shape, pg1: Seq<Seq<u8>>, sh1: Shape, pg2: Seq<Seq<u8>>, sh2: Shape, s: Split, relax: Relax, q: int)
    requires
        split_edit(pg, sh, pg1, sh1, pg2, sh2, s, relax),
        0 < q < pg2.len(),
        in_tree(sh2.kinds[q], s.t, s.c),
        q != s.p,
        q != s.ch,
        q != s.r,
        !(node_at(pg[s.ch]).leaf && q == node_at(pg[s.ch]).next),
    ensures
        node_ok(pg2, sh2, q, split_relax(pg2, sh2, s)),
{
    lemma_split_kept(pg, sh, pg1, sh1, pg2, sh2, s, relax, q);
    lemma_split_facts(pg, sh, pg1, sh1, pg2, sh2, s, relax);
    let relax2 = split_relax(pg2, sh2, s);
    let ks = width_of(pg, s.t, s.c);
    let n = node_at(pg[q]).entries.len();
    if q != root_of(pg, s.t, s.c) {
        lemma_split_hung(pg, sh, pg1, sh1, pg2, sh2, s, relax, q);
    }
    if node_height(sh.kinds[q]) > 0 {
        assert forall|j: int| 0 <= j < n implies #[trigger] child_ok(pg2, sh2, q, j) by {
            assert(child_ok(pg, sh, q, j));
            let z = node_at(pg[q]).entries[j].child as int;
            lemma_split_label(pg, sh, pg1, sh1, pg2, sh2, s, relax, z);
        }
    } else {
        lemma_split_links(pg, sh, pg1, sh1, pg2, sh2, s, relax, q);
    }
    assert(crate::tree::tree_same(pg, sh, pg2, sh2, s.t, s.c)) by {
        reveal(split_edit);
        reveal(structure_inv);
        assert(page_ok(pg, sh, s.t, relax));
        assert(root_ok_at(pg, sh, s.t, s.c));
    }
    crate::tree::lemma_node_moved(pg, sh, pg2, sh2, s.t, s.c, relax, relax2, q);
}

/// The role of a node whose parent is neither the parent nor the child of the
/// split is what it was.
#[verifier::spinoff_prover]
proof fn lemma_split_label(pg: Seq<Seq<u8>>, sh: Shape, pg1: Seq<Seq<u8>>, sh1: Shape, pg2: Seq<Seq<u8>>, sh2: Shape, s: Split, relax: Relax, z: int)
    requires
        split_edit(pg, sh, pg1, sh1, pg2, sh2, s, relax),
        0 < z < pg.len(),
        in_tree(sh.kinds[z], s.t, s.c),
        node_parent(sh.kinds[z]) != s.p,
        node_parent(sh.kinds[z]) != s.ch,
    ensures
        sh2.kinds[z] == sh.kinds[z],
{
    lemma_split_parent_entries(pg, sh, pg1, sh1, pg2, sh2, s, relax);
    assert(child_ok(pg, sh, s.p, s.i));
    assert(!is_shifted(sh.kinds[z], s.t, s.c, s.p, s.i));
    assert(!is_moved(sh.kinds[z], s.t, s.c, s.ch, cut(pg, s)));
}

/// No leaf but the one that follows the child in the ring has the child for its
/// predecessor.
#[verifier::spinoff_prover]
proof fn lemma_split_not_prev(pg: Seq<Seq<u8>>, sh: Shape, pg1: Seq<Seq<u8>>, sh1: Shape, pg2: Seq<Seq<u8>>, sh2: Shape, s: Split, relax: Relax, q: int)
    requires
        split_edit(pg, sh, pg1, sh1, pg2, sh2, s, relax),
        0 < q < pg.len(),
        in_tree(sh.kinds[q], s.t, s.c),
        node_height(sh.kinds[q]) == 0,
        q != s.ch,
        !(node_at(pg[s.ch]).leaf && q == node_at(pg[s.ch]).next),
    ensures
        node_at(pg[q]).prev != s.ch,
{
    assert(image_inv(pg, sh, relax)) by {
        reveal(split_edit);
    }
    let ks = width_of(pg, s.t, s.c);
    lemma_descend(pg, sh, s.t, s.c, q, relax);
    assert(leaf_links_ok(pg, sh, q, ks));
    if node_at(pg[q]).prev == s.ch {
        lemma_split_parent_entries(pg, sh, pg1, sh1, pg2, sh2, s, relax);
        lemma_descend(pg, sh, s.t, s.c, s.ch, relax);
        assert(node_at(pg[s.ch]).leaf);
        let cn = node_at(pg[s.ch]).next as int;
        assert(leaf_links_ok(pg, sh, s.ch, ks));
        lemma_descend(pg, sh, s.t, s.c, cn, relax);
        reveal(structure_inv);
        assert(apart(sh, cn, q));
        assert(apart(sh, s.ch, q));
        assert(false);
    }
}

/// A leaf that the split did not write still leads to the leaves next to it.
#[verifier::spinoff_prover]
proof fn lemma_split_links(pg: Seq<Seq<u8>>, sh: Shape, pg1: Seq<Seq<u8>>, sh1: Shape, pg2: Seq<Seq<u8>>, sh2: Shape, s: Split, relax: Relax, q: int)
    requires
        split_edit(pg, sh, pg1, sh1, pg2, sh2, s, relax),
        0 < q < pg.len(),
        in_tree(sh.kinds[q], s.t, s.c),
        node_height(sh.kinds[q]) == 0,
        q != s.p,
        q != s.ch,
        q != s.r,
        !(node_at(pg[s.ch]).leaf && q == node_at(pg[s.ch]).next),
    ensures
        leaf_links_ok(pg2, sh2, q, width_of(pg, s.t, s.c)),
{
    lemma_split_old(pg, sh, pg1, sh1, pg2, sh2, s, relax, q);
    lemma_split_kept(pg, sh, pg1, sh1, pg2, sh2, s, relax, q);
    lemma_split_not_prev(pg, sh, pg1, sh1, pg2, sh2, s, relax, q);
    let ks = width_of(pg, s.t, s.c);
    assert(leaf_links_ok(pg, sh, q, ks));
    let nx = node_at(pg[q]).next as int;
    let pv = node_at(pg[q]).prev as int;
    lemma_split_range(pg, sh, pg1, sh1, pg2, sh2, s, relax, nx);
    lemma_split_range(pg, sh, pg1, sh1, pg2, sh2, s, relax, pv);
}

/// A node of the tree before the split is a node of the tree after it, at the
/// same height and with the same lower end of its range, and, unless it is the
/// child, the same upper end.
#[verifier::spinoff_prover]
proof fn lemma_split_range(pg: Seq<Seq<u8>>, sh: Shape, pg1: Seq<Seq<u8>>, sh1: Shape, pg2: Seq<Seq<u8>>, sh2: Shape, s: Split, relax: Relax, x: int)
    requires
        split_edit(pg, sh, pg1, sh1, pg2, sh2, s, relax),
        0 <= x < pg.len(),
        in_tree(sh.kinds[x], s.t, s.c),
    ensures
        in_tree(sh2.kinds[x], s.t, s.c),
        node_height(sh2.kinds[x]) == node_height(sh.kinds[x]),
        node_lo(sh2.kinds[x]) == node_lo(sh.kinds[x]),
        x != s.ch ==> node_hi(sh2.kinds[x]) == node_hi(sh.kinds[x]),
        x < pg2.len(),
{
    lemma_split_parent_entries(pg, sh, pg1, sh1, pg2, sh2, s, relax);
}

/// The ranges of the leaves do not overlap after the split.
#[verifier::spinoff_prover]
proof fn lemma_split_apart(pg: Seq<Seq<u8>>, sh: Shape, pg1: Seq<Seq<u8>>, sh1: Shape, pg2: Seq<Seq<u8>>, sh2: Shape, s: Split, relax: Relax, a: int, b: int)
    requires
        split_edit(pg, sh, pg1, sh1, pg2, sh2, s, relax),
        0 <= a < pg2.len(),
        0 <= b < pg2.len(),
        in_tree(sh2.kinds[a], s.t, s.c),
        in_tree(sh2.kinds[b], s.t, s.c),
    ensures
        apart(sh2, a, b),
{
    lemma_split_facts(pg, sh, pg1, sh1, pg2, sh2, s, relax);
    lemma_split_parent_entries(pg, sh, pg1, sh1, pg2, sh2, s, relax);
    let a0 = if a == s.r { s.ch } else { a };
    let b0 = if b == s.r { s.ch } else { b };
    assert(sh.kinds[0] is Meta) by {
        reveal(split_edit);
    }
    assert(apart(sh, a0, b0)) by {
        reveal(split_edit);
        reveal(structure_inv);
    }
    if a != s.r && a != s.ch && a != s.p {
        lemma_split_kept(pg, sh, pg1, sh1, pg2, sh2, s, relax, a);
    }
    if b != s.r && b != s.ch && b != s.p {
        lemma_split_kept(pg, sh, pg1, sh1, pg2, sh2, s, relax, b);
    }
}

/// The split moves entries between leaves and changes none.
#[verifier::spinoff_prover]
proof fn lemma_split_set(pg: Seq<Seq<u8>>, sh: Shape, pg1: Seq<Seq<u8>>, sh1: Shape, pg2: Seq<Seq<u8>>, sh2: Shape, s: Split, relax: Relax)
    requires
        split_edit(pg, sh, pg1, sh1, pg2, sh2, s, relax),
    ensures
        entries_of(pg2, sh2, s.t as nat, s.c as nat) == entries_of(pg, sh, s.t as nat, s.c as nat),
{
    lemma_split_facts(pg, sh, pg1, sh1, pg2, sh2, s, relax);
    lemma_split_parent_entries(pg, sh, pg1, sh1, pg2, sh2, s, relax);
    let t = s.t as nat;
    let c = s.c as nat;
    let mid = cut(pg, s);
    let a = entries_of(pg, sh, t, c);
    let b = entries_of(pg2, sh2, t, c);
    let es = node_at(pg[s.ch]).entries;
    assert forall|e: (Seq<u8>, u32)| a.contains(e) == b.contains(e) by {
        if a.contains(e) {
            let (q, j) = choose|q: int, j: int| #[trigger] holds(pg, sh, t, c, q, j, e);
            if q == s.ch {
                if j < mid {
                    assert(node_at(pg2[s.ch]).entries[j] == es[j]);
                    assert(holds(pg2, sh2, t, c, s.ch, j, e));
                } else {
                    assert(node_at(pg2[s.r]).entries[j - mid] == es[j]);
                    assert(holds(pg2, sh2, t, c, s.r, j - mid, e));
                }
            } else {
                assert(q != s.p && q != s.r);
                lemma_split_old(pg, sh, pg1, sh1, pg2, sh2, s, relax, q);
                assert(holds(pg2, sh2, t, c, q, j, e));
            }
        }
        if b.contains(e) {
            let (q, j) = choose|q: int, j: int| #[trigger] holds(pg2, sh2, t, c, q, j, e);
            if q == s.ch {
                assert(node_at(pg2[s.ch]).entries[j] == es[j]);
                assert(holds(pg, sh, t, c, s.ch, j, e));
            } else if q == s.r {
                assert(node_at(pg2[s.r]).entries[j] == es[j + mid]);
                assert(holds(pg, sh, t, c, s.ch, j + mid, e));
            } else {
                assert(q != s.p);
                lemma_split_kept(pg, sh, pg1, sh1, pg2, sh2, s, relax, q);
                assert(holds(pg, sh, t, c, q, j, e));
            }
        }
    }
    assert(a =~= b);
}

/// A node of the tree before the split, other than the parent and the child, is
/// a node of the tree after it, at the same height.
#[verifier::spinoff_prover]
proof fn lemma_split_old(pg: Seq<Seq<u8>>, sh: Shape, pg1: Seq<Seq<u8>>, sh1: Shape, pg2: Seq<Seq<u8>>, sh2: Shape, s: Split, relax: Relax, q: int)
    requires
        split_edit(pg, sh, pg1, sh1, pg2, sh2, s, relax),
        0 <= q < pg.len(),
        in_tree(sh.kinds[q], s.t, s.c),
        q != s.p,
        q != s.ch,
    ensures
        in_tree(sh2.kinds[q], s.t, s.c),
        node_height(sh2.kinds[q]) == node_height(sh.kinds[q]),
        q != s.r,
        0 < q < pg2.len(),
{
    lemma_split_parent_entries(pg, sh, pg1, sh1, pg2, sh2, s, relax);
    assert(sh.kinds[0] is Meta) by {
        reveal(split_edit);
    }
}

#[verifier::spinoff_prover]
proof fn lemma_split_rest(pg: Seq<Seq<u8>>, sh: Shape, pg1: Seq<Seq<u8>>, sh1: Shape, pg2: Seq<Seq<u8>>, sh2: Shape, s: Split, relax: Relax)
    requires
        split_edit(pg, sh, pg1, sh1, pg2, sh2, s, relax),
        entries_of(pg2, sh2, s.t as nat, s.c as nat) == entries_of(pg, sh, s.t as nat, s.c as nat),
    ensures
        root_ok_at(pg2, sh2, s.t, s.c),
        table_of(pg2, s.t).cols[s.c].flags.unique ==> table_of(pg2, s.t).cols[s.c].index != NONE,
        unique_ok_at(pg2, sh2, s.t, s.c),
        relax_in(relax, sh, s.t, s.c),
        relax_in(split_relax(pg2, sh2, s), sh2, s.t, s.c),
{
    lemma_split_facts(pg, sh, pg1, sh1, pg2, sh2, s, relax);
    lemma_split_parent_entries(pg, sh, pg1, sh1, pg2, sh2, s, relax);
    reveal(split_edit);
    reveal(structure_inv);
    assert(page_ok(pg, sh, s.t, relax));
    assert(root_ok_at(pg, sh, s.t, s.c));
    assert(unique_ok_at(pg, sh, s.t, s.c));
    let root = root_of(pg, s.t, s.c);
    if root != s.p {
        lemma_descend(pg, sh, s.t, s.c, root, relax);
        assert(root != s.ch);
        lemma_split_old(pg, sh, pg1, sh1, pg2, sh2, s, relax, root);
        lemma_split_kept(pg, sh, pg1, sh1, pg2, sh2, s, relax, root);
    }
}

/// Splitting a child that holds one entry too many leaves a tree that obeys
/// the rules, but that the parent may now hold one entry too many; the entries
/// of the index are what they were.
#[verifier::spinoff_prover]
pub proof fn lemma_split(pg: Seq<Seq<u8>>, sh: Shape, pg1: Seq<Seq<u8>>, sh1: Shape, pg2: Seq<Seq<u8>>, sh2: Shape, s: Split, relax: Relax)
    requires
        split_edit(pg, sh, pg1, sh1, pg2, sh2, s, relax),
    ensures
        image_inv(pg2, sh2, split_relax(pg2, sh2, s)),
        index_touch(pg, sh, pg2, sh2, s.t, s.c),
        entries_of(pg2, sh2, s.t as nat, s.c as nat) == entries_of(pg, sh, s.t as nat, s.c as nat),
        sh2.kinds[s.p] == sh.kinds[s.p],
        sh2.trees == sh.trees,
        table_of(pg2, s.t) == table_of(pg, s.t),
{
    let relax2 = split_relax(pg2, sh2, s);
    lemma_split_facts(pg, sh, pg1, sh1, pg2, sh2, s, relax);
    lemma_split_pager(pg, sh, pg1, sh1, pg2, sh2, s, relax);
    lemma_split_set(pg, sh, pg1, sh1, pg2, sh2, s, relax);
    lemma_split_rest(pg, sh, pg1, sh1, pg2, sh2, s, relax);
    lemma_split_parent(pg, sh, pg1, sh1, pg2, sh2, s, relax);
    lemma_split_left(pg, sh, pg1, sh1, pg2, sh2, s, relax);
    lemma_split_right(pg, sh, pg1, sh1, pg2, sh2, s, relax);
    let leaf = node_at(pg[s.ch]).leaf;
    let nx = node_at(pg[s.ch]).next as int;
    if leaf && nx != s.ch {
        lemma_split_next(pg, sh, pg1, sh1, pg2, sh2, s, relax);
    }
    assert forall|q: int| 0 <= q < pg2.len() && in_tree(#[trigger] sh2.kinds[q], s.t, s.c) implies node_ok(pg2, sh2, q, relax2) by {
        if q != s.p && q != s.ch && q != s.r && !(leaf && q == nx) {
            assert(sh2.kinds[0] is Meta);
            lemma_split_other(pg, sh, pg1, sh1, pg2, sh2, s, relax, q);
        }
    }
    assert forall|a: int, b: int| 0 <= a < pg2.len() && 0 <= b < pg2.len() && in_tree(sh2.kinds[a], s.t, s.c) && in_tree(sh2.kinds[b], s.t, s.c) implies #[trigger] apart(sh2, a, b) by {
        lemma_split_apart(pg, sh, pg1, sh1, pg2, sh2, s, relax, a, b);
    }
    assert(image_inv(pg, sh, relax)) by {
        reveal(split_edit);
    }
    lemma_index_touch(pg, sh, pg2, sh2, s.t, s.c, relax, relax2);
}

/// A split touches the parent, its children and their children only: a node
/// higher up in the tree keeps its bytes and its role.
#[verifier::spinoff_prover]
pub proof fn lemma_split_above(pg: Seq<Seq<u8>>, sh: Shape, pg1: Seq<Seq<u8>>, sh1: Shape, pg2: Seq<Seq<u8>>, sh2: Shape, s: Split, relax: Relax, q: int)
    requires
        split_edit(pg, sh, pg1, sh1, pg2, sh2, s, relax),
        0 <= q < pg.len(),
        in_tree(sh.kinds[q], s.t, s.c),
        node_height(sh.kinds[q]) > node_height(sh.kinds[s.p]),
    ensures
        pg2[q] == pg[q],
        sh2.kinds[q] == sh.kinds[q],
{
    lemma_split_facts(pg, sh, pg1, sh1, pg2, sh2, s, relax);
    lemma_split_parent_entries(pg, sh, pg1, sh1, pg2, sh2, s, relax);
    reveal(split_edit);
    reveal(split_written);
    lemma_descend(pg, sh, s.t, s.c, q, relax);
    if q != root_of(pg, s.t, s.c) {
        assert(parent_ok(pg, sh, q));
        lemma_descend(pg, sh, s.t, s.c, node_parent(sh.kinds[q]), relax);
    }
}

/// What the rules give a split before it starts.
#[verifier::spinoff_prover]
pub proof fn lemma_split_ready(pg: Seq<Seq<u8>>, sh: Shape, t: int, c: int, p: int, i: int, relax: Relax)
    requires
        image_inv(pg, sh, relax),
        0 < p < pg.len(),
        in_tree(sh.kinds[p], t, c),
        node_height(sh.kinds[p]) > 0,
        0 <= i < node_at(pg[p]).entries.len(),
        relax.over == Some(node_at(pg[p]).entries[i].child as nat),
        relax.under is None || relax.under == Some(p as nat),
        node_at(pg[node_at(pg[p]).entries[i].child as int]).entries.len() > sh.trees[(t as nat, c as nat)].cap,
    ensures
        ({
            let ch = node_at(pg[p]).entries[i].child as int;
            let cv = node_at(pg[ch]);
            let pv = node_at(pg[p]);
            &&& pager_inv(pg, sh)
            &&& 0 < ch < pg.len()
            &&& ch != p
            &&& pg[ch].len() == PAGE_SIZE
            &&& pg[p].len() == PAGE_SIZE
            &&& cv.entries.len() == sh.trees[(t as nat, c as nat)].cap + 1
            &&& cv.entries.len() >= 3
            &&& cv.key_size == pv.key_size
            &&& !pv.leaf
            &&& pv.entries.len() + 1 <= fit(pv.key_size as int, false)
            &&& pv.cap == sh.trees[(t as nat, c as nat)].cap
            &&& cv.leaf ==> 0 < cv.next < pg.len() && pg[cv.next as int].len() == PAGE_SIZE && cv.next != p
            &&& in_tree(sh.kinds[ch], t, c)
        }),
{
    lemma_descend(pg, sh, t, c, p, relax);
    assert(child_ok(pg, sh, p, i));
    let ch = node_at(pg[p]).entries[i].child as int;
    lemma_descend(pg, sh, t, c, ch, relax);
    reveal(structure_inv);
    assert(page_ok(pg, sh, t, relax));
    assert(root_ok_at(pg, sh, t, c));
    if node_at(pg[ch]).leaf {
        assert(leaf_links_ok(pg, sh, ch, width_of(pg, t, c)));
    }
}

/// A split leaves alone the pages that had no role before.
#[verifier::spinoff_prover]
pub proof fn lemma_split_loose(pg: Seq<Seq<u8>>, sh: Shape, pg1: Seq<Seq<u8>>, sh1: Shape, pg2: Seq<Seq<u8>>, sh2: Shape, s: Split, relax: Relax)
    requires
        split_edit(pg, sh, pg1, sh1, pg2, sh2, s, relax),
    ensures
        loose_kept(pg, sh, pg2, sh2),
{
    lemma_split_facts(pg, sh, pg1, sh1, pg2, sh2, s, relax);
    reveal(split_edit);
    reveal(split_written);
    reveal(loose_kept);
    let cv = node_at(pg[s.ch]);
    assert(sh.kinds[0] is Meta) by {
        assert(pager_inv(pg, sh));
    }
    assert forall|x: int| 0 <= x < pg.len() && (#[trigger] sh.kinds[x]) is Loose implies x < pg2.len() && sh2.kinds[x] is Loose && pg2[x] == pg[x] by {
        assert(x != 0 && x != s.p && x != s.ch && x != s.r);
        assert(sh1.kinds[x] == sh.kinds[x]);
        assert(pg1[x] == pg[x]);
        if cv.leaf {
            assert(x != cv.next);
        }
        assert(pg2[x] == pg1[x]);
    }
}

impl Db {
    /// Every rule of the format holds, with the exception `relax` names.
    pub open spec fn holds_but(&self, relax: Relax) -> bool {
        image_inv(self.image(), self.shape(), relax)
    }

    /// Moves the upper half of the entries of the child `ch` of the node `p` to
    /// the page `r` and records `r` in `p` behind the child.
    #[verifier::spinoff_prover]
    #[verifier::rlimit(50)]
    fn split_write(&mut self, p: usize, i: usize, ch: usize, r: usize)
        requires
            p < old(self).page_count(),
            ch < old(self).page_count(),
            r < old(self).page_count(),
            r < MAX_PAGE,
            ch < MAX_PAGE,
            p != ch,
            p != r,
            ch != r,
            old(self).image()[p as int].len() == PAGE_SIZE,
            old(self).image()[ch as int].len() == PAGE_SIZE,
            old(self).image()[r as int].len() == PAGE_SIZE,
            node_at(old(self).image()[ch as int]).entries.len() >= 2,
            i < node_at(old(self).image()[p as int]).entries.len(),
            !node_at(old(self).image()[p as int]).leaf,
            node_at(old(self).image()[p as int]).entries.len() + 1 <= fit(node_at(old(self).image()[p as int]).key_size as int, false),
            node_at(old(self).image()[ch as int]).key_size == node_at(old(self).image()[p as int]).key_size,
            node_at(old(self).image()[ch as int]).leaf ==> {
                let nx = node_at(old(self).image()[ch as int]).next;
                nx < old(self).page_count() && old(self).image()[nx as int].len() == PAGE_SIZE && nx != p && nx != r
            },
        ensures
            split_written(old(self).image(), final(self).image(), Split { t: 0, c: 0, p: p as int, i: i as int, ch: ch as int, r: r as int }),
            final(self).shape() == old(self).shape(),
            final(self).spec_path() == old(self).spec_path(),
    {
        let ghost pg1 = self.image();
        let ghost cv = node_at(pg1[ch as int]);
        let ghost pv = node_at(pg1[p as int]);
        proof {
            lemma_decoded(pg1[ch as int]);
            lemma_decoded(pg1[p as int]);
        }
        let mut cn = load_node(self.get_page(ch));
        assert(cn@.entries == evs(cn.entries@));
        let n: usize = cn.entries.len();
        let mid: usize = n / 2;
        let right = cn.entries.split_off(mid);
        assert(evs(right@)[0] == right@[0]@);
        let sep_key = to_vec_key(&right[0].key);
        let sep_rid: u32 = right[0].rid;
        let leaf: bool = cn.leaf;
        let old_next: u32 = cn.next;
        let rn = IndexPage { prev: if leaf { ch as u32 } else { r as u32 }, next: if leaf { old_next } else { r as u32 }, leaf, cap: cn.cap, key_size: cn.key_size, entries: right };
        if leaf {
            cn.next = r as u32;
            if old_next as usize == ch {
                cn.prev = r as u32;
            }
        }
        proof {
            assert(cn@.entries =~= cv.entries.subrange(0, mid as int));
            assert(rn@.entries =~= cv.entries.subrange(mid as int, n as int));
            assert(storable(cn@));
            assert(storable(rn@));
        }
        self.write_node(ch, &cn);
        proof {
            reveal(crate::tree::node_written);
        }
        let ghost pga = self.image();
        self.write_node(r, &rn);
        let ghost pgb = self.image();
        if leaf && old_next as usize != ch {
            let mut nn = load_node(self.get_page(old_next as usize));
            proof {
                lemma_decoded(pgb[old_next as int]);
            }
            nn.prev = r as u32;
            self.write_node(old_next as usize, &nn);
        }
        let ghost pgc = self.image();
        let mut pn = load_node(self.get_page(p));
        assert(pn@.entries == evs(pn.entries@));
        pn.entries.insert(i + 1, Entry { key: sep_key, rid: sep_rid, child: r as u32 });
        proof {
            reveal(crate::tree::node_written);
            assert(pgc[p as int] == pg1[p as int]);
            assert(pn@.entries =~= pv.entries.insert(i + 1, EntryV { key: cv.entries[mid as int].key, rid: cv.entries[mid as int].rid, child: r as u32 }));
            assert(storable(pn@));
        }
        self.write_node(p, &pn);
        proof {
            reveal(split_written);
        }
    }

    /// Splits child `i` of the node `p`, which holds one entry too many: the upper
    /// half of its entries moves to a new node behind it. Tells whether `p` now
    /// holds one entry too many.
    #[verifier::spinoff_prover]
    pub(crate) fn split_child(&mut self, p: usize, i: usize, Ghost(t): Ghost<int>, Ghost(c): Ghost<int>, Ghost(relax): Ghost<Relax>) -> (over: bool)
        requires
            old(self).holds_but(relax),
            0 < p < old(self).page_count(),
            in_tree(old(self).shape().kinds[p as int], t, c),
            node_height(old(self).shape().kinds[p as int]) > 0,
            i < node_at(old(self).image()[p as int]).entries.len(),
            relax.over == Some(node_at(old(self).image()[p as int]).entries[i as int].child as nat),
            relax.under is None || relax.under == Some(p as nat),
            node_at(old(self).image()[node_at(old(self).image()[p as int]).entries[i as int].child as int]).entries.len() > old(self).shape().trees[(t as nat, c as nat)].cap,
            old(self).free_list().len() > 0 || old(self).page_count() < MAX_PAGE,
        ensures
            final(self).holds_but(over_at(final(self).image(), final(self).shape(), t, c, p as int)),
            over == (over_at(final(self).image(), final(self).shape(), t, c, p as int).over is Some),
            index_touch(old(self).image(), old(self).shape(), final(self).image(), final(self).shape(), t, c),
            final(self).entries(t as nat, c as nat) == old(self).entries(t as nat, c as nat),
            final(self).shape().kinds[p as int] == old(self).shape().kinds[p as int],
            final(self).shape().trees == old(self).shape().trees,
            table_of(final(self).image(), t) == table_of(old(self).image(), t),
            node_at(final(self).image()[p as int]).entries.len() == node_at(old(self).image()[p as int]).entries.len() + 1,
            old(self).page_count() <= final(self).page_count() <= old(self).page_count() + 1,
            final(self).room() == old(self).room() - 1,
            loose_kept(old(self).image(), old(self).shape(), final(self).image(), final(self).shape()),
            crate::insert::kept_above(old(self).image(), old(self).shape(), final(self).image(), final(self).shape(), t, c, node_height(old(self).shape().kinds[p as int])),
            final(self).spec_path() == old(self).spec_path(),
    {
        let ghost pg = self.image();
        let ghost sh = self.shape();
        proof {
            lemma_split_ready(pg, sh, t, c, p as int, i as int, relax);
        }
        let pn = load_node(self.get_page(p));
        assert(pn@.entries[i as int] == pn.entries@[i as int]@);
        let ch: usize = pn.entries[i].child as usize;
        let cap: usize = pn.cap as usize;
        let count: usize = pn.entries.len();
        let r: usize = self.allocate_page();
        let ghost pg1 = self.image();
        let ghost sh1 = self.shape();
        assert(r != p && r != ch && pg1[p as int] == pg[p as int] && pg1[ch as int] == pg[ch as int]);
        proof {
            let cv = node_at(pg[ch as int]);
            if cv.leaf {
                assert(pg1[cv.next as int] == pg[cv.next as int]);
                assert(in_tree(sh.kinds[cv.next as int], t, c)) by {
                    lemma_descend(pg, sh, t, c, ch as int, relax);
                    assert(leaf_links_ok(pg, sh, ch as int, width_of(pg, t, c)));
                }
            }
        }
        self.split_write(p, i, ch, r);
        let ghost s = Split { t, c, p: p as int, i: i as int, ch: ch as int, r: r as int };
        self.set_shape(Ghost(split_shape(pg, sh1, s)));
        proof {
            let pg2 = self.image();
            let sh2 = self.shape();
            assert(split_written(pg1, pg2, s)) by {
                reveal(split_written);
            }
            assert(split_edit(pg, sh, pg1, sh1, pg2, sh2, s, relax)) by {
                reveal(split_edit);
            }
            lemma_split(pg, sh, pg1, sh1, pg2, sh2, s, relax);
            lemma_split_loose(pg, sh, pg1, sh1, pg2, sh2, s, relax);
            lemma_split_parent_entries(pg, sh, pg1, sh1, pg2, sh2, s, relax);
            assert forall|q: int| #[trigger] crate::insert::is_above(sh, t, c, q, node_height(sh.kinds[p as int])) implies q < pg.len() && q < pg2.len() && pg2[q] == pg[q] && sh2.kinds[q] == sh.kinds[q] by {
                lemma_split_above(pg, sh, pg1, sh1, pg2, sh2, s, relax, q);
            }
            assert(node_at(pg2[p as int]).entries.len() == count + 1);
        }
        count + 1 > cap
    }
}

/// A copy of a key.
#[verifier::spinoff_prover]
pub fn to_vec_key(k: &Vec<u8>) -> (r: Vec<u8>)
    ensures
        r@ == k@,
{
    crate::create::to_vec(k.as_slice())
}

} // verus!
