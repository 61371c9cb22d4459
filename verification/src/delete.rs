//! Removing an entry from an index.

use vstd::prelude::*;
use crate::shape::tight;
use crate::frames::{in_tree, index_touch, lemma_index_touch, relax_in, tree_ok};
use crate::catalog::{index_step, lemma_index_step};
use crate::db::Db;
use crate::insert::{is_above, kept_above, lemma_fits, lemma_touch_twice, read_col_of};
use crate::key::{Rel, entry_rel, lemma_rank_bound, lemma_rank_injective};
use crate::layout::{MAX_COL, MAX_PAGE};
use crate::node::{Entry, IndexPage, load_node, storable};
use crate::release::lemma_root_facts;
use crate::scan::lemma_here;
use crate::search::{child_for, evs, keyed, lemma_decoded, lower_bound};
use crate::tree::lemma_step_down;
use crate::insert::{beside, is_unique, lemma_node_beside};
use crate::key::rank;
use crate::layout::{NONE, PAGE_SIZE};
use crate::node::{EntryV, NodeV, node_at};
use crate::release::{node_height, node_hi, node_lo};
use crate::scan::{leaf_in, lemma_there};
use crate::shape::{Kind, Relax, Shape, apart, child_ok, entries_of, free_ok_at, holds, image_inv, keys_distinct, leaf_links_ok, min_fill, node_ok, page_ok, pager_inv, parent_ok, rank_of, root_ok_at, sorted, structure_inv, table_of, unique_ok_at, within};
use crate::tree::{lemma_descend, node_parent, node_slot, node_written, root_of, width_of};

verus! {

/// Whether the node `p` holds fewer entries than it has to: a root above the
/// leaves needs two, any other node but the root half the fan-out, rounded up.
pub open spec fn is_under(pg: Seq<Seq<u8>>, sh: Shape, t: int, c: int, p: int) -> bool {
    let n = node_at(pg[p]).entries.len() as int;
    if p == root_of(pg, t, c) {
        node_height(sh.kinds[p]) > 0 && n < 2
    } else {
        n < min_fill(sh.trees[(t as nat, c as nat)].cap as int)
    }
}

/// The exception a deletion leaves behind at the node `p`: none, unless it
/// holds fewer entries than it has to.
pub open spec fn under_at(pg: Seq<Seq<u8>>, sh: Shape, t: int, c: int, p: int) -> Relax {
    Relax {
        over: None,
        under: if is_under(pg, sh, t, c, p) {
            Some(p as nat)
        } else {
            None
        },
    }
}

/// What [`lemma_leaf_take`] asks: the leaf `p` was written without its entry at
/// position `i`.
#[verifier::opaque]
pub open spec fn leaf_take(pg: Seq<Seq<u8>>, sh: Shape, pg2: Seq<Seq<u8>>, t: int, c: int, p: int, i: int) -> bool {
    let nv = node_at(pg[p]);
    &&& image_inv(pg, sh, tight())
    &&& leaf_in(pg, sh, t, c, p)
    &&& 0 <= i < nv.entries.len()
    &&& node_written(pg, pg2, p, NodeV { entries: nv.entries.remove(i), ..nv })
}

#[verifier::spinoff_prover]
proof fn lemma_leaf_take_node(pg: Seq<Seq<u8>>, sh: Shape, pg2: Seq<Seq<u8>>, t: int, c: int, p: int, i: int)
    requires
        leaf_take(pg, sh, pg2, t, c, p, i),
    ensures
        pager_inv(pg2, sh),
        index_touch(pg, sh, pg2, sh, t, c),
        node_ok(pg2, sh, p, under_at(pg2, sh, t, c, p)),
        forall|q: int| 0 <= q < pg.len() && q != p && in_tree(sh.kinds[q], t, c) ==> #[trigger] beside(pg, sh, pg2, p, q),
        0 <= c < table_of(pg, t).cols.len(),
        pg2.len() == pg.len(),
        table_of(pg2, t) == table_of(pg, t),
{
    reveal(leaf_take);
    reveal(node_written);
    lemma_descend(pg, sh, t, c, p, tight());
    let nv = node_at(pg[p]);
    let es = nv.entries;
    let es2 = node_at(pg2[p]).entries;
    assert forall|k: int| 0 <= k < sh.free.len() implies #[trigger] free_ok_at(pg2, sh, k) by {
        assert(free_ok_at(pg, sh, k));
    }
    assert(index_touch(pg, sh, pg2, sh, t, c) && 0 <= c < table_of(pg, t).cols.len() && table_of(pg2, t) == table_of(pg, t)) by {
        reveal(structure_inv);
        assert(page_ok(pg, sh, t, tight()));
    }
    assert forall|a: int, b: int| 0 <= a < b < es2.len() implies rank_of(#[trigger] es2[a]) < rank_of(#[trigger] es2[b]) by {
        let a0 = if a < i { a } else { a + 1 };
        let b0 = if b < i { b } else { b + 1 };
        assert(rank_of(es[a0]) < rank_of(es[b0]));
    }
    assert forall|k: int| 0 <= k < es2.len() implies node_lo(sh.kinds[p]) <= rank_of(#[trigger] es2[k]) < node_hi(sh.kinds[p]) by {
        let k0 = if k < i { k } else { k + 1 };
        assert(node_lo(sh.kinds[p]) <= rank_of(es[k0]) < node_hi(sh.kinds[p]));
    }
    assert(leaf_links_ok(pg2, sh, p, width_of(pg, t, c))) by {
        assert(leaf_links_ok(pg, sh, p, width_of(pg, t, c)));
    }
    if p != root_of(pg, t, c) {
        assert(parent_ok(pg2, sh, p)) by {
            assert(parent_ok(pg, sh, p));
            let up = node_parent(sh.kinds[p]);
            lemma_descend(pg, sh, t, c, up, tight());
        }
    }
    assert forall|q: int| 0 <= q < pg.len() && q != p && in_tree(sh.kinds[q], t, c) implies #[trigger] beside(pg, sh, pg2, p, q) by {
        if node_parent(sh.kinds[q]) == p {
            lemma_descend(pg, sh, t, c, q, tight());
            if q != root_of(pg, t, c) {
                assert(parent_ok(pg, sh, q));
            }
        }
    }
}

#[verifier::spinoff_prover]
proof fn lemma_leaf_take_set(pg: Seq<Seq<u8>>, sh: Shape, pg2: Seq<Seq<u8>>, t: int, c: int, p: int, i: int)
    requires
        leaf_take(pg, sh, pg2, t, c, p, i),
    ensures
        entries_of(pg2, sh, t as nat, c as nat) == entries_of(pg, sh, t as nat, c as nat).remove((node_at(pg[p]).entries[i].key, node_at(pg[p]).entries[i].rid)),
{
    reveal(leaf_take);
    reveal(node_written);
    let es = node_at(pg[p]).entries;
    let es2 = node_at(pg2[p]).entries;
    let x = (es[i].key, es[i].rid);
    let s = entries_of(pg, sh, t as nat, c as nat);
    let s2 = entries_of(pg2, sh, t as nat, c as nat);
    lemma_descend(pg, sh, t, c, p, tight());
    assert forall|e: (Seq<u8>, u32)| s2.contains(e) == s.remove(x).contains(e) by {
        if s2.contains(e) {
            let (q, j) = choose|q: int, j: int| #[trigger] holds(pg2, sh, t as nat, c as nat, q, j, e);
            if q == p {
                let j0 = if j < i { j } else { j + 1 };
                assert(es2[j] == es[j0]);
                assert(holds(pg, sh, t as nat, c as nat, p, j0, e));
                if j0 < i {
                    assert(rank_of(es[j0]) < rank_of(es[i]));
                } else {
                    assert(rank_of(es[i]) < rank_of(es[j0]));
                }
            } else {
                assert(holds(pg, sh, t as nat, c as nat, q, j, e));
                lemma_there(pg, sh, t, c, p, q, j, tight());
                lemma_there(pg, sh, t, c, p, p, i, tight());
                assert(rank_of(node_at(pg[q]).entries[j]) == rank(e.0, e.1));
            }
        }
        if s.contains(e) && e != x {
            let (q, j) = choose|q: int, j: int| #[trigger] holds(pg, sh, t as nat, c as nat, q, j, e);
            if q == p {
                assert(j != i);
                if j < i {
                    assert(es2[j] == es[j]);
                    assert(holds(pg2, sh, t as nat, c as nat, p, j, e));
                } else {
                    assert(es2[j - 1] == es[j]);
                    assert(holds(pg2, sh, t as nat, c as nat, p, j - 1, e));
                }
            } else {
                assert(holds(pg2, sh, t as nat, c as nat, q, j, e));
            }
        }
    }
    assert(s2 =~= s.remove(x));
}

#[verifier::spinoff_prover]
proof fn lemma_leaf_take_rest(pg: Seq<Seq<u8>>, sh: Shape, pg2: Seq<Seq<u8>>, t: int, c: int, p: int, i: int)
    requires
        leaf_take(pg, sh, pg2, t, c, p, i),
        entries_of(pg2, sh, t as nat, c as nat) == entries_of(pg, sh, t as nat, c as nat).remove((node_at(pg[p]).entries[i].key, node_at(pg[p]).entries[i].rid)),
    ensures
        root_ok_at(pg2, sh, t, c),
        table_of(pg2, t).cols[c].flags.unique ==> table_of(pg2, t).cols[c].index != NONE,
        forall|a: int, b: int| 0 <= a < pg2.len() && 0 <= b < pg2.len() && in_tree(sh.kinds[a], t, c) && in_tree(sh.kinds[b], t, c) ==> #[trigger] apart(sh, a, b),
        unique_ok_at(pg2, sh, t, c),
{
    reveal(leaf_take);
    reveal(structure_inv);
    reveal(node_written);
    lemma_descend(pg, sh, t, c, p, tight());
    assert(page_ok(pg, sh, t, tight()));
    assert(root_ok_at(pg, sh, t, c));
    assert(unique_ok_at(pg, sh, t, c));
    assert(table_of(pg2, t) == table_of(pg, t));
    assert forall|a: int, b: int| 0 <= a < pg2.len() && 0 <= b < pg2.len() && in_tree(sh.kinds[a], t, c) && in_tree(sh.kinds[b], t, c) implies #[trigger] apart(sh, a, b) by {}
}

/// Writing a leaf without one of its entries takes that entry from the entries
/// of the index and leaves at most that leaf with one entry too few.
#[verifier::spinoff_prover]
pub proof fn lemma_leaf_take(pg: Seq<Seq<u8>>, sh: Shape, pg2: Seq<Seq<u8>>, t: int, c: int, p: int, i: int)
    requires
        leaf_take(pg, sh, pg2, t, c, p, i),
    ensures
        image_inv(pg2, sh, under_at(pg2, sh, t, c, p)),
        index_touch(pg, sh, pg2, sh, t, c),
        entries_of(pg2, sh, t as nat, c as nat) == entries_of(pg, sh, t as nat, c as nat).remove((node_at(pg[p]).entries[i].key, node_at(pg[p]).entries[i].rid)),
        pg2.len() == pg.len(),
        table_of(pg2, t) == table_of(pg, t),
{
    let relax2 = under_at(pg2, sh, t, c, p);
    lemma_leaf_take_node(pg, sh, pg2, t, c, p, i);
    lemma_leaf_take_set(pg, sh, pg2, t, c, p, i);
    lemma_leaf_take_rest(pg, sh, pg2, t, c, p, i);
    assert(image_inv(pg, sh, tight()) && 0 <= p < pg.len() && in_tree(sh.kinds[p], t, c)) by {
        reveal(leaf_take);
    }
    assert forall|q: int| 0 <= q < pg2.len() && in_tree(#[trigger] sh.kinds[q], t, c) implies node_ok(pg2, sh, q, relax2) by {
        if q != p {
            assert(beside(pg, sh, pg2, p, q));
            lemma_node_beside(pg, sh, pg2, t, c, p, q, tight(), relax2);
        }
    }
    lemma_index_touch(pg, sh, pg2, sh, t, c, tight(), relax2);
}

/// What the deletion of the entry `e` below the node `p` leaves behind: the
/// rules hold, but that `p` may hold one entry too few; the index is without
/// the entry; the role of `p` and everything above it in the tree are
/// untouched.
#[verifier::opaque]
pub open spec fn deleted(pg: Seq<Seq<u8>>, sh: Shape, pg2: Seq<Seq<u8>>, sh2: Shape, t: int, c: int, p: int, e: (Seq<u8>, u32)) -> bool {
    &&& image_inv(pg2, sh2, under_at(pg2, sh2, t, c, p))
    &&& index_touch(pg, sh, pg2, sh2, t, c)
    &&& entries_of(pg2, sh2, t as nat, c as nat) == entries_of(pg, sh, t as nat, c as nat).remove(e)
    &&& sh2.kinds[p] == sh.kinds[p]
    &&& sh2.trees == sh.trees
    &&& table_of(pg2, t) == table_of(pg, t)
    &&& pg2.len() == pg.len()
    &&& sh2.free.len() >= sh.free.len()
    &&& crate::db::loose_kept(pg, sh, pg2, sh2)
    &&& kept_above(pg, sh, pg2, sh2, t, c, node_height(sh.kinds[p]))
}

/// What a deletion below the node `p` asks.
pub open spec fn deletable(pg: Seq<Seq<u8>>, sh: Shape, t: int, c: int, p: int, key: Seq<u8>, rid: u32) -> bool {
    &&& image_inv(pg, sh, tight())
    &&& 0 <= t
    &&& 0 <= c
    &&& 0 < p < pg.len()
    &&& in_tree(sh.kinds[p], t, c)
    &&& key.len() == width_of(pg, t, c)
    &&& node_lo(sh.kinds[p]) <= rank(key, rid) < node_hi(sh.kinds[p])
}

/// A leaf in whose range an entry lies, and which does not hold it, shows that
/// the index does not hold it.
#[verifier::spinoff_prover]
proof fn lemma_deleted_absent(pg: Seq<Seq<u8>>, sh: Shape, t: int, c: int, p: int, i: int, key: Seq<u8>, rid: u32)
    requires
        deletable(pg, sh, t, c, p, key, rid),
        node_height(sh.kinds[p]) == 0,
        0 <= i <= node_at(pg[p]).entries.len(),
        forall|j: int| 0 <= j < i ==> rank_of(#[trigger] node_at(pg[p]).entries[j]) < rank(key, rid),
        forall|j: int| i <= j < node_at(pg[p]).entries.len() ==> rank_of(#[trigger] node_at(pg[p]).entries[j]) > rank(key, rid),
    ensures
        deleted(pg, sh, pg, sh, t, c, p, (key, rid)),
        !entries_of(pg, sh, t as nat, c as nat).contains((key, rid)),
        !is_under(pg, sh, t, c, p),
{
    reveal(deleted);
    assert(crate::db::loose_kept(pg, sh, pg, sh)) by {
        reveal(crate::db::loose_kept);
    }
    lemma_descend(pg, sh, t, c, p, tight());
    if entries_of(pg, sh, t as nat, c as nat).contains((key, rid)) {
        lemma_here(pg, sh, t, c, p, (key, rid), tight());
        let j = choose|j: int| #[trigger] holds(pg, sh, t as nat, c as nat, p, j, (key, rid));
        assert(rank_of(node_at(pg[p]).entries[j]) == rank(key, rid));
    }
    assert(entries_of(pg, sh, t as nat, c as nat).remove((key, rid)) =~= entries_of(pg, sh, t as nat, c as nat));
    assert(index_touch(pg, sh, pg, sh, t, c)) by {
        reveal(structure_inv);
        assert(page_ok(pg, sh, t, tight()));
    }
    assert(under_at(pg, sh, t, c, p) == tight());
}

#[verifier::spinoff_prover]
proof fn lemma_deleted_leaf(pg: Seq<Seq<u8>>, sh: Shape, pg2: Seq<Seq<u8>>, t: int, c: int, p: int, i: int)
    requires
        leaf_take(pg, sh, pg2, t, c, p, i),
    ensures
        deleted(pg, sh, pg2, sh, t, c, p, (node_at(pg[p]).entries[i].key, node_at(pg[p]).entries[i].rid)),
        node_at(pg2[p]).entries.len() == node_at(pg[p]).entries.len() - 1,
{
    reveal(deleted);
    lemma_leaf_take(pg, sh, pg2, t, c, p, i);
    reveal(leaf_take);
    reveal(node_written);
    assert(crate::db::loose_kept(pg, sh, pg2, sh)) by {
        reveal(crate::db::loose_kept);
        assert forall|x: int| 0 <= x < pg.len() && (#[trigger] sh.kinds[x]) is Loose implies x < pg2.len() && sh.kinds[x] is Loose && pg2[x] == pg[x] by {
            assert(x != p);
        }
    }
}

/// A deletion below a child that left the child with enough entries is a
/// deletion below the parent.
#[verifier::spinoff_prover]
proof fn lemma_deleted_pass(pg: Seq<Seq<u8>>, sh: Shape, pg2: Seq<Seq<u8>>, sh2: Shape, t: int, c: int, p: int, ch: int, e: (Seq<u8>, u32))
    requires
        image_inv(pg, sh, tight()),
        0 < p < pg.len(),
        in_tree(sh.kinds[p], t, c),
        0 < ch < pg.len(),
        in_tree(sh.kinds[ch], t, c),
        node_height(sh.kinds[ch]) + 1 == node_height(sh.kinds[p]),
        deleted(pg, sh, pg2, sh2, t, c, ch, e),
        !is_under(pg2, sh2, t, c, ch),
    ensures
        deleted(pg, sh, pg2, sh2, t, c, p, e),
        !is_under(pg2, sh2, t, c, p),
{
    reveal(deleted);
    lemma_descend(pg, sh, t, c, p, tight());
    let h = node_height(sh.kinds[p]);
    let hc = node_height(sh.kinds[ch]);
    assert(is_above(sh, t, c, p, hc));
    assert(pg2[p] == pg[p]);
    assert(under_at(pg2, sh2, t, c, ch) == tight());
    assert(forall|q: int| #[trigger] is_above(sh, t, c, q, h) ==> is_above(sh, t, c, q, hc));
}

/// A deletion below a child followed by a step that restored the fill of the
/// child is a deletion below the parent.
#[verifier::spinoff_prover]
proof fn lemma_deleted_fixed(pg: Seq<Seq<u8>>, sh: Shape, pga: Seq<Seq<u8>>, sha: Shape, pgb: Seq<Seq<u8>>, shb: Shape, t: int, c: int, p: int, ch: int, e: (Seq<u8>, u32))
    requires
        image_inv(pg, sh, tight()),
        0 < p < pg.len(),
        in_tree(sh.kinds[p], t, c),
        0 < ch < pg.len(),
        in_tree(sh.kinds[ch], t, c),
        node_height(sh.kinds[ch]) + 1 == node_height(sh.kinds[p]),
        deleted(pg, sh, pga, sha, t, c, ch, e),
        image_inv(pgb, shb, under_at(pgb, shb, t, c, p)),
        index_touch(pga, sha, pgb, shb, t, c),
        entries_of(pgb, shb, t as nat, c as nat) == entries_of(pga, sha, t as nat, c as nat),
        shb.kinds[p] == sha.kinds[p],
        shb.trees == sha.trees,
        table_of(pgb, t) == table_of(pga, t),
        pgb.len() == pga.len(),
        shb.free.len() >= sha.free.len(),
        crate::db::loose_kept(pga, sha, pgb, shb),
        kept_above(pga, sha, pgb, shb, t, c, node_height(sha.kinds[p])),
    ensures
        deleted(pg, sh, pgb, shb, t, c, p, e),
{
    reveal(deleted);
    crate::create::lemma_loose_twice(pg, sh, pga, sha, pgb, shb);
    lemma_touch_twice(pg, sh, pga, sha, pgb, shb, t, c);
    let h = node_height(sh.kinds[p]);
    let hc = node_height(sh.kinds[ch]);
    assert(is_above(sh, t, c, p, hc));
    assert(sha.kinds[p] == sh.kinds[p]);
    assert forall|q: int| #[trigger] is_above(sh, t, c, q, h) implies q < pg.len() && q < pgb.len() && pgb[q] == pg[q] && shb.kinds[q] == sh.kinds[q] by {
        assert(is_above(sh, t, c, q, hc));
        assert(pga[q] == pg[q] && sha.kinds[q] == sh.kinds[q]);
        assert(is_above(sha, t, c, q, h));
    }
}

/// After a deletion below child `i` of the node `p`, the node still has that
/// child.
#[verifier::spinoff_prover]
proof fn lemma_delete_up(pg: Seq<Seq<u8>>, sh: Shape, pga: Seq<Seq<u8>>, sha: Shape, t: int, c: int, p: int, i: int, e: (Seq<u8>, u32))
    requires
        image_inv(pg, sh, tight()),
        0 < p < pg.len(),
        in_tree(sh.kinds[p], t, c),
        node_height(sh.kinds[p]) > 0,
        0 <= i < node_at(pg[p]).entries.len(),
        deleted(pg, sh, pga, sha, t, c, node_at(pg[p]).entries[i].child as int, e),
    ensures
        image_inv(pga, sha, under_at(pga, sha, t, c, node_at(pg[p]).entries[i].child as int)),
        pga[p] == pg[p],
        sha.kinds[p] == sh.kinds[p],
        pga.len() == pg.len(),
        sha.trees == sh.trees,
        root_of(pga, t, c) == root_of(pg, t, c),
        node_at(pg[p]).entries[i].child != root_of(pg, t, c),
        node_at(pg[p]).entries.len() >= 2,
{
    reveal(deleted);
    lemma_descend(pg, sh, t, c, p, tight());
    assert(child_ok(pg, sh, p, i));
    let ch = node_at(pg[p]).entries[i].child as int;
    assert(is_above(sh, t, c, p, node_height(sh.kinds[ch])));
    lemma_descend(pg, sh, t, c, ch, tight());
    crate::remove::lemma_min_two(pg, sh, t, c, p);
}

/// An operation on an index that leaves the column with an index leaves it
/// with keys of the same width.
#[verifier::spinoff_prover]
pub proof fn lemma_indexed_kept(pg: Seq<Seq<u8>>, sh: Shape, pg2: Seq<Seq<u8>>, sh2: Shape, t: int, c: int, key: Seq<u8>)
    requires
        index_touch(pg, sh, pg2, sh2, t, c),
        0 <= c < table_of(pg, t).cols.len(),
        table_of(pg2, t).cols[c].index != NONE,
        key.len() == crate::shape::key_width(table_of(pg, t).cols[c].ty),
    ensures
        0 < t < pg2.len(),
        sh2.kinds[t] is Table,
        c < table_of(pg2, t).cols.len(),
        key.len() == crate::shape::key_width(table_of(pg2, t).cols[c].ty),
{
}

impl Db {
    /// Restores the fill of child `i` of the node `p`, which holds one entry too
    /// few: a neighbour that can spare an entry gives one, the left one for
    /// choice; else the child is merged with a neighbour, the left one for choice.
    /// Tells whether `p` now holds one entry too few.
    #[verifier::spinoff_prover]
    pub(crate) fn fix_child(&mut self, p: usize, i: usize, root: bool, Ghost(t): Ghost<int>, Ghost(c): Ghost<int>) -> (low: bool)
        requires
            old(self).holds_but(under_at(old(self).image(), old(self).shape(), t, c, node_at(old(self).image()[p as int]).entries[i as int].child as int)),
            is_under(old(self).image(), old(self).shape(), t, c, node_at(old(self).image()[p as int]).entries[i as int].child as int),
            node_at(old(self).image()[p as int]).entries[i as int].child != root_of(old(self).image(), t, c),
            0 < p < old(self).page_count(),
            in_tree(old(self).shape().kinds[p as int], t, c),
            node_height(old(self).shape().kinds[p as int]) > 0,
            root == (p == root_of(old(self).image(), t, c)),
            i < node_at(old(self).image()[p as int]).entries.len(),
            node_at(old(self).image()[p as int]).entries.len() >= 2,
        ensures
            final(self).holds_but(under_at(final(self).image(), final(self).shape(), t, c, p as int)),
            low == is_under(final(self).image(), final(self).shape(), t, c, p as int),
            index_touch(old(self).image(), old(self).shape(), final(self).image(), final(self).shape(), t, c),
            final(self).entries(t as nat, c as nat) == old(self).entries(t as nat, c as nat),
            final(self).shape().kinds[p as int] == old(self).shape().kinds[p as int],
            final(self).shape().trees == old(self).shape().trees,
            table_of(final(self).image(), t) == table_of(old(self).image(), t),
            final(self).page_count() == old(self).page_count(),
            kept_above(old(self).image(), old(self).shape(), final(self).image(), final(self).shape(), t, c, node_height(old(self).shape().kinds[p as int])),
            final(self).free_list().len() >= old(self).free_list().len(),
            crate::db::loose_kept(old(self).image(), old(self).shape(), final(self).image(), final(self).shape()),
            final(self).spec_path() == old(self).spec_path(),
    {
        let ghost pg = self.image();
        let ghost sh = self.shape();
        let ghost ch = node_at(pg[p as int]).entries[i as int].child as int;
        let ghost relax = under_at(pg, sh, t, c, ch);
        proof {
            lemma_descend(pg, sh, t, c, p as int, relax);
            assert(child_ok(pg, sh, p as int, i as int));
            lemma_descend(pg, sh, t, c, ch, relax);
            crate::remove::lemma_not_under(pg, sh, t, c, p as int, relax);
        }
        let pn = load_node(self.get_page(p));
        let n: usize = pn.entries.len();
        let cap: usize = pn.cap as usize;
        let min: usize = (cap + 1) / 2;
        assert(pn@.entries[i as int] == pn.entries@[i as int]@);
        let cn = load_node(self.get_page(pn.entries[i].child as usize));
        let cc: usize = cn.entries.len();
        if i > 0 {
            proof {
                crate::remove::lemma_pair_ready(pg, sh, t, c, p as int, i - 1, relax);
            }
            assert(pn@.entries[i - 1] == pn.entries@[i - 1]@);
            let ln = load_node(self.get_page(pn.entries[i - 1].child as usize));
            if ln.entries.len() > min {
                self.shift_children(p, i - 1, ln.entries.len() - 1, Ghost(t), Ghost(c), Ghost(relax));
                return false;
            }
        }
        if i + 1 < n {
            proof {
                crate::remove::lemma_pair_ready(pg, sh, t, c, p as int, i as int, relax);
            }
            assert(pn@.entries[i + 1] == pn.entries@[i + 1]@);
            let rn = load_node(self.get_page(pn.entries[i + 1].child as usize));
            if rn.entries.len() > min {
                self.shift_children(p, i, cc + 1, Ghost(t), Ghost(c), Ghost(relax));
                return false;
            }
        }
        if i > 0 {
            self.merge_children(p, i - 1, root, Ghost(t), Ghost(c), Ghost(relax))
        } else {
            self.merge_children(p, i, root, Ghost(t), Ghost(c), Ghost(relax))
        }
    }

    /// Takes the entry `(key, rid)` out of the tree below the node `p`, in whose
    /// range it lies. Tells whether the entry was there and whether `p` now holds
    /// one entry too few.
    #[verifier::spinoff_prover]
    pub(crate) fn delete_rec(&mut self, p: usize, key: &[u8], rid: u32, root: bool, Ghost(t): Ghost<int>, Ghost(c): Ghost<int>) -> (r: (bool, bool))
        requires
            deletable(old(self).image(), old(self).shape(), t, c, p as int, key@, rid),
            root == (p == root_of(old(self).image(), t, c)),
        ensures
            deleted(old(self).image(), old(self).shape(), final(self).image(), final(self).shape(), t, c, p as int, (key@, rid)),
            r.0 == old(self).entries(t as nat, c as nat).contains((key@, rid)),
            r.1 == is_under(final(self).image(), final(self).shape(), t, c, p as int),
            final(self).spec_path() == old(self).spec_path(),
        decreases node_height(old(self).shape().kinds[p as int]),
    {
        let ghost pg = self.image();
        let ghost sh = self.shape();
        let ghost x = rank(key@, rid);
        proof {
            lemma_descend(pg, sh, t, c, p as int, tight());
            lemma_fits(pg, sh, t, c, p as int);
        }
        let mut node = load_node(self.get_page(p));
        assert(node@.entries == evs(node.entries@));
        let n: usize = node.entries.len();
        let cap: usize = node.cap as usize;
        if node.leaf {
            let i: usize = lower_bound(&node.entries, key, rid);
            let mut here: bool = false;
            if i < n {
                assert(node@.entries[i as int] == node.entries@[i as int]@);
                here = entry_rel(node.entries[i].key.as_slice(), node.entries[i].rid, key, rid) == Rel::Equal;
            }
            if !here {
                proof {
                    let es = node@.entries;
                    assert forall|j: int| i <= j < es.len() implies rank_of(#[trigger] es[j]) > x by {
                        if j > i {
                            assert(rank_of(es[i as int]) < rank_of(es[j]));
                        }
                    }
                    lemma_deleted_absent(pg, sh, t, c, p as int, i as int, key@, rid);
                }
                return (false, false);
            }
            let ghost es = node@.entries;
            let gone = node.entries.remove(i);
            proof {
                assert(node@.entries =~= es.remove(i as int));
                assert(storable(node@));
            }
            self.write_node(p, &node);
            proof {
                let pg2 = self.image();
                assert(leaf_take(pg, sh, pg2, t, c, p as int, i as int)) by {
                    reveal(leaf_take);
                }
                lemma_deleted_leaf(pg, sh, pg2, t, c, p as int, i as int);
                assert(holds(pg, sh, t as nat, c as nat, p as int, i as int, (key@, rid)));
                assert(root_of(pg2, t, c) == root_of(pg, t, c)) by {
                    reveal(deleted);
                }
            }
            (true, !root && n - 1 < (cap + 1) / 2)
        } else {
            let i: usize = child_for(&node.entries, key, rid);
            assert(node@.entries[i as int] == node.entries@[i as int]@);
            let ch: usize = node.entries[i].child as usize;
            proof {
                lemma_step_down(pg, sh, t, c, p as int, i as int, x, tight());
                assert(child_ok(pg, sh, p as int, i as int));
                lemma_descend(pg, sh, t, c, ch as int, tight());
            }
            let (found, low_child) = self.delete_rec(ch, key, rid, false, Ghost(t), Ghost(c));
            let ghost pga = self.image();
            let ghost sha = self.shape();
            proof {
                lemma_delete_up(pg, sh, pga, sha, t, c, p as int, i as int, (key@, rid));
            }
            if low_child {
                let low = self.fix_child(p, i, root, Ghost(t), Ghost(c));
                proof {
                    lemma_deleted_fixed(pg, sh, pga, sha, self.image(), self.shape(), t, c, p as int, ch as int, (key@, rid));
                }
                (found, low)
            } else {
                proof {
                    lemma_deleted_pass(pg, sh, pga, sha, t, c, p as int, ch as int, (key@, rid));
                }
                (found, false)
            }
        }
    }

    /// Takes the entry `(key, rid)` out of the index on column `c` of the table
    /// whose table-meta page is `t`, and tells whether it was there.
    ///
    /// A node other than the root that then holds fewer entries than half its
    /// fan-out, rounded up, takes one from a neighbour that can spare it, or else
    /// is merged with a neighbour, whose page goes back to the pager. A root above
    /// the leaves that is left with a single child gives way to that child.
    #[verifier::spinoff_prover]
    pub fn delete_key(&mut self, t: usize, c: usize, key: &[u8], rid: u32) -> (found: bool)
        requires
            old(self).wf(),
            old(self).indexed(t as nat, c as nat, key@),
        ensures
            final(self).wf(),
            found == old(self).entries(t as nat, c as nat).contains((key@, rid)),
            final(self).entries(t as nat, c as nat) == old(self).entries(t as nat, c as nat).remove((key@, rid)),
            index_step(old(self).image(), old(self).shape(), final(self).image(), final(self).shape(), t as int, c as int),
            final(self).page_count() == old(self).page_count(),
            final(self).spec_path() == old(self).spec_path(),
            final(self).indexed(t as nat, c as nat, key@),
            crate::db::loose_kept(old(self).image(), old(self).shape(), final(self).image(), final(self).shape()),
            final(self).room() >= old(self).room(),
            final(self).shape().trees[(t as nat, c as nat)].height <= old(self).shape().trees[(t as nat, c as nat)].height,
    {
        let ghost pg = self.image();
        let ghost sh = self.shape();
        proof {
            lemma_root_facts(pg, sh, t as int, c as int);
            lemma_rank_bound(key@, rid);
        }
        let root: usize = read_col_of(self, t, c).index as usize;
        let (found, low) = self.delete_rec(root, key, rid, true, Ghost(t as int), Ghost(c as int));
        let ghost pga = self.image();
        let ghost sha = self.shape();
        proof {
            reveal(deleted);
        }
        if low {
            self.shrink_root(t, c);
            proof {
                lemma_touch_twice(pg, sh, pga, sha, self.image(), self.shape(), t as int, c as int);
                crate::create::lemma_loose_twice(pg, sh, pga, sha, self.image(), self.shape());
            }
        }
        proof {
            lemma_index_step(pg, sh, self.image(), self.shape(), t as int, c as int);
            lemma_indexed_kept(pg, sh, self.image(), self.shape(), t as int, c as int, key@);
        }
        found
    }
}

} // verus!
