//! Adding an entry to an index.

use vstd::prelude::*;
use crate::shape::tight;
use crate::catalog::{index_step, lemma_index_step};
use crate::create::to_vec;
use crate::db::{Db, loose_kept, next_page, room_of, shape_after_allocate};
use crate::error::{Error, ErrorV, Result};
use crate::frames::{in_tree, index_touch, lemma_index_touch, relax_in, sized, table_alike, tree_ok};
use crate::key::{Rel, entry_rel, lemma_rank_bound, lemma_rank_injective, rank, top};
use crate::layout::{MAX_COL, MAX_PAGE, NONE, PAGE_SIZE};
use crate::node::{Entry, EntryV, IndexPage, NodeV, fit, load_node, node_at, storable};
use crate::release::{lemma_root_facts, node_height, node_hi, node_lo};
use crate::scan::{leaf_in, lemma_here, lemma_there};
use crate::search::{child_for, evs, keyed, lemma_decoded, lower_bound};
use crate::shape::{Kind, Relax, Shape, apart, child_ok, entries_of, free_ok_at, holds, image_inv, is_leaf_of, is_structural, key_width, keys_distinct, leaf_links_ok, min_fill, node_ok, over, page_ok, pager_inv, parent_ok, rank_of, root_ok_at, sorted, structure_inv, table_of, under, unique_ok_at, within};
use crate::tree::{lemma_descend, lemma_node_moved, lemma_step_down, node_parent, node_slot, node_written, rehung, root_of, tree_same, width_of};

verus! {

/// The exception an insertion leaves behind at the node `p`: none, unless it
/// holds more entries than a node may.
pub open spec fn over_at(pg: Seq<Seq<u8>>, sh: Shape, t: int, c: int, p: int) -> Relax {
    Relax {
        over: if node_at(pg[p]).entries.len() > sh.trees[(t as nat, c as nat)].cap {
            Some(p as nat)
        } else {
            None
        },
        under: None,
    }
}

/// Only the bytes of the node `p` differ between the two images, and the node
/// `q` is another node that still finds itself in its parent.
pub open spec fn beside(pg: Seq<Seq<u8>>, sh: Shape, pg2: Seq<Seq<u8>>, p: int, q: int) -> bool {
    &&& pg2.len() == pg.len()
    &&& forall|x: int| 0 <= x < pg.len() && x != p ==> #[trigger] pg2[x] == pg[x]
    &&& q != p
    &&& node_parent(sh.kinds[q]) == p ==> node_slot(sh.kinds[q]) < node_at(pg2[p]).entries.len() && node_at(pg2[p]).entries[node_slot(sh.kinds[q])].child == q
}

/// A node beside the one that changed obeys the rules as it did before.
#[verifier::spinoff_prover]
pub proof fn lemma_node_beside(pg: Seq<Seq<u8>>, sh: Shape, pg2: Seq<Seq<u8>>, t: int, c: int, p: int, q: int, relax: Relax, relax2: Relax)
    requires
        image_inv(pg, sh, relax),
        0 <= p < pg.len(),
        in_tree(sh.kinds[p], t, c),
        0 <= q < pg.len(),
        in_tree(sh.kinds[q], t, c),
        beside(pg, sh, pg2, p, q),
        over(relax2, q) >= over(relax, q),
        under(relax2, q) >= under(relax, q),
    ensures
        node_ok(pg2, sh, q, relax2),
{
    lemma_descend(pg, sh, t, c, q, relax);
    lemma_descend(pg, sh, t, c, p, relax);
    match sh.kinds[q] {
        Kind::Node { table, col, height, parent, slot, lo, hi } => {
            assert(table != p) by {
                reveal(structure_inv);
            }
            let n = node_at(pg[q]).entries.len();
            if height > 0 {
                assert forall|i: int| 0 <= i < n implies #[trigger] child_ok(pg2, sh, q, i) by {
                    assert(child_ok(pg, sh, q, i));
                }
            }
        },
        _ => {},
    }
}

/// Whether the column `c` of table `t` is unique.
pub open spec fn is_unique(pg: Seq<Seq<u8>>, t: int, c: int) -> bool {
    table_of(pg, t).cols[c].flags.unique
}

/// What [`lemma_leaf_put`] asks: the leaf `p`, in whose range `(key, rid)` lies,
/// was written with that entry at position `i`, where the order wants it.
#[verifier::opaque]
pub open spec fn leaf_put(pg: Seq<Seq<u8>>, sh: Shape, pg2: Seq<Seq<u8>>, t: int, c: int, p: int, i: int, key: Seq<u8>, rid: u32) -> bool {
    let nv = node_at(pg[p]);
    let x = rank(key, rid);
    &&& image_inv(pg, sh, tight())
    &&& leaf_in(pg, sh, t, c, p)
    &&& key.len() == width_of(pg, t, c)
    &&& 0 <= i <= nv.entries.len()
    &&& forall|j: int| 0 <= j < i ==> rank_of(#[trigger] nv.entries[j]) < x
    &&& forall|j: int| i <= j < nv.entries.len() ==> rank_of(#[trigger] nv.entries[j]) > x
    &&& node_lo(sh.kinds[p]) <= x < node_hi(sh.kinds[p])
    &&& node_written(pg, pg2, p, NodeV { entries: nv.entries.insert(i, EntryV { key, rid, child: NONE }), ..nv })
    &&& is_unique(pg, t, c) ==> forall|e: (Seq<u8>, u32)| #[trigger] entries_of(pg, sh, t as nat, c as nat).contains(e) ==> e.0 != key
}

#[verifier::spinoff_prover]
proof fn lemma_leaf_put_node(pg: Seq<Seq<u8>>, sh: Shape, pg2: Seq<Seq<u8>>, t: int, c: int, p: int, i: int, key: Seq<u8>, rid: u32)
    requires
        leaf_put(pg, sh, pg2, t, c, p, i, key, rid),
    ensures
        pager_inv(pg2, sh),
        index_touch(pg, sh, pg2, sh, t, c),
        node_ok(pg2, sh, p, over_at(pg2, sh, t, c, p)),
        forall|q: int| 0 <= q < pg.len() && q != p && in_tree(sh.kinds[q], t, c) ==> #[trigger] beside(pg, sh, pg2, p, q),
        0 <= c < table_of(pg, t).cols.len(),
{
    reveal(leaf_put);
    reveal(node_written);
    lemma_descend(pg, sh, t, c, p, tight());
    let nv = node_at(pg[p]);
    let es = nv.entries;
    let es2 = node_at(pg2[p]).entries;
    let xe = EntryV { key, rid, child: NONE };
    assert forall|k: int| 0 <= k < sh.free.len() implies #[trigger] free_ok_at(pg2, sh, k) by {
        assert(free_ok_at(pg, sh, k));
    }
    assert(index_touch(pg, sh, pg2, sh, t, c) && 0 <= c < table_of(pg, t).cols.len()) by {
        reveal(structure_inv);
        assert(page_ok(pg, sh, t, tight()));
    }
    assert(table_of(pg2, t) == table_of(pg, t)) by {
        reveal(structure_inv);
    }
    assert forall|a: int, b: int| 0 <= a < b < es2.len() implies rank_of(#[trigger] es2[a]) < rank_of(#[trigger] es2[b]) by {
        let a0 = if a < i { a } else { a - 1 };
        let b0 = if b < i { b } else { b - 1 };
        if a != i && b != i {
            assert(rank_of(es[a0]) < rank_of(es[b0]));
        }
    }
    assert forall|k: int| 0 <= k < es2.len() implies node_lo(sh.kinds[p]) <= rank_of(#[trigger] es2[k]) < node_hi(sh.kinds[p]) by {
        let k0 = if k < i { k } else { k - 1 };
        if k != i {
            assert(node_lo(sh.kinds[p]) <= rank_of(es[k0]) < node_hi(sh.kinds[p]));
        }
    }
    assert(leaf_links_ok(pg2, sh, p, width_of(pg, t, c))) by {
        assert(leaf_links_ok(pg, sh, p, width_of(pg, t, c)));
    }
    if p != root_of(pg, t, c) {
        assert(parent_ok(pg2, sh, p)) by {
            assert(parent_ok(pg, sh, p));
            let up = node_parent(sh.kinds[p]);
            lemma_descend(pg, sh, t, c, up, tight());
        }
    }
    assert forall|q: int| 0 <= q < pg.len() && q != p && in_tree(sh.kinds[q], t, c) implies #[trigger] beside(pg, sh, pg2, p, q) by {
        if node_parent(sh.kinds[q]) == p {
            lemma_descend(pg, sh, t, c, q, tight());
            if q != root_of(pg, t, c) {
                assert(parent_ok(pg, sh, q));
            }
        }
    }
}

#[verifier::spinoff_prover]
proof fn lemma_leaf_put_set(pg: Seq<Seq<u8>>, sh: Shape, pg2: Seq<Seq<u8>>, t: int, c: int, p: int, i: int, key: Seq<u8>, rid: u32)
    requires
        leaf_put(pg, sh, pg2, t, c, p, i, key, rid),
    ensures
        entries_of(pg2, sh, t as nat, c as nat) == entries_of(pg, sh, t as nat, c as nat).insert((key, rid)),
{
    reveal(leaf_put);
    reveal(node_written);
    let es = node_at(pg[p]).entries;
    let es2 = node_at(pg2[p]).entries;
    let s = entries_of(pg, sh, t as nat, c as nat);
    let s2 = entries_of(pg2, sh, t as nat, c as nat);
    assert forall|e: (Seq<u8>, u32)| s2.contains(e) == s.insert((key, rid)).contains(e) by {
        if s2.contains(e) {
            let (q, j) = choose|q: int, j: int| #[trigger] holds(pg2, sh, t as nat, c as nat, q, j, e);
            if q == p {
                if j < i {
                    assert(holds(pg, sh, t as nat, c as nat, p, j, e));
                } else if j > i {
                    assert(holds(pg, sh, t as nat, c as nat, p, j - 1, e));
                }
            } else {
                assert(holds(pg, sh, t as nat, c as nat, q, j, e));
            }
        }
        if s.contains(e) {
            let (q, j) = choose|q: int, j: int| #[trigger] holds(pg, sh, t as nat, c as nat, q, j, e);
            if q == p {
                if j < i {
                    assert(holds(pg2, sh, t as nat, c as nat, p, j, e));
                } else {
                    assert(es2[j + 1] == es[j]);
                    assert(holds(pg2, sh, t as nat, c as nat, p, j + 1, e));
                }
            } else {
                assert(holds(pg2, sh, t as nat, c as nat, q, j, e));
            }
        }
        if e == (key, rid) {
            assert(holds(pg2, sh, t as nat, c as nat, p, i, e));
        }
    }
    assert(s2 =~= s.insert((key, rid)));
}

#[verifier::spinoff_prover]
proof fn lemma_leaf_put_rest(pg: Seq<Seq<u8>>, sh: Shape, pg2: Seq<Seq<u8>>, t: int, c: int, p: int, i: int, key: Seq<u8>, rid: u32)
    requires
        leaf_put(pg, sh, pg2, t, c, p, i, key, rid),
        entries_of(pg2, sh, t as nat, c as nat) == entries_of(pg, sh, t as nat, c as nat).insert((key, rid)),
    ensures
        root_ok_at(pg2, sh, t, c),
        table_of(pg2, t).cols[c].flags.unique ==> table_of(pg2, t).cols[c].index != NONE,
        forall|a: int, b: int| 0 <= a < pg2.len() && 0 <= b < pg2.len() && in_tree(sh.kinds[a], t, c) && in_tree(sh.kinds[b], t, c) ==> #[trigger] apart(sh, a, b),
        unique_ok_at(pg2, sh, t, c),
{
    reveal(leaf_put);
    reveal(structure_inv);
    reveal(node_written);
    lemma_descend(pg, sh, t, c, p, tight());
    assert(page_ok(pg, sh, t, tight()));
    assert(root_ok_at(pg, sh, t, c));
    assert(unique_ok_at(pg, sh, t, c));
    assert(table_of(pg2, t) == table_of(pg, t));
    assert forall|a: int, b: int| 0 <= a < pg2.len() && 0 <= b < pg2.len() && in_tree(sh.kinds[a], t, c) && in_tree(sh.kinds[b], t, c) implies #[trigger] apart(sh, a, b) by {}
}

/// Writing an entry into the leaf in whose range it lies, at the position the
/// order wants, adds it to the entries of the index and leaves at most that
/// leaf with one entry too many.
#[verifier::spinoff_prover]
pub proof fn lemma_leaf_put(pg: Seq<Seq<u8>>, sh: Shape, pg2: Seq<Seq<u8>>, t: int, c: int, p: int, i: int, key: Seq<u8>, rid: u32)
    requires
        leaf_put(pg, sh, pg2, t, c, p, i, key, rid),
    ensures
        image_inv(pg2, sh, over_at(pg2, sh, t, c, p)),
        index_touch(pg, sh, pg2, sh, t, c),
        entries_of(pg2, sh, t as nat, c as nat) == entries_of(pg, sh, t as nat, c as nat).insert((key, rid)),
        pg2.len() == pg.len(),
{
    let relax2 = over_at(pg2, sh, t, c, p);
    lemma_leaf_put_node(pg, sh, pg2, t, c, p, i, key, rid);
    lemma_leaf_put_set(pg, sh, pg2, t, c, p, i, key, rid);
    lemma_leaf_put_rest(pg, sh, pg2, t, c, p, i, key, rid);
    assert(image_inv(pg, sh, tight()) && 0 <= p < pg.len() && in_tree(sh.kinds[p], t, c) && pg2.len() == pg.len()) by {
        reveal(leaf_put);
        reveal(node_written);
    }
    assert forall|q: int| 0 <= q < pg2.len() && in_tree(#[trigger] sh.kinds[q], t, c) implies node_ok(pg2, sh, q, relax2) by {
        if q != p {
            assert(beside(pg, sh, pg2, p, q));
            lemma_node_beside(pg, sh, pg2, t, c, p, q, tight(), relax2);
        }
    }
    lemma_index_touch(pg, sh, pg2, sh, t, c, tight(), relax2);
}

/// Two operations on one index in a row are an operation on that index.
#[verifier::spinoff_prover]
pub proof fn lemma_touch_twice(pg: Seq<Seq<u8>>, sh: Shape, pg1: Seq<Seq<u8>>, sh1: Shape, pg2: Seq<Seq<u8>>, sh2: Shape, t: int, c: int)
    requires
        index_touch(pg, sh, pg1, sh1, t, c),
        index_touch(pg1, sh1, pg2, sh2, t, c),
    ensures
        index_touch(pg, sh, pg2, sh2, t, c),
{
}

/// What the insertion of the entry `e` below the node `p` leaves behind: the
/// rules hold, but that `p` may hold one entry too many; the index has the
/// entry; the role of `p` and everything above it in the tree are untouched;
/// and the file grew by no more pages than `p` has levels below it.
#[verifier::opaque]
pub open spec fn inserted(pg: Seq<Seq<u8>>, sh: Shape, pg2: Seq<Seq<u8>>, sh2: Shape, t: int, c: int, p: int, e: (Seq<u8>, u32)) -> bool {
    &&& image_inv(pg2, sh2, over_at(pg2, sh2, t, c, p))
    &&& index_touch(pg, sh, pg2, sh2, t, c)
    &&& entries_of(pg2, sh2, t as nat, c as nat) == entries_of(pg, sh, t as nat, c as nat).insert(e)
    &&& sh2.kinds[p] == sh.kinds[p]
    &&& sh2.trees == sh.trees
    &&& table_of(pg2, t) == table_of(pg, t)
    &&& pg.len() <= pg2.len() <= pg.len() + node_height(sh.kinds[p])
    &&& room_of(pg, sh) - node_height(sh.kinds[p]) <= room_of(pg2, sh2) <= room_of(pg, sh)
    &&& loose_kept(pg, sh, pg2, sh2)
    &&& kept_above(pg, sh, pg2, sh2, t, c, node_height(sh.kinds[p]))
}

/// Whether `q` is a node of the index that sits more than `h` levels above the
/// leaves.
pub open spec fn is_above(sh: Shape, t: int, c: int, q: int, h: nat) -> bool {
    0 <= q < sh.kinds.len() && in_tree(sh.kinds[q], t, c) && node_height(sh.kinds[q]) > h
}

/// The nodes of the index that sit more than `h` levels above the leaves have
/// the same bytes and roles in both images.
pub open spec fn kept_above(pg: Seq<Seq<u8>>, sh: Shape, pg2: Seq<Seq<u8>>, sh2: Shape, t: int, c: int, h: nat) -> bool {
    forall|q: int| #[trigger] is_above(sh, t, c, q, h) ==> q < pg.len() && q < pg2.len() && pg2[q] == pg[q] && sh2.kinds[q] == sh.kinds[q]
}

/// What an insertion below the node `p` asks.
pub open spec fn insertable(pg: Seq<Seq<u8>>, sh: Shape, t: int, c: int, p: int, key: Seq<u8>, rid: u32) -> bool {
    &&& image_inv(pg, sh, tight())
    &&& 0 < p < pg.len()
    &&& in_tree(sh.kinds[p], t, c)
    &&& key.len() == width_of(pg, t, c)
    &&& node_lo(sh.kinds[p]) <= rank(key, rid) < node_hi(sh.kinds[p])
    &&& is_unique(pg, t, c) ==> forall|e: (Seq<u8>, u32)| #[trigger] entries_of(pg, sh, t as nat, c as nat).contains(e) ==> e.0 != key
    &&& room_of(pg, sh) >= node_height(sh.kinds[p])
}

#[verifier::spinoff_prover]
proof fn lemma_inserted_same(pg: Seq<Seq<u8>>, sh: Shape, t: int, c: int, p: int, i: int, key: Seq<u8>, rid: u32)
    requires
        insertable(pg, sh, t, c, p, key, rid),
        node_height(sh.kinds[p]) == 0,
        0 <= i < node_at(pg[p]).entries.len(),
        node_at(pg[p]).entries[i].key == key,
        node_at(pg[p]).entries[i].rid == rid,
    ensures
        inserted(pg, sh, pg, sh, t, c, p, (key, rid)),
        over_at(pg, sh, t, c, p).over is None,
{
    reveal(inserted);
    assert(loose_kept(pg, sh, pg, sh)) by {
        reveal(loose_kept);
    }
    lemma_descend(pg, sh, t, c, p, tight());
    assert(holds(pg, sh, t as nat, c as nat, p, i, (key, rid)));
    assert(entries_of(pg, sh, t as nat, c as nat).insert((key, rid)) =~= entries_of(pg, sh, t as nat, c as nat));
    assert(index_touch(pg, sh, pg, sh, t, c)) by {
        reveal(structure_inv);
        assert(page_ok(pg, sh, t, tight()));
    }
    assert(over_at(pg, sh, t, c, p) == tight());
}

#[verifier::spinoff_prover]
proof fn lemma_inserted_leaf(pg: Seq<Seq<u8>>, sh: Shape, pg2: Seq<Seq<u8>>, t: int, c: int, p: int, i: int, key: Seq<u8>, rid: u32)
    requires
        leaf_put(pg, sh, pg2, t, c, p, i, key, rid),
    ensures
        inserted(pg, sh, pg2, sh, t, c, p, (key, rid)),
        node_at(pg2[p]).entries.len() == node_at(pg[p]).entries.len() + 1,
        pg2.len() == pg.len(),
{
    reveal(inserted);
    lemma_leaf_put(pg, sh, pg2, t, c, p, i, key, rid);
    reveal(leaf_put);
    reveal(node_written);
    assert(loose_kept(pg, sh, pg2, sh)) by {
        reveal(loose_kept);
        assert forall|x: int| 0 <= x < pg.len() && (#[trigger] sh.kinds[x]) is Loose implies x < pg2.len() && sh.kinds[x] is Loose && pg2[x] == pg[x] by {
            assert(x != p);
        }
    }
    assert(table_of(pg2, t) == table_of(pg, t)) by {
        lemma_descend(pg, sh, t, c, p, tight());
        reveal(structure_inv);
    }
}

/// An insertion below a child that left the child within bounds is an insertion
/// below the parent.
#[verifier::spinoff_prover]
proof fn lemma_inserted_pass(pg: Seq<Seq<u8>>, sh: Shape, pg2: Seq<Seq<u8>>, sh2: Shape, t: int, c: int, p: int, ch: int, e: (Seq<u8>, u32))
    requires
        image_inv(pg, sh, tight()),
        0 < p < pg.len(),
        in_tree(sh.kinds[p], t, c),
        0 < ch < pg.len(),
        in_tree(sh.kinds[ch], t, c),
        node_height(sh.kinds[ch]) + 1 == node_height(sh.kinds[p]),
        inserted(pg, sh, pg2, sh2, t, c, ch, e),
        over_at(pg2, sh2, t, c, ch).over is None,
    ensures
        inserted(pg, sh, pg2, sh2, t, c, p, e),
        over_at(pg2, sh2, t, c, p).over is None,
{
    reveal(inserted);
    lemma_descend(pg, sh, t, c, p, tight());
    let h = node_height(sh.kinds[p]);
    let hc = node_height(sh.kinds[ch]);
    assert(is_above(sh, t, c, p, hc));
    assert(pg2[p] == pg[p]);
    assert(over_at(pg2, sh2, t, c, ch) == tight());
    assert(over_at(pg2, sh2, t, c, p) == tight());
    assert forall|q: int| #[trigger] is_above(sh, t, c, q, h) implies q < pg.len() && q < pg2.len() && pg2[q] == pg[q] && sh2.kinds[q] == sh.kinds[q] by {
        assert(is_above(sh, t, c, q, hc));
    }
}

/// An insertion below a child followed by the split of that child is an
/// insertion below the parent.
#[verifier::spinoff_prover]
proof fn lemma_inserted_split(pg: Seq<Seq<u8>>, sh: Shape, pga: Seq<Seq<u8>>, sha: Shape, pgb: Seq<Seq<u8>>, shb: Shape, t: int, c: int, p: int, ch: int, e: (Seq<u8>, u32))
    requires
        image_inv(pg, sh, tight()),
        0 < p < pg.len(),
        in_tree(sh.kinds[p], t, c),
        0 < ch < pg.len(),
        in_tree(sh.kinds[ch], t, c),
        node_height(sh.kinds[ch]) + 1 == node_height(sh.kinds[p]),
        inserted(pg, sh, pga, sha, t, c, ch, e),
        image_inv(pgb, shb, over_at(pgb, shb, t, c, p)),
        index_touch(pga, sha, pgb, shb, t, c),
        entries_of(pgb, shb, t as nat, c as nat) == entries_of(pga, sha, t as nat, c as nat),
        shb.kinds[p] == sha.kinds[p],
        shb.trees == sha.trees,
        table_of(pgb, t) == table_of(pga, t),
        pga.len() <= pgb.len() <= pga.len() + 1,
        room_of(pgb, shb) == room_of(pga, sha) - 1,
        loose_kept(pga, sha, pgb, shb),
        kept_above(pga, sha, pgb, shb, t, c, node_height(sha.kinds[p])),
    ensures
        inserted(pg, sh, pgb, shb, t, c, p, e),
{
    reveal(inserted);
    crate::create::lemma_loose_twice(pg, sh, pga, sha, pgb, shb);
    lemma_touch_twice(pg, sh, pga, sha, pgb, shb, t, c);
    let h = node_height(sh.kinds[p]);
    let hc = node_height(sh.kinds[ch]);
    assert(is_above(sh, t, c, p, hc));
    assert(sha.kinds[p] == sh.kinds[p]);
    assert forall|q: int| #[trigger] is_above(sh, t, c, q, h) implies q < pg.len() && q < pgb.len() && pgb[q] == pg[q] && shb.kinds[q] == sh.kinds[q] by {
        assert(is_above(sh, t, c, q, hc));
        assert(pga[q] == pg[q] && sha.kinds[q] == sh.kinds[q]);
        assert(is_above(sha, t, c, q, h));
    }
}

/// What the rules give an insertion that has come down to the node `p` and is
/// about to go on to its child `i`.
#[verifier::spinoff_prover]
proof fn lemma_insert_down(pg: Seq<Seq<u8>>, sh: Shape, t: int, c: int, p: int, i: int, key: Seq<u8>, rid: u32)
    requires
        insertable(pg, sh, t, c, p, key, rid),
        node_height(sh.kinds[p]) > 0,
        0 <= i < node_at(pg[p]).entries.len(),
        rank_of(node_at(pg[p]).entries[i]) <= rank(key, rid),
        i + 1 < node_at(pg[p]).entries.len() ==> rank(key, rid) < rank_of(node_at(pg[p]).entries[i + 1]),
    ensures
        insertable(pg, sh, t, c, node_at(pg[p]).entries[i].child as int, key, rid),
        node_height(sh.kinds[node_at(pg[p]).entries[i].child as int]) + 1 == node_height(sh.kinds[p]),
{
    lemma_step_down(pg, sh, t, c, p, i, rank(key, rid), tight());
}

/// After an insertion below child `i` of the node `p`, the node still has that
/// child, and the child holds one entry too many exactly if the insertion says
/// so.
#[verifier::spinoff_prover]
proof fn lemma_insert_up(pg: Seq<Seq<u8>>, sh: Shape, pga: Seq<Seq<u8>>, sha: Shape, t: int, c: int, p: int, i: int, e: (Seq<u8>, u32))
    requires
        image_inv(pg, sh, tight()),
        0 < p < pg.len(),
        in_tree(sh.kinds[p], t, c),
        node_height(sh.kinds[p]) > 0,
        0 <= i < node_at(pg[p]).entries.len(),
        room_of(pg, sh) >= node_height(sh.kinds[p]),
        inserted(pg, sh, pga, sha, t, c, node_at(pg[p]).entries[i].child as int, e),
    ensures
        image_inv(pga, sha, over_at(pga, sha, t, c, node_at(pg[p]).entries[i].child as int)),
        pga[p] == pg[p],
        sha.kinds[p] == sh.kinds[p],
        p < pga.len(),
        room_of(pga, sha) >= 1,
        sha.free.len() > 0 || pga.len() < MAX_PAGE,
        sha.trees == sh.trees,
{
    reveal(inserted);
    lemma_descend(pg, sh, t, c, p, tight());
    assert(child_ok(pg, sh, p, i));
    let ch = node_at(pg[p]).entries[i].child as int;
    assert(is_above(sh, t, c, p, node_height(sh.kinds[ch])));
}

impl Db {
    /// Puts the entry `(key, rid)` into the tree below the node `p`, in whose
    /// range it lies. Tells whether `p` now holds one entry too many.
    #[verifier::spinoff_prover]
    pub(crate) fn insert_rec(&mut self, p: usize, key: &[u8], rid: u32, Ghost(t): Ghost<int>, Ghost(c): Ghost<int>) -> (over: bool)
        requires
            insertable(old(self).image(), old(self).shape(), t, c, p as int, key@, rid),
        ensures
            inserted(old(self).image(), old(self).shape(), final(self).image(), final(self).shape(), t, c, p as int, (key@, rid)),
            over == (over_at(final(self).image(), final(self).shape(), t, c, p as int).over is Some),
            final(self).spec_path() == old(self).spec_path(),
        decreases node_height(old(self).shape().kinds[p as int]),
    {
        let ghost pg = self.image();
        let ghost sh = self.shape();
        let ghost x = rank(key@, rid);
        proof {
            lemma_descend(pg, sh, t, c, p as int, tight());
            crate::catalog::lemma_default_cap(width_of(pg, t, c) as int);
            lemma_fits(pg, sh, t, c, p as int);
        }
        let mut node = load_node(self.get_page(p));
        assert(node@.entries == evs(node.entries@));
        let n: usize = node.entries.len();
        let cap: usize = node.cap as usize;
        if node.leaf {
            let i: usize = lower_bound(&node.entries, key, rid);
            if i < n {
                assert(node@.entries[i as int] == node.entries@[i as int]@);
                if entry_rel(node.entries[i].key.as_slice(), node.entries[i].rid, key, rid) == Rel::Equal {
                    proof {
                        lemma_inserted_same(pg, sh, t, c, p as int, i as int, key@, rid);
                    }
                    return false;
                }
            }
            let ghost es = node@.entries;
            node.entries.insert(i, Entry { key: to_vec(key), rid, child: NONE });
            proof {
                assert(node@.entries =~= es.insert(i as int, EntryV { key: key@, rid, child: NONE }));
                assert(storable(node@));
            }
            self.write_node(p, &node);
            proof {
                let pg2 = self.image();
                assert(leaf_put(pg, sh, pg2, t, c, p as int, i as int, key@, rid)) by {
                    reveal(leaf_put);
                    assert forall|j: int| i <= j < es.len() implies rank_of(#[trigger] es[j]) > x by {
                        if j > i {
                            assert(rank_of(es[i as int]) < rank_of(es[j]));
                        }
                    }
                }
                lemma_inserted_leaf(pg, sh, pg2, t, c, p as int, i as int, key@, rid);
            }
            n + 1 > cap
        } else {
            let i: usize = child_for(&node.entries, key, rid);
            assert(node@.entries[i as int] == node.entries@[i as int]@);
            let ch: usize = node.entries[i].child as usize;
            proof {
                lemma_insert_down(pg, sh, t, c, p as int, i as int, key@, rid);
            }
            let over_child = self.insert_rec(ch, key, rid, Ghost(t), Ghost(c));
            let ghost pga = self.image();
            let ghost sha = self.shape();
            proof {
                lemma_insert_up(pg, sh, pga, sha, t, c, p as int, i as int, (key@, rid));
            }
            if over_child {
                let over = self.split_child(p, i, Ghost(t), Ghost(c), Ghost(over_at(pga, sha, t, c, ch as int)));
                proof {
                    lemma_inserted_split(pg, sh, pga, sha, self.image(), self.shape(), t, c, p as int, ch as int, (key@, rid));
                }
                over
            } else {
                proof {
                    lemma_inserted_pass(pg, sh, pga, sha, t, c, p as int, ch as int, (key@, rid));
                }
                false
            }
        }
    }
}

/// A node may hold one entry more than the fan-out without leaving its page.
#[verifier::spinoff_prover]
pub proof fn lemma_fits(pg: Seq<Seq<u8>>, sh: Shape, t: int, c: int, p: int)
    requires
        image_inv(pg, sh, tight()),
        0 < p < pg.len(),
        in_tree(sh.kinds[p], t, c),
    ensures
        node_at(pg[p]).entries.len() + 1 <= fit(node_at(pg[p]).key_size as int, node_at(pg[p]).leaf),
        node_at(pg[p]).cap == sh.trees[(t as nat, c as nat)].cap,
        node_at(pg[p]).entries.len() <= node_at(pg[p]).cap,
{
    lemma_descend(pg, sh, t, c, p, tight());
    crate::catalog::lemma_default_cap(width_of(pg, t, c) as int);
    reveal(structure_inv);
    assert(page_ok(pg, sh, t, tight()));
    assert(root_ok_at(pg, sh, t, c));
}

/// Among keys of one width, the entries that rank from `(key, 0)` to the last
/// row of `key` are the entries with that key.
#[verifier::spinoff_prover]
pub proof fn lemma_key_range(key: Seq<u8>, e: (Seq<u8>, u32))
    requires
        e.0.len() == key.len(),
    ensures
        (rank(key, 0) <= rank(e.0, e.1) < rank(key, 0xFFFF_FFFF) + 1) <==> e.0 == key,
{
    if crate::key::key_val(e.0) == crate::key::key_val(key) {
        crate::key::lemma_key_val_injective(e.0, key);
    }
}

/// Every entry of an index has a key of the width of the index.
#[verifier::spinoff_prover]
pub proof fn lemma_entry_width(pg: Seq<Seq<u8>>, sh: Shape, t: int, c: int, e: (Seq<u8>, u32), relax: Relax)
    requires
        image_inv(pg, sh, relax),
        0 <= t,
        0 <= c,
        entries_of(pg, sh, t as nat, c as nat).contains(e),
    ensures
        e.0.len() == width_of(pg, t, c),
{
    let (q, k) = choose|q: int, k: int| #[trigger] holds(pg, sh, t as nat, c as nat, q, k, e);
    lemma_descend(pg, sh, t, c, q, relax);
    assert(node_at(pg[q]).entries[k].key.len() == width_of(pg, t, c));
}

/// Whether the insertion of an entry with the key `key` is refused: the column
/// is unique and the index holds an entry with that key.
pub open spec fn key_clash(pg: Seq<Seq<u8>>, sh: Shape, t: int, c: int, key: Seq<u8>) -> bool {
    is_unique(pg, t, c) && exists|r: u32| #[trigger] entries_of(pg, sh, t as nat, c as nat).contains((key, r))
}

/// A list of the entries that rank from `(key, 0)` to the last row of `key` is
/// empty exactly if the index has no entry with that key.
#[verifier::spinoff_prover]
pub proof fn lemma_key_listed(pg: Seq<Seq<u8>>, sh: Shape, t: int, c: int, key: Seq<u8>, out: Seq<EntryV>)
    requires
        image_inv(pg, sh, tight()),
        0 <= t,
        0 <= c,
        key.len() == width_of(pg, t, c),
        crate::scan::lists_range(pg, sh, t, c, out, rank(key, 0), rank(key, 0xFFFF_FFFF) + 1),
    ensures
        out.len() > 0 <==> exists|r: u32| #[trigger] entries_of(pg, sh, t as nat, c as nat).contains((key, r)),
        out.len() == 0 ==> forall|e: (Seq<u8>, u32)| #[trigger] entries_of(pg, sh, t as nat, c as nat).contains(e) ==> e.0 != key,
        forall|i: int| 0 <= i < out.len() ==> (#[trigger] out[i]).key == key && entries_of(pg, sh, t as nat, c as nat).contains((key, out[i].rid)),
        forall|r: u32| #[trigger] entries_of(pg, sh, t as nat, c as nat).contains((key, r)) ==> exists|i: int| 0 <= i < out.len() && (#[trigger] out[i]).rid == r,
{
    let a = rank(key, 0);
    let b = rank(key, 0xFFFF_FFFF) + 1;
    let s = entries_of(pg, sh, t as nat, c as nat);
    assert forall|i: int| 0 <= i < out.len() implies (#[trigger] out[i]).key == key && s.contains((key, out[i].rid)) by {
        let e = crate::scan::pair_at(out, i);
        assert(crate::scan::listed_in(pg, sh, t, c, e, a, b));
        lemma_entry_width(pg, sh, t, c, e, tight());
        lemma_key_range(key, e);
    }
    assert forall|r: u32| #[trigger] s.contains((key, r)) implies exists|i: int| 0 <= i < out.len() && (#[trigger] out[i]).rid == r by {
        lemma_key_range(key, (key, r));
        assert(crate::scan::listed_in(pg, sh, t, c, (key, r), a, b));
        assert(crate::scan::lists(out, (key, r)));
        let i = choose|i: int| 0 <= i < out.len() && #[trigger] crate::scan::pair_at(out, i) == (key, r);
        assert(out[i].rid == r);
    }
    if out.len() > 0 {
        assert(s.contains((key, out[0].rid)));
    }
    assert forall|e: (Seq<u8>, u32)| out.len() == 0 && #[trigger] s.contains(e) implies e.0 != key by {
        if e.0 == key {
            assert(s.contains((key, e.1)));
        }
    }
}

/// What the rules give an insertion at the root.
#[verifier::spinoff_prover]
proof fn lemma_insert_root(pg: Seq<Seq<u8>>, sh: Shape, t: int, c: int, key: Seq<u8>, rid: u32)
    requires
        image_inv(pg, sh, tight()),
        0 < t < pg.len(),
        sh.kinds[t] is Table,
        0 <= c < table_of(pg, t).cols.len(),
        table_of(pg, t).cols[c].index != NONE,
        key.len() == width_of(pg, t, c),
        is_unique(pg, t, c) ==> forall|e: (Seq<u8>, u32)| #[trigger] entries_of(pg, sh, t as nat, c as nat).contains(e) ==> e.0 != key,
        room_of(pg, sh) >= sh.trees[(t as nat, c as nat)].height + 2,
    ensures
        insertable(pg, sh, t, c, root_of(pg, t, c), key, rid),
        node_height(sh.kinds[root_of(pg, t, c)]) == sh.trees[(t as nat, c as nat)].height,
        pg[t].len() == PAGE_SIZE,
        c < MAX_COL,
{
    lemma_root_facts(pg, sh, t, c);
    lemma_rank_bound(key, rid);
}

impl Db {
    /// Whether the insertion of an entry with the key `key` into the index on
    /// column `c` of table `t` is refused.
    pub open spec fn clashes(&self, t: nat, c: nat, key: Seq<u8>) -> bool {
        key_clash(self.image(), self.shape(), t as int, c as int, key)
    }

    /// Adds the entry `(key, rid)` to the index on column `c` of the table whose
    /// table-meta page is `t`.
    ///
    /// The entry goes into the leaf in whose range it lies. A node that then holds
    /// more entries than its fan-out allows is split at the middle, the upper half
    /// going to a new node whose first entry becomes its separator in the parent;
    /// a split of the root puts a new root above the two halves. An entry that is
    /// there already is left alone. On a unique column an entry whose key is there
    /// already, with whatever row, is refused with `DupIndexValue`.
    #[verifier::spinoff_prover]
    pub fn insert_key(&mut self, t: usize, c: usize, key: &[u8], rid: u32) -> (r: Result<()>)
        requires
            old(self).wf(),
            old(self).indexed(t as nat, c as nat, key@),
            old(self).room() >= old(self).shape().trees[(t as nat, c as nat)].height + 2,
        ensures
            final(self).wf(),
            final(self).spec_path() == old(self).spec_path(),
            final(self).indexed(t as nat, c as nat, key@),
            loose_kept(old(self).image(), old(self).shape(), final(self).image(), final(self).shape()),
            old(self).room() - old(self).shape().trees[(t as nat, c as nat)].height - 2 <= final(self).room() <= old(self).room(),
            old(self).page_count() <= final(self).page_count(),
            old(self).shape().trees[(t as nat, c as nat)].height <= final(self).shape().trees[(t as nat, c as nat)].height <= old(self).shape().trees[(t as nat, c as nat)].height + 1,
            match r {
                Ok(()) => !old(self).clashes(t as nat, c as nat, key@) && final(self).entries(t as nat, c as nat) == old(self).entries(t as nat, c as nat).insert((key@, rid))
                    && index_step(old(self).image(), old(self).shape(), final(self).image(), final(self).shape(), t as int, c as int),
                Err(e) => e@ == ErrorV::DupIndexValue && old(self).clashes(t as nat, c as nat, key@) && final(self).image() == old(self).image()
                    && final(self).shape() == old(self).shape(),
            },
    {
        let ghost pg = self.image();
        let ghost sh = self.shape();
        proof {
            lemma_root_facts(pg, sh, t as int, c as int);
        }
        let ci = read_col_of(self, t, c);
        if ci.flags.unique {
            let found = self.scan(t, c, key, 0, key, 0xFFFF_FFFF);
            proof {
                lemma_key_listed(pg, sh, t as int, c as int, key@, evs(found@));
            }
            if found.len() > 0 {
                proof {
                    reveal(loose_kept);
                }
                return Err(Error::DupIndexValue);
            }
        }
        proof {
            lemma_insert_root(pg, sh, t as int, c as int, key@, rid);
        }
        let root: usize = ci.index as usize;
        let over = self.insert_rec(root, key, rid, Ghost(t as int), Ghost(c as int));
        let ghost pga = self.image();
        let ghost sha = self.shape();
        proof {
            reveal(inserted);
        }
        if over {
            let top = self.grow_root(t, c);
            let ghost pgb = self.image();
            let ghost shb = self.shape();
            let ghost g = crate::grow::Growth { t: t as int, c: c as int, root: root as int, top: top as int };
            let again = self.split_child(top, 0, Ghost(t as int), Ghost(c as int), Ghost(crate::grow::grow_relax(g)));
            proof {
                lemma_touch_twice(pg, sh, pga, sha, pgb, shb, t as int, c as int);
                lemma_touch_twice(pg, sh, pgb, shb, self.image(), self.shape(), t as int, c as int);
                crate::create::lemma_loose_twice(pg, sh, pga, sha, pgb, shb);
                crate::create::lemma_loose_twice(pg, sh, pgb, shb, self.image(), self.shape());
                assert(!again);
            }
        }
        proof {
            lemma_index_step(pg, sh, self.image(), self.shape(), t as int, c as int);
            crate::delete::lemma_indexed_kept(pg, sh, self.image(), self.shape(), t as int, c as int, key@);
        }
        Ok(())
    }
}

/// The catalog entry of column `c` of the table whose table-meta page is `t`.
#[verifier::spinoff_prover]
pub fn read_col_of(db: &Db, t: usize, c: usize) -> (ci: crate::table::ColInfo)
    requires
        t < db.page_count(),
        db.image()[t as int].len() == PAGE_SIZE,
        c < MAX_COL,
    ensures
        ci@ == crate::table::col_at(db.image()[t as int], c as int),
{
    crate::table::read_col(db.get_page(t), c)
}

} // verus!
