//! What holds of every database that obeys the rules of the format.

use vstd::prelude::*;
use crate::shape::tight;
use crate::data::dp_count;
use crate::db::{Db, consistent, flatten, free_after_allocate, free_after_deallocate, fresh_page, fresh_shape, lemma_fresh_image, lemma_fresh_page, next_page, paginate};
use crate::frames::in_tree;
use crate::heap::lemma_table_facts;
use crate::key::lemma_rank_injective;
use crate::layout::{NONE, PAGE_SIZE};
use crate::meta::{has_magic, table_num, tables};
use crate::node::{EntryV, node_at};
use crate::release::node_height;
use crate::scan::{listed_in, lists, lists_range, pair_at};
use crate::shape::{Kind, Shape, chain_ok_at, data_ok, entries_of, image_inv, keys_distinct, min_fill, node_ok, page_ok, parent_ok, rank_of, sorted, structure_inv, table_of, unique_ok_at};
use crate::tree::{lemma_descend, node_parent, root_of};

verus! {

/// The image of a database that was just created opens: its length is one
/// page, it starts with the format tag, it obeys every rule, and it holds no
/// table and no page but the meta page.
#[verifier::spinoff_prover]
pub proof fn law_fresh_image_opens()
    ensures
        flatten(seq![fresh_page()]).len() == PAGE_SIZE,
        has_magic(flatten(seq![fresh_page()])),
        paginate(flatten(seq![fresh_page()])) == seq![fresh_page()],
        consistent(flatten(seq![fresh_page()])),
        table_num(paginate(flatten(seq![fresh_page()]))[0]) == 0,
        paginate(flatten(seq![fresh_page()])).len() == 1,
{
    let img = flatten(seq![fresh_page()]);
    lemma_fresh_page();
    lemma_fresh_image();
    assert(img =~= fresh_page());
    assert(img.subrange(0, PAGE_SIZE as int) =~= fresh_page());
    assert(paginate(img) =~= seq![fresh_page()]);
    assert(image_inv(paginate(img), fresh_shape(), tight()));
}

/// The image of a database that obeys the rules is consistent: saved and
/// opened again, it obeys the rules.
#[verifier::spinoff_prover]
pub proof fn law_saved_image_is_consistent(db: &Db)
    requires
        db.wf(),
    ensures
        paginate(flatten(db.image())) == db.image(),
        consistent(flatten(db.image())),
{
    let pg = db.image();
    let img = flatten(pg);
    assert forall|p: int| 0 <= p < pg.len() implies #[trigger] paginate(img)[p] == pg[p] by {
        assert(pg[p].len() == PAGE_SIZE);
        assert forall|k: int| 0 <= k < PAGE_SIZE implies #[trigger] img.subrange(p * PAGE_SIZE, p * PAGE_SIZE + PAGE_SIZE)[k] == pg[p][k] by {
            assert((p * PAGE_SIZE + k) / (PAGE_SIZE as int) == p);
            assert((p * PAGE_SIZE + k) % (PAGE_SIZE as int) == k);
        }
        assert(img.subrange(p * PAGE_SIZE, p * PAGE_SIZE + PAGE_SIZE) =~= pg[p]);
    }
    assert(paginate(img) =~= pg);
    assert(image_inv(paginate(img), db.shape(), tight()));
}

/// The free list is last in, first out: a page that is given back right after
/// it was handed out is the next to be handed out, whatever the file's size.
#[verifier::spinoff_prover]
pub proof fn law_free_list_is_lifo(free: Seq<nat>, pages: nat, later: nat)
    ensures
        next_page(free_after_deallocate(free_after_allocate(free), next_page(free, pages)), later) == next_page(free, pages),
{
}

/// A data page is on its table's chain of pages with a free slot exactly if
/// fewer of its slots are occupied than it has.
#[verifier::spinoff_prover]
pub proof fn law_chain_holds_the_pages_with_room(db: &Db, d: nat)
    requires
        db.wf(),
        d < db.page_count(),
        db.shape().kinds[d as int] is Data,
    ensures
        ({
            let t = match db.shape().kinds[d as int] {
                Kind::Data { table, .. } => table,
                _ => 0,
            };
            db.shape().heaps[t].chain.contains(d) <==> dp_count(db.image()[d as int]) < table_of(db.image(), t as int).cap
        }),
{
    let pg = db.image();
    let sh = db.shape();
    reveal(structure_inv);
    assert(page_ok(pg, sh, d as int, tight()));
    match sh.kinds[d as int] {
        Kind::Data { table, pos, link } => {
            assert(page_ok(pg, sh, table as int, tight()));
            let chain = sh.heaps[table].chain;
            let cap = table_of(pg, table as int).cap as int;
            crate::data::lemma_used_slots_finite(pg[d as int], cap);
            if chain.contains(d) {
                let j = choose|j: int| 0 <= j < chain.len() && chain[j] == d;
                assert(chain_ok_at(pg, sh, table as int, j));
            }
            if link >= 0 {
                assert(chain[link] == d);
            }
        },
        _ => {},
    }
}

/// In the index of a unique column no two entries share a key.
#[verifier::spinoff_prover]
pub proof fn law_unique_keys(db: &Db, t: nat, c: nat)
    requires
        db.wf(),
        db.is_table(t),
        c < db.table(t).cols.len(),
        db.table(t).cols[c as int].flags.unique,
    ensures
        keys_distinct(db.entries(t, c)),
{
    reveal(structure_inv);
    assert(unique_ok_at(db.image(), db.shape(), t as int, c as int));
}

/// Every leaf of an index is as many levels below the root as the tree is high:
/// the root sits at the height of the tree, a node that is not the root sits one
/// level below its parent and holds at least half the fan-out, rounded up, and
/// the leaves are the nodes at height zero.
#[verifier::spinoff_prover]
pub proof fn law_tree_is_balanced(db: &Db, t: nat, c: nat, p: nat)
    requires
        db.wf(),
        p < db.page_count(),
        in_tree(db.shape().kinds[p as int], t as int, c as int),
    ensures
        node_at(db.image()[p as int]).leaf <==> node_height(db.shape().kinds[p as int]) == 0,
        p == root_of(db.image(), t as int, c as int) ==> node_height(db.shape().kinds[p as int]) == db.shape().trees[(t, c)].height,
        p != root_of(db.image(), t as int, c as int) ==> {
            let up = node_parent(db.shape().kinds[p as int]);
            &&& 0 < up < db.page_count()
            &&& in_tree(db.shape().kinds[up], t as int, c as int)
            &&& node_height(db.shape().kinds[up]) == node_height(db.shape().kinds[p as int]) + 1
            &&& node_at(db.image()[p as int]).entries.len() >= min_fill(db.shape().trees[(t, c)].cap as int)
        },
        sorted(node_at(db.image()[p as int]).entries),
{
    let pg = db.image();
    let sh = db.shape();
    lemma_descend(pg, sh, t as int, c as int, p as int, tight());
    if p != root_of(pg, t as int, c as int) {
        assert(parent_ok(pg, sh, p as int));
    }
}

/// The entries of a range of ranks have one list in rising order: what a scan
/// returns is decided by the entries of the index alone.
#[verifier::spinoff_prover]
pub proof fn law_scan_is_decided(pg: Seq<Seq<u8>>, sh: Shape, t: int, c: int, s1: Seq<EntryV>, s2: Seq<EntryV>, a: int, b: int)
    requires
        image_inv(pg, sh, tight()),
        0 <= t,
        0 <= c,
        lists_range(pg, sh, t, c, s1, a, b),
        lists_range(pg, sh, t, c, s2, a, b),
    ensures
        s1.len() == s2.len(),
        forall|i: int| 0 <= i < s1.len() ==> pair_at(s1, i) == pair_at(s2, i),
    decreases s1.len() + s2.len(),
{
    if s1.len() == 0 {
        if s2.len() > 0 {
            assert(listed_in(pg, sh, t, c, pair_at(s2, 0), a, b));
            assert(lists(s1, pair_at(s2, 0)));
        }
    } else if s2.len() == 0 {
        assert(listed_in(pg, sh, t, c, pair_at(s1, 0), a, b));
        assert(lists(s2, pair_at(s1, 0)));
    } else {
        // the last entries of both lists are the one entry of the highest rank
        let n1 = s1.len() - 1;
        let n2 = s2.len() - 1;
        let e1 = pair_at(s1, n1);
        let e2 = pair_at(s2, n2);
        assert(listed_in(pg, sh, t, c, e1, a, b));
        assert(listed_in(pg, sh, t, c, e2, a, b));
        assert(lists(s2, e1));
        assert(lists(s1, e2));
        let i2 = choose|i: int| 0 <= i < s2.len() && #[trigger] pair_at(s2, i) == e1;
        let i1 = choose|i: int| 0 <= i < s1.len() && #[trigger] pair_at(s1, i) == e2;
        if i2 < n2 {
            assert(rank_of(s2[i2]) < rank_of(s2[n2]));
        }
        if i1 < n1 {
            assert(rank_of(s1[i1]) < rank_of(s1[n1]));
        }
        crate::insert::lemma_entry_width(pg, sh, t, c, e1, tight());
        crate::insert::lemma_entry_width(pg, sh, t, c, e2, tight());
        lemma_rank_injective(e1.0, e1.1, e2.0, e2.1);
        let r = rank_of(s1[n1]);
        let d1 = s1.drop_last();
        let d2 = s2.drop_last();
        lemma_list_cut(pg, sh, t, c, s1, a, b);
        lemma_list_cut(pg, sh, t, c, s2, a, b);
        law_scan_is_decided(pg, sh, t, c, d1, d2, a, r);
        assert forall|i: int| 0 <= i < s1.len() implies pair_at(s1, i) == pair_at(s2, i) by {
            if i < n1 {
                assert(pair_at(d1, i) == pair_at(d2, i));
            }
        }
    }
}

/// The entries of an index after each entry of `ins` was inserted in turn.
pub open spec fn after_inserts(start: Set<(Seq<u8>, u32)>, ins: Seq<(Seq<u8>, u32)>) -> Set<(Seq<u8>, u32)>
    decreases ins.len(),
{
    if ins.len() == 0 {
        start
    } else {
        after_inserts(start, ins.drop_last()).insert(ins.last())
    }
}

/// The entries of an index after each entry of `del` was deleted in turn.
pub open spec fn after_deletes(start: Set<(Seq<u8>, u32)>, del: Seq<(Seq<u8>, u32)>) -> Set<(Seq<u8>, u32)>
    decreases del.len(),
{
    if del.len() == 0 {
        start
    } else {
        after_deletes(start, del.drop_last()).remove(del.last())
    }
}

/// Insertions followed by deletions leave in an index what it held or was given
/// and was not taken out again, in whatever order the entries came and went. A
/// scan lists that set, cut to its range, in rising order.
#[verifier::spinoff_prover]
pub proof fn law_inserts_then_deletes(start: Set<(Seq<u8>, u32)>, ins: Seq<(Seq<u8>, u32)>, del: Seq<(Seq<u8>, u32)>)
    ensures
        after_inserts(start, ins) == start.union(ins.to_set()),
        after_deletes(after_inserts(start, ins), del) == start.union(ins.to_set()).difference(del.to_set()),
    decreases ins.len() + del.len(),
{
    if del.len() > 0 {
        law_inserts_then_deletes(start, ins, del.drop_last());
        let d = del.drop_last();
        assert forall|e: (Seq<u8>, u32)| del.to_set().contains(e) == (d.to_set().contains(e) || e == del.last()) by {
            if del.to_set().contains(e) {
                let i = choose|i: int| 0 <= i < del.len() && del[i] == e;
                if i < del.len() - 1 {
                    assert(d[i] == e);
                }
            }
            if d.to_set().contains(e) {
                let i = choose|i: int| 0 <= i < d.len() && d[i] == e;
                assert(del[i] == e);
            }
            if e == del.last() {
                assert(del[del.len() - 1] == e);
            }
        }
        assert(after_deletes(after_inserts(start, ins), del) =~= start.union(ins.to_set()).difference(del.to_set()));
    } else if ins.len() > 0 {
        law_inserts_then_deletes(start, ins.drop_last(), del);
        let d = ins.drop_last();
        assert forall|e: (Seq<u8>, u32)| ins.to_set().contains(e) == (d.to_set().contains(e) || e == ins.last()) by {
            if ins.to_set().contains(e) {
                let i = choose|i: int| 0 <= i < ins.len() && ins[i] == e;
                if i < ins.len() - 1 {
                    assert(d[i] == e);
                }
            }
            if d.to_set().contains(e) {
                let i = choose|i: int| 0 <= i < d.len() && d[i] == e;
                assert(ins[i] == e);
            }
            if e == ins.last() {
                assert(ins[ins.len() - 1] == e);
            }
        }
        assert(after_inserts(start, ins) =~= start.union(ins.to_set()));
        assert(del.to_set() =~= Set::<(Seq<u8>, u32)>::empty());
        assert(after_deletes(after_inserts(start, ins), del) =~= start.union(ins.to_set()).difference(del.to_set()));
    } else {
        assert(ins.to_set() =~= Set::<(Seq<u8>, u32)>::empty());
        assert(del.to_set() =~= Set::<(Seq<u8>, u32)>::empty());
        assert(after_inserts(start, ins) =~= start.union(ins.to_set()));
        assert(after_deletes(after_inserts(start, ins), del) =~= start.union(ins.to_set()).difference(del.to_set()));
    }
}

/// A list of a range without its last entry is a list of the range below that
/// entry.
#[verifier::spinoff_prover]
proof fn lemma_list_cut(pg: Seq<Seq<u8>>, sh: Shape, t: int, c: int, s: Seq<EntryV>, a: int, b: int)
    requires
        image_inv(pg, sh, tight()),
        0 <= t,
        0 <= c,
        lists_range(pg, sh, t, c, s, a, b),
        s.len() > 0,
    ensures
        lists_range(pg, sh, t, c, s.drop_last(), a, rank_of(s.last())),
{
    let d = s.drop_last();
    let n = s.len() - 1;
    let r = rank_of(s.last());
    assert forall|i: int, j: int| 0 <= i < j < d.len() implies rank_of(#[trigger] d[i]) < rank_of(#[trigger] d[j]) by {
        assert(rank_of(s[i]) < rank_of(s[j]));
    }
    assert forall|i: int| 0 <= i < d.len() implies listed_in(pg, sh, t, c, #[trigger] pair_at(d, i), a, r) by {
        assert(listed_in(pg, sh, t, c, pair_at(s, i), a, b));
        assert(rank_of(s[i]) < rank_of(s[n]));
    }
    assert forall|e: (Seq<u8>, u32)| #[trigger] listed_in(pg, sh, t, c, e, a, r) implies lists(d, e) by {
        assert(listed_in(pg, sh, t, c, pair_at(s, n), a, b));
        assert(listed_in(pg, sh, t, c, e, a, b));
        let i = choose|i: int| 0 <= i < s.len() && #[trigger] pair_at(s, i) == e;
        assert(i != n);
        assert(pair_at(d, i) == e);
    }
}

} // verus!
