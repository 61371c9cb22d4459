//! Reading an index: the entries of a range of ranks, in order.

use vstd::prelude::*;
use crate::shape::tight;
use crate::create::to_vec;
use crate::db::Db;
use crate::frames::in_tree;
use crate::key::{Rel, entry_rel, lemma_rank_bound, lemma_rank_injective, rank, top};
use crate::layout::{NONE, PAGE_SIZE};
use crate::node::{Entry, EntryV, IndexPage, load_node, node_at};
use crate::release::{node_height, node_hi, node_lo};
use crate::search::{evs, keyed, lemma_decoded, lower_bound};
use crate::shape::{Kind, Relax, Shape, apart, entries_of, holds, image_inv, is_leaf_of, leaf_links_ok, leaves_apart, min_fill, node_ok, page_ok, rank_of, sorted, structure_inv, within};
use crate::tree::{lemma_descend, root_of, width_of};

verus! {

/// Whether `p` is a leaf of the index on column `c` of table `t`.
pub open spec fn leaf_in(pg: Seq<Seq<u8>>, sh: Shape, t: int, c: int, p: int) -> bool {
    &&& 0 < p < pg.len()
    &&& in_tree(sh.kinds[p], t, c)
    &&& node_height(sh.kinds[p]) == 0
}

/// An entry of the index whose rank lies in the range of the leaf `p` is an
/// entry of that leaf.
#[verifier::spinoff_prover]
pub proof fn lemma_here(pg: Seq<Seq<u8>>, sh: Shape, t: int, c: int, p: int, e: (Seq<u8>, u32), relax: Relax)
    requires
        image_inv(pg, sh, relax),
        leaf_in(pg, sh, t, c, p),
        entries_of(pg, sh, t as nat, c as nat).contains(e),
        node_lo(sh.kinds[p]) <= rank(e.0, e.1) < node_hi(sh.kinds[p]),
    ensures
        exists|i: int| #[trigger] holds(pg, sh, t as nat, c as nat, p, i, e),
{
    let (q, i) = choose|q: int, i: int| #[trigger] holds(pg, sh, t as nat, c as nat, q, i, e);
    if q != p {
        lemma_descend(pg, sh, t, c, q, relax);
        lemma_descend(pg, sh, t, c, p, relax);
        reveal(structure_inv);
        assert(apart(sh, q, p));
        assert(rank_of(node_at(pg[q]).entries[i]) == rank(e.0, e.1));
    }
}

/// An entry of the leaf `q` ranks inside the range of `q`, and so outside the
/// range of every other leaf.
#[verifier::spinoff_prover]
pub proof fn lemma_there(pg: Seq<Seq<u8>>, sh: Shape, t: int, c: int, p: int, q: int, i: int, relax: Relax)
    requires
        image_inv(pg, sh, relax),
        leaf_in(pg, sh, t, c, p),
        leaf_in(pg, sh, t, c, q),
        0 <= i < node_at(pg[q]).entries.len(),
    ensures
        node_lo(sh.kinds[q]) <= rank_of(node_at(pg[q]).entries[i]) < node_hi(sh.kinds[q]),
        q != p ==> node_hi(sh.kinds[q]) <= node_lo(sh.kinds[p]) || node_hi(sh.kinds[p]) <= node_lo(sh.kinds[q]),
        node_lo(sh.kinds[q]) < node_hi(sh.kinds[q]),
{
    lemma_descend(pg, sh, t, c, q, relax);
    lemma_descend(pg, sh, t, c, p, relax);
    reveal(structure_inv);
    assert(apart(sh, q, p));
}

/// What the rules give for the ring links of the leaf `p`.
#[verifier::spinoff_prover]
pub proof fn lemma_next_leaf(pg: Seq<Seq<u8>>, sh: Shape, t: int, c: int, p: int)
    requires
        image_inv(pg, sh, tight()),
        leaf_in(pg, sh, t, c, p),
    ensures
        leaf_in(pg, sh, t, c, node_at(pg[p]).next as int),
        node_lo(sh.kinds[node_at(pg[p]).next as int]) == (if node_hi(sh.kinds[p]) == top(width_of(pg, t, c)) {
            0
        } else {
            node_hi(sh.kinds[p])
        }),
        node_hi(sh.kinds[p]) <= top(width_of(pg, t, c)),
        0 <= node_lo(sh.kinds[p]) < node_hi(sh.kinds[p]),
        node_hi(sh.kinds[p]) < top(width_of(pg, t, c)) ==> node_at(pg[node_at(pg[p]).next as int]).entries.len() >= 1,
{
    lemma_descend(pg, sh, t, c, p, tight());
    let n = node_at(pg[p]).next as int;
    assert(leaf_links_ok(pg, sh, p, width_of(pg, t, c)));
    lemma_descend(pg, sh, t, c, n, tight());
    if node_hi(sh.kinds[p]) < top(width_of(pg, t, c)) {
        // the next leaf starts above zero, so it is not the root
        assert(node_lo(sh.kinds[n]) == node_hi(sh.kinds[p]));
        assert(n != root_of(pg, t, c));
        assert(min_fill(sh.trees[(t as nat, c as nat)].cap as int) >= 1) by {
            lemma_tree_cap(pg, sh, t, c, n);
        }
    }
}

/// The fan-out of a tree is at least two.
#[verifier::spinoff_prover]
pub proof fn lemma_tree_cap(pg: Seq<Seq<u8>>, sh: Shape, t: int, c: int, p: int)
    requires
        image_inv(pg, sh, tight()),
        0 < p < pg.len(),
        in_tree(sh.kinds[p], t, c),
    ensures
        sh.trees[(t as nat, c as nat)].cap >= 2,
{
    lemma_descend(pg, sh, t, c, p, tight());
    reveal(structure_inv);
    assert(page_ok(pg, sh, t, tight()));
    assert(crate::shape::root_ok_at(pg, sh, t, c));
}

/// Whether the entry `e` of the index ranks in `[a, b)`.
pub open spec fn listed_in(pg: Seq<Seq<u8>>, sh: Shape, t: int, c: int, e: (Seq<u8>, u32), a: int, b: int) -> bool {
    entries_of(pg, sh, t as nat, c as nat).contains(e) && a <= rank(e.0, e.1) < b
}

/// The key and row of entry `i` of a list of entries.
pub open spec fn pair_at(s: Seq<EntryV>, i: int) -> (Seq<u8>, u32) {
    (s[i].key, s[i].rid)
}

/// Whether a list of entries holds the entry `e`.
pub open spec fn lists(s: Seq<EntryV>, e: (Seq<u8>, u32)) -> bool {
    exists|i: int| 0 <= i < s.len() && #[trigger] pair_at(s, i) == e
}

/// The list `s` holds the entries of the index that rank in `[a, b)`, and no
/// others, in rising order.
pub open spec fn lists_range(pg: Seq<Seq<u8>>, sh: Shape, t: int, c: int, s: Seq<EntryV>, a: int, b: int) -> bool {
    &&& sorted(s)
    &&& forall|i: int| 0 <= i < s.len() ==> listed_in(pg, sh, t, c, #[trigger] pair_at(s, i), a, b)
    &&& forall|e: (Seq<u8>, u32)| #[trigger] listed_in(pg, sh, t, c, e, a, b) ==> lists(s, e)
}

/// No entry of the index ranks in `[a, b)`.
pub open spec fn gap(pg: Seq<Seq<u8>>, sh: Shape, t: int, c: int, a: int, b: int) -> bool {
    forall|e: (Seq<u8>, u32)| !#[trigger] listed_in(pg, sh, t, c, e, a, b)
}

/// A list of a range followed by a gap is a list of the longer range.
#[verifier::spinoff_prover]
pub proof fn lemma_list_gap(pg: Seq<Seq<u8>>, sh: Shape, t: int, c: int, s: Seq<EntryV>, a: int, b: int, b2: int)
    requires
        lists_range(pg, sh, t, c, s, a, b),
        b <= b2,
        gap(pg, sh, t, c, b, b2),
    ensures
        lists_range(pg, sh, t, c, s, a, b2),
{
    assert forall|i: int| 0 <= i < s.len() implies listed_in(pg, sh, t, c, #[trigger] pair_at(s, i), a, b2) by {
        assert(listed_in(pg, sh, t, c, pair_at(s, i), a, b));
    }
    assert forall|e: (Seq<u8>, u32)| #[trigger] listed_in(pg, sh, t, c, e, a, b2) implies lists(s, e) by {
        if rank(e.0, e.1) >= b {
            assert(listed_in(pg, sh, t, c, e, b, b2));
        } else {
            assert(listed_in(pg, sh, t, c, e, a, b));
        }
    }
}

/// A list of a range followed by the one entry that ranks at its end is a list
/// of the range up to and including that entry.
#[verifier::spinoff_prover]
pub proof fn lemma_list_push(pg: Seq<Seq<u8>>, sh: Shape, t: int, c: int, s: Seq<EntryV>, x: EntryV, a: int, b: int)
    requires
        lists_range(pg, sh, t, c, s, a, b),
        entries_of(pg, sh, t as nat, c as nat).contains((x.key, x.rid)),
        a <= rank_of(x),
        rank_of(x) == b,
        forall|e: (Seq<u8>, u32)| entries_of(pg, sh, t as nat, c as nat).contains(e) && rank(e.0, e.1) == b ==> e == (x.key, x.rid),
    ensures
        lists_range(pg, sh, t, c, s.push(x), a, b + 1),
{
    let s2 = s.push(x);
    assert forall|i: int, j: int| 0 <= i < j < s2.len() implies rank_of(#[trigger] s2[i]) < rank_of(#[trigger] s2[j]) by {
        if j == s.len() {
            assert(listed_in(pg, sh, t, c, pair_at(s, i), a, b));
        }
    }
    assert forall|i: int| 0 <= i < s2.len() implies listed_in(pg, sh, t, c, #[trigger] pair_at(s2, i), a, b + 1) by {
        if i < s.len() {
            assert(listed_in(pg, sh, t, c, pair_at(s, i), a, b));
            assert(pair_at(s2, i) == pair_at(s, i));
        }
    }
    assert forall|e: (Seq<u8>, u32)| #[trigger] listed_in(pg, sh, t, c, e, a, b + 1) implies lists(s2, e) by {
        if rank(e.0, e.1) == b {
            assert(pair_at(s2, s.len() as int) == e);
        } else {
            assert(listed_in(pg, sh, t, c, e, a, b));
            let i = choose|i: int| 0 <= i < s.len() && #[trigger] pair_at(s, i) == e;
            assert(pair_at(s2, i) == e);
        }
    }
}

/// No entry of the index ranks between what the leaf `p` holds below position
/// `i` and what it holds from there on, as long as the range of `p` reaches.
#[verifier::spinoff_prover]
pub proof fn lemma_gap_inside(pg: Seq<Seq<u8>>, sh: Shape, t: int, c: int, p: int, i: int, done: int, upto: int)
    requires
        image_inv(pg, sh, tight()),
        leaf_in(pg, sh, t, c, p),
        0 <= i <= node_at(pg[p]).entries.len(),
        node_lo(sh.kinds[p]) <= done,
        upto <= node_hi(sh.kinds[p]),
        forall|j: int| 0 <= j < i ==> rank_of(#[trigger] node_at(pg[p]).entries[j]) < done,
        forall|j: int| i <= j < node_at(pg[p]).entries.len() ==> rank_of(#[trigger] node_at(pg[p]).entries[j]) >= upto,
    ensures
        gap(pg, sh, t, c, done, upto),
{
    assert forall|e: (Seq<u8>, u32)| !#[trigger] listed_in(pg, sh, t, c, e, done, upto) by {
        if listed_in(pg, sh, t, c, e, done, upto) {
            lemma_here(pg, sh, t, c, p, e, tight());
            let j = choose|j: int| #[trigger] holds(pg, sh, t as nat, c as nat, p, j, e);
            assert(rank_of(node_at(pg[p]).entries[j]) == rank(e.0, e.1));
        }
    }
}

/// No entry of the index ranks above what the last leaf holds.
#[verifier::spinoff_prover]
pub proof fn lemma_gap_end(pg: Seq<Seq<u8>>, sh: Shape, t: int, c: int, p: int, done: int, upto: int)
    requires
        image_inv(pg, sh, tight()),
        leaf_in(pg, sh, t, c, p),
        node_hi(sh.kinds[p]) == top(width_of(pg, t, c)),
        node_lo(sh.kinds[p]) <= done,
        forall|j: int| 0 <= j < node_at(pg[p]).entries.len() ==> rank_of(#[trigger] node_at(pg[p]).entries[j]) < done,
    ensures
        gap(pg, sh, t, c, done, upto),
{
    assert forall|e: (Seq<u8>, u32)| !#[trigger] listed_in(pg, sh, t, c, e, done, upto) by {
        if listed_in(pg, sh, t, c, e, done, upto) {
            let (q, i) = choose|q: int, i: int| #[trigger] holds(pg, sh, t as nat, c as nat, q, i, e);
            lemma_there(pg, sh, t, c, p, q, i, tight());
            assert(rank_of(node_at(pg[q]).entries[i]) == rank(e.0, e.1));
            lemma_descend(pg, sh, t, c, q, tight());
        }
    }
}

/// Where the ring leads from the leaf `p`: to the leaf that holds the next
/// range, whose entries rank above everything in `p`, or from the last leaf
/// back to the first, whose entries rank below the range of `p`.
#[verifier::spinoff_prover]
pub proof fn lemma_ring_step(pg: Seq<Seq<u8>>, sh: Shape, t: int, c: int, p: int)
    requires
        image_inv(pg, sh, tight()),
        leaf_in(pg, sh, t, c, p),
    ensures
        leaf_in(pg, sh, t, c, node_at(pg[p]).next as int),
        pg[node_at(pg[p]).next as int].len() == PAGE_SIZE,
        0 <= node_lo(sh.kinds[p]) < node_hi(sh.kinds[p]) <= top(width_of(pg, t, c)),
        node_hi(sh.kinds[p]) < top(width_of(pg, t, c)) ==> {
            let n = node_at(pg[p]).next as int;
            &&& node_at(pg[n]).entries.len() >= 1
            &&& node_lo(sh.kinds[n]) == node_hi(sh.kinds[p])
            &&& forall|j: int| 0 <= j < node_at(pg[n]).entries.len() ==> rank_of(#[trigger] node_at(pg[n]).entries[j]) >= node_hi(sh.kinds[p])
        },
        node_hi(sh.kinds[p]) == top(width_of(pg, t, c)) && node_at(pg[p]).next != p ==> {
            let n = node_at(pg[p]).next as int;
            forall|j: int| 0 <= j < node_at(pg[n]).entries.len() ==> rank_of(#[trigger] node_at(pg[n]).entries[j]) < node_lo(sh.kinds[p])
        },
{
    lemma_next_leaf(pg, sh, t, c, p);
    let n = node_at(pg[p]).next as int;
    lemma_descend(pg, sh, t, c, n, tight());
    lemma_descend(pg, sh, t, c, p, tight());
    if n != p {
        reveal(structure_inv);
        assert(apart(sh, n, p));
    }
}

/// Where a scan stands: at position `i` of the leaf `p`, having listed every
/// entry that ranks below `done`; `floor` is the rank of the lower end of the
/// scan or, once an entry was listed (`strict`), of the last one listed.
pub struct Cursor {
    pub p: int,
    pub i: int,
    pub done: int,
    pub floor: int,
    pub strict: bool,
}

pub open spec fn bump(strict: bool) -> int {
    if strict {
        1
    } else {
        0
    }
}

/// The scan of the ranks `[a, b]` that has listed `out` stands at `cur`.
#[verifier::opaque]
pub open spec fn cursor_ok(pg: Seq<Seq<u8>>, sh: Shape, t: int, c: int, cur: Cursor, a: int, b: int, out: Seq<EntryV>) -> bool {
    let es = node_at(pg[cur.p]).entries;
    &&& image_inv(pg, sh, tight())
    &&& leaf_in(pg, sh, t, c, cur.p)
    &&& 0 <= cur.i <= es.len()
    &&& a <= cur.done <= b + 1
    &&& node_lo(sh.kinds[cur.p]) <= cur.done <= node_hi(sh.kinds[cur.p])
    &&& forall|j: int| 0 <= j < cur.i ==> rank_of(#[trigger] es[j]) < cur.done
    &&& forall|j: int| cur.i <= j < es.len() ==> rank_of(#[trigger] es[j]) >= cur.done
    &&& lists_range(pg, sh, t, c, out, a, cur.done)
    &&& cur.floor + bump(cur.strict) <= cur.done
    &&& cur.i == es.len() ==> node_lo(sh.kinds[cur.p]) <= cur.floor && forall|j: int| 0 <= j < es.len() ==> rank_of(#[trigger] es[j]) + 1 - bump(cur.strict) <= cur.floor
}

/// What a scan that stands at `cur` can rely on.
#[verifier::spinoff_prover]
pub proof fn lemma_cursor_facts(pg: Seq<Seq<u8>>, sh: Shape, t: int, c: int, cur: Cursor, a: int, b: int, out: Seq<EntryV>)
    requires
        cursor_ok(pg, sh, t, c, cur, a, b, out),
    ensures
        leaf_in(pg, sh, t, c, cur.p),
        pg[cur.p].len() == PAGE_SIZE,
        0 <= cur.i <= node_at(pg[cur.p]).entries.len(),
        keyed(node_at(pg[cur.p]).entries, width_of(pg, t, c) as int),
        leaf_in(pg, sh, t, c, node_at(pg[cur.p]).next as int),
        pg[node_at(pg[cur.p]).next as int].len() == PAGE_SIZE,
        keyed(node_at(pg[node_at(pg[cur.p]).next as int]).entries, width_of(pg, t, c) as int),
{
    reveal(cursor_ok);
    lemma_descend(pg, sh, t, c, cur.p, tight());
    lemma_ring_step(pg, sh, t, c, cur.p);
    lemma_descend(pg, sh, t, c, node_at(pg[cur.p]).next as int, tight());
}

/// A scan starts at the first entry of the leaf that does not rank below its
/// lower end.
#[verifier::spinoff_prover]
pub proof fn lemma_cursor_start(pg: Seq<Seq<u8>>, sh: Shape, t: int, c: int, p: int, i: int, a: int, b: int)
    requires
        image_inv(pg, sh, tight()),
        leaf_in(pg, sh, t, c, p),
        node_lo(sh.kinds[p]) <= a < node_hi(sh.kinds[p]),
        a <= b,
        0 <= i <= node_at(pg[p]).entries.len(),
        forall|j: int| 0 <= j < i ==> rank_of(#[trigger] node_at(pg[p]).entries[j]) < a,
        forall|j: int| i <= j < node_at(pg[p]).entries.len() ==> rank_of(#[trigger] node_at(pg[p]).entries[j]) >= a,
    ensures
        cursor_ok(pg, sh, t, c, Cursor { p, i, done: a, floor: a, strict: false }, a, b, Seq::empty()),
{
    reveal(cursor_ok);
}

/// The scan stops at an entry that ranks above its upper end.
#[verifier::spinoff_prover]
pub proof fn lemma_cursor_stop(pg: Seq<Seq<u8>>, sh: Shape, t: int, c: int, cur: Cursor, a: int, b: int, out: Seq<EntryV>)
    requires
        cursor_ok(pg, sh, t, c, cur, a, b, out),
        cur.i < node_at(pg[cur.p]).entries.len(),
        rank_of(node_at(pg[cur.p]).entries[cur.i]) > b,
    ensures
        lists_range(pg, sh, t, c, out, a, b + 1),
{
    reveal(cursor_ok);
    let es = node_at(pg[cur.p]).entries;
    lemma_descend(pg, sh, t, c, cur.p, tight());
    lemma_there(pg, sh, t, c, cur.p, cur.p, cur.i, tight());
    assert forall|j: int| cur.i <= j < es.len() implies rank_of(#[trigger] es[j]) >= b + 1 by {
        if j > cur.i {
            assert(rank_of(es[cur.i]) < rank_of(es[j]));
        }
    }
    lemma_gap_inside(pg, sh, t, c, cur.p, cur.i, cur.done, b + 1);
    lemma_list_gap(pg, sh, t, c, out, a, cur.done, b + 1);
}

/// The scan lists the entry it stands at and moves on.
#[verifier::spinoff_prover]
pub proof fn lemma_cursor_emit(pg: Seq<Seq<u8>>, sh: Shape, t: int, c: int, cur: Cursor, a: int, b: int, out: Seq<EntryV>)
    requires
        cursor_ok(pg, sh, t, c, cur, a, b, out),
        cur.i < node_at(pg[cur.p]).entries.len(),
        rank_of(node_at(pg[cur.p]).entries[cur.i]) <= b,
    ensures
        cursor_ok(
            pg,
            sh,
            t,
            c,
            Cursor {
                p: cur.p,
                i: cur.i + 1,
                done: rank_of(node_at(pg[cur.p]).entries[cur.i]) + 1,
                floor: rank_of(node_at(pg[cur.p]).entries[cur.i]),
                strict: true,
            },
            a,
            b,
            out.push(EntryV { key: node_at(pg[cur.p]).entries[cur.i].key, rid: node_at(pg[cur.p]).entries[cur.i].rid, child: NONE }),
        ),
{
    reveal(cursor_ok);
    let es = node_at(pg[cur.p]).entries;
    let e = es[cur.i];
    let r = rank_of(e);
    let ks = width_of(pg, t, c);
    lemma_descend(pg, sh, t, c, cur.p, tight());
    lemma_there(pg, sh, t, c, cur.p, cur.p, cur.i, tight());
    assert forall|j: int| cur.i <= j < es.len() implies rank_of(#[trigger] es[j]) >= r by {
        if j > cur.i {
            assert(rank_of(es[cur.i]) < rank_of(es[j]));
        }
    }
    lemma_gap_inside(pg, sh, t, c, cur.p, cur.i, cur.done, r);
    lemma_list_gap(pg, sh, t, c, out, a, cur.done, r);
    assert(holds(pg, sh, t as nat, c as nat, cur.p, cur.i, (e.key, e.rid)));
    assert forall|x: (Seq<u8>, u32)| entries_of(pg, sh, t as nat, c as nat).contains(x) && rank(x.0, x.1) == r implies x == (e.key, e.rid) by {
        let (q, k) = choose|q: int, k: int| #[trigger] holds(pg, sh, t as nat, c as nat, q, k, x);
        lemma_descend(pg, sh, t, c, q, tight());
        assert(node_at(pg[q]).entries[k].key.len() == ks);
        lemma_rank_injective(x.0, x.1, e.key, e.rid);
    }
    lemma_list_push(pg, sh, t, c, out, EntryV { key: e.key, rid: e.rid, child: NONE }, a, r);
    assert forall|j: int| 0 <= j < cur.i + 1 implies rank_of(#[trigger] es[j]) < r + 1 by {
        if j < cur.i {
            assert(rank_of(es[j]) < rank_of(es[cur.i]));
        }
    }
    assert forall|j: int| cur.i + 1 <= j < es.len() implies rank_of(#[trigger] es[j]) >= r + 1 by {
        assert(rank_of(es[cur.i]) < rank_of(es[j]));
    }
    if cur.i + 1 == es.len() {
        assert forall|j: int| 0 <= j < es.len() implies rank_of(#[trigger] es[j]) <= r by {
            if j < cur.i {
                assert(rank_of(es[j]) < rank_of(es[cur.i]));
            }
        }
    }
}

/// The first entry of the next leaf tells whether the ring leads on or back.
pub open spec fn leads_on(pg: Seq<Seq<u8>>, cur: Cursor) -> bool {
    let es = node_at(pg[node_at(pg[cur.p]).next as int]).entries;
    es.len() > 0 && rank_of(es[0]) >= cur.floor + bump(cur.strict)
}

/// At the end of a leaf the scan is over if the ring leads back or the next
/// leaf starts above the upper end; else it goes on in the next leaf.
#[verifier::spinoff_prover]
pub proof fn lemma_cursor_ring(pg: Seq<Seq<u8>>, sh: Shape, t: int, c: int, cur: Cursor, a: int, b: int, out: Seq<EntryV>)
    requires
        cursor_ok(pg, sh, t, c, cur, a, b, out),
        cur.i == node_at(pg[cur.p]).entries.len(),
    ensures
        !leads_on(pg, cur) ==> lists_range(pg, sh, t, c, out, a, b + 1),
        leads_on(pg, cur) && rank_of(node_at(pg[node_at(pg[cur.p]).next as int]).entries[0]) > b ==> lists_range(pg, sh, t, c, out, a, b + 1),
        leads_on(pg, cur) && rank_of(node_at(pg[node_at(pg[cur.p]).next as int]).entries[0]) <= b ==> cursor_ok(
            pg,
            sh,
            t,
            c,
            Cursor { p: node_at(pg[cur.p]).next as int, i: 0, done: node_hi(sh.kinds[cur.p]), floor: cur.floor, strict: cur.strict },
            a,
            b,
            out,
        ) && node_lo(sh.kinds[cur.p]) < node_hi(sh.kinds[cur.p]) == node_lo(sh.kinds[node_at(pg[cur.p]).next as int]) <= top(width_of(pg, t, c)),
{
    reveal(cursor_ok);
    let n = node_at(pg[cur.p]).next as int;
    let es = node_at(pg[cur.p]).entries;
    let up = node_hi(sh.kinds[cur.p]);
    let last = up == top(width_of(pg, t, c));
    lemma_ring_step(pg, sh, t, c, cur.p);
    lemma_descend(pg, sh, t, c, n, tight());
    if last {
        if n == cur.p && es.len() > 0 {
            assert(rank_of(es[0]) + 1 - bump(cur.strict) <= cur.floor);
        }
        assert(!leads_on(pg, cur));
        lemma_gap_end(pg, sh, t, c, cur.p, cur.done, b + 1);
        lemma_list_gap(pg, sh, t, c, out, a, cur.done, b + 1);
    } else {
        let first = node_at(pg[n]).entries[0];
        assert(rank_of(first) >= up);
        assert(leads_on(pg, cur));
        if rank_of(first) > b {
            if up >= b + 1 {
                lemma_gap_inside(pg, sh, t, c, cur.p, cur.i, cur.done, b + 1);
                lemma_list_gap(pg, sh, t, c, out, a, cur.done, b + 1);
            } else {
                lemma_gap_inside(pg, sh, t, c, cur.p, cur.i, cur.done, up);
                lemma_list_gap(pg, sh, t, c, out, a, cur.done, up);
                lemma_there(pg, sh, t, c, n, n, 0, tight());
                assert forall|j: int| 0 <= j < node_at(pg[n]).entries.len() implies rank_of(#[trigger] node_at(pg[n]).entries[j]) >= b + 1 by {
                    if j > 0 {
                        assert(rank_of(node_at(pg[n]).entries[0]) < rank_of(node_at(pg[n]).entries[j]));
                    }
                }
                lemma_gap_inside(pg, sh, t, c, n, 0, up, b + 1);
                lemma_list_gap(pg, sh, t, c, out, a, up, b + 1);
            }
        } else {
            lemma_gap_inside(pg, sh, t, c, cur.p, cur.i, cur.done, up);
            lemma_list_gap(pg, sh, t, c, out, a, cur.done, up);
        }
    }
}

/// A copy of an entry of a leaf.
#[verifier::spinoff_prover]
pub fn copy_entry(e: &Entry) -> (r: Entry)
    ensures
        r@ == (EntryV { key: e@.key, rid: e@.rid, child: NONE }),
{
    Entry { key: to_vec(e.key.as_slice()), rid: e.rid, child: NONE }
}

impl Db {
    /// The entries of the index on column `c` of table `t` that rank from
    /// `(lo_key, lo_rid)` to `(hi_key, hi_rid)`, both included, in rising order.
    ///
    /// The walk starts at the leaf whose range holds the lower end and follows the
    /// ring of leaves until an entry ranks above the upper end or the ring closes.
    #[verifier::spinoff_prover]
    pub fn scan(&self, t: usize, c: usize, lo_key: &[u8], lo_rid: u32, hi_key: &[u8], hi_rid: u32) -> (out: Vec<Entry>)
        requires
            self.wf(),
            self.indexed(t as nat, c as nat, lo_key@),
            hi_key@.len() == lo_key@.len(),
        ensures
            lists_range(self.image(), self.shape(), t as int, c as int, evs(out@), rank(lo_key@, lo_rid), rank(hi_key@, hi_rid) + 1),
    {
        let ghost pg = self.image();
        let ghost sh = self.shape();
        let ghost a = rank(lo_key@, lo_rid);
        let ghost b = rank(hi_key@, hi_rid);
        let ghost ks = width_of(pg, t as int, c as int);
        let mut out: Vec<Entry> = Vec::new();
        if entry_rel(lo_key, lo_rid, hi_key, hi_rid) == Rel::Greater {
            assert(lists_range(pg, sh, t as int, c as int, evs(out@), a, b + 1));
            return out;
        }
        let mut p: usize = self.find_leaf(t, c, lo_key, lo_rid);
        proof {
            lemma_descend(pg, sh, t as int, c as int, p as int, tight());
        }
        let mut node = load_node(self.get_page(p));
        assert(node@.entries == evs(node.entries@));
        let mut i: usize = lower_bound(&node.entries, lo_key, lo_rid);
        let mut floor_key: Vec<u8> = to_vec(lo_key);
        let mut floor_rid: u32 = lo_rid;
        let mut strict: bool = false;
        let ghost mut cur = Cursor { p: p as int, i: i as int, done: a, floor: a, strict: false };
        proof {
            lemma_cursor_start(pg, sh, t as int, c as int, p as int, i as int, a, b);
            assert(evs(out@) =~= Seq::empty());
        }
        loop
            invariant
                pg == self.image(),
                a == rank(lo_key@, lo_rid),
                b == rank(hi_key@, hi_rid),
                ks == width_of(pg, t as int, c as int),
                hi_key@.len() == ks,
                floor_key@.len() == ks,
                cursor_ok(pg, sh, t as int, c as int, cur, a, b, evs(out@)),
                cur.p == p,
                cur.i == i,
                cur.floor == rank(floor_key@, floor_rid),
                cur.strict == strict,
                0 < p < pg.len(),
                node@ == node_at(pg[p as int]),
            ensures
                lists_range(pg, sh, t as int, c as int, evs(out@), a, b + 1),
            decreases top(ks) - node_lo(sh.kinds[p as int]), node.entries@.len() - i,
        {
            proof {
                lemma_cursor_facts(pg, sh, t as int, c as int, cur, a, b, evs(out@));
            }
            assert(node@.entries == evs(node.entries@));
            if i < node.entries.len() {
                let e = &node.entries[i];
                assert(node@.entries[i as int] == e@);
                if entry_rel(e.key.as_slice(), e.rid, hi_key, hi_rid) == Rel::Greater {
                    proof {
                        lemma_cursor_stop(pg, sh, t as int, c as int, cur, a, b, evs(out@));
                    }
                    break;
                }
                let ghost before = evs(out@);
                proof {
                    lemma_cursor_emit(pg, sh, t as int, c as int, cur, a, b, before);
                }
                let copy = copy_entry(e);
                floor_key = to_vec(e.key.as_slice());
                floor_rid = e.rid;
                strict = true;
                out.push(copy);
                proof {
                    assert(evs(out@) =~= before.push(EntryV { key: e@.key, rid: e@.rid, child: NONE }));
                    cur = Cursor { p: p as int, i: i + 1, done: rank_of(e@) + 1, floor: rank_of(e@), strict: true };
                }
                i += 1;
            } else {
                let nx: usize = node.next as usize;
                let next_node = load_node(self.get_page(nx));
                assert(next_node@.entries == evs(next_node.entries@));
                proof {
                    lemma_cursor_ring(pg, sh, t as int, c as int, cur, a, b, evs(out@));
                }
                if next_node.entries.len() == 0 {
                    break;
                }
                let first = &next_node.entries[0];
                assert(next_node@.entries[0] == first@);
                let rel = entry_rel(first.key.as_slice(), first.rid, floor_key.as_slice(), floor_rid);
                let go: bool = if strict { rel == Rel::Greater } else { rel != Rel::Less };
                assert(go == leads_on(pg, cur));
                if !go {
                    break;
                }
                if entry_rel(first.key.as_slice(), first.rid, hi_key, hi_rid) == Rel::Greater {
                    break;
                }
                proof {
                    cur = Cursor { p: nx as int, i: 0, done: node_hi(sh.kinds[p as int]), floor: cur.floor, strict: cur.strict };
                }
                p = nx;
                node = next_node;
                i = 0;
            }
        }
        out
    }
}

} // verus!
