//! Giving pages back: the pages of an index, in the order a depth-first walk
//! leaves them.

use vstd::prelude::*;
use crate::shape::tight;
use vstd::string::StringSliceAdditionalSpecFns;
use crate::catalog::{col_slot, index_step, lemma_col_slot, lemma_col_slot_none, lemma_index_step, table_slot};
use crate::db::{Db, free_after_deallocate, shape_after_deallocate};
use crate::error::{Error, ErrorV, Result};
use crate::frames::{in_tree, index_touch, lemma_index_touch, sized, table_alike, tree_ok};
use crate::heap::lemma_table_facts;
use crate::layout::{MAX_COL, MAX_PAGE, NONE, PAGE_SIZE};
use crate::meta::tables;
use crate::node::{load_node, node_at};
use crate::shape::{Kind, Relax, Shape, child_ok, entries_of, free_ok_at, holds, image_inv, is_structural, node_ok, page_ok, pager_inv, rank_of, root_ok_at, structure_inv, table_of, unique_ok_at};
use crate::table::{ColFlags, ColInfoV, TablePageV, col_num, find_col, lemma_col_frame, read_col, write_col};

verus! {

/// The pages of the subtrees below the first `n` children of the node `p`, which
/// sits `h` levels above the leaves, each subtree's pages before its root.
pub open spec fn walk(pg: Seq<Seq<u8>>, p: int, h: nat, n: int) -> Seq<u32>
    decreases h, n,
{
    if h == 0 || n <= 0 {
        Seq::empty()
    } else {
        let child = node_at(pg[p]).entries[n - 1].child;
        walk(pg, p, h, n - 1) + walk(pg, child as int, (h - 1) as nat, node_at(pg[child as int]).entries.len() as int).push(child)
    }
}

/// The pages of the tree below and including the node `p`, in the order in
/// which a depth-first walk leaves them.
pub open spec fn post_order(pg: Seq<Seq<u8>>, p: int, h: nat) -> Seq<u32> {
    walk(pg, p, h, node_at(pg[p]).entries.len() as int).push(p as u32)
}

pub open spec fn node_height(k: Kind) -> nat {
    match k {
        Kind::Node { height, .. } => height,
        _ => 0,
    }
}

pub open spec fn node_lo(k: Kind) -> int {
    match k {
        Kind::Node { lo, .. } => lo,
        _ => 0,
    }
}

pub open spec fn node_hi(k: Kind) -> int {
    match k {
        Kind::Node { hi, .. } => hi,
        _ => 0,
    }
}

/// The upper end of the range of child `n - 1` of the node `p`.
pub open spec fn child_end(pg: Seq<Seq<u8>>, sh: Shape, p: int, n: int) -> int {
    let es = node_at(pg[p]).entries;
    if 0 < n < es.len() {
        rank_of(es[n])
    } else if n <= 0 {
        node_lo(sh.kinds[p])
    } else {
        node_hi(sh.kinds[p])
    }
}

/// The page `q` is a node of the index on column `c` of table `t` that sits
/// below height `h` and holds a range inside `[lo, hi)`.
pub open spec fn inside(sh: Shape, t: int, c: int, q: u32, h: nat, lo: int, hi: int) -> bool {
    &&& 0 < q < sh.kinds.len()
    &&& in_tree(sh.kinds[q as int], t, c)
    &&& node_height(sh.kinds[q as int]) < h
    &&& lo <= node_lo(sh.kinds[q as int]) < node_hi(sh.kinds[q as int]) <= hi
}

/// What a depth-first walk lists: nodes of the index, each once.
pub open spec fn walked(sh: Shape, t: int, c: int, w: Seq<u32>, h: nat, lo: int, hi: int) -> bool {
    &&& w.no_duplicates()
    &&& forall|k: int| 0 <= k < w.len() ==> inside(sh, t, c, #[trigger] w[k], h, lo, hi)
}

/// Every node of the index on column `c` of table `t` obeys the rules.
pub open spec fn nodes_ok(pg: Seq<Seq<u8>>, sh: Shape, t: int, c: int) -> bool {
    &&& sized(pg, sh)
    &&& forall|p: int| 0 <= p < pg.len() && in_tree(#[trigger] sh.kinds[p], t, c) ==> node_ok(pg, sh, p, tight())
}

#[verifier::spinoff_prover]
pub proof fn lemma_nodes_ok(pg: Seq<Seq<u8>>, sh: Shape, t: int, c: int)
    requires
        image_inv(pg, sh, tight()),
    ensures
        nodes_ok(pg, sh, t, c),
{
    reveal(structure_inv);
    assert forall|p: int| 0 <= p < pg.len() && in_tree(#[trigger] sh.kinds[p], t, c) implies node_ok(pg, sh, p, tight()) by {
        assert(page_ok(pg, sh, p, tight()));
    }
}

/// What the rules give for child `i` of the internal node `p`.
#[verifier::spinoff_prover]
pub proof fn lemma_child_facts(pg: Seq<Seq<u8>>, sh: Shape, t: int, c: int, p: int, i: int)
    requires
        nodes_ok(pg, sh, t, c),
        0 <= p < pg.len(),
        in_tree(sh.kinds[p], t, c),
        0 <= i < node_at(pg[p]).entries.len(),
        node_height(sh.kinds[p]) > 0,
    ensures
        inside(sh, t, c, node_at(pg[p]).entries[i].child, node_height(sh.kinds[p]), child_end(pg, sh, p, i), child_end(pg, sh, p, i + 1)),
        node_height(sh.kinds[node_at(pg[p]).entries[i].child as int]) == node_height(sh.kinds[p]) - 1,
        node_lo(sh.kinds[node_at(pg[p]).entries[i].child as int]) == child_end(pg, sh, p, i),
        node_hi(sh.kinds[node_at(pg[p]).entries[i].child as int]) == child_end(pg, sh, p, i + 1),
        node_lo(sh.kinds[p]) <= child_end(pg, sh, p, i),
        child_end(pg, sh, p, i + 1) <= node_hi(sh.kinds[p]),
        !node_at(pg[p]).leaf,
{
    assert(node_ok(pg, sh, p, tight()));
    assert(child_ok(pg, sh, p, i));
    let child = node_at(pg[p]).entries[i].child as int;
    assert(node_ok(pg, sh, child, tight()));
}

/// The walk below one more child extends a walk by the nodes below that child
/// and the child itself, and lists each node once.
#[verifier::spinoff_prover]
proof fn lemma_walk_more(sh: Shape, t: int, c: int, a: Seq<u32>, b: Seq<u32>, child: u32, h: nat, lo: int, mid: int, end: int)
    requires
        h >= 1,
        walked(sh, t, c, a, h, lo, mid),
        walked(sh, t, c, b, (h - 1) as nat, mid, end),
        inside(sh, t, c, child, h, mid, end),
        node_height(sh.kinds[child as int]) == h - 1,
        lo <= mid,
    ensures
        walked(sh, t, c, a + b.push(child), h, lo, end),
{
    let w = a + b.push(child);
    assert forall|k: int| 0 <= k < w.len() implies inside(sh, t, c, #[trigger] w[k], h, lo, end) by {
        if k < a.len() {
            assert(inside(sh, t, c, a[k], h, lo, mid));
        } else if k < a.len() + b.len() {
            assert(w[k] == b[k - a.len()]);
            assert(inside(sh, t, c, b[k - a.len()], (h - 1) as nat, mid, end));
        } else {
            assert(w[k] == child);
        }
    }
    assert forall|j: int, k: int| 0 <= j < k < w.len() implies w[j] != w[k] by {
        if k < a.len() {
            assert(a[j] != a[k]);
        } else if j < a.len() {
            assert(inside(sh, t, c, a[j], h, lo, mid));
            if k < a.len() + b.len() {
                assert(w[k] == b[k - a.len()]);
                assert(inside(sh, t, c, b[k - a.len()], (h - 1) as nat, mid, end));
            } else {
                assert(w[k] == child);
            }
        } else if k < a.len() + b.len() {
            assert(b[j - a.len()] != b[k - a.len()]);
        } else {
            assert(w[k] == child);
            assert(w[j] == b[j - a.len()]);
            assert(inside(sh, t, c, b[j - a.len()], (h - 1) as nat, mid, end));
        }
    }
}

/// A depth-first walk below the first `n` children of `p` lists nodes of the
/// index whose ranges lie below the end of child `n - 1`, each once.
#[verifier::spinoff_prover]
pub proof fn lemma_walk(pg: Seq<Seq<u8>>, sh: Shape, t: int, c: int, p: int, h: nat, n: int)
    requires
        nodes_ok(pg, sh, t, c),
        0 <= p < pg.len(),
        in_tree(sh.kinds[p], t, c),
        node_height(sh.kinds[p]) == h,
        0 <= n <= node_at(pg[p]).entries.len(),
    ensures
        walked(sh, t, c, walk(pg, p, h, n), h, node_lo(sh.kinds[p]), child_end(pg, sh, p, n)),
    decreases h, n,
{
    if h == 0 || n <= 0 {
    } else {
        let child = node_at(pg[p]).entries[n - 1].child;
        let cn = node_at(pg[child as int]).entries.len() as int;
        let a = walk(pg, p, h, n - 1);
        let b = walk(pg, child as int, (h - 1) as nat, cn);
        assert(walk(pg, p, h, n) == a + b.push(child));
        lemma_child_facts(pg, sh, t, c, p, n - 1);
        lemma_walk(pg, sh, t, c, p, h, n - 1);
        lemma_walk(pg, sh, t, c, child as int, (h - 1) as nat, cn);
        assert(node_ok(pg, sh, child as int, tight()));
        assert(child_end(pg, sh, child as int, cn) == child_end(pg, sh, p, n));
        lemma_walk_more(sh, t, c, a, b, child, h, node_lo(sh.kinds[p]), child_end(pg, sh, p, n - 1), child_end(pg, sh, p, n));
    }
}

/// A depth-first walk reads the nodes of its tree and no other page.
#[verifier::spinoff_prover]
pub proof fn lemma_walk_same(pg: Seq<Seq<u8>>, sh: Shape, pg2: Seq<Seq<u8>>, t: int, c: int, p: int, h: nat, n: int)
    requires
        nodes_ok(pg, sh, t, c),
        forall|q: int| 0 <= q < pg.len() && in_tree(#[trigger] sh.kinds[q], t, c) ==> pg2[q] == pg[q],
        0 <= p < pg.len(),
        in_tree(sh.kinds[p], t, c),
        node_height(sh.kinds[p]) == h,
        0 <= n <= node_at(pg[p]).entries.len(),
    ensures
        walk(pg2, p, h, n) == walk(pg, p, h, n),
    decreases h, n,
{
    if h == 0 || n <= 0 {
    } else {
        let child = node_at(pg[p]).entries[n - 1].child;
        lemma_child_facts(pg, sh, t, c, p, n - 1);
        assert(inside(sh, t, c, child, h, child_end(pg, sh, p, n - 1), child_end(pg, sh, p, n)));
        assert(node_ok(pg, sh, p, tight()));
        assert(child_ok(pg, sh, p, n - 1));
        assert(pg2[p] == pg[p]);
        assert(pg2[child as int] == pg[child as int]);
        lemma_walk_same(pg, sh, pg2, t, c, p, h, n - 1);
        lemma_walk_same(pg, sh, pg2, t, c, child as int, (h - 1) as nat, node_at(pg[child as int]).entries.len() as int);
    }
}

/// A depth-first walk from `p` lists nodes of the index, each once.
#[verifier::spinoff_prover]
pub proof fn lemma_post_order(pg: Seq<Seq<u8>>, sh: Shape, t: int, c: int, p: int)
    requires
        nodes_ok(pg, sh, t, c),
        0 < p < pg.len(),
        p < MAX_PAGE,
        in_tree(sh.kinds[p], t, c),
    ensures
        post_order(pg, p, node_height(sh.kinds[p])).no_duplicates(),
        forall|k: int| 0 <= k < post_order(pg, p, node_height(sh.kinds[p])).len() ==> 0 < #[trigger] post_order(pg, p, node_height(sh.kinds[p]))[k] < pg.len() && in_tree(
            sh.kinds[post_order(pg, p, node_height(sh.kinds[p]))[k] as int],
            t,
            c,
        ),
{
    let h = node_height(sh.kinds[p]);
    let n = node_at(pg[p]).entries.len() as int;
    let w = walk(pg, p, h, n);
    lemma_walk(pg, sh, t, c, p, h, n);
    let s = post_order(pg, p, h);
    assert forall|k: int| 0 <= k < s.len() implies 0 < #[trigger] s[k] < pg.len() && in_tree(sh.kinds[s[k] as int], t, c) by {
        if k < w.len() {
            assert(inside(sh, t, c, w[k], h, node_lo(sh.kinds[p]), child_end(pg, sh, p, n)));
        }
    }
    assert forall|j: int, k: int| 0 <= j < k < s.len() implies s[j] != s[k] by {
        if k < w.len() {
            assert(w[j] != w[k]);
        } else {
            assert(inside(sh, t, c, w[j], h, node_lo(sh.kinds[p]), child_end(pg, sh, p, n)));
        }
    }
}

/// A walk below one more child goes on with the walk from that child.
#[verifier::spinoff_prover]
proof fn lemma_walk_step(pg: Seq<Seq<u8>>, p: int, h: nat, i: int, before: Seq<u32>, start: Seq<u32>, after: Seq<u32>)
    requires
        h > 0,
        i >= 0,
        before == start + walk(pg, p, h, i),
        after == before + post_order(pg, node_at(pg[p]).entries[i].child as int, (h - 1) as nat),
    ensures
        after == start + walk(pg, p, h, i + 1),
{
    let child = node_at(pg[p]).entries[i].child;
    let cn = node_at(pg[child as int]).entries.len() as int;
    assert(walk(pg, p, h, i + 1) == walk(pg, p, h, i) + walk(pg, child as int, (h - 1) as nat, cn).push(child));
    assert(after =~= start + walk(pg, p, h, i + 1));
}

/// What a walk needs of the node it stands at.
#[verifier::spinoff_prover]
proof fn lemma_collect_node(pg: Seq<Seq<u8>>, sh: Shape, t: int, c: int, p: int)
    requires
        image_inv(pg, sh, tight()),
        0 < p < pg.len(),
        in_tree(sh.kinds[p], t, c),
    ensures
        pg[p].len() == PAGE_SIZE,
        node_at(pg[p]).leaf == (node_height(sh.kinds[p]) == 0),
{
    lemma_nodes_ok(pg, sh, t, c);
    assert(node_ok(pg, sh, p, tight()));
}

/// What a walk needs of the child it goes to.
#[verifier::spinoff_prover]
proof fn lemma_collect_child(pg: Seq<Seq<u8>>, sh: Shape, t: int, c: int, p: int, i: int)
    requires
        image_inv(pg, sh, tight()),
        0 < p < pg.len(),
        in_tree(sh.kinds[p], t, c),
        node_height(sh.kinds[p]) > 0,
        0 <= i < node_at(pg[p]).entries.len(),
    ensures
        0 < node_at(pg[p]).entries[i].child < pg.len(),
        in_tree(sh.kinds[node_at(pg[p]).entries[i].child as int], t, c),
        node_height(sh.kinds[node_at(pg[p]).entries[i].child as int]) == node_height(sh.kinds[p]) - 1,
{
    lemma_nodes_ok(pg, sh, t, c);
    lemma_child_facts(pg, sh, t, c, p, i);
    assert(sh.kinds.len() == pg.len());
}

/// A walk that has gone below every child of a node ends with the node.
#[verifier::spinoff_prover]
proof fn lemma_walk_done(pg: Seq<Seq<u8>>, p: int, h: nat, n: int, start: Seq<u32>, before: Seq<u32>, after: Seq<u32>)
    requires
        n == node_at(pg[p]).entries.len(),
        h == 0 ==> before == start,
        h > 0 ==> before == start + walk(pg, p, h, n),
        after == before.push(p as u32),
    ensures
        after == start + post_order(pg, p, h),
{
    if h == 0 {
        assert(walk(pg, p, h, n) =~= Seq::<u32>::empty());
    }
    assert(after =~= start + post_order(pg, p, h));
}

impl Db {
    /// Appends to `out` the pages of the tree below and including the node `p`, in
    /// the order in which a depth-first walk leaves them.
    #[verifier::spinoff_prover]
    pub(crate) fn collect(&self, p: usize, out: &mut Vec<u32>, Ghost(t): Ghost<int>, Ghost(c): Ghost<int>, Ghost(h): Ghost<nat>)
        requires
            self.wf(),
            0 < p < self.page_count(),
            in_tree(self.shape().kinds[p as int], t, c),
            node_height(self.shape().kinds[p as int]) == h,
        ensures
            final(out)@ == old(out)@ + post_order(self.image(), p as int, h),
        decreases h,
    {
        let ghost pg = self.image();
        let ghost sh = self.shape();
        proof {
            lemma_collect_node(pg, sh, t, c, p as int);
        }
        let node = load_node(self.get_page(p));
        let n: usize = node.entries.len();
        if !node.leaf {
            let mut i: usize = 0;
            while i < n
                invariant
                    i <= n,
                    n == node_at(pg[p as int]).entries.len(),
                    node@ == node_at(pg[p as int]),
                    h > 0,
                    self.wf(),
                    pg == self.image(),
                    sh == self.shape(),
                    0 < p < pg.len(),
                    in_tree(sh.kinds[p as int], t, c),
                    node_height(sh.kinds[p as int]) == h,
                    out@ == old(out)@ + walk(pg, p as int, h, i as int),
                decreases n - i,
            {
                let child: usize = node.entries[i].child as usize;
                proof {
                    assert(node@.entries[i as int] == node.entries@[i as int]@);
                    lemma_collect_child(pg, sh, t, c, p as int, i as int);
                }
                let ghost before = out@;
                self.collect(child, out, Ghost(t), Ghost(c), Ghost((h - 1) as nat));
                proof {
                    lemma_walk_step(pg, p as int, h, i as int, before, old(out)@, out@);
                }
                i += 1;
            }
        }
        let ghost before = out@;
        out.push(p as u32);
        proof {
            lemma_walk_done(pg, p as int, h, n as int, old(out)@, before, out@);
        }
    }
}

/// Only pages of no structure and the head of the free list differ between the
/// two images.
#[verifier::opaque]
pub open spec fn quiet(pg: Seq<Seq<u8>>, sh: Shape, pg2: Seq<Seq<u8>>, sh2: Shape) -> bool {
    &&& sized(pg, sh)
    &&& sized(pg2, sh2)
    &&& pg.len() <= pg2.len()
    &&& tables(pg2[0]) == tables(pg[0])
    &&& sh2.heaps == sh.heaps
    &&& sh2.trees == sh.trees
    &&& forall|p: int| 0 <= p < pg.len() && is_structural(#[trigger] sh.kinds[p]) ==> pg2[p] == pg[p] && sh2.kinds[p] == sh.kinds[p]
    &&& forall|p: int| 0 <= p < pg2.len() && is_structural(#[trigger] sh2.kinds[p]) ==> p < pg.len() && sh.kinds[p] == sh2.kinds[p]
}

#[verifier::spinoff_prover]
pub proof fn lemma_quiet_self(pg: Seq<Seq<u8>>, sh: Shape)
    requires
        sized(pg, sh),
    ensures
        quiet(pg, sh, pg, sh),
{
    reveal(quiet);
}

#[verifier::spinoff_prover]
pub proof fn lemma_quiet_twice(pg: Seq<Seq<u8>>, sh: Shape, pg1: Seq<Seq<u8>>, sh1: Shape, pg2: Seq<Seq<u8>>, sh2: Shape)
    requires
        quiet(pg, sh, pg1, sh1),
        quiet(pg1, sh1, pg2, sh2),
    ensures
        quiet(pg, sh, pg2, sh2),
{
    reveal(quiet);
}

/// An operation on an index followed by changes to pages of no structure is an
/// operation on that index.
#[verifier::spinoff_prover]
pub proof fn lemma_touch_quiet(pg: Seq<Seq<u8>>, sh: Shape, pg1: Seq<Seq<u8>>, sh1: Shape, pg2: Seq<Seq<u8>>, sh2: Shape, t: int, c: int)
    requires
        index_touch(pg, sh, pg1, sh1, t, c),
        quiet(pg1, sh1, pg2, sh2),
    ensures
        index_touch(pg, sh, pg2, sh2, t, c),
{
    reveal(quiet);
    assert(is_structural(sh1.kinds[t]));
}

/// Giving a page of no structure back to the pager, or taking one from it,
/// changes pages of no structure only.
#[verifier::spinoff_prover]
pub proof fn lemma_pager_quiet(pg: Seq<Seq<u8>>, sh: Shape, pg2: Seq<Seq<u8>>, sh2: Shape)
    requires
        pager_inv(pg, sh),
        sized(pg2, sh2),
        pg.len() <= pg2.len(),
        tables(pg2[0]) == tables(pg[0]),
        sh2.heaps == sh.heaps,
        sh2.trees == sh.trees,
        forall|p: int| 0 <= p < pg.len() && is_structural(#[trigger] sh.kinds[p]) ==> pg2[p] == pg[p] && sh2.kinds[p] == sh.kinds[p],
        forall|p: int| 0 <= p < pg2.len() && is_structural(#[trigger] sh2.kinds[p]) ==> p < pg.len() && sh.kinds[p] == sh2.kinds[p],
    ensures
        quiet(pg, sh, pg2, sh2),
{
    reveal(quiet);
}

/// Page ids as numbers.
pub open spec fn as_nats(s: Seq<u32>) -> Seq<nat> {
    Seq::new(s.len(), |i: int| s[i] as nat)
}

/// The catalog entry of a column after its index was dropped.
pub open spec fn unindexed(ci: ColInfoV) -> ColInfoV {
    ColInfoV { index: NONE, flags: ColFlags { unique: false, ..ci.flags }, ..ci }
}

/// How the pages change when column `c` of table `t` loses its index root.
#[verifier::opaque]
pub open spec fn root_cleared(pg1: Seq<Seq<u8>>, pg2: Seq<Seq<u8>>, t: int, c: int) -> bool {
    let tv = table_of(pg1, t);
    &&& pg2.len() == pg1.len()
    &&& forall|p: int| 0 <= p < pg2.len() && p != t ==> #[trigger] pg2[p] == pg1[p]
    &&& pg2[t].len() == PAGE_SIZE
    &&& table_of(pg2, t) == (TablePageV { cols: tv.cols.update(c, unindexed(tv.cols[c])), ..tv })
}

/// The shape after the index on column `c` of table `t` was taken apart: its
/// nodes belong to no structure.
pub open spec fn detached_shape(sh: Shape, t: int, c: int) -> Shape {
    Shape {
        kinds: Seq::new(
            sh.kinds.len(),
            |p: int|
                if in_tree(sh.kinds[p], t, c) {
                    Kind::Loose
                } else {
                    sh.kinds[p]
                },
        ),
        trees: sh.trees.remove((t as nat, c as nat)),
        ..sh
    }
}

#[verifier::spinoff_prover]
proof fn lemma_detach_tree(pg: Seq<Seq<u8>>, sh: Shape, pg2: Seq<Seq<u8>>, sh2: Shape, t: int, c: int)
    requires
        image_inv(pg, sh, tight()),
        0 < t < pg.len(),
        sh.kinds[t] is Table,
        0 <= c < table_of(pg, t).cols.len(),
        root_cleared(pg, pg2, t, c),
        sh2 == detached_shape(sh, t, c),
    ensures
        pager_inv(pg2, sh2),
        index_touch(pg, sh, pg2, sh2, t, c),
        tree_ok(pg2, sh2, t, c, tight()),
        forall|p: int| 0 <= p < pg2.len() ==> !in_tree(#[trigger] sh2.kinds[p], t, c),
        entries_of(pg2, sh2, t as nat, c as nat) == Set::<(Seq<u8>, u32)>::empty(),
{
    reveal(root_cleared);
    assert forall|i: int| 0 <= i < sh2.free.len() implies #[trigger] free_ok_at(pg2, sh2, i) by {
        assert(free_ok_at(pg, sh, i));
    }
    assert(pager_inv(pg2, sh2));
    assert(index_touch(pg, sh, pg2, sh2, t, c));
    assert forall|e: (Seq<u8>, u32)| !(#[trigger] entries_of(pg2, sh2, t as nat, c as nat).contains(e)) by {
        if entries_of(pg2, sh2, t as nat, c as nat).contains(e) {
            let (p, i) = choose|p: int, i: int| #[trigger] holds(pg2, sh2, t as nat, c as nat, p, i, e);
            assert(in_tree(sh2.kinds[p], t, c));
        }
    }
    assert(entries_of(pg2, sh2, t as nat, c as nat) =~= Set::<(Seq<u8>, u32)>::empty());
}

#[verifier::spinoff_prover]
proof fn lemma_detach(pg: Seq<Seq<u8>>, sh: Shape, pg2: Seq<Seq<u8>>, sh2: Shape, t: int, c: int)
    requires
        image_inv(pg, sh, tight()),
        0 < t < pg.len(),
        sh.kinds[t] is Table,
        0 <= c < table_of(pg, t).cols.len(),
        root_cleared(pg, pg2, t, c),
        sh2 == detached_shape(sh, t, c),
    ensures
        image_inv(pg2, sh2, tight()),
        index_touch(pg, sh, pg2, sh2, t, c),
        forall|p: int| 0 <= p < pg.len() && in_tree(sh.kinds[p], t, c) ==> (#[trigger] sh2.kinds[p]) is Loose,
        entries_of(pg2, sh2, t as nat, c as nat) == Set::<(Seq<u8>, u32)>::empty(),
        table_of(pg2, t) == (TablePageV { cols: table_of(pg, t).cols.update(c, unindexed(table_of(pg, t).cols[c])), ..table_of(pg, t) }),
        sh2.free == sh.free,
        pg2.len() == pg.len(),
{
    lemma_detach_tree(pg, sh, pg2, sh2, t, c);
    lemma_index_touch(pg, sh, pg2, sh2, t, c, tight(), tight());
    reveal(root_cleared);
}

/// What the rules give for the root of the index on column `c` of table `t`.
#[verifier::spinoff_prover]
pub proof fn lemma_root_facts(pg: Seq<Seq<u8>>, sh: Shape, t: int, c: int)
    requires
        image_inv(pg, sh, tight()),
        0 < t < pg.len(),
        sh.kinds[t] is Table,
        0 <= c < table_of(pg, t).cols.len(),
        table_of(pg, t).cols[c].index != NONE,
    ensures
        root_ok_at(pg, sh, t, c),
        0 < table_of(pg, t).cols[c].index < pg.len(),
        pg.len() <= MAX_PAGE,
        in_tree(sh.kinds[table_of(pg, t).cols[c].index as int], t, c),
        pg[table_of(pg, t).cols[c].index as int].len() == PAGE_SIZE,
        pg[t].len() == PAGE_SIZE,
        table_of(pg, t).cols.len() < MAX_COL,
        table_of(pg, t).cols.len() == col_num(pg[t]),
{
    lemma_table_facts(pg, sh, t);
    assert(root_ok_at(pg, sh, t, c));
}

impl Db {
    /// Gives the pages of `list` back to the pager, one after the other.
    #[verifier::spinoff_prover]
    pub(crate) fn free_all(&mut self, list: &Vec<u32>)
        requires
            old(self).wf(),
            list@.no_duplicates(),
            forall|k: int| 0 <= k < list@.len() ==> old(self).is_loose(#[trigger] list@[k] as nat),
        ensures
            final(self).wf(),
            final(self).free_list() == old(self).free_list() + as_nats(list@),
            quiet(old(self).image(), old(self).shape(), final(self).image(), final(self).shape()),
            final(self).spec_path() == old(self).spec_path(),
            final(self).page_count() == old(self).page_count(),
            forall|p: int| 0 <= p < old(self).page_count() && (#[trigger] old(self).shape().kinds[p]) is Loose && !list@.contains(p as u32)
                ==> final(self).shape().kinds[p] is Loose && final(self).image()[p] == old(self).image()[p],
    {
        let ghost pg0 = self.image();
        let ghost sh0 = self.shape();
        proof {
            lemma_quiet_self(pg0, sh0);
        }
        let mut k: usize = 0;
        while k < list.len()
            invariant
                k <= list@.len(),
                self.wf(),
                list@.no_duplicates(),
                quiet(pg0, sh0, self.image(), self.shape()),
                self.free_list() == sh0.free + as_nats(list@.subrange(0, k as int)),
                forall|j: int| k <= j < list@.len() ==> self.is_loose(#[trigger] list@[j] as nat),
                self.spec_path() == old(self).spec_path(),
                self.page_count() == pg0.len(),
                forall|p: int| 0 <= p < pg0.len() && (#[trigger] sh0.kinds[p]) is Loose && !list@.contains(p as u32)
                    ==> self.shape().kinds[p] is Loose && self.image()[p] == pg0[p],
            decreases list@.len() - k,
        {
            let ghost pg = self.image();
            let ghost sh = self.shape();
            let page: usize = list[k] as usize;
            assert(self.is_loose(list@[k as int] as nat));
            self.deallocate_page(page);
            proof {
                assert forall|p: int| 0 <= p < pg0.len() && (#[trigger] sh0.kinds[p]) is Loose && !list@.contains(p as u32)
                    implies self.shape().kinds[p] is Loose && self.image()[p] == pg0[p] by {
                    assert(list@[k as int] == page);
                    assert(p != page);
                    assert(p != 0);
                    assert(sh.kinds[p] is Loose);
                }
                lemma_pager_quiet(pg, sh, self.image(), self.shape());
                lemma_quiet_twice(pg0, sh0, pg, sh, self.image(), self.shape());
                assert(self.free_list() =~= sh0.free + as_nats(list@.subrange(0, k + 1)));
                assert forall|j: int| k + 1 <= j < list@.len() implies self.is_loose(#[trigger] list@[j] as nat) by {
                    assert(list@[j] != list@[k as int]);
                    assert(sh.kinds[list@[j] as int] is Loose);
                }
            }
            k += 1;
        }
        proof {
            assert(list@.subrange(0, k as int) =~= list@);
        }
    }

    /// Clears the index root and the unique flag of column `c` of table `t`.
    #[verifier::spinoff_prover]
    fn clear_root(&mut self, t: usize, c: usize)
        requires
            t < old(self).page_count(),
            c < col_num(old(self).image()[t as int]),
            c < MAX_COL,
            old(self).image()[t as int].len() == PAGE_SIZE,
        ensures
            root_cleared(old(self).image(), final(self).image(), t as int, c as int),
            final(self).shape() == old(self).shape(),
            final(self).spec_path() == old(self).spec_path(),
    {
        let ghost pg1 = self.image();
        let mut ci = read_col(self.get_page(t), c);
        ci.index = NONE;
        ci.flags = ColFlags { notnull: ci.flags.notnull, primary: ci.flags.primary, unique: false };
        let mut head = self.take_page(t);
        write_col(&mut head, c, &ci);
        proof {
            lemma_col_frame(t as u32, pg1[t as int], head@, c as int);
        }
        self.put_page(t, head);
        proof {
            reveal(root_cleared);
        }
    }

    /// Takes the index on column `c` of table `t` apart: every page of its tree
    /// goes back to the pager, children before their parent, and the column is
    /// left without an index.
    #[verifier::spinoff_prover]
    pub(crate) fn drop_index_impl(&mut self, t: usize, c: usize)
        requires
            old(self).wf(),
            old(self).is_table(t as nat),
            c < old(self).table(t as nat).cols.len(),
            old(self).table(t as nat).cols[c as int].index != NONE,
        ensures
            final(self).wf(),
            index_step(old(self).image(), old(self).shape(), final(self).image(), final(self).shape(), t as int, c as int),
            final(self).table(t as nat) == (TablePageV {
                cols: old(self).table(t as nat).cols.update(c as int, unindexed(old(self).table(t as nat).cols[c as int])),
                ..old(self).table(t as nat)
            }),
            final(self).entries(t as nat, c as nat) == Set::<(Seq<u8>, u32)>::empty(),
            final(self).free_list() == old(self).free_list() + as_nats(
                post_order(
                    old(self).image(),
                    old(self).table(t as nat).cols[c as int].index as int,
                    old(self).shape().trees[(t as nat, c as nat)].height,
                ),
            ),
            final(self).spec_path() == old(self).spec_path(),
            final(self).page_count() == old(self).page_count(),
            crate::db::loose_kept(old(self).image(), old(self).shape(), final(self).image(), final(self).shape()),
    {
        let ghost pg0 = self.image();
        let ghost sh0 = self.shape();
        proof {
            lemma_root_facts(pg0, sh0, t as int, c as int);
        }
        let root: usize = read_col(self.get_page(t), c).index as usize;
        let ghost h = sh0.trees[(t as nat, c as nat)].height;
        let mut list: Vec<u32> = Vec::new();
        self.collect(root, &mut list, Ghost(t as int), Ghost(c as int), Ghost(h));
        proof {
            assert(list@ =~= post_order(pg0, root as int, h));
            lemma_nodes_ok(pg0, sh0, t as int, c as int);
            lemma_post_order(pg0, sh0, t as int, c as int, root as int);
        }
        self.clear_root(t, c);
        self.set_shape(Ghost(detached_shape(sh0, t as int, c as int)));
        let ghost pg1 = self.image();
        let ghost sh1 = self.shape();
        proof {
            lemma_detach(pg0, sh0, pg1, sh1, t as int, c as int);
            assert forall|k: int| 0 <= k < list@.len() implies self.is_loose(#[trigger] list@[k] as nat) by {
                assert(in_tree(sh0.kinds[list@[k] as int], t as int, c as int));
                assert(sh1.kinds[list@[k] as int] is Loose);
            }
        }
        self.free_all(&list);
        proof {
            lemma_touch_quiet(pg0, sh0, pg1, sh1, self.image(), self.shape(), t as int, c as int);
            lemma_index_step(pg0, sh0, self.image(), self.shape(), t as int, c as int);
            lemma_quiet_views(pg1, sh1, self.image(), self.shape(), t as int, c as int);
            assert(crate::db::loose_kept(pg0, sh0, self.image(), self.shape())) by {
                reveal(crate::db::loose_kept);
                reveal(root_cleared);
                assert forall|p: int| 0 <= p < pg0.len() && (#[trigger] sh0.kinds[p]) is Loose implies self.shape().kinds[p] is Loose && self.image()[p] == pg0[p] by {
                    assert(p != t);
                    assert(sh1.kinds[p] is Loose);
                    assert(pg1[p] == pg0[p]);
                    if list@.contains(p as u32) {
                        let k = choose|k: int| 0 <= k < list@.len() && list@[k] == p as u32;
                        assert(in_tree(sh0.kinds[list@[k] as int], t as int, c as int));
                    }
                }
            }
        }
    }

    /// Why `drop_index(table, col)` is refused, if it is.
    pub open spec fn drop_index_fault(&self, table: &str, col: &str) -> Option<ErrorV> {
        match table_slot(self.directory(), table.spec_bytes()) {
            None => Some(ErrorV::NoSuchTable(table@)),
            Some(t) => {
                let m = self.directory()[t].meta as nat;
                match col_slot(self.table(m).cols, col.spec_bytes()) {
                    None => Some(ErrorV::NoSuchCol(col@)),
                    Some(c) => if self.table(m).cols[c].index == NONE {
                        Some(ErrorV::NoSuchIndex(col@))
                    } else if self.table(m).cols[c].flags.unique {
                        Some(ErrorV::DropIndexOnUnique(col@))
                    } else {
                        None
                    },
                }
            },
        }
    }

    /// Drops the index on the column `col` of the table `table`. The index of a
    /// unique column cannot be dropped. Every page of the tree goes back to the
    /// pager, children before their parent.
    #[verifier::spinoff_prover]
    pub fn drop_index(&mut self, table: &str, col: &str) -> (r: Result<()>)
        requires
            old(self).wf(),
        ensures
            final(self).wf(),
            final(self).spec_path() == old(self).spec_path(),
            match r {
                Ok(()) => old(self).drop_index_fault(table, col) is None && {
                    let t = table_slot(old(self).directory(), table.spec_bytes())->0;
                    let m = old(self).directory()[t].meta as nat;
                    let c = col_slot(old(self).table(m).cols, col.spec_bytes())->0;
                    &&& index_step(old(self).image(), old(self).shape(), final(self).image(), final(self).shape(), m as int, c)
                    &&& final(self).table(m) == (TablePageV {
                        cols: old(self).table(m).cols.update(c, unindexed(old(self).table(m).cols[c])),
                        ..old(self).table(m)
                    })
                    &&& final(self).entries(m, c as nat) == Set::<(Seq<u8>, u32)>::empty()
                    &&& final(self).free_list() == old(self).free_list() + as_nats(
                        post_order(old(self).image(), old(self).table(m).cols[c].index as int, old(self).shape().trees[(m, c as nat)].height),
                    )
                    &&& final(self).page_count() == old(self).page_count()
                    &&& crate::db::loose_kept(old(self).image(), old(self).shape(), final(self).image(), final(self).shape())
                },
                Err(e) => old(self).drop_index_fault(table, col) == Some(e@) && final(self).image() == old(self).image()
                    && final(self).shape() == old(self).shape(),
            },
    {
        let m: usize = match self.locate(table.as_bytes()) {
            Some((_, m)) => m,
            None => {
                return Err(Error::NoSuchTable(table.to_owned()));
            },
        };
        let c: usize = match find_col(self.get_page(m), col.as_bytes()) {
            Some(c) => c,
            None => {
                proof {
                    lemma_col_slot_none(self.table(m as nat).cols, col.spec_bytes());
                }
                return Err(Error::NoSuchCol(col.to_owned()));
            },
        };
        proof {
            lemma_col_slot(self.table(m as nat).cols, col.spec_bytes(), c as int);
        }
        let ci = read_col(self.get_page(m), c);
        if ci.index == NONE {
            return Err(Error::NoSuchIndex(col.to_owned()));
        }
        if ci.flags.unique {
            return Err(Error::DropIndexOnUnique(col.to_owned()));
        }
        self.drop_index_impl(m, c);
        Ok(())
    }
}

/// Changes to pages of no structure leave every catalog and the entries of
/// every index as they were.
#[verifier::spinoff_prover]
pub proof fn lemma_quiet_views(pg: Seq<Seq<u8>>, sh: Shape, pg2: Seq<Seq<u8>>, sh2: Shape, t: int, c: int)
    requires
        quiet(pg, sh, pg2, sh2),
        0 < t < pg.len(),
        sh.kinds[t] is Table,
    ensures
        table_of(pg2, t) == table_of(pg, t),
        entries_of(pg2, sh2, t as nat, c as nat) == entries_of(pg, sh, t as nat, c as nat),
{
    reveal(quiet);
    assert(is_structural(sh.kinds[t]));
    assert forall|p: int| 0 <= p < pg.len() && #[trigger] crate::shape::is_leaf_of(sh, p, t as nat, c as nat) implies p < pg2.len() && pg2[p] == pg[p] && crate::shape::is_leaf_of(sh2, p, t as nat, c as nat) by {
        assert(is_structural(sh.kinds[p]));
    }
    assert forall|p: int| 0 <= p < pg2.len() && #[trigger] crate::shape::is_leaf_of(sh2, p, t as nat, c as nat) implies p < pg.len() && crate::shape::is_leaf_of(sh, p, t as nat, c as nat) by {
        assert(is_structural(sh2.kinds[p]));
    }
    crate::db::lemma_entries_frame(pg, sh, pg2, sh2, t as nat, c as nat);
}

} // verus!
