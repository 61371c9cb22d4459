//! Giving a tree a new root above the old one.

use vstd::prelude::*;
use crate::shape::tight;
use crate::db::{Db, loose_kept, next_page, shape_after_allocate};
use crate::frames::{in_tree, index_touch, lemma_index_touch, relax_in, sized, table_alike, tree_ok};
use crate::key::{key_val, rank, top};
use crate::layout::{MAX_COL, MAX_PAGE, NONE, PAGE_SIZE};
use crate::node::{Entry, EntryV, IndexPage, NodeV, fit, load_node, node_at, storable};
use crate::release::{node_height, node_hi, node_lo};
use crate::search::{evs, keyed, lemma_decoded};
use crate::shape::{Kind, Relax, Shape, Tree, apart, child_ok, entries_of, free_ok_at, holds, image_inv, is_leaf_of, is_structural, key_width, leaf_links_ok, min_fill, node_ok, over, page_ok, pager_inv, parent_ok, rank_of, root_ok_at, sorted, structure_inv, table_of, under, unique_ok_at, within};
use crate::table::{ColInfoV, TablePageV, col_num, lemma_col_frame, read_col, write_col};
use crate::tree::{lemma_descend, node_parent, node_slot, rehung, root_of, width_of};

verus! {

/// The lowest key of width `n`.
pub open spec fn zero_key(n: nat) -> Seq<u8> {
    Seq::new(n, |i: int| 0u8)
}

#[verifier::spinoff_prover]
pub proof fn lemma_zero_key(n: nat)
    ensures
        key_val(zero_key(n)) == 0,
        rank(zero_key(n), 0) == 0,
    decreases n,
{
    if n > 0 {
        lemma_zero_key((n - 1) as nat);
        assert(zero_key(n).drop_last() =~= zero_key((n - 1) as nat));
    }
}

/// A key of `n` zero bytes.
#[verifier::spinoff_prover]
pub fn zeros(n: usize) -> (k: Vec<u8>)
    ensures
        k@ == zero_key(n as nat),
{
    let mut k: Vec<u8> = Vec::new();
    let mut i: usize = 0;
    while i < n
        invariant
            i <= n,
            k@ == zero_key(i as nat),
        decreases n - i,
    {
        k.push(0u8);
        i += 1;
        assert(k@ =~= zero_key(i as nat));
    }
    k
}

/// What the growth of the tree on column `c` of table `t` works on: the old
/// root and the new page that becomes the root above it.
pub struct Growth {
    pub t: int,
    pub c: int,
    pub root: int,
    pub top: int,
}

/// How the pages change when the new root is written and recorded in the
/// catalog.
#[verifier::opaque]
pub open spec fn grow_written(pg1: Seq<Seq<u8>>, pg2: Seq<Seq<u8>>, g: Growth) -> bool {
    let rv = node_at(pg1[g.root]);
    let tv = table_of(pg1, g.t);
    &&& pg2.len() == pg1.len()
    &&& forall|q: int| 0 <= q < pg2.len() && q != g.top && q != g.t ==> #[trigger] pg2[q] == pg1[q]
    &&& pg2[g.top].len() == PAGE_SIZE
    &&& pg2[g.t].len() == PAGE_SIZE
    &&& node_at(pg2[g.top]) == (NodeV {
        prev: g.top as u32,
        next: g.top as u32,
        leaf: false,
        cap: rv.cap,
        key_size: rv.key_size,
        entries: seq![EntryV { key: zero_key(rv.key_size as nat), rid: 0, child: g.root as u32 }],
    })
    &&& table_of(pg2, g.t) == (TablePageV { cols: tv.cols.update(g.c, ColInfoV { index: g.top as u32, ..tv.cols[g.c] }), ..tv })
}

/// The shape after the growth: the new root stands one level above the old one,
/// which hangs below it.
pub open spec fn grow_shape(pg: Seq<Seq<u8>>, sh1: Shape, g: Growth) -> Shape {
    let tree = sh1.trees[(g.t as nat, g.c as nat)];
    Shape {
        kinds: sh1.kinds.update(
            g.top,
            Kind::Node {
                table: g.t as nat,
                col: g.c as nat,
                height: tree.height + 1,
                parent: g.top as nat,
                slot: 0,
                lo: 0,
                hi: top(width_of(pg, g.t, g.c)),
            },
        ).update(g.root, rehung(sh1.kinds[g.root], g.top, 0)),
        trees: sh1.trees.insert((g.t as nat, g.c as nat), Tree { height: tree.height + 1, cap: tree.cap }),
        ..sh1
    }
}

/// The exceptions while the root is being replaced: the old root holds one
/// entry too many, the new root has a single child.
pub open spec fn grow_relax(g: Growth) -> Relax {
    Relax { over: Some(g.root as nat), under: Some(g.top as nat) }
}

/// What the lemmas about a growth ask.
#[verifier::opaque]
pub open spec fn grow_edit(pg: Seq<Seq<u8>>, sh: Shape, pg1: Seq<Seq<u8>>, sh1: Shape, pg2: Seq<Seq<u8>>, sh2: Shape, g: Growth) -> bool {
    &&& image_inv(pg, sh, Relax { over: Some(g.root as nat), under: None })
    &&& 0 < g.t < pg.len()
    &&& sh.kinds[g.t] is Table
    &&& 0 <= g.c < table_of(pg, g.t).cols.len()
    &&& table_of(pg, g.t).cols[g.c].index != NONE
    &&& g.root == root_of(pg, g.t, g.c)
    &&& node_at(pg[g.root]).entries.len() > sh.trees[(g.t as nat, g.c as nat)].cap
    &&& pager_inv(pg1, sh1)
    &&& sh1 == shape_after_allocate(sh, g.top as nat)
    &&& g.top == next_page(sh.free, pg.len())
    &&& 0 < g.top < pg1.len()
    &&& g.top < pg.len() ==> sh.kinds[g.top] is Free
    &&& pg1.len() == pg.len() + (if sh.free.len() > 0 { 0int } else { 1 })
    &&& forall|q: int| 0 < q < pg.len() ==> #[trigger] pg1[q] == pg[q]
    &&& crate::meta::tables(pg1[0]) == crate::meta::tables(pg[0])
    &&& grow_written(pg1, pg2, g)
    &&& sh2 == grow_shape(pg, sh1, g)
}

/// The facts about a growth that the lemmas share.
pub open spec fn grow_facts(pg: Seq<Seq<u8>>, sh: Shape, pg1: Seq<Seq<u8>>, sh1: Shape, pg2: Seq<Seq<u8>>, sh2: Shape, g: Growth) -> bool {
    let tree = sh.trees[(g.t as nat, g.c as nat)];
    let ks = width_of(pg, g.t, g.c);
    let relax = Relax { over: Some(g.root as nat), under: None };
    &&& 0 < g.t < pg.len()
    &&& sh.kinds[g.t] is Table
    &&& sh2.kinds[g.t] == sh.kinds[g.t]
    &&& 0 <= g.c < table_of(pg, g.t).cols.len()
    &&& 0 < g.root < pg.len()
    &&& g.root != g.t
    &&& g.top != g.t
    &&& g.top != g.root
    &&& 0 < g.top < pg2.len()
    &&& pg2.len() <= MAX_PAGE
    &&& pg.len() <= pg2.len()
    &&& sh2.kinds.len() == pg2.len()
    &&& sh.kinds.len() == pg.len()
    &&& in_tree(sh.kinds[g.root], g.t, g.c)
    &&& node_ok(pg, sh, g.root, relax)
    &&& sh.kinds[g.root] == (Kind::Node { table: g.t as nat, col: g.c as nat, height: tree.height, parent: g.root as nat, slot: node_slot(sh.kinds[g.root]) as nat, lo: 0, hi: top(ks) })
    &&& 3 <= tree.cap < fit(ks as int, false)
    &&& sh.trees.dom().contains((g.t as nat, g.c as nat))
    &&& node_at(pg2[g.root]) == node_at(pg[g.root])
    &&& pg2[g.root] == pg[g.root]
    &&& sh2.kinds[g.root] == rehung(sh.kinds[g.root], g.top, 0)
    &&& sh2.kinds[g.top] == (Kind::Node { table: g.t as nat, col: g.c as nat, height: tree.height + 1, parent: g.top as nat, slot: 0, lo: 0, hi: top(ks) })
    &&& sh2.trees == sh.trees.insert((g.t as nat, g.c as nat), Tree { height: tree.height + 1, cap: tree.cap })
    &&& node_at(pg2[g.top]).entries == seq![EntryV { key: zero_key(ks), rid: 0, child: g.root as u32 }]
    &&& !node_at(pg2[g.top]).leaf
    &&& node_at(pg2[g.top]).cap == tree.cap
    &&& node_at(pg2[g.top]).key_size == ks
    &&& table_of(pg2, g.t) == (TablePageV { cols: table_of(pg, g.t).cols.update(g.c, ColInfoV { index: g.top as u32, ..table_of(pg, g.t).cols[g.c] }), ..table_of(pg, g.t) })
    &&& forall|x: int| 0 <= x < pg.len() && x != g.root && x != g.top ==> #[trigger] sh2.kinds[x] == sh.kinds[x]
    &&& forall|x: int| 0 < x < pg.len() && x != g.t && x != g.top ==> #[trigger] pg2[x] == pg[x]
    &&& g.top >= pg.len() || !is_structural(sh.kinds[g.top])
    &&& pg2.len() == pg.len() || (pg2.len() == pg.len() + 1 && g.top == pg.len())
    &&& node_at(pg[g.root]).entries.len() == tree.cap + 1
    &&& sh.kinds[0] is Meta
    &&& sh2.kinds[0] is Meta
    &&& 0 < top(ks)
}

#[verifier::spinoff_prover]
pub proof fn lemma_grow_facts(pg: Seq<Seq<u8>>, sh: Shape, pg1: Seq<Seq<u8>>, sh1: Shape, pg2: Seq<Seq<u8>>, sh2: Shape, g: Growth)
    requires
        grow_edit(pg, sh, pg1, sh1, pg2, sh2, g),
    ensures
        grow_facts(pg, sh, pg1, sh1, pg2, sh2, g),
{
    reveal(grow_edit);
    reveal(grow_written);
    let relax = Relax { over: Some(g.root as nat), under: None };
    assert(root_ok_at(pg, sh, g.t, g.c) && sh.kinds[0] is Meta) by {
        reveal(structure_inv);
        assert(page_ok(pg, sh, g.t, relax));
    }
    lemma_descend(pg, sh, g.t, g.c, g.root, relax);
    if sh.free.len() > 0 {
        assert(free_ok_at(pg, sh, sh.free.len() - 1));
    }
    crate::catalog::lemma_top_positive(width_of(pg, g.t, g.c));
}

#[verifier::spinoff_prover]
proof fn lemma_grow_pager(pg: Seq<Seq<u8>>, sh: Shape, pg1: Seq<Seq<u8>>, sh1: Shape, pg2: Seq<Seq<u8>>, sh2: Shape, g: Growth)
    requires
        grow_edit(pg, sh, pg1, sh1, pg2, sh2, g),
    ensures
        pager_inv(pg2, sh2),
        index_touch(pg, sh, pg2, sh2, g.t, g.c),
{
    lemma_grow_facts(pg, sh, pg1, sh1, pg2, sh2, g);
    reveal(grow_edit);
    reveal(grow_written);
    assert forall|k: int| 0 <= k < sh2.free.len() implies #[trigger] free_ok_at(pg2, sh2, k) by {
        assert(free_ok_at(pg1, sh1, k));
    }
    assert(pg2[0] == pg1[0]);
}

#[verifier::spinoff_prover]
proof fn lemma_grow_top(pg: Seq<Seq<u8>>, sh: Shape, pg1: Seq<Seq<u8>>, sh1: Shape, pg2: Seq<Seq<u8>>, sh2: Shape, g: Growth)
    requires
        grow_edit(pg, sh, pg1, sh1, pg2, sh2, g),
    ensures
        node_ok(pg2, sh2, g.top, grow_relax(g)),
        node_ok(pg2, sh2, g.root, grow_relax(g)),
        root_ok_at(pg2, sh2, g.t, g.c),
{
    lemma_grow_facts(pg, sh, pg1, sh1, pg2, sh2, g);
    let ks = width_of(pg, g.t, g.c);
    lemma_zero_key(ks);
    let relax = Relax { over: Some(g.root as nat), under: None };
    let es = node_at(pg2[g.top]).entries;
    assert(es[0] == EntryV { key: zero_key(ks), rid: 0, child: g.root as u32 });
    assert(rank_of(es[0]) == 0);
    assert(child_ok(pg2, sh2, g.top, 0));
    assert(parent_ok(pg2, sh2, g.root));
    let n = node_at(pg[g.root]).entries.len();
    if node_height(sh.kinds[g.root]) > 0 {
        assert forall|j: int| 0 <= j < n implies #[trigger] child_ok(pg2, sh2, g.root, j) by {
            assert(child_ok(pg, sh, g.root, j));
        }
    } else {
        assert(leaf_links_ok(pg, sh, g.root, ks));
        assert(leaf_links_ok(pg2, sh2, g.root, ks));
    }
}

#[verifier::spinoff_prover]
proof fn lemma_grow_other(pg: Seq<Seq<u8>>, sh: Shape, pg1: Seq<Seq<u8>>, sh1: Shape, pg2: Seq<Seq<u8>>, sh2: Shape, g: Growth, q: int)
    requires
        grow_edit(pg, sh, pg1, sh1, pg2, sh2, g),
        0 <= q < pg2.len(),
        in_tree(sh2.kinds[q], g.t, g.c),
        q != g.root,
        q != g.top,
    ensures
        node_ok(pg2, sh2, q, grow_relax(g)),
{
    lemma_grow_facts(pg, sh, pg1, sh1, pg2, sh2, g);
    let relax = Relax { over: Some(g.root as nat), under: None };
    assert(image_inv(pg, sh, relax)) by {
        reveal(grow_edit);
    }
    assert(q < pg.len()) by {
        reveal(grow_edit);
    }
    lemma_descend(pg, sh, g.t, g.c, q, relax);
    let ks = width_of(pg, g.t, g.c);
    let n = node_at(pg[q]).entries.len();
    assert(parent_ok(pg, sh, q));
    let up = node_parent(sh.kinds[q]);
    assert(parent_ok(pg2, sh2, q));
    if node_height(sh.kinds[q]) > 0 {
        assert forall|j: int| 0 <= j < n implies #[trigger] child_ok(pg2, sh2, q, j) by {
            assert(child_ok(pg, sh, q, j));
        }
    } else {
        assert(leaf_links_ok(pg, sh, q, ks));
        assert(leaf_links_ok(pg2, sh2, q, ks));
    }
}

#[verifier::spinoff_prover]
proof fn lemma_grow_rest(pg: Seq<Seq<u8>>, sh: Shape, pg1: Seq<Seq<u8>>, sh1: Shape, pg2: Seq<Seq<u8>>, sh2: Shape, g: Growth)
    requires
        grow_edit(pg, sh, pg1, sh1, pg2, sh2, g),
    ensures
        entries_of(pg2, sh2, g.t as nat, g.c as nat) == entries_of(pg, sh, g.t as nat, g.c as nat),
        unique_ok_at(pg2, sh2, g.t, g.c),
        table_of(pg2, g.t).cols[g.c].flags.unique ==> table_of(pg2, g.t).cols[g.c].index != NONE,
        forall|a: int, b: int| 0 <= a < pg2.len() && 0 <= b < pg2.len() && in_tree(sh2.kinds[a], g.t, g.c) && in_tree(sh2.kinds[b], g.t, g.c) ==> #[trigger] apart(sh2, a, b),
        relax_in(Relax { over: Some(g.root as nat), under: None }, sh, g.t, g.c),
        relax_in(grow_relax(g), sh2, g.t, g.c),
{
    lemma_grow_facts(pg, sh, pg1, sh1, pg2, sh2, g);
    let relax = Relax { over: Some(g.root as nat), under: None };
    let t = g.t as nat;
    let c = g.c as nat;
    assert forall|p: int| 0 <= p < pg.len() && #[trigger] is_leaf_of(sh, p, t, c) implies p < pg2.len() && pg2[p] == pg[p] && is_leaf_of(sh2, p, t, c) by {}
    assert forall|p: int| 0 <= p < pg2.len() && #[trigger] is_leaf_of(sh2, p, t, c) implies p < pg.len() && is_leaf_of(sh, p, t, c) by {
        assert(p != g.top);
        assert(p < pg.len());
        if p != g.root {
            assert(sh2.kinds[p] == sh.kinds[p]);
        }
    }
    crate::db::lemma_entries_frame(pg, sh, pg2, sh2, t, c);
    assert(unique_ok_at(pg, sh, g.t, g.c)) by {
        reveal(grow_edit);
        reveal(structure_inv);
    }
    assert forall|a: int, b: int| 0 <= a < pg2.len() && 0 <= b < pg2.len() && in_tree(sh2.kinds[a], g.t, g.c) && in_tree(sh2.kinds[b], g.t, g.c) implies #[trigger] apart(sh2, a, b) by {
        if a != g.top && b != g.top {
            assert(apart(sh, a, b)) by {
                reveal(grow_edit);
                reveal(structure_inv);
            }
        }
    }
}

/// A new root above a root that holds one entry too many leaves a tree that
/// obeys the rules, but for that node and for the new root, which has a single
/// child; the entries of the index are what they were.
#[verifier::spinoff_prover]
pub proof fn lemma_grow(pg: Seq<Seq<u8>>, sh: Shape, pg1: Seq<Seq<u8>>, sh1: Shape, pg2: Seq<Seq<u8>>, sh2: Shape, g: Growth)
    requires
        grow_edit(pg, sh, pg1, sh1, pg2, sh2, g),
    ensures
        image_inv(pg2, sh2, grow_relax(g)),
        index_touch(pg, sh, pg2, sh2, g.t, g.c),
        entries_of(pg2, sh2, g.t as nat, g.c as nat) == entries_of(pg, sh, g.t as nat, g.c as nat),
        grow_facts(pg, sh, pg1, sh1, pg2, sh2, g),
{
    lemma_grow_facts(pg, sh, pg1, sh1, pg2, sh2, g);
    lemma_grow_pager(pg, sh, pg1, sh1, pg2, sh2, g);
    lemma_grow_top(pg, sh, pg1, sh1, pg2, sh2, g);
    lemma_grow_rest(pg, sh, pg1, sh1, pg2, sh2, g);
    assert forall|q: int| 0 <= q < pg2.len() && in_tree(#[trigger] sh2.kinds[q], g.t, g.c) implies node_ok(pg2, sh2, q, grow_relax(g)) by {
        if q != g.root && q != g.top {
            lemma_grow_other(pg, sh, pg1, sh1, pg2, sh2, g, q);
        }
    }
    assert(image_inv(pg, sh, Relax { over: Some(g.root as nat), under: None })) by {
        reveal(grow_edit);
    }
    lemma_index_touch(pg, sh, pg2, sh2, g.t, g.c, Relax { over: Some(g.root as nat), under: None }, grow_relax(g));
}

/// What the rules give a growth before it starts.
#[verifier::spinoff_prover]
pub proof fn lemma_grow_ready(pg: Seq<Seq<u8>>, sh: Shape, t: int, c: int)
    requires
        image_inv(pg, sh, Relax { over: Some(root_of(pg, t, c) as nat), under: None }),
        0 < t < pg.len(),
        sh.kinds[t] is Table,
        0 <= c < table_of(pg, t).cols.len(),
        table_of(pg, t).cols[c].index != NONE,
    ensures
        pager_inv(pg, sh),
        0 < root_of(pg, t, c) < pg.len(),
        root_of(pg, t, c) != t,
        pg[root_of(pg, t, c)].len() == PAGE_SIZE,
        pg[t].len() == PAGE_SIZE,
        c < col_num(pg[t]),
        c < MAX_COL,
        in_tree(sh.kinds[root_of(pg, t, c)], t, c),
        node_at(pg[root_of(pg, t, c)]).key_size <= 255,
{
    let relax = Relax { over: Some(root_of(pg, t, c) as nat), under: None };
    reveal(structure_inv);
    assert(page_ok(pg, sh, t, relax));
    assert(root_ok_at(pg, sh, t, c));
    lemma_descend(pg, sh, t, c, root_of(pg, t, c), relax);
    lemma_decoded(pg[root_of(pg, t, c)]);
}

/// A growth leaves alone the pages that had no role before.
#[verifier::spinoff_prover]
pub proof fn lemma_grow_loose(pg: Seq<Seq<u8>>, sh: Shape, pg1: Seq<Seq<u8>>, sh1: Shape, pg2: Seq<Seq<u8>>, sh2: Shape, g: Growth)
    requires
        grow_edit(pg, sh, pg1, sh1, pg2, sh2, g),
    ensures
        loose_kept(pg, sh, pg2, sh2),
{
    lemma_grow_facts(pg, sh, pg1, sh1, pg2, sh2, g);
    reveal(grow_edit);
    reveal(grow_written);
    reveal(loose_kept);
    assert forall|x: int| 0 <= x < pg.len() && (#[trigger] sh.kinds[x]) is Loose implies x < pg2.len() && sh2.kinds[x] is Loose && pg2[x] == pg[x] by {
        assert(x != 0 && x != g.t && x != g.top && x != g.root);
        assert(pg1[x] == pg[x]);
        assert(pg2[x] == pg1[x]);
    }
}

impl Db {
    /// Writes the new root `top` above the old root `root` and records it in the
    /// catalog entry of column `c` of table `t`.
    #[verifier::spinoff_prover]
    fn grow_write(&mut self, t: usize, c: usize, top: usize, root: usize)
        requires
            t < old(self).page_count(),
            top < old(self).page_count(),
            root < old(self).page_count(),
            top < MAX_PAGE,
            root < MAX_PAGE,
            top != t,
            top != root,
            root != t,
            c < col_num(old(self).image()[t as int]),
            c < MAX_COL,
            old(self).image()[t as int].len() == PAGE_SIZE,
            old(self).image()[top as int].len() == PAGE_SIZE,
            old(self).image()[root as int].len() == PAGE_SIZE,
        ensures
            grow_written(old(self).image(), final(self).image(), Growth { t: t as int, c: c as int, root: root as int, top: top as int }),
            final(self).shape() == old(self).shape(),
            final(self).spec_path() == old(self).spec_path(),
    {
        let ghost pg1 = self.image();
        let rn = load_node(self.get_page(root));
        proof {
            crate::catalog::lemma_default_cap(rn.key_size as int);
        }
        let mut entries: Vec<Entry> = Vec::new();
        entries.push(Entry { key: zeros(rn.key_size as usize), rid: 0, child: root as u32 });
        let node = IndexPage { prev: top as u32, next: top as u32, leaf: false, cap: rn.cap, key_size: rn.key_size, entries };
        proof {
            assert(node@.entries =~= seq![EntryV { key: zero_key(rn.key_size as nat), rid: 0, child: root as u32 }]);
            assert(storable(node@));
        }
        self.write_node(top, &node);
        proof {
            reveal(crate::tree::node_written);
        }
        let mut ci = read_col(self.get_page(t), c);
        ci.index = top as u32;
        let mut head = self.take_page(t);
        write_col(&mut head, c, &ci);
        proof {
            lemma_col_frame(t as u32, pg1[t as int], head@, c as int);
        }
        self.put_page(t, head);
        proof {
            reveal(grow_written);
        }
    }

    /// Puts a new root above the root of the index on column `c` of table `t`,
    /// which holds one entry too many. The new root has the old one for its only
    /// child.
    #[verifier::spinoff_prover]
    pub(crate) fn grow_root(&mut self, t: usize, c: usize) -> (top: usize)
        requires
            old(self).holds_but(Relax { over: Some(root_of(old(self).image(), t as int, c as int) as nat), under: None }),
            old(self).is_table(t as nat),
            c < old(self).table(t as nat).cols.len(),
            old(self).table(t as nat).cols[c as int].index != NONE,
            node_at(old(self).image()[root_of(old(self).image(), t as int, c as int)]).entries.len() > old(self).shape().trees[(t as nat, c as nat)].cap,
            old(self).free_list().len() > 0 || old(self).page_count() < MAX_PAGE,
        ensures
            ({
                let g = Growth { t: t as int, c: c as int, root: root_of(old(self).image(), t as int, c as int), top: top as int };
                let s1 = shape_after_allocate(old(self).shape(), top as nat);
                &&& final(self).holds_but(grow_relax(g))
                &&& index_touch(old(self).image(), old(self).shape(), final(self).image(), final(self).shape(), t as int, c as int)
                &&& final(self).entries(t as nat, c as nat) == old(self).entries(t as nat, c as nat)
                &&& 0 < top < final(self).page_count()
                &&& in_tree(final(self).shape().kinds[top as int], t as int, c as int)
                &&& node_height(final(self).shape().kinds[top as int]) > 0
                &&& node_at(final(self).image()[top as int]).entries.len() == 1
                &&& node_at(final(self).image()[top as int]).entries[0].child == g.root
                &&& node_at(final(self).image()[g.root]).entries.len() > final(self).shape().trees[(t as nat, c as nat)].cap
                &&& final(self).shape().trees[(t as nat, c as nat)].cap >= 2
                &&& old(self).page_count() <= final(self).page_count() <= old(self).page_count() + 1
                &&& final(self).room() == old(self).room() - 1
                &&& loose_kept(old(self).image(), old(self).shape(), final(self).image(), final(self).shape())
                &&& final(self).table(t as nat).cols[c as int].index == top
                &&& final(self).shape().trees[(t as nat, c as nat)].height == old(self).shape().trees[(t as nat, c as nat)].height + 1
                &&& final(self).spec_path() == old(self).spec_path()
            }),
    {
        let ghost pg = self.image();
        let ghost sh = self.shape();
        proof {
            lemma_grow_ready(pg, sh, t as int, c as int);
        }
        let root: usize = read_col(self.get_page(t), c).index as usize;
        let top: usize = self.allocate_page();
        let ghost pg1 = self.image();
        let ghost sh1 = self.shape();
        assert(top != t && top != root);
        let ghost g = Growth { t: t as int, c: c as int, root: root as int, top: top as int };
        self.grow_write(t, c, top, root);
        self.set_shape(Ghost(grow_shape(pg, sh1, g)));
        proof {
            assert(grow_edit(pg, sh, pg1, sh1, self.image(), self.shape(), g)) by {
                reveal(grow_edit);
            }
            lemma_grow(pg, sh, pg1, sh1, self.image(), self.shape(), g);
            lemma_grow_loose(pg, sh, pg1, sh1, self.image(), self.shape(), g);
            assert(self.image().len() == pg1.len()) by {
                reveal(grow_edit);
                reveal(grow_written);
            }
        }
        top
    }
}

} // verus!
