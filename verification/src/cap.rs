//! Choosing the fan-out of an empty index, and reading an index by key.

use vstd::prelude::*;
use crate::shape::tight;
use crate::catalog::{index_step, lemma_index_step};
use crate::db::Db;
use crate::grow::zero_key;
use crate::frames::{in_tree, index_touch, lemma_index_touch, tree_ok};
use crate::insert::{lemma_key_listed, read_col_of};
use crate::key::{key_val, rank};
use crate::layout::{MAX_COL, NONE, PAGE_SIZE};
use crate::node::{ENTRIES_OFF, Entry, EntryV, IndexPage, NodeV, fit, load_node, node_at, storable};
use crate::release::{lemma_root_facts, node_height};
use crate::scan::lists_range;
use crate::search::{evs, lemma_decoded};
use crate::shape::{Kind, Relax, Shape, Tree, apart, child_ok, entries_of, free_ok_at, holds, image_inv, leaf_links_ok, node_ok, page_ok, pager_inv, parent_ok, root_ok_at, structure_inv, table_of, unique_ok_at};
use crate::tree::{lemma_descend, node_written, root_of, width_of};

verus! {

/// The key of a 32-bit integer: its value with the sign bit flipped, first byte
/// first, so that keys order as the integers do.
#[verifier::spinoff_prover]
pub fn int_key(x: i32) -> (k: Vec<u8>)
    ensures
        k@.len() == 4,
        key_val(k@) == x + 0x8000_0000,
{
    let u: u64 = (x as i64 + 0x8000_0000) as u64;
    let b0: u8 = (u / 16777216) as u8;
    let b1: u8 = (u / 65536 % 256) as u8;
    let b2: u8 = (u / 256 % 256) as u8;
    let b3: u8 = (u % 256) as u8;
    let k: Vec<u8> = vec![b0, b1, b2, b3];
    proof {
        let s = k@;
        assert(s.drop_last() =~= seq![b0, b1, b2]);
        assert(s.drop_last().drop_last() =~= seq![b0, b1]);
        assert(s.drop_last().drop_last().drop_last() =~= seq![b0]);
        assert(s.drop_last().drop_last().drop_last().drop_last() =~= Seq::<u8>::empty());
        reveal_with_fuel(key_val, 5);
    }
    k
}

/// The key of a truth value: one byte, so that false orders before true.
#[verifier::spinoff_prover]
pub fn bool_key(x: bool) -> (k: Vec<u8>)
    ensures
        k@ == seq![if x { 1u8 } else { 0u8 }],
{
    let b: u8 = if x { 1 } else { 0 };
    let k: Vec<u8> = vec![b];
    assert(k@ =~= seq![b]);
    k
}

/// The key of a text in a column of `width` bytes: the text, filled up with zero
/// bytes to the width of the column.
#[verifier::spinoff_prover]
pub fn text_key(text: &[u8], width: usize) -> (k: Vec<u8>)
    requires
        text@.len() <= width,
    ensures
        k@ == text@ + zero_key((width - text@.len()) as nat),
{
    let mut k: Vec<u8> = Vec::new();
    let mut i: usize = 0;
    while i < width
        invariant
            i <= width,
            text@.len() <= width,
            k@.len() == i,
            forall|j: int| 0 <= j < i ==> k@[j] == (if j < text@.len() { text@[j] } else { 0u8 }),
        decreases width - i,
    {
        let b: u8 = if i < text.len() { text[i] } else { 0 };
        k.push(b);
        i += 1;
    }
    assert(k@ =~= text@ + zero_key((width - text@.len()) as nat));
    k
}

/// How the pages and the shape change when the fan-out of the empty index on
/// column `c` of table `t` is set to `cap`.
#[verifier::opaque]
pub open spec fn cap_edit(pg: Seq<Seq<u8>>, sh: Shape, pg2: Seq<Seq<u8>>, sh2: Shape, t: int, c: int, cap: u16) -> bool {
    let root = root_of(pg, t, c);
    &&& image_inv(pg, sh, tight())
    &&& 0 < t < pg.len()
    &&& sh.kinds[t] is Table
    &&& 0 <= c < table_of(pg, t).cols.len()
    &&& table_of(pg, t).cols[c].index != NONE
    &&& node_at(pg[root]).leaf
    &&& node_at(pg[root]).entries.len() == 0
    &&& 3 <= cap < fit(width_of(pg, t, c) as int, false)
    &&& node_written(pg, pg2, root, NodeV { cap, ..node_at(pg[root]) })
    &&& sh2 == (Shape { trees: sh.trees.insert((t as nat, c as nat), Tree { height: 0, cap: cap as nat }), ..sh })
}

#[verifier::spinoff_prover]
proof fn lemma_cap_tree(pg: Seq<Seq<u8>>, sh: Shape, pg2: Seq<Seq<u8>>, sh2: Shape, t: int, c: int, cap: u16)
    requires
        cap_edit(pg, sh, pg2, sh2, t, c, cap),
    ensures
        pager_inv(pg2, sh2),
        index_touch(pg, sh, pg2, sh2, t, c),
        tree_ok(pg2, sh2, t, c, tight()),
        entries_of(pg2, sh2, t as nat, c as nat) == entries_of(pg, sh, t as nat, c as nat),
{
    reveal(cap_edit);
    reveal(node_written);
    lemma_root_facts(pg, sh, t, c);
    let root = root_of(pg, t, c);
    lemma_descend(pg, sh, t, c, root, tight());
    assert forall|k: int| 0 <= k < sh2.free.len() implies #[trigger] free_ok_at(pg2, sh2, k) by {
        assert(free_ok_at(pg, sh, k));
    }
    assert(table_of(pg2, t) == table_of(pg, t));
    assert forall|q: int| 0 <= q < pg.len() && in_tree(#[trigger] sh.kinds[q], t, c) implies q == root by {
        if q != root {
            lemma_descend(pg, sh, t, c, q, tight());
        }
    }
    assert(leaf_links_ok(pg, sh, root, width_of(pg, t, c)));
    assert(node_ok(pg2, sh2, root, tight()));
    assert(unique_ok_at(pg, sh, t, c)) by {
        reveal(structure_inv);
    }
    assert forall|e: (Seq<u8>, u32)| !(#[trigger] entries_of(pg2, sh2, t as nat, c as nat).contains(e)) by {
        if entries_of(pg2, sh2, t as nat, c as nat).contains(e) {
            let (q, i) = choose|q: int, i: int| #[trigger] holds(pg2, sh2, t as nat, c as nat, q, i, e);
            assert(in_tree(sh.kinds[q], t, c));
        }
    }
    assert forall|e: (Seq<u8>, u32)| !(#[trigger] entries_of(pg, sh, t as nat, c as nat).contains(e)) by {
        if entries_of(pg, sh, t as nat, c as nat).contains(e) {
            let (q, i) = choose|q: int, i: int| #[trigger] holds(pg, sh, t as nat, c as nat, q, i, e);
            assert(in_tree(sh.kinds[q], t, c));
        }
    }
    assert(entries_of(pg2, sh2, t as nat, c as nat) =~= entries_of(pg, sh, t as nat, c as nat));
    assert forall|a: int, b: int| 0 <= a < pg2.len() && 0 <= b < pg2.len() && in_tree(sh2.kinds[a], t, c) && in_tree(sh2.kinds[b], t, c) implies #[trigger] apart(sh2, a, b) by {}
}

impl Db {
    /// Sets the fan-out of the index on column `c` of the table whose table-meta
    /// page is `t`. The index must be empty: a single leaf without entries.
    #[verifier::spinoff_prover]
    pub fn set_index_cap(&mut self, t: usize, c: usize, cap: u16)
        requires
            old(self).wf(),
            old(self).is_table(t as nat),
            c < old(self).table(t as nat).cols.len(),
            old(self).table(t as nat).cols[c as int].index != NONE,
            node_at(old(self).image()[root_of(old(self).image(), t as int, c as int)]).leaf,
            node_at(old(self).image()[root_of(old(self).image(), t as int, c as int)]).entries.len() == 0,
            3 <= cap < fit(width_of(old(self).image(), t as int, c as int) as int, false),
        ensures
            final(self).wf(),
            final(self).shape().trees[(t as nat, c as nat)].cap == cap,
            final(self).entries(t as nat, c as nat) == old(self).entries(t as nat, c as nat),
            index_step(old(self).image(), old(self).shape(), final(self).image(), final(self).shape(), t as int, c as int),
            final(self).table(t as nat) == old(self).table(t as nat),
            final(self).spec_path() == old(self).spec_path(),
            final(self).page_count() == old(self).page_count(),
            final(self).free_list() == old(self).free_list(),
            final(self).shape().trees[(t as nat, c as nat)].height == 0,
            crate::db::loose_kept(old(self).image(), old(self).shape(), final(self).image(), final(self).shape()),
    {
        let ghost pg = self.image();
        let ghost sh = self.shape();
        proof {
            lemma_root_facts(pg, sh, t as int, c as int);
            lemma_descend(pg, sh, t as int, c as int, root_of(pg, t as int, c as int), tight());
        }
        let root: usize = read_col_of(self, t, c).index as usize;
        let mut node = load_node(self.get_page(root));
        node.cap = cap;
        proof {
            lemma_decoded(pg[root as int]);
            assert(node@.entries =~= node_at(pg[root as int]).entries);
        }
        self.write_node(root, &node);
        let ghost sh2 = Shape { trees: sh.trees.insert((t as nat, c as nat), Tree { height: 0, cap: cap as nat }), ..sh };
        self.set_shape(Ghost(sh2));
        proof {
            let pg2 = self.image();
            assert(cap_edit(pg, sh, pg2, sh2, t as int, c as int, cap)) by {
                reveal(cap_edit);
            }
            lemma_cap_tree(pg, sh, pg2, sh2, t as int, c as int, cap);
            lemma_index_touch(pg, sh, pg2, sh2, t as int, c as int, tight(), tight());
            lemma_index_step(pg, sh, pg2, sh2, t as int, c as int);
            assert(table_of(pg2, t as int) == table_of(pg, t as int)) by {
                reveal(cap_edit);
                reveal(node_written);
            }
            assert(crate::db::loose_kept(pg, sh, pg2, sh2) && pg2.len() == pg.len()) by {
                reveal(node_written);
                reveal(crate::db::loose_kept);
                assert forall|x: int| 0 <= x < pg.len() && (#[trigger] sh.kinds[x]) is Loose implies x < pg2.len() && sh2.kinds[x] is Loose && pg2[x] == pg[x] by {
                    assert(x != root);
                }
            }
        }
    }

    /// The rows of the entries of the index on column `c` of table `t` whose key
    /// is `key`, in rising order.
    #[verifier::spinoff_prover]
    pub fn find_key(&self, t: usize, c: usize, key: &[u8]) -> (rids: Vec<u32>)
        requires
            self.wf(),
            self.indexed(t as nat, c as nat, key@),
        ensures
            forall|i: int| 0 <= i < rids@.len() ==> self.entries(t as nat, c as nat).contains((key@, #[trigger] rids@[i])),
            forall|r: u32| #[trigger] self.entries(t as nat, c as nat).contains((key@, r)) ==> rids@.contains(r),
            forall|i: int, j: int| 0 <= i < j < rids@.len() ==> rids@[i] < rids@[j],
    {
        let found = self.scan(t, c, key, 0, key, 0xFFFF_FFFF);
        let ghost out = evs(found@);
        proof {
            lemma_key_listed(self.image(), self.shape(), t as int, c as int, key@, out);
        }
        let mut rids: Vec<u32> = Vec::new();
        let mut i: usize = 0;
        while i < found.len()
            invariant
                i <= found@.len(),
                out == evs(found@),
                rids@.len() == i,
                forall|j: int| 0 <= j < i ==> (#[trigger] rids@[j]) == out[j].rid,
            decreases found@.len() - i,
        {
            assert(out[i as int] == found@[i as int]@);
            rids.push(found[i].rid);
            i += 1;
        }
        proof {
            assert forall|r: u32| #[trigger] self.entries(t as nat, c as nat).contains((key@, r)) implies rids@.contains(r) by {
                let k = choose|k: int| 0 <= k < out.len() && (#[trigger] out[k]).rid == r;
                assert(rids@[k] == r);
            }
            assert forall|a: int, b: int| 0 <= a < b < rids@.len() implies rids@[a] < rids@[b] by {
                assert(out[a].key == out[b].key);
                assert(crate::shape::rank_of(out[a]) < crate::shape::rank_of(out[b]));
            }
        }
        rids
    }
}

/// Below a node of an index hangs a page at every height down to the leaves.
#[verifier::spinoff_prover]
proof fn lemma_path(pg: Seq<Seq<u8>>, sh: Shape, t: int, c: int, p: int) -> (path: Seq<int>)
    requires
        image_inv(pg, sh, tight()),
        0 <= p < pg.len(),
        in_tree(sh.kinds[p], t, c),
    ensures
        path.len() == node_height(sh.kinds[p]) + 1,
        forall|i: int| 0 <= i < path.len() ==> 0 <= #[trigger] path[i] < pg.len() && node_height(sh.kinds[path[i]]) == i,
    decreases node_height(sh.kinds[p]),
{
    lemma_descend(pg, sh, t, c, p, tight());
    if node_height(sh.kinds[p]) == 0 {
        seq![p]
    } else {
        crate::remove::lemma_min_two(pg, sh, t, c, p);
        assert(child_ok(pg, sh, p, 0));
        let below = lemma_path(pg, sh, t, c, node_at(pg[p]).entries[0].child as int);
        below.push(p)
    }
}

/// A tree is lower than the file has pages.
#[verifier::spinoff_prover]
pub proof fn lemma_height_bound(pg: Seq<Seq<u8>>, sh: Shape, t: int, c: int, p: int)
    requires
        image_inv(pg, sh, tight()),
        0 <= p < pg.len(),
        in_tree(sh.kinds[p], t, c),
    ensures
        node_height(sh.kinds[p]) < pg.len(),
{
    let path = lemma_path(pg, sh, t, c, p);
    assert(path.no_duplicates());
    path.unique_seq_to_set();
    vstd::set_lib::lemma_int_range(0, pg.len() as int);
    assert(path.to_set().subset_of(vstd::set_lib::set_int_range(0, pg.len() as int))) by {
        assert forall|x: int| path.to_set().contains(x) implies vstd::set_lib::set_int_range(0, pg.len() as int).contains(x) by {
            let i = choose|i: int| 0 <= i < path.len() && path[i] == x;
            assert(0 <= path[i] < pg.len());
        }
    }
    vstd::set_lib::lemma_len_subset(path.to_set(), vstd::set_lib::set_int_range(0, pg.len() as int));
}

impl Db {
    /// The height of the index on column `c` of the table whose table-meta page
    /// is `t`: the number of levels above its leaves.
    #[verifier::spinoff_prover]
    pub fn index_height(&self, t: usize, c: usize) -> (h: usize)
        requires
            self.wf(),
            self.is_table(t as nat),
            c < self.table(t as nat).cols.len(),
            self.table(t as nat).cols[c as int].index != NONE,
        ensures
            h == self.shape().trees[(t as nat, c as nat)].height,
            h < self.page_count(),
    {
        let ghost pg = self.image();
        let ghost sh = self.shape();
        proof {
            lemma_root_facts(pg, sh, t as int, c as int);
            lemma_height_bound(pg, sh, t as int, c as int, root_of(pg, t as int, c as int));
        }
        let mut p: usize = read_col_of(self, t, c).index as usize;
        let mut h: usize = 0;
        loop
            invariant
                self.wf(),
                pg == self.image(),
                sh == self.shape(),
                0 < p < pg.len(),
                in_tree(sh.kinds[p as int], t as int, c as int),
                h + node_height(sh.kinds[p as int]) == sh.trees[(t as nat, c as nat)].height,
                sh.trees[(t as nat, c as nat)].height < pg.len(),
            ensures
                h == sh.trees[(t as nat, c as nat)].height,
            decreases node_height(sh.kinds[p as int]),
        {
            proof {
                lemma_descend(pg, sh, t as int, c as int, p as int, tight());
            }
            let node = load_node(self.get_page(p));
            if node.leaf {
                break;
            }
            proof {
                crate::remove::lemma_min_two(pg, sh, t as int, c as int, p as int);
                assert(child_ok(pg, sh, p as int, 0));
                assert(node@.entries == evs(node.entries@));
                assert(node@.entries[0] == node.entries@[0]@);
            }
            p = node.entries[0].child as usize;
            h += 1;
        }
        h
    }
}

} // verus!
