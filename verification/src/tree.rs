//! Walking down an index, and what every change to a tree has to re-establish.

use vstd::prelude::*;
use crate::shape::tight;
use crate::db::Db;
use crate::frames::{in_tree, index_touch, lemma_index_touch, relax_in, sized, tree_ok};
use crate::heap::lemma_table_facts;
use crate::key::{lemma_rank_bound, rank, top};
use crate::layout::{MAX_COL, MAX_PAGE, NONE, PAGE_SIZE};
use crate::node::{EntryV, IndexPage, NodeV, load_node, node_at, storable, store_node};
use crate::release::{lemma_nodes_ok, lemma_root_facts, node_height, node_hi, node_lo, nodes_ok};
use crate::search::{child_for, evs, keyed, lemma_decoded};
use crate::shape::{Kind, Relax, Shape, child_ok, image_inv, key_width, leaf_links_ok, min_fill, node_ok, over, page_ok, pager_inv, parent_ok, rank_of, root_ok_at, sorted, structure_inv, table_of, under, within};
use crate::table::read_col;

verus! {

pub open spec fn node_parent(k: Kind) -> int {
    match k {
        Kind::Node { parent, .. } => parent as int,
        _ => 0,
    }
}

pub open spec fn node_slot(k: Kind) -> int {
    match k {
        Kind::Node { slot, .. } => slot as int,
        _ => 0,
    }
}

/// The role `k` with another parent and slot.
pub open spec fn rehung(k: Kind, parent: int, slot: int) -> Kind {
    match k {
        Kind::Node { table, col, height, lo, hi, .. } => Kind::Node { table, col, height, parent: parent as nat, slot: slot as nat, lo, hi },
        _ => k,
    }
}

/// The role `k` with another range.
pub open spec fn ranged(k: Kind, lo: int, hi: int) -> Kind {
    match k {
        Kind::Node { table, col, height, parent, slot, .. } => Kind::Node { table, col, height, parent, slot, lo, hi },
        _ => k,
    }
}

/// The key width of the index on column `c` of table `t`.
pub open spec fn width_of(pg: Seq<Seq<u8>>, t: int, c: int) -> nat {
    key_width(table_of(pg, t).cols[c].ty) as nat
}

/// The root of the index on column `c` of table `t`.
pub open spec fn root_of(pg: Seq<Seq<u8>>, t: int, c: int) -> int {
    table_of(pg, t).cols[c].index as int
}

/// How the pages change when the node `nv` is written to page `p`.
#[verifier::opaque]
pub open spec fn node_written(pg: Seq<Seq<u8>>, pg2: Seq<Seq<u8>>, p: int, nv: NodeV) -> bool {
    &&& pg2.len() == pg.len()
    &&& forall|q: int| 0 <= q < pg2.len() && q != p ==> #[trigger] pg2[q] == pg[q]
    &&& pg2[p].len() == PAGE_SIZE
    &&& node_at(pg2[p]) == nv
}

/// What a change to a tree leaves of the catalog and of the tree's own record:
/// the table, the column with its type and root, and the height and fan-out.
pub open spec fn tree_same(pg: Seq<Seq<u8>>, sh: Shape, pg2: Seq<Seq<u8>>, sh2: Shape, t: int, c: int) -> bool {
    &&& sized(pg, sh)
    &&& sized(pg2, sh2)
    &&& pg.len() <= pg2.len()
    &&& 0 < t < pg.len()
    &&& sh.kinds[t] is Table
    &&& sh2.kinds[t] is Table
    &&& 0 <= c < table_of(pg, t).cols.len()
    &&& table_of(pg2, t) == table_of(pg, t)
    &&& sh2.trees.dom().contains((t as nat, c as nat))
    &&& sh2.trees[(t as nat, c as nat)] == sh.trees[(t as nat, c as nat)]
}

/// A node that kept its entries and its range obeys the rules if its
/// neighbours still answer to it.
#[verifier::spinoff_prover]
pub proof fn lemma_node_moved(pg: Seq<Seq<u8>>, sh: Shape, pg2: Seq<Seq<u8>>, sh2: Shape, t: int, c: int, relax: Relax, relax2: Relax, q: int)
    requires
        tree_same(pg, sh, pg2, sh2, t, c),
        0 <= q < pg.len(),
        in_tree(sh.kinds[q], t, c),
        node_ok(pg, sh, q, relax),
        node_at(pg2[q]).entries == node_at(pg[q]).entries,
        node_at(pg2[q]).leaf == node_at(pg[q]).leaf,
        node_at(pg2[q]).cap == node_at(pg[q]).cap,
        node_at(pg2[q]).key_size == node_at(pg[q]).key_size,
        sh2.kinds[q] == rehung(sh.kinds[q], node_parent(sh2.kinds[q]), node_slot(sh2.kinds[q])),
        over(relax2, q) >= over(relax, q),
        under(relax2, q) >= under(relax, q),
        q == root_of(pg, t, c) ==> sh2.kinds[q] == sh.kinds[q],
        q != root_of(pg, t, c) ==> parent_ok(pg2, sh2, q),
        node_height(sh.kinds[q]) > 0 ==> forall|i: int| 0 <= i < node_at(pg[q]).entries.len() ==> #[trigger] child_ok(pg2, sh2, q, i),
        node_height(sh.kinds[q]) == 0 ==> leaf_links_ok(pg2, sh2, q, width_of(pg, t, c)),
    ensures
        node_ok(pg2, sh2, q, relax2),
{
}

/// What the rules give a walk that stands at the node `p` with an entry of rank
/// `x` in its range.
#[verifier::spinoff_prover]
pub proof fn lemma_descend(pg: Seq<Seq<u8>>, sh: Shape, t: int, c: int, p: int, relax: Relax)
    requires
        image_inv(pg, sh, relax),
        0 <= p < pg.len(),
        in_tree(sh.kinds[p], t, c),
    ensures
        node_ok(pg, sh, p, relax),
        pg[p].len() == PAGE_SIZE,
        sorted(node_at(pg[p]).entries),
        keyed(node_at(pg[p]).entries, width_of(pg, t, c) as int),
        node_at(pg[p]).key_size == width_of(pg, t, c),
        node_at(pg[p]).leaf == (node_height(sh.kinds[p]) == 0),
        0 < p,
        pg.len() <= MAX_PAGE,
{
    reveal(structure_inv);
    assert(page_ok(pg, sh, p, relax));
    lemma_decoded(pg[p]);
}

/// What the rules give for the child that a walk takes from the internal node
/// `p`.
#[verifier::spinoff_prover]
pub proof fn lemma_step_down(pg: Seq<Seq<u8>>, sh: Shape, t: int, c: int, p: int, i: int, x: int, relax: Relax)
    requires
        image_inv(pg, sh, relax),
        0 <= p < pg.len(),
        in_tree(sh.kinds[p], t, c),
        node_height(sh.kinds[p]) > 0,
        0 <= i < node_at(pg[p]).entries.len(),
        rank_of(node_at(pg[p]).entries[i]) <= x < node_hi(sh.kinds[p]),
        i + 1 < node_at(pg[p]).entries.len() ==> x < rank_of(node_at(pg[p]).entries[i + 1]),
    ensures
        0 < node_at(pg[p]).entries[i].child < pg.len(),
        in_tree(sh.kinds[node_at(pg[p]).entries[i].child as int], t, c),
        node_height(sh.kinds[node_at(pg[p]).entries[i].child as int]) == node_height(sh.kinds[p]) - 1,
        node_lo(sh.kinds[node_at(pg[p]).entries[i].child as int]) <= x < node_hi(sh.kinds[node_at(pg[p]).entries[i].child as int]),
        node_parent(sh.kinds[node_at(pg[p]).entries[i].child as int]) == p,
        node_slot(sh.kinds[node_at(pg[p]).entries[i].child as int]) == i,
{
    lemma_descend(pg, sh, t, c, p, relax);
    assert(child_ok(pg, sh, p, i));
}

impl Db {
    /// Writes a node to page `p`.
    #[verifier::spinoff_prover]
    pub(crate) fn write_node(&mut self, p: usize, node: &IndexPage)
        requires
            p < old(self).page_count(),
            old(self).image()[p as int].len() == PAGE_SIZE,
            storable(node@),
        ensures
            node_written(old(self).image(), final(self).image(), p as int, node@),
            final(self).shape() == old(self).shape(),
            final(self).spec_path() == old(self).spec_path(),
    {
        let mut page = self.take_page(p);
        store_node(&mut page, node);
        self.put_page(p, page);
        proof {
            reveal(node_written);
        }
    }

    /// The column `c` of the table whose table-meta page is `t` has an index,
    /// and `key` has the width of its keys.
    pub open spec fn indexed(&self, t: nat, c: nat, key: Seq<u8>) -> bool {
        &&& self.is_table(t)
        &&& c < self.table(t).cols.len()
        &&& self.table(t).cols[c as int].index != NONE
        &&& key.len() == key_width(self.table(t).cols[c as int].ty)
    }

    /// The leaf of the index on column `c` of table `t` in whose range the entry
    /// `(key, rid)` lies.
    #[verifier::spinoff_prover]
    pub(crate) fn find_leaf(&self, t: usize, c: usize, key: &[u8], rid: u32) -> (p: usize)
        requires
            self.wf(),
            self.indexed(t as nat, c as nat, key@),
        ensures
            0 < p < self.page_count(),
            in_tree(self.shape().kinds[p as int], t as int, c as int),
            node_height(self.shape().kinds[p as int]) == 0,
            node_lo(self.shape().kinds[p as int]) <= rank(key@, rid) < node_hi(self.shape().kinds[p as int]),
    {
        let ghost pg = self.image();
        let ghost sh = self.shape();
        let ghost x = rank(key@, rid);
        proof {
            lemma_root_facts(pg, sh, t as int, c as int);
            lemma_rank_bound(key@, rid);
        }
        let mut p: usize = read_col(self.get_page(t), c).index as usize;
        loop
            invariant
                self.wf(),
                pg == self.image(),
                sh == self.shape(),
                x == rank(key@, rid),
                self.indexed(t as nat, c as nat, key@),
                0 < p < pg.len(),
                in_tree(sh.kinds[p as int], t as int, c as int),
                node_lo(sh.kinds[p as int]) <= x < node_hi(sh.kinds[p as int]),
            ensures
                0 < p < pg.len(),
                in_tree(sh.kinds[p as int], t as int, c as int),
                node_height(sh.kinds[p as int]) == 0,
                node_lo(sh.kinds[p as int]) <= x < node_hi(sh.kinds[p as int]),
            decreases node_height(sh.kinds[p as int]),
        {
            proof {
                lemma_descend(pg, sh, t as int, c as int, p as int, tight());
            }
            let node = load_node(self.get_page(p));
            if node.leaf {
                break;
            }
            assert(node@.entries == evs(node.entries@));
            let i: usize = child_for(&node.entries, key, rid);
            proof {
                lemma_step_down(pg, sh, t as int, c as int, p as int, i as int, x, tight());
                assert(node@.entries[i as int] == node.entries@[i as int]@);
            }
            p = node.entries[i].child as usize;
        }
        p
    }
}

} // verus!
