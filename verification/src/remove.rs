//! The steps of a deletion that restore the fill of a node.

use vstd::prelude::*;
use crate::shape::tight;
use crate::db::{Db, lemma_entries_frame, lemma_structure_frame};
use crate::delete::{is_under, under_at};
use crate::frames::{in_tree, index_touch};
use crate::insert::{is_above, kept_above, lemma_touch_twice, read_col_of};
use crate::layout::{MAX_COL, MAX_PAGE, NONE, PAGE_SIZE};
use crate::merge::{Merge, joined, lemma_merge, lemma_merge_above, merge_edit, merge_relax, merge_shape, merge_written};
use crate::node::{Entry, EntryV, IndexPage, NodeV, fit, load_node, node_at, storable};
use crate::release::{lemma_pager_quiet, lemma_quiet_views, lemma_touch_quiet, node_height, node_hi, node_lo, quiet};
use crate::search::{evs, keyed, lemma_decoded};
use crate::shape::{Kind, Relax, Shape, child_ok, entries_of, image_inv, leaf_links_ok, min_fill, node_ok, page_ok, pager_inv, parent_ok, root_ok_at, structure_inv, table_of};
use crate::shift::{Shift, both, lemma_shift, lemma_shift_facts, shift_edit, shift_facts, shift_shape, shift_written};
use crate::shrink::{Shrink, lemma_shrink, shrink_edit, shrink_relax, shrink_shape, shrink_written};
use crate::split::to_vec_key;
use crate::table::{col_num, lemma_col_frame, read_col, write_col};
use crate::tree::{lemma_descend, node_parent, node_written, root_of, width_of};

verus! {

/// What the rules give a step that works on the children at positions `i` and
/// `i + 1` of the node `p`, one of which holds one entry too few.
#[verifier::spinoff_prover]
pub proof fn lemma_pair_ready(pg: Seq<Seq<u8>>, sh: Shape, t: int, c: int, p: int, i: int, relax: Relax)
    requires
        image_inv(pg, sh, relax),
        0 < p < pg.len(),
        in_tree(sh.kinds[p], t, c),
        node_height(sh.kinds[p]) > 0,
        0 <= i,
        i + 1 < node_at(pg[p]).entries.len(),
        relax.over is None,
    ensures
        ({
            let l = node_at(pg[p]).entries[i].child as int;
            let r = node_at(pg[p]).entries[i + 1].child as int;
            let lv = node_at(pg[l]);
            let rv = node_at(pg[r]);
            let pv = node_at(pg[p]);
            let cap = sh.trees[(t as nat, c as nat)].cap as int;
            &&& pager_inv(pg, sh)
            &&& 0 < l < pg.len()
            &&& 0 < r < pg.len()
            &&& l != r
            &&& l != p
            &&& r != p
            &&& pg[l].len() == PAGE_SIZE
            &&& pg[r].len() == PAGE_SIZE
            &&& pg[p].len() == PAGE_SIZE
            &&& lv.leaf == rv.leaf
            &&& lv.key_size == pv.key_size
            &&& rv.key_size == pv.key_size
            &&& !pv.leaf
            &&& pv.cap == cap
            &&& 3 <= cap
            &&& cap < fit(pv.key_size as int, false)
            &&& cap < fit(pv.key_size as int, true)
            &&& lv.entries.len() <= cap
            &&& rv.entries.len() <= cap
            &&& lv.entries.len() + under(relax, l) >= min_fill(cap)
            &&& rv.entries.len() + under(relax, r) >= min_fill(cap)
            &&& in_tree(sh.kinds[l], t, c)
            &&& in_tree(sh.kinds[r], t, c)
            &&& lv.leaf ==> 0 < rv.next < pg.len() && pg[rv.next as int].len() == PAGE_SIZE && rv.next != p && rv.next != r
        }),
{
    lemma_descend(pg, sh, t, c, p, relax);
    assert(child_ok(pg, sh, p, i));
    assert(child_ok(pg, sh, p, i + 1));
    let l = node_at(pg[p]).entries[i].child as int;
    let r = node_at(pg[p]).entries[i + 1].child as int;
    lemma_descend(pg, sh, t, c, l, relax);
    lemma_descend(pg, sh, t, c, r, relax);
    crate::catalog::lemma_default_cap(width_of(pg, t, c) as int);
    reveal(structure_inv);
    assert(page_ok(pg, sh, t, relax));
    assert(root_ok_at(pg, sh, t, c));
    if node_at(pg[r]).leaf {
        assert(leaf_links_ok(pg, sh, r, width_of(pg, t, c)));
        lemma_descend(pg, sh, t, c, node_at(pg[r]).next as int, relax);
    }
}

/// A node above the leaves that is not under an exception has at least two
/// children.
#[verifier::spinoff_prover]
pub proof fn lemma_min_two(pg: Seq<Seq<u8>>, sh: Shape, t: int, c: int, p: int)
    requires
        image_inv(pg, sh, tight()),
        0 < p < pg.len(),
        in_tree(sh.kinds[p], t, c),
        node_height(sh.kinds[p]) > 0,
    ensures
        node_at(pg[p]).entries.len() >= 2,
        sh.trees[(t as nat, c as nat)].cap >= 3,
{
    lemma_descend(pg, sh, t, c, p, tight());
    reveal(structure_inv);
    assert(page_ok(pg, sh, t, tight()));
    assert(root_ok_at(pg, sh, t, c));
}

/// A node that is not the one under the exception holds enough entries.
#[verifier::spinoff_prover]
pub proof fn lemma_not_under(pg: Seq<Seq<u8>>, sh: Shape, t: int, c: int, p: int, relax: Relax)
    requires
        image_inv(pg, sh, relax),
        0 < p < pg.len(),
        in_tree(sh.kinds[p], t, c),
        relax.under != Some(p as nat),
    ensures
        !is_under(pg, sh, t, c, p),
        under_at(pg, sh, t, c, p) == tight(),
        sh.trees[(t as nat, c as nat)].cap >= 3,
        node_at(pg[p]).cap == sh.trees[(t as nat, c as nat)].cap,
{
    lemma_descend(pg, sh, t, c, p, relax);
    reveal(structure_inv);
    assert(page_ok(pg, sh, t, relax));
    assert(root_ok_at(pg, sh, t, c));
}

pub open spec fn under(relax: Relax, p: int) -> int {
    crate::shape::under(relax, p)
}

impl Db {
    /// Writes the children `l` and `r` of the node `p` so that `l` holds the first
    /// `k` of the entries of both, and records the first entry of `r` as its
    /// separator in `p`.
    #[verifier::spinoff_prover]
    fn shift_write(&mut self, p: usize, i: usize, l: usize, r: usize, k: usize)
        requires
            p < old(self).page_count(),
            l < old(self).page_count(),
            r < old(self).page_count(),
            r < MAX_PAGE,
            l != r,
            l != p,
            r != p,
            old(self).image()[p as int].len() == PAGE_SIZE,
            old(self).image()[l as int].len() == PAGE_SIZE,
            old(self).image()[r as int].len() == PAGE_SIZE,
            i + 1 < node_at(old(self).image()[p as int]).entries.len(),
            !node_at(old(self).image()[p as int]).leaf,
            node_at(old(self).image()[l as int]).leaf == node_at(old(self).image()[r as int]).leaf,
            node_at(old(self).image()[l as int]).key_size == node_at(old(self).image()[p as int]).key_size,
            node_at(old(self).image()[r as int]).key_size == node_at(old(self).image()[p as int]).key_size,
            1 <= k < node_at(old(self).image()[l as int]).entries.len() + node_at(old(self).image()[r as int]).entries.len(),
            k <= fit(node_at(old(self).image()[l as int]).key_size as int, node_at(old(self).image()[l as int]).leaf),
            node_at(old(self).image()[l as int]).entries.len() + node_at(old(self).image()[r as int]).entries.len() - k <= fit(
                node_at(old(self).image()[l as int]).key_size as int,
                node_at(old(self).image()[l as int]).leaf,
            ),
        ensures
            shift_written(old(self).image(), final(self).image(), Shift { t: 0, c: 0, p: p as int, i: i as int, l: l as int, r: r as int, k: k as int }),
            final(self).shape() == old(self).shape(),
            final(self).spec_path() == old(self).spec_path(),
    {
        let ghost pg = self.image();
        let ghost s = Shift { t: 0, c: 0, p: p as int, i: i as int, l: l as int, r: r as int, k: k as int };
        let ghost all = both(pg, s);
        proof {
            lemma_decoded(pg[l as int]);
            lemma_decoded(pg[r as int]);
            lemma_decoded(pg[p as int]);
        }
        let mut ln = load_node(self.get_page(l));
        let mut rn = load_node(self.get_page(r));
        assert(ln@.entries == evs(ln.entries@));
        assert(rn@.entries == evs(rn.entries@));
        ln.entries.append(&mut rn.entries);
        assert(evs(ln.entries@) =~= all);
        let right = ln.entries.split_off(k);
        assert(evs(right@)[0] == right@[0]@);
        let sep_key = to_vec_key(&right[0].key);
        let sep_rid: u32 = right[0].rid;
        rn.entries = right;
        proof {
            assert(ln@.entries =~= all.subrange(0, k as int));
            assert(rn@.entries =~= all.subrange(k as int, all.len() as int));
            assert(storable(ln@));
            assert(storable(rn@));
        }
        self.write_node(l, &ln);
        proof {
            reveal(node_written);
        }
        self.write_node(r, &rn);
        let mut pn = load_node(self.get_page(p));
        assert(pn@.entries == evs(pn.entries@));
        pn.entries.set(i + 1, Entry { key: sep_key, rid: sep_rid, child: r as u32 });
        proof {
            assert(pn@.entries =~= node_at(pg[p as int]).entries.update(i + 1, EntryV { key: all[k as int].key, rid: all[k as int].rid, child: r as u32 }));
            assert(storable(pn@));
        }
        self.write_node(p, &pn);
        proof {
            reveal(shift_written);
        }
    }

    /// Moves entries between the children at positions `i` and `i + 1` of the
    /// node `p`, one of which holds one entry too few, so that the left one holds
    /// `k` entries.
    #[verifier::spinoff_prover]
    pub(crate) fn shift_children(&mut self, p: usize, i: usize, k: usize, Ghost(t): Ghost<int>, Ghost(c): Ghost<int>, Ghost(relax): Ghost<Relax>)
        requires
            old(self).holds_but(relax),
            0 < p < old(self).page_count(),
            in_tree(old(self).shape().kinds[p as int], t, c),
            node_height(old(self).shape().kinds[p as int]) > 0,
            i + 1 < node_at(old(self).image()[p as int]).entries.len(),
            relax.over is None,
            relax.under == Some(node_at(old(self).image()[p as int]).entries[i as int].child as nat) || relax.under == Some(node_at(old(self).image()[p as int]).entries[i + 1].child as nat),
            ({
                let l = node_at(old(self).image()[p as int]).entries[i as int].child as int;
                let r = node_at(old(self).image()[p as int]).entries[i + 1].child as int;
                let cap = old(self).shape().trees[(t as nat, c as nat)].cap as int;
                let total = node_at(old(self).image()[l]).entries.len() + node_at(old(self).image()[r]).entries.len();
                min_fill(cap) <= k <= cap && min_fill(cap) <= total - k <= cap
            }),
        ensures
            final(self).wf(),
            index_touch(old(self).image(), old(self).shape(), final(self).image(), final(self).shape(), t, c),
            final(self).entries(t as nat, c as nat) == old(self).entries(t as nat, c as nat),
            final(self).shape().kinds[p as int] == old(self).shape().kinds[p as int],
            final(self).shape().trees == old(self).shape().trees,
            table_of(final(self).image(), t) == table_of(old(self).image(), t),
            final(self).page_count() == old(self).page_count(),
            node_at(final(self).image()[p as int]).entries.len() == node_at(old(self).image()[p as int]).entries.len(),
            kept_above(old(self).image(), old(self).shape(), final(self).image(), final(self).shape(), t, c, node_height(old(self).shape().kinds[p as int])),
            final(self).free_list() == old(self).free_list(),
            crate::db::loose_kept(old(self).image(), old(self).shape(), final(self).image(), final(self).shape()),
            final(self).spec_path() == old(self).spec_path(),
    {
        let ghost pg = self.image();
        let ghost sh = self.shape();
        proof {
            lemma_pair_ready(pg, sh, t, c, p as int, i as int, relax);
        }
        let pn = load_node(self.get_page(p));
        assert(pn@.entries[i as int] == pn.entries@[i as int]@);
        assert(pn@.entries[i + 1] == pn.entries@[i + 1]@);
        let l: usize = pn.entries[i].child as usize;
        let r: usize = pn.entries[i + 1].child as usize;
        self.shift_write(p, i, l, r, k);
        let ghost s = Shift { t, c, p: p as int, i: i as int, l: l as int, r: r as int, k: k as int };
        self.set_shape(Ghost(shift_shape(pg, sh, s)));
        proof {
            let pg2 = self.image();
            let sh2 = self.shape();
            assert(shift_written(pg, pg2, s)) by {
                reveal(shift_written);
            }
            assert(shift_edit(pg, sh, pg2, sh2, s, relax)) by {
                reveal(shift_edit);
            }
            lemma_shift(pg, sh, pg2, sh2, s, relax);
            crate::shift::lemma_shift_loose(pg, sh, pg2, sh2, s, relax);
            assert forall|q: int| #[trigger] is_above(sh, t, c, q, node_height(sh.kinds[p as int])) implies q < pg.len() && q < pg2.len() && pg2[q] == pg[q] && sh2.kinds[q] == sh.kinds[q] by {
                crate::shift::lemma_shift_above(pg, sh, pg2, sh2, s, relax, q);
            }
        }
    }
}

/// What the rules give the removal of a root before it starts.
#[verifier::spinoff_prover]
pub proof fn lemma_shrink_ready(pg: Seq<Seq<u8>>, sh: Shape, t: int, c: int)
    requires
        image_inv(pg, sh, Relax { over: None, under: Some(root_of(pg, t, c) as nat) }),
        0 < t < pg.len(),
        sh.kinds[t] is Table,
        0 <= c < table_of(pg, t).cols.len(),
        table_of(pg, t).cols[c].index != NONE,
        is_under(pg, sh, t, c, root_of(pg, t, c)),
    ensures
        pager_inv(pg, sh),
        0 < root_of(pg, t, c) < pg.len(),
        root_of(pg, t, c) != t,
        pg[root_of(pg, t, c)].len() == PAGE_SIZE,
        pg[t].len() == PAGE_SIZE,
        c < col_num(pg[t]),
        c < MAX_COL,
        in_tree(sh.kinds[root_of(pg, t, c)], t, c),
        node_height(sh.kinds[root_of(pg, t, c)]) > 0,
        node_at(pg[root_of(pg, t, c)]).entries.len() == 1,
        0 < node_at(pg[root_of(pg, t, c)]).entries[0].child < pg.len(),
        node_at(pg[root_of(pg, t, c)]).entries[0].child != t,
        pg.len() <= MAX_PAGE,
{
    let relax = Relax { over: None, under: Some(root_of(pg, t, c) as nat) };
    reveal(structure_inv);
    assert(page_ok(pg, sh, t, relax));
    assert(root_ok_at(pg, sh, t, c));
    lemma_descend(pg, sh, t, c, root_of(pg, t, c), relax);
    assert(child_ok(pg, sh, root_of(pg, t, c), 0));
    lemma_descend(pg, sh, t, c, node_at(pg[root_of(pg, t, c)]).entries[0].child as int, relax);
}

/// Giving a page of no structure back to the pager leaves the rules of the
/// structures as they were, whatever exception they are under.
#[verifier::spinoff_prover]
pub proof fn lemma_freed(pg: Seq<Seq<u8>>, sh: Shape, pg2: Seq<Seq<u8>>, sh2: Shape, page: int, relax: Relax, t: int, c: int)
    requires
        image_inv(pg, sh, relax),
        0 < page < pg.len(),
        sh.kinds[page] is Loose,
        pager_inv(pg2, sh2),
        sh2 == crate::db::shape_after_deallocate(sh, page as nat),
        pg2.len() == pg.len(),
        forall|p: int| 0 < p < pg.len() && p != page ==> #[trigger] pg2[p] == pg[p],
        crate::meta::tables(pg2[0]) == crate::meta::tables(pg[0]),
        0 < t < pg.len(),
        sh.kinds[t] is Table,
    ensures
        image_inv(pg2, sh2, relax),
        quiet(pg, sh, pg2, sh2),
        entries_of(pg2, sh2, t as nat, c as nat) == entries_of(pg, sh, t as nat, c as nat),
        table_of(pg2, t) == table_of(pg, t),
{
    lemma_structure_frame(pg, sh, pg2, sh2, relax);
    lemma_pager_quiet(pg, sh, pg2, sh2);
    lemma_quiet_views(pg, sh, pg2, sh2, t, c);
}

/// A page with a role that lost it and went back to the pager leaves alone the
/// pages that had no role before.
#[verifier::spinoff_prover]
pub proof fn lemma_loose_freed(pg: Seq<Seq<u8>>, sh: Shape, pg2: Seq<Seq<u8>>, sh2: Shape, pg3: Seq<Seq<u8>>, sh3: Shape, page: int)
    requires
        crate::db::loose_kept(pg, sh, pg2, sh2),
        !(sh.kinds[page] is Loose),
        sh.kinds[0] is Meta,
        0 <= page < pg.len(),
        sh2.kinds.len() == pg2.len(),
        pg2.len() == pg.len(),
        pg3.len() == pg2.len(),
        sh3 == crate::db::shape_after_deallocate(sh2, page as nat),
        forall|p: int| 0 < p < pg2.len() && p != page ==> #[trigger] pg3[p] == pg2[p],
    ensures
        crate::db::loose_kept(pg, sh, pg3, sh3),
{
    reveal(crate::db::loose_kept);
    assert forall|x: int| 0 <= x < pg.len() && (#[trigger] sh.kinds[x]) is Loose implies x < pg3.len() && sh3.kinds[x] is Loose && pg3[x] == pg[x] by {
        assert(x != page && x != 0);
        assert(sh2.kinds[x] is Loose && pg2[x] == pg[x]);
        assert(pg3[x] == pg2[x]);
    }
}

impl Db {
    /// Writes the left child `l` with the entries of both children and takes the
    /// right child `r` out of the node `p` and out of the ring of leaves.
    #[verifier::spinoff_prover]
    fn merge_write(&mut self, p: usize, i: usize, l: usize, r: usize)
        requires
            p < old(self).page_count(),
            l < old(self).page_count(),
            r < old(self).page_count(),
            l < MAX_PAGE,
            l != r,
            l != p,
            r != p,
            old(self).image()[p as int].len() == PAGE_SIZE,
            old(self).image()[l as int].len() == PAGE_SIZE,
            old(self).image()[r as int].len() == PAGE_SIZE,
            i + 1 < node_at(old(self).image()[p as int]).entries.len(),
            !node_at(old(self).image()[p as int]).leaf,
            node_at(old(self).image()[l as int]).leaf == node_at(old(self).image()[r as int]).leaf,
            node_at(old(self).image()[l as int]).key_size == node_at(old(self).image()[r as int]).key_size,
            node_at(old(self).image()[l as int]).entries.len() + node_at(old(self).image()[r as int]).entries.len() <= fit(
                node_at(old(self).image()[l as int]).key_size as int,
                node_at(old(self).image()[l as int]).leaf,
            ),
            node_at(old(self).image()[l as int]).leaf ==> {
                let nx = node_at(old(self).image()[r as int]).next;
                nx < old(self).page_count() && old(self).image()[nx as int].len() == PAGE_SIZE && nx != p && nx != r
            },
        ensures
            merge_written(old(self).image(), final(self).image(), Merge { t: 0, c: 0, p: p as int, i: i as int, l: l as int, r: r as int }),
            final(self).shape() == old(self).shape(),
            final(self).spec_path() == old(self).spec_path(),
    {
        let ghost pg = self.image();
        let ghost m = Merge { t: 0, c: 0, p: p as int, i: i as int, l: l as int, r: r as int };
        let ghost all = joined(pg, m);
        proof {
            lemma_decoded(pg[l as int]);
            lemma_decoded(pg[r as int]);
            lemma_decoded(pg[p as int]);
        }
        let mut ln = load_node(self.get_page(l));
        let mut rn = load_node(self.get_page(r));
        assert(ln@.entries == evs(ln.entries@));
        assert(rn@.entries == evs(rn.entries@));
        let nx: u32 = rn.next;
        let leaf: bool = ln.leaf;
        ln.entries.append(&mut rn.entries);
        if leaf {
            if nx as usize == l {
                ln.next = l as u32;
                ln.prev = l as u32;
            } else {
                ln.next = nx;
            }
        }
        proof {
            assert(ln@.entries =~= all);
            assert(storable(ln@));
        }
        self.write_node(l, &ln);
        proof {
            reveal(node_written);
        }
        if leaf && nx as usize != l {
            let mut nn = load_node(self.get_page(nx as usize));
            proof {
                lemma_decoded(pg[nx as int]);
            }
            nn.prev = l as u32;
            self.write_node(nx as usize, &nn);
        }
        let mut pn = load_node(self.get_page(p));
        assert(pn@.entries == evs(pn.entries@));
        let gone = pn.entries.remove(i + 1);
        proof {
            assert(pn@.entries =~= node_at(pg[p as int]).entries.remove(i + 1));
            assert(storable(pn@));
        }
        self.write_node(p, &pn);
        proof {
            reveal(merge_written);
        }
    }

    /// Merges the children at positions `i` and `i + 1` of the node `p`, one of
    /// which holds one entry too few, into the left one and gives the page of the
    /// right one back to the pager. Tells whether `p` now holds one entry too few.
    #[verifier::spinoff_prover]
    pub(crate) fn merge_children(&mut self, p: usize, i: usize, root: bool, Ghost(t): Ghost<int>, Ghost(c): Ghost<int>, Ghost(relax): Ghost<Relax>) -> (low: bool)
        requires
            old(self).holds_but(relax),
            0 < p < old(self).page_count(),
            in_tree(old(self).shape().kinds[p as int], t, c),
            node_height(old(self).shape().kinds[p as int]) > 0,
            root == (p == root_of(old(self).image(), t, c)),
            i + 1 < node_at(old(self).image()[p as int]).entries.len(),
            relax.over is None,
            relax.under == Some(node_at(old(self).image()[p as int]).entries[i as int].child as nat) || relax.under == Some(node_at(old(self).image()[p as int]).entries[i + 1].child as nat),
            ({
                let l = node_at(old(self).image()[p as int]).entries[i as int].child as int;
                let r = node_at(old(self).image()[p as int]).entries[i + 1].child as int;
                node_at(old(self).image()[l]).entries.len() + node_at(old(self).image()[r]).entries.len() <= old(self).shape().trees[(t as nat, c as nat)].cap
            }),
        ensures
            final(self).holds_but(under_at(final(self).image(), final(self).shape(), t, c, p as int)),
            low == is_under(final(self).image(), final(self).shape(), t, c, p as int),
            index_touch(old(self).image(), old(self).shape(), final(self).image(), final(self).shape(), t, c),
            final(self).entries(t as nat, c as nat) == old(self).entries(t as nat, c as nat),
            final(self).shape().kinds[p as int] == old(self).shape().kinds[p as int],
            final(self).shape().trees == old(self).shape().trees,
            table_of(final(self).image(), t) == table_of(old(self).image(), t),
            final(self).page_count() == old(self).page_count(),
            kept_above(old(self).image(), old(self).shape(), final(self).image(), final(self).shape(), t, c, node_height(old(self).shape().kinds[p as int])),
            final(self).free_list().len() == old(self).free_list().len() + 1,
            crate::db::loose_kept(old(self).image(), old(self).shape(), final(self).image(), final(self).shape()),
            final(self).spec_path() == old(self).spec_path(),
    {
        let ghost pg = self.image();
        let ghost sh = self.shape();
        proof {
            lemma_pair_ready(pg, sh, t, c, p as int, i as int, relax);
            lemma_descend(pg, sh, t, c, p as int, relax);
        }
        let pn = load_node(self.get_page(p));
        assert(pn@.entries[i as int] == pn.entries@[i as int]@);
        assert(pn@.entries[i + 1] == pn.entries@[i + 1]@);
        let l: usize = pn.entries[i].child as usize;
        let r: usize = pn.entries[i + 1].child as usize;
        let count: usize = pn.entries.len();
        let cap: usize = pn.cap as usize;
        self.merge_write(p, i, l, r);
        let ghost m = Merge { t, c, p: p as int, i: i as int, l: l as int, r: r as int };
        self.set_shape(Ghost(merge_shape(pg, sh, m)));
        let ghost pg2 = self.image();
        let ghost sh2 = self.shape();
        proof {
            assert(merge_written(pg, pg2, m)) by {
                reveal(merge_written);
            }
            assert(merge_edit(pg, sh, pg2, sh2, m, relax)) by {
                reveal(merge_edit);
            }
            lemma_merge(pg, sh, pg2, sh2, m, relax);
            assert(sh2.kinds[t] is Table && 0 < t < pg2.len()) by {
                crate::merge::lemma_merge_facts(pg, sh, pg2, sh2, m, relax);
            }
        }
        self.deallocate_page(r);
        proof {
            let pg3 = self.image();
            let sh3 = self.shape();
            lemma_freed(pg2, sh2, pg3, sh3, r as int, merge_relax(pg2, sh2, m), t, c);
            lemma_touch_quiet(pg, sh, pg2, sh2, pg3, sh3, t, c);
            crate::merge::lemma_merge_loose(pg, sh, pg2, sh2, m, relax);
            lemma_loose_freed(pg, sh, pg2, sh2, pg3, sh3, r as int);
            assert(pg3[p as int] == pg2[p as int]);
            assert(under_at(pg3, sh3, t, c, p as int) == under_at(pg2, sh2, t, c, p as int));
            assert forall|q: int| #[trigger] is_above(sh, t, c, q, node_height(sh.kinds[p as int])) implies q < pg.len() && q < pg3.len() && pg3[q] == pg[q] && sh3.kinds[q] == sh.kinds[q] by {
                lemma_merge_above(pg, sh, pg2, sh2, m, relax, q);
            }
        }
        if root {
            count - 1 < 2
        } else {
            count - 1 < (cap + 1) / 2
        }
    }

    /// Records `child` as the root of the index on column `c` of table `t`.
    #[verifier::spinoff_prover]
    fn shrink_write(&mut self, t: usize, c: usize, child: usize)
        requires
            t < old(self).page_count(),
            child < MAX_PAGE,
            c < col_num(old(self).image()[t as int]),
            c < MAX_COL,
            old(self).image()[t as int].len() == PAGE_SIZE,
        ensures
            shrink_written(old(self).image(), final(self).image(), Shrink { t: t as int, c: c as int, root: 0, child: child as int }),
            final(self).shape() == old(self).shape(),
            final(self).spec_path() == old(self).spec_path(),
    {
        let ghost pg = self.image();
        let mut ci = read_col(self.get_page(t), c);
        ci.index = child as u32;
        let mut head = self.take_page(t);
        write_col(&mut head, c, &ci);
        proof {
            lemma_col_frame(t as u32, pg[t as int], head@, c as int);
        }
        self.put_page(t, head);
        proof {
            reveal(shrink_written);
        }
    }

    /// Makes the only child of the root of the index on column `c` of table `t`
    /// the root and gives the page of the old root back to the pager.
    #[verifier::spinoff_prover]
    pub(crate) fn shrink_root(&mut self, t: usize, c: usize)
        requires
            old(self).holds_but(Relax { over: None, under: Some(root_of(old(self).image(), t as int, c as int) as nat) }),
            old(self).is_table(t as nat),
            c < old(self).table(t as nat).cols.len(),
            old(self).table(t as nat).cols[c as int].index != NONE,
            is_under(old(self).image(), old(self).shape(), t as int, c as int, root_of(old(self).image(), t as int, c as int)),
        ensures
            final(self).wf(),
            index_touch(old(self).image(), old(self).shape(), final(self).image(), final(self).shape(), t as int, c as int),
            final(self).entries(t as nat, c as nat) == old(self).entries(t as nat, c as nat),
            final(self).page_count() == old(self).page_count(),
            final(self).free_list().len() == old(self).free_list().len() + 1,
            crate::db::loose_kept(old(self).image(), old(self).shape(), final(self).image(), final(self).shape()),
            final(self).table(t as nat).cols[c as int].index != NONE,
            final(self).shape().trees[(t as nat, c as nat)].height <= old(self).shape().trees[(t as nat, c as nat)].height,
            final(self).spec_path() == old(self).spec_path(),
    {
        let ghost pg = self.image();
        let ghost sh = self.shape();
        proof {
            lemma_shrink_ready(pg, sh, t as int, c as int);
        }
        let root: usize = read_col(self.get_page(t), c).index as usize;
        let rn = load_node(self.get_page(root));
        assert(rn@.entries[0] == rn.entries@[0]@);
        let child: usize = rn.entries[0].child as usize;
        self.shrink_write(t, c, child);
        let ghost k = Shrink { t: t as int, c: c as int, root: root as int, child: child as int };
        self.set_shape(Ghost(shrink_shape(sh, k)));
        let ghost pg2 = self.image();
        let ghost sh2 = self.shape();
        proof {
            assert(shrink_written(pg, pg2, k)) by {
                reveal(shrink_written);
            }
            assert(shrink_edit(pg, sh, pg2, sh2, k)) by {
                reveal(shrink_edit);
            }
            lemma_shrink(pg, sh, pg2, sh2, k);
            assert(sh2.kinds[t as int] is Table) by {
                crate::shrink::lemma_shrink_facts(pg, sh, pg2, sh2, k);
            }
            crate::shrink::lemma_shrink_after(pg, sh, pg2, sh2, k);
        }
        self.deallocate_page(root);
        proof {
            let pg3 = self.image();
            let sh3 = self.shape();
            lemma_freed(pg2, sh2, pg3, sh3, root as int, tight(), t as int, c as int);
            lemma_touch_quiet(pg, sh, pg2, sh2, pg3, sh3, t as int, c as int);
            crate::shrink::lemma_shrink_loose(pg, sh, pg2, sh2, k);
            lemma_loose_freed(pg, sh, pg2, sh2, pg3, sh3, root as int);
        }
    }
}

} // verus!
