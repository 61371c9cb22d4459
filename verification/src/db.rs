//! The pager: the database image as a sequence of pages, and the free-page list.

use vstd::prelude::*;
use crate::shape::tight;
use crate::error::{Error, Result};
use crate::layout::{MAGIC_LEN, MAX_PAGE, NONE, PAGE_SIZE, get32, get_bytes, le32, magic, magic_bytes, put32, put_bytes, same_outside, zero_page};
use crate::meta::{FIRST_FREE_OFF, first_free, has_magic, lemma_magic_same, lemma_meta_frame, read_first_free, table_num, tables, write_first_free, write_table_num};
use crate::shape::{Kind, Relax, Shape, apart, dir_ok_at, entries_of, foreign_ok_at, free_ok_at, holds, image_inv, is_structural, page_ok, pager_inv, structure_inv, unique_ok_at};

verus! {

/// A database held in memory: its pages and the name of the file it belongs to.
pub struct Db {
    pub(crate) pages: Vec<Vec<u8>>,
    pub(crate) path: String,
    pub(crate) shape: Ghost<Shape>,
}

/// The pages of a file image.
pub open spec fn paginate(bytes: Seq<u8>) -> Seq<Seq<u8>> {
    Seq::new((bytes.len() / PAGE_SIZE as nat) as nat, |p: int| bytes.subrange(p * PAGE_SIZE, p * PAGE_SIZE + PAGE_SIZE))
}

/// The file image made of the given pages.
pub open spec fn flatten(pg: Seq<Seq<u8>>) -> Seq<u8> {
    Seq::new(pg.len() * PAGE_SIZE as nat, |i: int| pg[i / PAGE_SIZE as int][i % PAGE_SIZE as int])
}

/// The image of a database that was just created: one page that holds the
/// format tag, an empty free list and an empty table directory.
pub open spec fn fresh_page() -> Seq<u8> {
    Seq::new(
        PAGE_SIZE as nat,
        |i: int|
            if i < MAGIC_LEN {
                magic_bytes()[i]
            } else if i < MAGIC_LEN + 4 {
                0xFFu8
            } else {
                0u8
            },
    )
}

/// Whether a file image obeys every rule of the format.
pub open spec fn consistent(bytes: Seq<u8>) -> bool {
    exists|sh: Shape| image_inv(paginate(bytes), sh, tight())
}

/// The page the next allocation returns: the head of the free list, or the
/// first page past the end of the file.
pub open spec fn next_page(free: Seq<nat>, pages: nat) -> nat {
    if free.len() > 0 {
        free.last()
    } else {
        pages
    }
}

/// The free list after an allocation.
pub open spec fn free_after_allocate(free: Seq<nat>) -> Seq<nat> {
    if free.len() > 0 {
        free.drop_last()
    } else {
        free
    }
}

/// The free list after page `id` was given back.
pub open spec fn free_after_deallocate(free: Seq<nat>, id: nat) -> Seq<nat> {
    free.push(id)
}

/// Pages that can still be handed out: those on the free list, and those by
/// which the file can still grow.
pub open spec fn room_of(pg: Seq<Seq<u8>>, sh: Shape) -> int {
    sh.free.len() + MAX_PAGE - pg.len()
}

/// Every page that the pager had handed out, and that has no role yet, is still
/// such a page and holds the same bytes.
#[verifier::opaque]
pub open spec fn loose_kept(pg: Seq<Seq<u8>>, sh: Shape, pg2: Seq<Seq<u8>>, sh2: Shape) -> bool {
    forall|p: int| 0 <= p < pg.len() && (#[trigger] sh.kinds[p]) is Loose ==> p < pg2.len() && sh2.kinds[p] is Loose && pg2[p] == pg[p]
}

/// The shape after an allocation that returned `id`.
pub open spec fn shape_after_allocate(sh: Shape, id: nat) -> Shape {
    Shape {
        kinds: if sh.free.len() > 0 {
            sh.kinds.update(id as int, Kind::Loose)
        } else {
            sh.kinds.push(Kind::Loose)
        },
        free: free_after_allocate(sh.free),
        ..sh
    }
}

/// The shape after page `id` was given back.
pub open spec fn shape_after_deallocate(sh: Shape, id: nat) -> Shape {
    Shape { kinds: sh.kinds.update(id as int, Kind::Free { height: sh.free.len() }), free: sh.free.push(id), ..sh }
}

/// Changes to pages that belong to no structure, and new pages at the end,
/// leave every structure as it was.
#[verifier::spinoff_prover]
pub proof fn lemma_structure_frame(pg: Seq<Seq<u8>>, sh: Shape, pg2: Seq<Seq<u8>>, sh2: Shape, relax: Relax)
    requires
        structure_inv(pg, sh, relax),
        1 <= pg.len() <= pg2.len(),
        sh.kinds.len() == pg.len(),
        sh2.kinds.len() == pg2.len(),
        !is_structural(sh.kinds[0]),
        tables(pg2[0]) == tables(pg[0]),
        sh2.heaps == sh.heaps,
        sh2.trees == sh.trees,
        forall|p: int| 0 <= p < pg.len() && is_structural(#[trigger] sh.kinds[p]) ==> pg2[p] == pg[p] && sh2.kinds[p] == sh.kinds[p],
        forall|p: int| 0 <= p < pg2.len() && is_structural(#[trigger] sh2.kinds[p]) ==> p < pg.len() && sh.kinds[p] == sh2.kinds[p],
    ensures
        structure_inv(pg2, sh2, relax),
{
    reveal(structure_inv);
    let tabs = tables(pg[0]);
    assert forall|t: int| 0 <= t < tabs.len() implies #[trigger] dir_ok_at(pg2, sh2, t) by {
        assert(dir_ok_at(pg, sh, t));
    }
    assert forall|p: int| 0 <= p < pg2.len() implies #[trigger] page_ok(pg2, sh2, p, relax) by {
        if is_structural(sh2.kinds[p]) {
            assert(page_ok(pg, sh, p, relax));
            lemma_page_frame(pg, sh, pg2, sh2, relax, p);
        }
    }
    assert forall|p: int, q: int| 0 <= p < sh2.kinds.len() && 0 <= q < sh2.kinds.len() implies #[trigger] apart(sh2, p, q) by {
        if sh2.kinds[p] is Node && sh2.kinds[q] is Node {
            assert(apart(sh, p, q));
        }
    }
    assert forall|t: int, c: int| 0 <= t < tabs.len() && 0 <= c < crate::shape::table_of(pg2, tabs[t].meta as int).cols.len() implies #[trigger] foreign_ok_at(pg2, t, c) by {
        assert(dir_ok_at(pg, sh, t));
        assert(foreign_ok_at(pg, t, c));
        let ft = crate::shape::table_of(pg, tabs[t].meta as int).cols[c].foreign_table;
        if ft != crate::layout::NO_TABLE {
            assert(dir_ok_at(pg, sh, ft as int));
        }
    }
    assert forall|t: int, c: int| 0 <= t < pg2.len() implies #[trigger] unique_ok_at(pg2, sh2, t, c) by {
        if sh2.kinds[t] is Table {
            assert(unique_ok_at(pg, sh, t, c));
            lemma_entries_frame(pg, sh, pg2, sh2, t as nat, c as nat);
        }
    }
}

/// The entries of an index depend on its leaves alone.
#[verifier::spinoff_prover]
pub proof fn lemma_entries_frame(pg: Seq<Seq<u8>>, sh: Shape, pg2: Seq<Seq<u8>>, sh2: Shape, t: nat, c: nat)
    requires
        sh.kinds.len() == pg.len(),
        sh2.kinds.len() == pg2.len(),
        forall|p: int| 0 <= p < pg.len() && #[trigger] crate::shape::is_leaf_of(sh, p, t, c) ==> p < pg2.len() && pg2[p] == pg[p] && crate::shape::is_leaf_of(sh2, p, t, c),
        forall|p: int| 0 <= p < pg2.len() && #[trigger] crate::shape::is_leaf_of(sh2, p, t, c) ==> p < pg.len() && crate::shape::is_leaf_of(sh, p, t, c),
    ensures
        entries_of(pg2, sh2, t, c) == entries_of(pg, sh, t, c),
{
    assert forall|e: (Seq<u8>, u32)| entries_of(pg2, sh2, t, c).contains(e) == entries_of(pg, sh, t, c).contains(e) by {
        if entries_of(pg2, sh2, t, c).contains(e) {
            let (p, i) = choose|p: int, i: int| #[trigger] holds(pg2, sh2, t, c, p, i, e);
            assert(crate::shape::is_leaf_of(sh2, p, t, c));
            assert(pg2[p] == pg[p]);
            assert(holds(pg, sh, t, c, p, i, e));
        }
        if entries_of(pg, sh, t, c).contains(e) {
            let (p, i) = choose|p: int, i: int| #[trigger] holds(pg, sh, t, c, p, i, e);
            assert(crate::shape::is_leaf_of(sh, p, t, c));
            assert(pg2[p] == pg[p]);
            assert(holds(pg2, sh2, t, c, p, i, e));
        }
    }
    assert(entries_of(pg2, sh2, t, c) =~= entries_of(pg, sh, t, c));
}

#[verifier::spinoff_prover]
proof fn lemma_page_frame(pg: Seq<Seq<u8>>, sh: Shape, pg2: Seq<Seq<u8>>, sh2: Shape, relax: Relax, p: int)
    requires
        page_ok(pg, sh, p, relax),
        0 <= p < pg.len(),
        1 <= pg.len() <= pg2.len(),
        sh.kinds.len() == pg.len(),
        sh2.kinds.len() == pg2.len(),
        is_structural(sh.kinds[p]),
        sh2.heaps == sh.heaps,
        sh2.trees == sh.trees,
        forall|q: int| 0 <= q < pg.len() && is_structural(#[trigger] sh.kinds[q]) ==> pg2[q] == pg[q] && sh2.kinds[q] == sh.kinds[q],
    ensures
        page_ok(pg2, sh2, p, relax),
{
    match sh.kinds[p] {
        Kind::Table { slot } => {
            let heap = sh.heaps[p as nat];
            let tv = crate::shape::table_of(pg, p);
            assert forall|i: int| 0 <= i < heap.ring.len() implies #[trigger] crate::shape::ring_ok_at(pg2, sh2, p, i) by {
                assert(crate::shape::ring_ok_at(pg, sh, p, i));
            }
            assert forall|j: int| 0 <= j < heap.chain.len() implies #[trigger] crate::shape::chain_ok_at(pg2, sh2, p, j) by {
                assert(crate::shape::chain_ok_at(pg, sh, p, j));
            }
            assert forall|c: int| 0 <= c < tv.cols.len() implies #[trigger] crate::shape::root_ok_at(pg2, sh2, p, c) by {
                assert(crate::shape::root_ok_at(pg, sh, p, c));
            }
        },
        Kind::Data { table, pos, link } => {},
        Kind::Node { table, col, height, parent, slot, lo, hi } => {
            let n = crate::node::node_at(pg[p]).entries.len();
            if height > 0 {
                assert forall|i: int| 0 <= i < n implies #[trigger] crate::shape::child_ok(pg2, sh2, p, i) by {
                    assert(crate::shape::child_ok(pg, sh, p, i));
                }
            }
        },
        _ => {},
    }
}

impl Db {
    /// The pages of the database.
    pub closed spec fn image(&self) -> Seq<Seq<u8>> {
        Seq::new(self.pages@.len(), |p: int| self.pages@[p]@)
    }

    /// The roles of the pages and the lists that thread through them.
    pub closed spec fn shape(&self) -> Shape {
        self.shape@
    }

    pub closed spec fn spec_path(&self) -> Seq<char> {
        self.path@
    }

    /// Number of pages.
    pub open spec fn page_count(&self) -> nat {
        self.image().len()
    }

    /// The free pages; the last one is the next to be handed out.
    pub open spec fn free_list(&self) -> Seq<nat> {
        self.shape().free
    }

    /// Pages that can still be handed out.
    pub open spec fn room(&self) -> int {
        room_of(self.image(), self.shape())
    }

    /// The rules of the pager hold.
    pub open spec fn pager_ok(&self) -> bool {
        pager_inv(self.image(), self.shape())
    }

    /// Every rule of the format holds.
    pub open spec fn wf(&self) -> bool {
        image_inv(self.image(), self.shape(), tight())
    }

    /// Page `id` was handed out by the pager and belongs to no structure.
    pub open spec fn is_loose(&self, id: nat) -> bool {
        id < self.page_count() && self.shape().kinds[id as int] is Loose
    }

    /// A new database for the file called `path`: a single page with the format
    /// tag, an empty free list and no tables.
    #[verifier::spinoff_prover]
    pub fn create(path: &str) -> (db: Db)
        ensures
            db.wf(),
            db.image() == seq![fresh_page()],
            db.free_list().len() == 0,
            db.spec_path() == path@,
    {
        let mut page = zero_page();
        let m = magic();
        put_bytes(&mut page, 0, m.as_slice());
        put32(&mut page, MAGIC_LEN, NONE);
        proof {
            assert(page@ =~= fresh_page());
            lemma_fresh_page();
        }
        let mut pages: Vec<Vec<u8>> = Vec::new();
        pages.push(page);
        let ghost sh = Shape { kinds: seq![Kind::Meta], free: Seq::empty(), heaps: Map::empty(), trees: Map::empty() };
        let db = Db { pages, path: path.to_owned(), shape: Ghost(sh) };
        proof {
            assert(db.image() =~= seq![fresh_page()]);
            lemma_fresh_image();
            assert(db.shape() == fresh_shape());
        }
        db
    }

    /// Opens the file image `bytes` of the file called `path`.
    ///
    /// Fails with `InvalidSize` unless the length is a positive multiple of the
    /// page size, then with `InvalidMagic` unless the image starts with the format
    /// tag. The pages are taken as they are; if the image is consistent, the
    /// database is well-formed.
    #[verifier::spinoff_prover]
    pub fn open(path: &str, bytes: Vec<u8>) -> (r: Result<Db>)
        ensures
            match r {
                Ok(db) => {
                    &&& bytes.len() > 0 && bytes.len() % PAGE_SIZE == 0
                    &&& has_magic(bytes@)
                    &&& db.image() == paginate(bytes@)
                    &&& db.page_count() == bytes.len() / PAGE_SIZE
                    &&& db.spec_path() == path@
                    &&& consistent(bytes@) ==> db.wf()
                },
                Err(e) => {
                    if bytes.len() == 0 || bytes.len() % PAGE_SIZE != 0 {
                        e@ == crate::error::ErrorV::InvalidSize(bytes.len())
                    } else {
                        !has_magic(bytes@) && e@ == crate::error::ErrorV::InvalidMagic(bytes@.subrange(0, MAGIC_LEN as int))
                    }
                },
            },
    {
        let size: usize = bytes.len();
        if size == 0 || size % PAGE_SIZE != 0 {
            return Err(Error::InvalidSize(size));
        }
        let found = get_bytes(&bytes, 0, MAGIC_LEN);
        let m = magic();
        if !crate::layout::bytes_match(&bytes, 0, MAGIC_LEN, m.as_slice()) {
            return Err(Error::InvalidMagic(found));
        }
        let n: usize = size / PAGE_SIZE;
        let mut pages: Vec<Vec<u8>> = Vec::new();
        let mut p: usize = 0;
        while p < n
            invariant
                p <= n,
                n == size / PAGE_SIZE,
                size == bytes.len(),
                size % PAGE_SIZE == 0,
                pages@.len() == p,
                forall|q: int| 0 <= q < p ==> (#[trigger] pages@[q])@ == bytes@.subrange(q * PAGE_SIZE, q * PAGE_SIZE + PAGE_SIZE),
            decreases n - p,
        {
            pages.push(get_bytes(&bytes, p * PAGE_SIZE, PAGE_SIZE));
            p += 1;
        }
        let ghost pg = paginate(bytes@);
        let ghost sh = choose|sh: Shape| image_inv(pg, sh, tight());
        let db = Db { pages, path: path.to_owned(), shape: Ghost(sh) };
        proof {
            assert(db.image() =~= pg);
        }
        Ok(db)
    }

    /// The name of the file the database belongs to.
    #[verifier::spinoff_prover]
    pub fn path(&self) -> (r: &str)
        ensures
            r@ == self.spec_path(),
    {
        self.path.as_str()
    }

    /// The file image of the database.
    #[verifier::spinoff_prover]
    pub fn to_bytes(&self) -> (r: Vec<u8>)
        requires
            self.pager_ok(),
        ensures
            r@ == flatten(self.image()),
    {
        let mut r: Vec<u8> = Vec::new();
        let mut p: usize = 0;
        while p < self.pages.len()
            invariant
                p <= self.pages.len(),
                self.pager_ok(),
                r@.len() == p * PAGE_SIZE,
                forall|i: int| 0 <= i < p * PAGE_SIZE ==> #[trigger] r@[i] == self.image()[i / PAGE_SIZE as int][i % PAGE_SIZE as int],
            decreases self.pages.len() - p,
        {
            let page = &self.pages[p];
            assert(page@ == self.image()[p as int]);
            let mut k: usize = 0;
            while k < PAGE_SIZE
                invariant
                    k <= PAGE_SIZE,
                    p < self.pages.len(),
                    page@ == self.image()[p as int],
                    page.len() == PAGE_SIZE,
                    r@.len() == p * PAGE_SIZE + k,
                    forall|i: int| 0 <= i < p * PAGE_SIZE + k ==> #[trigger] r@[i] == self.image()[i / PAGE_SIZE as int][i % PAGE_SIZE as int],
                decreases PAGE_SIZE - k,
            {
                r.push(page[k]);
                k += 1;
            }
            p += 1;
        }
        assert(r@ =~= flatten(self.image()));
        r
    }

    /// Number of pages.
    #[verifier::spinoff_prover]
    pub fn pages(&self) -> (n: usize)
        ensures
            n == self.page_count(),
    {
        self.pages.len()
    }

    /// The bytes of page `page`.
    #[verifier::spinoff_prover]
    pub fn get_page(&self, page: usize) -> (r: &Vec<u8>)
        requires
            page < self.page_count(),
        ensures
            r@ == self.image()[page as int],
    {
        &self.pages[page]
    }

    #[verifier::spinoff_prover]
    pub(crate) fn take_page(&mut self, id: usize) -> (r: Vec<u8>)
        requires
            id < old(self).page_count(),
        ensures
            r@ == old(self).image()[id as int],
            final(self).image() == old(self).image().update(id as int, Seq::empty()),
            final(self).shape() == old(self).shape(),
            final(self).spec_path() == old(self).spec_path(),
    {
        let mut tmp: Vec<u8> = Vec::new();
        self.pages.set_and_swap(id, &mut tmp);
        assert(self.image() =~= old(self).image().update(id as int, Seq::empty()));
        tmp
    }

    #[verifier::spinoff_prover]
    pub(crate) fn put_page(&mut self, id: usize, page: Vec<u8>)
        requires
            id < old(self).page_count(),
        ensures
            final(self).image() == old(self).image().update(id as int, page@),
            final(self).shape() == old(self).shape(),
            final(self).spec_path() == old(self).spec_path(),
    {
        self.pages.set(id, page);
        assert(self.image() =~= old(self).image().update(id as int, page@));
    }

    #[verifier::spinoff_prover]
    pub(crate) fn push_page(&mut self, page: Vec<u8>)
        ensures
            final(self).image() == old(self).image().push(page@),
            final(self).shape() == old(self).shape(),
            final(self).spec_path() == old(self).spec_path(),
    {
        self.pages.push(page);
        assert(self.image() =~= old(self).image().push(page@));
    }

    #[verifier::spinoff_prover]
    pub(crate) fn set_shape(&mut self, sh: Ghost<Shape>)
        ensures
            final(self).image() == old(self).image(),
            final(self).shape() == sh@,
            final(self).spec_path() == old(self).spec_path(),
    {
        self.shape = sh;
    }

    /// Hands out a page: the head of the free list if there is one, else a new
    /// page at the end of the file. A page from the free list keeps its bytes; a
    /// new page is zero.
    #[verifier::spinoff_prover]
    pub fn allocate_page(&mut self) -> (id: usize)
        requires
            old(self).pager_ok(),
            old(self).free_list().len() > 0 || old(self).page_count() < MAX_PAGE,
        ensures
            final(self).pager_ok(),
            id == next_page(old(self).free_list(), old(self).page_count()),
            0 < id < final(self).page_count(),
            final(self).shape() == shape_after_allocate(old(self).shape(), id as nat),
            final(self).is_loose(id as nat),
            id < old(self).page_count() ==> old(self).shape().kinds[id as int] is Free,
            final(self).page_count() == old(self).page_count() + (if old(self).free_list().len() > 0 { 0int } else { 1 }),
            forall|p: int| 0 < p < old(self).page_count() ==> #[trigger] final(self).image()[p] == old(self).image()[p],
            old(self).free_list().len() == 0 ==> final(self).image()[id as int] == Seq::new(PAGE_SIZE as nat, |i: int| 0u8),
            tables(final(self).image()[0]) == tables(old(self).image()[0]),
            same_outside(old(self).image()[0], final(self).image()[0], FIRST_FREE_OFF as int, FIRST_FREE_OFF + 4),
            final(self).free_list() == free_after_allocate(old(self).free_list()),
            final(self).room() == old(self).room() - 1,
            final(self).spec_path() == old(self).spec_path(),
            old(self).wf() ==> final(self).wf(),
    {
        let ghost pg = self.image();
        let ghost sh = self.shape();
        let mut meta = self.take_page(0);
        let head: u32 = read_first_free(&meta);
        let id: usize;
        if head != NONE {
            id = head as usize;
            assert(sh.free.len() > 0);
            assert(free_ok_at(pg, sh, sh.free.len() - 1));
            assert(id == sh.free.last());
            self.put_page(0, meta);
            assert(self.image() =~= pg);
            let link: u32 = get32(self.get_page(id), 0);
            let mut meta2 = self.take_page(0);
            write_first_free(&mut meta2, link);
            self.put_page(0, meta2);
            self.set_shape(Ghost(shape_after_allocate(sh, id as nat)));
            proof {
                let pg2 = self.image();
                let sh2 = self.shape();
                assert(pg2 =~= pg.update(0, pg2[0]));
                assert forall|i: int| 0 <= i < sh2.free.len() implies #[trigger] free_ok_at(pg2, sh2, i) by {
                    assert(free_ok_at(pg, sh, i));
                }
                assert(pager_inv(pg2, sh2));
            }
        } else {
            proof {
                if sh.free.len() > 0 {
                    assert(free_ok_at(pg, sh, sh.free.len() - 1));
                }
            }
            self.put_page(0, meta);
            assert(self.image() =~= pg);
            id = self.pages.len();
            self.push_page(zero_page());
            self.set_shape(Ghost(shape_after_allocate(sh, id as nat)));
            proof {
                let pg2 = self.image();
                let sh2 = self.shape();
                assert(pg2 =~= pg.push(pg2[id as int]));
                assert forall|i: int| 0 <= i < sh2.free.len() implies #[trigger] free_ok_at(pg2, sh2, i) by {
                    assert(free_ok_at(pg, sh, i));
                }
                assert(pager_inv(pg2, sh2));
            }
        }
        proof {
            if old(self).wf() {
                lemma_structure_frame(pg, sh, self.image(), self.shape(), tight());
            }
        }
        id
    }

    /// Gives page `page` back to the pager. Its first four bytes become the link
    /// to the former head of the free list; the page is the next to be handed
    /// out.
    #[verifier::spinoff_prover]
    pub fn deallocate_page(&mut self, page: usize)
        requires
            old(self).pager_ok(),
            old(self).is_loose(page as nat),
        ensures
            final(self).pager_ok(),
            final(self).shape() == shape_after_deallocate(old(self).shape(), page as nat),
            final(self).free_list() == free_after_deallocate(old(self).free_list(), page as nat),
            final(self).page_count() == old(self).page_count(),
            forall|p: int| 0 < p < old(self).page_count() && p != page ==> #[trigger] final(self).image()[p] == old(self).image()[p],
            tables(final(self).image()[0]) == tables(old(self).image()[0]),
            same_outside(old(self).image()[0], final(self).image()[0], FIRST_FREE_OFF as int, FIRST_FREE_OFF + 4),
            first_free(final(self).image()[0]) == page,
            same_outside(old(self).image()[page as int], final(self).image()[page as int], 0, 4),
            le32(final(self).image()[page as int], 0) == first_free(old(self).image()[0]),
            final(self).spec_path() == old(self).spec_path(),
            old(self).wf() ==> final(self).wf(),
    {
        let ghost pg = self.image();
        let ghost sh = self.shape();
        let mut meta = self.take_page(0);
        let head: u32 = read_first_free(&meta);
        write_first_free(&mut meta, page as u32);
        self.put_page(0, meta);
        let mut target = self.take_page(page);
        put32(&mut target, 0, head);
        self.put_page(page, target);
        self.set_shape(Ghost(shape_after_deallocate(sh, page as nat)));
        proof {
            let pg2 = self.image();
            let sh2 = self.shape();
            assert(pg2 =~= pg.update(0, pg2[0]).update(page as int, pg2[page as int]));
            assert forall|i: int| 0 <= i < sh2.free.len() implies #[trigger] free_ok_at(pg2, sh2, i) by {
                if i < sh.free.len() {
                    assert(free_ok_at(pg, sh, i));
                }
            }
            assert(pager_inv(pg2, sh2));
            if old(self).wf() {
                lemma_structure_frame(pg, sh, pg2, sh2, tight());
            }
        }
    }
}

/// The shape of a database that was just created.
pub open spec fn fresh_shape() -> Shape {
    Shape { kinds: seq![Kind::Meta], free: Seq::empty(), heaps: Map::empty(), trees: Map::empty() }
}

#[verifier::spinoff_prover]
pub proof fn lemma_fresh_page()
    ensures
        has_magic(fresh_page()),
        first_free(fresh_page()) == NONE,
        table_num(fresh_page()) == 0,
        tables(fresh_page()).len() == 0,
{
    assert(fresh_page().subrange(0, MAGIC_LEN as int) =~= magic_bytes());
}

/// The image of a database that was just created obeys every rule.
#[verifier::spinoff_prover]
pub proof fn lemma_fresh_image()
    ensures
        image_inv(seq![fresh_page()], fresh_shape(), tight()),
{
    reveal(structure_inv);
    lemma_fresh_page();
    let pg = seq![fresh_page()];
    let sh = fresh_shape();
    assert(pager_inv(pg, sh));
    assert forall|p: int, q: int| 0 <= p < sh.kinds.len() && 0 <= q < sh.kinds.len() implies #[trigger] apart(sh, p, q) by {}
    assert(structure_inv(pg, sh, tight()));
}

} // verus!
