//! Layout of the meta page (page 0): the format tag, the head of the free-page
//! list and the table directory.
//!
//! ```text
//! 0..16   format tag
//! 16..20  first_free: u32
//! 20      table_num: u8
//! 24..    tables[MAX_TABLE], 32 bytes each:
//!           +0 meta: u32   +4 name_len: u8   +5 name: [u8; 27]
//! ```

use vstd::prelude::*;
use crate::layout::{MAGIC_LEN, MAX_TABLE, MAX_TABLE_NAME, PAGE_SIZE, bytes_match, get32, get_bytes, le32, magic_bytes, put32, put8, put_bytes, same_inside, same_outside};

verus! {

pub const FIRST_FREE_OFF: usize = 16;

pub const TABLE_NUM_OFF: usize = 20;

pub const TABLES_OFF: usize = 24;

pub const TABLE_INFO_SIZE: usize = 32;

/// One entry of the table directory.
#[derive(Debug, Clone, PartialEq, Eq)]
pub struct TableInfo {
    /// Page id of the table's table-meta page.
    pub meta: u32,
    /// The table's name.
    pub name: Vec<u8>,
}

pub struct TableInfoV {
    pub meta: u32,
    pub name: Seq<u8>,
}

impl View for TableInfo {
    type V = TableInfoV;

    open spec fn view(&self) -> TableInfoV {
        TableInfoV { meta: self.meta, name: self.name@ }
    }
}

/// Whether a page starts with the format tag.
pub open spec fn has_magic(s: Seq<u8>) -> bool {
    s.subrange(0, MAGIC_LEN as int) == magic_bytes()
}

/// Head of the free-page list as stored in the meta page.
pub open spec fn first_free(s: Seq<u8>) -> u32 {
    le32(s, FIRST_FREE_OFF as int)
}

/// Number of live tables; a stored count beyond the directory's capacity reads
/// as a full directory.
pub open spec fn table_num(s: Seq<u8>) -> int {
    let n = s[TABLE_NUM_OFF as int] as int;
    if n <= MAX_TABLE {
        n
    } else {
        MAX_TABLE as int
    }
}

/// Directory entry `t`, live or not.
pub open spec fn table_info_at(s: Seq<u8>, t: int) -> TableInfoV {
    let off = TABLES_OFF + TABLE_INFO_SIZE * t;
    let n = s[off + 4] as int;
    let len = if n < MAX_TABLE_NAME {
        n
    } else {
        MAX_TABLE_NAME - 1
    };
    TableInfoV { meta: le32(s, off), name: s.subrange(off + 5, off + 5 + len) }
}

/// The live prefix of the table directory.
pub open spec fn tables(s: Seq<u8>) -> Seq<TableInfoV> {
    Seq::new(table_num(s) as nat, |t: int| table_info_at(s, t))
}

#[verifier::spinoff_prover]
pub proof fn lemma_table_info_same(a: Seq<u8>, b: Seq<u8>, t: int)
    requires
        0 <= t < MAX_TABLE,
        a.len() == PAGE_SIZE,
        b.len() == PAGE_SIZE,
        same_inside(a, b, TABLES_OFF + TABLE_INFO_SIZE * t, TABLES_OFF + TABLE_INFO_SIZE * t + TABLE_INFO_SIZE),
    ensures
        table_info_at(b, t) == table_info_at(a, t),
{
    assert(table_info_at(b, t).name =~= table_info_at(a, t).name);
}

#[verifier::spinoff_prover]
pub proof fn lemma_magic_same(a: Seq<u8>, b: Seq<u8>)
    requires
        a.len() == PAGE_SIZE,
        b.len() == PAGE_SIZE,
        same_inside(a, b, 0, MAGIC_LEN as int),
    ensures
        has_magic(b) == has_magic(a),
{
    assert(b.subrange(0, MAGIC_LEN as int) =~= a.subrange(0, MAGIC_LEN as int));
}

/// What a write to the meta page leaves alone when it stays inside `[lo, hi)`.
#[verifier::spinoff_prover]
pub proof fn lemma_meta_frame(a: Seq<u8>, b: Seq<u8>, lo: int, hi: int)
    requires
        a.len() == PAGE_SIZE,
        b.len() == PAGE_SIZE,
        same_outside(a, b, lo, hi),
        0 <= lo <= hi,
    ensures
        lo >= MAGIC_LEN ==> has_magic(b) == has_magic(a),
        lo >= FIRST_FREE_OFF + 4 || hi <= FIRST_FREE_OFF ==> first_free(b) == first_free(a),
        lo > TABLE_NUM_OFF || hi <= TABLE_NUM_OFF ==> table_num(b) == table_num(a),
        forall|t: int|
            0 <= t < MAX_TABLE && (hi <= TABLES_OFF + TABLE_INFO_SIZE * t || lo >= TABLES_OFF
                + TABLE_INFO_SIZE * t + TABLE_INFO_SIZE) ==> #[trigger] table_info_at(b, t)
                == table_info_at(a, t),
{
    if lo >= MAGIC_LEN {
        lemma_magic_same(a, b);
    }
    assert forall|t: int|
        0 <= t < MAX_TABLE && (hi <= TABLES_OFF + TABLE_INFO_SIZE * t || lo >= TABLES_OFF
            + TABLE_INFO_SIZE * t + TABLE_INFO_SIZE) implies #[trigger] table_info_at(b, t)
        == table_info_at(a, t) by {
        lemma_table_info_same(a, b, t);
    }
}

#[verifier::spinoff_prover]
pub fn read_first_free(page: &Vec<u8>) -> (r: u32)
    requires
        page.len() == PAGE_SIZE,
    ensures
        r == first_free(page@),
{
    get32(page, FIRST_FREE_OFF)
}

#[verifier::spinoff_prover]
pub fn write_first_free(page: &mut Vec<u8>, v: u32)
    requires
        old(page).len() == PAGE_SIZE,
    ensures
        final(page).len() == PAGE_SIZE,
        first_free(final(page)@) == v,
        has_magic(final(page)@) == has_magic(old(page)@),
        table_num(final(page)@) == table_num(old(page)@),
        tables(final(page)@) == tables(old(page)@),
        forall|t: int| 0 <= t < MAX_TABLE ==> #[trigger] table_info_at(final(page)@, t) == table_info_at(old(page)@, t),
        same_outside(old(page)@, final(page)@, FIRST_FREE_OFF as int, FIRST_FREE_OFF + 4),
{
    put32(page, FIRST_FREE_OFF, v);
    proof {
        lemma_meta_frame(old(page)@, page@, FIRST_FREE_OFF as int, FIRST_FREE_OFF + 4);
        assert(tables(page@) =~= tables(old(page)@));
    }
}

#[verifier::spinoff_prover]
pub fn read_table_num(page: &Vec<u8>) -> (r: usize)
    requires
        page.len() == PAGE_SIZE,
    ensures
        r == table_num(page@),
        r <= MAX_TABLE,
{
    let n: u8 = page[TABLE_NUM_OFF];
    if n as usize <= MAX_TABLE {
        n as usize
    } else {
        MAX_TABLE
    }
}

#[verifier::spinoff_prover]
pub fn write_table_num(page: &mut Vec<u8>, n: usize)
    requires
        old(page).len() == PAGE_SIZE,
        n <= MAX_TABLE,
    ensures
        final(page).len() == PAGE_SIZE,
        table_num(final(page)@) == n,
        first_free(final(page)@) == first_free(old(page)@),
        has_magic(final(page)@) == has_magic(old(page)@),
        forall|t: int| 0 <= t < MAX_TABLE ==> #[trigger] table_info_at(final(page)@, t) == table_info_at(old(page)@, t),
{
    put8(page, TABLE_NUM_OFF, n as u8);
    proof {
        lemma_meta_frame(old(page)@, page@, TABLE_NUM_OFF as int, TABLE_NUM_OFF + 1);
    }
}

#[verifier::spinoff_prover]
pub fn read_table_info(page: &Vec<u8>, t: usize) -> (r: TableInfo)
    requires
        page.len() == PAGE_SIZE,
        t < MAX_TABLE,
    ensures
        r@ == table_info_at(page@, t as int),
{
    let off: usize = TABLES_OFF + TABLE_INFO_SIZE * t;
    let n: usize = page[off + 4] as usize;
    let len: usize = if n < MAX_TABLE_NAME {
        n
    } else {
        MAX_TABLE_NAME - 1
    };
    TableInfo { meta: get32(page, off), name: get_bytes(page, off + 5, len) }
}

#[verifier::spinoff_prover]
pub fn write_table_info(page: &mut Vec<u8>, t: usize, meta: u32, name: &[u8])
    requires
        old(page).len() == PAGE_SIZE,
        t < MAX_TABLE,
        name.len() < MAX_TABLE_NAME,
    ensures
        final(page).len() == PAGE_SIZE,
        table_info_at(final(page)@, t as int) == (TableInfoV { meta, name: name@ }),
        forall|u: int| 0 <= u < MAX_TABLE && u != t ==> #[trigger] table_info_at(final(page)@, u) == table_info_at(old(page)@, u),
        table_num(final(page)@) == table_num(old(page)@),
        first_free(final(page)@) == first_free(old(page)@),
        has_magic(final(page)@) == has_magic(old(page)@),
{
    let off: usize = TABLES_OFF + TABLE_INFO_SIZE * t;
    put32(page, off, meta);
    let ghost s1 = page@;
    put8(page, off + 4, name.len() as u8);
    let ghost s2 = page@;
    put_bytes(page, off + 5, name);
    proof {
        assert(same_outside(old(page)@, page@, off as int, off + TABLE_INFO_SIZE));
        lemma_meta_frame(old(page)@, page@, off as int, off + TABLE_INFO_SIZE);
        assert(le32(page@, off as int) == meta);
        assert(page@[off + 4] == name.len() as u8);
    }
}

/// Position of the first live directory entry called `name`.
#[verifier::spinoff_prover]
pub fn find_table(page: &Vec<u8>, name: &[u8]) -> (r: Option<usize>)
    requires
        page.len() == PAGE_SIZE,
    ensures
        match r {
            Some(t) => t < table_num(page@) && tables(page@)[t as int].name == name@ && forall|u: int|
                0 <= u < t ==> (#[trigger] tables(page@)[u]).name != name@,
            None => forall|u: int| 0 <= u < table_num(page@) ==> (#[trigger] tables(page@)[u]).name != name@,
        },
{
    let n: usize = read_table_num(page);
    let mut t: usize = 0;
    while t < n
        invariant
            t <= n,
            n == table_num(page@),
            page.len() == PAGE_SIZE,
            forall|u: int| 0 <= u < t ==> (#[trigger] tables(page@)[u]).name != name@,
        decreases n - t,
    {
        let off: usize = TABLES_OFF + TABLE_INFO_SIZE * t;
        let k: usize = page[off + 4] as usize;
        let len: usize = if k < MAX_TABLE_NAME {
            k
        } else {
            MAX_TABLE_NAME - 1
        };
        if bytes_match(page, off + 5, len, name) {
            return Some(t);
        }
        t += 1;
    }
    None
}

} // verus!
