//! Layout of a table-meta page: the head of the table's ring of data pages and
//! its column catalog.
//!
//! ```text
//! 0..4    prev: u32        last data page of the ring, or this page
//! 4..8    next: u32        first data page of the ring, or this page
//! 8..12   first_free: u32  head of the chain of pages with a free slot
//! 12..14  size: u16        bytes per row slot
//! 14..16  cap: u16         slots per data page
//! 16      col_num: u8
//! 20..    cols[MAX_COL], 36 bytes each:
//!           +0 index: u32   +4 off: u16   +6 ty: u8   +7 ty size: u8
//!           +8 flags: u8    +9 foreign_table: u8   +10 foreign_col: u8
//!           +11 name_len: u8   +12 name: [u8; 24]
//! ```

use vstd::prelude::*;
use crate::layout::{MAX_COL, MAX_COL_NAME, PAGE_SIZE, bytes_match, get16, get32, get_bytes, le16, le32, put16, put32, put8, put_bytes, same_inside, same_outside};
use crate::schema::{BareTy, ColTy};

verus! {

pub const TP_PREV: usize = 0;

pub const TP_NEXT: usize = 4;

pub const TP_FIRST_FREE: usize = 8;

pub const TP_SIZE: usize = 12;

pub const TP_CAP: usize = 14;

pub const TP_COL_NUM: usize = 16;

pub const COLS_OFF: usize = 20;

pub const COL_INFO_SIZE: usize = 36;

/// The constraint flags of a column.
#[derive(Debug, Clone, Copy, PartialEq, Eq, Structural)]
pub struct ColFlags {
    pub notnull: bool,
    pub primary: bool,
    pub unique: bool,
}

/// Catalog entry of one column.
#[derive(Debug, Clone, PartialEq, Eq)]
pub struct ColInfo {
    pub ty: ColTy,
    /// Byte offset of the column inside a row slot.
    pub off: u16,
    pub flags: ColFlags,
    /// Root page of the column's index, or `NONE`.
    pub index: u32,
    /// Directory position of the referenced table, or `NO_TABLE`.
    pub foreign_table: u8,
    /// Position of the referenced column in its table.
    pub foreign_col: u8,
    pub name: Vec<u8>,
}

pub struct ColInfoV {
    pub ty: ColTy,
    pub off: u16,
    pub flags: ColFlags,
    pub index: u32,
    pub foreign_table: u8,
    pub foreign_col: u8,
    pub name: Seq<u8>,
}

impl View for ColInfo {
    type V = ColInfoV;

    open spec fn view(&self) -> ColInfoV {
        ColInfoV {
            ty: self.ty,
            off: self.off,
            flags: self.flags,
            index: self.index,
            foreign_table: self.foreign_table,
            foreign_col: self.foreign_col,
            name: self.name@,
        }
    }
}

/// A table-meta page read out of the image, together with its page id.
#[derive(Debug, Clone, PartialEq, Eq)]
pub struct TablePage {
    pub id: u32,
    pub prev: u32,
    pub next: u32,
    pub first_free: u32,
    pub size: u16,
    pub cap: u16,
    pub cols: Vec<ColInfo>,
}

pub struct TablePageV {
    pub id: u32,
    pub prev: u32,
    pub next: u32,
    pub first_free: u32,
    pub size: u16,
    pub cap: u16,
    pub cols: Seq<ColInfoV>,
}

impl View for TablePage {
    type V = TablePageV;

    open spec fn view(&self) -> TablePageV {
        TablePageV {
            id: self.id,
            prev: self.prev,
            next: self.next,
            first_free: self.first_free,
            size: self.size,
            cap: self.cap,
            cols: Seq::new(self.cols@.len(), |c: int| self.cols@[c]@),
        }
    }
}

pub open spec fn decode_ty(b: u8) -> BareTy {
    if b == 0 {
        BareTy::Int
    } else if b == 1 {
        BareTy::Bool
    } else if b == 2 {
        BareTy::Float
    } else if b == 3 {
        BareTy::Date
    } else if b == 4 {
        BareTy::Char
    } else {
        BareTy::VarChar
    }
}

pub open spec fn encode_ty(t: BareTy) -> u8 {
    match t {
        BareTy::Int => 0,
        BareTy::Bool => 1,
        BareTy::Float => 2,
        BareTy::Date => 3,
        BareTy::Char => 4,
        BareTy::VarChar => 5,
    }
}

pub open spec fn decode_flags(b: u8) -> ColFlags {
    ColFlags { notnull: b % 2 == 1, primary: b / 2 % 2 == 1, unique: b / 4 % 2 == 1 }
}

pub open spec fn encode_flags(f: ColFlags) -> u8 {
    ((if f.notnull { 1int } else { 0 }) + (if f.primary { 2int } else { 0 }) + (if f.unique { 4int } else { 0 })) as u8
}

/// Catalog entry `c` of a table-meta page, live or not.
pub open spec fn col_at(s: Seq<u8>, c: int) -> ColInfoV {
    let off = COLS_OFF + COL_INFO_SIZE * c;
    let n = s[off + 11] as int;
    let len = if n < MAX_COL_NAME {
        n
    } else {
        MAX_COL_NAME - 1
    };
    ColInfoV {
        ty: ColTy { ty: decode_ty(s[off + 6]), size: s[off + 7] },
        off: le16(s, off + 4),
        flags: decode_flags(s[off + 8]),
        index: le32(s, off),
        foreign_table: s[off + 9],
        foreign_col: s[off + 10],
        name: s.subrange(off + 12, off + 12 + len),
    }
}

/// Number of live columns; a stored count beyond the catalog's capacity reads
/// as a full catalog.
pub open spec fn col_num(s: Seq<u8>) -> int {
    let n = s[TP_COL_NUM as int] as int;
    if n <= MAX_COL {
        n
    } else {
        MAX_COL as int
    }
}

/// The table-meta page stored in `s`, seen as the page with id `id`.
pub open spec fn table_page_at(id: u32, s: Seq<u8>) -> TablePageV {
    TablePageV {
        id,
        prev: le32(s, TP_PREV as int),
        next: le32(s, TP_NEXT as int),
        first_free: le32(s, TP_FIRST_FREE as int),
        size: le16(s, TP_SIZE as int),
        cap: le16(s, TP_CAP as int),
        cols: Seq::new(col_num(s) as nat, |c: int| col_at(s, c)),
    }
}

#[verifier::spinoff_prover]
pub proof fn lemma_col_same(a: Seq<u8>, b: Seq<u8>, c: int)
    requires
        0 <= c < MAX_COL,
        a.len() == PAGE_SIZE,
        b.len() == PAGE_SIZE,
        same_inside(a, b, COLS_OFF + COL_INFO_SIZE * c, COLS_OFF + COL_INFO_SIZE * c + COL_INFO_SIZE),
    ensures
        col_at(b, c) == col_at(a, c),
{
    assert(col_at(b, c).name =~= col_at(a, c).name);
}

/// A write that stays inside the first twelve bytes changes the three links and
/// nothing else.
#[verifier::spinoff_prover]
pub proof fn lemma_links_frame(id: u32, a: Seq<u8>, b: Seq<u8>)
    requires
        a.len() == PAGE_SIZE,
        b.len() == PAGE_SIZE,
        same_outside(a, b, 0, TP_SIZE as int),
    ensures
        table_page_at(id, b) == (TablePageV {
            prev: le32(b, TP_PREV as int),
            next: le32(b, TP_NEXT as int),
            first_free: le32(b, TP_FIRST_FREE as int),
            ..table_page_at(id, a)
        }),
{
    assert forall|c: int| 0 <= c < MAX_COL implies col_at(b, c) == col_at(a, c) by {
        lemma_col_same(a, b, c);
    }
    assert(table_page_at(id, b).cols =~= table_page_at(id, a).cols);
}

/// A write that stays inside catalog entry `c` changes that entry and nothing
/// else.
#[verifier::spinoff_prover]
pub proof fn lemma_col_frame(id: u32, a: Seq<u8>, b: Seq<u8>, c: int)
    requires
        0 <= c < MAX_COL,
        a.len() == PAGE_SIZE,
        b.len() == PAGE_SIZE,
        same_outside(a, b, COLS_OFF + COL_INFO_SIZE * c, COLS_OFF + COL_INFO_SIZE * c + COL_INFO_SIZE),
    ensures
        col_num(b) == col_num(a),
        forall|d: int| 0 <= d < MAX_COL && d != c ==> #[trigger] col_at(b, d) == col_at(a, d),
        c < col_num(a) ==> table_page_at(id, b) == (TablePageV {
            cols: table_page_at(id, a).cols.update(c, col_at(b, c)),
            ..table_page_at(id, a)
        }),
        c >= col_num(a) ==> table_page_at(id, b) == table_page_at(id, a),
{
    assert forall|d: int| 0 <= d < MAX_COL && d != c implies #[trigger] col_at(b, d) == col_at(a, d) by {
        lemma_col_same(a, b, d);
    }
    if c < col_num(a) {
        assert(table_page_at(id, b).cols =~= table_page_at(id, a).cols.update(c, col_at(b, c)));
    } else {
        assert(table_page_at(id, b).cols =~= table_page_at(id, a).cols);
    }
}

#[verifier::spinoff_prover]
pub fn ty_code(t: BareTy) -> (b: u8)
    ensures
        b == encode_ty(t),
        decode_ty(b) == t,
{
    match t {
        BareTy::Int => 0,
        BareTy::Bool => 1,
        BareTy::Float => 2,
        BareTy::Date => 3,
        BareTy::Char => 4,
        BareTy::VarChar => 5,
    }
}

#[verifier::spinoff_prover]
pub fn ty_of_code(b: u8) -> (t: BareTy)
    ensures
        t == decode_ty(b),
{
    if b == 0 {
        BareTy::Int
    } else if b == 1 {
        BareTy::Bool
    } else if b == 2 {
        BareTy::Float
    } else if b == 3 {
        BareTy::Date
    } else if b == 4 {
        BareTy::Char
    } else {
        BareTy::VarChar
    }
}

#[verifier::spinoff_prover]
pub fn flags_code(f: ColFlags) -> (b: u8)
    ensures
        b == encode_flags(f),
        decode_flags(b) == f,
{
    let n: u8 = if f.notnull { 1 } else { 0 };
    let p: u8 = if f.primary { 2 } else { 0 };
    let u: u8 = if f.unique { 4 } else { 0 };
    n + p + u
}

#[verifier::spinoff_prover]
pub fn flags_of_code(b: u8) -> (f: ColFlags)
    ensures
        f == decode_flags(b),
{
    ColFlags { notnull: b % 2 == 1, primary: b / 2 % 2 == 1, unique: b / 4 % 2 == 1 }
}

#[verifier::spinoff_prover]
pub fn read_col_num(page: &Vec<u8>) -> (r: usize)
    requires
        page.len() == PAGE_SIZE,
    ensures
        r == col_num(page@),
        r <= MAX_COL,
{
    let n: u8 = page[TP_COL_NUM];
    if n as usize <= MAX_COL {
        n as usize
    } else {
        MAX_COL
    }
}

#[verifier::spinoff_prover]
pub fn read_col(page: &Vec<u8>, c: usize) -> (r: ColInfo)
    requires
        page.len() == PAGE_SIZE,
        c < MAX_COL,
    ensures
        r@ == col_at(page@, c as int),
{
    let off: usize = COLS_OFF + COL_INFO_SIZE * c;
    let n: usize = page[off + 11] as usize;
    let len: usize = if n < MAX_COL_NAME {
        n
    } else {
        MAX_COL_NAME - 1
    };
    ColInfo {
        ty: ColTy { ty: ty_of_code(page[off + 6]), size: page[off + 7] },
        off: get16(page, off + 4),
        flags: flags_of_code(page[off + 8]),
        index: get32(page, off),
        foreign_table: page[off + 9],
        foreign_col: page[off + 10],
        name: get_bytes(page, off + 12, len),
    }
}

#[verifier::spinoff_prover]
pub fn write_col(page: &mut Vec<u8>, c: usize, ci: &ColInfo)
    requires
        old(page).len() == PAGE_SIZE,
        c < MAX_COL,
        ci.name.len() < MAX_COL_NAME,
    ensures
        final(page).len() == PAGE_SIZE,
        col_at(final(page)@, c as int) == ci@,
        same_outside(old(page)@, final(page)@, COLS_OFF + COL_INFO_SIZE * c, COLS_OFF + COL_INFO_SIZE * c + COL_INFO_SIZE),
{
    let off: usize = COLS_OFF + COL_INFO_SIZE * c;
    put32(page, off, ci.index);
    put16(page, off + 4, ci.off);
    put8(page, off + 6, ty_code(ci.ty.ty));
    put8(page, off + 7, ci.ty.size);
    put8(page, off + 8, flags_code(ci.flags));
    put8(page, off + 9, ci.foreign_table);
    put8(page, off + 10, ci.foreign_col);
    put8(page, off + 11, ci.name.len() as u8);
    put_bytes(page, off + 12, ci.name.as_slice());
    proof {
        assert(le32(page@, off as int) == ci.index);
        assert(le16(page@, off + 4) == ci.off);
    }
}

/// Writes the scalar header of a table-meta page.
#[verifier::spinoff_prover]
pub fn write_table_head(page: &mut Vec<u8>, prev: u32, next: u32, first_free: u32, size: u16, cap: u16, cols: usize)
    requires
        old(page).len() == PAGE_SIZE,
        cols <= MAX_COL,
    ensures
        final(page).len() == PAGE_SIZE,
        le32(final(page)@, TP_PREV as int) == prev,
        le32(final(page)@, TP_NEXT as int) == next,
        le32(final(page)@, TP_FIRST_FREE as int) == first_free,
        le16(final(page)@, TP_SIZE as int) == size,
        le16(final(page)@, TP_CAP as int) == cap,
        col_num(final(page)@) == cols,
        same_outside(old(page)@, final(page)@, 0, COLS_OFF as int),
{
    put32(page, TP_PREV, prev);
    put32(page, TP_NEXT, next);
    put32(page, TP_FIRST_FREE, first_free);
    put16(page, TP_SIZE, size);
    put16(page, TP_CAP, cap);
    put8(page, TP_COL_NUM, cols as u8);
}

/// Rewrites the three links of a table-meta page.
#[verifier::spinoff_prover]
pub fn write_table_links(page: &mut Vec<u8>, prev: u32, next: u32, first_free: u32)
    requires
        old(page).len() == PAGE_SIZE,
    ensures
        final(page).len() == PAGE_SIZE,
        forall|id: u32| #[trigger] table_page_at(id, final(page)@) == (TablePageV { prev, next, first_free, ..table_page_at(id, old(page)@) }),
{
    put32(page, TP_PREV, prev);
    put32(page, TP_NEXT, next);
    put32(page, TP_FIRST_FREE, first_free);
    proof {
        assert forall|id: u32| #[trigger] table_page_at(id, page@) == (TablePageV { prev, next, first_free, ..table_page_at(id, old(page)@) }) by {
            lemma_links_frame(id, old(page)@, page@);
        }
    }
}

/// Reads a whole table-meta page.
#[verifier::spinoff_prover]
pub fn load_table_page(id: u32, page: &Vec<u8>) -> (tp: TablePage)
    requires
        page.len() == PAGE_SIZE,
    ensures
        tp@ == table_page_at(id, page@),
{
    let n: usize = read_col_num(page);
    let mut cols: Vec<ColInfo> = Vec::new();
    let mut c: usize = 0;
    while c < n
        invariant
            c <= n,
            n == col_num(page@),
            page.len() == PAGE_SIZE,
            cols@.len() == c,
            forall|d: int| 0 <= d < c ==> (#[trigger] cols@[d])@ == col_at(page@, d),
        decreases n - c,
    {
        cols.push(read_col(page, c));
        c += 1;
    }
    let tp = TablePage {
        id,
        prev: get32(page, TP_PREV),
        next: get32(page, TP_NEXT),
        first_free: get32(page, TP_FIRST_FREE),
        size: get16(page, TP_SIZE),
        cap: get16(page, TP_CAP),
        cols,
    };
    assert(tp@.cols =~= table_page_at(id, page@).cols);
    tp
}

/// Position of the first live column called `name`.
#[verifier::spinoff_prover]
pub fn find_col(page: &Vec<u8>, name: &[u8]) -> (r: Option<usize>)
    requires
        page.len() == PAGE_SIZE,
    ensures
        match r {
            Some(c) => c < col_num(page@) && col_at(page@, c as int).name == name@ && forall|d: int|
                0 <= d < c ==> (#[trigger] col_at(page@, d)).name != name@,
            None => forall|d: int| 0 <= d < col_num(page@) ==> (#[trigger] col_at(page@, d)).name != name@,
        },
{
    let n: usize = read_col_num(page);
    let mut c: usize = 0;
    while c < n
        invariant
            c <= n,
            n == col_num(page@),
            page.len() == PAGE_SIZE,
            forall|d: int| 0 <= d < c ==> (#[trigger] col_at(page@, d)).name != name@,
        decreases n - c,
    {
        let off: usize = COLS_OFF + COL_INFO_SIZE * c;
        let k: usize = page[off + 11] as usize;
        let len: usize = if k < MAX_COL_NAME {
            k
        } else {
            MAX_COL_NAME - 1
        };
        if bytes_match(page, off + 12, len, name) {
            return Some(c);
        }
        c += 1;
    }
    None
}

} // verus!
