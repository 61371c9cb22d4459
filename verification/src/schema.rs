//! Column types, table definitions and row identifiers.

use vstd::prelude::*;
use crate::layout::{MAX_PAGE, MAX_SLOT, MIN_SLOT_SIZE};

verus! {

/// The semantic type of a column, without its width.
#[derive(Debug, Clone, Copy, PartialEq, Eq, Structural)]
pub enum BareTy {
    Int,
    Bool,
    Float,
    Date,
    Char,
    VarChar,
}

/// A column type; `size` is the declared width of `Char` and `VarChar` and is
/// ignored for the other types.
#[derive(Debug, Clone, Copy, PartialEq, Eq, Structural)]
pub struct ColTy {
    pub ty: BareTy,
    pub size: u8,
}

/// Bytes a value of this type occupies in a row.
pub open spec fn storage(t: ColTy) -> int {
    match t.ty {
        BareTy::Int | BareTy::Float | BareTy::Date => 4,
        BareTy::Bool => 1,
        BareTy::Char => t.size as int,
        BareTy::VarChar => 4 + t.size as int,
    }
}

/// Whether a value of this type must start at a multiple of four.
pub open spec fn aligned(t: ColTy) -> bool {
    match t.ty {
        BareTy::Int | BareTy::Float | BareTy::Date | BareTy::VarChar => true,
        BareTy::Bool | BareTy::Char => false,
    }
}

/// Whether a column of type `own` may reference a column of type `foreign`:
/// two string types where the referencing one is at least as wide, or the same
/// fixed-width type on both sides.
pub open spec fn compatible(own: ColTy, foreign: ColTy) -> bool {
    let own_str = own.ty == BareTy::Char || own.ty == BareTy::VarChar;
    let foreign_str = foreign.ty == BareTy::Char || foreign.ty == BareTy::VarChar;
    if own_str || foreign_str {
        own_str && foreign_str && own.size >= foreign.size
    } else {
        own.ty == foreign.ty
    }
}

impl ColTy {
    #[verifier::spinoff_prover]
    pub fn size(&self) -> (r: u16)
        ensures
            r == storage(*self),
    {
        match self.ty {
            BareTy::Int | BareTy::Float | BareTy::Date => 4,
            BareTy::Bool => 1,
            BareTy::Char => self.size as u16,
            BareTy::VarChar => 4 + self.size as u16,
        }
    }

    #[verifier::spinoff_prover]
    pub fn align4(&self) -> (r: bool)
        ensures
            r == aligned(*self),
    {
        match self.ty {
            BareTy::Int | BareTy::Float | BareTy::Date | BareTy::VarChar => true,
            BareTy::Bool | BareTy::Char => false,
        }
    }

    #[verifier::spinoff_prover]
    pub fn compatible_with(&self, foreign: &ColTy) -> (r: bool)
        ensures
            r == compatible(*self, *foreign),
    {
        let own_str = matches!(self.ty, BareTy::Char | BareTy::VarChar);
        let foreign_str = matches!(foreign.ty, BareTy::Char | BareTy::VarChar);
        if own_str || foreign_str {
            own_str && foreign_str && self.size >= foreign.size
        } else {
            self.ty == foreign.ty
        }
    }
}

/// `x` rounded up to a multiple of four.
pub open spec fn round4(x: int) -> int {
    (x + 3) / 4 * 4
}

/// Bytes of the null bitset in front of a row with `n` columns.
pub open spec fn null_bytes(n: int) -> int {
    (n + 31) / 32 * 4
}

/// Byte offset of column `i` in a row whose columns have types `tys`.
pub open spec fn col_offset(tys: Seq<ColTy>, i: int) -> int
    decreases i,
{
    if i < 0 || i >= tys.len() {
        0
    } else {
        let start = if i == 0 {
            null_bytes(tys.len() as int)
        } else {
            col_offset(tys, i - 1) + storage(tys[i - 1])
        };
        if aligned(tys[i]) {
            round4(start)
        } else {
            start
        }
    }
}

/// First byte after column `i`; for `i == -1`, first byte after the null bitset.
pub open spec fn col_end(tys: Seq<ColTy>, i: int) -> int {
    if i < 0 {
        null_bytes(tys.len() as int)
    } else {
        col_offset(tys, i) + storage(tys[i])
    }
}

/// Size of a row slot: the end of the last column rounded up to four, and at
/// least the minimum slot size.
pub open spec fn row_size(tys: Seq<ColTy>) -> int {
    let raw = round4(col_end(tys, tys.len() - 1));
    if raw < MIN_SLOT_SIZE as int {
        MIN_SLOT_SIZE as int
    } else {
        raw
    }
}

/// One column of a table definition.
#[derive(Debug, Clone, Copy)]
pub struct ColDecl<'a> {
    pub name: &'a str,
    pub ty: ColTy,
    pub notnull: bool,
}

/// What a table constraint demands of its column.
#[derive(Debug, Clone, Copy)]
pub enum TableConsKind<'a> {
    Primary,
    Foreign { table: &'a str, col: &'a str },
}

/// A constraint on the column called `name`.
#[derive(Debug, Clone, Copy)]
pub struct TableCons<'a> {
    pub name: &'a str,
    pub kind: TableConsKind<'a>,
}

/// A table definition.
#[derive(Debug, Clone)]
pub struct CreateTable<'a> {
    pub name: &'a str,
    pub cols: Vec<ColDecl<'a>>,
    pub cons: Vec<TableCons<'a>>,
}

/// The identity of a row: a page and a slot on it, packed into 32 bits with the
/// page in the upper 23 bits and the slot in the lower 9.
#[derive(Debug, Clone, Copy, PartialEq, Eq, Structural)]
pub struct Rid {
    pub raw: u32,
}

impl Rid {
    pub open spec fn spec_page(self) -> u32 {
        self.raw / 512
    }

    pub open spec fn spec_slot(self) -> u32 {
        self.raw % 512
    }

    pub open spec fn make(page: int, slot: int) -> Rid {
        Rid { raw: (page * 512 + slot) as u32 }
    }

    #[verifier::spinoff_prover]
    pub fn new(page: u32, slot: u32) -> (r: Rid)
        requires
            page < MAX_PAGE,
            slot < MAX_SLOT,
        ensures
            r == Rid::make(page as int, slot as int),
            r.spec_page() == page,
            r.spec_slot() == slot,
    {
        Rid { raw: page * 512 + slot }
    }

    #[verifier::when_used_as_spec(spec_page)]
    #[verifier::spinoff_prover]
    pub fn page(self) -> (p: u32)
        ensures
            p == self.spec_page(),
            p < MAX_PAGE,
    {
        self.raw / 512
    }

    #[verifier::when_used_as_spec(spec_slot)]
    #[verifier::spinoff_prover]
    pub fn slot(self) -> (s: u32)
        ensures
            s == self.spec_slot(),
            s < MAX_SLOT,
    {
        self.raw % 512
    }
}

} // verus!
