//! The ways an operation on the database can be refused.

use vstd::prelude::*;
use crate::schema::ColTy;

verus! {

/// A refusal. Every variant that names a table, a column or an index carries the
/// offending name.
#[derive(Debug, Clone, PartialEq, Eq)]
pub enum Error {
    /// The image length is zero or not a multiple of the page size.
    InvalidSize(usize),
    /// The image does not start with the format tag; carries what was found.
    InvalidMagic(Vec<u8>),
    TableExhausted,
    TableNameTooLong(String),
    DupTable(String),
    NoSuchTable(String),
    ColTooMany(usize),
    DupCol(String),
    ColNameTooLong(String),
    NoSuchCol(String),
    ColSizeTooBig(usize),
    ForeignKeyOnNonUnique(String),
    IncompatibleForeignTy { foreign: ColTy, own: ColTy },
    DropTableWithForeignLink(String),
    NoSuchIndex(String),
    DupIndex(String),
    DropIndexOnUnique(String),
    CreateIndexOnNonEmpty(String),
    DupIndexValue,
}

/// The mathematical content of an [`Error`]: names as character sequences.
pub enum ErrorV {
    InvalidSize(usize),
    InvalidMagic(Seq<u8>),
    TableExhausted,
    TableNameTooLong(Seq<char>),
    DupTable(Seq<char>),
    NoSuchTable(Seq<char>),
    ColTooMany(usize),
    DupCol(Seq<char>),
    ColNameTooLong(Seq<char>),
    NoSuchCol(Seq<char>),
    ColSizeTooBig(usize),
    ForeignKeyOnNonUnique(Seq<char>),
    IncompatibleForeignTy { foreign: ColTy, own: ColTy },
    DropTableWithForeignLink(Seq<char>),
    NoSuchIndex(Seq<char>),
    DupIndex(Seq<char>),
    DropIndexOnUnique(Seq<char>),
    CreateIndexOnNonEmpty(Seq<char>),
    DupIndexValue,
}

impl View for Error {
    type V = ErrorV;

    open spec fn view(&self) -> ErrorV {
        match *self {
            Error::InvalidSize(n) => ErrorV::InvalidSize(n),
            Error::InvalidMagic(m) => ErrorV::InvalidMagic(m@),
            Error::TableExhausted => ErrorV::TableExhausted,
            Error::TableNameTooLong(s) => ErrorV::TableNameTooLong(s@),
            Error::DupTable(s) => ErrorV::DupTable(s@),
            Error::NoSuchTable(s) => ErrorV::NoSuchTable(s@),
            Error::ColTooMany(n) => ErrorV::ColTooMany(n),
            Error::DupCol(s) => ErrorV::DupCol(s@),
            Error::ColNameTooLong(s) => ErrorV::ColNameTooLong(s@),
            Error::NoSuchCol(s) => ErrorV::NoSuchCol(s@),
            Error::ColSizeTooBig(n) => ErrorV::ColSizeTooBig(n),
            Error::ForeignKeyOnNonUnique(s) => ErrorV::ForeignKeyOnNonUnique(s@),
            Error::IncompatibleForeignTy { foreign, own } => ErrorV::IncompatibleForeignTy { foreign, own },
            Error::DropTableWithForeignLink(s) => ErrorV::DropTableWithForeignLink(s@),
            Error::NoSuchIndex(s) => ErrorV::NoSuchIndex(s@),
            Error::DupIndex(s) => ErrorV::DupIndex(s@),
            Error::DropIndexOnUnique(s) => ErrorV::DropIndexOnUnique(s@),
            Error::CreateIndexOnNonEmpty(s) => ErrorV::CreateIndexOnNonEmpty(s@),
            Error::DupIndexValue => ErrorV::DupIndexValue,
        }
    }
}

pub type Result<T> = core::result::Result<T, Error>;

} // verus!
