//! Checking a table definition against the catalog and laying out its rows.

use vstd::prelude::*;
use vstd::string::StringSliceAdditionalSpecFns;
use crate::catalog::{col_slot, lemma_col_slot, table_slot};
use crate::db::Db;
use crate::error::{Error, ErrorV, Result};
use crate::layout::{MAX_COL, MAX_COL_NAME, MAX_DATA_BYTE, MAX_TABLE, MAX_TABLE_NAME, MIN_SLOT_SIZE, NONE, NO_TABLE};
use crate::meta::{find_table, read_table_num, table_num};
use crate::schema::{ColDecl, ColTy, CreateTable, TableCons, TableConsKind, aligned, col_end, col_offset, compatible, null_bytes, round4, row_size, storage};
use crate::table::{ColFlags, ColInfo, ColInfoV, find_col, read_col};

verus! {

/// The first refusal among `f(0)`, ..., `f(n - 1)`.
pub open spec fn first_fault(f: spec_fn(int) -> Option<ErrorV>, n: int) -> Option<ErrorV>
    decreases n,
{
    if n <= 0 {
        None
    } else {
        match first_fault(f, n - 1) {
            Some(e) => Some(e),
            None => f(n - 1),
        }
    }
}

/// The types of the declared columns.
pub open spec fn decl_types(c: CreateTable) -> Seq<ColTy> {
    Seq::new(c.cols@.len(), |i: int| c.cols@[i].ty)
}

/// Position of the declared column called `name`.
#[verifier::opaque]
pub open spec fn decl_slot(c: CreateTable, name: Seq<u8>) -> Option<int> {
    if exists|i: int| 0 <= i < c.cols@.len() && c.cols@[i].name.spec_bytes() == name {
        Some(choose|i: int| 0 <= i < c.cols@.len() && c.cols@[i].name.spec_bytes() == name && forall|j: int| 0 <= j < i ==> (#[trigger] c.cols@[j]).name.spec_bytes() != name)
    } else {
        None
    }
}

#[verifier::spinoff_prover]
pub proof fn lemma_decl_slot(c: CreateTable, name: Seq<u8>, i: int)
    requires
        0 <= i < c.cols@.len(),
        c.cols@[i].name.spec_bytes() == name,
        forall|j: int| 0 <= j < i ==> (#[trigger] c.cols@[j]).name.spec_bytes() != name,
    ensures
        decl_slot(c, name) == Some(i),
{
    reveal(decl_slot);
    let w = choose|i: int| 0 <= i < c.cols@.len() && c.cols@[i].name.spec_bytes() == name && forall|j: int| 0 <= j < i ==> (#[trigger] c.cols@[j]).name.spec_bytes() != name;
    if w < i {
        assert(c.cols@[w].name.spec_bytes() != name);
    }
    if i < w {
        assert(c.cols@[i].name.spec_bytes() != name);
    }
}

#[verifier::spinoff_prover]
pub proof fn lemma_decl_slot_none(c: CreateTable, name: Seq<u8>)
    requires
        forall|j: int| 0 <= j < c.cols@.len() ==> (#[trigger] c.cols@[j]).name.spec_bytes() != name,
    ensures
        decl_slot(c, name) is None,
{
    reveal(decl_slot);
}

/// Why declared column `i` is refused, given the columns before it: its name
/// was used already, or is too long.
pub open spec fn col_fault(c: CreateTable, i: int) -> Option<ErrorV> {
    let name = c.cols@[i].name;
    if exists|j: int| 0 <= j < i && (#[trigger] c.cols@[j]).name.spec_bytes() == name.spec_bytes() {
        Some(ErrorV::DupCol(name@))
    } else if name.spec_bytes().len() >= MAX_COL_NAME {
        Some(ErrorV::ColNameTooLong(name@))
    } else {
        None
    }
}

/// The column a foreign-key constraint refers to, as directory position and
/// column position.
pub open spec fn foreign_target(db: &Db, table: &str, col: &str) -> (int, int) {
    let ft = table_slot(db.directory(), table.spec_bytes())->0;
    let fc = col_slot(db.table(db.directory()[ft].meta as nat).cols, col.spec_bytes())->0;
    (ft, fc)
}

/// Why constraint `k` is refused: it names no declared column, or it refers to
/// a column that does not exist, is not unique, or has a type that the
/// constrained column's type is not compatible with.
pub open spec fn cons_fault(db: &Db, c: CreateTable, k: int) -> Option<ErrorV> {
    let cons = c.cons@[k];
    match decl_slot(c, cons.name.spec_bytes()) {
        None => Some(ErrorV::NoSuchCol(cons.name@)),
        Some(i) => match cons.kind {
            TableConsKind::Primary => None,
            TableConsKind::Foreign { table, col } => match table_slot(db.directory(), table.spec_bytes()) {
                None => Some(ErrorV::NoSuchTable(table@)),
                Some(ft) => {
                    let cols = db.table(db.directory()[ft].meta as nat).cols;
                    match col_slot(cols, col.spec_bytes()) {
                        None => Some(ErrorV::NoSuchCol(col@)),
                        Some(fc) => if !cols[fc].flags.unique {
                            Some(ErrorV::ForeignKeyOnNonUnique(col@))
                        } else if !compatible(c.cols@[i].ty, cols[fc].ty) {
                            Some(ErrorV::IncompatibleForeignTy { foreign: cols[fc].ty, own: c.cols@[i].ty })
                        } else {
                            None
                        },
                    }
                },
            },
        },
    }
}

/// Why the row is refused once column `i` is laid out: it has grown beyond the
/// largest record.
pub open spec fn size_fault(c: CreateTable, i: int) -> Option<ErrorV> {
    let end = col_end(decl_types(c), i);
    if end > MAX_DATA_BYTE {
        Some(ErrorV::ColSizeTooBig(end as usize))
    } else {
        None
    }
}

pub open spec fn col_faults(c: CreateTable) -> spec_fn(int) -> Option<ErrorV> {
    |i: int| col_fault(c, i)
}

pub open spec fn cons_faults(db: &Db, c: CreateTable) -> spec_fn(int) -> Option<ErrorV> {
    |k: int| cons_fault(db, c, k)
}

pub open spec fn size_faults(c: CreateTable) -> spec_fn(int) -> Option<ErrorV> {
    |i: int| size_fault(c, i)
}

/// Why `create_table(c)` is refused, if it is. The checks are made in this
/// order and the first that fails decides.
pub open spec fn create_table_fault(db: &Db, c: CreateTable) -> Option<ErrorV> {
    if table_num(db.image()[0]) == MAX_TABLE {
        Some(ErrorV::TableExhausted)
    } else if c.name.spec_bytes().len() >= MAX_TABLE_NAME {
        Some(ErrorV::TableNameTooLong(c.name@))
    } else if table_slot(db.directory(), c.name.spec_bytes()) is Some {
        Some(ErrorV::DupTable(c.name@))
    } else if c.cols@.len() >= MAX_COL {
        Some(ErrorV::ColTooMany(c.cols@.len() as usize))
    } else {
        match first_fault(col_faults(c), c.cols@.len() as int) {
            Some(e) => Some(e),
            None => match first_fault(cons_faults(db, c), c.cons@.len() as int) {
                Some(e) => Some(e),
                None => match first_fault(size_faults(c), c.cols@.len() as int) {
                    Some(e) => Some(e),
                    None => if round4(col_end(decl_types(c), c.cols@.len() - 1)) > MAX_DATA_BYTE {
                        Some(ErrorV::ColSizeTooBig(round4(col_end(decl_types(c), c.cols@.len() - 1)) as usize))
                    } else {
                        None
                    },
                },
            },
        }
    }
}

/// Number of primary-key constraints among the first `k`.
pub open spec fn count_primary(c: CreateTable, k: int) -> int
    decreases k,
{
    if k <= 0 {
        0
    } else {
        count_primary(c, k - 1) + (if c.cons@[k - 1].kind is Primary { 1int } else { 0 })
    }
}

/// Whether one of the first `k` constraints makes column `i` part of the
/// primary key.
pub open spec fn has_primary(c: CreateTable, i: int, k: int) -> bool
    decreases k,
{
    if k <= 0 {
        false
    } else {
        has_primary(c, i, k - 1) || (c.cons@[k - 1].kind is Primary && decl_slot(c, c.cons@[k - 1].name.spec_bytes()) == Some(i))
    }
}

/// What the last foreign-key constraint on column `i` among the first `k`
/// refers to; `(NO_TABLE, 0)` where there is none.
pub open spec fn last_foreign(db: &Db, c: CreateTable, i: int, k: int) -> (int, int)
    decreases k,
{
    if k <= 0 {
        (NO_TABLE as int, 0)
    } else {
        match c.cons@[k - 1].kind {
            TableConsKind::Foreign { table, col } => if decl_slot(c, c.cons@[k - 1].name.spec_bytes()) == Some(i) {
                foreign_target(db, table, col)
            } else {
                last_foreign(db, c, i, k - 1)
            },
            _ => last_foreign(db, c, i, k - 1),
        }
    }
}

/// The catalog entry of declared column `i` once the first `k` constraints are
/// applied, before offsets are assigned and the key is made unique.
pub open spec fn draft_col(db: &Db, c: CreateTable, i: int, k: int) -> ColInfoV {
    let d = c.cols@[i];
    let p = has_primary(c, i, k);
    let f = last_foreign(db, c, i, k);
    ColInfoV {
        ty: d.ty,
        off: 0,
        flags: ColFlags { notnull: d.notnull || p, primary: p, unique: false },
        index: NONE,
        foreign_table: f.0 as u8,
        foreign_col: f.1 as u8,
        name: d.name.spec_bytes(),
    }
}

/// The catalog entry of declared column `i` of the new table, but for the root
/// of its index: a primary-key column is not null, and it is unique if it is
/// the only one.
pub open spec fn planned_col(db: &Db, c: CreateTable, i: int) -> ColInfoV {
    let k = c.cons@.len() as int;
    let d = draft_col(db, c, i, k);
    ColInfoV {
        off: col_offset(decl_types(c), i) as u16,
        flags: ColFlags { unique: d.flags.primary && count_primary(c, k) == 1, ..d.flags },
        ..d
    }
}

/// Whether the name of declared column `i` is the name of an earlier one.
#[verifier::spinoff_prover]
pub fn name_used_before(c: &CreateTable, i: usize) -> (r: bool)
    requires
        i < c.cols@.len(),
    ensures
        r == exists|j: int| 0 <= j < i && (#[trigger] c.cols@[j]).name.spec_bytes() == c.cols@[i as int].name.spec_bytes(),
{
    let name = c.cols[i].name;
    let mut j: usize = 0;
    while j < i
        invariant
            j <= i,
            i < c.cols@.len(),
            name == c.cols@[i as int].name,
            forall|u: int| 0 <= u < j ==> (#[trigger] c.cols@[u]).name.spec_bytes() != name.spec_bytes(),
        decreases i - j,
    {
        if same_bytes(c.cols[j].name.as_bytes(), name.as_bytes()) {
            return true;
        }
        j += 1;
    }
    false
}

/// Whether two byte strings are equal.
#[verifier::spinoff_prover]
pub fn same_bytes(a: &[u8], b: &[u8]) -> (r: bool)
    ensures
        r == (a@ == b@),
{
    if a.len() != b.len() {
        return false;
    }
    let mut i: usize = 0;
    while i < a.len()
        invariant
            i <= a.len(),
            a.len() == b.len(),
            forall|j: int| 0 <= j < i ==> a@[j] == b@[j],
        decreases a.len() - i,
    {
        if a[i] != b[i] {
            return false;
        }
        i += 1;
    }
    assert(a@ =~= b@);
    true
}

/// Position of the declared column called `name`.
#[verifier::spinoff_prover]
pub fn find_decl(c: &CreateTable, name: &[u8]) -> (r: Option<usize>)
    ensures
        match r {
            Some(i) => decl_slot(*c, name@) == Some(i as int) && i < c.cols@.len(),
            None => decl_slot(*c, name@) is None,
        },
{
    let mut i: usize = 0;
    while i < c.cols.len()
        invariant
            i <= c.cols@.len(),
            forall|j: int| 0 <= j < i ==> (#[trigger] c.cols@[j]).name.spec_bytes() != name@,
        decreases c.cols@.len() - i,
    {
        if same_bytes(c.cols[i].name.as_bytes(), name) {
            proof {
                lemma_decl_slot(*c, name@, i as int);
            }
            return Some(i);
        }
        i += 1;
    }
    proof {
        lemma_decl_slot_none(*c, name@);
    }
    None
}

/// What the constraints make of one column: its flags and the column it
/// refers to.
#[derive(Debug, Clone, Copy)]
pub struct Draft {
    pub flags: ColFlags,
    pub foreign_table: u8,
    pub foreign_col: u8,
}

/// The draft of declared column `i` once the first `k` constraints are applied.
pub open spec fn draft_ok(db: &Db, c: CreateTable, d: Draft, i: int, k: int) -> bool {
    &&& d.flags == draft_col(db, c, i, k).flags
    &&& d.foreign_table == draft_col(db, c, i, k).foreign_table
    &&& d.foreign_col == draft_col(db, c, i, k).foreign_col
    &&& d.foreign_table != NO_TABLE ==> d.foreign_table < db.directory().len() && d.foreign_col < db.table(
        db.directory()[d.foreign_table as int].meta as nat,
    ).cols.len()
}

/// The name checks of a table definition hold.
pub open spec fn names_ok(db: &Db, c: CreateTable) -> bool {
    &&& table_num(db.image()[0]) < MAX_TABLE
    &&& c.name.spec_bytes().len() < MAX_TABLE_NAME
    &&& table_slot(db.directory(), c.name.spec_bytes()) is None
    &&& c.cols@.len() < MAX_COL
    &&& first_fault(col_faults(c), c.cols@.len() as int) is None
}

#[verifier::spinoff_prover]
pub proof fn lemma_no_col_fault(c: CreateTable, n: int, i: int)
    requires
        first_fault(col_faults(c), n) is None,
        0 <= i < n,
    ensures
        col_fault(c, i) is None,
    decreases n,
{
    if i < n - 1 {
        lemma_no_col_fault(c, n - 1, i);
    }
}

impl Db {
    /// Checks the names of a table definition: room in the directory, the table
    /// name, the number of columns and the column names.
    #[verifier::spinoff_prover]
    pub(crate) fn check_names(&self, c: &CreateTable) -> (r: Result<()>)
        requires
            self.wf(),
        ensures
            match r {
                Ok(()) => names_ok(self, *c),
                Err(e) => create_table_fault(self, *c) == Some(e@),
            },
    {
        let meta = self.get_page(0);
        if read_table_num(meta) == MAX_TABLE {
            return Err(Error::TableExhausted);
        }
        if c.name.as_bytes().len() >= MAX_TABLE_NAME {
            return Err(Error::TableNameTooLong(c.name.to_owned()));
        }
        match find_table(meta, c.name.as_bytes()) {
            Some(t) => {
                proof {
                    crate::catalog::lemma_table_slot(self.directory(), c.name.spec_bytes(), t as int);
                }
                return Err(Error::DupTable(c.name.to_owned()));
            },
            None => {
                proof {
                    crate::catalog::lemma_table_slot_none(self.directory(), c.name.spec_bytes());
                }
            },
        }
        if c.cols.len() >= MAX_COL {
            return Err(Error::ColTooMany(c.cols.len()));
        }
        let mut i: usize = 0;
        while i < c.cols.len()
            invariant
                i <= c.cols@.len(),
                table_num(self.image()[0]) < MAX_TABLE,
                c.name.spec_bytes().len() < MAX_TABLE_NAME,
                table_slot(self.directory(), c.name.spec_bytes()) is None,
                c.cols@.len() < MAX_COL,
                first_fault(col_faults(*c), i as int) is None,
            decreases c.cols@.len() - i,
        {
            let name = c.cols[i].name;
            if name_used_before(c, i) {
                proof {
                    assert(col_fault(*c, i as int) == Some(ErrorV::DupCol(name@)));
                    lemma_fault_found(col_faults(*c), i as int, c.cols@.len() as int);
                }
                return Err(Error::DupCol(name.to_owned()));
            }
            if name.as_bytes().len() >= MAX_COL_NAME {
                proof {
                    assert(col_fault(*c, i as int) == Some(ErrorV::ColNameTooLong(name@)));
                    lemma_fault_found(col_faults(*c), i as int, c.cols@.len() as int);
                }
                return Err(Error::ColNameTooLong(name.to_owned()));
            }
            assert(col_fault(*c, i as int) is None);
            i += 1;
        }
        Ok(())
    }

    /// Checks constraint `k` of a table definition: the column it constrains and,
    /// for a foreign key, the column it refers to.
    #[verifier::spinoff_prover]
    pub(crate) fn resolve_cons(&self, c: &CreateTable, k: usize) -> (r: Result<(usize, Option<(u8, u8)>)>)
        requires
            self.wf(),
            k < c.cons@.len(),
        ensures
            match r {
                Ok((idx, target)) => {
                    &&& cons_fault(self, *c, k as int) is None
                    &&& decl_slot(*c, c.cons@[k as int].name.spec_bytes()) == Some(idx as int)
                    &&& idx < c.cols@.len()
                    &&& match target {
                        None => c.cons@[k as int].kind is Primary,
                        Some((ft, fc)) => c.cons@[k as int].kind matches TableConsKind::Foreign { table, col } && foreign_target(self, table, col) == (ft as int, fc as int)
                            && ft < self.directory().len() && fc < self.table(self.directory()[ft as int].meta as nat).cols.len() && ft != NO_TABLE,
                    }
                },
                Err(e) => cons_fault(self, *c, k as int) == Some(e@),
            },
    {
        let cons = &c.cons[k];
        let idx: usize = match find_decl(c, cons.name.as_bytes()) {
            Some(idx) => idx,
            None => {
                return Err(Error::NoSuchCol(cons.name.to_owned()));
            },
        };
        match cons.kind {
            TableConsKind::Primary => Ok((idx, None)),
            TableConsKind::Foreign { table, col } => {
                let (ft, m) = match self.locate(table.as_bytes()) {
                    Some(x) => x,
                    None => {
                        return Err(Error::NoSuchTable(table.to_owned()));
                    },
                };
                let page = self.get_page(m);
                let fc: usize = match find_col(page, col.as_bytes()) {
                    Some(fc) => fc,
                    None => {
                        proof {
                            crate::catalog::lemma_col_slot_none(self.table(m as nat).cols, col.spec_bytes());
                        }
                        return Err(Error::NoSuchCol(col.to_owned()));
                    },
                };
                proof {
                    lemma_col_slot(self.table(m as nat).cols, col.spec_bytes(), fc as int);
                }
                let fci = read_col(page, fc);
                if !fci.flags.unique {
                    return Err(Error::ForeignKeyOnNonUnique(col.to_owned()));
                }
                let own = c.cols[idx].ty;
                if !own.compatible_with(&fci.ty) {
                    return Err(Error::IncompatibleForeignTy { foreign: fci.ty, own });
                }
                Ok((idx, Some((ft as u8, fc as u8))))
            },
        }
    }

    /// Checks the constraints of a table definition and works out what they make
    /// of each column.
    #[verifier::spinoff_prover]
    pub(crate) fn check_cons(&self, c: &CreateTable) -> (r: Result<(Vec<Draft>, usize)>)
        requires
            self.wf(),
            names_ok(self, *c),
        ensures
            match r {
                Ok((drafts, pc)) => {
                    &&& first_fault(cons_faults(self, *c), c.cons@.len() as int) is None
                    &&& drafts@.len() == c.cols@.len()
                    &&& forall|i: int| 0 <= i < drafts@.len() ==> draft_ok(self, *c, #[trigger] drafts@[i], i, c.cons@.len() as int)
                    &&& pc == count_primary(*c, c.cons@.len() as int)
                },
                Err(e) => create_table_fault(self, *c) == Some(e@),
            },
    {
        let mut drafts: Vec<Draft> = Vec::new();
        let mut i: usize = 0;
        while i < c.cols.len()
            invariant
                i <= c.cols@.len(),
                drafts@.len() == i,
                forall|u: int| 0 <= u < i ==> draft_ok(self, *c, #[trigger] drafts@[u], u, 0),
            decreases c.cols@.len() - i,
        {
            drafts.push(Draft { flags: ColFlags { notnull: c.cols[i].notnull, primary: false, unique: false }, foreign_table: NO_TABLE, foreign_col: 0 });
            i += 1;
        }
        let mut pc: usize = 0;
        let mut k: usize = 0;
        while k < c.cons.len()
            invariant
                k <= c.cons@.len(),
                self.wf(),
                names_ok(self, *c),
                drafts@.len() == c.cols@.len(),
                first_fault(cons_faults(self, *c), k as int) is None,
                forall|u: int| 0 <= u < drafts@.len() ==> draft_ok(self, *c, #[trigger] drafts@[u], u, k as int),
                pc == count_primary(*c, k as int),
                pc <= k,
            decreases c.cons@.len() - k,
        {
            let (idx, target) = match self.resolve_cons(c, k) {
                Ok(x) => x,
                Err(e) => {
                    proof {
                        lemma_cons_fault_found(self, *c, k as int);
                    }
                    return Err(e);
                },
            };
            let old_draft = drafts[idx];
            assert(draft_ok(self, *c, old_draft, idx as int, k as int));
            let ghost before = drafts@;
            match target {
                None => {
                    pc += 1;
                    drafts.set(idx, Draft { flags: ColFlags { notnull: true, primary: true, unique: false }, foreign_table: old_draft.foreign_table, foreign_col: old_draft.foreign_col });
                },
                Some((ft, fc)) => {
                    drafts.set(idx, Draft { flags: old_draft.flags, foreign_table: ft, foreign_col: fc });
                },
            }
            proof {
                assert forall|u: int| 0 <= u < drafts@.len() implies draft_ok(self, *c, #[trigger] drafts@[u], u, k + 1) by {
                    assert(draft_ok(self, *c, before[u], u, k as int));
                }
            }
            k += 1;
        }
        Ok((drafts, pc))
    }
}

/// A refusal found at position `i` with none before it is the first of any
/// longer run.
#[verifier::spinoff_prover]
pub proof fn lemma_fault_found(f: spec_fn(int) -> Option<ErrorV>, i: int, n: int)
    requires
        0 <= i < n,
        first_fault(f, i) is None,
        f(i) is Some,
    ensures
        first_fault(f, n) == f(i),
    decreases n,
{
    if i < n - 1 {
        lemma_fault_found(f, i, n - 1);
    }
}

#[verifier::spinoff_prover]
proof fn lemma_cons_fault_found(db: &Db, c: CreateTable, k: int)
    requires
        names_ok(db, c),
        0 <= k < c.cons@.len(),
        first_fault(cons_faults(db, c), k) is None,
        cons_fault(db, c, k) is Some,
    ensures
        create_table_fault(db, c) == cons_fault(db, c, k),
{
    lemma_fault_found(cons_faults(db, c), k, c.cons@.len() as int);
}

/// Lays out the rows of a table definition: the offset of every column and the
/// size of a row slot.
#[verifier::spinoff_prover]
pub fn check_size(c: &CreateTable) -> (r: core::result::Result<(Vec<u16>, u16), usize>)
    requires
        c.cols@.len() < MAX_COL,
    ensures
        match r {
            Ok((offs, size)) => {
                &&& first_fault(size_faults(*c), c.cols@.len() as int) is None
                &&& round4(col_end(decl_types(*c), c.cols@.len() - 1)) <= MAX_DATA_BYTE
                &&& offs@.len() == c.cols@.len()
                &&& forall|i: int| 0 <= i < offs@.len() ==> (#[trigger] offs@[i]) == col_offset(decl_types(*c), i)
                &&& size == row_size(decl_types(*c))
                &&& MIN_SLOT_SIZE <= size <= MAX_DATA_BYTE
            },
            Err(n) => match first_fault(size_faults(*c), c.cols@.len() as int) {
                Some(e) => e == ErrorV::ColSizeTooBig(n),
                None => n == round4(col_end(decl_types(*c), c.cols@.len() - 1)) && n > MAX_DATA_BYTE,
            },
        },
{
    let ghost tys = decl_types(*c);
    let n: usize = c.cols.len();
    let mut size: u16 = ((n as u16 + 31) / 32) * 4;
    let mut offs: Vec<u16> = Vec::new();
    let mut i: usize = 0;
    while i < n
        invariant
            i <= n,
            n == c.cols@.len(),
            n < MAX_COL,
            tys == decl_types(*c),
            size == col_end(tys, i - 1),
            size <= MAX_DATA_BYTE,
            offs@.len() == i,
            forall|u: int| 0 <= u < i ==> (#[trigger] offs@[u]) == col_offset(tys, u),
            first_fault(size_faults(*c), i as int) is None,
        decreases n - i,
    {
        let ty = c.cols[i].ty;
        assert(tys[i as int] == ty);
        if ty.align4() {
            size = (size + 3) / 4 * 4;
        }
        assert(size == col_offset(tys, i as int));
        offs.push(size);
        size = size + ty.size();
        assert(size == col_end(tys, i as int));
        if size as usize > MAX_DATA_BYTE {
            proof {
                assert(size_fault(*c, i as int) == Some(ErrorV::ColSizeTooBig(size as usize)));
                lemma_fault_found(size_faults(*c), i as int, n as int);
            }
            return Err(size as usize);
        }
        assert(size_fault(*c, i as int) is None);
        i += 1;
    }
    size = (size + 3) / 4 * 4;
    if size as usize > MAX_DATA_BYTE {
        return Err(size as usize);
    }
    if (size as usize) < MIN_SLOT_SIZE {
        size = MIN_SLOT_SIZE as u16;
    }
    Ok((offs, size))
}

} // verus!
