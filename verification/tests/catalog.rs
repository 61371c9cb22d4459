use db::db::Db;
use db::error::Error;
use db::layout::NONE;
use db::schema::{BareTy, ColDecl, ColTy, CreateTable, TableCons, TableConsKind};

fn ty(ty: BareTy, size: u8) -> ColTy {
    ColTy { ty, size }
}

fn col(name: &str, t: ColTy) -> ColDecl<'_> {
    ColDecl { name, ty: t, notnull: false }
}

fn primary(name: &str) -> TableCons<'_> {
    TableCons { name, kind: TableConsKind::Primary }
}

fn foreign<'a>(name: &'a str, table: &'a str, col: &'a str) -> TableCons<'a> {
    TableCons { name, kind: TableConsKind::Foreign { table, col } }
}

fn parent_int(db: &mut Db) {
    let c = CreateTable { name: "parent", cols: vec![col("pk", ty(BareTy::Int, 0))], cons: vec![primary("pk")] };
    db.create_table(&c).unwrap();
}

#[test]
fn foreign_key_blocks_drop_until_child_is_gone() {
    let mut db = Db::create("fk");
    parent_int(&mut db);
    let child = CreateTable { name: "child", cols: vec![col("fk", ty(BareTy::Int, 0))], cons: vec![foreign("fk", "parent", "pk")] };
    assert_eq!(db.create_table(&child), Ok(()));
    assert_eq!(db.drop_table("parent"), Err(Error::DropTableWithForeignLink("parent".to_string())));
    assert_eq!(db.drop_table("child"), Ok(()));
    assert_eq!(db.drop_table("parent"), Ok(()));
    assert_eq!(db.get_ti("parent"), Err(Error::NoSuchTable("parent".to_string())));
}

#[test]
fn foreign_key_needs_a_compatible_type() {
    let mut db = Db::create("ty");
    let parent = CreateTable { name: "parent", cols: vec![col("pk", ty(BareTy::Char, 10))], cons: vec![primary("pk")] };
    db.create_table(&parent).unwrap();
    let short = CreateTable { name: "c1", cols: vec![col("fk", ty(BareTy::Char, 5))], cons: vec![foreign("fk", "parent", "pk")] };
    assert_eq!(
        db.create_table(&short),
        Err(Error::IncompatibleForeignTy { foreign: ty(BareTy::Char, 10), own: ty(BareTy::Char, 5) })
    );
    let same = CreateTable { name: "c2", cols: vec![col("fk", ty(BareTy::Char, 10))], cons: vec![foreign("fk", "parent", "pk")] };
    assert_eq!(db.create_table(&same), Ok(()));
    let var = CreateTable { name: "c3", cols: vec![col("fk", ty(BareTy::VarChar, 10))], cons: vec![foreign("fk", "parent", "pk")] };
    assert_eq!(db.create_table(&var), Ok(()));
    let int = CreateTable { name: "c4", cols: vec![col("fk", ty(BareTy::Int, 0))], cons: vec![foreign("fk", "parent", "pk")] };
    assert!(matches!(db.create_table(&int), Err(Error::IncompatibleForeignTy { .. })));
}

#[test]
fn unique_index_cannot_be_dropped() {
    let mut db = Db::create("uq");
    let t = CreateTable { name: "t", cols: vec![col("c", ty(BareTy::Int, 0)), col("d", ty(BareTy::Int, 0))], cons: vec![primary("c")] };
    db.create_table(&t).unwrap();
    let ci = db.get_ci("t", "c").unwrap();
    assert!(ci.flags.unique && ci.flags.primary && ci.flags.notnull);
    assert_ne!(ci.index, NONE);
    assert_eq!(db.drop_index("t", "c"), Err(Error::DropIndexOnUnique("c".to_string())));
    assert_eq!(db.drop_index("t", "d"), Err(Error::NoSuchIndex("d".to_string())));
    assert_eq!(db.create_index("t", "d"), Ok(()));
    assert_eq!(db.create_index("t", "d"), Err(Error::DupIndex("d".to_string())));
    assert_eq!(db.drop_index("t", "d"), Ok(()));
    assert_eq!(db.get_ci("t", "d").unwrap().index, NONE);
    assert_eq!(db.drop_index("t", "x"), Err(Error::NoSuchCol("x".to_string())));
    assert_eq!(db.drop_index("u", "d"), Err(Error::NoSuchTable("u".to_string())));
}

#[test]
fn two_primary_columns_are_not_unique() {
    let mut db = Db::create("pk2");
    let t = CreateTable {
        name: "t",
        cols: vec![col("a", ty(BareTy::Int, 0)), col("b", ty(BareTy::Int, 0))],
        cons: vec![primary("a"), primary("b")],
    };
    db.create_table(&t).unwrap();
    let a = db.get_ci("t", "a").unwrap();
    let b = db.get_ci("t", "b").unwrap();
    assert!(a.flags.primary && a.flags.notnull && !a.flags.unique);
    assert!(b.flags.primary && b.flags.notnull && !b.flags.unique);
    assert_eq!(a.index, NONE);
}

#[test]
fn create_table_checks_in_order() {
    let mut db = Db::create("checks");
    parent_int(&mut db);
    let long = "n".repeat(28);
    let c = CreateTable { name: &long, cols: vec![], cons: vec![] };
    assert_eq!(db.create_table(&c), Err(Error::TableNameTooLong(long.clone())));
    let c = CreateTable { name: "parent", cols: vec![], cons: vec![] };
    assert_eq!(db.create_table(&c), Err(Error::DupTable("parent".to_string())));
    let names: Vec<String> = (0..64).map(|i| format!("c{}", i)).collect();
    let many = CreateTable { name: "many", cols: names.iter().map(|n| col(n, ty(BareTy::Int, 0))).collect(), cons: vec![] };
    assert_eq!(db.create_table(&many), Err(Error::ColTooMany(64)));
    let dup = CreateTable { name: "dup", cols: vec![col("a", ty(BareTy::Int, 0)), col("a", ty(BareTy::Bool, 0))], cons: vec![] };
    assert_eq!(db.create_table(&dup), Err(Error::DupCol("a".to_string())));
    let wide = "w".repeat(24);
    let c = CreateTable { name: "wide", cols: vec![col(&wide, ty(BareTy::Int, 0))], cons: vec![] };
    assert_eq!(db.create_table(&c), Err(Error::ColNameTooLong(wide.clone())));
    let c = CreateTable { name: "nocol", cols: vec![col("a", ty(BareTy::Int, 0))], cons: vec![primary("b")] };
    assert_eq!(db.create_table(&c), Err(Error::NoSuchCol("b".to_string())));
    let c = CreateTable { name: "notab", cols: vec![col("a", ty(BareTy::Int, 0))], cons: vec![foreign("a", "nowhere", "pk")] };
    assert_eq!(db.create_table(&c), Err(Error::NoSuchTable("nowhere".to_string())));
    let c = CreateTable { name: "nofcol", cols: vec![col("a", ty(BareTy::Int, 0))], cons: vec![foreign("a", "parent", "zz")] };
    assert_eq!(db.create_table(&c), Err(Error::NoSuchCol("zz".to_string())));
    let plain = CreateTable { name: "plain", cols: vec![col("v", ty(BareTy::Int, 0))], cons: vec![] };
    db.create_table(&plain).unwrap();
    let c = CreateTable { name: "nonuniq", cols: vec![col("a", ty(BareTy::Int, 0))], cons: vec![foreign("a", "plain", "v")] };
    assert_eq!(db.create_table(&c), Err(Error::ForeignKeyOnNonUnique("v".to_string())));
    let names: Vec<String> = (0..40).map(|i| format!("c{}", i)).collect();
    let big = CreateTable { name: "big", cols: names.iter().map(|n| col(n, ty(BareTy::VarChar, 255))).collect(), cons: vec![] };
    assert_eq!(db.create_table(&big), Err(Error::ColSizeTooBig(8327)));
}

#[test]
fn directory_is_full_after_thirty_two_tables() {
    let mut db = Db::create("full");
    for i in 0..32 {
        let name = format!("t{}", i);
        let c = CreateTable { name: &name, cols: vec![col("a", ty(BareTy::Int, 0))], cons: vec![] };
        assert_eq!(db.create_table(&c), Ok(()));
    }
    let c = CreateTable { name: "one_more", cols: vec![], cons: vec![] };
    assert_eq!(db.create_table(&c), Err(Error::TableExhausted));
}

#[test]
fn row_layout_aligns_and_rounds() {
    let mut db = Db::create("layout");
    let t = CreateTable {
        name: "t",
        cols: vec![
            col("b", ty(BareTy::Bool, 0)),
            col("i", ty(BareTy::Int, 0)),
            col("c", ty(BareTy::Char, 3)),
            col("v", ty(BareTy::VarChar, 5)),
            col("d", ty(BareTy::Date, 0)),
        ],
        cons: vec![],
    };
    db.create_table(&t).unwrap();
    let tp = db.get_tp("t").unwrap();
    let offs: Vec<u16> = tp.cols.iter().map(|c| c.off).collect();
    assert_eq!(offs, vec![4, 8, 12, 16, 28]);
    assert_eq!(tp.size, 32);
    assert_eq!(tp.cap, 253);
    assert_eq!(tp.prev, tp.id);
    assert_eq!(tp.next, tp.id);
    assert_eq!(tp.first_free, NONE);
    assert_eq!(db.id_of(&tp), tp.id as usize);
    let small = CreateTable { name: "s", cols: vec![col("b", ty(BareTy::Bool, 0))], cons: vec![] };
    db.create_table(&small).unwrap();
    let sp = db.get_tp("s").unwrap();
    assert_eq!(sp.size, 16);
    assert_eq!(sp.cap, 507);
}

#[test]
fn dropped_table_moves_last_entry_and_fixes_references() {
    let mut db = Db::create("swap");
    let a = CreateTable { name: "a", cols: vec![col("x", ty(BareTy::Int, 0))], cons: vec![] };
    db.create_table(&a).unwrap();
    parent_int(&mut db);
    let child = CreateTable { name: "child", cols: vec![col("fk", ty(BareTy::Int, 0))], cons: vec![foreign("fk", "parent", "pk")] };
    db.create_table(&child).unwrap();
    let p2 = CreateTable { name: "p2", cols: vec![col("k", ty(BareTy::Int, 0))], cons: vec![primary("k")] };
    db.create_table(&p2).unwrap();
    let c2 = CreateTable { name: "c2", cols: vec![col("fk", ty(BareTy::Int, 0))], cons: vec![foreign("fk", "p2", "k")] };
    db.create_table(&c2).unwrap();
    assert_eq!(db.get_ci("c2", "fk").unwrap().foreign_table, 3);
    // dropping "child" (position 2) moves "c2" from position 4 to 2; nothing refers to position 4
    db.drop_table("child").unwrap();
    assert_eq!(db.get_ci("c2", "fk").unwrap().foreign_table, 3);
    // dropping "a" (position 0) moves "p2" from position 3 to 0; "c2" must follow
    db.drop_table("a").unwrap();
    assert_eq!(db.get_ci("c2", "fk").unwrap().foreign_table, 0);
    assert_eq!(db.drop_table("p2"), Err(Error::DropTableWithForeignLink("p2".to_string())));
    assert_eq!(db.drop_table("nope"), Err(Error::NoSuchTable("nope".to_string())));
}

#[test]
fn create_index_wants_an_empty_table() {
    let mut db = Db::create("ne");
    let t = CreateTable { name: "t", cols: vec![col("a", ty(BareTy::Int, 0))], cons: vec![] };
    db.create_table(&t).unwrap();
    let mut tp = db.get_tp("t").unwrap();
    let rid = db.allocate_data_slot(&mut tp);
    assert_eq!(db.create_index("t", "a"), Err(Error::CreateIndexOnNonEmpty("t".to_string())));
    db.deallocate_data_slot(&mut tp, rid);
    assert_eq!(db.create_index("t", "zz"), Err(Error::NoSuchCol("zz".to_string())));
    assert_eq!(db.create_index("zz", "a"), Err(Error::NoSuchTable("zz".to_string())));
    assert_eq!(db.create_index("t", "a"), Ok(()));
}

#[test]
fn dropped_table_gives_back_index_pages_then_data_pages_then_its_own() {
    let mut db = Db::create("order");
    let c = CreateTable {
        name: "t",
        cols: vec![
            ColDecl { name: "id", ty: ColTy { ty: BareTy::Int, size: 0 }, notnull: true },
            ColDecl { name: "n", ty: ColTy { ty: BareTy::Int, size: 0 }, notnull: false },
        ],
        cons: vec![TableCons { name: "id", kind: TableConsKind::Primary }],
    };
    db.create_table(&c).unwrap();
    // page 1: the table, page 2: the root of the index of the primary key
    assert_eq!(db.pages(), 3);
    assert_eq!(db.get_ci("t", "id").unwrap().index, 2);
    assert_eq!(db.index_height(1, 0), 0);
    let mut tp = db.get_tp("t").unwrap();
    let rid = db.allocate_data_slot(&mut tp);
    assert_eq!((rid.page(), rid.slot()), (3, 0));
    assert_eq!((tp.prev, tp.next, tp.first_free), (3, 3, 3));
    db.create_index("t", "n").unwrap_err();
    db.deallocate_data_slot(&mut tp, rid);
    db.create_index("t", "n").unwrap();
    assert_eq!(db.get_ci("t", "n").unwrap().index, 4);
    assert_eq!(db.pages(), 5);
    db.drop_table("t").unwrap();
    assert_eq!(db.pages(), 5);
    // given back: 2, 4 (the indexes in column order), 3 (the ring), 1 (the table)
    assert_eq!(db.allocate_page(), 1);
    assert_eq!(db.allocate_page(), 3);
    assert_eq!(db.allocate_page(), 4);
    assert_eq!(db.allocate_page(), 2);
    assert_eq!(db.allocate_page(), 5);
}

#[test]
fn table_creation_takes_free_pages_first() {
    let mut db = Db::create("reuse");
    let a = db.allocate_page();
    let b = db.allocate_page();
    let c = db.allocate_page();
    assert_eq!((a, b, c), (1, 2, 3));
    db.deallocate_page(a);
    db.deallocate_page(c);
    let t = CreateTable {
        name: "t",
        cols: vec![ColDecl { name: "id", ty: ColTy { ty: BareTy::Int, size: 0 }, notnull: true }],
        cons: vec![TableCons { name: "id", kind: TableConsKind::Primary }],
    };
    db.create_table(&t).unwrap();
    // the table went to the page freed last, its index to the one freed before
    assert_eq!(db.get_tp("t").unwrap().id, 3);
    assert_eq!(db.get_ci("t", "id").unwrap().index, 1);
    assert_eq!(db.pages(), 4);
    // the page that was handed out and not given back kept its bytes
    assert_eq!(db.get_page(2), &vec![0u8; 8192]);
    assert_eq!(db.allocate_page(), 4);
}
