use db::db::Db;
use db::layout::NONE;
use db::schema::{BareTy, ColDecl, ColTy, CreateTable, Rid};

fn table(db: &mut Db, name: &str, width: u8) {
    let c = CreateTable { name, cols: vec![ColDecl { name: "c", ty: ColTy { ty: BareTy::Char, size: width }, notnull: false }], cons: vec![] };
    db.create_table(&c).unwrap();
}

#[test]
fn slots_fill_pages_in_order() {
    let mut db = Db::create("heap");
    table(&mut db, "t", 250);
    let mut tp = db.get_tp("t").unwrap();
    assert_eq!(tp.size, 256);
    assert_eq!(tp.cap, 31);
    let mut rids = Vec::new();
    for _ in 0..70 {
        rids.push(db.allocate_data_slot(&mut tp));
    }
    let first = rids[0].page();
    assert_eq!(rids[0], Rid::new(first, 0));
    assert_eq!(rids[30], Rid::new(first, 30));
    assert_eq!(rids[31].slot(), 0);
    assert_ne!(rids[31].page(), first);
    assert_eq!(rids[62].slot(), 0);
    assert_eq!(db.record_iter(&tp), rids);
    assert_eq!(db.get_tp("t").unwrap(), tp);
}

#[test]
fn freed_slot_is_taken_again() {
    let mut db = Db::create("reuse");
    table(&mut db, "t", 250);
    let mut tp = db.get_tp("t").unwrap();
    let mut rids = Vec::new();
    for _ in 0..62 {
        rids.push(db.allocate_data_slot(&mut tp));
    }
    // both pages are full: none has a free slot
    assert_eq!(tp.first_free, NONE);
    let p0 = rids[0].page();
    let p1 = rids[31].page();
    db.deallocate_data_slot(&mut tp, rids[5]);
    assert_eq!(tp.first_free, p0);
    db.deallocate_data_slot(&mut tp, rids[40]);
    assert_eq!(tp.first_free, p1);
    db.deallocate_data_slot(&mut tp, rids[3]);
    assert_eq!(tp.first_free, p1);
    let live = db.record_iter(&tp);
    assert_eq!(live.len(), 59);
    assert!(!live.contains(&rids[5]) && !live.contains(&rids[40]) && !live.contains(&rids[3]));
    // the head of the chain is the page that was freed into last; its lowest free slot goes first
    assert_eq!(db.allocate_data_slot(&mut tp), rids[40]);
    assert_eq!(tp.first_free, p0);
    assert_eq!(db.allocate_data_slot(&mut tp), rids[3]);
    assert_eq!(db.allocate_data_slot(&mut tp), rids[5]);
    assert_eq!(tp.first_free, NONE);
    assert_eq!(db.record_iter(&tp).len(), 62);
}

#[test]
fn data_slot_position_follows_the_formula() {
    let mut db = Db::create("pos");
    table(&mut db, "t", 250);
    let tp = db.get_tp("t").unwrap();
    assert_eq!(db.get_data_slot(&tp, Rid::new(5, 7)), 5 * 8192 + 80 + 7 * 256);
    assert_eq!(Rid::new(5, 7).raw, 5 * 512 + 7);
}

#[test]
fn dropped_table_gives_its_pages_back_in_order() {
    let mut db = Db::create("drop");
    table(&mut db, "t", 250);
    let mut tp = db.get_tp("t").unwrap();
    for _ in 0..70 {
        db.allocate_data_slot(&mut tp);
    }
    // page 1 is the table-meta page, pages 2, 3 and 4 are data pages
    assert_eq!(db.pages(), 5);
    db.drop_table("t").unwrap();
    assert_eq!(db.pages(), 5);
    // the table-meta page was given back last, so it comes out first
    assert_eq!(db.allocate_page(), 1);
    assert_eq!(db.allocate_page(), 4);
    assert_eq!(db.allocate_page(), 3);
    assert_eq!(db.allocate_page(), 2);
    assert_eq!(db.allocate_page(), 5);
}
