use db::db::Db;
use db::error::Error;
use db::layout::PAGE_SIZE;

#[test]
fn fresh_database_reopens_empty() {
    let db = Db::create("fresh");
    assert_eq!(db.pages(), 1);
    let bytes = db.to_bytes();
    assert_eq!(bytes.len(), PAGE_SIZE);
    let again = Db::open("fresh", bytes).unwrap();
    assert_eq!(again.pages(), 1);
    assert_eq!(again.path(), "fresh");
}

#[test]
fn free_list_is_last_in_first_out() {
    let mut db = Db::create("lifo");
    let mut ids = Vec::new();
    for _ in 0..5 {
        ids.push(db.allocate_page());
    }
    assert_eq!(ids, vec![1, 2, 3, 4, 5]);
    db.deallocate_page(3);
    db.deallocate_page(2);
    db.deallocate_page(4);
    assert_eq!(db.allocate_page(), 4);
    assert_eq!(db.allocate_page(), 2);
    assert_eq!(db.allocate_page(), 3);
}

#[test]
fn short_file_has_invalid_size() {
    let r = Db::open("short", vec![0u8; 128]);
    assert!(matches!(r, Err(Error::InvalidSize(128))));
}

#[test]
fn zero_page_has_invalid_magic() {
    let r = Db::open("zeros", vec![0u8; PAGE_SIZE]);
    match r {
        Err(Error::InvalidMagic(found)) => assert_eq!(found, vec![0u8; 16]),
        _ => panic!("expected a magic mismatch"),
    }
}
