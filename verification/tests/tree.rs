use db::cap::{bool_key, int_key, text_key};
use db::db::Db;
use db::error::Error;
use db::schema::{BareTy, ColDecl, ColTy, CreateTable, TableCons, TableConsKind};

fn int_table(db: &mut Db, unique: bool) -> usize {
    let cons = if unique { vec![TableCons { name: "id", kind: TableConsKind::Primary }] } else { vec![] };
    let c = CreateTable { name: "test", cols: vec![ColDecl { name: "id", ty: ColTy { ty: BareTy::Int, size: 0 }, notnull: true }], cons };
    db.create_table(&c).unwrap();
    if !unique {
        db.create_index("test", "id").unwrap();
    }
    db.get_tp("test").unwrap().id as usize
}

#[test]
fn integer_keys_order_as_integers() {
    assert_eq!(int_key(0), vec![0x80, 0, 0, 0]);
    assert_eq!(int_key(-1), vec![0x7f, 0xff, 0xff, 0xff]);
    assert_eq!(int_key(i32::MIN), vec![0, 0, 0, 0]);
    assert_eq!(int_key(i32::MAX), vec![0xff, 0xff, 0xff, 0xff]);
    assert!(int_key(-5) < int_key(3));
    assert!(int_key(258) > int_key(257));
}

#[test]
fn text_keys_are_filled_up_with_zero_bytes() {
    assert_eq!(text_key(b"ab", 5), vec![b'a', b'b', 0, 0, 0]);
    assert_eq!(text_key(b"", 2), vec![0, 0]);
    assert_eq!(text_key(b"abc", 3), vec![b'a', b'b', b'c']);
    assert!(text_key(b"ab", 4) < text_key(b"abc", 4));
    assert!(text_key(b"b", 4) > text_key(b"abc", 4));
    assert_eq!(bool_key(false), vec![0]);
    assert_eq!(bool_key(true), vec![1]);
}

#[test]
fn text_index_finds_rows_by_key() {
    let mut db = Db::create("text");
    let c = CreateTable {
        name: "people",
        cols: vec![
            ColDecl { name: "id", ty: ColTy { ty: BareTy::Int, size: 0 }, notnull: true },
            ColDecl { name: "name", ty: ColTy { ty: BareTy::VarChar, size: 6 }, notnull: false },
        ],
        cons: vec![],
    };
    db.create_table(&c).unwrap();
    db.create_index("people", "name").unwrap();
    let t = db.get_tp("people").unwrap().id as usize;
    db.set_index_cap(t, 1, 3);
    let names: Vec<&[u8]> = vec![b"mia", b"bo", b"zoe", b"al", b"bob", b"bo", b"", b"yannis"];
    for (i, n) in names.iter().enumerate() {
        db.insert_key(t, 1, &text_key(n, 6), i as u32).unwrap();
    }
    assert_eq!(db.find_key(t, 1, &text_key(b"bo", 6)), vec![1, 5]);
    assert_eq!(db.find_key(t, 1, &text_key(b"b", 6)), Vec::<u32>::new());
    let all = db.scan(t, 1, &text_key(b"", 6), 0, &text_key(b"zzzzzz", 6), u32::MAX);
    let got: Vec<u32> = all.iter().map(|e| e.rid).collect();
    assert_eq!(got, vec![6, 3, 1, 5, 4, 0, 7, 2]);
    assert!(db.delete_key(t, 1, &text_key(b"bo", 6), 1));
    assert_eq!(db.find_key(t, 1, &text_key(b"bo", 6)), vec![5]);
}

#[test]
fn inserted_entries_come_back_in_order() {
    let mut db = Db::create("tree");
    let t = int_table(&mut db, false);
    db.set_index_cap(t, 0, 4);
    let values: Vec<i32> = vec![50, 10, 40, 20, 30, 60, 5, 55, 45, 15, 25, 35, 20, 20, -7, 20];
    for (i, v) in values.iter().enumerate() {
        assert_eq!(db.insert_key(t, 0, &int_key(*v), i as u32), Ok(()));
    }
    let all = db.scan(t, 0, &int_key(i32::MIN), 0, &int_key(i32::MAX), u32::MAX);
    let got: Vec<(Vec<u8>, u32)> = all.iter().map(|e| (e.key.clone(), e.rid)).collect();
    let mut want: Vec<(Vec<u8>, u32)> = values.iter().enumerate().map(|(i, v)| (int_key(*v), i as u32)).collect();
    want.sort();
    assert_eq!(got, want);
    assert_eq!(db.find_key(t, 0, &int_key(20)), vec![3, 12, 13, 15]);
    assert_eq!(db.find_key(t, 0, &int_key(21)), Vec::<u32>::new());
    let some = db.scan(t, 0, &int_key(20), 12, &int_key(40), 2);
    let got: Vec<u32> = some.iter().map(|e| e.rid).collect();
    assert_eq!(got, vec![12, 13, 15, 10, 4, 11, 2]);
    assert!(db.scan(t, 0, &int_key(41), 0, &int_key(40), 0).is_empty());
    // an entry that is there already is left alone
    assert_eq!(db.insert_key(t, 0, &int_key(20), 3), Ok(()));
    assert_eq!(db.find_key(t, 0, &int_key(20)), vec![3, 12, 13, 15]);
}

#[test]
fn unique_index_refuses_a_second_row_for_a_key() {
    let mut db = Db::create("uniq");
    let t = int_table(&mut db, true);
    db.set_index_cap(t, 0, 3);
    for v in 0..40 {
        assert_eq!(db.insert_key(t, 0, &int_key(v * 3), v as u32), Ok(()));
    }
    assert_eq!(db.insert_key(t, 0, &int_key(30), 999), Err(Error::DupIndexValue));
    assert_eq!(db.insert_key(t, 0, &int_key(30), 10), Err(Error::DupIndexValue));
    assert_eq!(db.insert_key(t, 0, &int_key(31), 999), Ok(()));
    assert_eq!(db.find_key(t, 0, &int_key(30)), vec![10]);
    assert_eq!(db.find_key(t, 0, &int_key(31)), vec![999]);
}

#[test]
fn dropped_index_gives_children_back_before_parents() {
    let mut db = Db::create("post");
    let t = int_table(&mut db, false);
    db.set_index_cap(t, 0, 3);
    assert_eq!(db.index_height(t, 0), 0);
    // with a fan-out of three, four entries split the root leaf once
    for v in 0..4 {
        db.insert_key(t, 0, &int_key(v), v as u32).unwrap();
    }
    // page 1: table, page 2: first leaf, page 3: new root, page 4: second leaf
    assert_eq!(db.pages(), 5);
    assert_eq!(db.index_height(t, 0), 1);
    assert_eq!(db.get_ci("test", "id").unwrap().index, 3);
    db.drop_index("test", "id").unwrap();
    // given back in the order leaf 2, leaf 4, root 3: they come out in reverse
    assert_eq!(db.allocate_page(), 3);
    assert_eq!(db.allocate_page(), 4);
    assert_eq!(db.allocate_page(), 2);
}
