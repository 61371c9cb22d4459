use db::cap::int_key;
use db::db::Db;
use db::schema::{BareTy, ColDecl, ColTy, CreateTable, Rid};
use rand::seq::SliceRandom;
use rand::{Rng, SeedableRng};
use std::collections::BTreeSet;

fn int_table(db: &mut Db) -> usize {
    let c = CreateTable { name: "test", cols: vec![ColDecl { name: "id", ty: ColTy { ty: BareTy::Int, size: 0 }, notnull: true }], cons: vec![] };
    db.create_table(&c).unwrap();
    db.create_index("test", "id").unwrap();
    db.get_tp("test").unwrap().id as usize
}

fn count16(db: &Db, page: usize) -> usize {
    let p = db.get_page(page);
    p[8] as usize + 256 * p[9] as usize
}

fn free_pages(db: &mut Db) -> Vec<usize> {
    let n = db.pages();
    let mut out = Vec::new();
    loop {
        let id = db.allocate_page();
        if id == n {
            break;
        }
        out.push(id);
    }
    out
}

#[test]
fn index() {
    const N: usize = 10000;
    let mut rng = rand_chacha::ChaCha8Rng::seed_from_u64(10);
    let (mut ins, mut del, mut test) = (vec![0; N], vec![0; N], vec![0; N]);
    for &max in &[N / 100, N / 10, N, N * 10, N * 100] {
        let mut db = Db::create("test");
        let mut map = BTreeSet::new();
        for x in &mut ins {
            *x = rng.gen_range(0, max as i32);
        }
        del.copy_from_slice(&ins);
        del.shuffle(&mut rng);
        test.copy_from_slice(&ins);
        test.shuffle(&mut rng);
        let t = int_table(&mut db);
        // a small fan-out makes the tree split often
        db.set_index_cap(t, 0, 8);
        let mut tp = db.get_tp("test").unwrap();
        let mut row = vec![0u32; N];
        for (idx, &x) in ins.iter().enumerate() {
            let rid = db.allocate_data_slot(&mut tp);
            row[idx] = rid.raw;
            db.insert_key(t, 0, &int_key(x), rid.raw).unwrap();
            map.insert((x, idx as i32));
        }
        for &q in &test {
            let index_count = db.find_key(t, 0, &int_key(q)).len();
            let map_count = map.range((&(q, 0))..(&(q, N as i32))).count();
            assert_eq!(index_count, map_count);
        }
        for &d in del[0..N / 2].iter() {
            for rid in db.find_key(t, 0, &int_key(d)) {
                assert!(db.delete_key(t, 0, &int_key(d), rid));
                db.deallocate_data_slot(&mut tp, Rid { raw: rid });
            }
            let rm = map.range((&(d, 0))..(&(d, N as i32))).cloned().collect::<Vec<_>>();
            for x in rm {
                map.remove(&x);
            }
        }
        for &q in &test {
            let index_count = db.find_key(t, 0, &int_key(q)).len();
            let map_count = map.range((&(q, 0))..(&(q, N as i32))).count();
            assert_eq!(index_count, map_count);
        }
        // what is left, in the order of the index
        let all = db.scan(t, 0, &int_key(i32::MIN), 0, &int_key(i32::MAX), u32::MAX);
        let mut want: Vec<(Vec<u8>, u32)> = map.iter().map(|&(x, idx)| (int_key(x), row[idx as usize])).collect();
        want.sort();
        let got: Vec<(Vec<u8>, u32)> = all.iter().map(|e| (e.key.clone(), e.rid)).collect();
        assert_eq!(got, want);
        assert_eq!(db.record_iter(&tp).len(), map.len());
    }
}

#[test]
fn deleted_entries_are_gone_and_the_rest_comes_back_in_order() {
    let mut db = Db::create("round");
    let t = int_table(&mut db);
    db.set_index_cap(t, 0, 3);
    let n: u32 = 300;
    for i in 0..n {
        let v = ((i * 7919) % 101) as i32 - 50;
        db.insert_key(t, 0, &int_key(v), i).unwrap();
    }
    let mut want: Vec<(Vec<u8>, u32)> = Vec::new();
    for i in 0..n {
        let v = ((i * 7919) % 101) as i32 - 50;
        if i % 3 == 1 {
            assert!(db.delete_key(t, 0, &int_key(v), i));
            // a second deletion finds nothing
            assert!(!db.delete_key(t, 0, &int_key(v), i));
        } else {
            want.push((int_key(v), i));
        }
    }
    want.sort();
    let all = db.scan(t, 0, &int_key(i32::MIN), 0, &int_key(i32::MAX), u32::MAX);
    let got: Vec<(Vec<u8>, u32)> = all.iter().map(|e| (e.key.clone(), e.rid)).collect();
    assert_eq!(got, want);
    let part = db.scan(t, 0, &int_key(-10), 0, &int_key(10), u32::MAX);
    let got: Vec<(Vec<u8>, u32)> = part.iter().map(|e| (e.key.clone(), e.rid)).collect();
    let want_part: Vec<(Vec<u8>, u32)> = want.iter().filter(|e| e.0 >= int_key(-10) && e.0 <= int_key(10)).cloned().collect();
    assert_eq!(got, want_part);
}

#[test]
fn deleting_a_missing_entry_changes_nothing() {
    let mut db = Db::create("miss");
    let t = int_table(&mut db);
    db.set_index_cap(t, 0, 3);
    for i in 0..20 {
        db.insert_key(t, 0, &int_key(i * 2), i as u32).unwrap();
    }
    let before = db.to_bytes();
    assert!(!db.delete_key(t, 0, &int_key(7), 3));
    assert!(!db.delete_key(t, 0, &int_key(8), 3));
    assert!(!db.delete_key(t, 0, &int_key(1000), 0));
    assert_eq!(db.to_bytes(), before);
    assert!(db.delete_key(t, 0, &int_key(8), 4));
    assert_ne!(db.to_bytes(), before);
}

#[test]
fn a_thin_leaf_borrows_before_it_merges() {
    let mut db = Db::create("thin");
    let t = int_table(&mut db);
    db.set_index_cap(t, 0, 3);
    for v in 0..5 {
        db.insert_key(t, 0, &int_key(v), v as u32).unwrap();
    }
    // page 2: leaf with 0 and 1; page 4: leaf with 2, 3 and 4; page 3: the root
    assert_eq!(db.get_ci("test", "id").unwrap().index, 3);
    assert_eq!((count16(&db, 2), count16(&db, 4), count16(&db, 3)), (2, 3, 2));
    // the left leaf falls under two entries and its neighbour can spare one
    assert!(db.delete_key(t, 0, &int_key(0), 0));
    assert_eq!((count16(&db, 2), count16(&db, 4), count16(&db, 3)), (2, 2, 2));
    assert_eq!(db.pages(), 5);
    assert_eq!(db.find_key(t, 0, &int_key(2)), vec![2]);
    // now the neighbour cannot: the leaves merge and the root gives way
    assert!(db.delete_key(t, 0, &int_key(1), 1));
    assert_eq!(db.get_ci("test", "id").unwrap().index, 2);
    assert_eq!(count16(&db, 2), 3);
    let all = db.scan(t, 0, &int_key(i32::MIN), 0, &int_key(i32::MAX), u32::MAX);
    let got: Vec<u32> = all.iter().map(|e| e.rid).collect();
    assert_eq!(got, vec![2, 3, 4]);
    // the right leaf went back first, then the old root
    assert_eq!(free_pages(&mut db), vec![3, 4]);
}

#[test]
fn an_emptied_index_is_one_empty_leaf() {
    let mut db = Db::create("empty");
    let t = int_table(&mut db);
    db.set_index_cap(t, 0, 4);
    for v in 0..200 {
        db.insert_key(t, 0, &int_key((v * 37) % 200), v as u32).unwrap();
    }
    let pages = db.pages();
    for v in (0..200).rev() {
        assert!(db.delete_key(t, 0, &int_key((v * 37) % 200), v as u32));
    }
    assert_eq!(db.pages(), pages);
    let root = db.get_ci("test", "id").unwrap().index as usize;
    assert_eq!(count16(&db, root), 0);
    assert_eq!(db.get_page(root)[16], 1);
    assert!(db.scan(t, 0, &int_key(i32::MIN), 0, &int_key(i32::MAX), u32::MAX).is_empty());
    // every page but the meta page, the table and the root is free again
    assert_eq!(free_pages(&mut db).len(), pages - 3);
    // and the index takes entries as before
    db.insert_key(t, 0, &int_key(5), 1).unwrap();
    assert_eq!(db.find_key(t, 0, &int_key(5)), vec![1]);
}
