use linhash::LinHash;

fn kv(i: u64) -> Vec<u8> {
    i.to_le_bytes().to_vec()
}

fn dir_str(dir: &tempfile::TempDir) -> &str {
    dir.path().to_str().unwrap()
}

#[test]
fn test_open() {
    let dir = tempfile::tempdir().unwrap();
    let _db = LinHash::open(dir_str(&dir), 1, 1).unwrap();
}

#[test]
fn test_insert() {
    let dir = tempfile::tempdir().unwrap();
    let mut db = LinHash::open(dir_str(&dir), 8, 8).unwrap();

    let n = 10000;

    for i in 0..n {
        db.insert(kv(i), kv(i)).unwrap();
    }

    assert_eq!(db.len(), n as u64);
}

#[test]
fn test_get() {
    let dir = tempfile::tempdir().unwrap();
    let mut db = LinHash::open(dir_str(&dir), 8, 8).unwrap();

    let n = 10000;

    for i in 0..n {
        db.insert(kv(i), kv(i)).unwrap();
    }

    assert_eq!(db.len(), n as u64);

    for i in 0..n {
        let v = db.get(&kv(i)).unwrap().unwrap();
        assert_eq!(v, kv(i));
    }
}

#[test]
fn test_list() {
    let dir = tempfile::tempdir().unwrap();
    let mut db = LinHash::open(dir_str(&dir), 8, 8).unwrap();

    let n = 10000;

    let mut expected = vec![];

    for i in 0..n {
        db.insert(kv(i), kv(i)).unwrap();
        expected.push((kv(i), kv(i)));
    }

    let mut actual = vec![];
    for (k, v) in db.list().unwrap() {
        actual.push((k, v));
    }

    expected.sort();
    actual.sort();
    assert_eq!(actual.len(), expected.len());
    assert_eq!(actual, expected);
}

#[test]
fn test_list_after_every_insert() {
    let dir = tempfile::tempdir().unwrap();
    let mut db = LinHash::open(dir_str(&dir), 8, 8).unwrap();

    let n = 2000;

    let mut expected = vec![];

    for i in 0..n {
        db.insert(kv(i), kv(i)).unwrap();

        expected.push((kv(i), kv(i)));

        let mut actual = vec![];
        for (k, v) in db.list().unwrap() {
            actual.push((k, v));
        }

        expected.sort();
        actual.sort();
        assert_eq!(actual.len(), expected.len());
        assert_eq!(actual, expected);
    }
}

#[test]
fn test_list_after_delete() {
    let dir = tempfile::tempdir().unwrap();
    let mut db = LinHash::open(dir_str(&dir), 8, 8).unwrap();

    let n = 10000;

    let mut expected = vec![];

    for i in 0..n {
        db.insert(kv(i), kv(i)).unwrap();
    }

    for i in 0..n / 2 {
        let removed = db.delete(&kv(i)).unwrap();
        assert_eq!(removed, Some(kv(i)));
    }

    for i in n / 2..n {
        expected.push((kv(i), kv(i)));
    }

    let mut actual = vec![];
    for (k, v) in db.list().unwrap() {
        actual.push((k, v));
    }

    expected.sort();
    actual.sort();
    assert_eq!(actual.len(), expected.len());
    assert_eq!(actual, expected);
}

#[test]
fn test_update() {
    let dir = tempfile::tempdir().unwrap();
    let mut db = LinHash::open(dir_str(&dir), 8, 8).unwrap();

    let n = 10000;

    for i in 0..n {
        assert_eq!(db.insert(kv(i), kv(i)).unwrap(), None);
    }

    for i in 0..n {
        assert_eq!(db.insert(kv(i), kv(i + 1)).unwrap(), Some(kv(i)));
    }

    assert_eq!(db.len(), n as u64);

    for i in 0..n {
        let v = db.get(&kv(i)).unwrap().unwrap();
        assert_eq!(v, kv(i + 1));
    }
}

#[test]
fn test_delete() {
    let dir = tempfile::tempdir().unwrap();
    let mut db = LinHash::open(dir_str(&dir), 8, 8).unwrap();

    let n = 10000;

    for i in 0..n {
        db.insert(kv(i), kv(i)).unwrap();
    }

    for i in 0..n {
        let removed = db.delete(&kv(i)).unwrap();
        assert_eq!(removed, Some(kv(i)));
    }

    assert_eq!(db.len(), 0);

    for i in 0..n {
        let v = db.get(&kv(i)).unwrap();
        assert!(v.is_none());
    }
}

#[test]
fn test_insert_half_delete_get() {
    let dir = tempfile::tempdir().unwrap();
    let mut db = LinHash::open(dir_str(&dir), 8, 8).unwrap();

    let n = 10000;

    for i in 0..n {
        db.insert(kv(i), kv(i)).unwrap();
    }

    for i in 0..n / 2 {
        let removed = db.delete(&kv(i)).unwrap();
        assert_eq!(removed, Some(kv(i)));
    }

    for i in 0..n / 2 {
        let v = db.get(&kv(i)).unwrap();
        assert!(v.is_none());
    }

    for i in n / 2..n {
        let e = db.get(&kv(i)).unwrap();
        assert_eq!(e, Some(kv(i)));
    }
}

#[test]
fn test_insert_half_delete_update() {
    let dir = tempfile::tempdir().unwrap();
    let mut db = LinHash::open(dir_str(&dir), 8, 8).unwrap();

    let n = 10000;

    for i in 0..n {
        db.insert(kv(i), kv(i)).unwrap();
    }

    for i in 0..n / 2 {
        let removed = db.delete(&kv(i)).unwrap();
        assert_eq!(removed, Some(kv(i)));
    }

    for i in n / 2..n {
        let old = db.insert(kv(i), kv(i + 1)).unwrap();
        assert_eq!(old, Some(kv(i)));
    }
}

#[test]
fn test_restore() {
    let dir = tempfile::tempdir().unwrap();
    let mut db = LinHash::open(dir_str(&dir), 8, 8).unwrap();

    let n = 10000;

    for i in 0..n {
        db.insert(kv(i), kv(i)).unwrap();
    }
    drop(db);

    let mut db = LinHash::open(dir_str(&dir), 8, 8).unwrap();

    assert_eq!(db.len(), n as u64);

    for i in n..2 * n {
        db.insert(kv(i), kv(i)).unwrap();
    }

    for i in 0..2 * n {
        let v = db.get(&kv(i)).unwrap().unwrap();
        assert_eq!(v, kv(i));
    }
}

#[test]
fn test_delete_absent_key() {
    let dir = tempfile::tempdir().unwrap();
    let mut db = LinHash::open(dir_str(&dir), 8, 8).unwrap();

    for i in 0..100 {
        db.insert(kv(i), kv(i)).unwrap();
    }
    assert_eq!(db.len(), 100);

    // Deleting an absent key returns nothing and leaves the count alone.
    assert_eq!(db.delete(&kv(1000)).unwrap(), None);
    assert_eq!(db.len(), 100);

    // Deleting a present key returns its value and decrements the count by
    // exactly one.
    assert_eq!(db.delete(&kv(7)).unwrap(), Some(kv(7)));
    assert_eq!(db.len(), 99);
}

#[test]
fn test_gc_keeps_reachable_pairs() {
    let dir = tempfile::tempdir().unwrap();
    let mut db = LinHash::open(dir_str(&dir), 8, 8).unwrap();

    let n = 5000;
    for i in 0..n {
        db.insert(kv(i), kv(i)).unwrap();
    }
    // Splitting abandons the split bucket's old overflow pages; reclaim
    // them, then check that every live pair is still there.
    db.gc().unwrap();

    assert_eq!(db.len(), n as u64);
    for i in 0..n {
        assert_eq!(db.get(&kv(i)).unwrap(), Some(kv(i)));
    }
}

#[test]
fn test_flush_then_reopen() {
    let dir = tempfile::tempdir().unwrap();
    let mut db = LinHash::open(dir_str(&dir), 8, 8).unwrap();

    for i in 0..200 {
        db.insert(kv(i), kv(i)).unwrap();
    }
    db.flush().unwrap();
    drop(db);

    let db = LinHash::open(dir_str(&dir), 8, 8).unwrap();
    assert_eq!(db.len(), 200);
    assert_eq!(db.get(&kv(42)).unwrap(), Some(kv(42)));
}

#[test]
fn test_open_missing_directory() {
    let r = LinHash::open("/nonexistent-dir-for-store/x", 8, 8);
    assert!(matches!(r, Err(linhash::error::Error::IO(_))));
}
