use object_fs::errors::StorageError;
use object_fs::store::FileSystem;

fn b(s: &str) -> Vec<u8> {
    s.as_bytes().to_vec()
}

fn fresh() -> FileSystem {
    let mut fs = FileSystem::new(b("/data"));
    fs.create_bucket(&b("b1")).unwrap();
    fs
}

#[test]
fn put_get_round_trip() {
    let mut fs = fresh();
    let meta = vec![(b("owner"), b("tests"))];
    let out = fs
        .put_object(&b("b1"), &b("a/b.txt"), b("hello"), b("text/plain"), meta.clone())
        .unwrap();
    assert_eq!(out.size, 5);
    let got = fs.get_object(&b("b1"), &b("a/b.txt"), None).unwrap();
    assert_eq!(got.body, b("hello"));
    assert_eq!(got.meta.content_type, b("text/plain"));
    assert_eq!(got.meta.user_meta, meta);
    assert_eq!(got.meta.size, 5);
    assert_eq!(got.meta.checksum, out.checksum);
    assert_eq!(got.meta.last_modified, out.last_modified);
    let listed = fs
        .list_objects(&b("b1"), &b("a/"), None, &None, 1000)
        .unwrap();
    assert_eq!(listed.keys, vec![b("a/b.txt")]);
    assert!(!listed.is_truncated);
}

#[test]
fn checksum_is_fnv1a() {
    let mut fs = fresh();
    let empty = fs
        .put_object(&b("b1"), &b("empty"), Vec::new(), b(""), Vec::new())
        .unwrap();
    assert_eq!(empty.checksum, 0xcbf29ce484222325);
    let hello = fs
        .put_object(&b("b1"), &b("hello"), b("hello"), b(""), Vec::new())
        .unwrap();
    assert_eq!(hello.checksum, 0xa430d84680aabd0b);
}

#[test]
fn get_missing_object() {
    let fs = fresh();
    assert_eq!(
        fs.get_object(&b("b1"), &b("nope"), None).err(),
        Some(StorageError::NoSuchKey)
    );
    assert_eq!(
        fs.get_object(&b("nope"), &b("k"), None).err(),
        Some(StorageError::NoSuchBucket)
    );
    assert_eq!(
        fs.head_object(&b("b1"), &b("nope")).err(),
        Some(StorageError::NoSuchKey)
    );
}

#[test]
fn delete_is_idempotent() {
    let mut fs = fresh();
    fs.put_object(&b("b1"), &b("k"), b("v"), b(""), Vec::new()).unwrap();
    assert_eq!(fs.delete_object(&b("b1"), &b("k")), Ok(()));
    assert_eq!(
        fs.get_object(&b("b1"), &b("k"), None).err(),
        Some(StorageError::NoSuchKey)
    );
    assert_eq!(fs.delete_object(&b("b1"), &b("k")), Ok(()));
    assert_eq!(fs.delete_object(&b("b1"), &b("never-existed")), Ok(()));
}

#[test]
fn put_replaces_previous_object() {
    let mut fs = fresh();
    fs.put_object(&b("b1"), &b("k"), b("one"), b("text/plain"), Vec::new()).unwrap();
    fs.put_object(&b("b1"), &b("k"), b("two"), b("text/html"), Vec::new()).unwrap();
    let got = fs.get_object(&b("b1"), &b("k"), None).unwrap();
    assert_eq!(got.body, b("two"));
    assert_eq!(got.meta.content_type, b("text/html"));
}

#[test]
fn unsafe_keys_are_rejected() {
    let mut fs = fresh();
    for key in ["", "/abs", "a//b", "a/", "..", "a/../b", ".", "a/.", "./a", "a\\b"] {
        assert_eq!(
            fs.put_object(&b("b1"), &b(key), b("v"), b(""), Vec::new()).err(),
            Some(StorageError::InvalidName),
            "key {:?} should be rejected",
            key
        );
    }
    assert_eq!(
        fs.put_object(&b("b1"), &b("a/.hidden"), b("v"), b(""), Vec::new()).err(),
        None
    );
}

#[test]
fn leaf_directory_conflicts_are_rejected() {
    let mut fs = fresh();
    fs.put_object(&b("b1"), &b("a"), b("v"), b(""), Vec::new()).unwrap();
    assert_eq!(
        fs.put_object(&b("b1"), &b("a/b"), b("v"), b(""), Vec::new()).err(),
        Some(StorageError::InvalidName)
    );
    // a sibling with the same byte prefix but no separator is fine
    assert!(fs.put_object(&b("b1"), &b("ab"), b("v"), b(""), Vec::new()).is_ok());
    // the other direction collides too
    fs.put_object(&b("b1"), &b("c/d"), b("v"), b(""), Vec::new()).unwrap();
    assert_eq!(
        fs.put_object(&b("b1"), &b("c"), b("v"), b(""), Vec::new()).err(),
        Some(StorageError::InvalidName)
    );
}

#[test]
fn range_get() {
    let mut fs = fresh();
    fs.put_object(&b("b1"), &b("k"), b("hello world"), b(""), Vec::new()).unwrap();
    let got = fs.get_object(&b("b1"), &b("k"), Some((0, 4))).unwrap();
    assert_eq!(got.body, b("hello"));
    assert_eq!(got.meta.size, 11);
    let tail = fs.get_object(&b("b1"), &b("k"), Some((6, 100))).unwrap();
    assert_eq!(tail.body, b("world"));
    let one = fs.get_object(&b("b1"), &b("k"), Some((4, 4))).unwrap();
    assert_eq!(one.body, b("o"));
    assert_eq!(
        fs.get_object(&b("b1"), &b("k"), Some((11, 12))).err(),
        Some(StorageError::InvalidRange)
    );
    assert_eq!(
        fs.get_object(&b("b1"), &b("k"), Some((5, 2))).err(),
        Some(StorageError::InvalidRange)
    );
}

#[test]
fn copy_object_duplicates_bytes() {
    let mut fs = fresh();
    fs.create_bucket(&b("b2")).unwrap();
    let meta = vec![(b("k"), b("v"))];
    fs.put_object(&b("b1"), &b("src"), b("payload"), b("text/plain"), meta.clone()).unwrap();
    let out = fs
        .copy_object(&b("b1"), &b("src"), &b("b2"), &b("dst"), None)
        .unwrap();
    assert_eq!(out.size, 7);
    let got = fs.get_object(&b("b2"), &b("dst"), None).unwrap();
    assert_eq!(got.body, b("payload"));
    assert_eq!(got.meta.content_type, b("text/plain"));
    assert_eq!(got.meta.user_meta, meta);
    // replacement metadata is honored
    fs.copy_object(
        &b("b1"),
        &b("src"),
        &b("b2"),
        &b("dst2"),
        Some((b("app/json"), vec![(b("x"), b("y"))])),
    )
    .unwrap();
    let got2 = fs.get_object(&b("b2"), &b("dst2"), None).unwrap();
    assert_eq!(got2.meta.content_type, b("app/json"));
    assert_eq!(got2.meta.user_meta, vec![(b("x"), b("y"))]);
    assert_eq!(
        fs.copy_object(&b("b1"), &b("missing"), &b("b2"), &b("d"), None).err(),
        Some(StorageError::NoSuchKey)
    );
}

#[test]
fn delete_objects_removes_batch() {
    let mut fs = fresh();
    for k in ["x", "y", "z"] {
        fs.put_object(&b("b1"), &b(k), b("v"), b(""), Vec::new()).unwrap();
    }
    let flags = fs
        .delete_objects(&b("b1"), &vec![b("x"), b("z"), b("never")])
        .unwrap();
    assert_eq!(flags, vec![true, true, true]);
    assert!(fs.get_object(&b("b1"), &b("x"), None).is_err());
    assert!(fs.get_object(&b("b1"), &b("y"), None).is_ok());
    assert!(fs.get_object(&b("b1"), &b("z"), None).is_err());
    assert_eq!(
        fs.delete_objects(&b("missing"), &vec![b("x")]).err(),
        Some(StorageError::NoSuchBucket)
    );
}

#[test]
fn independent_keys_stay_visible() {
    let mut fs = fresh();
    fs.put_object(&b("b1"), &b("k1"), b("one"), b(""), Vec::new()).unwrap();
    fs.put_object(&b("b1"), &b("k2"), b("two"), b(""), Vec::new()).unwrap();
    assert_eq!(fs.get_object(&b("b1"), &b("k1"), None).unwrap().body, b("one"));
    assert_eq!(fs.get_object(&b("b1"), &b("k2"), None).unwrap().body, b("two"));
}
