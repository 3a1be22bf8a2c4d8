use object_fs::errors::StorageError;
use object_fs::store::FileSystem;

fn b(s: &str) -> Vec<u8> {
    s.as_bytes().to_vec()
}

#[test]
fn bucket_lifecycle() {
    let mut fs = FileSystem::new(b("/data"));
    assert_eq!(fs.create_bucket(&b("b1")), Ok(()));
    assert_eq!(fs.head_bucket(&b("b1")), Ok(()));
    assert_eq!(fs.create_bucket(&b("b1")), Err(StorageError::AlreadyExists));
    assert_eq!(fs.list_buckets(), vec![b("b1")]);
    assert_eq!(fs.delete_bucket(&b("b1")), Ok(()));
    assert_eq!(fs.head_bucket(&b("b1")), Err(StorageError::NoSuchBucket));
    assert_eq!(fs.delete_bucket(&b("b1")), Err(StorageError::NoSuchBucket));
}

#[test]
fn bucket_names_are_validated() {
    let mut fs = FileSystem::new(b("/data"));
    assert_eq!(fs.create_bucket(&b("")), Err(StorageError::InvalidName));
    assert_eq!(fs.create_bucket(&b(".")), Err(StorageError::InvalidName));
    assert_eq!(fs.create_bucket(&b("..")), Err(StorageError::InvalidName));
    assert_eq!(fs.create_bucket(&b("a/b")), Err(StorageError::InvalidName));
    assert_eq!(fs.create_bucket(&b("a\\b")), Err(StorageError::InvalidName));
    assert_eq!(fs.create_bucket(&b("ok-name")), Ok(()));
}

#[test]
fn bucket_list_is_sorted() {
    let mut fs = FileSystem::new(b("/data"));
    assert_eq!(fs.create_bucket(&b("zeta")), Ok(()));
    assert_eq!(fs.create_bucket(&b("alpha")), Ok(()));
    assert_eq!(fs.create_bucket(&b("mu")), Ok(()));
    assert_eq!(fs.list_buckets(), vec![b("alpha"), b("mu"), b("zeta")]);
}

#[test]
fn delete_nonempty_bucket_fails() {
    let mut fs = FileSystem::new(b("/data"));
    fs.create_bucket(&b("b1")).unwrap();
    fs.put_object(&b("b1"), &b("k"), b("v"), b(""), Vec::new()).unwrap();
    assert_eq!(fs.delete_bucket(&b("b1")), Err(StorageError::BucketNotEmpty));
    assert_eq!(fs.delete_object(&b("b1"), &b("k")), Ok(()));
    assert_eq!(fs.delete_bucket(&b("b1")), Ok(()));
}

#[test]
fn bucket_location_is_resolved_under_root() {
    let mut fs = FileSystem::new(b("/data"));
    fs.create_bucket(&b("b1")).unwrap();
    assert_eq!(fs.get_bucket_location(&b("b1")), Ok(b("/data/b1")));
    assert_eq!(
        fs.get_bucket_location(&b("nope")),
        Err(StorageError::NoSuchBucket)
    );
}
