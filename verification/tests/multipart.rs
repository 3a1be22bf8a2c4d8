use object_fs::errors::StorageError;
use object_fs::store::FileSystem;

fn b(s: &str) -> Vec<u8> {
    s.as_bytes().to_vec()
}

fn fresh() -> FileSystem {
    let mut fs = FileSystem::new(b("/data"));
    fs.create_bucket(&b("b1")).unwrap();
    fs
}

#[test]
fn multipart_assembles_parts_in_order() {
    let mut fs = fresh();
    let id = fs.create_multipart_upload(&b("b1"), &b("big.bin")).unwrap();
    let c1 = fs.upload_part(id, 1, b("AAA")).unwrap();
    let c2 = fs.upload_part(id, 2, b("BBB")).unwrap();
    let out = fs
        .complete_multipart_upload(id, &vec![(1, c1), (2, c2)])
        .unwrap();
    assert_eq!(out.size, 6);
    assert_eq!(out.checksum, 0x2866e3eebadc7bec);
    let got = fs.get_object(&b("b1"), &b("big.bin"), None).unwrap();
    assert_eq!(got.body, b("AAABBB"));
    // the upload is finalized: a second completion is unknown
    assert_eq!(
        fs.complete_multipart_upload(id, &vec![(1, c1)]).err(),
        Some(StorageError::NoSuchUpload)
    );
}

#[test]
fn sparse_part_numbers_are_allowed() {
    let mut fs = fresh();
    let id = fs.create_multipart_upload(&b("b1"), &b("k")).unwrap();
    let c5 = fs.upload_part(id, 5, b("xx")).unwrap();
    let c9 = fs.upload_part(id, 9, b("yy")).unwrap();
    fs.complete_multipart_upload(id, &vec![(5, c5), (9, c9)]).unwrap();
    assert_eq!(fs.get_object(&b("b1"), &b("k"), None).unwrap().body, b("xxyy"));
}

#[test]
fn completion_is_all_or_nothing() {
    let mut fs = fresh();
    fs.put_object(&b("b1"), &b("dst"), b("old"), b(""), Vec::new()).unwrap();
    let id = fs.create_multipart_upload(&b("b1"), &b("dst")).unwrap();
    let c1 = fs.upload_part(id, 1, b("new-one")).unwrap();
    let c2 = fs.upload_part(id, 2, b("new-two")).unwrap();
    // a wrong checksum in the list must not touch the destination
    let wrong = c2.wrapping_add(1);
    assert_eq!(
        fs.complete_multipart_upload(id, &vec![(1, c1), (2, wrong)]).err(),
        Some(StorageError::InvalidPart)
    );
    assert_eq!(fs.get_object(&b("b1"), &b("dst"), None).unwrap().body, b("old"));
    // the upload stays completable: correcting the list succeeds
    fs.complete_multipart_upload(id, &vec![(1, c1), (2, c2)]).unwrap();
    assert_eq!(
        fs.get_object(&b("b1"), &b("dst"), None).unwrap().body,
        b("new-onenew-two")
    );
}

#[test]
fn part_list_must_be_strictly_increasing() {
    let mut fs = fresh();
    let id = fs.create_multipart_upload(&b("b1"), &b("k")).unwrap();
    let c1 = fs.upload_part(id, 1, b("a")).unwrap();
    let c2 = fs.upload_part(id, 2, b("b")).unwrap();
    assert_eq!(
        fs.complete_multipart_upload(id, &vec![(2, c2), (1, c1)]).err(),
        Some(StorageError::InvalidPartOrder)
    );
    assert_eq!(
        fs.complete_multipart_upload(id, &vec![(1, c1), (1, c1)]).err(),
        Some(StorageError::InvalidPartOrder)
    );
    assert_eq!(
        fs.complete_multipart_upload(id, &Vec::new()).err(),
        Some(StorageError::InvalidPart)
    );
    // still completable after all those rejections
    fs.complete_multipart_upload(id, &vec![(1, c1), (2, c2)]).unwrap();
}

#[test]
fn listing_a_missing_part_fails() {
    let mut fs = fresh();
    let id = fs.create_multipart_upload(&b("b1"), &b("k")).unwrap();
    let c1 = fs.upload_part(id, 1, b("a")).unwrap();
    assert_eq!(
        fs.complete_multipart_upload(id, &vec![(1, c1), (7, c1)]).err(),
        Some(StorageError::InvalidPart)
    );
}

#[test]
fn reuploading_a_part_replaces_it() {
    let mut fs = fresh();
    let id = fs.create_multipart_upload(&b("b1"), &b("k")).unwrap();
    let _old = fs.upload_part(id, 1, b("first")).unwrap();
    let newer = fs.upload_part(id, 1, b("second")).unwrap();
    fs.complete_multipart_upload(id, &vec![(1, newer)]).unwrap();
    assert_eq!(fs.get_object(&b("b1"), &b("k"), None).unwrap().body, b("second"));
}

#[test]
fn upload_validation_errors() {
    let mut fs = fresh();
    assert_eq!(
        fs.create_multipart_upload(&b("missing"), &b("k")).err(),
        Some(StorageError::NoSuchBucket)
    );
    assert_eq!(
        fs.create_multipart_upload(&b("b1"), &b("..")).err(),
        Some(StorageError::InvalidName)
    );
    assert_eq!(
        fs.upload_part(42, 1, b("x")).err(),
        Some(StorageError::NoSuchUpload)
    );
    let id = fs.create_multipart_upload(&b("b1"), &b("k")).unwrap();
    assert_eq!(
        fs.upload_part(id, 0, b("x")).err(),
        Some(StorageError::InvalidPart)
    );
    assert_eq!(
        fs.complete_multipart_upload(99, &vec![(1, 0)]).err(),
        Some(StorageError::NoSuchUpload)
    );
}

#[test]
fn upload_ids_are_unique() {
    let mut fs = fresh();
    let id1 = fs.create_multipart_upload(&b("b1"), &b("k1")).unwrap();
    let id2 = fs.create_multipart_upload(&b("b1"), &b("k2")).unwrap();
    assert_ne!(id1, id2);
}

#[test]
fn abort_is_idempotent() {
    let mut fs = fresh();
    let id = fs.create_multipart_upload(&b("b1"), &b("k")).unwrap();
    let c1 = fs.upload_part(id, 1, b("x")).unwrap();
    assert_eq!(fs.abort_multipart_upload(id), Ok(()));
    assert_eq!(
        fs.complete_multipart_upload(id, &vec![(1, c1)]).err(),
        Some(StorageError::NoSuchUpload)
    );
    assert_eq!(fs.abort_multipart_upload(id), Ok(()));
    assert_eq!(fs.abort_multipart_upload(123456), Ok(()));
    // nothing was committed
    assert_eq!(
        fs.get_object(&b("b1"), &b("k"), None).err(),
        Some(StorageError::NoSuchKey)
    );
}

#[test]
fn completion_fails_when_bucket_was_deleted() {
    let mut fs = fresh();
    let id = fs.create_multipart_upload(&b("b1"), &b("k")).unwrap();
    let c1 = fs.upload_part(id, 1, b("x")).unwrap();
    fs.delete_bucket(&b("b1")).unwrap();
    assert_eq!(
        fs.complete_multipart_upload(id, &vec![(1, c1)]).err(),
        Some(StorageError::NoSuchBucket)
    );
    // the staging area survives: recreate the bucket and retry
    fs.create_bucket(&b("b1")).unwrap();
    fs.complete_multipart_upload(id, &vec![(1, c1)]).unwrap();
    assert_eq!(fs.get_object(&b("b1"), &b("k"), None).unwrap().body, b("x"));
}
