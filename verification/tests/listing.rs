use object_fs::store::FileSystem;

fn b(s: &str) -> Vec<u8> {
    s.as_bytes().to_vec()
}

fn filled() -> FileSystem {
    let mut fs = FileSystem::new(b("/data"));
    fs.create_bucket(&b("b1")).unwrap();
    // inserted out of order on purpose; '/' (0x2f) sorts before 'b' (0x62)
    for k in ["b", "a/y", "ab", "a/x", "c/d/e", "c/f"] {
        fs.put_object(&b("b1"), &b(k), b("v"), b(""), Vec::new()).unwrap();
    }
    fs
}

#[test]
fn listing_is_bytewise_sorted() {
    let fs = filled();
    let out = fs.list_objects(&b("b1"), &b(""), None, &None, 1000).unwrap();
    assert_eq!(
        out.keys,
        vec![b("a/x"), b("a/y"), b("ab"), b("b"), b("c/d/e"), b("c/f")]
    );
    assert!(out.common_prefixes.is_empty());
    assert!(!out.is_truncated);
    assert_eq!(out.next_marker, None);
}

#[test]
fn prefix_filters_keys() {
    let fs = filled();
    let out = fs.list_objects(&b("b1"), &b("a/"), None, &None, 1000).unwrap();
    assert_eq!(out.keys, vec![b("a/x"), b("a/y")]);
    let out2 = fs.list_objects(&b("b1"), &b("zz"), None, &None, 1000).unwrap();
    assert!(out2.keys.is_empty());
    assert!(!out2.is_truncated);
}

#[test]
fn delimiter_groups_common_prefixes() {
    let fs = filled();
    let out = fs
        .list_objects(&b("b1"), &b(""), Some(b'/'), &None, 1000)
        .unwrap();
    // keys under a delimiter-bounded segment roll into one entry each
    assert_eq!(out.keys, vec![b("ab"), b("b")]);
    assert_eq!(out.common_prefixes, vec![b("a/"), b("c/")]);
    assert!(!out.is_truncated);
}

#[test]
fn delimiter_after_prefix() {
    let fs = filled();
    let out = fs
        .list_objects(&b("b1"), &b("c/"), Some(b'/'), &None, 1000)
        .unwrap();
    assert_eq!(out.keys, vec![b("c/f")]);
    assert_eq!(out.common_prefixes, vec![b("c/d/")]);
}

#[test]
fn pagination_concatenates_to_full_listing() {
    let fs = filled();
    let full = fs.list_objects(&b("b1"), &b(""), None, &None, 1000).unwrap();
    let mut collected: Vec<Vec<u8>> = Vec::new();
    let mut marker: Option<Vec<u8>> = None;
    let mut rounds = 0;
    loop {
        let page = fs.list_objects(&b("b1"), &b(""), None, &marker, 2).unwrap();
        collected.extend(page.keys.clone());
        if !page.is_truncated {
            assert_eq!(page.next_marker, None);
            break;
        }
        assert_eq!(page.keys.len(), 2);
        marker = page.next_marker.clone();
        assert!(marker.is_some());
        rounds += 1;
        assert!(rounds < 10);
    }
    assert_eq!(collected, full.keys);
}

#[test]
fn pagination_with_delimiter_counts_both_kinds() {
    let fs = filled();
    // entries in walk order: "a/", "ab", "b", "c/"
    let p1 = fs
        .list_objects(&b("b1"), &b(""), Some(b'/'), &None, 3)
        .unwrap();
    assert_eq!(p1.common_prefixes, vec![b("a/")]);
    assert_eq!(p1.keys, vec![b("ab"), b("b")]);
    assert!(p1.is_truncated);
    let m = p1.next_marker.clone().unwrap();
    assert_eq!(m, b("b"));
    let p2 = fs
        .list_objects(&b("b1"), &b(""), Some(b'/'), &Some(m), 3)
        .unwrap();
    assert_eq!(p2.common_prefixes, vec![b("c/")]);
    assert!(p2.keys.is_empty());
    assert!(!p2.is_truncated);
}

#[test]
fn marker_resumes_strictly_after() {
    let fs = filled();
    let out = fs
        .list_objects(&b("b1"), &b(""), None, &Some(b("ab")), 1000)
        .unwrap();
    assert_eq!(out.keys, vec![b("b"), b("c/d/e"), b("c/f")]);
}

#[test]
fn v2_token_wins_over_start_after() {
    let fs = filled();
    let first = fs
        .list_objects_v2(&b("b1"), &b(""), None, &None, &Some(b("a/x")), 1000)
        .unwrap();
    assert_eq!(
        first.keys,
        vec![b("a/y"), b("ab"), b("b"), b("c/d/e"), b("c/f")]
    );
    let page = fs
        .list_objects_v2(&b("b1"), &b(""), None, &None, &None, 2)
        .unwrap();
    assert!(page.is_truncated);
    let token = page.next_continuation_token.clone().unwrap();
    let page2 = fs
        .list_objects_v2(&b("b1"), &b(""), None, &Some(token), &Some(b("zzz")), 2)
        .unwrap();
    // the token, not start-after, drives the cursor
    assert_eq!(page2.keys, vec![b("ab"), b("b")]);
}

#[test]
fn v2_pagination_concatenates() {
    let fs = filled();
    let full = fs
        .list_objects_v2(&b("b1"), &b(""), None, &None, &None, 1000)
        .unwrap();
    let mut collected: Vec<Vec<u8>> = Vec::new();
    let mut token: Option<Vec<u8>> = None;
    loop {
        let page = fs
            .list_objects_v2(&b("b1"), &b(""), None, &token, &None, 2)
            .unwrap();
        collected.extend(page.keys.clone());
        if !page.is_truncated {
            break;
        }
        token = page.next_continuation_token.clone();
    }
    assert_eq!(collected, full.keys);
}

#[test]
fn zero_max_keys_returns_nothing() {
    let fs = filled();
    let out = fs.list_objects(&b("b1"), &b(""), None, &None, 0).unwrap();
    assert!(out.keys.is_empty());
    assert!(out.common_prefixes.is_empty());
    assert!(out.is_truncated);
    assert_eq!(out.next_marker, None);
}

#[test]
fn repeated_listing_is_deterministic() {
    let fs = filled();
    let a = fs
        .list_objects(&b("b1"), &b(""), Some(b'/'), &None, 1000)
        .unwrap();
    let c = fs
        .list_objects(&b("b1"), &b(""), Some(b'/'), &None, 1000)
        .unwrap();
    assert_eq!(a.keys, c.keys);
    assert_eq!(a.common_prefixes, c.common_prefixes);
}
