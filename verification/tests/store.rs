use h2okv::store::{delete, get, put, scan, DB};

#[test]
fn test_store() {
    let mut db = DB::new();
    assert_eq!(get("foo", &db), None);

    assert!(put("foo", "bar".as_bytes(), &mut db).is_ok());
    assert_eq!(get("foo", &db), Some("bar".to_string()));
    assert_eq!(scan("f", &db), vec!["foo".to_string()]);
    assert_eq!(scan("z", &db), Vec::<String>::new());

    assert!(put("find", "rust".as_bytes(), &mut db).is_ok());
    let v = scan("f", &db);
    assert_eq!(v.len(), 2);
    assert!(v.contains(&String::from("find")));
    assert!(v.contains(&String::from("foo")));
    let v = scan("", &db);
    assert!(v.contains(&String::from("find")));
    assert!(v.contains(&String::from("foo")));

    assert_eq!(delete("foo", &mut db), Some("bar".to_string()));
    assert_eq!(get("foo", &db), None);
    assert_eq!(scan("f", &db), vec!["find".to_string()]);

    assert_eq!(delete("foo", &mut db), None);
}

#[test]
fn test_get_after_put_returns_value() {
    let mut db = DB::new();
    assert!(put("alpha", "one".as_bytes(), &mut db).is_ok());
    assert_eq!(get("alpha", &db), Some("one".to_string()));
    assert!(put("alpha", "two".as_bytes(), &mut db).is_ok());
    assert_eq!(get("alpha", &db), Some("two".to_string()));
}

#[test]
fn test_get_after_delete_is_absent() {
    let mut db = DB::new();
    assert!(put("alpha", "one".as_bytes(), &mut db).is_ok());
    assert_eq!(delete("alpha", &mut db), Some("one".to_string()));
    assert_eq!(get("alpha", &db), None);
}

#[test]
fn test_delete_twice_is_safe() {
    let mut db = DB::new();
    assert!(put("k", "v".as_bytes(), &mut db).is_ok());
    assert_eq!(delete("k", &mut db), Some("v".to_string()));
    assert_eq!(delete("k", &mut db), None);
    assert_eq!(delete("k", &mut db), None);
}

#[test]
fn test_put_rejects_invalid_text() {
    let mut db = DB::new();
    let bad = [0xff_u8, 0xfe, 0xfd];
    assert!(put("k", &bad, &mut db).is_err());
    assert_eq!(get("k", &db), None);
}

#[test]
fn test_scan_empty_lists_every_key() {
    let mut db = DB::new();
    assert_eq!(scan("", &db), Vec::<String>::new());
    assert!(put("one", "1".as_bytes(), &mut db).is_ok());
    assert!(put("two", "2".as_bytes(), &mut db).is_ok());
    assert!(put("three", "3".as_bytes(), &mut db).is_ok());
    let v = scan("", &db);
    assert_eq!(v.len(), 3);
    assert!(v.contains(&String::from("one")));
    assert!(v.contains(&String::from("two")));
    assert!(v.contains(&String::from("three")));
}

#[test]
fn test_scan_matches_substring_anywhere() {
    let mut db = DB::new();
    assert!(put("abcdef", "x".as_bytes(), &mut db).is_ok());
    assert!(put("zzcdzz", "y".as_bytes(), &mut db).is_ok());
    assert!(put("nomatch", "z".as_bytes(), &mut db).is_ok());
    let v = scan("cd", &db);
    assert_eq!(v.len(), 2);
    assert!(v.contains(&String::from("abcdef")));
    assert!(v.contains(&String::from("zzcdzz")));
    assert_eq!(scan("abcdefg", &db), Vec::<String>::new());
    assert_eq!(scan("fe", &db), Vec::<String>::new());
}

#[test]
fn test_scan_is_case_sensitive() {
    let mut db = DB::new();
    assert!(put("Foo", "x".as_bytes(), &mut db).is_ok());
    assert_eq!(scan("foo", &db), Vec::<String>::new());
    assert_eq!(scan("Foo", &db), vec!["Foo".to_string()]);
}
