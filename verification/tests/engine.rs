use h2okv::engine::handle_input;
use h2okv::store::{get, DB};

#[test]
fn test_engine_get_and_put() {
    let mut db = DB::new();
    assert_eq!(handle_input("get foo".as_bytes(), &mut db), Ok("(None)".to_string()));
    assert_eq!(handle_input("put foo bar".as_bytes(), &mut db), Ok("1".to_string()));
    assert_eq!(handle_input("get foo".as_bytes(), &mut db), Ok("bar".to_string()));
    assert_eq!(get("foo", &db), Some("bar".to_string()));
}

#[test]
fn test_engine_set_is_put() {
    let mut db = DB::new();
    assert_eq!(handle_input("set lang rust".as_bytes(), &mut db), Ok("1".to_string()));
    assert_eq!(get("lang", &db), Some("rust".to_string()));
}

#[test]
fn test_engine_del() {
    let mut db = DB::new();
    handle_input("put foo bar".as_bytes(), &mut db).unwrap();
    assert_eq!(handle_input("del foo".as_bytes(), &mut db), Ok("bar".to_string()));
    assert_eq!(handle_input("del foo".as_bytes(), &mut db), Ok("(None)".to_string()));
    assert_eq!(get("foo", &db), None);
}

#[test]
fn test_engine_scan_reply_frames() {
    let mut db = DB::new();
    handle_input("put foo bar".as_bytes(), &mut db).unwrap();
    handle_input("put other x".as_bytes(), &mut db).unwrap();
    // each matched key: two header bytes, a two-byte length, the key
    assert_eq!(
        handle_input("scan fo".as_bytes(), &mut db),
        Ok("\u{c}\u{c}\u{3}\u{0}foo".to_string())
    );
    // no match: an empty reply
    assert_eq!(handle_input("scan zz".as_bytes(), &mut db), Ok(String::new()));
}

#[test]
fn test_engine_accepts_extra_spaces() {
    let mut db = DB::new();
    assert_eq!(
        handle_input("   put   foo   bar  ".as_bytes(), &mut db),
        Ok("1".to_string())
    );
    assert_eq!(handle_input("  get  foo ".as_bytes(), &mut db), Ok("bar".to_string()));
}

#[test]
fn test_engine_rejects_malformed_lines() {
    let mut db = DB::new();
    let err = Err("Invalid/Unknown Command");
    assert_eq!(handle_input("".as_bytes(), &mut db), err);
    assert_eq!(handle_input("get".as_bytes(), &mut db), err);
    assert_eq!(handle_input("get a b".as_bytes(), &mut db), err);
    assert_eq!(handle_input("put onlykey".as_bytes(), &mut db), err);
    assert_eq!(handle_input("drop table".as_bytes(), &mut db), err);
    // only plain spaces may separate the words
    assert_eq!(handle_input("get\tfoo".as_bytes(), &mut db), err);
    assert_eq!(handle_input("put a\tb".as_bytes(), &mut db), err);
}

#[test]
fn test_engine_trims_unicode_whitespace() {
    let mut db = DB::new();
    handle_input("put k v".as_bytes(), &mut db).unwrap();
    assert_eq!(handle_input("\u{a0} get k \n".as_bytes(), &mut db), Ok("v".to_string()));
}
