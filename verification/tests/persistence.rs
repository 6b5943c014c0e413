use h2okv::persistence::{load_db, save_db};
use h2okv::store::{delete, get, put, scan, DB};
use h2okv::tools::u64_to_bytes;

fn record(key: &[u8], value: &[u8]) -> Vec<u8> {
    let mut out = vec![0x0c_u8];
    let (kc, kb) = u64_to_bytes(key.len() as u64);
    out.push(kc);
    out.extend(kb);
    out.extend(key);
    let (vc, vb) = u64_to_bytes(value.len() as u64);
    out.push(vc);
    out.extend(vb);
    out.extend(value);
    out
}

#[test]
fn test_load_from_file_empty() {
    let mut db = DB::new();
    assert_eq!(scan("", &db), Vec::<String>::new());
    assert!(load_db(&[], &mut db).is_ok());
    assert_eq!(scan("", &db), Vec::<String>::new());
}

#[test]
fn test_load_from_file_single_item() {
    let stream = record("foo".as_bytes(), "bar".as_bytes());
    let mut db = DB::new();
    assert_eq!(scan("", &db), Vec::<String>::new());
    assert!(load_db(&stream, &mut db).is_ok());
    assert_eq!(scan("", &db), vec!["foo".to_string()]);
}

#[test]
fn test_load_from_file_multiple_items() {
    let mut stream = Vec::new();
    stream.extend(record("foo".as_bytes(), "barbaz".as_bytes()));
    stream.extend(record("lang".as_bytes(), "Rust".as_bytes()));
    stream.extend(record("name-en".as_bytes(), "Hugo".as_bytes()));
    stream.extend(record("name-cn".as_bytes(), "宏钢".as_bytes()));
    let mut db = DB::new();
    assert_eq!(scan("", &db), Vec::<String>::new());
    assert!(load_db(&stream, &mut db).is_ok());
    let v = scan("", &db);
    assert_eq!(v.len(), 4);
    assert_eq!(get("foo", &db), Some("barbaz".to_string()));
    assert_eq!(get("lang", &db), Some("Rust".to_string()));
    assert_eq!(get("name-en", &db), Some("Hugo".to_string()));
    assert_eq!(get("name-cn", &db), Some("宏钢".to_string()));
}

#[test]
fn test_save_to_file() {
    let mut db_tmp = DB::new();

    // empty store round trip
    let stream = save_db(&db_tmp);
    let mut db = DB::new();
    assert!(load_db(&stream, &mut db).is_ok());
    assert_eq!(scan("", &db), Vec::<String>::new());

    // one item
    put("foo", "bar".as_bytes(), &mut db_tmp).unwrap();
    let stream = save_db(&db_tmp);
    let mut db = DB::new();
    assert!(load_db(&stream, &mut db).is_ok());
    let v = scan("", &db);
    assert_eq!(v.len(), 1);
    assert_eq!(get("foo", &db), Some("bar".to_string()));

    // more items
    put("location", "地铁西小口128号".as_bytes(), &mut db_tmp).unwrap();
    put("age", "18".as_bytes(), &mut db_tmp).unwrap();
    let stream = save_db(&db_tmp);
    let mut db = DB::new();
    assert!(load_db(&stream, &mut db).is_ok());
    let v = scan("", &db);
    assert_eq!(v.len(), 3);
    assert_eq!(get("foo", &db), Some("bar".to_string()));
    assert_eq!(get("location", &db), Some("地铁西小口128号".to_string()));
    assert_eq!(get("age", &db), Some("18".to_string()));

    // delete an item
    delete("age", &mut db_tmp).unwrap();
    let stream = save_db(&db_tmp);
    let mut db = DB::new();
    assert!(load_db(&stream, &mut db).is_ok());
    let v = scan("", &db);
    assert_eq!(v.len(), 2);
    assert_eq!(get("foo", &db), Some("bar".to_string()));
    assert_eq!(get("location", &db), Some("地铁西小口128号".to_string()));
}

#[test]
fn test_save_bytes_exact() {
    let mut db = DB::new();
    put("foo", "bar".as_bytes(), &mut db).unwrap();
    let stream = save_db(&db);
    assert_eq!(
        stream,
        vec![0x0c, 1, 3, b'f', b'o', b'o', 1, 3, b'b', b'a', b'r']
    );
}

#[test]
fn test_save_empty_value_bytes() {
    let mut db = DB::new();
    put("k", "".as_bytes(), &mut db).unwrap();
    let stream = save_db(&db);
    assert_eq!(stream, vec![0x0c, 1, 1, b'k', 0]);
}

#[test]
fn test_load_rejects_bad_magic() {
    let mut stream = record("foo".as_bytes(), "bar".as_bytes());
    stream[0] = 0x0b;
    let mut db = DB::new();
    assert_eq!(load_db(&stream, &mut db), Err("malformed db file"));
    assert_eq!(scan("", &db), Vec::<String>::new());
}

#[test]
fn test_load_rejects_truncated_record() {
    let mut stream = record("foo".as_bytes(), "bar".as_bytes());
    stream.pop();
    let mut db = DB::new();
    assert_eq!(load_db(&stream, &mut db), Err("malformed db file"));
    assert_eq!(scan("", &db), Vec::<String>::new());
}

#[test]
fn test_load_rejects_oversized_length_count() {
    // a length-count byte over eight can never be read back as a u64
    let stream = vec![0x0c_u8, 9, 0, 0, 0, 0, 0, 0, 0, 0, 0];
    let mut db = DB::new();
    assert_eq!(load_db(&stream, &mut db), Err("malformed db file"));
}

#[test]
fn test_load_rejects_invalid_text() {
    let stream = record("foo".as_bytes(), &[0xff, 0xfe]);
    let mut db = DB::new();
    assert_eq!(load_db(&stream, &mut db), Err("db file is not valid text"));
    assert_eq!(scan("", &db), Vec::<String>::new());
}

#[test]
fn test_load_later_duplicate_overwrites() {
    let mut stream = Vec::new();
    stream.extend(record("k".as_bytes(), "old".as_bytes()));
    stream.extend(record("k".as_bytes(), "new".as_bytes()));
    let mut db = DB::new();
    assert!(load_db(&stream, &mut db).is_ok());
    assert_eq!(scan("", &db).len(), 1);
    assert_eq!(get("k", &db), Some("new".to_string()));
}
