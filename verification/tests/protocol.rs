use h2okv::persistence::{load_db, save_db};
use h2okv::protocol::{
    del_request, get_request, handle_del, handle_get, handle_put, handle_scan, parse_header,
    put_request, scan_request, Header,
};
use h2okv::store::DB;

#[test]
fn test_parse_header_commands() {
    assert_eq!(
        parse_header(&[0x0c, 0x01, 0x00, 3, 0]),
        Header::Get { key_len: 3 }
    );
    assert_eq!(
        parse_header(&[0x0c, 0x02, 0x00, 0, 1]),
        Header::Put { key_len: 256 }
    );
    assert_eq!(
        parse_header(&[0x0c, 0x03, 0x00, 1, 1]),
        Header::Delete { key_len: 257 }
    );
    assert_eq!(
        parse_header(&[0x0c, 0x04, 0x00, 0, 0]),
        Header::Scan { key_len: 0 }
    );
    assert_eq!(parse_header(&[0x0c, 0x99, 0x00, 0, 0]), Header::Unknown);
}

#[test]
fn test_parse_header_bad_magic_and_flags() {
    assert_eq!(parse_header(&[0x0b, 0x01, 0x00, 0, 0]), Header::BadMagic);
    assert_eq!(
        parse_header(&[0x0c, 0x01, 0x01, 0, 0]),
        Header::UnsupportedEncoding
    );
    // the magic check comes before the flags check
    assert_eq!(parse_header(&[0x00, 0x01, 0x07, 0, 0]), Header::BadMagic);
}

#[test]
fn test_request_frames() {
    assert_eq!(
        get_request("foo"),
        vec![0x0c, 0x01, 0x00, 3, 0, b'f', b'o', b'o']
    );
    assert_eq!(del_request("k"), vec![0x0c, 0x03, 0x00, 1, 0, b'k']);
    assert_eq!(scan_request(""), vec![0x0c, 0x04, 0x00, 0, 0]);
    assert_eq!(
        put_request("k", "vv"),
        vec![0x0c, 0x02, 0x00, 1, 0, b'k', 1, 2, b'v', b'v']
    );
    // an empty value encodes as a zero count with no length bytes
    assert_eq!(
        put_request("k", ""),
        vec![0x0c, 0x02, 0x00, 1, 0, b'k', 0]
    );
}

#[test]
fn test_protocol_scenario() {
    let mut db = DB::new();

    let r = handle_put("foo".as_bytes(), "bar".as_bytes(), &mut db).unwrap();
    assert_eq!(r, vec![0x0c, 0x00]);

    let r = handle_get("foo".as_bytes(), &db).unwrap();
    assert_eq!(r, vec![0x0c, 0x00, 0x00, 1, 3, b'b', b'a', b'r']);

    let r = handle_get("missing".as_bytes(), &db).unwrap();
    assert_eq!(r, vec![0x0c, 0x02]);

    let r = handle_put("find".as_bytes(), "rust".as_bytes(), &mut db).unwrap();
    assert_eq!(r, vec![0x0c, 0x00]);
    let r = handle_scan("f".as_bytes(), &db).unwrap();
    assert_eq!(&r[0..2], &[0x0c, 0x00]);
    assert_eq!(&r[2..6], &[2, 0, 0, 0]);
    assert_eq!(&r[6..8], &[3, 0]);
    assert_eq!(&r[8..11], "foo".as_bytes());
    assert_eq!(&r[11..13], &[4, 0]);
    assert_eq!(&r[13..17], "find".as_bytes());
    assert_eq!(r.len(), 17);

    let r = handle_del("foo".as_bytes(), &mut db);
    assert_eq!(r, vec![0x0c, 0x00]);
    let r = handle_get("foo".as_bytes(), &db).unwrap();
    assert_eq!(r, vec![0x0c, 0x02]);

    let stream = save_db(&db);
    let mut reloaded = DB::new();
    assert!(load_db(&stream, &mut reloaded).is_ok());
    let r = handle_get("find".as_bytes(), &reloaded).unwrap();
    assert_eq!(r, vec![0x0c, 0x00, 0x00, 1, 4, b'r', b'u', b's', b't']);
}

#[test]
fn test_handle_get_rejects_invalid_key_bytes() {
    let db = DB::new();
    assert!(handle_get(&[0xff, 0xfe], &db).is_none());
}

#[test]
fn test_handle_put_statuses() {
    let mut db = DB::new();
    // a value that is not valid text fails with the failed status
    let r = handle_put("k".as_bytes(), &[0xff, 0xfe], &mut db).unwrap();
    assert_eq!(r, vec![0x0c, 0x01]);
    // a key that is not valid text produces no response at all
    assert!(handle_put(&[0xff], "v".as_bytes(), &mut db).is_none());
}

#[test]
fn test_handle_del_statuses() {
    let mut db = DB::new();
    let r = handle_del("absent".as_bytes(), &mut db);
    assert_eq!(r, vec![0x0c, 0x02]);
    let r = handle_del(&[0xff], &mut db);
    assert_eq!(r, vec![0x0c, 0x01]);
}

#[test]
fn test_handle_scan_statuses() {
    let mut db = DB::new();
    let r = handle_scan("x".as_bytes(), &db).unwrap();
    assert_eq!(r, vec![0x0c, 0x02]);
    assert!(handle_scan(&[0xff], &db).is_none());
    handle_put("axb".as_bytes(), "1".as_bytes(), &mut db).unwrap();
    let r = handle_scan("x".as_bytes(), &db).unwrap();
    assert_eq!(
        r,
        vec![0x0c, 0x00, 1, 0, 0, 0, 3, 0, b'a', b'x', b'b']
    );
}
