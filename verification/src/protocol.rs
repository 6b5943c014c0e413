//! The binary wire protocol: request frames parsed into typed
//! commands, request frames built for a client, and response frames
//! built from store results.
//!
//! Every frame starts with the magic byte; a request carries a command
//! byte, a flags byte, and a fixed two-byte key length, a response a
//! status byte and a command-dependent body.

use crate::persistence::MAGIC;
use crate::store::{contains_substring, matching_keys, DB};
use crate::tools::{le_bytes, le_value, min_le_bytes};
use vstd::prelude::*;
use vstd::utf8::{decode_utf8, encode_utf8, valid_utf8};

verus! {

/// The request succeeded.
pub const STATUS_OK: u8 = 0x00;

/// The operation failed, most often on a bad encoding.
pub const STATUS_FAILED: u8 = 0x01;

/// The key was not found, or a scan matched nothing.
pub const STATUS_NOT_FOUND: u8 = 0x02;

/// The command byte was not recognised.
pub const STATUS_UNKNOWN_COMMAND: u8 = 0xff;

/// The GET command byte.
pub const CMD_GET: u8 = 0x01;

/// The PUT command byte.
pub const CMD_PUT: u8 = 0x02;

/// The DELETE command byte.
pub const CMD_DELETE: u8 = 0x03;

/// The SCAN command byte.
pub const CMD_SCAN: u8 = 0x04;

/// What a request header asks for.
#[derive(Debug, PartialEq, Eq, Structural)]
pub enum Header {
    /// The magic byte is wrong: a protocol violation, connection-fatal.
    BadMagic,
    /// The flags byte asks for an encoding that is not supported; the
    /// request is skipped and the connection stays open.
    UnsupportedEncoding,
    /// Look a key up.
    Get { key_len: u16 },
    /// Store a value under a key.
    Put { key_len: u16 },
    /// Remove a key.
    Delete { key_len: u16 },
    /// List the keys containing a substring.
    Scan { key_len: u16 },
    /// The command byte is not recognised.
    Unknown,
}

/// What the five header bytes say: magic, command, flags, and the
/// fixed-width little-endian key length.
pub open spec fn header_spec(data: Seq<u8>) -> Header
    recommends
        data.len() == 5,
{
    if data[0] != MAGIC {
        Header::BadMagic
    } else if data[2] != 0x00 {
        Header::UnsupportedEncoding
    } else {
        let key_len = le_value(data.subrange(3, 5)) as u16;
        if data[1] == CMD_GET {
            Header::Get { key_len }
        } else if data[1] == CMD_PUT {
            Header::Put { key_len }
        } else if data[1] == CMD_DELETE {
            Header::Delete { key_len }
        } else if data[1] == CMD_SCAN {
            Header::Scan { key_len }
        } else {
            Header::Unknown
        }
    }
}

/// Parse the fixed five-byte request header.
pub fn parse_header(data: &[u8]) -> (r: Header)
    requires
        data@.len() == 5,
    ensures
        r == header_spec(data@),
{
    if data[0] != MAGIC {
        return Header::BadMagic;
    }
    if data[2] != 0x00 {
        return Header::UnsupportedEncoding;
    }
    let key_len = crate::tools::bytes_to_u16(&data[3..5]);
    proof {
        crate::tools::lemma_le_value_bound(data@.subrange(3, 5));
        crate::tools::lemma_pow256_8();
    }
    if data[1] == CMD_GET {
        Header::Get { key_len }
    } else if data[1] == CMD_PUT {
        Header::Put { key_len }
    } else if data[1] == CMD_DELETE {
        Header::Delete { key_len }
    } else if data[1] == CMD_SCAN {
        Header::Scan { key_len }
    } else {
        Header::Unknown
    }
}

/// A request frame without a value: magic, command, the plain-text
/// flags byte, the fixed two-byte key length, then the key bytes.
pub open spec fn request_frame(cmd: u8, key: Seq<char>) -> Seq<u8> {
    seq![MAGIC, cmd, 0x00 as u8] + le_bytes(encode_utf8(key).len(), 2) + encode_utf8(key)
}

/// A PUT request frame: the common frame, then the value with its
/// variable-length size.
pub open spec fn put_request_frame(key: Seq<char>, value: Seq<char>) -> Seq<u8> {
    request_frame(CMD_PUT, key) + seq![min_le_bytes(encode_utf8(value).len()).len() as u8]
        + min_le_bytes(encode_utf8(value).len()) + encode_utf8(value)
}

/// Build the frame shared by every request: header and key bytes.
/// The wire format caps a key at what two length bytes can say.
fn request(cmd: u8, key: &str) -> (r: Vec<u8>)
    requires
        encode_utf8(key@).len() <= 0xffff,
    ensures
        r@ == request_frame(cmd, key@),
{
    let mut out: Vec<u8> = Vec::new();
    out.push(MAGIC);
    out.push(cmd);
    out.push(0x00);
    let key_bytes: &[u8] = key.as_bytes();
    let len_bytes = crate::tools::u16_to_bytes(key_bytes.len() as u16);
    crate::tools::push_all(&mut out, len_bytes.as_slice());
    crate::tools::push_all(&mut out, key_bytes);
    proof {
        assert(out@ =~= request_frame(cmd, key@));
    }
    out
}

/// Build a GET request for `key`.
pub fn get_request(key: &str) -> (r: Vec<u8>)
    requires
        encode_utf8(key@).len() <= 0xffff,
    ensures
        r@ == request_frame(CMD_GET, key@),
{
    request(CMD_GET, key)
}

/// Build a DELETE request for `key`.
pub fn del_request(key: &str) -> (r: Vec<u8>)
    requires
        encode_utf8(key@).len() <= 0xffff,
    ensures
        r@ == request_frame(CMD_DELETE, key@),
{
    request(CMD_DELETE, key)
}

/// Build a SCAN request for the substring `key`; it may be empty,
/// which asks for every key.
pub fn scan_request(key: &str) -> (r: Vec<u8>)
    requires
        encode_utf8(key@).len() <= 0xffff,
    ensures
        r@ == request_frame(CMD_SCAN, key@),
{
    request(CMD_SCAN, key)
}

/// Build a PUT request storing `value` under `key`.
pub fn put_request(key: &str, value: &str) -> (r: Vec<u8>)
    requires
        encode_utf8(key@).len() <= 0xffff,
    ensures
        r@ == put_request_frame(key@, value@),
{
    let mut out = request(CMD_PUT, key);
    let value_bytes: &[u8] = value.as_bytes();
    let (vcnt, vlen_bytes) = crate::tools::u64_to_bytes(value_bytes.len() as u64);
    out.push(vcnt);
    crate::tools::push_all(&mut out, vlen_bytes.as_slice());
    crate::tools::push_all(&mut out, value_bytes);
    proof {
        assert(out@ =~= put_request_frame(key@, value@));
    }
    out
}

/// The successful GET response: magic, status, the plain-text
/// encoding flag, then the value with its variable-length size.
pub open spec fn get_hit_response(v: Seq<u8>) -> Seq<u8> {
    seq![MAGIC, STATUS_OK, 0x00 as u8, min_le_bytes(v.len()).len() as u8] + min_le_bytes(v.len())
        + v
}

/// Answer a GET: the stored value on a hit, the not-found status on a
/// miss. Key bytes that are not valid text are a protocol failure and
/// no response is produced.
pub fn handle_get(key_bytes: &[u8], db: &DB) -> (r: Option<Vec<u8>>)
    requires
        db.wf(),
    ensures
        !valid_utf8(key_bytes@) ==> r is None,
        valid_utf8(key_bytes@) ==> ({
            let k = decode_utf8(key_bytes@);
            if db@.contains_key(k) {
                r matches Some(out) && out@ == get_hit_response(encode_utf8(db@[k]))
            } else {
                r matches Some(out) && out@ == seq![MAGIC, STATUS_NOT_FOUND]
            }
        }),
{
    let key = match crate::tools::utf8_to_string(key_bytes) {
        Some(key) => key,
        None => {
            return None;
        },
    };
    proof {
        crate::tools::lemma_utf8_bytes_decode(key@, key_bytes@);
    }
    match crate::store::get(key.as_str(), db) {
        Some(value) => {
            let mut out: Vec<u8> = Vec::new();
            out.push(MAGIC);
            out.push(STATUS_OK);
            out.push(0x00);
            let value_bytes: &[u8] = value.as_str().as_bytes();
            let (vcnt, vlen_bytes) = crate::tools::u64_to_bytes(value_bytes.len() as u64);
            out.push(vcnt);
            crate::tools::push_all(&mut out, vlen_bytes.as_slice());
            crate::tools::push_all(&mut out, value_bytes);
            proof {
                assert(out@ =~= get_hit_response(encode_utf8(db@[decode_utf8(key_bytes@)])));
            }
            Some(out)
        },
        None => {
            let mut out: Vec<u8> = Vec::new();
            out.push(MAGIC);
            out.push(STATUS_NOT_FOUND);
            proof {
                assert(out@ =~= seq![MAGIC, STATUS_NOT_FOUND]);
            }
            Some(out)
        },
    }
}

/// Answer a PUT: store the value and report success, or report a
/// failed status when the value is not valid text. Key bytes that are
/// not valid text are a protocol failure and no response is produced.
pub fn handle_put(key_bytes: &[u8], value_bytes: &[u8], db: &mut DB) -> (r: Option<Vec<u8>>)
    requires
        old(db).wf(),
    ensures
        final(db).wf(),
        !valid_utf8(key_bytes@) ==> r is None && *final(db) == *old(db),
        valid_utf8(key_bytes@) && valid_utf8(value_bytes@) ==> (r matches Some(out) && out@
            == seq![MAGIC, STATUS_OK]) && final(db)@ == old(db)@.insert(
            decode_utf8(key_bytes@),
            decode_utf8(value_bytes@),
        ),
        valid_utf8(key_bytes@) && !valid_utf8(value_bytes@) ==> (r matches Some(out) && out@
            == seq![MAGIC, STATUS_FAILED]) && *final(db) == *old(db),
{
    let key = match crate::tools::utf8_to_string(key_bytes) {
        Some(key) => key,
        None => {
            return None;
        },
    };
    proof {
        crate::tools::lemma_utf8_bytes_decode(key@, key_bytes@);
    }
    let mut out: Vec<u8> = Vec::new();
    out.push(MAGIC);
    match crate::store::put(key.as_str(), value_bytes, db) {
        Ok(_) => {
            out.push(STATUS_OK);
            proof {
                assert(out@ =~= seq![MAGIC, STATUS_OK]);
            }
        },
        Err(_) => {
            out.push(STATUS_FAILED);
            proof {
                assert(out@ =~= seq![MAGIC, STATUS_FAILED]);
            }
        },
    }
    Some(out)
}

/// Answer a DELETE: report success when the key was there, not-found
/// when it was absent, and a failed status for key bytes that are not
/// valid text.
pub fn handle_del(key_bytes: &[u8], db: &mut DB) -> (r: Vec<u8>)
    requires
        old(db).wf(),
    ensures
        final(db).wf(),
        !valid_utf8(key_bytes@) ==> r@ == seq![MAGIC, STATUS_FAILED] && *final(db) == *old(db),
        valid_utf8(key_bytes@) ==> ({
            let k = decode_utf8(key_bytes@);
            if old(db)@.contains_key(k) {
                r@ == seq![MAGIC, STATUS_OK] && final(db)@ == old(db)@.remove(k)
            } else {
                r@ == seq![MAGIC, STATUS_NOT_FOUND] && *final(db) == *old(db)
            }
        }),
{
    let mut out: Vec<u8> = Vec::new();
    out.push(MAGIC);
    let key = match crate::tools::utf8_to_string(key_bytes) {
        Some(key) => key,
        None => {
            out.push(STATUS_FAILED);
            proof {
                assert(out@ =~= seq![MAGIC, STATUS_FAILED]);
            }
            return out;
        },
    };
    proof {
        crate::tools::lemma_utf8_bytes_decode(key@, key_bytes@);
    }
    match crate::store::delete(key.as_str(), db) {
        Some(_) => {
            out.push(STATUS_OK);
            proof {
                assert(out@ =~= seq![MAGIC, STATUS_OK]);
            }
        },
        None => {
            out.push(STATUS_NOT_FOUND);
            proof {
                assert(out@ =~= seq![MAGIC, STATUS_NOT_FOUND]);
            }
        },
    }
    out
}

/// The listed keys of a SCAN response body: each key as a fixed
/// two-byte length and its bytes.
pub open spec fn scan_keys_bytes(ks: Seq<Seq<char>>) -> Seq<u8>
    decreases ks.len(),
{
    if ks.len() == 0 {
        seq![]
    } else {
        le_bytes(encode_utf8(ks[0]).len(), 2) + encode_utf8(ks[0]) + scan_keys_bytes(
            ks.drop_first(),
        )
    }
}

/// A successful SCAN response: magic, status, the fixed four-byte
/// match count, then the matched keys.
pub open spec fn scan_response(ks: Seq<Seq<char>>) -> Seq<u8> {
    seq![MAGIC, STATUS_OK] + le_bytes(ks.len(), 4) + scan_keys_bytes(ks)
}

/// Listing one more key appends its length and bytes to the body.
proof fn lemma_scan_keys_bytes_push(ks: Seq<Seq<char>>, k: Seq<char>)
    ensures
        scan_keys_bytes(ks.push(k)) == scan_keys_bytes(ks) + le_bytes(encode_utf8(k).len(), 2)
            + encode_utf8(k),
    decreases ks.len(),
{
    let rec = le_bytes(encode_utf8(k).len(), 2) + encode_utf8(k);
    if ks.len() == 0 {
        let e = Seq::<Seq<char>>::empty();
        assert(ks.push(k)[0] == k);
        assert(ks.push(k).drop_first() =~= e);
        assert(scan_keys_bytes(e) =~= Seq::<u8>::empty());
        assert(scan_keys_bytes(ks) =~= Seq::<u8>::empty());
        assert(scan_keys_bytes(ks.push(k)) =~= scan_keys_bytes(ks) + rec);
    } else {
        assert(ks.push(k)[0] == ks[0]);
        assert(ks.push(k).drop_first() =~= ks.drop_first().push(k));
        lemma_scan_keys_bytes_push(ks.drop_first(), k);
        let rec0 = le_bytes(encode_utf8(ks[0]).len(), 2) + encode_utf8(ks[0]);
        assert(scan_keys_bytes(ks.push(k)) == rec0 + (scan_keys_bytes(ks.drop_first()) + rec));
        assert(scan_keys_bytes(ks) == rec0 + scan_keys_bytes(ks.drop_first()));
        assert(rec0 + (scan_keys_bytes(ks.drop_first()) + rec) =~= (rec0 + scan_keys_bytes(
            ks.drop_first(),
        )) + rec);
    }
}

/// Answer a SCAN: the matched keys with their count on a hit, the
/// not-found status when nothing matches. Substring bytes that are not
/// valid text are a protocol failure and no response is produced. The
/// wire format caps each listed key at what two length bytes can say
/// and the match count at what the four count bytes can say, so the
/// matched keys and the store must fit those.
pub fn handle_scan(key_bytes: &[u8], db: &DB) -> (r: Option<Vec<u8>>)
    requires
        db.wf(),
        db.pairs@.len() < 0x1_0000_0000,
        valid_utf8(key_bytes@) ==> (forall|k: Seq<char>|
            db@.contains_key(k) && contains_substring(k, decode_utf8(key_bytes@))
                ==> (#[trigger] encode_utf8(k)).len() <= 0xffff),
    ensures
        !valid_utf8(key_bytes@) ==> r is None,
        valid_utf8(key_bytes@) ==> ({
            let ms = matching_keys(db.keys_seq(), decode_utf8(key_bytes@));
            if ms.len() == 0 {
                r matches Some(out) && out@ == seq![MAGIC, STATUS_NOT_FOUND]
            } else {
                r matches Some(out) && out@ == scan_response(ms)
            }
        }),
{
    let key = match crate::tools::utf8_to_string(key_bytes) {
        Some(key) => key,
        None => {
            return None;
        },
    };
    proof {
        crate::tools::lemma_utf8_bytes_decode(key@, key_bytes@);
    }
    let matches = crate::store::scan(key.as_str(), db);
    let ghost ms = matching_keys(db.keys_seq(), decode_utf8(key_bytes@));
    if matches.len() == 0 {
        let mut out: Vec<u8> = Vec::new();
        out.push(MAGIC);
        out.push(STATUS_NOT_FOUND);
        proof {
            assert(out@ =~= seq![MAGIC, STATUS_NOT_FOUND]);
        }
        return Some(out);
    }
    let mut out: Vec<u8> = Vec::new();
    out.push(MAGIC);
    out.push(STATUS_OK);
    proof {
        db.keys_seq().lemma_filter_len(|k: Seq<char>| contains_substring(k, decode_utf8(key_bytes@)));
        assert(matches@.len() == ms.len());
        assert(ms.len() <= db.keys_seq().len());
    }
    let count = matches.len() as u32;
    let count_bytes = crate::tools::u32_to_bytes(count);
    crate::tools::push_all(&mut out, count_bytes.as_slice());
    proof {
        assert(out@ =~= seq![MAGIC, STATUS_OK] + le_bytes(ms.len(), 4));
    }
    let ghost header = out@;
    let mut i: usize = 0;
    proof {
        assert(ms.take(0) =~= Seq::<Seq<char>>::empty());
        assert(out@ =~= header + scan_keys_bytes(ms.take(0)));
    }
    while i < matches.len()
        invariant
            db.wf(),
            valid_utf8(key_bytes@),
            key@ == decode_utf8(key_bytes@),
            ms == matching_keys(db.keys_seq(), decode_utf8(key_bytes@)),
            matches@.map_values(|s: String| s@) == ms,
            forall|k: Seq<char>|
                db@.contains_key(k) && contains_substring(k, decode_utf8(key_bytes@))
                    ==> (#[trigger] encode_utf8(k)).len() <= 0xffff,
            i <= matches@.len(),
            matches@.len() == ms.len(),
            out@ == header + scan_keys_bytes(ms.take(i as int)),
        decreases matches@.len() - i,
    {
        let ghost before = out@;
        proof {
            assert(matches@[i as int]@ == ms[i as int]);
            crate::store::lemma_scan_exact(*db, decode_utf8(key_bytes@), ms[i as int]);
            assert(ms.contains(ms[i as int]));
            assert(encode_utf8(ms[i as int]).len() <= 0xffff);
        }
        let kb: &[u8] = matches[i].as_str().as_bytes();
        let len_bytes = crate::tools::u16_to_bytes(kb.len() as u16);
        crate::tools::push_all(&mut out, len_bytes.as_slice());
        crate::tools::push_all(&mut out, kb);
        proof {
            lemma_scan_keys_bytes_push(ms.take(i as int), ms[i as int]);
            assert(ms.take(i as int).push(ms[i as int]) =~= ms.take(i + 1));
            assert(out@ =~= header + scan_keys_bytes(ms.take(i + 1)));
        }
        i = i + 1;
    }
    proof {
        assert(ms.take(ms.len() as int) =~= ms);
        assert(out@ =~= scan_response(ms));
    }
    Some(out)
}

} // verus!
