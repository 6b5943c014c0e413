//! Snapshot persistence: the whole store serialized as a flat stream
//! of records, and the parser that reconstructs a store from such a
//! stream.
//!
//! Each record is: a magic byte, the key length (a count byte and that
//! many little-endian bytes), the key bytes, the value length in the
//! same form, and the value bytes. There is no checksum and no index;
//! the stream is read from the front, record by record, and any
//! malformed record is a fatal load error.

use crate::store::{pairs_map, DB};
use crate::tools::{le_value, min_le_bytes};
use vstd::prelude::*;
use vstd::utf8::{decode_utf8, encode_utf8, valid_utf8};

verus! {

/// The magic byte that opens every record and every frame.
pub const MAGIC: u8 = 0x0c;

/// One persisted record: magic byte, key-length count and bytes, key
/// bytes, value-length count and bytes, value bytes.
pub open spec fn record_bytes(k: Seq<u8>, v: Seq<u8>) -> Seq<u8> {
    seq![MAGIC, min_le_bytes(k.len()).len() as u8] + min_le_bytes(k.len()) + k + seq![
        min_le_bytes(v.len()).len() as u8,
    ] + min_le_bytes(v.len()) + v
}

/// A store's pairs as the byte stream of their records, in order, with
/// keys and values encoded as UTF-8.
pub open spec fn records_bytes(ps: Seq<(Seq<char>, Seq<char>)>) -> Seq<u8>
    decreases ps.len(),
{
    if ps.len() == 0 {
        seq![]
    } else {
        record_bytes(encode_utf8(ps[0].0), encode_utf8(ps[0].1)) + records_bytes(ps.drop_first())
    }
}

/// Appending one pair appends its record to the byte stream.
proof fn lemma_records_bytes_push(ps: Seq<(Seq<char>, Seq<char>)>, p: (Seq<char>, Seq<char>))
    ensures
        records_bytes(ps.push(p)) == records_bytes(ps) + record_bytes(
            encode_utf8(p.0),
            encode_utf8(p.1),
        ),
    decreases ps.len(),
{
    let rec = record_bytes(encode_utf8(p.0), encode_utf8(p.1));
    if ps.len() == 0 {
        let e = Seq::<(Seq<char>, Seq<char>)>::empty();
        assert(ps.push(p)[0] == p);
        assert(ps.push(p).drop_first() =~= e);
        assert(records_bytes(e) =~= Seq::<u8>::empty());
        assert(records_bytes(ps) =~= Seq::<u8>::empty());
        assert(records_bytes(ps.push(p)) == rec + records_bytes(e));
        assert(rec + records_bytes(e) =~= records_bytes(ps) + rec);
    } else {
        assert(ps.push(p)[0] == ps[0]);
        assert(ps.push(p).drop_first() =~= ps.drop_first().push(p));
        lemma_records_bytes_push(ps.drop_first(), p);
        let rec0 = record_bytes(encode_utf8(ps[0].0), encode_utf8(ps[0].1));
        assert(records_bytes(ps.push(p)) == rec0 + (records_bytes(ps.drop_first()) + rec));
        assert(records_bytes(ps) == rec0 + records_bytes(ps.drop_first()));
        assert(rec0 + (records_bytes(ps.drop_first()) + rec) =~= (rec0 + records_bytes(
            ps.drop_first(),
        )) + rec);
    }
}

/// Serialize the whole store into the persisted byte stream, one
/// record per pair in insertion order.
pub fn save_db(db: &DB) -> (r: Vec<u8>)
    ensures
        r@ == records_bytes(db.pairs_view()),
{
    let ghost ps = db.pairs_view();
    let mut buffer: Vec<u8> = Vec::new();
    let mut i: usize = 0;
    proof {
        assert(ps.take(0) =~= Seq::<(Seq<char>, Seq<char>)>::empty());
    }
    while i < db.pairs.len()
        invariant
            ps == db.pairs_view(),
            i <= ps.len(),
            ps.len() == db.pairs@.len(),
            buffer@ == records_bytes(ps.take(i as int)),
        decreases db.pairs.len() - i,
    {
        let ghost before = buffer@;
        let key_bytes: &[u8] = db.pairs[i].0.as_str().as_bytes();
        let value_bytes: &[u8] = db.pairs[i].1.as_str().as_bytes();
        buffer.push(MAGIC);
        let (kcnt, klen_bytes) = crate::tools::u64_to_bytes(key_bytes.len() as u64);
        buffer.push(kcnt);
        crate::tools::push_all(&mut buffer, klen_bytes.as_slice());
        crate::tools::push_all(&mut buffer, key_bytes);
        let (vcnt, vlen_bytes) = crate::tools::u64_to_bytes(value_bytes.len() as u64);
        buffer.push(vcnt);
        crate::tools::push_all(&mut buffer, vlen_bytes.as_slice());
        crate::tools::push_all(&mut buffer, value_bytes);
        proof {
            let k = encode_utf8(ps[i as int].0);
            let v = encode_utf8(ps[i as int].1);
            assert(key_bytes@ == k);
            assert(value_bytes@ == v);
            assert(buffer@ =~= before + record_bytes(k, v));
            lemma_records_bytes_push(ps.take(i as int), ps[i as int]);
            assert(ps.take(i as int).push(ps[i as int]) =~= ps.take(i + 1));
        }
        i = i + 1;
    }
    proof {
        assert(ps.take(ps.len() as int) =~= ps);
    }
    buffer
}

/// The raw records a persisted byte stream parses to, or nothing when
/// the stream is malformed: a bad magic byte, a length count over
/// eight, or bytes missing before the end of a record.
pub open spec fn parse_records(bytes: Seq<u8>) -> Option<Seq<(Seq<u8>, Seq<u8>)>>
    decreases bytes.len(),
{
    if bytes.len() == 0 {
        Some(seq![])
    } else if bytes[0] != MAGIC || bytes.len() < 2 {
        None
    } else {
        let kcnt = bytes[1] as int;
        if kcnt > 8 || bytes.len() < 2 + kcnt {
            None
        } else {
            let klen = le_value(bytes.subrange(2, 2 + kcnt)) as int;
            let koff = 2 + kcnt;
            if bytes.len() < koff + klen + 1 {
                None
            } else {
                let k = bytes.subrange(koff, koff + klen);
                let vcnt = bytes[koff + klen] as int;
                let voff = koff + klen + 1;
                if vcnt > 8 || bytes.len() < voff + vcnt {
                    None
                } else {
                    let vlen = le_value(bytes.subrange(voff, voff + vcnt)) as int;
                    if bytes.len() < voff + vcnt + vlen {
                        None
                    } else {
                        let v = bytes.subrange(voff + vcnt, voff + vcnt + vlen);
                        let rest = bytes.skip(voff + vcnt + vlen);
                        match parse_records(rest) {
                            Some(rs) => Some(seq![(k, v)] + rs),
                            None => None,
                        }
                    }
                }
            }
        }
    }
}

/// Where one record's key and value bytes lie in the stream.
struct RecordLoc {
    kstart: usize,
    klen: usize,
    vstart: usize,
    vlen: usize,
}

/// The location points at exactly the record's key and value bytes.
spec fn loc_matches(bytes: Seq<u8>, loc: RecordLoc, rec: (Seq<u8>, Seq<u8>)) -> bool {
    &&& loc.kstart + loc.klen <= bytes.len()
    &&& loc.vstart + loc.vlen <= bytes.len()
    &&& rec.0 == bytes.subrange(loc.kstart as int, loc.kstart + loc.klen)
    &&& rec.1 == bytes.subrange(loc.vstart as int, loc.vstart + loc.vlen)
}

/// Walk the stream once and find each record's key and value bytes;
/// nothing is handed back when the stream is malformed.
#[verifier::rlimit(50)]
fn parse_locs(bytes: &[u8]) -> (r: Option<Vec<RecordLoc>>)
    ensures
        match r {
            Some(locs) => parse_records(bytes@) matches Some(rs) && locs@.len() == rs.len()
                && (forall|j: int| 0 <= j < rs.len() ==> loc_matches(bytes@, locs@[j], rs[j])),
            None => parse_records(bytes@) is None,
        },
{
    let n = bytes.len();
    let mut pos: usize = 0;
    let mut locs: Vec<RecordLoc> = Vec::new();
    let ghost mut done: Seq<(Seq<u8>, Seq<u8>)> = Seq::empty();
    proof {
        assert(bytes@.skip(0) =~= bytes@);
    }
    while pos < n
        invariant
            n == bytes@.len(),
            pos <= n,
            locs@.len() == done.len(),
            forall|j: int| 0 <= j < done.len() ==> loc_matches(bytes@, locs@[j], done[j]),
            match parse_records(bytes@.skip(pos as int)) {
                Some(rs) => parse_records(bytes@) == Some(done + rs),
                None => parse_records(bytes@) is None,
            },
        decreases n - pos,
    {
        let ghost s = bytes@.skip(pos as int);
        proof {
            assert(s.len() == n - pos);
            assert(forall|j: int| 0 <= j < s.len() ==> s[j] == bytes@[pos + j]);
        }
        if bytes[pos] != MAGIC {
            assert(parse_records(s) is None);
            return None;
        }
        if n - pos < 2 {
            assert(parse_records(s) is None);
            return None;
        }
        let kcnt = bytes[pos + 1] as usize;
        if kcnt > 8 {
            assert(parse_records(s) is None);
            return None;
        }
        if n - (pos + 2) < kcnt {
            assert(parse_records(s) is None);
            return None;
        }
        let klen64 = crate::tools::bytes_to_u64(&bytes[pos + 2..pos + 2 + kcnt]);
        proof {
            assert(bytes@.subrange(pos + 2, pos + 2 + kcnt) =~= s.subrange(2, 2 + kcnt));
        }
        let kstart = pos + 2 + kcnt;
        if (n - kstart) as u64 <= klen64 {
            assert(parse_records(s) is None);
            return None;
        }
        let klen = klen64 as usize;
        let vcnt_at = kstart + klen;
        let vcnt = bytes[vcnt_at] as usize;
        proof {
            assert(bytes@[vcnt_at as int] == s[2 + kcnt + klen]);
        }
        if vcnt > 8 {
            assert(parse_records(s) is None);
            return None;
        }
        if n - (vcnt_at + 1) < vcnt {
            assert(parse_records(s) is None);
            return None;
        }
        let vlen64 = crate::tools::bytes_to_u64(&bytes[vcnt_at + 1..vcnt_at + 1 + vcnt]);
        proof {
            assert(bytes@.subrange(vcnt_at + 1, vcnt_at + 1 + vcnt) =~= s.subrange(
                2 + kcnt + klen + 1,
                2 + kcnt + klen + 1 + vcnt,
            ));
        }
        let vstart = vcnt_at + 1 + vcnt;
        if ((n - vstart) as u64) < vlen64 {
            assert(parse_records(s) is None);
            return None;
        }
        let vlen = vlen64 as usize;
        let next = vstart + vlen;
        let ghost k = s.subrange(2 + kcnt, 2 + kcnt + klen);
        let ghost v = s.subrange(
            2 + kcnt + klen + 1 + vcnt,
            2 + kcnt + klen + 1 + vcnt + vlen,
        );
        proof {
            assert(s.skip(2 + kcnt + klen + 1 + vcnt + vlen) =~= bytes@.skip(next as int));
            assert(parse_records(s) == (match parse_records(bytes@.skip(next as int)) {
                Some(rs) => Some(seq![(k, v)] + rs),
                None => None::<Seq<(Seq<u8>, Seq<u8>)>>,
            }));
            assert(bytes@.subrange(kstart as int, kstart + klen) =~= k);
            assert(bytes@.subrange(vstart as int, vstart + vlen) =~= v);
        }
        let loc = RecordLoc { kstart, klen, vstart, vlen };
        locs.push(loc);
        proof {
            let prev_done = done;
            done = done.push((k, v));
            assert(loc_matches(bytes@, loc, (k, v)));
            match parse_records(bytes@.skip(next as int)) {
                Some(rs) => {
                    assert(parse_records(s) == Some(seq![(k, v)] + rs));
                    assert(prev_done + (seq![(k, v)] + rs) =~= done + rs);
                },
                None => {},
            }
        }
        pos = next;
    }
    proof {
        assert(bytes@.skip(pos as int) =~= Seq::<u8>::empty());
        assert(parse_records(bytes@.skip(pos as int)) == Some(Seq::<(Seq<u8>, Seq<u8>)>::empty()));
        assert(done + Seq::<(Seq<u8>, Seq<u8>)>::empty() =~= done);
    }
    Some(locs)
}

/// Every parsed record holds valid UTF-8 in its key and its value.
pub open spec fn records_utf8_valid(rs: Seq<(Seq<u8>, Seq<u8>)>) -> bool {
    forall|i: int| 0 <= i < rs.len() ==> valid_utf8(#[trigger] rs[i].0) && valid_utf8(rs[i].1)
}

/// Insert the records' decoded pairs into a map in stream order; a
/// later record with the same key overwrites an earlier one.
pub open spec fn insert_records(
    m: Map<Seq<char>, Seq<char>>,
    rs: Seq<(Seq<u8>, Seq<u8>)>,
) -> Map<Seq<char>, Seq<char>>
    decreases rs.len(),
{
    if rs.len() == 0 {
        m
    } else {
        insert_records(m.insert(decode_utf8(rs[0].0), decode_utf8(rs[0].1)), rs.drop_first())
    }
}

/// Inserting one more record is one more insert on the map.
proof fn lemma_insert_records_push(
    m: Map<Seq<char>, Seq<char>>,
    rs: Seq<(Seq<u8>, Seq<u8>)>,
    p: (Seq<u8>, Seq<u8>),
)
    ensures
        insert_records(m, rs.push(p)) == insert_records(m, rs).insert(
            decode_utf8(p.0),
            decode_utf8(p.1),
        ),
    decreases rs.len(),
{
    if rs.len() == 0 {
        assert(rs.push(p)[0] == p);
        assert(rs.push(p).drop_first() =~= Seq::<(Seq<u8>, Seq<u8>)>::empty());
        assert(insert_records(
            m.insert(decode_utf8(p.0), decode_utf8(p.1)),
            Seq::<(Seq<u8>, Seq<u8>)>::empty(),
        ) == m.insert(decode_utf8(p.0), decode_utf8(p.1)));
    } else {
        assert(rs.push(p)[0] == rs[0]);
        assert(rs.push(p).drop_first() =~= rs.drop_first().push(p));
        lemma_insert_records_push(
            m.insert(decode_utf8(rs[0].0), decode_utf8(rs[0].1)),
            rs.drop_first(),
            p,
        );
    }
}

/// Rebuild a store from a persisted byte stream, inserting the records
/// in stream order. A malformed stream, or one whose keys or values
/// are not valid text, is a fatal error and leaves the store as it is.
pub fn load_db(bytes: &[u8], db: &mut DB) -> (r: Result<(), &'static str>)
    requires
        old(db).wf(),
    ensures
        final(db).wf(),
        match parse_records(bytes@) {
            Some(rs) => {
                if records_utf8_valid(rs) {
                    r is Ok && final(db)@ == insert_records(old(db)@, rs)
                } else {
                    (r matches Err(m) && m@ == "db file is not valid text"@) && *final(db) == *old(
                        db,
                    )
                }
            },
            None => (r matches Err(m) && m@ == "malformed db file"@) && *final(db) == *old(db),
        },
{
    let locs = match parse_locs(bytes) {
        Some(locs) => locs,
        None => {
            return Err("malformed db file");
        },
    };
    let ghost rs = parse_records(bytes@).unwrap();
    let n = bytes.len();
    let mut records: Vec<(String, String)> = Vec::new();
    let mut i: usize = 0;
    while i < locs.len()
        invariant
            *db == *old(db),
            old(db).wf(),
            n == bytes@.len(),
            parse_records(bytes@) == Some(rs),
            locs@.len() == rs.len(),
            forall|j: int| 0 <= j < rs.len() ==> loc_matches(bytes@, locs@[j], rs[j]),
            i <= rs.len(),
            records@.len() == i,
            forall|j: int| 0 <= j < i ==> valid_utf8(#[trigger] rs[j].0) && valid_utf8(rs[j].1),
            forall|j: int|
                0 <= j < i ==> records@[j].0@ == decode_utf8(#[trigger] rs[j].0)
                    && records@[j].1@ == decode_utf8(rs[j].1),
        decreases locs@.len() - i,
    {
        let ks = locs[i].kstart;
        let kl = locs[i].klen;
        let vs = locs[i].vstart;
        let vl = locs[i].vlen;
        proof {
            assert(loc_matches(bytes@, locs@[i as int], rs[i as int]));
            assert(ks + kl <= n);
            assert(vs + vl <= n);
        }
        let key = match crate::tools::utf8_to_string(&bytes[ks..ks + kl]) {
            Some(key) => key,
            None => {
                proof {
                    assert(!valid_utf8(rs[i as int].0));
                }
                return Err("db file is not valid text");
            },
        };
        let value = match crate::tools::utf8_to_string(&bytes[vs..vs + vl]) {
            Some(value) => value,
            None => {
                proof {
                    assert(!valid_utf8(rs[i as int].1));
                }
                return Err("db file is not valid text");
            },
        };
        proof {
            crate::tools::lemma_utf8_bytes_decode(key@, rs[i as int].0);
            crate::tools::lemma_utf8_bytes_decode(value@, rs[i as int].1);
        }
        records.push((key, value));
        i = i + 1;
    }
    let mut j: usize = 0;
    proof {
        assert(rs.take(0) =~= Seq::<(Seq<u8>, Seq<u8>)>::empty());
    }
    while j < records.len()
        invariant
            db.wf(),
            records@.len() == rs.len(),
            j <= rs.len(),
            records_utf8_valid(rs),
            forall|jj: int|
                0 <= jj < rs.len() ==> records@[jj].0@ == decode_utf8(#[trigger] rs[jj].0)
                    && records@[jj].1@ == decode_utf8(rs[jj].1),
            db@ == insert_records(old(db)@, rs.take(j as int)),
        decreases records@.len() - j,
    {
        let ghost before = db@;
        let _ = crate::store::put(records[j].0.as_str(), records[j].1.as_str().as_bytes(), db);
        proof {
            let vc = records@[j as int].1@;
            vstd::utf8::encode_utf8_valid_utf8(vc);
            crate::tools::lemma_utf8_bytes_decode(vc, encode_utf8(vc));
            assert(db@ == before.insert(records@[j as int].0@, vc));
            assert(rs.take(j + 1) =~= rs.take(j as int).push(rs[j as int]));
            lemma_insert_records_push(old(db)@, rs.take(j as int), rs[j as int]);
        }
        j = j + 1;
    }
    proof {
        assert(rs.take(rs.len() as int) =~= rs);
    }
    Ok(())
}

/// The pairs' keys and values, once encoded, each fit in a length
/// field of eight bytes. Real strings always do: their byte length is
/// a `usize`.
pub open spec fn records_fit(ps: Seq<(Seq<char>, Seq<char>)>) -> bool {
    forall|i: int|
        0 <= i < ps.len() ==> encode_utf8(#[trigger] ps[i].0).len() < 0x1_0000_0000_0000_0000
            && encode_utf8(ps[i].1).len() < 0x1_0000_0000_0000_0000
}

/// The pairs of a store, with key and value encoded as UTF-8.
pub open spec fn encoded_pairs(ps: Seq<(Seq<char>, Seq<char>)>) -> Seq<(Seq<u8>, Seq<u8>)> {
    ps.map_values(|p: (Seq<char>, Seq<char>)| (encode_utf8(p.0), encode_utf8(p.1)))
}

/// Parsing a stream that starts with one whole record takes exactly
/// that record and goes on with the rest of the stream.
proof fn lemma_parse_one_record(k: Seq<u8>, v: Seq<u8>, rest: Seq<u8>)
    requires
        k.len() < 0x1_0000_0000_0000_0000,
        v.len() < 0x1_0000_0000_0000_0000,
    ensures
        parse_records(record_bytes(k, v) + rest) == (match parse_records(rest) {
            Some(rs) => Some(seq![(k, v)] + rs),
            None => None::<Seq<(Seq<u8>, Seq<u8>)>>,
        }),
{
    crate::tools::lemma_pow256_8();
    crate::tools::lemma_min_le_bytes_len(k.len(), 8);
    crate::tools::lemma_min_le_bytes_len(v.len(), 8);
    crate::tools::lemma_min_le_bytes_value(k.len());
    crate::tools::lemma_min_le_bytes_value(v.len());
    let kb = min_le_bytes(k.len());
    let vb = min_le_bytes(v.len());
    let kc = kb.len() as int;
    let vc = vb.len() as int;
    let rec = record_bytes(k, v);
    let bytes = rec + rest;
    assert(rec.len() == 2 + kc + k.len() + 1 + vc + v.len());
    assert(bytes[0] == MAGIC);
    assert(bytes[1] == kc as u8);
    assert(bytes[1] as int == kc);
    assert(bytes.subrange(2, 2 + kc) =~= kb);
    assert(le_value(bytes.subrange(2, 2 + kc)) == k.len());
    assert(bytes.subrange(2 + kc, 2 + kc + k.len()) =~= k);
    assert(bytes[2 + kc + k.len()] == vc as u8);
    assert(bytes[2 + kc + k.len()] as int == vc);
    assert(bytes.subrange(2 + kc + k.len() + 1, 2 + kc + k.len() + 1 + vc) =~= vb);
    assert(le_value(bytes.subrange(2 + kc + k.len() + 1, 2 + kc + k.len() + 1 + vc)) == v.len());
    assert(bytes.subrange(
        2 + kc + k.len() + 1 + vc,
        2 + kc + k.len() + 1 + vc + v.len(),
    ) =~= v);
    assert(bytes.skip(2 + kc + k.len() + 1 + vc + v.len()) =~= rest);
}

/// The serializer's output parses back to exactly the encoded pairs.
pub proof fn lemma_parse_records_bytes(ps: Seq<(Seq<char>, Seq<char>)>)
    requires
        records_fit(ps),
    ensures
        parse_records(records_bytes(ps)) == Some(encoded_pairs(ps)),
    decreases ps.len(),
{
    if ps.len() == 0 {
        assert(records_bytes(ps).len() == 0);
        assert(encoded_pairs(ps) =~= Seq::<(Seq<u8>, Seq<u8>)>::empty());
    } else {
        let tail = ps.drop_first();
        assert(records_fit(tail)) by {
            assert(forall|i: int| 0 <= i < tail.len() ==> tail[i] == ps[i + 1]);
        }
        lemma_parse_records_bytes(tail);
        lemma_parse_one_record(
            encode_utf8(ps[0].0),
            encode_utf8(ps[0].1),
            records_bytes(tail),
        );
        assert(seq![(encode_utf8(ps[0].0), encode_utf8(ps[0].1))] + encoded_pairs(tail)
            =~= encoded_pairs(ps));
    }
}

/// Every record the serializer writes holds valid UTF-8.
pub proof fn lemma_encoded_pairs_valid(ps: Seq<(Seq<char>, Seq<char>)>)
    ensures
        records_utf8_valid(encoded_pairs(ps)),
{
    assert forall|i: int| 0 <= i < encoded_pairs(ps).len() implies valid_utf8(
        #[trigger] encoded_pairs(ps)[i].0,
    ) && valid_utf8(encoded_pairs(ps)[i].1) by {
        vstd::utf8::encode_utf8_valid_utf8(ps[i].0);
        vstd::utf8::encode_utf8_valid_utf8(ps[i].1);
    }
}

/// Loading the serializer's records into an empty map rebuilds the
/// map the pairs denote.
proof fn lemma_insert_encoded_pairs(ps: Seq<(Seq<char>, Seq<char>)>)
    ensures
        insert_records(Map::<Seq<char>, Seq<char>>::empty(), encoded_pairs(ps)) == pairs_map(ps),
    decreases ps.len(),
{
    if ps.len() == 0 {
        assert(encoded_pairs(ps) =~= Seq::<(Seq<u8>, Seq<u8>)>::empty());
    } else {
        let dl = ps.drop_last();
        lemma_insert_encoded_pairs(dl);
        let p = (encode_utf8(ps.last().0), encode_utf8(ps.last().1));
        assert(encoded_pairs(ps) =~= encoded_pairs(dl).push(p));
        lemma_insert_records_push(Map::<Seq<char>, Seq<char>>::empty(), encoded_pairs(dl), p);
        vstd::utf8::encode_utf8_decode_utf8(ps.last().0);
        vstd::utf8::encode_utf8_decode_utf8(ps.last().1);
    }
}

/// Persistence round trip: the byte stream a store saves to parses
/// back without error, all of it is valid text, and loading it into an
/// empty store rebuilds the same key-to-value map. Keys and values are
/// asked to fit in the format's eight-byte length fields, which every
/// string held at run time does.
pub proof fn lemma_save_load_round_trip(db: DB)
    requires
        db.wf(),
        records_fit(db.pairs_view()),
    ensures
        parse_records(records_bytes(db.pairs_view())) == Some(encoded_pairs(db.pairs_view())),
        records_utf8_valid(encoded_pairs(db.pairs_view())),
        insert_records(Map::<Seq<char>, Seq<char>>::empty(), encoded_pairs(db.pairs_view()))
            == db@,
{
    lemma_parse_records_bytes(db.pairs_view());
    lemma_encoded_pairs_valid(db.pairs_view());
    lemma_insert_encoded_pairs(db.pairs_view());
}

} // verus!
