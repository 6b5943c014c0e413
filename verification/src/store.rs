//! The in-memory key-value store: a mapping from string keys to string
//! values with get/put/delete/scan, where scan matches keys by
//! substring containment.
//!
//! The pairs are held in a vector in insertion order with unique keys;
//! the store's view is the map from keys to values that the pairs
//! denote.

use vstd::prelude::*;
use vstd::utf8::{decode_utf8, valid_utf8};

verus! {

/// `needle` occurs in `hay` as a contiguous substring starting at `i`.
pub open spec fn is_substring_at(hay: Seq<char>, needle: Seq<char>, i: int) -> bool {
    0 <= i && i + needle.len() <= hay.len() && hay.subrange(i, i + needle.len()) == needle
}

/// `needle` occurs somewhere in `hay` as a contiguous substring.
pub open spec fn contains_substring(hay: Seq<char>, needle: Seq<char>) -> bool {
    exists|i: int| is_substring_at(hay, needle, i)
}

/// The keys of `ks` that contain `needle` as a substring, in order.
pub open spec fn matching_keys(ks: Seq<Seq<char>>, needle: Seq<char>) -> Seq<Seq<char>> {
    ks.filter(|k: Seq<char>| contains_substring(k, needle))
}

/// The map denoted by a sequence of key/value pairs; a later pair with
/// the same key overwrites an earlier one.
pub open spec fn pairs_map(ps: Seq<(Seq<char>, Seq<char>)>) -> Map<Seq<char>, Seq<char>>
    decreases ps.len(),
{
    if ps.len() == 0 {
        Map::empty()
    } else {
        pairs_map(ps.drop_last()).insert(ps.last().0, ps.last().1)
    }
}

/// Pairwise distinct keys.
pub open spec fn unique_keys(ps: Seq<(Seq<char>, Seq<char>)>) -> bool {
    forall|i: int, j: int| 0 <= i < j < ps.len() ==> ps[i].0 != ps[j].0
}

/// The key-value store. Keys are unique; insertion order is kept only
/// so that the contents are a well-defined sequence of records.
pub struct DB {
    pub pairs: Vec<(String, String)>,
}

impl View for DB {
    type V = Map<Seq<char>, Seq<char>>;

    open spec fn view(&self) -> Map<Seq<char>, Seq<char>> {
        pairs_map(self.pairs_view())
    }
}

impl DB {
    /// The key/value pairs in insertion order, as character sequences.
    pub open spec fn pairs_view(&self) -> Seq<(Seq<char>, Seq<char>)> {
        self.pairs@.map_values(|p: (String, String)| (p.0@, p.1@))
    }

    /// The keys in insertion order.
    pub open spec fn keys_seq(&self) -> Seq<Seq<char>> {
        self.pairs_view().map_values(|p: (Seq<char>, Seq<char>)| p.0)
    }

    /// The store's invariant: no key occurs twice.
    pub open spec fn wf(&self) -> bool {
        unique_keys(self.pairs_view())
    }

    /// An empty store.
    pub fn new() -> (r: DB)
        ensures
            r.wf(),
            r@ == Map::<Seq<char>, Seq<char>>::empty(),
            r.pairs_view() == Seq::<(Seq<char>, Seq<char>)>::empty(),
    {
        let r = DB { pairs: Vec::new() };
        proof {
            assert(r.pairs_view() =~= Seq::<(Seq<char>, Seq<char>)>::empty());
        }
        r
    }
}

/// A pair sequence's map holds exactly the pairs' keys.
proof fn lemma_pairs_map_domain(ps: Seq<(Seq<char>, Seq<char>)>, k: Seq<char>)
    ensures
        pairs_map(ps).contains_key(k) <==> exists|i: int| 0 <= i < ps.len() && ps[i].0 == k,
    decreases ps.len(),
{
    if ps.len() == 0 {
    } else {
        lemma_pairs_map_domain(ps.drop_last(), k);
        if pairs_map(ps).contains_key(k) {
            if k == ps.last().0 {
                assert(ps[ps.len() - 1].0 == k);
            } else {
                let i = choose|i: int| 0 <= i < ps.drop_last().len() && ps.drop_last()[i].0 == k;
                assert(ps[i].0 == k);
            }
        }
        if exists|i: int| 0 <= i < ps.len() && ps[i].0 == k {
            let i = choose|i: int| 0 <= i < ps.len() && ps[i].0 == k;
            if i < ps.len() - 1 {
                assert(ps.drop_last()[i].0 == k);
            }
        }
    }
}

/// With unique keys, the map sends each pair's key to that pair's value.
proof fn lemma_pairs_map_index(ps: Seq<(Seq<char>, Seq<char>)>, i: int)
    requires
        unique_keys(ps),
        0 <= i < ps.len(),
    ensures
        pairs_map(ps).contains_key(ps[i].0),
        pairs_map(ps)[ps[i].0] == ps[i].1,
    decreases ps.len(),
{
    if i == ps.len() - 1 {
    } else {
        assert(unique_keys(ps.drop_last()));
        assert(ps.drop_last()[i] == ps[i]);
        lemma_pairs_map_index(ps.drop_last(), i);
        assert(ps[i].0 != ps.last().0);
    }
}

/// Character-for-character string equality, which is equality of views.
fn str_eq(a: &str, b: &str) -> (r: bool)
    ensures
        r == (a@ == b@),
{
    let an = a.unicode_len();
    let bn = b.unicode_len();
    if an != bn {
        return false;
    }
    let mut i: usize = 0;
    while i < an
        invariant
            an == a@.len(),
            an == b@.len(),
            i <= an,
            forall|j: int| 0 <= j < i ==> a@[j] == b@[j],
        decreases an - i,
    {
        if a.get_char(i) != b.get_char(i) {
            return false;
        }
        i = i + 1;
    }
    proof {
        assert(a@ =~= b@);
    }
    true
}

/// `needle` matches `hay` at position `i` exactly when the characters
/// agree there.
fn match_at(hay: &str, needle: &str, i: usize) -> (r: bool)
    requires
        i + needle@.len() <= hay@.len(),
    ensures
        r == is_substring_at(hay@, needle@, i as int),
{
    let n = needle.unicode_len();
    let h = hay.unicode_len();
    let mut j: usize = 0;
    while j < n
        invariant
            n == needle@.len(),
            h == hay@.len(),
            i + n <= h,
            j <= n,
            forall|jj: int| 0 <= jj < j ==> hay@[i + jj] == needle@[jj],
        decreases n - j,
    {
        if hay.get_char(i + j) != needle.get_char(j) {
            proof {
                if is_substring_at(hay@, needle@, i as int) {
                    assert(hay@.subrange(i as int, i as int + n)[j as int] == hay@[i + j]);
                }
            }
            return false;
        }
        j = j + 1;
    }
    proof {
        assert(hay@.subrange(i as int, i as int + n as int) =~= needle@);
    }
    true
}

/// Whether `needle` occurs in `hay` as a contiguous substring.
fn str_contains(hay: &str, needle: &str) -> (r: bool)
    ensures
        r == contains_substring(hay@, needle@),
{
    let h = hay.unicode_len();
    let n = needle.unicode_len();
    if n > h {
        proof {
            assert forall|i: int| !is_substring_at(hay@, needle@, i) by {}
        }
        return false;
    }
    if n == 0 {
        proof {
            assert(hay@.subrange(0, 0) =~= needle@);
            assert(is_substring_at(hay@, needle@, 0));
        }
        return true;
    }
    let mut i: usize = 0;
    while i <= h - n
        invariant
            h == hay@.len(),
            n == needle@.len(),
            0 < n <= h,
            i <= h - n + 1,
            forall|ii: int| 0 <= ii < i ==> !is_substring_at(hay@, needle@, ii),
        decreases h + 1 - n - i,
    {
        if match_at(hay, needle, i) {
            return true;
        }
        i = i + 1;
    }
    proof {
        assert forall|ii: int| !is_substring_at(hay@, needle@, ii) by {
            if 0 <= ii && ii + needle@.len() <= hay@.len() {
                assert(ii < i);
            }
        }
    }
    false
}

/// Get the value stored under `key`, if any; an exact match only.
pub fn get(key: &str, db: &DB) -> (r: Option<String>)
    requires
        db.wf(),
    ensures
        db@.contains_key(key@) ==> (r matches Some(v) && v@ == db@[key@]),
        !db@.contains_key(key@) ==> r is None,
{
    let ghost ps = db.pairs_view();
    let mut i: usize = 0;
    while i < db.pairs.len()
        invariant
            db.wf(),
            ps == db.pairs_view(),
            i <= ps.len(),
            forall|j: int| 0 <= j < i ==> ps[j].0 != key@,
        decreases db.pairs.len() - i,
    {
        if str_eq(db.pairs[i].0.as_str(), key) {
            proof {
                lemma_pairs_map_index(ps, i as int);
            }
            return Some(db.pairs[i].1.clone());
        }
        i = i + 1;
    }
    proof {
        lemma_pairs_map_domain(ps, key@);
    }
    None
}

/// Overwriting the value at one pair's key is an insert on the map.
proof fn lemma_pairs_map_update(ps: Seq<(Seq<char>, Seq<char>)>, i: int, v: Seq<char>)
    requires
        unique_keys(ps),
        0 <= i < ps.len(),
    ensures
        pairs_map(ps.update(i, (ps[i].0, v))) == pairs_map(ps).insert(ps[i].0, v),
        unique_keys(ps.update(i, (ps[i].0, v))),
    decreases ps.len(),
{
    let ps2 = ps.update(i, (ps[i].0, v));
    assert(forall|j: int| 0 <= j < ps.len() ==> ps2[j].0 == ps[j].0);
    if i == ps.len() - 1 {
        assert(ps2.drop_last() =~= ps.drop_last());
        assert(pairs_map(ps).insert(ps[i].0, v) =~= pairs_map(ps.drop_last()).insert(
            ps[i].0,
            v,
        ));
    } else {
        assert(ps.drop_last()[i] == ps[i]);
        assert(unique_keys(ps.drop_last()));
        lemma_pairs_map_update(ps.drop_last(), i, v);
        assert(ps2.drop_last() =~= ps.drop_last().update(i, (ps[i].0, v)));
        assert(ps[i].0 != ps.last().0);
        assert(pairs_map(ps2) == pairs_map(ps.drop_last()).insert(ps[i].0, v).insert(
            ps.last().0,
            ps.last().1,
        ));
        assert(pairs_map(ps.drop_last()).insert(ps[i].0, v).insert(ps.last().0, ps.last().1)
            =~= pairs_map(ps.drop_last()).insert(ps.last().0, ps.last().1).insert(ps[i].0, v));
    }
}

/// Removing one pair removes exactly its key from the map.
proof fn lemma_pairs_map_remove(ps: Seq<(Seq<char>, Seq<char>)>, i: int)
    requires
        unique_keys(ps),
        0 <= i < ps.len(),
    ensures
        pairs_map(ps.remove(i)) == pairs_map(ps).remove(ps[i].0),
        unique_keys(ps.remove(i)),
    decreases ps.len(),
{
    let ps2 = ps.remove(i);
    assert(forall|j: int| 0 <= j < i ==> ps2[j] == ps[j]);
    assert(forall|j: int| i <= j < ps2.len() ==> ps2[j] == ps[j + 1]);
    assert(unique_keys(ps2));
    if i == ps.len() - 1 {
        assert(ps2 =~= ps.drop_last());
        assert(forall|j: int|
            0 <= j < ps.drop_last().len() ==> ps.drop_last()[j].0 != ps.last().0);
        lemma_pairs_map_domain(ps.drop_last(), ps.last().0);
        assert(pairs_map(ps).remove(ps.last().0) =~= pairs_map(ps.drop_last()));
    } else {
        assert(ps.drop_last()[i] == ps[i]);
        assert(unique_keys(ps.drop_last()));
        lemma_pairs_map_remove(ps.drop_last(), i);
        assert(ps2.drop_last() =~= ps.drop_last().remove(i));
        assert(ps2.last() == ps.last());
        assert(pairs_map(ps2) == pairs_map(ps.drop_last()).remove(ps[i].0).insert(
            ps.last().0,
            ps.last().1,
        ));
        assert(ps[i].0 != ps.last().0);
        assert(pairs_map(ps.drop_last()).remove(ps[i].0).insert(ps.last().0, ps.last().1)
            =~= pairs_map(ps.drop_last()).insert(ps.last().0, ps.last().1).remove(ps[i].0));
    }
}

/// Store `value` under `key`, overwriting any existing value. The
/// value bytes must be valid text; if they are not, the store is left
/// unchanged and an error is reported.
pub fn put(key: &str, value: &[u8], db: &mut DB) -> (r: Result<(), &'static str>)
    requires
        old(db).wf(),
    ensures
        final(db).wf(),
        valid_utf8(value@) ==> r is Ok && final(db)@ == old(db)@.insert(
            key@,
            decode_utf8(value@),
        ),
        valid_utf8(value@) ==> final(db).keys_seq() == (if old(db)@.contains_key(key@) {
            old(db).keys_seq()
        } else {
            old(db).keys_seq().push(key@)
        }),
        !valid_utf8(value@) ==> (r matches Err(m) && m@ == "value is not valid text"@)
            && *final(db) == *old(db),
{
    let text = match crate::tools::utf8_to_string(value) {
        Some(text) => text,
        None => {
            return Err("value is not valid text");
        },
    };
    proof {
        crate::tools::lemma_utf8_bytes_decode(text@, value@);
    }
    let ghost ps = db.pairs_view();
    let mut i: usize = 0;
    while i < db.pairs.len()
        invariant
            *db == *old(db),
            unique_keys(ps),
            ps == db.pairs_view(),
            i <= ps.len(),
            valid_utf8(value@),
            text@ == decode_utf8(value@),
            forall|j: int| 0 <= j < i ==> ps[j].0 != key@,
        decreases db.pairs.len() - i,
    {
        if str_eq(db.pairs[i].0.as_str(), key) {
            let pair = db.pairs.remove(i);
            db.pairs.insert(i, (pair.0, text));
            proof {
                assert(db.pairs_view() =~= ps.update(i as int, (ps[i as int].0, decode_utf8(
                    value@,
                ))));
                lemma_pairs_map_update(ps, i as int, decode_utf8(value@));
                lemma_pairs_map_index(ps, i as int);
                assert(final(db).keys_seq() =~= old(db).keys_seq());
                lemma_pairs_map_domain(ps, key@);
            }
            return Ok(());
        }
        i = i + 1;
    }
    let owned_key = key.to_owned();
    db.pairs.push((owned_key, text));
    proof {
        assert(db.pairs_view() =~= ps.push((key@, decode_utf8(value@))));
        assert(db.pairs_view().drop_last() =~= ps);
        assert(unique_keys(db.pairs_view()));
        lemma_pairs_map_domain(ps, key@);
        assert(final(db).keys_seq() =~= old(db).keys_seq().push(key@));
    }
    Ok(())
}

/// Remove `key` from the store, handing back the value it held; a key
/// that is absent is reported as such and nothing changes, so deleting
/// twice is safe.
pub fn delete(key: &str, db: &mut DB) -> (r: Option<String>)
    requires
        old(db).wf(),
    ensures
        final(db).wf(),
        old(db)@.contains_key(key@) ==> (r matches Some(v) && v@ == old(db)@[key@])
            && final(db)@ == old(db)@.remove(key@),
        !old(db)@.contains_key(key@) ==> r is None && *final(db) == *old(db),
{
    let ghost ps = db.pairs_view();
    let mut i: usize = 0;
    while i < db.pairs.len()
        invariant
            *db == *old(db),
            unique_keys(ps),
            ps == db.pairs_view(),
            i <= ps.len(),
            forall|j: int| 0 <= j < i ==> ps[j].0 != key@,
        decreases db.pairs.len() - i,
    {
        if str_eq(db.pairs[i].0.as_str(), key) {
            let pair = db.pairs.remove(i);
            proof {
                assert(db.pairs_view() =~= ps.remove(i as int));
                lemma_pairs_map_remove(ps, i as int);
                lemma_pairs_map_index(ps, i as int);
            }
            return Some(pair.1);
        }
        i = i + 1;
    }
    proof {
        lemma_pairs_map_domain(ps, key@);
    }
    None
}

/// List the keys that contain `key` as a substring, in insertion
/// order; the empty substring matches every key.
pub fn scan(key: &str, db: &DB) -> (r: Vec<String>)
    ensures
        r@.map_values(|s: String| s@) == matching_keys(db.keys_seq(), key@),
{
    let ghost ks = db.keys_seq();
    let ghost pred = |k: Seq<char>| contains_substring(k, key@);
    let mut result: Vec<String> = Vec::new();
    let mut i: usize = 0;
    proof {
        reveal(Seq::filter);
        assert(ks.take(0) =~= Seq::<Seq<char>>::empty());
        assert(result@.map_values(|s: String| s@) =~= ks.take(0).filter(pred));
    }
    while i < db.pairs.len()
        invariant
            ks == db.keys_seq(),
            pred == (|k: Seq<char>| contains_substring(k, key@)),
            i <= db.pairs@.len(),
            ks.len() == db.pairs@.len(),
            result@.map_values(|s: String| s@) == ks.take(i as int).filter(pred),
        decreases db.pairs.len() - i,
    {
        let ghost prev = result@;
        let matched = str_contains(db.pairs[i].0.as_str(), key);
        if matched {
            result.push(db.pairs[i].0.clone());
        }
        proof {
            reveal(Seq::filter);
            let t = ks.take(i as int);
            let t1 = ks.take(i + 1);
            assert(t1.drop_last() =~= t);
            assert(t1.last() == ks[i as int]);
            assert(ks[i as int] == db.pairs@[i as int].0@);
            if matched {
                assert(result@.map_values(|s: String| s@) =~= prev.map_values(
                    |s: String| s@,
                ).push(ks[i as int]));
            }
        }
        i = i + 1;
    }
    proof {
        assert(ks.take(ks.len() as int) =~= ks);
    }
    result
}

/// A value just stored is the value got back: after a put of `v` under
/// `k`, the store's map holds `k`, and a get of `k` yields `v`.
pub proof fn lemma_get_after_put(m: Map<Seq<char>, Seq<char>>, k: Seq<char>, v: Seq<char>)
    ensures
        m.insert(k, v).contains_key(k),
        m.insert(k, v)[k] == v,
{
}

/// A deleted key is gone: after a delete of `k` a get of `k` finds
/// nothing, and a second delete of `k` finds nothing to remove and
/// leaves the store as it is.
pub proof fn lemma_get_after_delete(m: Map<Seq<char>, Seq<char>>, k: Seq<char>)
    ensures
        !m.remove(k).contains_key(k),
{
}

/// A filtered sequence holds exactly the elements of the original that
/// satisfy the predicate.
proof fn lemma_filter_membership(s: Seq<Seq<char>>, pred: spec_fn(Seq<char>) -> bool, x: Seq<char>)
    ensures
        s.filter(pred).contains(x) <==> s.contains(x) && pred(x),
    decreases s.len(),
{
    reveal(Seq::filter);
    if s.len() == 0 {
    } else {
        lemma_filter_membership(s.drop_last(), pred, x);
        let dl = s.drop_last();
        if s.filter(pred).contains(x) {
            let i = choose|i: int| 0 <= i < s.filter(pred).len() && s.filter(pred)[i] == x;
            if pred(s.last()) {
                if i < s.filter(pred).len() - 1 {
                    assert(dl.filter(pred)[i] == x);
                    assert(dl.filter(pred).contains(x));
                    let j = choose|j: int| 0 <= j < dl.len() && dl[j] == x;
                    assert(s[j] == x);
                } else {
                    assert(s[s.len() - 1] == x);
                }
            } else {
                assert(dl.filter(pred)[i] == x);
                assert(dl.filter(pred).contains(x));
                let j = choose|j: int| 0 <= j < dl.len() && dl[j] == x;
                assert(s[j] == x);
            }
        }
        if s.contains(x) && pred(x) {
            let i = choose|i: int| 0 <= i < s.len() && s[i] == x;
            if i < s.len() - 1 {
                assert(dl[i] == x);
                assert(dl.contains(x));
                let j = choose|j: int|
                    0 <= j < dl.filter(pred).len() && dl.filter(pred)[j] == x;
                if pred(s.last()) {
                    assert(s.filter(pred)[j] == x);
                } else {
                    assert(s.filter(pred)[j] == x);
                }
            } else {
                assert(s.filter(pred).last() == x);
            }
        }
    }
}

/// The store's key sequence lists exactly the keys of its map.
pub proof fn lemma_keys_seq_domain(db: DB, k: Seq<char>)
    ensures
        db.keys_seq().contains(k) <==> db@.contains_key(k),
{
    let ps = db.pairs_view();
    lemma_pairs_map_domain(ps, k);
    if db.keys_seq().contains(k) {
        let i = choose|i: int| 0 <= i < db.keys_seq().len() && db.keys_seq()[i] == k;
        assert(ps[i].0 == k);
    }
    if db@.contains_key(k) {
        let i = choose|i: int| 0 <= i < ps.len() && ps[i].0 == k;
        assert(db.keys_seq()[i] == k);
    }
}

/// A scan returns exactly the matching keys: a key is among the scan
/// results precisely when the store holds it and it contains the
/// substring, byte for byte.
pub proof fn lemma_scan_exact(db: DB, needle: Seq<char>, k: Seq<char>)
    ensures
        matching_keys(db.keys_seq(), needle).contains(k) <==> db@.contains_key(k)
            && contains_substring(k, needle),
{
    lemma_filter_membership(db.keys_seq(), |x: Seq<char>| contains_substring(x, needle), k);
    lemma_keys_seq_domain(db, k);
}

/// A scan with the empty substring lists the full key set: every key
/// contains the empty sequence, so the filter keeps everything.
pub proof fn lemma_scan_empty(db: DB)
    ensures
        matching_keys(db.keys_seq(), Seq::<char>::empty()) == db.keys_seq(),
{
    let ks = db.keys_seq();
    let pred = |x: Seq<char>| contains_substring(x, Seq::<char>::empty());
    assert forall|x: Seq<char>| #[trigger] pred(x) == true by {
        assert(x.subrange(0, 0) =~= Seq::<char>::empty());
        assert(is_substring_at(x, Seq::<char>::empty(), 0));
    }
    lemma_filter_all(ks, pred);
}

/// Filtering with a predicate that holds everywhere changes nothing.
proof fn lemma_filter_all(s: Seq<Seq<char>>, pred: spec_fn(Seq<char>) -> bool)
    requires
        forall|x: Seq<char>| #[trigger] pred(x) == true,
    ensures
        s.filter(pred) == s,
    decreases s.len(),
{
    reveal(Seq::filter);
    if s.len() == 0 {
        assert(s.filter(pred) =~= s);
    } else {
        lemma_filter_all(s.drop_last(), pred);
        assert(s.filter(pred) =~= s.drop_last().push(s.last()));
        assert(s.drop_last().push(s.last()) =~= s);
    }
}

} // verus!
