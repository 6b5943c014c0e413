//! The line-oriented text engine: one input line in, one reply out,
//! against the store.
//!
//! A line is trimmed and read as one of `get <key>`, `put <key>
//! <value>`, `set <key> <value>`, `del <key>` or `scan <substring>`,
//! with single spaces or runs of spaces between the words and no other
//! whitespace anywhere; anything else is an unknown command.

use crate::persistence::MAGIC;
use crate::store::{contains_substring, matching_keys, DB};
use crate::tools::le_bytes;
use vstd::prelude::*;
use vstd::utf8::{decode_utf8, encode_utf8, valid_utf8};

verus! {

/// A Unicode whitespace character: the set `trim` strips and the set
/// that ends a word.
pub open spec fn is_ws(c: char) -> bool {
    let u = c as u32;
    u == 0x20 || (0x09 <= u && u <= 0x0d) || u == 0x85 || u == 0xa0 || u == 0x1680 || (0x2000 <= u
        && u <= 0x200a) || u == 0x2028 || u == 0x2029 || u == 0x202f || u == 0x205f || u == 0x3000
}

/// Whether `c` is Unicode whitespace.
fn is_ws_char(c: char) -> (r: bool)
    ensures
        r == is_ws(c),
{
    let u = c as u32;
    u == 0x20 || (0x09 <= u && u <= 0x0d) || u == 0x85 || u == 0xa0 || u == 0x1680 || (0x2000 <= u
        && u <= 0x200a) || u == 0x2028 || u == 0x2029 || u == 0x202f || u == 0x205f || u == 0x3000
}

/// The sequence without its leading whitespace.
pub open spec fn drop_leading_ws(s: Seq<char>) -> Seq<char>
    decreases s.len(),
{
    if s.len() == 0 {
        s
    } else if is_ws(s[0]) {
        drop_leading_ws(s.drop_first())
    } else {
        s
    }
}

/// The sequence without its trailing whitespace.
pub open spec fn drop_trailing_ws(s: Seq<char>) -> Seq<char>
    decreases s.len(),
{
    if s.len() == 0 {
        s
    } else if is_ws(s.last()) {
        drop_trailing_ws(s.drop_last())
    } else {
        s
    }
}

/// The sequence without leading and trailing whitespace, as `str::trim`
/// gives it.
pub open spec fn trimmed(s: Seq<char>) -> Seq<char> {
    drop_trailing_ws(drop_leading_ws(s))
}

/// Dropping leading whitespace is skipping to the first character
/// that is not whitespace.
proof fn lemma_drop_leading_ws(s: Seq<char>, j: int)
    requires
        0 <= j <= s.len(),
        forall|i: int| 0 <= i < j ==> is_ws(s[i]),
        j == s.len() || !is_ws(s[j]),
    ensures
        drop_leading_ws(s) == s.skip(j),
    decreases j,
{
    if j == 0 {
        if s.len() == 0 {
            assert(s.skip(0) =~= s);
        } else {
            assert(!is_ws(s[0]));
            assert(s.skip(0) =~= s);
        }
    } else {
        assert(is_ws(s[0]));
        let rest = s.drop_first();
        assert(forall|i: int| 0 <= i < j - 1 ==> rest[i] == s[i + 1]);
        lemma_drop_leading_ws(rest, j - 1);
        assert(rest.skip(j - 1) =~= s.skip(j));
    }
}

/// Dropping trailing whitespace is taking up to the last character
/// that is not whitespace.
proof fn lemma_drop_trailing_ws(s: Seq<char>, j: int)
    requires
        0 <= j <= s.len(),
        forall|i: int| j <= i < s.len() ==> is_ws(s[i]),
        j == 0 || !is_ws(s[j - 1]),
    ensures
        drop_trailing_ws(s) == s.take(j),
    decreases s.len(),
{
    if j == s.len() {
        if s.len() == 0 {
            assert(s.take(j) =~= s);
        } else {
            assert(!is_ws(s.last()));
            assert(s.take(j) =~= s);
        }
    } else {
        assert(is_ws(s.last()));
        let dl = s.drop_last();
        assert(forall|i: int| 0 <= i < dl.len() ==> dl[i] == s[i]);
        lemma_drop_trailing_ws(dl, j);
        assert(dl.take(j) =~= s.take(j));
    }
}

/// The trimmed sequence is the subrange between the first and one past
/// the last characters that are not whitespace.
proof fn lemma_trimmed_subrange(s: Seq<char>, a: int, b: int)
    requires
        0 <= a <= b <= s.len(),
        forall|i: int| 0 <= i < a ==> is_ws(s[i]),
        forall|i: int| b <= i < s.len() ==> is_ws(s[i]),
        a == b || (!is_ws(s[a]) && !is_ws(s[b - 1])),
    ensures
        trimmed(s) == s.subrange(a, b),
    decreases s.len(),
{
    if a == b {
        assert(forall|i: int| 0 <= i < s.len() ==> is_ws(s[i]));
        lemma_drop_leading_ws(s, s.len() as int);
        assert(s.skip(s.len() as int) =~= Seq::<char>::empty());
        assert(drop_trailing_ws(Seq::<char>::empty()) =~= Seq::<char>::empty());
        assert(s.subrange(a, b) =~= Seq::<char>::empty());
    } else {
        lemma_drop_leading_ws(s, a);
        let u = s.skip(a);
        assert(forall|i: int| 0 <= i < u.len() ==> u[i] == s[a + i]);
        lemma_drop_trailing_ws(u, b - a);
        assert(u.take(b - a) =~= s.subrange(a, b));
    }
}

/// The sequence without its leading plain spaces; other whitespace is
/// not stripped, since only spaces may separate the words of a command.
pub open spec fn drop_spaces(s: Seq<char>) -> Seq<char>
    decreases s.len(),
{
    if s.len() == 0 {
        s
    } else if s[0] == ' ' {
        drop_spaces(s.drop_first())
    } else {
        s
    }
}

/// The longest prefix free of whitespace: one word.
pub open spec fn take_word(s: Seq<char>) -> Seq<char>
    decreases s.len(),
{
    if s.len() == 0 || is_ws(s[0]) {
        Seq::empty()
    } else {
        seq![s[0]] + take_word(s.drop_first())
    }
}

/// Dropping leading spaces is skipping to the first character that is
/// not a space.
proof fn lemma_drop_spaces(s: Seq<char>, j: int)
    requires
        0 <= j <= s.len(),
        forall|i: int| 0 <= i < j ==> s[i] == ' ',
        j == s.len() || s[j] != ' ',
    ensures
        drop_spaces(s) == s.skip(j),
    decreases j,
{
    if j == 0 {
        assert(s.skip(0) =~= s);
    } else {
        let rest = s.drop_first();
        assert(forall|i: int| 0 <= i < j - 1 ==> rest[i] == s[i + 1]);
        lemma_drop_spaces(rest, j - 1);
        assert(rest.skip(j - 1) =~= s.skip(j));
    }
}

/// The first word is the prefix up to the first whitespace character.
proof fn lemma_take_word(s: Seq<char>, j: int)
    requires
        0 <= j <= s.len(),
        forall|i: int| 0 <= i < j ==> !is_ws(s[i]),
        j == s.len() || is_ws(s[j]),
    ensures
        take_word(s) == s.take(j),
    decreases j,
{
    if j == 0 {
        assert(s.take(0) =~= Seq::<char>::empty());
    } else {
        let rest = s.drop_first();
        assert(forall|i: int| 0 <= i < j - 1 ==> rest[i] == s[i + 1]);
        lemma_take_word(rest, j - 1);
        assert(seq![s[0]] + rest.take(j - 1) =~= s.take(j));
    }
}

/// The argument of a one-word command: the trimmed line must be the
/// keyword, at least one space, then one word reaching the end of the
/// line.
pub open spec fn one_arg(t: Seq<char>, kw: Seq<char>) -> Option<Seq<char>> {
    if t.len() > kw.len() && t.take(kw.len() as int) == kw && t[kw.len() as int] == ' ' {
        let w = drop_spaces(t.skip(kw.len() as int));
        if w.len() > 0 && (forall|i: int| 0 <= i < w.len() ==> !is_ws(w[i])) {
            Some(w)
        } else {
            None
        }
    } else {
        None
    }
}

/// The two arguments of a two-word command: the trimmed line must be
/// the keyword, spaces, a word, a space and maybe more spaces, then a
/// second word reaching the end of the line.
pub open spec fn two_args(t: Seq<char>, kw: Seq<char>) -> Option<(Seq<char>, Seq<char>)> {
    if t.len() > kw.len() && t.take(kw.len() as int) == kw && t[kw.len() as int] == ' ' {
        let w = drop_spaces(t.skip(kw.len() as int));
        let first = take_word(w);
        if first.len() > 0 {
            let x = w.skip(first.len() as int);
            if x.len() > 0 && x[0] == ' ' {
                let second = drop_spaces(x);
                if second.len() > 0 && (forall|i: int|
                    0 <= i < second.len() ==> !is_ws(second[i])) {
                    Some((first, second))
                } else {
                    None
                }
            } else {
                None
            }
        } else {
            None
        }
    } else {
        None
    }
}

/// Whether the word `kw` opens `t` and a space follows it.
fn has_keyword(t: &str, kw: &str) -> (r: bool)
    ensures
        r == (t@.len() > kw@.len() && t@.take(kw@.len() as int) == kw@ && t@[kw@.len() as int]
            == ' '),
{
    let n = t.unicode_len();
    let m = kw.unicode_len();
    if n <= m {
        return false;
    }
    let mut i: usize = 0;
    while i < m
        invariant
            n == t@.len(),
            m == kw@.len(),
            m < n,
            i <= m,
            forall|j: int| 0 <= j < i ==> t@[j] == kw@[j],
        decreases m - i,
    {
        if t.get_char(i) != kw.get_char(i) {
            proof {
                if t@.take(m as int) == kw@ {
                    assert(t@.take(m as int)[i as int] == t@[i as int]);
                }
            }
            return false;
        }
        i = i + 1;
    }
    proof {
        assert(t@.take(m as int) =~= kw@);
    }
    t.get_char(m) == ' '
}

/// Scan forward from `from` past plain spaces.
fn skip_spaces(t: &str, from: usize) -> (r: usize)
    requires
        from <= t@.len(),
    ensures
        from <= r <= t@.len(),
        forall|i: int| from <= i < r ==> t@[i] == ' ',
        r == t@.len() || t@[r as int] != ' ',
{
    let n = t.unicode_len();
    let mut i: usize = from;
    while i < n
        invariant
            n == t@.len(),
            from <= i <= n,
            forall|j: int| from <= j < i ==> t@[j] == ' ',
        decreases n - i,
    {
        if t.get_char(i) != ' ' {
            return i;
        }
        i = i + 1;
    }
    i
}

/// Scan forward from `from` to the end of the current word.
fn skip_word(t: &str, from: usize) -> (r: usize)
    requires
        from <= t@.len(),
    ensures
        from <= r <= t@.len(),
        forall|i: int| from <= i < r ==> !is_ws(t@[i]),
        r == t@.len() || is_ws(t@[r as int]),
{
    let n = t.unicode_len();
    let mut i: usize = from;
    while i < n
        invariant
            n == t@.len(),
            from <= i <= n,
            forall|j: int| from <= j < i ==> !is_ws(t@[j]),
        decreases n - i,
    {
        if is_ws_char(t.get_char(i)) {
            return i;
        }
        i = i + 1;
    }
    i
}

/// Find the argument of a one-word command in the trimmed line `t`:
/// the character range holding it, if the line has the right shape.
fn parse_one_arg(t: &str, kw: &str) -> (r: Option<(usize, usize)>)
    ensures
        match one_arg(t@, kw@) {
            Some(arg) => r matches Some(p) && p.0 <= p.1 <= t@.len() && t@.subrange(
                p.0 as int,
                p.1 as int,
            ) == arg,
            None => r is None,
        },
{
    if !has_keyword(t, kw) {
        return None;
    }
    let n = t.unicode_len();
    let m = kw.unicode_len();
    let a = skip_spaces(t, m);
    let ghost u = t@.skip(m as int);
    proof {
        assert(forall|i: int| 0 <= i < u.len() ==> u[i] == t@[m + i]);
        lemma_drop_spaces(u, a - m);
        assert(u.skip(a - m) =~= t@.skip(a as int));
    }
    if a == n {
        return None;
    }
    let b = skip_word(t, a);
    if b < n {
        proof {
            let w = t@.skip(a as int);
            assert(w[b - a] == t@[b as int]);
            assert(is_ws(w[b - a]));
        }
        return None;
    }
    proof {
        let w = t@.skip(a as int);
        assert(forall|i: int| 0 <= i < w.len() ==> w[i] == t@[a + i]);
        assert(w.len() > 0);
        assert(forall|i: int| 0 <= i < w.len() ==> !is_ws(w[i]));
        assert(t@.subrange(a as int, n as int) =~= w);
    }
    Some((a, n))
}

/// Find the two arguments of a two-word command in the trimmed line
/// `t`: their character ranges, if the line has the right shape.
fn parse_two_args(t: &str, kw: &str) -> (r: Option<((usize, usize), (usize, usize))>)
    ensures
        match two_args(t@, kw@) {
            Some(args) => r matches Some(p) && p.0.0 <= p.0.1 <= t@.len() && p.1.0 <= p.1.1
                <= t@.len() && t@.subrange(p.0.0 as int, p.0.1 as int) == args.0 && t@.subrange(
                p.1.0 as int,
                p.1.1 as int,
            ) == args.1,
            None => r is None,
        },
{
    if !has_keyword(t, kw) {
        return None;
    }
    let n = t.unicode_len();
    let m = kw.unicode_len();
    let a = skip_spaces(t, m);
    let ghost u = t@.skip(m as int);
    let ghost w = t@.skip(a as int);
    proof {
        assert(forall|i: int| 0 <= i < u.len() ==> u[i] == t@[m + i]);
        lemma_drop_spaces(u, a - m);
        assert(u.skip(a - m) =~= w);
        assert(forall|i: int| 0 <= i < w.len() ==> w[i] == t@[a + i]);
    }
    let b = skip_word(t, a);
    proof {
        lemma_take_word(w, b - a);
        assert(w.take(b - a) =~= t@.subrange(a as int, b as int));
    }
    if b == a {
        return None;
    }
    proof {
        let x = w.skip(b - a);
        assert(x =~= t@.skip(b as int));
        assert(forall|i: int| 0 <= i < x.len() ==> x[i] == t@[b + i]);
    }
    if b == n {
        return None;
    }
    if t.get_char(b) != ' ' {
        return None;
    }
    let c = skip_spaces(t, b);
    let ghost x = t@.skip(b as int);
    proof {
        lemma_drop_spaces(x, c - b);
        assert(x.skip(c - b) =~= t@.skip(c as int));
        assert(forall|i: int| 0 <= i < t@.skip(c as int).len() ==> t@.skip(c as int)[i] == t@[
            c + i
        ]);
    }
    if c == n {
        return None;
    }
    let d = skip_word(t, c);
    if d < n {
        proof {
            let second = t@.skip(c as int);
            assert(second[d - c] == t@[d as int]);
            assert(is_ws(second[d - c]));
        }
        return None;
    }
    proof {
        let second = t@.skip(c as int);
        assert(second.len() > 0);
        assert(forall|i: int| 0 <= i < second.len() ==> !is_ws(second[i]));
        assert(t@.subrange(c as int, n as int) =~= second);
    }
    Some(((a, b), (c, n)))
}

/// Scan forward from `from` past whitespace of any kind.
fn skip_ws(t: &str, from: usize) -> (r: usize)
    requires
        from <= t@.len(),
    ensures
        from <= r <= t@.len(),
        forall|i: int| from <= i < r ==> is_ws(t@[i]),
        r == t@.len() || !is_ws(t@[r as int]),
{
    let n = t.unicode_len();
    let mut i: usize = from;
    while i < n
        invariant
            n == t@.len(),
            from <= i <= n,
            forall|j: int| from <= j < i ==> is_ws(t@[j]),
        decreases n - i,
    {
        if !is_ws_char(t.get_char(i)) {
            return i;
        }
        i = i + 1;
    }
    i
}

/// Scan backward from the end to one past the last character before
/// `start` that is not whitespace.
fn trim_end(t: &str, start: usize) -> (r: usize)
    requires
        start <= t@.len(),
    ensures
        start <= r <= t@.len(),
        forall|i: int| r <= i < t@.len() ==> is_ws(t@[i]),
        r == start || !is_ws(t@[r - 1]),
{
    let n = t.unicode_len();
    let mut i: usize = n;
    while i > start
        invariant
            n == t@.len(),
            start <= i <= n,
            forall|j: int| i <= j < n ==> is_ws(t@[j]),
        decreases i,
    {
        if !is_ws_char(t.get_char(i - 1)) {
            return i;
        }
        i = i - 1;
    }
    i
}

/// What the engine decides an input line asks for.
pub enum EngineCmd {
    /// Look `key` up.
    Get { key: Seq<char> },
    /// Store `value` under `key`; `put` and `set` both say this.
    Put { key: Seq<char>, value: Seq<char> },
    /// Remove `key`.
    Del { key: Seq<char> },
    /// List the keys containing `key`.
    Scan { key: Seq<char> },
    /// None of the known shapes.
    Invalid,
}

/// Read the trimmed line as a command, trying the known keywords in
/// order.
pub open spec fn parse_command(t: Seq<char>) -> EngineCmd {
    match one_arg(t, "get"@) {
        Some(key) => EngineCmd::Get { key },
        None => match two_args(t, "put"@) {
            Some(kv) => EngineCmd::Put { key: kv.0, value: kv.1 },
            None => match two_args(t, "set"@) {
                Some(kv) => EngineCmd::Put { key: kv.0, value: kv.1 },
                None => match one_arg(t, "del"@) {
                    Some(key) => EngineCmd::Del { key },
                    None => match one_arg(t, "scan"@) {
                        Some(key) => EngineCmd::Scan { key },
                        None => EngineCmd::Invalid,
                    },
                },
            },
        },
    }
}

/// The scan reply bytes: two magic bytes, the fixed two-byte key
/// length, then the key bytes, for each matched key in order.
pub open spec fn scan_reply_bytes(ks: Seq<Seq<char>>) -> Seq<u8>
    decreases ks.len(),
{
    if ks.len() == 0 {
        seq![]
    } else {
        seq![MAGIC, MAGIC] + le_bytes(encode_utf8(ks[0]).len(), 2) + encode_utf8(ks[0])
            + scan_reply_bytes(ks.drop_first())
    }
}

/// Listing one more key appends its entry to the reply bytes.
proof fn lemma_scan_reply_push(ks: Seq<Seq<char>>, k: Seq<char>)
    ensures
        scan_reply_bytes(ks.push(k)) == scan_reply_bytes(ks) + seq![MAGIC, MAGIC] + le_bytes(
            encode_utf8(k).len(),
            2,
        ) + encode_utf8(k),
    decreases ks.len(),
{
    let rec = seq![MAGIC, MAGIC] + le_bytes(encode_utf8(k).len(), 2) + encode_utf8(k);
    if ks.len() == 0 {
        let e = Seq::<Seq<char>>::empty();
        assert(ks.push(k)[0] == k);
        assert(ks.push(k).drop_first() =~= e);
        assert(scan_reply_bytes(e) =~= Seq::<u8>::empty());
        assert(scan_reply_bytes(ks) =~= Seq::<u8>::empty());
        assert(scan_reply_bytes(ks.push(k)) =~= scan_reply_bytes(ks) + seq![MAGIC, MAGIC]
            + le_bytes(encode_utf8(k).len(), 2) + encode_utf8(k));
    } else {
        assert(ks.push(k)[0] == ks[0]);
        assert(ks.push(k).drop_first() =~= ks.drop_first().push(k));
        lemma_scan_reply_push(ks.drop_first(), k);
        let rec0 = seq![MAGIC, MAGIC] + le_bytes(encode_utf8(ks[0]).len(), 2) + encode_utf8(
            ks[0],
        );
        assert(scan_reply_bytes(ks.push(k)) == rec0 + (scan_reply_bytes(ks.drop_first()) + rec));
        assert(scan_reply_bytes(ks) == rec0 + scan_reply_bytes(ks.drop_first()));
        assert(rec0 + (scan_reply_bytes(ks.drop_first()) + rec) =~= ((scan_reply_bytes(ks)
            + seq![MAGIC, MAGIC]) + le_bytes(encode_utf8(k).len(), 2)) + encode_utf8(k));
    }
}

/// Run one line of input against the store and word the reply as the
/// interactive engine does: the value or `(None)` for a get or a
/// delete, `1` for a put, the framed key list for a scan, and an error
/// for a line no pattern fits. The line must be valid text; a scan's
/// framed reply must be valid text too, with each matched key no
/// longer than its two length bytes can say, or the reply could not be
/// a string.
pub fn handle_input(cmd: &[u8], db: &mut DB) -> (r: Result<String, &'static str>)
    requires
        old(db).wf(),
        valid_utf8(cmd@),
        (match parse_command(trimmed(decode_utf8(cmd@))) {
            EngineCmd::Scan { key } => {
                &&& valid_utf8(scan_reply_bytes(matching_keys(old(db).keys_seq(), key)))
                &&& forall|k: Seq<char>|
                    old(db)@.contains_key(k) && contains_substring(k, key) ==> (
                    #[trigger] encode_utf8(k)).len() <= 0xffff
            },
            _ => true,
        }),
    ensures
        final(db).wf(),
        (match parse_command(trimmed(decode_utf8(cmd@))) {
            EngineCmd::Get { key } => *final(db) == *old(db) && (if old(db)@.contains_key(key) {
                r matches Ok(v) && v@ == old(db)@[key]
            } else {
                r matches Ok(v) && v@ == "(None)"@
            }),
            EngineCmd::Put { key, value } => (r matches Ok(v) && v@ == "1"@)
                && final(db)@ == old(db)@.insert(key, value),
            EngineCmd::Del { key } => if old(db)@.contains_key(key) {
                (r matches Ok(v) && v@ == old(db)@[key]) && final(db)@ == old(db)@.remove(key)
            } else {
                (r matches Ok(v) && v@ == "(None)"@) && *final(db) == *old(db)
            },
            EngineCmd::Scan { key } => *final(db) == *old(db) && (r matches Ok(v) && encode_utf8(
                v@,
            ) == scan_reply_bytes(matching_keys(old(db).keys_seq(), key))),
            EngineCmd::Invalid => (r matches Err(e) && e@ == "Invalid/Unknown Command"@)
                && *final(db) == *old(db),
        }),
{
    let text = match crate::tools::utf8_to_string(cmd) {
        Some(text) => text,
        None => {
            return unreached();
        },
    };
    proof {
        crate::tools::lemma_utf8_bytes_decode(text@, cmd@);
    }
    let text_str = text.as_str();
    let start = skip_ws(text_str, 0);
    let end = trim_end(text_str, start);
    let t = text_str.substring_char(start, end);
    proof {
        lemma_trimmed_subrange(text@, start as int, end as int);
        assert(t@ == trimmed(decode_utf8(cmd@)));
    }
    if let Some(key_range) = parse_one_arg(t, "get") {
        let key = t.substring_char(key_range.0, key_range.1);
        match crate::store::get(key, db) {
            Some(value) => Ok(value),
            None => Ok("(None)".to_owned()),
        }
    } else if let Some(ranges) = parse_two_args(t, "put") {
        let key = t.substring_char(ranges.0.0, ranges.0.1);
        let value = t.substring_char(ranges.1.0, ranges.1.1);
        let _ = crate::store::put(key, value.as_bytes(), db);
        proof {
            vstd::utf8::encode_utf8_valid_utf8(value@);
            crate::tools::lemma_utf8_bytes_decode(value@, encode_utf8(value@));
        }
        Ok("1".to_owned())
    } else if let Some(ranges) = parse_two_args(t, "set") {
        let key = t.substring_char(ranges.0.0, ranges.0.1);
        let value = t.substring_char(ranges.1.0, ranges.1.1);
        let _ = crate::store::put(key, value.as_bytes(), db);
        proof {
            vstd::utf8::encode_utf8_valid_utf8(value@);
            crate::tools::lemma_utf8_bytes_decode(value@, encode_utf8(value@));
        }
        Ok("1".to_owned())
    } else if let Some(key_range) = parse_one_arg(t, "del") {
        let key = t.substring_char(key_range.0, key_range.1);
        match crate::store::delete(key, db) {
            Some(value) => Ok(value),
            None => Ok("(None)".to_owned()),
        }
    } else if let Some(key_range) = parse_one_arg(t, "scan") {
        let key = t.substring_char(key_range.0, key_range.1);
        let ghost needle = key@;
        let keys = crate::store::scan(key, db);
        let ghost ms = matching_keys(db.keys_seq(), needle);
        let mut out: Vec<u8> = Vec::new();
        let mut i: usize = 0;
        proof {
            assert(ms.take(0) =~= Seq::<Seq<char>>::empty());
            assert(out@ =~= scan_reply_bytes(ms.take(0)));
        }
        while i < keys.len()
            invariant
                db.wf(),
                ms == matching_keys(db.keys_seq(), needle),
                keys@.map_values(|s: String| s@) == ms,
                forall|k: Seq<char>|
                    db@.contains_key(k) && contains_substring(k, needle) ==> (
                    #[trigger] encode_utf8(k)).len() <= 0xffff,
                i <= keys@.len(),
                keys@.len() == ms.len(),
                out@ == scan_reply_bytes(ms.take(i as int)),
            decreases keys@.len() - i,
        {
            proof {
                assert(keys@[i as int]@ == ms[i as int]);
                crate::store::lemma_scan_exact(*db, needle, ms[i as int]);
                assert(ms.contains(ms[i as int]));
                assert(encode_utf8(ms[i as int]).len() <= 0xffff);
            }
            out.push(MAGIC);
            out.push(MAGIC);
            let kb: &[u8] = keys[i].as_str().as_bytes();
            let len_bytes = crate::tools::u16_to_bytes(kb.len() as u16);
            crate::tools::push_all(&mut out, len_bytes.as_slice());
            crate::tools::push_all(&mut out, kb);
            proof {
                lemma_scan_reply_push(ms.take(i as int), ms[i as int]);
                assert(ms.take(i as int).push(ms[i as int]) =~= ms.take(i + 1));
                assert(out@ =~= scan_reply_bytes(ms.take(i + 1)));
            }
            i = i + 1;
        }
        proof {
            assert(ms.take(ms.len() as int) =~= ms);
        }
        match crate::tools::utf8_to_string(out.as_slice()) {
            Some(reply) => Ok(reply),
            None => unreached(),
        }
    } else {
        Err("Invalid/Unknown Command")
    }
}

} // verus!
