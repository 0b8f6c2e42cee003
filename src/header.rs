//! Reading HTTP response headers: the file name that Content-Disposition
//! announces and the size that Content-Length gives.
use vstd::prelude::*;
use crate::names::{non_empty, text_chars};

verus! {

/// `c` is an ASCII decimal digit.
pub open spec fn is_digit(c: char) -> bool {
    '0' <= c && c <= '9'
}

/// The number that the decimal digits `s` write.
pub open spec fn decimal_value(s: Seq<char>) -> int
    decreases s.len(),
{
    if s.len() == 0 {
        0
    } else {
        decimal_value(s.drop_last()) * 10 + (s.last() as int - '0' as int)
    }
}

/// The digits of an unsigned number: all of `s`, less one leading `+`.
pub open spec fn unsigned_digits(s: Seq<char>) -> Seq<char> {
    if s.len() > 0 && s[0] == '+' {
        s.skip(1)
    } else {
        s
    }
}

/// `s` read as a `u64` the way `str::parse` reads one: an optional `+`, then
/// one or more decimal digits whose value fits.
pub open spec fn parsed_u64(s: Seq<char>) -> Option<u64> {
    let d = unsigned_digits(s);
    if d.len() > 0 && (forall|i: int| 0 <= i < d.len() ==> is_digit(#[trigger] d[i]))
        && decimal_value(d) <= u64::MAX {
        Some(decimal_value(d) as u64)
    } else {
        None
    }
}

/// The expected size from a Content-Length value: the number it holds, or 0
/// where there is none or it is not a number.
pub open spec fn content_length_of(value: Option<Seq<char>>) -> u64 {
    match value {
        Some(v) => match parsed_u64(v) {
            Some(n) => n,
            None => 0,
        },
        None => 0,
    }
}

proof fn lemma_value_nonnegative(s: Seq<char>)
    requires
        forall|i: int| 0 <= i < s.len() ==> is_digit(#[trigger] s[i]),
    ensures
        decimal_value(s) >= 0,
    decreases s.len(),
{
    if s.len() > 0 {
        lemma_value_nonnegative(s.drop_last());
    }
}

proof fn lemma_value_grows(s: Seq<char>, k: int)
    requires
        0 <= k <= s.len(),
        forall|i: int| 0 <= i < s.len() ==> is_digit(#[trigger] s[i]),
    ensures
        decimal_value(s.take(k)) <= decimal_value(s),
    decreases s.len() - k,
{
    if k < s.len() {
        let t = s.take(k + 1);
        assert(t.drop_last() =~= s.take(k));
        lemma_value_nonnegative(s.take(k));
        lemma_value_grows(s, k + 1);
    } else {
        assert(s.take(k) =~= s);
    }
}

/// Reads the total size from a Content-Length header value; 0 where the
/// header is missing or does not hold a number.
pub fn get_content_length_bytes(value: Option<&str>) -> (r: u64)
    ensures
        r == content_length_of(
            match value {
                Some(v) => Some(v@),
                None => None,
            },
        ),
{
    match value {
        Some(v) => u64_or_zero(v),
        None => 0,
    }
}

/// `v` read as a `u64`, or 0 where it is not one.
fn u64_or_zero(v: &str) -> (r: u64)
    ensures
        r == content_length_of(Some(v@)),
{
    let cs = text_chars(v);
    let n = cs.len();
    let mut i: usize = 0;
    if n > 0 && cs[0] == '+' {
        i = 1;
    }
    let start = i;
    let ghost d = unsigned_digits(v@);
    proof {
        assert(d =~= v@.skip(start as int));
    }
    if start == n {
        return 0;
    }
    let mut acc: u64 = 0;
    while i < n
        invariant
            cs@ == v@,
            n == v@.len(),
            start <= i <= n,
            d == v@.skip(start as int),
            d == unsigned_digits(v@),
            forall|j: int| 0 <= j < i - start ==> is_digit(#[trigger] d[j]),
            acc as int == decimal_value(d.take(i - start)),
        decreases n - i,
    {
        let c = cs[i];
        if c < '0' || c > '9' {
            proof {
                assert(d.len() == n - start);
                assert(d[i - start] == c);
                let k = i - start;
                assert(0 <= k < d.len());
                assert(!is_digit(d[k]));
                assert(parsed_u64(v@) is None);
            }
            return 0;
        }
        let ghost t = d.take(i - start + 1);
        proof {
            assert(t.drop_last() =~= d.take(i - start));
            assert(t.last() == c);
        }
        let digit = (c as u32 - '0' as u32) as u64;
        let next: u128 = acc as u128 * 10 + digit as u128;
        if next > u64::MAX as u128 {
            proof {
                assert forall|j: int| 0 <= j < i - start + 1 implies is_digit(#[trigger] t[j]) by {
                    assert(t[j] == d[j]);
                    assert(d[j] == v@[start + j]);
                }
                assert(decimal_value(t) == acc * 10 + (c as int - '0' as int));
                assert(decimal_value(t) == next);
                if forall|j: int| 0 <= j < d.len() ==> is_digit(#[trigger] d[j]) {
                    lemma_value_grows(d, i - start + 1);
                    assert(decimal_value(d) > u64::MAX);
                }
                assert(parsed_u64(v@) is None);
            }
            return 0;
        }
        acc = next as u64;
        i = i + 1;
    }
    proof {
        assert(d.take(n - start) =~= d);
    }
    acc
}

/// `filename="`, which opens the quoted form of the parameter.
pub open spec fn quoted_key() -> Seq<char> {
    seq!['f', 'i', 'l', 'e', 'n', 'a', 'm', 'e', '=', '"']
}

/// `filename*=`, which opens the extended form of the parameter.
pub open spec fn extended_key() -> Seq<char> {
    seq!['f', 'i', 'l', 'e', 'n', 'a', 'm', 'e', '*', '=']
}

pub open spec fn key_of(quoted: bool) -> Seq<char> {
    if quoted {
        quoted_key()
    } else {
        extended_key()
    }
}

/// A parameter may begin at the start of the value or after `;`, a space or
/// a tab.
pub open spec fn starts_parameter(h: Seq<char>, p: int) -> bool {
    p == 0 || h[p - 1] == ';' || h[p - 1] == ' ' || h[p - 1] == '\t'
}

pub open spec fn key_at(h: Seq<char>, p: int, quoted: bool) -> bool {
    &&& 0 <= p
    &&& starts_parameter(h, p)
    &&& p + 10 <= h.len()
    &&& h.subrange(p, p + 10) == key_of(quoted)
}

/// Where a value ends: a quoted one at its closing `"`, an extended one at
/// `;`, a space or a tab.
pub open spec fn ends_value(c: char, quoted: bool) -> bool {
    if quoted {
        c == '"'
    } else {
        c == ';' || c == ' ' || c == '\t'
    }
}

/// The first index at or after `from` where the value ends, or `h.len()`.
pub open spec fn value_end(h: Seq<char>, from: int, quoted: bool) -> int
    decreases h.len() - from,
{
    if from >= h.len() {
        h.len() as int
    } else if ends_value(h[from], quoted) {
        from
    } else {
        value_end(h, from + 1, quoted)
    }
}

/// The value of a parameter whose key stands at `p`: not empty, and for the
/// quoted form closed by `"`.
pub open spec fn value_at(h: Seq<char>, p: int, quoted: bool) -> Option<Seq<char>> {
    if key_at(h, p, quoted) {
        let e = value_end(h, p + 10, quoted);
        if p + 10 < e && (!quoted || e < h.len()) {
            Some(h.subrange(p + 10, e))
        } else {
            None
        }
    } else {
        None
    }
}

/// The value of the first parameter of the given form at or after `p`.
pub open spec fn first_value_from(h: Seq<char>, p: int, quoted: bool) -> Option<Seq<char>>
    decreases h.len() - p,
{
    if p >= h.len() {
        None
    } else {
        match value_at(h, p, quoted) {
            Some(v) => Some(v),
            None => first_value_from(h, p + 1, quoted),
        }
    }
}

pub open spec fn is_hex_digit(c: char) -> bool {
    ('0' <= c && c <= '9') || ('a' <= c && c <= 'f') || ('A' <= c && c <= 'F')
}

pub open spec fn hex_value(c: char) -> int {
    if '0' <= c && c <= '9' {
        c as int - '0' as int
    } else if 'a' <= c && c <= 'f' {
        c as int - 'a' as int + 10
    } else {
        c as int - 'A' as int + 10
    }
}

/// The bytes that `v` writes from index `i` on: `%` and two hex digits give
/// one byte, any other ASCII character gives its own code; anything else
/// (a stray `%`, a character beyond ASCII) spoils the whole value.
pub open spec fn percent_decoded_from(v: Seq<char>, i: int) -> Option<Seq<u8>>
    decreases v.len() - i,
{
    if i >= v.len() {
        Some(Seq::empty())
    } else if v[i] == '%' {
        if i + 2 < v.len() && is_hex_digit(v[i + 1]) && is_hex_digit(v[i + 2]) {
            match percent_decoded_from(v, i + 3) {
                Some(r) => Some(seq![(hex_value(v[i + 1]) * 16 + hex_value(v[i + 2])) as u8] + r),
                None => None,
            }
        } else {
            None
        }
    } else if (v[i] as u32) < 128 {
        match percent_decoded_from(v, i + 1) {
            Some(r) => Some(seq![v[i] as u32 as u8] + r),
            None => None,
        }
    } else {
        None
    }
}

/// The charset prefix `UTF-8''` of an extended value, in either case.
pub open spec fn has_charset_prefix(v: Seq<char>) -> bool {
    v.len() >= 7 && (v.take(7) == seq!['U', 'T', 'F', '-', '8', '\'', '\''] || v.take(7) == seq![
        'u',
        't',
        'f',
        '-',
        '8',
        '\'',
        '\'',
    ])
}

pub open spec fn extended_payload(v: Seq<char>) -> Seq<char> {
    if has_charset_prefix(v) {
        v.skip(7)
    } else {
        v
    }
}

/// The text that the bytes `b` encode as UTF-8, or `None` where they are not
/// valid UTF-8.
pub uninterp spec fn utf8_text(b: Seq<u8>) -> Option<Seq<char>>;

/// Relies on `String::from_utf8`: it accepts exactly the valid UTF-8 byte
/// sequences and returns the text they encode.
#[verifier::external_body]
fn decode_utf8(b: Vec<u8>) -> (r: Option<String>)
    ensures
        match r {
            Some(s) => utf8_text(b@) == Some(s@),
            None => utf8_text(b@) is None,
        },
{
    String::from_utf8(b).ok()
}

/// The file name that an extended value names: its payload decoded, and not
/// empty.
pub open spec fn extended_filename(raw: Seq<char>) -> Option<Seq<char>> {
    match percent_decoded_from(extended_payload(raw), 0) {
        Some(b) => match utf8_text(b) {
            Some(t) => if t.len() > 0 {
                Some(t)
            } else {
                None
            },
            None => None,
        },
        None => None,
    }
}

/// The file name that a Content-Disposition value gives: the first quoted
/// `filename="..."`, else the first extended `filename*=...`.
pub open spec fn disposition_filename(h: Seq<char>) -> Option<Seq<char>> {
    match first_value_from(h, 0, true) {
        Some(v) => Some(v),
        None => match first_value_from(h, 0, false) {
            Some(raw) => extended_filename(raw),
            None => None,
        },
    }
}

fn key_chars(quoted: bool) -> (r: Vec<char>)
    ensures
        r@ == key_of(quoted),
{
    if quoted {
        let r = vec!['f', 'i', 'l', 'e', 'n', 'a', 'm', 'e', '=', '"'];
        assert(r@ =~= quoted_key());
        r
    } else {
        let r = vec!['f', 'i', 'l', 'e', 'n', 'a', 'm', 'e', '*', '='];
        assert(r@ =~= extended_key());
        r
    }
}

fn key_at_exec(h: &Vec<char>, key: &Vec<char>, p: usize, quoted: bool) -> (r: bool)
    requires
        key@ == key_of(quoted),
    ensures
        r == key_at(h@, p as int, quoted),
{
    if !(p == 0 || h.len() >= p && (h[p - 1] == ';' || h[p - 1] == ' ' || h[p - 1] == '\t')) {
        return false;
    }
    if h.len() < 10 || p > h.len() - 10 {
        return false;
    }
    let mut j: usize = 0;
    while j < 10
        invariant
            key@ == key_of(quoted),
            key@.len() == 10,
            p + 10 <= h@.len(),
            h@.len() <= usize::MAX,
            j <= 10,
            h@.subrange(p as int, p + j) == key@.take(j as int),
        decreases 10 - j,
    {
        if h[p + j] != key[j] {
            proof {
                assert(h@.subrange(p as int, p + 10)[j as int] == h@[p + j]);
            }
            return false;
        }
        proof {
            assert(h@.subrange(p as int, p + j + 1) =~= key@.take(j + 1));
        }
        j = j + 1;
    }
    proof {
        assert(key@.take(10) =~= key@);
    }
    true
}

fn value_end_exec(h: &Vec<char>, from: usize, quoted: bool) -> (r: usize)
    requires
        from <= h@.len(),
    ensures
        r == value_end(h@, from as int, quoted),
        from <= r <= h@.len(),
{
    let mut i = from;
    while i < h.len()
        invariant
            from <= i <= h@.len(),
            value_end(h@, from as int, quoted) == value_end(h@, i as int, quoted),
        decreases h@.len() - i,
    {
        let c = h[i];
        if quoted && c == '"' || !quoted && (c == ';' || c == ' ' || c == '\t') {
            return i;
        }
        i = i + 1;
    }
    i
}

/// Where the value of the first parameter of the given form stands.
fn first_value_range(h: &Vec<char>, quoted: bool) -> (r: Option<(usize, usize)>)
    ensures
        match r {
            Some((s, e)) => s <= e <= h@.len() && first_value_from(h@, 0, quoted) == Some(
                h@.subrange(s as int, e as int),
            ),
            None => first_value_from(h@, 0, quoted) is None,
        },
{
    let key = key_chars(quoted);
    let mut p: usize = 0;
    while p < h.len()
        invariant
            key@ == key_of(quoted),
            p <= h@.len(),
            first_value_from(h@, 0, quoted) == first_value_from(h@, p as int, quoted),
        decreases h@.len() - p,
    {
        if key_at_exec(h, &key, p, quoted) {
            let e = value_end_exec(h, p + 10, quoted);
            if p + 10 < e && (!quoted || e < h.len()) {
                proof {
                    assert(value_at(h@, p as int, quoted) == Some(h@.subrange(p + 10, e as int)));
                }
                return Some((p + 10, e));
            }
        }
        p = p + 1;
    }
    None
}

fn hex_digit_value(c: char) -> (r: u8)
    requires
        is_hex_digit(c),
    ensures
        r as int == hex_value(c),
{
    if '0' <= c && c <= '9' {
        (c as u32 - '0' as u32) as u8
    } else if 'a' <= c && c <= 'f' {
        (c as u32 - 'a' as u32 + 10) as u8
    } else {
        (c as u32 - 'A' as u32 + 10) as u8
    }
}

pub open spec fn prefixed(acc: Seq<u8>, rest: Option<Seq<u8>>) -> Option<Seq<u8>> {
    match rest {
        Some(r) => Some(acc + r),
        None => None,
    }
}

/// Decodes the percent escapes of `v` into bytes; `None` where an escape is
/// malformed or a character is not ASCII.
pub fn percent_decode(v: &str) -> (r: Option<Vec<u8>>)
    ensures
        match r {
            Some(b) => percent_decoded_from(v@, 0) == Some(b@),
            None => percent_decoded_from(v@, 0) is None,
        },
{
    let cs = text_chars(v);
    let n = cs.len();
    let mut out: Vec<u8> = Vec::new();
    let mut i: usize = 0;
    proof {
        assert(prefixed(Seq::empty(), percent_decoded_from(v@, 0)) == percent_decoded_from(v@, 0))
            by {
            if let Some(r) = percent_decoded_from(v@, 0) {
                assert(Seq::<u8>::empty() + r =~= r);
            }
        }
    }
    while i < n
        invariant
            cs@ == v@,
            n == v@.len(),
            i <= n,
            percent_decoded_from(v@, 0) == prefixed(out@, percent_decoded_from(v@, i as int)),
        decreases n - i,
    {
        let c = cs[i];
        if c == '%' {
            if n - i > 2 && is_hex(cs[i + 1]) && is_hex(cs[i + 2]) {
                let hi = hex_digit_value(cs[i + 1]);
                let lo = hex_digit_value(cs[i + 2]);
                let b: u8 = hi * 16 + lo;
                let ghost pre = out@;
                out.push(b);
                proof {
                    if let Some(r) = percent_decoded_from(v@, i + 3) {
                        assert(pre + (seq![b] + r) =~= out@ + r);
                    }
                }
                i = i + 3;
            } else {
                return None;
            }
        } else if (c as u32) < 128 {
            let b = c as u32 as u8;
            let ghost pre = out@;
            out.push(b);
            proof {
                if let Some(r) = percent_decoded_from(v@, i + 1) {
                    assert(pre + (seq![b] + r) =~= out@ + r);
                }
            }
            i = i + 1;
        } else {
            return None;
        }
    }
    proof {
        assert(out@ + Seq::<u8>::empty() =~= out@);
    }
    Some(out)
}

fn is_hex(c: char) -> (r: bool)
    ensures
        r == is_hex_digit(c),
{
    ('0' <= c && c <= '9') || ('a' <= c && c <= 'f') || ('A' <= c && c <= 'F')
}

fn has_charset_prefix_exec(v: &str) -> (r: bool)
    ensures
        r == has_charset_prefix(v@),
{
    let cs = text_chars(v);
    if cs.len() < 7 {
        return false;
    }
    let upper = cs[0] == 'U' && cs[1] == 'T' && cs[2] == 'F';
    let lower = cs[0] == 'u' && cs[1] == 't' && cs[2] == 'f';
    let rest = cs[3] == '-' && cs[4] == '8' && cs[5] == '\'' && cs[6] == '\'';
    let r = (upper || lower) && rest;
    proof {
        let t = v@.take(7);
        let up = seq!['U', 'T', 'F', '-', '8', '\'', '\''];
        let lo = seq!['u', 't', 'f', '-', '8', '\'', '\''];
        if r {
            if upper {
                assert(t =~= up);
            } else {
                assert(t =~= lo);
            }
        } else {
            assert(t[0] == cs@[0] && t[1] == cs@[1] && t[2] == cs@[2] && t[3] == cs@[3] && t[4]
                == cs@[4] && t[5] == cs@[5] && t[6] == cs@[6]);
            assert(up[0] == 'U' && up[1] == 'T' && up[2] == 'F' && up[3] == '-' && up[4] == '8'
                && up[5] == '\'' && up[6] == '\'');
            assert(lo[0] == 'u' && lo[1] == 't' && lo[2] == 'f' && lo[3] == '-' && lo[4] == '8'
                && lo[5] == '\'' && lo[6] == '\'');
            assert(t != up);
            assert(t != lo);
        }
    }
    r
}

/// The file name of an extended `filename*=` value.
fn extended_filename_exec(raw: &str) -> (r: Option<String>)
    ensures
        match r {
            Some(t) => extended_filename(raw@) == Some(t@),
            None => extended_filename(raw@) is None,
        },
{
    let payload = if has_charset_prefix_exec(raw) {
        raw.substring_char(7, raw.unicode_len())
    } else {
        raw
    };
    proof {
        if has_charset_prefix(raw@) {
            assert(payload@ =~= raw@.skip(7));
        }
    }
    match percent_decode(payload) {
        Some(bytes) => match decode_utf8(bytes) {
            Some(t) => non_empty(t),
            None => None,
        },
        None => None,
    }
}

/// The file name that a Content-Disposition header value gives: the first
/// quoted `filename="..."`, else the decoded first `filename*=...`.
pub fn content_disposition_filename(header: &str) -> (r: Option<String>)
    ensures
        match r {
            Some(t) => disposition_filename(header@) == Some(t@),
            None => disposition_filename(header@) is None,
        },
{
    let h = text_chars(header);
    match first_value_range(&h, true) {
        Some((s, e)) => Some(String::from_str(header.substring_char(s, e))),
        None => match first_value_range(&h, false) {
            Some((s, e)) => extended_filename_exec(header.substring_char(s, e)),
            None => None,
        },
    }
}

} // verus!
