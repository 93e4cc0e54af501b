//! Byte-level scanning primitives shared by the header and request parsers:
//! CRLF search, whitespace trimming, the HTTP token character set, and
//! conversions between raw bytes and strings.

use vstd::prelude::*;

verus! {

use vstd::slice::{slice_index_get, slice_subrange};
use vstd::utf8::{
    valid_utf8,
    decode_utf8,
    is_ascii_chars,
    is_ascii_chars_encode_utf8,
    encode_utf8_decode_utf8,
    encode_utf8_valid_utf8,
};

/// ASCII whitespace: space, tab, line feed, vertical tab, form feed,
/// carriage return.
pub open spec fn is_ws(b: u8) -> bool {
    b == 32 || (9 <= b && b <= 13)
}

/// Exec twin of [`is_ws`].
pub fn ws_byte(b: u8) -> (r: bool)
    ensures
        r == is_ws(b),
{
    b == 32 || (9 <= b && b <= 13)
}

/// The HTTP token character set for header field names:
/// ASCII letters and digits plus `!#$%&'*+-.^_` backtick `|~`.
pub open spec fn is_token_byte(b: u8) -> bool {
    (48 <= b && b <= 57)  // 0-9
     || (65 <= b && b <= 90)  // A-Z
     || (97 <= b && b <= 122)  // a-z
     || b == 33  // !
     || b == 35  // #
     || b == 36  // $
     || b == 37  // %
     || b == 38  // &
     || b == 39  // '
     || b == 42  // *
     || b == 43  // +
     || b == 45  // -
     || b == 46  // .
     || b == 94  // ^
     || b == 95  // _
     || b == 96  // `
     || b == 124  // |
     || b == 126  // ~

}

/// Exec twin of [`is_token_byte`].
pub fn token_byte(b: u8) -> (r: bool)
    ensures
        r == is_token_byte(b),
{
    (48 <= b && b <= 57) || (65 <= b && b <= 90) || (97 <= b && b <= 122) || b == 33 || b == 35
        || b == 36 || b == 37 || b == 38 || b == 39 || b == 42 || b == 43 || b == 45 || b == 46
        || b == 94 || b == 95 || b == 96 || b == 124 || b == 126
}

/// True when every byte of `s` is in the token character set.
/// The empty sequence counts as a token.
pub open spec fn is_token(s: Seq<u8>) -> bool {
    forall|i: int| 0 <= i < s.len() ==> is_token_byte(#[trigger] s[i])
}

/// Checks every byte of `s` against the token character set.
pub fn check_token(s: &[u8]) -> (r: bool)
    ensures
        r == is_token(s@),
{
    let n = s.len();
    let mut i: usize = 0;
    while i < n
        invariant
            n == s@.len(),
            i <= n,
            forall|j: int| 0 <= j < i ==> is_token_byte(#[trigger] s@[j]),
        decreases n - i,
    {
        if !token_byte(*slice_index_get(s, i)) {
            return false;
        }
        i = i + 1;
    }
    true
}

/// Length of the longest prefix of `s` whose bytes all satisfy `p`.
pub open spec fn scan_len(s: Seq<u8>, p: spec_fn(u8) -> bool) -> int
    decreases s.len(),
{
    if s.len() == 0 || !p(s[0]) {
        0
    } else {
        1 + scan_len(s.skip(1), p)
    }
}

/// What [`scan_len`] returns: the bytes before it satisfy `p` and the byte
/// at it (if any) does not.
pub proof fn lemma_scan_len(s: Seq<u8>, p: spec_fn(u8) -> bool)
    ensures
        0 <= scan_len(s, p) <= s.len(),
        forall|j: int| 0 <= j < scan_len(s, p) ==> p(#[trigger] s[j]),
        scan_len(s, p) < s.len() ==> !p(s[scan_len(s, p)]),
    decreases s.len(),
{
    if s.len() == 0 || !p(s[0]) {
    } else {
        lemma_scan_len(s.skip(1), p);
        let k = scan_len(s, p);
        assert forall|j: int| 0 <= j < k implies p(#[trigger] s[j]) by {
            if j > 0 {
                assert(p(s.skip(1)[j - 1]));
            }
        }
        if k < s.len() {
            assert(!p(s.skip(1)[k - 1]));
        }
    }
}

/// Any cut that satisfies the characterization of [`lemma_scan_len`]
/// is the scan length.
pub proof fn lemma_scan_len_unique(s: Seq<u8>, p: spec_fn(u8) -> bool, a: int)
    requires
        0 <= a <= s.len(),
        forall|j: int| 0 <= j < a ==> p(#[trigger] s[j]),
        a < s.len() ==> !p(s[a]),
    ensures
        a == scan_len(s, p),
    decreases s.len(),
{
    if s.len() == 0 {
    } else if a == 0 {
        if s.len() > 0 && p(s[0]) {
            lemma_scan_len(s, p);
        }
    } else {
        assert(p(s[0]));
        let sub = s.skip(1);
        assert forall|j: int| 0 <= j < a - 1 implies p(#[trigger] sub[j]) by {
            assert(sub[j] == s[j + 1]);
        }
        if a - 1 < sub.len() {
            assert(sub[a - 1] == s[a]);
        }
        lemma_scan_len_unique(sub, p, a - 1);
    }
}

/// Length of the longest suffix of `s` whose bytes all satisfy `p`.
pub open spec fn scan_len_end(s: Seq<u8>, p: spec_fn(u8) -> bool) -> int
    decreases s.len(),
{
    if s.len() == 0 || !p(s.last()) {
        0
    } else {
        1 + scan_len_end(s.drop_last(), p)
    }
}

/// What [`scan_len_end`] returns: the bytes after the cut satisfy `p` and
/// the byte before it (if any) does not.
pub proof fn lemma_scan_len_end(s: Seq<u8>, p: spec_fn(u8) -> bool)
    ensures
        0 <= scan_len_end(s, p) <= s.len(),
        forall|j: int| s.len() - scan_len_end(s, p) <= j < s.len() ==> p(#[trigger] s[j]),
        scan_len_end(s, p) < s.len() ==> !p(s[s.len() - scan_len_end(s, p) - 1]),
    decreases s.len(),
{
    if s.len() == 0 || !p(s.last()) {
    } else {
        lemma_scan_len_end(s.drop_last(), p);
        let k = scan_len_end(s, p);
        assert forall|j: int| s.len() - k <= j < s.len() implies p(#[trigger] s[j]) by {
            if j < s.len() - 1 {
                assert(p(s.drop_last()[j]));
            }
        }
        if k < s.len() {
            assert(s.drop_last()[s.len() - k - 1] == s[s.len() - k - 1]);
        }
    }
}

/// Any cut that satisfies the characterization of [`lemma_scan_len_end`]
/// is the end scan length.
pub proof fn lemma_scan_len_end_unique(s: Seq<u8>, p: spec_fn(u8) -> bool, a: int)
    requires
        0 <= a <= s.len(),
        forall|j: int| s.len() - a <= j < s.len() ==> p(#[trigger] s[j]),
        a < s.len() ==> !p(s[s.len() - a - 1]),
    ensures
        a == scan_len_end(s, p),
    decreases s.len(),
{
    if s.len() == 0 {
    } else if a == 0 {
        if p(s.last()) {
            lemma_scan_len_end(s, p);
        }
    } else {
        assert(p(s.last()));
        let sub = s.drop_last();
        assert forall|j: int| sub.len() - (a - 1) <= j < sub.len() implies p(#[trigger] sub[j]) by {
            assert(sub[j] == s[j]);
        }
        if a - 1 < sub.len() {
            assert(sub[sub.len() - (a - 1) - 1] == s[s.len() - a - 1]);
        }
        lemma_scan_len_end_unique(sub, p, a - 1);
    }
}

/// The whitespace predicate as a first-class spec function.
pub open spec fn ws_p() -> spec_fn(u8) -> bool {
    |b: u8| is_ws(b)
}

/// `s` with ASCII whitespace removed from both ends.
pub open spec fn trim_spec(s: Seq<u8>) -> Seq<u8> {
    let t = s.skip(scan_len(s, ws_p()));
    t.take(t.len() - scan_len_end(t, ws_p()))
}

/// Removes ASCII whitespace from both ends of `s`.
pub fn trim_bytes(s: &[u8]) -> (r: &[u8])
    ensures
        r@ == trim_spec(s@),
{
    let n = s.len();
    let mut a: usize = 0;
    while a < n && ws_byte(*slice_index_get(s, a))
        invariant
            n == s@.len(),
            a <= n,
            forall|j: int| 0 <= j < a ==> is_ws(#[trigger] s@[j]),
        decreases n - a,
    {
        a = a + 1;
    }
    proof {
        lemma_scan_len_unique(s@, ws_p(), a as int);
    }
    let mut e: usize = n;
    while e > a && ws_byte(*slice_index_get(s, e - 1))
        invariant
            n == s@.len(),
            a <= e <= n,
            forall|j: int| e <= j < n ==> is_ws(#[trigger] s@[j]),
        decreases e,
    {
        e = e - 1;
    }
    proof {
        let t = s@.skip(a as int);
        assert forall|j: int| t.len() - (n - e) <= j < t.len() implies (ws_p())(
            #[trigger] t[j],
        ) by {
            assert(t[j] == s@[a + j]);
        }
        if e > a {
            assert(t[(e - 1 - a) as int] == s@[e - 1]);
        }
        lemma_scan_len_end_unique(t, ws_p(), n - e);
        assert(trim_spec(s@) =~= s@.subrange(a as int, e as int));
    }
    slice_subrange(s, a, e)
}

/// True when a CRLF pair (bytes 13, 10) starts at index `i` of `s`.
pub open spec fn crlf_at(s: Seq<u8>, i: int) -> bool {
    0 <= i && i + 2 <= s.len() && s[i] == 13 && s[i + 1] == 10
}

/// Index of the first CRLF pair in `s`, scanning left to right.
pub open spec fn first_crlf(s: Seq<u8>) -> Option<int>
    decreases s.len(),
{
    if s.len() < 2 {
        None
    } else if s[0] == 13 && s[1] == 10 {
        Some(0)
    } else {
        match first_crlf(s.skip(1)) {
            None => None,
            Some(i) => Some(i + 1),
        }
    }
}

/// The CRLF found by [`first_crlf`] is the leftmost one.
pub proof fn lemma_first_crlf_characterization(s: Seq<u8>)
    ensures
        match first_crlf(s) {
            Some(i) => crlf_at(s, i) && forall|j: int| 0 <= j < i ==> !crlf_at(s, j),
            None => forall|j: int| !crlf_at(s, j),
        },
    decreases s.len(),
{
    if s.len() < 2 {
    } else if s[0] == 13 && s[1] == 10 {
    } else {
        lemma_first_crlf_characterization(s.skip(1));
        let sub = s.skip(1);
        match first_crlf(s) {
            Some(i) => {
                assert(crlf_at(sub, i - 1));
                assert(crlf_at(s, i));
                assert forall|j: int| 0 <= j < i implies !crlf_at(s, j) by {
                    if j > 0 {
                        assert(!crlf_at(sub, j - 1));
                    }
                }
            },
            None => {
                assert forall|j: int| !crlf_at(s, j) by {
                    if 1 <= j {
                        assert(!crlf_at(sub, j - 1));
                    }
                }
            },
        }
    }
}

/// Appending bytes does not move a CRLF that was already found.
pub proof fn lemma_first_crlf_append(a: Seq<u8>, e: Seq<u8>)
    requires
        first_crlf(a) is Some,
    ensures
        first_crlf(a + e) == first_crlf(a),
    decreases a.len(),
{
    lemma_first_crlf_characterization(a);
    lemma_first_crlf_characterization(a + e);
    let i = first_crlf(a)->Some_0;
    assert(crlf_at(a + e, i));
    match first_crlf(a + e) {
        None => {
            assert(false);
        },
        Some(k) => {
            if k < i {
                assert(crlf_at(a + e, k));
                assert(crlf_at(a, k));
                assert(false);
            }
            if k > i {
                assert(!crlf_at(a + e, i));
                assert(false);
            }
        },
    }
}

/// Scans `s` for the first CRLF pair.
pub fn find_crlf(s: &[u8]) -> (r: Option<usize>)
    ensures
        match r {
            Some(i) => first_crlf(s@) == Some(i as int),
            None => first_crlf(s@) == None::<int>,
        },
{
    proof {
        lemma_first_crlf_characterization(s@);
    }
    let n = s.len();
    if n < 2 {
        return None;
    }
    let mut i: usize = 0;
    while i < n - 1
        invariant
            n == s@.len(),
            2 <= n,
            i <= n - 1,
            forall|j: int| 0 <= j < i ==> !crlf_at(s@, j),
        decreases n - i,
    {
        if *slice_index_get(s, i) == 13u8 && *slice_index_get(s, i + 1) == 10u8 {
            proof {
                assert(crlf_at(s@, i as int));
                lemma_first_crlf_characterization(s@);
            }
            return Some(i);
        }
        i = i + 1;
    }
    proof {
        lemma_first_crlf_characterization(s@);
        assert(forall|j: int| j + 2 > s@.len() ==> !crlf_at(s@, j));
    }
    None
}

/// Index of the first occurrence of byte `t` in `s`.
pub open spec fn first_byte(s: Seq<u8>, t: u8) -> Option<int>
    decreases s.len(),
{
    if s.len() == 0 {
        None
    } else if s[0] == t {
        Some(0)
    } else {
        match first_byte(s.skip(1), t) {
            None => None,
            Some(i) => Some(i + 1),
        }
    }
}

/// The occurrence found by [`first_byte`] is the leftmost one.
pub proof fn lemma_first_byte_characterization(s: Seq<u8>, t: u8)
    ensures
        match first_byte(s, t) {
            Some(i) => 0 <= i < s.len() && s[i] == t && forall|j: int| 0 <= j < i ==> s[j] != t,
            None => forall|j: int| 0 <= j < s.len() ==> s[j] != t,
        },
    decreases s.len(),
{
    if s.len() == 0 {
    } else if s[0] == t {
    } else {
        lemma_first_byte_characterization(s.skip(1), t);
        let sub = s.skip(1);
        match first_byte(s, t) {
            Some(i) => {
                assert(sub[i - 1] == t);
                assert forall|j: int| 0 <= j < i implies s[j] != t by {
                    if j > 0 {
                        assert(sub[j - 1] != t);
                    }
                }
            },
            None => {
                assert forall|j: int| 0 <= j < s.len() implies s[j] != t by {
                    if j > 0 {
                        assert(sub[j - 1] != t);
                    }
                }
            },
        }
    }
}

/// Scans `s` for the first occurrence of byte `t`.
pub fn find_byte(s: &[u8], t: u8) -> (r: Option<usize>)
    ensures
        match r {
            Some(i) => first_byte(s@, t) == Some(i as int),
            None => first_byte(s@, t) == None::<int>,
        },
{
    let n = s.len();
    let mut i: usize = 0;
    while i < n
        invariant
            n == s@.len(),
            i <= n,
            forall|j: int| 0 <= j < i ==> s@[j] != t,
        decreases n - i,
    {
        if *slice_index_get(s, i) == t {
            proof {
                lemma_first_byte_characterization(s@, t);
            }
            return Some(i);
        }
        i = i + 1;
    }
    proof {
        lemma_first_byte_characterization(s@, t);
    }
    None
}

/// The characters that a pure-ASCII byte sequence spells.
pub open spec fn ascii_chars_of(s: Seq<u8>) -> Seq<char> {
    s.map_values(|b: u8| b as char)
}

/// True when every byte of `s` is below 128.
pub open spec fn all_ascii(s: Seq<u8>) -> bool {
    forall|i: int| 0 <= i < s.len() ==> #[trigger] s[i] < 128
}

/// Pure-ASCII bytes are valid UTF-8 and decode to themselves.
pub proof fn lemma_ascii_bytes_decode(s: Seq<u8>)
    requires
        all_ascii(s),
    ensures
        valid_utf8(s),
        decode_utf8(s) == ascii_chars_of(s),
{
    let cs = ascii_chars_of(s);
    assert forall|i: int| 0 <= i < cs.len() implies '\0' <= #[trigger] cs[i] <= '\u{7f}' by {
        assert(s[i] < 128);
    }
    assert(is_ascii_chars(cs));
    is_ascii_chars_encode_utf8(cs);
    assert forall|i: int| 0 <= i < s.len() implies vstd::utf8::encode_utf8(cs)[i] == #[trigger] s[i] by {
        assert(cs[i] as u8 == vstd::utf8::encode_utf8(cs)[i]);
    }
    assert(vstd::utf8::encode_utf8(cs) =~= s);
    encode_utf8_valid_utf8(cs);
    encode_utf8_decode_utf8(cs);
}

/// Token bytes are all ASCII.
pub proof fn lemma_token_is_ascii(s: Seq<u8>)
    requires
        is_token(s),
    ensures
        all_ascii(s),
{
    assert forall|i: int| 0 <= i < s.len() implies #[trigger] s[i] < 128 by {
        assert(is_token_byte(s[i]));
    }
}

/// An ASCII uppercase letter mapped to lowercase; any other character
/// unchanged.
pub open spec fn lower_char(c: char) -> char {
    if 'A' <= c && c <= 'Z' {
        ((c as u8) + 32) as char
    } else {
        c
    }
}

/// [`lower_char`] applied to every character.
pub open spec fn lower_chars(s: Seq<char>) -> Seq<char> {
    s.map_values(|c: char| lower_char(c))
}

/// Lowering twice is the same as lowering once.
pub proof fn lemma_lower_chars_idempotent(s: Seq<char>)
    ensures
        lower_chars(lower_chars(s)) == lower_chars(s),
{
    assert forall|i: int| 0 <= i < s.len() implies lower_char(
        #[trigger] lower_chars(s)[i],
    ) == lower_chars(s)[i] by {
        let c = s[i];
        if 'A' <= c && c <= 'Z' {
            let d = ((c as u8) + 32) as char;
            assert(d > 'Z');
        }
    }
    assert(lower_chars(lower_chars(s)) =~= lower_chars(s));
}

/// Relies on str::to_ascii_lowercase: maps each ASCII uppercase letter to
/// its lowercase counterpart and leaves every other character unchanged.
#[verifier::external_body]
pub fn ascii_lower(s: &str) -> (r: String)
    ensures
        r@ == lower_chars(s@),
{
    s.to_ascii_lowercase()
}

/// Relies on str::from_utf8: returns a string view of the bytes exactly
/// when they are valid UTF-8, and the string decodes those bytes.
#[verifier::external_body]
pub fn bytes_to_string(s: &[u8]) -> (r: Option<String>)
    ensures
        match r {
            Some(t) => valid_utf8(s@) && t@ == decode_utf8(s@),
            None => !valid_utf8(s@),
        },
{
    match std::str::from_utf8(s) {
        Ok(t) => Some(t.to_owned()),
        Err(_) => None,
    }
}

} // verus!
