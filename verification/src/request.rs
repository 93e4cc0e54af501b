//! The HTTP/1.1 request parser: a forward-only state machine that consumes
//! the request line, delegates the header block, then frames the body by
//! Content-Length.

use vstd::prelude::*;

verus! {

use vstd::slice::{slice_index_get, slice_subrange, slice_to_vec};
use vstd::utf8::{valid_utf8, decode_utf8};
use vstd::string::StrSliceExecFns;
use vstd::string::StringExecFns;
use crate::text::{
    is_ws,
    ws_byte,
    scan_len,
    lemma_scan_len,
    lemma_scan_len_unique,
    first_crlf,
    find_crlf,
    lemma_first_crlf_characterization,
    first_byte,
    find_byte,
    lemma_first_byte_characterization,
    bytes_to_string,
    lower_chars,
    lower_char,
};
use crate::headers::{Headers, parse_block, BlockOutcome};
use crate::error::ParseError;

/// The closed set of request methods this server accepts.
#[derive(Clone, Copy, Debug, PartialEq, Eq, Structural)]
pub enum RequestMethod {
    Get,
    Post,
    Put,
    Delete,
}

/// Where the parser stands; states only ever advance.
#[derive(Clone, Copy, Debug, PartialEq, Eq, Structural)]
pub enum ParserState {
    StateRequestLine,
    StateHeaders,
    StateBody,
    Done,
}

/// The parsed request line: method, target, and HTTP version (always
/// `"1.1"` once parsed).
#[derive(Debug)]
pub struct RequestLine {
    pub http_version: String,
    pub request_target: String,
    pub method: RequestMethod,
}

/// One request being parsed: its line, headers, body bytes, and how far
/// the parser has advanced.
#[derive(Debug)]
pub struct Request {
    pub request_line: RequestLine,
    pub headers: Headers,
    pub body: Vec<u8>,
    pub state: ParserState,
}

/// The abstract content of a [`Request`], over sequences and maps.
pub struct ReqModel {
    pub state: ParserState,
    pub method: RequestMethod,
    pub target: Seq<char>,
    pub version: Seq<char>,
    pub headers: Map<Seq<char>, Seq<char>>,
    pub body: Seq<u8>,
}

/// The lowercased name under which Content-Length is stored.
pub open spec fn cl_key() -> Seq<char> {
    "content-length"@
}

/// The stored Content-Length key is already lowercase.
pub proof fn lemma_cl_key_lower()
    ensures
        lower_chars(cl_key()) == cl_key(),
{
    reveal_strlit("content-length");
    let k = cl_key();
    assert forall|i: int| 0 <= i < k.len() implies lower_chars(k)[i] == k[i] by {
        assert(lower_chars(k)[i] == lower_char(k[i]));
        assert(!('A' <= k[i] && k[i] <= 'Z'));
    }
    assert(lower_chars(k) =~= k);
}

// ---------------------------------------------------------------------------
// Whitespace splitting, as `split_whitespace` does it: runs of whitespace
// separate tokens, leading and trailing whitespace is ignored.
// ---------------------------------------------------------------------------

/// The non-whitespace predicate as a first-class spec function.
pub open spec fn non_ws_p() -> spec_fn(u8) -> bool {
    |b: u8| !is_ws(b)
}

/// The whitespace-separated tokens of `s`, in order.
pub open spec fn split_ws(s: Seq<u8>) -> Seq<Seq<u8>>
    decreases s.len(),
    via split_ws_decreases
{
    if s.len() == 0 {
        Seq::empty()
    } else if is_ws(s[0]) {
        split_ws(s.skip(1))
    } else {
        seq![s.take(scan_len(s, non_ws_p()))] + split_ws(s.skip(scan_len(s, non_ws_p())))
    }
}

#[via_fn]
proof fn split_ws_decreases(s: Seq<u8>) {
    if s.len() > 0 && !is_ws(s[0]) {
        lemma_scan_len(s, non_ws_p());
    }
}

/// Splits `s` into its whitespace-separated tokens.
pub fn split_whitespace_bytes(s: &[u8]) -> (r: Vec<Vec<u8>>)
    ensures
        r@.map_values(|v: Vec<u8>| v@) == split_ws(s@),
{
    let n = s.len();
    let mut toks: Vec<Vec<u8>> = Vec::new();
    let mut i: usize = 0;
    proof {
        assert(s@.skip(0) =~= s@);
    }
    while i < n
        invariant
            n == s@.len(),
            i <= n,
            split_ws(s@) == toks@.map_values(|v: Vec<u8>| v@) + split_ws(s@.skip(i as int)),
        decreases n - i,
    {
        if ws_byte(*slice_index_get(s, i)) {
            proof {
                assert(s@.skip(i as int).skip(1) =~= s@.skip(i + 1));
            }
            i = i + 1;
        } else {
            let start = i;
            while i < n && !ws_byte(*slice_index_get(s, i))
                invariant
                    n == s@.len(),
                    start <= i <= n,
                    forall|j: int| start <= j < i ==> !is_ws(#[trigger] s@[j]),
                decreases n - i,
            {
                i = i + 1;
            }
            proof {
                let t = s@.skip(start as int);
                assert forall|j: int| 0 <= j < i - start implies (non_ws_p())(#[trigger] t[j]) by {
                    assert(t[j] == s@[start + j]);
                }
                if i - start < t.len() {
                    assert(t[(i - start) as int] == s@[i as int]);
                }
                lemma_scan_len_unique(t, non_ws_p(), i - start);
                assert(t.take(i - start) =~= s@.subrange(start as int, i as int));
                assert(t.skip(i - start) =~= s@.skip(i as int));
            }
            let tok = slice_to_vec(slice_subrange(s, start, i));
            let ghost old_toks = toks@;
            toks.push(tok);
            proof {
                let f = |v: Vec<u8>| v@;
                assert(toks@.map_values(f) =~= old_toks.map_values(f).push(tok@));
                assert(old_toks.map_values(f) + (seq![tok@] + split_ws(s@.skip(i as int)))
                    =~= toks@.map_values(f) + split_ws(s@.skip(i as int)));
            }
        }
    }
    proof {
        assert(split_ws(s@.skip(n as int)) =~= Seq::<Seq<u8>>::empty());
        assert(toks@.map_values(|v: Vec<u8>| v@) + Seq::<Seq<u8>>::empty() =~= toks@.map_values(
            |v: Vec<u8>| v@,
        ));
    }
    toks
}

// ---------------------------------------------------------------------------
// Method and version tokens.
// ---------------------------------------------------------------------------

/// Which method a token names: exactly GET, POST, PUT or DELETE.
pub open spec fn method_of(tok: Seq<u8>) -> Option<RequestMethod> {
    if tok == seq![71u8, 69u8, 84u8] {  // GET
        Some(RequestMethod::Get)
    } else if tok == seq![80u8, 79u8, 83u8, 84u8] {  // POST
        Some(RequestMethod::Post)
    } else if tok == seq![80u8, 85u8, 84u8] {  // PUT
        Some(RequestMethod::Put)
    } else if tok == seq![68u8, 69u8, 76u8, 69u8, 84u8, 69u8] {  // DELETE
        Some(RequestMethod::Delete)
    } else {
        None
    }
}

/// Recognizes a method token.
pub fn method_from_bytes(tok: &[u8]) -> (r: Option<RequestMethod>)
    ensures
        r == method_of(tok@),
{
    let n = tok.len();
    if n == 3 && *slice_index_get(tok, 0) == 71u8 && *slice_index_get(tok, 1) == 69u8
        && *slice_index_get(tok, 2) == 84u8 {
        proof {
            assert(tok@ =~= seq![71u8, 69u8, 84u8]);
        }
        Some(RequestMethod::Get)
    } else if n == 4 && *slice_index_get(tok, 0) == 80u8 && *slice_index_get(tok, 1) == 79u8
        && *slice_index_get(tok, 2) == 83u8 && *slice_index_get(tok, 3) == 84u8 {
        proof {
            assert(tok@ =~= seq![80u8, 79u8, 83u8, 84u8]);
        }
        Some(RequestMethod::Post)
    } else if n == 3 && *slice_index_get(tok, 0) == 80u8 && *slice_index_get(tok, 1) == 85u8
        && *slice_index_get(tok, 2) == 84u8 {
        proof {
            assert(tok@ =~= seq![80u8, 85u8, 84u8]);
        }
        Some(RequestMethod::Put)
    } else if n == 6 && *slice_index_get(tok, 0) == 68u8 && *slice_index_get(tok, 1) == 69u8
        && *slice_index_get(tok, 2) == 76u8 && *slice_index_get(tok, 3) == 69u8 && *slice_index_get(
        tok,
        4,
    ) == 84u8 && *slice_index_get(tok, 5) == 69u8 {
        proof {
            assert(tok@ =~= seq![68u8, 69u8, 76u8, 69u8, 84u8, 69u8]);
        }
        Some(RequestMethod::Delete)
    } else {
        proof {
            assert(tok@ != seq![71u8, 69u8, 84u8]);
            assert(tok@ != seq![80u8, 79u8, 83u8, 84u8]);
            assert(tok@ != seq![80u8, 85u8, 84u8]);
            assert(tok@ != seq![68u8, 69u8, 76u8, 69u8, 84u8, 69u8]);
        }
        None
    }
}

/// Recognizes a method name, e.g. `"GET"`.
impl RequestMethod {
    /// The method a string names, if any.
    pub fn from_str(method: &str) -> (r: Option<RequestMethod>)
        ensures
            r == method_of(vstd::utf8::encode_utf8(method@)),
    {
        method_from_bytes(method.as_bytes())
    }
}

/// True when the version token reads `HTTP/<seg>` with `<seg>` equal to
/// `1.1` up to the next slash or the end.
pub open spec fn version_ok(tok: Seq<u8>) -> bool {
    match first_byte(tok, 47) {  // '/'
        None => false,
        Some(j) => {
            let prefix = tok.take(j);
            let rest = tok.skip(j + 1);
            let seg = match first_byte(rest, 47) {
                None => rest,
                Some(k) => rest.take(k),
            };
            prefix == seq![72u8, 84u8, 84u8, 80u8]  // HTTP
             && seg == seq![49u8, 46u8, 49u8]  // 1.1

        },
    }
}

/// Checks a version token for `HTTP/1.1`.
pub fn check_version(tok: &[u8]) -> (r: bool)
    ensures
        r == version_ok(tok@),
{
    let n = tok.len();
    match find_byte(tok, 47) {
        None => false,
        Some(j) => {
            proof {
                lemma_first_byte_characterization(tok@, 47);
            }
            let prefix_ok = j == 4 && *slice_index_get(tok, 0) == 72u8 && *slice_index_get(tok, 1)
                == 84u8 && *slice_index_get(tok, 2) == 84u8 && *slice_index_get(tok, 3) == 80u8;
            proof {
                if prefix_ok {
                    assert(tok@.take(j as int) =~= seq![72u8, 84u8, 84u8, 80u8]);
                } else {
                    assert(tok@.take(j as int) != seq![72u8, 84u8, 84u8, 80u8]);
                }
            }
            if !prefix_ok {
                return false;
            }
            let rest = slice_subrange(tok, j + 1, n);
            proof {
                assert(rest@ =~= tok@.skip(j + 1));
            }
            let seg_len: usize = match find_byte(rest, 47) {
                None => rest.len(),
                Some(k) => k,
            };
            proof {
                lemma_first_byte_characterization(rest@, 47);
            }
            let ghost seg = match first_byte(rest@, 47) {
                None => rest@,
                Some(k) => rest@.take(k),
            };
            let seg_ok = seg_len == 3 && *slice_index_get(rest, 0) == 49u8 && *slice_index_get(
                rest,
                1,
            ) == 46u8 && *slice_index_get(rest, 2) == 49u8;
            proof {
                assert(seg.len() == seg_len as int);
                assert(forall|t: int| 0 <= t < seg.len() ==> seg[t] == rest@[t]);
                if seg_ok {
                    assert(seg =~= seq![49u8, 46u8, 49u8]);
                } else {
                    assert(seg != seq![49u8, 46u8, 49u8]);
                }
            }
            seg_ok
        },
    }
}

// ---------------------------------------------------------------------------
// Content-Length values.
// ---------------------------------------------------------------------------

/// True when `c` is an ASCII digit.
pub open spec fn is_digit(c: char) -> bool {
    48 <= c as u32 && c as u32 <= 57
}

/// True when `s` consists of ASCII digits only.
pub open spec fn all_digits(s: Seq<char>) -> bool {
    forall|i: int| 0 <= i < s.len() ==> is_digit(#[trigger] s[i])
}

/// The non-negative integer that a digit string denotes.
pub open spec fn digits_val(s: Seq<char>) -> int
    decreases s.len(),
{
    if s.len() == 0 {
        0
    } else {
        digits_val(s.drop_last()) * 10 + (s.last() as u32 - 48)
    }
}

/// The value of a Content-Length header: an optional `+`, then at least
/// one digit; anything else does not parse.
pub open spec fn content_length_of(s: Seq<char>) -> Option<int> {
    let d = if s.len() >= 1 && s[0] == '+' {
        s.skip(1)
    } else {
        s
    };
    if d.len() >= 1 && all_digits(d) {
        Some(digits_val(d))
    } else {
        None
    }
}

/// A digit string denotes a non-negative value.
pub proof fn lemma_digits_val_nonneg(s: Seq<char>)
    requires
        all_digits(s),
    ensures
        digits_val(s) >= 0,
    decreases s.len(),
{
    if s.len() > 0 {
        assert(is_digit(s.last()));
        assert(all_digits(s.drop_last()));
        lemma_digits_val_nonneg(s.drop_last());
    }
}

/// A digit string is worth at least any of its prefixes.
pub proof fn lemma_digits_val_prefix(s: Seq<char>, m: int)
    requires
        all_digits(s),
        0 <= m <= s.len(),
    ensures
        digits_val(s.take(m)) <= digits_val(s),
    decreases s.len(),
{
    if m < s.len() {
        assert(all_digits(s.drop_last()));
        assert(s.take(m) =~= s.drop_last().take(m));
        lemma_digits_val_prefix(s.drop_last(), m);
        lemma_digits_val_nonneg(s.drop_last());
        assert(is_digit(s.last()));
        assert(digits_val(s) >= digits_val(s.drop_last()));
    } else {
        assert(s.take(m) =~= s);
    }
}

/// Parses a Content-Length value. Returns its value when it is a
/// non-negative integer that fits the machine, `None` otherwise.
pub fn parse_content_length(v: &str) -> (r: Option<usize>)
    ensures
        match content_length_of(v@) {
            Some(cl) => if cl <= usize::MAX {
                r == Some(cl as usize)
            } else {
                r is None
            },
            None => r is None,
        },
{
    let len = v.unicode_len();
    let mut start: usize = 0;
    if len >= 1 && v.get_char(0) == '+' {
        start = 1;
    }
    let ghost d = if v@.len() >= 1 && v@[0] == '+' {
        v@.skip(1)
    } else {
        v@
    };
    if start == len {
        // no digits at all
        return None;
    }
    let mut acc: usize = 0;
    let mut i: usize = start;
    while i < len
        invariant
            len == v@.len(),
            start <= i <= len,
            start <= 1,
            start == 1 ==> v@.len() >= 1 && v@[0] == '+',
            start == 0 ==> !(v@.len() >= 1 && v@[0] == '+'),
            d == if v@.len() >= 1 && v@[0] == '+' {
                v@.skip(1)
            } else {
                v@
            },
            forall|j: int| 0 <= j < i - start ==> is_digit(#[trigger] d[j]),
            acc == digits_val(d.take(i - start)),
        decreases len - i,
    {
        let c = v.get_char(i);
        let u = c as u32;
        if u < 48 || u > 57 {
            proof {
                assert(d[i - start] == v@[i as int]);
                assert(!is_digit(d[i - start]));
            }
            return None;
        }
        let dig = (u - 48) as usize;
        let next = match acc.checked_mul(10) {
            Some(x) => x,
            None => {
                proof {
                    overflow_means_too_big(d, i - start, v@);
                }
                return None;
            },
        };
        let next = match next.checked_add(dig) {
            Some(x) => x,
            None => {
                proof {
                    overflow_means_too_big(d, i - start, v@);
                }
                return None;
            },
        };
        proof {
            assert(d.take(i + 1 - start).drop_last() =~= d.take(i - start));
            assert(d.take(i + 1 - start).last() == d[i - start]);
            assert(d[i - start] == v@[i as int]);
        }
        acc = next;
        i = i + 1;
    }
    proof {
        assert(d.take(len - start) =~= d);
    }
    Some(acc)
}

// ---------------------------------------------------------------------------
// The request line.
// ---------------------------------------------------------------------------

/// What one look at the buffer does for the request line.
pub enum RlOutcome {
    /// No CRLF yet: consume nothing and wait for more bytes.
    Incomplete,
    /// The line is complete but does not parse.
    Bad { kind: ParseError },
    /// A parsed line and the bytes it consumed (line plus CRLF).
    Line { method: RequestMethod, target: Seq<char>, used: int },
}

/// Parsing the request line out of buffer `b`: wait for a CRLF, split the
/// line on whitespace into exactly three tokens, and check method and
/// version. The target must be valid UTF-8.
pub open spec fn parse_request_line_spec(b: Seq<u8>) -> RlOutcome {
    match first_crlf(b) {
        None => RlOutcome::Incomplete,
        Some(i) => {
            let parts = split_ws(b.take(i));
            if parts.len() != 3 {
                RlOutcome::Bad { kind: ParseError::MalformedRequestLine }
            } else {
                match method_of(parts[0]) {
                    None => RlOutcome::Bad { kind: ParseError::InvalidMethod },
                    Some(mm) => {
                        if !version_ok(parts[2]) {
                            RlOutcome::Bad { kind: ParseError::UnsupportedHttpVersion }
                        } else if !valid_utf8(parts[1]) {
                            RlOutcome::Bad { kind: ParseError::MalformedRequestLine }
                        } else {
                            RlOutcome::Line {
                                method: mm,
                                target: decode_utf8(parts[1]),
                                used: i + 2,
                            }
                        }
                    },
                }
            }
        },
    }
}

/// Parses the request line, e.g. `GET /coffee HTTP/1.1`. Consumes nothing
/// until a full line has arrived.
pub fn parse_request_line(request: &[u8]) -> (r: Result<(Option<RequestLine>, usize), ParseError>)
    ensures
        match parse_request_line_spec(request@) {
            RlOutcome::Incomplete => r matches Ok(p) && p.0 is None && p.1 == 0,
            RlOutcome::Bad { kind } => r matches Err(k) && k == kind,
            RlOutcome::Line { method, target, used } => r matches Ok(p) && p.1 == used && (
            p.0 matches Some(rl) && rl.method == method && rl.request_target@ == target
                && rl.http_version@ == "1.1"@),
        },
{
    let n = request.len();
    match find_crlf(request) {
        None => Ok((None, 0)),
        Some(i) => {
            proof {
                lemma_first_crlf_characterization(request@);
                assert(i + 2 <= n);
            }
            let line = slice_subrange(request, 0, i);
            proof {
                assert(line@ =~= request@.take(i as int));
            }
            let parts = split_whitespace_bytes(line);
            let ghost sparts = split_ws(line@);
            if parts.len() != 3 {
                return Err(ParseError::MalformedRequestLine);
            }
            proof {
                assert(parts@[0]@ == sparts[0]);
                assert(parts@[1]@ == sparts[1]);
                assert(parts@[2]@ == sparts[2]);
            }
            let mm = match method_from_bytes(parts[0].as_slice()) {
                Some(mm) => mm,
                None => {
                    return Err(ParseError::InvalidMethod);
                },
            };
            if !check_version(parts[2].as_slice()) {
                return Err(ParseError::UnsupportedHttpVersion);
            }
            let target = match bytes_to_string(parts[1].as_slice()) {
                Some(s) => s,
                None => {
                    return Err(ParseError::MalformedRequestLine);
                },
            };
            let mut version = String::new();
            version.append("1.1");
            Ok(
                (
                    Some(
                        RequestLine {
                            http_version: version,
                            request_target: target,
                            method: mm,
                        },
                    ),
                    i + 2,
                ),
            )
        },
    }
}

// ---------------------------------------------------------------------------
// The state machine.
// ---------------------------------------------------------------------------

/// What one call of [`Request::parse`] does.
pub enum StepOutcome {
    /// `used` bytes consumed, new abstract state `m`. `used == 0` with an
    /// unchanged state means the parser needs more input.
    Progress { used: int, m: ReqModel },
    /// The request is invalid; `m` is the state left behind.
    Fail { kind: ParseError, m: ReqModel },
}

/// One call of the request parser on buffer `b` in state `m`: parse the
/// request line, or feed the header block, or frame the body by
/// Content-Length (consuming the whole buffer and discarding anything
/// past the declared length), or do nothing once done.
pub open spec fn step(m: ReqModel, b: Seq<u8>) -> StepOutcome {
    match m.state {
        ParserState::StateRequestLine => match parse_request_line_spec(b) {
            RlOutcome::Incomplete => StepOutcome::Progress { used: 0, m },
            RlOutcome::Bad { kind } => StepOutcome::Fail { kind, m },
            RlOutcome::Line { method, target, used } => StepOutcome::Progress {
                used,
                m: ReqModel {
                    state: ParserState::StateHeaders,
                    method,
                    target,
                    version: "1.1"@,
                    ..m
                },
            },
        },
        ParserState::StateHeaders => match parse_block(b, m.headers) {
            BlockOutcome::Incomplete { used, hs } => StepOutcome::Progress {
                used,
                m: ReqModel { headers: hs, ..m },
            },
            BlockOutcome::Complete { used, hs } => StepOutcome::Progress {
                used,
                m: ReqModel { state: ParserState::StateBody, headers: hs, ..m },
            },
            BlockOutcome::Malformed { hs } => StepOutcome::Fail {
                kind: ParseError::MalformedHeader,
                m: ReqModel { headers: hs, ..m },
            },
        },
        ParserState::StateBody => {
            if !m.headers.contains_key(cl_key()) {
                StepOutcome::Progress { used: 0, m: ReqModel { state: ParserState::Done, ..m } }
            } else {
                match content_length_of(m.headers[cl_key()]) {
                    None => StepOutcome::Fail { kind: ParseError::MalformedContentLength, m },
                    Some(cl) => {
                        if cl > usize::MAX {
                            StepOutcome::Fail { kind: ParseError::MalformedContentLength, m }
                        } else {
                            let need = cl - m.body.len();
                            let take_n = if need < 0 {
                                0
                            } else if need > b.len() {
                                b.len() as int
                            } else {
                                need
                            };
                            let body2 = m.body + b.take(take_n);
                            StepOutcome::Progress {
                                used: b.len() as int,
                                m: ReqModel {
                                    state: if body2.len() == cl {
                                        ParserState::Done
                                    } else {
                                        ParserState::StateBody
                                    },
                                    body: body2,
                                    ..m
                                },
                            }
                        }
                    },
                }
            }
        },
        ParserState::Done => StepOutcome::Progress { used: 0, m },
    }
}

/// What a step consumes stays within the buffer.
pub proof fn lemma_step_used(m: ReqModel, b: Seq<u8>)
    ensures
        match step(m, b) {
            StepOutcome::Progress { used, .. } => 0 <= used <= b.len(),
            StepOutcome::Fail { .. } => true,
        },
{
    match m.state {
        ParserState::StateRequestLine => {
            lemma_first_crlf_characterization(b);
        },
        ParserState::StateHeaders => {
            crate::headers::lemma_parse_block_used(b, m.headers);
        },
        ParserState::StateBody => {},
        ParserState::Done => {},
    }
}

/// The abstract state a fresh request starts in.
pub open spec fn init_model() -> ReqModel {
    ReqModel {
        state: ParserState::StateRequestLine,
        method: RequestMethod::Get,
        target: Seq::empty(),
        version: Seq::empty(),
        headers: Map::empty(),
        body: Seq::empty(),
    }
}

/// A fresh request, ready to parse.
pub fn new_request() -> (r: Request)
    ensures
        r.wf(),
        r.model() == init_model(),
{
    let r = Request {
        request_line: RequestLine {
            http_version: String::new(),
            request_target: String::new(),
            method: RequestMethod::Get,
        },
        headers: Headers::new(),
        body: Vec::new(),
        state: ParserState::StateRequestLine,
    };
    proof {
        assert(r.model() == init_model());
    }
    r
}

impl Request {
    /// The abstract content of this request.
    pub open spec fn model(&self) -> ReqModel {
        ReqModel {
            state: self.state,
            method: self.request_line.method,
            target: self.request_line.request_target@,
            version: self.request_line.http_version@,
            headers: self.headers@,
            body: self.body@,
        }
    }

    /// Internal shape the parser maintains: the header map is well formed,
    /// the body is empty until the body phase, and never grows past the
    /// declared Content-Length.
    pub open spec fn wf(&self) -> bool {
        self.headers.wf() && match self.state {
            ParserState::StateRequestLine => self.body@.len() == 0,
            ParserState::StateHeaders => self.body@.len() == 0,
            ParserState::StateBody => {
                if self.headers@.contains_key(cl_key()) {
                    match content_length_of(self.headers@[cl_key()]) {
                        Some(cl) => self.body@.len() <= cl,
                        None => self.body@.len() == 0,
                    }
                } else {
                    self.body@.len() == 0
                }
            },
            ParserState::Done => true,
        }
    }

    /// True once the whole request has been parsed.
    pub fn is_done(&self) -> (r: bool)
        ensures
            r == (self.state == ParserState::Done),
    {
        self.state == ParserState::Done
    }

    /// Advances the parser over `buffer` and returns how many bytes it
    /// consumed. The caller re-presents unconsumed bytes, with more input
    /// appended, until the request is done.
    #[verifier::loop_isolation(false)]
    pub fn parse(&mut self, buffer: &[u8]) -> (r: Result<usize, ParseError>)
        requires
            old(self).wf(),
        ensures
            final(self).wf(),
            ({
                let o = step(old(self).model(), buffer@);
                let post = final(self).model();
                match o {
                    StepOutcome::Progress { used, m } => r matches Ok(u) && u == used && post == m,
                    StepOutcome::Fail { kind, m } => r matches Err(k) && k == kind && post == m,
                }
            }),
    {
        let buffer_len = buffer.len();
        proof {
            assert(buffer@.len() == buffer_len);
        }
        match self.state {
            ParserState::StateRequestLine => {
                match parse_request_line(buffer) {
                    Ok((request_line, bytes_parsed)) => {
                        if bytes_parsed == 0 {
                            proof {
                                lemma_first_crlf_characterization(buffer@);
                            }
                            return Ok(0);
                        }
                        match request_line {
                            Some(rl) => {
                                self.request_line = rl;
                                self.state = ParserState::StateHeaders;
                                Ok(bytes_parsed)
                            },
                            None => {
                                proof {
                                    assert(false);
                                }
                                Ok(0)
                            },
                        }
                    },
                    Err(e) => Err(e),
                }
            },
            ParserState::StateHeaders => {
                proof {
                    crate::headers::lemma_parse_block_used(buffer@, self.headers@);
                }
                match self.headers.parse(buffer) {
                    Ok((done, bytes_parsed)) => {
                        if done {
                            self.state = ParserState::StateBody;
                            proof {
                                if self.headers@.contains_key(cl_key()) {
                                    match content_length_of(self.headers@[cl_key()]) {
                                        Some(cl) => {
                                            lemma_digits_val_nonneg_of_cl(self.headers@[cl_key()]);
                                        },
                                        None => {},
                                    }
                                }
                            }
                        }
                        Ok(bytes_parsed)
                    },
                    Err(e) => Err(e),
                }
            },
            ParserState::StateBody => {
                proof {
                    lemma_cl_key_lower();
                }
                let cl = match self.headers.get("content-length") {
                    Some(c) => {
                        match parse_content_length(c.as_str()) {
                            Some(t) => t,
                            None => {
                                return Err(ParseError::MalformedContentLength);
                            },
                        }
                    },
                    None => {
                        self.state = ParserState::Done;
                        return Ok(0);
                    },
                };
                let have = self.body.len();
                let blen = buffer.len();
                let need = cl - have;
                let take_n = if blen < need {
                    blen
                } else {
                    need
                };
                let chunk = slice_subrange(buffer, 0, take_n);
                let ghost body0 = self.body@;
                let mut k: usize = 0;
                while k < take_n
                    invariant
                        take_n == chunk@.len(),
                        chunk@ == buffer@.take(take_n as int),
                        k <= take_n,
                        self.body@ == body0 + chunk@.take(k as int),
                        self.request_line == old(self).request_line,
                        self.headers == old(self).headers,
                        self.state == old(self).state,
                    decreases take_n - k,
                {
                    let b = *slice_index_get(chunk, k);
                    self.body.push(b);
                    proof {
                        assert(self.body@ =~= body0 + chunk@.take(k + 1));
                    }
                    k = k + 1;
                }
                proof {
                    assert(chunk@.take(take_n as int) =~= chunk@);
                    assert(chunk@ =~= buffer@.take(take_n as int));
                }
                if self.body.len() == cl {
                    self.state = ParserState::Done;
                }
                Ok(blen)
            },
            ParserState::Done => Ok(0),
        }
    }
}

/// A Content-Length that parses denotes a non-negative value.
pub proof fn lemma_digits_val_nonneg_of_cl(s: Seq<char>)
    ensures
        match content_length_of(s) {
            Some(cl) => cl >= 0,
            None => true,
        },
{
    let d = if s.len() >= 1 && s[0] == '+' {
        s.skip(1)
    } else {
        s
    };
    if d.len() >= 1 && all_digits(d) {
        lemma_digits_val_nonneg(d);
    }
}

/// When the accumulated prefix at digit `k` no longer fits, the whole
/// digit string does not fit either.
proof fn overflow_means_too_big(d: Seq<char>, k: int, whole: Seq<char>)
    requires
        0 <= k < d.len(),
        forall|j: int| 0 <= j < k ==> is_digit(#[trigger] d[j]),
        is_digit(d[k]),
        digits_val(d.take(k)) * 10 + (d[k] as u32 - 48) > usize::MAX,
    ensures
        match content_length_of(whole) {
            Some(cl) => d == (if whole.len() >= 1 && whole[0] == '+' {
                whole.skip(1)
            } else {
                whole
            }) ==> cl > usize::MAX,
            None => true,
        },
{
    match content_length_of(whole) {
        Some(cl) => {
            let dd = if whole.len() >= 1 && whole[0] == '+' {
                whole.skip(1)
            } else {
                whole
            };
            if d == dd {
                assert(all_digits(d));
                assert(d.take(k + 1).drop_last() =~= d.take(k));
                assert(d.take(k + 1).last() == d[k]);
                assert(digits_val(d.take(k + 1)) == digits_val(d.take(k)) * 10 + (d[k] as u32
                    - 48));
                lemma_digits_val_prefix(d, k + 1);
            }
        },
        None => {},
    }
}

} // verus!

