//! Serializes responses: the status line for the closed status set, and
//! the fixed default header block every response carries.

use vstd::prelude::*;

verus! {

use vstd::string::StringExecFns;
use crate::headers::{Headers, spec_header_lines};
use crate::text::{lower_chars, lower_char, ascii_chars_of, lemma_ascii_bytes_decode, bytes_to_string};

/// The closed set of status codes this server sends.
#[derive(Clone, Copy, Debug, PartialEq, Eq, Structural)]
pub enum StatusCode {
    Okay,
    BadRequest,
    InternalServerError,
}

impl StatusCode {
    /// The numeric code on the wire.
    pub fn code(&self) -> (r: u16)
        ensures
            match self {
                StatusCode::Okay => r == 200,
                StatusCode::BadRequest => r == 400,
                StatusCode::InternalServerError => r == 500,
            },
    {
        match self {
            StatusCode::Okay => 200,
            StatusCode::BadRequest => 400,
            StatusCode::InternalServerError => 500,
        }
    }
}

/// The full status line each code serializes to.
pub open spec fn spec_status_line(c: StatusCode) -> Seq<char> {
    match c {
        StatusCode::Okay => "HTTP/1.1 200 Ok\r\n"@,
        StatusCode::BadRequest => "HTTP/1.1 400 Bad Request\r\n"@,
        StatusCode::InternalServerError => "HTTP/1.1 500 Internal Server Error\r\n"@,
    }
}

/// Serializes the status line, e.g. `HTTP/1.1 200 Ok\r\n`.
pub fn status_line(c: StatusCode) -> (r: String)
    ensures
        r@ == spec_status_line(c),
{
    match c {
        StatusCode::Okay => "HTTP/1.1 200 Ok\r\n".to_owned(),
        StatusCode::BadRequest => "HTTP/1.1 400 Bad Request\r\n".to_owned(),
        StatusCode::InternalServerError => "HTTP/1.1 500 Internal Server Error\r\n".to_owned(),
    }
}

/// The decimal digits of a non-negative number, most significant first.
pub open spec fn dec_digits(n: int) -> Seq<char>
    decreases n,
{
    if n < 10 {
        seq![((48 + n) as u8) as char]
    } else {
        dec_digits(n / 10) + seq![((48 + n % 10) as u8) as char]
    }
}

/// Renders a number in decimal.
pub fn u16_to_string(n: u16) -> (r: String)
    ensures
        r@ == dec_digits(n as int),
    decreases n,
{
    let d: u8 = 48 + (n % 10) as u8;
    let mut tail: Vec<u8> = Vec::new();
    tail.push(d);
    proof {
        assert(tail@ =~= seq![d]);
        lemma_ascii_bytes_decode(tail@);
        assert(ascii_chars_of(tail@) =~= seq![d as char]);
    }
    let tail_str = match bytes_to_string(tail.as_slice()) {
        Some(s) => s,
        None => {
            proof {
                assert(false);
            }
            String::new()
        },
    };
    if n < 10 {
        tail_str
    } else {
        let prefix = u16_to_string(n / 10);
        prefix.concat(tail_str.as_str())
    }
}

/// The three lowercased keys of the default header block are distinct,
/// and are what lowercasing the set names yields.
proof fn lemma_default_header_keys()
    ensures
        lower_chars("Content-length"@) == "content-length"@,
        lower_chars("Connection"@) == "connection"@,
        lower_chars("Content-Type"@) == "content-type"@,
        "content-length"@ != "connection"@,
        "content-length"@ != "content-type"@,
        "connection"@ != "content-type"@,
{
    reveal_strlit("Content-length");
    reveal_strlit("content-length");
    reveal_strlit("Connection");
    reveal_strlit("connection");
    reveal_strlit("Content-Type");
    reveal_strlit("content-type");
    let a1 = "Content-length"@;
    let b1 = "content-length"@;
    assert forall|i: int| 0 <= i < a1.len() implies lower_chars(a1)[i] == b1[i] by {
        assert(lower_chars(a1)[i] == lower_char(a1[i]));
    }
    assert(lower_chars(a1) =~= b1);
    let a2 = "Connection"@;
    let b2 = "connection"@;
    assert forall|i: int| 0 <= i < a2.len() implies lower_chars(a2)[i] == b2[i] by {
        assert(lower_chars(a2)[i] == lower_char(a2[i]));
    }
    assert(lower_chars(a2) =~= b2);
    let a3 = "Content-Type"@;
    let b3 = "content-type"@;
    assert forall|i: int| 0 <= i < a3.len() implies lower_chars(a3)[i] == b3[i] by {
        assert(lower_chars(a3)[i] == lower_char(a3[i]));
    }
    assert(lower_chars(a3) =~= b3);
}

/// The fixed header set every response carries: its Content-Length, then
/// `Connection: close`, then `Content-Type: text/plain`.
pub fn get_default_headers(content_len: u16) -> (r: Headers)
    ensures
        r.wf(),
        r.entries_seq() == seq![
            ("content-length"@, dec_digits(content_len as int)),
            ("connection"@, "close"@),
            ("content-type"@, "text/plain"@),
        ],
        r@ == Map::<Seq<char>, Seq<char>>::empty().insert(
            "content-length"@,
            dec_digits(content_len as int),
        ).insert("connection"@, "close"@).insert("content-type"@, "text/plain"@),
{
    proof {
        lemma_default_header_keys();
    }
    let mut headers = Headers::new();
    let cl = u16_to_string(content_len);
    headers.set("Content-length", cl.as_str());
    headers.set("Connection", "close");
    headers.set("Content-Type", "text/plain");
    proof {
        assert(headers.entries_seq() =~= seq![
            ("content-length"@, dec_digits(content_len as int)),
            ("connection"@, "close"@),
            ("content-type"@, "text/plain"@),
        ]);
    }
    headers
}

/// The header block of a response with the given Content-Length, as it
/// goes on the wire after the status line.
pub fn default_header_block(content_len: u16) -> (r: String)
    ensures
        r@ == spec_header_lines(
            seq![
                ("content-length"@, dec_digits(content_len as int)),
                ("connection"@, "close"@),
                ("content-type"@, "text/plain"@),
            ],
        ),
{
    let headers = get_default_headers(content_len);
    headers.serialize()
}

/// Everything that precedes the body of a response: the status line and
/// the default header block for the given Content-Length.
pub fn response_head(status: StatusCode, content_len: u16) -> (r: String)
    ensures
        r@ == spec_status_line(status) + spec_header_lines(
            seq![
                ("content-length"@, dec_digits(content_len as int)),
                ("connection"@, "close"@),
                ("content-type"@, "text/plain"@),
            ],
        ),
{
    let line = status_line(status);
    let block = default_header_block(content_len);
    line.concat(block.as_str())
}

} // verus!
