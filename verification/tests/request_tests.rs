use minihttp::reader::RequestReader;
use minihttp::request::RequestMethod;
use minihttp::{ParseError, Request};

/// Drives a reader over `data`, at most `chunk` bytes per read, exactly as
/// a connection loop would: fill the free tail, parse, repeat.
fn request_from_chunks(data: &[u8], chunk: usize) -> Result<Request, ParseError> {
    let mut reader = RequestReader::new();
    let mut pos = 0usize;
    loop {
        let free = reader.free_space();
        let mut end = pos + chunk;
        if end > data.len() {
            end = data.len();
        }
        if end > pos + free {
            end = pos + free;
        }
        let done = reader.feed(&data[pos..end])?;
        pos = end;
        if done {
            return Ok(reader.take_request());
        }
        assert!(pos < data.len(), "ran out of input before the request ended");
    }
}

#[test]
fn test_good_get_request_line() {
    let req_bytes = b"GET / HTTP/1.1\r\nHost: localhost:42069\r\nUser-Agent: curl/7.81.0\r\nAccept: */*\r\n\r\n";
    let result = request_from_chunks(req_bytes, 3).expect("Failed to parse request");

    assert_eq!(RequestMethod::Get, result.request_line.method);
    assert_eq!("/", result.request_line.request_target);
    assert_eq!("1.1", result.request_line.http_version);
}

#[test]
fn test_good_get_request_line_with_path() {
    let req_bytes = b"GET /coffee HTTP/1.1\r\nHost: localhost:42069\r\nUser-Agent: curl/7.81.0\r\nAccept: */*\r\n\r\n";
    let result = request_from_chunks(req_bytes, 1).expect("Failed to parse request");

    assert_eq!(RequestMethod::Get, result.request_line.method);
    assert_eq!("/coffee", result.request_line.request_target);
    assert_eq!("1.1", result.request_line.http_version);
}

#[test]
fn test_invalid_number_of_parts_in_request_line() {
    let req_bytes = b"/coffee HTTP/1.1\r\nHost: localhost:42069\r\nUser-Agent: curl/7.81.0\r\nAccept: */*\r\n\r\n";
    let result = request_from_chunks(req_bytes, 3);

    assert!(result.is_err());
}

#[test]
fn test_post_request_line() {
    let req_bytes = b"POST /submit HTTP/1.1\r\nHost: localhost:42069\r\nUser-Agent: curl/7.81.0\r\nAccept: */*\r\n\r\n";
    let result = request_from_chunks(req_bytes, 3).expect("Failed to parse request");

    assert_eq!(RequestMethod::Post, result.request_line.method);
    assert_eq!("/submit", result.request_line.request_target);
    assert_eq!("1.1", result.request_line.http_version);
}

#[test]
fn test_invalid_method_request_line() {
    let req_bytes = b"FETCH /data HTTP/1.1\r\nHost: localhost:42069\r\nUser-Agent: curl/7.81.0\r\nAccept: */*\r\n\r\n";
    let result = request_from_chunks(req_bytes, 3);

    assert!(result.is_err());
}

#[test]
fn test_invalid_http_version_request_line() {
    let req_bytes = b"GET /data HTTP/2.0\r\nHost: localhost:42069\r\nUser-Agent: curl/7.81.0\r\nAccept: */*\r\n\r\n";
    let result = request_from_chunks(req_bytes, 3);

    assert!(result.is_err());
}

#[test]
fn good_get_request_line() {
    let req_bytes = b"GET / HTTP/1.1\r\nHost: localhost:42069\r\nUser-Agent: curl/7.81.0\r\nAccept: */*\r\n\r\n";
    let result = request_from_chunks(req_bytes, 3).expect("Failed to parse request");

    assert_eq!(RequestMethod::Get, result.request_line.method);
    assert_eq!("/", result.request_line.request_target);
    assert_eq!("1.1", result.request_line.http_version);
}

#[test]
fn good_get_request_line_with_path() {
    let req_bytes = b"GET /coffee HTTP/1.1\r\nHost: localhost:42069\r\nUser-Agent: curl/7.81.0\r\nAccept: */*\r\n\r\n";
    let result = request_from_chunks(req_bytes, 1).expect("Failed to parse request");

    assert_eq!(RequestMethod::Get, result.request_line.method);
    assert_eq!("/coffee", result.request_line.request_target);
    assert_eq!("1.1", result.request_line.http_version);
}

#[test]
fn invalid_number_of_parts_in_request_line() {
    let req_bytes = b"/coffee HTTP/1.1\r\nHost: localhost:42069\r\nUser-Agent: curl/7.81.0\r\nAccept: */*\r\n\r\n";
    let result = request_from_chunks(req_bytes, 3);

    assert!(result.is_err());
}

#[test]
fn post_request_line() {
    let req_bytes = b"POST /submit HTTP/1.1\r\nHost: localhost:42069\r\nUser-Agent: curl/7.81.0\r\nAccept: */*\r\n\r\n";
    let result = request_from_chunks(req_bytes, 3).expect("Failed to parse request");

    assert_eq!(RequestMethod::Post, result.request_line.method);
    assert_eq!("/submit", result.request_line.request_target);
    assert_eq!("1.1", result.request_line.http_version);
}

#[test]
fn invalid_method_request_line() {
    let req_bytes = b"FETCH /data HTTP/1.1\r\nHost: localhost:42069\r\nUser-Agent: curl/7.81.0\r\nAccept: */*\r\n\r\n";
    let result = request_from_chunks(req_bytes, 3);

    assert!(result.is_err());
}

#[test]
fn invalid_http_version_request_line() {
    let req_bytes = b"GET /data HTTP/2.0\r\nHost: localhost:42069\r\nUser-Agent: curl/7.81.0\r\nAccept: */*\r\n\r\n";
    let result = request_from_chunks(req_bytes, 3);

    assert!(result.is_err());
}

#[test]
fn valid_request_with_headers() {
    let req_bytes = b"GET / HTTP/1.1\r\nHost: localhost:42069\r\nUser-Agent: curl/7.81.0\r\nAccept: */*\r\n\r\n";
    let result = request_from_chunks(req_bytes, 4).expect("Failed to parse request");

    assert_eq!(RequestMethod::Get, result.request_line.method);
    assert_eq!("/", result.request_line.request_target);
    assert_eq!("1.1", result.request_line.http_version);
    assert_eq!(
        result.headers.get("host"),
        Some(&"localhost:42069".to_string())
    );
    assert_eq!(
        result.headers.get("user-agent"),
        Some(&"curl/7.81.0".to_string())
    );
    assert_eq!(result.headers.get("accept"), Some(&"*/*".to_string()));
}

#[test]
fn malformed_header() {
    let req_bytes =
        b"GET / HTTP/1.1\r\nHost localhost:42069\r\nUser-Agent: curl/7.81.0\r\nAccept: */*\r\n\r\n";
    let result = request_from_chunks(req_bytes, 4);

    assert!(result.is_err());
}

#[test]
fn empty_headers() {
    let req_bytes = b"GET / HTTP/1.1\r\n\r\n";
    let result = request_from_chunks(req_bytes, 5).expect("Failed to parse request");

    assert_eq!(RequestMethod::Get, result.request_line.method);
    assert_eq!("/", result.request_line.request_target);
    assert_eq!("1.1", result.request_line.http_version);
}

#[test]
fn standard_body() {
    let req_bytes = b"POST /submit HTTP/1.1\r\nHost: localhost:42069\r\nContent-Length: 13\r\n\r\nHello, world!";
    let result = request_from_chunks(req_bytes, 3).expect("Failed to parse request");

    assert_eq!(RequestMethod::Post, result.request_line.method);
    assert_eq!("/submit", result.request_line.request_target);
    assert_eq!("1.1", result.request_line.http_version);
    assert_eq!(
        result.headers.get("content-length"),
        Some(&"13".to_string())
    );
    assert_eq!(result.body, b"Hello, world!");
}

#[test]
fn standard_body_whole_message() {
    let req_bytes = b"POST /submit HTTP/1.1\r\nHost: localhost:42069\r\nContent-Length: 13\r\n\r\nHello, world!";
    let whole = request_from_chunks(req_bytes, req_bytes.len()).expect("Failed to parse request");
    let byte_at_a_time = request_from_chunks(req_bytes, 1).expect("Failed to parse request");

    assert_eq!(whole.body, b"Hello, world!");
    assert_eq!(whole.body, byte_at_a_time.body);
    assert_eq!(
        whole.request_line.request_target,
        byte_at_a_time.request_line.request_target
    );
}

#[test]
fn more_content_than_content_length() {
    let req_bytes =
        b"POST /submit HTTP/1.1\r\nHost: localhost:42069\r\nContent-Length: 5\r\n\r\nHello, world!";
    let result = request_from_chunks(req_bytes, 3).unwrap();

    assert_eq!(result.body, b"Hello");
}

#[test]
fn invalid_content_length() {
    let req_bytes =
        b"POST /submit HTTP/1.1\r\nHost: localhost:42069\r\nContent-Length: abc\r\n\r\nHello, world!";
    let result = request_from_chunks(req_bytes, 3);

    assert!(result.is_err());
}

#[test]
fn empty_body_with_content_length() {
    let req_bytes = b"POST /submit HTTP/1.1\r\nHost: localhost:42069\r\nContent-Length: 0\r\n\r\n";
    let result = request_from_chunks(req_bytes, 4).expect("Failed to parse request");

    assert_eq!(RequestMethod::Post, result.request_line.method);
    assert_eq!("/submit", result.request_line.request_target);
    assert_eq!("1.1", result.request_line.http_version);
    assert_eq!(result.headers.get("content-length"), Some(&"0".to_string()));
    assert_eq!(result.body, b"");
}

#[test]
fn empty_body_without_content_length() {
    let req_bytes = b"GET / HTTP/1.1\r\nHost: localhost:42069\r\n\r\n";
    let result = request_from_chunks(req_bytes, 4).expect("Failed to parse request");

    assert_eq!(RequestMethod::Get, result.request_line.method);
    assert_eq!("/", result.request_line.request_target);
    assert_eq!("1.1", result.request_line.http_version);
    assert_eq!(result.body, b"");
}

#[test]
fn body_without_content_length() {
    let req_bytes = b"POST /submit HTTP/1.1\r\nHost: localhost:42069\r\n\r\nHello, world!";
    let result = request_from_chunks(req_bytes, 5).expect("Failed to parse request");

    assert_eq!(result.body, b"");
}

#[test]
fn request_line_alone_parses() {
    let (line, used) = minihttp::request::parse_request_line(b"GET /coffee HTTP/1.1\r\n")
        .expect("Failed to parse request line");
    let line = line.expect("request line should be complete");

    assert_eq!(used, 22);
    assert_eq!(line.method, RequestMethod::Get);
    assert_eq!(line.request_target, "/coffee");
    assert_eq!(line.http_version, "1.1");
}

#[test]
fn request_line_without_crlf_consumes_nothing() {
    let (line, used) =
        minihttp::request::parse_request_line(b"GET /coffee HTTP/1.1").expect("should wait");

    assert!(line.is_none());
    assert_eq!(used, 0);
}

#[test]
fn request_line_error_kinds() {
    assert_eq!(
        minihttp::request::parse_request_line(b"GET / HTTP/1.1 extra\r\n").unwrap_err(),
        ParseError::MalformedRequestLine
    );
    assert_eq!(
        minihttp::request::parse_request_line(b"FETCH /x HTTP/1.1\r\n").unwrap_err(),
        ParseError::InvalidMethod
    );
    assert_eq!(
        minihttp::request::parse_request_line(b"GET /x HTTP/2.0\r\n").unwrap_err(),
        ParseError::UnsupportedHttpVersion
    );
    assert_eq!(
        minihttp::request::parse_request_line(b"GET /x FTP/1.1\r\n").unwrap_err(),
        ParseError::UnsupportedHttpVersion
    );
}

#[test]
fn method_names() {
    assert_eq!(RequestMethod::from_str("GET"), Some(RequestMethod::Get));
    assert_eq!(RequestMethod::from_str("POST"), Some(RequestMethod::Post));
    assert_eq!(RequestMethod::from_str("PUT"), Some(RequestMethod::Put));
    assert_eq!(
        RequestMethod::from_str("DELETE"),
        Some(RequestMethod::Delete)
    );
    assert_eq!(RequestMethod::from_str("get"), None);
    assert_eq!(RequestMethod::from_str("FETCH"), None);
}

#[test]
fn content_length_values() {
    assert_eq!(minihttp::request::parse_content_length("13"), Some(13));
    assert_eq!(minihttp::request::parse_content_length("+5"), Some(5));
    assert_eq!(minihttp::request::parse_content_length("0"), Some(0));
    assert_eq!(minihttp::request::parse_content_length("abc"), None);
    assert_eq!(minihttp::request::parse_content_length(""), None);
    assert_eq!(minihttp::request::parse_content_length("+"), None);
    assert_eq!(minihttp::request::parse_content_length("12x"), None);
    assert_eq!(
        minihttp::request::parse_content_length("99999999999999999999999999"),
        None
    );
}

#[test]
fn line_longer_than_buffer_fails_explicitly() {
    // A request line that can never fit the read buffer must fail rather
    // than stall forever.
    let mut data = vec![b'G', b'E', b'T', b' ', b'/'];
    while data.len() < 2000 {
        data.push(b'a');
    }
    let result = request_from_chunks(&data, 100);

    assert_eq!(result.unwrap_err(), ParseError::LineTooLong);
}
