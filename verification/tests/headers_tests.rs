use minihttp::Headers;

#[test]
fn valid_single_header() {
    let mut headers = Headers::new();
    let data = b"Host: localhost:42069\r\n\r\n";

    let result = headers.parse(data);
    let (done, n) = result.unwrap();

    assert!(!headers.is_empty());
    assert_eq!(headers.get("host"), Some(&"localhost:42069".to_string()));
    assert_eq!(n, 25);
    assert!(done);
}

#[test]
fn invalid_spacing_header() {
    let mut headers = Headers::new();
    let data = b"       Host : localhost:42069       \r\n\r\n";

    let result = headers.parse(data);

    assert!(result.is_err());
}

#[test]
fn valid_single_header_with_spaces() {
    let mut headers = Headers::new();
    let data = b"     Host:    localhost:42069    \r\n\r\n";

    let result = headers.parse(data);
    let (done, n) = result.unwrap();

    assert!(!headers.is_empty());
    assert_eq!(headers.get("host"), Some(&"localhost:42069".to_string()));
    assert_eq!(n, 37);
    assert!(done);
}

#[test]
fn valid_two_headers() {
    let mut headers = Headers::new();
    let data = b"Host: localhost:42069\r\nUser-Agent: TestAgent\r\n\r\n";

    let result = headers.parse(data);
    let (done, n) = result.unwrap();

    assert!(!headers.is_empty());
    assert_eq!(headers.get("host"), Some(&"localhost:42069".to_string()));
    assert_eq!(headers.get("user-agent"), Some(&"TestAgent".to_string()));
    assert_eq!(n, 48);
    assert!(done);
}

#[test]
fn valid_two_header_with_existing_headers() {
    let mut headers = Headers::new();
    headers.set("existing", "Header");
    let data = b"Host: localhost:42069\r\nUser-Agent: TestAgent\r\n\r\n";

    let result = headers.parse(data);
    let (done, n) = result.unwrap();

    assert!(!headers.is_empty());
    assert_eq!(headers.get("existing"), Some(&"Header".to_string()));
    assert_eq!(headers.get("host"), Some(&"localhost:42069".to_string()));
    assert_eq!(headers.get("user-agent"), Some(&"TestAgent".to_string()));
    assert_eq!(n, 48);
    assert!(done);
}

#[test]
fn capital_header_names() {
    let mut headers = Headers::new();
    let data = b"hOsT: localhost:42069\r\nuSeR-aGeNt: TestAgent\r\n\r\n";

    let result = headers.parse(data);
    let (done, n) = result.unwrap();

    assert!(!headers.is_empty());
    assert_eq!(headers.get("host"), Some(&"localhost:42069".to_string()));
    assert_eq!(headers.get("user-agent"), Some(&"TestAgent".to_string()));
    assert_eq!(n, 48);
    assert!(done);
}

#[test]
fn multiple_values_for_single_header() {
    let mut headers = Headers::new();
    let data = b"Cookie: value1\r\nCookie: value2\r\n\r\n";

    let result = headers.parse(data);
    let (done, n) = result.unwrap();

    assert!(!headers.is_empty());
    assert_eq!(headers.get("cookie"), Some(&"value1, value2".to_string()));
    assert_eq!(n, 34);
    assert!(done);
}

#[test]
fn missing_ending_crlf() {
    let mut headers = Headers::new();
    let data = b"Host: localhost:42069\r\nUser-Agent: TestAgent\r\n";

    let result = headers.parse(data);
    let (done, n) = result.unwrap();

    assert!(!headers.is_empty());
    assert_eq!(headers.get("host"), Some(&"localhost:42069".to_string()));
    assert_eq!(headers.get("user-agent"), Some(&"TestAgent".to_string()));
    assert_eq!(n, 46);
    assert!(!done);
}

#[test]
fn get_ignores_ascii_case() {
    let mut headers = Headers::new();
    headers.set("Host", "localhost:42069");

    assert_eq!(headers.get("Host"), Some(&"localhost:42069".to_string()));
    assert_eq!(headers.get("host"), Some(&"localhost:42069".to_string()));
    assert_eq!(headers.get("HOST"), Some(&"localhost:42069".to_string()));
    assert_eq!(headers.get("Host"), headers.get("host"));
    assert_eq!(headers.get("host"), headers.get("HOST"));
}

#[test]
fn field_name_outside_token_charset() {
    let mut headers = Headers::new();
    // '(' is not in the token character set.
    let data = b"Ho(st: localhost\r\n\r\n";

    let result = headers.parse(data);

    assert!(result.is_err());
    assert_eq!(result.unwrap_err(), minihttp::ParseError::MalformedHeader);
}

#[test]
fn line_without_colon() {
    let mut headers = Headers::new();
    let data = b"Host localhost:42069\r\n\r\n";

    let result = headers.parse(data);

    assert!(result.is_err());
    assert_eq!(result.unwrap_err(), minihttp::ParseError::MalformedHeader);
}

#[test]
fn header_block_fed_byte_by_byte() {
    // The block parser must come out the same whether it sees the block
    // whole or one byte at a time, with unconsumed bytes re-presented.
    let data = b"Host: localhost:42069\r\nCookie: value1\r\nCookie: value2\r\n\r\n";

    let mut whole = Headers::new();
    let (done_whole, n_whole) = whole.parse(data).unwrap();
    assert!(done_whole);
    assert_eq!(n_whole, data.len());

    let mut piecewise = Headers::new();
    let mut pending: Vec<u8> = Vec::new();
    let mut fed = 0usize;
    let mut done = false;
    let mut consumed_total = 0usize;
    while !done {
        assert!(fed < data.len(), "ran out of input before the block ended");
        pending.push(data[fed]);
        fed += 1;
        let (d, used) = piecewise.parse(&pending).unwrap();
        done = d;
        consumed_total += used;
        pending.drain(..used);
    }
    assert_eq!(consumed_total, data.len());
    assert_eq!(
        piecewise.get("host"),
        Some(&"localhost:42069".to_string())
    );
    assert_eq!(piecewise.get("cookie"), Some(&"value1, value2".to_string()));
    assert_eq!(piecewise.get("cookie"), whole.get("cookie"));
    assert_eq!(piecewise.get("host"), whole.get("host"));
}

#[test]
fn serialize_lists_entries_and_blank_line() {
    let mut headers = Headers::new();
    headers.set("Host", "localhost:42069");
    headers.set("Accept", "*/*");

    let wire = headers.serialize();

    assert_eq!(wire, "host: localhost:42069\r\naccept: */*\r\n\r\n");
}

#[test]
fn for_each_visits_every_entry() {
    let mut headers = Headers::new();
    headers.set("Host", "localhost:42069");
    headers.set("Accept", "*/*");

    let count = std::cell::Cell::new(0usize);
    headers.for_each(|_k: &String, _v: &String| {
        count.set(count.get() + 1);
    });

    assert_eq!(count.get(), 2);
}
