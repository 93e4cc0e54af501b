use minihttp::response::{
    default_header_block, get_default_headers, response_head, status_line, u16_to_string,
};
use minihttp::server::compose_response;
use minihttp::{HandlerError, ParseError, StatusCode};

#[test]
fn status_lines_exact() {
    assert_eq!(status_line(StatusCode::Okay), "HTTP/1.1 200 Ok\r\n");
    assert_eq!(status_line(StatusCode::BadRequest), "HTTP/1.1 400 Bad Request\r\n");
    assert_eq!(
        status_line(StatusCode::InternalServerError),
        "HTTP/1.1 500 Internal Server Error\r\n"
    );
}

#[test]
fn status_code_numbers() {
    assert_eq!(StatusCode::Okay.code(), 200);
    assert_eq!(StatusCode::BadRequest.code(), 400);
    assert_eq!(StatusCode::InternalServerError.code(), 500);
}

#[test]
fn decimal_rendering() {
    assert_eq!(u16_to_string(0), "0");
    assert_eq!(u16_to_string(7), "7");
    assert_eq!(u16_to_string(15), "15");
    assert_eq!(u16_to_string(200), "200");
    assert_eq!(u16_to_string(65535), "65535");
}

#[test]
fn default_headers_content() {
    let headers = get_default_headers(13);

    assert_eq!(headers.get("content-length"), Some(&"13".to_string()));
    assert_eq!(headers.get("Content-Length"), Some(&"13".to_string()));
    assert_eq!(headers.get("connection"), Some(&"close".to_string()));
    assert_eq!(headers.get("content-type"), Some(&"text/plain".to_string()));
}

#[test]
fn default_header_block_exact() {
    assert_eq!(
        default_header_block(15),
        "content-length: 15\r\nconnection: close\r\ncontent-type: text/plain\r\n\r\n"
    );
}

#[test]
fn handler_success_yields_200_with_drained_bytes() {
    // The handler wrote its bytes into the pipe and returned no error:
    // the client sees 200 and exactly those bytes.
    let drained = b"All Good! frfr\n".to_vec();
    let (status, body) = compose_response(None, drained);

    assert_eq!(status, StatusCode::Okay);
    assert_eq!(body, b"All Good! frfr\n");

    let head = response_head(status, body.len() as u16);
    assert!(head.starts_with("HTTP/1.1 200 Ok\r\n"));
    assert_eq!(
        head,
        "HTTP/1.1 200 Ok\r\ncontent-length: 15\r\nconnection: close\r\ncontent-type: text/plain\r\n\r\n"
    );
}

#[test]
fn handler_error_yields_its_status_and_message() {
    // The handler signaled a failure: its status and message make up the
    // response, and whatever it wrote beforehand is discarded.
    let drained = b"half-written output".to_vec();
    let outcome = Some(HandlerError {
        status_code: StatusCode::InternalServerError,
        message: "Your problem is too complex.".to_string(),
    });
    let (status, body) = compose_response(outcome, drained);

    assert_eq!(status, StatusCode::InternalServerError);
    assert_eq!(body, b"Your problem is too complex.");

    let head = response_head(status, body.len() as u16);
    assert!(head.starts_with("HTTP/1.1 500 Internal Server Error\r\n"));
    assert_eq!(
        head,
        "HTTP/1.1 500 Internal Server Error\r\ncontent-length: 28\r\nconnection: close\r\ncontent-type: text/plain\r\n\r\n"
    );
}

#[test]
fn parse_error_messages() {
    assert_eq!(
        ParseError::MalformedRequestLine.message(),
        "Malformed Request Line"
    );
    assert_eq!(ParseError::InvalidMethod.message(), "Invalid Request Method");
    assert_eq!(
        ParseError::UnsupportedHttpVersion.message(),
        "Unsupported HTTP Version"
    );
    assert_eq!(ParseError::MalformedHeader.message(), "Malformed Header");
    assert_eq!(
        ParseError::MalformedContentLength.message(),
        "Malformed Content-Length Header"
    );
    assert_eq!(ParseError::LineTooLong.message(), "Line Too Long");
}
