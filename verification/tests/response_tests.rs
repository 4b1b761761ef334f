use browservoy::response::Response;
use browservoy::{FetchError, ProtocolError};

#[test]
fn parse_full_response() {
    let text = "HTTP/1.1 200 OK\r\nContent-Type: text/html\r\nServer: demo\r\n\r\n<html>hi</html>";
    let response = Response::parse(text).unwrap();

    assert_eq!(response.version, "HTTP/1.1");
    assert_eq!(response.status_code, 200);
    assert_eq!(response.explanation, "OK");
    assert_eq!(
        response.header("content-type"),
        Some(&"text/html".to_string())
    );
    assert_eq!(response.header("server"), Some(&"demo".to_string()));
    assert_eq!(response.header("absent"), None);
    assert_eq!(response.body, "<html>hi</html>");
}

#[test]
fn body_lines_are_rejoined_with_crlf() {
    let text = "HTTP/1.1 200 OK\r\n\r\nline one\nline two\r\nline three";
    let response = Response::parse(text).unwrap();

    assert_eq!(response.body, "line one\r\nline two\r\nline three");
}

#[test]
fn header_names_are_lowercased_and_last_value_wins() {
    let text = "HTTP/1.1 200 OK\r\nX-Thing: first\r\nx-THING: second\r\n\r\n";
    let response = Response::parse(text).unwrap();

    assert_eq!(response.header("x-thing"), Some(&"second".to_string()));
}

#[test]
fn header_line_without_separator_is_dropped() {
    let text = "HTTP/1.1 200 OK\r\nnot-a-header\r\nGood: yes\r\n\r\n";
    let response = Response::parse(text).unwrap();

    assert_eq!(response.header("good"), Some(&"yes".to_string()));
    assert_eq!(response.header("not-a-header"), None);
}

#[test]
fn multiword_reason_keeps_first_word_only() {
    let text = "HTTP/1.1 404 Not Found\r\n\r\n";
    let response = Response::parse(text).unwrap();

    assert_eq!(response.status_code, 404);
    assert_eq!(response.explanation, "Not");
}

#[test]
fn transfer_encoding_is_rejected() {
    let text = "HTTP/1.1 200 OK\r\nTransfer-Encoding: chunked\r\n\r\n";
    assert!(matches!(
        Response::parse(text),
        Err(FetchError::Protocol(ProtocolError::UnsupportedTransferEncoding))
    ));

    let mixed = "HTTP/1.1 200 OK\r\ntRANSFER-eNCODING: chunked\r\n\r\n";
    assert!(matches!(
        Response::parse(mixed),
        Err(FetchError::Protocol(ProtocolError::UnsupportedTransferEncoding))
    ));
}

#[test]
fn content_encoding_is_rejected() {
    let text = "HTTP/1.1 200 OK\r\nContent-Encoding: gzip\r\n\r\nbody";
    assert!(matches!(
        Response::parse(text),
        Err(FetchError::Protocol(ProtocolError::UnsupportedContentEncoding))
    ));
}

#[test]
fn status_line_errors_are_reported_in_order() {
    assert!(matches!(
        Response::parse(""),
        Err(FetchError::Protocol(ProtocolError::MissingStatus))
    ));
    assert!(matches!(
        Response::parse("\r\nrest"),
        Err(FetchError::Protocol(ProtocolError::MissingVersion))
    ));
    assert!(matches!(
        Response::parse("HTTP/1.1\r\n\r\n"),
        Err(FetchError::Protocol(ProtocolError::MissingStatusCode))
    ));
    assert!(matches!(
        Response::parse("HTTP/1.1 abc OK\r\n\r\n"),
        Err(FetchError::Protocol(ProtocolError::InvalidStatusCode))
    ));
    assert!(matches!(
        Response::parse("HTTP/1.1 99999 OK\r\n\r\n"),
        Err(FetchError::Protocol(ProtocolError::InvalidStatusCode))
    ));
    assert!(matches!(
        Response::parse("HTTP/1.1 200\r\n\r\n"),
        Err(FetchError::Protocol(ProtocolError::MissingExplanation))
    ));
}

#[test]
fn render_body_strips_tags() {
    let text = "HTTP/1.1 200 OK\r\n\r\na<b>c</b>d";
    let response = Response::parse(text).unwrap();

    assert_eq!(response.render_body(), "acd");
}
