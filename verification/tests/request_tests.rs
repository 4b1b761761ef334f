use browservoy::request::Request;
use browservoy::response::Response;
use browservoy::url::Url;

#[test]
fn serialize_writes_the_fixed_wire_format() {
    let url = Url::new("http://example.org/index.html").unwrap();
    let request = Request::new(&url, "GET");

    let expected = "GET /index.html HTTP/1.1\r\nHost: example.org:80\r\nConnection: close\r\nUser-Agent: BrowserVoy\r\n\r\n";
    assert_eq!(request.as_text(), expected);
    assert_eq!(request.as_bytes(), expected.as_bytes().to_vec());
}

#[test]
fn serialize_uses_the_dial_target_with_port() {
    let url = Url::new("https://example.org:8443").unwrap();
    let request = Request::new(&url, "GET");

    let expected = "GET / HTTP/1.1\r\nHost: example.org:8443\r\nConnection: close\r\nUser-Agent: BrowserVoy\r\n\r\n";
    assert_eq!(request.as_text(), expected);
}

#[test]
fn request_then_echoed_response_round_trips() {
    let url = Url::new("https://example.org/page").unwrap();
    let request = Request::new(&url, "GET");
    let wire = request.as_text();
    assert!(wire.starts_with("GET /page HTTP/1.1\r\n"));

    // A peer that accepted that request echoes a well-formed response; the
    // parser recovers the status code and the headers exactly.
    let echoed =
        "HTTP/1.1 201 Created\r\ncontent-type: text/plain\r\nx-request-path: /page\r\n\r\nok";
    let response = Response::parse(echoed).unwrap();

    assert_eq!(response.status_code, 201);
    assert_eq!(
        response.header("content-type"),
        Some(&"text/plain".to_string())
    );
    assert_eq!(
        response.header("x-request-path"),
        Some(&"/page".to_string())
    );
    assert_eq!(response.body, "ok");
}
