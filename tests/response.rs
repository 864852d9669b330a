use web_server::{render_response, route};

#[test]
fn root_request_gets_hello_page() {
    assert_eq!(route("GET / HTTP/1.1"), ("HTTP/1.1 200 OK", "hello.html"));
}

#[test]
fn other_requests_get_not_found() {
    assert_eq!(route("GET /sleep HTTP/1.1"), ("HTTP/1.1 404 NOT FOUND", "404.html"));
    assert_eq!(route("GET / HTTP/1.0"), ("HTTP/1.1 404 NOT FOUND", "404.html"));
    assert_eq!(route(""), ("HTTP/1.1 404 NOT FOUND", "404.html"));
}

#[test]
fn response_carries_length_and_body() {
    let r = render_response("HTTP/1.1 200 OK", "hello");
    assert_eq!(r, b"HTTP/1.1 200 OK\r\nContent-Length: 5\r\n\r\nhello".to_vec());
}

#[test]
fn response_length_counts_bytes_in_decimal() {
    let body = "x".repeat(1234);
    let r = render_response("HTTP/1.1 404 NOT FOUND", &body);
    let expected = format!("HTTP/1.1 404 NOT FOUND\r\nContent-Length: 1234\r\n\r\n{body}");
    assert_eq!(r, expected.into_bytes());
    let r = render_response("HTTP/1.1 200 OK", "\u{e9}");
    assert_eq!(r, "HTTP/1.1 200 OK\r\nContent-Length: 2\r\n\r\n\u{e9}".as_bytes().to_vec());
}

#[test]
fn empty_body_has_length_zero() {
    let r = render_response("HTTP/1.1 200 OK", "");
    assert_eq!(r, b"HTTP/1.1 200 OK\r\nContent-Length: 0\r\n\r\n".to_vec());
}
