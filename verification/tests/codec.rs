use reactor_http::client::Client;
use reactor_http::http_parse::{
    decode_request, encode_response, usize_digits, ParseBytes, ParseString, Request, Response,
};
use reactor_http::ErrKind;

fn req_bytes(s: &str) -> Vec<u8> {
    s.as_bytes().to_vec()
}

#[test]
fn decode_simple_get() {
    let r = decode_request(&req_bytes("GET /index.html HTTP/1.1\r\nHost: localhost\r\n\r\n"))
        .unwrap();
    assert_eq!(r.method, b"GET".to_vec());
    assert_eq!(r.path, b"/index.html".to_vec());
    assert_eq!(r.headers.len(), 1);
    assert_eq!(r.headers[0].name, b"Host".to_vec());
    assert_eq!(r.headers[0].value, b"localhost".to_vec());
    assert!(r.body.is_empty());
}

#[test]
fn decode_request_with_body() {
    let r = decode_request(&req_bytes(
        "POST /upload HTTP/1.1\r\nUser-Agent: python-requests/2.31.0\r\n\r\n42",
    ))
    .unwrap();
    assert_eq!(r.method, b"POST".to_vec());
    assert_eq!(r.path, b"/upload".to_vec());
    assert_eq!(r.headers.len(), 1);
    assert_eq!(r.body, b"42".to_vec());
}

#[test]
fn decode_body_may_contain_line_breaks() {
    let r = decode_request(&req_bytes("GET / HTTP/1.1\r\n\r\nline1\r\nline2")).unwrap();
    assert_eq!(r.body, b"line1\r\nline2".to_vec());
    assert_eq!(r.headers.len(), 0);
}

#[test]
fn decode_malformed_request_line() {
    let r = decode_request(&req_bytes("GEThello\r\n\r\n"));
    assert_eq!(r.unwrap_err(), ErrKind::MalformedRequest);
    let r = decode_request(&req_bytes("GET / HTTP/1.1 extra\r\n\r\n"));
    assert_eq!(r.unwrap_err(), ErrKind::MalformedRequest);
}

#[test]
fn decode_header_without_separator() {
    let r = decode_request(&req_bytes("GET / HTTP/1.1\r\nBadHeader\r\n\r\n"));
    assert_eq!(r.unwrap_err(), ErrKind::MalformedRequest);
}

#[test]
fn decode_without_blank_line() {
    let r = decode_request(&req_bytes("GET / HTTP/1.1\r\nHost: x")).unwrap();
    assert_eq!(r.path, b"/".to_vec());
    assert_eq!(r.headers.len(), 1);
    assert_eq!(r.headers[0].value, b"x".to_vec());
    assert!(r.body.is_empty());
}

#[test]
fn found_blob_yields_exact_200() {
    let r = Client::build_response(Some(b"hi".to_vec()));
    assert_eq!(r.status, 200);
    assert_eq!(r.headers.len(), 1);
    assert_eq!(r.headers[0].name, b"Content-Length".to_vec());
    assert_eq!(r.headers[0].value, b"2".to_vec());
    assert_eq!(r.body, b"hi".to_vec());
    let bytes = encode_response(&r);
    assert_eq!(bytes, b"HTTP/1.1 200 OK\r\nContent-Length: 2\r\n\r\nhi".to_vec());
}

#[test]
fn missing_blob_yields_empty_404() {
    let r = Client::build_response(None);
    assert_eq!(r.status, 404);
    assert_eq!(r.headers.len(), 1);
    assert_eq!(r.headers[0].name, b"Content-Length".to_vec());
    assert_eq!(r.headers[0].value, b"0".to_vec());
    assert!(r.body.is_empty());
    let bytes = encode_response(&r);
    assert_eq!(bytes, b"HTTP/1.1 404 Not Found\r\nContent-Length: 0\r\n\r\n".to_vec());
}

#[test]
fn content_length_matches_body_length() {
    let r = Client::build_response(Some(vec![7u8; 1234]));
    assert_eq!(r.headers[0].value, b"1234".to_vec());
    assert_eq!(r.body.len(), 1234);
}

#[test]
fn decimal_digits_exact() {
    assert_eq!(usize_digits(0), b"0".to_vec());
    assert_eq!(usize_digits(7), b"7".to_vec());
    assert_eq!(usize_digits(10), b"10".to_vec());
    assert_eq!(usize_digits(1234567890), b"1234567890".to_vec());
}

#[test]
fn codec_traits_agree_with_free_functions() {
    let buf: Vec<u8> = req_bytes("GET /a HTTP/1.1\r\nK: v\r\n\r\n");
    let via_trait: Result<Request, ErrKind> = buf.parse_to_struct();
    let req = via_trait.unwrap();
    assert_eq!(req.path, b"/a".to_vec());

    let resp = Client::build_response(Some(b"x".to_vec()));
    let expected = encode_response(&resp);
    let resp2 = Client::build_response(Some(b"x".to_vec()));
    let via_trait_bytes = resp2.parse_to_bytes();
    assert_eq!(via_trait_bytes, expected);
}

#[test]
fn string_decodes_like_bytes() {
    let s: String = "GET /b HTTP/1.1\r\nK: v\r\n\r\n".to_string();
    let from_string: Result<Request, ErrKind> = s.parse_to_struct();
    let from_bytes = decode_request(&req_bytes("GET /b HTTP/1.1\r\nK: v\r\n\r\n")).unwrap();
    let req = from_string.unwrap();
    assert_eq!(req.method, from_bytes.method);
    assert_eq!(req.path, from_bytes.path);
    assert_eq!(req.headers.len(), from_bytes.headers.len());
    assert_eq!(req.body, from_bytes.body);
}

#[test]
fn encode_keeps_header_insertion_order() {
    let resp = Response {
        status: 200,
        headers: vec![
            reactor_http::http_parse::Header { name: b"B".to_vec(), value: b"2".to_vec() },
            reactor_http::http_parse::Header { name: b"A".to_vec(), value: b"1".to_vec() },
        ],
        body: Vec::new(),
    };
    let bytes = encode_response(&resp);
    assert_eq!(bytes, b"HTTP/1.1 200 OK\r\nB: 2\r\nA: 1\r\n\r\n".to_vec());
}
