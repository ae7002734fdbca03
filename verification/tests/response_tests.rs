use httpwire::http::Header;
use httpwire::response::{Response, StatusCode};

#[test]
fn it_returns_200_ok() {
    let response = Response::new(StatusCode::Okay).encode();
    let expected = b"HTTP/1.1 200 OK\r\n\r\n";

    assert_eq!(response, expected);
}

#[test]
fn it_returns_400_bad_request() {
    let response = Response::new(StatusCode::BadRequest).encode();
    let expected = b"HTTP/1.1 400 Bad Request\r\n\r\n";

    assert_eq!(response, expected);
}

#[test]
fn it_returns_404_not_found() {
    let response = Response::new(StatusCode::NotFound).encode();
    let expected = b"HTTP/1.1 404 Not Found\r\n\r\n";

    assert_eq!(response, expected);
}

#[test]
fn it_has_a_custom_header() {
    let mut response = Response::new(StatusCode::Okay);
    response.add_header(Header::Custom(b"abc".to_vec(), b"def".to_vec()));
    let response = response.encode();
    let expected = b"HTTP/1.1 200 OK\r\nabc: def\r\n\r\n";

    assert_eq!(response, expected);
}

#[test]
fn it_has_a_body() {
    let mut response = Response::new(StatusCode::Okay);
    response.add_header(Header::ContentType(b"text/plain".to_vec()));
    response.body(b"Hello, world!".to_vec());
    let response = response.encode();

    assert!(response.starts_with(b"HTTP/1.1 200 OK\r\n"));
    assert!(response.ends_with(b"\r\n\r\nHello, world!"));

    let contains_subslice = |needle: &[u8]| {
        response
            .windows(needle.len())
            .any(|window| window == needle)
    };
    assert!(contains_subslice(b"Content-Type: text/plain\r\n"));
    assert!(contains_subslice(b"Content-Length: 13\r\n"));
}

#[test]
fn it_returns_201_created() {
    let response = Response::new(StatusCode::Created).encode();
    let expected = b"HTTP/1.1 201 Created\r\n\r\n";

    assert_eq!(response, expected);
}

#[test]
fn content_length_matches_exact_body_length() {
    let mut response = Response::new(StatusCode::Okay);
    response.body(Vec::new());
    let encoded = response.encode();
    assert_eq!(encoded, b"HTTP/1.1 200 OK\r\nContent-Length: 0\r\n\r\n");

    let mut response = Response::new(StatusCode::Okay);
    response.body(vec![0u8; 1234]);
    let encoded = response.encode();
    let contains_subslice = |needle: &[u8]| {
        encoded
            .windows(needle.len())
            .any(|window| window == needle)
    };
    assert!(contains_subslice(b"Content-Length: 1234\r\n"));
}

#[test]
fn later_header_in_a_slot_wins() {
    let mut response = Response::new(StatusCode::Okay);
    response.add_header(Header::ContentType(b"text/html".to_vec()));
    response.add_header(Header::ContentType(b"text/plain".to_vec()));
    let encoded = response.encode();

    assert_eq!(encoded, b"HTTP/1.1 200 OK\r\nContent-Type: text/plain\r\n\r\n");
}

#[test]
fn headers_encode_in_slot_order() {
    let mut response = Response::new(StatusCode::Okay);
    response.add_header(Header::Custom(b"x-b".to_vec(), b"2".to_vec()));
    response.add_header(Header::Custom(b"x-a".to_vec(), b"1".to_vec()));
    response.add_header(Header::ContentType(b"text/plain".to_vec()));
    response.add_header(Header::ContentEncoding(b"gzip".to_vec()));
    let encoded = response.encode();

    assert_eq!(
        encoded,
        &b"HTTP/1.1 200 OK\r\nContent-Encoding: gzip\r\nContent-Type: text/plain\r\nx-a: 1\r\nx-b: 2\r\n\r\n"[..]
    );
}

#[test]
fn status_text_as_bytes() {
    assert_eq!(StatusCode::Okay.as_bytes(), b"200 OK".to_vec());
    assert_eq!(StatusCode::Created.as_bytes(), b"201 Created".to_vec());
    assert_eq!(StatusCode::NotFound.as_bytes(), b"404 Not Found".to_vec());
    assert_eq!(StatusCode::BadRequest.as_bytes(), b"400 Bad Request".to_vec());
}
