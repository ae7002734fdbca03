use httpwire::request::{Error, Method, ReadEvent, ReadProgress, Request, BUFFER_SIZE};

#[test]
fn it_works() {
    let input = b"GET / HTTP/1.1\r\nUser-Agent: Rust\r\n\r\n";
    let result = Request::decode(&input[..]).unwrap();

    assert_eq!(result.method, Method::Get);
    assert_eq!(result.target, b"/".to_vec());
    assert_eq!(result.headers.get(b"user-agent"), Some(&b"Rust".to_vec()));
}

#[test]
fn empty_request() {
    let input = b"";
    let result = Request::decode(&input[..]);

    assert!(result.is_err());
    assert_eq!(result.unwrap_err(), Error::MissingRequestLine);
}

#[test]
fn missing_method() {
    let input = b"\r\n";
    let result = Request::decode(&input[..]);

    assert!(result.is_err());
    assert_eq!(result.unwrap_err(), Error::MissingHTTPMethod);
}

#[test]
fn missing_target() {
    let input = b"GET\r\n";
    let result = Request::decode(&input[..]);

    assert!(result.is_err());
    assert_eq!(result.unwrap_err(), Error::MissingRequestTarget);
}

#[test]
fn missing_version() {
    let input = b"GET /\r\n";
    let result = Request::decode(&input[..]);

    assert!(result.is_err());
    assert_eq!(result.unwrap_err(), Error::MissingHTTPVersion);
}

#[test]
fn invalid_version() {
    let input = b"GET / HTTP/1.0\r\n";
    let result = Request::decode(&input[..]);

    assert!(result.is_err());
    assert_eq!(result.unwrap_err(), Error::UnsupportedHTTPVersion);
}

#[test]
fn invalid_method() {
    let input = b"DANCE / HTTP/1.1\r\n";
    let result = Request::decode(&input[..]);

    assert!(result.is_err());
    assert_eq!(result.unwrap_err(), Error::UnsupportedMethod);
}

#[test]
fn invalid_header() {
    let input = b"GET / HTTP/1.1\r\nBad Header\r\n\r\n";
    let result = Request::decode(&input[..]);

    assert!(result.is_err());
    assert_eq!(result.unwrap_err(), Error::InvalidHeader);
}

#[test]
fn header_value_with_colon() {
    let input = b"GET / HTTP/1.1\r\nHost: localhost:7878\r\n\r\n";
    let result = Request::decode(&input[..]).unwrap();

    assert_eq!(result.headers.get(b"host"), Some(&b"localhost:7878".to_vec()));
}

#[test]
fn method_tokens_decode() {
    assert_eq!(Method::decode(b"GET"), Ok(Method::Get));
    assert_eq!(Method::decode(b"POST"), Ok(Method::Post));
    assert_eq!(Method::decode(b"get"), Err(Error::UnsupportedMethod));
    assert_eq!(Method::decode(b""), Err(Error::UnsupportedMethod));
}

#[test]
fn header_names_are_lowercased_and_values_trimmed() {
    let input = b"GET / HTTP/1.1\r\nX-FOO:   Bar  \r\n\r\n";
    let result = Request::decode(&input[..]).unwrap();

    assert_eq!(result.headers.get(b"x-foo"), Some(&b"Bar".to_vec()));
    assert_eq!(result.headers.get(b"X-FOO"), None);
}

#[test]
fn repeated_header_keeps_last_value() {
    let input = b"GET / HTTP/1.1\r\nX-Foo: one\r\nX-Foo: two\r\n\r\n";
    let result = Request::decode(&input[..]).unwrap();

    assert_eq!(result.headers.get(b"x-foo"), Some(&b"two".to_vec()));
}

#[test]
fn extra_spaces_between_tokens_still_parse() {
    let input = b"GET   /   HTTP/1.1\r\n\r\n";
    let result = Request::decode(&input[..]).unwrap();

    assert_eq!(result.method, Method::Get);
    assert_eq!(result.target, b"/".to_vec());
}

#[test]
fn post_round_trips_method_and_target() {
    let input = b"POST /files/notes HTTP/1.1\r\n\r\n";
    let result = Request::decode(&input[..]).unwrap();

    assert_eq!(result.method, Method::Post);
    assert_eq!(result.target, b"/files/notes".to_vec());
}

#[test]
fn body_after_header_block_is_kept() {
    let input = b"POST /files/junk HTTP/1.1\r\nContent-Length: 4\r\n\r\nRust";
    let result = Request::decode(&input[..]).unwrap();

    assert_eq!(result.body, Some(b"Rust".to_vec()));
}

#[test]
fn no_trailing_bytes_means_no_body() {
    let input = b"GET / HTTP/1.1\r\nHost: x\r\n\r\n";
    let result = Request::decode(&input[..]).unwrap();

    assert_eq!(result.body, None);
}

#[test]
fn accumulation_continues_on_full_chunks() {
    let mut buf = Vec::new();
    let chunk = vec![b'a'; BUFFER_SIZE];
    let step = httpwire::request::recv_step(&mut buf, ReadEvent::Data(chunk), BUFFER_SIZE);
    assert_eq!(step, Ok(ReadProgress::Continue));

    let step = httpwire::request::recv_step(&mut buf, ReadEvent::Data(b"bc".to_vec()), BUFFER_SIZE);
    assert_eq!(step, Ok(ReadProgress::Done));
    assert_eq!(buf.len(), BUFFER_SIZE + 2);

    let mut closed = Vec::new();
    let step = httpwire::request::recv_step(&mut closed, ReadEvent::Data(Vec::new()), BUFFER_SIZE);
    assert_eq!(step, Ok(ReadProgress::Done));
    assert!(closed.is_empty());
}

#[test]
fn timeout_aborts_accumulation() {
    let mut buf = b"partial".to_vec();
    let step = httpwire::request::recv_step(&mut buf, ReadEvent::Timeout, BUFFER_SIZE);
    assert_eq!(step, Err(Error::RequestTimeout));
    assert_eq!(buf, b"partial".to_vec());
}
