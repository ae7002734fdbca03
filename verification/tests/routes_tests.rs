use httpwire::request::{Error, ReadEvent, ReadProgress, Request, BUFFER_SIZE};
use httpwire::router::{file_read_response, file_write_response, route, RoutePlan};

fn respond(input: &[u8]) -> Vec<u8> {
    let request = Request::decode(input).unwrap();
    match route(&request) {
        RoutePlan::Respond(response) => response.encode(),
        _ => panic!("expected a ready response"),
    }
}

#[test]
fn get_known_request_target_returns_200() {
    assert_eq!(
        respond(b"GET / HTTP/1.1\r\n\r\n"),
        b"HTTP/1.1 200 OK\r\n\r\n"
    );
}

#[test]
fn getting_invalid_request_target_returns_404() {
    assert_eq!(
        respond(b"GET /not_found HTTP/1.1\r\n\r\n"),
        b"HTTP/1.1 404 Not Found\r\n\r\n"
    );
}

#[test]
fn get_echo_returns_200() {
    assert_eq!(
        respond(b"GET /echo/rust HTTP/1.1\r\n\r\n"),
        &b"HTTP/1.1 200 OK\r\nContent-Type: text/plain\r\nContent-Length: 4\r\n\r\nrust"[..]
    );
}

#[test]
fn method_not_supported_is_unimplemented() {
    let input = b"BOOM / HTTP/1.1\r\n\r\n";
    let result = Request::decode(&input[..]);
    assert!(result.is_err());
    assert_eq!(result.unwrap_err(), Error::UnsupportedMethod);
}

#[test]
fn get_user_agent_returns_200() {
    assert_eq!(
        respond(b"GET /user-agent HTTP/1.1\r\nUser-Agent: rust\r\n\r\n"),
        &b"HTTP/1.1 200 OK\r\nContent-Type: text/plain\r\nContent-Length: 4\r\n\r\nrust"[..]
    );
}

#[test]
fn get_user_agent_returns_400() {
    assert_eq!(
        respond(b"GET /user-agent HTTP/1.1\r\n\r\n"),
        b"HTTP/1.1 400 Bad Request\r\n\r\n"
    );
}

#[test]
fn get_missing_file_404() {
    let input_1 = b"GET /files/random12345 HTTP/1.1\r";
    let input_2 = b"\n\r\n";

    let mut buf = Vec::new();
    let step = httpwire::request::recv_step(&mut buf, ReadEvent::Data(input_1.to_vec()), BUFFER_SIZE);
    assert_eq!(step, Ok(ReadProgress::Continue));
    let step = httpwire::request::recv_step(&mut buf, ReadEvent::Data(input_2.to_vec()), BUFFER_SIZE);
    assert_eq!(step, Ok(ReadProgress::Done));

    let request = Request::decode(buf.as_slice()).unwrap();
    let output = match route(&request) {
        RoutePlan::ReadFile(name) => {
            assert_eq!(name, b"random12345".to_vec());
            // the named file cannot be read
            file_read_response(None).encode()
        }
        _ => panic!("expected a file read"),
    };
    assert_eq!(output, b"HTTP/1.1 404 Not Found\r\n\r\n");
}

#[test]
fn get_valid_file_200() {
    let request = Request::decode(b"GET /files/.gitattributes HTTP/1.1\r\n\r\n").unwrap();
    let output = match route(&request) {
        RoutePlan::ReadFile(name) => {
            assert_eq!(name, b".gitattributes".to_vec());
            file_read_response(Some(b"* text=auto\n".to_vec())).encode()
        }
        _ => panic!("expected a file read"),
    };
    assert_eq!(
        output,
        &b"HTTP/1.1 200 OK\r\nContent-Type: application/octet-stream\r\nContent-Length: 12\r\n\r\n* text=auto\n"[..]
    );
}

#[test]
fn post_file_201() {
    let input =
        b"POST /files/junk HTTP/1.1\r\nContent-Type: application/octet-stream\r\nContent-Length: 12\r\n\r\nRust";
    let request = Request::decode(&input[..]).unwrap();
    let output = match route(&request) {
        RoutePlan::WriteFile(name, contents) => {
            assert_eq!(name, b"junk".to_vec());
            assert_eq!(contents, b"Rust".to_vec());
            file_write_response().encode()
        }
        _ => panic!("expected a file write"),
    };
    assert_eq!(output, b"HTTP/1.1 201 Created\r\n\r\n");
}

#[test]
fn echo_with_gzip() {
    assert_eq!(
        respond(b"GET /echo/rust HTTP/1.1\r\nAccept-Encoding: gzip\r\n\r\n"),
        &b"HTTP/1.1 200 OK\r\nContent-Encoding: gzip\r\nContent-Type: text/plain\r\nContent-Length: 4\r\n\r\nrust"[..]
    );
}

#[test]
fn echo_with_unsupported_encoding() {
    assert_eq!(
        respond(b"GET /echo/rust HTTP/1.1\r\nAccept-Encoding: br\r\n\r\n"),
        &b"HTTP/1.1 200 OK\r\nContent-Type: text/plain\r\nContent-Length: 4\r\n\r\nrust"[..]
    );
}

#[test]
fn post_without_trailing_slash_is_not_a_file_route() {
    assert_eq!(
        respond(b"POST /files HTTP/1.1\r\n\r\n"),
        b"HTTP/1.1 404 Not Found\r\n\r\n"
    );
}

#[test]
fn echo_of_empty_suffix() {
    assert_eq!(
        respond(b"GET /echo/ HTTP/1.1\r\n\r\n"),
        &b"HTTP/1.1 200 OK\r\nContent-Type: text/plain\r\nContent-Length: 0\r\n\r\n"[..]
    );
}
