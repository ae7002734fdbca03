use httpwire::http::Header;
use std::collections::HashSet;

#[test]
fn duplicate_headers_are_not_allowed() {
    let mut headers = HashSet::new();
    headers.insert(Header::ContentType(b"type1".to_vec()));
    headers.insert(Header::ContentType(b"type2".to_vec()));
    headers.insert(Header::Custom(b"x-server".to_vec(), b"unknown".to_vec()));
    headers.insert(Header::Custom(b"x-server".to_vec(), b"rust".to_vec()));

    assert!(headers.contains(&Header::ContentType(b"type2".to_vec())));
    assert!(headers.contains(&Header::Custom(b"x-server".to_vec(), b"rust".to_vec())));
}

#[test]
fn should_not_be_equal() {
    let header1 = Header::ContentType(b"type".to_vec());
    let header2 = Header::Custom(b"x-type".to_vec(), b"value".to_vec());

    assert_ne!(header1, header2);
}

#[test]
fn name_and_value_of_each_kind() {
    let ce = Header::ContentEncoding(b"gzip".to_vec());
    assert_eq!(ce.name(), b"Content-Encoding".to_vec());
    assert_eq!(ce.value(), &b"gzip".to_vec());

    let ct = Header::ContentType(b"text/plain".to_vec());
    assert_eq!(ct.name(), b"Content-Type".to_vec());
    assert_eq!(ct.value(), &b"text/plain".to_vec());

    let cu = Header::Custom(b"x-server".to_vec(), b"rust".to_vec());
    assert_eq!(cu.name(), b"x-server".to_vec());
    assert_eq!(cu.value(), &b"rust".to_vec());
}

#[test]
fn same_kind_is_same_slot_whatever_the_value() {
    assert_eq!(
        Header::ContentEncoding(b"gzip".to_vec()),
        Header::ContentEncoding(b"br".to_vec())
    );
    assert_eq!(
        Header::ContentType(b"a".to_vec()),
        Header::ContentType(b"b".to_vec())
    );
    assert_ne!(
        Header::Custom(b"x-a".to_vec(), b"v".to_vec()),
        Header::Custom(b"x-b".to_vec(), b"v".to_vec())
    );
}
