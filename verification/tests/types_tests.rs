use dispatch_core::{
    bytes_eq, new_bytearray, new_none_bytearray, Body, BodyType, Error, HeaderValue,
    HeaderValueType, Headers, Method, RegisterOptions, ResponseCaptial, ResponseContent,
    ResponseUncheckHeaders, Version,
};

#[test]
fn empty_bytearray_constructors() {
    assert_eq!(new_bytearray(), Vec::<u8>::new());
    assert_eq!(new_none_bytearray(), Vec::<u8>::new());
    assert_eq!(new_none_bytearray().capacity(), 0);
}

#[test]
fn version_collects_bytes() {
    let mut v = Version::new();
    assert_eq!(v.version(), b"");
    v.push(b'1');
    v.push(b'.');
    v.push(b'1');
    assert_eq!(v.version(), b"1.1");
    assert_eq!(Version::default().version(), b"");
}

#[test]
fn default_options_and_method() {
    let o = RegisterOptions::default();
    assert_eq!(o.header_value_type, HeaderValueType::Utf8String);
    assert_eq!(o.body_type, BodyType::Utf8String);
    assert_eq!(Method::default(), Method::Unknown);
}

#[test]
fn response_defaults() {
    let c = ResponseCaptial::default();
    assert_eq!(c.version, b"HTTP/1.1".to_vec());
    assert_eq!(c.status, 200);
    assert_eq!(c.status_desc, b"OK".to_vec());
    let h = ResponseUncheckHeaders::default();
    assert_eq!(h.bytes, Vec::<u8>::new());
    let r: ResponseContent<u8> = ResponseContent::default();
    assert!(matches!(r.body, Body::ByteArray(b) if b.is_empty()));
}

#[test]
fn byte_keyed_headers_reject_duplicates() {
    let mut h: Headers<u8> = Headers::new();
    assert_eq!(
        h.insert_bytearray(b"host".to_vec(), HeaderValue::Utf8String("a".to_string())),
        Ok(())
    );
    // the same key again is refused, the first value kept
    assert_eq!(
        h.insert_bytearray(b"host".to_vec(), HeaderValue::Utf8String("b".to_string())),
        Err(Error::DuplicateKey)
    );
    match h.get_bytearray(b"host") {
        Some(HeaderValue::Utf8String(s)) => assert_eq!(s, "a"),
        _ => panic!("stored header value lost"),
    }
    assert!(h.get_bytearray(b"nope").is_none());
}

#[test]
fn indexed_headers_demand_sequential_inserts() {
    let mut h: Headers<u8> = Headers::new();
    assert_eq!(h.push_index(0, HeaderValue::Integer(10)), Ok(()));
    assert_eq!(h.push_index(1, HeaderValue::Integer(20)), Ok(()));
    // skipping an index is refused
    assert_eq!(h.push_index(3, HeaderValue::Integer(30)), Err(Error::IndexOutOfSequence));
    // so is inserting behind the cursor
    assert_eq!(h.push_index(0, HeaderValue::Integer(30)), Err(Error::IndexOutOfSequence));
    match h.get_index(&1) {
        Some(HeaderValue::Integer(v)) => assert_eq!(*v, 20),
        _ => panic!("indexed header value lost"),
    }
    assert!(h.get_index(&2).is_none());
}

#[test]
fn byte_slice_equality() {
    assert!(bytes_eq(b"abc", b"abc"));
    assert!(!bytes_eq(b"abc", b"abd"));
    assert!(!bytes_eq(b"abc", b"ab"));
    assert!(bytes_eq(b"", b""));
}

#[test]
fn error_variants_compare() {
    // the transport-failure variants are produced by the I/O layer around
    // the library, never by the library itself
    assert_eq!(Error::Io, Error::Io);
    let c = Error::Content("diagnostic".to_string());
    assert_eq!(c, Error::Content("diagnostic".to_string()));
    assert_ne!(Error::NoMatch, Error::MethodNotAllowed);
}
