use yamldb::cli::{find_header_end, url_decode, UrlDecodeError};
use yamldb::http::{
    content_length, json_to_record, reason_phrase, request_head, request_progress, Progress, request_total, route, JsonRecordError,
    RequestHead, Route,
};
use yamldb::Value;

#[test]
fn header_end_is_the_first_blank_line() {
    assert_eq!(find_header_end(b"GET / HTTP/1.1\r\nHost: x\r\n\r\nbody"), Some(23));
    assert_eq!(find_header_end(b"GET / HTTP/1.1\r\n"), None);
    assert_eq!(find_header_end(b""), None);
}

#[test]
fn content_length_header() {
    assert_eq!(content_length(b"POST /x HTTP/1.1\r\nCONTENT-LENGTH:  12 \r\nHost: y"), 12);
    assert_eq!(content_length(b"POST /x HTTP/1.1\r\nContent-Length: abc\r\ncontent-length: 7"), 7);
    assert_eq!(content_length(b"POST /x HTTP/1.1\r\nHost: y"), 0);
    assert_eq!(content_length(b"POST /x HTTP/1.1\r\nContent-Length: +3"), 3);
}

#[test]
fn request_heads() {
    match request_head(b"POST /api/records HTTP/1.1\r\nHost: x\r\n\r\n{}") {
        RequestHead::Request { method, path, body_start } => {
            assert_eq!(method, "POST");
            assert_eq!(path, "/api/records");
            assert_eq!(body_start, 39);
        }
        _ => panic!("expected a request"),
    }
    assert!(matches!(request_head(b"GET\r\n\r\n"), RequestHead::BadRequest));
    assert!(matches!(request_head(b"GET / HTTP/1.1\r\n"), RequestHead::Incomplete));
    assert_eq!(request_total(10, 5), Some(19));
    assert_eq!(request_total(usize::MAX - 2, 0), None);
}

#[test]
fn url_components_decode() {
    assert_eq!(url_decode("a%20b+c").ok(), Some("a b c".to_string()));
    assert_eq!(url_decode("%e4%bd%a0").ok(), Some("\u{4f60}".to_string()));
    assert_eq!(url_decode("%+5").ok(), Some("\u{5}".to_string()));
    assert!(matches!(url_decode("%4"), Err(UrlDecodeError::Incomplete)));
    assert!(matches!(url_decode("%zz"), Err(UrlDecodeError::BadHexDigit)));
    assert!(matches!(url_decode("%-5"), Err(UrlDecodeError::BadHexDigit)));
    assert!(matches!(url_decode("%ff"), Err(UrlDecodeError::NotUtf8(_))));
    assert!(matches!(url_decode("%\u{e9}"), Err(UrlDecodeError::BadHexDigit)));
}

#[test]
fn routes() {
    assert!(matches!(route("GET", "/"), Route::Index));
    assert!(matches!(route("GET", "/?x=1"), Route::Index));
    assert!(matches!(route("GET", "/api/records"), Route::ListRecords(t) if t == "data"));
    assert!(matches!(route("POST", "/api/records"), Route::Upsert(t) if t == "data"));
    assert!(matches!(route("DELETE", "/api/records/a%20b"), Route::Delete(t, id) if t == "data" && id == "a b"));
    assert!(matches!(route("GET", "/api/tables"), Route::ListTables));
    assert!(matches!(route("GET", "/api/tables/my%20t/records"), Route::ListRecords(t) if t == "my t"));
    assert!(matches!(route("POST", "/api/tables/users/records"), Route::Upsert(t) if t == "users"));
    assert!(matches!(route("GET", "/api/tables/records"), Route::NotFound));
    assert!(matches!(route("DELETE", "/api/tables/users/records/u%2F1"), Route::Delete(t, id) if t == "users" && id == "u/1"));
    assert!(matches!(route("DELETE", "/api/tables/users"), Route::NotFound));
    assert!(matches!(route("DELETE", "/api/records/%zz"), Route::BadEncoding(UrlDecodeError::BadHexDigit)));
    assert!(matches!(route("PUT", "/api/records"), Route::NotFound));
}

#[test]
fn request_bodies_become_records() {
    let fields = vec![
        ("name".to_string(), Value::from_str_slice("Alice")),
        ("id".to_string(), Value::from_str_slice("u1")),
    ];
    let rec = json_to_record(Some(fields)).ok().unwrap();
    assert_eq!(rec.id, "u1");
    assert_eq!(rec.data.len(), 1);
    assert_eq!(rec.get_str("name"), Some("Alice"));
    assert!(matches!(json_to_record(None), Err(JsonRecordError::NotObject)));
    let no_id = vec![("id".to_string(), Value::from_i64(3))];
    assert!(matches!(json_to_record(Some(no_id)), Err(JsonRecordError::MissingId)));
    let blank = vec![("id".to_string(), Value::from_str_slice("  "))];
    assert!(matches!(json_to_record(Some(blank)), Err(JsonRecordError::EmptyId)));
}

#[test]
fn status_reasons() {
    assert_eq!(reason_phrase(200), "OK");
    assert_eq!(reason_phrase(400), "Bad Request");
    assert_eq!(reason_phrase(404), "Not Found");
    assert_eq!(reason_phrase(500), "OK");
}

#[test]
fn reading_a_request() {
    assert!(matches!(request_progress(b"GET / HTTP/1.1\r\nHost: x"), Progress::NeedMore));
    assert!(matches!(request_progress(b"GET / HTTP/1.1\r\n\r\n"), Progress::Complete));
    assert!(matches!(request_progress(b"POST /x HTTP/1.1\r\nContent-Length: 4\r\n\r\nab"), Progress::NeedMore));
    assert!(matches!(request_progress(b"POST /x HTTP/1.1\r\nContent-Length: 4\r\n\r\nabcd"), Progress::Complete));
    let big = vec![b'a'; 1048577];
    assert!(matches!(request_progress(&big), Progress::TooLarge));
    let huge = format!("POST /x HTTP/1.1\r\nContent-Length: {}\r\n\r\n", usize::MAX);
    assert!(matches!(request_progress(huge.as_bytes()), Progress::TooLarge));
}
