use nmap_regex_matcher::{append_requests, corpus_is_full, HttpRequest};

fn request(method: &str, url: &str, headers: &[(&str, &str)], data: Option<&str>) -> HttpRequest {
    HttpRequest {
        method: method.to_string(),
        url: url.to_string(),
        headers: headers.iter().map(|(k, v)| (k.to_string(), v.to_string())).collect(),
        data: data.map(|d| d.to_string()),
    }
}

#[test]
fn normalize_with_headers_and_body() {
    let r = request(
        "POST",
        "/login",
        &[("Content-Type", "text/plain"), ("Host", "example.com")],
        Some("a=1"),
    );
    assert_eq!(
        r.normalize(),
        b"POST /login HTTP/1.1\r\nContent-Type: text/plain\r\nHost: example.com\r\n\r\na=1".to_vec()
    );
}

#[test]
fn normalize_without_body() {
    let r = request("GET", "/", &[], None);
    assert_eq!(r.normalize(), b"GET / HTTP/1.1\r\n\r\n".to_vec());
    let r = request("GET", "/", &[], Some(""));
    assert_eq!(r.normalize(), b"GET / HTTP/1.1\r\n\r\n".to_vec());
}

#[test]
fn normalize_utf8() {
    let r = request("GET", "/é", &[("X", "ü")], None);
    assert_eq!(r.normalize(), "GET /é HTTP/1.1\r\nX: ü\r\n\r\n".as_bytes().to_vec());
}

#[test]
fn append_up_to_limit() {
    let batch = vec![
        request("GET", "/1", &[], None),
        request("GET", "/2", &[], None),
        request("GET", "/3", &[], None),
    ];
    let mut out = Vec::new();
    append_requests(&mut out, &batch, 2);
    assert_eq!(out.len(), 2);
    assert_eq!(out[0], batch[0].normalize());
    assert_eq!(out[1], batch[1].normalize());
    assert!(corpus_is_full(&out, 2));
    append_requests(&mut out, &batch, 2);
    assert_eq!(out.len(), 2);
}

#[test]
fn append_whole_batches() {
    let batch = vec![request("GET", "/1", &[], None), request("HEAD", "/2", &[], None)];
    let mut out = Vec::new();
    assert!(!corpus_is_full(&out, 5));
    append_requests(&mut out, &batch, 5);
    append_requests(&mut out, &batch, 5);
    assert_eq!(out.len(), 4);
    assert_eq!(out[3], b"HEAD /2 HTTP/1.1\r\n\r\n".to_vec());
    append_requests(&mut out, &batch, 5);
    assert_eq!(out.len(), 5);
    assert!(corpus_is_full(&out, 5));
}

#[test]
fn limit_zero_keeps_nothing() {
    let batch = vec![request("GET", "/1", &[], None)];
    let mut out = Vec::new();
    assert!(corpus_is_full(&out, 0));
    append_requests(&mut out, &batch, 0);
    assert!(out.is_empty());
}

#[test]
fn header_order_check() {
    assert!(request("GET", "/", &[], None).has_ordered_headers());
    assert!(request("GET", "/", &[("A", "1"), ("B", "2"), ("Ba", "3")], None).has_ordered_headers());
    assert!(!request("GET", "/", &[("B", "1"), ("A", "2")], None).has_ordered_headers());
    assert!(!request("GET", "/", &[("A", "1"), ("A", "2")], None).has_ordered_headers());
    // Names compare by code point, as `String` does.
    assert!(request("GET", "/", &[("Z", "1"), ("a", "2"), ("é", "3")], None).has_ordered_headers());
}
