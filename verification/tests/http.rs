use ql_miner::endpoint::{Endpoint, Scheme};
use ql_miner::http::{
    build_http_request, chunk_sizes_ok, decode_chunked_body, parse_http_response, read_response,
    response_within_limits, ReadEvent, ReadStep,
};

fn endpoint() -> Endpoint {
    Endpoint { scheme: Scheme::Plain, host: "node.example".to_string(), port: 8034 }
}

#[test]
fn get_request_without_body() {
    let r = build_http_request(&endpoint(), "GET", "/api/mining/template", None);
    assert_eq!(
        String::from_utf8(r).unwrap(),
        "GET /api/mining/template HTTP/1.1\r\nHost: node.example\r\nUser-Agent: ql-miner-multicore/0.1\r\nAccept: application/json\r\nConnection: close\r\n\r\n"
    );
}

#[test]
fn post_request_with_body_counts_bytes() {
    let body = "{\"miner\":\"é\",\"nonce\":1}";
    let r = build_http_request(&endpoint(), "POST", "/api/mining/submit", Some(body));
    assert_eq!(
        String::from_utf8(r).unwrap(),
        format!(
            "POST /api/mining/submit HTTP/1.1\r\nHost: node.example\r\nUser-Agent: ql-miner-multicore/0.1\r\nAccept: application/json\r\nConnection: close\r\nContent-Type: application/json\r\nContent-Length: {}\r\n\r\n{}",
            body.len(),
            body
        )
    );
    let empty = build_http_request(&endpoint(), "POST", "/x", Some(""));
    assert_eq!(build_http_request(&endpoint(), "POST", "/x", None), empty);
}

#[test]
fn plain_ok_response() {
    let r = parse_http_response(b"HTTP/1.1 200 OK\r\nContent-Type: application/json\r\n\r\n{\"a\":1}");
    assert_eq!(r, Ok("{\"a\":1}".to_string()));
}

#[test]
fn chunked_ok_response() {
    let r = parse_http_response(
        b"HTTP/1.1 200 OK\r\nTRANSFER-ENCODING: Chunked\r\n\r\n4\r\nWiki\r\n5;ext=1\r\npedia\r\n 0 \r\n\r\n",
    );
    assert_eq!(r, Ok("Wikipedia".to_string()));
}

#[test]
fn chunked_header_on_status_line_is_ignored() {
    let r = parse_http_response(b"HTTP/1.1 200 transfer-encoding: chunked\r\n\r\n4\r\nWiki");
    assert_eq!(r, Ok("4\r\nWiki".to_string()));
}

#[test]
fn non_success_status_reports_body() {
    let r = parse_http_response(b"HTTP/1.1 503 Busy\r\n\r\ntry later");
    assert_eq!(r, Err("HTTP 503: try later".to_string()));
    let r = parse_http_response(b"HTTP/1.1 300 x\r\n\r\n");
    assert_eq!(r, Err("HTTP 300: ".to_string()));
    let r = parse_http_response(b"HTTP/1.1 299 x\r\n\r\n");
    assert_eq!(r, Ok("".to_string()));
}

#[test]
fn response_without_header_end() {
    assert_eq!(
        parse_http_response(b"HTTP/1.1 200 OK\r\n"),
        Err("invalid HTTP response: 17 bytes".to_string())
    );
    assert_eq!(parse_http_response(b""), Err("invalid HTTP response: 0 bytes".to_string()));
}

#[test]
fn bad_status_lines() {
    assert_eq!(
        parse_http_response(b"HTTP/1.1\r\n\r\n"),
        Err("invalid HTTP status line: HTTP/1.1".to_string())
    );
    assert_eq!(
        parse_http_response(b"HTTP/1.1 70000 big\r\n\r\n"),
        Err("invalid HTTP status line: HTTP/1.1 70000 big".to_string())
    );
    assert_eq!(parse_http_response(b"\r\n\r\n"), Err("invalid HTTP status line: ".to_string()));
}

#[test]
fn headers_and_body_must_be_utf8() {
    let bad = [0x48u8, 0xff, 0x0d, 0x0a, 0x0d, 0x0a];
    let expected = std::str::from_utf8(&bad[..2]).unwrap_err().to_string();
    assert_eq!(
        parse_http_response(&bad),
        Err(format!("response headers are not UTF-8: {expected}"))
    );
    let mut response = b"HTTP/1.1 200 OK\r\n\r\nab".to_vec();
    response.push(0xc3);
    let expected = String::from_utf8(b"ab\xc3".to_vec()).unwrap_err().to_string();
    assert_eq!(
        parse_http_response(&response),
        Err(format!("response body is not UTF-8: {expected}"))
    );
}

#[test]
fn chunk_errors() {
    assert_eq!(
        decode_chunked_body(b"5"),
        Err("bad chunked response: missing chunk size".to_string())
    );
    let expected = usize::from_str_radix("zz", 16).unwrap_err().to_string();
    assert_eq!(decode_chunked_body(b"zz\r\n"), Err(format!("bad chunk size zz: {expected}")));
    let expected = usize::from_str_radix("", 16).unwrap_err().to_string();
    assert_eq!(decode_chunked_body(b" ;x\r\n"), Err(format!("bad chunk size : {expected}")));
    assert_eq!(
        decode_chunked_body(b"5\r\nabc\r\n"),
        Err("bad chunked response: chunk shorter than declared".to_string())
    );
    assert!(chunk_sizes_ok(b"5\r\nabc\r\n"));
    assert!(!chunk_sizes_ok(format!("{:x}\r\nabc", usize::MAX).as_bytes()));
    assert!(!chunk_sizes_ok(format!("1\r\na\r\n{:x}\r\n", usize::MAX - 1).as_bytes()));
    assert!(chunk_sizes_ok(format!("{:x}\r\n", usize::MAX - 2).as_bytes()));
    assert!(chunk_sizes_ok(b"zz\r\n"));
    let huge = format!("HTTP/1.1 200 OK\r\nTransfer-Encoding: chunked\r\n\r\n{:x}\r\nabc", usize::MAX);
    assert!(!response_within_limits(huge.as_bytes()));
    assert!(response_within_limits(b"HTTP/1.1 200 OK\r\n\r\nffffffffffffffffff\r\n"));
    let expected = std::str::from_utf8(&[0xfe]).unwrap_err().to_string();
    assert_eq!(decode_chunked_body(b"\xfe\r\n"), Err(format!("bad chunk size UTF-8: {expected}")));
    assert_eq!(
        parse_http_response(b"HTTP/1.1 200 OK\r\nTransfer-Encoding: chunked\r\n\r\n3\r\nab"),
        Err("bad chunked response: chunk shorter than declared".to_string())
    );
}

#[test]
fn chunked_round_trip_example() {
    let chunks: [&[u8]; 3] = [b"hello ", b"chunked", &[b'x'; 300]];
    let mut encoded = Vec::new();
    let mut data = Vec::new();
    for c in chunks {
        encoded.extend_from_slice(format!("{:x}\r\n", c.len()).as_bytes());
        encoded.extend_from_slice(c);
        encoded.extend_from_slice(b"\r\n");
        data.extend_from_slice(c);
    }
    encoded.extend_from_slice(b"0\r\n\r\n");
    assert_eq!(decode_chunked_body(&encoded), Ok(data));
    assert_eq!(decode_chunked_body(b"0\r\n\r\n"), Ok(vec![]));
    assert_eq!(decode_chunked_body(b"0\r\ntrailing junk"), Ok(vec![]));
}

#[test]
fn chunked_round_trip_ignores_what_follows() {
    let encoded = b"4\r\nWiki\r\n5\r\npedia\r\n0\r\n\r\n7\r\nignored\r\n";
    assert_eq!(decode_chunked_body(encoded), Ok(b"Wikipedia".to_vec()));
}

#[test]
fn chunked_response_law_example() {
    let response = b"HTTP/1.1 201 Created\r\nTransfer-Encoding: chunked\r\n\r\n3\r\nabc\r\n2\r\nd\xc3\r\n1\r\n\xa9\r\n0\r\n\r\n";
    assert!(response_within_limits(response));
    assert_eq!(parse_http_response(response), Ok("abcdé".to_string()));
}

#[test]
fn plain_response_law_example() {
    let body = "héllo wörld";
    let response = format!("HTTP/1.0 204 No Content\r\n\r\n{body}");
    assert_eq!(parse_http_response(response.as_bytes()), Ok(body.to_string()));
}

#[test]
fn reading_a_response_step_by_step() {
    let mut response = Vec::new();
    assert!(matches!(read_response(&mut response, ReadEvent::Data(b"HT".to_vec()), "tcp"), ReadStep::Continue));
    assert!(matches!(read_response(&mut response, ReadEvent::Data(b"TP".to_vec()), "tcp"), ReadStep::Continue));
    assert_eq!(response, b"HTTP".to_vec());
    assert!(matches!(read_response(&mut response, ReadEvent::Data(vec![]), "tcp"), ReadStep::Finished));
    assert!(matches!(
        read_response(&mut response, ReadEvent::Failure(true, "eof".to_string()), "tls"),
        ReadStep::Finished
    ));
    assert_eq!(response, b"HTTP".to_vec());
}

#[test]
fn read_failures() {
    let mut empty = Vec::new();
    match read_response(&mut empty, ReadEvent::Failure(true, "unexpected end of file".to_string()), "tls") {
        ReadStep::Failed(m) => assert_eq!(m, "tls read: unexpected end of file"),
        _ => panic!("an unexpected end of an empty response is a failure"),
    }
    let mut some = b"x".to_vec();
    match read_response(&mut some, ReadEvent::Failure(false, "reset".to_string()), "tcp") {
        ReadStep::Failed(m) => assert_eq!(m, "tcp read: reset"),
        _ => panic!("other failures are reported"),
    }
    assert_eq!(some, b"x".to_vec());
}
