use neon::http::Methods;
use neon::request::{Body, Outcome, ReadEvent, Request, RequestReader};
use neon::response::Response;
use neon::text::{parse_usize, split_chars, chars_of};

#[test]
fn response_raw_of_a_new_response() {
    let mut r = Response::build();
    assert_eq!(r.status, 200);
    assert_eq!(r.raw(), b"HTTP/1.1 200 OK\r\n\r\n\r\n".to_vec());
}

#[test]
fn response_raw_with_header_and_body() {
    let mut r = Response::build();
    r.insert("Content-type", " text/json");
    r.body(br#"{"name":"john"}"#.to_vec());
    assert_eq!(
        r.raw(),
        b"HTTP/1.1 200 OK\r\nContent-type:  text/json\r\n\r\n{\"name\":\"john\"}".to_vec()
    );
}

#[test]
fn response_raw_writes_status_in_decimal() {
    let mut r = Response::build();
    r.status = 404;
    r.body(b"hello world".to_vec());
    assert_eq!(r.raw(), b"HTTP/1.1 404 OK\r\n\r\n\r\nhello world".to_vec());
    r.status = 7;
    assert!(r.raw().starts_with(b"HTTP/1.1 7 OK\r\n"));
    r.status = 65535;
    assert!(r.raw().starts_with(b"HTTP/1.1 65535 OK\r\n"));
}

#[test]
fn response_insert_replaces_a_header() {
    let mut r = Response::build();
    r.insert("A", "1");
    r.insert("A", "2");
    assert_eq!(r.headers.get("A").unwrap(), "2");
    assert_eq!(r.headers.len(), 1);
}

#[test]
fn parse_usize_follows_str_parse() {
    assert_eq!(parse_usize("42"), Some(42));
    assert_eq!(parse_usize("+7"), Some(7));
    assert_eq!(parse_usize("007"), Some(7));
    assert_eq!(parse_usize("-1"), None);
    assert_eq!(parse_usize("+"), None);
    assert_eq!(parse_usize(""), None);
    assert_eq!(parse_usize("1 2"), None);
    assert_eq!(parse_usize("99999999999999999999999"), None);
    assert_eq!(parse_usize("18446744073709551615"), "18446744073709551615".parse::<usize>().ok());
}

#[test]
fn split_chars_follows_str_split() {
    for (text, sep) in [("a\r\nb\r\n\r\nc", "\r\n"), ("", "\r\n"), ("\r\n", "\r\n"), ("a\rb\n", "\r\n"), ("GET / HTTP/1.1", " "), ("  x ", " "), ("aaa", "aa")] {
        let parts = split_chars(&chars_of(text), &chars_of(sep));
        let expected: Vec<String> = text.split(sep).map(|s| s.to_string()).collect();
        assert_eq!(parts, expected);
    }
}

#[test]
fn head_text_gives_method_path_version_and_headers() {
    let r = Request::from_head_text("GET /he HTTP/1.1\r\nHost: x\r\nAccept: */*\r\n\r\n");
    assert_eq!(r.method, Methods::Get);
    assert_eq!(r.get_path(), "/he");
    assert_eq!(r.version, "HTTP/1.1");
    assert_eq!(r.get_headers().get("Host").unwrap(), "x");
    assert_eq!(r.get_headers().len(), 2);
    assert!(r.body.is_none());
    assert_eq!(r.body_length, Some(0));
}

#[test]
fn head_text_names_each_method() {
    for (word, m) in [("GET", Methods::Get), ("POST", Methods::Post), ("PUT", Methods::Put), ("OPTION", Methods::Option), ("DELETE", Methods::Delete), ("PATCH", Methods::Other), ("get", Methods::Other)] {
        let r = Request::from_head_text(&format!("{} / HTTP/1.1\r\n\r\n", word));
        assert_eq!(*r.get_method(), m);
    }
}

#[test]
fn parse_head_rejects_a_short_request_line() {
    assert!(Request::parse_head(b"GET /\r\n\r\n").is_none());
    assert!(Request::parse_head(b"").is_none());
    assert!(Request::parse_head(b"GET / HTTP/1.1 extra\r\n\r\n").is_some());
}

#[test]
fn parse_head_replaces_invalid_utf8() {
    let r = Request::parse_head(b"GET /\xff HTTP/1.1\r\nX: \xfe\r\n\r\n").unwrap();
    assert_eq!(r.path, "/\u{FFFD}");
    assert_eq!(r.headers.get("X").unwrap(), "\u{FFFD}");
}

#[test]
fn body_lines_with_a_colon_count_as_headers() {
    let r = Request::from_head_text("POST / HTTP/1.1\r\nContent-Length: 4\r\n\r\na:bc");
    assert_eq!(r.headers.get("a").unwrap(), "bc");
    assert_eq!(r.content_length(), 4);
}

#[test]
fn content_length_defaults_to_zero() {
    assert_eq!(Request::from_head_text("POST / HTTP/1.1\r\n\r\n").content_length(), 0);
    assert_eq!(Request::from_head_text("POST / HTTP/1.1\r\nContent-Length: x\r\n\r\n").content_length(), 0);
    assert_eq!(Request::from_head_text("POST / HTTP/1.1\r\nContent-Length: + 9\r\n\r\n").content_length(), 9);
}

#[test]
fn body_to_string_replaces_invalid_utf8() {
    assert_eq!(Body(b"hi".to_vec()).to_string(), "hi");
    assert_eq!(Body(vec![b'a', 0xff]).to_string(), "a\u{FFFD}");
}

fn feed(reader: RequestReader, bytes: &[u8]) -> (Vec<u8>, Outcome) {
    let r = reader.on_event(ReadEvent::Bytes(bytes.to_vec()));
    (r.reply, r.outcome)
}

#[test]
fn reader_completes_a_get_in_one_read() {
    let reader = RequestReader::new();
    assert_eq!(reader.read_limit(), 1024);
    match feed(reader, b"GET / HTTP/1.1\r\nHost: a\r\n\r\n") {
        (reply, Outcome::Ready(r)) => {
            assert!(reply.is_empty());
            assert_eq!(r.method, Methods::Get);
            assert!(r.body.is_none());
        }
        _ => panic!("expected a request"),
    }
}

#[test]
fn reader_waits_for_the_blank_line() {
    let reader = RequestReader::new();
    let reader = match feed(reader, b"GET / HTTP/1.1\r\n") {
        (reply, Outcome::ReadMore(rd)) => {
            assert!(reply.is_empty());
            rd
        }
        _ => panic!("expected to read more"),
    };
    match feed(reader, b"\r\n") {
        (_, Outcome::Ready(r)) => assert_eq!(r.path, "/"),
        _ => panic!("expected a request"),
    }
}

#[test]
fn reader_reads_the_declared_body() {
    let reader = RequestReader::new();
    let reader = match feed(reader, b"POST /f HTTP/1.1\r\nContent-Length: 5\r\n\r\nab") {
        (_, Outcome::ReadMore(rd)) => rd,
        _ => panic!("expected to read more"),
    };
    assert_eq!(reader.read_limit(), 3);
    let reader = match feed(reader, b"c") {
        (_, Outcome::ReadMore(rd)) => rd,
        _ => panic!("expected to read more"),
    };
    assert_eq!(reader.read_limit(), 2);
    match feed(reader, b"de") {
        (reply, Outcome::Ready(r)) => {
            assert!(reply.is_empty());
            assert_eq!(r.method, Methods::Post);
            assert_eq!(r.body.unwrap().0, b"abcde".to_vec());
            assert_eq!(r.body_length, Some(0));
        }
        _ => panic!("expected a request"),
    }
}

#[test]
fn reader_finishes_when_the_body_is_already_in() {
    match feed(RequestReader::new(), b"PUT / HTTP/1.1\r\nContent-Length: 2\r\n\r\nxyz") {
        (_, Outcome::Ready(r)) => assert_eq!(r.body.unwrap().0, b"xyz".to_vec()),
        _ => panic!("expected a request"),
    }
    match feed(RequestReader::new(), b"DELETE / HTTP/1.1\r\n\r\n") {
        (_, Outcome::Ready(r)) => assert_eq!(r.body.unwrap().0, Vec::<u8>::new()),
        _ => panic!("expected a request"),
    }
}

#[test]
fn reader_keeps_a_short_body_when_the_peer_closes() {
    let reader = match feed(RequestReader::new(), b"POST / HTTP/1.1\r\nContent-Length: 9\r\n\r\nab") {
        (_, Outcome::ReadMore(rd)) => rd,
        _ => panic!("expected to read more"),
    };
    match feed(reader, b"") {
        (_, Outcome::Ready(r)) => assert_eq!(r.body.unwrap().0, b"ab".to_vec()),
        _ => panic!("expected a request"),
    }
}

#[test]
fn reader_answers_an_empty_connection_with_400() {
    match feed(RequestReader::new(), b"") {
        (reply, Outcome::Failed(e)) => {
            assert_eq!(reply, b"HTTP/1.1 400 Bad Request\r\n\r\n".to_vec());
            assert_eq!(e, "empty request");
        }
        _ => panic!("expected a failure"),
    }
}

#[test]
fn reader_reports_read_errors() {
    match RequestReader::new().on_event(ReadEvent::Error).outcome {
        Outcome::Failed(e) => assert_eq!(e, "read error"),
        _ => panic!("expected a failure"),
    }
    let reader = match feed(RequestReader::new(), b"POST / HTTP/1.1\r\nContent-Length: 9\r\n\r\n") {
        (_, Outcome::ReadMore(rd)) => rd,
        _ => panic!("expected to read more"),
    };
    match reader.on_event(ReadEvent::Error).outcome {
        Outcome::Failed(e) => assert_eq!(e, "body read error"),
        _ => panic!("expected a failure"),
    }
}

#[test]
fn reader_answers_a_long_head_with_413_and_goes_on() {
    let mut reader = RequestReader::new();
    let mut line = b"GET /big HTTP/1.1\r\nX: ".to_vec();
    line.resize(1024, b'a');
    for _ in 0..8 {
        reader = match feed(reader, &line) {
            (reply, Outcome::ReadMore(rd)) => {
                assert!(reply.is_empty());
                rd
            }
            _ => panic!("expected to read more"),
        };
        line = vec![b'a'; 1024];
    }
    match feed(reader, b"a") {
        (reply, Outcome::Ready(r)) => {
            assert_eq!(reply, b"HTTP/1.1 413 Payload Too Large\r\n\r\n".to_vec());
            assert_eq!(r.path, "/big");
        }
        _ => panic!("expected a request"),
    }
}

#[test]
fn reader_flags_a_malformed_request_line() {
    match feed(RequestReader::new(), b"GET\r\n\r\n") {
        (_, Outcome::Malformed) => {}
        _ => panic!("expected a malformed request"),
    }
}

#[test]
fn request_carries_rendered_headers() {
    let h = neon::header::Headers::new(&["Host: a:1", "Accept: */*", "X: y"]);
    let text = format!("GET / HTTP/1.1\r\n{}", neon::header::Headers::parse_to_string(&h));
    let r = Request::from_head_text(&text);
    assert_eq!(r.headers.len(), 3);
    for i in 0..3 {
        assert_eq!(r.headers.entry_at(i), h.entry_at(i));
    }
}

#[test]
fn parsed_fields_hold_no_blanks_in_values() {
    let h = neon::header::Headers::new(&["A: x \r y", "B:\r\r z"]);
    for i in 0..h.len() {
        let (n, v) = h.entry_at(i);
        assert!(!n.contains(':'));
        assert!(!v.contains(' ') && !v.contains('\r'));
    }
    assert_eq!(h.get("A").unwrap(), "xy");
    assert_eq!(h.get("B").unwrap(), "z");
}
