use neon::header::Headers;

fn entries(h: &Headers) -> Vec<(String, String)> {
    let mut v = Vec::new();
    for i in 0..h.len() {
        let (n, val) = h.entry_at(i);
        v.push((n.clone(), val.clone()));
    }
    v
}

fn pair(a: &str, b: &str) -> (String, String) {
    (a.to_string(), b.to_string())
}

#[test]
fn new_reads_name_and_value_of_each_line() {
    let h = Headers::new(&["Host: example.com", "Content-Length: 12"]);
    assert_eq!(h.get("Host").unwrap(), "example.com");
    assert_eq!(h.get("Content-Length").unwrap(), "12");
    assert_eq!(h.len(), 2);
}

#[test]
fn new_strips_spaces_and_carriage_returns_from_values_only() {
    let h = Headers::new(&[" X Y : a b\r c\r"]);
    assert_eq!(entries(&h), vec![pair(" X Y ", "abc")]);
}

#[test]
fn new_skips_lines_without_name_or_value() {
    let h = Headers::new(&["no colon here", ": value only", "Name only:", "", "A: 1"]);
    assert_eq!(entries(&h), vec![pair("A", "1")]);
}

#[test]
fn new_keeps_a_blank_value_as_empty() {
    let h = Headers::new(&["Blank: "]);
    assert_eq!(entries(&h), vec![pair("Blank", "")]);
}

#[test]
fn new_cuts_at_the_first_colon() {
    let h = Headers::new(&["Host: localhost:2000"]);
    assert_eq!(h.get("Host").unwrap(), "localhost:2000");
}

#[test]
fn later_line_wins_and_keeps_first_position() {
    let h = Headers::new(&["A: 1", "B: 2", "A: 3"]);
    assert_eq!(entries(&h), vec![pair("A", "3"), pair("B", "2")]);
}

#[test]
fn names_are_case_sensitive() {
    let h = Headers::new(&["content-length: 4"]);
    assert!(h.get("Content-Length").is_none());
}

#[test]
fn insert_replaces_or_appends() {
    let mut h = Headers::empty();
    h.insert("A".to_string(), "1".to_string());
    h.insert("B".to_string(), "2".to_string());
    h.insert("A".to_string(), "x y".to_string());
    assert_eq!(entries(&h), vec![pair("A", "x y"), pair("B", "2")]);
    assert_eq!(h.get("A").unwrap(), "x y");
}

#[test]
fn parse_to_string_joins_lines_with_crlf() {
    let h = Headers::new(&["A: 1", "B: 2"]);
    assert_eq!(Headers::parse_to_string(&h), "A: 1\r\nB: 2");
}

#[test]
fn parse_to_string_of_no_headers_is_empty() {
    let h = Headers::empty();
    assert_eq!(Headers::parse_to_string(&h), "");
    assert_eq!(Headers::parse_to_u8(&h), Vec::<u8>::new());
}

#[test]
fn parse_to_u8_is_utf8_of_the_text() {
    let h = Headers::new(&["Grüße: ok"]);
    assert_eq!(Headers::parse_to_u8(&h), "Grüße: ok".as_bytes().to_vec());
}

#[test]
fn text_parses_back_to_the_same_headers() {
    let h = Headers::new(&["Host: a:b", "X-Y: 1", "Accept: */*"]);
    let text = Headers::parse_to_string(&h);
    let lines: Vec<&str> = text.split("\r\n").collect();
    let again = Headers::new(&lines);
    assert_eq!(entries(&again), entries(&h));
}

#[test]
fn clone_keeps_fields_in_order() {
    let h = Headers::new(&["B: 2", "A: 1"]);
    let c = h.clone();
    assert_eq!(entries(&c), vec![pair("B", "2"), pair("A", "1")]);
}
