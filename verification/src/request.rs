//! HTTP requests: parsing the head of a request, and the reader that decides,
//! read by read, when a request is complete.
use vstd::prelude::*;

use crate::header::{header_entries, header_map, Headers};
use crate::http::Methods;
use crate::text::{
    chars_of, crlf, decode_lossy, parse_usize, parse_usize_spec, same_text, split_chars, split_on,
    utf8_lossy,
};

verus! {

broadcast use vstd::string::group_string_axioms;

// ---------------------------------------------------------------------------
// Specifications
// ---------------------------------------------------------------------------

/// The method that the first word of a request line names.
pub open spec fn method_of(word: Seq<char>) -> Methods {
    if word == seq!['G', 'E', 'T'] {
        Methods::Get
    } else if word == seq!['P', 'O', 'S', 'T'] {
        Methods::Post
    } else if word == seq!['P', 'U', 'T'] {
        Methods::Put
    } else if word == seq!['O', 'P', 'T', 'I', 'O', 'N'] {
        Methods::Option
    } else if word == seq!['D', 'E', 'L', 'E', 'T', 'E'] {
        Methods::Delete
    } else {
        Methods::Other
    }
}

/// The lines of a request's text.
pub open spec fn head_lines(text: Seq<char>) -> Seq<Seq<char>> {
    split_on(text, crlf())
}

/// The space-separated fields of the first line of a request's text.
pub open spec fn request_line_fields(text: Seq<char>) -> Seq<Seq<char>> {
    split_on(head_lines(text)[0], seq![' '])
}

/// The first line of the text has a method, a path and a version.
pub open spec fn request_line_complete(text: Seq<char>) -> bool {
    request_line_fields(text).len() >= 3
}

/// `r` is the request whose head is `text`: method, path and version from
/// the first line, headers from the lines after it, no body.
pub open spec fn is_head_of(text: Seq<char>, r: Request) -> bool {
    let f = request_line_fields(text);
    &&& r.method == method_of(f[0])
    &&& r.path@ == f[1]
    &&& r.version@ == f[2]
    &&& r.headers.entries() == header_entries(head_lines(text).skip(1))
    &&& r.body is None
    &&& r.body_length == Some(0usize)
}

/// The name of the header that gives the length of a request's body.
pub open spec fn content_length_name() -> Seq<char> {
    seq!['C', 'o', 'n', 't', 'e', 'n', 't', '-', 'L', 'e', 'n', 'g', 't', 'h']
}

/// The body length that the headers declare; 0 when they declare none or one
/// that is not a `usize`.
pub open spec fn content_length_of(h: Map<Seq<char>, Seq<char>>) -> usize {
    if h.contains_key(content_length_name()) {
        match parse_usize_spec(h[content_length_name()]) {
            Some(n) => n,
            None => 0,
        }
    } else {
        0
    }
}

/// `q` is `r` with `body` as its body.
pub open spec fn with_body(q: Request, r: Request, body: Seq<u8>) -> bool {
    &&& q.method == r.method
    &&& q.path == r.path
    &&& q.version == r.version
    &&& q.headers == r.headers
    &&& q.body_length == r.body_length
    &&& q.body matches Some(b) && b.0@ == body
}

/// The bytes that end the head of a request.
pub open spec fn blank_line() -> Seq<u8> {
    seq![13u8, 10u8, 13u8, 10u8]
}

/// `i` is the first position where a blank line starts in `b`.
pub open spec fn first_blank_line(b: Seq<u8>, i: int) -> bool {
    &&& 0 <= i && i + 4 <= b.len()
    &&& b.subrange(i, i + 4) == blank_line()
    &&& forall|j: int| 0 <= j < i ==> #[trigger] b.subrange(j, j + 4) != blank_line()
}

/// Where the head of `b` ends: just after its first blank line.
pub open spec fn head_end(b: Seq<u8>) -> Option<int> {
    if exists|i: int| first_blank_line(b, i) {
        Some((choose|i: int| first_blank_line(b, i)) + 4)
    } else {
        None
    }
}

/// The most bytes of a head that are read without finding its end.
pub const HEAD_LIMIT: usize = 8192;

/// The most bytes asked of one read.
pub const CHUNK_LIMIT: usize = 1024;

/// The reply to a connection closed before any request.
pub open spec fn bad_request_reply() -> Seq<u8> {
    vstd::utf8::encode_utf8("HTTP/1.1 400 Bad Request\r\n\r\n"@)
}

/// The reply to a head that grows too long.
pub open spec fn too_large_reply() -> Seq<u8> {
    vstd::utf8::encode_utf8("HTTP/1.1 413 Payload Too Large\r\n\r\n"@)
}

/// The most bytes that the next read may bring.
pub open spec fn read_limit_of(pending: Option<Request>, remaining: nat) -> nat {
    if pending is Some && remaining < CHUNK_LIMIT {
        remaining
    } else {
        CHUNK_LIMIT as nat
    }
}

/// What follows once the head of a request is in `b`, its body starting at
/// `e`: the request is malformed when its first line lacks a field; a `GET`
/// request is ready at once; another is ready once the bytes after the head
/// reach the length that its headers declare, else more bytes are read.
pub open spec fn after_head(b: Seq<u8>, e: int, o: Outcome) -> bool {
    let text = utf8_lossy(b);
    let body = b.skip(e);
    let cl = content_length_of(header_map(head_lines(text).skip(1)));
    if !request_line_complete(text) {
        o is Malformed
    } else if method_of(request_line_fields(text)[0]) == Methods::Get {
        o matches Outcome::Ready(q) && is_head_of(text, q)
    } else if cl <= body.len() {
        o matches Outcome::Ready(q) && exists|r: Request| is_head_of(text, r) && with_body(q, r, body)
    } else {
        &&& o matches Outcome::ReadMore(rd)
        &&& rd.pending_request() matches Some(r) && is_head_of(text, r)
        &&& rd.buffered() == body
        &&& rd.still_needed() == cl - body.len()
    }
}

/// What a reader of a head, holding `buffer`, does on `ev`.
pub open spec fn head_step(buffer: Seq<u8>, ev: ReadEvent, r: Reaction) -> bool {
    match ev {
        ReadEvent::Error => {
            &&& r.reply@ == Seq::<u8>::empty()
            &&& r.outcome matches Outcome::Failed(e) && e@ == "read error"@
        },
        ReadEvent::Bytes(c) => {
            let b = buffer + c@;
            if c@.len() == 0 {
                &&& r.reply@ == bad_request_reply()
                &&& r.outcome matches Outcome::Failed(e) && e@ == "empty request"@
            } else if head_end(b) is Some {
                &&& r.reply@ == Seq::<u8>::empty()
                &&& after_head(b, head_end(b)->0, r.outcome)
            } else if b.len() > HEAD_LIMIT {
                &&& r.reply@ == too_large_reply()
                &&& after_head(b, 0, r.outcome)
            } else {
                &&& r.reply@ == Seq::<u8>::empty()
                &&& r.outcome matches Outcome::ReadMore(rd)
                &&& rd.pending_request() is None
                &&& rd.buffered() == b
            }
        },
    }
}

/// What a reader of the body of `pending`, holding `buffer` and waiting for
/// `remaining` more bytes, does on `ev`.
pub open spec fn body_step(
    pending: Request,
    buffer: Seq<u8>,
    remaining: nat,
    ev: ReadEvent,
    r: Reaction,
) -> bool {
    &&& r.reply@ == Seq::<u8>::empty()
    &&& match ev {
        ReadEvent::Error => r.outcome matches Outcome::Failed(e) && e@ == "body read error"@,
        ReadEvent::Bytes(c) => {
            let b = buffer + c@;
            if c@.len() == 0 {
                r.outcome matches Outcome::Ready(q) && with_body(q, pending, buffer)
            } else if c@.len() == remaining {
                r.outcome matches Outcome::Ready(q) && with_body(q, pending, b)
            } else {
                &&& r.outcome matches Outcome::ReadMore(rd)
                &&& rd.pending_request() == Some(pending)
                &&& rd.buffered() == b
                &&& rd.still_needed() == remaining - c@.len()
            }
        },
    }
}

// ---------------------------------------------------------------------------
// Requests
// ---------------------------------------------------------------------------

/// The body of a request.
#[derive(Debug, Clone)]
pub struct Body(pub Vec<u8>);

impl Body {
    /// The body as text, invalid UTF-8 replaced as `String::from_utf8_lossy`
    /// replaces it.
    pub fn to_string(&self) -> (s: String)
        ensures
            s@ == utf8_lossy(self.0@),
            vstd::utf8::valid_utf8(self.0@) ==> s@ == vstd::utf8::decode_utf8(self.0@),
    {
        decode_lossy(self.0.as_slice())
    }
}

/// An HTTP request.
#[derive(Debug, Clone)]
pub struct Request {
    pub method: Methods,
    pub path: String,
    pub version: String,
    pub headers: Headers,
    pub body: Option<Body>,
    pub body_length: Option<usize>,
}

/// The method that `word` names.
fn method_from_word(word: &String) -> (m: Methods)
    ensures
        m == method_of(word@),
{
    proof {
        reveal_strlit("GET");
        reveal_strlit("POST");
        reveal_strlit("PUT");
        reveal_strlit("OPTION");
        reveal_strlit("DELETE");
        assert("GET"@ =~= seq!['G', 'E', 'T']);
        assert("POST"@ =~= seq!['P', 'O', 'S', 'T']);
        assert("PUT"@ =~= seq!['P', 'U', 'T']);
        assert("OPTION"@ =~= seq!['O', 'P', 'T', 'I', 'O', 'N']);
        assert("DELETE"@ =~= seq!['D', 'E', 'L', 'E', 'T', 'E']);
    }
    let w = word.as_str();
    if same_text(w, "GET") {
        Methods::Get
    } else if same_text(w, "POST") {
        Methods::Post
    } else if same_text(w, "PUT") {
        Methods::Put
    } else if same_text(w, "OPTION") {
        Methods::Option
    } else if same_text(w, "DELETE") {
        Methods::Delete
    } else {
        Methods::Other
    }
}

impl Request {
    /// The request whose head is `text`, when its first line has a method,
    /// a path and a version.
    fn head_of_text(text: &str) -> (r: Option<Request>)
        ensures
            r is Some <==> request_line_complete(text@),
            r matches Some(q) ==> is_head_of(text@, q),
    {
        let chars = chars_of(text);
        let sep = vec!['\r', '\n'];
        assert(sep@ =~= crlf());
        let lines = split_chars(chars.as_slice(), sep.as_slice());
        let ghost all = lines@.map_values(|p: String| p@);
        assert(all == head_lines(text@));
        proof {
            crate::text::lemma_split_nonempty(text@, crlf());
        }
        assert(all[0] == lines@[0]@);
        let first = chars_of(lines[0].as_str());
        let space = vec![' '];
        assert(space@ =~= seq![' ']);
        let fields = split_chars(first.as_slice(), space.as_slice());
        let ghost fv = fields@.map_values(|p: String| p@);
        assert(fv == request_line_fields(text@));
        if fields.len() < 3 {
            return None;
        }
        let method = method_from_word(&fields[0]);
        let path = fields[1].clone();
        let version = fields[2].clone();
        let mut rest: Vec<&str> = Vec::new();
        let n = lines.len();
        let mut i: usize = 1;
        while i < n
            invariant
                n == lines@.len(),
                1 <= i <= n,
                all == lines@.map_values(|p: String| p@),
                rest@.map_values(|s: &str| s@) == all.subrange(1, i as int),
            decreases n - i,
        {
            let ghost before = rest@.map_values(|s: &str| s@);
            rest.push(lines[i].as_str());
            assert(rest@.map_values(|s: &str| s@) =~= before.push(all[i as int]));
            assert(all.subrange(1, i + 1) =~= all.subrange(1, i as int).push(all[i as int]));
            i = i + 1;
        }
        assert(all.subrange(1, n as int) =~= all.skip(1));
        let headers = Headers::new(rest.as_slice());
        Some(
            Request {
                method,
                path,
                version,
                headers,
                body: None,
                body_length: Some(0),
            },
        )
    }

    /// The request whose head is `text`: method, path and version are the
    /// first three space-separated fields of its first line, the headers
    /// come from the lines after it, and it has no body.
    pub fn from_head_text(text: &str) -> (r: Request)
        requires
            request_line_complete(text@),
        ensures
            is_head_of(text@, r),
    {
        Self::head_of_text(text).unwrap()
    }

    /// The request whose head is in `buffer`, read as UTF-8 with invalid
    /// sequences replaced; none when its first line lacks a field.
    pub fn parse_head(buffer: &[u8]) -> (r: Option<Request>)
        ensures
            r is Some <==> request_line_complete(utf8_lossy(buffer@)),
            r matches Some(q) ==> is_head_of(utf8_lossy(buffer@), q),
    {
        let text = decode_lossy(buffer);
        Self::head_of_text(text.as_str())
    }

    /// The body length that the headers declare.
    pub fn content_length(&self) -> (n: usize)
        ensures
            n == content_length_of(self.headers@),
    {
        let name = "Content-Length";
        proof {
            reveal_strlit("Content-Length");
            assert(name@ =~= content_length_name());
        }
        match self.headers.get(name) {
            Some(v) => match parse_usize(v.as_str()) {
                Some(n) => n,
                None => 0,
            },
            None => 0,
        }
    }

    /// The headers of the request.
    pub fn get_headers(&self) -> (h: &Headers)
        ensures
            *h == self.headers,
    {
        &self.headers
    }

    /// The method of the request.
    pub fn get_method(&self) -> (m: &Methods)
        ensures
            *m == self.method,
    {
        &self.method
    }

    /// The path of the request.
    pub fn get_path(&self) -> (p: &String)
        ensures
            *p == self.path,
    {
        &self.path
    }
}

// ---------------------------------------------------------------------------
// Reading a request
// ---------------------------------------------------------------------------

/// What a read of the connection gave: bytes (none when the peer closed the
/// connection) or an error.
pub enum ReadEvent {
    Bytes(Vec<u8>),
    Error,
}

/// What to do after a read.
pub enum Outcome {
    /// Read at most `read_limit` more bytes and hand them to the reader.
    ReadMore(RequestReader),
    /// The request is complete.
    Ready(Request),
    /// Reading failed, for the reason given.
    Failed(String),
    /// The first line of the request lacks a method, a path or a version.
    Malformed,
}

/// The reaction to a read: bytes to send back first (possibly none), then
/// what to do.
pub struct Reaction {
    pub reply: Vec<u8>,
    pub outcome: Outcome,
}

/// Collects a request from the reads of a connection: first its head, up to
/// the first blank line, then as much of its body as its headers declare.
pub struct RequestReader {
    buffer: Vec<u8>,
    pending: Option<Request>,
    remaining: usize,
}

/// The bytes of `b` from `from` on.
fn bytes_from(b: &Vec<u8>, from: usize) -> (r: Vec<u8>)
    requires
        from <= b@.len(),
    ensures
        r@ == b@.skip(from as int),
{
    let mut r: Vec<u8> = Vec::new();
    let n = b.len();
    let mut i = from;
    while i < n
        invariant
            n == b@.len(),
            from <= i <= n,
            r@ == b@.subrange(from as int, i as int),
        decreases n - i,
    {
        r.push(b[i]);
        i = i + 1;
        assert(r@ =~= b@.subrange(from as int, i as int));
    }
    assert(b@.subrange(from as int, n as int) =~= b@.skip(from as int));
    r
}

/// `a` followed by `b`.
fn concat_bytes(a: Vec<u8>, b: Vec<u8>) -> (r: Vec<u8>)
    ensures
        r@ == a@ + b@,
{
    let mut a = a;
    let mut b = b;
    a.append(&mut b);
    a
}

/// Where the first blank line of `buf` ends.
pub fn scan_head(buf: &[u8]) -> (r: Option<usize>)
    ensures
        match r {
            Some(e) => head_end(buf@) == Some(e as int),
            None => head_end(buf@) is None,
        },
{
    let n = buf.len();
    let mut i: usize = 0;
    while n >= 4 && i <= n - 4
        invariant
            n == buf@.len(),
            forall|j: int| 0 <= j < i ==> #[trigger] buf@.subrange(j, j + 4) != blank_line(),
        decreases n - i,
    {
        if buf[i] == 13 && buf[i + 1] == 10 && buf[i + 2] == 13 && buf[i + 3] == 10 {
            assert(buf@.subrange(i as int, i + 4) =~= blank_line());
            assert(first_blank_line(buf@, i as int));
            proof {
                let k = choose|k: int| first_blank_line(buf@, k);
                if k < i {
                    assert(buf@.subrange(k, k + 4) != blank_line());
                } else if i < k {
                    assert(buf@.subrange(i as int, i + 4) != blank_line());
                }
            }
            return Some(i + 4);
        }
        assert(buf@.subrange(i as int, i + 4)[0] == buf@[i as int]);
        assert(buf@.subrange(i as int, i + 4) != blank_line()) by {
            if buf@.subrange(i as int, i + 4) == blank_line() {
                assert(buf@.subrange(i as int, i + 4)[1] == buf@[i + 1]);
                assert(buf@.subrange(i as int, i + 4)[2] == buf@[i + 2]);
                assert(buf@.subrange(i as int, i + 4)[3] == buf@[i + 3]);
            }
        }
        i = i + 1;
    }
    assert(!exists|k: int| first_blank_line(buf@, k)) by {
        if exists|k: int| first_blank_line(buf@, k) {
            let k = choose|k: int| first_blank_line(buf@, k);
            assert(k < i);
        }
    }
    None
}

impl RequestReader {
    #[verifier::type_invariant]
    spec fn body_wanted(&self) -> bool {
        self.pending is Some ==> self.remaining > 0
    }

    /// The bytes collected so far: the head while it is read, then the body.
    pub closed spec fn buffered(&self) -> Seq<u8> {
        self.buffer@
    }

    /// The request whose body is being read; none while the head is read.
    pub closed spec fn pending_request(&self) -> Option<Request> {
        self.pending
    }

    /// How many more bytes of body are wanted.
    pub closed spec fn still_needed(&self) -> nat {
        self.remaining as nat
    }

    /// A reader that has read nothing.
    pub fn new() -> (r: RequestReader)
        ensures
            r.buffered() == Seq::<u8>::empty(),
            r.pending_request() is None,
    {
        RequestReader { buffer: Vec::new(), pending: None, remaining: 0 }
    }

    /// Whether the head has been read and the body is being read.
    pub fn is_reading_body(&self) -> (b: bool)
        ensures
            b == self.pending_request() is Some,
    {
        self.pending.is_some()
    }

    /// The most bytes that the next read may bring.
    pub fn read_limit(&self) -> (n: usize)
        ensures
            n == read_limit_of(self.pending_request(), self.still_needed()),
            n > 0,
    {
        proof {
            use_type_invariant(self);
        }
        if self.pending.is_some() && self.remaining < CHUNK_LIMIT {
            self.remaining
        } else {
            CHUNK_LIMIT
        }
    }

    /// The reaction once the head is in `b` and the body starts at `e`.
    fn finish_head(b: Vec<u8>, e: usize, reply: Vec<u8>) -> (r: Reaction)
        requires
            e <= b@.len(),
        ensures
            r.reply == reply,
            after_head(b@, e as int, r.outcome),
    {
        let parsed = Request::parse_head(b.as_slice());
        match parsed {
            None => Reaction { reply, outcome: Outcome::Malformed },
            Some(req) => {
                if let Methods::Get = req.method {
                    return Reaction { reply, outcome: Outcome::Ready(req) };
                }
                let body = bytes_from(&b, e);
                let cl = req.content_length();
                if cl <= body.len() {
                    let ghost r0 = req;
                    let mut q = req;
                    q.body = Some(Body(body));
                    assert(with_body(q, r0, b@.skip(e as int)));
                    Reaction { reply, outcome: Outcome::Ready(q) }
                } else {
                    let remaining = cl - body.len();
                    Reaction {
                        reply,
                        outcome: Outcome::ReadMore(
                            RequestReader { buffer: body, pending: Some(req), remaining },
                        ),
                    }
                }
            },
        }
    }

    /// Takes in the result of a read and says what to do next.
    pub fn on_event(self, ev: ReadEvent) -> (r: Reaction)
        requires
            ev matches ReadEvent::Bytes(c) ==> c@.len() <= read_limit_of(
                self.pending_request(),
                self.still_needed(),
            ),
        ensures
            match self.pending_request() {
                None => head_step(self.buffered(), ev, r),
                Some(p) => body_step(p, self.buffered(), self.still_needed(), ev, r),
            },
    {
        proof {
            use_type_invariant(&self);
        }
        let ghost old_buffer = self.buffer@;
        let RequestReader { buffer, pending, remaining } = self;
        match pending {
            None => match ev {
                ReadEvent::Error => Reaction {
                    reply: Vec::new(),
                    outcome: Outcome::Failed("read error".to_owned()),
                },
                ReadEvent::Bytes(c) => {
                    if c.len() == 0 {
                        return Reaction {
                            reply: "HTTP/1.1 400 Bad Request\r\n\r\n".as_bytes_vec(),
                            outcome: Outcome::Failed("empty request".to_owned()),
                        };
                    }
                    let b = concat_bytes(buffer, c);
                    match scan_head(b.as_slice()) {
                        Some(e) => Self::finish_head(b, e, Vec::new()),
                        None => {
                            if b.len() > HEAD_LIMIT {
                                Self::finish_head(
                                    b,
                                    0,
                                    "HTTP/1.1 413 Payload Too Large\r\n\r\n".as_bytes_vec(),
                                )
                            } else {
                                Reaction {
                                    reply: Vec::new(),
                                    outcome: Outcome::ReadMore(
                                        RequestReader { buffer: b, pending: None, remaining: 0 },
                                    ),
                                }
                            }
                        },
                    }
                },
            },
            Some(req) => match ev {
                ReadEvent::Error => Reaction {
                    reply: Vec::new(),
                    outcome: Outcome::Failed("body read error".to_owned()),
                },
                ReadEvent::Bytes(c) => {
                    let k = c.len();
                    if k == 0 {
                        let ghost r0 = req;
                        let mut q = req;
                        q.body = Some(Body(buffer));
                        assert(with_body(q, r0, old_buffer));
                        return Reaction { reply: Vec::new(), outcome: Outcome::Ready(q) };
                    }
                    let b = concat_bytes(buffer, c);
                    if k == remaining {
                        let ghost r0 = req;
                        let mut q = req;
                        q.body = Some(Body(b));
                        assert(with_body(q, r0, old_buffer + ev->Bytes_0@));
                        Reaction { reply: Vec::new(), outcome: Outcome::Ready(q) }
                    } else {
                        Reaction {
                            reply: Vec::new(),
                            outcome: Outcome::ReadMore(
                                RequestReader { buffer: b, pending: Some(req), remaining: remaining - k },
                            ),
                        }
                    }
                },
            },
        }
    }
}

/// A reader keeps count of the body it waits for: once the head is read,
/// the bytes it holds and the bytes it still wants add up to the length
/// that the headers declare.
pub proof fn law_head_sets_body_total(b: Seq<u8>, e: int, o: Outcome)
    requires
        after_head(b, e, o),
    ensures
        o matches Outcome::ReadMore(rd) ==> rd.buffered().len() + rd.still_needed()
            == content_length_of(header_map(head_lines(utf8_lossy(b)).skip(1))),
{
}

/// Each read of the body keeps the sum of the bytes held and the bytes
/// still wanted, and a read that brings all the wanted bytes completes the
/// request with a body of exactly that sum.
pub proof fn law_body_reads_keep_total(
    pending: Request,
    buffer: Seq<u8>,
    remaining: nat,
    ev: ReadEvent,
    r: Reaction,
)
    requires
        body_step(pending, buffer, remaining, ev, r),
        ev matches ReadEvent::Bytes(c) ==> c@.len() <= remaining,
    ensures
        r.outcome matches Outcome::ReadMore(rd) ==> rd.buffered().len() + rd.still_needed()
            == buffer.len() + remaining,
        ev matches ReadEvent::Bytes(c) && c@.len() == remaining ==> (r.outcome matches Outcome::Ready(
            q,
        ) && q.body matches Some(body) && body.0@.len() == buffer.len() + remaining),
{
}

/// A request whose head is a request line followed by rendered headers
/// carries exactly those headers, in their order, for fields that their own
/// lines declare again.
pub proof fn law_request_carries_rendered_headers(
    line: Seq<char>,
    es: Seq<crate::header::Entry>,
    r: Request,
)
    requires
        crate::header::no_crlf(line),
        crate::header::distinct_names(es),
        forall|k: int| 0 <= k < es.len() ==> crate::header::plain_entry(#[trigger] es[k]),
        is_head_of(line + crlf() + crate::header::header_text(es), r),
    ensures
        r.headers.entries() == es,
{
    let text = crate::header::header_text(es);
    crate::header::lemma_split_crlf_cons(line, text);
    assert((seq![line] + split_on(text, crlf())).skip(1) =~= split_on(text, crlf()));
    crate::header::law_text_parses_back(es);
}

/// The head of a request ends just after the first `\r\n\r\n` in its bytes:
/// four bytes before the end there is one, and none starts earlier; when
/// there is none at all, the head has not ended.
pub proof fn law_head_ends_at_first_blank_line(b: Seq<u8>)
    ensures
        head_end(b) matches Some(e) ==> {
            &&& 4 <= e <= b.len()
            &&& b.subrange(e - 4, e) == seq![13u8, 10u8, 13u8, 10u8]
            &&& forall|j: int|
                0 <= j < e - 4 ==> #[trigger] b.subrange(j, j + 4) != seq![13u8, 10u8, 13u8, 10u8]
        },
        head_end(b) is None ==> forall|j: int|
            0 <= j && j + 4 <= b.len() ==> #[trigger] b.subrange(j, j + 4) != seq![
                13u8,
                10u8,
                13u8,
                10u8,
            ],
{
    if head_end(b) is None {
        assert forall|j: int| 0 <= j && j + 4 <= b.len() implies #[trigger] b.subrange(j, j + 4) != seq![
            13u8,
            10u8,
            13u8,
            10u8,
        ] by {
            if b.subrange(j, j + 4) == blank_line() {
                // The first of the blank lines at or before `j` would be found.
                lemma_some_first_blank_line(b, j);
            }
        }
    }
}

proof fn lemma_some_first_blank_line(b: Seq<u8>, j: int)
    requires
        0 <= j && j + 4 <= b.len(),
        b.subrange(j, j + 4) == blank_line(),
    ensures
        exists|i: int| first_blank_line(b, i),
    decreases j,
{
    if forall|k: int| 0 <= k < j ==> #[trigger] b.subrange(k, k + 4) != blank_line() {
        assert(first_blank_line(b, j));
    } else {
        let k = choose|k: int| 0 <= k < j && #[trigger] b.subrange(k, k + 4) == blank_line();
        lemma_some_first_blank_line(b, k);
    }
}

/// `h` followed by `\r\n\r\n`.
pub open spec fn then_blank(h: Seq<u8>) -> Seq<u8> {
    h + seq![13u8, 10u8, 13u8, 10u8]
}

/// A head that holds no blank line before the one that follows it ends just
/// after that blank line, whatever comes next.
pub proof fn law_head_then_rest(h: Seq<u8>, rest: Seq<u8>)
    requires
        forall|j: int|
            0 <= j < h.len() ==> #[trigger] then_blank(h).subrange(j, j + 4) != seq![
                13u8,
                10u8,
                13u8,
                10u8,
            ],
    ensures
        head_end(h + seq![13u8, 10u8, 13u8, 10u8] + rest) == Some(h.len() as int + 4),
{
    let hb = then_blank(h);
    let b = hb + rest;
    assert(b =~= h + seq![13u8, 10u8, 13u8, 10u8] + rest);
    assert(b.subrange(h.len() as int, h.len() as int + 4) =~= blank_line());
    assert forall|j: int| 0 <= j < h.len() implies #[trigger] b.subrange(j, j + 4) != blank_line() by {
        assert(b.subrange(j, j + 4) =~= hb.subrange(j, j + 4));
    }
    assert(first_blank_line(b, h.len() as int));
    let i = choose|i: int| first_blank_line(b, i);
    if i < h.len() {
        assert(b.subrange(i, i + 4) != blank_line());
    } else if i > h.len() {
        assert(b.subrange(h.len() as int, h.len() as int + 4) != blank_line());
    }
}

/// The body length a request declares is the value of its `Content-Length`
/// header when that value parses as a `usize`, and 0 otherwise; in
/// particular a header holding the decimal numeral of `n` declares `n`.
pub proof fn law_declared_length(h: Map<Seq<char>, Seq<char>>, n: nat)
    ensures
        ({
            let name = seq!['C', 'o', 'n', 't', 'e', 'n', 't', '-', 'L', 'e', 'n', 'g', 't', 'h'];
            &&& h.contains_key(name) && parse_usize_spec(h[name]) is Some ==> content_length_of(h)
                == parse_usize_spec(h[name])->0
            &&& !(h.contains_key(name) && parse_usize_spec(h[name]) is Some) ==> content_length_of(h)
                == 0
            &&& h.contains_key(name) && h[name] == crate::text::decimal(n) && n <= usize::MAX
                ==> content_length_of(h) == n
        }),
{
    let name = seq!['C', 'o', 'n', 't', 'e', 'n', 't', '-', 'L', 'e', 'n', 'g', 't', 'h'];
    assert(name =~= content_length_name());
    crate::text::law_decimal_reads_back(n);
}

/// A word that neither space nor line break splits.
pub open spec fn plain_word(w: Seq<char>) -> bool {
    forall|i: int| 0 <= i < w.len() ==> #[trigger] w[i] != ' ' && w[i] != '\r' && w[i] != '\n'
}

/// A request line of three plain words, a CRLF and then anything is a
/// complete head whose request carries the second word as path, the third
/// as version, the method that the first names, and the headers of the
/// lines that follow.
pub proof fn law_request_line_fields(m: Seq<char>, p: Seq<char>, v: Seq<char>, rest: Seq<char>, r: Request)
    requires
        plain_word(m),
        plain_word(p),
        plain_word(v),
    ensures
        request_line_complete(m + seq![' '] + p + seq![' '] + v + crlf() + rest),
        is_head_of(m + seq![' '] + p + seq![' '] + v + crlf() + rest, r) ==> {
            &&& r.path@ == p
            &&& r.version@ == v
            &&& m == seq!['G', 'E', 'T'] ==> r.method == Methods::Get
            &&& m == seq!['P', 'O', 'S', 'T'] ==> r.method == Methods::Post
            &&& m == seq!['P', 'U', 'T'] ==> r.method == Methods::Put
            &&& m == seq!['O', 'P', 'T', 'I', 'O', 'N'] ==> r.method == Methods::Option
            &&& m == seq!['D', 'E', 'L', 'E', 'T', 'E'] ==> r.method == Methods::Delete
            &&& r.headers.entries() == header_entries(split_on(rest, crlf()))
            &&& r.body is None
        },
{
    let pv = p + seq![' '] + v;
    let line = m + seq![' '] + pv;
    let text = m + seq![' '] + p + seq![' '] + v + crlf() + rest;
    assert(text =~= line + crlf() + rest);
    assert forall|i: int| 0 <= i < line.len() - 1 implies !(line[i] == '\r' && #[trigger] line[i + 1] == '\n') by {
        if i < m.len() {
            assert(line[i] == m[i]);
        } else if i == m.len() {
            assert(line[i] == ' ');
        } else {
            assert(line[i] == pv[i - m.len() - 1]);
            if i - m.len() - 1 < p.len() {
                assert(pv[i - m.len() - 1] == p[i - m.len() - 1]);
            } else if i - m.len() - 1 == p.len() {
            } else {
                assert(pv[i - m.len() - 1] == v[i - m.len() - 2 - p.len()]);
            }
        }
    }
    crate::header::lemma_split_crlf_cons(line, rest);
    assert(head_lines(text) == seq![line] + split_on(rest, crlf()));
    assert(head_lines(text)[0] == line);
    assert(head_lines(text).skip(1) =~= split_on(rest, crlf()));
    assert forall|i: int| 0 <= i < m.len() implies m[i] != ' ' by {
        assert(m[i] != ' ' && m[i] != '\r' && m[i] != '\n');
    }
    assert forall|i: int| 0 <= i < p.len() implies p[i] != ' ' by {
        assert(p[i] != ' ' && p[i] != '\r' && p[i] != '\n');
    }
    assert forall|i: int| 0 <= i < v.len() implies v[i] != ' ' by {
        assert(v[i] != ' ' && v[i] != '\r' && v[i] != '\n');
    }
    crate::text::lemma_split_single_cons(m, ' ', pv);
    crate::text::lemma_split_single_cons(p, ' ', v);
    crate::text::lemma_split_single_plain(v, ' ');
    let f = request_line_fields(text);
    assert(f =~= seq![m, p, v]);
}

} // verus!
