//! HTTP responses and their bytes on the wire.
use vstd::prelude::*;
use vstd::utf8::encode_utf8;

use crate::header::{header_text, insert_entry, Entry, Headers};
use crate::text::{all_digits, crlf, decimal, digits_value, law_decimal_reads_back, push_decimal};

verus! {

broadcast use vstd::string::group_string_axioms;

/// The status line of a response: `HTTP/1.1 <status> OK` and CRLF.
pub open spec fn status_line(status: u16) -> Seq<char> {
    seq!['H', 'T', 'T', 'P', '/', '1', '.', '1', ' '] + decimal(status as nat) + seq![
        ' ',
        'O',
        'K',
        '\r',
        '\n',
    ]
}

/// The bytes of a response: its status line, its header lines, a blank
/// line after two CRLFs, and its body.
pub open spec fn response_bytes(status: u16, headers: Seq<Entry>, body: Seq<u8>) -> Seq<u8> {
    encode_utf8(status_line(status)) + encode_utf8(header_text(headers)) + encode_utf8(
        crlf() + crlf(),
    ) + body
}

/// The numeral that a status line carries between `HTTP/1.1 ` and ` OK`.
pub open spec fn status_numeral(line: Seq<char>) -> Seq<char> {
    line.subrange(9, line.len() - 5)
}

/// The status line of a response is `HTTP/1.1 `, a numeral, and ` OK` with
/// CRLF; the numeral is a non-empty string of digits whose value is the
/// status, with a leading zero only for the status 0.
pub proof fn law_status_line_reads_back(status: u16)
    ensures
        status_line(status).len() >= 15,
        status_line(status).take(9) == seq!['H', 'T', 'T', 'P', '/', '1', '.', '1', ' '],
        status_line(status).skip(status_line(status).len() - 5) == seq![' ', 'O', 'K', '\r', '\n'],
        status_numeral(status_line(status)).len() > 0,
        all_digits(status_numeral(status_line(status))),
        digits_value(status_numeral(status_line(status))) == status,
        status_numeral(status_line(status))[0] == '0' ==> status == 0,
{
    law_decimal_reads_back(status as nat);
    let line = status_line(status);
    let d = decimal(status as nat);
    assert(line.take(9) =~= seq!['H', 'T', 'T', 'P', '/', '1', '.', '1', ' ']);
    assert(line.skip(line.len() - 5) =~= seq![' ', 'O', 'K', '\r', '\n']);
    assert(status_numeral(line) =~= d);
}

/// A body that renders itself as bytes.
pub trait Body {
    fn raw() -> Vec<u8>;
}

/// An HTTP response.
#[derive(Debug, Clone)]
pub struct Response {
    pub status: u16,
    pub headers: Headers,
    pub body: Vec<u8>,
}

impl Response {
    /// A `200` response without headers or body.
    pub fn build() -> (r: Response)
        ensures
            r.status == 200,
            r.headers.entries() == Seq::<Entry>::empty(),
            r.body@ == Seq::<u8>::empty(),
    {
        Response { status: 200, headers: Headers::empty(), body: Vec::new() }
    }

    /// Sets the header `head` to `value`.
    pub fn insert(&mut self, head: &str, value: &str)
        ensures
            final(self).headers.entries() == insert_entry(old(self).headers.entries(), head@, value@),
            final(self).headers@ == old(self).headers@.insert(head@, value@),
            final(self).status == old(self).status,
            final(self).body == old(self).body,
    {
        self.headers.insert(head.to_owned(), value.to_owned());
    }

    /// Replaces the body by `data`.
    pub fn body(&mut self, data: Vec<u8>)
        ensures
            final(self).body == data,
            final(self).status == old(self).status,
            final(self).headers == old(self).headers,
    {
        self.body = data;
    }

    /// The bytes of the response.
    pub fn raw(&mut self) -> (r: Vec<u8>)
        ensures
            r@ == response_bytes(old(self).status, old(self).headers.entries(), old(self).body@),
            *final(self) == *old(self),
    {
        let mut code = String::new();
        let prefix = "HTTP/1.1 ";
        let suffix = " OK\r\n";
        let end = "\r\n\r\n";
        proof {
            reveal_strlit("HTTP/1.1 ");
            reveal_strlit(" OK\r\n");
            reveal_strlit("\r\n\r\n");
        }
        code.append(prefix);
        push_decimal(&mut code, self.status);
        code.append(suffix);
        assert(code@ =~= status_line(self.status));
        assert(end@ =~= crlf() + crlf());
        let mut response: Vec<u8> = code.as_str().as_bytes_vec();
        let mut header_raw = Headers::parse_to_u8(&self.headers);
        let mut blank = end.as_bytes_vec();
        let mut body = vstd::slice::slice_to_vec(self.body.as_slice());
        response.append(&mut header_raw);
        response.append(&mut blank);
        response.append(&mut body);
        response
    }
}

} // verus!
