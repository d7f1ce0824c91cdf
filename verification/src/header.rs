//! HTTP header fields: parsing header lines and rendering them back.
use vstd::prelude::*;

use crate::text::{chars_of, crlf, prepend_first, push_char, split_on, string_of};

verus! {

broadcast use vstd::string::group_string_axioms;

// ---------------------------------------------------------------------------
// Specifications
// ---------------------------------------------------------------------------

/// A header name and value.
pub type Entry = (Seq<char>, Seq<char>);

/// `i` is the position of the first `:` of `s`.
pub open spec fn first_colon(s: Seq<char>, i: int) -> bool {
    &&& 0 <= i < s.len()
    &&& s[i] == ':'
    &&& forall|j: int| 0 <= j < i ==> s[j] != ':'
}

/// A line cut at its first `:` into what stands before and after it; two
/// empty pieces when the line holds no `:`.
pub open spec fn split_header_spec(s: Seq<char>) -> Entry {
    if exists|i: int| first_colon(s, i) {
        let i = choose|i: int| first_colon(s, i);
        (s.take(i), s.skip(i + 1))
    } else {
        (Seq::empty(), Seq::empty())
    }
}

/// Whether `c` is removed from header values (carriage return or space).
pub open spec fn is_blank(c: char) -> bool {
    c == '\r' || c == ' '
}

/// `s` without its carriage returns and spaces.
pub open spec fn strip_blanks(s: Seq<char>) -> Seq<char>
    decreases s.len(),
{
    if s.len() == 0 {
        s
    } else if is_blank(s.last()) {
        strip_blanks(s.drop_last())
    } else {
        strip_blanks(s.drop_last()).push(s.last())
    }
}

/// The header that a line declares: the text before its first `:` and the
/// text after it stripped of blanks, when both pieces are non-empty.
pub open spec fn header_entry(line: Seq<char>) -> Option<Entry> {
    let (name, raw) = split_header_spec(line);
    if name.len() > 0 && raw.len() > 0 {
        Some((name, strip_blanks(raw)))
    } else {
        None
    }
}

/// No name occurs twice.
pub open spec fn distinct_names(es: Seq<Entry>) -> bool {
    forall|i: int, j: int| 0 <= i < j < es.len() ==> es[i].0 != es[j].0
}

/// `name` occurs at position `i`.
pub open spec fn name_at(es: Seq<Entry>, name: Seq<char>, i: int) -> bool {
    0 <= i < es.len() && es[i].0 == name
}

/// The entries after setting `name` to `value`: the value of an entry with
/// that name is replaced in place, or a new entry is added at the end.
pub open spec fn insert_entry(es: Seq<Entry>, name: Seq<char>, value: Seq<char>) -> Seq<Entry> {
    if exists|i: int| name_at(es, name, i) {
        let i = choose|i: int| name_at(es, name, i);
        es.update(i, (name, value))
    } else {
        es.push((name, value))
    }
}

/// The map that the entries describe, later entries winning.
pub open spec fn entries_map(es: Seq<Entry>) -> Map<Seq<char>, Seq<char>>
    decreases es.len(),
{
    if es.len() == 0 {
        Map::empty()
    } else {
        entries_map(es.drop_last()).insert(es.last().0, es.last().1)
    }
}

/// The entries that a sequence of header lines gives, in the order in which
/// their names first occur.
pub open spec fn header_entries(lines: Seq<Seq<char>>) -> Seq<Entry>
    decreases lines.len(),
{
    if lines.len() == 0 {
        Seq::empty()
    } else {
        let es = header_entries(lines.drop_last());
        match header_entry(lines.last()) {
            Some(e) => insert_entry(es, e.0, e.1),
            None => es,
        }
    }
}

/// The header map that a sequence of header lines gives.
pub open spec fn header_map(lines: Seq<Seq<char>>) -> Map<Seq<char>, Seq<char>> {
    entries_map(header_entries(lines))
}

/// The line `name: value`.
pub open spec fn header_line(e: Entry) -> Seq<char> {
    e.0 + seq![':', ' '] + e.1
}

/// The lines joined with CRLF between them.
pub open spec fn join_lines(ls: Seq<Seq<char>>) -> Seq<char>
    decreases ls.len(),
{
    if ls.len() == 0 {
        Seq::empty()
    } else if ls.len() == 1 {
        ls[0]
    } else {
        join_lines(ls.drop_last()) + crlf() + ls.last()
    }
}

/// The text of the entries: one `name: value` line each, joined with CRLF.
pub open spec fn header_text(es: Seq<Entry>) -> Seq<char> {
    join_lines(es.map_values(|e: Entry| header_line(e)))
}

// ---------------------------------------------------------------------------
// Lemmas
// ---------------------------------------------------------------------------

proof fn lemma_first_colon_unique(s: Seq<char>, i: int, j: int)
    requires
        first_colon(s, i),
        first_colon(s, j),
    ensures
        i == j,
{
    if i < j {
        assert(s[i] != ':');
    } else if j < i {
        assert(s[j] != ':');
    }
}

proof fn lemma_name_at_unique(es: Seq<Entry>, name: Seq<char>, i: int, j: int)
    requires
        distinct_names(es),
        name_at(es, name, i),
        name_at(es, name, j),
    ensures
        i == j,
{
    if i < j {
        assert(es[i].0 != es[j].0);
    } else if j < i {
        assert(es[j].0 != es[i].0);
    }
}

/// Looking a name up in distinct fields finds it exactly when a field has
/// that name, and gives that field's value.
pub proof fn law_lookup_finds_field(es: Seq<Entry>, name: Seq<char>)
    requires
        distinct_names(es),
    ensures
        entries_map(es).contains_key(name) <==> exists|i: int| name_at(es, name, i),
        forall|i: int| name_at(es, name, i) ==> entries_map(es)[name] == es[i].1,
    decreases es.len(),
{
    if es.len() > 0 {
        let init = es.drop_last();
        assert(distinct_names(init));
        law_lookup_finds_field(init, name);
        if exists|i: int| name_at(init, name, i) {
            let k = choose|i: int| name_at(init, name, i);
            assert(name_at(es, name, k));
        }
        if exists|i: int| name_at(es, name, i) {
            let k = choose|i: int| name_at(es, name, i);
            if k < es.len() - 1 {
                assert(name_at(init, name, k));
            }
        }
        if name == es.last().0 {
            assert(name_at(es, name, es.len() - 1));
        }
        assert forall|i: int| name_at(es, name, i) implies entries_map(es)[name] == es[i].1 by {
            if i < es.len() - 1 {
                assert(name_at(init, name, i));
                assert(es[i].0 != es[es.len() - 1].0);
            }
        }
    }
}

/// Setting a name to a value keeps the names distinct, gives that value for
/// the name, and leaves every other name as it was.
pub proof fn law_insert_sets_name(es: Seq<Entry>, name: Seq<char>, value: Seq<char>)
    requires
        distinct_names(es),
    ensures
        distinct_names(insert_entry(es, name, value)),
        entries_map(insert_entry(es, name, value)) == entries_map(es).insert(name, value),
    decreases es.len(),
{
    if exists|i: int| name_at(es, name, i) {
        let i = choose|i: int| name_at(es, name, i);
        let es2 = es.update(i, (name, value));
        assert(distinct_names(es2)) by {
            assert forall|a: int, b: int| 0 <= a < b < es2.len() implies es2[a].0 != es2[b].0 by {
                assert(es[a].0 != es[b].0);
            }
        }
        lemma_update_map(es, i, value);
    } else {
        let es2 = es.push((name, value));
        assert(es2.drop_last() =~= es);
        assert(distinct_names(es2)) by {
            assert forall|a: int, b: int| 0 <= a < b < es2.len() implies es2[a].0 != es2[b].0 by {
                if b == es.len() {
                    assert(!name_at(es, name, a));
                } else {
                    assert(es[a].0 != es[b].0);
                }
            }
        }
    }
}

proof fn lemma_update_map(es: Seq<Entry>, i: int, value: Seq<char>)
    requires
        distinct_names(es),
        0 <= i < es.len(),
    ensures
        entries_map(es.update(i, (es[i].0, value))) == entries_map(es).insert(es[i].0, value),
    decreases es.len(),
{
    let name = es[i].0;
    let es2 = es.update(i, (name, value));
    let last = es.len() - 1;
    if i == last {
        assert(es2.drop_last() =~= es.drop_last());
        assert(entries_map(es2) =~= entries_map(es).insert(name, value));
    } else {
        let init = es.drop_last();
        assert(distinct_names(init));
        assert(es2.drop_last() =~= init.update(i, (name, value)));
        lemma_update_map(init, i, value);
        assert(es[i].0 != es[last].0);
        assert(entries_map(es2) =~= entries_map(es).insert(name, value));
    }
}

/// The entries of any header lines have distinct names.
pub proof fn lemma_header_entries_distinct(lines: Seq<Seq<char>>)
    ensures
        distinct_names(header_entries(lines)),
    decreases lines.len(),
{
    if lines.len() > 0 {
        lemma_header_entries_distinct(lines.drop_last());
        let es = header_entries(lines.drop_last());
        match header_entry(lines.last()) {
            Some(e) => {
                law_insert_sets_name(es, e.0, e.1);
            },
            None => {},
        }
    }
}

proof fn lemma_strip_push(s: Seq<char>, c: char)
    ensures
        strip_blanks(s.push(c)) == if is_blank(c) {
            strip_blanks(s)
        } else {
            strip_blanks(s).push(c)
        },
{
    assert(s.push(c).drop_last() =~= s);
}

// ---------------------------------------------------------------------------
// The header collection
// ---------------------------------------------------------------------------

/// Header fields by name. Each name occurs once; the fields keep the order
/// in which their names were first set.
#[derive(Debug)]
pub struct Headers {
    headers: Vec<(String, String)>,
}

impl Clone for Headers {
    /// A copy with the same fields in the same order.
    fn clone(&self) -> (c: Self)
        ensures
            c.entries() == self.entries(),
    {
        proof {
            use_type_invariant(self);
        }
        let n = self.headers.len();
        let mut fields: Vec<(String, String)> = Vec::new();
        let mut i: usize = 0;
        while i < n
            invariant
                n == self.entries().len(),
                i <= n,
                fields@.map_values(|p: (String, String)| (p.0@, p.1@)) == self.entries().take(i as int),
            decreases n - i,
        {
            let ghost before = fields@.map_values(|p: (String, String)| (p.0@, p.1@));
            let name = self.headers[i].0.clone();
            let value = self.headers[i].1.clone();
            assert(self.entries()[i as int] == (name@, value@));
            fields.push((name, value));
            assert(fields@.map_values(|p: (String, String)| (p.0@, p.1@)) =~= before.push((name@, value@)));
            assert(self.entries().take(i + 1) =~= self.entries().take(i as int).push((name@, value@)));
            i = i + 1;
        }
        assert(self.entries().take(n as int) =~= self.entries());
        Headers { headers: fields }
    }
}

impl View for Headers {
    type V = Map<Seq<char>, Seq<char>>;

    open spec fn view(&self) -> Map<Seq<char>, Seq<char>> {
        entries_map(self.entries())
    }
}

impl Headers {
    /// The fields, in order.
    pub closed spec fn entries(&self) -> Seq<Entry> {
        self.headers@.map_values(|p: (String, String)| (p.0@, p.1@))
    }

    #[verifier::type_invariant]
    spec fn names_are_distinct(&self) -> bool {
        distinct_names(self.entries())
    }

    /// A collection without fields.
    pub fn empty() -> (h: Headers)
        ensures
            h.entries() == Seq::<Entry>::empty(),
            h@ == Map::<Seq<char>, Seq<char>>::empty(),
    {
        let h = Headers { headers: Vec::new() };
        assert(h.entries() =~= Seq::<Entry>::empty());
        h
    }

    /// The number of fields.
    pub fn len(&self) -> (n: usize)
        ensures
            n == self.entries().len(),
    {
        self.headers.len()
    }

    /// The name and value of the field at position `i`.
    pub fn entry_at(&self, i: usize) -> (r: (&String, &String))
        requires
            i < self.entries().len(),
        ensures
            (r.0@, r.1@) == self.entries()[i as int],
    {
        let p = &self.headers[i];
        (&p.0, &p.1)
    }

    /// Sets `name` to `value`, replacing the value of a field of that name or
    /// adding a field at the end.
    pub fn insert(&mut self, name: String, value: String)
        ensures
            final(self).entries() == insert_entry(old(self).entries(), name@, value@),
            final(self)@ == old(self)@.insert(name@, value@),
    {
        proof {
            use_type_invariant(&*self);
            law_insert_sets_name(self.entries(), name@, value@);
        }
        let ghost es = self.entries();
        let mut fields: Vec<(String, String)> = Vec::new();
        std::mem::swap(&mut fields, &mut self.headers);
        let n = fields.len();
        let mut i: usize = 0;
        while i < n
            invariant
                n == fields@.len(),
                i <= n,
                es == fields@.map_values(|p: (String, String)| (p.0@, p.1@)),
                distinct_names(es),
                distinct_names(insert_entry(es, name@, value@)),
                es == old(self).entries(),
                entries_map(insert_entry(es, name@, value@)) == entries_map(es).insert(name@, value@),
                forall|j: int| 0 <= j < i ==> es[j].0 != name@,
            decreases n - i,
        {
            if fields[i].0 == name {
                assert(name_at(es, name@, i as int));
                proof {
                    let k = choose|k: int| name_at(es, name@, k);
                    lemma_name_at_unique(es, name@, i as int, k);
                }
                fields.set(i, (name, value));
                assert(fields@.map_values(|p: (String, String)| (p.0@, p.1@)) =~= insert_entry(
                    es,
                    name@,
                    value@,
                ));
                self.headers = fields;
                return ;
            }
            i = i + 1;
        }
        assert(!exists|k: int| name_at(es, name@, k));
        let ghost nv = (name@, value@);
        fields.push((name, value));
        assert(fields@.map_values(|p: (String, String)| (p.0@, p.1@)) =~= es.push(nv));
        self.headers = fields;
    }

    /// The value of the field called `name`.
    pub fn get(&self, name: &str) -> (r: Option<&String>)
        ensures
            match r {
                Some(v) => self@.contains_key(name@) && v@ == self@[name@],
                None => !self@.contains_key(name@),
            },
    {
        proof {
            use_type_invariant(self);
            law_lookup_finds_field(self.entries(), name@);
        }
        let ghost es = self.entries();
        let key = name.to_owned();
        let n = self.headers.len();
        let mut i: usize = 0;
        while i < n
            invariant
                n == self.entries().len(),
                i <= n,
                key@ == name@,
                forall|j: int| 0 <= j < i ==> self.entries()[j].0 != name@,
            decreases n - i,
        {
            if self.headers[i].0 == key {
                assert(name_at(self.entries(), name@, i as int));
                proof {
                    use_type_invariant(self);
                    law_lookup_finds_field(self.entries(), name@);
                }
                return Some(&self.headers[i].1);
            }
            i = i + 1;
        }
        None
    }

    /// Cuts `data` at its first `:` into the text before and after it; two
    /// empty strings when it holds no `:`.
    fn split_header(data: &str) -> (r: (String, String))
        ensures
            (r.0@, r.1@) == split_header_spec(data@),
    {
        let chars = chars_of(data);
        let n = chars.len();
        let mut i: usize = 0;
        while i < n
            invariant
                n == chars@.len(),
                chars@ == data@,
                i <= n,
                forall|j: int| 0 <= j < i ==> chars@[j] != ':',
            decreases n - i,
        {
            if chars[i] == ':' {
                assert(first_colon(data@, i as int));
                proof {
                    let k = choose|k: int| first_colon(data@, k);
                    lemma_first_colon_unique(data@, i as int, k);
                }
                let name = string_of(&chars, 0, i);
                let value = string_of(&chars, i + 1, n);
                assert(data@.take(i as int) =~= chars@.subrange(0, i as int));
                assert(data@.skip(i + 1) =~= chars@.subrange(i + 1, n as int));
                return (name, value);
            }
            i = i + 1;
        }
        assert(!exists|k: int| first_colon(data@, k));
        (String::new(), String::new())
    }

    /// `raw` without carriage returns and spaces.
    fn strip(raw: &String) -> (s: String)
        ensures
            s@ == strip_blanks(raw@),
    {
        let chars = chars_of(raw.as_str());
        let n = chars.len();
        let mut s = String::new();
        let mut i: usize = 0;
        while i < n
            invariant
                n == chars@.len(),
                chars@ == raw@,
                i <= n,
                s@ == strip_blanks(chars@.take(i as int)),
            decreases n - i,
        {
            let c = chars[i];
            proof {
                assert(chars@.take(i + 1) =~= chars@.take(i as int).push(c));
                lemma_strip_push(chars@.take(i as int), c);
            }
            if c != '\r' && c != ' ' {
                push_char(&mut s, c);
            }
            i = i + 1;
        }
        assert(chars@.take(n as int) =~= chars@);
        s
    }

    /// The headers declared by `split_data`, one line each: a line declares
    /// the text before its first `:` as name and the text after it, without
    /// carriage returns and spaces, as value, when both are non-empty.
    pub fn new(split_data: &[&str]) -> (h: Headers)
        ensures
            h.entries() == header_entries(split_data@.map_values(|s: &str| s@)),
            h@ == header_map(split_data@.map_values(|s: &str| s@)),
    {
        let ghost lines = split_data@.map_values(|s: &str| s@);
        let mut h = Headers::empty();
        let n = split_data.len();
        let mut i: usize = 0;
        assert(lines.take(0) =~= Seq::<Seq<char>>::empty());
        while i < n
            invariant
                n == split_data@.len(),
                lines == split_data@.map_values(|s: &str| s@),
                i <= n,
                h.entries() == header_entries(lines.take(i as int)),
            decreases n - i,
        {
            let (name, raw) = Self::split_header(split_data[i]);
            proof {
                assert(lines.take(i + 1).drop_last() =~= lines.take(i as int));
                assert(lines.take(i + 1).last() == split_data@[i as int]@);
            }
            if !name.as_str().is_empty() && !raw.as_str().is_empty() {
                let value = Self::strip(&raw);
                h.insert(name, value);
            }
            i = i + 1;
        }
        assert(lines.take(n as int) =~= lines);
        h
    }

    /// The fields as text: one `name: value` line each, joined with CRLF.
    pub fn parse_to_string(data: &Headers) -> (s: String)
        ensures
            s@ == header_text(data.entries()),
    {
        let ghost lines = data.entries().map_values(|e: Entry| header_line(e));
        let sep = "\r\n";
        let colon = ": ";
        proof {
            reveal_strlit("\r\n");
            reveal_strlit(": ");
        }
        let mut s = String::new();
        let n = data.headers.len();
        let mut i: usize = 0;
        assert(lines.take(0) =~= Seq::<Seq<char>>::empty());
        while i < n
            invariant
                n == data.entries().len(),
                lines == data.entries().map_values(|e: Entry| header_line(e)),
                sep@ == crlf(),
                colon@ == seq![':', ' '],
                i <= n,
                s@ == join_lines(lines.take(i as int)),
            decreases n - i,
        {
            let ghost before = s@;
            if i > 0 {
                s.append(sep);
            }
            let (name, value) = data.entry_at(i);
            s.append(name.as_str());
            s.append(colon);
            s.append(value.as_str());
            proof {
                let t = lines.take(i + 1);
                assert(t.drop_last() =~= lines.take(i as int));
                assert(t.last() == header_line(data.entries()[i as int]));
                if i == 0 {
                    assert(s@ =~= t[0]);
                } else {
                    assert(s@ =~= join_lines(t.drop_last()) + crlf() + t.last());
                }
            }
            i = i + 1;
        }
        assert(lines.take(n as int) =~= lines);
        s
    }

    /// The bytes of the fields' text (`parse_to_string`), in UTF-8.
    pub fn parse_to_u8(data: &Headers) -> (r: Vec<u8>)
        ensures
            r@ == vstd::utf8::encode_utf8(header_text(data.entries())),
    {
        let s = Self::parse_to_string(data);
        s.as_str().as_bytes_vec()
    }
}


// ---------------------------------------------------------------------------
// Rendering and parsing back
// ---------------------------------------------------------------------------

/// `s` holds no CRLF.
pub open spec fn no_crlf(s: Seq<char>) -> bool {
    forall|i: int| 0 <= i < s.len() - 1 ==> !(s[i] == '\r' && #[trigger] s[i + 1] == '\n')
}

/// A field that its own line declares again: a non-empty name without `:`
/// or CRLF, and a value without carriage returns or spaces.
pub open spec fn plain_entry(e: Entry) -> bool {
    &&& e.0.len() > 0
    &&& forall|i: int| 0 <= i < e.0.len() ==> #[trigger] e.0[i] != ':'
    &&& no_crlf(e.0)
    &&& forall|i: int| 0 <= i < e.1.len() ==> !is_blank(#[trigger] e.1[i])
}

proof fn lemma_split_crlf_plain(p: Seq<char>)
    requires
        no_crlf(p),
    ensures
        split_on(p, crlf()) == seq![p],
    decreases p.len(),
{
    if p.len() == 0 {
        assert(p =~= Seq::<char>::empty());
        assert(seq![p] =~= seq![Seq::<char>::empty()]);
    } else {
        let q = p.skip(1);
        assert forall|i: int| 0 <= i < q.len() - 1 implies !(q[i] == '\r' && #[trigger] q[i + 1] == '\n') by {
            assert(q[i] == p[i + 1] && q[i + 1] == p[i + 2]);
        }
        lemma_split_crlf_plain(q);
        if crlf().is_prefix_of(p) {
            assert(p[0] == crlf()[0] && p[1] == crlf()[1]);
        }
        assert(seq![p[0]] + q =~= p);
        assert(prepend_first(seq![p[0]], seq![q]) =~= seq![p]);
    }
}

pub(crate) proof fn lemma_split_crlf_cons(p: Seq<char>, rest: Seq<char>)
    requires
        no_crlf(p),
    ensures
        split_on(p + crlf() + rest, crlf()) == seq![p] + split_on(rest, crlf()),
    decreases p.len(),
{
    let s = p + crlf() + rest;
    if p.len() == 0 {
        assert(crlf().is_prefix_of(s)) by {
            assert(s.subrange(0, 2) =~= crlf());
        }
        assert(s.skip(2) =~= rest);
        assert(p =~= Seq::<char>::empty());
        assert(seq![p] =~= seq![Seq::<char>::empty()]);
    } else {
        let q = p.skip(1);
        assert forall|i: int| 0 <= i < q.len() - 1 implies !(q[i] == '\r' && #[trigger] q[i + 1] == '\n') by {
            assert(q[i] == p[i + 1] && q[i + 1] == p[i + 2]);
        }
        lemma_split_crlf_cons(q, rest);
        assert(s.skip(1) =~= q + crlf() + rest);
        if crlf().is_prefix_of(s) {
            assert(s[0] == '\r' && s[1] == '\n');
            if p.len() >= 2 {
                assert(p[0] == s[0] && p[1] == s[1]);
            } else {
                assert(s[1] == '\r');
            }
        }
        crate::text::lemma_split_nonempty(rest, crlf());
        assert(seq![p[0]] + q =~= p);
        assert(prepend_first(seq![p[0]], seq![q] + split_on(rest, crlf())) =~= seq![p] + split_on(rest, crlf()));
    }
}

proof fn lemma_join_cons(x: Seq<char>, rest: Seq<Seq<char>>)
    requires
        rest.len() > 0,
    ensures
        join_lines(seq![x] + rest) == x + crlf() + join_lines(rest),
    decreases rest.len(),
{
    let ls = seq![x] + rest;
    if rest.len() == 1 {
        assert(ls.drop_last() =~= seq![x]);
        assert(join_lines(ls.drop_last()) == x);
        assert(join_lines(rest) == rest[0]);
        assert(rest[0] == ls.last());
        assert(join_lines(ls) =~= x + crlf() + join_lines(rest));
    } else {
        lemma_join_cons(x, rest.drop_last());
        assert(ls.drop_last() =~= seq![x] + rest.drop_last());
        assert(ls.last() == rest.last());
        assert(join_lines(ls) == join_lines(seq![x] + rest.drop_last()) + crlf() + rest.last());
        assert(join_lines(rest) == join_lines(rest.drop_last()) + crlf() + rest.last());
        assert(join_lines(ls) =~= x + crlf() + join_lines(rest));
    }
}

proof fn lemma_split_join(ls: Seq<Seq<char>>)
    requires
        ls.len() > 0,
        forall|k: int| 0 <= k < ls.len() ==> no_crlf(#[trigger] ls[k]),
    ensures
        split_on(join_lines(ls), crlf()) == ls,
    decreases ls.len(),
{
    let x = ls[0];
    let rest = ls.skip(1);
    assert(ls =~= seq![x] + rest);
    assert(no_crlf(x));
    if ls.len() == 1 {
        lemma_split_crlf_plain(x);
        assert(seq![x] =~= ls);
    } else {
        assert forall|k: int| 0 <= k < rest.len() implies no_crlf(#[trigger] rest[k]) by {
            assert(rest[k] == ls[k + 1]);
        }
        lemma_split_join(rest);
        lemma_join_cons(x, rest);
        lemma_split_crlf_cons(x, join_lines(rest));
    }
}

proof fn lemma_strip_concat(a: Seq<char>, b: Seq<char>)
    ensures
        strip_blanks(a + b) == strip_blanks(a) + strip_blanks(b),
    decreases b.len(),
{
    if b.len() == 0 {
        assert(a + b =~= a);
        assert(strip_blanks(a) + strip_blanks(b) =~= strip_blanks(a));
    } else {
        lemma_strip_concat(a, b.drop_last());
        assert((a + b).drop_last() =~= a + b.drop_last());
        if is_blank(b.last()) {
        } else {
            assert(strip_blanks(a + b) =~= strip_blanks(a) + strip_blanks(b));
        }
    }
}

proof fn lemma_strip_plain(v: Seq<char>)
    requires
        forall|i: int| 0 <= i < v.len() ==> !is_blank(#[trigger] v[i]),
    ensures
        strip_blanks(v) == v,
    decreases v.len(),
{
    if v.len() > 0 {
        assert(!is_blank(v[v.len() - 1]));
        lemma_strip_plain(v.drop_last());
        assert(v.drop_last().push(v.last()) =~= v);
    }
}

proof fn lemma_line_of_plain(e: Entry)
    requires
        plain_entry(e),
    ensures
        header_entry(header_line(e)) == Some(e),
        no_crlf(header_line(e)),
{
    let line = header_line(e);
    let k: int = e.0.len() as int;
    assert(first_colon(line, k));
    let i = choose|i: int| first_colon(line, i);
    lemma_first_colon_unique(line, i, k);
    assert(line.take(k) =~= e.0);
    assert(line.skip(k + 1) =~= seq![' '] + e.1);
    lemma_strip_concat(seq![' '], e.1);
    assert(seq![' '].drop_last() =~= Seq::<char>::empty());
    assert(strip_blanks(Seq::<char>::empty()) == Seq::<char>::empty());
    assert(strip_blanks(seq![' ']) =~= Seq::<char>::empty());
    lemma_strip_plain(e.1);
    assert(Seq::<char>::empty() + e.1 =~= e.1);
    assert forall|j: int| 0 <= j < line.len() - 1 implies !(line[j] == '\r' && #[trigger] line[j + 1] == '\n') by {
        if j < k - 1 {
            assert(line[j] == e.0[j] && line[j + 1] == e.0[j + 1]);
        } else if j == k - 1 {
            assert(line[j + 1] == ':');
        } else if j == k {
            assert(line[j] == ':');
        } else if j == k + 1 {
            assert(line[j] == ' ');
        } else {
            assert(line[j] == e.1[j - k - 2]);
        }
    }
}

proof fn lemma_entries_of_lines(es: Seq<Entry>)
    requires
        distinct_names(es),
        forall|k: int| 0 <= k < es.len() ==> plain_entry(#[trigger] es[k]),
    ensures
        header_entries(es.map_values(|e: Entry| header_line(e))) == es,
    decreases es.len(),
{
    let ls = es.map_values(|e: Entry| header_line(e));
    if es.len() > 0 {
        let init = es.drop_last();
        assert(distinct_names(init));
        assert forall|k: int| 0 <= k < init.len() implies plain_entry(#[trigger] init[k]) by {
            assert(init[k] == es[k]);
        }
        lemma_entries_of_lines(init);
        assert(ls.drop_last() =~= init.map_values(|e: Entry| header_line(e)));
        let e = es.last();
        assert(plain_entry(es[es.len() - 1]));
        lemma_line_of_plain(e);
        assert(!exists|i: int| name_at(init, e.0, i)) by {
            if exists|i: int| name_at(init, e.0, i) {
                let i = choose|i: int| name_at(init, e.0, i);
                assert(es[i].0 != es[es.len() - 1].0);
            }
        }
        assert(init.push(e) =~= es);
    } else {
        assert(ls =~= Seq::<Seq<char>>::empty());
    }
}

/// Rendering headers as text and parsing the lines of that text gives back
/// the same fields in the same order, for fields that their own lines
/// declare again (see `plain_entry`).
pub proof fn law_text_parses_back(es: Seq<Entry>)
    requires
        distinct_names(es),
        forall|k: int| 0 <= k < es.len() ==> plain_entry(#[trigger] es[k]),
    ensures
        header_entries(split_on(header_text(es), crlf())) == es,
        header_map(split_on(header_text(es), crlf())) == entries_map(es),
{
    let ls = es.map_values(|e: Entry| header_line(e));
    if es.len() == 0 {
        assert(ls =~= Seq::<Seq<char>>::empty());
        let lines = split_on(header_text(es), crlf());
        assert(lines =~= seq![Seq::<char>::empty()]);
        assert(lines.drop_last() =~= Seq::<Seq<char>>::empty());
        assert(!first_colon(Seq::<char>::empty(), 0));
        assert(header_entry(lines.last()) is None);
        assert(header_entries(lines.drop_last()) =~= Seq::<Entry>::empty());
        assert(header_entries(lines) =~= es);
    } else {
        assert forall|k: int| 0 <= k < ls.len() implies no_crlf(#[trigger] ls[k]) by {
            lemma_line_of_plain(es[k]);
        }
        lemma_split_join(ls);
        lemma_entries_of_lines(es);
    }
}

proof fn lemma_strip_no_blanks(s: Seq<char>)
    ensures
        forall|i: int| 0 <= i < strip_blanks(s).len() ==> !is_blank(#[trigger] strip_blanks(s)[i]),
    decreases s.len(),
{
    if s.len() > 0 {
        lemma_strip_no_blanks(s.drop_last());
        let r = strip_blanks(s.drop_last());
        if !is_blank(s.last()) {
            assert forall|i: int| 0 <= i < r.push(s.last()).len() implies !is_blank(
                #[trigger] r.push(s.last())[i],
            ) by {
                if i < r.len() {
                    assert(r.push(s.last())[i] == r[i]);
                }
            }
        }
    }
}

proof fn lemma_entry_of_line_plain(line: Seq<char>)
    requires
        no_crlf(line),
        header_entry(line) is Some,
    ensures
        plain_entry(header_entry(line)->0),
{
    let i = choose|i: int| first_colon(line, i);
    let e = header_entry(line)->0;
    assert(e.0 == line.take(i));
    assert forall|j: int| 0 <= j < e.0.len() implies #[trigger] e.0[j] != ':' by {
        assert(e.0[j] == line[j]);
    }
    assert forall|j: int| 0 <= j < e.0.len() - 1 implies !(e.0[j] == '\r' && #[trigger] e.0[j + 1] == '\n') by {
        assert(e.0[j] == line[j] && e.0[j + 1] == line[j + 1]);
    }
    lemma_strip_no_blanks(line.skip(i + 1));
}

/// The fields that header lines declare have non-empty names without `:`
/// and values without spaces or carriage returns; for lines without CRLF,
/// their names hold no CRLF either.
pub proof fn law_parsed_fields_are_plain(lines: Seq<Seq<char>>)
    requires
        forall|k: int| 0 <= k < lines.len() ==> no_crlf(#[trigger] lines[k]),
    ensures
        forall|k: int|
            0 <= k < header_entries(lines).len() ==> plain_entry(#[trigger] header_entries(lines)[k]),
    decreases lines.len(),
{
    if lines.len() > 0 {
        let init = lines.drop_last();
        assert forall|k: int| 0 <= k < init.len() implies no_crlf(#[trigger] init[k]) by {
            assert(init[k] == lines[k]);
        }
        law_parsed_fields_are_plain(init);
        let es = header_entries(init);
        assert(no_crlf(lines[lines.len() - 1]));
        match header_entry(lines.last()) {
            Some(e) => {
                lemma_entry_of_line_plain(lines.last());
                let es2 = insert_entry(es, e.0, e.1);
                assert forall|k: int| 0 <= k < es2.len() implies plain_entry(#[trigger] es2[k]) by {
                    if k < es.len() && es2[k] == es[k] {
                    } else {
                        assert(es2[k] == e);
                    }
                }
            },
            None => {},
        }
    }
}

/// Parsing header lines, rendering the fields as text and parsing the lines
/// of that text again gives the same fields in the same order, for lines
/// that hold no CRLF (as the lines of a request do).
pub proof fn law_parse_render_parse(lines: Seq<Seq<char>>)
    requires
        forall|k: int| 0 <= k < lines.len() ==> no_crlf(#[trigger] lines[k]),
    ensures
        header_entries(split_on(header_text(header_entries(lines)), crlf())) == header_entries(lines),
{
    lemma_header_entries_distinct(lines);
    law_parsed_fields_are_plain(lines);
    law_text_parses_back(header_entries(lines));
}

} // verus!
