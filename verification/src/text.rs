//! Character-level text utilities: splitting on a separator, decimal
//! rendering and parsing, and the conversions between bytes and text that
//! the HTTP code needs.
use vstd::prelude::*;
use vstd::utf8::{decode_utf8, valid_utf8};

verus! {

broadcast use vstd::string::group_string_axioms;

// ---------------------------------------------------------------------------
// Specifications
// ---------------------------------------------------------------------------

/// `parts` with `p` glued in front of its first element.
pub open spec fn prepend_first(p: Seq<char>, parts: Seq<Seq<char>>) -> Seq<Seq<char>> {
    parts.update(0, p + parts[0])
}

/// The pieces of `s` between the occurrences of `sep`, found from left to
/// right without overlap (what `str::split` with a string pattern yields).
pub open spec fn split_on(s: Seq<char>, sep: Seq<char>) -> Seq<Seq<char>>
    decreases s.len(),
{
    if s.len() == 0 {
        seq![Seq::<char>::empty()]
    } else if sep.len() > 0 && sep.is_prefix_of(s) {
        seq![Seq::<char>::empty()] + split_on(s.skip(sep.len() as int), sep)
    } else {
        prepend_first(seq![s[0]], split_on(s.skip(1), sep))
    }
}

/// The two-character line separator of HTTP.
pub open spec fn crlf() -> Seq<char> {
    seq!['\r', '\n']
}

/// The character that shows the decimal digit `d`.
pub open spec fn digit_char(d: nat) -> char {
    (d + 48) as char
}

/// The decimal numeral of `n`, without sign or leading zeros.
pub open spec fn decimal(n: nat) -> Seq<char>
    decreases n,
{
    if n < 10 {
        seq![digit_char(n)]
    } else {
        decimal(n / 10).push(digit_char(n % 10))
    }
}

/// Whether every character of `s` is an ASCII decimal digit.
pub open spec fn all_digits(s: Seq<char>) -> bool {
    forall|i: int| 0 <= i < s.len() ==> '0' <= #[trigger] s[i] <= '9'
}

/// The value of a string of decimal digits.
pub open spec fn digits_value(s: Seq<char>) -> nat
    decreases s.len(),
{
    if s.len() == 0 {
        0
    } else {
        digits_value(s.drop_last()) * 10 + (s.last() as nat - 48) as nat
    }
}

/// The digits that an unsigned numeral keeps after an optional leading `+`.
pub open spec fn unsigned_digits(s: Seq<char>) -> Seq<char> {
    if s.len() > 0 && s[0] == '+' {
        s.skip(1)
    } else {
        s
    }
}

/// What `str::parse::<usize>` gives: an optional `+`, then at least one
/// decimal digit and nothing else, of a value that fits in a `usize`.
pub open spec fn parse_usize_spec(s: Seq<char>) -> Option<usize> {
    let d = unsigned_digits(s);
    if d.len() > 0 && all_digits(d) && digits_value(d) <= usize::MAX {
        Some(digits_value(d) as usize)
    } else {
        None
    }
}

/// The text that `String::from_utf8_lossy` makes of `bytes`.
pub uninterp spec fn utf8_lossy(bytes: Seq<u8>) -> Seq<char>;

// ---------------------------------------------------------------------------
// Lemmas
// ---------------------------------------------------------------------------

/// Splitting always yields at least one piece.
pub proof fn lemma_split_nonempty(s: Seq<char>, sep: Seq<char>)
    ensures
        split_on(s, sep).len() >= 1,
    decreases s.len(),
{
    if s.len() == 0 {
    } else if sep.len() > 0 && sep.is_prefix_of(s) {
        lemma_split_nonempty(s.skip(sep.len() as int), sep);
    } else {
        lemma_split_nonempty(s.skip(1), sep);
    }
}

proof fn lemma_prepend_twice(a: Seq<char>, b: Seq<char>, parts: Seq<Seq<char>>)
    requires
        parts.len() >= 1,
    ensures
        prepend_first(a, prepend_first(b, parts)) == prepend_first(a + b, parts),
{
    assert(a + (b + parts[0]) =~= (a + b) + parts[0]);
    assert(prepend_first(a, prepend_first(b, parts)) =~= prepend_first(a + b, parts));
}

proof fn lemma_digits_value_monotone(s: Seq<char>, k: int)
    requires
        0 <= k <= s.len(),
        all_digits(s),
    ensures
        digits_value(s.take(k)) <= digits_value(s),
    decreases s.len() - k,
{
    if k < s.len() {
        lemma_digits_value_monotone(s, k + 1);
        assert(s.take(k + 1).drop_last() =~= s.take(k));
    } else {
        assert(s.take(k) =~= s);
    }
}

proof fn lemma_digit_char(d: nat)
    requires
        d < 10,
    ensures
        '0' <= digit_char(d) <= '9',
        digit_char(d) as nat == d + 48,
{
    assert(((d + 48) as char) as nat == d + 48);
}

/// The decimal numeral of `n` is a non-empty string of digits, with a
/// leading zero only when it is `0` itself, whose value is `n`; it parses
/// back to `n` as a `usize` whenever `n` fits in one.
pub proof fn law_decimal_reads_back(n: nat)
    ensures
        decimal(n).len() > 0,
        all_digits(decimal(n)),
        decimal(n)[0] == '0' ==> n == 0,
        digits_value(decimal(n)) == n,
        n <= usize::MAX ==> parse_usize_spec(decimal(n)) == Some(n as usize),
    decreases n,
{
    if n < 10 {
        lemma_digit_char(n);
        let d = decimal(n);
        assert(d.drop_last() =~= Seq::<char>::empty());
        assert(digits_value(d) == digits_value(d.drop_last()) * 10 + (d.last() as nat - 48) as nat);
    } else {
        law_decimal_reads_back(n / 10);
        lemma_digit_char(n % 10);
        let p = decimal(n / 10);
        let d = decimal(n);
        assert(d == p.push(digit_char(n % 10)));
        assert(d.drop_last() =~= p);
        assert(d[0] == p[0]);
        assert forall|i: int| 0 <= i < d.len() implies '0' <= #[trigger] d[i] <= '9' by {
            if i < p.len() {
                assert(d[i] == p[i]);
            }
        }
        assert(digits_value(d) == digits_value(p) * 10 + (n % 10));
        assert(n == (n / 10) * 10 + n % 10);
    }
    let d = decimal(n);
    assert(unsigned_digits(d) == d);
}

/// Splitting on a one-character separator: a piece without that character
/// followed by the separator is the first piece, and the rest is split on.
pub proof fn lemma_split_single_cons(x: Seq<char>, c: char, rest: Seq<char>)
    requires
        forall|i: int| 0 <= i < x.len() ==> x[i] != c,
    ensures
        split_on(x + seq![c] + rest, seq![c]) == seq![x] + split_on(rest, seq![c]),
    decreases x.len(),
{
    let s = x + seq![c] + rest;
    if x.len() == 0 {
        assert(seq![c].is_prefix_of(s)) by {
            assert(s.subrange(0, 1) =~= seq![c]);
        }
        assert(s.skip(1) =~= rest);
        assert(x =~= Seq::<char>::empty());
    } else {
        let q = x.skip(1);
        lemma_split_single_cons(q, c, rest);
        assert(s.skip(1) =~= q + seq![c] + rest);
        if seq![c].is_prefix_of(s) {
            assert(s[0] == seq![c][0]);
            assert(s[0] == x[0]);
        }
        lemma_split_nonempty(rest, seq![c]);
        assert(seq![x[0]] + q =~= x);
        assert(prepend_first(seq![x[0]], seq![q] + split_on(rest, seq![c])) =~~= seq![x] + split_on(
            rest,
            seq![c],
        ));
    }
}

/// Splitting a piece without the one-character separator gives the piece.
pub proof fn lemma_split_single_plain(x: Seq<char>, c: char)
    requires
        forall|i: int| 0 <= i < x.len() ==> x[i] != c,
    ensures
        split_on(x, seq![c]) == seq![x],
    decreases x.len(),
{
    if x.len() == 0 {
        assert(x =~= Seq::<char>::empty());
        assert(seq![x] =~= seq![Seq::<char>::empty()]);
    } else {
        let q = x.skip(1);
        lemma_split_single_plain(q, c);
        if seq![c].is_prefix_of(x) {
            assert(x[0] == seq![c][0]);
        }
        assert(seq![x[0]] + q =~= x);
        assert(prepend_first(seq![x[0]], seq![q]) =~~= seq![x]);
    }
}

// ---------------------------------------------------------------------------
// Trusted conversions of std
// ---------------------------------------------------------------------------

/// Calls `String::push`. Trusted: the string afterwards holds its former
/// characters followed by `c`, as std documents.
#[verifier::external_body]
pub(crate) fn push_char(s: &mut String, c: char)
    ensures
        final(s)@ == old(s)@.push(c),
{
    s.push(c);
}

/// Calls `String::from_utf8_lossy`. Trusted: the result is the named text
/// `utf8_lossy(bytes)`, which is the decoding of `bytes` when they are valid
/// UTF-8, as std documents. Which replacement characters stand for invalid
/// sequences is left unsaid.
#[verifier::external_body]
pub(crate) fn decode_lossy(bytes: &[u8]) -> (s: String)
    ensures
        s@ == utf8_lossy(bytes@),
        valid_utf8(bytes@) ==> s@ == decode_utf8(bytes@),
{
    String::from_utf8_lossy(bytes).into_owned()
}

// ---------------------------------------------------------------------------
// Executable functions
// ---------------------------------------------------------------------------

/// The characters of `s`, in order.
pub fn chars_of(s: &str) -> (v: Vec<char>)
    ensures
        v@ == s@,
{
    let mut v: Vec<char> = Vec::new();
    let mut it = s.chars();
    loop
        invariant
            v@ + vstd::std_specs::iter::IteratorSpec::remaining(&it) == s@,
            vstd::std_specs::iter::IteratorSpec::decrease(&it) is Some,
        decreases vstd::std_specs::iter::IteratorSpec::decrease(&it)->0,
    {
        match it.next() {
            Some(c) => {
                v.push(c);
            },
            None => {
                return v;
            },
        }
    }
}

/// The string made of `chars[from..to]`.
pub fn string_of(chars: &[char], from: usize, to: usize) -> (s: String)
    requires
        from <= to <= chars@.len(),
    ensures
        s@ == chars@.subrange(from as int, to as int),
{
    let mut s = String::new();
    let mut i = from;
    while i < to
        invariant
            from <= i <= to <= chars@.len(),
            s@ == chars@.subrange(from as int, i as int),
        decreases to - i,
    {
        push_char(&mut s, chars[i]);
        i = i + 1;
        assert(s@ =~= chars@.subrange(from as int, i as int));
    }
    s
}

/// Whether `pat` occurs in `text` at position `at`.
pub fn occurs_at(text: &[char], at: usize, pat: &[char]) -> (b: bool)
    requires
        at <= text@.len(),
    ensures
        b == pat@.is_prefix_of(text@.skip(at as int)),
{
    if pat.len() > text.len() - at {
        return false;
    }
    let n = text.len();
    let mut j: usize = 0;
    while j < pat.len()
        invariant
            n == text@.len(),
            j <= pat@.len(),
            at + pat@.len() <= text@.len(),
            forall|k: int| 0 <= k < j ==> text@[at + k] == pat@[k],
        decreases pat@.len() - j,
    {
        assert(at + j < text@.len());
        if text[at + j] != pat[j] {
            assert(text@.skip(at as int).subrange(0, pat@.len() as int)[j as int] != pat@[j as int]);
            return false;
        }
        j = j + 1;
    }
    assert(pat@ =~= text@.skip(at as int).subrange(0, pat@.len() as int));
    true
}

/// Splits `text` at each occurrence of `sep`, as `str::split` does.
pub fn split_chars(text: &[char], sep: &[char]) -> (parts: Vec<String>)
    requires
        sep@.len() > 0,
    ensures
        parts@.map_values(|p: String| p@) == split_on(text@, sep@),
{
    let mut parts: Vec<String> = Vec::new();
    let mut cur = String::new();
    let mut i: usize = 0;
    proof {
        assert(text@.skip(0) =~= text@);
        lemma_split_nonempty(text@, sep@);
        assert(prepend_first(cur@, split_on(text@, sep@)) =~~= split_on(text@, sep@));
        assert(parts@.map_values(|p: String| p@) + split_on(text@, sep@) =~= split_on(text@, sep@));
    }
    while i < text.len()
        invariant
            i <= text@.len(),
            sep@.len() > 0,
            split_on(text@, sep@) == parts@.map_values(|p: String| p@) + prepend_first(
                cur@,
                split_on(text@.skip(i as int), sep@),
            ),
        decreases text@.len() - i,
    {
        let ghost rest = text@.skip(i as int);
        if occurs_at(text, i, sep) {
            let ghost next = rest.skip(sep@.len() as int);
            proof {
                assert(next =~= text@.skip(i + sep@.len()));
                lemma_split_nonempty(next, sep@);
                assert(prepend_first(Seq::<char>::empty(), split_on(next, sep@)) =~~= split_on(
                    next,
                    sep@,
                ));
                assert(prepend_first(cur@, split_on(rest, sep@)) =~~= seq![cur@] + split_on(
                    next,
                    sep@,
                ));
            }
            let ghost before = parts@.map_values(|p: String| p@);
            parts.push(cur);
            cur = String::new();
            i = i + sep.len();
            proof {
                assert(parts@.map_values(|p: String| p@) =~= before.push(parts@.last()@));
                assert(prepend_first(cur@, split_on(text@.skip(i as int), sep@)) =~~= split_on(
                    next,
                    sep@,
                ));
            }
        } else {
            let c = text[i];
            let ghost old_cur = cur@;
            proof {
                assert(rest[0] == c);
                assert(text@.skip(i + 1) =~= rest.skip(1));
                assert(split_on(rest, sep@) == prepend_first(seq![c], split_on(rest.skip(1), sep@)));
                lemma_split_nonempty(rest.skip(1), sep@);
                lemma_prepend_twice(old_cur, seq![c], split_on(rest.skip(1), sep@));
            }
            push_char(&mut cur, c);
            i = i + 1;
            proof {
                assert(cur@ =~= old_cur + seq![c]);
            }
        }
    }
    proof {
        assert(text@.skip(i as int) =~= Seq::<char>::empty());
    }
    let ghost before = parts@.map_values(|p: String| p@);
    parts.push(cur);
    proof {
        assert(prepend_first(cur@, seq![Seq::<char>::empty()]) =~~= seq![cur@]);
        assert(parts@.map_values(|p: String| p@) =~= before.push(cur@));
    }
    parts
}

/// Whether `a` and `b` hold the same characters.
pub fn same_text(a: &str, b: &str) -> (r: bool)
    ensures
        r == (a@ == b@),
{
    let x = chars_of(a);
    let y = chars_of(b);
    if x.len() != y.len() {
        return false;
    }
    let n = x.len();
    let mut i: usize = 0;
    while i < n
        invariant
            n == x@.len(),
            n == y@.len(),
            x@ == a@,
            y@ == b@,
            i <= n,
            forall|k: int| 0 <= k < i ==> x@[k] == y@[k],
        decreases n - i,
    {
        if x[i] != y[i] {
            return false;
        }
        i = i + 1;
    }
    assert(x@ =~= y@);
    true
}

/// The character of the decimal digit `d`.
pub fn digit(d: u16) -> (c: char)
    requires
        d < 10,
    ensures
        c == digit_char(d as nat),
{
    let b: u8 = (d as u8) + 48;
    b as char
}

/// Appends the decimal numeral of `n` to `s`.
pub fn push_decimal(s: &mut String, n: u16)
    ensures
        final(s)@ == old(s)@ + decimal(n as nat),
    decreases n,
{
    if n >= 10 {
        push_decimal(s, n / 10);
    }
    let c = digit(n % 10);
    push_char(s, c);
    assert(final(s)@ =~= old(s)@ + decimal(n as nat));
}

/// Parses `s` as `str::parse::<usize>` does.
pub fn parse_usize(s: &str) -> (r: Option<usize>)
    ensures
        r == parse_usize_spec(s@),
{
    let chars = chars_of(s);
    let start: usize = if chars.len() > 0 && chars[0] == '+' {
        1
    } else {
        0
    };
    let ghost d = unsigned_digits(s@);
    proof {
        assert(d =~= chars@.skip(start as int));
    }
    if start == chars.len() {
        return None;
    }
    let mut acc: usize = 0;
    let mut i: usize = start;
    while i < chars.len()
        invariant
            start <= i <= chars@.len(),
            d == chars@.skip(start as int),
            d == unsigned_digits(s@),
            d.len() > 0,
            acc == digits_value(d.take(i - start)),
            forall|k: int| 0 <= k < i - start ==> '0' <= #[trigger] d[k] <= '9',
        decreases chars@.len() - i,
    {
        let c = chars[i];
        if c < '0' || c > '9' {
            assert(d[i - start] == c);
            return None;
        }
        let dv: usize = (c as u32 - 48) as usize;
        proof {
            assert(d.take(i - start + 1).drop_last() =~= d.take(i - start));
            assert(d.take(i - start + 1).last() == c);
        }
        match acc.checked_mul(10) {
            Some(m) => match m.checked_add(dv) {
                Some(v) => {
                    acc = v;
                },
                None => {
                    proof {
                        if all_digits(d) {
                            lemma_digits_value_monotone(d, i - start + 1);
                        }
                    }
                    return None;
                },
            },
            None => {
                proof {
                    if all_digits(d) {
                        lemma_digits_value_monotone(d, i - start + 1);
                    }
                }
                return None;
            },
        }
        i = i + 1;
    }
    proof {
        assert(d.take(i - start) =~= d);
    }
    Some(acc)
}

} // verus!
