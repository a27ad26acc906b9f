//! The dictionary header: a UTF-16LE fragment of `name="value"` attributes,
//! and the key-block header that follows it.
use vstd::prelude::*;
use vstd::string::StringSliceAdditionalSpecFns;
use crate::error::Error;
use crate::text::{
    decode_text, decoded_text, encoding_for_label, encoding_name_for_label, selects, utf16le_label,
    TextEncoding,
};

verus! {

/// The little-endian 16-bit code units of a byte sequence (an odd last byte
/// is ignored).
pub open spec fn units_of(b: Seq<u8>) -> Seq<u16> {
    Seq::new(b.len() / 2, |i: int| (b[2 * i] + 256 * b[2 * i + 1]) as u16)
}

/// A code unit that may stand in an attribute name: an ASCII letter, digit or
/// underscore.
pub open spec fn is_word_unit(u: u16) -> bool {
    (48 <= u <= 57) || (65 <= u <= 90) || (97 <= u <= 122) || u == 95
}

/// A half-open range `[start, end)` of code units.
pub struct Span {
    pub start: usize,
    pub end: usize,
}

/// The end of the run of word units that starts at `i`.
pub open spec fn word_end(t: Seq<u16>, i: int) -> int
    decreases t.len() - i,
{
    if 0 <= i < t.len() && is_word_unit(t[i]) {
        word_end(t, i + 1)
    } else {
        i
    }
}

/// The first `"` at or after `i`, or the length where there is none.
pub open spec fn quote_from(t: Seq<u16>, i: int) -> int
    decreases t.len() - i,
{
    if 0 <= i < t.len() && t[i] != 34 {
        quote_from(t, i + 1)
    } else {
        i
    }
}

/// A word run ends at or after its start, inside the units, after word units only.
pub proof fn lemma_word_end(t: Seq<u16>, i: int)
    requires
        0 <= i <= t.len(),
    ensures
        i <= word_end(t, i) <= t.len(),
        i < t.len() && is_word_unit(t[i]) ==> i < word_end(t, i),
        forall|j: int| i <= j < word_end(t, i) ==> is_word_unit(#[trigger] t[j]),
        word_end(t, i) < t.len() ==> !is_word_unit(t[word_end(t, i)]),
    decreases t.len() - i,
{
    if i < t.len() && is_word_unit(t[i]) {
        lemma_word_end(t, i + 1);
    }
}

/// The next quote lies at or after `i`, with no quote before it.
pub proof fn lemma_quote_from(t: Seq<u16>, i: int)
    requires
        0 <= i <= t.len(),
    ensures
        i <= quote_from(t, i) <= t.len(),
        quote_from(t, i) < t.len() ==> t[quote_from(t, i)] == 34,
        forall|j: int| i <= j < quote_from(t, i) ==> #[trigger] t[j] != 34,
    decreases t.len() - i,
{
    if i < t.len() && t[i] != 34 {
        lemma_quote_from(t, i + 1);
    }
}

/// The `name="value"` attributes found scanning from `i`, as spans of names
/// and values: a name is a run of word units followed by `="`, its value runs
/// to the next `"` (newlines included).
pub open spec fn attrs_from(t: Seq<u16>, i: int) -> Seq<(Span, Span)>
    decreases t.len() - i,
{
    if i < 0 || i >= t.len() {
        Seq::empty()
    } else if !is_word_unit(t[i]) {
        attrs_from(t, i + 1)
    } else {
        let q = word_end(t, i);
        proof {
            lemma_word_end(t, i);
        }
        if q + 1 < t.len() && t[q] == 61 && t[q + 1] == 34 && quote_from(t, q + 2) < t.len() {
            let c = quote_from(t, q + 2);
            proof {
                lemma_quote_from(t, q + 2);
            }
            seq![(Span { start: i as usize, end: q as usize }, Span { start: (q + 2) as usize, end: c as usize })]
                + attrs_from(t, c + 1)
        } else {
            attrs_from(t, q)
        }
    }
}

/// The value span of the last attribute named `name`.
pub open spec fn last_value(t: Seq<u16>, attrs: Seq<(Span, Span)>, name: Seq<u16>) -> Option<Span>
    decreases attrs.len(),
{
    if attrs.len() == 0 {
        None
    } else {
        let a = attrs.last();
        if t.subrange(a.0.start as int, a.0.end as int) == name {
            Some(a.1)
        } else {
            last_value(t, attrs.drop_last(), name)
        }
    }
}

/// The code units of an ASCII string.
pub open spec fn name_units(s: &str) -> Seq<u16> {
    s.spec_bytes().map_values(|b: u8| b as u16)
}

/// The value span of the attribute `name` in a header blob, the last
/// occurrence winning.
pub open spec fn attribute(blob: Seq<u8>, name: &str) -> Option<Span> {
    let t = units_of(blob);
    last_value(t, attrs_from(t, 0), name_units(name))
}

/// The code units of a span.
pub open spec fn span_units(blob: Seq<u8>, s: Span) -> Seq<u16> {
    units_of(blob).subrange(s.start as int, s.end as int)
}

/// The bytes of a span.
pub open spec fn span_bytes(blob: Seq<u8>, s: Span) -> Seq<u8> {
    blob.subrange(2 * s.start, 2 * s.end)
}

/// The text of a span.
pub open spec fn span_text(blob: Seq<u8>, s: Span) -> Seq<char> {
    decoded_text(utf16le_label(), span_bytes(blob, s))
}

/// The little-endian code units of a UTF-16LE blob.
pub fn to_units(blob: &[u8]) -> (r: Vec<u16>)
    ensures
        r@ == units_of(blob@),
{
    let len = blob.len();
    let n = len / 2;
    let mut r: Vec<u16> = Vec::with_capacity(n);
    let mut i: usize = 0;
    let mut k: usize = 0;
    while i < n
        invariant
            len == blob@.len(),
            n == len / 2,
            i <= n,
            k == 2 * i,
            r@.len() == i,
            forall|j: int| 0 <= j < i ==> r@[j] == units_of(blob@)[j],
        decreases n - i,
    {
        let u: u16 = blob[k] as u16 + 256 * (blob[k + 1] as u16);
        r.push(u);
        i = i + 1;
        k = k + 2;
    }
    assert(r@ =~= units_of(blob@));
    r
}

fn is_word(u: u16) -> (r: bool)
    ensures
        r == is_word_unit(u),
{
    (48 <= u && u <= 57) || (65 <= u && u <= 90) || (97 <= u && u <= 122) || u == 95
}

/// Scans the code units for `name="value"` attributes.
pub fn scan_attributes(t: &[u16]) -> (r: Vec<(Span, Span)>)
    ensures
        r@ == attrs_from(t@, 0),
{
    let n = t.len();
    let mut out: Vec<(Span, Span)> = Vec::new();
    let mut i: usize = 0;
    while i < n
        invariant
            n == t@.len(),
            i <= n,
            attrs_from(t@, 0) == out@ + attrs_from(t@, i as int),
        decreases n - i,
    {
        if !is_word(t[i]) {
            i = i + 1;
        } else {
            let mut q: usize = i;
            while q < n && is_word(t[q])
                invariant
                    i <= q <= n,
                    n == t@.len(),
                    word_end(t@, i as int) == word_end(t@, q as int),
                decreases n - q,
            {
                q = q + 1;
            }
            proof {
                lemma_word_end(t@, i as int);
            }
            if q < n && q + 1 < n && t[q] == 61 && t[q + 1] == 34 {
                let mut c: usize = q + 2;
                while c < n && t[c] != 34
                    invariant
                        q + 2 <= c <= n,
                        n == t@.len(),
                        quote_from(t@, (q + 2) as int) == quote_from(t@, c as int),
                    decreases n - c,
                {
                    c = c + 1;
                }
                if c < n {
                    let ghost before = out@;
                    out.push((Span { start: i, end: q }, Span { start: q + 2, end: c }));
                    proof {
                        assert(out@ == before + seq![(Span { start: i, end: q }, Span { start: (q + 2) as usize, end: c })]);
                        assert(attrs_from(t@, i as int) == seq![(Span { start: i, end: q }, Span { start: (q + 2) as usize, end: c })] + attrs_from(t@, c + 1));
                        assert(out@ + attrs_from(t@, c + 1) =~= before + attrs_from(t@, i as int));
                    }
                    i = c + 1;
                } else {
                    i = q;
                }
            } else {
                i = q;
            }
        }
    }
    assert(out@ =~= out@ + attrs_from(t@, i as int));
    out
}

/// The spans of the attributes found from `i` lie inside the units, each
/// name before its value.
pub proof fn lemma_attrs_bounds(t: Seq<u16>, i: int)
    requires
        0 <= i,
        t.len() <= usize::MAX,
    ensures
        forall|k: int|
            0 <= k < attrs_from(t, i).len() ==> {
                let a = #[trigger] attrs_from(t, i)[k];
                &&& i <= a.0.start <= a.0.end <= t.len()
                &&& a.0.end < a.1.start <= a.1.end <= t.len()
            },
    decreases t.len() - i,
{
    if i < t.len() {
        if !is_word_unit(t[i]) {
            assert(attrs_from(t, i) == attrs_from(t, i + 1));
            lemma_attrs_bounds(t, i + 1);
        } else {
            let q = word_end(t, i);
            lemma_word_end(t, i);
            if q + 1 < t.len() && t[q] == 61 && t[q + 1] == 34 && quote_from(t, q + 2) < t.len() {
                let c = quote_from(t, q + 2);
                lemma_quote_from(t, q + 2);
                lemma_attrs_bounds(t, c + 1);
                let head = seq![(Span { start: i as usize, end: q as usize }, Span { start: (q + 2) as usize, end: c as usize })];
                assert(attrs_from(t, i) == head + attrs_from(t, c + 1));
                assert forall|k: int| 0 <= k < attrs_from(t, i).len() implies {
                    let a = #[trigger] attrs_from(t, i)[k];
                    &&& i <= a.0.start <= a.0.end <= t.len()
                    &&& a.0.end < a.1.start <= a.1.end <= t.len()
                } by {
                    if k > 0 {
                        assert(attrs_from(t, i)[k] == attrs_from(t, c + 1)[k - 1]);
                    }
                }
            } else {
                assert(attrs_from(t, i) == attrs_from(t, q));
                lemma_attrs_bounds(t, q);
            }
        }
    } else {
        assert(attrs_from(t, i).len() == 0);
    }
}

/// `t[start..end] == name`.
fn units_equal(t: &[u16], start: usize, end: usize, name: &[u16]) -> (r: bool)
    requires
        start <= end <= t@.len(),
    ensures
        r == (t@.subrange(start as int, end as int) == name@),
{
    if end - start != name.len() {
        return false;
    }
    let mut k: usize = 0;
    while k < name.len()
        invariant
            start <= end <= t@.len(),
            end - start == name@.len(),
            k <= name@.len(),
            forall|j: int| 0 <= j < k ==> t@[start + j] == name@[j],
        decreases name@.len() - k,
    {
        if t[start + k] != name[k] {
            return false;
        }
        k = k + 1;
    }
    assert(t@.subrange(start as int, end as int) =~= name@);
    true
}

/// The code units of an ASCII name.
pub fn name_of(s: &str) -> (r: Vec<u16>)
    ensures
        r@ == name_units(s),
{
    let b = s.as_bytes();
    let mut r: Vec<u16> = Vec::with_capacity(b.len());
    let mut i: usize = 0;
    while i < b.len()
        invariant
            b@ == s.spec_bytes(),
            i <= b@.len(),
            r@.len() == i,
            forall|j: int| 0 <= j < i ==> r@[j] == b@[j] as u16,
        decreases b@.len() - i,
    {
        r.push(b[i] as u16);
        i = i + 1;
    }
    assert(r@ =~= name_units(s));
    r
}

/// Finds the value span of the last attribute named `name`.
pub fn find_attribute(t: &[u16], attrs: &Vec<(Span, Span)>, name: &[u16]) -> (r: Option<Span>)
    requires
        attrs@ == attrs_from(t@, 0),
    ensures
        r == last_value(t@, attrs@, name@),
        r is Some ==> r->0.start <= r->0.end <= t@.len(),
{
    let _n = t.len();
    proof {
        lemma_attrs_bounds(t@, 0);
        assert(attrs@.subrange(0, attrs@.len() as int) =~= attrs@);
    }
    let mut i = attrs.len();
    while i > 0
        invariant
            i <= attrs@.len(),
            attrs@ == attrs_from(t@, 0),
            forall|k: int|
                0 <= k < attrs@.len() ==> {
                    let a = #[trigger] attrs@[k];
                    &&& a.0.start <= a.0.end <= t@.len()
                    &&& a.1.start <= a.1.end <= t@.len()
                },
            last_value(t@, attrs@, name@) == last_value(t@, attrs@.subrange(0, i as int), name@),
        decreases i,
    {
        let a = &attrs[i - 1];
        proof {
            assert(attrs@.subrange(0, i as int).drop_last() =~= attrs@.subrange(0, i - 1));
        }
        if units_equal(t, a.0.start, a.0.end, name) {
            return Some(Span { start: a.1.start, end: a.1.end });
        }
        i = i - 1;
    }
    None
}

/// The decimal value of a run of ASCII digits.
pub open spec fn digits_value(s: Seq<u16>) -> int
    decreases s.len(),
{
    if s.len() == 0 {
        0
    } else {
        digits_value(s.drop_last()) * 10 + (s.last() - 48)
    }
}

/// Every unit is an ASCII digit.
pub open spec fn all_digits(s: Seq<u16>) -> bool {
    forall|i: int| 0 <= i < s.len() ==> 48 <= #[trigger] s[i] <= 57
}

/// A decimal `u8` as `str::parse` reads it: an optional `+`, then one or more
/// digits, with a value below 256.
pub open spec fn parse_u8_units(s: Seq<u16>) -> Option<u8> {
    let d = if s.len() > 0 && s[0] == 43 {
        s.drop_first()
    } else {
        s
    };
    if d.len() > 0 && all_digits(d) && digits_value(d) <= 255 {
        Some(digits_value(d) as u8)
    } else {
        None
    }
}

proof fn lemma_digits_grow(s: Seq<u16>, k: int)
    requires
        all_digits(s),
        0 <= k <= s.len(),
    ensures
        0 <= digits_value(s.subrange(0, k)) <= digits_value(s),
        0 <= digits_value(s),
    decreases s.len(),
{
    if s.len() > 0 {
        assert(all_digits(s.drop_last())) by {
            assert forall|i: int| 0 <= i < s.drop_last().len() implies 48 <= #[trigger] s.drop_last()[i] <= 57 by {
                assert(s.drop_last()[i] == s[i]);
            }
        }
        assert(48 <= s[s.len() - 1] <= 57);
        lemma_digits_grow(s.drop_last(), 0);
        if k == s.len() {
            assert(s.subrange(0, k) =~= s);
        } else {
            assert(s.drop_last().subrange(0, k) =~= s.subrange(0, k));
            lemma_digits_grow(s.drop_last(), k);
        }
    } else {
        assert(s.subrange(0, k) =~= s);
    }
}

fn parse_u8(s: &[u16]) -> (r: Option<u8>)
    ensures
        r == parse_u8_units(s@),
{
    let n = s.len();
    let start: usize = if n > 0 && s[0] == 43 { 1 } else { 0 };
    let ghost d = if s@.len() > 0 && s@[0] == 43 { s@.drop_first() } else { s@ };
    assert(d =~= s@.subrange(start as int, n as int));
    if start == n {
        return None;
    }
    let mut acc: u32 = 0;
    let mut i: usize = start;
    while i < n
        invariant
            start <= i <= n,
            n == s@.len(),
            d == s@.subrange(start as int, n as int),
            d == (if s@.len() > 0 && s@[0] == 43 { s@.drop_first() } else { s@ }),
            all_digits(s@.subrange(start as int, i as int)),
            acc == digits_value(s@.subrange(start as int, i as int)),
            acc <= 255,
        decreases n - i,
    {
        let u = s[i];
        if u < 48 || u > 57 {
            assert(!all_digits(d)) by {
                assert(d[i - start] == u);
            }
            return None;
        }
        let ghost prev = s@.subrange(start as int, i as int);
        assert(s@.subrange(start as int, i + 1).drop_last() =~= prev);
        assert(all_digits(s@.subrange(start as int, i + 1))) by {
            assert forall|j: int| 0 <= j < i + 1 - start implies 48 <= #[trigger] s@.subrange(start as int, i + 1)[j] <= 57 by {
                if j < i - start {
                    assert(s@.subrange(start as int, i + 1)[j] == prev[j]);
                }
            }
        }
        let v: u32 = acc * 10 + (u - 48) as u32;
        assert(digits_value(s@.subrange(start as int, i + 1)) == v);
        if v > 255 {
            proof {
                if all_digits(d) {
                    lemma_digits_grow(d, i + 1 - start);
                    assert(d.subrange(0, i + 1 - start) =~= s@.subrange(start as int, i + 1));
                }
            }
            return None;
        }
        acc = v;
        i = i + 1;
    }
    assert(s@.subrange(start as int, n as int) =~= d);
    Some(acc as u8)
}

/// The format dialect of a dictionary file.
pub enum Version {
    V1,
    V2,
}

impl Version {
    /// Bytes of a size field: four in V1, eight in V2.
    pub open spec fn spec_width(&self) -> nat {
        if self is V1 {
            4
        } else {
            8
        }
    }
}

/// What the header declares.
pub struct Header {
    pub version: Version,
    pub encrypted: u8,
    pub encoding: TextEncoding,
    pub title: String,
}

/// The first character of a version string as a decimal digit, or -1.
pub open spec fn version_digit(v: Seq<u16>) -> int {
    if v.len() > 0 && 48 <= v[0] <= 57 {
        v[0] - 48
    } else {
        -1
    }
}

/// The `Encrypted` attribute: `Yes` is 1, a decimal number is itself, anything
/// else or nothing is 0.
pub open spec fn encrypted_flag(blob: Seq<u8>) -> u8 {
    match attribute(blob, "Encrypted") {
        None => 0,
        Some(sp) => {
            let v = span_units(blob, sp);
            if v == name_units("Yes") {
                1
            } else {
                match parse_u8_units(v) {
                    Some(x) => x,
                    None => 0,
                }
            }
        },
    }
}

/// The declared title, or nothing.
pub open spec fn title_text(blob: Seq<u8>) -> Seq<char> {
    match attribute(blob, "Title") {
        None => Seq::empty(),
        Some(sp) => span_text(blob, sp),
    }
}

/// The non-empty `Encoding` attribute of a definitions file.
pub open spec fn declared_encoding(blob: Seq<u8>, resource: bool) -> Option<Span> {
    if resource {
        None
    } else {
        match attribute(blob, "Encoding") {
            Some(sp) => if sp.start < sp.end {
                Some(sp)
            } else {
                None
            },
            None => None,
        }
    }
}

/// Every unit is ASCII.
pub open spec fn is_ascii_units(v: Seq<u16>) -> bool {
    forall|i: int| 0 <= i < v.len() ==> #[trigger] v[i] < 128
}

/// The bytes of ASCII code units.
pub open spec fn ascii_bytes(v: Seq<u16>) -> Seq<u8> {
    v.map_values(|u: u16| u as u8)
}

/// The header result, given the decoded attributes.
pub open spec fn header_ok(h: Header, blob: Seq<u8>, resource: bool, digit: int) -> bool {
    &&& (h.version is V1 <==> digit == 1)
    &&& h.encrypted == encrypted_flag(blob)
    &&& h.title@ == title_text(blob)
    &&& h.encoding.wf()
    &&& match declared_encoding(blob, resource) {
        None => if resource {
            h.encoding is Utf16Le
        } else {
            h.encoding is Utf8
        },
        Some(sp) => selects(h.encoding, ascii_bytes(span_units(blob, sp))),
    }
}

/// The label of a declared encoding is ASCII and known to the registry.
pub open spec fn encoding_known(blob: Seq<u8>, sp: Span) -> bool {
    let v = span_units(blob, sp);
    is_ascii_units(v) && encoding_name_for_label(ascii_bytes(v)) is Some
}

/// What parsing the header blob yields.
pub open spec fn header_result(r: Result<Header, Error>, blob: Seq<u8>, resource: bool) -> bool {
    match attribute(blob, "GeneratedByEngineVersion") {
        None => r is Err && r->Err_0 is NoVersion,
        Some(sv) => {
            let d = version_digit(span_units(blob, sv));
            if d <= 0 {
                r is Err && r->Err_0 is InvalidVersion && r->Err_0->InvalidVersion_0@ == span_text(blob, sv)
            } else if d >= 3 {
                r is Err && r->Err_0 is UnsupportedVersion && r->Err_0->UnsupportedVersion_0 == d
            } else {
                match declared_encoding(blob, resource) {
                    Some(se) if !encoding_known(blob, se) => r is Err && r->Err_0 is InvalidEncoding
                        && r->Err_0->InvalidEncoding_0@ == span_text(blob, se),
                    _ => r is Ok && header_ok(r->Ok_0, blob, resource, d),
                }
            }
        },
    }
}

fn span_bytes_of<'a>(blob: &'a [u8], sp: &Span) -> (r: &'a [u8])
    requires
        sp.start <= sp.end <= blob@.len() / 2,
    ensures
        r@ == span_bytes(blob@, *sp),
{
    let _n = blob.len();
    crate::codec::slice_of(blob, 2 * sp.start, 2 * sp.end)
}

fn span_string(blob: &[u8], sp: &Span) -> (r: String)
    requires
        sp.start <= sp.end <= blob@.len() / 2,
    ensures
        r@ == span_text(blob@, *sp),
{
    decode_text(&TextEncoding::Utf16Le, span_bytes_of(blob, sp))
}

/// Narrows ASCII code units to bytes; `None` where one is not ASCII.
fn ascii_of(v: &[u16]) -> (r: Option<Vec<u8>>)
    ensures
        r is Some <==> is_ascii_units(v@),
        r is Some ==> r->0@ == ascii_bytes(v@),
{
    let mut out: Vec<u8> = Vec::with_capacity(v.len());
    let mut i: usize = 0;
    while i < v.len()
        invariant
            i <= v@.len(),
            out@.len() == i,
            forall|j: int| 0 <= j < i ==> #[trigger] v@[j] < 128,
            forall|j: int| 0 <= j < i ==> #[trigger] out@[j] == v@[j] as u8,
        decreases v@.len() - i,
    {
        if v[i] >= 128 {
            return None;
        }
        out.push(v[i] as u8);
        i = i + 1;
    }
    assert(out@ =~= ascii_bytes(v@));
    Some(out)
}

/// Parses the header blob. Resource files are always UTF-16LE.
pub fn parse_header(blob: &[u8], resource: bool) -> (r: Result<Header, Error>)
    ensures
        header_result(r, blob@, resource),
{
    let t = to_units(blob);
    let _n = t.len();
    let attrs = scan_attributes(t.as_slice());
    proof {
        lemma_attrs_bounds(t@, 0);
    }
    let version_name = name_of("GeneratedByEngineVersion");
    let sv = match find_attribute(t.as_slice(), &attrs, version_name.as_slice()) {
        None => return Err(Error::NoVersion),
        Some(sv) => sv,
    };
    let v = crate::codec::slice_of(t.as_slice(), sv.start, sv.end);
    if v.len() == 0 || v[0] < 49 || v[0] > 57 {
        return Err(Error::InvalidVersion(span_string(blob, &sv)));
    }
    let d: u8 = (v[0] - 48) as u8;
    if d >= 3 {
        return Err(Error::UnsupportedVersion(d));
    }
    let version = if d == 1 {
        Version::V1
    } else {
        Version::V2
    };
    let encoding = if resource {
        TextEncoding::Utf16Le
    } else {
        let encoding_name = name_of("Encoding");
        match find_attribute(t.as_slice(), &attrs, encoding_name.as_slice()) {
            Some(se) => {
                if se.start < se.end {
                    let ev = crate::codec::slice_of(t.as_slice(), se.start, se.end);
                    match ascii_of(ev) {
                        None => return Err(Error::InvalidEncoding(span_string(blob, &se))),
                        Some(label) => match encoding_for_label(label.as_slice()) {
                            None => return Err(Error::InvalidEncoding(span_string(blob, &se))),
                            Some(e) => e,
                        },
                    }
                } else {
                    TextEncoding::Utf8
                }
            },
            None => TextEncoding::Utf8,
        }
    };
    let encrypted_name = name_of("Encrypted");
    let encrypted: u8 = match find_attribute(t.as_slice(), &attrs, encrypted_name.as_slice()) {
        None => 0,
        Some(se) => {
            let yes = name_of("Yes");
            if units_equal(t.as_slice(), se.start, se.end, yes.as_slice()) {
                1
            } else {
                match parse_u8(crate::codec::slice_of(t.as_slice(), se.start, se.end)) {
                    Some(x) => x,
                    None => 0,
                }
            }
        },
    };
    let title_name = name_of("Title");
    let title = match find_attribute(t.as_slice(), &attrs, title_name.as_slice()) {
        None => String::new(),
        Some(st) => span_string(blob, &st),
    };
    Ok(Header { version, encrypted, encoding, title })
}

} // verus!
