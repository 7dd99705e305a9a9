//! Builder for RFC 7578 `multipart/form-data` bodies.
//!
//! The builder is the inverse of the parser: it serializes parts into a body that an HTTP client
//! can send. `add_part` takes raw headers; `add_field` and `add_file` render
//! `Content-Disposition` with WHATWG-style escaping of names and file names.

use vstd::prelude::*;
use vstd::string::*;
use vstd::utf8::{char_is_scalar, char_u32_cast, encode_scalar, encode_utf8, is_scalar};

use crate::bytes::{copy_range, extend_bytes, find_byte};
use crate::error::BuilderError;
use crate::multipart::crlf_seq;
use crate::text::{chars_of, string_from_chars};

verus! {

/// A byte that RFC 2046 allows in a boundary: a letter, a digit, or one of `'()+_,-./:=?` and
/// space.
pub open spec fn boundary_byte(b: u8) -> bool {
    ||| 0x30 <= b <= 0x39
    ||| 0x41 <= b <= 0x5a
    ||| 0x61 <= b <= 0x7a
    ||| b == 0x27 || b == 0x28 || b == 0x29 || b == 0x2b || b == 0x5f || b == 0x2c
    ||| b == 0x2d || b == 0x2e || b == 0x2f || b == 0x3a || b == 0x3d || b == 0x3f || b == 0x20
}

/// A boundary of 1 to 70 allowed bytes that does not end with a space.
pub open spec fn valid_boundary(b: Seq<u8>) -> bool {
    &&& 1 <= b.len() <= 70
    &&& forall|i: int| 0 <= i < b.len() ==> boundary_byte(#[trigger] b[i])
    &&& b.last() != 0x20
}

/// Whether `byte` may stand in a boundary.
pub fn is_valid_boundary_byte(byte: u8) -> (r: bool)
    ensures
        r == boundary_byte(byte),
{
    (0x30 <= byte && byte <= 0x39) || (0x41 <= byte && byte <= 0x5a) || (0x61 <= byte && byte
        <= 0x7a) || byte == 0x27 || byte == 0x28 || byte == 0x29 || byte == 0x2b || byte == 0x5f
        || byte == 0x2c || byte == 0x2d || byte == 0x2e || byte == 0x2f || byte == 0x3a || byte
        == 0x3d || byte == 0x3f || byte == 0x20
}

/// The lower-case hexadecimal digit for `d` (below 16).
pub open spec fn hex_digit_lower(d: u8) -> u8 {
    if d < 10 {
        (0x30 + d) as u8
    } else {
        (0x61 + d - 10) as u8
    }
}

/// `bytes` written in lower-case hexadecimal, two digits per byte.
pub open spec fn hex_encoding(bytes: Seq<u8>) -> Seq<u8>
    decreases bytes.len(),
{
    if bytes.len() == 0 {
        Seq::empty()
    } else {
        hex_encoding(bytes.drop_last()) + seq![
            hex_digit_lower(bytes.last() / 16),
            hex_digit_lower(bytes.last() % 16),
        ]
    }
}

/// `bytes` written in lower-case hexadecimal, two digits per byte.
pub fn hex_encode(bytes: &[u8]) -> (r: Vec<u8>)
    ensures
        r@ == hex_encoding(bytes@),
{
    let mut r: Vec<u8> = Vec::new();
    let mut i: usize = 0;
    while i < bytes.len()
        invariant
            i <= bytes@.len(),
            r@ == hex_encoding(bytes@.subrange(0, i as int)),
        decreases bytes@.len() - i,
    {
        let b = bytes[i];
        let high = b / 16;
        let low = b % 16;
        r.push(if high < 10 { 0x30 + high } else { 0x61 + high - 10 });
        r.push(if low < 10 { 0x30 + low } else { 0x61 + low - 10 });
        assert(bytes@.subrange(0, i + 1).drop_last() =~= bytes@.subrange(0, i as int));
        i += 1;
        assert(r@ =~= hex_encoding(bytes@.subrange(0, i as int)));
    }
    assert(bytes@.subrange(0, bytes@.len() as int) =~= bytes@);
    r
}

proof fn lemma_hex_encoding(bytes: Seq<u8>)
    ensures
        hex_encoding(bytes).len() == 2 * bytes.len(),
        forall|i: int|
            0 <= i < hex_encoding(bytes).len() ==> {
                let c = #[trigger] hex_encoding(bytes)[i];
                (0x30 <= c <= 0x39) || (0x61 <= c <= 0x66)
            },
    decreases bytes.len(),
{
    if bytes.len() > 0 {
        lemma_hex_encoding(bytes.drop_last());
        let prev = hex_encoding(bytes.drop_last());
        assert forall|i: int| 0 <= i < hex_encoding(bytes).len() implies {
            let c = #[trigger] hex_encoding(bytes)[i];
            (0x30 <= c <= 0x39) || (0x61 <= c <= 0x66)
        } by {
            if i < prev.len() {
                assert(hex_encoding(bytes)[i] == prev[i]);
            }
        }
    }
}

/// The hexadecimal encoding of 16 bytes is a valid boundary.
pub proof fn lemma_hex_boundary_valid(bytes: Seq<u8>)
    requires
        bytes.len() == 16,
    ensures
        valid_boundary(hex_encoding(bytes)),
{
    lemma_hex_encoding(bytes);
    let h = hex_encoding(bytes);
    assert forall|i: int| 0 <= i < h.len() implies boundary_byte(#[trigger] h[i]) by {
        assert((0x30 <= h[i] <= 0x39) || (0x61 <= h[i] <= 0x66));
    }
    assert(h.last() == h[h.len() - 1]);
}

/// `getrandom::Error`, the failure of the system's random number source; opaque here.
#[verifier::external_type_specification]
#[verifier::external_body]
pub struct ExGetrandomError(getrandom::Error);

/// Fills `dest` with bytes from the system's random number source, through `getrandom::fill`;
/// what the bytes are is not stated, nor what they are on failure, only that the length stays.
#[verifier::external_body]
fn fill_random(dest: &mut Vec<u8>) -> (r: Result<(), getrandom::Error>)
    ensures
        final(dest)@.len() == old(dest)@.len(),
{
    getrandom::fill(dest.as_mut_slice())
}

/// A random boundary: 32 lower-case hexadecimal digits that encode 16 random bytes.
pub fn random_boundary() -> (r: Result<Vec<u8>, BuilderError>)
    ensures
        match r {
            Ok(b) => {
                &&& valid_boundary(b@)
                &&& exists|bytes: Seq<u8>| bytes.len() == 16 && b@ == hex_encoding(bytes)
            },
            Err(e) => e == BuilderError::RandomnessUnavailable,
        },
{
    let mut bytes: Vec<u8> = Vec::new();
    let mut i: usize = 0;
    while i < 16
        invariant
            i <= 16,
            bytes@.len() == i,
        decreases 16 - i,
    {
        bytes.push(0);
        i += 1;
    }
    match fill_random(&mut bytes) {
        Ok(()) => {
            let boundary = hex_encode(bytes.as_slice());
            proof {
                lemma_hex_boundary_valid(bytes@);
            }
            Ok(boundary)
        },
        Err(_) => Err(BuilderError::RandomnessUnavailable),
    }
}


/// The upper-case hexadecimal digit for `d` (below 16).
pub open spec fn hex_digit_upper(d: u32) -> char {
    if d < 10 {
        ((0x30 + d) as u8) as char
    } else {
        ((0x41 + d - 10) as u8) as char
    }
}

/// How the WHATWG form rules write `c` in a name or file name: `"` as `%22`, a control
/// character other than escape (0x1b) as `%XX`, `\` doubled, any other character as it is.
pub open spec fn escape_char(c: char) -> Seq<char> {
    if c == '"' {
        seq!['%', '2', '2']
    } else if c == '\\' {
        seq!['\\', '\\']
    } else if (c as u32) < 0x20 && (c as u32) != 0x1b {
        seq!['%', hex_digit_upper((c as u32) / 16), hex_digit_upper((c as u32) % 16)]
    } else {
        seq![c]
    }
}

/// `s` with each character escaped.
pub open spec fn escaped(s: Seq<char>) -> Seq<char>
    decreases s.len(),
{
    if s.len() == 0 {
        Seq::empty()
    } else {
        escaped(s.drop_last()) + escape_char(s.last())
    }
}

fn hex_upper_char(d: u32) -> (r: char)
    requires
        d < 16,
    ensures
        r == hex_digit_upper(d),
{
    if d < 10 {
        let b: u8 = (0x30 + d) as u8;
        b as char
    } else {
        let b: u8 = (0x41 + d - 10) as u8;
        b as char
    }
}

/// `value` escaped for a quoted `Content-Disposition` parameter.
pub fn escape(value: &str) -> (r: String)
    ensures
        r@ == escaped(value@),
{
    let cs = chars_of(value);
    let mut out: Vec<char> = Vec::new();
    let mut i: usize = 0;
    while i < cs.len()
        invariant
            i <= cs@.len(),
            out@ == escaped(cs@.subrange(0, i as int)),
        decreases cs@.len() - i,
    {
        let c = cs[i];
        let u = c as u32;
        if c == '"' {
            out.push('%');
            out.push('2');
            out.push('2');
        } else if c == '\\' {
            out.push('\\');
            out.push('\\');
        } else if u < 0x20 && u != 0x1b {
            out.push('%');
            out.push(hex_upper_char(u / 16));
            out.push(hex_upper_char(u % 16));
        } else {
            out.push(c);
        }
        assert(cs@.subrange(0, i + 1).drop_last() =~= cs@.subrange(0, i as int));
        i += 1;
        assert(out@ =~= escaped(cs@.subrange(0, i as int)));
    }
    assert(cs@.subrange(0, cs@.len() as int) =~= cs@);
    string_from_chars(out.as_slice())
}

/// Escaping leaves no `"` and no control character but escape (0x1b); in particular no line
/// break.
pub proof fn lemma_escaped_is_safe(s: Seq<char>)
    ensures
        forall|i: int|
            0 <= i < escaped(s).len() ==> {
                let c = #[trigger] escaped(s)[i];
                c != '"' && ((c as u32) >= 0x20 || (c as u32) == 0x1b)
            },
    decreases s.len(),
{
    if s.len() > 0 {
        lemma_escaped_is_safe(s.drop_last());
        let prev = escaped(s.drop_last());
        let c = s.last();
        let u = c as u32;
        assert forall|i: int| 0 <= i < escaped(s).len() implies {
            let d = #[trigger] escaped(s)[i];
            d != '"' && ((d as u32) >= 0x20 || (d as u32) == 0x1b)
        } by {
            if i < prev.len() {
                assert(escaped(s)[i] == prev[i]);
            } else if u < 0x20 && u != 0x1b && c != '"' && c != '\\' {
                let k = i - prev.len();
                assert(escaped(s)[i] == escape_char(c)[k]);
                assert(u / 16 < 16 && u % 16 < 16);
            }
        }
    }
}

/// `memchr::memchr2`, taken as its documentation states it: the index of the first byte of
/// `haystack` that equals `needle1` or `needle2`, or `None` where no byte does.
pub assume_specification[ memchr::memchr2 ](needle1: u8, needle2: u8, haystack: &[u8]) -> (r:
    Option<usize>)
    ensures
        match r {
            Some(i) => {
                &&& i < haystack@.len()
                &&& (haystack@[i as int] == needle1 || haystack@[i as int] == needle2)
                &&& forall|j: int|
                    0 <= j < i ==> haystack@[j] != needle1 && haystack@[j] != needle2
            },
            None => forall|j: int|
                0 <= j < haystack@.len() ==> haystack@[j] != needle1 && haystack@[j] != needle2,
        },
;

/// `memchr::memchr3`, taken as its documentation states it: the index of the first byte of
/// `haystack` that equals one of the three needles, or `None` where no byte does.
pub assume_specification[ memchr::memchr3 ](
    needle1: u8,
    needle2: u8,
    needle3: u8,
    haystack: &[u8],
) -> (r: Option<usize>)
    ensures
        match r {
            Some(i) => {
                &&& i < haystack@.len()
                &&& (haystack@[i as int] == needle1 || haystack@[i as int] == needle2
                    || haystack@[i as int] == needle3)
                &&& forall|j: int|
                    0 <= j < i ==> haystack@[j] != needle1 && haystack@[j] != needle2
                        && haystack@[j] != needle3
            },
            None => forall|j: int|
                0 <= j < haystack@.len() ==> haystack@[j] != needle1 && haystack@[j] != needle2
                    && haystack@[j] != needle3,
        },
;

/// What is wrong with a header, checked in this order: an empty name; a name holding `:`, a
/// carriage return or a line feed; a value holding a carriage return or a line feed.
pub open spec fn header_error(name: Seq<u8>, value: Seq<u8>) -> Option<BuilderError> {
    if name.len() == 0 {
        Some(BuilderError::MissingHeaderName)
    } else if name.contains(0x3au8) || name.contains(0x0du8) || name.contains(0x0au8) {
        Some(BuilderError::InvalidHeaderNameCharacter)
    } else if value.contains(0x0du8) || value.contains(0x0au8) {
        Some(BuilderError::InvalidHeaderValueLineBreak)
    } else {
        None
    }
}

/// The error of the first faulty header at or after index `j`.
pub open spec fn headers_error_from(hs: Seq<(Seq<u8>, Seq<u8>)>, j: int) -> Option<BuilderError>
    decreases hs.len() - j,
{
    if j < 0 || j >= hs.len() {
        None
    } else {
        match header_error(hs[j].0, hs[j].1) {
            Some(e) => Some(e),
            None => headers_error_from(hs, j + 1),
        }
    }
}

/// The error of the first faulty header.
pub open spec fn headers_error(hs: Seq<(Seq<u8>, Seq<u8>)>) -> Option<BuilderError> {
    headers_error_from(hs, 0)
}

/// The header lines: each `name: value` and a line break.
pub open spec fn render_headers(hs: Seq<(Seq<u8>, Seq<u8>)>) -> Seq<u8>
    decreases hs.len(),
{
    if hs.len() == 0 {
        Seq::empty()
    } else {
        render_headers(hs.drop_last()) + hs.last().0 + seq![0x3au8, 0x20u8] + hs.last().1
            + crlf_seq()
    }
}

/// `--` and the boundary.
pub open spec fn dash_boundary_of(boundary: Seq<u8>) -> Seq<u8> {
    seq![0x2du8, 0x2du8] + boundary
}

/// What precedes a part's data: the boundary line, the header lines and an empty line.
pub open spec fn part_prologue(boundary: Seq<u8>, hs: Seq<(Seq<u8>, Seq<u8>)>) -> Seq<u8> {
    dash_boundary_of(boundary) + crlf_seq() + render_headers(hs) + crlf_seq()
}

/// One part: its prologue, the data and a line break.
pub open spec fn render_part(boundary: Seq<u8>, hs: Seq<(Seq<u8>, Seq<u8>)>, data: Seq<u8>) -> Seq<
    u8,
> {
    part_prologue(boundary, hs) + data + crlf_seq()
}

/// The closing boundary line.
pub open spec fn closing_of(boundary: Seq<u8>) -> Seq<u8> {
    dash_boundary_of(boundary) + seq![0x2du8, 0x2du8] + crlf_seq()
}

/// The bytes of the header name `Content-Disposition`.
pub open spec fn content_disposition_name() -> Seq<u8> {
    seq![
        0x43u8, 0x6f, 0x6e, 0x74, 0x65, 0x6e, 0x74, 0x2d, 0x44, 0x69, 0x73, 0x70, 0x6f, 0x73,
        0x69, 0x74, 0x69, 0x6f, 0x6e,
    ]
}

/// The bytes of the header name `Content-Type`.
pub open spec fn content_type_name() -> Seq<u8> {
    seq![0x43u8, 0x6f, 0x6e, 0x74, 0x65, 0x6e, 0x74, 0x2d, 0x54, 0x79, 0x70, 0x65]
}

/// The `Content-Disposition` value of a field: `form-data; name="..."`.
pub open spec fn field_disposition(name: Seq<char>) -> Seq<char> {
    "form-data; name=\""@ + escaped(name) + "\""@
}

/// The `Content-Disposition` value of a file: `form-data; name="..."; filename="..."`.
pub open spec fn file_disposition(name: Seq<char>, filename: Seq<char>) -> Seq<char> {
    "form-data; name=\""@ + escaped(name) + "\"; filename=\""@ + escaped(filename) + "\""@
}

/// The headers of a field.
pub open spec fn field_headers(name: Seq<char>) -> Seq<(Seq<u8>, Seq<u8>)> {
    seq![(content_disposition_name(), encode_utf8(field_disposition(name)))]
}

/// The headers of a file, with its content type where one is given.
pub open spec fn file_headers(
    name: Seq<char>,
    filename: Seq<char>,
    content_type: Option<Seq<char>>,
) -> Seq<(Seq<u8>, Seq<u8>)> {
    let disposition = seq![
        (content_disposition_name(), encode_utf8(file_disposition(name, filename))),
    ];
    match content_type {
        Some(t) => disposition.push((content_type_name(), encode_utf8(t))),
        None => disposition,
    }
}

/// The characters of ASCII bytes.
pub open spec fn ascii_text(b: Seq<u8>) -> Seq<char> {
    b.map_values(|x: u8| x as char)
}

/// The media type of a body with `boundary`, quoting the boundary where it holds a space.
pub open spec fn content_type_of(boundary: Seq<u8>) -> Seq<char> {
    if boundary.contains(0x20u8) {
        "multipart/form-data; boundary=\""@ + ascii_text(boundary) + "\""@
    } else {
        "multipart/form-data; boundary="@ + ascii_text(boundary)
    }
}

proof fn lemma_encode_scalar_ascii_byte(c: u32, b: u8)
    requires
        is_scalar(c),
        b < 0x80,
        encode_scalar(c).contains(b),
    ensures
        c == b as u32,
{
    let e = encode_scalar(c);
    let i = choose|i: int| 0 <= i < e.len() && e[i] == b;
    if c <= 0x7f {
        assert(c <= 0x7f ==> (c & 0x7f) as u8 as u32 == c) by (bit_vector);
    } else if c <= 0x7ff {
        assert((0xC0u8 | ((c >> 6) & 0x1F) as u8) >= 0x80u8) by (bit_vector);
        assert((0x80u8 | (c & 0x3F) as u8) >= 0x80u8) by (bit_vector);
    } else if c <= 0xffff {
        assert((0xE0u8 | ((c >> 12) & 0x0F) as u8) >= 0x80u8) by (bit_vector);
        assert((0x80u8 | ((c >> 6) & 0x3F) as u8) >= 0x80u8) by (bit_vector);
        assert((0x80u8 | (c & 0x3F) as u8) >= 0x80u8) by (bit_vector);
    } else {
        assert((0xF0u8 | ((c >> 18) & 0x7) as u8) >= 0x80u8) by (bit_vector);
        assert((0x80u8 | ((c >> 12) & 0x3F) as u8) >= 0x80u8) by (bit_vector);
        assert((0x80u8 | ((c >> 6) & 0x3F) as u8) >= 0x80u8) by (bit_vector);
        assert((0x80u8 | (c & 0x3F) as u8) >= 0x80u8) by (bit_vector);
    }
}

/// An ASCII byte occurs in the UTF-8 encoding of text only where its character occurs in the
/// text.
pub proof fn lemma_encode_utf8_ascii_byte(cs: Seq<char>, b: u8)
    requires
        b < 0x80,
        forall|i: int| 0 <= i < cs.len() ==> (#[trigger] cs[i]) as u32 != b as u32,
    ensures
        !encode_utf8(cs).contains(b),
    decreases cs.len(),
{
    if cs.len() > 0 {
        let rest = cs.drop_first();
        assert forall|i: int| 0 <= i < rest.len() implies (#[trigger] rest[i]) as u32 != b as u32 by {
            assert(rest[i] == cs[i + 1]);
        }
        lemma_encode_utf8_ascii_byte(rest, b);
        let head = encode_scalar(cs[0] as u32);
        let e = encode_utf8(cs);
        assert(e == head + encode_utf8(rest));
        char_is_scalar(cs[0]);
        if e.contains(b) {
            let i = choose|i: int| 0 <= i < e.len() && e[i] == b;
            if i < head.len() {
                assert(head[i] == b);
                lemma_encode_scalar_ascii_byte(cs[0] as u32, b);
            } else {
                assert(encode_utf8(rest)[i - head.len()] == b);
            }
        }
    }
}

proof fn lemma_no_line_break_chars(s: Seq<char>, b: u8)
    requires
        b == 0x0d || b == 0x0a,
        forall|i: int| 0 <= i < s.len() ==> (#[trigger] s[i]) as u32 >= 0x20 || s[i] as u32 == 0x1b,
    ensures
        forall|i: int| 0 <= i < s.len() ==> (#[trigger] s[i]) as u32 != b as u32,
{
}

/// A field's headers are always accepted: escaping keeps line breaks out of the
/// `Content-Disposition` value, whatever the name.
pub proof fn lemma_field_headers_valid(name: Seq<char>)
    ensures
        headers_error(field_headers(name)) is None,
{
    reveal_strlit("form-data; name=\"");
    reveal_strlit("\"");
    let v = field_disposition(name);
    lemma_escaped_is_safe(name);
    let e = escaped(name);
    assert forall|i: int| 0 <= i < v.len() implies (#[trigger] v[i]) as u32 >= 0x20 || v[i] as u32
        == 0x1b by {
        let p = "form-data; name=\""@;
        if i < p.len() {
            assert(v[i] == p[i]);
        } else if i < p.len() + e.len() {
            assert(v[i] == e[i - p.len()]);
        } else {
            assert(v[i] == '"');
        }
    }
    lemma_no_line_break_chars(v, 0x0d);
    lemma_no_line_break_chars(v, 0x0a);
    lemma_encode_utf8_ascii_byte(v, 0x0d);
    lemma_encode_utf8_ascii_byte(v, 0x0a);
    let n = content_disposition_name();
    assert(!n.contains(0x3au8) && !n.contains(0x0du8) && !n.contains(0x0au8)) by {
        assert forall|i: int| 0 <= i < n.len() implies n[i] != 0x3au8 && n[i] != 0x0du8 && n[i]
            != 0x0au8 by {
            assert(n[i] >= 0x2d);
        }
    }
    let hs = field_headers(name);
    assert(headers_error_from(hs, 1) is None);
}

proof fn lemma_encode_utf8_has_ascii(cs: Seq<char>, i: int)
    requires
        0 <= i < cs.len(),
        (cs[i] as u32) < 0x80,
    ensures
        encode_utf8(cs).contains(cs[i] as u32 as u8),
    decreases cs.len(),
{
    let head = encode_scalar(cs[0] as u32);
    let e = encode_utf8(cs);
    assert(e == head + encode_utf8(cs.drop_first()));
    if i == 0 {
        let c = cs[0] as u32;
        assert(c <= 0x7f ==> (c & 0x7f) as u8 == c as u8) by (bit_vector);
        assert(e[0] == head[0]);
    } else {
        assert(cs.drop_first()[i - 1] == cs[i]);
        lemma_encode_utf8_has_ascii(cs.drop_first(), i - 1);
        let j = choose|j: int| 0 <= j < encode_utf8(cs.drop_first()).len() && encode_utf8(cs.drop_first())[j] == cs[i] as u32 as u8;
        assert(e[head.len() + j] == cs[i] as u32 as u8);
    }
}

/// A file's headers are accepted exactly when its content type holds no line break.
pub proof fn lemma_file_headers_valid(
    name: Seq<char>,
    filename: Seq<char>,
    content_type: Option<Seq<char>>,
)
    ensures
        headers_error(file_headers(name, filename, content_type)) == (match content_type {
            Some(t) => if t.contains('\r') || t.contains('\n') {
                Some(BuilderError::InvalidHeaderValueLineBreak)
            } else {
                None
            },
            None => None,
        }),
{
    reveal_strlit("form-data; name=\"");
    reveal_strlit("\"; filename=\"");
    reveal_strlit("\"");
    let v = file_disposition(name, filename);
    lemma_escaped_is_safe(name);
    lemma_escaped_is_safe(filename);
    let e1 = escaped(name);
    let e2 = escaped(filename);
    let p1 = "form-data; name=\""@;
    let p2 = "\"; filename=\""@;
    assert forall|i: int| 0 <= i < v.len() implies (#[trigger] v[i]) as u32 >= 0x20 || v[i] as u32
        == 0x1b by {
        if i < p1.len() {
            assert(v[i] == p1[i]);
        } else if i < p1.len() + e1.len() {
            assert(v[i] == e1[i - p1.len()]);
        } else if i < p1.len() + e1.len() + p2.len() {
            assert(v[i] == p2[i - p1.len() - e1.len()]);
        } else if i < p1.len() + e1.len() + p2.len() + e2.len() {
            assert(v[i] == e2[i - p1.len() - e1.len() - p2.len()]);
        } else {
            assert(v[i] == '"');
        }
    }
    lemma_no_line_break_chars(v, 0x0d);
    lemma_no_line_break_chars(v, 0x0a);
    lemma_encode_utf8_ascii_byte(v, 0x0d);
    lemma_encode_utf8_ascii_byte(v, 0x0a);
    let n = content_disposition_name();
    assert(!n.contains(0x3au8) && !n.contains(0x0du8) && !n.contains(0x0au8)) by {
        assert forall|i: int| 0 <= i < n.len() implies n[i] != 0x3au8 && n[i] != 0x0du8 && n[i]
            != 0x0au8 by {
            assert(n[i] >= 0x2d);
        }
    }
    let hs = file_headers(name, filename, content_type);
    match content_type {
        Some(t) => {
            let m = content_type_name();
            assert(!m.contains(0x3au8) && !m.contains(0x0du8) && !m.contains(0x0au8)) by {
                assert forall|i: int| 0 <= i < m.len() implies m[i] != 0x3au8 && m[i] != 0x0du8
                    && m[i] != 0x0au8 by {
                    assert(m[i] >= 0x2d);
                }
            }
            assert(hs[1] == (m, encode_utf8(t)));
            assert(headers_error_from(hs, 2) is None);
            if t.contains('\r') {
                let i = choose|i: int| 0 <= i < t.len() && t[i] == '\r';
                lemma_encode_utf8_has_ascii(t, i);
            } else if t.contains('\n') {
                let i = choose|i: int| 0 <= i < t.len() && t[i] == '\n';
                lemma_encode_utf8_has_ascii(t, i);
            } else {
                assert forall|i: int| 0 <= i < t.len() implies (#[trigger] t[i]) as u32 != 0x0du8 as u32 by {
                    if t[i] as u32 == 0x0d {
                        char_u32_cast(t[i], 0x0d);
                        char_u32_cast('\r', 0x0d);
                        assert(t[i] == '\r');
                    }
                }
                assert forall|i: int| 0 <= i < t.len() implies (#[trigger] t[i]) as u32 != 0x0au8 as u32 by {
                    if t[i] as u32 == 0x0a {
                        char_u32_cast(t[i], 0x0a);
                        char_u32_cast('\n', 0x0a);
                        assert(t[i] == '\n');
                    }
                }
                lemma_encode_utf8_ascii_byte(t, 0x0d);
                lemma_encode_utf8_ascii_byte(t, 0x0a);
            }
        },
        None => {
            assert(headers_error_from(hs, 1) is None);
        },
    }
}

/// The state of a builder: its boundary, the body rendered so far, and whether it is finished.
pub struct BuilderView {
    pub boundary: Seq<u8>,
    pub body: Seq<u8>,
    pub finished: bool,
}

/// The headers as pairs of byte sequences.
pub open spec fn headers_view(hs: Seq<(Vec<u8>, Vec<u8>)>) -> Seq<(Seq<u8>, Seq<u8>)> {
    hs.map_values(|h: (Vec<u8>, Vec<u8>)| (h.0@, h.1@))
}

/// Serializes parts into a `multipart/form-data` body.
pub struct MultipartBuilder {
    boundary: Vec<u8>,
    buffer: Vec<u8>,
    finished: bool,
}

impl View for MultipartBuilder {
    type V = BuilderView;

    closed spec fn view(&self) -> BuilderView {
        BuilderView { boundary: self.boundary@, body: self.buffer@, finished: self.finished }
    }
}

fn push_crlf(v: &mut Vec<u8>)
    ensures
        final(v)@ == old(v)@ + crlf_seq(),
{
    v.push(0x0d);
    v.push(0x0a);
    assert(final(v)@ =~= old(v)@ + crlf_seq());
}

fn push_dashes(v: &mut Vec<u8>)
    ensures
        final(v)@ == old(v)@ + seq![0x2du8, 0x2du8],
{
    v.push(0x2d);
    v.push(0x2d);
    assert(final(v)@ =~= old(v)@ + seq![0x2du8, 0x2du8]);
}

/// The bytes of `Content-Disposition`.
fn content_disposition_bytes() -> (r: Vec<u8>)
    ensures
        r@ == content_disposition_name(),
{
    let a: [u8; 19] = [
        0x43, 0x6f, 0x6e, 0x74, 0x65, 0x6e, 0x74, 0x2d, 0x44, 0x69, 0x73, 0x70, 0x6f, 0x73, 0x69,
        0x74, 0x69, 0x6f, 0x6e,
    ];
    let r = copy_range(a.as_slice(), 0, 19);
    assert(r@ =~= content_disposition_name());
    r
}

/// The bytes of `Content-Type`.
fn content_type_bytes() -> (r: Vec<u8>)
    ensures
        r@ == content_type_name(),
{
    let a: [u8; 12] = [0x43, 0x6f, 0x6e, 0x74, 0x65, 0x6e, 0x74, 0x2d, 0x54, 0x79, 0x70, 0x65];
    let r = copy_range(a.as_slice(), 0, 12);
    assert(r@ =~= content_type_name());
    r
}

/// The UTF-8 encoding of `s`.
fn utf8_bytes(s: &String) -> (r: Vec<u8>)
    ensures
        r@ == encode_utf8(s@),
{
    let b = s.as_str().as_bytes();
    copy_range(b, 0, b.len())
}

/// Checks the headers, in order.
fn validate_headers(headers: &[(Vec<u8>, Vec<u8>)]) -> (r: Result<(), BuilderError>)
    ensures
        match r {
            Ok(()) => headers_error(headers_view(headers@)) is None,
            Err(e) => headers_error(headers_view(headers@)) == Some(e),
        },
{
    let ghost hv = headers_view(headers@);
    let mut j: usize = 0;
    while j < headers.len()
        invariant
            j <= headers@.len(),
            hv == headers_view(headers@),
            headers_error(hv) == headers_error_from(hv, j as int),
        decreases headers@.len() - j,
    {
        let name = headers[j].0.as_slice();
        let value = headers[j].1.as_slice();
        assert(hv[j as int] == (name@, value@));
        if name.len() == 0 {
            return Err(BuilderError::MissingHeaderName);
        }
        if memchr::memchr3(0x3a, 0x0d, 0x0a, name).is_some() {
            return Err(BuilderError::InvalidHeaderNameCharacter);
        }
        if memchr::memchr2(0x0d, 0x0a, value).is_some() {
            return Err(BuilderError::InvalidHeaderValueLineBreak);
        }
        j += 1;
    }
    Ok(())
}

/// The prologue of a part with these headers.
fn prologue_bytes(boundary: &[u8], headers: &[(Vec<u8>, Vec<u8>)]) -> (r: Vec<u8>)
    ensures
        r@ == part_prologue(boundary@, headers_view(headers@)),
{
    let ghost hv = headers_view(headers@);
    let mut out: Vec<u8> = Vec::new();
    push_dashes(&mut out);
    extend_bytes(&mut out, boundary);
    push_crlf(&mut out);
    let ghost after_boundary = out@;
    assert(after_boundary == dash_boundary_of(boundary@) + crlf_seq());
    let mut k: usize = 0;
    assert(hv.take(0) =~= Seq::<(Seq<u8>, Seq<u8>)>::empty());
    while k < headers.len()
        invariant
            k <= headers@.len(),
            hv == headers_view(headers@),
            out@ == after_boundary + render_headers(hv.take(k as int)),
        decreases headers@.len() - k,
    {
        extend_bytes(&mut out, headers[k].0.as_slice());
        out.push(0x3a);
        out.push(0x20);
        extend_bytes(&mut out, headers[k].1.as_slice());
        push_crlf(&mut out);
        proof {
            assert(hv.take(k + 1).drop_last() =~= hv.take(k as int));
            assert(hv.take(k + 1).last() == hv[k as int]);
        }
        k += 1;
        assert(out@ =~= after_boundary + render_headers(hv.take(k as int)));
    }
    assert(hv.take(k as int) =~= hv);
    push_crlf(&mut out);
    assert(out@ =~= part_prologue(boundary@, hv));
    out
}

/// The `Content-Disposition` value of a field.
fn field_disposition_string(name: &str) -> (r: String)
    ensures
        r@ == field_disposition(name@),
{
    let mut disposition = String::from_str("form-data; name=\"");
    let esc = escape(name);
    disposition.append(esc.as_str());
    disposition.append("\"");
    disposition
}

/// The `Content-Disposition` value of a file.
fn file_disposition_string(name: &str, filename: &str) -> (r: String)
    ensures
        r@ == file_disposition(name@, filename@),
{
    let mut disposition = String::from_str("form-data; name=\"");
    let esc_name = escape(name);
    disposition.append(esc_name.as_str());
    disposition.append("\"; filename=\"");
    let esc_filename = escape(filename);
    disposition.append(esc_filename.as_str());
    disposition.append("\"");
    disposition
}

/// The headers of a field.
fn field_header_list(name: &str) -> (r: Vec<(Vec<u8>, Vec<u8>)>)
    ensures
        headers_view(r@) == field_headers(name@),
{
    let disposition = field_disposition_string(name);
    let mut headers: Vec<(Vec<u8>, Vec<u8>)> = Vec::new();
    headers.push((content_disposition_bytes(), utf8_bytes(&disposition)));
    assert(headers_view(headers@) =~= field_headers(name@));
    headers
}

/// The headers of a file.
fn file_header_list(name: &str, filename: &str, content_type: Option<&str>) -> (r: Vec<
    (Vec<u8>, Vec<u8>),
>)
    ensures
        headers_view(r@) == file_headers(
            name@,
            filename@,
            match content_type {
                Some(t) => Some(t@),
                None => None,
            },
        ),
{
    let disposition = file_disposition_string(name, filename);
    let mut headers: Vec<(Vec<u8>, Vec<u8>)> = Vec::new();
    headers.push((content_disposition_bytes(), utf8_bytes(&disposition)));
    match content_type {
        Some(t) => {
            let ts = String::from_str(t);
            headers.push((content_type_bytes(), utf8_bytes(&ts)));
        },
        None => {},
    }
    assert(headers_view(headers@) =~= file_headers(
        name@,
        filename@,
        match content_type {
            Some(t) => Some(t@),
            None => None,
        },
    ));
    headers
}

impl MultipartBuilder {
    /// The builder's invariant: its boundary is valid.
    pub open spec fn wf(&self) -> bool {
        valid_boundary(self@.boundary)
    }

    /// A builder for `boundary`, or for a random boundary where none is given.
    pub fn new(boundary: Option<Vec<u8>>) -> (r: Result<MultipartBuilder, BuilderError>)
        ensures
            match r {
                Ok(b) => {
                    &&& b.wf()
                    &&& b@.body == Seq::<u8>::empty()
                    &&& !b@.finished
                    &&& match boundary {
                        Some(given) => b@.boundary == given@,
                        None => exists|bytes: Seq<u8>|
                            bytes.len() == 16 && b@.boundary == hex_encoding(bytes),
                    }
                },
                Err(e) => match boundary {
                    Some(given) => if given@.len() == 0 || given@.len() > 70 {
                        e == BuilderError::BoundaryLength
                    } else {
                        !valid_boundary(given@) && e == BuilderError::BoundaryCharacters
                    },
                    None => e == BuilderError::RandomnessUnavailable,
                },
            },
    {
        let is_given = boundary.is_some();
        let chosen = match boundary {
            Some(b) => b,
            None => random_boundary()?,
        };
        if chosen.len() == 0 || chosen.len() > 70 {
            return Err(BuilderError::BoundaryLength);
        }
        let mut i: usize = 0;
        while i < chosen.len()
            invariant
                i <= chosen@.len(),
                1 <= chosen@.len() <= 70,
                is_given == boundary is Some,
                boundary matches Some(given) ==> chosen@ == given@,
                boundary is None ==> valid_boundary(chosen@),
                boundary is None ==> exists|bytes: Seq<u8>|
                    bytes.len() == 16 && chosen@ == hex_encoding(bytes),
                forall|j: int| 0 <= j < i ==> boundary_byte(#[trigger] chosen@[j]),
            decreases chosen@.len() - i,
        {
            if !is_valid_boundary_byte(chosen[i]) {
                assert(!boundary_byte(chosen@[i as int]));
                assert(!valid_boundary(chosen@));
                assert(boundary is Some);
                return Err(BuilderError::BoundaryCharacters);
            }
            i += 1;
        }
        if chosen[chosen.len() - 1] == 0x20 {
            return Err(BuilderError::BoundaryCharacters);
        }
        Ok(MultipartBuilder { boundary: chosen, buffer: Vec::new(), finished: false })
    }

    /// The boundary.
    pub fn boundary(&self) -> (r: &[u8])
        ensures
            r@ == self@.boundary,
    {
        self.boundary.as_slice()
    }

    /// The media type of the body, `multipart/form-data` with the boundary parameter.
    pub fn content_type(&self) -> (r: String)
        ensures
            r@ == content_type_of(self@.boundary),
    {
        let space = find_byte(self.boundary.as_slice(), 0x20);
        let quoted = space.is_some();
        proof {
            if let Some(i) = space {
                assert(self@.boundary[i as int] == 0x20u8);
            }
        }
        let mut out: Vec<char> = if quoted {
            chars_of("multipart/form-data; boundary=\"")
        } else {
            chars_of("multipart/form-data; boundary=")
        };
        let ghost prefix = out@;
        let mut i: usize = 0;
        while i < self.boundary.len()
            invariant
                i <= self@.boundary.len(),
                out@ == prefix + ascii_text(self@.boundary.subrange(0, i as int)),
            decreases self@.boundary.len() - i,
        {
            let b = self.boundary[i];
            out.push(b as char);
            i += 1;
            assert(out@ =~= prefix + ascii_text(self@.boundary.subrange(0, i as int)));
        }
        assert(self@.boundary.subrange(0, self@.boundary.len() as int) =~= self@.boundary);
        if quoted {
            out.push('"');
            proof {
                reveal_strlit("\"");
            }
            assert(out@ =~= prefix + ascii_text(self@.boundary) + "\""@);
        }
        string_from_chars(out.as_slice())
    }

    /// Appends one part with raw headers and data.
    pub fn add_part(&mut self, headers: &[(Vec<u8>, Vec<u8>)], data: &[u8]) -> (r: Result<
        (),
        BuilderError,
    >)
        ensures
            old(self).wf() ==> final(self).wf(),
            final(self)@.boundary == old(self)@.boundary,
            final(self)@.finished == old(self)@.finished,
            match r {
                Ok(()) => {
                    &&& !old(self)@.finished
                    &&& headers_error(headers_view(headers@)) is None
                    &&& final(self)@.body == old(self)@.body + render_part(
                        old(self)@.boundary,
                        headers_view(headers@),
                        data@,
                    )
                },
                Err(e) => {
                    &&& final(self)@ == old(self)@
                    &&& if old(self)@.finished {
                        e == BuilderError::AlreadyFinished
                    } else {
                        headers_error(headers_view(headers@)) == Some(e)
                    }
                },
            },
    {
        if self.finished {
            return Err(BuilderError::AlreadyFinished);
        }
        validate_headers(headers)?;
        let prologue = prologue_bytes(self.boundary.as_slice(), headers);
        extend_bytes(&mut self.buffer, prologue.as_slice());
        extend_bytes(&mut self.buffer, data);
        push_crlf(&mut self.buffer);
        Ok(())
    }

    /// Appends a field: its name escaped in `Content-Disposition`, and its value.
    pub fn add_field(&mut self, name: &str, value: &[u8]) -> (r: Result<(), BuilderError>)
        ensures
            old(self).wf() ==> final(self).wf(),
            final(self)@.boundary == old(self)@.boundary,
            final(self)@.finished == old(self)@.finished,
            match r {
                Ok(()) => {
                    &&& !old(self)@.finished
                    &&& final(self)@.body == old(self)@.body + render_part(
                        old(self)@.boundary,
                        field_headers(name@),
                        value@,
                    )
                },
                Err(e) => {
                    &&& old(self)@.finished
                    &&& e == BuilderError::AlreadyFinished
                    &&& final(self)@ == old(self)@
                },
            },
    {
        proof {
            lemma_field_headers_valid(name@);
        }
        let headers = field_header_list(name);
        self.add_part(headers.as_slice(), value)
    }

    /// Appends a file: its name and file name escaped in `Content-Disposition`, its content type
    /// where one is given, and its data.
    pub fn add_file(
        &mut self,
        name: &str,
        filename: &str,
        data: &[u8],
        content_type: Option<&str>,
    ) -> (r: Result<(), BuilderError>)
        ensures
            old(self).wf() ==> final(self).wf(),
            final(self)@.boundary == old(self)@.boundary,
            final(self)@.finished == old(self)@.finished,
            ({
                let ct = match content_type {
                    Some(t) => Some(t@),
                    None => None,
                };
                let line_break = ct matches Some(t) && (t.contains('\r') || t.contains('\n'));
                match r {
                    Ok(()) => {
                        &&& !old(self)@.finished
                        &&& !line_break
                        &&& final(self)@.body == old(self)@.body + render_part(
                            old(self)@.boundary,
                            file_headers(name@, filename@, ct),
                            data@,
                        )
                    },
                    Err(e) => {
                        &&& final(self)@ == old(self)@
                        &&& if old(self)@.finished {
                            e == BuilderError::AlreadyFinished
                        } else {
                            line_break && e == BuilderError::InvalidHeaderValueLineBreak
                        }
                    },
                }
            }),
    {
        proof {
            lemma_file_headers_valid(
                name@,
                filename@,
                match content_type {
                    Some(t) => Some(t@),
                    None => None,
                },
            );
        }
        let headers = file_header_list(name, filename, content_type);
        self.add_part(headers.as_slice(), data)
    }

    /// The prologue of a part with raw headers: its boundary line, header lines and empty line,
    /// to be followed by the data and a line break; the builder is left as it is.
    pub fn render_part(&self, headers: &[(Vec<u8>, Vec<u8>)]) -> (r: Result<Vec<u8>, BuilderError>)
        ensures
            match r {
                Ok(bytes) => {
                    &&& headers_error(headers_view(headers@)) is None
                    &&& bytes@ == part_prologue(self@.boundary, headers_view(headers@))
                    &&& forall|data: Seq<u8>|
                        bytes@ + data + crlf_seq() == #[trigger] render_part(
                            self@.boundary,
                            headers_view(headers@),
                            data,
                        )
                },
                Err(e) => headers_error(headers_view(headers@)) == Some(e),
            },
    {
        validate_headers(headers)?;
        Ok(prologue_bytes(self.boundary.as_slice(), headers))
    }

    /// The prologue of a field part.
    pub fn render_field(&self, name: &str) -> (r: Vec<u8>)
        ensures
            r@ == part_prologue(self@.boundary, field_headers(name@)),
            forall|data: Seq<u8>|
                r@ + data + crlf_seq() == #[trigger] render_part(
                    self@.boundary,
                    field_headers(name@),
                    data,
                ),
    {
        proof {
            lemma_field_headers_valid(name@);
        }
        let headers = field_header_list(name);
        prologue_bytes(self.boundary.as_slice(), headers.as_slice())
    }

    /// The prologue of a file part.
    pub fn render_file(&self, name: &str, filename: &str, content_type: Option<&str>) -> (r:
        Result<Vec<u8>, BuilderError>)
        ensures
            ({
                let ct = match content_type {
                    Some(t) => Some(t@),
                    None => None,
                };
                let line_break = ct matches Some(t) && (t.contains('\r') || t.contains('\n'));
                match r {
                    Ok(bytes) => !line_break && bytes@ == part_prologue(
                        self@.boundary,
                        file_headers(name@, filename@, ct),
                    ) && forall|data: Seq<u8>|
                        bytes@ + data + crlf_seq() == #[trigger] render_part(
                            self@.boundary,
                            file_headers(name@, filename@, ct),
                            data,
                        ),
                    Err(e) => line_break && e == BuilderError::InvalidHeaderValueLineBreak,
                }
            }),
    {
        proof {
            lemma_file_headers_valid(
                name@,
                filename@,
                match content_type {
                    Some(t) => Some(t@),
                    None => None,
                },
            );
        }
        let headers = file_header_list(name, filename, content_type);
        self.render_part(headers.as_slice())
    }

    /// The closing boundary line.
    pub fn closing(&self) -> (r: Vec<u8>)
        ensures
            r@ == closing_of(self@.boundary),
    {
        let mut out: Vec<u8> = Vec::new();
        push_dashes(&mut out);
        extend_bytes(&mut out, self.boundary.as_slice());
        push_dashes(&mut out);
        push_crlf(&mut out);
        assert(out@ =~= closing_of(self@.boundary));
        out
    }

    /// Appends the closing boundary line and returns the body; the builder is finished after.
    pub fn build(&mut self) -> (r: Result<Vec<u8>, BuilderError>)
        ensures
            old(self).wf() ==> final(self).wf(),
            match r {
                Ok(body) => {
                    &&& !old(self)@.finished
                    &&& body@ == old(self)@.body + closing_of(old(self)@.boundary)
                    &&& final(self)@ == (BuilderView {
                        boundary: old(self)@.boundary,
                        body: Seq::empty(),
                        finished: true,
                    })
                },
                Err(e) => {
                    &&& old(self)@.finished
                    &&& e == BuilderError::AlreadyFinished
                    &&& final(self)@ == old(self)@
                },
            },
    {
        if self.finished {
            return Err(BuilderError::AlreadyFinished);
        }
        self.finished = true;
        let ghost start = self.buffer@;
        push_dashes(&mut self.buffer);
        extend_bytes(&mut self.buffer, self.boundary.as_slice());
        push_dashes(&mut self.buffer);
        push_crlf(&mut self.buffer);
        assert(self.buffer@ =~= start + closing_of(self@.boundary));
        let mut body: Vec<u8> = Vec::new();
        std::mem::swap(&mut body, &mut self.buffer);
        Ok(body)
    }
}

} // verus!
