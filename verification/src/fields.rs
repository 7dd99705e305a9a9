//! Form fields that the builder writes come back from the parser as the same fields.

use vstd::prelude::*;
use vstd::utf8::{encode_scalar, encode_utf8, encode_utf8_decode_utf8, encode_utf8_valid_utf8};

use crate::builder::{content_disposition_name, dash_boundary_of, escaped, escape_char, field_disposition, field_headers, lemma_field_headers_valid, valid_boundary};
use crate::bytes::{find_byte_from, occurs_at};
use crate::error::MultipartError;
use crate::form_data::{form_data_from_headers, get_or, part_content_type, FormDataView};
use crate::headers::{
    is_separator, lemma_find_char_at, lemma_quote_state_plain, lemma_split_no_separator,
    lemma_unescape_plain, parse_options, parse_parameter, parse_parameters, parameter_value,
    quote_state, split_segments, HeaderSyntaxError,
};
use crate::multipart::{crlf_seq, feed_spec, header_from_line, initial_view, MultipartState};
use crate::round_trip::{
    built_body, expected_part, expected_parts, fresh_view, header_line_of, insert_headers,
    lemma_parser_reads_built_body, lemma_unbroken_without_delimiter, parsed_header,
    parsed_headers, readable_headers, readable_parts,
};
use crate::text::{ascii_lower, lemma_trim_plain, trim, trim_start};

verus! {

/// A name that escaping leaves as it is and that parses back from a quoted parameter: no `"`,
/// no backslash, no control character.
pub open spec fn plain_name(n: Seq<char>) -> bool {
    forall|k: int| 0 <= k < n.len() ==> #[trigger] n[k] != '"' && n[k] != '\\' && (n[k] as u32)
        >= 0x20
}

/// The parts that `add_field` adds for the fields, in order.
pub open spec fn field_parts(fields: Seq<(Seq<char>, Seq<u8>)>) -> Seq<
    (Seq<(Seq<u8>, Seq<u8>)>, Seq<u8>),
> {
    fields.map_values(|f: (Seq<char>, Seq<u8>)| (field_headers(f.0), f.1))
}

/// The form part that the parser reads for a field.
pub open spec fn field_view(f: (Seq<char>, Seq<u8>)) -> FormDataView {
    FormDataView {
        name: f.0,
        filename: None,
        content_type: "text/plain"@,
        charset: "utf-8"@,
        data: f.1,
    }
}

proof fn lemma_encode_utf8_concat(a: Seq<char>, b: Seq<char>)
    ensures
        encode_utf8(a + b) == encode_utf8(a) + encode_utf8(b),
    decreases a.len(),
{
    if a.len() == 0 {
        assert(a + b =~= b);
        assert(encode_utf8(a) + encode_utf8(b) =~= encode_utf8(b));
    } else {
        assert((a + b).drop_first() =~= a.drop_first() + b);
        lemma_encode_utf8_concat(a.drop_first(), b);
        assert(encode_utf8(a + b) =~= encode_utf8(a) + encode_utf8(b));
    }
}

proof fn lemma_escaped_plain(s: Seq<char>)
    requires
        plain_name(s),
    ensures
        escaped(s) == s,
    decreases s.len(),
{
    if s.len() > 0 {
        lemma_escaped_plain(s.drop_last());
        let c = s.last();
        assert(c == s[s.len() - 1]);
        assert(escape_char(c) == seq![c]);
        assert(s.drop_last().push(c) =~= s);
    }
}

proof fn lemma_find_byte_at(s: Seq<u8>, b: u8, i: int, j: int)
    requires
        0 <= i <= j < s.len(),
        s[j] == b,
        forall|k: int| i <= k < j ==> s[k] != b,
    ensures
        find_byte_from(s, b, i) == Some(j),
    decreases j - i,
{
    if i < j {
        lemma_find_byte_at(s, b, i + 1, j);
    }
}

/// A field's `Content-Disposition` value parses to `form-data` with the field's name.
proof fn lemma_disposition_parses(n: Seq<char>)
    requires
        plain_name(n),
    ensures
        parse_options(field_disposition(n)) == Ok::<
            (Seq<char>, Map<Seq<char>, Seq<char>>),
            HeaderSyntaxError,
        >(("form-data"@, Map::<Seq<char>, Seq<char>>::empty().insert("name"@, n))),
{
    reveal_strlit("form-data; name=\"");
    reveal_strlit("\"");
    reveal_strlit("form-data");
    reveal_strlit("name");
    lemma_escaped_plain(n);
    let p = "form-data; name=\""@;
    assert(p.len() == 17);
    let s = p + n + seq!['"'];
    assert(field_disposition(n) =~= s);
    let len = s.len() as int;
    let e = 17 + n.len() as int;
    assert forall|k: int| 0 <= k < 16 implies #[trigger] s[k] != '"' && s[k] != '\\' && (s[k]
        == ';' <==> k == 9) by {
        assert(s[k] == p[k]);
    }
    assert(s[16] == '"');
    lemma_quote_state_plain(s, 0, 16);
    assert(quote_state(s, 17) == (true, false));
    assert forall|k: int| 17 <= k < e implies s[k] != '"' && s[k] != '\\' by {
        assert(s[k] == n[k - 17]);
    }
    assert forall|k: int| 17 <= k <= e implies #[trigger] quote_state(s, k) == (true, false) by {
        lemma_quote_state_plain(s, 17, k);
    }
    assert(s[e] == '"');
    assert(len == e + 1);
    assert(quote_state(s, e) == (true, false));
    assert(quote_state(s, len) == (false, false));
    assert forall|k: int| 0 <= k < 9 implies !#[trigger] is_separator(s, k) by {}
    assert forall|k: int| 10 <= k < len implies !#[trigger] is_separator(s, k) by {
        if 17 <= k < e {
            assert(quote_state(s, k) == (true, false));
        }
    }
    lemma_quote_state_plain(s, 0, 9);
    assert(is_separator(s, 9));
    lemma_split_no_separator(s, 0, 9, 0);
    lemma_split_no_separator(s, 10, len, 10);
    let x = s.subrange(10, len);
    assert(split_segments(s, 0, 0) =~= seq![s.subrange(0, 9), x]);
    let segs = split_segments(s, 0, 0);
    assert(s.subrange(0, 9) =~= "form-data"@);
    lemma_trim_plain("form-data"@);
    assert(segs.drop_first() =~= seq![x]);
    assert(seq![x].drop_last() =~= Seq::<Seq<char>>::empty());
    assert(x[5] == '=');
    assert forall|k: int| 0 <= k < 5 implies x[k] != '=' by {
        assert(x[k] == p[k + 10]);
    }
    lemma_find_char_at(x, '=', 0, 5);
    let key = x.subrange(0, 5);
    assert(key.drop_first() =~= "name"@);
    lemma_trim_plain("name"@);
    assert(trim_start(key) == trim_start("name"@));
    assert(trim(key) == "name"@);
    assert(ascii_lower("name"@) =~= "name"@);
    let raw = x.subrange(6, x.len() as int);
    assert(raw =~= seq!['"'] + n + seq!['"']);
    lemma_trim_plain(raw);
    assert(raw.subrange(1, raw.len() - 1) =~= n);
    lemma_unescape_plain(n);
    assert(parameter_value(trim(raw)) == Ok::<Seq<char>, HeaderSyntaxError>(n));
    assert(parse_parameter(x) == Ok::<(Seq<char>, Seq<char>), HeaderSyntaxError>(("name"@, n)));
    assert(parse_parameters(Seq::<Seq<char>>::empty()) == Ok::<
        Map<Seq<char>, Seq<char>>,
        HeaderSyntaxError,
    >(Map::<Seq<char>, Seq<char>>::empty()));
    assert(seq![x].last() == x);
    assert(parse_parameters(seq![x]) == Ok::<Map<Seq<char>, Seq<char>>, HeaderSyntaxError>(
        Map::<Seq<char>, Seq<char>>::empty().insert("name"@, n),
    ));
    assert(segs[0] == s.subrange(0, 9));
}

/// The encoding of ASCII text is its characters as bytes.
proof fn lemma_ascii_encoding(cs: Seq<char>, bs: Seq<u8>)
    requires
        cs.len() == bs.len(),
        forall|i: int| 0 <= i < cs.len() ==> (#[trigger] cs[i] as u32) < 0x80 && cs[i] as u32
            == bs[i] as u32,
    ensures
        encode_utf8(cs) == bs,
    decreases cs.len(),
{
    if cs.len() > 0 {
        let c = cs[0] as u32;
        assert(c < 0x80);
        assert((c & 0x7f) == c) by (bit_vector)
            requires
                c < 0x80,
        ;
        assert(encode_scalar(c) =~= seq![bs[0]]);
        lemma_ascii_encoding(cs.drop_first(), bs.drop_first());
        assert(encode_utf8(cs) =~= bs);
    }
}

/// A field's `Content-Disposition` line reads back as its name and value.
proof fn lemma_field_header_line(n: Seq<char>)
    requires
        plain_name(n),
    ensures
        header_from_line(header_line_of(field_headers(n)[0])) == Ok::<
            (Seq<char>, Seq<char>),
            MultipartError,
        >(("Content-Disposition"@, field_disposition(n))),
{
    reveal_strlit("Content-Disposition");
    reveal_strlit("form-data; name=\"");
    reveal_strlit("\"");
    reveal(header_from_line);
    let disp = field_disposition(n);
    let cd = "Content-Disposition"@;
    let cdn = content_disposition_name();
    assert(cd.len() == 19);
    assert forall|i: int| 0 <= i < 19 implies (#[trigger] cd[i] as u32) < 0x80 && cd[i] as u32
        == cdn[i] as u32 by {}
    lemma_ascii_encoding(cd, cdn);
    lemma_ascii_encoding(seq![' '], seq![0x20u8]);
    let line = header_line_of(field_headers(n)[0]);
    assert(field_headers(n)[0] == (cdn, encode_utf8(disp)));
    let v = seq![' '] + disp;
    lemma_encode_utf8_concat(seq![' '], disp);
    assert(line =~= cdn + seq![0x3au8] + encode_utf8(v));
    assert forall|k: int| 0 <= k < 19 implies line[k] != 0x3au8 by {
        assert(line[k] == cdn[k]);
    }
    lemma_find_byte_at(line, 0x3a, 0, 19);
    assert(line.subrange(0, 19) =~= encode_utf8(cd));
    assert(line.subrange(20, line.len() as int) =~= encode_utf8(v));
    encode_utf8_valid_utf8(cd);
    encode_utf8_decode_utf8(cd);
    encode_utf8_valid_utf8(v);
    encode_utf8_decode_utf8(v);
    lemma_trim_plain(cd);
    assert(disp[0] == 'f');
    assert(disp.last() == '"');
    lemma_trim_plain(disp);
    assert(v.drop_first() =~= disp);
    assert(trim_start(v) == trim_start(disp));
    assert(trim(v) == disp);
}

/// A field's headers are readable, and describe a field of that name with the default content
/// type and charset.
proof fn lemma_field_readable(n: Seq<char>)
    requires
        plain_name(n),
    ensures
        readable_headers(field_headers(n)),
        form_data_from_headers(parsed_headers(field_headers(n))) == Ok::<FormDataView, MultipartError>(
            FormDataView {
                name: n,
                filename: None,
                content_type: "text/plain"@,
                charset: "utf-8"@,
                data: Seq::empty(),
            },
        ),
{
    reveal_strlit("Content-Disposition");
    reveal_strlit("content-disposition");
    reveal_strlit("content-type");
    reveal_strlit("name");
    reveal_strlit("filename");
    reveal_strlit("charset");
    reveal_strlit("form-data");
    let hs = field_headers(n);
    lemma_field_headers_valid(n);
    lemma_field_header_line(n);
    lemma_disposition_parses(n);
    assert forall|i: int| 0 <= i < hs.len() implies #[trigger] header_from_line(
        header_line_of(hs[i]),
    ) is Ok by {
        assert(i == 0);
    }
    let disp = field_disposition(n);
    assert(parsed_header(hs[0]) == ("Content-Disposition"@, disp));
    assert(ascii_lower("Content-Disposition"@) =~= "content-disposition"@);
    let m = Map::<Seq<char>, Seq<char>>::empty().insert("content-disposition"@, disp);
    assert(hs.drop_first() =~= Seq::<(Seq<u8>, Seq<u8>)>::empty());
    assert(insert_headers(m, Seq::<(Seq<u8>, Seq<u8>)>::empty()) == m);
    assert(parsed_headers(hs) == m);
    assert("content-type"@ != "content-disposition"@) by {
        assert("content-type"@.len() != "content-disposition"@.len());
    }
    assert(!m.contains_key("content-type"@));
    assert(part_content_type(m) == Ok::<(Seq<char>, Map<Seq<char>, Seq<char>>), HeaderSyntaxError>(
        ("text/plain"@, Map::empty()),
    ));
    assert("filename"@ != "name"@) by {
        assert("filename"@.len() != "name"@.len());
    }
    let params = Map::<Seq<char>, Seq<char>>::empty().insert("name"@, n);
    assert(!params.contains_key("filename"@));
    assert(get_or(Map::<Seq<char>, Seq<char>>::empty(), "charset"@, "utf-8"@) == "utf-8"@);
    reveal(form_data_from_headers);
}

/// Fields written by the builder are read back by a parser that collects body data into parts
/// as the same fields, in order, with the default content type and charset: for names that
/// escaping leaves as they are and values that do not hold the delimiter.
pub proof fn lemma_fields_round_trip(b: Seq<u8>, fields: Seq<(Seq<char>, Seq<u8>)>)
    requires
        valid_boundary(b),
        forall|i: int| 0 <= i < fields.len() ==> plain_name(#[trigger] fields[i].0),
        forall|i: int, j: int|
            0 <= i < fields.len() ==> !#[trigger] occurs_at(
                fields[i].1,
                j,
                crlf_seq() + dash_boundary_of(b),
            ),
        built_body(b, field_parts(fields)).len() <= usize::MAX,
    ensures
        feed_spec(fresh_view(b, true), built_body(b, field_parts(fields))).1 == Ok::<
            (),
            MultipartError,
        >(()),
        feed_spec(fresh_view(b, true), built_body(b, field_parts(fields))).0.state
            == MultipartState::End,
        feed_spec(fresh_view(b, true), built_body(b, field_parts(fields))).0.parts
            == fields.map_values(|f: (Seq<char>, Seq<u8>)| field_view(f)),
{
    let parts = field_parts(fields);
    assert forall|i: int| 0 <= i < parts.len() implies {
        &&& readable_headers(#[trigger] parts[i].0)
        &&& crate::round_trip::data_is_unbroken(b, parts[i].1, built_body(b, parts.skip(i + 1)))
    } by {
        lemma_field_readable(fields[i].0);
        assert forall|j: int| !#[trigger] occurs_at(parts[i].1, j, crlf_seq() + dash_boundary_of(b)) by {
            assert(!occurs_at(fields[i].1, j, crlf_seq() + dash_boundary_of(b)));
        }
        lemma_unbroken_without_delimiter(b, parts[i].1, parts.skip(i + 1));
    }
    assert(readable_parts(b, parts));
    lemma_parser_reads_built_body(b, parts, true);
    assert forall|i: int| 0 <= i < fields.len() implies #[trigger] expected_parts(parts, true)[i]
        == field_view(fields[i]) by {
        lemma_field_readable(fields[i].0);
        assert(expected_parts(parts, true)[i] == expected_part(parts[i], true));
        assert(expected_part(parts[i], true) =~= field_view(fields[i]));
    }
    assert(expected_parts(parts, true) =~= fields.map_values(|f: (Seq<char>, Seq<u8>)| field_view(f)));
}

} // verus!
