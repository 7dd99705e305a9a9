//! What the parser reads back from a body that the builder writes.

use vstd::prelude::*;

use crate::builder::{
    ascii_text, boundary_byte, closing_of, content_type_of, dash_boundary_of, header_error, headers_error, headers_error_from,
    render_headers, render_part, valid_boundary,
};
use crate::bytes::{is_first_occurrence, occurs_at};
use crate::error::MultipartError;
use crate::form_data::{form_data_from_headers, with_data, FormDataView};
use crate::headers::{
    is_separator, lemma_find_char_at, lemma_quote_state_plain, lemma_split_no_separator,
    lemma_unescape_plain, parse_options, parse_parameter, parse_parameters, parameter_value,
    quote_state, split_segments, unescape,
};
use crate::text::{ascii_lower, is_unicode_whitespace, lemma_trim_plain, trim, trim_start};
use crate::multipart::{
    body_candidate, body_delimiter, body_step, crlf_seq, feed_spec, first_occurrence, header_step,
    initial_view, is_first_preamble_candidate, lemma_preamble_delimiter_some, preamble_step, delimiter_suffix_of, finish_part_view, header_from_line,
    is_first_body_candidate, lemma_body_delimiter_some, lemma_first_occurrence_some,
    lemma_step_progress, lemma_step_wf, padding_len, parser_view_wf, run, step, DelimiterSuffix,
    LineContext, MultipartPartView, MultipartState, ParserView,
};

verus! {

/// A parser that collects body data into parts and limits no header: as a fresh one is.
pub open spec fn plain_parsing(v: ParserView) -> bool {
    &&& v.max_header_count is None
    &&& v.max_header_size is None
}

/// A fresh parser for `b` without a size limit that collects body data into parts or not.
pub open spec fn fresh_view(b: Seq<u8>, assemble: bool) -> ParserView {
    ParserView { assemble, ..initial_view(b, None) }
}

/// The header line `name: value` (without its line break).
pub open spec fn header_line_of(h: (Seq<u8>, Seq<u8>)) -> Seq<u8> {
    h.0 + seq![0x3au8, 0x20u8] + h.1
}

/// The name and value that the parser reads from a header line.
pub open spec fn parsed_header(h: (Seq<u8>, Seq<u8>)) -> (Seq<char>, Seq<char>) {
    header_from_line(header_line_of(h))->Ok_0
}

/// `m` with the parsed headers inserted in order.
pub open spec fn insert_headers(m: Map<Seq<char>, Seq<char>>, hs: Seq<(Seq<u8>, Seq<u8>)>) -> Map<
    Seq<char>,
    Seq<char>,
>
    decreases hs.len(),
{
    if hs.len() == 0 {
        m
    } else {
        insert_headers(
            m.insert(ascii_lower(parsed_header(hs[0]).0), parsed_header(hs[0]).1),
            hs.drop_first(),
        )
    }
}

/// The header map that the parser builds from a part's headers.
pub open spec fn parsed_headers(hs: Seq<(Seq<u8>, Seq<u8>)>) -> Map<Seq<char>, Seq<char>> {
    insert_headers(Map::empty(), hs)
}

/// The header events of a part's headers.
pub open spec fn header_events(hs: Seq<(Seq<u8>, Seq<u8>)>) -> Seq<MultipartPartView> {
    hs.map_values(
        |h: (Seq<u8>, Seq<u8>)|
            MultipartPartView::Header { name: parsed_header(h).0, value: parsed_header(h).1 },
    )
}

/// The events of one part: its headers, then its whole data as the completing chunk.
pub open spec fn part_events(p: (Seq<(Seq<u8>, Seq<u8>)>, Seq<u8>)) -> Seq<MultipartPartView> {
    header_events(p.0).push(MultipartPartView::Body { data: p.1, complete: true })
}

/// The events of the parts, in order.
pub open spec fn all_events(parts: Seq<(Seq<(Seq<u8>, Seq<u8>)>, Seq<u8>)>) -> Seq<
    MultipartPartView,
>
    decreases parts.len(),
{
    if parts.len() == 0 {
        Seq::empty()
    } else {
        part_events(parts[0]) + all_events(parts.drop_first())
    }
}

/// The form part that the parser reads for a part.
pub open spec fn expected_part(p: (Seq<(Seq<u8>, Seq<u8>)>, Seq<u8>), assemble: bool) -> FormDataView {
    let f = form_data_from_headers(parsed_headers(p.0))->Ok_0;
    if assemble {
        with_data(f, p.1)
    } else {
        f
    }
}

/// The form parts that the parser reads, in order.
pub open spec fn expected_parts(parts: Seq<(Seq<(Seq<u8>, Seq<u8>)>, Seq<u8>)>, assemble: bool) -> Seq<
    FormDataView,
> {
    parts.map_values(|p: (Seq<(Seq<u8>, Seq<u8>)>, Seq<u8>)| expected_part(p, assemble))
}

/// The body of the parts, each rendered as the builder renders it, then the closing line.
pub open spec fn built_body(b: Seq<u8>, parts: Seq<(Seq<(Seq<u8>, Seq<u8>)>, Seq<u8>)>) -> Seq<u8>
    decreases parts.len(),
{
    if parts.len() == 0 {
        closing_of(b)
    } else {
        render_part(b, parts[0].0, parts[0].1) + built_body(b, parts.drop_first())
    }
}

/// What follows the first boundary line of a body with at least one part.
pub open spec fn part_tail(b: Seq<u8>, parts: Seq<(Seq<(Seq<u8>, Seq<u8>)>, Seq<u8>)>) -> Seq<u8> {
    render_headers(parts[0].0) + crlf_seq() + parts[0].1 + crlf_seq() + built_body(
        b,
        parts.drop_first(),
    )
}

/// Headers that the builder accepts, whose every line the parser accepts, and that describe a
/// form part.
pub open spec fn readable_headers(hs: Seq<(Seq<u8>, Seq<u8>)>) -> bool {
    &&& headers_error(hs) is None
    &&& forall|i: int| 0 <= i < hs.len() ==> #[trigger] header_from_line(header_line_of(hs[i])) is Ok
    &&& form_data_from_headers(parsed_headers(hs)) is Ok
}

/// No delimiter that the parser would accept starts inside `data`, when `next` follows the line
/// break after it.
pub open spec fn data_is_unbroken(b: Seq<u8>, data: Seq<u8>, next: Seq<u8>) -> bool {
    forall|j: int|
        0 <= j < data.len() ==> !#[trigger] body_candidate(
            data + crlf_seq() + next,
            crlf_seq() + dash_boundary_of(b),
            j,
        )
}

/// Parts that the parser reads back as they were written: each part's headers are readable,
/// and no delimiter starts inside its data.
pub open spec fn readable_parts(b: Seq<u8>, parts: Seq<(Seq<(Seq<u8>, Seq<u8>)>, Seq<u8>)>) -> bool {
    forall|i: int|
        0 <= i < parts.len() ==> {
            &&& readable_headers(#[trigger] parts[i].0)
            &&& data_is_unbroken(b, parts[i].1, built_body(b, parts.skip(i + 1)))
        }
}

proof fn lemma_render_headers_front(hs: Seq<(Seq<u8>, Seq<u8>)>)
    requires
        hs.len() > 0,
    ensures
        render_headers(hs) == header_line_of(hs[0]) + crlf_seq() + render_headers(hs.drop_first()),
    decreases hs.len(),
{
    if hs.len() == 1 {
        assert(hs.drop_last() =~= Seq::<(Seq<u8>, Seq<u8>)>::empty());
        assert(hs.drop_first() =~= Seq::<(Seq<u8>, Seq<u8>)>::empty());
        assert(render_headers(hs) =~= header_line_of(hs[0]) + crlf_seq() + render_headers(
            hs.drop_first(),
        ));
    } else {
        lemma_render_headers_front(hs.drop_last());
        assert(hs.drop_last().drop_first() =~= hs.drop_first().drop_last());
        assert(hs.drop_first().last() == hs.last());
        assert(hs.drop_last()[0] == hs[0]);
        assert(render_headers(hs) =~= header_line_of(hs[0]) + crlf_seq() + render_headers(
            hs.drop_first(),
        ));
    }
}

proof fn lemma_built_body_front(b: Seq<u8>, parts: Seq<(Seq<(Seq<u8>, Seq<u8>)>, Seq<u8>)>)
    requires
        parts.len() > 0,
    ensures
        built_body(b, parts) == dash_boundary_of(b) + crlf_seq() + part_tail(b, parts),
{
    assert(built_body(b, parts) =~= dash_boundary_of(b) + crlf_seq() + part_tail(b, parts));
}

/// One step that makes progress, inside a run with enough fuel.
pub(crate) proof fn lemma_run_step(v: ParserView, f: nat)
    requires
        parser_view_wf(v),
        f > v.buffer.len(),
        step(v).1 == Ok::<bool, MultipartError>(true),
    ensures
        run(v, f) == run(step(v).0, (f - 1) as nat),
        f - 1 > step(v).0.buffer.len(),
        parser_view_wf(step(v).0),
{
    lemma_step_progress(v);
    lemma_step_wf(v);
}


proof fn lemma_header_line_no_cr(h: (Seq<u8>, Seq<u8>))
    requires
        header_error(h.0, h.1) is None,
    ensures
        forall|j: int| 0 <= j < header_line_of(h).len() ==> #[trigger] header_line_of(h)[j] != 0x0du8,
        header_line_of(h).len() > 0,
{
    let line = header_line_of(h);
    assert forall|j: int| 0 <= j < line.len() implies #[trigger] line[j] != 0x0du8 by {
        if j < h.0.len() {
            assert(line[j] == h.0[j]);
            if h.0[j] == 0x0du8 {
                assert(h.0.contains(0x0du8));
            }
        } else if j >= h.0.len() + 2 {
            assert(line[j] == h.1[j - h.0.len() - 2]);
            if h.1[j - h.0.len() - 2] == 0x0du8 {
                assert(h.1.contains(0x0du8));
            }
        }
    }
}

/// The parser reads one header line written by the builder.
proof fn lemma_header_step(v: ParserView, h: (Seq<u8>, Seq<u8>), rest: Seq<u8>)
    requires
        parser_view_wf(v),
        plain_parsing(v),
        v.state == MultipartState::Header,
        v.buffer == header_line_of(h) + crlf_seq() + rest,
        header_error(h.0, h.1) is None,
        header_from_line(header_line_of(h)) is Ok,
    ensures
        step(v) == (
            ParserView {
                buffer: rest,
                headers: v.headers.insert(ascii_lower(parsed_header(h).0), parsed_header(h).1),
                events: v.events.push(
                    MultipartPartView::Header { name: parsed_header(h).0, value: parsed_header(h).1 },
                ),
                ..v
            },
            Ok::<bool, MultipartError>(true),
        ),
{
    let line = header_line_of(h);
    let n = line.len() as int;
    let buf = v.buffer;
    lemma_header_line_no_cr(h);
    assert(buf.subrange(n, n + 2) =~= crlf_seq());
    assert forall|j: int| 0 <= j < n implies !#[trigger] occurs_at(buf, j, crlf_seq()) by {
        assert(buf[j] == line[j]);
        if occurs_at(buf, j, crlf_seq()) {
            assert(buf.subrange(j, j + 2)[0] == buf[j]);
        }
    }
    assert(is_first_occurrence(buf, n, crlf_seq()));
    lemma_first_occurrence_some(buf, crlf_seq(), n);
    assert(buf.subrange(0, n) =~= line);
    assert(buf.skip(n + 2) =~= rest);
}


proof fn lemma_headers_error_shift(hs: Seq<(Seq<u8>, Seq<u8>)>, k: int)
    requires
        0 <= k,
        hs.len() > 0,
    ensures
        headers_error_from(hs.drop_first(), k) == headers_error_from(hs, k + 1),
    decreases hs.len() - k,
{
    if k < hs.len() - 1 {
        assert(hs.drop_first()[k] == hs[k + 1]);
        lemma_headers_error_shift(hs, k + 1);
    }
}

/// The parser reads all header lines of a part written by the builder.
#[verifier::rlimit(100)]
#[verifier::spinoff_prover]
proof fn lemma_header_phase(v: ParserView, hs: Seq<(Seq<u8>, Seq<u8>)>, rest: Seq<u8>, f: nat)
    requires
        parser_view_wf(v),
        plain_parsing(v),
        v.state == MultipartState::Header,
        v.buffer == render_headers(hs) + rest,
        f > v.buffer.len(),
        headers_error(hs) is None,
        forall|i: int| 0 <= i < hs.len() ==> #[trigger] header_from_line(header_line_of(hs[i])) is Ok,
    ensures
        ({
            let w = ParserView {
                buffer: rest,
                headers: insert_headers(v.headers, hs),
                events: v.events + header_events(hs),
                ..v
            };
            &&& run(v, f) == run(w, (f - hs.len()) as nat)
            &&& f - hs.len() > rest.len()
            &&& parser_view_wf(w)
        }),
    decreases hs.len(),
{
    if hs.len() == 0 {
        assert(v.buffer =~= rest);
        assert(v.events + header_events(hs) =~= v.events);
        assert(v == (ParserView {
            buffer: rest,
            headers: insert_headers(v.headers, hs),
            events: v.events + header_events(hs),
            ..v
        }));
    } else {
        let h = hs[0];
        let tail = hs.drop_first();
        lemma_render_headers_front(hs);
        assert(v.buffer =~= header_line_of(h) + crlf_seq() + (render_headers(tail) + rest));
        assert(header_error(h.0, h.1) is None);
        lemma_headers_error_shift(hs, 0);
        assert(header_from_line(header_line_of(hs[0])) is Ok);
        lemma_header_step(v, h, render_headers(tail) + rest);
        lemma_run_step(v, f);
        let v1 = step(v).0;
        assert forall|i: int| 0 <= i < tail.len() implies #[trigger] header_from_line(
            header_line_of(tail[i]),
        ) is Ok by {
            assert(tail[i] == hs[i + 1]);
        }
        lemma_header_phase(v1, tail, rest, (f - 1) as nat);
        assert(header_events(hs) =~= seq![
            MultipartPartView::Header { name: parsed_header(h).0, value: parsed_header(h).1 },
        ] + header_events(tail));
        assert(v1.events + header_events(tail) =~= v.events + header_events(hs));
    }
}


/// The parser reads the empty line that ends a part's headers.
#[verifier::rlimit(100)]
#[verifier::spinoff_prover]
pub(crate) proof fn lemma_empty_line_step(v: ParserView, rest: Seq<u8>)
    requires
        parser_view_wf(v),
        plain_parsing(v),
        v.state == MultipartState::Header,
        v.buffer == crlf_seq() + rest,
        form_data_from_headers(v.headers) is Ok,
    ensures
        step(v).1 == Ok::<bool, MultipartError>(true),
        step(v).0 == (ParserView {
            buffer: rest,
            headers: Map::empty(),
            current_part: Some(form_data_from_headers(v.headers)->Ok_0),
            state: MultipartState::Body,
            ..v
        }),
{
    let buf = v.buffer;
    assert(buf.subrange(0, 2) =~= crlf_seq());
    assert(is_first_occurrence(buf, 0, crlf_seq()));
    lemma_first_occurrence_some(buf, crlf_seq(), 0);
    assert(first_occurrence(buf, crlf_seq()) == Some(0int));
    assert(buf.subrange(0, 0).len() == 0);
    assert(buf.skip(2) =~= rest);
    assert(step(v) == header_step(v));
}

/// Data that does not hold the delimiter (a line break, `--` and the boundary) is unbroken,
/// whatever follows: a delimiter that began in the data and ended after it would have a carriage
/// return where a boundary has none.
pub proof fn lemma_unbroken_without_delimiter(b: Seq<u8>, data: Seq<u8>, more: Seq<(Seq<(Seq<u8>, Seq<u8>)>, Seq<u8>)>)
    requires
        valid_boundary(b),
        forall|i: int| !#[trigger] occurs_at(data, i, crlf_seq() + dash_boundary_of(b)),
    ensures
        data_is_unbroken(b, data, built_body(b, more)),
{
    let d = crlf_seq() + dash_boundary_of(b);
    let next = built_body(b, more);
    let buf = data + crlf_seq() + next;
    let n = data.len() as int;
    if more.len() > 0 {
        lemma_built_body_front(b, more);
    }
    assert(next.subrange(0, dash_boundary_of(b).len() as int) =~= dash_boundary_of(b));
    assert(buf[n] == 0x0du8);
    assert forall|j: int| 0 <= j < n implies !#[trigger] body_candidate(buf, d, j) by {
        if occurs_at(buf, j, d) {
            if j + d.len() <= n {
                assert(data.subrange(j, j + d.len()) =~= buf.subrange(j, j + d.len()));
                assert(occurs_at(data, j, d));
            } else {
                let k = n - j;
                assert(buf.subrange(j, j + d.len())[k] == buf[n]);
                assert(d[k] == 0x0du8);
                if k >= 4 {
                    assert(d[k] == b[k - 4]);
                    assert(boundary_byte(b[k - 4]));
                }
            }
        }
    }
}

/// Where the parser finds the delimiter after a part's data, and what follows it.
pub(crate) proof fn lemma_body_delimiter_after_data(
    buf: Seq<u8>,
    b: Seq<u8>,
    data: Seq<u8>,
    x: Seq<u8>,
    s: DelimiterSuffix,
)
    requires
        valid_boundary(b),
        buf == data + (crlf_seq() + dash_boundary_of(b)) + x,
        buf.len() <= usize::MAX,
        forall|j: int|
            0 <= j < data.len() ==> !#[trigger] body_candidate(
                buf,
                crlf_seq() + dash_boundary_of(b),
                j,
            ),
        delimiter_suffix_of(buf, (data.len() + (crlf_seq() + dash_boundary_of(b)).len()) as int) == s,
        s != DelimiterSuffix::Invalid,
    ensures
        body_delimiter(buf, crlf_seq() + dash_boundary_of(b)) == Some(data.len() as int),
{
    let d = crlf_seq() + dash_boundary_of(b);
    let n = data.len() as int;
    assert(buf.subrange(n, n + d.len()) =~= d);
    assert(body_candidate(buf, d, n));
    lemma_body_delimiter_some(buf, d, n);
}

/// The parser reads a part's data up to the delimiter that the builder writes after it.
#[verifier::rlimit(100)]
#[verifier::spinoff_prover]
proof fn lemma_body_step(
    v: ParserView,
    b: Seq<u8>,
    data: Seq<u8>,
    more: Seq<(Seq<(Seq<u8>, Seq<u8>)>, Seq<u8>)>,
)
    requires
        parser_view_wf(v),
        plain_parsing(v),
        v.state == MultipartState::Body,
        valid_boundary(b),
        v.dash_boundary == dash_boundary_of(b),
        v.buffer == data + crlf_seq() + built_body(b, more),
        data_is_unbroken(b, data, built_body(b, more)),
    ensures
        step(v).1 == Ok::<bool, MultipartError>(true),
        step(v).0 == (if more.len() == 0 {
            ParserView {
                buffer: Seq::empty(),
                state: MultipartState::End,
                ..finish_part_view(v, data)
            }
        } else {
            ParserView {
                buffer: part_tail(b, more),
                state: MultipartState::Header,
                ..finish_part_view(v, data)
            }
        }),
{
    let buf = v.buffer;
    let d = v.delimiter;
    let db = dash_boundary_of(b);
    let n = data.len() as int;
    let x = if more.len() == 0 {
        seq![0x2du8, 0x2du8] + crlf_seq()
    } else {
        crlf_seq() + part_tail(b, more)
    };
    if more.len() > 0 {
        lemma_built_body_front(b, more);
    }
    assert(built_body(b, more) =~= db + x);
    assert(d == crlf_seq() + db);
    assert(buf =~= data + d + x);
    let after = n + d.len();
    assert(buf.skip(after) =~= x);
    let tail = buf.skip(after);
    let suffix = delimiter_suffix_of(buf, after);
    if more.len() == 0 {
        assert(suffix == DelimiterSuffix::Close);
    } else {
        assert(tail[0] == 0x0du8);
        assert(padding_len(tail) == 0);
        assert(tail.skip(0) =~= tail);
        assert(suffix == DelimiterSuffix::Open((after + 2) as usize));
        assert(buf.skip(after + 2) =~= part_tail(b, more));
    }
    assert(buf =~= data + crlf_seq() + built_body(b, more));
    lemma_body_delimiter_after_data(buf, b, data, x, suffix);
    assert(buf.subrange(0, n) =~= data);
    assert(step(v) == body_step(v));
}


/// The parser reads the first boundary line of a body written by the builder.
#[verifier::rlimit(100)]
#[verifier::spinoff_prover]
proof fn lemma_preamble_step(v: ParserView, b: Seq<u8>, x: Seq<u8>)
    requires
        parser_view_wf(v),
        v.state == MultipartState::Preamble,
        v.line_start == LineContext::Start,
        v.dash_boundary == dash_boundary_of(b),
        v.buffer == dash_boundary_of(b) + x,
        x == seq![0x2du8, 0x2du8] + crlf_seq() || (x.len() >= 2 && x[0] == 0x0du8 && x[1]
            == 0x0au8),
    ensures
        step(v).1 == Ok::<bool, MultipartError>(true),
        step(v).0 == (if x[0] == 0x2du8 {
            ParserView { buffer: Seq::empty(), state: MultipartState::End, ..v }
        } else {
            ParserView { buffer: x.skip(2), state: MultipartState::Header, ..v }
        }),
{
    let buf = v.buffer;
    let db = v.dash_boundary;
    assert(buf.subrange(0, db.len() as int) =~= db);
    let tail = buf.skip(db.len() as int);
    assert(tail =~= x);
    if x[0] != 0x2du8 {
        assert(x[0] == 0x0du8);
        assert(padding_len(tail) == 0);
        assert(tail.skip(0) =~= tail);
        assert(buf.skip(db.len() + 2int) =~= x.skip(2));
    }
    assert(is_first_preamble_candidate(buf, db, LineContext::Start, 0));
    lemma_preamble_delimiter_some(buf, db, LineContext::Start, 0);
    assert(step(v) == preamble_step(v));
}

/// The expected end state after the parts.
pub open spec fn after_parts(v: ParserView, parts: Seq<(Seq<(Seq<u8>, Seq<u8>)>, Seq<u8>)>) -> ParserView {
    ParserView {
        state: MultipartState::End,
        buffer: Seq::empty(),
        headers: Map::empty(),
        current_part: None,
        events: v.events + all_events(parts),
        parts: v.parts + expected_parts(parts, v.assemble),
        ..v
    }
}

/// The parser reads the parts, from the headers of the first one to the closing line.
#[verifier::rlimit(100)]
#[verifier::spinoff_prover]
proof fn lemma_parts_phase(
    v: ParserView,
    b: Seq<u8>,
    parts: Seq<(Seq<(Seq<u8>, Seq<u8>)>, Seq<u8>)>,
    f: nat,
)
    requires
        parser_view_wf(v),
        plain_parsing(v),
        v.state == MultipartState::Header,
        valid_boundary(b),
        v.dash_boundary == dash_boundary_of(b),
        parts.len() > 0,
        v.buffer == part_tail(b, parts),
        v.headers == Map::<Seq<char>, Seq<char>>::empty(),
        readable_parts(b, parts),
        f > v.buffer.len(),
    ensures
        run(v, f) == (after_parts(v, parts), Ok::<(), MultipartError>(())),
    decreases parts.len(),
{
    let p = parts[0];
    let hs = p.0;
    let data = p.1;
    let more = parts.drop_first();
    let bb = built_body(b, more);
    let rest = crlf_seq() + data + crlf_seq() + bb;
    assert(readable_headers(parts[0].0));
    assert(parts.skip(1) =~= more);
    assert(data_is_unbroken(b, data, bb));
    assert(v.buffer =~= render_headers(hs) + rest);
    lemma_header_phase(v, hs, rest, f);
    let w1 = ParserView {
        buffer: rest,
        headers: insert_headers(v.headers, hs),
        events: v.events + header_events(hs),
        ..v
    };
    let f1 = (f - hs.len()) as nat;
    assert(w1.headers == parsed_headers(hs));
    assert(w1.buffer =~= crlf_seq() + (data + crlf_seq() + bb));
    lemma_empty_line_step(w1, data + crlf_seq() + bb);
    lemma_run_step(w1, f1);
    let w2 = step(w1).0;
    let f2 = (f1 - 1) as nat;
    assert(w2.buffer =~= data + crlf_seq() + bb);
    lemma_body_step(w2, b, data, more);
    lemma_run_step(w2, f2);
    let w3 = step(w2).0;
    let f3 = (f2 - 1) as nat;
    assert(w3.events =~= v.events + part_events(p));
    assert(w3.parts =~= v.parts.push(expected_part(p, v.assemble)));
    assert(expected_parts(parts, v.assemble) =~= seq![expected_part(p, v.assemble)]
        + expected_parts(more, v.assemble));
    assert(all_events(parts) == part_events(p) + all_events(more));
    if more.len() == 0 {
        assert(all_events(more) =~= Seq::<MultipartPartView>::empty());
        assert(expected_parts(more, v.assemble) =~= Seq::<FormDataView>::empty());
        assert(run(w3, f3) == (w3, Ok::<(), MultipartError>(())));
        assert(w3 =~= after_parts(v, parts));
    } else {
        assert forall|i: int| 0 <= i < more.len() implies {
            &&& readable_headers(#[trigger] more[i].0)
            &&& data_is_unbroken(b, more[i].1, built_body(b, more.skip(i + 1)))
        } by {
            assert(more[i] == parts[i + 1]);
            assert(more.skip(i + 1) =~= parts.skip(i + 2));
            assert(readable_headers(parts[i + 1].0));
            assert(data_is_unbroken(b, parts[i + 1].1, built_body(b, parts.skip(i + 1 + 1))));
        }
        lemma_parts_phase(w3, b, more, f3);
        assert(after_parts(w3, more) =~= after_parts(v, parts));
    }
}

/// The parser reads back what the builder writes: fed the body of parts that it can read
/// (see `readable_parts`), a fresh parser, collecting body data into parts or not, ends the
/// message with every header as an event and each part's data as one completing chunk, and
/// holds the parts that the headers describe, with their data where it collects it.
pub proof fn lemma_parser_reads_built_body(
    b: Seq<u8>,
    parts: Seq<(Seq<(Seq<u8>, Seq<u8>)>, Seq<u8>)>,
    assemble: bool,
)
    requires
        valid_boundary(b),
        readable_parts(b, parts),
        built_body(b, parts).len() <= usize::MAX,
    ensures
        feed_spec(fresh_view(b, assemble), built_body(b, parts)) == (
            ParserView {
                state: MultipartState::End,
                buffer: Seq::empty(),
                size: built_body(b, parts).len() as int,
                events: all_events(parts),
                parts: expected_parts(parts, assemble),
                ..fresh_view(b, assemble)
            },
            Ok::<(), MultipartError>(()),
        ),
{
    let v = fresh_view(b, assemble);
    let body = built_body(b, parts);
    let u = ParserView { size: v.size + body.len(), buffer: v.buffer + body, ..v };
    assert(u.buffer =~= body);
    assert(parser_view_wf(u));
    let f = (u.buffer.len() + 1) as nat;
    let x = if parts.len() == 0 {
        seq![0x2du8, 0x2du8] + crlf_seq()
    } else {
        crlf_seq() + part_tail(b, parts)
    };
    if parts.len() > 0 {
        lemma_built_body_front(b, parts);
    }
    assert(u.buffer =~= dash_boundary_of(b) + x);
    lemma_preamble_step(u, b, x);
    lemma_run_step(u, f);
    let u1 = step(u).0;
    if parts.len() == 0 {
        assert(all_events(parts) =~= Seq::<MultipartPartView>::empty());
        assert(expected_parts(parts, assemble) =~= Seq::<FormDataView>::empty());
        assert(run(u1, (f - 1) as nat) == (u1, Ok::<(), MultipartError>(())));
    } else {
        assert(x.skip(2) =~= part_tail(b, parts));
        lemma_parts_phase(u1, b, parts, (f - 1) as nat);
        assert(after_parts(u1, parts) =~= ParserView {
            state: MultipartState::End,
            buffer: Seq::empty(),
            size: body.len() as int,
            events: all_events(parts),
            parts: expected_parts(parts, assemble),
            ..v
        });
    }
}


/// The body that a builder holds after adding the parts in order with `add_part`: each part
/// rendered after the ones before it.
pub open spec fn rendered_parts(b: Seq<u8>, parts: Seq<(Seq<(Seq<u8>, Seq<u8>)>, Seq<u8>)>) -> Seq<u8>
    decreases parts.len(),
{
    if parts.len() == 0 {
        Seq::empty()
    } else {
        rendered_parts(b, parts.drop_last()) + render_part(b, parts.last().0, parts.last().1)
    }
}

proof fn lemma_rendered_parts_front(b: Seq<u8>, parts: Seq<(Seq<(Seq<u8>, Seq<u8>)>, Seq<u8>)>)
    requires
        parts.len() > 0,
    ensures
        rendered_parts(b, parts) == render_part(b, parts[0].0, parts[0].1) + rendered_parts(
            b,
            parts.drop_first(),
        ),
    decreases parts.len(),
{
    if parts.len() == 1 {
        assert(parts.drop_last() =~= Seq::<(Seq<(Seq<u8>, Seq<u8>)>, Seq<u8>)>::empty());
        assert(parts.drop_first() =~= Seq::<(Seq<(Seq<u8>, Seq<u8>)>, Seq<u8>)>::empty());
        assert(rendered_parts(b, parts) =~= render_part(b, parts[0].0, parts[0].1)
            + rendered_parts(b, parts.drop_first()));
    } else {
        lemma_rendered_parts_front(b, parts.drop_last());
        assert(parts.drop_last().drop_first() =~= parts.drop_first().drop_last());
        assert(parts.drop_first().last() == parts.last());
        assert(parts.drop_last()[0] == parts[0]);
        assert(rendered_parts(b, parts) =~= render_part(b, parts[0].0, parts[0].1)
            + rendered_parts(b, parts.drop_first()));
    }
}

/// What `build` returns after the parts were added in order, starting from an empty body, is
/// the body that the parser reads back: the rendered parts and the closing line.
pub proof fn lemma_built_body_is_builder_output(
    b: Seq<u8>,
    parts: Seq<(Seq<(Seq<u8>, Seq<u8>)>, Seq<u8>)>,
)
    ensures
        built_body(b, parts) == rendered_parts(b, parts) + closing_of(b),
    decreases parts.len(),
{
    if parts.len() == 0 {
        assert(rendered_parts(b, parts) + closing_of(b) =~= closing_of(b));
    } else {
        lemma_rendered_parts_front(b, parts);
        lemma_built_body_is_builder_output(b, parts.drop_first());
        assert(built_body(b, parts) =~= rendered_parts(b, parts) + closing_of(b));
    }
}

proof fn lemma_boundary_char(x: u8)
    requires
        boundary_byte(x),
    ensures
        (x as char) != ';',
        (x as char) != '"',
        (x as char) != '\\',
        is_unicode_whitespace(x as char) ==> x == 0x20u8,
{
}

/// The media type that the builder announces parses back to `multipart/form-data` with the
/// builder's boundary as its one parameter, for every boundary the builder accepts.
pub proof fn lemma_content_type_round_trip(b: Seq<u8>)
    requires
        valid_boundary(b),
    ensures
        parse_options(content_type_of(b)) == Ok::<
            (Seq<char>, Map<Seq<char>, Seq<char>>),
            crate::headers::HeaderSyntaxError,
        >(("multipart/form-data"@, Map::<Seq<char>, Seq<char>>::empty().insert("boundary"@, ascii_text(b)))),
{
    reveal_strlit("multipart/form-data; boundary=\"");
    reveal_strlit("multipart/form-data; boundary=");
    reveal_strlit("\"");
    reveal_strlit("multipart/form-data");
    reveal_strlit("boundary");
    let bt = ascii_text(b);
    let quoted = b.contains(0x20u8);
    assert forall|k: int| 0 <= k < bt.len() implies #[trigger] bt[k] != ';' && bt[k] != '"'
        && bt[k] != '\\' && (is_unicode_whitespace(bt[k]) ==> b[k] == 0x20u8) by {
        lemma_boundary_char(b[k]);
    }
    let p = "multipart/form-data; boundary="@;
    let raw = if quoted {
        seq!['"'] + bt + seq!['"']
    } else {
        bt
    };
    let s = p + raw;
    assert(content_type_of(b) =~= s);
    let n = s.len() as int;
    assert(p.len() == 30);
    assert forall|k: int| 0 <= k < 30 implies #[trigger] s[k] != '"' && s[k] != '\\' && (s[k] == ';'
        <==> k == 19) by {
        assert(s[k] == p[k]);
    }
    lemma_quote_state_plain(s, 0, 19);
    lemma_quote_state_plain(s, 0, 30);
    if quoted {
        assert(quote_state(s, 31) == (true, false));
        assert forall|k: int| 31 <= k < 31 + bt.len() implies s[k] != '"' && s[k] != '\\' by {
            assert(s[k] == bt[k - 31]);
        }
        lemma_quote_state_plain(s, 31, 31 + bt.len() as int);
        assert(s[n - 1] == '"');
        assert(quote_state(s, n) == (false, false));
    } else {
        assert forall|k: int| 30 <= k < n implies s[k] != '"' && s[k] != '\\' by {
            assert(s[k] == bt[k - 30]);
        }
        lemma_quote_state_plain(s, 30, n);
    }
    assert forall|k: int| 0 <= k < 19 implies !#[trigger] is_separator(s, k) by {}
    assert forall|k: int| 20 <= k < n implies !#[trigger] is_separator(s, k) by {
        if k >= 30 {
            if quoted {
                if 31 <= k < 31 + bt.len() {
                    assert(s[k] == bt[k - 31]);
                }
            } else {
                assert(s[k] == bt[k - 30]);
            }
        }
    }
    assert(is_separator(s, 19));
    lemma_split_no_separator(s, 0, 19, 0);
    lemma_split_no_separator(s, 20, n, 20);
    let x = s.subrange(20, n);
    assert(split_segments(s, 0, 0) =~= seq![s.subrange(0, 19), x]);
    let segs = split_segments(s, 0, 0);
    assert(s.subrange(0, 19) =~= "multipart/form-data"@);
    lemma_trim_plain("multipart/form-data"@);
    assert(segs.drop_first() =~= seq![x]);
    assert(seq![x].drop_last() =~= Seq::<Seq<char>>::empty());
    assert(x[9] == '=');
    lemma_find_char_at(x, '=', 0, 9);
    let key = x.subrange(0, 9);
    assert(key.drop_first() =~= "boundary"@);
    assert(trim_start(key) == trim_start("boundary"@));
    lemma_trim_plain("boundary"@);
    assert(trim_start("boundary"@) == "boundary"@);
    assert(trim(key) == "boundary"@);
    assert(ascii_lower("boundary"@) =~= "boundary"@);
    assert(x.subrange(10, x.len() as int) =~= raw);
    if quoted {
        lemma_trim_plain(raw);
        assert(raw.subrange(1, raw.len() - 1) =~= bt);
        lemma_unescape_plain(bt);
    } else {
        assert(bt.len() > 0);
        assert(!is_unicode_whitespace(bt[0])) by {
            if is_unicode_whitespace(bt[0]) {
                assert(b.contains(0x20u8));
            }
        }
        assert(!is_unicode_whitespace(bt.last())) by {
            if is_unicode_whitespace(bt.last()) {
                assert(b[bt.len() - 1] == 0x20u8);
            }
        }
        lemma_trim_plain(raw);
    }
    assert(parameter_value(trim(x.subrange(10, x.len() as int))) == Ok::<
        Seq<char>,
        crate::headers::HeaderSyntaxError,
    >(bt));
    assert(parse_parameter(x) == Ok::<(Seq<char>, Seq<char>), crate::headers::HeaderSyntaxError>(
        ("boundary"@, bt),
    ));
    assert(parse_parameters(Seq::<Seq<char>>::empty()) == Ok::<
        Map<Seq<char>, Seq<char>>,
        crate::headers::HeaderSyntaxError,
    >(Map::<Seq<char>, Seq<char>>::empty()));
    assert(seq![x].last() == x);
    assert(parse_parameters(seq![x]) == Ok::<
        Map<Seq<char>, Seq<char>>,
        crate::headers::HeaderSyntaxError,
    >(Map::<Seq<char>, Seq<char>>::empty().insert("boundary"@, bt)));
    assert(!quote_state(s, n).0 && !quote_state(s, n).1);
    assert(segs[0] == s.subrange(0, 19));
    assert(trim(segs[0]) == "multipart/form-data"@);
}

} // verus!
