//! What the parser reads from any well-formed message: a preamble, parts of header lines and
//! data between delimiter lines, the closing delimiter and an epilogue.

use vstd::prelude::*;

use crate::builder::{boundary_byte, dash_boundary_of, valid_boundary};
use crate::bytes::{is_first_occurrence, occurs_at};
use crate::error::MultipartError;
use crate::form_data::{form_data_from_headers, with_data, FormDataView};
use crate::multipart::{
    body_candidate, body_step, crlf_seq, delimiter_suffix_of, feed_spec, header_from_line,
    header_step, initial_view, is_first_preamble_candidate, lemma_first_occurrence_some,
    lemma_preamble_delimiter_some, padding_len, parser_view_wf, preamble_candidate,
    preamble_step, run, starts_line, step, DelimiterSuffix, LineContext, MultipartPartView,
    MultipartState, ParserView,
};
use crate::round_trip::{
    fresh_view, lemma_body_delimiter_after_data, lemma_empty_line_step, lemma_run_step,
    plain_parsing,
};
use crate::chunking::{equivalent, lemma_feed_chunks};
use crate::text::ascii_lower;

verus! {

/// Header lines, each followed by a line break.
pub open spec fn header_block(lines: Seq<Seq<u8>>) -> Seq<u8>
    decreases lines.len(),
{
    if lines.len() == 0 {
        Seq::empty()
    } else {
        lines[0] + crlf_seq() + header_block(lines.drop_first())
    }
}

/// From the first delimiter line on: each part as a delimiter line, its header lines, an empty
/// line and its data, then the closing delimiter and the epilogue.
pub open spec fn message_body(
    b: Seq<u8>,
    parts: Seq<(Seq<Seq<u8>>, Seq<u8>)>,
    epilogue: Seq<u8>,
) -> Seq<u8>
    decreases parts.len(),
{
    if parts.len() == 0 {
        dash_boundary_of(b) + seq![0x2du8, 0x2du8] + epilogue
    } else {
        dash_boundary_of(b) + crlf_seq() + header_block(parts[0].0) + crlf_seq() + parts[0].1
            + crlf_seq() + message_body(b, parts.drop_first(), epilogue)
    }
}

/// A preamble that ends where a line starts and holds no dash boundary at a line start.
pub open spec fn plain_preamble(b: Seq<u8>, pre: Seq<u8>) -> bool {
    &&& pre.len() == 0 || (pre.len() >= 2 && pre[pre.len() - 2] == 0x0d && pre[pre.len() - 1]
        == 0x0a)
    &&& forall|j: int|
        starts_line(pre, j, LineContext::Start) ==> !#[trigger] occurs_at(
            pre,
            j,
            dash_boundary_of(b),
        )
}

/// A header line: not empty, without a line break, and one the parser accepts.
pub open spec fn header_line_ok(l: Seq<u8>) -> bool {
    &&& l.len() > 0
    &&& forall|j: int| 0 <= j < l.len() ==> !#[trigger] occurs_at(l + crlf_seq(), j, crlf_seq())
    &&& header_from_line(l) is Ok
}

/// The header map that the parser builds from header lines, keyed by lower-case name.
pub open spec fn line_headers(m: Map<Seq<char>, Seq<char>>, lines: Seq<Seq<u8>>) -> Map<
    Seq<char>,
    Seq<char>,
>
    decreases lines.len(),
{
    if lines.len() == 0 {
        m
    } else {
        let (name, value) = header_from_line(lines[0])->Ok_0;
        line_headers(m.insert(ascii_lower(name), value), lines.drop_first())
    }
}

/// The header events of header lines.
pub open spec fn line_events(lines: Seq<Seq<u8>>) -> Seq<MultipartPartView> {
    lines.map_values(
        |l: Seq<u8>|
            MultipartPartView::Header {
                name: (header_from_line(l)->Ok_0).0,
                value: (header_from_line(l)->Ok_0).1,
            },
    )
}

/// The events of the parts: each part's headers, then its data as one completing chunk.
pub open spec fn message_events(parts: Seq<(Seq<Seq<u8>>, Seq<u8>)>) -> Seq<MultipartPartView>
    decreases parts.len(),
{
    if parts.len() == 0 {
        Seq::empty()
    } else {
        line_events(parts[0].0).push(MultipartPartView::Body { data: parts[0].1, complete: true })
            + message_events(parts.drop_first())
    }
}

/// The form part that the parser reads for a part, with its data where it collects data.
pub open spec fn message_part(p: (Seq<Seq<u8>>, Seq<u8>), assemble: bool) -> FormDataView {
    let f = form_data_from_headers(line_headers(Map::empty(), p.0))->Ok_0;
    if assemble {
        with_data(f, p.1)
    } else {
        f
    }
}

/// Parts that the parser reads as written: readable header lines that describe a form part,
/// and data that holds no delimiter.
pub open spec fn well_formed_parts(b: Seq<u8>, parts: Seq<(Seq<Seq<u8>>, Seq<u8>)>) -> bool {
    forall|i: int|
        0 <= i < parts.len() ==> {
            &&& forall|k: int| 0 <= k < parts[i].0.len() ==> header_line_ok(#[trigger] parts[i].0[k])
            &&& form_data_from_headers(line_headers(Map::empty(), #[trigger] parts[i].0)) is Ok
            &&& forall|j: int| !#[trigger] occurs_at(parts[i].1, j, crlf_seq() + dash_boundary_of(b))
        }
}

/// What follows the first delimiter's dash boundary: a line break and the first part, or `--`
/// and the epilogue.
pub open spec fn message_tail(
    b: Seq<u8>,
    parts: Seq<(Seq<Seq<u8>>, Seq<u8>)>,
    epilogue: Seq<u8>,
) -> Seq<u8> {
    if parts.len() == 0 {
        seq![0x2du8, 0x2du8] + epilogue
    } else {
        crlf_seq() + part_rest(b, parts, epilogue)
    }
}

/// The first part's header lines, empty line, data and line break, and what follows them.
pub open spec fn part_rest(
    b: Seq<u8>,
    parts: Seq<(Seq<Seq<u8>>, Seq<u8>)>,
    epilogue: Seq<u8>,
) -> Seq<u8> {
    header_block(parts[0].0) + crlf_seq() + parts[0].1 + crlf_seq() + message_body(
        b,
        parts.drop_first(),
        epilogue,
    )
}

proof fn lemma_message_body_front(b: Seq<u8>, parts: Seq<(Seq<Seq<u8>>, Seq<u8>)>, epilogue: Seq<u8>)
    ensures
        message_body(b, parts, epilogue) == dash_boundary_of(b) + message_tail(b, parts, epilogue),
{
    assert(message_body(b, parts, epilogue) =~= dash_boundary_of(b) + message_tail(
        b,
        parts,
        epilogue,
    ));
}

/// The parser reads one header line.
proof fn lemma_line_step(v: ParserView, l: Seq<u8>, rest: Seq<u8>)
    requires
        parser_view_wf(v),
        plain_parsing(v),
        v.state == MultipartState::Header,
        v.buffer == l + crlf_seq() + rest,
        header_line_ok(l),
    ensures
        step(v) == (
            ParserView {
                buffer: rest,
                headers: v.headers.insert(
                    ascii_lower((header_from_line(l)->Ok_0).0),
                    (header_from_line(l)->Ok_0).1,
                ),
                events: v.events.push(
                    MultipartPartView::Header {
                        name: (header_from_line(l)->Ok_0).0,
                        value: (header_from_line(l)->Ok_0).1,
                    },
                ),
                ..v
            },
            Ok::<bool, MultipartError>(true),
        ),
{
    let n = l.len() as int;
    let buf = v.buffer;
    let lc = l + crlf_seq();
    assert(buf.subrange(n, n + 2) =~= crlf_seq());
    assert forall|j: int| 0 <= j < n implies !#[trigger] occurs_at(buf, j, crlf_seq()) by {
        assert(buf.subrange(j, j + 2) =~= lc.subrange(j, j + 2));
        assert(!occurs_at(lc, j, crlf_seq()));
    }
    assert(is_first_occurrence(buf, n, crlf_seq()));
    lemma_first_occurrence_some(buf, crlf_seq(), n);
    assert(buf.subrange(0, n) =~= l);
    assert(buf.skip(n + 2) =~= rest);
    assert(step(v) == header_step(v));
}

/// The parser reads all header lines of a part.
#[verifier::rlimit(100)]
#[verifier::spinoff_prover]
proof fn lemma_lines_phase(v: ParserView, lines: Seq<Seq<u8>>, rest: Seq<u8>, f: nat)
    requires
        parser_view_wf(v),
        plain_parsing(v),
        v.state == MultipartState::Header,
        v.buffer == header_block(lines) + rest,
        f > v.buffer.len(),
        forall|k: int| 0 <= k < lines.len() ==> header_line_ok(#[trigger] lines[k]),
    ensures
        ({
            let w = ParserView {
                buffer: rest,
                headers: line_headers(v.headers, lines),
                events: v.events + line_events(lines),
                ..v
            };
            &&& run(v, f) == run(w, (f - lines.len()) as nat)
            &&& f - lines.len() > rest.len()
            &&& parser_view_wf(w)
        }),
    decreases lines.len(),
{
    if lines.len() == 0 {
        assert(v.buffer =~= rest);
        assert(v.events + line_events(lines) =~= v.events);
        assert(v == (ParserView {
            buffer: rest,
            headers: line_headers(v.headers, lines),
            events: v.events + line_events(lines),
            ..v
        }));
    } else {
        let l = lines[0];
        let tail = lines.drop_first();
        assert(v.buffer =~= l + crlf_seq() + (header_block(tail) + rest));
        assert(header_line_ok(lines[0]));
        lemma_line_step(v, l, header_block(tail) + rest);
        lemma_run_step(v, f);
        let v1 = step(v).0;
        assert forall|k: int| 0 <= k < tail.len() implies header_line_ok(#[trigger] tail[k]) by {
            assert(tail[k] == lines[k + 1]);
        }
        lemma_lines_phase(v1, tail, rest, (f - 1) as nat);
        assert(line_events(lines) =~= seq![
            MultipartPartView::Header {
                name: (header_from_line(l)->Ok_0).0,
                value: (header_from_line(l)->Ok_0).1,
            },
        ] + line_events(tail));
        assert(v1.events + line_events(tail) =~= v.events + line_events(lines));
    }
}

/// No delimiter starts inside data that holds none, whatever starts with a dash boundary after
/// the line break that follows it.
proof fn lemma_data_unbroken(b: Seq<u8>, data: Seq<u8>, next: Seq<u8>, j: int)
    requires
        valid_boundary(b),
        forall|i: int| !#[trigger] occurs_at(data, i, crlf_seq() + dash_boundary_of(b)),
        next.len() >= dash_boundary_of(b).len(),
        next.subrange(0, dash_boundary_of(b).len() as int) == dash_boundary_of(b),
        0 <= j < data.len(),
    ensures
        !body_candidate(data + crlf_seq() + next, crlf_seq() + dash_boundary_of(b), j),
{
    let d = crlf_seq() + dash_boundary_of(b);
    let buf = data + crlf_seq() + next;
    let n = data.len() as int;
    assert(buf[n] == 0x0du8);
    if occurs_at(buf, j, d) {
        if j + d.len() <= n {
            assert(data.subrange(j, j + d.len()) =~= buf.subrange(j, j + d.len()));
            assert(occurs_at(data, j, d));
        } else {
            let k = n - j;
            assert(buf.subrange(j, j + d.len())[k] == buf[n]);
            assert(d[k] == 0x0du8);
            if k >= 4 {
                assert(d[k] == b[k - 4]);
                assert(boundary_byte(b[k - 4]));
            }
        }
    }
}

/// The parser reads a part's data up to the delimiter after it.
#[verifier::rlimit(100)]
#[verifier::spinoff_prover]
proof fn lemma_data_step(
    v: ParserView,
    b: Seq<u8>,
    data: Seq<u8>,
    more: Seq<(Seq<Seq<u8>>, Seq<u8>)>,
    epilogue: Seq<u8>,
)
    requires
        parser_view_wf(v),
        plain_parsing(v),
        v.state == MultipartState::Body,
        valid_boundary(b),
        v.dash_boundary == dash_boundary_of(b),
        v.buffer == data + crlf_seq() + message_body(b, more, epilogue),
        forall|i: int| !#[trigger] occurs_at(data, i, crlf_seq() + dash_boundary_of(b)),
    ensures
        step(v).1 == Ok::<bool, MultipartError>(true),
        step(v).0 == (if more.len() == 0 {
            ParserView {
                buffer: Seq::empty(),
                state: MultipartState::End,
                ..crate::multipart::finish_part_view(v, data)
            }
        } else {
            ParserView {
                buffer: part_rest(b, more, epilogue),
                state: MultipartState::Header,
                ..crate::multipart::finish_part_view(v, data)
            }
        }),
{
    let buf = v.buffer;
    let d = v.delimiter;
    let db = dash_boundary_of(b);
    let n = data.len() as int;
    let x = message_tail(b, more, epilogue);
    lemma_message_body_front(b, more, epilogue);
    let next = message_body(b, more, epilogue);
    assert(next.subrange(0, db.len() as int) =~= db);
    assert forall|j: int| 0 <= j < n implies !#[trigger] body_candidate(buf, d, j) by {
        lemma_data_unbroken(b, data, next, j);
    }
    assert(d == crlf_seq() + db);
    assert(buf =~= data + d + x);
    let after = n + d.len();
    assert(buf.skip(after) =~= x);
    let tail = buf.skip(after);
    let suffix = delimiter_suffix_of(buf, after);
    if more.len() == 0 {
        assert(suffix == DelimiterSuffix::Close);
    } else {
        assert(tail[0] == 0x0du8);
        assert(padding_len(tail) == 0);
        assert(tail.skip(0) =~= tail);
        assert(suffix == DelimiterSuffix::Open((after + 2) as usize));
        assert(buf.skip(after + 2) =~= part_rest(b, more, epilogue));
    }
    lemma_body_delimiter_after_data(buf, b, data, x, suffix);
    assert(buf.subrange(0, n) =~= data);
    assert(step(v) == body_step(v));
}

/// The parser skips the preamble and reads the first delimiter line.
#[verifier::rlimit(100)]
#[verifier::spinoff_prover]
proof fn lemma_preamble_skipped(
    v: ParserView,
    b: Seq<u8>,
    pre: Seq<u8>,
    parts: Seq<(Seq<Seq<u8>>, Seq<u8>)>,
    epilogue: Seq<u8>,
)
    requires
        parser_view_wf(v),
        v.state == MultipartState::Preamble,
        v.line_start == LineContext::Start,
        valid_boundary(b),
        v.dash_boundary == dash_boundary_of(b),
        plain_preamble(b, pre),
        v.buffer == pre + message_body(b, parts, epilogue),
    ensures
        step(v).1 == Ok::<bool, MultipartError>(true),
        step(v).0 == (if parts.len() == 0 {
            ParserView { buffer: Seq::empty(), state: MultipartState::End, ..v }
        } else {
            ParserView {
                buffer: part_rest(b, parts, epilogue),
                state: MultipartState::Header,
                ..v
            }
        }),
{
    let buf = v.buffer;
    let db = v.dash_boundary;
    let p = pre.len() as int;
    let x = message_tail(b, parts, epilogue);
    lemma_message_body_front(b, parts, epilogue);
    assert(buf =~= pre + db + x);
    assert(buf.subrange(p, p + db.len()) =~= db);
    let after = p + db.len();
    let tail = buf.skip(after);
    assert(tail =~= x);
    if parts.len() > 0 {
        assert(tail[0] == 0x0du8);
        assert(padding_len(tail) == 0);
        assert(tail.skip(0) =~= tail);
        assert(buf.skip(after + 2) =~= part_rest(b, parts, epilogue));
    }
    if p > 0 {
        assert(buf[p - 2] == pre[p - 2] && buf[p - 1] == pre[p - 1]);
    }
    assert(preamble_candidate(buf, db, LineContext::Start, p));
    assert(buf.subrange(0, p) =~= pre);
    assert forall|j: int| 0 <= j < p implies !#[trigger] preamble_candidate(
        buf,
        db,
        LineContext::Start,
        j,
    ) by {
        lemma_no_candidate_in_preamble(buf, b, pre, j);
    }
    assert(is_first_preamble_candidate(buf, db, LineContext::Start, p));
    lemma_preamble_delimiter_some(buf, db, LineContext::Start, p);
    assert(step(v) == preamble_step(v));
}

proof fn lemma_no_candidate_in_preamble(buf: Seq<u8>, b: Seq<u8>, pre: Seq<u8>, j: int)
    requires
        valid_boundary(b),
        plain_preamble(b, pre),
        buf.len() >= pre.len(),
        buf.subrange(0, pre.len() as int) == pre,
        0 <= j < pre.len(),
    ensures
        !preamble_candidate(buf, dash_boundary_of(b), LineContext::Start, j),
{
    let db = dash_boundary_of(b);
    let p = pre.len() as int;
    assert(buf[p - 1] == pre[p - 1]);
    if occurs_at(buf, j, db) && starts_line(buf, j, LineContext::Start) {
        if j + db.len() <= p {
            assert(pre.subrange(j, j + db.len()) =~= buf.subrange(j, j + db.len()));
            if j >= 2 {
                assert(pre[j - 2] == buf[j - 2] && pre[j - 1] == buf[j - 1]);
            }
            assert(starts_line(pre, j, LineContext::Start));
            assert(!occurs_at(pre, j, db));
        } else {
            let k = p - 1 - j;
            assert(buf.subrange(j, j + db.len())[k] == buf[p - 1]);
            assert(db[k] == 0x0au8);
            if k >= 2 {
                assert(db[k] == b[k - 2]);
                assert(boundary_byte(b[k - 2]));
            }
        }
    }
}

/// The form parts that the parser reads for the parts, in order.
pub open spec fn message_parts(parts: Seq<(Seq<Seq<u8>>, Seq<u8>)>, assemble: bool) -> Seq<
    FormDataView,
> {
    parts.map_values(|p: (Seq<Seq<u8>>, Seq<u8>)| message_part(p, assemble))
}

/// The state after the parts and the closing delimiter.
pub open spec fn after_message(v: ParserView, parts: Seq<(Seq<Seq<u8>>, Seq<u8>)>) -> ParserView {
    ParserView {
        state: MultipartState::End,
        buffer: Seq::empty(),
        headers: Map::empty(),
        current_part: None,
        events: v.events + message_events(parts),
        parts: v.parts + message_parts(parts, v.assemble),
        ..v
    }
}

/// The parser reads the parts, from the header lines of the first one to the closing line.
#[verifier::rlimit(100)]
#[verifier::spinoff_prover]
proof fn lemma_message_parts(
    v: ParserView,
    b: Seq<u8>,
    parts: Seq<(Seq<Seq<u8>>, Seq<u8>)>,
    epilogue: Seq<u8>,
    f: nat,
)
    requires
        parser_view_wf(v),
        plain_parsing(v),
        v.state == MultipartState::Header,
        valid_boundary(b),
        v.dash_boundary == dash_boundary_of(b),
        parts.len() > 0,
        v.buffer == part_rest(b, parts, epilogue),
        v.headers == Map::<Seq<char>, Seq<char>>::empty(),
        well_formed_parts(b, parts),
        f > v.buffer.len(),
    ensures
        run(v, f) == (after_message(v, parts), Ok::<(), MultipartError>(())),
    decreases parts.len(),
{
    let p = parts[0];
    let lines = p.0;
    let data = p.1;
    let more = parts.drop_first();
    let mb = message_body(b, more, epilogue);
    let rest = crlf_seq() + data + crlf_seq() + mb;
    assert(forall|k: int| 0 <= k < parts[0].0.len() ==> header_line_ok(#[trigger] parts[0].0[k]));
    assert(form_data_from_headers(line_headers(Map::empty(), parts[0].0)) is Ok);
    assert(forall|j: int| !#[trigger] occurs_at(parts[0].1, j, crlf_seq() + dash_boundary_of(b)));
    assert(v.buffer =~= header_block(lines) + rest);
    lemma_lines_phase(v, lines, rest, f);
    let w1 = ParserView {
        buffer: rest,
        headers: line_headers(v.headers, lines),
        events: v.events + line_events(lines),
        ..v
    };
    let f1 = (f - lines.len()) as nat;
    assert(w1.buffer =~= crlf_seq() + (data + crlf_seq() + mb));
    lemma_empty_line_step(w1, data + crlf_seq() + mb);
    lemma_run_step(w1, f1);
    let w2 = step(w1).0;
    let f2 = (f1 - 1) as nat;
    assert(w2.buffer =~= data + crlf_seq() + mb);
    lemma_data_step(w2, b, data, more, epilogue);
    lemma_run_step(w2, f2);
    let w3 = step(w2).0;
    let f3 = (f2 - 1) as nat;
    assert(w3.events =~= v.events + line_events(lines).push(
        MultipartPartView::Body { data, complete: true },
    ));
    assert(w3.parts =~= v.parts.push(message_part(p, v.assemble)));
    assert(message_parts(parts, v.assemble) =~= seq![message_part(p, v.assemble)] + message_parts(
        more,
        v.assemble,
    ));
    assert(message_events(parts) == line_events(lines).push(
        MultipartPartView::Body { data, complete: true },
    ) + message_events(more));
    if more.len() == 0 {
        assert(message_events(more) =~= Seq::<MultipartPartView>::empty());
        assert(message_parts(more, v.assemble) =~= Seq::<FormDataView>::empty());
        assert(run(w3, f3) == (w3, Ok::<(), MultipartError>(())));
        assert(w3 =~= after_message(v, parts));
    } else {
        assert(well_formed_parts(b, more)) by {
            assert forall|i: int| 0 <= i < more.len() implies {
                &&& forall|k: int|
                    0 <= k < more[i].0.len() ==> header_line_ok(#[trigger] more[i].0[k])
                &&& form_data_from_headers(line_headers(Map::empty(), #[trigger] more[i].0)) is Ok
                &&& forall|j: int|
                    !#[trigger] occurs_at(more[i].1, j, crlf_seq() + dash_boundary_of(b))
            } by {
                assert(more[i] == parts[i + 1]);
            }
        }
        lemma_message_parts(w3, b, more, epilogue, f3);
        assert(after_message(w3, more) =~= after_message(v, parts));
    }
}

/// The parser reads any well-formed message: fed a preamble that holds no dash boundary at a
/// line start and ends where a line starts, then parts of readable header lines and of data
/// without the delimiter, each after a delimiter line, then the closing delimiter and any
/// epilogue, a fresh parser ends the message with every header line as an event and each
/// part's data as one completing chunk, and holds the parts that the headers describe, with
/// their data where it collects data.
pub proof fn lemma_parser_reads_message(
    b: Seq<u8>,
    pre: Seq<u8>,
    parts: Seq<(Seq<Seq<u8>>, Seq<u8>)>,
    epilogue: Seq<u8>,
    assemble: bool,
)
    requires
        valid_boundary(b),
        plain_preamble(b, pre),
        well_formed_parts(b, parts),
        pre.len() + message_body(b, parts, epilogue).len() <= usize::MAX,
    ensures
        feed_spec(fresh_view(b, assemble), pre + message_body(b, parts, epilogue)) == (
            ParserView {
                state: MultipartState::End,
                buffer: Seq::empty(),
                size: (pre.len() + message_body(b, parts, epilogue).len()) as int,
                events: message_events(parts),
                parts: message_parts(parts, assemble),
                ..fresh_view(b, assemble)
            },
            Ok::<(), MultipartError>(()),
        ),
{
    let v = fresh_view(b, assemble);
    let m = pre + message_body(b, parts, epilogue);
    let u = ParserView { size: v.size + m.len(), buffer: v.buffer + m, ..v };
    assert(u.buffer =~= m);
    assert(parser_view_wf(u));
    let f = (u.buffer.len() + 1) as nat;
    lemma_preamble_skipped(u, b, pre, parts, epilogue);
    lemma_run_step(u, f);
    let u1 = step(u).0;
    if parts.len() == 0 {
        assert(message_events(parts) =~= Seq::<MultipartPartView>::empty());
        assert(message_parts(parts, assemble) =~= Seq::<FormDataView>::empty());
        assert(run(u1, (f - 1) as nat) == (u1, Ok::<(), MultipartError>(())));
    } else {
        lemma_message_parts(u1, b, parts, epilogue, (f - 1) as nat);
        assert(after_message(u1, parts) =~= ParserView {
            state: MultipartState::End,
            buffer: Seq::empty(),
            size: m.len() as int,
            events: message_events(parts),
            parts: message_parts(parts, assemble),
            ..v
        });
    }
}

/// The same message fed in two chunks: both feeds succeed, and the parser ends as feeding it at
/// once does, but for how body data is cut into events (and the count of bytes, which feeding at
/// once still takes for the epilogue).
pub proof fn lemma_parser_reads_message_in_chunks(
    b: Seq<u8>,
    pre: Seq<u8>,
    parts: Seq<(Seq<Seq<u8>>, Seq<u8>)>,
    epilogue: Seq<u8>,
    assemble: bool,
    first: Seq<u8>,
    second: Seq<u8>,
)
    requires
        valid_boundary(b),
        plain_preamble(b, pre),
        well_formed_parts(b, parts),
        pre.len() + message_body(b, parts, epilogue).len() <= usize::MAX,
        first + second == pre + message_body(b, parts, epilogue),
        feed_spec(fresh_view(b, assemble), first).1 is Ok,
    ensures
        feed_spec(feed_spec(fresh_view(b, assemble), first).0, second).1 is Ok,
        equivalent(
            feed_spec(fresh_view(b, assemble), pre + message_body(b, parts, epilogue)).0,
            feed_spec(feed_spec(fresh_view(b, assemble), first).0, second).0,
        ),
{
    lemma_parser_reads_message(b, pre, parts, epilogue, assemble);
    let v = fresh_view(b, assemble);
    assert(parser_view_wf(v));
    lemma_feed_chunks(v, first, second);
}

} // verus!
