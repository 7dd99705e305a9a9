//! Feeding the parser in chunks: how the input is split between calls of `feed` changes only how
//! body data is cut into events; and between feeds the parser holds no more than a delimiter
//! line or a header line of the input.

use vstd::prelude::*;

use crate::bytes::{is_first_occurrence, occurs_at};
use crate::error::MultipartError;
use crate::form_data::with_data;
use crate::multipart::{
    append_body_view, body_candidate, body_delimiter, body_step, crlf_seq, delimiter_suffix_of,
    feed_spec, finish_part_view, first_occurrence, header_step, is_first_body_candidate,
    is_first_preamble_candidate, is_linear_whitespace, lemma_body_delimiter_some,
    lemma_first_occurrence_some, lemma_open_suffix_bound, lemma_preamble_delimiter_some,
    lemma_run, lemma_step_progress, lemma_step_relation, lemma_step_wf, padding_len,
    parser_view_wf, preamble_candidate, preamble_cut, received, lemma_feed, starts_line, preamble_delimiter, preamble_step, run, step,
    DelimiterSuffix, LineContext, MultipartPartView, MultipartState, ParserView, context_at,
    close_marker, lemma_step_reaches_end,
};

verus! {

/// An event taken apart: a header, one byte of body data, or the end of a part's data.
pub enum EventUnit {
    Header(Seq<char>, Seq<char>),
    Byte(u8),
    Complete,
}

/// The units of one event.
pub open spec fn event_units(e: MultipartPartView) -> Seq<EventUnit> {
    match e {
        MultipartPartView::Header { name, value } => seq![EventUnit::Header(name, value)],
        MultipartPartView::Body { data, complete } => data.map_values(|b: u8| EventUnit::Byte(b))
            + if complete {
            seq![EventUnit::Complete]
        } else {
            Seq::empty()
        },
    }
}

/// The units of a sequence of events: what the events report, whatever the chunks of body data.
pub open spec fn flatten_events(es: Seq<MultipartPartView>) -> Seq<EventUnit>
    decreases es.len(),
{
    if es.len() == 0 {
        Seq::empty()
    } else {
        flatten_events(es.drop_last()) + event_units(es.last())
    }
}

/// Two parser states that differ at most in how body data is cut into events and in the count
/// of bytes fed.
pub open spec fn equivalent(x: ParserView, y: ParserView) -> bool {
    &&& ParserView { events: Seq::empty(), size: 0, ..x } == ParserView {
        events: Seq::empty(),
        size: 0,
        ..y
    }
    &&& flatten_events(x.events) == flatten_events(y.events)
}

proof fn lemma_flatten_concat(a: Seq<MultipartPartView>, b: Seq<MultipartPartView>)
    ensures
        flatten_events(a + b) == flatten_events(a) + flatten_events(b),
    decreases b.len(),
{
    if b.len() == 0 {
        assert(a + b =~= a);
        assert(flatten_events(a) + flatten_events(b) =~= flatten_events(a));
    } else {
        lemma_flatten_concat(a, b.drop_last());
        assert((a + b).drop_last() =~= a + b.drop_last());
        assert((a + b).last() == b.last());
        assert(flatten_events(a + b) =~= flatten_events(a) + flatten_events(b));
    }
}

/// A run with more fuel than input bytes gives the same result whatever the fuel.
proof fn lemma_run_fuel(v: ParserView, f1: nat, f2: nat)
    requires
        parser_view_wf(v),
        f1 > v.buffer.len(),
        f2 > v.buffer.len(),
    ensures
        run(v, f1) == run(v, f2),
    decreases f1,
{
    let (w, r) = step(v);
    if r == Ok::<bool, MultipartError>(true) {
        lemma_step_progress(v);
        lemma_step_wf(v);
        lemma_run_fuel(w, (f1 - 1) as nat, (f2 - 1) as nat);
    }
}


/// `v` with the events `es` in place of its own.
pub open spec fn with_events(v: ParserView, es: Seq<MultipartPartView>) -> ParserView {
    ParserView { events: es, ..v }
}

/// The events that `w` holds beyond those of `v`.
pub open spec fn new_events(v: ParserView, w: ParserView) -> Seq<MultipartPartView> {
    w.events.skip(v.events.len() as int)
}

proof fn lemma_append_body_events(v: ParserView, es: Seq<MultipartPartView>, data: Seq<u8>, c: bool)
    ensures
        append_body_view(with_events(v, es), data, c) == with_events(
            append_body_view(v, data, c),
            es + new_events(v, append_body_view(v, data, c)),
        ),
{
    let w = append_body_view(v, data, c);
    if data.len() > 0 || c {
        assert(new_events(v, w) =~= seq![MultipartPartView::Body { data, complete: c }]);
        assert(es.push(MultipartPartView::Body { data, complete: c }) =~= es + new_events(v, w));
    } else {
        assert(new_events(v, w) =~= Seq::<MultipartPartView>::empty());
        assert(es =~= es + new_events(v, w));
    }
    assert(append_body_view(with_events(v, es), data, c) =~= with_events(w, es + new_events(v, w)));
}

proof fn lemma_finish_part_events(v: ParserView, es: Seq<MultipartPartView>, data: Seq<u8>)
    ensures
        finish_part_view(with_events(v, es), data) == with_events(
            finish_part_view(v, data),
            es + new_events(v, finish_part_view(v, data)),
        ),
{
    lemma_append_body_events(v, es, data, true);
    let a = append_body_view(v, data, true);
    assert(finish_part_view(v, data).events == a.events);
    assert(finish_part_view(with_events(v, es), data) =~= with_events(
        finish_part_view(v, data),
        es + new_events(v, finish_part_view(v, data)),
    ));
}

/// A step does not read the events: with other events it does the same, appending the same
/// new events.
#[verifier::rlimit(100)]
#[verifier::spinoff_prover]
pub proof fn lemma_step_events(v: ParserView, es: Seq<MultipartPartView>)
    requires
        parser_view_wf(v),
    ensures
        step(with_events(v, es)).1 == step(v).1,
        step(with_events(v, es)).0 == with_events(step(v).0, es + new_events(v, step(v).0)),
{
    let w = step(v).0;
    let u = with_events(v, es);
    lemma_step_relation(v);
    match v.state {
        MultipartState::Preamble => {
            assert(step(u) == preamble_step(u));
            assert(new_events(v, w) =~= Seq::<MultipartPartView>::empty());
            assert(es + new_events(v, w) =~= es);
            assert(step(u).0 =~= with_events(w, es + new_events(v, w)));
        },
        MultipartState::Header => {
            assert(step(u) == header_step(u));
            assert(step(v) == header_step(v));
            if w.events.len() == v.events.len() {
                assert(new_events(v, w) =~= Seq::<MultipartPartView>::empty());
                assert(es + new_events(v, w) =~= es);
            } else {
                assert(new_events(v, w) =~= seq![w.events.last()]);
                assert(es + new_events(v, w) =~= es.push(w.events.last()));
            }
            assert(step(u).0 =~= with_events(w, es + new_events(v, w)));
        },
        MultipartState::Body => {
            assert(step(u) == body_step(u));
            assert(step(v) == body_step(v));
            let buf = v.buffer;
            assert forall|d: Seq<u8>, c: bool| true implies append_body_view(u, d, c)
                == with_events(append_body_view(v, d, c), es + new_events(v, append_body_view(v, d, c))) by {
                lemma_append_body_events(v, es, d, c);
            }
            assert forall|d: Seq<u8>| true implies finish_part_view(u, d)
                == with_events(finish_part_view(v, d), es + new_events(v, finish_part_view(v, d))) by {
                lemma_finish_part_events(v, es, d);
            }
            assert(step(u).0 =~= with_events(w, es + new_events(v, w)));
        },
        MultipartState::End => {
            assert(new_events(v, w) =~= Seq::<MultipartPartView>::empty());
            assert(es + new_events(v, w) =~= es);
        },
    }
}


/// A run does not read the events either.
pub proof fn lemma_run_events(v: ParserView, es: Seq<MultipartPartView>, f: nat)
    requires
        parser_view_wf(v),
    ensures
        run(with_events(v, es), f).1 == run(v, f).1,
        run(with_events(v, es), f).0 == with_events(run(v, f).0, es + new_events(v, run(v, f).0)),
    decreases f,
{
    lemma_run(v, f);
    if f == 0 {
        assert(new_events(v, v) =~= Seq::<MultipartPartView>::empty());
        assert(es + new_events(v, v) =~= es);
        assert(with_events(v, es) =~= with_events(run(v, f).0, es + new_events(v, run(v, f).0)));
    } else {
        lemma_step_events(v, es);
        lemma_step_relation(v);
        let w = step(v).0;
        if step(v).1 == Ok::<bool, MultipartError>(true) {
            lemma_step_wf(v);
            lemma_run_events(w, es + new_events(v, w), (f - 1) as nat);
            lemma_run(w, (f - 1) as nat);
            let r = run(w, (f - 1) as nat).0;
            assert(r.events.subrange(0, w.events.len() as int) == w.events);
            assert(w.events.subrange(0, v.events.len() as int) == v.events);
            assert(new_events(v, r) =~= new_events(v, w) + new_events(w, r));
            assert(es + new_events(v, w) + new_events(w, r) =~= es + new_events(v, r));
        }
    }
}

/// States that differ only in their events run alike, and stay so.
pub proof fn lemma_equivalent_run(x: ParserView, y: ParserView, f: nat)
    requires
        parser_view_wf(x),
        y == with_events(x, y.events),
        flatten_events(x.events) == flatten_events(y.events),
    ensures
        run(y, f).1 == run(x, f).1,
        run(y, f).0 == with_events(run(x, f).0, run(y, f).0.events),
        flatten_events(run(x, f).0.events) == flatten_events(run(y, f).0.events),
{
    lemma_run_events(x, y.events, f);
    lemma_run(x, f);
    let r = run(x, f).0;
    assert(r.events =~= x.events + new_events(x, r)) by {
        assert(r.events.subrange(0, x.events.len() as int) == x.events);
    }
    lemma_flatten_concat(x.events, new_events(x, r));
    lemma_flatten_concat(y.events, new_events(x, r));
    assert(with_events(r, y.events + new_events(x, r)) =~= with_events(r, run(y, f).0.events));
}


/// `v` with `b` fed: appended to the buffer and counted.
pub open spec fn extend(v: ParserView, b: Seq<u8>) -> ParserView {
    ParserView { buffer: v.buffer + b, size: v.size + b.len(), ..v }
}

/// What a step that makes progress gives when `b` was fed before it: the same state with `b`
/// still buffered, or, where the step ends the message, the same state with `b` counted and
/// dropped.
pub open spec fn extend_result(w: ParserView, b: Seq<u8>) -> ParserView {
    if w.state == MultipartState::End {
        ParserView { size: w.size + b.len(), ..w }
    } else {
        extend(w, b)
    }
}

proof fn lemma_padding_extend(t: Seq<u8>, b: Seq<u8>)
    requires
        padding_len(t) < t.len(),
    ensures
        padding_len(t + b) == padding_len(t),
    decreases t.len(),
{
    if t.len() > 0 && is_linear_whitespace(t[0]) {
        assert((t + b).drop_first() =~= t.drop_first() + b);
        lemma_padding_extend(t.drop_first(), b);
    }
    assert((t + b)[0] == t[0]);
}

/// What follows a boundary is told for good once it is not `Incomplete`.
pub proof fn lemma_suffix_extend(buf: Seq<u8>, after: int, b: Seq<u8>)
    requires
        0 <= after <= buf.len(),
        delimiter_suffix_of(buf, after) != DelimiterSuffix::Incomplete,
    ensures
        delimiter_suffix_of(buf + b, after) == delimiter_suffix_of(buf, after),
{
    let tail = buf.skip(after);
    let tail2 = (buf + b).skip(after);
    assert(tail2 =~= tail + b);
    assert(tail.len() > 0);
    assert(tail2[0] == tail[0]);
    if tail.len() >= 2 {
        assert(tail2[1] == tail[1]);
    }
    if tail[0] != 0x2du8 {
        let p = padding_len(tail);
        if p >= tail.len() {
            lemma_padding_bound(tail);
            assert(tail.skip(p as int).len() == 0);
        }
        lemma_padding_extend(tail, b);
        let le = tail.skip(p as int);
        let le2 = tail2.skip(p as int);
        assert(le2 =~= le + b);
        assert(le2[0] == le[0]);
        if le.len() >= 2 {
            assert(le2[1] == le[1]);
        }
    }
}

proof fn lemma_open_bound(buf: Seq<u8>, after: int)
    requires
        0 <= after <= buf.len(),
        buf.len() <= usize::MAX,
    ensures
        delimiter_suffix_of(buf, after) matches DelimiterSuffix::Open(c) ==> after + 2 <= c
            <= buf.len(),
{
    lemma_open_suffix_bound(buf, after);
}

proof fn lemma_padding_bound(s: Seq<u8>)
    ensures
        padding_len(s) <= s.len(),
    decreases s.len(),
{
    if s.len() > 0 && is_linear_whitespace(s[0]) {
        lemma_padding_bound(s.drop_first());
    }
}


/// Feeding more data first does not change a header step that makes progress.
#[verifier::rlimit(100)]
#[verifier::spinoff_prover]
proof fn lemma_header_step_extend(v: ParserView, b: Seq<u8>)
    requires
        parser_view_wf(v),
        v.state == MultipartState::Header,
        step(v).1 == Ok::<bool, MultipartError>(true),
    ensures
        step(extend(v, b)).1 == Ok::<bool, MultipartError>(true),
        step(extend(v, b)).0 == extend_result(step(v).0, b),
{
    let buf = v.buffer;
    let ebuf = buf + b;
    let x = extend(v, b);
    assert(step(v) == header_step(v));
    assert(step(x) == header_step(x));
    reveal(first_occurrence);
    let i = first_occurrence(buf, crlf_seq()).unwrap();
    assert(is_first_occurrence(buf, i, crlf_seq()));
    assert(ebuf.subrange(i, i + 2) =~= buf.subrange(i, i + 2));
    assert forall|j: int| 0 <= j < i implies !#[trigger] occurs_at(ebuf, j, crlf_seq()) by {
        assert(ebuf.subrange(j, j + 2) =~= buf.subrange(j, j + 2));
        assert(!occurs_at(buf, j, crlf_seq()));
    }
    assert(is_first_occurrence(ebuf, i, crlf_seq()));
    lemma_first_occurrence_some(ebuf, crlf_seq(), i);
    assert(ebuf.subrange(0, i) =~= buf.subrange(0, i));
    assert(ebuf.skip(i + 2) =~= buf.skip(i + 2) + b);
    assert(step(x).0 =~= extend_result(step(v).0, b));
}

/// Feeding more data first does not change a body step that makes progress.
#[verifier::rlimit(100)]
#[verifier::spinoff_prover]
proof fn lemma_body_step_extend(v: ParserView, b: Seq<u8>)
    requires
        parser_view_wf(v),
        v.state == MultipartState::Body,
        step(v).1 == Ok::<bool, MultipartError>(true),
    ensures
        step(extend(v, b)).1 == Ok::<bool, MultipartError>(true),
        step(extend(v, b)).0 == extend_result(step(v).0, b),
{
    let buf = v.buffer;
    let ebuf = buf + b;
    let d = v.delimiter;
    let x = extend(v, b);
    assert(step(v) == body_step(v));
    assert(step(x) == body_step(x));
    reveal(body_delimiter);
    let i = body_delimiter(buf, d).unwrap();
    assert(is_first_body_candidate(buf, d, i));
    let sfx = delimiter_suffix_of(buf, i + d.len());
    assert(sfx != DelimiterSuffix::Incomplete);
    lemma_suffix_extend(buf, i + d.len(), b);
    assert(ebuf.subrange(i, i + d.len()) =~= buf.subrange(i, i + d.len()));
    assert(body_candidate(ebuf, d, i));
    assert forall|j: int| 0 <= j < i implies !#[trigger] body_candidate(ebuf, d, j) by {
        assert(ebuf.subrange(j, j + d.len()) =~= buf.subrange(j, j + d.len()));
        assert(!body_candidate(buf, d, j));
        if occurs_at(buf, j, d) {
            lemma_suffix_extend(buf, j + d.len(), b);
        }
    }
    assert(is_first_body_candidate(ebuf, d, i));
    lemma_body_delimiter_some(ebuf, d, i);
    assert(ebuf.subrange(0, i) =~= buf.subrange(0, i));
    if let DelimiterSuffix::Open(c) = sfx {
        lemma_open_bound(buf, i + d.len());
        assert(ebuf.skip(c as int) =~= buf.skip(c as int) + b);
    }
    assert(step(x).0 =~= extend_result(step(v).0, b));
}


/// Feeding more data first does not change a preamble step that makes progress.
#[verifier::rlimit(100)]
#[verifier::spinoff_prover]
proof fn lemma_preamble_step_extend(v: ParserView, b: Seq<u8>)
    requires
        parser_view_wf(v),
        v.state == MultipartState::Preamble,
        step(v).1 == Ok::<bool, MultipartError>(true),
    ensures
        step(extend(v, b)).1 == Ok::<bool, MultipartError>(true),
        step(extend(v, b)).0 == extend_result(step(v).0, b),
{
    let buf = v.buffer;
    let ebuf = buf + b;
    let db = v.dash_boundary;
    let first = v.line_start;
    let x = extend(v, b);
    assert(step(v) == preamble_step(v));
    assert(step(x) == preamble_step(x));
    reveal(preamble_delimiter);
    let i = preamble_delimiter(buf, db, first).unwrap();
    assert(is_first_preamble_candidate(buf, db, first, i));
    let sfx = delimiter_suffix_of(buf, i + db.len());
    assert(sfx != DelimiterSuffix::Incomplete);
    lemma_suffix_extend(buf, i + db.len(), b);
    assert(ebuf.subrange(i, i + db.len()) =~= buf.subrange(i, i + db.len()));
    if i >= 2 {
        assert(ebuf[i - 2] == buf[i - 2] && ebuf[i - 1] == buf[i - 1]);
    }
    assert(preamble_candidate(ebuf, db, first, i));
    assert forall|j: int| 0 <= j < i implies !#[trigger] preamble_candidate(ebuf, db, first, j) by {
        assert(ebuf.subrange(j, j + db.len()) =~= buf.subrange(j, j + db.len()));
        if j >= 2 {
            assert(ebuf[j - 2] == buf[j - 2] && ebuf[j - 1] == buf[j - 1]);
        }
        assert(!preamble_candidate(buf, db, first, j));
        if occurs_at(buf, j, db) && starts_line(buf, j, first) {
            lemma_suffix_extend(buf, j + db.len(), b);
        }
    }
    assert(is_first_preamble_candidate(ebuf, db, first, i));
    lemma_preamble_delimiter_some(ebuf, db, first, i);
    if let DelimiterSuffix::Open(c) = sfx {
        lemma_open_bound(buf, i + db.len());
        assert(ebuf.skip(c as int) =~= buf.skip(c as int) + b);
    }
    assert(step(x).0 =~= extend_result(step(v).0, b));
}

/// `x` with the first `k` bytes of its buffer moved into the current part, as a body step that
/// makes no progress moves them.
pub open spec fn moved(x: ParserView, k: int) -> ParserView {
    ParserView {
        buffer: x.buffer.skip(k),
        ..append_body_view(x, x.buffer.subrange(0, k), false)
    }
}

proof fn lemma_candidate_shift(c: Seq<u8>, d: Seq<u8>, k: int, j: int)
    requires
        0 <= k <= c.len(),
        0 <= j,
    ensures
        body_candidate(c.skip(k), d, j) == body_candidate(c, d, j + k),
        occurs_at(c.skip(k), j, d) == occurs_at(c, j + k, d),
{
    if j + d.len() <= c.len() - k {
        assert(c.skip(k).subrange(j, j + d.len()) =~= c.subrange(j + k, j + k + d.len()));
    }
    if j + d.len() <= c.len() - k {
        assert(c.skip(k).skip(j + d.len()) =~= c.skip(j + k + d.len()));
        let t1 = c.skip(k).skip(j + d.len());
        let t2 = c.skip(j + k + d.len());
        assert(t1 == t2);
        assert((delimiter_suffix_of(c.skip(k), j + d.len()) == DelimiterSuffix::Invalid) == (
        delimiter_suffix_of(c, j + k + d.len()) == DelimiterSuffix::Invalid));
    }
}

proof fn lemma_flatten_body_split(es: Seq<MultipartPartView>, p: Seq<u8>, q: Seq<u8>, c: bool)
    ensures
        flatten_events(
            es.push(MultipartPartView::Body { data: p + q, complete: c }),
        ) == flatten_events(
            (if p.len() > 0 {
                es.push(MultipartPartView::Body { data: p, complete: false })
            } else {
                es
            }).push(MultipartPartView::Body { data: q, complete: c }),
        ),
{
    let e1 = es.push(MultipartPartView::Body { data: p + q, complete: c });
    let mid = if p.len() > 0 {
        es.push(MultipartPartView::Body { data: p, complete: false })
    } else {
        es
    };
    let e2 = mid.push(MultipartPartView::Body { data: q, complete: c });
    let tail: Seq<EventUnit> = if c {
        seq![EventUnit::Complete]
    } else {
        Seq::empty()
    };
    let pu = p.map_values(|b: u8| EventUnit::Byte(b));
    let qu = q.map_values(|b: u8| EventUnit::Byte(b));
    assert(e1.drop_last() =~= es);
    assert(e2.drop_last() =~= mid);
    assert(flatten_events(e1) == flatten_events(es) + event_units(e1.last()));
    assert(flatten_events(e2) == flatten_events(mid) + event_units(e2.last()));
    assert(event_units(e1.last()) == (p + q).map_values(|b: u8| EventUnit::Byte(b)) + tail);
    assert(event_units(e2.last()) == qu + tail);
    assert((p + q).map_values(|b: u8| EventUnit::Byte(b)) =~= pu + qu);
    if p.len() > 0 {
        assert(mid.drop_last() =~= es);
        assert(flatten_events(mid) == flatten_events(es) + event_units(mid.last()));
        assert(event_units(mid.last()) =~= pu + Seq::<EventUnit>::empty());
        assert(flatten_events(mid) =~= flatten_events(es) + pu);
    } else {
        assert(pu =~= Seq::<EventUnit>::empty());
        assert(flatten_events(mid) =~= flatten_events(es) + pu);
    }
    assert(flatten_events(e1) =~= flatten_events(es) + pu + qu + tail);
    assert(flatten_events(e2) =~= flatten_events(es) + pu + qu + tail);
}

/// A delimiter suffix told in a buffer whose first `k` bytes were dropped.
pub open spec fn shifted_suffix(s: DelimiterSuffix, k: int) -> DelimiterSuffix {
    match s {
        DelimiterSuffix::Open(c) => DelimiterSuffix::Open((c - k) as usize),
        _ => s,
    }
}

proof fn lemma_suffix_shift(c: Seq<u8>, k: int, j: int)
    requires
        0 <= k <= c.len(),
        0 <= j <= c.len() - k,
        c.len() <= usize::MAX,
    ensures
        delimiter_suffix_of(c.skip(k), j) == shifted_suffix(delimiter_suffix_of(c, j + k), k),
{
    let t = c.skip(j + k);
    assert(c.skip(k).skip(j) =~= t);
    lemma_padding_bound(t);
    let p = padding_len(t);
    if t.len() > 0 && t[0] != 0x2du8 && t.skip(p as int).len() >= 2 {
        assert(j + k + p + 2 <= c.len());
    }
}

/// Appending body data in two pieces, the first not completing the part, gives what appending
/// it at once gives, but for how the data is cut into events.
proof fn lemma_append_split(v: ParserView, p: Seq<u8>, q: Seq<u8>, c: bool)
    ensures
        append_body_view(append_body_view(v, p, false), q, c) == with_events(
            append_body_view(v, p + q, c),
            append_body_view(append_body_view(v, p, false), q, c).events,
        ),
        flatten_events(append_body_view(append_body_view(v, p, false), q, c).events)
            == flatten_events(append_body_view(v, p + q, c).events),
{
    let two = append_body_view(append_body_view(v, p, false), q, c);
    let one = append_body_view(v, p + q, c);
    assert(with_data(with_data(v.current_part.unwrap(), p), q) =~= with_data(
        v.current_part.unwrap(),
        p + q,
    ));
    assert(two =~= with_events(one, two.events));
    if p.len() == 0 {
        assert(p + q =~= q);
    } else if q.len() == 0 && !c {
        assert(p + q =~= p);
    } else {
        lemma_flatten_body_split(v.events, p, q, c);
    }
}

/// The rest of a run: stepping until no step makes progress, with fuel enough for the buffer.
pub open spec fn settle(v: ParserView) -> (ParserView, Result<(), MultipartError>) {
    run(v, (v.buffer.len() + 1) as nat)
}

proof fn lemma_moved_zero(y: ParserView)
    requires
        y.current_part is Some,
    ensures
        moved(y, 0) == y,
{
    assert(with_data(y.current_part.unwrap(), Seq::empty()) =~= y.current_part.unwrap());
    assert(y.buffer.skip(0) =~= y.buffer);
    assert(moved(y, 0) =~= y);
}

/// In a body, moving bytes that cannot begin a delimiter into the current part before running
/// changes the outcome only in how body data is cut into events.
#[verifier::rlimit(100)]
#[verifier::spinoff_prover]
proof fn lemma_moved_settle(y: ParserView, k: int)
    requires
        parser_view_wf(y),
        y.state == MultipartState::Body,
        0 <= k,
        k + y.delimiter.len() - 1 <= y.buffer.len(),
        forall|j: int| 0 <= j < k ==> !#[trigger] body_candidate(y.buffer, y.delimiter, j),
    ensures
        settle(moved(y, k)).1 == settle(y).1,
        settle(y).1 is Ok ==> equivalent(settle(y).0, settle(moved(y, k)).0),
{
    let buf = y.buffer;
    let d = y.delimiter;
    let z = moved(y, k);
    let sb = buf.skip(k);
    if k == 0 {
        lemma_moved_zero(y);
        return;
    }
    assert(z.buffer == sb);
    assert forall|j: int| 0 <= j implies #[trigger] body_candidate(sb, d, j) == body_candidate(
        buf,
        d,
        j + k,
    ) by {
        lemma_candidate_shift(buf, d, k, j);
    }
    assert(step(y) == body_step(y));
    assert(step(z) == body_step(z));
    reveal(body_delimiter);
    if exists|i: int| is_first_body_candidate(buf, d, i) {
        let i = choose|i: int| is_first_body_candidate(buf, d, i);
        lemma_body_delimiter_some(buf, d, i);
        assert(i >= k);
        assert(is_first_body_candidate(sb, d, i - k)) by {
            assert(body_candidate(sb, d, i - k));
            assert forall|j: int| 0 <= j < i - k implies !#[trigger] body_candidate(sb, d, j) by {
                assert(body_candidate(sb, d, j) == body_candidate(buf, d, j + k));
            }
        }
        lemma_body_delimiter_some(sb, d, i - k);
        lemma_suffix_shift(buf, k, i - k + d.len());
        let sfx = delimiter_suffix_of(buf, i + d.len());
        lemma_open_bound(buf, i + d.len());
        assert(sb.subrange(0, i - k) =~= buf.subrange(k, i));
        assert(buf.subrange(0, k) + buf.subrange(k, i) =~= buf.subrange(0, i));
        lemma_append_split(y, buf.subrange(0, k), buf.subrange(k, i), true);
        lemma_append_split(y, buf.subrange(0, k), buf.subrange(k, i), false);
        let zz = ParserView { buffer: buf, ..z };
        assert(append_body_view(z, buf.subrange(k, i), true) == ParserView {
            buffer: sb,
            ..append_body_view(zz, buf.subrange(k, i), true)
        });
        assert(append_body_view(z, buf.subrange(k, i), false) == ParserView {
            buffer: sb,
            ..append_body_view(zz, buf.subrange(k, i), false)
        });
        assert(zz == append_body_view(y, buf.subrange(0, k), false));
        match sfx {
            DelimiterSuffix::Open(c) => {
                let y1 = step(y).0;
                let z1 = step(z).0;
                assert(sb.skip(c - k) =~= buf.skip(c as int));
                assert(z1 == with_events(y1, z1.events));
                assert(flatten_events(z1.events) == flatten_events(y1.events));
                lemma_step_wf(y);
                lemma_step_progress(y);
                lemma_run_fuel(z1, (sb.len()) as nat, buf.len() as nat);
                lemma_equivalent_run(y1, z1, buf.len() as nat);
            },
            DelimiterSuffix::Close => {
                let y1 = step(y).0;
                let z1 = step(z).0;
                assert(z1 == with_events(y1, z1.events));
                assert(flatten_events(z1.events) == flatten_events(y1.events));
                lemma_step_wf(y);
                lemma_step_progress(y);
                lemma_run_fuel(z1, (sb.len()) as nat, buf.len() as nat);
                lemma_equivalent_run(y1, z1, buf.len() as nat);
            },
            DelimiterSuffix::Incomplete => {
                assert(sb.skip(i - k) =~= buf.skip(i));
            },
            _ => {},
        }
    } else {
        assert(!exists|i: int| is_first_body_candidate(sb, d, i)) by {
            if exists|i: int| is_first_body_candidate(sb, d, i) {
                let i = choose|i: int| is_first_body_candidate(sb, d, i);
                assert(body_candidate(buf, d, i + k));
                lemma_first_body_candidate_exists(buf, d, i + k);
            }
        }
        let r = d.len() - 1;
        let e = buf.len() - r;
        assert(k <= e);
        if sb.len() > r {
            assert(sb.skip(sb.len() - r) =~= buf.skip(e));
            assert(sb.subrange(0, sb.len() - r) =~= buf.subrange(k, e));
            assert(buf.subrange(0, k) + buf.subrange(k, e) =~= buf.subrange(0, e));
            lemma_append_split(y, buf.subrange(0, k), buf.subrange(k, e), false);
            let zz = ParserView { buffer: buf, ..z };
            assert(zz == append_body_view(y, buf.subrange(0, k), false));
            assert(append_body_view(z, buf.subrange(k, e), false) == ParserView {
                buffer: sb,
                ..append_body_view(zz, buf.subrange(k, e), false)
            });
        } else {
            assert(k == e);
        }
    }
}

/// Where a body holds a candidate delimiter, it holds a first one.
proof fn lemma_first_body_candidate_exists(buf: Seq<u8>, d: Seq<u8>, j: int)
    requires
        body_candidate(buf, d, j),
    ensures
        exists|i: int| is_first_body_candidate(buf, d, i),
    decreases j,
{
    if exists|i: int| 0 <= i < j && #[trigger] body_candidate(buf, d, i) {
        let i = choose|i: int| 0 <= i < j && #[trigger] body_candidate(buf, d, i);
        lemma_first_body_candidate_exists(buf, d, i);
    } else {
        assert(is_first_body_candidate(buf, d, j));
    }
}

/// `y` with the first `k` bytes of its buffer dropped, remembering whether a line starts where
/// the buffer now begins, as a preamble step that finds no delimiter drops them.
pub open spec fn dropped(y: ParserView, k: int) -> ParserView {
    ParserView { buffer: y.buffer.skip(k), line_start: context_at(y.buffer, k, y.line_start), ..y }
}

proof fn lemma_preamble_candidate_shift(c: Seq<u8>, db: Seq<u8>, first: LineContext, k: int, j: int)
    requires
        0 <= k <= c.len(),
        0 <= j,
        c.len() <= usize::MAX,
        db.len() >= 1,
    ensures
        preamble_candidate(c.skip(k), db, context_at(c, k, first), j) == preamble_candidate(
            c,
            db,
            first,
            j + k,
        ),
{
    let sb = c.skip(k);
    if j + db.len() <= c.len() - k {
        assert(sb.subrange(j, j + db.len()) =~= c.subrange(j + k, j + k + db.len()));
        lemma_suffix_shift(c, k, j + db.len());
        lemma_preamble_line_start_shift(c, first, k, j);
    }
}

/// Where the preamble holds a candidate delimiter, it holds a first one.
proof fn lemma_first_preamble_candidate_exists(buf: Seq<u8>, db: Seq<u8>, first: LineContext, j: int)
    requires
        preamble_candidate(buf, db, first, j),
    ensures
        exists|i: int| is_first_preamble_candidate(buf, db, first, i),
    decreases j,
{
    if exists|i: int| 0 <= i < j && #[trigger] preamble_candidate(buf, db, first, i) {
        let i = choose|i: int| 0 <= i < j && #[trigger] preamble_candidate(buf, db, first, i);
        lemma_first_preamble_candidate_exists(buf, db, first, i);
    } else {
        assert(is_first_preamble_candidate(buf, db, first, j));
    }
}

/// In the preamble, dropping bytes before which no delimiter line can start, and no further
/// than a step that finds none would drop, changes no outcome.
#[verifier::rlimit(100)]
#[verifier::spinoff_prover]
proof fn lemma_dropped_settle(y: ParserView, k: int)
    requires
        parser_view_wf(y),
        y.state == MultipartState::Preamble,
        0 <= k <= y.buffer.len(),
        forall|j: int|
            0 <= j < k ==> !#[trigger] preamble_candidate(y.buffer, y.dash_boundary, y.line_start, j),
        preamble_delimiter(y.buffer, y.dash_boundary, y.line_start) is None ==> k <= preamble_cut(
            y.buffer,
            y.dash_boundary.len() + 1int,
        ),
    ensures
        settle(dropped(y, k)).1 == settle(y).1,
        settle(y).1 is Ok ==> settle(dropped(y, k)).0 == settle(y).0,
{
    let buf = y.buffer;
    let db = y.dash_boundary;
    let first = y.line_start;
    let z = dropped(y, k);
    let sb = buf.skip(k);
    let f2 = context_at(buf, k, first);
    if k == 0 {
        assert(buf.skip(0) =~= buf);
        assert(z =~= y);
        return;
    }
    assert forall|j: int| 0 <= j implies #[trigger] preamble_candidate(sb, db, f2, j)
        == preamble_candidate(buf, db, first, j + k) by {
        lemma_preamble_candidate_shift(buf, db, first, k, j);
    }
    assert(step(y) == preamble_step(y));
    assert(step(z) == preamble_step(z));
    lemma_step_wf(y);
    reveal(preamble_delimiter);
    if exists|i: int| is_first_preamble_candidate(buf, db, first, i) {
        let i = choose|i: int| is_first_preamble_candidate(buf, db, first, i);
        lemma_preamble_delimiter_some(buf, db, first, i);
        assert(i >= k);
        assert(is_first_preamble_candidate(sb, db, f2, i - k)) by {
            assert(preamble_candidate(sb, db, f2, i - k));
            assert forall|j: int| 0 <= j < i - k implies !#[trigger] preamble_candidate(
                sb,
                db,
                f2,
                j,
            ) by {
                assert(preamble_candidate(sb, db, f2, j) == preamble_candidate(buf, db, first, j + k));
            }
        }
        lemma_preamble_delimiter_some(sb, db, f2, i - k);
        lemma_suffix_shift(buf, k, i - k + db.len());
        lemma_open_bound(buf, i + db.len());
        match delimiter_suffix_of(buf, i + db.len()) {
            DelimiterSuffix::Open(c) => {
                assert(sb.skip(c - k) =~= buf.skip(c as int));
                let y1 = step(y).0;
                assert(step(z).0 == y1);
                lemma_run_fuel(y1, sb.len() as nat, buf.len() as nat);
            },
            DelimiterSuffix::Close => {
                let y1 = step(y).0;
                assert(step(z).0 == y1);
                lemma_run_fuel(y1, sb.len() as nat, buf.len() as nat);
            },
            DelimiterSuffix::Incomplete => {
                assert(sb.skip(i - k) =~= buf.skip(i));
                assert(step(z).0 == step(y).0);
            },
            _ => {},
        }
    } else {
        assert(!exists|i: int| is_first_preamble_candidate(sb, db, f2, i)) by {
            if exists|i: int| is_first_preamble_candidate(sb, db, f2, i) {
                let i = choose|i: int| is_first_preamble_candidate(sb, db, f2, i);
                assert(preamble_candidate(buf, db, first, i + k));
                lemma_first_preamble_candidate_exists(buf, db, first, i + k);
            }
        }
        let r = db.len() + 1int;
        let cut = preamble_cut(buf, r);
        let cut2 = preamble_cut(sb, r);
        assert(k <= cut);
        assert(cut2 == cut - k);
        if cut2 > 0 {
            assert(sb.skip(cut2) =~= buf.skip(cut));
            lemma_preamble_line_start_shift(buf, first, k, cut2);
            assert(step(z).0 == step(y).0);
        } else {
            assert(step(z).0 == step(y).0);
        }
    }
}

/// Line starts and contexts are the same whether told in `c` or after its first `k` bytes.
proof fn lemma_preamble_line_start_shift(c: Seq<u8>, first: LineContext, k: int, j: int)
    requires
        0 <= k,
        0 <= j,
        k + j <= c.len(),
    ensures
        starts_line(c.skip(k), j, context_at(c, k, first)) == starts_line(c, j + k, first),
        context_at(c.skip(k), j, context_at(c, k, first)) == context_at(c, j + k, first),
{
    let sb = c.skip(k);
    if j >= 2 {
        assert(sb[j - 2] == c[j + k - 2] && sb[j - 1] == c[j + k - 1]);
    }
    if j >= 1 {
        assert(sb[j - 1] == c[j + k - 1]);
    }
    if j >= 1 && k >= 1 && k < c.len() {
        assert(sb[0] == c[k]);
    }
}

/// In a body, a candidate delimiter wholly inside `buf` that is not one there is not one
/// either when more data follows.
proof fn lemma_no_candidate_extend(buf: Seq<u8>, d: Seq<u8>, b: Seq<u8>, j: int)
    requires
        0 <= j,
        j + d.len() <= buf.len(),
        !body_candidate(buf, d, j),
    ensures
        !body_candidate(buf + b, d, j),
{
    assert((buf + b).subrange(j, j + d.len()) =~= buf.subrange(j, j + d.len()));
    if occurs_at(buf, j, d) {
        lemma_suffix_extend(buf, j + d.len(), b);
    }
}

/// In the preamble, a candidate delimiter line wholly inside `buf` that is not one there is not
/// one either when more data follows.
proof fn lemma_no_preamble_candidate_extend(
    buf: Seq<u8>,
    db: Seq<u8>,
    first: LineContext,
    b: Seq<u8>,
    j: int,
)
    requires
        0 <= j,
        j + db.len() <= buf.len(),
        !preamble_candidate(buf, db, first, j),
    ensures
        !preamble_candidate(buf + b, db, first, j),
{
    let e = buf + b;
    assert(e.subrange(j, j + db.len()) =~= buf.subrange(j, j + db.len()));
    if j >= 2 {
        assert(e[j - 2] == buf[j - 2] && e[j - 1] == buf[j - 1]);
    }
    if occurs_at(buf, j, db) && starts_line(buf, j, first) {
        lemma_suffix_extend(buf, j + db.len(), b);
    }
}

proof fn lemma_invalid_suffix_tail(buf: Seq<u8>, after: int)
    requires
        0 <= after <= buf.len(),
        delimiter_suffix_of(buf, after) == DelimiterSuffix::Invalid,
    ensures
        after < buf.len(),
{
}

/// A preamble step that makes no progress drops bytes as `dropped` does, and feeding more data
/// first changes the outcome of the run no more than dropping them does.
#[verifier::rlimit(100)]
#[verifier::spinoff_prover]
proof fn lemma_preamble_settle_extend(x: ParserView, b: Seq<u8>)
    requires
        parser_view_wf(x),
        parser_view_wf(extend(x, b)),
        x.state == MultipartState::Preamble,
        step(x).1 == Ok::<bool, MultipartError>(false),
    ensures
        settle(extend(x, b)).1 == settle(extend(step(x).0, b)).1,
        settle(extend(x, b)).1 is Ok ==> settle(extend(x, b)).0 == settle(extend(step(x).0, b)).0,
{
    let buf = x.buffer;
    let db = x.dash_boundary;
    let first = x.line_start;
    let y = extend(x, b);
    let e = buf + b;
    let x1 = step(x).0;
    let r = db.len() + 1int;
    assert(step(x) == preamble_step(x));
    reveal(preamble_delimiter);
    if exists|i: int| is_first_preamble_candidate(buf, db, first, i) {
        let i = choose|i: int| is_first_preamble_candidate(buf, db, first, i);
        lemma_preamble_delimiter_some(buf, db, first, i);
        if delimiter_suffix_of(buf, i + db.len()) == DelimiterSuffix::Incomplete {
            assert forall|j: int| 0 <= j < i implies !#[trigger] preamble_candidate(
                e,
                db,
                first,
                j,
            ) by {
                lemma_no_preamble_candidate_extend(buf, db, first, b, j);
            }
            if i >= 2 {
                assert(e[i - 2] == buf[i - 2] && e[i - 1] == buf[i - 1]);
            }
            assert(buf.subrange(i, i + db.len())[0] == db[0]);
            assert(e[i] == buf[i]);
            assert(e.skip(i) =~= buf.skip(i) + b);
            assert(extend(x1, b) == dropped(y, i));
            if !(exists|j: int| is_first_preamble_candidate(e, db, first, j)) {
                assert(e.subrange(i, i + db.len()) =~= buf.subrange(i, i + db.len()));
                if delimiter_suffix_of(e, i + db.len()) != DelimiterSuffix::Invalid {
                    assert(preamble_candidate(e, db, first, i));
                    lemma_first_preamble_candidate_exists(e, db, first, i);
                }
                lemma_invalid_suffix_tail(e, i + db.len());
            }
            lemma_dropped_settle(y, i);
        } else {
            assert(x1 == x);
        }
    } else {
        let cut = preamble_cut(buf, r);
        if cut > 0 {
            assert forall|j: int| 0 <= j < cut implies !#[trigger] preamble_candidate(
                e,
                db,
                first,
                j,
            ) by {
                if preamble_candidate(buf, db, first, j) {
                    lemma_first_preamble_candidate_exists(buf, db, first, j);
                }
                lemma_no_preamble_candidate_extend(buf, db, first, b, j);
            }
            assert(e[cut - 1] == buf[cut - 1] && e[cut] == buf[cut]);
            if cut >= 2 {
                assert(e[cut - 2] == buf[cut - 2]);
            }
            assert(e.skip(cut) =~= buf.skip(cut) + b);
            assert(extend(x1, b) == dropped(y, cut));
            if b.len() == 0 {
                assert(e =~= buf);
            }
            lemma_dropped_settle(y, cut);
        } else {
            assert(x1 == x);
        }
    }
}

/// Running after more data was fed gives what running first and then feeding the data gives,
/// but for how body data is cut into events; where the first run ends the message, the data is
/// only counted.
#[verifier::rlimit(100)]
#[verifier::spinoff_prover]
proof fn lemma_settle_extend(x: ParserView, b: Seq<u8>)
    requires
        parser_view_wf(x),
        parser_view_wf(extend(x, b)),
        x.state != MultipartState::End,
        settle(x).1 is Ok,
    ensures
        settle(x).0.state == MultipartState::End ==> settle(extend(x, b)) == (
            ParserView { size: settle(x).0.size + b.len(), ..settle(x).0 },
            Ok::<(), MultipartError>(()),
        ),
        settle(x).0.state != MultipartState::End ==> settle(extend(x, b)).1 == settle(
            extend(settle(x).0, b),
        ).1,
        settle(x).0.state != MultipartState::End ==> (settle(extend(x, b)).1 is Ok ==> equivalent(
            settle(extend(x, b)).0,
            settle(extend(settle(x).0, b)).0,
        )),
    decreases x.buffer.len(),
{
    let buf = x.buffer;
    let y = extend(x, b);
    let (x1, r1) = step(x);
    lemma_step_wf(x);
    lemma_step_relation(x);
    if r1 == Ok::<bool, MultipartError>(true) {
        lemma_step_progress(x);
        if x.state == MultipartState::Preamble {
            lemma_preamble_step_extend(x, b);
        } else if x.state == MultipartState::Header {
            lemma_header_step_extend(x, b);
        } else {
            lemma_body_step_extend(x, b);
        }
        assert(settle(x) == run(x1, buf.len() as nat));
        lemma_run_fuel(x1, buf.len() as nat, (x1.buffer.len() + 1) as nat);
        assert(settle(y) == run(extend_result(x1, b), (buf.len() + b.len()) as nat));
        if x1.state == MultipartState::End {
            assert(settle(x1) == (x1, Ok::<(), MultipartError>(())));
        } else {
            assert(x1.state != MultipartState::End);
            assert(parser_view_wf(extend(x1, b)));
            lemma_run_fuel(
                extend(x1, b),
                (buf.len() + b.len()) as nat,
                (x1.buffer.len() + b.len() + 1) as nat,
            );
            lemma_settle_extend(x1, b);
        }
    } else {
        assert(r1 == Ok::<bool, MultipartError>(false));
        assert(settle(x) == (x1, Ok::<(), MultipartError>(())));
        if x.state == MultipartState::Preamble {
            lemma_preamble_settle_extend(x, b);
        } else if x.state == MultipartState::Header {
            assert(step(x) == header_step(x));
            assert(x1 == x);
        } else {
            let d = x.delimiter;
            assert(step(x) == body_step(x));
            reveal(body_delimiter);
            if exists|i: int| is_first_body_candidate(buf, d, i) {
                let i = choose|i: int| is_first_body_candidate(buf, d, i);
                lemma_body_delimiter_some(buf, d, i);
                if delimiter_suffix_of(buf, i + d.len()) == DelimiterSuffix::Incomplete {
                    assert forall|j: int| 0 <= j < i implies !#[trigger] body_candidate(
                        buf + b,
                        d,
                        j,
                    ) by {
                        lemma_no_candidate_extend(buf, d, b, j);
                    }
                    assert((buf + b).subrange(0, i) =~= buf.subrange(0, i));
                    assert((buf + b).skip(i) =~= buf.skip(i) + b);
                    assert(extend(x1, b) == moved(y, i));
                    lemma_moved_settle(y, i);
                } else {
                    assert(x1 == x);
                }
            } else {
                let r = d.len() - 1;
                if buf.len() > r {
                    let e = buf.len() - r;
                    assert forall|j: int| 0 <= j < e implies !#[trigger] body_candidate(
                        buf + b,
                        d,
                        j,
                    ) by {
                        if body_candidate(buf, d, j) {
                            lemma_first_body_candidate_exists(buf, d, j);
                        }
                        lemma_no_candidate_extend(buf, d, b, j);
                    }
                    assert((buf + b).subrange(0, e) =~= buf.subrange(0, e));
                    assert((buf + b).skip(e) =~= buf.skip(e) + b);
                    assert(extend(x1, b) == moved(y, e));
                    lemma_moved_settle(y, e);
                } else {
                    assert(x1 == x);
                }
            }
        }
    }
}

/// Feeding `a` and then `b` ends as feeding `a` and `b` at once does: with the same result and, where that is
/// success, in the same state but for how body data is cut into events and for the count of
/// bytes fed (the bytes after the closing delimiter, which feeding at once still counts).
pub proof fn lemma_feed_chunks(v: ParserView, a: Seq<u8>, b: Seq<u8>)
    requires
        parser_view_wf(v),
        v.buffer.len() + a.len() + b.len() <= usize::MAX,
        v.max_size matches Some(m) ==> v.size + a.len() + b.len() <= m,
        feed_spec(v, a).1 is Ok,
    ensures
        feed_spec(v, a + b).1 == feed_spec(feed_spec(v, a).0, b).1,
        feed_spec(v, a + b).1 is Ok ==> equivalent(
            feed_spec(v, a + b).0,
            feed_spec(feed_spec(v, a).0, b).0,
        ),
{
    if v.state != MultipartState::End {
        let x = extend(v, a);
        assert(feed_spec(v, a) == settle(x));
        assert(extend(x, b) =~= extend(v, a + b));
        assert(feed_spec(v, a + b) == settle(extend(x, b)));
        assert(parser_view_wf(extend(x, b)));
        assert(parser_view_wf(x));
        lemma_run(x, (x.buffer.len() + 1) as nat);
        lemma_settle_extend(x, b);
        let v1 = settle(x).0;
        if v1.state != MultipartState::End {
            assert(feed_spec(v1, b) == settle(extend(v1, b)));
        }
    }
}

/// What the parser holds of the input once a step can make no progress: in the preamble, at
/// most the dash boundary and one byte; in a body, less than a delimiter; in either, otherwise
/// only a delimiter whose line is not complete yet (a `-`, spaces and tabs, a carriage return);
/// in the headers, part of one header line, within the size limit where there is one; nothing
/// at the end.
pub open spec fn settled_buffer(v: ParserView) -> bool {
    let buf = v.buffer;
    match v.state {
        MultipartState::Preamble => buf.len() <= v.dash_boundary.len() + 1 || (occurs_at(
            buf,
            0,
            v.dash_boundary,
        ) && delimiter_suffix_of(buf, v.dash_boundary.len() as int)
            == DelimiterSuffix::Incomplete),
        MultipartState::Header => !buf.contains(0x0au8) && (v.max_header_size matches Some(m)
            ==> buf.len() <= m + 1),
        MultipartState::Body => buf.len() < v.delimiter.len() || (occurs_at(buf, 0, v.delimiter)
            && delimiter_suffix_of(buf, v.delimiter.len() as int) == DelimiterSuffix::Incomplete),
        MultipartState::End => buf.len() == 0,
    }
}

proof fn lemma_step_settled(v: ParserView)
    requires
        parser_view_wf(v),
        step(v).1 == Ok::<bool, MultipartError>(false),
    ensures
        settled_buffer(step(v).0),
{
    let buf = v.buffer;
    let w = step(v).0;
    match v.state {
        MultipartState::Preamble => {
            assert(step(v) == preamble_step(v));
            let db = v.dash_boundary;
            reveal(preamble_delimiter);
            if exists|i: int| is_first_preamble_candidate(buf, db, v.line_start, i) {
                let i = choose|i: int| is_first_preamble_candidate(buf, db, v.line_start, i);
                lemma_preamble_delimiter_some(buf, db, v.line_start, i);
                lemma_suffix_shift(buf, i, db.len() as int);
                assert(buf.skip(i).subrange(0, db.len() as int) =~= buf.subrange(i, i + db.len()));
            }
        },
        MultipartState::Header => {
            assert(step(v) == header_step(v));
        },
        MultipartState::Body => {
            assert(step(v) == body_step(v));
            let d = v.delimiter;
            reveal(body_delimiter);
            if exists|i: int| is_first_body_candidate(buf, d, i) {
                let i = choose|i: int| is_first_body_candidate(buf, d, i);
                lemma_body_delimiter_some(buf, d, i);
                lemma_suffix_shift(buf, i, d.len() as int);
                assert(buf.skip(i).subrange(0, d.len() as int) =~= buf.subrange(i, i + d.len()));
            }
        },
        MultipartState::End => {},
    }
}

proof fn lemma_run_settled(v: ParserView, f: nat)
    requires
        parser_view_wf(v),
        f > v.buffer.len(),
        run(v, f).1 is Ok,
    ensures
        settled_buffer(run(v, f).0),
    decreases f,
{
    lemma_step_wf(v);
    if step(v).1 == Ok::<bool, MultipartError>(true) {
        lemma_step_progress(v);
        lemma_run_settled(step(v).0, (f - 1) as nat);
    } else {
        lemma_step_settled(v);
    }
}

/// After a feed that succeeds the parser holds no more of the input than `settled_buffer`
/// allows, however long the message: never more than a delimiter line or, in the headers, one
/// header line.
pub proof fn lemma_feed_settled(v: ParserView, data: Seq<u8>)
    requires
        parser_view_wf(v),
        v.state != MultipartState::End ==> v.buffer.len() + data.len() <= usize::MAX,
        feed_spec(v, data).1 is Ok,
    ensures
        settled_buffer(feed_spec(v, data).0),
{
    if v.state != MultipartState::End {
        let x = extend(v, data);
        assert(parser_view_wf(x));
        lemma_run_settled(x, (x.buffer.len() + 1) as nat);
    }
}

/// Where the parser does not collect body data into parts, feeding adds none to what it holds
/// in parts: the body data is only reported by events.
pub proof fn lemma_feed_collects_nothing(v: ParserView, data: Seq<u8>)
    requires
        parser_view_wf(v),
        !v.assemble,
        v.state != MultipartState::End ==> v.buffer.len() + data.len() <= usize::MAX,
    ensures
        received(feed_spec(v, data).0) == received(v),
{
    lemma_feed(v, data);
    assert(received(v) + Seq::<u8>::empty() =~= received(v));
}

/// A closing delimiter line starts at index `i` of `s`, which begins in the context `first`:
/// the dash boundary and `--`, at the start of a line.
pub open spec fn closes_at(s: Seq<u8>, i: int, first: LineContext, db: Seq<u8>) -> bool {
    occurs_at(s, i, close_marker(db)) && starts_line(s, i, first)
}

/// A step leaves a suffix of its buffer and, in the preamble, the context in which it begins.
proof fn lemma_step_suffix(u: ParserView) -> (k: int)
    requires
        parser_view_wf(u),
    ensures
        0 <= k <= u.buffer.len(),
        step(u).0.buffer == u.buffer.skip(k),
        step(u).0.state == MultipartState::Preamble ==> step(u).0.line_start == context_at(
            u.buffer,
            k,
            u.line_start,
        ),
        step(u).0.state == MultipartState::Preamble ==> u.state == MultipartState::Preamble,
{
    let buf = u.buffer;
    assert(buf.skip(0) =~= buf);
    assert(buf.skip(buf.len() as int) =~= Seq::<u8>::empty());
    lemma_step_wf(u);
    match u.state {
        MultipartState::Preamble => {
            assert(step(u) == preamble_step(u));
            let db = u.dash_boundary;
            reveal(preamble_delimiter);
            if exists|i: int| is_first_preamble_candidate(buf, db, u.line_start, i) {
                let i = choose|i: int| is_first_preamble_candidate(buf, db, u.line_start, i);
                lemma_preamble_delimiter_some(buf, db, u.line_start, i);
                lemma_open_suffix_bound(buf, i + db.len());
                match delimiter_suffix_of(buf, i + db.len()) {
                    DelimiterSuffix::Open(c) => c as int,
                    DelimiterSuffix::Close => buf.len() as int,
                    DelimiterSuffix::Incomplete => i,
                    _ => 0,
                }
            } else {
                let cut = preamble_cut(buf, db.len() + 1int);
                cut
            }
        },
        MultipartState::Header => {
            assert(step(u) == header_step(u));
            reveal(first_occurrence);
            if let Some(i) = first_occurrence(buf, crlf_seq()) {
                let c = choose|c: int| is_first_occurrence(buf, c, crlf_seq());
                i + 2
            } else {
                0
            }
        },
        MultipartState::Body => {
            assert(step(u) == body_step(u));
            let d = u.delimiter;
            reveal(body_delimiter);
            if exists|i: int| is_first_body_candidate(buf, d, i) {
                let i = choose|i: int| is_first_body_candidate(buf, d, i);
                lemma_body_delimiter_some(buf, d, i);
                lemma_open_suffix_bound(buf, i + d.len());
                match delimiter_suffix_of(buf, i + d.len()) {
                    DelimiterSuffix::Open(c) => c as int,
                    DelimiterSuffix::Close => buf.len() as int,
                    DelimiterSuffix::Incomplete => i,
                    _ => 0,
                }
            } else {
                let r = d.len() - 1;
                if buf.len() > r {
                    buf.len() - r
                } else {
                    0
                }
            }
        },
        MultipartState::End => 0,
    }
}

/// A run that ends the message from a state whose buffer is the input `s` without its first
/// `k` bytes read a closing delimiter line at a line start of `s`.
proof fn lemma_run_closes(s: Seq<u8>, first: LineContext, u: ParserView, k: int, f: nat)
    requires
        parser_view_wf(u),
        0 <= k <= s.len(),
        u.buffer == s.skip(k),
        u.state == MultipartState::Preamble ==> u.line_start == context_at(s, k, first),
        u.state != MultipartState::End,
        run(u, f).0.state == MultipartState::End,
    ensures
        exists|i: int| closes_at(s, i, first, u.dash_boundary),
    decreases f,
{
    let (w, r) = step(u);
    let k2 = lemma_step_suffix(u);
    lemma_step_wf(u);
    lemma_step_relation(u);
    assert(s.skip(k).skip(k2) =~= s.skip(k + k2));
    if w.state == MultipartState::End {
        lemma_step_reaches_end(u);
        let buf = u.buffer;
        let db = u.dash_boundary;
        if u.state == MultipartState::Preamble {
            let i = choose|i: int|
                occurs_at(buf, i, close_marker(db)) && starts_line(buf, i, u.line_start);
            lemma_preamble_line_start_shift(s, first, k, i);
            assert(buf.subrange(i, i + close_marker(db).len()) =~= s.subrange(
                k + i,
                k + i + close_marker(db).len(),
            ));
            assert(closes_at(s, k + i, first, db));
        } else {
            let d = u.delimiter;
            let i = choose|i: int| occurs_at(buf, i, close_marker(d));
            let m = close_marker(db);
            assert(close_marker(d) =~= crlf_seq() + m);
            assert(buf.subrange(i, i + close_marker(d).len()) =~= s.subrange(
                k + i,
                k + i + close_marker(d).len(),
            ));
            assert(s.subrange(k + i + 2, k + i + 2 + m.len()) =~= buf.subrange(
                i,
                i + close_marker(d).len(),
            ).skip(2));
            let t = s.subrange(k + i, k + i + close_marker(d).len());
            assert(t == close_marker(d));
            assert(t[0] == s[k + i] && t[1] == s[k + i + 1]);
            assert(close_marker(d)[0] == 0x0du8 && close_marker(d)[1] == 0x0au8);
            assert(close_marker(d).skip(2) =~= m);
            assert(s.subrange(k + i + 2, k + i + 2 + m.len()) == m);
            assert(occurs_at(s, k + i + 2, m));
            assert(starts_line(s, k + i + 2, first));
            assert(closes_at(s, k + i + 2, first, db));
        }
    } else {
        assert(f > 0);
        assert(r == Ok::<bool, MultipartError>(true));
        if w.state == MultipartState::Preamble {
            lemma_preamble_line_start_shift(s, first, k, k2);
        }
        lemma_run_closes(s, first, w, k + k2, (f - 1) as nat);
    }
}

/// A feed that ends the message read a closing delimiter line (the dash boundary and `--`) at
/// the start of a line of what the parser held and was fed.
pub proof fn lemma_feed_closes(v: ParserView, data: Seq<u8>)
    requires
        parser_view_wf(v),
        v.buffer.len() + data.len() <= usize::MAX,
        v.state != MultipartState::End,
        feed_spec(v, data).0.state == MultipartState::End,
    ensures
        exists|i: int| closes_at(v.buffer + data, i, v.line_start, v.dash_boundary),
{
    let s = v.buffer + data;
    let x = extend(v, data);
    assert(!(v.max_size matches Some(m) && v.size + data.len() > m));
    assert(parser_view_wf(x));
    assert(s.skip(0) =~= s);
    lemma_run_closes(s, v.line_start, x, 0, (x.buffer.len() + 1) as nat);
}

} // verus!
