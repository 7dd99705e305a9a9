//! Sans-IO parser for RFC 7578 `multipart/form-data`.
//!
//! The parser moves from the preamble to the part headers, then to the part body. A body either
//! starts another part or ends the multipart message.

use std::collections::VecDeque;

use vstd::prelude::*;
use vstd::slice::slice_subrange;
use vstd::utf8::{decode_utf8, valid_utf8};

use crate::bytes::{
    copy_range, drop_front, extend_bytes, find_byte, find_byte_from, find_from, find_subslice,
    is_first_occurrence, occurs_at,
};
use crate::error::MultipartError;
use crate::form_data::{form_data_from_headers, with_data, FormData, FormDataView};
use crate::string_map::StringMap;
use crate::text::{ascii_lower, chars_of, decode_utf8_chars, str_eq, string_from_chars, to_ascii_lower, trim, trim_chars};

verus! {

/// Where the parser stands in a multipart message.
#[derive(Clone, Copy, PartialEq, Eq, Debug, Structural)]
pub enum MultipartState {
    Preamble,
    Header,
    Body,
    End,
}

/// An event of the parser: a header of the current part, or a chunk of its body (`complete`
/// on the chunk that ends the part).
#[derive(Debug, Clone)]
pub enum MultipartPart {
    Header { name: String, value: String },
    Body { data: Vec<u8>, complete: bool },
}

/// The content of a parser event.
#[verifier::ext_equal]
pub enum MultipartPartView {
    Header { name: Seq<char>, value: Seq<char> },
    Body { data: Seq<u8>, complete: bool },
}

impl View for MultipartPart {
    type V = MultipartPartView;

    open spec fn view(&self) -> MultipartPartView {
        match self {
            MultipartPart::Header { name, value } => MultipartPartView::Header {
                name: name@,
                value: value@,
            },
            MultipartPart::Body { data, complete } => MultipartPartView::Body {
                data: data@,
                complete: *complete,
            },
        }
    }
}

/// The name and value of a header line, split at its first `:`: decoded from UTF-8 and trimmed,
/// the name as received.
#[verifier::opaque]
pub open spec fn header_from_line(line: Seq<u8>) -> Result<(Seq<char>, Seq<char>), MultipartError> {
    match find_byte_from(line, 0x3a, 0) {
        None => Err(MultipartError::MalformedHeader),
        Some(sep) => {
            let raw_name = line.subrange(0, sep);
            let raw_value = line.subrange(sep + 1, line.len() as int);
            if !valid_utf8(raw_name) {
                Err(MultipartError::InvalidHeaderName)
            } else if !valid_utf8(raw_value) {
                Err(MultipartError::InvalidHeaderValue)
            } else if trim(decode_utf8(raw_name)).len() == 0 {
                Err(MultipartError::MissingHeaderName)
            } else {
                Ok((trim(decode_utf8(raw_name)), trim(decode_utf8(raw_value))))
            }
        },
    }
}

/// The name and value of a header line (without its line break).
fn header_line(data: &[u8]) -> (r: Result<(String, String), MultipartError>)
    ensures
        match r {
            Ok((n, v)) => header_from_line(data@) == Ok::<(Seq<char>, Seq<char>), MultipartError>(
                (n@, v@),
            ),
            Err(e) => header_from_line(data@) == Err::<(Seq<char>, Seq<char>), MultipartError>(e),
        },
{
    reveal(header_from_line);
    let separator = match find_byte(data, 0x3a) {
        Some(i) => i,
        None => return Err(MultipartError::MalformedHeader),
    };
    assert(separator < data.len());
    let name = match decode_utf8_chars(slice_subrange(data, 0, separator)) {
        Some(cs) => trim_chars(cs.as_slice()),
        None => return Err(MultipartError::InvalidHeaderName),
    };
    let value = match decode_utf8_chars(slice_subrange(data, separator + 1, data.len())) {
        Some(cs) => trim_chars(cs.as_slice()),
        None => return Err(MultipartError::InvalidHeaderValue),
    };
    if name.len() == 0 {
        return Err(MultipartError::MissingHeaderName);
    }
    Ok((string_from_chars(name.as_slice()), string_from_chars(value.as_slice())))
}

impl MultipartPart {
    /// The header event for a header line (without its line break).
    pub fn build_header(data: &[u8]) -> (r: Result<MultipartPart, MultipartError>)
        ensures
            match r {
                Ok(part) => header_from_line(data@) matches Ok((n, v)) && part@
                    == (MultipartPartView::Header { name: n, value: v }),
                Err(e) => header_from_line(data@) == Err::<(Seq<char>, Seq<char>), MultipartError>(
                    e,
                ),
            },
    {
        let (name, value) = header_line(data)?;
        Ok(MultipartPart::Header { name, value })
    }
}

/// What follows a boundary in the buffer.
#[derive(Debug, Clone, Copy, PartialEq, Eq, Structural)]
pub enum DelimiterSuffix {
    /// A line break ends the delimiter line; the part headers start at the given index.
    Open(usize),
    /// `--` follows: the closing delimiter.
    Close,
    /// The buffer ends before the suffix can be told.
    Incomplete,
    /// Something else follows: this is no delimiter.
    Invalid,
    /// A line feed without a carriage return ends the delimiter line.
    BareLineFeed,
}

/// Space or horizontal tab.
pub open spec fn is_linear_whitespace(b: u8) -> bool {
    b == 0x20 || b == 0x09
}

/// The number of leading spaces and tabs of `s`.
pub open spec fn padding_len(s: Seq<u8>) -> nat
    decreases s.len(),
{
    if s.len() > 0 && is_linear_whitespace(s[0]) {
        1 + padding_len(s.drop_first())
    } else {
        0
    }
}

/// What follows a boundary that ends at index `after` of `buf`.
pub open spec fn delimiter_suffix_of(buf: Seq<u8>, after: int) -> DelimiterSuffix {
    let tail = buf.skip(after);
    if tail.len() == 0 {
        DelimiterSuffix::Incomplete
    } else if tail.len() >= 2 && tail[0] == 0x2d && tail[1] == 0x2d {
        DelimiterSuffix::Close
    } else if tail[0] == 0x2d {
        if tail.len() == 1 {
            DelimiterSuffix::Incomplete
        } else {
            DelimiterSuffix::Invalid
        }
    } else {
        let padding = padding_len(tail);
        let line_ending = tail.skip(padding as int);
        if line_ending.len() == 0 || (line_ending.len() == 1 && line_ending[0] == 0x0d) {
            DelimiterSuffix::Incomplete
        } else if line_ending.len() >= 2 && line_ending[0] == 0x0d && line_ending[1] == 0x0a {
            DelimiterSuffix::Open((after + padding + 2) as usize)
        } else if line_ending[0] == 0x0a {
            DelimiterSuffix::BareLineFeed
        } else {
            DelimiterSuffix::Invalid
        }
    }
}

proof fn lemma_padding_len(s: Seq<u8>, p: int)
    requires
        0 <= p <= s.len(),
        forall|i: int| 0 <= i < p ==> is_linear_whitespace(s[i]),
        p == s.len() || !is_linear_whitespace(s[p]),
    ensures
        padding_len(s) == p,
    decreases p,
{
    if p > 0 {
        assert forall|i: int| 0 <= i < p - 1 implies is_linear_whitespace(s.drop_first()[i]) by {
            assert(s.drop_first()[i] == s[i + 1]);
        }
        if p - 1 < s.drop_first().len() {
            assert(s.drop_first()[p - 1] == s[p]);
        }
        lemma_padding_len(s.drop_first(), p - 1);
    }
}

/// What follows the boundary that ends at index `after_boundary` of `buffer`.
pub fn delimiter_suffix(buffer: &[u8], after_boundary: usize) -> (r: DelimiterSuffix)
    requires
        after_boundary <= buffer@.len(),
    ensures
        r == delimiter_suffix_of(buffer@, after_boundary as int),
{
    let len = buffer.len();
    let ghost tail = buffer@.skip(after_boundary as int);
    if after_boundary == len {
        return DelimiterSuffix::Incomplete;
    }
    assert(tail[0] == buffer@[after_boundary as int]);
    if len - after_boundary >= 2 && buffer[after_boundary] == 0x2d && buffer[after_boundary + 1]
        == 0x2d {
        assert(tail[1] == buffer@[after_boundary + 1]);
        return DelimiterSuffix::Close;
    }
    if buffer[after_boundary] == 0x2d {
        if len - after_boundary == 1 {
            return DelimiterSuffix::Incomplete;
        } else {
            assert(tail[1] == buffer@[after_boundary + 1]);
            return DelimiterSuffix::Invalid;
        }
    }
    let mut p: usize = after_boundary;
    while p < len && (buffer[p] == 0x20 || buffer[p] == 0x09)
        invariant
            after_boundary <= p <= len,
            len == buffer@.len(),
            tail == buffer@.skip(after_boundary as int),
            forall|i: int| 0 <= i < p - after_boundary ==> is_linear_whitespace(tail[i]),
        decreases len - p,
    {
        p += 1;
    }
    proof {
        lemma_padding_len(tail, p - after_boundary);
    }
    let ghost line_ending = tail.skip(p - after_boundary);
    if p == len {
        return DelimiterSuffix::Incomplete;
    }
    assert(line_ending[0] == buffer@[p as int]);
    if len - p == 1 && buffer[p] == 0x0d {
        return DelimiterSuffix::Incomplete;
    }
    if len - p >= 2 && buffer[p] == 0x0d && buffer[p + 1] == 0x0a {
        assert(line_ending[1] == buffer@[p + 1]);
        return DelimiterSuffix::Open(p + 2);
    }
    if len - p >= 2 {
        assert(line_ending[1] == buffer@[p + 1]);
    }
    if buffer[p] == 0x0a {
        return DelimiterSuffix::BareLineFeed;
    }
    DelimiterSuffix::Invalid
}


proof fn lemma_padding_len_bound(s: Seq<u8>)
    ensures
        padding_len(s) <= s.len(),
    decreases s.len(),
{
    if s.len() > 0 && is_linear_whitespace(s[0]) {
        lemma_padding_len_bound(s.drop_first());
    }
}

/// An `Open` suffix ends inside the buffer, at least two bytes after the boundary.
pub(crate) proof fn lemma_open_suffix_bound(buf: Seq<u8>, after: int)
    requires
        0 <= after <= buf.len(),
        buf.len() <= usize::MAX,
    ensures
        delimiter_suffix_of(buf, after) matches DelimiterSuffix::Open(c) ==> after + 2 <= c
            <= buf.len(),
{
    lemma_padding_len_bound(buf.skip(after));
}

/// The state of a parser.
#[verifier::ext_equal]
pub struct ParserView {
    pub max_size: Option<usize>,
    pub state: MultipartState,
    /// Input received and not yet consumed.
    pub buffer: Seq<u8>,
    /// `--` followed by the boundary.
    pub dash_boundary: Seq<u8>,
    /// A line break followed by the dash boundary.
    pub delimiter: Seq<u8>,
    /// The number of bytes fed so far.
    pub size: int,
    /// Events not yet taken, oldest first.
    pub events: Seq<MultipartPartView>,
    /// The headers of the part whose headers are being read.
    pub headers: Map<Seq<char>, Seq<char>>,
    /// The part whose body is being read.
    pub current_part: Option<FormDataView>,
    /// Completed parts not yet taken, oldest first.
    pub parts: Seq<FormDataView>,
    /// Where the buffer begins among the lines of the message.
    pub line_start: LineContext,
    /// The most header lines a part may have, where limited.
    pub max_header_count: Option<usize>,
    /// The longest header line allowed, in bytes without its line break, where limited.
    pub max_header_size: Option<usize>,
    /// The number of header lines read for the current part, counted where their number is
    /// limited.
    pub header_count: nat,
    /// Whether body data is collected into the parts.
    pub assemble: bool,
}

/// Carriage return and line feed.
pub open spec fn crlf_seq() -> Seq<u8> {
    seq![0x0du8, 0x0au8]
}

/// The invariant of a parser: the delimiters derive from one boundary, a part is being read
/// exactly in the body state, and the size stays within the limit.
pub open spec fn parser_view_wf(v: ParserView) -> bool {
    &&& 3 <= v.dash_boundary.len() <= 72
    &&& v.dash_boundary[0] == 0x2d
    &&& v.dash_boundary[1] == 0x2d
    &&& v.delimiter == crlf_seq() + v.dash_boundary
    &&& (v.current_part is Some <==> v.state == MultipartState::Body)
    &&& v.state == MultipartState::End ==> v.buffer.len() == 0
    &&& v.buffer.len() <= usize::MAX
    &&& 0 <= v.size
    &&& (v.max_size matches Some(m) ==> v.size <= m)
    &&& (v.max_header_count matches Some(m) ==> v.header_count <= m)
    &&& (v.max_header_count is None || v.state != MultipartState::Header ==> v.header_count == 0)
}

/// The index of the first occurrence of `needle` in `buf`.
#[verifier::opaque]
pub open spec fn first_occurrence(buf: Seq<u8>, needle: Seq<u8>) -> Option<int> {
    if exists|i: int| is_first_occurrence(buf, i, needle) {
        Some(choose|i: int| is_first_occurrence(buf, i, needle))
    } else {
        None
    }
}

/// Where a buffer begins among the lines of the message.
#[derive(Clone, Copy, PartialEq, Eq, Debug, Structural)]
pub enum LineContext {
    /// The first byte of the buffer starts a line.
    Start,
    /// The byte before the buffer is a carriage return.
    AfterCr,
    /// Neither.
    Inside,
}

/// Index `i` starts a line of `buf`, which begins in the context `first`.
pub open spec fn starts_line(buf: Seq<u8>, i: int, first: LineContext) -> bool {
    ||| i == 0 && first == LineContext::Start
    ||| i == 1 && first == LineContext::AfterCr && buf[0] == 0x0a
    ||| i >= 2 && buf[i - 2] == 0x0d && buf[i - 1] == 0x0a
}

/// The context in which the rest of `buf` begins at index `k`.
pub open spec fn context_at(buf: Seq<u8>, k: int, first: LineContext) -> LineContext {
    if k == 0 {
        first
    } else if starts_line(buf, k, first) {
        LineContext::Start
    } else if buf[k - 1] == 0x0d {
        LineContext::AfterCr
    } else {
        LineContext::Inside
    }
}

/// A dash boundary at the start of a line, followed by what a delimiter line may hold.
pub open spec fn preamble_candidate(buf: Seq<u8>, db: Seq<u8>, first: LineContext, i: int) -> bool {
    &&& occurs_at(buf, i, db)
    &&& starts_line(buf, i, first)
    &&& delimiter_suffix_of(buf, i + db.len()) != DelimiterSuffix::Invalid
}

/// A delimiter followed by what a delimiter line may hold.
pub open spec fn body_candidate(buf: Seq<u8>, delimiter: Seq<u8>, i: int) -> bool {
    &&& occurs_at(buf, i, delimiter)
    &&& delimiter_suffix_of(buf, i + delimiter.len()) != DelimiterSuffix::Invalid
}

/// `i` is the first preamble candidate.
pub open spec fn is_first_preamble_candidate(buf: Seq<u8>, db: Seq<u8>, first: LineContext, i: int) -> bool {
    &&& preamble_candidate(buf, db, first, i)
    &&& forall|j: int| 0 <= j < i ==> !#[trigger] preamble_candidate(buf, db, first, j)
}

/// `i` is the first body candidate.
pub open spec fn is_first_body_candidate(buf: Seq<u8>, delimiter: Seq<u8>, i: int) -> bool {
    &&& body_candidate(buf, delimiter, i)
    &&& forall|j: int| 0 <= j < i ==> !#[trigger] body_candidate(buf, delimiter, j)
}

/// Where the first delimiter line of the preamble starts.
#[verifier::opaque]
pub open spec fn preamble_delimiter(buf: Seq<u8>, db: Seq<u8>, first: LineContext) -> Option<int> {
    if exists|i: int| is_first_preamble_candidate(buf, db, first, i) {
        Some(choose|i: int| is_first_preamble_candidate(buf, db, first, i))
    } else {
        None
    }
}

/// Where the first delimiter of the body starts.
#[verifier::opaque]
pub open spec fn body_delimiter(buf: Seq<u8>, delimiter: Seq<u8>) -> Option<int> {
    if exists|i: int| is_first_body_candidate(buf, delimiter, i) {
        Some(choose|i: int| is_first_body_candidate(buf, delimiter, i))
    } else {
        None
    }
}

/// `v` with `data` appended to the current part and reported as a body chunk, where it is not
/// empty or where it completes the part.
pub open spec fn append_body_view(v: ParserView, data: Seq<u8>, complete: bool) -> ParserView {
    ParserView {
        current_part: if v.assemble {
            Some(with_data(v.current_part.unwrap(), data))
        } else {
            v.current_part
        },
        events: if data.len() > 0 || complete {
            v.events.push(MultipartPartView::Body { data, complete })
        } else {
            v.events
        },
        ..v
    }
}

/// `v` with the current part completed by `data` and moved to the completed parts.
pub open spec fn finish_part_view(v: ParserView, data: Seq<u8>) -> ParserView {
    let w = append_body_view(v, data, true);
    ParserView { parts: w.parts.push(w.current_part.unwrap()), current_part: None, ..w }
}

/// How many bytes of a preamble buffer without a candidate delimiter can go: all but the last
/// `retained`.
pub open spec fn preamble_cut(buf: Seq<u8>, retained: int) -> int {
    if buf.len() > retained {
        buf.len() - retained
    } else {
        0
    }
}

/// One step in the preamble: the new state, and whether the parser moved on.
pub open spec fn preamble_step(v: ParserView) -> (ParserView, Result<bool, MultipartError>) {
    let buf = v.buffer;
    match preamble_delimiter(buf, v.dash_boundary, v.line_start) {
        Some(i) => match delimiter_suffix_of(buf, i + v.dash_boundary.len()) {
            DelimiterSuffix::Open(consumed) => (
                ParserView {
                    buffer: buf.skip(consumed as int),
                    state: MultipartState::Header,
                    line_start: LineContext::Start,
                    ..v
                },
                Ok(true),
            ),
            DelimiterSuffix::Close => (
                ParserView {
                    buffer: Seq::empty(),
                    state: MultipartState::End,
                    line_start: LineContext::Start,
                    ..v
                },
                Ok(true),
            ),
            DelimiterSuffix::Incomplete => (
                ParserView { buffer: buf.skip(i), line_start: LineContext::Start, ..v },
                Ok(false),
            ),
            DelimiterSuffix::BareLineFeed => (v, Err(MultipartError::InvalidDelimiterLineBreak)),
            DelimiterSuffix::Invalid => (v, Ok(false)),
        },
        None => {
            let cut = preamble_cut(buf, v.dash_boundary.len() + 1int);
            if cut > 0 {
                (
                    ParserView {
                        buffer: buf.skip(cut),
                        line_start: context_at(buf, cut, v.line_start),
                        ..v
                    },
                    Ok(false),
                )
            } else {
                (v, Ok(false))
            }
        },
    }
}

/// One step in the headers: a header line, or the empty line that starts the body.
pub open spec fn header_step(v: ParserView) -> (ParserView, Result<bool, MultipartError>) {
    let buf = v.buffer;
    match first_occurrence(buf, crlf_seq()) {
        Some(i) => {
            let line = buf.subrange(0, i);
            let w = ParserView { buffer: buf.skip(i + 2), ..v };
            if line.len() == 0 {
                match form_data_from_headers(v.headers) {
                    Ok(f) => (
                        ParserView {
                            headers: Map::empty(),
                            current_part: Some(f),
                            state: MultipartState::Body,
                            header_count: 0,
                            ..w
                        },
                        Ok(true),
                    ),
                    Err(e) => (ParserView { headers: Map::empty(), ..w }, Err(e)),
                }
            } else if v.max_header_size matches Some(m) && line.len() > m {
                (w, Err(MultipartError::HeaderTooLong))
            } else if v.max_header_count matches Some(m) && v.header_count >= m {
                (w, Err(MultipartError::TooManyHeaders))
            } else {
                match header_from_line(line) {
                    Ok((name, value)) => (
                        ParserView {
                            headers: v.headers.insert(ascii_lower(name), value),
                            events: v.events.push(MultipartPartView::Header { name, value }),
                            header_count: if v.max_header_count is Some {
                                v.header_count + 1
                            } else {
                                v.header_count
                            },
                            ..w
                        },
                        Ok(true),
                    ),
                    Err(e) => (w, Err(e)),
                }
            }
        },
        None => if buf.contains(0x0au8) {
            (v, Err(MultipartError::InvalidHeaderLineBreak))
        } else if v.max_header_size matches Some(m) && buf.len() > m + 1 {
            (v, Err(MultipartError::HeaderTooLong))
        } else {
            (v, Ok(false))
        },
    }
}

/// One step in a body: up to the next delimiter, or as much data as cannot begin one.
pub open spec fn body_step(v: ParserView) -> (ParserView, Result<bool, MultipartError>) {
    let buf = v.buffer;
    match body_delimiter(buf, v.delimiter) {
        Some(i) => match delimiter_suffix_of(buf, i + v.delimiter.len()) {
            DelimiterSuffix::Open(consumed) => (
                ParserView {
                    buffer: buf.skip(consumed as int),
                    state: MultipartState::Header,
                    ..finish_part_view(v, buf.subrange(0, i))
                },
                Ok(true),
            ),
            DelimiterSuffix::Close => (
                ParserView {
                    buffer: Seq::empty(),
                    state: MultipartState::End,
                    ..finish_part_view(v, buf.subrange(0, i))
                },
                Ok(true),
            ),
            DelimiterSuffix::Incomplete => (
                ParserView {
                    buffer: buf.skip(i),
                    ..append_body_view(v, buf.subrange(0, i), false)
                },
                Ok(false),
            ),
            DelimiterSuffix::BareLineFeed => (v, Err(MultipartError::InvalidDelimiterLineBreak)),
            DelimiterSuffix::Invalid => (v, Ok(false)),
        },
        None => {
            let retained = v.delimiter.len() - 1;
            if buf.len() > retained {
                let emitted = buf.len() - retained;
                (
                    ParserView {
                        buffer: buf.skip(emitted),
                        ..append_body_view(v, buf.subrange(0, emitted), false)
                    },
                    Ok(false),
                )
            } else {
                (v, Ok(false))
            }
        },
    }
}

/// One step of the parser in its current state.
pub open spec fn step(v: ParserView) -> (ParserView, Result<bool, MultipartError>) {
    match v.state {
        MultipartState::Preamble => preamble_step(v),
        MultipartState::Header => header_step(v),
        MultipartState::Body => body_step(v),
        MultipartState::End => (v, Ok(false)),
    }
}

/// Steps until a step makes no progress or fails, at most `fuel` times.
pub open spec fn run(v: ParserView, fuel: nat) -> (ParserView, Result<(), MultipartError>)
    decreases fuel,
{
    if fuel == 0 {
        (v, Ok(()))
    } else {
        let (w, r) = step(v);
        match r {
            Err(e) => (w, Err(e)),
            Ok(progressed) => if progressed {
                run(w, (fuel - 1) as nat)
            } else {
                (w, Ok(()))
            },
        }
    }
}

/// Feeding `data`: nothing after the end; an error where the size limit would be exceeded;
/// else the data is buffered and the parser steps as far as it can.
pub open spec fn feed_spec(v: ParserView, data: Seq<u8>) -> (ParserView, Result<(), MultipartError>) {
    if v.state == MultipartState::End {
        (v, Ok(()))
    } else if v.max_size matches Some(m) && v.size + data.len() > m {
        (v, Err(MultipartError::MaxSizeExceeded))
    } else {
        let w = ParserView { size: v.size + data.len(), buffer: v.buffer + data, ..v };
        run(w, (w.buffer.len() + 1) as nat)
    }
}


pub(crate) proof fn lemma_preamble_delimiter_some(buf: Seq<u8>, db: Seq<u8>, first: LineContext, i: int)
    requires
        is_first_preamble_candidate(buf, db, first, i),
    ensures
        preamble_delimiter(buf, db, first) == Some(i),
{
    reveal(preamble_delimiter);
    let c = choose|c: int| is_first_preamble_candidate(buf, db, first, c);
    if c < i {
        assert(!preamble_candidate(buf, db, first, c));
    } else if i < c {
        assert(!preamble_candidate(buf, db, first, i));
    }
}

proof fn lemma_preamble_delimiter_none(buf: Seq<u8>, db: Seq<u8>, first: LineContext)
    requires
        forall|i: int| !#[trigger] preamble_candidate(buf, db, first, i),
    ensures
        preamble_delimiter(buf, db, first) is None,
{
    reveal(preamble_delimiter);
}

pub(crate) proof fn lemma_body_delimiter_some(buf: Seq<u8>, delimiter: Seq<u8>, i: int)
    requires
        is_first_body_candidate(buf, delimiter, i),
    ensures
        body_delimiter(buf, delimiter) == Some(i),
{
    reveal(body_delimiter);
    let c = choose|c: int| is_first_body_candidate(buf, delimiter, c);
    if c < i {
        assert(!body_candidate(buf, delimiter, c));
    } else if i < c {
        assert(!body_candidate(buf, delimiter, i));
    }
}

proof fn lemma_body_delimiter_none(buf: Seq<u8>, delimiter: Seq<u8>)
    requires
        forall|i: int| !#[trigger] body_candidate(buf, delimiter, i),
    ensures
        body_delimiter(buf, delimiter) is None,
{
    reveal(body_delimiter);
}

pub(crate) proof fn lemma_first_occurrence_some(buf: Seq<u8>, needle: Seq<u8>, i: int)
    requires
        is_first_occurrence(buf, i, needle),
    ensures
        first_occurrence(buf, needle) == Some(i),
{
    reveal(first_occurrence);
    let c = choose|c: int| is_first_occurrence(buf, c, needle);
    if c < i {
        assert(!occurs_at(buf, c, needle));
    } else if i < c {
        assert(!occurs_at(buf, i, needle));
    }
}

/// Each step keeps the parser's invariant, whether it succeeds or fails.
pub proof fn lemma_step_wf(v: ParserView)
    requires
        parser_view_wf(v),
    ensures
        parser_view_wf(step(v).0),
{
    reveal(preamble_delimiter);
    reveal(body_delimiter);
    reveal(first_occurrence);
    let buf = v.buffer;
    match v.state {
        MultipartState::Preamble => {
            if let Some(i) = preamble_delimiter(buf, v.dash_boundary, v.line_start) {
                let c = choose|c: int| is_first_preamble_candidate(buf, v.dash_boundary, v.line_start, c);
                lemma_open_suffix_bound(buf, i + v.dash_boundary.len());
            }
        },
        MultipartState::Body => {
            if let Some(i) = body_delimiter(buf, v.delimiter) {
                let c = choose|c: int| is_first_body_candidate(buf, v.delimiter, c);
                lemma_open_suffix_bound(buf, i + v.delimiter.len());
            }
        },
        _ => {},
    }
}

/// A step that makes progress consumes input.
pub proof fn lemma_step_progress(v: ParserView)
    requires
        parser_view_wf(v),
        step(v).1 == Ok::<bool, MultipartError>(true),
    ensures
        step(v).0.buffer.len() < v.buffer.len(),
{
    reveal(preamble_delimiter);
    reveal(body_delimiter);
    reveal(first_occurrence);
    let buf = v.buffer;
    match v.state {
        MultipartState::Preamble => {
            let i = preamble_delimiter(buf, v.dash_boundary, v.line_start).unwrap();
            let c = choose|c: int| is_first_preamble_candidate(buf, v.dash_boundary, v.line_start, c);
            lemma_open_suffix_bound(buf, i + v.dash_boundary.len());
        },
        MultipartState::Header => {
            let c = choose|c: int| is_first_occurrence(buf, c, crlf_seq());
        },
        MultipartState::Body => {
            let i = body_delimiter(buf, v.delimiter).unwrap();
            let c = choose|c: int| is_first_body_candidate(buf, v.delimiter, c);
            lemma_open_suffix_bound(buf, i + v.delimiter.len());
        },
        MultipartState::End => {},
    }
}

/// The body bytes that a sequence of events reports, in order.
pub open spec fn body_data(es: Seq<MultipartPartView>) -> Seq<u8>
    decreases es.len(),
{
    if es.len() == 0 {
        Seq::empty()
    } else {
        body_data(es.drop_last()) + match es.last() {
            MultipartPartView::Body { data, .. } => data,
            MultipartPartView::Header { .. } => Seq::empty(),
        }
    }
}

/// The data of a sequence of parts, concatenated.
pub open spec fn parts_data(ps: Seq<FormDataView>) -> Seq<u8>
    decreases ps.len(),
{
    if ps.len() == 0 {
        Seq::empty()
    } else {
        parts_data(ps.drop_last()) + ps.last().data
    }
}

/// The body bytes that the events `es` report, where the parser collects body data into parts;
/// none where it does not.
pub open spec fn collected(v: ParserView, es: Seq<MultipartPartView>) -> Seq<u8> {
    if v.assemble {
        body_data(es)
    } else {
        Seq::empty()
    }
}

/// The body bytes the parser holds in parts: the completed ones, then the current one.
pub open spec fn received(v: ParserView) -> Seq<u8> {
    parts_data(v.parts) + match v.current_part {
        Some(p) => p.data,
        None => Seq::empty(),
    }
}

/// What every step keeps and how it may change the queues: the configuration and the size stay;
/// events and parts are only appended to; the body bytes that the new events report are exactly
/// the bytes added to the parts.
pub open spec fn step_relation(v: ParserView, w: ParserView) -> bool {
    &&& w.dash_boundary == v.dash_boundary
    &&& w.delimiter == v.delimiter
    &&& w.max_size == v.max_size
    &&& w.size == v.size
    &&& w.assemble == v.assemble
    &&& w.max_header_count == v.max_header_count
    &&& w.max_header_size == v.max_header_size
    &&& v.events.len() <= w.events.len()
    &&& w.events.subrange(0, v.events.len() as int) == v.events
    &&& v.parts.len() <= w.parts.len()
    &&& w.parts.subrange(0, v.parts.len() as int) == v.parts
    &&& received(w) == received(v) + collected(v, w.events.skip(v.events.len() as int))
}

proof fn lemma_body_data_concat(a: Seq<MultipartPartView>, b: Seq<MultipartPartView>)
    ensures
        body_data(a + b) == body_data(a) + body_data(b),
    decreases b.len(),
{
    if b.len() == 0 {
        assert(a + b =~= a);
    } else {
        lemma_body_data_concat(a, b.drop_last());
        assert((a + b).drop_last() =~= a + b.drop_last());
        assert((a + b).last() == b.last());
    }
}

proof fn lemma_step_relation_refl(v: ParserView)
    ensures
        step_relation(v, v),
{
    assert(v.events.skip(v.events.len() as int) =~= Seq::<MultipartPartView>::empty());
    assert(received(v) + Seq::<u8>::empty() =~= received(v));
    assert(v.events.subrange(0, v.events.len() as int) =~= v.events);
    assert(v.parts.subrange(0, v.parts.len() as int) =~= v.parts);
}

proof fn lemma_step_relation_trans(u: ParserView, v: ParserView, w: ParserView)
    requires
        step_relation(u, v),
        step_relation(v, w),
    ensures
        step_relation(u, w),
{
    let n = u.events.len() as int;
    let m = v.events.len() as int;
    assert(w.events.subrange(0, n) =~= w.events.subrange(0, m).subrange(0, n));
    assert(w.parts.subrange(0, u.parts.len() as int) =~= w.parts.subrange(
        0,
        v.parts.len() as int,
    ).subrange(0, u.parts.len() as int));
    assert(w.events.skip(n) =~= v.events.skip(n) + w.events.skip(m)) by {
        assert(v.events == w.events.subrange(0, m));
    }
    lemma_body_data_concat(v.events.skip(n), w.events.skip(m));
    if u.assemble {
        assert(received(w) =~= received(u) + body_data(w.events.skip(n)));
    } else {
        assert(received(w) =~= received(u) + Seq::<u8>::empty());
    }
}

proof fn lemma_push_event(v: ParserView, e: MultipartPartView)
    ensures
        v.events.push(e).subrange(0, v.events.len() as int) == v.events,
        body_data(v.events.push(e).skip(v.events.len() as int)) == match e {
            MultipartPartView::Body { data, .. } => data,
            MultipartPartView::Header { .. } => Seq::<u8>::empty(),
        },
{
    assert(v.events.push(e).subrange(0, v.events.len() as int) =~= v.events);
    let t = v.events.push(e).skip(v.events.len() as int);
    assert(t =~= seq![e]);
    assert(t.drop_last() =~= Seq::<MultipartPartView>::empty());
    assert(body_data(t.drop_last()) + match e {
        MultipartPartView::Body { data, .. } => data,
        MultipartPartView::Header { .. } => Seq::<u8>::empty(),
    } =~= match e {
        MultipartPartView::Body { data, .. } => data,
        MultipartPartView::Header { .. } => Seq::<u8>::empty(),
    });
}

proof fn lemma_append_body_relation(v: ParserView, data: Seq<u8>, complete: bool)
    requires
        v.current_part is Some,
    ensures
        step_relation(v, append_body_view(v, data, complete)),
{
    let w = append_body_view(v, data, complete);
    assert(w.parts.subrange(0, v.parts.len() as int) =~= v.parts);
    if data.len() > 0 || complete {
        lemma_push_event(v, MultipartPartView::Body { data, complete });
    } else {
        assert(w.events.skip(v.events.len() as int) =~= Seq::<MultipartPartView>::empty());
        assert(w.events.subrange(0, v.events.len() as int) =~= v.events);
    }
    if v.assemble {
        assert(received(w) =~= received(v) + body_data(w.events.skip(v.events.len() as int)));
    } else {
        assert(received(w) =~= received(v) + Seq::<u8>::empty());
    }
}

proof fn lemma_finish_part_relation(v: ParserView, data: Seq<u8>)
    requires
        v.current_part is Some,
    ensures
        step_relation(v, finish_part_view(v, data)),
{
    let a = append_body_view(v, data, true);
    lemma_append_body_relation(v, data, true);
    let w = finish_part_view(v, data);
    assert(w.parts.drop_last() =~= a.parts);
    assert(received(w) =~= received(a));
    assert(w.parts.subrange(0, a.parts.len() as int) =~= a.parts);
    lemma_step_relation_refl(a);
    assert(step_relation(a, w)) by {
        assert(w.events =~= a.events);
    }
    lemma_step_relation_trans(v, a, w);
}

/// Each step keeps the configuration and the size, only appends events and parts, and adds to
/// the parts exactly the body bytes that its new events report.
pub proof fn lemma_step_relation(v: ParserView)
    requires
        parser_view_wf(v),
    ensures
        step_relation(v, step(v).0),
{
    let w = step(v).0;
    let buf = v.buffer;
    lemma_step_relation_refl(v);
    match v.state {
        MultipartState::Preamble => {
            assert(received(w) == received(v));
            assert(w.events == v.events && w.parts == v.parts);
        },
        MultipartState::Header => {
            if let Some(i) = first_occurrence(buf, crlf_seq()) {
                let line = buf.subrange(0, i);
                if line.len() != 0 {
                    if let Ok((name, value)) = header_from_line(line) {
                        lemma_push_event(v, MultipartPartView::Header { name, value });
                        assert(received(w) =~= received(v) + Seq::<u8>::empty());
                    } else {
                        assert(w.events == v.events && w.parts == v.parts);
                    }
                } else {
                    if let Ok(f) = form_data_from_headers(v.headers) {
                        reveal(form_data_from_headers);
                        assert(f.data == Seq::<u8>::empty());
                        assert(w.events.skip(v.events.len() as int) =~= Seq::<MultipartPartView>::empty());
                        assert(received(w) =~= received(v) + Seq::<u8>::empty());
                    }
                    assert(w.events == v.events && w.parts == v.parts);
                }
            }
        },
        MultipartState::Body => {
            match body_delimiter(buf, v.delimiter) {
                Some(i) => match delimiter_suffix_of(buf, i + v.delimiter.len()) {
                    DelimiterSuffix::Open(_) => {
                        lemma_finish_part_relation(v, buf.subrange(0, i));
                    },
                    DelimiterSuffix::Close => {
                        lemma_finish_part_relation(v, buf.subrange(0, i));
                    },
                    DelimiterSuffix::Incomplete => {
                        lemma_append_body_relation(v, buf.subrange(0, i), false);
                    },
                    _ => {},
                },
                None => {
                    let retained = v.delimiter.len() - 1;
                    if buf.len() > retained {
                        lemma_append_body_relation(v, buf.subrange(0, buf.len() - retained), false);
                    }
                },
            }
        },
        MultipartState::End => {},
    }
}

/// A dash boundary followed by `--`: the closing delimiter line's start.
pub open spec fn close_marker(db: Seq<u8>) -> Seq<u8> {
    db + seq![0x2du8, 0x2du8]
}

/// The parser enters the end state only on a step that reads a closing delimiter at the start
/// of a line: in the preamble, the dash boundary and `--` at a line start of the buffer; in a
/// body, a line break, the dash boundary and `--`. A step never leaves the end state.
pub proof fn lemma_step_reaches_end(v: ParserView)
    requires
        parser_view_wf(v),
        step(v).0.state == MultipartState::End,
    ensures
        v.state == MultipartState::End ==> step(v).0 == v,
        v.state == MultipartState::Preamble ==> exists|i: int|
            occurs_at(v.buffer, i, close_marker(v.dash_boundary)) && starts_line(
                v.buffer,
                i,
                v.line_start,
            ),
        v.state == MultipartState::Body ==> exists|i: int|
            occurs_at(v.buffer, i, close_marker(v.delimiter)),
        v.state != MultipartState::Header,
{
    let buf = v.buffer;
    match v.state {
        MultipartState::Preamble => {
            let db = v.dash_boundary;
            reveal(preamble_delimiter);
            let i = preamble_delimiter(buf, db, v.line_start).unwrap();
            let c = choose|c: int| is_first_preamble_candidate(buf, db, v.line_start, c);
            assert(delimiter_suffix_of(buf, i + db.len()) == DelimiterSuffix::Close);
            let t = buf.skip(i + db.len());
            assert(buf.subrange(i, i + db.len() + 2) =~= buf.subrange(i, i + db.len()) + seq![
                t[0],
                t[1],
            ]);
            assert(occurs_at(buf, i, close_marker(db)));
        },
        MultipartState::Header => {
            reveal(first_occurrence);
        },
        MultipartState::Body => {
            let d = v.delimiter;
            reveal(body_delimiter);
            let i = body_delimiter(buf, d).unwrap();
            let c = choose|c: int| is_first_body_candidate(buf, d, c);
            assert(delimiter_suffix_of(buf, i + d.len()) == DelimiterSuffix::Close);
            let t = buf.skip(i + d.len());
            assert(buf.subrange(i, i + d.len() + 2) =~= buf.subrange(i, i + d.len()) + seq![
                t[0],
                t[1],
            ]);
            assert(occurs_at(buf, i, close_marker(d)));
        },
        MultipartState::End => {},
    }
}

/// Running the parser keeps its invariant and relates the end state to the start state as
/// single steps do.
pub proof fn lemma_run(v: ParserView, fuel: nat)
    requires
        parser_view_wf(v),
    ensures
        parser_view_wf(run(v, fuel).0),
        step_relation(v, run(v, fuel).0),
    decreases fuel,
{
    lemma_step_relation_refl(v);
    if fuel > 0 {
        lemma_step_wf(v);
        lemma_step_relation(v);
        let (w, r) = step(v);
        if r == Ok::<bool, MultipartError>(true) {
            lemma_run(w, (fuel - 1) as nat);
            lemma_step_relation_trans(v, w, run(w, (fuel - 1) as nat).0);
        }
    }
}

/// Feeding data after the closing delimiter changes nothing and succeeds.
pub proof fn lemma_end_is_final(v: ParserView, data: Seq<u8>)
    requires
        v.state == MultipartState::End,
    ensures
        feed_spec(v, data) == (v, Ok::<(), MultipartError>(())),
{
}

/// Feeding keeps the invariant and the configuration, counts the bytes fed, never lets the
/// count pass the limit, only appends events and parts, and adds to the parts exactly the body
/// bytes that its new events report.
pub proof fn lemma_feed(v: ParserView, data: Seq<u8>)
    requires
        parser_view_wf(v),
        v.state != MultipartState::End ==> v.buffer.len() + data.len() <= usize::MAX,
    ensures
        ({
            let (w, r) = feed_spec(v, data);
            &&& parser_view_wf(w)
            &&& w.dash_boundary == v.dash_boundary
            &&& w.delimiter == v.delimiter
            &&& w.max_size == v.max_size
            &&& (w.max_size matches Some(m) ==> w.size <= m)
            &&& w.size == if v.state == MultipartState::End || r == Err::<(), MultipartError>(
                MultipartError::MaxSizeExceeded,
            ) {
                v.size
            } else {
                v.size + data.len()
            }
            &&& (r == Err::<(), MultipartError>(MultipartError::MaxSizeExceeded) <==> (v.state
                != MultipartState::End && (v.max_size matches Some(m) && v.size + data.len() > m)))
            &&& v.events.len() <= w.events.len()
            &&& w.events.subrange(0, v.events.len() as int) == v.events
            &&& v.parts.len() <= w.parts.len()
            &&& w.parts.subrange(0, v.parts.len() as int) == v.parts
            &&& received(w) == received(v) + collected(v, w.events.skip(v.events.len() as int))
        }),
{
    lemma_step_relation_refl(v);
    if v.state != MultipartState::End && !(v.max_size matches Some(m) && v.size + data.len() > m) {
        let u = ParserView { size: v.size + data.len(), buffer: v.buffer + data, ..v };
        assert(parser_view_wf(u));
        lemma_run(u, (u.buffer.len() + 1) as nat);
        let (w, r) = run(u, (u.buffer.len() + 1) as nat);
        assert(step_relation(u, w));
        lemma_run_error_kind(u, (u.buffer.len() + 1) as nat);
        assert(w.size == u.size);
        assert(r != Err::<(), MultipartError>(MultipartError::MaxSizeExceeded));
        assert(received(u) == received(v));
        assert(w.size == v.size + data.len());
    } else {
        assert(v.events.subrange(0, v.events.len() as int) =~= v.events);
        assert(v.parts.subrange(0, v.parts.len() as int) =~= v.parts);
    }
}

/// Feeding fails for size exactly when the parser has not ended and the bytes fed so far and
/// the new ones together exceed the limit; a feed that fails so leaves the parser as it was.
pub proof fn lemma_size_error(v: ParserView, data: Seq<u8>)
    ensures
        feed_spec(v, data).1 == Err::<(), MultipartError>(MultipartError::MaxSizeExceeded) <==> (
        v.state != MultipartState::End && (v.max_size matches Some(m) && v.size + data.len() > m)),
        feed_spec(v, data).1 == Err::<(), MultipartError>(MultipartError::MaxSizeExceeded)
            ==> feed_spec(v, data).0 == v,
{
    if v.state != MultipartState::End && !(v.max_size matches Some(m) && v.size + data.len() > m) {
        let w = ParserView { size: v.size + data.len(), buffer: v.buffer + data, ..v };
        lemma_run_error_kind(w, (w.buffer.len() + 1) as nat);
    }
}

/// Steps never report that the size limit is exceeded; only feeding does.
proof fn lemma_run_error_kind(v: ParserView, fuel: nat)
    ensures
        run(v, fuel).1 != Err::<(), MultipartError>(MultipartError::MaxSizeExceeded),
    decreases fuel,
{
    if fuel > 0 {
        let (w, r) = step(v);
        assert(r != Err::<bool, MultipartError>(MultipartError::MaxSizeExceeded)) by {
            reveal(header_from_line);
            match v.state {
                MultipartState::Header => {
                    if let Some(i) = first_occurrence(v.buffer, crlf_seq()) {
                        let line = v.buffer.subrange(0, i);
                        if line.len() == 0 {
                            lemma_form_data_error_kind(v.headers);
                        }
                    }
                },
                _ => {},
            }
        }
        if r == Ok::<bool, MultipartError>(true) {
            lemma_run_error_kind(w, (fuel - 1) as nat);
        }
    }
}

proof fn lemma_form_data_error_kind(h: Map<Seq<char>, Seq<char>>)
    ensures
        form_data_from_headers(h) != Err::<FormDataView, MultipartError>(
            MultipartError::MaxSizeExceeded,
        ),
{
    reveal(form_data_from_headers);
}

/// A streaming parser of one `multipart/form-data` message.
pub struct MultipartParser {
    max_size: Option<usize>,
    state: MultipartState,
    buffer: Vec<u8>,
    dash_boundary: Vec<u8>,
    delimiter: Vec<u8>,
    size: usize,
    events: VecDeque<MultipartPart>,
    current_headers: StringMap,
    current_part: Option<FormData>,
    parts: VecDeque<FormData>,
    line_start: LineContext,
    max_header_count: Option<usize>,
    max_header_size: Option<usize>,
    header_count: usize,
    assemble: bool,
}

/// The views of a sequence of events.
pub open spec fn event_views(s: Seq<MultipartPart>) -> Seq<MultipartPartView> {
    s.map_values(|e: MultipartPart| e@)
}

/// The views of a sequence of form parts.
pub open spec fn part_views(s: Seq<FormData>) -> Seq<FormDataView> {
    s.map_values(|p: FormData| p@)
}

impl View for MultipartParser {
    type V = ParserView;

    closed spec fn view(&self) -> ParserView {
        ParserView {
            max_size: self.max_size,
            state: self.state,
            buffer: self.buffer@,
            dash_boundary: self.dash_boundary@,
            delimiter: self.delimiter@,
            size: self.size as int,
            events: event_views(self.events@),
            headers: self.current_headers@,
            current_part: match self.current_part {
                Some(p) => Some(p@),
                None => None,
            },
            parts: part_views(self.parts@),
            line_start: self.line_start,
            max_header_count: self.max_header_count,
            max_header_size: self.max_header_size,
            header_count: self.header_count as nat,
            assemble: self.assemble,
        }
    }
}

/// A fresh parser for `boundary`.
pub open spec fn initial_view(boundary: Seq<u8>, max_size: Option<usize>) -> ParserView {
    let dash_boundary = seq![0x2du8, 0x2du8] + boundary;
    ParserView {
        max_size,
        state: MultipartState::Preamble,
        buffer: Seq::empty(),
        dash_boundary,
        delimiter: crlf_seq() + dash_boundary,
        size: 0,
        events: Seq::empty(),
        headers: Map::empty(),
        current_part: None,
        parts: Seq::empty(),
        line_start: LineContext::Start,
        max_header_count: None,
        max_header_size: None,
        header_count: 0,
        assemble: false,
    }
}

fn crlf() -> (r: Vec<u8>)
    ensures
        r@ == crlf_seq(),
{
    let mut r: Vec<u8> = Vec::new();
    r.push(0x0d);
    r.push(0x0a);
    assert(r@ =~= crlf_seq());
    r
}

impl MultipartParser {
    /// The parser's invariant.
    pub open spec fn wf(&self) -> bool {
        parser_view_wf(self@)
    }

    /// A parser for the given boundary and size limit; the header charset must be `utf8`.
    pub fn new(boundary: Vec<u8>, max_size: Option<usize>, header_charset: &str) -> (r: Result<
        MultipartParser,
        MultipartError,
    >)
        ensures
            match r {
                Ok(p) => {
                    &&& 1 <= boundary@.len() <= 70
                    &&& header_charset@ == "utf8"@
                    &&& p.wf()
                    &&& p@ == initial_view(boundary@, max_size)
                },
                Err(e) => if boundary@.len() == 0 || boundary@.len() > 70 {
                    e == MultipartError::BoundaryLength
                } else {
                    header_charset@ != "utf8"@ && e == MultipartError::UnsupportedCharset
                },
            },
    {
        if boundary.len() == 0 || boundary.len() > 70 {
            return Err(MultipartError::BoundaryLength);
        }
        if !str_eq(header_charset, "utf8") {
            return Err(MultipartError::UnsupportedCharset);
        }
        let mut dash_boundary: Vec<u8> = Vec::new();
        dash_boundary.push(0x2d);
        dash_boundary.push(0x2d);
        extend_bytes(&mut dash_boundary, boundary.as_slice());
        let mut delimiter = crlf();
        extend_bytes(&mut delimiter, dash_boundary.as_slice());
        let p = MultipartParser {
            max_size,
            state: MultipartState::Preamble,
            buffer: Vec::new(),
            dash_boundary,
            delimiter,
            size: 0,
            events: VecDeque::new(),
            current_headers: StringMap::new(),
            current_part: None,
            parts: VecDeque::new(),
            line_start: LineContext::Start,
            max_header_count: None,
            max_header_size: None,
            header_count: 0,
            assemble: false,
        };
        assert(p@.dash_boundary =~= seq![0x2du8, 0x2du8] + boundary@);
        assert(p@.events =~= Seq::<MultipartPartView>::empty());
        assert(p@.parts =~= Seq::<FormDataView>::empty());
        Ok(p)
    }

    /// The parser's state.
    pub fn state(&self) -> (r: MultipartState)
        ensures
            r == self@.state,
    {
        self.state
    }

    /// Checks, once the input has ended, that the closing delimiter was read.
    pub fn finish(&self) -> (r: Result<(), MultipartError>)
        ensures
            r == (if self@.state == MultipartState::End {
                Ok::<(), MultipartError>(())
            } else {
                Err(MultipartError::IncompleteMessage)
            }),
    {
        if self.state == MultipartState::End {
            Ok(())
        } else {
            Err(MultipartError::IncompleteMessage)
        }
    }

    /// The size limit the parser was made with.
    pub fn max_size(&self) -> (r: Option<usize>)
        ensures
            r == self@.max_size,
    {
        self.max_size
    }

    /// Limits the number of header lines of each part and the length of each header line (in
    /// bytes, without its line break); `None` leaves one unlimited. Set before any input.
    pub fn set_header_limits(&mut self, max_header_count: Option<usize>, max_header_size: Option<usize>)
        requires
            old(self).wf(),
            old(self)@.state == MultipartState::Preamble,
        ensures
            final(self).wf(),
            final(self)@ == (ParserView { max_header_count, max_header_size, ..old(self)@ }),
    {
        self.max_header_count = max_header_count;
        self.max_header_size = max_header_size;
    }

    /// Whether body data is collected into the parts that `next_part` hands out. Without it the
    /// parts carry no data and the parser holds no body data beyond what may begin a delimiter;
    /// the data is only reported by body events.
    pub fn set_part_assembly(&mut self, assemble: bool)
        requires
            old(self).wf(),
        ensures
            final(self).wf(),
            final(self)@ == (ParserView { assemble, ..old(self)@ }),
    {
        self.assemble = assemble;
    }

    /// The number of bytes fed so far.
    pub fn size(&self) -> (r: usize)
        ensures
            r == self@.size,
    {
        self.size
    }

    /// Takes the oldest completed part.
    pub fn next_part(&mut self) -> (r: Option<FormData>)
        ensures
            final(self)@ == (ParserView {
                parts: if old(self)@.parts.len() > 0 {
                    old(self)@.parts.drop_first()
                } else {
                    old(self)@.parts
                },
                ..old(self)@
            }),
            match r {
                Some(p) => old(self)@.parts.len() > 0 && p@ == old(self)@.parts[0],
                None => old(self)@.parts.len() == 0,
            },
            old(self).wf() ==> final(self).wf(),
    {
        let r = self.parts.pop_front();
        assert(part_views(self.parts@) =~= if old(self)@.parts.len() > 0 {
            old(self)@.parts.drop_first()
        } else {
            old(self)@.parts
        });
        r
    }

    /// Takes the oldest event.
    pub fn next_event(&mut self) -> (r: Option<MultipartPart>)
        ensures
            final(self)@ == (ParserView {
                events: if old(self)@.events.len() > 0 {
                    old(self)@.events.drop_first()
                } else {
                    old(self)@.events
                },
                ..old(self)@
            }),
            match r {
                Some(e) => old(self)@.events.len() > 0 && e@ == old(self)@.events[0],
                None => old(self)@.events.len() == 0,
            },
            old(self).wf() ==> final(self).wf(),
    {
        let r = self.events.pop_front();
        assert(event_views(self.events@) =~= if old(self)@.events.len() > 0 {
            old(self)@.events.drop_first()
        } else {
            old(self)@.events
        });
        r
    }

    /// Feeds the next chunk of the message and parses as far as it goes.
    pub fn feed(&mut self, data: Vec<u8>) -> (r: Result<(), MultipartError>)
        requires
            old(self).wf(),
            old(self)@.state != MultipartState::End && old(self)@.max_size is None ==> old(
                self,
            )@.size + data@.len() <= usize::MAX,
        ensures
            final(self).wf(),
            final(self)@ == feed_spec(old(self)@, data@).0,
            r == feed_spec(old(self)@, data@).1,
    {
        if self.state == MultipartState::End {
            return Ok(());
        }
        if let Some(max_size) = self.max_size {
            if data.len() > max_size - self.size {
                return Err(MultipartError::MaxSizeExceeded);
            }
        }
        self.size = self.size + data.len();
        extend_bytes(&mut self.buffer, data.as_slice());
        let _ = self.buffer.len();
        let ghost w = self@;
        let ghost mut fuel: nat = (w.buffer.len() + 1) as nat;
        assert(w == (ParserView {
            size: old(self)@.size + data@.len(),
            buffer: old(self)@.buffer + data@,
            ..old(self)@
        }));
        loop
            invariant
                self.wf(),
                w == (ParserView {
                    size: old(self)@.size + data@.len(),
                    buffer: old(self)@.buffer + data@,
                    ..old(self)@
                }),
                old(self)@.state != MultipartState::End,
                !(old(self)@.max_size matches Some(m) && old(self)@.size + data@.len() > m),
                fuel > self@.buffer.len(),
                run(self@, fuel) == run(w, (w.buffer.len() + 1) as nat),
            decreases self@.buffer.len(),
        {
            let ghost before = self@;
            proof {
                lemma_step_wf(before);
            }
            let progressed = match self.state {
                MultipartState::Preamble => self.handle_preamble()?,
                MultipartState::Header => self.handle_header()?,
                MultipartState::Body => self.handle_body()?,
                MultipartState::End => false,
            };
            if !progressed {
                return Ok(());
            }
            proof {
                lemma_step_progress(before);
                fuel = (fuel - 1) as nat;
            }
        }
    }

    fn handle_preamble(&mut self) -> (r: Result<bool, MultipartError>)
        requires
            old(self).wf(),
            old(self)@.state == MultipartState::Preamble,
        ensures
            final(self)@ == preamble_step(old(self)@).0,
            r == preamble_step(old(self)@).1,
    {
        let ghost v = self@;
        let buffer_len = self.buffer.len();
        let mut search_from: usize = 0;
        loop
            invariant
                self@ == v,
                v == old(self)@,
                parser_view_wf(v),
                v.state == MultipartState::Preamble,
                search_from <= self.buffer@.len(),
                buffer_len == self.buffer@.len(),
                forall|j: int|
                    0 <= j < search_from ==> !#[trigger] preamble_candidate(v.buffer, v.dash_boundary, v.line_start, j),
            decreases self.buffer@.len() - search_from,
        {
            let found = find_from(self.buffer.as_slice(), self.dash_boundary.as_slice(), search_from);
            match found {
                None => {
                    proof {
                        assert forall|i: int| !#[trigger] preamble_candidate(v.buffer, v.dash_boundary, v.line_start, i) by {
                            if search_from <= i {
                                assert(!occurs_at(v.buffer, i, v.dash_boundary));
                            }
                        }
                        lemma_preamble_delimiter_none(v.buffer, v.dash_boundary, v.line_start);
                    }
                    let retained = self.dash_boundary.len() + 1;
                    if self.buffer.len() > retained {
                        let cut = self.buffer.len() - retained;
                        let context = if (cut >= 2 && self.buffer[cut - 2] == 0x0d
                            && self.buffer[cut - 1] == 0x0a) || (cut == 1 && self.line_start
                            == LineContext::AfterCr && self.buffer[0] == 0x0a) {
                            LineContext::Start
                        } else if self.buffer[cut - 1] == 0x0d {
                            LineContext::AfterCr
                        } else {
                            LineContext::Inside
                        };
                        self.buffer = drop_front(&self.buffer, cut);
                        self.line_start = context;
                    }
                    return Ok(false);
                },
                Some(index) => {
                    let starts_line = (index == 0 && self.line_start == LineContext::Start) || (
                    index == 1 && self.line_start == LineContext::AfterCr && self.buffer[0] == 0x0a)
                        || (index >= 2 && self.buffer[index - 2] == 0x0d && self.buffer[index - 1]
                        == 0x0a);
                    if !starts_line {
                        assert(!preamble_candidate(v.buffer, v.dash_boundary, v.line_start, index as int));
                        search_from = index + 1;
                    } else {
                        let after = index + self.dash_boundary.len();
                        let suffix = delimiter_suffix(self.buffer.as_slice(), after);
                        proof {
                            lemma_open_suffix_bound(v.buffer, after as int);
                        }
                        match suffix {
                            DelimiterSuffix::Invalid => {
                                search_from = index + 1;
                            },
                            _ => {
                                proof {
                                    assert forall|j: int| 0 <= j < index implies !#[trigger] preamble_candidate(
                                        v.buffer,
                                        v.dash_boundary,
                                        v.line_start,
                                        j,
                                    ) by {
                                        if search_from <= j {
                                            assert(!occurs_at(v.buffer, j, v.dash_boundary));
                                        }
                                    }
                                    lemma_preamble_delimiter_some(v.buffer, v.dash_boundary, v.line_start, index as int);
                                }
                                match suffix {
                                    DelimiterSuffix::Open(consumed) => {
                                        self.buffer = drop_front(&self.buffer, consumed);
                                        self.state = MultipartState::Header;
                                        self.line_start = LineContext::Start;
                                        return Ok(true);
                                    },
                                    DelimiterSuffix::Close => {
                                        self.buffer = Vec::new();
                                        self.state = MultipartState::End;
                                        self.line_start = LineContext::Start;
                                        return Ok(true);
                                    },
                                    DelimiterSuffix::Incomplete => {
                                        self.buffer = drop_front(&self.buffer, index);
                                        self.line_start = LineContext::Start;
                                        return Ok(false);
                                    },
                                    _ => {
                                        return Err(MultipartError::InvalidDelimiterLineBreak);
                                    },
                                }
                            },
                        }
                    }
                },
            }
        }
    }

    fn handle_header(&mut self) -> (r: Result<bool, MultipartError>)
        requires
            old(self).wf(),
            old(self)@.state == MultipartState::Header,
        ensures
            final(self)@ == header_step(old(self)@).0,
            r == header_step(old(self)@).1,
    {
        let ghost v = self@;
        let line_break = crlf();
        match find_subslice(self.buffer.as_slice(), line_break.as_slice()) {
            Some(index) => {
                proof {
                    lemma_first_occurrence_some(v.buffer, crlf_seq(), index as int);
                    assert(crlf_seq().len() == 2);
                    assert(line_break@.len() == 2);
                }
                let blen = self.buffer.len();
                assert(index + 2 <= blen);
                let line = copy_range(self.buffer.as_slice(), 0, index);
                self.buffer = drop_front(&self.buffer, index + 2);
                if line.len() == 0 {
                    let mut headers = StringMap::new();
                    std::mem::swap(&mut headers, &mut self.current_headers);
                    let part = FormData::from_headers(headers)?;
                    self.current_part = Some(part);
                    self.state = MultipartState::Body;
                    self.header_count = 0;
                } else {
                    if let Some(m) = self.max_header_size {
                        if line.len() > m {
                            return Err(MultipartError::HeaderTooLong);
                        }
                    }
                    if let Some(m) = self.max_header_count {
                        if self.header_count >= m {
                            return Err(MultipartError::TooManyHeaders);
                        }
                    }
                    let (name, value) = header_line(line.as_slice())?;
                    if self.max_header_count.is_some() {
                        self.header_count = self.header_count + 1;
                    }
                    let name_chars = chars_of(name.as_str());
                    let key = string_from_chars(to_ascii_lower(name_chars.as_slice()).as_slice());
                    self.current_headers.insert(key, value.clone());
                    let ghost before = self.events@;
                    self.events.push_back(MultipartPart::Header { name, value });
                    assert(event_views(self.events@) =~= event_views(before).push(
                        MultipartPartView::Header { name: name@, value: value@ },
                    ));
                }
                Ok(true)
            },
            None => {
                proof {
                    reveal(first_occurrence);
                    if exists|i: int| is_first_occurrence(v.buffer, i, crlf_seq()) {
                        let i = choose|i: int| is_first_occurrence(v.buffer, i, crlf_seq());
                        assert(occurs_at(v.buffer, i, crlf_seq()));
                    }
                }
                match find_byte(self.buffer.as_slice(), 0x0a) {
                    Some(i) => {
                        assert(v.buffer[i as int] == 0x0au8);
                        Err(MultipartError::InvalidHeaderLineBreak)
                    },
                    None => {
                        if let Some(m) = self.max_header_size {
                            if self.buffer.len() > m && self.buffer.len() - m > 1 {
                                return Err(MultipartError::HeaderTooLong);
                            }
                        }
                        Ok(false)
                    },
                }
            },
        }
    }

    fn handle_body(&mut self) -> (r: Result<bool, MultipartError>)
        requires
            old(self).wf(),
            old(self)@.state == MultipartState::Body,
        ensures
            final(self)@ == body_step(old(self)@).0,
            r == body_step(old(self)@).1,
    {
        let ghost v = self@;
        let buffer_len = self.buffer.len();
        let mut search_from: usize = 0;
        loop
            invariant
                self@ == v,
                v == old(self)@,
                parser_view_wf(v),
                v.state == MultipartState::Body,
                search_from <= self.buffer@.len(),
                buffer_len == self.buffer@.len(),
                forall|j: int|
                    0 <= j < search_from ==> !#[trigger] body_candidate(v.buffer, v.delimiter, j),
            decreases self.buffer@.len() - search_from,
        {
            let found = find_from(self.buffer.as_slice(), self.delimiter.as_slice(), search_from);
            match found {
                None => {
                    proof {
                        assert forall|i: int| !#[trigger] body_candidate(v.buffer, v.delimiter, i) by {
                            if search_from <= i {
                                assert(!occurs_at(v.buffer, i, v.delimiter));
                            }
                        }
                        lemma_body_delimiter_none(v.buffer, v.delimiter);
                    }
                    let retained = self.delimiter.len() - 1;
                    if self.buffer.len() > retained {
                        let emitted = self.buffer.len() - retained;
                        let data = copy_range(self.buffer.as_slice(), 0, emitted);
                        self.append_body(data.as_slice(), false);
                        self.buffer = drop_front(&self.buffer, emitted);
                    }
                    return Ok(false);
                },
                Some(index) => {
                    let after = index + self.delimiter.len();
                    let suffix = delimiter_suffix(self.buffer.as_slice(), after);
                    proof {
                        lemma_open_suffix_bound(v.buffer, after as int);
                    }
                    match suffix {
                        DelimiterSuffix::Invalid => {
                            proof {
                                let d = v.delimiter;
                                assert(v.buffer.subrange(index as int, index + d.len()) == d);
                                assert(d[0] == 0x0du8 && d[1] == 0x0au8);
                                assert(v.buffer[index + 1] == v.buffer.subrange(
                                    index as int,
                                    index + d.len(),
                                )[1]);
                                if occurs_at(v.buffer, index + 1, d) {
                                    assert(v.buffer[index + 1] == v.buffer.subrange(
                                        index + 1,
                                        index + 1 + d.len(),
                                    )[0]);
                                }
                                assert(!body_candidate(v.buffer, d, index + 1));
                                assert(!body_candidate(v.buffer, d, index as int));
                            }
                            search_from = index + 2;
                        },
                        _ => {
                            proof {
                                assert forall|j: int| 0 <= j < index implies !#[trigger] body_candidate(
                                    v.buffer,
                                    v.delimiter,
                                    j,
                                ) by {
                                    if search_from <= j {
                                        assert(!occurs_at(v.buffer, j, v.delimiter));
                                    }
                                }
                                lemma_body_delimiter_some(v.buffer, v.delimiter, index as int);
                            }
                            match suffix {
                                DelimiterSuffix::Open(consumed) => {
                                    let data = copy_range(self.buffer.as_slice(), 0, index);
                                    self.finish_part(data.as_slice());
                                    self.buffer = drop_front(&self.buffer, consumed);
                                    self.state = MultipartState::Header;
                                    return Ok(true);
                                },
                                DelimiterSuffix::Close => {
                                    let data = copy_range(self.buffer.as_slice(), 0, index);
                                    self.finish_part(data.as_slice());
                                    self.buffer = Vec::new();
                                    self.state = MultipartState::End;
                                    return Ok(true);
                                },
                                DelimiterSuffix::Incomplete => {
                                    let data = copy_range(self.buffer.as_slice(), 0, index);
                                    self.append_body(data.as_slice(), false);
                                    self.buffer = drop_front(&self.buffer, index);
                                    return Ok(false);
                                },
                                _ => {
                                    return Err(MultipartError::InvalidDelimiterLineBreak);
                                },
                            }
                        },
                    }
                },
            }
        }
    }

    fn append_body(&mut self, data: &[u8], complete: bool)
        requires
            old(self).current_part is Some,
        ensures
            final(self)@ == append_body_view(old(self)@, data@, complete),
    {
        if self.assemble {
            let mut part = self.current_part.take().unwrap();
            part.append_data(data);
            self.current_part = Some(part);
        }
        if data.len() > 0 || complete {
            let chunk = copy_range(data, 0, data.len());
            assert(chunk@ =~= data@);
            let ghost before = self.events@;
            self.events.push_back(MultipartPart::Body { data: chunk, complete });
            assert(event_views(self.events@) =~= event_views(before).push(
                MultipartPartView::Body { data: data@, complete },
            ));
        }
    }

    fn finish_part(&mut self, data: &[u8])
        requires
            old(self).current_part is Some,
        ensures
            final(self)@ == finish_part_view(old(self)@, data@),
    {
        self.append_body(data, true);
        let part = self.current_part.take().unwrap();
        let ghost before = self.parts@;
        self.parts.push_back(part);
        assert(part_views(self.parts@) =~= part_views(before).push(part@));
    }
}

} // verus!
