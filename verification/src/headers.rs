//! Parsing of header values with parameters, such as `Content-Type` and `Content-Disposition`.

use vstd::prelude::*;
use vstd::slice::slice_subrange;
use vstd::string::*;

use crate::string_map::StringMap;
use crate::text::{
    ascii_lower, chars_of, is_unicode_whitespace, string_from_chars, to_ascii_lower, trim, trim_chars,
    trim_end, trim_start,
};

verus! {

/// The ways in which a header value with parameters can be malformed.
#[derive(Debug, Clone, Copy, PartialEq, Eq)]
pub enum HeaderSyntaxError {
    MalformedQuotedParameter,
    MissingHeaderName,
    MissingParameterValue,
    MissingParameterKey,
}

/// The message that reports `e`.
pub open spec fn syntax_error_message(e: HeaderSyntaxError) -> Seq<char> {
    match e {
        HeaderSyntaxError::MalformedQuotedParameter => "Malformed quoted parameter"@,
        HeaderSyntaxError::MissingHeaderName => "Missing header name"@,
        HeaderSyntaxError::MissingParameterValue => "Missing parameter value"@,
        HeaderSyntaxError::MissingParameterKey => "Missing parameter key"@,
    }
}

impl HeaderSyntaxError {
    /// The message that reports this error.
    pub fn message(&self) -> (r: String)
        ensures
            r@ == syntax_error_message(*self),
    {
        match self {
            HeaderSyntaxError::MalformedQuotedParameter => String::from_str(
                "Malformed quoted parameter",
            ),
            HeaderSyntaxError::MissingHeaderName => String::from_str("Missing header name"),
            HeaderSyntaxError::MissingParameterValue => String::from_str(
                "Missing parameter value",
            ),
            HeaderSyntaxError::MissingParameterKey => String::from_str("Missing parameter key"),
        }
    }
}

/// The quoting state (inside quotes, after a backslash) after the first `n` characters of `s`.
pub open spec fn quote_state(s: Seq<char>, n: int) -> (bool, bool)
    decreases n,
{
    if n <= 0 {
        (false, false)
    } else {
        let (quoted, escaped) = quote_state(s, n - 1);
        let c = s[n - 1];
        if escaped {
            (quoted, false)
        } else if quoted && c == '\\' {
            (quoted, true)
        } else if c == '"' {
            (!quoted, false)
        } else {
            (quoted, escaped)
        }
    }
}

/// The character at `i` is a `;` outside quotes, which ends a segment.
pub open spec fn is_separator(s: Seq<char>, i: int) -> bool {
    &&& 0 <= i < s.len()
    &&& s[i] == ';'
    &&& !quote_state(s, i).0
    &&& !quote_state(s, i).1
}

/// The segments of `s[start..]`, split at the separators from index `i` on.
pub open spec fn split_segments(s: Seq<char>, i: int, start: int) -> Seq<Seq<char>>
    decreases s.len() - i,
{
    if i >= s.len() {
        seq![s.subrange(start, s.len() as int)]
    } else if is_separator(s, i) {
        seq![s.subrange(start, i)] + split_segments(s, i + 1, i + 1)
    } else {
        split_segments(s, i + 1, start)
    }
}

/// The index of the first `c` in `s` at or after `i`.
pub open spec fn find_char_from(s: Seq<char>, c: char, i: int) -> Option<int>
    decreases s.len() - i,
{
    if i < 0 || i >= s.len() {
        None
    } else if s[i] == c {
        Some(i)
    } else {
        find_char_from(s, c, i + 1)
    }
}

/// The content of a quoted string with each backslash escape replaced by the character it
/// escapes; `None` where a backslash ends the text.
pub open spec fn unescape(t: Seq<char>) -> Option<Seq<char>>
    decreases t.len(),
{
    if t.len() == 0 {
        Some(Seq::empty())
    } else if t[0] == '\\' {
        if t.len() < 2 {
            None
        } else {
            match unescape(t.skip(2)) {
                Some(r) => Some(seq![t[1]] + r),
                None => None,
            }
        }
    } else {
        match unescape(t.drop_first()) {
            Some(r) => Some(seq![t[0]] + r),
            None => None,
        }
    }
}

/// The value of a parameter as written after `=`: quoted and unescaped, or taken as it is.
pub open spec fn parameter_value(raw: Seq<char>) -> Result<Seq<char>, HeaderSyntaxError> {
    if raw.len() > 0 && raw[0] == '"' {
        if raw.len() < 2 || raw.last() != '"' {
            Err(HeaderSyntaxError::MalformedQuotedParameter)
        } else {
            match unescape(raw.subrange(1, raw.len() - 1)) {
                Some(v) => Ok(v),
                None => Err(HeaderSyntaxError::MalformedQuotedParameter),
            }
        }
    } else {
        Ok(raw)
    }
}

/// One `key=value` segment: the lower-case key and the value.
pub open spec fn parse_parameter(seg: Seq<char>) -> Result<(Seq<char>, Seq<char>), HeaderSyntaxError> {
    match find_char_from(seg, '=', 0) {
        None => Err(HeaderSyntaxError::MissingParameterValue),
        Some(eq) => {
            let key = trim(seg.subrange(0, eq));
            if key.len() == 0 {
                Err(HeaderSyntaxError::MissingParameterKey)
            } else {
                match parameter_value(trim(seg.subrange(eq + 1, seg.len() as int))) {
                    Err(e) => Err(e),
                    Ok(v) => Ok((ascii_lower(key), v)),
                }
            }
        },
    }
}

/// The parameters of the segments, in order, a later key replacing an earlier one; the first
/// malformed segment decides the error.
pub open spec fn parse_parameters(segs: Seq<Seq<char>>) -> Result<
    Map<Seq<char>, Seq<char>>,
    HeaderSyntaxError,
>
    decreases segs.len(),
{
    if segs.len() == 0 {
        Ok(Map::empty())
    } else {
        match parse_parameters(segs.drop_last()) {
            Err(e) => Err(e),
            Ok(m) => match parse_parameter(segs.last()) {
                Err(e) => Err(e),
                Ok((k, v)) => Ok(m.insert(k, v)),
            },
        }
    }
}

/// A header value such as `form-data; name="user"`: its leading value and its parameters.
pub open spec fn parse_options(s: Seq<char>) -> Result<
    (Seq<char>, Map<Seq<char>, Seq<char>>),
    HeaderSyntaxError,
> {
    let (quoted, escaped) = quote_state(s, s.len() as int);
    if quoted || escaped {
        Err(HeaderSyntaxError::MalformedQuotedParameter)
    } else {
        let segs = split_segments(s, 0, 0);
        let name = trim(segs[0]);
        if name.len() == 0 {
            Err(HeaderSyntaxError::MissingHeaderName)
        } else {
            match parse_parameters(segs.drop_first()) {
                Err(e) => Err(e),
                Ok(m) => Ok((name, m)),
            }
        }
    }
}

proof fn lemma_split_segments_nonempty(s: Seq<char>, i: int, start: int)
    ensures
        split_segments(s, i, start).len() > 0,
    decreases s.len() - i,
{
    if i < s.len() {
        lemma_split_segments_nonempty(s, i + 1, if is_separator(s, i) {
            i + 1
        } else {
            start
        });
    }
}

/// Splits `s` at the separators, and reports whether a quote is left open.
fn split_value(s: &Vec<char>) -> (r: (Vec<Vec<char>>, bool))
    ensures
        r.1 == (quote_state(s@, s@.len() as int).0 || quote_state(s@, s@.len() as int).1),
        r.0@.map_values(|v: Vec<char>| v@) == split_segments(s@, 0, 0),
{
    let mut segments: Vec<Vec<char>> = Vec::new();
    let mut current: Vec<char> = Vec::new();
    let mut quoted = false;
    let mut escaped = false;
    let mut i: usize = 0;
    let ghost mut start: int = 0;
    while i < s.len()
        invariant
            i <= s@.len(),
            0 <= start <= i,
            (quoted, escaped) == quote_state(s@, i as int),
            current@ == s@.subrange(start, i as int),
            segments@.map_values(|v: Vec<char>| v@) + split_segments(s@, i as int, start)
                == split_segments(s@, 0, 0),
        decreases s@.len() - i,
    {
        let c = s[i];
        let sep = c == ';' && !quoted && !escaped;
        if escaped {
            escaped = false;
        } else if quoted && c == '\\' {
            escaped = true;
        } else if c == '"' {
            quoted = !quoted;
        }
        if sep {
            let ghost prev = segments@.map_values(|v: Vec<char>| v@);
            segments.push(current);
            current = Vec::new();
            proof {
                assert(segments@.map_values(|v: Vec<char>| v@) =~= prev.push(s@.subrange(start, i as int)));
                start = i + 1;
            }
        } else {
            current.push(c);
        }
        i += 1;
        assert(current@ =~= s@.subrange(start, i as int));
    }
    let ghost prev = segments@.map_values(|v: Vec<char>| v@);
    segments.push(current);
    assert(segments@.map_values(|v: Vec<char>| v@) =~= prev.push(s@.subrange(start, s@.len() as int)));
    (segments, quoted || escaped)
}


/// The index of the first `c` in `s`.
fn find_char(s: &[char], c: char) -> (r: Option<usize>)
    ensures
        match r {
            Some(i) => i < s@.len() && s@[i as int] == c && find_char_from(s@, c, 0) == Some(
                i as int,
            ),
            None => find_char_from(s@, c, 0) is None,
        },
{
    let mut i: usize = 0;
    while i < s.len()
        invariant
            i <= s@.len(),
            find_char_from(s@, c, 0) == find_char_from(s@, c, i as int),
        decreases s@.len() - i,
    {
        if s[i] == c {
            return Some(i);
        }
        i += 1;
    }
    None
}

/// `t` with its backslash escapes resolved.
fn unescape_chars(t: &[char]) -> (r: Option<Vec<char>>)
    ensures
        match r {
            Some(v) => unescape(t@) == Some(v@),
            None => unescape(t@) is None,
        },
{
    let mut out: Vec<char> = Vec::new();
    let mut k: usize = 0;
    assert(t@.skip(0) =~= t@);
    while k < t.len()
        invariant
            k <= t@.len(),
            match unescape(t@.skip(k as int)) {
                Some(rest) => unescape(t@) == Some(out@ + rest),
                None => unescape(t@) is None,
            },
        decreases t@.len() - k,
    {
        let ghost tail = t@.skip(k as int);
        if t[k] == '\\' {
            if k + 1 >= t.len() {
                return None;
            }
            out.push(t[k + 1]);
            proof {
                assert(tail.skip(2) =~= t@.skip(k + 2));
                if let Some(rest) = unescape(t@.skip(k + 2)) {
                    assert(out@ + rest =~= out@.drop_last() + (seq![t@[k + 1]] + rest));
                }
            }
            k += 2;
        } else {
            out.push(t[k]);
            proof {
                assert(tail.drop_first() =~= t@.skip(k + 1));
                if let Some(rest) = unescape(t@.skip(k + 1)) {
                    assert(out@ + rest =~= out@.drop_last() + (seq![t@[k as int]] + rest));
                }
            }
            k += 1;
        }
    }
    assert(out@ + Seq::<char>::empty() =~= out@);
    Some(out)
}

/// The value written after `=` in a parameter.
fn parameter_value_chars(raw: &[char]) -> (r: Result<Vec<char>, HeaderSyntaxError>)
    ensures
        match r {
            Ok(v) => parameter_value(raw@) == Ok::<Seq<char>, HeaderSyntaxError>(v@),
            Err(e) => parameter_value(raw@) == Err::<Seq<char>, HeaderSyntaxError>(e),
        },
{
    let len = raw.len();
    if len > 0 && raw[0] == '"' {
        if len < 2 || raw[len - 1] != '"' {
            return Err(HeaderSyntaxError::MalformedQuotedParameter);
        }
        match unescape_chars(slice_subrange(raw, 1, len - 1)) {
            Some(v) => Ok(v),
            None => Err(HeaderSyntaxError::MalformedQuotedParameter),
        }
    } else {
        let mut v: Vec<char> = Vec::new();
        let mut k: usize = 0;
        while k < len
            invariant
                len == raw@.len(),
                k <= len,
                v@ == raw@.subrange(0, k as int),
            decreases len - k,
        {
            v.push(raw[k]);
            k += 1;
            assert(v@ =~= raw@.subrange(0, k as int));
        }
        assert(raw@.subrange(0, len as int) =~= raw@);
        Ok(v)
    }
}

/// One `key=value` segment, parsed.
fn parse_parameter_chars(seg: &[char]) -> (r: Result<(Vec<char>, Vec<char>), HeaderSyntaxError>)
    ensures
        match r {
            Ok((k, v)) => parse_parameter(seg@) == Ok::<(Seq<char>, Seq<char>), HeaderSyntaxError>(
                (k@, v@),
            ),
            Err(e) => parse_parameter(seg@) == Err::<(Seq<char>, Seq<char>), HeaderSyntaxError>(e),
        },
{
    let eq = match find_char(seg, '=') {
        Some(eq) => eq,
        None => return Err(HeaderSyntaxError::MissingParameterValue),
    };
    assert(eq < seg.len());
    let key = trim_chars(slice_subrange(seg, 0, eq));
    if key.len() == 0 {
        return Err(HeaderSyntaxError::MissingParameterKey);
    }
    let raw = trim_chars(slice_subrange(seg, eq + 1, seg.len()));
    let value = parameter_value_chars(raw.as_slice())?;
    Ok((to_ascii_lower(key.as_slice()), value))
}

proof fn lemma_parameters_error_prefix(segs: Seq<Seq<char>>, n: int)
    requires
        0 <= n <= segs.len(),
        parse_parameters(segs.take(n)) is Err,
    ensures
        parse_parameters(segs) == parse_parameters(segs.take(n)),
    decreases segs.len() - n,
{
    if n < segs.len() {
        assert(segs.take(n + 1).drop_last() =~= segs.take(n));
        lemma_parameters_error_prefix(segs, n + 1);
    } else {
        assert(segs.take(n) =~= segs);
    }
}

/// Parses a header value with parameters into its leading value and its parameters.
pub fn parse_options_value(value: &str) -> (r: Result<(String, StringMap), HeaderSyntaxError>)
    ensures
        match r {
            Ok((name, params)) => parse_options(value@) == Ok::<
                (Seq<char>, Map<Seq<char>, Seq<char>>),
                HeaderSyntaxError,
            >((name@, params@)),
            Err(e) => parse_options(value@) == Err::<
                (Seq<char>, Map<Seq<char>, Seq<char>>),
                HeaderSyntaxError,
            >(e),
        },
{
    let chars = chars_of(value);
    let (segments, open_quote) = split_value(&chars);
    if open_quote {
        return Err(HeaderSyntaxError::MalformedQuotedParameter);
    }
    let ghost segs = split_segments(value@, 0, 0);
    proof {
        lemma_split_segments_nonempty(value@, 0, 0);
        assert(segments@.map_values(|v: Vec<char>| v@)[0] == segments@[0]@);
    }
    let name = trim_chars(segments[0].as_slice());
    if name.len() == 0 {
        return Err(HeaderSyntaxError::MissingHeaderName);
    }
    let mut params = StringMap::new();
    let mut j: usize = 1;
    assert(segs.drop_first().take(0) =~= Seq::<Seq<char>>::empty());
    while j < segments.len()
        invariant
            1 <= j <= segments@.len(),
            segs == segments@.map_values(|v: Vec<char>| v@),
            segs == split_segments(value@, 0, 0),
            !quote_state(value@, value@.len() as int).0,
            !quote_state(value@, value@.len() as int).1,
            name@ == trim(segs[0]),
            name@.len() > 0,
            parse_parameters(segs.drop_first().take(j - 1)) == Ok::<
                Map<Seq<char>, Seq<char>>,
                HeaderSyntaxError,
            >(params@),
        decreases segments@.len() - j,
    {
        let ghost prefix = segs.drop_first().take(j - 1);
        assert(segs.drop_first().take(j as int).drop_last() =~= prefix);
        assert(segs.drop_first().take(j as int).last() == segments@[j as int]@);
        match parse_parameter_chars(segments[j].as_slice()) {
            Ok((k, v)) => {
                params.insert(string_from_chars(k.as_slice()), string_from_chars(v.as_slice()));
            },
            Err(e) => {
                proof {
                    assert(parse_parameters(segs.drop_first().take(j as int)) == Err::<
                        Map<Seq<char>, Seq<char>>,
                        HeaderSyntaxError,
                    >(e));
                    lemma_parameters_error_prefix(segs.drop_first(), j as int);
                    assert(parse_parameters(segs.drop_first()) == Err::<
                        Map<Seq<char>, Seq<char>>,
                        HeaderSyntaxError,
                    >(e));
                }
                return Err(e);
            },
        }
        j += 1;
    }
    assert(segs.drop_first().take(j - 1) =~= segs.drop_first());
    Ok((string_from_chars(name.as_slice()), params))
}

/// Parses a header value such as `form-data; name="user"` into its leading value and its
/// parameters, with lower-case parameter keys; the error is the message that reports what is
/// malformed.
pub fn parse_options_header(value: &str) -> (r: Result<(String, StringMap), String>)
    ensures
        match r {
            Ok((name, params)) => parse_options(value@) == Ok::<
                (Seq<char>, Map<Seq<char>, Seq<char>>),
                HeaderSyntaxError,
            >((name@, params@)),
            Err(m) => parse_options(value@) is Err && m@ == syntax_error_message(
                parse_options(value@)->Err_0,
            ),
        },
{
    match parse_options_value(value) {
        Ok(parsed) => Ok(parsed),
        Err(e) => Err(e.message()),
    }
}

/// Characters that are neither a quote nor a backslash leave the quoting state as it is.
pub(crate) proof fn lemma_quote_state_plain(s: Seq<char>, n: int, m: int)
    requires
        0 <= n <= m <= s.len(),
        forall|k: int| n <= k < m ==> s[k] != '"' && s[k] != '\\',
        !quote_state(s, n).1,
    ensures
        quote_state(s, m) == quote_state(s, n),
    decreases m - n,
{
    if m > n {
        lemma_quote_state_plain(s, n, m - 1);
    }
}

/// Without separators from `i` to `j`, splitting from `i` is splitting from `j`.
pub(crate) proof fn lemma_split_no_separator(s: Seq<char>, i: int, j: int, start: int)
    requires
        0 <= i <= j <= s.len(),
        forall|k: int| i <= k < j ==> !#[trigger] is_separator(s, k),
    ensures
        split_segments(s, i, start) == split_segments(s, j, start),
    decreases j - i,
{
    if i < j {
        lemma_split_no_separator(s, i + 1, j, start);
    }
}

/// Text without a backslash unescapes to itself.
pub(crate) proof fn lemma_unescape_plain(t: Seq<char>)
    requires
        forall|k: int| 0 <= k < t.len() ==> t[k] != '\\',
    ensures
        unescape(t) == Some(t),
    decreases t.len(),
{
    if t.len() > 0 {
        lemma_unescape_plain(t.drop_first());
        assert(seq![t[0]] + t.drop_first() =~= t);
    }
}

/// The first `c` at or after `i` is at `j` where none comes between.
pub(crate) proof fn lemma_find_char_at(s: Seq<char>, c: char, i: int, j: int)
    requires
        0 <= i <= j < s.len(),
        s[j] == c,
        forall|k: int| i <= k < j ==> s[k] != c,
    ensures
        find_char_from(s, c, i) == Some(j),
    decreases j - i,
{
    if i < j {
        lemma_find_char_at(s, c, i + 1, j);
    }
}

proof fn lemma_quote_state_prepend(w: char, v: Seq<char>, k: int)
    requires
        0 <= k <= v.len(),
        w != '"',
        w != '\\',
    ensures
        quote_state(seq![w] + v, k + 1) == quote_state(v, k),
    decreases k,
{
    let s = seq![w] + v;
    if k == 0 {
        assert(quote_state(s, 1) == quote_state(s, 0));
    } else {
        lemma_quote_state_prepend(w, v, k - 1);
        assert(s[k] == v[k - 1]);
    }
}

proof fn lemma_quote_state_append(w: char, v: Seq<char>, k: int)
    requires
        0 <= k <= v.len(),
    ensures
        quote_state(v + seq![w], k) == quote_state(v, k),
    decreases k,
{
    if k > 0 {
        lemma_quote_state_append(w, v, k - 1);
        assert((v + seq![w])[k - 1] == v[k - 1]);
    }
}

proof fn lemma_escaped_is_quoted(v: Seq<char>, k: int)
    ensures
        quote_state(v, k).1 ==> quote_state(v, k).0,
    decreases k,
{
    if k > 0 {
        lemma_escaped_is_quoted(v, k - 1);
    }
}

/// Splitting after a leading character: the first segment gains it, the others shift.
proof fn lemma_split_prepend(w: char, v: Seq<char>, i: int, start: int)
    requires
        0 <= start <= i <= v.len(),
        w != '"',
        w != '\\',
        w != ';',
    ensures
        start == 0 ==> split_segments(seq![w] + v, i + 1, 0) == split_segments(v, i, 0).update(
            0,
            seq![w] + split_segments(v, i, 0)[0],
        ),
        start > 0 ==> split_segments(seq![w] + v, i + 1, start + 1) == split_segments(v, i, start),
    decreases v.len() - i,
{
    let s = seq![w] + v;
    if i < v.len() {
        lemma_quote_state_prepend(w, v, i);
        assert(s[i + 1] == v[i]);
        assert(is_separator(s, i + 1) == is_separator(v, i));
    }
    if i >= v.len() {
        assert(s.subrange(start + 1, s.len() as int) =~= v.subrange(start, v.len() as int));
        assert(s.subrange(0, s.len() as int) =~= seq![w] + v.subrange(0, v.len() as int));
        assert(split_segments(s, i + 1, 0) =~= split_segments(v, i, 0).update(
            0,
            seq![w] + split_segments(v, i, 0)[0],
        ));
    } else if is_separator(v, i) {
        lemma_split_prepend(w, v, i + 1, i + 1);
        assert(s.subrange(start + 1, i + 1) =~= v.subrange(start, i));
        assert(s.subrange(0, i + 1) =~= seq![w] + v.subrange(0, i));
        assert(split_segments(s, i + 1, 0) =~= split_segments(v, i, 0).update(
            0,
            seq![w] + split_segments(v, i, 0)[0],
        ));
    } else {
        lemma_split_prepend(w, v, i + 1, start);
    }
}

/// Splitting with a trailing character that is no separator: the last segment gains it.
proof fn lemma_split_append(w: char, v: Seq<char>, i: int, start: int)
    requires
        0 <= start <= i <= v.len(),
        w != ';',
    ensures
        split_segments(v + seq![w], i, start).len() == split_segments(v, i, start).len(),
        split_segments(v + seq![w], i, start) == split_segments(v, i, start).update(
            split_segments(v, i, start).len() - 1,
            split_segments(v, i, start).last() + seq![w],
        ),
    decreases v.len() + 1 - i,
{
    let s = v + seq![w];
    lemma_split_segments_nonempty(v, i, start);
    if i < v.len() {
        lemma_quote_state_append(w, v, i);
        assert(s[i] == v[i]);
        assert(is_separator(s, i) == is_separator(v, i));
        if is_separator(v, i) {
            lemma_split_append(w, v, i + 1, i + 1);
            lemma_split_segments_nonempty(v, i + 1, i + 1);
            assert(s.subrange(start, i) =~= v.subrange(start, i));
            assert(split_segments(s, i, start) =~= split_segments(v, i, start).update(
                split_segments(v, i, start).len() - 1,
                split_segments(v, i, start).last() + seq![w],
            ));
        } else {
            lemma_split_append(w, v, i + 1, start);
        }
    } else {
        assert(!is_separator(s, i));
        assert(split_segments(s, i, start) == split_segments(s, i + 1, start));
        assert(split_segments(v, i, start) == seq![v.subrange(start, v.len() as int)]);
        assert(s.subrange(start, s.len() as int) =~= v.subrange(start, v.len() as int) + seq![w]);
        assert(split_segments(s, i, start) =~= split_segments(v, i, start).update(
            split_segments(v, i, start).len() - 1,
            split_segments(v, i, start).last() + seq![w],
        ));
    }
}

proof fn lemma_trim_start_append(x: Seq<char>, w: char)
    requires
        is_unicode_whitespace(w),
    ensures
        trim_start(x + seq![w]) == if trim_start(x).len() == 0 {
            Seq::<char>::empty()
        } else {
            trim_start(x) + seq![w]
        },
    decreases x.len(),
{
    if x.len() == 0 {
        assert(seq![w].drop_first() =~= Seq::<char>::empty());
        assert(x + seq![w] =~= seq![w]);
        assert(trim_start(seq![w]) == trim_start(seq![w].drop_first()));
        assert(trim_start(Seq::<char>::empty()) =~= Seq::<char>::empty());
    } else {
        assert((x + seq![w])[0] == x[0]);
        assert((x + seq![w]).drop_first() =~= x.drop_first() + seq![w]);
        if is_unicode_whitespace(x[0]) {
            lemma_trim_start_append(x.drop_first(), w);
            assert(trim_start(x + seq![w]) == trim_start(x.drop_first() + seq![w]));
            assert(trim_start(x) == trim_start(x.drop_first()));
        } else {
            assert(trim_start(x + seq![w]) == x + seq![w]);
            assert(trim_start(x) == x);
        }
    }
}

/// Trailing whitespace does not change a trimmed text.
pub(crate) proof fn lemma_trim_append(x: Seq<char>, w: char)
    requires
        is_unicode_whitespace(w),
    ensures
        trim(x + seq![w]) == trim(x),
{
    lemma_trim_start_append(x, w);
    let t = trim_start(x);
    if t.len() > 0 {
        assert((t + seq![w]).drop_last() =~= t);
    }
}

/// Leading whitespace does not change a trimmed text.
pub(crate) proof fn lemma_trim_prepend(x: Seq<char>, w: char)
    requires
        is_unicode_whitespace(w),
    ensures
        trim(seq![w] + x) == trim(x),
{
    assert((seq![w] + x).drop_first() =~= x);
}

proof fn lemma_find_char_append(x: Seq<char>, c: char, w: char, i: int)
    requires
        0 <= i,
        w != c,
    ensures
        find_char_from(x + seq![w], c, i) == find_char_from(x, c, i),
    decreases x.len() + 1 - i,
{
    if i < x.len() {
        assert((x + seq![w])[i] == x[i]);
        lemma_find_char_append(x, c, w, i + 1);
    } else if i == x.len() {
        assert((x + seq![w])[i] == w);
        assert(find_char_from(x + seq![w], c, i + 1) is None);
    }
}

proof fn lemma_parameter_append(x: Seq<char>, w: char)
    requires
        is_unicode_whitespace(w),
    ensures
        parse_parameter(x + seq![w]) == parse_parameter(x),
{
    assert(w != '=');
    lemma_find_char_append(x, '=', w, 0);
    if let Some(eq) = find_char_from(x, '=', 0) {
        lemma_find_char_from_bound(x, '=', 0);
        assert((x + seq![w]).subrange(0, eq) =~= x.subrange(0, eq));
        assert((x + seq![w]).subrange(eq + 1, x.len() + 1int) =~= x.subrange(eq + 1, x.len() as int)
            + seq![w]);
        lemma_trim_append(x.subrange(eq + 1, x.len() as int), w);
    }
}

proof fn lemma_find_char_from_bound(s: Seq<char>, c: char, i: int)
    ensures
        find_char_from(s, c, i) matches Some(j) ==> i <= j < s.len() && s[j] == c,
    decreases s.len() - i,
{
    if 0 <= i < s.len() && s[i] != c {
        lemma_find_char_from_bound(s, c, i + 1);
    }
}

/// Whitespace before or after a header value does not change how it parses.
pub proof fn lemma_parse_options_outer_whitespace(v: Seq<char>, w: char)
    requires
        is_unicode_whitespace(w),
    ensures
        parse_options(seq![w] + v) == parse_options(v),
        parse_options(v + seq![w]) == parse_options(v),
{
    assert(w != '"' && w != '\\' && w != ';' && w != '=');
    let n = v.len() as int;
    // leading
    let s1 = seq![w] + v;
    lemma_quote_state_prepend(w, v, n);
    assert(s1.len() == n + 1);
    if !quote_state(v, n).0 && !quote_state(v, n).1 {
        lemma_split_prepend(w, v, 0, 0);
        assert(split_segments(s1, 0, 0) == split_segments(s1, 1, 0)) by {
            assert(!is_separator(s1, 0)) by {
                assert(quote_state(s1, 0) == (false, false));
            }
        }
        lemma_split_segments_nonempty(v, 0, 0);
        let segs = split_segments(v, 0, 0);
        lemma_trim_prepend(segs[0], w);
        assert(split_segments(s1, 0, 0).drop_first() =~= segs.drop_first());
    }
    // trailing
    let s2 = v + seq![w];
    lemma_quote_state_append(w, v, n);
    lemma_escaped_is_quoted(v, n);
    assert(s2[n] == w);
    if !quote_state(v, n).0 && !quote_state(v, n).1 {
        assert(quote_state(s2, n + 1) == (false, false));
        lemma_split_append(w, v, 0, 0);
        lemma_split_segments_nonempty(v, 0, 0);
        let segs = split_segments(v, 0, 0);
        let segs2 = split_segments(s2, 0, 0);
        if segs.len() == 1 {
            lemma_trim_append(segs[0], w);
            assert(segs2.drop_first() =~= segs.drop_first());
        } else {
            assert(segs2[0] == segs[0]);
            let ps = segs.drop_first();
            let ps2 = segs2.drop_first();
            assert(ps2.drop_last() =~= ps.drop_last());
            assert(ps2.last() == ps.last() + seq![w]);
            lemma_parameter_append(ps.last(), w);
            assert(parse_parameters(ps2) == parse_parameters(ps));
        }
    } else {
        assert(quote_state(s2, n + 1).0);
    }
}

proof fn lemma_quote_state_after_separator(a: Seq<char>, b: Seq<char>, k: int)
    requires
        0 <= k <= b.len(),
        quote_state(a, a.len() as int) == (false, false),
    ensures
        quote_state(a + seq![';'] + b, a.len() + 1 + k) == quote_state(b, k),
    decreases k,
{
    let s = a + seq![';'] + b;
    let n = a.len() as int;
    if k == 0 {
        lemma_quote_state_append(';', a, n);
        assert(a + seq![';'] + b =~= (a + seq![';']) + b);
        lemma_quote_state_append_seq(a + seq![';'], b, n + 1);
        lemma_quote_state_append_seq(a, seq![';'], n);
    } else {
        lemma_quote_state_after_separator(a, b, k - 1);
        assert(s[n + k] == b[k - 1]);
    }
}

proof fn lemma_quote_state_append_seq(a: Seq<char>, b: Seq<char>, k: int)
    requires
        0 <= k <= a.len(),
    ensures
        quote_state(a + b, k) == quote_state(a, k),
    decreases k,
{
    if k > 0 {
        lemma_quote_state_append_seq(a, b, k - 1);
        assert((a + b)[k - 1] == a[k - 1]);
    }
}

proof fn lemma_split_concat_prefix(a: Seq<char>, b: Seq<char>, i: int, start: int)
    requires
        0 <= start <= i <= a.len(),
        quote_state(a, a.len() as int) == (false, false),
    ensures
        split_segments(a + seq![';'] + b, i, start) == split_segments(a, i, start)
            + split_segments(a + seq![';'] + b, a.len() + 1int, a.len() + 1int),
    decreases a.len() - i,
{
    let s = a + seq![';'] + b;
    let n = a.len() as int;
    lemma_quote_state_append_seq(a, seq![';'] + b, i);
    assert(a + seq![';'] + b =~= a + (seq![';'] + b));
    if i == n {
        assert(s[n] == ';');
        assert(is_separator(s, n));
        assert(s.subrange(start, n) =~= a.subrange(start, n));
    } else {
        assert(s[i] == a[i]);
        assert(is_separator(s, i) == is_separator(a, i));
        if is_separator(a, i) {
            lemma_split_concat_prefix(a, b, i + 1, i + 1);
            assert(s.subrange(start, i) =~= a.subrange(start, i));
        } else {
            lemma_split_concat_prefix(a, b, i + 1, start);
        }
    }
}

proof fn lemma_split_concat_suffix(a: Seq<char>, b: Seq<char>, i: int, start: int)
    requires
        0 <= start <= i <= b.len(),
        quote_state(a, a.len() as int) == (false, false),
    ensures
        split_segments(a + seq![';'] + b, a.len() + 1int + i, a.len() + 1int + start) == split_segments(
            b,
            i,
            start,
        ),
    decreases b.len() - i,
{
    let s = a + seq![';'] + b;
    let n = a.len() as int;
    if i < b.len() {
        lemma_quote_state_after_separator(a, b, i);
        assert(s[n + 1 + i] == b[i]);
        assert(is_separator(s, n + 1 + i) == is_separator(b, i));
        if is_separator(b, i) {
            lemma_split_concat_suffix(a, b, i + 1, i + 1);
            assert(s.subrange(n + 1 + start, n + 1 + i) =~= b.subrange(start, i));
        } else {
            lemma_split_concat_suffix(a, b, i + 1, start);
        }
    } else {
        assert(s.subrange(n + 1 + start, s.len() as int) =~= b.subrange(start, b.len() as int));
    }
}

/// The segments of `a; b`, where the `;` is outside quotes, are those of `a` then those of `b`.
proof fn lemma_split_concat(a: Seq<char>, b: Seq<char>)
    requires
        quote_state(a, a.len() as int) == (false, false),
    ensures
        split_segments(a + seq![';'] + b, 0, 0) == split_segments(a, 0, 0) + split_segments(b, 0, 0),
{
    lemma_split_concat_prefix(a, b, 0, 0);
    lemma_split_concat_suffix(a, b, 0, 0);
}

proof fn lemma_parameter_prepend(x: Seq<char>, w: char)
    requires
        is_unicode_whitespace(w),
    ensures
        parse_parameter(seq![w] + x) == parse_parameter(x),
{
    let y = seq![w] + x;
    assert(w != '=');
    assert(find_char_from(y, '=', 0) == find_char_from(y, '=', 1));
    lemma_find_char_shift(x, w, '=', 0);
    if let Some(eq) = find_char_from(x, '=', 0) {
        lemma_find_char_from_bound(x, '=', 0);
        assert(y.subrange(0, eq + 1) =~= seq![w] + x.subrange(0, eq));
        lemma_trim_prepend(x.subrange(0, eq), w);
        assert(y.subrange(eq + 2, y.len() as int) =~= x.subrange(eq + 1, x.len() as int));
    }
}

proof fn lemma_find_char_shift(x: Seq<char>, w: char, c: char, i: int)
    requires
        0 <= i,
    ensures
        find_char_from(seq![w] + x, c, i + 1) == match find_char_from(x, c, i) {
            Some(j) => Some(j + 1),
            None => None::<int>,
        },
    decreases x.len() - i,
{
    if i < x.len() {
        assert((seq![w] + x)[i + 1] == x[i]);
        lemma_find_char_shift(x, w, c, i + 1);
    }
}

proof fn lemma_parameters_update(xs: Seq<Seq<char>>, t: int, y: Seq<char>)
    requires
        0 <= t < xs.len(),
        parse_parameter(y) == parse_parameter(xs[t]),
    ensures
        parse_parameters(xs.update(t, y)) == parse_parameters(xs),
    decreases xs.len(),
{
    let ys = xs.update(t, y);
    if t < xs.len() - 1 {
        assert(ys.drop_last() =~= xs.drop_last().update(t, y));
        lemma_parameters_update(xs.drop_last(), t, y);
        assert(ys.last() == xs.last());
    } else {
        assert(ys.drop_last() =~= xs.drop_last());
        assert(ys.last() == y);
    }
}

/// A header value with a whitespace character inserted right before or right after one of its
/// `;` separators parses as the value does.
pub proof fn lemma_parse_options_separator_whitespace(a: Seq<char>, b: Seq<char>, w: char)
    requires
        is_unicode_whitespace(w),
        quote_state(a, a.len() as int) == (false, false),
    ensures
        parse_options(a + seq![w] + seq![';'] + b) == parse_options(a + seq![';'] + b),
        parse_options(a + seq![';'] + seq![w] + b) == parse_options(a + seq![';'] + b),
{
    assert(w != '"' && w != '\\' && w != ';' && w != '=');
    let v = a + seq![';'] + b;
    let n = v.len() as int;
    let na = a.len() as int;
    lemma_split_concat(a, b);
    lemma_split_segments_nonempty(a, 0, 0);
    lemma_split_segments_nonempty(b, 0, 0);
    let sa = split_segments(a, 0, 0);
    let sb = split_segments(b, 0, 0);
    let segs = sa + sb;
    lemma_quote_state_after_separator(a, b, b.len() as int);
    assert(quote_state(v, n) == quote_state(b, b.len() as int));
    // before the separator
    let a2 = a + seq![w];
    let v2 = a2 + seq![';'] + b;
    assert(a + seq![w] + seq![';'] + b =~= v2);
    lemma_quote_state_append(w, a, na);
    assert(quote_state(a2, na + 1) == (false, false));
    lemma_split_concat(a2, b);
    lemma_split_append(w, a, 0, 0);
    lemma_quote_state_after_separator(a2, b, b.len() as int);
    let segs2 = split_segments(a2, 0, 0) + sb;
    assert(segs2 =~= segs.update(sa.len() - 1, sa.last() + seq![w]));
    if sa.len() == 1 {
        lemma_trim_append(sa[0], w);
        assert(segs2.drop_first() =~= segs.drop_first());
    } else {
        assert(segs2[0] == segs[0]);
        lemma_parameter_append(sa.last(), w);
        assert(segs2.drop_first() =~= segs.drop_first().update(sa.len() - 2, sa.last() + seq![w]));
        lemma_parameters_update(segs.drop_first(), sa.len() - 2, sa.last() + seq![w]);
    }
    // after the separator
    let b3 = seq![w] + b;
    let v3 = a + seq![';'] + b3;
    assert(a + seq![';'] + seq![w] + b =~= v3);
    lemma_split_concat(a, b3);
    lemma_split_prepend(w, b, 0, 0);
    assert(split_segments(b3, 0, 0) == split_segments(b3, 1, 0)) by {
        assert(quote_state(b3, 0) == (false, false));
        assert(!is_separator(b3, 0));
    }
    lemma_quote_state_after_separator(a, b3, b3.len() as int);
    lemma_quote_state_prepend(w, b, b.len() as int);
    let segs3 = sa + split_segments(b3, 0, 0);
    assert(segs3 =~= segs.update(sa.len() as int, seq![w] + sb[0]));
    assert(segs3[0] == segs[0]);
    lemma_parameter_prepend(sb[0], w);
    assert(segs3.drop_first() =~= segs.drop_first().update(sa.len() - 1, seq![w] + sb[0]));
    lemma_parameters_update(segs.drop_first(), sa.len() - 1, seq![w] + sb[0]);
}

/// Text after two prefixes that end in the same quoting state is read in the same states.
proof fn lemma_quote_state_same_prefix(x: Seq<char>, y: Seq<char>, c: Seq<char>, j: int)
    requires
        0 <= j <= c.len(),
        quote_state(x, x.len() as int) == quote_state(y, y.len() as int),
    ensures
        quote_state(x + c, x.len() + j) == quote_state(y + c, y.len() + j),
    decreases j,
{
    if j == 0 {
        lemma_quote_state_append_seq(x, c, x.len() as int);
        lemma_quote_state_append_seq(y, c, y.len() as int);
    } else {
        lemma_quote_state_same_prefix(x, y, c, j - 1);
        assert((x + c)[x.len() + j - 1] == c[j - 1]);
        assert((y + c)[y.len() + j - 1] == c[j - 1]);
    }
}

/// `x` with `w` inserted at index `p`.
pub open spec fn insert_at(x: Seq<char>, p: int, w: char) -> Seq<char> {
    x.subrange(0, p) + seq![w] + x.skip(p)
}

/// Inserting a character that is neither a quote nor a backslash changes the quoting state of
/// no later position, where it does not take the place of an escaped quote, backslash or `;`.
proof fn lemma_quote_state_insert(x: Seq<char>, p: int, w: char, j: int)
    requires
        0 <= p <= x.len(),
        0 <= j <= x.len(),
        w != '"',
        w != '\\',
        quote_state(x, p).1 ==> p < x.len() && x[p] != '"' && x[p] != '\\',
    ensures
        j <= p ==> quote_state(insert_at(x, p, w), j) == quote_state(x, j),
        j > p ==> quote_state(insert_at(x, p, w), j + 1) == quote_state(x, j),
    decreases j,
{
    let y = insert_at(x, p, w);
    if j > 0 {
        lemma_quote_state_insert(x, p, w, j - 1);
        if j <= p {
            assert(y[j - 1] == x[j - 1]);
        } else if j == p + 1 {
            assert(y[p] == w);
            assert(y[p + 1] == x[p]);
            assert(quote_state(y, p) == quote_state(x, p));
            assert(quote_state(y, p + 1) == (quote_state(x, p).0, false));
            assert(quote_state(y, p + 2) == quote_state(x, p + 1));
        } else {
            assert(y[j] == x[j - 1]);
        }
    }
}

/// A parameter `key=value` with whitespace inserted right before or right after its first `=`
/// splits and parses as it does without it, and ends in the same quoting state.
proof fn lemma_parameter_equals_whitespace(k: Seq<char>, r: Seq<char>, w: char)
    requires
        is_unicode_whitespace(w),
        forall|i: int| 0 <= i < k.len() ==> #[trigger] k[i] != '=',
        forall|i: int| !#[trigger] is_separator(k + seq!['='] + r, i),
    ensures
        split_segments(k + seq![w] + seq!['='] + r, 0, 0) == seq![k + seq![w] + seq!['='] + r],
        split_segments(k + seq!['='] + seq![w] + r, 0, 0) == seq![k + seq!['='] + seq![w] + r],
        parse_parameter(k + seq![w] + seq!['='] + r) == parse_parameter(k + seq!['='] + r),
        parse_parameter(k + seq!['='] + seq![w] + r) == parse_parameter(k + seq!['='] + r),
        quote_state(k + seq![w] + seq!['='] + r, k.len() + 2int + r.len()) == quote_state(
            k + seq!['='] + r,
            k.len() + 1int + r.len(),
        ),
        quote_state(k + seq!['='] + seq![w] + r, k.len() + 2int + r.len()) == quote_state(
            k + seq!['='] + r,
            k.len() + 1int + r.len(),
        ),
{
    assert(w != '"' && w != '\\' && w != ';' && w != '=');
    let nk = k.len() as int;
    let seg = k + seq!['='] + r;
    let n = seg.len() as int;
    let s1 = insert_at(seg, nk, w);
    let s2 = insert_at(seg, nk + 1, w);
    assert(k + seq![w] + seq!['='] + r =~= s1);
    assert(k + seq!['='] + seq![w] + r =~= s2);
    assert(seg[nk] == '=');
    // after the `=` nothing is escaped
    assert(!quote_state(seg, nk + 1).1);
    assert forall|p: int, j: int| (p == nk || p == nk + 1) && 0 <= j <= n implies {
        &&& j <= p ==> quote_state(insert_at(seg, p, w), j) == quote_state(seg, j)
        &&& j > p ==> quote_state(insert_at(seg, p, w), j + 1) == quote_state(seg, j)
    } by {
        lemma_quote_state_insert(seg, p, w, j);
    }
    assert forall|p: int, i: int|
        (p == nk || p == nk + 1) && 0 <= i < n + 1 implies !#[trigger] is_separator(
        insert_at(seg, p, w),
        i,
    ) by {
        let y = insert_at(seg, p, w);
        if i < p {
            assert(y[i] == seg[i]);
            assert(quote_state(y, i) == quote_state(seg, i));
            assert(!is_separator(seg, i));
        } else if i == p {
            assert(y[i] == w);
        } else {
            assert(y[i] == seg[i - 1]);
            if i - 1 == p {
                assert(seg[p] != ';' || !quote_state(seg, p).1);
                assert(quote_state(y, i).0 == quote_state(seg, i - 1).0) by {
                    lemma_quote_state_insert(seg, p, w, p);
                }
                if !quote_state(seg, i - 1).1 {
                    assert(quote_state(y, i) == quote_state(seg, i - 1));
                }
            } else {
                assert(quote_state(y, i) == quote_state(seg, i - 1));
            }
            assert(!is_separator(seg, i - 1));
        }
    }
    assert forall|i: int| 0 <= i < s1.len() implies !#[trigger] is_separator(s1, i) by {
        assert(!is_separator(insert_at(seg, nk, w), i));
    }
    assert forall|i: int| 0 <= i < s2.len() implies !#[trigger] is_separator(s2, i) by {
        assert(!is_separator(insert_at(seg, nk + 1, w), i));
    }
    lemma_split_no_separator(s1, 0, s1.len() as int, 0);
    lemma_split_no_separator(s2, 0, s2.len() as int, 0);
    assert(s1.subrange(0, s1.len() as int) =~= s1);
    assert(s2.subrange(0, s2.len() as int) =~= s2);
    assert(quote_state(s1, n + 1) == quote_state(seg, n));
    assert(quote_state(s2, n + 1) == quote_state(seg, n));
    // the first `=`
    assert forall|i: int| 0 <= i < nk implies seg[i] != '=' && s1[i] != '=' && s2[i] != '=' by {
        assert(seg[i] == k[i] && s1[i] == k[i] && s2[i] == k[i]);
    }
    assert(s1[nk] == w);
    assert(s1[nk + 1] == '=');
    assert(s2[nk] == '=');
    lemma_find_char_at(seg, '=', 0, nk);
    lemma_find_char_at(s1, '=', 0, nk + 1);
    lemma_find_char_at(s2, '=', 0, nk);
    assert(s1.subrange(0, nk + 1) =~= k + seq![w]);
    assert(seg.subrange(0, nk) =~= k);
    assert(s2.subrange(0, nk) =~= k);
    lemma_trim_append(k, w);
    assert(s1.subrange(nk + 2, s1.len() as int) =~= r);
    assert(seg.subrange(nk + 1, seg.len() as int) =~= r);
    assert(s2.subrange(nk + 1, s2.len() as int) =~= seq![w] + r);
    lemma_trim_prepend(r, w);
}

/// A value whose parameter segment `seg` is replaced by `seg2`, which splits as one segment,
/// ends in the same quoting state and parses to the same parameter, parses as the value does.
proof fn lemma_parse_options_replace_segment(
    a: Seq<char>,
    seg: Seq<char>,
    seg2: Seq<char>,
    c: Seq<char>,
)
    requires
        quote_state(a, a.len() as int) == (false, false),
        split_segments(seg, 0, 0) == seq![seg],
        split_segments(seg2, 0, 0) == seq![seg2],
        quote_state(seg2, seg2.len() as int) == quote_state(seg, seg.len() as int),
        parse_parameter(seg2) == parse_parameter(seg),
        c.len() == 0 || (c[0] == ';' && quote_state(seg, seg.len() as int) == (false, false)),
    ensures
        parse_options(a + seq![';'] + seg2 + c) == parse_options(a + seq![';'] + seg + c),
{
    let b = seg + c;
    let b2 = seg2 + c;
    let v = a + seq![';'] + b;
    let v2 = a + seq![';'] + b2;
    assert(a + seq![';'] + seg + c =~= v);
    assert(a + seq![';'] + seg2 + c =~= v2);
    lemma_split_concat(a, b);
    lemma_split_concat(a, b2);
    lemma_split_segments_nonempty(a, 0, 0);
    let sa = split_segments(a, 0, 0);
    if c.len() == 0 {
        assert(b =~= seg);
        assert(b2 =~= seg2);
        assert(split_segments(b, 0, 0) == seq![seg]);
        assert(split_segments(b2, 0, 0) == seq![seg2]);
    } else {
        let c2 = c.drop_first();
        assert(b =~= seg + seq![';'] + c2);
        assert(b2 =~= seg2 + seq![';'] + c2);
        lemma_split_concat(seg, c2);
        lemma_split_concat(seg2, c2);
    }
    let rest = if c.len() == 0 {
        Seq::<Seq<char>>::empty()
    } else {
        split_segments(c.drop_first(), 0, 0)
    };
    assert(split_segments(b, 0, 0) =~= seq![seg] + rest);
    assert(split_segments(b2, 0, 0) =~= seq![seg2] + rest);
    let segs = split_segments(v, 0, 0);
    let segs2 = split_segments(v2, 0, 0);
    assert(segs2 =~= segs.update(sa.len() as int, seg2));
    assert(segs2[0] == segs[0]);
    assert(segs2.drop_first() =~= segs.drop_first().update(sa.len() - 1, seg2));
    lemma_parameters_update(segs.drop_first(), sa.len() - 1, seg2);
    lemma_quote_state_after_separator(a, b, b.len() as int);
    lemma_quote_state_after_separator(a, b2, b2.len() as int);
    lemma_quote_state_same_prefix(seg2, seg, c, c.len() as int);
}

/// A header value with whitespace inserted right before or right after the first `=` of one of
/// its parameter segments parses as the value does. The segment `key=value` follows a `;`
/// outside quotes and is followed by the end of the value or by the next such `;`.
pub proof fn lemma_parse_options_equals_whitespace(
    a: Seq<char>,
    k: Seq<char>,
    r: Seq<char>,
    c: Seq<char>,
    w: char,
)
    requires
        is_unicode_whitespace(w),
        quote_state(a, a.len() as int) == (false, false),
        forall|i: int| 0 <= i < k.len() ==> #[trigger] k[i] != '=',
        forall|i: int| !#[trigger] is_separator(k + seq!['='] + r, i),
        c.len() == 0 || (c[0] == ';' && quote_state(k + seq!['='] + r, k.len() + 1int + r.len())
            == (false, false)),
    ensures
        parse_options(a + seq![';'] + (k + seq![w] + seq!['='] + r) + c) == parse_options(
            a + seq![';'] + (k + seq!['='] + r) + c,
        ),
        parse_options(a + seq![';'] + (k + seq!['='] + seq![w] + r) + c) == parse_options(
            a + seq![';'] + (k + seq!['='] + r) + c,
        ),
{
    let seg = k + seq!['='] + r;
    lemma_parameter_equals_whitespace(k, r, w);
    lemma_split_no_separator(seg, 0, seg.len() as int, 0);
    assert(seg.subrange(0, seg.len() as int) =~= seg);
    assert(split_segments(seg, 0, 0) == seq![seg]);
    lemma_parse_options_replace_segment(a, seg, k + seq![w] + seq!['='] + r, c);
    lemma_parse_options_replace_segment(a, seg, k + seq!['='] + seq![w] + r, c);
}

} // verus!
