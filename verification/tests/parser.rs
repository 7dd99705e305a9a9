use rust_multipart::{FormData, MultipartError, MultipartParser, MultipartPart, MultipartState};

/// A parser that collects body data into the parts it hands out.
fn parser(boundary: &str) -> MultipartParser {
    let mut p = MultipartParser::new(boundary.as_bytes().to_vec(), None, "utf8").unwrap();
    p.set_part_assembly(true);
    p
}

fn events(p: &mut MultipartParser) -> Vec<MultipartPart> {
    let mut out = Vec::new();
    while let Some(e) = p.next_event() {
        out.push(e);
    }
    out
}

fn parts(p: &mut MultipartParser) -> Vec<FormData> {
    let mut out = Vec::new();
    while let Some(part) = p.next_part() {
        out.push(part);
    }
    out
}

fn header(e: &MultipartPart) -> (String, String) {
    match e {
        MultipartPart::Header { name, value } => (name.clone(), value.clone()),
        other => panic!("expected a header, got {:?}", other),
    }
}

fn body(e: &MultipartPart) -> (Vec<u8>, bool) {
    match e {
        MultipartPart::Body { data, complete } => (data.clone(), *complete),
        other => panic!("expected a body chunk, got {:?}", other),
    }
}

const MESSAGE: &[u8] =
    b"--boundary\r\nContent-Disposition: form-data; name=\"user\"\r\n\r\nPotato\r\n--boundary--\r\n";

#[test]
fn parses_readme_message() {
    let mut p = parser("boundary");
    assert_eq!(p.state(), MultipartState::Preamble);
    p.feed(MESSAGE.to_vec()).unwrap();
    assert_eq!(p.state(), MultipartState::End);
    let es = events(&mut p);
    assert_eq!(es.len(), 2);
    assert_eq!(
        header(&es[0]),
        ("Content-Disposition".to_string(), "form-data; name=\"user\"".to_string())
    );
    assert_eq!(body(&es[1]), (b"Potato".to_vec(), true));
    let ps = parts(&mut p);
    assert_eq!(ps.len(), 1);
    match &ps[0] {
        FormData::Field { name, content_type, charset, data } => {
            assert_eq!(name, "user");
            assert_eq!(content_type, "text/plain");
            assert_eq!(charset, "utf-8");
            assert_eq!(data, b"Potato");
        }
        other => panic!("expected a field, got {:?}", other),
    }
    assert_eq!(p.size(), MESSAGE.len());
}

#[test]
fn byte_by_byte_feeding_gives_the_same_parts() {
    let mut p = parser("boundary");
    for b in MESSAGE {
        p.feed(vec![*b]).unwrap();
    }
    assert_eq!(p.state(), MultipartState::End);
    let es = events(&mut p);
    let mut data = Vec::new();
    for e in &es[1..] {
        let (chunk, _) = body(e);
        data.extend(chunk);
    }
    assert_eq!(data, b"Potato");
    assert_eq!(body(es.last().unwrap()).1, true);
    let ps = parts(&mut p);
    assert_eq!(ps.len(), 1);
    match &ps[0] {
        FormData::Field { data, .. } => assert_eq!(data, b"Potato"),
        other => panic!("expected a field, got {:?}", other),
    }
}

#[test]
fn parses_file_with_content_type_and_preamble() {
    let msg = b"preamble text\r\n--xyz  \r\nContent-Disposition: form-data; name=\"upload\"; filename=\"a.txt\"\r\nContent-Type: text/csv; charset=latin-1\r\n\r\nline1\r\nline2\r\n--xyz\r\nContent-Disposition: form-data; name=second\r\n\r\n\r\n--xyz--";
    let mut p = parser("xyz");
    p.feed(msg.to_vec()).unwrap();
    assert_eq!(p.state(), MultipartState::End);
    let ps = parts(&mut p);
    assert_eq!(ps.len(), 2);
    match &ps[0] {
        FormData::File { name, filename, content_type, charset, data } => {
            assert_eq!(name, "upload");
            assert_eq!(filename, "a.txt");
            assert_eq!(content_type, "text/csv");
            assert_eq!(charset, "latin-1");
            assert_eq!(data, b"line1\r\nline2");
        }
        other => panic!("expected a file, got {:?}", other),
    }
    match &ps[1] {
        FormData::Field { name, data, .. } => {
            assert_eq!(name, "second");
            assert!(data.is_empty());
        }
        other => panic!("expected a field, got {:?}", other),
    }
}

#[test]
fn feeding_after_end_changes_nothing() {
    let mut p = parser("boundary");
    p.feed(MESSAGE.to_vec()).unwrap();
    let size = p.size();
    p.feed(b"--boundary\r\ngarbage".to_vec()).unwrap();
    assert_eq!(p.size(), size);
    assert_eq!(p.state(), MultipartState::End);
    assert_eq!(parts(&mut p).len(), 1);
}

#[test]
fn delimiter_not_at_line_start_is_ignored_in_preamble() {
    let mut p = parser("b");
    p.feed(b"x--b\r\n".to_vec()).unwrap();
    assert_eq!(p.state(), MultipartState::Preamble);
    p.feed(b"\r\n--b\r\n".to_vec()).unwrap();
    assert_eq!(p.state(), MultipartState::Header);
}

#[test]
fn delimiter_followed_by_other_text_is_data() {
    let mut p = parser("b");
    p.feed(b"--b\r\nContent-Disposition: form-data; name=f\r\n\r\nab\r\n--bc\r\n--b--".to_vec())
        .unwrap();
    assert_eq!(p.state(), MultipartState::End);
    match &parts(&mut p)[0] {
        FormData::Field { data, .. } => assert_eq!(data, b"ab\r\n--bc"),
        other => panic!("expected a field, got {:?}", other),
    }
}

#[test]
fn body_retains_only_what_may_start_a_delimiter() {
    let mut p = parser("bnd");
    p.feed(b"--bnd\r\nContent-Disposition: form-data; name=f\r\n\r\n0123456789".to_vec()).unwrap();
    assert_eq!(p.state(), MultipartState::Body);
    let es = events(&mut p);
    // the delimiter "\r\n--bnd" is 7 bytes long: the last 6 bytes are held back
    assert_eq!(body(&es[1]), (b"0123".to_vec(), false));
}

#[test]
fn max_size_is_enforced() {
    let mut p = MultipartParser::new(b"b".to_vec(), Some(10), "utf8").unwrap();
    p.feed(b"0123456789".to_vec()).unwrap();
    assert_eq!(p.feed(b"x".to_vec()), Err(MultipartError::MaxSizeExceeded));
    assert_eq!(p.size(), 10);
    assert_eq!(MultipartError::MaxSizeExceeded.kind(), rust_multipart::ErrorKind::Runtime);
}

#[test]
fn constructor_errors() {
    assert_eq!(
        MultipartParser::new(Vec::new(), None, "utf8").err(),
        Some(MultipartError::BoundaryLength)
    );
    assert_eq!(
        MultipartParser::new(vec![b'a'; 71], None, "utf8").err(),
        Some(MultipartError::BoundaryLength)
    );
    assert!(MultipartParser::new(vec![b'a'; 70], None, "utf8").is_ok());
    assert_eq!(
        MultipartParser::new(b"b".to_vec(), None, "latin-1").err(),
        Some(MultipartError::UnsupportedCharset)
    );
    assert_eq!(MultipartError::UnsupportedCharset.kind(), rust_multipart::ErrorKind::Runtime);
    assert_eq!(MultipartError::BoundaryLength.kind(), rust_multipart::ErrorKind::Value);
}

fn feed_headers(headers: &[u8]) -> Result<(), MultipartError> {
    let mut p = parser("b");
    let mut msg = b"--b\r\n".to_vec();
    msg.extend_from_slice(headers);
    p.feed(msg)
}

#[test]
fn header_errors() {
    assert_eq!(feed_headers(b"no colon\r\n"), Err(MultipartError::MalformedHeader));
    assert_eq!(feed_headers(b"\xff: x\r\n"), Err(MultipartError::InvalidHeaderName));
    assert_eq!(feed_headers(b"Name: \xff\r\n"), Err(MultipartError::InvalidHeaderValue));
    assert_eq!(feed_headers(b"  : x\r\n"), Err(MultipartError::MissingHeaderName));
    assert_eq!(feed_headers(b"Name: x\n"), Err(MultipartError::InvalidHeaderLineBreak));
    assert_eq!(feed_headers(b"Name: x\r\n\r\n"), Err(MultipartError::MissingContentDisposition));
    assert_eq!(
        feed_headers(b"Content-Disposition: attachment; name=x\r\n\r\n"),
        Err(MultipartError::InvalidContentDisposition)
    );
    assert_eq!(
        feed_headers(b"Content-Disposition: form-data; filename=x\r\n\r\n"),
        Err(MultipartError::MissingNameParameter)
    );
    assert_eq!(
        feed_headers(b"Content-Disposition: form-data; name=\"x\r\n\r\n"),
        Err(MultipartError::HeaderSyntax(rust_multipart::HeaderSyntaxError::MalformedQuotedParameter))
    );
    assert_eq!(
        feed_headers(b"Content-Type: ; a=b\r\nContent-Disposition: form-data; name=x\r\n\r\n"),
        Err(MultipartError::HeaderSyntax(rust_multipart::HeaderSyntaxError::MissingHeaderName))
    );
    assert!(feed_headers(b"Content-Disposition: FORM-DATA; name=x\r\n\r\n").is_ok());
}

#[test]
fn bare_line_feed_after_delimiter_is_an_error() {
    let mut p = parser("b");
    assert_eq!(p.feed(b"--b\n".to_vec()), Err(MultipartError::InvalidDelimiterLineBreak));
    let mut q = parser("b");
    q.feed(b"--b\r\nContent-Disposition: form-data; name=x\r\n\r\ndata".to_vec()).unwrap();
    assert_eq!(q.feed(b"\r\n--b \t\n".to_vec()), Err(MultipartError::InvalidDelimiterLineBreak));
}

#[test]
fn header_names_are_kept_as_received_and_values_trimmed() {
    let mut p = parser("b");
    p.feed(b"--b\r\n  X-Custom-HEADER :  some value \t\r\n".to_vec()).unwrap();
    let es = events(&mut p);
    assert_eq!(header(&es[0]), ("X-Custom-HEADER".to_string(), "some value".to_string()));
    assert_eq!(p.state(), MultipartState::Header);
}

#[test]
fn header_names_match_without_regard_to_case() {
    let mut p = parser("b");
    p.feed(b"--b\r\nCONTENT-disposition: form-data; name=x\r\n\r\nv\r\n--b--".to_vec()).unwrap();
    assert_eq!(p.state(), MultipartState::End);
    match &parts(&mut p)[0] {
        FormData::Field { name, data, .. } => {
            assert_eq!(name, "x");
            assert_eq!(data, b"v");
        }
        other => panic!("expected a field, got {:?}", other),
    }
}

#[test]
fn body_events_report_exactly_the_part_data() {
    let mut p = parser("b");
    let chunks: [&[u8]; 4] = [
        b"--b\r\nContent-Disposition: form-data; name=x\r\n\r\nhello ",
        b"wor",
        b"ld\r",
        b"\n--b--\r\n",
    ];
    for c in chunks {
        p.feed(c.to_vec()).unwrap();
    }
    let mut reported = Vec::new();
    for e in events(&mut p) {
        if let MultipartPart::Body { data, .. } = e {
            reported.extend(data);
        }
    }
    match &parts(&mut p)[0] {
        FormData::Field { data, .. } => assert_eq!(data, &reported),
        other => panic!("expected a field, got {:?}", other),
    }
    assert_eq!(reported, b"hello world");
}

#[test]
fn build_header_event() {
    match MultipartPart::build_header(b"Content-Type : text/plain ").unwrap() {
        MultipartPart::Header { name, value } => {
            assert_eq!(name, "Content-Type");
            assert_eq!(value, "text/plain");
        }
        other => panic!("expected a header, got {:?}", other),
    }
    assert_eq!(
        MultipartPart::build_header(b"a:b:c").ok().map(|h| header(&h)),
        Some(("a".to_string(), "b:c".to_string()))
    );
}

#[test]
fn finish_reports_a_missing_closing_delimiter() {
    let mut p = parser("boundary");
    assert_eq!(p.finish(), Err(MultipartError::IncompleteMessage));
    p.feed(MESSAGE[..MESSAGE.len() - 4].to_vec()).unwrap();
    assert_eq!(p.finish(), Err(MultipartError::IncompleteMessage));
    p.feed(MESSAGE[MESSAGE.len() - 4..].to_vec()).unwrap();
    assert_eq!(p.finish(), Ok(()));
}

/// What a parser reports, with body data joined: headers, data bytes and part ends in order.
fn units(p: &mut MultipartParser) -> Vec<(u8, Vec<u8>)> {
    let mut out = Vec::new();
    for e in events(p) {
        match e {
            MultipartPart::Header { name, value } => {
                out.push((0, format!("{}:{}", name, value).into_bytes()))
            }
            MultipartPart::Body { data, complete } => {
                for b in data {
                    out.push((1, vec![b]));
                }
                if complete {
                    out.push((2, Vec::new()));
                }
            }
        }
    }
    out
}

#[test]
fn splitting_after_the_first_delimiter_line_changes_only_chunking() {
    let message: &[u8] = b"preamble\r\n--xy\r\nContent-Disposition: form-data; name=a\r\n\r\none\r\n--x\r\n--xy  \r\nContent-Disposition: form-data; name=f; filename=\"f.txt\"\r\nContent-Type: text/plain\r\n\r\n\r\n--x\r\n\r\n--xy--\r\nepilogue";
    let first_line_end = b"preamble\r\n--xy\r\n".len();
    let mut whole = parser("xy");
    whole.feed(message.to_vec()).unwrap();
    let whole_units = units(&mut whole);
    let whole_parts = parts(&mut whole);
    assert_eq!(whole.state(), MultipartState::End);
    assert_eq!(whole_parts.len(), 2);
    for k in first_line_end..=message.len() {
        let mut split = parser("xy");
        split.feed(message[..k].to_vec()).unwrap();
        split.feed(message[k..].to_vec()).unwrap();
        assert_eq!(split.state(), MultipartState::End);
        assert_eq!(units(&mut split), whole_units);
        let split_parts = parts(&mut split);
        assert_eq!(split_parts.len(), whole_parts.len());
        for (s, w) in split_parts.iter().zip(whole_parts.iter()) {
            assert_eq!(format!("{:?}", s), format!("{:?}", w));
        }
    }
}

#[test]
fn splitting_inside_the_preamble_keeps_line_starts() {
    let mut whole = parser("boundary");
    whole.feed(b"abc--boundary--\r\n".to_vec()).unwrap();
    assert_eq!(whole.state(), MultipartState::Preamble);
    let mut split = parser("boundary");
    split.feed(b"abc--boundary-".to_vec()).unwrap();
    split.feed(b"-\r\n".to_vec()).unwrap();
    assert_eq!(split.state(), MultipartState::Preamble);
    assert_eq!(split.finish(), Err(MultipartError::IncompleteMessage));
    split.feed(b"\r\n--boundary--\r\n".to_vec()).unwrap();
    assert_eq!(split.state(), MultipartState::End);
    assert_eq!(split.finish(), Ok(()));
}

#[test]
fn preamble_at_every_split_point_parses_alike() {
    let message: &[u8] = b"zzy--b--\r\nmore --b\r\n\r\n--b\r\nContent-Disposition: form-data; name=a\r\n\r\nv\r\n--b--\r\n";
    let mut whole = parser("b");
    whole.feed(message.to_vec()).unwrap();
    let whole_units = units(&mut whole);
    assert_eq!(whole.state(), MultipartState::End);
    for k in 0..=message.len() {
        let mut split = parser("b");
        split.feed(message[..k].to_vec()).unwrap();
        split.feed(message[k..].to_vec()).unwrap();
        assert_eq!(split.state(), MultipartState::End);
        assert_eq!(units(&mut split), whole_units);
        assert_eq!(parts(&mut split).len(), 1);
    }
}

#[test]
fn header_limits_are_enforced() {
    let mut p = parser("b");
    p.set_header_limits(Some(1), None);
    assert_eq!(
        p.feed(b"--b\r\nContent-Disposition: form-data; name=a\r\nX-A: 1\r\n".to_vec()),
        Err(MultipartError::TooManyHeaders)
    );
    let mut p = parser("b");
    p.set_header_limits(Some(1), None);
    p.feed(b"--b\r\nContent-Disposition: form-data; name=a\r\n\r\nv\r\n--b\r\nContent-Disposition: form-data; name=c\r\n\r\nw\r\n--b--".to_vec())
        .unwrap();
    assert_eq!(p.state(), MultipartState::End);
    assert_eq!(parts(&mut p).len(), 2);
    let mut p = parser("b");
    p.set_header_limits(None, Some(6));
    assert_eq!(p.feed(b"--b\r\nX-A: 1\r\n".to_vec()), Ok(()));
    assert_eq!(p.feed(b"X-Ab: 1\r\n".to_vec()), Err(MultipartError::HeaderTooLong));
    let mut p = parser("b");
    p.set_header_limits(None, Some(6));
    assert_eq!(p.feed(b"--b\r\nX-Abc: ".to_vec()), Ok(()));
    assert_eq!(p.feed(b"1".to_vec()), Err(MultipartError::HeaderTooLong));
    assert_eq!(MultipartError::HeaderTooLong.kind(), rust_multipart::ErrorKind::Value);
    assert_eq!(MultipartError::TooManyHeaders.kind(), rust_multipart::ErrorKind::Value);
}

#[test]
fn without_assembly_parts_carry_no_data() {
    let mut p = parser("boundary");
    p.set_part_assembly(false);
    p.feed(MESSAGE.to_vec()).unwrap();
    let es = events(&mut p);
    assert_eq!(body(&es[1]), (b"Potato".to_vec(), true));
    match &parts(&mut p)[0] {
        FormData::Field { name, data, .. } => {
            assert_eq!(name, "user");
            assert!(data.is_empty());
        }
        other => panic!("expected a field, got {:?}", other),
    }
}

#[test]
fn a_long_body_fed_in_small_chunks_is_not_held() {
    let mut p = parser("boundary");
    p.set_part_assembly(false);
    p.feed(b"--boundary\r\nContent-Disposition: form-data; name=big\r\n\r\n".to_vec()).unwrap();
    assert_eq!(events(&mut p).len(), 1);
    let chunk = vec![b'x'; 100];
    let mut total = 0;
    for _ in 0..1000 {
        p.feed(chunk.clone()).unwrap();
        for e in events(&mut p) {
            let (data, _) = body(&e);
            total += data.len();
        }
    }
    p.feed(b"\r\n--boundary--\r\n".to_vec()).unwrap();
    for e in events(&mut p) {
        total += body(&e).0.len();
    }
    assert_eq!(total, 100_000);
    assert_eq!(p.state(), MultipartState::End);
    match &parts(&mut p)[0] {
        FormData::Field { data, .. } => assert!(data.is_empty()),
        other => panic!("expected a field, got {:?}", other),
    }
}

#[test]
fn a_fresh_parser_collects_no_body_data() {
    let mut p = MultipartParser::new(b"boundary".to_vec(), None, "utf8").unwrap();
    p.feed(MESSAGE.to_vec()).unwrap();
    let es = events(&mut p);
    assert_eq!(body(&es[1]), (b"Potato".to_vec(), true));
    match &parts(&mut p)[0] {
        FormData::Field { name, data, .. } => {
            assert_eq!(name, "user");
            assert!(data.is_empty());
        }
        other => panic!("expected a field, got {:?}", other),
    }
}

#[test]
fn any_well_formed_message_is_read() {
    let message: &[u8] = b"junk --b\r\n\r\n--b\r\ncontent-disposition:form-data; name=a\r\n X-Y :  z \r\n\r\none\r\n--b\r\nContent-Disposition: form-data; name=\"f\"; filename=\"x\"\r\n\r\n\r\n--b--trailing epilogue --b\r\n";
    let mut p = parser("b");
    p.feed(message.to_vec()).unwrap();
    assert_eq!(p.state(), MultipartState::End);
    assert_eq!(p.finish(), Ok(()));
    let es = events(&mut p);
    assert_eq!(es.len(), 5);
    assert_eq!(header(&es[0]), ("content-disposition".to_string(), "form-data; name=a".to_string()));
    assert_eq!(header(&es[1]), ("X-Y".to_string(), "z".to_string()));
    assert_eq!(body(&es[2]), (b"one".to_vec(), true));
    assert_eq!(header(&es[3]).0, "Content-Disposition");
    assert_eq!(body(&es[4]), (Vec::new(), true));
    let ps = parts(&mut p);
    assert_eq!(ps.len(), 2);
    match (&ps[0], &ps[1]) {
        (FormData::Field { name, data, .. }, FormData::File { name: n2, filename, data: d2, .. }) => {
            assert_eq!(name, "a");
            assert_eq!(data, b"one");
            assert_eq!(n2, "f");
            assert_eq!(filename, "x");
            assert!(d2.is_empty());
        }
        other => panic!("unexpected parts {:?}", other),
    }
}

#[test]
fn a_closing_delimiter_not_at_a_line_start_does_not_end_the_message() {
    let mut p = parser("b");
    p.feed(b"x--b--\r\n".to_vec()).unwrap();
    assert_eq!(p.state(), MultipartState::Preamble);
    p.feed(b"--b\r\nContent-Disposition: form-data; name=a\r\n\r\nv --b--\r\n".to_vec()).unwrap();
    assert_eq!(p.state(), MultipartState::Body);
    assert_eq!(p.finish(), Err(MultipartError::IncompleteMessage));
    p.feed(b"\r\n--b--".to_vec()).unwrap();
    assert_eq!(p.state(), MultipartState::End);
}
