use rust_multipart::builder::{escape, hex_encode, is_valid_boundary_byte, random_boundary};
use rust_multipart::{BuilderError, ErrorKind, FormData, MultipartBuilder, MultipartParser, MultipartState};

fn builder(boundary: &str) -> MultipartBuilder {
    MultipartBuilder::new(Some(boundary.as_bytes().to_vec())).unwrap()
}

#[test]
fn builds_readme_body() {
    let mut b = builder("boundary");
    b.add_field("user", b"Potato").unwrap();
    b.add_file("upload", "photo.png", b"\x89PNG...", Some("image/png")).unwrap();
    let body = b.build().unwrap();
    assert_eq!(b.content_type(), "multipart/form-data; boundary=boundary");
    assert!(body.starts_with(b"--boundary\r\nContent-Disposition: form-data; name=\"user\""));
    let expected: &[u8] = b"--boundary\r\nContent-Disposition: form-data; name=\"user\"\r\n\r\nPotato\r\n--boundary\r\nContent-Disposition: form-data; name=\"upload\"; filename=\"photo.png\"\r\nContent-Type: image/png\r\n\r\n\x89PNG...\r\n--boundary--\r\n";
    assert_eq!(body, expected);
}

#[test]
fn random_boundary_is_32_hex_digits() {
    let b = MultipartBuilder::new(None).unwrap();
    assert_eq!(b.boundary().len(), 32);
    assert!(b.boundary().iter().all(|c| c.is_ascii_digit() || (b'a'..=b'f').contains(c)));
    let r = random_boundary().unwrap();
    assert_eq!(r.len(), 32);
}

#[test]
fn hex_encoding_is_lower_case() {
    assert_eq!(hex_encode(&[0x00, 0x9f, 0xab, 0xff]), b"009fabff".to_vec());
}

#[test]
fn quoted_content_type_for_boundary_with_space() {
    let b = builder("a b");
    assert_eq!(b.content_type(), "multipart/form-data; boundary=\"a b\"");
}

#[test]
fn boundary_validation() {
    assert_eq!(MultipartBuilder::new(Some(Vec::new())).err(), Some(BuilderError::BoundaryLength));
    assert_eq!(MultipartBuilder::new(Some(vec![b'a'; 71])).err(), Some(BuilderError::BoundaryLength));
    assert!(MultipartBuilder::new(Some(vec![b'a'; 70])).is_ok());
    assert_eq!(MultipartBuilder::new(Some(b"a\"b".to_vec())).err(), Some(BuilderError::BoundaryCharacters));
    assert_eq!(MultipartBuilder::new(Some(b"ab ".to_vec())).err(), Some(BuilderError::BoundaryCharacters));
    assert!(MultipartBuilder::new(Some(b"'()+_,-./:=? Az09".to_vec())).is_ok());
    assert!(is_valid_boundary_byte(b'?'));
    assert!(!is_valid_boundary_byte(b'@'));
    assert_eq!(BuilderError::BoundaryLength.kind(), ErrorKind::Value);
}

#[test]
fn escaping_follows_html5_form_rules() {
    assert_eq!(escape("a\"b"), "a%22b");
    assert_eq!(escape("a\\b"), "a\\\\b");
    assert_eq!(escape("a\r\nb"), "a%0D%0Ab");
    assert_eq!(escape("\u{0}\u{1f}"), "%00%1F");
    assert_eq!(escape("\u{1b}"), "\u{1b}");
    assert_eq!(escape("\u{7f}é"), "\u{7f}é");
}

#[test]
fn field_names_are_escaped() {
    let mut b = builder("x");
    b.add_field("a\"b\nc", b"v").unwrap();
    let body = b.build().unwrap();
    assert_eq!(
        body,
        b"--x\r\nContent-Disposition: form-data; name=\"a%22b%0Ac\"\r\n\r\nv\r\n--x--\r\n".to_vec()
    );
}

#[test]
fn add_part_validates_headers() {
    let mut b = builder("x");
    assert_eq!(
        b.add_part(&[(Vec::new(), b"v".to_vec())], b""),
        Err(BuilderError::MissingHeaderName)
    );
    assert_eq!(
        b.add_part(&[(b"A:B".to_vec(), b"v".to_vec())], b""),
        Err(BuilderError::InvalidHeaderNameCharacter)
    );
    assert_eq!(
        b.add_part(&[(b"A".to_vec(), b"v\r".to_vec())], b""),
        Err(BuilderError::InvalidHeaderValueLineBreak)
    );
    assert_eq!(
        b.add_file("f", "g", b"", Some("text/plain\nX: y")),
        Err(BuilderError::InvalidHeaderValueLineBreak)
    );
    assert_eq!(b.build().unwrap(), b"--x--\r\n".to_vec());
}

#[test]
fn finished_builder_refuses_more() {
    let mut b = builder("x");
    b.build().unwrap();
    assert_eq!(b.build(), Err(BuilderError::AlreadyFinished));
    assert_eq!(b.add_field("a", b"b"), Err(BuilderError::AlreadyFinished));
    assert_eq!(b.add_part(&[], b"b"), Err(BuilderError::AlreadyFinished));
    assert_eq!(BuilderError::AlreadyFinished.kind(), ErrorKind::Runtime);
}

#[test]
fn streaming_rendering_matches_buffered_body() {
    let mut b = builder("s");
    let mut streamed = Vec::new();
    streamed.extend(b.render_field("user"));
    streamed.extend(b"Potato");
    streamed.extend(b"\r\n");
    streamed.extend(b.render_file("upload", "movie.mp4", Some("video/mp4")).unwrap());
    streamed.extend(b"frames");
    streamed.extend(b"\r\n");
    streamed.extend(b.render_part(&[(b"X-A".to_vec(), b"1".to_vec())]).unwrap());
    streamed.extend(b"raw");
    streamed.extend(b"\r\n");
    streamed.extend(b.closing());
    b.add_field("user", b"Potato").unwrap();
    b.add_file("upload", "movie.mp4", b"frames", Some("video/mp4")).unwrap();
    b.add_part(&[(b"X-A".to_vec(), b"1".to_vec())], b"raw").unwrap();
    assert_eq!(b.build().unwrap(), streamed);
    assert_eq!(b.render_file("u", "f", Some("a\rb")), Err(BuilderError::InvalidHeaderValueLineBreak));
}

#[test]
fn parser_reads_what_builder_writes() {
    let mut b = builder("sep");
    b.add_field("user", b"Potato").unwrap();
    b.add_file("upload", "photo.png", b"\x89PNG\r\n", Some("image/png")).unwrap();
    let body = b.build().unwrap();
    let mut p = MultipartParser::new(b.boundary().to_vec(), None, "utf8").unwrap();
    p.set_part_assembly(true);
    p.feed(body).unwrap();
    assert_eq!(p.state(), MultipartState::End);
    match p.next_part().unwrap() {
        FormData::Field { name, data, .. } => {
            assert_eq!(name, "user");
            assert_eq!(data, b"Potato");
        }
        other => panic!("expected a field, got {:?}", other),
    }
    match p.next_part().unwrap() {
        FormData::File { name, filename, content_type, data, .. } => {
            assert_eq!(name, "upload");
            assert_eq!(filename, "photo.png");
            assert_eq!(content_type, "image/png");
            assert_eq!(data, b"\x89PNG\r\n");
        }
        other => panic!("expected a file, got {:?}", other),
    }
    assert!(p.next_part().is_none());
}

fn read_parts(boundary: &[u8], chunks: &[&[u8]]) -> Vec<FormData> {
    let mut p = MultipartParser::new(boundary.to_vec(), None, "utf8").unwrap();
    p.set_part_assembly(true);
    for c in chunks {
        p.feed(c.to_vec()).unwrap();
    }
    assert_eq!(p.state(), MultipartState::End);
    let mut out = Vec::new();
    while let Some(part) = p.next_part() {
        out.push(part);
    }
    out
}

fn part_data(part: &FormData) -> Vec<u8> {
    match part {
        FormData::Field { data, .. } | FormData::File { data, .. } => data.clone(),
    }
}

#[test]
fn data_that_only_resembles_a_delimiter_is_read_back() {
    let mut b = builder("sep");
    b.add_field("a", b"x\r\n--sepX\r\n--se").unwrap();
    b.add_field("b", b"--sep").unwrap();
    let body = b.build().unwrap();
    let parts = read_parts(b"sep", &[&body]);
    assert_eq!(parts.len(), 2);
    assert_eq!(part_data(&parts[0]), b"x\r\n--sepX\r\n--se".to_vec());
    assert_eq!(part_data(&parts[1]), b"--sep".to_vec());
}

#[test]
fn built_body_read_back_at_every_split_point() {
    let mut b = builder("sep");
    b.add_field("user", b"Potato\r\n-").unwrap();
    b.add_file("f", "x.bin", b"\x00\x01--sep", None).unwrap();
    let body = b.build().unwrap();
    let whole = read_parts(b"sep", &[&body]);
    for split in 0..=body.len() {
        let parts = read_parts(b"sep", &[&body[..split], &body[split..]]);
        assert_eq!(parts.len(), whole.len());
        for (x, y) in parts.iter().zip(whole.iter()) {
            assert_eq!(part_data(x), part_data(y));
        }
    }
}

#[test]
fn field_with_quote_in_name_reads_back_escaped() {
    let mut b = builder("sep");
    b.add_field("a\"b", b"v").unwrap();
    let body = b.build().unwrap();
    match &read_parts(b"sep", &[&body])[0] {
        FormData::Field { name, .. } => assert_eq!(name, "a%22b"),
        other => panic!("expected a field, got {:?}", other),
    }
}

#[test]
fn content_type_parses_back_to_the_boundary() {
    for boundary in ["boundary", "a b", " lead=x?", "'()+_,-./:=?"] {
        let b = builder(boundary);
        let (value, params) = rust_multipart::parse_options_header(&b.content_type()).unwrap();
        assert_eq!(value, "multipart/form-data");
        assert_eq!(params.len(), 1);
        assert_eq!(params.get("boundary").map(|s| s.as_str()), Some(boundary));
    }
}

#[test]
fn fields_read_back_as_written() {
    let fields: [(&str, &[u8]); 3] = [("user", b"Potato"), ("semi;colon = x", b""), ("\u{e9}t\u{e9}", b"a\r\n--b")];
    let mut b = builder("boundary");
    for (name, value) in fields {
        b.add_field(name, value).unwrap();
    }
    let body = b.build().unwrap();
    let mut p = MultipartParser::new(b"boundary".to_vec(), None, "utf8").unwrap();
    p.set_part_assembly(true);
    p.feed(body).unwrap();
    assert_eq!(p.state(), MultipartState::End);
    for (name, value) in fields {
        match p.next_part().unwrap() {
            FormData::Field { name: n, content_type, charset, data } => {
                assert_eq!(n, name);
                assert_eq!(content_type, "text/plain");
                assert_eq!(charset, "utf-8");
                assert_eq!(data, value);
            }
            other => panic!("expected a field, got {:?}", other),
        }
    }
    assert!(p.next_part().is_none());
}
