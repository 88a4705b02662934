use csv_frame::csv_parser::{to_str, FieldIter, FieldSplitter, LineSplitter};

#[test]
fn get_lines() {
    let data = "Espeon, Eevee, Psychic, Gen II
Umbreon, Eevee, Dark, Gen II
";

    let mut line_splitter = LineSplitter::from_bytes(data.as_bytes());

    assert_eq!(
        to_str(line_splitter.next()),
        Some("Espeon, Eevee, Psychic, Gen II")
    );
    assert_eq!(
        to_str(line_splitter.next()),
        Some("Umbreon, Eevee, Dark, Gen II")
    )
}

#[test]
fn get_fields() {
    // Everything as expected
    let data = "Espeon,Eevee,Psychic,Gen II";
    let mut field_splitter = FieldSplitter::from_bytes(data.as_bytes());

    assert_eq!(to_str(field_splitter.next()), Some("Espeon"));
    assert_eq!(to_str(field_splitter.next()), Some("Eevee"));
    assert_eq!(to_str(field_splitter.next()), Some("Psychic"));
    assert_eq!(to_str(field_splitter.next()), Some("Gen II"));
    assert_eq!(to_str(field_splitter.next()), None);

    // Missing field
    let data = "Espeon,,Psychic,Gen II";
    let mut field_splitter = FieldSplitter::from_bytes(data.as_bytes());

    assert_eq!(to_str(field_splitter.next()), Some("Espeon"));
    assert_eq!(to_str(field_splitter.next()), Some(""));
    assert_eq!(to_str(field_splitter.next()), Some("Psychic"));
    assert_eq!(to_str(field_splitter.next()), Some("Gen II"));
    assert_eq!(to_str(field_splitter.next()), None);

    // Delimiter inside a field
    let data = r#"Espeon,"Eevee, Friendship",Psychic,"Gen II, Number""#;
    let mut field_splitter = FieldSplitter::from_bytes(data.as_bytes());

    assert_eq!(to_str(field_splitter.next()), Some(r#"Espeon"#));
    assert_eq!(to_str(field_splitter.next()), Some("Eevee, Friendship"));
    assert_eq!(to_str(field_splitter.next()), Some("Psychic"));
    assert_eq!(to_str(field_splitter.next()), Some("Gen II, Number"));
    assert_eq!(to_str(field_splitter.next()), None);
}

#[test]
fn quoted_field_comes_back_whole() {
    let data = "Espeon,\"Eevee, Friendship\",Psychic";
    let mut fields = FieldIter::from_bytes(data.as_bytes());
    assert_eq!(fields.next(), Some("Espeon"));
    assert_eq!(fields.next(), Some("Eevee, Friendship"));
    assert_eq!(fields.next(), Some("Psychic"));
    assert_eq!(fields.next(), None);
}

#[test]
fn unquoted_line_rejoins_to_itself() {
    let data = "a,bb,,ccc";
    let mut splitter = FieldSplitter::from_bytes(data.as_bytes());
    let mut parts: Vec<&[u8]> = Vec::new();
    while let Some(f) = splitter.next() {
        parts.push(f);
    }
    assert_eq!(parts.join(&b','), data.as_bytes().to_vec());
}

#[test]
fn trailing_delimiter_gives_empty_last_field() {
    let mut splitter = FieldSplitter::from_bytes(b"a,");
    assert_eq!(splitter.next(), Some(&b"a"[..]));
    assert_eq!(splitter.next(), Some(&b""[..]));
    assert_eq!(splitter.next(), None);
}

#[test]
fn newline_inside_quotes_does_not_end_a_line() {
    let mut lines = LineSplitter::from_bytes(b"a,\"x\ny\"\nb\n\nc");
    assert_eq!(lines.next(), Some(&b"a,\"x\ny\""[..]));
    assert_eq!(lines.next(), Some(&b"b"[..]));
    assert_eq!(lines.next(), Some(&b""[..]));
    assert_eq!(lines.next(), Some(&b"c"[..]));
    assert_eq!(lines.next(), None);
    assert_eq!(lines.next(), None);
}

#[test]
fn empty_input_has_no_line() {
    let mut lines = LineSplitter::from_bytes(b"");
    assert_eq!(lines.next(), None);
}

#[test]
fn invalid_utf8_is_no_text() {
    assert_eq!(to_str(Some(&[0xff, 0xfe][..])), None);
    assert_eq!(to_str(None), None);
    let mut fields = FieldIter::from_bytes(&[0xff, b',', b'a']);
    assert_eq!(fields.next(), Some(""));
    assert_eq!(fields.next(), Some("a"));
}

#[test]
fn quoted_fields_without_delimiter_lose_their_quotes() {
    let mut fields = FieldIter::from_bytes(b"\"a\",b,\"c,d\"");
    assert_eq!(fields.next(), Some("a"));
    assert_eq!(fields.next(), Some("b"));
    assert_eq!(fields.next(), Some("c,d"));
    assert_eq!(fields.next(), None);
}
