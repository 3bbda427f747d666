use eventsource_stream::parser::{
    events, is_any_char, is_bom, is_colon, is_cr, is_lf, is_name_char, is_space, stream,
    RawEvent, RawEventLine,
};

fn lines<'a>(e: &'a RawEvent<'a>) -> &'a [RawEventLine<'a>] {
    &e.0
}

#[test]
fn character_classes() {
    assert!(is_lf('\n') && !is_lf('\r'));
    assert!(is_cr('\r') && !is_cr('\n'));
    assert!(is_space(' ') && !is_space('\t'));
    assert!(is_colon(':') && !is_colon(';'));
    assert!(is_bom('\u{feff}') && !is_bom('a'));
    assert!(is_name_char('a') && is_name_char('\u{10FFFF}') && is_name_char('\u{0000}'));
    assert!(!is_name_char(':') && !is_name_char('\n') && !is_name_char('\r'));
    assert!(is_any_char(':') && is_any_char('\u{000B}'));
    assert!(!is_any_char('\n') && !is_any_char('\r'));
}

#[test]
fn comment_then_field() {
    let (rest, evs) = stream(":hello\ndata:1\n\n");
    assert_eq!(rest, "");
    assert_eq!(evs.len(), 1);
    assert_eq!(
        lines(&evs[0]),
        &[RawEventLine::Comment("hello"), RawEventLine::Field("data", Some("1"))]
    );
}

#[test]
fn at_most_one_space_is_stripped() {
    for (text, value) in [("foo: bar\n\n", "bar"), ("foo:bar\n\n", "bar"), ("foo:  bar\n\n", " bar")] {
        let (rest, evs) = events(text);
        assert_eq!(rest, "");
        assert_eq!(lines(&evs[0]), &[RawEventLine::Field("foo", Some(value))]);
    }
}

#[test]
fn empty_value_and_no_value() {
    let (_, evs) = events("foo:\n\n");
    assert_eq!(lines(&evs[0]), &[RawEventLine::Field("foo", Some(""))]);
    let (_, evs) = events("foo\n\n");
    assert_eq!(lines(&evs[0]), &[RawEventLine::Field("foo", None)]);
}

#[test]
fn leading_bom_is_skipped() {
    let (rest_a, with_bom) = stream("\u{feff}data:x\n\n");
    let (rest_b, without) = stream("data:x\n\n");
    assert_eq!(rest_a, rest_b);
    assert_eq!(with_bom, without);
    assert_eq!(lines(&with_bom[0]), &[RawEventLine::Field("data", Some("x"))]);
}

#[test]
fn unterminated_line_is_left_over() {
    let (rest, evs) = events("data:partial");
    assert!(evs.is_empty());
    assert_eq!(rest, "data:partial");
    let (rest, evs) = stream("id:1\n\ndata:partial");
    assert_eq!(evs.len(), 1);
    assert_eq!(rest, "data:partial");
}

#[test]
fn unterminated_event_is_left_over() {
    let (rest, evs) = events("data:a\ndata:b\n");
    assert!(evs.is_empty());
    assert_eq!(rest, "data:a\ndata:b\n");
}

#[test]
fn all_three_terminators() {
    let (rest, evs) = events("a:1\r\nb:2\rc:3\n\r\n");
    assert_eq!(rest, "");
    assert_eq!(
        lines(&evs[0]),
        &[
            RawEventLine::Field("a", Some("1")),
            RawEventLine::Field("b", Some("2")),
            RawEventLine::Field("c", Some("3")),
        ]
    );
}

#[test]
fn carriage_return_at_the_end_waits() {
    let (rest, evs) = events("a:1\r");
    assert!(evs.is_empty());
    assert_eq!(rest, "a:1\r");
    let (rest, evs) = events("a:1\n\r");
    assert!(evs.is_empty());
    assert_eq!(rest, "a:1\n\r");
}

#[test]
fn empty_input_and_empty_event() {
    let (rest, evs) = stream("");
    assert_eq!(rest, "");
    assert!(evs.is_empty());
    let (rest, evs) = events("\n");
    assert_eq!(rest, "");
    assert_eq!(evs.len(), 1);
    assert!(lines(&evs[0]).is_empty());
}

#[test]
fn multibyte_names_and_values() {
    let (_, evs) = events("név:értéke ✓\n:ünnep\n\n");
    assert_eq!(
        lines(&evs[0]),
        &[RawEventLine::Field("név", Some("értéke ✓")), RawEventLine::Comment("ünnep")]
    );
}

fn owned(evs: &[RawEvent]) -> Vec<Vec<String>> {
    evs.iter()
        .map(|e| e.0.iter().map(|l| format!("{:?}", l)).collect())
        .collect()
}

fn feed_pieces(pieces: &[&str]) -> (Vec<Vec<String>>, String) {
    let mut out = Vec::new();
    let mut rest = String::new();
    for p in pieces {
        let text = format!("{}{}", rest, p);
        let (r, evs) = events(&text);
        out.extend(owned(&evs));
        rest = r.to_string();
    }
    (out, rest)
}

#[test]
fn residue_threading_matches_whole_parse() {
    let text = ":c\r\nid: 7\ndata:x\r\n\r\ndata\n\nevent:é\rdata: 𝄞\r\n\nda";
    let (rest, evs) = events(text);
    let whole = (owned(&evs), rest.to_string());
    let idx: Vec<usize> = text.char_indices().map(|(i, _)| i).chain([text.len()]).collect();
    for &k in &idx {
        assert_eq!(feed_pieces(&[&text[..k], &text[k..]]), whole);
    }
    let singles: Vec<&str> = idx.windows(2).map(|w| &text[w[0]..w[1]]).collect();
    assert_eq!(feed_pieces(&singles), whole);
}

#[test]
fn written_event_reads_back() {
    let text = ":note\nevent:update\ndata: x\ndata:  y\nflag\n\n";
    let (rest, evs) = events(text);
    assert_eq!(rest, "");
    assert_eq!(evs.len(), 1);
    assert_eq!(
        lines(&evs[0]),
        &[
            RawEventLine::Comment("note"),
            RawEventLine::Field("event", Some("update")),
            RawEventLine::Field("data", Some("x")),
            RawEventLine::Field("data", Some(" y")),
            RawEventLine::Field("flag", None),
        ]
    );
    for k in 0..=text.len() {
        let (got, rest) = feed_pieces(&[&text[..k], &text[k..]]);
        assert_eq!(got, owned(&evs));
        assert_eq!(rest, "");
    }
}
