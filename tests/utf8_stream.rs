use eventsource_stream::utf8_stream::{Utf8Stream, Utf8StreamError};

fn decode_all(chunks: &[&[u8]]) -> (Vec<Result<String, Utf8StreamError<()>>>, bool) {
    let mut s = Utf8Stream::new(());
    let mut out = Vec::new();
    for c in chunks {
        if let Some(item) = s.next_item::<()>(Some(Ok(c))) {
            out.push(item);
        }
    }
    while let Some(item) = s.next_item::<()>(None) {
        out.push(item);
    }
    (out, s.terminated())
}

fn text_of(items: Vec<Result<String, Utf8StreamError<()>>>) -> String {
    items.into_iter().map(|r| r.unwrap()).collect()
}

#[test]
fn chunk_boundaries_do_not_matter() {
    let text = "héllo wörld € 𝄞 ok";
    let bytes = text.as_bytes();
    for k in 0..=bytes.len() {
        let (items, done) = decode_all(&[&bytes[..k], &bytes[k..]]);
        assert!(done);
        assert_eq!(text_of(items), text);
    }
    let singles: Vec<&[u8]> = bytes.chunks(1).collect();
    assert_eq!(text_of(decode_all(&singles).0), text);
}

#[test]
fn split_character_comes_out_once() {
    let mut s = Utf8Stream::new(());
    let euro = "€".as_bytes();
    assert_eq!(s.next_item::<()>(Some(Ok(&euro[..1]))), Some(Ok(String::new())));
    assert_eq!(s.next_item::<()>(Some(Ok(&euro[1..2]))), Some(Ok(String::new())));
    assert_eq!(s.next_item::<()>(Some(Ok(&euro[2..]))), Some(Ok("€".to_string())));
    assert_eq!(s.next_item::<()>(None), None);
    assert!(s.terminated());
}

#[test]
fn held_back_bytes_come_after_the_valid_part() {
    let mut s = Utf8Stream::new(());
    let bytes = "ab𝄞".as_bytes();
    assert_eq!(s.next_item::<()>(Some(Ok(&bytes[..4]))), Some(Ok("ab".to_string())));
    assert_eq!(s.next_item::<()>(Some(Ok(&bytes[4..]))), Some(Ok("𝄞".to_string())));
}

#[test]
fn invalid_byte_is_an_error() {
    let mut s = Utf8Stream::new(());
    assert_eq!(s.next_item::<()>(Some(Ok(b"ok"))), Some(Ok("ok".to_string())));
    assert_eq!(s.next_item::<()>(Some(Ok(b"ab\xffcd"))), Some(Err(Utf8StreamError::Utf8(2))));
    assert!(s.terminated());
    assert_eq!(s.next_item::<()>(Some(Ok(b"more"))), None);
}

#[test]
fn truncated_character_at_the_end_is_an_error() {
    let euro = "€".as_bytes();
    let (items, done) = decode_all(&[b"x", &euro[..2]]);
    assert!(done);
    assert_eq!(items, vec![Ok("x".to_string()), Ok(String::new()), Err(Utf8StreamError::Utf8(0))]);
}

#[test]
fn transport_error_ends_the_stream() {
    let mut s = Utf8Stream::new(());
    assert_eq!(s.next_item(Some(Err(7u32))), Some(Err(Utf8StreamError::Transport(7u32))));
    assert_eq!(s.next_item::<u32>(Some(Ok(b"x"))), None);
    assert_eq!(s.next_item::<u32>(None), None);
}

#[test]
fn clean_end_yields_nothing() {
    let mut s = Utf8Stream::new(());
    assert!(!s.terminated());
    assert_eq!(s.next_item::<()>(None), None);
    assert!(s.terminated());
}
