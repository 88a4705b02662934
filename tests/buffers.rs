use csv_frame::frame::{ChunkFromJsBytes, Frame};
use csv_frame::ParsedBytes;

#[test]
fn parse_bytes() {
    let one = "Flareon".as_bytes();
    let two = "Jolteon".as_bytes();
    let three = "Vaporeon".as_bytes();

    let mut parsed = ParsedBytes::default();
    parsed.extend(one);
    assert_eq!(parsed.len(), 1);

    parsed.extend(two);
    parsed.extend(three);

    let mut iter = parsed.into_iter();
    assert_eq!(iter.next(), Some(one));
    assert_eq!(iter.next(), Some(two));
    assert_eq!(iter.next(), Some(three));

    assert_eq!(parsed.pop_at_last_offset(), three);
    assert_eq!(parsed.len(), 2);
}

#[test]
fn pop_single_word() {
    let mut parsed = ParsedBytes::default();
    parsed.extend(b"only");
    assert_eq!(parsed.last(), Some(4));
    assert_eq!(parsed.pop_at_last_offset(), b"only".to_vec());
    assert!(parsed.is_empty());
    assert_eq!(parsed.last(), None);
}

#[test]
fn empty_words_are_kept() {
    let mut parsed = ParsedBytes::default();
    parsed.extend(b"");
    parsed.extend(b"ab");
    parsed.extend(b"");
    assert_eq!(parsed.len(), 3);
    assert_eq!(parsed.get(0), b"");
    assert_eq!(parsed.get(1), b"ab");
    assert_eq!(parsed.get(2), b"");
}

#[test]
fn bytes_into_chunk() {
    let bytes = "Flareon,Jolteon,Vaporeon\nEsp".as_bytes();
    let chunk = ChunkFromJsBytes::from_bytes(bytes).read().pull_last_line();

    assert_eq!(chunk.header(), None);
    assert_eq!(chunk.buffers().len(), 3);
    assert_eq!(chunk.remainder(), Some(&"Esp".as_bytes().to_vec()));
}

#[test]
fn frame() {
    let bytes = "FieldOne,FieldTwo,FieldThree\nFlareon,2.5,1\nVaporeon,1.2,2".as_bytes();
    let chunk = ChunkFromJsBytes::from_bytes(bytes).with_header(true).read();
    let mut frame = Frame::new();

    frame.new_from_entry(chunk);
    assert_eq!(frame.width(), 3);
    assert_eq!(frame.height(), 2);

    let last = "Jolteon,1.5,3".as_bytes();
    frame.append_line(last);
    assert_eq!(frame.height(), 3);
}
