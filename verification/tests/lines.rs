use pane_bridge::lines::LineBuffer;

#[test]
fn push_returns_complete_lines_without_line_feed() {
    let mut buffer = LineBuffer::new();
    assert_eq!(buffer.push(b"one\ntwo\n"), vec![b"one".to_vec(), b"two".to_vec()]);
    assert_eq!(buffer.push(b""), Vec::<Vec<u8>>::new());
}

#[test]
fn push_keeps_the_unfinished_line() {
    let mut buffer = LineBuffer::new();
    assert_eq!(buffer.push(b"ab"), Vec::<Vec<u8>>::new());
    assert_eq!(buffer.push(b"c\nde"), vec![b"abc".to_vec()]);
    assert_eq!(buffer.push(b"\n\n\nf"), vec![b"de".to_vec(), vec![], vec![]]);
    assert_eq!(buffer.push(b"\n"), vec![b"f".to_vec()]);
}

#[test]
fn push_keeps_carriage_returns_and_other_bytes() {
    let mut buffer = LineBuffer::new();
    assert_eq!(buffer.push(b"a\r\n\x00\xff \n"), vec![b"a\r".to_vec(), vec![0x00, 0xff, b' ']]);
}

#[test]
fn clear_drops_the_unfinished_line() {
    let mut buffer = LineBuffer::new();
    buffer.push(b"half a li");
    buffer.clear();
    assert_eq!(buffer.push(b"ne\n"), vec![b"ne".to_vec()]);
}

#[test]
fn any_cut_gives_the_same_lines() {
    let stream: &[u8] = b"\nfirst\n\nsecond line\nthird\nrest";
    let mut whole = LineBuffer::new();
    let expected = whole.push(stream);
    assert_eq!(expected.len(), 5);
    for cut in 0..=stream.len() {
        for cut2 in cut..=stream.len() {
            let mut buffer = LineBuffer::new();
            let mut lines = buffer.push(&stream[..cut]);
            lines.extend(buffer.push(&stream[cut..cut2]));
            lines.extend(buffer.push(&stream[cut2..]));
            assert_eq!(lines, expected);
            assert_eq!(buffer.push(b"\n"), vec![b"rest".to_vec()]);
        }
    }
}
