use pane_bridge::codec::{decode, Cursor, Event};
use pane_bridge::escape::{escape, unescape};
use pane_bridge::text::{find, parse_number, push_decimal, range_is};

#[test]
fn decodes_output_with_plain_payload() {
    assert_eq!(
        decode(b"%output 1 hello"),
        Event::Output { pane_id: 1, data: b"hello".to_vec() }
    );
}

#[test]
fn decodes_output_keeps_quotes_and_spaces() {
    assert_eq!(
        decode(b"%output 1 \"hello\""),
        Event::Output { pane_id: 1, data: b"\"hello\"".to_vec() }
    );
    assert_eq!(
        decode(b"%output 12 a b  c "),
        Event::Output { pane_id: 12, data: b"a b  c ".to_vec() }
    );
}

#[test]
fn decodes_output_with_octal_escapes() {
    assert_eq!(
        decode(b"%output 3 ab\\033[1m\\015\\012\\134x"),
        Event::Output { pane_id: 3, data: vec![b'a', b'b', 0x1b, b'[', b'1', b'm', 0x0d, 0x0a, 0x5c, b'x'] }
    );
}

#[test]
fn decodes_output_with_empty_payload() {
    assert_eq!(decode(b"%output 7 "), Event::Output { pane_id: 7, data: vec![] });
}

#[test]
fn output_without_payload_separator_is_unknown() {
    assert_eq!(decode(b"%output 7"), Event::Unknown { raw: b"%output 7".to_vec() });
}

#[test]
fn output_with_bad_escape_is_unknown() {
    for line in [
        &b"%output 1 a\\"[..],
        &b"%output 1 a\\03"[..],
        &b"%output 1 a\\0x3"[..],
        &b"%output 1 a\\400"[..],
        &b"%output 1 a\\101"[..],
        &b"%output 1 a\\038"[..],
        &b"%output 1 a\tb"[..],
    ] {
        assert_eq!(decode(line), Event::Unknown { raw: line.to_vec() });
    }
}

#[test]
fn output_keeps_high_bytes() {
    assert_eq!(
        decode(&[b'%', b'o', b'u', b't', b'p', b'u', b't', b' ', b'2', b' ', 0xc3, 0xa9, 0x7f, 0xff]),
        Event::Output { pane_id: 2, data: vec![0xc3, 0xa9, 0x7f, 0xff] }
    );
}

#[test]
fn decodes_layout_change() {
    assert_eq!(
        decode(b"%layout-change 1 80 24"),
        Event::LayoutChanged { pane_id: 1, width: 80, height: 24, cursor: None }
    );
}

#[test]
fn decodes_layout_change_with_cursor() {
    assert_eq!(
        decode(b"%layout-change 5 132 43 7 9"),
        Event::LayoutChanged {
            pane_id: 5,
            width: 132,
            height: 43,
            cursor: Some(Cursor { x: 7, y: 9 })
        }
    );
}

#[test]
fn layout_change_ignores_later_fields() {
    assert_eq!(
        decode(b"%layout-change 5 132 43 7 9 extra fields here"),
        Event::LayoutChanged {
            pane_id: 5,
            width: 132,
            height: 43,
            cursor: Some(Cursor { x: 7, y: 9 })
        }
    );
    assert_eq!(
        decode(b"%layout-change 5 132 43 7"),
        Event::LayoutChanged { pane_id: 5, width: 132, height: 43, cursor: None }
    );
    assert_eq!(
        decode(b"%layout-change 5 132 43 x 9"),
        Event::LayoutChanged { pane_id: 5, width: 132, height: 43, cursor: None }
    );
}

#[test]
fn layout_change_limits() {
    assert_eq!(
        decode(b"%layout-change 18446744073709551615 65535 0"),
        Event::LayoutChanged { pane_id: u64::MAX, width: 65535, height: 0, cursor: None }
    );
    for line in [
        &b"%layout-change 1 65536 24"[..],
        &b"%layout-change 18446744073709551616 80 24"[..],
        &b"%layout-change 1 80"[..],
        &b"%layout-change 1  80 24"[..],
        &b"%layout-change 1 80 -24"[..],
        &b"%layout-change"[..],
        &b"%layout-change "[..],
    ] {
        assert_eq!(decode(line), Event::Unknown { raw: line.to_vec() });
    }
}

#[test]
fn numbers_accept_leading_zeros() {
    assert_eq!(
        decode(b"%layout-change 0001 000000000000000000000000080 024"),
        Event::LayoutChanged { pane_id: 1, width: 80, height: 24, cursor: None }
    );
}

#[test]
fn decodes_pane_exit() {
    assert_eq!(decode(b"%pane-exit 1 0"), Event::PaneExited { pane_id: 1, status: 0 });
    assert_eq!(
        decode(b"%pane-exit 9 4294967295 later"),
        Event::PaneExited { pane_id: 9, status: u32::MAX }
    );
    for line in [&b"%pane-exit 1"[..], &b"%pane-exit 1 4294967296"[..], &b"%pane-exit x 0"[..]] {
        assert_eq!(decode(line), Event::Unknown { raw: line.to_vec() });
    }
}

#[test]
fn decodes_pane_add() {
    assert_eq!(decode(b"%pane-add 1"), Event::PaneAdded { pane_id: 1, parent_window: None });
    assert_eq!(decode(b"%pane-add 1 4"), Event::PaneAdded { pane_id: 1, parent_window: Some(4) });
    assert_eq!(decode(b"%pane-add 1 w4"), Event::PaneAdded { pane_id: 1, parent_window: None });
    assert_eq!(decode(b"%pane-add"), Event::Unknown { raw: b"%pane-add".to_vec() });
    assert_eq!(decode(b"%pane-add %1"), Event::Unknown { raw: b"%pane-add %1".to_vec() });
}

#[test]
fn decodes_command_reply() {
    assert_eq!(
        decode(b"%command-reply 17 ok: done \\033"),
        Event::CommandReply { seq: 17, payload: b"ok: done \\033".to_vec() }
    );
    assert_eq!(decode(b"%command-reply 17"), Event::CommandReply { seq: 17, payload: vec![] });
    assert_eq!(decode(b"%command-reply 17 "), Event::CommandReply { seq: 17, payload: vec![] });
    assert_eq!(decode(b"%command-reply"), Event::Unknown { raw: b"%command-reply".to_vec() });
}

#[test]
fn unrecognised_lines_are_unknown() {
    for line in [
        &b""[..],
        &b" "[..],
        &b"hello"[..],
        &b"%outputs 1 x"[..],
        &b"%OUTPUT 1 x"[..],
        &b"%window-add 3"[..],
        &b" %output 1 x"[..],
        &b"%output\t1 x"[..],
    ] {
        assert_eq!(decode(line), Event::Unknown { raw: line.to_vec() });
    }
}

#[test]
fn decoding_twice_gives_the_same_event() {
    let lines: [&[u8]; 5] = [
        b"%output 1 a\\033b",
        b"%layout-change 1 80 24 3 4",
        b"%pane-exit 1 2",
        b"%pane-add 1 2",
        b"garbage \\",
    ];
    for line in lines {
        let first = decode(line);
        let _other = decode(b"%output 9 zzz");
        let second = decode(line);
        assert_eq!(first, second);
    }
}

#[test]
fn escape_writes_three_octal_digits() {
    assert_eq!(escape(&[0x00, 0x07, 0x1b, 0x1f, 0x5c]), b"\\000\\007\\033\\037\\134".to_vec());
    assert_eq!(escape(b"plain text ~"), b"plain text ~".to_vec());
    assert_eq!(escape(&[0x20, 0x7f, 0x80, 0xff]), vec![0x20, 0x7f, 0x80, 0xff]);
    assert_eq!(escape(b""), Vec::<u8>::new());
}

#[test]
fn unescape_reads_three_octal_digits() {
    assert_eq!(unescape(b"\\000\\007\\033\\037\\134"), Some(vec![0x00, 0x07, 0x1b, 0x1f, 0x5c]));
    assert_eq!(unescape(b"a\\012b"), Some(vec![b'a', 0x0a, b'b']));
    assert_eq!(unescape(b""), Some(vec![]));
    assert_eq!(unescape(b"\\040"), None);
    assert_eq!(unescape(b"\\12"), None);
    assert_eq!(unescape(b"\\"), None);
    assert_eq!(unescape(b"\n"), None);
    assert_eq!(unescape(b"\\777"), None);
}

#[test]
fn escape_and_unescape_are_inverse_on_every_byte() {
    let all: Vec<u8> = (0u8..=255).collect();
    let text = escape(&all);
    assert!(text.iter().all(|b| *b >= 0x20));
    assert_eq!(unescape(&text), Some(all.clone()));
    for b in 0u8..=255 {
        let one = escape(&[b]);
        assert_eq!(unescape(&one), Some(vec![b]));
        assert_eq!(escape(&unescape(&one).unwrap()), one);
    }
}

#[test]
fn find_returns_first_index_or_length() {
    assert_eq!(find(b"ab cd ef", 0, b' '), 2);
    assert_eq!(find(b"ab cd ef", 2, b' '), 2);
    assert_eq!(find(b"ab cd ef", 3, b' '), 5);
    assert_eq!(find(b"ab cd ef", 6, b' '), 8);
    assert_eq!(find(b"", 0, b' '), 0);
    assert_eq!(find(b"abc", 3, b'a'), 3);
}

#[test]
fn range_is_compares_exactly() {
    assert!(range_is(b"%output 1", 0, 7, b"%output"));
    assert!(!range_is(b"%output 1", 0, 6, b"%output"));
    assert!(!range_is(b"%outpux 1", 0, 7, b"%output"));
    assert!(range_is(b"abc", 1, 1, b""));
}

#[test]
fn parse_number_reads_decimal_within_limit() {
    assert_eq!(parse_number(b"x123y", 1, 4, 1000), Some(123));
    assert_eq!(parse_number(b"x123y", 1, 4, 123), Some(123));
    assert_eq!(parse_number(b"x123y", 1, 4, 122), None);
    assert_eq!(parse_number(b"x123y", 1, 5, 1000), None);
    assert_eq!(parse_number(b"x123y", 1, 1, 1000), None);
    assert_eq!(parse_number(b"0", 0, 1, 0), Some(0));
    assert_eq!(parse_number(b"18446744073709551615", 0, 20, u64::MAX), Some(u64::MAX));
    assert_eq!(parse_number(b"18446744073709551616", 0, 20, u64::MAX), None);
    assert_eq!(parse_number(b"99999999999999999999999", 0, 23, u64::MAX), None);
    assert_eq!(parse_number(b"+1", 0, 2, 10), None);
}

#[test]
fn push_decimal_writes_shortest_form() {
    for (n, text) in [
        (0u64, "0"),
        (7, "7"),
        (10, "10"),
        (65535, "65535"),
        (u64::MAX, "18446744073709551615"),
    ] {
        let mut out = b">".to_vec();
        push_decimal(&mut out, n);
        assert_eq!(out, format!(">{}", text).into_bytes());
        assert_eq!(parse_number(&out, 1, out.len(), u64::MAX), Some(n));
    }
}

#[test]
fn shortest_form_of_each_event_reads_back() {
    let mut payload = escape(&[0x00, b' ', b'x', 0x5c, 0xfe]);
    let mut output = b"%output 18446744073709551615 ".to_vec();
    output.append(&mut payload);
    assert_eq!(
        decode(&output),
        Event::Output { pane_id: u64::MAX, data: vec![0x00, b' ', b'x', 0x5c, 0xfe] }
    );
    assert_eq!(
        decode(b"%layout-change 0 0 0 0 0"),
        Event::LayoutChanged { pane_id: 0, width: 0, height: 0, cursor: Some(Cursor { x: 0, y: 0 }) }
    );
    assert_eq!(
        decode(b"%layout-change 7 65535 65535 65535 65535"),
        Event::LayoutChanged {
            pane_id: 7,
            width: 65535,
            height: 65535,
            cursor: Some(Cursor { x: 65535, y: 65535 })
        }
    );
    assert_eq!(
        decode(b"%pane-add 0 18446744073709551615"),
        Event::PaneAdded { pane_id: 0, parent_window: Some(u64::MAX) }
    );
    assert_eq!(
        decode(b"%command-reply 18446744073709551615  two  spaces "),
        Event::CommandReply { seq: u64::MAX, payload: b" two  spaces ".to_vec() }
    );
}
