//! Notification codec: one protocol line in, one typed event out.
//!
//! The stream is cut into lines by [`crate::lines`]. A notification line is
//! a marker, a space, and fields separated by single spaces:
//!
//! ```text
//! %output <pane> <escaped payload>
//! %layout-change <pane> <width> <height> [<cursor x> <cursor y>] ...
//! %pane-exit <pane> <status> ...
//! %pane-add <pane> [<window>] ...
//! %command-reply <seq> [<payload>]
//! ```
//!
//! Numbers are decimal. Fields after the ones listed are ignored, so that a
//! later protocol revision can add fields. A line that fits none of these
//! forms decodes to [`Event::Unknown`] with the line as it came; decoding
//! never fails and holds no state.

use vstd::prelude::*;
use crate::escape::{
    escaped, lemma_escaped_is_printable, lemma_unescape_escape, unescaped, unescape_from,
};
use crate::text::{
    SPACE, copy_range, decimal, field, field_start, find, find_from, following, is_field, joined,
    lemma_decimal_unbroken, lemma_first_number, lemma_joined, lemma_last_number,
    lemma_unbroken_joined, number, number_field, parse_number, range_is, tail, unbroken,
};

verus! {

/// A cursor position inside a pane, in cells.
#[derive(Clone, Copy, Debug, PartialEq, Eq, Structural)]
pub struct Cursor {
    pub x: u16,
    pub y: u16,
}

/// One decoded notification.
#[derive(Clone, Debug, PartialEq, Eq)]
pub enum Event {
    /// The pane produced output; `data` is the payload with escapes resolved.
    Output { pane_id: u64, data: Vec<u8> },
    /// The pane has a new size and, when the line carried it, cursor position.
    LayoutChanged { pane_id: u64, width: u16, height: u16, cursor: Option<Cursor> },
    /// The pane's process ended with `status`.
    PaneExited { pane_id: u64, status: u32 },
    /// A pane came into being, in `parent_window` when the line named one.
    PaneAdded { pane_id: u64, parent_window: Option<u64> },
    /// The reply to the command that was issued under the number `seq`.
    CommandReply { seq: u64, payload: Vec<u8> },
    /// A line of no known form, kept as it came.
    Unknown { raw: Vec<u8> },
}

/// The mathematical value of an [`Event`].
pub enum EventView {
    Output { pane_id: u64, data: Seq<u8> },
    LayoutChanged { pane_id: u64, width: u16, height: u16, cursor: Option<Cursor> },
    PaneExited { pane_id: u64, status: u32 },
    PaneAdded { pane_id: u64, parent_window: Option<u64> },
    CommandReply { seq: u64, payload: Seq<u8> },
    Unknown { raw: Seq<u8> },
}

impl View for Event {
    type V = EventView;

    open spec fn view(&self) -> EventView {
        match self {
            Event::Output { pane_id, data } => EventView::Output { pane_id: *pane_id, data: data@ },
            Event::LayoutChanged { pane_id, width, height, cursor } => EventView::LayoutChanged {
                pane_id: *pane_id,
                width: *width,
                height: *height,
                cursor: *cursor,
            },
            Event::PaneExited { pane_id, status } => EventView::PaneExited {
                pane_id: *pane_id,
                status: *status,
            },
            Event::PaneAdded { pane_id, parent_window } => EventView::PaneAdded {
                pane_id: *pane_id,
                parent_window: *parent_window,
            },
            Event::CommandReply { seq, payload } => EventView::CommandReply {
                seq: *seq,
                payload: payload@,
            },
            Event::Unknown { raw } => EventView::Unknown { raw: raw@ },
        }
    }
}

/// The marker `%output`.
pub open spec fn output_marker() -> Seq<u8> {
    seq![
        '%' as u8, 'o' as u8, 'u' as u8, 't' as u8, 'p' as u8, 'u' as u8, 't' as u8,
    ]
}

/// The marker `%layout-change`.
pub open spec fn layout_marker() -> Seq<u8> {
    seq![
        '%' as u8, 'l' as u8, 'a' as u8, 'y' as u8, 'o' as u8, 'u' as u8, 't' as u8, '-' as u8,
        'c' as u8, 'h' as u8, 'a' as u8, 'n' as u8, 'g' as u8, 'e' as u8,
    ]
}

/// The marker `%pane-exit`.
pub open spec fn exit_marker() -> Seq<u8> {
    seq![
        '%' as u8, 'p' as u8, 'a' as u8, 'n' as u8, 'e' as u8, '-' as u8, 'e' as u8, 'x' as u8,
        'i' as u8, 't' as u8,
    ]
}

/// The marker `%pane-add`.
pub open spec fn add_marker() -> Seq<u8> {
    seq![
        '%' as u8, 'p' as u8, 'a' as u8, 'n' as u8, 'e' as u8, '-' as u8, 'a' as u8, 'd' as u8,
        'd' as u8,
    ]
}

/// The marker `%command-reply`.
pub open spec fn reply_marker() -> Seq<u8> {
    seq![
        '%' as u8, 'c' as u8, 'o' as u8, 'm' as u8, 'm' as u8, 'a' as u8, 'n' as u8, 'd' as u8,
        '-' as u8, 'r' as u8, 'e' as u8, 'p' as u8, 'l' as u8, 'y' as u8,
    ]
}

/// The largest value of each kind of number, as a `nat`.
pub open spec fn max_u64() -> nat {
    u64::MAX as nat
}

pub open spec fn max_u32() -> nat {
    u32::MAX as nat
}

pub open spec fn max_u16() -> nat {
    u16::MAX as nat
}

/// What an `%output` line says: field 1 is the pane, and everything after the
/// separator that ends field 1 is the escaped payload.
pub open spec fn output_of(line: Seq<u8>) -> Option<EventView> {
    match (number_field(line, 1, max_u64()), tail(line, 2)) {
        (Some(pane), Some(text)) => match unescaped(text) {
            Some(data) => Some(EventView::Output { pane_id: pane as u64, data }),
            None => None,
        },
        _ => None,
    }
}

/// The cursor that a `%layout-change` line carries: fields 4 and 5, when both
/// are there and spell numbers.
pub open spec fn cursor_of(line: Seq<u8>) -> Option<Cursor> {
    match (number_field(line, 4, max_u16()), number_field(line, 5, max_u16())) {
        (Some(x), Some(y)) => Some(Cursor { x: x as u16, y: y as u16 }),
        _ => None,
    }
}

/// What a `%layout-change` line says: fields 1 to 3 are pane, width and
/// height.
pub open spec fn layout_of(line: Seq<u8>) -> Option<EventView> {
    match (
        number_field(line, 1, max_u64()),
        number_field(line, 2, max_u16()),
        number_field(line, 3, max_u16()),
    ) {
        (Some(pane), Some(width), Some(height)) => Some(
            EventView::LayoutChanged {
                pane_id: pane as u64,
                width: width as u16,
                height: height as u16,
                cursor: cursor_of(line),
            },
        ),
        _ => None,
    }
}

/// What a `%pane-exit` line says: fields 1 and 2 are pane and exit status.
pub open spec fn exit_of(line: Seq<u8>) -> Option<EventView> {
    match (number_field(line, 1, max_u64()), number_field(line, 2, max_u32())) {
        (Some(pane), Some(status)) => Some(
            EventView::PaneExited { pane_id: pane as u64, status: status as u32 },
        ),
        _ => None,
    }
}

/// What a `%pane-add` line says: field 1 is the pane, and field 2 the window
/// when it is there and spells a number.
pub open spec fn add_of(line: Seq<u8>) -> Option<EventView> {
    match number_field(line, 1, max_u64()) {
        Some(pane) => Some(
            EventView::PaneAdded {
                pane_id: pane as u64,
                parent_window: match number_field(line, 2, max_u64()) {
                    Some(window) => Some(window as u64),
                    None => None,
                },
            },
        ),
        None => None,
    }
}

/// What a `%command-reply` line says: field 1 is the command's number, and
/// everything after the separator that ends field 1 is the payload, taken as
/// it is. Without that separator the payload is empty.
pub open spec fn reply_of(line: Seq<u8>) -> Option<EventView> {
    match number_field(line, 1, max_u64()) {
        Some(seq) => Some(
            EventView::CommandReply {
                seq: seq as u64,
                payload: match tail(line, 2) {
                    Some(payload) => payload,
                    None => Seq::empty(),
                },
            },
        ),
        None => None,
    }
}

/// The event that `line` decodes to.
pub open spec fn decode_spec(line: Seq<u8>) -> EventView {
    let marker = line.subrange(0, find_from(line, 0, SPACE));
    let known = if marker == output_marker() {
        output_of(line)
    } else if marker == layout_marker() {
        layout_of(line)
    } else if marker == exit_marker() {
        exit_of(line)
    } else if marker == add_marker() {
        add_of(line)
    } else if marker == reply_marker() {
        reply_of(line)
    } else {
        None
    };
    match known {
        Some(event) => event,
        None => EventView::Unknown { raw: line },
    }
}

/// An event of a known kind is decoded only from a line that starts with the
/// marker of that kind, and an unknown line is kept whole.
pub proof fn lemma_kind_follows_marker(line: Seq<u8>)
    ensures
        decode_spec(line) matches EventView::Unknown { raw } ==> raw == line,
        decode_spec(line) is Output ==> line.subrange(0, find_from(line, 0, SPACE))
            == output_marker(),
        decode_spec(line) is LayoutChanged ==> line.subrange(0, find_from(line, 0, SPACE))
            == layout_marker(),
        decode_spec(line) is PaneExited ==> line.subrange(0, find_from(line, 0, SPACE))
            == exit_marker(),
        decode_spec(line) is PaneAdded ==> line.subrange(0, find_from(line, 0, SPACE))
            == add_marker(),
        decode_spec(line) is CommandReply ==> line.subrange(0, find_from(line, 0, SPACE))
            == reply_marker(),
{
    assert(output_marker().len() == 7);
    assert(layout_marker().len() == 14);
    assert(exit_marker().len() == 10);
    assert(add_marker().len() == 9);
    assert(reply_marker().len() == 14);
    assert(layout_marker()[1] != reply_marker()[1]);
}

/// The line that states `event` in its shortest form: the marker and the
/// fields, numbers without leading zeros, a payload escaped, nothing after
/// the last field. An unknown line is itself.
pub open spec fn line_of(event: EventView) -> Seq<u8> {
    match event {
        EventView::Output { pane_id, data } => joined(
            output_marker(),
            joined(decimal(pane_id as nat), escaped(data)),
        ),
        EventView::LayoutChanged { pane_id, width, height, cursor } => joined(
            layout_marker(),
            joined(
                decimal(pane_id as nat),
                joined(
                    decimal(width as nat),
                    match cursor {
                        Some(c) => joined(
                            decimal(height as nat),
                            joined(decimal(c.x as nat), decimal(c.y as nat)),
                        ),
                        None => decimal(height as nat),
                    },
                ),
            ),
        ),
        EventView::PaneExited { pane_id, status } => joined(
            exit_marker(),
            joined(decimal(pane_id as nat), decimal(status as nat)),
        ),
        EventView::PaneAdded { pane_id, parent_window } => joined(
            add_marker(),
            match parent_window {
                Some(window) => joined(decimal(pane_id as nat), decimal(window as nat)),
                None => decimal(pane_id as nat),
            },
        ),
        EventView::CommandReply { seq, payload } => joined(
            reply_marker(),
            joined(decimal(seq as nat), payload),
        ),
        EventView::Unknown { raw } => raw,
    }
}

proof fn lemma_markers()
    ensures
        is_field(output_marker()),
        is_field(layout_marker()),
        is_field(exit_marker()),
        is_field(add_marker()),
        is_field(reply_marker()),
        output_marker().len() == 7,
        layout_marker().len() == 14,
        exit_marker().len() == 10,
        add_marker().len() == 9,
        reply_marker().len() == 14,
        layout_marker() != reply_marker(),
{
    assert(layout_marker()[1] != reply_marker()[1]);
}

/// Decoding reads back what the shortest form states: for every event, the
/// line that states it decodes to that event, with every number and every
/// payload byte as it was. For an unknown line this asks that the line is
/// indeed of no known form.
pub proof fn lemma_decode_line_of(event: EventView)
    requires
        event matches EventView::Unknown { raw } ==> decode_spec(raw) is Unknown,
    ensures
        decode_spec(line_of(event)) == event,
{
    lemma_markers();
    let line = line_of(event);
    match event {
        EventView::Output { pane_id, data } => {
            let rest = joined(decimal(pane_id as nat), escaped(data));
            lemma_joined(output_marker(), rest);
            lemma_first_number(pane_id as nat, max_u64(), escaped(data));
            lemma_unescape_escape(data);
            assert(field(rest, 0) == field(line, 1));
            assert(tail(rest, 1) == tail(line, 2));
            assert(tail(escaped(data), 0) == tail(rest, 1));
            assert(field_start(escaped(data), 0) == Some(0int));
            assert(escaped(data).skip(0) =~= escaped(data));
            assert(number_field(line, 1, max_u64()) == Some(pane_id as nat));
            assert(tail(line, 2) == Some(escaped(data)));
        },
        EventView::LayoutChanged { pane_id, width, height, cursor } => {
            let last = match cursor {
                Some(c) => joined(
                    decimal(height as nat),
                    joined(decimal(c.x as nat), decimal(c.y as nat)),
                ),
                None => decimal(height as nat),
            };
            let third = joined(decimal(width as nat), last);
            let rest = joined(decimal(pane_id as nat), third);
            lemma_joined(layout_marker(), rest);
            lemma_first_number(pane_id as nat, max_u64(), third);
            lemma_first_number(width as nat, max_u16(), last);
            assert(field(rest, 0) == field(line, 1));
            assert(field(rest, 1) == field(line, 2));
            assert(field(rest, 2) == field(line, 3));
            assert(field(rest, 3) == field(line, 4));
            assert(field(rest, 4) == field(line, 5));
            assert(field(third, 0) == field(rest, 1));
            assert(field(third, 1) == field(rest, 2));
            assert(field(third, 2) == field(rest, 3));
            assert(field(third, 3) == field(rest, 4));
            assert(field(last, 0) == field(third, 1));
            assert(field(last, 1) == field(third, 2));
            assert(field(last, 2) == field(third, 3));
            match cursor {
                Some(c) => {
                    let pair = joined(decimal(c.x as nat), decimal(c.y as nat));
                    lemma_first_number(height as nat, max_u16(), pair);
                    lemma_first_number(c.x as nat, max_u16(), decimal(c.y as nat));
                    lemma_last_number(c.y as nat, max_u16());
                    assert(field(pair, 0) == field(last, 1));
                    assert(field(pair, 1) == field(last, 2));
                    assert(field(decimal(c.y as nat), 0) == field(pair, 1));
                    assert(number_field(line, 3, max_u16()) == Some(height as nat));
                    assert(number_field(line, 4, max_u16()) == Some(c.x as nat));
                    assert(number_field(line, 5, max_u16()) == Some(c.y as nat));
                    assert(cursor_of(line) == Some(c));
                },
                None => {
                    lemma_last_number(height as nat, max_u16());
                    assert(field(last, 1) is None);
                    assert(number_field(line, 3, max_u16()) == Some(height as nat));
                    assert(number_field(line, 4, max_u16()) is None);
                    assert(cursor_of(line) is None);
                },
            }
            assert(number_field(line, 1, max_u64()) == Some(pane_id as nat));
            assert(number_field(line, 2, max_u16()) == Some(width as nat));
        },
        EventView::PaneExited { pane_id, status } => {
            let rest = joined(decimal(pane_id as nat), decimal(status as nat));
            lemma_joined(exit_marker(), rest);
            lemma_first_number(pane_id as nat, max_u64(), decimal(status as nat));
            lemma_last_number(status as nat, max_u32());
            assert(field(rest, 0) == field(line, 1));
            assert(field(rest, 1) == field(line, 2));
            assert(field(decimal(status as nat), 0) == field(rest, 1));
            assert(number_field(line, 1, max_u64()) == Some(pane_id as nat));
            assert(number_field(line, 2, max_u32()) == Some(status as nat));
        },
        EventView::PaneAdded { pane_id, parent_window } => {
            let rest = match parent_window {
                Some(window) => joined(decimal(pane_id as nat), decimal(window as nat)),
                None => decimal(pane_id as nat),
            };
            lemma_joined(add_marker(), rest);
            assert(field(rest, 0) == field(line, 1));
            assert(field(rest, 1) == field(line, 2));
            match parent_window {
                Some(window) => {
                    lemma_first_number(pane_id as nat, max_u64(), decimal(window as nat));
                    lemma_last_number(window as nat, max_u64());
                    assert(field(decimal(window as nat), 0) == field(rest, 1));
                    assert(number_field(line, 2, max_u64()) == Some(window as nat));
                },
                None => {
                    lemma_last_number(pane_id as nat, max_u64());
                    assert(field(rest, 1) is None);
                    assert(number_field(line, 2, max_u64()) is None);
                },
            }
            assert(number_field(line, 1, max_u64()) == Some(pane_id as nat));
        },
        EventView::CommandReply { seq, payload } => {
            let rest = joined(decimal(seq as nat), payload);
            lemma_joined(reply_marker(), rest);
            lemma_first_number(seq as nat, max_u64(), payload);
            assert(field(rest, 0) == field(line, 1));
            assert(tail(rest, 1) == tail(line, 2));
            assert(tail(payload, 0) == tail(rest, 1));
            assert(field_start(payload, 0) == Some(0int));
            assert(payload.skip(0) =~= payload);
            assert(number_field(line, 1, max_u64()) == Some(seq as nat));
            assert(tail(line, 2) == Some(payload));
        },
        EventView::Unknown { raw } => {},
    }
}

/// Decoding settles at once: stating a decoded event in its shortest form
/// and decoding that again gives the same event, for every line.
pub proof fn lemma_decode_is_stable(line: Seq<u8>)
    ensures
        decode_spec(line_of(decode_spec(line))) == decode_spec(line),
{
    lemma_kind_follows_marker(line);
    lemma_decode_line_of(decode_spec(line));
}

/// The line that states an event holds no line feed, so it can be sent as
/// one line. This holds of every event but an unknown line, which is taken
/// as it is, and of a command reply as far as its payload holds none.
pub proof fn lemma_line_of_unbroken(event: EventView)
    requires
        !(event is Unknown),
        event matches EventView::CommandReply { payload, .. } ==> unbroken(payload),
    ensures
        unbroken(line_of(event)),
{
    assert(unbroken(output_marker()));
    assert(unbroken(layout_marker()));
    assert(unbroken(exit_marker()));
    assert(unbroken(add_marker()));
    assert(unbroken(reply_marker()));
    match event {
        EventView::Output { pane_id, data } => {
            lemma_decimal_unbroken(pane_id as nat);
            lemma_escaped_is_printable(data);
            lemma_unbroken_joined(decimal(pane_id as nat), escaped(data));
            lemma_unbroken_joined(
                output_marker(),
                joined(decimal(pane_id as nat), escaped(data)),
            );
        },
        EventView::LayoutChanged { pane_id, width, height, cursor } => {
            lemma_decimal_unbroken(pane_id as nat);
            lemma_decimal_unbroken(width as nat);
            lemma_decimal_unbroken(height as nat);
            let last = match cursor {
                Some(c) => joined(
                    decimal(height as nat),
                    joined(decimal(c.x as nat), decimal(c.y as nat)),
                ),
                None => decimal(height as nat),
            };
            if let Some(c) = cursor {
                lemma_decimal_unbroken(c.x as nat);
                lemma_decimal_unbroken(c.y as nat);
                lemma_unbroken_joined(decimal(c.x as nat), decimal(c.y as nat));
                lemma_unbroken_joined(
                    decimal(height as nat),
                    joined(decimal(c.x as nat), decimal(c.y as nat)),
                );
            }
            lemma_unbroken_joined(decimal(width as nat), last);
            lemma_unbroken_joined(decimal(pane_id as nat), joined(decimal(width as nat), last));
            lemma_unbroken_joined(
                layout_marker(),
                joined(decimal(pane_id as nat), joined(decimal(width as nat), last)),
            );
        },
        EventView::PaneExited { pane_id, status } => {
            lemma_decimal_unbroken(pane_id as nat);
            lemma_decimal_unbroken(status as nat);
            lemma_unbroken_joined(decimal(pane_id as nat), decimal(status as nat));
            lemma_unbroken_joined(
                exit_marker(),
                joined(decimal(pane_id as nat), decimal(status as nat)),
            );
        },
        EventView::PaneAdded { pane_id, parent_window } => {
            lemma_decimal_unbroken(pane_id as nat);
            let rest = match parent_window {
                Some(window) => joined(decimal(pane_id as nat), decimal(window as nat)),
                None => decimal(pane_id as nat),
            };
            if let Some(window) = parent_window {
                lemma_decimal_unbroken(window as nat);
                lemma_unbroken_joined(decimal(pane_id as nat), decimal(window as nat));
            }
            lemma_unbroken_joined(add_marker(), rest);
        },
        EventView::CommandReply { seq, payload } => {
            lemma_decimal_unbroken(seq as nat);
            lemma_unbroken_joined(decimal(seq as nat), payload);
            lemma_unbroken_joined(reply_marker(), joined(decimal(seq as nat), payload));
        },
        EventView::Unknown { raw } => {},
    }
}

/// Where the field after the one starting at `start` begins.
fn next_start(line: &[u8], start: Option<usize>) -> (next: Option<usize>)
    requires
        start matches Some(p) ==> p <= line.len(),
    ensures
        next matches Some(q) ==> q <= line.len(),
        match start {
            Some(p) => match next {
                Some(q) => following(line@, p as int) == Some(q as int),
                None => following(line@, p as int) is None,
            },
            None => next is None,
        },
{
    match start {
        Some(p) => {
            let end = find(line, p, SPACE);
            if end < line.len() {
                Some(end + 1)
            } else {
                None
            }
        },
        None => None,
    }
}

/// The number in the field that starts at `start`.
fn number_at(line: &[u8], start: Option<usize>, max: u64) -> (value: Option<u64>)
    requires
        start matches Some(p) ==> p <= line.len(),
    ensures
        value matches Some(v) ==> v <= max,
        match start {
            Some(p) => number(
                line@.subrange(p as int, find_from(line@, p as int, SPACE)),
                max as nat,
            ) == match value {
                Some(v) => Some(v as nat),
                None => None,
            },
            None => value is None,
        },
{
    match start {
        Some(p) => {
            let end = find(line, p, SPACE);
            parse_number(line, p, end, max)
        },
        None => None,
    }
}

fn decode_output(line: &[u8]) -> (event: Option<Event>)
    ensures
        match output_of(line@) {
            Some(e) => event is Some && event.unwrap()@ == e,
            None => event is None,
        },
{
    proof {
        reveal_with_fuel(field_start, 3);
    }
    let first = next_start(line, Some(0));
    let second = next_start(line, first);
    let pane = number_at(line, first, u64::MAX);
    match (pane, second) {
        (Some(pane_id), Some(start)) => match unescape_from(line, start) {
            Some(data) => Some(Event::Output { pane_id, data }),
            None => None,
        },
        _ => None,
    }
}

fn decode_layout(line: &[u8]) -> (event: Option<Event>)
    ensures
        match layout_of(line@) {
            Some(e) => event is Some && event.unwrap()@ == e,
            None => event is None,
        },
{
    proof {
        reveal_with_fuel(field_start, 6);
    }
    let first = next_start(line, Some(0));
    let second = next_start(line, first);
    let third = next_start(line, second);
    let fourth = next_start(line, third);
    let fifth = next_start(line, fourth);
    let pane = number_at(line, first, u64::MAX);
    let width = number_at(line, second, 0xffff);
    let height = number_at(line, third, 0xffff);
    let x = number_at(line, fourth, 0xffff);
    let y = number_at(line, fifth, 0xffff);
    match (pane, width, height) {
        (Some(pane_id), Some(w), Some(h)) => {
            let cursor = match (x, y) {
                (Some(cx), Some(cy)) => Some(Cursor { x: cx as u16, y: cy as u16 }),
                _ => None,
            };
            Some(Event::LayoutChanged { pane_id, width: w as u16, height: h as u16, cursor })
        },
        _ => None,
    }
}

fn decode_exit(line: &[u8]) -> (event: Option<Event>)
    ensures
        match exit_of(line@) {
            Some(e) => event is Some && event.unwrap()@ == e,
            None => event is None,
        },
{
    proof {
        reveal_with_fuel(field_start, 3);
    }
    let first = next_start(line, Some(0));
    let second = next_start(line, first);
    let pane = number_at(line, first, u64::MAX);
    let status = number_at(line, second, 0xffff_ffff);
    match (pane, status) {
        (Some(pane_id), Some(s)) => Some(Event::PaneExited { pane_id, status: s as u32 }),
        _ => None,
    }
}

fn decode_add(line: &[u8]) -> (event: Option<Event>)
    ensures
        match add_of(line@) {
            Some(e) => event is Some && event.unwrap()@ == e,
            None => event is None,
        },
{
    proof {
        reveal_with_fuel(field_start, 3);
    }
    let first = next_start(line, Some(0));
    let second = next_start(line, first);
    let pane = number_at(line, first, u64::MAX);
    let parent_window = number_at(line, second, u64::MAX);
    match pane {
        Some(pane_id) => Some(Event::PaneAdded { pane_id, parent_window }),
        None => None,
    }
}

fn decode_reply(line: &[u8]) -> (event: Option<Event>)
    ensures
        match reply_of(line@) {
            Some(e) => event is Some && event.unwrap()@ == e,
            None => event is None,
        },
{
    proof {
        reveal_with_fuel(field_start, 3);
    }
    let first = next_start(line, Some(0));
    let second = next_start(line, first);
    let number = number_at(line, first, u64::MAX);
    match number {
        Some(seq) => {
            let payload = match second {
                Some(start) => {
                    let copy = copy_range(line, start, line.len());
                    assert(line@.subrange(start as int, line.len() as int) =~= line@.skip(
                        start as int,
                    ));
                    copy
                },
                None => Vec::new(),
            };
            Some(Event::CommandReply { seq, payload })
        },
        None => None,
    }
}

/// Decodes one protocol line, given without its line end.
///
/// The result depends on the bytes of `line` alone.
pub fn decode(line: &[u8]) -> (event: Event)
    ensures
        event@ == decode_spec(line@),
{
    let end = find(line, 0, SPACE);
    let output: [u8; 7] = [
        '%' as u8, 'o' as u8, 'u' as u8, 't' as u8, 'p' as u8, 'u' as u8, 't' as u8,
    ];
    let layout: [u8; 14] = [
        '%' as u8, 'l' as u8, 'a' as u8, 'y' as u8, 'o' as u8, 'u' as u8, 't' as u8, '-' as u8,
        'c' as u8, 'h' as u8, 'a' as u8, 'n' as u8, 'g' as u8, 'e' as u8,
    ];
    let exit: [u8; 10] = [
        '%' as u8, 'p' as u8, 'a' as u8, 'n' as u8, 'e' as u8, '-' as u8, 'e' as u8, 'x' as u8,
        'i' as u8, 't' as u8,
    ];
    let add: [u8; 9] = [
        '%' as u8, 'p' as u8, 'a' as u8, 'n' as u8, 'e' as u8, '-' as u8, 'a' as u8, 'd' as u8,
        'd' as u8,
    ];
    let reply: [u8; 14] = [
        '%' as u8, 'c' as u8, 'o' as u8, 'm' as u8, 'm' as u8, 'a' as u8, 'n' as u8, 'd' as u8,
        '-' as u8, 'r' as u8, 'e' as u8, 'p' as u8, 'l' as u8, 'y' as u8,
    ];
    assert(output@ =~= output_marker());
    assert(layout@ =~= layout_marker());
    assert(exit@ =~= exit_marker());
    assert(add@ =~= add_marker());
    assert(reply@ =~= reply_marker());
    let known = if range_is(line, 0, end, &output) {
        decode_output(line)
    } else if range_is(line, 0, end, &layout) {
        decode_layout(line)
    } else if range_is(line, 0, end, &exit) {
        decode_exit(line)
    } else if range_is(line, 0, end, &add) {
        decode_add(line)
    } else if range_is(line, 0, end, &reply) {
        decode_reply(line)
    } else {
        None
    };
    match known {
        Some(event) => event,
        None => {
            let raw = copy_range(line, 0, line.len());
            assert(line@.subrange(0, line.len() as int) =~= line@);
            Event::Unknown { raw }
        },
    }
}

} // verus!
