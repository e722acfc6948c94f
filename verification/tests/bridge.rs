use pane_bridge::command::{Command, CommandEncoder};
use pane_bridge::connection::ControlConnection;
use pane_bridge::pty::{Arrival, PaneSize, ReadOutcome, TmuxPty, TmuxReader};
use pane_bridge::registry::{Outcome, Registry};

fn size(cols: u16, rows: u16) -> PaneSize {
    PaneSize { rows, cols, pixel_width: 0, pixel_height: 0 }
}

fn read_all(reader: &mut TmuxReader, capacity: usize) -> Vec<u8> {
    let mut out = Vec::new();
    let mut buf = vec![0u8; capacity];
    loop {
        match reader.read(&mut buf) {
            ReadOutcome::Data(n) => out.extend_from_slice(&buf[..n]),
            ReadOutcome::Nothing => {}
            ReadOutcome::Closed => return out,
        }
    }
}

fn count(outcome: ReadOutcome) -> usize {
    match outcome {
        ReadOutcome::Data(n) => n,
        ReadOutcome::Nothing | ReadOutcome::Closed => 0,
    }
}

#[test]
fn pane_lives_from_add_to_exit() {
    let mut registry = Registry::new();
    let mut connection = ControlConnection::new();

    let mut results = connection.feed(b"%pane-add 1\n", &mut registry);
    assert_eq!(results.len(), 1);
    let pty = results.remove(0).pane.expect("handle of pane 1");
    let mut reader = pty.try_clone_reader();

    let results = connection.feed(b"%layout-change 1 80 24\n", &mut registry);
    assert_eq!(results[0].outcome, Outcome::Resized);
    assert_eq!(pty.get_size(&registry), Some(size(80, 24)));

    let results = connection.feed(b"%output 1 \"hello\"\n", &mut registry);
    assert_eq!(results[0].outcome, Outcome::Forwarded);
    let mut buf = [0u8; 64];
    let n = count(reader.read(&mut buf));
    assert_eq!(&buf[..n], b"\"hello\"");

    let results = connection.feed(b"%pane-exit 1 0\n", &mut registry);
    assert_eq!(results[0].outcome, Outcome::Exited);
    assert_eq!(reader.read(&mut buf), ReadOutcome::Closed);
    assert_eq!(pty.try_wait(&registry), Some(0));
}

#[test]
fn pane_lives_from_add_to_exit_in_one_feed() {
    let mut registry = Registry::new();
    let mut connection = ControlConnection::new();
    let mut results = connection.feed(
        b"%pane-add 1\n%layout-change 1 80 24\n%output 1 hello\n%pane-exit 1 0\n",
        &mut registry,
    );
    assert_eq!(results.len(), 4);
    let outcomes: Vec<Outcome> = results.iter().map(|r| r.outcome).collect();
    assert_eq!(outcomes, vec![Outcome::Added, Outcome::Resized, Outcome::Forwarded, Outcome::Exited]);
    let pty = results.remove(0).pane.unwrap();
    assert_eq!(pty.get_size(&registry), Some(size(80, 24)));
    let mut reader = pty.try_clone_reader();
    let mut buf = [0u8; 64];
    let n = count(reader.read(&mut buf));
    assert_eq!(&buf[..n], b"hello");
    assert_eq!(reader.read(&mut buf), ReadOutcome::Closed);
}

#[test]
fn lines_for_a_pane_never_added_are_dropped() {
    let mut registry = Registry::new();
    let mut connection = ControlConnection::new();
    let _first = connection.feed(b"%pane-add 1\n", &mut registry);
    let before = registry.len();
    let results = connection.feed(
        b"%output 99 x\n%layout-change 99 1 1\n%pane-exit 99 0\n",
        &mut registry,
    );
    assert_eq!(results.len(), 3);
    for applied in &results {
        assert_eq!(applied.outcome, Outcome::UnknownPane);
    }
    assert_eq!(registry.len(), before);
    assert!(registry.get(99).is_none());
}

#[test]
fn interleaved_output_reaches_only_its_own_pane_in_order() {
    let mut registry = Registry::new();
    let mut connection = ControlConnection::new();
    let mut results = connection.feed(b"%pane-add 1\n%pane-add 2\n", &mut registry);
    let b = results.pop().unwrap().pane.unwrap();
    let a = results.pop().unwrap().pane.unwrap();
    let mut stream = Vec::new();
    let mut want_a = Vec::new();
    let mut want_b = Vec::new();
    for i in 0..200u32 {
        let to_a = (i * 7 + i / 3) % 5 < 3;
        let text = format!("<{}:{}>", if to_a { 'a' } else { 'b' }, i);
        stream.extend_from_slice(
            format!("%output {} {}\\015\\012\n", if to_a { 1 } else { 2 }, text).as_bytes(),
        );
        let wanted = if to_a { &mut want_a } else { &mut want_b };
        wanted.extend_from_slice(text.as_bytes());
        wanted.extend_from_slice(b"\r\n");
    }
    for piece in stream.chunks(13) {
        let results = connection.feed(piece, &mut registry);
        assert!(results.iter().all(|r| r.outcome == Outcome::Forwarded));
    }
    connection.close(&mut registry);
    assert_eq!(read_all(&mut a.try_clone_reader(), 7), want_a);
    assert_eq!(read_all(&mut b.try_clone_reader(), 4096), want_b);
}

#[test]
fn feed_keeps_unfinished_line_between_calls() {
    let mut registry = Registry::new();
    let mut connection = ControlConnection::new();
    assert_eq!(connection.feed(b"%pane-", &mut registry).len(), 0);
    assert_eq!(connection.feed(b"add 4", &mut registry).len(), 0);
    assert_eq!(registry.len(), 0);
    let results = connection.feed(b"\n%layout-change 4 1", &mut registry);
    assert_eq!(results.len(), 1);
    assert_eq!(results[0].outcome, Outcome::Added);
    assert_eq!(registry.get(4).unwrap().width(), 80);
    let results = connection.feed(b"0 5\n\nrest", &mut registry);
    let outcomes: Vec<Outcome> = results.iter().map(|r| r.outcome).collect();
    assert_eq!(outcomes, vec![Outcome::Resized, Outcome::Skipped]);
    assert_eq!((registry.get(4).unwrap().width(), registry.get(4).unwrap().height()), (10, 5));
}

#[test]
fn feed_without_bytes_does_nothing() {
    let mut registry = Registry::new();
    let mut connection = ControlConnection::new();
    assert_eq!(connection.feed(b"", &mut registry).len(), 0);
    assert_eq!(registry.len(), 0);
}

#[test]
fn handle_line_decodes_and_applies() {
    let mut registry = Registry::new();
    let applied = ControlConnection::handle_line(b"%pane-add 6 2", &mut registry);
    assert_eq!(applied.outcome, Outcome::Added);
    assert_eq!(applied.pane.unwrap().pane_id(), 6);
    let applied = ControlConnection::handle_line(b"%layout-change 6 33 44", &mut registry);
    assert_eq!(applied.outcome, Outcome::Resized);
    assert_eq!(registry.get(6).unwrap().height(), 44);
    let applied = ControlConnection::handle_line(b"%layout-change 6 33", &mut registry);
    assert_eq!(applied.outcome, Outcome::Skipped);
}

#[test]
fn close_unblocks_every_reader_with_end_of_stream() {
    let mut registry = Registry::new();
    let mut connection = ControlConnection::new();
    let mut stream = Vec::new();
    for id in 0..16 {
        stream.extend_from_slice(format!("%pane-add {}\n", id).as_bytes());
    }
    let results = connection.feed(&stream, &mut registry);
    let mut readers: Vec<TmuxReader> =
        results.iter().map(|r| r.pane.as_ref().unwrap().try_clone_reader()).collect();
    let handles: Vec<TmuxPty> = results.into_iter().map(|r| r.pane.unwrap()).collect();
    connection.feed(b"%output 3 tail\n%output 5 dropped with the unfinished line", &mut registry);
    connection.close(&mut registry);
    let mut buf = [0u8; 16];
    for (id, reader) in readers.iter_mut().enumerate() {
        if id == 3 {
            assert_eq!(reader.read(&mut buf), ReadOutcome::Data(4));
            assert_eq!(&buf[..4], b"tail");
        }
        assert_eq!(reader.read(&mut buf), ReadOutcome::Closed);
        assert_eq!(reader.read(&mut buf), ReadOutcome::Closed);
    }
    for pty in &handles {
        assert_eq!(pty.try_wait(&registry), Some(0));
    }
    assert_eq!(connection.feed(b"\n", &mut registry).len(), 1);
}

#[test]
fn read_delivers_long_chunk_over_several_calls() {
    let mut registry = Registry::new();
    let pty = registry
        .apply(pane_bridge::codec::Event::PaneAdded { pane_id: 1, parent_window: None })
        .pane
        .unwrap();
    registry.apply(pane_bridge::codec::Event::Output { pane_id: 1, data: b"0123456789".to_vec() });
    registry.apply(pane_bridge::codec::Event::Output { pane_id: 1, data: b"ab".to_vec() });
    let mut reader = pty.try_clone_reader();
    let mut buf = [b'.'; 4];
    assert_eq!(reader.read(&mut buf), ReadOutcome::Data(4));
    assert_eq!(&buf, b"0123");
    assert_eq!(reader.read(&mut buf), ReadOutcome::Data(4));
    assert_eq!(&buf, b"4567");
    assert_eq!(reader.read(&mut buf), ReadOutcome::Data(2));
    assert_eq!(&buf, b"8967");
    assert_eq!(reader.read(&mut buf), ReadOutcome::Data(2));
    assert_eq!(&buf, b"ab67");
}

#[test]
fn read_into_empty_buffer_takes_nothing() {
    let (tx, rx) = flume::unbounded();
    tx.send(b"abc".to_vec()).unwrap();
    let mut reader = TmuxReader::new(rx);
    let mut none: [u8; 0] = [];
    assert_eq!(reader.read(&mut none), ReadOutcome::Nothing);
    let mut buf = [0u8; 8];
    assert_eq!(reader.read(&mut buf), ReadOutcome::Data(3));
    assert_eq!(&buf[..3], b"abc");
}

#[test]
fn accept_copies_what_fits_and_keeps_the_rest() {
    let (_tx, rx) = flume::unbounded::<Vec<u8>>();
    let mut reader = TmuxReader::new(rx);
    let mut buf = [b'-'; 3];
    assert_eq!(reader.accept(Arrival::Chunk(b"hello".to_vec()), &mut buf), ReadOutcome::Data(3));
    assert_eq!(&buf, b"hel");
    let mut wide = [b'-'; 6];
    assert_eq!(reader.accept(Arrival::Chunk(b"XY".to_vec()), &mut wide), ReadOutcome::Data(4));
    assert_eq!(&wide, b"loXY--");
    assert_eq!(reader.accept(Arrival::NotAsked, &mut wide), ReadOutcome::Nothing);
    assert_eq!(&wide, b"loXY--");
    assert_eq!(reader.accept(Arrival::Chunk(vec![]), &mut wide), ReadOutcome::Nothing);
    assert_eq!(reader.accept(Arrival::Closed, &mut wide), ReadOutcome::Closed);
    assert_eq!(&wide, b"loXY--");
}

#[test]
fn write_takes_every_byte_and_returns_the_keys_command() {
    let (_tx, rx) = flume::unbounded();
    let mut pty = TmuxPty::new(1, rx);
    let input = [b'l', b's', 0x0d, 0x5c, 0xff];
    assert_eq!(pty.write(&input), (5, Command::SendKeys { pane_id: 1, bytes: input.to_vec() }));
    assert_eq!(pty.write(b""), (0, Command::SendKeys { pane_id: 1, bytes: vec![] }));
    pty.flush();
    assert_eq!(pty.pane_id(), 1);
}

#[test]
fn written_input_goes_out_as_one_command_line() {
    let (_tx, rx) = flume::unbounded();
    let mut pty = TmuxPty::new(7, rx);
    let mut encoder = CommandEncoder::new();
    let (n, command) = pty.write(b"echo hi\r");
    assert_eq!(n, 8);
    let (seq, line) = encoder.issue(command).unwrap();
    assert_eq!(seq, 0);
    assert_eq!(line, b"send-keys 7 echo hi\\015\n".to_vec());
}

#[test]
fn chunk_without_bytes_is_not_the_end_of_the_stream() {
    let (tx, rx) = flume::unbounded::<Vec<u8>>();
    let mut reader = TmuxReader::new(rx);
    tx.send(vec![]).unwrap();
    tx.send(b"more".to_vec()).unwrap();
    let mut buf = [0u8; 8];
    assert_eq!(reader.read(&mut buf), ReadOutcome::Nothing);
    assert_eq!(reader.read(&mut buf), ReadOutcome::Data(4));
    assert_eq!(&buf[..4], b"more");
    drop(tx);
    assert_eq!(reader.read(&mut buf), ReadOutcome::Closed);
    assert_eq!(reader.read(&mut buf), ReadOutcome::Closed);
}

#[test]
fn cloned_reader_and_writer_stay_on_the_handles_channel() {
    let (tx, rx) = flume::unbounded::<Vec<u8>>();
    let pty = TmuxPty::new(3, rx);
    let writer = pty.try_clone_writer();
    let mut first = pty.try_clone_reader();
    let mut second = writer.try_clone_reader();
    tx.send(b"one".to_vec()).unwrap();
    tx.send(b"two".to_vec()).unwrap();
    let mut buf = [0u8; 8];
    assert_eq!(second.read(&mut buf), ReadOutcome::Data(3));
    assert_eq!(&buf[..3], b"one");
    assert_eq!(first.read(&mut buf), ReadOutcome::Data(3));
    assert_eq!(&buf[..3], b"two");
    drop(tx);
    assert_eq!(first.read(&mut buf), ReadOutcome::Closed);
    assert_eq!(second.read(&mut buf), ReadOutcome::Closed);
}

#[test]
fn resize_returns_command_and_leaves_geometry() {
    let mut registry = Registry::new();
    let pty = registry
        .apply(pane_bridge::codec::Event::PaneAdded { pane_id: 2, parent_window: None })
        .pane
        .unwrap();
    registry.apply(pane_bridge::codec::Event::LayoutChanged {
        pane_id: 2,
        width: 80,
        height: 24,
        cursor: None,
    });
    let command = pty.resize(size(120, 40));
    assert_eq!(command, Command::Resize { pane_id: 2, cols: 120, rows: 40 });
    assert_eq!(pty.get_size(&registry), Some(size(80, 24)));
    ControlConnection::handle_line(b"%layout-change 2 120 40", &mut registry);
    assert_eq!(pty.get_size(&registry), Some(size(120, 40)));
}

#[test]
fn kill_returns_command_and_leaves_liveness() {
    let mut registry = Registry::new();
    let pty = registry
        .apply(pane_bridge::codec::Event::PaneAdded { pane_id: 2, parent_window: None })
        .pane
        .unwrap();
    assert_eq!(pty.kill(), Command::Kill { pane_id: 2 });
    assert_eq!(pty.try_wait(&registry), None);
    ControlConnection::handle_line(b"%pane-exit 2 137", &mut registry);
    assert_eq!(pty.try_wait(&registry), Some(137));
}

#[test]
fn stale_handle_sees_an_ended_pane() {
    let mut registry = Registry::new();
    let pty = registry
        .apply(pane_bridge::codec::Event::PaneAdded { pane_id: 2, parent_window: None })
        .pane
        .unwrap();
    assert_eq!(pty.get_size(&registry), Some(size(80, 24)));
    let state = registry.remove(2);
    drop(state);
    assert_eq!(pty.get_size(&registry), None);
    assert_eq!(pty.try_wait(&registry), Some(0));
    let mut buf = [0u8; 4];
    assert_eq!(pty.try_clone_reader().read(&mut buf), ReadOutcome::Closed);
}

#[test]
fn process_id_is_the_stand_in() {
    let (_tx, rx) = flume::unbounded();
    let pty = TmuxPty::new(77, rx);
    assert_eq!(pty.process_id(), Some(0));
}

#[test]
fn cloned_writer_is_for_the_same_pane() {
    let (tx, rx) = flume::unbounded();
    let pty = TmuxPty::new(5, rx);
    let mut writer = pty.try_clone_writer();
    assert_eq!(writer.pane_id(), 5);
    assert_eq!(writer.write(b"x"), (1, Command::SendKeys { pane_id: 5, bytes: b"x".to_vec() }));
    tx.send(b"out".to_vec()).unwrap();
    let mut buf = [0u8; 8];
    assert_eq!(writer.try_clone_reader().read(&mut buf), ReadOutcome::Data(3));
}

#[test]
fn reply_acknowledges_the_pending_command() {
    let mut registry = Registry::new();
    let mut connection = ControlConnection::new();
    let mut encoder = CommandEncoder::new();
    let pty = connection.feed(b"%pane-add 1\n", &mut registry).remove(0).pane.unwrap();
    let (seq, line) = encoder.issue(pty.resize(size(100, 30))).unwrap();
    assert_eq!(line, b"resize-pane 1 100 30\n".to_vec());
    assert_eq!(pty.get_size(&registry), Some(size(80, 24)));
    let reply = format!("%command-reply {} ok\n%layout-change 1 100 30\n", seq);
    let results = connection.feed(reply.as_bytes(), &mut registry);
    assert_eq!(results[0].outcome, Outcome::Replied);
    let (answered, payload) = results[0].reply.clone().unwrap();
    assert_eq!(payload, b"ok".to_vec());
    assert_eq!(encoder.acknowledge(answered), Some(Command::Resize { pane_id: 1, cols: 100, rows: 30 }));
    assert_eq!(encoder.pending_count(), 0);
    assert_eq!(results[1].outcome, Outcome::Resized);
    assert_eq!(pty.get_size(&registry), Some(size(100, 30)));
}

#[test]
fn feeding_in_pieces_equals_feeding_at_once() {
    let stream: &[u8] = b"%pane-add 1\n%pane-add 2 7\n%layout-change 1 90 30 1 2\n%output 2 a\\012b\n\
        %bogus\n%pane-exit 1 3\n%output 1 late\n%layout-change 2 10 10\n%output 2 tail";
    let mut whole_registry = Registry::new();
    let mut whole = ControlConnection::new();
    let whole_results = whole.feed(stream, &mut whole_registry);
    let whole_outcomes: Vec<Outcome> = whole_results.iter().map(|r| r.outcome).collect();
    assert_eq!(
        whole_outcomes,
        vec![
            Outcome::Added,
            Outcome::Added,
            Outcome::Resized,
            Outcome::Forwarded,
            Outcome::Skipped,
            Outcome::Exited,
            Outcome::AlreadyExited,
            Outcome::Resized,
        ]
    );
    for cut in 0..=stream.len() {
        let mut registry = Registry::new();
        let mut connection = ControlConnection::new();
        let mut results = connection.feed(&stream[..cut], &mut registry);
        results.extend(connection.feed(&stream[cut..], &mut registry));
        let outcomes: Vec<Outcome> = results.iter().map(|r| r.outcome).collect();
        assert_eq!(outcomes, whole_outcomes);
        assert_eq!(registry.len(), 2);
        for id in [1u64, 2] {
            let (a, b) = (registry.get(id).unwrap(), whole_registry.get(id).unwrap());
            assert_eq!(
                (a.width(), a.height(), a.cursor(), a.is_alive(), a.exit_status()),
                (b.width(), b.height(), b.cursor(), b.is_alive(), b.exit_status())
            );
        }
        let pane2 = results.remove(1).pane.unwrap();
        let mut buf = [0u8; 16];
        let n = count(pane2.try_clone_reader().read(&mut buf));
        assert_eq!(&buf[..n], b"a\nb");
    }
}
