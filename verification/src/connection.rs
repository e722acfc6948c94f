//! The control-connection loop, one step at a time.
//!
//! The owner of the connection reads bytes and feeds them in; here they are
//! cut into lines, each line is decoded and applied to the registry, in the
//! order in which the lines came. When the connection ends every pane is
//! closed. Reading the bytes is the caller's part.

use vstd::prelude::*;
use crate::codec::{
    decode, decode_spec, lemma_decode_line_of, lemma_line_of_unbroken, line_of, EventView,
};
use crate::registry::{
    apply_all, apply_spec, disconnected, lemma_output_routing, outputs_for, Applied, PaneView,
    Registry,
};
use crate::lines::{
    lemma_lines_of_longer, lemma_lines_of_written, lines_of, remainder_of, texts, written,
    LineBuffer,
};
use crate::text::unbroken;

verus! {

/// The events that `lines` decode to, line by line.
pub open spec fn decode_all(lines: Seq<Seq<u8>>) -> Seq<EventView> {
    Seq::new(lines.len(), |i: int| decode_spec(lines[i]))
}

/// Applying one more event after a sequence is applying the sequence with
/// that event at its end.
proof fn lemma_apply_all_push(table: Map<u64, PaneView>, events: Seq<EventView>, last: EventView)
    ensures
        apply_all(table, events.push(last)) == apply_spec(apply_all(table, events), last),
    decreases events.len(),
{
    let longer = events.push(last);
    if events.len() == 0 {
        assert(longer.skip(1) =~= Seq::<EventView>::empty());
        assert(apply_all(apply_spec(table, last), longer.skip(1)) == apply_spec(table, last));
    } else {
        assert(longer[0] == events[0]);
        assert(longer.skip(1) =~= events.skip(1).push(last));
        lemma_apply_all_push(apply_spec(table, events[0]), events.skip(1), last);
    }
}

/// The lines that state `events`, one per event.
pub open spec fn lines_stating(events: Seq<EventView>) -> Seq<Seq<u8>> {
    Seq::new(events.len(), |i: int| line_of(events[i]))
}

/// Output lines are routed by pane and kept in order. Take any sequence of
/// output events, for any panes in any interleaving, and the stream of the
/// lines that state them: once the stream is cut into lines and every line
/// is decoded and applied, a live pane has been handed exactly the payloads
/// addressed to it, byte for byte and in the order of the lines, and nothing
/// else about the pane has changed.
pub proof fn lemma_output_lines_routing(
    table: Map<u64, PaneView>,
    events: Seq<EventView>,
    id: u64,
)
    requires
        table.contains_key(id),
        table[id].alive,
        forall|i: int| 0 <= i < events.len() ==> events[i] is Output,
    ensures
        decode_all(lines_of(written(lines_stating(events)))) == events,
        apply_all(table, decode_all(lines_of(written(lines_stating(events))))).contains_key(id),
        apply_all(table, decode_all(lines_of(written(lines_stating(events)))))[id] == (PaneView {
            forwarded: table[id].forwarded + outputs_for(events, id),
            ..table[id]
        }),
{
    let lines = lines_stating(events);
    assert forall|i: int| 0 <= i < lines.len() implies unbroken(#[trigger] lines[i]) by {
        assert(events[i] is Output);
        lemma_line_of_unbroken(events[i]);
    }
    lemma_lines_of_written(lines);
    assert forall|i: int| 0 <= i < events.len() implies decode_all(lines)[i] == events[i] by {
        assert(events[i] is Output);
        lemma_decode_line_of(events[i]);
    }
    assert(decode_all(lines) =~= events);
    lemma_output_routing(table, events, id);
}

/// Applying two sequences of events one after the other is applying them
/// as one sequence.
pub proof fn lemma_apply_all_concat(
    table: Map<u64, PaneView>,
    first: Seq<EventView>,
    second: Seq<EventView>,
)
    ensures
        apply_all(table, first + second) == apply_all(apply_all(table, first), second),
    decreases first.len(),
{
    if first.len() == 0 {
        assert(first + second =~= second);
    } else {
        assert((first + second)[0] == first[0]);
        assert((first + second).skip(1) =~= first.skip(1) + second);
        lemma_apply_all_concat(apply_spec(table, first[0]), first.skip(1), second);
    }
}

/// How the bytes are cut into pieces makes no difference: feeding `first`
/// and then `second` leaves the same unfinished line and the same table as
/// feeding both at once.
pub proof fn lemma_feed_in_pieces(
    table: Map<u64, PaneView>,
    partial: Seq<u8>,
    first: Seq<u8>,
    second: Seq<u8>,
)
    ensures
        remainder_of(partial + (first + second)) == remainder_of(
            remainder_of(partial + first) + second,
        ),
        apply_all(table, decode_all(lines_of(partial + (first + second)))) == apply_all(
            apply_all(table, decode_all(lines_of(partial + first))),
            decode_all(lines_of(remainder_of(partial + first) + second)),
        ),
{
    let stream = partial + first;
    assert(partial + (first + second) =~= stream + second);
    lemma_lines_of_longer(stream, second);
    let early = lines_of(stream);
    let late = lines_of(remainder_of(stream) + second);
    assert(decode_all(early + late) =~= decode_all(early) + decode_all(late));
    lemma_apply_all_concat(table, decode_all(early), decode_all(late));
}

/// The receiving side of a control connection.
pub struct ControlConnection {
    buffer: LineBuffer,
}

impl ControlConnection {
    /// The bytes received since the last line feed.
    pub closed spec fn partial(&self) -> Seq<u8> {
        self.buffer.partial()
    }

    /// The unfinished line holds no line feed.
    pub closed spec fn wf(&self) -> bool {
        self.buffer.wf()
    }

    /// The state of a connection on which nothing has been received.
    pub fn new() -> (connection: ControlConnection)
        ensures
            connection.wf(),
            connection.partial() == Seq::<u8>::empty(),
    {
        ControlConnection { buffer: LineBuffer::new() }
    }

    /// Decodes one line, given without its line feed, and applies it to the
    /// registry.
    pub fn handle_line(line: &[u8], registry: &mut Registry) -> (applied: Applied)
        requires
            old(registry).wf(),
        ensures
            final(registry).wf(),
            final(registry)@ == apply_spec(old(registry)@, decode_spec(line@)),
            final(registry).senders_follow(old(registry)),
            applied.reports(old(registry)@, decode_spec(line@)),
    {
        let event = decode(line);
        registry.apply(event)
    }

    /// Takes the bytes that the connection delivered, in the order in which
    /// it delivered them, and handles every line that they complete.
    ///
    /// The lines are those of the unfinished line followed by `bytes`. Each
    /// is decoded and applied to the registry in order; the results come back
    /// in the same order, one per line. What follows the last line feed is
    /// kept as the new unfinished line.
    pub fn feed(&mut self, bytes: &[u8], registry: &mut Registry) -> (results: Vec<Applied>)
        requires
            old(self).wf(),
            old(registry).wf(),
        ensures
            final(self).wf(),
            final(registry).wf(),
            final(self).partial() == remainder_of(old(self).partial() + bytes@),
            final(registry)@ == apply_all(
                old(registry)@,
                decode_all(lines_of(old(self).partial() + bytes@)),
            ),
            final(registry).senders_follow(old(registry)),
            results.len() == lines_of(old(self).partial() + bytes@).len(),
            forall|i: int|
                0 <= i < results.len() ==> {
                    let events = decode_all(lines_of(old(self).partial() + bytes@));
                    (#[trigger] results[i]).reports(
                        apply_all(old(registry)@, events.take(i)),
                        events[i],
                    )
                },
    {
        let ghost table = registry@;
        let ghost start = *registry;
        let lines = self.buffer.push(bytes);
        let ghost events = decode_all(texts(lines@));
        let mut results: Vec<Applied> = Vec::new();
        let mut i: usize = 0;
        assert(events.take(0) =~= Seq::<EventView>::empty());
        assert forall|k: u64| start@.contains_key(k) implies #[trigger] registry.sender_of(k) == (
        if registry@[k].alive {
            start.sender_of(k)
        } else {
            None
        }) by {
            start.lemma_alive_holds_sender(k);
        }
        while i < lines.len()
            invariant
                i <= lines.len(),
                registry.wf(),
                events == decode_all(texts(lines@)),
                registry@ == apply_all(table, events.take(i as int)),
                registry.senders_follow(&start),
                forall|k: u64| start@.contains_key(k) ==> registry@.contains_key(k),
                results.len() == i,
                forall|k: int|
                    0 <= k < results.len() ==> (#[trigger] results[k]).reports(
                        apply_all(table, events.take(k)),
                        events[k],
                    ),
            decreases lines.len() - i,
        {
            assert(events[i as int] == decode_spec(lines@[i as int]@));
            let ghost before = *registry;
            let applied = ControlConnection::handle_line(lines[i].as_slice(), registry);
            proof {
                assert forall|k: u64| start@.contains_key(k) implies #[trigger] registry.sender_of(
                    k,
                ) == (if registry@[k].alive {
                    start.sender_of(k)
                } else {
                    None
                }) by {
                    assert(before@.contains_key(k));
                    assert(registry.sender_of(k) == (if registry@[k].alive {
                        before.sender_of(k)
                    } else {
                        None
                    }));
                    assert(registry@[k].alive ==> before@[k].alive);
                }
                lemma_apply_all_push(table, events.take(i as int), events[i as int]);
                assert(events.take(i + 1) =~= events.take(i as int).push(events[i as int]));
            }
            results.push(applied);
            i += 1;
        }
        assert(events.take(lines.len() as int) =~= events);
        results
    }

    /// Ends the connection: the unfinished line is dropped and every pane is
    /// ended, so that each pane's channel closes and its readers see the end
    /// of the stream.
    pub fn close(&mut self, registry: &mut Registry)
        requires
            old(registry).wf(),
        ensures
            final(self).wf(),
            final(self).partial() == Seq::<u8>::empty(),
            final(registry).wf(),
            final(registry)@ == disconnected(old(registry)@),
            final(registry).senders_follow(old(registry)),
    {
        self.buffer.clear();
        registry.disconnect();
    }
}

} // verus!
