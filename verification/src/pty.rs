//! The pane handle: one remote pane behind the operations of a
//! pseudo-terminal.
//!
//! A handle holds the pane's identifier and the receiving end of the pane's
//! output channel, never a part of the registry. What it reports of the pane
//! it reads from the registry it is shown; what it wants of the pane it
//! returns as a command for the connection's writer.

use vstd::prelude::*;
use crate::codec::{Cursor, EventView};
use crate::command::{Command, CommandView};
use crate::registry::{
    apply_all, apply_spec, lemma_geometry_holds_until_superseded, resizes, PaneView, Registry,
};
use crate::text::copy_range;

verus! {

/// The size of a pane's visible area, as a pseudo-terminal reports it.
#[derive(Clone, Copy, Debug, PartialEq, Eq, Structural)]
pub struct PaneSize {
    /// The number of lines of text.
    pub rows: u16,
    /// The number of columns of text.
    pub cols: u16,
    /// The width of a cell in pixels; always zero for a remote pane.
    pub pixel_width: u16,
    /// The height of a cell in pixels; always zero for a remote pane.
    pub pixel_height: u16,
}

/// The process identifier that every remote pane reports: the remote side
/// shows no process of its own, so the handle reports a stand-in.
pub const REMOTE_PROCESS_ID: u32 = 0;

/// The size that the table holds for pane `id`.
pub open spec fn pane_size(table: Map<u64, PaneView>, id: u64) -> Option<PaneSize> {
    if table.contains_key(id) {
        Some(
            PaneSize {
                rows: table[id].height,
                cols: table[id].width,
                pixel_width: 0,
                pixel_height: 0,
            },
        )
    } else {
        None
    }
}

/// What a poll for the end of pane `id` reports: nothing while the pane is
/// alive, else its exit status. A pane that is not in the table has ended,
/// with status zero.
pub open spec fn pane_exit(table: Map<u64, PaneView>, id: u64) -> Option<u32> {
    if !table.contains_key(id) {
        Some(0u32)
    } else if table[id].alive {
        None
    } else {
        Some(table[id].exit_status)
    }
}

/// A layout change decides the size that is reported: once it has been
/// applied to a table that holds the pane, the size reported for the pane is
/// exactly the one the notification named, and it stays so whatever events
/// follow, up to the next layout change for the same pane.
pub proof fn lemma_size_follows_layout(
    table: Map<u64, PaneView>,
    id: u64,
    width: u16,
    height: u16,
    cursor: Option<Cursor>,
    later: Seq<EventView>,
)
    requires
        table.contains_key(id),
        forall|i: int| 0 <= i < later.len() ==> !resizes(later[i], id),
    ensures
        pane_size(
            apply_all(
                apply_spec(table, EventView::LayoutChanged { pane_id: id, width, height, cursor }),
                later,
            ),
            id,
        ) == Some(PaneSize { rows: height, cols: width, pixel_width: 0, pixel_height: 0 }),
{
    lemma_geometry_holds_until_superseded(
        apply_spec(table, EventView::LayoutChanged { pane_id: id, width, height, cursor }),
        later,
        id,
    );
}

/// What a receive on the pane's channel gave, or that none was made.
pub enum Arrival {
    /// No receive was made.
    NotAsked,
    /// This chunk arrived.
    Chunk(Vec<u8>),
    /// The channel is closed: every sender is gone and no chunk is left.
    Closed,
}

/// The mathematical value of an [`Arrival`].
pub enum ArrivalView {
    NotAsked,
    Chunk(Seq<u8>),
    Closed,
}

impl View for Arrival {
    type V = ArrivalView;

    open spec fn view(&self) -> ArrivalView {
        match self {
            Arrival::NotAsked => ArrivalView::NotAsked,
            Arrival::Chunk(chunk) => ArrivalView::Chunk(chunk@),
            Arrival::Closed => ArrivalView::Closed,
        }
    }
}

/// What a read reports.
#[derive(Clone, Copy, Debug, PartialEq, Eq, Structural)]
pub enum ReadOutcome {
    /// This many bytes, at least one, were put at the front of the buffer.
    Data(usize),
    /// No byte was delivered, and the end of the stream was not seen: the
    /// buffer has no room, or the chunk that arrived held no bytes. The
    /// stream goes on; read again.
    Nothing,
    /// The stream has ended: the channel is closed and every byte of it has
    /// been delivered.
    Closed,
}

/// The bytes a reader has at hand after `arrival`: what was left over from
/// earlier chunks, then the new chunk if one arrived.
pub open spec fn at_hand(pending: Seq<u8>, arrival: ArrivalView) -> Seq<u8> {
    match arrival {
        ArrivalView::Chunk(chunk) => pending + chunk,
        _ => pending,
    }
}

/// How many of the bytes of `stream` fit into `room` bytes.
pub open spec fn fitting(stream: Seq<u8>, room: nat) -> nat {
    if stream.len() <= room {
        stream.len()
    } else {
        room
    }
}

/// What is reported when `stream` is at hand after `arrival` and the buffer
/// has `room` bytes: the number of bytes delivered when there is at least
/// one; the end of the stream when the channel is closed and nothing is at
/// hand; else nothing.
pub open spec fn outcome_of(arrival: ArrivalView, stream: Seq<u8>, room: nat) -> ReadOutcome {
    if fitting(stream, room) > 0 {
        ReadOutcome::Data(fitting(stream, room) as usize)
    } else if arrival is Closed && stream.len() == 0 {
        ReadOutcome::Closed
    } else {
        ReadOutcome::Nothing
    }
}

/// The number of bytes that a read with this outcome delivered.
pub open spec fn delivered(outcome: ReadOutcome) -> nat {
    match outcome {
        ReadOutcome::Data(n) => n as nat,
        _ => 0,
    }
}

/// One read step: of the bytes at hand, as many as fit go to the front of
/// the buffer in order, the rest of the buffer stays, and the bytes that did
/// not fit are kept for the next read. No byte is lost, repeated or moved.
pub open spec fn read_step(
    pending: Seq<u8>,
    arrival: ArrivalView,
    buf: Seq<u8>,
    pending_after: Seq<u8>,
    buf_after: Seq<u8>,
    outcome: ReadOutcome,
) -> bool {
    let stream = at_hand(pending, arrival);
    let n = fitting(stream, buf.len()) as int;
    &&& outcome == outcome_of(arrival, stream, buf.len())
    &&& buf_after == stream.take(n) + buf.skip(n)
    &&& pending_after == stream.skip(n)
}

/// A read step loses nothing and moves nothing, and it tells the end of the
/// stream apart from everything else.
///
/// What was delivered, followed by what was kept, is what was at hand, and
/// the buffer behind the delivered bytes is untouched. Data is at least one
/// byte. The end of the stream is reported only when the channel is closed
/// and nothing is at hand. For a buffer with room and a reader with nothing
/// left over, the end is reported exactly when the channel is closed, and
/// nothing is reported exactly when no receive was made or the chunk that
/// arrived held no bytes.
pub proof fn lemma_read_step_keeps_stream(
    pending: Seq<u8>,
    arrival: ArrivalView,
    buf: Seq<u8>,
    pending_after: Seq<u8>,
    buf_after: Seq<u8>,
    outcome: ReadOutcome,
)
    requires
        read_step(pending, arrival, buf, pending_after, buf_after, outcome),
        buf.len() <= usize::MAX,
    ensures
        delivered(outcome) <= buf.len(),
        buf_after.len() == buf.len(),
        buf_after.take(delivered(outcome) as int) + pending_after == at_hand(pending, arrival),
        buf_after.skip(delivered(outcome) as int) == buf.skip(delivered(outcome) as int),
        outcome is Data ==> delivered(outcome) >= 1,
        outcome is Closed ==> arrival is Closed && at_hand(pending, arrival).len() == 0,
        pending.len() == 0 && buf.len() > 0 ==> {
            &&& outcome is Closed <==> arrival is Closed
            &&& outcome is Nothing <==> (arrival is NotAsked || arrival == ArrivalView::Chunk(
                Seq::<u8>::empty(),
            ))
        },
{
    let stream = at_hand(pending, arrival);
    let n = fitting(stream, buf.len()) as int;
    assert(delivered(outcome) == n);
    assert(buf_after.take(n) =~= stream.take(n));
    assert(stream.take(n) + stream.skip(n) =~= stream);
    assert(buf_after.skip(n) =~= buf.skip(n));
    if let ArrivalView::Chunk(chunk) = arrival {
        if pending.len() == 0 {
            assert(stream =~= chunk);
            if chunk.len() == 0 {
                assert(chunk =~= Seq::<u8>::empty());
            }
        }
    }
}

/// All the bytes of `chunks`, in order.
pub open spec fn concat_all(chunks: Seq<Seq<u8>>) -> Seq<u8>
    decreases chunks.len(),
{
    if chunks.len() == 0 {
        Seq::empty()
    } else {
        chunks[0] + concat_all(chunks.skip(1))
    }
}

/// The runs of bytes that successive reads into a buffer of `room` bytes
/// deliver, when `pending` is left over and the chunks of `chunks` arrive in
/// this order, one per receive. Each run is what one read step delivers: a
/// read serves what is left over as long as there is any, and else takes the
/// next chunk.
pub open spec fn deliveries(pending: Seq<u8>, chunks: Seq<Seq<u8>>, room: nat) -> Seq<Seq<u8>>
    decreases chunks.len(), pending.len(),
{
    if room == 0 {
        Seq::empty()
    } else if pending.len() > 0 {
        let n = fitting(pending, room) as int;
        seq![pending.take(n)] + deliveries(pending.skip(n), chunks, room)
    } else if chunks.len() == 0 {
        Seq::empty()
    } else {
        let n = fitting(chunks[0], room) as int;
        seq![chunks[0].take(n)] + deliveries(chunks[0].skip(n), chunks.skip(1), room)
    }
}

/// Reading keeps the stream, for any number of chunks and any size of
/// buffer: what successive reads deliver, put together, is what was left
/// over followed by the bytes of every chunk in the order of arrival. No
/// byte is reordered, repeated or dropped.
pub proof fn lemma_deliveries_keep_stream(pending: Seq<u8>, chunks: Seq<Seq<u8>>, room: nat)
    requires
        room > 0,
    ensures
        concat_all(deliveries(pending, chunks, room)) == pending + concat_all(chunks),
    decreases chunks.len(), pending.len(),
{
    let runs = deliveries(pending, chunks, room);
    if pending.len() > 0 {
        let n = fitting(pending, room) as int;
        let later = deliveries(pending.skip(n), chunks, room);
        lemma_deliveries_keep_stream(pending.skip(n), chunks, room);
        assert(runs[0] == pending.take(n));
        assert(runs.skip(1) =~= later);
        assert(pending.take(n) + (pending.skip(n) + concat_all(chunks)) =~= pending + concat_all(
            chunks,
        ));
    } else if chunks.len() == 0 {
        assert(pending + concat_all(chunks) =~= Seq::<u8>::empty());
    } else {
        let n = fitting(chunks[0], room) as int;
        let later = deliveries(chunks[0].skip(n), chunks.skip(1), room);
        lemma_deliveries_keep_stream(chunks[0].skip(n), chunks.skip(1), room);
        assert(runs[0] == chunks[0].take(n));
        assert(runs.skip(1) =~= later);
        assert(chunks[0].take(n) + (chunks[0].skip(n) + concat_all(chunks.skip(1))) =~= pending
            + concat_all(chunks));
    }
}

/// Chunks that fit the buffer are delivered whole and in order: with nothing
/// left over, successive reads deliver exactly the chunks, one per read.
pub proof fn lemma_whole_chunks_in_order(chunks: Seq<Seq<u8>>, room: nat)
    requires
        room > 0,
        forall|i: int| 0 <= i < chunks.len() ==> (#[trigger] chunks[i]).len() <= room,
    ensures
        deliveries(Seq::empty(), chunks, room) == chunks,
    decreases chunks.len(),
{
    if chunks.len() > 0 {
        let rest = chunks.skip(1);
        assert(chunks[0].len() <= room);
        assert forall|i: int| 0 <= i < rest.len() implies (#[trigger] rest[i]).len() <= room by {
            assert(rest[i] == chunks[i + 1]);
        }
        lemma_whole_chunks_in_order(rest, room);
        let n = chunks[0].len() as int;
        assert(chunks[0].take(n) =~= chunks[0]);
        assert(chunks[0].skip(n) =~= Seq::<u8>::empty());
        assert(seq![chunks[0]] + rest =~= chunks);
    }
}

/// The reading side of a pane's output.
pub struct TmuxReader {
    rx: flume::Receiver<Vec<u8>>,
    pending: Vec<u8>,
}

impl TmuxReader {
    /// The bytes of earlier chunks that no read has delivered yet.
    pub closed spec fn pending(&self) -> Seq<u8> {
        self.pending@
    }

    /// The receiving end that the reader takes its chunks from.
    pub closed spec fn source(&self) -> flume::Receiver<Vec<u8>> {
        self.rx
    }

    /// A reader that takes its chunks from `rx` and has nothing left over.
    pub fn new(rx: flume::Receiver<Vec<u8>>) -> (reader: TmuxReader)
        ensures
            reader.source() == rx,
            reader.pending() == Seq::<u8>::empty(),
    {
        TmuxReader { rx, pending: Vec::new() }
    }

    /// Delivers bytes into `buf` given what a receive on the channel gave.
    ///
    /// The bytes at hand are what was left over, then the chunk if one
    /// arrived. As many as fit are put at the front of `buf`; the rest is
    /// kept. The end of the stream is reported only when the channel is
    /// closed and nothing is at hand.
    pub fn accept(&mut self, arrival: Arrival, buf: &mut [u8]) -> (outcome: ReadOutcome)
        ensures
            final(self).source() == old(self).source(),
            read_step(
                old(self).pending(),
                arrival@,
                old(buf)@,
                final(self).pending(),
                final(buf)@,
                outcome,
            ),
    {
        let ghost stream = at_hand(self.pending@, arrival@);
        let closed = match arrival {
            Arrival::NotAsked => false,
            Arrival::Chunk(chunk) => {
                let mut chunk = chunk;
                self.pending.append(&mut chunk);
                false
            },
            Arrival::Closed => true,
        };
        assert(self.pending@ =~= stream);
        let n: usize = if self.pending.len() <= buf.len() {
            self.pending.len()
        } else {
            buf.len()
        };
        let nothing_at_hand = self.pending.len() == 0;
        let mut i: usize = 0;
        while i < n
            invariant
                i <= n,
                n <= self.pending.len(),
                n <= buf.len(),
                self.pending@ == stream,
                buf@.len() == old(buf)@.len(),
                forall|j: int| 0 <= j < i ==> buf@[j] == stream[j],
                forall|j: int| i <= j < buf@.len() ==> buf@[j] == old(buf)@[j],
            decreases n - i,
        {
            buf[i] = self.pending[i];
            i += 1;
        }
        let rest = self.pending.split_off(n);
        self.pending = rest;
        assert(self.pending@ =~= stream.skip(n as int));
        assert(buf@ =~= stream.take(n as int) + old(buf)@.skip(n as int));
        if n > 0 {
            ReadOutcome::Data(n)
        } else if closed && nothing_at_hand {
            ReadOutcome::Closed
        } else {
            ReadOutcome::Nothing
        }
    }

    /// Reads output of the pane into `buf`.
    ///
    /// Bytes left over from an earlier chunk are delivered first, without
    /// waiting, and a buffer without room is answered without waiting.
    /// Otherwise the call waits for the next chunk of the pane's channel and
    /// delivers it; a chunk longer than `buf` is delivered over several
    /// reads. The end of the stream is reported when the channel is closed:
    /// the pane has ended or the connection is lost. A chunk without bytes is
    /// reported as nothing, never as the end of the stream.
    pub fn read(&mut self, buf: &mut [u8]) -> (outcome: ReadOutcome)
        ensures
            final(self).source() == old(self).source(),
            exists|arrival: ArrivalView|
                {
                    &&& #[trigger] read_step(
                        old(self).pending(),
                        arrival,
                        old(buf)@,
                        final(self).pending(),
                        final(buf)@,
                        outcome,
                    )
                    &&& arrival is NotAsked <==> (old(self).pending().len() > 0 || old(
                        buf,
                    )@.len() == 0)
                },
    {
        if buf.len() == 0 || self.pending.len() > 0 {
            let outcome = self.accept(Arrival::NotAsked, buf);
            assert(read_step(
                old(self).pending(),
                ArrivalView::NotAsked,
                old(buf)@,
                self.pending(),
                buf@,
                outcome,
            ));
            outcome
        } else {
            let arrival = match self.rx.recv() {
                Ok(chunk) => Arrival::Chunk(chunk),
                Err(_) => Arrival::Closed,
            };
            let ghost came = arrival@;
            let outcome = self.accept(arrival, buf);
            assert(read_step(
                old(self).pending(),
                came,
                old(buf)@,
                self.pending(),
                buf@,
                outcome,
            ));
            outcome
        }
    }
}

/// The handle of one remote pane.
pub struct TmuxPty {
    pane_id: u64,
    rx: flume::Receiver<Vec<u8>>,
}

impl TmuxPty {
    /// The identifier of the pane that this handle stands for.
    pub closed spec fn id(&self) -> u64 {
        self.pane_id
    }

    /// The receiving end of the pane's output channel that this handle
    /// holds.
    pub closed spec fn source(&self) -> flume::Receiver<Vec<u8>> {
        self.rx
    }

    /// A handle for pane `pane_id` that reads from `rx`.
    pub fn new(pane_id: u64, rx: flume::Receiver<Vec<u8>>) -> (pty: TmuxPty)
        ensures
            pty.id() == pane_id,
            pty.source() == rx,
    {
        TmuxPty { pane_id, rx }
    }

    /// The identifier of the pane that this handle stands for.
    pub fn pane_id(&self) -> (id: u64)
        ensures
            id == self.id(),
    {
        self.pane_id
    }

    /// Takes input for the pane: every byte of `buf` is accepted, and the
    /// command that types these bytes into the pane is returned for the
    /// connection's writer. The handle sends nothing itself and stays as it
    /// is.
    pub fn write(&mut self, buf: &[u8]) -> (taken: (usize, Command))
        ensures
            taken.0 == buf@.len(),
            taken.1@ == (CommandView::SendKeys { pane_id: old(self).id(), bytes: buf@ }),
            *final(self) == *old(self),
    {
        let bytes = copy_range(buf, 0, buf.len());
        assert(buf@.subrange(0, buf@.len() as int) =~= buf@);
        (buf.len(), Command::SendKeys { pane_id: self.pane_id, bytes })
    }

    /// Flushes input. There is never anything to flush.
    pub fn flush(&mut self)
        ensures
            *final(self) == *old(self),
    {
    }

    /// Polls whether the pane has ended, without waiting: `None` while the
    /// registry holds the pane as alive, else its exit status.
    pub fn try_wait(&self, registry: &Registry) -> (status: Option<u32>)
        requires
            registry.wf(),
        ensures
            status == pane_exit(registry@, self.id()),
    {
        match registry.get(self.pane_id) {
            Some(state) => {
                if state.is_alive() {
                    None
                } else {
                    Some(state.exit_status())
                }
            },
            None => Some(0),
        }
    }

    /// The command that ends the pane. The handle sends nothing itself and
    /// changes nothing locally; the pane counts as ended once the remote side
    /// reports its exit.
    pub fn kill(&self) -> (command: Command)
        ensures
            command@ == (CommandView::Kill { pane_id: self.id() }),
    {
        Command::Kill { pane_id: self.pane_id }
    }

    /// The process identifier of the pane: a stand-in, the same for every
    /// remote pane.
    pub fn process_id(&self) -> (pid: Option<u32>)
        ensures
            pid == Some(REMOTE_PROCESS_ID),
    {
        Some(REMOTE_PROCESS_ID)
    }

    /// The command that asks the remote side to resize the pane to `size`.
    /// The handle does not wait for an answer and does not touch the
    /// registry: the new geometry is adopted when the layout notification
    /// for it arrives.
    pub fn resize(&self, size: PaneSize) -> (command: Command)
        ensures
            command@ == (CommandView::Resize {
                pane_id: self.id(),
                cols: size.cols,
                rows: size.rows,
            }),
    {
        Command::Resize { pane_id: self.pane_id, cols: size.cols, rows: size.rows }
    }

    /// The size of the pane as the registry holds it; `None` exactly when the
    /// pane is not registered.
    pub fn get_size(&self, registry: &Registry) -> (size: Option<PaneSize>)
        requires
            registry.wf(),
        ensures
            size == pane_size(registry@, self.id()),
    {
        match registry.get(self.pane_id) {
            Some(state) => Some(
                PaneSize {
                    rows: state.height(),
                    cols: state.width(),
                    pixel_width: 0,
                    pixel_height: 0,
                },
            ),
            None => None,
        }
    }

    /// A reader on the pane's output channel, the one this handle holds the
    /// receiving end of, with nothing left over.
    pub fn try_clone_reader(&self) -> (reader: TmuxReader)
        ensures
            reader.source() == self.source(),
            reader.pending() == Seq::<u8>::empty(),
    {
        TmuxReader::new(self.rx.clone())
    }

    /// Another handle for the same pane and on the same output channel, to
    /// write through.
    pub fn try_clone_writer(&self) -> (writer: TmuxPty)
        ensures
            writer.id() == self.id(),
            writer.source() == self.source(),
    {
        TmuxPty { pane_id: self.pane_id, rx: self.rx.clone() }
    }
}

} // verus!
