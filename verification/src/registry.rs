//! The remote pane registry: the table from pane identifier to pane state.
//!
//! The control connection is the only writer. Handles read geometry and
//! liveness from it; output bytes do not pass through it on their way to a
//! reader, they go straight into the pane's channel.

use vstd::prelude::*;
use crate::codec::{Cursor, Event, EventView};
use crate::pty::TmuxPty;

verus! {

/// The width of a pane that has not had a layout notification yet.
pub const DEFAULT_WIDTH: u16 = 80;

/// The height of a pane that has not had a layout notification yet.
pub const DEFAULT_HEIGHT: u16 = 24;

/// What the registry knows of one pane.
pub struct RemotePaneState {
    id: u64,
    width: u16,
    height: u16,
    cursor: Cursor,
    alive: bool,
    exit_status: u32,
    tx: Option<flume::Sender<Vec<u8>>>,
    forwarded: Ghost<Seq<Seq<u8>>>,
}

/// The mathematical value of a pane's state.
pub struct PaneView {
    /// Columns.
    pub width: u16,
    /// Rows.
    pub height: u16,
    /// The cursor position of the latest layout notification that carried one.
    pub cursor: Cursor,
    /// Whether the pane still runs. A pane that is not alive has no sending
    /// end any more, so its channel is closed.
    pub alive: bool,
    /// The status the pane's process ended with; zero while it runs and when
    /// the connection was lost before an exit was reported.
    pub exit_status: u32,
    /// Every chunk that was handed to the pane's channel, in order.
    pub forwarded: Seq<Seq<u8>>,
}

/// The state of a pane that has just been added.
pub open spec fn fresh_pane() -> PaneView {
    PaneView {
        width: DEFAULT_WIDTH,
        height: DEFAULT_HEIGHT,
        cursor: Cursor { x: 0, y: 0 },
        alive: true,
        exit_status: 0,
        forwarded: Seq::empty(),
    }
}

impl View for RemotePaneState {
    type V = PaneView;

    closed spec fn view(&self) -> PaneView {
        PaneView {
            width: self.width,
            height: self.height,
            cursor: self.cursor,
            alive: self.alive,
            exit_status: self.exit_status,
            forwarded: self.forwarded@,
        }
    }
}

impl RemotePaneState {
    /// The sending end of the pane's channel, as long as the state holds
    /// one.
    pub closed spec fn sender(&self) -> Option<flume::Sender<Vec<u8>>> {
        self.tx
    }

    /// A pane is alive exactly as long as it holds the sending end of its
    /// channel.
    pub open spec fn wf(&self) -> bool {
        self@.alive == (self.sender() is Some)
    }

    /// The identifier the state was created or stored under.
    pub closed spec fn key(&self) -> u64 {
        self.id
    }

    /// The state of a live pane of the given size whose output goes to `tx`.
    pub fn new(id: u64, width: u16, height: u16, tx: flume::Sender<Vec<u8>>) -> (state:
        RemotePaneState)
        ensures
            state.wf(),
            state.key() == id,
            state.sender() == Some(tx),
            state@ == (PaneView { width, height, ..fresh_pane() }),
    {
        RemotePaneState {
            id,
            width,
            height,
            cursor: Cursor { x: 0, y: 0 },
            alive: true,
            exit_status: 0,
            tx: Some(tx),
            forwarded: Ghost(Seq::empty()),
        }
    }

    /// The pane's identifier.
    pub fn id(&self) -> (id: u64)
        ensures
            id == self.key(),
    {
        self.id
    }

    /// The pane's width in columns.
    pub fn width(&self) -> (width: u16)
        ensures
            width == self@.width,
    {
        self.width
    }

    /// The pane's height in rows.
    pub fn height(&self) -> (height: u16)
        ensures
            height == self@.height,
    {
        self.height
    }

    /// The pane's cursor position.
    pub fn cursor(&self) -> (cursor: Cursor)
        ensures
            cursor == self@.cursor,
    {
        self.cursor
    }

    /// Whether the pane still runs.
    pub fn is_alive(&self) -> (alive: bool)
        ensures
            alive == self@.alive,
    {
        self.alive
    }

    /// The status the pane's process ended with.
    pub fn exit_status(&self) -> (status: u32)
        ensures
            status == self@.exit_status,
    {
        self.exit_status
    }

    /// Hands `data` to the pane's channel. A channel without a receiver takes
    /// nothing, which is no error: the handle may be gone before the pane is.
    fn forward(&mut self, data: Vec<u8>)
        requires
            old(self).wf(),
            old(self).alive,
        ensures
            final(self).wf(),
            final(self).id == old(self).id,
            final(self).sender() == old(self).sender(),
            final(self)@ == (PaneView {
                forwarded: old(self)@.forwarded.push(data@),
                ..old(self)@
            }),
    {
        let ghost chunk = data@;
        match &self.tx {
            Some(tx) => {
                let _ = tx.send(data);
            },
            None => {},
        }
        proof {
            self.forwarded@ = self.forwarded@.push(chunk);
        }
    }

    /// Marks the pane as ended and drops the sending end, which closes the
    /// channel once the chunks in it are read.
    fn close(&mut self, status: u32)
        ensures
            final(self).wf(),
            final(self).id == old(self).id,
            final(self).sender() is None,
            final(self)@ == (PaneView { alive: false, exit_status: status, ..old(self)@ }),
    {
        self.alive = false;
        self.exit_status = status;
        self.tx = None;
    }
}

/// Whether slot `i` of `panes` holds the pane with identifier `id`.
spec fn holds(panes: Seq<RemotePaneState>, i: int, id: u64) -> bool {
    0 <= i < panes.len() && panes[i].id == id
}

/// No two slots hold the same identifier.
spec fn distinct(panes: Seq<RemotePaneState>) -> bool {
    forall|i: int, j: int|
        0 <= i < j < panes.len() ==> (#[trigger] panes[i]).id != (#[trigger] panes[j]).id
}

/// A slot that holds `id`, if there is one.
spec fn slot_of(panes: Seq<RemotePaneState>, id: u64) -> int {
    choose|i: int| holds(panes, i, id)
}

/// The sending end held in the slot of `id`.
spec fn tx_of(panes: Seq<RemotePaneState>, id: u64) -> Option<flume::Sender<Vec<u8>>> {
    panes[slot_of(panes, id)].tx
}

/// The table that a sequence of slots stands for.
spec fn table(panes: Seq<RemotePaneState>) -> Map<u64, PaneView> {
    Map::new(
        |id: u64| exists|i: int| holds(panes, i, id),
        |id: u64| panes[slot_of(panes, id)]@,
    )
}

proof fn lemma_table_at(panes: Seq<RemotePaneState>, i: int)
    requires
        distinct(panes),
        0 <= i < panes.len(),
    ensures
        table(panes).contains_key(panes[i].id),
        table(panes)[panes[i].id] == panes[i]@,
        slot_of(panes, panes[i].id) == i,
        tx_of(panes, panes[i].id) == panes[i].tx,
{
    let id = panes[i].id;
    assert(holds(panes, i, id));
    let j = slot_of(panes, id);
    assert(holds(panes, j, id));
    if j < i {
        assert(panes[j].id != panes[i].id);
    } else if i < j {
        assert(panes[i].id != panes[j].id);
    }
}

proof fn lemma_table_without(panes: Seq<RemotePaneState>, id: u64)
    requires
        forall|i: int| 0 <= i < panes.len() ==> (#[trigger] panes[i]).id != id,
    ensures
        !table(panes).contains_key(id),
{
    if exists|i: int| holds(panes, i, id) {
        let i = choose|i: int| holds(panes, i, id);
        assert(panes[i].id != id);
    }
}

proof fn lemma_table_update(panes: Seq<RemotePaneState>, i: int, state: RemotePaneState)
    requires
        distinct(panes),
        0 <= i < panes.len(),
        state.id == panes[i].id,
    ensures
        distinct(panes.update(i, state)),
        table(panes.update(i, state)) == table(panes).insert(state.id, state@),
{
    let after = panes.update(i, state);
    assert forall|a: int, b: int| 0 <= a < b < after.len() implies (#[trigger] after[a]).id != (
    #[trigger] after[b]).id by {
        assert(after[a].id == panes[a].id);
        assert(after[b].id == panes[b].id);
    }
    let want = table(panes).insert(state.id, state@);
    assert forall|id: u64| table(after).contains_key(id) <==> want.contains_key(id) by {
        if table(after).contains_key(id) {
            let k = choose|k: int| holds(after, k, id);
            assert(holds(panes, k, id));
        }
        if want.contains_key(id) {
            if id == state.id {
                assert(holds(after, i, id));
            } else {
                let k = choose|k: int| holds(panes, k, id);
                assert(holds(after, k, id));
            }
        }
    }
    assert forall|id: u64| table(after).contains_key(id) implies table(after)[id] == want[id] by {
        let k = choose|k: int| holds(after, k, id);
        lemma_table_at(after, k);
        if id == state.id {
            lemma_table_at(after, i);
        } else {
            assert(holds(panes, k, id));
            lemma_table_at(panes, k);
        }
    }
    assert(table(after) =~= want);
}

/// A pane whose state sits unchanged in a slot after a change to the slots
/// is the same pane with the same sender.
proof fn lemma_tx_kept(
    before: Seq<RemotePaneState>,
    after: Seq<RemotePaneState>,
    id: u64,
    slot: int,
)
    requires
        distinct(before),
        distinct(after),
        table(before).contains_key(id),
        0 <= slot < after.len(),
        after[slot] == before[slot_of(before, id)],
    ensures
        tx_of(after, id) == tx_of(before, id),
{
    let j = slot_of(before, id);
    assert(holds(before, j, id));
    lemma_table_at(after, slot);
}

/// Slot by slot to the table: when every slot keeps its identifier, and
/// holds the sender it held as long as its pane is alive and none once it is
/// not, the same is true pane by pane.
proof fn lemma_senders_follow(before: Seq<RemotePaneState>, after: Seq<RemotePaneState>)
    requires
        distinct(before),
        distinct(after),
        before.len() <= after.len(),
        forall|j: int|
            0 <= j < before.len() ==> (#[trigger] after[j]).id == before[j].id && after[j].tx == (
            if after[j].alive {
                before[j].tx
            } else {
                None
            }),
    ensures
        forall|id: u64|
            table(before).contains_key(id) ==> table(after).contains_key(id) && #[trigger] tx_of(
                after,
                id,
            ) == (if table(after)[id].alive {
                tx_of(before, id)
            } else {
                None
            }),
{
    assert forall|id: u64| table(before).contains_key(id) implies table(after).contains_key(id)
        && #[trigger] tx_of(after, id) == (if table(after)[id].alive {
        tx_of(before, id)
    } else {
        None
    }) by {
        let j = slot_of(before, id);
        assert(holds(before, j, id));
        lemma_table_at(before, j);
        assert(after[j].id == before[j].id);
        lemma_table_at(after, j);
    }
}

/// A change to the state in one slot that keeps its identifier is an
/// insert into the table under that identifier.
proof fn lemma_slot_replaced(before: Seq<RemotePaneState>, after: Seq<RemotePaneState>, i: int)
    requires
        distinct(before),
        0 <= i < before.len(),
        after.len() == before.len(),
        after[i].id == before[i].id,
        forall|j: int| 0 <= j < before.len() && j != i ==> after[j] == before[j],
    ensures
        distinct(after),
        table(after) == table(before).insert(before[i].id, after[i]@),
{
    assert(after =~= before.update(i, after[i]));
    lemma_table_update(before, i, after[i]);
}

proof fn lemma_table_push(panes: Seq<RemotePaneState>, state: RemotePaneState)
    requires
        distinct(panes),
        forall|i: int| 0 <= i < panes.len() ==> (#[trigger] panes[i]).id != state.id,
    ensures
        distinct(panes.push(state)),
        table(panes.push(state)) == table(panes).insert(state.id, state@),
{
    let after = panes.push(state);
    assert forall|a: int, b: int| 0 <= a < b < after.len() implies (#[trigger] after[a]).id != (
    #[trigger] after[b]).id by {
        assert(after[a] == panes[a]);
        if b < panes.len() {
            assert(after[b] == panes[b]);
        }
    }
    let want = table(panes).insert(state.id, state@);
    let last = panes.len() as int;
    assert forall|id: u64| table(after).contains_key(id) <==> want.contains_key(id) by {
        if table(after).contains_key(id) {
            let k = choose|k: int| holds(after, k, id);
            if k < last {
                assert(holds(panes, k, id));
            }
        }
        if want.contains_key(id) {
            if id == state.id {
                assert(holds(after, last, id));
            } else {
                let k = choose|k: int| holds(panes, k, id);
                assert(holds(after, k, id));
            }
        }
    }
    assert forall|id: u64| table(after).contains_key(id) implies table(after)[id] == want[id] by {
        let k = choose|k: int| holds(after, k, id);
        lemma_table_at(after, k);
        if id == state.id {
            lemma_table_at(after, last);
        } else {
            assert(holds(panes, k, id));
            lemma_table_at(panes, k);
        }
    }
    assert(table(after) =~= want);
}

proof fn lemma_table_remove(panes: Seq<RemotePaneState>, i: int)
    requires
        distinct(panes),
        0 <= i < panes.len(),
    ensures
        distinct(panes.remove(i)),
        table(panes.remove(i)) == table(panes).remove(panes[i].id),
{
    let after = panes.remove(i);
    let gone = panes[i].id;
    assert forall|a: int, b: int| 0 <= a < b < after.len() implies (#[trigger] after[a]).id != (
    #[trigger] after[b]).id by {
        let a0 = if a < i { a } else { a + 1 };
        let b0 = if b < i { b } else { b + 1 };
        assert(after[a] == panes[a0]);
        assert(after[b] == panes[b0]);
    }
    let want = table(panes).remove(gone);
    assert forall|id: u64| table(after).contains_key(id) <==> want.contains_key(id) by {
        if table(after).contains_key(id) {
            let k = choose|k: int| holds(after, k, id);
            let k0 = if k < i { k } else { k + 1 };
            assert(after[k] == panes[k0]);
            assert(holds(panes, k0, id));
            if id == gone {
                lemma_table_at(panes, k0);
            }
        }
        if want.contains_key(id) {
            let k = choose|k: int| holds(panes, k, id);
            let k1 = if k < i { k } else { k - 1 };
            assert(after[k1] == panes[k]);
            assert(holds(after, k1, id));
        }
    }
    assert forall|id: u64| table(after).contains_key(id) implies table(after)[id] == want[id] by {
        let k = choose|k: int| holds(after, k, id);
        let k0 = if k < i { k } else { k + 1 };
        assert(after[k] == panes[k0]);
        lemma_table_at(after, k);
        lemma_table_at(panes, k0);
    }
    assert(table(after) =~= want);
}

proof fn lemma_table_len(panes: Seq<RemotePaneState>)
    requires
        distinct(panes),
    ensures
        table(panes).dom().finite(),
        table(panes).dom().len() == panes.len(),
    decreases panes.len(),
{
    if panes.len() == 0 {
        assert(table(panes).dom() =~= Set::<u64>::empty());
    } else {
        let front = panes.drop_last();
        let last = panes.last();
        assert forall|a: int, b: int| 0 <= a < b < front.len() implies (#[trigger] front[a]).id != (
        #[trigger] front[b]).id by {
            assert(front[a] == panes[a]);
            assert(front[b] == panes[b]);
        }
        assert forall|a: int| 0 <= a < front.len() implies (#[trigger] front[a]).id != last.id by {
            assert(front[a] == panes[a]);
            assert(panes[a].id != panes[panes.len() - 1].id);
        }
        lemma_table_len(front);
        lemma_table_push(front, last);
        lemma_table_without(front, last.id);
        assert(front.push(last) =~= panes);
        assert(table(panes).dom() =~= table(front).dom().insert(last.id));
    }
}

/// The table of panes, keyed by pane identifier.
pub struct Registry {
    panes: Vec<RemotePaneState>,
}

impl View for Registry {
    type V = Map<u64, PaneView>;

    closed spec fn view(&self) -> Map<u64, PaneView> {
        table(self.panes@)
    }
}

impl Registry {
    /// Every identifier occurs once, and every pane's state is consistent.
    pub closed spec fn wf(&self) -> bool {
        &&& distinct(self.panes@)
        &&& forall|i: int| 0 <= i < self.panes.len() ==> (#[trigger] self.panes@[i]).wf()
    }

    /// The sending end of the channel of pane `id`, as long as the registry
    /// holds one for it.
    pub closed spec fn sender_of(&self, id: u64) -> Option<flume::Sender<Vec<u8>>> {
        tx_of(self.panes@, id)
    }

    /// The senders of all panes but `id` are the same in `self` and `other`.
    pub open spec fn same_senders_but(&self, other: &Registry, id: u64) -> bool {
        forall|k: u64|
            k != id && other@.contains_key(k) ==> #[trigger] self.sender_of(k) == other.sender_of(
                k,
            )
    }

    /// Every pane of `before` holds in `self` the sender it held in `before`
    /// as long as it is alive, and none once it is not.
    pub open spec fn senders_follow(&self, before: &Registry) -> bool {
        forall|k: u64|
            before@.contains_key(k) ==> #[trigger] self.sender_of(k) == (if self@[k].alive {
                before.sender_of(k)
            } else {
                None
            })
    }

    /// A pane is alive exactly as long as the registry holds the sending end
    /// of its channel.
    pub proof fn lemma_alive_holds_sender(&self, id: u64)
        requires
            self.wf(),
            self@.contains_key(id),
        ensures
            self@[id].alive <==> self.sender_of(id) is Some,
    {
        let j = slot_of(self.panes@, id);
        assert(holds(self.panes@, j, id));
        lemma_table_at(self.panes@, j);
        assert(self.panes@[j].wf());
    }

    /// An empty registry.
    pub fn new() -> (registry: Registry)
        ensures
            registry.wf(),
            registry@ == Map::<u64, PaneView>::empty(),
    {
        let registry = Registry { panes: Vec::new() };
        assert(registry@ =~= Map::<u64, PaneView>::empty());
        registry
    }

    /// The number of panes in the registry.
    pub fn len(&self) -> (count: usize)
        requires
            self.wf(),
        ensures
            self@.dom().finite(),
            count == self@.dom().len(),
    {
        proof {
            lemma_table_len(self.panes@);
        }
        self.panes.len()
    }

    /// The slot that holds `id`.
    fn position(&self, id: u64) -> (slot: Option<usize>)
        requires
            self.wf(),
        ensures
            match slot {
                Some(i) => i < self.panes.len() && self.panes@[i as int].id == id
                    && self@.contains_key(id) && self@[id] == self.panes@[i as int]@
                    && self.sender_of(id) == self.panes@[i as int].tx,
                None => !self@.contains_key(id) && forall|i: int|
                    0 <= i < self.panes.len() ==> (#[trigger] self.panes@[i]).id != id,
            },
    {
        let mut i: usize = 0;
        while i < self.panes.len()
            invariant
                self.wf(),
                i <= self.panes.len(),
                forall|j: int| 0 <= j < i ==> (#[trigger] self.panes@[j]).id != id,
            decreases self.panes.len() - i,
        {
            if self.panes[i].id == id {
                proof {
                    lemma_table_at(self.panes@, i as int);
                }
                return Some(i);
            }
            i += 1;
        }
        proof {
            lemma_table_without(self.panes@, id);
        }
        None
    }

    /// Stores `state` under `id`, in place of what was stored there before.
    pub fn upsert(&mut self, id: u64, state: RemotePaneState)
        requires
            old(self).wf(),
            state.wf(),
        ensures
            final(self).wf(),
            final(self)@ == old(self)@.insert(id, state@),
            final(self).sender_of(id) == state.sender(),
            final(self).same_senders_but(old(self), id),
    {
        let mut state = state;
        state.id = id;
        let ghost before = self.panes@;
        match self.position(id) {
            Some(i) => {
                proof {
                    lemma_table_update(self.panes@, i as int, state);
                }
                self.panes[i] = state;
                proof {
                    let after = self.panes@;
                    lemma_table_at(after, i as int);
                    assert forall|k: u64| k != id && table(before).contains_key(k) implies tx_of(
                        after,
                        k,
                    ) == tx_of(before, k) by {
                        let j = slot_of(before, k);
                        assert(holds(before, j, k));
                        lemma_tx_kept(before, after, k, j);
                    }
                }
            },
            None => {
                proof {
                    lemma_table_push(self.panes@, state);
                }
                self.panes.push(state);
                proof {
                    let after = self.panes@;
                    lemma_table_at(after, before.len() as int);
                    assert forall|k: u64| k != id && table(before).contains_key(k) implies tx_of(
                        after,
                        k,
                    ) == tx_of(before, k) by {
                        let j = slot_of(before, k);
                        assert(holds(before, j, k));
                        lemma_tx_kept(before, after, k, j);
                    }
                }
            },
        }
    }

    /// The state stored under `id`; `None` exactly when there is none.
    pub fn get(&self, id: u64) -> (state: Option<&RemotePaneState>)
        requires
            self.wf(),
        ensures
            match state {
                Some(s) => self@.contains_key(id) && s@ == self@[id] && s.key() == id && s.wf()
                    && s.sender() == self.sender_of(id),
                None => !self@.contains_key(id),
            },
    {
        match self.position(id) {
            Some(i) => Some(&self.panes[i]),
            None => None,
        }
    }

    /// Takes the state stored under `id` out of the registry; `None` exactly
    /// when there is none. Every other pane stays as it is.
    pub fn remove(&mut self, id: u64) -> (state: Option<RemotePaneState>)
        requires
            old(self).wf(),
        ensures
            final(self).wf(),
            final(self)@ == old(self)@.remove(id),
            final(self).same_senders_but(old(self), id),
            match state {
                Some(s) => old(self)@.contains_key(id) && s@ == old(self)@[id] && s.key() == id
                    && s.wf() && s.sender() == old(self).sender_of(id),
                None => !old(self)@.contains_key(id),
            },
    {
        let ghost before = self.panes@;
        match self.position(id) {
            Some(i) => {
                proof {
                    lemma_table_remove(self.panes@, i as int);
                }
                let state = self.panes.remove(i);
                proof {
                    let after = self.panes@;
                    assert forall|k: u64| k != id && table(before).contains_key(k) implies tx_of(
                        after,
                        k,
                    ) == tx_of(before, k) by {
                        let j = slot_of(before, k);
                        assert(holds(before, j, k));
                        let moved = if j < i {
                            j
                        } else {
                            j - 1
                        };
                        assert(after[moved] == before[j]);
                        lemma_tx_kept(before, after, k, moved);
                    }
                }
                Some(state)
            },
            None => {
                assert(self@.remove(id) =~= self@);
                None
            },
        }
    }
}

/// What the registry did with an event.
#[derive(Clone, Copy, Debug, PartialEq, Eq, Structural)]
pub enum Outcome {
    /// A new pane was registered.
    Added,
    /// The payload was handed to the pane's channel.
    Forwarded,
    /// The pane's geometry was replaced.
    Resized,
    /// The pane was marked as ended and its channel closed.
    Exited,
    /// The event is the reply to a command; the registry has no part in it
    /// and hands the reply on.
    Replied,
    /// The event asks nothing of the registry: an unknown line, or output
    /// without bytes.
    Skipped,
    /// The event names a pane that is not registered; it was dropped.
    UnknownPane,
    /// The event is output for, or the exit of, a pane that has ended
    /// already; it was dropped.
    AlreadyExited,
    /// The event adds a pane that is registered already; it was dropped.
    AlreadyAdded,
}

/// The result of applying one event: what was done, for a new pane the
/// handle that reads its output, and for a command reply the command's number
/// and the reply's payload.
pub struct Applied {
    pub outcome: Outcome,
    pub pane: Option<TmuxPty>,
    pub reply: Option<(u64, Vec<u8>)>,
}

impl Applied {
    /// The reply that this result hands on, as plain values.
    pub open spec fn reply_view(&self) -> Option<(u64, Seq<u8>)> {
        match self.reply {
            Some((seq, payload)) => Some((seq, payload@)),
            None => None,
        }
    }

    /// Whether this result is what applying `event` to `table` has to
    /// report: the outcome, a handle exactly for a new pane and for that
    /// pane, and a reply exactly for a command reply.
    pub open spec fn reports(&self, table: Map<u64, PaneView>, event: EventView) -> bool {
        &&& self.outcome == outcome_spec(table, event)
        &&& self.pane is Some <==> self.outcome == Outcome::Added
        &&& match self.pane {
            Some(pty) => event matches EventView::PaneAdded { pane_id, .. } && pty.id() == pane_id,
            None => true,
        }
        &&& self.reply_view() == reply_in(event)
    }
}

/// The reply that `event` carries, if it is a command reply.
pub open spec fn reply_in(event: EventView) -> Option<(u64, Seq<u8>)> {
    match event {
        EventView::CommandReply { seq, payload } => Some((seq, payload)),
        _ => None,
    }
}

/// The table after `event` has been applied to `table`.
///
/// Output changes only what was forwarded; a layout change only the geometry
/// and, when it carries one, the cursor; an exit only liveness and status.
/// An event for a pane that is not in the table changes nothing.
pub open spec fn apply_spec(table: Map<u64, PaneView>, event: EventView) -> Map<u64, PaneView> {
    match event {
        EventView::Output { pane_id, data } => {
            if table.contains_key(pane_id) && table[pane_id].alive && data.len() > 0 {
                table.insert(
                    pane_id,
                    PaneView { forwarded: table[pane_id].forwarded.push(data), ..table[pane_id] },
                )
            } else {
                table
            }
        },
        EventView::LayoutChanged { pane_id, width, height, cursor } => {
            if table.contains_key(pane_id) {
                table.insert(
                    pane_id,
                    PaneView {
                        width,
                        height,
                        cursor: match cursor {
                            Some(c) => c,
                            None => table[pane_id].cursor,
                        },
                        ..table[pane_id]
                    },
                )
            } else {
                table
            }
        },
        EventView::PaneExited { pane_id, status } => {
            if table.contains_key(pane_id) && table[pane_id].alive {
                table.insert(
                    pane_id,
                    PaneView { alive: false, exit_status: status, ..table[pane_id] },
                )
            } else {
                table
            }
        },
        EventView::PaneAdded { pane_id, parent_window } => {
            if table.contains_key(pane_id) {
                table
            } else {
                table.insert(pane_id, fresh_pane())
            }
        },
        EventView::CommandReply { seq, payload } => table,
        EventView::Unknown { raw } => table,
    }
}

/// What applying `event` to `table` reports.
pub open spec fn outcome_spec(table: Map<u64, PaneView>, event: EventView) -> Outcome {
    match event {
        EventView::Output { pane_id, data } => {
            if !table.contains_key(pane_id) {
                Outcome::UnknownPane
            } else if !table[pane_id].alive {
                Outcome::AlreadyExited
            } else if data.len() == 0 {
                Outcome::Skipped
            } else {
                Outcome::Forwarded
            }
        },
        EventView::LayoutChanged { pane_id, width, height, cursor } => {
            if table.contains_key(pane_id) {
                Outcome::Resized
            } else {
                Outcome::UnknownPane
            }
        },
        EventView::PaneExited { pane_id, status } => {
            if !table.contains_key(pane_id) {
                Outcome::UnknownPane
            } else if !table[pane_id].alive {
                Outcome::AlreadyExited
            } else {
                Outcome::Exited
            }
        },
        EventView::PaneAdded { pane_id, parent_window } => {
            if table.contains_key(pane_id) {
                Outcome::AlreadyAdded
            } else {
                Outcome::Added
            }
        },
        EventView::CommandReply { seq, payload } => Outcome::Replied,
        EventView::Unknown { raw } => Outcome::Skipped,
    }
}

/// The table after the connection is lost: the same panes, none of them
/// alive, everything else as it was.
pub open spec fn disconnected(table: Map<u64, PaneView>) -> Map<u64, PaneView> {
    Map::new(
        |id: u64| table.contains_key(id),
        |id: u64| PaneView { alive: false, ..table[id] },
    )
}

impl Registry {
    /// Applies one event to the registry and says what was done.
    ///
    /// For a new pane a channel is opened: the registry keeps the sending
    /// end, and the handle that is returned holds the receiving end.
    pub fn apply(&mut self, event: Event) -> (applied: Applied)
        requires
            old(self).wf(),
        ensures
            final(self).wf(),
            final(self)@ == apply_spec(old(self)@, event@),
            final(self).senders_follow(old(self)),
            applied.reports(old(self)@, event@),
    {
        let applied = match event {
            Event::Output { pane_id, data } => {
                match self.position(pane_id) {
                    None => Applied { outcome: Outcome::UnknownPane, pane: None, reply: None },
                    Some(i) => {
                        if !self.panes[i].alive {
                            Applied { outcome: Outcome::AlreadyExited, pane: None, reply: None }
                        } else if data.len() == 0 {
                            Applied { outcome: Outcome::Skipped, pane: None, reply: None }
                        } else {
                            self.panes[i].forward(data);
                            proof {
                                lemma_slot_replaced(old(self).panes@, self.panes@, i as int);
                            }
                            Applied { outcome: Outcome::Forwarded, pane: None, reply: None }
                        }
                    },
                }
            },
            Event::LayoutChanged { pane_id, width, height, cursor } => {
                match self.position(pane_id) {
                    None => Applied { outcome: Outcome::UnknownPane, pane: None, reply: None },
                    Some(i) => {
                        self.panes[i].width = width;
                        self.panes[i].height = height;
                        match cursor {
                            Some(c) => {
                                self.panes[i].cursor = c;
                            },
                            None => {},
                        }
                        proof {
                            lemma_slot_replaced(old(self).panes@, self.panes@, i as int);
                        }
                        Applied { outcome: Outcome::Resized, pane: None, reply: None }
                    },
                }
            },
            Event::PaneExited { pane_id, status } => {
                match self.position(pane_id) {
                    None => Applied { outcome: Outcome::UnknownPane, pane: None, reply: None },
                    Some(i) => {
                        if !self.panes[i].alive {
                            Applied { outcome: Outcome::AlreadyExited, pane: None, reply: None }
                        } else {
                            self.panes[i].close(status);
                            proof {
                                lemma_slot_replaced(old(self).panes@, self.panes@, i as int);
                            }
                            Applied { outcome: Outcome::Exited, pane: None, reply: None }
                        }
                    },
                }
            },
            Event::PaneAdded { pane_id, parent_window } => {
                match self.position(pane_id) {
                    Some(_) => Applied { outcome: Outcome::AlreadyAdded, pane: None, reply: None },
                    None => {
                        let (tx, rx) = flume::unbounded();
                        let state = RemotePaneState::new(
                            pane_id,
                            DEFAULT_WIDTH,
                            DEFAULT_HEIGHT,
                            tx,
                        );
                        proof {
                            lemma_table_push(self.panes@, state);
                        }
                        self.panes.push(state);
                        Applied {
                            outcome: Outcome::Added,
                            pane: Some(TmuxPty::new(pane_id, rx)),
                            reply: None,
                        }
                    },
                }
            },
            Event::CommandReply { seq, payload } => Applied {
                outcome: Outcome::Replied,
                pane: None,
                reply: Some((seq, payload)),
            },
            Event::Unknown { raw } => Applied { outcome: Outcome::Skipped, pane: None, reply: None },
        };
        proof {
            lemma_senders_follow(old(self).panes@, self.panes@);
        }
        applied
    }

    /// Ends every pane: the connection is gone, so each channel is closed and
    /// no pane is alive any more. A pane that had ended before keeps its exit
    /// status.
    pub fn disconnect(&mut self)
        requires
            old(self).wf(),
        ensures
            final(self).wf(),
            final(self)@ == disconnected(old(self)@),
            final(self).senders_follow(old(self)),
    {
        let mut i: usize = 0;
        while i < self.panes.len()
            invariant
                i <= self.panes.len(),
                self.panes.len() == old(self).panes.len(),
                forall|j: int| 0 <= j < self.panes.len() ==> (#[trigger] self.panes@[j]).wf(),
                forall|j: int|
                    0 <= j < self.panes.len() ==> (#[trigger] self.panes@[j]).id == old(
                        self,
                    ).panes@[j].id,
                forall|j: int|
                    0 <= j < i ==> (#[trigger] self.panes@[j])@ == (PaneView {
                        alive: false,
                        ..old(self).panes@[j]@
                    }) && self.panes@[j].tx is None,
                forall|j: int| i <= j < self.panes.len() ==> (#[trigger] self.panes@[j]).tx == old(
                    self,
                ).panes@[j].tx,
                forall|j: int| i <= j < self.panes.len() ==> (#[trigger] self.panes@[j])@ == old(
                    self,
                ).panes@[j]@,
            decreases self.panes.len() - i,
        {
            let status = self.panes[i].exit_status;
            self.panes[i].close(status);
            i += 1;
        }
        proof {
            let before = old(self).panes@;
            let after = self.panes@;
            assert forall|a: int, b: int| 0 <= a < b < after.len() implies (#[trigger] after[a]).id
                != (#[trigger] after[b]).id by {
                assert(before[a].id != before[b].id);
            }
            let want = disconnected(table(before));
            assert forall|id: u64| table(after).contains_key(id) <==> want.contains_key(id) by {
                if table(after).contains_key(id) {
                    let k = choose|k: int| holds(after, k, id);
                    assert(holds(before, k, id));
                }
                if want.contains_key(id) {
                    let k = choose|k: int| holds(before, k, id);
                    assert(holds(after, k, id));
                }
            }
            assert forall|id: u64| table(after).contains_key(id) implies table(after)[id]
                == want[id] by {
                let k = choose|k: int| holds(after, k, id);
                assert(holds(before, k, id));
                lemma_table_at(after, k);
                lemma_table_at(before, k);
            }
            assert(table(after) =~= want);
            lemma_senders_follow(before, after);
        }
    }
}

/// The table after the events of `events` have been applied in order.
pub open spec fn apply_all(table: Map<u64, PaneView>, events: Seq<EventView>) -> Map<
    u64,
    PaneView,
>
    decreases events.len(),
{
    if events.len() == 0 {
        table
    } else {
        apply_all(apply_spec(table, events[0]), events.skip(1))
    }
}

/// The payloads that the output events of `events` address to pane `id`, in
/// the order of the events. Output without bytes carries no payload.
pub open spec fn outputs_for(events: Seq<EventView>, id: u64) -> Seq<Seq<u8>>
    decreases events.len(),
{
    if events.len() == 0 {
        Seq::empty()
    } else {
        let later = outputs_for(events.skip(1), id);
        match events[0] {
            EventView::Output { pane_id, data } => if pane_id == id && data.len() > 0 {
                seq![data] + later
            } else {
                later
            },
            _ => later,
        }
    }
}

/// Whether `event` is a layout change for pane `id`.
pub open spec fn resizes(event: EventView, id: u64) -> bool {
    event matches EventView::LayoutChanged { pane_id, .. } && pane_id == id
}

/// Output is routed by pane and kept in order: after any sequence of output
/// events, interleaved among panes in any way, a live pane has been handed
/// exactly the payloads addressed to it, in the order in which they came,
/// and nothing else about the pane has changed.
pub proof fn lemma_output_routing(table: Map<u64, PaneView>, events: Seq<EventView>, id: u64)
    requires
        table.contains_key(id),
        table[id].alive,
        forall|i: int| 0 <= i < events.len() ==> events[i] is Output,
    ensures
        apply_all(table, events).contains_key(id),
        apply_all(table, events)[id] == (PaneView {
            forwarded: table[id].forwarded + outputs_for(events, id),
            ..table[id]
        }),
    decreases events.len(),
{
    if events.len() == 0 {
        assert(table[id].forwarded + Seq::<Seq<u8>>::empty() =~= table[id].forwarded);
    } else {
        let next = apply_spec(table, events[0]);
        let rest = events.skip(1);
        assert(events[0] is Output);
        assert forall|i: int| 0 <= i < rest.len() implies rest[i] is Output by {
            assert(rest[i] == events[i + 1]);
        }
        lemma_output_routing(next, rest, id);
        match events[0] {
            EventView::Output { pane_id, data } => {
                if pane_id == id && data.len() > 0 {
                    assert(table[id].forwarded.push(data) + outputs_for(rest, id)
                        =~= table[id].forwarded + (seq![data] + outputs_for(rest, id)));
                }
            },
            _ => {},
        }
    }
}

/// Geometry changes by layout notifications only: an event that is no layout
/// change for a pane leaves that pane in the table with the width, height
/// and cursor it had. Nothing a handle does reaches the table at all.
pub proof fn lemma_geometry_frame(table: Map<u64, PaneView>, event: EventView, id: u64)
    requires
        table.contains_key(id),
        !resizes(event, id),
    ensures
        apply_spec(table, event).contains_key(id),
        apply_spec(table, event)[id].width == table[id].width,
        apply_spec(table, event)[id].height == table[id].height,
        apply_spec(table, event)[id].cursor == table[id].cursor,
{
}

/// The geometry that a layout change set stays until the next layout change
/// for the same pane, whatever other events are applied in between.
pub proof fn lemma_geometry_holds_until_superseded(
    table: Map<u64, PaneView>,
    events: Seq<EventView>,
    id: u64,
)
    requires
        table.contains_key(id),
        forall|i: int| 0 <= i < events.len() ==> !resizes(events[i], id),
    ensures
        apply_all(table, events).contains_key(id),
        apply_all(table, events)[id].width == table[id].width,
        apply_all(table, events)[id].height == table[id].height,
    decreases events.len(),
{
    if events.len() > 0 {
        let rest = events.skip(1);
        assert(!resizes(events[0], id));
        lemma_geometry_frame(table, events[0], id);
        assert forall|i: int| 0 <= i < rest.len() implies !resizes(rest[i], id) by {
            assert(rest[i] == events[i + 1]);
        }
        lemma_geometry_holds_until_superseded(apply_spec(table, events[0]), rest, id);
    }
}

/// The pane that `event` is about, if it is about one.
pub open spec fn subject(event: EventView) -> Option<u64> {
    match event {
        EventView::Output { pane_id, data } => Some(pane_id),
        EventView::LayoutChanged { pane_id, width, height, cursor } => Some(pane_id),
        EventView::PaneExited { pane_id, status } => Some(pane_id),
        EventView::PaneAdded { pane_id, parent_window } => Some(pane_id),
        EventView::CommandReply { seq, payload } => None,
        EventView::Unknown { raw } => None,
    }
}

/// An event about a pane that was never added is dropped: the table stays as
/// it is and the outcome names the unknown pane.
pub proof fn lemma_unknown_pane_is_dropped(table: Map<u64, PaneView>, event: EventView)
    requires
        subject(event) matches Some(id) && !table.contains_key(id),
        !(event is PaneAdded),
    ensures
        apply_spec(table, event) == table,
        outcome_spec(table, event) == Outcome::UnknownPane,
{
}

/// An event touches at most the pane it is about: every other pane stays in
/// the table exactly as it was.
pub proof fn lemma_other_panes_untouched(table: Map<u64, PaneView>, event: EventView, other: u64)
    requires
        subject(event) != Some(other),
    ensures
        apply_spec(table, event).contains_key(other) == table.contains_key(other),
        table.contains_key(other) ==> apply_spec(table, event)[other] == table[other],
{
}

/// After the connection is lost no pane is alive, so every channel is
/// closed, and nothing else about any pane has changed.
pub proof fn lemma_disconnect_ends_all(table: Map<u64, PaneView>, id: u64)
    requires
        table.contains_key(id),
    ensures
        disconnected(table).contains_key(id),
        !disconnected(table)[id].alive,
        disconnected(table)[id] == (PaneView { alive: false, ..table[id] }),
        disconnected(table).dom() == table.dom(),
{
    assert(disconnected(table).dom() =~= table.dom());
}

} // verus!
