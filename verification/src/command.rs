//! Command encoder: local intents as command lines for the remote
//! multiplexer.
//!
//! A command is one line of text, ended by a line feed:
//!
//! ```text
//! send-keys <pane> <escaped bytes>
//! resize-pane <pane> <cols> <rows>
//! kill-pane <pane>
//! ```
//!
//! Numbers are written in decimal without leading zeros; key bytes are
//! escaped as output payloads are. Whoever owns the connection writes each
//! encoded line in one piece. The encoder also numbers the commands it hands
//! out and remembers each until its reply arrives.

use vstd::prelude::*;
use crate::escape::{
    escape_into, escaped, lemma_escaped_is_printable, lemma_unescape_escape, unescaped,
};
use crate::text::{
    LINE_FEED, SPACE, append, decimal, field, field_start, find_from, is_field, joined,
    lemma_decimal_unbroken, lemma_find_from_is, lemma_first_number, lemma_joined,
    lemma_last_number, lemma_unbroken_joined, number_field, push_decimal, tail, unbroken,
};

verus! {

/// Something the local side wants the remote multiplexer to do.
#[derive(Clone, Debug, PartialEq, Eq)]
pub enum Command {
    /// Type `bytes` into the pane.
    SendKeys { pane_id: u64, bytes: Vec<u8> },
    /// Give the pane `cols` columns and `rows` rows.
    Resize { pane_id: u64, cols: u16, rows: u16 },
    /// End the pane.
    Kill { pane_id: u64 },
}

/// The mathematical value of a [`Command`].
pub enum CommandView {
    SendKeys { pane_id: u64, bytes: Seq<u8> },
    Resize { pane_id: u64, cols: u16, rows: u16 },
    Kill { pane_id: u64 },
}

impl View for Command {
    type V = CommandView;

    open spec fn view(&self) -> CommandView {
        match self {
            Command::SendKeys { pane_id, bytes } => CommandView::SendKeys {
                pane_id: *pane_id,
                bytes: bytes@,
            },
            Command::Resize { pane_id, cols, rows } => CommandView::Resize {
                pane_id: *pane_id,
                cols: *cols,
                rows: *rows,
            },
            Command::Kill { pane_id } => CommandView::Kill { pane_id: *pane_id },
        }
    }
}

/// The word `send-keys`.
pub open spec fn send_keys_word() -> Seq<u8> {
    seq![
        's' as u8, 'e' as u8, 'n' as u8, 'd' as u8, '-' as u8, 'k' as u8, 'e' as u8, 'y' as u8,
        's' as u8,
    ]
}

/// The word `resize-pane`.
pub open spec fn resize_word() -> Seq<u8> {
    seq![
        'r' as u8, 'e' as u8, 's' as u8, 'i' as u8, 'z' as u8, 'e' as u8, '-' as u8, 'p' as u8,
        'a' as u8, 'n' as u8, 'e' as u8,
    ]
}

/// The word `kill-pane`.
pub open spec fn kill_word() -> Seq<u8> {
    seq![
        'k' as u8, 'i' as u8, 'l' as u8, 'l' as u8, '-' as u8, 'p' as u8, 'a' as u8, 'n' as u8,
        'e' as u8,
    ]
}

/// The text of a command, without the line feed that ends it.
pub open spec fn command_text(command: CommandView) -> Seq<u8> {
    match command {
        CommandView::SendKeys { pane_id, bytes } => joined(
            send_keys_word(),
            joined(decimal(pane_id as nat), escaped(bytes)),
        ),
        CommandView::Resize { pane_id, cols, rows } => joined(
            resize_word(),
            joined(decimal(pane_id as nat), joined(decimal(cols as nat), decimal(rows as nat))),
        ),
        CommandView::Kill { pane_id } => joined(kill_word(), decimal(pane_id as nat)),
    }
}

/// The line that a command is sent as.
pub open spec fn encoded(command: CommandView) -> Seq<u8> {
    command_text(command) + seq![LINE_FEED]
}

/// A command is exactly one line: its encoding ends in a line feed and holds
/// no other, whatever bytes the command carries. So a reader that splits the
/// stream at line feeds sees each command whole.
pub proof fn lemma_encoded_is_one_line(command: CommandView)
    ensures
        encoded(command).len() > 0,
        find_from(encoded(command), 0, LINE_FEED) == encoded(command).len() - 1,
        unbroken(command_text(command)),
{
    assert(unbroken(send_keys_word()));
    assert(unbroken(resize_word()));
    assert(unbroken(kill_word()));
    match command {
        CommandView::SendKeys { pane_id, bytes } => {
            lemma_decimal_unbroken(pane_id as nat);
            lemma_escaped_is_printable(bytes);
            lemma_unbroken_joined(decimal(pane_id as nat), escaped(bytes));
            lemma_unbroken_joined(
                send_keys_word(),
                joined(decimal(pane_id as nat), escaped(bytes)),
            );
        },
        CommandView::Resize { pane_id, cols, rows } => {
            lemma_decimal_unbroken(pane_id as nat);
            lemma_decimal_unbroken(cols as nat);
            lemma_decimal_unbroken(rows as nat);
            let size = joined(decimal(cols as nat), decimal(rows as nat));
            lemma_unbroken_joined(decimal(cols as nat), decimal(rows as nat));
            lemma_unbroken_joined(decimal(pane_id as nat), size);
            lemma_unbroken_joined(resize_word(), joined(decimal(pane_id as nat), size));
        },
        CommandView::Kill { pane_id } => {
            lemma_decimal_unbroken(pane_id as nat);
            lemma_unbroken_joined(kill_word(), decimal(pane_id as nat));
        },
    }
    let text = command_text(command);
    let line = encoded(command);
    assert(line[text.len() as int] == LINE_FEED);
    assert forall|i: int| 0 <= i < text.len() implies line[i] != LINE_FEED by {
        assert(line[i] == text[i]);
    }
    lemma_find_from_is(line, 0, LINE_FEED, text.len() as int);
}

/// What a command's text says when it is read field by field.
pub open spec fn reads_as(text: Seq<u8>, command: CommandView) -> bool {
    match command {
        CommandView::SendKeys { pane_id, bytes } => {
            &&& field(text, 0) == Some(send_keys_word())
            &&& number_field(text, 1, u64::MAX as nat) == Some(pane_id as nat)
            &&& tail(text, 2) matches Some(keys) && unescaped(keys) == Some(bytes)
        },
        CommandView::Resize { pane_id, cols, rows } => {
            &&& field(text, 0) == Some(resize_word())
            &&& number_field(text, 1, u64::MAX as nat) == Some(pane_id as nat)
            &&& number_field(text, 2, u16::MAX as nat) == Some(cols as nat)
            &&& number_field(text, 3, u16::MAX as nat) == Some(rows as nat)
            &&& field(text, 4) is None
        },
        CommandView::Kill { pane_id } => {
            &&& field(text, 0) == Some(kill_word())
            &&& number_field(text, 1, u64::MAX as nat) == Some(pane_id as nat)
            &&& field(text, 2) is None
        },
    }
}

/// A command's text says what the command means: read field by field, it
/// gives the command's word, its pane and its numbers, and for keys the
/// bytes that unescape to the keys, and nothing more.
pub proof fn lemma_command_reads_back(command: CommandView)
    ensures
        reads_as(command_text(command), command),
{
    let text = command_text(command);
    assert(is_field(send_keys_word()));
    assert(is_field(resize_word()));
    assert(is_field(kill_word()));
    match command {
        CommandView::SendKeys { pane_id, bytes } => {
            let rest = joined(decimal(pane_id as nat), escaped(bytes));
            lemma_joined(send_keys_word(), rest);
            lemma_first_number(pane_id as nat, u64::MAX as nat, escaped(bytes));
            lemma_unescape_escape(bytes);
            assert(field(rest, 0) == field(text, 1));
            assert(tail(rest, 1) == tail(text, 2));
            assert(tail(escaped(bytes), 0) == tail(rest, 1));
            assert(field_start(escaped(bytes), 0) == Some(0int));
            assert(escaped(bytes).skip(0) =~= escaped(bytes));
        },
        CommandView::Resize { pane_id, cols, rows } => {
            let size = joined(decimal(cols as nat), decimal(rows as nat));
            let rest = joined(decimal(pane_id as nat), size);
            lemma_joined(resize_word(), rest);
            lemma_first_number(pane_id as nat, u64::MAX as nat, size);
            lemma_first_number(cols as nat, u16::MAX as nat, decimal(rows as nat));
            lemma_last_number(rows as nat, u16::MAX as nat);
            assert(field(rest, 0) == field(text, 1));
            assert(field(rest, 1) == field(text, 2));
            assert(field(rest, 2) == field(text, 3));
            assert(field(rest, 3) == field(text, 4));
            assert(field(size, 0) == field(rest, 1));
            assert(field(size, 1) == field(rest, 2));
            assert(field(size, 2) == field(rest, 3));
            assert(field(decimal(rows as nat), 0) == field(size, 1));
            assert(field(decimal(rows as nat), 1) == field(size, 2));
        },
        CommandView::Kill { pane_id } => {
            lemma_joined(kill_word(), decimal(pane_id as nat));
            lemma_last_number(pane_id as nat, u64::MAX as nat);
            assert(field(decimal(pane_id as nat), 0) == field(text, 1));
            assert(field(decimal(pane_id as nat), 1) == field(text, 2));
        },
    }
}

/// The line that `command` is sent as.
pub fn encode(command: &Command) -> (line: Vec<u8>)
    ensures
        line@ == encoded(command@),
{
    let mut out: Vec<u8> = Vec::new();
    match command {
        Command::SendKeys { pane_id, bytes } => {
            let word: [u8; 9] = [
                's' as u8, 'e' as u8, 'n' as u8, 'd' as u8, '-' as u8, 'k' as u8, 'e' as u8,
                'y' as u8, 's' as u8,
            ];
            assert(word@ =~= send_keys_word());
            append(&mut out, &word);
            out.push(SPACE);
            push_decimal(&mut out, *pane_id);
            out.push(SPACE);
            escape_into(&mut out, bytes.as_slice());
            out.push(LINE_FEED);
            assert(out@ =~= encoded(command@));
        },
        Command::Resize { pane_id, cols, rows } => {
            let word: [u8; 11] = [
                'r' as u8, 'e' as u8, 's' as u8, 'i' as u8, 'z' as u8, 'e' as u8, '-' as u8,
                'p' as u8, 'a' as u8, 'n' as u8, 'e' as u8,
            ];
            assert(word@ =~= resize_word());
            append(&mut out, &word);
            out.push(SPACE);
            push_decimal(&mut out, *pane_id);
            out.push(SPACE);
            push_decimal(&mut out, *cols as u64);
            out.push(SPACE);
            push_decimal(&mut out, *rows as u64);
            out.push(LINE_FEED);
            assert(out@ =~= encoded(command@));
        },
        Command::Kill { pane_id } => {
            let word: [u8; 9] = [
                'k' as u8, 'i' as u8, 'l' as u8, 'l' as u8, '-' as u8, 'p' as u8, 'a' as u8,
                'n' as u8, 'e' as u8,
            ];
            assert(word@ =~= kill_word());
            append(&mut out, &word);
            out.push(SPACE);
            push_decimal(&mut out, *pane_id);
            out.push(LINE_FEED);
            assert(out@ =~= encoded(command@));
        },
    }
    out
}

/// A command that was handed out and has not been answered yet.
pub struct PendingCommand {
    /// The number the command was issued under.
    pub seq: u64,
    /// The command.
    pub command: Command,
}

/// The one place that turns commands into lines. It numbers the commands in
/// the order in which they are issued and keeps each until its reply comes.
pub struct CommandEncoder {
    next_seq: u64,
    pending: Vec<PendingCommand>,
}

impl CommandEncoder {
    /// The number that the next command will get.
    pub closed spec fn next_seq(&self) -> u64 {
        self.next_seq
    }

    /// The commands that wait for a reply, each with its number, oldest
    /// first.
    pub closed spec fn pending(&self) -> Seq<(u64, CommandView)> {
        Seq::new(
            self.pending@.len(),
            |i: int| (self.pending@[i].seq, self.pending@[i].command@),
        )
    }

    /// Whether the numbers of `pending` grow strictly and stay below `limit`.
    pub open spec fn ordered(pending: Seq<(u64, CommandView)>, limit: u64) -> bool {
        &&& forall|i: int| 0 <= i < pending.len() ==> (#[trigger] pending[i]).0 < limit
        &&& forall|i: int, j: int|
            0 <= i < j < pending.len() ==> (#[trigger] pending[i]).0 < (#[trigger] pending[j]).0
    }

    /// Every waiting command has a number of its own, below the next number.
    pub open spec fn wf(&self) -> bool {
        Self::ordered(self.pending(), self.next_seq())
    }

    /// An encoder that has issued nothing.
    pub fn new() -> (encoder: CommandEncoder)
        ensures
            encoder.wf(),
            encoder.next_seq() == 0,
            encoder.pending() == Seq::<(u64, CommandView)>::empty(),
    {
        let encoder = CommandEncoder { next_seq: 0, pending: Vec::new() };
        assert(encoder.pending() =~= Seq::<(u64, CommandView)>::empty());
        encoder
    }

    /// The number of commands that wait for a reply.
    pub fn pending_count(&self) -> (count: usize)
        ensures
            count == self.pending().len(),
    {
        self.pending.len()
    }

    /// Issues `command`: gives it the next number, remembers it as waiting,
    /// and returns the number and the line to write to the connection.
    ///
    /// `None`, with nothing changed, exactly when the numbers are used up.
    pub fn issue(&mut self, command: Command) -> (issued: Option<(u64, Vec<u8>)>)
        requires
            old(self).wf(),
        ensures
            final(self).wf(),
            match issued {
                Some((seq, line)) => {
                    &&& old(self).next_seq() < u64::MAX
                    &&& seq == old(self).next_seq()
                    &&& line@ == encoded(command@)
                    &&& final(self).next_seq() == seq + 1
                    &&& final(self).pending() == old(self).pending().push((seq, command@))
                },
                None => {
                    &&& old(self).next_seq() == u64::MAX
                    &&& final(self).next_seq() == old(self).next_seq()
                    &&& final(self).pending() == old(self).pending()
                },
            },
    {
        if self.next_seq == u64::MAX {
            return None;
        }
        let seq = self.next_seq;
        let line = encode(&command);
        let ghost view = command@;
        self.pending.push(PendingCommand { seq, command });
        self.next_seq = seq + 1;
        assert(self.pending() =~= old(self).pending().push((seq, view)));
        Some((seq, line))
    }

    /// Takes the reply to command number `seq`: the command stops waiting
    /// and is returned. `None`, with nothing changed, exactly when no command
    /// with that number waits.
    pub fn acknowledge(&mut self, seq: u64) -> (command: Option<Command>)
        requires
            old(self).wf(),
        ensures
            final(self).wf(),
            final(self).next_seq() == old(self).next_seq(),
            match command {
                Some(c) => exists|i: int|
                    {
                        &&& 0 <= i < old(self).pending().len()
                        &&& #[trigger] old(self).pending()[i] == (seq, c@)
                        &&& final(self).pending() == old(self).pending().remove(i)
                    },
                None => {
                    &&& final(self).pending() == old(self).pending()
                    &&& forall|i: int|
                        0 <= i < old(self).pending().len() ==> (#[trigger] old(
                            self,
                        ).pending()[i]).0 != seq
                },
            },
    {
        let mut i: usize = 0;
        while i < self.pending.len()
            invariant
                i <= self.pending.len(),
                *self == *old(self),
                self.wf(),
                forall|j: int| 0 <= j < i ==> (#[trigger] self.pending()[j]).0 != seq,
            decreases self.pending.len() - i,
        {
            if self.pending[i].seq == seq {
                let found = self.pending.remove(i);
                assert(old(self).pending()[i as int] == (seq, found.command@));
                assert(self.pending() =~= old(self).pending().remove(i as int));
                proof {
                    let before = old(self).pending();
                    let after = self.pending();
                    assert forall|a: int| 0 <= a < after.len() implies (#[trigger] after[a]).0
                        < self.next_seq() by {
                        assert(after[a] == before[if a < i { a } else { a + 1 }]);
                    }
                    assert forall|a: int, b: int| 0 <= a < b < after.len() implies (
                    #[trigger] after[a]).0 < (#[trigger] after[b]).0 by {
                        assert(after[a] == before[if a < i { a } else { a + 1 }]);
                        assert(after[b] == before[if b < i { b } else { b + 1 }]);
                    }
                }
                return Some(found.command);
            }
            assert(self.pending()[i as int].0 != seq);
            i += 1;
        }
        None
    }
}

} // verus!
