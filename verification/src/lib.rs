//! Bridge between a remote terminal multiplexer and local pseudo-terminal handles.
//!
//! One control connection carries an interleaved, line-oriented stream of
//! notifications about many panes. The modules here decode that stream, keep
//! the table of panes it describes, route each pane's output into that pane's
//! own channel, and expose every pane through a handle with the read, write,
//! resize and process-lifecycle operations of a pseudo-terminal.

pub mod channel;
pub mod codec;
pub mod command;
pub mod connection;
pub mod escape;
pub mod lines;
pub mod paneselect;
pub mod pty;
pub mod registry;
pub mod text;
