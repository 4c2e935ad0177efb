//! Recording and playback of terminal sessions: the recording file format,
//! the recording and playback state machines, and the plain-value logic of
//! the pseudo-terminal and its child process.
pub mod json;
pub mod number;
pub mod event;
pub mod header;
pub mod playback;
pub mod record;
pub mod terminal;
pub mod process;
pub mod api;
pub mod account;
