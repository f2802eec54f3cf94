//! Core of an interactive serial-device shell: command dispatch, the wire
//! format of the built-in commands, a device-channel model with a scripted
//! probe sequence, and the response-completion heuristic that decides when a
//! reply has finished arriving on an unframed byte stream.

pub mod command;
pub mod communicator;
pub mod shell;
pub mod text;
