//! The Language Server Protocol as far as koyashi decides on it: the framing
//! of messages and the sorting of what the server sends.

pub mod client;
pub mod transport;
