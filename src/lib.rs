//! A small key-value store reached over a framed binary protocol, with the
//! pieces that a server and a client need: the frame codec, command
//! decoding, the store, the per-connection request loop, client-side
//! response checks and a FIFO dispatcher that shares one client among many
//! callers. Beside them stand the metadata-path rule of the project server
//! and the engine-free parts of the paddle game.

pub mod client;
pub mod codec;
pub mod dispatcher;
pub mod command;
pub mod frame;
pub mod meta;
pub mod pong;
pub mod server;
pub mod store;
