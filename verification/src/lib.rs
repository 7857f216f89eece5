//! A verified core for the bitchat mesh-chat protocol: wire formats, command
//! parsing, session state and the peer state machine.

pub mod bytes;
pub mod text;
pub mod ids;
pub mod protocol;
pub mod command;
pub mod compression;
pub mod noise;
pub mod identity;
pub mod network;
pub mod chat;
