//! A small key-value server core: a framing codec for the RESP wire format,
//! a command layer on top of it and a store shared between connections.

pub mod buffer;
pub mod commands;
pub mod connection;
pub mod decimal;
pub mod framing;
pub mod protocol;
pub mod storage;
pub mod text;
