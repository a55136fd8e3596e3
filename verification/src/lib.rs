//! An authoritative DNS name server as a library: the wire codec for requests
//! and responses, the zone data model, and the resolution of one question
//! against a zone. Every function is total on its stated inputs and carries a
//! contract over a mathematical model of the bytes and records it handles.

pub mod parser;
pub mod record;
pub mod reply;
pub mod text;
pub mod wire;
pub mod zone;
