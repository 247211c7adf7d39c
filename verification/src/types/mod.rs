//! Wire-level building blocks: the packet buffer, its abstract model, and
//! the numeric codes of the protocol.

pub mod bytepacket_buffer;
pub mod error;
pub mod query_type;
pub mod result_code;
pub mod text;
pub mod wire;
