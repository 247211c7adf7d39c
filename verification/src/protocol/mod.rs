//! DNS messages: header, question, resource record, whole packet, and the
//! decisions of a resolver.

pub mod header;
pub mod lookup;
pub mod packet;
pub mod question;
pub mod record;
