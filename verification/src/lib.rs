//! A small DNS resolver: a fixed-size packet buffer with a verified wire
//! format for headers, questions and resource records, and the decisions a
//! forwarding or recursive resolver takes on the packets it receives.

pub mod protocol;
pub mod types;
