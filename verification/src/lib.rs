//! Codec and relay core of a DNS forwarder.
//!
//! The wire codec turns DNS messages into bytes and back: the header, the
//! questions with their compressed names, and the answers. The splitter
//! cuts a query with several questions into queries with one question each,
//! and the relay merges the replies of the upstream resolver into the
//! response for the client. Every function has its contract over a model of
//! the wire format, and `laws` holds what follows for all inputs.
//!
//! Nothing here touches a socket: the caller sends what the relay hands out
//! and delivers what comes back.

pub mod error;
pub mod header;
pub mod laws;
pub mod message;
pub mod name;
pub mod question;
pub mod record;
pub mod relay;
pub mod wire;

pub use error::{CoreError, DecodeError, Stage};
pub use header::DNSHeader;
pub use message::{DnsQuery, DnsResponse};
pub use question::Question;
pub use record::ResourceRecord;
pub use relay::{merge, Outcome, Relay, Step};
