//! A minimal DNS message codec: the fixed header, label-encoded domain names,
//! question entries, resource records and whole messages, each with a
//! mathematical model of its wire format.

pub mod answer;
pub mod error;
pub mod header;
pub mod message;
pub mod name;
pub mod octets;
pub mod question;
