//! A small content-addressable version-control core: canonical object
//! encoding, pack-stream decoding with delta resolution, and the framing of
//! the smart-HTTP fetch protocol.

pub mod checkout;
pub mod git_error;
pub mod object;
pub mod pack;
pub mod parser;
pub mod remote;
pub mod round_trip;
pub mod store;
pub mod text;
pub mod tree_order;
pub mod zlib;
