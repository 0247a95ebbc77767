//! A DNS message codec: structured representations of DNS messages
//! (header, questions, resource records, EDNS(0) options) together with
//! verified encoders and decoders for the RFC 1035 wire format, including
//! compression-pointer following, bit-level header packing, back-patched
//! length fields and the NSEC/NSEC3 type bitmaps.

pub mod buffer;

/// Provides the error type for the crate.
pub mod error;

/// Provides the `Header` struct.
pub mod header;

/// Provides the domain-name label codec.
pub mod labels;

/// Provides the `Packet` struct.
pub mod packet;

/// Provides the `Question` struct.
pub mod question;

/// Provides the `Record` enum.
pub mod record;

/// Provides the identifier code spaces and the type-bitmap codec.
pub mod types;

pub use crate::buffer::Buffer;
pub use crate::error::DrasilDNSError;
pub use crate::header::{Header, RequestKind, ResponseCode};
pub use crate::packet::builder::PacketBuilder;
pub use crate::packet::Packet;
pub use crate::question::Question;
pub use crate::record::edns::{EDNSOption, EDNSOptionType};
pub use crate::record::Record;
pub use crate::types::dnssec::{DNSSECAlgorithm, DNSSECDigestType};
pub use crate::types::{RecordClass, RecordType};
