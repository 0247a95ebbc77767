//! The error type shared by every encoder and decoder of the crate.

use vstd::prelude::*;

verus! {

/// Error type for Drasil-DNS.
///
/// Every fallible operation of the codec reports one of these variants;
/// the contracts of the encoders and decoders state exactly which inputs
/// produce which variant.
#[derive(Debug, Clone, PartialEq, Eq)]
pub enum DrasilDNSError {
    /// Fallback for failures with no more precise description.
    Unknown,
    /// A message did not have the size the transport convention asks for.
    InvalidPacketSize { size: usize },
    /// A compression-pointer chain exceeded the five-jump limit.
    TooManyJumpsInLabelSequence,
    /// A domain-name label was longer than 63 bytes.
    LabelTooLarge { size: u8 },
    /// A read or write ran past the end of the buffer.
    EOF,
    /// A client-subnet option carried a source netmask beyond the family's width.
    InvalidSourceNetmask { family: u16, max: u8, provided: u8 },
    /// A client-subnet option carried a scope netmask beyond the family's width.
    InvalidScopeNetmask { family: u16, max: u8, provided: u8 },
    /// A client-subnet option named an address family other than IPv4 or IPv6.
    InvalidNetworkFamily { family: u16 },
    /// An EDNS(0) option declared a length that does not fit its option code.
    InvalidEDNSOptionLength { option_type: u16, size: u16 },
    /// Malformed data with a description.
    InvalidData { msg: String },
}

} // verus!
