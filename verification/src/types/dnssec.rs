//! The DNSSEC code spaces: signing algorithms and digest types, as open
//! enumerations that carry unrecognized codes through unchanged.

use vstd::prelude::*;

verus! {

/// # DNSSEC Algorithm
/// The 8-bit number DNSKEY, RRSIG and DS records use to identify the
/// security algorithm of the key material they carry. Codes with no named
/// variant are kept as `Unknown`.
#[derive(Debug, Clone, Copy, PartialEq, Eq, PartialOrd, Ord)]
pub enum DNSSECAlgorithm {
    Unknown(u8),
    RSAMD5,
    DH,
    DSA,
    ECC,
    RSASHA1,
    INDIRECT,
    PRIVATEDNS,
    PRIVATEOID,
}

/// The numeric code of a [`DNSSECAlgorithm`].
pub open spec fn dnssec_algorithm_code(a: DNSSECAlgorithm) -> u8 {
    match a {
        DNSSECAlgorithm::RSAMD5 => 1,
        DNSSECAlgorithm::DH => 2,
        DNSSECAlgorithm::DSA => 3,
        DNSSECAlgorithm::ECC => 4,
        DNSSECAlgorithm::RSASHA1 => 5,
        DNSSECAlgorithm::INDIRECT => 252,
        DNSSECAlgorithm::PRIVATEDNS => 253,
        DNSSECAlgorithm::PRIVATEOID => 254,
        DNSSECAlgorithm::Unknown(v) => v,
    }
}

/// The [`DNSSECAlgorithm`] a numeric code names.
pub open spec fn dnssec_algorithm_of(v: u8) -> DNSSECAlgorithm {
    if v == 1 {
        DNSSECAlgorithm::RSAMD5
    } else if v == 2 {
        DNSSECAlgorithm::DH
    } else if v == 3 {
        DNSSECAlgorithm::DSA
    } else if v == 4 {
        DNSSECAlgorithm::ECC
    } else if v == 5 {
        DNSSECAlgorithm::RSASHA1
    } else if v == 252 {
        DNSSECAlgorithm::INDIRECT
    } else if v == 253 {
        DNSSECAlgorithm::PRIVATEDNS
    } else if v == 254 {
        DNSSECAlgorithm::PRIVATEOID
    } else {
        DNSSECAlgorithm::Unknown(v)
    }
}

impl DNSSECAlgorithm {
    /// The variant a numeric code names; unmapped codes become `Unknown`.
    pub fn from_code(v: u8) -> (r: Self)
        ensures
            r == dnssec_algorithm_of(v),
    {
        if v == 1 {
            DNSSECAlgorithm::RSAMD5
        } else if v == 2 {
            DNSSECAlgorithm::DH
        } else if v == 3 {
            DNSSECAlgorithm::DSA
        } else if v == 4 {
            DNSSECAlgorithm::ECC
        } else if v == 5 {
            DNSSECAlgorithm::RSASHA1
        } else if v == 252 {
            DNSSECAlgorithm::INDIRECT
        } else if v == 253 {
            DNSSECAlgorithm::PRIVATEDNS
        } else if v == 254 {
            DNSSECAlgorithm::PRIVATEOID
        } else {
            DNSSECAlgorithm::Unknown(v)
        }
    }

    /// The numeric code of this variant.
    pub fn to_code(self) -> (r: u8)
        ensures
            r == dnssec_algorithm_code(self),
    {
        match self {
            DNSSECAlgorithm::RSAMD5 => 1,
            DNSSECAlgorithm::DH => 2,
            DNSSECAlgorithm::DSA => 3,
            DNSSECAlgorithm::ECC => 4,
            DNSSECAlgorithm::RSASHA1 => 5,
            DNSSECAlgorithm::INDIRECT => 252,
            DNSSECAlgorithm::PRIVATEDNS => 253,
            DNSSECAlgorithm::PRIVATEOID => 254,
            DNSSECAlgorithm::Unknown(v) => v,
        }
    }
}

/// Every algorithm code survives the trip through the enumeration, named
/// or not: unmapped codes ride along in `Unknown`.
pub proof fn lemma_dnssec_algorithm_code_round_trip(v: u8)
    ensures
        dnssec_algorithm_code(dnssec_algorithm_of(v)) == v,
{
}

/// # DNSSEC Digest Type
/// The 8-bit number a DS record uses to identify the digest algorithm of
/// the digest it carries. Codes with no named variant are kept as `Unknown`.
#[derive(Debug, Clone, Copy, PartialEq, Eq, PartialOrd, Ord)]
pub enum DNSSECDigestType {
    Unknown(u8),
    SHA1,
}

/// The numeric code of a [`DNSSECDigestType`].
pub open spec fn dnssec_digest_type_code(d: DNSSECDigestType) -> u8 {
    match d {
        DNSSECDigestType::SHA1 => 1,
        DNSSECDigestType::Unknown(v) => v,
    }
}

/// The [`DNSSECDigestType`] a numeric code names.
pub open spec fn dnssec_digest_type_of(v: u8) -> DNSSECDigestType {
    if v == 1 {
        DNSSECDigestType::SHA1
    } else {
        DNSSECDigestType::Unknown(v)
    }
}

impl DNSSECDigestType {
    /// The variant a numeric code names; unmapped codes become `Unknown`.
    pub fn from_code(v: u8) -> (r: Self)
        ensures
            r == dnssec_digest_type_of(v),
    {
        if v == 1 {
            DNSSECDigestType::SHA1
        } else {
            DNSSECDigestType::Unknown(v)
        }
    }

    /// The numeric code of this variant.
    pub fn to_code(self) -> (r: u8)
        ensures
            r == dnssec_digest_type_code(self),
    {
        match self {
            DNSSECDigestType::SHA1 => 1,
            DNSSECDigestType::Unknown(v) => v,
        }
    }
}

/// Every digest-type code survives the trip through the enumeration.
pub proof fn lemma_dnssec_digest_type_code_round_trip(v: u8)
    ensures
        dnssec_digest_type_code(dnssec_digest_type_of(v)) == v,
{
}

} // verus!
