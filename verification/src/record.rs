//! The resource record codec: one variant per record kind, each with its
//! own RDATA layout, and the OPT pseudo-record that reinterprets the
//! generic header fields for EDNS(0).

/// Provides the EDNS(0) option codec.
pub mod edns;

use vstd::prelude::*;

use crate::buffer::{be_bytes_of, be_val, splice_at, Buffer, BufferModel};
use crate::error::DrasilDNSError;
use crate::labels::{encode_labels, labels_valid, labels_walk, label_size_error, first_oversize, LabelsWalk};
use crate::record::edns::{encode_option, parse_option_at, EDNSOption, EDNSOptionModel};
use crate::types::dnssec::{dnssec_algorithm_code, dnssec_algorithm_of, dnssec_digest_type_code, dnssec_digest_type_of, DNSSECAlgorithm, DNSSECDigestType};
use crate::types::{code_set, known_codes, record_class_code, record_class_of, record_type_code, record_type_of, tb_decode, tb_encode, RecordClass, RecordType};

verus! {

/// # Record
/// Enum for representing the various kinds of DNS records. Every variant
/// shares the owner domain, class and time-to-live, except the OPT
/// pseudo-record, which reinterprets those fields for EDNS(0) state.
#[derive(Debug, Clone, PartialEq, Eq)]
pub enum Record {
    Unknown {
        domain: Vec<Vec<u8>>,
        ttl: u32,
        len: u32,
        record_type: u16,
        class: RecordClass,
        data: Vec<u8>,
    },
    /// `A` record: maps a domain name to an IPv4 address, big-endian.
    A { domain: Vec<Vec<u8>>, addr: u32, ttl: u32, class: RecordClass },
    /// `NS` record: names the nameserver responsible for the domain.
    NS { domain: Vec<Vec<u8>>, host: Vec<Vec<u8>>, ttl: u32, class: RecordClass },
    /// `CNAME` record: maps one domain name to another.
    CNAME { domain: Vec<Vec<u8>>, host: Vec<Vec<u8>>, ttl: u32, class: RecordClass },
    /// `MX` record: names the mail exchange for the domain, with a priority.
    MX { domain: Vec<Vec<u8>>, priority: u16, host: Vec<Vec<u8>>, ttl: u32, class: RecordClass },
    /// `AAAA` record: maps a domain name to an IPv6 address, big-endian.
    AAAA { domain: Vec<Vec<u8>>, addr: u128, ttl: u32, class: RecordClass },
    /// `OPT` pseudo-record: EDNS(0) capability metadata and options.
    OPT {
        udp_payload_size: u16,
        extended_rcode: u8,
        version: u8,
        dnssec_ok: bool,
        options: Vec<EDNSOption>,
    },
    DS {
        domain: Vec<Vec<u8>>,
        class: RecordClass,
        ttl: u32,
        key_tag: u16,
        algorithm: DNSSECAlgorithm,
        digest_type: DNSSECDigestType,
        digest: Vec<u8>,
    },
    RRSIG {
        domain: Vec<Vec<u8>>,
        class: RecordClass,
        ttl: u32,
        type_covered: u16,
        algorithm: DNSSECAlgorithm,
        labels: u8,
        original_ttl: u32,
        signature_expiration: u32,
        signature_inception: u32,
        key_tag: u16,
        signer_name: Vec<Vec<u8>>,
        signature: Vec<u8>,
    },
    NSEC {
        domain: Vec<Vec<u8>>,
        class: RecordClass,
        ttl: u32,
        next_domain_name: Vec<Vec<u8>>,
        record_types: Vec<RecordType>,
    },
    DNSKEY {
        domain: Vec<Vec<u8>>,
        class: RecordClass,
        ttl: u32,
        is_secure_entry_point: bool,
        is_zone_key: bool,
        protocol: u8,
        algorithm: DNSSECAlgorithm,
        public_key: Vec<u8>,
    },
    NSEC3 {
        domain: Vec<Vec<u8>>,
        class: RecordClass,
        ttl: u32,
        hash_algorithm: u8,
        opt_out: bool,
        iterations: u16,
        salt_length: u8,
        salt: Vec<u8>,
        hash_length: u8,
        next_hashed_owner_name: Vec<u8>,
        record_types: Vec<RecordType>,
    },
    NSEC3PARAM {
        domain: Vec<Vec<u8>>,
        class: RecordClass,
        ttl: u32,
        hash_algorithm: u8,
        flags: u8,
        iterations: u16,
        salt_length: u8,
        salt: Vec<u8>,
    },
}

/// Ghost description of a record. A type set is described by the set of
/// codes it covers, since the bitmap wire format keeps no order.
pub ghost enum RecordModel {
    Unknown { domain: Seq<Seq<u8>>, ttl: u32, len: u32, record_type: u16, class: RecordClass, data: Seq<u8> },
    A { domain: Seq<Seq<u8>>, addr: u32, ttl: u32, class: RecordClass },
    NS { domain: Seq<Seq<u8>>, host: Seq<Seq<u8>>, ttl: u32, class: RecordClass },
    CNAME { domain: Seq<Seq<u8>>, host: Seq<Seq<u8>>, ttl: u32, class: RecordClass },
    MX { domain: Seq<Seq<u8>>, priority: u16, host: Seq<Seq<u8>>, ttl: u32, class: RecordClass },
    AAAA { domain: Seq<Seq<u8>>, addr: u128, ttl: u32, class: RecordClass },
    OPT {
        udp_payload_size: u16,
        extended_rcode: u8,
        version: u8,
        dnssec_ok: bool,
        options: Seq<EDNSOptionModel>,
    },
    DS {
        domain: Seq<Seq<u8>>,
        class: RecordClass,
        ttl: u32,
        key_tag: u16,
        algorithm: DNSSECAlgorithm,
        digest_type: DNSSECDigestType,
        digest: Seq<u8>,
    },
    RRSIG {
        domain: Seq<Seq<u8>>,
        class: RecordClass,
        ttl: u32,
        type_covered: u16,
        algorithm: DNSSECAlgorithm,
        labels: u8,
        original_ttl: u32,
        signature_expiration: u32,
        signature_inception: u32,
        key_tag: u16,
        signer_name: Seq<Seq<u8>>,
        signature: Seq<u8>,
    },
    NSEC {
        domain: Seq<Seq<u8>>,
        class: RecordClass,
        ttl: u32,
        next_domain_name: Seq<Seq<u8>>,
        record_types: Set<u16>,
    },
    DNSKEY {
        domain: Seq<Seq<u8>>,
        class: RecordClass,
        ttl: u32,
        is_secure_entry_point: bool,
        is_zone_key: bool,
        protocol: u8,
        algorithm: DNSSECAlgorithm,
        public_key: Seq<u8>,
    },
    NSEC3 {
        domain: Seq<Seq<u8>>,
        class: RecordClass,
        ttl: u32,
        hash_algorithm: u8,
        opt_out: bool,
        iterations: u16,
        salt_length: u8,
        salt: Seq<u8>,
        hash_length: u8,
        next_hashed_owner_name: Seq<u8>,
        record_types: Set<u16>,
    },
    NSEC3PARAM {
        domain: Seq<Seq<u8>>,
        class: RecordClass,
        ttl: u32,
        hash_algorithm: u8,
        flags: u8,
        iterations: u16,
        salt_length: u8,
        salt: Seq<u8>,
    },
}

impl View for Record {
    type V = RecordModel;

    open spec fn view(&self) -> RecordModel {
        match self {
            Record::Unknown { domain, ttl, len, record_type, class, data } => RecordModel::Unknown {
                domain: domain.deep_view(),
                ttl: *ttl,
                len: *len,
                record_type: *record_type,
                class: *class,
                data: data@,
            },
            Record::A { domain, addr, ttl, class } => RecordModel::A {
                domain: domain.deep_view(),
                addr: *addr,
                ttl: *ttl,
                class: *class,
            },
            Record::NS { domain, host, ttl, class } => RecordModel::NS {
                domain: domain.deep_view(),
                host: host.deep_view(),
                ttl: *ttl,
                class: *class,
            },
            Record::CNAME { domain, host, ttl, class } => RecordModel::CNAME {
                domain: domain.deep_view(),
                host: host.deep_view(),
                ttl: *ttl,
                class: *class,
            },
            Record::MX { domain, priority, host, ttl, class } => RecordModel::MX {
                domain: domain.deep_view(),
                priority: *priority,
                host: host.deep_view(),
                ttl: *ttl,
                class: *class,
            },
            Record::AAAA { domain, addr, ttl, class } => RecordModel::AAAA {
                domain: domain.deep_view(),
                addr: *addr,
                ttl: *ttl,
                class: *class,
            },
            Record::OPT { udp_payload_size, extended_rcode, version, dnssec_ok, options } => RecordModel::OPT {
                udp_payload_size: *udp_payload_size,
                extended_rcode: *extended_rcode,
                version: *version,
                dnssec_ok: *dnssec_ok,
                options: options.deep_view(),
            },
            Record::DS { domain, class, ttl, key_tag, algorithm, digest_type, digest } => RecordModel::DS {
                domain: domain.deep_view(),
                class: *class,
                ttl: *ttl,
                key_tag: *key_tag,
                algorithm: *algorithm,
                digest_type: *digest_type,
                digest: digest@,
            },
            Record::RRSIG {
                domain,
                class,
                ttl,
                type_covered,
                algorithm,
                labels,
                original_ttl,
                signature_expiration,
                signature_inception,
                key_tag,
                signer_name,
                signature,
            } => RecordModel::RRSIG {
                domain: domain.deep_view(),
                class: *class,
                ttl: *ttl,
                type_covered: *type_covered,
                algorithm: *algorithm,
                labels: *labels,
                original_ttl: *original_ttl,
                signature_expiration: *signature_expiration,
                signature_inception: *signature_inception,
                key_tag: *key_tag,
                signer_name: signer_name.deep_view(),
                signature: signature@,
            },
            Record::NSEC { domain, class, ttl, next_domain_name, record_types } => RecordModel::NSEC {
                domain: domain.deep_view(),
                class: *class,
                ttl: *ttl,
                next_domain_name: next_domain_name.deep_view(),
                record_types: code_set(record_types@),
            },
            Record::DNSKEY {
                domain,
                class,
                ttl,
                is_secure_entry_point,
                is_zone_key,
                protocol,
                algorithm,
                public_key,
            } => RecordModel::DNSKEY {
                domain: domain.deep_view(),
                class: *class,
                ttl: *ttl,
                is_secure_entry_point: *is_secure_entry_point,
                is_zone_key: *is_zone_key,
                protocol: *protocol,
                algorithm: *algorithm,
                public_key: public_key@,
            },
            Record::NSEC3 {
                domain,
                class,
                ttl,
                hash_algorithm,
                opt_out,
                iterations,
                salt_length,
                salt,
                hash_length,
                next_hashed_owner_name,
                record_types,
            } => RecordModel::NSEC3 {
                domain: domain.deep_view(),
                class: *class,
                ttl: *ttl,
                hash_algorithm: *hash_algorithm,
                opt_out: *opt_out,
                iterations: *iterations,
                salt_length: *salt_length,
                salt: salt@,
                hash_length: *hash_length,
                next_hashed_owner_name: next_hashed_owner_name@,
                record_types: code_set(record_types@),
            },
            Record::NSEC3PARAM {
                domain,
                class,
                ttl,
                hash_algorithm,
                flags,
                iterations,
                salt_length,
                salt,
            } => RecordModel::NSEC3PARAM {
                domain: domain.deep_view(),
                class: *class,
                ttl: *ttl,
                hash_algorithm: *hash_algorithm,
                flags: *flags,
                iterations: *iterations,
                salt_length: *salt_length,
                salt: salt@,
            },
        }
    }
}

/// What parsing a run of EDNS(0) options yields: the options between `pos`
/// and `end_target`, read one after the other until the target is reached
/// or passed, and the offset just past the last one. Each option occupies
/// at least four bytes, so `fuel` bounds the recursion.
pub open spec fn parse_options_at(data: Seq<u8>, pos: int, end_target: int, fuel: nat) -> Result<
    (Seq<EDNSOptionModel>, int),
    DrasilDNSError,
>
    decreases fuel,
{
    if pos >= end_target {
        Ok((Seq::empty(), pos))
    } else if fuel == 0 {
        Err(DrasilDNSError::Unknown)
    } else {
        match parse_option_at(data, pos) {
            Err(e) => Err(e),
            Ok((o, np)) => match parse_options_at(data, np, end_target, (fuel - 1) as nat) {
                Err(e) => Err(e),
                Ok((rest, e2)) => Ok((seq![o] + rest, e2)),
            },
        }
    }
}

/// What parsing an `Unknown`-type RDATA at `q` yields: an opaque blob of
/// exactly the declared length.
pub open spec fn parse_unknown_rdata(data: Seq<u8>, dom: Seq<Seq<u8>>, rtype: u16, class: RecordClass, ttl: u32, rdlen: u32, q: int) -> Result<(RecordModel, int), DrasilDNSError> {
    if q + rdlen > data.len() {
        Err(DrasilDNSError::EOF)
    } else {
        Ok(
            (
                RecordModel::Unknown {
                    domain: dom,
                    ttl,
                    len: rdlen,
                    record_type: rtype,
                    class,
                    data: data.subrange(q, q + rdlen),
                },
                q + rdlen,
            ),
        )
    }
}

/// What parsing an A RDATA at `q` yields: a four-byte IPv4 address.
pub open spec fn parse_a_rdata(data: Seq<u8>, dom: Seq<Seq<u8>>, class: RecordClass, ttl: u32, q: int) -> Result<(RecordModel, int), DrasilDNSError> {
    if q + 4 > data.len() {
        Err(DrasilDNSError::EOF)
    } else {
        Ok(
            (
                RecordModel::A { domain: dom, class, ttl, addr: be_val(data.subrange(q, q + 4)) as u32 },
                q + 4,
            ),
        )
    }
}

/// What parsing an AAAA RDATA at `q` yields: a sixteen-byte IPv6 address.
pub open spec fn parse_aaaa_rdata(data: Seq<u8>, dom: Seq<Seq<u8>>, class: RecordClass, ttl: u32, q: int) -> Result<(RecordModel, int), DrasilDNSError> {
    if q + 16 > data.len() {
        Err(DrasilDNSError::EOF)
    } else {
        Ok(
            (
                RecordModel::AAAA { domain: dom, class, ttl, addr: be_val(data.subrange(q, q + 16)) as u128 },
                q + 16,
            ),
        )
    }
}

/// What parsing an NS or CNAME RDATA at `q` yields: a host name, possibly
/// compressed.
pub open spec fn parse_host_rdata(data: Seq<u8>, dom: Seq<Seq<u8>>, is_ns: bool, class: RecordClass, ttl: u32, q: int) -> Result<(RecordModel, int), DrasilDNSError> {
    match labels_walk(data, q, 0, true) {
        Err(e) => Err(e),
        Ok(hw) => if is_ns {
            Ok((RecordModel::NS { domain: dom, host: hw.labels, ttl, class }, hw.end))
        } else {
            Ok((RecordModel::CNAME { domain: dom, host: hw.labels, ttl, class }, hw.end))
        },
    }
}

/// What parsing an MX RDATA at `q` yields: a priority and a host name.
pub open spec fn parse_mx_rdata(data: Seq<u8>, dom: Seq<Seq<u8>>, class: RecordClass, ttl: u32, q: int) -> Result<(RecordModel, int), DrasilDNSError> {
    if q + 2 > data.len() {
        Err(DrasilDNSError::EOF)
    } else {
        match labels_walk(data, q + 2, 0, true) {
            Err(e) => Err(e),
            Ok(hw) => Ok(
                (
                    RecordModel::MX {
                        domain: dom,
                        priority: be_val(data.subrange(q, q + 2)) as u16,
                        host: hw.labels,
                        ttl,
                        class,
                    },
                    hw.end,
                ),
            ),
        }
    }
}

/// What parsing a DS RDATA at `q` yields: key tag, algorithm, digest type
/// and the digest filling the rest of the declared length.
pub open spec fn parse_ds_rdata(data: Seq<u8>, dom: Seq<Seq<u8>>, class: RecordClass, ttl: u32, rdlen: u32, q: int) -> Result<(RecordModel, int), DrasilDNSError> {
    if rdlen < 4 || q + rdlen > data.len() {
        Err(DrasilDNSError::EOF)
    } else {
        Ok(
            (
                RecordModel::DS {
                    domain: dom,
                    class,
                    ttl,
                    key_tag: be_val(data.subrange(q, q + 2)) as u16,
                    algorithm: dnssec_algorithm_of(data[q + 2]),
                    digest_type: dnssec_digest_type_of(data[q + 3]),
                    digest: data.subrange(q + 4, q + rdlen),
                },
                q + rdlen,
            ),
        )
    }
}

/// What parsing an RRSIG RDATA at `q` yields: the fixed fields, the
/// uncompressed signer name, and the signature filling what the declared
/// length leaves.
pub open spec fn parse_rrsig_rdata(data: Seq<u8>, dom: Seq<Seq<u8>>, class: RecordClass, ttl: u32, rdlen: u32, q: int) -> Result<(RecordModel, int), DrasilDNSError> {
    if q + 18 > data.len() {
        Err(DrasilDNSError::EOF)
    } else {
        match labels_walk(data, q + 18, 0, false) {
            Err(e) => Err(e),
            Ok(sw) => {
                let signer_len = sw.end - (q + 18);
                if rdlen < 18 + signer_len || sw.end + (rdlen - 18 - signer_len) > data.len() {
                    Err(DrasilDNSError::EOF)
                } else {
                    Ok(
                        (
                            RecordModel::RRSIG {
                                domain: dom,
                                class,
                                ttl,
                                type_covered: be_val(data.subrange(q, q + 2)) as u16,
                                algorithm: dnssec_algorithm_of(data[q + 2]),
                                labels: data[q + 3],
                                original_ttl: be_val(data.subrange(q + 4, q + 8)) as u32,
                                signature_expiration: be_val(data.subrange(q + 8, q + 12)) as u32,
                                signature_inception: be_val(data.subrange(q + 12, q + 16)) as u32,
                                key_tag: be_val(data.subrange(q + 16, q + 18)) as u16,
                                signer_name: sw.labels,
                                signature: data.subrange(sw.end, sw.end + (rdlen - 18 - signer_len)),
                            },
                            sw.end + (rdlen - 18 - signer_len),
                        ),
                    )
                }
            },
        }
    }
}

/// What parsing an NSEC RDATA at `q` yields: the uncompressed next domain
/// name and the type bitmap filling what the declared length leaves.
pub open spec fn parse_nsec_rdata(data: Seq<u8>, dom: Seq<Seq<u8>>, class: RecordClass, ttl: u32, rdlen: u32, q: int) -> Result<(RecordModel, int), DrasilDNSError> {
    match labels_walk(data, q, 0, false) {
        Err(e) => Err(e),
        Ok(nw) => {
            let ndn_len = nw.end - q;
            if rdlen < ndn_len || nw.end + (rdlen - ndn_len) > data.len() {
                Err(DrasilDNSError::EOF)
            } else {
                match tb_decode(data.subrange(nw.end, nw.end + (rdlen - ndn_len)), 0, false) {
                    Err(e) => Err(e),
                    Ok(s) => Ok(
                        (
                            RecordModel::NSEC {
                                domain: dom,
                                class,
                                ttl,
                                next_domain_name: nw.labels,
                                record_types: known_codes(s),
                            },
                            nw.end + (rdlen - ndn_len),
                        ),
                    ),
                }
            }
        },
    }
}

/// What parsing a DNSKEY RDATA at `q` yields: the flag bits, protocol,
/// algorithm, and the key filling the rest of the declared length.
pub open spec fn parse_dnskey_rdata(data: Seq<u8>, dom: Seq<Seq<u8>>, class: RecordClass, ttl: u32, rdlen: u32, q: int) -> Result<(RecordModel, int), DrasilDNSError> {
    if rdlen < 4 || q + rdlen > data.len() {
        Err(DrasilDNSError::EOF)
    } else {
        let flags = be_val(data.subrange(q, q + 2)) as u16;
        Ok(
            (
                RecordModel::DNSKEY {
                    domain: dom,
                    class,
                    ttl,
                    is_secure_entry_point: flags / 32768 % 2 == 1,
                    is_zone_key: flags / 128 % 2 == 1,
                    protocol: data[q + 2],
                    algorithm: dnssec_algorithm_of(data[q + 3]),
                    public_key: data.subrange(q + 4, q + rdlen),
                },
                q + rdlen,
            ),
        )
    }
}

/// What parsing an NSEC3 RDATA at `q` yields: the hash parameters, salt,
/// hashed owner name and the type bitmap filling what the declared length
/// leaves.
pub open spec fn parse_nsec3_rdata(data: Seq<u8>, dom: Seq<Seq<u8>>, class: RecordClass, ttl: u32, rdlen: u32, q: int) -> Result<(RecordModel, int), DrasilDNSError> {
    if q + 5 > data.len() {
        Err(DrasilDNSError::EOF)
    } else {
        let salt_length = data[q + 4];
        if q + 5 + salt_length + 1 > data.len() {
            Err(DrasilDNSError::EOF)
        } else {
            let hash_length = data[q + 5 + salt_length];
            let hend = q + 6 + salt_length + hash_length;
            if hend > data.len() {
                Err(DrasilDNSError::EOF)
            } else if rdlen < 6 + salt_length + hash_length || hend + (rdlen - 6 - salt_length
                - hash_length) > data.len() {
                Err(DrasilDNSError::EOF)
            } else {
                let bm_len = rdlen - 6 - salt_length - hash_length;
                match tb_decode(data.subrange(hend, hend + bm_len), 0, false) {
                    Err(e) => Err(e),
                    Ok(s) => Ok(
                        (
                            RecordModel::NSEC3 {
                                domain: dom,
                                class,
                                ttl,
                                hash_algorithm: data[q],
                                opt_out: data[q + 1] >= 128,
                                iterations: be_val(data.subrange(q + 2, q + 4)) as u16,
                                salt_length,
                                salt: data.subrange(q + 5, q + 5 + salt_length),
                                hash_length,
                                next_hashed_owner_name: data.subrange(q + 6 + salt_length, hend),
                                record_types: known_codes(s),
                            },
                            hend + bm_len,
                        ),
                    ),
                }
            }
        }
    }
}

/// What parsing an NSEC3PARAM RDATA at `q` yields: the hash parameters and
/// salt, or `None` when the reserved flags are set.
pub open spec fn parse_nsec3param_rdata(data: Seq<u8>, dom: Seq<Seq<u8>>, class: RecordClass, ttl: u32, q: int) -> Result<(Option<RecordModel>, int), DrasilDNSError> {
    if q + 5 > data.len() {
        Err(DrasilDNSError::EOF)
    } else {
        let salt_length = data[q + 4];
        if q + 5 + salt_length > data.len() {
            Err(DrasilDNSError::EOF)
        } else if data[q + 1] != 0 {
            Ok((None, q + 5 + salt_length))
        } else {
            Ok(
                (
                    Some(
                        RecordModel::NSEC3PARAM {
                            domain: dom,
                            class,
                            ttl,
                            hash_algorithm: data[q],
                            flags: data[q + 1],
                            iterations: be_val(data.subrange(q + 2, q + 4)) as u16,
                            salt_length,
                            salt: data.subrange(q + 5, q + 5 + salt_length),
                        },
                    ),
                    q + 5 + salt_length,
                ),
            )
        }
    }
}

/// What parsing an OPT record yields once its owner name and type are past
/// `o`: the reinterpreted EDNS(0) fields and the options that follow.
pub open spec fn parse_opt_tail(data: Seq<u8>, o: int) -> Result<(RecordModel, int), DrasilDNSError> {
    let udp_payload_size = be_val(data.subrange(o, o + 2)) as u16;
    let extended_rcode = data[o + 2];
    let version = data[o + 3];
    let flags16 = be_val(data.subrange(o + 4, o + 6)) as u16;
    let data_length = be_val(data.subrange(o + 6, o + 8)) as u16;
    match parse_options_at(data, o + 8, o + 8 + data_length, (data_length + 1) as nat) {
        Err(e) => Err(e),
        Ok((options, end)) => Ok(
            (
                RecordModel::OPT {
                    udp_payload_size,
                    extended_rcode,
                    version,
                    dnssec_ok: flags16 >= 0x8000,
                    options,
                },
                end,
            ),
        ),
    }
}

/// Wraps a mandatory parse result as an optional one.
pub open spec fn record_some_of(r: Result<(RecordModel, int), DrasilDNSError>) -> Result<
    (Option<RecordModel>, int),
    DrasilDNSError,
> {
    match r {
        Err(e) => Err(e),
        Ok((m, end)) => Ok((Some(m), end)),
    }
}

/// What parsing a record at offset `p` of a message yields: the record and
/// the offset just past it; `None` for a record the decoder drops (an
/// NSEC3PARAM with reserved flags set); or the error its name, its type
/// bitmap or a truncation gives. An OPT record re-reads the generic class
/// and time-to-live bytes as EDNS(0) fields, then its options.
pub open spec fn parse_record_at(data: Seq<u8>, p: int) -> Result<
    (Option<RecordModel>, int),
    DrasilDNSError,
> {
    match labels_walk(data, p, 0, true) {
        Err(e) => Err(e),
        Ok(w) => if w.end + 12 > data.len() {
            Err(DrasilDNSError::EOF)
        } else {
            let rtype = be_val(data.subrange(w.end, w.end + 2)) as u16;
            let class = record_class_of(be_val(data.subrange(w.end + 2, w.end + 4)) as u16);
            let ttl = be_val(data.subrange(w.end + 4, w.end + 8)) as u32;
            let rdlen = be_val(data.subrange(w.end + 8, w.end + 12)) as u32;
            let q = w.end + 12;
            let t = record_type_of(rtype);
            if t is Unknown {
                record_some_of(parse_unknown_rdata(data, w.labels, rtype, class, ttl, rdlen, q))
            } else if t is OPT {
                record_some_of(parse_opt_tail(data, w.end + 2))
            } else if t is A {
                record_some_of(parse_a_rdata(data, w.labels, class, ttl, q))
            } else if t is NS {
                record_some_of(parse_host_rdata(data, w.labels, true, class, ttl, q))
            } else if t is CNAME {
                record_some_of(parse_host_rdata(data, w.labels, false, class, ttl, q))
            } else if t is MX {
                record_some_of(parse_mx_rdata(data, w.labels, class, ttl, q))
            } else if t is AAAA {
                record_some_of(parse_aaaa_rdata(data, w.labels, class, ttl, q))
            } else if t is DS {
                record_some_of(parse_ds_rdata(data, w.labels, class, ttl, rdlen, q))
            } else if t is RRSIG {
                record_some_of(parse_rrsig_rdata(data, w.labels, class, ttl, rdlen, q))
            } else if t is NSEC {
                record_some_of(parse_nsec_rdata(data, w.labels, class, ttl, rdlen, q))
            } else if t is DNSKEY {
                record_some_of(parse_dnskey_rdata(data, w.labels, class, ttl, rdlen, q))
            } else if t is NSEC3 {
                record_some_of(parse_nsec3_rdata(data, w.labels, class, ttl, rdlen, q))
            } else {
                parse_nsec3param_rdata(data, w.labels, class, ttl, q)
            }
        },
    }
}

/// The generic record prefix: owner name, type code, class code and
/// time-to-live.
pub open spec fn record_prefix(dom: Seq<Seq<u8>>, tcode: u16, class: RecordClass, ttl: u32) -> Seq<u8> {
    encode_labels(dom) + be_bytes_of(tcode as int, 2) + be_bytes_of(
        record_class_code(class) as int,
        2,
    ) + be_bytes_of(ttl as int, 4)
}

/// The error an invalid name gives: the size of its first oversize label.
pub open spec fn labels_error(ls: Seq<Seq<u8>>) -> DrasilDNSError {
    DrasilDNSError::LabelTooLarge { size: label_size_error(ls[first_oversize(ls)]) }
}

/// The wire bytes of the first `i` options of a run, or the first error
/// among them.
pub open spec fn encode_options_seq(os: Seq<EDNSOptionModel>, i: int) -> Result<Seq<u8>, DrasilDNSError>
    decreases i,
{
    if i <= 0 {
        Ok(Seq::empty())
    } else {
        match encode_options_seq(os, i - 1) {
            Err(e) => Err(e),
            Ok(prefix) => match encode_option(os[i - 1]) {
                Err(e) => Err(e),
                Ok(ob) => Ok(prefix + ob),
            },
        }
    }
}

/// The wire encoding of a record, or the error its names or options give.
/// Every variant writes the generic prefix, then an RDATA length that
/// counts exactly the payload bytes after it, then the payload; the OPT
/// pseudo-record writes the EDNS(0) layout instead.
pub open spec fn encode_record(m: RecordModel) -> Result<Seq<u8>, DrasilDNSError> {
    match m {
        RecordModel::Unknown { domain, ttl, len, record_type, class, data } => if !labels_valid(
            domain,
        ) {
            Err(labels_error(domain))
        } else {
            Ok(record_prefix(domain, record_type, class, ttl) + be_bytes_of(len as int, 4) + data)
        },
        RecordModel::A { domain, addr, ttl, class } => if !labels_valid(domain) {
            Err(labels_error(domain))
        } else {
            Ok(
                record_prefix(domain, 1, class, ttl) + be_bytes_of(4, 4) + be_bytes_of(
                    addr as int,
                    4,
                ),
            )
        },
        RecordModel::NS { domain, host, ttl, class } => if !labels_valid(domain) {
            Err(labels_error(domain))
        } else if !labels_valid(host) {
            Err(labels_error(host))
        } else {
            Ok(
                record_prefix(domain, 2, class, ttl) + be_bytes_of(
                    encode_labels(host).len() as int,
                    4,
                ) + encode_labels(host),
            )
        },
        RecordModel::CNAME { domain, host, ttl, class } => if !labels_valid(domain) {
            Err(labels_error(domain))
        } else if !labels_valid(host) {
            Err(labels_error(host))
        } else {
            Ok(
                record_prefix(domain, 5, class, ttl) + be_bytes_of(
                    encode_labels(host).len() as int,
                    4,
                ) + encode_labels(host),
            )
        },
        RecordModel::MX { domain, priority, host, ttl, class } => if !labels_valid(domain) {
            Err(labels_error(domain))
        } else if !labels_valid(host) {
            Err(labels_error(host))
        } else {
            Ok(
                record_prefix(domain, 15, class, ttl) + be_bytes_of(
                    2 + encode_labels(host).len() as int,
                    4,
                ) + be_bytes_of(priority as int, 2) + encode_labels(host),
            )
        },
        RecordModel::AAAA { domain, addr, ttl, class } => if !labels_valid(domain) {
            Err(labels_error(domain))
        } else {
            Ok(
                record_prefix(domain, 28, class, ttl) + be_bytes_of(16, 4) + be_bytes_of(
                    addr as int,
                    16,
                ),
            )
        },
        RecordModel::OPT { udp_payload_size, extended_rcode, version, dnssec_ok, options } => match encode_options_seq(
            options,
            options.len() as int,
        ) {
            Err(e) => Err(e),
            Ok(ob) => Ok(
                seq![0u8] + be_bytes_of(41, 2) + be_bytes_of(udp_payload_size as int, 2)
                    + be_bytes_of(extended_rcode as int, 1) + be_bytes_of(version as int, 1)
                    + be_bytes_of(if dnssec_ok { 0x8000 } else { 0 }, 2) + be_bytes_of(
                    ob.len() as int,
                    2,
                ) + ob,
            ),
        },
        RecordModel::DS { domain, class, ttl, key_tag, algorithm, digest_type, digest } => if !labels_valid(
            domain,
        ) {
            Err(labels_error(domain))
        } else {
            Ok(
                record_prefix(domain, 43, class, ttl) + be_bytes_of(4 + digest.len() as int, 4)
                    + be_bytes_of(key_tag as int, 2) + be_bytes_of(
                    dnssec_algorithm_code(algorithm) as int,
                    1,
                ) + be_bytes_of(dnssec_digest_type_code(digest_type) as int, 1) + digest,
            )
        },
        RecordModel::RRSIG {
            domain,
            class,
            ttl,
            type_covered,
            algorithm,
            labels,
            original_ttl,
            signature_expiration,
            signature_inception,
            key_tag,
            signer_name,
            signature,
        } => if !labels_valid(domain) {
            Err(labels_error(domain))
        } else if !labels_valid(signer_name) {
            Err(labels_error(signer_name))
        } else {
            Ok(
                record_prefix(domain, 46, class, ttl) + be_bytes_of(
                    18 + encode_labels(signer_name).len() + signature.len() as int,
                    4,
                ) + be_bytes_of(type_covered as int, 2) + be_bytes_of(
                    dnssec_algorithm_code(algorithm) as int,
                    1,
                ) + be_bytes_of(labels as int, 1) + be_bytes_of(original_ttl as int, 4)
                    + be_bytes_of(signature_expiration as int, 4) + be_bytes_of(
                    signature_inception as int,
                    4,
                ) + be_bytes_of(key_tag as int, 2) + encode_labels(signer_name) + signature,
            )
        },
        RecordModel::NSEC { domain, class, ttl, next_domain_name, record_types } => if !labels_valid(
            domain,
        ) {
            Err(labels_error(domain))
        } else if !labels_valid(next_domain_name) {
            Err(labels_error(next_domain_name))
        } else {
            Ok(
                record_prefix(domain, 47, class, ttl) + be_bytes_of(
                    encode_labels(next_domain_name).len() + tb_encode(record_types).len() as int,
                    4,
                ) + encode_labels(next_domain_name) + tb_encode(record_types),
            )
        },
        RecordModel::DNSKEY {
            domain,
            class,
            ttl,
            is_secure_entry_point,
            is_zone_key,
            protocol,
            algorithm,
            public_key,
        } => if !labels_valid(domain) {
            Err(labels_error(domain))
        } else {
            Ok(
                record_prefix(domain, 48, class, ttl) + be_bytes_of(4 + public_key.len() as int, 4)
                    + be_bytes_of(
                    (if is_secure_entry_point { 32768int } else { 0int }) + (if is_zone_key {
                        128int
                    } else {
                        0int
                    }),
                    2,
                ) + be_bytes_of(protocol as int, 1) + be_bytes_of(
                    dnssec_algorithm_code(algorithm) as int,
                    1,
                ) + public_key,
            )
        },
        RecordModel::NSEC3 {
            domain,
            class,
            ttl,
            hash_algorithm,
            opt_out,
            iterations,
            salt_length,
            salt,
            hash_length,
            next_hashed_owner_name,
            record_types,
        } => if !labels_valid(domain) {
            Err(labels_error(domain))
        } else {
            Ok(
                record_prefix(domain, 50, class, ttl) + be_bytes_of(
                    6 + salt.len() + next_hashed_owner_name.len() + tb_encode(
                        record_types,
                    ).len() as int,
                    4,
                ) + be_bytes_of(hash_algorithm as int, 1) + be_bytes_of(
                    if opt_out { 128int } else { 0int },
                    1,
                ) + be_bytes_of(iterations as int, 2) + be_bytes_of(salt_length as int, 1) + salt
                    + be_bytes_of(hash_length as int, 1) + next_hashed_owner_name + tb_encode(
                    record_types,
                ),
            )
        },
        RecordModel::NSEC3PARAM {
            domain,
            class,
            ttl,
            hash_algorithm,
            flags,
            iterations,
            salt_length,
            salt,
        } => if !labels_valid(domain) {
            Err(labels_error(domain))
        } else {
            Ok(
                record_prefix(domain, 51, class, ttl) + be_bytes_of(5 + salt.len() as int, 4)
                    + be_bytes_of(hash_algorithm as int, 1) + be_bytes_of(flags as int, 1)
                    + be_bytes_of(iterations as int, 2) + be_bytes_of(salt_length as int, 1)
                    + salt,
            )
        },
    }
}

/// Whether a record's type sets hold only codes the bitmap wire format can
/// carry; writing a set with code zero is not meaningful.
pub open spec fn record_types_writable(r: Record) -> bool {
    match r {
        Record::NSEC { record_types, .. } => forall|k: int|
            0 <= k < record_types@.len() ==> record_type_code(#[trigger] record_types@[k]) >= 1,
        Record::NSEC3 { record_types, .. } => forall|k: int|
            0 <= k < record_types@.len() ==> record_type_code(#[trigger] record_types@[k]) >= 1,
        _ => true,
    }
}

/// A run of options that encodes whole also encodes to every prefix, and
/// the whole is at least as long as any prefix.
proof fn lemma_eos_prefix_ok(os: Seq<EDNSOptionModel>, k: int, l: int)
    requires
        0 <= k <= l,
        encode_options_seq(os, l) is Ok,
    ensures
        encode_options_seq(os, k) is Ok,
        encode_options_seq(os, l)->Ok_0.len() >= encode_options_seq(os, k)->Ok_0.len(),
    decreases l - k,
{
    if k < l {
        assert(encode_options_seq(os, l - 1) is Ok) by {
            assert(encode_options_seq(os, l) is Ok);
        }
        lemma_eos_prefix_ok(os, k, l - 1);
        match encode_option(os[l - 1]) {
            Ok(ob) => {},
            Err(_) => {
                assert(false);
            },
        }
    }
}

/// The size of the first oversize label of a name, if any.
fn check_labels(ls: &Vec<Vec<u8>>) -> (r: Option<u8>)
    ensures
        match r {
            None => labels_valid(ls.deep_view()),
            Some(sz) => {
                &&& !labels_valid(ls.deep_view())
                &&& DrasilDNSError::LabelTooLarge { size: sz } == labels_error(ls.deep_view())
            },
        },
{
    let ghost dv = ls.deep_view();
    let mut idx: usize = 0;
    while idx < ls.len()
        invariant
            ls.deep_view() == dv,
            idx <= dv.len(),
            forall|k: int| 0 <= k < idx ==> #[trigger] dv[k].len() <= 63,
        decreases dv.len() - idx,
    {
        let llen: usize = ls[idx].len();
        proof {
            assert(dv[idx as int] == ls@[idx as int].deep_view());
            assert(ls@[idx as int].deep_view() =~= ls@[idx as int]@);
        }
        if llen > 63 {
            let sz: u8 = if llen > 255 {
                255
            } else {
                llen as u8
            };
            proof {
                crate::labels::lemma_first_oversize_public(dv, idx as int);
            }
            return Some(sz);
        }
        idx = idx + 1;
    }
    None
}

/// The error an option's fields would give on encode, if any.
fn check_option(o: &EDNSOption) -> (r: Option<DrasilDNSError>)
    ensures
        match encode_option(o@) {
            Err(e) => r == Some(e),
            Ok(_) => r is None,
        },
{
    match o {
        EDNSOption::Unknown { code, len, data } => {
            if data.len() > *len as usize {
                Some(DrasilDNSError::EOF)
            } else {
                None
            }
        },
        EDNSOption::NSID { data } => {
            if data.len() > 65535 {
                Some(DrasilDNSError::EOF)
            } else {
                None
            }
        },
        EDNSOption::ClientSubnet { family, source_netmask, scope_netmask, addr } => {
            if *family != 1 && *family != 2 {
                Some(DrasilDNSError::InvalidNetworkFamily { family: *family })
            } else {
                let max: u8 = if *family == 1 {
                    32
                } else {
                    128
                };
                if *source_netmask > max {
                    Some(
                        DrasilDNSError::InvalidSourceNetmask {
                            family: *family,
                            max,
                            provided: *source_netmask,
                        },
                    )
                } else if *scope_netmask > max {
                    Some(
                        DrasilDNSError::InvalidScopeNetmask {
                            family: *family,
                            max,
                            provided: *scope_netmask,
                        },
                    )
                } else {
                    None
                }
            }
        },
        EDNSOption::KeyTag { tags } => {
            if tags.len() > 32767 {
                Some(DrasilDNSError::EOF)
            } else {
                None
            }
        },
        EDNSOption::EDE { info_code, extra_text } => {
            if extra_text.len() > 65533 {
                Some(DrasilDNSError::EOF)
            } else {
                None
            }
        },
        _ => None,
    }
}

/// Writes the generic record prefix into a growing scratch buffer.
fn write_prefix(b: &mut Buffer, domain: &Vec<Vec<u8>>, tcode: u16, class: RecordClass, ttl: u32) -> (r: Result<(), DrasilDNSError>)
    requires
        labels_valid(domain.deep_view()),
        old(b)@.expandable,
        old(b)@.pos == old(b)@.bytes.len(),
    ensures
        match r {
            Ok(()) => {
                &&& final(b)@.bytes == old(b)@.bytes + record_prefix(
                    domain.deep_view(),
                    tcode,
                    class,
                    ttl,
                )
                &&& final(b)@.pos == final(b)@.bytes.len()
                &&& final(b)@.expandable
            },
            Err(e) => {
                &&& e == DrasilDNSError::EOF
                &&& old(b)@.pos + record_prefix(domain.deep_view(), tcode, class, ttl).len()
                    > usize::MAX
            },
        },
{
    proof {
        crate::buffer::lemma_be_bytes_of_len(tcode as int, 2);
        crate::buffer::lemma_be_bytes_of_len(record_class_code(class) as int, 2);
        crate::buffer::lemma_be_bytes_of_len(ttl as int, 4);
        crate::labels::lemma_encode_labels_len(domain.deep_view());
    }
    let ghost base = b@.bytes;
    match b.write_labels(domain) {
        Ok(_) => {},
        Err(e) => {
            proof {
                assert(!(e is LabelTooLarge));
            }
            return Err(DrasilDNSError::EOF);
        },
    }
    match b.write_u16(tcode) {
        Ok(()) => {},
        Err(_) => {
            return Err(DrasilDNSError::EOF);
        },
    }
    match b.write_u16(class.to_code()) {
        Ok(()) => {},
        Err(_) => {
            return Err(DrasilDNSError::EOF);
        },
    }
    match b.write_u32(ttl) {
        Ok(()) => {},
        Err(_) => {
            return Err(DrasilDNSError::EOF);
        },
    }
    proof {
        assert(b@.bytes =~= base + record_prefix(domain.deep_view(), tcode, class, ttl));
    }
    Ok(())
}

/// Overwrites the four-byte length placeholder at `lenpos` with the count
/// of payload bytes written after it, as the wire's truncating arithmetic
/// counts them.
fn patch_len_u32(b: &mut Buffer, lenpos: usize) -> (r: Ghost<int>)
    requires
        lenpos + 4 <= old(b)@.pos,
        old(b)@.pos <= old(b)@.bytes.len(),
    ensures
        r@ == old(b)@.pos - lenpos - 4,
        final(b)@.bytes == splice_at(old(b)@.bytes, lenpos as int, be_bytes_of(r@, 4)),
        final(b)@.bytes.len() == old(b)@.bytes.len(),
        final(b)@.expandable == old(b)@.expandable,
{
    let endp: usize = b.pos();
    let plen: usize = endp - lenpos - 4;
    let lf: u32 = ((plen as u64) % 0x100000000) as u32;
    proof {
        crate::buffer::lemma_pow256_values();
        crate::buffer::lemma_be_bytes_of_mod(plen as int, 4);
        crate::buffer::lemma_be_bytes_of_len(plen as int, 4);
        crate::buffer::lemma_be_bytes_of_len(lf as int, 4);
    }
    b.seek(lenpos);
    match b.write_u32(lf) {
        Ok(()) => {},
        Err(_) => {
            proof {
                assert(false);
            }
        },
    }
    proof {
        assert(be_bytes_of(lf as int, 4) == be_bytes_of(plen as int, 4));
    }
    Ghost(endp - lenpos - 4)
}

/// Overwrites the two-byte length placeholder at `lenpos` with the count
/// of payload bytes written after it, as the wire's truncating arithmetic
/// counts them.
fn patch_len_u16(b: &mut Buffer, lenpos: usize) -> (r: Ghost<int>)
    requires
        lenpos + 2 <= old(b)@.pos,
        old(b)@.pos <= old(b)@.bytes.len(),
    ensures
        r@ == old(b)@.pos - lenpos - 2,
        final(b)@.bytes == splice_at(old(b)@.bytes, lenpos as int, be_bytes_of(r@, 2)),
        final(b)@.bytes.len() == old(b)@.bytes.len(),
        final(b)@.expandable == old(b)@.expandable,
{
    let endp: usize = b.pos();
    let plen: usize = endp - lenpos - 2;
    let lf: u16 = ((plen as u64) % 0x10000) as u16;
    proof {
        crate::buffer::lemma_pow256_values();
        crate::buffer::lemma_be_bytes_of_mod(plen as int, 2);
        crate::buffer::lemma_be_bytes_of_len(plen as int, 2);
        crate::buffer::lemma_be_bytes_of_len(lf as int, 2);
    }
    b.seek(lenpos);
    match b.write_u16(lf) {
        Ok(()) => {},
        Err(_) => {
            proof {
                assert(false);
            }
        },
    }
    proof {
        assert(be_bytes_of(lf as int, 2) == be_bytes_of(plen as int, 2));
    }
    Ghost(endp - lenpos - 2)
}

/// Reads EDNS(0) options until `data_length` bytes of the cursor's region
/// have been consumed. A failed option read leaves the store untouched but
/// the cursor wherever the attempt stopped; the caller restores it.
#[verifier::loop_isolation(false)]
fn parse_opt_options(buff: &mut Buffer, data_length: u16) -> (r: Result<
    Vec<EDNSOption>,
    DrasilDNSError,
>)
    ensures
        match r {
            Ok(options) => match parse_options_at(
                old(buff)@.bytes,
                old(buff)@.pos,
                old(buff)@.pos + data_length,
                (data_length + 1) as nat,
            ) {
                Ok((os, end)) => {
                    &&& options.deep_view() == os
                    &&& final(buff)@ == (BufferModel { pos: end, ..old(buff)@ })
                },
                Err(_) => false,
            },
            Err(e) => {
                &&& parse_options_at(
                    old(buff)@.bytes,
                    old(buff)@.pos,
                    old(buff)@.pos + data_length,
                    (data_length + 1) as nat,
                ) == Err::<(Seq<EDNSOptionModel>, int), DrasilDNSError>(e)
                &&& final(buff)@.bytes == old(buff)@.bytes
                &&& final(buff)@.expandable == old(buff)@.expandable
            },
        },
{
    let ghost data = buff@.bytes;
    let opt_start: usize = buff.pos();
    let ghost end_target = opt_start + data_length;

    let mut options: Vec<EDNSOption> = Vec::new();
    let ghost mut fuel = (data_length + 1) as nat;

    while buff.pos() - opt_start < data_length as usize
        invariant
            buff@.bytes == data,
            buff@.expandable == old(buff)@.expandable,
            opt_start == old(buff)@.pos,
            end_target == opt_start + data_length,
            opt_start <= buff@.pos,
            fuel >= end_target - buff@.pos,
            match parse_options_at(data, buff@.pos, end_target, fuel) {
                Ok((os, end)) => parse_options_at(
                    data,
                    opt_start as int,
                    end_target,
                    (data_length + 1) as nat,
                ) == Ok::<(Seq<EDNSOptionModel>, int), DrasilDNSError>(
                    (options.deep_view() + os, end),
                ),
                Err(e) => parse_options_at(
                    data,
                    opt_start as int,
                    end_target,
                    (data_length + 1) as nat,
                ) == Err::<(Seq<EDNSOptionModel>, int), DrasilDNSError>(e),
            },
        decreases (if buff@.pos <= end_target { end_target - buff@.pos } else { 0int }),
    {
        let ghost pos_before = buff@.pos;
        proof {
            assert(pos_before < end_target);
            assert(fuel > 0);
        }
        let opt = match EDNSOption::parse(buff) {
            Ok(o) => o,
            Err(e) => {
                proof {
                    assert(parse_options_at(data, pos_before, end_target, fuel) == Err::<
                        (Seq<EDNSOptionModel>, int),
                        DrasilDNSError,
                    >(e));
                }
                return Err(e);
            },
        };
        proof {
            crate::record::edns::lemma_parse_option_advances(data, pos_before);
        }
        proof {
            assert(buff@.pos >= pos_before + 4);
        }
        let ghost options_before = options.deep_view();
        options.push(opt);
        proof {
            fuel = (fuel - 1) as nat;
            assert(options.deep_view() =~= options_before.push(opt@));
            match parse_options_at(data, buff@.pos, end_target, fuel) {
                Ok((os, end)) => {
                    assert(options.deep_view() + os =~= options_before + (seq![opt@] + os));
                },
                Err(_) => {},
            }
        }
    }
    proof {
        assert(buff@.pos >= end_target);
        assert(parse_options_at(data, buff@.pos, end_target, fuel) == Ok::<
            (Seq<EDNSOptionModel>, int),
            DrasilDNSError,
        >((Seq::empty(), buff@.pos)));
        assert(options.deep_view() + Seq::<EDNSOptionModel>::empty() =~= options.deep_view());
    }
    Ok(options)
}

/// Reads the EDNS(0) tail of an OPT record: the reinterpreted header
/// fields, then the declared run of options.
fn read_opt_tail(buff: &mut Buffer) -> (r: Result<Record, DrasilDNSError>)
    requires
        old(buff)@.pos + 8 <= old(buff)@.bytes.len(),
    ensures
        match r {
            Ok(rec) => match parse_opt_tail(old(buff)@.bytes, old(buff)@.pos) {
                Ok((m, end)) => {
                    &&& rec@ == m
                    &&& final(buff)@ == (BufferModel { pos: end, ..old(buff)@ })
                },
                Err(_) => false,
            },
            Err(e) => {
                &&& parse_opt_tail(old(buff)@.bytes, old(buff)@.pos) == Err::<
                    (RecordModel, int),
                    DrasilDNSError,
                >(e)
                &&& final(buff)@.bytes == old(buff)@.bytes
                &&& final(buff)@.expandable == old(buff)@.expandable
            },
        },
{
    let ghost data = buff@.bytes;
    let ghost o = buff@.pos;
    let udp_payload_size: u16 = match buff.read_u16() {
        Ok(v) => v,
        Err(e) => {
            proof {
                assert(false);
            }
            return Err(e);
        },
    };
    let extended_rcode: u8 = match buff.read_u8() {
        Ok(v) => v,
        Err(e) => {
            proof {
                assert(false);
            }
            return Err(e);
        },
    };
    let version: u8 = match buff.read_u8() {
        Ok(v) => v,
        Err(e) => {
            proof {
                assert(false);
            }
            return Err(e);
        },
    };
    let reserved: u16 = match buff.read_u16() {
        Ok(v) => v,
        Err(e) => {
            proof {
                assert(false);
            }
            return Err(e);
        },
    };
    let dnssec_ok: bool = reserved >= 0x8000;
    let data_length: u16 = match buff.read_u16() {
        Ok(v) => v,
        Err(e) => {
            proof {
                assert(false);
            }
            return Err(e);
        },
    };
    let options: Vec<EDNSOption> = match parse_opt_options(buff, data_length) {
        Ok(os) => os,
        Err(e) => {
            return Err(e);
        },
    };
    Ok(Record::OPT { udp_payload_size, extended_rcode, version, dnssec_ok, options })
}

/// Reads a DS RDATA at the cursor.
fn read_ds_rdata(buff: &mut Buffer, domain: Vec<Vec<u8>>, class: RecordClass, ttl: u32, rdlen: u32) -> (r: Result<Record, DrasilDNSError>)
    ensures
        match r {
            Ok(rec) => match parse_ds_rdata(
                old(buff)@.bytes,
                domain.deep_view(),
                class,
                ttl,
                rdlen,
                old(buff)@.pos,
            ) {
                Ok((m, end)) => rec@ == m && final(buff)@ == (BufferModel {
                    pos: end,
                    ..old(buff)@
                }),
                Err(_) => false,
            },
            Err(e) => {
                &&& parse_ds_rdata(
                    old(buff)@.bytes,
                    domain.deep_view(),
                    class,
                    ttl,
                    rdlen,
                    old(buff)@.pos,
                ) == Err::<(RecordModel, int), DrasilDNSError>(e)
                &&& final(buff)@.bytes == old(buff)@.bytes
                &&& final(buff)@.expandable == old(buff)@.expandable
            },
        },
{
    let ghost data = buff@.bytes;
    let ghost q = buff@.pos;
    if rdlen < 4 {
        return Err(DrasilDNSError::EOF);
    }
    let key_tag: u16 = match buff.read_u16() {
        Ok(v) => v,
        Err(e) => {
            return Err(e);
        },
    };
    let alg_code: u8 = match buff.read_u8() {
        Ok(v) => v,
        Err(e) => {
            return Err(e);
        },
    };
    let dt_code: u8 = match buff.read_u8() {
        Ok(v) => v,
        Err(e) => {
            return Err(e);
        },
    };
    let digest: Vec<u8> = match buff.read_bytes((rdlen - 4) as usize) {
        Ok(b) => b,
        Err(e) => {
            return Err(e);
        },
    };
    let algorithm = DNSSECAlgorithm::from_code(alg_code);
    let digest_type = DNSSECDigestType::from_code(dt_code);
    Ok(Record::DS { domain, class, ttl, key_tag, algorithm, digest_type, digest })
}

/// Reads an RRSIG RDATA at the cursor.
fn read_rrsig_rdata(buff: &mut Buffer, domain: Vec<Vec<u8>>, class: RecordClass, ttl: u32, rdlen: u32) -> (r: Result<Record, DrasilDNSError>)
    ensures
        match r {
            Ok(rec) => match parse_rrsig_rdata(
                old(buff)@.bytes,
                domain.deep_view(),
                class,
                ttl,
                rdlen,
                old(buff)@.pos,
            ) {
                Ok((m, end)) => rec@ == m && final(buff)@ == (BufferModel {
                    pos: end,
                    ..old(buff)@
                }),
                Err(_) => false,
            },
            Err(e) => {
                &&& parse_rrsig_rdata(
                    old(buff)@.bytes,
                    domain.deep_view(),
                    class,
                    ttl,
                    rdlen,
                    old(buff)@.pos,
                ) == Err::<(RecordModel, int), DrasilDNSError>(e)
                &&& final(buff)@.bytes == old(buff)@.bytes
                &&& final(buff)@.expandable == old(buff)@.expandable
            },
        },
{
    let ghost data = buff@.bytes;
    let ghost q = buff@.pos;
    let type_covered: u16 = match buff.read_u16() {
        Ok(v) => v,
        Err(e) => {
            return Err(e);
        },
    };
    let alg_code: u8 = match buff.read_u8() {
        Ok(v) => v,
        Err(e) => {
            return Err(e);
        },
    };
    let labels: u8 = match buff.read_u8() {
        Ok(v) => v,
        Err(e) => {
            return Err(e);
        },
    };
    let original_ttl: u32 = match buff.read_u32() {
        Ok(v) => v,
        Err(e) => {
            return Err(e);
        },
    };
    let signature_expiration: u32 = match buff.read_u32() {
        Ok(v) => v,
        Err(e) => {
            return Err(e);
        },
    };
    let signature_inception: u32 = match buff.read_u32() {
        Ok(v) => v,
        Err(e) => {
            return Err(e);
        },
    };
    let key_tag: u16 = match buff.read_u16() {
        Ok(v) => v,
        Err(e) => {
            return Err(e);
        },
    };
    let (signer_name_len, signer_name): (usize, Vec<Vec<u8>>) = match buff.read_labels(false) {
        Ok(v) => v,
        Err(e) => {
            return Err(e);
        },
    };
    if (rdlen as usize) < 18 || (rdlen as usize) - 18 < signer_name_len {
        return Err(DrasilDNSError::EOF);
    }
    let signature: Vec<u8> = match buff.read_bytes(rdlen as usize - 18 - signer_name_len) {
        Ok(b) => b,
        Err(e) => {
            return Err(e);
        },
    };
    let algorithm = DNSSECAlgorithm::from_code(alg_code);
    Ok(
        Record::RRSIG {
            domain,
            class,
            ttl,
            type_covered,
            algorithm,
            labels,
            original_ttl,
            signature_expiration,
            signature_inception,
            key_tag,
            signer_name,
            signature,
        },
    )
}

/// Reads an NSEC RDATA at the cursor.
fn read_nsec_rdata(buff: &mut Buffer, domain: Vec<Vec<u8>>, class: RecordClass, ttl: u32, rdlen: u32) -> (r: Result<Record, DrasilDNSError>)
    ensures
        match r {
            Ok(rec) => match parse_nsec_rdata(
                old(buff)@.bytes,
                domain.deep_view(),
                class,
                ttl,
                rdlen,
                old(buff)@.pos,
            ) {
                Ok((m, end)) => rec@ == m && final(buff)@ == (BufferModel {
                    pos: end,
                    ..old(buff)@
                }),
                Err(_) => false,
            },
            Err(e) => {
                &&& parse_nsec_rdata(
                    old(buff)@.bytes,
                    domain.deep_view(),
                    class,
                    ttl,
                    rdlen,
                    old(buff)@.pos,
                ) == Err::<(RecordModel, int), DrasilDNSError>(e)
                &&& final(buff)@.bytes == old(buff)@.bytes
                &&& final(buff)@.expandable == old(buff)@.expandable
            },
        },
{
    let ghost data = buff@.bytes;
    let ghost q = buff@.pos;
    let (ndn_len, next_domain_name): (usize, Vec<Vec<u8>>) = match buff.read_labels(false) {
        Ok(v) => v,
        Err(e) => {
            return Err(e);
        },
    };
    if (rdlen as usize) < ndn_len {
        return Err(DrasilDNSError::EOF);
    }
    let bitmap: Vec<u8> = match buff.read_bytes(rdlen as usize - ndn_len) {
        Ok(b) => b,
        Err(e) => {
            return Err(e);
        },
    };
    let record_types: Vec<RecordType> = match RecordType::parse_type_bitmaps(
        Buffer::from_bytes(bitmap),
    ) {
        Ok(s) => s,
        Err(e) => {
            return Err(e);
        },
    };
    Ok(Record::NSEC { domain, class, ttl, next_domain_name, record_types })
}

/// Reads a DNSKEY RDATA at the cursor.
fn read_dnskey_rdata(buff: &mut Buffer, domain: Vec<Vec<u8>>, class: RecordClass, ttl: u32, rdlen: u32) -> (r: Result<Record, DrasilDNSError>)
    ensures
        match r {
            Ok(rec) => match parse_dnskey_rdata(
                old(buff)@.bytes,
                domain.deep_view(),
                class,
                ttl,
                rdlen,
                old(buff)@.pos,
            ) {
                Ok((m, end)) => rec@ == m && final(buff)@ == (BufferModel {
                    pos: end,
                    ..old(buff)@
                }),
                Err(_) => false,
            },
            Err(e) => {
                &&& parse_dnskey_rdata(
                    old(buff)@.bytes,
                    domain.deep_view(),
                    class,
                    ttl,
                    rdlen,
                    old(buff)@.pos,
                ) == Err::<(RecordModel, int), DrasilDNSError>(e)
                &&& final(buff)@.bytes == old(buff)@.bytes
                &&& final(buff)@.expandable == old(buff)@.expandable
            },
        },
{
    let ghost data = buff@.bytes;
    let ghost q = buff@.pos;
    if rdlen < 4 {
        return Err(DrasilDNSError::EOF);
    }
    let flags: u16 = match buff.read_u16() {
        Ok(v) => v,
        Err(e) => {
            return Err(e);
        },
    };
    let protocol: u8 = match buff.read_u8() {
        Ok(v) => v,
        Err(e) => {
            return Err(e);
        },
    };
    let alg_code: u8 = match buff.read_u8() {
        Ok(v) => v,
        Err(e) => {
            return Err(e);
        },
    };
    let public_key: Vec<u8> = match buff.read_bytes((rdlen - 4) as usize) {
        Ok(b) => b,
        Err(e) => {
            return Err(e);
        },
    };
    let is_zone_key: bool = flags / 128 % 2 == 1;
    let is_secure_entry_point: bool = flags / 32768 % 2 == 1;
    let algorithm = DNSSECAlgorithm::from_code(alg_code);
    Ok(
        Record::DNSKEY {
            domain,
            class,
            ttl,
            is_secure_entry_point,
            is_zone_key,
            protocol,
            algorithm,
            public_key,
        },
    )
}

/// Reads an NSEC3 RDATA at the cursor.
fn read_nsec3_rdata(buff: &mut Buffer, domain: Vec<Vec<u8>>, class: RecordClass, ttl: u32, rdlen: u32) -> (r: Result<Record, DrasilDNSError>)
    ensures
        match r {
            Ok(rec) => match parse_nsec3_rdata(
                old(buff)@.bytes,
                domain.deep_view(),
                class,
                ttl,
                rdlen,
                old(buff)@.pos,
            ) {
                Ok((m, end)) => rec@ == m && final(buff)@ == (BufferModel {
                    pos: end,
                    ..old(buff)@
                }),
                Err(_) => false,
            },
            Err(e) => {
                &&& parse_nsec3_rdata(
                    old(buff)@.bytes,
                    domain.deep_view(),
                    class,
                    ttl,
                    rdlen,
                    old(buff)@.pos,
                ) == Err::<(RecordModel, int), DrasilDNSError>(e)
                &&& final(buff)@.bytes == old(buff)@.bytes
                &&& final(buff)@.expandable == old(buff)@.expandable
            },
        },
{
    let ghost data = buff@.bytes;
    let ghost q = buff@.pos;
    let hash_algorithm: u8 = match buff.read_u8() {
        Ok(v) => v,
        Err(e) => {
            return Err(e);
        },
    };
    let flags: u8 = match buff.read_u8() {
        Ok(v) => v,
        Err(e) => {
            return Err(e);
        },
    };
    let iterations: u16 = match buff.read_u16() {
        Ok(v) => v,
        Err(e) => {
            return Err(e);
        },
    };
    let salt_length: u8 = match buff.read_u8() {
        Ok(v) => v,
        Err(e) => {
            return Err(e);
        },
    };
    let salt: Vec<u8> = match buff.read_bytes(salt_length as usize) {
        Ok(b) => b,
        Err(e) => {
            return Err(e);
        },
    };
    let hash_length: u8 = match buff.read_u8() {
        Ok(v) => v,
        Err(e) => {
            return Err(e);
        },
    };
    let next_hashed_owner_name: Vec<u8> = match buff.read_bytes(hash_length as usize) {
        Ok(b) => b,
        Err(e) => {
            return Err(e);
        },
    };
    if (rdlen as usize) < 6 + salt_length as usize + hash_length as usize {
        return Err(DrasilDNSError::EOF);
    }
    let bm_len: usize = rdlen as usize - 6 - salt_length as usize - hash_length as usize;
    let bitmap: Vec<u8> = match buff.read_bytes(bm_len) {
        Ok(b) => b,
        Err(e) => {
            return Err(e);
        },
    };
    let record_types: Vec<RecordType> = match RecordType::parse_type_bitmaps(
        Buffer::from_bytes(bitmap),
    ) {
        Ok(s) => s,
        Err(e) => {
            return Err(e);
        },
    };
    let opt_out: bool = flags >= 128;
    Ok(
        Record::NSEC3 {
            domain,
            class,
            ttl,
            hash_algorithm,
            opt_out,
            iterations,
            salt_length,
            salt,
            hash_length,
            next_hashed_owner_name,
            record_types,
        },
    )
}

/// Reads an NSEC3PARAM RDATA at the cursor; a nonzero reserved-flags byte
/// makes the whole record one to drop.
fn read_nsec3param_rdata(buff: &mut Buffer, domain: Vec<Vec<u8>>, class: RecordClass, ttl: u32) -> (r: Result<Option<Record>, DrasilDNSError>)
    ensures
        match r {
            Ok(rec) => match parse_nsec3param_rdata(
                old(buff)@.bytes,
                domain.deep_view(),
                class,
                ttl,
                old(buff)@.pos,
            ) {
                Ok((m, end)) => {
                    &&& match (rec, m) {
                        (Some(rr), Some(mm)) => rr@ == mm,
                        (None, None) => true,
                        _ => false,
                    }
                    &&& final(buff)@ == (BufferModel { pos: end, ..old(buff)@ })
                },
                Err(_) => false,
            },
            Err(e) => {
                &&& parse_nsec3param_rdata(
                    old(buff)@.bytes,
                    domain.deep_view(),
                    class,
                    ttl,
                    old(buff)@.pos,
                ) == Err::<(Option<RecordModel>, int), DrasilDNSError>(e)
                &&& final(buff)@.bytes == old(buff)@.bytes
                &&& final(buff)@.expandable == old(buff)@.expandable
            },
        },
{
    let ghost data = buff@.bytes;
    let ghost q = buff@.pos;
    let hash_algorithm: u8 = match buff.read_u8() {
        Ok(v) => v,
        Err(e) => {
            return Err(e);
        },
    };
    let flags: u8 = match buff.read_u8() {
        Ok(v) => v,
        Err(e) => {
            return Err(e);
        },
    };
    let iterations: u16 = match buff.read_u16() {
        Ok(v) => v,
        Err(e) => {
            return Err(e);
        },
    };
    let salt_length: u8 = match buff.read_u8() {
        Ok(v) => v,
        Err(e) => {
            return Err(e);
        },
    };
    let salt: Vec<u8> = match buff.read_bytes(salt_length as usize) {
        Ok(b) => b,
        Err(e) => {
            return Err(e);
        },
    };
    if flags != 0 {
        // Reserved flags set: the record is dropped, not surfaced.
        return Ok(None);
    }
    Ok(
        Some(
            Record::NSEC3PARAM {
                domain,
                class,
                ttl,
                hash_algorithm,
                flags,
                iterations,
                salt_length,
                salt,
            },
        ),
    )
}

/// Builds the encoding of a record in a scratch buffer, or reports the
/// error its names or options give. A buffer longer than the machine can
/// index cannot be built and reads as an out-of-room failure.
fn build_record(rec: &Record) -> (r: Result<Buffer, DrasilDNSError>)
    requires
        record_types_writable(*rec),
    ensures
        match r {
            Ok(b) => encode_record(rec@) == Ok::<Seq<u8>, DrasilDNSError>(b@.bytes),
            Err(e) => match encode_record(rec@) {
                Err(e2) => e == e2,
                Ok(bytes) => e == DrasilDNSError::EOF && bytes.len() > usize::MAX,
            },
        },
{
    match rec {
        Record::Unknown { .. } => build_unknown_record(rec),
        Record::A { .. } => build_a_record(rec),
        Record::AAAA { .. } => build_aaaa_record(rec),
        Record::NS { domain, host, ttl, class } => {
            build_host_record(rec, domain, host, 2, *class, *ttl)
        },
        Record::CNAME { domain, host, ttl, class } => {
            build_host_record(rec, domain, host, 5, *class, *ttl)
        },
        Record::MX { .. } => build_mx_record(rec),
        Record::OPT { udp_payload_size, extended_rcode, version, dnssec_ok, options } => {
            build_opt_record(rec, *udp_payload_size, *extended_rcode, *version, *dnssec_ok, options)
        },
        Record::DS { .. } => build_ds_record(rec),
        Record::RRSIG { .. } => build_rrsig_record(rec),
        Record::NSEC { .. } => build_nsec_record(rec),
        Record::DNSKEY { .. } => build_dnskey_record(rec),
        Record::NSEC3 { .. } => build_nsec3_record(rec),
        Record::NSEC3PARAM { .. } => build_nsec3param_record(rec),
    }
}

/// Builds the encoding of one record kind; see `build_record`.
fn build_unknown_record(rec: &Record) -> (r: Result<Buffer, DrasilDNSError>)
    requires
        rec is Unknown,
        record_types_writable(*rec),
    ensures
        match r {
            Ok(b) => encode_record(rec@) == Ok::<Seq<u8>, DrasilDNSError>(b@.bytes),
            Err(e) => match encode_record(rec@) {
                Err(e2) => e == e2,
                Ok(bytes) => e == DrasilDNSError::EOF && bytes.len() > usize::MAX,
            },
        },
{
    match rec {
        Record::Unknown { domain, ttl, len, record_type, class, data } => {
            match check_labels(domain) {
                Some(sz) => {
                    return Err(DrasilDNSError::LabelTooLarge { size: sz });
                },
                None => {},
            }
            proof {
                crate::buffer::lemma_be_bytes_of_len(*len as int, 4);
            }
            let mut b = Buffer::with_capacity(0);
            b.set_expandable(true);
            match write_prefix(&mut b, domain, *record_type, *class, *ttl) {
                Ok(()) => {},
                Err(_) => {
                    return Err(DrasilDNSError::EOF);
                },
            }
            match b.write_u32(*len) {
                Ok(()) => {},
                Err(_) => {
                    return Err(DrasilDNSError::EOF);
                },
            }
            match b.write_bytes(data.as_slice()) {
                Ok(()) => {},
                Err(_) => {
                    return Err(DrasilDNSError::EOF);
                },
            }
            proof {
                assert(b@.bytes =~= encode_record(rec@)->Ok_0);
            }
            Ok(b)
        },
        _ => {
            proof {
                assert(false);
            }
            Err(DrasilDNSError::Unknown)
        },
    }
}


/// Builds the encoding of one record kind; see `build_record`.
fn build_a_record(rec: &Record) -> (r: Result<Buffer, DrasilDNSError>)
    requires
        rec is A,
        record_types_writable(*rec),
    ensures
        match r {
            Ok(b) => encode_record(rec@) == Ok::<Seq<u8>, DrasilDNSError>(b@.bytes),
            Err(e) => match encode_record(rec@) {
                Err(e2) => e == e2,
                Ok(bytes) => e == DrasilDNSError::EOF && bytes.len() > usize::MAX,
            },
        },
{
    match rec {
        Record::A { domain, addr, ttl, class } => {
            match check_labels(domain) {
                Some(sz) => {
                    return Err(DrasilDNSError::LabelTooLarge { size: sz });
                },
                None => {},
            }
            proof {
                crate::buffer::lemma_be_bytes_of_len(4, 4);
                crate::buffer::lemma_be_bytes_of_len(*addr as int, 4);
            }
            let mut b = Buffer::with_capacity(0);
            b.set_expandable(true);
            match write_prefix(&mut b, domain, 1, *class, *ttl) {
                Ok(()) => {},
                Err(_) => {
                    return Err(DrasilDNSError::EOF);
                },
            }
            match b.write_u32(4) {
                Ok(()) => {},
                Err(_) => {
                    return Err(DrasilDNSError::EOF);
                },
            }
            match b.write_u32(*addr) {
                Ok(()) => {},
                Err(_) => {
                    return Err(DrasilDNSError::EOF);
                },
            }
            proof {
                assert(b@.bytes =~= encode_record(rec@)->Ok_0);
            }
            Ok(b)
        },
        _ => {
            proof {
                assert(false);
            }
            Err(DrasilDNSError::Unknown)
        },
    }
}


/// Builds the encoding of one record kind; see `build_record`.
fn build_aaaa_record(rec: &Record) -> (r: Result<Buffer, DrasilDNSError>)
    requires
        rec is AAAA,
        record_types_writable(*rec),
    ensures
        match r {
            Ok(b) => encode_record(rec@) == Ok::<Seq<u8>, DrasilDNSError>(b@.bytes),
            Err(e) => match encode_record(rec@) {
                Err(e2) => e == e2,
                Ok(bytes) => e == DrasilDNSError::EOF && bytes.len() > usize::MAX,
            },
        },
{
    match rec {
        Record::AAAA { domain, addr, ttl, class } => {
            match check_labels(domain) {
                Some(sz) => {
                    return Err(DrasilDNSError::LabelTooLarge { size: sz });
                },
                None => {},
            }
            proof {
                crate::buffer::lemma_be_bytes_of_len(16, 4);
                crate::buffer::lemma_be_bytes_of_len(*addr as int, 16);
            }
            let mut b = Buffer::with_capacity(0);
            b.set_expandable(true);
            match write_prefix(&mut b, domain, 28, *class, *ttl) {
                Ok(()) => {},
                Err(_) => {
                    return Err(DrasilDNSError::EOF);
                },
            }
            match b.write_u32(16) {
                Ok(()) => {},
                Err(_) => {
                    return Err(DrasilDNSError::EOF);
                },
            }
            match b.write_u128(*addr) {
                Ok(()) => {},
                Err(_) => {
                    return Err(DrasilDNSError::EOF);
                },
            }
            proof {
                assert(b@.bytes =~= encode_record(rec@)->Ok_0);
            }
            Ok(b)
        },
        _ => {
            proof {
                assert(false);
            }
            Err(DrasilDNSError::Unknown)
        },
    }
}


/// Builds the encoding of one record kind; see `build_record`.
fn build_mx_record(rec: &Record) -> (r: Result<Buffer, DrasilDNSError>)
    requires
        rec is MX,
        record_types_writable(*rec),
    ensures
        match r {
            Ok(b) => encode_record(rec@) == Ok::<Seq<u8>, DrasilDNSError>(b@.bytes),
            Err(e) => match encode_record(rec@) {
                Err(e2) => e == e2,
                Ok(bytes) => e == DrasilDNSError::EOF && bytes.len() > usize::MAX,
            },
        },
{
    match rec {
        Record::MX { domain, priority, host, ttl, class } => {
            match check_labels(domain) {
                Some(sz) => {
                    return Err(DrasilDNSError::LabelTooLarge { size: sz });
                },
                None => {},
            }
            match check_labels(host) {
                Some(sz) => {
                    return Err(DrasilDNSError::LabelTooLarge { size: sz });
                },
                None => {},
            }
            proof {
                crate::buffer::lemma_be_bytes_of_len(*priority as int, 2);
                crate::labels::lemma_encode_labels_len(host.deep_view());
                crate::buffer::lemma_be_bytes_of_len(
                    2 + encode_labels(host.deep_view()).len() as int,
                    4,
                );
            }
            let mut b = Buffer::with_capacity(0);
            b.set_expandable(true);
            match write_prefix(&mut b, domain, 15, *class, *ttl) {
                Ok(()) => {},
                Err(_) => {
                    return Err(DrasilDNSError::EOF);
                },
            }
            let lenpos: usize = b.pos();
            match b.write_u32(0) {
                Ok(()) => {},
                Err(_) => {
                    return Err(DrasilDNSError::EOF);
                },
            }
            match b.write_u16(*priority) {
                Ok(()) => {},
                Err(_) => {
                    return Err(DrasilDNSError::EOF);
                },
            }
            match b.write_labels(host) {
                Ok(_) => {},
                Err(_) => {
                    return Err(DrasilDNSError::EOF);
                },
            }
            let patched = patch_len_u32(&mut b, lenpos);
            proof {
                crate::buffer::lemma_be_bytes_of_len(0, 4);
                crate::buffer::lemma_be_bytes_of_len(patched@, 4);
                assert(patched@ == 2 + encode_labels(host.deep_view()).len());
                assert(b@.bytes =~= encode_record(rec@)->Ok_0);
            }
            Ok(b)
        },
        _ => {
            proof {
                assert(false);
            }
            Err(DrasilDNSError::Unknown)
        },
    }
}


/// Builds the encoding of one record kind; see `build_record`.
fn build_ds_record(rec: &Record) -> (r: Result<Buffer, DrasilDNSError>)
    requires
        rec is DS,
        record_types_writable(*rec),
    ensures
        match r {
            Ok(b) => encode_record(rec@) == Ok::<Seq<u8>, DrasilDNSError>(b@.bytes),
            Err(e) => match encode_record(rec@) {
                Err(e2) => e == e2,
                Ok(bytes) => e == DrasilDNSError::EOF && bytes.len() > usize::MAX,
            },
        },
{
    match rec {
        Record::DS { domain, class, ttl, key_tag, algorithm, digest_type, digest } => {
            match check_labels(domain) {
                Some(sz) => {
                    return Err(DrasilDNSError::LabelTooLarge { size: sz });
                },
                None => {},
            }
            proof {
                crate::buffer::lemma_pow256_values();
                crate::buffer::lemma_be_bytes_of_len(*key_tag as int, 2);
                crate::buffer::lemma_be_bytes_of_len(dnssec_algorithm_code(*algorithm) as int, 1);
                crate::buffer::lemma_be_bytes_of_len(
                    dnssec_digest_type_code(*digest_type) as int,
                    1,
                );
                crate::buffer::lemma_be_bytes_of_len(4 + digest@.len() as int, 4);
                crate::buffer::lemma_be_bytes_of_mod(4 + digest@.len() as int, 4);
            }
            let lf: u32 = (((digest.len() as u128) + 4) % 0x100000000) as u32;
            proof {
                crate::buffer::lemma_be_bytes_of_len(lf as int, 4);
                assert(be_bytes_of(lf as int, 4) == be_bytes_of(4 + digest@.len() as int, 4));
            }
            let mut b = Buffer::with_capacity(0);
            b.set_expandable(true);
            match write_prefix(&mut b, domain, 43, *class, *ttl) {
                Ok(()) => {},
                Err(_) => {
                    return Err(DrasilDNSError::EOF);
                },
            }
            match b.write_u32(lf) {
                Ok(()) => {},
                Err(_) => {
                    return Err(DrasilDNSError::EOF);
                },
            }
            match b.write_u16(*key_tag) {
                Ok(()) => {},
                Err(_) => {
                    return Err(DrasilDNSError::EOF);
                },
            }
            match b.write_u8(algorithm.to_code()) {
                Ok(()) => {},
                Err(_) => {
                    return Err(DrasilDNSError::EOF);
                },
            }
            match b.write_u8(digest_type.to_code()) {
                Ok(()) => {},
                Err(_) => {
                    return Err(DrasilDNSError::EOF);
                },
            }
            match b.write_bytes(digest.as_slice()) {
                Ok(()) => {},
                Err(_) => {
                    return Err(DrasilDNSError::EOF);
                },
            }
            proof {
                assert(b@.bytes =~= encode_record(rec@)->Ok_0);
            }
            Ok(b)
        },
        _ => {
            proof {
                assert(false);
            }
            Err(DrasilDNSError::Unknown)
        },
    }
}


/// Builds the encoding of one record kind; see `build_record`.
fn build_rrsig_record(rec: &Record) -> (r: Result<Buffer, DrasilDNSError>)
    requires
        rec is RRSIG,
        record_types_writable(*rec),
    ensures
        match r {
            Ok(b) => encode_record(rec@) == Ok::<Seq<u8>, DrasilDNSError>(b@.bytes),
            Err(e) => match encode_record(rec@) {
                Err(e2) => e == e2,
                Ok(bytes) => e == DrasilDNSError::EOF && bytes.len() > usize::MAX,
            },
        },
{
    match rec {
        Record::RRSIG {
            domain,
            class,
            ttl,
            type_covered,
            algorithm,
            labels,
            original_ttl,
            signature_expiration,
            signature_inception,
            key_tag,
            signer_name,
            signature,
        } => {
            match check_labels(domain) {
                Some(sz) => {
                    return Err(DrasilDNSError::LabelTooLarge { size: sz });
                },
                None => {},
            }
            match check_labels(signer_name) {
                Some(sz) => {
                    return Err(DrasilDNSError::LabelTooLarge { size: sz });
                },
                None => {},
            }
            proof {
                crate::buffer::lemma_be_bytes_of_len(*type_covered as int, 2);
                crate::buffer::lemma_be_bytes_of_len(dnssec_algorithm_code(*algorithm) as int, 1);
                crate::buffer::lemma_be_bytes_of_len(*labels as int, 1);
                crate::buffer::lemma_be_bytes_of_len(*original_ttl as int, 4);
                crate::buffer::lemma_be_bytes_of_len(*signature_expiration as int, 4);
                crate::buffer::lemma_be_bytes_of_len(*signature_inception as int, 4);
                crate::buffer::lemma_be_bytes_of_len(*key_tag as int, 2);
                crate::labels::lemma_encode_labels_len(signer_name.deep_view());
                crate::buffer::lemma_be_bytes_of_len(
                    18 + encode_labels(signer_name.deep_view()).len() + signature@.len() as int,
                    4,
                );
            }
            let mut b = Buffer::with_capacity(0);
            b.set_expandable(true);
            match write_prefix(&mut b, domain, 46, *class, *ttl) {
                Ok(()) => {},
                Err(_) => {
                    return Err(DrasilDNSError::EOF);
                },
            }
            let lenpos: usize = b.pos();
            match b.write_u32(0) {
                Ok(()) => {},
                Err(_) => {
                    return Err(DrasilDNSError::EOF);
                },
            }
            match b.write_u16(*type_covered) {
                Ok(()) => {},
                Err(_) => {
                    return Err(DrasilDNSError::EOF);
                },
            }
            match b.write_u8(algorithm.to_code()) {
                Ok(()) => {},
                Err(_) => {
                    return Err(DrasilDNSError::EOF);
                },
            }
            match b.write_u8(*labels) {
                Ok(()) => {},
                Err(_) => {
                    return Err(DrasilDNSError::EOF);
                },
            }
            match b.write_u32(*original_ttl) {
                Ok(()) => {},
                Err(_) => {
                    return Err(DrasilDNSError::EOF);
                },
            }
            match b.write_u32(*signature_expiration) {
                Ok(()) => {},
                Err(_) => {
                    return Err(DrasilDNSError::EOF);
                },
            }
            match b.write_u32(*signature_inception) {
                Ok(()) => {},
                Err(_) => {
                    return Err(DrasilDNSError::EOF);
                },
            }
            match b.write_u16(*key_tag) {
                Ok(()) => {},
                Err(_) => {
                    return Err(DrasilDNSError::EOF);
                },
            }
            match b.write_labels(signer_name) {
                Ok(_) => {},
                Err(_) => {
                    return Err(DrasilDNSError::EOF);
                },
            }
            match b.write_bytes(signature.as_slice()) {
                Ok(()) => {},
                Err(_) => {
                    return Err(DrasilDNSError::EOF);
                },
            }
            let patched = patch_len_u32(&mut b, lenpos);
            proof {
                crate::buffer::lemma_be_bytes_of_len(0, 4);
                crate::buffer::lemma_be_bytes_of_len(patched@, 4);
                assert(patched@ == 18 + encode_labels(signer_name.deep_view()).len()
                    + signature@.len());
                assert(b@.bytes =~= encode_record(rec@)->Ok_0);
            }
            Ok(b)
        },
        _ => {
            proof {
                assert(false);
            }
            Err(DrasilDNSError::Unknown)
        },
    }
}


/// Builds the encoding of one record kind; see `build_record`.
fn build_nsec_record(rec: &Record) -> (r: Result<Buffer, DrasilDNSError>)
    requires
        rec is NSEC,
        record_types_writable(*rec),
    ensures
        match r {
            Ok(b) => encode_record(rec@) == Ok::<Seq<u8>, DrasilDNSError>(b@.bytes),
            Err(e) => match encode_record(rec@) {
                Err(e2) => e == e2,
                Ok(bytes) => e == DrasilDNSError::EOF && bytes.len() > usize::MAX,
            },
        },
{
    match rec {
        Record::NSEC { domain, class, ttl, next_domain_name, record_types } => {
            match check_labels(domain) {
                Some(sz) => {
                    return Err(DrasilDNSError::LabelTooLarge { size: sz });
                },
                None => {},
            }
            match check_labels(next_domain_name) {
                Some(sz) => {
                    return Err(DrasilDNSError::LabelTooLarge { size: sz });
                },
                None => {},
            }
            let tb: Buffer = match RecordType::into_type_bitmaps(record_types) {
                Ok(t) => t,
                Err(_) => {
                    proof {
                        assert(false);
                    }
                    return Err(DrasilDNSError::Unknown);
                },
            };
            proof {
                crate::labels::lemma_encode_labels_len(next_domain_name.deep_view());
                crate::buffer::lemma_be_bytes_of_len(
                    encode_labels(next_domain_name.deep_view()).len() + tb_encode(
                        code_set(record_types@),
                    ).len() as int,
                    4,
                );
            }
            let mut b = Buffer::with_capacity(0);
            b.set_expandable(true);
            match write_prefix(&mut b, domain, 47, *class, *ttl) {
                Ok(()) => {},
                Err(_) => {
                    return Err(DrasilDNSError::EOF);
                },
            }
            let lenpos: usize = b.pos();
            match b.write_u32(0) {
                Ok(()) => {},
                Err(_) => {
                    return Err(DrasilDNSError::EOF);
                },
            }
            match b.write_labels(next_domain_name) {
                Ok(_) => {},
                Err(_) => {
                    return Err(DrasilDNSError::EOF);
                },
            }
            match b.write_buffer(&tb) {
                Ok(()) => {},
                Err(_) => {
                    return Err(DrasilDNSError::EOF);
                },
            }
            let patched = patch_len_u32(&mut b, lenpos);
            proof {
                crate::buffer::lemma_be_bytes_of_len(0, 4);
                crate::buffer::lemma_be_bytes_of_len(patched@, 4);
                assert(patched@ == encode_labels(next_domain_name.deep_view()).len() + tb_encode(
                    code_set(record_types@),
                ).len());
                assert(b@.bytes =~= encode_record(rec@)->Ok_0);
            }
            Ok(b)
        },
        _ => {
            proof {
                assert(false);
            }
            Err(DrasilDNSError::Unknown)
        },
    }
}


/// Builds the encoding of one record kind; see `build_record`.
fn build_dnskey_record(rec: &Record) -> (r: Result<Buffer, DrasilDNSError>)
    requires
        rec is DNSKEY,
        record_types_writable(*rec),
    ensures
        match r {
            Ok(b) => encode_record(rec@) == Ok::<Seq<u8>, DrasilDNSError>(b@.bytes),
            Err(e) => match encode_record(rec@) {
                Err(e2) => e == e2,
                Ok(bytes) => e == DrasilDNSError::EOF && bytes.len() > usize::MAX,
            },
        },
{
    match rec {
        Record::DNSKEY {
            domain,
            class,
            ttl,
            is_secure_entry_point,
            is_zone_key,
            protocol,
            algorithm,
            public_key,
        } => {
            match check_labels(domain) {
                Some(sz) => {
                    return Err(DrasilDNSError::LabelTooLarge { size: sz });
                },
                None => {},
            }
            let mut flags: u16 = 0;
            if *is_zone_key {
                flags = flags + 128;
            }
            if *is_secure_entry_point {
                flags = flags + 32768;
            }
            proof {
                crate::buffer::lemma_pow256_values();
                crate::buffer::lemma_be_bytes_of_len(flags as int, 2);
                crate::buffer::lemma_be_bytes_of_len(*protocol as int, 1);
                crate::buffer::lemma_be_bytes_of_len(dnssec_algorithm_code(*algorithm) as int, 1);
                crate::buffer::lemma_be_bytes_of_len(4 + public_key@.len() as int, 4);
                crate::buffer::lemma_be_bytes_of_mod(4 + public_key@.len() as int, 4);
            }
            let lf: u32 = (((public_key.len() as u128) + 4) % 0x100000000) as u32;
            proof {
                crate::buffer::lemma_be_bytes_of_len(lf as int, 4);
                assert(be_bytes_of(lf as int, 4) == be_bytes_of(4 + public_key@.len() as int, 4));
            }
            let mut b = Buffer::with_capacity(0);
            b.set_expandable(true);
            match write_prefix(&mut b, domain, 48, *class, *ttl) {
                Ok(()) => {},
                Err(_) => {
                    return Err(DrasilDNSError::EOF);
                },
            }
            match b.write_u32(lf) {
                Ok(()) => {},
                Err(_) => {
                    return Err(DrasilDNSError::EOF);
                },
            }
            match b.write_u16(flags) {
                Ok(()) => {},
                Err(_) => {
                    return Err(DrasilDNSError::EOF);
                },
            }
            match b.write_u8(*protocol) {
                Ok(()) => {},
                Err(_) => {
                    return Err(DrasilDNSError::EOF);
                },
            }
            match b.write_u8(algorithm.to_code()) {
                Ok(()) => {},
                Err(_) => {
                    return Err(DrasilDNSError::EOF);
                },
            }
            match b.write_bytes(public_key.as_slice()) {
                Ok(()) => {},
                Err(_) => {
                    return Err(DrasilDNSError::EOF);
                },
            }
            proof {
                assert(b@.bytes =~= encode_record(rec@)->Ok_0);
            }
            Ok(b)
        },
        _ => {
            proof {
                assert(false);
            }
            Err(DrasilDNSError::Unknown)
        },
    }
}


/// Builds the encoding of one record kind; see `build_record`.
fn build_nsec3_record(rec: &Record) -> (r: Result<Buffer, DrasilDNSError>)
    requires
        rec is NSEC3,
        record_types_writable(*rec),
    ensures
        match r {
            Ok(b) => encode_record(rec@) == Ok::<Seq<u8>, DrasilDNSError>(b@.bytes),
            Err(e) => match encode_record(rec@) {
                Err(e2) => e == e2,
                Ok(bytes) => e == DrasilDNSError::EOF && bytes.len() > usize::MAX,
            },
        },
{
    match rec {
        Record::NSEC3 {
            domain,
            class,
            ttl,
            hash_algorithm,
            opt_out,
            iterations,
            salt_length,
            salt,
            hash_length,
            next_hashed_owner_name,
            record_types,
        } => {
            match check_labels(domain) {
                Some(sz) => {
                    return Err(DrasilDNSError::LabelTooLarge { size: sz });
                },
                None => {},
            }
            let tb: Buffer = match RecordType::into_type_bitmaps(record_types) {
                Ok(t) => t,
                Err(_) => {
                    proof {
                        assert(false);
                    }
                    return Err(DrasilDNSError::Unknown);
                },
            };
            let oflag: u8 = if *opt_out {
                128
            } else {
                0
            };
            proof {
                crate::buffer::lemma_be_bytes_of_len(*hash_algorithm as int, 1);
                crate::buffer::lemma_be_bytes_of_len(oflag as int, 1);
                crate::buffer::lemma_be_bytes_of_len(*iterations as int, 2);
                crate::buffer::lemma_be_bytes_of_len(*salt_length as int, 1);
                crate::buffer::lemma_be_bytes_of_len(*hash_length as int, 1);
                crate::buffer::lemma_be_bytes_of_len(
                    6 + salt@.len() + next_hashed_owner_name@.len() + tb_encode(
                        code_set(record_types@),
                    ).len() as int,
                    4,
                );
            }
            let mut b = Buffer::with_capacity(0);
            b.set_expandable(true);
            match write_prefix(&mut b, domain, 50, *class, *ttl) {
                Ok(()) => {},
                Err(_) => {
                    return Err(DrasilDNSError::EOF);
                },
            }
            let lenpos: usize = b.pos();
            match b.write_u32(0) {
                Ok(()) => {},
                Err(_) => {
                    return Err(DrasilDNSError::EOF);
                },
            }
            match b.write_u8(*hash_algorithm) {
                Ok(()) => {},
                Err(_) => {
                    return Err(DrasilDNSError::EOF);
                },
            }
            match b.write_u8(oflag) {
                Ok(()) => {},
                Err(_) => {
                    return Err(DrasilDNSError::EOF);
                },
            }
            match b.write_u16(*iterations) {
                Ok(()) => {},
                Err(_) => {
                    return Err(DrasilDNSError::EOF);
                },
            }
            match b.write_u8(*salt_length) {
                Ok(()) => {},
                Err(_) => {
                    return Err(DrasilDNSError::EOF);
                },
            }
            match b.write_bytes(salt.as_slice()) {
                Ok(()) => {},
                Err(_) => {
                    return Err(DrasilDNSError::EOF);
                },
            }
            match b.write_u8(*hash_length) {
                Ok(()) => {},
                Err(_) => {
                    return Err(DrasilDNSError::EOF);
                },
            }
            match b.write_bytes(next_hashed_owner_name.as_slice()) {
                Ok(()) => {},
                Err(_) => {
                    return Err(DrasilDNSError::EOF);
                },
            }
            match b.write_buffer(&tb) {
                Ok(()) => {},
                Err(_) => {
                    return Err(DrasilDNSError::EOF);
                },
            }
            let patched = patch_len_u32(&mut b, lenpos);
            proof {
                crate::buffer::lemma_be_bytes_of_len(0, 4);
                crate::buffer::lemma_be_bytes_of_len(patched@, 4);
                assert(patched@ == 6 + salt@.len() + next_hashed_owner_name@.len() + tb_encode(
                    code_set(record_types@),
                ).len());
                assert(b@.bytes =~= encode_record(rec@)->Ok_0);
            }
            Ok(b)
        },
        _ => {
            proof {
                assert(false);
            }
            Err(DrasilDNSError::Unknown)
        },
    }
}


/// Builds the encoding of one record kind; see `build_record`.
fn build_nsec3param_record(rec: &Record) -> (r: Result<Buffer, DrasilDNSError>)
    requires
        rec is NSEC3PARAM,
        record_types_writable(*rec),
    ensures
        match r {
            Ok(b) => encode_record(rec@) == Ok::<Seq<u8>, DrasilDNSError>(b@.bytes),
            Err(e) => match encode_record(rec@) {
                Err(e2) => e == e2,
                Ok(bytes) => e == DrasilDNSError::EOF && bytes.len() > usize::MAX,
            },
        },
{
    match rec {
        Record::NSEC3PARAM {
            domain,
            class,
            ttl,
            hash_algorithm,
            flags,
            iterations,
            salt_length,
            salt,
        } => {
            match check_labels(domain) {
                Some(sz) => {
                    return Err(DrasilDNSError::LabelTooLarge { size: sz });
                },
                None => {},
            }
            proof {
                crate::buffer::lemma_pow256_values();
                crate::buffer::lemma_be_bytes_of_len(*hash_algorithm as int, 1);
                crate::buffer::lemma_be_bytes_of_len(*flags as int, 1);
                crate::buffer::lemma_be_bytes_of_len(*iterations as int, 2);
                crate::buffer::lemma_be_bytes_of_len(*salt_length as int, 1);
                crate::buffer::lemma_be_bytes_of_len(5 + salt@.len() as int, 4);
                crate::buffer::lemma_be_bytes_of_mod(5 + salt@.len() as int, 4);
            }
            let lf: u32 = (((salt.len() as u128) + 5) % 0x100000000) as u32;
            proof {
                crate::buffer::lemma_be_bytes_of_len(lf as int, 4);
                assert(be_bytes_of(lf as int, 4) == be_bytes_of(5 + salt@.len() as int, 4));
            }
            let mut b = Buffer::with_capacity(0);
            b.set_expandable(true);
            match write_prefix(&mut b, domain, 51, *class, *ttl) {
                Ok(()) => {},
                Err(_) => {
                    return Err(DrasilDNSError::EOF);
                },
            }
            match b.write_u32(lf) {
                Ok(()) => {},
                Err(_) => {
                    return Err(DrasilDNSError::EOF);
                },
            }
            match b.write_u8(*hash_algorithm) {
                Ok(()) => {},
                Err(_) => {
                    return Err(DrasilDNSError::EOF);
                },
            }
            match b.write_u8(*flags) {
                Ok(()) => {},
                Err(_) => {
                    return Err(DrasilDNSError::EOF);
                },
            }
            match b.write_u16(*iterations) {
                Ok(()) => {},
                Err(_) => {
                    return Err(DrasilDNSError::EOF);
                },
            }
            match b.write_u8(*salt_length) {
                Ok(()) => {},
                Err(_) => {
                    return Err(DrasilDNSError::EOF);
                },
            }
            match b.write_bytes(salt.as_slice()) {
                Ok(()) => {},
                Err(_) => {
                    return Err(DrasilDNSError::EOF);
                },
            }
            proof {
                assert(b@.bytes =~= encode_record(rec@)->Ok_0);
            }
            Ok(b)
        },
        _ => {
            proof {
                assert(false);
            }
            Err(DrasilDNSError::Unknown)
        },
    }
}

/// Builds an NS or CNAME record: the shared host-name layout.
fn build_host_record(rec: &Record, domain: &Vec<Vec<u8>>, host: &Vec<Vec<u8>>, tcode: u16, class: RecordClass, ttl: u32) -> (r: Result<Buffer, DrasilDNSError>)
    requires
        tcode == 2 || tcode == 5,
        tcode == 2 ==> *rec == (Record::NS {
            domain: *domain,
            host: *host,
            ttl,
            class,
        }),
        tcode == 5 ==> *rec == (Record::CNAME {
            domain: *domain,
            host: *host,
            ttl,
            class,
        }),
    ensures
        match r {
            Ok(b) => encode_record(rec@) == Ok::<Seq<u8>, DrasilDNSError>(b@.bytes),
            Err(e) => match encode_record(rec@) {
                Err(e2) => e == e2,
                Ok(bytes) => e == DrasilDNSError::EOF && bytes.len() > usize::MAX,
            },
        },
{
    match check_labels(domain) {
        Some(sz) => {
            return Err(DrasilDNSError::LabelTooLarge { size: sz });
        },
        None => {},
    }
    match check_labels(host) {
        Some(sz) => {
            return Err(DrasilDNSError::LabelTooLarge { size: sz });
        },
        None => {},
    }
    proof {
        crate::labels::lemma_encode_labels_len(host.deep_view());
        crate::buffer::lemma_be_bytes_of_len(encode_labels(host.deep_view()).len() as int, 4);
    }
    let mut b = Buffer::with_capacity(0);
    b.set_expandable(true);
    match write_prefix(&mut b, domain, tcode, class, ttl) {
        Ok(()) => {},
        Err(_) => {
            return Err(DrasilDNSError::EOF);
        },
    }
    let lenpos: usize = b.pos();
    match b.write_u32(0) {
        Ok(()) => {},
        Err(_) => {
            return Err(DrasilDNSError::EOF);
        },
    }
    match b.write_labels(host) {
        Ok(_) => {},
        Err(_) => {
            return Err(DrasilDNSError::EOF);
        },
    }
    let patched = patch_len_u32(&mut b, lenpos);
    proof {
        crate::buffer::lemma_be_bytes_of_len(0, 4);
        crate::buffer::lemma_be_bytes_of_len(patched@, 4);
        assert(patched@ == encode_labels(host.deep_view()).len());
        assert(b@.bytes =~= encode_record(rec@)->Ok_0);
    }
    Ok(b)
}

/// Builds an OPT pseudo-record: an empty owner name, the EDNS(0) layout of
/// the generic fields, and the option run with a back-patched length.
#[verifier::loop_isolation(false)]
#[verifier::rlimit(100)]
fn build_opt_record(rec: &Record, udp_payload_size: u16, extended_rcode: u8, version: u8, dnssec_ok: bool, options: &Vec<EDNSOption>) -> (r: Result<Buffer, DrasilDNSError>)
    requires
        *rec == (Record::OPT {
            udp_payload_size,
            extended_rcode,
            version,
            dnssec_ok,
            options: *options,
        }),
    ensures
        match r {
            Ok(b) => encode_record(rec@) == Ok::<Seq<u8>, DrasilDNSError>(b@.bytes),
            Err(e) => match encode_record(rec@) {
                Err(e2) => e == e2,
                Ok(bytes) => e == DrasilDNSError::EOF && bytes.len() > usize::MAX,
            },
        },
{
    let ghost os = options.deep_view();

    // Validate every option first, so a later failure can only be a matter
    // of space.
    let mut ci: usize = 0;
    while ci < options.len()
        invariant
            ci <= os.len(),
            encode_options_seq(os, ci as int) is Ok,
        decreases os.len() - ci,
    {
        match check_option(&options[ci]) {
            Some(e) => {
                proof {
                    lemma_eos_err_at(os, ci as int);
                }
                return Err(e);
            },
            None => {},
        }
        proof {
            assert(options@[ci as int].deep_view() == os[ci as int]);
        }
        ci = ci + 1;
    }
    proof {
        assert(encode_options_seq(os, os.len() as int) is Ok);
    }
    let ghost all_opts = encode_options_seq(os, os.len() as int)->Ok_0;

    proof {
        crate::buffer::lemma_be_bytes_of_len(all_opts.len() as int, 2);
        crate::buffer::lemma_be_bytes_of_len(41, 2);
        crate::buffer::lemma_be_bytes_of_len(udp_payload_size as int, 2);
        crate::buffer::lemma_be_bytes_of_len(extended_rcode as int, 1);
        crate::buffer::lemma_be_bytes_of_len(version as int, 1);
        crate::buffer::lemma_be_bytes_of_len(if dnssec_ok { 0x8000int } else { 0int }, 2);
        crate::buffer::lemma_be_bytes_of_u8(0);
    }
    let mut b = Buffer::with_capacity(0);
    b.set_expandable(true);
    let flags: u16 = if dnssec_ok {
        0x8000
    } else {
        0
    };
    match b.write_u8(0) {
        Ok(()) => {},
        Err(_) => {
            proof {
                assert(false);
            }
            return Err(DrasilDNSError::Unknown);
        },
    }
    match b.write_u16(41) {
        Ok(()) => {},
        Err(_) => {
            proof {
                assert(false);
            }
            return Err(DrasilDNSError::Unknown);
        },
    }
    match b.write_u16(udp_payload_size) {
        Ok(()) => {},
        Err(_) => {
            proof {
                assert(false);
            }
            return Err(DrasilDNSError::Unknown);
        },
    }
    match b.write_u8(extended_rcode) {
        Ok(()) => {},
        Err(_) => {
            proof {
                assert(false);
            }
            return Err(DrasilDNSError::Unknown);
        },
    }
    match b.write_u8(version) {
        Ok(()) => {},
        Err(_) => {
            proof {
                assert(false);
            }
            return Err(DrasilDNSError::Unknown);
        },
    }
    match b.write_u16(flags) {
        Ok(()) => {},
        Err(_) => {
            proof {
                assert(false);
            }
            return Err(DrasilDNSError::Unknown);
        },
    }
    let lenpos: usize = b.pos();
    match b.write_u16(0) {
        Ok(()) => {},
        Err(_) => {
            proof {
                assert(false);
            }
            return Err(DrasilDNSError::Unknown);
        },
    }
    let ghost head = b@.bytes;

    let mut k: usize = 0;
    while k < options.len()
        invariant
            options.deep_view() == os,
            k <= os.len(),
            encode_options_seq(os, os.len() as int) is Ok,
            all_opts == encode_options_seq(os, os.len() as int)->Ok_0,
            encode_options_seq(os, k as int) is Ok,
            b@.expandable,
            b@.pos == b@.bytes.len(),
            b@.bytes == head + encode_options_seq(os, k as int)->Ok_0,
            head.len() == lenpos + 2,
        decreases os.len() - k,
    {
        proof {
            lemma_eos_prefix_ok(os, k as int, os.len() as int);
            lemma_eos_prefix_ok(os, k as int + 1, os.len() as int);
            assert(options@[k as int].deep_view() == os[k as int]);
        }
        match options[k].write_bytes(&mut b) {
            Ok(()) => {},
            Err(_) => {
                proof {
                    match encode_option(os[k as int]) {
                        Ok(ob) => {
                            assert(encode_options_seq(os, k as int + 1)->Ok_0
                                =~= encode_options_seq(os, k as int)->Ok_0 + ob);
                            assert(all_opts.len() >= encode_options_seq(
                                os,
                                k as int + 1,
                            )->Ok_0.len());
                            assert(encode_record(rec@)->Ok_0.len() >= head.len()
                                + encode_options_seq(os, k as int)->Ok_0.len() + ob.len());
                        },
                        Err(_) => {
                            assert(false);
                        },
                    }
                }
                return Err(DrasilDNSError::EOF);
            },
        }
        proof {
            assert(encode_options_seq(os, k as int + 1)->Ok_0 =~= encode_options_seq(
                os,
                k as int,
            )->Ok_0 + encode_option(os[k as int])->Ok_0);
            assert(b@.bytes =~= head + encode_options_seq(os, k as int + 1)->Ok_0);
        }
        k = k + 1;
    }
    let patched = patch_len_u16(&mut b, lenpos);
    proof {
        crate::buffer::lemma_be_bytes_of_len(0, 2);
        crate::buffer::lemma_be_bytes_of_len(patched@, 2);
        assert(patched@ == all_opts.len());
        assert(b@.bytes =~= encode_record(rec@)->Ok_0);
    }
    Ok(b)
}

/// A run of options whose prefix encodes but whose next option does not
/// fails as a whole with that option's error.
proof fn lemma_eos_err_at(os: Seq<EDNSOptionModel>, k: int)
    requires
        0 <= k < os.len(),
        encode_options_seq(os, k) is Ok,
        encode_option(os[k]) is Err,
    ensures
        encode_options_seq(os, os.len() as int) == Err::<Seq<u8>, DrasilDNSError>(
            encode_option(os[k])->Err_0,
        ),
    decreases os.len() - k,
{
    lemma_eos_err_from(os, k + 1, encode_option(os[k])->Err_0);
}

proof fn lemma_eos_err_from(os: Seq<EDNSOptionModel>, j: int, e: DrasilDNSError)
    requires
        0 < j <= os.len(),
        encode_options_seq(os, j) == Err::<Seq<u8>, DrasilDNSError>(e),
    ensures
        encode_options_seq(os, os.len() as int) == Err::<Seq<u8>, DrasilDNSError>(e),
    decreases os.len() - j,
{
    if j < os.len() {
        lemma_eos_err_from(os, j + 1, e);
    }
}


/// A name in canonical form: wire-sized labels already lowercase, so the
/// decoder's case fold returns it unchanged.
pub open spec fn name_canon(ls: Seq<Seq<u8>>) -> bool {
    &&& crate::labels::labels_wire_valid(ls)
    &&& crate::labels::lower_labels(ls) == ls
}

/// A class in canonical form: its enumeration variant is the one its code
/// decodes to.
pub open spec fn class_canon(c: RecordClass) -> bool {
    record_class_of(record_class_code(c)) == c
}

/// A record whose value survives an encode-decode round trip: names
/// canonical, open-enumeration variants canonical, declared lengths equal
/// to the values they frame, and variable fields within their wire widths.
pub open spec fn record_round_trip_valid(m: RecordModel) -> bool {
    match m {
        RecordModel::Unknown { domain, ttl, len, record_type, class, data } => {
            &&& name_canon(domain)
            &&& class_canon(class)
            &&& record_type_of(record_type) is Unknown
            &&& len == data.len()
        },
        RecordModel::A { domain, addr, ttl, class } => name_canon(domain) && class_canon(class),
        RecordModel::NS { domain, host, ttl, class } => name_canon(domain) && name_canon(host)
            && class_canon(class),
        RecordModel::CNAME { domain, host, ttl, class } => name_canon(domain) && name_canon(host)
            && class_canon(class),
        RecordModel::MX { domain, priority, host, ttl, class } => name_canon(domain) && name_canon(
            host,
        ) && class_canon(class),
        RecordModel::AAAA { domain, addr, ttl, class } => name_canon(domain) && class_canon(class),
        RecordModel::OPT { udp_payload_size, extended_rcode, version, dnssec_ok, options } => {
            &&& forall|k: int|
                0 <= k < options.len() ==> crate::record::edns::option_round_trip_valid(
                    #[trigger] options[k],
                )
            &&& options.len() >= 1
            &&& encode_options_seq(options, options.len() as int) is Ok
            &&& 2 <= encode_options_seq(options, options.len() as int)->Ok_0.len() <= 65535
        },
        RecordModel::DS { domain, class, ttl, key_tag, algorithm, digest_type, digest } => {
            &&& name_canon(domain)
            &&& class_canon(class)
            &&& dnssec_algorithm_of(dnssec_algorithm_code(algorithm)) == algorithm
            &&& dnssec_digest_type_of(dnssec_digest_type_code(digest_type)) == digest_type
            &&& 4 + digest.len() < 0x100000000
        },
        RecordModel::DNSKEY {
            domain,
            class,
            ttl,
            is_secure_entry_point,
            is_zone_key,
            protocol,
            algorithm,
            public_key,
        } => {
            &&& name_canon(domain)
            &&& class_canon(class)
            &&& dnssec_algorithm_of(dnssec_algorithm_code(algorithm)) == algorithm
            &&& 4 + public_key.len() < 0x100000000
        },
        RecordModel::NSEC3PARAM {
            domain,
            class,
            ttl,
            hash_algorithm,
            flags,
            iterations,
            salt_length,
            salt,
        } => {
            &&& name_canon(domain)
            &&& class_canon(class)
            &&& flags == 0
            &&& salt.len() == salt_length
        },
        RecordModel::RRSIG {
            domain,
            class,
            ttl,
            type_covered,
            algorithm,
            labels,
            original_ttl,
            signature_expiration,
            signature_inception,
            key_tag,
            signer_name,
            signature,
        } => {
            &&& name_canon(domain)
            &&& name_canon(signer_name)
            &&& class_canon(class)
            &&& dnssec_algorithm_of(dnssec_algorithm_code(algorithm)) == algorithm
            &&& 18 + encode_labels(signer_name).len() + signature.len() < 0x100000000
        },
        RecordModel::NSEC { domain, class, ttl, next_domain_name, record_types } => {
            &&& name_canon(domain)
            &&& name_canon(next_domain_name)
            &&& class_canon(class)
            &&& forall|c: u16|
                #[trigger] record_types.contains(c) ==> !(record_type_of(c) is Unknown)
            &&& encode_labels(next_domain_name).len() + tb_encode(record_types).len()
                < 0x100000000
        },
        RecordModel::NSEC3 {
            domain,
            class,
            ttl,
            hash_algorithm,
            opt_out,
            iterations,
            salt_length,
            salt,
            hash_length,
            next_hashed_owner_name,
            record_types,
        } => {
            &&& name_canon(domain)
            &&& class_canon(class)
            &&& salt.len() == salt_length
            &&& next_hashed_owner_name.len() == hash_length
            &&& forall|c: u16|
                #[trigger] record_types.contains(c) ==> !(record_type_of(c) is Unknown)
            &&& 6 + salt.len() + next_hashed_owner_name.len() + tb_encode(record_types).len()
                < 0x100000000
        },
    }
}

/// Reading the generic record head from an encoded record recovers the
/// name, type, class and time-to-live it was written with, and leaves the
/// RDATA bytes in place after them.
proof fn lemma_record_prelude(data: Seq<u8>, p: int, dom: Seq<Seq<u8>>, tcode: u16, class: RecordClass, ttl: u32, rest: Seq<u8>)
    requires
        name_canon(dom),
        0 <= p,
        p + record_prefix(dom, tcode, class, ttl).len() + rest.len() <= data.len(),
        data.subrange(p, p + record_prefix(dom, tcode, class, ttl).len() + rest.len())
            == record_prefix(dom, tcode, class, ttl) + rest,
    ensures
        labels_walk(data, p, 0, true) == Ok::<crate::labels::LabelsWalk, DrasilDNSError>(
            crate::labels::LabelsWalk {
                labels: dom,
                end: p + encode_labels(dom).len(),
                jumped: false,
            },
        ),
        record_prefix(dom, tcode, class, ttl).len() == encode_labels(dom).len() + 8,
        be_val(data.subrange(p + encode_labels(dom).len(), p + encode_labels(dom).len() + 2))
            == tcode,
        be_val(
            data.subrange(p + encode_labels(dom).len() + 2, p + encode_labels(dom).len() + 4),
        ) == record_class_code(class),
        be_val(
            data.subrange(p + encode_labels(dom).len() + 4, p + encode_labels(dom).len() + 8),
        ) == ttl,
        data.subrange(
            p + encode_labels(dom).len() + 8,
            p + encode_labels(dom).len() + 8 + rest.len(),
        ) == rest,
{
    let el = encode_labels(dom);
    let pre = record_prefix(dom, tcode, class, ttl);
    crate::buffer::lemma_pow256_values();
    crate::buffer::lemma_be_bytes_of_len(tcode as int, 2);
    crate::buffer::lemma_be_bytes_of_len(record_class_code(class) as int, 2);
    crate::buffer::lemma_be_bytes_of_len(ttl as int, 4);
    assert(pre.len() == el.len() + 8);
    let sub = data.subrange(p, p + pre.len() + rest.len());

    assert(data.subrange(p, p + el.len()) =~= sub.subrange(0, el.len() as int));
    assert((pre + rest).subrange(0, el.len() as int) =~= el);
    crate::labels::lemma_labels_round_trip(data, p, 0, dom, true);

    let w_end = p + el.len();
    assert(data.subrange(w_end, w_end + 2) =~= sub.subrange(el.len() as int, el.len() + 2int));
    assert((pre + rest).subrange(el.len() as int, el.len() + 2int) =~= be_bytes_of(
        tcode as int,
        2,
    ));
    crate::buffer::lemma_be_val_of_be_bytes(tcode as int, 2);

    assert(data.subrange(w_end + 2, w_end + 4) =~= sub.subrange(el.len() + 2int, el.len() + 4int));
    assert((pre + rest).subrange(el.len() + 2int, el.len() + 4int) =~= be_bytes_of(
        record_class_code(class) as int,
        2,
    ));
    crate::buffer::lemma_be_val_of_be_bytes(record_class_code(class) as int, 2);

    assert(data.subrange(w_end + 4, w_end + 8) =~= sub.subrange(el.len() + 4int, el.len() + 8int));
    assert((pre + rest).subrange(el.len() + 4int, el.len() + 8int) =~= be_bytes_of(ttl as int, 4));
    crate::buffer::lemma_be_val_of_be_bytes(ttl as int, 4);

    assert(data.subrange(w_end + 8, w_end + 8 + rest.len()) =~= sub.subrange(
        el.len() + 8int,
        el.len() + 8 + rest.len() as int,
    ));
    assert((pre + rest).subrange(el.len() + 8int, el.len() + 8 + rest.len() as int) =~= rest);
}


/// An option run's encoding is its first option's encoding followed by
/// the rest's.
proof fn lemma_eos_shift(os: Seq<EDNSOptionModel>, i: int)
    requires
        1 <= i <= os.len(),
        encode_options_seq(os, i) is Ok,
    ensures
        encode_options_seq(os.drop_first(), i - 1) is Ok,
        encode_option(os[0]) is Ok,
        encode_options_seq(os, i)->Ok_0 == encode_option(os[0])->Ok_0 + encode_options_seq(
            os.drop_first(),
            i - 1,
        )->Ok_0,
    decreases i,
{
    let tail = os.drop_first();
    if i == 1 {
        assert(encode_options_seq(os, 0) == Ok::<Seq<u8>, DrasilDNSError>(Seq::empty()));
        assert(encode_options_seq(tail, 0) == Ok::<Seq<u8>, DrasilDNSError>(Seq::empty()));
        assert(encode_options_seq(os, 1)->Ok_0 =~= encode_option(os[0])->Ok_0
            + encode_options_seq(tail, 0)->Ok_0);
    } else {
        assert(encode_options_seq(os, i - 1) is Ok) by {
            assert(encode_options_seq(os, i) is Ok);
        }
        lemma_eos_shift(os, i - 1);
        assert(tail[i - 2] == os[i - 1]);
        assert(encode_options_seq(os, i)->Ok_0 =~= encode_option(os[0])->Ok_0
            + encode_options_seq(tail, i - 1)->Ok_0);
    }
}

/// Two byte runs written one after the other read back as themselves.
proof fn lemma_subrange_split(data: Seq<u8>, pos: int, a: Seq<u8>, b: Seq<u8>)
    requires
        0 <= pos,
        pos + a.len() + b.len() <= data.len(),
        data.subrange(pos, pos + a.len() + b.len()) == a + b,
    ensures
        data.subrange(pos, pos + a.len() as int) == a,
        data.subrange(pos + a.len(), pos + a.len() + b.len()) == b,
{
    assert(data.subrange(pos, pos + a.len() as int) =~= data.subrange(
        pos,
        pos + a.len() + b.len(),
    ).subrange(0, a.len() as int));
    assert((a + b).subrange(0, a.len() as int) =~= a);
    assert(data.subrange(pos + a.len(), pos + a.len() + b.len()) =~= data.subrange(
        pos,
        pos + a.len() + b.len(),
    ).subrange(a.len() as int, a.len() + b.len() as int));
    assert((a + b).subrange(a.len() as int, a.len() + b.len() as int) =~= b);
}

/// A run of valid options written one after the other and read back until
/// its length is consumed is itself.
#[verifier::rlimit(100)]
pub proof fn lemma_options_round_trip(data: Seq<u8>, pos: int, os: Seq<EDNSOptionModel>, fuel: nat)
    requires
        forall|k: int|
            0 <= k < os.len() ==> crate::record::edns::option_round_trip_valid(#[trigger] os[k]),
        encode_options_seq(os, os.len() as int) is Ok,
        0 <= pos,
        pos + encode_options_seq(os, os.len() as int)->Ok_0.len() <= data.len(),
        pos + encode_options_seq(os, os.len() as int)->Ok_0.len() <= usize::MAX,
        data.subrange(pos, pos + encode_options_seq(os, os.len() as int)->Ok_0.len())
            == encode_options_seq(os, os.len() as int)->Ok_0,
        fuel >= encode_options_seq(os, os.len() as int)->Ok_0.len() + 1,
    ensures
        parse_options_at(
            data,
            pos,
            pos + encode_options_seq(os, os.len() as int)->Ok_0.len(),
            fuel,
        ) == Ok::<(Seq<EDNSOptionModel>, int), DrasilDNSError>(
            (os, pos + encode_options_seq(os, os.len() as int)->Ok_0.len()),
        ),
    decreases os.len(),
{
    let ob = encode_options_seq(os, os.len() as int)->Ok_0;
    if os.len() == 0 {
        assert(ob =~= Seq::<u8>::empty());
        assert(os =~= Seq::<EDNSOptionModel>::empty());
    } else {
        lemma_eos_shift(os, os.len() as int);
        let tail = os.drop_first();
        let ob0 = encode_option(os[0])->Ok_0;
        let obt = encode_options_seq(tail, tail.len() as int)->Ok_0;
        assert(tail.len() == os.len() - 1);
        assert(ob == ob0 + obt);
        lemma_subrange_split(data, pos, ob0, obt);
        crate::record::edns::lemma_option_round_trip(data, pos, os[0]);
        let pos2 = pos + ob0.len();
        assert(forall|k: int| 0 <= k < tail.len() ==> #[trigger] tail[k] == os[k + 1]);
        lemma_options_round_trip(data, pos2, tail, (fuel - 1) as nat);
        assert(pos2 + obt.len() == pos + ob.len());
        assert(parse_options_at(data, pos2, pos + ob.len(), (fuel - 1) as nat) == Ok::<
            (Seq<EDNSOptionModel>, int),
            DrasilDNSError,
        >((tail, pos + ob.len())));
        assert(pos < pos + ob.len());
        assert(fuel != 0);
        assert(parse_option_at(data, pos) == Ok::<(EDNSOptionModel, int), DrasilDNSError>(
            (os[0], pos2),
        ));
        assert(parse_options_at(data, pos, pos + ob.len(), fuel) == Ok::<
            (Seq<EDNSOptionModel>, int),
            DrasilDNSError,
        >((seq![os[0]] + tail, pos + ob.len())));
        assert(seq![os[0]] + tail =~= os);
    }
}


/// A valid record written and read back is itself, and the read stops
/// exactly where the write ended, from anywhere inside a larger message.
pub proof fn lemma_record_round_trip(data: Seq<u8>, p: int, m: RecordModel)
    requires
        record_round_trip_valid(m),
        encode_record(m) is Ok,
        0 <= p,
        p + encode_record(m)->Ok_0.len() <= data.len(),
        p + encode_record(m)->Ok_0.len() <= usize::MAX,
        data.subrange(p, p + encode_record(m)->Ok_0.len()) == encode_record(m)->Ok_0,
    ensures
        parse_record_at(data, p) == Ok::<(Option<RecordModel>, int), DrasilDNSError>(
            (Some(m), p + encode_record(m)->Ok_0.len()),
        ),
{
    match m {
        RecordModel::Unknown { .. } => lemma_unknown_round_trip(data, p, m),
        RecordModel::A { .. } => lemma_a_round_trip(data, p, m),
        RecordModel::NS { .. } => lemma_host_round_trip(data, p, m),
        RecordModel::CNAME { .. } => lemma_host_round_trip(data, p, m),
        RecordModel::MX { .. } => lemma_mx_round_trip(data, p, m),
        RecordModel::AAAA { .. } => lemma_aaaa_round_trip(data, p, m),
        RecordModel::OPT { .. } => lemma_opt_round_trip(data, p, m),
        RecordModel::DS { .. } => lemma_ds_round_trip(data, p, m),
        RecordModel::DNSKEY { .. } => lemma_dnskey_round_trip(data, p, m),
        RecordModel::NSEC3PARAM { .. } => lemma_nsec3param_round_trip(data, p, m),
        RecordModel::RRSIG { .. } => lemma_rrsig_round_trip(data, p, m),
        RecordModel::NSEC { .. } => lemma_nsec_round_trip(data, p, m),
        RecordModel::NSEC3 { .. } => lemma_nsec3_round_trip(data, p, m),
    }
}

#[verifier::rlimit(100)]
proof fn lemma_rrsig_round_trip(data: Seq<u8>, p: int, m: RecordModel)
    requires
        m is RRSIG,
        record_round_trip_valid(m),
        encode_record(m) is Ok,
        0 <= p,
        p + encode_record(m)->Ok_0.len() <= data.len(),
        p + encode_record(m)->Ok_0.len() <= usize::MAX,
        data.subrange(p, p + encode_record(m)->Ok_0.len()) == encode_record(m)->Ok_0,
    ensures
        parse_record_at(data, p) == Ok::<(Option<RecordModel>, int), DrasilDNSError>(
            (Some(m), p + encode_record(m)->Ok_0.len()),
        ),
{
    let e = encode_record(m)->Ok_0;
    crate::buffer::lemma_pow256_values();
    match m {
        RecordModel::RRSIG {
            domain,
            class,
            ttl,
            type_covered,
            algorithm,
            labels,
            original_ttl,
            signature_expiration,
            signature_inception,
            key_tag,
            signer_name,
            signature,
        } => {
            let el = encode_labels(domain);
            let es = encode_labels(signer_name);
            let ac = dnssec_algorithm_code(algorithm);
            let rdl: int = (18 + es.len() + signature.len()) as int;
            crate::buffer::lemma_be_bytes_of_len(rdl, 4);
            crate::buffer::lemma_be_bytes_of_len(type_covered as int, 2);
            crate::buffer::lemma_be_bytes_of_len(ac as int, 1);
            crate::buffer::lemma_be_bytes_of_len(labels as int, 1);
            crate::buffer::lemma_be_bytes_of_len(original_ttl as int, 4);
            crate::buffer::lemma_be_bytes_of_len(signature_expiration as int, 4);
            crate::buffer::lemma_be_bytes_of_len(signature_inception as int, 4);
            crate::buffer::lemma_be_bytes_of_len(key_tag as int, 2);
            let fixed = be_bytes_of(type_covered as int, 2) + (be_bytes_of(ac as int, 1)
                + (be_bytes_of(labels as int, 1) + (be_bytes_of(original_ttl as int, 4)
                + (be_bytes_of(signature_expiration as int, 4) + (be_bytes_of(
                signature_inception as int,
                4,
            ) + be_bytes_of(key_tag as int, 2))))));
            let rest = be_bytes_of(rdl, 4) + (fixed + (es + signature));
            assert(e =~= record_prefix(domain, 46, class, ttl) + rest);
            lemma_record_prelude(data, p, domain, 46, class, ttl, rest);
            let q = p + el.len() + 12;
            lemma_subrange_split(data, p + el.len() + 8, be_bytes_of(rdl, 4), fixed + (es
                + signature));
            crate::buffer::lemma_be_val_of_be_bytes(rdl, 4);
            assert(data.subrange(q, q + 2 + (16 + (es + signature).len() as int)) =~= be_bytes_of(
                type_covered as int,
                2,
            ) + (be_bytes_of(ac as int, 1) + (be_bytes_of(labels as int, 1) + (be_bytes_of(
                original_ttl as int,
                4,
            ) + (be_bytes_of(signature_expiration as int, 4) + (be_bytes_of(
                signature_inception as int,
                4,
            ) + (be_bytes_of(key_tag as int, 2) + (es + signature)))))))) by {
                assert(data.subrange(q, q + (fixed + (es + signature)).len()) == fixed + (es
                    + signature));
            }
            lemma_subrange_split(data, q, be_bytes_of(type_covered as int, 2), be_bytes_of(
                ac as int,
                1,
            ) + (be_bytes_of(labels as int, 1) + (be_bytes_of(original_ttl as int, 4)
                + (be_bytes_of(signature_expiration as int, 4) + (be_bytes_of(
                signature_inception as int,
                4,
            ) + (be_bytes_of(key_tag as int, 2) + (es + signature)))))));
            crate::buffer::lemma_be_val_of_be_bytes(type_covered as int, 2);
            lemma_subrange_split(data, q + 2, be_bytes_of(ac as int, 1), be_bytes_of(
                labels as int,
                1,
            ) + (be_bytes_of(original_ttl as int, 4) + (be_bytes_of(
                signature_expiration as int,
                4,
            ) + (be_bytes_of(signature_inception as int, 4) + (be_bytes_of(key_tag as int, 2)
                + (es + signature))))));
            crate::buffer::lemma_be_val_one_byte(data.subrange(q + 2, q + 3));
            crate::buffer::lemma_be_bytes_of_u8(ac);
            assert(data[q + 2] == ac);
            lemma_subrange_split(data, q + 3, be_bytes_of(labels as int, 1), be_bytes_of(
                original_ttl as int,
                4,
            ) + (be_bytes_of(signature_expiration as int, 4) + (be_bytes_of(
                signature_inception as int,
                4,
            ) + (be_bytes_of(key_tag as int, 2) + (es + signature)))));
            crate::buffer::lemma_be_val_one_byte(data.subrange(q + 3, q + 4));
            crate::buffer::lemma_be_bytes_of_u8(labels);
            assert(data[q + 3] == labels);
            lemma_subrange_split(data, q + 4, be_bytes_of(original_ttl as int, 4), be_bytes_of(
                signature_expiration as int,
                4,
            ) + (be_bytes_of(signature_inception as int, 4) + (be_bytes_of(key_tag as int, 2)
                + (es + signature))));
            crate::buffer::lemma_be_val_of_be_bytes(original_ttl as int, 4);
            lemma_subrange_split(data, q + 8, be_bytes_of(signature_expiration as int, 4),
                be_bytes_of(signature_inception as int, 4) + (be_bytes_of(key_tag as int, 2) + (es
                + signature)));
            crate::buffer::lemma_be_val_of_be_bytes(signature_expiration as int, 4);
            lemma_subrange_split(data, q + 12, be_bytes_of(signature_inception as int, 4),
                be_bytes_of(key_tag as int, 2) + (es + signature));
            crate::buffer::lemma_be_val_of_be_bytes(signature_inception as int, 4);
            lemma_subrange_split(data, q + 16, be_bytes_of(key_tag as int, 2), es + signature);
            crate::buffer::lemma_be_val_of_be_bytes(key_tag as int, 2);
            lemma_subrange_split(data, q + 18, es, signature);
            crate::labels::lemma_labels_round_trip(data, q + 18, 0, signer_name, false);
        },
        _ => {
            assert(false);
        },
    }
}

#[verifier::rlimit(100)]
proof fn lemma_nsec_round_trip(data: Seq<u8>, p: int, m: RecordModel)
    requires
        m is NSEC,
        record_round_trip_valid(m),
        encode_record(m) is Ok,
        0 <= p,
        p + encode_record(m)->Ok_0.len() <= data.len(),
        p + encode_record(m)->Ok_0.len() <= usize::MAX,
        data.subrange(p, p + encode_record(m)->Ok_0.len()) == encode_record(m)->Ok_0,
    ensures
        parse_record_at(data, p) == Ok::<(Option<RecordModel>, int), DrasilDNSError>(
            (Some(m), p + encode_record(m)->Ok_0.len()),
        ),
{
    let e = encode_record(m)->Ok_0;
    crate::buffer::lemma_pow256_values();
    match m {
        RecordModel::NSEC { domain, class, ttl, next_domain_name, record_types } => {
            let el = encode_labels(domain);
            let en = encode_labels(next_domain_name);
            let tb = tb_encode(record_types);
            let rdl: int = (en.len() + tb.len()) as int;
            crate::buffer::lemma_be_bytes_of_len(rdl, 4);
            let rest = be_bytes_of(rdl, 4) + (en + tb);
            assert(e =~= record_prefix(domain, 47, class, ttl) + rest);
            lemma_record_prelude(data, p, domain, 47, class, ttl, rest);
            let q = p + el.len() + 12;
            lemma_subrange_split(data, p + el.len() + 8, be_bytes_of(rdl, 4), en + tb);
            crate::buffer::lemma_be_val_of_be_bytes(rdl, 4);
            lemma_subrange_split(data, q, en, tb);
            crate::labels::lemma_labels_round_trip(data, q, 0, next_domain_name, false);
            crate::types::lemma_type_bitmaps_round_trip(record_types);
            assert(data.subrange(q + en.len(), q + en.len() + tb.len()) == tb);
            match tb_decode(tb, 0, false) {
                Ok(s) => {
                    assert(known_codes(s) == record_types);
                },
                Err(_) => {
                    assert(false);
                },
            }
        },
        _ => {
            assert(false);
        },
    }
}

#[verifier::spinoff_prover]
#[verifier::rlimit(100)]
proof fn lemma_nsec3_round_trip(data: Seq<u8>, p: int, m: RecordModel)
    requires
        m is NSEC3,
        record_round_trip_valid(m),
        encode_record(m) is Ok,
        0 <= p,
        p + encode_record(m)->Ok_0.len() <= data.len(),
        p + encode_record(m)->Ok_0.len() <= usize::MAX,
        data.subrange(p, p + encode_record(m)->Ok_0.len()) == encode_record(m)->Ok_0,
    ensures
        parse_record_at(data, p) == Ok::<(Option<RecordModel>, int), DrasilDNSError>(
            (Some(m), p + encode_record(m)->Ok_0.len()),
        ),
{
    let e = encode_record(m)->Ok_0;
    crate::buffer::lemma_pow256_values();
    match m {
        RecordModel::NSEC3 {
            domain,
            class,
            ttl,
            hash_algorithm,
            opt_out,
            iterations,
            salt_length,
            salt,
            hash_length,
            next_hashed_owner_name,
            record_types,
        } => {
            let el = encode_labels(domain);
            let tb = tb_encode(record_types);
            let oflag: int = if opt_out { 128int } else { 0int };
            let rdl: int = (6 + salt.len() + next_hashed_owner_name.len() + tb.len()) as int;
            crate::buffer::lemma_be_bytes_of_len(rdl, 4);
            crate::buffer::lemma_be_bytes_of_len(hash_algorithm as int, 1);
            crate::buffer::lemma_be_bytes_of_len(oflag, 1);
            crate::buffer::lemma_be_bytes_of_len(iterations as int, 2);
            crate::buffer::lemma_be_bytes_of_len(salt_length as int, 1);
            crate::buffer::lemma_be_bytes_of_len(hash_length as int, 1);
            let rest = be_bytes_of(rdl, 4) + (be_bytes_of(hash_algorithm as int, 1)
                + (be_bytes_of(oflag, 1) + (be_bytes_of(iterations as int, 2) + (be_bytes_of(
                salt_length as int,
                1,
            ) + (salt + (be_bytes_of(hash_length as int, 1) + (next_hashed_owner_name
                + tb)))))));
            assert(e =~= record_prefix(domain, 50, class, ttl) + rest);
            lemma_record_prelude(data, p, domain, 50, class, ttl, rest);
            let q = p + el.len() + 12;
            lemma_subrange_split(data, p + el.len() + 8, be_bytes_of(rdl, 4), be_bytes_of(
                hash_algorithm as int,
                1,
            ) + (be_bytes_of(oflag, 1) + (be_bytes_of(iterations as int, 2) + (be_bytes_of(
                salt_length as int,
                1,
            ) + (salt + (be_bytes_of(hash_length as int, 1) + (next_hashed_owner_name + tb)))))));
            crate::buffer::lemma_be_val_of_be_bytes(rdl, 4);
            lemma_subrange_split(data, q, be_bytes_of(hash_algorithm as int, 1), be_bytes_of(
                oflag,
                1,
            ) + (be_bytes_of(iterations as int, 2) + (be_bytes_of(salt_length as int, 1) + (salt
                + (be_bytes_of(hash_length as int, 1) + (next_hashed_owner_name + tb))))));
            crate::buffer::lemma_be_val_one_byte(data.subrange(q, q + 1));
            crate::buffer::lemma_be_bytes_of_u8(hash_algorithm);
            assert(data[q] == hash_algorithm);
            lemma_subrange_split(data, q + 1, be_bytes_of(oflag, 1), be_bytes_of(
                iterations as int,
                2,
            ) + (be_bytes_of(salt_length as int, 1) + (salt + (be_bytes_of(hash_length as int, 1)
                + (next_hashed_owner_name + tb)))));
            crate::buffer::lemma_be_val_one_byte(data.subrange(q + 1, q + 2));
            crate::buffer::lemma_be_bytes_of_u8((oflag) as u8);
            assert(data[q + 1] == oflag);
            lemma_subrange_split(data, q + 2, be_bytes_of(iterations as int, 2), be_bytes_of(
                salt_length as int,
                1,
            ) + (salt + (be_bytes_of(hash_length as int, 1) + (next_hashed_owner_name + tb))));
            crate::buffer::lemma_be_val_of_be_bytes(iterations as int, 2);
            lemma_subrange_split(data, q + 4, be_bytes_of(salt_length as int, 1), salt
                + (be_bytes_of(hash_length as int, 1) + (next_hashed_owner_name + tb)));
            crate::buffer::lemma_be_val_one_byte(data.subrange(q + 4, q + 5));
            crate::buffer::lemma_be_bytes_of_u8(salt_length);
            assert(data[q + 4] == salt_length);
            lemma_subrange_split(data, q + 5, salt, be_bytes_of(hash_length as int, 1)
                + (next_hashed_owner_name + tb));
            let h = q + 5 + salt.len();
            lemma_subrange_split(data, h, be_bytes_of(hash_length as int, 1),
                next_hashed_owner_name + tb);
            crate::buffer::lemma_be_val_one_byte(data.subrange(h, h + 1));
            crate::buffer::lemma_be_bytes_of_u8(hash_length);
            assert(data[h] == hash_length);
            lemma_subrange_split(data, h + 1, next_hashed_owner_name, tb);
            crate::types::lemma_type_bitmaps_round_trip(record_types);
            let hend = h + 1 + next_hashed_owner_name.len();
            assert(data.subrange(hend, hend + tb.len()) == tb);
            match tb_decode(tb, 0, false) {
                Ok(s) => {
                    assert(known_codes(s) == record_types);
                },
                Err(_) => {
                    assert(false);
                },
            }
        },
        _ => {
            assert(false);
        },
    }
}

proof fn lemma_unknown_round_trip(data: Seq<u8>, p: int, m: RecordModel)
    requires
        m is Unknown,
        record_round_trip_valid(m),
        encode_record(m) is Ok,
        0 <= p,
        p + encode_record(m)->Ok_0.len() <= data.len(),
        p + encode_record(m)->Ok_0.len() <= usize::MAX,
        data.subrange(p, p + encode_record(m)->Ok_0.len()) == encode_record(m)->Ok_0,
    ensures
        parse_record_at(data, p) == Ok::<(Option<RecordModel>, int), DrasilDNSError>(
            (Some(m), p + encode_record(m)->Ok_0.len()),
        ),
{
    let e = encode_record(m)->Ok_0;
    crate::buffer::lemma_pow256_values();
    match m {
        RecordModel::Unknown { domain, ttl, len, record_type, class, data: od } => {
            let el = encode_labels(domain);
            crate::buffer::lemma_be_bytes_of_len(len as int, 4);
            let rest = be_bytes_of(len as int, 4) + od;
            assert(e =~= record_prefix(domain, record_type, class, ttl) + rest);
            lemma_record_prelude(data, p, domain, record_type, class, ttl, rest);
            lemma_subrange_split(data, p + el.len() + 8, be_bytes_of(len as int, 4), od);
            crate::buffer::lemma_be_val_of_be_bytes(len as int, 4);
        },
        _ => {
            assert(false);
        },
    }
}

proof fn lemma_a_round_trip(data: Seq<u8>, p: int, m: RecordModel)
    requires
        m is A,
        record_round_trip_valid(m),
        encode_record(m) is Ok,
        0 <= p,
        p + encode_record(m)->Ok_0.len() <= data.len(),
        p + encode_record(m)->Ok_0.len() <= usize::MAX,
        data.subrange(p, p + encode_record(m)->Ok_0.len()) == encode_record(m)->Ok_0,
    ensures
        parse_record_at(data, p) == Ok::<(Option<RecordModel>, int), DrasilDNSError>(
            (Some(m), p + encode_record(m)->Ok_0.len()),
        ),
{
    let e = encode_record(m)->Ok_0;
    crate::buffer::lemma_pow256_values();
    match m {
        RecordModel::A { domain, addr, ttl, class } => {
            let el = encode_labels(domain);
            crate::buffer::lemma_be_bytes_of_len(4, 4);
            crate::buffer::lemma_be_bytes_of_len(addr as int, 4);
            let rest = be_bytes_of(4, 4) + be_bytes_of(addr as int, 4);
            assert(e =~= record_prefix(domain, 1, class, ttl) + rest);
            lemma_record_prelude(data, p, domain, 1, class, ttl, rest);
            lemma_subrange_split(
                data,
                p + el.len() + 8,
                be_bytes_of(4, 4),
                be_bytes_of(addr as int, 4),
            );
            crate::buffer::lemma_be_val_of_be_bytes(addr as int, 4);
        },
        _ => {
            assert(false);
        },
    }
}

proof fn lemma_host_round_trip(data: Seq<u8>, p: int, m: RecordModel)
    requires
        m is NS || m is CNAME,
        record_round_trip_valid(m),
        encode_record(m) is Ok,
        0 <= p,
        p + encode_record(m)->Ok_0.len() <= data.len(),
        p + encode_record(m)->Ok_0.len() <= usize::MAX,
        data.subrange(p, p + encode_record(m)->Ok_0.len()) == encode_record(m)->Ok_0,
    ensures
        parse_record_at(data, p) == Ok::<(Option<RecordModel>, int), DrasilDNSError>(
            (Some(m), p + encode_record(m)->Ok_0.len()),
        ),
{
    let e = encode_record(m)->Ok_0;
    crate::buffer::lemma_pow256_values();
    match m {
        RecordModel::NS { domain, host, ttl, class } => {
            let el = encode_labels(domain);
            let eh = encode_labels(host);
            crate::buffer::lemma_be_bytes_of_len(eh.len() as int, 4);
            let rest = be_bytes_of(eh.len() as int, 4) + eh;
            assert(e =~= record_prefix(domain, 2, class, ttl) + rest);
            lemma_record_prelude(data, p, domain, 2, class, ttl, rest);
            lemma_subrange_split(data, p + el.len() + 8, be_bytes_of(eh.len() as int, 4), eh);
            crate::labels::lemma_labels_round_trip(data, p + el.len() + 12, 0, host, true);
        },
        RecordModel::CNAME { domain, host, ttl, class } => {
            let el = encode_labels(domain);
            let eh = encode_labels(host);
            crate::buffer::lemma_be_bytes_of_len(eh.len() as int, 4);
            let rest = be_bytes_of(eh.len() as int, 4) + eh;
            assert(e =~= record_prefix(domain, 5, class, ttl) + rest);
            lemma_record_prelude(data, p, domain, 5, class, ttl, rest);
            lemma_subrange_split(data, p + el.len() + 8, be_bytes_of(eh.len() as int, 4), eh);
            crate::labels::lemma_labels_round_trip(data, p + el.len() + 12, 0, host, true);
        },
        _ => {
            assert(false);
        },
    }
}

proof fn lemma_mx_round_trip(data: Seq<u8>, p: int, m: RecordModel)
    requires
        m is MX,
        record_round_trip_valid(m),
        encode_record(m) is Ok,
        0 <= p,
        p + encode_record(m)->Ok_0.len() <= data.len(),
        p + encode_record(m)->Ok_0.len() <= usize::MAX,
        data.subrange(p, p + encode_record(m)->Ok_0.len()) == encode_record(m)->Ok_0,
    ensures
        parse_record_at(data, p) == Ok::<(Option<RecordModel>, int), DrasilDNSError>(
            (Some(m), p + encode_record(m)->Ok_0.len()),
        ),
{
    let e = encode_record(m)->Ok_0;
    crate::buffer::lemma_pow256_values();
    match m {
        RecordModel::MX { domain, priority, host, ttl, class } => {
            let el = encode_labels(domain);
            let eh = encode_labels(host);
            crate::buffer::lemma_be_bytes_of_len(2 + eh.len() as int, 4);
            crate::buffer::lemma_be_bytes_of_len(priority as int, 2);
            let rest = be_bytes_of(2 + eh.len() as int, 4) + (be_bytes_of(priority as int, 2)
                + eh);
            assert(e =~= record_prefix(domain, 15, class, ttl) + rest);
            lemma_record_prelude(data, p, domain, 15, class, ttl, rest);
            lemma_subrange_split(
                data,
                p + el.len() + 8,
                be_bytes_of(2 + eh.len() as int, 4),
                be_bytes_of(priority as int, 2) + eh,
            );
            lemma_subrange_split(data, p + el.len() + 12, be_bytes_of(priority as int, 2), eh);
            crate::buffer::lemma_be_val_of_be_bytes(priority as int, 2);
            crate::labels::lemma_labels_round_trip(data, p + el.len() + 14, 0, host, true);
        },
        _ => {
            assert(false);
        },
    }
}

proof fn lemma_aaaa_round_trip(data: Seq<u8>, p: int, m: RecordModel)
    requires
        m is AAAA,
        record_round_trip_valid(m),
        encode_record(m) is Ok,
        0 <= p,
        p + encode_record(m)->Ok_0.len() <= data.len(),
        p + encode_record(m)->Ok_0.len() <= usize::MAX,
        data.subrange(p, p + encode_record(m)->Ok_0.len()) == encode_record(m)->Ok_0,
    ensures
        parse_record_at(data, p) == Ok::<(Option<RecordModel>, int), DrasilDNSError>(
            (Some(m), p + encode_record(m)->Ok_0.len()),
        ),
{
    let e = encode_record(m)->Ok_0;
    crate::buffer::lemma_pow256_values();
    match m {
        RecordModel::AAAA { domain, addr, ttl, class } => {
            let el = encode_labels(domain);
            crate::buffer::lemma_be_bytes_of_len(16, 4);
            crate::buffer::lemma_be_bytes_of_len(addr as int, 16);
            let rest = be_bytes_of(16, 4) + be_bytes_of(addr as int, 16);
            assert(e =~= record_prefix(domain, 28, class, ttl) + rest);
            lemma_record_prelude(data, p, domain, 28, class, ttl, rest);
            lemma_subrange_split(
                data,
                p + el.len() + 8,
                be_bytes_of(16, 4),
                be_bytes_of(addr as int, 16),
            );
            crate::buffer::lemma_be_val_of_be_bytes(addr as int, 16);
        },
        _ => {
            assert(false);
        },
    }
}

proof fn lemma_ds_round_trip(data: Seq<u8>, p: int, m: RecordModel)
    requires
        m is DS,
        record_round_trip_valid(m),
        encode_record(m) is Ok,
        0 <= p,
        p + encode_record(m)->Ok_0.len() <= data.len(),
        p + encode_record(m)->Ok_0.len() <= usize::MAX,
        data.subrange(p, p + encode_record(m)->Ok_0.len()) == encode_record(m)->Ok_0,
    ensures
        parse_record_at(data, p) == Ok::<(Option<RecordModel>, int), DrasilDNSError>(
            (Some(m), p + encode_record(m)->Ok_0.len()),
        ),
{
    let e = encode_record(m)->Ok_0;
    crate::buffer::lemma_pow256_values();
    match m {
        RecordModel::DS { domain, class, ttl, key_tag, algorithm, digest_type, digest } => {
            let el = encode_labels(domain);
            let ac = dnssec_algorithm_code(algorithm);
            let dc = dnssec_digest_type_code(digest_type);
            crate::buffer::lemma_be_bytes_of_len(4 + digest.len() as int, 4);
            crate::buffer::lemma_be_bytes_of_len(key_tag as int, 2);
            crate::buffer::lemma_be_bytes_of_len(ac as int, 1);
            crate::buffer::lemma_be_bytes_of_len(dc as int, 1);
            let rest = be_bytes_of(4 + digest.len() as int, 4) + (be_bytes_of(key_tag as int, 2)
                + (be_bytes_of(ac as int, 1) + (be_bytes_of(dc as int, 1) + digest)));
            assert(e =~= record_prefix(domain, 43, class, ttl) + rest);
            lemma_record_prelude(data, p, domain, 43, class, ttl, rest);
            let q = p + el.len() + 12;
            lemma_subrange_split(
                data,
                p + el.len() + 8,
                be_bytes_of(4 + digest.len() as int, 4),
                be_bytes_of(key_tag as int, 2) + (be_bytes_of(ac as int, 1) + (be_bytes_of(
                    dc as int,
                    1,
                ) + digest)),
            );
            crate::buffer::lemma_be_val_of_be_bytes(4 + digest.len() as int, 4);
            lemma_subrange_split(
                data,
                q,
                be_bytes_of(key_tag as int, 2),
                be_bytes_of(ac as int, 1) + (be_bytes_of(dc as int, 1) + digest),
            );
            crate::buffer::lemma_be_val_of_be_bytes(key_tag as int, 2);
            lemma_subrange_split(
                data,
                q + 2,
                be_bytes_of(ac as int, 1),
                be_bytes_of(dc as int, 1) + digest,
            );
            crate::buffer::lemma_be_val_one_byte(data.subrange(q + 2, q + 3));
            crate::buffer::lemma_be_bytes_of_u8(ac);
            assert(data[q + 2] == ac);
            lemma_subrange_split(data, q + 3, be_bytes_of(dc as int, 1), digest);
            crate::buffer::lemma_be_val_one_byte(data.subrange(q + 3, q + 4));
            crate::buffer::lemma_be_bytes_of_u8(dc);
            assert(data[q + 3] == dc);
        },
        _ => {
            assert(false);
        },
    }
}

proof fn lemma_dnskey_round_trip(data: Seq<u8>, p: int, m: RecordModel)
    requires
        m is DNSKEY,
        record_round_trip_valid(m),
        encode_record(m) is Ok,
        0 <= p,
        p + encode_record(m)->Ok_0.len() <= data.len(),
        p + encode_record(m)->Ok_0.len() <= usize::MAX,
        data.subrange(p, p + encode_record(m)->Ok_0.len()) == encode_record(m)->Ok_0,
    ensures
        parse_record_at(data, p) == Ok::<(Option<RecordModel>, int), DrasilDNSError>(
            (Some(m), p + encode_record(m)->Ok_0.len()),
        ),
{
    let e = encode_record(m)->Ok_0;
    crate::buffer::lemma_pow256_values();
    match m {
        RecordModel::DNSKEY {
            domain,
            class,
            ttl,
            is_secure_entry_point,
            is_zone_key,
            protocol,
            algorithm,
            public_key,
        } => {
            let el = encode_labels(domain);
            let ac = dnssec_algorithm_code(algorithm);
            let fl: int = (if is_secure_entry_point { 32768int } else { 0int }) + (if is_zone_key {
                128int
            } else {
                0int
            });
            crate::buffer::lemma_be_bytes_of_len(4 + public_key.len() as int, 4);
            crate::buffer::lemma_be_bytes_of_len(fl, 2);
            crate::buffer::lemma_be_bytes_of_len(protocol as int, 1);
            crate::buffer::lemma_be_bytes_of_len(ac as int, 1);
            let rest = be_bytes_of(4 + public_key.len() as int, 4) + (be_bytes_of(fl, 2)
                + (be_bytes_of(protocol as int, 1) + (be_bytes_of(ac as int, 1) + public_key)));
            assert(e =~= record_prefix(domain, 48, class, ttl) + rest);
            lemma_record_prelude(data, p, domain, 48, class, ttl, rest);
            let q = p + el.len() + 12;
            lemma_subrange_split(
                data,
                p + el.len() + 8,
                be_bytes_of(4 + public_key.len() as int, 4),
                be_bytes_of(fl, 2) + (be_bytes_of(protocol as int, 1) + (be_bytes_of(ac as int, 1)
                    + public_key)),
            );
            crate::buffer::lemma_be_val_of_be_bytes(4 + public_key.len() as int, 4);
            lemma_subrange_split(
                data,
                q,
                be_bytes_of(fl, 2),
                be_bytes_of(protocol as int, 1) + (be_bytes_of(ac as int, 1) + public_key),
            );
            crate::buffer::lemma_be_val_of_be_bytes(fl, 2);
            lemma_subrange_split(
                data,
                q + 2,
                be_bytes_of(protocol as int, 1),
                be_bytes_of(ac as int, 1) + public_key,
            );
            crate::buffer::lemma_be_val_one_byte(data.subrange(q + 2, q + 3));
            crate::buffer::lemma_be_bytes_of_u8(protocol);
            assert(data[q + 2] == protocol);
            lemma_subrange_split(data, q + 3, be_bytes_of(ac as int, 1), public_key);
            crate::buffer::lemma_be_val_one_byte(data.subrange(q + 3, q + 4));
            crate::buffer::lemma_be_bytes_of_u8(ac);
            assert(data[q + 3] == ac);
            assert(fl / 32768 % 2 == (if is_secure_entry_point { 1int } else { 0int }));
            assert(fl / 128 % 2 == (if is_zone_key { 1int } else { 0int }));
        },
        _ => {
            assert(false);
        },
    }
}

#[verifier::spinoff_prover]
#[verifier::rlimit(100)]
proof fn lemma_nsec3param_round_trip(data: Seq<u8>, p: int, m: RecordModel)
    requires
        m is NSEC3PARAM,
        record_round_trip_valid(m),
        encode_record(m) is Ok,
        0 <= p,
        p + encode_record(m)->Ok_0.len() <= data.len(),
        p + encode_record(m)->Ok_0.len() <= usize::MAX,
        data.subrange(p, p + encode_record(m)->Ok_0.len()) == encode_record(m)->Ok_0,
    ensures
        parse_record_at(data, p) == Ok::<(Option<RecordModel>, int), DrasilDNSError>(
            (Some(m), p + encode_record(m)->Ok_0.len()),
        ),
{
    let e = encode_record(m)->Ok_0;
    crate::buffer::lemma_pow256_values();
    match m {
        RecordModel::NSEC3PARAM {
            domain,
            class,
            ttl,
            hash_algorithm,
            flags,
            iterations,
            salt_length,
            salt,
        } => {
            let el = encode_labels(domain);
            crate::buffer::lemma_be_bytes_of_len(5 + salt.len() as int, 4);
            crate::buffer::lemma_be_bytes_of_len(hash_algorithm as int, 1);
            crate::buffer::lemma_be_bytes_of_len(flags as int, 1);
            crate::buffer::lemma_be_bytes_of_len(iterations as int, 2);
            crate::buffer::lemma_be_bytes_of_len(salt_length as int, 1);
            let rest = be_bytes_of(5 + salt.len() as int, 4) + (be_bytes_of(
                hash_algorithm as int,
                1,
            ) + (be_bytes_of(flags as int, 1) + (be_bytes_of(iterations as int, 2) + (be_bytes_of(
                salt_length as int,
                1,
            ) + salt))));
            assert(e =~= record_prefix(domain, 51, class, ttl) + rest);
            lemma_record_prelude(data, p, domain, 51, class, ttl, rest);
            let q = p + el.len() + 12;
            lemma_subrange_split(
                data,
                p + el.len() + 8,
                be_bytes_of(5 + salt.len() as int, 4),
                be_bytes_of(hash_algorithm as int, 1) + (be_bytes_of(flags as int, 1)
                    + (be_bytes_of(iterations as int, 2) + (be_bytes_of(salt_length as int, 1)
                    + salt))),
            );
            lemma_subrange_split(
                data,
                q,
                be_bytes_of(hash_algorithm as int, 1),
                be_bytes_of(flags as int, 1) + (be_bytes_of(iterations as int, 2) + (be_bytes_of(
                    salt_length as int,
                    1,
                ) + salt)),
            );
            crate::buffer::lemma_be_val_one_byte(data.subrange(q, q + 1));
            crate::buffer::lemma_be_bytes_of_u8(hash_algorithm);
            assert(data[q] == hash_algorithm);
            lemma_subrange_split(
                data,
                q + 1,
                be_bytes_of(flags as int, 1),
                be_bytes_of(iterations as int, 2) + (be_bytes_of(salt_length as int, 1) + salt),
            );
            crate::buffer::lemma_be_val_one_byte(data.subrange(q + 1, q + 2));
            crate::buffer::lemma_be_bytes_of_u8(flags);
            assert(data[q + 1] == flags);
            lemma_subrange_split(
                data,
                q + 2,
                be_bytes_of(iterations as int, 2),
                be_bytes_of(salt_length as int, 1) + salt,
            );
            crate::buffer::lemma_be_val_of_be_bytes(iterations as int, 2);
            lemma_subrange_split(data, q + 4, be_bytes_of(salt_length as int, 1), salt);
            crate::buffer::lemma_be_val_one_byte(data.subrange(q + 4, q + 5));
            crate::buffer::lemma_be_bytes_of_u8(salt_length);
            assert(data[q + 4] == salt_length);
        },
        _ => {
            assert(false);
        },
    }
}

/// The OPT arm of the record round trip: the root owner name, the
/// reinterpreted header fields, and the option run.
#[verifier::rlimit(100)]
proof fn lemma_opt_round_trip(data: Seq<u8>, p: int, m: RecordModel)
    requires
        m is OPT,
        record_round_trip_valid(m),
        encode_record(m) is Ok,
        0 <= p,
        p + encode_record(m)->Ok_0.len() <= data.len(),
        p + encode_record(m)->Ok_0.len() <= usize::MAX,
        data.subrange(p, p + encode_record(m)->Ok_0.len()) == encode_record(m)->Ok_0,
    ensures
        parse_record_at(data, p) == Ok::<(Option<RecordModel>, int), DrasilDNSError>(
            (Some(m), p + encode_record(m)->Ok_0.len()),
        ),
{
    let e = encode_record(m)->Ok_0;
    crate::buffer::lemma_pow256_values();
    match m {
        RecordModel::OPT { udp_payload_size, extended_rcode, version, dnssec_ok, options } => {
            let ob = encode_options_seq(options, options.len() as int)->Ok_0;
            let fl: int = if dnssec_ok { 0x8000int } else { 0int };
            crate::buffer::lemma_be_bytes_of_len(41, 2);
            crate::buffer::lemma_be_bytes_of_len(udp_payload_size as int, 2);
            crate::buffer::lemma_be_bytes_of_len(extended_rcode as int, 1);
            crate::buffer::lemma_be_bytes_of_len(version as int, 1);
            crate::buffer::lemma_be_bytes_of_len(fl, 2);
            crate::buffer::lemma_be_bytes_of_len(ob.len() as int, 2);
            assert(e.len() == 11 + ob.len());

            assert(data[p] == data.subrange(p, p + e.len())[0]);
            assert(data[p] == 0u8);
            assert(labels_walk(data, p, 0, true) == Ok::<
                crate::labels::LabelsWalk,
                DrasilDNSError,
            >(
                crate::labels::LabelsWalk {
                    labels: Seq::empty(),
                    end: p + 1,
                    jumped: false,
                },
            ));

            let head = seq![0u8] + be_bytes_of(41, 2);
            let tail1 = be_bytes_of(udp_payload_size as int, 2) + (be_bytes_of(
                extended_rcode as int,
                1,
            ) + (be_bytes_of(version as int, 1) + (be_bytes_of(fl, 2) + (be_bytes_of(
                ob.len() as int,
                2,
            ) + ob))));
            assert(e =~= head + tail1);
            lemma_subrange_split(data, p, head, tail1);
            assert(data.subrange(p + 1, p + 3) =~= data.subrange(p, p + 3).subrange(1, 3));
            assert(head.subrange(1, 3) =~= be_bytes_of(41, 2));
            crate::buffer::lemma_be_val_of_be_bytes(41, 2);
            assert(be_val(data.subrange(p + 1, p + 3)) == 41);
            assert(record_type_of(41) is OPT);

            let o = p + 3;
            lemma_subrange_split(
                data,
                o,
                be_bytes_of(udp_payload_size as int, 2),
                be_bytes_of(extended_rcode as int, 1) + (be_bytes_of(version as int, 1)
                    + (be_bytes_of(fl, 2) + (be_bytes_of(ob.len() as int, 2) + ob))),
            );
            crate::buffer::lemma_be_val_of_be_bytes(udp_payload_size as int, 2);
            lemma_subrange_split(
                data,
                o + 2,
                be_bytes_of(extended_rcode as int, 1),
                be_bytes_of(version as int, 1) + (be_bytes_of(fl, 2) + (be_bytes_of(
                    ob.len() as int,
                    2,
                ) + ob)),
            );
            crate::buffer::lemma_be_val_one_byte(data.subrange(o + 2, o + 3));
            crate::buffer::lemma_be_bytes_of_u8(extended_rcode);
            assert(data[o + 2] == extended_rcode);
            lemma_subrange_split(
                data,
                o + 3,
                be_bytes_of(version as int, 1),
                be_bytes_of(fl, 2) + (be_bytes_of(ob.len() as int, 2) + ob),
            );
            crate::buffer::lemma_be_val_one_byte(data.subrange(o + 3, o + 4));
            crate::buffer::lemma_be_bytes_of_u8(version);
            assert(data[o + 3] == version);
            lemma_subrange_split(
                data,
                o + 4,
                be_bytes_of(fl, 2),
                be_bytes_of(ob.len() as int, 2) + ob,
            );
            crate::buffer::lemma_be_val_of_be_bytes(fl, 2);
            lemma_subrange_split(data, o + 6, be_bytes_of(ob.len() as int, 2), ob);
            crate::buffer::lemma_be_val_of_be_bytes(ob.len() as int, 2);

            let dlen = ob.len() as int;
            lemma_options_round_trip(data, o + 8, options, (dlen + 1) as nat);
            assert(parse_opt_tail(data, o) == Ok::<(RecordModel, int), DrasilDNSError>(
                (m, o + 8 + ob.len()),
            ));
        },
        _ => {
            assert(false);
        },
    }
}


/// Decoding a record whose declared RDATA length runs past the end of the
/// message fails with `EOF` rather than being silently truncated: stated
/// for the opaque record kind, which reads exactly the declared length.
pub proof fn lemma_truncated_rdata_is_eof(data: Seq<u8>, p: int)
    requires
        labels_walk(data, p, 0, true) matches Ok(w) && {
            &&& 0 <= w.end
            &&& w.end + 12 <= data.len()
            &&& record_type_of(be_val(data.subrange(w.end, w.end + 2)) as u16) is Unknown
            &&& w.end + 12 + be_val(data.subrange(w.end + 8, w.end + 12)) > data.len()
        },
    ensures
        parse_record_at(data, p) == Err::<(Option<RecordModel>, int), DrasilDNSError>(
            DrasilDNSError::EOF,
        ),
{
    crate::buffer::lemma_pow256_values();
    match labels_walk(data, p, 0, true) {
        Ok(w) => {
            crate::buffer::lemma_be_val_bound(data.subrange(w.end + 8, w.end + 12));
            assert(data.subrange(w.end + 8, w.end + 12).len() == 4);
            let rdlen = be_val(data.subrange(w.end + 8, w.end + 12));
            assert(0 <= rdlen < crate::buffer::pow256(4));
            assert((rdlen as u32) as int == rdlen);
        },
        Err(_) => {
            assert(false);
        },
    }
}

/// An NSEC3PARAM record with its reserved flags byte nonzero is parsed as
/// no record produced, rather than as an error: the decoder consumes it
/// and hands back nothing.
pub proof fn lemma_nsec3param_reserved_dropped(data: Seq<u8>, p: int, m: RecordModel)
    requires
        m matches RecordModel::NSEC3PARAM { domain, class, ttl, flags, salt_length, salt, .. } && {
            &&& name_canon(domain)
            &&& flags != 0
            &&& salt.len() == salt_length
        },
        encode_record(m) is Ok,
        0 <= p,
        p + encode_record(m)->Ok_0.len() <= data.len(),
        p + encode_record(m)->Ok_0.len() <= usize::MAX,
        data.subrange(p, p + encode_record(m)->Ok_0.len()) == encode_record(m)->Ok_0,
    ensures
        parse_record_at(data, p) == Ok::<(Option<RecordModel>, int), DrasilDNSError>(
            (None, p + encode_record(m)->Ok_0.len()),
        ),
{
    let e = encode_record(m)->Ok_0;
    crate::buffer::lemma_pow256_values();
    match m {
        RecordModel::NSEC3PARAM {
            domain,
            class,
            ttl,
            hash_algorithm,
            flags,
            iterations,
            salt_length,
            salt,
        } => {
            let el = encode_labels(domain);
            crate::buffer::lemma_be_bytes_of_len(5 + salt.len() as int, 4);
            crate::buffer::lemma_be_bytes_of_len(hash_algorithm as int, 1);
            crate::buffer::lemma_be_bytes_of_len(flags as int, 1);
            crate::buffer::lemma_be_bytes_of_len(iterations as int, 2);
            crate::buffer::lemma_be_bytes_of_len(salt_length as int, 1);
            let rest = be_bytes_of(5 + salt.len() as int, 4) + (be_bytes_of(
                hash_algorithm as int,
                1,
            ) + (be_bytes_of(flags as int, 1) + (be_bytes_of(iterations as int, 2) + (be_bytes_of(
                salt_length as int,
                1,
            ) + salt))));
            assert(e =~= record_prefix(domain, 51, class, ttl) + rest);
            lemma_record_prelude(data, p, domain, 51, class, ttl, rest);
            let q = p + el.len() + 12;
            lemma_subrange_split(
                data,
                p + el.len() + 8,
                be_bytes_of(5 + salt.len() as int, 4),
                be_bytes_of(hash_algorithm as int, 1) + (be_bytes_of(flags as int, 1)
                    + (be_bytes_of(iterations as int, 2) + (be_bytes_of(salt_length as int, 1)
                    + salt))),
            );
            lemma_subrange_split(
                data,
                q,
                be_bytes_of(hash_algorithm as int, 1),
                be_bytes_of(flags as int, 1) + (be_bytes_of(iterations as int, 2) + (be_bytes_of(
                    salt_length as int,
                    1,
                ) + salt)),
            );
            lemma_subrange_split(
                data,
                q + 1,
                be_bytes_of(flags as int, 1),
                be_bytes_of(iterations as int, 2) + (be_bytes_of(salt_length as int, 1) + salt),
            );
            crate::buffer::lemma_be_val_one_byte(data.subrange(q + 1, q + 2));
            crate::buffer::lemma_be_bytes_of_u8(flags);
            assert(data[q + 1] == flags);
            lemma_subrange_split(
                data,
                q + 2,
                be_bytes_of(iterations as int, 2),
                be_bytes_of(salt_length as int, 1) + salt,
            );
            lemma_subrange_split(data, q + 4, be_bytes_of(salt_length as int, 1), salt);
            crate::buffer::lemma_be_val_one_byte(data.subrange(q + 4, q + 5));
            crate::buffer::lemma_be_bytes_of_u8(salt_length);
            assert(data[q + 4] == salt_length);
        },
        _ => {
            assert(false);
        },
    }
}

impl Record {
    /// Reads one record at the cursor: the owner name, the generic type,
    /// class, time-to-live and RDATA-length fields, and the RDATA its type
    /// calls for. Returns `None` for a record the wire says to drop (an
    /// NSEC3PARAM with reserved flags set). A failed read leaves the cursor
    /// where it was.
    #[verifier::rlimit(100)]
    pub fn parse(buff: &mut Buffer) -> (r: Result<Option<Record>, DrasilDNSError>)
        ensures
            match r {
                Ok(rec) => match parse_record_at(old(buff)@.bytes, old(buff)@.pos) {
                    Ok((m, end)) => {
                        &&& match (rec, m) {
                            (Some(rr), Some(mm)) => rr@ == mm,
                            (None, None) => true,
                            _ => false,
                        }
                        &&& final(buff)@ == (BufferModel { pos: end, ..old(buff)@ })
                    },
                    Err(_) => false,
                },
                Err(e) => {
                    &&& parse_record_at(old(buff)@.bytes, old(buff)@.pos) == Err::<
                        (Option<RecordModel>, int),
                        DrasilDNSError,
                    >(e)
                    &&& final(buff)@ == old(buff)@
                },
            },
    {
        let ghost data = buff@.bytes;
        let ghost p = buff@.pos;
        let initial_pos: usize = buff.pos();

        let domain: Vec<Vec<u8>> = match buff.read_labels(true) {
            Ok((_, d)) => d,
            Err(e) => {
                return Err(e);
            },
        };
        let rtype_code: u16 = match buff.read_u16() {
            Ok(v) => v,
            Err(e) => {
                buff.seek(initial_pos);
                return Err(e);
            },
        };
        let class_code: u16 = match buff.read_u16() {
            Ok(v) => v,
            Err(e) => {
                buff.seek(initial_pos);
                return Err(e);
            },
        };
        let ttl: u32 = match buff.read_u32() {
            Ok(v) => v,
            Err(e) => {
                buff.seek(initial_pos);
                return Err(e);
            },
        };
        let rdlen: u32 = match buff.read_u32() {
            Ok(v) => v,
            Err(e) => {
                buff.seek(initial_pos);
                return Err(e);
            },
        };
        let class = RecordClass::from_code(class_code);
        let record_type = RecordType::from_code(rtype_code);
        let here: usize = buff.pos();

        let out: Result<Option<Record>, DrasilDNSError> = match record_type {
            RecordType::Unknown(v) => {
                match buff.read_bytes(rdlen as usize) {
                    Ok(bytes) => Ok(
                        Some(
                            Record::Unknown {
                                domain,
                                ttl,
                                len: rdlen,
                                record_type: v,
                                class,
                                data: bytes,
                            },
                        ),
                    ),
                    Err(e) => Err(e),
                }
            },
            RecordType::OPT => {
                buff.seek(here - 10);
                match read_opt_tail(buff) {
                    Ok(rec) => Ok(Some(rec)),
                    Err(e) => Err(e),
                }
            },
            RecordType::A => {
                match buff.read_u32() {
                    Ok(addr) => Ok(Some(Record::A { domain, class, ttl, addr })),
                    Err(e) => Err(e),
                }
            },
            RecordType::NS => {
                match buff.read_labels(true) {
                    Ok((_, host)) => Ok(Some(Record::NS { domain, host, ttl, class })),
                    Err(e) => Err(e),
                }
            },
            RecordType::CNAME => {
                match buff.read_labels(true) {
                    Ok((_, host)) => Ok(Some(Record::CNAME { domain, host, ttl, class })),
                    Err(e) => Err(e),
                }
            },
            RecordType::MX => {
                match buff.read_u16() {
                    Ok(priority) => match buff.read_labels(true) {
                        Ok((_, host)) => Ok(
                            Some(Record::MX { domain, priority, host, ttl, class }),
                        ),
                        Err(e) => Err(e),
                    },
                    Err(e) => Err(e),
                }
            },
            RecordType::AAAA => {
                match buff.read_u128() {
                    Ok(addr) => Ok(Some(Record::AAAA { domain, class, ttl, addr })),
                    Err(e) => Err(e),
                }
            },
            RecordType::DS => {
                match read_ds_rdata(buff, domain, class, ttl, rdlen) {
                    Ok(rec) => Ok(Some(rec)),
                    Err(e) => Err(e),
                }
            },
            RecordType::RRSIG => {
                match read_rrsig_rdata(buff, domain, class, ttl, rdlen) {
                    Ok(rec) => Ok(Some(rec)),
                    Err(e) => Err(e),
                }
            },
            RecordType::NSEC => {
                match read_nsec_rdata(buff, domain, class, ttl, rdlen) {
                    Ok(rec) => Ok(Some(rec)),
                    Err(e) => Err(e),
                }
            },
            RecordType::DNSKEY => {
                match read_dnskey_rdata(buff, domain, class, ttl, rdlen) {
                    Ok(rec) => Ok(Some(rec)),
                    Err(e) => Err(e),
                }
            },
            RecordType::NSEC3 => {
                match read_nsec3_rdata(buff, domain, class, ttl, rdlen) {
                    Ok(rec) => Ok(Some(rec)),
                    Err(e) => Err(e),
                }
            },
            RecordType::NSEC3PARAM => {
                read_nsec3param_rdata(buff, domain, class, ttl)
            },
        };

        match out {
            Ok(rec) => Ok(rec),
            Err(e) => {
                buff.seek(initial_pos);
                Err(e)
            },
        }
    }

    /// Writes one record at the cursor: the owner name, the generic fields
    /// and the RDATA its type calls for, with the RDATA length counting
    /// exactly the payload bytes after it. An oversize label fails with
    /// `LabelTooLarge`; a fixed-size buffer without room fails with `EOF`;
    /// either way the buffer is left untouched.
    pub fn write_bytes(&self, buff: &mut Buffer) -> (r: Result<(), DrasilDNSError>)
        requires
            record_types_writable(*self),
        ensures
            match r {
                Ok(()) => match encode_record(self@) {
                    Ok(bytes) => {
                        &&& old(buff)@.pos + bytes.len() <= usize::MAX
                        &&& old(buff)@.expandable || old(buff)@.pos + bytes.len() <= old(
                            buff,
                        )@.bytes.len()
                        &&& final(buff)@.bytes == splice_at(old(buff)@.bytes, old(buff)@.pos, bytes)
                        &&& final(buff)@.pos == old(buff)@.pos + bytes.len()
                        &&& final(buff)@.expandable == old(buff)@.expandable
                    },
                    Err(_) => false,
                },
                Err(e) => {
                    &&& final(buff)@ == old(buff)@
                    &&& match encode_record(self@) {
                        Err(e2) => e == e2,
                        Ok(bytes) => {
                            &&& e == DrasilDNSError::EOF
                            &&& (!old(buff)@.expandable && old(buff)@.pos + bytes.len() > old(
                                buff,
                            )@.bytes.len()) || old(buff)@.pos + bytes.len() > usize::MAX
                        },
                    }
                },
            },
    {
        proof {
            crate::buffer::lemma_buffer_model_bounds(buff);
        }
        let b: Buffer = match build_record(self) {
            Ok(b) => b,
            Err(e) => {
                return Err(e);
            },
        };
        match buff.write_buffer(&b) {
            Ok(()) => Ok(()),
            Err(_) => Err(DrasilDNSError::EOF),
        }
    }

}

} // verus!
