//! The EDNS(0) option codec: the typed `{code, length, value}` sub-records
//! carried inside an OPT pseudo-record.

use vstd::prelude::*;

use crate::buffer::{be_bytes_of, be_val, pow256, splice_at, Buffer, BufferModel};
use crate::error::DrasilDNSError;

verus! {

/// Enum for EDNS(0) option type codes. Codes with no named variant are
/// kept as `Unknown`.
#[derive(Debug, Clone, Copy, PartialEq, Eq, PartialOrd, Ord)]
pub enum EDNSOptionType {
    Unknown(u16),
    NSID,
    ClientSubnet,
    Cookie,
    KeepAlive,
    Padding,
    ChainQuery,
    KeyTag,
    EDE,
    ECS,
}

/// The numeric code of an [`EDNSOptionType`].
pub open spec fn edns_option_type_code(t: EDNSOptionType) -> u16 {
    match t {
        EDNSOptionType::NSID => 3,
        EDNSOptionType::ClientSubnet => 8,
        EDNSOptionType::Cookie => 10,
        EDNSOptionType::KeepAlive => 11,
        EDNSOptionType::Padding => 12,
        EDNSOptionType::ChainQuery => 13,
        EDNSOptionType::KeyTag => 14,
        EDNSOptionType::EDE => 15,
        EDNSOptionType::ECS => 16,
        EDNSOptionType::Unknown(v) => v,
    }
}

/// The [`EDNSOptionType`] a numeric code names.
pub open spec fn edns_option_type_of(v: u16) -> EDNSOptionType {
    if v == 3 {
        EDNSOptionType::NSID
    } else if v == 8 {
        EDNSOptionType::ClientSubnet
    } else if v == 10 {
        EDNSOptionType::Cookie
    } else if v == 11 {
        EDNSOptionType::KeepAlive
    } else if v == 12 {
        EDNSOptionType::Padding
    } else if v == 13 {
        EDNSOptionType::ChainQuery
    } else if v == 14 {
        EDNSOptionType::KeyTag
    } else if v == 15 {
        EDNSOptionType::EDE
    } else if v == 16 {
        EDNSOptionType::ECS
    } else {
        EDNSOptionType::Unknown(v)
    }
}

impl EDNSOptionType {
    /// The variant a numeric code names; unmapped codes become `Unknown`.
    pub fn from_code(v: u16) -> (r: Self)
        ensures
            r == edns_option_type_of(v),
    {
        if v == 3 {
            EDNSOptionType::NSID
        } else if v == 8 {
            EDNSOptionType::ClientSubnet
        } else if v == 10 {
            EDNSOptionType::Cookie
        } else if v == 11 {
            EDNSOptionType::KeepAlive
        } else if v == 12 {
            EDNSOptionType::Padding
        } else if v == 13 {
            EDNSOptionType::ChainQuery
        } else if v == 14 {
            EDNSOptionType::KeyTag
        } else if v == 15 {
            EDNSOptionType::EDE
        } else if v == 16 {
            EDNSOptionType::ECS
        } else {
            EDNSOptionType::Unknown(v)
        }
    }

    /// The numeric code of this variant.
    pub fn to_code(self) -> (r: u16)
        ensures
            r == edns_option_type_code(self),
    {
        match self {
            EDNSOptionType::NSID => 3,
            EDNSOptionType::ClientSubnet => 8,
            EDNSOptionType::Cookie => 10,
            EDNSOptionType::KeepAlive => 11,
            EDNSOptionType::Padding => 12,
            EDNSOptionType::ChainQuery => 13,
            EDNSOptionType::KeyTag => 14,
            EDNSOptionType::EDE => 15,
            EDNSOptionType::ECS => 16,
            EDNSOptionType::Unknown(v) => v,
        }
    }
}

/// Every option-type code survives the trip through the enumeration.
pub proof fn lemma_edns_option_type_code_round_trip(v: u16)
    ensures
        edns_option_type_code(edns_option_type_of(v)) == v,
{
}

/// # EDNS(0) Option
/// Enum for representing all EDNS(0) options: the `{attribute, value}`
/// pairs stored in the RDATA section of an OPT record.
#[derive(Debug, Clone, PartialEq, Eq)]
pub enum EDNSOption {
    Unknown { code: u16, len: u16, data: Vec<u8> },
    /// Name-server identification.
    NSID { data: Vec<u8> },
    ClientSubnet { family: u16, source_netmask: u8, scope_netmask: u8, addr: u128 },
    Cookie { client: u64, server: Option<u64> },
    KeepAlive { timeout: u16 },
    Padding { len: u16 },
    ChainQuery { flags: u16, qname_min_length: u16 },
    KeyTag { tags: Vec<u16> },
    /// Extended DNS error.
    EDE { info_code: u16, extra_text: Vec<u8> },
    EcsIPv4 { source_netmask: u8, scope_netmask: u8, addr: u32 },
    EcsIPv6 { source_netmask: u8, scope_netmask: u8, addr: u128 },
}

/// Ghost description of an EDNS(0) option.
pub ghost enum EDNSOptionModel {
    Unknown { code: u16, len: u16, data: Seq<u8> },
    NSID { data: Seq<u8> },
    ClientSubnet { family: u16, source_netmask: u8, scope_netmask: u8, addr: u128 },
    Cookie { client: u64, server: Option<u64> },
    KeepAlive { timeout: u16 },
    Padding { len: u16 },
    ChainQuery { flags: u16, qname_min_length: u16 },
    KeyTag { tags: Seq<u16> },
    EDE { info_code: u16, extra_text: Seq<u8> },
    EcsIPv4 { source_netmask: u8, scope_netmask: u8, addr: u32 },
    EcsIPv6 { source_netmask: u8, scope_netmask: u8, addr: u128 },
}

impl View for EDNSOption {
    type V = EDNSOptionModel;

    open spec fn view(&self) -> EDNSOptionModel {
        match self {
            EDNSOption::Unknown { code, len, data } => EDNSOptionModel::Unknown {
                code: *code,
                len: *len,
                data: data@,
            },
            EDNSOption::NSID { data } => EDNSOptionModel::NSID { data: data@ },
            EDNSOption::ClientSubnet { family, source_netmask, scope_netmask, addr } => EDNSOptionModel::ClientSubnet {
                family: *family,
                source_netmask: *source_netmask,
                scope_netmask: *scope_netmask,
                addr: *addr,
            },
            EDNSOption::Cookie { client, server } => EDNSOptionModel::Cookie {
                client: *client,
                server: *server,
            },
            EDNSOption::KeepAlive { timeout } => EDNSOptionModel::KeepAlive { timeout: *timeout },
            EDNSOption::Padding { len } => EDNSOptionModel::Padding { len: *len },
            EDNSOption::ChainQuery { flags, qname_min_length } => EDNSOptionModel::ChainQuery {
                flags: *flags,
                qname_min_length: *qname_min_length,
            },
            EDNSOption::KeyTag { tags } => EDNSOptionModel::KeyTag { tags: tags@ },
            EDNSOption::EDE { info_code, extra_text } => EDNSOptionModel::EDE {
                info_code: *info_code,
                extra_text: extra_text@,
            },
            EDNSOption::EcsIPv4 { source_netmask, scope_netmask, addr } => EDNSOptionModel::EcsIPv4 {
                source_netmask: *source_netmask,
                scope_netmask: *scope_netmask,
                addr: *addr,
            },
            EDNSOption::EcsIPv6 { source_netmask, scope_netmask, addr } => EDNSOptionModel::EcsIPv6 {
                source_netmask: *source_netmask,
                scope_netmask: *scope_netmask,
                addr: *addr,
            },
        }
    }
}

impl DeepView for EDNSOption {
    type V = EDNSOptionModel;

    open spec fn deep_view(&self) -> EDNSOptionModel {
        self.view()
    }
}

/// A run of zero bytes.
pub open spec fn zero_bytes(n: int) -> Seq<u8> {
    Seq::new(n as nat, |i: int| 0u8)
}

/// How many address bytes a client-subnet option carries for a source
/// netmask: the address is truncated to exactly the bytes the netmask
/// covers.
pub open spec fn cs_addr_len(nm: u8) -> int {
    (nm + 7) / 8
}

/// The widest netmask an address family allows: 32 for IPv4, 128 for IPv6.
pub open spec fn family_max_netmask(family: u16) -> u8 {
    if family == 1 {
        32
    } else {
        128
    }
}

/// The error a client-subnet option's fields give, if any: an unassigned
/// family, or a netmask beyond the family's width.
pub open spec fn cs_field_error(family: u16, nm: u8, scope: u8) -> Option<DrasilDNSError> {
    if family != 1 && family != 2 {
        Some(DrasilDNSError::InvalidNetworkFamily { family })
    } else if nm > family_max_netmask(family) {
        Some(
            DrasilDNSError::InvalidSourceNetmask {
                family,
                max: family_max_netmask(family),
                provided: nm,
            },
        )
    } else if scope > family_max_netmask(family) {
        Some(
            DrasilDNSError::InvalidScopeNetmask {
                family,
                max: family_max_netmask(family),
                provided: scope,
            },
        )
    } else {
        None
    }
}

/// The wire bytes of a sequence of key tags, two each.
pub open spec fn tags_bytes(tags: Seq<u16>, i: int) -> Seq<u8>
    decreases i,
{
    if i <= 0 {
        Seq::empty()
    } else {
        tags_bytes(tags, i - 1) + be_bytes_of(tags[i - 1] as int, 2)
    }
}

/// The wire encoding of an option, or the error its fields give: a
/// client-subnet option validates its family and netmasks, and a declared
/// length shorter than the value it frames cannot be written.
pub open spec fn encode_option(o: EDNSOptionModel) -> Result<Seq<u8>, DrasilDNSError> {
    match o {
        EDNSOptionModel::Unknown { code, len, data } => if data.len() <= len {
            Ok(
                be_bytes_of(code as int, 2) + be_bytes_of(len as int, 2) + data + zero_bytes(
                    len - data.len(),
                ),
            )
        } else {
            Err(DrasilDNSError::EOF)
        },
        EDNSOptionModel::NSID { data } => if data.len() <= 65535 {
            Ok(be_bytes_of(3, 2) + be_bytes_of(data.len() as int, 2) + data)
        } else {
            Err(DrasilDNSError::EOF)
        },
        EDNSOptionModel::ClientSubnet { family, source_netmask, scope_netmask, addr } => match cs_field_error(
            family,
            source_netmask,
            scope_netmask,
        ) {
            Some(e) => Err(e),
            None => Ok(
                be_bytes_of(8, 2) + be_bytes_of(4 + cs_addr_len(source_netmask), 2) + be_bytes_of(
                    family as int,
                    2,
                ) + be_bytes_of(source_netmask as int, 1) + be_bytes_of(scope_netmask as int, 1)
                    + be_bytes_of(addr as int, cs_addr_len(source_netmask) as nat),
            ),
        },
        EDNSOptionModel::Cookie { client, server } => match server {
            Some(srv) => Ok(
                be_bytes_of(10, 2) + be_bytes_of(16, 2) + be_bytes_of(client as int, 8)
                    + be_bytes_of(srv as int, 8),
            ),
            None => Ok(be_bytes_of(10, 2) + be_bytes_of(8, 2) + be_bytes_of(client as int, 8)),
        },
        EDNSOptionModel::KeepAlive { timeout } => Ok(
            be_bytes_of(11, 2) + be_bytes_of(2, 2) + be_bytes_of(timeout as int, 2),
        ),
        EDNSOptionModel::Padding { len } => Ok(
            be_bytes_of(12, 2) + be_bytes_of(len as int, 2) + zero_bytes(len as int),
        ),
        EDNSOptionModel::ChainQuery { flags, qname_min_length } => Ok(
            be_bytes_of(13, 2) + be_bytes_of(4, 2) + be_bytes_of(flags as int, 2) + be_bytes_of(
                qname_min_length as int,
                2,
            ),
        ),
        EDNSOptionModel::KeyTag { tags } => if tags.len() <= 32767 {
            Ok(
                be_bytes_of(14, 2) + be_bytes_of(2 * tags.len() as int, 2) + tags_bytes(
                    tags,
                    tags.len() as int,
                ),
            )
        } else {
            Err(DrasilDNSError::EOF)
        },
        EDNSOptionModel::EDE { info_code, extra_text } => if extra_text.len() <= 65533 {
            Ok(
                be_bytes_of(15, 2) + be_bytes_of(2 + extra_text.len() as int, 2) + be_bytes_of(
                    info_code as int,
                    2,
                ) + extra_text,
            )
        } else {
            Err(DrasilDNSError::EOF)
        },
        EDNSOptionModel::EcsIPv4 { source_netmask, scope_netmask, addr } => Ok(
            be_bytes_of(16, 2) + be_bytes_of(8, 2) + be_bytes_of(1, 2) + be_bytes_of(
                source_netmask as int,
                1,
            ) + be_bytes_of(scope_netmask as int, 1) + be_bytes_of(addr as int, 4),
        ),
        EDNSOptionModel::EcsIPv6 { source_netmask, scope_netmask, addr } => Ok(
            be_bytes_of(16, 2) + be_bytes_of(20, 2) + be_bytes_of(2, 2) + be_bytes_of(
                source_netmask as int,
                1,
            ) + be_bytes_of(scope_netmask as int, 1) + be_bytes_of(addr as int, 16),
        ),
    }
}

/// The key tags held by `n` two-byte fields at offset `q`.
pub open spec fn parse_tags(data: Seq<u8>, q: int, n: int) -> Seq<u16> {
    Seq::new(n as nat, |k: int| be_val(data.subrange(q + 2 * k, q + 2 * k + 2)) as u16)
}

/// What parsing one option at offset `p` of a message yields: the option
/// and the offset just past it, or the error its code, declared length or
/// truncation gives. The client-subnet and ECS variants size their address
/// by the source netmask; padding is skipped without inspecting it.
pub open spec fn parse_option_at(data: Seq<u8>, p: int) -> Result<
    (EDNSOptionModel, int),
    DrasilDNSError,
> {
    if p + 4 > data.len() {
        Err(DrasilDNSError::EOF)
    } else {
        let code = be_val(data.subrange(p, p + 2)) as u16;
        let len = be_val(data.subrange(p + 2, p + 4)) as u16;
        let q = p + 4;
        if code == 3 {
            if q + len > data.len() {
                Err(DrasilDNSError::EOF)
            } else {
                Ok((EDNSOptionModel::NSID { data: data.subrange(q, q + len) }, q + len))
            }
        } else if code == 8 {
            if q + 4 > data.len() {
                Err(DrasilDNSError::EOF)
            } else {
                let family = be_val(data.subrange(q, q + 2)) as u16;
                let nm = data[q + 2];
                let scope = data[q + 3];
                match cs_field_error(family, nm, scope) {
                    Some(e) => Err(e),
                    None => if q + 4 + cs_addr_len(nm) > data.len() {
                        Err(DrasilDNSError::EOF)
                    } else {
                        Ok(
                            (
                                EDNSOptionModel::ClientSubnet {
                                    family,
                                    source_netmask: nm,
                                    scope_netmask: scope,
                                    addr: be_val(
                                        data.subrange(q + 4, q + 4 + cs_addr_len(nm)),
                                    ) as u128,
                                },
                                q + 4 + cs_addr_len(nm),
                            ),
                        )
                    },
                }
            }
        } else if code == 10 {
            if len != 8 && len != 16 {
                Err(DrasilDNSError::InvalidEDNSOptionLength { option_type: 10, size: len })
            } else if q + len > data.len() {
                Err(DrasilDNSError::EOF)
            } else {
                let client = be_val(data.subrange(q, q + 8)) as u64;
                if len == 16 {
                    Ok(
                        (
                            EDNSOptionModel::Cookie {
                                client,
                                server: Some(be_val(data.subrange(q + 8, q + 16)) as u64),
                            },
                            q + 16,
                        ),
                    )
                } else {
                    Ok((EDNSOptionModel::Cookie { client, server: None }, q + 8))
                }
            }
        } else if code == 11 {
            if len != 2 {
                Err(DrasilDNSError::InvalidEDNSOptionLength { option_type: 11, size: len })
            } else if q + 2 > data.len() {
                Err(DrasilDNSError::EOF)
            } else {
                Ok(
                    (
                        EDNSOptionModel::KeepAlive {
                            timeout: be_val(data.subrange(q, q + 2)) as u16,
                        },
                        q + 2,
                    ),
                )
            }
        } else if code == 12 {
            if q + len > usize::MAX {
                Err(DrasilDNSError::EOF)
            } else {
                Ok((EDNSOptionModel::Padding { len }, q + len))
            }
        } else if code == 13 {
            if len != 4 {
                Err(DrasilDNSError::InvalidEDNSOptionLength { option_type: 13, size: len })
            } else if q + 4 > data.len() {
                Err(DrasilDNSError::EOF)
            } else {
                Ok(
                    (
                        EDNSOptionModel::ChainQuery {
                            flags: be_val(data.subrange(q, q + 2)) as u16,
                            qname_min_length: be_val(data.subrange(q + 2, q + 4)) as u16,
                        },
                        q + 4,
                    ),
                )
            }
        } else if code == 14 {
            if len % 2 != 0 {
                Err(DrasilDNSError::InvalidEDNSOptionLength { option_type: 14, size: len })
            } else if q + len > data.len() {
                Err(DrasilDNSError::EOF)
            } else {
                Ok(
                    (
                        EDNSOptionModel::KeyTag { tags: parse_tags(data, q, len as int / 2) },
                        q + len,
                    ),
                )
            }
        } else if code == 15 {
            if len < 2 {
                Err(DrasilDNSError::InvalidEDNSOptionLength { option_type: 15, size: len })
            } else if q + len > data.len() {
                Err(DrasilDNSError::EOF)
            } else {
                Ok(
                    (
                        EDNSOptionModel::EDE {
                            info_code: be_val(data.subrange(q, q + 2)) as u16,
                            extra_text: data.subrange(q + 2, q + len),
                        },
                        q + len,
                    ),
                )
            }
        } else if code == 16 {
            if q + 4 > data.len() {
                Err(DrasilDNSError::EOF)
            } else {
                let family = be_val(data.subrange(q, q + 2)) as u16;
                let nm = data[q + 2];
                let scope = data[q + 3];
                match cs_field_error(family, nm, scope) {
                    Some(e) => Err(e),
                    None => if family == 1 {
                        if q + 8 > data.len() {
                            Err(DrasilDNSError::EOF)
                        } else {
                            Ok(
                                (
                                    EDNSOptionModel::EcsIPv4 {
                                        source_netmask: nm,
                                        scope_netmask: scope,
                                        addr: be_val(data.subrange(q + 4, q + 8)) as u32,
                                    },
                                    q + 8,
                                ),
                            )
                        }
                    } else {
                        if q + 20 > data.len() {
                            Err(DrasilDNSError::EOF)
                        } else {
                            Ok(
                                (
                                    EDNSOptionModel::EcsIPv6 {
                                        source_netmask: nm,
                                        scope_netmask: scope,
                                        addr: be_val(data.subrange(q + 4, q + 20)) as u128,
                                    },
                                    q + 20,
                                ),
                            )
                        }
                    },
                }
            }
        } else {
            if q + len > data.len() {
                Err(DrasilDNSError::EOF)
            } else {
                Ok(
                    (
                        EDNSOptionModel::Unknown {
                            code,
                            len,
                            data: data.subrange(q, q + len),
                        },
                        q + len,
                    ),
                )
            }
        }
    }
}



/// An option occupies at least its four code and length bytes.
pub proof fn lemma_parse_option_advances(data: Seq<u8>, p: int)
    ensures
        parse_option_at(data, p) matches Ok((o, end)) ==> p + 4 <= end,
{
}

impl EDNSOption {
    /// Reads one option at the cursor: its code, declared length and value,
    /// with the length checks each code demands. A failed read leaves the
    /// cursor where it was.
    pub fn parse(buff: &mut Buffer) -> (r: Result<EDNSOption, DrasilDNSError>)
        ensures
            match r {
                Ok(o) => match parse_option_at(old(buff)@.bytes, old(buff)@.pos) {
                    Ok((m, end)) => {
                        &&& o@ == m
                        &&& final(buff)@ == (BufferModel { pos: end, ..old(buff)@ })
                    },
                    Err(_) => false,
                },
                Err(e) => {
                    &&& parse_option_at(old(buff)@.bytes, old(buff)@.pos) == Err::<
                        (EDNSOptionModel, int),
                        DrasilDNSError,
                    >(e)
                    &&& final(buff)@ == old(buff)@
                },
            },
    {
        let ghost data = buff@.bytes;
        let ghost p = buff@.pos;
        let initial_pos: usize = buff.pos();

        let code: u16 = match buff.read_u16() {
            Ok(v) => v,
            Err(e) => {
                return Err(e);
            },
        };
        let len: u16 = match buff.read_u16() {
            Ok(v) => v,
            Err(e) => {
                buff.seek(initial_pos);
                return Err(e);
            },
        };
        let ghost q = p + 4;

        if code == 3 {
            let bytes: Vec<u8> = match buff.read_bytes(len as usize) {
                Ok(v) => v,
                Err(e) => {
                    buff.seek(initial_pos);
                    return Err(e);
                },
            };
            Ok(EDNSOption::NSID { data: bytes })
        } else if code == 8 {
            let family: u16 = match buff.read_u16() {
                Ok(v) => v,
                Err(e) => {
                    buff.seek(initial_pos);
                    return Err(e);
                },
            };
            let source_netmask: u8 = match buff.read_u8() {
                Ok(v) => v,
                Err(e) => {
                    buff.seek(initial_pos);
                    return Err(e);
                },
            };
            let scope_netmask: u8 = match buff.read_u8() {
                Ok(v) => v,
                Err(e) => {
                    buff.seek(initial_pos);
                    return Err(e);
                },
            };
            proof {
                crate::buffer::lemma_be_val_one_byte(data.subrange(q + 2, q + 3));
                crate::buffer::lemma_be_val_one_byte(data.subrange(q + 3, q + 4));
                assert(data.subrange(q + 2, q + 3)[0] == data[q + 2]);
                assert(data.subrange(q + 3, q + 4)[0] == data[q + 3]);
            }
            if family == 1 {
                if source_netmask > 32 {
                    buff.seek(initial_pos);
                    return Err(
                        DrasilDNSError::InvalidSourceNetmask {
                            family,
                            max: 32,
                            provided: source_netmask,
                        },
                    );
                }
                if scope_netmask > 32 {
                    buff.seek(initial_pos);
                    return Err(
                        DrasilDNSError::InvalidScopeNetmask {
                            family,
                            max: 32,
                            provided: scope_netmask,
                        },
                    );
                }
            } else if family == 2 {
                if source_netmask > 128 {
                    buff.seek(initial_pos);
                    return Err(
                        DrasilDNSError::InvalidSourceNetmask {
                            family,
                            max: 128,
                            provided: source_netmask,
                        },
                    );
                }
                if scope_netmask > 128 {
                    buff.seek(initial_pos);
                    return Err(
                        DrasilDNSError::InvalidScopeNetmask {
                            family,
                            max: 128,
                            provided: scope_netmask,
                        },
                    );
                }
            } else {
                buff.seek(initial_pos);
                return Err(DrasilDNSError::InvalidNetworkFamily { family });
            }
            let alen: usize = (source_netmask as usize + 7) / 8;
            let addr: u128 = match buff.read_be_uint(alen) {
                Ok(v) => v,
                Err(e) => {
                    buff.seek(initial_pos);
                    return Err(e);
                },
            };
            Ok(EDNSOption::ClientSubnet { family, source_netmask, scope_netmask, addr })
        } else if code == 10 {
            if len != 8 && len != 16 {
                buff.seek(initial_pos);
                return Err(DrasilDNSError::InvalidEDNSOptionLength { option_type: 10, size: len });
            }
            let client: u64 = match buff.read_u64() {
                Ok(v) => v,
                Err(e) => {
                    buff.seek(initial_pos);
                    return Err(e);
                },
            };
            let mut server: Option<u64> = None;
            if len == 16 {
                server = match buff.read_u64() {
                    Ok(v) => Some(v),
                    Err(e) => {
                        buff.seek(initial_pos);
                        return Err(e);
                    },
                };
            }
            Ok(EDNSOption::Cookie { client, server })
        } else if code == 11 {
            if len != 2 {
                buff.seek(initial_pos);
                return Err(DrasilDNSError::InvalidEDNSOptionLength { option_type: 11, size: len });
            }
            let timeout: u16 = match buff.read_u16() {
                Ok(v) => v,
                Err(e) => {
                    buff.seek(initial_pos);
                    return Err(e);
                },
            };
            Ok(EDNSOption::KeepAlive { timeout })
        } else if code == 12 {
            let here: usize = buff.pos();
            if len as usize > usize::MAX - here {
                buff.seek(initial_pos);
                return Err(DrasilDNSError::EOF);
            }
            buff.seek(here + len as usize);
            Ok(EDNSOption::Padding { len })
        } else if code == 13 {
            if len != 4 {
                buff.seek(initial_pos);
                return Err(DrasilDNSError::InvalidEDNSOptionLength { option_type: 13, size: len });
            }
            let flags: u16 = match buff.read_u16() {
                Ok(v) => v,
                Err(e) => {
                    buff.seek(initial_pos);
                    return Err(e);
                },
            };
            let qname_min_length: u16 = match buff.read_u16() {
                Ok(v) => v,
                Err(e) => {
                    buff.seek(initial_pos);
                    return Err(e);
                },
            };
            Ok(EDNSOption::ChainQuery { flags, qname_min_length })
        } else if code == 14 {
            if len % 2 != 0 {
                buff.seek(initial_pos);
                return Err(DrasilDNSError::InvalidEDNSOptionLength { option_type: 14, size: len });
            }
            let n: usize = (len / 2) as usize;
            let here: usize = buff.pos();
            let blen: usize = buff.len();
            if here > blen || len as usize > blen - here {
                buff.seek(initial_pos);
                return Err(DrasilDNSError::EOF);
            }
            let mut tags: Vec<u16> = Vec::new();
            let mut k: usize = 0;
            while k < n
                invariant
                    buff@.bytes == data,
                    buff@.expandable == old(buff)@.expandable,
                    q == p + 4,
                    0 <= p,
                    n == len as int / 2,
                    k <= n,
                    buff@.pos == q + 2 * k,
                    q + 2 * n <= data.len(),
                    tags@ == parse_tags(data, q, k as int),
                    initial_pos == p,
                decreases n - k,
            {
                let tag: u16 = match buff.read_u16() {
                    Ok(v) => v,
                    Err(e) => {
                        proof {
                            assert(false);
                        }
                        buff.seek(initial_pos);
                        return Err(e);
                    },
                };
                tags.push(tag);
                proof {
                    assert(tags@ =~= parse_tags(data, q, k + 1));
                }
                k = k + 1;
            }
            proof {
                assert(q + 2 * n == q + len);
            }
            Ok(EDNSOption::KeyTag { tags })
        } else if code == 15 {
            if len < 2 {
                buff.seek(initial_pos);
                return Err(DrasilDNSError::InvalidEDNSOptionLength { option_type: 15, size: len });
            }
            let info_code: u16 = match buff.read_u16() {
                Ok(v) => v,
                Err(e) => {
                    buff.seek(initial_pos);
                    return Err(e);
                },
            };
            let extra_text: Vec<u8> = match buff.read_bytes((len - 2) as usize) {
                Ok(v) => v,
                Err(e) => {
                    buff.seek(initial_pos);
                    return Err(e);
                },
            };
            Ok(EDNSOption::EDE { info_code, extra_text })
        } else if code == 16 {
            let family: u16 = match buff.read_u16() {
                Ok(v) => v,
                Err(e) => {
                    buff.seek(initial_pos);
                    return Err(e);
                },
            };
            let source_netmask: u8 = match buff.read_u8() {
                Ok(v) => v,
                Err(e) => {
                    buff.seek(initial_pos);
                    return Err(e);
                },
            };
            let scope_netmask: u8 = match buff.read_u8() {
                Ok(v) => v,
                Err(e) => {
                    buff.seek(initial_pos);
                    return Err(e);
                },
            };
            proof {
                crate::buffer::lemma_be_val_one_byte(data.subrange(q + 2, q + 3));
                crate::buffer::lemma_be_val_one_byte(data.subrange(q + 3, q + 4));
                assert(data.subrange(q + 2, q + 3)[0] == data[q + 2]);
                assert(data.subrange(q + 3, q + 4)[0] == data[q + 3]);
            }
            if family == 1 {
                if source_netmask > 32 {
                    buff.seek(initial_pos);
                    return Err(
                        DrasilDNSError::InvalidSourceNetmask {
                            family,
                            max: 32,
                            provided: source_netmask,
                        },
                    );
                }
                if scope_netmask > 32 {
                    buff.seek(initial_pos);
                    return Err(
                        DrasilDNSError::InvalidScopeNetmask {
                            family,
                            max: 32,
                            provided: scope_netmask,
                        },
                    );
                }
                let addr: u32 = match buff.read_u32() {
                    Ok(v) => v,
                    Err(e) => {
                        buff.seek(initial_pos);
                        return Err(e);
                    },
                };
                Ok(EDNSOption::EcsIPv4 { source_netmask, scope_netmask, addr })
            } else if family == 2 {
                if source_netmask > 128 {
                    buff.seek(initial_pos);
                    return Err(
                        DrasilDNSError::InvalidSourceNetmask {
                            family,
                            max: 128,
                            provided: source_netmask,
                        },
                    );
                }
                if scope_netmask > 128 {
                    buff.seek(initial_pos);
                    return Err(
                        DrasilDNSError::InvalidScopeNetmask {
                            family,
                            max: 128,
                            provided: scope_netmask,
                        },
                    );
                }
                let addr: u128 = match buff.read_u128() {
                    Ok(v) => v,
                    Err(e) => {
                        buff.seek(initial_pos);
                        return Err(e);
                    },
                };
                Ok(EDNSOption::EcsIPv6 { source_netmask, scope_netmask, addr })
            } else {
                buff.seek(initial_pos);
                Err(DrasilDNSError::InvalidNetworkFamily { family })
            }
        } else {
            let bytes: Vec<u8> = match buff.read_bytes(len as usize) {
                Ok(v) => v,
                Err(e) => {
                    buff.seek(initial_pos);
                    return Err(e);
                },
            };
            Ok(EDNSOption::Unknown { code, len, data: bytes })
        }
    }
}


impl EDNSOption {
    /// Writes one option at the cursor: its code, its length and its value,
    /// each variant computing its own length. A client-subnet option with a
    /// bad family or netmask fails with the matching error; a fixed-size
    /// buffer without room fails with `EOF`; either way the buffer is left
    /// untouched.
    pub fn write_bytes(&self, buff: &mut Buffer) -> (r: Result<(), DrasilDNSError>)
        ensures
            match r {
                Ok(()) => match encode_option(self@) {
                    Ok(bytes) => {
                        &&& old(buff)@.pos + bytes.len() <= usize::MAX
                        &&& old(buff)@.expandable || old(buff)@.pos + bytes.len() <= old(
                            buff,
                        )@.bytes.len()
                        &&& final(buff)@.bytes == splice_at(old(buff)@.bytes, old(buff)@.pos, bytes)
                        &&& final(buff)@.pos == old(buff)@.pos + bytes.len()
                        &&& final(buff)@.expandable == old(buff)@.expandable
                    },
                    Err(_) => false,
                },
                Err(e) => {
                    &&& final(buff)@ == old(buff)@
                    &&& match encode_option(self@) {
                        Err(e2) => e == e2,
                        Ok(bytes) => {
                            &&& e == DrasilDNSError::EOF
                            &&& (!old(buff)@.expandable && old(buff)@.pos + bytes.len() > old(
                                buff,
                            )@.bytes.len()) || old(buff)@.pos + bytes.len() > usize::MAX
                        },
                    }
                },
            },
    {
        proof {
            crate::buffer::lemma_buffer_model_bounds(buff);
        }
        let b: Buffer = match self {
            EDNSOption::Unknown { code, len, data } => {
                if data.len() > *len as usize {
                    return Err(DrasilDNSError::EOF);
                }
                build_unknown(*code, *len, data)
            },
            EDNSOption::NSID { data } => {
                if data.len() > 65535 {
                    return Err(DrasilDNSError::EOF);
                }
                build_nsid(data)
            },
            EDNSOption::ClientSubnet { family, source_netmask, scope_netmask, addr } => {
                if *family != 1 && *family != 2 {
                    return Err(DrasilDNSError::InvalidNetworkFamily { family: *family });
                }
                let max: u8 = if *family == 1 {
                    32
                } else {
                    128
                };
                if *source_netmask > max {
                    return Err(
                        DrasilDNSError::InvalidSourceNetmask {
                            family: *family,
                            max,
                            provided: *source_netmask,
                        },
                    );
                }
                if *scope_netmask > max {
                    return Err(
                        DrasilDNSError::InvalidScopeNetmask {
                            family: *family,
                            max,
                            provided: *scope_netmask,
                        },
                    );
                }
                build_client_subnet(*family, *source_netmask, *scope_netmask, *addr)
            },
            EDNSOption::Cookie { client, server } => build_cookie(*client, *server),
            EDNSOption::KeepAlive { timeout } => build_keep_alive(*timeout),
            EDNSOption::Padding { len } => build_padding(*len),
            EDNSOption::ChainQuery { flags, qname_min_length } => build_chain_query(
                *flags,
                *qname_min_length,
            ),
            EDNSOption::KeyTag { tags } => {
                if tags.len() > 32767 {
                    return Err(DrasilDNSError::EOF);
                }
                build_key_tag(tags)
            },
            EDNSOption::EDE { info_code, extra_text } => {
                if extra_text.len() > 65533 {
                    return Err(DrasilDNSError::EOF);
                }
                build_ede(*info_code, extra_text)
            },
            EDNSOption::EcsIPv4 { source_netmask, scope_netmask, addr } => build_ecs_v4(
                *source_netmask,
                *scope_netmask,
                *addr,
            ),
            EDNSOption::EcsIPv6 { source_netmask, scope_netmask, addr } => build_ecs_v6(
                *source_netmask,
                *scope_netmask,
                *addr,
            ),
        };

        match buff.write_buffer(&b) {
            Ok(()) => Ok(()),
            Err(_) => Err(DrasilDNSError::EOF),
        }
    }
}

fn build_unknown(code: u16, len: u16, data: &Vec<u8>) -> (b: Buffer)
    requires
        data@.len() <= len,
    ensures
        encode_option(EDNSOptionModel::Unknown { code, len, data: data@ }) == Ok::<
            Seq<u8>,
            DrasilDNSError,
        >(b@.bytes),
{
    let mut b = Buffer::with_capacity(4 + len as usize);
    let r1 = b.write_u16(code);
    let r2 = b.write_u16(len);
    let r3 = b.write_bytes(data.as_slice());
    proof {
        assert(r1 is Ok && r2 is Ok && r3 is Ok);
        crate::buffer::lemma_be_bytes_of_len(code as int, 2);
        crate::buffer::lemma_be_bytes_of_len(len as int, 2);
        assert(b@.bytes =~= be_bytes_of(code as int, 2) + be_bytes_of(len as int, 2) + data@
            + zero_bytes(len - data@.len()));
    }
    b
}

fn build_nsid(data: &Vec<u8>) -> (b: Buffer)
    requires
        data@.len() <= 65535,
    ensures
        encode_option(EDNSOptionModel::NSID { data: data@ }) == Ok::<Seq<u8>, DrasilDNSError>(
            b@.bytes,
        ),
{
    let len: u16 = data.len() as u16;
    let mut b = Buffer::with_capacity(4 + len as usize);
    let r1 = b.write_u16(3);
    let r2 = b.write_u16(len);
    let r3 = b.write_bytes(data.as_slice());
    proof {
        assert(r1 is Ok && r2 is Ok && r3 is Ok);
        crate::buffer::lemma_be_bytes_of_len(3, 2);
        crate::buffer::lemma_be_bytes_of_len(len as int, 2);
        assert(b@.bytes =~= be_bytes_of(3, 2) + be_bytes_of(data@.len() as int, 2) + data@);
    }
    b
}

#[verifier::rlimit(60)]
fn build_client_subnet(family: u16, source_netmask: u8, scope_netmask: u8, addr: u128) -> (b: Buffer)
    requires
        cs_field_error(family, source_netmask, scope_netmask) is None,
    ensures
        encode_option(
            EDNSOptionModel::ClientSubnet { family, source_netmask, scope_netmask, addr },
        ) == Ok::<Seq<u8>, DrasilDNSError>(b@.bytes),
{
    let alen: usize = (source_netmask as usize + 7) / 8;
    let mut b = Buffer::with_capacity(8 + alen);
    let r1 = b.write_u16(8);
    let r2 = b.write_u16((4 + alen) as u16);
    let r3 = b.write_u16(family);
    let r4 = b.write_u8(source_netmask);
    let r5 = b.write_u8(scope_netmask);
    let r6 = b.write_be_uint(addr, alen);
    proof {
        assert(r1 is Ok && r2 is Ok && r3 is Ok && r4 is Ok && r5 is Ok && r6 is Ok);
        crate::buffer::lemma_be_bytes_of_len(8, 2);
        crate::buffer::lemma_be_bytes_of_len((4 + alen) as int, 2);
        crate::buffer::lemma_be_bytes_of_len(family as int, 2);
        crate::buffer::lemma_be_bytes_of_len(source_netmask as int, 1);
        crate::buffer::lemma_be_bytes_of_len(scope_netmask as int, 1);
        crate::buffer::lemma_be_bytes_of_len(addr as int, alen as nat);
        assert(b@.bytes =~= be_bytes_of(8, 2) + be_bytes_of(4 + cs_addr_len(source_netmask), 2)
            + be_bytes_of(family as int, 2) + be_bytes_of(source_netmask as int, 1) + be_bytes_of(
            scope_netmask as int,
            1,
        ) + be_bytes_of(addr as int, cs_addr_len(source_netmask) as nat));
    }
    b
}

fn build_cookie(client: u64, server: Option<u64>) -> (b: Buffer)
    ensures
        encode_option(EDNSOptionModel::Cookie { client, server }) == Ok::<Seq<u8>, DrasilDNSError>(
            b@.bytes,
        ),
{
    let len: u16 = if server.is_some() {
        16
    } else {
        8
    };
    let mut b = Buffer::with_capacity(4 + len as usize);
    let r1 = b.write_u16(10);
    let r2 = b.write_u16(len);
    let r3 = b.write_u64(client);
    proof {
        crate::buffer::lemma_be_bytes_of_len(10, 2);
        crate::buffer::lemma_be_bytes_of_len(len as int, 2);
        crate::buffer::lemma_be_bytes_of_len(client as int, 8);
    }
    match server {
        Some(srv) => {
            let r4 = b.write_u64(srv);
            proof {
                assert(r1 is Ok && r2 is Ok && r3 is Ok && r4 is Ok);
                crate::buffer::lemma_be_bytes_of_len(srv as int, 8);
                assert(b@.bytes =~= be_bytes_of(10, 2) + be_bytes_of(16, 2) + be_bytes_of(
                    client as int,
                    8,
                ) + be_bytes_of(srv as int, 8));
            }
        },
        None => {
            proof {
                assert(r1 is Ok && r2 is Ok && r3 is Ok);
                assert(b@.bytes =~= be_bytes_of(10, 2) + be_bytes_of(8, 2) + be_bytes_of(
                    client as int,
                    8,
                ));
            }
        },
    }
    b
}

fn build_keep_alive(timeout: u16) -> (b: Buffer)
    ensures
        encode_option(EDNSOptionModel::KeepAlive { timeout }) == Ok::<Seq<u8>, DrasilDNSError>(
            b@.bytes,
        ),
{
    let mut b = Buffer::with_capacity(6);
    let r1 = b.write_u16(11);
    let r2 = b.write_u16(2);
    let r3 = b.write_u16(timeout);
    proof {
        assert(r1 is Ok && r2 is Ok && r3 is Ok);
        crate::buffer::lemma_be_bytes_of_len(11, 2);
        crate::buffer::lemma_be_bytes_of_len(2, 2);
        crate::buffer::lemma_be_bytes_of_len(timeout as int, 2);
        assert(b@.bytes =~= be_bytes_of(11, 2) + be_bytes_of(2, 2) + be_bytes_of(timeout as int, 2));
    }
    b
}

fn build_padding(len: u16) -> (b: Buffer)
    ensures
        encode_option(EDNSOptionModel::Padding { len }) == Ok::<Seq<u8>, DrasilDNSError>(b@.bytes),
{
    let mut b = Buffer::with_capacity(4 + len as usize);
    let r1 = b.write_u16(12);
    let r2 = b.write_u16(len);
    proof {
        assert(r1 is Ok && r2 is Ok);
        crate::buffer::lemma_be_bytes_of_len(12, 2);
        crate::buffer::lemma_be_bytes_of_len(len as int, 2);
        assert(b@.bytes =~= be_bytes_of(12, 2) + be_bytes_of(len as int, 2) + zero_bytes(
            len as int,
        ));
    }
    b
}

fn build_chain_query(flags: u16, qname_min_length: u16) -> (b: Buffer)
    ensures
        encode_option(EDNSOptionModel::ChainQuery { flags, qname_min_length }) == Ok::<
            Seq<u8>,
            DrasilDNSError,
        >(b@.bytes),
{
    let mut b = Buffer::with_capacity(8);
    let r1 = b.write_u16(13);
    let r2 = b.write_u16(4);
    let r3 = b.write_u16(flags);
    let r4 = b.write_u16(qname_min_length);
    proof {
        assert(r1 is Ok && r2 is Ok && r3 is Ok && r4 is Ok);
        crate::buffer::lemma_be_bytes_of_len(13, 2);
        crate::buffer::lemma_be_bytes_of_len(4, 2);
        crate::buffer::lemma_be_bytes_of_len(flags as int, 2);
        crate::buffer::lemma_be_bytes_of_len(qname_min_length as int, 2);
        assert(b@.bytes =~= be_bytes_of(13, 2) + be_bytes_of(4, 2) + be_bytes_of(flags as int, 2)
            + be_bytes_of(qname_min_length as int, 2));
    }
    b
}

fn build_key_tag(tags: &Vec<u16>) -> (b: Buffer)
    requires
        tags@.len() <= 32767,
    ensures
        encode_option(EDNSOptionModel::KeyTag { tags: tags@ }) == Ok::<Seq<u8>, DrasilDNSError>(
            b@.bytes,
        ),
{
    let len2: usize = 2 * tags.len();
    let mut b = Buffer::with_capacity(4 + len2);
    let r1 = b.write_u16(14);
    let r2 = b.write_u16(len2 as u16);
    proof {
        assert(r1 is Ok && r2 is Ok);
        crate::buffer::lemma_be_bytes_of_len(14, 2);
        crate::buffer::lemma_be_bytes_of_len(len2 as int, 2);
        assert(tags_bytes(tags@, 0) =~= Seq::<u8>::empty());
        assert(b@.bytes =~= be_bytes_of(14, 2) + be_bytes_of(len2 as int, 2) + tags_bytes(tags@, 0)
            + zero_bytes(len2 as int));
    }
    let mut k: usize = 0;
    while k < tags.len()
        invariant
            tags@.len() <= 32767,
            len2 == 2 * tags@.len(),
            k <= tags@.len(),
            b@.expandable == false,
            b@.bytes.len() == 4 + len2,
            b@.pos == 4 + 2 * k,
            b@.bytes == be_bytes_of(14, 2) + be_bytes_of(len2 as int, 2) + tags_bytes(
                tags@,
                k as int,
            ) + zero_bytes(len2 - 2 * k),
            tags_bytes(tags@, k as int).len() == 2 * k,
        decreases tags@.len() - k,
    {
        let r = b.write_u16(tags[k]);
        proof {
            assert(r is Ok);
            crate::buffer::lemma_be_bytes_of_len(tags@[k as int] as int, 2);
            assert(tags_bytes(tags@, k + 1) == tags_bytes(tags@, k as int) + be_bytes_of(
                tags@[k as int] as int,
                2,
            ));
            assert(b@.bytes =~= be_bytes_of(14, 2) + be_bytes_of(len2 as int, 2) + tags_bytes(
                tags@,
                k + 1,
            ) + zero_bytes(len2 - 2 * (k + 1)));
        }
        k = k + 1;
    }
    proof {
        assert(zero_bytes(0) =~= Seq::<u8>::empty());
        assert(b@.bytes =~= be_bytes_of(14, 2) + be_bytes_of(2 * tags@.len() as int, 2)
            + tags_bytes(tags@, tags@.len() as int));
    }
    b
}

fn build_ede(info_code: u16, extra_text: &Vec<u8>) -> (b: Buffer)
    requires
        extra_text@.len() <= 65533,
    ensures
        encode_option(EDNSOptionModel::EDE { info_code, extra_text: extra_text@ }) == Ok::<
            Seq<u8>,
            DrasilDNSError,
        >(b@.bytes),
{
    let len: u16 = (2 + extra_text.len()) as u16;
    let mut b = Buffer::with_capacity(4 + len as usize);
    let r1 = b.write_u16(15);
    let r2 = b.write_u16(len);
    let r3 = b.write_u16(info_code);
    let r4 = b.write_bytes(extra_text.as_slice());
    proof {
        assert(r1 is Ok && r2 is Ok && r3 is Ok && r4 is Ok);
        crate::buffer::lemma_be_bytes_of_len(15, 2);
        crate::buffer::lemma_be_bytes_of_len(len as int, 2);
        crate::buffer::lemma_be_bytes_of_len(info_code as int, 2);
        assert(b@.bytes =~= be_bytes_of(15, 2) + be_bytes_of(2 + extra_text@.len() as int, 2)
            + be_bytes_of(info_code as int, 2) + extra_text@);
    }
    b
}

fn build_ecs_v4(source_netmask: u8, scope_netmask: u8, addr: u32) -> (b: Buffer)
    ensures
        encode_option(EDNSOptionModel::EcsIPv4 { source_netmask, scope_netmask, addr }) == Ok::<
            Seq<u8>,
            DrasilDNSError,
        >(b@.bytes),
{
    let mut b = Buffer::with_capacity(12);
    let r1 = b.write_u16(16);
    let r2 = b.write_u16(8);
    let r3 = b.write_u16(1);
    let r4 = b.write_u8(source_netmask);
    let r5 = b.write_u8(scope_netmask);
    let r6 = b.write_u32(addr);
    proof {
        assert(r1 is Ok && r2 is Ok && r3 is Ok && r4 is Ok && r5 is Ok && r6 is Ok);
        crate::buffer::lemma_be_bytes_of_len(16, 2);
        crate::buffer::lemma_be_bytes_of_len(8, 2);
        crate::buffer::lemma_be_bytes_of_len(1, 2);
        crate::buffer::lemma_be_bytes_of_len(source_netmask as int, 1);
        crate::buffer::lemma_be_bytes_of_len(scope_netmask as int, 1);
        crate::buffer::lemma_be_bytes_of_len(addr as int, 4);
        assert(b@.bytes =~= be_bytes_of(16, 2) + be_bytes_of(8, 2) + be_bytes_of(1, 2)
            + be_bytes_of(source_netmask as int, 1) + be_bytes_of(scope_netmask as int, 1)
            + be_bytes_of(addr as int, 4));
    }
    b
}

fn build_ecs_v6(source_netmask: u8, scope_netmask: u8, addr: u128) -> (b: Buffer)
    ensures
        encode_option(EDNSOptionModel::EcsIPv6 { source_netmask, scope_netmask, addr }) == Ok::<
            Seq<u8>,
            DrasilDNSError,
        >(b@.bytes),
{
    let mut b = Buffer::with_capacity(24);
    let r1 = b.write_u16(16);
    let r2 = b.write_u16(20);
    let r3 = b.write_u16(2);
    let r4 = b.write_u8(source_netmask);
    let r5 = b.write_u8(scope_netmask);
    let r6 = b.write_u128(addr);
    proof {
        assert(r1 is Ok && r2 is Ok && r3 is Ok && r4 is Ok && r5 is Ok && r6 is Ok);
        crate::buffer::lemma_be_bytes_of_len(16, 2);
        crate::buffer::lemma_be_bytes_of_len(20, 2);
        crate::buffer::lemma_be_bytes_of_len(2, 2);
        crate::buffer::lemma_be_bytes_of_len(source_netmask as int, 1);
        crate::buffer::lemma_be_bytes_of_len(scope_netmask as int, 1);
        crate::buffer::lemma_be_bytes_of_len(addr as int, 16);
        assert(b@.bytes =~= be_bytes_of(16, 2) + be_bytes_of(20, 2) + be_bytes_of(2, 2)
            + be_bytes_of(source_netmask as int, 1) + be_bytes_of(scope_netmask as int, 1)
            + be_bytes_of(addr as int, 16));
    }
    b
}


/// An option whose value survives an encode–decode round trip: its fields
/// fit their wire fields, a client-subnet address fits the width its
/// source netmask selects, and an opaque option's code names no variant.
pub open spec fn option_round_trip_valid(o: EDNSOptionModel) -> bool {
    match o {
        EDNSOptionModel::Unknown { code, len, data } => data.len() == len && edns_option_type_of(
            code,
        ) is Unknown,
        EDNSOptionModel::NSID { data } => data.len() <= 65535,
        EDNSOptionModel::ClientSubnet { family, source_netmask, scope_netmask, addr } => {
            &&& cs_field_error(family, source_netmask, scope_netmask) is None
            &&& (addr as int) < pow256(cs_addr_len(source_netmask) as nat)
        },
        EDNSOptionModel::Cookie { .. } => true,
        EDNSOptionModel::KeepAlive { .. } => true,
        EDNSOptionModel::Padding { .. } => true,
        EDNSOptionModel::ChainQuery { .. } => true,
        EDNSOptionModel::KeyTag { tags } => tags.len() <= 32767,
        EDNSOptionModel::EDE { info_code, extra_text } => extra_text.len() <= 65533,
        EDNSOptionModel::EcsIPv4 { source_netmask, scope_netmask, addr } => source_netmask <= 32
            && scope_netmask <= 32,
        EDNSOptionModel::EcsIPv6 { source_netmask, scope_netmask, addr } => source_netmask <= 128
            && scope_netmask <= 128,
    }
}

/// A valid option written and read back is itself, and the read stops
/// exactly where the write ended, from anywhere inside a larger message.
#[verifier::rlimit(100)]
pub proof fn lemma_option_round_trip(data: Seq<u8>, p: int, o: EDNSOptionModel)
    requires
        option_round_trip_valid(o),
        0 <= p,
        encode_option(o) is Ok,
        p + encode_option(o)->Ok_0.len() <= data.len(),
        p + encode_option(o)->Ok_0.len() <= usize::MAX,
        data.subrange(p, p + encode_option(o)->Ok_0.len()) == encode_option(o)->Ok_0,
    ensures
        parse_option_at(data, p) == Ok::<(EDNSOptionModel, int), DrasilDNSError>(
            (o, p + encode_option(o)->Ok_0.len()),
        ),
        encode_option(o)->Ok_0.len() >= 4,
{
    let e = encode_option(o)->Ok_0;
    crate::buffer::lemma_pow256_values();
    let sub = data.subrange(p, p + e.len());
    match o {
        EDNSOptionModel::Unknown { code, len, data: od } => {
            crate::buffer::lemma_be_bytes_of_len(code as int, 2);
            crate::buffer::lemma_be_bytes_of_len(len as int, 2);
            assert(data.subrange(p, p + 2) =~= sub.subrange(0, 2));
            assert(e.subrange(0, 2) =~= be_bytes_of(code as int, 2));
            crate::buffer::lemma_be_val_of_be_bytes(code as int, 2);
            assert(data.subrange(p + 2, p + 4) =~= sub.subrange(2, 4));
            assert(e.subrange(2, 4) =~= be_bytes_of(len as int, 2));
            crate::buffer::lemma_be_val_of_be_bytes(len as int, 2);
            assert(zero_bytes(0) =~= Seq::<u8>::empty());
            assert(data.subrange(p + 4, p + 4 + len) =~= sub.subrange(4, 4 + len));
            assert(e.subrange(4, 4 + len) =~= od);
        },
        EDNSOptionModel::NSID { data: od } => {
            crate::buffer::lemma_be_bytes_of_len(3, 2);
            crate::buffer::lemma_be_bytes_of_len(od.len() as int, 2);
            assert(data.subrange(p, p + 2) =~= sub.subrange(0, 2));
            assert(e.subrange(0, 2) =~= be_bytes_of(3, 2));
            crate::buffer::lemma_be_val_of_be_bytes(3, 2);
            assert(data.subrange(p + 2, p + 4) =~= sub.subrange(2, 4));
            assert(e.subrange(2, 4) =~= be_bytes_of(od.len() as int, 2));
            crate::buffer::lemma_be_val_of_be_bytes(od.len() as int, 2);
            assert(data.subrange(p + 4, p + 4 + od.len()) =~= sub.subrange(4, 4 + od.len() as int));
            assert(e.subrange(4, 4 + od.len() as int) =~= od);
        },
        EDNSOptionModel::ClientSubnet { family, source_netmask, scope_netmask, addr } => {
            let alen = cs_addr_len(source_netmask);
            crate::buffer::lemma_be_bytes_of_len(8, 2);
            crate::buffer::lemma_be_bytes_of_len(4 + alen, 2);
            crate::buffer::lemma_be_bytes_of_len(family as int, 2);
            crate::buffer::lemma_be_bytes_of_len(source_netmask as int, 1);
            crate::buffer::lemma_be_bytes_of_len(scope_netmask as int, 1);
            crate::buffer::lemma_be_bytes_of_len(addr as int, alen as nat);
            assert(data.subrange(p, p + 2) =~= sub.subrange(0, 2));
            assert(e.subrange(0, 2) =~= be_bytes_of(8, 2));
            crate::buffer::lemma_be_val_of_be_bytes(8, 2);
            assert(data.subrange(p + 4, p + 6) =~= sub.subrange(4, 6));
            assert(e.subrange(4, 6) =~= be_bytes_of(family as int, 2));
            crate::buffer::lemma_be_val_of_be_bytes(family as int, 2);
            assert(data.subrange(p + 6, p + 7) =~= sub.subrange(6, 7));
            assert(e.subrange(6, 7) =~= be_bytes_of(source_netmask as int, 1));
            crate::buffer::lemma_be_val_of_be_bytes(source_netmask as int, 1);
            crate::buffer::lemma_be_val_one_byte(data.subrange(p + 6, p + 7));
            assert(data[p + 6] == source_netmask);
            assert(data.subrange(p + 7, p + 8) =~= sub.subrange(7, 8));
            assert(e.subrange(7, 8) =~= be_bytes_of(scope_netmask as int, 1));
            crate::buffer::lemma_be_val_of_be_bytes(scope_netmask as int, 1);
            crate::buffer::lemma_be_val_one_byte(data.subrange(p + 7, p + 8));
            assert(data[p + 7] == scope_netmask);
            assert(data.subrange(p + 8, p + 8 + alen) =~= sub.subrange(8, 8 + alen));
            assert(e.subrange(8, 8 + alen) =~= be_bytes_of(addr as int, alen as nat));
            crate::buffer::lemma_be_val_of_be_bytes(addr as int, alen as nat);
        },
        EDNSOptionModel::Cookie { client, server } => {
            crate::buffer::lemma_be_bytes_of_len(10, 2);
            crate::buffer::lemma_be_bytes_of_len(8, 2);
            crate::buffer::lemma_be_bytes_of_len(16, 2);
            crate::buffer::lemma_be_bytes_of_len(client as int, 8);
            assert(data.subrange(p, p + 2) =~= sub.subrange(0, 2));
            assert(e.subrange(0, 2) =~= be_bytes_of(10, 2));
            crate::buffer::lemma_be_val_of_be_bytes(10, 2);
            match server {
                Some(srv) => {
                    crate::buffer::lemma_be_bytes_of_len(srv as int, 8);
                    assert(data.subrange(p + 2, p + 4) =~= sub.subrange(2, 4));
                    assert(e.subrange(2, 4) =~= be_bytes_of(16, 2));
                    crate::buffer::lemma_be_val_of_be_bytes(16, 2);
                    assert(data.subrange(p + 4, p + 12) =~= sub.subrange(4, 12));
                    assert(e.subrange(4, 12) =~= be_bytes_of(client as int, 8));
                    crate::buffer::lemma_be_val_of_be_bytes(client as int, 8);
                    assert(data.subrange(p + 12, p + 20) =~= sub.subrange(12, 20));
                    assert(e.subrange(12, 20) =~= be_bytes_of(srv as int, 8));
                    crate::buffer::lemma_be_val_of_be_bytes(srv as int, 8);
                },
                None => {
                    assert(data.subrange(p + 2, p + 4) =~= sub.subrange(2, 4));
                    assert(e.subrange(2, 4) =~= be_bytes_of(8, 2));
                    crate::buffer::lemma_be_val_of_be_bytes(8, 2);
                    assert(data.subrange(p + 4, p + 12) =~= sub.subrange(4, 12));
                    assert(e.subrange(4, 12) =~= be_bytes_of(client as int, 8));
                    crate::buffer::lemma_be_val_of_be_bytes(client as int, 8);
                },
            }
        },
        EDNSOptionModel::KeepAlive { timeout } => {
            crate::buffer::lemma_be_bytes_of_len(11, 2);
            crate::buffer::lemma_be_bytes_of_len(2, 2);
            crate::buffer::lemma_be_bytes_of_len(timeout as int, 2);
            assert(data.subrange(p, p + 2) =~= sub.subrange(0, 2));
            assert(e.subrange(0, 2) =~= be_bytes_of(11, 2));
            crate::buffer::lemma_be_val_of_be_bytes(11, 2);
            assert(data.subrange(p + 2, p + 4) =~= sub.subrange(2, 4));
            assert(e.subrange(2, 4) =~= be_bytes_of(2, 2));
            crate::buffer::lemma_be_val_of_be_bytes(2, 2);
            assert(data.subrange(p + 4, p + 6) =~= sub.subrange(4, 6));
            assert(e.subrange(4, 6) =~= be_bytes_of(timeout as int, 2));
            crate::buffer::lemma_be_val_of_be_bytes(timeout as int, 2);
        },
        EDNSOptionModel::Padding { len } => {
            crate::buffer::lemma_be_bytes_of_len(12, 2);
            crate::buffer::lemma_be_bytes_of_len(len as int, 2);
            assert(data.subrange(p, p + 2) =~= sub.subrange(0, 2));
            assert(e.subrange(0, 2) =~= be_bytes_of(12, 2));
            crate::buffer::lemma_be_val_of_be_bytes(12, 2);
            assert(data.subrange(p + 2, p + 4) =~= sub.subrange(2, 4));
            assert(e.subrange(2, 4) =~= be_bytes_of(len as int, 2));
            crate::buffer::lemma_be_val_of_be_bytes(len as int, 2);
        },
        EDNSOptionModel::ChainQuery { flags, qname_min_length } => {
            crate::buffer::lemma_be_bytes_of_len(13, 2);
            crate::buffer::lemma_be_bytes_of_len(4, 2);
            crate::buffer::lemma_be_bytes_of_len(flags as int, 2);
            crate::buffer::lemma_be_bytes_of_len(qname_min_length as int, 2);
            assert(data.subrange(p, p + 2) =~= sub.subrange(0, 2));
            assert(e.subrange(0, 2) =~= be_bytes_of(13, 2));
            crate::buffer::lemma_be_val_of_be_bytes(13, 2);
            assert(data.subrange(p + 2, p + 4) =~= sub.subrange(2, 4));
            assert(e.subrange(2, 4) =~= be_bytes_of(4, 2));
            crate::buffer::lemma_be_val_of_be_bytes(4, 2);
            assert(data.subrange(p + 4, p + 6) =~= sub.subrange(4, 6));
            assert(e.subrange(4, 6) =~= be_bytes_of(flags as int, 2));
            crate::buffer::lemma_be_val_of_be_bytes(flags as int, 2);
            assert(data.subrange(p + 6, p + 8) =~= sub.subrange(6, 8));
            assert(e.subrange(6, 8) =~= be_bytes_of(qname_min_length as int, 2));
            crate::buffer::lemma_be_val_of_be_bytes(qname_min_length as int, 2);
        },
        EDNSOptionModel::KeyTag { tags } => {
            crate::buffer::lemma_be_bytes_of_len(14, 2);
            crate::buffer::lemma_be_bytes_of_len(2 * tags.len() as int, 2);
            lemma_tags_bytes_len(tags, tags.len() as int);
            assert(data.subrange(p, p + 2) =~= sub.subrange(0, 2));
            assert(e.subrange(0, 2) =~= be_bytes_of(14, 2));
            crate::buffer::lemma_be_val_of_be_bytes(14, 2);
            assert(data.subrange(p + 2, p + 4) =~= sub.subrange(2, 4));
            assert(e.subrange(2, 4) =~= be_bytes_of(2 * tags.len() as int, 2));
            crate::buffer::lemma_be_val_of_be_bytes(2 * tags.len() as int, 2);
            assert(data.subrange(p + 4, p + 4 + 2 * tags.len()) =~= sub.subrange(
                4,
                4 + 2 * tags.len() as int,
            ));
            assert(e.subrange(4, 4 + 2 * tags.len() as int) =~= tags_bytes(
                tags,
                tags.len() as int,
            ));
            lemma_parse_tags_round_trip(data, p + 4, tags, tags.len() as int);
            assert(parse_tags(data, p + 4, tags.len() as int) =~= tags);
        },
        EDNSOptionModel::EDE { info_code, extra_text } => {
            crate::buffer::lemma_be_bytes_of_len(15, 2);
            crate::buffer::lemma_be_bytes_of_len(2 + extra_text.len() as int, 2);
            crate::buffer::lemma_be_bytes_of_len(info_code as int, 2);
            assert(data.subrange(p, p + 2) =~= sub.subrange(0, 2));
            assert(e.subrange(0, 2) =~= be_bytes_of(15, 2));
            crate::buffer::lemma_be_val_of_be_bytes(15, 2);
            assert(data.subrange(p + 2, p + 4) =~= sub.subrange(2, 4));
            assert(e.subrange(2, 4) =~= be_bytes_of(2 + extra_text.len() as int, 2));
            crate::buffer::lemma_be_val_of_be_bytes(2 + extra_text.len() as int, 2);
            assert(data.subrange(p + 4, p + 6) =~= sub.subrange(4, 6));
            assert(e.subrange(4, 6) =~= be_bytes_of(info_code as int, 2));
            crate::buffer::lemma_be_val_of_be_bytes(info_code as int, 2);
            assert(data.subrange(p + 6, p + 6 + extra_text.len()) =~= sub.subrange(
                6,
                6 + extra_text.len() as int,
            ));
            assert(e.subrange(6, 6 + extra_text.len() as int) =~= extra_text);
        },
        EDNSOptionModel::EcsIPv4 { source_netmask, scope_netmask, addr } => {
            crate::buffer::lemma_be_bytes_of_len(16, 2);
            crate::buffer::lemma_be_bytes_of_len(8, 2);
            crate::buffer::lemma_be_bytes_of_len(1, 2);
            crate::buffer::lemma_be_bytes_of_len(source_netmask as int, 1);
            crate::buffer::lemma_be_bytes_of_len(scope_netmask as int, 1);
            crate::buffer::lemma_be_bytes_of_len(addr as int, 4);
            assert(data.subrange(p, p + 2) =~= sub.subrange(0, 2));
            assert(e.subrange(0, 2) =~= be_bytes_of(16, 2));
            crate::buffer::lemma_be_val_of_be_bytes(16, 2);
            assert(data.subrange(p + 4, p + 6) =~= sub.subrange(4, 6));
            assert(e.subrange(4, 6) =~= be_bytes_of(1, 2));
            crate::buffer::lemma_be_val_of_be_bytes(1, 2);
            assert(data.subrange(p + 6, p + 7) =~= sub.subrange(6, 7));
            assert(e.subrange(6, 7) =~= be_bytes_of(source_netmask as int, 1));
            crate::buffer::lemma_be_val_one_byte(data.subrange(p + 6, p + 7));
            assert(data[p + 6] == source_netmask);
            assert(data.subrange(p + 7, p + 8) =~= sub.subrange(7, 8));
            assert(e.subrange(7, 8) =~= be_bytes_of(scope_netmask as int, 1));
            crate::buffer::lemma_be_val_one_byte(data.subrange(p + 7, p + 8));
            assert(data[p + 7] == scope_netmask);
            assert(data.subrange(p + 8, p + 12) =~= sub.subrange(8, 12));
            assert(e.subrange(8, 12) =~= be_bytes_of(addr as int, 4));
            crate::buffer::lemma_be_val_of_be_bytes(addr as int, 4);
        },
        EDNSOptionModel::EcsIPv6 { source_netmask, scope_netmask, addr } => {
            crate::buffer::lemma_be_bytes_of_len(16, 2);
            crate::buffer::lemma_be_bytes_of_len(20, 2);
            crate::buffer::lemma_be_bytes_of_len(2, 2);
            crate::buffer::lemma_be_bytes_of_len(source_netmask as int, 1);
            crate::buffer::lemma_be_bytes_of_len(scope_netmask as int, 1);
            crate::buffer::lemma_be_bytes_of_len(addr as int, 16);
            assert(data.subrange(p, p + 2) =~= sub.subrange(0, 2));
            assert(e.subrange(0, 2) =~= be_bytes_of(16, 2));
            crate::buffer::lemma_be_val_of_be_bytes(16, 2);
            assert(data.subrange(p + 4, p + 6) =~= sub.subrange(4, 6));
            assert(e.subrange(4, 6) =~= be_bytes_of(2, 2));
            crate::buffer::lemma_be_val_of_be_bytes(2, 2);
            assert(data.subrange(p + 6, p + 7) =~= sub.subrange(6, 7));
            assert(e.subrange(6, 7) =~= be_bytes_of(source_netmask as int, 1));
            crate::buffer::lemma_be_val_one_byte(data.subrange(p + 6, p + 7));
            assert(data[p + 6] == source_netmask);
            assert(data.subrange(p + 7, p + 8) =~= sub.subrange(7, 8));
            assert(e.subrange(7, 8) =~= be_bytes_of(scope_netmask as int, 1));
            crate::buffer::lemma_be_val_one_byte(data.subrange(p + 7, p + 8));
            assert(data[p + 7] == scope_netmask);
            assert(data.subrange(p + 8, p + 24) =~= sub.subrange(8, 24));
            assert(e.subrange(8, 24) =~= be_bytes_of(addr as int, 16));
            crate::buffer::lemma_be_val_of_be_bytes(addr as int, 16);
        },
    }
}

/// A run of two-byte key tags is as long as twice their count.
proof fn lemma_tags_bytes_len(tags: Seq<u16>, i: int)
    requires
        0 <= i <= tags.len(),
    ensures
        tags_bytes(tags, i).len() == 2 * i,
    decreases i,
{
    if i > 0 {
        lemma_tags_bytes_len(tags, i - 1);
        crate::buffer::lemma_be_bytes_of_len(tags[i - 1] as int, 2);
    }
}

/// Key tags written two bytes each are read back unchanged.
proof fn lemma_parse_tags_round_trip(data: Seq<u8>, q: int, tags: Seq<u16>, i: int)
    requires
        0 <= i <= tags.len(),
        0 <= q,
        q + 2 * tags.len() <= data.len(),
        data.subrange(q, q + 2 * tags.len()) == tags_bytes(tags, tags.len() as int),
    ensures
        forall|k: int|
            0 <= k < tags.len() ==> #[trigger] parse_tags(data, q, tags.len() as int)[k]
                == tags[k],
    decreases i,
{
    lemma_tags_bytes_len(tags, tags.len() as int);
    assert forall|k: int| 0 <= k < tags.len() implies #[trigger] parse_tags(
        data,
        q,
        tags.len() as int,
    )[k] == tags[k] by {
        lemma_tags_bytes_slot(data, q, tags, k);
    }
}

proof fn lemma_tags_bytes_slot(data: Seq<u8>, q: int, tags: Seq<u16>, k: int)
    requires
        0 <= k < tags.len(),
        0 <= q,
        q + 2 * tags.len() <= data.len(),
        data.subrange(q, q + 2 * tags.len()) == tags_bytes(tags, tags.len() as int),
    ensures
        parse_tags(data, q, tags.len() as int)[k] == tags[k],
{
    lemma_tags_bytes_len(tags, tags.len() as int);
    lemma_tags_bytes_at(tags, tags.len() as int, k);
    assert(data.subrange(q + 2 * k, q + 2 * k + 2) =~= data.subrange(
        q,
        q + 2 * tags.len(),
    ).subrange(2 * k, 2 * k + 2));
    crate::buffer::lemma_be_bytes_of_len(tags[k] as int, 2);
    assert(tags_bytes(tags, tags.len() as int).subrange(2 * k, 2 * k + 2) == be_bytes_of(
        tags[k] as int,
        2,
    ));
    crate::buffer::lemma_pow256_values();
    crate::buffer::lemma_be_val_of_be_bytes(tags[k] as int, 2);
}

/// The bytes of tag `k` sit at offset `2 k` of the run.
proof fn lemma_tags_bytes_at(tags: Seq<u16>, i: int, k: int)
    requires
        0 <= k < i <= tags.len(),
    ensures
        tags_bytes(tags, i).subrange(2 * k, 2 * k + 2) == be_bytes_of(tags[k] as int, 2),
    decreases i,
{
    lemma_tags_bytes_len(tags, i);
    crate::buffer::lemma_be_bytes_of_len(tags[i - 1] as int, 2);
    if k == i - 1 {
        lemma_tags_bytes_len(tags, i - 1);
        assert(tags_bytes(tags, i).subrange(2 * k, 2 * k + 2) =~= be_bytes_of(
            tags[k] as int,
            2,
        ));
    } else {
        lemma_tags_bytes_at(tags, i - 1, k);
        lemma_tags_bytes_len(tags, i - 1);
        assert(tags_bytes(tags, i).subrange(2 * k, 2 * k + 2) =~= tags_bytes(
            tags,
            i - 1,
        ).subrange(2 * k, 2 * k + 2));
    }
}

} // verus!
