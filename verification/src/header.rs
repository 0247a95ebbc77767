//! The fixed twelve-byte message header: id, packed flag bytes and the four
//! section counts.

use vstd::prelude::*;

use crate::buffer::{be_bytes_of, be_val, splice_at, Buffer, BufferModel};
use crate::error::DrasilDNSError;

verus! {

/// # Request Kind
/// Flag in the message header telling a query from a response.
#[derive(Debug, Clone, Copy, PartialEq, Eq)]
pub enum RequestKind {
    Query,
    Response,
}

/// The flag bit of a [`RequestKind`].
pub open spec fn request_kind_code(k: RequestKind) -> u8 {
    match k {
        RequestKind::Query => 0,
        RequestKind::Response => 1,
    }
}

/// The [`RequestKind`] a flag bit names.
pub open spec fn request_kind_of(v: u8) -> RequestKind {
    if v == 0 {
        RequestKind::Query
    } else {
        RequestKind::Response
    }
}

impl RequestKind {
    /// The kind a flag bit names; only 0 and 1 are kinds.
    pub fn from_code(v: u8) -> (r: Self)
        requires
            v <= 1,
        ensures
            r == request_kind_of(v),
    {
        if v == 0 {
            RequestKind::Query
        } else {
            RequestKind::Response
        }
    }

    /// The flag bit of this kind.
    pub fn to_code(self) -> (r: u8)
        ensures
            r == request_kind_code(self),
    {
        match self {
            RequestKind::Query => 0,
            RequestKind::Response => 1,
        }
    }
}

/// # Response Code
/// The four-bit result field of a response header. Unassigned values read
/// from the wire fall back to `NOERROR`.
#[derive(Debug, Clone, Copy, PartialEq, Eq)]
pub enum ResponseCode {
    NOERROR,
    FORMERR,
    SERVFAIL,
    NXDOMAIN,
    NOTIMP,
    REFUSED,
}

/// The numeric value of a [`ResponseCode`].
pub open spec fn response_code_code(c: ResponseCode) -> u8 {
    match c {
        ResponseCode::NOERROR => 0,
        ResponseCode::FORMERR => 1,
        ResponseCode::SERVFAIL => 2,
        ResponseCode::NXDOMAIN => 3,
        ResponseCode::NOTIMP => 4,
        ResponseCode::REFUSED => 5,
    }
}

/// The [`ResponseCode`] a numeric value names; unassigned values are `NOERROR`.
pub open spec fn response_code_of(v: u8) -> ResponseCode {
    if v == 1 {
        ResponseCode::FORMERR
    } else if v == 2 {
        ResponseCode::SERVFAIL
    } else if v == 3 {
        ResponseCode::NXDOMAIN
    } else if v == 4 {
        ResponseCode::NOTIMP
    } else if v == 5 {
        ResponseCode::REFUSED
    } else {
        ResponseCode::NOERROR
    }
}

impl ResponseCode {
    /// The code a numeric value names; unassigned values become `NOERROR`.
    pub fn from_code(v: u8) -> (r: Self)
        ensures
            r == response_code_of(v),
    {
        if v == 1 {
            ResponseCode::FORMERR
        } else if v == 2 {
            ResponseCode::SERVFAIL
        } else if v == 3 {
            ResponseCode::NXDOMAIN
        } else if v == 4 {
            ResponseCode::NOTIMP
        } else if v == 5 {
            ResponseCode::REFUSED
        } else {
            ResponseCode::NOERROR
        }
    }

    /// The numeric value of this code.
    pub fn to_code(self) -> (r: u8)
        ensures
            r == response_code_code(self),
    {
        match self {
            ResponseCode::NOERROR => 0,
            ResponseCode::FORMERR => 1,
            ResponseCode::SERVFAIL => 2,
            ResponseCode::NXDOMAIN => 3,
            ResponseCode::NOTIMP => 4,
            ResponseCode::REFUSED => 5,
        }
    }
}

/// # Header
/// Struct representing a DNS message header. The four section counts are
/// declarations the assembler trusts when deciding how many items to parse.
#[derive(Debug, Clone, Copy, PartialEq, Eq)]
pub struct Header {
    pub id: u16,
    pub request_kind: RequestKind,
    pub opcode: u8,
    pub is_authoritative_answer: bool,
    pub is_truncated_message: bool,
    pub is_recursion_desired: bool,
    pub is_recursion_available: bool,
    pub response_code: ResponseCode,
    pub question_count: u16,
    pub answer_count: u16,
    pub authority_count: u16,
    pub additional_count: u16,
}

/// A header whose opcode fits its four wire bits.
pub open spec fn header_valid(h: Header) -> bool {
    h.opcode < 16
}

/// The high flag byte: request/response, opcode, and the AA, TC, RD bits.
pub open spec fn header_flag_high(h: Header) -> u8 {
    (request_kind_code(h.request_kind) * 128 + (h.opcode % 16) * 8 + (if h.is_authoritative_answer {
        4int
    } else {
        0int
    }) + (if h.is_truncated_message {
        2int
    } else {
        0int
    }) + (if h.is_recursion_desired {
        1int
    } else {
        0int
    })) as u8
}

/// The low flag byte: the RA bit, zero reserved bits, and the response code.
pub open spec fn header_flag_low(h: Header) -> u8 {
    ((if h.is_recursion_available {
        128int
    } else {
        0int
    }) + response_code_code(h.response_code)) as u8
}

/// The twelve bytes of a header on the wire.
pub open spec fn encode_header(h: Header) -> Seq<u8> {
    be_bytes_of(h.id as int, 2) + seq![header_flag_high(h), header_flag_low(h)] + be_bytes_of(
        h.question_count as int,
        2,
    ) + be_bytes_of(h.answer_count as int, 2) + be_bytes_of(h.authority_count as int, 2)
        + be_bytes_of(h.additional_count as int, 2)
}

/// The header twelve bytes at offset `p` of a message describe.
pub open spec fn parse_header_at(data: Seq<u8>, p: int) -> Header {
    let fh = data[p + 2];
    let fl = data[p + 3];
    Header {
        id: be_val(data.subrange(p, p + 2)) as u16,
        request_kind: request_kind_of((fh / 128) as u8),
        opcode: ((fh / 8) % 16) as u8,
        is_authoritative_answer: (fh / 4) % 2 == 1,
        is_truncated_message: (fh / 2) % 2 == 1,
        is_recursion_desired: fh % 2 == 1,
        is_recursion_available: fl / 128 == 1,
        response_code: response_code_of((fl % 16) as u8),
        question_count: be_val(data.subrange(p + 4, p + 6)) as u16,
        answer_count: be_val(data.subrange(p + 6, p + 8)) as u16,
        authority_count: be_val(data.subrange(p + 8, p + 10)) as u16,
        additional_count: be_val(data.subrange(p + 10, p + 12)) as u16,
    }
}

impl Header {
    /// Reads a header at the cursor: id, the two packed flag bytes and the
    /// four section counts. Fails with `EOF`, moving nothing, when fewer
    /// than twelve bytes remain.
    pub fn parse(buff: &mut Buffer) -> (r: Result<Header, DrasilDNSError>)
        ensures
            match r {
                Ok(h) => {
                    &&& old(buff)@.pos + 12 <= old(buff)@.bytes.len()
                    &&& h == parse_header_at(old(buff)@.bytes, old(buff)@.pos)
                    &&& final(buff)@ == (BufferModel { pos: old(buff)@.pos + 12, ..old(buff)@ })
                },
                Err(e) => {
                    &&& e == DrasilDNSError::EOF
                    &&& old(buff)@.pos + 12 > old(buff)@.bytes.len()
                    &&& final(buff)@ == old(buff)@
                },
            },
    {
        let ghost p = buff@.pos;
        let ghost data = buff@.bytes;
        let initial_pos: usize = buff.pos();

        let id: u16 = match buff.read_u16() {
            Ok(v) => v,
            Err(e) => {
                return Err(e);
            },
        };
        let flags: u16 = match buff.read_u16() {
            Ok(v) => v,
            Err(e) => {
                buff.seek(initial_pos);
                return Err(e);
            },
        };
        let question_count: u16 = match buff.read_u16() {
            Ok(v) => v,
            Err(e) => {
                buff.seek(initial_pos);
                return Err(e);
            },
        };
        let answer_count: u16 = match buff.read_u16() {
            Ok(v) => v,
            Err(e) => {
                buff.seek(initial_pos);
                return Err(e);
            },
        };
        let authority_count: u16 = match buff.read_u16() {
            Ok(v) => v,
            Err(e) => {
                buff.seek(initial_pos);
                return Err(e);
            },
        };
        let additional_count: u16 = match buff.read_u16() {
            Ok(v) => v,
            Err(e) => {
                buff.seek(initial_pos);
                return Err(e);
            },
        };

        let flag_high: u8 = (flags / 256) as u8;
        let flag_low: u8 = (flags % 256) as u8;
        proof {
            let fb = data.subrange(p + 2, p + 4);
            crate::buffer::lemma_be_val_two_bytes(fb);
            assert(fb[0] == data[p + 2]);
            assert(fb[1] == data[p + 3]);
            assert(flag_high == data[p + 2]);
            assert(flag_low == data[p + 3]);
        }

        let request_kind = RequestKind::from_code(flag_high / 128);
        let opcode: u8 = (flag_high / 8) % 16;
        let is_authoritative_answer: bool = (flag_high / 4) % 2 == 1;
        let is_truncated_message: bool = (flag_high / 2) % 2 == 1;
        let is_recursion_desired: bool = flag_high % 2 == 1;
        let is_recursion_available: bool = flag_low / 128 == 1;
        let response_code = ResponseCode::from_code(flag_low % 16);

        Ok(
            Header {
                id,
                request_kind,
                opcode,
                is_authoritative_answer,
                is_truncated_message,
                is_recursion_desired,
                is_recursion_available,
                response_code,
                question_count,
                answer_count,
                authority_count,
                additional_count,
            },
        )
    }

    /// Writes the twelve header bytes at the cursor. A fixed-size buffer
    /// without room for them fails with `EOF` and is left untouched.
    pub fn write_bytes(&self, buff: &mut Buffer) -> (r: Result<(), DrasilDNSError>)
        ensures
            match r {
                Ok(()) => {
                    &&& old(buff)@.pos + 12 <= usize::MAX
                    &&& old(buff)@.expandable || old(buff)@.pos + 12 <= old(buff)@.bytes.len()
                    &&& final(buff)@.bytes == splice_at(
                        old(buff)@.bytes,
                        old(buff)@.pos,
                        encode_header(*self),
                    )
                    &&& final(buff)@.pos == old(buff)@.pos + 12
                    &&& final(buff)@.expandable == old(buff)@.expandable
                },
                Err(e) => {
                    &&& e == DrasilDNSError::EOF
                    &&& (!old(buff)@.expandable && old(buff)@.pos + 12 > old(buff)@.bytes.len())
                        || old(buff)@.pos + 12 > usize::MAX
                    &&& final(buff)@ == old(buff)@
                },
            },
    {
        let mut b = Buffer::with_capacity(12);

        let mut flag_high: u8 = 0;
        let mut flag_low: u8 = 0;

        flag_high = flag_high + self.request_kind.to_code() * 128;
        flag_high = flag_high + (self.opcode % 16) * 8;
        if self.is_authoritative_answer {
            flag_high = flag_high + 4;
        }
        if self.is_truncated_message {
            flag_high = flag_high + 2;
        }
        if self.is_recursion_desired {
            flag_high = flag_high + 1;
        }
        if self.is_recursion_available {
            flag_low = flag_low + 128;
        }
        flag_low = flag_low + self.response_code.to_code();
        proof {
            assert(flag_high == header_flag_high(*self));
            assert(flag_low == header_flag_low(*self));
        }

        let flags: u16 = (flag_high as u16) * 256 + (flag_low as u16);

        let r1 = b.write_u16(self.id);
        let r2 = b.write_u16(flags);
        let r3 = b.write_u16(self.question_count);
        let r4 = b.write_u16(self.answer_count);
        let r5 = b.write_u16(self.authority_count);
        let r6 = b.write_u16(self.additional_count);
        proof {
            assert(r1 is Ok && r2 is Ok && r3 is Ok && r4 is Ok && r5 is Ok && r6 is Ok);
            crate::buffer::lemma_be_bytes_of_u16(flags);
            assert((flags / 256) as u8 == flag_high);
            assert((flags % 256) as u8 == flag_low);
            crate::buffer::lemma_be_bytes_of_len(self.id as int, 2);
            crate::buffer::lemma_be_bytes_of_len(flags as int, 2);
            crate::buffer::lemma_be_bytes_of_len(self.question_count as int, 2);
            crate::buffer::lemma_be_bytes_of_len(self.answer_count as int, 2);
            crate::buffer::lemma_be_bytes_of_len(self.authority_count as int, 2);
            crate::buffer::lemma_be_bytes_of_len(self.additional_count as int, 2);
            assert(b@.bytes =~= encode_header(*self));
        }

        buff.write_buffer(&b)
    }
}

/// A header encodes to exactly its twelve wire bytes.
pub proof fn lemma_encode_header_len(h: Header)
    ensures
        encode_header(h).len() == 12,
{
    crate::buffer::lemma_be_bytes_of_len(h.id as int, 2);
    crate::buffer::lemma_be_bytes_of_len(h.question_count as int, 2);
    crate::buffer::lemma_be_bytes_of_len(h.answer_count as int, 2);
    crate::buffer::lemma_be_bytes_of_len(h.authority_count as int, 2);
    crate::buffer::lemma_be_bytes_of_len(h.additional_count as int, 2);
}

/// A valid header written and read back is itself, bit for bit: the flag
/// bytes pack and unpack to the same fields and the counts ride through
/// unchanged. This is stated over any message that carries the encoding.
pub proof fn lemma_header_round_trip(data: Seq<u8>, p: int, h: Header)
    requires
        header_valid(h),
        0 <= p,
        p + 12 <= data.len(),
        data.subrange(p, p + 12) == encode_header(h),
    ensures
        parse_header_at(data, p) == h,
{
    let e = encode_header(h);
    crate::buffer::lemma_pow256_values();
    crate::buffer::lemma_be_bytes_of_len(h.id as int, 2);
    crate::buffer::lemma_be_bytes_of_len(h.question_count as int, 2);
    crate::buffer::lemma_be_bytes_of_len(h.answer_count as int, 2);
    crate::buffer::lemma_be_bytes_of_len(h.authority_count as int, 2);
    crate::buffer::lemma_be_bytes_of_len(h.additional_count as int, 2);
    assert(e.len() == 12);

    assert(data.subrange(p, p + 2) =~= data.subrange(p, p + 12).subrange(0, 2));
    assert(e.subrange(0, 2) =~= be_bytes_of(h.id as int, 2));
    crate::buffer::lemma_be_val_of_be_bytes(h.id as int, 2);

    assert(data[p + 2] == data.subrange(p, p + 12)[2]);
    assert(e[2] == header_flag_high(h));
    assert(data[p + 3] == data.subrange(p, p + 12)[3]);
    assert(e[3] == header_flag_low(h));

    let fh = header_flag_high(h);
    let rk = request_kind_code(h.request_kind);
    let aa: int = if h.is_authoritative_answer { 4 } else { 0 };
    let tc: int = if h.is_truncated_message { 2 } else { 0 };
    let rd: int = if h.is_recursion_desired { 1 } else { 0 };
    assert(fh == rk * 128 + h.opcode * 8 + aa + tc + rd);
    assert(fh / 128 == rk);
    assert((fh / 8) % 16 == h.opcode);
    assert((fh / 4) % 2 == aa / 4);
    assert((fh / 2) % 2 == tc / 2);
    assert(fh % 2 == rd);
    assert(request_kind_of((fh / 128) as u8) == h.request_kind);

    let fl = header_flag_low(h);
    let ra: int = if h.is_recursion_available { 128 } else { 0 };
    assert(fl == ra + response_code_code(h.response_code));
    assert(fl / 128 == ra / 128);
    assert(fl % 16 == response_code_code(h.response_code));
    assert(response_code_of((fl % 16) as u8) == h.response_code);

    assert(data.subrange(p + 4, p + 6) =~= data.subrange(p, p + 12).subrange(4, 6));
    assert(e.subrange(4, 6) =~= be_bytes_of(h.question_count as int, 2));
    crate::buffer::lemma_be_val_of_be_bytes(h.question_count as int, 2);
    assert(data.subrange(p + 6, p + 8) =~= data.subrange(p, p + 12).subrange(6, 8));
    assert(e.subrange(6, 8) =~= be_bytes_of(h.answer_count as int, 2));
    crate::buffer::lemma_be_val_of_be_bytes(h.answer_count as int, 2);
    assert(data.subrange(p + 8, p + 10) =~= data.subrange(p, p + 12).subrange(8, 10));
    assert(e.subrange(8, 10) =~= be_bytes_of(h.authority_count as int, 2));
    crate::buffer::lemma_be_val_of_be_bytes(h.authority_count as int, 2);
    assert(data.subrange(p + 10, p + 12) =~= data.subrange(p, p + 12).subrange(10, 12));
    assert(e.subrange(10, 12) =~= be_bytes_of(h.additional_count as int, 2));
    crate::buffer::lemma_be_val_of_be_bytes(h.additional_count as int, 2);
}

} // verus!
