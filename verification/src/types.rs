//! The record type and class code spaces, and the windowed type-bitmap
//! codec NSEC and NSEC3 records carry their type sets in.

pub mod dnssec;

use vstd::prelude::*;

use crate::buffer::{Buffer, BufferModel};
use crate::error::DrasilDNSError;

verus! {

/// # Record Class
/// The 16-bit class code of records and questions. Codes with no named
/// variant are kept as `Unknown`.
#[derive(Debug, Clone, Copy, PartialEq, Eq, PartialOrd, Ord)]
pub enum RecordClass {
    Unknown(u16),
    IN,
}

/// The numeric code of a [`RecordClass`].
pub open spec fn record_class_code(c: RecordClass) -> u16 {
    match c {
        RecordClass::IN => 1,
        RecordClass::Unknown(v) => v,
    }
}

/// The [`RecordClass`] a numeric code names.
pub open spec fn record_class_of(v: u16) -> RecordClass {
    if v == 1 {
        RecordClass::IN
    } else {
        RecordClass::Unknown(v)
    }
}

impl RecordClass {
    /// The variant a numeric code names; unmapped codes become `Unknown`.
    pub fn from_code(v: u16) -> (r: Self)
        ensures
            r == record_class_of(v),
    {
        if v == 1 {
            RecordClass::IN
        } else {
            RecordClass::Unknown(v)
        }
    }

    /// The numeric code of this variant.
    pub fn to_code(self) -> (r: u16)
        ensures
            r == record_class_code(self),
    {
        match self {
            RecordClass::IN => 1,
            RecordClass::Unknown(v) => v,
        }
    }
}

/// Every class code survives the trip through the enumeration.
pub proof fn lemma_record_class_code_round_trip(v: u16)
    ensures
        record_class_code(record_class_of(v)) == v,
{
}

/// # Record Type
/// The 16-bit type code of records and questions. Codes with no named
/// variant are kept as `Unknown`.
#[derive(Debug, Clone, Copy, PartialEq, Eq, PartialOrd, Ord, Hash)]
pub enum RecordType {
    Unknown(u16),
    A,
    NS,
    CNAME,
    MX,
    AAAA,
    OPT,
    DS,
    RRSIG,
    NSEC,
    DNSKEY,
    NSEC3,
    NSEC3PARAM,
}

/// The numeric code of a [`RecordType`].
pub open spec fn record_type_code(t: RecordType) -> u16 {
    match t {
        RecordType::A => 1,
        RecordType::NS => 2,
        RecordType::CNAME => 5,
        RecordType::MX => 15,
        RecordType::AAAA => 28,
        RecordType::OPT => 41,
        RecordType::DS => 43,
        RecordType::RRSIG => 46,
        RecordType::NSEC => 47,
        RecordType::DNSKEY => 48,
        RecordType::NSEC3 => 50,
        RecordType::NSEC3PARAM => 51,
        RecordType::Unknown(v) => v,
    }
}

/// The [`RecordType`] a numeric code names.
pub open spec fn record_type_of(v: u16) -> RecordType {
    if v == 1 {
        RecordType::A
    } else if v == 2 {
        RecordType::NS
    } else if v == 5 {
        RecordType::CNAME
    } else if v == 15 {
        RecordType::MX
    } else if v == 28 {
        RecordType::AAAA
    } else if v == 41 {
        RecordType::OPT
    } else if v == 43 {
        RecordType::DS
    } else if v == 46 {
        RecordType::RRSIG
    } else if v == 47 {
        RecordType::NSEC
    } else if v == 48 {
        RecordType::DNSKEY
    } else if v == 50 {
        RecordType::NSEC3
    } else if v == 51 {
        RecordType::NSEC3PARAM
    } else {
        RecordType::Unknown(v)
    }
}

/// Every type code survives the trip through the enumeration, named or
/// not: unmapped codes ride along in `Unknown`.
pub proof fn lemma_record_type_code_round_trip(v: u16)
    ensures
        record_type_code(record_type_of(v)) == v,
{
}

/// The set of numeric codes a sequence of record types covers.
pub open spec fn code_set(s: Seq<RecordType>) -> Set<u16> {
    Set::new(|c: u16| exists|k: int| 0 <= k < s.len() && record_type_code(#[trigger] s[k]) == c)
}

/// The codes of a set that name a record type.
pub open spec fn known_codes(s: Set<u16>) -> Set<u16> {
    Set::new(|c: u16| s.contains(c) && !(record_type_of(c) is Unknown))
}

/// Bit `j` of a byte, most significant first, as the type bitmap counts bits.
pub open spec fn bit_of(byte: u8, j: int) -> bool {
    if j == 0 {
        byte & 0x80 != 0
    } else if j == 1 {
        byte & 0x40 != 0
    } else if j == 2 {
        byte & 0x20 != 0
    } else if j == 3 {
        byte & 0x10 != 0
    } else if j == 4 {
        byte & 0x08 != 0
    } else if j == 5 {
        byte & 0x04 != 0
    } else if j == 6 {
        byte & 0x02 != 0
    } else if j == 7 {
        byte & 0x01 != 0
    } else {
        false
    }
}

/// Whether the set holds the code at offset `off` of window `w`.
pub open spec fn tb_has(codes: Set<u16>, w: int, off: int) -> bool {
    &&& 0 <= w < 256
    &&& 0 <= off < 256
    &&& w * 256 + off + 1 <= 65535
    &&& codes.contains((w * 256 + off + 1) as u16)
}

/// Byte `b` of window `w`'s bitmap: one bit per code, most significant first.
pub open spec fn tb_byte(codes: Set<u16>, w: int, b: int) -> u8 {
    ((if tb_has(codes, w, 8 * b) {
        0x80int
    } else {
        0int
    }) + (if tb_has(codes, w, 8 * b + 1) {
        0x40int
    } else {
        0int
    }) + (if tb_has(codes, w, 8 * b + 2) {
        0x20int
    } else {
        0int
    }) + (if tb_has(codes, w, 8 * b + 3) {
        0x10int
    } else {
        0int
    }) + (if tb_has(codes, w, 8 * b + 4) {
        0x08int
    } else {
        0int
    }) + (if tb_has(codes, w, 8 * b + 5) {
        0x04int
    } else {
        0int
    }) + (if tb_has(codes, w, 8 * b + 6) {
        0x02int
    } else {
        0int
    }) + (if tb_has(codes, w, 8 * b + 7) {
        0x01int
    } else {
        0int
    })) as u8
}

/// The bitmap length of window `w` seen from byte count `n` downwards: the
/// minimal byte count covering the window's highest set bit.
pub open spec fn tb_window_len(codes: Set<u16>, w: int, n: int) -> int
    decreases n,
{
    if n <= 0 {
        0
    } else if tb_byte(codes, w, n - 1) != 0 {
        n
    } else {
        tb_window_len(codes, w, n - 1)
    }
}

/// The bitmap bytes of window `w`.
pub open spec fn tb_window_bytes(codes: Set<u16>, w: int) -> Seq<u8> {
    Seq::new(tb_window_len(codes, w, 32) as nat, |b: int| tb_byte(codes, w, b))
}

/// The wire chunk of window `w`: window id, bitmap length and bitmap bytes,
/// or nothing when the window is empty.
pub open spec fn tb_window_chunk(codes: Set<u16>, w: int) -> Seq<u8> {
    let l = tb_window_len(codes, w, 32);
    if l == 0 {
        Seq::empty()
    } else {
        seq![w as u8, l as u8] + tb_window_bytes(codes, w)
    }
}

/// The wire encoding of windows `w` and up, in ascending window order.
pub open spec fn tb_encode_from(codes: Set<u16>, w: int) -> Seq<u8>
    decreases 256 - w,
{
    if w < 0 || w >= 256 {
        Seq::empty()
    } else {
        tb_window_chunk(codes, w) + tb_encode_from(codes, w + 1)
    }
}

/// The wire encoding of a set of type codes: every non-empty window as a
/// `(window, length, bitmap)` chunk, ascending.
pub open spec fn tb_encode(codes: Set<u16>) -> Seq<u8> {
    tb_encode_from(codes, 0)
}

/// The codes one `(window, length, bitmap)` chunk at offset `p` holds.
/// Codes are computed modulo the 16-bit space, as the wire arithmetic does.
pub open spec fn tb_chunk_codes(data: Seq<u8>, p: int) -> Set<u16> {
    let w = data[p];
    let l = data[p + 1];
    Set::new(
        |c: u16|
            exists|b: int, j: int|
                0 <= b < l && 0 <= j < 8 && #[trigger] bit_of(data[p + 2 + b], j) && c == ((
                w * 256 + b * 8 + j + 1) % 65536) as u16,
    )
}

/// The meaning of a type-bitmap byte range: the union of its chunks' codes,
/// read until the range is exhausted. A truncated chunk is `EOF`; so is the
/// very exhaustion of the range when the store could still grow.
pub open spec fn tb_decode(data: Seq<u8>, p: int, expandable: bool) -> Result<Set<u16>, DrasilDNSError>
    decreases data.len() - p,
    when p >= 0
{
    if p >= data.len() {
        if expandable {
            Err(DrasilDNSError::EOF)
        } else {
            Ok(Set::empty())
        }
    } else if p + 2 > data.len() {
        Err(DrasilDNSError::EOF)
    } else if p + 2 + data[p + 1] > data.len() {
        Err(DrasilDNSError::EOF)
    } else {
        match tb_decode(data, p + 2 + data[p + 1], expandable) {
            Ok(rest) => Ok(tb_chunk_codes(data, p).union(rest)),
            Err(e) => Err(e),
        }
    }
}

/// Whether a sequence of record types holds a given code.
fn vec_has_code(set: &Vec<RecordType>, c: u16) -> (r: bool)
    ensures
        r == code_set(set@).contains(c),
{
    let mut k: usize = 0;
    while k < set.len()
        invariant
            k <= set@.len(),
            forall|m: int| 0 <= m < k ==> record_type_code(#[trigger] set@[m]) != c,
        decreases set@.len() - k,
    {
        if set[k].to_code() == c {
            return true;
        }
        k = k + 1;
    }
    false
}

impl RecordType {
    /// The variant a numeric code names; unmapped codes become `Unknown`.
    pub fn from_code(v: u16) -> (r: Self)
        ensures
            r == record_type_of(v),
    {
        if v == 1 {
            RecordType::A
        } else if v == 2 {
            RecordType::NS
        } else if v == 5 {
            RecordType::CNAME
        } else if v == 15 {
            RecordType::MX
        } else if v == 28 {
            RecordType::AAAA
        } else if v == 41 {
            RecordType::OPT
        } else if v == 43 {
            RecordType::DS
        } else if v == 46 {
            RecordType::RRSIG
        } else if v == 47 {
            RecordType::NSEC
        } else if v == 48 {
            RecordType::DNSKEY
        } else if v == 50 {
            RecordType::NSEC3
        } else if v == 51 {
            RecordType::NSEC3PARAM
        } else {
            RecordType::Unknown(v)
        }
    }

    /// The numeric code of this variant.
    pub fn to_code(self) -> (r: u16)
        ensures
            r == record_type_code(self),
    {
        match self {
            RecordType::A => 1,
            RecordType::NS => 2,
            RecordType::CNAME => 5,
            RecordType::MX => 15,
            RecordType::AAAA => 28,
            RecordType::OPT => 41,
            RecordType::DS => 43,
            RecordType::RRSIG => 46,
            RecordType::NSEC => 47,
            RecordType::DNSKEY => 48,
            RecordType::NSEC3 => 50,
            RecordType::NSEC3PARAM => 51,
            RecordType::Unknown(v) => v,
        }
    }

    /// Whether this is a code with no named variant.
    pub fn is_unknown(&self) -> (r: bool)
        ensures
            r == (self is Unknown),
    {
        if let RecordType::Unknown(_) = self {
            return true;
        }
        return false;
    }

    /// Reads a type bitmap until the buffer is exhausted, returning the
    /// record types whose codes are set, named variants only, each once.
    #[verifier::loop_isolation(false)]
    pub fn parse_type_bitmaps(mut buff: Buffer) -> (r: Result<Vec<RecordType>, DrasilDNSError>)
        ensures
            match r {
                Ok(set) => {
                    &&& tb_decode(buff@.bytes, buff@.pos, buff@.expandable) matches Ok(s)
                        && code_set(set@) == known_codes(s)
                    &&& forall|k: int| 0 <= k < set@.len() ==> !(#[trigger] set@[k] is Unknown)
                    &&& forall|k: int, m: int|
                        0 <= k < m < set@.len() ==> record_type_code(set@[k]) != record_type_code(
                            set@[m],
                        )
                },
                Err(e) => tb_decode(buff@.bytes, buff@.pos, buff@.expandable) == Err::<
                    Set<u16>,
                    DrasilDNSError,
                >(e),
            },
    {
        let ghost data = buff@.bytes;
        let p0_exec: usize = buff.pos();
        let ghost p0 = p0_exec as int;
        let ghost expandable = buff@.expandable;
        let mut recs: Vec<RecordType> = Vec::new();
        let ghost mut seen = Set::<u16>::empty();

        proof {
            assert(code_set(recs@) =~= known_codes(seen));
            match tb_decode(data, p0, expandable) {
                Ok(s) => {
                    assert(seen.union(s) =~= s);
                },
                Err(_) => {},
            }
        }

        while !buff.is_eof()
            invariant
                buff@.bytes == data,
                buff@.expandable == expandable,
                0 <= p0 <= buff@.pos,
                buff@.pos <= data.len() || buff@.pos == p0,
                code_set(recs@) == known_codes(seen),
                forall|k: int| 0 <= k < recs@.len() ==> !(#[trigger] recs@[k] is Unknown),
                forall|k: int, m: int|
                    0 <= k < m < recs@.len() ==> record_type_code(recs@[k]) != record_type_code(
                        recs@[m],
                    ),
                match tb_decode(data, buff@.pos, expandable) {
                    Ok(s) => tb_decode(data, p0, expandable) == Ok::<_, DrasilDNSError>(
                        seen.union(s),
                    ),
                    Err(e) => tb_decode(data, p0, expandable) == Err::<Set<u16>, DrasilDNSError>(
                        e,
                    ),
                },
            decreases (if buff@.pos <= data.len() { data.len() - buff@.pos } else { 0int }),
        {
            let ghost p = buff@.pos;
            let window: u8 = match buff.read_u8() {
                Ok(b) => b,
                Err(e) => {
                    proof {
                        assert(p >= data.len());
                        assert(expandable);
                        assert(tb_decode(data, p, expandable) == Err::<Set<u16>, DrasilDNSError>(
                            DrasilDNSError::EOF,
                        ));
                    }
                    return Err(e);
                },
            };
            let len: u8 = match buff.read_u8() {
                Ok(b) => b,
                Err(e) => {
                    proof {
                        assert(tb_decode(data, p, expandable) == Err::<Set<u16>, DrasilDNSError>(
                            DrasilDNSError::EOF,
                        ));
                    }
                    return Err(e);
                },
            };
            let bitmap: Vec<u8> = match buff.read_bytes(len as usize) {
                Ok(b) => b,
                Err(e) => {
                    proof {
                        assert(tb_decode(data, p, expandable) == Err::<Set<u16>, DrasilDNSError>(
                            DrasilDNSError::EOF,
                        ));
                    }
                    return Err(e);
                },
            };
            proof {
                assert(data[p] == window);
                assert(data[p + 1] == len);
                assert(forall|b: int|
                    0 <= b < len ==> #[trigger] bitmap@[b] == data[p + 2 + b]);
            }

            let ghost chunk = tb_chunk_codes(data, p);
            let ghost seen_before = seen;
            let mut byte_idx: usize = 0;
            while byte_idx < bitmap.len()
                invariant
                    buff@.bytes == data,
                    bitmap@.len() == len,
                    data[p] == window,
                    data[p + 1] == len,
                    0 <= p,
                    p + 2 + len <= data.len(),
                    forall|b: int| 0 <= b < len ==> #[trigger] bitmap@[b] == data[p + 2 + b],
                    byte_idx <= bitmap@.len(),
                    code_set(recs@) == known_codes(seen),
                    forall|k: int| 0 <= k < recs@.len() ==> !(#[trigger] recs@[k] is Unknown),
                    forall|k: int, m: int|
                        0 <= k < m < recs@.len() ==> record_type_code(recs@[k])
                            != record_type_code(recs@[m]),
                    seen == seen_before.union(
                        Set::new(
                            |c: u16|
                                exists|b: int, j: int|
                                    0 <= b < byte_idx && 0 <= j < 8 && #[trigger] bit_of(
                                        data[p + 2 + b],
                                        j,
                                    ) && c == ((window * 256 + b * 8 + j + 1) % 65536) as u16,
                        ),
                    ),
                decreases bitmap@.len() - byte_idx,
            {
                let byte: u8 = bitmap[byte_idx];
                let mut j: usize = 0;
                while j < 8
                    invariant
                        buff@.bytes == data,
                        bitmap@.len() == len,
                        data[p] == window,
                        data[p + 1] == len,
                        0 <= p,
                        p + 2 + len <= data.len(),
                        forall|b: int| 0 <= b < len ==> #[trigger] bitmap@[b] == data[p + 2 + b],
                        byte_idx < bitmap@.len(),
                        byte == data[p + 2 + byte_idx],
                        j <= 8,
                        code_set(recs@) == known_codes(seen),
                        forall|k: int| 0 <= k < recs@.len() ==> !(#[trigger] recs@[k] is Unknown),
                        forall|k: int, m: int|
                            0 <= k < m < recs@.len() ==> record_type_code(recs@[k])
                                != record_type_code(recs@[m]),
                        seen == seen_before.union(
                            Set::new(
                                |c: u16|
                                    exists|b: int, jj: int|
                                        0 <= b < byte_idx + 1 && 0 <= jj < 8 && (b < byte_idx || jj
                                            < j) && #[trigger] bit_of(data[p + 2 + b], jj) && c
                                            == ((window * 256 + b * 8 + jj + 1) % 65536) as u16,
                            ),
                        ),
                    decreases 8 - j,
                {
                    let mask: u8 = if j == 0 {
                        0x80
                    } else if j == 1 {
                        0x40
                    } else if j == 2 {
                        0x20
                    } else if j == 3 {
                        0x10
                    } else if j == 4 {
                        0x08
                    } else if j == 5 {
                        0x04
                    } else if j == 6 {
                        0x02
                    } else {
                        0x01
                    };
                    if byte & mask != 0 {
                        let code32: u32 = (window as u32) * 256 + (byte_idx as u32) * 8 + (
                        j as u32) + 1;
                        let code: u16 = (code32 % 65536) as u16;
                        proof {
                            assert(bit_of(byte, j as int));
                            assert(seen.union(Set::new(|c: u16| c == code)) == seen.insert(code))
                                by {
                                assert(seen.union(Set::new(|c: u16| c == code)) =~= seen.insert(
                                    code,
                                ));
                            }
                        }
                        let rec = RecordType::from_code(code);
                        if !rec.is_unknown() {
                            if !vec_has_code(&recs, code) {
                                let ghost old_recs = recs@;
                                recs.push(rec);
                                proof {
                                    lemma_code_set_push(old_recs, recs@, rec);
                                    lemma_known_codes_insert(seen, code);
                                    assert(record_type_code(rec) == code);
                                    assert(code_set(recs@) == known_codes(seen.insert(code)));
                                }
                            } else {
                                proof {
                                    lemma_known_codes_insert(seen, code);
                                    assert(known_codes(seen).insert(code) =~= known_codes(seen));
                                    assert(code_set(recs@) == known_codes(seen.insert(code)));
                                }
                            }
                        } else {
                            proof {
                                lemma_known_codes_insert(seen, code);
                                assert(code_set(recs@) == known_codes(seen.insert(code)));
                            }
                        }
                        proof {
                            seen = seen.insert(code);
                        }
                    }
                    proof {
                        let updated = seen_before.union(
                            Set::new(
                                |c: u16|
                                    exists|b: int, jj: int|
                                        0 <= b < byte_idx + 1 && 0 <= jj < 8 && (b < byte_idx || jj
                                            < j + 1) && #[trigger] bit_of(data[p + 2 + b], jj) && c
                                            == ((window * 256 + b * 8 + jj + 1) % 65536) as u16,
                            ),
                        );
                        assert(seen =~= updated);
                    }
                    j = j + 1;
                }
                proof {
                    let next = seen_before.union(
                        Set::new(
                            |c: u16|
                                exists|b: int, j: int|
                                    0 <= b < byte_idx + 1 && 0 <= j < 8 && #[trigger] bit_of(
                                        data[p + 2 + b],
                                        j,
                                    ) && c == ((window * 256 + b * 8 + j + 1) % 65536) as u16,
                        ),
                    );
                    assert(seen =~= next);
                }
                byte_idx = byte_idx + 1;
            }
            proof {
                assert(seen =~= seen_before.union(chunk));
                match tb_decode(data, buff@.pos, expandable) {
                    Ok(s) => {
                        assert(tb_decode(data, p, expandable) == Ok::<_, DrasilDNSError>(
                            chunk.union(s),
                        ));
                        assert(seen_before.union(chunk.union(s)) =~= seen.union(s));
                    },
                    Err(_) => {},
                }
            }
        }
        proof {
            assert(tb_decode(data, buff@.pos, expandable) == Ok::<_, DrasilDNSError>(
                Set::<u16>::empty(),
            ));
            assert(seen.union(Set::<u16>::empty()) =~= seen);
        }
        Ok(recs)
    }

    /// Writes the set of record types as a type bitmap: each non-empty
    /// 256-code window as a `(window, length, bitmap)` chunk in ascending
    /// window order, the bitmap cut to the minimal length that covers the
    /// window's highest set bit.
    pub fn into_type_bitmaps(set: &Vec<RecordType>) -> (r: Result<Buffer, DrasilDNSError>)
        requires
            forall|k: int| 0 <= k < set@.len() ==> record_type_code(#[trigger] set@[k]) >= 1,
        ensures
            match r {
                Ok(b) => {
                    &&& b@.bytes == tb_encode(code_set(set@))
                    &&& b@.pos == b@.bytes.len()
                    &&& b@.expandable
                },
                Err(_) => false,
            },
    {
        let ghost codes = code_set(set@);
        let mut buff = Buffer::with_capacity(0);
        buff.set_expandable(true);

        let mut w: usize = 0;
        while w < 256
            invariant
                forall|k: int| 0 <= k < set@.len() ==> record_type_code(#[trigger] set@[k]) >= 1,
                codes == code_set(set@),
                w <= 256,
                buff@.expandable,
                buff@.pos == buff@.bytes.len(),
                buff@.bytes.len() <= 34 * w,
                buff@.bytes + tb_encode_from(codes, w as int) == tb_encode(codes),
            decreases 256 - w,
        {
            // The window's full 32-byte bitmap.
            let mut wb: Vec<u8> = Vec::new();
            let mut b: usize = 0;
            while b < 32
                invariant
                    codes == code_set(set@),
                    w < 256,
                    b <= 32,
                    wb@.len() == b,
                    forall|k: int| 0 <= k < b ==> #[trigger] wb@[k] == tb_byte(codes, w as int, k),
                decreases 32 - b,
            {
                let mut v: u8 = 0;
                if tb_probe(set, w, 8 * b) {
                    v = v + 0x80;
                }
                if tb_probe(set, w, 8 * b + 1) {
                    v = v + 0x40;
                }
                if tb_probe(set, w, 8 * b + 2) {
                    v = v + 0x20;
                }
                if tb_probe(set, w, 8 * b + 3) {
                    v = v + 0x10;
                }
                if tb_probe(set, w, 8 * b + 4) {
                    v = v + 0x08;
                }
                if tb_probe(set, w, 8 * b + 5) {
                    v = v + 0x04;
                }
                if tb_probe(set, w, 8 * b + 6) {
                    v = v + 0x02;
                }
                if tb_probe(set, w, 8 * b + 7) {
                    v = v + 0x01;
                }
                proof {
                    assert(v == tb_byte(codes, w as int, b as int));
                }
                wb.push(v);
                b = b + 1;
            }

            // Cut to the minimal length that covers the highest set bit.
            let mut l: usize = 32;
            while l > 0 && wb[l - 1] == 0
                invariant
                    wb@.len() == 32,
                    forall|k: int| 0 <= k < 32 ==> #[trigger] wb@[k] == tb_byte(codes, w as int, k),
                    l <= 32,
                    tb_window_len(codes, w as int, 32) == tb_window_len(codes, w as int, l as int),
                decreases l,
            {
                l = l - 1;
            }
            proof {
                assert(tb_window_len(codes, w as int, 32) == l);
            }

            let ghost before = buff@.bytes;
            if l > 0 {
                match buff.write_u8(w as u8) {
                    Ok(()) => {},
                    Err(_) => {
                        proof {
                            assert(false);
                        }
                        return Err(DrasilDNSError::Unknown);
                    },
                }
                match buff.write_u8(l as u8) {
                    Ok(()) => {},
                    Err(_) => {
                        proof {
                            assert(false);
                        }
                        return Err(DrasilDNSError::Unknown);
                    },
                }
                wb.truncate(l);
                match buff.write_bytes(wb.as_slice()) {
                    Ok(()) => {},
                    Err(_) => {
                        proof {
                            assert(false);
                        }
                        return Err(DrasilDNSError::Unknown);
                    },
                }
                proof {
                    assert(wb@ =~= tb_window_bytes(codes, w as int));
                    crate::buffer::lemma_be_bytes_of_u8(w as u8);
                    crate::buffer::lemma_be_bytes_of_u8(l as u8);
                    assert(buff@.bytes =~= before + tb_window_chunk(codes, w as int));
                }
            } else {
                proof {
                    assert(buff@.bytes =~= before + tb_window_chunk(codes, w as int));
                }
            }
            proof {
                assert(buff@.bytes + tb_encode_from(codes, w as int + 1) =~= tb_encode(codes))
                    by {
                    assert(before + tb_encode_from(codes, w as int) == tb_encode(codes));
                    assert(tb_encode_from(codes, w as int) == tb_window_chunk(codes, w as int)
                        + tb_encode_from(codes, w as int + 1));
                    assert(before + (tb_window_chunk(codes, w as int) + tb_encode_from(
                        codes,
                        w as int + 1,
                    )) =~= (before + tb_window_chunk(codes, w as int)) + tb_encode_from(
                        codes,
                        w as int + 1,
                    ));
                }
            }
            w = w + 1;
        }
        proof {
            assert(tb_encode_from(codes, 256) =~= Seq::<u8>::empty());
            assert(buff@.bytes =~= tb_encode(codes));
        }
        Ok(buff)
    }
}


/// The bits of a window byte are exactly the membership tests it was
/// built from.
proof fn lemma_tb_byte_bits(codes: Set<u16>, w: int, b: int)
    ensures
        forall|j: int| 0 <= j < 8 ==> #[trigger] bit_of(tb_byte(codes, w, b), j) == tb_has(
            codes,
            w,
            8 * b + j,
        ),
        tb_byte(codes, w, b) != 0 <==> exists|j: int|
            0 <= j < 8 && #[trigger] tb_has(codes, w, 8 * b + j),
{
    let c0: u8 = if tb_has(codes, w, 8 * b) { 1 } else { 0 };
    let c1: u8 = if tb_has(codes, w, 8 * b + 1) { 1 } else { 0 };
    let c2: u8 = if tb_has(codes, w, 8 * b + 2) { 1 } else { 0 };
    let c3: u8 = if tb_has(codes, w, 8 * b + 3) { 1 } else { 0 };
    let c4: u8 = if tb_has(codes, w, 8 * b + 4) { 1 } else { 0 };
    let c5: u8 = if tb_has(codes, w, 8 * b + 5) { 1 } else { 0 };
    let c6: u8 = if tb_has(codes, w, 8 * b + 6) { 1 } else { 0 };
    let c7: u8 = if tb_has(codes, w, 8 * b + 7) { 1 } else { 0 };
    let x = tb_byte(codes, w, b);
    assert(x == c0 * 128 + c1 * 64 + c2 * 32 + c3 * 16 + c4 * 8 + c5 * 4 + c6 * 2 + c7);
    assert((x & 0x80 != 0) == (c0 == 1) && (x & 0x40 != 0) == (c1 == 1) && (x & 0x20 != 0) == (c2
        == 1) && (x & 0x10 != 0) == (c3 == 1) && (x & 0x08 != 0) == (c4 == 1) && (x & 0x04 != 0)
        == (c5 == 1) && (x & 0x02 != 0) == (c6 == 1) && (x & 0x01 != 0) == (c7 == 1)) by (bit_vector)
        requires
            c0 <= 1 && c1 <= 1 && c2 <= 1 && c3 <= 1 && c4 <= 1 && c5 <= 1 && c6 <= 1 && c7 <= 1,
            x == c0 * 128 + c1 * 64 + c2 * 32 + c3 * 16 + c4 * 8 + c5 * 4 + c6 * 2 + c7,
    ;
    assert forall|j: int| 0 <= j < 8 implies #[trigger] bit_of(x, j) == tb_has(
        codes,
        w,
        8 * b + j,
    ) by {
        if j == 0 {
        } else if j == 1 {
        } else if j == 2 {
        } else if j == 3 {
        } else if j == 4 {
        } else if j == 5 {
        } else if j == 6 {
        } else {
            assert(j == 7);
        }
    }
    if x != 0 {
        assert(exists|j: int| 0 <= j < 8 && #[trigger] tb_has(codes, w, 8 * b + j)) by {
            if c0 == 1 {
                assert(tb_has(codes, w, 8 * b + 0));
            } else if c1 == 1 {
                assert(tb_has(codes, w, 8 * b + 1));
            } else if c2 == 1 {
                assert(tb_has(codes, w, 8 * b + 2));
            } else if c3 == 1 {
                assert(tb_has(codes, w, 8 * b + 3));
            } else if c4 == 1 {
                assert(tb_has(codes, w, 8 * b + 4));
            } else if c5 == 1 {
                assert(tb_has(codes, w, 8 * b + 5));
            } else if c6 == 1 {
                assert(tb_has(codes, w, 8 * b + 6));
            } else {
                assert(c7 == 1);
                assert(tb_has(codes, w, 8 * b + 7));
            }
        }
    }
}

/// A window's cut length stays within the byte count it scans.
proof fn lemma_tb_window_len_bounds(codes: Set<u16>, w: int, n: int)
    requires
        0 <= n,
    ensures
        0 <= tb_window_len(codes, w, n) <= n,
    decreases n,
{
    if n > 0 {
        lemma_tb_window_len_bounds(codes, w, n - 1);
    }
}

/// Bytes past a window's cut length are zero.
proof fn lemma_tb_window_len_zero_beyond(codes: Set<u16>, w: int, n: int)
    requires
        0 <= n,
    ensures
        forall|b: int|
            tb_window_len(codes, w, n) <= b < n ==> #[trigger] tb_byte(codes, w, b) == 0,
    decreases n,
{
    if n > 0 {
        lemma_tb_window_len_zero_beyond(codes, w, n - 1);
    }
}

/// A nonzero byte keeps the window's cut length at least past it.
proof fn lemma_tb_window_len_covers(codes: Set<u16>, w: int, b: int, n: int)
    requires
        0 <= b < n,
        tb_byte(codes, w, b) != 0,
    ensures
        tb_window_len(codes, w, n) >= b + 1,
    decreases n,
{
    if b < n - 1 {
        if tb_byte(codes, w, n - 1) == 0 {
            lemma_tb_window_len_covers(codes, w, b, n - 1);
        }
    }
}

/// The codes a set holds at windows `w` and beyond.
pub open spec fn tb_codes_from(codes: Set<u16>, w: int) -> Set<u16> {
    Set::new(|c: u16| codes.contains(c) && c >= 1 && (c - 1) / 256 >= w)
}

/// Decoding the encoding of windows `w` and up, lying at the very end of
/// the byte range, recovers exactly the codes of those windows.
#[verifier::rlimit(100)]
proof fn lemma_tb_decode_encode_from(codes: Set<u16>, w: int, data: Seq<u8>, pos: int)
    requires
        0 <= w <= 256,
        0 <= pos,
        pos + tb_encode_from(codes, w).len() == data.len(),
        data.subrange(pos, data.len() as int) == tb_encode_from(codes, w),
    ensures
        tb_decode(data, pos, false) == Ok::<Set<u16>, DrasilDNSError>(tb_codes_from(codes, w)),
    decreases 256 - w,
{
    if w == 256 {
        assert(tb_encode_from(codes, 256) =~= Seq::<u8>::empty());
        assert(pos == data.len());
        assert(tb_codes_from(codes, 256) =~= Set::<u16>::empty());
    } else {
        let l = tb_window_len(codes, w, 32);
        let chunk = tb_window_chunk(codes, w);
        let rest = tb_encode_from(codes, w + 1);
        assert(tb_encode_from(codes, w) == chunk + rest);
        lemma_tb_window_len_zero_beyond(codes, w, 32);
        if l == 0 {
            assert(chunk =~= Seq::<u8>::empty());
            assert(data.subrange(pos, data.len() as int) =~= rest) by {
                assert((chunk + rest) =~= rest);
            }
            lemma_tb_decode_encode_from(codes, w + 1, data, pos);
            assert(tb_codes_from(codes, w) =~= tb_codes_from(codes, w + 1)) by {
                assert forall|c: u16| tb_codes_from(codes, w).contains(c) implies tb_codes_from(
                    codes,
                    w + 1,
                ).contains(c) by {
                    if (c - 1) / 256 == w {
                        let off = (c - 1) % 256;
                        vstd::arithmetic::div_mod::lemma_fundamental_div_mod(c - 1, 256);
                        assert(c == w * 256 + off + 1);
                        assert(0 <= off < 256);
                        assert(tb_has(codes, w, off));
                        let b = off / 8;
                        let j = off % 8;
                        vstd::arithmetic::div_mod::lemma_fundamental_div_mod(off, 8);
                        assert(off == 8 * b + j);
                        assert(0 <= b < 32 && 0 <= j < 8);
                        lemma_tb_byte_bits(codes, w, b);
                        assert(tb_byte(codes, w, b) != 0);
                        assert(false);
                    }
                }
            }
        } else {
            lemma_tb_window_len_bounds(codes, w, 32);
            assert(0 < l <= 32);
            assert(chunk == seq![w as u8, l as u8] + tb_window_bytes(codes, w));
            assert(tb_window_bytes(codes, w).len() == l);
            assert(chunk.len() == 2 + l);
            assert(pos + 2 + l <= data.len());
            assert forall|k: int| 0 <= k < chunk.len() implies #[trigger] data[pos + k]
                == chunk[k] by {
                assert(data.subrange(pos, data.len() as int)[k] == data[pos + k]);
            }
            assert(data[pos + 0] == chunk[0]);
            assert(chunk[0] == w as u8);
            assert(data[pos] == w as u8);
            assert(data[pos + 1] == l as u8);
            assert forall|b: int| 0 <= b < l implies #[trigger] data[pos + 2 + b] == tb_byte(
                codes,
                w,
                b,
            ) by {
                assert(data[pos + (2 + b)] == chunk[2 + b]);
                assert(chunk[2 + b] == tb_window_bytes(codes, w)[b]);
            }
            assert(data.subrange(pos + 2 + l, data.len() as int) =~= rest) by {
                assert forall|k: int| 0 <= k < rest.len() implies data.subrange(
                    pos + 2 + l,
                    data.len() as int,
                )[k] == rest[k] by {
                    assert(data.subrange(pos, data.len() as int)[2 + l + k] == data[pos + 2 + l
                        + k]);
                    assert((chunk + rest)[2 + l + k] == rest[k]);
                }
            }
            lemma_tb_decode_encode_from(codes, w + 1, data, pos + 2 + l);
            assert(tb_chunk_codes(data, pos).union(tb_codes_from(codes, w + 1))
                =~= tb_codes_from(codes, w)) by {
                assert forall|c: u16| #[trigger] tb_chunk_codes(data, pos).contains(c) implies
                    tb_codes_from(codes, w).contains(c) by {
                    let (b, j): (int, int) = choose|b: int, j: int|
                        0 <= b < data[pos + 1] && 0 <= j < 8 && #[trigger] bit_of(
                            data[pos + 2 + b],
                            j,
                        ) && c == ((data[pos] * 256 + b * 8 + j + 1) % 65536) as u16;
                    assert(0 <= b < l);
                    lemma_tb_byte_bits(codes, w, b);
                    assert(tb_has(codes, w, 8 * b + j));
                    let cc = w * 256 + 8 * b + j + 1;
                    assert(codes.contains(cc as u16));
                    assert(cc <= 65535);
                    assert(cc % 65536 == cc);
                    assert(c == cc);
                    assert((cc - 1) / 256 == w) by (nonlinear_arith)
                        requires cc == w * 256 + 8 * b + j + 1, 0 <= 8 * b + j < 256, 0 <= w;
                }
                assert forall|c: u16| #[trigger] tb_codes_from(codes, w).contains(c) implies
                    tb_chunk_codes(data, pos).union(tb_codes_from(codes, w + 1)).contains(c) by {
                    if (c - 1) / 256 == w {
                        let off = (c - 1) % 256;
                        vstd::arithmetic::div_mod::lemma_fundamental_div_mod(c - 1, 256);
                        assert(c == w * 256 + off + 1);
                        assert(0 <= off < 256);
                        assert(tb_has(codes, w, off));
                        let b = off / 8;
                        let j = off % 8;
                        vstd::arithmetic::div_mod::lemma_fundamental_div_mod(off, 8);
                        assert(off == 8 * b + j);
                        assert(0 <= b < 32 && 0 <= j < 8);
                        lemma_tb_byte_bits(codes, w, b);
                        assert(tb_byte(codes, w, b) != 0);
                        lemma_tb_window_len_covers(codes, w, b, 32);
                        assert(b < l);
                        assert(bit_of(data[pos + 2 + b], j));
                        assert(0 <= b < data[pos + 1]);
                        assert(c == ((data[pos] * 256 + b * 8 + j + 1) % 65536) as u16);
                        assert(tb_chunk_codes(data, pos).contains(c));
                    } else {
                        assert((c - 1) / 256 >= w + 1);
                        assert(tb_codes_from(codes, w + 1).contains(c));
                    }
                }
            }
        }
    }
}

/// Encoding a set of named record-type codes as a type bitmap and decoding
/// it recovers the same set, whatever order the set was assembled in: the
/// window and bit layout depend only on membership.
pub proof fn lemma_type_bitmaps_round_trip(codes: Set<u16>)
    requires
        forall|c: u16| #[trigger] codes.contains(c) ==> !(record_type_of(c) is Unknown),
    ensures
        tb_decode(tb_encode(codes), 0, false) matches Ok(s) && known_codes(s) == codes,
{
    let data = tb_encode(codes);
    assert forall|c: u16| #[trigger] codes.contains(c) implies c >= 1 by {
        assert(!(record_type_of(c) is Unknown));
    }
    assert(data.subrange(0, data.len() as int) =~= data);
    lemma_tb_decode_encode_from(codes, 0, data, 0);
    assert(tb_codes_from(codes, 0) =~= codes);
    assert(known_codes(codes) =~= codes);
}

/// Whether the set holds the code at offset `off` of window `w`.
fn tb_probe(set: &Vec<RecordType>, w: usize, off: usize) -> (r: bool)
    requires
        w < 256,
        off < 256,
    ensures
        r == tb_has(code_set(set@), w as int, off as int),
{
    let code32: u32 = (w as u32) * 256 + (off as u32) + 1;
    if code32 > 65535 {
        false
    } else {
        vec_has_code(set, code32 as u16)
    }
}

/// Pushing a record type onto a sequence adds exactly its code to the
/// sequence's code set.
proof fn lemma_code_set_push(old_s: Seq<RecordType>, new_s: Seq<RecordType>, t: RecordType)
    requires
        new_s == old_s.push(t),
    ensures
        code_set(new_s) == code_set(old_s).insert(record_type_code(t)),
{
    assert forall|c: u16| #[trigger] code_set(new_s).contains(c) implies code_set(old_s).insert(
        record_type_code(t),
    ).contains(c) by {
        let k = choose|k: int| 0 <= k < new_s.len() && record_type_code(new_s[k]) == c;
        if k < new_s.len() - 1 {
            assert(new_s[k] == old_s[k]);
            assert(code_set(old_s).contains(c));
        } else {
            assert(new_s[k] == t);
        }
    }
    assert forall|c: u16| #[trigger]
        code_set(old_s).insert(record_type_code(t)).contains(c) implies code_set(new_s).contains(
        c,
    ) by {
        if code_set(old_s).contains(c) {
            let k = choose|k: int| 0 <= k < old_s.len() && record_type_code(old_s[k]) == c;
            assert(new_s[k] == old_s[k]);
            assert(record_type_code(new_s[k]) == c);
        } else {
            assert(record_type_code(new_s[new_s.len() - 1]) == c);
        }
    }
    assert(code_set(new_s) =~= code_set(old_s).insert(record_type_code(t)));
}

/// Inserting a code into a set grows its named part exactly when the code
/// names a record type.
proof fn lemma_known_codes_insert(s: Set<u16>, c: u16)
    ensures
        !(record_type_of(c) is Unknown) ==> known_codes(s.insert(c)) == known_codes(s).insert(c),
        record_type_of(c) is Unknown ==> known_codes(s.insert(c)) == known_codes(s),
{
    if record_type_of(c) is Unknown {
        assert(known_codes(s.insert(c)) =~= known_codes(s));
    } else {
        assert(known_codes(s.insert(c)) =~= known_codes(s).insert(c));
    }
}

} // verus!
