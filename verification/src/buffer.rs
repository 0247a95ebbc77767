//! Bounds-checked, position-tracking byte store with big-endian integer
//! primitives. Every other codec of the crate is built on it.

use vstd::prelude::*;

use crate::error::DrasilDNSError;

verus! {

/// Ghost description of a [`Buffer`]: its byte contents, its cursor and
/// whether writes past the end may grow the store.
pub ghost struct BufferModel {
    pub bytes: Seq<u8>,
    pub pos: int,
    pub expandable: bool,
}

/// The value of a big-endian byte sequence, most significant byte first.
pub open spec fn be_val(s: Seq<u8>) -> int
    decreases s.len(),
{
    if s.len() == 0 {
        0
    } else {
        be_val(s.drop_last()) * 256 + s.last()
    }
}

/// `256^n`, the number of values an `n`-byte field can hold.
pub open spec fn pow256(n: nat) -> int
    decreases n,
{
    if n == 0 {
        1
    } else {
        256 * pow256((n - 1) as nat)
    }
}

/// The bytes of `data` with `b` overwritten at offset `at`, zero-padding
/// any gap if `data` must first grow to reach `at + b.len()`.
pub open spec fn splice_at(data: Seq<u8>, at: int, b: Seq<u8>) -> Seq<u8> {
    let padded = if at + b.len() <= data.len() {
        data
    } else {
        data + Seq::new((at + b.len() - data.len()) as nat, |i: int| 0u8)
    };
    Seq::new(padded.len() as nat, |i: int| if at <= i < at + b.len() { b[i - at] } else { padded[i] })
}

pub proof fn lemma_be_val_bound(s: Seq<u8>)
    ensures
        0 <= be_val(s) < pow256(s.len()),
    decreases s.len(),
{
    if s.len() == 0 {
    } else {
        lemma_be_val_bound(s.drop_last());
        let q = be_val(s.drop_last());
        let p = pow256((s.len() - 1) as nat);
        assert(q * 256 + 255 < 256 * p) by (nonlinear_arith)
            requires 0 <= q < p;
    }
}

/// # Buffer
/// Custom reader and writer for byte buffers.
/// Reads are atomic: a failed read leaves the cursor where it was.
/// Writes are atomic too: a failed write changes nothing.
pub struct Buffer {
    pos: usize,
    data: Vec<u8>,
    expandable: bool,
}

impl View for Buffer {
    type V = BufferModel;

    closed spec fn view(&self) -> BufferModel {
        BufferModel { bytes: self.data@, pos: self.pos as int, expandable: self.expandable }
    }
}

fn zeroed_vec(n: usize) -> (v: Vec<u8>)
    ensures
        v@ == Seq::new(n as nat, |i: int| 0u8),
{
    let mut v: Vec<u8> = Vec::new();
    while v.len() < n
        invariant
            v@.len() <= n,
            forall|i: int| 0 <= i < v@.len() ==> v@[i] == 0u8,
        decreases n - v.len(),
    {
        v.push(0);
    }
    assert(v@ =~= Seq::new(n as nat, |i: int| 0u8));
    v
}

impl Default for Buffer {
    /// A fixed 512-byte zeroed buffer, the conventional minimum DNS message size.
    fn default() -> (r: Self)
        ensures
            r@.bytes == Seq::new(512, |i: int| 0u8),
            r@.pos == 0,
            !r@.expandable,
    {
        Buffer { pos: 0, data: zeroed_vec(512), expandable: false }
    }
}

impl Buffer {
    /// Wraps an owned byte vector in a fixed-size `Buffer` with the cursor at 0.
    pub fn from_bytes(data: Vec<u8>) -> (r: Self)
        ensures
            r@.bytes == data@,
            r@.pos == 0,
            !r@.expandable,
    {
        Buffer { pos: 0, data, expandable: false }
    }

    /// Hands back the byte store, consuming the `Buffer`.
    pub fn into_bytes(self) -> (r: Vec<u8>)
        ensures
            r@ == self@.bytes,
    {
        self.data
    }
    /// Creates a new fixed-size `Buffer` of `capacity` zero bytes.
    pub fn with_capacity(capacity: usize) -> (r: Self)
        ensures
            r@.bytes == Seq::new(capacity as nat, |i: int| 0u8),
            r@.pos == 0,
            !r@.expandable,
    {
        Buffer { pos: 0, data: zeroed_vec(capacity), expandable: false }
    }

    /// Used to set the expandable nature of the `Buffer`.
    pub fn set_expandable(&mut self, expandable: bool)
        ensures
            final(self)@ == (BufferModel { expandable, ..old(self)@ }),
    {
        self.expandable = expandable;
    }

    /// Tells whether or not the `Buffer` is expandable.
    pub fn is_expandable(&self) -> (r: bool)
        ensures
            r == self@.expandable,
    {
        self.expandable
    }

    /// Tells whether the `Buffer` cursor is at or past the end and cannot grow.
    pub fn is_eof(&self) -> (r: bool)
        ensures
            r == (self@.pos >= self@.bytes.len() && !self@.expandable),
    {
        self.pos >= self.data.len() && !self.expandable
    }

    /// Returns the current position of the buffer.
    pub fn pos(&self) -> (r: usize)
        ensures
            r == self@.pos,
    {
        self.pos
    }

    /// Sets the current position of the buffer.
    pub fn seek(&mut self, pos: usize)
        ensures
            final(self)@ == (BufferModel { pos: pos as int, ..old(self)@ }),
    {
        self.pos = pos;
    }

    /// Overwrites `bytes` at absolute offset `at` and leaves the cursor just
    /// past them. A fixed-size buffer that is too short fails with `EOF` and
    /// is left untouched; an expandable one grows to fit.
    pub fn set_bytes(&mut self, at: usize, bytes: &[u8]) -> (r: Result<(), DrasilDNSError>)
        ensures
            match r {
                Ok(()) => {
                    &&& at + bytes@.len() <= usize::MAX
                    &&& old(self)@.expandable || at + bytes@.len() <= old(self)@.bytes.len()
                    &&& final(self)@.bytes == splice_at(old(self)@.bytes, at as int, bytes@)
                    &&& final(self)@.pos == at + bytes@.len()
                    &&& final(self)@.expandable == old(self)@.expandable
                },
                Err(e) => {
                    &&& e == DrasilDNSError::EOF
                    &&& (!old(self)@.expandable && at + bytes@.len() > old(self)@.bytes.len())
                        || at + bytes@.len() > usize::MAX
                    &&& final(self)@ == old(self)@
                },
            },
    {
        if bytes.len() > usize::MAX - at {
            return Err(DrasilDNSError::EOF);
        }
        let end: usize = at + bytes.len();
        if end > self.data.len() {
            if !self.expandable {
                return Err(DrasilDNSError::EOF);
            }
            self.data.resize(end, 0);
        }
        let ghost padded = self.data@;
        assert(padded == (if at + bytes@.len() <= old(self)@.bytes.len() {
            old(self)@.bytes
        } else {
            old(self)@.bytes + Seq::new((at + bytes@.len() - old(self)@.bytes.len()) as nat, |i: int| 0u8)
        })) by {
            if at + bytes@.len() > old(self)@.bytes.len() {
                assert(padded =~= old(self)@.bytes + Seq::new(
                    (at + bytes@.len() - old(self)@.bytes.len()) as nat,
                    |i: int| 0u8,
                ));
            }
        }
        let dlen: usize = self.data.len();
        let mut i: usize = 0;
        while i < bytes.len()
            invariant
                at + bytes@.len() <= self.data@.len(),
                dlen == self.data@.len(),
                i <= bytes@.len(),
                self.data@.len() == padded.len(),
                forall|j: int| 0 <= j < self.data@.len() && !(at <= j < at + i) ==> self.data@[j] == padded[j],
                forall|j: int| at <= j < at + i ==> self.data@[j] == bytes@[j - at],
                self.pos == old(self).pos,
                self.expandable == old(self).expandable,
            decreases bytes@.len() - i,
        {
            self.data[at + i] = bytes[i];
            i += 1;
        }
        self.pos = end;
        proof {
            assert(final(self)@.bytes =~= splice_at(old(self)@.bytes, at as int, bytes@));
        }
        Ok(())
    }

    /// Overwrites the given buffer's bytes at absolute offset `at`.
    pub fn set_buffer(&mut self, at: usize, buff: &Buffer) -> (r: Result<(), DrasilDNSError>)
        ensures
            match r {
                Ok(()) => {
                    &&& at + buff@.bytes.len() <= usize::MAX
                    &&& old(self)@.expandable || at + buff@.bytes.len() <= old(self)@.bytes.len()
                    &&& final(self)@.bytes == splice_at(old(self)@.bytes, at as int, buff@.bytes)
                    &&& final(self)@.pos == at + buff@.bytes.len()
                    &&& final(self)@.expandable == old(self)@.expandable
                },
                Err(e) => {
                    &&& e == DrasilDNSError::EOF
                    &&& (!old(self)@.expandable && at + buff@.bytes.len() > old(self)@.bytes.len())
                        || at + buff@.bytes.len() > usize::MAX
                    &&& final(self)@ == old(self)@
                },
            },
    {
        self.set_bytes(at, buff.data.as_slice())
    }

    /// Writes the given bytes starting from the current position.
    pub fn write_bytes(&mut self, bytes: &[u8]) -> (r: Result<(), DrasilDNSError>)
        ensures
            match r {
                Ok(()) => {
                    &&& old(self)@.pos + bytes@.len() <= usize::MAX
                    &&& old(self)@.expandable || old(self)@.pos + bytes@.len() <= old(self)@.bytes.len()
                    &&& final(self)@.bytes == splice_at(old(self)@.bytes, old(self)@.pos, bytes@)
                    &&& final(self)@.pos == old(self)@.pos + bytes@.len()
                    &&& final(self)@.expandable == old(self)@.expandable
                },
                Err(e) => {
                    &&& e == DrasilDNSError::EOF
                    &&& (!old(self)@.expandable && old(self)@.pos + bytes@.len() > old(self)@.bytes.len())
                        || old(self)@.pos + bytes@.len() > usize::MAX
                    &&& final(self)@ == old(self)@
                },
            },
    {
        let at: usize = self.pos;
        self.set_bytes(at, bytes)
    }

    /// Writes the given buffer's bytes starting from the current position.
    pub fn write_buffer(&mut self, buff: &Buffer) -> (r: Result<(), DrasilDNSError>)
        ensures
            match r {
                Ok(()) => {
                    &&& old(self)@.pos + buff@.bytes.len() <= usize::MAX
                    &&& old(self)@.expandable || old(self)@.pos + buff@.bytes.len() <= old(self)@.bytes.len()
                    &&& final(self)@.bytes == splice_at(old(self)@.bytes, old(self)@.pos, buff@.bytes)
                    &&& final(self)@.pos == old(self)@.pos + buff@.bytes.len()
                    &&& final(self)@.expandable == old(self)@.expandable
                },
                Err(e) => {
                    &&& e == DrasilDNSError::EOF
                    &&& (!old(self)@.expandable && old(self)@.pos + buff@.bytes.len() > old(self)@.bytes.len())
                        || old(self)@.pos + buff@.bytes.len() > usize::MAX
                    &&& final(self)@ == old(self)@
                },
            },
    {
        let at: usize = self.pos;
        self.set_bytes(at, buff.data.as_slice())
    }

    /// Reads `len` bytes from the current position and advances past them.
    /// Fails with `EOF`, moving nothing, when fewer than `len` bytes remain.
    pub fn read_bytes(&mut self, len: usize) -> (r: Result<Vec<u8>, DrasilDNSError>)
        ensures
            match r {
                Ok(bytes) => {
                    &&& old(self)@.pos + len <= old(self)@.bytes.len()
                    &&& bytes@ == old(self)@.bytes.subrange(old(self)@.pos, old(self)@.pos + len)
                    &&& final(self)@ == (BufferModel { pos: old(self)@.pos + len, ..old(self)@ })
                },
                Err(e) => {
                    &&& e == DrasilDNSError::EOF
                    &&& old(self)@.pos + len > old(self)@.bytes.len()
                    &&& final(self)@ == old(self)@
                },
            },
    {
        if len > self.data.len() || self.pos > self.data.len() - len {
            return Err(DrasilDNSError::EOF);
        }
        let dlen: usize = self.data.len();
        let mut bytes: Vec<u8> = Vec::new();
        let mut i: usize = 0;
        while i < len
            invariant
                self == old(self),
                self.pos + len <= self.data@.len(),
                dlen == self.data@.len(),
                i <= len,
                bytes@ == self.data@.subrange(self.pos as int, self.pos + i),
            decreases len - i,
        {
            bytes.push(self.data[self.pos + i]);
            proof {
                assert(bytes@ =~= self.data@.subrange(self.pos as int, self.pos + i + 1));
            }
            i += 1;
        }
        self.pos = self.pos + len;
        Ok(bytes)
    }

    /// Reads `n` bytes (at most 16) as one big-endian integer.
    pub(crate) fn read_be_uint(&mut self, n: usize) -> (r: Result<u128, DrasilDNSError>)
        requires
            n <= 16,
        ensures
            match r {
                Ok(v) => {
                    &&& old(self)@.pos + n <= old(self)@.bytes.len()
                    &&& v == be_val(old(self)@.bytes.subrange(old(self)@.pos, old(self)@.pos + n))
                    &&& final(self)@ == (BufferModel { pos: old(self)@.pos + n, ..old(self)@ })
                },
                Err(e) => {
                    &&& e == DrasilDNSError::EOF
                    &&& old(self)@.pos + n > old(self)@.bytes.len()
                    &&& final(self)@ == old(self)@
                },
            },
    {
        let bytes = self.read_bytes(n)?;
        let ghost s = bytes@;
        let mut acc: u128 = 0;
        let mut i: usize = 0;
        proof {
            assert(s.subrange(0, 0) =~= Seq::<u8>::empty());
        }
        while i < n
            invariant
                n <= 16,
                i <= n,
                bytes@ == s,
                s.len() == n,
                acc == be_val(s.subrange(0, i as int)),
                0 <= acc < pow256(i as nat),
            decreases n - i,
        {
            proof {
                let t = s.subrange(0, i + 1);
                assert(t.drop_last() =~= s.subrange(0, i as int));
                assert(t.last() == s[i as int]);
                lemma_pow256_monotonic(i as nat + 1, 16);
                lemma_pow256_values();
                assert(acc * 256 + s[i as int] < 256 * pow256(i as nat)) by (nonlinear_arith)
                    requires 0 <= acc < pow256(i as nat), 0 <= s[i as int] < 256;
            }
            acc = acc * 256 + (bytes[i] as u128);
            i += 1;
        }
        proof {
            assert(s.subrange(0, n as int) =~= s);
        }
        Ok(acc)
    }

    /// Reads a single byte.
    pub fn read_u8(&mut self) -> (r: Result<u8, DrasilDNSError>)
        ensures
            match r {
                Ok(v) => {
                    &&& old(self)@.pos + 1 <= old(self)@.bytes.len()
                    &&& v == old(self)@.bytes[old(self)@.pos]
                    &&& final(self)@ == (BufferModel { pos: old(self)@.pos + 1, ..old(self)@ })
                },
                Err(e) => {
                    &&& e == DrasilDNSError::EOF
                    &&& old(self)@.pos + 1 > old(self)@.bytes.len()
                    &&& final(self)@ == old(self)@
                },
            },
    {
        let v: u128 = self.read_be_uint(1)?;
        proof {
            let s = old(self)@.bytes.subrange(old(self)@.pos, old(self)@.pos + 1);
            assert(s.drop_last() =~= Seq::<u8>::empty());
            lemma_be_val_bound(s);
            lemma_pow256_values();
        }
        Ok(v as u8)
    }

    /// Reads a big-endian `u16`.
    pub fn read_u16(&mut self) -> (r: Result<u16, DrasilDNSError>)
        ensures
            match r {
                Ok(v) => {
                    &&& old(self)@.pos + 2 <= old(self)@.bytes.len()
                    &&& v == be_val(old(self)@.bytes.subrange(old(self)@.pos, old(self)@.pos + 2))
                    &&& final(self)@ == (BufferModel { pos: old(self)@.pos + 2, ..old(self)@ })
                },
                Err(e) => {
                    &&& e == DrasilDNSError::EOF
                    &&& old(self)@.pos + 2 > old(self)@.bytes.len()
                    &&& final(self)@ == old(self)@
                },
            },
    {
        let v: u128 = self.read_be_uint(2)?;
        proof {
            lemma_be_val_bound(old(self)@.bytes.subrange(old(self)@.pos, old(self)@.pos + 2));
            lemma_pow256_values();
        }
        Ok(v as u16)
    }

    /// Reads a big-endian `u32`.
    pub fn read_u32(&mut self) -> (r: Result<u32, DrasilDNSError>)
        ensures
            match r {
                Ok(v) => {
                    &&& old(self)@.pos + 4 <= old(self)@.bytes.len()
                    &&& v == be_val(old(self)@.bytes.subrange(old(self)@.pos, old(self)@.pos + 4))
                    &&& final(self)@ == (BufferModel { pos: old(self)@.pos + 4, ..old(self)@ })
                },
                Err(e) => {
                    &&& e == DrasilDNSError::EOF
                    &&& old(self)@.pos + 4 > old(self)@.bytes.len()
                    &&& final(self)@ == old(self)@
                },
            },
    {
        let v: u128 = self.read_be_uint(4)?;
        proof {
            lemma_be_val_bound(old(self)@.bytes.subrange(old(self)@.pos, old(self)@.pos + 4));
            lemma_pow256_values();
        }
        Ok(v as u32)
    }

    /// Reads a big-endian `u64`.
    pub fn read_u64(&mut self) -> (r: Result<u64, DrasilDNSError>)
        ensures
            match r {
                Ok(v) => {
                    &&& old(self)@.pos + 8 <= old(self)@.bytes.len()
                    &&& v == be_val(old(self)@.bytes.subrange(old(self)@.pos, old(self)@.pos + 8))
                    &&& final(self)@ == (BufferModel { pos: old(self)@.pos + 8, ..old(self)@ })
                },
                Err(e) => {
                    &&& e == DrasilDNSError::EOF
                    &&& old(self)@.pos + 8 > old(self)@.bytes.len()
                    &&& final(self)@ == old(self)@
                },
            },
    {
        let v: u128 = self.read_be_uint(8)?;
        proof {
            lemma_be_val_bound(old(self)@.bytes.subrange(old(self)@.pos, old(self)@.pos + 8));
            lemma_pow256_values();
        }
        Ok(v as u64)
    }

    /// Reads a big-endian `u128`.
    pub fn read_u128(&mut self) -> (r: Result<u128, DrasilDNSError>)
        ensures
            match r {
                Ok(v) => {
                    &&& old(self)@.pos + 16 <= old(self)@.bytes.len()
                    &&& v == be_val(old(self)@.bytes.subrange(old(self)@.pos, old(self)@.pos + 16))
                    &&& final(self)@ == (BufferModel { pos: old(self)@.pos + 16, ..old(self)@ })
                },
                Err(e) => {
                    &&& e == DrasilDNSError::EOF
                    &&& old(self)@.pos + 16 > old(self)@.bytes.len()
                    &&& final(self)@ == old(self)@
                },
            },
    {
        self.read_be_uint(16)
    }


    /// Helper for atomic reads: runs `op` once against the buffer and, if
    /// it fails, restores the cursor the operation moved before handing the
    /// failure on. It is meant for read operations only: writes the
    /// operation performed are not undone.
    pub fn read_transaction<T, F: FnOnce(&mut Buffer) -> Result<T, DrasilDNSError>>(
        &mut self,
        op: F,
    ) -> (r: Result<T, DrasilDNSError>)
        requires
            forall|b: &mut Buffer| b@ == old(self)@ ==> #[trigger] call_requires(op, (b,)),
        ensures
            match r {
                Ok(v) => exists|b: &mut Buffer| #[trigger] call_ensures(op, (b,), Ok(v)),
                Err(e) => {
                    &&& exists|b: &mut Buffer| #[trigger] call_ensures(op, (b,), Err(e))
                    &&& final(self)@.pos == old(self)@.pos
                },
            },
    {
        let pos: usize = self.pos();
        match op(self) {
            Ok(v) => Ok(v),
            Err(e) => {
                self.seek(pos);
                Err(e)
            },
        }
    }

    /// The byte at absolute offset `i`, if there is one; the cursor does not move.
    pub fn get_at(&self, i: usize) -> (r: Option<u8>)
        ensures
            match r {
                Some(b) => i < self@.bytes.len() && b == self@.bytes[i as int],
                None => i >= self@.bytes.len(),
            },
    {
        if i < self.data.len() {
            Some(self.data[i])
        } else {
            None
        }
    }

    /// The number of bytes the buffer holds.
    pub fn len(&self) -> (r: usize)
        ensures
            r == self@.bytes.len(),
    {
        self.data.len()
    }

    /// Writes `n` bytes (at most 16) of `val`, most significant first.
    pub(crate) fn write_be_uint(&mut self, val: u128, n: usize) -> (r: Result<(), DrasilDNSError>)
        requires
            n <= 16,
        ensures
            match r {
                Ok(()) => {
                    &&& old(self)@.pos + n <= usize::MAX
                    &&& old(self)@.expandable || old(self)@.pos + n <= old(self)@.bytes.len()
                    &&& final(self)@.bytes == splice_at(old(self)@.bytes, old(self)@.pos, be_bytes_of(val as int, n as nat))
                    &&& final(self)@.pos == old(self)@.pos + n
                    &&& final(self)@.expandable == old(self)@.expandable
                },
                Err(e) => {
                    &&& e == DrasilDNSError::EOF
                    &&& (!old(self)@.expandable && old(self)@.pos + n > old(self)@.bytes.len())
                        || old(self)@.pos + n > usize::MAX
                    &&& final(self)@ == old(self)@
                },
            },
    {
        let bytes = be_split(val, n);
        proof {
            lemma_be_bytes_of_len(val as int, n as nat);
        }
        self.write_bytes(bytes.as_slice())
    }

    /// Writes a single byte.
    pub fn write_u8(&mut self, val: u8) -> (r: Result<(), DrasilDNSError>)
        ensures
            match r {
                Ok(()) => {
                    &&& old(self)@.pos + 1 <= usize::MAX
                    &&& old(self)@.expandable || old(self)@.pos + 1 <= old(self)@.bytes.len()
                    &&& final(self)@.bytes == splice_at(old(self)@.bytes, old(self)@.pos, be_bytes_of(val as int, 1))
                    &&& final(self)@.pos == old(self)@.pos + 1
                    &&& final(self)@.expandable == old(self)@.expandable
                },
                Err(e) => {
                    &&& e == DrasilDNSError::EOF
                    &&& (!old(self)@.expandable && old(self)@.pos + 1 > old(self)@.bytes.len())
                        || old(self)@.pos + 1 > usize::MAX
                    &&& final(self)@ == old(self)@
                },
            },
    {
        self.write_be_uint(val as u128, 1)
    }

    /// Writes a big-endian `u16`.
    pub fn write_u16(&mut self, val: u16) -> (r: Result<(), DrasilDNSError>)
        ensures
            match r {
                Ok(()) => {
                    &&& old(self)@.pos + 2 <= usize::MAX
                    &&& old(self)@.expandable || old(self)@.pos + 2 <= old(self)@.bytes.len()
                    &&& final(self)@.bytes == splice_at(old(self)@.bytes, old(self)@.pos, be_bytes_of(val as int, 2))
                    &&& final(self)@.pos == old(self)@.pos + 2
                    &&& final(self)@.expandable == old(self)@.expandable
                },
                Err(e) => {
                    &&& e == DrasilDNSError::EOF
                    &&& (!old(self)@.expandable && old(self)@.pos + 2 > old(self)@.bytes.len())
                        || old(self)@.pos + 2 > usize::MAX
                    &&& final(self)@ == old(self)@
                },
            },
    {
        self.write_be_uint(val as u128, 2)
    }

    /// Writes a big-endian `u32`.
    pub fn write_u32(&mut self, val: u32) -> (r: Result<(), DrasilDNSError>)
        ensures
            match r {
                Ok(()) => {
                    &&& old(self)@.pos + 4 <= usize::MAX
                    &&& old(self)@.expandable || old(self)@.pos + 4 <= old(self)@.bytes.len()
                    &&& final(self)@.bytes == splice_at(old(self)@.bytes, old(self)@.pos, be_bytes_of(val as int, 4))
                    &&& final(self)@.pos == old(self)@.pos + 4
                    &&& final(self)@.expandable == old(self)@.expandable
                },
                Err(e) => {
                    &&& e == DrasilDNSError::EOF
                    &&& (!old(self)@.expandable && old(self)@.pos + 4 > old(self)@.bytes.len())
                        || old(self)@.pos + 4 > usize::MAX
                    &&& final(self)@ == old(self)@
                },
            },
    {
        self.write_be_uint(val as u128, 4)
    }

    /// Writes a big-endian `u64`.
    pub fn write_u64(&mut self, val: u64) -> (r: Result<(), DrasilDNSError>)
        ensures
            match r {
                Ok(()) => {
                    &&& old(self)@.pos + 8 <= usize::MAX
                    &&& old(self)@.expandable || old(self)@.pos + 8 <= old(self)@.bytes.len()
                    &&& final(self)@.bytes == splice_at(old(self)@.bytes, old(self)@.pos, be_bytes_of(val as int, 8))
                    &&& final(self)@.pos == old(self)@.pos + 8
                    &&& final(self)@.expandable == old(self)@.expandable
                },
                Err(e) => {
                    &&& e == DrasilDNSError::EOF
                    &&& (!old(self)@.expandable && old(self)@.pos + 8 > old(self)@.bytes.len())
                        || old(self)@.pos + 8 > usize::MAX
                    &&& final(self)@ == old(self)@
                },
            },
    {
        self.write_be_uint(val as u128, 8)
    }

    /// Writes a big-endian `u128`.
    pub fn write_u128(&mut self, val: u128) -> (r: Result<(), DrasilDNSError>)
        ensures
            match r {
                Ok(()) => {
                    &&& old(self)@.pos + 16 <= usize::MAX
                    &&& old(self)@.expandable || old(self)@.pos + 16 <= old(self)@.bytes.len()
                    &&& final(self)@.bytes == splice_at(old(self)@.bytes, old(self)@.pos, be_bytes_of(val as int, 16))
                    &&& final(self)@.pos == old(self)@.pos + 16
                    &&& final(self)@.expandable == old(self)@.expandable
                },
                Err(e) => {
                    &&& e == DrasilDNSError::EOF
                    &&& (!old(self)@.expandable && old(self)@.pos + 16 > old(self)@.bytes.len())
                        || old(self)@.pos + 16 > usize::MAX
                    &&& final(self)@ == old(self)@
                },
            },
    {
        self.write_be_uint(val, 16)
    }
}

/// Splits `val` into its `n` low-order bytes, most significant first.
fn be_split(val: u128, n: usize) -> (out: Vec<u8>)
    requires
        n <= 16,
    ensures
        out@ == be_bytes_of(val as int, n as nat),
    decreases n,
{
    if n == 0 {
        let out: Vec<u8> = Vec::new();
        proof {
            assert(out@ =~= be_bytes_of(val as int, 0));
        }
        out
    } else {
        let mut out = be_split(val / 256, n - 1);
        out.push((val % 256) as u8);
        proof {
            assert((val as int) / 256 == (val / 256) as int);
            assert((val as int) % 256 == (val % 256) as int);
        }
        out
    }
}

/// The one-byte encoding of a byte is that byte.
pub proof fn lemma_be_bytes_of_u8(v: u8)
    ensures
        be_bytes_of(v as int, 1) == seq![v],
{
    assert(be_bytes_of((v as int) / 256, 0) =~= Seq::<u8>::empty());
    assert(be_bytes_of(v as int, 1) =~= seq![v]);
}

/// The two-byte encoding of a 16-bit value: high byte then low byte.
pub proof fn lemma_be_bytes_of_u16(v: u16)
    ensures
        be_bytes_of(v as int, 2) == seq![(v / 256) as u8, (v % 256) as u8],
{
    assert(be_bytes_of(((v as int) / 256) / 256, 0) =~= Seq::<u8>::empty());
    assert(be_bytes_of((v as int) / 256, 1) =~= seq![(v / 256) as u8]);
    assert(be_bytes_of(v as int, 2) =~= seq![(v / 256) as u8, (v % 256) as u8]);
}

/// The value of a two-byte big-endian field, spelled out.
pub proof fn lemma_be_val_two_bytes(s: Seq<u8>)
    requires
        s.len() == 2,
    ensures
        be_val(s) == s[0] * 256 + s[1],
{
    assert(s.drop_last() =~= seq![s[0]]);
    assert(seq![s[0]].drop_last() =~= Seq::<u8>::empty());
    assert(be_val(Seq::<u8>::empty()) == 0);
    assert(be_val(seq![s[0]]) == s[0]);
}

/// The value of a one-byte big-endian field.
pub proof fn lemma_be_val_one_byte(s: Seq<u8>)
    requires
        s.len() == 1,
    ensures
        be_val(s) == s[0],
{
    assert(s.drop_last() =~= Seq::<u8>::empty());
    assert(be_val(Seq::<u8>::empty()) == 0);
}

/// Only the low `n` bytes of a value reach its `n`-byte encoding.
pub proof fn lemma_be_bytes_of_mod(v: int, n: nat)
    requires
        v >= 0,
    ensures
        be_bytes_of(v % pow256(n), n) == be_bytes_of(v, n),
    decreases n,
{
    if n > 0 {
        let q = pow256((n - 1) as nat);
        lemma_pow256_pos((n - 1) as nat);
        vstd::arithmetic::div_mod::lemma_mod_breakdown(v, 256, q);
        let m = v % (256 * q);
        assert(m == 256 * ((v / 256) % q) + v % 256);
        assert(m / 256 == (v / 256) % q && m % 256 == v % 256) by (nonlinear_arith)
            requires m == 256 * ((v / 256) % q) + v % 256, 0 <= (v / 256) % q, 0 <= v % 256 < 256;
        lemma_be_bytes_of_mod(v / 256, (n - 1) as nat);
        assert(v / 256 >= 0);
        assert((v / 256) % q >= 0);
        assert(be_bytes_of(m, n) == be_bytes_of(m / 256, (n - 1) as nat).push((m % 256) as u8));
        assert(be_bytes_of(v % pow256(n), n) =~= be_bytes_of(v, n));
    }
}

/// A buffer's model stays within machine bounds: its store is a real
/// vector and its cursor a real index.
pub proof fn lemma_buffer_model_bounds(b: &Buffer)
    ensures
        0 <= b@.pos <= usize::MAX,
        b@.bytes.len() <= usize::MAX,
{
    vstd::std_specs::vec::axiom_spec_len(&b.data);
}

/// The handful of `pow256` values the integer primitives need.
pub proof fn lemma_pow256_values()
    ensures
        pow256(0) == 1,
        pow256(1) == 0x100,
        pow256(2) == 0x10000,
        pow256(4) == 0x100000000,
        pow256(8) == 0x10000000000000000,
        pow256(16) == 0x100000000000000000000000000000000,
{
    reveal_with_fuel(pow256, 17);
}

/// The big-endian byte encoding of the low `n` bytes of `v`.
pub open spec fn be_bytes_of(v: int, n: nat) -> Seq<u8>
    decreases n,
{
    if n == 0 {
        Seq::empty()
    } else {
        be_bytes_of(v / 256, (n - 1) as nat).push((v % 256) as u8)
    }
}

pub proof fn lemma_be_bytes_of_len(v: int, n: nat)
    ensures
        be_bytes_of(v, n).len() == n,
    decreases n,
{
    if n > 0 {
        lemma_be_bytes_of_len(v / 256, (n - 1) as nat);
    }
}

/// Splitting a value into `n` bytes and reading them back as big-endian
/// returns the value, for values that fit in `n` bytes.
pub proof fn lemma_be_val_of_be_bytes(v: int, n: nat)
    requires
        0 <= v < pow256(n),
    ensures
        be_val(be_bytes_of(v, n)) == v,
    decreases n,
{
    lemma_be_val_mod_of_be_bytes(v, n);
    vstd::arithmetic::div_mod::lemma_small_mod(v as nat, pow256(n) as nat);
}

proof fn lemma_be_val_mod_of_be_bytes(v: int, n: nat)
    requires
        0 <= v,
    ensures
        be_val(be_bytes_of(v, n)) == v % pow256(n),
    decreases n,
{
    if n == 0 {
        assert(v % 1 == 0) by (nonlinear_arith)
            requires 0 <= v;
    } else {
        lemma_be_val_mod_of_be_bytes(v / 256, (n - 1) as nat);
        let s = be_bytes_of(v / 256, (n - 1) as nat);
        let t = s.push((v % 256) as u8);
        assert(t.drop_last() =~= s);
        lemma_pow256_pos((n - 1) as nat);
        vstd::arithmetic::div_mod::lemma_mod_breakdown(v, 256, pow256((n - 1) as nat));
    }
}

proof fn lemma_pow256_monotonic(m: nat, n: nat)
    requires
        m <= n,
    ensures
        pow256(m) <= pow256(n),
    decreases n,
{
    if m < n {
        lemma_pow256_monotonic(m, (n - 1) as nat);
        let p = pow256((n - 1) as nat);
        lemma_pow256_pos((n - 1) as nat);
        assert(pow256(n) == 256 * p);
    }
}

proof fn lemma_pow256_pos(n: nat)
    ensures
        pow256(n) >= 1,
    decreases n,
{
    if n > 0 {
        lemma_pow256_pos((n - 1) as nat);
    }
}

} // verus!
