//! The domain-name label codec: length-prefixed labels with RFC 1035
//! compression pointers on decode, and the uncompressed encoding on encode.

use vstd::prelude::*;

use crate::buffer::{Buffer, BufferModel, splice_at};
use crate::error::DrasilDNSError;

verus! {

/// A length byte whose top two bits are `11` announces a compression pointer.
pub open spec fn is_pointer_byte(b: u8) -> bool {
    b >= 0xC0
}

/// The 14-bit target offset a two-byte compression pointer holds.
pub open spec fn pointer_target(hi: u8, lo: u8) -> int {
    (hi - 0xC0) * 256 + lo
}

/// ASCII case folding of one byte.
pub open spec fn lower_byte(b: u8) -> u8 {
    if 65 <= b && b <= 90 {
        (b + 32) as u8
    } else {
        b
    }
}

/// ASCII case folding of a byte sequence.
pub open spec fn lower_bytes(s: Seq<u8>) -> Seq<u8> {
    s.map_values(|b: u8| lower_byte(b))
}

/// ASCII case folding of every label of a name.
pub open spec fn lower_labels(ls: Seq<Seq<u8>>) -> Seq<Seq<u8>> {
    ls.map_values(|l: Seq<u8>| lower_bytes(l))
}

/// What one walk over an encoded name yields: the (case-folded) labels, the
/// position just past the name as the caller sees it — past the terminating
/// zero, or past the first compression pointer when one was followed — and
/// whether a pointer was followed.
pub ghost struct LabelsWalk {
    pub labels: Seq<Seq<u8>>,
    pub end: int,
    pub jumped: bool,
}

pub open spec fn walk_measure(data: Seq<u8>, i: int) -> int {
    if i <= data.len() {
        data.len() - i
    } else {
        0
    }
}

/// The meaning of an encoded domain name: walk `data` from `i`, reading
/// length-prefixed labels until a zero length byte, following at most
/// `5 - jumps` more compression pointers when `use_jumps` holds. Pointer
/// bytes with `use_jumps` off, like any length over 63, are label-size
/// errors; running off the end of `data` is `EOF`; a sixth pointer is
/// `TooManyJumpsInLabelSequence`.
pub open spec fn labels_walk(data: Seq<u8>, i: int, jumps: int, use_jumps: bool) -> Result<
    LabelsWalk,
    DrasilDNSError,
>
    decreases 5 - jumps, walk_measure(data, i),
    when 0 <= jumps <= 5
{
    if i < 0 || i >= data.len() {
        Err(DrasilDNSError::EOF)
    } else {
        let len = data[i];
        if is_pointer_byte(len) && use_jumps {
            if jumps >= 5 {
                Err(DrasilDNSError::TooManyJumpsInLabelSequence)
            } else if i + 1 >= data.len() {
                Err(DrasilDNSError::EOF)
            } else {
                match labels_walk(data, pointer_target(len, data[i + 1]), jumps + 1, use_jumps) {
                    Ok(w) => Ok(LabelsWalk { labels: w.labels, end: i + 2, jumped: true }),
                    Err(e) => Err(e),
                }
            }
        } else if len == 0 {
            Ok(LabelsWalk { labels: Seq::empty(), end: i + 1, jumped: false })
        } else if len > 63 {
            Err(DrasilDNSError::LabelTooLarge { size: len })
        } else if i + 1 + len > data.len() {
            Err(DrasilDNSError::EOF)
        } else {
            match labels_walk(data, i + 1 + len, jumps, use_jumps) {
                Ok(w) => Ok(
                    LabelsWalk {
                        labels: seq![lower_bytes(data.subrange(i + 1, i + 1 + len))] + w.labels,
                        end: w.end,
                        jumped: w.jumped,
                    },
                ),
                Err(e) => Err(e),
            }
        }
    }
}

/// Every label fits the 63-byte wire limit.
pub open spec fn labels_valid(ls: Seq<Seq<u8>>) -> bool {
    forall|k: int| 0 <= k < ls.len() ==> #[trigger] ls[k].len() <= 63
}

/// The uncompressed wire encoding of a name: each label as a length byte
/// followed by its bytes, closed by a zero length byte.
pub open spec fn encode_labels(ls: Seq<Seq<u8>>) -> Seq<u8>
    decreases ls.len(),
{
    if ls.len() == 0 {
        seq![0u8]
    } else {
        seq![ls[0].len() as u8] + ls[0] + encode_labels(ls.drop_first())
    }
}

/// The size reported by a label-size error: the label's length, saturated
/// to the error field's width.
pub open spec fn label_size_error(l: Seq<u8>) -> u8 {
    if l.len() > 255 {
        255u8
    } else {
        l.len() as u8
    }
}

pub proof fn lemma_encode_labels_len(ls: Seq<Seq<u8>>)
    requires
        labels_valid(ls),
    ensures
        encode_labels(ls).len() == ls.len() + ls.fold_left(0, |acc: int, l: Seq<u8>| acc + l.len()) + 1,
        encode_labels(ls).len() >= 1 + ls.len(),
        encode_labels(ls).len() <= 1 + 64 * ls.len(),
    decreases ls.len(),
{
    if ls.len() == 0 {
    } else {
        assert(labels_valid(ls.drop_first())) by {
            assert(forall|k: int|
                0 <= k < ls.drop_first().len() ==> #[trigger] ls.drop_first()[k] == ls[k + 1]);
        }
        lemma_encode_labels_len(ls.drop_first());
        lemma_fold_len_drop_first(ls);
    }
}

proof fn lemma_fold_len_drop_first(ls: Seq<Seq<u8>>)
    requires
        ls.len() > 0,
    ensures
        ls.fold_left(0, |acc: int, l: Seq<u8>| acc + l.len()) == ls[0].len()
            + ls.drop_first().fold_left(0, |acc: int, l: Seq<u8>| acc + l.len()),
    decreases ls.len(),
{
    let f = |acc: int, l: Seq<u8>| acc + l.len();
    if ls.len() == 1 {
        assert(ls.drop_first() =~= Seq::<Seq<u8>>::empty());
        reveal_with_fuel(Seq::fold_left, 2);
    } else {
        lemma_fold_len_drop_first(ls.drop_last());
        assert(ls.drop_last().drop_first() =~= ls.drop_first().drop_last());
        assert(ls.drop_last()[0] == ls[0]);
        assert(ls.fold_left(0, f) == f(ls.drop_last().fold_left(0, f), ls.last()));
        assert(ls.drop_first().fold_left(0, f) == f(
            ls.drop_first().drop_last().fold_left(0, f),
            ls.drop_first().last(),
        ));
        assert(ls.drop_first().last() == ls.last());
    }
}

impl Buffer {
    /// Reads a series of labels stored in the buffer starting from the current
    /// position, case-folding them to lowercase, honouring compression
    /// pointers when `use_jumps` is set. Returns the number of bytes the name
    /// occupies at the cursor together with the labels; a failed read leaves
    /// the cursor where it was.
    pub fn read_labels(&mut self, use_jumps: bool) -> (r: Result<
        (usize, Vec<Vec<u8>>),
        DrasilDNSError,
    >)
        ensures
            match r {
                Ok((n, labels)) => match labels_walk(
                    old(self)@.bytes,
                    old(self)@.pos,
                    0,
                    use_jumps,
                ) {
                    Ok(w) => {
                        &&& labels.deep_view() == w.labels
                        &&& final(self)@ == (BufferModel { pos: w.end, ..old(self)@ })
                        &&& n == w.end - old(self)@.pos
                    },
                    Err(_) => false,
                },
                Err(e) => {
                    &&& labels_walk(old(self)@.bytes, old(self)@.pos, 0, use_jumps) == Err::<
                        LabelsWalk,
                        DrasilDNSError,
                    >(e)
                    &&& final(self)@ == old(self)@
                },
            },
    {
        let ghost data = self@.bytes;
        let ghost pos0 = self@.pos;
        let dlen: usize = self.len();
        let initial_pos: usize = self.pos();

        let mut labels: Vec<Vec<u8>> = Vec::new();
        let mut i: usize = initial_pos;
        let mut jumps: u8 = 0;
        let mut jump_end: usize = 0;

        loop
            invariant
                self@ == old(self)@,
                self@.bytes == data,
                self@.pos == pos0,
                pos0 == initial_pos,
                dlen == data.len(),
                0 <= jumps <= 5,
                jumps > 0 ==> initial_pos < jump_end <= dlen,
                jumps == 0 ==> i >= initial_pos,
                match labels_walk(data, i as int, jumps as int, use_jumps) {
                    Ok(w) => labels_walk(data, pos0, 0, use_jumps) == Ok::<_, DrasilDNSError>(
                        LabelsWalk {
                            labels: labels.deep_view() + w.labels,
                            end: if jumps > 0 { jump_end as int } else { w.end },
                            jumped: jumps > 0 || w.jumped,
                        },
                    ),
                    Err(e) => labels_walk(data, pos0, 0, use_jumps) == Err::<
                        LabelsWalk,
                        DrasilDNSError,
                    >(e),
                },
            decreases 5 - jumps, walk_measure(data, i as int),
        {
            let len: u8 = match self.get_at(i) {
                Some(b) => b,
                None => {
                    return Err(DrasilDNSError::EOF);
                },
            };

            if len >= 0xC0 && use_jumps {
                if jumps >= 5 {
                    return Err(DrasilDNSError::TooManyJumpsInLabelSequence);
                }
                let lo: u8 = match self.get_at(i + 1) {
                    Some(b) => b,
                    None => {
                        return Err(DrasilDNSError::EOF);
                    },
                };
                if jumps == 0 {
                    jump_end = i + 2;
                }
                let offset: u16 = ((len - 0xC0) as u16) * 256 + (lo as u16);
                i = offset as usize;
                jumps = jumps + 1;
            } else if len == 0 {
                let end: usize = if jumps > 0 {
                    jump_end
                } else {
                    i + 1
                };
                self.seek(end);
                return Ok((end - initial_pos, labels));
            } else if len > 63 {
                return Err(DrasilDNSError::LabelTooLarge { size: len });
            } else {
                if (len as usize) > dlen || i + 1 > dlen - (len as usize) {
                    return Err(DrasilDNSError::EOF);
                }
                let mut lab: Vec<u8> = Vec::new();
                let mut j: usize = 0;
                while j < len as usize
                    invariant
                        self@ == old(self)@,
                        self@.bytes == data,
                        dlen == data.len(),
                        i + 1 + len <= dlen,
                        j <= len,
                        lab@ == lower_bytes(data.subrange(i + 1, i + 1 + j)),
                    decreases len as int - j,
                {
                    let b: u8 = match self.get_at(i + 1 + j) {
                        Some(b) => b,
                        None => {
                            proof {
                                assert(false);
                            }
                            return Err(DrasilDNSError::EOF);
                        },
                    };
                    let folded: u8 = if 65 <= b && b <= 90 {
                        b + 32
                    } else {
                        b
                    };
                    lab.push(folded);
                    proof {
                        let sub = data.subrange(i + 1, i + 1 + j + 1);
                        let prev = data.subrange(i + 1, i + 1 + j);
                        assert(folded == lower_byte(data[i + 1 + j]));
                        assert forall|k: int| 0 <= k < j + 1 implies lab@[k] == lower_bytes(
                            sub,
                        )[k] by {
                            assert(lower_bytes(sub)[k] == lower_byte(sub[k]));
                            if k < j {
                                assert(lab@[k] == lower_bytes(prev)[k]);
                                assert(lower_bytes(prev)[k] == lower_byte(prev[k]));
                                assert(prev[k] == sub[k]);
                            } else {
                                assert(sub[k] == data[i + 1 + j]);
                            }
                        }
                        assert(lab@ =~= lower_bytes(sub));
                    }
                    j = j + 1;
                }
                let ghost labels_before = labels.deep_view();
                let ghost lab_view = lab@;
                labels.push(lab);
                proof {
                    assert(labels.deep_view() =~= labels_before.push(lab_view)) by {
                        assert(labels@.len() == labels_before.len() + 1);
                        assert(forall|k: int| 0 <= k < labels_before.len()
                            ==> #[trigger] labels.deep_view()[k] == labels_before[k]);
                        assert(labels.deep_view()[labels_before.len() as int] =~= lab_view);
                    }
                    match labels_walk(data, i + 1 + len, jumps as int, use_jumps) {
                        Ok(w) => {
                            assert(labels.deep_view() + w.labels =~= labels_before + (seq![
                                lab_view,
                            ] + w.labels));
                        },
                        Err(_) => {},
                    }
                }
                i = i + 1 + (len as usize);
            }
        }
    }

    /// Writes the provided labels to the buffer in the uncompressed encoding.
    /// A label longer than 63 bytes fails with `LabelTooLarge`; a fixed-size
    /// buffer without room for the whole name fails with `EOF`; either way the
    /// buffer is left untouched. On success returns the encoded length.
    pub fn write_labels(&mut self, labels: &Vec<Vec<u8>>) -> (r: Result<usize, DrasilDNSError>)
        ensures
            match r {
                Ok(n) => {
                    &&& labels_valid(labels.deep_view())
                    &&& n == encode_labels(labels.deep_view()).len()
                    &&& old(self)@.pos + n <= usize::MAX
                    &&& old(self)@.expandable || old(self)@.pos + n <= old(self)@.bytes.len()
                    &&& final(self)@.bytes == splice_at(
                        old(self)@.bytes,
                        old(self)@.pos,
                        encode_labels(labels.deep_view()),
                    )
                    &&& final(self)@.pos == old(self)@.pos + n
                    &&& final(self)@.expandable == old(self)@.expandable
                },
                Err(e) => {
                    &&& final(self)@ == old(self)@
                    &&& match e {
                        DrasilDNSError::LabelTooLarge { size } => {
                            let ls = labels.deep_view();
                            let k = first_oversize(ls);
                            &&& !labels_valid(ls)
                            &&& 0 <= k < ls.len()
                            &&& ls[k].len() > 63
                            &&& size == label_size_error(ls[k])
                        },
                        DrasilDNSError::EOF => {
                            &&& labels_valid(labels.deep_view())
                            &&& (!old(self)@.expandable && old(self)@.pos + encode_labels(
                                labels.deep_view(),
                            ).len() > old(self)@.bytes.len()) || old(self)@.pos + encode_labels(
                                labels.deep_view(),
                            ).len() > usize::MAX
                        },
                        _ => false,
                    }
                },
            },
    {
        let ghost ls = labels.deep_view();
        let initial_pos: usize = self.pos();

        // First pass: reject oversize labels, so the later failures are
        // exactly the out-of-room ones.
        let mut idx: usize = 0;
        while idx < labels.len()
            invariant
                self@ == old(self)@,
                initial_pos == old(self)@.pos,
                labels.deep_view() == ls,
                idx <= ls.len(),
                forall|k: int| 0 <= k < idx ==> #[trigger] ls[k].len() <= 63,
            decreases ls.len() - idx,
        {
            let llen: usize = labels[idx].len();
            proof {
                assert(ls[idx as int] == labels@[idx as int].deep_view());
                assert(labels@[idx as int].deep_view() =~= labels@[idx as int]@);
            }
            if llen > 63 {
                let size: u8 = if llen > 255 {
                    255
                } else {
                    llen as u8
                };
                proof {
                    lemma_first_oversize(ls, idx as int);
                }
                return Err(DrasilDNSError::LabelTooLarge { size });
            }
            idx = idx + 1;
        }
        proof {
            assert(labels_valid(ls));
        }

        // Second pass: compute the encoded length, so the build below cannot
        // fail halfway through.
        let mut total: usize = 1;
        let mut idx: usize = 0;
        while idx < labels.len()
            invariant
                self@ == old(self)@,
                initial_pos == old(self)@.pos,
                labels.deep_view() == ls,
                labels_valid(ls),
                idx <= ls.len(),
                total == encode_prefix(ls, idx as int).len() + 1,
            decreases ls.len() - idx,
        {
            let llen: usize = labels[idx].len();
            proof {
                assert(ls[idx as int] == labels@[idx as int].deep_view());
                assert(labels@[idx as int].deep_view() =~= labels@[idx as int]@);
            }
            if llen > usize::MAX - 1 || total > usize::MAX - 1 - llen {
                proof {
                    assert(encode_prefix(ls, idx as int + 1) == encode_prefix(ls, idx as int)
                        + seq![ls[idx as int].len() as u8] + ls[idx as int]);
                    assert(encode_prefix(ls, idx as int + 1).len() == encode_prefix(
                        ls,
                        idx as int,
                    ).len() + 1 + ls[idx as int].len());
                    lemma_encode_prefix_len_le(ls, idx as int + 1, ls.len() as int);
                    lemma_encode_prefix_full_valid(ls);
                    assert(encode_labels(ls).len() > usize::MAX);
                }
                return Err(DrasilDNSError::EOF);
            }
            total = total + 1 + llen;
            idx = idx + 1;
        }
        proof {
            lemma_encode_prefix_full_valid(ls);
            assert(idx == ls.len());
            assert(total == encode_labels(ls).len());
        }

        if total > usize::MAX - initial_pos {
            return Err(DrasilDNSError::EOF);
        }

        // Build the encoding in a scratch buffer, then write it
        // in one piece so a failed write leaves this buffer untouched.
        let mut b = Buffer::with_capacity(0);
        b.set_expandable(true);

        let mut idx: usize = 0;
        while idx < labels.len()
            invariant
                self@ == old(self)@,
                initial_pos == old(self)@.pos,
                labels.deep_view() == ls,
                labels_valid(ls),
                idx <= ls.len(),
                total == encode_labels(ls).len(),
                total <= usize::MAX - initial_pos,
                b@.expandable,
                b@.pos == b@.bytes.len(),
                b@.bytes == encode_prefix(ls, idx as int),
            decreases ls.len() - idx,
        {
            let label: &Vec<u8> = &labels[idx];
            proof {
                assert(ls[idx as int] == labels@[idx as int].deep_view());
                assert(labels@[idx as int].deep_view() =~= labels@[idx as int]@);
                lemma_encode_prefix_len_le(ls, idx as int + 1, ls.len() as int);
                lemma_encode_prefix_full_valid(ls);
            }
            let len: u8 = label.len() as u8;
            let ghost before = b@.bytes;
            match b.write_u8(len) {
                Ok(()) => {},
                Err(_) => {
                    proof {
                        assert(false);
                    }
                    return Err(DrasilDNSError::Unknown);
                },
            }
            match b.write_bytes(label.as_slice()) {
                Ok(()) => {},
                Err(_) => {
                    proof {
                        assert(false);
                    }
                    return Err(DrasilDNSError::Unknown);
                },
            }
            proof {
                lemma_encode_prefix_step(ls, idx as int, b@.bytes);
            }
            idx = idx + 1;
        }

        match b.write_u8(0) {
            Ok(()) => {},
            Err(_) => {
                proof {
                    assert(false);
                }
                return Err(DrasilDNSError::Unknown);
            },
        }
        proof {
            lemma_encode_prefix_full(ls);
            assert(crate::buffer::be_bytes_of(0, 1) =~= seq![0u8]) by {
                assert(crate::buffer::be_bytes_of(0, 0) =~= Seq::<u8>::empty());
            }
            assert(b@.bytes =~= encode_labels(ls));
        }

        match self.write_buffer(&b) {
            Ok(()) => {},
            Err(_) => {
                return Err(DrasilDNSError::EOF);
            },
        }
        let n: usize = self.pos() - initial_pos;
        Ok(n)
    }
}

/// The length of the whole encoding, seen from any prefix of it.
proof fn lemma_encode_prefix_len_le(ls: Seq<Seq<u8>>, i: int, j: int)
    requires
        0 <= i <= j <= ls.len(),
    ensures
        encode_prefix(ls, i).len() <= encode_prefix(ls, j).len(),
    decreases j - i,
{
    if i < j {
        lemma_encode_prefix_len_le(ls, i, j - 1);
    }
}

proof fn lemma_encode_prefix_full_valid(ls: Seq<Seq<u8>>)
    ensures
        encode_labels(ls).len() == encode_prefix(ls, ls.len() as int).len() + 1,
{
    lemma_encode_prefix_full(ls);
    assert((encode_prefix(ls, ls.len() as int) + seq![0u8]).len() == encode_prefix(
        ls,
        ls.len() as int,
    ).len() + 1);
}

/// The index of the first label longer than 63 bytes.
pub open spec fn first_oversize(ls: Seq<Seq<u8>>) -> int
    decreases ls.len(),
{
    if ls.len() == 0 {
        0
    } else if ls[0].len() > 63 {
        0
    } else {
        1 + first_oversize(ls.drop_first())
    }
}

pub proof fn lemma_first_oversize_public(ls: Seq<Seq<u8>>, idx: int)
    requires
        0 <= idx < ls.len(),
        ls[idx].len() > 63,
        forall|k: int| 0 <= k < idx ==> #[trigger] ls[k].len() <= 63,
    ensures
        first_oversize(ls) == idx,
{
    lemma_first_oversize(ls, idx);
}

proof fn lemma_first_oversize(ls: Seq<Seq<u8>>, idx: int)
    requires
        0 <= idx < ls.len(),
        ls[idx].len() > 63,
        forall|k: int| 0 <= k < idx ==> #[trigger] ls[k].len() <= 63,
    ensures
        first_oversize(ls) == idx,
    decreases idx,
{
    if idx == 0 {
    } else {
        assert(forall|k: int|
            0 <= k < idx - 1 ==> #[trigger] ls.drop_first()[k] == ls[k + 1]);
        assert(ls.drop_first()[idx - 1] == ls[idx]);
        lemma_first_oversize(ls.drop_first(), idx - 1);
    }
}

/// The encoding of the first `idx` labels, without the terminator.
pub open spec fn encode_prefix(ls: Seq<Seq<u8>>, idx: int) -> Seq<u8>
    decreases idx,
{
    if idx <= 0 {
        Seq::empty()
    } else {
        encode_prefix(ls, idx - 1) + seq![ls[idx - 1].len() as u8] + ls[idx - 1]
    }
}

proof fn lemma_encode_prefix_step(ls: Seq<Seq<u8>>, idx: int, bytes: Seq<u8>)
    requires
        0 <= idx < ls.len(),
        ls[idx].len() <= 63,
        bytes == splice_at(
            splice_at(
                encode_prefix(ls, idx),
                encode_prefix(ls, idx).len() as int,
                crate::buffer::be_bytes_of(ls[idx].len() as u8 as int, 1),
            ),
            encode_prefix(ls, idx).len() + 1 as int,
            ls[idx],
        ),
    ensures
        bytes == encode_prefix(ls, idx + 1),
{
    crate::buffer::lemma_be_bytes_of_len(ls[idx].len() as u8 as int, 1);
    assert(crate::buffer::be_bytes_of(ls[idx].len() as u8 as int, 1) =~= seq![
        ls[idx].len() as u8,
    ]) by {
        assert(ls[idx].len() as u8 as int % 256 == ls[idx].len() as u8 as int);
    }
    assert(bytes =~= encode_prefix(ls, idx + 1));
}

proof fn lemma_encode_prefix_full(ls: Seq<Seq<u8>>)
    ensures
        encode_prefix(ls, ls.len() as int) + seq![0u8] == encode_labels(ls),
    decreases ls.len(),
{
    if ls.len() == 0 {
        assert(encode_prefix(ls, 0) + seq![0u8] =~= encode_labels(ls));
    } else {
        let tail = ls.drop_first();
        lemma_encode_prefix_full(tail);
        lemma_encode_prefix_shift(ls, ls.len() as int);
        assert((seq![ls[0].len() as u8] + ls[0] + (encode_prefix(tail, tail.len() as int) + seq![
            0u8,
        ])) =~= encode_prefix(ls, ls.len() as int) + seq![0u8]);
        assert(encode_labels(ls) == seq![ls[0].len() as u8] + ls[0] + encode_labels(tail));
        assert((seq![ls[0].len() as u8] + ls[0] + (encode_prefix(tail, tail.len() as int) + seq![
            0u8,
        ])) =~= seq![ls[0].len() as u8] + ls[0] + encode_labels(tail));
    }
}

proof fn lemma_encode_prefix_shift(ls: Seq<Seq<u8>>, idx: int)
    requires
        1 <= idx <= ls.len(),
    ensures
        encode_prefix(ls, idx) == seq![ls[0].len() as u8] + ls[0] + encode_prefix(
            ls.drop_first(),
            idx - 1,
        ),
    decreases idx,
{
    let tail = ls.drop_first();
    if idx == 1 {
        assert(encode_prefix(ls, 0) =~= Seq::<u8>::empty());
        assert(encode_prefix(tail, 0) =~= Seq::<u8>::empty());
        assert(encode_prefix(ls, 1) == encode_prefix(ls, 0) + seq![ls[0].len() as u8] + ls[0]);
        assert(encode_prefix(ls, 1) =~= seq![ls[0].len() as u8] + ls[0] + encode_prefix(tail, 0));
    } else {
        lemma_encode_prefix_shift(ls, idx - 1);
        assert(tail[idx - 2] == ls[idx - 1]);
        assert(encode_prefix(ls, idx) == encode_prefix(ls, idx - 1) + seq![ls[idx - 1].len() as u8]
            + ls[idx - 1]);
        assert(encode_prefix(tail, idx - 1) == encode_prefix(tail, idx - 2) + seq![
            tail[idx - 2].len() as u8,
        ] + tail[idx - 2]);
        assert(encode_prefix(ls, idx) =~= seq![ls[0].len() as u8] + ls[0] + encode_prefix(
            tail,
            idx - 1,
        ));
    }
}



/// A compression-pointer chain may be followed at most five hops deep:
/// with the budget spent, one more pointer fails the decode with
/// `TooManyJumpsInLabelSequence`, whatever it points at.
pub proof fn lemma_sixth_jump_fails(data: Seq<u8>, i: int)
    requires
        0 <= i < data.len(),
        is_pointer_byte(data[i]),
    ensures
        labels_walk(data, i, 5, true) == Err::<LabelsWalk, DrasilDNSError>(
            DrasilDNSError::TooManyJumpsInLabelSequence,
        ),
{
}

/// Every label fits the wire limit and none is empty, so the name survives
/// an encode–decode round trip.
pub open spec fn labels_wire_valid(ls: Seq<Seq<u8>>) -> bool {
    forall|k: int| 0 <= k < ls.len() ==> 1 <= #[trigger] ls[k].len() <= 63
}

/// Decoding an uncompressed encoded name out of any surrounding message
/// returns the name, case-folded, and stops exactly at its end. This holds
/// whether or not compression pointers are honoured, since the uncompressed
/// encoding contains none, and from any jump budget already spent.
pub proof fn lemma_labels_round_trip(data: Seq<u8>, i: int, jumps: int, ls: Seq<Seq<u8>>, use_jumps: bool)
    requires
        labels_wire_valid(ls),
        0 <= i,
        0 <= jumps <= 5,
        i + encode_labels(ls).len() <= data.len(),
        data.subrange(i, i + encode_labels(ls).len()) == encode_labels(ls),
    ensures
        labels_walk(data, i, jumps, use_jumps) == Ok::<LabelsWalk, DrasilDNSError>(
            LabelsWalk {
                labels: lower_labels(ls),
                end: i + encode_labels(ls).len(),
                jumped: false,
            },
        ),
    decreases ls.len(),
{
    let e = encode_labels(ls);
    if ls.len() == 0 {
        assert(e == seq![0u8]);
        assert(data[i] == data.subrange(i, i + 1)[0]);
        assert(data[i] == 0u8);
        assert(lower_labels(ls) =~= Seq::<Seq<u8>>::empty());
    } else {
        let l0 = ls[0];
        let n0 = l0.len() as int;
        let tail = ls.drop_first();
        let et = encode_labels(tail);
        assert(e == seq![l0.len() as u8] + l0 + et);
        assert(labels_wire_valid(tail)) by {
            assert(forall|k: int| 0 <= k < tail.len() ==> #[trigger] tail[k] == ls[k + 1]);
        }
        assert(e.len() == 1 + n0 + et.len());
        let len = data[i];
        assert(data[i] == data.subrange(i, i + e.len())[0]);
        assert(len == e[0]);
        assert(e[0] == l0.len() as u8);
        assert(1 <= len <= 63);
        assert(!is_pointer_byte(len));
        assert(i + 1 + len <= data.len());
        assert(data.subrange(i + 1, i + 1 + n0) =~= data.subrange(i, i + e.len()).subrange(
            1,
            1 + n0,
        ));
        assert(e.subrange(1, 1 + n0) =~= l0);
        assert(data.subrange(i + 1, i + 1 + n0) == l0);
        assert(data.subrange(i + 1 + n0, i + 1 + n0 + et.len()) =~= data.subrange(
            i,
            i + e.len(),
        ).subrange(1 + n0, e.len() as int));
        assert(e.subrange(1 + n0, e.len() as int) =~= et);
        assert(data.subrange(i + 1 + n0, i + 1 + n0 + et.len()) == et);
        lemma_labels_round_trip(data, i + 1 + n0, jumps, tail, use_jumps);
        assert(labels_walk(data, i + 1 + len, jumps, use_jumps) == Ok::<
            LabelsWalk,
            DrasilDNSError,
        >(
            LabelsWalk {
                labels: lower_labels(tail),
                end: i + 1 + n0 + et.len(),
                jumped: false,
            },
        ));
        assert(seq![lower_bytes(data.subrange(i + 1, i + 1 + len))] + lower_labels(tail)
            =~= lower_labels(ls)) by {
            assert(lower_labels(ls).len() == ls.len());
            assert(lower_labels(ls)[0] == lower_bytes(l0));
            assert(forall|k: int|
                1 <= k < ls.len() ==> #[trigger] lower_labels(ls)[k] == lower_bytes(ls[k]));
            assert(forall|k: int|
                0 <= k < tail.len() ==> #[trigger] lower_labels(tail)[k] == lower_bytes(tail[k]));
            assert(forall|k: int| 0 <= k < tail.len() ==> #[trigger] tail[k] == ls[k + 1]);
        }
    }
}

} // verus!
