//! The question codec: a name followed by its type and class codes.

use vstd::prelude::*;

use crate::buffer::{be_bytes_of, be_val, splice_at, Buffer, BufferModel};
use crate::error::DrasilDNSError;
use crate::labels::{encode_labels, labels_valid, labels_walk, label_size_error, first_oversize, LabelsWalk};
use crate::types::{record_class_code, record_class_of, record_type_code, record_type_of, RecordClass, RecordType};

verus! {

/// # Question
/// Struct representing a question record: a name asked about, and the type
/// and class of records asked for.
#[derive(Debug, Clone, PartialEq, Eq)]
pub struct Question {
    pub name: Vec<Vec<u8>>,
    pub record_type: RecordType,
    pub record_class: RecordClass,
}

/// Ghost description of a question.
pub ghost struct QuestionModel {
    pub name: Seq<Seq<u8>>,
    pub record_type: RecordType,
    pub record_class: RecordClass,
}

impl View for Question {
    type V = QuestionModel;

    open spec fn view(&self) -> QuestionModel {
        QuestionModel {
            name: self.name.deep_view(),
            record_type: self.record_type,
            record_class: self.record_class,
        }
    }
}

/// The wire encoding of a question: the name uncompressed, then the type
/// and class codes.
pub open spec fn encode_question(q: QuestionModel) -> Seq<u8> {
    encode_labels(q.name) + be_bytes_of(record_type_code(q.record_type) as int, 2) + be_bytes_of(
        record_class_code(q.record_class) as int,
        2,
    )
}

/// What parsing a question at offset `p` of a message yields: the question
/// and the offset just past it, or the error the name or the codes give.
pub open spec fn parse_question_at(data: Seq<u8>, p: int) -> Result<
    (QuestionModel, int),
    DrasilDNSError,
> {
    match labels_walk(data, p, 0, true) {
        Err(e) => Err(e),
        Ok(w) => if w.end + 4 <= data.len() {
            Ok(
                (
                    QuestionModel {
                        name: w.labels,
                        record_type: record_type_of(
                            be_val(data.subrange(w.end, w.end + 2)) as u16,
                        ),
                        record_class: record_class_of(
                            be_val(data.subrange(w.end + 2, w.end + 4)) as u16,
                        ),
                    },
                    w.end + 4,
                ),
            )
        } else {
            Err(DrasilDNSError::EOF)
        },
    }
}

impl Question {
    /// Reads a question at the cursor: a (possibly compressed) name, then
    /// the type and class codes. A failed read leaves the cursor where it
    /// was.
    pub fn parse(buff: &mut Buffer) -> (r: Result<Self, DrasilDNSError>)
        ensures
            match r {
                Ok(q) => match parse_question_at(old(buff)@.bytes, old(buff)@.pos) {
                    Ok((m, end)) => {
                        &&& q@ == m
                        &&& final(buff)@ == (BufferModel { pos: end, ..old(buff)@ })
                    },
                    Err(_) => false,
                },
                Err(e) => {
                    &&& parse_question_at(old(buff)@.bytes, old(buff)@.pos) == Err::<
                        (QuestionModel, int),
                        DrasilDNSError,
                    >(e)
                    &&& final(buff)@ == old(buff)@
                },
            },
    {
        let ghost data = buff@.bytes;
        let ghost p = buff@.pos;
        let initial_pos: usize = buff.pos();

        let name: Vec<Vec<u8>> = match buff.read_labels(true) {
            Ok((_, name)) => name,
            Err(e) => {
                return Err(e);
            },
        };
        let rt_code: u16 = match buff.read_u16() {
            Ok(v) => v,
            Err(e) => {
                buff.seek(initial_pos);
                return Err(e);
            },
        };
        let rc_code: u16 = match buff.read_u16() {
            Ok(v) => v,
            Err(e) => {
                buff.seek(initial_pos);
                return Err(e);
            },
        };
        let record_type = RecordType::from_code(rt_code);
        let record_class = RecordClass::from_code(rc_code);

        Ok(Question { name, record_type, record_class })
    }

    /// Writes the question at the cursor, never emitting compression
    /// pointers. A name with an oversize label fails with `LabelTooLarge`;
    /// a fixed-size buffer without room fails with `EOF`; either way the
    /// buffer is left untouched.
    pub fn write_bytes(&self, buff: &mut Buffer) -> (r: Result<(), DrasilDNSError>)
        ensures
            match r {
                Ok(()) => {
                    &&& labels_valid(self@.name)
                    &&& old(buff)@.pos + encode_question(self@).len() <= usize::MAX
                    &&& old(buff)@.expandable || old(buff)@.pos + encode_question(self@).len()
                        <= old(buff)@.bytes.len()
                    &&& final(buff)@.bytes == splice_at(
                        old(buff)@.bytes,
                        old(buff)@.pos,
                        encode_question(self@),
                    )
                    &&& final(buff)@.pos == old(buff)@.pos + encode_question(self@).len()
                    &&& final(buff)@.expandable == old(buff)@.expandable
                },
                Err(e) => {
                    &&& final(buff)@ == old(buff)@
                    &&& match e {
                        DrasilDNSError::LabelTooLarge { size } => {
                            let k = first_oversize(self@.name);
                            &&& !labels_valid(self@.name)
                            &&& 0 <= k < self@.name.len()
                            &&& self@.name[k].len() > 63
                            &&& size == label_size_error(self@.name[k])
                        },
                        DrasilDNSError::EOF => {
                            &&& labels_valid(self@.name)
                            &&& (!old(buff)@.expandable && old(buff)@.pos + encode_question(
                                self@,
                            ).len() > old(buff)@.bytes.len()) || old(buff)@.pos + encode_question(
                                self@,
                            ).len() > usize::MAX
                        },
                        _ => false,
                    }
                },
            },
    {
        let mut b = Buffer::with_capacity(0);
        b.set_expandable(true);

        proof {
            crate::buffer::lemma_buffer_model_bounds(buff);
            crate::buffer::lemma_be_bytes_of_len(record_type_code(self@.record_type) as int, 2);
            crate::buffer::lemma_be_bytes_of_len(record_class_code(self@.record_class) as int, 2);
        }
        match b.write_labels(&self.name) {
            Ok(_) => {},
            Err(e) => {
                return Err(e);
            },
        }
        match b.write_u16(self.record_type.to_code()) {
            Ok(()) => {},
            Err(_) => {
                return Err(DrasilDNSError::EOF);
            },
        }
        match b.write_u16(self.record_class.to_code()) {
            Ok(()) => {},
            Err(_) => {
                return Err(DrasilDNSError::EOF);
            },
        }
        proof {
            assert(b@.bytes =~= encode_question(self@));
        }

        buff.write_buffer(&b)
    }
}

/// A valid question written and read back is itself with its name
/// case-folded, and the read stops exactly where the write ended. Names
/// survive unchanged exactly when already lowercase; the round trip is
/// stated through the case fold.
pub proof fn lemma_question_round_trip(data: Seq<u8>, p: int, q: QuestionModel)
    requires
        crate::labels::labels_wire_valid(q.name),
        record_type_of(record_type_code(q.record_type)) == q.record_type,
        record_class_of(record_class_code(q.record_class)) == q.record_class,
        0 <= p,
        p + encode_question(q).len() <= data.len(),
        data.subrange(p, p + encode_question(q).len()) == encode_question(q),
    ensures
        parse_question_at(data, p) == Ok::<(QuestionModel, int), DrasilDNSError>(
            (
                QuestionModel { name: crate::labels::lower_labels(q.name), ..q },
                p + encode_question(q).len(),
            ),
        ),
{
    let e = encode_question(q);
    let el = encode_labels(q.name);
    let tc = record_type_code(q.record_type);
    let cc = record_class_code(q.record_class);
    crate::buffer::lemma_pow256_values();
    crate::buffer::lemma_be_bytes_of_len(tc as int, 2);
    crate::buffer::lemma_be_bytes_of_len(cc as int, 2);
    assert(e.len() == el.len() + 4);

    assert(data.subrange(p, p + el.len()) =~= data.subrange(p, p + e.len()).subrange(
        0,
        el.len() as int,
    ));
    assert(e.subrange(0, el.len() as int) =~= el);
    crate::labels::lemma_labels_round_trip(data, p, 0, q.name, true);

    let q_end = p + el.len();
    assert(data.subrange(q_end, q_end + 2) =~= data.subrange(p, p + e.len()).subrange(
        el.len() as int,
        el.len() + 2int,
    ));
    assert(e.subrange(el.len() as int, el.len() + 2int) =~= be_bytes_of(tc as int, 2));
    crate::buffer::lemma_be_val_of_be_bytes(tc as int, 2);
    assert(data.subrange(q_end + 2, q_end + 4) =~= data.subrange(p, p + e.len()).subrange(
        el.len() + 2int,
        el.len() + 4int,
    ));
    assert(e.subrange(el.len() + 2int, el.len() + 4int) =~= be_bytes_of(cc as int, 2));
    crate::buffer::lemma_be_val_of_be_bytes(cc as int, 2);

}

} // verus!
