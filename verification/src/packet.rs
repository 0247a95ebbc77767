//! The message assembler: header plus question and record sections, parsed
//! and written as one DNS message.

/// Provides a builder struct for `Packet`.
pub mod builder;

use vstd::prelude::*;

use crate::buffer::{be_bytes_of, splice_at, Buffer, BufferModel};
use crate::error::DrasilDNSError;
use crate::header::{encode_header, parse_header_at, Header};
use crate::question::{encode_question, parse_question_at, Question, QuestionModel};
use crate::record::{encode_record, parse_record_at, record_types_writable, Record, RecordModel};
use crate::labels::labels_valid;
use crate::record::labels_error;

verus! {

/// # Packet
/// Struct representing a single DNS message: the header and the four
/// sections its counts declare.
#[derive(Debug, Clone, PartialEq, Eq)]
pub struct Packet {
    pub header: Header,
    pub questions: Vec<Question>,
    pub answers: Vec<Record>,
    pub authority: Vec<Record>,
    pub additional: Vec<Record>,
}

/// Ghost description of a message.
pub ghost struct PacketModel {
    pub header: Header,
    pub questions: Seq<QuestionModel>,
    pub answers: Seq<RecordModel>,
    pub authority: Seq<RecordModel>,
    pub additional: Seq<RecordModel>,
}

impl View for Packet {
    type V = PacketModel;

    open spec fn view(&self) -> PacketModel {
        PacketModel {
            header: self.header,
            questions: self.questions.deep_view(),
            answers: self.answers.deep_view(),
            authority: self.authority.deep_view(),
            additional: self.additional.deep_view(),
        }
    }
}

impl DeepView for Question {
    type V = QuestionModel;

    open spec fn deep_view(&self) -> QuestionModel {
        self.view()
    }
}

impl DeepView for Record {
    type V = RecordModel;

    open spec fn deep_view(&self) -> RecordModel {
        self.view()
    }
}

/// The first `n` questions at offset `p`, with the offset past them.
pub open spec fn parse_questions_at(data: Seq<u8>, p: int, n: int) -> Result<
    (Seq<QuestionModel>, int),
    DrasilDNSError,
>
    decreases n,
{
    if n <= 0 {
        Ok((Seq::empty(), p))
    } else {
        match parse_question_at(data, p) {
            Err(e) => Err(e),
            Ok((q, np)) => match parse_questions_at(data, np, n - 1) {
                Err(e) => Err(e),
                Ok((rest, end)) => Ok((seq![q] + rest, end)),
            },
        }
    }
}

/// The first `n` records at offset `p`, dropped ones skipped, with the
/// offset past them.
pub open spec fn parse_records_at(data: Seq<u8>, p: int, n: int) -> Result<
    (Seq<RecordModel>, int),
    DrasilDNSError,
>
    decreases n,
{
    if n <= 0 {
        Ok((Seq::empty(), p))
    } else {
        match parse_record_at(data, p) {
            Err(e) => Err(e),
            Ok((m, np)) => match parse_records_at(data, np, n - 1) {
                Err(e) => Err(e),
                Ok((rest, end)) => match m {
                    Some(r) => Ok((seq![r] + rest, end)),
                    None => Ok((rest, end)),
                },
            },
        }
    }
}

/// What parsing a whole message yields: the header, then as many
/// questions and records as its counts declare.
pub open spec fn parse_packet(data: Seq<u8>) -> Result<PacketModel, DrasilDNSError> {
    if 12 > data.len() {
        Err(DrasilDNSError::EOF)
    } else {
        let h = parse_header_at(data, 0);
        match parse_questions_at(data, 12, h.question_count as int) {
            Err(e) => Err(e),
            Ok((questions, p1)) => match parse_records_at(data, p1, h.answer_count as int) {
                Err(e) => Err(e),
                Ok((answers, p2)) => match parse_records_at(data, p2, h.authority_count as int) {
                    Err(e) => Err(e),
                    Ok((authority, p3)) => match parse_records_at(
                        data,
                        p3,
                        h.additional_count as int,
                    ) {
                        Err(e) => Err(e),
                        Ok((additional, _)) => Ok(
                            PacketModel { header: h, questions, answers, authority, additional },
                        ),
                    },
                },
            },
        }
    }
}

/// The wire bytes of the first `i` questions, or the first bad name among
/// them.
pub open spec fn encode_questions_seq(qs: Seq<QuestionModel>, i: int) -> Result<
    Seq<u8>,
    DrasilDNSError,
>
    decreases i,
{
    if i <= 0 {
        Ok(Seq::empty())
    } else {
        match encode_questions_seq(qs, i - 1) {
            Err(e) => Err(e),
            Ok(prefix) => if !labels_valid(qs[i - 1].name) {
                Err(labels_error(qs[i - 1].name))
            } else {
                Ok(prefix + encode_question(qs[i - 1]))
            },
        }
    }
}

/// The wire bytes of the first `i` records, or the first error among them.
pub open spec fn encode_records_seq(rs: Seq<RecordModel>, i: int) -> Result<Seq<u8>, DrasilDNSError>
    decreases i,
{
    if i <= 0 {
        Ok(Seq::empty())
    } else {
        match encode_records_seq(rs, i - 1) {
            Err(e) => Err(e),
            Ok(prefix) => match encode_record(rs[i - 1]) {
                Err(e) => Err(e),
                Ok(rb) => Ok(prefix + rb),
            },
        }
    }
}

/// The content of a message before padding: header, questions, then the
/// three record sections, or the first error among them.
pub open spec fn encode_packet_content(m: PacketModel) -> Result<Seq<u8>, DrasilDNSError> {
    match encode_questions_seq(m.questions, m.questions.len() as int) {
        Err(e) => Err(e),
        Ok(qb) => match encode_records_seq(m.answers, m.answers.len() as int) {
            Err(e) => Err(e),
            Ok(ansb) => match encode_records_seq(m.authority, m.authority.len() as int) {
                Err(e) => Err(e),
                Ok(autb) => match encode_records_seq(m.additional, m.additional.len() as int) {
                    Err(e) => Err(e),
                    Ok(addb) => Ok(encode_header(m.header) + qb + ansb + autb + addb),
                },
            },
        },
    }
}

/// What a message becomes on the wire: its content padded with zero bytes
/// to the conventional 512-byte minimum, which is also this writer's
/// fixed message size; content beyond it does not fit.
pub open spec fn encode_packet(m: PacketModel) -> Result<Seq<u8>, DrasilDNSError> {
    match encode_packet_content(m) {
        Err(e) => Err(e),
        Ok(c) => if c.len() > 512 {
            Err(DrasilDNSError::EOF)
        } else {
            Ok(c + Seq::new((512 - c.len()) as nat, |i: int| 0u8))
        },
    }
}

/// Whether every record of a message carries type sets the bitmap wire
/// format can hold.
pub open spec fn packet_records_writable(p: Packet) -> bool {
    &&& forall|k: int|
        0 <= k < p.answers@.len() ==> record_types_writable(#[trigger] p.answers@[k])
    &&& forall|k: int|
        0 <= k < p.authority@.len() ==> record_types_writable(#[trigger] p.authority@[k])
    &&& forall|k: int|
        0 <= k < p.additional@.len() ==> record_types_writable(#[trigger] p.additional@[k])
}


/// Whether some prefix of a question run encodes to more bytes than the
/// machine can index. Only such a run can fail the writer for room instead
/// of failing with the run's own first error.
pub open spec fn questions_oversized(qs: Seq<QuestionModel>) -> bool {
    exists|k: int|
        0 <= k < qs.len() && #[trigger] encode_questions_seq(qs, k + 1) is Ok
            && encode_questions_seq(qs, k + 1)->Ok_0.len() > usize::MAX
}

/// Whether some prefix of a record run encodes to more bytes than the
/// machine can index.
pub open spec fn records_oversized(rs: Seq<RecordModel>) -> bool {
    exists|k: int|
        0 <= k < rs.len() && #[trigger] encode_records_seq(rs, k + 1) is Ok
            && encode_records_seq(rs, k + 1)->Ok_0.len() > usize::MAX
}

/// Whether any section of a message is oversized in that sense.
pub open spec fn packet_oversized(m: PacketModel) -> bool {
    ||| questions_oversized(m.questions)
    ||| records_oversized(m.answers)
    ||| records_oversized(m.authority)
    ||| records_oversized(m.additional)
}

/// A question run that encodes whole also encodes to every prefix, and the
/// whole is at least as long as any prefix.
proof fn lemma_eqs_prefix_ok(qs: Seq<QuestionModel>, k: int, l: int)
    requires
        0 <= k <= l,
        encode_questions_seq(qs, l) is Ok,
    ensures
        encode_questions_seq(qs, k) is Ok,
        encode_questions_seq(qs, l)->Ok_0.len() >= encode_questions_seq(qs, k)->Ok_0.len(),
    decreases l - k,
{
    if k < l {
        lemma_eqs_prefix_ok(qs, k, l - 1);
    }
}

/// A record run that encodes whole also encodes to every prefix, and the
/// whole is at least as long as any prefix.
proof fn lemma_ers_prefix_ok(rs: Seq<RecordModel>, k: int, l: int)
    requires
        0 <= k <= l,
        encode_records_seq(rs, l) is Ok,
    ensures
        encode_records_seq(rs, k) is Ok,
        encode_records_seq(rs, l)->Ok_0.len() >= encode_records_seq(rs, k)->Ok_0.len(),
    decreases l - k,
{
    if k < l {
        lemma_ers_prefix_ok(rs, k, l - 1);
        match encode_record(rs[l - 1]) {
            Ok(_) => {},
            Err(_) => {
                assert(false);
            },
        }
    }
}

/// A question run whose prefix encodes but whose next name is bad fails as
/// a whole with that name's error.
proof fn lemma_eqs_err_at(qs: Seq<QuestionModel>, k: int)
    requires
        0 <= k < qs.len(),
        encode_questions_seq(qs, k) is Ok,
        !labels_valid(qs[k].name),
    ensures
        encode_questions_seq(qs, qs.len() as int) == Err::<Seq<u8>, DrasilDNSError>(
            labels_error(qs[k].name),
        ),
{
    lemma_eqs_err_from(qs, k + 1, labels_error(qs[k].name));
}

proof fn lemma_eqs_err_from(qs: Seq<QuestionModel>, j: int, e: DrasilDNSError)
    requires
        0 < j <= qs.len(),
        encode_questions_seq(qs, j) == Err::<Seq<u8>, DrasilDNSError>(e),
    ensures
        encode_questions_seq(qs, qs.len() as int) == Err::<Seq<u8>, DrasilDNSError>(e),
    decreases qs.len() - j,
{
    if j < qs.len() {
        lemma_eqs_err_from(qs, j + 1, e);
    }
}

/// A record run whose prefix encodes but whose next record does not fails
/// as a whole with that record's error.
proof fn lemma_ers_err_at(rs: Seq<RecordModel>, k: int)
    requires
        0 <= k < rs.len(),
        encode_records_seq(rs, k) is Ok,
        encode_record(rs[k]) is Err,
    ensures
        encode_records_seq(rs, rs.len() as int) == Err::<Seq<u8>, DrasilDNSError>(
            encode_record(rs[k])->Err_0,
        ),
{
    lemma_ers_err_from(rs, k + 1, encode_record(rs[k])->Err_0);
}

proof fn lemma_ers_err_from(rs: Seq<RecordModel>, j: int, e: DrasilDNSError)
    requires
        0 < j <= rs.len(),
        encode_records_seq(rs, j) == Err::<Seq<u8>, DrasilDNSError>(e),
    ensures
        encode_records_seq(rs, rs.len() as int) == Err::<Seq<u8>, DrasilDNSError>(e),
    decreases rs.len() - j,
{
    if j < rs.len() {
        lemma_ers_err_from(rs, j + 1, e);
    }
}

/// The concatenation of the first `i` byte runs.
pub open spec fn concat_upto(items: Seq<Seq<u8>>, i: int) -> Seq<u8>
    decreases i,
{
    if i <= 0 {
        Seq::empty()
    } else {
        concat_upto(items, i - 1) + items[i - 1]
    }
}

/// An encoded question run is the concatenation of its questions' encodings.
proof fn lemma_eqs_is_concat(qs: Seq<QuestionModel>, items: Seq<Seq<u8>>, i: int)
    requires
        0 <= i,
        forall|k: int| 0 <= k < i ==> #[trigger] items[k] == encode_question(qs[k]),
        encode_questions_seq(qs, i) is Ok,
    ensures
        encode_questions_seq(qs, i)->Ok_0 == concat_upto(items, i),
    decreases i,
{
    if i > 0 {
        lemma_eqs_is_concat(qs, items, i - 1);
    }
}

/// An encoded record run is the concatenation of its records' encodings.
proof fn lemma_ers_is_concat(rs: Seq<RecordModel>, items: Seq<Seq<u8>>, i: int)
    requires
        0 <= i,
        forall|k: int|
            0 <= k < i ==> encode_record(rs[k]) == Ok::<Seq<u8>, DrasilDNSError>(
                #[trigger] items[k],
            ),
        encode_records_seq(rs, i) is Ok,
    ensures
        encode_records_seq(rs, i)->Ok_0 == concat_upto(items, i),
    decreases i,
{
    if i > 0 {
        lemma_ers_is_concat(rs, items, i - 1);
    }
}

proof fn lemma_concat_upto_mono(items: Seq<Seq<u8>>, k: int, l: int)
    requires
        0 <= k <= l,
    ensures
        concat_upto(items, l).len() >= concat_upto(items, k).len(),
    decreases l - k,
{
    if k < l {
        lemma_concat_upto_mono(items, k, l - 1);
    }
}

/// Writes a section's prepared encodings into the fixed message buffer,
/// one after the other; the first that does not fit ends the message with
/// `EOF`. `rest_len` is the length of what later sections will still add,
/// so the failure says the whole content overruns the message.
#[verifier::loop_isolation(false)]
fn write_section(buff: &mut Buffer, bufs: &Vec<Buffer>, items: Ghost<Seq<Seq<u8>>>, rest_len: Ghost<int>) -> (r: Result<(), DrasilDNSError>)
    requires
        !old(buff)@.expandable,
        old(buff)@.bytes.len() == 512,
        0 <= old(buff)@.pos <= 512,
        bufs@.len() == items@.len(),
        forall|k: int| 0 <= k < bufs@.len() ==> (#[trigger] bufs@[k])@.bytes == items@[k],
        rest_len@ >= 0,
    ensures
        match r {
            Ok(()) => {
                &&& old(buff)@.pos + concat_upto(items@, items@.len() as int).len() <= 512
                &&& final(buff)@.bytes == splice_at(
                    old(buff)@.bytes,
                    old(buff)@.pos,
                    concat_upto(items@, items@.len() as int),
                )
                &&& final(buff)@.pos == old(buff)@.pos + concat_upto(
                    items@,
                    items@.len() as int,
                ).len()
                &&& final(buff)@.expandable == old(buff)@.expandable
                &&& final(buff)@.bytes.len() == 512
            },
            Err(e) => {
                &&& e == DrasilDNSError::EOF
                &&& old(buff)@.pos + concat_upto(items@, items@.len() as int).len() + rest_len@
                    > 512
            },
        },
{
    let ghost its = items@;
    let ghost p0 = old(buff)@.pos;
    let ghost base = old(buff)@.bytes;
    let mut i: usize = 0;
    while i < bufs.len()
        invariant
            i <= its.len(),
            !buff@.expandable,
            buff@.bytes.len() == 512,
            buff@.pos == p0 + concat_upto(its, i as int).len(),
            buff@.pos <= 512,
            buff@.bytes == splice_at(base, p0, concat_upto(its, i as int)),
        decreases its.len() - i,
    {
        proof {
            assert(concat_upto(its, 0) =~= Seq::<u8>::empty());
        }
        match buff.write_buffer(&bufs[i]) {
            Ok(()) => {},
            Err(_) => {
                proof {
                    lemma_concat_upto_mono(its, i as int + 1, its.len() as int);
                    assert(concat_upto(its, i as int + 1).len() == concat_upto(
                        its,
                        i as int,
                    ).len() + its[i as int].len());
                }
                return Err(DrasilDNSError::EOF);
            },
        }
        proof {
            assert(concat_upto(its, i as int + 1) == concat_upto(its, i as int) + its[i as int]);
            assert(buff@.bytes =~= splice_at(base, p0, concat_upto(its, i as int + 1)));
        }
        i = i + 1;
    }
    proof {
        if its.len() == 0 {
            assert(concat_upto(its, 0) =~= Seq::<u8>::empty());
            assert(buff@.bytes =~= splice_at(base, p0, concat_upto(its, 0)));
        }
    }
    Ok(())
}

/// Reads `n` questions at the cursor.
#[verifier::loop_isolation(false)]
fn parse_questions_exec(buff: &mut Buffer, n: u16) -> (r: Result<Vec<Question>, DrasilDNSError>)
    ensures
        match r {
            Ok(qs) => match parse_questions_at(old(buff)@.bytes, old(buff)@.pos, n as int) {
                Ok((ms, end)) => {
                    &&& qs.deep_view() == ms
                    &&& final(buff)@ == (BufferModel { pos: end, ..old(buff)@ })
                },
                Err(_) => false,
            },
            Err(e) => parse_questions_at(old(buff)@.bytes, old(buff)@.pos, n as int) == Err::<
                (Seq<QuestionModel>, int),
                DrasilDNSError,
            >(e),
        },
{
    let ghost data = buff@.bytes;
    let ghost p0 = buff@.pos;
    let mut questions: Vec<Question> = Vec::new();
    let mut i: usize = 0;
    while i < n as usize
        invariant
            buff@.bytes == data,
            buff@.expandable == old(buff)@.expandable,
            i <= n,
            match parse_questions_at(data, buff@.pos, n - i) {
                Ok((ms, end)) => parse_questions_at(data, p0, n as int) == Ok::<
                    (Seq<QuestionModel>, int),
                    DrasilDNSError,
                >((questions.deep_view() + ms, end)),
                Err(e) => parse_questions_at(data, p0, n as int) == Err::<
                    (Seq<QuestionModel>, int),
                    DrasilDNSError,
                >(e),
            },
        decreases n - i,
    {
        let q = match Question::parse(buff) {
            Ok(q) => q,
            Err(e) => {
                return Err(e);
            },
        };
        let ghost before = questions.deep_view();
        questions.push(q);
        proof {
            assert(questions.deep_view() =~= before.push(q@));
            match parse_questions_at(data, buff@.pos, n - i - 1) {
                Ok((ms, end)) => {
                    assert(questions.deep_view() + ms =~= before + (seq![q@] + ms));
                },
                Err(_) => {},
            }
        }
        i = i + 1;
    }
    proof {
        assert(questions.deep_view() + Seq::<QuestionModel>::empty() =~= questions.deep_view());
    }
    Ok(questions)
}

/// Reads `n` records at the cursor, skipping any the wire says to drop.
#[verifier::loop_isolation(false)]
fn parse_records_exec(buff: &mut Buffer, n: u16) -> (r: Result<Vec<Record>, DrasilDNSError>)
    ensures
        match r {
            Ok(rs) => match parse_records_at(old(buff)@.bytes, old(buff)@.pos, n as int) {
                Ok((ms, end)) => {
                    &&& rs.deep_view() == ms
                    &&& final(buff)@ == (BufferModel { pos: end, ..old(buff)@ })
                },
                Err(_) => false,
            },
            Err(e) => parse_records_at(old(buff)@.bytes, old(buff)@.pos, n as int) == Err::<
                (Seq<RecordModel>, int),
                DrasilDNSError,
            >(e),
        },
{
    let ghost data = buff@.bytes;
    let ghost p0 = buff@.pos;
    let mut records: Vec<Record> = Vec::new();
    let mut i: usize = 0;
    while i < n as usize
        invariant
            buff@.bytes == data,
            buff@.expandable == old(buff)@.expandable,
            i <= n,
            match parse_records_at(data, buff@.pos, n - i) {
                Ok((ms, end)) => parse_records_at(data, p0, n as int) == Ok::<
                    (Seq<RecordModel>, int),
                    DrasilDNSError,
                >((records.deep_view() + ms, end)),
                Err(e) => parse_records_at(data, p0, n as int) == Err::<
                    (Seq<RecordModel>, int),
                    DrasilDNSError,
                >(e),
            },
        decreases n - i,
    {
        match Record::parse(buff) {
            Ok(Some(rec)) => {
                let ghost before = records.deep_view();
                records.push(rec);
                proof {
                    assert(records.deep_view() =~= before.push(rec@));
                    match parse_records_at(data, buff@.pos, n - i - 1) {
                        Ok((ms, end)) => {
                            assert(records.deep_view() + ms =~= before + (seq![rec@] + ms));
                        },
                        Err(_) => {},
                    }
                }
            },
            Ok(None) => {},
            Err(e) => {
                return Err(e);
            },
        }
        i = i + 1;
    }
    proof {
        assert(records.deep_view() + Seq::<RecordModel>::empty() =~= records.deep_view());
    }
    Ok(records)
}

/// Builds the encodings of a question section, one scratch buffer each.
#[verifier::loop_isolation(false)]
fn build_questions(qs: &Vec<Question>) -> (r: Result<Vec<Buffer>, DrasilDNSError>)
    ensures
        match r {
            Ok(bufs) => {
                &&& encode_questions_seq(qs.deep_view(), qs.deep_view().len() as int) is Ok
                &&& bufs@.len() == qs.deep_view().len()
                &&& forall|k: int|
                    0 <= k < bufs@.len() ==> (#[trigger] bufs@[k])@.bytes == encode_question(
                        qs.deep_view()[k],
                    ) && labels_valid(qs.deep_view()[k].name)
            },
            Err(e) => match encode_questions_seq(qs.deep_view(), qs.deep_view().len() as int) {
                Err(e2) => e == e2 || (e == DrasilDNSError::EOF && questions_oversized(
                    qs.deep_view(),
                )),
                Ok(c) => e == DrasilDNSError::EOF && c.len() > usize::MAX,
            },
        },
{
    let ghost qsv = qs.deep_view();
    let mut bufs: Vec<Buffer> = Vec::new();
    let mut i: usize = 0;
    while i < qs.len()
        invariant
            qs.deep_view() == qsv,
            i <= qsv.len(),
            bufs@.len() == i,
            encode_questions_seq(qsv, i as int) is Ok,
            forall|k: int|
                0 <= k < i ==> (#[trigger] bufs@[k])@.bytes == encode_question(qsv[k])
                    && labels_valid(qsv[k].name),
        decreases qsv.len() - i,
    {
        proof {
            assert(qs@[i as int].deep_view() == qsv[i as int]);
        }
        let mut qb = Buffer::with_capacity(0);
        qb.set_expandable(true);
        let r = qs[i].write_bytes(&mut qb);
        match r {
            Ok(()) => {
                proof {
                    assert(qb@.bytes =~= encode_question(qsv[i as int]));
                }
            },
            Err(e) => {
                proof {
                    match e {
                        DrasilDNSError::LabelTooLarge { size } => {
                            lemma_eqs_err_at(qsv, i as int);
                        },
                        _ => {
                            assert(encode_questions_seq(qsv, i as int + 1) is Ok);
                            assert(encode_questions_seq(qsv, i as int + 1)->Ok_0.len()
                                > usize::MAX);
                            assert(questions_oversized(qsv));
                            if encode_questions_seq(qsv, qsv.len() as int) is Ok {
                                lemma_eqs_prefix_ok(qsv, i as int + 1, qsv.len() as int);
                            }
                        },
                    }
                }
                return Err(e);
            },
        }
        bufs.push(qb);
        proof {
            assert(encode_questions_seq(qsv, i as int + 1) is Ok);
        }
        i = i + 1;
    }
    Ok(bufs)
}

/// Builds the encodings of a record section, one scratch buffer each.
#[verifier::loop_isolation(false)]
fn build_records(rs: &Vec<Record>) -> (r: Result<Vec<Buffer>, DrasilDNSError>)
    requires
        forall|k: int| 0 <= k < rs@.len() ==> record_types_writable(#[trigger] rs@[k]),
    ensures
        match r {
            Ok(bufs) => {
                &&& encode_records_seq(rs.deep_view(), rs.deep_view().len() as int) is Ok
                &&& bufs@.len() == rs.deep_view().len()
                &&& forall|k: int|
                    0 <= k < bufs@.len() ==> encode_record(rs.deep_view()[k]) == Ok::<
                        Seq<u8>,
                        DrasilDNSError,
                    >((#[trigger] bufs@[k])@.bytes)
            },
            Err(e) => match encode_records_seq(rs.deep_view(), rs.deep_view().len() as int) {
                Err(e2) => e == e2 || (e == DrasilDNSError::EOF && records_oversized(
                    rs.deep_view(),
                )),
                Ok(c) => e == DrasilDNSError::EOF && c.len() > usize::MAX,
            },
        },
{
    let ghost rsv = rs.deep_view();
    let mut bufs: Vec<Buffer> = Vec::new();
    let mut i: usize = 0;
    while i < rs.len()
        invariant
            rs.deep_view() == rsv,
            i <= rsv.len(),
            bufs@.len() == i,
            encode_records_seq(rsv, i as int) is Ok,
            forall|k: int|
                0 <= k < i ==> encode_record(rsv[k]) == Ok::<Seq<u8>, DrasilDNSError>(
                    (#[trigger] bufs@[k])@.bytes,
                ),
        decreases rsv.len() - i,
    {
        proof {
            assert(rs@[i as int].deep_view() == rsv[i as int]);
        }
        let mut rb = Buffer::with_capacity(0);
        rb.set_expandable(true);
        let r = rs[i].write_bytes(&mut rb);
        match r {
            Ok(()) => {
                proof {
                    assert(rb@.bytes =~= encode_record(rsv[i as int])->Ok_0);
                }
            },
            Err(e) => {
                proof {
                    match encode_record(rsv[i as int]) {
                        Err(_) => {
                            lemma_ers_err_at(rsv, i as int);
                        },
                        Ok(_) => {
                            assert(encode_records_seq(rsv, i as int + 1) is Ok);
                            assert(encode_records_seq(rsv, i as int + 1)->Ok_0.len()
                                > usize::MAX);
                            assert(records_oversized(rsv));
                            if encode_records_seq(rsv, rsv.len() as int) is Ok {
                                lemma_ers_prefix_ok(rsv, i as int + 1, rsv.len() as int);
                            }
                        },
                    }
                }
                return Err(e);
            },
        }
        bufs.push(rb);
        proof {
            assert(encode_records_seq(rsv, i as int + 1) is Ok);
        }
        i = i + 1;
    }
    Ok(bufs)
}

impl Packet {
    /// Reads a DNS message from bytes: the header, then as many questions
    /// and records as its counts declare, skipping any record the wire
    /// says to drop.
    pub fn parse(data: &[u8]) -> (r: Result<Self, DrasilDNSError>)
        ensures
            match r {
                Ok(p) => match parse_packet(data@) {
                    Ok(m) => p@ == m,
                    Err(_) => false,
                },
                Err(e) => parse_packet(data@) == Err::<PacketModel, DrasilDNSError>(e),
            },
    {
        let mut buff = Buffer::from_bytes(vstd::slice::slice_to_vec(data));

        let header: Header = match Header::parse(&mut buff) {
            Ok(h) => h,
            Err(e) => {
                return Err(e);
            },
        };
        let questions = match parse_questions_exec(&mut buff, header.question_count) {
            Ok(v) => v,
            Err(e) => {
                return Err(e);
            },
        };
        let answers = match parse_records_exec(&mut buff, header.answer_count) {
            Ok(v) => v,
            Err(e) => {
                return Err(e);
            },
        };
        let authority = match parse_records_exec(&mut buff, header.authority_count) {
            Ok(v) => v,
            Err(e) => {
                return Err(e);
            },
        };
        let additional = match parse_records_exec(&mut buff, header.additional_count) {
            Ok(v) => v,
            Err(e) => {
                return Err(e);
            },
        };

        Ok(Self { header, questions, answers, authority, additional })
    }

    /// Converts a DNS message into its wire bytes: always the fixed
    /// 512-byte conventional message, zero-padded after the content; a
    /// message whose content runs past it fails with `EOF`.
    pub fn to_bytes(&self) -> (r: Result<Vec<u8>, DrasilDNSError>)
        requires
            packet_records_writable(*self),
        ensures
            match r {
                Ok(v) => encode_packet(self@) == Ok::<Seq<u8>, DrasilDNSError>(v@),
                Err(e) => match encode_packet(self@) {
                    Err(e2) => e == e2 || (e == DrasilDNSError::EOF && packet_oversized(self@)),
                    Ok(_) => false,
                },
            },
    {
        let qbufs: Vec<Buffer> = match build_questions(&self.questions) {
            Ok(v) => v,
            Err(e) => {
                proof {
                    lemma_section_failure_q(self@, e);
                }
                return Err(e);
            },
        };
        let ansbufs: Vec<Buffer> = match build_records(&self.answers) {
            Ok(v) => v,
            Err(e) => {
                proof {
                    lemma_section_failure_ans(self@, e);
                }
                return Err(e);
            },
        };
        let autbufs: Vec<Buffer> = match build_records(&self.authority) {
            Ok(v) => v,
            Err(e) => {
                proof {
                    lemma_section_failure_aut(self@, e);
                }
                return Err(e);
            },
        };
        let addbufs: Vec<Buffer> = match build_records(&self.additional) {
            Ok(v) => v,
            Err(e) => {
                proof {
                    lemma_section_failure_add(self@, e);
                }
                return Err(e);
            },
        };
        assemble_message(&self.header, &qbufs, &ansbufs, &autbufs, &addbufs, Ghost(self@))
    }
}

/// A question run whose whole encoding exceeds the machine's index space is
/// an oversized run.
proof fn lemma_questions_whole_oversized(qs: Seq<QuestionModel>)
    requires
        encode_questions_seq(qs, qs.len() as int) is Ok,
        encode_questions_seq(qs, qs.len() as int)->Ok_0.len() > usize::MAX,
    ensures
        questions_oversized(qs),
{
    if qs.len() == 0 {
        assert(encode_questions_seq(qs, 0)->Ok_0 =~= Seq::<u8>::empty());
    }
    let k = qs.len() - 1;
    assert(encode_questions_seq(qs, k + 1) is Ok && encode_questions_seq(qs, k + 1)->Ok_0.len()
        > usize::MAX);
}

/// A record run whose whole encoding exceeds the machine's index space is an
/// oversized run.
proof fn lemma_records_whole_oversized(rs: Seq<RecordModel>)
    requires
        encode_records_seq(rs, rs.len() as int) is Ok,
        encode_records_seq(rs, rs.len() as int)->Ok_0.len() > usize::MAX,
    ensures
        records_oversized(rs),
{
    if rs.len() == 0 {
        assert(encode_records_seq(rs, 0)->Ok_0 =~= Seq::<u8>::empty());
    }
    let k = rs.len() - 1;
    assert(encode_records_seq(rs, k + 1) is Ok && encode_records_seq(rs, k + 1)->Ok_0.len()
        > usize::MAX);
}

/// Maps a question-section build failure to the whole message's contract:
/// either the message encoder reports the same error, or the section is
/// oversized and no 512-byte message exists.
proof fn lemma_section_failure_q(m: PacketModel, e: DrasilDNSError)
    requires
        match encode_questions_seq(m.questions, m.questions.len() as int) {
            Err(e2) => e == e2 || (e == DrasilDNSError::EOF && questions_oversized(m.questions)),
            Ok(c) => e == DrasilDNSError::EOF && c.len() > usize::MAX,
        },
    ensures
        match encode_packet(m) {
            Err(e2) => e == e2 || (e == DrasilDNSError::EOF && packet_oversized(m)),
            Ok(_) => false,
        },
{
    match encode_questions_seq(m.questions, m.questions.len() as int) {
        Err(e2) => {},
        Ok(c) => {
            lemma_questions_whole_oversized(m.questions);
            match encode_packet_content(m) {
                Ok(content) => {
                    assert(content.len() > 512);
                },
                Err(_) => {},
            }
        },
    }
}

/// Maps an answer-section build failure to the whole message's contract.
proof fn lemma_section_failure_ans(m: PacketModel, e: DrasilDNSError)
    requires
        encode_questions_seq(m.questions, m.questions.len() as int) is Ok,
        match encode_records_seq(m.answers, m.answers.len() as int) {
            Err(e2) => e == e2 || (e == DrasilDNSError::EOF && records_oversized(m.answers)),
            Ok(c) => e == DrasilDNSError::EOF && c.len() > usize::MAX,
        },
    ensures
        match encode_packet(m) {
            Err(e2) => e == e2 || (e == DrasilDNSError::EOF && packet_oversized(m)),
            Ok(_) => false,
        },
{
    match encode_records_seq(m.answers, m.answers.len() as int) {
        Err(e2) => {},
        Ok(c) => {
            lemma_records_whole_oversized(m.answers);
            match encode_packet_content(m) {
                Ok(content) => {
                    assert(content.len() > 512);
                },
                Err(_) => {},
            }
        },
    }
}

/// Maps an authority-section build failure to the whole message's contract.
proof fn lemma_section_failure_aut(m: PacketModel, e: DrasilDNSError)
    requires
        encode_questions_seq(m.questions, m.questions.len() as int) is Ok,
        encode_records_seq(m.answers, m.answers.len() as int) is Ok,
        match encode_records_seq(m.authority, m.authority.len() as int) {
            Err(e2) => e == e2 || (e == DrasilDNSError::EOF && records_oversized(m.authority)),
            Ok(c) => e == DrasilDNSError::EOF && c.len() > usize::MAX,
        },
    ensures
        match encode_packet(m) {
            Err(e2) => e == e2 || (e == DrasilDNSError::EOF && packet_oversized(m)),
            Ok(_) => false,
        },
{
    match encode_records_seq(m.authority, m.authority.len() as int) {
        Err(e2) => {},
        Ok(c) => {
            lemma_records_whole_oversized(m.authority);
            match encode_packet_content(m) {
                Ok(content) => {
                    assert(content.len() > 512);
                },
                Err(_) => {},
            }
        },
    }
}

/// Maps an additional-section build failure to the whole message's contract.
proof fn lemma_section_failure_add(m: PacketModel, e: DrasilDNSError)
    requires
        encode_questions_seq(m.questions, m.questions.len() as int) is Ok,
        encode_records_seq(m.answers, m.answers.len() as int) is Ok,
        encode_records_seq(m.authority, m.authority.len() as int) is Ok,
        match encode_records_seq(m.additional, m.additional.len() as int) {
            Err(e2) => e == e2 || (e == DrasilDNSError::EOF && records_oversized(m.additional)),
            Ok(c) => e == DrasilDNSError::EOF && c.len() > usize::MAX,
        },
    ensures
        match encode_packet(m) {
            Err(e2) => e == e2 || (e == DrasilDNSError::EOF && packet_oversized(m)),
            Ok(_) => false,
        },
{
    match encode_records_seq(m.additional, m.additional.len() as int) {
        Err(e2) => {},
        Ok(c) => {
            lemma_records_whole_oversized(m.additional);
            match encode_packet_content(m) {
                Ok(content) => {
                    assert(content.len() > 512);
                },
                Err(_) => {},
            }
        },
    }
}

/// Writes the prepared section encodings after the header into the fixed
/// 512-byte message, zero padding left past the content.
#[verifier::rlimit(100)]
fn assemble_message(header: &Header, qbufs: &Vec<Buffer>, ansbufs: &Vec<Buffer>, autbufs: &Vec<Buffer>, addbufs: &Vec<Buffer>, m: Ghost<PacketModel>) -> (r: Result<Vec<u8>, DrasilDNSError>)
    requires
        *header == m@.header,
        encode_questions_seq(m@.questions, m@.questions.len() as int) is Ok,
        encode_records_seq(m@.answers, m@.answers.len() as int) is Ok,
        encode_records_seq(m@.authority, m@.authority.len() as int) is Ok,
        encode_records_seq(m@.additional, m@.additional.len() as int) is Ok,
        qbufs@.len() == m@.questions.len(),
        ansbufs@.len() == m@.answers.len(),
        autbufs@.len() == m@.authority.len(),
        addbufs@.len() == m@.additional.len(),
        forall|k: int|
            0 <= k < qbufs@.len() ==> (#[trigger] qbufs@[k])@.bytes == encode_question(
                m@.questions[k],
            ),
        forall|k: int|
            0 <= k < ansbufs@.len() ==> encode_record(m@.answers[k]) == Ok::<
                Seq<u8>,
                DrasilDNSError,
            >((#[trigger] ansbufs@[k])@.bytes),
        forall|k: int|
            0 <= k < autbufs@.len() ==> encode_record(m@.authority[k]) == Ok::<
                Seq<u8>,
                DrasilDNSError,
            >((#[trigger] autbufs@[k])@.bytes),
        forall|k: int|
            0 <= k < addbufs@.len() ==> encode_record(m@.additional[k]) == Ok::<
                Seq<u8>,
                DrasilDNSError,
            >((#[trigger] addbufs@[k])@.bytes),
    ensures
        match r {
            Ok(v) => encode_packet(m@) == Ok::<Seq<u8>, DrasilDNSError>(v@),
            Err(e) => e == DrasilDNSError::EOF && encode_packet(m@) == Err::<
                Seq<u8>,
                DrasilDNSError,
            >(DrasilDNSError::EOF),
        },
{
    let ghost qb = encode_questions_seq(m@.questions, m@.questions.len() as int)->Ok_0;
    let ghost ansb = encode_records_seq(m@.answers, m@.answers.len() as int)->Ok_0;
    let ghost autb = encode_records_seq(m@.authority, m@.authority.len() as int)->Ok_0;
    let ghost addb = encode_records_seq(m@.additional, m@.additional.len() as int)->Ok_0;
    let ghost content = encode_header(m@.header) + qb + ansb + autb + addb;
    proof {
        assert(encode_packet_content(m@) == Ok::<Seq<u8>, DrasilDNSError>(content));
    }
    let ghost qitems = Seq::new(m@.questions.len(), |k: int| encode_question(m@.questions[k]));
    let ghost ansitems = Seq::new(m@.answers.len(), |k: int| encode_record(m@.answers[k])->Ok_0);
    let ghost autitems = Seq::new(
        m@.authority.len(),
        |k: int| encode_record(m@.authority[k])->Ok_0,
    );
    let ghost additems = Seq::new(
        m@.additional.len(),
        |k: int| encode_record(m@.additional[k])->Ok_0,
    );
    proof {
        assert forall|k: int| 0 <= k < m@.answers.len() implies encode_record(m@.answers[k])
            == Ok::<Seq<u8>, DrasilDNSError>(#[trigger] ansitems[k]) by {
            assert(encode_record(m@.answers[k]) == Ok::<Seq<u8>, DrasilDNSError>(
                (ansbufs@[k])@.bytes,
            ));
        }
        assert forall|k: int| 0 <= k < m@.authority.len() implies encode_record(m@.authority[k])
            == Ok::<Seq<u8>, DrasilDNSError>(#[trigger] autitems[k]) by {
            assert(encode_record(m@.authority[k]) == Ok::<Seq<u8>, DrasilDNSError>(
                (autbufs@[k])@.bytes,
            ));
        }
        assert forall|k: int| 0 <= k < m@.additional.len() implies encode_record(m@.additional[k])
            == Ok::<Seq<u8>, DrasilDNSError>(#[trigger] additems[k]) by {
            assert(encode_record(m@.additional[k]) == Ok::<Seq<u8>, DrasilDNSError>(
                (addbufs@[k])@.bytes,
            ));
        }
        lemma_eqs_is_concat(m@.questions, qitems, m@.questions.len() as int);
        lemma_ers_is_concat(m@.answers, ansitems, m@.answers.len() as int);
        lemma_ers_is_concat(m@.authority, autitems, m@.authority.len() as int);
        lemma_ers_is_concat(m@.additional, additems, m@.additional.len() as int);
    }

    let mut buff = Buffer::default();
    match header.write_bytes(&mut buff) {
        Ok(()) => {},
        Err(_) => {
            proof {
                assert(false);
            }
            return Err(DrasilDNSError::Unknown);
        },
    }
    proof {
        crate::header::lemma_encode_header_len(m@.header);
        assert(buff@.bytes =~= splice_at(
            Seq::new(512, |i: int| 0u8),
            0,
            encode_header(m@.header),
        ));
    }

    match write_section(&mut buff, qbufs, Ghost(qitems), Ghost(ansb.len() + autb.len() + addb.len() as int)) {
        Ok(()) => {},
        Err(_) => {
            return Err(DrasilDNSError::EOF);
        },
    }
    match write_section(&mut buff, ansbufs, Ghost(ansitems), Ghost(autb.len() + addb.len() as int)) {
        Ok(()) => {},
        Err(_) => {
            return Err(DrasilDNSError::EOF);
        },
    }
    match write_section(&mut buff, autbufs, Ghost(autitems), Ghost(addb.len() as int)) {
        Ok(()) => {},
        Err(_) => {
            return Err(DrasilDNSError::EOF);
        },
    }
    match write_section(&mut buff, addbufs, Ghost(additems), Ghost(0int)) {
        Ok(()) => {},
        Err(_) => {
            return Err(DrasilDNSError::EOF);
        },
    }
    proof {
        assert(buff@.pos == content.len());
        assert(buff@.bytes =~= content + Seq::new((512 - content.len()) as nat, |i: int| 0u8));
    }
    Ok(buff.into_bytes())
}

} // verus!


