//! A builder for assembling DNS messages value by value.

use vstd::prelude::*;

use crate::header::{Header, RequestKind, ResponseCode};
use crate::packet::Packet;
use crate::question::Question;
use crate::record::Record;

verus! {

/// # Packet Builder
/// Utility struct to construct DNS messages. The section counts of the
/// built header are the sizes of the collected sections.
pub struct PacketBuilder {
    pub id: u16,
    pub request_kind: RequestKind,
    pub opcode: u8,
    pub is_authoritative_answer: bool,
    pub is_truncated_message: bool,
    pub is_recursion_desired: bool,
    pub is_recursion_available: bool,
    pub response_code: ResponseCode,
    pub questions: Vec<Question>,
    pub answers: Vec<Record>,
    pub authority: Vec<Record>,
    pub additional: Vec<Record>,
}

impl PacketBuilder {
    /// Creates a new builder for a query with the provided id and no flags
    /// set, no sections filled.
    pub fn new(id: u16) -> (r: Self)
        ensures
            r.id == id,
            r.request_kind == RequestKind::Query,
            r.opcode == 0,
            !r.is_authoritative_answer,
            !r.is_truncated_message,
            !r.is_recursion_desired,
            !r.is_recursion_available,
            r.response_code == ResponseCode::NOERROR,
            r.questions@.len() == 0,
            r.answers@.len() == 0,
            r.authority@.len() == 0,
            r.additional@.len() == 0,
    {
        Self {
            id,
            request_kind: RequestKind::Query,
            opcode: 0,
            is_authoritative_answer: false,
            is_truncated_message: false,
            is_recursion_desired: false,
            is_recursion_available: false,
            response_code: ResponseCode::NOERROR,
            questions: Vec::new(),
            answers: Vec::new(),
            authority: Vec::new(),
            additional: Vec::new(),
        }
    }

    /// Builds the message: the collected flags and sections, with each
    /// section count declaring the section's size.
    pub fn build(self) -> (r: Packet)
        requires
            self.questions@.len() <= u16::MAX,
            self.answers@.len() <= u16::MAX,
            self.authority@.len() <= u16::MAX,
            self.additional@.len() <= u16::MAX,
        ensures
            r.header == (Header {
                id: self.id,
                request_kind: self.request_kind,
                opcode: self.opcode,
                is_authoritative_answer: self.is_authoritative_answer,
                is_truncated_message: self.is_truncated_message,
                is_recursion_desired: self.is_recursion_desired,
                is_recursion_available: self.is_recursion_available,
                response_code: self.response_code,
                question_count: self.questions@.len() as u16,
                answer_count: self.answers@.len() as u16,
                authority_count: self.authority@.len() as u16,
                additional_count: self.additional@.len() as u16,
            }),
            r.questions == self.questions,
            r.answers == self.answers,
            r.authority == self.authority,
            r.additional == self.additional,
    {
        let question_count: u16 = self.questions.len() as u16;
        let answer_count: u16 = self.answers.len() as u16;
        let authority_count: u16 = self.authority.len() as u16;
        let additional_count: u16 = self.additional.len() as u16;
        Packet {
            header: Header {
                id: self.id,
                request_kind: self.request_kind,
                opcode: self.opcode,
                is_authoritative_answer: self.is_authoritative_answer,
                is_truncated_message: self.is_truncated_message,
                is_recursion_desired: self.is_recursion_desired,
                is_recursion_available: self.is_recursion_available,
                response_code: self.response_code,
                question_count,
                answer_count,
                authority_count,
                additional_count,
            },
            questions: self.questions,
            answers: self.answers,
            authority: self.authority,
            additional: self.additional,
        }
    }

    /// Specifies the request kind for the message.
    pub fn with_request_kind(self, kind: RequestKind) -> (r: Self)
        ensures
            r == (Self { request_kind: kind, ..self }),
    {
        Self { request_kind: kind, ..self }
    }

    /// Sets the opcode for the message, masked to its four wire bits.
    pub fn with_opcode(self, opcode: u8) -> (r: Self)
        ensures
            r == (Self { opcode: (opcode % 16) as u8, ..self }),
    {
        Self { opcode: opcode % 16, ..self }
    }

    /// Sets the authoritative-answer flag.
    pub fn authoritative_answer(self) -> (r: Self)
        ensures
            r == (Self { is_authoritative_answer: true, ..self }),
    {
        Self { is_authoritative_answer: true, ..self }
    }

    /// Sets the truncated-message flag.
    pub fn truncated_message(self) -> (r: Self)
        ensures
            r == (Self { is_truncated_message: true, ..self }),
    {
        Self { is_truncated_message: true, ..self }
    }

    /// Sets the recursion-desired flag.
    pub fn recursion_desired(self) -> (r: Self)
        ensures
            r == (Self { is_recursion_desired: true, ..self }),
    {
        Self { is_recursion_desired: true, ..self }
    }

    /// Sets the recursion-available flag.
    pub fn recursion_available(self) -> (r: Self)
        ensures
            r == (Self { is_recursion_available: true, ..self }),
    {
        Self { is_recursion_available: true, ..self }
    }

    /// Adds a new question to the message.
    pub fn add_question(self, question: Question) -> (r: Self)
        ensures
            r.questions@ == self.questions@.push(question),
            r == (Self { questions: r.questions, ..self }),
    {
        let mut questions = self.questions;
        questions.push(question);
        Self { questions, ..self }
    }

    /// Adds a new answer record to the message.
    pub fn add_answer(self, record: Record) -> (r: Self)
        ensures
            r.answers@ == self.answers@.push(record),
            r == (Self { answers: r.answers, ..self }),
    {
        let mut answers = self.answers;
        answers.push(record);
        Self { answers, ..self }
    }

    /// Adds a new authority record to the message.
    pub fn add_authority(self, record: Record) -> (r: Self)
        ensures
            r.authority@ == self.authority@.push(record),
            r == (Self { authority: r.authority, ..self }),
    {
        let mut authority = self.authority;
        authority.push(record);
        Self { authority, ..self }
    }

    /// Adds a new additional record to the message.
    pub fn add_additional(self, record: Record) -> (r: Self)
        ensures
            r.additional@ == self.additional@.push(record),
            r == (Self { additional: r.additional, ..self }),
    {
        let mut additional = self.additional;
        additional.push(record);
        Self { additional, ..self }
    }
}

} // verus!
