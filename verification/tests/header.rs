use drasil_dns::{Buffer, Header, Question, RecordClass, RecordType, RequestKind, ResponseCode};

#[test]
fn header_rw() {
    let header = Header {
        id: 100,
        request_kind: RequestKind::Query,
        opcode: 10,
        is_authoritative_answer: false,
        is_truncated_message: false,
        is_recursion_desired: true,
        is_recursion_available: false,
        response_code: ResponseCode::NOERROR,
        question_count: 1,
        answer_count: 0,
        authority_count: 0,
        additional_count: 0,
    };

    let mut b = Buffer::with_capacity(12);
    header.write_bytes(&mut b).expect("Failed at header write");

    b.seek(0);
    let header_after_write = Header::parse(&mut b).expect("Failed at header read");

    assert_eq!(
        header, header_after_write,
        "Header is not equal after write+read"
    );
}

#[test]
fn header_flag_bits_exact() {
    let header = Header {
        id: 0xABCD,
        request_kind: RequestKind::Response,
        opcode: 5,
        is_authoritative_answer: true,
        is_truncated_message: false,
        is_recursion_desired: true,
        is_recursion_available: true,
        response_code: ResponseCode::REFUSED,
        question_count: 0x0102,
        answer_count: 0x0304,
        authority_count: 0x0506,
        additional_count: 0x0708,
    };
    let mut b = Buffer::with_capacity(12);
    header.write_bytes(&mut b).expect("header write");
    let bytes: Vec<u8> = b.into_bytes();
    // 0b1_0101_1_0_1 = response, opcode 5, AA, not TC, RD; 0b1_000_0101 = RA, rcode 5
    assert_eq!(
        bytes,
        vec![0xAB, 0xCD, 0b10101101, 0b10000101, 1, 2, 3, 4, 5, 6, 7, 8]
    );
}

#[test]
fn header_truncated_read_fails() {
    let mut b = Buffer::from_bytes(vec![0; 11]);
    assert!(Header::parse(&mut b).is_err());
    assert_eq!(b.pos(), 0, "cursor must roll back on failure");
}

#[test]
fn question_rw() {
    let question = Question {
        name: vec![b"google".to_vec(), b"com".to_vec()],
        record_type: RecordType::A,
        record_class: RecordClass::IN,
    };

    let mut b = Buffer::with_capacity(0);
    b.set_expandable(true);

    question.write_bytes(&mut b).expect("Failed to write question");

    b.seek(0);
    let question_after_read = Question::parse(&mut b).expect("Failed to read question");

    assert_eq!(
        question, question_after_read,
        "Question not equal after write+read"
    );
}
