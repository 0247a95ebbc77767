use drasil_dns::{
    Buffer, EDNSOption, Header, Packet, PacketBuilder, Question, Record, RecordClass, RecordType,
    RequestKind, ResponseCode,
};

#[test]
fn packet_rw() {
    let packet = Packet {
        header: Header {
            id: 100,
            request_kind: RequestKind::Query,
            opcode: 10,
            is_authoritative_answer: false,
            is_truncated_message: false,
            is_recursion_desired: true,
            is_recursion_available: false,
            response_code: ResponseCode::NOERROR,
            question_count: 1,
            answer_count: 1,
            authority_count: 0,
            additional_count: 1,
        },
        questions: vec![Question {
            name: vec![b"google".to_vec(), b"com".to_vec()],
            record_type: RecordType::A,
            record_class: RecordClass::IN,
        }],
        answers: vec![Record::A {
            domain: vec![b"google".to_vec(), b"com".to_vec()],
            addr: 0x10101010,
            ttl: 60,
            class: RecordClass::IN,
        }],
        authority: vec![],
        additional: vec![Record::OPT {
            udp_payload_size: 1024,
            extended_rcode: 0,
            version: 1,
            dnssec_ok: true,
            options: vec![
                EDNSOption::Cookie {
                    client: 100,
                    server: None,
                },
                EDNSOption::Cookie {
                    client: 100,
                    server: Some(150),
                },
                EDNSOption::ClientSubnet {
                    family: 2,
                    source_netmask: 75,
                    scope_netmask: 0,
                    addr: 0x10101010,
                },
            ],
        }],
    };

    let mut b = Buffer::with_capacity(0);
    b.set_expandable(true);

    let data = packet.to_bytes().expect("Failed to write packet");
    assert!(
        data.len() >= 512,
        "DNS packet is less than minimum size of 512 bytes"
    );

    let packet_after_read = Packet::parse(&data).expect("Failed to read packet");

    assert_eq!(
        packet, packet_after_read,
        "Packet not equal after write+read"
    );
}

#[test]
fn packet_builder_counts_sections() {
    let packet = PacketBuilder::new(12345)
        .recursion_desired()
        .with_opcode(2)
        .add_question(Question {
            name: vec![b"google".to_vec(), b"com".to_vec()],
            record_type: RecordType::A,
            record_class: RecordClass::IN,
        })
        .add_answer(Record::A {
            domain: vec![b"google".to_vec(), b"com".to_vec()],
            addr: 0x01020304,
            ttl: 60,
            class: RecordClass::IN,
        })
        .build();

    assert_eq!(packet.header.id, 12345);
    assert_eq!(packet.header.opcode, 2);
    assert!(packet.header.is_recursion_desired);
    assert_eq!(packet.header.question_count, 1);
    assert_eq!(packet.header.answer_count, 1);
    assert_eq!(packet.header.authority_count, 0);
    assert_eq!(packet.header.additional_count, 0);

    let bytes = packet.to_bytes().expect("packet write");
    let back = Packet::parse(&bytes).expect("packet read");
    assert_eq!(packet, back);
}

#[test]
fn packet_too_short_for_header_fails() {
    let data = vec![0u8; 5];
    assert!(Packet::parse(&data).is_err());
}
