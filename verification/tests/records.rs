use drasil_dns::{
    Buffer, DNSSECAlgorithm, DNSSECDigestType, DrasilDNSError, EDNSOption, Record, RecordClass,
    RecordType,
};

#[test]
fn record_rw() {
    let records: Vec<Record> = vec![
        Record::A {
            domain: vec![b"google".to_vec(), b"com".to_vec()],
            addr: 0x10101010,
            ttl: 60,
            class: RecordClass::IN,
        },
        Record::OPT {
            udp_payload_size: 1024,
            extended_rcode: 0,
            version: 1,
            dnssec_ok: true,
            options: vec![
                EDNSOption::Cookie {
                    client: 100,
                    server: None,
                },
                EDNSOption::Cookie {
                    client: 100,
                    server: Some(150),
                },
                EDNSOption::ClientSubnet {
                    family: 2,
                    source_netmask: 75,
                    scope_netmask: 0,
                    addr: 0x10101010,
                },
            ],
        },
    ];

    let mut b = Buffer::with_capacity(0);
    b.set_expandable(true);

    for record in &records {
        record.write_bytes(&mut b).expect("Failed at record write");
    }

    b.seek(0);
    let mut records_after_read = vec![];

    for _ in 0..records.len() {
        records_after_read.push(
            Record::parse(&mut b)
                .expect("Failed at record read")
                .expect("Record skipped unnecessarily"),
        );
    }

    assert_eq!(
        records, records_after_read,
        "Records not equals after write+read"
    );
}

#[test]
fn record_variants_round_trip() {
    let domain = vec![b"example".to_vec(), b"org".to_vec()];
    let records: Vec<Record> = vec![
        Record::NS {
            domain: domain.clone(),
            host: vec![b"ns1".to_vec(), b"example".to_vec(), b"org".to_vec()],
            ttl: 3600,
            class: RecordClass::IN,
        },
        Record::CNAME {
            domain: domain.clone(),
            host: vec![b"alias".to_vec(), b"example".to_vec(), b"org".to_vec()],
            ttl: 60,
            class: RecordClass::IN,
        },
        Record::MX {
            domain: domain.clone(),
            priority: 10,
            host: vec![b"mail".to_vec(), b"example".to_vec(), b"org".to_vec()],
            ttl: 300,
            class: RecordClass::IN,
        },
        Record::AAAA {
            domain: domain.clone(),
            addr: 0x20010DB8000000000000000000000042,
            ttl: 120,
            class: RecordClass::IN,
        },
        Record::Unknown {
            domain: domain.clone(),
            ttl: 30,
            len: 4,
            record_type: 999,
            class: RecordClass::Unknown(7),
            data: vec![9, 8, 7, 6],
        },
        Record::DS {
            domain: domain.clone(),
            class: RecordClass::IN,
            ttl: 900,
            key_tag: 0xBEEF,
            algorithm: DNSSECAlgorithm::RSASHA1,
            digest_type: DNSSECDigestType::SHA1,
            digest: vec![0xAA; 20],
        },
        Record::RRSIG {
            domain: domain.clone(),
            class: RecordClass::IN,
            ttl: 900,
            type_covered: 1,
            algorithm: DNSSECAlgorithm::RSASHA1,
            labels: 2,
            original_ttl: 3600,
            signature_expiration: 1700000000,
            signature_inception: 1690000000,
            key_tag: 0x1234,
            signer_name: vec![b"example".to_vec(), b"org".to_vec()],
            signature: vec![0x55; 16],
        },
        Record::NSEC {
            domain: domain.clone(),
            class: RecordClass::IN,
            ttl: 900,
            next_domain_name: vec![b"next".to_vec(), b"example".to_vec(), b"org".to_vec()],
            record_types: vec![RecordType::A, RecordType::NS],
        },
        Record::DNSKEY {
            domain: domain.clone(),
            class: RecordClass::IN,
            ttl: 900,
            is_secure_entry_point: true,
            is_zone_key: true,
            protocol: 3,
            algorithm: DNSSECAlgorithm::RSASHA1,
            public_key: vec![0x11; 12],
        },
        Record::NSEC3 {
            domain: domain.clone(),
            class: RecordClass::IN,
            ttl: 900,
            hash_algorithm: 1,
            opt_out: true,
            iterations: 12,
            salt_length: 4,
            salt: vec![1, 2, 3, 4],
            hash_length: 3,
            next_hashed_owner_name: vec![5, 6, 7],
            record_types: vec![RecordType::A, RecordType::NSEC3PARAM],
        },
        Record::NSEC3PARAM {
            domain: domain.clone(),
            class: RecordClass::IN,
            ttl: 900,
            hash_algorithm: 1,
            flags: 0,
            iterations: 12,
            salt_length: 4,
            salt: vec![1, 2, 3, 4],
        },
    ];

    let mut b = Buffer::with_capacity(0);
    b.set_expandable(true);
    for record in &records {
        record.write_bytes(&mut b).expect("record write");
    }
    b.seek(0);
    let mut back = vec![];
    for _ in 0..records.len() {
        back.push(
            Record::parse(&mut b)
                .expect("record read")
                .expect("record skipped unnecessarily"),
        );
    }
    assert_eq!(records, back);
}

#[test]
fn record_truncated_rdata_fails_with_eof() {
    // an Unknown-type record declaring more RDATA than the buffer holds
    let rec = Record::Unknown {
        domain: vec![b"x".to_vec()],
        ttl: 1,
        len: 4,
        record_type: 999,
        class: RecordClass::IN,
        data: vec![1, 2, 3, 4],
    };
    let mut b = Buffer::with_capacity(0);
    b.set_expandable(true);
    rec.write_bytes(&mut b).expect("record write");
    let mut bytes: Vec<u8> = b.into_bytes();
    bytes.truncate(bytes.len() - 2);
    let mut shortened = Buffer::from_bytes(bytes);
    match Record::parse(&mut shortened) {
        Err(DrasilDNSError::EOF) => {}
        other => panic!("expected EOF, got {:?}", other),
    }
    assert_eq!(shortened.pos(), 0, "cursor must roll back on failure");
}

#[test]
fn nsec3param_reserved_flags_dropped() {
    let rec = Record::NSEC3PARAM {
        domain: vec![b"example".to_vec(), b"org".to_vec()],
        class: RecordClass::IN,
        ttl: 900,
        hash_algorithm: 1,
        flags: 1,
        iterations: 12,
        salt_length: 2,
        salt: vec![1, 2],
    };
    let mut b = Buffer::with_capacity(0);
    b.set_expandable(true);
    rec.write_bytes(&mut b).expect("record write");
    b.seek(0);
    let parsed = Record::parse(&mut b).expect("record read");
    assert!(parsed.is_none(), "reserved flags must drop the record");
}

#[test]
fn unknown_record_type_code_preserved() {
    let rec = Record::Unknown {
        domain: vec![b"x".to_vec()],
        ttl: 1,
        len: 2,
        record_type: 0xFEED,
        class: RecordClass::Unknown(0xBEAD),
        data: vec![0xCA, 0xFE],
    };
    let mut b = Buffer::with_capacity(0);
    b.set_expandable(true);
    rec.write_bytes(&mut b).expect("record write");
    b.seek(0);
    let back = Record::parse(&mut b).expect("record read").expect("some record");
    match back {
        Record::Unknown { record_type, class, data, .. } => {
            assert_eq!(record_type, 0xFEED);
            assert_eq!(class, RecordClass::Unknown(0xBEAD));
            assert_eq!(data, vec![0xCA, 0xFE]);
        }
        other => panic!("expected an Unknown record, got {:?}", other),
    }
}

#[test]
fn code_spaces_round_trip_unknown_codes() {
    assert_eq!(RecordType::from_code(0xFEED).to_code(), 0xFEED);
    assert_eq!(RecordType::from_code(1), RecordType::A);
    assert!(RecordType::from_code(0xFEED).is_unknown());
    assert_eq!(RecordClass::from_code(0xBEAD).to_code(), 0xBEAD);
    assert_eq!(RecordClass::from_code(1), RecordClass::IN);
    assert_eq!(DNSSECAlgorithm::from_code(200).to_code(), 200);
    assert_eq!(DNSSECAlgorithm::from_code(5), DNSSECAlgorithm::RSASHA1);
    assert_eq!(DNSSECDigestType::from_code(77).to_code(), 77);
    assert_eq!(DNSSECDigestType::from_code(1), DNSSECDigestType::SHA1);
}
