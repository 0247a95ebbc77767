use drasil_dns::{Buffer, DrasilDNSError, EDNSOption};

#[test]
fn edns_rw() {
    let mut b = Buffer::with_capacity(0);
    b.set_expandable(true);

    let options: Vec<EDNSOption> = vec![
        EDNSOption::Cookie {
            client: 100,
            server: None,
        },
        EDNSOption::Cookie {
            client: 100,
            server: Some(150),
        },
        EDNSOption::ClientSubnet {
            family: 1,
            source_netmask: 24,
            scope_netmask: 0,
            addr: 0x10101010,
        },
    ];

    for option in &options {
        option.write_bytes(&mut b).expect("Failed to write EDNS option");
    }

    b.seek(0);

    let mut options_after_read = vec![];
    for _ in 0..options.len() {
        options_after_read.push(EDNSOption::parse(&mut b).expect("Failed to read EDNS option"));
    }

    // A client-subnet address travels in exactly the bytes its source
    // netmask covers: three for a /24, so the fourth byte of 0x10101010 is
    // cut on the wire and the read hands back the truncated address.
    let expected: Vec<EDNSOption> = vec![
        EDNSOption::Cookie {
            client: 100,
            server: None,
        },
        EDNSOption::Cookie {
            client: 100,
            server: Some(150),
        },
        EDNSOption::ClientSubnet {
            family: 1,
            source_netmask: 24,
            scope_netmask: 0,
            addr: 0x101010,
        },
    ];
    assert_eq!(
        expected, options_after_read,
        "EDNS Options unequal after write+read"
    );
}

#[test]
fn edns_client_subnet_wire_width() {
    // a /24 client-subnet carries exactly three address bytes
    let opt = EDNSOption::ClientSubnet {
        family: 1,
        source_netmask: 24,
        scope_netmask: 0,
        addr: 0x101010,
    };
    let mut b = Buffer::with_capacity(0);
    b.set_expandable(true);
    opt.write_bytes(&mut b).expect("write option");
    let bytes: Vec<u8> = b.into_bytes();
    assert_eq!(bytes, vec![0, 8, 0, 7, 0, 1, 24, 0, 0x10, 0x10, 0x10]);

    // and decodes from exactly three, recovering the same option
    let mut rb = Buffer::from_bytes(vec![0, 8, 0, 7, 0, 1, 0x18, 0, 1, 2, 3]);
    let back = EDNSOption::parse(&mut rb).expect("parse option");
    assert_eq!(
        back,
        EDNSOption::ClientSubnet {
            family: 1,
            source_netmask: 24,
            scope_netmask: 0,
            addr: 0x010203,
        }
    );

    // a /0 scope carries no address bytes at all
    let opt = EDNSOption::ClientSubnet {
        family: 2,
        source_netmask: 0,
        scope_netmask: 0,
        addr: 0,
    };
    let mut b = Buffer::with_capacity(0);
    b.set_expandable(true);
    opt.write_bytes(&mut b).expect("write option");
    let bytes: Vec<u8> = b.into_bytes();
    assert_eq!(bytes, vec![0, 8, 0, 4, 0, 2, 0, 0]);
}

#[test]
fn edns_variants_round_trip() {
    let options: Vec<EDNSOption> = vec![
        EDNSOption::Unknown {
            code: 999,
            len: 3,
            data: vec![1, 2, 3],
        },
        EDNSOption::NSID {
            data: b"resolver".to_vec(),
        },
        EDNSOption::KeepAlive { timeout: 1200 },
        EDNSOption::Padding { len: 5 },
        EDNSOption::ChainQuery {
            flags: 7,
            qname_min_length: 42,
        },
        EDNSOption::KeyTag {
            tags: vec![0x0102, 0x0304],
        },
        EDNSOption::EDE {
            info_code: 18,
            extra_text: b"prohibited".to_vec(),
        },
        EDNSOption::EcsIPv4 {
            source_netmask: 32,
            scope_netmask: 0,
            addr: 0x7F000001,
        },
        EDNSOption::EcsIPv6 {
            source_netmask: 64,
            scope_netmask: 0,
            addr: 0x20010DB8000000000000000000000001,
        },
    ];

    let mut b = Buffer::with_capacity(0);
    b.set_expandable(true);
    for option in &options {
        option.write_bytes(&mut b).expect("write option");
    }
    b.seek(0);
    let mut back = vec![];
    for _ in 0..options.len() {
        back.push(EDNSOption::parse(&mut b).expect("read option"));
    }
    assert_eq!(options, back);
}

#[test]
fn edns_bad_family_rejected_on_write() {
    let opt = EDNSOption::ClientSubnet {
        family: 7,
        source_netmask: 8,
        scope_netmask: 0,
        addr: 1,
    };
    let mut b = Buffer::with_capacity(0);
    b.set_expandable(true);
    match opt.write_bytes(&mut b) {
        Err(DrasilDNSError::InvalidNetworkFamily { family }) => assert_eq!(family, 7),
        other => panic!("expected InvalidNetworkFamily, got {:?}", other),
    }
}

#[test]
fn edns_bad_netmask_rejected() {
    let opt = EDNSOption::ClientSubnet {
        family: 1,
        source_netmask: 33,
        scope_netmask: 0,
        addr: 1,
    };
    let mut b = Buffer::with_capacity(0);
    b.set_expandable(true);
    match opt.write_bytes(&mut b) {
        Err(DrasilDNSError::InvalidSourceNetmask { family, max, provided }) => {
            assert_eq!((family, max, provided), (1, 32, 33));
        }
        other => panic!("expected InvalidSourceNetmask, got {:?}", other),
    }

    let opt = EDNSOption::ClientSubnet {
        family: 2,
        source_netmask: 5,
        scope_netmask: 129,
        addr: 1,
    };
    let mut b = Buffer::with_capacity(0);
    b.set_expandable(true);
    match opt.write_bytes(&mut b) {
        Err(DrasilDNSError::InvalidScopeNetmask { family, max, provided }) => {
            assert_eq!((family, max, provided), (2, 128, 129));
        }
        other => panic!("expected InvalidScopeNetmask, got {:?}", other),
    }
}

#[test]
fn edns_bad_declared_length_rejected() {
    // a cookie whose declared length is neither 8 nor 16
    let data = vec![0, 10, 0, 5, 1, 2, 3, 4, 5];
    let mut b = Buffer::from_bytes(data);
    match EDNSOption::parse(&mut b) {
        Err(DrasilDNSError::InvalidEDNSOptionLength { option_type, size }) => {
            assert_eq!((option_type, size), (10, 5));
        }
        other => panic!("expected InvalidEDNSOptionLength, got {:?}", other),
    }
    assert_eq!(b.pos(), 0, "cursor must roll back on failure");
}
