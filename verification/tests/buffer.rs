use drasil_dns::{Buffer, DrasilDNSError};

#[test]
fn buffer_basic_read_ops() {
    let data = [0x50, 0x12, 0x34];

    let mut b: Buffer = Buffer::from_bytes(data.to_vec());

    let v1 = b.read_u16().expect("Failed at read u16");
    let v2 = b.read_u8().expect("Failed at read_u8");

    b.seek(0);
    let v3 = b.read_bytes(3).expect("Failed at read_bytes").to_vec();

    match b.read_u8() {
        Err(DrasilDNSError::EOF) => {}
        _ => panic!("expected EOF found something else"),
    }

    assert_eq!(v1, 0x5012, "Failed at read_u16");
    assert_eq!(v2, 0x34, "Failed at read_u8");
    assert_eq!(v3, &data[..], "Failed at read_bytes");
}

#[test]
fn buffer_basic_write_ops() {
    let mut b1 = Buffer::with_capacity(3);
    b1.write_u16(0x5012).expect("Failed at write_u16");
    b1.write_u8(0x34).expect("Failed at write_u8");

    b1.write_u8(0x00)
        .expect_err("Write allowed to Buffer already at max capacity");

    let bytes: Vec<u8> = b1.into_bytes();
    assert_eq!(vec![0x50, 0x12, 0x34], bytes, "Final buffer is incorrect");

    let mut b2 = Buffer::with_capacity(0);
    b2.set_expandable(true);

    b2.write_u8(0x50).expect("Failed at write_u8");
    b2.write_bytes(&[0x12, 0x34]).expect("Failed at write_bytes");

    let bytes: Vec<u8> = b2.into_bytes();
    assert_eq!(vec![0x50, 0x12, 0x34], bytes, "Final buffer is incorrect");
}

#[test]
fn buffer_label_read_write() {
    let mut b = Buffer::with_capacity(0);
    b.set_expandable(true);

    let test_labels = vec![b"google".to_vec(), b"com".to_vec()];

    b.write_labels(&test_labels).expect("Failed at write_labels");

    b.seek(0);
    let (_, labels) = b.read_labels(false).expect("Failed at read_labels");
    assert_eq!(labels, test_labels, "Labels not equal")
}

#[test]
fn buffer_wide_integer_round_trip() {
    let mut b = Buffer::with_capacity(0);
    b.set_expandable(true);
    b.write_u32(0xDEADBEEF).expect("write_u32");
    b.write_u64(0x0123456789ABCDEF).expect("write_u64");
    b.write_u128(0xFEDCBA98765432100123456789ABCDEF).expect("write_u128");

    b.seek(0);
    assert_eq!(b.read_u32().expect("read_u32"), 0xDEADBEEF);
    assert_eq!(b.read_u64().expect("read_u64"), 0x0123456789ABCDEF);
    assert_eq!(
        b.read_u128().expect("read_u128"),
        0xFEDCBA98765432100123456789ABCDEF
    );
}

#[test]
fn labels_decode_case_folds() {
    let mut b = Buffer::with_capacity(0);
    b.set_expandable(true);
    b.write_labels(&vec![b"GooGLE".to_vec(), b"CoM".to_vec()])
        .expect("write_labels");
    b.seek(0);
    let (_, labels) = b.read_labels(true).expect("read_labels");
    assert_eq!(labels, vec![b"google".to_vec(), b"com".to_vec()]);
}

#[test]
fn labels_follow_compression_pointer() {
    // "example" at offset 0, then a name "www" + pointer back to offset 0.
    let data = vec![
        7, b'e', b'x', b'a', b'm', b'p', b'l', b'e', 0, // offsets 0..=8
        3, b'w', b'w', b'w', 0xC0, 0x00, // offsets 9..=14
    ];
    let mut b = Buffer::from_bytes(data);
    b.seek(9);
    let (n, labels) = b.read_labels(true).expect("read_labels");
    assert_eq!(labels, vec![b"www".to_vec(), b"example".to_vec()]);
    // the cursor moves just past the pointer, not past the target
    assert_eq!(n, 6);
    assert_eq!(b.pos(), 15);
}

#[test]
fn labels_too_many_jumps() {
    // a chain of six pointers, each hopping to the next
    let data = vec![
        0xC0, 2, 0xC0, 4, 0xC0, 6, 0xC0, 8, 0xC0, 10, 0xC0, 12, 0,
    ];
    let mut b = Buffer::from_bytes(data);
    match b.read_labels(true) {
        Err(DrasilDNSError::TooManyJumpsInLabelSequence) => {}
        other => panic!("expected TooManyJumpsInLabelSequence, got {:?}", other),
    }
    assert_eq!(b.pos(), 0, "cursor must roll back on failure");
}

#[test]
fn labels_oversize_label_rejected() {
    let mut b = Buffer::with_capacity(0);
    b.set_expandable(true);
    let labels = vec![vec![b'a'; 64]];
    match b.write_labels(&labels) {
        Err(DrasilDNSError::LabelTooLarge { size }) => assert_eq!(size, 64),
        other => panic!("expected LabelTooLarge, got {:?}", other),
    }
    let bytes: Vec<u8> = b.into_bytes();
    assert!(bytes.is_empty(), "a failed write must leave the buffer untouched");
}

#[test]
fn buffer_read_transaction_restores_cursor() {
    let mut b = Buffer::from_bytes(vec![1, 2, 3]);
    let v = b
        .read_transaction(|buff| buff.read_u16())
        .expect("read_u16 inside transaction");
    assert_eq!(v, 0x0102);
    let r: Result<u32, DrasilDNSError> = b.read_transaction(|buff| buff.read_u32());
    assert!(r.is_err());
    assert_eq!(b.pos(), 2, "a failed transaction must restore the cursor");
}
