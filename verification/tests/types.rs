use drasil_dns::{Buffer, RecordType};

#[test]
fn record_type_set_to_type_bitmaps() {
    let set = vec![RecordType::A, RecordType::CNAME, RecordType::NSEC3PARAM];

    let ans: Vec<u8> = vec![0, 7, 0b1000_1000, 0, 0, 0, 0, 0, 0b00100000];

    let buff = RecordType::into_type_bitmaps(&set).expect("Failed at into_type_bitmaps");
    let buff_bytes: Vec<u8> = buff.into_bytes();
    assert_eq!(
        buff_bytes, ans,
        "RecordType set to Type-Bitmaps conversion failed"
    );
}

#[test]
fn type_bitmaps_to_record_type_set() {
    let data = [0, 1, 0b1000_1000];

    let buff = Buffer::from_bytes(data.to_vec());
    let set = RecordType::parse_type_bitmaps(buff).expect("Failed at parse_type_bitmaps");

    assert!(
        set.contains(&RecordType::A),
        "set doesn't contain type A which is set"
    );
    assert!(
        set.contains(&RecordType::CNAME),
        "set doesn't contain type CNAME which is set"
    );
}

#[test]
fn type_bitmaps_round_trip_order_independent() {
    let set = vec![RecordType::NSEC3PARAM, RecordType::A, RecordType::CNAME];
    let buff = RecordType::into_type_bitmaps(&set).expect("into_type_bitmaps");
    let bytes: Vec<u8> = buff.into_bytes();
    let back = RecordType::parse_type_bitmaps(Buffer::from_bytes(bytes))
        .expect("parse_type_bitmaps");
    assert_eq!(back.len(), 3);
    assert!(back.contains(&RecordType::A));
    assert!(back.contains(&RecordType::CNAME));
    assert!(back.contains(&RecordType::NSEC3PARAM));
}

#[test]
fn type_bitmaps_unknown_codes_dropped() {
    // window 0, one byte, bit 2 set: code 3, which names no record type here
    let data = [0u8, 1, 0b0010_0000];
    let buff = Buffer::from_bytes(data.to_vec());
    let set = RecordType::parse_type_bitmaps(buff).expect("parse_type_bitmaps");
    assert!(set.is_empty(), "codes without a named variant are dropped");
}
