use kotori::config::{IpAddress, RealIp};
use kotori::table::{
    decode_record, encode_backends, key_bytes, Backend, BackendTable, EncodeError, Endpoint,
    MAX_BACKENDS, RECORD_LEN,
};

fn rip(n: u32, port: u16, weight: u32) -> RealIp {
    RealIp { addr: IpAddress::V4(n), port, weight }
}

#[test]
fn table_keeps_backends_in_order() {
    let rips = vec![rip(0xC0A8_010A, 8080, 5), rip(0xC0A8_010B, 8081, 1)];
    let t = encode_backends(&rips).unwrap();
    assert_eq!(t.size, 2);
    assert_eq!(t.entries[0], Backend { addr: 0xC0A8_010A, port: 8080, weight: 5 });
    assert_eq!(t.entries[1], Backend { addr: 0xC0A8_010B, port: 8081, weight: 1 });
}

#[test]
fn empty_backend_list_gives_empty_table() {
    let t = encode_backends(&vec![]).unwrap();
    assert_eq!(t.size, 0);
    assert!(t.entries.is_empty());
    let e = BackendTable::empty();
    assert_eq!(e.size, 0);
}

#[test]
fn table_is_capped_and_truncation_is_visible() {
    let mut rips = Vec::new();
    for i in 0..(MAX_BACKENDS as u32 + 1) {
        rips.push(rip(i + 1, 80, 1));
    }
    let t = encode_backends(&rips).unwrap();
    assert_eq!(t.size as usize, MAX_BACKENDS);
    assert!((t.size as usize) < rips.len());
    assert_eq!(t.entries[511].addr, 512);

    rips.truncate(MAX_BACKENDS);
    let t = encode_backends(&rips).unwrap();
    assert_eq!(t.size as usize, MAX_BACKENDS);
}

#[test]
fn ipv6_backend_is_rejected() {
    let rips = vec![
        rip(1, 80, 1),
        RealIp { addr: IpAddress::V6(1), port: 80, weight: 1 },
        RealIp { addr: IpAddress::V6(2), port: 80, weight: 1 },
    ];
    assert_eq!(encode_backends(&rips).unwrap_err(), EncodeError::Ipv6Backend { index: 1 });
}

#[test]
fn record_layout_is_byte_exact() {
    let rips = vec![rip(0xC0A8_010A, 8080, 5), rip(0xC0A8_010B, 0x1234, 1)];
    let t = encode_backends(&rips).unwrap();
    let rec = t.to_record();
    assert_eq!(rec.len(), RECORD_LEN);
    assert_eq!(&rec[0..4], &[2, 0, 0, 0]);
    assert_eq!(&rec[4..12], &[192, 168, 1, 10, 0x90, 0x1f, 0, 0]);
    assert_eq!(&rec[12..20], &[192, 168, 1, 11, 0x34, 0x12, 0, 0]);
    assert!(rec[20..].iter().all(|b| *b == 0));
}

#[test]
fn record_round_trip() {
    let rips = vec![rip(0x0102_0304, 1, 3), rip(0xFFFF_FFFF, 65535, 1), rip(0, 0, 7)];
    let t = encode_backends(&rips).unwrap();
    let back = decode_record(&t.to_record()).unwrap();
    assert_eq!(
        back,
        vec![
            Endpoint { addr: 0x0102_0304, port: 1 },
            Endpoint { addr: 0xFFFF_FFFF, port: 65535 },
            Endpoint { addr: 0, port: 0 },
        ]
    );
}

#[test]
fn record_round_trip_full_table() {
    let mut rips = Vec::new();
    for i in 0..600u32 {
        rips.push(rip(i * 7919, (i % 65536) as u16, 1));
    }
    let t = encode_backends(&rips).unwrap();
    let back = decode_record(&t.to_record()).unwrap();
    assert_eq!(back.len(), MAX_BACKENDS);
    for (i, e) in back.iter().enumerate() {
        assert_eq!(e.addr, (i as u32) * 7919);
        assert_eq!(e.port, i as u16);
    }
}

#[test]
fn malformed_records_are_refused() {
    assert_eq!(decode_record(&vec![0u8; RECORD_LEN - 1]), None);
    let mut rec = vec![0u8; RECORD_LEN];
    rec[0] = 0x01;
    rec[1] = 0x02;
    assert_eq!(decode_record(&rec), None);
    rec[1] = 0x00;
    assert_eq!(decode_record(&rec), Some(vec![Endpoint { addr: 0, port: 0 }]));
}

#[test]
fn key_is_network_order() {
    assert_eq!(key_bytes(0x0A00_0064), vec![10, 0, 0, 100]);
}
