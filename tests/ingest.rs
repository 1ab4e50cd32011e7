use dupharvest::fingerprint::build;
use dupharvest::ingest::{
    classify, ingest, is_local_ipv4, is_tcp, segment_from, EtherFrame, Ipv4Header, MacAddress,
    Segment, TcpHeader,
};
use dupharvest::table::{DedupTable, Record};

const LOCAL: MacAddress = MacAddress(2, 0, 0, 0, 0, 1);
const OTHER: MacAddress = MacAddress(2, 0, 0, 0, 0, 9);

fn frame(source: MacAddress, ethertype: u16, protocol: u8, flags: u8) -> Vec<u8> {
    frame_with_payload(source, ethertype, protocol, flags, 0)
}

fn frame_with_payload(
    source: MacAddress,
    ethertype: u16,
    protocol: u8,
    flags: u8,
    payload: usize,
) -> Vec<u8> {
    let mut f = vec![0u8; 54 + payload];
    f[0..6].copy_from_slice(&[2, 0, 0, 0, 0, 7]);
    f[6..12].copy_from_slice(&[source.0, source.1, source.2, source.3, source.4, source.5]);
    f[12..14].copy_from_slice(&ethertype.to_be_bytes());
    let ip = &mut f[14..34];
    ip[0] = 0x45;
    ip[2..4].copy_from_slice(&(40 + payload as u16).to_be_bytes());
    ip[8] = 64;
    ip[9] = protocol;
    ip[12..16].copy_from_slice(&[10, 0, 0, 1]);
    ip[16..20].copy_from_slice(&[93, 184, 216, 34]);
    for (i, b) in f[54..].iter_mut().enumerate() {
        *b = i as u8;
    }
    let tcp = &mut f[34..54];
    tcp[0..2].copy_from_slice(&50000u16.to_be_bytes());
    tcp[2..4].copy_from_slice(&443u16.to_be_bytes());
    tcp[4..8].copy_from_slice(&0x0102_0304u32.to_be_bytes());
    tcp[8..12].copy_from_slice(&0x0506_0708u32.to_be_bytes());
    tcp[12] = 0x50;
    tcp[13] = flags;
    f
}

#[test]
fn classify_reads_local_tcp_segment() {
    let f = frame(LOCAL, 0x0800, 6, 0x18);
    let s = classify(&f, LOCAL).unwrap();
    assert_eq!(s.flags, 0x18);
    assert_eq!(s.key, build(0x5db8_d822, 443, 0x0102_0304, 0x0506_0708, 0));
}

#[test]
fn classify_drops_other_source() {
    assert_eq!(classify(&frame(OTHER, 0x0800, 6, 0x18), LOCAL), None);
}

#[test]
fn classify_drops_non_ipv4() {
    assert_eq!(classify(&frame(LOCAL, 0x86dd, 6, 0x18), LOCAL), None);
    assert_eq!(classify(&frame(LOCAL, 0x0806, 6, 0x18), LOCAL), None);
}

#[test]
fn classify_drops_non_tcp() {
    assert_eq!(classify(&frame(LOCAL, 0x0800, 17, 0x18), LOCAL), None);
}

#[test]
fn classify_drops_short_frames() {
    let f = frame(LOCAL, 0x0800, 6, 0x18);
    assert_eq!(classify(&f[..10], LOCAL), None);
    assert_eq!(classify(&f[..30], LOCAL), None);
    assert_eq!(classify(&[], LOCAL), None);
}

#[test]
fn is_local_ipv4_checks_type_and_source() {
    let e = EtherFrame { source: LOCAL, ethertype: 0x0800, payload: vec![] };
    assert!(is_local_ipv4(&e, LOCAL));
    assert!(!is_local_ipv4(&e, OTHER));
    let e = EtherFrame { source: LOCAL, ethertype: 0x86dd, payload: vec![] };
    assert!(!is_local_ipv4(&e, LOCAL));
}

#[test]
fn is_tcp_checks_protocol() {
    assert!(is_tcp(&Ipv4Header { destination: 1, protocol: 6, payload: vec![] }));
    assert!(!is_tcp(&Ipv4Header { destination: 1, protocol: 17, payload: vec![] }));
}

#[test]
fn segment_from_takes_five_components() {
    let t = TcpHeader { port: 22, seq: 5, ack: 6, flags: 0x12, size: 32 };
    assert_eq!(
        segment_from(0x7f00_0001, &t),
        Segment { key: build(0x7f00_0001, 22, 5, 6, 32), flags: 0x12 }
    );
}

#[test]
fn ingest_counts_local_tcp_frames() {
    let mut t = DedupTable::new();
    let f = frame(LOCAL, 0x0800, 6, 0x18);
    ingest(&mut t, &f, LOCAL);
    ingest(&mut t, &frame(LOCAL, 0x0800, 6, 0x10), LOCAL);
    let k = classify(&f, LOCAL).unwrap().key;
    let r: Record = t.get(&k).unwrap();
    assert_eq!(r.repeat_count, 1);
    assert_eq!(r.flags, 0x18);
}

#[test]
fn ingest_ignores_foreign_frames() {
    let mut t = DedupTable::new();
    ingest(&mut t, &frame(OTHER, 0x0800, 6, 0x18), LOCAL);
    ingest(&mut t, &frame(LOCAL, 0x86dd, 6, 0x18), LOCAL);
    ingest(&mut t, &frame(LOCAL, 0x0800, 17, 0x18), LOCAL);
    ingest(&mut t, &[1, 2, 3], LOCAL);
    assert!(t.sweep_at(0, 30).is_empty());
    let f = frame(LOCAL, 0x0800, 6, 0x18);
    let k = classify(&f, LOCAL).unwrap().key;
    assert_eq!(t.get(&k), None);
}

#[test]
fn classify_measures_tcp_payload() {
    let f = frame_with_payload(LOCAL, 0x0800, 6, 0x18, 100);
    let s = classify(&f, LOCAL).unwrap();
    assert_eq!(s.key.payload_size, 100);
    assert_eq!(s.key, build(0x5db8_d822, 443, 0x0102_0304, 0x0506_0708, 100));
}

#[test]
fn classify_skips_tcp_options() {
    let mut f = frame_with_payload(LOCAL, 0x0800, 6, 0x18, 12);
    f[34 + 12] = 0x80;
    let s = classify(&f, LOCAL).unwrap();
    assert_eq!(s.key.payload_size, 0);
    let mut f = frame_with_payload(LOCAL, 0x0800, 6, 0x18, 16);
    f[34 + 12] = 0x60;
    assert_eq!(classify(&f, LOCAL).unwrap().key.payload_size, 12);
}

#[test]
fn classify_ignores_ethernet_padding() {
    let mut f = frame_with_payload(LOCAL, 0x0800, 6, 0x18, 5);
    f.extend_from_slice(&[0u8; 6]);
    assert_eq!(classify(&f, LOCAL).unwrap().key.payload_size, 5);
}

#[test]
fn ack_and_data_segment_are_separate() {
    let mut t = DedupTable::new();
    ingest(&mut t, &frame(LOCAL, 0x0800, 6, 0x10), LOCAL);
    ingest(&mut t, &frame_with_payload(LOCAL, 0x0800, 6, 0x18, 30), LOCAL);
    assert_eq!(t.len(), 2);
}
