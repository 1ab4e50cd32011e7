use vstd::prelude::*;

use pnet::packet::ethernet::EthernetPacket;
use pnet::packet::ipv4::Ipv4Packet;
use pnet::packet::tcp::TcpPacket;
use pnet::packet::Packet;

use crate::fingerprint::{build, fingerprint_of, Fingerprint};
use crate::table::{bumped, observe_spec, DedupTable};

verus! {

/// Ethertype of IPv4.
pub const ETHERTYPE_IPV4: u16 = 0x0800;

/// IP protocol number of TCP.
pub const PROTOCOL_TCP: u8 = 6;

/// Smallest frame that carries an Ethernet header.
pub const ETHERNET_HEADER_LEN: usize = 14;

/// Smallest buffer that carries an IPv4 header without options.
pub const IPV4_HEADER_LEN: usize = 20;

/// Smallest buffer that carries a TCP header without options.
pub const TCP_HEADER_LEN: usize = 20;

/// A link-layer address.
#[derive(PartialEq, Eq, Structural, Clone, Copy, Debug, Hash)]
pub struct MacAddress(pub u8, pub u8, pub u8, pub u8, pub u8, pub u8);

/// The fields of an Ethernet frame that the ingest path reads.
#[derive(Debug)]
pub struct EtherFrame {
    pub source: MacAddress,
    pub ethertype: u16,
    pub payload: Vec<u8>,
}

/// The fields of an IPv4 packet that the ingest path reads.
#[derive(Debug)]
pub struct Ipv4Header {
    /// Destination address, most significant octet first.
    pub destination: u32,
    pub protocol: u8,
    pub payload: Vec<u8>,
}

/// The fields of a TCP segment that the ingest path reads.
#[derive(PartialEq, Eq, Structural, Clone, Copy, Debug)]
pub struct TcpHeader {
    pub port: u16,
    pub seq: u32,
    pub ack: u32,
    pub flags: u8,
    /// Number of payload bytes after the TCP header.
    pub size: usize,
}

/// A TCP segment sent by the local host: its fingerprint and its flags.
#[derive(PartialEq, Eq, Structural, Clone, Copy, Debug)]
pub struct Segment {
    pub key: Fingerprint,
    pub flags: u8,
}

/// The big-endian 16-bit integer at `b[i]`, `b[i + 1]`.
pub open spec fn be16(b: Seq<u8>, i: int) -> u16 {
    (b[i] as int * 0x100 + b[i + 1] as int) as u16
}

/// The big-endian 32-bit integer at `b[i]` to `b[i + 3]`.
pub open spec fn be32(b: Seq<u8>, i: int) -> u32 {
    (b[i] as int * 0x100_0000 + b[i + 1] as int * 0x1_0000 + b[i + 2] as int * 0x100 + b[
        i + 3
    ] as int) as u32
}

/// The link-layer address at `b[i]` to `b[i + 5]`.
pub open spec fn mac_at(b: Seq<u8>, i: int) -> MacAddress {
    MacAddress(b[i], b[i + 1], b[i + 2], b[i + 3], b[i + 4], b[i + 5])
}

/// What follows the Ethernet header of a frame.
pub open spec fn ethernet_payload(frame: Seq<u8>) -> Seq<u8> {
    frame.subrange(ETHERNET_HEADER_LEN as int, frame.len() as int)
}

/// Where the IPv4 payload starts: after the header as its length field
/// gives it, and never before the fixed header ends.
pub open spec fn ipv4_payload_start(packet: Seq<u8>) -> int {
    let declared = (packet[0] % 16) as int * 4;
    if declared > IPV4_HEADER_LEN { declared } else { IPV4_HEADER_LEN as int }
}

/// The IPv4 payload: from its start, as many bytes as the total length
/// field leaves after the declared header, cut at the end of the buffer.
pub open spec fn ipv4_payload(packet: Seq<u8>) -> Seq<u8> {
    let start = ipv4_payload_start(packet);
    let declared = (packet[0] % 16) as int * 4;
    let total = be16(packet, 2) as int;
    let len = if total > declared { total - declared } else { 0 };
    let end = if start + len < packet.len() { start + len } else { packet.len() as int };
    if packet.len() <= start {
        Seq::empty()
    } else {
        packet.subrange(start, end)
    }
}

/// Where the TCP payload starts: after the header as its data offset gives
/// it, and never before the fixed header ends.
pub open spec fn tcp_payload_start(segment: Seq<u8>) -> int {
    let declared = (segment[12] / 16) as int * 4;
    if declared > TCP_HEADER_LEN { declared } else { TCP_HEADER_LEN as int }
}

/// Number of payload bytes of a TCP segment that ends with its buffer.
pub open spec fn tcp_payload_len(segment: Seq<u8>) -> int {
    let start = tcp_payload_start(segment);
    if segment.len() <= start { 0 } else { segment.len() - start }
}

/// Relies on pnet's `EthernetPacket::new`, `get_source`, `get_ethertype` and
/// `payload`: `new` refuses a buffer shorter than the fixed header; the
/// source is bytes 6 to 11, the ethertype bytes 12 and 13, the payload the
/// rest.
#[verifier::external_body]
fn parse_ethernet(frame: &[u8]) -> (r: Option<EtherFrame>)
    ensures
        r is Some <==> frame@.len() >= ETHERNET_HEADER_LEN,
        r is Some ==> r->0.source == mac_at(frame@, 6) && r->0.ethertype == be16(frame@, 12)
            && r->0.payload@ == ethernet_payload(frame@),
{
    EthernetPacket::new(frame).map(|p| {
        let m = p.get_source();
        EtherFrame {
            source: MacAddress(m.0, m.1, m.2, m.3, m.4, m.5),
            ethertype: p.get_ethertype().0,
            payload: p.payload().to_vec(),
        }
    })
}

/// Relies on pnet's `Ipv4Packet::new`, `get_destination`,
/// `get_next_level_protocol` and `payload`: `new` refuses a buffer shorter
/// than the fixed header; the destination is bytes 16 to 19, the protocol
/// byte 9, the payload as `ipv4_payload` gives it.
#[verifier::external_body]
fn parse_ipv4(packet: &[u8]) -> (r: Option<Ipv4Header>)
    ensures
        r is Some <==> packet@.len() >= IPV4_HEADER_LEN,
        r is Some ==> r->0.destination == be32(packet@, 16) && r->0.protocol == packet@[9]
            && r->0.payload@ == ipv4_payload(packet@),
{
    Ipv4Packet::new(packet).map(|p| Ipv4Header {
        destination: u32::from(p.get_destination()),
        protocol: p.get_next_level_protocol().0,
        payload: p.payload().to_vec(),
    })
}

/// Relies on pnet's `TcpPacket::new`, its getters and `payload`: `new`
/// refuses a buffer shorter than the fixed header; the destination port is
/// bytes 2 and 3, the sequence number bytes 4 to 7, the acknowledgment
/// number bytes 8 to 11, the flags byte 13, and the payload runs from
/// `tcp_payload_start` to the end of the buffer.
#[verifier::external_body]
fn parse_tcp(segment: &[u8]) -> (r: Option<TcpHeader>)
    ensures
        r is Some <==> segment@.len() >= TCP_HEADER_LEN,
        r is Some ==> r->0.port == be16(segment@, 2) && r->0.seq == be32(segment@, 4) && r->0.ack
            == be32(segment@, 8) && r->0.flags == segment@[13] && r->0.size == tcp_payload_len(
            segment@,
        ),
{
    TcpPacket::new(segment).map(|p| TcpHeader {
        port: p.get_destination(),
        seq: p.get_sequence(),
        ack: p.get_acknowledgement(),
        flags: p.get_flags(),
        size: p.payload().len(),
    })
}

/// The segment that a raw frame yields, if it is an IPv4 frame sent from
/// `local` that carries a TCP segment, each header long enough to parse.
pub open spec fn segment_spec(frame: Seq<u8>, local: MacAddress) -> Option<Segment> {
    if frame.len() < ETHERNET_HEADER_LEN || be16(frame, 12) != ETHERTYPE_IPV4 || mac_at(frame, 6)
        != local {
        None
    } else {
        let packet = ethernet_payload(frame);
        if packet.len() < IPV4_HEADER_LEN || packet[9] != PROTOCOL_TCP {
            None
        } else {
            let segment = ipv4_payload(packet);
            if segment.len() < TCP_HEADER_LEN {
                None
            } else {
                Some(
                    Segment {
                        key: fingerprint_of(
                            be32(packet, 16),
                            be16(segment, 2),
                            be32(segment, 4),
                            be32(segment, 8),
                            tcp_payload_len(segment) as usize,
                        ),
                        flags: segment[13],
                    },
                )
            }
        }
    }
}

/// The segment made of an IPv4 destination and a TCP header.
pub open spec fn segment_spec_of(destination: u32, t: TcpHeader) -> Segment {
    Segment { key: fingerprint_of(destination, t.port, t.seq, t.ack, t.size), flags: t.flags }
}

/// Whether a frame is IPv4 and was sent from the local interface.
pub fn is_local_ipv4(e: &EtherFrame, local: MacAddress) -> (r: bool)
    ensures
        r == (e.ethertype == ETHERTYPE_IPV4 && e.source == local),
{
    e.ethertype == ETHERTYPE_IPV4 && e.source == local
}

/// Whether an IPv4 packet carries TCP.
pub fn is_tcp(ip: &Ipv4Header) -> (r: bool)
    ensures
        r == (ip.protocol == PROTOCOL_TCP),
{
    ip.protocol == PROTOCOL_TCP
}

/// The segment made of an IPv4 destination and a TCP header.
pub fn segment_from(destination: u32, t: &TcpHeader) -> (r: Segment)
    ensures
        r == segment_spec_of(destination, *t),
{
    Segment { key: build(destination, t.port, t.seq, t.ack, t.size), flags: t.flags }
}

/// Reads a raw frame down to the TCP segment it carries. Frames that are not
/// IPv4, not TCP, not sent from `local`, or too short to parse give `None`.
pub fn classify(frame: &[u8], local: MacAddress) -> (r: Option<Segment>)
    ensures
        r == segment_spec(frame@, local),
        frame@.len() < ETHERNET_HEADER_LEN ==> r is None,
{
    let e = match parse_ethernet(frame) {
        Some(e) => e,
        None => return None,
    };
    if !is_local_ipv4(&e, local) {
        return None;
    }
    let ip = match parse_ipv4(e.payload.as_slice()) {
        Some(ip) => ip,
        None => return None,
    };
    if !is_tcp(&ip) {
        return None;
    }
    match parse_tcp(ip.payload.as_slice()) {
        Some(t) => Some(segment_from(ip.destination, &t)),
        None => None,
    }
}

/// Hands one raw frame to the table: the segment it carries, if any, is
/// observed at the current time; any other frame leaves the table as it was.
pub fn ingest(table: &mut DedupTable, frame: &[u8], local: MacAddress)
    requires
        old(table).wf(),
    ensures
        final(table).wf(),
        segment_spec(frame@, local) is None ==> final(table)@ == old(table)@,
        segment_spec(frame@, local) is Some ==> old(table)@.contains_key(
            segment_spec(frame@, local)->0.key,
        ) ==> final(table)@ == old(table)@.insert(
            segment_spec(frame@, local)->0.key,
            bumped(old(table)@[segment_spec(frame@, local)->0.key]),
        ),
        segment_spec(frame@, local) is Some ==> exists|t: i64|
            final(table)@ == #[trigger] observe_spec(
                old(table)@,
                segment_spec(frame@, local)->0.key,
                segment_spec(frame@, local)->0.flags,
                t,
            ),
{
    match classify(frame, local) {
        Some(s) => table.observe(s.key, s.flags),
        None => {},
    }
}

/// Frames that are not IPv4, that carry no TCP, or that were not sent from
/// the local interface yield no segment, so `ingest` leaves the table as it
/// was.
pub proof fn lemma_foreign_frames_ignored(frame: Seq<u8>, local: MacAddress)
    ensures
        frame.len() >= ETHERNET_HEADER_LEN && be16(frame, 12) != ETHERTYPE_IPV4 ==> segment_spec(
            frame,
            local,
        ) is None,
        frame.len() >= ETHERNET_HEADER_LEN && mac_at(frame, 6) != local ==> segment_spec(
            frame,
            local,
        ) is None,
        ethernet_payload(frame).len() >= IPV4_HEADER_LEN && ethernet_payload(frame)[9]
            != PROTOCOL_TCP ==> segment_spec(frame, local) is None,
        frame.len() < ETHERNET_HEADER_LEN ==> segment_spec(frame, local) is None,
{
}

} // verus!
