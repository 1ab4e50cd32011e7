use vstd::prelude::*;

verus! {

/// The identity of a transmitted TCP segment: two segments with equal
/// fingerprints are taken to be the same segment, whatever their flags.
#[derive(PartialEq, Eq, Structural, Clone, Copy, Debug, Hash)]
pub struct Fingerprint {
    /// IPv4 destination address, most significant octet first.
    pub destination: u32,
    pub port: u16,
    pub seq: u32,
    pub ack: u32,
    pub payload_size: usize,
}

/// The fingerprint made of the five given components.
pub open spec fn fingerprint_of(
    destination: u32,
    port: u16,
    seq: u32,
    ack: u32,
    payload_size: usize,
) -> Fingerprint {
    Fingerprint { destination, port, seq, ack, payload_size }
}

/// Builds the fingerprint of a segment from its five components.
pub fn build(destination: u32, port: u16, seq: u32, ack: u32, payload_size: usize) -> (r:
    Fingerprint)
    ensures
        r == fingerprint_of(destination, port, seq, ack, payload_size),
        r.destination == destination,
        r.port == port,
        r.seq == seq,
        r.ack == ack,
        r.payload_size == payload_size,
{
    Fingerprint { destination, port, seq, ack, payload_size }
}

/// Two component tuples give the same fingerprint exactly when they agree in
/// every component: a difference in any one of them yields distinct keys.
pub proof fn lemma_fingerprint_injective(
    d1: u32,
    p1: u16,
    s1: u32,
    a1: u32,
    n1: usize,
    d2: u32,
    p2: u16,
    s2: u32,
    a2: u32,
    n2: usize,
)
    ensures
        (fingerprint_of(d1, p1, s1, a1, n1) == fingerprint_of(d2, p2, s2, a2, n2)) <==> (d1 == d2
            && p1 == p2 && s1 == s2 && a1 == a2 && n1 == n2),
{
}

} // verus!
