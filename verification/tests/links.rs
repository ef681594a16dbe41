use copernica::error::PacketError;
use copernica::links::{fec_decode, fec_encode};

fn sample(len: usize) -> Vec<u8> {
    (0..len).map(|i| ((i * 7 + 3) % 256) as u8).collect()
}

#[test]
fn shards_carry_the_chunk_and_six_parity_bytes() {
    let raw = sample(10);
    let sent = fec_encode(&raw).unwrap();
    assert_eq!(sent.len(), 16);
    assert_eq!(&sent[..10], &raw[..]);
    assert_ne!(&sent[10..], &[0u8; 6][..]);
}

#[test]
fn a_frame_is_cut_into_chunks_of_249_bytes() {
    let raw = sample(600);
    let sent = fec_encode(&raw).unwrap();
    assert_eq!(sent.len(), 618);
    assert_eq!(&sent[0..249], &raw[0..249]);
    assert_eq!(&sent[255..504], &raw[249..498]);
    assert_eq!(&sent[510..612], &raw[498..600]);
    assert_eq!(fec_decode(&sent).unwrap(), raw);
}

#[test]
fn a_frame_of_exactly_one_chunk() {
    let raw = sample(249);
    let sent = fec_encode(&raw).unwrap();
    assert_eq!(sent.len(), 255);
    assert_eq!(fec_decode(&sent).unwrap(), raw);
}

#[test]
fn the_empty_frame() {
    assert_eq!(fec_encode(&[]).unwrap(), Vec::<u8>::new());
    assert_eq!(fec_decode(&[]).unwrap(), Vec::<u8>::new());
}

#[test]
fn three_wrong_bytes_per_shard_are_repaired() {
    let raw = sample(600);
    let mut sent = fec_encode(&raw).unwrap();
    for at in [0usize, 100, 254, 255, 300, 509, 510, 611, 617] {
        sent[at] = sent[at].wrapping_add(1);
    }
    assert_eq!(fec_decode(&sent).unwrap(), raw);
}

#[test]
fn a_shard_damaged_beyond_repair_is_corrupt() {
    let raw = sample(600);
    let mut sent = fec_encode(&raw).unwrap();
    for at in 0..40usize {
        sent[at] = !sent[at];
    }
    assert_eq!(fec_decode(&sent), Err(PacketError::PacketCorrupt));
}

#[test]
fn a_shard_too_short_for_a_payload_is_corrupt() {
    assert_eq!(fec_decode(&[1, 2, 3]), Err(PacketCorrupt()));
    assert_eq!(fec_decode(&[0, 0, 0, 0, 0, 0]), Err(PacketCorrupt()));
    let mut sent = fec_encode(&sample(249)).unwrap();
    sent.extend_from_slice(&[1, 2, 3, 4]);
    assert_eq!(fec_decode(&sent), Err(PacketCorrupt()));
}

#[allow(non_snake_case)]
fn PacketCorrupt() -> PacketError {
    PacketError::PacketCorrupt
}

#[test]
fn the_largest_frame_fills_the_mtu() {
    let sent = fec_encode(&sample(1436)).unwrap();
    assert_eq!(sent.len(), 1472);
    assert_eq!(fec_decode(&sent).unwrap(), sample(1436));
    let sent = fec_encode(&sample(1400)).unwrap();
    assert_eq!(sent.len(), 1436);
}

#[test]
fn a_frame_beyond_the_mtu_is_refused() {
    assert_eq!(fec_encode(&sample(1437)), Err(PacketError::MalformedPacket));
    assert_eq!(fec_encode(&sample(5000)), Err(PacketError::MalformedPacket));
}
