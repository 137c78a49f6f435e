use eleanor_server::hashing::{hash_packets, ContentHasher};

#[test]
fn empty_input_hashes_to_one() {
    let packets: Vec<Vec<u8>> = vec![];
    assert_eq!(hash_packets(&packets), 1);
}

#[test]
fn known_adler32_value() {
    // The Adler-32 checksum of "Wikipedia" is the classic worked example.
    let packets = vec![b"Wikipedia".to_vec()];
    assert_eq!(hash_packets(&packets), 0x11E60398);
}

#[test]
fn packet_boundaries_do_not_matter() {
    let whole = vec![b"Wikipedia".to_vec()];
    let split = vec![b"Wiki".to_vec(), b"ped".to_vec(), b"ia".to_vec()];
    assert_eq!(hash_packets(&whole), hash_packets(&split));
}

#[test]
fn empty_packets_do_not_matter() {
    let with_empty = vec![vec![], b"abc".to_vec(), vec![]];
    let plain = vec![b"abc".to_vec()];
    assert_eq!(hash_packets(&with_empty), hash_packets(&plain));
}

#[test]
fn matches_reference_adler32() {
    let data: Vec<u8> = (0u32..4096).map(|i| (i * 7 + 13) as u8).collect();
    let mut reference = adler::Adler32::new();
    reference.write_slice(&data);
    let packets = vec![data.clone()];
    assert_eq!(hash_packets(&packets), reference.checksum());
}

#[test]
fn incremental_hasher_agrees_with_hash_packets() {
    let packets = vec![b"first packet".to_vec(), b"second packet".to_vec()];
    let mut h = ContentHasher::new();
    for p in &packets {
        h.update(p.as_slice());
    }
    assert_eq!(h.finish(), hash_packets(&packets));
}

#[test]
fn large_input_matches_reference() {
    // Long enough that both running sums wrap past the modulus many times.
    let data: Vec<u8> = (0u32..100_000).map(|i| (i % 251) as u8).collect();
    let mut reference = adler::Adler32::new();
    reference.write_slice(&data);
    assert_eq!(hash_packets(&vec![data]), reference.checksum());
}
