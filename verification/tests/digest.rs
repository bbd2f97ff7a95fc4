use there_can_only_be_one::digest::{hash_region, RegionHasher};
use there_can_only_be_one::platform::{chunk_size, DEFAULT_CHUNK, MAX_CHUNK};

fn sample(len: usize) -> Vec<u8> {
    (0..len).map(|i| (i % 251) as u8).collect()
}

#[test]
fn hashes_are_plain_blake3() {
    let empty = [
        0xaf, 0x13, 0x49, 0xb9, 0xf5, 0xf9, 0xa1, 0xa6, 0xa0, 0x40, 0x4d, 0xea, 0x36, 0xdc, 0xc9,
        0x49, 0x9b, 0xcb, 0x25, 0xc9, 0xad, 0xc1, 0x12, 0xb7, 0xcc, 0x9a, 0x93, 0xca, 0xe4, 0x1f,
        0x32, 0x62,
    ];
    assert_eq!(hash_region(b"", 0, u64::MAX).bytes, empty);
    let data = sample(100_000);
    assert_eq!(&hash_region(&data, 0, u64::MAX).bytes, blake3::hash(&data).as_bytes());
}

#[test]
fn regions_are_clipped_to_the_contents() {
    let data = sample(10_000);
    let hash = |bytes: &[u8]| *blake3::hash(bytes).as_bytes();
    assert_eq!(hash_region(&data, 100, 50).bytes, hash(&data[100..150]));
    assert_eq!(hash_region(&data, 9_990, 50).bytes, hash(&data[9_990..]));
    assert_eq!(hash_region(&data, 10_000, 50).bytes, hash(b""));
    assert_eq!(hash_region(&data, u64::MAX, u64::MAX).bytes, hash(b""));
    assert_eq!(hash_region(&data, 5, u64::MAX).bytes, hash(&data[5..]));
    assert_eq!(hash_region(&data, 5, 0).bytes, hash(b""));
}

#[test]
fn pieces_add_up_to_the_region() {
    let data = sample(10_000);
    for piece in [1, 7, 1024, 4096, 20_000] {
        let mut hasher = RegionHasher::new(9_000);
        for part in data.chunks(piece) {
            hasher.feed(part);
        }
        assert_eq!(hasher.wanted(piece), 0);
        assert_eq!(hasher.finish().bytes, hash_region(&data, 0, 9_000).bytes);
    }
}

#[test]
fn no_more_is_wanted_than_the_region_holds() {
    let mut hasher = RegionHasher::new(10);
    assert_eq!(hasher.wanted(4), 4);
    hasher.feed(b"12345678");
    assert_eq!(hasher.wanted(4), 2);
    assert_eq!(hasher.wanted(1), 1);
    hasher.feed(b"9abc");
    assert_eq!(hasher.wanted(4), 0);
    assert_eq!(&hasher.finish().bytes, blake3::hash(b"123456789a").as_bytes());
}

#[test]
fn chunks_follow_the_block_size_up_to_a_ceiling() {
    assert_eq!(MAX_CHUNK, 65_536);
    assert_eq!(DEFAULT_CHUNK, 4096);
    assert_eq!(chunk_size(None), 4096);
    assert_eq!(chunk_size(Some(0)), 4096);
    assert_eq!(chunk_size(Some(512)), 512);
    assert_eq!(chunk_size(Some(65_536)), 65_536);
    assert_eq!(chunk_size(Some(1 << 20)), 65_536);
}
