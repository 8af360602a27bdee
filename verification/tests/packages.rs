use cs140::ack::{
    AckPackage, BYTE_IN_ADDRESS, BYTE_IN_ENDING_AND_ACK, BYTE_IN_LENGTH, BYTE_IN_OFFSET,
};
use cs140::bit_text::bits_from_text;
use cs140::bits::Bits;
use cs140::checksum::CHECKSUM;
use cs140::encoding::{decode_4b5b, decode_nrzi, encode_4b5b, encode_nrzi};
use cs140::erasure::{erase_redundancy, make_redundancy};
use cs140::padding::padding;
use cs140::physical::PhysicalPackage;
use cs140::redundancy::RedundancyPackage;
use cs140::tcp::TCPReceivingStatus;

/// Flips bit `index` (most significant bit of the first byte first) of some bytes.
fn flip_bit(bytes: &[u8], index: usize) -> Vec<u8> {
    let mut corrupted = bytes.to_vec();
    corrupted[index / 8] ^= 0x80 >> (index % 8);
    corrupted
}

#[test]
fn test_padding() {
    let vec: Vec<u8> = padding(100000);
    assert!(vec.len() > 0)
}

#[test]
fn test_ack_package() {
    let data: Vec<u8> = padding(100);
    let package = AckPackage::new(&data, 100, 30, false, true, 1, 2);
    assert_eq!(
        package.len(),
        100 + BYTE_IN_ENDING_AND_ACK + BYTE_IN_LENGTH + BYTE_IN_ADDRESS + CHECKSUM.len() + BYTE_IN_OFFSET
    );
    assert_eq!(package.offset(), 30);
    assert_eq!(package.has_ack(), true);
    assert_eq!(package.has_more_fragments(), false);
    assert_eq!(package.address(), (1, 2));
    assert_eq!(package.extract(), data);

    let encoded_package = Bits::from_vec(package.data.clone());
    assert_eq!(AckPackage::build_from_raw(encoded_package), Some(package.clone()));
    for index in 0..package.len() * 8 {
        let corrupted_package = Bits::from_vec(flip_bit(&package.data, index));
        assert_eq!(AckPackage::build_from_raw(corrupted_package), None);
    }
}

#[test]
fn test_bitstore() {
    let original: Vec<u8> = vec![33, 44, 127, 204];
    let bv: Bits = Bits::from_vec(original);
    let encoded_nrzi = encode_nrzi(&bv);
    let decoded_nrzi = decode_nrzi(&encoded_nrzi);
    assert_eq!(bv, decoded_nrzi);
    let encoded_4b5b = encode_4b5b(&bv);
    let decoded_4b5b = decode_4b5b(&encoded_4b5b);
    assert_eq!(bv, decoded_4b5b);
    let encoded_4b5b_nrzi = encode_4b5b(&encoded_nrzi);
    let decoded_4b5b_nrzi = decode_4b5b(&encoded_4b5b_nrzi);
    assert_eq!(bv, decode_nrzi(&decoded_4b5b_nrzi));
}

#[test]
fn test_redundancy_package() {
    let data: Vec<u8> = padding(100);
    let package = RedundancyPackage::new(&data, 100, false, 1, 2);
    assert_eq!(package.len(), 100);
    assert_eq!(package.has_more_fragments(), false);
    assert_eq!(package.address(), (1, 2));
    assert_eq!(package.data(), &data[..]);

    let encoded_package = Bits::from_vec(package.data.clone());
    assert_eq!(
        RedundancyPackage::from_physical(PhysicalPackage::from(encoded_package)),
        Some(package.clone())
    );
    for index in 0..package.data.len() * 8 {
        let corrupted_package = Bits::from_vec(flip_bit(&package.data, index));
        assert_eq!(RedundancyPackage::from_physical(PhysicalPackage::from(corrupted_package)), None);
    }
}

#[test]
fn test_set_ack() {
    let mut s = TCPReceivingStatus { data_received: vec![], range_ack: Vec::new(), sequence_count: 0 };
    s.set_ack(0);
    s.set_ack(1);
    s.set_ack(4);
    s.set_ack(5);
    s.set_ack(9);
    s.set_ack(11);
    s.set_ack(12);
    assert_eq!(s.range_ack, vec![0..2, 4..6, 9..10, 11..13]);
    assert_eq!(s.get_ack_missing(), vec![2..4, 6..9, 10..11]);
    s.set_ack(2);
    assert_eq!(s.range_ack, vec![0..3, 4..6, 9..10, 11..13]);
    assert_eq!(s.get_ack_missing(), vec![3..4, 6..9, 10..11]);
    s.set_ack(3);
    assert_eq!(s.range_ack, vec![0..6, 9..10, 11..13]);
    assert_eq!(s.get_ack_missing(), vec![6..9, 10..11]);
}

#[test]
fn main() {
    let data: Vec<u8> = (0..=255u8).cycle().take(10000).collect();
    // A ratio of 1.0: as many parity shards as data shards (10000 bytes in shards of 999).
    let (master_copy, r) = make_redundancy(&data, 1000, 11);

    let mut shards: Vec<Option<Vec<u8>>> = master_copy.iter().cloned().map(Some).collect();

    shards[0] = None;
    shards[4] = None;
    shards[3] = None;
    shards[7] = None;
    let formatted = erase_redundancy(shards, r, 10000).unwrap();
    assert_eq!(data, formatted)
}

const SIZE: usize = 10000;

#[test]
fn read_from_bit_file() {
    // The contents of a bit file: SIZE characters, each '0' or '1', and a closing newline.
    let mut text: Vec<u8> = (0..SIZE).map(|i| if (i * 7 + i / 3) % 5 < 2 { b'1' } else { b'0' }).collect();
    text.push(b'\n');
    let data = bits_from_text(&text, SIZE);
    println!("{:?}", data);
    assert_eq!(data.len(), SIZE / 8);
    for i in 0..SIZE {
        let bit = (data[i / 8] >> (7 - i % 8)) & 1 == 1;
        assert_eq!(bit, text[i] == b'1');
    }
}

#[test]
fn a_short_frame_is_refused() {
    for n in 0..7u8 {
        let package = RedundancyPackage { data: (0..n).collect() };
        assert!(!package.validate_checksum());
    }
    let mut bits = Bits::with_capacity(16);
    for _ in 0..16 {
        bits.push(false);
    }
    assert_eq!(RedundancyPackage::from_physical(PhysicalPackage(bits)), None);
}
