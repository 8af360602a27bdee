use rand::{Rng, SeedableRng};
use cs140::bit_text::bits_from_text;
use cs140::bits::Bits;
use cs140::checksum::{Checksum, CHECKSUM};
use cs140::descriptor::{SampleFormat, SoundDescriptor};
use cs140::encoding::{decode_4b5b, decode_nrzi, encode_4b5b, encode_nrzi};
use cs140::fields::{push_le, read_le};
use cs140::ip::{fragment, Reassembler};
use cs140::nat_server::NatServer;
use cs140::padding::padding_range;
use cs140::physical::PhysicalPackage;

fn bits_of(b: &Bits) -> Vec<bool> {
    (0..b.len()).map(|i| b.get(i)).collect()
}

#[test]
fn checksums_of_the_standard_check_string() {
    assert_eq!(CHECKSUM, Checksum::CRC16);
    assert_eq!(Checksum::CRC16.checksum(b"123456789"), 0x906E);
    assert_eq!(Checksum::CRC32.checksum(b"123456789"), 0xCBF43926);
    assert_eq!(Checksum::CRC64.checksum(b"123456789"), 0x995DC9BBDF1939FA);
    assert_eq!(Checksum::CRC16.len(), 2);
    assert_eq!(Checksum::CRC32.len(), 4);
    assert_eq!(Checksum::CRC64.len(), 8);
}

#[test]
fn four_five_code_of_a_zero_byte() {
    let encoded = encode_4b5b(&Bits::from_vec(vec![0x00]));
    let expected: Vec<bool> = "1111011110".chars().map(|c| c == '1').collect();
    assert_eq!(bits_of(&encoded), expected);
    assert_eq!(decode_4b5b(&encoded), Bits::from_vec(vec![0x00]));
}

#[test]
fn nrzi_flips_at_ones() {
    let encoded = encode_nrzi(&Bits::from_vec(vec![0b1011_0000]));
    let expected: Vec<bool> = "11011111".chars().map(|c| c == '1').collect();
    assert_eq!(bits_of(&encoded), expected);
    assert_eq!(decode_nrzi(&encoded), Bits::from_vec(vec![0b1011_0000]));
}

#[test]
fn line_code_round_trip() {
    let bits = Bits::from_vec(vec![0xde, 0xad, 0xbe, 0xef]);
    let package = PhysicalPackage(Bits::from_vec(vec![0xde, 0xad, 0xbe, 0xef]));
    let line = package.to_samples();
    assert_eq!(PhysicalPackage::from_bits(&line).0, bits);
}

#[test]
fn little_endian_fields() {
    let mut data = vec![7];
    push_le(&mut data, 0x1234, 2);
    assert_eq!(data, vec![7, 0x34, 0x12]);
    assert_eq!(read_le(&data, 1, 3), 0x1234);
}

#[test]
fn fragments_reassemble_into_the_packet() {
    let data: Vec<u8> = (0..250u8).collect();
    let frames = fragment(&data, 64, 3, 4);
    assert_eq!(frames.len(), 4);
    let mut receiver = Reassembler::new(4);
    let mut got = None;
    for f in frames {
        if let Some(p) = receiver.receive_fragment(f) {
            got = Some(p.data);
        }
    }
    assert_eq!(got, Some(data));
}

#[test]
fn a_side_drops_its_own_packets() {
    let data: Vec<u8> = vec![1, 2, 3];
    let frames = fragment(&data, 64, 3, 4);
    let mut own = Reassembler::new(3);
    let mut got = None;
    for f in frames {
        got = own.receive_fragment(f).map(|p| p.data);
    }
    assert_eq!(got, None);
}

#[test]
fn sample_sizes() {
    assert_eq!(SampleFormat::I16.sample_size(), 16);
    assert_eq!(SampleFormat::U16.sample_size(), 16);
    assert_eq!(SampleFormat::F32.sample_size(), 32);
    let d = SoundDescriptor { channels: 1, sample_rate: 48000, sample_format: SampleFormat::F32 };
    assert_eq!(d.sample_format.sample_size() * d.channels as usize, 32);
}

#[test]
fn random_padding_stays_in_range() {
    let p = padding_range(3, 5, 1000);
    assert_eq!(p.len(), 1000);
    assert!(p.iter().all(|&b| (3..5).contains(&b)));
}

#[test]
fn bit_text_skips_other_characters() {
    assert_eq!(bits_from_text(b"0100 0001\n01", 8), vec![0x41]);
    assert_eq!(bits_from_text(b"1", 8), vec![0x80]);
}

#[test]
fn nat_server_keeps_its_addresses() {
    let s = NatServer::new("10.0.0.1", 80, "10.0.0.2", 8080);
    assert_eq!(s.listen_address, "10.0.0.1");
    assert_eq!(s.listen_port, 80);
    assert_eq!(s.connect_address, "10.0.0.2");
    assert_eq!(s.connect_port, 8080);
}

#[test]
fn test_data_is_seeded() {
    let a = cs140::sample_data::generate_random_data();
    let b = cs140::sample_data::generate_random_data();
    assert_eq!(a.len(), 1250);
    assert_eq!(a, b);
}

#[test]
fn data_is_the_stream_of_seed_two() {
    let mut rng = rand_pcg::Lcg128Xsl64::seed_from_u64(2);
    let expected: Vec<u8> = (0..1250).map(|_| rng.gen::<u8>()).collect();
    assert_eq!(cs140::sample_data::generate_random_data(), expected);
    assert!(expected.iter().any(|b| *b != expected[0]));
}

#[test]
fn a_short_last_chunk_comes_back_zero_extended() {
    let mut bits = Bits::with_capacity(5);
    for b in [true, false, true, true, true] {
        bits.push(b);
    }
    let decoded = decode_4b5b(&encode_4b5b(&bits));
    assert_eq!(
        bits_of(&decoded),
        vec![true, false, true, true, false, false, false, true]
    );
}
