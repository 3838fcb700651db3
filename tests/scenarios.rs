use heatshrink::{
    decode_all, encode_all, HSDFinishRes, HSDPollRes, HSDSinkRes, HSEFinishRes, HSEPollRes,
    HSESinkRes, HeatshrinkDecoder, HeatshrinkEncoder,
};

fn noise(len: usize, seed: u32) -> Vec<u8> {
    let mut state = seed;
    let mut out = Vec::with_capacity(len);
    for _ in 0..len {
        state = state.wrapping_mul(1_103_515_245).wrapping_add(12_345);
        out.push((state >> 16) as u8);
    }
    out
}

fn mixed(len: usize) -> Vec<u8> {
    (0..len).map(|i| ((i * i / 7 + i / 13) % 11) as u8).collect()
}

fn round_trip(input: &[u8], w: u8, l: u8) -> Vec<u8> {
    let compressed = encode_all(input, w, l, 64);
    decode_all(&compressed, 64, w, l, 64)
}

/// Streams `input` through an encoder one byte at a time, polling into a one-byte buffer.
fn encode_byte_at_a_time(input: &[u8], w: u8, l: u8) -> Vec<u8> {
    let mut encoder = HeatshrinkEncoder::new(w, l).unwrap();
    let mut out = Vec::new();
    let mut one = [0u8; 1];
    let mut drain = |encoder: &mut HeatshrinkEncoder, out: &mut Vec<u8>| loop {
        match encoder.poll(&mut one) {
            HSEPollRes::Empty(n) => {
                out.extend_from_slice(&one[..n]);
                break;
            }
            HSEPollRes::More(n) => out.extend_from_slice(&one[..n]),
            e => panic!("unexpected {:?}", e),
        }
    };
    for b in input {
        assert_eq!(encoder.sink(&[*b]), HSESinkRes::Sunk(1));
        drain(&mut encoder, &mut out);
    }
    while encoder.finish() == HSEFinishRes::More {
        drain(&mut encoder, &mut out);
    }
    out
}

/// Streams `input` through a decoder one byte at a time, polling into a one-byte buffer.
fn decode_byte_at_a_time(input: &[u8], w: u8, l: u8) -> Vec<u8> {
    let mut decoder = HeatshrinkDecoder::new(1, w, l).unwrap();
    let mut out = Vec::new();
    let mut one = [0u8; 1];
    let mut drain = |decoder: &mut HeatshrinkDecoder, out: &mut Vec<u8>| loop {
        match decoder.poll(&mut one) {
            HSDPollRes::Empty(n) => {
                out.extend_from_slice(&one[..n]);
                break;
            }
            HSDPollRes::More(n) => out.extend_from_slice(&one[..n]),
            e => panic!("unexpected {:?}", e),
        }
    };
    for b in input {
        assert_eq!(decoder.sink(&[*b]), HSDSinkRes::Sunk(1));
        drain(&mut decoder, &mut out);
    }
    while decoder.finish() == HSDFinishRes::More {
        drain(&mut decoder, &mut out);
    }
    out
}

#[test]
fn empty_input_encodes_and_decodes_to_empty() {
    let compressed = encode_all(&[], 9, 7, 16);
    assert!(compressed.is_empty());
    let decompressed = decode_all(&compressed, 16, 9, 7, 16);
    assert!(decompressed.is_empty());
}

#[test]
fn every_single_byte_round_trips() {
    for b in 0..=255u8 {
        assert_eq!(round_trip(&[b], 9, 7), vec![b]);
        assert_eq!(round_trip(&[b], 4, 3), vec![b]);
    }
}

#[test]
fn runs_of_one_byte_round_trip() {
    for n in 1..=1024usize {
        let run = vec![0xA5u8; n];
        assert_eq!(round_trip(&run, 8, 4), run, "n = {}", n);
    }
}

#[test]
fn lengths_around_the_window_round_trip() {
    for &(w, l) in [(4u8, 3u8), (8, 4), (9, 7), (12, 6), (14, 13)].iter() {
        let n = 1usize << w;
        for &len in [n - 1, n, n + 1, 2 * n].iter() {
            let data = mixed(len);
            assert_eq!(round_trip(&data, w, l), data, "W={} L={} len={}", w, l, len);
            let data = noise(len, len as u32);
            assert_eq!(round_trip(&data, w, l), data, "W={} L={} len={}", w, l, len);
        }
    }
}

#[test]
fn incompressible_data_round_trips() {
    let data = noise(5000, 12345);
    let compressed = encode_all(&data, 9, 7, 512);
    assert!(compressed.len() > data.len());
    assert_eq!(decode_all(&compressed, 512, 9, 7, 512), data);
}

#[test]
fn chunk_sizes_do_not_change_the_result() {
    let data = mixed(3000);
    let reference = encode_all(&data, 8, 5, 4096);
    for &read_sz in [1usize, 2, 8, 64, 512, 4096].iter() {
        let compressed = encode_all(&data, 8, 5, read_sz);
        assert_eq!(compressed, reference, "read_sz = {}", read_sz);
        for &ibs in [1usize, 64, 512, 8192].iter() {
            for &out_sz in [1usize, 2, 8, 64, 512, 4096].iter() {
                assert_eq!(decode_all(&compressed, ibs, 8, 5, out_sz), data, "ibs = {} out = {}", ibs, out_sz);
            }
        }
    }
}

#[test]
fn every_legal_parameter_pair_round_trips() {
    let data = mixed(700);
    for w in 4..=14u8 {
        for l in 3..w {
            assert_eq!(round_trip(&data, w, l), data, "W={} L={}", w, l);
        }
    }
}

#[test]
fn zeros_compress_and_round_trip() {
    let zeros = vec![0u8; 1024];
    let compressed = encode_all(&zeros, 9, 7, 64);
    assert!(compressed.len() < 1024);
    assert_eq!(decode_all(&compressed, 64, 9, 7, 64), zeros);
}

#[test]
fn counting_pattern_round_trips() {
    let data: Vec<u8> = (0..4).flat_map(|_| 0..=255u8).collect();
    assert_eq!(data.len(), 1024);
    assert_eq!(round_trip(&data, 8, 4), data);
}

#[test]
fn distinct_bytes_make_a_literal_stream() {
    let data: Vec<u8> = (1..=10).collect();
    let compressed = encode_all(&data, 8, 4, 16);
    assert!(compressed.len() >= 11);
    assert_eq!(compressed.len(), 12);
    assert_eq!(decode_all(&compressed, 16, 8, 4, 16), data);
}

#[test]
fn one_byte_at_a_time_matches_bulk() {
    let data = mixed(2000);
    let bulk = encode_all(&data, 9, 7, 4096);
    let streamed = encode_byte_at_a_time(&data, 9, 7);
    assert_eq!(streamed, bulk);
    assert_eq!(decode_byte_at_a_time(&streamed, 9, 7), data);
    assert_eq!(decode_all(&bulk, 4096, 9, 7, 4096), data);
}

#[test]
fn decoding_with_other_parameters_terminates() {
    let data = mixed(600);
    let compressed = encode_all(&data, 9, 7, 64);
    let other = decode_all(&compressed, 64, 9, 6, 64);
    assert_eq!(decode_all(&compressed, 64, 9, 7, 64), data);
    println!("decoded {} bytes under other parameters", other.len());
}

#[test]
fn a_run_encodes_to_a_literal_and_a_back_reference() {
    // 'A', then distance 1 and length 9 under W=8, L=4: 22 bits padded to 24.
    let data = vec![0x41u8; 10];
    let compressed = encode_all(&data, 8, 4, 16);
    assert_eq!(compressed, vec![0xA0, 0x80, 0x20]);
    assert_eq!(decode_all(&compressed, 16, 8, 4, 16), data);
}

#[test]
fn a_back_reference_before_the_start_reads_zeros() {
    // Tag 0, distance 5, length 2, then three bits of padding.
    assert_eq!(decode_all(&[0x02, 0x08], 4, 8, 4, 4), vec![0, 0]);
}

#[test]
fn decoder_reports_errors_and_full_buffer() {
    assert!(HeatshrinkDecoder::new(0, 8, 4).is_none());
    assert!(HeatshrinkDecoder::new(16, 15, 4).is_none());
    assert!(HeatshrinkDecoder::new(16, 8, 8).is_none());
    let mut decoder = HeatshrinkDecoder::new(4, 8, 4).unwrap();
    assert_eq!(decoder.sink(&[]), HSDSinkRes::ErrorNull);
    let mut none: [u8; 0] = [];
    assert_eq!(decoder.poll(&mut none), HSDPollRes::ErrorNull);
    assert_eq!(decoder.sink(&[1, 2, 3, 4, 5, 6]), HSDSinkRes::Sunk(4));
    assert_eq!(decoder.sink(&[7]), HSDSinkRes::Full);
    assert_eq!(decoder.finish(), HSDFinishRes::More);
}

#[test]
fn decoder_finishes_at_once_on_no_input() {
    let decoder = HeatshrinkDecoder::new(8, 8, 4).unwrap();
    assert_eq!(decoder.finish(), HSDFinishRes::Done);
}

/// Packs bits, high bit first, padding the last byte with zeros.
fn pack(bits: &[bool]) -> Vec<u8> {
    let mut out = Vec::new();
    for chunk in bits.chunks(8) {
        let mut v = 0u8;
        for (i, &b) in chunk.iter().enumerate() {
            if b {
                v |= 0x80 >> i;
            }
        }
        out.push(v);
    }
    out
}

fn push_field(bits: &mut Vec<bool>, value: usize, width: usize) {
    for i in (0..width).rev() {
        bits.push((value >> i) & 1 == 1);
    }
}

#[test]
fn a_back_reference_reaches_the_whole_window() {
    // W=4, L=3: sixteen literals, then distance 16 (the window size) and length 3.
    let mut bits = Vec::new();
    let literals: Vec<u8> = (100..116).collect();
    for &b in &literals {
        bits.push(true);
        push_field(&mut bits, b as usize, 8);
    }
    bits.push(false);
    push_field(&mut bits, 16 - 1, 4);
    push_field(&mut bits, 3 - 1, 3);
    let mut expected = literals.clone();
    expected.extend_from_slice(&[100, 101, 102]);
    assert_eq!(decode_all(&pack(&bits), 3, 4, 3, 5), expected);
}

#[test]
fn encoding_twice_gives_the_same_bytes() {
    let data = mixed(2500);
    for &(w, l) in [(4u8, 3u8), (9, 7), (13, 12)].iter() {
        let a = encode_all(&data, w, l, 7);
        let b = encode_all(&data, w, l, 1000);
        assert_eq!(a, b);
    }
}

fn literal_stream(bytes: &[u8]) -> Vec<u8> {
    let mut bits = Vec::new();
    for &b in bytes {
        bits.push(true);
        push_field(&mut bits, b as usize, 8);
    }
    pack(&bits)
}

#[test]
fn matches_no_longer_than_the_break_even_point_stay_literals() {
    // ceil(13 / 8) = 2 under W=8, L=4: a repeat of two bytes is not worth a back-reference.
    let data = [1u8, 2, 1, 2];
    assert_eq!(encode_all(&data, 8, 4, 16), literal_stream(&data));
    // ceil(17 / 8) = 3 under W=9, L=7: a repeat of three bytes is not either.
    let data = [1u8, 2, 3, 1, 2, 3];
    assert_eq!(encode_all(&data, 9, 7, 16), literal_stream(&data));
    assert_eq!(decode_all(&literal_stream(&data), 16, 9, 7, 16), data.to_vec());
}

#[test]
fn a_match_just_past_the_break_even_point_is_a_back_reference() {
    // Under W=8, L=4 a repeat of three bytes is taken: 3 literals, then distance 3, length 3.
    let data = [1u8, 2, 3, 1, 2, 3];
    let mut bits = Vec::new();
    for &b in &data[..3] {
        bits.push(true);
        push_field(&mut bits, b as usize, 8);
    }
    bits.push(false);
    push_field(&mut bits, 3 - 1, 8);
    push_field(&mut bits, 3 - 1, 4);
    assert_eq!(encode_all(&data, 8, 4, 16), pack(&bits));
}
