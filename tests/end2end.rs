use heatshrink::{decode_all, encode_all, HEATSHRINK_MAX_WINDOW_BITS, HEATSHRINK_MIN_LOOKAHEAD_BITS, HEATSHRINK_MIN_WINDOW_BITS};

const DEFAULT_WINDOW_BITS: u8 = 9;
const DEFAULT_LOOKAHEAD_BITS: u8 = 7;

fn roundtrip(
    input: &[u8],
    window_sz2: u8,
    lookahead_sz2: u8,
    in_read_sz: usize,
    out_read_sz: usize,
    out_buffer_sz: usize,
) -> (Vec<u8>, Vec<u8>) {
    let compressed = encode_all(input, window_sz2, lookahead_sz2, in_read_sz);
    let decompressed = decode_all(&compressed, out_buffer_sz, window_sz2, lookahead_sz2, out_read_sz);
    (compressed, decompressed)
}

/// Deterministic pseudo-random bytes (a linear congruential generator).
fn noise(len: usize, seed: u32) -> Vec<u8> {
    let mut state = seed;
    let mut out = Vec::with_capacity(len);
    for _ in 0..len {
        state = state.wrapping_mul(1_103_515_245).wrapping_add(12_345);
        out.push((state >> 16) as u8);
    }
    out
}

/// Text-like bytes with plenty of repetition.
fn text(len: usize) -> Vec<u8> {
    let words = ["heatshrink ", "window ", "lookahead ", "encoder ", "decoder ", "poll ", "sink ", "\n"];
    let mut out = Vec::new();
    let mut i = 0usize;
    while out.len() < len {
        out.extend_from_slice(words[(i * 7 + i / 3) % words.len()].as_bytes());
        i += 1;
    }
    out.truncate(len);
    out
}

#[test]
fn end2end_sanity_mock() {
    let input_data: Vec<u8> = (0..100).flat_map(|x| vec![x; 10]).collect();
    println!("Input {} bytes: {:02X?}", input_data.len(), input_data.as_slice());

    let compressed = encode_all(&input_data, 8, 4, 16);
    println!("Wrote {} bytes: {:02X?}", compressed.len(), compressed.as_slice());

    let decompressed = decode_all(&compressed, 100, 8, 4, 16);
    println!("Read {} bytes: {:02X?}", decompressed.len(), decompressed.as_slice());

    for i in 0..input_data.len() {
        if i >= decompressed.len() {
            assert_eq!(input_data[i], 0, "{}: {} == {}", i, input_data[i], "EOF");
            continue;
        }
        assert_eq!(input_data[i], decompressed[i], "{}: {} == {}", i, input_data[i], decompressed[i]);
    }
}

#[test]
fn end2end_sanity_param_sweep() {
    let data: Vec<(&'static str, Vec<u8>)> = vec![
        ("text", text(1500)),
        ("random", noise(1200, 7)),
        ("runs", (0..1400u32).map(|i| ((i / 37) % 5) as u8).collect()),
    ];
    let read_size_pairs = [(1usize, 4096usize), (2, 512), (512, 2), (4096, 1)];
    let input_buffer_sizes = [1usize, 64, 8192];
    let mut count = 0;
    for window_sz2 in HEATSHRINK_MIN_WINDOW_BITS..=HEATSHRINK_MAX_WINDOW_BITS {
        for lookahead_sz2 in HEATSHRINK_MIN_LOOKAHEAD_BITS..window_sz2 {
            for (in_read_sz, out_read_sz) in read_size_pairs.iter() {
                for out_buffer_sz in input_buffer_sizes.iter() {
                    for (name, bytes) in data.iter() {
                        let (compressed, decompressed) = roundtrip(
                            bytes,
                            window_sz2,
                            lookahead_sz2,
                            *in_read_sz,
                            *out_read_sz,
                            *out_buffer_sz,
                        );
                        let again = encode_all(bytes, window_sz2, lookahead_sz2, *in_read_sz);
                        assert_eq!(compressed, again, "{} W={} L={}", name, window_sz2, lookahead_sz2);
                        assert_eq!(bytes.as_slice(), decompressed.as_slice(), "{} W={} L={}", name, window_sz2, lookahead_sz2);
                        count += 1;
                    }
                }
            }
        }
    }
    println!("Completed {} configurations", count);
}

#[test]
fn can_pass_fuzz_fail_0() {
    for i in 0..=1024 {
        let zeros = vec![0u8; i];
        let compressed = encode_all(&zeros, DEFAULT_WINDOW_BITS, DEFAULT_LOOKAHEAD_BITS, 1024);
        let decompressed = decode_all(&compressed, 1024, DEFAULT_WINDOW_BITS, DEFAULT_LOOKAHEAD_BITS, 1024);
        assert_eq!(zeros, decompressed, "Failed at i = {}", i);
    }
}
