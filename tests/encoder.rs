use heatshrink::{HSEFinishRes, HSEPollRes, HSESinkRes, HeatshrinkEncoder};

#[test]
fn sanity() {
    let mut encoder = HeatshrinkEncoder::new(8, 4).expect("Failed to create encoder");
    let input_data: Vec<u8> = vec![1, 2, 3, 4, 5, 6, 7, 8, 9, 10];
    let sink_res = encoder.sink(&input_data);
    println!("Sink result: {:?}", sink_res);

    let mut output_buffer: Vec<u8> = vec![0; 32];
    let mut written = 0;
    let poll_res = encoder.poll(&mut output_buffer);
    println!("Poll result: {:?}", poll_res);
    match poll_res {
        HSEPollRes::Empty(sz) | HSEPollRes::More(sz) => {
            written += sz;
        }
        _ => {}
    }

    let mut finish_res = encoder.finish();
    println!("Finish result: {:?}", finish_res);
    while finish_res == HSEFinishRes::More {
        let poll_res = encoder.poll(&mut output_buffer);
        println!("Poll result: {:?}", poll_res);
        match poll_res {
            HSEPollRes::Empty(sz) | HSEPollRes::More(sz) => {
                written += sz;
            }
            _ => {}
        }

        finish_res = encoder.finish();
        println!("Finish result: {:?}", finish_res);
    }

    println!(
        "Wrote {} bytes: {:2X?}",
        written,
        output_buffer[..written].to_vec()
    );
    assert_eq!(sink_res, HSESinkRes::Sunk(10));
}

#[test]
fn encoder_rejects_invalid_parameters() {
    assert!(HeatshrinkEncoder::new(3, 3).is_none());
    assert!(HeatshrinkEncoder::new(15, 7).is_none());
    assert!(HeatshrinkEncoder::new(8, 2).is_none());
    assert!(HeatshrinkEncoder::new(8, 8).is_none());
    assert!(HeatshrinkEncoder::new(4, 3).is_some());
    assert!(HeatshrinkEncoder::new(14, 13).is_some());
}

#[test]
fn encoder_sink_after_finish_is_misuse() {
    let mut encoder = HeatshrinkEncoder::new(8, 4).unwrap();
    assert_eq!(encoder.finish(), HSEFinishRes::More);
    assert_eq!(encoder.sink(&[1, 2, 3]), HSESinkRes::ErrorMisuse);
}

#[test]
fn encoder_sink_into_full_window_is_misuse() {
    let mut encoder = HeatshrinkEncoder::new(4, 3).unwrap();
    let data = [7u8; 40];
    assert_eq!(encoder.sink(&data), HSESinkRes::Sunk(16));
    assert_eq!(encoder.sink(&data), HSESinkRes::ErrorMisuse);
}

#[test]
fn encoder_poll_with_empty_buffer_is_misuse() {
    let mut encoder = HeatshrinkEncoder::new(8, 4).unwrap();
    let mut out: [u8; 0] = [];
    assert_eq!(encoder.poll(&mut out), HSEPollRes::ErrorMisuse);
}

#[test]
fn encoder_emits_pure_literal_stream() {
    // Ten literals: ten tag bits of 1 followed by the byte, nine bits each, padded.
    let mut encoder = HeatshrinkEncoder::new(8, 4).unwrap();
    let input: Vec<u8> = vec![1, 2, 3, 4, 5, 6, 7, 8, 9, 10];
    assert_eq!(encoder.sink(&input), HSESinkRes::Sunk(10));
    let mut out = vec![0u8; 64];
    let mut written = 0;
    while encoder.finish() == HSEFinishRes::More {
        match encoder.poll(&mut out[written..]) {
            HSEPollRes::Empty(n) | HSEPollRes::More(n) => written += n,
            e => panic!("unexpected {:?}", e),
        }
    }
    let mut bits: Vec<bool> = Vec::new();
    for b in &input {
        bits.push(true);
        for i in (0..8).rev() {
            bits.push((b >> i) & 1 == 1);
        }
    }
    while bits.len() % 8 != 0 {
        bits.push(false);
    }
    let mut expected: Vec<u8> = Vec::new();
    for chunk in bits.chunks(8) {
        let mut v = 0u8;
        for &bit in chunk {
            v = (v << 1) | (bit as u8);
        }
        expected.push(v);
    }
    assert_eq!(written, 12);
    assert_eq!(&out[..written], expected.as_slice());
}

#[test]
fn encoder_sink_all_takes_all_input() {
    let mut encoder = HeatshrinkEncoder::new(8, 4).unwrap();
    let input = vec![3u8; 100];
    let mut out = vec![0u8; 256];
    assert_eq!(encoder.sink_all(&input, &mut out), HSEPollRes::Empty(100));
    let mut empty_out: [u8; 0] = [];
    assert_eq!(encoder.sink_all(&input, &mut empty_out), HSEPollRes::ErrorMisuse);
}
