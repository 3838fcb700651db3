//! A small-footprint LZSS-style compressor and decompressor with a bit-packed
//! token stream, tunable window and lookahead sizes, and a sink/poll/finish
//! streaming interface in which the caller owns all buffering.
use vstd::prelude::*;

pub mod common;
pub mod format;
pub mod heatshrink_decoder;
pub mod heatshrink_encoder;
pub mod io;
pub mod matching;

pub use common::{
    HEATSHRINK_MAX_WINDOW_BITS, HEATSHRINK_MIN_LOOKAHEAD_BITS, HEATSHRINK_MIN_WINDOW_BITS,
};
pub use heatshrink_decoder::{HSDFinishRes, HSDPollRes, HSDSinkRes, HeatshrinkDecoder};
pub use heatshrink_encoder::{HSEFinishRes, HSEPollRes, HSESinkRes, HeatshrinkEncoder};

verus! {

use crate::common::valid_params;
use crate::common::lemma_bytes_bits_len;
use crate::format::{
    Token, parse, bytes_bits, decoded, encodes, expand, packs, tokens_bits, tokens_fit, zero_bits,
    lemma_encodes_decodes,
};
use crate::matching::{greedy, lemma_greedy_walk_valid};

/// Encodes `input` in one go: sinks it `read_sz` bytes at a time, polls after each
/// sink, then finishes and polls until done.
pub fn encode_all(input: &[u8], window_sz2: u8, lookahead_sz2: u8, read_sz: usize) -> (r: Vec<u8>)
    requires
        read_sz > 0,
        read_sz <= usize::MAX / 2,
        valid_params(window_sz2, lookahead_sz2),
    ensures
        packs(r@, greedy(input@, window_sz2 as nat, lookahead_sz2 as nat), window_sz2 as nat, lookahead_sz2 as nat),
        encodes(r@, input@, window_sz2 as nat, lookahead_sz2 as nat),
        decoded(r@, window_sz2 as nat, lookahead_sz2 as nat) == input@,
{
    let mut encoder = match HeatshrinkEncoder::new(window_sz2, lookahead_sz2) {
        Some(e) => e,
        None => {
            return vstd::pervasive::unreached();
        },
    };
    let mut compressed: Vec<u8> = Vec::new();
    let mut scratch: Vec<u8> = vec![0; read_sz * 2];
    let mut read_offset: usize = 0;
    proof {
        assert(input@.subrange(0, 0) =~= Seq::<u8>::empty());
    }
    while read_offset < input.len()
        invariant
            encoder.wf(),
            !encoder.finishing(),
            encoder.accepts_input(),
            encoder.free_space() > 0,
            encoder.window_bits() == window_sz2,
            encoder.lookahead_bits() == lookahead_sz2,
            read_offset <= input@.len(),
            encoder.input() == input@.subrange(0, read_offset as int),
            compressed@ == encoder.output(),
            scratch@.len() == read_sz * 2,
            read_sz > 0,
        decreases input@.len() - read_offset,
    {
        let read_len: usize = if input.len() - read_offset > read_sz {
            read_sz
        } else {
            input.len() - read_offset
        };
        let mut read_data: &[u8] = vstd::slice::slice_subrange(input, read_offset, read_offset + read_len);
        while read_data.len() > 0
            invariant
                encoder.wf(),
                !encoder.finishing(),
                encoder.accepts_input(),
                encoder.free_space() > 0,
                encoder.window_bits() == window_sz2,
                encoder.lookahead_bits() == lookahead_sz2,
                read_offset + read_len <= input@.len(),
                encoder.input().add(read_data@) == input@.subrange(0, read_offset + read_len),
                compressed@ == encoder.output(),
                scratch@.len() == read_sz * 2,
                read_sz > 0,
            decreases read_data@.len(),
        {
            match encoder.sink(read_data) {
                HSESinkRes::Sunk(bytes_sunk) => {
                    proof {
                        assert(read_data@ =~= read_data@.subrange(0, bytes_sunk as int).add(
                            read_data@.subrange(bytes_sunk as int, read_data@.len() as int),
                        ));
                    }
                    read_data = vstd::slice::slice_subrange(read_data, bytes_sunk, read_data.len());
                },
                _ => {
                    return vstd::pervasive::unreached();
                },
            }
            loop
                invariant
                    encoder.wf(),
                    !encoder.finishing(),
                    encoder.window_bits() == window_sz2,
                    encoder.lookahead_bits() == lookahead_sz2,
                    encoder.input().add(read_data@) == input@.subrange(0, read_offset + read_len),
                    compressed@ == encoder.output(),
                    scratch@.len() == read_sz * 2,
                    read_sz > 0,
                ensures
                    encoder.accepts_input(),
                    encoder.free_space() > 0,
                decreases encoder.potential(),
            {
                match encoder.poll(scratch.as_mut_slice()) {
                    HSEPollRes::Empty(sz) => {
                        compressed.extend_from_slice(vstd::slice::slice_subrange(scratch.as_slice(), 0, sz));
                        proof {
                            assert(compressed@ =~= encoder.output());
                        }
                        break;
                    },
                    HSEPollRes::More(sz) => {
                        compressed.extend_from_slice(vstd::slice::slice_subrange(scratch.as_slice(), 0, sz));
                        proof {
                            assert(compressed@ =~= encoder.output());
                        }
                    },
                    _ => {
                        return vstd::pervasive::unreached();
                    },
                }
            }
        }
        proof {
            assert(encoder.input() =~= input@.subrange(0, read_offset + read_len));
        }
        read_offset = read_offset + read_len;
    }
    proof {
        assert(input@.subrange(0, read_offset as int) =~= input@);
        if encoder.is_done() {
            encoder.lemma_finished_encodes();
        }
    }
    loop
        invariant
            encoder.wf(),
            encoder.window_bits() == window_sz2,
            encoder.lookahead_bits() == lookahead_sz2,
            encoder.input() == input@,
            compressed@ == encoder.output(),
            scratch@.len() == read_sz * 2,
            read_sz > 0,
            encoder.is_done() ==> encodes(encoder.output(), encoder.input(), window_sz2 as nat, lookahead_sz2 as nat),
            encoder.is_done() ==> packs(encoder.output(), greedy(encoder.input(), window_sz2 as nat, lookahead_sz2 as nat), window_sz2 as nat, lookahead_sz2 as nat),
        ensures
            encodes(compressed@, input@, window_sz2 as nat, lookahead_sz2 as nat),
            packs(compressed@, greedy(input@, window_sz2 as nat, lookahead_sz2 as nat), window_sz2 as nat, lookahead_sz2 as nat),
        decreases (if encoder.is_done() { 0nat } else { 1nat }),
    {
        match encoder.finish() {
            HSEFinishRes::Done => {
                break;
            },
            HSEFinishRes::More => {},
            HSEFinishRes::ErrorNull => {
                return vstd::pervasive::unreached();
            },
        }
        loop
            invariant
                encoder.wf(),
                encoder.finishing(),
                encoder.window_bits() == window_sz2,
                encoder.lookahead_bits() == lookahead_sz2,
                encoder.input() == input@,
                compressed@ == encoder.output(),
                scratch@.len() == read_sz * 2,
                read_sz > 0,
            ensures
                encoder.is_done(),
                encodes(encoder.output(), encoder.input(), window_sz2 as nat, lookahead_sz2 as nat),
                packs(encoder.output(), greedy(encoder.input(), window_sz2 as nat, lookahead_sz2 as nat), window_sz2 as nat, lookahead_sz2 as nat),
            decreases encoder.potential(),
        {
            match encoder.poll(scratch.as_mut_slice()) {
                HSEPollRes::Empty(sz) => {
                    compressed.extend_from_slice(vstd::slice::slice_subrange(scratch.as_slice(), 0, sz));
                    proof {
                        assert(compressed@ =~= encoder.output());
                    }
                    break;
                },
                HSEPollRes::More(sz) => {
                    compressed.extend_from_slice(vstd::slice::slice_subrange(scratch.as_slice(), 0, sz));
                    proof {
                        assert(compressed@ =~= encoder.output());
                    }
                },
                _ => {
                    return vstd::pervasive::unreached();
                },
            }
        }
    }
    proof {
        lemma_encodes_decodes(compressed@, input@, window_sz2 as nat, lookahead_sz2 as nat);
    }
    compressed
}

/// Decodes `input` in one go with an input buffer of `input_buffer_size` bytes (as a
/// `u16`, that is modulo 2^16): sinks it `read_sz` bytes at a time, polls after each
/// sink, then finishes and polls until done.
pub fn decode_all(
    input: &[u8],
    input_buffer_size: usize,
    window_sz2: u8,
    lookahead_sz2: u8,
    read_sz: usize,
) -> (r: Vec<u8>)
    requires
        read_sz > 0,
        read_sz <= usize::MAX / 2,
        valid_params(window_sz2, lookahead_sz2),
        input_buffer_size % 0x10000 != 0,
    ensures
        r@ == decoded(input@, window_sz2 as nat, lookahead_sz2 as nat),
{
    proof {
        assert((input_buffer_size as u16) == input_buffer_size % 0x10000) by (bit_vector);
    }
    #[verifier::truncate]
    let buffer_size: u16 = input_buffer_size as u16;
    let mut decoder = match HeatshrinkDecoder::new(buffer_size, window_sz2, lookahead_sz2) {
        Some(d) => d,
        None => {
            return vstd::pervasive::unreached();
        },
    };
    let mut decompressed: Vec<u8> = Vec::new();
    let mut scratch: Vec<u8> = vec![0; read_sz * 2];
    let mut read_offset: usize = 0;
    proof {
        assert(input@.subrange(0, 0) =~= Seq::<u8>::empty());
    }
    while read_offset < input.len()
        invariant
            decoder.wf(),
            decoder.free_space() == decoder.capacity(),
            decoder.capacity() >= 1,
            decoder.window_bits() == window_sz2,
            decoder.lookahead_bits() == lookahead_sz2,
            read_offset <= input@.len(),
            decoder.input() == input@.subrange(0, read_offset as int),
            decompressed@ == decoder.output(),
            scratch@.len() == read_sz * 2,
            read_sz > 0,
        decreases input@.len() - read_offset,
    {
        let read_len: usize = if input.len() - read_offset > read_sz {
            read_sz
        } else {
            input.len() - read_offset
        };
        let mut read_data: &[u8] = vstd::slice::slice_subrange(input, read_offset, read_offset + read_len);
        while read_data.len() > 0
            invariant
                decoder.wf(),
                decoder.free_space() == decoder.capacity(),
                decoder.capacity() >= 1,
                decoder.window_bits() == window_sz2,
                decoder.lookahead_bits() == lookahead_sz2,
                read_offset + read_len <= input@.len(),
                decoder.input().add(read_data@) == input@.subrange(0, read_offset + read_len),
                decompressed@ == decoder.output(),
                scratch@.len() == read_sz * 2,
                read_sz > 0,
            decreases read_data@.len(),
        {
            match decoder.sink(read_data) {
                HSDSinkRes::Sunk(bytes_sunk) => {
                    proof {
                        assert(read_data@ =~= read_data@.subrange(0, bytes_sunk as int).add(
                            read_data@.subrange(bytes_sunk as int, read_data@.len() as int),
                        ));
                    }
                    read_data = vstd::slice::slice_subrange(read_data, bytes_sunk, read_data.len());
                },
                _ => {
                    return vstd::pervasive::unreached();
                },
            }
            loop
                invariant
                    decoder.wf(),
                    decoder.capacity() >= 1,
                    decoder.window_bits() == window_sz2,
                    decoder.lookahead_bits() == lookahead_sz2,
                    decoder.input().add(read_data@) == input@.subrange(0, read_offset + read_len),
                    decompressed@ == decoder.output(),
                    scratch@.len() == read_sz * 2,
                    read_sz > 0,
                ensures
                    decoder.free_space() == decoder.capacity(),
                decreases decoder.work(),
            {
                match decoder.poll(scratch.as_mut_slice()) {
                    HSDPollRes::Empty(sz) => {
                        decompressed.extend_from_slice(vstd::slice::slice_subrange(scratch.as_slice(), 0, sz));
                        proof {
                            assert(decompressed@ =~= decoder.output());
                        }
                        break;
                    },
                    HSDPollRes::More(sz) => {
                        decompressed.extend_from_slice(vstd::slice::slice_subrange(scratch.as_slice(), 0, sz));
                        proof {
                            assert(decompressed@ =~= decoder.output());
                        }
                    },
                    _ => {
                        return vstd::pervasive::unreached();
                    },
                }
            }
        }
        proof {
            assert(decoder.input() =~= input@.subrange(0, read_offset + read_len));
        }
        read_offset = read_offset + read_len;
    }
    proof {
        assert(input@.subrange(0, read_offset as int) =~= input@);
    }
    loop
        invariant
            decoder.wf(),
            decoder.window_bits() == window_sz2,
            decoder.lookahead_bits() == lookahead_sz2,
            decoder.input() == input@,
            decompressed@ == decoder.output(),
            scratch@.len() == read_sz * 2,
            read_sz > 0,
        ensures
            decompressed@ == decoded(input@, window_sz2 as nat, lookahead_sz2 as nat),
        decreases (if decoder.is_drained() { 0nat } else { 1nat }),
    {
        match decoder.finish() {
            HSDFinishRes::Done => {
                break;
            },
            HSDFinishRes::More => {},
            HSDFinishRes::ErrorNull => {
                return vstd::pervasive::unreached();
            },
        }
        loop
            invariant
                decoder.wf(),
                decoder.window_bits() == window_sz2,
                decoder.lookahead_bits() == lookahead_sz2,
                decoder.input() == input@,
                decompressed@ == decoder.output(),
                scratch@.len() == read_sz * 2,
                read_sz > 0,
            ensures
                decoder.is_drained(),
            decreases decoder.work(),
        {
            match decoder.poll(scratch.as_mut_slice()) {
                HSDPollRes::Empty(sz) => {
                    decompressed.extend_from_slice(vstd::slice::slice_subrange(scratch.as_slice(), 0, sz));
                    proof {
                        assert(decompressed@ =~= decoder.output());
                    }
                    break;
                },
                HSDPollRes::More(sz) => {
                    decompressed.extend_from_slice(vstd::slice::slice_subrange(scratch.as_slice(), 0, sz));
                    proof {
                        assert(decompressed@ =~= decoder.output());
                    }
                },
                _ => {
                    return vstd::pervasive::unreached();
                },
            }
        }
    }
    decompressed
}

/// Round trip: the bytes that the encoder writes for `input` (its greedy token
/// parse, padded to whole bytes) decode, under the same window and lookahead
/// exponents, to `input` again.
pub proof fn lemma_round_trip(input: Seq<u8>, compressed: Seq<u8>, window_sz2: u8, lookahead_sz2: u8)
    requires
        valid_params(window_sz2, lookahead_sz2),
        packs(compressed, greedy(input, window_sz2 as nat, lookahead_sz2 as nat), window_sz2 as nat, lookahead_sz2 as nat),
    ensures
        decoded(compressed, window_sz2 as nat, lookahead_sz2 as nat) == input,
{
    let w = window_sz2 as nat;
    let l = lookahead_sz2 as nat;
    let ts = greedy(input, w, l);
    lemma_greedy_walk_valid(input, w, l, 0);
    assert(input.subrange(0, 0) =~= Seq::<u8>::empty());
    let k = choose|k: nat| #![trigger zero_bits(k)] k < 8 && bytes_bits(compressed) == tokens_bits(ts, w, l).add(zero_bits(k));
    assert(k < 8 && tokens_fit(ts, w, l) && expand(Seq::empty(), ts) == input && bytes_bits(compressed)
        == tokens_bits(ts, w, l).add(zero_bits(k)));
    assert(encodes(compressed, input, w, l));
    lemma_encodes_decodes(compressed, input, w, l);
}

/// Determinism: encoding the same input under the same parameters gives the same
/// bytes, since what the encoder writes is the greedy token parse of its input,
/// padded to whole bytes.
pub proof fn lemma_encoding_deterministic(
    a: Seq<u8>,
    b: Seq<u8>,
    input: Seq<u8>,
    window_sz2: u8,
    lookahead_sz2: u8,
)
    requires
        packs(a, greedy(input, window_sz2 as nat, lookahead_sz2 as nat), window_sz2 as nat, lookahead_sz2 as nat),
        packs(b, greedy(input, window_sz2 as nat, lookahead_sz2 as nat), window_sz2 as nat, lookahead_sz2 as nat),
    ensures
        a == b,
{
    crate::common::lemma_packs_unique(a, b, greedy(input, window_sz2 as nat, lookahead_sz2 as nat), window_sz2 as nat, lookahead_sz2 as nat);
}

/// Empty streams: the encoder writes nothing for empty input, and nothing decodes
/// from an empty stream.
pub proof fn lemma_empty_streams(compressed: Seq<u8>, window_sz2: u8, lookahead_sz2: u8)
    requires
        packs(
            compressed,
            greedy(Seq::empty(), window_sz2 as nat, lookahead_sz2 as nat),
            window_sz2 as nat,
            lookahead_sz2 as nat,
        ),
    ensures
        compressed == Seq::<u8>::empty(),
        decoded(Seq::empty(), window_sz2 as nat, lookahead_sz2 as nat) == Seq::<u8>::empty(),
{
    let w = window_sz2 as nat;
    let l = lookahead_sz2 as nat;
    let ts = greedy(Seq::<u8>::empty(), w, l);
    assert(ts =~= Seq::<Token>::empty());
    let k = choose|k: nat| #![trigger zero_bits(k)] k < 8 && bytes_bits(compressed) == tokens_bits(ts, w, l).add(zero_bits(k));
    lemma_bytes_bits_len(compressed);
    assert(bytes_bits(compressed).len() == k);
    assert(compressed =~= Seq::<u8>::empty());
    assert(bytes_bits(Seq::<u8>::empty()) =~= Seq::<bool>::empty());
    assert(parse(Seq::<bool>::empty(), w, l) =~= Seq::<Token>::empty());
}

} // verus!
