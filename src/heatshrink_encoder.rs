//! Streaming encoder: a sliding-window match finder with a per-byte chain index,
//! emitting a bit-packed token stream.
use vstd::prelude::*;
use vstd::arithmetic::power2::{pow2, lemma2_to64, lemma_pow2_unfold};
use crate::common::{
    lemma_bytes_bits_prefix, valid_params, pow2_usize, lemma_pow2_bounds, bit_at, lemma_byte_bits, lemma_bits_of_index,
    lemma_field_chunk, HEATSHRINK_MIN_WINDOW_BITS,
    HEATSHRINK_MAX_WINDOW_BITS, HEATSHRINK_MIN_LOOKAHEAD_BITS, HEATSHRINK_LITERAL_MARKER,
    HEATSHRINK_BACKREF_MARKER,
};
use crate::matching::{
    lcp, best_len, best_pos, lemma_lcp_exact, lemma_lcp_prefix, lemma_best_skip, lemma_best_capped,
    lemma_best_shift, greedy_token, greedy_upto, greedy, lands, walk_stable, padded,
    lemma_walk_step, lemma_walk_stable_step, lemma_walk_extend, break_even, lemma_upto_split,
    lemma_greedy_walk_valid, lemma_greedy_token_valid, lemma_token_stable, span,
};
use crate::format::{
    tail_kept, is_prefix, lemma_tokens_bits_concat,
    Token, bits_value, bits_of, bytes_bits, byte_bits, tokens_bits, token_bits, tokens_fit,
    token_fits, expand, zero_bits, encodes, lemma_tokens_bits_push,
    lemma_bytes_bits_concat, lemma_value_push, lemma_bits_of_len,
    lemma_bits_of_value, lemma_value_bound, packs, lemma_expand_push,
};

verus! {

/// Result of [`HeatshrinkEncoder::sink`].
#[derive(Copy, Clone, Debug, PartialEq, Eq, Structural)]
pub enum HSESinkRes {
    /// Data sunk into the input buffer; holds the number of bytes taken.
    Sunk(usize),
    /// Empty argument.
    ErrorNull,
    /// Misuse of the API.
    ErrorMisuse,
}

/// Result of [`HeatshrinkEncoder::poll`] and [`HeatshrinkEncoder::sink_all`].
#[derive(Copy, Clone, Debug, PartialEq, Eq, Structural)]
pub enum HSEPollRes {
    /// Input exhausted; holds the number of bytes written.
    Empty(usize),
    /// Poll again for more output; holds the number of bytes written.
    More(usize),
    /// Empty argument.
    ErrorNull,
    /// Misuse of the API.
    ErrorMisuse,
}

/// Result of [`HeatshrinkEncoder::finish`].
#[derive(Copy, Clone, Debug, PartialEq, Eq, Structural)]
pub enum HSEFinishRes {
    /// Encoding is complete.
    Done,
    /// More output remains: poll.
    More,
    /// Empty argument.
    ErrorNull,
}

/// States of the encoder's state machine.
#[derive(Copy, Clone, Debug, PartialEq, Eq, Structural)]
enum HSEState {
    /// Input buffer not full enough.
    NotFull,
    /// Input buffer is full, or the input is finished.
    Filled,
    /// Searching for a match.
    Search,
    /// Yielding a tag bit.
    YieldTagBit,
    /// Yielding a literal byte.
    YieldLiteral,
    /// Yielding a back-reference distance.
    YieldBrIndex,
    /// Yielding a back-reference length.
    YieldBrLength,
    /// Moving the window into the backlog.
    SaveBacklog,
    /// Flushing the last partial byte.
    FlushBits,
    /// Done.
    Done,
}

/// Returned by the match search when no match is worth a back-reference.
const MATCH_NOT_FOUND: u16 = 0xffff;

/// Flag set once the input is finished.
const FLAG_IS_FINISHING: u8 = 0x01;

/// The heatshrink encoder.
pub struct HeatshrinkEncoder {
    /// Bytes in the current window.
    input_size: usize,
    /// Offset in the current window of the next byte to encode.
    match_scan_index: usize,
    /// Length of the match found; zero for a literal.
    match_length: usize,
    /// Distance of the match found.
    match_pos: u16,
    /// Field being written out.
    outgoing_bits: u16,
    /// Bits of `outgoing_bits` still to write.
    outgoing_bits_count: u8,
    /// `FLAG_IS_FINISHING` once the input is finished.
    flags: u8,
    /// Current state machine node.
    state: HSEState,
    /// Output byte being filled.
    current_byte: u8,
    /// Mask of the next bit of `current_byte`.
    bit_index: u8,
    /// Window exponent.
    window_sz2: u8,
    /// Lookahead exponent.
    lookahead_sz2: u8,
    /// Size of the window and of the input buffer.
    input_buffer_size: usize,
    /// Size of the lookahead.
    lookahead_size: usize,
    /// For each offset, the nearest earlier offset holding the same byte, or -1.
    search_index: Vec<i16>,
    /// Previous window, then current window.
    buffer: Vec<u8>,
    /// Every byte sunk.
    sunk: Ghost<Seq<u8>>,
    /// Every byte polled out.
    emitted: Ghost<Seq<u8>>,
    /// Bytes sunk before the current window.
    base: Ghost<nat>,
    /// Tokens written out completely.
    tokens: Ghost<Seq<Token>>,
    /// Token being written out.
    cur: Ghost<Token>,
    /// Bits held in `current_byte`.
    pending: Ghost<Seq<bool>>,
    /// Zero bits that padded the last byte.
    pad: Ghost<nat>,
}

impl HeatshrinkEncoder {
    /// Every byte sunk so far.
    pub closed spec fn input(&self) -> Seq<u8> {
        self.sunk@
    }

    /// Every byte polled out so far.
    pub closed spec fn output(&self) -> Seq<u8> {
        self.emitted@
    }

    /// Window exponent `W`.
    pub closed spec fn window_bits(&self) -> nat {
        self.window_sz2 as nat
    }

    /// Lookahead exponent `L`.
    pub closed spec fn lookahead_bits(&self) -> nat {
        self.lookahead_sz2 as nat
    }

    /// `finish` has been called.
    pub closed spec fn finishing(&self) -> bool {
        self.flags == FLAG_IS_FINISHING
    }

    /// All output has been produced.
    pub closed spec fn is_done(&self) -> bool {
        self.state == HSEState::Done
    }

    /// `sink` takes input now.
    pub closed spec fn accepts_input(&self) -> bool {
        self.state == HSEState::NotFull && !self.finishing()
    }

    /// Room left in the current window.
    pub closed spec fn free_space(&self) -> nat {
        (self.input_buffer_size - self.input_size) as nat
    }

    /// Bytes sunk and not yet encoded.
    spec fn covered_next(&self) -> nat {
        (self.match_scan_index + (if (self.state == HSEState::YieldTagBit || self.state
            == HSEState::YieldBrIndex || self.state == HSEState::YieldBrLength) {
            self.match_length
        } else {
            0
        })) as nat
    }

    /// Bits of the current token still to write.
    spec fn token_bits_left(&self) -> nat {
        match self.state {
            HSEState::YieldTagBit => token_bits(
                self.cur@,
                self.window_sz2 as nat,
                self.lookahead_sz2 as nat,
            ).len(),
            HSEState::YieldLiteral => 8,
            HSEState::YieldBrIndex => (self.outgoing_bits_count + self.lookahead_sz2) as nat,
            HSEState::YieldBrLength => self.outgoing_bits_count as nat,
            _ => 0,
        }
    }

    spec fn stage(&self) -> nat {
        match self.state {
            HSEState::Filled => 10,
            HSEState::YieldTagBit => 9,
            HSEState::YieldLiteral => 8,
            HSEState::YieldBrIndex => 7,
            HSEState::YieldBrLength => 6,
            HSEState::Search => 5,
            HSEState::FlushBits => 3,
            HSEState::SaveBacklog => 2,
            _ => 0,
        }
    }

    /// Bound on the work left in the current window; every step of `poll` lowers it
    /// by more than the bytes that the step writes.
    pub closed spec fn potential(&self) -> nat {
        16 * (10 * (self.input_size - self.covered_next()) + self.token_bits_left()) as nat
            + self.stage()
    }

    /// The input, after a window of zeros.
    spec fn padded(&self) -> Seq<u8> {
        Seq::new(self.input_buffer_size as nat, |i: int| 0u8).add(self.sunk@)
    }

    /// Bits of the current token already written.
    spec fn cur_sent(&self) -> nat {
        match self.state {
            HSEState::YieldLiteral => 1,
            HSEState::YieldBrIndex => (1 + self.window_sz2 - self.outgoing_bits_count) as nat,
            HSEState::YieldBrLength => (1 + self.window_sz2 + self.lookahead_sz2
                - self.outgoing_bits_count) as nat,
            _ => 0,
        }
    }

    spec fn in_token(&self) -> bool {
        self.state == HSEState::YieldTagBit || self.state == HSEState::YieldLiteral || self.state
            == HSEState::YieldBrIndex || self.state == HSEState::YieldBrLength
    }

    /// Configuration and buffers are consistent.
    spec fn shape_ok(&self) -> bool {
        &&& valid_params(self.window_sz2, self.lookahead_sz2)
        &&& self.input_buffer_size == pow2(self.window_sz2 as nat)
        &&& 16 <= self.input_buffer_size <= 16384
        &&& self.lookahead_size == pow2(self.lookahead_sz2 as nat)
        &&& self.buffer@.len() == 2 * self.input_buffer_size
        &&& self.search_index@.len() == 2 * self.input_buffer_size
        &&& self.input_size <= self.input_buffer_size
        &&& self.match_scan_index <= self.input_size
        &&& self.flags == 0 || self.flags == FLAG_IS_FINISHING
        &&& self.finishing() ==> self.state != HSEState::NotFull && self.state
            != HSEState::SaveBacklog
        &&& self.state == HSEState::NotFull ==> self.input_size < self.input_buffer_size
            && self.match_scan_index == 0
        &&& self.state == HSEState::FlushBits || self.state == HSEState::Done ==> self.finishing()
            && self.match_scan_index == self.input_size
        &&& self.state == HSEState::Filled ==> self.match_scan_index == 0
        &&& !self.finishing() && self.state != HSEState::NotFull ==> self.input_size
            == self.input_buffer_size
        &&& self.lookahead_size * 2 <= self.input_buffer_size
        &&& self.state == HSEState::SaveBacklog ==> self.match_scan_index + self.lookahead_size
            > self.input_size
    }

    /// The buffer holds the input around the current window.
    spec fn buffer_ok(&self) -> bool {
        &&& self.sunk@.len() == self.base@ + self.input_size
        &&& forall|x: int|
            0 <= x < self.input_buffer_size + self.input_size ==> #[trigger] self.buffer@[x]
                == self.padded()[self.base@ + x]
    }

    /// Every chain link points to an earlier offset, or is -1.
    spec fn index_ok(&self) -> bool {
        forall|i: int|
            0 <= i < self.search_index@.len() ==> -1 <= #[trigger] self.search_index@[i] < i
    }

    /// Every chain link of the current window points to the nearest earlier offset
    /// that holds the same byte.
    spec fn index_links(&self) -> bool {
        &&& forall|i: int|
            0 <= i < self.input_buffer_size + self.input_size && self.search_index@[i] >= 0
                ==> self.buffer@[self.search_index@[i] as int] == #[trigger] self.buffer@[i]
        &&& forall|i: int, j: int|
            #![trigger self.search_index@[i], self.buffer@[j]]
            0 <= i < self.input_buffer_size + self.input_size && self.search_index@[i] < j < i
                ==> self.buffer@[j] != self.buffer@[i]
    }

    /// `current_byte` holds the pending bits at its top.
    spec fn packer_ok(&self) -> bool {
        &&& self.pending@.len() < 8
        &&& self.current_byte == bits_value(self.pending@) * pow2((8 - self.pending@.len()) as nat)
        &&& self.bit_index == pow2((7 - self.pending@.len()) as nat)
    }

    /// What has been written stands for the tokens, and the tokens for the input.
    spec fn tokens_ok(&self) -> bool {
        let w = self.window_sz2 as nat;
        let l = self.lookahead_sz2 as nat;
        let sent = if self.in_token() {
            token_bits(self.cur@, w, l).subrange(0, self.cur_sent() as int)
        } else {
            Seq::empty()
        };
        &&& bytes_bits(self.emitted@).add(self.pending@) == tokens_bits(self.tokens@, w, l).add(
            sent,
        ).add(zero_bits(self.pad@))
        &&& self.state != HSEState::Done ==> self.pad@ == 0
        &&& self.state == HSEState::Done ==> self.pending@.len() == 0 && self.pad@ < 8
        &&& tokens_fit(self.tokens@, w, l)
        &&& !self.in_token() ==> expand(Seq::empty(), self.tokens@) == self.sunk@.subrange(
            0,
            self.base@ + self.match_scan_index,
        )
        &&& self.in_token() ==> {
            &&& token_fits(self.cur@, w, l)
            &&& self.cur_sent() <= token_bits(self.cur@, w, l).len()
            &&& self.covered_next() <= self.input_size
            &&& expand(Seq::empty(), self.tokens@.push(self.cur@)) == self.sunk@.subrange(
                0,
                (self.base@ + self.covered_next()) as int,
            )
            &&& (self.match_length == 0) == (self.cur@ is Literal)
            &&& self.match_length == 0 ==> self.match_scan_index >= 1 && self.cur@ == Token::Literal(
                self.buffer@[self.input_buffer_size + self.match_scan_index - 1],
            )
            &&& self.match_length > 0 ==> self.cur@ == Token::Backref {
                dist: self.match_pos as nat,
                len: self.match_length as nat,
            }
            &&& self.state == HSEState::YieldLiteral ==> self.match_length == 0
            &&& self.state == HSEState::YieldBrIndex ==> self.match_length > 0
                && self.outgoing_bits == self.match_pos - 1 && self.outgoing_bits_count
                <= self.window_sz2
            &&& self.state == HSEState::YieldBrLength ==> self.match_length > 0
                && self.outgoing_bits == self.match_length - 1 && self.outgoing_bits_count
                <= self.lookahead_sz2
        }
    }

    /// Input position where the current token starts, or where the next one will.
    spec fn tok_start(&self) -> nat {
        (self.base@ + self.match_scan_index - (if self.in_token() && self.match_length == 0 {
            1int
        } else {
            0int
        })) as nat
    }

    /// The tokens are the ones that the greedy parse of the input picks.
    spec fn greedy_ok(&self) -> bool {
        let w = self.window_sz2 as nat;
        let l = self.lookahead_sz2 as nat;
        let p = self.tok_start();
        &&& lands(self.sunk@, w, l, 0, p)
        &&& self.tokens@ == greedy_upto(self.sunk@, w, l, 0, p)
        &&& self.in_token() ==> self.cur@ == greedy_token(self.sunk@, w, l, p)
        &&& !self.finishing() ==> walk_stable(self.sunk@, w, l, 0, p)
        &&& !self.finishing() && self.in_token() ==> p + pow2(l) <= self.sunk@.len()
    }

    /// The invariant that holds between the steps of the state machine.
    spec fn inv(&self) -> bool {
        &&& self.shape_ok()
        &&& self.buffer_ok()
        &&& self.index_ok()
        &&& (self.state == HSEState::Search || self.in_token()) ==> self.index_links()
        &&& self.state != HSEState::Done ==> self.packer_ok()
        &&& self.pending@.len() < 8
        &&& self.tokens_ok()
        &&& self.greedy_ok()
    }

    /// The encoder is well formed.
    pub closed spec fn wf(&self) -> bool {
        self.inv() && self.state != HSEState::SaveBacklog
    }

    /// Initializes an encoder with a window of `2^window_sz2` bytes for the current
    /// input, as many for the previous input, and back-references of up to
    /// `2^lookahead_sz2` bytes; `None` when the parameters are out of range.
    pub fn new(window_sz2: u8, lookahead_sz2: u8) -> (r: Option<Self>)
        ensures
            r.is_some() <==> valid_params(window_sz2, lookahead_sz2),
            r matches Some(e) ==> {
                &&& e.wf()
                &&& e.input() == Seq::<u8>::empty()
                &&& e.output() == Seq::<u8>::empty()
                &&& e.window_bits() == window_sz2
                &&& e.lookahead_bits() == lookahead_sz2
                &&& e.accepts_input()
                &&& !e.finishing()
                &&& !e.is_done()
                &&& e.free_space() == pow2(window_sz2 as nat)
                &&& e.free_space() > 0
            },
    {
        if window_sz2 < HEATSHRINK_MIN_WINDOW_BITS || window_sz2 > HEATSHRINK_MAX_WINDOW_BITS
            || lookahead_sz2 < HEATSHRINK_MIN_LOOKAHEAD_BITS || lookahead_sz2 >= window_sz2 {
            return None;
        }
        proof {
            lemma_pow2_bounds(window_sz2 as nat);
            lemma_pow2_bounds(lookahead_sz2 as nat);
            lemma2_to64();
        }
        let input_buffer_size: usize = pow2_usize(window_sz2);
        let buf_sz: usize = 2 * input_buffer_size;
        let e = HeatshrinkEncoder {
            input_size: 0,
            match_scan_index: 0,
            match_length: 0,
            match_pos: 0,
            outgoing_bits: 0,
            outgoing_bits_count: 0,
            flags: 0,
            state: HSEState::NotFull,
            current_byte: 0,
            bit_index: 0x80,
            window_sz2,
            lookahead_sz2,
            input_buffer_size,
            lookahead_size: pow2_usize(lookahead_sz2),
            search_index: vec![-1; buf_sz],
            buffer: vec![0; buf_sz],
            sunk: Ghost(Seq::empty()),
            emitted: Ghost(Seq::empty()),
            base: Ghost(0),
            tokens: Ghost(Seq::empty()),
            cur: Ghost(Token::Literal(0)),
            pending: Ghost(Seq::empty()),
            pad: Ghost(0),
        };
        proof {
            assert forall|x: int| 0 <= x < e.input_buffer_size + e.input_size implies #[trigger] e.buffer@[x]
                == e.padded()[e.base@ + x] by {
                assert(cloned::<u8>(0u8, e.buffer@[x]));
            }
            assert forall|i: int| 0 <= i < e.search_index@.len() implies -1 <= #[trigger] e.search_index@[i] < i by {
                assert(cloned::<i16>(-1i16, e.search_index@[i]));
            }
            assert(bytes_bits(e.emitted@) =~= Seq::<bool>::empty());
            assert(zero_bits(0) =~= Seq::<bool>::empty());
            assert(tokens_bits(e.tokens@, window_sz2 as nat, lookahead_sz2 as nat) =~= Seq::<bool>::empty());
            assert(bytes_bits(e.emitted@).add(e.pending@) =~= Seq::<bool>::empty().add(Seq::<bool>::empty()).add(zero_bits(0)));
            assert(e.sunk@.subrange(0, 0) =~= Seq::<u8>::empty());
            assert(e.shape_ok());
            assert(e.buffer_ok());
            assert(e.index_ok());
            assert(bits_value(e.pending@) == 0);
            assert(e.packer_ok());
            assert(e.tokens_ok());
        }
        Some(e)
    }

    /// Sinks up to `in_buf.len()` bytes into the current window; the number taken is
    /// returned. Once the window is full, poll before sinking more.
    pub fn sink(&mut self, in_buf: &[u8]) -> (r: HSESinkRes)
        requires
            old(self).wf(),
        ensures
            final(self).wf(),
            final(self).window_bits() == old(self).window_bits(),
            final(self).lookahead_bits() == old(self).lookahead_bits(),
            final(self).output() == old(self).output(),
            final(self).finishing() == old(self).finishing(),
            !old(self).accepts_input() ==> r == HSESinkRes::ErrorMisuse && *final(self) == *old(self),
            old(self).accepts_input() ==> r == HSESinkRes::Sunk(
                if in_buf@.len() < old(self).free_space() {
                    in_buf@.len() as usize
                } else {
                    old(self).free_space() as usize
                },
            ),
            r matches HSESinkRes::Sunk(n) ==> {
                &&& final(self).input() == old(self).input().add(in_buf@.subrange(0, n as int))
                &&& final(self).free_space() == old(self).free_space() - n
                &&& final(self).accepts_input() == (n < old(self).free_space())
                &&& !final(self).is_done()
            },
    {
        if self.is_finishing() || self.state != HSEState::NotFull {
            return HSESinkRes::ErrorMisuse;
        }
        let write_offset: usize = self.get_input_offset() + self.input_size;
        let rem: usize = self.input_buffer_size - self.input_size;
        let cp_sz: usize = if rem < in_buf.len() { rem } else { in_buf.len() };
        let ghost before = *self;
        let mut i: usize = 0;
        while i < cp_sz
            invariant
                i <= cp_sz,
                cp_sz <= in_buf@.len(),
                write_offset == self.input_buffer_size + self.input_size,
                write_offset + cp_sz <= self.buffer@.len(),
                write_offset + cp_sz <= 32768,
                self.buffer@.len() == before.buffer@.len(),
                forall|j: int| 0 <= j < write_offset ==> self.buffer@[j] == before.buffer@[j],
                forall|j: int| 0 <= j < i ==> self.buffer@[write_offset + j] == in_buf@[j],
                self.input_size == before.input_size,
                self.input_buffer_size == before.input_buffer_size,
                self.search_index == before.search_index,
                self.sunk == before.sunk,
                self.state == before.state,
                self.flags == before.flags,
                self.match_scan_index == before.match_scan_index,
                self.match_length == before.match_length,
                self.match_pos == before.match_pos,
                self.outgoing_bits == before.outgoing_bits,
                self.outgoing_bits_count == before.outgoing_bits_count,
                self.current_byte == before.current_byte,
                self.bit_index == before.bit_index,
                self.window_sz2 == before.window_sz2,
                self.lookahead_sz2 == before.lookahead_sz2,
                self.lookahead_size == before.lookahead_size,
                self.emitted == before.emitted,
                self.base == before.base,
                self.tokens == before.tokens,
                self.cur == before.cur,
                self.pending == before.pending,
                self.pad == before.pad,
            decreases cp_sz - i,
        {
            self.buffer[write_offset + i] = in_buf[i];
            i = i + 1;
        }
        self.input_size = self.input_size + cp_sz;
        proof {
            let added = in_buf@.subrange(0, cp_sz as int);
            self.sunk@ = self.sunk@.add(added);
            let n = self.input_buffer_size as nat;
            assert(self.padded() =~= before.padded().add(added));
            assert forall|x: int| 0 <= x < self.input_buffer_size + self.input_size implies #[trigger] self.buffer@[x]
                == self.padded()[self.base@ + x] by {
                if x < write_offset {
                    assert(before.buffer@[x] == before.padded()[before.base@ + x]);
                } else {
                    assert(self.buffer@[write_offset + (x - write_offset)] == in_buf@[x - write_offset]);
                }
            }
            assert(self.sunk@.subrange(0, self.base@ + self.match_scan_index) =~= before.sunk@.subrange(0, before.base@ + before.match_scan_index));
            lemma_pow2_bounds(self.lookahead_sz2 as nat);
            lemma_walk_extend(before.sunk@, added, self.window_sz2 as nat, self.lookahead_sz2 as nat, 0, before.tok_start());
        }
        if cp_sz == rem {
            self.state = HSEState::Filled;
        }
        HSESinkRes::Sunk(cp_sz)
    }

    /// Notifies the encoder that the input is finished: the rest of the input is
    /// then encoded and the last byte flushed. `Done` once all output has been
    /// produced; otherwise `More`: poll.
    pub fn finish(&mut self) -> (r: HSEFinishRes)
        requires
            old(self).wf(),
        ensures
            final(self).wf(),
            final(self).finishing(),
            final(self).input() == old(self).input(),
            final(self).output() == old(self).output(),
            final(self).window_bits() == old(self).window_bits(),
            final(self).lookahead_bits() == old(self).lookahead_bits(),
            final(self).is_done() == old(self).is_done(),
            (r == HSEFinishRes::Done) == final(self).is_done(),
            (r == HSEFinishRes::More) == !final(self).is_done(),
            !final(self).accepts_input(),
    {
        proof {
            assert(0u8 | 1u8 == 1u8) by (bit_vector);
            assert(1u8 | 1u8 == 1u8) by (bit_vector);
        }
        self.flags = self.flags | FLAG_IS_FINISHING;
        if self.state == HSEState::NotFull {
            self.state = HSEState::Filled;
        }
        if self.state == HSEState::Done {
            HSEFinishRes::Done
        } else {
            HSEFinishRes::More
        }
    }

    #[inline]
    fn is_finishing(&self) -> (r: bool)
        requires
            self.flags == 0 || self.flags == FLAG_IS_FINISHING,
        ensures
            r == self.finishing(),
    {
        proof {
            assert(0u8 & 1u8 == 0u8) by (bit_vector);
            assert(1u8 & 1u8 == 1u8) by (bit_vector);
        }
        self.flags & FLAG_IS_FINISHING == FLAG_IS_FINISHING
    }

    #[inline]
    fn get_input_offset(&self) -> (r: usize)
        ensures
            r == self.input_buffer_size,
    {
        self.input_buffer_size
    }

    /// Whether an output buffer of `out_len` bytes, `output_size` of them written, has room.
    #[inline]
    fn can_take_byte(&self, output_size: usize, out_len: usize) -> (r: bool)
        ensures
            r == (output_size < out_len),
    {
        output_size < out_len
    }

    /// Window exponent: `2^n` is the size of the current window and of the previous one.
    #[inline]
    fn get_window_bits(&self) -> (r: u8)
        ensures
            r == self.window_sz2,
    {
        self.window_sz2
    }

    /// Lookahead exponent: `2^n` is the size of the lookahead.
    #[inline]
    fn get_lookahead_bits(&self) -> (r: u8)
        ensures
            r == self.lookahead_sz2,
    {
        self.lookahead_sz2
    }

    /// The fields that writing bits leaves alone are those of `other`.
    spec fn same_but_packer(&self, other: &Self) -> bool {
        &&& self.same_core(other)
        &&& self.outgoing_bits_count == other.outgoing_bits_count
    }

    /// The fields that writing a field's bits leaves alone are those of `other`.
    spec fn same_core(&self, other: &Self) -> bool {
        &&& self.input_size == other.input_size
        &&& self.match_scan_index == other.match_scan_index
        &&& self.match_length == other.match_length
        &&& self.match_pos == other.match_pos
        &&& self.outgoing_bits == other.outgoing_bits
        &&& self.flags == other.flags
        &&& self.state == other.state
        &&& self.window_sz2 == other.window_sz2
        &&& self.lookahead_sz2 == other.lookahead_sz2
        &&& self.input_buffer_size == other.input_buffer_size
        &&& self.lookahead_size == other.lookahead_size
        &&& self.search_index == other.search_index
        &&& self.buffer == other.buffer
        &&& self.sunk == other.sunk
        &&& self.base == other.base
        &&& self.tokens == other.tokens
        &&& self.cur == other.cur
        &&& self.pad == other.pad
    }

    /// Appends one bit to the output; a completed byte goes to `out_buf`.
    fn push_bit(&mut self, bit: bool, out_buf: &mut [u8], output_size: &mut usize)
        requires
            old(self).packer_ok(),
            old(self).pending@.len() == 7 ==> *old(output_size) < old(out_buf)@.len(),
            *old(output_size) <= old(out_buf)@.len(),
        ensures
            final(self).packer_ok(),
            final(self).same_but_packer(old(self)),
            bytes_bits(final(self).emitted@).add(final(self).pending@) == bytes_bits(
                old(self).emitted@,
            ).add(old(self).pending@).push(bit),
            old(self).pending@.len() < 7 ==> final(self).pending@ == old(self).pending@.push(bit)
                && *final(output_size) == *old(output_size) && final(out_buf)@ == old(out_buf)@
                && final(self).emitted == old(self).emitted,
            old(self).pending@.len() == 7 ==> final(self).pending@.len() == 0 && *final(output_size)
                == *old(output_size) + 1,
            final(out_buf)@.len() == old(out_buf)@.len(),
            tail_kept(final(out_buf)@, old(out_buf)@, *final(output_size) as int),
            *final(output_size) <= final(out_buf)@.len(),
            final(out_buf)@.subrange(0, *old(output_size) as int) == old(out_buf)@.subrange(0, *old(output_size) as int),
            final(self).emitted@ == old(self).emitted@.add(
                final(out_buf)@.subrange(*old(output_size) as int, *final(output_size) as int),
            ),
    {
        let ghost pend0 = self.pending@;
        let ghost n = pend0.len();
        let ghost e0 = self.emitted@;
        let ghost pos0 = *output_size;
        proof {
            lemma2_to64();
            lemma_value_bound(pend0);
            lemma_pow2_unfold((8 - n) as nat);
            lemma_value_push(pend0, bit);
            let v = bits_value(pend0);
            let q = pow2((7 - n) as nat);
            vstd::arithmetic::power2::lemma_pow2_adds(n, (7 - n) as nat);
            assert(n + (7 - n) as nat == 7);
            assert(v * (2 * q) + q == (2 * v + 1) * q) by (nonlinear_arith);
            assert(v * (2 * q) == (2 * v) * q) by (nonlinear_arith);
            assert(pow2((7 - n) as nat) <= 128) by {
                if n > 0 {
                    vstd::arithmetic::power2::lemma_pow2_strictly_increases((7 - n) as nat, 7);
                }
            }
            assert((2 * v + 1) * q < 256) by (nonlinear_arith)
                requires
                    v < pow2(n),
                    q == pow2((7 - n) as nat),
                    pow2(n) * pow2((7 - n) as nat) == 128,
            {
                assert(v + 1 <= pow2(n));
                assert((2 * v + 1) * q < (2 * v + 2) * q);
            }
            vstd::arithmetic::power2::lemma_pow2_adds(n, (7 - n) as nat);
        }
        if bit {
            self.current_byte = self.current_byte + self.bit_index;
        }
        let ghost m = self.bit_index;
        self.bit_index = self.bit_index >> 1;
        proof {
            assert(m >> 1 == m / 2) by (bit_vector);
            self.pending@ = pend0.push(bit);
            if n < 7 {
                lemma_pow2_unfold((7 - n) as nat);
            }
        }
        if self.bit_index == 0x00 {
            self.bit_index = 0x80;
            out_buf[*output_size] = self.current_byte;
            proof {
                let c = self.current_byte;
                lemma_bits_of_value(self.pending@);
                lemma_byte_bits(c);
                assert(pow2(0) == 1);
                assert(n == 7) by {
                    if n < 7 {
                        vstd::arithmetic::power2::lemma_pow2_unfold((7 - n) as nat);
                        vstd::arithmetic::power2::lemma_pow2_pos((6 - n) as nat);
                    }
                }
                let vp = bits_value(self.pending@);
                let q0 = pow2(0);
                assert(c == vp * q0);
                assert(c == vp) by (nonlinear_arith)
                    requires
                        c == vp * q0,
                        q0 == 1,
                ;
                lemma_bytes_bits_concat(e0, seq![c]);
                assert(seq![c].drop_first() =~= Seq::<u8>::empty());
                assert(seq![c][0] == c);
                assert(bytes_bits(Seq::<u8>::empty()) =~= Seq::<bool>::empty());
                assert(bytes_bits(seq![c]) == byte_bits(c).add(bytes_bits(seq![c].drop_first())));
                assert(bytes_bits(seq![c]) =~= byte_bits(c));
                self.emitted@ = e0.push(c);
                assert(e0.push(c) =~= e0.add(seq![c]));
                self.pending@ = Seq::empty();
                assert(bytes_bits(self.emitted@).add(self.pending@) =~= bytes_bits(e0).add(pend0).push(bit));
            }
            *output_size = *output_size + 1;
            self.current_byte = 0x00;
            proof {
                assert(bits_value(self.pending@) == 0);
                assert(out_buf@.subrange(pos0 as int, *output_size as int) =~= seq![out_buf@[pos0 as int]]);
                assert(out_buf@.subrange(0, pos0 as int) =~= old(out_buf)@.subrange(0, pos0 as int));
            }
        } else {
            proof {
                assert(bytes_bits(self.emitted@).add(self.pending@) =~= bytes_bits(e0).add(pend0).push(bit));
                assert(out_buf@.subrange(pos0 as int, pos0 as int) =~= Seq::<u8>::empty());
                assert(e0 =~= e0.add(Seq::<u8>::empty()));
            }
        }
    }

    /// Appends the `count` low bits of `bits` to the output, high bit first.
    fn push_bits(&mut self, count: u8, bits: u8, out_buf: &mut [u8], output_size: &mut usize)
        requires
            old(self).packer_ok(),
            1 <= count <= 8,
            *old(output_size) <= old(out_buf)@.len(),
            old(self).pending@.len() + count >= 8 ==> *old(output_size) < old(out_buf)@.len(),
        ensures
            final(self).packer_ok(),
            final(self).same_but_packer(old(self)),
            bytes_bits(final(self).emitted@).add(final(self).pending@) == bytes_bits(
                old(self).emitted@,
            ).add(old(self).pending@).add(bits_of(bits as nat, count as nat)),
            final(out_buf)@.len() == old(out_buf)@.len(),
            tail_kept(final(out_buf)@, old(out_buf)@, *final(output_size) as int),
            *old(output_size) <= *final(output_size) <= *old(output_size) + 1,
            *final(output_size) == *old(output_size) + (old(self).pending@.len() + count) / 8,
            final(self).pending@.len() == (old(self).pending@.len() + count) % 8,
            final(out_buf)@.subrange(0, *old(output_size) as int) == old(out_buf)@.subrange(0, *old(output_size) as int),
            final(self).emitted@ == old(self).emitted@.add(
                final(out_buf)@.subrange(*old(output_size) as int, *final(output_size) as int),
            ),
    {
        let ghost b0 = bytes_bits(self.emitted@).add(self.pending@);
        let ghost pend0 = self.pending@;
        let ghost e0 = self.emitted@;
        let ghost pos0 = *output_size;
        let ghost want = bits_of(bits as nat, count as nat);
        proof {
            lemma_bits_of_len(bits as nat, count as nat);
        }
        if count == 8 && self.bit_index == 0x80 {
            proof {
                lemma2_to64();
                if pend0.len() > 0 {
                    vstd::arithmetic::power2::lemma_pow2_strictly_increases((7 - pend0.len()) as nat, 7);
                }
                assert(pend0.len() == 0);
                lemma_byte_bits(bits);
                lemma_bytes_bits_concat(e0, seq![bits]);
                assert(seq![bits].drop_first() =~= Seq::<u8>::empty());
                assert(seq![bits][0] == bits);
                assert(bytes_bits(Seq::<u8>::empty()) =~= Seq::<bool>::empty());
                assert(bytes_bits(seq![bits]) == byte_bits(bits).add(bytes_bits(seq![bits].drop_first())));
                assert(bytes_bits(seq![bits]) =~= byte_bits(bits));
                self.emitted@ = e0.push(bits);
                assert(e0.push(bits) =~= e0.add(seq![bits]));
                assert(bytes_bits(self.emitted@).add(self.pending@) =~= b0.add(want));
            }
            out_buf[*output_size] = bits;
            *output_size = *output_size + 1;
            proof {
                assert(out_buf@.subrange(pos0 as int, *output_size as int) =~= seq![bits]);
                assert(out_buf@.subrange(0, pos0 as int) =~= old(out_buf)@.subrange(0, pos0 as int));
            }
        } else {
            let ghost before = *self;
            let mut i: u8 = count;
            proof {
                assert(want.subrange(0, 0) =~= Seq::<bool>::empty());
                assert(b0 =~= b0.add(Seq::<bool>::empty()));
                assert(out_buf@.subrange(pos0 as int, pos0 as int) =~= Seq::<u8>::empty());
                assert(e0 =~= e0.add(Seq::<u8>::empty()));
            }
            while i > 0
                invariant
                    self.packer_ok(),
                    self.same_but_packer(&before),
                    before.same_but_packer(old(self)),
                    i <= count,
                    count <= 8,
                    want == bits_of(bits as nat, count as nat),
                    want.len() == count,
                    bytes_bits(self.emitted@).add(self.pending@) == b0.add(want.subrange(0, count - i)),
                    b0 == bytes_bits(e0).add(pend0),
                    pend0.len() < 8,
                    pend0.len() + (count - i) == 8 * (*output_size - pos0) + self.pending@.len(),
                    pos0 <= *output_size <= pos0 + 1,
                    pos0 <= out_buf@.len(),
                    pend0.len() + count >= 8 ==> pos0 < out_buf@.len(),
                    out_buf@.len() == old(out_buf)@.len(),
                    tail_kept(out_buf@, old(out_buf)@, *output_size as int),
                    out_buf@.subrange(0, pos0 as int) == old(out_buf)@.subrange(0, pos0 as int),
                    self.emitted@ == e0.add(out_buf@.subrange(pos0 as int, *output_size as int)),
                decreases i,
            {
                i = i - 1;
                let bit = bit_at(bits, i);
                proof {
                    lemma_bits_of_index(bits as nat, count as nat, (count - 1 - i) as int);
                    assert(want[count - 1 - i] == bit);
                }
                let ghost ob = out_buf@;
                let ghost pos1 = *output_size;
                let ghost e1 = self.emitted@;
                self.push_bit(bit, out_buf, output_size);
                proof {
                    assert(want.subrange(0, count - i) =~= want.subrange(0, count - i - 1).push(bit));
                    assert(b0.add(want.subrange(0, count - i)) =~= b0.add(want.subrange(0, count - i - 1)).push(bit));
                    assert(out_buf@.subrange(0, pos0 as int) =~= ob.subrange(0, pos0 as int));
                    assert(out_buf@.subrange(0, pos1 as int) == ob.subrange(0, pos1 as int));
                    assert(out_buf@.subrange(pos0 as int, pos1 as int) =~= ob.subrange(pos0 as int, pos1 as int));
                    assert(self.emitted@ =~= e0.add(out_buf@.subrange(pos0 as int, *output_size as int)));
                    if *output_size == pos1 {
                        assert(out_buf@.subrange(pos0 as int, *output_size as int) =~= ob.subrange(pos0 as int, pos1 as int));
                    } else {
                        assert(out_buf@.subrange(pos0 as int, *output_size as int) =~= ob.subrange(pos0 as int, pos1 as int).add(
                            out_buf@.subrange(pos1 as int, *output_size as int)));
                    }
                }
            }
            proof {
                assert(want.subrange(0, count as int) =~= want);
            }
        }
    }

    /// Writes a tag bit.
    #[inline]
    fn add_tag_bit(&mut self, out_buf: &mut [u8], output_size: &mut usize, tag: u8)
        requires
            old(self).packer_ok(),
            *old(output_size) < old(out_buf)@.len(),
            tag == 0 || tag == 1,
        ensures
            final(self).packer_ok(),
            final(self).same_but_packer(old(self)),
            bytes_bits(final(self).emitted@).add(final(self).pending@) == bytes_bits(
                old(self).emitted@,
            ).add(old(self).pending@).push(tag == 1),
            final(out_buf)@.len() == old(out_buf)@.len(),
            tail_kept(final(out_buf)@, old(out_buf)@, *final(output_size) as int),
            *old(output_size) <= *final(output_size) <= *old(output_size) + 1,
            final(out_buf)@.subrange(0, *old(output_size) as int) == old(out_buf)@.subrange(0, *old(output_size) as int),
            final(self).emitted@ == old(self).emitted@.add(
                final(out_buf)@.subrange(*old(output_size) as int, *final(output_size) as int),
            ),
    {
        self.push_bits(1, tag, out_buf, output_size);
        proof {
            lemma_bits_of_len(tag as nat, 1);
            lemma_bits_of_index(tag as nat, 1, 0);
            lemma2_to64();
            assert(bits_of(tag as nat, 1) =~= seq![tag == 1]);
        }
    }

    /// Writes up to eight of the field bits still queued, high bits first; returns
    /// how many it wrote.
    fn push_outgoing_bits(&mut self, out_buf: &mut [u8], output_size: &mut usize) -> (count: u8)
        requires
            old(self).packer_ok(),
            *old(output_size) < old(out_buf)@.len(),
            old(self).outgoing_bits_count <= 15,
        ensures
            final(self).packer_ok(),
            final(self).same_core(old(self)),
            count == (if old(self).outgoing_bits_count > 8 { 8 } else { old(self).outgoing_bits_count }),
            final(self).outgoing_bits_count == old(self).outgoing_bits_count - count,
            count == 0 ==> *final(self) == *old(self) && *final(output_size) == *old(output_size)
                && final(out_buf)@ == old(out_buf)@,
            count > 0 ==> bytes_bits(final(self).emitted@).add(final(self).pending@) == bytes_bits(
                old(self).emitted@,
            ).add(old(self).pending@).add(
                bits_of(
                    ((old(self).outgoing_bits >> ((old(self).outgoing_bits_count - count) as u16)) as u8) as nat,
                    count as nat,
                ),
            ),
            final(out_buf)@.len() == old(out_buf)@.len(),
            tail_kept(final(out_buf)@, old(out_buf)@, *final(output_size) as int),
            *old(output_size) <= *final(output_size) <= *old(output_size) + 1,
            final(out_buf)@.subrange(0, *old(output_size) as int) == old(out_buf)@.subrange(0, *old(output_size) as int),
            final(self).emitted@ == old(self).emitted@.add(
                final(out_buf)@.subrange(*old(output_size) as int, *final(output_size) as int),
            ),
    {
        let count: u8;
        let bits: u8;
        if self.outgoing_bits_count > 8 {
            count = 8;
            bits = (self.outgoing_bits >> (self.outgoing_bits_count - 8)) as u8;
        } else {
            count = self.outgoing_bits_count;
            bits = self.outgoing_bits as u8;
            proof {
                let v = self.outgoing_bits;
                assert((v >> 0u16) == v) by (bit_vector);
            }
        }
        if count > 0 {
            self.push_bits(count, bits, out_buf, output_size);
            self.outgoing_bits_count = self.outgoing_bits_count - count;
        } else {
            proof {
                assert(out_buf@.subrange(*output_size as int, *output_size as int) =~= Seq::<u8>::empty());
                assert(self.emitted@ =~= self.emitted@.add(Seq::<u8>::empty()));
            }
        }
        count
    }

    /// Writes the literal byte just scanned.
    #[inline]
    fn push_literal_byte(&mut self, out_buf: &mut [u8], output_size: &mut usize)
        requires
            old(self).packer_ok(),
            *old(output_size) < old(out_buf)@.len(),
            1 <= old(self).match_scan_index,
            old(self).input_buffer_size + old(self).match_scan_index <= old(self).buffer@.len(),
            old(self).input_buffer_size + old(self).match_scan_index <= 32768,
        ensures
            final(self).packer_ok(),
            final(self).same_but_packer(old(self)),
            bytes_bits(final(self).emitted@).add(final(self).pending@) == bytes_bits(
                old(self).emitted@,
            ).add(old(self).pending@).add(
                bits_of(
                    old(self).buffer@[old(self).input_buffer_size + old(self).match_scan_index - 1] as nat,
                    8,
                ),
            ),
            final(out_buf)@.len() == old(out_buf)@.len(),
            tail_kept(final(out_buf)@, old(out_buf)@, *final(output_size) as int),
            *old(output_size) <= *final(output_size) <= *old(output_size) + 1,
            final(out_buf)@.subrange(0, *old(output_size) as int) == old(out_buf)@.subrange(0, *old(output_size) as int),
            final(self).emitted@ == old(self).emitted@.add(
                final(out_buf)@.subrange(*old(output_size) as int, *final(output_size) as int),
            ),
    {
        let processed_offset: usize = self.match_scan_index - 1;
        let input_offset: usize = self.get_input_offset() + processed_offset;
        let c = self.buffer[input_offset];
        self.push_bits(8, c, out_buf, output_size);
    }

    /// Builds the chain index over the whole buffer: each offset links to the
    /// nearest earlier offset holding the same byte, or to -1.
    #[inline]
    fn do_indexing(&mut self)
        requires
            old(self).inv(),
        ensures
            final(self).inv(),
            final(self).index_links(),
            *final(self) == (Self { search_index: final(self).search_index, ..*old(self) }),
    {
        let mut last: [i16; 256] = [-1; 256];
        let input_offset: usize = self.get_input_offset();
        let end: usize = input_offset + self.input_size;
        let ghost before = *self;
        let mut i: usize = 0;
        while i < end
            invariant
                before.inv(),
                *self == (Self { search_index: self.search_index, ..before }),
                end == self.input_buffer_size + self.input_size,
                end <= self.search_index@.len(),
                self.search_index@.len() == before.search_index@.len(),
                i <= end,
                forall|v: int| 0 <= v < 256 ==> -1 <= #[trigger] last@[v] < i,
                forall|v: int| 0 <= v < 256 && last@[v] >= 0 ==> self.buffer@[last@[v] as int] == v,
                forall|v: int, j: int|
                    #![trigger last@[v], self.buffer@[j]]
                    0 <= v < 256 && last@[v] < j < i ==> self.buffer@[j] != v,
                forall|k: int, j: int|
                    #![trigger self.search_index@[k], self.buffer@[j]]
                    0 <= k < i && self.search_index@[k] < j < k ==> self.buffer@[j] != self.buffer@[k],
                forall|j: int| 0 <= j < self.search_index@.len() ==> -1 <= #[trigger] self.search_index@[j] < j,
                forall|j: int| 0 <= j < i && self.search_index@[j] >= 0 ==> self.buffer@[self.search_index@[j] as int] == #[trigger] self.buffer@[j],
            decreases end - i,
        {
            let v = self.buffer[i] as usize;
            self.search_index.set(i, last[v]);
            last[v] = i as i16;
            i = i + 1;
        }
    }

    /// Longest match for the bytes at `end` that starts in `[start, end)`, following the
    /// chain from `end`; the latest of equally long ones wins. Returns its distance and
    /// sets `match_length`, or `MATCH_NOT_FOUND` when no match is longer than the
    /// break-even point.
    fn find_longest_match(&self, start: usize, end: usize, maxlen: usize, match_length: &mut usize) -> (r: u16)
        requires
            self.inv(),
            self.index_links(),
            start + self.input_buffer_size == end,
            self.input_buffer_size <= end,
            end + maxlen <= self.input_buffer_size + self.input_size,
            1 <= maxlen,
        ensures
            ({
                let ml = best_len(self.buffer@, start as int, end as int, end as int, maxlen as nat);
                &&& ml > break_even(self.window_sz2 as nat, self.lookahead_sz2 as nat) ==> r == end - best_pos(
                    self.buffer@,
                    start as int,
                    end as int,
                    end as int,
                    maxlen as nat,
                ) && *final(match_length) == ml
                &&& ml <= break_even(self.window_sz2 as nat, self.lookahead_sz2 as nat) ==> r == MATCH_NOT_FOUND
            }),
            r == MATCH_NOT_FOUND ==> *final(match_length) == *old(match_length),
            r != MATCH_NOT_FOUND ==> {
                &&& 1 <= r <= self.input_buffer_size
                &&& break_even(self.window_sz2 as nat, self.lookahead_sz2 as nat) < *final(match_length) <= maxlen
                &&& forall|k: int| 0 <= k < *final(match_length) ==> #[trigger] self.buffer@[end - r + k]
                    == self.buffer@[end + k]
            },
    {
        let ghost s = self.buffer@;
        let ghost e = end as int;
        let ghost m = maxlen as nat;
        let mut match_maxlen: usize = 0;
        let mut match_index: u16 = MATCH_NOT_FOUND;
        let mut pos: i16 = self.search_index[end];
        let ghost mut top: int = e;
        let break_even_point: usize = ((8 + self.get_window_bits() + self.get_lookahead_bits()) / 8) as usize;
        while pos - (start as i16) >= 0
            invariant_except_break
                match_maxlen < maxlen,
                match_maxlen == best_len(s, top, e, e, m),
                match_maxlen > 0 ==> match_index == best_pos(s, top, e, e, m),
            invariant
                forall|q: int| pos < q < top ==> #[trigger] s[q] != s[e],
                start <= top,
                s == self.buffer@,
                e == end,
                m == maxlen,
                self.inv(),
                self.index_links(),
                start + self.input_buffer_size == end,
                self.input_buffer_size <= end,
                end + maxlen <= self.input_buffer_size + self.input_size,
                1 <= maxlen,
                -1 <= pos < top <= end,
                pos >= 0 ==> s[pos as int] == s[e],
                match_maxlen <= maxlen,
                match_maxlen > 0 ==> start <= match_index < end && forall|k: int|
                    0 <= k < match_maxlen ==> #[trigger] self.buffer@[match_index + k] == self.buffer@[end + k],
            ensures
                (pos < start && match_maxlen == best_len(s, top, e, e, m) && (match_maxlen > 0
                    ==> match_index == best_pos(s, top, e, e, m))) || (match_maxlen == best_len(
                    s,
                    start as int,
                    e,
                    e,
                    m,
                ) && (match_maxlen > 0 ==> match_index == best_pos(s, start as int, e, e, m))),
            decreases pos + 1,
        {
            let posidx: usize = pos as usize;
            proof {
                assert forall|q: int| pos < q < top implies #[trigger] lcp(s, q, e, m) == 0 by {
                    assert(s[q] != s[e]);
                }
                lemma_best_skip(s, pos + 1, top, e, e, m);
            }
            if self.buffer[posidx + match_maxlen] != self.buffer[end + match_maxlen] {
                proof {
                    if lcp(s, pos as int, e, m) > match_maxlen {
                        lemma_lcp_prefix(s, pos as int, e, m, match_maxlen as int);
                    }
                    top = pos as int;
                    let nxt = self.search_index@[pos as int];
                    assert forall|q: int| nxt < q < top implies #[trigger] s[q] != s[e] by {
                        assert(s[q] != s[pos as int]);
                    }
                }
                pos = self.search_index[posidx];
                continue;
            }
            let mut len: usize = 1;
            while len < maxlen
                invariant
                    1 <= len <= maxlen,
                    posidx < end,
                    end + maxlen <= self.buffer@.len(),
                    self.buffer@.len() <= 32768,
                    s == self.buffer@,
                    forall|k: int| 0 <= k < len ==> #[trigger] self.buffer@[posidx + k] == self.buffer@[end + k],
                ensures
                    1 <= len <= maxlen,
                    forall|k: int| 0 <= k < len ==> #[trigger] self.buffer@[posidx + k] == self.buffer@[end + k],
                    len == maxlen || self.buffer@[posidx + len] != self.buffer@[end + len],
                decreases maxlen - len,
            {
                if self.buffer[posidx + len] != self.buffer[end + len] {
                    break;
                }
                len = len + 1;
            }
            proof {
                lemma_lcp_exact(s, pos as int, e, m, len as nat);
            }
            if len > match_maxlen {
                match_maxlen = len;
                match_index = pos as u16;
                if len == maxlen {
                    proof {
                        lemma_best_capped(s, start as int, pos as int, e, e, m);
                    }
                    break;
                }
            }
            proof {
                top = pos as int;
                let nxt = self.search_index@[pos as int];
                assert forall|q: int| nxt < q < top implies #[trigger] s[q] != s[e] by {
                    assert(s[q] != s[pos as int]);
                }
            }
            pos = self.search_index[posidx];
        }
        proof {
            if pos < start && match_maxlen == best_len(s, top, e, e, m) && (match_maxlen > 0
                ==> match_index == best_pos(s, top, e, e, m)) {
                assert forall|q: int| start <= q < top implies #[trigger] lcp(s, q, e, m) == 0 by {
                    assert(s[q] != s[e]);
                }
                lemma_best_skip(s, start as int, top, e, e, m);
            }
        }
        if match_maxlen > break_even_point {
            *match_length = match_maxlen;
            end as u16 - match_index
        } else {
            MATCH_NOT_FOUND
        }
    }

    /// What every step keeps: the input, the parameters, the flags.
    spec fn stepped(&self, other: &Self) -> bool {
        &&& self.sunk == other.sunk
        &&& self.window_sz2 == other.window_sz2
        &&& self.lookahead_sz2 == other.lookahead_sz2
        &&& self.flags == other.flags
    }

    /// The search over the buffer picks what the greedy parse of the input picks.
    proof fn lemma_pick_is_greedy(&self, maxlen: nat)
        requires
            self.inv(),
            self.state == HSEState::Search,
            self.match_scan_index < self.input_size,
            maxlen == (if self.lookahead_size < self.input_size - self.match_scan_index {
                self.lookahead_size as int
            } else {
                self.input_size - self.match_scan_index
            }),
        ensures
            ({
                let n = self.input_buffer_size as int;
                let msi = self.match_scan_index as int;
                let ml = best_len(self.buffer@, msi, n + msi, n + msi, maxlen);
                let t = greedy_token(
                    self.sunk@,
                    self.window_sz2 as nat,
                    self.lookahead_sz2 as nat,
                    (self.base@ + msi) as nat,
                );
                &&& ml > break_even(self.window_sz2 as nat, self.lookahead_sz2 as nat) ==> t == Token::Backref {
                    dist: (n + msi - best_pos(self.buffer@, msi, n + msi, n + msi, maxlen)) as nat,
                    len: ml,
                }
                &&& ml <= break_even(self.window_sz2 as nat, self.lookahead_sz2 as nat) ==> t == Token::Literal(
                    self.buffer@[n + msi],
                )
            }),
    {
        let n = self.input_buffer_size as int;
        let msi = self.match_scan_index as int;
        let z = padded(self.sunk@, self.window_sz2 as nat);
        assert(z =~= self.padded());
        assert forall|i: int| msi <= i < n + msi + maxlen implies #[trigger] self.buffer@[i] == z[i + self.base@] by {
            assert(self.buffer@[i] == self.padded()[self.base@ + i]);
        }
        lemma_best_shift(self.buffer@, z, msi, n + msi, n + msi, maxlen, self.base@ as int);
        assert(self.buffer@[n + msi] == z[n + msi + self.base@]);
    }

    /// Looks for a match at the scan position and picks the next token; at the end
    /// of the window, moves on to saving the backlog, or to flushing when finishing.
    #[verifier::spinoff_prover]
    #[verifier::rlimit(60)]
    fn st_step_search(&mut self) -> (next: HSEState)
        requires
            old(self).inv(),
            old(self).index_links(),
            old(self).state == HSEState::Search,
        ensures
            final(self).inv(),
            final(self).state == next,
            final(self).stepped(old(self)),
            next != HSEState::SaveBacklog ==> final(self).index_links(),
            final(self).emitted == old(self).emitted,
            final(self).potential() < old(self).potential(),
            old(self).match_scan_index + (if old(self).finishing() {
                1
            } else {
                old(self).lookahead_size
            }) > old(self).input_size ==> {
                &&& next == (if old(self).finishing() {
                    HSEState::FlushBits
                } else {
                    HSEState::SaveBacklog
                })
                &&& *final(self) == (Self { state: next, ..*old(self) })
            },
            old(self).match_scan_index + (if old(self).finishing() {
                1
            } else {
                old(self).lookahead_size
            }) <= old(self).input_size ==> next == HSEState::YieldTagBit,
    {
        proof {
            lemma2_to64();
            lemma_pow2_bounds(self.lookahead_sz2 as nat);
        }
        let window_length: usize = self.input_buffer_size;
        let lookahead_sz: usize = self.lookahead_size;
        let msi: usize = self.match_scan_index;
        let fin = self.is_finishing();
        if msi + (if fin { 1 } else { lookahead_sz }) > self.input_size {
            if fin {
                self.state = HSEState::FlushBits;
                return HSEState::FlushBits;
            } else {
                self.state = HSEState::SaveBacklog;
                return HSEState::SaveBacklog;
            }
        }
        let input_offset: usize = self.get_input_offset();
        let end: usize = input_offset + msi;
        let start: usize = end - window_length;
        let mut max_possible: usize = lookahead_sz;
        if self.input_size - msi < lookahead_sz {
            max_possible = self.input_size - msi;
        }
        let mut match_length: usize = 0;
        proof {
            self.lemma_pick_is_greedy(max_possible as nat);
        }
        let match_pos = self.find_longest_match(start, end, max_possible, &mut match_length);
        if match_pos == MATCH_NOT_FOUND {
            proof {
                self.lemma_literal_pick();
            }
            self.match_scan_index = self.match_scan_index + 1;
            self.match_length = 0;
            proof {
                self.cur@ = Token::Literal(self.buffer@[self.input_buffer_size + msi]);
            }
            self.state = HSEState::YieldTagBit;
            HSEState::YieldTagBit
        } else {
            proof {
                self.lemma_backref_pick(match_pos as nat, match_length as nat);
            }
            self.match_pos = match_pos;
            self.match_length = match_length;
            proof {
                self.cur@ = Token::Backref { dist: match_pos as nat, len: match_length as nat };
            }
            self.state = HSEState::YieldTagBit;
            HSEState::YieldTagBit
        }
    }

    /// A literal picked at the scan position extends the tokens by one input byte.
    proof fn lemma_literal_pick(&self)
        requires
            self.inv(),
            self.match_scan_index < self.input_size,
            !self.in_token(),
        ensures
            ({
                let msi = self.match_scan_index as int;
                let t = Token::Literal(self.buffer@[self.input_buffer_size + msi]);
                let w = self.window_sz2 as nat;
                let l = self.lookahead_sz2 as nat;
                &&& expand(Seq::empty(), self.tokens@.push(t)) == self.sunk@.subrange(
                    0,
                    self.base@ + msi + 1,
                )
                &&& token_bits(t, w, l).subrange(0, 0) == Seq::<bool>::empty()
                &&& token_bits(t, w, l).len() == 9
            }),
    {
        let n = self.input_buffer_size as int;
        let msi = self.match_scan_index as int;
        let c = self.base@ + msi;
        let b = self.buffer@[n + msi];
        assert(b == self.padded()[self.base@ + n + msi]);
        assert(b == self.sunk@[c]);
        let t = Token::Literal(b);
        lemma_expand_push(self.tokens@, t);
        assert(self.sunk@.subrange(0, c + 1) =~= self.sunk@.subrange(0, c).push(b));
        lemma_bits_of_len(b as nat, 8);
        assert(token_bits(t, self.window_sz2 as nat, self.lookahead_sz2 as nat).subrange(0, 0) =~= Seq::<bool>::empty());
    }

    /// A match found at the scan position extends the tokens by its length.
    proof fn lemma_backref_pick(&self, d: nat, len: nat)
        requires
            self.inv(),
            !self.in_token(),
            1 <= d <= self.input_buffer_size,
            break_even(self.window_sz2 as nat, self.lookahead_sz2 as nat) < len,
            self.match_scan_index + len <= self.input_size,
            forall|k: int|
                0 <= k < len ==> #[trigger] self.buffer@[self.input_buffer_size + self.match_scan_index - d + k]
                    == self.buffer@[self.input_buffer_size + self.match_scan_index + k],
        ensures
            ({
                let t = Token::Backref { dist: d, len };
                let w = self.window_sz2 as nat;
                let l = self.lookahead_sz2 as nat;
                &&& expand(Seq::empty(), self.tokens@.push(t)) == self.sunk@.subrange(
                    0,
                    self.base@ + self.match_scan_index + len,
                )
                &&& token_bits(t, w, l).subrange(0, 0) == Seq::<bool>::empty()
                &&& token_bits(t, w, l).len() == 1 + w + l
                &&& 8 * len > 1 + w + l
            }),
    {
        let n = self.input_buffer_size as nat;
        let msi = self.match_scan_index as int;
        let end = n + msi;
        let c = (self.base@ + msi) as nat;
        let z = self.padded();
        let w = self.window_sz2 as nat;
        let l = self.lookahead_sz2 as nat;
        assert(self.sunk@.subrange(0, c as int) =~= z.subrange(n as int, (n + c) as int));
        assert forall|k: int| 0 <= k < len implies #[trigger] z[n + c + k - d] == z[n + c + k] by {
            assert(self.buffer@[end - d + k] == self.buffer@[end + k]);
            assert(self.buffer@[end - d + k] == z[self.base@ + (end - d + k)]);
            assert(self.buffer@[end + k] == z[self.base@ + (end + k)]);
        }
        assert forall|i: int| 0 <= i < n implies z[i] == 0 by {}
        crate::format::lemma_copy_match(z, n, c, d, len);
        assert(z.subrange(n as int, (n + c + len) as int) =~= self.sunk@.subrange(0, (c + len) as int));
        let t = Token::Backref { dist: d, len };
        lemma_expand_push(self.tokens@, t);
        lemma_bits_of_len((d - 1) as nat, w);
        lemma_bits_of_len((len - 1) as nat, l);
        assert(token_bits(t, w, l).subrange(0, 0) =~= Seq::<bool>::empty());
        let q = (1 + w + l) as int;
        assert(8 * len > q) by {
            vstd::arithmetic::div_mod::lemma_fundamental_div_mod(q, 8);
        }
    }

    /// Writes the tag bit of the token picked.
    fn st_yield_tag_bit(&mut self, out_buf: &mut [u8], output_size: &mut usize) -> (next: HSEState)
        requires
            old(self).inv(),
            old(self).state == HSEState::YieldTagBit,
            *old(output_size) <= old(out_buf)@.len(),
        ensures
            final(self).inv(),
            final(self).state == next,
            final(self).stepped(old(self)),
            old(self).index_links() && next != HSEState::NotFull ==> final(self).index_links(),
            final(out_buf)@.len() == old(out_buf)@.len(),
            tail_kept(final(out_buf)@, old(out_buf)@, *final(output_size) as int),
            *old(output_size) <= *final(output_size) <= final(out_buf)@.len(),
            final(out_buf)@.subrange(0, *old(output_size) as int) == old(out_buf)@.subrange(0, *old(output_size) as int),
            final(self).emitted@ == old(self).emitted@.add(
                final(out_buf)@.subrange(*old(output_size) as int, *final(output_size) as int),
            ),
            final(self).potential() + (*final(output_size) - *old(output_size)) < old(self).potential()
                || (next == old(self).state && *final(self) == *old(self) && *final(output_size)
                == *old(output_size) && *old(output_size) == old(out_buf)@.len()),
    {
        if self.can_take_byte(*output_size, out_buf.len()) {
            let ghost w = self.window_sz2 as nat;
            let ghost l = self.lookahead_sz2 as nat;
            let ghost tb = tokens_bits(self.tokens@, w, l);
            proof {
                lemma_bits_of_len((self.match_pos - 1) as nat, w);
                lemma_bits_of_len((self.match_length - 1) as nat, l);
                match self.cur@ {
                    Token::Literal(b) => lemma_bits_of_len(b as nat, 8),
                    _ => {},
                }
                assert(token_bits(self.cur@, w, l).subrange(0, 0) =~= Seq::<bool>::empty());
                assert(tb.add(Seq::<bool>::empty()).add(zero_bits(0)) =~= tb);
            }
            if self.match_length == 0 {
                self.add_tag_bit(out_buf, output_size, HEATSHRINK_LITERAL_MARKER);
                self.state = HSEState::YieldLiteral;
                proof {
                    assert(token_bits(self.cur@, w, l).subrange(0, 1) =~= seq![true]);
                    assert(tb.add(seq![true]).add(zero_bits(0)) =~= tb.push(true));
                }
                HSEState::YieldLiteral
            } else {
                self.add_tag_bit(out_buf, output_size, HEATSHRINK_BACKREF_MARKER);
                self.outgoing_bits = self.match_pos - 1;
                self.outgoing_bits_count = self.get_window_bits();
                self.state = HSEState::YieldBrIndex;
                proof {
                    assert(token_bits(self.cur@, w, l).subrange(0, 1) =~= seq![false]);
                    assert(tb.add(seq![false]).add(zero_bits(0)) =~= tb.push(false));
                }
                HSEState::YieldBrIndex
            }
        } else {
            proof {
                assert(out_buf@.subrange(*output_size as int, *output_size as int) =~= Seq::<u8>::empty());
                assert(self.emitted@ =~= self.emitted@.add(Seq::<u8>::empty()));
            }
            HSEState::YieldTagBit
        }
    }

    /// Writes the eight bits of the literal byte.
    fn st_yield_literal(&mut self, out_buf: &mut [u8], output_size: &mut usize) -> (next: HSEState)
        requires
            old(self).inv(),
            old(self).state == HSEState::YieldLiteral,
            *old(output_size) <= old(out_buf)@.len(),
        ensures
            final(self).inv(),
            final(self).state == next,
            final(self).stepped(old(self)),
            old(self).index_links() && next != HSEState::NotFull ==> final(self).index_links(),
            final(out_buf)@.len() == old(out_buf)@.len(),
            tail_kept(final(out_buf)@, old(out_buf)@, *final(output_size) as int),
            *old(output_size) <= *final(output_size) <= final(out_buf)@.len(),
            final(out_buf)@.subrange(0, *old(output_size) as int) == old(out_buf)@.subrange(0, *old(output_size) as int),
            final(self).emitted@ == old(self).emitted@.add(
                final(out_buf)@.subrange(*old(output_size) as int, *final(output_size) as int),
            ),
            final(self).potential() + (*final(output_size) - *old(output_size)) < old(self).potential()
                || (next == old(self).state && *final(self) == *old(self) && *final(output_size)
                == *old(output_size) && *old(output_size) == old(out_buf)@.len()),
    {
        if self.can_take_byte(*output_size, out_buf.len()) {
            let ghost w = self.window_sz2 as nat;
            let ghost l = self.lookahead_sz2 as nat;
            let ghost ts = self.tokens@;
            let ghost t = self.cur@;
            proof {
                let p = self.tok_start();
                lemma_walk_step(self.sunk@, w, l, 0, p);
                if !self.finishing() {
                    lemma_walk_stable_step(self.sunk@, w, l, 0, p);
                }
            }
            self.push_literal_byte(out_buf, output_size);
            self.state = HSEState::Search;
            proof {
                let b = self.buffer@[self.input_buffer_size + self.match_scan_index - 1];
                lemma_bits_of_len(b as nat, 8);
                lemma_tokens_bits_push(ts, t, w, l);
                assert(token_bits(t, w, l).subrange(0, 1) =~= seq![true]);
                assert(token_bits(t, w, l) =~= seq![true].add(bits_of(b as nat, 8)));
                assert(tokens_bits(ts, w, l).add(seq![true]).add(zero_bits(0)).add(bits_of(b as nat, 8))
                    =~= tokens_bits(ts.push(t), w, l).add(Seq::<bool>::empty()).add(zero_bits(0)));
                self.tokens@ = ts.push(t);
            }
            HSEState::Search
        } else {
            proof {
                assert(out_buf@.subrange(*output_size as int, *output_size as int) =~= Seq::<u8>::empty());
                assert(self.emitted@ =~= self.emitted@.add(Seq::<u8>::empty()));
            }
            HSEState::YieldLiteral
        }
    }

    /// Writes the bits of the back-reference distance, up to eight at a time.
    fn st_yield_br_index(&mut self, out_buf: &mut [u8], output_size: &mut usize) -> (next: HSEState)
        requires
            old(self).inv(),
            old(self).state == HSEState::YieldBrIndex,
            *old(output_size) <= old(out_buf)@.len(),
        ensures
            final(self).inv(),
            final(self).state == next,
            final(self).stepped(old(self)),
            old(self).index_links() && next != HSEState::NotFull ==> final(self).index_links(),
            final(out_buf)@.len() == old(out_buf)@.len(),
            tail_kept(final(out_buf)@, old(out_buf)@, *final(output_size) as int),
            *old(output_size) <= *final(output_size) <= final(out_buf)@.len(),
            final(out_buf)@.subrange(0, *old(output_size) as int) == old(out_buf)@.subrange(0, *old(output_size) as int),
            final(self).emitted@ == old(self).emitted@.add(
                final(out_buf)@.subrange(*old(output_size) as int, *final(output_size) as int),
            ),
            final(self).potential() + (*final(output_size) - *old(output_size)) < old(self).potential()
                || (next == old(self).state && *final(self) == *old(self) && *final(output_size)
                == *old(output_size) && *old(output_size) == old(out_buf)@.len()),
    {
        if self.can_take_byte(*output_size, out_buf.len()) {
            let ghost w = self.window_sz2 as nat;
            let ghost l = self.lookahead_sz2 as nat;
            let ghost obc0 = self.outgoing_bits_count as nat;
            let ghost v = self.outgoing_bits;
            let ghost t = self.cur@;
            let ghost tb = tokens_bits(self.tokens@, w, l);
            proof {
                lemma_bits_of_len((self.match_pos - 1) as nat, w);
                lemma_bits_of_len((self.match_length - 1) as nat, l);
                assert(token_bits(t, w, l) =~= seq![false].add(bits_of(v as nat, w)).add(bits_of((self.match_length - 1) as nat, l)));
            }
            let count = self.push_outgoing_bits(out_buf, output_size);
            if count > 0 {
                proof {
                    lemma_field_chunk(v, w, obc0, count as nat);
                    let a = (1 + w - obc0) as int;
                    assert(token_bits(t, w, l).subrange(0, a + count) =~= token_bits(t, w, l).subrange(0, a).add(
                        bits_of(v as nat, w).subrange(w - obc0, w - obc0 + count)));
                    assert(tb.add(token_bits(t, w, l).subrange(0, a)).add(zero_bits(0)).add(
                        bits_of(v as nat, w).subrange(w - obc0, w - obc0 + count)) =~= tb.add(
                        token_bits(t, w, l).subrange(0, a + count)).add(zero_bits(0)));
                }
                HSEState::YieldBrIndex
            } else {
                proof {
                    lemma_pow2_bounds(l);
                }
                self.outgoing_bits = (self.match_length - 1) as u16;
                self.outgoing_bits_count = self.get_lookahead_bits();
                self.state = HSEState::YieldBrLength;
                HSEState::YieldBrLength
            }
        } else {
            proof {
                assert(out_buf@.subrange(*output_size as int, *output_size as int) =~= Seq::<u8>::empty());
                assert(self.emitted@ =~= self.emitted@.add(Seq::<u8>::empty()));
            }
            HSEState::YieldBrIndex
        }
    }

    /// Writes the bits of the back-reference length, up to eight at a time.
    fn st_yield_br_length(&mut self, out_buf: &mut [u8], output_size: &mut usize) -> (next: HSEState)
        requires
            old(self).inv(),
            old(self).state == HSEState::YieldBrLength,
            *old(output_size) <= old(out_buf)@.len(),
        ensures
            final(self).inv(),
            final(self).state == next,
            final(self).stepped(old(self)),
            old(self).index_links() && next != HSEState::NotFull ==> final(self).index_links(),
            final(out_buf)@.len() == old(out_buf)@.len(),
            tail_kept(final(out_buf)@, old(out_buf)@, *final(output_size) as int),
            *old(output_size) <= *final(output_size) <= final(out_buf)@.len(),
            final(out_buf)@.subrange(0, *old(output_size) as int) == old(out_buf)@.subrange(0, *old(output_size) as int),
            final(self).emitted@ == old(self).emitted@.add(
                final(out_buf)@.subrange(*old(output_size) as int, *final(output_size) as int),
            ),
            final(self).potential() + (*final(output_size) - *old(output_size)) < old(self).potential()
                || (next == old(self).state && *final(self) == *old(self) && *final(output_size)
                == *old(output_size) && *old(output_size) == old(out_buf)@.len()),
    {
        if self.can_take_byte(*output_size, out_buf.len()) {
            let ghost w = self.window_sz2 as nat;
            let ghost l = self.lookahead_sz2 as nat;
            let ghost obc0 = self.outgoing_bits_count as nat;
            let ghost v = self.outgoing_bits;
            let ghost t = self.cur@;
            let ghost ts = self.tokens@;
            let ghost tb = tokens_bits(ts, w, l);
            proof {
                lemma_bits_of_len((self.match_pos - 1) as nat, w);
                lemma_bits_of_len((self.match_length - 1) as nat, l);
                assert(token_bits(t, w, l) =~= seq![false].add(bits_of((self.match_pos - 1) as nat, w)).add(bits_of(v as nat, l)));
            }
            let count = self.push_outgoing_bits(out_buf, output_size);
            if count > 0 {
                proof {
                    lemma_field_chunk(v, l, obc0, count as nat);
                    let a = (1 + w + l - obc0) as int;
                    assert(token_bits(t, w, l).subrange(0, a + count) =~= token_bits(t, w, l).subrange(0, a).add(
                        bits_of(v as nat, l).subrange(l - obc0, l - obc0 + count)));
                    assert(tb.add(token_bits(t, w, l).subrange(0, a)).add(zero_bits(0)).add(
                        bits_of(v as nat, l).subrange(l - obc0, l - obc0 + count)) =~= tb.add(
                        token_bits(t, w, l).subrange(0, a + count)).add(zero_bits(0)));
                }
                HSEState::YieldBrLength
            } else {
                proof {
                    let p = self.tok_start();
                    lemma_walk_step(self.sunk@, w, l, 0, p);
                    if !self.finishing() {
                        lemma_walk_stable_step(self.sunk@, w, l, 0, p);
                    }
                }
                self.match_scan_index = self.match_scan_index + self.match_length;
                self.match_length = 0;
                self.state = HSEState::Search;
                proof {
                    lemma_tokens_bits_push(ts, t, w, l);
                    assert(token_bits(t, w, l).subrange(0, (1 + w + l) as int) =~= token_bits(t, w, l));
                    assert(tb.add(token_bits(t, w, l)).add(zero_bits(0)) =~= tokens_bits(ts.push(t), w, l).add(Seq::<bool>::empty()).add(zero_bits(0)));
                    self.tokens@ = ts.push(t);
                }
                HSEState::Search
            }
        } else {
            proof {
                assert(out_buf@.subrange(*output_size as int, *output_size as int) =~= Seq::<u8>::empty());
                assert(self.emitted@ =~= self.emitted@.add(Seq::<u8>::empty()));
            }
            HSEState::YieldBrLength
        }
    }

    /// Moves the window down by the bytes already encoded: what was scanned becomes
    /// history, and the rest of the window waits for more input.
    fn save_backlog(&mut self)
        requires
            old(self).inv(),
            old(self).state == HSEState::SaveBacklog,
        ensures
            *final(self) == (Self {
                buffer: final(self).buffer,
                match_scan_index: 0,
                input_size: (old(self).input_size - old(self).match_scan_index) as usize,
                base: Ghost((old(self).base@ + old(self).match_scan_index) as nat),
                ..*old(self)
            }),
            final(self).buffer@.len() == old(self).buffer@.len(),
            forall|x: int|
                0 <= x < 2 * old(self).input_buffer_size - old(self).match_scan_index ==> #[trigger] final(self).buffer@[x]
                    == old(self).buffer@[x + old(self).match_scan_index],
    {
        let rem: usize = self.input_buffer_size - self.match_scan_index;
        let shift_sz: usize = self.input_buffer_size + rem;
        let src: usize = self.input_buffer_size - rem;
        let ghost before = *self;
        let mut i: usize = 0;
        while i < shift_sz
            invariant
                *self == (Self { buffer: self.buffer, ..before }),
                before.inv(),
                src == before.match_scan_index,
                shift_sz + src == 2 * before.input_buffer_size,
                self.buffer@.len() == before.buffer@.len(),
                i <= shift_sz,
                forall|j: int| 0 <= j < i ==> #[trigger] self.buffer@[j] == before.buffer@[src + j],
                forall|j: int| i <= j < self.buffer@.len() ==> #[trigger] self.buffer@[j] == before.buffer@[j],
            decreases shift_sz - i,
        {
            let c = self.buffer[src + i];
            self.buffer.set(i, c);
            i = i + 1;
        }
        self.match_scan_index = 0;
        self.input_size = self.input_size - (self.input_buffer_size - rem);
        proof {
            self.base@ = (self.base@ + src) as nat;
        }
    }

    #[inline]
    fn st_save_backlog(&mut self) -> (next: HSEState)
        requires
            old(self).inv(),
            old(self).state == HSEState::SaveBacklog,
        ensures
            final(self).inv(),
            final(self).state == next,
            next == HSEState::NotFull,
            final(self).stepped(old(self)),
            final(self).emitted == old(self).emitted,
            final(self).potential() < old(self).potential(),
    {
        let ghost before = *self;
        self.save_backlog();
        self.state = HSEState::NotFull;
        proof {
            let m = before.match_scan_index;
            assert(self.padded() == before.padded());
            assert forall|x: int| 0 <= x < self.input_buffer_size + self.input_size implies #[trigger] self.buffer@[x]
                == self.padded()[self.base@ + x] by {
                assert(self.buffer@[x] == before.buffer@[x + m]);
                assert(before.buffer@[x + m] == before.padded()[before.base@ + (x + m)]);
            }
            assert(self.sunk@.subrange(0, self.base@ + self.match_scan_index) == before.sunk@.subrange(0, before.base@ + before.match_scan_index));
        }
        HSEState::NotFull
    }

    /// Writes the last, partly filled byte, if any; then the encoder is done.
    fn st_flush_bit_buffer(&mut self, out_buf: &mut [u8], output_size: &mut usize) -> (next: HSEState)
        requires
            old(self).inv(),
            old(self).state == HSEState::FlushBits,
            *old(output_size) <= old(out_buf)@.len(),
        ensures
            final(self).inv(),
            final(self).state == next,
            final(self).stepped(old(self)),
            old(self).index_links() && next != HSEState::NotFull ==> final(self).index_links(),
            final(out_buf)@.len() == old(out_buf)@.len(),
            tail_kept(final(out_buf)@, old(out_buf)@, *final(output_size) as int),
            *old(output_size) <= *final(output_size) <= final(out_buf)@.len(),
            final(out_buf)@.subrange(0, *old(output_size) as int) == old(out_buf)@.subrange(0, *old(output_size) as int),
            final(self).emitted@ == old(self).emitted@.add(
                final(out_buf)@.subrange(*old(output_size) as int, *final(output_size) as int),
            ),
            final(self).potential() + (*final(output_size) - *old(output_size)) < old(self).potential()
                || (next == old(self).state && *final(self) == *old(self) && *final(output_size)
                == *old(output_size) && *old(output_size) == old(out_buf)@.len()),
    {
        let ghost pend0 = self.pending@;
        let ghost n = pend0.len();
        proof {
            lemma2_to64();
        }
        if self.bit_index == 0x80 {
            proof {
                if n > 0 {
                    vstd::arithmetic::power2::lemma_pow2_strictly_increases((7 - n) as nat, 7);
                }
                assert(zero_bits(0) =~= Seq::<bool>::empty());
                assert(out_buf@.subrange(*output_size as int, *output_size as int) =~= Seq::<u8>::empty());
                assert(self.emitted@ =~= self.emitted@.add(Seq::<u8>::empty()));
            }
            self.state = HSEState::Done;
            HSEState::Done
        } else if self.can_take_byte(*output_size, out_buf.len()) {
            let ghost pos0 = *output_size;
            let ghost e0 = self.emitted@;
            let c = self.current_byte;
            out_buf[*output_size] = c;
            *output_size = *output_size + 1;
            proof {
                assert(n > 0);
                let k = (8 - n) as nat;
                let z = zero_bits(k);
                let full = pend0.add(z);
                assert(bits_value(z) == 0) by {
                    lemma_zero_value(k);
                }
                crate::format::lemma_value_concat(pend0, z);
                lemma_value_bound(full);
                lemma_bits_of_value(full);
                lemma_byte_bits(c);
                assert(c == bits_value(full));
                lemma_bytes_bits_concat(e0, seq![c]);
                assert(seq![c].drop_first() =~= Seq::<u8>::empty());
                assert(seq![c][0] == c);
                assert(bytes_bits(Seq::<u8>::empty()) =~= Seq::<bool>::empty());
                assert(bytes_bits(seq![c]) == byte_bits(c).add(bytes_bits(seq![c].drop_first())));
                assert(bytes_bits(seq![c]) =~= full);
                self.emitted@ = e0.push(c);
                assert(e0.push(c) =~= e0.add(seq![c]));
                self.pending@ = Seq::empty();
                self.pad@ = k;
                let tb = tokens_bits(self.tokens@, self.window_sz2 as nat, self.lookahead_sz2 as nat);
                assert(bytes_bits(e0).add(pend0) == tb.add(Seq::<bool>::empty()).add(zero_bits(0)));
                assert(tb.add(Seq::<bool>::empty()).add(zero_bits(0)) =~= tb);
                assert(bytes_bits(self.emitted@).add(self.pending@) =~= tb.add(Seq::<bool>::empty()).add(zero_bits(k)));
                assert(out_buf@.subrange(pos0 as int, *output_size as int) =~= seq![c]);
                assert(out_buf@.subrange(0, pos0 as int) =~= old(out_buf)@.subrange(0, pos0 as int));
            }
            self.state = HSEState::Done;
            HSEState::Done
        } else {
            proof {
                assert(out_buf@.subrange(*output_size as int, *output_size as int) =~= Seq::<u8>::empty());
                assert(self.emitted@ =~= self.emitted@.add(Seq::<u8>::empty()));
            }
            HSEState::FlushBits
        }
    }

    /// Polls for output, writing up to `out_buf.len()` bytes to `out_buf` from its
    /// start: `More` when `out_buf` is full, `Empty` when more input (or nothing) is
    /// needed to go on.
    pub fn poll(&mut self, out_buf: &mut [u8]) -> (r: HSEPollRes)
        requires
            old(self).wf(),
        ensures
            final(self).wf(),
            final(self).input() == old(self).input(),
            final(self).window_bits() == old(self).window_bits(),
            final(self).lookahead_bits() == old(self).lookahead_bits(),
            final(self).finishing() == old(self).finishing(),
            final(out_buf)@.len() == old(out_buf)@.len(),
            r matches HSEPollRes::Empty(n) ==> tail_kept(final(out_buf)@, old(out_buf)@, n as int),
            old(out_buf)@.len() > 0 && (old(self).accepts_input() || old(self).is_done()) ==> r
                == HSEPollRes::Empty(0) && *final(self) == *old(self),
            old(out_buf)@.len() == 0 <==> r == HSEPollRes::ErrorMisuse,
            r == HSEPollRes::ErrorMisuse ==> *final(self) == *old(self),
            r != HSEPollRes::ErrorNull,
            r matches HSEPollRes::Empty(n) ==> {
                &&& n <= final(out_buf)@.len()
                &&& final(self).output() == old(self).output().add(final(out_buf)@.subrange(0, n as int))
                &&& old(self).finishing() ==> final(self).is_done()
                &&& !old(self).finishing() ==> final(self).accepts_input() && final(self).free_space() > 0
                &&& final(self).potential() + n <= old(self).potential()
            },
            r matches HSEPollRes::More(n) ==> {
                &&& n == final(out_buf)@.len()
                &&& final(self).output() == old(self).output().add(final(out_buf)@)
                &&& final(self).potential() + n < old(self).potential()
            },
            final(self).is_done() ==> encodes(
                final(self).output(),
                final(self).input(),
                final(self).window_bits(),
                final(self).lookahead_bits(),
            ),
            final(self).is_done() ==> packs(
                final(self).output(),
                greedy(final(self).input(), final(self).window_bits(), final(self).lookahead_bits()),
                final(self).window_bits(),
                final(self).lookahead_bits(),
            ),
            forall|x: Seq<u8>, b: Seq<u8>|
                is_prefix(final(self).input(), x) && (final(self).finishing() ==> x
                    == final(self).input()) && #[trigger] packs(
                    b,
                    greedy(x, final(self).window_bits(), final(self).lookahead_bits()),
                    final(self).window_bits(),
                    final(self).lookahead_bits(),
                ) ==> is_prefix(final(self).output(), b),
    {
        if out_buf.len() == 0 {
            proof {
                if self.state == HSEState::Done {
                    self.lemma_done_encodes();
                }
                self.lemma_output_prefixes();
            }
            return HSEPollRes::ErrorMisuse;
        }
        let r = self.poll_from(out_buf, 0);
        proof {
            assert(out_buf@.subrange(0, out_buf@.len() as int) =~= out_buf@);
            self.lemma_output_prefixes();
        }
        r
    }

    /// Runs the state machine, writing output to `out_buf` from offset `start` on;
    /// the count returned is of the bytes written after `start`.
    #[verifier::spinoff_prover]
    #[verifier::rlimit(80)]
    fn poll_from(&mut self, out_buf: &mut [u8], start: usize) -> (r: HSEPollRes)
        requires
            old(self).wf(),
            start < old(out_buf)@.len(),
        ensures
            final(self).wf(),
            final(self).input() == old(self).input(),
            final(self).window_bits() == old(self).window_bits(),
            final(self).lookahead_bits() == old(self).lookahead_bits(),
            final(self).finishing() == old(self).finishing(),
            final(out_buf)@.len() == old(out_buf)@.len(),
            r matches HSEPollRes::Empty(n) ==> tail_kept(final(out_buf)@, old(out_buf)@, start + n),
            old(self).accepts_input() || old(self).is_done() ==> r == HSEPollRes::Empty(0)
                && *final(self) == *old(self),
            final(out_buf)@.subrange(0, start as int) == old(out_buf)@.subrange(0, start as int),
            r is Empty || r is More,
            r matches HSEPollRes::Empty(n) ==> {
                &&& start + n <= final(out_buf)@.len()
                &&& final(self).output() == old(self).output().add(final(out_buf)@.subrange(start as int, start + n))
                &&& old(self).finishing() ==> final(self).is_done()
                &&& !old(self).finishing() ==> final(self).accepts_input() && final(self).free_space() > 0
                &&& final(self).potential() + n <= old(self).potential()
            },
            r matches HSEPollRes::More(n) ==> {
                &&& start + n == final(out_buf)@.len()
                &&& final(self).output() == old(self).output().add(final(out_buf)@.subrange(start as int, start + n))
                &&& final(self).potential() + n < old(self).potential()
            },
            final(self).is_done() ==> encodes(
                final(self).output(),
                final(self).input(),
                final(self).window_bits(),
                final(self).lookahead_bits(),
            ),
            final(self).is_done() ==> packs(
                final(self).output(),
                greedy(final(self).input(), final(self).window_bits(), final(self).lookahead_bits()),
                final(self).window_bits(),
                final(self).lookahead_bits(),
            ),
    {
        let mut output_size: usize = start;
        let ghost e0 = self.emitted@;
        proof {
            assert(out_buf@.subrange(start as int, start as int) =~= Seq::<u8>::empty());
            assert(e0 =~= e0.add(Seq::<u8>::empty()));
        }
        loop
            invariant
                self.inv(),
                self.stepped(old(self)),
                (self.state == HSEState::Search || self.in_token()) ==> self.index_links(),
                out_buf@.len() == old(out_buf)@.len(),
                tail_kept(out_buf@, old(out_buf)@, output_size as int),
                start < out_buf@.len(),
                start <= output_size <= out_buf@.len(),
                out_buf@.subrange(0, start as int) == old(out_buf)@.subrange(0, start as int),
                self.emitted@ == e0.add(out_buf@.subrange(start as int, output_size as int)),
                e0 == old(self).emitted@,
                self.potential() + (output_size - start) <= old(self).potential(),
                self.potential() + (output_size - start) < old(self).potential() || (*self == *old(self)
                    && output_size == start),
                old(self).state == HSEState::NotFull || old(self).state == HSEState::Done ==> *self
                    == *old(self) && output_size == start,
            decreases self.potential(),
        {
            let in_state = self.state;
            let ghost pos0 = output_size;
            let ghost ob0 = out_buf@;
            let next = match in_state {
                HSEState::Done | HSEState::NotFull => {
                    proof {
                        if in_state == HSEState::Done {
                            self.lemma_done_encodes();
                        }
                    }
                    return HSEPollRes::Empty(output_size - start);
                },
                HSEState::Filled => {
                    self.do_indexing();
                    self.state = HSEState::Search;
                    HSEState::Search
                },
                HSEState::Search => self.st_step_search(),
                HSEState::YieldTagBit => self.st_yield_tag_bit(out_buf, &mut output_size),
                HSEState::YieldLiteral => self.st_yield_literal(out_buf, &mut output_size),
                HSEState::YieldBrIndex => self.st_yield_br_index(out_buf, &mut output_size),
                HSEState::YieldBrLength => self.st_yield_br_length(out_buf, &mut output_size),
                HSEState::SaveBacklog => self.st_save_backlog(),
                HSEState::FlushBits => self.st_flush_bit_buffer(out_buf, &mut output_size),
            };
            proof {
                assert(out_buf@.subrange(0, pos0 as int) == ob0.subrange(0, pos0 as int));
                assert(out_buf@.subrange(0, start as int) =~= ob0.subrange(0, start as int));
                assert forall|i: int| start <= i < pos0 implies out_buf@[i] == ob0[i] by {
                    assert(out_buf@.subrange(0, pos0 as int)[i] == ob0.subrange(0, pos0 as int)[i]);
                }
                assert(out_buf@.subrange(start as int, pos0 as int) =~= ob0.subrange(start as int, pos0 as int));
                assert(out_buf@.subrange(start as int, output_size as int) =~= ob0.subrange(start as int, pos0 as int).add(
                    out_buf@.subrange(pos0 as int, output_size as int),
                ));
                assert(self.emitted@ =~= e0.add(out_buf@.subrange(start as int, output_size as int)));
            }
            if next == in_state {
                if output_size == out_buf.len() {
                    return HSEPollRes::More(output_size - start);
                }
            }
        }
    }

    /// Sinks all of `in_buf`, polling output into `out_buf` whenever the window is
    /// full. `More(n)` when `out_buf` filled up after `n` bytes were sunk: poll, then
    /// sink the rest. `Empty(n)`, with `n == in_buf.len()`, once all of it is sunk.
    #[inline]
    pub fn sink_all(&mut self, in_buf: &[u8], out_buf: &mut [u8]) -> (r: HSEPollRes)
        requires
            old(self).wf(),
        ensures
            final(self).wf(),
            final(self).window_bits() == old(self).window_bits(),
            final(self).lookahead_bits() == old(self).lookahead_bits(),
            final(self).finishing() == old(self).finishing(),
            final(out_buf)@.len() == old(out_buf)@.len(),
            (r == HSEPollRes::ErrorMisuse) == (old(out_buf)@.len() == 0 || (in_buf@.len() > 0
                && !old(self).accepts_input())),
            r == HSEPollRes::ErrorMisuse ==> *final(self) == *old(self),
            r != HSEPollRes::ErrorNull,
            r matches HSEPollRes::Empty(n) ==> {
                &&& n == in_buf@.len()
                &&& final(self).input() == old(self).input().add(in_buf@)
                &&& exists|k: int|
                    0 <= k <= final(out_buf)@.len() && final(self).output() == old(self).output().add(
                        #[trigger] final(out_buf)@.subrange(0, k),
                    )
            },
            r matches HSEPollRes::More(n) ==> {
                &&& n <= in_buf@.len()
                &&& final(self).input() == old(self).input().add(in_buf@.subrange(0, n as int))
                &&& final(self).output() == old(self).output().add(final(out_buf)@)
            },
    {
        if out_buf.len() == 0 {
            return HSEPollRes::ErrorMisuse;
        }
        let mut sunk: usize = 0;
        let mut polled: usize = 0;
        let ghost i0 = self.sunk@;
        let ghost e0 = self.emitted@;
        proof {
            assert(out_buf@.subrange(0, 0) =~= Seq::<u8>::empty());
            assert(e0 =~= e0.add(Seq::<u8>::empty()));
            assert(i0 =~= i0.add(in_buf@.subrange(0, 0)));
        }
        while sunk < in_buf.len()
            invariant
                self.wf(),
                self.stepped_params(old(self)),
                i0 == old(self).input(),
                e0 == old(self).output(),
                sunk <= in_buf@.len(),
                polled <= out_buf@.len(),
                old(out_buf)@.len() > 0,
                out_buf@.len() == old(out_buf)@.len(),
                self.input() == i0.add(in_buf@.subrange(0, sunk as int)),
                self.output() == e0.add(out_buf@.subrange(0, polled as int)),
                sunk == 0 ==> *self == *old(self) && polled == 0,
                sunk > 0 ==> self.accepts_input() && self.free_space() > 0,
                sunk > 0 ==> old(self).accepts_input(),
            decreases in_buf@.len() - sunk,
        {
            let rest = vstd::slice::slice_subrange(in_buf, sunk, in_buf.len());
            match self.sink(rest) {
                HSESinkRes::Sunk(sz) => {
                    proof {
                        assert(in_buf@.subrange(0, (sunk + sz) as int) =~= in_buf@.subrange(0, sunk as int).add(
                            rest@.subrange(0, sz as int),
                        ));
                    }
                    sunk = sunk + sz;
                },
                _ => {
                    return HSEPollRes::ErrorMisuse;
                },
            }
            loop
                invariant
                    self.wf(),
                    self.stepped_params(old(self)),
                    !self.finishing(),
                    0 < sunk <= in_buf@.len(),
                    old(out_buf)@.len() > 0,
                    old(self).accepts_input(),
                    i0 == old(self).input(),
                    e0 == old(self).output(),
                    polled <= out_buf@.len(),
                    out_buf@.len() == old(out_buf)@.len(),
                    self.input() == i0.add(in_buf@.subrange(0, sunk as int)),
                    self.output() == e0.add(out_buf@.subrange(0, polled as int)),
                ensures
                    self.accepts_input() && self.free_space() > 0,
                decreases out_buf@.len() - polled,
            {
                if polled == out_buf.len() {
                    proof {
                        assert(out_buf@.subrange(0, polled as int) =~= out_buf@);
                    }
                    return HSEPollRes::More(sunk);
                }
                let ghost ob = out_buf@;
                match self.poll_from(out_buf, polled) {
                    HSEPollRes::Empty(sz) => {
                        proof {
                            assert(out_buf@.subrange(0, (polled + sz) as int) =~= ob.subrange(0, polled as int).add(
                                out_buf@.subrange(polled as int, (polled + sz) as int),
                            ));
                            assert(ob.subrange(0, polled as int) == out_buf@.subrange(0, polled as int));
                        }
                        polled = polled + sz;
                        break;
                    },
                    HSEPollRes::More(sz) => {
                        proof {
                            assert(out_buf@.subrange(0, (polled + sz) as int) =~= ob.subrange(0, polled as int).add(
                                out_buf@.subrange(polled as int, (polled + sz) as int),
                            ));
                            assert(ob.subrange(0, polled as int) == out_buf@.subrange(0, polled as int));
                        }
                        polled = polled + sz;
                    },
                    _ => {
                        return vstd::pervasive::unreached();
                    },
                }
            }
        }
        proof {
            assert(in_buf@.subrange(0, sunk as int) =~= in_buf@);
        }
        HSEPollRes::Empty(sunk)
    }

    /// The parameters are those of `other`.
    spec fn stepped_params(&self, other: &Self) -> bool {
        &&& self.window_sz2 == other.window_sz2
        &&& self.lookahead_sz2 == other.lookahead_sz2
        &&& self.flags == other.flags
    }

    /// Once the encoder is done, what it has written is a token stream that expands to
    /// all that it was given, padded to whole bytes with fewer than eight zero bits.
    pub proof fn lemma_finished_encodes(&self)
        requires
            self.wf(),
            self.is_done(),
        ensures
            encodes(self.output(), self.input(), self.window_bits(), self.lookahead_bits()),
            packs(
                self.output(),
                greedy(self.input(), self.window_bits(), self.lookahead_bits()),
                self.window_bits(),
                self.lookahead_bits(),
            ),
    {
        self.lemma_done_encodes();
    }

    /// What the encoder has written begins every encoding that its input may still
    /// grow into: that of any extension of the input before `finish`, that of the
    /// input itself after.
    pub proof fn lemma_output_prefix(&self, x: Seq<u8>, b: Seq<u8>)
        requires
            self.wf(),
            is_prefix(self.input(), x),
            self.finishing() ==> x == self.input(),
            packs(b, greedy(x, self.window_bits(), self.lookahead_bits()), self.window_bits(), self.lookahead_bits()),
        ensures
            is_prefix(self.output(), b),
    {
        let w = self.window_sz2 as nat;
        let l = self.lookahead_sz2 as nat;
        if self.state == HSEState::Done {
            self.lemma_done_encodes();
            crate::common::lemma_packs_unique(self.emitted@, b, greedy(x, w, l), w, l);
            assert(b.subrange(0, b.len() as int) =~= b);
        } else {
            let full = tokens_bits(greedy(x, w, l), w, l);
            self.lemma_written_bits_prefix(x);
            let k = choose|k: nat| #![trigger zero_bits(k)] k < 8 && bytes_bits(b) == full.add(zero_bits(k));
            let bo = bytes_bits(self.emitted@);
            let bb = bytes_bits(b);
            assert forall|i: int| 0 <= i < bo.len() implies bb[i] == bo[i] by {
                assert(full.subrange(0, bo.len() as int)[i] == bo[i]);
            }
            assert(bb.subrange(0, bo.len() as int) =~= bo);
            lemma_bytes_bits_prefix(self.emitted@, b);
        }
    }

    /// Before the end, the bits written begin the bits of every encoding that the
    /// input may still grow into.
    #[verifier::spinoff_prover]
    proof fn lemma_written_bits_prefix(&self, x: Seq<u8>)
        requires
            self.wf(),
            self.state != HSEState::Done,
            is_prefix(self.input(), x),
            self.finishing() ==> x == self.input(),
        ensures
            is_prefix(
                bytes_bits(self.emitted@),
                tokens_bits(greedy(x, self.window_sz2 as nat, self.lookahead_sz2 as nat), self.window_sz2 as nat, self.lookahead_sz2 as nat),
            ),
    {
        let w = self.window_sz2 as nat;
        let l = self.lookahead_sz2 as nat;
        let sunk = self.sunk@;
        let more = x.subrange(sunk.len() as int, x.len() as int);
        assert(x =~= sunk.add(more));
        let p = self.tok_start();
        let t0 = self.tokens@;
        lemma_pow2_bounds(l);
        if !self.finishing() {
            lemma_walk_extend(sunk, more, w, l, 0, p);
        }
        lemma_greedy_walk_valid(x, w, l, p);
        lemma_upto_split(x, w, l, 0, p, x.len());
        let r = greedy_upto(x, w, l, p, x.len());
        lemma_tokens_bits_concat(t0, r, w, l);
        let full = tokens_bits(greedy(x, w, l), w, l);
        let base_bits = tokens_bits(t0, w, l);
        let sent = if self.in_token() {
            token_bits(self.cur@, w, l).subrange(0, self.cur_sent() as int)
        } else {
            Seq::empty()
        };
        let s_bits = base_bits.add(sent);
        assert(zero_bits(0) =~= Seq::<bool>::empty());
        assert(s_bits.add(zero_bits(0)) =~= s_bits);
        if self.in_token() {
            if !self.finishing() {
                lemma_token_stable(sunk, more, w, l, p);
            }
            lemma_greedy_token_valid(x, w, l, p);
            let c = self.cur@;
            assert(r == seq![c].add(greedy_upto(x, w, l, p + span(c), x.len())));
            assert(r[0] == c);
            assert(r.drop_first() =~= greedy_upto(x, w, l, p + span(c), x.len()));
            assert(tokens_bits(r, w, l) == token_bits(c, w, l).add(tokens_bits(r.drop_first(), w, l)));
            assert forall|i: int| 0 <= i < s_bits.len() implies full[i] == s_bits[i] by {
                if i >= base_bits.len() {
                    assert(full[i] == tokens_bits(r, w, l)[i - base_bits.len()]);
                    assert(tokens_bits(r, w, l)[i - base_bits.len()] == token_bits(c, w, l)[i - base_bits.len()]);
                }
            }
        } else {
            assert(s_bits =~= base_bits);
        }
        let bo = bytes_bits(self.emitted@);
        assert(bo.add(self.pending@) == s_bits);
        assert forall|i: int| 0 <= i < bo.len() implies full[i] == bo[i] by {
            assert(bo[i] == bo.add(self.pending@)[i]);
        }
        assert(full.subrange(0, bo.len() as int) =~= bo);
    }

    /// `lemma_output_prefix` for every possible input and encoding at once.
    proof fn lemma_output_prefixes(&self)
        requires
            self.wf(),
        ensures
            forall|x: Seq<u8>, b: Seq<u8>|
                is_prefix(self.input(), x) && (self.finishing() ==> x == self.input())
                    && #[trigger] packs(
                    b,
                    greedy(x, self.window_bits(), self.lookahead_bits()),
                    self.window_bits(),
                    self.lookahead_bits(),
                ) ==> is_prefix(self.output(), b),
    {
        assert forall|x: Seq<u8>, b: Seq<u8>|
            is_prefix(self.input(), x) && (self.finishing() ==> x == self.input())
                && #[trigger] packs(
                b,
                greedy(x, self.window_bits(), self.lookahead_bits()),
                self.window_bits(),
                self.lookahead_bits(),
            ) implies is_prefix(self.output(), b) by {
            self.lemma_output_prefix(x, b);
        }
    }

    /// A finished encoder's output is a token stream for all of its input.
    proof fn lemma_done_encodes(&self)
        requires
            self.inv(),
            self.state == HSEState::Done,
        ensures
            encodes(self.output(), self.input(), self.window_bits(), self.lookahead_bits()),
            packs(
                self.output(),
                greedy(self.input(), self.window_bits(), self.lookahead_bits()),
                self.window_bits(),
                self.lookahead_bits(),
            ),
    {
        let w = self.window_sz2 as nat;
        let l = self.lookahead_sz2 as nat;
        assert(self.sunk@.subrange(0, self.base@ + self.match_scan_index) =~= self.sunk@);
        assert(bytes_bits(self.emitted@).add(self.pending@) =~= bytes_bits(self.emitted@));
        assert(tokens_bits(self.tokens@, w, l).add(Seq::<bool>::empty()) =~= tokens_bits(self.tokens@, w, l));
        let ts = self.tokens@;
        let k = self.pad@;
        assert(tokens_bits(ts, w, l) == tokens_bits(ts, w, l) && zero_bits(k) == zero_bits(k));
        assert(self.tok_start() == self.sunk@.len());
        assert(ts == greedy(self.sunk@, w, l));
    }
}


/// Zero bits have value zero.
proof fn lemma_zero_value(k: nat)
    ensures
        bits_value(zero_bits(k)) == 0,
    decreases k,
{
    if k > 0 {
        assert(zero_bits(k).drop_last() =~= zero_bits((k - 1) as nat));
        lemma_zero_value((k - 1) as nat);
    }
}


} // verus!
