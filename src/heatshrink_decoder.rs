//! Streaming decoder: a bit-level state machine that rebuilds the uncompressed
//! bytes from the token stream, keeping a circular window of its output.
use vstd::prelude::*;
use vstd::arithmetic::power2::{pow2, lemma2_to64};
use crate::common::{
    valid_params, pow2_usize, lemma_pow2_bounds, lemma_bytes_bits_len, lemma_byte_tail_len, lemma_mask_threshold,
    HEATSHRINK_MIN_WINDOW_BITS, HEATSHRINK_MAX_WINDOW_BITS, HEATSHRINK_MIN_LOOKAHEAD_BITS,
};
use crate::format::{
    tail_kept,
    Token, bits_value, byte_tail, bytes_bits, is_bit_mask, mask_len, tokens_bits,
    token_bits, tokens_fit, token_fits, parse, hist, copy_back, apply, expand, decoded,
    lemma_bytes_bits_concat, lemma_parse_tokens, lemma_tokens_bits_push, lemma_value_concat,
    lemma_bits_of_value, lemma_value_bound, lemma_value_push, lemma_expand_concat,
    lemma_expand_prefix, lemma_copy_back_prefix,
};

verus! {

/// Marks that a read found too few input bits.
const NO_BITS: u16 = 0xffff;

/// Result of [`HeatshrinkDecoder::sink`].
#[derive(Copy, Clone, Debug, PartialEq, Eq, Structural)]
pub enum HSDSinkRes {
    /// Data sunk, ready to poll; holds the number of bytes taken.
    Sunk(usize),
    /// Out of space in the input buffer: poll before sinking more.
    Full,
    /// Empty argument.
    ErrorNull,
}

/// Result of [`HeatshrinkDecoder::poll`].
#[derive(Copy, Clone, Debug, PartialEq, Eq, Structural)]
pub enum HSDPollRes {
    /// Input exhausted; holds the number of bytes written.
    Empty(usize),
    /// The output buffer is full: poll again; holds the number of bytes written.
    More(usize),
    /// Empty argument.
    ErrorNull,
    /// Unknown error.
    ErrorUnknown,
}

/// Result of [`HeatshrinkDecoder::finish`].
#[derive(Copy, Clone, Debug, PartialEq, Eq, Structural)]
pub enum HSDFinishRes {
    /// Output is done.
    Done,
    /// More output remains: poll.
    More,
    /// Empty argument.
    ErrorNull,
}

/// States of the decoder's state machine.
#[derive(Copy, Clone, Debug, PartialEq, Eq, Structural)]
enum HSDState {
    /// Reading a tag bit.
    TagBit,
    /// Ready to yield a literal byte.
    YieldLiteral,
    /// Reading the high bits of a back-reference distance.
    BackrefIndexMSB,
    /// Reading the low eight bits of a back-reference distance.
    BackrefIndexLSB,
    /// Reading the high bits of a back-reference length.
    BackrefCountMSB,
    /// Reading the low eight bits of a back-reference length.
    BackrefCountLSB,
    /// Copying the bytes of a back-reference.
    YieldBackref,
}

/// The heatshrink decoder.
pub struct HeatshrinkDecoder {
    /// Bytes in the input ring.
    input_size: u16,
    /// Offset of the next unread byte of the input ring.
    input_index: u16,
    /// Bytes of the current back-reference still to copy.
    output_count: u16,
    /// Distance of the current back-reference.
    output_index: u16,
    /// Slot of the window that the next byte goes to.
    head_index: u16,
    /// Current state machine node.
    state: HSDState,
    /// Byte that bits are being read from.
    current_byte: u8,
    /// Mask of the next bit of `current_byte`; zero when none is left.
    bit_index: u8,
    /// Window exponent.
    window_sz2: u8,
    /// Lookahead exponent.
    lookahead_sz2: u8,
    /// Capacity of the input ring.
    input_buffer_size: u16,
    /// Input ring, then the window.
    buffers: Vec<u8>,
    /// Every byte taken in by `sink`.
    sunk: Ghost<Seq<u8>>,
    /// Every byte handed out by `poll`.
    emitted: Ghost<Seq<u8>>,
    /// Tokens read completely.
    done: Ghost<Seq<Token>>,
    /// Bits read of the token under way.
    partial: Ghost<Seq<bool>>,
}

/// The bits of a complete back-reference: a zero tag, the distance field `x`, then
/// the length field made of `part0`'s high length bits and `f`.
proof fn lemma_backref_bits(part0: Seq<bool>, f: Seq<bool>, w: nat, l: nat, oc: nat)
    requires
        4 <= w <= 14,
        3 <= l < w,
        part0.len() == 1 + w + (if l > 8 { l - 8 } else { 0 }),
        part0[0] == false,
        oc == bits_value(part0.subrange(1 + w as int, part0.len() as int)) * 256,
        f.len() == (if l < 8 { l } else { 8 }),
    ensures
        ({
            let t = Token::Backref {
                dist: bits_value(part0.subrange(1, 1 + w as int)) + 1,
                len: oc + bits_value(f) + 1,
            };
            &&& token_bits(t, w, l) == part0.add(f)
            &&& token_fits(t, w, l)
        }),
        oc + bits_value(f) + 1 <= pow2(l),
{
    let cm = part0.subrange(1 + w as int, part0.len() as int);
    let x = part0.subrange(1, 1 + w as int);
    lemma_value_concat(cm, f);
    lemma_value_bound(cm.add(f));
    lemma_value_bound(x);
    lemma2_to64();
    let y = cm.add(f);
    let vc = bits_value(cm);
    let q = pow2(f.len());
    assert(bits_value(y) == vc * q + bits_value(f));
    if l <= 8 {
        assert(cm =~= Seq::<bool>::empty());
        assert(vc == 0);
        assert(vc * q == 0) by (nonlinear_arith)
            requires
                vc == 0,
        ;
        assert(oc == vc * 256);
        assert(oc == 0) by (nonlinear_arith)
            requires
                oc == vc * 256,
                vc == 0,
        ;
    } else {
        assert(f.len() == 8);
        assert(q == 256);
        assert(oc == vc * q);
    }
    let part1 = part0.add(f);
    assert(bits_value(y) == oc + bits_value(f));
    lemma_bits_of_value(x);
    lemma_bits_of_value(y);
    assert(part1 =~= seq![false].add(x).add(y));
}

impl HeatshrinkDecoder {
    /// Every byte sunk so far.
    pub closed spec fn input(&self) -> Seq<u8> {
        self.sunk@
    }

    /// Every byte polled out so far.
    pub closed spec fn output(&self) -> Seq<u8> {
        self.emitted@
    }

    /// Window exponent `W`.
    pub closed spec fn window_bits(&self) -> nat {
        self.window_sz2 as nat
    }

    /// Lookahead exponent `L`.
    pub closed spec fn lookahead_bits(&self) -> nat {
        self.lookahead_sz2 as nat
    }

    /// Capacity of the input buffer.
    pub closed spec fn capacity(&self) -> nat {
        self.input_buffer_size as nat
    }

    /// What the input sunk so far decodes to.
    pub open spec fn target(&self) -> Seq<u8> {
        decoded(self.input(), self.window_bits(), self.lookahead_bits())
    }

    /// No input byte is waiting and no back-reference is being copied.
    pub closed spec fn is_drained(&self) -> bool {
        self.input_size == 0 && self.state != HSDState::YieldBackref
    }

    /// Bound on the work left before the decoder is drained.
    pub closed spec fn work(&self) -> nat {
        (2 * pow2(self.lookahead_sz2 as nat) + 1) * self.unread().len() + (if self.state
            == HSDState::YieldBackref {
            2 * self.output_count as nat
        } else {
            0nat
        })
    }

    spec fn window_len(&self) -> nat {
        pow2(self.window_sz2 as nat)
    }

    /// Bits sunk and not yet read, in stream order.
    spec fn unread(&self) -> Seq<bool> {
        byte_tail(self.current_byte, self.bit_index).add(
            bytes_bits(self.buffers@.subrange(self.input_index as int, self.input_size as int)),
        )
    }

    /// Fields of the configuration and of the bit reader are consistent.
    spec fn reader_ok(&self) -> bool {
        &&& valid_params(self.window_sz2, self.lookahead_sz2)
        &&& self.input_buffer_size >= 1
        &&& self.buffers@.len() == self.input_buffer_size + self.window_len()
        &&& self.input_size <= self.input_buffer_size
        &&& ((self.input_size == 0 && self.input_index == 0) || self.input_index
            < self.input_size)
        &&& is_bit_mask(self.bit_index)
        &&& self.bit_index < 0x80
    }

    /// The fields that reading bits leaves alone are those of `other`.
    spec fn same_but_reader(&self, other: &Self) -> bool {
        &&& self.output_count == other.output_count
        &&& self.output_index == other.output_index
        &&& self.head_index == other.head_index
        &&& self.state == other.state
        &&& self.window_sz2 == other.window_sz2
        &&& self.lookahead_sz2 == other.lookahead_sz2
        &&& self.input_buffer_size == other.input_buffer_size
        &&& self.buffers == other.buffers
        &&& self.sunk == other.sunk
        &&& self.emitted == other.emitted
        &&& self.done == other.done
        &&& self.partial == other.partial
    }

    /// Distance back from the head of the window of slot `j`.
    spec fn slot_dist(&self, j: int) -> nat {
        if j < self.head_index {
            (self.head_index - j) as nat
        } else {
            (self.head_index + self.window_len() - j) as nat
        }
    }

    /// The window holds the last `2^W` bytes of output.
    spec fn window_ok(&self) -> bool {
        &&& self.head_index < self.window_len()
        &&& forall|j: int|
            0 <= j < self.window_len() ==> #[trigger] self.buffers@[self.input_buffer_size + j]
                == hist(self.emitted@, self.slot_dist(j))
    }

    /// What the state machine has read so far stands for what it has written.
    spec fn tokens_ok(&self) -> bool {
        let w = self.window_sz2 as nat;
        let l = self.lookahead_sz2 as nat;
        let p = self.partial@;
        &&& bytes_bits(self.sunk@) == tokens_bits(self.done@, w, l).add(p).add(self.unread())
        &&& tokens_fit(self.done@, w, l)
        &&& match self.state {
            HSDState::TagBit => p.len() == 0 && self.emitted@ == expand(Seq::empty(), self.done@),
            HSDState::YieldLiteral => p == seq![true] && self.emitted@ == expand(
                Seq::empty(),
                self.done@,
            ),
            HSDState::BackrefIndexMSB => p == seq![false] && w > 8 && self.emitted@ == expand(
                Seq::empty(),
                self.done@,
            ),
            HSDState::BackrefIndexLSB => {
                &&& p.len() == 1 + (if w > 8 { w - 8 } else { 0 })
                &&& p[0] == false
                &&& self.output_index == bits_value(p.subrange(1, p.len() as int)) * 256
                &&& self.emitted@ == expand(Seq::empty(), self.done@)
            },
            HSDState::BackrefCountMSB => {
                &&& p.len() == 1 + w
                &&& p[0] == false
                &&& l > 8
                &&& self.output_index == bits_value(p.subrange(1, 1 + w as int)) + 1
                &&& self.emitted@ == expand(Seq::empty(), self.done@)
            },
            HSDState::BackrefCountLSB => {
                &&& p.len() == 1 + w + (if l > 8 { l - 8 } else { 0 })
                &&& p[0] == false
                &&& self.output_index == bits_value(p.subrange(1, 1 + w as int)) + 1
                &&& self.output_count == bits_value(p.subrange(1 + w as int, p.len() as int))
                    * 256
                &&& self.emitted@ == expand(Seq::empty(), self.done@)
            },
            HSDState::YieldBackref => {
                &&& p.len() == 0
                &&& 1 <= self.output_index <= self.window_len()
                &&& self.output_count >= 1
                &&& expand(Seq::empty(), self.done@) == copy_back(
                    self.emitted@,
                    self.output_index as nat,
                    self.output_count as nat,
                )
            },
        }
    }

    spec fn inv(&self) -> bool {
        self.reader_ok() && self.window_ok() && self.tokens_ok()
    }

    /// The decoder is well formed.
    pub closed spec fn wf(&self) -> bool {
        &&& self.inv()
        &&& self.is_drained() ==> parse(
            self.partial@.add(self.unread()),
            self.window_sz2 as nat,
            self.lookahead_sz2 as nat,
        ).len() == 0
    }

    /// Free room in the input buffer.
    pub closed spec fn free_space(&self) -> nat {
        (self.input_buffer_size - self.input_size) as nat
    }

    /// Constructs a decoder with an input buffer of `input_buffer_size` bytes, a window of
    /// `2^window_sz2` bytes and back-references of up to `2^lookahead_sz2` bytes; `None`
    /// when the parameters are out of range.
    pub fn new(input_buffer_size: u16, window_sz2: u8, lookahead_sz2: u8) -> (r: Option<Self>)
        ensures
            r.is_some() <==> (valid_params(window_sz2, lookahead_sz2) && input_buffer_size >= 1),
            r matches Some(d) ==> {
                &&& d.wf()
                &&& d.input() == Seq::<u8>::empty()
                &&& d.output() == Seq::<u8>::empty()
                &&& d.window_bits() == window_sz2
                &&& d.lookahead_bits() == lookahead_sz2
                &&& d.capacity() == input_buffer_size
                &&& d.free_space() == input_buffer_size
                &&& d.is_drained()
            },
    {
        if window_sz2 < HEATSHRINK_MIN_WINDOW_BITS || window_sz2 > HEATSHRINK_MAX_WINDOW_BITS
            || input_buffer_size == 0 || lookahead_sz2 < HEATSHRINK_MIN_LOOKAHEAD_BITS
            || lookahead_sz2 >= window_sz2 {
            return None;
        }
        proof {
            lemma_pow2_bounds(window_sz2 as nat);
        }
        let buffers_sz: usize = pow2_usize(window_sz2) + input_buffer_size as usize;
        let buffers: Vec<u8> = vec![0; buffers_sz];
        let d = HeatshrinkDecoder {
            input_size: 0,
            input_index: 0,
            output_count: 0,
            output_index: 0,
            head_index: 0,
            state: HSDState::TagBit,
            current_byte: 0,
            bit_index: 0,
            window_sz2,
            lookahead_sz2,
            input_buffer_size,
            buffers,
            sunk: Ghost(Seq::empty()),
            emitted: Ghost(Seq::empty()),
            done: Ghost(Seq::empty()),
            partial: Ghost(Seq::empty()),
        };
        proof {
            assert(d.buffers@.subrange(0, 0) =~= Seq::<u8>::empty());
            assert(d.unread() =~= Seq::<bool>::empty());
            assert(tokens_bits(d.done@, window_sz2 as nat, lookahead_sz2 as nat) =~= Seq::<bool>::empty());
            assert(bytes_bits(d.sunk@) =~= Seq::<bool>::empty());
            assert(tokens_bits(d.done@, window_sz2 as nat, lookahead_sz2 as nat).add(d.partial@).add(d.unread()) =~= Seq::<bool>::empty());
            assert forall|j: int| 0 <= j < d.window_len() implies #[trigger] d.buffers@[d.input_buffer_size + j]
                == hist(d.emitted@, d.slot_dist(j)) by {
                assert(cloned::<u8>(0u8, d.buffers@[d.input_buffer_size + j]));
            }
        }
        Some(d)
    }

    /// Sinks as much of `in_buf` as fits into the input buffer.
    pub fn sink(&mut self, in_buf: &[u8]) -> (r: HSDSinkRes)
        requires
            old(self).wf(),
        ensures
            final(self).wf(),
            final(self).window_bits() == old(self).window_bits(),
            final(self).lookahead_bits() == old(self).lookahead_bits(),
            final(self).capacity() == old(self).capacity(),
            final(self).output() == old(self).output(),
            in_buf@.len() == 0 ==> r == HSDSinkRes::ErrorNull,
            in_buf@.len() > 0 && old(self).free_space() == 0 ==> r == HSDSinkRes::Full,
            in_buf@.len() > 0 && old(self).free_space() > 0 ==> r == HSDSinkRes::Sunk(
                if in_buf@.len() < old(self).free_space() {
                    in_buf@.len() as usize
                } else {
                    old(self).free_space() as usize
                },
            ),
            match r {
                HSDSinkRes::Sunk(n) => {
                    &&& final(self).input() == old(self).input().add(in_buf@.subrange(0, n as int))
                    &&& final(self).free_space() == old(self).free_space() - n
                    &&& !final(self).is_drained()
                },
                _ => *final(self) == *old(self),
            },
    {
        if in_buf.len() == 0 {
            return HSDSinkRes::ErrorNull;
        }
        let rem: usize = self.input_buffer_size as usize - self.input_size as usize;
        if rem == 0 {
            return HSDSinkRes::Full;
        }
        let size: usize = if rem < in_buf.len() { rem } else { in_buf.len() };
        let start: usize = self.input_size as usize;
        let ghost before = *self;
        let mut i: usize = 0;
        while i < size
            invariant
                i <= size,
                size <= in_buf@.len(),
                start + size <= self.input_buffer_size,
                start == self.input_size,
                self.buffers@.len() == before.buffers@.len(),
                self.buffers@.len() == self.input_buffer_size + pow2(self.window_sz2 as nat),
                forall|j: int| 0 <= j < start ==> self.buffers@[j] == before.buffers@[j],
                forall|j: int| start + size <= j < self.buffers@.len() ==> self.buffers@[j] == before.buffers@[j],
                forall|j: int| 0 <= j < i ==> self.buffers@[start + j] == in_buf@[j],
                self.input_size == before.input_size,
                self.input_index == before.input_index,
                self.input_buffer_size == before.input_buffer_size,
                self.current_byte == before.current_byte,
                self.bit_index == before.bit_index,
                self.window_sz2 == before.window_sz2,
                self.lookahead_sz2 == before.lookahead_sz2,
                self.head_index == before.head_index,
                self.state == before.state,
                self.output_count == before.output_count,
                self.output_index == before.output_index,
                self.sunk == before.sunk,
                self.emitted == before.emitted,
                self.done == before.done,
                self.partial == before.partial,
            decreases size - i,
        {
            self.buffers[start + i] = in_buf[i];
            i = i + 1;
        }
        self.input_size = self.input_size + size as u16;
        proof {
            let added = in_buf@.subrange(0, size as int);
            self.sunk@ = self.sunk@.add(added);
            assert(self.buffers@.subrange(self.input_index as int, self.input_size as int) =~=
                before.buffers@.subrange(before.input_index as int, before.input_size as int).add(added));
            lemma_bytes_bits_concat(
                before.buffers@.subrange(before.input_index as int, before.input_size as int), added);
            lemma_bytes_bits_concat(before.sunk@, added);
            assert(self.unread() =~= before.unread().add(bytes_bits(added)));
            let tb = tokens_bits(self.done@, self.window_sz2 as nat, self.lookahead_sz2 as nat);
            assert(tb.add(self.partial@).add(self.unread()) =~= tb.add(before.partial@).add(before.unread()).add(bytes_bits(added)));
            assert forall|j: int| 0 <= j < self.window_len() implies #[trigger] self.buffers@[self.input_buffer_size + j]
                == hist(self.emitted@, self.slot_dist(j)) by {
                assert(before.buffers@[before.input_buffer_size + j] == hist(before.emitted@, before.slot_dist(j)));
            }
        }
        HSDSinkRes::Sunk(size)
    }

    /// Reports `Done` when no input is left to read and no back-reference is being
    /// copied; otherwise `More`: poll again.
    pub fn finish(&self) -> (r: HSDFinishRes)
        requires
            self.wf(),
        ensures
            (r == HSDFinishRes::Done) == self.is_drained(),
            (r == HSDFinishRes::More) == !self.is_drained(),
            r == HSDFinishRes::Done ==> self.output() == self.target(),
    {
        let r = match self.state {
            HSDState::TagBit => {
                if self.input_size == 0 {
                    HSDFinishRes::Done
                } else {
                    HSDFinishRes::More
                }
            },
            HSDState::BackrefIndexLSB | HSDState::BackrefIndexMSB | HSDState::BackrefCountLSB
            | HSDState::BackrefCountMSB => {
                if self.input_size == 0 {
                    HSDFinishRes::Done
                } else {
                    HSDFinishRes::More
                }
            },
            HSDState::YieldLiteral => {
                if self.input_size == 0 {
                    HSDFinishRes::Done
                } else {
                    HSDFinishRes::More
                }
            },
            _ => HSDFinishRes::More,
        };
        proof {
            if r == HSDFinishRes::Done {
                self.lemma_drained_output();
            }
        }
        r
    }

    /// The input buffer holds at least one byte and at most `u16::MAX`; its free room
    /// is part of it.
    pub proof fn lemma_capacity(&self)
        requires
            self.wf(),
        ensures
            1 <= self.capacity() <= 65535,
            self.free_space() <= self.capacity(),
    {
    }

    /// What the decoder has written is a prefix of what its input decodes to.
    pub proof fn lemma_output_prefix(&self)
        requires
            self.wf(),
        ensures
            self.output().len() <= self.target().len(),
            self.target().subrange(0, self.output().len() as int) == self.output(),
    {
        let w = self.window_sz2 as nat;
        let l = self.lookahead_sz2 as nat;
        let rest = self.partial@.add(self.unread());
        lemma_parse_tokens(self.done@, rest, w, l);
        assert(tokens_bits(self.done@, w, l).add(self.partial@).add(self.unread()) =~= tokens_bits(self.done@, w, l).add(rest));
        let x = expand(Seq::empty(), self.done@);
        lemma_expand_concat(Seq::empty(), self.done@, parse(rest, w, l));
        lemma_expand_prefix(x, parse(rest, w, l));
        let t = self.target();
        assert(t.subrange(0, x.len() as int) == x);
        if self.state == HSDState::YieldBackref {
            lemma_copy_back_prefix(self.emitted@, self.output_index as nat, self.output_count as nat);
        } else {
            assert(x.subrange(0, x.len() as int) =~= x);
        }
        assert(x.subrange(0, self.emitted@.len() as int) == self.emitted@);
        assert(t.subrange(0, self.emitted@.len() as int) =~= t.subrange(0, x.len() as int).subrange(0, self.emitted@.len() as int));
    }

    /// A drained decoder has written all that its input decodes to.
    proof fn lemma_drained_output(&self)
        requires
            self.wf(),
            self.is_drained(),
        ensures
            self.output() == self.target(),
    {
        let w = self.window_sz2 as nat;
        let l = self.lookahead_sz2 as nat;
        let rest = self.partial@.add(self.unread());
        lemma_parse_tokens(self.done@, rest, w, l);
        assert(tokens_bits(self.done@, w, l).add(self.partial@).add(self.unread()) =~= tokens_bits(self.done@, w, l).add(rest));
        assert(parse(rest, w, l) =~= Seq::<Token>::empty());
        assert(self.done@.add(parse(rest, w, l)) =~= self.done@);
    }

    /// Reads the next `count` bits, most significant first. When fewer are available,
    /// or more than fifteen are asked for, returns `NO_BITS`; it then reads nothing if
    /// no byte was waiting, as always when `count <= 8`.
    fn get_bits(&mut self, count: u8) -> (r: u16)
        requires
            old(self).reader_ok(),
            1 <= count,
        ensures
            final(self).reader_ok(),
            final(self).same_but_reader(old(self)),
            count > 15 ==> r == NO_BITS && *final(self) == *old(self),
            count <= 15 && old(self).unread().len() < count ==> r == NO_BITS,
            count <= 15 && old(self).unread().len() < count && (old(self).input_size == 0
                || count <= 8) ==> *final(self) == *old(self),
            count <= 15 && old(self).unread().len() >= count ==> {
                &&& r == bits_value(old(self).unread().subrange(0, count as int))
                &&& r < pow2(count as nat)
                &&& (count <= 8 ==> r < 256)
                &&& final(self).unread() == old(self).unread().subrange(
                    count as int,
                    old(self).unread().len() as int,
                )
            },
    {
        if count > 15 {
            return NO_BITS;
        }
        let ghost u0 = self.unread();
        proof {
            lemma_byte_tail_len(self.current_byte, self.bit_index);
            lemma_mask_threshold(self.bit_index, count);
            lemma_bytes_bits_len(
                self.buffers@.subrange(self.input_index as int, self.input_size as int),
            );
            if self.input_size == 0 {
                assert(self.buffers@.subrange(0, 0) =~= Seq::<u8>::empty());
            }
        }
        if self.input_size == 0 && (self.bit_index as u16) < (1u16 << (count - 1)) {
            return NO_BITS;
        }
        let ghost before = *self;
        proof {
            lemma_pow2_bounds(0);
        }
        let mut accumulator: u16 = 0;
        let mut i: u8 = 0;
        while i < count
            invariant
                self.reader_ok(),
                self.same_but_reader(&before),
                1 <= count <= 15,
                i <= count,
                u0.len() >= i,
                u0 == before.unread(),
                before == *old(self),
                before.input_size > 0 || u0.len() >= count,
                count <= 8 ==> u0.len() >= count,
                accumulator == bits_value(u0.subrange(0, i as int)),
                accumulator < pow2(i as nat),
                self.unread() == u0.subrange(i as int, u0.len() as int),
            decreases count - i,
        {
            if self.bit_index == 0x00 {
                if self.input_size == 0 {
                    proof {
                        assert(self.buffers@.subrange(0, 0) =~= Seq::<u8>::empty());
                        assert(byte_tail(self.current_byte, 0) =~= Seq::<bool>::empty());
                        assert(self.unread().len() == 0);
                        lemma_bytes_bits_len(before.buffers@.subrange(before.input_index as int, before.input_size as int));
                    }
                    return NO_BITS;
                }
                let ghost ring = self.buffers@.subrange(self.input_index as int, self.input_size as int);
                proof {
                    lemma_bytes_bits_len(ring);
                    assert(byte_tail(self.current_byte, 0) =~= Seq::<bool>::empty());
                    assert(self.unread() =~= bytes_bits(ring));
                    if self.input_size == 0 {
                        assert(ring =~= Seq::<u8>::empty());
                    }
                    assert(ring.drop_first() =~= self.buffers@.subrange(self.input_index + 1, self.input_size as int));
                }
                self.current_byte = self.buffers[self.input_index as usize];
                self.input_index = self.input_index + 1;
                if self.input_index == self.input_size {
                    self.input_index = 0;
                    self.input_size = 0;
                    proof {
                        assert(self.buffers@.subrange(0, 0) =~= Seq::<u8>::empty());
                        assert(ring.drop_first() =~= Seq::<u8>::empty());
                    }
                }
                self.bit_index = 0x80;
                proof {
                    assert(self.unread() =~= bytes_bits(ring));
                }
            }
            let ghost m = self.bit_index;
            let ghost c = self.current_byte;
            let ghost ring_bits = bytes_bits(
                self.buffers@.subrange(self.input_index as int, self.input_size as int),
            );
            let bit = self.current_byte & self.bit_index != 0;
            proof {
                assert(m != 0);
                assert(byte_tail(c, m) =~= seq![bit].add(byte_tail(c, m / 2)));
                assert(self.unread() =~= seq![bit].add(byte_tail(c, m / 2).add(ring_bits)));
                let un = self.unread();
                assert(un.subrange(1, un.len() as int) =~= byte_tail(c, m / 2).add(ring_bits));
                assert(u0.subrange(i + 1, u0.len() as int) =~= un.subrange(1, un.len() as int));
                assert(self.unread()[0] == bit);
                assert(u0[i as int] == self.unread()[0]);
                assert(u0[i as int] == bit);
                assert(u0.subrange(0, i + 1) =~= u0.subrange(0, i as int).push(bit));
                lemma_value_push(u0.subrange(0, i as int), bit);
                vstd::arithmetic::power2::lemma_pow2_unfold((i + 1) as nat);
                lemma_pow2_bounds(i as nat);
            }
            accumulator = accumulator * 2 + if bit { 1 } else { 0 };
            self.bit_index = self.bit_index >> 1;
            proof {
                assert(m >> 1 == m / 2) by (bit_vector);
                assert(self.unread() =~= byte_tail(c, m / 2).add(ring_bits));
                assert(self.unread() =~= u0.subrange(i + 1, u0.len() as int));
            }
            i = i + 1;
        }
        proof {
            lemma_pow2_bounds(count as nat);
            assert(u0.subrange(0, count as int) == u0.subrange(0, i as int));
        }
        accumulator
    }

    /// Writes `c` to the window at its head and advances the head.
    fn push_window(&mut self, c: u8)
        requires
            old(self).reader_ok(),
            old(self).window_ok(),
        ensures
            final(self).reader_ok(),
            final(self).window_ok(),
            final(self).emitted@ == old(self).emitted@.push(c),
            final(self).unread() == old(self).unread(),
            final(self).buffers@ == old(self).buffers@.update(
                old(self).input_buffer_size + old(self).head_index,
                c,
            ),
            final(self).head_index == (old(self).head_index + 1) as int % (pow2(
                old(self).window_sz2 as nat,
            ) as int),
            final(self).output_count == old(self).output_count,
            final(self).output_index == old(self).output_index,
            final(self).state == old(self).state,
            final(self).window_sz2 == old(self).window_sz2,
            final(self).lookahead_sz2 == old(self).lookahead_sz2,
            final(self).input_buffer_size == old(self).input_buffer_size,
            final(self).input_size == old(self).input_size,
            final(self).input_index == old(self).input_index,
            final(self).current_byte == old(self).current_byte,
            final(self).bit_index == old(self).bit_index,
            final(self).sunk == old(self).sunk,
            final(self).done == old(self).done,
            final(self).partial == old(self).partial,
    {
        let ghost before = *self;
        proof {
            lemma_pow2_bounds(self.window_sz2 as nat);
        }
        let n: usize = pow2_usize(self.window_sz2);
        let head: usize = self.head_index as usize;
        let slot: usize = self.input_buffer_size as usize + head;
        self.buffers[slot] = c;
        self.head_index = if head + 1 == n {
            0
        } else {
            (head + 1) as u16
        };
        proof {
            if head + 1 == n {
                vstd::arithmetic::div_mod::lemma_mod_self_0(n as int);
            } else {
                vstd::arithmetic::div_mod::lemma_small_mod((head + 1) as nat, n as nat);
            }
        }
        proof {
            self.emitted@ = self.emitted@.push(c);
            assert(self.buffers@.subrange(self.input_index as int, self.input_size as int)
                =~= before.buffers@.subrange(before.input_index as int, before.input_size as int));
            assert forall|j: int| 0 <= j < self.window_len() implies #[trigger] self.buffers@[self.input_buffer_size + j]
                == hist(self.emitted@, self.slot_dist(j)) by {
                if j != head {
                    assert(before.buffers@[before.input_buffer_size + j] == hist(before.emitted@, before.slot_dist(j)));
                    assert(self.slot_dist(j) == before.slot_dist(j) + 1);
                }
            }
        }
    }

    /// Reads a tag bit and picks the token it starts.
    fn st_tag_bit(&mut self) -> (next: HSDState)
        requires
            old(self).inv(),
            old(self).state == HSDState::TagBit,
        ensures
            final(self).inv(),
            final(self).state == next,
            final(self).emitted == old(self).emitted,
            final(self).same_params(old(self)),
            next == HSDState::TagBit ==> *final(self) == *old(self) && final(self).wf()
                && final(self).is_drained(),
            next != HSDState::TagBit ==> final(self).work() < old(self).work(),
    {
        let ghost u0 = self.unread();
        let bits = self.get_bits(1);
        if bits == NO_BITS {
            proof {
                lemma_bytes_bits_len(self.buffers@.subrange(self.input_index as int, self.input_size as int));
                assert(self.partial@.add(self.unread()) =~= Seq::<bool>::empty());
            }
            return HSDState::TagBit;
        }
        let ghost f = u0.subrange(0, 1);
        proof {
            assert(f =~= Seq::<bool>::empty().push(u0[0]));
            lemma_value_push(Seq::<bool>::empty(), u0[0]);
            let tb = tokens_bits(self.done@, self.window_sz2 as nat, self.lookahead_sz2 as nat);
            assert(self.partial@ =~= Seq::<bool>::empty());
            assert(u0 =~= f.add(self.unread()));
            assert(tb.add(f).add(self.unread()) =~= tb.add(self.partial@).add(u0));
            self.partial@ = f;
            assert(bytes_bits(self.sunk@) == tb.add(self.partial@).add(self.unread()));
            assert(self.window_ok());
            self.lemma_work_consumed(u0, 1, 0);
        }
        if bits != 0 {
            self.state = HSDState::YieldLiteral;
            proof {
                assert(f =~= seq![true]);
            }
            HSDState::YieldLiteral
        } else if self.window_sz2 > 8 {
            self.state = HSDState::BackrefIndexMSB;
            proof {
                assert(f =~= seq![false]);
            }
            HSDState::BackrefIndexMSB
        } else {
            self.output_index = 0;
            self.state = HSDState::BackrefIndexLSB;
            proof {
                assert(f =~= seq![false]);
                assert(f.subrange(1, 1) =~= Seq::<bool>::empty());
            }
            HSDState::BackrefIndexLSB
        }
    }

    /// Parameters that no step changes are those of `other`.
    spec fn same_params(&self, other: &Self) -> bool {
        &&& self.window_sz2 == other.window_sz2
        &&& self.lookahead_sz2 == other.lookahead_sz2
        &&& self.input_buffer_size == other.input_buffer_size
        &&& self.sunk == other.sunk
    }

    /// Reading `k` bits and adding `extra` to the work of a copy lowers the work.
    proof fn lemma_work_consumed(&self, u0: Seq<bool>, k: nat, extra: nat)
        requires
            self.reader_ok(),
            1 <= k <= u0.len(),
            self.unread() == u0.subrange(k as int, u0.len() as int),
            extra <= 2 * pow2(self.lookahead_sz2 as nat),
            extra > 0 ==> k >= 3,
        ensures
            (2 * pow2(self.lookahead_sz2 as nat) + 1) * self.unread().len() + extra + k
                < (2 * pow2(self.lookahead_sz2 as nat) + 1) * u0.len(),
    {
        lemma_pow2_bounds(self.lookahead_sz2 as nat);
        let c = 2 * pow2(self.lookahead_sz2 as nat) + 1;
        let n = u0.len();
        assert(self.unread().len() == n - k);
        assert(c * (n - k) + c * k == c * n) by (nonlinear_arith);
        assert(c * k >= 3 * k) by (nonlinear_arith)
            requires
                k >= 1,
                c >= 3,
        ;
        if extra > 0 {
            assert(c * k - k - c + 1 == (c - 1) * (k - 1)) by (nonlinear_arith);
            assert((c - 1) * (k - 1) >= 4) by (nonlinear_arith)
                requires
                    k >= 3,
                    c >= 3,
            ;
        }
    }

    /// A state that waits for a field that the unread bits cannot complete: nothing
    /// more decodes until more input comes.
    proof fn lemma_stuck(&self, k: nat)
        requires
            self.inv(),
            self.state != HSDState::YieldBackref,
            self.unread().len() < k,
            k <= 8,
            self.partial@.len() == 0 ==> k <= 1,
            self.partial@.len() > 0 && self.partial@[0] ==> self.partial@.len() + k <= 9,
            self.partial@.len() > 0 && !self.partial@[0] ==> self.partial@.len() + k <= 1
                + self.window_sz2 + self.lookahead_sz2,
        ensures
            self.wf(),
            self.is_drained(),
    {
        lemma_bytes_bits_len(self.buffers@.subrange(self.input_index as int, self.input_size as int));
        let b = self.partial@.add(self.unread());
        if b.len() > 0 {
            assert(b[0] == self.partial@[0] || self.partial@.len() == 0);
        }
    }

    /// Facts about a field of `k` bits read from `u0` onto the partial token `p`.
    proof fn lemma_field_read(&self, p: Seq<bool>, u0: Seq<bool>, k: nat)
        requires
            k <= u0.len(),
            self.unread() == u0.subrange(k as int, u0.len() as int),
            bytes_bits(self.sunk@) == tokens_bits(
                self.done@,
                self.window_sz2 as nat,
                self.lookahead_sz2 as nat,
            ).add(p).add(u0),
        ensures
            bytes_bits(self.sunk@) == tokens_bits(
                self.done@,
                self.window_sz2 as nat,
                self.lookahead_sz2 as nat,
            ).add(p.add(u0.subrange(0, k as int))).add(self.unread()),
            bits_value(u0.subrange(0, k as int)) < pow2(k),
            p.add(u0.subrange(0, k as int)).subrange(0, p.len() as int) == p,
            p.add(u0.subrange(0, k as int)).subrange(p.len() as int, p.len() + k as int) == u0.subrange(0, k as int),
    {
        let tb = tokens_bits(self.done@, self.window_sz2 as nat, self.lookahead_sz2 as nat);
        let f = u0.subrange(0, k as int);
        assert(u0 =~= f.add(self.unread()));
        assert(tb.add(p.add(f)).add(self.unread()) =~= tb.add(p).add(u0));
        lemma_value_bound(f);
        assert(p.add(f).subrange(0, p.len() as int) =~= p);
        assert(p.add(f).subrange(p.len() as int, p.len() + k as int) =~= f);
    }

    /// Completes a token: once it joins the tokens read, the bit accounting holds
    /// with no partial token.
    proof fn lemma_token_done(&self, t: Token)
        requires
            token_fits(t, self.window_sz2 as nat, self.lookahead_sz2 as nat),
            token_bits(t, self.window_sz2 as nat, self.lookahead_sz2 as nat) == self.partial@,
            tokens_fit(self.done@, self.window_sz2 as nat, self.lookahead_sz2 as nat),
            bytes_bits(self.sunk@) == tokens_bits(
                self.done@,
                self.window_sz2 as nat,
                self.lookahead_sz2 as nat,
            ).add(self.partial@).add(self.unread()),
        ensures
            tokens_fit(self.done@.push(t), self.window_sz2 as nat, self.lookahead_sz2 as nat),
            bytes_bits(self.sunk@) == tokens_bits(
                self.done@.push(t),
                self.window_sz2 as nat,
                self.lookahead_sz2 as nat,
            ).add(Seq::<bool>::empty()).add(self.unread()),
            expand(Seq::empty(), self.done@.push(t)) == apply(expand(Seq::empty(), self.done@), t),
    {
        let w = self.window_sz2 as nat;
        let l = self.lookahead_sz2 as nat;
        let d0 = self.done@;
        lemma_tokens_bits_push(d0, t, w, l);
        assert forall|i: int| 0 <= i < d0.push(t).len() implies token_fits(#[trigger] d0.push(t)[i], w, l) by {
            if i < d0.len() {
                assert(d0.push(t)[i] == d0[i]);
            }
        }
        lemma_expand_concat(Seq::empty(), d0, seq![t]);
        assert(d0.push(t) =~= d0.add(seq![t]));
        assert(seq![t].drop_first() =~= Seq::<Token>::empty());
        let x = expand(Seq::empty(), d0);
        assert(seq![t][0] == t);
        assert(expand(x, seq![t]) == expand(apply(x, t), Seq::<Token>::empty()));
        let tb = tokens_bits(d0, w, l);
        assert(tb.add(token_bits(t, w, l)).add(Seq::<bool>::empty()).add(self.unread()) =~= tb.add(self.partial@).add(self.unread()));
    }

    /// Emits a literal byte once there is room for it.
    fn st_yield_literal(&mut self, out_buf: &mut [u8], output_size: &mut usize) -> (next: HSDState)
        requires
            old(self).inv(),
            old(self).state == HSDState::YieldLiteral,
            *old(output_size) <= old(out_buf)@.len(),
        ensures
            final(self).inv(),
            final(self).state == next,
            final(self).same_params(old(self)),
            final(out_buf)@.len() == old(out_buf)@.len(),
            tail_kept(final(out_buf)@, old(out_buf)@, *final(output_size) as int),
            *old(output_size) <= *final(output_size) <= final(out_buf)@.len(),
            final(out_buf)@.subrange(0, *old(output_size) as int) == old(out_buf)@.subrange(0, *old(output_size) as int),
            final(self).emitted@ == old(self).emitted@.add(
                final(out_buf)@.subrange(*old(output_size) as int, *final(output_size) as int),
            ),
            final(self).work() + (*final(output_size) - *old(output_size)) <= old(self).work(),
            next != HSDState::YieldLiteral ==> final(self).work() + (*final(output_size)
                - *old(output_size)) < old(self).work(),
            next == HSDState::YieldLiteral ==> {
                &&& *final(self) == *old(self)
                &&& *final(output_size) == *old(output_size)
                &&& final(out_buf)@ == old(out_buf)@
                &&& final(self).wf()
                &&& (final(self).is_drained() || *old(output_size) == old(out_buf)@.len())
            },
            next == HSDState::TagBit ==> {
                &&& *final(output_size) == *old(output_size) + 1
                &&& final(self).buffers@ == old(self).buffers@.update(
                    old(self).input_buffer_size + old(self).head_index,
                    final(out_buf)@[*old(output_size) as int],
                )
                &&& final(self).head_index == (old(self).head_index + 1) as int % (pow2(
                    old(self).window_sz2 as nat,
                ) as int)
            },
    {
        let ghost pos0 = *output_size;
        if *output_size < out_buf.len() {
            let ghost u0 = self.unread();
            let byte = self.get_bits(8);
            if byte == NO_BITS {
                proof {
                    self.lemma_stuck(8);
                    assert(out_buf@.subrange(pos0 as int, pos0 as int) =~= Seq::<u8>::empty());
                    assert(self.emitted@ =~= self.emitted@.add(Seq::<u8>::empty()));
                }
                return HSDState::YieldLiteral;
            }
            let c = byte as u8;
            let ghost e0 = self.emitted@;
            proof {
                let f = u0.subrange(0, 8);
                self.lemma_field_read(self.partial@, u0, 8);
                lemma_bits_of_value(f);
                self.partial@ = self.partial@.add(f);
                assert(self.partial@ =~= token_bits(Token::Literal(c), self.window_sz2 as nat, self.lookahead_sz2 as nat));
                self.lemma_token_done(Token::Literal(c));
                self.done@ = self.done@.push(Token::Literal(c));
                self.partial@ = Seq::empty();
                self.lemma_work_consumed(u0, 8, 0);
            }
            self.push_window(c);
            out_buf[*output_size] = c;
            *output_size = *output_size + 1;
            self.state = HSDState::TagBit;
            proof {
                assert(out_buf@.subrange(pos0 as int, *output_size as int) =~= seq![c]);
                assert(self.emitted@ =~= e0.add(seq![c]));
            }
            HSDState::TagBit
        } else {
            proof {
                if self.is_drained() {
                    lemma_byte_tail_len(self.current_byte, self.bit_index);
                    reveal_with_fuel(mask_len, 9);
                    assert(self.buffers@.subrange(0, 0) =~= Seq::<u8>::empty());
                    assert(self.unread().len() <= 7);
                    let b = self.partial@.add(self.unread());
                    assert(b[0]);
                }
                assert(out_buf@.subrange(pos0 as int, pos0 as int) =~= Seq::<u8>::empty());
                assert(self.emitted@ =~= self.emitted@.add(Seq::<u8>::empty()));
            }
            HSDState::YieldLiteral
        }
    }

    /// Reads the high bits of a back-reference distance.
    fn st_backref_index_msb(&mut self) -> (next: HSDState)
        requires
            old(self).inv(),
            old(self).state == HSDState::BackrefIndexMSB,
        ensures
            final(self).inv(),
            final(self).state == next,
            final(self).emitted == old(self).emitted,
            final(self).same_params(old(self)),
            next == HSDState::BackrefIndexMSB ==> *final(self) == *old(self) && final(self).wf()
                && final(self).is_drained(),
            next != HSDState::BackrefIndexMSB ==> final(self).work() < old(self).work(),
    {
        let bit_ct = self.window_sz2;
        let ghost u0 = self.unread();
        let bits = self.get_bits(bit_ct - 8);
        if bits == NO_BITS {
            proof {
                self.lemma_stuck((bit_ct - 8) as nat);
            }
            return HSDState::BackrefIndexMSB;
        }
        proof {
            let k = (bit_ct - 8) as nat;
            let part0 = self.partial@;
            let f = u0.subrange(0, k as int);
            self.lemma_field_read(part0, u0, k);
            lemma_pow2_bounds(k);
            self.partial@ = part0.add(f);
            assert(self.partial@.subrange(1, self.partial@.len() as int) =~= f);
            self.lemma_work_consumed(u0, k, 0);
        }
        self.output_index = bits * 256;
        self.state = HSDState::BackrefIndexLSB;
        HSDState::BackrefIndexLSB
    }

    /// Reads the low bits of a back-reference distance.
    fn st_backref_index_lsb(&mut self) -> (next: HSDState)
        requires
            old(self).inv(),
            old(self).state == HSDState::BackrefIndexLSB,
        ensures
            final(self).inv(),
            final(self).state == next,
            final(self).emitted == old(self).emitted,
            final(self).same_params(old(self)),
            next == HSDState::BackrefIndexLSB ==> *final(self) == *old(self) && final(self).wf()
                && final(self).is_drained(),
            next != HSDState::BackrefIndexLSB ==> final(self).work() < old(self).work(),
    {
        let bit_ct = self.window_sz2;
        let k: u8 = if bit_ct < 8 { bit_ct } else { 8 };
        let ghost u0 = self.unread();
        let bits = self.get_bits(k);
        if bits == NO_BITS {
            proof {
                self.lemma_stuck(k as nat);
            }
            return HSDState::BackrefIndexLSB;
        }
        proof {
            let part0 = self.partial@;
            let f = u0.subrange(0, k as int);
            let msb = part0.subrange(1, part0.len() as int);
            self.lemma_field_read(part0, u0, k as nat);
            lemma_value_concat(msb, f);
            lemma_value_bound(msb.add(f));
            lemma2_to64();
            lemma_pow2_bounds(k as nat);
            lemma_pow2_bounds(bit_ct as nat);
            if bit_ct <= 8 {
                assert(msb =~= Seq::<bool>::empty());
            }
            self.partial@ = part0.add(f);
            assert(self.partial@.subrange(1, 1 + bit_ct as int) =~= msb.add(f));
            assert(self.partial@.subrange(1 + bit_ct as int, self.partial@.len() as int) =~= Seq::<bool>::empty());
            self.lemma_work_consumed(u0, k as nat, 0);
        }
        self.output_index = self.output_index + bits + 1;
        self.output_count = 0;
        if self.lookahead_sz2 > 8 {
            self.state = HSDState::BackrefCountMSB;
            HSDState::BackrefCountMSB
        } else {
            self.state = HSDState::BackrefCountLSB;
            HSDState::BackrefCountLSB
        }
    }

    /// Reads the high bits of a back-reference length.
    fn st_backref_count_msb(&mut self) -> (next: HSDState)
        requires
            old(self).inv(),
            old(self).state == HSDState::BackrefCountMSB,
        ensures
            final(self).inv(),
            final(self).state == next,
            final(self).emitted == old(self).emitted,
            final(self).same_params(old(self)),
            next == HSDState::BackrefCountMSB ==> *final(self) == *old(self) && final(self).wf()
                && final(self).is_drained(),
            next != HSDState::BackrefCountMSB ==> final(self).work() < old(self).work(),
    {
        let br_bit_ct = self.lookahead_sz2;
        let ghost u0 = self.unread();
        let bits = self.get_bits(br_bit_ct - 8);
        if bits == NO_BITS {
            proof {
                self.lemma_stuck((br_bit_ct - 8) as nat);
            }
            return HSDState::BackrefCountMSB;
        }
        proof {
            let k = (br_bit_ct - 8) as nat;
            let part0 = self.partial@;
            let f = u0.subrange(0, k as int);
            self.lemma_field_read(part0, u0, k);
            lemma_pow2_bounds(k);
            self.partial@ = part0.add(f);
            let w = self.window_sz2 as int;
            assert(self.partial@.subrange(1, 1 + w) =~= part0.subrange(1, 1 + w));
            assert(self.partial@.subrange(1 + w, self.partial@.len() as int) =~= f);
            self.lemma_work_consumed(u0, k, 0);
        }
        self.output_count = bits * 256;
        self.state = HSDState::BackrefCountLSB;
        HSDState::BackrefCountLSB
    }

    /// Reads the low bits of a back-reference length; the back-reference is then complete.
    #[verifier::spinoff_prover]
    fn st_backref_count_lsb(&mut self) -> (next: HSDState)
        requires
            old(self).inv(),
            old(self).state == HSDState::BackrefCountLSB,
        ensures
            final(self).inv(),
            final(self).state == next,
            final(self).emitted == old(self).emitted,
            final(self).same_params(old(self)),
            next == HSDState::BackrefCountLSB ==> *final(self) == *old(self) && final(self).wf()
                && final(self).is_drained(),
            next != HSDState::BackrefCountLSB ==> final(self).work() < old(self).work(),
    {
        let br_bit_ct = self.lookahead_sz2;
        let k: u8 = if br_bit_ct < 8 { br_bit_ct } else { 8 };
        let ghost u0 = self.unread();
        let bits = self.get_bits(k);
        if bits == NO_BITS {
            proof {
                self.lemma_stuck(k as nat);
            }
            return HSDState::BackrefCountLSB;
        }
        let ghost dist = self.output_index as nat;
        proof {
            let w = self.window_sz2 as nat;
            let l = self.lookahead_sz2 as nat;
            let part0 = self.partial@;
            let f = u0.subrange(0, k as int);
            self.lemma_field_read(part0, u0, k as nat);
            lemma_backref_bits(part0, f, w, l, self.output_count as nat);
            lemma_pow2_bounds(l);
            let len = (self.output_count + bits + 1) as nat;
            let t = Token::Backref { dist, len };
            self.partial@ = part0.add(f);
            self.lemma_token_done(t);
            self.done@ = self.done@.push(t);
            self.partial@ = Seq::empty();
            self.lemma_work_consumed(u0, k as nat, (2 * len) as nat);
        }
        self.output_count = self.output_count + bits + 1;
        self.state = HSDState::YieldBackref;
        HSDState::YieldBackref
    }

    /// Copies bytes of the current back-reference, as many as the output has room for.
    fn st_yield_backref(&mut self, out_buf: &mut [u8], output_size: &mut usize) -> (next: HSDState)
        requires
            old(self).inv(),
            old(self).state == HSDState::YieldBackref,
            *old(output_size) <= old(out_buf)@.len(),
        ensures
            final(self).inv(),
            final(self).state == next,
            final(self).same_params(old(self)),
            final(out_buf)@.len() == old(out_buf)@.len(),
            tail_kept(final(out_buf)@, old(out_buf)@, *final(output_size) as int),
            *old(output_size) <= *final(output_size) <= final(out_buf)@.len(),
            final(out_buf)@.subrange(0, *old(output_size) as int) == old(out_buf)@.subrange(0, *old(output_size) as int),
            final(self).emitted@ == old(self).emitted@.add(
                final(out_buf)@.subrange(*old(output_size) as int, *final(output_size) as int),
            ),
            final(self).work() + (*final(output_size) - *old(output_size)) <= old(self).work(),
            *final(output_size) > *old(output_size) ==> final(self).work() + (*final(output_size)
                - *old(output_size)) < old(self).work(),
            next == HSDState::YieldBackref ==> *final(output_size) == final(out_buf)@.len()
                && final(self).wf(),
            next != HSDState::YieldBackref ==> *final(output_size) > *old(output_size),
            final(self).output_count == old(self).output_count - (*final(output_size) - *old(
                output_size,
            )),
            (next == HSDState::TagBit) == (old(self).output_count <= old(out_buf)@.len() - *old(
                output_size,
            )),
            next == HSDState::TagBit || next == HSDState::YieldBackref,
            *old(output_size) == old(out_buf)@.len() ==> *final(self) == *old(self)
                && final(out_buf)@ == old(out_buf)@ && *final(output_size) == *old(output_size),
            final(self).done == old(self).done,
            final(self).partial == old(self).partial,
    {
        let ghost pos0 = *output_size;
        let ghost e0 = self.emitted@;
        let ghost before = *self;
        let mut count: usize = out_buf.len() - *output_size;
        if count > 0 {
            if (self.output_count as usize) < count {
                count = self.output_count as usize;
            }
            proof {
                lemma_pow2_bounds(self.window_sz2 as nat);
            }
            let n: usize = pow2_usize(self.window_sz2);
            let buf_offset: usize = self.input_buffer_size as usize;
            let neg_offset: usize = self.output_index as usize;
            let mut i: usize = 0;
            proof {
                assert(out_buf@.subrange(pos0 as int, pos0 as int) =~= Seq::<u8>::empty());
                assert(e0 =~= e0.add(Seq::<u8>::empty()));
            }
            while i < count
                invariant
                    self.reader_ok(),
                    self.window_ok(),
                    n <= 16384,
                    i <= count,
                    count <= self.output_count,
                    pos0 + count <= out_buf@.len(),
                    *output_size == pos0 + i,
                    out_buf@.len() == old(out_buf)@.len(),
                    tail_kept(out_buf@, old(out_buf)@, *output_size as int),
                    out_buf@.subrange(0, pos0 as int) == old(out_buf)@.subrange(0, pos0 as int),
                    self.emitted@ == e0.add(out_buf@.subrange(pos0 as int, *output_size as int)),
                    n == pow2(self.window_sz2 as nat),
                    buf_offset == self.input_buffer_size,
                    neg_offset == self.output_index,
                    1 <= neg_offset <= n,
                    self.unread() == before.unread(),
                    self.output_count == before.output_count,
                    self.output_index == before.output_index,
                    self.state == before.state,
                    self.window_sz2 == before.window_sz2,
                    self.lookahead_sz2 == before.lookahead_sz2,
                    self.input_buffer_size == before.input_buffer_size,
                    self.sunk == before.sunk,
                    self.done == before.done,
                    self.partial == before.partial,
                    expand(Seq::empty(), self.done@) == copy_back(
                        self.emitted@,
                        neg_offset as nat,
                        (self.output_count - i) as nat,
                    ),
                decreases count - i,
            {
                let head: usize = self.head_index as usize;
                let index: usize = if neg_offset <= head {
                    head - neg_offset
                } else {
                    head + n - neg_offset
                };
                let c = self.buffers[buf_offset + index];
                proof {
                    assert(self.slot_dist(index as int) == neg_offset);
                    assert(c == hist(self.emitted@, neg_offset as nat));
                }
                let ghost ob = out_buf@;
                let ghost part1 = *output_size;
                let ghost e1 = self.emitted@;
                out_buf[*output_size] = c;
                *output_size = *output_size + 1;
                self.push_window(c);
                proof {
                    assert(out_buf@.subrange(pos0 as int, part1 as int) =~= ob.subrange(pos0 as int, part1 as int));
                    assert(out_buf@.subrange(pos0 as int, *output_size as int) =~= ob.subrange(
                        pos0 as int,
                        part1 as int,
                    ).push(c));
                    assert(e1 == e0.add(ob.subrange(pos0 as int, part1 as int)));
                    assert(self.emitted@ == e1.push(c));
                    assert(self.emitted@ =~= e0.add(out_buf@.subrange(pos0 as int, *output_size as int)));
                    assert(old(out_buf)@.subrange(0, pos0 as int) =~= out_buf@.subrange(0, pos0 as int));
                }
                i = i + 1;
            }
            self.output_count = self.output_count - count as u16;
            proof {
                let c2 = 2 * pow2(self.lookahead_sz2 as nat) + 1;
                assert(self.unread() == before.unread());
            }
            if self.output_count == 0 {
                self.state = HSDState::TagBit;
                return HSDState::TagBit;
            }
        } else {
            proof {
                assert(out_buf@.subrange(pos0 as int, pos0 as int) =~= Seq::<u8>::empty());
                assert(self.emitted@ =~= self.emitted@.add(Seq::<u8>::empty()));
            }
        }
        HSDState::YieldBackref
    }

    /// Runs the state machine, writing decoded bytes to `out_buf` from its start,
    /// until `out_buf` is full (`More`) or nothing more can be decoded from the
    /// input sunk so far (`Empty`).
    pub fn poll(&mut self, out_buf: &mut [u8]) -> (r: HSDPollRes)
        requires
            old(self).wf(),
        ensures
            final(self).wf(),
            final(self).input() == old(self).input(),
            final(self).window_bits() == old(self).window_bits(),
            final(self).lookahead_bits() == old(self).lookahead_bits(),
            final(self).capacity() == old(self).capacity(),
            final(out_buf)@.len() == old(out_buf)@.len(),
            r matches HSDPollRes::Empty(n) ==> tail_kept(final(out_buf)@, old(out_buf)@, n as int),
            old(out_buf)@.len() == 0 <==> r == HSDPollRes::ErrorNull,
            r == HSDPollRes::ErrorNull ==> *final(self) == *old(self),
            r != HSDPollRes::ErrorUnknown,
            r matches HSDPollRes::Empty(n) ==> {
                &&& n < final(out_buf)@.len()
                &&& final(self).output() == old(self).output().add(final(out_buf)@.subrange(0, n as int))
                &&& final(self).is_drained()
                &&& final(self).free_space() == final(self).capacity()
                &&& final(self).output() == final(self).target()
            },
            r matches HSDPollRes::More(n) ==> {
                &&& n == final(out_buf)@.len()
                &&& final(self).output() == old(self).output().add(final(out_buf)@)
            },
            final(self).output().len() <= final(self).target().len(),
            final(self).target().subrange(0, final(self).output().len() as int) == final(self).output(),
            r matches HSDPollRes::Empty(n) ==> final(self).work() + n <= old(self).work(),
            r matches HSDPollRes::More(n) ==> final(self).work() + n <= old(self).work(),
            old(out_buf)@.len() > 0 && !old(self).is_drained() ==> final(self).work() < old(
                self,
            ).work(),
    {
        if out_buf.len() == 0 {
            proof {
                self.lemma_output_prefix();
            }
            return HSDPollRes::ErrorNull;
        }
        let mut output_size: usize = 0;
        let ghost e0 = self.emitted@;
        proof {
            assert(out_buf@.subrange(0, 0) =~= Seq::<u8>::empty());
            assert(e0 =~= e0.add(Seq::<u8>::empty()));
        }
        loop
            invariant
                self.inv(),
                self.same_params(old(self)),
                out_buf@.len() == old(out_buf)@.len(),
                tail_kept(out_buf@, old(out_buf)@, output_size as int),
                out_buf@.len() > 0,
                output_size <= out_buf@.len(),
                self.emitted@ == e0.add(out_buf@.subrange(0, output_size as int)),
                e0 == old(self).emitted@,
                self.work() + output_size <= old(self).work(),
                self.work() + output_size < old(self).work() || (*self == *old(self)
                    && output_size == 0),
            decreases self.work(),
        {
            let in_state = self.state;
            let ghost w0 = self.work();
            let ghost s0 = *self;
            let ghost pos0 = output_size;
            let ghost ob0 = out_buf@;
            let next = match in_state {
                HSDState::TagBit => self.st_tag_bit(),
                HSDState::YieldLiteral => self.st_yield_literal(out_buf, &mut output_size),
                HSDState::BackrefIndexMSB => self.st_backref_index_msb(),
                HSDState::BackrefIndexLSB => self.st_backref_index_lsb(),
                HSDState::BackrefCountMSB => self.st_backref_count_msb(),
                HSDState::BackrefCountLSB => self.st_backref_count_lsb(),
                HSDState::YieldBackref => self.st_yield_backref(out_buf, &mut output_size),
            };
            proof {
                assert(out_buf@.subrange(0, output_size as int) =~= ob0.subrange(0, pos0 as int).add(
                    out_buf@.subrange(pos0 as int, output_size as int),
                ));
                assert(self.emitted@ =~= e0.add(out_buf@.subrange(0, output_size as int)));
            }
            if next == in_state {
                if output_size == out_buf.len() {
                    proof {
                        assert(out_buf@.subrange(0, output_size as int) =~= out_buf@);
                        self.lemma_output_prefix();
                    }
                    return HSDPollRes::More(output_size);
                }
                proof {
                    self.lemma_drained_output();
                    self.lemma_output_prefix();
                }
                return HSDPollRes::Empty(output_size);
            }
        }
    }
}

} // verus!
