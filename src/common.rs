//! Items shared by the encoder and the decoder.
use vstd::prelude::*;
use vstd::arithmetic::power2::{pow2, lemma2_to64, lemma_pow2_strictly_increases};
use crate::format::{byte_tail, mask_len, is_bit_mask, bytes_bits, byte_bits, bits_of};

verus! {

/// Tag bit of a literal token.
pub const HEATSHRINK_LITERAL_MARKER: u8 = 1;

/// Tag bit of a back-reference token.
pub const HEATSHRINK_BACKREF_MARKER: u8 = 0;

/// Smallest window exponent.
pub const HEATSHRINK_MIN_WINDOW_BITS: u8 = 4;

/// Largest window exponent. The encoder's match index holds offsets into a
/// buffer of `2 << W` bytes in 16-bit signed cells, which caps `W` here.
pub const HEATSHRINK_MAX_WINDOW_BITS: u8 = 14;

/// Smallest lookahead exponent.
pub const HEATSHRINK_MIN_LOOKAHEAD_BITS: u8 = 3;

/// Whether `(w, l)` is a legal pair of window and lookahead exponents.
pub open spec fn valid_params(w: u8, l: u8) -> bool {
    HEATSHRINK_MIN_WINDOW_BITS <= w <= HEATSHRINK_MAX_WINDOW_BITS && HEATSHRINK_MIN_LOOKAHEAD_BITS
        <= l < w
}

/// Returns `b`: a hint that `b` is rarely true.
#[inline]
pub(crate) fn unlikely(b: bool) -> (r: bool)
    ensures
        r == b,
{
    if b {
        cold();
    }
    b
}

/// Marks the path that calls it as rarely taken.
#[inline]
fn cold() {
}

/// `2^k` as a `usize`.
pub fn pow2_usize(k: u8) -> (r: usize)
    requires
        k <= 16,
    ensures
        r == pow2(k as nat),
{
    proof {
        lemma2_to64();
        vstd::bits::lemma_usize_shl_is_mul(1, k as usize);
    }
    1usize << k
}

/// Bounds of `2^w` for the exponents that the codecs take.
pub proof fn lemma_pow2_bounds(w: nat)
    requires
        w <= 16,
    ensures
        1 <= pow2(w) <= 65536,
        w >= 3 ==> pow2(w) >= 8,
        w >= 4 ==> pow2(w) >= 16,
        w <= 8 ==> pow2(w) <= 256,
        w <= 13 ==> pow2(w) <= 8192,
        w <= 14 ==> pow2(w) <= 16384,
        w <= 15 ==> pow2(w) <= 32768,
{
    lemma2_to64();
    if w < 16 {
        lemma_pow2_strictly_increases(w, 16);
    }
    if w < 15 {
        lemma_pow2_strictly_increases(w, 15);
    }
    if w < 14 {
        lemma_pow2_strictly_increases(w, 14);
    }
    if w < 13 {
        lemma_pow2_strictly_increases(w, 13);
    }
    if w < 8 {
        lemma_pow2_strictly_increases(w, 8);
    }
    if w > 4 {
        lemma_pow2_strictly_increases(4, w);
    }
    if w > 3 {
        lemma_pow2_strictly_increases(3, w);
    }
    if w > 0 {
        lemma_pow2_strictly_increases(0, w);
    }
}

pub proof fn lemma_byte_tail_len(c: u8, m: u8)
    ensures
        byte_tail(c, m).len() == mask_len(m),
    decreases m,
{
    if m != 0 {
        lemma_byte_tail_len(c, m / 2);
    }
}

pub proof fn lemma_bytes_bits_len(s: Seq<u8>)
    ensures
        bytes_bits(s).len() == 8 * s.len(),
    decreases s.len(),
{
    if s.len() > 0 {
        lemma_bytes_bits_len(s.drop_first());
        lemma_byte_tail_len(s[0], 0x80);
        reveal_with_fuel(mask_len, 9);
        assert(byte_bits(s[0]).len() == 8);
    }
}

/// A bit mask of `count` or more bits is at least `1 << (count - 1)`.
pub proof fn lemma_mask_threshold(m: u8, count: u8)
    requires
        is_bit_mask(m),
        1 <= count <= 15,
    ensures
        ((m as u16) < (1u16 << ((count - 1) as u16))) == (mask_len(m) < count),
{
    let s = (count - 1) as u16;
    lemma_pow2_bounds(s as nat);
    vstd::bits::lemma_u16_shl_is_mul(1, s);
    lemma2_to64();
    reveal_with_fuel(mask_len, 9);
    assert(mask_len(m) <= 8);
    if count >= 9 {
        if s > 8 {
            lemma_pow2_strictly_increases(8, s as nat);
        }
        assert(pow2(s as nat) >= 256);
    } else {
        assert(count == 1 || count == 2 || count == 3 || count == 4 || count == 5 || count == 6
            || count == 7 || count == 8);
    }
}

/// Element `t` of `bits_of(v, k)` is bit `k - 1 - t` of `v`.
pub proof fn lemma_bits_of_index(v: nat, k: nat, t: int)
    requires
        0 <= t < k,
    ensures
        bits_of(v, k)[t] == ((v / pow2((k - 1 - t) as nat)) % 2 == 1),
    decreases k,
{
    crate::format::lemma_bits_of_len(v / 2, (k - 1) as nat);
    let s = bits_of(v, k);
    assert(s == bits_of(v / 2, (k - 1) as nat).push(v % 2 == 1));
    if t == k - 1 {
        lemma2_to64();
        assert(s[t] == (v % 2 == 1));
        assert(v / 1 == v);
    } else {
        lemma_bits_of_index(v / 2, (k - 1) as nat, t);
        assert(s[t] == bits_of(v / 2, (k - 1) as nat)[t]);
        let p = pow2((k - 2 - t) as nat);
        vstd::arithmetic::power2::lemma_pow2_unfold((k - 1 - t) as nat);
        vstd::arithmetic::power2::lemma_pow2_pos((k - 2 - t) as nat);
        vstd::arithmetic::div_mod::lemma_div_denominator(v as int, 2, p as int);
        assert((v / 2) / p == v / (2 * p));
    }
}

/// The bits of a byte, high to low, as masks read them.
pub proof fn lemma_byte_bits(c: u8)
    ensures
        byte_bits(c) == bits_of(c as nat, 8),
{
    reveal_with_fuel(byte_tail, 9);
    crate::format::lemma_bits_of_len(c as nat, 8);
    lemma2_to64();
    assert((c & 128 != 0) == ((c / 128) % 2 == 1)) by (bit_vector);
    assert((c & 64 != 0) == ((c / 64) % 2 == 1)) by (bit_vector);
    assert((c & 32 != 0) == ((c / 32) % 2 == 1)) by (bit_vector);
    assert((c & 16 != 0) == ((c / 16) % 2 == 1)) by (bit_vector);
    assert((c & 8 != 0) == ((c / 8) % 2 == 1)) by (bit_vector);
    assert((c & 4 != 0) == ((c / 4) % 2 == 1)) by (bit_vector);
    assert((c & 2 != 0) == ((c / 2) % 2 == 1)) by (bit_vector);
    assert((c & 1 != 0) == (c % 2 == 1)) by (bit_vector);
    assert forall|t: int| 0 <= t < 8 implies byte_bits(c)[t] == bits_of(c as nat, 8)[t] by {
        lemma_bits_of_index(c as nat, 8, t);
    }
    assert(byte_bits(c) =~= bits_of(c as nat, 8));
}

/// Whether bit `i` of `bits` is set.
pub fn bit_at(bits: u8, i: u8) -> (r: bool)
    requires
        i < 8,
    ensures
        r == ((bits as nat / pow2(i as nat)) % 2 == 1),
{
    proof {
        assert((bits & (1u8 << i) != 0) == ((bits >> i) & 1 == 1)) by (bit_vector)
            requires
                i < 8,
        ;
        vstd::bits::lemma_u8_shr_is_div(bits, i);
        let x = bits >> i;
        assert((x & 1 == 1) == (x % 2 == 1)) by (bit_vector);
    }
    bits & (1u8 << i) != 0
}

/// Bit `i` of the byte cut from `v` at bit `s` is bit `s + i` of `v`.
pub proof fn lemma_chunk_bit(v: u16, s: u16, i: u16)
    requires
        s + i < 16,
        i < 8,
    ensures
        ((((v >> s) as u8) as nat / pow2(i as nat)) % 2 == 1) == ((v as nat / pow2((s + i) as nat))
            % 2 == 1),
{
    let c = (v >> s) as u8;
    assert(((c >> (i as u8)) & 1) as u16 == (v >> ((s + i) as u16)) & 1) by (bit_vector)
        requires
            c == (v >> s) as u8,
            s + i < 16,
            i < 8,
    ;
    vstd::bits::lemma_u8_shr_is_div(c, i as u8);
    vstd::bits::lemma_u16_shr_is_div(v, (s + i) as u16);
    let x = c >> (i as u8);
    let y = v >> ((s + i) as u16);
    assert((x & 1 == 1) == (x % 2 == 1)) by (bit_vector);
    assert((y & 1 == 1) == (y % 2 == 1)) by (bit_vector);
}

/// The `count` bits cut from a field at its `left` lowest unwritten bits are the
/// next bits of the field.
pub proof fn lemma_field_chunk(v: u16, f: nat, left: nat, count: nat)
    requires
        1 <= count <= 8,
        count <= left <= f,
        f <= 15,
    ensures
        bits_of(((v >> ((left - count) as u16)) as u8) as nat, count) == bits_of(v as nat, f).subrange(
            f - left,
            f - left + count,
        ),
{
    crate::format::lemma_bits_of_len(((v >> ((left - count) as u16)) as u8) as nat, count);
    crate::format::lemma_bits_of_len(v as nat, f);
    let c = ((v >> ((left - count) as u16)) as u8) as nat;
    assert forall|t: int| 0 <= t < count implies #[trigger] bits_of(c, count)[t] == bits_of(v as nat, f)[f - left + t] by {
        lemma_bits_of_index(((v >> ((left - count) as u16)) as u8) as nat, count, t);
        lemma_bits_of_index(v as nat, f, f - left + t);
        lemma_chunk_bit(v, (left - count) as u16, (count - 1 - t) as u16);
    }
    assert(bits_of(((v >> ((left - count) as u16)) as u8) as nat, count) =~= bits_of(v as nat, f).subrange(
        f - left,
        f - left + count,
    ));
}

/// Bytes are determined by their bits.
pub proof fn lemma_bytes_bits_injective(a: Seq<u8>, b: Seq<u8>)
    requires
        bytes_bits(a) == bytes_bits(b),
    ensures
        a == b,
    decreases a.len(),
{
    lemma_bytes_bits_len(a);
    lemma_bytes_bits_len(b);
    if a.len() > 0 {
        let ba = bytes_bits(a);
        assert(ba == byte_bits(a[0]).add(bytes_bits(a.drop_first())));
        assert(ba == byte_bits(b[0]).add(bytes_bits(b.drop_first())));
        lemma_byte_bits(a[0]);
        lemma_byte_bits(b[0]);
        crate::format::lemma_bits_of_len(a[0] as nat, 8);
        crate::format::lemma_bits_of_len(b[0] as nat, 8);
        assert(byte_bits(a[0]) =~= ba.subrange(0, 8));
        assert(byte_bits(b[0]) =~= ba.subrange(0, 8));
        lemma2_to64();
        crate::format::lemma_value_bits_of(a[0] as nat, 8);
        crate::format::lemma_value_bits_of(b[0] as nat, 8);
        assert(a[0] == b[0]);
        assert(bytes_bits(a.drop_first()) =~= ba.subrange(8, ba.len() as int));
        assert(bytes_bits(b.drop_first()) =~= ba.subrange(8, ba.len() as int));
        lemma_bytes_bits_injective(a.drop_first(), b.drop_first());
        assert(a =~= seq![a[0]].add(a.drop_first()));
        assert(b =~= seq![b[0]].add(b.drop_first()));
    } else {
        assert(a =~= b);
    }
}

/// Bytes whose bits begin the bits of other bytes begin those bytes.
pub proof fn lemma_bytes_bits_prefix(a: Seq<u8>, b: Seq<u8>)
    requires
        crate::format::is_prefix(bytes_bits(a), bytes_bits(b)),
    ensures
        crate::format::is_prefix(a, b),
    decreases a.len(),
{
    lemma_bytes_bits_len(a);
    lemma_bytes_bits_len(b);
    if a.len() > 0 {
        let ba = bytes_bits(a);
        let bb = bytes_bits(b);
        assert(ba == byte_bits(a[0]).add(bytes_bits(a.drop_first())));
        assert(bb == byte_bits(b[0]).add(bytes_bits(b.drop_first())));
        lemma_byte_bits(a[0]);
        lemma_byte_bits(b[0]);
        crate::format::lemma_bits_of_len(a[0] as nat, 8);
        crate::format::lemma_bits_of_len(b[0] as nat, 8);
        assert(byte_bits(a[0]) =~= ba.subrange(0, 8));
        assert(byte_bits(b[0]) =~= bb.subrange(0, 8));
        assert(ba.subrange(0, 8) =~= bb.subrange(0, 8)) by {
            assert forall|i: int| 0 <= i < 8 implies ba[i] == bb[i] by {
                assert(bb.subrange(0, ba.len() as int)[i] == ba[i]);
            }
        }
        lemma2_to64();
        crate::format::lemma_value_bits_of(a[0] as nat, 8);
        crate::format::lemma_value_bits_of(b[0] as nat, 8);
        assert(a[0] == b[0]);
        let ra = bytes_bits(a.drop_first());
        let rb = bytes_bits(b.drop_first());
        assert(ra =~= ba.subrange(8, ba.len() as int));
        assert(rb =~= bb.subrange(8, bb.len() as int));
        assert(rb.subrange(0, ra.len() as int) =~= ra) by {
            assert forall|i: int| 0 <= i < ra.len() implies rb[i] == ra[i] by {
                assert(bb.subrange(0, ba.len() as int)[i + 8] == ba[i + 8]);
            }
        }
        lemma_bytes_bits_prefix(a.drop_first(), b.drop_first());
        assert(b.subrange(0, a.len() as int) =~= seq![b[0]].add(b.drop_first().subrange(0, a.len() - 1)));
        assert(a =~= seq![a[0]].add(a.drop_first()));
    } else {
        assert(b.subrange(0, 0) =~= a);
    }
}

/// A token sequence packs into one byte string only.
pub proof fn lemma_packs_unique(a: Seq<u8>, b: Seq<u8>, ts: Seq<crate::format::Token>, w: nat, l: nat)
    requires
        crate::format::packs(a, ts, w, l),
        crate::format::packs(b, ts, w, l),
    ensures
        a == b,
{
    let t = crate::format::tokens_bits(ts, w, l);
    let ka = choose|k: nat|
        #![trigger crate::format::zero_bits(k)]
        k < 8 && bytes_bits(a) == t.add(crate::format::zero_bits(k));
    let kb = choose|k: nat|
        #![trigger crate::format::zero_bits(k)]
        k < 8 && bytes_bits(b) == t.add(crate::format::zero_bits(k));
    lemma_bytes_bits_len(a);
    lemma_bytes_bits_len(b);
    assert(8 * a.len() == t.len() + ka);
    assert(8 * b.len() == t.len() + kb);
    assert(a.len() == b.len());
    assert(ka == kb);
    lemma_bytes_bits_injective(a, b);
}

} // verus!
