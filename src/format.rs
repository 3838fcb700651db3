//! The wire format as mathematics: bit strings, tokens, how a bit string parses
//! into tokens and what a token sequence expands to.
use vstd::prelude::*;
use vstd::arithmetic::power2::{pow2, lemma_pow2_unfold, lemma2_to64};

verus! {

/// A token of the compressed stream.
pub enum Token {
    /// Tag bit 1, then eight bits of the byte.
    Literal(u8),
    /// Tag bit 0, then `W` bits of `dist - 1`, then `L` bits of `len - 1`.
    Backref { dist: nat, len: nat },
}

/// Value of a bit string read most significant bit first.
pub open spec fn bits_value(b: Seq<bool>) -> nat
    decreases b.len(),
{
    if b.len() == 0 {
        0
    } else {
        2 * bits_value(b.drop_last()) + (if b.last() { 1nat } else { 0nat })
    }
}

/// The `k` low bits of `v`, most significant first.
pub open spec fn bits_of(v: nat, k: nat) -> Seq<bool>
    decreases k,
{
    if k == 0 {
        Seq::empty()
    } else {
        bits_of(v / 2, (k - 1) as nat).push(v % 2 == 1)
    }
}

/// The bits of `c` at mask `m` and below, from high to low.
pub open spec fn byte_tail(c: u8, m: u8) -> Seq<bool>
    decreases m,
{
    if m == 0 {
        Seq::empty()
    } else {
        seq![c & m != 0].add(byte_tail(c, m / 2))
    }
}

/// The eight bits of a byte, most significant first.
pub open spec fn byte_bits(c: u8) -> Seq<bool> {
    byte_tail(c, 0x80)
}

/// The bits of a byte string, in stream order.
pub open spec fn bytes_bits(s: Seq<u8>) -> Seq<bool>
    decreases s.len(),
{
    if s.len() == 0 {
        Seq::empty()
    } else {
        byte_bits(s[0]).add(bytes_bits(s.drop_first()))
    }
}

/// Whether `m` is zero or a single bit of a byte.
pub open spec fn is_bit_mask(m: u8) -> bool {
    m == 0 || m == 1 || m == 2 || m == 4 || m == 8 || m == 16 || m == 32 || m == 64 || m == 128
}

/// Number of bits at mask `m` and below.
pub open spec fn mask_len(m: u8) -> nat
    decreases m,
{
    if m == 0 {
        0
    } else {
        1 + mask_len(m / 2)
    }
}

/// Bits that one token takes on the wire.
pub open spec fn token_bits(t: Token, w: nat, l: nat) -> Seq<bool> {
    match t {
        Token::Literal(b) => seq![true].add(bits_of(b as nat, 8)),
        Token::Backref { dist, len } => seq![false].add(bits_of((dist - 1) as nat, w)).add(
            bits_of((len - 1) as nat, l),
        ),
    }
}

/// Bits that a token sequence takes on the wire.
pub open spec fn tokens_bits(ts: Seq<Token>, w: nat, l: nat) -> Seq<bool>
    decreases ts.len(),
{
    if ts.len() == 0 {
        Seq::empty()
    } else {
        token_bits(ts[0], w, l).add(tokens_bits(ts.drop_first(), w, l))
    }
}

/// Whether a token's fields fit their widths on the wire.
pub open spec fn token_fits(t: Token, w: nat, l: nat) -> bool {
    match t {
        Token::Literal(_) => true,
        Token::Backref { dist, len } => 1 <= dist <= pow2(w) && 1 <= len <= pow2(l),
    }
}

pub open spec fn tokens_fit(ts: Seq<Token>, w: nat, l: nat) -> bool {
    forall|i: int| 0 <= i < ts.len() ==> token_fits(#[trigger] ts[i], w, l)
}

/// The tokens that a bit string holds: each complete token in order; an
/// incomplete token at the end is no token.
pub open spec fn parse(bits: Seq<bool>, w: nat, l: nat) -> Seq<Token>
    decreases bits.len(),
{
    if bits.len() == 0 {
        Seq::empty()
    } else if bits[0] {
        if bits.len() < 9 {
            Seq::empty()
        } else {
            seq![Token::Literal(bits_value(bits.subrange(1, 9)) as u8)].add(
                parse(bits.subrange(9, bits.len() as int), w, l),
            )
        }
    } else {
        if bits.len() < 1 + w + l {
            Seq::empty()
        } else {
            seq![
                Token::Backref {
                    dist: bits_value(bits.subrange(1, 1 + w as int)) + 1,
                    len: bits_value(bits.subrange(1 + w as int, 1 + w as int + l as int)) + 1,
                },
            ].add(parse(bits.subrange(1 + w as int + l as int, bits.len() as int), w, l))
        }
    }
}

/// The byte `d` places back from the end of `out`; zero before its start.
pub open spec fn hist(out: Seq<u8>, d: nat) -> u8 {
    if 1 <= d <= out.len() {
        out[out.len() - d]
    } else {
        0
    }
}

/// `out` followed by `n` bytes, each copied from `d` places back.
pub open spec fn copy_back(out: Seq<u8>, d: nat, n: nat) -> Seq<u8>
    decreases n,
{
    if n == 0 {
        out
    } else {
        copy_back(out.push(hist(out, d)), d, (n - 1) as nat)
    }
}

/// `out` followed by the bytes of one token.
pub open spec fn apply(out: Seq<u8>, t: Token) -> Seq<u8> {
    match t {
        Token::Literal(b) => out.push(b),
        Token::Backref { dist, len } => copy_back(out, dist, len),
    }
}

/// `out` followed by the bytes of a token sequence.
pub open spec fn expand(out: Seq<u8>, ts: Seq<Token>) -> Seq<u8>
    decreases ts.len(),
{
    if ts.len() == 0 {
        out
    } else {
        expand(apply(out, ts[0]), ts.drop_first())
    }
}

/// What a compressed byte stream decodes to under window bits `w` and lookahead bits `l`.
pub open spec fn decoded(input: Seq<u8>, w: nat, l: nat) -> Seq<u8> {
    expand(Seq::empty(), parse(bytes_bits(input), w, l))
}

pub proof fn lemma_bits_of_len(v: nat, k: nat)
    ensures
        bits_of(v, k).len() == k,
    decreases k,
{
    if k > 0 {
        lemma_bits_of_len(v / 2, (k - 1) as nat);
    }
}

pub proof fn lemma_value_bits_of(v: nat, k: nat)
    requires
        v < pow2(k),
    ensures
        bits_value(bits_of(v, k)) == v,
        bits_of(v, k).len() == k,
    decreases k,
{
    lemma_bits_of_len(v, k);
    if k == 0 {
        lemma2_to64();
    } else {
        lemma_pow2_unfold(k);
        assert(v / 2 < pow2((k - 1) as nat));
        lemma_value_bits_of(v / 2, (k - 1) as nat);
        let s = bits_of(v, k);
        assert(s.drop_last() =~= bits_of(v / 2, (k - 1) as nat));
        assert(s.last() == (v % 2 == 1));
    }
}

pub proof fn lemma_bits_of_value(f: Seq<bool>)
    ensures
        bits_of(bits_value(f), f.len()) =~= f,
    decreases f.len(),
{
    if f.len() > 0 {
        lemma_bits_of_value(f.drop_last());
        let v = bits_value(f);
        assert(v / 2 == bits_value(f.drop_last()));
        assert((v % 2 == 1) == f.last());
        assert(f =~= f.drop_last().push(f.last()));
    }
}

pub proof fn lemma_value_bound(f: Seq<bool>)
    ensures
        bits_value(f) < pow2(f.len()),
    decreases f.len(),
{
    if f.len() == 0 {
        lemma2_to64();
    } else {
        lemma_value_bound(f.drop_last());
        lemma_pow2_unfold(f.len());
    }
}

pub proof fn lemma_value_push(f: Seq<bool>, b: bool)
    ensures
        bits_value(f.push(b)) == 2 * bits_value(f) + (if b { 1nat } else { 0nat }),
{
    assert(f.push(b).drop_last() =~= f);
}

pub proof fn lemma_value_concat(a: Seq<bool>, b: Seq<bool>)
    ensures
        bits_value(a.add(b)) == bits_value(a) * pow2(b.len()) + bits_value(b),
    decreases b.len(),
{
    if b.len() == 0 {
        assert(a.add(b) =~= a);
        lemma2_to64();
    } else {
        lemma_value_concat(a, b.drop_last());
        assert(a.add(b).drop_last() =~= a.add(b.drop_last()));
        assert(a.add(b).last() == b.last());
        lemma_pow2_unfold(b.len());
        let p = pow2((b.len() - 1) as nat);
        let va = bits_value(a);
        let vb = bits_value(b.drop_last());
        assert(2 * (va * p + vb) == va * (2 * p) + 2 * vb) by (nonlinear_arith);
        assert(bits_value(b) == 2 * vb + (if b.last() { 1nat } else { 0nat }));
        assert(bits_value(a.add(b)) == 2 * bits_value(a.add(b.drop_last())) + (if b.last() {
            1nat
        } else {
            0nat
        }));
    }
}

pub proof fn lemma_tokens_bits_push(ts: Seq<Token>, t: Token, w: nat, l: nat)
    ensures
        tokens_bits(ts.push(t), w, l) =~= tokens_bits(ts, w, l).add(token_bits(t, w, l)),
    decreases ts.len(),
{
    let p = ts.push(t);
    if ts.len() == 0 {
        assert(p.drop_first() =~= Seq::<Token>::empty());
        assert(p[0] == t);
        assert(tokens_bits(p, w, l) == token_bits(t, w, l).add(tokens_bits(p.drop_first(), w, l)));
    } else {
        lemma_tokens_bits_push(ts.drop_first(), t, w, l);
        assert(p.drop_first() =~= ts.drop_first().push(t));
        assert(p[0] == ts[0]);
        assert(tokens_bits(p, w, l) == token_bits(ts[0], w, l).add(tokens_bits(p.drop_first(), w, l)));
        assert(tokens_bits(ts, w, l) == token_bits(ts[0], w, l).add(tokens_bits(ts.drop_first(), w, l)));
    }
}

pub proof fn lemma_bytes_bits_concat(a: Seq<u8>, b: Seq<u8>)
    ensures
        bytes_bits(a.add(b)) =~= bytes_bits(a).add(bytes_bits(b)),
    decreases a.len(),
{
    if a.len() == 0 {
        assert(a.add(b) =~= b);
    } else {
        lemma_bytes_bits_concat(a.drop_first(), b);
        assert(a.add(b).drop_first() =~= a.drop_first().add(b));
    }
}

/// A single token parses back from its bits, whatever follows.
pub proof fn lemma_parse_token(t: Token, x: Seq<bool>, w: nat, l: nat)
    requires
        token_fits(t, w, l),
    ensures
        parse(token_bits(t, w, l).add(x), w, l) =~= seq![t].add(parse(x, w, l)),
{
    let bits = token_bits(t, w, l).add(x);
    match t {
        Token::Literal(b) => {
            lemma_pow2_unfold(8);
            lemma2_to64();
            lemma_value_bits_of(b as nat, 8);
            assert(bits.subrange(1, 9) =~= bits_of(b as nat, 8));
            assert(bits.subrange(9, bits.len() as int) =~= x);
        },
        Token::Backref { dist, len } => {
            lemma_value_bits_of((dist - 1) as nat, w);
            lemma_value_bits_of((len - 1) as nat, l);
            assert(bits.subrange(1, 1 + w as int) =~= bits_of((dist - 1) as nat, w));
            assert(bits.subrange(1 + w as int, 1 + w as int + l as int) =~= bits_of((len - 1) as nat, l));
            assert(bits.subrange(1 + w as int + l as int, bits.len() as int) =~= x);
        },
    }
}

/// A token sequence parses back from its bits, whatever follows.
pub proof fn lemma_parse_tokens(ts: Seq<Token>, x: Seq<bool>, w: nat, l: nat)
    requires
        tokens_fit(ts, w, l),
    ensures
        parse(tokens_bits(ts, w, l).add(x), w, l) =~= ts.add(parse(x, w, l)),
    decreases ts.len(),
{
    if ts.len() > 0 {
        let rest = ts.drop_first();
        assert(tokens_fit(rest, w, l)) by {
            assert forall|i: int| 0 <= i < rest.len() implies token_fits(#[trigger] rest[i], w, l) by {
                assert(rest[i] == ts[i + 1]);
            }
        }
        assert(token_fits(ts[0], w, l));
        lemma_parse_tokens(rest, x, w, l);
        assert(tokens_bits(ts, w, l).add(x) =~= token_bits(ts[0], w, l).add(
            tokens_bits(rest, w, l).add(x),
        ));
        lemma_parse_token(ts[0], tokens_bits(rest, w, l).add(x), w, l);
        assert(ts =~= seq![ts[0]].add(rest));
        assert(ts.add(parse(x, w, l)) =~= seq![ts[0]].add(rest.add(parse(x, w, l))));
    } else {
        assert(tokens_bits(ts, w, l).add(x) =~= x);
    }
}

/// Expanding a concatenation expands its parts in turn.
pub proof fn lemma_expand_concat(out: Seq<u8>, a: Seq<Token>, b: Seq<Token>)
    ensures
        expand(out, a.add(b)) == expand(expand(out, a), b),
    decreases a.len(),
{
    if a.len() == 0 {
        assert(a.add(b) =~= b);
    } else {
        assert(a.add(b).drop_first() =~= a.drop_first().add(b));
        lemma_expand_concat(apply(out, a[0]), a.drop_first(), b);
    }
}

/// Copying bytes keeps what came before.
pub proof fn lemma_copy_back_prefix(out: Seq<u8>, d: nat, n: nat)
    ensures
        copy_back(out, d, n).len() == out.len() + n,
        copy_back(out, d, n).subrange(0, out.len() as int) == out,
    decreases n,
{
    if n > 0 {
        let o2 = out.push(hist(out, d));
        lemma_copy_back_prefix(o2, d, (n - 1) as nat);
        let r = copy_back(o2, d, (n - 1) as nat);
        assert(r.subrange(0, out.len() as int) =~= r.subrange(0, o2.len() as int).subrange(0, out.len() as int));
        assert(o2.subrange(0, out.len() as int) =~= out);
    } else {
        assert(out.subrange(0, out.len() as int) =~= out);
    }
}

/// Expanding tokens keeps what came before.
pub proof fn lemma_expand_prefix(out: Seq<u8>, ts: Seq<Token>)
    ensures
        expand(out, ts).len() >= out.len(),
        expand(out, ts).subrange(0, out.len() as int) == out,
    decreases ts.len(),
{
    if ts.len() == 0 {
        assert(out.subrange(0, out.len() as int) =~= out);
    } else {
        let o2 = apply(out, ts[0]);
        match ts[0] {
            Token::Literal(b) => {
                assert(o2.subrange(0, out.len() as int) =~= out);
            },
            Token::Backref { dist, len } => {
                lemma_copy_back_prefix(out, dist, len);
            },
        }
        lemma_expand_prefix(o2, ts.drop_first());
        let r = expand(o2, ts.drop_first());
        assert(r.subrange(0, out.len() as int) =~= r.subrange(0, o2.len() as int).subrange(0, out.len() as int));
    }
}

/// Expanding one more token applies it to what came before.
pub proof fn lemma_expand_push(ts: Seq<Token>, t: Token)
    ensures
        expand(Seq::empty(), ts.push(t)) == apply(expand(Seq::empty(), ts), t),
{
    lemma_expand_concat(Seq::empty(), ts, seq![t]);
    assert(ts.push(t) =~= ts.add(seq![t]));
    assert(seq![t].drop_first() =~= Seq::<Token>::empty());
    assert(seq![t][0] == t);
    let x = expand(Seq::empty(), ts);
    assert(expand(x, seq![t]) == expand(apply(x, t), Seq::<Token>::empty()));
}

/// Fewer bits than the shortest token hold no token.
pub proof fn lemma_parse_short(bits: Seq<bool>, w: nat, l: nat)
    requires
        bits.len() < 1 + w + l,
        bits.len() < 9,
    ensures
        parse(bits, w, l) =~= Seq::<Token>::empty(),
{
}

/// `n` zero bits.
pub open spec fn zero_bits(n: nat) -> Seq<bool> {
    Seq::new(n, |i: int| false)
}

/// `bytes` is a stream of tokens that expands to `input`, padded with fewer than
/// eight zero bits to whole bytes.
pub open spec fn encodes(bytes: Seq<u8>, input: Seq<u8>, w: nat, l: nat) -> bool {
    exists|ts: Seq<Token>, k: nat|
        #![trigger tokens_bits(ts, w, l), zero_bits(k)]
        {
            &&& k < 8
            &&& tokens_fit(ts, w, l)
            &&& expand(Seq::empty(), ts) == input
            &&& bytes_bits(bytes) == tokens_bits(ts, w, l).add(zero_bits(k))
        }
}

/// A token stream decodes to what its tokens expand to.
pub proof fn lemma_encodes_decodes(bytes: Seq<u8>, input: Seq<u8>, w: nat, l: nat)
    requires
        encodes(bytes, input, w, l),
        w + l >= 7,
    ensures
        decoded(bytes, w, l) == input,
{
    let (ts, k) = choose|ts: Seq<Token>, k: nat|
        #![trigger tokens_bits(ts, w, l), zero_bits(k)]
        {
            &&& k < 8
            &&& tokens_fit(ts, w, l)
            &&& expand(Seq::empty(), ts) == input
            &&& bytes_bits(bytes) == tokens_bits(ts, w, l).add(zero_bits(k))
        };
    lemma_parse_tokens(ts, zero_bits(k), w, l);
    lemma_parse_short(zero_bits(k), w, l);
    assert(ts.add(parse(zero_bits(k), w, l)) =~= ts);
}

/// A back-reference whose bytes match the bytes `d` places earlier copies them: with
/// `z` the output after `n` zeros, copying `len` bytes from `d` back after the first
/// `m` bytes gives the next `len` bytes of `z`.
pub proof fn lemma_copy_match(z: Seq<u8>, n: nat, m: nat, d: nat, len: nat)
    requires
        z.len() >= n + m + len,
        forall|i: int| 0 <= i < n ==> z[i] == 0,
        forall|k: int| 0 <= k < len ==> #[trigger] z[n + m + k - d] == z[n + m + k],
        1 <= d <= n,
    ensures
        copy_back(z.subrange(n as int, (n + m) as int), d, len) == z.subrange(
            n as int,
            (n + m + len) as int,
        ),
    decreases len,
{
    if len > 0 {
        let out = z.subrange(n as int, (n + m) as int);
        assert(z[n + m + 0 - d] == z[(n + m + 0) as int]);
        assert(hist(out, d) == z[(n + m) as int]);
        assert(out.push(hist(out, d)) =~= z.subrange(n as int, (n + m + 1) as int));
        assert forall|k: int| 0 <= k < len - 1 implies #[trigger] z[n + (m + 1) + k - d] == z[n + (m + 1) + k] by {
            assert(z[n + m + (k + 1) - d] == z[n + m + (k + 1)]);
        }
        lemma_copy_match(z, n, m + 1, d, (len - 1) as nat);
    } else {
        assert(z.subrange(n as int, (n + m) as int) =~= z.subrange(n as int, (n + m + len) as int));
    }
}

/// Window capacity: every back-reference read from a bit stream has a distance in
/// `[1, 2^w]` and a length in `[1, 2^l]`.
pub proof fn lemma_parsed_tokens_fit(bits: Seq<bool>, w: nat, l: nat)
    ensures
        tokens_fit(parse(bits, w, l), w, l),
    decreases bits.len(),
{
    let ts = parse(bits, w, l);
    if bits.len() == 0 {
    } else if bits[0] {
        if bits.len() >= 9 {
            let rest = bits.subrange(9, bits.len() as int);
            lemma_parsed_tokens_fit(rest, w, l);
            assert forall|i: int| 0 <= i < ts.len() implies token_fits(#[trigger] ts[i], w, l) by {
                if i > 0 {
                    assert(ts[i] == parse(rest, w, l)[i - 1]);
                }
            }
        }
    } else if bits.len() >= 1 + w + l {
        let d = bits.subrange(1, 1 + w as int);
        let n = bits.subrange(1 + w as int, 1 + w as int + l as int);
        let rest = bits.subrange(1 + w as int + l as int, bits.len() as int);
        lemma_value_bound(d);
        lemma_value_bound(n);
        lemma_parsed_tokens_fit(rest, w, l);
        assert forall|i: int| 0 <= i < ts.len() implies token_fits(#[trigger] ts[i], w, l) by {
            if i > 0 {
                assert(ts[i] == parse(rest, w, l)[i - 1]);
            }
        }
    }
}

/// `bytes` is the token sequence `ts` written out, padded to whole bytes with fewer
/// than eight zero bits.
pub open spec fn packs(bytes: Seq<u8>, ts: Seq<Token>, w: nat, l: nat) -> bool {
    exists|k: nat|
        #![trigger zero_bits(k)]
        k < 8 && bytes_bits(bytes) == tokens_bits(ts, w, l).add(zero_bits(k))
}

/// `new` has the length of `old` and its bytes from `from` on.
pub open spec fn tail_kept(new: Seq<u8>, old: Seq<u8>, from: int) -> bool {
    &&& new.len() == old.len()
    &&& forall|i: int| from <= i < new.len() ==> #[trigger] new[i] == old[i]
}

/// `a` is a prefix of `b`.
pub open spec fn is_prefix<T>(a: Seq<T>, b: Seq<T>) -> bool {
    a.len() <= b.len() && b.subrange(0, a.len() as int) == a
}

/// The bits of a token sequence are those of its parts in turn.
pub proof fn lemma_tokens_bits_concat(a: Seq<Token>, b: Seq<Token>, w: nat, l: nat)
    ensures
        tokens_bits(a.add(b), w, l) == tokens_bits(a, w, l).add(tokens_bits(b, w, l)),
    decreases a.len(),
{
    if a.len() == 0 {
        assert(a.add(b) =~= b);
        assert(tokens_bits(a, w, l).add(tokens_bits(b, w, l)) =~= tokens_bits(b, w, l));
    } else {
        lemma_tokens_bits_concat(a.drop_first(), b, w, l);
        assert(a.add(b).drop_first() =~= a.drop_first().add(b));
        assert(a.add(b)[0] == a[0]);
        assert(token_bits(a[0], w, l).add(tokens_bits(a.drop_first(), w, l)).add(tokens_bits(b, w, l))
            =~= token_bits(a[0], w, l).add(tokens_bits(a.drop_first(), w, l).add(tokens_bits(b, w, l))));
    }
}

} // verus!
