//! The match that the encoder's search picks, as mathematics: the longest match
//! within the window, the latest of equally long ones.
use vstd::prelude::*;
use vstd::arithmetic::power2::pow2;
use crate::format::{Token, apply, expand, token_fits, tokens_fit, lemma_copy_match};

verus! {

/// Length of the common prefix of `s` from `a` and from `b`, capped at `m`.
pub open spec fn lcp(s: Seq<u8>, a: int, b: int, m: nat) -> nat
    decreases m,
{
    if m == 0 || s[a] != s[b] {
        0
    } else {
        1 + lcp(s, a + 1, b + 1, (m - 1) as nat)
    }
}

/// Length of the longest match for the bytes at `e` that starts in `[lo, hi)`.
pub open spec fn best_len(s: Seq<u8>, lo: int, hi: int, e: int, m: nat) -> nat
    decreases hi - lo,
{
    if lo >= hi {
        0
    } else {
        let rest = best_len(s, lo + 1, hi, e, m);
        let here = lcp(s, lo, e, m);
        if here > rest {
            here
        } else {
            rest
        }
    }
}

/// Where that longest match starts: of equally long ones, the latest.
pub open spec fn best_pos(s: Seq<u8>, lo: int, hi: int, e: int, m: nat) -> int
    decreases hi - lo,
{
    if lo >= hi {
        lo
    } else if lcp(s, lo, e, m) > best_len(s, lo + 1, hi, e, m) {
        lo
    } else {
        best_pos(s, lo + 1, hi, e, m)
    }
}

pub proof fn lemma_lcp_bound(s: Seq<u8>, a: int, b: int, m: nat)
    ensures
        lcp(s, a, b, m) <= m,
    decreases m,
{
    if m > 0 && s[a] == s[b] {
        lemma_lcp_bound(s, a + 1, b + 1, (m - 1) as nat);
    }
}

/// Within the common prefix the bytes agree.
pub proof fn lemma_lcp_prefix(s: Seq<u8>, a: int, b: int, m: nat, k: int)
    requires
        0 <= k < lcp(s, a, b, m),
    ensures
        s[a + k] == s[b + k],
    decreases k,
{
    if k > 0 {
        lemma_lcp_prefix(s, a + 1, b + 1, (m - 1) as nat, k - 1);
    }
}

/// A prefix of `k` equal bytes that ends at the cap or at a mismatch is the common prefix.
pub proof fn lemma_lcp_exact(s: Seq<u8>, a: int, b: int, m: nat, k: nat)
    requires
        k <= m,
        forall|i: int| 0 <= i < k ==> #[trigger] s[a + i] == s[b + i],
        k == m || s[a + k] != s[b + k],
    ensures
        lcp(s, a, b, m) == k,
    decreases k,
{
    if k > 0 {
        assert(s[a + 0] == s[b + 0]);
        assert forall|i: int| 0 <= i < k - 1 implies #[trigger] s[(a + 1) + i] == s[(b + 1) + i] by {
            assert(s[a + (i + 1)] == s[b + (i + 1)]);
        }
        assert(s[(a + 1) + (k - 1)] == s[a + k]);
        lemma_lcp_exact(s, a + 1, b + 1, (m - 1) as nat, (k - 1) as nat);
    }
}

/// Positions with no match below the range leave the best match unchanged.
pub proof fn lemma_best_skip(s: Seq<u8>, a: int, b: int, hi: int, e: int, m: nat)
    requires
        a <= b <= hi,
        forall|q: int| a <= q < b ==> #[trigger] lcp(s, q, e, m) == 0,
    ensures
        best_len(s, a, hi, e, m) == best_len(s, b, hi, e, m),
        best_len(s, b, hi, e, m) > 0 ==> best_pos(s, a, hi, e, m) == best_pos(s, b, hi, e, m),
    decreases b - a,
{
    if a < b {
        lemma_best_skip(s, a + 1, b, hi, e, m);
        assert(lcp(s, a, e, m) == 0);
    }
}

/// A best match of the full cap length stays best when positions below are added.
pub proof fn lemma_best_capped(s: Seq<u8>, a: int, b: int, hi: int, e: int, m: nat)
    requires
        a <= b <= hi,
        best_len(s, b, hi, e, m) == m,
    ensures
        best_len(s, a, hi, e, m) == m,
        best_pos(s, a, hi, e, m) == best_pos(s, b, hi, e, m),
    decreases b - a,
{
    if a < b {
        lemma_best_capped(s, a + 1, b, hi, e, m);
        lemma_lcp_bound(s, a, e, m);
    }
}

/// Two sequences that agree on `[a, a + m)` and on `[b, b + m)` have the same common
/// prefixes there.
pub proof fn lemma_lcp_congruent(s1: Seq<u8>, s2: Seq<u8>, a: int, b: int, m: nat)
    requires
        forall|i: int| 0 <= i < m ==> #[trigger] s1[a + i] == s2[a + i],
        forall|i: int| 0 <= i < m ==> #[trigger] s1[b + i] == s2[b + i],
    ensures
        lcp(s1, a, b, m) == lcp(s2, a, b, m),
    decreases m,
{
    if m > 0 {
        assert(s1[a + 0] == s2[a + 0]);
        assert(s1[b + 0] == s2[b + 0]);
        assert forall|i: int| 0 <= i < m - 1 implies #[trigger] s1[(a + 1) + i] == s2[(a + 1) + i] by {
            assert(s1[a + (i + 1)] == s2[a + (i + 1)]);
        }
        assert forall|i: int| 0 <= i < m - 1 implies #[trigger] s1[(b + 1) + i] == s2[(b + 1) + i] by {
            assert(s1[b + (i + 1)] == s2[b + (i + 1)]);
        }
        lemma_lcp_congruent(s1, s2, a + 1, b + 1, (m - 1) as nat);
    }
}

/// Two sequences that agree on `[lo, e + m)` have the same best match for `e` in `[lo, hi)`.
pub proof fn lemma_best_congruent(s1: Seq<u8>, s2: Seq<u8>, lo: int, hi: int, e: int, m: nat)
    requires
        hi <= e,
        forall|i: int| lo <= i < e + m ==> #[trigger] s1[i] == s2[i],
    ensures
        best_len(s1, lo, hi, e, m) == best_len(s2, lo, hi, e, m),
        best_pos(s1, lo, hi, e, m) == best_pos(s2, lo, hi, e, m),
    decreases hi - lo,
{
    if lo < hi {
        assert forall|i: int| 0 <= i < m implies #[trigger] s1[lo + i] == s2[lo + i] by {
            assert(s1[lo + i] == s2[lo + i]);
        }
        assert forall|i: int| 0 <= i < m implies #[trigger] s1[e + i] == s2[e + i] by {
            assert(s1[e + i] == s2[e + i]);
        }
        lemma_lcp_congruent(s1, s2, lo, e, m);
        lemma_best_congruent(s1, s2, lo + 1, hi, e, m);
    }
}

/// The break-even point: a back-reference of `1 + w + l` bits pays off only when it
/// stands for more bytes than `ceil((1 + w + l) / 8)`.
pub open spec fn break_even(w: nat, l: nat) -> nat {
    (8 + w + l) / 8
}

/// The input after a window of `2^w` zeros: what the encoder's history starts from.
pub open spec fn padded(input: Seq<u8>, w: nat) -> Seq<u8> {
    Seq::new(pow2(w), |i: int| 0u8).add(input)
}

/// The token that the encoder picks at input position `p`: the longest match that
/// starts at most `2^w` bytes back and is at most `2^l` bytes long (and no longer
/// than the input), the latest of equally long ones, when it is longer than the
/// break-even point; otherwise the literal byte.
pub open spec fn greedy_token(input: Seq<u8>, w: nat, l: nat, p: nat) -> Token {
    let z = padded(input, w);
    let n = pow2(w);
    let rest = (input.len() - p) as nat;
    let m = if pow2(l) < rest { pow2(l) } else { rest };
    let e = (n + p) as int;
    let ml = best_len(z, p as int, e, e, m);
    if ml > break_even(w, l) {
        Token::Backref { dist: (e - best_pos(z, p as int, e, e, m)) as nat, len: ml }
    } else {
        Token::Literal(input[p as int])
    }
}

/// Input bytes that a token stands for.
pub open spec fn span(t: Token) -> nat {
    match t {
        Token::Literal(_) => 1,
        Token::Backref { len, .. } => len,
    }
}

/// The tokens the encoder picks from position `p` on, up to position `c`.
pub open spec fn greedy_upto(input: Seq<u8>, w: nat, l: nat, p: nat, c: nat) -> Seq<Token>
    decreases c - p,
{
    if p >= c {
        Seq::empty()
    } else {
        let t = greedy_token(input, w, l, p);
        if span(t) == 0 || p + span(t) > c {
            seq![t]
        } else {
            seq![t].add(greedy_upto(input, w, l, p + span(t), c))
        }
    }
}

/// Walking the encoder's tokens from `p` lands exactly on `c`.
pub open spec fn lands(input: Seq<u8>, w: nat, l: nat, p: nat, c: nat) -> bool
    decreases c - p,
{
    if p >= c {
        p == c
    } else {
        let t = greedy_token(input, w, l, p);
        span(t) > 0 && p + span(t) <= c && lands(input, w, l, p + span(t), c)
    }
}

/// Every token start on the walk from `p` to `c` has a full lookahead of input after it.
pub open spec fn walk_stable(input: Seq<u8>, w: nat, l: nat, p: nat, c: nat) -> bool
    decreases c - p,
{
    if p >= c {
        true
    } else {
        let t = greedy_token(input, w, l, p);
        p + pow2(l) <= input.len() && (span(t) == 0 || p + span(t) > c || walk_stable(
            input,
            w,
            l,
            p + span(t),
            c,
        ))
    }
}

/// The tokens that the encoder writes for `input`.
pub open spec fn greedy(input: Seq<u8>, w: nat, l: nat) -> Seq<Token> {
    greedy_upto(input, w, l, 0, input.len())
}

/// One more step of the walk.
pub proof fn lemma_walk_step(input: Seq<u8>, w: nat, l: nat, p: nat, c: nat)
    requires
        p <= c,
        lands(input, w, l, p, c),
        c < input.len(),
        span(greedy_token(input, w, l, c)) > 0,
    ensures
        ({
            let t = greedy_token(input, w, l, c);
            &&& lands(input, w, l, p, c + span(t))
            &&& greedy_upto(input, w, l, p, c + span(t)) == greedy_upto(input, w, l, p, c).push(t)
        }),
    decreases c - p,
{
    let t = greedy_token(input, w, l, c);
    let c2 = c + span(t);
    if p == c {
        assert(lands(input, w, l, c2, c2));
        assert(lands(input, w, l, p, c2));
        assert(greedy_upto(input, w, l, c2, c2) =~= Seq::<Token>::empty());
        assert(greedy_upto(input, w, l, p, c2) == seq![t].add(greedy_upto(input, w, l, c2, c2)));
        assert(greedy_upto(input, w, l, p, c) =~= Seq::<Token>::empty());
        assert(seq![t].add(Seq::<Token>::empty()) =~= Seq::<Token>::empty().push(t));
    } else {
        let tp = greedy_token(input, w, l, p);
        assert(span(tp) > 0 && p + span(tp) <= c);
        lemma_walk_step(input, w, l, p + span(tp), c);
        assert(lands(input, w, l, p, c2));
        assert(greedy_upto(input, w, l, p, c2) == seq![tp].add(greedy_upto(input, w, l, p + span(tp), c2)));
        assert(greedy_upto(input, w, l, p, c) == seq![tp].add(greedy_upto(input, w, l, p + span(tp), c)));
        assert(seq![tp].add(greedy_upto(input, w, l, p + span(tp), c).push(t)) =~= seq![tp].add(
            greedy_upto(input, w, l, p + span(tp), c),
        ).push(t));
    }
}

/// Stability of a walk grows with one more step whose start has a full lookahead.
pub proof fn lemma_walk_stable_step(input: Seq<u8>, w: nat, l: nat, p: nat, c: nat)
    requires
        p <= c,
        lands(input, w, l, p, c),
        walk_stable(input, w, l, p, c),
        c + pow2(l) <= input.len(),
    ensures
        walk_stable(input, w, l, p, c + span(greedy_token(input, w, l, c))),
    decreases c - p,
{
    let t = greedy_token(input, w, l, c);
    if p == c {
        if span(t) > 0 {
            assert(walk_stable(input, w, l, c + span(t), c + span(t)));
        }
    } else {
        let tp = greedy_token(input, w, l, p);
        lemma_walk_stable_step(input, w, l, p + span(tp), c);
    }
}

/// At a position with a full lookahead of input after it, more input leaves the
/// encoder's pick unchanged.
pub proof fn lemma_token_stable(input: Seq<u8>, more: Seq<u8>, w: nat, l: nat, p: nat)
    requires
        p + pow2(l) <= input.len(),
        pow2(l) >= 1,
    ensures
        greedy_token(input.add(more), w, l, p) == greedy_token(input, w, l, p),
{
    let z1 = padded(input, w);
    let z2 = padded(input.add(more), w);
    let n = pow2(w);
    let e = (n + p) as int;
    let m = pow2(l);
    assert forall|i: int| p <= i < e + m implies #[trigger] z1[i] == z2[i] by {
        if i >= n {
            assert(z1[i] == input[i - n]);
            assert(z2[i] == input.add(more)[i - n]);
        }
    }
    lemma_best_congruent(z1, z2, p as int, e, e, m);
    assert(input.add(more)[p as int] == input[p as int]);
}

/// More input leaves a stable walk, and its tokens, unchanged.
pub proof fn lemma_walk_extend(input: Seq<u8>, more: Seq<u8>, w: nat, l: nat, p: nat, c: nat)
    requires
        lands(input, w, l, p, c),
        walk_stable(input, w, l, p, c),
        pow2(l) >= 1,
    ensures
        lands(input.add(more), w, l, p, c),
        walk_stable(input.add(more), w, l, p, c),
        greedy_upto(input.add(more), w, l, p, c) == greedy_upto(input, w, l, p, c),
    decreases c - p,
{
    if p < c {
        lemma_token_stable(input, more, w, l, p);
        let t = greedy_token(input, w, l, p);
        lemma_walk_extend(input, more, w, l, p + span(t), c);
    }
}

/// Common prefixes read at an offset `d` in a sequence that holds `s1` there.
pub proof fn lemma_lcp_shift(s1: Seq<u8>, s2: Seq<u8>, a: int, b: int, m: nat, d: int)
    requires
        forall|i: int| 0 <= i < m ==> #[trigger] s1[a + i] == s2[a + d + i],
        forall|i: int| 0 <= i < m ==> #[trigger] s1[b + i] == s2[b + d + i],
    ensures
        lcp(s1, a, b, m) == lcp(s2, a + d, b + d, m),
    decreases m,
{
    if m > 0 {
        assert(s1[a + 0] == s2[a + d + 0]);
        assert(s1[b + 0] == s2[b + d + 0]);
        assert forall|i: int| 0 <= i < m - 1 implies #[trigger] s1[(a + 1) + i] == s2[(a + 1) + d + i] by {
            assert(s1[a + (i + 1)] == s2[a + d + (i + 1)]);
        }
        assert forall|i: int| 0 <= i < m - 1 implies #[trigger] s1[(b + 1) + i] == s2[(b + 1) + d + i] by {
            assert(s1[b + (i + 1)] == s2[b + d + (i + 1)]);
        }
        lemma_lcp_shift(s1, s2, a + 1, b + 1, (m - 1) as nat, d);
    }
}

/// Best matches read at an offset `d` in a sequence that holds `s1` there.
pub proof fn lemma_best_shift(s1: Seq<u8>, s2: Seq<u8>, lo: int, hi: int, e: int, m: nat, d: int)
    requires
        hi <= e,
        forall|i: int| lo <= i < e + m ==> #[trigger] s1[i] == s2[i + d],
    ensures
        best_len(s1, lo, hi, e, m) == best_len(s2, lo + d, hi + d, e + d, m),
        best_pos(s1, lo, hi, e, m) + d == best_pos(s2, lo + d, hi + d, e + d, m),
    decreases hi - lo,
{
    if lo < hi {
        assert forall|i: int| 0 <= i < m implies #[trigger] s1[lo + i] == s2[lo + d + i] by {
            assert(s1[lo + i] == s2[(lo + i) + d]);
        }
        assert forall|i: int| 0 <= i < m implies #[trigger] s1[e + i] == s2[e + d + i] by {
            assert(s1[e + i] == s2[(e + i) + d]);
        }
        lemma_lcp_shift(s1, s2, lo, e, m, d);
        lemma_best_shift(s1, s2, lo + 1, hi, e, m, d);
        assert(lo + 1 + d == (lo + d) + 1);
    }
}

/// The best match lies in the range, and its common prefix is as long as the best length.
pub proof fn lemma_best_pos_in_range(s: Seq<u8>, lo: int, hi: int, e: int, m: nat)
    requires
        best_len(s, lo, hi, e, m) > 0,
    ensures
        lo <= best_pos(s, lo, hi, e, m) < hi,
        lcp(s, best_pos(s, lo, hi, e, m), e, m) == best_len(s, lo, hi, e, m),
    decreases hi - lo,
{
    if lo < hi {
        if lcp(s, lo, e, m) > best_len(s, lo + 1, hi, e, m) {
        } else {
            lemma_best_pos_in_range(s, lo + 1, hi, e, m);
        }
    }
}

/// The token picked at a position inside the input is valid there: it fits the
/// wire format, stands for at least one byte and no more than remain, and applied
/// to the input before it gives the input up to its end.
pub proof fn lemma_greedy_token_valid(input: Seq<u8>, w: nat, l: nat, p: nat)
    requires
        p < input.len(),
    ensures
        ({
            let t = greedy_token(input, w, l, p);
            &&& token_fits(t, w, l)
            &&& 1 <= span(t)
            &&& p + span(t) <= input.len()
            &&& apply(input.subrange(0, p as int), t) == input.subrange(0, (p + span(t)) as int)
        }),
{
    let z = padded(input, w);
    let n = pow2(w);
    let rest = (input.len() - p) as nat;
    let m = if pow2(l) < rest { pow2(l) } else { rest };
    let e = (n + p) as int;
    let ml = best_len(z, p as int, e, e, m);
    let t = greedy_token(input, w, l, p);
    vstd::arithmetic::power2::lemma_pow2_pos(w);
    vstd::arithmetic::power2::lemma_pow2_pos(l);
    assert(z.subrange(n as int, (n + p) as int) =~= input.subrange(0, p as int));
    if ml > break_even(w, l) {
        lemma_best_pos_in_range(z, p as int, e, e, m);
        let bp = best_pos(z, p as int, e, e, m);
        lemma_lcp_bound(z, bp, e, m);
        let d = (e - bp) as nat;
        assert forall|k: int| 0 <= k < ml implies #[trigger] z[n + p + k - d] == z[n + p + k] by {
            lemma_lcp_prefix(z, bp, e, m, k);
        }
        assert forall|i: int| 0 <= i < n implies z[i] == 0 by {}
        lemma_copy_match(z, n, p, d, ml);
        assert(z.subrange(n as int, (n + p + ml) as int) =~= input.subrange(0, (p + ml) as int));
    } else {
        assert(input.subrange(0, (p + 1) as int) =~= input.subrange(0, p as int).push(input[p as int]));
    }
}

/// The walk from any position inside the input lands on its end, and its tokens
/// fit the wire format and expand, after the input before them, to the whole input.
pub proof fn lemma_greedy_walk_valid(input: Seq<u8>, w: nat, l: nat, p: nat)
    requires
        p <= input.len(),
    ensures
        lands(input, w, l, p, input.len()),
        tokens_fit(greedy_upto(input, w, l, p, input.len()), w, l),
        expand(input.subrange(0, p as int), greedy_upto(input, w, l, p, input.len())) == input,
    decreases input.len() - p,
{
    let c = input.len();
    let ts = greedy_upto(input, w, l, p, c);
    if p == c {
        assert(input.subrange(0, p as int) =~= input);
    } else {
        let t = greedy_token(input, w, l, p);
        lemma_greedy_token_valid(input, w, l, p);
        lemma_greedy_walk_valid(input, w, l, p + span(t));
        let rest = greedy_upto(input, w, l, p + span(t), c);
        assert(ts == seq![t].add(rest));
        assert(ts[0] == t);
        assert(ts.drop_first() =~= rest);
        assert forall|i: int| 0 <= i < ts.len() implies token_fits(#[trigger] ts[i], w, l) by {
            if i > 0 {
                assert(ts[i] == rest[i - 1]);
            }
        }
    }
}

/// A walk that lands on `c` on its way to the end splits there.
pub proof fn lemma_upto_split(input: Seq<u8>, w: nat, l: nat, p: nat, c: nat, e: nat)
    requires
        p <= c <= e,
        lands(input, w, l, p, c),
        lands(input, w, l, c, e),
    ensures
        greedy_upto(input, w, l, p, e) == greedy_upto(input, w, l, p, c).add(
            greedy_upto(input, w, l, c, e),
        ),
    decreases c - p,
{
    if p == c {
        assert(greedy_upto(input, w, l, p, c) =~= Seq::<Token>::empty());
        assert(Seq::<Token>::empty().add(greedy_upto(input, w, l, c, e)) =~= greedy_upto(input, w, l, c, e));
    } else {
        let t = greedy_token(input, w, l, p);
        lemma_upto_split(input, w, l, p + span(t), c, e);
        assert(seq![t].add(greedy_upto(input, w, l, p + span(t), c)).add(greedy_upto(input, w, l, c, e))
            =~= seq![t].add(greedy_upto(input, w, l, p + span(t), c).add(greedy_upto(input, w, l, c, e))));
    }
}

} // verus!
