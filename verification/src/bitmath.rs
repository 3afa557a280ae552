//! Mathematical model of a byte stream read bit by bit, least-significant
//! bit first.
//!
//! A byte stream `Seq<u8>` is viewed as a sequence of bits: bit `i` is bit
//! `i % 8` of byte `i / 8`.  [`window`] extracts a run of bits as a
//! `Seq<bool>`, and [`val_of`] gives the unsigned integer those bits encode
//! (the earliest bit is the least significant).  These spec functions are
//! the vocabulary in which every reader, writer and codec contract in this
//! crate is stated.

use vstd::prelude::*;

verus! {

use vstd::arithmetic::power2::pow2;
use vstd::arithmetic::power2::lemma_pow2_unfold;
use vstd::arithmetic::power2::lemma_pow2_adds;
use vstd::arithmetic::power2::lemma_pow2_pos;
use vstd::arithmetic::power2::lemma2_to64;
use vstd::arithmetic::div_mod::lemma_mod_breakdown;
use vstd::arithmetic::div_mod::lemma_small_mod;
use vstd::arithmetic::div_mod::lemma_div_denominator;
use vstd::arithmetic::div_mod::lemma_fundamental_div_mod_converse;
use vstd::arithmetic::div_mod::lemma_div_basics;
use vstd::arithmetic::div_mod::lemma_div_is_ordered;
use vstd::arithmetic::div_mod::lemma_basic_div;
use vstd::arithmetic::div_mod::lemma_mod_multiples_vanish;
use vstd::arithmetic::mul::lemma_mul_is_associative;

/// Bit `i` of the byte stream `s`, counting bits least-significant first
/// within each byte; positions outside the stream read as zero.
pub open spec fn bit_at(s: Seq<u8>, i: int) -> bool {
    0 <= i < 8 * s.len() && (s[i / 8] as nat / pow2((i % 8) as nat)) % 2 == 1
}

/// The `n` bits of `s` starting at bit position `start`, earliest first.
pub open spec fn window(s: Seq<u8>, start: int, n: nat) -> Seq<bool> {
    Seq::new(n, |j: int| bit_at(s, start + j))
}

/// The unsigned integer encoded by the bits `bs`, first bit least
/// significant.
pub open spec fn val_of(bs: Seq<bool>) -> nat
    decreases bs.len(),
{
    if bs.len() == 0 {
        0
    } else {
        (if bs[0] {
            1nat
        } else {
            0nat
        }) + 2 * val_of(bs.skip(1))
    }
}

/// The low `n` bits of the integer `v`, least significant first: the
/// sequence of bits that encodes `v % pow2(n)`.
pub open spec fn bit_seq(v: nat, n: nat) -> Seq<bool> {
    Seq::new(n, |i: int| (v / pow2(i as nat)) % 2 == 1)
}

/// The number of whole bytes needed to hold `bits` bits.
pub open spec fn bytes_for(bits: nat) -> nat {
    (bits + 7) / 8
}

/// A sequence of `n` bits encodes a value below `pow2(n)`.
pub proof fn lemma_val_of_bound(bs: Seq<bool>)
    ensures
        val_of(bs) < pow2(bs.len()),
    decreases bs.len(),
{
    if bs.len() == 0 {
        assert(pow2(0) == 1) by {
            lemma2_to64();
        }
    } else {
        lemma_val_of_bound(bs.skip(1));
        lemma_pow2_unfold(bs.len());
    }
}

/// Concatenating bit runs: the later run contributes its value scaled by
/// `pow2` of the earlier run's length.
pub proof fn lemma_val_of_concat(a: Seq<bool>, b: Seq<bool>)
    ensures
        val_of(a + b) == val_of(a) + pow2(a.len()) * val_of(b),
    decreases a.len(),
{
    if a.len() == 0 {
        assert(a + b =~= b);
        assert(pow2(0) == 1) by {
            lemma2_to64();
        }
    } else {
        assert((a + b).skip(1) =~= a.skip(1) + b);
        lemma_val_of_concat(a.skip(1), b);
        lemma_pow2_unfold(a.len());
        lemma_mul_is_associative(2, pow2((a.len() - 1) as nat) as int, val_of(b) as int);
    }
}

/// A window over consecutive positions splits at any interior point.
pub proof fn lemma_window_split(s: Seq<u8>, start: int, m: nat, n: nat)
    ensures
        window(s, start, (m + n) as nat) =~= window(s, start, m) + window(s, start + m, n),
{
}

/// The bits of `bit_seq(v, n)` encode `v % pow2(n)`.
pub proof fn lemma_val_of_bit_seq(v: nat, n: nat)
    ensures
        val_of(bit_seq(v, n)) == v % pow2(n),
    decreases n,
{
    if n == 0 {
        assert(pow2(0) == 1) by {
            lemma2_to64();
        }
        lemma_small_mod(0, 1);
        assert(v % 1 == 0) by {
            lemma_mod_one(v);
        }
    } else {
        lemma_bit_seq_skip(v, n);
        lemma_val_of_bit_seq(v / 2, (n - 1) as nat);
        assert(pow2(0) == 1) by {
            lemma2_to64();
        }
        lemma_div_basics(v as int);
        lemma_pow2_pos((n - 1) as nat);
        lemma_pow2_unfold(n);
        lemma_mod_breakdown(v as int, 2, pow2((n - 1) as nat) as int);
    }
}

/// Dropping the first bit of a bit sequence halves the value.
pub proof fn lemma_bit_seq_skip(v: nat, n: nat)
    requires
        n >= 1,
    ensures
        bit_seq(v, n).skip(1) =~= bit_seq(v / 2, (n - 1) as nat),
{
    assert forall|j: int| 0 <= j < n - 1 implies bit_seq(v, n).skip(1)[j] == bit_seq(
        v / 2,
        (n - 1) as nat,
    )[j] by {
        lemma_pow2_pos(j as nat);
        lemma_div_denominator(v as int, 2, pow2(j as nat) as int);
        lemma_pow2_adds(1, j as nat);
        assert(pow2(1) == 2) by {
            lemma2_to64();
        }
    }
}

/// A bit sequence is recovered from its value and its length.
pub proof fn lemma_bit_seq_of_val(bs: Seq<bool>)
    ensures
        bit_seq(val_of(bs), bs.len()) =~= bs,
    decreases bs.len(),
{
    if bs.len() > 0 {
        let v = val_of(bs);
        let rest = val_of(bs.skip(1));
        let b0: nat = if bs[0] {
            1
        } else {
            0
        };
        assert(pow2(0) == 1) by {
            lemma2_to64();
        }
        lemma_div_basics(v as int);
        lemma_mod_multiples_vanish(rest as int, b0 as int, 2);
        lemma_small_mod(b0, 2);
        lemma_fundamental_div_mod_converse(v as int, 2, rest as int, b0 as int);
        lemma_bit_seq_skip(v, bs.len());
        lemma_bit_seq_of_val(bs.skip(1));
        assert forall|j: int| 0 <= j < bs.len() implies bit_seq(v, bs.len())[j] == bs[j] by {
            if j >= 1 {
                assert(bit_seq(v, bs.len())[j] == bit_seq(v, bs.len()).skip(1)[j - 1]);
                assert(bit_seq(v / 2, (bs.len() - 1) as nat) =~= bit_seq(
                    rest,
                    bs.skip(1).len(),
                ));
                assert(bit_seq(rest, bs.skip(1).len())[j - 1] == bs.skip(1)[j - 1]);
            }
        }
    }
}

/// Two adjacent bit runs are the bit sequence of the combined value: the
/// later run's value is scaled by `pow2` of the earlier run's length.
pub proof fn lemma_bit_seq_concat(a: nat, m: nat, b: nat, n: nat)
    requires
        a < pow2(m),
        b < pow2(n),
    ensures
        bit_seq((a + pow2(m) * b) as nat, (m + n) as nat) =~= bit_seq(a, m) + bit_seq(b, n),
{
    let whole = bit_seq(a, m) + bit_seq(b, n);
    lemma_val_of_concat(bit_seq(a, m), bit_seq(b, n));
    lemma_val_of_bit_seq_small(a, m);
    lemma_val_of_bit_seq_small(b, n);
    lemma_bit_seq_of_val(whole);
}

/// Appending a byte to the stream appends its eight bits to the window
/// over the whole stream.
pub proof fn lemma_append_byte(s: Seq<u8>, b: u8)
    ensures
        window(s.push(b), 0, (8 * s.len() + 8) as nat) =~= window(s, 0, (8 * s.len()) as nat)
            + bit_seq(b as nat, 8),
{
    let t = s.push(b);
    assert forall|i: int| 0 <= i < 8 * s.len() + 8 implies #[trigger] bit_at(t, i) == (window(
        s,
        0,
        (8 * s.len()) as nat,
    ) + bit_seq(b as nat, 8))[i] by {
        if i < 8 * s.len() {
            lemma_basic_div(0, 8);
            lemma_div_is_ordered(0, i, 8);
            lemma_div_is_ordered(i, 8 * s.len() - 1, 8);
            lemma_fundamental_div_mod_converse(8 * (s.len() - 1) + 7, 8, s.len() - 1, 7);
            assert(t[i / 8] == s[i / 8]);
        } else {
            lemma_fundamental_div_mod_converse(i, 8, s.len() as int, i - 8 * s.len());
            assert(t[s.len() as int] == b);
        }
    }
}

/// A natural number is divisible by one with no remainder.
proof fn lemma_mod_one(v: nat)
    ensures
        v % 1 == 0,
{
    lemma_fundamental_div_mod_converse(v as int, 1, v as int, 0);
}

/// A value below `pow2(n)` round-trips through its bit sequence.
pub proof fn lemma_val_of_bit_seq_small(v: nat, n: nat)
    requires
        v < pow2(n),
    ensures
        val_of(bit_seq(v, n)) == v,
{
    lemma_val_of_bit_seq(v, n);
    lemma_small_mod(v, pow2(n));
}

/// `bytes_for` is exact on a bit count that byte `p` is the last to cover.
pub proof fn lemma_bytes_for_exact(x: nat, p: nat)
    requires
        x <= 8 * p,
        8 * p < x + 8,
    ensures
        bytes_for(x) == p,
{
    lemma_fundamental_div_mod_converse((x + 7) as int, 8, p as int, (x + 7 - 8 * p) as int);
}

/// `bytes_for` never exceeds a byte count that covers the bits.
pub proof fn lemma_bytes_for_le(x: nat, p: nat)
    requires
        x <= 8 * p,
    ensures
        bytes_for(x) <= p,
{
    lemma_div_is_ordered((x + 7) as int, (8 * p + 7) as int, 8);
    lemma_fundamental_div_mod_converse((8 * p + 7) as int, 8, p as int, 7);
}

/// The eight bits of stream position `8 * k` are exactly byte `k`.
pub proof fn lemma_byte_window(s: Seq<u8>, k: int)
    requires
        0 <= k < s.len(),
    ensures
        val_of(window(s, 8 * k, 8)) == s[k],
{
    assert(window(s, 8 * k, 8) =~= bit_seq(s[k] as nat, 8)) by {
        assert forall|j: int| 0 <= j < 8 implies window(s, 8 * k, 8)[j] == bit_seq(
            s[k] as nat,
            8,
        )[j] by {
            lemma_fundamental_div_mod_converse(8 * k + j, 8, k, j);
        }
    }
    lemma_val_of_bit_seq(s[k] as nat, 8);
    assert(pow2(8) == 256) by {
        lemma2_to64();
    }
    lemma_small_mod(s[k] as nat, 256);
}

} // verus!
