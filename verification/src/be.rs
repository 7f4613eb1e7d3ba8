//! Big-endian encoding of unsigned integers, used for the handshake id and
//! for the length field of `Send` frames.

use vstd::prelude::*;
use vstd::arithmetic::div_mod::{
    lemma_div_denominator, lemma_fundamental_div_mod, lemma_multiply_divide_lt,
};

verus! {

/// 256^n: the number of values an n-byte field can hold.
pub open spec fn pow256(n: nat) -> nat
    decreases n,
{
    if n == 0 {
        1
    } else {
        256 * pow256((n - 1) as nat)
    }
}

/// The unsigned integer a big-endian byte sequence denotes.
pub open spec fn be_to_int(s: Seq<u8>) -> nat
    decreases s.len(),
{
    if s.len() == 0 {
        0
    } else {
        be_to_int(s.drop_last()) * 256 + s.last() as nat
    }
}

/// The n-byte big-endian encoding of x's low n bytes.
pub open spec fn int_to_be(x: nat, n: nat) -> Seq<u8>
    decreases n,
{
    if n == 0 {
        Seq::empty()
    } else {
        int_to_be(x / 256, (n - 1) as nat).push((x % 256) as u8)
    }
}

pub proof fn lemma_pow256_pos(n: nat)
    ensures
        pow256(n) >= 1,
    decreases n,
{
    if n > 0 {
        lemma_pow256_pos((n - 1) as nat);
    }
}

pub proof fn lemma_pow256_increases(a: nat, b: nat)
    requires
        a <= b,
    ensures
        pow256(a) <= pow256(b),
        pow256(a) >= 1,
    decreases b,
{
    lemma_pow256_pos(a);
    if a < b {
        lemma_pow256_increases(a, (b - 1) as nat);
        lemma_pow256_pos((b - 1) as nat);
    }
}

pub proof fn lemma_be_to_int_bound(s: Seq<u8>)
    ensures
        be_to_int(s) < pow256(s.len()),
    decreases s.len(),
{
    if s.len() > 0 {
        lemma_be_to_int_bound(s.drop_last());
        let front = be_to_int(s.drop_last());
        assert(front <= pow256((s.len() - 1) as nat) - 1);
        assert(front * 256 <= (pow256((s.len() - 1) as nat) - 1) * 256) by (nonlinear_arith)
            requires
                front <= pow256((s.len() - 1) as nat) - 1,
        ;
    }
}

pub proof fn lemma_int_to_be_len(x: nat, n: nat)
    ensures
        int_to_be(x, n).len() == n,
    decreases n,
{
    if n > 0 {
        lemma_int_to_be_len(x / 256, (n - 1) as nat);
    }
}

/// Reading back the n-byte big-endian encoding of x yields x, provided x fits.
pub proof fn lemma_be_round_trip(x: nat, n: nat)
    requires
        x < pow256(n),
    ensures
        be_to_int(int_to_be(x, n)) == x,
    decreases n,
{
    if n == 0 {
        assert(x == 0);
    } else {
        let front = int_to_be(x / 256, (n - 1) as nat);
        lemma_int_to_be_len(x / 256, (n - 1) as nat);
        assert(int_to_be(x, n) == front.push((x % 256) as u8));
        assert(front.push((x % 256) as u8).drop_last() =~= front);
        assert(x / 256 < pow256((n - 1) as nat)) by {
            lemma_pow256_increases(0, (n - 1) as nat);
            lemma_multiply_divide_lt(x as int, 256, pow256((n - 1) as nat) as int);
        }
        lemma_be_round_trip(x / 256, (n - 1) as nat);
        lemma_fundamental_div_mod(x as int, 256);
        assert(be_to_int(int_to_be(x, n)) == (x / 256) * 256 + x % 256);
    }
}

/// The first byte of an (n+1)-byte big-endian encoding is the most
/// significant one.
proof fn lemma_int_to_be_front(x: nat, n: nat)
    ensures
        int_to_be(x, (n + 1) as nat) =~= seq![((x / pow256(n)) % 256) as u8] + int_to_be(x, n),
    decreases n,
{
    if n == 0 {
        reveal_with_fuel(int_to_be, 3);
        assert(int_to_be(x, 1) =~= seq![(x % 256) as u8]);
        assert(pow256(0) == 1);
        assert(x / pow256(0) == x);
    } else {
        lemma_int_to_be_front(x / 256, (n - 1) as nat);
        assert((x / 256) / pow256((n - 1) as nat) == x / (256 * pow256((n - 1) as nat))) by {
            lemma_pow256_increases(0, (n - 1) as nat);
            lemma_div_denominator(x as int, 256, pow256((n - 1) as nat) as int);
        }
        assert(256 * pow256((n - 1) as nat) == pow256(n));
        assert(int_to_be(x, (n + 1) as nat) == int_to_be(x / 256, n).push((x % 256) as u8));
        assert(int_to_be(x / 256, n) =~= seq![((x / pow256(n)) % 256) as u8] + int_to_be(
            x / 256,
            (n - 1) as nat,
        ));
        assert(int_to_be(x, (n + 1) as nat) =~= seq![((x / pow256(n)) % 256) as u8] + int_to_be(
            x / 256,
            (n - 1) as nat,
        ).push((x % 256) as u8));
    }
}

/// Reads a 64-bit unsigned integer from 8 big-endian bytes.
pub fn u64_from_be(bytes: &[u8]) -> (r: u64)
    requires
        bytes@.len() == 8,
    ensures
        r == be_to_int(bytes@),
{
    let mut acc: u64 = 0;
    let mut i: usize = 0;
    proof {
        assert(bytes@.take(0) =~= Seq::<u8>::empty());
    }
    while i < 8
        invariant
            i <= 8,
            bytes@.len() == 8,
            acc == be_to_int(bytes@.take(i as int)),
        decreases 8 - i,
    {
        proof {
            lemma_be_to_int_bound(bytes@.take(i as int));
            lemma_pow256_increases(i as nat, 7);
            assert(pow256(7) == 0x100000000000000) by {
                reveal_with_fuel(pow256, 8);
            }
            assert(acc <= 0xffffffffffffff);
            assert(bytes@.take(i + 1).drop_last() =~= bytes@.take(i as int));
            assert(bytes@.take(i + 1).last() == bytes@[i as int]);
        }
        acc = acc * 256 + (bytes[i] as u64);
        i = i + 1;
    }
    proof {
        assert(bytes@.take(8) =~= bytes@);
    }
    acc
}

/// Writes a 64-bit unsigned integer as 8 big-endian bytes.
pub fn u64_to_be(x: u64) -> (r: Vec<u8>)
    ensures
        r@ == int_to_be(x as nat, 8),
        r@.len() == 8,
{
    let mut v: Vec<u8> = Vec::new();
    let mut y: u64 = x;
    let mut i: usize = 0;
    proof {
        assert(int_to_be(x as nat, 0) =~= Seq::<u8>::empty());
        assert(pow256(0) == 1);
        assert(x as nat / pow256(0) == x as nat);
    }
    while i < 8
        invariant
            i <= 8,
            v@ =~= int_to_be(x as nat, i as nat),
            y == (x as nat) / pow256(i as nat),
        decreases 8 - i,
    {
        proof {
            lemma_int_to_be_front(x as nat, i as nat);
            lemma_pow256_increases(0, i as nat);
            assert((x as nat / pow256(i as nat)) / 256 == x as nat / (pow256(i as nat) * 256)) by {
                lemma_div_denominator(x as int, pow256(i as nat) as int, 256);
            }
            assert(pow256(i as nat) * 256 == 256 * pow256(i as nat)) by (nonlinear_arith);
            assert(256 * pow256(i as nat) == pow256((i + 1) as nat));
        }
        v.insert(0, (y % 256) as u8);
        proof {
            assert(v@ =~= seq![((x as nat / pow256(i as nat)) % 256) as u8] + int_to_be(
                x as nat,
                i as nat,
            ));
        }
        y = y / 256;
        i = i + 1;
    }
    proof {
        lemma_int_to_be_len(x as nat, 8);
    }
    v
}

} // verus!
