use vstd::prelude::*;

verus! {

/// The squares of file A.
pub const FILE_A: u64 = 0x0101_0101_0101_0101;

/// The squares of file H.
pub const FILE_H: u64 = 0x8080_8080_8080_8080;

/// The squares of the first rank.
pub const RANK_1: u64 = 0xff;

/// Whether bit `i` of `x` is set.
pub open spec fn get_bit(x: u64, i: u64) -> bool {
    (x >> i) & 1 == 1
}

/// The number of set bits of `x` among its lowest `n`.
pub open spec fn count_ones_below(x: u64, n: nat) -> nat
    decreases n,
{
    if n == 0 {
        0
    } else {
        count_ones_below(x, (n - 1) as nat) + if get_bit(x, (n - 1) as u64) {
            1nat
        } else {
            0nat
        }
    }
}

/// The word whose bit `i` is set exactly when `i < n` and `p(i)` holds.
pub open spec fn bits_below(p: spec_fn(int) -> bool, n: nat) -> u64
    decreases n,
{
    if n == 0 {
        0
    } else {
        let rest = bits_below(p, (n - 1) as nat);
        if p(n - 1) {
            rest | (1u64 << ((n - 1) as u64))
        } else {
            rest
        }
    }
}

/// The bits of a conjunction, a disjunction, a difference and a complement.
pub proof fn lemma_bit_ops(a: u64, b: u64, i: u64)
    by (bit_vector)
    requires
        i < 64,
    ensures
        get_bit(a & b, i) == (get_bit(a, i) && get_bit(b, i)),
        get_bit(a | b, i) == (get_bit(a, i) || get_bit(b, i)),
        get_bit(a ^ b, i) == (get_bit(a, i) != get_bit(b, i)),
        get_bit(!a, i) == !get_bit(a, i),
        !get_bit(0, i),
        get_bit(0xffff_ffff_ffff_ffff, i),
        (a >> i) & 1 != 0 ==> get_bit(a, i),
{
}

/// The word `1 << s` has bit `s` and no other.
pub proof fn lemma_bit_single(s: u64, i: u64)
    by (bit_vector)
    requires
        s < 64,
        i < 64,
    ensures
        get_bit(1u64 << s, i) == (i == s),
        (1u64 << s) != 0,
{
}

/// A shift by eight moves every bit up or down one rank.
pub proof fn lemma_bit_shift_rank(a: u64, i: u64)
    by (bit_vector)
    requires
        i < 64,
    ensures
        i < 8 ==> !get_bit(a << 8, i),
        i >= 8 ==> get_bit(a << 8, i) == get_bit(a, (i - 8) as u64),
        i >= 56 ==> !get_bit(a >> 8, i),
        i < 56 ==> get_bit(a >> 8, i) == get_bit(a, (i + 8) as u64),
{
}

/// A shift by one, masked at the edge, moves every bit along its rank and drops the
/// bit that would change rank.
pub proof fn lemma_bit_shift_file(a: u64, i: u64)
    by (bit_vector)
    requires
        i < 64,
    ensures
        i % 8 == 0 ==> !get_bit((a << 1) & !FILE_A, i),
        i % 8 != 0 ==> get_bit((a << 1) & !FILE_A, i) == get_bit(a, (i - 1) as u64),
        i % 8 == 7 ==> !get_bit((a >> 1) & !FILE_H, i),
        i % 8 != 7 ==> get_bit((a >> 1) & !FILE_H, i) == get_bit(a, (i + 1) as u64),
{
}

/// The bits of a rank mask and of a file mask.
pub proof fn lemma_bit_masks(k: u64, i: u64)
    by (bit_vector)
    requires
        k < 8,
        i < 64,
    ensures
        get_bit(RANK_1 << (k * 8), i) == (i / 8 == k),
        get_bit(FILE_A << k, i) == (i % 8 == k),
{
}

/// Clearing the lowest set bit: `a & (a - 1)` is `a` without bit `t`, where `t` is the
/// number of the lowest set bit.
pub proof fn lemma_clear_lowest(a: u64, t: u64)
    by (bit_vector)
    requires
        t < 64,
        get_bit(a, t),
        a << ((64 - t) as u64) == 0 || t == 0,
    ensures
        a != 0,
        a & ((a - 1) as u64) == a & !(1u64 << t),
        a ^ (1u64 << t) == a & !(1u64 << t),
        a & !(1u64 << t) < a,
{
}

/// Clearing any set bit makes a word smaller.
pub proof fn lemma_clear_bit(a: u64, t: u64)
    by (bit_vector)
    requires
        t < 64,
        get_bit(a, t),
    ensures
        a ^ (1u64 << t) == a & !(1u64 << t),
        a & !(1u64 << t) < a,
{
}

/// Testing a bit with a one-bit mask.
pub proof fn lemma_bit_test(a: u64, s: u64)
    by (bit_vector)
    requires
        s < 64,
    ensures
        ((a & (1u64 << s)) != 0) == get_bit(a, s),
{
}

/// Two words without a differing bit are equal.
pub proof fn lemma_xor_zero(a: u64, b: u64)
    by (bit_vector)
    requires
        a ^ b == 0,
    ensures
        a == b,
{
}

/// Two words that agree on every bit are equal.
pub proof fn lemma_bits_equal(a: u64, b: u64)
    requires
        forall|i: u64| i < 64 ==> get_bit(a, i) == get_bit(b, i),
    ensures
        a == b,
{
    let d = a ^ b;
    if d != 0 {
        vstd::std_specs::bits::axiom_u64_trailing_zeros(d);
        let t = vstd::std_specs::bits::u64_trailing_zeros(d) as u64;
        assert(get_bit(d, t));
        lemma_bit_ops(a, b, t);
        assert(false);
    }
    lemma_xor_zero(a, b);
}

/// What `bits_below` says of every bit.
pub proof fn lemma_bits_below(p: spec_fn(int) -> bool, n: nat, i: u64)
    requires
        n <= 64,
        i < 64,
    ensures
        get_bit(bits_below(p, n), i) == (i < n && p(i as int)),
    decreases n,
{
    if n == 0 {
        lemma_bit_ops(0, 0, i);
    } else {
        let rest = bits_below(p, (n - 1) as nat);
        lemma_bits_below(p, (n - 1) as nat, i);
        if p(n - 1) {
            lemma_bit_ops(rest, 1u64 << ((n - 1) as u64), i);
            lemma_bit_single((n - 1) as u64, i);
        }
    }
}

/// A word holds at most 64 set bits, and none if it is zero.
pub proof fn lemma_count_ones_below(x: u64, n: nat)
    requires
        n <= 64,
    ensures
        count_ones_below(x, n) <= n,
        x == 0 ==> count_ones_below(x, n) == 0,
    decreases n,
{
    if n > 0 {
        lemma_count_ones_below(x, (n - 1) as nat);
        lemma_bit_ops(0, 0, (n - 1) as u64);
    }
}

/// `u64::count_ones` returns the number of bits that are set in the binary form of the
/// argument.
pub assume_specification[ u64::count_ones ](x: u64) -> (r: u32)
    ensures
        r as nat == count_ones_below(x, 64),
;

} // verus!
