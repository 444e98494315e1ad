//! Bit-level facts about `u64` and `u8` words, and the few std bit
//! operations that vstd leaves without a specification.
use vstd::prelude::*;

verus! {

/// Bit `i` of a 64-bit word, for `0 <= i < 64`.
pub open spec fn bit64(x: u64, i: int) -> bool {
    0 <= i < 64 && (x >> (i as u64)) & 1u64 == 1u64
}

/// Bit `i` of an 8-bit word, for `0 <= i < 8`.
pub open spec fn bit8(x: u8, i: int) -> bool {
    0 <= i < 8 && (x >> (i as u8)) & 1u8 == 1u8
}

/// Number of one bits of `x` among positions `0 .. n`.
pub open spec fn ones64(x: u64, n: int) -> nat
    decreases n,
{
    if n <= 0 {
        0
    } else {
        ones64(x, n - 1) + if bit64(x, n - 1) {
            1nat
        } else {
            0nat
        }
    }
}

/// Number of one bits of `x` among positions `0 .. n`.
pub open spec fn ones8(x: u8, n: int) -> nat
    decreases n,
{
    if n <= 0 {
        0
    } else {
        ones8(x, n - 1) + if bit8(x, n - 1) {
            1nat
        } else {
            0nat
        }
    }
}

/// Calls `u64::count_ones`: the number of ones in the binary representation
/// of `x`, as std documents it.
#[verifier::external_body]
pub(crate) fn u64_count_ones(x: u64) -> (r: u32)
    ensures
        r as nat == ones64(x, 64),
{
    x.count_ones()
}

/// Calls `u8::count_ones`: the number of ones in the binary representation
/// of `x`, as std documents it.
#[verifier::external_body]
pub(crate) fn u8_count_ones(x: u8) -> (r: u32)
    ensures
        r as nat == ones8(x, 8),
{
    x.count_ones()
}

/// Calls `u64::rotate_right`: the bits move `n` places towards the low end and
/// those that fall off re-enter at the high end, so bit `i` of the result is
/// bit `(i + n) mod 64` of `x`.
#[verifier::external_body]
pub(crate) fn u64_rotate_right(x: u64, n: u32) -> (r: u64)
    ensures
        forall|i: int| 0 <= i < 64 ==> #[trigger] bit64(r, i) == bit64(x, (i + n) % 64),
{
    x.rotate_right(n)
}

/// Calls `u64::rotate_left`: the bits move `n` places towards the high end and
/// those that fall off re-enter at the low end, so bit `(i + n) mod 64` of the
/// result is bit `i` of `x`.
#[verifier::external_body]
pub(crate) fn u64_rotate_left(x: u64, n: u32) -> (r: u64)
    ensures
        forall|i: int| 0 <= i < 64 ==> #[trigger] bit64(r, (i + n) % 64) == bit64(x, i),
{
    x.rotate_left(n)
}

pub proof fn lemma_bit_and(a: u64, b: u64, i: u64)
    by (bit_vector)
    requires
        i < 64,
    ensures
        ((a & b) >> i) & 1u64 == 1u64 <==> ((a >> i) & 1u64 == 1u64 && (b >> i) & 1u64 == 1u64),
{
}

pub proof fn lemma_bit_or(a: u64, b: u64, i: u64)
    by (bit_vector)
    requires
        i < 64,
    ensures
        ((a | b) >> i) & 1u64 == 1u64 <==> ((a >> i) & 1u64 == 1u64 || (b >> i) & 1u64 == 1u64),
{
}

pub proof fn lemma_bit_xor(a: u64, b: u64, i: u64)
    by (bit_vector)
    requires
        i < 64,
    ensures
        ((a ^ b) >> i) & 1u64 == 1u64 <==> ((a >> i) & 1u64 == 1u64) != ((b >> i) & 1u64
            == 1u64),
{
}

pub proof fn lemma_bit_not(a: u64, i: u64)
    by (bit_vector)
    requires
        i < 64,
    ensures
        ((!a) >> i) & 1u64 == 1u64 <==> !((a >> i) & 1u64 == 1u64),
{
}

pub proof fn lemma_bit_single(s: u64, i: u64)
    by (bit_vector)
    requires
        i < 64,
        s < 64,
    ensures
        ((1u64 << s) >> i) & 1u64 == 1u64 <==> i == s,
{
}

pub proof fn lemma_bit_zero(i: u64)
    by (bit_vector)
    requires
        i < 64,
    ensures
        !((0u64 >> i) & 1u64 == 1u64),
{
}

/// Two words whose 64 bits agree are equal.
pub proof fn lemma_bits_ext(a: u64, b: u64)
    requires
        forall|i: int| 0 <= i < 64 ==> bit64(a, i) == bit64(b, i),
    ensures
        a == b,
{
    let c = a ^ b;
    lemma_trailing_zeros(c);
    if c != 0 {
        let t = c.trailing_zeros() as u64;
        assert(bit64(a, t as int) == bit64(b, t as int));
        lemma_bit_xor(a, b, t);
    }
    lemma_xor_zero(a, b);
}

proof fn lemma_xor_zero(a: u64, b: u64)
    by (bit_vector)
    requires
        a ^ b == 0,
    ensures
        a == b,
{
}

/// A nonzero word has its lowest one bit at `trailing_zeros`, and nothing below.
pub proof fn lemma_trailing_zeros(x: u64)
    ensures
        x == 0 <==> x.trailing_zeros() == 64,
        x.trailing_zeros() <= 64,
        x != 0 ==> bit64(x, x.trailing_zeros() as int),
        forall|j: int| 0 <= j < x.trailing_zeros() ==> !bit64(x, j),
{
    vstd::std_specs::bits::axiom_u64_trailing_zeros(x);
    let t = x.trailing_zeros();
    assert forall|j: int| 0 <= j < t implies !bit64(x, j) by {
        let ju = j as u64;
        assert((x >> ju) & 1u64 == 0u64);
    }
}

pub proof fn lemma_bit8_of(x: u8, i: u8)
    by (bit_vector)
    requires
        i < 8,
    ensures
        ((x >> i) & 1u8 == 1u8) <==> (x & (1u8 << i)) != 0u8,
{
}

pub proof fn lemma_bit8_xor(a: u8, s: u8, i: u8)
    by (bit_vector)
    requires
        i < 8,
        s < 8,
    ensures
        (((a ^ (1u8 << s)) >> i) & 1u8 == 1u8) <==> (((a >> i) & 1u8 == 1u8) != (i == s)),
{
}

/// The ones of a word: a finite set whose size is the count of one bits.
pub open spec fn ones_set(x: u64, n: int) -> Set<int> {
    Set::new(|i: int| 0 <= i < n && bit64(x, i))
}

pub proof fn lemma_ones_set_len(x: u64, n: int)
    requires
        0 <= n <= 64,
    ensures
        ones_set(x, n).finite(),
        ones_set(x, n).len() == ones64(x, n),
    decreases n,
{
    if n == 0 {
        assert(ones_set(x, 0) =~= Set::<int>::empty());
    } else {
        lemma_ones_set_len(x, n - 1);
        if bit64(x, n - 1) {
            assert(ones_set(x, n) =~= ones_set(x, n - 1).insert(n - 1));
        } else {
            assert(ones_set(x, n) =~= ones_set(x, n - 1));
        }
    }
}

/// Toggling one bit below `n` changes the count by one.
pub proof fn lemma_ones64_toggle(x: u64, s: u64, n: int)
    requires
        s < 64,
        0 <= n <= 64,
    ensures
        ones64(x ^ (1u64 << s), n) == if (s as int) < n {
            if bit64(x, s as int) {
                ones64(x, n) - 1
            } else {
                ones64(x, n) + 1int
            }
        } else {
            ones64(x, n) as int
        },
    decreases n,
{
    if n > 0 {
        lemma_ones64_toggle(x, s, n - 1);
        let j = (n - 1) as u64;
        lemma_bit_xor(x, 1u64 << s, j);
        lemma_bit_single(s, j);
        if s as int == n - 1 {
            lemma_ones64_le(x, n - 1);
        }
    }
}

pub proof fn lemma_ones64_le(x: u64, n: int)
    requires
        0 <= n <= 64,
    ensures
        ones64(x, n) <= n,
    decreases n,
{
    if n > 0 {
        lemma_ones64_le(x, n - 1);
    }
}

/// Toggling one bit of an 8-bit word below `n` changes the count by one.
pub proof fn lemma_ones8_toggle(x: u8, s: u8, n: int)
    requires
        s < 8,
        0 <= n <= 8,
    ensures
        ones8(x ^ (1u8 << s), n) == if (s as int) < n {
            if bit8(x, s as int) {
                ones8(x, n) - 1
            } else {
                ones8(x, n) + 1int
            }
        } else {
            ones8(x, n) as int
        },
    decreases n,
{
    if n > 0 {
        lemma_ones8_toggle(x, s, n - 1);
        let j = (n - 1) as u8;
        lemma_bit8_xor(x, s, j);
    }
}

} // verus!
