//! Index arithmetic of the radix-2 FFT: power-of-two helpers and the
//! bit-reversal permutation that reorders a buffer before the butterflies.
use vstd::prelude::*;

verus! {

/// `2^k`.
pub open spec fn two_pow(k: nat) -> nat
    decreases k,
{
    if k == 0 {
        1
    } else {
        2 * two_pow((k - 1) as nat)
    }
}

/// `n` is a power of two (`1, 2, 4, ...`).
pub open spec fn is_pow2(n: nat) -> bool
    decreases n,
{
    if n == 0 {
        false
    } else if n == 1 {
        true
    } else {
        n % 2 == 0 && is_pow2(n / 2)
    }
}

/// `floor(log2(n))` (0 for `n <= 1`).
pub open spec fn log2(n: nat) -> nat
    decreases n,
{
    if n <= 1 {
        0
    } else {
        1 + log2(n / 2)
    }
}

/// The low `bits` bits of `x`, in reverse order.
pub open spec fn reverse_bits(x: nat, bits: nat) -> nat
    decreases bits,
{
    if bits == 0 {
        0
    } else {
        (x % 2) * two_pow((bits - 1) as nat) + reverse_bits(x / 2, (bits - 1) as nat)
    }
}

/// `s` reordered so that position `i` holds `s[reverse_bits(i)]`.
pub open spec fn bit_reversed<T>(s: Seq<T>) -> Seq<T> {
    Seq::new(s.len(), |i: int| s[reverse_bits(i as nat, log2(s.len())) as int])
}

// ---------------------------------------------------------------------
// Facts about powers of two
// ---------------------------------------------------------------------

proof fn lemma_two_pow_pos(k: nat)
    ensures
        two_pow(k) >= 1,
    decreases k,
{
    if k > 0 {
        lemma_two_pow_pos((k - 1) as nat);
    }
}

proof fn lemma_two_pow_monotone(a: nat, b: nat)
    requires
        a <= b,
    ensures
        two_pow(a) <= two_pow(b),
    decreases b,
{
    if a < b {
        lemma_two_pow_monotone(a, (b - 1) as nat);
        lemma_two_pow_pos((b - 1) as nat);
    }
}

/// A power of two is `2^log2(n)`.
proof fn lemma_pow2_is_two_pow(n: nat)
    requires
        is_pow2(n),
    ensures
        n == two_pow(log2(n)),
    decreases n,
{
    if n > 1 {
        lemma_pow2_is_two_pow(n / 2);
    }
}

/// `2^k` is a power of two with logarithm `k`.
proof fn lemma_two_pow_is_pow2(k: nat)
    ensures
        is_pow2(two_pow(k)),
        log2(two_pow(k)) == k,
    decreases k,
{
    if k > 0 {
        lemma_two_pow_is_pow2((k - 1) as nat);
        lemma_two_pow_pos((k - 1) as nat);
        assert(two_pow(k) / 2 == two_pow((k - 1) as nat));
    }
}

/// A power of two that fits in a `usize` has an exponent below `usize::BITS`.
proof fn lemma_exponent_fits(k: nat)
    requires
        two_pow(k) <= usize::MAX,
    ensures
        k < usize::BITS,
{
    assert(usize::BITS == 32 || usize::BITS == 64);
    if k >= usize::BITS {
        lemma_two_pow_monotone(usize::BITS as nat, k);
        if usize::BITS == 32 {
            assert(two_pow(32) == 0x1_0000_0000) by {
                reveal_with_fuel(two_pow, 33);
            }
        } else {
            assert(two_pow(64) == 0x1_0000_0000_0000_0000) by {
                reveal_with_fuel(two_pow, 65);
            }
        }
    }
}

/// `1 << k` computes `2^k`.
proof fn lemma_shift_is_two_pow(k: usize)
    requires
        k < usize::BITS,
    ensures
        (1usize << k) == two_pow(k as nat),
    decreases k,
{
    if k == 0 {
        assert((1usize << 0usize) == 1usize) by (bit_vector);
    } else {
        let p: usize = (k - 1) as usize;
        lemma_shift_is_two_pow(p);
        assert((1usize << k) == 2 * (1usize << p)) by (bit_vector)
            requires
                k < usize::BITS,
                p + 1 == k,
        ;
    }
}

/// Bit tests on a value below `2 * bit`, where `bit` is a power of two.
proof fn lemma_top_bit_ops(j: usize, bit: usize, k: usize)
    requires
        k < usize::BITS,
        bit == 1usize << k,
        j < bit + bit,
    ensures
        (j & bit != 0) == (j >= bit),
        j >= bit ==> j ^ bit == j - bit,
        j < bit ==> (j | bit) == j + bit,
{
    assert((j & bit != 0) == (j >= bit) && (j >= bit ==> j ^ bit == j - bit) && (j < bit ==> (j
        | bit) == j + bit)) by (bit_vector)
        requires
            k < usize::BITS,
            bit == 1usize << k,
            j < bit + bit,
    ;
}

// ---------------------------------------------------------------------
// Facts about bit reversal
// ---------------------------------------------------------------------

/// A reversed index stays in range.
pub proof fn lemma_reverse_bits_bound(x: nat, bits: nat)
    ensures
        reverse_bits(x, bits) < two_pow(bits),
    decreases bits,
{
    if bits > 0 {
        let p = two_pow((bits - 1) as nat);
        lemma_reverse_bits_bound(x / 2, (bits - 1) as nat);
        assert((x % 2) * p <= p) by (nonlinear_arith)
            requires
                x % 2 <= 1,
        ;
    }
}

/// Index zero is its own reversal.
proof fn lemma_reverse_bits_zero(bits: nat)
    ensures
        reverse_bits(0, bits) == 0,
    decreases bits,
{
    if bits > 0 {
        lemma_reverse_bits_zero((bits - 1) as nat);
        let p = two_pow((bits - 1) as nat);
        assert((0nat % 2) * p == 0) by (nonlinear_arith);
    }
}

proof fn lemma_div_mod_pow(x: nat, k: nat)
    requires
        k >= 1,
    ensures
        (x % two_pow(k)) % 2 == x % 2,
        (x % two_pow(k)) / 2 == (x / 2) % two_pow((k - 1) as nat),
        (x / 2) / two_pow((k - 1) as nat) == x / two_pow(k),
{
    lemma_two_pow_pos((k - 1) as nat);
    let p: int = two_pow((k - 1) as nat) as int;
    let xi: int = x as int;
    let m: int = 2 * p;
    assert(two_pow(k) as int == m);
    let q = xi / 2;
    let r = xi % 2;
    vstd::arithmetic::div_mod::lemma_fundamental_div_mod(xi, 2);
    vstd::arithmetic::div_mod::lemma_fundamental_div_mod(q, p);
    vstd::arithmetic::div_mod::lemma_mod_bound(q, p);
    vstd::arithmetic::div_mod::lemma_mod_bound(xi, 2);
    vstd::arithmetic::div_mod::lemma_div_pos_is_pos(xi, 2);
    assert(xi == m * (q / p) + (2 * (q % p) + r)) by (nonlinear_arith)
        requires
            xi == 2 * q + r,
            q == p * (q / p) + q % p,
            m == 2 * p,
    ;
    vstd::arithmetic::div_mod::lemma_fundamental_div_mod_converse(xi, m, q / p, 2 * (q % p) + r);
    // so xi % m == 2 * (q % p) + r and xi / m == q / p
    let s = 2 * (q % p) + r;
    vstd::arithmetic::div_mod::lemma_fundamental_div_mod_converse(s, 2, q % p, r);
}

/// The top bit of `x` becomes the lowest bit of its reversal.
proof fn lemma_reverse_bits_top(x: nat, bits: nat)
    requires
        bits >= 1,
        x < two_pow(bits),
    ensures
        reverse_bits(x, bits) == 2 * reverse_bits(x % two_pow((bits - 1) as nat), (bits - 1) as nat)
            + x / two_pow((bits - 1) as nat),
    decreases bits,
{
    let b1 = (bits - 1) as nat;
    lemma_two_pow_pos(b1);
    if bits == 1 {
        assert(two_pow(0) == 1);
        assert(two_pow(1) == 2);
        assert(x % 2 == x);
        assert(x % 1 == 0);
        assert(x / 1 == x);
        assert(reverse_bits(x, 1) == (x % 2) * 1 + reverse_bits(x / 2, 0));
    } else {
        let b2 = (bits - 2) as nat;
        lemma_two_pow_pos(b2);
        let p1 = two_pow(b1);
        let p2 = two_pow(b2);
        assert(p1 == 2 * p2);
        assert(x / 2 < p1);
        lemma_reverse_bits_top(x / 2, b1);
        lemma_div_mod_pow(x, b1);
        let lo = reverse_bits((x / 2) % p2, b2);
        assert(reverse_bits(x / 2, b1) == 2 * lo + (x / 2) / p2);
        assert(reverse_bits(x % p1, b1) == ((x % p1) % 2) * p2 + reverse_bits((x % p1) / 2, b2));
        assert(reverse_bits(x % p1, b1) == (x % 2) * p2 + lo);
        assert(reverse_bits(x, bits) == (x % 2) * p1 + reverse_bits(x / 2, b1));
        assert((x % 2) * p1 == 2 * ((x % 2) * p2)) by (nonlinear_arith)
            requires
                p1 == 2 * p2,
        ;
    }
}

/// Reversing twice gives the index back.
pub proof fn lemma_reverse_bits_involution(x: nat, bits: nat)
    requires
        x < two_pow(bits),
    ensures
        reverse_bits(reverse_bits(x, bits), bits) == x,
    decreases bits,
{
    if bits > 0 {
        let b1 = (bits - 1) as nat;
        let p = two_pow(b1);
        lemma_two_pow_pos(b1);
        let r = reverse_bits(x / 2, b1);
        lemma_reverse_bits_bound(x / 2, b1);
        let y = reverse_bits(x, bits);
        assert(y == (x % 2) * p + r);
        lemma_reverse_bits_bound(x, bits);
        lemma_reverse_bits_top(y, bits);
        assert(y % p == r && y / p == x % 2) by {
            vstd::arithmetic::div_mod::lemma_fundamental_div_mod_converse(
                y as int,
                p as int,
                (x % 2) as int,
                r as int,
            );
        }
        lemma_reverse_bits_involution(x / 2, b1);
    }
}

/// Reversal of an even and of an odd index, peeling the lowest bit.
proof fn lemma_reverse_bits_step(y: nat, c: nat)
    requires
        c >= 1,
    ensures
        y % 2 == 1 ==> reverse_bits(y, c) == two_pow((c - 1) as nat) + reverse_bits(
            y / 2,
            (c - 1) as nat,
        ),
        y % 2 == 0 ==> reverse_bits(y, c) == reverse_bits(y / 2, (c - 1) as nat),
        y % 2 == 0 ==> reverse_bits(y, c) < two_pow((c - 1) as nat),
        y % 2 == 1 ==> reverse_bits(y + 1, c) == reverse_bits(((y + 1) / 2) as nat, (c - 1) as nat),
        y % 2 == 0 ==> reverse_bits(y + 1, c) == two_pow((c - 1) as nat) + reverse_bits(
            y / 2,
            (c - 1) as nat,
        ),
{
    lemma_reverse_bits_bound(y / 2, (c - 1) as nat);
}

// ---------------------------------------------------------------------
// Executable helpers
// ---------------------------------------------------------------------

/// `true` if `n` is a power of two (`0` is not).
pub fn is_power_of_two(n: usize) -> (r: bool)
    ensures
        r == is_pow2(n as nat),
{
    if n == 0 {
        return false;
    }
    let mut m = n;
    while m % 2 == 0
        invariant
            m > 0,
            is_pow2(n as nat) == is_pow2(m as nat),
        decreases m,
    {
        m = m / 2;
    }
    m == 1
}

/// Round `n` up to the next power of two (returns `1` for `n == 0`).
pub fn next_power_of_two(n: usize) -> (r: usize)
    requires
        n <= usize::MAX / 2 + 1,
    ensures
        is_pow2(r as nat),
        r >= n,
        r == 1 || r / 2 < n,
{
    if n == 0 {
        return 1;
    }
    let mut p: usize = 1;
    let ghost mut k: nat = 0;
    proof {
        lemma_two_pow_is_pow2(0);
    }
    while p < n
        invariant
            1 <= n <= usize::MAX / 2 + 1,
            p == two_pow(k),
            p >= 1,
            is_pow2(p as nat),
            p == 1 || p / 2 < n,
        decreases 2 * n - p,
    {
        proof {
            lemma_two_pow_is_pow2(k + 1);
        }
        p = p * 2;
        proof {
            k = k + 1;
        }
    }
    p
}

/// Reorder `buf` so that position `i` holds the element that stood at the
/// bit-reversed position of `i` (over `log2(buf.len())` bits). This is the
/// input permutation of the in-place radix-2 FFT.
pub fn bit_reverse<T: Copy>(buf: &mut [T])
    requires
        is_pow2(old(buf)@.len()),
    ensures
        final(buf)@ == bit_reversed(old(buf)@),
{
    let n = buf.len();
    let ghost b = log2(n as nat);
    let ghost orig = buf@;
    proof {
        lemma_pow2_is_two_pow(n as nat);
        lemma_exponent_fits(b);
        lemma_reverse_bits_zero(b);
        assert forall|x: nat| x < n implies #[trigger] reverse_bits(x, b) < n by {
            lemma_reverse_bits_bound(x, b);
        }
        assert forall|x: nat| x < n implies reverse_bits(#[trigger] reverse_bits(x, b), b) == x by {
            lemma_reverse_bits_involution(x, b);
        }
    }
    let mut j: usize = 0;
    let mut i: usize = 1;
    while i < n
        invariant
            n == buf@.len(),
            n == orig.len(),
            n == two_pow(b),
            b < usize::BITS,
            forall|x: nat| x < n ==> #[trigger] reverse_bits(x, b) < n,
            forall|x: nat| x < n ==> reverse_bits(#[trigger] reverse_bits(x, b), b) == x,
            1 <= i <= n,
            j == reverse_bits((i - 1) as nat, b),
            forall|x: int|
                0 <= x < n ==> (x < i || reverse_bits(x as nat, b) < i ==> #[trigger] buf@[x]
                    == orig[reverse_bits(x as nat, b) as int]) && (!(x < i || reverse_bits(
                    x as nat,
                    b,
                ) < i) ==> buf@[x] == orig[x]),
        decreases n - i,
    {
        // Reverse-increment: j becomes reverse_bits(i).
        let ghost x: nat = (i - 1) as nat;
        let ghost mut y: nat = x;
        let ghost mut c: nat = b;
        proof {
            assert(b >= 1) by {
                if b == 0 {
                    assert(two_pow(0) == 1);
                }
            }
            assert(n / 2 == two_pow((b - 1) as nat));
            lemma_shift_is_two_pow((b - 1) as usize);
            assert((n >> 1usize) == n / 2) by (bit_vector);
        }
        let mut bit = n >> 1;
        while j & bit != 0
            invariant
                c >= 1,
                c <= b,
                b < usize::BITS,
                bit == two_pow((c - 1) as nat),
                j == reverse_bits(y, c),
                y + 1 < two_pow(c),
                reverse_bits(x + 1, b) == reverse_bits(y + 1, c),
            decreases bit,
        {
            proof {
                lemma_shift_is_two_pow((c - 1) as usize);
                lemma_reverse_bits_bound(y, c);
                lemma_top_bit_ops(j, bit, (c - 1) as usize);
                lemma_reverse_bits_step(y, c);
                lemma_two_pow_pos((c - 1) as nat);
                if y % 2 == 0 {
                    assert(j < bit);
                }
                assert(y % 2 == 1);
                assert(c >= 2) by {
                    if c == 1 {
                        assert(two_pow(1) == 2);
                    }
                }
                assert((bit >> 1usize) == bit / 2) by (bit_vector);
                lemma_two_pow_pos((c - 2) as nat);
                assert(two_pow((c - 1) as nat) == 2 * two_pow((c - 2) as nat));
                assert(y / 2 + 1 < two_pow((c - 1) as nat));
            }
            j = j ^ bit;
            bit = bit >> 1;
            proof {
                y = y / 2;
                c = (c - 1) as nat;
            }
        }
        proof {
            lemma_shift_is_two_pow((c - 1) as usize);
            lemma_reverse_bits_bound(y, c);
            lemma_top_bit_ops(j, bit, (c - 1) as usize);
            lemma_reverse_bits_step(y, c);
            if y % 2 == 1 {
                assert(j >= bit);
            }
        }
        j = j | bit;
        assert(j == reverse_bits(i as nat, b));
        proof {
            lemma_reverse_bits_involution(i as nat, b);
        }
        if i < j {
            let a = buf[i];
            let t = buf[j];
            buf[i] = t;
            buf[j] = a;
        }
        i = i + 1;
    }
    assert(buf@ =~= bit_reversed(orig));
}

/// Bit-reversing a power-of-two-length buffer twice restores it.
pub proof fn lemma_bit_reverse_twice<T>(s: Seq<T>)
    requires
        is_pow2(s.len()),
    ensures
        bit_reversed(bit_reversed(s)) == s,
{
    let b = log2(s.len());
    lemma_pow2_is_two_pow(s.len());
    assert forall|i: int| 0 <= i < s.len() implies #[trigger] bit_reversed(bit_reversed(s))[i]
        == s[i] by {
        lemma_reverse_bits_bound(i as nat, b);
        lemma_reverse_bits_involution(i as nat, b);
    }
    assert(bit_reversed(bit_reversed(s)) =~= s);
}

} // verus!
