//! Powers of two and reversal of the low bits of an index.

use vstd::prelude::*;

verus! {

/// 2^k, as a mathematical natural.
pub open spec fn pow2(k: nat) -> nat
    decreases k,
{
    if k == 0 {
        1
    } else {
        2 * pow2((k - 1) as nat)
    }
}

/// Whether `n` is a power of two. `0` is not; `1` is (2^0).
pub open spec fn is_pow2(n: nat) -> bool
    decreases n,
{
    if n == 0 {
        false
    } else if n == 1 {
        true
    } else {
        n % 2 == 0 && is_pow2(n / 2)
    }
}

pub proof fn lemma_pow2_pos(k: nat)
    ensures
        pow2(k) >= 1,
    decreases k,
{
    if k > 0 {
        lemma_pow2_pos((k - 1) as nat);
    }
}

pub proof fn lemma_pow2_le(a: nat, b: nat)
    requires
        a <= b,
    ensures
        pow2(a) <= pow2(b),
    decreases b,
{
    if a < b {
        lemma_pow2_le(a, (b - 1) as nat);
    }
}

/// k itself is always below 2^k.
pub proof fn lemma_pow2_gt(k: nat)
    ensures
        k < pow2(k),
    decreases k,
{
    if k > 0 {
        lemma_pow2_gt((k - 1) as nat);
    }
}

pub proof fn lemma_pow2_adds(a: nat, b: nat)
    ensures
        pow2(a + b) == pow2(a) * pow2(b),
    decreases a,
{
    if a == 0 {
        assert(1 * pow2(b) == pow2(b)) by (nonlinear_arith);
    } else {
        lemma_pow2_adds((a - 1) as nat, b);
        assert(2 * (pow2((a - 1) as nat) * pow2(b)) == (2 * pow2((a - 1) as nat)) * pow2(b))
            by (nonlinear_arith);
    }
}

pub proof fn lemma_pow2_strict(a: nat, b: nat)
    requires
        a < b,
    ensures
        pow2(a) < pow2(b),
{
    lemma_pow2_le(a, (b - 1) as nat);
    lemma_pow2_pos(a);
}

/// A smaller power of two divides a larger one.
pub proof fn lemma_pow2_divides(a: nat, b: nat)
    requires
        is_pow2(a),
        is_pow2(b),
        a <= b,
    ensures
        b % a == 0,
{
    lemma_pow2_log2(a);
    lemma_pow2_log2(b);
    let x = log2(a);
    let y = log2(b);
    if y < x {
        lemma_pow2_strict(y, x);
    }
    lemma_pow2_adds(x, (y - x) as nat);
    lemma_pow2_pos(x);
    vstd::arithmetic::div_mod::lemma_mod_multiples_basic(
        pow2((y - x) as nat) as int,
        pow2(x) as int,
    );
}

/// Between two powers of two, the smaller can be doubled and still not pass the larger.
pub proof fn lemma_pow2_double_le(a: nat, b: nat)
    requires
        is_pow2(a),
        is_pow2(b),
        a < b,
    ensures
        2 * a <= b,
{
    lemma_pow2_log2(a);
    lemma_pow2_log2(b);
    let x = log2(a);
    let y = log2(b);
    if y <= x {
        lemma_pow2_le(y, x);
    }
    lemma_pow2_le((x + 1) as nat, y);
}

/// The exponent of the largest power of two that is at most `n` (0 for `n <= 1`).
pub open spec fn log2(n: nat) -> nat
    decreases n,
{
    if n <= 1 {
        0
    } else {
        1 + log2(n / 2)
    }
}

/// On powers of two, `log2` inverts `pow2`.
pub proof fn lemma_pow2_log2(n: nat)
    requires
        is_pow2(n),
    ensures
        pow2(log2(n)) == n,
    decreases n,
{
    if n > 1 {
        lemma_pow2_log2(n / 2);
    }
}

/// The value of the low `k` bits of `i`, read in reverse order.
pub open spec fn rev_bits(i: nat, k: nat) -> nat
    decreases k,
{
    if k == 0 {
        0
    } else {
        (i % 2) * pow2((k - 1) as nat) + rev_bits(i / 2, (k - 1) as nat)
    }
}

pub proof fn lemma_rev_bits_bound(i: nat, k: nat)
    ensures
        rev_bits(i, k) < pow2(k),
    decreases k,
{
    if k == 0 {
    } else {
        lemma_rev_bits_bound(i / 2, (k - 1) as nat);
        assert(i % 2 <= 1);
        assert((i % 2) * pow2((k - 1) as nat) <= pow2((k - 1) as nat)) by (nonlinear_arith)
            requires
                i % 2 <= 1,
                pow2((k - 1) as nat) >= 0,
        ;
    }
}

/// Peeling the top bit of the input appends it as the low bit of the result.
proof fn lemma_rev_bits_top(c: nat, d: nat, k: nat)
    requires
        c < pow2(k),
        d < 2,
    ensures
        rev_bits(c + d * pow2(k), (k + 1) as nat) == 2 * rev_bits(c, k) + d,
    decreases k,
{
    if k == 0 {
        assert(c == 0);
        assert(rev_bits(d, 1) == (d % 2) * pow2(0) + rev_bits(d / 2, 0));
        assert(d % 2 == d && d / 2 == 0);
    } else {
        let a = c / 2;
        let b = c % 2;
        let i = c + d * pow2(k);
        assert(pow2(k) == 2 * pow2((k - 1) as nat));
        assert(c == 2 * a + b) by {
            vstd::arithmetic::div_mod::lemma_fundamental_div_mod(c as int, 2);
        }
        assert(i == 2 * (a + d * pow2((k - 1) as nat)) + b) by (nonlinear_arith)
            requires
                i == c + d * pow2(k),
                c == 2 * a + b,
                pow2(k) == 2 * pow2((k - 1) as nat),
        ;
        assert(i % 2 == b && i / 2 == a + d * pow2((k - 1) as nat)) by (nonlinear_arith)
            requires
                i == 2 * (a + d * pow2((k - 1) as nat)) + b,
                b < 2,
        ;
        assert(a < pow2((k - 1) as nat)) by (nonlinear_arith)
            requires
                c < pow2(k),
                pow2(k) == 2 * pow2((k - 1) as nat),
                a == c / 2,
        ;
        lemma_rev_bits_top(a, d, (k - 1) as nat);
        assert(rev_bits(i, (k + 1) as nat) == b * pow2(k) + rev_bits(i / 2, k));
        assert(rev_bits(i / 2, k) == 2 * rev_bits(a, (k - 1) as nat) + d);
        assert(rev_bits(c, k) == b * pow2((k - 1) as nat) + rev_bits(a, (k - 1) as nat));
        assert(b * pow2(k) == 2 * (b * pow2((k - 1) as nat))) by (nonlinear_arith)
            requires
                pow2(k) == 2 * pow2((k - 1) as nat),
        ;
    }
}

/// Reversing the low `k` bits twice is the identity on `[0, 2^k)`.
pub proof fn lemma_rev_bits_involutive(i: nat, k: nat)
    requires
        i < pow2(k),
    ensures
        rev_bits(rev_bits(i, k), k) == i,
    decreases k,
{
    if k == 0 {
    } else {
        let a = i / 2;
        let b = i % 2;
        assert(i == 2 * a + b) by {
            vstd::arithmetic::div_mod::lemma_fundamental_div_mod(i as int, 2);
        }
        assert(a < pow2((k - 1) as nat)) by (nonlinear_arith)
            requires
                i < pow2(k),
                pow2(k) == 2 * pow2((k - 1) as nat),
                a == i / 2,
        ;
        lemma_rev_bits_bound(a, (k - 1) as nat);
        lemma_rev_bits_involutive(a, (k - 1) as nat);
        assert(rev_bits(i, k) == b * pow2((k - 1) as nat) + rev_bits(a, (k - 1) as nat));
        lemma_rev_bits_top(rev_bits(a, (k - 1) as nat), b, (k - 1) as nat);
        assert(rev_bits(rev_bits(a, (k - 1) as nat) + b * pow2((k - 1) as nat), k) == 2 * rev_bits(
            rev_bits(a, (k - 1) as nat),
            (k - 1) as nat,
        ) + b);
    }
}

/// The exponent of a power of two: the `k` with `2^k == n`.
pub fn log2_of(n: usize) -> (k: usize)
    requires
        is_pow2(n as nat),
    ensures
        pow2(k as nat) == n as nat,
        k as nat == log2(n as nat),
{
    let mut m: usize = n;
    let mut k: usize = 0;
    proof {
        assert(pow2(0) == 1);
        assert(n as nat == n as nat * pow2(0)) by (nonlinear_arith)
            requires
                pow2(0) == 1,
        ;
    }
    while m > 1
        invariant
            m >= 1,
            is_pow2(m as nat),
            n as nat == m as nat * pow2(k as nat),
            log2(n as nat) == k as nat + log2(m as nat),
        decreases m,
    {
        proof {
            lemma_pow2_gt(k as nat);
            lemma_pow2_pos(k as nat);
            assert(pow2(k as nat) <= n as nat) by (nonlinear_arith)
                requires
                    n as nat == m as nat * pow2(k as nat),
                    m >= 1,
            ;
            assert(m as nat % 2 == 0 && is_pow2(m as nat / 2));
            assert((m as nat / 2) * pow2((k + 1) as nat) == m as nat * pow2(k as nat))
                by (nonlinear_arith)
                requires
                    m as nat % 2 == 0,
                    pow2((k + 1) as nat) == 2 * pow2(k as nat),
            ;
        }
        m = m / 2;
        k = k + 1;
    }
    proof {
        assert(n as nat == pow2(k as nat)) by (nonlinear_arith)
            requires
                n as nat == m as nat * pow2(k as nat),
                m == 1,
        ;
        assert(log2(1) == 0);
    }
    k
}

/// Reverse the low `k` bits of `i`.
pub fn reverse_index(i: usize, k: usize) -> (r: usize)
    requires
        pow2(k as nat) <= usize::MAX as nat,
        (i as nat) < pow2(k as nat),
    ensures
        r as nat == rev_bits(i as nat, k as nat),
        (r as nat) < pow2(k as nat),
{
    let mut x: usize = i;
    let mut r: usize = 0;
    let mut t: usize = 0;
    proof {
        assert(pow2(0) == 1);
        assert(0 * pow2(k as nat) == 0) by (nonlinear_arith);
    }
    while t < k
        invariant
            t <= k,
            pow2(k as nat) <= usize::MAX as nat,
            (r as nat) < pow2(t as nat),
            rev_bits(i as nat, k as nat) == r as nat * pow2((k - t) as nat) + rev_bits(
                x as nat,
                (k - t) as nat,
            ),
        decreases k - t,
    {
        proof {
            lemma_pow2_le((t + 1) as nat, k as nat);
            assert(pow2((t + 1) as nat) == 2 * pow2(t as nat));
            let rem = (k - t) as nat;
            assert(rev_bits(x as nat, rem) == (x as nat % 2) * pow2((rem - 1) as nat) + rev_bits(
                x as nat / 2,
                (rem - 1) as nat,
            ));
            assert((2 * r as nat + x as nat % 2) * pow2((rem - 1) as nat) + rev_bits(
                x as nat / 2,
                (rem - 1) as nat,
            ) == r as nat * pow2(rem) + rev_bits(x as nat, rem)) by (nonlinear_arith)
                requires
                    pow2(rem) == 2 * pow2((rem - 1) as nat),
                    rev_bits(x as nat, rem) == (x as nat % 2) * pow2((rem - 1) as nat) + rev_bits(
                        x as nat / 2,
                        (rem - 1) as nat,
                    ),
            ;
        }
        r = 2 * r + x % 2;
        x = x / 2;
        t = t + 1;
    }
    proof {
        assert(pow2(0) == 1);
        assert(rev_bits(x as nat, 0) == 0);
        assert(r as nat * pow2(0) == r as nat) by (nonlinear_arith)
            requires
                pow2(0) == 1,
        ;
        lemma_rev_bits_bound(i as nat, k as nat);
    }
    r
}

} // verus!
