use vstd::prelude::*;

verus! {

/// Number of set bits of `n`.
pub open spec fn popcount(n: nat) -> nat
    decreases n,
{
    if n == 0 {
        0
    } else {
        n % 2 + popcount(n / 2)
    }
}

/// Number of consecutive one bits at the low end of `n`.
pub open spec fn trailing_ones(n: nat) -> nat
    decreases n,
{
    if n % 2 == 1 {
        1 + trailing_ones(n / 2)
    } else {
        0
    }
}

/// Number of consecutive zero bits at the low end of a positive `n`.
pub open spec fn trailing_zeros(n: nat) -> nat
    decreases n,
{
    if n == 0 {
        0
    } else if n % 2 == 0 {
        1 + trailing_zeros(n / 2)
    } else {
        0
    }
}

/// Number of bits needed to write `n` (zero for zero).
pub open spec fn bit_length(n: nat) -> nat
    decreases n,
{
    if n == 0 {
        0
    } else {
        1 + bit_length(n / 2)
    }
}

pub open spec fn pow2(k: nat) -> nat
    decreases k,
{
    if k == 0 {
        1
    } else {
        2 * pow2((k - 1) as nat)
    }
}

pub proof fn lemma_pow2_64()
    ensures
        pow2(64) == 0x1_0000_0000_0000_0000,
{
    reveal_with_fuel(pow2, 65);
}

pub proof fn lemma_pow2_63()
    ensures
        pow2(63) == 0x8000_0000_0000_0000,
{
    reveal_with_fuel(pow2, 64);
}

/// Going from `k` to `k + 1` clears the trailing ones of `k` and sets one bit.
pub proof fn lemma_popcount_succ(k: nat)
    ensures
        popcount(k + 1) + trailing_ones(k) == popcount(k) + 1,
    decreases k,
{
    if k % 2 == 1 {
        lemma_popcount_succ(k / 2);
        assert((k + 1) / 2 == k / 2 + 1);
    } else {
        assert((k + 1) / 2 == k / 2);
    }
}

pub proof fn lemma_popcount_positive(k: nat)
    requires
        k > 0,
    ensures
        popcount(k) >= 1,
    decreases k,
{
    if k % 2 == 0 {
        lemma_popcount_positive(k / 2);
    }
}

/// A number below 2^63 has at most 63 set bits.
pub proof fn lemma_popcount_below_63(k: nat)
    requires
        k < 0x8000_0000_0000_0000,
    ensures
        popcount(k) <= 63,
{
    lemma_popcount_bound(k);
    lemma_bit_length_bound(k);
    if bit_length(k) > 63 {
        lemma_pow2_monotone(63, (bit_length(k) - 1) as nat);
        lemma_pow2_63();
    }
}

pub proof fn lemma_bit_length_bound(n: nat)
    ensures
        n < pow2(bit_length(n)),
        n > 0 ==> pow2((bit_length(n) - 1) as nat) <= n,
    decreases n,
{
    if n > 0 {
        lemma_bit_length_bound(n / 2);
    }
}

pub proof fn lemma_pow2_monotone(a: nat, b: nat)
    requires
        a <= b,
    ensures
        pow2(a) <= pow2(b),
    decreases b,
{
    if a < b {
        lemma_pow2_monotone(a, (b - 1) as nat);
    }
}

pub proof fn lemma_bit_length_u64(n: nat)
    requires
        n <= u64::MAX,
    ensures
        bit_length(n) <= 64,
{
    lemma_bit_length_bound(n);
    if bit_length(n) > 64 {
        lemma_pow2_monotone(64, (bit_length(n) - 1) as nat);
        lemma_pow2_64();
    }
}

pub proof fn lemma_popcount_bound(n: nat)
    ensures
        popcount(n) <= bit_length(n),
    decreases n,
{
    if n > 0 {
        lemma_popcount_bound(n / 2);
    }
}

pub proof fn lemma_trailing_ones_bound(n: nat)
    ensures
        trailing_ones(n) <= bit_length(n),
    decreases n,
{
    if n % 2 == 1 {
        lemma_trailing_ones_bound(n / 2);
    }
}

/// Adding a higher power of two to `j` keeps its trailing ones, but for the
/// all-ones `j`, which gains one.
pub proof fn lemma_trailing_ones_add_pow2(j: nat, m: nat)
    requires
        j < pow2(m),
    ensures
        trailing_ones(j + pow2(m)) == trailing_ones(j) + if j + 1 == pow2(m) { 1nat } else { 0nat },
    decreases m,
{
    if m == 0 {
        assert(trailing_ones(1) == 1 + trailing_ones(0));
    } else {
        let h = pow2((m - 1) as nat);
        assert(pow2(m) == 2 * h);
        assert((j + pow2(m)) / 2 == j / 2 + h);
        assert((j + pow2(m)) % 2 == j % 2);
        if j % 2 == 1 {
            lemma_trailing_ones_add_pow2(j / 2, (m - 1) as nat);
        }
    }
}

/// Adding a higher power of two to `j` sets one more bit.
pub proof fn lemma_popcount_add_pow2(j: nat, m: nat)
    requires
        j < pow2(m),
    ensures
        popcount(j + pow2(m)) == popcount(j) + 1,
    decreases m,
{
    if m == 0 {
        assert(popcount(1) == 1 + popcount(0));
    } else {
        let h = pow2((m - 1) as nat);
        assert(pow2(m) == 2 * h);
        assert((j + pow2(m)) / 2 == j / 2 + h);
        assert((j + pow2(m)) % 2 == j % 2);
        lemma_popcount_add_pow2(j / 2, (m - 1) as nat);
    }
}

/// Adding a higher power of two to a positive `j` keeps its trailing zeros.
pub proof fn lemma_trailing_zeros_add_pow2(j: nat, m: nat)
    requires
        0 < j < pow2(m),
    ensures
        trailing_zeros(j + pow2(m)) == trailing_zeros(j),
    decreases m,
{
    if m > 0 {
        let h = pow2((m - 1) as nat);
        assert(pow2(m) == 2 * h);
        assert((j + pow2(m)) / 2 == j / 2 + h);
        assert((j + pow2(m)) % 2 == j % 2);
        if j % 2 == 0 {
            lemma_trailing_zeros_add_pow2(j / 2, (m - 1) as nat);
        }
    }
}

pub proof fn lemma_trailing_zeros_pow2(h: nat)
    ensures
        trailing_zeros(pow2(h)) == h,
    decreases h,
{
    if h > 0 {
        lemma_pow2_positive((h - 1) as nat);
        assert(pow2(h) / 2 == pow2((h - 1) as nat));
        lemma_trailing_zeros_pow2((h - 1) as nat);
    }
}

pub proof fn lemma_pow2_positive(h: nat)
    ensures
        pow2(h) >= 1,
    decreases h,
{
    if h > 0 {
        lemma_pow2_positive((h - 1) as nat);
    }
}

/// A positive `i` below `2^h` is a multiple of `2^t`, `t` its trailing zeros,
/// so the next such multiple is at most `2^h`.
pub proof fn lemma_trailing_zeros_room(i: nat, h: nat)
    requires
        0 < i < pow2(h),
    ensures
        i + pow2(trailing_zeros(i)) <= pow2(h),
    decreases h,
{
    if h > 0 && i % 2 == 0 {
        assert(pow2(h) == 2 * pow2((h - 1) as nat));
        lemma_trailing_zeros_room(i / 2, (h - 1) as nat);
        assert(pow2(trailing_zeros(i)) == 2 * pow2(trailing_zeros(i / 2)));
    }
}

/// The bit length of a number in `[2^h, 2^(h+1))` is `h + 1`.
pub proof fn lemma_bit_length_exact(x: nat, h: nat)
    requires
        pow2(h) <= x < pow2(h + 1),
    ensures
        bit_length(x) == h + 1,
    decreases h,
{
    assert(pow2(h + 1) == 2 * pow2(h));
    if h == 0 {
        assert(x == 1);
        assert(bit_length(0) == 0);
    } else {
        assert(pow2(h) == 2 * pow2((h - 1) as nat));
        lemma_bit_length_exact(x / 2, (h - 1) as nat);
    }
}

/// A number below `2^h` needs at most `h` bits.
pub proof fn lemma_bit_length_below(x: nat, h: nat)
    requires
        x < pow2(h),
    ensures
        bit_length(x) <= h,
    decreases h,
{
    if x > 0 {
        assert(h > 0);
        assert(pow2(h) == 2 * pow2((h - 1) as nat));
        lemma_bit_length_below(x / 2, (h - 1) as nat);
    }
}

pub proof fn lemma_bit_length_monotone(a: nat, b: nat)
    requires
        a <= b,
    ensures
        bit_length(a) <= bit_length(b),
    decreases a,
{
    if a > 0 {
        lemma_bit_length_monotone(a / 2, b / 2);
    }
}

/// `2^t - 1` needs exactly `t` bits.
pub proof fn lemma_bit_length_all_ones(t: nat)
    ensures
        bit_length((pow2(t) - 1) as nat) == t,
{
    lemma_pow2_positive(t);
    if t > 0 {
        assert(pow2(t) == 2 * pow2((t - 1) as nat));
        lemma_pow2_positive((t - 1) as nat);
        lemma_bit_length_exact((pow2(t) - 1) as nat, (t - 1) as nat);
    }
}

/// Counts the set bits of `n`.
pub fn count_ones(n: u64) -> (r: u32)
    ensures
        r as nat == popcount(n as nat),
        r <= 64,
{
    let mut m: u64 = n;
    let mut count: u32 = 0;
    proof {
        lemma_popcount_bound(n as nat);
        lemma_bit_length_u64(n as nat);
    }
    while m > 0
        invariant
            count as nat + popcount(m as nat) == popcount(n as nat),
            popcount(n as nat) <= 64,
        decreases m,
    {
        count = count + (m % 2) as u32;
        m = m / 2;
    }
    count
}

/// Counts the one bits at the low end of `n`.
pub fn count_trailing_ones(n: u64) -> (r: u32)
    ensures
        r as nat == trailing_ones(n as nat),
        r <= 64,
{
    let mut m: u64 = n;
    let mut count: u32 = 0;
    proof {
        lemma_trailing_ones_bound(n as nat);
        lemma_bit_length_u64(n as nat);
    }
    while m % 2 == 1
        invariant
            count as nat + trailing_ones(m as nat) == trailing_ones(n as nat),
            trailing_ones(n as nat) <= 64,
        decreases m,
    {
        count = count + 1;
        m = m / 2;
    }
    count
}

/// Counts the zero bits at the low end of a positive `n`.
pub fn count_trailing_zeros(n: u64) -> (r: u32)
    requires
        n > 0,
    ensures
        r as nat == trailing_zeros(n as nat),
        r < 64,
{
    let mut m: u64 = n;
    let mut count: u32 = 0;
    assert(pow2(0) == 1);
    while m % 2 == 0
        invariant
            m > 0,
            count as nat + trailing_zeros(m as nat) == trailing_zeros(n as nat),
            count < 64,
            m as nat * pow2(count as nat) == n as nat,
        decreases m,
    {
        proof {
            assert(m >= 2);
            assert(pow2(count as nat + 1) == 2 * pow2(count as nat));
            assert((m / 2) as nat * pow2(count as nat + 1) == n as nat) by (nonlinear_arith)
                requires
                    m % 2 == 0,
                    m as nat * pow2(count as nat) == n as nat,
                    pow2(count as nat + 1) == 2 * pow2(count as nat),
            ;
            if count + 1 >= 64 {
                lemma_pow2_monotone(64, count as nat + 1);
                lemma_pow2_64();
                assert((m / 2) as nat * pow2(count as nat + 1) >= pow2(count as nat + 1)) by (nonlinear_arith)
                    requires m / 2 >= 1;
            }
        }
        count = count + 1;
        m = m / 2;
    }
    count
}

/// Number of bits needed to write `n`.
pub fn bit_len(n: u64) -> (r: u32)
    ensures
        r as nat == bit_length(n as nat),
        r <= 64,
{
    let mut m: u64 = n;
    let mut count: u32 = 0;
    proof {
        lemma_bit_length_u64(n as nat);
    }
    while m > 0
        invariant
            count as nat + bit_length(m as nat) == bit_length(n as nat),
            bit_length(n as nat) <= 64,
        decreases m,
    {
        count = count + 1;
        m = m / 2;
    }
    count
}

} // verus!
