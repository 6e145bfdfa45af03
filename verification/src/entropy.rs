//! Shannon entropy of a string's character distribution, computed in an
//! integer fixed-point scale with `ENTROPY_SCALE` units per bit, so the
//! whole scorer stays inside verified integer arithmetic.

use vstd::prelude::*;
use vstd::arithmetic::div_mod::{lemma_div_is_ordered, lemma_div_multiples_vanish};
use vstd::arithmetic::power2::{
    lemma2_to64,
    lemma2_to64_rest,
    lemma_pow2_adds,
    lemma_pow2_pos,
    lemma_pow2_strictly_increases,
    lemma_pow2_unfold,
    pow2,
};

verus! {

/// One bit of entropy equals this many fixed-point units (2^16).
pub const ENTROPY_SCALE: u64 = 65536;

proof fn lemma_pow2_le(a: nat, b: nat)
    requires
        a <= b,
    ensures
        pow2(a) <= pow2(b),
{
    if a < b {
        lemma_pow2_strictly_increases(a, b);
    }
}

/// floor(log2(k)) for k >= 1, and 0 for k == 0.
pub open spec fn ilog2(k: nat) -> nat
    decreases k,
{
    if k < 2 {
        0
    } else {
        1 + ilog2(k / 2)
    }
}

/// For k >= 1: 2^ilog2(k) <= k < 2^(ilog2(k) + 1).
pub proof fn lemma_ilog2_bounds(k: nat)
    requires
        k >= 1,
    ensures
        pow2(ilog2(k)) <= k,
        k < pow2(ilog2(k) + 1),
    decreases k,
{
    if k >= 2 {
        lemma_ilog2_bounds(k / 2);
        lemma_pow2_unfold(ilog2(k));
        lemma_pow2_unfold(ilog2(k) + 1);
    } else {
        lemma2_to64();
    }
}

/// For 1 <= k < 2^b: ilog2(k) < b.
pub proof fn lemma_ilog2_lt(k: nat, b: nat)
    requires
        1 <= k,
        k < pow2(b),
    ensures
        ilog2(k) < b,
{
    lemma_ilog2_bounds(k);
    if ilog2(k) >= b {
        lemma_pow2_le(b, ilog2(k));
    }
}

pub proof fn lemma_ilog2_pow2(j: nat)
    ensures
        ilog2(pow2(j)) == j,
    decreases j,
{
    if j > 0 {
        lemma_pow2_unfold(j);
        lemma_pow2_pos((j - 1) as nat);
        assert(pow2(j) / 2 == pow2((j - 1) as nat));
        lemma_ilog2_pow2((j - 1) as nat);
    } else {
        lemma2_to64();
    }
}

/// The mantissa of k >= 1, scaled into [2^30, 2^31).
pub open spec fn mantissa(k: nat) -> nat {
    if ilog2(k) <= 30 {
        k * pow2((30 - ilog2(k)) as nat)
    } else {
        k / pow2((ilog2(k) - 30) as nat)
    }
}

/// The j fractional bits of log2 of a 2^30-scaled mantissa, computed by
/// repeated squaring with truncation to 30 fractional bits at each step.
pub open spec fn frac_bits(m: nat, j: nat) -> nat
    decreases j,
{
    if j == 0 {
        0
    } else {
        let t = (m * m) / 0x40000000;
        if t >= 0x80000000 {
            pow2((j - 1) as nat) + frac_bits(t / 2, (j - 1) as nat)
        } else {
            frac_bits(t, (j - 1) as nat)
        }
    }
}

pub proof fn lemma_frac_bits_bound(m: nat, j: nat)
    ensures
        frac_bits(m, j) < pow2(j),
    decreases j,
{
    if j == 0 {
        lemma2_to64();
    } else {
        let t = (m * m) / 0x40000000;
        lemma_pow2_unfold(j);
        if t >= 0x80000000 {
            lemma_frac_bits_bound(t / 2, (j - 1) as nat);
        } else {
            lemma_frac_bits_bound(t, (j - 1) as nat);
        }
    }
}

/// Base-2 logarithm in fixed point: ENTROPY_SCALE units per bit.
/// Exact on powers of two; truncated to 16 fractional bits otherwise.
pub open spec fn log2_fp(k: nat) -> nat {
    if k == 0 {
        0
    } else {
        ilog2(k) * 65536 + frac_bits(mantissa(k), 16)
    }
}

/// For 1 <= k < 2^b: log2_fp(k) < b * 65536.
pub proof fn lemma_log2_fp_bound(k: nat, b: nat)
    requires
        1 <= k,
        k < pow2(b),
    ensures
        log2_fp(k) < b * 65536,
{
    lemma_ilog2_lt(k, b);
    lemma_frac_bits_bound(mantissa(k), 16);
    lemma2_to64();
    assert(ilog2(k) * 65536 <= (b - 1) * 65536) by (nonlinear_arith)
        requires
            ilog2(k) <= b - 1,
    ;
}

/// The mantissa 2^30 (value 1.0) squares to itself, so every fractional
/// bit of its logarithm is zero.
pub proof fn lemma_frac_bits_one(j: nat)
    ensures
        frac_bits(0x40000000, j) == 0,
    decreases j,
{
    if j > 0 {
        assert((0x40000000 * 0x40000000) / 0x40000000 == 0x40000000nat);
        lemma_frac_bits_one((j - 1) as nat);
    }
}

pub proof fn lemma_log2_fp_one()
    ensures
        log2_fp(1) == 0,
{
    assert(ilog2(1) == 0);
    assert(mantissa(1) == 1 * pow2(30));
    lemma2_to64();
    lemma_frac_bits_one(16);
}

/// On a power of two the fixed-point logarithm is exact:
/// log2_fp(2^j) == j * ENTROPY_SCALE.
pub proof fn lemma_log2_fp_pow2(j: nat)
    requires
        j <= 63,
    ensures
        log2_fp(pow2(j)) == j * 65536,
{
    lemma_pow2_pos(j);
    lemma_ilog2_pow2(j);
    if j <= 30 {
        lemma_pow2_adds(j, (30 - j) as nat);
        assert(mantissa(pow2(j)) == pow2(j) * pow2((30 - j) as nat));
    } else {
        lemma_pow2_adds((j - 30) as nat, 30);
        lemma_pow2_pos((j - 30) as nat);
        assert(pow2(j) == pow2((j - 30) as nat) * pow2(30));
        assert(pow2(j) / pow2((j - 30) as nat) == pow2(30)) by (nonlinear_arith)
            requires
                pow2(j) == pow2((j - 30) as nat) * pow2(30),
                pow2((j - 30) as nat) >= 1,
        ;
        assert(mantissa(pow2(j)) == pow2(30));
    }
    lemma2_to64();
    lemma_frac_bits_one(16);
}

/// Executable power of two.
fn pow2_u64(e: u64) -> (r: u64)
    requires
        e <= 63,
    ensures
        r == pow2(e as nat),
        r >= 1,
{
    let mut r: u64 = 1;
    let mut i: u64 = 0;
    proof {
        lemma2_to64();
    }
    while i < e
        invariant
            i <= e,
            e <= 63,
            r == pow2(i as nat),
            r >= 1,
        decreases e - i,
    {
        proof {
            lemma_pow2_le(i as nat + 1, e as nat);
            lemma_pow2_le(e as nat, 63);
            lemma2_to64_rest();
            lemma_pow2_unfold(i as nat + 1);
        }
        r = r * 2;
        i = i + 1;
    }
    r
}

/// Fixed-point base-2 logarithm, ENTROPY_SCALE units per bit.
pub fn log2_fixed(k: u64) -> (r: u64)
    requires
        k >= 1,
    ensures
        r == log2_fp(k as nat),
{
    // integer part
    let mut e: u64 = 0;
    let mut kk: u64 = k;
    proof {
        lemma2_to64();
        lemma2_to64_rest();
        lemma_ilog2_lt(k as nat, 64);
    }
    while kk >= 2
        invariant
            1 <= kk,
            ilog2(k as nat) == e + ilog2(kk as nat),
            e <= ilog2(k as nat),
            ilog2(k as nat) <= 63,
        decreases kk,
    {
        kk = kk / 2;
        e = e + 1;
    }
    assert(ilog2(kk as nat) == 0);
    assert(e == ilog2(k as nat));
    // mantissa scaled into [2^30, 2^31)
    proof {
        lemma_ilog2_bounds(k as nat);
    }
    let m0: u64;
    if e <= 30 {
        let f = pow2_u64(30 - e);
        proof {
            lemma_pow2_adds((e + 1) as nat, (30 - e) as nat);
            assert((k as nat) * pow2((30 - e) as nat) < pow2((e + 1) as nat) * pow2(
                (30 - e) as nat,
            )) by (nonlinear_arith)
                requires
                    (k as nat) < pow2((e + 1) as nat),
                    pow2((30 - e) as nat) >= 1,
            ;
            lemma2_to64();
        }
        m0 = k * f;
    } else {
        let f = pow2_u64(e - 30);
        proof {
            lemma_pow2_adds(31, (e - 30) as nat);
            lemma_pow2_pos((e - 30) as nat);
            lemma_pow2_le((e + 1) as nat, 31 + (e - 30) as nat);
            assert((k as nat) / pow2((e - 30) as nat) < pow2(31)) by (nonlinear_arith)
                requires
                    (k as nat) < pow2(31) * pow2((e - 30) as nat),
                    pow2((e - 30) as nat) >= 1,
            ;
            lemma2_to64();
        }
        m0 = k / f;
    }
    assert(m0 == mantissa(k as nat));
    assert(m0 < 0x80000000);
    // fractional bits by repeated squaring
    let ghost mstart = m0 as nat;
    let mut m: u64 = m0;
    let mut acc: u64 = 0;
    let mut i: u64 = 0;
    proof {
        lemma2_to64();
    }
    while i < 16
        invariant
            i <= 16,
            m < 0x80000000,
            acc < pow2(i as nat),
            frac_bits(mstart, 16) == acc * pow2((16 - i) as nat) + frac_bits(
                m as nat,
                (16 - i) as nat,
            ),
        decreases 16 - i,
    {
        proof {
            assert((m as nat) * (m as nat) < 0x80000000 * 0x80000000) by (nonlinear_arith)
                requires
                    (m as nat) < 0x80000000,
            ;
        }
        let t = (m * m) / 0x40000000;
        proof {
            lemma_pow2_le(i as nat, 15);
            lemma2_to64();
            lemma_pow2_unfold((16 - i) as nat);
            lemma_pow2_unfold((i + 1) as nat);
        }
        if t >= 0x80000000 {
            proof {
                let j = (16 - i) as nat;
                let q = pow2((j - 1) as nat);
                let rest = frac_bits((t / 2) as nat, (j - 1) as nat);
                assert(frac_bits(m as nat, j) == q + rest);
                assert((acc as nat) * (2 * q) + (q + rest) == ((acc as nat) * 2 + 1) * q
                    + rest) by (nonlinear_arith);
            }
            acc = acc * 2 + 1;
            m = t / 2;
        } else {
            proof {
                let j = (16 - i) as nat;
                let q = pow2((j - 1) as nat);
                let rest = frac_bits(t as nat, (j - 1) as nat);
                assert(frac_bits(m as nat, j) == rest);
                assert((acc as nat) * (2 * q) + rest == ((acc as nat) * 2) * q + rest)
                    by (nonlinear_arith);
            }
            acc = acc * 2;
            m = t;
        }
        i = i + 1;
    }
    assert(i == 16);
    proof {
        lemma2_to64();
        assert(frac_bits(mstart, 16) == acc * pow2(0) + frac_bits(m as nat, 0));
        assert(acc * 1nat == acc) by (nonlinear_arith);
    }
    proof {
        assert(e * 65536 <= 63 * 65536) by (nonlinear_arith)
            requires
                e <= 63,
        ;
    }
    e * 65536 + acc
}

/// Number of occurrences of c in s.
pub open spec fn count_char(s: Seq<char>, c: char) -> nat
    decreases s.len(),
{
    if s.len() == 0 {
        0
    } else {
        count_char(s.drop_last(), c) + (if s.last() == c {
            1nat
        } else {
            0nat
        })
    }
}

/// Whether position i holds the first occurrence of its character.
pub open spec fn first_occurrence(s: Seq<char>, i: int) -> bool {
    forall|j: int| 0 <= j < i ==> s[j] != s[i]
}

/// Over the first i positions: for each character's first occurrence,
/// its total count times the fixed-point logarithm of that count.
pub open spec fn weighted_log_sum(s: Seq<char>, i: int) -> nat
    decreases i,
{
    if i <= 0 {
        0
    } else {
        weighted_log_sum(s, i - 1) + (if first_occurrence(s, i - 1) {
            count_char(s, s[i - 1]) * log2_fp(count_char(s, s[i - 1]))
        } else {
            0nat
        })
    }
}

/// Shannon entropy of the character distribution of s, in fixed point:
/// (n * log2(n) - sum over distinct c of count(c) * log2(count(c))) / n.
/// The subtraction can in truth never go negative; the guard only keeps
/// the definition total.
pub open spec fn entropy_of(s: Seq<char>) -> nat {
    if s.len() == 0 {
        0
    } else {
        let n = s.len();
        let total = n * log2_fp(n);
        let w = weighted_log_sum(s, n as int);
        if w <= total {
            (((total - w) as nat) / n)
        } else {
            0
        }
    }
}

pub proof fn lemma_count_char_le_len(s: Seq<char>, c: char)
    ensures
        count_char(s, c) <= s.len(),
    decreases s.len(),
{
    if s.len() > 0 {
        lemma_count_char_le_len(s.drop_last(), c);
    }
}

pub proof fn lemma_count_char_pos(s: Seq<char>, i: int)
    requires
        0 <= i < s.len(),
    ensures
        count_char(s, s[i]) >= 1,
    decreases s.len(),
{
    if i == s.len() - 1 {
    } else {
        lemma_count_char_pos(s.drop_last(), i);
    }
}

proof fn lemma_count_char_none(s: Seq<char>, c: char)
    requires
        forall|j: int| 0 <= j < s.len() ==> s[j] != c,
    ensures
        count_char(s, c) == 0,
    decreases s.len(),
{
    if s.len() > 0 {
        lemma_count_char_none(s.drop_last(), c);
    }
}

proof fn lemma_count_char_all_same(s: Seq<char>, c: char)
    requires
        forall|j: int| 0 <= j < s.len() ==> s[j] == c,
    ensures
        count_char(s, c) == s.len(),
    decreases s.len(),
{
    if s.len() > 0 {
        lemma_count_char_all_same(s.drop_last(), c);
    }
}

proof fn lemma_count_char_unique(s: Seq<char>, i: int)
    requires
        0 <= i < s.len(),
        forall|j: int| 0 <= j < s.len() && j != i ==> s[j] != s[i],
    ensures
        count_char(s, s[i]) == 1,
    decreases s.len(),
{
    if i == s.len() - 1 {
        lemma_count_char_none(s.drop_last(), s[i]);
    } else {
        assert(s.last() != s[i]);
        lemma_count_char_unique(s.drop_last(), i);
    }
}

proof fn lemma_wls_constant(s: Seq<char>, i: int)
    requires
        s.len() >= 1,
        forall|j: int| 0 <= j < s.len() ==> #[trigger] s[j] == s[0],
        1 <= i <= s.len(),
    ensures
        weighted_log_sum(s, i) == count_char(s, s[0]) * log2_fp(count_char(s, s[0])),
    decreases i,
{
    if i == 1 {
        assert(first_occurrence(s, 0));
        assert(weighted_log_sum(s, 0) == 0);
        assert(weighted_log_sum(s, 1) == count_char(s, s[0]) * log2_fp(count_char(s, s[0])));
    } else {
        assert(!first_occurrence(s, i - 1)) by {
            assert(s[0] == s[i - 1]);
        }
        lemma_wls_constant(s, i - 1);
        assert(weighted_log_sum(s, i) == weighted_log_sum(s, i - 1));
    }
}

/// Law: a string made of one repeated character has entropy exactly zero.
pub proof fn lemma_entropy_constant(s: Seq<char>)
    requires
        s.len() >= 1,
        forall|i: int| 0 <= i < s.len() ==> #[trigger] s[i] == s[0],
    ensures
        entropy_of(s) == 0,
{
    let n = s.len();
    lemma_wls_constant(s, n as int);
    lemma_count_char_all_same(s, s[0]);
    assert(weighted_log_sum(s, n as int) == n * log2_fp(n));
    assert(entropy_of(s) == 0nat / n);
}

proof fn lemma_wls_distinct(s: Seq<char>, i: int)
    requires
        forall|a: int, b: int| 0 <= a < b < s.len() ==> s[a] != s[b],
        0 <= i <= s.len(),
    ensures
        weighted_log_sum(s, i) == 0,
    decreases i,
{
    if i > 0 {
        lemma_wls_distinct(s, i - 1);
        assert(forall|j: int| 0 <= j < s.len() && j != i - 1 ==> #[trigger] s[j] != s[i - 1]);
        lemma_count_char_unique(s, i - 1);
        lemma_log2_fp_one();
    }
}

/// Law: a string of pairwise-distinct characters has entropy exactly
/// log2_fp of its length (so exactly log2 of the length whenever the
/// length is a power of two, by lemma_log2_fp_pow2).
pub proof fn lemma_entropy_distinct(s: Seq<char>)
    requires
        s.len() >= 1,
        forall|a: int, b: int| 0 <= a < b < s.len() ==> s[a] != s[b],
    ensures
        entropy_of(s) == log2_fp(s.len()),
{
    let n = s.len();
    lemma_wls_distinct(s, n as int);
    lemma_div_multiples_vanish(log2_fp(n) as int, n as int);
}

/// The entropy of a string never exceeds log2_fp of its length.
pub proof fn lemma_entropy_le_log2_len(s: Seq<char>)
    ensures
        entropy_of(s) <= log2_fp(s.len()),
{
    let n = s.len();
    if n > 0 {
        let total = n * log2_fp(n);
        let w = weighted_log_sum(s, n as int);
        if w <= total {
            lemma_div_is_ordered((total - w) as int, total as int, n as int);
            lemma_div_multiples_vanish(log2_fp(n) as int, n as int);
        }
    }
}

/// Shannon entropy, in ENTROPY_SCALE units per bit, of the character
/// distribution of the string.
pub fn calculate_entropy(key_string: &str) -> (r: u64)
    requires
        key_string@.len() < 0x100000000,
    ensures
        r == entropy_of(key_string@),
{
    let ghost s = key_string@;
    let n = key_string.unicode_len();
    if n == 0 {
        return 0;
    }
    let mut w: u128 = 0;
    let mut i: usize = 0;
    while i < n
        invariant
            s == key_string@,
            n == s.len(),
            1 <= n < 0x100000000,
            i <= n,
            w == weighted_log_sum(s, i as int),
            w <= (i as nat) * 0x20000000000000,
        decreases n - i,
    {
        let ci = key_string.get_char(i);
        let mut first: bool = true;
        let mut j: usize = 0;
        while j < i
            invariant
                s == key_string@,
                i < s.len(),
                j <= i,
                ci == s[i as int],
                first <==> (forall|jj: int| 0 <= jj < j ==> s[jj] != s[i as int]),
            decreases i - j,
        {
            if key_string.get_char(j) == ci {
                first = false;
            }
            j = j + 1;
        }
        assert(first == first_occurrence(s, i as int));
        if first {
            let mut k: u64 = 0;
            let mut j2: usize = 0;
            while j2 < n
                invariant
                    s == key_string@,
                    n == s.len(),
                    n < 0x100000000,
                    j2 <= n,
                    i < n,
                    ci == s[i as int],
                    k == count_char(s.take(j2 as int), ci),
                    k <= j2,
                decreases n - j2,
            {
                proof {
                    assert(s.take(j2 + 1).drop_last() =~= s.take(j2 as int));
                    assert(s.take(j2 + 1).last() == s[j2 as int]);
                }
                if key_string.get_char(j2) == ci {
                    k = k + 1;
                }
                j2 = j2 + 1;
            }
            proof {
                assert(s.take(n as int) =~= s);
                lemma_count_char_pos(s, i as int);
            }
            let lg = log2_fixed(k);
            proof {
                lemma2_to64();
                lemma_log2_fp_bound(k as nat, 32);
                assert((k as nat) * (lg as nat) < 0x100000000 * 0x200000) by (nonlinear_arith)
                    requires
                        (k as nat) < 0x100000000,
                        (lg as nat) < 0x200000,
                ;
            }
            w = w + (k as u128) * (lg as u128);
        }
        i = i + 1;
    }
    assert(w == weighted_log_sum(s, n as int));
    let ln = log2_fixed(n as u64);
    proof {
        lemma2_to64();
        lemma_log2_fp_bound(n as nat, 32);
        assert((n as nat) * (ln as nat) < 0x100000000 * 0x200000) by (nonlinear_arith)
            requires
                (n as nat) < 0x100000000,
                (ln as nat) < 0x200000,
        ;
    }
    let total: u64 = (n as u64) * ln;
    if w <= total as u128 {
        let diff: u128 = total as u128 - w;
        let q: u128 = diff / (n as u128);
        proof {
            lemma_div_is_ordered(diff as int, total as int, n as int);
            assert((total as int) / (n as int) <= total as int) by (nonlinear_arith)
                requires
                    n >= 1,
                    total >= 0,
            ;
        }
        q as u64
    } else {
        0
    }
}

} // verus!
