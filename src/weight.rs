use vstd::prelude::*;
use crate::node::{EdgeWeight, UNITS_PER_WHOLE};

verus! {

pub open spec fn is_digit(c: char) -> bool {
    '0' as u32 <= c as u32 && c as u32 <= '9' as u32
}

pub open spec fn digit_value(c: char) -> int {
    c as u32 - '0' as u32
}

pub open spec fn pow10(n: nat) -> int
    decreases n,
{
    if n == 0 { 1 } else { 10 * pow10((n - 1) as nat) }
}

/// Reads a run of digits and dots left to right, as
/// (digits read so far as one integer, fractional digits kept, dots seen).
/// Fractional digits past the ninth are dropped.
pub open spec fn weight_scan(s: Seq<char>) -> (int, nat, nat)
    decreases s.len(),
{
    if s.len() == 0 {
        (0, 0, 0)
    } else {
        let (v, f, d) = weight_scan(s.drop_last());
        let c = s.last();
        if c == '.' {
            (v, f, d + 1)
        } else if d == 0 {
            (v * 10 + digit_value(c), f, d)
        } else if f < 9 {
            (v * 10 + digit_value(c), f + 1, d)
        } else {
            (v, f, d)
        }
    }
}

/// The weight that a decimal text denotes, in billionths: defined where the
/// text has at least one digit, at most one dot, and a value that fits.
pub open spec fn weight_of(s: Seq<char>) -> Option<EdgeWeight> {
    let (v, f, d) = weight_scan(s);
    let units = v * pow10((9 - f) as nat);
    if d <= 1 && s.len() > d && units <= u64::MAX {
        Some(EdgeWeight { units: units as u64 })
    } else {
        None
    }
}

pub open spec fn digits_and_dots(s: Seq<char>) -> bool {
    forall|i: int| 0 <= i < s.len() ==> is_digit(#[trigger] s[i]) || s[i] == '.'
}

proof fn lemma_pow10_mono(n: nat, m: nat)
    requires
        n <= m,
    ensures
        1 <= pow10(n) <= pow10(m),
    decreases m,
{
    if m > n {
        lemma_pow10_mono(n, (m - 1) as nat);
    } else if n > 0 {
        lemma_pow10_mono((n - 1) as nat, (n - 1) as nat);
    }
}

proof fn lemma_pow10_pos(n: nat)
    ensures
        pow10(n) >= 1,
        n <= 9 ==> pow10(n) <= UNITS_PER_WHOLE,
{
    reveal_with_fuel(pow10, 10);
    assert(pow10(9) == UNITS_PER_WHOLE);
    if n <= 9 {
        lemma_pow10_mono(n, 9);
    } else {
        lemma_pow10_mono(n, n);
    }
}

proof fn lemma_scan_mono(s: Seq<char>, k: int)
    requires
        digits_and_dots(s),
        0 <= k <= s.len(),
    ensures
        weight_scan(s).0 >= weight_scan(s.take(k)).0 >= 0,
        weight_scan(s).1 <= 9,
        weight_scan(s).2 >= weight_scan(s.take(k)).2,
    decreases s.len(),
{
    if s.len() > 0 {
        assert(digits_and_dots(s.drop_last())) by {
            assert forall|i: int| 0 <= i < s.len() - 1 implies is_digit(#[trigger] s.drop_last()[i]) || s.drop_last()[i] == '.' by {
                assert(s.drop_last()[i] == s[i]);
            }
        }
        if k == s.len() {
            assert(s.take(k) =~= s);
            lemma_scan_mono(s.drop_last(), 0);
        } else {
            assert(s.drop_last().take(k) =~= s.take(k));
            lemma_scan_mono(s.drop_last(), k);
        }
        let c = s.last();
        assert(is_digit(s[s.len() - 1]) || s[s.len() - 1] == '.');
    } else {
        assert(s.take(k) =~= s);
    }
}

fn pow10_exec(n: u64) -> (r: u64)
    requires
        n <= 9,
    ensures
        r == pow10(n as nat),
        r <= UNITS_PER_WHOLE,
{
    let mut r: u64 = 1;
    let mut i: u64 = 0;
    while i < n
        invariant
            i <= n <= 9,
            r == pow10(i as nat),
        decreases n - i,
    {
        proof { lemma_pow10_pos(i as nat); }
        r = r * 10;
        i = i + 1;
    }
    proof { lemma_pow10_pos(n as nat); }
    r
}

/// Reads an edge weight from its decimal text.
pub fn parse_weight(cs: &Vec<char>) -> (r: Option<EdgeWeight>)
    requires
        digits_and_dots(cs@),
    ensures
        r == weight_of(cs@),
{
    let mut v: u64 = 0;
    let mut f: u64 = 0;
    let mut d: u64 = 0;
    let mut i: usize = 0;
    while i < cs.len()
        invariant
            digits_and_dots(cs@),
            0 <= i <= cs@.len(),
            weight_scan(cs@.take(i as int)) == (v as int, f as nat, d as nat),
            d <= 1,
            f <= 9,
        decreases cs@.len() - i,
    {
        let c = cs[i];
        assert(cs@.take(i + 1).drop_last() =~= cs@.take(i as int));
        assert(cs@.take(i + 1).last() == c);
        if c == '.' {
            if d == 1 {
                proof {
                    lemma_scan_mono(cs@, i + 1);
                }
                return None;
            }
            d = d + 1;
        } else if d == 0 || f < 9 {
            assert(is_digit(cs@[i as int]));
            let dv = (c as u32 - '0' as u32) as u64;
            if v > (u64::MAX - dv) / 10 {
                proof {
                    lemma_scan_mono(cs@, i + 1);
                    let (fv, ff, fd) = weight_scan(cs@);
                    lemma_pow10_pos((9 - ff) as nat);
                    assert(fv * pow10((9 - ff) as nat) >= fv) by (nonlinear_arith)
                        requires fv >= 0, pow10((9 - ff) as nat) >= 1;
                }
                return None;
            }
            v = v * 10 + dv;
            if d == 1 {
                f = f + 1;
            }
        }
        i = i + 1;
    }
    assert(cs@.take(cs@.len() as int) =~= cs@);
    if cs.len() as u64 <= d {
        return None;
    }
    let p = pow10_exec(9 - f);
    assert((v as int) * (p as int) <= 0xffff_ffff_ffff_ffff * 1_000_000_000) by (nonlinear_arith)
        requires v <= 0xffff_ffff_ffff_ffffu64, p <= 1_000_000_000;
    let units: u128 = (v as u128) * (p as u128);
    if units > u64::MAX as u128 {
        None
    } else {
        Some(EdgeWeight { units: units as u64 })
    }
}

} // verus!
