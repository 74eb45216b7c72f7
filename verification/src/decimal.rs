//! Decimal fractions, rounded to double precision: 53 significant bits, halves
//! to even.

use vstd::arithmetic::div_mod::lemma_fundamental_div_mod_converse;
use vstd::prelude::*;

use crate::text::{all_digits, is_digit, value};

verus! {

/// 2^53.
pub const P53: u128 = 9007199254740992;

/// 2^64.
pub const P64: u128 = 18446744073709551616;

/// 2^66.
pub const P66: u128 = 73786976294838206464;

pub open spec fn pow10(n: nat) -> nat
    decreases n,
{
    if n == 0 {
        1
    } else {
        10 * pow10((n - 1) as nat)
    }
}

/// 2^k.
pub open spec fn twice(k: nat) -> nat
    decreases k,
{
    if k == 0 {
        1
    } else {
        2 * twice((k - 1) as nat)
    }
}

/// The smallest `u`, doubling from the given one, by which `q` divides to less
/// than 53 bits.
pub open spec fn coarser(q: nat, u: nat) -> nat
    decreases q - u,
{
    if u == 0 || 2 * u > q || q / u < P53 {
        u
    } else {
        coarser(q, 2 * u)
    }
}

/// The largest `u`, doubling from the given one, by which `q` multiplies to
/// less than 53 bits.
pub open spec fn finer(q: nat, u: nat) -> nat
    decreases 2 * P53 - u,
{
    if u == 0 || u >= P53 || 2 * (q * u) >= P53 {
        u
    } else {
        finer(q, 2 * u)
    }
}

/// A remainder rounds up: it is more than half of the unit, or half of it above
/// an odd number.
pub open spec fn rounds_up(rem: int, unit: int, m: int) -> bool {
    2 * rem > unit || (2 * rem == unit && m % 2 == 1)
}

/// The whole part of `n / d` rounded to double precision.
pub open spec fn nearest(n: nat, d: nat) -> nat {
    let q = n / d;
    if q >= P53 {
        let u = coarser(q, 1);
        let m = n / (u * d);
        (if rounds_up((n % (u * d)) as int, (u * d) as int, m as int) {
            m + 1
        } else {
            m
        }) * u
    } else {
        let u = finer(q, 1);
        let m = n * u / d;
        (if rounds_up(((n * u) % d) as int, d as int, m as int) {
            m + 1
        } else {
            m
        }) / u
    }
}

/// The number that decimal digits stand for.
pub open spec fn digit_value(s: Seq<u8>) -> nat
    decreases s.len(),
{
    if s.len() == 0 {
        0
    } else {
        s[0] as nat * pow10((s.len() - 1) as nat) + digit_value(s.skip(1))
    }
}

pub open spec fn are_digits(s: Seq<u8>) -> bool {
    forall|i: int| 0 <= i < s.len() ==> (#[trigger] s[i]) <= 9
}

proof fn lemma_pow10_positive(n: nat)
    ensures
        pow10(n) >= 1,
    decreases n,
{
    if n > 0 {
        lemma_pow10_positive((n - 1) as nat);
    }
}

proof fn lemma_digit_value_bound(s: Seq<u8>)
    requires
        are_digits(s),
    ensures
        digit_value(s) < pow10(s.len()),
    decreases s.len(),
{
    if s.len() > 0 {
        let p = pow10((s.len() - 1) as nat);
        assert(are_digits(s.skip(1))) by {
            assert forall|i: int| 0 <= i < s.skip(1).len() implies (#[trigger] s.skip(1)[i]) <= 9 by {
                assert(s.skip(1)[i] == s[i + 1]);
            }
        }
        lemma_digit_value_bound(s.skip(1));
        let a = s[0] as nat;
        assert(a <= 9);
        assert(a * p <= 9 * p) by (nonlinear_arith)
            requires
                a <= 9,
        ;
    } else {
        lemma_pow10_positive(0);
    }
}

proof fn lemma_digit_value_push(s: Seq<u8>, d: u8)
    ensures
        digit_value(s.push(d)) == digit_value(s) * 10 + d,
    decreases s.len(),
{
    let t = s.push(d);
    if s.len() == 0 {
        assert(t.skip(1) =~= Seq::empty());
        assert(pow10(0) == 1);
        assert(digit_value(t.skip(1)) == 0);
        assert(digit_value(t) == d as nat * 1);
    } else {
        assert(t.skip(1) =~= s.skip(1).push(d));
        lemma_digit_value_push(s.skip(1), d);
        let (a, p) = (s[0] as nat, pow10((s.len() - 1) as nat));
        assert(pow10((t.len() - 1) as nat) == 10 * p);
        assert(t[0] == s[0]);
        assert(a * (10 * p) == (a * p) * 10) by (nonlinear_arith);
    }
}

/// Double a decimal fraction in place; says whether it came to one or more,
/// which is left out.
fn double(v: &mut Vec<u8>) -> (carry: bool)
    requires
        are_digits(old(v)@),
    ensures
        final(v)@.len() == old(v)@.len(),
        are_digits(final(v)@),
        2 * digit_value(old(v)@) == (if carry {
            pow10(old(v)@.len())
        } else {
            0
        }) + digit_value(final(v)@),
{
    let ghost start = v@;
    let n: usize = v.len();
    let mut i: usize = n;
    let mut carry: bool = false;
    assert(start.skip(n as int) =~= Seq::empty());
    assert(v@.skip(n as int) =~= Seq::empty());
    while i > 0
        invariant
            i <= n,
            n == start.len(),
            v@.len() == n,
            are_digits(start),
            are_digits(v@),
            forall|j: int| 0 <= j < i ==> v@[j] == start[j],
            2 * digit_value(start.skip(i as int)) == (if carry {
                pow10((n - i) as nat)
            } else {
                0
            }) + digit_value(v@.skip(i as int)),
        decreases i,
    {
        let ghost before = v@;
        let ghost c0: nat = if carry {
            1
        } else {
            0
        };
        i -= 1;
        let x: u8 = v[i];
        assert(x <= 9);
        let y: u8 = 2 * x + if carry {
            1
        } else {
            0
        };
        let (d, c): (u8, bool) = if y >= 10 {
            (y - 10, true)
        } else {
            (y, false)
        };
        v.set(i, d);
        carry = c;
        proof {
            let p = pow10((n - i - 1) as nat);
            let (a, b) = (start.skip(i as int), v@.skip(i as int));
            assert(a.skip(1) =~= start.skip(i + 1));
            assert(b.skip(1) =~= before.skip(i + 1));
            assert(a[0] == x && b[0] == d);
            let (ra, rb) = (digit_value(a.skip(1)), digit_value(b.skip(1)));
            assert(2 * ra == c0 * p + rb) by {
                assert(c0 * p == if c0 == 1 {
                    p
                } else {
                    0
                }) by (nonlinear_arith)
                    requires
                        c0 == 0 || c0 == 1,
                ;
            }
            assert(digit_value(a) == x as nat * p + ra);
            assert(digit_value(b) == d as nat * p + rb);
            let (xn, dn) = (x as nat, d as nat);
            let cn: nat = if c {
                1
            } else {
                0
            };
            assert(2 * xn + c0 == 10 * cn + dn);
            assert(2 * (xn * p + ra) == cn * (10 * p) + (dn * p + rb)) by (nonlinear_arith)
                requires
                    2 * ra == c0 * p + rb,
                    2 * xn + c0 == 10 * cn + dn,
            ;
            assert(pow10((n - i) as nat) == 10 * p);
            assert(cn * (10 * p) == if c {
                10 * p
            } else {
                0
            }) by (nonlinear_arith)
                requires
                    cn == if c {
                        1nat
                    } else {
                        0nat
                    },
            ;
        }
    }
    assert(start.skip(0) =~= start);
    assert(v@.skip(0) =~= v@);
    carry
}

fn is_zero(v: &Vec<u8>) -> (r: bool)
    requires
        are_digits(v@),
    ensures
        r == (digit_value(v@) == 0),
{
    let n: usize = v.len();
    let mut i: usize = n;
    assert(v@.skip(n as int) =~= Seq::empty());
    while i > 0
        invariant
            i <= n,
            n == v@.len(),
            digit_value(v@.skip(i as int)) == 0,
        decreases i,
    {
        i -= 1;
        proof {
            assert(v@.skip(i as int).skip(1) =~= v@.skip(i + 1));
            assert(v@.skip(i as int)[0] == v@[i as int]);
            assert(0nat * pow10((n - i - 1) as nat) == 0);
        }
        if v[i] != 0 {
            proof {
                lemma_nonzero(v@, i as int);
            }
            return false;
        }
    }
    assert(v@.skip(0) =~= v@);
    true
}

proof fn lemma_nonzero(s: Seq<u8>, i: int)
    requires
        0 <= i < s.len(),
        s[i] != 0,
    ensures
        digit_value(s) > 0,
    decreases s.len(),
{
    let p = pow10((s.len() - 1) as nat);
    lemma_pow10_positive((s.len() - 1) as nat);
    let a = s[0] as nat;
    if i == 0 {
        assert(a * p >= 1) by (nonlinear_arith)
            requires
                a >= 1,
                p >= 1,
        ;
    } else {
        assert(s.skip(1)[i - 1] == s[i]);
        lemma_nonzero(s.skip(1), i - 1);
        assert(a * p >= 0) by (nonlinear_arith)
            requires
                a >= 0,
                p >= 1,
        ;
    }
}

proof fn lemma_twice_bound(k: nat)
    requires
        k <= 40,
    ensures
        1 <= twice(k) <= 1099511627776,
    decreases 40 - k,
{
    if k == 40 {
        assert(twice(40) == 1099511627776) by {
            reveal_with_fuel(twice, 41);
        }
    } else {
        lemma_twice_bound(k + 1);
        assert(twice(k + 1) == 2 * twice(k));
    }
}

/// `q` and the fraction `r / d` are `n / d`.
spec fn splits(n: nat, d: nat, q: nat, r: nat) -> bool {
    n == q * d + r && r < d
}

proof fn lemma_splits(n: nat, d: nat, q: nat, r: nat)
    requires
        splits(n, d, q, r),
    ensures
        n / d == q,
        n % d == r,
{
    lemma_fundamental_div_mod_converse(n as int, d as int, q as int, r as int);
}

/// Doubling a number doubles its whole part and its fraction.
proof fn lemma_doubled(n: nat, d: nat, q: nat, r: nat, carry: bool, r2: nat)
    requires
        splits(n, d, q, r),
        2 * r == (if carry {
            d
        } else {
            0
        }) + r2,
        r2 < d,
    ensures
        splits(
            2 * n,
            d,
            2 * q + if carry {
                1nat
            } else {
                0
            },
            r2,
        ),
{
    let c: nat = if carry {
        1
    } else {
        0
    };
    assert(2 * (q * d + r) == (2 * q + c) * d + r2) by (nonlinear_arith)
        requires
            2 * r == (if c == 1 {
                d
            } else {
                0
            }) + r2,
            c == 0 || c == 1,
    ;
}

/// The whole part of a decimal fraction times 2^k, rounded to double precision.
/// The number is `whole` and the digits `frac` behind the point.
pub fn scaled(whole: u128, frac: Vec<u8>, k: u32) -> (r: u128)
    requires
        whole < P66,
        are_digits(frac@),
        k <= 40,
    ensures
        r == nearest((whole * pow10(frac@.len()) + digit_value(frac@)) as nat * twice(k as nat), pow10(frac@.len())),
{
    let ghost d = pow10(frac@.len());
    let ghost n0 = (whole * d + digit_value(frac@)) as nat;
    let mut v = frac;
    let mut q: u128 = whole;
    let mut j: u32 = 0;
    proof {
        lemma_pow10_positive(v@.len());
        lemma_digit_value_bound(v@);
        assert(n0 * 1 == n0);
    }
    while j < k
        invariant
            j <= k <= 40,
            are_digits(v@),
            d == pow10(v@.len()),
            splits(n0 * twice(j as nat), d, q as nat, digit_value(v@)),
            q < P66 * twice(j as nat),
        decreases k - j,
    {
        let ghost (q0, r0, n1) = (q as nat, digit_value(v@), n0 * twice(j as nat));
        let carry = double(&mut v);
        proof {
            lemma_twice_bound(j as nat);
            lemma_digit_value_bound(v@);
            lemma_doubled(n1, d, q0, r0, carry, digit_value(v@));
            assert(twice((j + 1) as nat) == 2 * twice(j as nat));
            let w = twice(j as nat);
            assert(n0 * (2 * w) == 2 * (n0 * w)) by (nonlinear_arith);
            assert(P66 * (2 * w) == 2 * (P66 * w)) by (nonlinear_arith);
            assert(P66 * w <= P66 * 1099511627776) by (nonlinear_arith)
                requires
                    w <= 1099511627776,
            ;
        }
        q = 2 * q + if carry {
            1
        } else {
            0
        };
        j += 1;
    }
    let ghost n = n0 * twice(k as nat);
    proof {
        lemma_twice_bound(k as nat);
        let w = twice(k as nat);
        assert(P66 * w <= P66 * 1099511627776) by (nonlinear_arith)
            requires
                w <= 1099511627776,
        ;
        lemma_splits(n, d, q as nat, digit_value(v@));
    }
    if q >= P53 {
        rounded_large(q, &v, Ghost(n), Ghost(d))
    } else {
        rounded_small(q, v, Ghost(n), Ghost(d))
    }
}

fn rounded_large(q: u128, v: &Vec<u8>, Ghost(n): Ghost<nat>, Ghost(d): Ghost<nat>) -> (r: u128)
    requires
        are_digits(v@),
        splits(n, d, q as nat, digit_value(v@)),
        P53 <= q <= P66 * 1099511627776,
        n / d == q,
    ensures
        r == nearest(n, d),
{
    let mut u: u128 = 1;
    while q / u >= P53
        invariant
            1 <= u <= q,
            P53 <= q <= P66 * 1099511627776,
            coarser(q as nat, 1) == coarser(q as nat, u as nat),
            u == 1 || u % 2 == 0,
        decreases q - u,
    {
        proof {
            let (a, b) = (q as int, u as int);
            assert(b * (a / b) <= a) by (nonlinear_arith)
                requires
                    a >= 0,
                    b >= 1,
            ;
            assert(b * (a / b) >= b * P53) by (nonlinear_arith)
                requires
                    a / b >= P53,
                    b >= 1,
            ;
            assert(2 * b <= b * P53);
        }
        u = 2 * u;
    }
    assert(u % 2 == 0) by {
        if u == 1 {
            assert(q / 1 == q);
        }
    }
    assert(coarser(q as nat, 1) == u);
    let (m, low): (u128, u128) = (q / u, q % u);
    let rest = is_zero(v);
    let up = 2 * low > u || (2 * low == u && (!rest || m % 2 == 1));
    proof {
        let r = digit_value(v@);
        let (un, mn, ln, qn) = (u as nat, m as nat, low as nat, q as nat);
        assert(qn == mn * un + ln) by (nonlinear_arith)
            requires
                un >= 1,
                mn == qn / un,
                ln == qn % un,
        ;
        assert(ln < un);
        assert((mn * un + ln) * d + r == mn * (un * d) + (ln * d + r)) by (nonlinear_arith);
        assert(ln * d + r < un * d) by (nonlinear_arith)
            requires
                ln + 1 <= un,
                r < d,
        ;
        assert(splits(n, un * d, mn, ln * d + r));
        lemma_splits(n, un * d, mn, ln * d + r);
        let rem = ln * d + r;
        if 2 * ln > un {
            assert(2 * rem > un * d) by (nonlinear_arith)
                requires
                    2 * ln >= un + 1,
                    rem == ln * d + r,
                    d >= 1,
            ;
        } else if 2 * ln == un {
            assert(2 * rem == un * d + 2 * r) by (nonlinear_arith)
                requires
                    2 * ln == un,
                    rem == ln * d + r,
            ;
        } else {
            assert(2 * ln + 2 <= un);
            assert(2 * rem < un * d) by (nonlinear_arith)
                requires
                    2 * ln + 2 <= un,
                    rem == ln * d + r,
                    r < d,
            ;
        }
        assert(up == rounds_up(rem as int, (un * d) as int, mn as int));
        assert(mn * un <= qn);
        assert((mn + 1) * un == mn * un + un) by (nonlinear_arith);
    }
    if up {
        (m + 1) * u
    } else {
        m * u
    }
}

fn rounded_small(q: u128, frac: Vec<u8>, Ghost(n): Ghost<nat>, Ghost(d): Ghost<nat>) -> (r: u128)
    requires
        are_digits(frac@),
        d == pow10(frac@.len()),
        splits(n, d, q as nat, digit_value(frac@)),
        q < P53,
        n / d == q,
    ensures
        r == nearest(n, d),
{
    let mut v = frac;
    let mut u: u128 = 1;
    let mut qu: u128 = q;
    let mut m: u128 = q;
    proof {
        assert(n * 1 == n && q * 1 == q);
    }
    while u < P53 && 2 * qu < P53
        invariant
            1 <= u < 2 * P53,
            q < P53,
            qu == q * u,
            qu < P53,
            m < qu + u,
            are_digits(v@),
            d == pow10(v@.len()),
            splits(n * (u as nat), d, m as nat, digit_value(v@)),
            finer(q as nat, 1) == finer(q as nat, u as nat),
        decreases 2 * P53 - u,
    {
        let ghost (m0, r0, u0) = (m as nat, digit_value(v@), u as nat);
        let carry = double(&mut v);
        proof {
            lemma_digit_value_bound(v@);
            lemma_doubled(n * u0, d, m0, r0, carry, digit_value(v@));
            assert(n * (2 * u0) == 2 * (n * u0)) by (nonlinear_arith);
            assert(q * (2 * u0) == 2 * (q * u0)) by (nonlinear_arith);
        }
        m = 2 * m + if carry {
            1
        } else {
            0
        };
        u = 2 * u;
        qu = 2 * qu;
    }
    assert(finer(q as nat, 1) == u);
    let ghost r0 = digit_value(v@);
    let carry = double(&mut v);
    let rest = is_zero(&v);
    let up = carry && (!rest || m % 2 == 1);
    proof {
        lemma_digit_value_bound(v@);
        lemma_splits(n * (u as nat), d, m as nat, r0);
        assert(up == rounds_up(r0 as int, d as int, m as int));
    }
    if up {
        (m + 1) / u
    } else {
        m / u
    }
}

proof fn lemma_coarser(q: nat, u: nat)
    requires
        u >= 1,
        q >= P53,
        u <= q,
    ensures
        coarser(q, u) >= u,
        coarser(q, u) <= q,
    decreases q - u,
{
    if !(2 * u > q || q / u < P53) {
        lemma_coarser(q, 2 * u);
    }
}

/// A number of at least 2^66 is still more than 2^64 when it is rounded.
pub proof fn lemma_nearest_large(n: nat, d: nat)
    requires
        d >= 1,
        n >= P66 * d,
    ensures
        nearest(n, d) > P64,
{
    let q = n / d;
    assert(q >= P66) by (nonlinear_arith)
        requires
            d >= 1,
            n >= P66 * d,
            q == n / d,
    ;
    let u = coarser(q, 1);
    lemma_coarser(q, 1);
    let m = n / (u * d);
    assert(u * d >= 1) by (nonlinear_arith)
        requires
            u >= 1,
            d >= 1,
    ;
    lemma_coarser_keeps(q, 1);
    // What is left out is less than a unit, and a unit is at most half of `q`.
    assert(m * u >= q - u) by {
        let k = u * d;
        assert(m * k > n - k) by (nonlinear_arith)
            requires
                k >= 1,
                m == n / k,
        ;
        assert(n >= q * d) by (nonlinear_arith)
            requires
                q == n / d,
                d >= 1,
        ;
        assert((m * u) * d > (q - u) * d - d) by (nonlinear_arith)
            requires
                m * k > n - k,
                k == u * d,
                n >= q * d,
                d >= 1,
        ;
        assert((m * u) > (q - u) - 1) by (nonlinear_arith)
            requires
                (m * u) * d > (q - u) * d - d,
                d >= 1,
        ;
    }
    assert((m + 1) * u >= m * u) by (nonlinear_arith)
        requires
            u >= 0,
    ;
}

proof fn lemma_coarser_keeps(q: nat, u: nat)
    requires
        u >= 1,
        2 * u <= q,
        q >= P66,
    ensures
        2 * coarser(q, u) <= q,
    decreases q - u,
{
    if !(2 * u > q || q / u < P53) {
        assert(q >= u * P53) by (nonlinear_arith)
            requires
                q / u >= P53,
                u >= 1,
        ;
        assert(2 * (2 * u) <= q);
        lemma_coarser_keeps(q, 2 * u);
    }
}

/// The digits of a text as numbers.
pub fn digits_of(s: &Vec<char>) -> (r: Vec<u8>)
    requires
        all_digits(s@),
    ensures
        are_digits(r@),
        r@.len() == s@.len(),
        digit_value(r@) == value(s@),
{
    let mut out: Vec<u8> = Vec::new();
    for i in 0..s.len()
        invariant
            all_digits(s@),
            are_digits(out@),
            out@.len() == i,
            digit_value(out@) == value(s@.take(i as int)),
    {
        assert(is_digit(s@[i as int]));
        let d: u8 = (s[i] as u32 - 48) as u8;
        proof {
            assert(s@.take(i + 1).drop_last() =~= s@.take(i as int));
            lemma_digit_value_push(out@, d);
        }
        out.push(d);
    }
    assert(s@.take(s@.len() as int) =~= s@);
    out
}

} // verus!
