//! Comparison of numbers as IEEE-754 doubles, on their bit patterns: the
//! ordering that `f64::partial_cmp` gives and the equality that `==` on
//! `f64` gives, and the double that an integer converts to (`as f64`).
use vstd::prelude::*;

verus! {

/// Two to the power `e`.
pub open spec fn p2(e: nat) -> nat
    decreases e,
{
    if e == 0 {
        1
    } else {
        2 * p2((e - 1) as nat)
    }
}

/// The number of binary digits of `m`.
pub open spec fn bit_len(m: nat) -> nat
    decreases m,
{
    if m == 0 {
        0
    } else {
        1 + bit_len(m / 2)
    }
}

pub open spec fn sign_bit() -> nat {
    0x8000_0000_0000_0000
}

/// A NaN: all exponent bits set and a non-zero fraction.
pub open spec fn is_nan(bits: u64) -> bool {
    (bits as nat % sign_bit()) > 0x7ff0_0000_0000_0000
}

/// A key whose integer order is the order of the doubles' values, for
/// doubles that are not NaN: the magnitude bits, negated for negative
/// doubles (so both zeros have key 0).
pub open spec fn order_key(bits: u64) -> int {
    let mag = bits as nat % sign_bit();
    if bits as nat >= sign_bit() {
        -mag
    } else {
        mag as int
    }
}

/// Three-way comparison.
#[derive(Clone, Copy, Debug, PartialEq, Eq, Structural)]
pub enum Cmp {
    Less,
    Equal,
    Greater,
}

pub open spec fn compare_int(a: int, b: int) -> Cmp {
    if a < b {
        Cmp::Less
    } else if a == b {
        Cmp::Equal
    } else {
        Cmp::Greater
    }
}

/// `partial_cmp` of two doubles: none when either is NaN.
pub open spec fn double_order(a: u64, b: u64) -> Option<Cmp> {
    if is_nan(a) || is_nan(b) {
        None
    } else {
        Some(compare_int(order_key(a), order_key(b)))
    }
}

/// `==` of two doubles: false when either is NaN; the two zeros are equal.
pub open spec fn double_eq(a: u64, b: u64) -> bool {
    double_order(a, b) == Some(Cmp::Equal)
}

/// The bit pattern of a double with the given sign, biased exponent and
/// fraction.
pub open spec fn double_bits(neg: bool, exp: nat, frac: nat) -> nat {
    (if neg {
        sign_bit()
    } else {
        0
    }) + exp * 0x10_0000_0000_0000 + frac
}

/// The double that the integer `n` converts to (`n as f64`): the nearest
/// double, ties to the one with an even significand.
pub open spec fn double_of_int(n: int) -> nat {
    let m: nat = if n < 0 {
        (-n) as nat
    } else {
        n as nat
    };
    if m == 0 {
        0
    } else {
        let h = (bit_len(m) - 1) as nat;
        if h <= 52 {
            double_bits(n < 0, h + 1023, (m * p2((52 - h) as nat) - p2(52)) as nat)
        } else {
            let s = (h - 52) as nat;
            let q = m / p2(s);
            let r = m % p2(s);
            let half = p2((s - 1) as nat);
            let q2 = if r > half || (r == half && q % 2 == 1) {
                q + 1
            } else {
                q
            };
            if q2 == p2(53) {
                double_bits(n < 0, h + 1024, 0)
            } else {
                double_bits(n < 0, h + 1023, (q2 - p2(52)) as nat)
            }
        }
    }
}

pub proof fn lemma_bit_len(m: nat)
    requires
        m >= 1,
    ensures
        bit_len(m) >= 1,
        p2((bit_len(m) - 1) as nat) <= m < p2(bit_len(m)),
    decreases m,
{
    if m >= 2 {
        lemma_bit_len(m / 2);
        let k = bit_len(m / 2);
        assert(bit_len(m) == 1 + k);
        assert(p2(k) == 2 * p2((k - 1) as nat));
    } else {
        assert(bit_len(0) == 0);
        assert(bit_len(1) == 1);
        assert(p2(1) == 2 * p2(0));
    }
}

pub proof fn lemma_bit_len_bound(m: nat, k: nat)
    requires
        1 <= m < p2(k),
    ensures
        bit_len(m) <= k,
{
    lemma_bit_len(m);
    if bit_len(m) > k {
        lemma_p2_mono(k, (bit_len(m) - 1) as nat);
    }
}

pub proof fn lemma_p2_mono(a: nat, b: nat)
    requires
        a <= b,
    ensures
        p2(a) <= p2(b),
    decreases b,
{
    if a < b {
        lemma_p2_mono(a, (b - 1) as nat);
    }
}

fn is_nan_exec(bits: u64) -> (r: bool)
    ensures
        r == is_nan(bits),
{
    bits % 0x8000_0000_0000_0000 > 0x7ff0_0000_0000_0000
}

/// `f64::partial_cmp`, on bit patterns.
pub fn double_order_exec(a: u64, b: u64) -> (r: Option<Cmp>)
    ensures
        r == double_order(a, b),
{
    if is_nan_exec(a) || is_nan_exec(b) {
        return None;
    }
    let ma = (a % 0x8000_0000_0000_0000) as i128;
    let mb = (b % 0x8000_0000_0000_0000) as i128;
    let ka: i128 = if a >= 0x8000_0000_0000_0000 { -ma } else { ma };
    let kb: i128 = if b >= 0x8000_0000_0000_0000 { -mb } else { mb };
    if ka < kb {
        Some(Cmp::Less)
    } else if ka == kb {
        Some(Cmp::Equal)
    } else {
        Some(Cmp::Greater)
    }
}

/// `n as f64`, as a bit pattern.
pub fn double_of_int_exec(n: i128) -> (r: u64)
    ensures
        r as nat == double_of_int(n as int),
{
    let m: u128 = if n == i128::MIN {
        170141183460469231731687303715884105728u128
    } else if n < 0 {
        (-n) as u128
    } else {
        n as u128
    };
    let neg = n < 0;
    if m == 0 {
        return 0;
    }
    let ghost mm = m as nat;
    // h = bit_len(m) - 1
    let mut x: u128 = m;
    let mut h: u64 = 0;
    proof {
        lemma_bit_len(mm);
        lemma_p2_127();
        assert(p2(128) == 2 * p2(127));
        lemma_bit_len_bound(mm, 128);
    }
    while x > 1
        invariant
            x >= 1,
            bit_len(mm) == h + bit_len(x as nat),
            h <= 127,
            bit_len(mm) <= 128,
        decreases x,
    {
        proof {
            lemma_bit_len(x as nat);
        }
        x = x / 2;
        h = h + 1;
    }
    proof {
        assert(bit_len(1) == 1) by {
            assert(bit_len(0) == 0);
        }
        lemma_bit_len(mm);
    }
    let sign: u64 = if neg { 0x8000_0000_0000_0000 } else { 0 };
    if h <= 52 {
        // frac = m * 2^(52 - h) - 2^52
        let mut v: u128 = m;
        let mut j: u64 = 0;
        assert(p2(0) == 1);
        while j < 52 - h
            invariant
                j <= 52 - h,
                h <= 52,
                v as nat == mm * p2(j as nat),
                mm < p2(h as nat + 1),
            decreases 52 - h - j,
        {
            proof {
                lemma_p2_mono(h as nat + 1 + j as nat, 53);
                lemma_p2_add(h as nat + 1, j as nat);
                lemma_p2_pos(j as nat);
                assert(mm * p2(j as nat) < p2(h as nat + 1) * p2(j as nat)) by (nonlinear_arith)
                    requires
                        mm < p2(h as nat + 1),
                        p2(j as nat) > 0,
                {}
                lemma_p2_53();
            }
            v = v * 2;
            proof {
                assert(mm * p2(j as nat + 1) == 2 * (mm * p2(j as nat))) by (nonlinear_arith);
            }
            j = j + 1;
        }
        proof {
            lemma_p2_mono((52 - h) as nat, 52);
            lemma_p2_pos((52 - h) as nat);
            lemma_p2_add(h as nat, (52 - h) as nat);
            assert(p2(h as nat) * p2((52 - h) as nat) <= mm * p2((52 - h) as nat)) by (nonlinear_arith)
                requires
                    p2(h as nat) <= mm,
            {}
            assert(mm * p2((52 - h) as nat) < p2(h as nat + 1) * p2((52 - h) as nat)) by (nonlinear_arith)
                requires
                    mm < p2(h as nat + 1),
                    p2((52 - h) as nat) > 0,
            {}
            lemma_p2_add(h as nat + 1, (52 - h) as nat);
            lemma_p2_53();
        }
        let frac: u64 = (v - 0x10_0000_0000_0000) as u64;
        let exp: u64 = h + 1023;
        return sign + exp * 0x10_0000_0000_0000 + frac;
    }
    // h > 52: q = m / 2^s, r = m % 2^s
    let s: u64 = h - 52;
    let mut q: u128 = m;
    let mut r: u128 = 0;
    let mut p: u128 = 1;
    let mut j: u64 = 0;
    while j < s
        invariant
            j <= s,
            s == h - 52,
            52 < h <= 127,
            p as nat == p2(j as nat),
            mm == q * p2(j as nat) + r,
            r < p2(j as nat),
            p2(h as nat) <= mm,
            mm < p2(h as nat + 1),
            mm <= 170141183460469231731687303715884105728,
        decreases s - j,
    {
        proof {
            lemma_p2_mono(j as nat + 1, h as nat);
        }
        let ghost q0 = q as nat;
        let ghost r0 = r as nat;
        let ghost pj = p2(j as nat);
        proof {
            assert(p2(j as nat + 1) == 2 * pj);
        }
        let bit = q % 2;
        let add: u128 = if bit == 1 { p } else { 0 };
        proof {
            assert(add as nat == bit as nat * pj);
            assert(r + add < 2 * pj);
            lemma_p2_127();
        }
        r = r + add;
        q = q / 2;
        p = p * 2;
        proof {
            assert(q0 == 2 * (q as nat) + bit as nat);
            assert(mm == (q as nat) * (2 * pj) + r as nat) by (nonlinear_arith)
                requires
                    mm == q0 * pj + r0,
                    q0 == 2 * (q as nat) + bit as nat,
                    r as nat == r0 + bit as nat * pj,
            {}
        }
        j = j + 1;
    }
    proof {
        lemma_p2_add(52, s as nat);
        lemma_p2_add(53, s as nat);
        vstd::arithmetic::div_mod::lemma_fundamental_div_mod_converse(
            mm as int,
            p2(s as nat) as int,
            q as int,
            r as int,
        );
        assert(p2(52) * p2(s as nat) <= (q as nat) * p2(s as nat) + r as nat);
        assert((q as nat) * p2(s as nat) + (r as nat) < p2(53) * p2(s as nat));
        assert(p2(52) <= q) by (nonlinear_arith)
            requires
                p2(52) * p2(s as nat) <= (q as nat) * p2(s as nat) + r as nat,
                r < p2(s as nat),
        {}
        assert(q < p2(53)) by (nonlinear_arith)
            requires
                (q as nat) * p2(s as nat) + (r as nat) < p2(53) * p2(s as nat),
                r >= 0,
        {}
        lemma_p2_53();
        assert(p2(s as nat) == 2 * p2((s - 1) as nat));
    }
    let half = p / 2;
    let q2 = if r > half || (r == half && q % 2 == 1) { q + 1 } else { q };
    let exp: u64;
    let frac: u64;
    if q2 == 0x20_0000_0000_0000 {
        exp = h + 1024;
        frac = 0;
    } else {
        exp = h + 1023;
        frac = (q2 - 0x10_0000_0000_0000) as u64;
    }
    sign + exp * 0x10_0000_0000_0000 + frac
}

pub proof fn lemma_p2_pos(e: nat)
    ensures
        p2(e) >= 1,
    decreases e,
{
    if e > 0 {
        lemma_p2_pos((e - 1) as nat);
    }
}

pub proof fn lemma_p2_add(a: nat, b: nat)
    ensures
        p2(a + b) == p2(a) * p2(b),
    decreases b,
{
    if b > 0 {
        let bm = (b - 1) as nat;
        lemma_p2_add(a, bm);
        let x = p2(a);
        let y = p2(bm);
        assert((a + b - 1) as nat == a + bm);
        assert(p2(a + b) == 2 * p2(a + bm));
        assert(p2(b) == 2 * y);
        assert(x * (2 * y) == 2 * (x * y)) by (nonlinear_arith);
        assert(p2(a + bm) == x * y);
        assert(p2(a + b) == 2 * (x * y));
        assert(p2(a) * p2(b) == x * (2 * y));
    } else {
        assert(p2(0) == 1);
        assert(a + b == a);
    }
}

pub proof fn lemma_p2_127()
    ensures
        p2(127) == 170141183460469231731687303715884105728,
{
    reveal_with_fuel(p2, 17);
    assert(p2(16) == 0x1_0000);
    assert(p2(15) == 0x8000);
    lemma_p2_add(16, 16);
    assert(p2(32) == 0x1_0000_0000);
    lemma_p2_add(32, 32);
    assert(p2(64) == 0x1_0000_0000_0000_0000);
    lemma_p2_add(64, 32);
    assert(p2(96) == 0x1_0000_0000_0000_0000_0000_0000);
    lemma_p2_add(96, 16);
    assert(p2(112) == 0x1_0000_0000_0000_0000_0000_0000_0000);
    lemma_p2_add(112, 15);
}

pub proof fn lemma_p2_53()
    ensures
        p2(52) == 0x10_0000_0000_0000,
        p2(53) == 0x20_0000_0000_0000,
{
    reveal_with_fuel(p2, 17);
    assert(p2(16) == 0x1_0000);
    assert(p2(4) == 0x10);
    assert(p2(5) == 0x20);
    lemma_p2_add(16, 16);
    lemma_p2_add(32, 16);
    lemma_p2_add(48, 4);
    lemma_p2_add(48, 5);
}

} // verus!
