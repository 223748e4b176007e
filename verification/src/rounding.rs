//! Numbers rounded to 53 significant bits, the way a double-precision number
//! holds them: to the nearest, ties to the even one. Computed in integers of any
//! length, so a decimal fraction of any length is rounded once and exactly.

use crate::hash;
use vstd::arithmetic::power2;
use vstd::prelude::*;

verus! {

// ---------------------------------------------------------------------------
// What rounding is.

/// `n / d` measured in units of `2^e`, as a ratio.
pub open spec fn in_units(n: nat, d: nat, e: int) -> (nat, nat) {
    if e >= 0 {
        (n, d * power2::pow2(e as nat))
    } else {
        (n * power2::pow2((-e) as nat), d)
    }
}

/// `2^e` is the unit of the last of 53 significant bits of `n / d`.
pub open spec fn is_unit(n: nat, d: nat, e: int) -> bool {
    let (a, b) = in_units(n, d, e);
    power2::pow2(52) * b <= a && a < power2::pow2(53) * b
}

/// The integer nearest to `a / b`; of two equally near, the even one.
pub open spec fn nearest(a: nat, b: nat) -> nat {
    let q = a / b;
    let r = a % b;
    if 2 * r < b || (2 * r == b && q % 2 == 0) {
        q
    } else {
        q + 1
    }
}

/// `n / d` rounded to 53 significant bits, as a ratio.
pub open spec fn rounded(n: nat, d: nat) -> (nat, nat) {
    if n == 0 {
        (0, 1)
    } else {
        let e = choose|e: int| is_unit(n, d, e);
        let (a, b) = in_units(n, d, e);
        let m = nearest(a, b);
        if e >= 0 {
            (m * power2::pow2(e as nat), 1)
        } else {
            (m, power2::pow2((-e) as nat))
        }
    }
}

/// The unit is the only one.
proof fn lemma_unit_is_unique(n: nat, d: nat, e: int, f: int)
    requires
        d > 0,
        is_unit(n, d, e),
        is_unit(n, d, f),
    ensures
        e == f,
{
    if e < f {
        lemma_larger_unit(n, d, e, f);
    } else if f < e {
        lemma_larger_unit(n, d, f, e);
    }
}

proof fn lemma_units_positive(n: nat, d: nat, e: int)
    requires
        d > 0,
    ensures
        in_units(n, d, e).1 > 0,
{
    if e >= 0 {
        let p = power2::pow2(e as nat);
        power2::lemma_pow2_pos(e as nat);
        assert(d * p > 0) by (nonlinear_arith)
            requires
                d > 0,
                p > 0,
        ;
    }
}

/// Measured in a larger unit, the number has fewer bits.
proof fn lemma_larger_unit(n: nat, d: nat, e: int, f: int)
    requires
        d > 0,
        e < f,
        is_unit(n, d, e),
    ensures
        !is_unit(n, d, f),
{
    let k = (f - e) as nat;
    let (a, b) = in_units(n, d, e);
    let (x, y) = in_units(n, d, f);
    power2::lemma_pow2_pos(k);
    power2::lemma_pow2_unfold(k);
    power2::lemma_pow2_pos((k - 1) as nat);
    let p = power2::pow2(k);
    // x / y == (a / b) / 2^k
    assert(x * b * p == a * y) by {
        if e >= 0 {
            power2::lemma_pow2_adds(e as nat, k);
            let pe = power2::pow2(e as nat);
            assert(n * (d * pe) * p == n * (d * (pe * p))) by (nonlinear_arith);
        } else if f <= 0 {
            power2::lemma_pow2_adds((-f) as nat, k);
            let pf = power2::pow2((-f) as nat);
            if f == 0 {
                power2::lemma2_to64();
                assert(d * power2::pow2(0) == d) by (nonlinear_arith)
                    requires
                        power2::pow2(0) == 1,
                ;
                assert(n * d * p == (n * p) * d) by (nonlinear_arith);
                assert(n * power2::pow2((-e) as nat) == n * p);
            } else {
                assert((n * pf) * d * p == (n * (pf * p)) * d) by (nonlinear_arith);
            }
        } else {
            let pf = power2::pow2(f as nat);
            let pe = power2::pow2((-e) as nat);
            power2::lemma_pow2_adds(f as nat, (-e) as nat);
            assert(n * d * (pf * pe) == (n * pe) * (d * pf)) by (nonlinear_arith);
        }
    }
    lemma_units_positive(n, d, e);
    lemma_units_positive(n, d, f);
    let q = power2::pow2((k - 1) as nat);
    power2::lemma_pow2_unfold(53);
    let c = power2::pow2(52);
    assert(x < c * y) by (nonlinear_arith)
        requires
            x * b * p == a * y,
            a < (2 * c) * b,
            p == 2 * q,
            q >= 1,
            b > 0,
            y > 0,
    ;
}

// ---------------------------------------------------------------------------
// Natural numbers of any length.

/// `2^32`, the base of the limbs.
pub const BASE: u64 = 0x1_0000_0000;

/// The weight of limb `i`.
pub open spec fn weight(i: nat) -> nat
    decreases i,
{
    if i == 0 {
        1
    } else {
        weight((i - 1) as nat) * BASE as nat
    }
}

/// Limb `i`, zero past the end.
pub open spec fn limb(limbs: Seq<u32>, i: int) -> nat {
    if 0 <= i < limbs.len() {
        limbs[i] as nat
    } else {
        0
    }
}

/// The number made of the first `n` limbs.
pub open spec fn value_to(limbs: Seq<u32>, n: nat) -> nat
    decreases n,
{
    if n == 0 {
        0
    } else {
        value_to(limbs, (n - 1) as nat) + limb(limbs, n - 1) * weight((n - 1) as nat)
    }
}

proof fn lemma_same_limbs(a: Seq<u32>, b: Seq<u32>, n: nat)
    requires
        forall|i: int| 0 <= i < n ==> limb(a, i) == limb(b, i),
    ensures
        value_to(a, n) == value_to(b, n),
    decreases n,
{
    if n > 0 {
        lemma_same_limbs(a, b, (n - 1) as nat);
        assert(limb(a, n - 1) == limb(b, n - 1));
    }
}

/// Limbs past the end add nothing.
proof fn lemma_past_end(limbs: Seq<u32>, n: nat)
    requires
        limbs.len() <= n,
    ensures
        value_to(limbs, n) == value_to(limbs, limbs.len()),
    decreases n,
{
    if n > limbs.len() {
        lemma_past_end(limbs, (n - 1) as nat);
        assert(0 * weight((n - 1) as nat) == 0) by (nonlinear_arith);
    }
}

proof fn lemma_weight_positive(i: nat)
    ensures
        weight(i) > 0,
    decreases i,
{
    if i > 0 {
        lemma_weight_positive((i - 1) as nat);
    }
}

/// The first `n` limbs make a number below the weight of the next.
proof fn lemma_value_bound(limbs: Seq<u32>, n: nat)
    ensures
        value_to(limbs, n) < weight(n),
    decreases n,
{
    if n > 0 {
        let m = (n - 1) as nat;
        lemma_value_bound(limbs, m);
        let (v, l, w) = (value_to(limbs, m), limb(limbs, m as int), weight(m));
        assert(v + l * w < w * BASE) by (nonlinear_arith)
            requires
                v < w,
                l < BASE,
        ;
    }
}

/// A natural number of any length, as limbs in base `2^32`, the lowest first.
pub struct Big {
    limbs: Vec<u32>,
}

impl View for Big {
    type V = nat;

    closed spec fn view(&self) -> nat {
        value_to(self.limbs@, self.limbs@.len())
    }
}

impl Big {
    pub fn zero() -> (r: Self)
        ensures
            r@ == 0,
    {
        Big { limbs: Vec::new() }
    }

    pub fn one() -> (r: Self)
        ensures
            r@ == 1,
    {
        let mut r = Big::zero();
        r.mul_add(1, 1);
        r
    }

    /// `self * m + a`.
    pub fn mul_add(&mut self, m: u64, a: u64)
        ensures
            final(self)@ == old(self)@ * m + a,
    {
        let ghost before = self.limbs@;
        let n = self.limbs.len();
        let mut carry: u64 = a;
        proof {
            assert(value_to(self.limbs@, 0) + carry * weight(0) == value_to(before, 0) * m + a)
                by (nonlinear_arith)
                requires
                    value_to(self.limbs@, 0) == 0,
                    value_to(before, 0) == 0,
                    weight(0) == 1,
                    carry == a,
            ;
        }
        for i in 0..n
            invariant
                n == before.len(),
                self.limbs@.len() == n,
                forall|k: int| i <= k < n ==> self.limbs@[k] == before[k],
                value_to(self.limbs@, i as nat) + carry * weight(i as nat) == value_to(
                    before,
                    i as nat,
                ) * m + a,
        {
            let x = self.limbs[i];
            let ghost old_limbs = self.limbs@;
            proof {
                assert((x as int) * (m as int) + (carry as int) <= 0xffff_ffff_ffff_ffff_ffff_ffff)
                    by (nonlinear_arith)
                    requires
                        x <= 0xffff_ffff,
                        m <= 0xffff_ffff_ffff_ffff,
                        carry <= 0xffff_ffff_ffff_ffff,
                ;
                assert((x as int) * (m as int) >= 0) by (nonlinear_arith);
            }
            let t: u128 = x as u128 * m as u128 + carry as u128;
            let low = (t % 0x1_0000_0000) as u32;
            let next = (t / 0x1_0000_0000) as u64;
            self.limbs.set(i, low);
            proof {
                lemma_same_limbs(self.limbs@, old_limbs, i as nat);
                let w = weight(i as nat);
                let v = value_to(self.limbs@, i as nat);
                let u = value_to(before, i as nat);
                assert(t == next * 0x1_0000_0000 + low);
                assert(v + low * w + next * (w * BASE) == (u + x * w) * m + a) by (nonlinear_arith)
                    requires
                        v + carry * w == u * m + a,
                        x * m + carry == next * 0x1_0000_0000 + low,
                        BASE == 0x1_0000_0000,
                ;
            }
            carry = next;
        }
        let ghost mid = self.limbs@;
        let low = (carry % 0x1_0000_0000) as u32;
        let high = (carry / 0x1_0000_0000) as u32;
        self.limbs.push(low);
        self.limbs.push(high);
        proof {
            let l = self.limbs@;
            lemma_same_limbs(l, mid, n as nat);
            let w = weight(n as nat);
            let v = value_to(mid, n as nat);
            assert(limb(l, n as int) == low && limb(l, n + 1) == high);
            assert(value_to(l, (n + 1) as nat) == v + low * w);
            assert(weight((n + 1) as nat) == w * BASE);
            assert(value_to(l, (n + 2) as nat) == v + low * w + high * (w * BASE));
            assert(v + low * w + high * (w * BASE) == v + carry * w) by (nonlinear_arith)
                requires
                    carry == high * 0x1_0000_0000 + low,
                    BASE == 0x1_0000_0000,
            ;
        }
    }

    /// `self - other`, or `None` where that is negative.
    pub fn minus(&self, other: &Big) -> (r: Option<Big>)
        ensures
            r is Some <==> self@ >= other@,
            r matches Some(d) ==> d@ == self@ - other@,
    {
        let n: usize = if self.limbs.len() < other.limbs.len() {
            other.limbs.len()
        } else {
            self.limbs.len()
        };
        let ghost a = self.limbs@;
        let ghost b = other.limbs@;
        let mut out: Vec<u32> = Vec::new();
        let mut borrow: u64 = 0;
        for i in 0..n
            invariant
                a == self.limbs@,
                b == other.limbs@,
                out@.len() == i,
                borrow <= 1,
                value_to(out@, i as nat) + value_to(b, i as nat) == value_to(a, i as nat) + borrow
                    * weight(i as nat),
        {
            let x: u64 = if i < self.limbs.len() { self.limbs[i] as u64 } else { 0 };
            let y: u64 = if i < other.limbs.len() { other.limbs[i] as u64 } else { 0 };
            let ghost old_out = out@;
            let ghost old_borrow = borrow;
            let t = x + BASE - y - borrow;
            let digit: u32;
            let next: u64;
            if t >= BASE {
                digit = (t - BASE) as u32;
                next = 0;
            } else {
                digit = t as u32;
                next = 1;
            }
            out.push(digit);
            borrow = next;
            proof {
                lemma_same_limbs(out@, old_out, i as nat);
                let w = weight(i as nat);
                let (v, ub, ua) = (
                    value_to(old_out, i as nat),
                    value_to(b, i as nat),
                    value_to(a, i as nat),
                );
                assert(limb(out@, i as int) == digit);
                assert(digit + y + old_borrow == x + next * BASE);
                assert(v + digit * w + (ub + y * w) == ua + x * w + next * (w * BASE))
                    by (nonlinear_arith)
                    requires
                        v + ub == ua + old_borrow * w,
                        digit + y + old_borrow == x + next * BASE,
                ;
            }
        }
        proof {
            lemma_past_end(a, n as nat);
            lemma_past_end(b, n as nat);
            lemma_value_bound(out@, n as nat);
            lemma_weight_positive(n as nat);
            let w = weight(n as nat);
            assert(borrow * w == if borrow == 0 {
                0
            } else {
                w as int
            }) by (nonlinear_arith)
                requires
                    borrow <= 1,
            ;
        }
        if borrow == 0 {
            Some(Big { limbs: out })
        } else {
            None
        }
    }

    /// Whether the number is zero.
    pub fn is_zero(&self) -> (r: bool)
        ensures
            r == (self@ == 0),
    {
        for i in 0..self.limbs.len()
            invariant
                value_to(self.limbs@, i as nat) == 0,
        {
            if self.limbs[i] != 0 {
                proof {
                    lemma_weight_positive(i as nat);
                    let w = weight(i as nat);
                    let x = self.limbs@[i as int];
                    assert(x * w > 0) by (nonlinear_arith)
                        requires
                            x > 0,
                            w > 0,
                    ;
                    lemma_value_grows(self.limbs@, (i + 1) as nat, self.limbs@.len());
                }
                return false;
            }
            proof {
                let w = weight(i as nat);
                assert(0 * w == 0) by (nonlinear_arith);
            }
        }
        true
    }
}

proof fn lemma_value_grows(limbs: Seq<u32>, m: nat, n: nat)
    requires
        m <= n,
    ensures
        value_to(limbs, m) <= value_to(limbs, n),
    decreases n,
{
    if m < n {
        lemma_value_grows(limbs, m, (n - 1) as nat);
        let l = limb(limbs, n - 1);
        let w = weight((n - 1) as nat);
        assert(l * w >= 0) by (nonlinear_arith);
    }
}

// ---------------------------------------------------------------------------
// Dividing and rounding.

/// Long division in base two: `bits` bits of `n / (2 * t)` times `2^bits`, and
/// what is left.
fn divide(n: Big, t: &Big, bits: u32) -> (r: (u64, Big))
    requires
        n@ < 2 * t@,
        bits <= 64,
    ensures
        n@ * power2::pow2(bits as nat) == 2 * t@ * r.0 + r.1@,
        r.1@ < 2 * t@,
{
    let ghost whole = n@;
    let mut rest = n;
    let mut q: u64 = 0;
    proof {
        power2::lemma2_to64();
        assert(whole * 1 == 2 * t@ * 0 + rest@) by (nonlinear_arith)
            requires
                whole == rest@,
        ;
    }
    for i in 0..bits
        invariant
            bits <= 64,
            whole * power2::pow2(i as nat) == 2 * t@ * q + rest@,
            rest@ < 2 * t@,
            q < power2::pow2(i as nat),
    {
        proof {
            power2::lemma2_to64();
            power2::lemma2_to64_rest();
            power2::lemma_pow2_unfold((i + 1) as nat);
            if i + 1 < 64 {
                power2::lemma_pow2_strictly_increases((i + 1) as nat, 64);
            }
        }
        let ghost (v, p, w, tt) = (rest@, q as int, power2::pow2(i as nat), t@);
        match rest.minus(t) {
            Some(less) => {
                rest = less;
                q = 2 * q + 1;
                proof {
                    assert(whole * (2 * w) == 2 * tt * (2 * p + 1) + (v - tt) * 2)
                        by (nonlinear_arith)
                        requires
                            whole * w == 2 * tt * p + v,
                    ;
                }
            },
            None => {
                q = 2 * q;
                proof {
                    assert(whole * (2 * w) == 2 * tt * (2 * p) + v * 2) by (nonlinear_arith)
                        requires
                            whole * w == 2 * tt * p + v,
                    ;
                }
            },
        }
        rest.mul_add(2, 0);
    }
    (q, rest)
}

/// A quotient and a remainder scaled by `p` are those of the unscaled numbers.
proof fn lemma_scaled_division(n: int, d: int, p: int, q: int, r: int)
    requires
        d > 0,
        p > 0,
        n * p == d * p * q + r,
        0 <= r < d * p,
    ensures
        n / d == q,
        n % d == n - d * q,
        r == p * (n % d),
{
    let rem = n - d * q;
    assert(r == p * rem) by (nonlinear_arith)
        requires
            n * p == d * p * q + r,
            rem == n - d * q,
    ;
    assert(0 <= rem < d) by (nonlinear_arith)
        requires
            p > 0,
            r == p * rem,
            0 <= r < d * p,
    ;
    assert(n == q * d + rem) by (nonlinear_arith)
        requires
            rem == n - d * q,
    ;
    vstd::arithmetic::div_mod::lemma_fundamental_div_mod_converse(n, d, q, rem);
}

/// `n / d` rounded to 53 significant bits: the bits, and the unit they are in as
/// a ratio of which one side is one.
fn round(n: Big, d: Big) -> (r: (u64, Big, Big, Ghost<int>))
    requires
        n@ > 0,
        d@ > 0,
    ensures
        is_unit(n@, d@, r.3@),
        r.0 == nearest(in_units(n@, d@, r.3@).0, in_units(n@, d@, r.3@).1),
        r.1@ == (if r.3@ >= 0 {
            power2::pow2(r.3@ as nat)
        } else {
            1
        }),
        r.2@ == (if r.3@ >= 0 {
            1
        } else {
            power2::pow2((-r.3@) as nat)
        }),
        r.0 > 0,
{
    let ghost n0 = n@;
    let ghost d0 = d@;
    proof {
        power2::lemma2_to64();
        power2::lemma2_to64_rest();
    }
    let mut top = n;
    let mut t = d;
    t.mul_add(0x10_0000_0000_0000, 0);
    let mut up = Big::one();
    let mut down = Big::one();
    let ghost mut ups: nat = 0;
    let ghost mut downs: nat = 0;
    let ghost c = power2::pow2(52);
    proof {
        assert(c == 0x10_0000_0000_0000);
        assert(power2::pow2(0) == 1);
        assert(t@ == d0 * c);
        assert(d0 * c > 0) by (nonlinear_arith)
            requires
                d0 > 0,
                c > 0,
        ;
        assert(d0 * c * 1 == d0 * c) by (nonlinear_arith);
    }
    loop
        invariant
            top@ == n0,
            n0 > 0,
            d0 > 0,
            c == power2::pow2(52),
            t@ == d0 * c * power2::pow2(ups),
            t@ > 0,
            up@ == power2::pow2(ups),
            ups > 0 ==> t@ <= top@,
        ensures
            top@ == n0,
            t@ == d0 * c * power2::pow2(ups),
            t@ > 0,
            up@ == power2::pow2(ups),
            ups > 0 ==> t@ <= top@,
            top@ < 2 * t@,
        decreases top@ - t@,
    {
        let again = match top.minus(&t) {
            Some(less) => less.minus(&t).is_some(),
            None => false,
        };
        if !again {
            break;
        }
        let ghost (w, base) = (power2::pow2(ups), d0 * c);
        t.mul_add(2, 0);
        up.mul_add(2, 0);
        proof {
            power2::lemma_pow2_unfold(ups + 1);
            ups = ups + 1;
            assert(base * w * 2 == base * (2 * w)) by (nonlinear_arith);
        }
    }
    proof {
        assert(n0 * 1 == n0) by (nonlinear_arith);
    }
    loop
        invariant
            n0 > 0,
            d0 > 0,
            top@ > 0,
            power2::pow2(0) == 1,
            top@ == n0 * power2::pow2(downs),
            down@ == power2::pow2(downs),
            ups > 0 ==> downs == 0,
            ups > 0 ==> t@ <= top@,
            t@ > 0,
            top@ < 2 * t@,
        ensures
            top@ == n0 * power2::pow2(downs),
            down@ == power2::pow2(downs),
            ups > 0 ==> downs == 0,
            t@ <= top@ < 2 * t@,
        decreases 2 * t@ - top@,
    {
        if top.minus(&t).is_some() {
            break;
        }
        let ghost w = power2::pow2(downs);
        top.mul_add(2, 0);
        down.mul_add(2, 0);
        proof {
            power2::lemma_pow2_unfold(downs + 1);
            downs = downs + 1;
            assert(n0 * w * 2 == n0 * (2 * w)) by (nonlinear_arith);
        }
    }
    let ghost e = ups - downs;
    let ghost scaled = top@;
    let ghost per = d0 * power2::pow2(ups);
    let (bits, rest) = divide(top, &t, 53);
    proof {
        power2::lemma_pow2_pos(ups);
        power2::lemma_pow2_unfold(53);
        let w = power2::pow2(ups);
        let p = power2::pow2(53);
        assert(per > 0) by (nonlinear_arith)
            requires
                per == d0 * w,
                d0 > 0,
                w > 0,
        ;
        assert(t@ == per * c) by (nonlinear_arith)
            requires
                t@ == d0 * c * w,
                per == d0 * w,
        ;
        assert(2 * t@ == per * p) by (nonlinear_arith)
            requires
                t@ == per * c,
                p == 2 * c,
        ;
        assert(per * 1 == per && d0 * 1 == d0) by (nonlinear_arith);
        assert(in_units(n0, d0, e) == (scaled, per));
        lemma_scaled_division(scaled as int, per as int, p as int, bits as int, rest@ as int);
        let rem = scaled % per;
        assert(rest@ == p * rem);
        assert(rest@ < t@ <==> 2 * rem < per) by (nonlinear_arith)
            requires
                rest@ == p * rem,
                t@ == per * c,
                p == 2 * c,
                c > 0,
        ;
        assert(rest@ == t@ <==> 2 * rem == per) by (nonlinear_arith)
            requires
                rest@ == p * rem,
                t@ == per * c,
                p == 2 * c,
                c > 0,
        ;
        assert(c * per <= scaled && scaled < p * per) by (nonlinear_arith)
            requires
                t@ <= scaled < 2 * t@,
                t@ == per * c,
                p == 2 * c,
        ;
        assert(bits >= c) by (nonlinear_arith)
            requires
                scaled == per * bits + rem,
                0 <= rem < per,
                c * per <= scaled,
        ;
        assert(bits < p) by (nonlinear_arith)
            requires
                scaled == per * bits + rem,
                0 <= rem,
                scaled < p * per,
                per > 0,
        ;
    }
    let m = match rest.minus(&t) {
        None => bits,
        Some(over) => if over.is_zero() && bits % 2 == 0 {
            bits
        } else {
            bits + 1
        },
    };
    (m, up, down, Ghost(e))
}

/// `n / d` rounded to 53 bits, times `factor`, rounded again, cut to an integer
/// and held at `u64::MAX`.
pub open spec fn scaled_size(n: nat, d: nat, factor: nat) -> nat {
    let (a, b) = rounded(n, d);
    let (x, y) = rounded(a * factor, b);
    if x / y > u64::MAX {
        u64::MAX as nat
    } else {
        x / y
    }
}

/// What rounding gives, from the unit found.
proof fn lemma_rounded(n: nat, d: nat, e: int)
    requires
        n > 0,
        d > 0,
        is_unit(n, d, e),
    ensures
        rounded(n, d) == ({
            let (a, b) = in_units(n, d, e);
            let m = nearest(a, b);
            if e >= 0 {
                (m * power2::pow2(e as nat), 1nat)
            } else {
                (m, power2::pow2((-e) as nat))
            }
        }),
{
    let f = choose|f: int| is_unit(n, d, f);
    lemma_unit_is_unique(n, d, e, f);
}

/// `n / d` times `factor`, as a double-precision number would come out, cut to
/// an integer.
pub fn scale(n: Big, d: Big, factor: u64) -> (r: u64)
    requires
        d@ > 0,
        factor > 0,
    ensures
        r == scaled_size(n@, d@, factor as nat),
{
    let ghost (n0, d0) = (n@, d@);
    if n.is_zero() {
        proof {
            assert(0 * (factor as nat) == 0) by (nonlinear_arith);
            vstd::arithmetic::div_mod::lemma_div_basics(1);
        }
        return 0;
    }
    let (bits, up, down, Ghost(e)) = round(n, d);
    proof {
        lemma_rounded(n0, d0, e);
        power2::lemma_pow2_pos(if e >= 0 {
            e as nat
        } else {
            (-e) as nat
        });
    }
    let mut num = up;
    let ghost unit = num@;
    num.mul_add(bits, 0);
    num.mul_add(factor, 0);
    let ghost (a, b) = rounded(n0, d0);
    proof {
        assert(unit * bits == a) by (nonlinear_arith)
            requires
                a == (if e >= 0 {
                    bits * unit
                } else {
                    bits as int
                }),
                e < 0 ==> unit == 1,
        ;
        assert(num@ == a * factor);
        assert(a > 0) by (nonlinear_arith)
            requires
                a == unit * bits,
                unit > 0,
                bits > 0,
        ;
        assert(a * factor > 0) by (nonlinear_arith)
            requires
                a > 0,
                factor > 0,
        ;
        assert(down@ == b);
    }
    let ghost (num0, den0) = (num@, down@);
    let (bits2, up2, down2, Ghost(f)) = round(num, down);
    proof {
        lemma_rounded(num0, den0, f);
        power2::lemma_pow2_pos(if f >= 0 {
            f as nat
        } else {
            (-f) as nat
        });
        power2::lemma2_to64();
        power2::lemma2_to64_rest();
    }
    let ghost (x, y) = rounded(num0, den0);
    let mut top = up2;
    let ghost unit2 = top@;
    top.mul_add(bits2, 0);
    proof {
        assert(unit2 * bits2 == x) by (nonlinear_arith)
            requires
                x == (if f >= 0 {
                    bits2 * unit2
                } else {
                    bits2 as int
                }),
                f < 0 ==> unit2 == 1,
        ;
        assert(top@ == x);
        assert(down2@ == y);
    }
    let mut t = down2;
    t.mul_add(0x8000_0000_0000_0000, 0);
    let ghost p = power2::pow2(64);
    proof {
        assert(2 * t@ == y * p) by (nonlinear_arith)
            requires
                t@ == y * 0x8000_0000_0000_0000int,
                p == 0x1_0000_0000_0000_0000int,
        ;
    }
    let too_large = match top.minus(&t) {
        Some(less) => less.minus(&t).is_some(),
        None => false,
    };
    if too_large {
        proof {
            let q = x / y;
            vstd::arithmetic::div_mod::lemma_fundamental_div_mod(x as int, y as int);
            let rem = x % y;
            assert(q >= p) by (nonlinear_arith)
                requires
                    x == y * q + rem,
                    0 <= rem < y,
                    x >= y * p,
                    y > 0,
            ;
        }
        return u64::MAX;
    }
    let (q, rest) = divide(top, &t, 64);
    proof {
        lemma_scaled_division(x as int, y as int, p as int, q as int, rest@ as int);
    }
    q
}

/// A number below `2^53` can be brought to 53 bits by doubling.
proof fn lemma_fill_bits(v: nat) -> (k: nat)
    requires
        0 < v < power2::pow2(53),
    ensures
        power2::pow2(52) <= v * power2::pow2(k) < power2::pow2(53),
    decreases power2::pow2(53) - v,
{
    power2::lemma2_to64();
    power2::lemma_pow2_unfold(53);
    if v >= power2::pow2(52) {
        assert(v * 1 == v) by (nonlinear_arith);
        0
    } else {
        let k = lemma_fill_bits(2 * v);
        power2::lemma_pow2_unfold(k + 1);
        let w = power2::pow2(k);
        assert(2 * v * w == v * (2 * w)) by (nonlinear_arith);
        k + 1
    }
}

/// `2^53` is not changed by rounding.
proof fn lemma_exact_limit(p: nat)
    requires
        p > 0,
    ensures
        rounded(power2::pow2(53) * p, p).1 > 0,
        rounded(power2::pow2(53) * p, p).0 == power2::pow2(53) * rounded(
            power2::pow2(53) * p,
            p,
        ).1,
{
    power2::lemma2_to64();
    power2::lemma2_to64_rest();
    let (half, limit) = (power2::pow2(52), power2::pow2(53));
    let n = limit * p;
    let (a, b) = in_units(n, p, 1);
    assert(n > 0 && b == p * 2 && half * b == n && n < limit * b) by (nonlinear_arith)
        requires
            n == limit * p,
            b == p * power2::pow2(1),
            power2::pow2(1) == 2,
            limit == half * 2,
            half > 0,
            p > 0,
    ;
    lemma_rounded(n, p, 1);
    assert(n == b * half) by (nonlinear_arith)
        requires
            half * b == n,
    ;
    vstd::arithmetic::div_mod::lemma_fundamental_div_mod_converse(
        n as int,
        b as int,
        half as int,
        0,
    );
    assert(half * 2 == limit && limit * 1 == limit);
}

/// A whole number up to `2^53` is not changed by rounding.
proof fn lemma_exact(v: nat, p: nat)
    requires
        0 < v <= power2::pow2(53),
        p > 0,
    ensures
        rounded(v * p, p).1 > 0,
        rounded(v * p, p).0 == v * rounded(v * p, p).1,
{
    if v == power2::pow2(53) {
        lemma_exact_limit(p);
    } else {
        lemma_exact_below(v, p);
    }
}

/// A whole number below `2^53` is not changed by rounding.
proof fn lemma_exact_below(v: nat, p: nat)
    requires
        0 < v < power2::pow2(53),
        p > 0,
    ensures
        rounded(v * p, p).1 > 0,
        rounded(v * p, p).0 == v * rounded(v * p, p).1,
{
    let k = lemma_fill_bits(v);
    let w = power2::pow2(k);
    let n = v * p;
    power2::lemma_pow2_pos(k);
    power2::lemma2_to64();
    assert(n > 0) by (nonlinear_arith)
        requires
            n == v * p,
            v > 0,
            p > 0,
    ;
    let (a, b) = in_units(n, p, -(k as int));
    assert(a == (v * w) * p && b == p) by {
        assert(v * p * w == (v * w) * p) by (nonlinear_arith);
        if k == 0 {
            assert(p * 1 == p && v * 1 == v) by (nonlinear_arith);
        }
    }
    let (lo, hi, m) = (power2::pow2(52), power2::pow2(53), v * w);
    assert(lo * p <= m * p && m * p < hi * p) by (nonlinear_arith)
        requires
            lo <= m < hi,
            p > 0,
    ;
    lemma_rounded(n, p, -(k as int));
    assert(m * p == p * m) by (nonlinear_arith);
    vstd::arithmetic::div_mod::lemma_fundamental_div_mod_converse(
        (m * p) as int,
        p as int,
        m as int,
        0,
    );
    assert(v * 1 == v) by (nonlinear_arith);
}

/// Sizes in the range where double-precision numbers are exact come out exact: a
/// whole number times its unit, as long as the product is at most `2^53`.
pub proof fn law_whole_sizes_are_exact(n: nat, factor: nat)
    requires
        0 < n,
        0 < factor,
        n * factor <= power2::pow2(53),
    ensures
        scaled_size(n, 1, factor) == n * factor,
{
    power2::lemma2_to64_rest();
    assert(n <= n * factor) by (nonlinear_arith)
        requires
            0 < factor,
    ;
    assert(n * factor > 0) by (nonlinear_arith)
        requires
            0 < factor,
            0 < n,
    ;
    lemma_exact(n, 1);
    assert(n * 1 == n) by (nonlinear_arith);
    let (a, b) = rounded(n, 1);
    assert(a * factor == (n * factor) * b) by (nonlinear_arith)
        requires
            a == n * b,
    ;
    lemma_exact(n * factor, b);
    let (x, y) = rounded(a * factor, b);
    let v = n * factor;
    vstd::arithmetic::div_mod::lemma_fundamental_div_mod_converse(
        x as int,
        y as int,
        v as int,
        0,
    );
}

/// The nearest integer is nearest: no other is nearer to `a / b`, and where one is as near,
/// it is the even one of the two that was taken.
pub proof fn law_nearest_is_nearest(a: nat, b: nat, other: int)
    requires
        b > 0,
    ensures
        ({
            let q = nearest(a, b) as int;
            let here = if a >= q * b {
                a - q * b
            } else {
                q * b - a
            };
            let there = if a >= other * b {
                a - other * b
            } else {
                other * b - a
            };
            &&& here <= there
            &&& here == there && other != q ==> q % 2 == 0
        }),
{
    let k = a as int / b as int;
    let r = a as int % b as int;
    vstd::arithmetic::div_mod::lemma_fundamental_div_mod(a as int, b as int);
    assert(b * k == k * b) by (nonlinear_arith);
    assert((k + 1) * b == k * b + b) by (nonlinear_arith);
    if other < k {
        assert(other * b <= (k - 1) * b) by (nonlinear_arith)
            requires
                other <= k - 1,
                b > 0,
        ;
        assert((k - 1) * b == k * b - b) by (nonlinear_arith);
    } else if other > k + 1 {
        assert(other * b >= (k + 2) * b) by (nonlinear_arith)
            requires
                other >= k + 2,
                b > 0,
        ;
        assert((k + 2) * b == k * b + b + b) by (nonlinear_arith);
    }
}

} // verus!
