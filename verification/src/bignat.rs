//! Natural numbers of unbounded size, held as little-endian 32-bit limbs.
//!
//! Every operation states its result as an equation over `nat`, so callers
//! reason about plain arithmetic and never about limbs.

use vstd::arithmetic::div_mod::{lemma_fundamental_div_mod, lemma_fundamental_div_mod_converse};
use vstd::arithmetic::power2::{
    lemma2_to64, lemma_pow2_adds, lemma_pow2_pos, lemma_pow2_strictly_increases, lemma_pow2_unfold,
    pow2,
};
use vstd::prelude::*;

verus! {

/// Weight of the limb at position `i`: the radix, 2^32, to the power `i`.
pub open spec fn weight(i: nat) -> nat {
    pow2(32 * i)
}

/// The number that a little-endian limb sequence denotes.
pub open spec fn limbs_value(s: Seq<u32>) -> nat
    decreases s.len(),
{
    if s.len() == 0 {
        0
    } else {
        limbs_value(s.drop_last()) + s.last() as nat * weight((s.len() - 1) as nat)
    }
}

/// The limb at position `i`, or zero past the end.
pub open spec fn limb_at(s: Seq<u32>, i: int) -> nat {
    if 0 <= i < s.len() {
        s[i] as nat
    } else {
        0
    }
}

/// Value of the lowest `i` limbs.
pub open spec fn prefix_value(s: Seq<u32>, i: int) -> nat {
    if i >= s.len() {
        limbs_value(s)
    } else if i <= 0 {
        0
    } else {
        limbs_value(s.take(i))
    }
}

/// `n` limbs that are zero.
pub open spec fn zero_limbs(n: nat) -> Seq<u32> {
    Seq::new(n, |i: int| 0u32)
}

/// Result of comparing two numbers.
#[derive(Clone, Copy, Debug, PartialEq, Eq, Structural)]
pub enum Order {
    Below,
    Same,
    Above,
}

/// How `a` stands to `b`.
pub open spec fn order_of(a: int, b: int) -> Order {
    if a < b {
        Order::Below
    } else if a == b {
        Order::Same
    } else {
        Order::Above
    }
}

pub proof fn lemma_weight_step(i: nat)
    ensures
        weight(i + 1) == 0x1_0000_0000 * weight(i),
        weight(i) > 0,
        weight(0) == 1,
{
    lemma2_to64();
    lemma_pow2_adds(32 * i, 32);
    lemma_pow2_pos(32 * i);
    assert(32 * (i + 1) == 32 * i + 32);
}

pub proof fn lemma_weight_adds(i: nat, j: nat)
    ensures
        weight(i + j) == weight(i) * weight(j),
{
    lemma_pow2_adds(32 * i, 32 * j);
    assert(32 * (i + j) == 32 * i + 32 * j);
}

pub proof fn lemma_value_push(s: Seq<u32>, x: u32)
    ensures
        limbs_value(s.push(x)) == limbs_value(s) + x as nat * weight(s.len()),
{
    assert(s.push(x).drop_last() =~= s);
}

pub proof fn lemma_value_bound(s: Seq<u32>)
    ensures
        limbs_value(s) < weight(s.len()),
    decreases s.len(),
{
    if s.len() == 0 {
        lemma_weight_step(0);
    } else {
        let n = (s.len() - 1) as nat;
        lemma_value_bound(s.drop_last());
        lemma_weight_step(n);
        let w = weight(n);
        let top = s.last() as nat;
        assert(top * w + w <= 0x1_0000_0000 * w) by (nonlinear_arith)
            requires
                top <= 0xFFFF_FFFF,
                w > 0,
        ;
    }
}

pub proof fn lemma_value_lower(s: Seq<u32>)
    requires
        s.len() > 0,
        s.last() != 0,
    ensures
        limbs_value(s) >= weight((s.len() - 1) as nat),
{
    let w = weight((s.len() - 1) as nat);
    let top = s.last() as nat;
    assert(top * w >= w) by (nonlinear_arith)
        requires
            top >= 1,
            w >= 0,
    ;
}

pub proof fn lemma_prefix_step(s: Seq<u32>, i: int)
    requires
        0 <= i,
    ensures
        prefix_value(s, i + 1) == prefix_value(s, i) + limb_at(s, i) * weight(i as nat),
{
    if i < s.len() {
        let t = if i + 1 >= s.len() {
            s
        } else {
            s.take(i + 1)
        };
        assert(s.take(s.len() as int) =~= s);
        assert(t =~= s.take(i + 1));
        assert(t.drop_last() =~= s.take(i));
        assert(t.last() == s[i]);
        assert(limbs_value(t) == limbs_value(t.drop_last()) + t.last() as nat * weight(i as nat));
        if i == 0 {
            assert(s.take(0).len() == 0);
            assert(limbs_value(s.take(0)) == 0);
        }
    } else {
        assert(limb_at(s, i) * weight(i as nat) == 0) by (nonlinear_arith)
            requires
                limb_at(s, i) == 0,
        ;
    }
}

pub proof fn lemma_value_front(s: Seq<u32>)
    requires
        s.len() > 0,
    ensures
        limbs_value(s) == s[0] as nat + 0x1_0000_0000 * limbs_value(s.drop_first()),
    decreases s.len(),
{
    if s.len() == 1 {
        assert(s.drop_last().len() == 0);
        assert(s.drop_first().len() == 0);
        assert(limbs_value(s.drop_last()) == 0);
        assert(limbs_value(s.drop_first()) == 0);
        lemma_weight_step(0);
        assert(s.last() as nat * weight(0) == s[0] as nat) by (nonlinear_arith)
            requires
                weight(0) == 1,
                s.last() == s[0],
        ;
    } else {
        let n = (s.len() - 1) as nat;
        let body = s.drop_last();
        lemma_value_front(body);
        assert(body.drop_first() =~= s.drop_first().drop_last());
        assert(s.drop_first().last() == s.last());
        lemma_weight_step((n - 1) as nat);
        let top = s.last() as nat;
        let w = weight((n - 1) as nat);
        assert(top * (0x1_0000_0000 * w) == 0x1_0000_0000 * (top * w)) by (nonlinear_arith);
        let inner = limbs_value(body.drop_first());
        assert(limbs_value(s.drop_first()) == inner + top * w);
        assert(limbs_value(s) == limbs_value(body) + top * weight(n));
        assert(body[0] == s[0]);
        assert(0x1_0000_0000 * (inner + top * w) == 0x1_0000_0000 * inner + 0x1_0000_0000 * (top
            * w)) by (nonlinear_arith);
    }
}

pub proof fn lemma_value_zeros(n: nat)
    ensures
        limbs_value(zero_limbs(n)) == 0,
    decreases n,
{
    if n > 0 {
        lemma_value_zeros((n - 1) as nat);
        let z = zero_limbs(n);
        assert(z.drop_last() =~= zero_limbs((n - 1) as nat));
        assert(z.last() as nat * weight((n - 1) as nat) == 0) by (nonlinear_arith)
            requires
                z.last() == 0,
        ;
    }
}

pub proof fn lemma_value_shift(n: nat, s: Seq<u32>)
    ensures
        limbs_value(zero_limbs(n) + s) == weight(n) * limbs_value(s),
    decreases s.len(),
{
    let wn = weight(n);
    if s.len() == 0 {
        assert(zero_limbs(n) + s =~= zero_limbs(n));
        lemma_value_zeros(n);
        assert(wn * 0 == 0) by (nonlinear_arith);
    } else {
        let whole = zero_limbs(n) + s;
        let k = (s.len() - 1) as nat;
        assert(whole.drop_last() =~= zero_limbs(n) + s.drop_last());
        assert(whole.last() == s.last());
        assert(whole.len() - 1 == n + k);
        lemma_value_shift(n, s.drop_last());
        lemma_weight_adds(n, k);
        let top = s.last() as nat;
        let rest = limbs_value(s.drop_last());
        let wk = weight(k);
        assert(limbs_value(whole) == wn * rest + top * weight(n + k));
        assert(limbs_value(s) == rest + top * wk);
        assert(wn * rest + top * (wn * wk) == wn * (rest + top * wk)) by (nonlinear_arith);
    }
}

/// Two sequences of one length that agree above position `i` and differ at
/// `i` are ordered as their limbs at `i` are.
pub proof fn lemma_value_order(a: Seq<u32>, b: Seq<u32>, i: int)
    requires
        a.len() == b.len(),
        0 <= i < a.len(),
        forall|j: int| i < j < a.len() ==> a[j] == b[j],
        a[i] < b[i],
    ensures
        limbs_value(a) < limbs_value(b),
    decreases a.len(),
{
    let n = (a.len() - 1) as nat;
    if i == n {
        lemma_value_bound(a.drop_last());
        let w = weight(n);
        let x = a[i] as nat;
        let y = b[i] as nat;
        assert(x * w + w <= y * w) by (nonlinear_arith)
            requires
                x < y,
                w >= 0,
        ;
    } else {
        lemma_value_order(a.drop_last(), b.drop_last(), i);
    }
}

/// An unbounded natural number.
pub struct BigNat {
    limbs: Vec<u32>,
}

impl View for BigNat {
    type V = nat;

    closed spec fn view(&self) -> nat {
        limbs_value(self.limbs@)
    }
}

/// Two to the power `k`.
fn pow2_small(k: u32) -> (r: u32)
    requires
        k < 32,
    ensures
        r == pow2(k as nat),
        r >= 1,
{
    let mut r: u32 = 1;
    let mut i: u32 = 0;
    proof {
        lemma2_to64();
    }
    while i < k
        invariant
            i <= k,
            k < 32,
            r == pow2(i as nat),
            r >= 1,
        decreases k - i,
    {
        proof {
            lemma_pow2_unfold((i + 1) as nat);
            lemma_pow2_strictly_increases((i + 1) as nat, 32);
            lemma2_to64();
        }
        r = r * 2;
        i = i + 1;
    }
    r
}

impl BigNat {
    /// The representation is canonical: the highest limb is not zero.
    pub closed spec fn wf(&self) -> bool {
        self.limbs.len() > 0 ==> self.limbs@.last() != 0
    }

    /// The number of the limbs, without zero limbs at the high end.
    fn trim(limbs: Vec<u32>) -> (r: BigNat)
        ensures
            r.wf(),
            r@ == limbs_value(limbs@),
    {
        let mut v = limbs;
        while v.len() > 0 && v[v.len() - 1] == 0
            invariant
                limbs_value(v@) == limbs_value(limbs@),
            decreases v.len(),
        {
            proof {
                assert(v@.last() as nat * weight((v.len() - 1) as nat) == 0) by (nonlinear_arith)
                    requires
                        v@.last() == 0,
                ;
            }
            v.pop();
        }
        BigNat { limbs: v }
    }

    /// The number zero.
    pub fn zero() -> (r: BigNat)
        ensures
            r.wf(),
            r@ == 0,
    {
        BigNat { limbs: Vec::new() }
    }

    /// The number `v`.
    pub fn from_u128(v: u128) -> (r: BigNat)
        ensures
            r.wf(),
            r@ == v,
    {
        let mut out: Vec<u32> = Vec::new();
        let mut rest: u128 = v;
        proof {
            lemma_weight_step(0);
            assert(rest * weight(0) == rest) by (nonlinear_arith)
                requires
                    weight(0) == 1,
            ;
        }
        while rest > 0
            invariant
                limbs_value(out@) + rest * weight(out.len() as nat) == v,
            decreases rest,
        {
            let digit = (rest % 0x1_0000_0000) as u32;
            let next = rest / 0x1_0000_0000;
            proof {
                let w = weight(out.len() as nat);
                lemma_value_push(out@, digit);
                lemma_weight_step(out.len() as nat);
                assert(digit as nat * w + next as nat * (0x1_0000_0000 * w) == rest as nat * w)
                    by (nonlinear_arith)
                    requires
                        rest == digit + next * 0x1_0000_0000,
                ;
            }
            out.push(digit);
            rest = next;
        }
        proof {
            assert(rest * weight(out.len() as nat) == 0) by (nonlinear_arith)
                requires
                    rest == 0,
            ;
        }
        BigNat::trim(out)
    }

    /// The number `v`.
    pub fn from_u64(v: u64) -> (r: BigNat)
        ensures
            r.wf(),
            r@ == v,
    {
        BigNat::from_u128(v as u128)
    }

    /// Whether the number is zero.
    pub fn is_zero(&self) -> (b: bool)
        requires
            self.wf(),
        ensures
            b == (self@ == 0),
    {
        proof {
            if self.limbs.len() > 0 {
                lemma_value_lower(self.limbs@);
                lemma_pow2_pos(32 * ((self.limbs.len() - 1) as nat));
            }
        }
        self.limbs.len() == 0
    }

    /// A copy of the number.
    pub fn duplicate(&self) -> (r: BigNat)
        requires
            self.wf(),
        ensures
            r.wf(),
            r@ == self@,
    {
        let mut out: Vec<u32> = Vec::new();
        let mut i: usize = 0;
        while i < self.limbs.len()
            invariant
                i <= self.limbs.len(),
                out@ == self.limbs@.take(i as int),
            decreases self.limbs.len() - i,
        {
            out.push(self.limbs[i]);
            proof {
                assert(out@ =~= self.limbs@.take(i + 1));
            }
            i = i + 1;
        }
        proof {
            assert(out@ =~= self.limbs@);
        }
        BigNat { limbs: out }
    }

    /// The sum.
    pub fn add(&self, other: &BigNat) -> (r: BigNat)
        requires
            self.wf(),
            other.wf(),
        ensures
            r.wf(),
            r@ == self@ + other@,
    {
        let n = if self.limbs.len() > other.limbs.len() {
            self.limbs.len()
        } else {
            other.limbs.len()
        };
        let mut out: Vec<u32> = Vec::new();
        let mut carry: u64 = 0;
        let mut i: usize = 0;
        proof {
            assert(carry * weight(0) == 0) by (nonlinear_arith)
                requires
                    carry == 0,
            ;
        }
        while i < n
            invariant
                i <= n,
                n >= self.limbs.len(),
                n >= other.limbs.len(),
                out.len() == i,
                carry <= 1,
                limbs_value(out@) + carry * weight(i as nat) == prefix_value(self.limbs@, i as int)
                    + prefix_value(other.limbs@, i as int),
            decreases n - i,
        {
            let a: u64 = if i < self.limbs.len() {
                self.limbs[i] as u64
            } else {
                0
            };
            let b: u64 = if i < other.limbs.len() {
                other.limbs[i] as u64
            } else {
                0
            };
            let t: u64 = a + b + carry;
            let digit = (t % 0x1_0000_0000) as u32;
            let next: u64 = t / 0x1_0000_0000;
            proof {
                let w = weight(i as nat);
                lemma_value_push(out@, digit);
                lemma_weight_step(i as nat);
                lemma_prefix_step(self.limbs@, i as int);
                lemma_prefix_step(other.limbs@, i as int);
                assert(a == limb_at(self.limbs@, i as int));
                assert(b == limb_at(other.limbs@, i as int));
                assert(digit as nat * w + next as nat * (0x1_0000_0000 * w) == a as nat * w
                    + b as nat * w + carry as nat * w) by (nonlinear_arith)
                    requires
                        a + b + carry == digit + next * 0x1_0000_0000,
                ;
            }
            out.push(digit);
            carry = next;
            i = i + 1;
        }
        if carry > 0 {
            proof {
                lemma_value_push(out@, 1u32);
            }
            out.push(1);
        } else {
            proof {
                assert(carry * weight(i as nat) == 0) by (nonlinear_arith)
                    requires
                        carry == 0,
                ;
            }
        }
        BigNat::trim(out)
    }

    /// Subtraction; the caller shows that the result is not negative.
    pub fn sub(&self, other: &BigNat) -> (r: BigNat)
        requires
            self.wf(),
            other.wf(),
            self@ >= other@,
        ensures
            r.wf(),
            r@ == self@ - other@,
    {
        let n = self.limbs.len();
        proof {
            if other.limbs.len() > n {
                lemma_value_bound(self.limbs@);
                lemma_value_lower(other.limbs@);
                if other.limbs.len() - 1 > n {
                    lemma_pow2_strictly_increases(32 * (n as nat), 32 * ((other.limbs.len() - 1) as nat));
                }
            }
        }
        let mut out: Vec<u32> = Vec::new();
        let mut borrow: u64 = 0;
        let mut i: usize = 0;
        proof {
            assert(borrow * weight(0) == 0) by (nonlinear_arith)
                requires
                    borrow == 0,
            ;
        }
        while i < n
            invariant
                i <= n,
                n == self.limbs.len(),
                n >= other.limbs.len(),
                out.len() == i,
                borrow <= 1,
                limbs_value(out@) + prefix_value(other.limbs@, i as int) == prefix_value(
                    self.limbs@,
                    i as int,
                ) + borrow * weight(i as nat),
            decreases n - i,
        {
            let a: u64 = self.limbs[i] as u64;
            let b: u64 = if i < other.limbs.len() {
                other.limbs[i] as u64
            } else {
                0
            };
            let take: u64 = b + borrow;
            let digit: u32;
            let next: u64;
            if a >= take {
                digit = (a - take) as u32;
                next = 0;
            } else {
                digit = (a + 0x1_0000_0000 - take) as u32;
                next = 1;
            }
            proof {
                let w = weight(i as nat);
                lemma_value_push(out@, digit);
                lemma_weight_step(i as nat);
                lemma_prefix_step(self.limbs@, i as int);
                lemma_prefix_step(other.limbs@, i as int);
                assert(a == limb_at(self.limbs@, i as int));
                assert(b == limb_at(other.limbs@, i as int));
                assert(digit as nat * w + b as nat * w + borrow as nat * w == a as nat * w
                    + next as nat * (0x1_0000_0000 * w)) by (nonlinear_arith)
                    requires
                        digit + b + borrow == a + next * 0x1_0000_0000,
                ;
            }
            out.push(digit);
            borrow = next;
            i = i + 1;
        }
        proof {
            lemma_value_bound(out@);
            if borrow == 1 {
                assert(borrow * weight(n as nat) == weight(n as nat)) by (nonlinear_arith)
                    requires
                        borrow == 1,
                ;
            } else {
                assert(borrow * weight(n as nat) == 0) by (nonlinear_arith)
                    requires
                        borrow == 0,
                ;
            }
        }
        BigNat::trim(out)
    }

    /// How the number stands to another.
    pub fn compare(&self, other: &BigNat) -> (r: Order)
        requires
            self.wf(),
            other.wf(),
        ensures
            r == order_of(self@ as int, other@ as int),
    {
        let n = self.limbs.len();
        let m = other.limbs.len();
        if n < m {
            proof {
                lemma_value_bound(self.limbs@);
                lemma_value_lower(other.limbs@);
                if m - 1 > n {
                    lemma_pow2_strictly_increases(32 * (n as nat), 32 * ((m - 1) as nat));
                }
            }
            return Order::Below;
        }
        if n > m {
            proof {
                lemma_value_bound(other.limbs@);
                lemma_value_lower(self.limbs@);
                if n - 1 > m {
                    lemma_pow2_strictly_increases(32 * (m as nat), 32 * ((n - 1) as nat));
                }
            }
            return Order::Above;
        }
        let mut i: usize = n;
        while i > 0
            invariant
                i <= n,
                n == self.limbs.len(),
                n == other.limbs.len(),
                forall|j: int| i <= j < n ==> self.limbs@[j] == other.limbs@[j],
            decreases i,
        {
            i = i - 1;
            let a = self.limbs[i];
            let b = other.limbs[i];
            if a < b {
                proof {
                    lemma_value_order(self.limbs@, other.limbs@, i as int);
                }
                return Order::Below;
            }
            if a > b {
                proof {
                    lemma_value_order(other.limbs@, self.limbs@, i as int);
                }
                return Order::Above;
            }
        }
        proof {
            assert(self.limbs@ =~= other.limbs@);
        }
        Order::Same
    }

    /// `self * factor + addend`.
    pub fn mul_small_add(&self, factor: u32, addend: u32) -> (r: BigNat)
        requires
            self.wf(),
        ensures
            r.wf(),
            r@ == self@ * factor + addend,
    {
        let n = self.limbs.len();
        let mut out: Vec<u32> = Vec::new();
        let mut carry: u64 = addend as u64;
        let mut i: usize = 0;
        proof {
            lemma_weight_step(0);
            assert(prefix_value(self.limbs@, 0) * factor == 0) by (nonlinear_arith)
                requires
                    prefix_value(self.limbs@, 0) == 0,
            ;
        }
        while i < n
            invariant
                i <= n,
                n == self.limbs.len(),
                out.len() == i,
                carry <= 0xFFFF_FFFF,
                limbs_value(out@) + carry * weight(i as nat) == prefix_value(self.limbs@, i as int)
                    * factor + addend,
            decreases n - i,
        {
            let a: u64 = self.limbs[i] as u64;
            proof {
                assert(a * factor <= 0xFFFF_FFFF * 0xFFFF_FFFF) by (nonlinear_arith)
                    requires
                        a <= 0xFFFF_FFFF,
                        factor <= 0xFFFF_FFFF,
                ;
            }
            let t: u64 = a * (factor as u64) + carry;
            let digit = (t % 0x1_0000_0000) as u32;
            let next: u64 = t / 0x1_0000_0000;
            proof {
                let w = weight(i as nat);
                let p = prefix_value(self.limbs@, i as int);
                lemma_value_push(out@, digit);
                lemma_weight_step(i as nat);
                lemma_prefix_step(self.limbs@, i as int);
                assert(a == limb_at(self.limbs@, i as int));
                assert(digit as nat * w + next as nat * (0x1_0000_0000 * w) == a as nat
                    * factor as nat * w + carry as nat * w) by (nonlinear_arith)
                    requires
                        a * factor + carry == digit + next * 0x1_0000_0000,
                ;
                assert((p + a as nat * w) * factor == p * factor + a as nat * factor as nat * w)
                    by (nonlinear_arith);
            }
            out.push(digit);
            carry = next;
            i = i + 1;
        }
        if carry > 0 {
            proof {
                lemma_value_push(out@, carry as u32);
            }
            out.push(carry as u32);
        } else {
            proof {
                assert(carry * weight(i as nat) == 0) by (nonlinear_arith)
                    requires
                        carry == 0,
                ;
            }
        }
        BigNat::trim(out)
    }

    /// `self * 2^k`.
    pub fn shl(&self, k: usize) -> (r: BigNat)
        requires
            self.wf(),
        ensures
            r.wf(),
            r@ == self@ * pow2(k as nat),
    {
        if self.limbs.len() == 0 {
            proof {
                assert(0 * pow2(k as nat) == 0) by (nonlinear_arith);
            }
            return BigNat::zero();
        }
        let whole = k / 32;
        let part = (k % 32) as u32;
        let scaled = self.mul_small_add(pow2_small(part), 0);
        let mut out: Vec<u32> = Vec::new();
        let mut i: usize = 0;
        while i < whole
            invariant
                i <= whole,
                out@ == zero_limbs(i as nat),
            decreases whole - i,
        {
            out.push(0);
            proof {
                assert(out@ =~= zero_limbs((i + 1) as nat));
            }
            i = i + 1;
        }
        let mut j: usize = 0;
        while j < scaled.limbs.len()
            invariant
                j <= scaled.limbs.len(),
                out@ == zero_limbs(whole as nat) + scaled.limbs@.take(j as int),
            decreases scaled.limbs.len() - j,
        {
            out.push(scaled.limbs[j]);
            proof {
                assert(out@ =~= zero_limbs(whole as nat) + scaled.limbs@.take(j + 1));
            }
            j = j + 1;
        }
        proof {
            assert(scaled.limbs@.take(scaled.limbs.len() as int) =~= scaled.limbs@);
            lemma_value_shift(whole as nat, scaled.limbs@);
            lemma_pow2_adds(32 * (whole as nat), part as nat);
            assert(k == 32 * whole + part);
            let v = self@;
            let a = pow2(part as nat);
            let b = weight(whole as nat);
            assert(b * (v * a + 0) == v * (b * a)) by (nonlinear_arith);
        }
        BigNat::trim(out)
    }

    /// Number of binary digits: zero for zero, else the `n` with
    /// `2^(n-1) <= self < 2^n`.
    pub fn bit_length(&self) -> (n: u128)
        requires
            self.wf(),
        ensures
            self@ == 0 ==> n == 0,
            self@ > 0 ==> n >= 1 && pow2((n - 1) as nat) <= self@ < pow2(n as nat),
            n < 0x40_0000_0000_0000_0000,
    {
        if self.limbs.len() == 0 {
            return 0;
        }
        let top = self.limbs[self.limbs.len() - 1];
        let mut t: u32 = top;
        let mut b: u32 = 0;
        proof {
            lemma2_to64();
            assert(t * pow2(0) == t) by (nonlinear_arith)
                requires
                    pow2(0) == 1,
            ;
            assert((t + 1) * pow2(0) == t + 1) by (nonlinear_arith)
                requires
                    pow2(0) == 1,
            ;
        }
        while t > 0
            invariant
                b <= 32,
                top != 0,
                t * pow2(b as nat) <= top,
                top < (t + 1) * pow2(b as nat),
                b > 0 ==> pow2((b - 1) as nat) <= top,
                b == 0 ==> t == top,
                t > 0 ==> b < 32,
            decreases t,
        {
            let half = t / 2;
            proof {
                let w = pow2(b as nat);
                lemma_pow2_unfold((b + 1) as nat);
                lemma_pow2_pos(b as nat);
                lemma2_to64();
                assert(half * (2 * w) <= t * w) by (nonlinear_arith)
                    requires
                        2 * half <= t,
                        w >= 0,
                ;
                assert((t + 1) * w <= (half + 1) * (2 * w)) by (nonlinear_arith)
                    requires
                        t + 1 <= 2 * half + 2,
                        w >= 0,
                ;
                assert(w <= t * w) by (nonlinear_arith)
                    requires
                        t >= 1,
                        w >= 0,
                ;
                if half > 0 && b + 1 >= 32 {
                    assert(b + 1 == 32);
                    assert(half * (2 * w) >= 2 * w) by (nonlinear_arith)
                        requires
                            half >= 1,
                            w >= 0,
                    ;
                    assert(false);
                }
            }
            t = half;
            b = b + 1;
        }
        let low: u128 = 32 * ((self.limbs.len() - 1) as u128);
        let n: u128 = low + b as u128;
        proof {
            let k = (self.limbs.len() - 1) as nat;
            let w = weight(k);
            let pb = pow2(b as nat);
            lemma2_to64();
            lemma_value_bound(self.limbs@.drop_last());
            lemma_pow2_adds(32 * k, b as nat);
            lemma_pow2_pos(32 * k);
            assert(b > 0);
            lemma_pow2_adds(32 * k, (b - 1) as nat);
            let lowb = pow2((b - 1) as nat);
            assert((t + 1) * pb == pb) by (nonlinear_arith)
                requires
                    t == 0,
            ;
            assert(top as nat * w >= lowb * w) by (nonlinear_arith)
                requires
                    top >= lowb,
                    w >= 0,
            ;
            assert(top as nat * w + w <= pb * w) by (nonlinear_arith)
                requires
                    top + 1 <= pb,
                    w >= 0,
            ;
            assert(w * pb == pb * w) by (nonlinear_arith);
            assert(w * lowb == lowb * w) by (nonlinear_arith);
            assert(n - 1 == 32 * k + (b - 1));
            assert(n == 32 * k + b);
            lemma_pow2_pos((n - 1) as nat);
        }
        n
    }

    /// Quotient and remainder of a division by a small number.
    pub fn divrem_small(&self, divisor: u32) -> (r: (BigNat, u32))
        requires
            self.wf(),
            divisor > 0,
        ensures
            r.0.wf(),
            r.0@ == self@ / (divisor as nat),
            r.1 == self@ % (divisor as nat),
    {
        let n = self.limbs.len();
        let mut out: Vec<u32> = Vec::new();
        let mut k: usize = 0;
        while k < n
            invariant
                k <= n,
                out@ == zero_limbs(k as nat),
            decreases n - k,
        {
            out.push(0);
            proof {
                assert(out@ =~= zero_limbs((k + 1) as nat));
            }
            k = k + 1;
        }
        let mut rem: u64 = 0;
        let mut i: usize = n;
        proof {
            assert(self.limbs@.skip(n as int).len() == 0);
            assert(out@.skip(n as int).len() == 0);
            assert(divisor as nat * 0 == 0);
        }
        while i > 0
            invariant
                i <= n,
                n == self.limbs.len(),
                out.len() == n,
                divisor > 0,
                rem < divisor,
                limbs_value(self.limbs@.skip(i as int)) == (divisor as nat) * limbs_value(
                    out@.skip(i as int),
                ) + rem,
            decreases i,
        {
            let ghost before = out@;
            i = i - 1;
            let cur: u64 = rem * 0x1_0000_0000 + self.limbs[i] as u64;
            let digit: u64 = cur / (divisor as u64);
            let next: u64 = cur % (divisor as u64);
            proof {
                lemma_fundamental_div_mod(cur as int, divisor as int);
                assert(divisor as int * (cur as int / divisor as int) == digit * divisor)
                    by (nonlinear_arith)
                    requires
                        digit == cur as int / divisor as int,
                ;
                assert(cur < divisor as u64 * 0x1_0000_0000) by (nonlinear_arith)
                    requires
                        cur == rem * 0x1_0000_0000 + self.limbs@[i as int],
                        rem + 1 <= divisor,
                        self.limbs@[i as int] < 0x1_0000_0000,
                ;
                assert(digit < 0x1_0000_0000) by (nonlinear_arith)
                    requires
                        cur == digit * divisor + next,
                        cur < divisor * 0x1_0000_0000,
                        divisor > 0,
                        next >= 0,
                ;
            }
            out.set(i, digit as u32);
            proof {
                let a = self.limbs@.skip(i as int);
                let q = out@.skip(i as int);
                lemma_value_front(a);
                lemma_value_front(q);
                assert(a.drop_first() =~= self.limbs@.skip(i + 1));
                assert(q.drop_first() =~= before.skip(i + 1));
                let hi = limbs_value(before.skip(i + 1));
                let d = divisor as nat;
                assert(self.limbs@[i as int] as nat + 0x1_0000_0000 * (d * hi + rem as nat) == d * (
                digit as nat + 0x1_0000_0000 * hi) + next as nat) by (nonlinear_arith)
                    requires
                        rem * 0x1_0000_0000 + self.limbs@[i as int] == digit * d + next,
                ;
            }
            rem = next;
        }
        proof {
            assert(self.limbs@.skip(0) =~= self.limbs@);
            assert(out@.skip(0) =~= out@);
            let q = limbs_value(out@);
            assert(self@ == q * (divisor as nat) + rem) by (nonlinear_arith)
                requires
                    self@ == (divisor as nat) * q + rem,
            ;
            lemma_fundamental_div_mod_converse(
                self@ as int,
                divisor as int,
                q as int,
                rem as int,
            );
        }
        (BigNat::trim(out), rem as u32)
    }
}

} // verus!
