//! Natural numbers of any size, written in base 2^64 with the lowest digit
//! first. The belief keeps its weights in them, so that no rounding occurs.

use vstd::prelude::*;

verus! {

/// The base in which a `Natural` is written: 2^64.
pub open spec fn radix() -> int {
    0x1_0000_0000_0000_0000
}

/// `radix()` to the power `k`.
pub open spec fn radix_pow(k: nat) -> int
    decreases k,
{
    if k == 0 {
        1
    } else {
        radix() * radix_pow((k - 1) as nat)
    }
}

/// The digit of `s` at place `i`; places beyond the end hold zero.
pub open spec fn digit(s: Seq<u64>, i: int) -> int {
    if 0 <= i < s.len() {
        s[i] as int
    } else {
        0
    }
}

/// The number written by the lowest `k` digits of `s`.
pub open spec fn prefix_value(s: Seq<u64>, k: nat) -> int
    decreases k,
{
    if k == 0 {
        0
    } else {
        prefix_value(s, (k - 1) as nat) + digit(s, k - 1) * radix_pow((k - 1) as nat)
    }
}

/// The number written by all digits of `s`.
pub open spec fn limbs_value(s: Seq<u64>) -> nat {
    prefix_value(s, s.len()) as nat
}

pub proof fn lemma_radix_pow_positive(k: nat)
    ensures
        radix_pow(k) >= 1,
        k >= 1 ==> radix_pow(k) >= radix(),
    decreases k,
{
    if k > 0 {
        lemma_radix_pow_positive((k - 1) as nat);
        let p = radix_pow((k - 1) as nat);
        assert(radix() * p >= radix()) by (nonlinear_arith)
            requires
                p >= 1,
                radix() >= 1,
        ;
    }
}

/// `k` digits write a number below `radix()` to the `k`.
pub proof fn lemma_prefix_bounds(s: Seq<u64>, k: nat)
    ensures
        0 <= prefix_value(s, k) < radix_pow(k),
    decreases k,
{
    if k > 0 {
        lemma_prefix_bounds(s, (k - 1) as nat);
        lemma_radix_pow_positive((k - 1) as nat);
        let p = radix_pow((k - 1) as nat);
        let d = digit(s, k - 1);
        let low = prefix_value(s, (k - 1) as nat);
        assert(0 <= low + d * p < radix() * p) by (nonlinear_arith)
            requires
                0 <= d < radix(),
                0 <= low < p,
        ;
    }
}

/// Digits that agree below place `k` write the same number there.
pub proof fn lemma_prefix_agree(s: Seq<u64>, t: Seq<u64>, k: nat)
    requires
        forall|i: int| 0 <= i < k ==> digit(s, i) == digit(t, i),
    ensures
        prefix_value(s, k) == prefix_value(t, k),
    decreases k,
{
    if k > 0 {
        lemma_prefix_agree(s, t, (k - 1) as nat);
    }
}

/// Places beyond the end add nothing.
pub proof fn lemma_prefix_beyond(s: Seq<u64>, k: nat)
    requires
        k >= s.len(),
    ensures
        prefix_value(s, k) == limbs_value(s),
    decreases k,
{
    lemma_prefix_bounds(s, s.len());
    if k > s.len() {
        lemma_prefix_beyond(s, (k - 1) as nat);
        assert(digit(s, k - 1) * radix_pow((k - 1) as nat) == 0);
    }
}

/// A natural number without an upper limit.
pub struct Natural {
    limbs: Vec<u64>,
}

impl View for Natural {
    type V = nat;

    closed spec fn view(&self) -> nat {
        limbs_value(self.limbs@)
    }
}

impl Clone for Natural {
    fn clone(&self) -> (r: Self)
        ensures
            r@ == self@,
    {
        let limbs = self.limbs.clone();
        assert(limbs@ =~= self.limbs@);
        Natural { limbs }
    }
}

impl Natural {
    /// The number zero.
    pub fn zero() -> (r: Natural)
        ensures
            r@ == 0,
    {
        Natural { limbs: Vec::new() }
    }

    /// The number `v`.
    pub fn from_u64(v: u64) -> (r: Natural)
        ensures
            r@ == v,
    {
        let mut limbs: Vec<u64> = Vec::new();
        limbs.push(v);
        proof {
            reveal_with_fuel(prefix_value, 2);
            assert(radix_pow(0) == 1);
        }
        Natural { limbs }
    }

    /// The number as a `u64`, if it fits.
    pub fn to_u64(&self) -> (r: Option<u64>)
        ensures
            match r {
                Some(v) => self@ == v,
                None => self@ > u64::MAX,
            },
    {
        let n: usize = self.limbs.len();
        if n == 0 {
            return Some(0);
        }
        let mut i: usize = n;
        while i > 1
            invariant
                1 <= i <= n,
                n == self.limbs@.len(),
                prefix_value(self.limbs@, n as nat) == prefix_value(self.limbs@, i as nat),
            decreases i,
        {
            if self.limbs[i - 1] != 0 {
                proof {
                    lemma_prefix_bounds(self.limbs@, (i - 1) as nat);
                    lemma_radix_pow_positive((i - 1) as nat);
                    let p = radix_pow((i - 1) as nat);
                    let d = digit(self.limbs@, i - 1);
                    assert(d * p >= radix()) by (nonlinear_arith)
                        requires
                            d >= 1,
                            p >= radix(),
                            radix() >= 1,
                    ;
                }
                return None;
            }
            proof {
                let d = digit(self.limbs@, i - 1);
                let p = radix_pow((i - 1) as nat);
                assert(d == 0);
                assert(d * p == 0) by (nonlinear_arith)
                    requires
                        d == 0,
                ;
            }
            i -= 1;
        }
        proof {
            reveal_with_fuel(prefix_value, 2);
            assert(radix_pow(0) == 1);
        }
        Some(self.limbs[0])
    }

    /// The sum of two numbers.
    pub fn plus(&self, other: &Natural) -> (r: Natural)
        ensures
            r@ == self@ + other@,
    {
        let la: usize = self.limbs.len();
        let lb: usize = other.limbs.len();
        let n: usize = if la >= lb {
            la
        } else {
            lb
        };
        let mut out: Vec<u64> = Vec::new();
        let mut carry: u64 = 0;
        let mut i: usize = 0;
        while i < n
            invariant
                i <= n,
                la == self.limbs@.len(),
                lb == other.limbs@.len(),
                n >= la,
                n >= lb,
                out@.len() == i,
                carry <= 1,
                prefix_value(out@, i as nat) + carry * radix_pow(i as nat) == prefix_value(
                    self.limbs@,
                    i as nat,
                ) + prefix_value(other.limbs@, i as nat),
            decreases n - i,
        {
            let x: u64 = if i < la {
                self.limbs[i]
            } else {
                0
            };
            let y: u64 = if i < lb {
                other.limbs[i]
            } else {
                0
            };
            let sum: u128 = x as u128 + y as u128 + carry as u128;
            let low: u64 = (sum % 0x1_0000_0000_0000_0000u128) as u64;
            let high: u64 = (sum / 0x1_0000_0000_0000_0000u128) as u64;
            proof {
                let p = radix_pow(i as nat);
                let grown = out@.push(low);
                lemma_prefix_agree(grown, out@, i as nat);
                assert(digit(grown, i as int) == low);
                assert(low + high * radix() == x + y + carry);
                assert(low * p + high * (radix() * p) == x * p + y * p + carry * p)
                    by (nonlinear_arith)
                    requires
                        low + high * radix() == x + y + carry,
                ;
            }
            out.push(low);
            carry = high;
            i += 1;
        }
        proof {
            lemma_prefix_beyond(self.limbs@, n as nat);
            lemma_prefix_beyond(other.limbs@, n as nat);
            lemma_prefix_bounds(self.limbs@, la as nat);
            lemma_prefix_bounds(other.limbs@, lb as nat);
        }
        if carry > 0 {
            proof {
                let grown = out@.push(carry);
                lemma_prefix_agree(grown, out@, n as nat);
                assert(digit(grown, n as int) == carry);
            }
            out.push(carry);
        } else {
            proof {
                lemma_prefix_bounds(out@, n as nat);
            }
        }
        Natural { limbs: out }
    }

    /// The product of a number and a `u64`.
    pub fn times(&self, factor: u64) -> (r: Natural)
        ensures
            r@ == self@ * factor,
    {
        let n: usize = self.limbs.len();
        let mut out: Vec<u64> = Vec::new();
        let mut carry: u64 = 0;
        let mut i: usize = 0;
        while i < n
            invariant
                i <= n,
                n == self.limbs@.len(),
                out@.len() == i,
                prefix_value(out@, i as nat) + carry * radix_pow(i as nat) == prefix_value(
                    self.limbs@,
                    i as nat,
                ) * factor,
            decreases n - i,
        {
            let x: u64 = self.limbs[i];
            assert(x * factor + carry <= 0xffff_ffff_ffff_ffff * 0x1_0000_0000_0000_0000)
                by (nonlinear_arith)
                requires
                    0 <= x <= 0xffff_ffff_ffff_ffff,
                    0 <= factor <= 0xffff_ffff_ffff_ffff,
                    0 <= carry <= 0xffff_ffff_ffff_ffff,
            ;
            let product: u128 = x as u128 * factor as u128 + carry as u128;
            let low: u64 = (product % 0x1_0000_0000_0000_0000u128) as u64;
            let high: u64 = (product / 0x1_0000_0000_0000_0000u128) as u64;
            proof {
                let p = radix_pow(i as nat);
                let before = prefix_value(self.limbs@, i as nat);
                let grown = out@.push(low);
                lemma_prefix_agree(grown, out@, i as nat);
                assert(digit(grown, i as int) == low);
                assert(low + high * radix() == x * factor + carry);
                assert(low * p + high * (radix() * p) - carry * p + before * factor == (before + x
                    * p) * factor) by (nonlinear_arith)
                    requires
                        low + high * radix() == x * factor + carry,
                ;
            }
            out.push(low);
            carry = high;
            i += 1;
        }
        proof {
            lemma_prefix_bounds(self.limbs@, n as nat);
            assert(prefix_value(self.limbs@, n as nat) * factor >= 0) by (nonlinear_arith)
                requires
                    prefix_value(self.limbs@, n as nat) >= 0,
                    factor >= 0,
            ;
        }
        if carry > 0 {
            proof {
                let grown = out@.push(carry);
                lemma_prefix_agree(grown, out@, n as nat);
                assert(digit(grown, n as int) == carry);
            }
            out.push(carry);
        }
        Natural { limbs: out }
    }

    /// 0 where `self` is the smaller, 1 where the two are equal, 2 where `self`
    /// is the larger.
    fn rank(&self, other: &Natural) -> (r: u8)
        ensures
            r == 0 <==> self@ < other@,
            r == 1 <==> self@ == other@,
            r == 2 <==> self@ > other@,
            r <= 2,
    {
        let la: usize = self.limbs.len();
        let lb: usize = other.limbs.len();
        let n: usize = if la >= lb {
            la
        } else {
            lb
        };
        proof {
            lemma_prefix_beyond(self.limbs@, n as nat);
            lemma_prefix_beyond(other.limbs@, n as nat);
            lemma_prefix_bounds(self.limbs@, la as nat);
            lemma_prefix_bounds(other.limbs@, lb as nat);
        }
        let mut i: usize = n;
        while i > 0
            invariant
                i <= n,
                la == self.limbs@.len(),
                lb == other.limbs@.len(),
                prefix_value(self.limbs@, n as nat) == self@,
                prefix_value(other.limbs@, n as nat) == other@,
                prefix_value(self.limbs@, n as nat) - prefix_value(self.limbs@, i as nat)
                    == prefix_value(other.limbs@, n as nat) - prefix_value(
                    other.limbs@,
                    i as nat,
                ),
            decreases i,
        {
            let x: u64 = if i - 1 < la {
                self.limbs[i - 1]
            } else {
                0
            };
            let y: u64 = if i - 1 < lb {
                other.limbs[i - 1]
            } else {
                0
            };
            proof {
                lemma_prefix_bounds(self.limbs@, (i - 1) as nat);
                lemma_prefix_bounds(other.limbs@, (i - 1) as nat);
                let p = radix_pow((i - 1) as nat);
                assert(digit(self.limbs@, i - 1) == x);
                assert(digit(other.limbs@, i - 1) == y);
                assert(prefix_value(self.limbs@, i as nat) == prefix_value(
                    self.limbs@,
                    (i - 1) as nat,
                ) + x * p);
                assert(prefix_value(other.limbs@, i as nat) == prefix_value(
                    other.limbs@,
                    (i - 1) as nat,
                ) + y * p);
                if x < y {
                    assert((x + 1) * p <= y * p) by (nonlinear_arith)
                        requires
                            x + 1 <= y,
                            p >= 0,
                    ;
                    assert((x + 1) * p == x * p + p) by (nonlinear_arith);
                }
                if y < x {
                    assert((y + 1) * p <= x * p) by (nonlinear_arith)
                        requires
                            y + 1 <= x,
                            p >= 0,
                    ;
                    assert((y + 1) * p == y * p + p) by (nonlinear_arith);
                }
            }
            if x < y {
                return 0;
            }
            if x > y {
                return 2;
            }
            i -= 1;
        }
        1
    }

    /// Whether `self` is smaller than `other`.
    pub fn less_than(&self, other: &Natural) -> (r: bool)
        ensures
            r == (self@ < other@),
    {
        self.rank(other) == 0
    }

    /// Whether `self` and `other` are the same number.
    pub fn equals(&self, other: &Natural) -> (r: bool)
        ensures
            r == (self@ == other@),
    {
        self.rank(other) == 1
    }

    /// Whether `self` is zero.
    pub fn is_zero(&self) -> (r: bool)
        ensures
            r == (self@ == 0),
    {
        let zero = Natural::zero();
        self.rank(&zero) == 1
    }
}

} // verus!
