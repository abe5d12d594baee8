use vstd::prelude::*;

verus! {

/// The base of the limbs: 2^64.
pub open spec fn base() -> nat {
    0x1_0000_0000_0000_0000
}

/// `base()` to the power `n`.
pub open spec fn weight(n: nat) -> nat
    decreases n,
{
    if n == 0 {
        1
    } else {
        base() * weight((n - 1) as nat)
    }
}

/// The number that a sequence of limbs stands for, lowest limb first.
pub open spec fn value_of(limbs: Seq<u64>) -> nat
    decreases limbs.len(),
{
    if limbs.len() == 0 {
        0
    } else {
        value_of(limbs.drop_last()) + limbs.last() as nat * weight((limbs.len() - 1) as nat)
    }
}

/// The value of the lowest `n` limbs, or of all of them if there are fewer.
pub open spec fn low_value(limbs: Seq<u64>, n: nat) -> nat {
    if n <= limbs.len() {
        value_of(limbs.take(n as int))
    } else {
        value_of(limbs)
    }
}

/// Limb `i`, or zero past the last limb.
pub open spec fn limb_at(limbs: Seq<u64>, i: nat) -> u64 {
    if i < limbs.len() {
        limbs[i as int]
    } else {
        0
    }
}

/// Taking one more limb adds that limb at its weight.
pub proof fn lemma_low_value_step(limbs: Seq<u64>, n: nat)
    ensures
        low_value(limbs, n + 1) == low_value(limbs, n) + limb_at(limbs, n) as nat * weight(n),
{
    if n < limbs.len() {
        let next = limbs.take(n as int + 1);
        assert(next.drop_last() == limbs.take(n as int));
        assert(next.last() == limbs[n as int]);
    } else if n == limbs.len() {
        assert(limbs.take(n as int) == limbs);
    }
}

/// A natural number of any size, held as limbs in base 2^64, lowest first.
#[derive(Debug)]
pub struct Natural {
    pub limbs: Vec<u64>,
}

impl View for Natural {
    type V = nat;

    open spec fn view(&self) -> nat {
        value_of(self.limbs@)
    }
}

impl Natural {
    /// The number `x`.
    pub fn from_u64(x: u64) -> (r: Natural)
        ensures
            r@ == x,
    {
        let mut limbs: Vec<u64> = Vec::new();
        limbs.push(x);
        proof {
            assert(limbs@.drop_last() == Seq::<u64>::empty());
            assert(value_of(limbs@.drop_last()) == 0);
            assert(limbs@.last() == x);
            assert(x as nat * weight(0) == x) by (nonlinear_arith)
                requires
                    weight(0) == 1,
            ;
        }
        Natural { limbs }
    }

    /// The product of this number and `m`.
    pub fn times(&self, m: u64) -> (r: Natural)
        ensures
            r@ == self@ * m,
    {
        let n: usize = self.limbs.len();
        let mut out: Vec<u64> = Vec::new();
        let mut carry: u64 = 0;
        let mut i: usize = 0;
        proof {
            assert(self.limbs@.take(0).len() == 0);
            assert(low_value(self.limbs@, 0) == 0);
            assert(low_value(self.limbs@, 0) * m == 0);
            assert(carry as nat * weight(0) == 0);
        }
        while i < n
            invariant
                n == self.limbs@.len(),
                i <= n,
                out@.len() == i,
                value_of(out@) + carry as nat * weight(i as nat) == low_value(
                    self.limbs@,
                    i as nat,
                ) * m,
            decreases n - i,
        {
            let x: u64 = self.limbs[i];
            assert(x as nat * m as nat + carry as nat <= 0xFFFF_FFFF_FFFF_FFFF
                * 0x1_0000_0000_0000_0000) by (nonlinear_arith)
                requires
                    x <= 0xFFFF_FFFF_FFFF_FFFF,
                    m <= 0xFFFF_FFFF_FFFF_FFFF,
                    carry <= 0xFFFF_FFFF_FFFF_FFFF,
            ;
            let p: u128 = (x as u128) * (m as u128) + (carry as u128);
            let lo: u64 = (p % 0x1_0000_0000_0000_0000) as u64;
            let hi: u64 = (p / 0x1_0000_0000_0000_0000) as u64;
            proof {
                let w = weight(i as nat);
                let before = value_of(out@);
                let low = low_value(self.limbs@, i as nat);
                lemma_low_value_step(self.limbs@, i as nat);
                assert(out@.push(lo).drop_last() == out@);
                assert(value_of(out@.push(lo)) == before + lo as nat * w);
                assert(weight((i + 1) as nat) == base() * w);
                assert(p as nat == hi as nat * base() + lo as nat);
                assert(before + lo as nat * w + hi as nat * (base() * w) == (low + x as nat * w)
                    * m as nat) by (nonlinear_arith)
                    requires
                        before + carry as nat * w == low * m as nat,
                        x as nat * m as nat + carry as nat == hi as nat * base() + lo as nat,
                ;
            }
            out.push(lo);
            carry = hi;
            i += 1;
        }
        proof {
            assert(low_value(self.limbs@, n as nat) == value_of(self.limbs@)) by {
                assert(self.limbs@.take(n as int) == self.limbs@);
            }
        }
        if carry != 0 {
            proof {
                assert(out@.push(carry).drop_last() == out@);
            }
            out.push(carry);
        } else {
            assert(carry as nat * weight(n as nat) == 0) by (nonlinear_arith)
                requires
                    carry == 0,
            ;
        }
        Natural { limbs: out }
    }

    /// Whether this number is less than or equal to `other`.
    pub fn at_most(&self, other: &Natural) -> (r: bool)
        ensures
            r == (self@ <= other@),
    {
        let la: usize = self.limbs.len();
        let lb: usize = other.limbs.len();
        let n: usize = if la >= lb {
            la
        } else {
            lb
        };
        let mut below: bool = true;
        let mut i: usize = 0;
        proof {
            assert(self.limbs@.take(0).len() == 0);
            assert(other.limbs@.take(0).len() == 0);
        }
        while i < n
            invariant
                la == self.limbs@.len(),
                lb == other.limbs@.len(),
                n >= la,
                n >= lb,
                i <= n,
                low_value(self.limbs@, i as nat) < weight(i as nat),
                low_value(other.limbs@, i as nat) < weight(i as nat),
                below == (low_value(self.limbs@, i as nat) <= low_value(other.limbs@, i as nat)),
            decreases n - i,
        {
            let x: u64 = if i < la {
                self.limbs[i]
            } else {
                0
            };
            let y: u64 = if i < lb {
                other.limbs[i]
            } else {
                0
            };
            proof {
                let w = weight(i as nat);
                let a = low_value(self.limbs@, i as nat);
                let b = low_value(other.limbs@, i as nat);
                lemma_low_value_step(self.limbs@, i as nat);
                lemma_low_value_step(other.limbs@, i as nat);
                assert(weight((i + 1) as nat) == base() * w);
                assert(a + x as nat * w < base() * w && b + y as nat * w < base() * w && (x < y
                    ==> a + x as nat * w < b + y as nat * w) && (y < x ==> b + y as nat * w < a
                    + x as nat * w)) by (nonlinear_arith)
                    requires
                        a < w,
                        b < w,
                        x < base(),
                        y < base(),
                ;
            }
            below = x < y || (x == y && below);
            i += 1;
        }
        proof {
            assert(self.limbs@.take(la as int) == self.limbs@);
            assert(other.limbs@.take(lb as int) == other.limbs@);
        }
        below
    }
}

} // verus!
