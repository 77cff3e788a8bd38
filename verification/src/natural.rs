//! Arbitrary-size natural numbers, just large enough in features for the
//! exact comparisons that the award formula needs: multiply by a machine
//! word, and compare.
use vstd::prelude::*;

verus! {

/// The weight of one limb relative to the one below it.
pub open spec fn radix() -> nat {
    0x1_0000_0000
}

/// The number written by `limbs` (least significant first) with `top`
/// standing in the position just above the last limb.
pub open spec fn limbs_value_under(limbs: Seq<u32>, top: nat) -> nat
    decreases limbs.len(),
{
    if limbs.len() == 0 {
        top
    } else {
        limbs[0] as nat + radix() * limbs_value_under(limbs.drop_first(), top)
    }
}

/// The number written by `limbs`, least significant limb first.
pub open spec fn limbs_value(limbs: Seq<u32>) -> nat {
    limbs_value_under(limbs, 0)
}

/// Limb `i` of the number, where positions past the end read as zero.
pub open spec fn limb_or_zero(limbs: Seq<u32>, i: int) -> u32 {
    if 0 <= i < limbs.len() {
        limbs[i]
    } else {
        0
    }
}

/// `limbs` extended with zero limbs up to length `n`.
pub open spec fn padded(limbs: Seq<u32>, n: nat) -> Seq<u32> {
    Seq::new(
        if n >= limbs.len() {
            n
        } else {
            limbs.len()
        },
        |i: int| limb_or_zero(limbs, i),
    )
}

/// Appending a limb puts it in the position that `top` occupied.
pub proof fn lemma_push_limb(limbs: Seq<u32>, limb: u32, top: nat)
    ensures
        limbs_value_under(limbs.push(limb), top) == limbs_value_under(
            limbs,
            limb as nat + radix() * top,
        ),
    decreases limbs.len(),
{
    if limbs.len() == 0 {
        assert(limbs.push(limb).drop_first() =~= Seq::<u32>::empty());
        assert(limbs_value_under(limbs.push(limb).drop_first(), top) == top);
    } else {
        assert(limbs.push(limb).drop_first() =~= limbs.drop_first().push(limb));
        lemma_push_limb(limbs.drop_first(), limb, top);
    }
}

/// Zero limbs at the top do not change the number.
pub proof fn lemma_padding_keeps_value(limbs: Seq<u32>, n: nat)
    ensures
        limbs_value(padded(limbs, n)) == limbs_value(limbs),
    decreases n,
{
    let p = padded(limbs, n);
    if limbs.len() == 0 {
        if n > 0 {
            assert(p.drop_first() =~= padded(limbs, (n - 1) as nat));
            lemma_padding_keeps_value(limbs, (n - 1) as nat);
        }
    } else {
        if n > 0 {
            assert(p.drop_first() =~= padded(limbs.drop_first(), (n - 1) as nat));
            lemma_padding_keeps_value(limbs.drop_first(), (n - 1) as nat);
        } else {
            assert(p =~= limbs);
        }
    }
}

/// Two numbers of equal length that agree above position `j` compare as
/// their limbs at `j` do.
pub proof fn lemma_top_difference_decides(a: Seq<u32>, b: Seq<u32>, j: int)
    requires
        a.len() == b.len(),
        0 <= j < a.len(),
        a[j] < b[j],
        forall|i: int| j < i < a.len() ==> a[i] == b[i],
    ensures
        limbs_value(a) < limbs_value(b),
    decreases j,
{
    let ta = a.drop_first();
    let tb = b.drop_first();
    let va = limbs_value(ta);
    let vb = limbs_value(tb);
    if j == 0 {
        assert(ta =~= tb);
    } else {
        lemma_top_difference_decides(ta, tb, j - 1);
        assert(radix() * (va + 1) <= radix() * vb) by (nonlinear_arith)
            requires
                va + 1 <= vb,
        ;
        assert(radix() * (va + 1) == radix() * va + radix()) by (nonlinear_arith);
    }
}

/// A natural number of any size.
pub struct Natural {
    limbs: Vec<u32>,
}

impl View for Natural {
    type V = nat;

    closed spec fn view(&self) -> nat {
        limbs_value(self.limbs@)
    }
}

impl Natural {
    /// The number `n`.
    pub fn from_u32(n: u32) -> (r: Natural)
        ensures
            r@ == n,
    {
        let mut limbs: Vec<u32> = Vec::new();
        limbs.push(n);
        proof {
            lemma_push_limb(Seq::<u32>::empty(), n, 0);
            assert(limbs@ =~= Seq::<u32>::empty().push(n));
        }
        Natural { limbs }
    }

    /// The product of this number and `factor`.
    pub fn times(&self, factor: u32) -> (r: Natural)
        ensures
            r@ == self@ * factor,
    {
        let n = self.limbs.len();
        let mut out: Vec<u32> = Vec::new();
        let mut carry: u64 = 0;
        let mut i: usize = 0;
        assert(self.limbs@.skip(0) =~= self.limbs@);
        while i < n
            invariant
                n == self.limbs@.len(),
                i <= n,
                carry < 0x1_0000_0000,
                limbs_value_under(
                    out@,
                    carry as nat + factor as nat * limbs_value(self.limbs@.skip(i as int)),
                ) == factor as nat * limbs_value(self.limbs@),
            decreases n - i,
        {
            let limb = self.limbs[i];
            assert((limb as u64) * (factor as u64) + carry <= 0xffff_ffff * 0xffff_ffff
                + 0xffff_ffff) by (nonlinear_arith)
                requires
                    limb <= 0xffff_ffff,
                    factor <= 0xffff_ffff,
                    carry <= 0xffff_ffff,
            ;
            let cur: u64 = (limb as u64) * (factor as u64) + carry;
            let low: u32 = (cur % 0x1_0000_0000) as u32;
            let high: u64 = cur / 0x1_0000_0000;
            proof {
                let rest = limbs_value(self.limbs@.skip(i as int + 1));
                let here = limbs_value(self.limbs@.skip(i as int));
                assert(self.limbs@.skip(i as int).drop_first() =~= self.limbs@.skip(i as int + 1));
                assert(here == limb as nat + radix() * rest);
                lemma_push_limb(out@, low, high as nat + factor as nat * rest);
                assert(low as nat + radix() * (high as nat + factor as nat * rest) == carry as nat
                    + factor as nat * here) by (nonlinear_arith)
                    requires
                        here == limb as nat + radix() * rest,
                        cur == limb * factor + carry,
                        cur == low + radix() * high,
                ;
            }
            out.push(low);
            carry = high;
            i = i + 1;
        }
        proof {
            assert(self.limbs@.skip(n as int) =~= Seq::<u32>::empty());
            assert(factor as nat * limbs_value(Seq::<u32>::empty()) == 0) by (nonlinear_arith)
                requires
                    limbs_value(Seq::<u32>::empty()) == 0,
            ;
            lemma_push_limb(out@, carry as u32, 0);
            assert(factor as nat * limbs_value(self.limbs@) == limbs_value(self.limbs@)
                * factor as nat) by (nonlinear_arith);
        }
        out.push(carry as u32);
        Natural { limbs: out }
    }

    /// Whether this number is at most `other`.
    pub fn at_most(&self, other: &Natural) -> (r: bool)
        ensures
            r == (self@ <= other@),
    {
        let la = self.limbs.len();
        let lb = other.limbs.len();
        let n = if la >= lb {
            la
        } else {
            lb
        };
        let ghost pa = padded(self.limbs@, n as nat);
        let ghost pb = padded(other.limbs@, n as nat);
        proof {
            lemma_padding_keeps_value(self.limbs@, n as nat);
            lemma_padding_keeps_value(other.limbs@, n as nat);
        }
        let mut i: usize = n;
        while i > 0
            invariant
                i <= n,
                la == self.limbs@.len(),
                lb == other.limbs@.len(),
                n >= la,
                n >= lb,
                pa == padded(self.limbs@, n as nat),
                pb == padded(other.limbs@, n as nat),
                pa.len() == n,
                pb.len() == n,
                limbs_value(pa) == self@,
                limbs_value(pb) == other@,
                forall|j: int| i <= j < n ==> pa[j] == pb[j],
            decreases i,
        {
            i = i - 1;
            let x: u32 = if i < la {
                self.limbs[i]
            } else {
                0
            };
            let y: u32 = if i < lb {
                other.limbs[i]
            } else {
                0
            };
            assert(x == pa[i as int]);
            assert(y == pb[i as int]);
            if x < y {
                proof {
                    lemma_top_difference_decides(pa, pb, i as int);
                }
                return true;
            }
            if x > y {
                proof {
                    lemma_top_difference_decides(pb, pa, i as int);
                }
                return false;
            }
        }
        assert(pa =~= pb);
        true
    }
}

} // verus!
