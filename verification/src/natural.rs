//! Natural numbers of any size, for exact sums of times.
use vstd::prelude::*;

verus! {

/// A natural number, as limbs of 32 bits, the lowest first.
#[derive(Debug)]
pub struct Natural {
    limbs: Vec<u32>,
}

/// `2^(32 n)`.
pub open spec fn limb_weight(n: nat) -> nat
    decreases n,
{
    if n == 0 {
        1
    } else {
        0x1_0000_0000 * limb_weight((n - 1) as nat)
    }
}

/// The limb at position `i`, zero beyond the highest one.
pub open spec fn limb(s: Seq<u32>, i: int) -> nat {
    if 0 <= i < s.len() {
        s[i] as nat
    } else {
        0
    }
}

/// The number that the lowest `n` limbs stand for.
pub open spec fn low(s: Seq<u32>, n: nat) -> nat
    decreases n,
{
    if n == 0 {
        0
    } else {
        low(s, (n - 1) as nat) + limb(s, n - 1) * limb_weight((n - 1) as nat)
    }
}

/// The number that all limbs stand for.
pub open spec fn value(s: Seq<u32>) -> nat {
    low(s, s.len())
}

proof fn lemma_low_beyond(s: Seq<u32>, n: nat)
    requires
        n >= s.len(),
    ensures
        low(s, n) == value(s),
    decreases n,
{
    if n > s.len() {
        lemma_low_beyond(s, (n - 1) as nat);
        assert(limb(s, n - 1) * limb_weight((n - 1) as nat) == 0) by (nonlinear_arith)
            requires
                limb(s, n - 1) == 0,
        ;
    }
}

/// Only the lowest `n` limbs matter to `low`.
proof fn lemma_low_same(s: Seq<u32>, t: Seq<u32>, n: nat)
    requires
        forall|i: int| 0 <= i < n ==> limb(s, i) == limb(t, i),
    ensures
        low(s, n) == low(t, n),
    decreases n,
{
    if n > 0 {
        lemma_low_same(s, t, (n - 1) as nat);
    }
}

proof fn lemma_low_below(s: Seq<u32>, n: nat)
    ensures
        low(s, n) < limb_weight(n),
    decreases n,
{
    if n > 0 {
        lemma_low_below(s, (n - 1) as nat);
        let w = limb_weight((n - 1) as nat) as int;
        let d = limb(s, n - 1) as int;
        assert(d * w + w <= 0x1_0000_0000 * w) by (nonlinear_arith)
            requires
                0 <= d < 0x1_0000_0000,
                w >= 0,
        ;
    }
}

proof fn lemma_push(s: Seq<u32>, d: u32)
    ensures
        value(s.push(d)) == value(s) + d as nat * limb_weight(s.len()),
{
    lemma_low_same(s.push(d), s, s.len());
}

/// `hi` and `lo` are the upper and the lower half of `t`.
proof fn lemma_split(t: u64, hi: u64, lo: u32)
    requires
        hi == t >> 32,
        lo == (t & 0xffff_ffff) as u32,
    ensures
        t == hi * 0x1_0000_0000 + lo,
        hi < 0x1_0000_0000,
{
    assert(t == (t >> 32) * 0x1_0000_0000 + (t & 0xffff_ffff)) by (bit_vector);
    assert((t >> 32) < 0x1_0000_0000) by (bit_vector);
    assert((t & 0xffff_ffff) <= 0xffff_ffff) by (bit_vector);
}

fn limb_at(s: &Vec<u32>, i: usize) -> (d: u64)
    ensures
        d == limb(s@, i as int),
        d < 0x1_0000_0000,
{
    if i < s.len() {
        s[i] as u64
    } else {
        0
    }
}

/// Splits a sum into a limb and a carry.
fn split(t: u64) -> (halves: (u64, u32))
    ensures
        t == halves.0 * 0x1_0000_0000 + halves.1,
        halves.0 < 0x1_0000_0000,
{
    let hi: u64 = t >> 32;
    assert((t & 0xffff_ffff) <= 0xffff_ffff) by (bit_vector);
    let lo: u32 = (t & 0xffff_ffff) as u32;
    proof {
        lemma_split(t, hi, lo);
    }
    (hi, lo)
}

impl View for Natural {
    type V = nat;

    closed spec fn view(&self) -> nat {
        value(self.limbs@)
    }
}

impl Natural {
    /// The number `n`.
    pub fn from_u64(n: u64) -> (number: Self)
        ensures
            number@ == n,
    {
        let (hi, lo) = split(n);
        let limbs: Vec<u32> = vec![lo, hi as u32];
        assert(limbs@ =~= seq![lo].push(hi as u32));
        proof {
            assert(seq![lo] =~= Seq::<u32>::empty().push(lo));
            lemma_push(Seq::<u32>::empty(), lo);
            lemma_push(seq![lo], hi as u32);
            assert(limb_weight(0) == 1 && limb_weight(1) == 0x1_0000_0000) by {
                reveal_with_fuel(limb_weight, 2);
            }
            assert(lo as nat * 1 == lo) by (nonlinear_arith);
            assert(value(seq![lo]) == lo);
            assert(hi * 0x1_0000_0000 == (hi as u32) as nat * limb_weight(1));
        }
        Natural { limbs }
    }

    /// The limbs of 32 bits, the lowest first.
    pub fn limbs(&self) -> (limbs: &Vec<u32>)
        ensures
            value(limbs@) == self@,
    {
        &self.limbs
    }

    /// A copy.
    pub fn copy(&self) -> (number: Self)
        ensures
            number@ == self@,
    {
        Natural { limbs: self.limbs.clone() }
    }

    /// The sum.
    pub fn plus(&self, other: &Natural) -> (sum: Self)
        ensures
            sum@ == self@ + other@,
    {
        let (a, b) = (&self.limbs, &other.limbs);
        let n: usize = if a.len() >= b.len() {
            a.len()
        } else {
            b.len()
        };
        let mut out: Vec<u32> = Vec::new();
        let mut carry: u64 = 0;
        let mut i: usize = 0;
        while i < n
            invariant
                i <= n,
                out@.len() == i,
                carry <= 1,
                value(out@) + carry as nat * limb_weight(i as nat) == low(a@, i as nat) + low(
                    b@,
                    i as nat,
                ),
            decreases n - i,
        {
            let (x, y) = (limb_at(a, i), limb_at(b, i));
            let (hi, lo) = split(x + y + carry);
            proof {
                lemma_push(out@, lo);
                let w = limb_weight(i as nat) as int;
                assert(lo * w + hi * (0x1_0000_0000 * w) == x * w + y * w + carry * w)
                    by (nonlinear_arith)
                    requires
                        x + y + carry == hi * 0x1_0000_0000 + lo,
                ;
            }
            out.push(lo);
            carry = hi;
            i = i + 1;
        }
        proof {
            lemma_low_beyond(a@, n as nat);
            lemma_low_beyond(b@, n as nat);
            lemma_push(out@, carry as u32);
        }
        out.push(carry as u32);
        Natural { limbs: out }
    }

    /// The product with one limb.
    fn times_limb(&self, d: u32) -> (product: Self)
        ensures
            product@ == self@ * d as nat,
    {
        let a = &self.limbs;
        let mut out: Vec<u32> = Vec::new();
        let mut carry: u64 = 0;
        let mut i: usize = 0;
        assert(0 * d as nat == 0) by (nonlinear_arith);
        while i < a.len()
            invariant
                i <= a@.len(),
                out@.len() == i,
                carry < 0x1_0000_0000,
                value(out@) + carry as nat * limb_weight(i as nat) == low(a@, i as nat) * d as nat,
            decreases a@.len() - i,
        {
            let x: u64 = limb_at(a, i);
            assert(x * d as u64 <= 0xffff_ffff * 0xffff_ffff) by (nonlinear_arith)
                requires
                    x <= 0xffff_ffff,
                    d <= 0xffff_ffff,
            ;
            let (hi, lo) = split(x * d as u64 + carry);
            proof {
                lemma_push(out@, lo);
                let w = limb_weight(i as nat) as int;
                let l = low(a@, i as nat) as int;
                assert(lo * w + hi * (0x1_0000_0000 * w) == x * d * w + carry * w)
                    by (nonlinear_arith)
                    requires
                        x * d + carry == hi * 0x1_0000_0000 + lo,
                ;
                assert((l + x * w) * d == l * d + x * d * w) by (nonlinear_arith);
            }
            out.push(lo);
            carry = hi;
            i = i + 1;
        }
        proof {
            lemma_push(out@, carry as u32);
        }
        out.push(carry as u32);
        Natural { limbs: out }
    }

    /// The product with `2^32`.
    fn shifted(&self) -> (product: Self)
        ensures
            product@ == self@ * 0x1_0000_0000,
    {
        let a = &self.limbs;
        let mut out: Vec<u32> = Vec::new();
        out.push(0);
        proof {
            lemma_push(Seq::<u32>::empty(), 0);
            assert(out@ =~= Seq::<u32>::empty().push(0));
        }
        let mut i: usize = 0;
        while i < a.len()
            invariant
                i <= a@.len(),
                out@.len() == i + 1,
                value(out@) == low(a@, i as nat) * 0x1_0000_0000,
            decreases a@.len() - i,
        {
            proof {
                lemma_push(out@, a@[i as int]);
                let w = limb_weight(i as nat) as int;
                let (l, x) = (low(a@, i as nat) as int, a@[i as int] as int);
                assert((l + x * w) * 0x1_0000_0000 == l * 0x1_0000_0000 + x * (0x1_0000_0000 * w))
                    by (nonlinear_arith);
            }
            out.push(a[i]);
            i = i + 1;
        }
        Natural { limbs: out }
    }

    /// The product.
    pub fn times(&self, other: &Natural) -> (product: Self)
        ensures
            product@ == self@ * other@,
    {
        let a = &self.limbs;
        let mut sum = Natural::from_u64(0);
        let mut weighted = other.copy();
        let mut i: usize = 0;
        proof {
            assert(0 * other@ == 0 && other@ * 1 == other@) by (nonlinear_arith);
        }
        while i < a.len()
            invariant
                i <= a@.len(),
                weighted@ == other@ * limb_weight(i as nat),
                sum@ == low(a@, i as nat) * other@,
            decreases a@.len() - i,
        {
            proof {
                let w = limb_weight(i as nat) as int;
                let (l, x, o) = (low(a@, i as nat) as int, a@[i as int] as int, other@ as int);
                assert((l + x * w) * o == l * o + (o * w) * x) by (nonlinear_arith);
                assert((o * w) * 0x1_0000_0000 == o * (0x1_0000_0000 * w)) by (nonlinear_arith);
            }
            sum = sum.plus(&weighted.times_limb(a[i]));
            weighted = weighted.shifted();
            i = i + 1;
        }
        sum
    }

    /// Whether `self` is smaller than `other`.
    pub fn less(&self, other: &Natural) -> (smaller: bool)
        ensures
            smaller == (self@ < other@),
    {
        let (a, b) = (&self.limbs, &other.limbs);
        let n: usize = if a.len() >= b.len() {
            a.len()
        } else {
            b.len()
        };
        let mut smaller: bool = false;
        let mut i: usize = 0;
        while i < n
            invariant
                i <= n,
                smaller == (low(a@, i as nat) < low(b@, i as nat)),
            decreases n - i,
        {
            let (x, y) = (limb_at(a, i), limb_at(b, i));
            proof {
                lemma_low_below(a@, i as nat);
                lemma_low_below(b@, i as nat);
                let w = limb_weight(i as nat) as int;
                if x < y {
                    assert(x * w + w <= y * w) by (nonlinear_arith)
                        requires
                            x + 1 <= y,
                            w >= 0,
                    ;
                } else if y < x {
                    assert(y * w + w <= x * w) by (nonlinear_arith)
                        requires
                            y + 1 <= x,
                            w >= 0,
                    ;
                }
            }
            if x < y {
                smaller = true;
            } else if y < x {
                smaller = false;
            }
            i = i + 1;
        }
        proof {
            lemma_low_beyond(a@, n as nat);
            lemma_low_beyond(b@, n as nat);
        }
        smaller
    }
}

} // verus!
