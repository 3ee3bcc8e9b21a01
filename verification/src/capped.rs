//! Arithmetic on sizes that may outgrow 64 bits. A capped number is exact below `CAP` and stands
//! for "at least `CAP`" otherwise, so sums and products never overflow, and whether the true
//! value fits is read off at the end.
use crate::ir::numel;
use vstd::prelude::*;

verus! {

/// The first number that 64 bits do not hold.
pub const CAP: u128 = 0x1_0000_0000_0000_0000;

/// `x` cut off at `CAP`.
pub open spec fn cap(x: nat) -> nat {
    if x < CAP {
        x
    } else {
        CAP as nat
    }
}

/// The capped sum.
pub fn cap_add(a: u128, b: u128) -> (sum: u128)
    requires
        a <= CAP,
        b <= CAP,
    ensures
        sum == cap(a as nat + b as nat),
{
    let sum: u128 = a + b;
    if sum < CAP {
        sum
    } else {
        CAP
    }
}

/// The capped product.
pub fn cap_mul(a: u128, b: u128) -> (product: u128)
    requires
        a <= CAP,
        b <= CAP,
    ensures
        product == cap(a as nat * b as nat),
{
    proof {
        let (x, y) = (a as int, b as int);
        if a < CAP && b < CAP {
            assert(x * y <= 0xffff_ffff_ffff_ffff * 0xffff_ffff_ffff_ffff) by (nonlinear_arith)
                requires
                    0 <= x <= 0xffff_ffff_ffff_ffff,
                    0 <= y <= 0xffff_ffff_ffff_ffff,
            ;
        } else if a != 0 && b != 0 {
            assert(x * y >= x && x * y >= y) by (nonlinear_arith)
                requires
                    x >= 1,
                    y >= 1,
            ;
        }
        assert(0 * y == 0 && x * 0 == 0);
    }
    if a == 0 || b == 0 {
        0
    } else if a == CAP || b == CAP {
        CAP
    } else {
        let product: u128 = a * b;
        if product < CAP {
            product
        } else {
            CAP
        }
    }
}

/// Capping the factors does not change the capped product.
pub proof fn lemma_cap_mul(x: nat, y: nat)
    ensures
        cap(cap(x) * cap(y)) == cap(x * y),
{
    if x == 0 || y == 0 {
        assert(x * y == 0 && cap(x) * cap(y) == 0) by (nonlinear_arith)
            requires
                x == 0 || y == 0,
                x == 0 ==> cap(x) == 0,
                y == 0 ==> cap(y) == 0,
        ;
    } else if x >= CAP || y >= CAP {
        assert(x * y >= x && x * y >= y) by (nonlinear_arith)
            requires
                x >= 1,
                y >= 1,
        ;
        let (a, b) = (cap(x), cap(y));
        assert(a * b >= a && a * b >= b) by (nonlinear_arith)
            requires
                a >= 1,
                b >= 1,
        ;
    }
}

/// The number of elements of a tensor of shape `s`, capped.
pub fn capped_numel(s: &Vec<usize>) -> (count: u128)
    ensures
        count == cap(numel(s@)),
        count <= CAP,
{
    let mut count: u128 = 1;
    let mut i: usize = 0;
    while i < s.len()
        invariant
            i <= s@.len(),
            count == cap(numel(s@.take(i as int))),
            count <= CAP,
        decreases s@.len() - i,
    {
        proof {
            let next = s@.take(i as int + 1);
            assert(next.drop_last() =~= s@.take(i as int));
            lemma_cap_mul(numel(s@.take(i as int)), s@[i as int] as nat);
            assert(cap(s@[i as int] as nat) == s@[i as int]);
        }
        count = cap_mul(count, s[i] as u128);
        i = i + 1;
    }
    assert(s@.take(s@.len() as int) =~= s@);
    count
}

} // verus!
