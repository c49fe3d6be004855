use vstd::prelude::*;

verus! {

/// Greatest common divisor, by Euclid's recursion.
pub open spec fn gcd_spec(a: nat, b: nat) -> nat
    decreases b,
{
    if b == 0 {
        a
    } else {
        gcd_spec(b, a % b)
    }
}

/// The greatest common divisor of two positive integers, by Euclid's algorithm.
pub fn gcd(n: u64, m: u64) -> (r: u64)
    requires
        n != 0,
        m != 0,
    ensures
        r == gcd_spec(n as nat, m as nat),
{
    let ghost n0 = n;
    let ghost m0 = m;
    let mut n = n;
    let mut m = m;
    while m != 0
        invariant
            n != 0,
            gcd_spec(n as nat, m as nat) == gcd_spec(n0 as nat, m0 as nat),
        decreases m,
    {
        proof {
            if m > n {
                assert(gcd_spec(n as nat, m as nat) == gcd_spec(m as nat, (n % m) as nat));
                vstd::arithmetic::div_mod::lemma_small_mod(n as nat, m as nat);
                assert(gcd_spec(m as nat, n as nat) == gcd_spec(n as nat, (m % n) as nat));
            }
        }
        if m < n {
            let t = m;
            m = n;
            n = t;
        }
        m = m % n;
    }
    n
}

} // verus!
