//! 64-bit division for 32-bit machines, by shifting and subtracting.

use vstd::prelude::*;

verus! {

/// 2 to the power `e`.
pub open spec fn pow2i(e: nat) -> int
    decreases e,
{
    if e == 0 {
        1
    } else {
        2 * pow2i((e - 1) as nat)
    }
}

proof fn lemma_pow2i_pos(e: nat)
    ensures
        pow2i(e) >= 1,
    decreases e,
{
    if e > 0 {
        lemma_pow2i_pos((e - 1) as nat);
    }
}

/// The quotient and the remainder of `a` by `b`: the quotient's high word comes from the high
/// word of `a`; then `b` is doubled until it reaches what is left of `a` (or its top bit is set)
/// and subtracted back down, one bit of the quotient at a time.
pub fn __udivremi3(a: u64, b: u64) -> (r: (u64, u64))
    requires
        b != 0,
    ensures
        r.0 == a / b,
        r.1 == a % b,
{
    let ghost a0: int = a as int;
    let ghost b0: int = b as int;
    let mut a = a;
    let mut b = b;
    let mut res: u64 = 0;
    let mut hig: u64 = a >> 32;
    let mut d: u64 = 1;
    assert(a >> 32u64 == a / 0x1_0000_0000) by (bit_vector);
    if hig >= b {
        hig = hig / b;
        assert(hig * b <= a / 0x1_0000_0000) by (nonlinear_arith)
            requires
                hig == (a / 0x1_0000_0000) / b,
                b >= 1,
        ;
        assert((hig * b) * 0x1_0000_0000 <= a) by (nonlinear_arith)
            requires
                hig * b <= a / 0x1_0000_0000,
        ;
        let x = hig * b;
        assert(x < 0x1_0000_0000 ==> x << 32u64 == x * 0x1_0000_0000) by (bit_vector);
        assert(hig < 0x1_0000_0000 ==> hig << 32u64 == hig * 0x1_0000_0000) by (bit_vector);
        assert(hig <= x) by (nonlinear_arith)
            requires
                x == hig * b,
                b >= 1,
        ;
        res = hig << 32;
        a = a - (x << 32);
        assert(res * b0 + a == a0) by (nonlinear_arith)
            requires
                res == hig * 0x1_0000_0000,
                a == a0 - (hig * b0) * 0x1_0000_0000,
        ;
    }
    let ghost mut e: nat = 0;
    proof {
        assert(res * b0 + a == a0);
        assert(pow2i(0) == 1);
    }
    while b > 0 && b < a && b < 0x8000_0000_0000_0000
        invariant
            b0 >= 1,
            a0 <= u64::MAX,
            b == b0 * pow2i(e),
            d == pow2i(e),
            d <= b,
            res * b0 + a == a0,
        decreases 0x1_0000_0000_0000_0000 - b,
    {
        proof {
            lemma_pow2i_pos(e);
            assert(pow2i(e + 1) == 2 * pow2i(e));
            assert(b0 * pow2i(e + 1) == 2 * (b0 * pow2i(e))) by (nonlinear_arith)
                requires
                    pow2i(e + 1) == 2 * pow2i(e),
            ;
        }
        assert(b < 0x8000_0000_0000_0000 ==> b << 1u64 == 2 * b) by (bit_vector);
        assert(d < 0x8000_0000_0000_0000 ==> d << 1u64 == 2 * d) by (bit_vector);
        b = b << 1;
        d = d << 1;
        proof {
            e = e + 1;
        }
    }
    proof {
        lemma_pow2i_pos(e);
        assert(b > 0) by (nonlinear_arith)
            requires
                b == b0 * pow2i(e),
                b0 >= 1,
                pow2i(e) >= 1,
        ;
    }
    loop
        invariant_except_break
            b0 >= 1,
            a0 <= u64::MAX,
            b == b0 * pow2i(e),
            d == pow2i(e),
            a < 2 * b,
            res * b0 + a == a0,
        ensures
            res * b0 + a == a0,
            a < b0,
        decreases e,
    {
        if a >= b {
            proof {
                assert((res + d) * b0 == res * b0 + b) by (nonlinear_arith)
                    requires
                        b == b0 * d,
                ;
                assert(res + d <= a0) by (nonlinear_arith)
                    requires
                        (res + d) * b0 <= a0,
                        b0 >= 1,
                        res + d >= 0,
                ;
            }
            a = a - b;
            res = res + d;
        }
        if d == 1 {
            proof {
                assert(pow2i(e) == 1);
                lemma_pow2i_pos(e);
                if e > 0 {
                    lemma_pow2i_pos((e - 1) as nat);
                }
            }
            assert(1u64 >> 1u64 == 0) by (bit_vector);
            b = b >> 1;
            d = d >> 1;
            break;
        }
        proof {
            lemma_pow2i_pos(e);
            if e == 0 {
                assert(pow2i(0) == 1);
            }
            assert(e > 0);
            lemma_pow2i_pos((e - 1) as nat);
            assert(pow2i(e) == 2 * pow2i((e - 1) as nat));
            assert(b == 2 * (b0 * pow2i((e - 1) as nat))) by (nonlinear_arith)
                requires
                    b == b0 * pow2i(e),
                    pow2i(e) == 2 * pow2i((e - 1) as nat),
            ;
        }
        assert(b >> 1u64 == b / 2) by (bit_vector);
        assert(d >> 1u64 == d / 2) by (bit_vector);
        b = b >> 1;
        d = d >> 1;
        proof {
            e = (e - 1) as nat;
        }
    }
    proof {
        vstd::arithmetic::div_mod::lemma_fundamental_div_mod_converse(a0, b0, res as int, a as int);
    }
    (res, a)
}

/// 64-bit division on a 32-bit machine.
pub fn __udivdi3(a: u64, b: u64) -> (r: u64)
    requires
        b != 0,
    ensures
        r == a / b,
{
    __udivremi3(a, b).0
}

/// 64-bit remainder on a 32-bit machine.
pub fn __umoddi3(a: u64, b: u64) -> (r: u64)
    requires
        b != 0,
    ensures
        r == a % b,
{
    __udivremi3(a, b).1
}

} // verus!
