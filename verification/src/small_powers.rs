//! The small-power table: every power of the radix that fits in one limb.

use vstd::prelude::*;

use vstd::arithmetic::power::pow;

use crate::bignum::Limb;

verus! {

/// The powers of `radix` that fit in one limb, in increasing order:
/// entry `i` is `radix^i`, and one more power would exceed the limb.
pub fn get_small_powers(radix: u32) -> (r: Vec<Limb>)
    requires
        2 <= radix <= 36,
    ensures
        r@.len() >= 2,
        forall|i: int| 0 <= i < r@.len() ==> #[trigger] r@[i] == pow(radix as int, i as nat),
        pow(radix as int, r@.len() as nat) > u64::MAX,
{
    let r64: u64 = radix as u64;
    let mut v: Vec<Limb> = Vec::new();
    v.push(1u64);
    proof {
        vstd::arithmetic::power::lemma_pow0(radix as int);
    }
    let mut last: u64 = 1;
    while last <= u64::MAX / r64
        invariant
            2 <= r64 <= 36,
            r64 == radix,
            v@.len() >= 1,
            1 <= last <= u64::MAX,
            last == v@[v@.len() - 1],
            last == pow(radix as int, (v@.len() - 1) as nat),
            forall|i: int| 0 <= i < v@.len() ==> #[trigger] v@[i] == pow(radix as int, i as nat),
        decreases u64::MAX - last,
    {
        proof {
            reveal(pow);
            vstd::arithmetic::div_mod::lemma_fundamental_div_mod(u64::MAX as int, r64 as int);
            assert(last * r64 <= (u64::MAX / r64) * r64) by (nonlinear_arith)
                requires
                    last <= u64::MAX / r64,
                    r64 >= 2,
            ;
            assert(last * r64 >= 2 * last) by (nonlinear_arith)
                requires
                    last >= 1,
                    r64 >= 2,
            ;
            assert(last * r64 == r64 * last) by (nonlinear_arith);
            assert(pow(radix as int, v@.len() as nat) == radix * pow(
                radix as int,
                (v@.len() - 1) as nat,
            ));
        }
        let next = last * r64;
        v.push(next);
        last = next;
    }
    proof {
        reveal(pow);
        let len = v@.len() as int;
        vstd::arithmetic::div_mod::lemma_div_is_ordered_by_denominator(
            u64::MAX as int,
            r64 as int,
            36,
        );
        assert(u64::MAX as int / 36 >= 1);
        assert(u64::MAX / r64 >= 1);
        if len < 2 {
            assert(last == 1);
            assert(false);
        }
        vstd::arithmetic::div_mod::lemma_fundamental_div_mod(u64::MAX as int, r64 as int);
        vstd::arithmetic::div_mod::lemma_mod_bound(u64::MAX as int, r64 as int);
        assert(last * r64 > u64::MAX) by (nonlinear_arith)
            requires
                last > u64::MAX / r64,
                r64 >= 2,
                u64::MAX == r64 * (u64::MAX / r64) + u64::MAX % r64,
                u64::MAX % r64 < r64,
        ;
        assert(pow(radix as int, len as nat) == radix * pow(radix as int, (len - 1) as nat));
        assert((radix as int) * (last as int) == (last as int) * (r64 as int)) by (nonlinear_arith)
            requires
                r64 == radix,
        ;
    }
    v
}

} // verus!
