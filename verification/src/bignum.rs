//! Big integer and big float storage for the accurate float path: a
//! little-endian limb buffer, and the same buffer paired with a binary
//! exponent so that multiplying by a power of two is a pure exponent bump.

use vstd::prelude::*;

use vstd::arithmetic::power::pow;

verus! {

/// One machine word of the big-integer representation.
pub type Limb = u64;

/// The number of values one limb can hold: `2^64`.
pub const LIMB_RADIX: u128 = 0x1_0000_0000_0000_0000;

/// The value of a little-endian limb sequence.
pub open spec fn limbs_val(s: Seq<Limb>) -> int
    decreases s.len(),
{
    if s.len() == 0 {
        0
    } else {
        s[0] + limbs_val(s.skip(1)) * (LIMB_RADIX as int)
    }
}

/// A normalized limb buffer carries no trailing zero limbs.
pub open spec fn limbs_normalized(s: Seq<Limb>) -> bool {
    s.len() == 0 || s.last() != 0
}

/// The value of a one-limb buffer is that limb.
proof fn lemma_limbs_val_single(x: Limb)
    ensures
        limbs_val(seq![x]) == x,
{
    let s = seq![x];
    assert(s.skip(1) =~= Seq::<Limb>::empty());
    assert(limbs_val(s) == s[0] + limbs_val(s.skip(1)) * (LIMB_RADIX as int));
}

/// The value of a two-limb buffer.
proof fn lemma_limbs_val_pair(lo: Limb, hi: Limb)
    ensures
        limbs_val(seq![lo, hi]) == lo + hi * (LIMB_RADIX as int),
{
    assert(seq![lo, hi].skip(1) =~= seq![hi]);
    lemma_limbs_val_single(hi);
}

/// The place value of limb position `i`: `2^(64*i)`.
pub open spec fn place(i: int) -> int {
    pow(LIMB_RADIX as int, i as nat)
}

/// Place values are positive and grow by one limb radix per position.
pub proof fn lemma_place_step(i: int)
    requires
        i >= 0,
    ensures
        place(i + 1) == place(i) * (LIMB_RADIX as int),
        place(i) >= 1,
{
    reveal(pow);
    vstd::arithmetic::power::lemma_pow_positive(LIMB_RADIX as int, i as nat);
    assert((LIMB_RADIX as int) * place(i) == place(i) * (LIMB_RADIX as int)) by (nonlinear_arith);
}

/// A limb buffer splits at any position: the low part plus the high part
/// scaled by the place value.
pub proof fn lemma_limbs_val_split(s: Seq<Limb>, i: int)
    requires
        0 <= i <= s.len(),
    ensures
        limbs_val(s) == limbs_val(s.take(i)) + limbs_val(s.skip(i)) * place(i),
    decreases i,
{
    if i == 0 {
        assert(s.take(0) =~= Seq::<Limb>::empty());
        assert(s.skip(0) =~= s);
        assert(place(0) == 1) by {
            reveal(pow);
        }
    } else {
        let t = s.skip(1);
        lemma_limbs_val_split(t, i - 1);
        assert(t.take(i - 1) =~= s.take(i).skip(1));
        assert(t.skip(i - 1) =~= s.skip(i));
        lemma_place_step(i - 1);
        let b = LIMB_RADIX as int;
        let lo = limbs_val(s.take(i).skip(1));
        let hi = limbs_val(s.skip(i));
        let p = place(i - 1);
        assert(limbs_val(s) == s[0] + (lo + hi * p) * b);
        assert(s.take(i)[0] == s[0]);
        assert(s.take(i).len() == i);
        assert(limbs_val(s.take(i)) == s[0] + lo * b);
        assert((lo + hi * p) * b == lo * b + hi * (p * b)) by (nonlinear_arith);
    }
}

/// Appending a limb adds it at the top place value.
pub proof fn lemma_limbs_val_push(s: Seq<Limb>, c: Limb)
    ensures
        limbs_val(s.push(c)) == limbs_val(s) + c * place(s.len() as int),
{
    lemma_limbs_val_split(s.push(c), s.len() as int);
    assert(s.push(c).take(s.len() as int) =~= s);
    assert(s.push(c).skip(s.len() as int) =~= seq![c]);
    lemma_limbs_val_single(c);
}

/// Replacing one limb changes the value by the difference at its place.
pub proof fn lemma_limbs_val_update(s: Seq<Limb>, i: int, v: Limb)
    requires
        0 <= i < s.len(),
    ensures
        limbs_val(s.update(i, v)) == limbs_val(s) + (v - s[i]) * place(i),
{
    let u = s.update(i, v);
    lemma_limbs_val_split(s, i);
    lemma_limbs_val_split(u, i);
    assert(u.take(i) =~= s.take(i));
    assert(u.skip(i).skip(1) =~= s.skip(i).skip(1));
    assert(u.skip(i)[0] == v);
    assert(s.skip(i)[0] == s[i]);
    assert(u.skip(i).len() == s.skip(i).len());
    assert(limbs_val(u.skip(i)) == limbs_val(s.skip(i)) + v - s[i]);
    let p = place(i);
    let hs = limbs_val(s.skip(i));
    assert((hs + v - s[i]) * p == hs * p + (v - s[i]) * p) by (nonlinear_arith);
}

/// A limb buffer's value is non-negative.
pub proof fn lemma_limbs_val_nonneg(s: Seq<Limb>)
    ensures
        limbs_val(s) >= 0,
    decreases s.len(),
{
    if s.len() > 0 {
        lemma_limbs_val_nonneg(s.skip(1));
        assert(limbs_val(s.skip(1)) * (LIMB_RADIX as int) >= 0) by (nonlinear_arith)
            requires
                limbs_val(s.skip(1)) >= 0,
        ;
    }
}

/// A limb buffer's value is below the place value of its length.
pub proof fn lemma_limbs_val_upper(s: Seq<Limb>)
    ensures
        limbs_val(s) < place(s.len() as int),
    decreases s.len(),
{
    if s.len() == 0 {
        assert(place(0) == 1) by {
            reveal(pow);
        }
    } else {
        lemma_limbs_val_upper(s.skip(1));
        lemma_limbs_val_nonneg(s.skip(1));
        lemma_place_step(s.len() - 1);
        let b = LIMB_RADIX as int;
        let t = limbs_val(s.skip(1));
        let p = place(s.len() - 1);
        assert(s[0] + t * b <= (b - 1) + (p - 1) * b) by (nonlinear_arith)
            requires
                0 <= s[0] < b,
                t <= p - 1,
                b >= 1,
        ;
        assert((b - 1) + (p - 1) * b == p * b - 1) by (nonlinear_arith);
    }
}

/// A normalized non-empty buffer reaches the place value of its last limb.
pub proof fn lemma_limbs_val_lower(s: Seq<Limb>)
    requires
        s.len() > 0,
        s.last() != 0,
    ensures
        limbs_val(s) >= place(s.len() - 1),
{
    assert(s =~= s.drop_last().push(s.last()));
    lemma_limbs_val_push(s.drop_last(), s.last());
    lemma_limbs_val_nonneg(s.drop_last());
    lemma_place_step(s.len() - 1);
    assert(s.last() * place(s.len() - 1) >= place(s.len() - 1)) by (nonlinear_arith)
        requires
            s.last() >= 1,
            place(s.len() - 1) >= 1,
    ;
}

/// Storage for a big integer, in little-endian limb order.
#[derive(Debug, Clone, PartialEq, Eq)]
pub struct Bigint {
    /// Internal storage for the value, in little-endian order.
    pub data: Vec<Limb>,
}

impl Default for Bigint {
    /// An empty buffer: the value zero.
    fn default() -> (r: Self)
        ensures
            r.data@ == Seq::<Limb>::empty(),
    {
        Bigint { data: Vec::new() }
    }
}

impl Bigint {
    /// Read access to the limb buffer.
    pub fn data(&self) -> (r: &Vec<Limb>)
        ensures
            r@ == self.data@,
    {
        &self.data
    }

    /// Mutable access to the limb buffer.
    pub fn data_mut(&mut self) -> (r: &mut Vec<Limb>)
        ensures
            *r == old(self).data,
            final(self).data == *final(r),
    {
        &mut self.data
    }

    /// Add a small value in place, propagating the carry.
    pub fn iadd_small(&mut self, y: Limb)
        requires
            limbs_normalized(old(self).data@),
        ensures
            limbs_val(final(self).data@) == limbs_val(old(self).data@) + y,
            limbs_normalized(final(self).data@),
    {
        let ghost orig = self.data@;
        let mut carry: u64 = y;
        let mut i: usize = 0;
        proof {
            lemma_place_step(0);
            assert(place(0) == 1) by {
                reveal(pow);
            }
        }
        while carry > 0 && i < self.data.len()
            invariant
                0 <= i <= self.data@.len(),
                self.data@.len() == orig.len(),
                limbs_normalized(orig),
                self.data@.skip(i as int) == orig.skip(i as int),
                limbs_val(self.data@) + carry * place(i as int) == limbs_val(orig) + y,
                carry == 0 && i > 0 ==> self.data@[i - 1] != 0,
            decreases self.data@.len() - i,
        {
            let limb = self.data[i];
            proof {
                assert(self.data@[i as int] == self.data@.skip(i as int)[0]);
            }
            let sum: u128 = limb as u128 + carry as u128;
            let lo: u64 = (sum % LIMB_RADIX) as u64;
            let hi: u64 = (sum / LIMB_RADIX) as u64;
            let ghost before = self.data@;
            self.data.set(i, lo);
            proof {
                vstd::arithmetic::div_mod::lemma_fundamental_div_mod(
                    sum as int,
                    LIMB_RADIX as int,
                );
                vstd::arithmetic::div_mod::lemma_mod_bound(sum as int, LIMB_RADIX as int);
                lemma_limbs_val_update(before, i as int, lo);
                lemma_place_step(i as int);
                let b = LIMB_RADIX as int;
                let p = place(i as int);
                assert((lo - limb) * p + hi * (p * b) == (lo + hi * b - limb) * p)
                    by (nonlinear_arith);
                assert(lo + hi * b == sum) by (nonlinear_arith)
                    requires
                        sum == b * hi + lo,
                ;
                assert(sum / LIMB_RADIX < LIMB_RADIX) by (nonlinear_arith)
                    requires
                        sum < LIMB_RADIX * LIMB_RADIX,
                ;
                assert forall|j: int| 0 <= j < self.data@.skip(i + 1).len() implies #[trigger] self.data@.skip(
                    i + 1,
                )[j] == orig.skip(i + 1)[j] by {
                    assert(self.data@.skip(i + 1)[j] == before[i + 1 + j]);
                    assert(before.skip(i as int)[j + 1] == before[i + 1 + j]);
                    assert(orig.skip(i as int)[j + 1] == orig[i + 1 + j]);
                    assert(orig.skip(i + 1)[j] == orig[i + 1 + j]);
                }
                assert(self.data@.skip(i + 1) =~= orig.skip(i + 1));
                if hi == 0 {
                    assert(lo == sum);
                    assert(lo >= carry);
                }
            }
            carry = hi;
            i = i + 1;
        }
        if carry > 0 {
            proof {
                assert(i == self.data@.len());
                lemma_limbs_val_push(self.data@, carry);
            }
            self.data.push(carry);
        } else {
            proof {
                if i > 0 {
                    if i < self.data@.len() {
                        assert(self.data@.last() == orig.skip(i as int)[orig.len() - 1 - i]);
                    }
                } else {
                    assert(self.data@.skip(0) =~= self.data@);
                    assert(orig.skip(0) =~= orig);
                }
            }
        }
    }

    /// Multiply by a small non-zero value in place, limb by limb.
    pub fn imul_small(&mut self, y: Limb)
        requires
            limbs_normalized(old(self).data@),
            y >= 1,
        ensures
            limbs_val(final(self).data@) == limbs_val(old(self).data@) * y,
            limbs_normalized(final(self).data@),
    {
        let ghost orig = self.data@;
        let mut carry: u64 = 0;
        let mut i: usize = 0;
        proof {
            assert(place(0) == 1) by {
                reveal(pow);
            }
            assert(orig.take(0) =~= Seq::<Limb>::empty());
            assert(limbs_val(Seq::<Limb>::empty()) * y == 0) by (nonlinear_arith);
        }
        while i < self.data.len()
            invariant
                0 <= i <= self.data@.len(),
                self.data@.len() == orig.len(),
                limbs_normalized(orig),
                y >= 1,
                self.data@.skip(i as int) == orig.skip(i as int),
                limbs_val(self.data@.take(i as int)) + carry * place(i as int) == limbs_val(
                    orig.take(i as int),
                ) * y,
                i > 0 ==> self.data@[i - 1] + carry * (LIMB_RADIX as int) >= orig[i - 1],
            decreases self.data@.len() - i,
        {
            let limb = self.data[i];
            proof {
                assert(self.data@[i as int] == self.data@.skip(i as int)[0]);
                assert(orig[i as int] == orig.skip(i as int)[0]);
            }
            proof {
                assert(limb as int * y as int + carry as int <= (LIMB_RADIX as int) * (
                LIMB_RADIX as int) - LIMB_RADIX as int) by (nonlinear_arith)
                    requires
                        limb as int <= LIMB_RADIX as int - 1,
                        y as int <= LIMB_RADIX as int - 1,
                        carry as int <= LIMB_RADIX as int - 1,
                ;
            }
            let sum: u128 = limb as u128 * y as u128 + carry as u128;
            let lo: u64 = (sum % LIMB_RADIX) as u64;
            let hi: u64 = (sum / LIMB_RADIX) as u64;
            let ghost before = self.data@;
            self.data.set(i, lo);
            proof {
                vstd::arithmetic::div_mod::lemma_fundamental_div_mod(
                    sum as int,
                    LIMB_RADIX as int,
                );
                vstd::arithmetic::div_mod::lemma_mod_bound(sum as int, LIMB_RADIX as int);
                assert(sum / LIMB_RADIX < LIMB_RADIX) by (nonlinear_arith)
                    requires
                        sum < LIMB_RADIX * LIMB_RADIX,
                ;
                lemma_place_step(i as int);
                let b = LIMB_RADIX as int;
                let p = place(i as int);
                assert(self.data@.take(i + 1) =~= before.take(i as int).push(lo));
                lemma_limbs_val_push(before.take(i as int), lo);
                assert(orig.take(i + 1) =~= orig.take(i as int).push(orig[i as int]));
                lemma_limbs_val_push(orig.take(i as int), orig[i as int]);
                assert(lo + hi * b == sum) by (nonlinear_arith)
                    requires
                        sum == b * hi + lo,
                ;
                // the new prefix value plus the carried part equals the
                // old prefix value scaled by y
                assert((limbs_val(orig.take(i as int)) + limb * p) * y == limbs_val(
                    orig.take(i as int),
                ) * y + (limb * y) * p) by (nonlinear_arith);
                assert(lo * p + hi * (p * b) == (lo + hi * b) * p) by (nonlinear_arith);
                assert((limb * y + carry) * p == (limb * y) * p + carry * p)
                    by (nonlinear_arith);
                assert forall|j: int| 0 <= j < self.data@.skip(i + 1).len() implies #[trigger] self.data@.skip(
                    i + 1,
                )[j] == orig.skip(i + 1)[j] by {
                    assert(self.data@.skip(i + 1)[j] == before[i + 1 + j]);
                    assert(before.skip(i as int)[j + 1] == before[i + 1 + j]);
                    assert(orig.skip(i as int)[j + 1] == orig[i + 1 + j]);
                    assert(orig.skip(i + 1)[j] == orig[i + 1 + j]);
                }
                assert(self.data@.skip(i + 1) =~= orig.skip(i + 1));
                assert(sum >= limb) by (nonlinear_arith)
                    requires
                        sum == limb * y + carry,
                        carry >= 0,
                        limb >= 0,
                        y >= 1,
                ;
            }
            carry = hi;
            i = i + 1;
        }
        proof {
            assert(self.data@.take(i as int) =~= self.data@);
            assert(orig.take(i as int) =~= orig);
        }
        if carry > 0 {
            proof {
                lemma_limbs_val_push(self.data@, carry);
            }
            self.data.push(carry);
        } else {
            proof {
                if i > 0 {
                    assert(orig.last() != 0);
                    assert(self.data@[i - 1] >= orig[i - 1]);
                    assert(orig[i - 1] == orig.last());
                } else {
                    assert(self.data@.skip(0) =~= self.data@);
                    assert(orig.skip(0) =~= orig);
                }
            }
        }
    }

    /// Shift left by whole limbs: multiply by the limb radix `n` times.
    pub fn ishl_limbs(&mut self, n: usize)
        requires
            limbs_normalized(old(self).data@),
        ensures
            limbs_val(final(self).data@) == limbs_val(old(self).data@) * place(n as int),
            limbs_normalized(final(self).data@),
    {
        let ghost orig = self.data@;
        if self.data.len() == 0 {
            proof {
                lemma_place_step(n as int);
                assert(0 * place(n as int) == 0) by (nonlinear_arith);
            }
            return ;
        }
        let mut k: usize = 0;
        proof {
            assert(place(0) == 1) by {
                reveal(pow);
            }
            assert(limbs_val(orig) * 1 == limbs_val(orig)) by (nonlinear_arith);
        }
        while k < n
            invariant
                0 <= k <= n,
                self.data@.len() == orig.len() + k,
                self.data@.len() > 0,
                limbs_val(self.data@) == limbs_val(orig) * place(k as int),
                self.data@.last() == orig.last(),
                limbs_normalized(orig),
                orig.len() > 0,
            decreases n - k,
        {
            let ghost before = self.data@;
            self.data.insert(0, 0);
            proof {
                assert(self.data@.skip(1) =~= before);
                assert(self.data@[0] == 0);
                assert(limbs_val(self.data@) == 0 + limbs_val(before) * (LIMB_RADIX as int));
                lemma_place_step(k as int);
                assert((limbs_val(orig) * place(k as int)) * (LIMB_RADIX as int) == limbs_val(
                    orig,
                ) * (place(k as int) * (LIMB_RADIX as int))) by (nonlinear_arith);
                assert(self.data@.last() == before.last());
            }
            k = k + 1;
        }
    }

    /// Compare two big integers by value: a longer normalized buffer is
    /// larger, and buffers of one length compare from the most
    /// significant limb down.
    pub fn compare(&self, other: &Bigint) -> (r: core::cmp::Ordering)
        requires
            limbs_normalized(self.data@),
            limbs_normalized(other.data@),
        ensures
            r == core::cmp::Ordering::Less <==> limbs_val(self.data@) < limbs_val(other.data@),
            r == core::cmp::Ordering::Equal <==> limbs_val(self.data@) == limbs_val(
                other.data@,
            ),
            r == core::cmp::Ordering::Greater <==> limbs_val(self.data@) > limbs_val(
                other.data@,
            ),
    {
        if self.data.len() > other.data.len() {
            proof {
                lemma_compare_longer(self.data@, other.data@);
            }
            return core::cmp::Ordering::Greater;
        }
        if self.data.len() < other.data.len() {
            proof {
                lemma_compare_longer(other.data@, self.data@);
            }
            return core::cmp::Ordering::Less;
        }
        let mut i: usize = self.data.len();
        proof {
            assert(self.data@.skip(i as int) =~= other.data@.skip(i as int));
        }
        while i > 0
            invariant
                0 <= i <= self.data@.len(),
                self.data@.len() == other.data@.len(),
                self.data@.skip(i as int) == other.data@.skip(i as int),
            decreases i,
        {
            let x = self.data[i - 1];
            let y = other.data[i - 1];
            if x != y {
                proof {
                    lemma_compare_at(self.data@, other.data@, i - 1);
                }
                if x > y {
                    return core::cmp::Ordering::Greater;
                } else {
                    return core::cmp::Ordering::Less;
                }
            }
            proof {
                assert forall|j: int| 0 <= j < self.data@.skip(i - 1).len() implies #[trigger] self.data@.skip(
                    i - 1,
                )[j] == other.data@.skip(i - 1)[j] by {
                    if j == 0 {
                        assert(self.data@.skip(i - 1)[0] == self.data@[i - 1]);
                        assert(other.data@.skip(i - 1)[0] == other.data@[i - 1]);
                    } else {
                        assert(self.data@.skip(i - 1)[j] == self.data@.skip(i as int)[j - 1]);
                        assert(other.data@.skip(i - 1)[j] == other.data@.skip(i as int)[j - 1]);
                    }
                }
                assert(self.data@.skip(i - 1) =~= other.data@.skip(i - 1));
            }
            i = i - 1;
        }
        proof {
            assert(self.data@.skip(0) =~= self.data@);
            assert(other.data@.skip(0) =~= other.data@);
        }
        core::cmp::Ordering::Equal
    }

    /// Add another big integer in place, limb by limb with carry.
    pub fn iadd(&mut self, other: &Bigint)
        requires
            limbs_normalized(old(self).data@),
            limbs_normalized(other.data@),
        ensures
            limbs_val(final(self).data@) == limbs_val(old(self).data@) + limbs_val(
                other.data@,
            ),
            limbs_normalized(final(self).data@),
    {
        let ghost orig = self.data@;
        // pad with high zero limbs so one loop can walk both buffers
        while self.data.len() < other.data.len()
            invariant
                limbs_val(self.data@) == limbs_val(orig),
                self.data@.len() >= orig.len(),
                self.data@.take(orig.len() as int) == orig,
                self.data@.len() == orig.len() || self.data@.len() <= other.data@.len(),
                forall|j: int| orig.len() <= j < self.data@.len() ==> self.data@[j] == 0,
            decreases other.data@.len() - self.data@.len(),
        {
            proof {
                lemma_limbs_val_push(self.data@, 0);
                assert(self.data@.push(0).take(orig.len() as int) =~= self.data@.take(
                    orig.len() as int,
                ));
            }
            self.data.push(0);
        }
        let ghost padded = self.data@;
        let ghost olen = other.data@.len() as int;
        let ghost opad = Seq::new(
            padded.len() as nat,
            |j: int|
                if j < olen {
                    other.data@[j]
                } else {
                    0
                },
        );
        let n = self.data.len();
        let mut carry: u64 = 0;
        let mut i: usize = 0;
        proof {
            assert(place(0) == 1) by {
                reveal(pow);
            }
            assert(self.data@.take(0) =~= Seq::<Limb>::empty());
            assert(padded.take(0) =~= Seq::<Limb>::empty());
            assert(opad.take(0) =~= Seq::<Limb>::empty());
        }
        while i < n
            invariant
                0 <= i <= n,
                n == self.data@.len(),
                self.data@.len() == padded.len(),
                opad.len() == padded.len(),
                olen == other.data@.len(),
                padded.len() >= olen,
                opad == Seq::new(
                    padded.len() as nat,
                    |j: int|
                        if j < olen {
                            other.data@[j]
                        } else {
                            0
                        },
                ),
                self.data@.skip(i as int) == padded.skip(i as int),
                limbs_val(self.data@.take(i as int)) + carry * place(i as int) == limbs_val(
                    padded.take(i as int),
                ) + limbs_val(opad.take(i as int)),
                i > 0 ==> self.data@[i - 1] + carry * (LIMB_RADIX as int) >= padded[i - 1]
                    + opad[i - 1],
                carry <= 1,
            decreases n - i,
        {
            let a = self.data[i];
            let d: u64 = if i < other.data.len() {
                other.data[i]
            } else {
                0
            };
            proof {
                assert(self.data@[i as int] == self.data@.skip(i as int)[0]);
                assert(a == padded[i as int]);
                assert(d == opad[i as int]);
            }
            let sum: u128 = a as u128 + d as u128 + carry as u128;
            let lo: u64 = (sum % LIMB_RADIX) as u64;
            let hi: u64 = (sum / LIMB_RADIX) as u64;
            let ghost before = self.data@;
            self.data.set(i, lo);
            proof {
                vstd::arithmetic::div_mod::lemma_fundamental_div_mod(
                    sum as int,
                    LIMB_RADIX as int,
                );
                vstd::arithmetic::div_mod::lemma_mod_bound(sum as int, LIMB_RADIX as int);
                let b = LIMB_RADIX as int;
                let p = place(i as int);
                lemma_place_step(i as int);
                assert(sum / LIMB_RADIX <= 1) by (nonlinear_arith)
                    requires
                        sum < 2 * LIMB_RADIX,
                ;
                assert(self.data@.take(i + 1) =~= before.take(i as int).push(lo));
                lemma_limbs_val_push(before.take(i as int), lo);
                assert(padded.take(i + 1) =~= padded.take(i as int).push(a));
                lemma_limbs_val_push(padded.take(i as int), a);
                assert(opad.take(i + 1) =~= opad.take(i as int).push(d));
                lemma_limbs_val_push(opad.take(i as int), d);
                assert(lo + hi * b == sum) by (nonlinear_arith)
                    requires
                        sum == b * hi + lo,
                ;
                assert(lo * p + hi * (p * b) == (lo + hi * b) * p) by (nonlinear_arith);
                assert((a + d + carry) * p == a * p + d * p + carry * p) by (nonlinear_arith);
                assert forall|j: int| 0 <= j < self.data@.skip(i + 1).len() implies #[trigger] self.data@.skip(
                    i + 1,
                )[j] == padded.skip(i + 1)[j] by {
                    assert(self.data@.skip(i + 1)[j] == before[i + 1 + j]);
                    assert(before.skip(i as int)[j + 1] == before[i + 1 + j]);
                    assert(padded.skip(i as int)[j + 1] == padded[i + 1 + j]);
                    assert(padded.skip(i + 1)[j] == padded[i + 1 + j]);
                }
                assert(self.data@.skip(i + 1) =~= padded.skip(i + 1));
            }
            carry = hi;
            i = i + 1;
        }
        proof {
            assert(self.data@.take(n as int) =~= self.data@);
            assert(padded.take(n as int) =~= padded);
            assert(opad.take(n as int) =~= opad);
            // the padded buffers carry the original values
            lemma_limbs_val_split(opad, olen);
            assert(opad.take(olen) =~= other.data@);
            lemma_limbs_val_zero_seq(opad.skip(olen));
            assert(limbs_val(opad.skip(olen)) * place(olen) == 0) by (nonlinear_arith)
                requires
                    limbs_val(opad.skip(olen)) == 0,
            ;
        }
        if carry > 0 {
            proof {
                lemma_limbs_val_push(self.data@, carry);
            }
            self.data.push(carry);
        } else {
            proof {
                if n > 0 {
                    if orig.len() >= olen {
                        assert(padded.len() == orig.len());
                        assert(padded =~= orig);
                        assert(orig.last() == orig[n - 1]);
                        assert(padded[n - 1] != 0);
                    } else {
                        assert(padded.len() == olen);
                        assert(opad[n - 1] == other.data@[n - 1]);
                        assert(other.data@.last() == other.data@[olen - 1]);
                        assert(other.data@[n - 1] != 0);
                    }
                    assert(self.data@[n - 1] != 0);
                } else {
                    assert(self.data@ =~= Seq::<Limb>::empty());
                }
            }
        }
    }

    /// Multiply by another big integer in place: Horner's rule over the
    /// other buffer's limbs, from the most significant down.
    pub fn imul(&mut self, other: &Bigint)
        requires
            limbs_normalized(old(self).data@),
            limbs_normalized(other.data@),
        ensures
            limbs_val(final(self).data@) == limbs_val(old(self).data@) * limbs_val(
                other.data@,
            ),
            limbs_normalized(final(self).data@),
    {
        let ghost orig = self.data@;
        let ghost vo = limbs_val(orig);
        let mut acc = Bigint { data: Vec::new() };
        let mut i: usize = other.data.len();
        proof {
            assert(other.data@.skip(i as int) =~= Seq::<Limb>::empty());
            assert(vo * 0 == 0) by (nonlinear_arith);
        }
        while i > 0
            invariant
                0 <= i <= other.data@.len(),
                self.data@ == orig,
                limbs_normalized(orig),
                vo == limbs_val(orig),
                limbs_normalized(acc.data@),
                limbs_val(acc.data@) == vo * limbs_val(other.data@.skip(i as int)),
            decreases i,
        {
            let ghost vs = limbs_val(other.data@.skip(i as int));
            proof {
                lemma_place_step(0);
                assert(place(1) == place(0) * (LIMB_RADIX as int));
                assert(place(0) == 1) by {
                    reveal(pow);
                }
            }
            acc.ishl_limbs(1);
            proof {
                assert((vo * vs) * (LIMB_RADIX as int) == vo * (vs * (LIMB_RADIX as int)))
                    by (nonlinear_arith);
            }
            let o = other.data[i - 1];
            if o > 0 {
                let mut term = Bigint { data: copy_limbs(&self.data) };
                term.imul_small(o);
                acc.iadd(&term);
            } else {
                proof {
                    assert(vo * 0 == 0) by (nonlinear_arith);
                }
            }
            proof {
                assert(other.data@.skip(i - 1)[0] == other.data@[i - 1]);
                assert(other.data@.skip(i - 1).skip(1) =~= other.data@.skip(i as int));
                assert(limbs_val(other.data@.skip(i - 1)) == o + vs * (LIMB_RADIX as int));
                assert(vo * (o + vs * (LIMB_RADIX as int)) == vo * o + vo * (vs * (
                LIMB_RADIX as int))) by (nonlinear_arith);
                assert(vo * o == o * vo) by (nonlinear_arith);
            }
            i = i - 1;
        }
        proof {
            assert(other.data@.skip(0) =~= other.data@);
        }
        self.data = acc.data;
    }

    /// Shift right by whole limbs: divide by the limb radix `n` times,
    /// discarding the low limbs.
    pub fn ishr_limbs(&mut self, n: usize)
        requires
            limbs_normalized(old(self).data@),
        ensures
            limbs_val(final(self).data@) == limbs_val(old(self).data@) / place(n as int),
            limbs_normalized(final(self).data@),
    {
        let ghost orig = self.data@;
        let mut k: usize = 0;
        proof {
            assert(place(0) == 1) by {
                reveal(pow);
            }
            assert(orig.skip(0) =~= orig);
        }
        while k < n && self.data.len() > 0
            invariant
                0 <= k <= n,
                limbs_normalized(orig),
                limbs_normalized(self.data@),
                self.data@ == orig.skip(if k as int <= orig.len() {
                    k as int
                } else {
                    orig.len() as int
                }),
            decreases n - k,
        {
            let ghost before = self.data@;
            self.data.remove(0);
            proof {
                assert(self.data@ =~= before.skip(1));
                assert(self.data@ =~= orig.skip(k + 1));
                if self.data@.len() > 0 {
                    assert(self.data@.last() == orig.last());
                }
            }
            k = k + 1;
        }
        proof {
            let kk: int = if k as int <= orig.len() {
                k as int
            } else {
                orig.len() as int
            };
            lemma_limbs_val_skip_div(orig, kk);
            if (k as int) < n {
                // the buffer ran out: the value is zero however far we shift
                assert(self.data@.len() == 0);
                assert(limbs_val(self.data@) == 0);
                lemma_limbs_val_nonneg(orig);
                lemma_limbs_val_upper(orig);
                vstd::arithmetic::power::lemma_pow_increases(
                    LIMB_RADIX as nat,
                    orig.len(),
                    n as nat,
                );
                vstd::arithmetic::div_mod::lemma_basic_div(
                    limbs_val(orig),
                    place(n as int),
                );
            } else {
                assert(k == n);
                if n as int <= orig.len() {
                    assert(kk == n);
                } else {
                    assert(self.data@.len() == 0);
                    assert(limbs_val(self.data@) == 0);
                    lemma_limbs_val_nonneg(orig);
                    lemma_limbs_val_upper(orig);
                    vstd::arithmetic::power::lemma_pow_increases(
                        LIMB_RADIX as nat,
                        orig.len(),
                        n as nat,
                    );
                    vstd::arithmetic::div_mod::lemma_basic_div(
                        limbs_val(orig),
                        place(n as int),
                    );
                }
            }
        }
    }

    /// A big integer holding a 32-bit value.
    pub fn from_u32(x: u32) -> (r: Bigint)
        ensures
            limbs_val(r.data@) == x,
            limbs_normalized(r.data@),
    {
        Bigint::from_u64(x as u64)
    }

    /// A big integer holding a 64-bit value.
    pub fn from_u64(x: u64) -> (r: Bigint)
        ensures
            limbs_val(r.data@) == x,
            limbs_normalized(r.data@),
    {
        let mut data: Vec<Limb> = Vec::new();
        if x != 0 {
            data.push(x);
            proof {
                lemma_limbs_val_single(x);
                assert(data@ =~= seq![x]);
            }
        }
        Bigint { data }
    }

    /// A big integer holding a 128-bit value, split across two limbs.
    pub fn from_u128(x: u128) -> (r: Bigint)
        ensures
            limbs_val(r.data@) == x,
            limbs_normalized(r.data@),
    {
        let lo: u64 = (x % LIMB_RADIX) as u64;
        let hi: u64 = (x / LIMB_RADIX) as u64;
        proof {
            vstd::arithmetic::div_mod::lemma_fundamental_div_mod(x as int, LIMB_RADIX as int);
        }
        if hi == 0 {
            Bigint::from_u64(lo)
        } else {
            let mut data: Vec<Limb> = Vec::new();
            data.push(lo);
            data.push(hi);
            proof {
                lemma_limbs_val_pair(lo, hi);
                assert(data@ =~= seq![lo, hi]);
            }
            Bigint { data }
        }
    }
}

/// A longer normalized limb buffer holds the strictly larger value.
proof fn lemma_compare_longer(a: Seq<Limb>, b: Seq<Limb>)
    requires
        limbs_normalized(a),
        a.len() > b.len(),
    ensures
        limbs_val(a) > limbs_val(b),
{
    lemma_limbs_val_lower(a);
    lemma_limbs_val_upper(b);
    vstd::arithmetic::power::lemma_pow_increases(
        LIMB_RADIX as nat,
        b.len(),
        (a.len() - 1) as nat,
    );
}

/// When two equal-length buffers agree above position `i` and differ at
/// it, the one with the larger limb at `i` holds the larger value.
proof fn lemma_compare_at(a: Seq<Limb>, b: Seq<Limb>, i: int)
    requires
        a.len() == b.len(),
        0 <= i < a.len(),
        a.skip(i + 1) == b.skip(i + 1),
        a[i] != b[i],
    ensures
        a[i] > b[i] ==> limbs_val(a) > limbs_val(b),
        a[i] < b[i] ==> limbs_val(a) < limbs_val(b),
{
    lemma_limbs_val_split(a, i);
    lemma_limbs_val_split(b, i);
    assert(a.skip(i).skip(1) =~= a.skip(i + 1));
    assert(b.skip(i).skip(1) =~= b.skip(i + 1));
    assert(a.skip(i)[0] == a[i]);
    assert(b.skip(i)[0] == b[i]);
    assert(limbs_val(a.skip(i)) - limbs_val(b.skip(i)) == a[i] - b[i]);
    lemma_limbs_val_nonneg(a.take(i));
    lemma_limbs_val_nonneg(b.take(i));
    lemma_limbs_val_upper(a.take(i));
    lemma_limbs_val_upper(b.take(i));
    let p = place(i);
    let d = a[i] - b[i];
    if d > 0 {
        assert(d * p >= p) by (nonlinear_arith)
            requires
                d >= 1,
                p >= 1,
        ;
        assert((limbs_val(a.skip(i))) * p == (limbs_val(b.skip(i))) * p + d * p)
            by (nonlinear_arith)
            requires
                limbs_val(a.skip(i)) == limbs_val(b.skip(i)) + d,
        ;
    } else {
        assert((-d) * p >= p) by (nonlinear_arith)
            requires
                -d >= 1,
                p >= 1,
        ;
        assert((limbs_val(b.skip(i))) * p == (limbs_val(a.skip(i))) * p + (-d) * p)
            by (nonlinear_arith)
            requires
                limbs_val(b.skip(i)) == limbs_val(a.skip(i)) + (-d),
        ;
    }
    lemma_place_step(i);
}

/// An all-zero limb buffer has value zero.
proof fn lemma_limbs_val_zero_seq(s: Seq<Limb>)
    requires
        forall|i: int| 0 <= i < s.len() ==> s[i] == 0,
    ensures
        limbs_val(s) == 0,
    decreases s.len(),
{
    if s.len() > 0 {
        assert(forall|i: int| 0 <= i < s.skip(1).len() ==> s.skip(1)[i] == s[i + 1]);
        lemma_limbs_val_zero_seq(s.skip(1));
    }
}

/// Copy a limb buffer into a fresh vector.
fn copy_limbs(src: &Vec<Limb>) -> (r: Vec<Limb>)
    ensures
        r@ == src@,
{
    let mut v: Vec<Limb> = Vec::new();
    proof {
        assert(v@ =~= src@.take(0));
    }
    let mut i: usize = 0;
    while i < src.len()
        invariant
            0 <= i <= src@.len(),
            v@ == src@.take(i as int),
        decreases src@.len() - i,
    {
        v.push(src[i]);
        proof {
            assert(src@.take(i + 1) =~= src@.take(i as int).push(src@[i as int]));
        }
        i = i + 1;
    }
    proof {
        assert(src@.take(src@.len() as int) =~= src@);
    }
    v
}

/// Dropping the low `k` limbs divides the value by their place.
proof fn lemma_limbs_val_skip_div(s: Seq<Limb>, k: int)
    requires
        0 <= k <= s.len(),
    ensures
        limbs_val(s.skip(k)) == limbs_val(s) / place(k),
{
    lemma_limbs_val_split(s, k);
    lemma_limbs_val_nonneg(s.take(k));
    lemma_limbs_val_upper(s.take(k));
    lemma_place_step(k);
    vstd::arithmetic::div_mod::lemma_fundamental_div_mod_converse_div(
        limbs_val(s),
        place(k),
        limbs_val(s.skip(k)),
        limbs_val(s.take(k)),
    );
}

/// Storage for a big floating-point value `mantissa * 2^exp`, with the
/// mantissa in little-endian limb order.
#[derive(Debug, Clone, PartialEq, Eq)]
pub struct Bigfloat {
    /// Internal storage for the mantissa, in little-endian order.
    pub data: Vec<Limb>,
    /// Binary exponent: the semantic value is the mantissa scaled by
    /// `2^exp`, which makes powers of two a pure exponent update.
    pub exp: i32,
}

impl Default for Bigfloat {
    /// An empty buffer with exponent zero: the value zero.
    fn default() -> (r: Self)
        ensures
            r.data@ == Seq::<Limb>::empty(),
            r.exp == 0,
    {
        Bigfloat { data: Vec::new(), exp: 0 }
    }
}

impl Bigfloat {
    /// Read access to the limb buffer.
    pub fn data(&self) -> (r: &Vec<Limb>)
        ensures
            r@ == self.data@,
    {
        &self.data
    }

    /// Mutable access to the limb buffer.
    pub fn data_mut(&mut self) -> (r: &mut Vec<Limb>)
        ensures
            *r == old(self).data,
            final(self).data == *final(r),
            final(self).exp == old(self).exp,
    {
        &mut self.data
    }

    /// Multiply by `2^n`: a pure exponent bump, no limb work.
    pub fn imul_pow2(&mut self, n: u32)
        requires
            n <= i32::MAX,
            old(self).exp + n <= i32::MAX,
        ensures
            final(self).data@ == old(self).data@,
            final(self).exp == old(self).exp + n,
    {
        self.exp = self.exp + n as i32;
    }

    /// A big float holding a 32-bit mantissa with exponent zero.
    pub fn from_u32(x: u32) -> (r: Bigfloat)
        ensures
            limbs_val(r.data@) == x,
            limbs_normalized(r.data@),
            r.exp == 0,
    {
        let b = Bigint::from_u32(x);
        Bigfloat { data: b.data, exp: 0 }
    }

    /// A big float holding a 64-bit mantissa with exponent zero.
    pub fn from_u64(x: u64) -> (r: Bigfloat)
        ensures
            limbs_val(r.data@) == x,
            limbs_normalized(r.data@),
            r.exp == 0,
    {
        let b = Bigint::from_u64(x);
        Bigfloat { data: b.data, exp: 0 }
    }

    /// A big float holding a 128-bit mantissa with exponent zero.
    pub fn from_u128(x: u128) -> (r: Bigfloat)
        ensures
            limbs_val(r.data@) == x,
            limbs_normalized(r.data@),
            r.exp == 0,
    {
        let b = Bigint::from_u128(x);
        Bigfloat { data: b.data, exp: 0 }
    }
}

/// An intermediate unnormalized float during synthesis: an unsigned
/// mantissa paired with a binary exponent.
#[derive(Debug, Clone, Copy, PartialEq, Eq)]
pub struct ExtendedFloat<M> {
    /// The unsigned mantissa.
    pub mant: M,
    /// The binary exponent.
    pub exp: i32,
}

/// Conversion of extended floats into big floats for the slow comparison
/// path of the accurate algorithm.
pub trait ToBigfloat {
    /// The mantissa value this float carries.
    spec fn mant_val(&self) -> int;

    /// The binary exponent this float carries.
    spec fn exp_val(&self) -> int;

    /// Convert into a big float with the same mantissa and exponent.
    fn to_bigfloat(&self) -> (r: Bigfloat)
        ensures
            limbs_val(r.data@) == self.mant_val(),
            limbs_normalized(r.data@),
            r.exp == self.exp_val(),
    ;
}

impl ToBigfloat for ExtendedFloat<u32> {
    open spec fn mant_val(&self) -> int {
        self.mant as int
    }

    open spec fn exp_val(&self) -> int {
        self.exp as int
    }

    fn to_bigfloat(&self) -> (r: Bigfloat) {
        let mut bigfloat = Bigfloat::from_u32(self.mant);
        bigfloat.exp = self.exp;
        bigfloat
    }
}

impl ToBigfloat for ExtendedFloat<u64> {
    open spec fn mant_val(&self) -> int {
        self.mant as int
    }

    open spec fn exp_val(&self) -> int {
        self.exp as int
    }

    fn to_bigfloat(&self) -> (r: Bigfloat) {
        let mut bigfloat = Bigfloat::from_u64(self.mant);
        bigfloat.exp = self.exp;
        bigfloat
    }
}

impl ToBigfloat for ExtendedFloat<u128> {
    open spec fn mant_val(&self) -> int {
        self.mant as int
    }

    open spec fn exp_val(&self) -> int {
        self.exp as int
    }

    fn to_bigfloat(&self) -> (r: Bigfloat) {
        let mut bigfloat = Bigfloat::from_u128(self.mant);
        bigfloat.exp = self.exp;
        bigfloat
    }
}

} // verus!
