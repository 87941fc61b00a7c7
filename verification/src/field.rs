//! The prime field every expression evaluates in.
//!
//! Elements are kept in canonical form: a single machine word strictly below
//! the modulus `P = 2^64 - 2^32 + 1`. All operations reduce modulo `P`.

use vstd::prelude::*;

verus! {

/// The field modulus, `2^64 - 2^32 + 1`.
pub const FIELD_MODULUS: u64 = 0xffffffff00000001;

/// Spec-level alias for the modulus as a mathematical integer.
pub open spec fn p() -> int {
    FIELD_MODULUS as int
}

/// One element of the prime field, in canonical form (`val < P`).
#[derive(Clone, Copy, Debug, PartialEq, Eq, Structural)]
pub struct Fp {
    pub val: u64,
}

impl Fp {
    /// Canonical-form invariant.
    pub open spec fn inv(self) -> bool {
        self.val < FIELD_MODULUS
    }

    /// The element's value as a mathematical integer.
    pub open spec fn as_int(self) -> int {
        self.val as int
    }

    pub fn zero() -> (r: Fp)
        ensures
            r.val == 0,
            r.inv(),
    {
        Fp { val: 0 }
    }

    pub fn one() -> (r: Fp)
        ensures
            r.val == 1,
            r.inv(),
    {
        Fp { val: 1 }
    }

    /// Embeds a machine word, reducing modulo `P`.
    pub fn from_u64(x: u64) -> (r: Fp)
        ensures
            r.val == x as int % p(),
            r.inv(),
    {
        Fp { val: x % FIELD_MODULUS }
    }

    pub fn add(self, other: Fp) -> (r: Fp)
        requires
            self.inv(),
            other.inv(),
        ensures
            r.val == (self.val + other.val) % p(),
            r.inv(),
    {
        let s: u128 = self.val as u128 + other.val as u128;
        let m: u128 = FIELD_MODULUS as u128;
        let r: u128 = s % m;
        assert(r < m);
        assert(r == (self.val + other.val) % p());
        Fp { val: r as u64 }
    }

    pub fn sub(self, other: Fp) -> (r: Fp)
        requires
            self.inv(),
            other.inv(),
        ensures
            r.val == (self.val - other.val) % p(),
            r.inv(),
    {
        if self.val >= other.val {
            let d: u64 = self.val - other.val;
            assert(d == (self.val - other.val) % p()) by {
                vstd::arithmetic::div_mod::lemma_small_mod(d as nat, FIELD_MODULUS as nat);
            }
            Fp { val: d }
        } else {
            let d: u64 = FIELD_MODULUS - (other.val - self.val);
            assert(d == (self.val - other.val) % p()) by {
                vstd::arithmetic::div_mod::lemma_mod_add_multiples_vanish(
                    self.val - other.val,
                    p(),
                );
                vstd::arithmetic::div_mod::lemma_small_mod(d as nat, FIELD_MODULUS as nat);
            }
            Fp { val: d }
        }
    }

    pub fn neg(self) -> (r: Fp)
        requires
            self.inv(),
        ensures
            r.val == (0 - self.val) % p(),
            r.inv(),
    {
        Fp::zero().sub(self)
    }

    pub fn mul(self, other: Fp) -> (r: Fp)
        requires
            self.inv(),
            other.inv(),
        ensures
            r.val == (self.val * other.val) % p(),
            r.inv(),
    {
        assert(self.val as u128 * other.val as u128 <= u64::MAX as u128 * u64::MAX as u128)
            by (nonlinear_arith)
            requires
                self.val <= u64::MAX,
                other.val <= u64::MAX,
        ;
        let prod: u128 = self.val as u128 * other.val as u128;
        let m: u128 = FIELD_MODULUS as u128;
        let r: u128 = prod % m;
        assert(r < m);
        assert(r == (self.val * other.val) % p());
        Fp { val: r as u64 }
    }
}

} // verus!
