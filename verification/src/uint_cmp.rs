//! Equality and ordering gadgets of the big integer.
//!
//! Equality is limb-wise; byte-limb unsigned ordering locates the highest
//! differing byte with a one-hot index vector and reads the comparison
//! bit from the byte less-than table; signed ordering composes the sign
//! bits with the unsigned comparison of the remaining bits.

use vstd::prelude::*;

use crate::circuit_builder::{
    bit_constraint_of, is_equal_inverse_constraint, is_equal_zero_constraint, is_ltu_query,
    is_and_query, CircuitBuilder,
};
use crate::error::ZKVMError;
use crate::expression::{sub_of, Expression, WitIn, WitnessId};
use crate::field::Fp;
use crate::uint::{width_ok, UInt, UintLimb};

verus! {

/// The inverse of 128 in the field, used to scale out the top bit.
pub const INV_128: u64 = 0xfdffffff02000001;

/// The boolean cell and inverse cell of one equality test.
pub struct IsEqualConfig {
    pub is_equal_per_limb: Vec<WitIn>,
    pub diff_inv_per_limb: Vec<WitIn>,
    pub is_equal: WitIn,
    pub diff_inv: WitIn,
}

/// The isolated top bit of a byte-limb integer and the masked remainder.
pub struct MsbConfig {
    pub msb: WitIn,
    pub high_limb_no_msb: WitIn,
}

/// The cells of one unsigned byte-limb comparison.
pub struct UIntLtuConfig {
    pub indexes: Vec<WitIn>,
    pub acc_indexes: Vec<WitIn>,
    pub byte_diff_inv: WitIn,
    pub lhs_ne_byte: WitIn,
    pub rhs_ne_byte: WitIn,
    pub is_ltu: WitIn,
}

/// The cells of one signed byte-limb comparison.
pub struct UIntLtConfig {
    pub lhs_msb: MsbConfig,
    pub rhs_msb: MsbConfig,
    pub msb_is_equal: WitIn,
    pub msb_diff_inv: WitIn,
    pub is_ltu: UIntLtuConfig,
    pub is_lt: WitIn,
}

/// The running sum of the one-hot index cells `[base_id, base_id+count)`,
/// low to high, starting from the constant zero.
pub open spec fn flags_sum_expr(base_id: int, count: int) -> Expression
    decreases count,
{
    if count <= 0 {
        Expression::Constant(Fp { val: 0 })
    } else {
        Expression::Sum(
            Box::new(flags_sum_expr(base_id, count - 1)),
            Box::new(Expression::WitIn((base_id + count - 1) as WitnessId)),
        )
    }
}

/// The sum of index cells from position `i` to the top: the accumulated
/// "any higher limb differs" flag, summed from the high end.
pub open spec fn acc_sum_expr(base_id: int, i: int, n: int) -> Expression
    decreases n - i,
{
    if i >= n {
        Expression::Constant(Fp { val: 0 })
    } else {
        Expression::Sum(
            Box::new(acc_sum_expr(base_id, i + 1, n)),
            Box::new(Expression::WitIn((base_id + i) as WitnessId)),
        )
    }
}

/// The one-hot-masked byte sum `limbs[0]*idx[0] + ... + limbs[j-1]*idx[j-1]`.
pub open spec fn masked_sum_expr(limbs: Seq<Expression>, idx_base: int, j: int) -> Expression
    decreases j,
{
    if j <= 0 {
        Expression::Constant(Fp { val: 0 })
    } else {
        Expression::Sum(
            Box::new(masked_sum_expr(limbs, idx_base, j - 1)),
            Box::new(Expression::Product(
                Box::new(limbs[j - 1]),
                Box::new(Expression::WitIn((idx_base + j - 1) as WitnessId)),
            )),
        )
    }
}

/// The per-limb masked-difference constraint:
/// `a - b - flag*a + flag*b`, which pins `a == b` wherever the
/// accumulated flag is zero.
pub open spec fn byte_diff_zero_expr(a: Expression, b: Expression, flag_id: WitnessId) -> Expression {
    Expression::Sum(
        Box::new(sub_of(
            sub_of(a, b),
            Expression::Product(Box::new(Expression::WitIn(flag_id)), Box::new(a)),
        )),
        Box::new(Expression::Product(Box::new(Expression::WitIn(flag_id)), Box::new(b))),
    )
}

/// The inverse certificate `lhs*inv - rhs*inv - any_diff`, which forces
/// the marked byte pair to differ exactly when a difference is flagged.
pub open spec fn byte_inverse_expr(
    lhs_id: WitnessId,
    rhs_id: WitnessId,
    inv_id: WitnessId,
    any_diff_id: WitnessId,
) -> Expression {
    sub_of(
        sub_of(
            Expression::Product(
                Box::new(Expression::WitIn(lhs_id)),
                Box::new(Expression::WitIn(inv_id)),
            ),
            Expression::Product(
                Box::new(Expression::WitIn(rhs_id)),
                Box::new(Expression::WitIn(inv_id)),
            ),
        ),
        Expression::WitIn(any_diff_id),
    )
}

impl<const M: usize, const C: usize> UInt<M, C> {
    /// Constrains the two integers to be equal, limb by limb.
    pub fn eq(&self, name: &str, cb: &mut CircuitBuilder, rhs: &UInt<M, C>) -> (r: Result<
        (),
        ZKVMError,
    >)
        requires
            self.well_formed(),
            rhs.well_formed(),
        ensures
            r is Ok,
            final(cb).cs.constraints@.len() == old(cb).cs.constraints@.len()
                + Self::spec_num_cells(),
            final(cb).cs.constraints@.subrange(0, old(cb).cs.constraints@.len() as int) == old(
                cb,
            ).cs.constraints@,
            forall|j: int|
                0 <= j < Self::spec_num_cells() ==> #[trigger] final(cb).cs.constraints@[old(
                    cb,
                ).cs.constraints@.len() + j] == sub_of(self.limb_exprs()[j], rhs.limb_exprs()[j]),
            final(cb).cs.lookups@ == old(cb).cs.lookups@,
            final(cb).cs.num_witin == old(cb).cs.num_witin,
            final(cb).cs.name == old(cb).cs.name,
            final(cb).cs.num_fixed == old(cb).cs.num_fixed,
    {
        cb.push_namespace(name);
        let a = self.expr();
        let b = rhs.expr();
        let n = Self::num_cells();
        let ghost ct0 = cb.cs.constraints@.len() as int;
        let mut j: usize = 0;
        while j < n
            invariant
                j <= n,
                n == Self::spec_num_cells(),
                width_ok(M as int, C as int),
                a@.len() == n,
                b@.len() == n,
                ct0 == old(cb).cs.constraints@.len() as int,
                cb.cs.constraints@.len() == ct0 + j,
                cb.cs.constraints@.subrange(0, ct0) == old(cb).cs.constraints@,
                forall|t: int|
                    0 <= t < j ==> #[trigger] cb.cs.constraints@[ct0 + t] == sub_of(a@[t], b@[t]),
                cb.cs.lookups@ == old(cb).cs.lookups@,
                cb.cs.num_witin == old(cb).cs.num_witin,
                cb.cs.name == old(cb).cs.name,
                cb.cs.num_fixed == old(cb).cs.num_fixed,
            decreases n - j,
        {
            let ghost prev = cb.cs.constraints@;
            let _ = cb.require_equal("uint_eq", a[j].duplicate(), b[j].duplicate());
            proof {
                assert(cb.cs.constraints@.subrange(0, ct0) =~= prev.subrange(0, ct0));
                assert forall|t: int| 0 <= t < j + 1 implies #[trigger] cb.cs.constraints@[ct0 + t]
                    == sub_of(a@[t], b@[t]) by {
                    if t < j {
                        assert(cb.cs.constraints@[ct0 + t] == prev[ct0 + t]);
                    } else {
                        assert(cb.cs.constraints@[ct0 + t] == cb.cs.constraints@.last());
                    }
                }
            }
            j += 1;
        }
        cb.pop_namespace();
        Ok(())
    }

    /// A coarse stand-in for a general ordering check: hands back an
    /// expression over the lowest limb without adding constraints.
    /// Byte-limb ordering is `ltu_limb8` and `lt_limb8`.
    pub fn lt(&self, cb: &mut CircuitBuilder, rhs: &UInt<M, C>) -> (r: Result<
        Expression,
        ZKVMError,
    >)
        requires
            self.well_formed(),
            rhs.well_formed(),
        ensures
            r matches Ok(e) ==> e == Expression::Sum(
                Box::new(self.limb_exprs()[0]),
                Box::new(Expression::Constant(Fp { val: 1 })),
            ),
            *final(cb) == *old(cb),
    {
        let _ = rhs;
        let exprs = self.expr();
        let first = exprs[0].duplicate();
        Ok(first.add_expr(Expression::Constant(Fp { val: 1 })))
    }

    /// A boolean cell certifying limb-wise equality of the two integers:
    /// one equality test per limb, a cell holding the sum of the per-limb
    /// flags, and a final test of that sum against the limb count.
    pub fn is_equal(&self, cb: &mut CircuitBuilder, rhs: &UInt<M, C>) -> (r: Result<
        IsEqualConfig,
        ZKVMError,
    >)
        requires
            self.well_formed(),
            rhs.well_formed(),
            old(cb).cs.num_witin + 2 * Self::spec_num_cells() + 3 <= u16::MAX,
        ensures
            r is Ok,
            r matches Ok(cfg) ==> {
                let n = Self::spec_num_cells();
                let nw0 = old(cb).cs.num_witin as int;
                let ct0 = old(cb).cs.constraints@.len() as int;
                &&& cfg.is_equal_per_limb@.len() == n
                &&& cfg.diff_inv_per_limb@.len() == n
                &&& forall|j: int|
                    0 <= j < n ==> (#[trigger] cfg.is_equal_per_limb@[j]).id == nw0 + 2 * j
                &&& forall|j: int|
                    0 <= j < n ==> (#[trigger] cfg.diff_inv_per_limb@[j]).id == nw0 + 2 * j + 1
                &&& cfg.is_equal.id == nw0 + 2 * n + 1
                &&& cfg.diff_inv.id == nw0 + 2 * n + 2
                &&& final(cb).cs.num_witin == nw0 + 2 * n + 3
                &&& final(cb).cs.constraints@.len() == ct0 + 2 * n + 3
                &&& final(cb).cs.constraints@.subrange(0, ct0) == old(cb).cs.constraints@
                &&& forall|j: int|
                    0 <= j < n ==> #[trigger] final(cb).cs.constraints@[ct0 + 2 * j]
                        == is_equal_zero_constraint(
                        WitIn { id: (nw0 + 2 * j) as WitnessId },
                        self.limb_exprs()[j],
                        rhs.limb_exprs()[j],
                    )
                &&& forall|j: int|
                    0 <= j < n ==> #[trigger] final(cb).cs.constraints@[ct0 + 2 * j + 1]
                        == is_equal_inverse_constraint(
                        WitIn { id: (nw0 + 2 * j) as WitnessId },
                        WitIn { id: (nw0 + 2 * j + 1) as WitnessId },
                        self.limb_exprs()[j],
                        rhs.limb_exprs()[j],
                    )
                &&& final(cb).cs.constraints@[ct0 + 2 * n] == sub_of(
                    Expression::WitIn((nw0 + 2 * n) as WitnessId),
                    is_equal_flags_sum(nw0, n),
                )
                &&& final(cb).cs.constraints@[ct0 + 2 * n + 1] == is_equal_zero_constraint(
                    WitIn { id: (nw0 + 2 * n + 1) as WitnessId },
                    Expression::WitIn((nw0 + 2 * n) as WitnessId),
                    Expression::Constant(Fp { val: n as u64 }),
                )
                &&& final(cb).cs.constraints@[ct0 + 2 * n + 2] == is_equal_inverse_constraint(
                    WitIn { id: (nw0 + 2 * n + 1) as WitnessId },
                    WitIn { id: (nw0 + 2 * n + 2) as WitnessId },
                    Expression::WitIn((nw0 + 2 * n) as WitnessId),
                    Expression::Constant(Fp { val: n as u64 }),
                )
                &&& final(cb).cs.lookups@ == old(cb).cs.lookups@
                &&& final(cb).cs.name == old(cb).cs.name
                &&& final(cb).cs.num_fixed == old(cb).cs.num_fixed
            },
    {
        let a = self.expr();
        let b = rhs.expr();
        let n = Self::num_cells();
        let ghost nw0 = cb.cs.num_witin as int;
        let ghost ct0 = cb.cs.constraints@.len() as int;
        let mut flags: Vec<WitIn> = Vec::new();
        let mut invs: Vec<WitIn> = Vec::new();
        let mut j: usize = 0;
        while j < n
            invariant
                j <= n,
                n == Self::spec_num_cells(),
                width_ok(M as int, C as int),
                a@.len() == n,
                b@.len() == n,
                nw0 == old(cb).cs.num_witin as int,
                ct0 == old(cb).cs.constraints@.len() as int,
                nw0 + 2 * n + 3 <= u16::MAX,
                flags@.len() == j,
                invs@.len() == j,
                forall|t: int| 0 <= t < j ==> (#[trigger] flags@[t]).id == nw0 + 2 * t,
                forall|t: int| 0 <= t < j ==> (#[trigger] invs@[t]).id == nw0 + 2 * t + 1,
                cb.cs.num_witin == nw0 + 2 * j,
                cb.cs.constraints@.len() == ct0 + 2 * j,
                cb.cs.constraints@.subrange(0, ct0) == old(cb).cs.constraints@,
                forall|t: int|
                    0 <= t < j ==> #[trigger] cb.cs.constraints@[ct0 + 2 * t]
                        == is_equal_zero_constraint(
                        WitIn { id: (nw0 + 2 * t) as WitnessId },
                        a@[t],
                        b@[t],
                    ),
                forall|t: int|
                    0 <= t < j ==> #[trigger] cb.cs.constraints@[ct0 + 2 * t + 1]
                        == is_equal_inverse_constraint(
                        WitIn { id: (nw0 + 2 * t) as WitnessId },
                        WitIn { id: (nw0 + 2 * t + 1) as WitnessId },
                        a@[t],
                        b@[t],
                    ),
                cb.cs.lookups@ == old(cb).cs.lookups@,
                cb.cs.name == old(cb).cs.name,
                cb.cs.num_fixed == old(cb).cs.num_fixed,
            decreases n - j,
        {
            let ghost prev = cb.cs.constraints@;
            let pair = match cb.is_equal(a[j].duplicate(), b[j].duplicate()) {
                Ok(pair) => pair,
                Err(e) => {
                    return Err(e);
                },
            };
            flags.push(pair.0);
            invs.push(pair.1);
            proof {
                assert(cb.cs.constraints@.subrange(0, ct0) =~= prev.subrange(0, ct0));
                assert forall|t: int| 0 <= t < j + 1 implies #[trigger] cb.cs.constraints@[ct0 + 2
                    * t] == is_equal_zero_constraint(
                    WitIn { id: (nw0 + 2 * t) as WitnessId },
                    a@[t],
                    b@[t],
                ) && cb.cs.constraints@[ct0 + 2 * t + 1] == is_equal_inverse_constraint(
                    WitIn { id: (nw0 + 2 * t) as WitnessId },
                    WitIn { id: (nw0 + 2 * t + 1) as WitnessId },
                    a@[t],
                    b@[t],
                ) by {
                    if t < j {
                        assert(cb.cs.constraints@[ct0 + 2 * t] == prev[ct0 + 2 * t]);
                        assert(cb.cs.constraints@[ct0 + 2 * t + 1] == prev[ct0 + 2 * t + 1]);
                    }
                }
            }
            j += 1;
        }
        // The running sum of the per-limb flags, materialized in a cell.
        let mut sum_expr = Expression::Constant(Fp { val: 0 });
        let mut t: usize = 0;
        while t < n
            invariant
                t <= n,
                flags@.len() == n,
                forall|u: int| 0 <= u < n ==> (#[trigger] flags@[u]).id == nw0 + 2 * u,
                sum_expr == is_equal_flags_sum_upto(nw0, t as int),
            decreases n - t,
        {
            sum_expr = sum_expr.add_expr(Expression::WitIn(flags[t].id));
            t += 1;
        }
        let sum_flag = match cb.create_witin_from_expr("sum_flag", sum_expr) {
            Ok(w) => w,
            Err(e) => {
                return Err(e);
            },
        };
        let count = Expression::Constant(Fp { val: n as u64 });
        let pair = match cb.is_equal(sum_flag.expr(), count) {
            Ok(pair) => pair,
            Err(e) => {
                return Err(e);
            },
        };
        Ok(
            IsEqualConfig {
                is_equal_per_limb: flags,
                diff_inv_per_limb: invs,
                is_equal: pair.0,
                diff_inv: pair.1,
            },
        )
    }
}

/// The flag sum over the first `j` per-limb equality cells, whose cells
/// sit at even offsets from `nw0`.
pub open spec fn is_equal_flags_sum_upto(nw0: int, j: int) -> Expression
    decreases j,
{
    if j <= 0 {
        Expression::Constant(Fp { val: 0 })
    } else {
        Expression::Sum(
            Box::new(is_equal_flags_sum_upto(nw0, j - 1)),
            Box::new(Expression::WitIn((nw0 + 2 * (j - 1)) as WitnessId)),
        )
    }
}

/// The full flag sum of an `is_equal` gadget over `n` limbs.
pub open spec fn is_equal_flags_sum(nw0: int, n: int) -> Expression {
    is_equal_flags_sum_upto(nw0, n)
}

/// The scaled-difference expression isolating the top bit:
/// `(high_limb - masked) * 128^-1`.
pub open spec fn msb_scaled_expr(high_limb: Expression, no_msb_id: WitnessId) -> Expression {
    Expression::Product(
        Box::new(sub_of(high_limb, Expression::WitIn(no_msb_id))),
        Box::new(Expression::Constant(Fp { val: INV_128 })),
    )
}

/// What `msb_decompose` leaves in the system, reading offsets into the
/// final state: a masked-remainder cell checked against the AND table as
/// `(masked, high, 127)`, so the cell holds `high & 0x7f`, and a top-bit
/// cell constrained to the scaled difference.
pub open spec fn msb_gadget_ok(
    high_limb: Expression,
    cfg: MsbConfig,
    nw0: int,
    ct0: int,
    lk0: int,
    cs: crate::circuit_builder::ConstraintSystem,
) -> bool {
    &&& cfg.high_limb_no_msb.id == nw0
    &&& cfg.msb.id == nw0 + 1
    &&& 0 <= ct0
    &&& 0 <= lk0
    &&& ct0 + 1 <= cs.constraints@.len()
    &&& cs.constraints@[ct0] == sub_of(
        Expression::WitIn((nw0 + 1) as WitnessId),
        msb_scaled_expr(high_limb, nw0 as WitnessId),
    )
    &&& lk0 + 1 <= cs.lookups@.len()
    &&& is_and_query(
        cs.lookups@[lk0],
        Expression::WitIn(nw0 as WitnessId),
        high_limb,
        Expression::Constant(Fp { val: 127 }),
    )
}

/// What `ltu_limb8` leaves in the system, reading offsets into the final
/// state: one-hot index cells bit-asserted singly and in sum, accumulated
/// flags, masked-difference constraints, the marked byte pair with its
/// inverse certificate, and the comparison bit read from the byte
/// less-than table.
pub open spec fn ltu_gadget_ok(
    a: Seq<Expression>,
    b: Seq<Expression>,
    cfg: UIntLtuConfig,
    nw0: int,
    ct0: int,
    lk0: int,
    cs: crate::circuit_builder::ConstraintSystem,
    n: int,
) -> bool {
    &&& cfg.indexes@.len() == n
    &&& forall|j: int| 0 <= j < n ==> (#[trigger] cfg.indexes@[j]).id == nw0 + j
    &&& cfg.byte_diff_inv.id == nw0 + n
    &&& cfg.acc_indexes@.len() == n
    &&& forall|i: int| 0 <= i < n ==> (#[trigger] cfg.acc_indexes@[i]).id == nw0 + n + 1 + i
    &&& cfg.lhs_ne_byte.id == nw0 + 2 * n + 1
    &&& cfg.rhs_ne_byte.id == nw0 + 2 * n + 2
    &&& cfg.is_ltu.id == nw0 + 2 * n + 3
    &&& ct0 >= 0
    &&& ct0 + 3 * n + 4 <= cs.constraints@.len()
    &&& forall|j: int|
        0 <= j < n ==> #[trigger] cs.constraints@[ct0 + j] == bit_constraint_of(
            Expression::WitIn((nw0 + j) as WitnessId),
        )
    &&& cs.constraints@[ct0 + n] == bit_constraint_of(flags_sum_expr(nw0, n))
    &&& forall|i: int|
        0 <= i < n ==> #[trigger] cs.constraints@[ct0 + n + 1 + i] == sub_of(
            Expression::WitIn((nw0 + n + 1 + i) as WitnessId),
            acc_sum_expr(nw0, i, n),
        )
    &&& forall|i: int|
        0 <= i < n ==> #[trigger] cs.constraints@[ct0 + 2 * n + 1 + i] == byte_diff_zero_expr(
            a[i],
            b[i],
            (nw0 + n + 1 + i) as WitnessId,
        )
    &&& cs.constraints@[ct0 + 3 * n + 1] == sub_of(
        Expression::WitIn((nw0 + 2 * n + 1) as WitnessId),
        masked_sum_expr(a, nw0, n),
    )
    &&& cs.constraints@[ct0 + 3 * n + 2] == sub_of(
        Expression::WitIn((nw0 + 2 * n + 2) as WitnessId),
        masked_sum_expr(b, nw0, n),
    )
    &&& cs.constraints@[ct0 + 3 * n + 3] == byte_inverse_expr(
        (nw0 + 2 * n + 1) as WitnessId,
        (nw0 + 2 * n + 2) as WitnessId,
        (nw0 + n) as WitnessId,
        (nw0 + n + 1) as WitnessId,
    )
    &&& 0 <= lk0
    &&& lk0 + 1 <= cs.lookups@.len()
    &&& is_ltu_query(
        cs.lookups@[lk0],
        Expression::WitIn((nw0 + 2 * n + 3) as WitnessId),
        Expression::WitIn((nw0 + 2 * n + 1) as WitnessId),
        Expression::WitIn((nw0 + 2 * n + 2) as WitnessId),
    )
}

impl<const M: usize, const C: usize> UInt<M, C> {
    /// Splits the top byte limb into its sign bit and the masked 7-bit
    /// remainder: looks up `high & 127` in the AND table and derives the
    /// bit as the inverse-scaled difference.
    pub fn msb_decompose(&self, cb: &mut CircuitBuilder) -> (r: Result<MsbConfig, ZKVMError>)
        requires
            self.well_formed(),
            C == 8,
        ensures
            r is Ok <==> old(cb).cs.num_witin + 2 <= u16::MAX,
            r matches Ok(cfg) ==> {
                let nw0 = old(cb).cs.num_witin as int;
                let ct0 = old(cb).cs.constraints@.len() as int;
                let lk0 = old(cb).cs.lookups@.len() as int;
                &&& msb_gadget_ok(
                    self.limb_exprs()[Self::spec_num_cells() - 1],
                    cfg,
                    nw0,
                    ct0,
                    lk0,
                    final(cb).cs,
                )
                &&& final(cb).cs.num_witin == nw0 + 2
                &&& final(cb).cs.constraints@.len() == ct0 + 1
                &&& final(cb).cs.constraints@.subrange(0, ct0) == old(cb).cs.constraints@
                &&& final(cb).cs.lookups@.len() == lk0 + 1
                &&& final(cb).cs.lookups@.subrange(0, lk0) == old(cb).cs.lookups@
                &&& final(cb).cs.name == old(cb).cs.name
                &&& final(cb).cs.num_fixed == old(cb).cs.num_fixed
            },
    {
        if cb.cs.num_witin > u16::MAX - 2 {
            return Err(ZKVMError::CircuitError);
        }
        let exprs = self.expr();
        let n = Self::num_cells();
        let high_limb = exprs[n - 1].duplicate();
        let no_msb = match cb.create_witin("high_limb_mask") {
            Ok(w) => w,
            Err(e) => {
                return Err(e);
            },
        };
        let _ = cb.lookup_and_byte(
            no_msb.expr(),
            high_limb.duplicate(),
            Expression::Constant(Fp { val: 127 }),
        );
        let scaled = high_limb.sub_expr(no_msb.expr()).mul_expr(
            Expression::Constant(Fp { val: INV_128 }),
        );
        let msb = match cb.create_witin_from_expr("msb", scaled) {
            Ok(w) => w,
            Err(e) => {
                return Err(e);
            },
        };
        proof {
            assert(final(cb).cs.lookups@.subrange(0, old(cb).cs.lookups@.len() as int) =~= old(
                cb,
            ).cs.lookups@);
        }
        Ok(MsbConfig { msb, high_limb_no_msb: no_msb })
    }

    /// Unsigned byte-limb comparison `self < rhs`: marks the highest
    /// differing byte with a one-hot index vector, forces equality above
    /// it, certifies the difference with an inverse, and reads the
    /// comparison bit from the byte less-than table.
    pub fn ltu_limb8(&self, cb: &mut CircuitBuilder, rhs: &UInt<M, C>) -> (r: Result<
        UIntLtuConfig,
        ZKVMError,
    >)
        requires
            self.well_formed(),
            rhs.well_formed(),
            C == 8,
            old(cb).cs.num_witin + 2 * Self::spec_num_cells() + 4 <= u16::MAX,
        ensures
            r is Ok,
            r matches Ok(cfg) ==> {
                let n = Self::spec_num_cells();
                let nw0 = old(cb).cs.num_witin as int;
                let ct0 = old(cb).cs.constraints@.len() as int;
                let lk0 = old(cb).cs.lookups@.len() as int;
                &&& ltu_gadget_ok(
                    self.limb_exprs(),
                    rhs.limb_exprs(),
                    cfg,
                    nw0,
                    ct0,
                    lk0,
                    final(cb).cs,
                    n,
                )
                &&& final(cb).cs.num_witin == nw0 + 2 * n + 4
                &&& final(cb).cs.constraints@.len() == ct0 + 3 * n + 4
                &&& final(cb).cs.constraints@.subrange(0, ct0) == old(cb).cs.constraints@
                &&& final(cb).cs.lookups@.len() == lk0 + 1
                &&& final(cb).cs.lookups@.subrange(0, lk0) == old(cb).cs.lookups@
                &&& final(cb).cs.name == old(cb).cs.name
                &&& final(cb).cs.num_fixed == old(cb).cs.num_fixed
            },
    {
        let a = self.expr();
        let b = rhs.expr();
        let n = Self::num_cells();
        let ghost nw0 = cb.cs.num_witin as int;
        let ghost ct0 = cb.cs.constraints@.len() as int;
        let ghost lk0 = cb.cs.lookups@.len() as int;
        // One-hot index cells marking the highest differing byte.
        let mut indexes: Vec<WitIn> = Vec::new();
        let mut j: usize = 0;
        while j < n
            invariant
                j <= n,
                n == Self::spec_num_cells(),
                width_ok(M as int, C as int),
                nw0 == old(cb).cs.num_witin as int,
                nw0 + 2 * n + 4 <= u16::MAX,
                indexes@.len() == j,
                forall|t: int| 0 <= t < j ==> (#[trigger] indexes@[t]).id == nw0 + t,
                cb.cs.num_witin == nw0 + j,
                cb.cs.constraints@ == old(cb).cs.constraints@,
                cb.cs.lookups@ == old(cb).cs.lookups@,
                cb.cs.name == old(cb).cs.name,
                cb.cs.num_fixed == old(cb).cs.num_fixed,
            decreases n - j,
        {
            let w = match cb.create_witin("index") {
                Ok(w) => w,
                Err(e) => {
                    return Err(e);
                },
            };
            indexes.push(w);
            j += 1;
        }
        // Each index is a bit, and their sum is a bit: at most one byte
        // is marked as the differing one.
        let mut sum_expr = Expression::Constant(Fp { val: 0 });
        let mut j2: usize = 0;
        while j2 < n
            invariant
                j2 <= n,
                n == Self::spec_num_cells(),
                width_ok(M as int, C as int),
                nw0 == old(cb).cs.num_witin as int,
                ct0 == old(cb).cs.constraints@.len() as int,
                indexes@.len() == n,
                forall|t: int| 0 <= t < n ==> (#[trigger] indexes@[t]).id == nw0 + t,
                sum_expr == flags_sum_expr(nw0, j2 as int),
                cb.cs.num_witin == nw0 + n,
                cb.cs.constraints@.len() == ct0 + j2,
                cb.cs.constraints@.subrange(0, ct0) == old(cb).cs.constraints@,
                forall|t: int|
                    0 <= t < j2 ==> #[trigger] cb.cs.constraints@[ct0 + t] == bit_constraint_of(
                        Expression::WitIn((nw0 + t) as WitnessId),
                    ),
                cb.cs.lookups@ == old(cb).cs.lookups@,
                cb.cs.name == old(cb).cs.name,
                cb.cs.num_fixed == old(cb).cs.num_fixed,
            decreases n - j2,
        {
            let ghost prev = cb.cs.constraints@;
            let _ = cb.assert_bit("bit_assert", indexes[j2].expr());
            sum_expr = sum_expr.add_expr(indexes[j2].expr());
            proof {
                assert(cb.cs.constraints@.subrange(0, ct0) =~= prev.subrange(0, ct0));
                assert forall|t: int| 0 <= t < j2 + 1 implies #[trigger] cb.cs.constraints@[ct0
                    + t] == bit_constraint_of(Expression::WitIn((nw0 + t) as WitnessId)) by {
                    if t < j2 {
                        assert(cb.cs.constraints@[ct0 + t] == prev[ct0 + t]);
                    } else {
                        assert(cb.cs.constraints@[ct0 + t] == cb.cs.constraints@.last());
                    }
                }
            }
            j2 += 1;
        }
        let _ = cb.assert_bit("bit_assert", sum_expr);
        // Equal zero if the operands agree, otherwise the inverse of the
        // marked byte difference.
        let byte_diff_inv = match cb.create_witin("byte_diff_inverse") {
            Ok(w) => w,
            Err(e) => {
                return Err(e);
            },
        };
        // Accumulated index sums from the high end, each in its own cell.
        let mut accs_rev: Vec<Expression> = Vec::new();
        let mut cur = Expression::Constant(Fp { val: 0 });
        let mut t2: usize = 0;
        while t2 < n
            invariant
                t2 <= n,
                n == Self::spec_num_cells(),
                indexes@.len() == n,
                forall|t: int| 0 <= t < n ==> (#[trigger] indexes@[t]).id == nw0 + t,
                cur == acc_sum_expr(nw0, n - t2, n as int),
                accs_rev@.len() == t2,
                forall|t: int|
                    0 <= t < t2 ==> #[trigger] accs_rev@[t] == acc_sum_expr(nw0, n - 1 - t, n as int),
            decreases n - t2,
        {
            cur = cur.add_expr(indexes[n - 1 - t2].expr());
            accs_rev.push(cur.duplicate());
            t2 += 1;
        }
        let mut acc_cells: Vec<WitIn> = Vec::new();
        let mut i3: usize = 0;
        while i3 < n
            invariant
                i3 <= n,
                n == Self::spec_num_cells(),
                width_ok(M as int, C as int),
                nw0 == old(cb).cs.num_witin as int,
                ct0 == old(cb).cs.constraints@.len() as int,
                nw0 + 2 * n + 4 <= u16::MAX,
                accs_rev@.len() == n,
                forall|t: int|
                    0 <= t < n ==> #[trigger] accs_rev@[t] == acc_sum_expr(nw0, n - 1 - t, n as int),
                acc_cells@.len() == i3,
                forall|t: int| 0 <= t < i3 ==> (#[trigger] acc_cells@[t]).id == nw0 + n + 1 + t,
                cb.cs.num_witin == nw0 + n + 1 + i3,
                cb.cs.constraints@.len() == ct0 + n + 1 + i3,
                cb.cs.constraints@.subrange(0, ct0) == old(cb).cs.constraints@,
                forall|t: int|
                    0 <= t < n ==> #[trigger] cb.cs.constraints@[ct0 + t] == bit_constraint_of(
                        Expression::WitIn((nw0 + t) as WitnessId),
                    ),
                cb.cs.constraints@[ct0 + n] == bit_constraint_of(flags_sum_expr(nw0, n as int)),
                forall|t: int|
                    0 <= t < i3 ==> #[trigger] cb.cs.constraints@[ct0 + n + 1 + t] == sub_of(
                        Expression::WitIn((nw0 + n + 1 + t) as WitnessId),
                        acc_sum_expr(nw0, t, n as int),
                    ),
                cb.cs.lookups@ == old(cb).cs.lookups@,
                cb.cs.name == old(cb).cs.name,
                cb.cs.num_fixed == old(cb).cs.num_fixed,
            decreases n - i3,
        {
            let ghost prev = cb.cs.constraints@;
            let w = match cb.create_witin_from_expr("si", accs_rev[n - 1 - i3].duplicate()) {
                Ok(w) => w,
                Err(e) => {
                    return Err(e);
                },
            };
            acc_cells.push(w);
            proof {
                assert(cb.cs.constraints@.subrange(0, ct0) =~= prev.subrange(0, ct0));
                assert(forall|t: int|
                    0 <= t < ct0 + n + 1 + i3 ==> #[trigger] cb.cs.constraints@[t] == prev[t]);
                assert forall|t: int| 0 <= t < i3 + 1 implies #[trigger] cb.cs.constraints@[ct0 + n
                    + 1 + t] == sub_of(
                    Expression::WitIn((nw0 + n + 1 + t) as WitnessId),
                    acc_sum_expr(nw0, t, n as int),
                ) by {
                    if t < i3 {
                        assert(cb.cs.constraints@[ct0 + n + 1 + t] == prev[ct0 + n + 1 + t]);
                    } else {
                        assert(cb.cs.constraints@[ct0 + n + 1 + t] == cb.cs.constraints@.last());
                    }
                }
            }
            i3 += 1;
        }
        // Bytes above the marked position must agree.
        let mut i4: usize = 0;
        while i4 < n
            invariant
                i4 <= n,
                n == Self::spec_num_cells(),
                width_ok(M as int, C as int),
                nw0 == old(cb).cs.num_witin as int,
                ct0 == old(cb).cs.constraints@.len() as int,
                a@.len() == n,
                b@.len() == n,
                cb.cs.num_witin == nw0 + 2 * n + 1,
                acc_cells@.len() == n,
                forall|t: int| 0 <= t < n ==> (#[trigger] acc_cells@[t]).id == nw0 + n + 1 + t,
                cb.cs.constraints@.len() == ct0 + 2 * n + 1 + i4,
                cb.cs.constraints@.subrange(0, ct0) == old(cb).cs.constraints@,
                forall|t: int|
                    0 <= t < n ==> #[trigger] cb.cs.constraints@[ct0 + t] == bit_constraint_of(
                        Expression::WitIn((nw0 + t) as WitnessId),
                    ),
                cb.cs.constraints@[ct0 + n] == bit_constraint_of(flags_sum_expr(nw0, n as int)),
                forall|t: int|
                    0 <= t < n ==> #[trigger] cb.cs.constraints@[ct0 + n + 1 + t] == sub_of(
                        Expression::WitIn((nw0 + n + 1 + t) as WitnessId),
                        acc_sum_expr(nw0, t, n as int),
                    ),
                forall|t: int|
                    0 <= t < i4 ==> #[trigger] cb.cs.constraints@[ct0 + 2 * n + 1 + t]
                        == byte_diff_zero_expr(a@[t], b@[t], (nw0 + n + 1 + t) as WitnessId),
                cb.cs.lookups@ == old(cb).cs.lookups@,
                cb.cs.name == old(cb).cs.name,
                cb.cs.num_fixed == old(cb).cs.num_fixed,
            decreases n - i4,
        {
            let ghost prev = cb.cs.constraints@;
            let flag = Expression::WitIn(acc_cells[i4].id);
            let e = a[i4].duplicate().sub_expr(b[i4].duplicate()).sub_expr(
                flag.duplicate().mul_expr(a[i4].duplicate()),
            ).add_expr(flag.mul_expr(b[i4].duplicate()));
            let _ = cb.require_zero("byte_diff_zero", e);
            proof {
                assert(cb.cs.constraints@.subrange(0, ct0) =~= prev.subrange(0, ct0));
                assert(forall|t: int|
                    0 <= t < ct0 + 2 * n + 1 + i4 ==> #[trigger] cb.cs.constraints@[t] == prev[t]);
                assert forall|t: int| 0 <= t < i4 + 1 implies #[trigger] cb.cs.constraints@[ct0 + 2
                    * n + 1 + t] == byte_diff_zero_expr(
                    a@[t],
                    b@[t],
                    (nw0 + n + 1 + t) as WitnessId,
                ) by {
                    if t < i4 {
                        assert(cb.cs.constraints@[ct0 + 2 * n + 1 + t] == prev[ct0 + 2 * n + 1
                            + t]);
                    } else {
                        assert(cb.cs.constraints@[ct0 + 2 * n + 1 + t]
                            == cb.cs.constraints@.last());
                    }
                }
            }
            i4 += 1;
        }
        // The masked byte sums: the byte pair at the marked position.
        let mut sa = Expression::Constant(Fp { val: 0 });
        let mut sb = Expression::Constant(Fp { val: 0 });
        let mut j5: usize = 0;
        while j5 < n
            invariant
                j5 <= n,
                n == Self::spec_num_cells(),
                a@.len() == n,
                b@.len() == n,
                indexes@.len() == n,
                forall|t: int| 0 <= t < n ==> (#[trigger] indexes@[t]).id == nw0 + t,
                sa == masked_sum_expr(a@, nw0, j5 as int),
                sb == masked_sum_expr(b@, nw0, j5 as int),
            decreases n - j5,
        {
            sa = sa.add_expr(a[j5].duplicate().mul_expr(indexes[j5].expr()));
            sb = sb.add_expr(b[j5].duplicate().mul_expr(indexes[j5].expr()));
            j5 += 1;
        }
        let lhs_ne_byte = match cb.create_witin_from_expr("lhs_ne_byte", sa) {
            Ok(w) => w,
            Err(e) => {
                return Err(e);
            },
        };
        let rhs_ne_byte = match cb.create_witin_from_expr("rhs_ne_byte", sb) {
            Ok(w) => w,
            Err(e) => {
                return Err(e);
            },
        };
        // The marked byte pair differs exactly when a difference is
        // flagged.
        let inv_check = lhs_ne_byte.expr().mul_expr(byte_diff_inv.expr()).sub_expr(
            rhs_ne_byte.expr().mul_expr(byte_diff_inv.expr()),
        ).sub_expr(Expression::WitIn(acc_cells[0].id));
        let _ = cb.require_zero("byte_inverse_check", inv_check);
        let is_ltu = match cb.create_witin("is_ltu") {
            Ok(w) => w,
            Err(e) => {
                return Err(e);
            },
        };
        let _ = cb.lookup_ltu_limb8(is_ltu.expr(), lhs_ne_byte.expr(), rhs_ne_byte.expr());
        proof {
            assert(cb.cs.constraints@.subrange(0, ct0) =~= old(cb).cs.constraints@);
            assert(cb.cs.lookups@.subrange(0, lk0) =~= old(cb).cs.lookups@);
        }
        Ok(
            UIntLtuConfig {
                indexes,
                acc_indexes: acc_cells,
                byte_diff_inv,
                lhs_ne_byte,
                rhs_ne_byte,
                is_ltu,
            },
        )
    }
}

/// A longer sequence that preserves a prefix preserves that prefix's own
/// prefixes.
proof fn lemma_prefix_trans<T>(s1: Seq<T>, s2: Seq<T>, s3: Seq<T>)
    requires
        s1.len() <= s2.len(),
        s2.len() <= s3.len(),
        s2.subrange(0, s1.len() as int) == s1,
        s3.subrange(0, s2.len() as int) == s2,
    ensures
        s3.subrange(0, s1.len() as int) == s1,
{
    assert forall|i: int| 0 <= i < s1.len() implies s3.subrange(0, s1.len() as int)[i] == s1[i] by {
        assert(s3[i] == s3.subrange(0, s2.len() as int)[i]);
        assert(s2[i] == s2.subrange(0, s1.len() as int)[i]);
    }
    assert(s3.subrange(0, s1.len() as int) =~= s1);
}

/// A later append leaves an established top-bit gadget intact.
proof fn lemma_msb_gadget_ok_extend(
    high_limb: Expression,
    cfg: MsbConfig,
    nw0: int,
    ct0: int,
    lk0: int,
    cs1: crate::circuit_builder::ConstraintSystem,
    cs2: crate::circuit_builder::ConstraintSystem,
)
    requires
        msb_gadget_ok(high_limb, cfg, nw0, ct0, lk0, cs1),
        cs1.constraints@.len() <= cs2.constraints@.len(),
        cs2.constraints@.subrange(0, cs1.constraints@.len() as int) == cs1.constraints@,
        cs1.lookups@.len() <= cs2.lookups@.len(),
        cs2.lookups@.subrange(0, cs1.lookups@.len() as int) == cs1.lookups@,
    ensures
        msb_gadget_ok(high_limb, cfg, nw0, ct0, lk0, cs2),
{
    assert(cs2.constraints@[ct0] == cs2.constraints@.subrange(
        0,
        cs1.constraints@.len() as int,
    )[ct0]);
    assert(cs2.lookups@[lk0] == cs2.lookups@.subrange(0, cs1.lookups@.len() as int)[lk0]);
}

/// A later append leaves an established unsigned-comparison gadget
/// intact.
proof fn lemma_ltu_gadget_ok_extend(
    a: Seq<Expression>,
    b: Seq<Expression>,
    cfg: UIntLtuConfig,
    nw0: int,
    ct0: int,
    lk0: int,
    cs1: crate::circuit_builder::ConstraintSystem,
    cs2: crate::circuit_builder::ConstraintSystem,
    n: int,
)
    requires
        ltu_gadget_ok(a, b, cfg, nw0, ct0, lk0, cs1, n),
        cs1.constraints@.len() <= cs2.constraints@.len(),
        cs2.constraints@.subrange(0, cs1.constraints@.len() as int) == cs1.constraints@,
        cs1.lookups@.len() <= cs2.lookups@.len(),
        cs2.lookups@.subrange(0, cs1.lookups@.len() as int) == cs1.lookups@,
    ensures
        ltu_gadget_ok(a, b, cfg, nw0, ct0, lk0, cs2, n),
{
    let l1 = cs1.constraints@.len() as int;
    assert(forall|t: int|
        0 <= t < l1 ==> #[trigger] cs2.constraints@[t] == cs2.constraints@.subrange(0, l1)[t]);
    assert(cs2.lookups@[lk0] == cs2.lookups@.subrange(0, cs1.lookups@.len() as int)[lk0]);
}

/// The composed sign rule of the signed comparison:
/// `a_msb*(1 - b_msb) + eq(a_msb,b_msb)*ltu(rest) - is_lt`, written over
/// the gadget's cells.
pub open spec fn lt_composition_expr(nw0: int, n: int) -> Expression {
    let ml = Expression::WitIn((nw0 + 2) as WitnessId);
    let mr = Expression::WitIn((nw0 + 4) as WitnessId);
    let eq_cell = Expression::WitIn((nw0 + 2 * n + 9) as WitnessId);
    let ltu_cell = Expression::WitIn((nw0 + 2 * n + 8) as WitnessId);
    let islt = Expression::WitIn(nw0 as WitnessId);
    sub_of(
        Expression::Sum(
            Box::new(sub_of(ml, Expression::Product(Box::new(ml), Box::new(mr)))),
            Box::new(Expression::Product(Box::new(eq_cell), Box::new(ltu_cell))),
        ),
        islt,
    )
}

impl<const M: usize, const C: usize> UInt<M, C> {
    /// Signed byte-limb comparison `self < rhs`: decomposes both sign
    /// bits, compares the remaining bits unsigned, and composes
    /// `a_msb*(1-b_msb) + eq(a_msb,b_msb)*ltu(rest)` into the result bit.
    pub fn lt_limb8(&self, cb: &mut CircuitBuilder, rhs: &UInt<M, C>) -> (r: Result<
        UIntLtConfig,
        ZKVMError,
    >)
        requires
            self.well_formed(),
            rhs.well_formed(),
            C == 8,
            self.limbs is WitIn,
            rhs.limbs is WitIn,
            old(cb).cs.num_witin + 2 * Self::spec_num_cells() + 11 <= u16::MAX,
        ensures
            r is Ok,
            r matches Ok(cfg) ==> {
                let n = Self::spec_num_cells();
                let nw0 = old(cb).cs.num_witin as int;
                let ct0 = old(cb).cs.constraints@.len() as int;
                let lk0 = old(cb).cs.lookups@.len() as int;
                &&& cfg.is_lt.id == nw0
                &&& final(cb).cs.constraints@[ct0] == bit_constraint_of(
                    Expression::WitIn(nw0 as WitnessId),
                )
                &&& msb_gadget_ok(
                    self.limb_exprs()[n - 1],
                    cfg.lhs_msb,
                    nw0 + 1,
                    ct0 + 1,
                    lk0,
                    final(cb).cs,
                )
                &&& msb_gadget_ok(
                    rhs.limb_exprs()[n - 1],
                    cfg.rhs_msb,
                    nw0 + 3,
                    ct0 + 2,
                    lk0 + 1,
                    final(cb).cs,
                )
                &&& ltu_gadget_ok(
                    self.limb_exprs().update(n - 1, Expression::WitIn((nw0 + 1) as WitnessId)),
                    rhs.limb_exprs().update(n - 1, Expression::WitIn((nw0 + 3) as WitnessId)),
                    cfg.is_ltu,
                    nw0 + 5,
                    ct0 + 3,
                    lk0 + 2,
                    final(cb).cs,
                    n,
                )
                &&& cfg.msb_is_equal.id == nw0 + 2 * n + 9
                &&& cfg.msb_diff_inv.id == nw0 + 2 * n + 10
                &&& final(cb).cs.constraints@[ct0 + 3 * n + 7] == is_equal_zero_constraint(
                    WitIn { id: (nw0 + 2 * n + 9) as WitnessId },
                    Expression::WitIn((nw0 + 2) as WitnessId),
                    Expression::WitIn((nw0 + 4) as WitnessId),
                )
                &&& final(cb).cs.constraints@[ct0 + 3 * n + 8] == is_equal_inverse_constraint(
                    WitIn { id: (nw0 + 2 * n + 9) as WitnessId },
                    WitIn { id: (nw0 + 2 * n + 10) as WitnessId },
                    Expression::WitIn((nw0 + 2) as WitnessId),
                    Expression::WitIn((nw0 + 4) as WitnessId),
                )
                &&& final(cb).cs.constraints@[ct0 + 3 * n + 9] == lt_composition_expr(nw0, n)
                &&& final(cb).cs.num_witin == nw0 + 2 * n + 11
                &&& final(cb).cs.constraints@.len() == ct0 + 3 * n + 10
                &&& final(cb).cs.constraints@.subrange(0, ct0) == old(cb).cs.constraints@
                &&& final(cb).cs.lookups@.len() == lk0 + 3
                &&& final(cb).cs.lookups@.subrange(0, lk0) == old(cb).cs.lookups@
                &&& final(cb).cs.name == old(cb).cs.name
                &&& final(cb).cs.num_fixed == old(cb).cs.num_fixed
            },
    {
        let n = Self::num_cells();
        let ghost nw0 = cb.cs.num_witin as int;
        let ghost ct0 = cb.cs.constraints@.len() as int;
        let ghost lk0 = cb.cs.lookups@.len() as int;
        let is_lt = match cb.create_witin("is_lt") {
            Ok(w) => w,
            Err(e) => {
                return Err(e);
            },
        };
        let _ = cb.assert_bit("assert_bit", is_lt.expr());
        let ghost cs_b = cb.cs;
        let lhs_msb = match self.msb_decompose(cb) {
            Ok(cfg) => cfg,
            Err(e) => {
                return Err(e);
            },
        };
        let ghost cs_l = cb.cs;
        let rhs_msb = match rhs.msb_decompose(cb) {
            Ok(cfg) => cfg,
            Err(e) => {
                return Err(e);
            },
        };
        let ghost cs_r = cb.cs;
        // The operands with their top limbs replaced by the masked
        // remainders.
        let lhs_cells = match &self.limbs {
            UintLimb::WitIn(ws) => ws,
            UintLimb::Expression(_) => {
                return Err(ZKVMError::CircuitError);
            },
        };
        let rhs_cells = match &rhs.limbs {
            UintLimb::WitIn(ws) => ws,
            UintLimb::Expression(_) => {
                return Err(ZKVMError::CircuitError);
            },
        };
        let mut lhs_limbs: Vec<WitIn> = Vec::new();
        let mut rhs_limbs: Vec<WitIn> = Vec::new();
        let mut j: usize = 0;
        while j < n
            invariant
                j <= n,
                n == Self::spec_num_cells(),
                lhs_cells@.len() == n,
                rhs_cells@.len() == n,
                lhs_limbs@ == lhs_cells@.subrange(0, j as int),
                rhs_limbs@ == rhs_cells@.subrange(0, j as int),
            decreases n - j,
        {
            lhs_limbs.push(lhs_cells[j]);
            rhs_limbs.push(rhs_cells[j]);
            proof {
                assert(lhs_limbs@ =~= lhs_cells@.subrange(0, j + 1 as int));
                assert(rhs_limbs@ =~= rhs_cells@.subrange(0, j + 1 as int));
            }
            j += 1;
        }
        proof {
            assert(lhs_limbs@ =~= lhs_cells@);
            assert(rhs_limbs@ =~= rhs_cells@);
        }
        lhs_limbs.set(n - 1, lhs_msb.high_limb_no_msb);
        rhs_limbs.set(n - 1, rhs_msb.high_limb_no_msb);
        let lhs_no_msb = Self::new_from_limbs(&lhs_limbs);
        let rhs_no_msb = Self::new_from_limbs(&rhs_limbs);
        proof {
            assert(lhs_no_msb.limb_exprs() =~= self.limb_exprs().update(
                n - 1,
                Expression::WitIn((nw0 + 1) as WitnessId),
            ));
            assert(rhs_no_msb.limb_exprs() =~= rhs.limb_exprs().update(
                n - 1,
                Expression::WitIn((nw0 + 3) as WitnessId),
            ));
        }
        let is_ltu_cfg = match lhs_no_msb.ltu_limb8(cb, &rhs_no_msb) {
            Ok(cfg) => cfg,
            Err(e) => {
                return Err(e);
            },
        };
        let ghost cs_u = cb.cs;
        let pair = match cb.is_equal(lhs_msb.msb.expr(), rhs_msb.msb.expr()) {
            Ok(pair) => pair,
            Err(e) => {
                return Err(e);
            },
        };
        let composed = lhs_msb.msb.expr().sub_expr(
            lhs_msb.msb.expr().mul_expr(rhs_msb.msb.expr()),
        ).add_expr(pair.0.expr().mul_expr(is_ltu_cfg.is_ltu.expr())).sub_expr(is_lt.expr());
        let _ = cb.require_zero("is_lt_zero_check", composed);
        proof {
            let csf = cb.cs;
            assert(csf.constraints@.subrange(0, cs_u.constraints@.len() as int)
                =~= cs_u.constraints@);
            assert(csf.lookups@.subrange(0, cs_u.lookups@.len() as int) =~= cs_u.lookups@);
            // Chain the prefix preservation through each phase.
            lemma_prefix_trans(cs_r.constraints@, cs_u.constraints@, csf.constraints@);
            lemma_prefix_trans(cs_l.constraints@, cs_r.constraints@, csf.constraints@);
            lemma_prefix_trans(cs_b.constraints@, cs_l.constraints@, csf.constraints@);
            lemma_prefix_trans(cs_r.lookups@, cs_u.lookups@, csf.lookups@);
            lemma_prefix_trans(cs_l.lookups@, cs_r.lookups@, csf.lookups@);
            lemma_prefix_trans(cs_b.lookups@, cs_l.lookups@, csf.lookups@);
            lemma_msb_gadget_ok_extend(
                self.limb_exprs()[n - 1],
                lhs_msb,
                nw0 + 1,
                ct0 + 1,
                lk0,
                cs_l,
                csf,
            );
            lemma_msb_gadget_ok_extend(
                rhs.limb_exprs()[n - 1],
                rhs_msb,
                nw0 + 3,
                ct0 + 2,
                lk0 + 1,
                cs_r,
                csf,
            );
            lemma_ltu_gadget_ok_extend(
                self.limb_exprs().update(n - 1, Expression::WitIn((nw0 + 1) as WitnessId)),
                rhs.limb_exprs().update(n - 1, Expression::WitIn((nw0 + 3) as WitnessId)),
                is_ltu_cfg,
                nw0 + 5,
                ct0 + 3,
                lk0 + 2,
                cs_u,
                csf,
                n as int,
            );
            assert(csf.constraints@[ct0] == bit_constraint_of(
                Expression::WitIn(nw0 as WitnessId),
            )) by {
                assert(csf.constraints@[ct0] == csf.constraints@.subrange(
                    0,
                    cs_b.constraints@.len() as int,
                )[ct0]);
                assert(cs_b.constraints@[ct0] == cs_b.constraints@.last());
            }
            assert(csf.constraints@.subrange(0, ct0) =~= old(cb).cs.constraints@) by {
                assert(forall|t: int|
                    0 <= t < ct0 ==> #[trigger] csf.constraints@[t] == csf.constraints@.subrange(
                        0,
                        cs_b.constraints@.len() as int,
                    )[t]);
            }
            assert(csf.lookups@.subrange(0, lk0) =~= old(cb).cs.lookups@) by {
                assert(forall|t: int|
                    0 <= t < lk0 ==> #[trigger] csf.lookups@[t] == csf.lookups@.subrange(
                        0,
                        cs_b.lookups@.len() as int,
                    )[t]);
            }
        }
        Ok(
            UIntLtConfig {
                lhs_msb,
                rhs_msb,
                msb_is_equal: pair.0,
                msb_diff_inv: pair.1,
                is_ltu: is_ltu_cfg,
                is_lt,
            },
        )
    }
}

} // verus!
