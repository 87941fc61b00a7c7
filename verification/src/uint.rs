//! The constrained big-integer gadget.
//!
//! A [`UInt<M, C>`] represents a logical `M`-bit unsigned integer as
//! `ceil(M / C)` little-endian limbs of `C` bits each. Limbs are either
//! *materialized* (each backed by an owned witness cell) or *derived*
//! (each an expression over other cells). Arithmetic lowers to per-limb
//! polynomial identities plus carry cells and range lookups.

use vstd::prelude::*;

use crate::circuit_builder::{is_range_query, range_bound, CircuitBuilder};
use crate::error::ZKVMError;
use crate::expression::{sub_of, Expression, WitIn, WitnessId};
use crate::field::Fp;

verus! {

use vstd::arithmetic::power2::pow2;

/// Number of limbs of an `M`-bit integer split into `C`-bit limbs.
pub open spec fn num_limbs_of(m: int, c: int) -> int {
    (m + c - 1) / c
}

/// The widths the gadget supports: limb widths backed by a lookup table,
/// and a total width the limb count of which stays small.
pub open spec fn width_ok(m: int, c: int) -> bool {
    (c == 5 || c == 8 || c == 16) && 0 < m <= 65536
}

/// The limbs of a big integer: owned witness cells, or derived
/// expressions not yet backed by cells.
pub enum UintLimb {
    WitIn(Vec<WitIn>),
    Expression(Vec<Expression>),
}

/// A fixed-width unsigned integer decomposed into `C`-bit limbs,
/// little-endian.
pub struct UInt<const M: usize, const C: usize> {
    /// The limbs, materialized or derived.
    pub limbs: UintLimb,
    /// Carry cells of the arithmetic operation that produced this value:
    /// one fewer than the limb count, or exactly the limb count when
    /// overflow is permitted.
    pub carries: Option<Vec<WitIn>>,
}

impl<const M: usize, const C: usize> UInt<M, C> {
    /// The limb count as a spec-level quantity.
    pub open spec fn spec_num_cells() -> int {
        num_limbs_of(M as int, C as int)
    }

    /// The limbs read as expressions, whichever state they are in.
    pub open spec fn limb_exprs(self) -> Seq<Expression> {
        match self.limbs {
            UintLimb::WitIn(ws) => Seq::new(ws@.len(), |i: int| Expression::WitIn(ws@[i].id)),
            UintLimb::Expression(es) => es@,
        }
    }

    /// The widths are supported and the limb count is right.
    pub open spec fn well_formed(self) -> bool {
        width_ok(M as int, C as int) && self.limb_exprs().len() == Self::spec_num_cells()
    }

    /// The number of limbs.
    pub fn num_cells() -> (r: usize)
        requires
            width_ok(M as int, C as int),
        ensures
            r == Self::spec_num_cells(),
            1 <= r <= 13110,
    {
        proof {
            vstd::arithmetic::div_mod::lemma_div_is_ordered(
                C as int,
                M as int + C as int - 1,
                C as int,
            );
            vstd::arithmetic::div_mod::lemma_div_is_ordered(
                M as int + C as int - 1,
                65536int + 16,
                C as int,
            );
            vstd::arithmetic::div_mod::lemma_div_by_multiple(1, C as int);
            vstd::arithmetic::div_mod::lemma_div_is_ordered_by_denominator(65552, 5, C as int);
            assert(65552int / 5 == 13110) by {
                vstd::arithmetic::div_mod::lemma_fundamental_div_mod_converse(
                    65552,
                    5,
                    13110,
                    2,
                );
            }
        }
        (M + C - 1) / C
    }

    /// The modulus of one limb, `2^C`.
    pub fn limb_modulus() -> (r: u64)
        requires
            width_ok(M as int, C as int),
        ensures
            r == range_bound(C as int),
    {
        if C == 5 {
            32
        } else if C == 8 {
            256
        } else {
            65536
        }
    }

    /// An integer with no limbs yet, to be filled by an arithmetic
    /// operation.
    pub fn new_as_empty() -> (r: Self)
        ensures
            r.limbs is Expression,
            r.limb_exprs().len() == 0,
            r.carries is None,
    {
        UInt { limbs: UintLimb::Expression(Vec::new()), carries: None }
    }

    /// A materialized integer over the given cells, without carries.
    pub fn new_from_limbs(limbs: &Vec<WitIn>) -> (r: Self)
        ensures
            r.limbs is WitIn,
            r.limb_exprs() == Seq::new(limbs@.len(), |i: int| Expression::WitIn(limbs@[i].id)),
            r.carries is None,
    {
        let mut copy: Vec<WitIn> = Vec::new();
        let mut i: usize = 0;
        while i < limbs.len()
            invariant
                i <= limbs@.len(),
                copy@ == limbs@.subrange(0, i as int),
            decreases limbs@.len() - i,
        {
            copy.push(limbs[i]);
            proof {
                assert(copy@ =~= limbs@.subrange(0, i + 1 as int));
            }
            i += 1;
        }
        proof {
            assert(copy@ =~= limbs@);
        }
        let r = UInt { limbs: UintLimb::WitIn(copy), carries: None };
        proof {
            assert(r.limb_exprs() =~= Seq::new(
                limbs@.len(),
                |i: int| Expression::WitIn(limbs@[i].id),
            ));
        }
        r
    }

    /// Whether the limbs are derived expressions.
    pub fn is_expr(&self) -> (r: bool)
        ensures
            r == (self.limbs is Expression),
    {
        match &self.limbs {
            UintLimb::Expression(_) => true,
            UintLimb::WitIn(_) => false,
        }
    }

    /// The limbs as freshly built expressions.
    pub fn expr(&self) -> (r: Vec<Expression>)
        ensures
            r@ == self.limb_exprs(),
    {
        match &self.limbs {
            UintLimb::WitIn(ws) => {
                let mut out: Vec<Expression> = Vec::new();
                let mut i: usize = 0;
                while i < ws.len()
                    invariant
                        i <= ws@.len(),
                        out@ == Seq::new(i as nat, |j: int| Expression::WitIn(ws@[j].id)),
                    decreases ws@.len() - i,
                {
                    out.push(Expression::WitIn(ws[i].id));
                    proof {
                        assert(out@ =~= Seq::new(
                            (i + 1) as nat,
                            |j: int| Expression::WitIn(ws@[j].id),
                        ));
                    }
                    i += 1;
                }
                proof {
                    assert(out@ =~= self.limb_exprs());
                }
                out
            },
            UintLimb::Expression(es) => {
                let mut out: Vec<Expression> = Vec::new();
                let mut i: usize = 0;
                while i < es.len()
                    invariant
                        i <= es@.len(),
                        out@ == es@.subrange(0, i as int),
                    decreases es@.len() - i,
                {
                    out.push(es[i].duplicate());
                    proof {
                        assert(out@ =~= es@.subrange(0, i + 1 as int));
                    }
                    i += 1;
                }
                proof {
                    assert(out@ =~= self.limb_exprs());
                }
                out
            },
        }
    }
}

/// A run of freshly allocated cells: sequential ids from a base.
pub open spec fn fresh_cells(ws: Seq<WitIn>, base: int, count: int) -> bool {
    ws.len() == count && forall|j: int| 0 <= j < count ==> (#[trigger] ws[j]).id == base + j
}

impl<const M: usize, const C: usize> UInt<M, C> {
    /// Allocates `count` fresh cells.
    fn alloc_cells(cb: &mut CircuitBuilder, name: &str, count: usize) -> (r: Result<
        Vec<WitIn>,
        ZKVMError,
    >)
        ensures
            r is Ok <==> old(cb).cs.num_witin + count <= u16::MAX,
            r matches Ok(ws) ==> {
                &&& fresh_cells(ws@, old(cb).cs.num_witin as int, count as int)
                &&& final(cb).cs.num_witin == old(cb).cs.num_witin + count
                &&& final(cb).cs.constraints@ == old(cb).cs.constraints@
                &&& final(cb).cs.lookups@ == old(cb).cs.lookups@
                &&& final(cb).cs.name == old(cb).cs.name
                &&& final(cb).cs.num_fixed == old(cb).cs.num_fixed
            },
            r is Err ==> *final(cb) == *old(cb),
    {
        if count > (u16::MAX - cb.cs.num_witin) as usize {
            return Err(ZKVMError::CircuitError);
        }
        let mut ws: Vec<WitIn> = Vec::new();
        let mut i: usize = 0;
        while i < count
            invariant
                i <= count,
                old(cb).cs.num_witin + count <= u16::MAX,
                cb.cs.num_witin == old(cb).cs.num_witin + i,
                fresh_cells(ws@, old(cb).cs.num_witin as int, i as int),
                cb.cs.constraints@ == old(cb).cs.constraints@,
                cb.cs.lookups@ == old(cb).cs.lookups@,
                cb.cs.name == old(cb).cs.name,
                cb.cs.num_fixed == old(cb).cs.num_fixed,
            decreases count - i,
        {
            let w = match cb.create_witin(name) {
                Ok(w) => w,
                Err(e) => {
                    return Err(e);
                },
            };
            ws.push(w);
            i += 1;
        }
        Ok(ws)
    }

    /// Allocates the limb cells of a fresh integer and range-checks each
    /// into `[0, 2^C)`: materialization.
    pub fn new(name: &str, cb: &mut CircuitBuilder) -> (r: Result<Self, ZKVMError>)
        requires
            width_ok(M as int, C as int),
        ensures
            r is Ok <==> old(cb).cs.num_witin + Self::spec_num_cells() <= u16::MAX,
            r matches Ok(u) ==> {
                &&& u.well_formed()
                &&& u.limbs is WitIn
                &&& u.carries is None
                &&& forall|j: int|
                    0 <= j < Self::spec_num_cells() ==> u.limb_exprs()[j] == Expression::WitIn(
                        (old(cb).cs.num_witin + j) as WitnessId,
                    )
                &&& final(cb).cs.num_witin == old(cb).cs.num_witin + Self::spec_num_cells()
                &&& final(cb).cs.constraints@ == old(cb).cs.constraints@
                &&& final(cb).cs.lookups@.len() == old(cb).cs.lookups@.len()
                    + Self::spec_num_cells()
                &&& final(cb).cs.lookups@.subrange(0, old(cb).cs.lookups@.len() as int) == old(
                    cb,
                ).cs.lookups@
                &&& forall|j: int|
                    0 <= j < Self::spec_num_cells() ==> is_range_query(
                        #[trigger] final(cb).cs.lookups@[old(cb).cs.lookups@.len() + j],
                        C as int,
                        u.limb_exprs()[j],
                    )
                &&& final(cb).cs.name == old(cb).cs.name
                &&& final(cb).cs.num_fixed == old(cb).cs.num_fixed
            },
    {
        let n = Self::num_cells();
        let ws = match Self::alloc_cells(cb, name, n) {
            Ok(ws) => ws,
            Err(e) => {
                return Err(e);
            },
        };
        let ghost lk0 = cb.cs.lookups@;
        let mut i: usize = 0;
        while i < n
            invariant
                i <= n,
                n == Self::spec_num_cells(),
                width_ok(M as int, C as int),
                ws@.len() == n,
                forall|j: int| 0 <= j < n ==> (#[trigger] ws@[j]).id < u16::MAX as int + 1,
                cb.cs.lookups@.len() == lk0.len() + i,
                cb.cs.lookups@.subrange(0, lk0.len() as int) == lk0,
                forall|j: int|
                    0 <= j < i ==> is_range_query(
                        #[trigger] cb.cs.lookups@[lk0.len() + j],
                        C as int,
                        Expression::WitIn(ws@[j].id),
                    ),
                cb.cs.constraints@ == old(cb).cs.constraints@,
                cb.cs.num_witin == old(cb).cs.num_witin + n,
                cb.cs.name == old(cb).cs.name,
                cb.cs.num_fixed == old(cb).cs.num_fixed,
            decreases n - i,
        {
            let ghost prev = cb.cs.lookups@;
            let w = ws[i];
            let _ = cb.assert_ux::<C>(name, Expression::WitIn(w.id));
            proof {
                assert(cb.cs.lookups@.subrange(0, lk0.len() as int) =~= prev.subrange(
                    0,
                    lk0.len() as int,
                ));
                assert forall|j: int| 0 <= j < i + 1 implies is_range_query(
                    #[trigger] cb.cs.lookups@[lk0.len() + j],
                    C as int,
                    Expression::WitIn(ws@[j].id),
                ) by {
                    if j < i {
                        assert(cb.cs.lookups@[lk0.len() + j] == prev.subrange(
                            0,
                            prev.len() as int,
                        )[lk0.len() + j]);
                        assert(cb.cs.lookups@[lk0.len() + j] == prev[lk0.len() + j]);
                    } else {
                        assert(cb.cs.lookups@[lk0.len() + j] == cb.cs.lookups@.last());
                    }
                }
            }
            i += 1;
        }
        let u = UInt::<M, C> { limbs: UintLimb::WitIn(ws), carries: None };
        proof {
            assert(u.limb_exprs().len() == Self::spec_num_cells());
        }
        Ok(u)
    }

    /// Allocates the carry cells of an arithmetic operation: one per limb
    /// boundary, plus a top carry when overflow is permitted.
    pub fn create_carry_witin(&mut self, name: &str, cb: &mut CircuitBuilder, with_overflow: bool) -> (r: Result<
        (),
        ZKVMError,
    >)
        requires
            width_ok(M as int, C as int),
        ensures
            r is Ok <==> old(cb).cs.num_witin + spec_carry_count(
                Self::spec_num_cells(),
                with_overflow,
            ) <= u16::MAX,
            r is Ok ==> {
                &&& final(self).carries matches Some(ws) && fresh_cells(
                    ws@,
                    old(cb).cs.num_witin as int,
                    spec_carry_count(Self::spec_num_cells(), with_overflow),
                )
                &&& final(self).limbs == old(self).limbs
                &&& final(cb).cs.num_witin == old(cb).cs.num_witin + spec_carry_count(
                    Self::spec_num_cells(),
                    with_overflow,
                )
                &&& final(cb).cs.constraints@ == old(cb).cs.constraints@
                &&& final(cb).cs.lookups@ == old(cb).cs.lookups@
                &&& final(cb).cs.name == old(cb).cs.name
                &&& final(cb).cs.num_fixed == old(cb).cs.num_fixed
            },
            r is Err ==> *final(self) == *old(self) && *final(cb) == *old(cb),
    {
        let n = Self::num_cells();
        let k = if with_overflow {
            n
        } else {
            n - 1
        };
        let ws = match Self::alloc_cells(cb, name, k) {
            Ok(ws) => ws,
            Err(e) => {
                return Err(e);
            },
        };
        self.carries = Some(ws);
        Ok(())
    }
}

/// The carry cell feeding limb `i`, when carry cells start at id `nw0`.
pub open spec fn carry_in_id(nw0: int, i: int) -> Option<WitnessId> {
    if i > 0 {
        Some((nw0 + i - 1) as WitnessId)
    } else {
        None
    }
}

/// The carry cell drawn out of limb `i`, among `k` carry cells starting
/// at id `nw0`; the top limb has none unless overflow is permitted.
pub open spec fn carry_out_id(nw0: int, i: int, k: int) -> Option<WitnessId> {
    if i < k {
        Some((nw0 + i) as WitnessId)
    } else {
        None
    }
}

/// Number of carry cells an arithmetic operation allocates: one per limb
/// boundary, plus a retained top carry when overflow is permitted.
pub open spec fn spec_carry_count(n: int, with_overflow: bool) -> int {
    if with_overflow {
        n
    } else {
        n - 1
    }
}

/// One when multiplication must materialize the operand (its limbs are
/// derived expressions), zero when it is already cell-backed.
pub open spec fn materialize_count<const M: usize, const C: usize>(u: UInt<M, C>) -> int {
    if u.limbs is Expression {
        1
    } else {
        0
    }
}

/// A raw digit expression with the carries applied:
/// `e + carry_in - carry_out * 2^C`, with absent carries omitted.
pub open spec fn carry_adjust(
    e: Expression,
    cin: Option<WitnessId>,
    cout: Option<WitnessId>,
    base: u64,
) -> Expression {
    let s1 = match cin {
        Some(w) => Expression::Sum(Box::new(e), Box::new(Expression::WitIn(w))),
        None => e,
    };
    match cout {
        Some(w) => sub_of(
            s1,
            Expression::Product(
                Box::new(Expression::WitIn(w)),
                Box::new(Expression::Constant(Fp { val: base })),
            ),
        ),
        None => s1,
    }
}

/// The expression of one addition result limb:
/// `a + b + carry_in - carry_out * 2^C`, with absent carries omitted.
pub open spec fn add_limb_expr(
    a: Expression,
    b: Expression,
    cin: Option<WitnessId>,
    cout: Option<WitnessId>,
    base: u64,
) -> Expression {
    carry_adjust(Expression::Sum(Box::new(a), Box::new(b)), cin, cout, base)
}

/// The schoolbook convolution term of output position `idx`, summed over
/// the first `j + 1` contributions: `a[0]*b[idx] + ... + a[j]*b[idx-j]`.
pub open spec fn conv_expr(a: Seq<Expression>, b: Seq<Expression>, idx: int, j: int) -> Expression
    decreases j,
{
    if j <= 0 {
        Expression::Product(Box::new(a[0]), Box::new(b[idx]))
    } else {
        Expression::Sum(
            Box::new(conv_expr(a, b, idx, j - 1)),
            Box::new(Expression::Product(Box::new(a[j]), Box::new(b[idx - j]))),
        )
    }
}

/// The expression one multiplication result limb is constrained equal to:
/// the full convolution term of the position with the carries applied.
pub open spec fn mul_limb_expr(
    a: Seq<Expression>,
    b: Seq<Expression>,
    idx: int,
    cin: Option<WitnessId>,
    cout: Option<WitnessId>,
    base: u64,
) -> Expression {
    carry_adjust(conv_expr(a, b, idx, idx), cin, cout, base)
}

/// Expressions reading a run of sequential cells.
pub open spec fn witin_exprs(base_id: int, n: int) -> Seq<Expression> {
    Seq::new(n as nat, |j: int| Expression::WitIn((base_id + j) as WitnessId))
}

/// What `internal_add` and the public additions guarantee: `k` fresh carry
/// cells from `nw0`, one result expression per limb over the addends and
/// those cells, and one range lookup per result limb.
pub open spec fn add_result_ok<const M: usize, const C: usize>(
    addend1: Seq<Expression>,
    addend2: Seq<Expression>,
    r: UInt<M, C>,
    cs0: crate::circuit_builder::ConstraintSystem,
    cs1: crate::circuit_builder::ConstraintSystem,
    with_overflow: bool,
) -> bool {
    let n = UInt::<M, C>::spec_num_cells();
    let k = spec_carry_count(n, with_overflow);
    let nw0 = cs0.num_witin as int;
    &&& r.limbs is Expression
    &&& r.limb_exprs().len() == n
    &&& (r.carries matches Some(ws) && fresh_cells(ws@, nw0, k))
    &&& forall|i: int|
        0 <= i < n ==> #[trigger] r.limb_exprs()[i] == add_limb_expr(
            addend1[i],
            addend2[i],
            carry_in_id(nw0, i),
            carry_out_id(nw0, i, k),
            range_bound(C as int) as u64,
        )
    &&& cs1.num_witin == nw0 + k
    &&& cs1.constraints@ == cs0.constraints@
    &&& cs1.lookups@.len() == cs0.lookups@.len() + n
    &&& cs1.lookups@.subrange(0, cs0.lookups@.len() as int) == cs0.lookups@
    &&& forall|i: int|
        0 <= i < n ==> is_range_query(
            #[trigger] cs1.lookups@[cs0.lookups@.len() + i],
            C as int,
            r.limb_exprs()[i],
        )
    &&& cs1.name == cs0.name
    &&& cs1.num_fixed == cs0.num_fixed
}

impl<const M: usize, const C: usize> UInt<M, C> {
    /// Builds the limb expressions of `addend1 + addend2`: allocates the
    /// carry cells, forms `a[i] + b[i] + carry[i-1] - carry[i] * 2^C` per
    /// limb, and range-checks each result limb into `[0, 2^C)`.
    fn internal_add(
        cb: &mut CircuitBuilder,
        addend1: &Vec<Expression>,
        addend2: &Vec<Expression>,
        with_overflow: bool,
    ) -> (r: Result<Self, ZKVMError>)
        requires
            width_ok(M as int, C as int),
            addend1@.len() == Self::spec_num_cells(),
            addend2@.len() == Self::spec_num_cells(),
        ensures
            r is Ok <==> old(cb).cs.num_witin + spec_carry_count(
                Self::spec_num_cells(),
                with_overflow,
            ) <= u16::MAX,
            r matches Ok(u) ==> add_result_ok(
                addend1@,
                addend2@,
                u,
                old(cb).cs,
                final(cb).cs,
                with_overflow,
            ) && u.well_formed(),
            r is Err ==> *final(cb) == *old(cb),
    {
        let n = Self::num_cells();
        let k = if with_overflow {
            n
        } else {
            n - 1
        };
        let mut c = Self::new_as_empty();
        match c.create_carry_witin("carry", cb, with_overflow) {
            Ok(()) => {},
            Err(e) => {
                return Err(e);
            },
        }
        let ghost nw0 = old(cb).cs.num_witin as int;
        let ghost lk0 = cb.cs.lookups@;
        let carries = match &c.carries {
            Some(ws) => ws,
            None => {
                return Err(ZKVMError::CircuitError);
            },
        };
        let base = Self::limb_modulus();
        let mut limbs: Vec<Expression> = Vec::new();
        let mut i: usize = 0;
        while i < n
            invariant
                i <= n,
                n == Self::spec_num_cells(),
                width_ok(M as int, C as int),
                addend1@.len() == n,
                addend2@.len() == n,
                k == (if with_overflow {
                    n as int
                } else {
                    n - 1
                }),
                k <= n,
                base == range_bound(C as int),
                fresh_cells(carries@, nw0, k as int),
                limbs@.len() == i,
                forall|j: int|
                    0 <= j < i ==> #[trigger] limbs@[j] == add_limb_expr(
                        addend1@[j],
                        addend2@[j],
                        carry_in_id(nw0, j),
                        carry_out_id(nw0, j, k as int),
                        base,
                    ),
                cb.cs.lookups@.len() == lk0.len() + i,
                cb.cs.lookups@.subrange(0, lk0.len() as int) == lk0,
                forall|j: int|
                    0 <= j < i ==> is_range_query(
                        #[trigger] cb.cs.lookups@[lk0.len() + j],
                        C as int,
                        limbs@[j],
                    ),
                cb.cs.constraints@ == old(cb).cs.constraints@,
                cb.cs.num_witin == nw0 + k,
                cb.cs.name == old(cb).cs.name,
                cb.cs.num_fixed == old(cb).cs.num_fixed,
                lk0 == old(cb).cs.lookups@,
            decreases n - i,
        {
            let mut e = addend1[i].duplicate().add_expr(addend2[i].duplicate());
            if i > 0 {
                e = e.add_expr(Expression::WitIn(carries[i - 1].id));
            }
            if i < k {
                e = e.sub_expr(
                    Expression::WitIn(carries[i].id).mul_expr(
                        Expression::Constant(Fp { val: base }),
                    ),
                );
            }
            let ghost prev = cb.cs.lookups@;
            let copy = e.duplicate();
            let _ = cb.assert_ux::<C>("limb_range", copy);
            limbs.push(e);
            proof {
                assert(cb.cs.lookups@.subrange(0, lk0.len() as int) =~= prev.subrange(
                    0,
                    lk0.len() as int,
                ));
                assert forall|j: int| 0 <= j < i + 1 implies is_range_query(
                    #[trigger] cb.cs.lookups@[lk0.len() + j],
                    C as int,
                    limbs@[j],
                ) by {
                    if j < i {
                        assert(cb.cs.lookups@[lk0.len() + j] == prev[lk0.len() + j]);
                    } else {
                        assert(cb.cs.lookups@[lk0.len() + j] == cb.cs.lookups@.last());
                    }
                }
            }
            i += 1;
        }
        let u = UInt::<M, C> { limbs: UintLimb::Expression(limbs), carries: c.carries };
        Ok(u)
    }

    /// Little-endian addition: `self + addend`.
    pub fn add(
        &self,
        name: &str,
        cb: &mut CircuitBuilder,
        addend: &UInt<M, C>,
        with_overflow: bool,
    ) -> (r: Result<UInt<M, C>, ZKVMError>)
        requires
            self.well_formed(),
            addend.well_formed(),
        ensures
            r is Ok <==> old(cb).cs.num_witin + spec_carry_count(
                Self::spec_num_cells(),
                with_overflow,
            ) <= u16::MAX,
            r matches Ok(u) ==> add_result_ok(
                self.limb_exprs(),
                addend.limb_exprs(),
                u,
                old(cb).cs,
                final(cb).cs,
                with_overflow,
            ) && u.well_formed(),
            r is Err ==> final(cb).cs == old(cb).cs,
    {
        cb.push_namespace(name);
        let a = self.expr();
        let b = addend.expr();
        let r = Self::internal_add(cb, &a, &b, with_overflow);
        cb.pop_namespace();
        r
    }
}

/// The value held by a constant expression.
pub open spec fn spec_constant_value(e: Expression) -> u64 {
    match e {
        Expression::Constant(f) => f.val,
        _ => 0,
    }
}

/// Limb `i` of a constant split into `c`-bit limbs.
pub open spec fn const_limb_val(v: u64, c: int, i: int) -> u64 {
    (((v as int) / (pow2((c * i) as nat) as int)) % (pow2(c as nat) as int)) as u64
}

/// The constant addend as limb expressions.
pub open spec fn const_limb_exprs(v: u64, c: int, n: int) -> Seq<Expression> {
    Seq::new(n as nat, |i: int| Expression::Constant(Fp { val: const_limb_val(v, c, i) }))
}

/// The limb modulus is the power of two of the limb width.
pub proof fn lemma_range_bound_pow2(c: int)
    requires
        c == 5 || c == 8 || c == 16,
    ensures
        range_bound(c) == pow2(c as nat),
{
    vstd::arithmetic::power2::lemma2_to64();
}

impl<const M: usize, const C: usize> UInt<M, C> {
    /// Little-endian addition of a compile-time constant, pre-split into
    /// limbs.
    pub fn add_const(
        &self,
        name: &str,
        cb: &mut CircuitBuilder,
        constant: Expression,
        with_overflow: bool,
    ) -> (r: Result<UInt<M, C>, ZKVMError>)
        requires
            self.well_formed(),
            constant is Constant,
            M <= 64,
        ensures
            r is Ok <==> old(cb).cs.num_witin + spec_carry_count(
                Self::spec_num_cells(),
                with_overflow,
            ) <= u16::MAX,
            r matches Ok(u) ==> add_result_ok(
                self.limb_exprs(),
                const_limb_exprs(
                    spec_constant_value(constant),
                    C as int,
                    Self::spec_num_cells(),
                ),
                u,
                old(cb).cs,
                final(cb).cs,
                with_overflow,
            ) && u.well_formed(),
            r is Err ==> final(cb).cs == old(cb).cs,
    {
        let v: u64 = match &constant {
            Expression::Constant(f) => f.val,
            _ => {
                proof {
                    assert(false);
                }
                0
            },
        };
        let n = Self::num_cells();
        let base = Self::limb_modulus();
        let mask = base - 1;
        proof {
            lemma_range_bound_pow2(C as int);
            // C * (n - 1) <= M - 1 < 64, so every shift below stays in
            // range.
            vstd::arithmetic::div_mod::lemma_fundamental_div_mod(M as int + C as int - 1, C as int);
        }
        let mut b_limbs: Vec<Expression> = Vec::new();
        let mut i: usize = 0;
        while i < n
            invariant
                i <= n,
                n == Self::spec_num_cells(),
                width_ok(M as int, C as int),
                M <= 64,
                C as int * (n - 1) < M as int,
                base == range_bound(C as int),
                base == pow2(C as nat),
                mask == base - 1,
                b_limbs@.len() == i,
                forall|j: int|
                    0 <= j < i ==> #[trigger] b_limbs@[j] == Expression::Constant(
                        Fp { val: const_limb_val(v, C as int, j) },
                    ),
            decreases n - i,
        {
            let shift: u64 = (C * i) as u64;
            proof {
                assert(C as int * i as int <= C as int * (n - 1)) by (nonlinear_arith)
                    requires
                        i as int <= n - 1,
                        C as int >= 1,
                ;
                vstd::bits::lemma_u64_shr_is_div(v, shift);
                vstd::bits::lemma_u64_low_bits_mask_is_mod(v >> shift, C as nat);
                vstd::arithmetic::power2::lemma_pow2_pos(C as nat);
                assert(vstd::bits::low_bits_mask(C as nat) as u64 == mask);
            }
            let limb: u64 = (v >> shift) & mask;
            proof {
                assert(limb == const_limb_val(v, C as int, i as int)) by {
                    assert((v >> shift) as int == v as int / pow2((C * i) as nat) as int);
                    assert(limb as int == (v >> shift) as int % pow2(C as nat) as int);
                }
            }
            b_limbs.push(Expression::Constant(Fp { val: limb }));
            i += 1;
        }
        proof {
            assert(b_limbs@ =~= const_limb_exprs(
                spec_constant_value(constant),
                C as int,
                Self::spec_num_cells(),
            ));
        }
        cb.push_namespace(name);
        let a = self.expr();
        let r = Self::internal_add(cb, &a, &b_limbs, with_overflow);
        cb.pop_namespace();
        r
    }
}

/// What `mul` guarantees. Writing `n` for the limb count, `k` for the
/// carry count and `nw0` for the first fresh cell id: the result owns the
/// cells `[nw0, nw0+n)`, range-checked; its carries are the cells
/// `[nw0+n, nw0+n+k)`; a derived operand is materialized right after
/// (fresh range-checked cells constrained equal to its old expressions);
/// and one constraint per position equates the result cell with the
/// convolution of the operands' final expressions, carries applied.
pub open spec fn mul_result_ok<const M: usize, const C: usize>(
    a0: UInt<M, C>,
    b0: UInt<M, C>,
    a1: UInt<M, C>,
    b1: UInt<M, C>,
    u: UInt<M, C>,
    cs0: crate::circuit_builder::ConstraintSystem,
    cs1: crate::circuit_builder::ConstraintSystem,
    with_overflow: bool,
) -> bool {
    let n = UInt::<M, C>::spec_num_cells();
    let k = spec_carry_count(n, with_overflow);
    let nw0 = cs0.num_witin as int;
    let ma: int = materialize_count(a0);
    let mb: int = materialize_count(b0);
    let sa = nw0 + n + k;
    let sb = sa + ma * n;
    let ae = if ma == 1 {
        witin_exprs(sa, n)
    } else {
        a0.limb_exprs()
    };
    let be = if mb == 1 {
        witin_exprs(sb, n)
    } else {
        b0.limb_exprs()
    };
    let lk0 = cs0.lookups@.len() as int;
    let ct0 = cs0.constraints@.len() as int;
    let base = range_bound(C as int) as u64;
    &&& a1.limb_exprs() == ae
    &&& a1.carries == a0.carries
    &&& b1.limb_exprs() == be
    &&& b1.carries == b0.carries
    &&& u.limbs is WitIn
    &&& u.limb_exprs() == witin_exprs(nw0, n)
    &&& (u.carries matches Some(ws) && fresh_cells(ws@, nw0 + n, k))
    &&& cs1.num_witin == nw0 + n + k + (ma + mb) * n
    &&& cs1.lookups@.len() == lk0 + n + (ma + mb) * n
    &&& cs1.lookups@.subrange(0, lk0) == cs0.lookups@
    &&& forall|j: int|
        0 <= j < n ==> is_range_query(
            #[trigger] cs1.lookups@[lk0 + j],
            C as int,
            Expression::WitIn((nw0 + j) as WitnessId),
        )
    &&& (ma == 1 ==> forall|j: int|
        0 <= j < n ==> is_range_query(
            #[trigger] cs1.lookups@[lk0 + n + j],
            C as int,
            Expression::WitIn((sa + j) as WitnessId),
        ))
    &&& (mb == 1 ==> forall|j: int|
        0 <= j < n ==> is_range_query(
            #[trigger] cs1.lookups@[lk0 + n + ma * n + j],
            C as int,
            Expression::WitIn((sb + j) as WitnessId),
        ))
    &&& cs1.constraints@.len() == ct0 + (ma + mb) * n + n
    &&& cs1.constraints@.subrange(0, ct0) == cs0.constraints@
    &&& (ma == 1 ==> forall|j: int|
        0 <= j < n ==> #[trigger] cs1.constraints@[ct0 + j] == sub_of(
            Expression::WitIn((sa + j) as WitnessId),
            a0.limb_exprs()[j],
        ))
    &&& (mb == 1 ==> forall|j: int|
        0 <= j < n ==> #[trigger] cs1.constraints@[ct0 + ma * n + j] == sub_of(
            Expression::WitIn((sb + j) as WitnessId),
            b0.limb_exprs()[j],
        ))
    &&& forall|i: int|
        0 <= i < n ==> #[trigger] cs1.constraints@[ct0 + (ma + mb) * n + i] == sub_of(
            Expression::WitIn((nw0 + i) as WitnessId),
            mul_limb_expr(ae, be, i, carry_in_id(nw0 + n, i), carry_out_id(nw0 + n, i, k), base),
        )
    &&& cs1.name == cs0.name
    &&& cs1.num_fixed == cs0.num_fixed
}

impl<const M: usize, const C: usize> UInt<M, C> {
    /// Materializes derived limbs: allocates one range-checked cell per
    /// limb and constrains it equal to the limb's prior expression.
    fn replace_limbs_with_witin(&mut self, name: &str, cb: &mut CircuitBuilder) -> (r: Result<
        (),
        ZKVMError,
    >)
        requires
            old(self).well_formed(),
        ensures
            r is Ok <==> old(cb).cs.num_witin + Self::spec_num_cells() <= u16::MAX,
            r is Ok ==> {
                let n = Self::spec_num_cells();
                let nw0 = old(cb).cs.num_witin as int;
                let lk0 = old(cb).cs.lookups@.len() as int;
                let ct0 = old(cb).cs.constraints@.len() as int;
                &&& final(self).limbs is WitIn
                &&& final(self).limb_exprs() == witin_exprs(nw0, n)
                &&& final(self).carries == old(self).carries
                &&& final(cb).cs.num_witin == nw0 + n
                &&& final(cb).cs.lookups@.len() == lk0 + n
                &&& final(cb).cs.lookups@.subrange(0, lk0) == old(cb).cs.lookups@
                &&& forall|j: int|
                    0 <= j < n ==> is_range_query(
                        #[trigger] final(cb).cs.lookups@[lk0 + j],
                        C as int,
                        Expression::WitIn((nw0 + j) as WitnessId),
                    )
                &&& final(cb).cs.constraints@.len() == ct0 + n
                &&& final(cb).cs.constraints@.subrange(0, ct0) == old(cb).cs.constraints@
                &&& forall|j: int|
                    0 <= j < n ==> #[trigger] final(cb).cs.constraints@[ct0 + j] == sub_of(
                        Expression::WitIn((nw0 + j) as WitnessId),
                        old(self).limb_exprs()[j],
                    )
                &&& final(cb).cs.name == old(cb).cs.name
                &&& final(cb).cs.num_fixed == old(cb).cs.num_fixed
            },
    {
        let olds = self.expr();
        let fresh = match Self::new(name, cb) {
            Ok(u) => u,
            Err(e) => {
                return Err(e);
            },
        };
        let ghost nw0 = old(cb).cs.num_witin as int;
        let ghost ct0 = old(cb).cs.constraints@.len() as int;
        let ghost lks = cb.cs.lookups@;
        let ghost fexprs = fresh.limb_exprs();
        let n = Self::num_cells();
        let cells = match fresh.limbs {
            UintLimb::WitIn(ws) => ws,
            UintLimb::Expression(_) => {
                return Err(ZKVMError::CircuitError);
            },
        };
        proof {
            assert(fexprs.len() == n);
            assert(cells@.len() == n);
            assert forall|t: int| 0 <= t < n implies (#[trigger] cells@[t]).id == nw0 + t by {
                assert(fexprs[t] == Expression::WitIn((nw0 + t) as WitnessId));
                assert(fexprs[t] == Expression::WitIn(cells@[t].id));
            }
        }
        let mut j: usize = 0;
        while j < n
            invariant
                j <= n,
                n == Self::spec_num_cells(),
                width_ok(M as int, C as int),
                nw0 == old(cb).cs.num_witin as int,
                ct0 == old(cb).cs.constraints@.len() as int,
                nw0 + n <= u16::MAX as int + 1,
                cells@.len() == n,
                olds@.len() == n,
                forall|t: int|
                    0 <= t < n ==> (#[trigger] cells@[t]).id == nw0 + t,
                cb.cs.constraints@.len() == ct0 + j,
                cb.cs.constraints@.subrange(0, ct0) == old(cb).cs.constraints@,
                forall|t: int|
                    0 <= t < j ==> #[trigger] cb.cs.constraints@[ct0 + t] == sub_of(
                        Expression::WitIn((nw0 + t) as WitnessId),
                        olds@[t],
                    ),
                cb.cs.lookups@ == lks,
                cb.cs.num_witin == old(cb).cs.num_witin + n,
                cb.cs.name == old(cb).cs.name,
                cb.cs.num_fixed == old(cb).cs.num_fixed,
            decreases n - j,
        {
            let ghost prev = cb.cs.constraints@;
            let _ = cb.require_equal(name, Expression::WitIn(cells[j].id), olds[j].duplicate());
            proof {
                assert(cb.cs.constraints@.subrange(0, ct0) =~= prev.subrange(0, ct0));
                assert forall|t: int| 0 <= t < j + 1 implies #[trigger] cb.cs.constraints@[ct0 + t]
                    == sub_of(Expression::WitIn((nw0 + t) as WitnessId), olds@[t]) by {
                    if t < j {
                        assert(cb.cs.constraints@[ct0 + t] == prev[ct0 + t]);
                    } else {
                        assert(cb.cs.constraints@[ct0 + t] == cb.cs.constraints@.last());
                    }
                }
            }
            j += 1;
        }
        self.limbs = UintLimb::WitIn(cells);
        proof {
            assert(final(self).limb_exprs() =~= witin_exprs(nw0, n as int));
        }
        Ok(())
    }

    /// The convolution expression of output position `idx` over the given
    /// operand limb expressions.
    fn build_conv_expr(a: &Vec<Expression>, b: &Vec<Expression>, idx: usize) -> (r: Expression)
        requires
            a@.len() == b@.len(),
            idx < a@.len(),
            a@.len() <= 65536,
        ensures
            r == conv_expr(a@, b@, idx as int, idx as int),
    {
        let mut e = a[0].duplicate().mul_expr(b[idx].duplicate());
        let mut j: usize = 1;
        while j <= idx
            invariant
                1 <= j <= idx + 1,
                idx < a@.len(),
                a@.len() <= 65536,
                a@.len() == b@.len(),
                e == conv_expr(a@, b@, idx as int, j - 1),
            decreases idx + 1 - j,
        {
            e = e.add_expr(a[j].duplicate().mul_expr(b[idx - j].duplicate()));
            j += 1;
        }
        e
    }

    /// Schoolbook multiplication: materializes derived operands, then
    /// constrains each result cell to the position's convolution with the
    /// carries applied.
    pub fn mul(
        &mut self,
        name: &str,
        cb: &mut CircuitBuilder,
        multiplier: &mut UInt<M, C>,
        with_overflow: bool,
    ) -> (r: Result<UInt<M, C>, ZKVMError>)
        requires
            old(self).well_formed(),
            old(multiplier).well_formed(),
        ensures
            r is Ok <==> old(cb).cs.num_witin + Self::spec_num_cells() + spec_carry_count(
                Self::spec_num_cells(),
                with_overflow,
            ) + (materialize_count(*old(self)) + materialize_count(*old(multiplier)))
                * Self::spec_num_cells() <= u16::MAX,
            r matches Ok(u) ==> mul_result_ok(
                *old(self),
                *old(multiplier),
                *final(self),
                *final(multiplier),
                u,
                old(cb).cs,
                final(cb).cs,
                with_overflow,
            ) && u.well_formed() && final(self).well_formed() && final(multiplier).well_formed(),
    {
        cb.push_namespace(name);
        let n = Self::num_cells();
        let k = if with_overflow {
            n
        } else {
            n - 1
        };
        let base = Self::limb_modulus();
        let first_id: u16 = cb.cs.num_witin;
        let ghost nw0 = cb.cs.num_witin as int;
        let ghost lk0 = cb.cs.lookups@.len() as int;
        let ghost ct0 = cb.cs.constraints@.len() as int;
        let materialize_a = self.is_expr();
        let materialize_b = multiplier.is_expr();
        let ghost ma: int = if materialize_a {
            1
        } else {
            0
        };
        let ghost mb: int = if materialize_b {
            1
        } else {
            0
        };
        proof {
            // The carry and materialization cell counts are non-negative,
            // so exhaustion at any stage refutes the total bound.
            assert(spec_carry_count(n as int, with_overflow) >= 0);
            assert((ma + mb) * n as int >= 0 && (1 + mb) * n as int >= n as int && ma * n as int
                >= 0 && mb * n as int >= 0) by (nonlinear_arith)
                requires
                    0 <= ma <= 1,
                    0 <= mb <= 1,
                    n as int >= 1,
            ;
        }
        let mut c = match Self::new("c", cb) {
            Ok(u) => u,
            Err(e) => {
                cb.pop_namespace();
                return Err(e);
            },
        };
        let ghost lks_c = cb.cs.lookups@;
        match c.create_carry_witin("mul_carry", cb, with_overflow) {
            Ok(()) => {},
            Err(e) => {
                cb.pop_namespace();
                return Err(e);
            },
        }
        if materialize_a {
            match self.replace_limbs_with_witin("replace_a", cb) {
                Ok(()) => {},
                Err(e) => {
                    cb.pop_namespace();
                    proof {
                        assert((ma + mb) * n as int == n as int + mb * n as int)
                            by (nonlinear_arith)
                            requires
                                ma == 1,
                        ;
                    }
                    return Err(e);
                },
            }
        }
        let ghost lks_a = cb.cs.lookups@;
        let ghost cts_a = cb.cs.constraints@;
        if materialize_b {
            match multiplier.replace_limbs_with_witin("replace_b", cb) {
                Ok(()) => {},
                Err(e) => {
                    cb.pop_namespace();
                    proof {
                        assert((ma + mb) * n as int == ma * n as int + n as int)
                            by (nonlinear_arith)
                            requires
                                mb == 1,
                        ;
                    }
                    return Err(e);
                },
            }
        }
        let ae = self.expr();
        let be = multiplier.expr();
        let carries = match &c.carries {
            Some(ws) => ws,
            None => {
                cb.pop_namespace();
                return Err(ZKVMError::CircuitError);
            },
        };
        let ghost lkmid = cb.cs.lookups@;
        let ghost ctsmid = cb.cs.constraints@;
        proof {
            let ean: int = if materialize_a {
                n as int
            } else {
                0
            };
            let ebn: int = if materialize_b {
                n as int
            } else {
                0
            };
            assert(ma * n == ean && mb * n == ebn && (ma + mb) * n == ean + ebn)
                by (nonlinear_arith)
                requires
                    (ma == 1 && ean == n as int) || (ma == 0 && ean == 0),
                    (mb == 1 && ebn == n as int) || (mb == 0 && ebn == 0),
            ;
            assert(cb.cs.num_witin as int == nw0 + n + k + ean + ebn);
            assert(lkmid.len() == lk0 + n + ean + ebn);
            assert(ctsmid.len() == ct0 + ean + ebn);
            assert(lkmid.subrange(0, lk0) =~= old(cb).cs.lookups@);
            assert(ctsmid.subrange(0, ct0) =~= old(cb).cs.constraints@);
        }
        let mut i: usize = 0;
        while i < n
            invariant
                i <= n,
                n == Self::spec_num_cells(),
                width_ok(M as int, C as int),
                k == (if with_overflow {
                    n as int
                } else {
                    n - 1
                }),
                k <= n,
                n <= 13110,
                base == range_bound(C as int),
                first_id as int == nw0,
                nw0 + n + k <= u16::MAX + 1,
                ae@.len() == n,
                be@.len() == n,
                fresh_cells(carries@, nw0 + n, k as int),
                c.limbs is WitIn,
                c.limb_exprs() == witin_exprs(nw0, n as int),
                c.carries matches Some(ws) && ws@ == carries@,
                cb.cs.constraints@.len() == ctsmid.len() + i,
                cb.cs.constraints@.subrange(0, ctsmid.len() as int) == ctsmid,
                forall|t: int|
                    0 <= t < i ==> #[trigger] cb.cs.constraints@[ctsmid.len() + t] == sub_of(
                        Expression::WitIn((nw0 + t) as WitnessId),
                        mul_limb_expr(
                            ae@,
                            be@,
                            t,
                            carry_in_id(nw0 + n, t),
                            carry_out_id(nw0 + n, t, k as int),
                            base,
                        ),
                    ),
                cb.cs.lookups@ == lkmid,
                cb.cs.num_witin as int == nw0 + n + k + (ma + mb) * n,
                cb.cs.name == old(cb).cs.name,
                cb.cs.num_fixed == old(cb).cs.num_fixed,
            decreases n - i,
        {
            let mut e = Self::build_conv_expr(&ae, &be, i);
            if i > 0 {
                e = e.add_expr(Expression::WitIn(carries[i - 1].id));
            }
            if i < k {
                e = e.sub_expr(
                    Expression::WitIn(carries[i].id).mul_expr(
                        Expression::Constant(Fp { val: base }),
                    ),
                );
            }
            proof {
                assert(e == mul_limb_expr(
                    ae@,
                    be@,
                    i as int,
                    carry_in_id(nw0 + n, i as int),
                    carry_out_id(nw0 + n, i as int, k as int),
                    base,
                ));
            }
            let cell_id: u16 = first_id + (i as u16);
            let ghost prev = cb.cs.constraints@;
            let _ = cb.require_equal("c_expr", Expression::WitIn(cell_id), e);
            proof {
                assert(cb.cs.constraints@.subrange(0, ctsmid.len() as int) =~= prev.subrange(
                    0,
                    ctsmid.len() as int,
                ));
                assert forall|t: int| 0 <= t < i + 1 implies #[trigger] cb.cs.constraints@[
                    ctsmid.len() + t] == sub_of(
                    Expression::WitIn((nw0 + t) as WitnessId),
                    mul_limb_expr(
                        ae@,
                        be@,
                        t,
                        carry_in_id(nw0 + n, t),
                        carry_out_id(nw0 + n, t, k as int),
                        base,
                    ),
                ) by {
                    if t < i {
                        assert(cb.cs.constraints@[ctsmid.len() + t] == prev[ctsmid.len() + t]);
                    } else {
                        assert(cb.cs.constraints@[ctsmid.len() + t] == cb.cs.constraints@.last());
                    }
                }
            }
            i += 1;
        }
        cb.pop_namespace();
        proof {
            let cs1 = cb.cs;
            let lkA = lk0 + n as int;
            // The lookup prefix survives each later phase untouched.
            assert forall|j: int| 0 <= j < n implies is_range_query(
                #[trigger] cs1.lookups@[lk0 + j],
                C as int,
                Expression::WitIn((nw0 + j) as WitnessId),
            ) by {
                assert(cs1.lookups@[lk0 + j] == lkmid[lk0 + j]);
                assert(lkmid[lk0 + j] == lks_a[lk0 + j]);
                assert(lks_a[lk0 + j] == lks_c[lk0 + j]);
            }
            if ma == 1 {
                assert forall|j: int| 0 <= j < n implies is_range_query(
                    #[trigger] cs1.lookups@[lk0 + n + j],
                    C as int,
                    Expression::WitIn((nw0 + n + k + j) as WitnessId),
                ) by {
                    assert(cs1.lookups@[lk0 + n + j] == lkmid[lk0 + n + j]);
                    assert(lkmid[lk0 + n + j] == lks_a[lk0 + n + j]);
                }
                assert forall|j: int| 0 <= j < n implies #[trigger] cs1.constraints@[ct0 + j]
                    == sub_of(
                    Expression::WitIn((nw0 + n + k + j) as WitnessId),
                    old(self).limb_exprs()[j],
                ) by {
                    assert(cs1.constraints@[ct0 + j] == ctsmid[ct0 + j]);
                    assert(ctsmid[ct0 + j] == cts_a[ct0 + j]);
                }
            }
            if mb == 1 {
                assert forall|j: int| 0 <= j < n implies is_range_query(
                    #[trigger] cs1.lookups@[lk0 + n + ma * n + j],
                    C as int,
                    Expression::WitIn((nw0 + n + k + ma * n + j) as WitnessId),
                ) by {
                    assert(cs1.lookups@[lk0 + n + ma * n + j] == lkmid[lk0 + n + ma * n + j]);
                }
                assert forall|j: int| 0 <= j < n implies #[trigger] cs1.constraints@[ct0 + ma * n
                    + j] == sub_of(
                    Expression::WitIn((nw0 + n + k + ma * n + j) as WitnessId),
                    old(multiplier).limb_exprs()[j],
                ) by {
                    assert(cs1.constraints@[ct0 + ma * n + j] == ctsmid[ct0 + ma * n + j]);
                }
            }
            assert(cs1.lookups@.subrange(0, lk0) =~= old(cb).cs.lookups@);
            assert(cs1.constraints@.subrange(0, ct0) =~= old(cb).cs.constraints@);
        }
        Ok(c)
    }
}

} // verus!
