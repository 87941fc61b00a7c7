//! Symbolic arithmetic over witness cells, challenges and constants.
//!
//! An [`Expression`] is a tree over witness-cell references, challenge
//! references, field constants, sums and products. It is stateless and is
//! evaluated by substituting a concrete witness row and challenge vector;
//! every node evaluates modulo the field modulus.

use vstd::prelude::*;

use crate::field::{p, Fp, FIELD_MODULUS};

verus! {

/// Index of one column of a per-circuit witness matrix.
pub type WitnessId = u16;

/// Index of one externally supplied challenge.
pub type ChallengeId = u16;

/// A reference to one witness cell, handed out by the circuit builder.
#[derive(Clone, Copy, Debug, PartialEq, Eq, Structural)]
pub struct WitIn {
    pub id: WitnessId,
}

/// A symbolic polynomial over witness cells, challenges and constants.
#[derive(Debug)]
pub enum Expression {
    /// Reference to a witness cell by column index.
    WitIn(WitnessId),
    /// Reference to an external challenge by index.
    Challenge(ChallengeId),
    /// A fixed field element.
    Constant(Fp),
    /// Sum of two sub-expressions, taken modulo the field modulus.
    Sum(Box<Expression>, Box<Expression>),
    /// Product of two sub-expressions, taken modulo the field modulus.
    Product(Box<Expression>, Box<Expression>),
}

/// Every element of the row is in canonical form.
pub open spec fn all_canonical(s: Seq<Fp>) -> bool {
    forall|i: int| 0 <= i < s.len() ==> (#[trigger] s[i]).inv()
}

/// The value of an expression on a witness row and challenge vector.
///
/// Out-of-range cell or challenge references count as zero, so the function
/// is total; each node reduces modulo the field modulus, so the result always
/// lies in `[0, P)`.
pub open spec fn eval(e: Expression, wit: Seq<Fp>, chal: Seq<Fp>) -> int
    decreases e,
{
    match e {
        Expression::WitIn(w) => if w < wit.len() {
            wit[w as int].val as int % p()
        } else {
            0
        },
        Expression::Challenge(c) => if c < chal.len() {
            chal[c as int].val as int % p()
        } else {
            0
        },
        Expression::Constant(f) => f.val as int % p(),
        Expression::Sum(a, b) => (eval(*a, wit, chal) + eval(*b, wit, chal)) % p(),
        Expression::Product(a, b) => (eval(*a, wit, chal) * eval(*b, wit, chal)) % p(),
    }
}

/// The value of an expression always lies in `[0, P)`.
pub proof fn lemma_eval_in_range(e: Expression, wit: Seq<Fp>, chal: Seq<Fp>)
    ensures
        0 <= eval(e, wit, chal) < p(),
    decreases e,
{
    match e {
        Expression::Sum(a, b) => {
            lemma_eval_in_range(*a, wit, chal);
            lemma_eval_in_range(*b, wit, chal);
        },
        Expression::Product(a, b) => {
            lemma_eval_in_range(*a, wit, chal);
            lemma_eval_in_range(*b, wit, chal);
        },
        _ => {},
    }
}

impl WitIn {
    /// The expression reading this cell.
    pub fn expr(&self) -> (r: Expression)
        ensures
            r == Expression::WitIn(self.id),
    {
        Expression::WitIn(self.id)
    }
}

impl Expression {
    /// A deep copy, equal to the original.
    pub fn duplicate(&self) -> (r: Expression)
        ensures
            r == *self,
        decreases *self,
    {
        match self {
            Expression::WitIn(w) => Expression::WitIn(*w),
            Expression::Challenge(c) => Expression::Challenge(*c),
            Expression::Constant(f) => Expression::Constant(*f),
            Expression::Sum(a, b) => Expression::Sum(
                Box::new(a.duplicate()),
                Box::new(b.duplicate()),
            ),
            Expression::Product(a, b) => Expression::Product(
                Box::new(a.duplicate()),
                Box::new(b.duplicate()),
            ),
        }
    }

    /// A constant expression from a machine word, reduced into the field.
    pub fn constant_u64(x: u64) -> (r: Expression)
        ensures
            r is Constant,
            forall|wit: Seq<Fp>, chal: Seq<Fp>| eval(r, wit, chal) == x as int % p(),
    {
        let f = Fp::from_u64(x);
        proof {
            vstd::arithmetic::div_mod::lemma_mod_twice(x as int, p());
        }
        Expression::Constant(f)
    }

    /// The sum of two expressions.
    pub fn add_expr(self, other: Expression) -> (r: Expression)
        ensures
            r == Expression::Sum(Box::new(self), Box::new(other)),
    {
        Expression::Sum(Box::new(self), Box::new(other))
    }

    /// The product of two expressions.
    pub fn mul_expr(self, other: Expression) -> (r: Expression)
        ensures
            r == Expression::Product(Box::new(self), Box::new(other)),
    {
        Expression::Product(Box::new(self), Box::new(other))
    }

    /// The difference of two expressions, written as adding `P - 1` times the
    /// subtrahend.
    pub fn sub_expr(self, other: Expression) -> (r: Expression)
        ensures
            r == sub_of(self, other),
    {
        let minus_one = Fp { val: FIELD_MODULUS - 1 };
        Expression::Sum(
            Box::new(self),
            Box::new(Expression::Product(
                Box::new(Expression::Constant(minus_one)),
                Box::new(other),
            )),
        )
    }

    /// Evaluates the expression on a concrete witness row and challenge
    /// vector.
    pub fn eval_on(&self, wit: &Vec<Fp>, chal: &Vec<Fp>) -> (r: Fp)
        requires
            all_canonical(wit@),
            all_canonical(chal@),
        ensures
            r.val == eval(*self, wit@, chal@),
            r.inv(),
        decreases *self,
    {
        match self {
            Expression::WitIn(w) => {
                if (*w as usize) < wit.len() {
                    let f = wit[*w as usize];
                    proof {
                        vstd::arithmetic::div_mod::lemma_small_mod(
                            f.val as nat,
                            FIELD_MODULUS as nat,
                        );
                    }
                    f
                } else {
                    Fp::zero()
                }
            },
            Expression::Challenge(c) => {
                if (*c as usize) < chal.len() {
                    let f = chal[*c as usize];
                    proof {
                        vstd::arithmetic::div_mod::lemma_small_mod(
                            f.val as nat,
                            FIELD_MODULUS as nat,
                        );
                    }
                    f
                } else {
                    Fp::zero()
                }
            },
            Expression::Constant(f) => Fp::from_u64(f.val),
            Expression::Sum(a, b) => {
                let va = a.eval_on(wit, chal);
                let vb = b.eval_on(wit, chal);
                va.add(vb)
            },
            Expression::Product(a, b) => {
                let va = a.eval_on(wit, chal);
                let vb = b.eval_on(wit, chal);
                va.mul(vb)
            },
        }
    }
}

/// The tree that `sub_expr` builds: `a + (P - 1) * b`.
pub open spec fn sub_of(a: Expression, b: Expression) -> Expression {
    Expression::Sum(
        Box::new(a),
        Box::new(Expression::Product(
            Box::new(Expression::Constant(Fp { val: (FIELD_MODULUS - 1) as u64 })),
            Box::new(b),
        )),
    )
}

/// Subtraction evaluates as the modular difference of its operands.
pub proof fn lemma_eval_sub(a: Expression, b: Expression, wit: Seq<Fp>, chal: Seq<Fp>)
    ensures
        eval(sub_of(a, b), wit, chal) == (eval(a, wit, chal) - eval(b, wit, chal)) % p(),
{
    let ea = eval(a, wit, chal);
    let eb = eval(b, wit, chal);
    let m1 = (FIELD_MODULUS - 1) as int % p();
    lemma_eval_in_range(a, wit, chal);
    lemma_eval_in_range(b, wit, chal);
    assert(m1 == p() - 1) by {
        vstd::arithmetic::div_mod::lemma_small_mod((FIELD_MODULUS - 1) as nat, FIELD_MODULUS as nat);
    }
    let cst = Expression::Constant(Fp { val: (FIELD_MODULUS - 1) as u64 });
    let prod = Expression::Product(Box::new(cst), Box::new(b));
    assert(eval(cst, wit, chal) == m1);
    assert(eval(prod, wit, chal) == (m1 * eb) % p());
    assert(eval(sub_of(a, b), wit, chal) == (ea + (m1 * eb) % p()) % p());
    assert((p() - 1) * eb == eb * p() - eb) by (nonlinear_arith);
    assert((eb * p() - eb) % p() == (0 - eb) % p()) by {
        vstd::arithmetic::div_mod::lemma_mod_multiples_vanish(eb, 0 - eb, p());
    }
    assert((ea + (0 - eb) % p()) % p() == (ea + (0 - eb)) % p()) by {
        vstd::arithmetic::div_mod::lemma_add_mod_noop_right(ea, 0 - eb, p());
    }
}

} // verus!
