//! The mutable front-end that allocates witness cells and registers named
//! polynomial constraints and lookup queries.
//!
//! A [`ConstraintSystem`] owns the declared witness-cell count, the ordered
//! set of zero-constraints and the set of lookup queries; a witness row is
//! accepted when every constraint evaluates to zero and every lookup query
//! hits its table ([`satisfied`]). Cell and constraint counts only grow;
//! nothing is ever removed.

use vstd::prelude::*;

use crate::error::ZKVMError;
use crate::expression::{eval, sub_of, Expression, WitIn};
use crate::field::Fp;

verus! {

use vstd::string::StringExecFns;

/// The four fixed, precomputed lookup tables the prover commits to once.
#[derive(Clone, Copy, Debug, PartialEq, Eq, Structural)]
pub enum ROMType {
    /// 5-bit range table, `[0, 32)`.
    U5,
    /// 16-bit range table, `[0, 65536)`.
    U16,
    /// Byte AND table: `(a & b, a, b)` for all byte pairs.
    And,
    /// Byte unsigned-less-than table: `(a < b, a, b)` for all byte pairs.
    Ltu,
}

/// One lookup-argument query: a table type and the queried expression tuple.
pub struct LookupQuery {
    pub rom_type: ROMType,
    pub args: Vec<Expression>,
}

/// Whether a tuple of evaluated values is a row of the given table.
pub open spec fn lookup_sat(rom_type: ROMType, vals: Seq<int>) -> bool {
    match rom_type {
        ROMType::U5 => vals.len() == 1 && 0 <= vals[0] < 32,
        ROMType::U16 => vals.len() == 1 && 0 <= vals[0] < 0x10000,
        ROMType::And => vals.len() == 3 && 0 <= vals[1] < 256 && 0 <= vals[2] < 256 && vals[0]
            == (((vals[1] as u8) & (vals[2] as u8)) as int),
        ROMType::Ltu => vals.len() == 3 && 0 <= vals[1] < 256 && 0 <= vals[2] < 256 && vals[0] == (
        if vals[1] < vals[2] {
            1int
        } else {
            0int
        }),
    }
}

/// The values of a query's expressions on a witness row.
pub open spec fn lookup_args_eval(args: Seq<Expression>, wit: Seq<Fp>, chal: Seq<Fp>) -> Seq<int> {
    Seq::new(args.len(), |i: int| eval(args[i], wit, chal))
}

/// A named constraint system under construction.
pub struct ConstraintSystem {
    /// The circuit's unique name.
    pub name: String,
    /// Number of witness cells allocated so far.
    pub num_witin: u16,
    /// Number of declared fixed columns (table contents).
    pub num_fixed: usize,
    /// Diagnostic names of the zero-constraints, aligned with `constraints`.
    pub constraint_names: Vec<String>,
    /// Polynomial identities that must vanish on every accepted witness row.
    pub constraints: Vec<Expression>,
    /// Diagnostic names of the lookup queries, aligned with `lookups`.
    pub lookup_names: Vec<String>,
    /// Lookup-argument queries against the fixed tables.
    pub lookups: Vec<LookupQuery>,
}

/// Whether a witness row and challenge vector satisfy every constraint and
/// every lookup query of the system.
pub open spec fn satisfied(cs: ConstraintSystem, wit: Seq<Fp>, chal: Seq<Fp>) -> bool {
    &&& forall|i: int|
        0 <= i < cs.constraints@.len() ==> eval(#[trigger] cs.constraints@[i], wit, chal) == 0
    &&& forall|i: int|
        0 <= i < cs.lookups@.len() ==> lookup_sat(
            (#[trigger] cs.lookups@[i]).rom_type,
            lookup_args_eval(cs.lookups@[i].args@, wit, chal),
        )
}

impl ConstraintSystem {
    /// An empty system under the given name.
    pub fn new(name: &str) -> (r: ConstraintSystem)
        ensures
            r.name@ == name@,
            r.num_witin == 0,
            r.num_fixed == 0,
            r.constraints@.len() == 0,
            r.constraint_names@.len() == 0,
            r.lookups@.len() == 0,
            r.lookup_names@.len() == 0,
    {
        ConstraintSystem {
            name: name.to_owned(),
            num_witin: 0,
            num_fixed: 0,
            constraint_names: Vec::new(),
            constraints: Vec::new(),
            lookup_names: Vec::new(),
            lookups: Vec::new(),
        }
    }
}

/// A deep copy of an expression vector.
fn dup_exprs(v: &Vec<Expression>) -> (r: Vec<Expression>)
    ensures
        r@ == v@,
{
    let mut out: Vec<Expression> = Vec::new();
    let mut i: usize = 0;
    while i < v.len()
        invariant
            i <= v@.len(),
            out@ == v@.subrange(0, i as int),
        decreases v@.len() - i,
    {
        out.push(v[i].duplicate());
        proof {
            assert(out@ =~= v@.subrange(0, i + 1 as int));
        }
        i += 1;
    }
    proof {
        assert(out@ =~= v@);
    }
    out
}

/// A deep copy of a name vector.
fn dup_strings(v: &Vec<String>) -> (r: Vec<String>)
    ensures
        r@ == v@,
{
    let mut out: Vec<String> = Vec::new();
    let mut i: usize = 0;
    while i < v.len()
        invariant
            i <= v@.len(),
            out@ == v@.subrange(0, i as int),
        decreases v@.len() - i,
    {
        out.push(v[i].clone());
        proof {
            assert(out@ =~= v@.subrange(0, i + 1 as int));
        }
        i += 1;
    }
    proof {
        assert(out@ =~= v@);
    }
    out
}

impl LookupQuery {
    /// A deep copy, equal to the original.
    pub fn duplicate(&self) -> (r: LookupQuery)
        ensures
            r.rom_type == self.rom_type,
            r.args@ == self.args@,
    {
        LookupQuery { rom_type: self.rom_type, args: dup_exprs(&self.args) }
    }
}

impl ConstraintSystem {
    /// A deep copy, field for field.
    pub fn duplicate(&self) -> (r: ConstraintSystem)
        ensures
            r.name == self.name,
            r.num_witin == self.num_witin,
            r.num_fixed == self.num_fixed,
            r.constraint_names@ == self.constraint_names@,
            r.constraints@ == self.constraints@,
            r.lookup_names@ == self.lookup_names@,
            r.lookups@.len() == self.lookups@.len(),
            forall|i: int|
                0 <= i < self.lookups@.len() ==> (#[trigger] r.lookups@[i]).rom_type
                    == self.lookups@[i].rom_type && r.lookups@[i].args@
                    == self.lookups@[i].args@,
    {
        let mut lookups: Vec<LookupQuery> = Vec::new();
        let mut i: usize = 0;
        while i < self.lookups.len()
            invariant
                i <= self.lookups@.len(),
                lookups@.len() == i,
                forall|t: int|
                    0 <= t < i ==> (#[trigger] lookups@[t]).rom_type == self.lookups@[t].rom_type
                        && lookups@[t].args@ == self.lookups@[t].args@,
            decreases self.lookups@.len() - i,
        {
            lookups.push(self.lookups[i].duplicate());
            i += 1;
        }
        ConstraintSystem {
            name: self.name.clone(),
            num_witin: self.num_witin,
            num_fixed: self.num_fixed,
            constraint_names: dup_strings(&self.constraint_names),
            constraints: dup_exprs(&self.constraints),
            lookup_names: dup_strings(&self.lookup_names),
            lookups,
        }
    }
}

/// The mutable context object handed to every gadget call.
pub struct CircuitBuilder {
    /// The system being built.
    pub cs: ConstraintSystem,
    /// Stack of namespace segments, a purely diagnostic prefix.
    pub ns: Vec<String>,
}

impl CircuitBuilder {
    pub fn new(cs: ConstraintSystem) -> (r: CircuitBuilder)
        ensures
            r.cs == cs,
            r.ns@.len() == 0,
    {
        CircuitBuilder { cs, ns: Vec::new() }
    }

    /// Hands the finished system back.
    pub fn finish(self) -> (r: ConstraintSystem)
        ensures
            r == self.cs,
    {
        self.cs
    }

    /// Opens a diagnostic namespace; affects names only, never
    /// satisfiability.
    pub fn push_namespace(&mut self, name: &str)
        ensures
            final(self).cs == old(self).cs,
    {
        self.ns.push(name.to_owned());
    }

    /// Closes the innermost diagnostic namespace.
    pub fn pop_namespace(&mut self)
        ensures
            final(self).cs == old(self).cs,
    {
        if self.ns.len() > 0 {
            let _ = self.ns.pop();
        }
    }

    /// The namespace prefix joined with the given name, for diagnostics.
    fn path_name(&self, name: &str) -> String {
        let mut full = String::new();
        let mut i: usize = 0;
        while i < self.ns.len()
            decreases self.ns.len() - i,
        {
            full.append(self.ns[i].as_str());
            full.append("/");
            i += 1;
        }
        full.append(name);
        full
    }

    /// Allocates a fresh witness cell.
    ///
    /// Fails only when the cell index space is exhausted.
    pub fn create_witin(&mut self, name: &str) -> (r: Result<WitIn, ZKVMError>)
        ensures
            r is Ok <==> old(self).cs.num_witin < u16::MAX,
            r matches Ok(w) ==> {
                &&& w.id == old(self).cs.num_witin
                &&& final(self).cs.num_witin == old(self).cs.num_witin + 1
                &&& final(self).cs.constraints@ == old(self).cs.constraints@
                &&& final(self).cs.lookups@ == old(self).cs.lookups@
                &&& final(self).cs.name == old(self).cs.name
                &&& final(self).cs.num_fixed == old(self).cs.num_fixed
            },
            r is Err ==> *final(self) == *old(self),
    {
        let _ = name;
        if self.cs.num_witin == u16::MAX {
            return Err(ZKVMError::CircuitError);
        }
        let w = WitIn { id: self.cs.num_witin };
        self.cs.num_witin = self.cs.num_witin + 1;
        Ok(w)
    }

    /// Registers a polynomial identity that must vanish on every accepted
    /// witness row.
    pub fn require_zero(&mut self, name: &str, expr: Expression) -> (r: Result<(), ZKVMError>)
        ensures
            r is Ok,
            final(self).cs.constraints@ == old(self).cs.constraints@.push(expr),
            final(self).cs.lookups@ == old(self).cs.lookups@,
            final(self).cs.num_witin == old(self).cs.num_witin,
            final(self).cs.name == old(self).cs.name,
            final(self).cs.num_fixed == old(self).cs.num_fixed,
    {
        let full = self.path_name(name);
        self.cs.constraint_names.push(full);
        self.cs.constraints.push(expr);
        Ok(())
    }

    /// Registers the identity `lhs == rhs`.
    pub fn require_equal(&mut self, name: &str, lhs: Expression, rhs: Expression) -> (r: Result<
        (),
        ZKVMError,
    >)
        ensures
            r is Ok,
            final(self).cs.constraints@ == old(self).cs.constraints@.push(sub_of(lhs, rhs)),
            final(self).cs.lookups@ == old(self).cs.lookups@,
            final(self).cs.num_witin == old(self).cs.num_witin,
            final(self).cs.name == old(self).cs.name,
            final(self).cs.num_fixed == old(self).cs.num_fixed,
    {
        self.require_zero(name, lhs.sub_expr(rhs))
    }

    /// Constrains `expr` to be boolean: `expr * (expr - 1) == 0`.
    pub fn assert_bit(&mut self, name: &str, expr: Expression) -> (r: Result<(), ZKVMError>)
        ensures
            r is Ok,
            final(self).cs.constraints@ == old(self).cs.constraints@.push(bit_constraint_of(expr)),
            final(self).cs.lookups@ == old(self).cs.lookups@,
            final(self).cs.num_witin == old(self).cs.num_witin,
            final(self).cs.name == old(self).cs.name,
            final(self).cs.num_fixed == old(self).cs.num_fixed,
    {
        let square = expr.duplicate();
        let one = Expression::Constant(Fp { val: 1 });
        self.require_zero(name, square.mul_expr(expr.sub_expr(one)))
    }

    /// Range-checks `expr` into `[0, 2^C_BITS)` by a query against the
    /// matching fixed table: the 5-bit or 16-bit range table, or, for bytes,
    /// the AND table via `expr & 255 == expr`.
    pub fn assert_ux<const C_BITS: usize>(&mut self, name: &str, expr: Expression) -> (r: Result<
        (),
        ZKVMError,
    >)
        requires
            C_BITS == 5 || C_BITS == 8 || C_BITS == 16,
        ensures
            r is Ok,
            final(self).cs.lookups@.len() == old(self).cs.lookups@.len() + 1,
            final(self).cs.lookups@.subrange(0, old(self).cs.lookups@.len() as int) == old(
                self,
            ).cs.lookups@,
            is_range_query(final(self).cs.lookups@.last(), C_BITS as int, expr),
            final(self).cs.constraints@ == old(self).cs.constraints@,
            final(self).cs.num_witin == old(self).cs.num_witin,
            final(self).cs.name == old(self).cs.name,
            final(self).cs.num_fixed == old(self).cs.num_fixed,
    {
        let full = self.path_name(name);
        let mut args: Vec<Expression> = Vec::new();
        let rom_type: ROMType;
        if C_BITS == 5 {
            rom_type = ROMType::U5;
            args.push(expr);
        } else if C_BITS == 16 {
            rom_type = ROMType::U16;
            args.push(expr);
        } else {
            rom_type = ROMType::And;
            let copy = expr.duplicate();
            args.push(expr);
            args.push(copy);
            args.push(Expression::Constant(Fp { val: 255 }));
        }
        self.cs.lookup_names.push(full);
        self.cs.lookups.push(LookupQuery { rom_type, args });
        proof {
            assert(self.cs.lookups@.subrange(0, old(self).cs.lookups@.len() as int) =~= old(
                self,
            ).cs.lookups@);
            if C_BITS == 8 {
                assert(self.cs.lookups@.last().args@ =~= seq![
                    expr,
                    expr,
                    Expression::Constant(Fp { val: 255 }),
                ]);
            } else {
                assert(self.cs.lookups@.last().args@ =~= seq![expr]);
            }
        }
        Ok(())
    }

    /// Queries the byte AND table: `res == a & b` with `a`, `b` bytes.
    pub fn lookup_and_byte(&mut self, res: Expression, a: Expression, b: Expression) -> (r: Result<
        (),
        ZKVMError,
    >)
        ensures
            r is Ok,
            final(self).cs.lookups@.len() == old(self).cs.lookups@.len() + 1,
            final(self).cs.lookups@.subrange(0, old(self).cs.lookups@.len() as int) == old(
                self,
            ).cs.lookups@,
            is_and_query(final(self).cs.lookups@.last(), res, a, b),
            final(self).cs.constraints@ == old(self).cs.constraints@,
            final(self).cs.num_witin == old(self).cs.num_witin,
            final(self).cs.name == old(self).cs.name,
            final(self).cs.num_fixed == old(self).cs.num_fixed,
    {
        let full = self.path_name("and_byte");
        let mut args: Vec<Expression> = Vec::new();
        args.push(res);
        args.push(a);
        args.push(b);
        self.cs.lookup_names.push(full);
        self.cs.lookups.push(LookupQuery { rom_type: ROMType::And, args });
        proof {
            assert(self.cs.lookups@.subrange(0, old(self).cs.lookups@.len() as int) =~= old(
                self,
            ).cs.lookups@);
            assert(self.cs.lookups@.last().args@ =~= seq![res, a, b]);
        }
        Ok(())
    }

    /// Queries the byte unsigned-less-than table: `res == (a < b)` with `a`,
    /// `b` bytes.
    pub fn lookup_ltu_limb8(&mut self, res: Expression, a: Expression, b: Expression) -> (r:
        Result<(), ZKVMError>)
        ensures
            r is Ok,
            final(self).cs.lookups@.len() == old(self).cs.lookups@.len() + 1,
            final(self).cs.lookups@.subrange(0, old(self).cs.lookups@.len() as int) == old(
                self,
            ).cs.lookups@,
            is_ltu_query(final(self).cs.lookups@.last(), res, a, b),
            final(self).cs.constraints@ == old(self).cs.constraints@,
            final(self).cs.num_witin == old(self).cs.num_witin,
            final(self).cs.name == old(self).cs.name,
            final(self).cs.num_fixed == old(self).cs.num_fixed,
    {
        let full = self.path_name("ltu_byte");
        let mut args: Vec<Expression> = Vec::new();
        args.push(res);
        args.push(a);
        args.push(b);
        self.cs.lookup_names.push(full);
        self.cs.lookups.push(LookupQuery { rom_type: ROMType::Ltu, args });
        proof {
            assert(self.cs.lookups@.subrange(0, old(self).cs.lookups@.len() as int) =~= old(
                self,
            ).cs.lookups@);
            assert(self.cs.lookups@.last().args@ =~= seq![res, a, b]);
        }
        Ok(())
    }

    /// Allocates a fresh cell constrained equal to the given expression.
    pub fn create_witin_from_expr(&mut self, name: &str, expr: Expression) -> (r: Result<
        WitIn,
        ZKVMError,
    >)
        ensures
            r is Ok <==> old(self).cs.num_witin < u16::MAX,
            r matches Ok(w) ==> {
                &&& w.id == old(self).cs.num_witin
                &&& final(self).cs.num_witin == old(self).cs.num_witin + 1
                &&& final(self).cs.constraints@ == old(self).cs.constraints@.push(
                    sub_of(Expression::WitIn(w.id), expr),
                )
                &&& final(self).cs.lookups@ == old(self).cs.lookups@
                &&& final(self).cs.name == old(self).cs.name
                &&& final(self).cs.num_fixed == old(self).cs.num_fixed
            },
            r is Err ==> *final(self) == *old(self),
    {
        let w = match self.create_witin(name) {
            Ok(w) => w,
            Err(e) => {
                return Err(e);
            },
        };
        let cell = Expression::WitIn(w.id);
        match self.require_equal(name, cell, expr) {
            Ok(()) => Ok(w),
            Err(e) => Err(e),
        }
    }

    /// Allocates a boolean cell and an auxiliary inverse cell certifying
    /// whether `lhs == rhs`: registers `is_eq * (lhs - rhs) == 0` and
    /// `(lhs - rhs) * diff_inv == 1 - is_eq`, and returns
    /// `(is_eq, diff_inv)`.
    pub fn is_equal(&mut self, lhs: Expression, rhs: Expression) -> (r: Result<
        (WitIn, WitIn),
        ZKVMError,
    >)
        ensures
            r is Ok <==> old(self).cs.num_witin + 2 <= u16::MAX,
            r matches Ok(pair) ==> {
                &&& pair.0.id == old(self).cs.num_witin
                &&& pair.1.id == old(self).cs.num_witin + 1
                &&& final(self).cs.num_witin == old(self).cs.num_witin + 2
                &&& final(self).cs.constraints@ == old(self).cs.constraints@.push(
                    is_equal_zero_constraint(pair.0, lhs, rhs),
                ).push(is_equal_inverse_constraint(pair.0, pair.1, lhs, rhs))
                &&& final(self).cs.lookups@ == old(self).cs.lookups@
                &&& final(self).cs.name == old(self).cs.name
                &&& final(self).cs.num_fixed == old(self).cs.num_fixed
            },
            r is Err ==> *final(self) == *old(self),
    {
        if self.cs.num_witin > u16::MAX - 2 {
            return Err(ZKVMError::CircuitError);
        }
        let is_eq = match self.create_witin("is_eq") {
            Ok(w) => w,
            Err(_) => {
                return Err(ZKVMError::CircuitError);
            },
        };
        let diff_inv = match self.create_witin("diff_inv") {
            Ok(w) => w,
            Err(_) => {
                return Err(ZKVMError::CircuitError);
            },
        };
        let diff = lhs.duplicate().sub_expr(rhs.duplicate());
        let _ = self.require_zero("is_eq_zero", is_eq.expr().mul_expr(diff));
        let one = Expression::Constant(Fp { val: 1 });
        let diff2 = lhs.sub_expr(rhs);
        let _ = self.require_zero(
            "is_eq_inverse",
            diff2.mul_expr(diff_inv.expr()).sub_expr(one.sub_expr(is_eq.expr())),
        );
        Ok((is_eq, diff_inv))
    }
}

/// The tree `assert_bit` registers: `e * (e - 1)`.
pub open spec fn bit_constraint_of(e: Expression) -> Expression {
    Expression::Product(Box::new(e), Box::new(sub_of(e, Expression::Constant(Fp { val: 1 }))))
}

/// The query `assert_ux` registers for a given limb width: a range-table
/// query for widths 5 and 16, and the AND-table query `e & 255 == e` for
/// width 8.
pub open spec fn is_range_query(q: LookupQuery, c_bits: int, e: Expression) -> bool {
    if c_bits == 5 {
        q.rom_type == ROMType::U5 && q.args@ == seq![e]
    } else if c_bits == 16 {
        q.rom_type == ROMType::U16 && q.args@ == seq![e]
    } else {
        q.rom_type == ROMType::And && q.args@ == seq![
            e,
            e,
            Expression::Constant(Fp { val: 255 }),
        ]
    }
}

/// The query `lookup_and_byte` registers.
pub open spec fn is_and_query(q: LookupQuery, res: Expression, a: Expression, b: Expression) -> bool {
    q.rom_type == ROMType::And && q.args@ == seq![res, a, b]
}

/// The query `lookup_ltu_limb8` registers.
pub open spec fn is_ltu_query(q: LookupQuery, res: Expression, a: Expression, b: Expression) -> bool {
    q.rom_type == ROMType::Ltu && q.args@ == seq![res, a, b]
}

/// The upper bound a range query of the given width enforces.
pub open spec fn range_bound(c_bits: int) -> int {
    if c_bits == 5 {
        32
    } else if c_bits == 8 {
        256
    } else {
        0x10000
    }
}

/// A range query is satisfied exactly when its expression's value lies under
/// the width's bound.
pub proof fn lemma_range_query_sat(
    q: LookupQuery,
    c_bits: int,
    e: Expression,
    wit: Seq<Fp>,
    chal: Seq<Fp>,
)
    requires
        c_bits == 5 || c_bits == 8 || c_bits == 16,
        is_range_query(q, c_bits, e),
    ensures
        lookup_sat(q.rom_type, lookup_args_eval(q.args@, wit, chal)) <==> 0 <= eval(e, wit, chal)
            < range_bound(c_bits),
{
    let vals = lookup_args_eval(q.args@, wit, chal);
    let v = eval(e, wit, chal);
    if c_bits == 5 {
        assert(vals =~= seq![v]);
    } else if c_bits == 16 {
        assert(vals =~= seq![v]);
    } else {
        let c255 = Expression::Constant(Fp { val: 255 });
        assert(eval(c255, wit, chal) == 255) by {
            vstd::arithmetic::div_mod::lemma_small_mod(255nat, crate::field::FIELD_MODULUS as nat);
        }
        assert(vals =~= seq![v, v, 255int]);
        assert(forall|b: u8| ((#[trigger] (b & 255u8)) == b)) by (bit_vector);
        if 0 <= v < 256 {
            assert((v as u8) as int == v);
            assert(((v as u8) & (255u8 as u8)) as int == v);
        }
        if lookup_sat(q.rom_type, vals) {
            assert(0 <= v < 256);
        }
    }
}

/// The first constraint `is_equal` registers: `is_eq * (lhs - rhs)`.
pub open spec fn is_equal_zero_constraint(is_eq: WitIn, lhs: Expression, rhs: Expression) -> Expression {
    Expression::Product(
        Box::new(Expression::WitIn(is_eq.id)),
        Box::new(sub_of(lhs, rhs)),
    )
}

/// The second constraint `is_equal` registers:
/// `(lhs - rhs) * diff_inv - (1 - is_eq)`.
pub open spec fn is_equal_inverse_constraint(
    is_eq: WitIn,
    diff_inv: WitIn,
    lhs: Expression,
    rhs: Expression,
) -> Expression {
    sub_of(
        Expression::Product(Box::new(sub_of(lhs, rhs)), Box::new(Expression::WitIn(diff_inv.id))),
        sub_of(Expression::Constant(Fp { val: 1 }), Expression::WitIn(is_eq.id)),
    )
}

} // verus!
