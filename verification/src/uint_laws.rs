//! Laws of the big-integer gadget: what an accepted witness row says about
//! the values the gadget's expressions take.

use vstd::prelude::*;

use vstd::arithmetic::div_mod::{
    lemma_add_mod_noop_right, lemma_fundamental_div_mod, lemma_mod_add_multiples_vanish,
    lemma_small_mod, lemma_sub_mod_noop,
};
use vstd::arithmetic::power::pow;

use crate::circuit_builder::{
    is_range_query, lookup_args_eval, lookup_sat, lemma_range_query_sat, range_bound,
    satisfied, ConstraintSystem,
};
use crate::expression::{all_canonical, eval, lemma_eval_in_range, lemma_eval_sub, sub_of, Expression};
use crate::field::{p, Fp, FIELD_MODULUS};
use crate::limbs::{
    carry_after, carry_run, conv_digits, conv_partial, lemma_carry_run_binary, lemma_chain_at,
    lemma_conv_partial_bound, lemma_limb_run_len, lemma_limb_run_ok, limb_run, limbs_value,
    pair_sums,
};
use crate::uint::{add_limb_expr, carry_adjust, carry_in_id, carry_out_id, conv_expr, mul_limb_expr};
use crate::expression::WitnessId;

verus! {

/// The value a carry-cell option contributes to a limb expression.
pub open spec fn opt_cell_eval(o: Option<WitnessId>, wit: Seq<Fp>, chal: Seq<Fp>) -> int {
    match o {
        Some(w) => eval(Expression::WitIn(w), wit, chal),
        None => 0,
    }
}

/// A limb expression of an addition evaluates to the modular combination
/// of its addends and carries.
pub proof fn lemma_eval_add_limb_expr(
    a: Expression,
    b: Expression,
    cin: Option<WitnessId>,
    cout: Option<WitnessId>,
    base: u64,
    wit: Seq<Fp>,
    chal: Seq<Fp>,
)
    requires
        base < FIELD_MODULUS,
    ensures
        eval(add_limb_expr(a, b, cin, cout, base), wit, chal) == (eval(a, wit, chal) + eval(
            b,
            wit,
            chal,
        ) + opt_cell_eval(cin, wit, chal) - opt_cell_eval(cout, wit, chal) * base) % p(),
{
    let ea = eval(a, wit, chal);
    let eb = eval(b, wit, chal);
    let ec = opt_cell_eval(cin, wit, chal);
    let eo = opt_cell_eval(cout, wit, chal);
    lemma_eval_in_range(a, wit, chal);
    lemma_eval_in_range(b, wit, chal);
    let s0 = Expression::Sum(Box::new(a), Box::new(b));
    assert(eval(s0, wit, chal) == (ea + eb) % p());
    let s1 = match cin {
        Some(w) => Expression::Sum(Box::new(s0), Box::new(Expression::WitIn(w))),
        None => s0,
    };
    assert(eval(s1, wit, chal) == (ea + eb + ec) % p()) by {
        match cin {
            Some(w) => {
                assert(eval(s1, wit, chal) == ((ea + eb) % p() + ec) % p());
                lemma_add_mod_noop_right(ec, ea + eb, p());
            },
            None => {
                lemma_eval_in_range(s0, wit, chal);
                lemma_small_mod(((ea + eb) % p()) as nat, FIELD_MODULUS as nat);
            },
        }
    }
    match cout {
        Some(w) => {
            let cell = Expression::WitIn(w);
            let cst = Expression::Constant(Fp { val: base });
            let prod = Expression::Product(Box::new(cell), Box::new(cst));
            assert(eval(cst, wit, chal) == base) by {
                lemma_small_mod(base as nat, FIELD_MODULUS as nat);
            }
            assert(eval(prod, wit, chal) == (eo * base) % p());
            lemma_eval_sub(s1, prod, wit, chal);
            assert(eval(add_limb_expr(a, b, cin, cout, base), wit, chal) == ((ea + eb + ec) % p()
                - (eo * base) % p()) % p());
            lemma_sub_mod_noop(ea + eb + ec, eo * base, p());
        },
        None => {
            assert(eo == 0);
        },
    }
}

/// Addition correctness, satisfying direction: when the addend limbs are
/// in range and the carry cells hold the true carry chain, every result
/// limb expression evaluates to the corresponding limb of the true sum,
/// each lies in `[0, 2^C)` so every appended range lookup is satisfied,
/// and the result limbs together with the top carry recover the exact sum
/// of the two values.
///
/// Without a top carry (`k == n - 1`) the law holds on the inputs whose
/// sum fits in `n` limbs; a sum that overflows the top limb has no
/// accepted witness in that mode, since the top limb's range lookup
/// cannot be met.
pub proof fn lemma_add_witness_evaluates(
    a_exprs: Seq<Expression>,
    b_exprs: Seq<Expression>,
    nw0: int,
    k: int,
    c_bits: int,
    limbs: Seq<Expression>,
    wit: Seq<Fp>,
    chal: Seq<Fp>,
)
    requires
        c_bits == 5 || c_bits == 8 || c_bits == 16,
        a_exprs.len() >= 1,
        b_exprs.len() == a_exprs.len(),
        limbs.len() == a_exprs.len(),
        k == a_exprs.len() - 1 || k == a_exprs.len(),
        0 <= nw0,
        nw0 + k <= wit.len(),
        wit.len() <= 65536,
        forall|i: int|
            0 <= i < limbs.len() ==> #[trigger] limbs[i] == add_limb_expr(
                a_exprs[i],
                b_exprs[i],
                carry_in_id(nw0, i),
                carry_out_id(nw0, i, k),
                range_bound(c_bits) as u64,
            ),
        forall|i: int|
            0 <= i < a_exprs.len() ==> 0 <= eval(#[trigger] a_exprs[i], wit, chal) < range_bound(
                c_bits,
            ),
        forall|i: int|
            0 <= i < b_exprs.len() ==> 0 <= eval(#[trigger] b_exprs[i], wit, chal) < range_bound(
                c_bits,
            ),
        forall|j: int|
            0 <= j < k ==> (#[trigger] wit[nw0 + j]).val == carry_after(
                add_digits(a_exprs, b_exprs, wit, chal),
                range_bound(c_bits),
                j,
            ),
        k == a_exprs.len() - 1 ==> carry_after(
            add_digits(a_exprs, b_exprs, wit, chal),
            range_bound(c_bits),
            a_exprs.len() - 1,
        ) == 0,
    ensures
        forall|i: int|
            0 <= i < limbs.len() ==> eval(#[trigger] limbs[i], wit, chal) == limb_run(
                add_digits(a_exprs, b_exprs, wit, chal),
                range_bound(c_bits),
                0,
            )[i],
        forall|i: int|
            0 <= i < limbs.len() ==> 0 <= eval(#[trigger] limbs[i], wit, chal) < range_bound(
                c_bits,
            ),
        forall|j: int| 0 <= j < k ==> 0 <= (#[trigger] wit[nw0 + j]).val <= 1,
{
    let base = range_bound(c_bits);
    let n = a_exprs.len() as int;
    let d = add_digits(a_exprs, b_exprs, wit, chal);
    assert(d.len() == n);
    assert(forall|i: int| 0 <= i < n ==> 0 <= #[trigger] d[i] <= 2 * base - 2);
    lemma_limb_run_len(d, base, 0);
    lemma_limb_run_ok(d, base, 0);
    assert forall|j: int| 0 <= j < n implies 0 <= #[trigger] carry_after(d, base, j) <= 1 by {
        assert(forall|i: int|
            0 <= i < d.take(j + 1).len() ==> 0 <= #[trigger] d.take(j + 1)[i] <= 2 * base - 2);
        lemma_carry_run_binary(d.take(j + 1), base, 0);
    }
    assert forall|i: int| 0 <= i < n implies eval(#[trigger] limbs[i], wit, chal) == limb_run(
        d,
        base,
        0,
    )[i] && 0 <= eval(limbs[i], wit, chal) < base by {
        lemma_eval_add_limb_expr(
            a_exprs[i],
            b_exprs[i],
            carry_in_id(nw0, i),
            carry_out_id(nw0, i, k),
            base as u64,
            wit,
            chal,
        );
        let cin = opt_cell_eval(carry_in_id(nw0, i), wit, chal);
        let cout = opt_cell_eval(carry_out_id(nw0, i, k), wit, chal);
        lemma_chain_at(d, base, i);
        if i > 0 {
            assert(cin == wit[nw0 + i - 1].val as int % p()) by {
                assert(nw0 + i - 1 < wit.len());
            }
            assert(wit[nw0 + (i - 1)].val == carry_after(d, base, i - 1));
            assert(0 <= carry_after(d, base, i - 1) <= 1);
            lemma_small_mod(wit[nw0 + i - 1].val as nat, FIELD_MODULUS as nat);
            assert(cin == carry_after(d, base, i - 1));
        }
        if i < k {
            assert(cout == wit[nw0 + i].val as int % p());
            lemma_small_mod(wit[nw0 + i].val as nat, FIELD_MODULUS as nat);
            assert(cout == carry_after(d, base, i));
        } else {
            assert(cout == 0);
            assert(carry_after(d, base, i) == 0);
        }
        let cprev: int = if i > 0 {
            carry_after(d, base, i - 1)
        } else {
            0
        };
        lemma_fundamental_div_mod(d[i] + cprev, base);
        assert(d[i] + cprev == base * carry_after(d, base, i) + limb_run(d, base, 0)[i]);
        let raw = eval(a_exprs[i], wit, chal) + eval(b_exprs[i], wit, chal) + cin - cout * base;
        assert(raw == limb_run(d, base, 0)[i]);
        assert(0 <= raw < base);
        lemma_small_mod(raw as nat, FIELD_MODULUS as nat);
    }
}

/// The values an expression vector takes on a witness row.
pub open spec fn eval_all(exprs: Seq<Expression>, wit: Seq<Fp>, chal: Seq<Fp>) -> Seq<int> {
    Seq::new(exprs.len(), |i: int| eval(exprs[i], wit, chal))
}

/// Addition correctness at the value level: under the hypotheses of
/// `lemma_add_witness_evaluates`, the value denoted by the result limbs,
/// plus the top carry at the weight above the top limb, is exactly the
/// sum of the values denoted by the addends; and that top carry is set
/// exactly when the sum exceeds the representable range.
pub proof fn lemma_add_value(
    a_exprs: Seq<Expression>,
    b_exprs: Seq<Expression>,
    nw0: int,
    k: int,
    c_bits: int,
    limbs: Seq<Expression>,
    wit: Seq<Fp>,
    chal: Seq<Fp>,
)
    requires
        c_bits == 5 || c_bits == 8 || c_bits == 16,
        a_exprs.len() >= 1,
        b_exprs.len() == a_exprs.len(),
        limbs.len() == a_exprs.len(),
        k == a_exprs.len() - 1 || k == a_exprs.len(),
        0 <= nw0,
        nw0 + k <= wit.len(),
        wit.len() <= 65536,
        forall|i: int|
            0 <= i < limbs.len() ==> #[trigger] limbs[i] == add_limb_expr(
                a_exprs[i],
                b_exprs[i],
                carry_in_id(nw0, i),
                carry_out_id(nw0, i, k),
                range_bound(c_bits) as u64,
            ),
        forall|i: int|
            0 <= i < a_exprs.len() ==> 0 <= eval(#[trigger] a_exprs[i], wit, chal) < range_bound(
                c_bits,
            ),
        forall|i: int|
            0 <= i < b_exprs.len() ==> 0 <= eval(#[trigger] b_exprs[i], wit, chal) < range_bound(
                c_bits,
            ),
        forall|j: int|
            0 <= j < k ==> (#[trigger] wit[nw0 + j]).val == carry_after(
                add_digits(a_exprs, b_exprs, wit, chal),
                range_bound(c_bits),
                j,
            ),
        k == a_exprs.len() - 1 ==> carry_after(
            add_digits(a_exprs, b_exprs, wit, chal),
            range_bound(c_bits),
            a_exprs.len() - 1,
        ) == 0,
    ensures
        ({
            let base = range_bound(c_bits);
            let n = a_exprs.len() as int;
            let top = carry_after(add_digits(a_exprs, b_exprs, wit, chal), base, n - 1);
            &&& limbs_value(eval_all(limbs, wit, chal), base) + top * pow(base, n as nat)
                == limbs_value(eval_all(a_exprs, wit, chal), base) + limbs_value(
                eval_all(b_exprs, wit, chal),
                base,
            )
            &&& top == (if limbs_value(eval_all(a_exprs, wit, chal), base) + limbs_value(
                eval_all(b_exprs, wit, chal),
                base,
            ) >= pow(base, n as nat) {
                1int
            } else {
                0int
            })
        }),
{
    let base = range_bound(c_bits);
    let n = a_exprs.len() as int;
    let d = add_digits(a_exprs, b_exprs, wit, chal);
    assert(d.len() == n);
    lemma_add_witness_evaluates(a_exprs, b_exprs, nw0, k, c_bits, limbs, wit, chal);
    lemma_limb_run_len(d, base, 0);
    assert(eval_all(limbs, wit, chal) =~= limb_run(d, base, 0));
    assert(d.take(n as int) =~= d);
    assert(carry_after(d, base, n - 1) == carry_run(d, base, 0));
    crate::limbs::lemma_carry_chain(d, base, 0);
    crate::limbs::lemma_pair_sums_value(
        eval_all(a_exprs, wit, chal),
        eval_all(b_exprs, wit, chal),
        base,
    );
    assert(d =~= crate::limbs::pair_sums(
        eval_all(a_exprs, wit, chal),
        eval_all(b_exprs, wit, chal),
    ));
    let top = carry_run(d, base, 0);
    assert(0 <= top <= 1) by {
        assert(forall|i: int| 0 <= i < d.len() ==> 0 <= #[trigger] d[i] <= 2 * base - 2);
        lemma_carry_run_binary(d, base, 0);
    }
    lemma_limb_run_ok(d, base, 0);
    crate::limbs::lemma_limbs_value_bound(limb_run(d, base, 0), base);
    vstd::arithmetic::power::lemma_pow_positive(base, n as nat);
    assert(pow(base, d.len()) == pow(base, n as nat));
    assert(limbs_value(limb_run(d, base, 0), base) + top * pow(base, n as nat) == limbs_value(
        d,
        base,
    ));
    assert(limbs_value(limb_run(d, base, 0), base) >= 0);
    if top == 1 {
        assert(top * pow(base, n as nat) == pow(base, n as nat)) by (nonlinear_arith)
            requires
                top == 1,
        ;
        assert(limbs_value(d, base) >= pow(base, n as nat));
    } else {
        assert(top * pow(base, n as nat) == 0) by (nonlinear_arith)
            requires
                top == 0,
        ;
    }
}

/// Addition correctness, catching direction in general: on a witness row
/// whose carry cells are bounded by any modest bound (the true chain is
/// binary, far below it) and whose appended range lookups are all
/// satisfied, the carry cells are forced to hold exactly the true carry
/// chain and the limb expressions the true sum limbs; without a top
/// carry the sum is forced not to overflow. Any bounded wrong carry or
/// limb assignment therefore violates some appended range lookup.
pub proof fn lemma_add_constraints_sound(
    a_exprs: Seq<Expression>,
    b_exprs: Seq<Expression>,
    nw0: int,
    k: int,
    c_bits: int,
    limbs: Seq<Expression>,
    wit: Seq<Fp>,
    chal: Seq<Fp>,
)
    requires
        c_bits == 5 || c_bits == 8 || c_bits == 16,
        a_exprs.len() >= 1,
        b_exprs.len() == a_exprs.len(),
        limbs.len() == a_exprs.len(),
        k == a_exprs.len() - 1 || k == a_exprs.len(),
        0 <= nw0,
        nw0 + k <= wit.len(),
        wit.len() <= 65536,
        forall|i: int|
            0 <= i < limbs.len() ==> #[trigger] limbs[i] == add_limb_expr(
                a_exprs[i],
                b_exprs[i],
                carry_in_id(nw0, i),
                carry_out_id(nw0, i, k),
                range_bound(c_bits) as u64,
            ),
        forall|i: int|
            0 <= i < a_exprs.len() ==> 0 <= eval(#[trigger] a_exprs[i], wit, chal) < range_bound(
                c_bits,
            ),
        forall|i: int|
            0 <= i < b_exprs.len() ==> 0 <= eval(#[trigger] b_exprs[i], wit, chal) < range_bound(
                c_bits,
            ),
        forall|j: int| 0 <= j < k ==> (#[trigger] wit[nw0 + j]).val <= 0x100000000,
        forall|i: int|
            0 <= i < limbs.len() ==> 0 <= eval(#[trigger] limbs[i], wit, chal) < range_bound(
                c_bits,
            ),
    ensures
        forall|j: int|
            0 <= j < k ==> (#[trigger] wit[nw0 + j]).val == carry_after(
                add_digits(a_exprs, b_exprs, wit, chal),
                range_bound(c_bits),
                j,
            ),
        forall|i: int|
            0 <= i < limbs.len() ==> eval(#[trigger] limbs[i], wit, chal) == limb_run(
                add_digits(a_exprs, b_exprs, wit, chal),
                range_bound(c_bits),
                0,
            )[i],
        k == a_exprs.len() - 1 ==> carry_after(
            add_digits(a_exprs, b_exprs, wit, chal),
            range_bound(c_bits),
            a_exprs.len() - 1,
        ) == 0,
{
    let n = a_exprs.len() as int;
    assert forall|i: int| 0 <= i < n implies eval(#[trigger] limbs[i], wit, chal) == limb_run(
        add_digits(a_exprs, b_exprs, wit, chal),
        range_bound(c_bits),
        0,
    )[i] by {
        lemma_add_sound_at(a_exprs, b_exprs, nw0, k, c_bits, limbs, wit, chal, i);
    }
    assert forall|j: int| 0 <= j < k implies (#[trigger] wit[nw0 + j]).val == carry_after(
        add_digits(a_exprs, b_exprs, wit, chal),
        range_bound(c_bits),
        j,
    ) by {
        lemma_add_sound_at(a_exprs, b_exprs, nw0, k, c_bits, limbs, wit, chal, j);
    }
    if k == n - 1 {
        lemma_add_sound_at(a_exprs, b_exprs, nw0, k, c_bits, limbs, wit, chal, n - 1);
    }
}

/// The inductive step of the addition catching direction: with every
/// lower carry already pinned, position `i`'s in-range value pins its
/// carry.
proof fn lemma_add_sound_at(
    a_exprs: Seq<Expression>,
    b_exprs: Seq<Expression>,
    nw0: int,
    k: int,
    c_bits: int,
    limbs: Seq<Expression>,
    wit: Seq<Fp>,
    chal: Seq<Fp>,
    i: int,
)
    requires
        c_bits == 5 || c_bits == 8 || c_bits == 16,
        a_exprs.len() >= 1,
        b_exprs.len() == a_exprs.len(),
        limbs.len() == a_exprs.len(),
        k == a_exprs.len() - 1 || k == a_exprs.len(),
        0 <= nw0,
        nw0 + k <= wit.len(),
        wit.len() <= 65536,
        0 <= i < a_exprs.len(),
        forall|t: int|
            0 <= t < limbs.len() ==> #[trigger] limbs[t] == add_limb_expr(
                a_exprs[t],
                b_exprs[t],
                carry_in_id(nw0, t),
                carry_out_id(nw0, t, k),
                range_bound(c_bits) as u64,
            ),
        forall|t: int|
            0 <= t < a_exprs.len() ==> 0 <= eval(#[trigger] a_exprs[t], wit, chal) < range_bound(
                c_bits,
            ),
        forall|t: int|
            0 <= t < b_exprs.len() ==> 0 <= eval(#[trigger] b_exprs[t], wit, chal) < range_bound(
                c_bits,
            ),
        forall|j: int| 0 <= j < k ==> (#[trigger] wit[nw0 + j]).val <= 0x100000000,
        forall|t: int|
            0 <= t < limbs.len() ==> 0 <= eval(#[trigger] limbs[t], wit, chal) < range_bound(
                c_bits,
            ),
    ensures
        eval(limbs[i], wit, chal) == limb_run(
            add_digits(a_exprs, b_exprs, wit, chal),
            range_bound(c_bits),
            0,
        )[i],
        i < k ==> wit[nw0 + i].val == carry_after(
            add_digits(a_exprs, b_exprs, wit, chal),
            range_bound(c_bits),
            i,
        ),
        i >= k ==> carry_after(add_digits(a_exprs, b_exprs, wit, chal), range_bound(c_bits), i)
            == 0,
    decreases i,
{
    let base = range_bound(c_bits);
    let d = add_digits(a_exprs, b_exprs, wit, chal);
    assert(d.len() == a_exprs.len());
    if i > 0 {
        lemma_add_sound_at(a_exprs, b_exprs, nw0, k, c_bits, limbs, wit, chal, i - 1);
    }
    lemma_eval_add_limb_expr(
        a_exprs[i],
        b_exprs[i],
        carry_in_id(nw0, i),
        carry_out_id(nw0, i, k),
        base as u64,
        wit,
        chal,
    );
    let cin = opt_cell_eval(carry_in_id(nw0, i), wit, chal);
    let cout = opt_cell_eval(carry_out_id(nw0, i, k), wit, chal);
    lemma_chain_at(d, base, i);
    if i > 0 {
        assert(wit[nw0 + (i - 1)].val == carry_after(d, base, i - 1));
        assert(wit[nw0 + (i - 1)].val <= 0x100000000);
        assert(cin == wit[nw0 + i - 1].val as int % p());
        lemma_small_mod(wit[nw0 + i - 1].val as nat, FIELD_MODULUS as nat);
        assert(cin == carry_after(d, base, i - 1));
    }
    let cprev: int = if i > 0 {
        carry_after(d, base, i - 1)
    } else {
        0
    };
    assert(cin == cprev);
    if i < k {
        assert(wit[nw0 + i].val <= 0x100000000);
        assert(cout == wit[nw0 + i].val as int % p());
        lemma_small_mod(wit[nw0 + i].val as nat, FIELD_MODULUS as nat);
        assert(cout == wit[nw0 + i].val);
    } else {
        assert(cout == 0);
    }
    let resid = eval(limbs[i], wit, chal);
    assert(resid == (d[i] + cin - cout * base) % p());
    let bound = 0x100000000 * base + 0x100000000 + 2 * base;
    assert(cout * base <= 0x100000000 * base && bound < p() / 2) by (nonlinear_arith)
        requires
            0 <= cout <= 0x100000000,
            2 <= base <= 65536,
            bound == 0x100000000 * base + 0x100000000 + 2 * base,
            p() == 0xffffffff00000001,
    ;
    lemma_pinned_digit(d[i], cin, cout, resid, base, bound);
    vstd::arithmetic::div_mod::lemma_fundamental_div_mod(d[i] + cprev, base);
    assert(carry_after(d, base, i) == cout);
    assert(limb_run(d, base, 0)[i] == resid);
}

/// The raw digit sums of an addition, read off the witness row.
pub open spec fn add_digits(
    a_exprs: Seq<Expression>,
    b_exprs: Seq<Expression>,
    wit: Seq<Fp>,
    chal: Seq<Fp>,
) -> Seq<int> {
    pair_sums(
        Seq::new(a_exprs.len(), |i: int| eval(a_exprs[i], wit, chal)),
        Seq::new(b_exprs.len(), |i: int| eval(b_exprs[i], wit, chal)),
    )
}

/// Addition correctness, catching direction: binary carry cells that do
/// not hold the true carry chain drive some result limb out of `[0, 2^C)`,
/// so at least one appended range lookup fails.
pub proof fn lemma_add_wrong_carries_caught(
    a_exprs: Seq<Expression>,
    b_exprs: Seq<Expression>,
    nw0: int,
    k: int,
    c_bits: int,
    limbs: Seq<Expression>,
    wit: Seq<Fp>,
    chal: Seq<Fp>,
)
    requires
        c_bits == 5 || c_bits == 8 || c_bits == 16,
        a_exprs.len() >= 1,
        b_exprs.len() == a_exprs.len(),
        limbs.len() == a_exprs.len(),
        k == a_exprs.len() - 1 || k == a_exprs.len(),
        0 <= nw0,
        nw0 + k <= wit.len(),
        wit.len() <= 65536,
        forall|i: int|
            0 <= i < limbs.len() ==> #[trigger] limbs[i] == add_limb_expr(
                a_exprs[i],
                b_exprs[i],
                carry_in_id(nw0, i),
                carry_out_id(nw0, i, k),
                range_bound(c_bits) as u64,
            ),
        forall|i: int|
            0 <= i < a_exprs.len() ==> 0 <= eval(#[trigger] a_exprs[i], wit, chal) < range_bound(
                c_bits,
            ),
        forall|i: int|
            0 <= i < b_exprs.len() ==> 0 <= eval(#[trigger] b_exprs[i], wit, chal) < range_bound(
                c_bits,
            ),
        forall|j: int| 0 <= j < k ==> (#[trigger] wit[nw0 + j]).val <= 1,
        exists|j: int|
            0 <= j < k && (#[trigger] wit[nw0 + j]).val != carry_after(
                add_digits(a_exprs, b_exprs, wit, chal),
                range_bound(c_bits),
                j,
            ),
    ensures
        exists|i: int|
            0 <= i < limbs.len() && !(0 <= eval(#[trigger] limbs[i], wit, chal) < range_bound(
                c_bits,
            )),
{
    let base = range_bound(c_bits);
    let n = a_exprs.len() as int;
    let d = add_digits(a_exprs, b_exprs, wit, chal);
    let j0 = least_wrong_carry(d, base, wit, nw0, k);
    assert(0 <= j0 < k && wit[nw0 + j0].val != carry_after(d, base, j0) && forall|j: int|
        0 <= j < j0 ==> (#[trigger] wit[nw0 + j]).val == carry_after(d, base, j)) by {
        lemma_least_wrong_carry(d, base, wit, nw0, k);
    }
    lemma_eval_add_limb_expr(
        a_exprs[j0],
        b_exprs[j0],
        carry_in_id(nw0, j0),
        carry_out_id(nw0, j0, k),
        base as u64,
        wit,
        chal,
    );
    let cin = opt_cell_eval(carry_in_id(nw0, j0), wit, chal);
    let cout = opt_cell_eval(carry_out_id(nw0, j0, k), wit, chal);
    assert(cout == wit[nw0 + j0].val as int % p());
    lemma_small_mod(wit[nw0 + j0].val as nat, FIELD_MODULUS as nat);
    if j0 > 0 {
        assert(cin == wit[nw0 + j0 - 1].val as int % p());
        assert(wit[nw0 + (j0 - 1)].val == carry_after(d, base, j0 - 1));
        assert(wit[nw0 + (j0 - 1)].val <= 1);
        lemma_small_mod(wit[nw0 + j0 - 1].val as nat, FIELD_MODULUS as nat);
        assert(cin == carry_after(d, base, j0 - 1));
    }
    let cprev: int = if j0 > 0 {
        carry_after(d, base, j0 - 1)
    } else {
        0
    };
    let tc = carry_after(d, base, j0);
    lemma_chain_at(d, base, j0);
    lemma_limb_run_len(d, base, 0);
    lemma_limb_run_ok(d, base, 0);
    lemma_fundamental_div_mod(d[j0] + cprev, base);
    let out = limb_run(d, base, 0)[j0];
    assert(d[j0] + cprev == base * tc + out);
    assert(0 <= tc <= 1) by {
        assert(forall|i: int|
            0 <= i < d.take(j0 + 1).len() ==> 0 <= #[trigger] d.take(j0 + 1)[i] <= 2 * base - 2);
        lemma_carry_run_binary(d.take(j0 + 1), base, 0);
    }
    let raw = eval(a_exprs[j0], wit, chal) + eval(b_exprs[j0], wit, chal) + cin - cout * base;
    assert(eval(limbs[j0], wit, chal) == raw % p());
    if tc == 1 && cout == 0 {
        assert(raw == base + out);
        lemma_small_mod(raw as nat, FIELD_MODULUS as nat);
        assert(eval(limbs[j0], wit, chal) >= base);
    } else {
        assert(tc == 0 && cout == 1);
        assert(d[j0] == eval(a_exprs[j0], wit, chal) + eval(b_exprs[j0], wit, chal));
        assert(cout * base == base) by (nonlinear_arith)
            requires
                cout == 1,
        ;
        assert(raw == d[j0] + cprev - base);
        assert(raw == out - base);
        assert(-p() < raw < 0);
        lemma_mod_add_multiples_vanish(raw, p());
        lemma_small_mod((raw + p()) as nat, FIELD_MODULUS as nat);
        assert(eval(limbs[j0], wit, chal) == raw + p());
        assert(eval(limbs[j0], wit, chal) >= p() - base);
    }
    assert(!(0 <= eval(limbs[j0], wit, chal) < base));
}

/// A carry-adjusted digit expression evaluates to the modular combination
/// of the digit and its carries.
pub proof fn lemma_eval_carry_adjust(
    e: Expression,
    cin: Option<WitnessId>,
    cout: Option<WitnessId>,
    base: u64,
    wit: Seq<Fp>,
    chal: Seq<Fp>,
)
    requires
        base < FIELD_MODULUS,
    ensures
        eval(carry_adjust(e, cin, cout, base), wit, chal) == (eval(e, wit, chal) + opt_cell_eval(
            cin,
            wit,
            chal,
        ) - opt_cell_eval(cout, wit, chal) * base) % p(),
{
    let ev = eval(e, wit, chal);
    let ec = opt_cell_eval(cin, wit, chal);
    let eo = opt_cell_eval(cout, wit, chal);
    lemma_eval_in_range(e, wit, chal);
    let s1 = match cin {
        Some(w) => Expression::Sum(Box::new(e), Box::new(Expression::WitIn(w))),
        None => e,
    };
    assert(eval(s1, wit, chal) == (ev + ec) % p()) by {
        match cin {
            Some(w) => {},
            None => {
                lemma_small_mod(ev as nat, FIELD_MODULUS as nat);
            },
        }
    }
    match cout {
        Some(w) => {
            let cell = Expression::WitIn(w);
            let cst = Expression::Constant(Fp { val: base });
            let prod = Expression::Product(Box::new(cell), Box::new(cst));
            assert(eval(cst, wit, chal) == base) by {
                lemma_small_mod(base as nat, FIELD_MODULUS as nat);
            }
            assert(eval(prod, wit, chal) == (eo * base) % p());
            lemma_eval_sub(s1, prod, wit, chal);
            lemma_sub_mod_noop(ev + ec, eo * base, p());
        },
        None => {
            assert(eo == 0);
        },
    }
}

/// A convolution expression evaluates to the convolution of its operands'
/// values, modulo the field modulus.
pub proof fn lemma_eval_conv_expr(
    a_exprs: Seq<Expression>,
    b_exprs: Seq<Expression>,
    idx: int,
    j: int,
    wit: Seq<Fp>,
    chal: Seq<Fp>,
)
    requires
        0 <= j <= idx,
        idx < a_exprs.len(),
        a_exprs.len() == b_exprs.len(),
    ensures
        eval(conv_expr(a_exprs, b_exprs, idx, j), wit, chal) == conv_partial(
            eval_all(a_exprs, wit, chal),
            eval_all(b_exprs, wit, chal),
            idx,
            j,
        ) % p(),
    decreases j,
{
    let av = eval_all(a_exprs, wit, chal);
    let bv = eval_all(b_exprs, wit, chal);
    if j <= 0 {
        assert(eval(conv_expr(a_exprs, b_exprs, idx, j), wit, chal) == (av[0] * bv[idx]) % p());
    } else {
        lemma_eval_conv_expr(a_exprs, b_exprs, idx, j - 1, wit, chal);
        let prev = conv_partial(av, bv, idx, j - 1);
        let term = av[j] * bv[idx - j];
        assert(av[j] == eval(a_exprs[j], wit, chal));
        assert(bv[idx - j] == eval(b_exprs[idx - j], wit, chal));
        let prod = Expression::Product(Box::new(a_exprs[j]), Box::new(b_exprs[idx - j]));
        assert(eval(prod, wit, chal) == term % p());
        assert(eval(conv_expr(a_exprs, b_exprs, idx, j), wit, chal) == (prev % p() + term % p())
            % p());
        vstd::arithmetic::div_mod::lemma_add_mod_noop(prev, term, p());
    }
}

/// Multiplication correctness, satisfying direction: when the operand
/// limbs are in range, the result cells hold the limbs of the true
/// product's carry run, and the carry cells hold its carry chain —
/// chains whose carries span several bits included — every result
/// constraint evaluates to zero and every result-cell range lookup is
/// satisfied. Without a top carry the law holds on inputs whose truncated
/// convolution run leaves no final carry.
pub proof fn lemma_mul_witness_evaluates(
    a_exprs: Seq<Expression>,
    b_exprs: Seq<Expression>,
    c0: int,
    cw0: int,
    k: int,
    c_bits: int,
    wit: Seq<Fp>,
    chal: Seq<Fp>,
)
    requires
        c_bits == 5 || c_bits == 8 || c_bits == 16,
        1 <= a_exprs.len() <= 13110,
        b_exprs.len() == a_exprs.len(),
        k == a_exprs.len() - 1 || k == a_exprs.len(),
        0 <= c0,
        c0 + a_exprs.len() <= wit.len(),
        0 <= cw0,
        cw0 + k <= wit.len(),
        wit.len() <= 65536,
        forall|i: int|
            0 <= i < a_exprs.len() ==> 0 <= eval(#[trigger] a_exprs[i], wit, chal) < range_bound(
                c_bits,
            ),
        forall|i: int|
            0 <= i < b_exprs.len() ==> 0 <= eval(#[trigger] b_exprs[i], wit, chal) < range_bound(
                c_bits,
            ),
        forall|i: int|
            0 <= i < a_exprs.len() ==> (#[trigger] wit[c0 + i]).val == limb_run(
                mul_digits(a_exprs, b_exprs, wit, chal),
                range_bound(c_bits),
                0,
            )[i],
        forall|j: int|
            0 <= j < k ==> (#[trigger] wit[cw0 + j]).val == carry_after(
                mul_digits(a_exprs, b_exprs, wit, chal),
                range_bound(c_bits),
                j,
            ),
        k == a_exprs.len() - 1 ==> carry_after(
            mul_digits(a_exprs, b_exprs, wit, chal),
            range_bound(c_bits),
            a_exprs.len() - 1,
        ) == 0,
    ensures
        forall|i: int|
            0 <= i < a_exprs.len() ==> eval(
                #[trigger] sub_of(
                    Expression::WitIn((c0 + i) as WitnessId),
                    mul_limb_expr(
                        a_exprs,
                        b_exprs,
                        i,
                        carry_in_id(cw0, i),
                        carry_out_id(cw0, i, k),
                        range_bound(c_bits) as u64,
                    ),
                ),
                wit,
                chal,
            ) == 0,
        forall|i: int|
            0 <= i < a_exprs.len() ==> 0 <= (#[trigger] wit[c0 + i]).val < range_bound(c_bits),
{
    let base = range_bound(c_bits);
    let n = a_exprs.len() as int;
    let d = mul_digits(a_exprs, b_exprs, wit, chal);
    let av = eval_all(a_exprs, wit, chal);
    let bv = eval_all(b_exprs, wit, chal);
    let q = n * (base - 1);
    assert(d.len() == n);
    let sq = (base - 1) * (base - 1);
    assert forall|i: int| 0 <= i < n implies 0 <= #[trigger] d[i] <= q * (base - 1) by {
        lemma_conv_partial_bound(av, bv, base, i, i);
        assert((i + 1) * sq <= n * sq) by (nonlinear_arith)
            requires
                i + 1 <= n,
                sq >= 0,
        ;
        assert(n * sq == q * (base - 1)) by (nonlinear_arith)
            requires
                sq == (base - 1) * (base - 1),
                q == n * (base - 1),
        ;
    }
    assert(0 <= q < p() && q * (base - 1) < p()) by (nonlinear_arith)
        requires
            q == n * (base - 1),
            1 <= n <= 13110,
            2 <= base <= 65536,
            p() == 0xffffffff00000001,
    ;
    assert forall|j: int| 0 <= j < n implies 0 <= #[trigger] carry_after(d, base, j) <= q by {
        assert(forall|i: int|
            0 <= i < d.take(j + 1).len() ==> 0 <= #[trigger] d.take(j + 1)[i] <= q * (base - 1));
        assert(q >= 0) by (nonlinear_arith)
            requires
                q == n * (base - 1),
                n >= 1,
                base >= 2,
        ;
        crate::limbs::lemma_carry_run_bounded(d.take(j + 1), base, 0, q);
    }
    lemma_limb_run_len(d, base, 0);
    lemma_limb_run_ok(d, base, 0);
    assert forall|i: int| 0 <= i < n implies eval(
        #[trigger] sub_of(
            Expression::WitIn((c0 + i) as WitnessId),
            mul_limb_expr(
                a_exprs,
                b_exprs,
                i,
                carry_in_id(cw0, i),
                carry_out_id(cw0, i, k),
                base as u64,
            ),
        ),
        wit,
        chal,
    ) == 0 && 0 <= wit[c0 + i].val < base by {
        lemma_eval_conv_expr(a_exprs, b_exprs, i, i, wit, chal);
        lemma_eval_carry_adjust(
            conv_expr(a_exprs, b_exprs, i, i),
            carry_in_id(cw0, i),
            carry_out_id(cw0, i, k),
            base as u64,
            wit,
            chal,
        );
        let cin = opt_cell_eval(carry_in_id(cw0, i), wit, chal);
        let cout = opt_cell_eval(carry_out_id(cw0, i, k), wit, chal);
        lemma_chain_at(d, base, i);
        if i > 0 {
            assert(wit[cw0 + (i - 1)].val == carry_after(d, base, i - 1));
            assert(cin == wit[cw0 + i - 1].val as int % p());
            lemma_small_mod(wit[cw0 + i - 1].val as nat, FIELD_MODULUS as nat);
            assert(cin == carry_after(d, base, i - 1));
        }
        if i < k {
            assert(cout == wit[cw0 + i].val as int % p());
            lemma_small_mod(wit[cw0 + i].val as nat, FIELD_MODULUS as nat);
            assert(cout == carry_after(d, base, i));
        } else {
            assert(cout == 0);
            assert(carry_after(d, base, i) == 0);
        }
        let cprev: int = if i > 0 {
            carry_after(d, base, i - 1)
        } else {
            0
        };
        lemma_fundamental_div_mod(d[i] + cprev, base);
        assert(d[i] + cprev == base * carry_after(d, base, i) + limb_run(d, base, 0)[i]);
        // The digit expression reduces modulo the modulus only formally:
        // its raw value already lies in the limb range.
        let dmod = conv_partial(av, bv, i, i) % p();
        lemma_small_mod(d[i] as nat, FIELD_MODULUS as nat);
        assert(dmod == d[i]);
        let raw = d[i] + cin - cout * base;
        assert(cin == cprev);
        assert(cout * base == base * carry_after(d, base, i)) by (nonlinear_arith)
            requires
                cout == carry_after(d, base, i),
        ;
        assert(raw == limb_run(d, base, 0)[i]);
        lemma_small_mod(raw as nat, FIELD_MODULUS as nat);
        assert(eval(
            mul_limb_expr(
                a_exprs,
                b_exprs,
                i,
                carry_in_id(cw0, i),
                carry_out_id(cw0, i, k),
                base as u64,
            ),
            wit,
            chal,
        ) == (dmod + cin - cout * base) % p());
        assert((dmod + cin - cout * base) % p() == raw);
        lemma_eval_sub(
            Expression::WitIn((c0 + i) as WitnessId),
            mul_limb_expr(
                a_exprs,
                b_exprs,
                i,
                carry_in_id(cw0, i),
                carry_out_id(cw0, i, k),
                base as u64,
            ),
            wit,
            chal,
        );
        assert(wit[c0 + i].val == raw);
        assert(eval(Expression::WitIn((c0 + i) as WitnessId), wit, chal) == wit[c0
            + i].val as int % p());
        lemma_small_mod(wit[c0 + i].val as nat, FIELD_MODULUS as nat);
        lemma_small_mod(0nat, FIELD_MODULUS as nat);
    }
}

/// Multiplication correctness at the value level: under the hypotheses of
/// `lemma_mul_witness_evaluates`, the value denoted by the result cells is
/// exactly the product of the operands' denoted values, reduced modulo
/// the representable range.
pub proof fn lemma_mul_cells_value(
    a_exprs: Seq<Expression>,
    b_exprs: Seq<Expression>,
    c0: int,
    wit: Seq<Fp>,
    chal: Seq<Fp>,
    c_bits: int,
)
    requires
        c_bits == 5 || c_bits == 8 || c_bits == 16,
        1 <= a_exprs.len() <= 13110,
        b_exprs.len() == a_exprs.len(),
        0 <= c0,
        c0 + a_exprs.len() <= wit.len(),
        forall|i: int|
            0 <= i < a_exprs.len() ==> 0 <= eval(#[trigger] a_exprs[i], wit, chal) < range_bound(
                c_bits,
            ),
        forall|i: int|
            0 <= i < b_exprs.len() ==> 0 <= eval(#[trigger] b_exprs[i], wit, chal) < range_bound(
                c_bits,
            ),
        forall|i: int|
            0 <= i < a_exprs.len() ==> (#[trigger] wit[c0 + i]).val == limb_run(
                mul_digits(a_exprs, b_exprs, wit, chal),
                range_bound(c_bits),
                0,
            )[i],
    ensures
        limbs_value(
            Seq::new(a_exprs.len(), |i: int| wit[c0 + i].val as int),
            range_bound(c_bits),
        ) == (limbs_value(eval_all(a_exprs, wit, chal), range_bound(c_bits)) * limbs_value(
            eval_all(b_exprs, wit, chal),
            range_bound(c_bits),
        )) % pow(range_bound(c_bits), a_exprs.len()),
{
    let base = range_bound(c_bits);
    let n = a_exprs.len() as int;
    let av = eval_all(a_exprs, wit, chal);
    let bv = eval_all(b_exprs, wit, chal);
    crate::limbs::lemma_mul_value(av, bv, base);
    crate::limbs::lemma_limb_run_len(crate::limbs::conv_digits(av, bv, n), base, 0);
    assert(mul_digits(a_exprs, b_exprs, wit, chal) =~= crate::limbs::conv_digits(av, bv, n));
    assert(Seq::new(a_exprs.len(), |i: int| wit[c0 + i].val as int) =~= limb_run(
        crate::limbs::conv_digits(av, bv, n),
        base,
        0,
    ));
}

/// A reduced residue in limb range pins a bounded raw combination
/// exactly: the carry out and the limb must be the division and the
/// remainder of the incoming digit, because the modular reduction cannot
/// move a small value into the limb range from anywhere else.
proof fn lemma_pinned_digit(dval: int, cin: int, cout: int, resid: int, base: int, bound: int)
    requires
        2 <= base <= 65536,
        0 <= dval,
        0 <= cin,
        0 <= cout,
        dval + cin <= bound,
        cout * base <= bound,
        bound < p() / 2,
        resid == (dval + cin - cout * base) % p(),
        0 <= resid < base,
    ensures
        cout == (dval + cin) / base,
        resid == (dval + cin) % base,
{
    let raw = dval + cin - cout * base;
    assert(-bound <= raw <= bound);
    if raw < 0 {
        lemma_mod_add_multiples_vanish(raw, p());
        lemma_small_mod((raw + p()) as nat, FIELD_MODULUS as nat);
        assert(resid == raw + p());
        assert(resid >= p() - bound);
        assert(false);
    }
    lemma_small_mod(raw as nat, FIELD_MODULUS as nat);
    assert(resid == raw);
    assert(dval + cin == cout * base + resid);
    assert(cout * base == base * cout) by (nonlinear_arith);
    vstd::arithmetic::div_mod::lemma_fundamental_div_mod_converse(
        dval + cin,
        base,
        cout,
        resid,
    );
}

/// Multiplication correctness, catching direction: on a witness row whose
/// result cells all lie in the limb range (what the appended range
/// lookups force) and whose carry cells are bounded by what the true
/// chain obeys, vanishing result constraints force the cells to hold
/// exactly the true product run — so any wrong carry or result-limb
/// assignment within those bounds violates at least one registered
/// constraint.
pub proof fn lemma_mul_constraints_sound(
    a_exprs: Seq<Expression>,
    b_exprs: Seq<Expression>,
    c0: int,
    cw0: int,
    k: int,
    c_bits: int,
    wit: Seq<Fp>,
    chal: Seq<Fp>,
)
    requires
        c_bits == 5 || c_bits == 8 || c_bits == 16,
        1 <= a_exprs.len() <= 13110,
        b_exprs.len() == a_exprs.len(),
        k == a_exprs.len() - 1 || k == a_exprs.len(),
        0 <= c0,
        c0 + a_exprs.len() <= wit.len(),
        0 <= cw0,
        cw0 + k <= wit.len(),
        wit.len() <= 65536,
        forall|i: int|
            0 <= i < a_exprs.len() ==> 0 <= eval(#[trigger] a_exprs[i], wit, chal) < range_bound(
                c_bits,
            ),
        forall|i: int|
            0 <= i < b_exprs.len() ==> 0 <= eval(#[trigger] b_exprs[i], wit, chal) < range_bound(
                c_bits,
            ),
        forall|i: int|
            0 <= i < a_exprs.len() ==> (#[trigger] wit[c0 + i]).val < range_bound(c_bits),
        forall|j: int|
            0 <= j < k ==> (#[trigger] wit[cw0 + j]).val <= a_exprs.len() * (range_bound(c_bits)
                - 1),
        forall|i: int|
            0 <= i < a_exprs.len() ==> eval(
                #[trigger] sub_of(
                    Expression::WitIn((c0 + i) as WitnessId),
                    mul_limb_expr(
                        a_exprs,
                        b_exprs,
                        i,
                        carry_in_id(cw0, i),
                        carry_out_id(cw0, i, k),
                        range_bound(c_bits) as u64,
                    ),
                ),
                wit,
                chal,
            ) == 0,
    ensures
        forall|i: int|
            0 <= i < a_exprs.len() ==> (#[trigger] wit[c0 + i]).val == limb_run(
                mul_digits(a_exprs, b_exprs, wit, chal),
                range_bound(c_bits),
                0,
            )[i],
        forall|j: int|
            0 <= j < k ==> (#[trigger] wit[cw0 + j]).val == carry_after(
                mul_digits(a_exprs, b_exprs, wit, chal),
                range_bound(c_bits),
                j,
            ),
        k == a_exprs.len() - 1 ==> carry_after(
            mul_digits(a_exprs, b_exprs, wit, chal),
            range_bound(c_bits),
            a_exprs.len() - 1,
        ) == 0,
{
    let n = a_exprs.len() as int;
    assert forall|i: int| 0 <= i < n implies (#[trigger] wit[c0 + i]).val == limb_run(
        mul_digits(a_exprs, b_exprs, wit, chal),
        range_bound(c_bits),
        0,
    )[i] && (i < k ==> wit[cw0 + i].val == carry_after(
        mul_digits(a_exprs, b_exprs, wit, chal),
        range_bound(c_bits),
        i,
    )) && (i >= k ==> carry_after(mul_digits(a_exprs, b_exprs, wit, chal), range_bound(c_bits), i)
        == 0) by {
        lemma_mul_sound_at(a_exprs, b_exprs, c0, cw0, k, c_bits, wit, chal, i);
    }
    assert forall|j: int| 0 <= j < k implies (#[trigger] wit[cw0 + j]).val == carry_after(
        mul_digits(a_exprs, b_exprs, wit, chal),
        range_bound(c_bits),
        j,
    ) by {
        lemma_mul_sound_at(a_exprs, b_exprs, c0, cw0, k, c_bits, wit, chal, j);
    }
    if k == n - 1 {
        lemma_mul_sound_at(a_exprs, b_exprs, c0, cw0, k, c_bits, wit, chal, n - 1);
    }
}

/// The inductive step of the catching direction: with every lower carry
/// already pinned, position `i`'s constraint pins its cell and carry.
proof fn lemma_mul_sound_at(
    a_exprs: Seq<Expression>,
    b_exprs: Seq<Expression>,
    c0: int,
    cw0: int,
    k: int,
    c_bits: int,
    wit: Seq<Fp>,
    chal: Seq<Fp>,
    i: int,
)
    requires
        c_bits == 5 || c_bits == 8 || c_bits == 16,
        1 <= a_exprs.len() <= 13110,
        b_exprs.len() == a_exprs.len(),
        k == a_exprs.len() - 1 || k == a_exprs.len(),
        0 <= c0,
        c0 + a_exprs.len() <= wit.len(),
        0 <= cw0,
        cw0 + k <= wit.len(),
        wit.len() <= 65536,
        0 <= i < a_exprs.len(),
        forall|t: int|
            0 <= t < a_exprs.len() ==> 0 <= eval(#[trigger] a_exprs[t], wit, chal) < range_bound(
                c_bits,
            ),
        forall|t: int|
            0 <= t < b_exprs.len() ==> 0 <= eval(#[trigger] b_exprs[t], wit, chal) < range_bound(
                c_bits,
            ),
        forall|t: int|
            0 <= t < a_exprs.len() ==> (#[trigger] wit[c0 + t]).val < range_bound(c_bits),
        forall|j: int|
            0 <= j < k ==> (#[trigger] wit[cw0 + j]).val <= a_exprs.len() * (range_bound(c_bits)
                - 1),
        forall|t: int|
            0 <= t < a_exprs.len() ==> eval(
                #[trigger] sub_of(
                    Expression::WitIn((c0 + t) as WitnessId),
                    mul_limb_expr(
                        a_exprs,
                        b_exprs,
                        t,
                        carry_in_id(cw0, t),
                        carry_out_id(cw0, t, k),
                        range_bound(c_bits) as u64,
                    ),
                ),
                wit,
                chal,
            ) == 0,
    ensures
        wit[c0 + i].val == limb_run(
            mul_digits(a_exprs, b_exprs, wit, chal),
            range_bound(c_bits),
            0,
        )[i],
        i < k ==> wit[cw0 + i].val == carry_after(
            mul_digits(a_exprs, b_exprs, wit, chal),
            range_bound(c_bits),
            i,
        ),
        i >= k ==> carry_after(mul_digits(a_exprs, b_exprs, wit, chal), range_bound(c_bits), i)
            == 0,
    decreases i,
{
    let base = range_bound(c_bits);
    let n = a_exprs.len() as int;
    let d = mul_digits(a_exprs, b_exprs, wit, chal);
    let av = eval_all(a_exprs, wit, chal);
    let bv = eval_all(b_exprs, wit, chal);
    let q = n * (base - 1);
    assert(d.len() == n);
    if i > 0 {
        lemma_mul_sound_at(a_exprs, b_exprs, c0, cw0, k, c_bits, wit, chal, i - 1);
    }
    lemma_conv_partial_bound(av, bv, base, i, i);
    let sq = (base - 1) * (base - 1);
    assert(d[i] == conv_partial(av, bv, i, i));
    assert((i + 1) * sq <= n * sq) by (nonlinear_arith)
        requires
            i + 1 <= n,
            sq >= 0,
    ;
    assert(n * sq == q * (base - 1)) by (nonlinear_arith)
        requires
            sq == (base - 1) * (base - 1),
            q == n * (base - 1),
    ;
    let bound = q * base + q;
    assert(0 <= q && q * (base - 1) + q == q * base && bound < p() / 2) by (nonlinear_arith)
        requires
            q == n * (base - 1),
            bound == q * base + q,
            1 <= n <= 13110,
            2 <= base <= 65536,
            p() == 0xffffffff00000001,
    ;
    // Evaluate the position's constraint.
    lemma_eval_conv_expr(a_exprs, b_exprs, i, i, wit, chal);
    lemma_eval_carry_adjust(
        conv_expr(a_exprs, b_exprs, i, i),
        carry_in_id(cw0, i),
        carry_out_id(cw0, i, k),
        base as u64,
        wit,
        chal,
    );
    let cin = opt_cell_eval(carry_in_id(cw0, i), wit, chal);
    let cout = opt_cell_eval(carry_out_id(cw0, i, k), wit, chal);
    lemma_chain_at(d, base, i);
    if i > 0 {
        assert(wit[cw0 + (i - 1)].val == carry_after(d, base, i - 1));
        assert(wit[cw0 + (i - 1)].val <= q);
        assert(cin == wit[cw0 + i - 1].val as int % p());
        lemma_small_mod(wit[cw0 + i - 1].val as nat, FIELD_MODULUS as nat);
        assert(cin == carry_after(d, base, i - 1));
    }
    let cprev: int = if i > 0 {
        carry_after(d, base, i - 1)
    } else {
        0
    };
    assert(cin == cprev);
    if i < k {
        assert(wit[cw0 + i].val <= q);
        assert(cout == wit[cw0 + i].val as int % p());
        lemma_small_mod(wit[cw0 + i].val as nat, FIELD_MODULUS as nat);
        assert(cout == wit[cw0 + i].val);
    } else {
        assert(cout == 0);
    }
    let dmod = conv_partial(av, bv, i, i) % p();
    lemma_small_mod(d[i] as nat, FIELD_MODULUS as nat);
    assert(dmod == d[i]);
    let ev_y = (d[i] + cin - cout * base) % p();
    assert(eval(
        mul_limb_expr(
            a_exprs,
            b_exprs,
            i,
            carry_in_id(cw0, i),
            carry_out_id(cw0, i, k),
            base as u64,
        ),
        wit,
        chal,
    ) == ev_y);
    // The vanishing difference pins the cell to the reduced combination.
    let cell = Expression::WitIn((c0 + i) as WitnessId);
    lemma_eval_sub(
        cell,
        mul_limb_expr(
            a_exprs,
            b_exprs,
            i,
            carry_in_id(cw0, i),
            carry_out_id(cw0, i, k),
            base as u64,
        ),
        wit,
        chal,
    );
    assert(eval(cell, wit, chal) == wit[c0 + i].val as int % p());
    lemma_small_mod(wit[c0 + i].val as nat, FIELD_MODULUS as nat);
    let cv = wit[c0 + i].val as int;
    assert((cv - ev_y) % p() == 0);
    lemma_eval_in_range(
        mul_limb_expr(
            a_exprs,
            b_exprs,
            i,
            carry_in_id(cw0, i),
            carry_out_id(cw0, i, k),
            base as u64,
        ),
        wit,
        chal,
    );
    assert(cv == ev_y) by {
        if cv >= ev_y {
            lemma_small_mod((cv - ev_y) as nat, FIELD_MODULUS as nat);
        } else {
            lemma_mod_add_multiples_vanish(cv - ev_y, p());
            lemma_small_mod((cv - ev_y + p()) as nat, FIELD_MODULUS as nat);
        }
    }
    assert(cout * base <= q * base) by (nonlinear_arith)
        requires
            0 <= cout <= q,
            base >= 2,
    ;
    lemma_pinned_digit(d[i], cin, cout, cv, base, bound);
    vstd::arithmetic::div_mod::lemma_fundamental_div_mod(d[i] + cprev, base);
    assert(carry_after(d, base, i) == cout);
    assert(limb_run(d, base, 0)[i] == cv);
}

/// The raw convolution digit sums of a multiplication, read off the
/// witness row.
pub open spec fn mul_digits(
    a_exprs: Seq<Expression>,
    b_exprs: Seq<Expression>,
    wit: Seq<Fp>,
    chal: Seq<Fp>,
) -> Seq<int> {
    conv_digits(
        eval_all(a_exprs, wit, chal),
        eval_all(b_exprs, wit, chal),
        a_exprs.len() as int,
    )
}

/// The first carry cell that disagrees with the true chain.
pub open spec fn least_wrong_carry(
    d: Seq<int>,
    base: int,
    wit: Seq<Fp>,
    nw0: int,
    k: int,
) -> int
    decreases k,
{
    if k <= 0 {
        0
    } else if exists|j: int|
        0 <= j < k - 1 && (#[trigger] wit[nw0 + j]).val != carry_after(d, base, j) {
        least_wrong_carry(d, base, wit, nw0, k - 1)
    } else {
        k - 1
    }
}

proof fn lemma_least_wrong_carry(d: Seq<int>, base: int, wit: Seq<Fp>, nw0: int, k: int)
    requires
        exists|j: int|
            0 <= j < k && (#[trigger] wit[nw0 + j]).val != carry_after(d, base, j),
    ensures
        ({
            let j0 = least_wrong_carry(d, base, wit, nw0, k);
            &&& 0 <= j0 < k
            &&& wit[nw0 + j0].val != carry_after(d, base, j0)
            &&& forall|j: int| 0 <= j < j0 ==> (#[trigger] wit[nw0 + j]).val == carry_after(
                d,
                base,
                j,
            )
        }),
    decreases k,
{
    if exists|j: int| 0 <= j < k - 1 && (#[trigger] wit[nw0 + j]).val != carry_after(d, base, j) {
        lemma_least_wrong_carry(d, base, wit, nw0, k - 1);
    }
}

/// The limbs a constant addend is split into denote the constant,
/// reduced into the representable range.
pub proof fn lemma_const_limbs_value(v: u64, c_bits: int, n: int)
    requires
        c_bits == 5 || c_bits == 8 || c_bits == 16,
        n >= 0,
    ensures
        limbs_value(
            Seq::new(n as nat, |i: int| crate::uint::const_limb_val(v, c_bits, i) as int),
            range_bound(c_bits),
        ) == v as int % pow(range_bound(c_bits), n as nat),
    decreases n,
{
    let base = range_bound(c_bits);
    let s = Seq::new(n as nat, |i: int| crate::uint::const_limb_val(v, c_bits, i) as int);
    crate::uint::lemma_range_bound_pow2(c_bits);
    vstd::arithmetic::power2::lemma_pow2_pos(c_bits as nat);
    if n == 0 {
        vstd::arithmetic::power::lemma_pow0(base);
        assert(s =~= Seq::<int>::empty());
        vstd::arithmetic::div_mod::lemma_mod_bound(v as int, 1);
    } else {
        // The first limb is the low remainder; the rest split the shifted
        // value.
        assert(s.first() == crate::uint::const_limb_val(v, c_bits, 0) as int);
        assert(vstd::arithmetic::power2::pow2((c_bits * 0) as nat) == 1) by {
            vstd::arithmetic::power2::lemma_pow2(0nat);
            vstd::arithmetic::power::lemma_pow0(2);
        }
        vstd::arithmetic::div_mod::lemma_mod_bound(v as int, base);
        assert(v as int / 1 == v as int) by {
            vstd::arithmetic::div_mod::lemma_div_by_multiple(v as int, 1);
        }
        assert(s.first() == v as int % base);
        let v1 = v as int / base;
        vstd::arithmetic::div_mod::lemma_div_pos_is_pos(v as int, base);
        // Each higher limb of v is the corresponding limb of v / base.
        assert forall|i: int| 0 <= i < n - 1 implies s.drop_first()[i]
            == ((v1 / (pow(base, i as nat))) % base) by {
            assert(s.drop_first()[i] == crate::uint::const_limb_val(v, c_bits, i + 1) as int);
            assert(vstd::arithmetic::power2::pow2((c_bits * (i + 1)) as nat) as int == base * pow(
                base,
                i as nat,
            )) by {
                vstd::arithmetic::power2::lemma_pow2((c_bits * (i + 1)) as nat);
                vstd::arithmetic::power::lemma_pow_multiplies(2, c_bits as nat, (i + 1) as nat);
                vstd::arithmetic::power2::lemma_pow2(c_bits as nat);
                assert(pow(2, (c_bits * (i + 1)) as nat) == pow(pow(2, c_bits as nat), (i
                    + 1) as nat)) by {
                    assert((c_bits * (i + 1)) as nat == c_bits as nat * (i + 1) as nat);
                }
                vstd::arithmetic::power::lemma_pow_adds(base, 1nat, i as nat);
                vstd::arithmetic::power::lemma_pow1(base);
            }
            vstd::arithmetic::power::lemma_pow_positive(base, i as nat);
            vstd::arithmetic::div_mod::lemma_div_denominator(v as int, base, pow(base, i as nat));
            assert(vstd::arithmetic::power2::pow2((c_bits * i) as nat) as int == pow(
                base,
                i as nat,
            )) by {
                vstd::arithmetic::power2::lemma_pow2((c_bits * i) as nat);
                vstd::arithmetic::power::lemma_pow_multiplies(2, c_bits as nat, i as nat);
                vstd::arithmetic::power2::lemma_pow2(c_bits as nat);
                assert((c_bits * i) as nat == c_bits as nat * i as nat);
            }
        }
        // Fold with the value of the shifted decomposition.
        lemma_const_value_shifted(v1, base, n - 1);
        assert(s.drop_first() =~= Seq::new(
            (n - 1) as nat,
            |i: int| (v1 / pow(base, i as nat)) % base,
        ));
        vstd::arithmetic::power::lemma_pow_positive(base, (n - 1) as nat);
        vstd::arithmetic::div_mod::lemma_breakdown(v as int, base, pow(base, (n - 1) as nat));
        assert(pow(base, n as nat) == base * pow(base, (n - 1) as nat)) by {
            vstd::arithmetic::power::lemma_pow_adds(base, 1nat, (n - 1) as nat);
            vstd::arithmetic::power::lemma_pow1(base);
        }
    }
}

/// The value of the base-power decomposition of a nonnegative integer is
/// its remainder below the top weight.
proof fn lemma_const_value_shifted(v: int, base: int, n: int)
    requires
        base >= 2,
        v >= 0,
        n >= 0,
    ensures
        limbs_value(
            Seq::new(n as nat, |i: int| (v / pow(base, i as nat)) % base),
            base,
        ) == v % pow(base, n as nat),
    decreases n,
{
    let s = Seq::new(n as nat, |i: int| (v / pow(base, i as nat)) % base);
    if n == 0 {
        vstd::arithmetic::power::lemma_pow0(base);
        assert(s =~= Seq::<int>::empty());
        vstd::arithmetic::div_mod::lemma_mod_bound(v, 1);
    } else {
        let v1 = v / base;
        vstd::arithmetic::div_mod::lemma_div_pos_is_pos(v, base);
        lemma_const_value_shifted(v1, base, n - 1);
        assert(s.first() == (v / pow(base, 0nat)) % base);
        vstd::arithmetic::power::lemma_pow0(base);
        assert(v / 1 == v) by {
            vstd::arithmetic::div_mod::lemma_div_by_multiple(v, 1);
        }
        assert forall|i: int| 0 <= i < n - 1 implies s.drop_first()[i] == ((v1 / pow(
            base,
            i as nat,
        )) % base) by {
            assert(s.drop_first()[i] == (v / pow(base, (i + 1) as nat)) % base);
            vstd::arithmetic::power::lemma_pow_positive(base, i as nat);
            vstd::arithmetic::div_mod::lemma_div_denominator(v, base, pow(base, i as nat));
            assert(pow(base, (i + 1) as nat) == base * pow(base, i as nat)) by {
                vstd::arithmetic::power::lemma_pow_adds(base, 1nat, i as nat);
                vstd::arithmetic::power::lemma_pow1(base);
            }
        }
        assert(s.drop_first() =~= Seq::new(
            (n - 1) as nat,
            |i: int| (v1 / pow(base, i as nat)) % base,
        ));
        vstd::arithmetic::power::lemma_pow_positive(base, (n - 1) as nat);
        vstd::arithmetic::div_mod::lemma_breakdown(v, base, pow(base, (n - 1) as nat));
        assert(pow(base, n as nat) == base * pow(base, (n - 1) as nat)) by {
            vstd::arithmetic::power::lemma_pow_adds(base, 1nat, (n - 1) as nat);
            vstd::arithmetic::power::lemma_pow1(base);
        }
    }
}

/// The equality gadget accepts its intended witness: when the operands
/// agree, boolean 1 with any inverse; when they differ, boolean 0 with
/// the difference's multiplicative inverse. Both registered constraints
/// vanish.
pub proof fn lemma_is_equal_complete(
    is_eq: crate::expression::WitIn,
    diff_inv: crate::expression::WitIn,
    lhs: Expression,
    rhs: Expression,
    wit: Seq<Fp>,
    chal: Seq<Fp>,
)
    requires
        is_eq.id < wit.len(),
        diff_inv.id < wit.len(),
        wit[is_eq.id as int].inv(),
        wit[diff_inv.id as int].inv(),
        eval(lhs, wit, chal) == eval(rhs, wit, chal) ==> wit[is_eq.id as int].val == 1,
        eval(lhs, wit, chal) != eval(rhs, wit, chal) ==> wit[is_eq.id as int].val == 0 && (eval(
            lhs,
            wit,
            chal,
        ) - eval(rhs, wit, chal)) * wit[diff_inv.id as int].val % p() == 1,
    ensures
        eval(
            crate::circuit_builder::is_equal_zero_constraint(is_eq, lhs, rhs),
            wit,
            chal,
        ) == 0,
        eval(
            crate::circuit_builder::is_equal_inverse_constraint(is_eq, diff_inv, lhs, rhs),
            wit,
            chal,
        ) == 0,
{
    let el = eval(lhs, wit, chal);
    let er = eval(rhs, wit, chal);
    let eb = wit[is_eq.id as int].val as int;
    let ei = wit[diff_inv.id as int].val as int;
    lemma_eval_in_range(lhs, wit, chal);
    lemma_eval_in_range(rhs, wit, chal);
    lemma_small_mod(wit[is_eq.id as int].val as nat, FIELD_MODULUS as nat);
    lemma_small_mod(wit[diff_inv.id as int].val as nat, FIELD_MODULUS as nat);
    lemma_eval_sub(lhs, rhs, wit, chal);
    let diff_e = sub_of(lhs, rhs);
    let dv = (el - er) % p();
    assert(eval(Expression::WitIn(is_eq.id), wit, chal) == eb);
    assert(eval(Expression::WitIn(diff_inv.id), wit, chal) == ei);
    // First constraint: is_eq * (lhs - rhs).
    assert(eval(
        crate::circuit_builder::is_equal_zero_constraint(is_eq, lhs, rhs),
        wit,
        chal,
    ) == (eb * dv) % p());
    // Second constraint: (lhs - rhs) * diff_inv - (1 - is_eq).
    let one = Expression::Constant(Fp { val: 1 });
    assert(eval(one, wit, chal) == 1) by {
        lemma_small_mod(1nat, FIELD_MODULUS as nat);
    }
    let prod = Expression::Product(Box::new(diff_e), Box::new(Expression::WitIn(diff_inv.id)));
    assert(eval(prod, wit, chal) == (dv * ei) % p());
    lemma_eval_sub(one, Expression::WitIn(is_eq.id), wit, chal);
    let rhs_part = sub_of(one, Expression::WitIn(is_eq.id));
    assert(eval(rhs_part, wit, chal) == (1 - eb) % p());
    lemma_eval_sub(prod, rhs_part, wit, chal);
    if el == er {
        assert(dv == 0) by {
            lemma_small_mod(0nat, FIELD_MODULUS as nat);
        }
        assert(eb == 1);
        assert((eb * dv) % p() == 0) by {
            lemma_small_mod(0nat, FIELD_MODULUS as nat);
        }
        assert((dv * ei) % p() == 0) by {
            assert(dv * ei == 0) by (nonlinear_arith)
                requires
                    dv == 0,
            ;
            lemma_small_mod(0nat, FIELD_MODULUS as nat);
        }
        assert((1 - eb) % p() == 0) by {
            lemma_small_mod(0nat, FIELD_MODULUS as nat);
        }
        assert((0 - 0) % p() == 0) by {
            lemma_small_mod(0nat, FIELD_MODULUS as nat);
        }
    } else {
        assert(eb == 0);
        assert((eb * dv) % p() == 0) by {
            assert(eb * dv == 0) by (nonlinear_arith)
                requires
                    eb == 0,
            ;
            lemma_small_mod(0nat, FIELD_MODULUS as nat);
        }
        // The inverse certificate gives the product residue 1 directly.
        assert((dv * ei) % p() == 1) by {
            assert((el - er) * ei % p() == 1);
            vstd::arithmetic::div_mod::lemma_mul_mod_noop_left(el - er, ei, p());
        }
        assert((1 - eb) % p() == 1) by {
            lemma_small_mod(1nat, FIELD_MODULUS as nat);
        }
        assert((1 - 1) % p() == 0) by {
            lemma_small_mod(0nat, FIELD_MODULUS as nat);
        }
    }
}

/// Range invariant of materialization: on any accepted witness row, a
/// cell that a range lookup was registered for holds a value below the
/// limb modulus.
pub proof fn lemma_materialized_limbs_in_range(
    cs: ConstraintSystem,
    lk0: int,
    ids: Seq<WitnessId>,
    c_bits: int,
    wit: Seq<Fp>,
    chal: Seq<Fp>,
)
    requires
        c_bits == 5 || c_bits == 8 || c_bits == 16,
        0 <= lk0,
        lk0 + ids.len() <= cs.lookups@.len(),
        forall|j: int|
            0 <= j < ids.len() ==> is_range_query(
                #[trigger] cs.lookups@[lk0 + j],
                c_bits,
                Expression::WitIn(ids[j]),
            ),
        satisfied(cs, wit, chal),
        all_canonical(wit),
        forall|j: int| 0 <= j < ids.len() ==> (#[trigger] ids[j]) < wit.len(),
    ensures
        forall|j: int|
            0 <= j < ids.len() ==> (#[trigger] wit[ids[j] as int]).val < range_bound(c_bits),
{
    assert forall|j: int| 0 <= j < ids.len() implies (#[trigger] wit[ids[j] as int]).val
        < range_bound(c_bits) by {
        let q = cs.lookups@[lk0 + j];
        assert(lookup_sat(q.rom_type, lookup_args_eval(q.args@, wit, chal)));
        lemma_range_query_sat(q, c_bits, Expression::WitIn(ids[j]), wit, chal);
        assert(eval(Expression::WitIn(ids[j]), wit, chal) == wit[ids[j] as int].val as int % p());
        lemma_small_mod(wit[ids[j] as int].val as nat, FIELD_MODULUS as nat);
    }
}

} // verus!
