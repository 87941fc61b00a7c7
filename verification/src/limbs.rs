//! Pure arithmetic of little-endian limb vectors.
//!
//! A vector of limbs in base `b` denotes the integer
//! `l[0] + l[1]*b + l[2]*b^2 + ...`. Addition and multiplication of such
//! vectors reduce every position into `[0, b)` by running a carry chain;
//! this module defines that chain and proves the identities the arithmetic
//! gadgets are specified by.

use vstd::prelude::*;

use vstd::arithmetic::div_mod::{
    lemma_div_is_ordered, lemma_div_pos_is_pos, lemma_fundamental_div_mod, lemma_mod_bound,
    lemma_small_mod,
};
use vstd::arithmetic::mul::{lemma_mul_inequality, lemma_mul_nonnegative};
use vstd::arithmetic::power::{lemma_pow0, lemma_pow1, lemma_pow_adds, lemma_pow_positive, pow};

verus! {

/// The integer a little-endian limb vector denotes in base `b`.
pub open spec fn limbs_value(l: Seq<int>, b: int) -> int
    decreases l.len(),
{
    if l.len() == 0 {
        0
    } else {
        l.first() + b * limbs_value(l.drop_first(), b)
    }
}

/// Every limb lies in `[0, b)`.
pub open spec fn limbs_ok(l: Seq<int>, b: int) -> bool {
    forall|i: int| 0 <= i < l.len() ==> 0 <= #[trigger] l[i] < b
}

/// The carry left after running the carry chain over raw digit sums `d`
/// with incoming carry `cin`.
pub open spec fn carry_run(d: Seq<int>, b: int, cin: int) -> int
    decreases d.len(),
{
    if d.len() == 0 {
        cin
    } else {
        carry_run(d.drop_first(), b, (d.first() + cin) / b)
    }
}

/// The reduced limbs produced by running the carry chain over raw digit
/// sums `d` with incoming carry `cin`.
pub open spec fn limb_run(d: Seq<int>, b: int, cin: int) -> Seq<int>
    decreases d.len(),
{
    if d.len() == 0 {
        Seq::empty()
    } else {
        seq![(d.first() + cin) % b] + limb_run(d.drop_first(), b, (d.first() + cin) / b)
    }
}

/// The carry out of position `i` of the chain started with no carry.
pub open spec fn carry_after(d: Seq<int>, b: int, i: int) -> int {
    carry_run(d.take(i + 1), b, 0)
}

/// The raw digit sums of limb-wise addition.
pub open spec fn pair_sums(av: Seq<int>, bv: Seq<int>) -> Seq<int> {
    Seq::new(av.len(), |i: int| av[i] + bv[i])
}

pub proof fn lemma_limb_run_len(d: Seq<int>, b: int, cin: int)
    ensures
        limb_run(d, b, cin).len() == d.len(),
    decreases d.len(),
{
    if d.len() > 0 {
        lemma_limb_run_len(d.drop_first(), b, (d.first() + cin) / b);
    }
}

/// Every reduced limb lies in `[0, b)`, and the final carry is
/// non-negative, provided digits and the incoming carry are non-negative.
pub proof fn lemma_limb_run_ok(d: Seq<int>, b: int, cin: int)
    requires
        b >= 2,
        cin >= 0,
        forall|i: int| 0 <= i < d.len() ==> #[trigger] d[i] >= 0,
    ensures
        limbs_ok(limb_run(d, b, cin), b),
        carry_run(d, b, cin) >= 0,
    decreases d.len(),
{
    if d.len() > 0 {
        let head = d.first() + cin;
        lemma_mod_bound(head, b);
        vstd::arithmetic::div_mod::lemma_div_basics(b);
        assert(head / b >= 0) by {
            if head == 0 {
                assert(0int / b == 0) by {
                    lemma_small_mod(0nat, b as nat);
                    lemma_fundamental_div_mod(0int, b);
                }
            } else {
                lemma_div_pos_is_pos(head, b);
            }
        }
        lemma_limb_run_ok(d.drop_first(), b, head / b);
        let rest = limb_run(d.drop_first(), b, head / b);
        assert forall|i: int| 0 <= i < limb_run(d, b, cin).len() implies 0 <= #[trigger] limb_run(
            d,
            b,
            cin,
        )[i] < b by {
            if i > 0 {
                assert(limb_run(d, b, cin)[i] == rest[i - 1]);
            }
        }
    }
}

/// The fundamental carry-chain identity: the reduced limbs plus the final
/// carry at the top weight recover the raw digit value plus the incoming
/// carry.
pub proof fn lemma_carry_chain(d: Seq<int>, b: int, cin: int)
    requires
        b >= 2,
    ensures
        limbs_value(limb_run(d, b, cin), b) + carry_run(d, b, cin) * pow(b, d.len()) == limbs_value(
            d,
            b,
        ) + cin,
    decreases d.len(),
{
    if d.len() == 0 {
        lemma_pow0(b);
    } else {
        let head = d.first() + cin;
        let cnext = head / b;
        lemma_carry_chain(d.drop_first(), b, cnext);
        lemma_limb_run_len(d.drop_first(), b, cnext);
        let out = limb_run(d, b, cin);
        let out_rest = limb_run(d.drop_first(), b, cnext);
        assert(out.first() == head % b);
        assert(out.drop_first() =~= out_rest);
        lemma_fundamental_div_mod(head, b);
        let fc = carry_run(d.drop_first(), b, cnext);
        let n1 = d.drop_first().len();
        let rest_val = limbs_value(d.drop_first(), b);
        // out value = head % b + b * (value(d') + cnext - fc * b^(n-1))
        assert(limbs_value(out_rest, b) == rest_val + cnext - fc * pow(b, n1 as nat));
        assert(b * (rest_val + cnext - fc * pow(b, n1 as nat)) == b * rest_val + b * cnext - b
            * (fc * pow(b, n1 as nat))) by (nonlinear_arith);
        assert(b * (fc * pow(b, n1 as nat)) == fc * (b * pow(b, n1 as nat)))
            by (nonlinear_arith);
        assert(b * pow(b, n1 as nat) == pow(b, d.len() as nat)) by {
            lemma_pow_adds(b, 1nat, n1 as nat);
            lemma_pow1(b);
        }
        assert(b * cnext == head - head % b);
    }
}

/// Carries stay in `{0, 1}` while every raw digit is at most `2b - 2`, the
/// case of limb-wise addition of two reduced vectors.
pub proof fn lemma_carry_run_binary(d: Seq<int>, b: int, cin: int)
    requires
        b >= 2,
        0 <= cin <= 1,
        forall|i: int| 0 <= i < d.len() ==> 0 <= #[trigger] d[i] <= 2 * b - 2,
    ensures
        0 <= carry_run(d, b, cin) <= 1,
    decreases d.len(),
{
    if d.len() > 0 {
        let head = d.first() + cin;
        assert(0 <= head <= 2 * b - 1);
        assert(0 <= head / b <= 1) by {
            if head == 0 {
                lemma_fundamental_div_mod(head, b);
                lemma_small_mod(0nat, b as nat);
            } else {
                lemma_div_pos_is_pos(head, b);
            }
            lemma_div_is_ordered(head, 2 * b - 1, b);
            assert((2 * b - 1) / b == 1) by {
                lemma_fundamental_div_mod(2 * b - 1, b);
                assert(2 * b - 1 == b * 1 + (b - 1));
                vstd::arithmetic::div_mod::lemma_fundamental_div_mod_converse(
                    2 * b - 1,
                    b,
                    1,
                    b - 1,
                );
            }
        }
        lemma_carry_run_binary(d.drop_first(), b, head / b);
    }
}

/// Carries stay at most `q` while every raw digit is at most `q * (b - 1)`,
/// the case of convolution digits.
pub proof fn lemma_carry_run_bounded(d: Seq<int>, b: int, cin: int, q: int)
    requires
        b >= 2,
        q >= 0,
        0 <= cin <= q,
        forall|i: int| 0 <= i < d.len() ==> 0 <= #[trigger] d[i] <= q * (b - 1),
    ensures
        0 <= carry_run(d, b, cin) <= q,
    decreases d.len(),
{
    if d.len() > 0 {
        let head = d.first() + cin;
        assert(head <= q * (b - 1) + q);
        assert(q * (b - 1) + q == q * b) by (nonlinear_arith);
        assert(0 <= head / b <= q) by {
            if head == 0 {
                lemma_fundamental_div_mod(head, b);
                lemma_small_mod(0nat, b as nat);
            } else {
                lemma_div_pos_is_pos(head, b);
            }
            lemma_div_is_ordered(head, q * b, b);
            assert((q * b) / b == q) by {
                vstd::arithmetic::div_mod::lemma_div_multiples_vanish(q, b);
                assert(q * b == b * q) by (nonlinear_arith);
            }
        }
        lemma_carry_run_bounded(d.drop_first(), b, head / b, q);
    }
}

/// Appending one digit at the top extends the chain by one step.
pub proof fn lemma_carry_run_push(d: Seq<int>, b: int, cin: int, v: int)
    requires
        b >= 2,
    ensures
        carry_run(d.push(v), b, cin) == (v + carry_run(d, b, cin)) / b,
        limb_run(d.push(v), b, cin) == limb_run(d, b, cin).push(
            (v + carry_run(d, b, cin)) % b,
        ),
    decreases d.len(),
{
    if d.len() == 0 {
        assert(d.push(v).first() == v);
        assert(d.push(v).drop_first() =~= Seq::<int>::empty());
        assert(carry_run(Seq::<int>::empty(), b, (v + cin) / b) == (v + cin) / b);
        assert(carry_run(d.push(v), b, cin) == (v + cin) / b);
        assert(limb_run(Seq::<int>::empty(), b, (v + cin) / b) =~= Seq::<int>::empty());
        assert(limb_run(d.push(v), b, cin) =~= seq![(v + cin) % b]);
        assert(limb_run(d, b, cin) =~= Seq::<int>::empty());
        assert(limb_run(d.push(v), b, cin) =~= limb_run(d, b, cin).push(
            (v + carry_run(d, b, cin)) % b,
        ));
    } else {
        let head = d.first() + cin;
        assert(d.push(v).first() == d.first());
        assert(d.push(v).drop_first() =~= d.drop_first().push(v));
        lemma_carry_run_push(d.drop_first(), b, head / b, v);
        assert(limb_run(d.push(v), b, cin) =~= limb_run(d, b, cin).push(
            (v + carry_run(d, b, cin)) % b,
        ));
    }
}

/// The per-position reading of the chain: limb `i` is the digit plus the
/// carry into the position, reduced; and the carry out of position `i`
/// continues from the carry in.
pub proof fn lemma_chain_at(d: Seq<int>, b: int, i: int)
    requires
        b >= 2,
        0 <= i < d.len(),
    ensures
        carry_after(d, b, i) == (d[i] + (if i > 0 {
            carry_after(d, b, i - 1)
        } else {
            0
        })) / b,
        limb_run(d, b, 0)[i] == (d[i] + (if i > 0 {
            carry_after(d, b, i - 1)
        } else {
            0
        })) % b,
{
    let prefix = d.take(i);
    assert(d.take(i + 1) =~= prefix.push(d[i]));
    lemma_carry_run_push(prefix, b, 0, d[i]);
    let cin = carry_run(prefix, b, 0);
    if i > 0 {
        assert(carry_after(d, b, i - 1) == cin);
    } else {
        assert(prefix =~= Seq::<int>::empty());
        assert(cin == 0);
    }
    // limb i of the full run equals the last limb of the run over the
    // prefix of length i + 1, which the push lemma exposes.
    lemma_limb_run_prefix(d, b, 0, i + 1);
    lemma_limb_run_len(prefix, b, 0);
    lemma_limb_run_len(d, b, 0);
    assert(limb_run(d.take(i + 1), b, 0) == limb_run(prefix, b, 0).push((d[i] + cin) % b));
    assert(limb_run(d, b, 0).take(i + 1)[i] == (d[i] + cin) % b);
    assert(limb_run(d, b, 0)[i] == limb_run(d, b, 0).take(i + 1)[i]);
}

/// The first `k` limbs of a run depend only on the first `k` digits.
pub proof fn lemma_limb_run_prefix(d: Seq<int>, b: int, cin: int, k: int)
    requires
        b >= 2,
        0 <= k <= d.len(),
    ensures
        limb_run(d.take(k), b, cin) =~= limb_run(d, b, cin).take(k),
    decreases d.len(),
{
    lemma_limb_run_len(d, b, cin);
    if d.len() > 0 && k > 0 {
        let head = d.first() + cin;
        assert(d.take(k).first() == d.first());
        assert(d.take(k).drop_first() =~= d.drop_first().take(k - 1));
        lemma_limb_run_prefix(d.drop_first(), b, head / b, k - 1);
        lemma_limb_run_len(d.drop_first(), b, head / b);
    } else if k == 0 {
        assert(d.take(0) =~= Seq::<int>::empty());
    }
}

/// The convolution term of output position `idx`, summed over the first
/// `j + 1` contributions: `av[0]*bv[idx] + ... + av[j]*bv[idx-j]`.
pub open spec fn conv_partial(av: Seq<int>, bv: Seq<int>, idx: int, j: int) -> int
    decreases j,
{
    if j <= 0 {
        av[0] * bv[idx]
    } else {
        conv_partial(av, bv, idx, j - 1) + av[j] * bv[idx - j]
    }
}

/// The raw digit sums of schoolbook multiplication, truncated to `n`
/// positions.
pub open spec fn conv_digits(av: Seq<int>, bv: Seq<int>, n: int) -> Seq<int> {
    Seq::new(n as nat, |idx: int| conv_partial(av, bv, idx, idx))
}

/// A convolution digit of in-range limbs is bounded by the limb count
/// times the square of the largest limb.
pub proof fn lemma_conv_partial_bound(av: Seq<int>, bv: Seq<int>, base: int, idx: int, j: int)
    requires
        base >= 2,
        0 <= j <= idx,
        idx < av.len(),
        av.len() == bv.len(),
        limbs_ok(av, base),
        limbs_ok(bv, base),
    ensures
        0 <= conv_partial(av, bv, idx, j) <= (j + 1) * ((base - 1) * (base - 1)),
    decreases j,
{
    let sq = (base - 1) * (base - 1);
    assert(sq >= 0) by (nonlinear_arith)
        requires
            sq == (base - 1) * (base - 1),
            base >= 2,
    ;
    if j <= 0 {
        assert(0 <= av[0] * bv[idx] <= sq) by (nonlinear_arith)
            requires
                sq == (base - 1) * (base - 1),
                0 <= av[0] <= base - 1,
                0 <= bv[idx] <= base - 1,
        ;
        assert(1 * sq == sq) by (nonlinear_arith);
    } else {
        lemma_conv_partial_bound(av, bv, base, idx, j - 1);
        assert(0 <= av[j] * bv[idx - j] <= sq) by (nonlinear_arith)
            requires
                sq == (base - 1) * (base - 1),
                0 <= av[j] <= base - 1,
                0 <= bv[idx - j] <= base - 1,
        ;
        assert(j * sq + sq == (j + 1) * sq) by (nonlinear_arith);
    }
}

/// Splitting off the lowest operand limb splits a convolution digit.
proof fn lemma_conv_at_split(av: Seq<int>, bv: Seq<int>, k: int, j: int)
    requires
        1 <= j <= k,
        k < av.len(),
        k < bv.len(),
    ensures
        conv_partial(av, bv, k, j) == av[0] * bv[k] + conv_partial(
            av.drop_first(),
            bv,
            k - 1,
            j - 1,
        ),
    decreases j,
{
    if j == 1 {
        assert(conv_partial(av, bv, k, 0) == av[0] * bv[k]);
        assert(conv_partial(av, bv, k, 1) == av[0] * bv[k] + av[1] * bv[k - 1]);
        assert(conv_partial(av.drop_first(), bv, k - 1, 0) == av.drop_first()[0] * bv[k - 1]);
        assert(av.drop_first()[0] == av[1]);
    } else {
        lemma_conv_at_split(av, bv, k, j - 1);
        assert(av.drop_first()[j - 1] == av[j]);
    }
}

/// Scaling every limb scales the denoted value.
proof fn lemma_value_scale(u: Seq<int>, v: Seq<int>, c: int, b: int)
    requires
        u.len() == v.len(),
        forall|i: int| 0 <= i < u.len() ==> #[trigger] u[i] == c * v[i],
    ensures
        limbs_value(u, b) == c * limbs_value(v, b),
    decreases u.len(),
{
    if u.len() == 0 {
        assert(c * 0 == 0) by (nonlinear_arith);
    } else {
        assert(forall|i: int|
            0 <= i < u.drop_first().len() ==> #[trigger] u.drop_first()[i] == c * v.drop_first()[
                i]);
        lemma_value_scale(u.drop_first(), v.drop_first(), c, b);
        let ru = limbs_value(u.drop_first(), b);
        let rv = limbs_value(v.drop_first(), b);
        assert(u.first() == c * v.first());
        assert(c * v.first() + b * (c * rv) == c * (v.first() + b * rv)) by (nonlinear_arith);
    }
}

/// The truncated convolution denotes the product of the operands'
/// truncations, up to a multiple of the weight above the truncation: the
/// higher convolution terms are exactly the dropped overflow.
pub proof fn lemma_conv_value(av: Seq<int>, bv: Seq<int>, b: int, m: int)
    requires
        b >= 2,
        0 <= m,
        m <= av.len(),
        m <= bv.len(),
    ensures
        exists|q: int|
            limbs_value(conv_digits(av, bv, m), b) == limbs_value(av.take(m), b) * limbs_value(
                bv.take(m),
                b,
            ) + #[trigger] (q * pow(b, m as nat)),
    decreases m,
{
    let cd = conv_digits(av, bv, m);
    if m == 0 {
        lemma_pow0(b);
        assert(cd =~= Seq::<int>::empty());
        assert(av.take(0) =~= Seq::<int>::empty());
        assert(bv.take(0) =~= Seq::<int>::empty());
        assert(limbs_value(cd, b) == limbs_value(av.take(0), b) * limbs_value(bv.take(0), b) + 0
            * pow(b, m as nat)) by (nonlinear_arith)
            requires
                limbs_value(cd, b) == 0,
                limbs_value(av.take(0), b) == 0,
                limbs_value(bv.take(0), b) == 0,
                m == 0,
        ;
    } else {
        let a0 = av[0];
        let avr = av.drop_first();
        lemma_conv_value(avr, bv, b, m - 1);
        let q0 = choose|q: int|
            limbs_value(conv_digits(avr, bv, m - 1), b) == limbs_value(avr.take(m - 1), b)
                * limbs_value(bv.take(m - 1), b) + #[trigger] (q * pow(b, (m - 1) as nat));
        // Split the digit sequence at the first position.
        assert(cd.first() == conv_partial(av, bv, 0, 0));
        assert(cd.first() == a0 * bv[0]);
        let rest = cd.drop_first();
        assert(rest.len() == m - 1);
        // Each remaining digit splits into the scaled shifted operand and
        // the convolution of the tail.
        let shifted = Seq::new((m - 1) as nat, |k: int| a0 * bv[k + 1]);
        let tailconv = conv_digits(avr, bv, m - 1);
        assert forall|k: int| 0 <= k < m - 1 implies #[trigger] rest[k] == shifted[k] + tailconv[
            k] by {
            assert(rest[k] == conv_partial(av, bv, k + 1, k + 1));
            if k + 1 >= 1 {
                lemma_conv_at_split(av, bv, k + 1, k + 1);
            }
        }
        assert(rest =~= pair_sums(shifted, tailconv));
        lemma_pair_sums_value(shifted, tailconv, b);
        // The shifted part denotes the scaled upper part of the operand.
        let bup = Seq::new((m - 1) as nat, |k: int| bv[k + 1]);
        assert(forall|i: int| 0 <= i < m - 1 ==> #[trigger] shifted[i] == a0 * bup[i]);
        lemma_value_scale(shifted, bup, a0, b);
        assert(bup =~= bv.take(m).drop_first());
        // Reassemble.
        let vam = limbs_value(av.take(m), b);
        let vbm = limbs_value(bv.take(m), b);
        let va1 = limbs_value(avr.take(m - 1), b);
        let vb1 = limbs_value(bv.take(m - 1), b);
        let vbup = limbs_value(bv.take(m).drop_first(), b);
        assert(limbs_value(cd, b) == a0 * bv[0] + b * (a0 * vbup + (va1 * vb1 + q0 * pow(
            b,
            (m - 1) as nat,
        ))));
        assert(bv.take(m).first() == bv[0]);
        assert(vbm == bv[0] + b * vbup);
        assert(av.take(m).first() == a0);
        assert(av.take(m).drop_first() =~= avr.take(m - 1));
        assert(vam == a0 + b * va1);
        // The top limb of the operand's truncation closes the gap between
        // the two truncation depths.
        lemma_value_split_top(bv.take(m), b);
        assert(bv.take(m).drop_last() =~= bv.take(m - 1));
        assert(bv.take(m).last() == bv[m - 1]);
        assert(vb1 == vbm - bv[m - 1] * pow(b, (m - 1) as nat));
        let w1 = pow(b, (m - 1) as nat);
        assert(b * w1 == pow(b, m as nat)) by {
            lemma_pow_adds(b, 1nat, (m - 1) as nat);
            lemma_pow1(b);
        }
        let qq = q0 - va1 * bv[m - 1];
        let b0 = bv[0];
        let c = bv[m - 1];
        // Expand both sides into the same sum of monomials, one small
        // ring step at a time.
        assert(va1 * (vbm - c * w1) == va1 * b0 + va1 * (b * vbup) - va1 * (c * w1))
            by (nonlinear_arith)
            requires
                vbm == b0 + b * vbup,
        ;
        assert(b * (a0 * vbup + (va1 * b0 + va1 * (b * vbup) - va1 * (c * w1) + q0 * w1)) == b * (
        a0 * vbup) + b * (va1 * b0) + b * (va1 * (b * vbup)) - b * (va1 * (c * w1)) + b * (q0
            * w1)) by (nonlinear_arith);
        assert((a0 + b * va1) * (b0 + b * vbup) == a0 * b0 + a0 * (b * vbup) + (b * va1) * b0 + (b
            * va1) * (b * vbup)) by (nonlinear_arith);
        assert((q0 - va1 * c) * (b * w1) == q0 * (b * w1) - (va1 * c) * (b * w1))
            by (nonlinear_arith);
        assert(b * (a0 * vbup) == a0 * (b * vbup)) by (nonlinear_arith);
        assert(b * (va1 * b0) == (b * va1) * b0) by (nonlinear_arith);
        assert(b * (va1 * (b * vbup)) == (b * va1) * (b * vbup)) by (nonlinear_arith);
        assert(b * (q0 * w1) == q0 * (b * w1)) by (nonlinear_arith);
        assert(b * (va1 * (c * w1)) == (va1 * c) * (b * w1)) by (nonlinear_arith);
        assert(limbs_value(cd, b) == a0 * b0 + b * (a0 * vbup + (va1 * b0 + va1 * (b * vbup) - va1
            * (c * w1) + q0 * w1)));
        assert(limbs_value(cd, b) == (a0 + b * va1) * (b0 + b * vbup) + (q0 - va1 * c) * (b * w1));
        assert(qq * pow(b, m as nat) == (q0 - va1 * c) * (b * w1)) by (nonlinear_arith)
            requires
                qq == q0 - va1 * c,
                pow(b, m as nat) == b * w1,
        ;
        assert(limbs_value(cd, b) == vam * vbm + qq * pow(b, m as nat));
    }
}

/// Multiplication correctness at the value level: running the carry chain
/// over the truncated convolution digits of two in-range operands yields
/// exactly the limbs of the product reduced modulo the representable
/// range.
pub proof fn lemma_mul_value(av: Seq<int>, bv: Seq<int>, b: int)
    requires
        b >= 2,
        av.len() == bv.len(),
        limbs_ok(av, b),
        limbs_ok(bv, b),
    ensures
        limbs_value(limb_run(conv_digits(av, bv, av.len() as int), b, 0), b) == (limbs_value(av, b)
            * limbs_value(bv, b)) % pow(b, av.len()),
{
    let n = av.len() as int;
    let d = conv_digits(av, bv, n);
    assert(av.take(n) =~= av);
    assert(bv.take(n) =~= bv);
    lemma_conv_value(av, bv, b, n);
    let q = choose|q: int|
        limbs_value(d, b) == limbs_value(av, b) * limbs_value(bv, b) + #[trigger] (q * pow(
            b,
            n as nat,
        ));
    lemma_carry_chain(d, b, 0);
    lemma_limb_run_len(d, b, 0);
    assert(forall|i: int| 0 <= i < d.len() ==> #[trigger] d[i] >= 0) by {
        assert forall|i: int| 0 <= i < d.len() implies #[trigger] d[i] >= 0 by {
            lemma_conv_partial_bound(av, bv, b, i, i);
        }
    }
    lemma_limb_run_ok(d, b, 0);
    let out = limb_run(d, b, 0);
    lemma_limbs_value_bound(out, b);
    let top = carry_run(d, b, 0);
    // out value = A*B + (q - top) * b^n, and it lies in [0, b^n), so it
    // is the product's remainder.
    assert(limbs_value(out, b) == limbs_value(av, b) * limbs_value(bv, b) + (q - top) * pow(
        b,
        n as nat,
    )) by (nonlinear_arith)
        requires
            limbs_value(out, b) + top * pow(b, n as nat) == limbs_value(d, b),
            limbs_value(d, b) == limbs_value(av, b) * limbs_value(bv, b) + q * pow(b, n as nat),
    ;
    vstd::arithmetic::power::lemma_pow_positive(b, n as nat);
    assert((top - q) * pow(b, n as nat) == 0 - ((q - top) * pow(b, n as nat)))
        by (nonlinear_arith);
    vstd::arithmetic::div_mod::lemma_fundamental_div_mod_converse(
        limbs_value(av, b) * limbs_value(bv, b),
        pow(b, n as nat),
        top - q,
        limbs_value(out, b),
    );
}

/// Limb-wise sums denote the sum of the denoted values.
pub proof fn lemma_pair_sums_value(av: Seq<int>, bv: Seq<int>, b: int)
    requires
        av.len() == bv.len(),
    ensures
        limbs_value(pair_sums(av, bv), b) == limbs_value(av, b) + limbs_value(bv, b),
    decreases av.len(),
{
    if av.len() > 0 {
        lemma_pair_sums_value(av.drop_first(), bv.drop_first(), b);
        assert(pair_sums(av, bv).drop_first() =~= pair_sums(av.drop_first(), bv.drop_first()));
        let rest = limbs_value(pair_sums(av, bv).drop_first(), b);
        let ra = limbs_value(av.drop_first(), b);
        let rb = limbs_value(bv.drop_first(), b);
        assert(b * rest == b * ra + b * rb) by (nonlinear_arith)
            requires
                rest == ra + rb,
        ;
    } else {
        assert(pair_sums(av, bv) =~= Seq::<int>::empty());
    }
}

/// Unsigned comparison of byte-limb vectors by their denoted values.
pub open spec fn bytes_ltu(a: Seq<int>, b: Seq<int>) -> bool {
    limbs_value(a, 256) < limbs_value(b, 256)
}

/// The sign bit of a byte-limb vector: the top bit of its highest limb.
pub open spec fn bytes_msb(a: Seq<int>) -> int {
    a.last() / 128
}

/// The vector with its sign bit cleared.
pub open spec fn bytes_without_msb(a: Seq<int>) -> Seq<int> {
    a.update(a.len() - 1, a.last() - 128 * bytes_msb(a))
}

/// The two's-complement value of a byte-limb vector.
pub open spec fn bytes_signed_value(a: Seq<int>) -> int {
    limbs_value(a, 256) - pow(256, a.len()) * bytes_msb(a)
}

/// Signed comparison of byte-limb vectors by their two's-complement
/// values.
pub open spec fn bytes_lt_signed(a: Seq<int>, b: Seq<int>) -> bool {
    bytes_signed_value(a) < bytes_signed_value(b)
}

/// The explicit sign-bit decomposition rule:
/// opposite signs are decided by the sign bit alone, equal signs by the
/// unsigned comparison of the remaining bits.
pub open spec fn sign_rule(a: Seq<int>, b: Seq<int>) -> bool {
    if bytes_msb(a) != bytes_msb(b) {
        bytes_msb(a) == 1
    } else {
        bytes_ltu(bytes_without_msb(a), bytes_without_msb(b))
    }
}

/// The denoted value splits at the top limb.
pub proof fn lemma_value_split_top(l: Seq<int>, b: int)
    requires
        l.len() >= 1,
    ensures
        limbs_value(l, b) == limbs_value(l.drop_last(), b) + l.last() * pow(b, (l.len() - 1) as nat),
    decreases l.len(),
{
    if l.len() == 1 {
        lemma_pow0(b);
        assert(l.drop_last() =~= Seq::<int>::empty());
        assert(l.drop_first() =~= Seq::<int>::empty());
        assert(limbs_value(Seq::<int>::empty(), b) == 0);
        assert(limbs_value(l, b) == l.first() + b * 0);
        assert(b * 0 == 0) by (nonlinear_arith);
        assert(limbs_value(l, b) == l.first());
        assert(l.first() == l.last());
        assert(l.last() * 1 == l.last()) by (nonlinear_arith);
    } else {
        lemma_value_split_top(l.drop_first(), b);
        assert(l.drop_first().drop_last() =~= l.drop_last().drop_first());
        assert(l.drop_first().last() == l.last());
        assert(l.drop_last().first() == l.first());
        let n2 = (l.len() - 2) as nat;
        assert(b * (limbs_value(l.drop_last().drop_first(), b) + l.last() * pow(b, n2)) == b
            * limbs_value(l.drop_last().drop_first(), b) + l.last() * (b * pow(b, n2)))
            by (nonlinear_arith);
        assert(b * pow(b, n2) == pow(b, (l.len() - 1) as nat)) by {
            lemma_pow_adds(b, 1nat, n2);
            lemma_pow1(b);
        }
    }
}

/// Vectors of in-range limbs denote equal values only when they are
/// equal limb for limb.
pub proof fn lemma_value_injective(a: Seq<int>, b: Seq<int>, base: int)
    requires
        base >= 2,
        a.len() == b.len(),
        limbs_ok(a, base),
        limbs_ok(b, base),
        limbs_value(a, base) == limbs_value(b, base),
    ensures
        a =~= b,
    decreases a.len(),
{
    if a.len() > 0 {
        let va = limbs_value(a, base);
        let ra = limbs_value(a.drop_first(), base);
        let rb = limbs_value(b.drop_first(), base);
        lemma_limbs_value_bound(a.drop_first(), base);
        lemma_limbs_value_bound(b.drop_first(), base);
        assert(a.first() == va % base && ra == va / base) by {
            lemma_fundamental_div_mod_converse_pair(va, base, ra, a.first());
        }
        assert(b.first() == va % base && rb == va / base) by {
            lemma_fundamental_div_mod_converse_pair(va, base, rb, b.first());
        }
        assert(forall|i: int|
            0 <= i < a.drop_first().len() ==> 0 <= #[trigger] a.drop_first()[i] < base);
        assert(forall|i: int|
            0 <= i < b.drop_first().len() ==> 0 <= #[trigger] b.drop_first()[i] < base);
        lemma_value_injective(a.drop_first(), b.drop_first(), base);
        assert(a =~= b) by {
            assert(forall|i: int|
                1 <= i < a.len() ==> #[trigger] a[i] == a.drop_first()[i - 1]);
            assert(forall|i: int|
                1 <= i < b.len() ==> #[trigger] b[i] == b.drop_first()[i - 1]);
        }
    }
}

/// Wrapper pairing the fundamental division identity with its converse.
proof fn lemma_fundamental_div_mod_converse_pair(x: int, d: int, q: int, r: int)
    requires
        d >= 2,
        0 <= r < d,
        x == d * q + r,
    ensures
        r == x % d,
        q == x / d,
{
    assert(d * q == q * d) by (nonlinear_arith);
    vstd::arithmetic::div_mod::lemma_fundamental_div_mod_converse(x, d, q, r);
}

/// Exactly one of `ltu(a,b)`, `a == b`, `ltu(b,a)` holds for in-range
/// byte-limb pairs: the totality of the unsigned ordering.
pub proof fn lemma_bytes_cmp_trichotomy(a: Seq<int>, b: Seq<int>)
    requires
        a.len() == b.len(),
        limbs_ok(a, 256),
        limbs_ok(b, 256),
    ensures
        bytes_ltu(a, b) || a =~= b || bytes_ltu(b, a),
        bytes_ltu(a, b) ==> !(a =~= b) && !bytes_ltu(b, a),
        a =~= b ==> !bytes_ltu(a, b) && !bytes_ltu(b, a),
        bytes_ltu(b, a) ==> !(a =~= b) && !bytes_ltu(a, b),
{
    let va = limbs_value(a, 256);
    let vb = limbs_value(b, 256);
    if va == vb {
        lemma_value_injective(a, b, 256);
    }
    if a =~= b {
        assert(va == vb);
    }
}

/// The gadget's lexicographic reading agrees with the unsigned ordering:
/// when every byte above position `i` agrees and the bytes at `i`
/// differ, the comparison of the denoted values is the comparison of the
/// bytes at `i`.
pub proof fn lemma_bytes_ltu_lex(a: Seq<int>, b: Seq<int>, i: int)
    requires
        a.len() == b.len(),
        limbs_ok(a, 256),
        limbs_ok(b, 256),
        0 <= i < a.len(),
        forall|j: int| i < j < a.len() ==> #[trigger] a[j] == b[j],
        a[i] != b[i],
    ensures
        bytes_ltu(a, b) <==> a[i] < b[i],
    decreases a.len(),
{
    if i == a.len() - 1 {
        lemma_value_split_top(a, 256);
        lemma_value_split_top(b, 256);
        lemma_limbs_value_bound(a.drop_last(), 256);
        lemma_limbs_value_bound(b.drop_last(), 256);
        let w = pow(256, (a.len() - 1) as nat);
        lemma_pow_positive(256, (a.len() - 1) as nat);
        if a[i] < b[i] {
            assert(a.last() * w + w <= b.last() * w) by (nonlinear_arith)
                requires
                    a.last() + 1 <= b.last(),
                    w > 0,
            ;
        } else {
            assert(b.last() * w + w <= a.last() * w) by (nonlinear_arith)
                requires
                    b.last() + 1 <= a.last(),
                    w > 0,
            ;
        }
    } else {
        lemma_value_split_top(a, 256);
        lemma_value_split_top(b, 256);
        assert(a.last() == b.last());
        assert(forall|j: int|
            i < j < a.drop_last().len() ==> #[trigger] a.drop_last()[j] == b.drop_last()[j]);
        assert(forall|j: int|
            0 <= j < a.drop_last().len() ==> 0 <= #[trigger] a.drop_last()[j] < 256);
        assert(forall|j: int|
            0 <= j < b.drop_last().len() ==> 0 <= #[trigger] b.drop_last()[j] < 256);
        lemma_bytes_ltu_lex(a.drop_last(), b.drop_last(), i);
    }
}

/// The sign-bit decomposition rule agrees with signed two's-complement
/// comparison: opposite signs are decided by the sign bit, equal signs by
/// the unsigned comparison of the values with the sign bit cleared.
pub proof fn lemma_sign_rule_correct(a: Seq<int>, b: Seq<int>)
    requires
        a.len() == b.len(),
        a.len() >= 1,
        limbs_ok(a, 256),
        limbs_ok(b, 256),
    ensures
        sign_rule(a, b) <==> bytes_lt_signed(a, b),
{
    lemma_signed_decomposition(a);
    lemma_signed_decomposition(b);
    let ma = bytes_msb(a);
    let mb = bytes_msb(b);
    let w = pow(256, (a.len() - 1) as nat);
    assert(128 * w * ma == (if ma == 1 {
        128 * w
    } else {
        0
    })) by (nonlinear_arith)
        requires
            ma == 0 || ma == 1,
    ;
    assert(128 * w * mb == (if mb == 1 {
        128 * w
    } else {
        0
    })) by (nonlinear_arith)
        requires
            mb == 0 || mb == 1,
    ;
}

/// The two's-complement value decomposes as the masked value minus the
/// sign weight, and the masked value stays under the sign weight.
proof fn lemma_signed_decomposition(a: Seq<int>)
    requires
        a.len() >= 1,
        limbs_ok(a, 256),
    ensures
        0 <= bytes_msb(a) <= 1,
        bytes_signed_value(a) == limbs_value(bytes_without_msb(a), 256) - 128 * pow(
            256,
            (a.len() - 1) as nat,
        ) * bytes_msb(a),
        0 <= limbs_value(bytes_without_msb(a), 256) < 128 * pow(256, (a.len() - 1) as nat),
{
    let n = a.len() as int;
    let top = a.last();
    let m = bytes_msb(a);
    let w = pow(256, (n - 1) as nat);
    lemma_pow_positive(256, (n - 1) as nat);
    assert(0 <= m <= 1 && 0 <= top - 128 * m < 128) by {
        lemma_fundamental_div_mod(top, 128);
        lemma_mod_bound(top, 128);
        assert(top / 128 <= 1) by {
            if top >= 128 {
                lemma_div_is_ordered(top, 255, 128);
                lemma_fundamental_div_mod_converse_pair(255, 128, 1, 127);
            } else {
                lemma_fundamental_div_mod_converse_pair(top, 128, 0, top);
            }
            if top >= 0 {
                if top == 0 {
                    lemma_fundamental_div_mod_converse_pair(0, 128, 0, 0);
                } else {
                    lemma_div_pos_is_pos(top, 128);
                }
            }
        }
    }
    let masked = bytes_without_msb(a);
    assert(masked.drop_last() =~= a.drop_last());
    assert(masked.last() == top - 128 * m);
    lemma_value_split_top(a, 256);
    lemma_value_split_top(masked, 256);
    assert((top - 128 * m) * w == top * w - 128 * w * m) by (nonlinear_arith);
    assert(pow(256, n as nat) * m == 256 * w * m) by {
        lemma_pow_adds(256, 1nat, (n - 1) as nat);
        lemma_pow1(256);
        assert((256 * w) * m == 256 * (w * m)) by (nonlinear_arith);
        assert(256 * w * m == (256 * w) * m) by (nonlinear_arith);
    }
    assert(limbs_value(a, 256) - 256 * w * m == limbs_value(masked, 256) + top * w - (top - 128
        * m) * w - 256 * w * m + (limbs_value(a, 256) - limbs_value(a.drop_last(), 256) - top
        * w));
    assert(128 * w * m - 256 * w * m == (0 - 128) * w * m) by (nonlinear_arith);
    assert(bytes_signed_value(a) == limbs_value(masked, 256) - 128 * w * m) by {
        assert((0 - 128) * w * m == 0 - 128 * w * m) by (nonlinear_arith);
    }
    // The masked value stays below the sign weight.
    lemma_limbs_value_bound(a.drop_last(), 256);
    assert(forall|i: int| 0 <= i < masked.len() ==> 0 <= #[trigger] masked[i] < 256);
    assert(masked.last() * w <= 127 * w) by (nonlinear_arith)
        requires
            0 <= masked.last() <= 127,
            w > 0,
    ;
    assert(limbs_value(masked, 256) < 128 * w);
    assert(limbs_value(masked, 256) >= 0) by {
        lemma_limbs_value_bound(masked, 256);
    }
}

/// The value of an all-in-range vector is bounded by the weight above its
/// top limb.
pub proof fn lemma_limbs_value_bound(l: Seq<int>, b: int)
    requires
        b >= 2,
        limbs_ok(l, b),
    ensures
        0 <= limbs_value(l, b) < pow(b, l.len()),
    decreases l.len(),
{
    if l.len() == 0 {
        lemma_pow0(b);
    } else {
        lemma_limbs_value_bound(l.drop_first(), b);
        let rest = limbs_value(l.drop_first(), b);
        lemma_pow_positive(b, (l.len() - 1) as nat);
        lemma_mul_nonnegative(b, rest);
        assert(b * rest <= b * (pow(b, (l.len() - 1) as nat) - 1)) by {
            lemma_mul_inequality(rest, pow(b, (l.len() - 1) as nat) - 1, b);
            assert(rest * b == b * rest) by (nonlinear_arith);
            assert((pow(b, (l.len() - 1) as nat) - 1) * b == b * (pow(
                b,
                (l.len() - 1) as nat,
            ) - 1)) by (nonlinear_arith);
        }
        assert(b * (pow(b, (l.len() - 1) as nat) - 1) == b * pow(b, (l.len() - 1) as nat) - b)
            by (nonlinear_arith);
        assert(b * pow(b, (l.len() - 1) as nat) == pow(b, l.len() as nat)) by {
            lemma_pow_adds(b, 1nat, (l.len() - 1) as nat);
            lemma_pow1(b);
        }
    }
}

} // verus!
