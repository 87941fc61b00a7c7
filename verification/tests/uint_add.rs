use zkvm_gadgets::{CircuitBuilder, ConstraintSystem, Expression, Fp, UInt};

fn eval_by_expr(wit: &Vec<Fp>, challenges: &Vec<Fp>, e: &Expression) -> Fp {
    e.eval_on(wit, challenges)
}

#[test]
fn test_add64_16_no_carries() {
    // a = 1 + 1 * 2^16
    // b = 2 + 1 * 2^16
    // c = 3 + 2 * 2^16 with 0 carries
    let a = vec![1, 1, 0, 0];
    let b = vec![2, 1, 0, 0];
    let carries = vec![0; 3]; // no overflow
    let witness_values = [a, b, carries].concat();
    verify::<64, 16>(witness_values, None, false);
}

#[test]
fn test_add64_16_w_carry() {
    // a = 65535 + 1 * 2^16
    // b =   2   + 1 * 2^16
    // c =   1   + 3 * 2^16 with carries [1, 0, 0, 0]
    let a = vec![0xFFFF, 1, 0, 0];
    let b = vec![2, 1, 0, 0];
    let carries = vec![1, 0, 0]; // no overflow
    let witness_values = [a, b, carries].concat();
    verify::<64, 16>(witness_values, None, false);
}

#[test]
fn test_add64_16_w_carries() {
    // a = 65535 + 65534 * 2^16
    // b =   2   +   1   * 2^16
    // c =   1   +   0   * 2^16 + 1 * 2^32 with carries [1, 1, 0, 0]
    let a = vec![0xFFFF, 0xFFFE, 0, 0];
    let b = vec![2, 1, 0, 0];
    let carries = vec![1, 1, 0]; // no overflow
    let witness_values = [a, b, carries].concat();
    verify::<64, 16>(witness_values, None, false);
}

#[test]
fn test_add64_16_w_overflow() {
    // a = 1 + 1 * 2^16 + 0 + 65535 * 2^48
    // b = 2 + 1 * 2^16 + 0 +     2 * 2^48
    // c = 3 + 2 * 2^16 + 0 +     1 * 2^48 with carries [0, 0, 0, 1]
    let a = vec![1, 1, 0, 0xFFFF];
    let b = vec![2, 1, 0, 2];
    let carries = vec![0, 0, 0, 1];
    let witness_values = [a, b, carries].concat();
    verify::<64, 16>(witness_values, None, false);
}

#[test]
fn test_add32_16_w_carry() {
    // a = 65535 + 1 * 2^16
    // b =   2   + 1 * 2^16
    // c =   1   + 3 * 2^16 with carries [1]
    let a = vec![0xFFFF, 1];
    let b = vec![2, 1];
    let carries = vec![1]; // no overflow
    let witness_values = [a, b, carries].concat();
    verify::<32, 16>(witness_values, None, false);
}

#[test]
fn test_add32_5_w_carry() {
    // a = 31
    // b = 2 + 1 * 2^5
    // c = 1 + 1 * 2^5 with carries [1, 0, 0, 0]
    let a = vec![31, 1, 0, 0, 0, 0, 0];
    let b = vec![2, 1, 0, 0, 0, 0, 0];
    let carries = vec![1, 0, 0, 0, 0, 0]; // no overflow
    let witness_values = [a, b, carries].concat();
    verify::<32, 5>(witness_values, None, false);
}

#[test]
fn test_add_const64_16_no_carries() {
    // a = 1 + 1 * 2^16
    // const b = 2
    // c = 3 + 1 * 2^16 with 0 carries
    let a = vec![1, 1, 0, 0];
    let carries = vec![0; 3]; // no overflow
    let witness_values = [a, carries].concat();
    verify::<64, 16>(witness_values, Some(2), false);
}

#[test]
fn test_add_const64_16_w_carries() {
    // a = 65535 + 65534 * 2^16
    // const b =   2   +   1   * 2^16 = 65,538
    // c =   1   +   0   * 2^16 + 1 * 2^32 with carries [1, 1, 0, 0]
    let a = vec![0xFFFF, 0xFFFE, 0, 0];
    let carries = vec![1, 1, 0]; // no overflow
    let witness_values = [a, carries].concat();
    verify::<64, 16>(witness_values, Some(65538), false);
}

#[test]
fn test_add_const32_16_w_carry() {
    // a = 65535 + 1 * 2^16
    // const b =   2   + 1 * 2^16 = 65,538
    // c =   1   + 3 * 2^16 with carries [1]
    let a = vec![0xFFFF, 1];
    let carries = vec![1]; // no overflow
    let witness_values = [a, carries].concat();
    verify::<32, 16>(witness_values, Some(65538), false);
}

#[test]
fn test_add_const32_5_w_carry() {
    // a = 31
    // const b = 2 + 1 * 2^5 = 34
    // c = 1 + 1 * 2^5 with carries [1, 0, 0, 0]
    let a = vec![31, 1, 0, 0, 0, 0, 0];
    let carries = vec![1, 0, 0, 0, 0, 0]; // no overflow
    let witness_values = [a, carries].concat();
    verify::<32, 5>(witness_values, Some(34), false);
}

fn verify<const M: usize, const C: usize>(
    witness_values: Vec<u64>,
    const_b: Option<u64>,
    overflow: bool,
) {
    let cs = ConstraintSystem::new("test_add");
    let mut cb = CircuitBuilder::new(cs);
    let challenges: Vec<Fp> = (0..witness_values.len()).map(|_| Fp::from_u64(1)).collect();

    let uint_a = UInt::<M, C>::new("uint_a", &mut cb).unwrap();
    let uint_c = if const_b.is_none() {
        let uint_b = UInt::<M, C>::new("uint_b", &mut cb).unwrap();
        uint_a.add("uint_c", &mut cb, &uint_b, overflow).unwrap()
    } else {
        let const_b = Expression::Constant(Fp::from_u64(const_b.unwrap()));
        uint_a.add_const("uint_c", &mut cb, const_b, overflow).unwrap()
    };

    let pow_of_c: u64 = 1u64 << C;
    let single_wit_size = (M + C - 1) / C;

    let a = &witness_values[0..single_wit_size];
    let mut const_b_pre_allocated = vec![0u64; single_wit_size];
    let b = if const_b.is_none() {
        &witness_values[single_wit_size..2 * single_wit_size]
    } else {
        let b = const_b.unwrap();
        let limb_bit_mask: u64 = (1 << C) - 1;
        const_b_pre_allocated
            .iter_mut()
            .enumerate()
            .for_each(|(i, limb)| *limb = (b >> (C * i)) & limb_bit_mask);
        &const_b_pre_allocated
    };

    // the num of witness is 3, a, b and c_carries if it's a `add`
    // only the num is 2 if it's a `add_const` bcs there is no `b`
    let num_witness = if const_b.is_none() { 3 } else { 2 };
    let wit_end_idx = if overflow {
        num_witness * single_wit_size
    } else {
        num_witness * single_wit_size - 1
    };
    let carries = &witness_values[(num_witness - 1) * single_wit_size..wit_end_idx];

    // limbs cal.
    let mut result = vec![0u64; single_wit_size];
    a.iter()
        .zip(b)
        .enumerate()
        .for_each(|(i, (&limb_a, &limb_b))| {
            let carry = carries.get(i);
            result[i] = limb_a + limb_b;
            if i != 0 {
                result[i] += carries[i - 1];
            }
            if !overflow && carry.is_some() {
                result[i] -= carry.unwrap() * pow_of_c;
            }
        });

    // verify
    let wit: Vec<Fp> = witness_values.iter().map(|&w| Fp::from_u64(w)).collect();
    uint_c.expr().iter().zip(result).for_each(|(c, ret)| {
        assert_eq!(eval_by_expr(&wit, &challenges, c), Fp::from_u64(ret));
    });

    // overflow
    if overflow {
        let carries = uint_c.carries.unwrap();
        let last_carry = carries.last().unwrap().expr();
        assert_eq!(eval_by_expr(&wit, &challenges, &last_carry), Fp::from_u64(1));
    } else {
        // non-overflow case, the len of carries should be (NUM_CELLS - 1)
        assert_eq!(uint_c.carries.unwrap().len(), single_wit_size - 1)
    }
}
