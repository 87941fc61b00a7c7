use zkvm_gadgets::{CircuitBuilder, ConstraintSystem, Expression, Fp, UInt};

fn eval_by_expr(wit: &Vec<Fp>, challenges: &Vec<Fp>, e: &Expression) -> Fp {
    e.eval_on(wit, challenges)
}

#[test]
fn test_mul64_16_no_carries() {
    // a = 1 + 1 * 2^16
    // b = 2 + 1 * 2^16
    // c = 2 + 3 * 2^16 + 1 * 2^32 = 4,295,163,906
    let wit_a = vec![1, 1, 0, 0];
    let wit_b = vec![2, 1, 0, 0];
    let wit_c = vec![2, 3, 1, 0];
    let wit_carries = vec![0, 0, 0];
    let witness_values = [wit_a, wit_b, wit_c, wit_carries].concat();
    verify::<64, 16>(witness_values, false);
}

#[test]
fn test_mul64_16_w_carry() {
    // a = 256 + 1 * 2^16
    // b = 257 + 1 * 2^16
    // c = 256 + 514 * 2^16 + 1 * 2^32 = 4,328,653,056
    let wit_a = vec![256, 1, 0, 0];
    let wit_b = vec![257, 1, 0, 0];
    let wit_c = vec![256, 514, 1, 0];
    let wit_carries = vec![1, 0, 0];
    let witness_values = [wit_a, wit_b, wit_c, wit_carries].concat();
    verify::<64, 16>(witness_values, false);
}

#[test]
fn test_mul64_16_w_carries() {
    // a = 256 + 256 * 2^16 = 16,777,472
    // b = 257 + 256 * 2^16 = 16,777,473
    // c = 256 + 257 * 2^16 + 2 * 2^32 + 1 * 2^48 = 281,483,583,488,256
    let wit_a = vec![256, 256, 0, 0];
    let wit_b = vec![257, 256, 0, 0];
    // result = [256 * 257, 256*256 + 256*257, 256*256, 0]
    // ==> [256 + 1 * (2^16), 256 + 2 * (2^16), 0 + 1 * (2^16), 0]
    // so we get wit_c = [256, 256, 0, 0] and carries = [1, 2, 1, 0]
    let wit_c = vec![256, 257, 2, 1];
    let wit_carries = vec![1, 2, 1];
    let witness_values = [wit_a, wit_b, wit_c, wit_carries].concat();
    verify::<64, 16>(witness_values, false);
}

#[test]
fn test_mul64_16_w_overflow() {
    // 18,446,744,073,709,551,616
    // a = 1 * 2^16 + 1 * 2^32 = 4,295,032,832
    // b =            1 * 2^32 = 4,294,967,296
    // c = 1 * 2^48 + 1 * 2^64 = 18,447,025,548,686,262,272
    let wit_a = vec![0, 1, 1, 0];
    let wit_b = vec![0, 0, 1, 0];
    let wit_c = vec![0, 0, 0, 1];
    let wit_carries = vec![0, 0, 0, 1];
    let witness_values = [wit_a, wit_b, wit_c, wit_carries].concat();
    verify::<64, 16>(witness_values, true);
}

#[test]
fn test_mul64_8_w_carries() {
    // a = 256
    // b = 257
    // c = 254 + 1 * 2^16 = 510
    let wit_a = vec![255, 0, 0, 0, 0, 0, 0, 0];
    let wit_b = vec![2, 0, 0, 0, 0, 0, 0, 0];
    let wit_c = vec![254, 1, 0, 0, 0, 0, 0, 0];
    let wit_carries = vec![1, 0, 0, 0, 0, 0, 0];
    let witness_values = [wit_a, wit_b, wit_c, wit_carries].concat();
    verify::<64, 8>(witness_values, false);
}

#[test]
fn test_mul32_16_w_carries() {
    // a = 256
    // b = 257
    // c = 256 + 1 * 2^16 = 65,792
    let wit_a = vec![256, 0];
    let wit_b = vec![257, 0];
    let wit_c = vec![256, 1];
    let wit_carries = vec![1, 0];
    let witness_values = [wit_a, wit_b, wit_c, wit_carries].concat();
    verify::<32, 16>(witness_values, false);
}

#[test]
fn test_mul32_5_w_carries() {
    // a = 31
    // b = 2
    // c = 30 + 1 * 2^8 = 62
    let wit_a = vec![31, 0, 0, 0, 0, 0, 0];
    let wit_b = vec![2, 0, 0, 0, 0, 0, 0];
    let wit_c = vec![30, 1, 0, 0, 0, 0, 0];
    let wit_carries = vec![1, 0, 0, 0, 0, 0];
    let witness_values = [wit_a, wit_b, wit_c, wit_carries].concat();
    verify::<32, 5>(witness_values, false);
}

fn verify<const M: usize, const C: usize>(witness_values: Vec<u64>, overflow: bool) {
    let cs = ConstraintSystem::new("test_mul");
    let mut cb = CircuitBuilder::new(cs);
    let challenges: Vec<Fp> = (0..witness_values.len()).map(|_| Fp::from_u64(1)).collect();

    let mut uint_a = UInt::<M, C>::new("uint_a", &mut cb).unwrap();
    let mut uint_b = UInt::<M, C>::new("uint_b", &mut cb).unwrap();
    let uint_c = uint_a.mul("uint_c", &mut cb, &mut uint_b, overflow).unwrap();

    let pow_of_c: u64 = 1u64 << C;
    let single_wit_size = (M + C - 1) / C;
    let wit_end_idx = if overflow {
        4 * single_wit_size
    } else {
        4 * single_wit_size - 1
    };
    let a = &witness_values[0..single_wit_size];
    let b = &witness_values[single_wit_size..2 * single_wit_size];
    let carries = &witness_values[3 * single_wit_size..wit_end_idx];

    // limbs cal.
    let mut result = vec![0u64; single_wit_size];
    a.iter().enumerate().for_each(|(i, a_limb)| {
        b.iter().enumerate().for_each(|(j, b_limb)| {
            let idx = i + j;
            if idx < single_wit_size {
                result[idx] += a_limb * b_limb;
            }
        });
    });

    // take care carries
    result.iter_mut().enumerate().for_each(|(i, ret)| {
        if i != 0 {
            *ret += carries[i - 1];
        }
        if !overflow && carries.get(i).is_some() {
            *ret -= carries[i] * pow_of_c;
        }
    });

    // verify
    let wit: Vec<Fp> = witness_values.iter().map(|&w| Fp::from_u64(w)).collect();
    uint_c.expr().iter().zip(result).for_each(|(c, ret)| {
        assert_eq!(eval_by_expr(&wit, &challenges, c), Fp::from_u64(ret));
    });

    // overflow
    if overflow {
        let carries = uint_c.carries.unwrap();
        let overflow_expr = carries.last().unwrap().expr();
        assert_eq!(eval_by_expr(&wit, &challenges, &overflow_expr), Fp::from_u64(1));
    } else {
        // non-overflow case, the len of carries should be (NUM_CELLS - 1)
        assert_eq!(uint_c.carries.unwrap().len(), single_wit_size - 1)
    }
}
