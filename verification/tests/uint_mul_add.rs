use zkvm_gadgets::{CircuitBuilder, ConstraintSystem, Expression, Fp, UInt};

fn eval_by_expr(wit: &Vec<Fp>, challenges: &Vec<Fp>, e: &Expression) -> Fp {
    e.eval_on(wit, challenges)
}

#[test]
fn test_add_mul() {
    // c = a + b
    // e = c * d

    // a = 1 + 1 * 2^16
    // b = 2 + 1 * 2^16
    // ==> c = 3 + 2 * 2^16 with 0 carries
    // d = 1 + 1 * 2^16
    // ==> e = 3 + 5 * 2^16 + 2 * 2^32 = 8,590,262,275
    let a = vec![1, 1, 0, 0];
    let b = vec![2, 1, 0, 0];
    let c_carries = vec![0; 3]; // no overflow bit
    // witness of e = c * d
    let new_c = vec![3, 2, 0, 0];
    let new_c_carries = c_carries.clone();
    let d = vec![1, 1, 0, 0];
    let e = vec![3, 5, 2, 0];
    let e_carries = vec![0; 4];

    let witness_values: Vec<Fp> = [
        a,
        b,
        c_carries.clone(),
        // e = c * d
        d,
        e.clone(),
        e_carries.clone(),
        new_c,
        new_c_carries,
    ]
    .concat()
    .iter()
    .map(|&v| Fp::from_u64(v))
    .collect();

    let cs = ConstraintSystem::new("test_add_mul");
    let mut cb = CircuitBuilder::new(cs);
    let challenges: Vec<Fp> = (0..witness_values.len()).map(|_| Fp::from_u64(1)).collect();

    let uint_a = UInt::<64, 16>::new("uint_a", &mut cb).unwrap();
    let uint_b = UInt::<64, 16>::new("uint_b", &mut cb).unwrap();
    let mut uint_c = uint_a.add("uint_c", &mut cb, &uint_b, false).unwrap();
    let mut uint_d = UInt::<64, 16>::new("uint_d", &mut cb).unwrap();
    let uint_e = uint_c.mul("uint_e", &mut cb, &mut uint_d, false).unwrap();

    uint_e.expr().iter().enumerate().for_each(|(i, ret)| {
        // limbs check
        assert_eq!(
            eval_by_expr(&witness_values, &challenges, ret),
            Fp::from_u64(e.clone()[i])
        );
    });
}

#[test]
fn test_add_mul2() {
    // c = a + b
    // f = d + e
    // g = c * f

    // a = 1 + 1 * 2^16
    // b = 2 + 1 * 2^16
    // ==> c = 3 + 2 * 2^16 with 0 carries
    // d = 1 + 1 * 2^16
    // e = 2 + 1 * 2^16
    // ==> f = 3 + 2 * 2^16 with 0 carries
    // ==> e = 9 + 12 * 2^16 + 4 * 2^32 = 17,180,655,625
    let a = vec![1, 1, 0, 0];
    let b = vec![2, 1, 0, 0];
    let c_carries = vec![0; 3]; // no overflow
    // witness of g = c * f
    let new_c = vec![3, 2, 0, 0];
    let new_c_carries = c_carries.clone();
    let g = vec![9, 12, 4, 0];
    let g_carries = vec![0; 4];

    let witness_values: Vec<Fp> = [
        // c = a + b
        a.clone(),
        b.clone(),
        c_carries.clone(),
        // f = d + e
        a,
        b,
        c_carries.clone(),
        // g = c * f
        g.clone(),
        g_carries,
        new_c.clone(),
        new_c_carries.clone(),
        new_c,
        new_c_carries,
    ]
    .concat()
    .iter()
    .map(|&v| Fp::from_u64(v))
    .collect();

    let cs = ConstraintSystem::new("test_add_mul2");
    let mut cb = CircuitBuilder::new(cs);
    let challenges: Vec<Fp> = (0..witness_values.len()).map(|_| Fp::from_u64(1)).collect();

    let uint_a = UInt::<64, 16>::new("uint_a", &mut cb).unwrap();
    let uint_b = UInt::<64, 16>::new("uint_b", &mut cb).unwrap();
    let mut uint_c = uint_a.add("uint_c", &mut cb, &uint_b, false).unwrap();
    let uint_d = UInt::<64, 16>::new("uint_d", &mut cb).unwrap();
    let uint_e = UInt::<64, 16>::new("uint_e", &mut cb).unwrap();
    let mut uint_f = uint_d.add("uint_f", &mut cb, &uint_e, false).unwrap();
    let uint_g = uint_c.mul("unit_g", &mut cb, &mut uint_f, false).unwrap();

    uint_g.expr().iter().enumerate().for_each(|(i, ret)| {
        // limbs check
        assert_eq!(
            eval_by_expr(&witness_values, &challenges, ret),
            Fp::from_u64(g.clone()[i])
        );
    });
}

#[test]
fn test_mul_add() {
    // c = a * b
    // e = c + d

    // a = 1 + 1 * 2^16
    // b = 2 + 1 * 2^16
    // ==> c = 2 + 3 * 2^16 + 1 * 2^32
    // d = 1 + 1 * 2^16
    // ==> e = 3 + 4 * 2^16 + 1 * 2^32
    let a = vec![1, 1, 0, 0];
    let b = vec![2, 1, 0, 0];
    let c = vec![2, 3, 1, 0];
    let c_carries = vec![0; 3];
    // e = c + d
    let d = vec![1, 1, 0, 0];
    let e = vec![3, 4, 1, 0];
    let e_carries = vec![0; 3];

    let witness_values: Vec<Fp> = [a, b, c, c_carries, d, e_carries]
        .concat()
        .iter()
        .map(|&v| Fp::from_u64(v))
        .collect();

    let cs = ConstraintSystem::new("test_mul_add");
    let mut cb = CircuitBuilder::new(cs);
    let challenges: Vec<Fp> = (0..witness_values.len()).map(|_| Fp::from_u64(1)).collect();

    let mut uint_a = UInt::<64, 16>::new("uint_a", &mut cb).unwrap();
    let mut uint_b = UInt::<64, 16>::new("uint_b", &mut cb).unwrap();
    let uint_c = uint_a.mul("uint_c", &mut cb, &mut uint_b, false).unwrap();
    let uint_d = UInt::<64, 16>::new("uint_d", &mut cb).unwrap();
    let uint_e = uint_c.add("uint_e", &mut cb, &uint_d, false).unwrap();

    uint_e.expr().iter().enumerate().for_each(|(i, ret)| {
        // limbs check
        assert_eq!(
            eval_by_expr(&witness_values, &challenges, ret),
            Fp::from_u64(e.clone()[i])
        );
    });
}
