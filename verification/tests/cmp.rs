use zkvm_gadgets::{
    CircuitBuilder, ConstraintSystem, Fp, ROMType, UInt, FIELD_MODULUS,
};

fn fp(v: u64) -> Fp {
    Fp::from_u64(v)
}

/// Checks that every registered constraint vanishes and every lookup
/// query hits its table on the given witness row.
fn check_satisfied(cs: &ConstraintSystem, wit: &Vec<Fp>) {
    let chal: Vec<Fp> = Vec::new();
    for (i, c) in cs.constraints.iter().enumerate() {
        let v = c.eval_on(wit, &chal).val;
        assert_eq!(v, 0, "constraint {} evaluates to {}", i, v);
    }
    for (i, q) in cs.lookups.iter().enumerate() {
        let vals: Vec<u64> = q.args.iter().map(|a| a.eval_on(wit, &chal).val).collect();
        let ok = match q.rom_type {
            ROMType::U5 => vals.len() == 1 && vals[0] < 32,
            ROMType::U16 => vals.len() == 1 && vals[0] < 65536,
            ROMType::And => {
                vals.len() == 3 && vals[1] < 256 && vals[2] < 256
                    && vals[0] == (vals[1] & vals[2])
            },
            ROMType::Ltu => {
                vals.len() == 3 && vals[1] < 256 && vals[2] < 256
                    && vals[0] == (if vals[1] < vals[2] { 1 } else { 0 })
            },
        };
        assert!(ok, "lookup {} rejected: {:?}", i, vals);
    }
}

#[test]
fn ltu_limb8_accepts_greater_left_operand() {
    // a = [7, 9] = 2311, b = [6, 9] = 2310: the marked differing byte is
    // position 0 and the comparison bit is 0.
    let cs = ConstraintSystem::new("ltu");
    let mut cb = CircuitBuilder::new(cs);
    let a = UInt::<16, 8>::new("a", &mut cb).unwrap();
    let b = UInt::<16, 8>::new("b", &mut cb).unwrap();
    let config = a.ltu_limb8(&mut cb, &b).unwrap();
    assert_eq!(config.indexes.len(), 2);
    assert_eq!(config.is_ltu.id, 11);
    let cs = cb.finish();
    assert_eq!(cs.num_witin, 12);
    // Cells: a[0..2], b[2..4], indexes[4..6], inverse 6, accumulated
    // flags [7..9], marked pair 9 and 10, comparison bit 11.
    let wit: Vec<Fp> = vec![7, 9, 6, 9, 1, 0, 1, 1, 0, 7, 6, 0].into_iter().map(fp).collect();
    check_satisfied(&cs, &wit);
}

#[test]
fn ltu_limb8_accepts_smaller_left_operand() {
    // The mirrored pair: a = [6, 9], b = [7, 9], comparison bit 1; the
    // byte difference inverse is -1.
    let cs = ConstraintSystem::new("ltu");
    let mut cb = CircuitBuilder::new(cs);
    let a = UInt::<16, 8>::new("a", &mut cb).unwrap();
    let b = UInt::<16, 8>::new("b", &mut cb).unwrap();
    let _config = a.ltu_limb8(&mut cb, &b).unwrap();
    let cs = cb.finish();
    let minus_one = FIELD_MODULUS - 1;
    let wit: Vec<Fp> = vec![6, 9, 7, 9, 1, 0, minus_one, 1, 0, 6, 7, 1]
        .into_iter()
        .map(fp)
        .collect();
    check_satisfied(&cs, &wit);
}

#[test]
fn ltu_limb8_accepts_equal_operands() {
    // Equal operands: no byte is marked, both masked sums vanish, and the
    // comparison bit is 0.
    let cs = ConstraintSystem::new("ltu");
    let mut cb = CircuitBuilder::new(cs);
    let a = UInt::<16, 8>::new("a", &mut cb).unwrap();
    let b = UInt::<16, 8>::new("b", &mut cb).unwrap();
    let _config = a.ltu_limb8(&mut cb, &b).unwrap();
    let cs = cb.finish();
    let wit: Vec<Fp> = vec![5, 5, 5, 5, 0, 0, 0, 0, 0, 0, 0, 0].into_iter().map(fp).collect();
    check_satisfied(&cs, &wit);
}

#[test]
fn msb_decompose_isolates_top_bit() {
    let cs = ConstraintSystem::new("msb");
    let mut cb = CircuitBuilder::new(cs);
    let a = UInt::<16, 8>::new("a", &mut cb).unwrap();
    let config = a.msb_decompose(&mut cb).unwrap();
    assert_eq!(config.high_limb_no_msb.id, 2);
    assert_eq!(config.msb.id, 3);
    let cs = cb.finish();
    // High limb 0x93: masked remainder 0x13, sign bit 1.
    let wit: Vec<Fp> = vec![0x40, 0x93, 0x13, 1].into_iter().map(fp).collect();
    check_satisfied(&cs, &wit);
    // High limb 0x13: masked remainder 0x13, sign bit 0.
    let wit: Vec<Fp> = vec![0x40, 0x13, 0x13, 0].into_iter().map(fp).collect();
    check_satisfied(&cs, &wit);
}

#[test]
fn lt_limb8_follows_the_sign_rule() {
    // a = [0x80] (signed -128), b = [0x01] (signed 1): a < b, so the
    // result bit is 1 although unsigned a exceeds b.
    let cs = ConstraintSystem::new("lt");
    let mut cb = CircuitBuilder::new(cs);
    let a = UInt::<8, 8>::new("a", &mut cb).unwrap();
    let b = UInt::<8, 8>::new("b", &mut cb).unwrap();
    let config = a.lt_limb8(&mut cb, &b).unwrap();
    assert_eq!(config.is_lt.id, 2);
    let cs = cb.finish();
    assert_eq!(cs.num_witin, 15);
    let minus_one = FIELD_MODULUS - 1;
    // Cells: a 0, b 1, is_lt 2, lhs masked 3 / sign 4, rhs masked 5 /
    // sign 6, index 7, inverse 8, accumulated flag 9, marked pair 10 and
    // 11, unsigned bit 12, sign-equality pair 13 and 14.
    let wit: Vec<Fp> = vec![0x80, 0x01, 1, 0, 1, 1, 0, 1, minus_one, 1, 0, 1, 1, 0, 1]
        .into_iter()
        .map(fp)
        .collect();
    check_satisfied(&cs, &wit);
}

#[test]
fn lt_placeholder_reads_lowest_limb() {
    let cs = ConstraintSystem::new("lt_placeholder");
    let mut cb = CircuitBuilder::new(cs);
    let a = UInt::<32, 16>::new("a", &mut cb).unwrap();
    let b = UInt::<32, 16>::new("b", &mut cb).unwrap();
    let e = a.lt(&mut cb, &b).unwrap();
    let wit: Vec<Fp> = vec![9, 0, 0, 0].into_iter().map(fp).collect();
    let chal = Vec::new();
    assert_eq!(e.eval_on(&wit, &chal).val, 10);
}
