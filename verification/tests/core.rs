use zkvm_gadgets::{
    CircuitBuilder, ConstraintSystem, Expression, Fp, ROMType, RowMajorMatrix, UInt,
    FIELD_MODULUS,
};

fn fp(v: u64) -> Fp {
    Fp::from_u64(v)
}

#[test]
fn field_ops_reduce_modulo() {
    // (P - 1) + 1 wraps to zero.
    let x = fp(FIELD_MODULUS - 1);
    assert_eq!(x.add(Fp::one()).val, 0);
    // 0 - 1 wraps to P - 1.
    assert_eq!(Fp::zero().sub(Fp::one()).val, FIELD_MODULUS - 1);
    // 2^32 * 2^32 = 2^64 = 2^32 - 1 modulo P.
    let two32 = fp(1u64 << 32);
    assert_eq!(two32.mul(two32).val, (1u64 << 32) - 1);
    // The scaling constant used for the sign bit really inverts 128.
    assert_eq!(fp(128).mul(fp(zkvm_gadgets::uint_cmp::INV_128)).val, 1);
}

#[test]
fn expression_evaluates_on_witness_row() {
    // (w0 + w1) * c0 with w0 = 2, w1 = 3, challenge c0 = 4.
    let e = Expression::WitIn(0)
        .add_expr(Expression::WitIn(1))
        .mul_expr(Expression::Challenge(0));
    let wit = vec![fp(2), fp(3)];
    let chal = vec![fp(4)];
    assert_eq!(e.eval_on(&wit, &chal).val, 20);
    // Subtraction wraps into the field.
    let d = Expression::WitIn(1).sub_expr(Expression::WitIn(0));
    assert_eq!(d.eval_on(&wit, &chal).val, 1);
    let d2 = Expression::WitIn(0).sub_expr(Expression::WitIn(1));
    assert_eq!(d2.eval_on(&wit, &chal).val, FIELD_MODULUS - 1);
}

#[test]
fn builder_allocates_cells_and_lookups() {
    let cs = ConstraintSystem::new("builder");
    let mut cb = CircuitBuilder::new(cs);
    let w0 = cb.create_witin("w0").unwrap();
    let w1 = cb.create_witin("w1").unwrap();
    assert_eq!(w0.id, 0);
    assert_eq!(w1.id, 1);
    cb.assert_ux::<16>("w0_range", w0.expr()).unwrap();
    cb.assert_ux::<5>("w1_range", w1.expr()).unwrap();
    cb.assert_ux::<8>("w0_byte", w0.expr()).unwrap();
    let cs = cb.finish();
    assert_eq!(cs.num_witin, 2);
    assert_eq!(cs.lookups.len(), 3);
    assert_eq!(cs.lookups[0].rom_type, ROMType::U16);
    assert_eq!(cs.lookups[1].rom_type, ROMType::U5);
    assert_eq!(cs.lookups[2].rom_type, ROMType::And);
    // The byte check queries (w0, w0, 255).
    assert_eq!(cs.lookups[2].args.len(), 3);
}

#[test]
fn builder_is_equal_registers_two_constraints() {
    let cs = ConstraintSystem::new("is_equal");
    let mut cb = CircuitBuilder::new(cs);
    let w0 = cb.create_witin("w0").unwrap();
    let w1 = cb.create_witin("w1").unwrap();
    let (is_eq, diff_inv) = cb.is_equal(w0.expr(), w1.expr()).unwrap();
    assert_eq!(is_eq.id, 2);
    assert_eq!(diff_inv.id, 3);
    let cs = cb.finish();
    assert_eq!(cs.constraints.len(), 2);
    // Honest witness for equal values: boolean 1, inverse 0.
    let wit = vec![fp(6), fp(6), fp(1), fp(0)];
    let chal = Vec::new();
    for c in &cs.constraints {
        assert_eq!(c.eval_on(&wit, &chal).val, 0);
    }
    // Honest witness for unequal values 7 and 6: boolean 0, inverse 1.
    let wit = vec![fp(7), fp(6), fp(0), fp(1)];
    for c in &cs.constraints {
        assert_eq!(c.eval_on(&wit, &chal).val, 0);
    }
}

#[test]
fn materialized_limbs_carry_range_lookups() {
    let cs = ConstraintSystem::new("range");
    let mut cb = CircuitBuilder::new(cs);
    let _a = UInt::<64, 16>::new("a", &mut cb).unwrap();
    let cs = cb.finish();
    assert_eq!(cs.num_witin, 4);
    assert_eq!(cs.lookups.len(), 4);
    for q in &cs.lookups {
        assert_eq!(q.rom_type, ROMType::U16);
    }
    // An in-range witness value passes the table bound, an out-of-range
    // value does not.
    let wit = vec![fp(65535), fp(0), fp(0), fp(0)];
    let chal = Vec::new();
    let first = cs.lookups[0].args[0].eval_on(&wit, &chal).val;
    assert!(first < 65536);
    let wit = vec![fp(70000), fp(0), fp(0), fp(0)];
    let first = cs.lookups[0].args[0].eval_on(&wit, &chal).val;
    assert!(!(first < 65536));
}

#[test]
fn wrong_carry_breaks_a_range_lookup() {
    // a = [0xFFFF, 0], b = [1, 0]: the true carry chain is [1]; an
    // intentionally wrong binary carry drives limb 0 out of range.
    let cs = ConstraintSystem::new("wrong_carry");
    let mut cb = CircuitBuilder::new(cs);
    let a = UInt::<32, 16>::new("a", &mut cb).unwrap();
    let b = UInt::<32, 16>::new("b", &mut cb).unwrap();
    let c = a.add("c", &mut cb, &b, false).unwrap();
    let chal = Vec::new();
    // Correct witness: carry cell (id 4) holds 1.
    let wit = vec![fp(0xFFFF), fp(0), fp(1), fp(0), fp(1)];
    let limbs = c.expr();
    assert_eq!(limbs[0].eval_on(&wit, &chal).val, 0);
    assert_eq!(limbs[1].eval_on(&wit, &chal).val, 1);
    // Wrong carry 0: limb 0 evaluates to 0x10000, outside the table.
    let wit = vec![fp(0xFFFF), fp(0), fp(1), fp(0), fp(0)];
    let v = limbs[0].eval_on(&wit, &chal).val;
    assert!(!(v < 65536));
}

#[test]
fn add_with_overflow_keeps_top_carry() {
    // a = 2^32 - 1, b = 1: with overflow permitted the limbs wrap to zero
    // and the retained top carry evaluates to 1.
    let cs = ConstraintSystem::new("overflow");
    let mut cb = CircuitBuilder::new(cs);
    let a = UInt::<32, 16>::new("a", &mut cb).unwrap();
    let b = UInt::<32, 16>::new("b", &mut cb).unwrap();
    let c = a.add("c", &mut cb, &b, true).unwrap();
    let chal = Vec::new();
    // Cells: a[0..2], b[2..4], carries[4..6].
    let wit: Vec<Fp> = vec![0xFFFF, 0xFFFF, 1, 0, 1, 1].into_iter().map(fp).collect();
    let limbs = c.expr();
    assert_eq!(limbs[0].eval_on(&wit, &chal).val, 0);
    assert_eq!(limbs[1].eval_on(&wit, &chal).val, 0);
    let carries = c.carries.unwrap();
    assert_eq!(carries.len(), 2);
    assert_eq!(carries.last().unwrap().expr().eval_on(&wit, &chal).val, 1);
}

#[test]
fn row_major_matrix_stores_cells() {
    let mut m = RowMajorMatrix::new(3, 2);
    assert_eq!(m.num_cols, 2);
    assert_eq!(m.num_rows(), 3);
    m.set(1, 1, fp(42));
    assert_eq!(m.get(1, 1).val, 42);
    assert_eq!(m.get(0, 0).val, 0);
}

#[test]
fn uint_eq_constrains_each_limb() {
    let cs = ConstraintSystem::new("uint_eq");
    let mut cb = CircuitBuilder::new(cs);
    let a = UInt::<64, 16>::new("a", &mut cb).unwrap();
    let b = UInt::<64, 16>::new("b", &mut cb).unwrap();
    a.eq("a_eq_b", &mut cb, &b).unwrap();
    let cs = cb.finish();
    assert_eq!(cs.constraints.len(), 4);
    let chal = Vec::new();
    let wit: Vec<Fp> = vec![1, 2, 3, 4, 1, 2, 3, 4].into_iter().map(fp).collect();
    for c in &cs.constraints {
        assert_eq!(c.eval_on(&wit, &chal).val, 0);
    }
    // A differing limb violates its equality constraint.
    let wit: Vec<Fp> = vec![1, 2, 3, 4, 1, 2, 9, 4].into_iter().map(fp).collect();
    assert!(cs.constraints[2].eval_on(&wit, &chal).val != 0);
}

#[test]
fn uint_is_equal_aggregates_limb_flags() {
    let cs = ConstraintSystem::new("uint_is_equal");
    let mut cb = CircuitBuilder::new(cs);
    let a = UInt::<32, 16>::new("a", &mut cb).unwrap();
    let b = UInt::<32, 16>::new("b", &mut cb).unwrap();
    let config = a.is_equal(&mut cb, &b).unwrap();
    assert_eq!(config.is_equal_per_limb.len(), 2);
    assert_eq!(config.diff_inv_per_limb.len(), 2);
    // Two cells per limb pair, then the sum cell and the final pair.
    assert_eq!(config.is_equal.id, 9);
    assert_eq!(config.diff_inv.id, 10);
    let cs = cb.finish();
    // Equal operands: all flags 1, sum 2, final boolean 1.
    let wit: Vec<Fp> = vec![5, 6, 5, 6, 1, 0, 1, 0, 2, 1, 0].into_iter().map(fp).collect();
    let chal = Vec::new();
    for c in &cs.constraints {
        assert_eq!(c.eval_on(&wit, &chal).val, 0);
    }
}
