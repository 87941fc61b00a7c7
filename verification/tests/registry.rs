use zkvm_gadgets::{
    CircuitBuilder, ConstraintSystem, Fp, Instruction, InstructionConfig, LkMultiplicity, LkTable,
    ROMType, RowMajorMatrix, StepRecord, TableCircuit, TableConfig, UInt, ZKVMConstraintSystem,
    ZKVMError, ZKVMFixedTraces, ZKVMProvingKey, ZKVMWitnesses, ProvingKey, VerifyingKey,
};

struct AddCircuit;

impl Instruction for AddCircuit {
    fn name() -> String {
        String::from("add64")
    }

    fn construct_circuit(cb: &mut CircuitBuilder) -> Result<InstructionConfig, ZKVMError> {
        let a = UInt::<64, 16>::new("a", cb)?;
        let b = UInt::<64, 16>::new("b", cb)?;
        let _c = a.add("c", cb, &b, false)?;
        Ok(InstructionConfig { witins: Vec::new() })
    }

    fn assign_instances(
        _config: &InstructionConfig,
        num_witin: usize,
        records: Vec<StepRecord>,
    ) -> Result<(RowMajorMatrix, LkMultiplicity), ZKVMError> {
        let matrix = RowMajorMatrix::new(records.len(), num_witin);
        let mut mlt = LkMultiplicity::new();
        for record in &records {
            mlt.increment(ROMType::U16, record.rs1_value % 65536);
        }
        Ok((matrix, mlt))
    }
}

struct SecondCircuit;

impl Instruction for SecondCircuit {
    fn name() -> String {
        String::from("second64")
    }

    fn construct_circuit(cb: &mut CircuitBuilder) -> Result<InstructionConfig, ZKVMError> {
        let a = UInt::<64, 16>::new("a", cb)?;
        let b = UInt::<64, 16>::new("b", cb)?;
        let _ok = a.eq("eq", cb, &b)?;
        Ok(InstructionConfig { witins: Vec::new() })
    }

    fn assign_instances(
        _config: &InstructionConfig,
        num_witin: usize,
        records: Vec<StepRecord>,
    ) -> Result<(RowMajorMatrix, LkMultiplicity), ZKVMError> {
        let matrix = RowMajorMatrix::new(records.len(), num_witin);
        let mut mlt = LkMultiplicity::new();
        mlt.increment(ROMType::U16, 7);
        mlt.increment(ROMType::U16, 7);
        mlt.increment(ROMType::And, 3);
        Ok((matrix, mlt))
    }
}

struct RangeTable;

impl TableCircuit for RangeTable {
    fn name() -> String {
        String::from("u16_range")
    }

    fn construct_circuit(cb: &mut CircuitBuilder) -> Result<TableConfig, ZKVMError> {
        let w = cb.create_witin("multiplicity")?;
        Ok(TableConfig { witins: vec![w] })
    }

    fn generate_fixed_traces(_config: &TableConfig, num_fixed: usize) -> RowMajorMatrix {
        RowMajorMatrix::new(8, num_fixed)
    }

    fn assign_instances(
        _config: &TableConfig,
        num_witin: usize,
        multiplicities: &Vec<LkTable>,
    ) -> Result<RowMajorMatrix, ZKVMError> {
        assert_eq!(multiplicities.len(), 4);
        Ok(RowMajorMatrix::new(4, num_witin))
    }
}

fn record(v: u64) -> StepRecord {
    StepRecord {
        kind: zkvm_gadgets::InsnKind::BEQ,
        pc_before: 0,
        pc_after: 4,
        rs1_value: v,
        rs2_value: 0,
        rd_value: 0,
    }
}

#[test]
fn registry_pipeline_runs_in_order() {
    let mut css = ZKVMConstraintSystem::default();
    let add_config = css.register_opcode_circuit::<AddCircuit>().unwrap();
    let table_config = css.register_table_circuit::<RangeTable>().unwrap();
    assert!(css.get_cs(&String::from("add64")).is_some());
    assert!(css.get_cs(&String::from("u16_range")).is_some());
    assert!(css.get_cs(&String::from("missing")).is_none());

    let mut fixed = ZKVMFixedTraces::default();
    fixed.register_opcode_circuit::<AddCircuit>(&css).unwrap();
    fixed.register_table_circuit::<RangeTable>(&css, table_config).unwrap();
    assert_eq!(fixed.circuit_fixed_traces.len(), 2);
    assert!(fixed.circuit_fixed_traces[0].1.is_none());
    assert!(fixed.circuit_fixed_traces[1].1.is_some());

    let mut witnesses = ZKVMWitnesses::default();
    witnesses
        .assign_opcode_circuit::<AddCircuit>(&css, &add_config, vec![record(3), record(3)])
        .unwrap();
    witnesses.finalize_lk_multiplicities().unwrap();
    let table_config2 = TableConfig { witins: Vec::new() };
    witnesses.assign_table_circuit::<RangeTable>(&css, &table_config2).unwrap();
    assert_eq!(witnesses.witnesses.len(), 2);
}

#[test]
fn duplicate_registration_fails() {
    let mut css = ZKVMConstraintSystem::default();
    let _ = css.register_opcode_circuit::<AddCircuit>().unwrap();
    let second = css.register_opcode_circuit::<AddCircuit>();
    assert!(matches!(second, Err(ZKVMError::DuplicateCircuit(_))));
    assert_eq!(css.circuit_css.len(), 1);
}

#[test]
fn table_assignment_before_finalize_fails() {
    let mut css = ZKVMConstraintSystem::default();
    let _ = css.register_table_circuit::<RangeTable>().unwrap();
    let mut witnesses = ZKVMWitnesses::default();
    let config = TableConfig { witins: Vec::new() };
    let attempt = witnesses.assign_table_circuit::<RangeTable>(&css, &config);
    assert!(matches!(attempt, Err(ZKVMError::InvalidPhase(_))));
}

#[test]
fn finalize_twice_fails() {
    let mut css = ZKVMConstraintSystem::default();
    let config = css.register_opcode_circuit::<AddCircuit>().unwrap();
    let mut witnesses = ZKVMWitnesses::default();
    witnesses
        .assign_opcode_circuit::<AddCircuit>(&css, &config, vec![record(1)])
        .unwrap();
    witnesses.finalize_lk_multiplicities().unwrap();
    let again = witnesses.finalize_lk_multiplicities();
    assert!(matches!(again, Err(ZKVMError::InvalidPhase(_))));
}

#[test]
fn finalize_without_assignment_fails() {
    let mut witnesses = ZKVMWitnesses::default();
    let attempt = witnesses.finalize_lk_multiplicities();
    assert!(matches!(attempt, Err(ZKVMError::InvalidPhase(_))));
}

#[test]
fn opcode_assignment_after_finalize_fails() {
    let mut css = ZKVMConstraintSystem::default();
    let config = css.register_opcode_circuit::<AddCircuit>().unwrap();
    let _ = css.register_opcode_circuit::<SecondCircuit>().unwrap();
    let mut witnesses = ZKVMWitnesses::default();
    witnesses
        .assign_opcode_circuit::<AddCircuit>(&css, &config, vec![record(1)])
        .unwrap();
    witnesses.finalize_lk_multiplicities().unwrap();
    let config2 = InstructionConfig { witins: Vec::new() };
    let late = witnesses.assign_opcode_circuit::<SecondCircuit>(&css, &config2, vec![record(2)]);
    assert!(matches!(late, Err(ZKVMError::InvalidPhase(_))));
}

#[test]
fn combined_multiplicities_sum_across_circuits() {
    let mut css = ZKVMConstraintSystem::default();
    let config_a = css.register_opcode_circuit::<AddCircuit>().unwrap();
    let config_b = css.register_opcode_circuit::<SecondCircuit>().unwrap();
    let mut witnesses = ZKVMWitnesses::default();
    // AddCircuit counts key 7 once per record in the 16-bit range table.
    witnesses
        .assign_opcode_circuit::<AddCircuit>(&css, &config_a, vec![record(7), record(7), record(9)])
        .unwrap();
    // SecondCircuit counts key 7 twice and one AND key.
    witnesses
        .assign_opcode_circuit::<SecondCircuit>(&css, &config_b, vec![record(0)])
        .unwrap();
    witnesses.finalize_lk_multiplicities().unwrap();
    let combined = witnesses.combined_lk_mlt.as_ref().unwrap();
    // U16 table: key 7 counted 2 + 2 times, key 9 once.
    assert_eq!(combined[1].entries, vec![(7, 4), (9, 1)]);
    // And table: key 3 once.
    assert_eq!(combined[2].entries, vec![(3, 1)]);
    // U5 and Ltu tables untouched.
    assert!(combined[0].entries.is_empty());
    assert!(combined[3].entries.is_empty());
}

#[test]
fn multiplicity_merge_is_order_independent() {
    let mut a = LkTable::new();
    a.increment(5);
    a.increment(5);
    a.increment(900);
    let mut b = LkTable::new();
    b.increment(1);
    b.increment(5);
    let ab = LkTable::merged(&a, &b).unwrap();
    let ba = LkTable::merged(&b, &a).unwrap();
    assert_eq!(ab.entries, ba.entries);
    assert_eq!(ab.entries, vec![(1, 1), (5, 3), (900, 1)]);
}

#[test]
fn verifying_key_retains_constraint_systems() {
    let cs = ConstraintSystem::new("circuit_one");
    let vk = VerifyingKey { cs };
    let pk = ProvingKey { fixed_traces: None, vk };
    let mut pks = ZKVMProvingKey::default();
    pks.circuit_pks.push((String::from("circuit_one"), pk));
    let vks = pks.get_vk();
    assert_eq!(vks.circuit_vks.len(), 1);
    assert_eq!(vks.circuit_vks[0].0, "circuit_one");
    assert_eq!(vks.circuit_vks[0].1.get_cs().num_witin, 0);
}

#[test]
fn fixed_trace_for_unregistered_table_fails() {
    let css = ZKVMConstraintSystem::default();
    let mut fixed = ZKVMFixedTraces::default();
    let config = TableConfig { witins: Vec::new() };
    let attempt = fixed.register_table_circuit::<RangeTable>(&css, config);
    assert!(matches!(attempt, Err(ZKVMError::CircuitError)));
}

#[test]
fn gadget_faults_wrap_into_registry_errors() {
    let gadget_fault = zkvm_gadgets::UtilError::UIntError(String::from("bad width"));
    let wrapped = ZKVMError::from(gadget_fault);
    assert!(matches!(wrapped, ZKVMError::UtilError(_)));
}

#[test]
fn point_and_eval_copies() {
    let point = vec![Fp::from_u64(3), Fp::from_u64(4)];
    let eval = Fp::from_u64(9);
    let pe = zkvm_gadgets::PointAndEval::new_from_ref(&point, &eval);
    assert_eq!(pe.point, point);
    assert_eq!(pe.eval, eval);
    let pe2 = zkvm_gadgets::PointAndEval::new(point.clone(), eval);
    assert_eq!(pe2.point, point);
}
