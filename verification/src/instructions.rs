//! Opcode circuits: the capability interface the registry drives, and the
//! RISC-V branch operations expressed through it.

use vstd::prelude::*;

use crate::circuit_builder::CircuitBuilder;
use crate::error::ZKVMError;
use crate::expression::WitIn;
use crate::witness::{LkMultiplicity, RowMajorMatrix};

verus! {

/// The instruction kinds the branch circuits distinguish.
#[derive(Clone, Copy, Debug, PartialEq, Eq, Structural)]
pub enum InsnKind {
    BEQ,
    BNE,
    BLT,
    BGE,
    BLTU,
    BGEU,
}

/// One execution step of the emulated machine, at the interface this core
/// consumes: the instruction kind and the operand values around the step.
#[derive(Clone, Copy, Debug)]
pub struct StepRecord {
    pub kind: InsnKind,
    pub pc_before: u64,
    pub pc_after: u64,
    pub rs1_value: u64,
    pub rs2_value: u64,
    pub rd_value: u64,
}

/// The opaque bundle of witness-cell references an opcode circuit's
/// assignment logic repopulates per row.
pub struct InstructionConfig {
    pub witins: Vec<WitIn>,
}

/// An opcode circuit: names itself, builds its constraints, and assigns
/// its witness matrix from execution step records.
pub trait Instruction {
    fn name() -> String;

    fn construct_circuit(cb: &mut CircuitBuilder) -> Result<InstructionConfig, ZKVMError>;

    fn assign_instances(
        config: &InstructionConfig,
        num_witin: usize,
        records: Vec<StepRecord>,
    ) -> Result<(RowMajorMatrix, LkMultiplicity), ZKVMError>;
}

/// A RISC-V instruction flavour: ties a marker type to its instruction
/// kind.
pub trait RIVInstruction {
    fn inst_kind() -> InsnKind;
}

pub struct BeqOp;

impl RIVInstruction for BeqOp {
    fn inst_kind() -> (r: InsnKind)
        ensures
            r == InsnKind::BEQ,
    {
        InsnKind::BEQ
    }
}

pub struct BneOp;

impl RIVInstruction for BneOp {
    fn inst_kind() -> (r: InsnKind)
        ensures
            r == InsnKind::BNE,
    {
        InsnKind::BNE
    }
}

pub struct BltuOp;

impl RIVInstruction for BltuOp {
    fn inst_kind() -> (r: InsnKind)
        ensures
            r == InsnKind::BLTU,
    {
        InsnKind::BLTU
    }
}

pub struct BgeuOp;

impl RIVInstruction for BgeuOp {
    fn inst_kind() -> (r: InsnKind)
        ensures
            r == InsnKind::BGEU,
    {
        InsnKind::BGEU
    }
}

pub struct BltOp;

impl RIVInstruction for BltOp {
    fn inst_kind() -> (r: InsnKind)
        ensures
            r == InsnKind::BLT,
    {
        InsnKind::BLT
    }
}

pub struct BgeOp;

impl RIVInstruction for BgeOp {
    fn inst_kind() -> (r: InsnKind)
        ensures
            r == InsnKind::BGE,
    {
        InsnKind::BGE
    }
}

} // verus!
