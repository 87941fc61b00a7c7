//! Constraint-construction core of a zero-knowledge virtual machine.
//!
//! The crate builds arithmetic constraint systems for fixed-width unsigned
//! integer operations (addition, multiplication, equality, ordering) over a
//! 64-bit prime field, and aggregates independently authored opcode and
//! lookup-table circuits into one program-wide registry with merged
//! lookup multiplicities.

pub mod circuit_builder;
pub mod error;
pub mod expression;
pub mod field;
pub mod instructions;
pub mod limbs;
pub mod structs;
pub mod tables;
pub mod uint;
pub mod uint_cmp;
pub mod uint_laws;
pub mod witness;

pub use circuit_builder::{CircuitBuilder, ConstraintSystem, LookupQuery, ROMType};
pub use error::{UtilError, ZKVMError};
pub use expression::{ChallengeId, Expression, WitIn, WitnessId};
pub use field::{Fp, FIELD_MODULUS};
pub use instructions::{
    BeqOp, BgeOp, BgeuOp, BltOp, BltuOp, BneOp, InsnKind, Instruction, InstructionConfig,
    RIVInstruction, StepRecord,
};
pub use structs::{
    AssignmentPhase, Point, PointAndEval, ProvingKey, RAMType, TowerProofs, TowerProver,
    TowerProverSpec, VerifyingKey, ZKVMConstraintSystem, ZKVMFixedTraces, ZKVMProvingKey,
    ZKVMVerifyingKey, ZKVMWitnesses,
};
pub use tables::{TableCircuit, TableConfig};
pub use uint::{UInt, UintLimb};
pub use uint_cmp::{IsEqualConfig, MsbConfig, UIntLtConfig, UIntLtuConfig};
pub use witness::{LkMultiplicity, LkTable, RowMajorMatrix};
