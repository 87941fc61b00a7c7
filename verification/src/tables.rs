//! Table circuits: the capability interface for the static lookup-table
//! side of the registry.

use vstd::prelude::*;

use crate::circuit_builder::CircuitBuilder;
use crate::error::ZKVMError;
use crate::expression::WitIn;
use crate::witness::{LkTable, RowMajorMatrix};

verus! {

/// The opaque bundle of witness-cell references a table circuit's
/// assignment logic repopulates per row.
pub struct TableConfig {
    pub witins: Vec<WitIn>,
}

/// A static lookup-table circuit: names itself, builds its constraints,
/// produces its precomputed fixed trace, and assigns its witness matrix
/// from the combined multiplicity tables.
pub trait TableCircuit {
    fn name() -> String;

    fn construct_circuit(cb: &mut CircuitBuilder) -> Result<TableConfig, ZKVMError>;

    fn generate_fixed_traces(config: &TableConfig, num_fixed: usize) -> RowMajorMatrix;

    fn assign_instances(
        config: &TableConfig,
        num_witin: usize,
        multiplicities: &Vec<LkTable>,
    ) -> Result<RowMajorMatrix, ZKVMError>;
}

} // verus!
