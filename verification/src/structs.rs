//! The circuit/witness registry: every opcode and table circuit,
//! aggregated by name into one program-wide constraint system, with
//! per-circuit witness assignment and the one-shot multiplicity merge.
//!
//! Registration and assignment follow a hard global ordering: register
//! every circuit, assign every opcode circuit's witness while
//! accumulating multiplicities, finalize the combined multiplicity table
//! exactly once, then assign every table circuit's witness from it.

use vstd::prelude::*;

use crate::circuit_builder::{CircuitBuilder, ConstraintSystem};
use crate::error::ZKVMError;
use crate::field::Fp;
use crate::instructions::{Instruction, InstructionConfig, StepRecord};
use crate::tables::{TableCircuit, TableConfig};
use crate::witness::{LkMultiplicity, LkTable, RowMajorMatrix};

verus! {

use vstd::string::StringExecFns;

/// Later-phase prover driver for the aggregated lookup/product trees.
pub struct TowerProver;

/// A point is a vector of per-variable coordinates.
pub type Point<F> = Vec<F>;

/// The layered proof transcript of the tower argument, carried as plain
/// evaluation vectors.
pub struct TowerProofs {
    pub proofs: Vec<Vec<Vec<Fp>>>,
    pub prod_specs_eval: Vec<Vec<Vec<Fp>>>,
    pub prod_specs_points: Vec<Vec<Point<Fp>>>,
    pub logup_specs_eval: Vec<Vec<Vec<Fp>>>,
    pub logup_specs_points: Vec<Vec<Point<Fp>>>,
}

/// The witness layers one tower-prover run consumes.
pub struct TowerProverSpec {
    pub witness: Vec<Vec<Vec<Fp>>>,
}

/// The writable-memory address spaces.
#[derive(Clone, Debug, Copy)]
pub enum RAMType {
    GlobalState,
    Register,
}

/// A point and the evaluation of this point.
#[derive(Clone, Debug)]
pub struct PointAndEval<F> {
    pub point: Point<F>,
    pub eval: F,
}

impl<F: Copy> PointAndEval<F> {
    /// Construct a new pair of point and eval. Caller gives up ownership.
    pub fn new(point: Point<F>, eval: F) -> (r: Self)
        ensures
            r.point == point,
            r.eval == eval,
    {
        PointAndEval { point, eval }
    }

    /// Construct a new pair of point and eval. Performs deep copy.
    pub fn new_from_ref(point: &Point<F>, eval: &F) -> (r: Self)
        ensures
            r.point@ == point@,
            r.eval == *eval,
    {
        let mut copy: Vec<F> = Vec::new();
        let mut i: usize = 0;
        while i < point.len()
            invariant
                i <= point@.len(),
                copy@ == point@.subrange(0, i as int),
            decreases point@.len() - i,
        {
            copy.push(point[i]);
            proof {
                assert(copy@ =~= point@.subrange(0, i + 1 as int));
            }
            i += 1;
        }
        proof {
            assert(copy@ =~= point@);
        }
        PointAndEval { point: copy, eval: *eval }
    }
}

impl Default for PointAndEval<Fp> {
    fn default() -> (r: Self)
        ensures
            r.point@.len() == 0,
            r.eval.val == 0,
    {
        PointAndEval { point: Vec::new(), eval: Fp { val: 0 } }
    }
}

/// Whether an association list holds a key.
pub open spec fn assoc_has_key<V>(s: Seq<(String, V)>, k: Seq<char>) -> bool {
    exists|i: int| 0 <= i < s.len() && (#[trigger] s[i]).0@ == k
}

/// No key appears twice.
pub open spec fn assoc_keys_unique<V>(s: Seq<(String, V)>) -> bool {
    forall|i: int, j: int| 0 <= i < j < s.len() ==> (#[trigger] s[i]).0@ != (#[trigger] s[j]).0@
}

/// Appends a binding, rejecting a duplicate key.
fn assoc_insert<V>(map: &mut Vec<(String, V)>, name: String, value: V) -> (r: Result<
    (),
    ZKVMError,
>)
    ensures
        r is Ok <==> !assoc_has_key(old(map)@, name@),
        r is Ok ==> final(map)@.len() == old(map)@.len() + 1 && final(map)@.subrange(
            0,
            old(map)@.len() as int,
        ) == old(map)@ && final(map)@.last().0@ == name@ && final(map)@.last().1 == value,
        r is Err ==> final(map)@ == old(map)@ && (r matches Err(e) ==> e is DuplicateCircuit),
        assoc_keys_unique(old(map)@) ==> assoc_keys_unique(final(map)@),
{
    let mut i: usize = 0;
    while i < map.len()
        invariant
            i <= map@.len(),
            forall|t: int| 0 <= t < i ==> (#[trigger] map@[t]).0@ != name@,
        decreases map@.len() - i,
    {
        if map[i].0 == name {
            return Err(ZKVMError::DuplicateCircuit(name));
        }
        i += 1;
    }
    map.push((name, value));
    proof {
        assert(final(map)@.subrange(0, old(map)@.len() as int) =~= old(map)@);
        if assoc_keys_unique(old(map)@) {
            assert forall|t1: int, t2: int| 0 <= t1 < t2 < final(map)@.len() implies (
            #[trigger] final(map)@[t1]).0@ != (#[trigger] final(map)@[t2]).0@ by {
                if t2 == final(map)@.len() - 1 {
                    assert(final(map)@[t1] == old(map)@[t1]);
                }
            }
        }
    }
    Ok(())
}

/// Looks a binding up by key.
fn assoc_get<'a, V>(map: &'a Vec<(String, V)>, name: &String) -> (r: Option<&'a V>)
    ensures
        r is Some <==> assoc_has_key(map@, name@),
        r matches Some(v) ==> exists|i: int|
            0 <= i < map@.len() && (#[trigger] map@[i]).0@ == name@ && map@[i].1 == *v,
{
    let mut i: usize = 0;
    while i < map.len()
        invariant
            i <= map@.len(),
            forall|t: int| 0 <= t < i ==> (#[trigger] map@[t]).0@ != name@,
        decreases map@.len() - i,
    {
        if map[i].0 == *name {
            return Some(&map[i].1);
        }
        i += 1;
    }
    None
}

/// The per-circuit constraint systems, keyed by circuit name. Entries
/// keep their registration order, which is deterministic for a given
/// registration sequence.
pub struct ZKVMConstraintSystem {
    pub circuit_css: Vec<(String, ConstraintSystem)>,
}

impl ZKVMConstraintSystem {
    /// Keys are unique: a circuit name is registered at most once.
    pub open spec fn wf(self) -> bool {
        assoc_keys_unique(self.circuit_css@)
    }

    /// Builds an opcode circuit's constraint system under a
    /// circuit-kind-prefixed name and registers it under the circuit's
    /// name; registering a name twice fails.
    pub fn register_opcode_circuit<OC: Instruction>(&mut self) -> (r: Result<
        InstructionConfig,
        ZKVMError,
    >)
        requires
            old(self).wf(),
        ensures
            final(self).wf(),
            r is Ok ==> final(self).circuit_css@.len() == old(self).circuit_css@.len() + 1
                && final(self).circuit_css@.subrange(0, old(self).circuit_css@.len() as int)
                == old(self).circuit_css@ && !assoc_has_key(
                old(self).circuit_css@,
                final(self).circuit_css@.last().0@,
            ),
            r is Err ==> final(self).circuit_css@ == old(self).circuit_css@,
    {
        let base = OC::name();
        let full = String::from_str("riscv_opcode/").concat(base.as_str());
        let cs = ConstraintSystem::new(full.as_str());
        let mut cb = CircuitBuilder::new(cs);
        let config = match OC::construct_circuit(&mut cb) {
            Ok(config) => config,
            Err(e) => {
                return Err(e);
            },
        };
        let cs = cb.finish();
        match assoc_insert(&mut self.circuit_css, base, cs) {
            Ok(()) => Ok(config),
            Err(e) => Err(e),
        }
    }

    /// Builds a table circuit's constraint system under a
    /// circuit-kind-prefixed name and registers it under the circuit's
    /// name; registering a name twice fails.
    pub fn register_table_circuit<TC: TableCircuit>(&mut self) -> (r: Result<
        TableConfig,
        ZKVMError,
    >)
        requires
            old(self).wf(),
        ensures
            final(self).wf(),
            r is Ok ==> final(self).circuit_css@.len() == old(self).circuit_css@.len() + 1
                && final(self).circuit_css@.subrange(0, old(self).circuit_css@.len() as int)
                == old(self).circuit_css@ && !assoc_has_key(
                old(self).circuit_css@,
                final(self).circuit_css@.last().0@,
            ),
            r is Err ==> final(self).circuit_css@ == old(self).circuit_css@,
    {
        let base = TC::name();
        let full = String::from_str("riscv_table/").concat(base.as_str());
        let cs = ConstraintSystem::new(full.as_str());
        let mut cb = CircuitBuilder::new(cs);
        let config = match TC::construct_circuit(&mut cb) {
            Ok(config) => config,
            Err(e) => {
                return Err(e);
            },
        };
        let cs = cb.finish();
        match assoc_insert(&mut self.circuit_css, base, cs) {
            Ok(()) => Ok(config),
            Err(e) => Err(e),
        }
    }

    /// The registered constraint system of a circuit name, if any.
    pub fn get_cs(&self, name: &String) -> (r: Option<&ConstraintSystem>)
        ensures
            r is Some <==> assoc_has_key(self.circuit_css@, name@),
            r matches Some(cs) ==> exists|i: int|
                0 <= i < self.circuit_css@.len() && (#[trigger] self.circuit_css@[i]).0@ == name@
                    && self.circuit_css@[i].1 == *cs,
    {
        assoc_get(&self.circuit_css, name)
    }
}

impl Default for ZKVMConstraintSystem {
    fn default() -> (r: Self)
        ensures
            r.circuit_css@.len() == 0,
            r.wf(),
    {
        ZKVMConstraintSystem { circuit_css: Vec::new() }
    }
}

/// The per-circuit fixed traces: absent for opcode circuits, a generated
/// matrix for table circuits.
pub struct ZKVMFixedTraces {
    pub circuit_fixed_traces: Vec<(String, Option<RowMajorMatrix>)>,
}

impl ZKVMFixedTraces {
    pub open spec fn wf(self) -> bool {
        assoc_keys_unique(self.circuit_fixed_traces@)
    }

    /// Marks an opcode circuit as having no fixed trace.
    pub fn register_opcode_circuit<OC: Instruction>(&mut self, cs: &ZKVMConstraintSystem) -> (r:
        Result<(), ZKVMError>)
        requires
            old(self).wf(),
        ensures
            final(self).wf(),
            r is Ok ==> final(self).circuit_fixed_traces@.len()
                == old(self).circuit_fixed_traces@.len() + 1
                && final(self).circuit_fixed_traces@.subrange(
                0,
                old(self).circuit_fixed_traces@.len() as int,
            ) == old(self).circuit_fixed_traces@ && !assoc_has_key(
                old(self).circuit_fixed_traces@,
                final(self).circuit_fixed_traces@.last().0@,
            ) && final(self).circuit_fixed_traces@.last().1 is None,
            r is Err ==> final(self).circuit_fixed_traces@ == old(self).circuit_fixed_traces@ && (
            r matches Err(e) ==> e is DuplicateCircuit),
    {
        let _ = cs;
        assoc_insert(&mut self.circuit_fixed_traces, OC::name(), None)
    }

    /// Generates and registers a table circuit's fixed trace, sized by
    /// the already-registered constraint system's fixed-column count.
    pub fn register_table_circuit<TC: TableCircuit>(
        &mut self,
        cs: &ZKVMConstraintSystem,
        config: TableConfig,
    ) -> (r: Result<(), ZKVMError>)
        requires
            old(self).wf(),
        ensures
            final(self).wf(),
            r is Ok ==> final(self).circuit_fixed_traces@.len()
                == old(self).circuit_fixed_traces@.len() + 1
                && final(self).circuit_fixed_traces@.subrange(
                0,
                old(self).circuit_fixed_traces@.len() as int,
            ) == old(self).circuit_fixed_traces@ && !assoc_has_key(
                old(self).circuit_fixed_traces@,
                final(self).circuit_fixed_traces@.last().0@,
            ) && assoc_has_key(cs.circuit_css@, final(self).circuit_fixed_traces@.last().0@)
                && final(self).circuit_fixed_traces@.last().1 is Some,
            r is Err ==> final(self).circuit_fixed_traces@ == old(self).circuit_fixed_traces@ && (
            r matches Err(e) ==> e is CircuitError || e is DuplicateCircuit),
    {
        let name = TC::name();
        let num_fixed: usize = match cs.get_cs(&name) {
            Some(circuit_cs) => circuit_cs.num_fixed,
            None => {
                return Err(ZKVMError::CircuitError);
            },
        };
        let trace = TC::generate_fixed_traces(&config, num_fixed);
        assoc_insert(&mut self.circuit_fixed_traces, name, Some(trace))
    }
}

impl Default for ZKVMFixedTraces {
    fn default() -> (r: Self)
        ensures
            r.circuit_fixed_traces@.len() == 0,
            r.wf(),
    {
        ZKVMFixedTraces { circuit_fixed_traces: Vec::new() }
    }
}

/// The explicit phase flag of the witness registry: opcode assignment
/// collects multiplicities until the one-shot finalization, after which
/// only table assignment may run.
pub enum AssignmentPhase {
    Collecting,
    Finalized,
}

/// The total count a sequence of per-circuit multiplicities contributes
/// to one table type for one key.
pub open spec fn total_mult(s: Seq<LkMultiplicity>, rom: int, k: u64) -> int
    decreases s.len(),
{
    if s.len() == 0 {
        0
    } else {
        s.first().tables@[rom].mult_of(k) + total_mult(s.drop_first(), rom, k)
    }
}

/// The multiplicities of an association list's values, in order.
pub open spec fn mult_values(s: Seq<(String, LkMultiplicity)>) -> Seq<LkMultiplicity> {
    s.map_values(|p: (String, LkMultiplicity)| p.1)
}

/// The per-circuit witness matrices, the per-circuit multiplicities
/// collected so far, and the combined table once finalized.
pub struct ZKVMWitnesses {
    pub witnesses: Vec<(String, RowMajorMatrix)>,
    pub lk_mlts: Vec<(String, LkMultiplicity)>,
    pub combined_lk_mlt: Option<Vec<LkTable>>,
    pub phase: AssignmentPhase,
}

impl ZKVMWitnesses {
    /// Keys unique, collected multiplicities well-formed, and the phase
    /// flag in step with the combined table.
    pub open spec fn wf(self) -> bool {
        &&& assoc_keys_unique(self.witnesses@)
        &&& assoc_keys_unique(self.lk_mlts@)
        &&& forall|i: int|
            0 <= i < self.lk_mlts@.len() ==> (#[trigger] self.lk_mlts@[i]).1.wf()
        &&& (self.phase is Finalized <==> self.combined_lk_mlt is Some)
        &&& (self.combined_lk_mlt matches Some(tables) ==> tables@.len() == 4 && forall|i: int|
            0 <= i < 4 ==> (#[trigger] tables@[i]).wf())
    }

    /// Whether finalization has run.
    pub open spec fn is_finalized(self) -> bool {
        self.phase is Finalized
    }

    /// The multiplicities collected so far.
    pub open spec fn collected(self) -> Seq<LkMultiplicity> {
        mult_values(self.lk_mlts@)
    }

    /// The combined table, once finalized.
    pub open spec fn combined(self) -> Option<Vec<LkTable>> {
        self.combined_lk_mlt
    }

    /// Assigns one opcode circuit's witness from its step records and
    /// collects its multiplicities. Must run before finalization; a
    /// second assignment under the same name fails.
    pub fn assign_opcode_circuit<OC: Instruction>(
        &mut self,
        cs: &ZKVMConstraintSystem,
        config: &InstructionConfig,
        records: Vec<StepRecord>,
    ) -> (r: Result<(), ZKVMError>)
        requires
            old(self).wf(),
        ensures
            final(self).wf(),
            old(self).is_finalized() ==> r is Err && *final(self) == *old(self),
            r is Ok ==> !old(self).is_finalized() && !final(self).is_finalized()
                && final(self).witnesses@.len() == old(self).witnesses@.len() + 1
                && final(self).collected().len() == old(self).collected().len() + 1,
            r is Ok ==> final(self).witnesses@.subrange(0, old(self).witnesses@.len() as int)
                == old(self).witnesses@ && final(self).lk_mlts@.subrange(
                0,
                old(self).lk_mlts@.len() as int,
            ) == old(self).lk_mlts@
                && final(self).witnesses@.last().0@ == final(self).lk_mlts@.last().0@
                && !assoc_has_key(old(self).witnesses@, final(self).witnesses@.last().0@)
                && !assoc_has_key(old(self).lk_mlts@, final(self).lk_mlts@.last().0@)
                && final(self).combined_lk_mlt == old(self).combined_lk_mlt,
            r is Err ==> final(self).witnesses@ == old(self).witnesses@
                && final(self).lk_mlts@ == old(self).lk_mlts@
                && final(self).combined_lk_mlt == old(self).combined_lk_mlt,
    {
        match self.phase {
            AssignmentPhase::Finalized => {
                return Err(
                    ZKVMError::InvalidPhase(
                        String::from_str("opcode assignment after finalization"),
                    ),
                );
            },
            AssignmentPhase::Collecting => {},
        }
        let name = OC::name();
        let num_witin: usize = match cs.get_cs(&name) {
            Some(circuit_cs) => circuit_cs.num_witin as usize,
            None => {
                return Err(ZKVMError::CircuitError);
            },
        };
        let pair = match OC::assign_instances(config, num_witin, records) {
            Ok(pair) => pair,
            Err(e) => {
                return Err(e);
            },
        };
        let (witness, lk_mlt) = pair;
        if !lk_mlt.is_well_formed() {
            return Err(ZKVMError::CircuitError);
        }
        let name2 = name.clone();
        match assoc_insert(&mut self.witnesses, name, witness) {
            Ok(()) => {},
            Err(e) => {
                return Err(e);
            },
        }
        let ghost wit_mid = self.witnesses@;
        match assoc_insert(&mut self.lk_mlts, name2, lk_mlt) {
            Ok(()) => {},
            Err(e) => {
                // Roll the witness insertion back so a failure leaves the
                // registry as it was.
                let _ = self.witnesses.pop();
                proof {
                    assert(self.witnesses@ =~= old(self).witnesses@);
                }
                return Err(e);
            },
        }
        proof {
            assert(self.lk_mlts@.subrange(0, old(self).lk_mlts@.len() as int) == old(
                self,
            ).lk_mlts@);
            assert forall|t: int| 0 <= t < self.lk_mlts@.len() implies (
            #[trigger] self.lk_mlts@[t]).1.wf() by {
                if t < old(self).lk_mlts@.len() {
                    assert(self.lk_mlts@[t] == self.lk_mlts@.subrange(
                        0,
                        old(self).lk_mlts@.len() as int,
                    )[t]);
                } else {
                    assert(self.lk_mlts@[t] == self.lk_mlts@.last());
                }
            }
        }
        Ok(())
    }

    /// Merges every collected per-circuit multiplicity into one combined
    /// table, key-wise summed across circuits: a one-shot operation that
    /// fails when run twice or with nothing collected. The per-circuit
    /// maps are retained unchanged; the phase flag alone blocks further
    /// opcode assignment.
    pub fn finalize_lk_multiplicities(&mut self) -> (r: Result<(), ZKVMError>)
        requires
            old(self).wf(),
        ensures
            final(self).wf(),
            r is Ok ==> !old(self).is_finalized() && old(self).collected().len() > 0
                && final(self).is_finalized(),
            r is Ok ==> (final(self).combined() matches Some(tables) && forall|i: int, k: u64|
                0 <= i < 4 ==> #[trigger] tables@[i].mult_of(k) == total_mult(
                    old(self).collected(),
                    i,
                    k,
                )),
            r is Ok ==> final(self).witnesses@ == old(self).witnesses@,
            r is Ok ==> final(self).lk_mlts@ == old(self).lk_mlts@,
            old(self).is_finalized() ==> r is Err,
            old(self).collected().len() == 0 ==> r is Err,
            (!old(self).is_finalized() && old(self).collected().len() > 0 && (forall|i: int,
                k: u64|
                0 <= i < 4 ==> #[trigger] total_mult(old(self).collected(), i, k) <= u64::MAX))
                ==> r is Ok,
            r is Err ==> *final(self) == *old(self),
    {
        match self.phase {
            AssignmentPhase::Finalized => {
                return Err(
                    ZKVMError::InvalidPhase(String::from_str("multiplicities already finalized")),
                );
            },
            AssignmentPhase::Collecting => {},
        }
        if self.lk_mlts.len() == 0 {
            return Err(
                ZKVMError::InvalidPhase(
                    String::from_str("no opcode circuit assigned before finalization"),
                ),
            );
        }
        let mut combined: Vec<LkTable> = Vec::new();
        combined.push(LkTable::new());
        combined.push(LkTable::new());
        combined.push(LkTable::new());
        combined.push(LkTable::new());
        let n = self.lk_mlts.len();
        let mut i: usize = 0;
        while i < n
            invariant
                i <= n,
                n == self.lk_mlts@.len(),
                old(self).wf(),
                *self == *old(self),
                combined@.len() == 4,
                forall|t: int| 0 <= t < 4 ==> (#[trigger] combined@[t]).wf(),
                forall|t: int, k: u64|
                    0 <= t < 4 ==> #[trigger] combined@[t].mult_of(k) == total_mult(
                        mult_values(self.lk_mlts@.take(i as int)),
                        t,
                        k,
                    ),
            decreases n - i,
        {
            let mut rom: usize = 0;
            while rom < 4
                invariant
                    i < n,
                    n == self.lk_mlts@.len(),
                    old(self).wf(),
                    *self == *old(self),
                    rom <= 4,
                    combined@.len() == 4,
                    forall|t: int| 0 <= t < 4 ==> (#[trigger] combined@[t]).wf(),
                    forall|t: int, k: u64|
                        rom <= t < 4 ==> #[trigger] combined@[t].mult_of(k) == total_mult(
                            mult_values(self.lk_mlts@.take(i as int)),
                            t,
                            k,
                        ),
                    forall|t: int, k: u64|
                        0 <= t < rom ==> #[trigger] combined@[t].mult_of(k) == total_mult(
                            mult_values(self.lk_mlts@.take(i as int)),
                            t,
                            k,
                        ) + self.lk_mlts@[i as int].1.tables@[t].mult_of(k),
                decreases 4 - rom,
            {
                let merged_table = match LkTable::merged(
                    &combined[rom],
                    &self.lk_mlts[i].1.tables[rom],
                ) {
                    Ok(t) => t,
                    Err(e) => {
                        // A combined count no longer fits a machine word;
                        // the overflowing key refutes the total bound, so
                        // the success promise is not owed.
                        proof {
                            let full = mult_values(self.lk_mlts@);
                            let key = choose|key: u64|
                                combined@[rom as int].mult_of(key) + self.lk_mlts@[
                                    i as int].1.tables@[rom as int].mult_of(key) > u64::MAX;
                            assert(mult_values(self.lk_mlts@.take(i + 1)) =~= mult_values(
                                self.lk_mlts@.take(i as int),
                            ).push(self.lk_mlts@[i as int].1));
                            lemma_total_mult_push(
                                mult_values(self.lk_mlts@.take(i as int)),
                                self.lk_mlts@[i as int].1,
                            );
                            assert(total_mult(
                                mult_values(self.lk_mlts@.take(i + 1)),
                                rom as int,
                                key,
                            ) > u64::MAX);
                            assert(full.take(i + 1) =~= mult_values(self.lk_mlts@.take(i + 1)));
                            lemma_total_mult_split(full, i + 1, rom as int, key);
                            lemma_total_mult_nonneg(full.skip(i + 1), rom as int, key);
                            assert(total_mult(full, rom as int, key) > u64::MAX);
                        }
                        return Err(e);
                    },
                };
                combined.set(rom, merged_table);
                rom += 1;
            }
            proof {
                assert(mult_values(self.lk_mlts@.take(i + 1)) =~= mult_values(
                    self.lk_mlts@.take(i as int),
                ).push(self.lk_mlts@[i as int].1));
                lemma_total_mult_push(
                    mult_values(self.lk_mlts@.take(i as int)),
                    self.lk_mlts@[i as int].1,
                );
            }
            i += 1;
        }
        proof {
            assert(self.lk_mlts@.take(n as int) =~= self.lk_mlts@);
        }
        self.combined_lk_mlt = Some(combined);
        self.phase = AssignmentPhase::Finalized;
        Ok(())
    }

    /// Assigns one table circuit's witness from the combined multiplicity
    /// table; cannot run before finalization.
    pub fn assign_table_circuit<TC: TableCircuit>(
        &mut self,
        cs: &ZKVMConstraintSystem,
        config: &TableConfig,
    ) -> (r: Result<(), ZKVMError>)
        requires
            old(self).wf(),
        ensures
            final(self).wf(),
            !old(self).is_finalized() ==> r is Err && *final(self) == *old(self),
            r is Ok ==> old(self).is_finalized() && final(self).is_finalized()
                && final(self).witnesses@.len() == old(self).witnesses@.len() + 1,
            r is Ok ==> final(self).witnesses@.subrange(0, old(self).witnesses@.len() as int)
                == old(self).witnesses@ && !assoc_has_key(
                old(self).witnesses@,
                final(self).witnesses@.last().0@,
            ) && final(self).combined_lk_mlt == old(self).combined_lk_mlt && final(self).lk_mlts@
                == old(self).lk_mlts@,
            r is Err ==> final(self).witnesses@ == old(self).witnesses@
                && final(self).lk_mlts@ == old(self).lk_mlts@
                && final(self).combined_lk_mlt == old(self).combined_lk_mlt,
    {
        let combined = match &self.combined_lk_mlt {
            Some(tables) => tables,
            None => {
                return Err(
                    ZKVMError::InvalidPhase(
                        String::from_str("table assignment before finalization"),
                    ),
                );
            },
        };
        let name = TC::name();
        let num_witin: usize = match cs.get_cs(&name) {
            Some(circuit_cs) => circuit_cs.num_witin as usize,
            None => {
                return Err(ZKVMError::CircuitError);
            },
        };
        let witness = match TC::assign_instances(config, num_witin, combined) {
            Ok(w) => w,
            Err(e) => {
                return Err(e);
            },
        };
        assoc_insert(&mut self.witnesses, name, witness)
    }
}

impl Default for ZKVMWitnesses {
    fn default() -> (r: Self)
        ensures
            r.wf(),
            !r.is_finalized(),
            r.witnesses@.len() == 0,
            r.collected().len() == 0,
    {
        let r = ZKVMWitnesses {
            witnesses: Vec::new(),
            lk_mlts: Vec::new(),
            combined_lk_mlt: None,
            phase: AssignmentPhase::Collecting,
        };
        proof {
            assert(r.collected() =~= Seq::<LkMultiplicity>::empty());
        }
        r
    }
}

/// Every contribution to a total is a non-negative count.
proof fn lemma_total_mult_nonneg(s: Seq<LkMultiplicity>, rom: int, k: u64)
    ensures
        total_mult(s, rom, k) >= 0,
    decreases s.len(),
{
    if s.len() > 0 {
        crate::witness::lemma_entries_mult_bound(s.first().tables@[rom].entries@, k);
        lemma_total_mult_nonneg(s.drop_first(), rom, k);
    }
}

/// A total splits at any point of the sequence.
proof fn lemma_total_mult_split(s: Seq<LkMultiplicity>, m: int, rom: int, k: u64)
    requires
        0 <= m <= s.len(),
    ensures
        total_mult(s, rom, k) == total_mult(s.take(m), rom, k) + total_mult(
            s.skip(m),
            rom,
            k,
        ),
    decreases m,
{
    if m == 0 {
        assert(s.take(0) =~= Seq::<LkMultiplicity>::empty());
        assert(s.skip(0) =~= s);
    } else {
        lemma_total_mult_split(s.drop_first(), m - 1, rom, k);
        assert(s.take(m).first() == s.first());
        assert(s.take(m).drop_first() =~= s.drop_first().take(m - 1));
        assert(s.skip(m) =~= s.drop_first().skip(m - 1));
    }
}

/// Appending one circuit's multiplicities adds its counts to the total.
proof fn lemma_total_mult_push(s: Seq<LkMultiplicity>, m: LkMultiplicity)
    ensures
        forall|rom: int, k: u64|
            #[trigger] total_mult(s.push(m), rom, k) == total_mult(s, rom, k) + m.tables@[
                rom].mult_of(k),
    decreases s.len(),
{
    if s.len() == 0 {
        assert forall|rom: int, k: u64| #[trigger] total_mult(s.push(m), rom, k) == total_mult(
            s,
            rom,
            k,
        ) + m.tables@[rom].mult_of(k) by {
            assert(s.push(m).first() == m);
            assert(s.push(m).drop_first() =~= Seq::<LkMultiplicity>::empty());
            assert(total_mult(Seq::<LkMultiplicity>::empty(), rom, k) == 0);
            assert(total_mult(s.push(m), rom, k) == m.tables@[rom].mult_of(k) + 0);
        }
    } else {
        lemma_total_mult_push(s.drop_first(), m);
        assert forall|rom: int, k: u64| #[trigger] total_mult(s.push(m), rom, k) == total_mult(
            s,
            rom,
            k,
        ) + m.tables@[rom].mult_of(k) by {
            assert(s.push(m).first() == s.first());
            assert(s.push(m).drop_first() =~= s.drop_first().push(m));
            assert(total_mult(s.push(m), rom, k) == s.first().tables@[rom].mult_of(k)
                + total_mult(s.drop_first().push(m), rom, k));
            assert(total_mult(s.drop_first().push(m), rom, k) == total_mult(s.drop_first(), rom, k)
                + m.tables@[rom].mult_of(k));
        }
    }
}

/// A proving key: the constraint system plus, for table circuits, the
/// fixed trace contents.
pub struct ProvingKey {
    pub fixed_traces: Option<Vec<RowMajorMatrix>>,
    pub vk: VerifyingKey,
}

impl ProvingKey {
    pub fn get_cs(&self) -> (r: &ConstraintSystem)
        ensures
            *r == self.vk.cs,
    {
        self.vk.get_cs()
    }
}

/// A verifying key: the constraint system alone.
pub struct VerifyingKey {
    pub cs: ConstraintSystem,
}

impl VerifyingKey {
    pub fn get_cs(&self) -> (r: &ConstraintSystem)
        ensures
            *r == self.cs,
    {
        &self.cs
    }
}

/// The proving keys of every registered circuit, keyed by circuit name.
pub struct ZKVMProvingKey {
    pub circuit_pks: Vec<(String, ProvingKey)>,
}

/// The verifying-key constraint system retains everything of the proving
/// key's: the name, the cell and fixed-column counts, every named
/// constraint, and every lookup query. Only the fixed-trace contents are
/// dropped.
pub open spec fn vk_retains_cs(
    vk_cs: ConstraintSystem,
    pk_cs: ConstraintSystem,
) -> bool {
    &&& vk_cs.name == pk_cs.name
    &&& vk_cs.num_witin == pk_cs.num_witin
    &&& vk_cs.num_fixed == pk_cs.num_fixed
    &&& vk_cs.constraint_names@ == pk_cs.constraint_names@
    &&& vk_cs.constraints@ == pk_cs.constraints@
    &&& vk_cs.lookup_names@ == pk_cs.lookup_names@
    &&& vk_cs.lookups@.len() == pk_cs.lookups@.len()
    &&& forall|j: int|
        0 <= j < pk_cs.lookups@.len() ==> (#[trigger] vk_cs.lookups@[j]).rom_type
            == pk_cs.lookups@[j].rom_type && vk_cs.lookups@[j].args@ == pk_cs.lookups@[j].args@
}

impl ZKVMProvingKey {
    /// The verifying key: the same circuits, each with its constraint
    /// system retained in full and its fixed-trace contents dropped.
    /// Keys keep the registration order, which is deterministic for a
    /// given registration sequence.
    pub fn get_vk(&self) -> (r: ZKVMVerifyingKey)
        ensures
            r.circuit_vks@.len() == self.circuit_pks@.len(),
            forall|i: int|
                0 <= i < self.circuit_pks@.len() ==> (#[trigger] r.circuit_vks@[i]).0@
                    == self.circuit_pks@[i].0@,
            forall|i: int|
                0 <= i < self.circuit_pks@.len() ==> vk_retains_cs(
                    (#[trigger] r.circuit_vks@[i]).1.cs,
                    self.circuit_pks@[i].1.vk.cs,
                ),
    {
        let mut circuit_vks: Vec<(String, VerifyingKey)> = Vec::new();
        let mut i: usize = 0;
        while i < self.circuit_pks.len()
            invariant
                i <= self.circuit_pks@.len(),
                circuit_vks@.len() == i,
                forall|t: int|
                    0 <= t < i ==> (#[trigger] circuit_vks@[t]).0@ == self.circuit_pks@[t].0@,
                forall|t: int|
                    0 <= t < i ==> vk_retains_cs(
                        (#[trigger] circuit_vks@[t]).1.cs,
                        self.circuit_pks@[t].1.vk.cs,
                    ),
            decreases self.circuit_pks@.len() - i,
        {
            let name = self.circuit_pks[i].0.clone();
            let vk = VerifyingKey { cs: self.circuit_pks[i].1.vk.cs.duplicate() };
            circuit_vks.push((name, vk));
            i += 1;
        }
        ZKVMVerifyingKey { circuit_vks }
    }
}

impl Default for ZKVMProvingKey {
    fn default() -> (r: Self)
        ensures
            r.circuit_pks@.len() == 0,
    {
        ZKVMProvingKey { circuit_pks: Vec::new() }
    }
}

/// The verifying keys of every registered circuit, keyed by circuit name.
pub struct ZKVMVerifyingKey {
    pub circuit_vks: Vec<(String, VerifyingKey)>,
}

impl Default for ZKVMVerifyingKey {
    fn default() -> (r: Self)
        ensures
            r.circuit_vks@.len() == 0,
    {
        ZKVMVerifyingKey { circuit_vks: Vec::new() }
    }
}

} // verus!
