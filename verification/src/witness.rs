//! Witness-side containers: the per-circuit witness matrix and the
//! lookup-multiplicity tables.
//!
//! A multiplicity table counts how many times each lookup key was queried;
//! it is kept as a sorted association vector, so two tables counting the
//! same queries are equal as values whatever order the counts arrived in.

use vstd::prelude::*;

use crate::circuit_builder::ROMType;
use crate::error::ZKVMError;
use crate::field::Fp;

verus! {

/// A row-major matrix of field elements: one row per instance, one column
/// per witness cell.
pub struct RowMajorMatrix {
    pub num_cols: usize,
    pub values: Vec<Fp>,
}

impl RowMajorMatrix {
    /// Row and column counts agree with the storage.
    pub open spec fn wf(self) -> bool {
        self.num_cols > 0 ==> self.values@.len() % self.num_cols as nat == 0
    }

    /// A zero-filled matrix.
    pub fn new(num_rows: usize, num_cols: usize) -> (r: RowMajorMatrix)
        requires
            num_rows * num_cols <= usize::MAX,
        ensures
            r.num_cols == num_cols,
            r.values@.len() == num_rows * num_cols,
            forall|i: int| 0 <= i < r.values@.len() ==> (#[trigger] r.values@[i]).val == 0,
    {
        let total: usize = num_rows * num_cols;
        let mut values: Vec<Fp> = Vec::new();
        let mut i: usize = 0;
        while i < total
            invariant
                i <= total,
                values@.len() == i,
                forall|j: int| 0 <= j < i ==> (#[trigger] values@[j]).val == 0,
            decreases total - i,
        {
            values.push(Fp { val: 0 });
            i += 1;
        }
        RowMajorMatrix { num_cols, values }
    }

    /// The number of rows.
    pub fn num_rows(&self) -> (r: usize)
        requires
            self.num_cols > 0,
        ensures
            r == self.values@.len() as int / self.num_cols as int,
    {
        self.values.len() / self.num_cols
    }

    /// Writes one cell.
    pub fn set(&mut self, row: usize, col: usize, v: Fp)
        requires
            col < old(self).num_cols,
            row * old(self).num_cols + col < old(self).values@.len(),
        ensures
            final(self).num_cols == old(self).num_cols,
            final(self).values@ == old(self).values@.update(
                row * old(self).num_cols + col,
                v,
            ),
    {
        let len = self.values.len();
        proof {
            vstd::arithmetic::mul::lemma_mul_nonnegative(row as int, self.num_cols as int);
            assert(row * self.num_cols + col < len);
        }
        let idx: usize = row * self.num_cols + col;
        self.values.set(idx, v);
    }

    /// Reads one cell.
    pub fn get(&self, row: usize, col: usize) -> (r: Fp)
        requires
            col < self.num_cols,
            row * self.num_cols + col < self.values@.len(),
        ensures
            r == self.values@[row * self.num_cols + col],
    {
        let len = self.values.len();
        proof {
            vstd::arithmetic::mul::lemma_mul_nonnegative(row as int, self.num_cols as int);
            assert(row * self.num_cols + col < len);
        }
        self.values[row * self.num_cols + col]
    }
}

/// A lookup-multiplicity table: occurrence counts keyed by lookup key,
/// kept sorted by key with no duplicates.
pub struct LkTable {
    pub entries: Vec<(u64, u64)>,
}

/// The count a sorted entry list holds for a key; zero when absent.
pub open spec fn entries_mult(s: Seq<(u64, u64)>, k: u64) -> int
    decreases s.len(),
{
    if s.len() == 0 {
        0
    } else if s.first().0 == k {
        s.first().1 as int
    } else {
        entries_mult(s.drop_first(), k)
    }
}

/// Keys strictly increase, so each key appears at most once and the
/// layout of a table is a function of its counts alone.
pub open spec fn entries_sorted(s: Seq<(u64, u64)>) -> bool {
    forall|i: int, j: int| 0 <= i < j < s.len() ==> (#[trigger] s[i]).0 < (#[trigger] s[j]).0
}

/// Counts are positive: absent keys are simply absent.
pub open spec fn entries_positive(s: Seq<(u64, u64)>) -> bool {
    forall|i: int| 0 <= i < s.len() ==> (#[trigger] s[i]).1 > 0
}

impl LkTable {
    /// The canonical-form invariant.
    pub open spec fn wf(self) -> bool {
        entries_sorted(self.entries@) && entries_positive(self.entries@)
    }

    /// The count recorded for a key.
    pub open spec fn mult_of(self, k: u64) -> int {
        entries_mult(self.entries@, k)
    }

    /// An empty table.
    pub fn new() -> (r: LkTable)
        ensures
            r.wf(),
            forall|k: u64| r.mult_of(k) == 0,
    {
        LkTable { entries: Vec::new() }
    }

    /// A table holding one key once.
    pub fn singleton(key: u64) -> (r: LkTable)
        ensures
            r.wf(),
            r.mult_of(key) == 1,
            forall|k: u64| k != key ==> #[trigger] r.mult_of(k) == 0,
    {
        let mut entries: Vec<(u64, u64)> = Vec::new();
        entries.push((key, 1));
        let r = LkTable { entries };
        proof {
            assert forall|k: u64| k != key implies #[trigger] r.mult_of(k) == 0 by {
                assert(r.entries@.drop_first() =~= Seq::<(u64, u64)>::empty());
                assert(entries_mult(Seq::<(u64, u64)>::empty(), k) == 0);
            }
            assert(r.entries@.drop_first() =~= Seq::<(u64, u64)>::empty());
            assert(entries_mult(Seq::<(u64, u64)>::empty(), key) == 0);
        }
        r
    }

    /// Records one more occurrence of a key.
    pub fn increment(&mut self, key: u64)
        requires
            old(self).wf(),
            old(self).mult_of(key) < u64::MAX,
        ensures
            final(self).wf(),
            final(self).mult_of(key) == old(self).mult_of(key) + 1,
            forall|k: u64| k != key ==> #[trigger] final(self).mult_of(k) == old(self).mult_of(k),
    {
        let one = LkTable::singleton(key);
        proof {
            assert forall|k: u64| #[trigger] self.mult_of(k) + one.mult_of(k) <= u64::MAX by {
                lemma_entries_mult_bound(self.entries@, k);
                if k != key {
                    assert(one.mult_of(k) == 0);
                }
            }
        }
        let merged_table = match LkTable::merged(&*self, &one) {
            Ok(t) => t,
            Err(_) => {
                proof {
                    assert forall|k: u64| #[trigger] self.mult_of(k) + one.mult_of(k)
                        <= u64::MAX by {
                        lemma_entries_mult_bound(self.entries@, k);
                        if k != key {
                            assert(one.mult_of(k) == 0);
                        }
                    }
                    assert(false);
                }
                LkTable::new()
            },
        };
        self.entries = merged_table.entries;
    }

    /// The key-wise sum of two tables: the commutative merge the
    /// registry uses to combine per-circuit multiplicities. Fails exactly
    /// when some key's summed count no longer fits a machine word.
    pub fn merged(a: &LkTable, b: &LkTable) -> (r: Result<LkTable, ZKVMError>)
        requires
            a.wf(),
            b.wf(),
        ensures
            r matches Ok(t) ==> t.wf() && forall|k: u64| #[trigger] t.mult_of(k) == a.mult_of(k)
                + b.mult_of(k),
            r is Err ==> exists|k: u64| #[trigger] a.mult_of(k) + b.mult_of(k) > u64::MAX,
    {
        let mut out: Vec<(u64, u64)> = Vec::new();
        let mut i: usize = 0;
        let mut j: usize = 0;
        let na = a.entries.len();
        let nb = b.entries.len();
        while i < na || j < nb
            invariant
                i <= na,
                j <= nb,
                na == a.entries@.len(),
                nb == b.entries@.len(),
                a.wf(),
                b.wf(),
                entries_sorted(out@),
                entries_positive(out@),
                // Every emitted key sits below both heads, so appending
                // keeps the output sorted and never revisits a key.
                forall|t: int|
                    0 <= t < out@.len() && i < na ==> (#[trigger] out@[t]).0 < a.entries@[i as int].0,
                forall|t: int|
                    0 <= t < out@.len() && j < nb ==> (#[trigger] out@[t]).0 < b.entries@[j as int].0,
                forall|k: u64| #[trigger] entries_mult(out@, k) == entries_mult(
                    a.entries@.take(i as int),
                    k,
                ) + entries_mult(b.entries@.take(j as int), k),
            decreases na - i + nb - j,
        {
            let ghost out0 = out@;
            let take_a: bool = if i < na && j < nb {
                a.entries[i].0 <= b.entries[j].0
            } else {
                i < na
            };
            let both: bool = i < na && j < nb && a.entries[i].0 == b.entries[j].0;
            let key: u64;
            let count: u64;
            if both {
                key = a.entries[i].0;
                proof {
                    lemma_entries_mult_at(a.entries@, i as int, key);
                    lemma_entries_mult_at(b.entries@, j as int, key);
                }
                count = match a.entries[i].1.checked_add(b.entries[j].1) {
                    Some(c) => c,
                    None => {
                        proof {
                            assert(a.mult_of(key) + b.mult_of(key) > u64::MAX);
                        }
                        return Err(ZKVMError::CircuitError);
                    },
                };
            } else if take_a {
                key = a.entries[i].0;
                count = a.entries[i].1;
            } else {
                key = b.entries[j].0;
                count = b.entries[j].1;
            }
            out.push((key, count));
            let ghost oi = i as int;
            let ghost oj = j as int;
            if both {
                i += 1;
                j += 1;
            } else if take_a {
                i += 1;
            } else {
                j += 1;
            }
            proof {
                if oi < i {
                    assert(a.entries@.take(oi + 1) =~= a.entries@.take(oi).push(
                        a.entries@[oi],
                    ));
                }
                if oj < j {
                    assert(b.entries@.take(oj + 1) =~= b.entries@.take(oj).push(
                        b.entries@[oj],
                    ));
                }
                assert forall|k: u64| #[trigger] entries_mult(out@, k) == entries_mult(
                    a.entries@.take(i as int),
                    k,
                ) + entries_mult(b.entries@.take(j as int), k) by {
                    lemma_entries_mult_push(out0, key, count, k);
                    if oi < i {
                        assert(forall|t: int|
                            0 <= t < a.entries@.take(oi).len() ==> (#[trigger] a.entries@.take(
                                oi,
                            )[t]).0 < a.entries@[oi].0);
                        lemma_entries_mult_push(a.entries@.take(oi), a.entries@[oi].0, a.entries@[oi].1, k);
                    }
                    if oj < j {
                        assert(forall|t: int|
                            0 <= t < b.entries@.take(oj).len() ==> (#[trigger] b.entries@.take(
                                oj,
                            )[t]).0 < b.entries@[oj].0);
                        lemma_entries_mult_push(b.entries@.take(oj), b.entries@[oj].0, b.entries@[oj].1, k);
                    }
                }
                assert forall|t: int| 0 <= t < out@.len() && i < na implies (#[trigger] out@[t]).0
                    < a.entries@[i as int].0 by {
                    if t < out0.len() {
                    } else {
                        assert(out@[t].0 == key);
                    }
                }
                assert forall|t: int| 0 <= t < out@.len() && j < nb implies (#[trigger] out@[t]).0
                    < b.entries@[j as int].0 by {
                    if t < out0.len() {
                    } else {
                        assert(out@[t].0 == key);
                    }
                }
            }
        }
        proof {
            assert(a.entries@.take(na as int) =~= a.entries@);
            assert(b.entries@.take(nb as int) =~= b.entries@);
        }
        Ok(LkTable { entries: out })
    }
}

/// A key present at position `i` of a sorted list carries the list's
/// whole count for that key.
pub proof fn lemma_entries_mult_at(s: Seq<(u64, u64)>, i: int, k: u64)
    requires
        entries_sorted(s),
        0 <= i < s.len(),
        s[i].0 == k,
    ensures
        entries_mult(s, k) == s[i].1,
    decreases i,
{
    if i == 0 {
    } else {
        assert(s.first().0 < s[i].0);
        assert(s.drop_first()[i - 1] == s[i]);
        assert(forall|t1: int, t2: int|
            0 <= t1 < t2 < s.drop_first().len() ==> (#[trigger] s.drop_first()[t1]).0 < (
            #[trigger] s.drop_first()[t2]).0);
        lemma_entries_mult_at(s.drop_first(), i - 1, k);
    }
}

/// A key absent from a list carries no count.
pub proof fn lemma_entries_mult_absent(s: Seq<(u64, u64)>, k: u64)
    requires
        forall|i: int| 0 <= i < s.len() ==> (#[trigger] s[i]).0 != k,
    ensures
        entries_mult(s, k) == 0,
    decreases s.len(),
{
    if s.len() > 0 {
        lemma_entries_mult_absent(s.drop_first(), k);
    }
}

/// Appending a strictly larger key adds its count and disturbs no other.
pub proof fn lemma_entries_mult_push(s: Seq<(u64, u64)>, key: u64, count: u64, k: u64)
    requires
        forall|t: int| 0 <= t < s.len() ==> (#[trigger] s[t]).0 < key,
    ensures
        entries_mult(s.push((key, count)), k) == entries_mult(s, k) + (if k == key {
            count as int
        } else {
            0
        }),
    decreases s.len(),
{
    if s.len() == 0 {
        assert(s.push((key, count)).first() == (key, count));
        assert(s.push((key, count)).drop_first() =~= Seq::<(u64, u64)>::empty());
        if k == key {
        } else {
            lemma_entries_mult_absent(s.push((key, count)), k);
        }
    } else {
        assert(s.push((key, count)).first() == s.first());
        assert(s.push((key, count)).drop_first() =~= s.drop_first().push((key, count)));
        if s.first().0 == k {
            assert(k != key);
        } else {
            lemma_entries_mult_push(s.drop_first(), key, count, k);
        }
    }
}

/// Canonical form: tables in sorted positive form with the same counts
/// are the same table.
pub proof fn lemma_table_canonical(a: Seq<(u64, u64)>, b: Seq<(u64, u64)>)
    requires
        entries_sorted(a),
        entries_positive(a),
        entries_sorted(b),
        entries_positive(b),
        forall|k: u64| #[trigger] entries_mult(a, k) == entries_mult(b, k),
    ensures
        a =~= b,
    decreases a.len() + b.len(),
{
    if a.len() == 0 && b.len() == 0 {
    } else if a.len() == 0 {
        let k = b.first().0;
        lemma_entries_mult_absent(a, k);
        assert(entries_mult(b, k) == b.first().1);
        assert(false);
    } else if b.len() == 0 {
        let k = a.first().0;
        lemma_entries_mult_absent(b, k);
        assert(entries_mult(a, k) == a.first().1);
        assert(false);
    } else {
        let ka = a.first().0;
        let kb = b.first().0;
        if ka < kb {
            assert(entries_mult(a, ka) == a.first().1);
            assert(forall|i: int| 0 <= i < b.len() ==> (#[trigger] b[i]).0 != ka) by {
                assert(forall|i: int| 1 <= i < b.len() ==> kb < (#[trigger] b[i]).0);
            }
            lemma_entries_mult_absent(b, ka);
            assert(false);
        }
        if kb < ka {
            assert(entries_mult(b, kb) == b.first().1);
            assert(forall|i: int| 0 <= i < a.len() ==> (#[trigger] a[i]).0 != kb) by {
                assert(forall|i: int| 1 <= i < a.len() ==> ka < (#[trigger] a[i]).0);
            }
            lemma_entries_mult_absent(a, kb);
            assert(false);
        }
        assert(ka == kb);
        assert(a.first().1 == b.first().1) by {
            assert(entries_mult(a, ka) == a.first().1);
            assert(entries_mult(b, ka) == b.first().1);
        }
        assert(forall|t1: int, t2: int|
            0 <= t1 < t2 < a.drop_first().len() ==> (#[trigger] a.drop_first()[t1]).0 < (
            #[trigger] a.drop_first()[t2]).0);
        assert(forall|t1: int, t2: int|
            0 <= t1 < t2 < b.drop_first().len() ==> (#[trigger] b.drop_first()[t1]).0 < (
            #[trigger] b.drop_first()[t2]).0);
        assert forall|k: u64| #[trigger] entries_mult(a.drop_first(), k) == entries_mult(
            b.drop_first(),
            k,
        ) by {
            if k == ka {
                assert(forall|i: int|
                    0 <= i < a.drop_first().len() ==> (#[trigger] a.drop_first()[i]).0 != k) by {
                    assert(forall|i: int| 1 <= i < a.len() ==> ka < (#[trigger] a[i]).0);
                    assert(forall|i: int|
                        0 <= i < a.drop_first().len() ==> a.drop_first()[i] == a[i + 1]);
                }
                assert(forall|i: int|
                    0 <= i < b.drop_first().len() ==> (#[trigger] b.drop_first()[i]).0 != k) by {
                    assert(forall|i: int| 1 <= i < b.len() ==> kb < (#[trigger] b[i]).0);
                    assert(forall|i: int|
                        0 <= i < b.drop_first().len() ==> b.drop_first()[i] == b[i + 1]);
                }
                lemma_entries_mult_absent(a.drop_first(), k);
                lemma_entries_mult_absent(b.drop_first(), k);
            } else {
                assert(entries_mult(a, k) == entries_mult(a.drop_first(), k));
                assert(entries_mult(b, k) == entries_mult(b.drop_first(), k));
            }
        }
        lemma_table_canonical(a.drop_first(), b.drop_first());
        assert(a =~= b) by {
            assert(a.first() == b.first());
            assert(forall|i: int| 1 <= i < a.len() ==> #[trigger] a[i] == a.drop_first()[i - 1]);
            assert(forall|i: int| 1 <= i < b.len() ==> #[trigger] b[i] == b.drop_first()[i - 1]);
        }
    }
}

/// Merge idempotence under reordering: merging the same pair of tables in
/// either order yields the identical table, entry for entry.
pub proof fn lemma_merge_commutes(ab: LkTable, ba: LkTable, a: LkTable, b: LkTable)
    requires
        ab.wf(),
        ba.wf(),
        forall|k: u64| #[trigger] ab.mult_of(k) == a.mult_of(k) + b.mult_of(k),
        forall|k: u64| #[trigger] ba.mult_of(k) == b.mult_of(k) + a.mult_of(k),
    ensures
        ab.entries@ == ba.entries@,
{
    assert forall|k: u64| #[trigger] entries_mult(ab.entries@, k) == entries_mult(
        ba.entries@,
        k,
    ) by {
        assert(ab.mult_of(k) == a.mult_of(k) + b.mult_of(k));
        assert(ba.mult_of(k) == b.mult_of(k) + a.mult_of(k));
    }
    lemma_table_canonical(ab.entries@, ba.entries@);
}

/// Any count a table holds fits the machine word it is stored in.
pub proof fn lemma_entries_mult_bound(s: Seq<(u64, u64)>, k: u64)
    ensures
        0 <= entries_mult(s, k) <= u64::MAX,
    decreases s.len(),
{
    if s.len() > 0 {
        lemma_entries_mult_bound(s.drop_first(), k);
    }
}

/// The position of a table type among the fixed tables.
pub open spec fn spec_rom_index(rom_type: ROMType) -> int {
    match rom_type {
        ROMType::U5 => 0,
        ROMType::U16 => 1,
        ROMType::And => 2,
        ROMType::Ltu => 3,
    }
}

/// The position of a table type among the fixed tables.
pub fn rom_index(rom_type: ROMType) -> (r: usize)
    ensures
        r == spec_rom_index(rom_type),
        r < 4,
{
    match rom_type {
        ROMType::U5 => 0,
        ROMType::U16 => 1,
        ROMType::And => 2,
        ROMType::Ltu => 3,
    }
}

/// The lookup multiplicities one opcode circuit accumulates while its
/// witness is assigned: one table per fixed table type.
pub struct LkMultiplicity {
    pub tables: Vec<LkTable>,
}

impl LkMultiplicity {
    /// One well-formed table per table type.
    pub open spec fn wf(self) -> bool {
        self.tables@.len() == 4 && forall|i: int| 0 <= i < 4 ==> (#[trigger] self.tables@[i]).wf()
    }

    /// All counts zero.
    pub fn new() -> (r: LkMultiplicity)
        ensures
            r.wf(),
            forall|i: int, k: u64|
                0 <= i < 4 ==> #[trigger] r.tables@[i].mult_of(k) == 0,
    {
        let mut tables: Vec<LkTable> = Vec::new();
        tables.push(LkTable::new());
        tables.push(LkTable::new());
        tables.push(LkTable::new());
        tables.push(LkTable::new());
        LkMultiplicity { tables }
    }

    /// Counts one query of a key against a table.
    pub fn increment(&mut self, rom_type: ROMType, key: u64)
        requires
            old(self).wf(),
            old(self).tables@[spec_rom_index(rom_type)].mult_of(key) < u64::MAX,
        ensures
            final(self).wf(),
            final(self).tables@[spec_rom_index(rom_type)].mult_of(key) == old(self).tables@[
                spec_rom_index(rom_type)].mult_of(key) + 1,
            forall|i: int, k: u64|
                0 <= i < 4 && (i != spec_rom_index(rom_type) || k != key)
                    ==> #[trigger] final(self).tables@[i].mult_of(k) == old(self).tables@[
                    i].mult_of(k),
    {
        let idx = rom_index(rom_type);
        let mut table = self.tables.remove(idx);
        table.increment(key);
        self.tables.insert(idx, table);
        proof {
            assert(self.tables@ =~= old(self).tables@.update(
                spec_rom_index(rom_type),
                self.tables@[spec_rom_index(rom_type)],
            ));
        }
    }

    /// Hands the accumulated tables out for merging.
    pub fn into_finalize_result(self) -> (r: Vec<LkTable>)
        ensures
            r@ == self.tables@,
    {
        self.tables
    }

    /// Checks the well-formedness of every table, so that externally
    /// assembled multiplicities can be validated before merging.
    pub fn is_well_formed(&self) -> (r: bool)
        ensures
            r == self.wf(),
    {
        if self.tables.len() != 4 {
            return false;
        }
        let mut i: usize = 0;
        while i < 4
            invariant
                i <= 4,
                self.tables@.len() == 4,
                forall|t: int| 0 <= t < i ==> (#[trigger] self.tables@[t]).wf(),
            decreases 4 - i,
        {
            if !self.tables[i].is_well_formed() {
                return false;
            }
            i += 1;
        }
        true
    }
}

/// A chain of adjacent increases is a strict order across the list.
proof fn lemma_sorted_range(s: Seq<(u64, u64)>, i: int, j: int)
    requires
        forall|t: int| 0 <= t < s.len() - 1 ==> (#[trigger] s[t]).0 < s[t + 1].0,
        0 <= i < j < s.len(),
    ensures
        s[i].0 < s[j].0,
    decreases j - i,
{
    if j > i + 1 {
        lemma_sorted_range(s, i, j - 1);
    }
}

impl LkTable {
    /// Checks the canonical-form invariant.
    pub fn is_well_formed(&self) -> (r: bool)
        ensures
            r == self.wf(),
    {
        let n = self.entries.len();
        let mut i: usize = 0;
        while i < n
            invariant
                i <= n,
                n == self.entries@.len(),
                forall|t: int| 0 <= t < i ==> (#[trigger] self.entries@[t]).1 > 0,
                forall|t: int|
                    0 <= t < i && t < n - 1 ==> (#[trigger] self.entries@[t]).0 < self.entries@[t
                        + 1].0,
            decreases n - i,
        {
            if self.entries[i].1 == 0 {
                return false;
            }
            if i + 1 < n && self.entries[i].0 >= self.entries[i + 1].0 {
                return false;
            }
            i += 1;
        }
        proof {
            assert forall|t1: int, t2: int| 0 <= t1 < t2 < n implies (
            #[trigger] self.entries@[t1]).0 < (#[trigger] self.entries@[t2]).0 by {
                lemma_sorted_range(self.entries@, t1, t2);
            }
        }
        true
    }
}

} // verus!
