//! Tables for the commitments to instance columns.
use crate::arith;
use crate::curve;
use crate::curve::CurveAffine;
use crate::domain::power_of_two;
use crate::encoding::point_range;
use crate::field::Field;
use crate::params::Params;
use crate::shared::{Grows, Holds};
use crate::windows::{SPARSE_COMMITMENT_WINDOW_MAGNITUDES, WindowTable};
use vstd::arithmetic::mul::*;
use vstd::arithmetic::power2::*;
use std::sync::Arc;
use vstd::prelude::*;

verus! {

/// The rows of public inputs that hold full scalars: an anchor, a value commitment's two
/// coordinates, a nullifier, a key's two coordinates and a note commitment.
pub const PREPARED_INSTANCE_DENSE_ROWS: usize = 7;

/// The rows behind them that hold flags.
pub const PREPARED_INSTANCE_BOOLEAN_ROWS: u32 = 2;

/// Multiples of the rows that hold full scalars, and the sums of the blind's base with
/// every choice of the rows that hold zero or one.
#[derive(Clone, Debug)]
pub struct PreparedInstanceTable<C: CurveAffine> {
    pub table: WindowTable<C>,
    pub offsets: Vec<C>,
}

/// Entry `e` of base `b` is the base taken `e + 1` times.
pub open spec fn is_multiple<C: CurveAffine>(
    points: Seq<C>,
    bases: Seq<C>,
    entries: int,
    b: int,
    e: int,
) -> bool {
    curve::log(points[b * entries + e]) == ((e + 1) * curve::log(bases[b])) % C::ScalarExt::order()
}

/// The entries before entry `e` of base `b`.
pub open spec fn multiples_before<C: CurveAffine>(
    points: Seq<C>,
    bases: Seq<C>,
    entries: int,
    b: int,
    e: int,
) -> bool {
    forall|i: int, j: int|
        0 <= i && 0 <= j < entries && (i < b || i == b && j < e) ==> #[trigger] is_multiple(
            points,
            bases,
            entries,
            i,
            j,
        )
}

proof fn lemma_entry_before(i: int, j: int, b: int, e: int, entries: int)
    requires
        0 <= i,
        0 <= j < entries,
        i < b || i == b && j < e,
        0 <= e,
    ensures
        0 <= i * entries + j < b * entries + e,
{
    lemma_mul_nonnegative(i, entries);
    if i < b {
        lemma_mul_inequality(i + 1, b, entries);
        lemma_mul_is_distributive_add_other_way(entries, i, 1);
    }
}

/// The sum of the points, from `first` on, that the bits of the mask choose.
pub open spec fn chosen_sum(points: Seq<int>, first: int, mask: int, flags: nat) -> int
    decreases flags,
{
    if flags == 0 {
        0
    } else {
        (if mask % 2 == 1 {
            points[first]
        } else {
            0
        }) + chosen_sum(points, first + 1, mask / 2, (flags - 1) as nat)
    }
}

impl<C: CurveAffine> PreparedInstanceTable<C> {
    /// The table is that of the first rows, with the blind's base.
    pub open spec fn fits(
        &self,
        rows: Seq<C>,
        blind: C,
        dense_rows: int,
        boolean_rows: nat,
    ) -> bool {
        &&& dense_rows + boolean_rows <= rows.len()
        &&& self.table.wf()
        &&& self.table.half == SPARSE_COMMITMENT_WINDOW_MAGNITUDES
        &&& self.table.bases@ == rows.take(dense_rows)
        &&& self.offsets@.len() == pow2(boolean_rows)
        &&& curve::all_on_curve(self.offsets@)
        &&& forall|mask: int|
            0 <= mask < self.offsets@.len() ==> curve::log(#[trigger] self.offsets@[mask]) == (curve::log(
                blind,
            ) + chosen_sum(curve::logs(rows), dense_rows, mask, boolean_rows)) % C::ScalarExt::order()
    }
}

/// Multiples, from one up, of the first bases of a list: `entries` of each.
pub struct InstanceWindows<C: CurveAffine> {
    pub base_count: usize,
    pub entries: usize,
    pub points: Vec<C>,
}

impl<C: CurveAffine> InstanceWindows<C> {
    /// The table is that of the first rows.
    pub open spec fn fits(&self, rows: Seq<C>) -> bool {
        &&& self.base_count <= rows.len()
        &&& self.points@.len() == self.base_count * self.entries
        &&& curve::all_on_curve(self.points@)
        &&& forall|b: int, e: int|
            0 <= b < self.base_count && 0 <= e < self.entries ==> #[trigger] is_multiple(
                self.points@,
                rows,
                self.entries as int,
                b,
                e,
            )
    }
}

impl<C: CurveAffine> Grows for InstanceWindows<C> {
    open spec fn covered_by(self, other: Self) -> bool {
        self.entries == other.entries && self.base_count <= other.base_count
    }

    fn covers(&self, other: &Self) -> (r: bool) {
        other.entries == self.entries && other.base_count <= self.base_count
    }
}

impl<C: CurveAffine> Params<C> {
    /// The multiples of the first bases of the evaluation form. The table is shared with
    /// all clones and kept: one that is there already is returned if it has the multiples
    /// of at least so many bases, and a larger one takes its place if it has not.
    pub fn instance_window_table(&self, base_count: usize, entries: usize) -> (r: Arc<
        InstanceWindows<C>,
    >)
        requires
            self.wf(),
            base_count <= self.n,
            base_count * entries <= usize::MAX,
        ensures
            r.entries == entries,
            r.base_count >= base_count,
            r.fits(self.g_lagrange@),
    {
        let held = self.instance_windows.get();
        let large_enough = match &held {
            Some(table) => table.entries == entries && table.base_count >= base_count,
            None => false,
        };
        match held {
            Some(table) if large_enough => table,
            _ => {
                let points = self.instance_multiples(base_count, entries);
                self.instance_windows.grow(InstanceWindows { base_count, entries, points })
            },
        }
    }

    /// The given number of multiples, from one up, of each of the first bases of the
    /// evaluation form.
    pub fn instance_multiples(&self, base_count: usize, entries: usize) -> (r: Vec<C>)
        requires
            self.wf(),
            base_count <= self.n,
            base_count * entries <= usize::MAX,
        ensures
            r@.len() == base_count * entries,
            curve::all_on_curve(r@),
            forall|b: int, e: int|
                0 <= b < base_count && 0 <= e < entries ==> #[trigger] is_multiple(
                    r@,
                    self.g_lagrange@,
                    entries as int,
                    b,
                    e,
                ),
    {
        let ghost bases = self.g_lagrange@;
        let ghost q = C::ScalarExt::order();
        let mut r: Vec<C> = Vec::new();
        let mut b: usize = 0;
        proof {
            C::ScalarExt::lemma_order();
            lemma_mul_basics(entries as int);
        }
        while b < base_count
            invariant
                b <= base_count,
                base_count <= self.n,
                self.wf(),
                bases == self.g_lagrange@,
                q == C::ScalarExt::order(),
                q > 2,
                r@.len() == b * entries,
                curve::all_on_curve(r@),
                multiples_before(r@, bases, entries as int, b as int, 0),
            decreases base_count - b,
        {
            assert(bases[b as int].on_curve());
            let base = self.g_lagrange[b];
            let mut multiple = base;
            let mut e: usize = 0;
            proof {
                base.lemma_point();
                lemma_mul_basics(curve::log(base));
                arith::lemma_mod_small(curve::log(base), q);
            }
            while e < entries
                invariant
                    e <= entries,
                    b < base_count,
                    base == bases[b as int],
                    base.on_curve(),
                    multiple.on_curve(),
                    q == C::ScalarExt::order(),
                    q > 2,
                    curve::log(multiple) == ((e + 1) * curve::log(base)) % q,
                    r@.len() == b * entries + e,
                    curve::all_on_curve(r@),
                    multiples_before(r@, bases, entries as int, b as int, e as int),
                decreases entries - e,
            {
                let ghost before = r@;
                r.push(multiple);
                proof {
                    assert forall|i: int, j: int|
                        0 <= i && 0 <= j < entries && (i < b || i == b && j < e
                            + 1) implies #[trigger] is_multiple(
                        r@,
                        bases,
                        entries as int,
                        i,
                        j,
                    ) by {
                        if i < b || j < e {
                            lemma_entry_before(i, j, b as int, e as int, entries as int);
                            assert(is_multiple(before, bases, entries as int, i, j));
                        }
                    }
                    lemma_mul_is_distributive_add_other_way(curve::log(base), e + 1, 1);
                    arith::lemma_mod_add((e + 1) * curve::log(base), curve::log(base), q);
                }
                multiple = multiple.add(base);
                e += 1;
            }
            proof {
                lemma_mul_is_distributive_add_other_way(entries as int, b as int, 1);
            }
            b += 1;
        }
        r
    }

    /// The sum of the blind's base and of the rows, from the given one on, that the bits
    /// of a mask choose.
    fn chosen_offset(&self, dense_rows: usize, boolean_rows: u32, mask: usize) -> (r: C)
        requires
            self.wf(),
            dense_rows + boolean_rows <= self.n,
        ensures
            r.on_curve(),
            curve::log(r) == (curve::log(self.w) + chosen_sum(
                curve::logs(self.g_lagrange@),
                dense_rows as int,
                mask as int,
                boolean_rows as nat,
            )) % C::ScalarExt::order(),
    {
        let ghost q = C::ScalarExt::order();
        let ghost points = curve::logs(self.g_lagrange@);
        let ghost total = curve::log(self.w) + chosen_sum(
            points,
            dense_rows as int,
            mask as int,
            boolean_rows as nat,
        );
        let mut sum = self.w;
        let mut rest: usize = mask;
        let mut flag: u32 = 0;
        let mut row: usize = dense_rows;
        let ghost mut done: int = curve::log(self.w);
        proof {
            C::ScalarExt::lemma_order();
            self.w.lemma_point();
            arith::lemma_mod_small(curve::log(self.w), q);
        }
        while flag < boolean_rows
            invariant
                flag <= boolean_rows,
                row == dense_rows + flag,
                dense_rows + boolean_rows <= self.n,
                self.wf(),
                points == curve::logs(self.g_lagrange@),
                q == C::ScalarExt::order(),
                q > 2,
                sum.on_curve(),
                curve::log(sum) == done % q,
                total == done + chosen_sum(
                    points,
                    row as int,
                    rest as int,
                    (boolean_rows - flag) as nat,
                ),
            decreases boolean_rows - flag,
        {
            assert(self.g_lagrange@[row as int].on_curve());
            proof {
                arith::lemma_mod_add(done, points[row as int], q);
                if rest % 2 == 1 {
                    done = done + points[row as int];
                }
            }
            if rest % 2 == 1 {
                sum = sum.add(self.g_lagrange[row]);
            }
            rest = rest / 2;
            row += 1;
            flag += 1;
        }
        sum
    }

    /// The table of the first rows, if there are enough of them.
    pub fn instance_table(&self, dense_rows: usize, boolean_rows: u32) -> (r: Option<
        PreparedInstanceTable<C>,
    >)
        requires
            self.wf(),
            dense_rows * 4096 <= usize::MAX,
            boolean_rows < 32,
        ensures
            r is Some <==> dense_rows + boolean_rows <= self.n,
            r matches Some(table) ==> table.fits(
                self.g_lagrange@,
                self.w,
                dense_rows as int,
                boolean_rows as nat,
            ),
    {
        let rows: usize = self.g_lagrange.len();
        if boolean_rows as usize > rows || dense_rows > rows - boolean_rows as usize {
            return None;
        }
        let bases = point_range(&self.g_lagrange, 0, dense_rows);
        assert(bases@ =~= self.g_lagrange@.take(dense_rows as int));
        let table = WindowTable::new(bases, SPARSE_COMMITMENT_WINDOW_MAGNITUDES);
        proof {
            lemma2_to64();
            if boolean_rows < 31 {
                lemma_pow2_strictly_increases(boolean_rows as nat, 31);
            }
        }
        let count: usize = power_of_two(boolean_rows);
        let mut offsets: Vec<C> = Vec::with_capacity(count);
        let mut mask: usize = 0;
        while mask < count
            invariant
                mask <= count,
                self.wf(),
                dense_rows + boolean_rows <= self.n,
                offsets@.len() == mask,
                curve::all_on_curve(offsets@),
                forall|m: int|
                    0 <= m < mask ==> curve::log(#[trigger] offsets@[m]) == (curve::log(self.w) + chosen_sum(
                        curve::logs(self.g_lagrange@),
                        dense_rows as int,
                        m,
                        boolean_rows as nat,
                    )) % C::ScalarExt::order(),
            decreases count - mask,
        {
            let offset = self.chosen_offset(dense_rows, boolean_rows, mask);
            offsets.push(offset);
            mask += 1;
        }
        Some(PreparedInstanceTable { table, offsets })
    }

    /// Builds the table of the rows of public inputs, unless it is there, and returns the one
    /// that is there. There is none where the parameters have fewer rows.
    pub fn held_instance_table(&self) -> (r: Option<Arc<PreparedInstanceTable<C>>>)
        requires
            self.wf(),
        ensures
            r is Some <==> PREPARED_INSTANCE_DENSE_ROWS + PREPARED_INSTANCE_BOOLEAN_ROWS
                <= self.n,
            r matches Some(table) ==> self.prepared_instance.rule().holds(*table),
    {
        match self.prepared_instance_table() {
            Some(table) => Some(table),
            None => match self.instance_table(
                PREPARED_INSTANCE_DENSE_ROWS,
                PREPARED_INSTANCE_BOOLEAN_ROWS,
            ) {
                Some(table) => Some(self.prepared_instance.put(table)),
                None => None,
            },
        }
    }

    /// Prepares the table of the rows of public inputs, for all clones. Returns whether the
    /// parameters have so many rows.
    pub fn prepare_instance_table(&self) -> (r: bool)
        requires
            self.wf(),
        ensures
            r <==> PREPARED_INSTANCE_DENSE_ROWS + PREPARED_INSTANCE_BOOLEAN_ROWS <= self.n,
    {
        self.held_instance_table().is_some()
    }

    /// The prepared table of the rows of public inputs, which all clones share.
    pub fn prepared_instance_table(&self) -> (r: Option<Arc<PreparedInstanceTable<C>>>)
        requires
            self.wf(),
        ensures
            r matches Some(table) ==> self.prepared_instance.rule().holds(*table),
            r is Some ==> PREPARED_INSTANCE_DENSE_ROWS + PREPARED_INSTANCE_BOOLEAN_ROWS
                <= self.n,
    {
        self.prepared_instance.get()
    }
}

} // verus!
