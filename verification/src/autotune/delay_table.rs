//! Delay measurements, aggregated by operating point.

use crate::machine::{
    is_product, is_sum, lemma_differences_rise, lemma_near_product, lemma_near_quotient,
    lemma_near_unscaled, lemma_neutral, near, size, Calc, Fp, Machine, Style,
};
use crate::num::{law_rank_orders_values, lemma_zero_and_one, unit, Num, ONE, ZERO};
use vstd::prelude::*;

verus! {

/// Upper edges of the rpm bins: 1200, 2000, 3000, 4500, 6500. The grid is
/// fixed and coarse, for a small naturally aspirated engine.
pub const RPM_EDGES: [u64; 5] = [
    0x4092_C000_0000_0000,
    0x409F_4000_0000_0000,
    0x40A7_7000_0000_0000,
    0x40B1_9400_0000_0000,
    0x40B9_6400_0000_0000,
];

/// Upper edges of the load bins: 40, 60, 80, 100.
pub const LOAD_EDGES: [u64; 4] = [
    0x4044_0000_0000_0000,
    0x404E_0000_0000_0000,
    0x4054_0000_0000_0000,
    0x4059_0000_0000_0000,
];

/// One aggregated cell of the delay table.
#[derive(Clone, Copy, Debug, PartialEq)]
pub struct DelayCell {
    /// How many delays the cell holds.
    pub n: u32,
    /// Their mean.
    pub mean_ms: Num,
    /// Simple spread indicator: the largest less the smallest.
    pub range_ms: Num,
    /// The smallest delay folded in so far.
    pub min_ms: Num,
    /// The largest delay folded in so far.
    pub max_ms: Num,
}

/// A cell that nothing has been folded into.
pub open spec fn blank_cell() -> DelayCell {
    let zero = Num { bits: ZERO };
    DelayCell { n: 0, mean_ms: zero, range_ms: zero, min_ms: zero, max_ms: zero }
}

impl Default for DelayCell {
    fn default() -> (r: DelayCell)
        ensures
            r == blank_cell(),
    {
        let zero = Num { bits: ZERO };
        DelayCell { n: 0, mean_ms: zero, range_ms: zero, min_ms: zero, max_ms: zero }
    }
}

/// A cell with one more delay folded in.
pub open spec fn folded(fp: Fp, c: DelayCell, delay_ms: Num) -> DelayCell {
    let n = fp.count(c.n as int);
    let min_ms = if c.n == 0 {
        delay_ms
    } else {
        c.min_ms.smaller(delay_ms)
    };
    let max_ms = if c.n == 0 {
        delay_ms
    } else {
        c.max_ms.larger(delay_ms)
    };
    DelayCell {
        n: (c.n + 1) as u32,
        mean_ms: fp.div(fp.add(fp.mul(c.mean_ms, n), delay_ms), fp.add(n, Num { bits: ONE })),
        range_ms: fp.sub(max_ms, min_ms),
        min_ms,
        max_ms,
    }
}

/// A cell with several delays folded in, one after the other.
pub open spec fn folded_all(fp: Fp, c: DelayCell, delays: Seq<Num>) -> DelayCell
    decreases delays.len(),
{
    if delays.len() == 0 {
        c
    } else {
        folded(fp, folded_all(fp, c, delays.drop_last()), delays.last())
    }
}

/// The first bin, from `i` on, whose upper edge lies above `v`; the
/// open-ended bin behind the edges where there is none.
pub open spec fn bin_from(edges: Seq<Num>, v: Num, i: int) -> int
    decreases edges.len() - i,
{
    if 0 <= i < edges.len() && !v.below(edges[i]) {
        bin_from(edges, v, i + 1)
    } else {
        i
    }
}

/// The bin that `v` falls into.
pub open spec fn bin_of(edges: Seq<Num>, v: Num) -> int {
    bin_from(edges, v, 0)
}

/// No edge lies below one before it, and none is a NaN.
pub open spec fn ascending(edges: Seq<Num>) -> bool {
    forall|i: int, j: int| 0 <= i <= j < edges.len() ==> edges[i].at_most(edges[j])
}

/// rpm × load grid of aggregated delay measurements.
#[derive(Clone, Debug)]
pub struct DelayTable {
    /// Upper edges of the rpm bins; the last bin is open-ended.
    pub rpm_edges: Vec<Num>,
    /// Upper edges of the load bins; the last bin is open-ended.
    pub load_edges: Vec<Num>,
    /// `cells[load_bin][rpm_bin]`
    pub cells: Vec<Vec<DelayCell>>,
}

/// A table, as mathematical values.
#[verifier::ext_equal]
pub struct Grid {
    pub rpm_edges: Seq<Num>,
    pub load_edges: Seq<Num>,
    pub cells: Seq<Seq<DelayCell>>,
}

impl Grid {
    /// The bins of an operating point: `(load_bin, rpm_bin)`.
    pub open spec fn bins_of(self, rpm: Num, load: Num) -> (int, int) {
        (bin_of(self.load_edges, load), bin_of(self.rpm_edges, rpm))
    }

    /// Every bin has its cell.
    pub open spec fn wf(self) -> bool {
        &&& self.cells.len() == self.load_edges.len() + 1
        &&& forall|l: int|
            0 <= l < self.cells.len() ==> (#[trigger] self.cells[l]).len() == self.rpm_edges.len()
                + 1
    }

    /// The table has a cell for an operating point.
    pub open spec fn covers(self, rpm: Num, load: Num) -> bool {
        let (l, r) = self.bins_of(rpm, load);
        l < self.cells.len() && r < self.cells[l].len()
    }

    /// The table with one more measurement in the cell of its operating point.
    pub open spec fn added(self, fp: Fp, rpm: Num, load: Num, delay_ms: Num) -> Grid {
        let (l, r) = self.bins_of(rpm, load);
        let row = self.cells[l];
        Grid {
            rpm_edges: self.rpm_edges,
            load_edges: self.load_edges,
            cells: self.cells.update(l, row.update(r, folded(fp, row[r], delay_ms))),
        }
    }
}

/// The table over the fixed grid, with nothing in it.
pub open spec fn blank_grid() -> Grid {
    Grid {
        rpm_edges: RPM_EDGES@.map_values(|bits: u64| Num { bits }),
        load_edges: LOAD_EDGES@.map_values(|bits: u64| Num { bits }),
        cells: Seq::new(5, |l: int| Seq::new(6, |r: int| blank_cell())),
    }
}

impl View for DelayTable {
    type V = Grid;

    open spec fn view(&self) -> Grid {
        Grid {
            rpm_edges: self.rpm_edges@,
            load_edges: self.load_edges@,
            cells: self.cells@.map_values(|row: Vec<DelayCell>| row@),
        }
    }
}

impl DelayTable {
    /// A table of blank cells over the fixed grid.
    pub fn new() -> (t: Self)
        ensures
            t@ == blank_grid(),
            t@.wf(),
            ascending(t@.rpm_edges),
            ascending(t@.load_edges),
    {
        let rpm_edges = numbers(&RPM_EDGES);
        let load_edges = numbers(&LOAD_EDGES);
        let mut cells: Vec<Vec<DelayCell>> = Vec::new();
        while cells.len() < load_edges.len() + 1
            invariant
                load_edges@.len() == LOAD_EDGES@.len(),
                rpm_edges@.len() == RPM_EDGES@.len(),
                cells.len() <= load_edges.len() + 1,
                forall|l: int|
                    0 <= l < cells.len() ==> (#[trigger] cells@[l])@.len() == rpm_edges.len() + 1,
                forall|l: int, r: int|
                    0 <= l < cells.len() && 0 <= r <= rpm_edges.len() ==> #[trigger] cells@[l]@[r]
                        == blank_cell(),
            decreases load_edges.len() + 1 - cells.len(),
        {
            let mut row: Vec<DelayCell> = Vec::new();
            while row.len() < rpm_edges.len() + 1
                invariant
                    rpm_edges@.len() == RPM_EDGES@.len(),
                    row.len() <= rpm_edges.len() + 1,
                    forall|r: int| 0 <= r < row.len() ==> #[trigger] row@[r] == blank_cell(),
                decreases rpm_edges.len() + 1 - row.len(),
            {
                row.push(DelayCell::default());
            }
            cells.push(row);
        }
        let t = DelayTable { rpm_edges, load_edges, cells };
        assert(t@.cells =~~= blank_grid().cells);
        t
    }

    fn bin(edges: &Vec<Num>, v: Num) -> (r: usize)
        ensures
            r == bin_of(edges@, v),
            r <= edges.len(),
    {
        let mut i: usize = 0;
        while i < edges.len() && !v.lt(edges[i])
            invariant
                i <= edges.len(),
                bin_of(edges@, v) == bin_from(edges@, v, i as int),
            decreases edges.len() - i,
        {
            i += 1;
        }
        i
    }

    /// Bin indices for an operating point, for callers that need to address a
    /// cell directly: `(load_bin, rpm_bin)`.
    pub fn cell_index(&self, rpm: Num, load: Num) -> (r: (usize, usize))
        ensures
            r.0 == bin_of(self.load_edges@, load),
            r.1 == bin_of(self.rpm_edges@, rpm),
            r.0 <= self.load_edges.len(),
            r.1 <= self.rpm_edges.len(),
    {
        (Self::bin(&self.load_edges, load), Self::bin(&self.rpm_edges, rpm))
    }

    /// Fold one measurement taken at (rpm, load) into its cell.
    pub fn add<C: Fn(Calc) -> Num, S: Fn(Num, Style) -> String>(
        &mut self,
        machine: &Machine<C, S>,
        rpm: Num,
        load: Num,
        delay_ms: Num,
    )
        requires
            machine.total(),
            old(self)@.covers(rpm, load),
            ({
                let (l, r) = old(self)@.bins_of(rpm, load);
                old(self)@.cells[l][r].n < u32::MAX
            }),
        ensures
            forall|fp: Fp| #[trigger]
                machine.follows(fp) ==> final(self)@ == old(self)@.added(fp, rpm, load, delay_ms),
            ({
                let (l, r) = old(self)@.bins_of(rpm, load);
                let (before, after) = (old(self)@, final(self)@);
                &&& after.rpm_edges == before.rpm_edges
                &&& after.load_edges == before.load_edges
                &&& after.cells == before.cells.update(
                    l,
                    before.cells[l].update(r, after.cells[l][r]),
                )
                &&& after.cells[l][r].n == before.cells[l][r].n + 1
            }),
            old(self)@.wf() ==> final(self)@.wf(),
    {
        let (l, r): (usize, usize) = self.cell_index(rpm, load);
        let mut c: DelayCell = self.cells[l][r];
        if c.n == 0 {
            c.min_ms = delay_ms;
            c.max_ms = delay_ms;
        } else {
            c.min_ms = c.min_ms.min(delay_ms);
            c.max_ms = c.max_ms.max(delay_ms);
        }
        let n = machine.count(c.n as u64);
        c.mean_ms = machine.div(
            machine.add(machine.mul(c.mean_ms, n), delay_ms),
            machine.add(n, Num { bits: ONE }),
        );
        c.n += 1;
        c.range_ms = machine.sub(c.max_ms, c.min_ms);
        let ghost before = self@;
        self.cells[l][r] = c;
        assert(self@.cells =~~= before.cells.update(
            l as int,
            before.cells[l as int].update(r as int, c),
        ));
    }
}

impl Default for DelayTable {
    fn default() -> (t: Self)
        ensures
            t@ == blank_grid(),
            t@.wf(),
            ascending(t@.rpm_edges),
            ascending(t@.load_edges),
    {
        Self::new()
    }
}

/// The numbers that some bit patterns stand for.
fn numbers(patterns: &[u64]) -> (r: Vec<Num>)
    ensures
        r@ == patterns@.map_values(|bits: u64| Num { bits }),
{
    let mut out: Vec<Num> = Vec::new();
    while out.len() < patterns.len()
        invariant
            out@ == patterns@.take(out.len() as int).map_values(|bits: u64| Num { bits }),
            out.len() <= patterns.len(),
        decreases patterns.len() - out.len(),
    {
        out.push(Num { bits: patterns[out.len()] });
    }
    out
}

/// A number falls into the first bin whose upper edge lies above it, and into
/// the open-ended bin where none does.
pub proof fn law_bin_is_first_above(edges: Seq<Num>, v: Num)
    ensures
        0 <= bin_of(edges, v) <= edges.len(),
        forall|i: int| 0 <= i < bin_of(edges, v) ==> !v.below(#[trigger] edges[i]),
        bin_of(edges, v) < edges.len() ==> v.below(edges[bin_of(edges, v)]),
{
    lemma_bin_from(edges, v, 0);
}

proof fn lemma_bin_from(edges: Seq<Num>, v: Num, i: int)
    requires
        0 <= i <= edges.len(),
    ensures
        i <= bin_from(edges, v, i) <= edges.len(),
        forall|k: int| i <= k < bin_from(edges, v, i) ==> !v.below(#[trigger] edges[k]),
        bin_from(edges, v, i) < edges.len() ==> v.below(edges[bin_from(edges, v, i)]),
    decreases edges.len() - i,
{
    if i < edges.len() && !v.below(edges[i]) {
        lemma_bin_from(edges, v, i + 1);
    }
}

/// The bins part the numbers: over ascending edges, a number lies in bin `b`
/// exactly when it has reached every edge before it and lies below its own.
pub proof fn law_bins_part_the_numbers(edges: Seq<Num>, v: Num, b: int)
    requires
        0 <= b <= edges.len(),
        !v.nan(),
        ascending(edges),
    ensures
        b == bin_of(edges, v) <==> (b > 0 ==> edges[b - 1].at_most(v)) && (b < edges.len()
            ==> v.below(edges[b])),
{
    law_bin_is_first_above(edges, v);
    let r = bin_of(edges, v);
    assert(b > 0 ==> edges[b - 1].at_most(edges[b - 1]));
    if b < r {
        assert(edges[b].at_most(edges[b]));
        assert(!v.below(edges[b]));
    }
    if r < b {
        assert(edges[r].at_most(edges[b - 1]));
    }
    if r == b && b > 0 {
        assert(!v.below(edges[b - 1]));
    }
}

/// A cell knows its extremes: after any number of delays, every one of them
/// lies between `min_ms` and `max_ms`, both are among them, `n` counts them,
/// and the range is what lies between.
pub proof fn law_cell_knows_its_extremes(fp: Fp, c: DelayCell, delays: Seq<Num>)
    requires
        c == blank_cell(),
        0 < delays.len() <= u32::MAX,
        forall|i: int| 0 <= i < delays.len() ==> !(#[trigger] delays[i]).nan(),
    ensures
        ({
            let r = folded_all(fp, c, delays);
            &&& r.n == delays.len()
            &&& forall|i: int|
                0 <= i < delays.len() ==> r.min_ms.at_most(#[trigger] delays[i])
                    && delays[i].at_most(r.max_ms)
            &&& delays.contains(r.min_ms)
            &&& delays.contains(r.max_ms)
            &&& r.range_ms == fp.sub(r.max_ms, r.min_ms)
        }),
    decreases delays.len(),
{
    let front = delays.drop_last();
    let r = folded_all(fp, c, delays);
    assert(delays.last() == delays[delays.len() - 1]);
    if front.len() > 0 {
        law_cell_knows_its_extremes(fp, c, front);
        let f = folded_all(fp, c, front);
        assert forall|i: int| 0 <= i < delays.len() implies r.min_ms.at_most(#[trigger] delays[i])
            && delays[i].at_most(r.max_ms) by {
            if i < front.len() {
                assert(front[i] == delays[i]);
            }
        }
        let lo = choose|i: int| 0 <= i < front.len() && front[i] == f.min_ms;
        let hi = choose|i: int| 0 <= i < front.len() && front[i] == f.max_ms;
        assert(delays[lo] == f.min_ms && delays[hi] == f.max_ms);
    } else {
        assert(front =~= Seq::<Num>::empty());
        assert(folded_all(fp, c, front) == c);
    }
}

/// One measurement: the rpm and the load it was taken at, and the delay.
pub struct Measured {
    pub rpm: Num,
    pub load: Num,
    pub delay_ms: Num,
}

/// A table with several measurements added, one after the other.
pub open spec fn added_all(fp: Fp, grid: Grid, measured: Seq<Measured>) -> Grid
    decreases measured.len(),
{
    if measured.len() == 0 {
        grid
    } else {
        let m = measured.last();
        added_all(fp, grid, measured.drop_last()).added(fp, m.rpm, m.load, m.delay_ms)
    }
}

/// The delays that were measured at the operating points of one cell.
pub open spec fn fallen(grid: Grid, measured: Seq<Measured>, cell: (int, int)) -> Seq<Num>
    decreases measured.len(),
{
    if measured.len() == 0 {
        Seq::empty()
    } else {
        let m = measured.last();
        let before = fallen(grid, measured.drop_last(), cell);
        if grid.bins_of(m.rpm, m.load) == cell {
            before.push(m.delay_ms)
        } else {
            before
        }
    }
}

proof fn lemma_added_all(fp: Fp, grid: Grid, measured: Seq<Measured>)
    requires
        grid.wf(),
    ensures
        ({
            let after = added_all(fp, grid, measured);
            &&& after.wf()
            &&& after.rpm_edges == grid.rpm_edges
            &&& after.load_edges == grid.load_edges
            &&& forall|l: int, r: int|
                0 <= l < grid.cells.len() && 0 <= r < grid.cells[l].len()
                    ==> #[trigger] after.cells[l][r] == folded_all(
                    fp,
                    grid.cells[l][r],
                    fallen(grid, measured, (l, r)),
                )
        }),
    decreases measured.len(),
{
    if measured.len() > 0 {
        let front = measured.drop_last();
        let m = measured.last();
        lemma_added_all(fp, grid, front);
        law_bin_is_first_above(grid.load_edges, m.load);
        law_bin_is_first_above(grid.rpm_edges, m.rpm);
        let before = added_all(fp, grid, front);
        let after = added_all(fp, grid, measured);
        let (bl, br) = grid.bins_of(m.rpm, m.load);
        assert(after.cells[bl].len() == before.cells[bl].len());
        assert forall|l: int, r: int|
            0 <= l < grid.cells.len() && 0 <= r < grid.cells[l].len() implies
            #[trigger] after.cells[l][r] == folded_all(
            fp,
            grid.cells[l][r],
            fallen(grid, measured, (l, r)),
        ) by {
            let delays = fallen(grid, front, (l, r));
            assert(before.cells[l][r] == folded_all(fp, grid.cells[l][r], delays));
            assert(delays.push(m.delay_ms).drop_last() =~= delays);
        }
    }
}

proof fn lemma_fallen(grid: Grid, measured: Seq<Measured>, cell: (int, int))
    requires
        forall|i: int| 0 <= i < measured.len() ==> (#[trigger] measured[i]).delay_ms.finite(),
    ensures
        fallen(grid, measured, cell).len() <= measured.len(),
        forall|i: int|
            0 <= i < fallen(grid, measured, cell).len() ==> (#[trigger] fallen(
                grid,
                measured,
                cell,
            )[i]).finite(),
    decreases measured.len(),
{
    if measured.len() > 0 {
        let front = measured.drop_last();
        assert forall|i: int| 0 <= i < front.len() implies (
        #[trigger] front[i]).delay_ms.finite() by {
            assert(front[i] == measured[i]);
        }
        lemma_fallen(grid, front, cell);
        assert(measured[measured.len() - 1].delay_ms.finite());
    }
}

/// A new table stays a grid of five load bins by six rpm bins over its edges,
/// whatever is added to it, and each cell is what the delays that fell into it
/// make of a blank cell, one after the other. A cell that nothing fell into is
/// blank.
pub proof fn law_each_cell_is_of_its_own_delays(
    fp: Fp,
    measured: Seq<Measured>,
    load_bin: int,
    rpm_bin: int,
)
    requires
        0 <= load_bin < 5,
        0 <= rpm_bin < 6,
    ensures
        ({
            let grid = added_all(fp, blank_grid(), measured);
            &&& grid.wf()
            &&& grid.rpm_edges == blank_grid().rpm_edges
            &&& grid.load_edges == blank_grid().load_edges
            &&& grid.cells.len() == 5
            &&& grid.cells[load_bin].len() == 6
            &&& grid.cells[load_bin][rpm_bin] == folded_all(
                fp,
                blank_cell(),
                fallen(blank_grid(), measured, (load_bin, rpm_bin)),
            )
        }),
{
    lemma_added_all(fp, blank_grid(), measured);
}

/// After any measurements, a cell of a new table counts the delays that fell
/// into it and knows their extremes, and its range is the largest less the
/// smallest, which is not negative.
pub proof fn law_each_cell_knows_its_own_delays(
    fp: Fp,
    measured: Seq<Measured>,
    load_bin: int,
    rpm_bin: int,
)
    requires
        fp.orderly(),
        fp.exact(),
        0 <= load_bin < 5,
        0 <= rpm_bin < 6,
        measured.len() <= u32::MAX,
        forall|i: int| 0 <= i < measured.len() ==> (#[trigger] measured[i]).delay_ms.finite(),
    ensures
        ({
            let delays = fallen(blank_grid(), measured, (load_bin, rpm_bin));
            let cell = added_all(fp, blank_grid(), measured).cells[load_bin][rpm_bin];
            &&& cell.n == delays.len()
            &&& delays.len() == 0 ==> cell == blank_cell()
            &&& delays.len() > 0 ==> {
                &&& forall|i: int|
                    0 <= i < delays.len() ==> cell.min_ms.at_most(#[trigger] delays[i])
                        && delays[i].at_most(cell.max_ms)
                &&& delays.contains(cell.min_ms)
                &&& delays.contains(cell.max_ms)
                &&& cell.range_ms == fp.sub(cell.max_ms, cell.min_ms)
                &&& (Num { bits: ZERO }).at_most(cell.range_ms)
            }
        }),
{
    let delays = fallen(blank_grid(), measured, (load_bin, rpm_bin));
    law_each_cell_is_of_its_own_delays(fp, measured, load_bin, rpm_bin);
    lemma_fallen(blank_grid(), measured, (load_bin, rpm_bin));
    if delays.len() > 0 {
        law_cell_knows_its_extremes(fp, blank_cell(), delays);
        let cell = folded_all(fp, blank_cell(), delays);
        let (low, high) = (cell.min_ms, cell.max_ms);
        let k = choose|k: int| 0 <= k < delays.len() && delays[k] == low;
        assert(low.at_most(high)) by {
            assert(delays[k].at_most(high));
        }
        let j = choose|j: int| 0 <= j < delays.len() && delays[j] == high;
        assert(delays[k].finite() && delays[j].finite());
        lemma_differences_rise(fp, low, low, high);
        lemma_neutral(fp, low);
    }
}

/// The exact sum of some delays, in units of 2^-1074.
pub open spec fn total_of(delays: Seq<Num>) -> int
    decreases delays.len(),
{
    if delays.len() == 0 {
        0
    } else {
        total_of(delays.drop_last()) + delays.last().value()
    }
}

/// The mean that one more delay gives is not rounded on the way.
pub open spec fn folds_unrounded(fp: Fp, c: DelayCell, delay_ms: Num) -> bool {
    let n = fp.count(c.n as int);
    let sum = fp.mul(c.mean_ms, n);
    let total = fp.add(sum, delay_ms);
    let count = fp.add(n, Num { bits: ONE });
    &&& is_product(c.mean_ms, n, sum)
    &&& is_sum(sum, delay_ms, total)
    &&& is_sum(n, Num { bits: ONE }, count)
    &&& is_product(fp.div(total, count), count, total)
}

/// Where nothing is rounded, the mean of a cell is the arithmetic mean of its
/// delays: so many times the mean is their sum.
pub proof fn law_the_mean_is_the_arithmetic_mean(fp: Fp, delays: Seq<Num>)
    requires
        fp.exact(),
        delays.len() <= u32::MAX,
        forall|i: int|
            0 <= i < delays.len() ==> #[trigger] folds_unrounded(
                fp,
                folded_all(fp, blank_cell(), delays.take(i)),
                delays[i],
            ),
    ensures
        folded_all(fp, blank_cell(), delays).n == delays.len(),
        folded_all(fp, blank_cell(), delays).mean_ms.value() * delays.len() == total_of(delays),
    decreases delays.len(),
{
    if delays.len() > 0 {
        let front = delays.drop_last();
        let k = front.len() as int;
        assert forall|i: int| 0 <= i < front.len() implies #[trigger] folds_unrounded(
            fp,
            folded_all(fp, blank_cell(), front.take(i)),
            front[i],
        ) by {
            assert(front.take(i) =~= delays.take(i));
            assert(front[i] == delays[i]);
        }
        law_the_mean_is_the_arithmetic_mean(fp, front);
        assert(delays.take(k) =~= front);
        let c = folded_all(fp, blank_cell(), front);
        assert(folds_unrounded(fp, c, delays[k]));
        let after = folded_all(fp, blank_cell(), delays);
        let n = fp.count(k);
        let sum = fp.mul(c.mean_ms, n).value();
        let total = fp.add(fp.mul(c.mean_ms, n), delays[k]).value();
        let count = fp.add(n, Num { bits: ONE }).value();
        let (u, mean, next, delay) = (
            unit(),
            c.mean_ms.value(),
            after.mean_ms.value(),
            delays[k].value(),
        );
        lemma_zero_and_one();
        assert(next * (k + 1) == mean * k + delay) by (nonlinear_arith)
            requires
                mean * (k * u) == sum * u,
                sum + delay == total,
                k * u + u == count,
                next * count == total * u,
                u > 0,
        {
            assert((mean * k) * u == sum * u);
            assert(mean * k == sum);
            assert((next * (k + 1)) * u == total * u);
        }
    }
}

/// Nothing overflows or underflows on the way to the mean that one more delay
/// gives.
pub open spec fn folds_hold(fp: Fp, c: DelayCell, delay_ms: Num) -> bool {
    let n = fp.count(c.n as int);
    let total = fp.add(fp.mul(c.mean_ms, n), delay_ms);
    &&& fp.holds_product(c.mean_ms, n)
    &&& delay_ms.finite()
    &&& total.finite()
    &&& fp.holds_quotient(total, fp.add(n, Num { bits: ONE }))
}

/// Nothing overflows or underflows while delays are folded into a blank cell,
/// and none of them is larger than `most`, in units of 2^-1074.
pub open spec fn folds_all_hold(fp: Fp, delays: Seq<Num>, most: int) -> bool {
    forall|i: int|
        0 <= i < delays.len() ==> {
            &&& folds_hold(fp, folded_all(fp, blank_cell(), delays.take(i)), #[trigger] delays[i])
            &&& size(delays[i].value()) <= most
        }
}

/// How the roundings of a mean add up.
#[verifier::spinoff_prover]
#[verifier::rlimit(40)]
proof fn lemma_mean_bound(
    u: int,
    k: int,
    most: int,
    so_far: int,
    mean: int,
    sum: int,
    delay: int,
    total: int,
    next: int,
)
    requires
        u > 0,
        0 <= k < 0x1_0000_0000,
        size(so_far) <= k * most,
        size(delay) <= most,
        0x1_0000_0000_0000 * size(mean * k - so_far) <= k * k * most,
        near(mean * (k * u), sum * u),
        near(sum + delay, total),
        near(total * u, next * ((k + 1) * u)),
    ensures
        0x1_0000_0000_0000 * size(next * (k + 1) - (so_far + delay)) <= (k + 1) * (k + 1) * most,
        size(so_far + delay) <= (k + 1) * most,
{
    let (x, y) = (mean * k, next * (k + 1));
    assert(mean * (k * u) == x * u) by (nonlinear_arith)
        requires
            x == mean * k,
    ;
    assert(next * ((k + 1) * u) == y * u) by (nonlinear_arith)
        requires
            y == next * (k + 1),
    ;
    lemma_near_unscaled(x, sum, u);
    lemma_near_unscaled(total, y, u);
    let (km, kkm) = (k * most, k * k * most);
    assert(0 <= km && kkm <= 0x1_0000_0000 * km) by (nonlinear_arith)
        requires
            0 <= k < 0x1_0000_0000,
            0 <= most,
            km == k * most,
            kkm == k * k * most,
    {
        assert(k * k * most == k * (k * most));
        assert(0 <= k * most);
    }
    assert((k + 1) * most == km + most) by (nonlinear_arith)
        requires
            km == k * most,
    ;
    assert((k + 1) * (k + 1) * most == kkm + 2 * km + most) by (nonlinear_arith)
        requires
            km == k * most,
            kkm == k * k * most,
    ;
    lemma_mean_errors(km, kkm, most, so_far, x, sum, delay, total, y);
}

#[verifier::spinoff_prover]
#[verifier::rlimit(40)]
proof fn lemma_mean_errors(
    km: int,
    kkm: int,
    most: int,
    so_far: int,
    x: int,
    sum: int,
    delay: int,
    total: int,
    y: int,
)
    requires
        0 <= km,
        kkm <= 0x1_0000_0000 * km,
        size(so_far) <= km,
        size(delay) <= most,
        0x1_0000_0000_0000 * size(x - so_far) <= kkm,
        near(x, sum),
        near(sum + delay, total),
        near(total, y),
    ensures
        0x1_0000_0000_0000 * size(y - (so_far + delay)) <= kkm + 2 * km + most,
        size(so_far + delay) <= km + most,
{
    assert(size(x) <= 2 * km);
    assert(0x10_0000_0000_0000 * size(x - sum) <= 2 * km);
    assert(size(sum + delay) <= 3 * km + most);
    assert(0x10_0000_0000_0000 * size(sum + delay - total) <= 3 * km + most);
    assert(size(total) <= 4 * km + 2 * most);
    assert(0x10_0000_0000_0000 * size(total - y) <= 4 * km + 2 * most);
}

/// The mean of a cell is the arithmetic mean of its delays up to rounding: for
/// n delays, it differs from theirs by no more than n times the 2^-48th part
/// of the largest.
pub proof fn law_the_mean_is_near_the_arithmetic_mean(fp: Fp, delays: Seq<Num>, most: int)
    requires
        fp.exact(),
        fp.close(),
        delays.len() <= u32::MAX,
        folds_all_hold(fp, delays, most),
    ensures
        ({
            let (cell, n) = (folded_all(fp, blank_cell(), delays), delays.len() as int);
            &&& cell.n == n
            &&& 0x1_0000_0000_0000 * size(cell.mean_ms.value() * n - total_of(delays)) <= n * n
                * most
            &&& size(total_of(delays)) <= n * most
        }),
    decreases delays.len(),
{
    lemma_zero_and_one();
    if delays.len() > 0 {
        let front = delays.drop_last();
        let k = front.len() as int;
        assert forall|i: int| 0 <= i < front.len() implies folds_hold(
            fp,
            folded_all(fp, blank_cell(), front.take(i)),
            #[trigger] front[i],
        ) && size(front[i].value()) <= most by {
            assert(front.take(i) =~= delays.take(i));
            assert(front[i] == delays[i]);
        }
        law_the_mean_is_near_the_arithmetic_mean(fp, front, most);
        assert(delays.take(k) =~= front);
        let c = folded_all(fp, blank_cell(), front);
        let d = delays[k];
        assert(folds_hold(fp, c, d));
        let (n, one) = (fp.count(k), Num { bits: ONE });
        let count = fp.add(n, one);
        let sum = fp.mul(c.mean_ms, n);
        let total = fp.add(sum, d);
        assert(k * unit() + unit() == (k + 1) * unit()) by (nonlinear_arith);
        assert(is_sum(n, one, fp.count(k + 1)));
        law_rank_orders_values(count, fp.count(k + 1));
        lemma_near_product(fp, c.mean_ms, n);
        lemma_near_quotient(fp, total, count);
        let after = folded_all(fp, blank_cell(), delays);
        lemma_mean_bound(
            unit(),
            k,
            most,
            total_of(front),
            c.mean_ms.value(),
            sum.value(),
            d.value(),
            total.value(),
            after.mean_ms.value(),
        );
    } else {
        assert((Num { bits: ZERO }).value() * 0 == 0);
    }
}

proof fn lemma_total_without(delays: Seq<Num>, i: int)
    requires
        0 <= i < delays.len(),
    ensures
        total_of(delays) == total_of(delays.remove(i)) + delays[i].value(),
    decreases delays.len(),
{
    let front = delays.drop_last();
    if i == delays.len() - 1 {
        assert(delays.remove(i) =~= front);
    } else {
        lemma_total_without(front, i);
        assert(delays.remove(i).drop_last() =~= front.remove(i));
        assert(delays.remove(i).last() == delays.last());
    }
}

proof fn lemma_totals_agree(delays: Seq<Num>, others: Seq<Num>)
    requires
        delays.to_multiset() == others.to_multiset(),
    ensures
        delays.len() == others.len(),
        total_of(delays) == total_of(others),
    decreases delays.len(),
{
    broadcast use vstd::seq_lib::group_to_multiset_ensures;

    assert(delays.to_multiset().len() == delays.len() && others.to_multiset().len() == others.len());
    if delays.len() > 0 {
        let n = delays.len() - 1;
        let x = delays[n];
        assert(delays.contains(x));
        assert(others.to_multiset().count(x) > 0);
        assert(others.contains(x));
        let k = choose|k: int| 0 <= k < others.len() && others[k] == x;
        assert(delays.remove(n) =~= delays.drop_last());
        assert(delays.drop_last().to_multiset() =~= delays.to_multiset().remove(x));
        assert(others.remove(k).to_multiset() =~= others.to_multiset().remove(x));
        lemma_totals_agree(delays.drop_last(), others.remove(k));
        lemma_total_without(others, k);
    }
}

/// The order in which delays are folded into a cell moves their mean by no
/// more than rounding does.
pub proof fn law_the_order_of_the_delays_hardly_moves_the_mean(
    fp: Fp,
    delays: Seq<Num>,
    others: Seq<Num>,
    most: int,
)
    requires
        fp.exact(),
        fp.close(),
        delays.to_multiset() == others.to_multiset(),
        delays.len() <= u32::MAX,
        folds_all_hold(fp, delays, most),
        folds_all_hold(fp, others, most),
    ensures
        ({
            let n = delays.len() as int;
            let (a, b) = (
                folded_all(fp, blank_cell(), delays).mean_ms.value(),
                folded_all(fp, blank_cell(), others).mean_ms.value(),
            );
            0x8000_0000_0000 * size(a * n - b * n) <= n * n * most
        }),
{
    lemma_totals_agree(delays, others);
    law_the_mean_is_near_the_arithmetic_mean(fp, delays, most);
    law_the_mean_is_near_the_arithmetic_mean(fp, others, most);
}

/// The order in which delays are folded into a cell changes neither their
/// count nor their extremes.
pub proof fn law_the_order_of_the_delays_does_not_matter(
    fp: Fp,
    delays: Seq<Num>,
    others: Seq<Num>,
)
    requires
        delays.to_multiset() == others.to_multiset(),
        delays.len() <= u32::MAX,
        forall|i: int| 0 <= i < delays.len() ==> !(#[trigger] delays[i]).nan(),
    ensures
        ({
            let (a, b) = (
                folded_all(fp, blank_cell(), delays),
                folded_all(fp, blank_cell(), others),
            );
            &&& a.n == b.n
            &&& a.min_ms.equals(b.min_ms)
            &&& a.max_ms.equals(b.max_ms)
        }),
{
    broadcast use vstd::seq_lib::group_to_multiset_ensures;

    assert(delays.to_multiset().len() == delays.len() && others.to_multiset().len() == others.len());
    assert forall|x: Num| delays.contains(x) == #[trigger] others.contains(x) by {
        assert(delays.contains(x) <==> delays.to_multiset().count(x) > 0);
        assert(others.contains(x) <==> others.to_multiset().count(x) > 0);
    }
    assert forall|i: int| 0 <= i < others.len() implies !(#[trigger] others[i]).nan() by {
        assert(others.contains(others[i]));
        assert(delays.contains(others[i]));
    }
    if delays.len() > 0 {
        law_cell_knows_its_extremes(fp, blank_cell(), delays);
        law_cell_knows_its_extremes(fp, blank_cell(), others);
        let (a, b) = (
            folded_all(fp, blank_cell(), delays),
            folded_all(fp, blank_cell(), others),
        );
        assert(others.contains(a.min_ms) && others.contains(a.max_ms));
        assert(delays.contains(b.min_ms) && delays.contains(b.max_ms));
    }
}

/// `v` falls into bin `b`: it lies below the upper edge of that bin, and below
/// none before it; the bin behind the last edge takes what lies below none.
pub open spec fn falls_into(edges: Seq<Num>, v: Num, b: int) -> bool {
    &&& 0 <= b <= edges.len()
    &&& b < edges.len() ==> v.below(edges[b])
    &&& forall|i: int| 0 <= i < b ==> !v.below(#[trigger] edges[i])
}

/// One measurement changes one cell, that of its load and its rpm, and no edge:
/// the count goes up by one, the mean moves to what the count and the delay
/// make it, and the extremes give way to the delay where it lies beyond them or
/// is the first.
pub proof fn law_one_measurement_changes_one_cell(
    fp: Fp,
    grid: Grid,
    rpm: Num,
    load: Num,
    delay_ms: Num,
    load_bin: int,
    rpm_bin: int,
)
    requires
        grid.wf(),
        falls_into(grid.load_edges, load, load_bin),
        falls_into(grid.rpm_edges, rpm, rpm_bin),
        grid.cells[load_bin][rpm_bin].n < u32::MAX,
    ensures
        ({
            let after = grid.added(fp, rpm, load, delay_ms);
            let (old_cell, new_cell) = (
                grid.cells[load_bin][rpm_bin],
                after.cells[load_bin][rpm_bin],
            );
            let (n, one) = (fp.count(old_cell.n as int), Num { bits: 0x3FF0_0000_0000_0000 });
            &&& grid.bins_of(rpm, load) == (load_bin, rpm_bin)
            &&& grid.covers(rpm, load)
            &&& after.rpm_edges == grid.rpm_edges
            &&& after.load_edges == grid.load_edges
            &&& after.cells.len() == grid.cells.len()
            &&& forall|l: int|
                0 <= l < grid.cells.len() ==> (#[trigger] after.cells[l]).len()
                    == grid.cells[l].len()
            &&& forall|l: int, r: int|
                0 <= l < grid.cells.len() && 0 <= r < grid.cells[l].len() && !(l == load_bin && r
                    == rpm_bin) ==> #[trigger] after.cells[l][r] == grid.cells[l][r]
            &&& new_cell.n == old_cell.n + 1
            &&& new_cell.mean_ms == fp.div(
                fp.add(fp.mul(old_cell.mean_ms, n), delay_ms),
                fp.add(n, one),
            )
            &&& new_cell.min_ms == if old_cell.n == 0 || old_cell.min_ms.nan() || delay_ms.below(
                old_cell.min_ms,
            ) {
                delay_ms
            } else {
                old_cell.min_ms
            }
            &&& new_cell.max_ms == if old_cell.n == 0 || old_cell.max_ms.nan()
                || old_cell.max_ms.below(delay_ms) {
                delay_ms
            } else {
                old_cell.max_ms
            }
            &&& new_cell.range_ms == fp.sub(new_cell.max_ms, new_cell.min_ms)
        }),
{
    law_bin_is_first_above(grid.load_edges, load);
    law_bin_is_first_above(grid.rpm_edges, rpm);
    assert(bin_of(grid.load_edges, load) == load_bin);
    assert(bin_of(grid.rpm_edges, rpm) == rpm_bin);
    assert(grid.cells[load_bin].len() == grid.rpm_edges.len() + 1);
}

/// A new table has bins up to 1200, 2000, 3000, 4500 and 6500 rpm and up to
/// loads of 40, 60, 80 and 100, one more behind each, and nothing in any cell.
pub proof fn law_a_new_table_is_blank()
    ensures
        ({
            let grid = blank_grid();
            let zero = Num { bits: 0 };
            &&& grid.rpm_edges =~= seq![
                Num { bits: 0x4092_C000_0000_0000 },
                Num { bits: 0x409F_4000_0000_0000 },
                Num { bits: 0x40A7_7000_0000_0000 },
                Num { bits: 0x40B1_9400_0000_0000 },
                Num { bits: 0x40B9_6400_0000_0000 },
            ]
            &&& grid.load_edges =~= seq![
                Num { bits: 0x4044_0000_0000_0000 },
                Num { bits: 0x404E_0000_0000_0000 },
                Num { bits: 0x4054_0000_0000_0000 },
                Num { bits: 0x4059_0000_0000_0000 },
            ]
            &&& grid.cells.len() == 5
            &&& forall|l: int| 0 <= l < 5 ==> (#[trigger] grid.cells[l]).len() == 6
            &&& forall|l: int, r: int|
                0 <= l < 5 && 0 <= r < 6 ==> #[trigger] grid.cells[l][r] == (DelayCell {
                    n: 0,
                    mean_ms: zero,
                    range_ms: zero,
                    min_ms: zero,
                    max_ms: zero,
                })
        }),
{
    let grid = blank_grid();
    assert(grid.rpm_edges.len() == 5 && grid.load_edges.len() == 4);
}

/// The delays that fell into a cell are those measured at its rpm and load, in
/// the order in which they were measured.
pub proof fn law_delays_fall_by_rpm_and_load(grid: Grid, measured: Seq<Measured>, cell: (int, int))
    ensures
        fallen(grid, measured, cell) == measured.filter(
            |m: Measured|
                falls_into(grid.load_edges, m.load, cell.0) && falls_into(
                    grid.rpm_edges,
                    m.rpm,
                    cell.1,
                ),
        ).map_values(|m: Measured| m.delay_ms),
    decreases measured.len(),
{
    reveal(Seq::filter);
    let here = |m: Measured|
        falls_into(grid.load_edges, m.load, cell.0) && falls_into(grid.rpm_edges, m.rpm, cell.1);
    let delay = |m: Measured| m.delay_ms;
    if measured.len() > 0 {
        let m = measured.last();
        law_delays_fall_by_rpm_and_load(grid, measured.drop_last(), cell);
        lemma_falls_into(grid.load_edges, m.load, cell.0);
        lemma_falls_into(grid.rpm_edges, m.rpm, cell.1);
        assert(here(m) == (grid.bins_of(m.rpm, m.load) == cell));
    }
    assert(fallen(grid, measured, cell) =~= measured.filter(here).map_values(delay));
}

proof fn lemma_falls_into(edges: Seq<Num>, v: Num, b: int)
    ensures
        falls_into(edges, v, b) == (bin_of(edges, v) == b),
{
    law_bin_is_first_above(edges, v);
}

} // verus!
