//! The debounce filter: turns raw frames into settled press and release
//! events, one cell at a time.
//!
//! A cell changes its confirmed state only after the raw sample has
//! differed from it and then agreed with the sample before it `threshold`
//! times in a row.

use vstd::prelude::*;
use crate::matrix::{is_grid, Coordinate, RawFrame};

verus! {

/// Whether a key went down or came up.
#[derive(Clone, Copy, Debug, PartialEq, Eq, Structural)]
pub enum EventKind {
    Press,
    Release,
}

/// A settled change of one key.
#[derive(Clone, Copy, Debug, PartialEq, Eq, Structural)]
pub struct Event {
    pub coord: Coordinate,
    pub kind: EventKind,
}

/// What the filter remembers of one cell.
#[derive(Clone, Copy, Debug, PartialEq, Eq, Structural)]
pub struct CellState {
    /// The last confirmed state: `true` is pressed.
    pub confirmed: bool,
    /// The raw sample of the scan before.
    pub previous: bool,
    /// How many samples in a row have differed from `confirmed` and agreed
    /// with the sample before them.
    pub streak: u32,
}

/// The event kind of a change to `pressed`.
pub open spec fn kind_of(pressed: bool) -> EventKind {
    if pressed {
        EventKind::Press
    } else {
        EventKind::Release
    }
}

/// A cell at rest in state `pressed`.
pub open spec fn settled(pressed: bool) -> CellState {
    CellState { confirmed: pressed, previous: pressed, streak: 0 }
}

/// The streak of a cell stays below the threshold, and is zero while the
/// last sample agrees with the confirmed state.
pub open spec fn cell_wf(cell: CellState, threshold: u32) -> bool {
    &&& cell.streak == 0 || cell.streak < threshold
    &&& cell.previous == cell.confirmed ==> cell.streak == 0
}

/// The streak that sample `sample` brings a cell to, before any commit.
pub open spec fn streak_with(cell: CellState, sample: bool) -> int {
    if sample == cell.previous {
        cell.streak + 1
    } else {
        0
    }
}

/// Whether sample `sample` makes the cell commit a new confirmed state.
pub open spec fn commits(cell: CellState, sample: bool, threshold: u32) -> bool {
    sample != cell.confirmed && streak_with(cell, sample) >= threshold
}

/// The cell after sample `sample`.
pub open spec fn cell_next(cell: CellState, sample: bool, threshold: u32) -> CellState {
    if sample == cell.confirmed {
        CellState { confirmed: cell.confirmed, previous: sample, streak: 0 }
    } else if commits(cell, sample, threshold) {
        settled(sample)
    } else {
        CellState {
            confirmed: cell.confirmed,
            previous: sample,
            streak: streak_with(cell, sample) as u32,
        }
    }
}

/// The event that sample `sample` draws from the cell, if any.
pub open spec fn cell_emits(cell: CellState, sample: bool, threshold: u32) -> Option<EventKind> {
    if commits(cell, sample, threshold) {
        Some(kind_of(sample))
    } else {
        None
    }
}

/// The cells after one frame.
pub open spec fn grid_next(cells: Seq<Seq<CellState>>, frame: Seq<Seq<bool>>, threshold: u32) -> Seq<
    Seq<CellState>,
> {
    Seq::new(
        cells.len(),
        |r: int|
            Seq::new(cells[r].len(), |c: int| cell_next(cells[r][c], frame[r][c], threshold)),
    )
}

/// The events of the first `upto` cells of row `row`, by rising column.
pub open spec fn row_events(
    cells: Seq<CellState>,
    samples: Seq<bool>,
    threshold: u32,
    row: int,
    upto: int,
) -> Seq<Event>
    decreases upto,
{
    if upto <= 0 {
        Seq::empty()
    } else {
        let before = row_events(cells, samples, threshold, row, upto - 1);
        match cell_emits(cells[upto - 1], samples[upto - 1], threshold) {
            Some(kind) => before.push(
                Event { coord: Coordinate { row: row as usize, col: (upto - 1) as usize }, kind },
            ),
            None => before,
        }
    }
}

/// The events of the first `upto` rows, row by row.
pub open spec fn grid_events(
    cells: Seq<Seq<CellState>>,
    frame: Seq<Seq<bool>>,
    threshold: u32,
    upto: int,
) -> Seq<Event>
    decreases upto,
{
    if upto <= 0 {
        Seq::empty()
    } else {
        grid_events(cells, frame, threshold, upto - 1) + row_events(
            cells[upto - 1],
            frame[upto - 1],
            threshold,
            upto - 1,
            cells[upto - 1].len() as int,
        )
    }
}

/// One sample applied to one cell.
pub fn cell_step(cell: CellState, sample: bool, threshold: u32) -> (res: (
    CellState,
    Option<EventKind>,
))
    requires
        cell_wf(cell, threshold),
    ensures
        res.0 == cell_next(cell, sample, threshold),
        res.1 == cell_emits(cell, sample, threshold),
        cell_wf(res.0, threshold),
{
    if sample == cell.confirmed {
        (CellState { confirmed: cell.confirmed, previous: sample, streak: 0 }, None)
    } else {
        let streak: u32 = if sample == cell.previous {
            cell.streak + 1
        } else {
            0
        };
        if streak >= threshold {
            let kind = if sample {
                EventKind::Press
            } else {
                EventKind::Release
            };
            (CellState { confirmed: sample, previous: sample, streak: 0 }, Some(kind))
        } else {
            (CellState { confirmed: cell.confirmed, previous: sample, streak }, None)
        }
    }
}

/// The debounce filter of a matrix.
pub struct Debouncer {
    rows: usize,
    cols: usize,
    threshold: u32,
    cells: Vec<Vec<CellState>>,
}

impl Debouncer {
    /// The cells, row by row.
    pub closed spec fn view(&self) -> Seq<Seq<CellState>> {
        Seq::new(self.cells@.len(), |r: int| self.cells@[r]@)
    }

    pub closed spec fn spec_rows(&self) -> nat {
        self.rows as nat
    }

    pub closed spec fn spec_cols(&self) -> nat {
        self.cols as nat
    }

    /// How many agreeing samples confirm a change.
    pub closed spec fn spec_threshold(&self) -> u32 {
        self.threshold
    }

    /// The cells form a grid of the filter's dimensions, and each is valid.
    pub open spec fn wf(&self) -> bool {
        &&& is_grid(self@, self.spec_rows(), self.spec_cols())
        &&& forall|r: int, c: int|
            0 <= r < self.spec_rows() && 0 <= c < self.spec_cols() ==> cell_wf(
                #[trigger] self@[r][c],
                self.spec_threshold(),
            )
    }

    /// A filter for a matrix with every key at rest, released.
    pub fn new(rows: usize, cols: usize, threshold: u32) -> (filter: Debouncer)
        ensures
            filter.wf(),
            filter.spec_rows() == rows,
            filter.spec_cols() == cols,
            filter.spec_threshold() == threshold,
            forall|r: int, c: int|
                0 <= r < rows && 0 <= c < cols ==> (#[trigger] filter@[r][c]) == settled(false),
    {
        let mut cells: Vec<Vec<CellState>> = Vec::new();
        let mut r: usize = 0;
        while r < rows
            invariant
                r <= rows,
                cells@.len() == r,
                forall|i: int| 0 <= i < r ==> (#[trigger] cells@[i])@.len() == cols,
                forall|i: int, c: int|
                    0 <= i < r && 0 <= c < cols ==> (#[trigger] cells@[i]@[c]) == settled(false),
            decreases rows - r,
        {
            let mut row: Vec<CellState> = Vec::new();
            let mut c: usize = 0;
            while c < cols
                invariant
                    c <= cols,
                    row@.len() == c,
                    forall|j: int| 0 <= j < c ==> row@[j] == settled(false),
                decreases cols - c,
            {
                row.push(CellState { confirmed: false, previous: false, streak: 0 });
                c += 1;
            }
            cells.push(row);
            r += 1;
        }
        Debouncer { rows, cols, threshold, cells }
    }

    /// Number of rows.
    pub fn rows(&self) -> (n: usize)
        ensures
            n == self.spec_rows(),
    {
        self.rows
    }

    /// Number of columns.
    pub fn cols(&self) -> (n: usize)
        ensures
            n == self.spec_cols(),
    {
        self.cols
    }

    /// The confirmed state of the key at `at`.
    pub fn is_pressed(&self, at: Coordinate) -> (pressed: bool)
        requires
            self.wf(),
            at.row < self.spec_rows(),
            at.col < self.spec_cols(),
        ensures
            pressed == self@[at.row as int][at.col as int].confirmed,
    {
        assert(self@.len() == self.cells@.len());
        assert(self@[at.row as int] == self.cells@[at.row as int]@);
        self.cells[at.row][at.col].confirmed
    }

    /// Takes in one raw frame: every cell moves on by its sample, and the
    /// events of the cells that commit come out in row-major order.
    pub fn events(&mut self, frame: &RawFrame) -> (events: Vec<Event>)
        requires
            old(self).wf(),
            frame.wf(),
            frame.spec_rows() == old(self).spec_rows(),
            frame.spec_cols() == old(self).spec_cols(),
        ensures
            final(self).wf(),
            final(self).spec_rows() == old(self).spec_rows(),
            final(self).spec_cols() == old(self).spec_cols(),
            final(self).spec_threshold() == old(self).spec_threshold(),
            final(self)@ == grid_next(old(self)@, frame@, old(self).spec_threshold()),
            events@.len() <= old(self).spec_rows() * old(self).spec_cols(),
            events@ == grid_events(
                old(self)@,
                frame@,
                old(self).spec_threshold(),
                old(self).spec_rows() as int,
            ),
    {
        let mut out: Vec<Event> = Vec::new();
        let rows: usize = self.rows;
        let cols: usize = self.cols;
        let threshold: u32 = self.threshold;
        let mut r: usize = 0;
        while r < rows
            invariant
                r <= rows,
                rows == old(self).rows,
                cols == old(self).cols,
                threshold == old(self).threshold,
                self.rows == rows,
                self.cols == cols,
                self.threshold == threshold,
                old(self).wf(),
                frame.wf(),
                frame.spec_rows() == rows,
                frame.spec_cols() == cols,
                is_grid(self@, rows as nat, cols as nat),
                forall|i: int, j: int|
                    0 <= i < r && 0 <= j < cols ==> (#[trigger] self@[i][j]) == cell_next(
                        old(self)@[i][j],
                        frame@[i][j],
                        threshold,
                    ),
                forall|i: int| r <= i < rows ==> (#[trigger] self@[i]) == old(self)@[i],
                out@ == grid_events(old(self)@, frame@, threshold, r as int),
            decreases rows - r,
        {
            let ghost before_row = out@;
            let mut c: usize = 0;
            while c < cols
                invariant
                    c <= cols,
                    r < rows,
                    rows == old(self).rows,
                    cols == old(self).cols,
                    threshold == old(self).threshold,
                    self.rows == rows,
                    self.cols == cols,
                    self.threshold == threshold,
                    old(self).wf(),
                    frame.wf(),
                    frame.spec_rows() == rows,
                    frame.spec_cols() == cols,
                    is_grid(self@, rows as nat, cols as nat),
                    forall|i: int, j: int|
                        0 <= i < r && 0 <= j < cols ==> (#[trigger] self@[i][j]) == cell_next(
                            old(self)@[i][j],
                            frame@[i][j],
                            threshold,
                        ),
                    forall|i: int| r < i < rows ==> (#[trigger] self@[i]) == old(self)@[i],
                    forall|j: int|
                        0 <= j < c ==> (#[trigger] self@[r as int][j]) == cell_next(
                            old(self)@[r as int][j],
                            frame@[r as int][j],
                            threshold,
                        ),
                    forall|j: int|
                        c <= j < cols ==> (#[trigger] self@[r as int][j]) == old(self)@[r as int][j],
                    out@ == before_row + row_events(
                        old(self)@[r as int],
                        frame@[r as int],
                        threshold,
                        r as int,
                        c as int,
                    ),
                decreases cols - c,
            {
                let at = Coordinate { row: r, col: c };
                let sample = frame.get(at);
                assert(self@.len() == self.cells@.len());
                assert(self@[r as int] == self.cells@[r as int]@);
                let cell = self.cells[r][c];
                assert(cell == old(self)@[r as int][c as int]);
                let (next, emitted) = cell_step(cell, sample, threshold);
                let ghost grid_before = self@;
                self.cells[r].set(c, next);
                assert(self@ =~= grid_before.update(
                    r as int,
                    grid_before[r as int].update(c as int, next),
                ));
                match emitted {
                    Some(kind) => {
                        out.push(Event { coord: at, kind });
                    },
                    None => {},
                }
                c += 1;
            }
            assert(old(self)@[r as int].len() == cols);
            r += 1;
        }
        proof {
            let next = grid_next(old(self)@, frame@, threshold);
            assert forall|i: int| 0 <= i < rows implies self@[i] =~= next[i] by {
                assert(self@[i].len() == cols);
                assert(old(self)@[i].len() == cols);
            }
            assert(self@ =~= next);
            lemma_event_count(old(self)@, frame@, threshold, rows as int, cols as nat);
        }
        out
    }
}

/// The cell after all of `samples`, taken in order.
pub open spec fn cell_run(cell: CellState, samples: Seq<bool>, threshold: u32) -> CellState
    decreases samples.len(),
{
    if samples.len() == 0 {
        cell
    } else {
        cell_next(cell_run(cell, samples.drop_last(), threshold), samples.last(), threshold)
    }
}

/// The events that `samples`, taken in order, draw from the cell.
pub open spec fn cell_trace(cell: CellState, samples: Seq<bool>, threshold: u32) -> Seq<
    EventKind,
>
    decreases samples.len(),
{
    if samples.len() == 0 {
        Seq::empty()
    } else {
        let before = cell_trace(cell, samples.drop_last(), threshold);
        match cell_emits(
            cell_run(cell, samples.drop_last(), threshold),
            samples.last(),
            threshold,
        ) {
            Some(kind) => before.push(kind),
            None => before,
        }
    }
}

/// The raw sample that came before sample `i` of `samples`: for the
/// first, the one that the cell remembers.
pub open spec fn sample_before(cell: CellState, samples: Seq<bool>, i: int) -> bool {
    if i <= 0 {
        cell.previous
    } else {
        samples[i - 1]
    }
}

/// A valid cell stays valid whatever samples it is given, and remembers
/// the last of them.
pub proof fn lemma_run_wf(cell: CellState, samples: Seq<bool>, threshold: u32)
    requires
        cell_wf(cell, threshold),
    ensures
        cell_wf(cell_run(cell, samples, threshold), threshold),
        cell_run(cell, samples, threshold).previous == sample_before(
            cell,
            samples,
            samples.len() as int,
        ),
    decreases samples.len(),
{
    if samples.len() > 0 {
        lemma_run_wf(cell, samples.drop_last(), threshold);
    }
}

/// The streak of a cell counts samples that agreed with the one before:
/// after `samples`, the last `streak` of them did (as far as the streak
/// was not there before).
pub proof fn lemma_streak_counts_agreement(cell: CellState, samples: Seq<bool>, threshold: u32)
    requires
        cell_wf(cell, threshold),
    ensures
        cell_run(cell, samples, threshold).streak <= samples.len() + cell.streak,
        forall|j: int|
            0 <= j < samples.len() && samples.len() - cell_run(cell, samples, threshold).streak
                <= j ==> samples[j] == sample_before(cell, samples, j),
    decreases samples.len(),
{
    if samples.len() > 0 {
        let head = samples.drop_last();
        lemma_streak_counts_agreement(cell, head, threshold);
        lemma_run_wf(cell, head, threshold);
        let before = cell_run(cell, head, threshold);
        let after = cell_run(cell, samples, threshold);
        assert forall|j: int|
            0 <= j < samples.len() && samples.len() - after.streak <= j implies samples[j]
            == sample_before(cell, samples, j) by {
            if j < head.len() {
                assert(samples[j] == head[j]);
                assert(sample_before(cell, samples, j) == sample_before(cell, head, j));
            }
        }
    }
}

/// Stability: no event without enough agreement. Where sample `i` of
/// `samples` draws an event from a valid cell, the `threshold` samples up
/// to and including `i` each repeated the sample before it (the streak
/// that the cell began with stands in for samples before the first).
pub proof fn lemma_event_needs_agreement(
    cell: CellState,
    samples: Seq<bool>,
    threshold: u32,
    i: int,
)
    requires
        cell_wf(cell, threshold),
        0 <= i < samples.len(),
        cell_emits(cell_run(cell, samples.take(i), threshold), samples[i], threshold) is Some,
    ensures
        i + 1 + cell.streak >= threshold,
        samples[i] != cell_run(cell, samples.take(i), threshold).confirmed,
        forall|j: int|
            0 <= j <= i && i + 1 - threshold <= j ==> samples[j] == sample_before(
                cell,
                samples,
                j,
            ),
{
    let head = samples.take(i);
    lemma_streak_counts_agreement(cell, head, threshold);
    lemma_run_wf(cell, head, threshold);
    let before = cell_run(cell, head, threshold);
    assert forall|j: int| 0 <= j <= i && i + 1 - threshold <= j implies samples[j]
        == sample_before(cell, samples, j) by {
        assert(threshold > 0);
        assert(samples[i] == before.previous);
        assert(before.streak + 1 == threshold);
        if j < i {
            assert(samples[j] == head[j]);
            assert(sample_before(cell, samples, j) == sample_before(cell, head, j));
        } else {
            assert(sample_before(cell, samples, i) == sample_before(cell, head, i));
        }
    }
}

/// Confirmation: a cell at rest that is given the opposite sample over
/// and over stays silent for the first `threshold` samples, and has
/// given exactly one event, of the new state's kind, from sample
/// `threshold + 1` on.
pub proof fn lemma_steady_samples_confirm(cell: CellState, samples: Seq<bool>, threshold: u32)
    requires
        cell == settled(cell.confirmed),
        forall|j: int| 0 <= j < samples.len() ==> samples[j] == !cell.confirmed,
    ensures
        samples.len() <= threshold ==> cell_trace(cell, samples, threshold) == Seq::<
            EventKind,
        >::empty() && cell_run(cell, samples, threshold).confirmed == cell.confirmed,
        samples.len() > threshold ==> cell_trace(cell, samples, threshold) == seq![
            kind_of(!cell.confirmed),
        ] && cell_run(cell, samples, threshold) == settled(!cell.confirmed),
    decreases samples.len(),
{
    if samples.len() > 0 {
        let head = samples.drop_last();
        lemma_steady_samples_confirm(cell, head, threshold);
        if 0 < head.len() <= threshold {
            lemma_steady_streak(cell, head, threshold);
        }
        let before = cell_run(cell, head, threshold);
        assert(samples.last() == !cell.confirmed);
        if samples.len() > threshold {
            if head.len() <= threshold {
                assert(commits(before, samples.last(), threshold));
                assert(cell_trace(cell, samples, threshold) =~= seq![kind_of(!cell.confirmed)]);
            }
        }
    }
}

/// While a cell at rest is given the opposite sample at most `threshold`
/// times, its streak is one less than the number of samples.
proof fn lemma_steady_streak(cell: CellState, samples: Seq<bool>, threshold: u32)
    requires
        cell == settled(cell.confirmed),
        forall|j: int| 0 <= j < samples.len() ==> samples[j] == !cell.confirmed,
        0 < samples.len() <= threshold,
    ensures
        cell_run(cell, samples, threshold) == (CellState {
            confirmed: cell.confirmed,
            previous: !cell.confirmed,
            streak: (samples.len() - 1) as u32,
        }),
    decreases samples.len(),
{
    let head = samples.drop_last();
    assert(samples.last() == !cell.confirmed);
    if head.len() > 0 {
        lemma_steady_streak(cell, head, threshold);
    } else {
        assert(cell_run(cell, head, threshold) == cell);
    }
}

/// Alternation: the events of one cell alternate between press and
/// release, beginning with the opposite of the state it was in, and the
/// cell ends in the state that its last event announced.
pub proof fn lemma_trace_alternates(cell: CellState, samples: Seq<bool>, threshold: u32)
    ensures
        forall|k: int|
            0 < k < cell_trace(cell, samples, threshold).len() ==> (#[trigger] cell_trace(
                cell,
                samples,
                threshold,
            )[k]) != cell_trace(cell, samples, threshold)[k - 1],
        cell_trace(cell, samples, threshold).len() > 0 ==> cell_trace(cell, samples, threshold)[0]
            == kind_of(!cell.confirmed) && cell_trace(cell, samples, threshold).last() == kind_of(
            cell_run(cell, samples, threshold).confirmed,
        ),
        cell_trace(cell, samples, threshold).len() == 0 ==> cell_run(
            cell,
            samples,
            threshold,
        ).confirmed == cell.confirmed,
    decreases samples.len(),
{
    if samples.len() > 0 {
        lemma_trace_alternates(cell, samples.drop_last(), threshold);
    }
}

/// A row gives at most one event per cell.
pub proof fn lemma_row_event_count(
    cells: Seq<CellState>,
    samples: Seq<bool>,
    threshold: u32,
    row: int,
    upto: int,
)
    requires
        0 <= upto,
    ensures
        row_events(cells, samples, threshold, row, upto).len() <= upto,
    decreases upto,
{
    if upto > 0 {
        lemma_row_event_count(cells, samples, threshold, row, upto - 1);
    }
}

/// A frame gives at most one event per cell.
pub proof fn lemma_event_count(
    cells: Seq<Seq<CellState>>,
    frame: Seq<Seq<bool>>,
    threshold: u32,
    upto: int,
    cols: nat,
)
    requires
        0 <= upto <= cells.len(),
        forall|r: int| 0 <= r < upto ==> (#[trigger] cells[r]).len() == cols,
    ensures
        grid_events(cells, frame, threshold, upto).len() <= upto * cols,
    decreases upto,
{
    if upto > 0 {
        lemma_event_count(cells, frame, threshold, upto - 1, cols);
        lemma_row_event_count(
            cells[upto - 1],
            frame[upto - 1],
            threshold,
            upto - 1,
            cells[upto - 1].len() as int,
        );
        assert((upto - 1) * cols + cols == upto * cols) by (nonlinear_arith);
    } else {
        assert(upto * cols == 0) by (nonlinear_arith)
            requires
                upto == 0,
        ;
    }
}

/// Whether position `a` comes before position `b` in row-major order.
pub open spec fn precedes(a: Coordinate, b: Coordinate) -> bool {
    a.row < b.row || (a.row == b.row && a.col < b.col)
}

/// The events of a row are the commits of its cells, by rising column:
/// a cell that commits gives exactly one event, of the kind of its new
/// state, and a cell that does not gives none.
pub proof fn lemma_row_events(
    cells: Seq<CellState>,
    samples: Seq<bool>,
    threshold: u32,
    row: int,
    upto: int,
)
    requires
        0 <= row <= usize::MAX,
        0 <= upto <= usize::MAX,
    ensures
        forall|e: Event| #[trigger]
            row_events(cells, samples, threshold, row, upto).contains(e) <==> e.coord.row == row
                && e.coord.col < upto && cell_emits(
                cells[e.coord.col as int],
                samples[e.coord.col as int],
                threshold,
            ) == Some(e.kind),
        forall|i: int, j: int|
            0 <= i < j < row_events(cells, samples, threshold, row, upto).len() ==> precedes(
                (#[trigger] row_events(cells, samples, threshold, row, upto)[i]).coord,
                (#[trigger] row_events(cells, samples, threshold, row, upto)[j]).coord,
            ),
    decreases upto,
{
    if upto > 0 {
        lemma_row_events(cells, samples, threshold, row, upto - 1);
        let before = row_events(cells, samples, threshold, row, upto - 1);
        let all = row_events(cells, samples, threshold, row, upto);
        assert forall|e: Event| #[trigger]
            all.contains(e) <==> e.coord.row == row && e.coord.col < upto && cell_emits(
                cells[e.coord.col as int],
                samples[e.coord.col as int],
                threshold,
            ) == Some(e.kind) by {
            if before.contains(e) {
                let i = choose|i: int| 0 <= i < before.len() && before[i] == e;
                assert(all[i] == e);
            }
            if all.contains(e) && !before.contains(e) {
                let i = choose|i: int| 0 <= i < all.len() && all[i] == e;
                if i < before.len() {
                    assert(before[i] == e);
                }
            }
            if e.coord.row == row && e.coord.col == upto - 1 && cell_emits(
                cells[upto - 1],
                samples[upto - 1],
                threshold,
            ) == Some(e.kind) {
                assert(all[all.len() - 1] == e);
            }
        }
        assert forall|i: int, j: int| 0 <= i < j < all.len() implies precedes(
            (#[trigger] all[i]).coord,
            (#[trigger] all[j]).coord,
        ) by {
            if j >= before.len() {
                assert(before.contains(before[i]));
            }
        }
    }
}

/// The events of a frame are the commits of its cells, in row-major
/// order: a cell that commits gives exactly one event, of the kind of
/// its new state, and a cell that does not gives none.
pub proof fn lemma_grid_events(
    cells: Seq<Seq<CellState>>,
    frame: Seq<Seq<bool>>,
    threshold: u32,
    upto: int,
)
    requires
        0 <= upto <= cells.len(),
        upto <= usize::MAX,
        forall|r: int| 0 <= r < upto ==> (#[trigger] cells[r]).len() <= usize::MAX,
    ensures
        forall|e: Event| #[trigger]
            grid_events(cells, frame, threshold, upto).contains(e) <==> e.coord.row < upto
                && e.coord.col < cells[e.coord.row as int].len() && cell_emits(
                cells[e.coord.row as int][e.coord.col as int],
                frame[e.coord.row as int][e.coord.col as int],
                threshold,
            ) == Some(e.kind),
        forall|i: int, j: int|
            0 <= i < j < grid_events(cells, frame, threshold, upto).len() ==> precedes(
                (#[trigger] grid_events(cells, frame, threshold, upto)[i]).coord,
                (#[trigger] grid_events(cells, frame, threshold, upto)[j]).coord,
            ),
    decreases upto,
{
    if upto > 0 {
        let r = upto - 1;
        lemma_grid_events(cells, frame, threshold, r);
        lemma_row_events(cells[r], frame[r], threshold, r, cells[r].len() as int);
        let before = grid_events(cells, frame, threshold, r);
        let here = row_events(cells[r], frame[r], threshold, r, cells[r].len() as int);
        let all = grid_events(cells, frame, threshold, upto);
        assert(all == before + here);
        assert forall|e: Event| #[trigger]
            all.contains(e) <==> e.coord.row < upto && e.coord.col < cells[e.coord.row as int].len()
                && cell_emits(
                cells[e.coord.row as int][e.coord.col as int],
                frame[e.coord.row as int][e.coord.col as int],
                threshold,
            ) == Some(e.kind) by {
            if before.contains(e) {
                let i = choose|i: int| 0 <= i < before.len() && before[i] == e;
                assert(all[i] == e);
            }
            if here.contains(e) {
                let i = choose|i: int| 0 <= i < here.len() && here[i] == e;
                assert(all[before.len() + i] == e);
            }
            if all.contains(e) {
                let i = choose|i: int| 0 <= i < all.len() && all[i] == e;
                if i < before.len() {
                    assert(before[i] == e);
                } else {
                    assert(here[i - before.len()] == e);
                }
            }
        }
        assert forall|i: int, j: int| 0 <= i < j < all.len() implies precedes(
            (#[trigger] all[i]).coord,
            (#[trigger] all[j]).coord,
        ) by {
            if j < before.len() {
                assert(all[i] == before[i] && all[j] == before[j]);
            } else if i >= before.len() {
                assert(all[i] == here[i - before.len()] && all[j] == here[j - before.len()]);
            } else {
                assert(all[i] == before[i] && all[j] == here[j - before.len()]);
                assert(before.contains(before[i]));
                assert(here.contains(here[j - before.len()]));
            }
        }
    }
}

} // verus!
