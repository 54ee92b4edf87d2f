//! Key matrix geometry, raw frames, and the row-strobing scan sequence.

use vstd::prelude::*;

verus! {

/// A physical key position: zero-based row and column.
#[derive(Clone, Copy, Debug, PartialEq, Eq, Structural)]
pub struct Coordinate {
    pub row: usize,
    pub col: usize,
}

/// True when `cells` is a grid of `rows` rows with `cols` entries each.
pub open spec fn is_grid<T>(cells: Seq<Seq<T>>, rows: nat, cols: nat) -> bool {
    &&& cells.len() == rows
    &&& forall|r: int| 0 <= r < cells.len() ==> (#[trigger] cells[r]).len() == cols
}

/// The instantaneous electrical state of the matrix: one boolean per
/// position, `true` meaning the circuit is closed.
pub struct RawFrame {
    rows: usize,
    cols: usize,
    cells: Vec<Vec<bool>>,
}

impl RawFrame {
    /// The frame as a grid of booleans, row by row.
    pub closed spec fn view(&self) -> Seq<Seq<bool>> {
        Seq::new(self.cells@.len(), |r: int| self.cells@[r]@)
    }

    pub closed spec fn spec_rows(&self) -> nat {
        self.rows as nat
    }

    pub closed spec fn spec_cols(&self) -> nat {
        self.cols as nat
    }

    /// Every frame is a full grid of its dimensions.
    pub closed spec fn wf(&self) -> bool {
        is_grid(self@, self.rows as nat, self.cols as nat)
    }

    /// A frame with every position open.
    pub fn new(rows: usize, cols: usize) -> (frame: RawFrame)
        ensures
            frame.wf(),
            frame.spec_rows() == rows,
            frame.spec_cols() == cols,
            forall|r: int, c: int| 0 <= r < rows && 0 <= c < cols ==> frame@[r][c] == false,
    {
        let mut cells: Vec<Vec<bool>> = Vec::new();
        let mut r: usize = 0;
        while r < rows
            invariant
                r <= rows,
                cells@.len() == r,
                forall|i: int| 0 <= i < r ==> (#[trigger] cells@[i])@.len() == cols,
                forall|i: int, c: int| 0 <= i < r && 0 <= c < cols ==> (#[trigger] cells@[i]@[c]) == false,
            decreases rows - r,
        {
            let mut row: Vec<bool> = Vec::new();
            let mut c: usize = 0;
            while c < cols
                invariant
                    c <= cols,
                    row@.len() == c,
                    forall|j: int| 0 <= j < c ==> row@[j] == false,
                decreases cols - c,
            {
                row.push(false);
                c += 1;
            }
            cells.push(row);
            r += 1;
        }
        RawFrame { rows, cols, cells }
    }

    /// Takes a grid of samples over, if every row has as many entries as the
    /// first (a grid without rows has no columns).
    pub fn from_rows(cells: Vec<Vec<bool>>) -> (res: Option<RawFrame>)
        ensures
            res is Some <==> forall|r: int|
                0 <= r < cells.len() ==> (#[trigger] cells[r]).len() == cells[0].len(),
            res matches Some(frame) ==> {
                &&& frame.wf()
                &&& frame.spec_rows() == cells.len()
                &&& frame.spec_cols() == (if cells.len() == 0 {
                    0
                } else {
                    cells[0].len()
                })
                &&& forall|r: int| 0 <= r < cells.len() ==> frame@[r] == (#[trigger] cells[r])@
            },
    {
        let rows: usize = cells.len();
        let cols: usize = if rows == 0 {
            0
        } else {
            cells[0].len()
        };
        let mut r: usize = 0;
        while r < rows
            invariant
                r <= rows,
                rows == cells.len(),
                rows > 0 ==> cols == cells[0].len(),
                forall|i: int| 0 <= i < r ==> (#[trigger] cells[i]).len() == cols,
            decreases rows - r,
        {
            if cells[r].len() != cols {
                return None;
            }
            r += 1;
        }
        Some(RawFrame { rows, cols, cells })
    }

    /// Number of rows.
    pub fn rows(&self) -> (n: usize)
        ensures
            n == self.spec_rows(),
    {
        self.rows
    }

    /// Number of columns.
    pub fn cols(&self) -> (n: usize)
        ensures
            n == self.spec_cols(),
    {
        self.cols
    }

    /// The sample at `at`.
    pub fn get(&self, at: Coordinate) -> (closed: bool)
        requires
            self.wf(),
            at.row < self.spec_rows(),
            at.col < self.spec_cols(),
        ensures
            closed == self@[at.row as int][at.col as int],
    {
        assert(self@.len() == self.cells@.len());
        assert(self@[at.row as int] == self.cells@[at.row as int]@);
        self.cells[at.row][at.col]
    }

    /// Records one sample.
    pub fn set(&mut self, at: Coordinate, closed: bool)
        requires
            old(self).wf(),
            at.row < old(self).spec_rows(),
            at.col < old(self).spec_cols(),
        ensures
            final(self).wf(),
            final(self).spec_rows() == old(self).spec_rows(),
            final(self).spec_cols() == old(self).spec_cols(),
            final(self)@ == old(self)@.update(at.row as int, old(self)@[at.row as int].update(at.col as int, closed)),
    {
        assert(self@.len() == self.cells@.len());
        assert(self@[at.row as int] == self.cells@[at.row as int]@);
        self.cells[at.row].set(at.col, closed);
        assert(self@ =~= old(self)@.update(
            at.row as int,
            old(self)@[at.row as int].update(at.col as int, closed),
        ));
    }
}

/// One thing for the hardware to do during a scan.
#[derive(Clone, Copy, Debug, PartialEq, Eq, Structural)]
pub enum ScanStep {
    /// Drive row `row`: active if `active`, back to rest if not. The step
    /// is done when the line has settled.
    Drive { row: usize, active: bool },
    /// Read column `col` while row `row` is active.
    Sample { row: usize, col: usize },
    /// Every row has been strobed: the frame is complete.
    Done,
}

/// The step that a scan of `rows` rows begins with.
pub open spec fn first_step(rows: nat) -> ScanStep {
    if rows == 0 {
        ScanStep::Done
    } else {
        ScanStep::Drive { row: 0, active: true }
    }
}

/// The step that follows `step`: a row is driven active, its columns are
/// read by rising index, the row is driven back to rest, and the next
/// row follows.
pub open spec fn step_after(step: ScanStep, rows: nat, cols: nat) -> ScanStep {
    match step {
        ScanStep::Drive { row, active } => if active {
            if cols > 0 {
                ScanStep::Sample { row, col: 0 }
            } else {
                ScanStep::Drive { row, active: false }
            }
        } else if row + 1 < rows {
            ScanStep::Drive { row: (row + 1) as usize, active: true }
        } else {
            ScanStep::Done
        },
        ScanStep::Sample { row, col } => if col + 1 < cols {
            ScanStep::Sample { row, col: (col + 1) as usize }
        } else {
            ScanStep::Drive { row, active: false }
        },
        ScanStep::Done => ScanStep::Done,
    }
}

/// The frame after `step` was carried out and, if it was a read, gave
/// `sample`.
pub open spec fn frame_after(step: ScanStep, frame: Seq<Seq<bool>>, sample: bool) -> Seq<
    Seq<bool>,
> {
    match step {
        ScanStep::Sample { row, col } => frame.update(
            row as int,
            frame[row as int].update(col as int, sample),
        ),
        _ => frame,
    }
}

/// Whether `step` names a row and a column of the matrix.
pub open spec fn step_in_range(step: ScanStep, rows: nat, cols: nat) -> bool {
    match step {
        ScanStep::Drive { row, .. } => row < rows,
        ScanStep::Sample { row, col } => row < rows && col < cols,
        ScanStep::Done => true,
    }
}

/// Whether the cell at (`r`, `c`) is read before `step` in a scan.
pub open spec fn read_before(step: ScanStep, r: int, c: int) -> bool {
    match step {
        ScanStep::Drive { row, active } => if active {
            r < row
        } else {
            r <= row
        },
        ScanStep::Sample { row, col } => r < row || (r == row && c < col),
        ScanStep::Done => true,
    }
}

/// How many steps of its row a step still has before it, counted so that
/// it falls with every step.
pub open spec fn steps_in_row(step: ScanStep, cols: nat) -> int {
    match step {
        ScanStep::Drive { active, .. } => if active {
            cols as int + 2
        } else {
            1
        },
        ScanStep::Sample { col, .. } => cols as int - col as int + 1,
        ScanStep::Done => 0,
    }
}

/// How many rows a step still has before it.
pub open spec fn rows_left(step: ScanStep, rows: nat) -> int {
    match step {
        ScanStep::Drive { row, .. } => rows as int - row as int,
        ScanStep::Sample { row, .. } => rows as int - row as int,
        ScanStep::Done => 0,
    }
}

/// The frame at the end of a scan that stands at `step` with `frame`,
/// where a read of the cell at (`r`, `c`) gives `wires(r, c)`.
pub open spec fn scan_from(
    step: ScanStep,
    frame: Seq<Seq<bool>>,
    rows: nat,
    cols: nat,
    wires: spec_fn(int, int) -> bool,
) -> Seq<Seq<bool>>
    decreases rows_left(step, rows), steps_in_row(step, cols),
{
    if step is Done || !step_in_range(step, rows, cols) || rows > usize::MAX || cols
        > usize::MAX {
        frame
    } else {
        let sample = match step {
            ScanStep::Sample { row, col } => wires(row as int, col as int),
            _ => false,
        };
        scan_from(
            step_after(step, rows, cols),
            frame_after(step, frame, sample),
            rows,
            cols,
            wires,
        )
    }
}

/// A scan that is carried through reads every cell: where the frame
/// agrees with the wires in the cells read so far, it agrees with them
/// in every cell at the end.
pub proof fn lemma_scan_reads_every_cell(
    step: ScanStep,
    frame: Seq<Seq<bool>>,
    rows: nat,
    cols: nat,
    wires: spec_fn(int, int) -> bool,
)
    requires
        rows <= usize::MAX,
        cols <= usize::MAX,
        is_grid(frame, rows, cols),
        step_in_range(step, rows, cols),
        forall|r: int, c: int|
            0 <= r < rows && 0 <= c < cols && read_before(step, r, c) ==> frame[r][c] == wires(
                r,
                c,
            ),
    ensures
        is_grid(scan_from(step, frame, rows, cols, wires), rows, cols),
        forall|r: int, c: int|
            0 <= r < rows && 0 <= c < cols ==> scan_from(step, frame, rows, cols, wires)[r][c]
                == wires(r, c),
    decreases rows_left(step, rows), steps_in_row(step, cols),
{
    if !(step is Done) {
        let sample = match step {
            ScanStep::Sample { row, col } => wires(row as int, col as int),
            _ => false,
        };
        let next = step_after(step, rows, cols);
        let filled = frame_after(step, frame, sample);
        assert(is_grid(filled, rows, cols));
        assert forall|r: int, c: int|
            0 <= r < rows && 0 <= c < cols && read_before(next, r, c) implies filled[r][c]
            == wires(r, c) by {
            match step {
                ScanStep::Sample { row, col } => {
                    if r == row && c == col {
                        assert(filled[r][c] == sample);
                    } else {
                        assert(filled[r][c] == frame[r][c]);
                        assert(read_before(step, r, c));
                    }
                },
                _ => {
                    assert(read_before(step, r, c));
                },
            }
        }
        lemma_scan_reads_every_cell(next, filled, rows, cols, wires);
    } else {
        assert forall|r: int, c: int| 0 <= r < rows && 0 <= c < cols implies frame[r][c]
            == wires(r, c) by {
            assert(read_before(step, r, c));
        }
    }
}

/// The matrix scanner. It does not touch the hardware: it says what to
/// do next, and is told when that was done and what a read gave.
pub struct Scanner {
    step: ScanStep,
    frame: RawFrame,
}

impl Scanner {
    /// The step to carry out next.
    pub closed spec fn step(&self) -> ScanStep {
        self.step
    }

    /// The samples taken so far in this scan; cells not read yet are open.
    pub closed spec fn frame(&self) -> Seq<Seq<bool>> {
        self.frame@
    }

    pub closed spec fn spec_rows(&self) -> nat {
        self.frame.spec_rows()
    }

    pub closed spec fn spec_cols(&self) -> nat {
        self.frame.spec_cols()
    }

    pub closed spec fn wf(&self) -> bool {
        &&& self.frame.wf()
        &&& step_in_range(self.step, self.frame.spec_rows(), self.frame.spec_cols())
    }

    /// A scanner at the beginning of a scan.
    pub fn new(rows: usize, cols: usize) -> (scanner: Scanner)
        ensures
            scanner.wf(),
            scanner.spec_rows() == rows,
            scanner.spec_cols() == cols,
            scanner.step() == first_step(rows as nat),
            is_grid(scanner.frame(), rows as nat, cols as nat),
            forall|r: int, c: int|
                0 <= r < rows && 0 <= c < cols ==> scanner.frame()[r][c] == false,
    {
        let frame = RawFrame::new(rows, cols);
        let step = if rows == 0 {
            ScanStep::Done
        } else {
            ScanStep::Drive { row: 0, active: true }
        };
        Scanner { step, frame }
    }

    /// What the hardware is to do next.
    pub fn next(&self) -> (step: ScanStep)
        requires
            self.wf(),
        ensures
            step == self.step(),
            step_in_range(step, self.spec_rows(), self.spec_cols()),
    {
        self.step
    }

    /// Takes in that the step was carried out. `sample` is what a read
    /// gave; after any other step it is not looked at.
    pub fn advance(&mut self, sample: bool)
        requires
            old(self).wf(),
        ensures
            final(self).wf(),
            final(self).spec_rows() == old(self).spec_rows(),
            final(self).spec_cols() == old(self).spec_cols(),
            final(self).step() == step_after(
                old(self).step(),
                old(self).spec_rows(),
                old(self).spec_cols(),
            ),
            final(self).frame() == frame_after(old(self).step(), old(self).frame(), sample),
    {
        let rows: usize = self.frame.rows();
        let cols: usize = self.frame.cols();
        match self.step {
            ScanStep::Drive { row, active } => {
                if active {
                    if cols > 0 {
                        self.step = ScanStep::Sample { row, col: 0 };
                    } else {
                        self.step = ScanStep::Drive { row, active: false };
                    }
                } else if row + 1 < rows {
                    self.step = ScanStep::Drive { row: row + 1, active: true };
                } else {
                    self.step = ScanStep::Done;
                }
            },
            ScanStep::Sample { row, col } => {
                self.frame.set(Coordinate { row, col }, sample);
                if col + 1 < cols {
                    self.step = ScanStep::Sample { row, col: col + 1 };
                } else {
                    self.step = ScanStep::Drive { row, active: false };
                }
            },
            ScanStep::Done => {},
        }
    }

    /// Hands out the frame if the scan is complete, and begins the next
    /// scan. While rows are still to be strobed there is no frame, and
    /// nothing changes.
    pub fn finish(&mut self) -> (res: Option<RawFrame>)
        requires
            old(self).wf(),
        ensures
            final(self).wf(),
            final(self).spec_rows() == old(self).spec_rows(),
            final(self).spec_cols() == old(self).spec_cols(),
            res is Some <==> old(self).step() is Done,
            res matches Some(frame) ==> {
                &&& frame.wf()
                &&& frame.spec_rows() == old(self).spec_rows()
                &&& frame.spec_cols() == old(self).spec_cols()
                &&& frame@ == old(self).frame()
                &&& final(self).step() == first_step(old(self).spec_rows())
                &&& forall|r: int, c: int|
                    0 <= r < old(self).spec_rows() && 0 <= c < old(self).spec_cols()
                        ==> final(self).frame()[r][c] == false
            },
            res is None ==> final(self).step() == old(self).step(),
            res is None ==> final(self).frame() == old(self).frame(),
    {
        match self.step {
            ScanStep::Done => {
                let rows: usize = self.frame.rows();
                let cols: usize = self.frame.cols();
                let mut frame = RawFrame::new(rows, cols);
                core::mem::swap(&mut self.frame, &mut frame);
                self.step = if rows == 0 {
                    ScanStep::Done
                } else {
                    ScanStep::Drive { row: 0, active: true }
                };
                Some(frame)
            },
            _ => None,
        }
    }
}

} // verus!
