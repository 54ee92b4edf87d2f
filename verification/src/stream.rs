//! The events of one key over many frames.
//!
//! The filter works cell by cell, so what it gives for one position over
//! a run of frames is what that cell alone gives for its samples. The
//! laws on single cells in `debounce` therefore hold of every position
//! of the matrix.

use vstd::prelude::*;
use crate::debounce::{
    cell_emits, cell_run, cell_trace, grid_events, grid_next, kind_of, lemma_trace_alternates,
    row_events, CellState, Event, EventKind,
};
use crate::matrix::Coordinate;

verus! {

/// The cells after `frames`, taken in order.
pub open spec fn grid_run(
    cells: Seq<Seq<CellState>>,
    frames: Seq<Seq<Seq<bool>>>,
    threshold: u32,
) -> Seq<Seq<CellState>>
    decreases frames.len(),
{
    if frames.len() == 0 {
        cells
    } else {
        grid_next(grid_run(cells, frames.drop_last(), threshold), frames.last(), threshold)
    }
}

/// The samples that `frames` hold for position `at`.
pub open spec fn samples_at(frames: Seq<Seq<Seq<bool>>>, at: Coordinate) -> Seq<bool> {
    Seq::new(frames.len(), |k: int| frames[k][at.row as int][at.col as int])
}

/// The kinds of those of `events` that are about position `at`, in order.
pub open spec fn kinds_at(events: Seq<Event>, at: Coordinate) -> Seq<EventKind>
    decreases events.len(),
{
    if events.len() == 0 {
        Seq::empty()
    } else {
        let before = kinds_at(events.drop_last(), at);
        if events.last().coord == at {
            before.push(events.last().kind)
        } else {
            before
        }
    }
}

/// The kinds of the events that the filter gives for position `at` while
/// it takes in `frames`, in order.
pub open spec fn stream_at(
    cells: Seq<Seq<CellState>>,
    frames: Seq<Seq<Seq<bool>>>,
    threshold: u32,
    at: Coordinate,
) -> Seq<EventKind>
    decreases frames.len(),
{
    if frames.len() == 0 {
        Seq::empty()
    } else {
        stream_at(cells, frames.drop_last(), threshold, at) + kinds_at(
            grid_events(
                grid_run(cells, frames.drop_last(), threshold),
                frames.last(),
                threshold,
                cells.len() as int,
            ),
            at,
        )
    }
}

/// No event or one, as a sequence.
pub open spec fn at_most_one(kind: Option<EventKind>) -> Seq<EventKind> {
    match kind {
        Some(k) => seq![k],
        None => Seq::empty(),
    }
}

/// Whether the grid fits the machine's index range.
pub open spec fn indexable(cells: Seq<Seq<CellState>>) -> bool {
    &&& cells.len() <= usize::MAX
    &&& forall|r: int| 0 <= r < cells.len() ==> (#[trigger] cells[r]).len() <= usize::MAX
}

proof fn lemma_kinds_at_concat(a: Seq<Event>, b: Seq<Event>, at: Coordinate)
    ensures
        kinds_at(a + b, at) == kinds_at(a, at) + kinds_at(b, at),
    decreases b.len(),
{
    if b.len() == 0 {
        assert(a + b =~= a);
        assert(kinds_at(a, at) + kinds_at(b, at) =~= kinds_at(a, at));
    } else {
        lemma_kinds_at_concat(a, b.drop_last(), at);
        assert((a + b).drop_last() =~= a + b.drop_last());
        assert((a + b).last() == b.last());
        if b.last().coord == at {
            assert(kinds_at(a, at) + kinds_at(b.drop_last(), at).push(b.last().kind) =~= (kinds_at(
                a,
                at,
            ) + kinds_at(b.drop_last(), at)).push(b.last().kind));
        }
    }
}

proof fn lemma_kinds_at_row(
    cells: Seq<CellState>,
    samples: Seq<bool>,
    threshold: u32,
    row: int,
    upto: int,
    at: Coordinate,
)
    requires
        0 <= row <= usize::MAX,
        0 <= upto <= usize::MAX,
    ensures
        kinds_at(row_events(cells, samples, threshold, row, upto), at) == if at.row == row
            && at.col < upto {
            at_most_one(cell_emits(cells[at.col as int], samples[at.col as int], threshold))
        } else {
            Seq::empty()
        },
    decreases upto,
{
    if upto > 0 {
        lemma_kinds_at_row(cells, samples, threshold, row, upto - 1, at);
        let before = row_events(cells, samples, threshold, row, upto - 1);
        match cell_emits(cells[upto - 1], samples[upto - 1], threshold) {
            Some(kind) => {
                let e = Event {
                    coord: Coordinate { row: row as usize, col: (upto - 1) as usize },
                    kind,
                };
                assert(before.push(e).drop_last() =~= before);
                assert(before.push(e).last() == e);
                if e.coord == at {
                    assert(kinds_at(before, at).push(kind) =~= seq![kind]);
                }
            },
            None => {},
        }
    }
}

proof fn lemma_kinds_at_grid(
    cells: Seq<Seq<CellState>>,
    frame: Seq<Seq<bool>>,
    threshold: u32,
    upto: int,
    at: Coordinate,
)
    requires
        indexable(cells),
        0 <= upto <= cells.len(),
    ensures
        kinds_at(grid_events(cells, frame, threshold, upto), at) == if at.row < upto && at.col
            < cells[at.row as int].len() {
            at_most_one(
                cell_emits(
                    cells[at.row as int][at.col as int],
                    frame[at.row as int][at.col as int],
                    threshold,
                ),
            )
        } else {
            Seq::empty()
        },
    decreases upto,
{
    if upto > 0 {
        let r = upto - 1;
        lemma_kinds_at_grid(cells, frame, threshold, r, at);
        lemma_kinds_at_row(cells[r], frame[r], threshold, r, cells[r].len() as int, at);
        let before = grid_events(cells, frame, threshold, r);
        let here = row_events(cells[r], frame[r], threshold, r, cells[r].len() as int);
        lemma_kinds_at_concat(before, here, at);
        assert(kinds_at(before, at) + Seq::<EventKind>::empty() =~= kinds_at(before, at));
        assert(Seq::<EventKind>::empty() + kinds_at(here, at) =~= kinds_at(here, at));
    }
}

/// A run of frames takes every cell through its own samples, and keeps
/// the shape of the grid.
pub proof fn lemma_grid_run_cell_by_cell(
    cells: Seq<Seq<CellState>>,
    frames: Seq<Seq<Seq<bool>>>,
    threshold: u32,
)
    ensures
        grid_run(cells, frames, threshold).len() == cells.len(),
        forall|r: int|
            0 <= r < cells.len() ==> (#[trigger] grid_run(cells, frames, threshold)[r]).len()
                == cells[r].len(),
        forall|r: int, c: int|
            0 <= r < cells.len() && 0 <= c < cells[r].len() && r <= usize::MAX && c <= usize::MAX
                ==> (#[trigger] grid_run(cells, frames, threshold)[r][c]) == cell_run(
                cells[r][c],
                samples_at(frames, Coordinate { row: r as usize, col: c as usize }),
                threshold,
            ),
    decreases frames.len(),
{
    if frames.len() > 0 {
        lemma_grid_run_cell_by_cell(cells, frames.drop_last(), threshold);
        assert forall|r: int, c: int|
            0 <= r < cells.len() && 0 <= c < cells[r].len() && r <= usize::MAX && c
                <= usize::MAX implies (#[trigger] grid_run(cells, frames, threshold)[r][c])
            == cell_run(
            cells[r][c],
            samples_at(frames, Coordinate { row: r as usize, col: c as usize }),
            threshold,
        ) by {
            let at = Coordinate { row: r as usize, col: c as usize };
            assert(samples_at(frames, at).drop_last() =~= samples_at(frames.drop_last(), at));
            assert(samples_at(frames, at).last() == frames.last()[r][c]);
        }
    }
}

/// What the filter gives for one position over a run of frames is what
/// the cell at that position gives for its samples.
pub proof fn lemma_stream_is_cell_trace(
    cells: Seq<Seq<CellState>>,
    frames: Seq<Seq<Seq<bool>>>,
    threshold: u32,
    at: Coordinate,
)
    requires
        indexable(cells),
        at.row < cells.len(),
        at.col < cells[at.row as int].len(),
    ensures
        stream_at(cells, frames, threshold, at) == cell_trace(
            cells[at.row as int][at.col as int],
            samples_at(frames, at),
            threshold,
        ),
    decreases frames.len(),
{
    if frames.len() > 0 {
        let head = frames.drop_last();
        lemma_stream_is_cell_trace(cells, head, threshold, at);
        lemma_grid_run_cell_by_cell(cells, head, threshold);
        let grid = grid_run(cells, head, threshold);
        lemma_kinds_at_grid(grid, frames.last(), threshold, cells.len() as int, at);
        let samples = samples_at(frames, at);
        assert(samples.drop_last() =~= samples_at(head, at));
        assert(samples.last() == frames.last()[at.row as int][at.col as int]);
        let cell = cells[at.row as int][at.col as int];
        assert(grid[at.row as int][at.col as int] == cell_run(
            cell,
            samples_at(head, at),
            threshold,
        ));
        let before = cell_trace(cell, samples.drop_last(), threshold);
        match cell_emits(cell_run(cell, samples.drop_last(), threshold), samples.last(), threshold) {
            Some(kind) => {
                assert(before + seq![kind] =~= before.push(kind));
            },
            None => {
                assert(before + Seq::<EventKind>::empty() =~= before);
            },
        }
    }
}

/// Alternation, for every position: over any run of frames the events
/// of one key alternate between press and release, beginning with the
/// opposite of the state the key was in.
pub proof fn lemma_stream_alternates(
    cells: Seq<Seq<CellState>>,
    frames: Seq<Seq<Seq<bool>>>,
    threshold: u32,
    at: Coordinate,
)
    requires
        indexable(cells),
        at.row < cells.len(),
        at.col < cells[at.row as int].len(),
    ensures
        forall|k: int|
            0 < k < stream_at(cells, frames, threshold, at).len() ==> (#[trigger] stream_at(
                cells,
                frames,
                threshold,
                at,
            )[k]) != stream_at(cells, frames, threshold, at)[k - 1],
        stream_at(cells, frames, threshold, at).len() > 0 ==> stream_at(
            cells,
            frames,
            threshold,
            at,
        )[0] == kind_of(!cells[at.row as int][at.col as int].confirmed),
{
    lemma_stream_is_cell_trace(cells, frames, threshold, at);
    lemma_trace_alternates(
        cells[at.row as int][at.col as int],
        samples_at(frames, at),
        threshold,
    );
}

} // verus!
