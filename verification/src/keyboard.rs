//! One tick of the keyboard: a raw frame goes in, and what comes out is
//! the custom signal of the tick, the report, and whether to write it.

use vstd::prelude::*;
use crate::action::CustomSignal;
use crate::assembler::{answered, fresh_link, must_write, offered, Assembler, WriteOutcome};
use crate::debounce::{grid_events, grid_next, settled, Debouncer, Event};
use crate::layers::Layers;
use crate::layout::{resolved_codes, ticked, Layout};
use crate::matrix::RawFrame;
use crate::report::{pack, report_bytes, Report};

verus! {

/// What one tick came to.
#[derive(Clone, Copy, Debug)]
pub struct TickOutcome {
    /// The first custom signal of the tick, if any.
    pub signal: Option<CustomSignal>,
    /// The report for the key codes now held down.
    pub report: Report,
    /// Whether the report is to be written to the transport.
    pub transmit: bool,
}

/// The debounce filter, the layout engine and the report assembler of
/// one keyboard.
pub struct Keyboard<'a> {
    pub debouncer: Debouncer,
    pub layout: Layout<'a>,
    pub assembler: Assembler,
}

impl<'a> Keyboard<'a> {
    /// Filter and engine are valid, and the filter has the dimensions of
    /// the layer table.
    pub open spec fn wf(&self) -> bool {
        &&& self.debouncer.wf()
        &&& self.layout.wf()
        &&& self.debouncer.spec_rows() == self.layout.layers().spec_rows()
        &&& self.debouncer.spec_cols() == self.layout.layers().spec_cols()
    }

    /// A keyboard with every key released and nothing sent yet.
    /// `threshold` is the number of agreeing samples that confirm a
    /// change of a key, `max_retries` how often a busy transport is tried
    /// again for one report.
    pub fn new(layers: &'a Layers, threshold: u32, max_retries: u32) -> (keyboard: Keyboard<'a>)
        requires
            layers.wf(),
        ensures
            keyboard.wf(),
            keyboard.layout.layers() == layers,
            keyboard.debouncer.spec_threshold() == threshold,
            forall|r: int, c: int|
                0 <= r < layers.spec_rows() && 0 <= c < layers.spec_cols() ==> (
                #[trigger] keyboard.debouncer@[r][c]) == settled(false),
            keyboard.layout.keys().len() == 0,
            keyboard.layout.queue().len() == 0,
            keyboard.assembler@ == fresh_link(max_retries),
    {
        let debouncer = Debouncer::new(layers.rows(), layers.cols(), threshold);
        let layout = Layout::new(layers);
        let assembler = Assembler::new(max_retries);
        Keyboard { debouncer, layout, assembler }
    }

    /// One tick. The frame is debounced, the events go to the layout
    /// engine in the order the filter gives them, the engine moves on by
    /// one tick, and the report for the key codes it then holds down is
    /// offered to the assembler.
    pub fn tick(&mut self, frame: &RawFrame) -> (out: TickOutcome)
        requires
            old(self).wf(),
            frame.wf(),
            frame.spec_rows() == old(self).debouncer.spec_rows(),
            frame.spec_cols() == old(self).debouncer.spec_cols(),
        ensures
            final(self).wf(),
            final(self).layout.layers() == old(self).layout.layers(),
            final(self).debouncer.spec_threshold() == old(self).debouncer.spec_threshold(),
            final(self).debouncer@ == grid_next(
                old(self).debouncer@,
                frame@,
                old(self).debouncer.spec_threshold(),
            ),
            final(self).layout.queue() == Seq::<Event>::empty(),
            final(self).layout.keys() == ticked(
                old(self).layout.layers(),
                old(self).layout.keys(),
                old(self).layout.queue() + tick_events(*old(self), *frame),
            ).0,
            out.signal == ticked(
                old(self).layout.layers(),
                old(self).layout.keys(),
                old(self).layout.queue() + tick_events(*old(self), *frame),
            ).1,
            out.report@ == report_bytes(pack(resolved_codes(final(self).layout.keys()))),
            final(self).assembler@ == offered(old(self).assembler@, out.report@),
            out.transmit == must_write(final(self).assembler@),
    {
        let events = self.debouncer.events(frame);
        let ghost queued = self.layout.queue();
        let ghost filter = self.debouncer;
        let ghost link = self.assembler;
        let mut i: usize = 0;
        while i < events.len()
            invariant
                i <= events.len(),
                self.layout.wf(),
                self.layout.layers() == old(self).layout.layers(),
                self.layout.keys() == old(self).layout.keys(),
                self.layout.queue() == queued + events@.take(i as int),
                self.debouncer == filter,
                self.assembler == link,
            decreases events.len() - i,
        {
            self.layout.event(events[i]);
            proof {
                assert(events@.take(i + 1) =~= events@.take(i as int).push(events@[i as int]));
                assert(queued + events@.take(i + 1) =~= (queued + events@.take(i as int)).push(
                    events@[i as int],
                ));
            }
            i += 1;
        }
        proof {
            assert(events@.take(i as int) =~= events@);
        }
        let signal = self.layout.tick();
        let codes = self.layout.keycodes();
        let report = Report::build(&codes);
        let transmit = self.assembler.maybe_send(report);
        TickOutcome { signal, report, transmit }
    }

    /// Takes in how the write of the report went. Returns whether to
    /// write the same report again.
    pub fn written(&mut self, outcome: WriteOutcome) -> (again: bool)
        requires
            old(self).wf(),
        ensures
            final(self).wf(),
            final(self).debouncer == old(self).debouncer,
            final(self).layout == old(self).layout,
            final(self).assembler@ == answered(old(self).assembler@, outcome),
            again == must_write(final(self).assembler@),
    {
        self.assembler.written(outcome)
    }
}

/// The events that the filter of `keyboard` draws from `frame`.
pub open spec fn tick_events(keyboard: Keyboard, frame: RawFrame) -> Seq<Event> {
    grid_events(
        keyboard.debouncer@,
        frame@,
        keyboard.debouncer.spec_threshold(),
        keyboard.debouncer.spec_rows() as int,
    )
}

} // verus!
