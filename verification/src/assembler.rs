//! Deciding when a report goes out.
//!
//! The assembler remembers the report that the host saw last. A report
//! is handed to the transport only if it differs from that one. The
//! transport is not reached from here: `maybe_send` says whether to
//! write, the caller writes and tells `written` how it went, and
//! `written` says whether to write again. A busy transport is tried
//! again at once, up to a fixed number of times.

use vstd::prelude::*;
use crate::report::{nothing, report_bytes, Report};

verus! {

/// How one write to the transport went.
#[derive(Clone, Copy, Debug, PartialEq, Eq, Structural)]
pub enum WriteOutcome {
    /// The transport took the report.
    Sent,
    /// The transport cannot take a report right now.
    Busy,
    /// The transport failed.
    Failed,
}

/// What the assembler knows: the bytes that went out last, the bytes
/// that are to go out, and how often a busy transport may still be
/// tried again.
pub struct Link {
    pub last_sent: Seq<u8>,
    pub pending: Option<Seq<u8>>,
    pub retries_left: u32,
    pub max_retries: u32,
}

/// The link to a host that has seen no key down.
pub open spec fn fresh_link(max_retries: u32) -> Link {
    Link { last_sent: report_bytes(nothing()), pending: None, retries_left: 0, max_retries }
}

/// The link after `report` was offered: it is to go out exactly if it
/// differs from what went out last.
pub open spec fn offered(l: Link, report: Seq<u8>) -> Link {
    if report == l.last_sent {
        Link { pending: None, ..l }
    } else {
        Link { pending: Some(report), retries_left: l.max_retries, ..l }
    }
}

/// Whether the caller is to write now.
pub open spec fn must_write(l: Link) -> bool {
    l.pending is Some
}

/// The link after a write went as `outcome` says.
pub open spec fn answered(l: Link, outcome: WriteOutcome) -> Link {
    match l.pending {
        None => l,
        Some(report) => match outcome {
            WriteOutcome::Sent => Link { last_sent: report, pending: None, ..l },
            WriteOutcome::Busy => if l.retries_left > 0 {
                Link { retries_left: (l.retries_left - 1) as u32, ..l }
            } else {
                Link { pending: None, ..l }
            },
            WriteOutcome::Failed => Link { pending: None, ..l },
        },
    }
}

/// The link after the writes went as `outcomes` say, one after the other.
pub open spec fn settle(l: Link, outcomes: Seq<WriteOutcome>) -> Link
    decreases outcomes.len(),
{
    if outcomes.len() == 0 {
        l
    } else {
        answered(settle(l, outcomes.drop_last()), outcomes.last())
    }
}

/// How many of `outcomes` answer a write that the link asked for.
pub open spec fn writes(l: Link, outcomes: Seq<WriteOutcome>) -> nat
    decreases outcomes.len(),
{
    if outcomes.len() == 0 {
        0
    } else {
        writes(l, outcomes.drop_last()) + if must_write(settle(l, outcomes.drop_last())) {
            1nat
        } else {
            0nat
        }
    }
}

/// How many of the writes that the link asked for got a report through.
pub open spec fn deliveries(l: Link, outcomes: Seq<WriteOutcome>) -> nat
    decreases outcomes.len(),
{
    if outcomes.len() == 0 {
        0
    } else {
        deliveries(l, outcomes.drop_last()) + if must_write(settle(l, outcomes.drop_last()))
            && outcomes.last() == WriteOutcome::Sent {
            1nat
        } else {
            0nat
        }
    }
}

/// Decides when a report goes out, and remembers the last that did.
pub struct Assembler {
    last_sent: Report,
    pending: Option<Report>,
    retries_left: u32,
    max_retries: u32,
}

impl Assembler {
    pub closed spec fn view(&self) -> Link {
        Link {
            last_sent: self.last_sent@,
            pending: match self.pending {
                Some(report) => Some(report@),
                None => None,
            },
            retries_left: self.retries_left,
            max_retries: self.max_retries,
        }
    }

    /// An assembler for a host that has seen no key down. A busy
    /// transport is tried again up to `max_retries` times per report.
    pub fn new(max_retries: u32) -> (assembler: Assembler)
        ensures
            assembler@ == fresh_link(max_retries),
    {
        Assembler { last_sent: Report::empty(), pending: None, retries_left: 0, max_retries }
    }

    /// Offers a report. Returns whether it is to be written: that is,
    /// whether it differs from the report that went out last.
    pub fn maybe_send(&mut self, report: Report) -> (transmit: bool)
        ensures
            final(self)@ == offered(old(self)@, report@),
            transmit == must_write(final(self)@),
            transmit == (report@ != old(self)@.last_sent),
    {
        if report.same_as(&self.last_sent) {
            self.pending = None;
            false
        } else {
            self.pending = Some(report);
            self.retries_left = self.max_retries;
            true
        }
    }

    /// The report to write, if one is to go out.
    pub fn pending(&self) -> (report: Option<Report>)
        ensures
            match report {
                Some(r) => self@.pending == Some(r@),
                None => self@.pending is None,
            },
    {
        self.pending
    }

    /// Takes in how the write went. Returns whether to write the same
    /// report again.
    pub fn written(&mut self, outcome: WriteOutcome) -> (again: bool)
        ensures
            final(self)@ == answered(old(self)@, outcome),
            again == must_write(final(self)@),
    {
        match self.pending {
            None => false,
            Some(report) => match outcome {
                WriteOutcome::Sent => {
                    self.last_sent = report;
                    self.pending = None;
                    false
                },
                WriteOutcome::Busy => {
                    if self.retries_left > 0 {
                        self.retries_left = self.retries_left - 1;
                        true
                    } else {
                        self.pending = None;
                        false
                    }
                },
                WriteOutcome::Failed => {
                    self.pending = None;
                    false
                },
            },
        }
    }
}

/// How a round of writes for one report can go: while the report is to
/// go out nothing has been delivered and every write used up one retry;
/// when it no longer is, at most one write delivered it, and then it is
/// what went out last.
pub proof fn lemma_round(l: Link, outcomes: Seq<WriteOutcome>)
    ensures
        settle(l, outcomes).max_retries == l.max_retries,
        l.pending is None ==> settle(l, outcomes) == l && writes(l, outcomes) == 0 && deliveries(
            l,
            outcomes,
        ) == 0,
        l.pending is Some && settle(l, outcomes).pending is Some ==> {
            &&& settle(l, outcomes).pending == l.pending
            &&& settle(l, outcomes).last_sent == l.last_sent
            &&& deliveries(l, outcomes) == 0
            &&& writes(l, outcomes) + settle(l, outcomes).retries_left == l.retries_left
        },
        l.pending is Some && settle(l, outcomes).pending is None ==> {
            &&& deliveries(l, outcomes) <= 1
            &&& deliveries(l, outcomes) == 1 ==> Some(settle(l, outcomes).last_sent) == l.pending
            &&& deliveries(l, outcomes) == 0 ==> settle(l, outcomes).last_sent == l.last_sent
            &&& writes(l, outcomes) <= l.retries_left + 1
        },
    decreases outcomes.len(),
{
    if outcomes.len() > 0 {
        lemma_round(l, outcomes.drop_last());
    }
}

/// Idempotence. However the writes go, offering the same report twice
/// gets it through at most once.
pub proof fn lemma_same_report_delivered_once(
    l: Link,
    report: Seq<u8>,
    first: Seq<WriteOutcome>,
    second: Seq<WriteOutcome>,
)
    ensures
        ({
            let after_first = settle(offered(l, report), first);
            deliveries(offered(l, report), first) + deliveries(offered(after_first, report), second)
                <= 1
        }),
        deliveries(offered(l, report), first) == 1 ==> !must_write(
            offered(settle(offered(l, report), first), report),
        ),
{
    let start = offered(l, report);
    let after_first = settle(start, first);
    lemma_round(start, first);
    lemma_round(offered(after_first, report), second);
}

/// A report that equals the one that went out last is not written.
pub proof fn lemma_unchanged_report_not_written(l: Link, outcomes: Seq<WriteOutcome>)
    ensures
        !must_write(offered(l, l.last_sent)),
        writes(offered(l, l.last_sent), outcomes) == 0,
{
    lemma_round(offered(l, l.last_sent), outcomes);
}

/// Bounded retrying. One report is written at most once more than the
/// number of retries allowed.
pub proof fn lemma_writes_bounded(l: Link, report: Seq<u8>, outcomes: Seq<WriteOutcome>)
    ensures
        writes(offered(l, report), outcomes) <= l.max_retries + 1,
{
    lemma_round(offered(l, report), outcomes);
}

} // verus!
