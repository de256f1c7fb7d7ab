//! Copies of what crosses to the engine, kept for later inspection.

use vstd::prelude::*;

use crate::matrix::Matrix;
use crate::substrate::{WeightHandle, WeightKind};

verus! {

/// One recorded offload: the masked operand, and the engine's answer where it was kept.
#[derive(Debug)]
pub struct PcieSnapshot<T> {
    pub seq_idx: usize,
    pub layer: u16,
    pub kind: WeightKind,
    pub masked_operand: Matrix<T>,
    pub masked_output: Option<Matrix<T>>,
}

/// A matrix as it is kept: its rows, and their width, which rows alone do not tell where there
/// are none.
pub struct Kept<T> {
    pub rows: Seq<Seq<T>>,
    pub width: nat,
}

/// A matrix as it is kept.
pub open spec fn kept<T>(m: Matrix<T>) -> Kept<T> {
    Kept { rows: m@, width: m.width() }
}

/// What a snapshot holds.
pub struct Snapshot<T> {
    pub seq_idx: nat,
    pub handle: WeightHandle,
    pub operand: Kept<T>,
    pub output: Option<Kept<T>>,
}

/// The contents of an optional matrix.
pub open spec fn contents<T>(m: Option<Matrix<T>>) -> Option<Kept<T>> {
    match m {
        Some(x) => Some(kept(x)),
        None => None,
    }
}

impl<T> View for PcieSnapshot<T> {
    type V = Snapshot<T>;

    open spec fn view(&self) -> Snapshot<T> {
        Snapshot {
            seq_idx: self.seq_idx as nat,
            handle: WeightHandle { layer: self.layer, kind: self.kind },
            operand: kept(self.masked_operand),
            output: contents(self.masked_output),
        }
    }
}

impl<T: Copy> Clone for PcieSnapshot<T> {
    fn clone(&self) -> (r: PcieSnapshot<T>)
        ensures
            r@ == self@,
    {
        PcieSnapshot {
            seq_idx: self.seq_idx,
            layer: self.layer,
            kind: self.kind,
            masked_operand: self.masked_operand.copied(),
            masked_output: match &self.masked_output {
                Some(m) => Some(m.copied()),
                None => None,
            },
        }
    }
}

/// Whether answers are kept, and how many snapshots may be held at a time.
#[derive(Debug, Clone, Copy)]
pub struct SnapshotConfig {
    pub capture_outputs: bool,
    pub max_snapshots: Option<usize>,
}

impl Default for SnapshotConfig {
    fn default() -> (r: SnapshotConfig)
        ensures
            r == (SnapshotConfig { capture_outputs: true, max_snapshots: Some(4096) }),
    {
        SnapshotConfig { capture_outputs: true, max_snapshots: Some(4096) }
    }
}

/// Collects snapshots in the order in which they are recorded.
#[derive(Debug)]
pub struct SnapshotCapture<T> {
    cfg: SnapshotConfig,
    buffer: Vec<PcieSnapshot<T>>,
    next_seq: usize,
    dropped: usize,
}

/// What a collection of snapshots holds.
#[verifier::ext_equal]
pub struct Capture<T> {
    pub cfg: SnapshotConfig,
    pub taken: Seq<Snapshot<T>>,
    pub next_seq: nat,
    pub dropped: nat,
}

impl<T> Capture<T> {
    /// No further snapshot is held.
    pub open spec fn full(self) -> bool {
        self.cfg.max_snapshots matches Some(cap) && self.taken.len() >= cap
    }

    /// Snapshots are numbered in the order of their recording, without gaps, and there are
    /// never more than allowed.
    pub open spec fn consistent(self) -> bool {
        &&& self.taken.len() <= self.next_seq
        &&& forall|i: int|
            0 <= i < self.taken.len() ==> (#[trigger] self.taken[i]).seq_idx == self.next_seq
                - self.taken.len() + i
        &&& self.cfg.max_snapshots matches Some(cap) ==> self.taken.len() <= cap
    }

    /// After one offload: the snapshot is appended under the next number, or counted as
    /// dropped where the collection is full.
    pub open spec fn recorded(
        self,
        handle: WeightHandle,
        operand: Kept<T>,
        output: Option<Kept<T>>,
    ) -> Capture<T> {
        if self.full() {
            Capture { dropped: self.dropped + 1, ..self }
        } else {
            Capture {
                taken: self.taken.push(
                    Snapshot {
                        seq_idx: self.next_seq,
                        handle,
                        operand,
                        output: if self.cfg.capture_outputs {
                            output
                        } else {
                            None
                        },
                    },
                ),
                next_seq: self.next_seq + 1,
                ..self
            }
        }
    }

    /// `count` more offloads can be numbered.
    pub open spec fn has_room(self, count: nat) -> bool {
        &&& self.next_seq + count <= usize::MAX
        &&& self.dropped + count <= usize::MAX
    }
}

/// A collection without snapshots.
pub open spec fn empty_capture<T>(cfg: SnapshotConfig) -> Capture<T> {
    Capture { cfg, taken: Seq::empty(), next_seq: 0, dropped: 0 }
}

/// The contents of a list of snapshots.
pub open spec fn taken_of<T>(s: Seq<PcieSnapshot<T>>) -> Seq<Snapshot<T>> {
    Seq::new(s.len(), |i: int| s[i]@)
}

impl<T> View for SnapshotCapture<T> {
    type V = Capture<T>;

    closed spec fn view(&self) -> Capture<T> {
        Capture {
            cfg: self.cfg,
            taken: taken_of(self.buffer@),
            next_seq: self.next_seq as nat,
            dropped: self.dropped as nat,
        }
    }
}

impl<T> SnapshotCapture<T> {
    #[verifier::type_invariant]
    spec fn numbered(self) -> bool {
        self@.consistent()
    }

    pub fn new(cfg: SnapshotConfig) -> (r: SnapshotCapture<T>)
        ensures
            r@ == empty_capture::<T>(cfg),
    {
        let r = SnapshotCapture { cfg, buffer: Vec::new(), next_seq: 0, dropped: 0 };
        assert(r@ =~= empty_capture::<T>(cfg));
        r
    }

    /// The snapshots that are held, oldest first.
    pub fn snapshots(&self) -> (r: &Vec<PcieSnapshot<T>>)
        ensures
            taken_of(r@) == self@.taken,
            self@.consistent(),
    {
        proof {
            use_type_invariant(self);
        }
        &self.buffer
    }

    /// Hands out the snapshots. The numbering goes on; so does the count of dropped ones.
    pub fn drain(&mut self) -> (r: Vec<PcieSnapshot<T>>)
        ensures
            taken_of(r@) == old(self)@.taken,
            final(self)@ == (Capture { taken: Seq::empty(), ..old(self)@ }),
    {
        let mut out: Vec<PcieSnapshot<T>> = Vec::new();
        let ghost before = self@;
        proof {
            use_type_invariant(&*self);
        }
        assert(taken_of(Seq::<PcieSnapshot<T>>::empty()) =~= Seq::empty());
        std::mem::swap(&mut out, &mut self.buffer);
        assert(self@ =~= Capture { taken: Seq::empty(), ..before });
        out
    }

    /// Drops everything and starts numbering anew.
    pub fn reset(&mut self)
        ensures
            final(self)@ == empty_capture::<T>(old(self)@.cfg),
    {
        let cfg: SnapshotConfig = self.cfg;
        *self = SnapshotCapture::new(cfg);
    }

    /// Whether `count` more offloads can be numbered.
    pub fn has_room(&self, count: usize) -> (r: bool)
        ensures
            r == self@.has_room(count as nat),
    {
        self.next_seq <= usize::MAX - count && self.dropped <= usize::MAX - count
    }

    /// How many offloads were not kept.
    pub fn dropped(&self) -> (r: usize)
        ensures
            r == self@.dropped,
    {
        self.dropped
    }

    pub fn config(&self) -> (r: SnapshotConfig)
        ensures
            r == self@.cfg,
    {
        self.cfg
    }
}

impl<T: Copy> SnapshotCapture<T> {
    /// Records one offload.
    pub fn record(&mut self, handle: WeightHandle, operand: &Matrix<T>, output: Option<&Matrix<T>>)
        requires
            old(self)@.has_room(1),
        ensures
            final(self)@ == old(self)@.recorded(
                handle,
                kept(*operand),
                match output {
                    Some(o) => Some(kept(*o)),
                    None => None,
                },
            ),
    {
        let ghost before = self@;
        proof {
            use_type_invariant(&*self);
        }
        let cfg: SnapshotConfig = self.cfg;
        let mut buffer: Vec<PcieSnapshot<T>> = Vec::new();
        assert(taken_of(Seq::<PcieSnapshot<T>>::empty()) =~= Seq::empty());
        std::mem::swap(&mut buffer, &mut self.buffer);
        let next_seq: usize = self.next_seq;
        let dropped: usize = self.dropped;
        if let Some(cap) = cfg.max_snapshots {
            if buffer.len() >= cap {
                *self = SnapshotCapture { cfg, buffer, next_seq, dropped: dropped + 1 };
                return ;
            }
        }
        let masked_output: Option<Matrix<T>> = if cfg.capture_outputs {
            match output {
                Some(o) => Some(o.copied()),
                None => None,
            }
        } else {
            None
        };
        let snap = PcieSnapshot {
            seq_idx: next_seq,
            layer: handle.layer,
            kind: handle.kind,
            masked_operand: operand.copied(),
            masked_output,
        };
        let ghost old_buffer = buffer@;
        buffer.push(snap);
        proof {
            assert(taken_of(buffer@) =~= taken_of(old_buffer).push(snap@));
        }
        *self = SnapshotCapture { cfg, buffer, next_seq: next_seq + 1, dropped };
    }
}

impl<T> Default for SnapshotCapture<T> {
    fn default() -> (r: SnapshotCapture<T>)
        ensures
            r@ == empty_capture::<T>(
                SnapshotConfig { capture_outputs: true, max_snapshots: Some(4096) },
            ),
    {
        SnapshotCapture::new(SnapshotConfig::default())
    }
}

/// Recording keeps the numbering gapless and the collection within its limit; every offload
/// is either held or counted as dropped.
pub proof fn law_recording_keeps_count<T>(
    c: Capture<T>,
    handle: WeightHandle,
    operand: Kept<T>,
    output: Option<Kept<T>>,
)
    requires
        c.consistent(),
    ensures
        c.recorded(handle, operand, output).consistent(),
        c.recorded(handle, operand, output).next_seq + c.recorded(handle, operand, output).dropped
            == c.next_seq + c.dropped + 1,
{
}

/// Draining between offloads does not disturb the numbering: what is recorded afterwards
/// has the same number as it would have had, unless it would have been dropped.
pub proof fn law_drain_keeps_the_numbering<T>(
    c: Capture<T>,
    handle: WeightHandle,
    operand: Kept<T>,
    output: Option<Kept<T>>,
)
    requires
        c.consistent(),
        !c.full(),
    ensures
        ({
            let drained = Capture { taken: Seq::empty(), ..c };
            &&& drained.consistent()
            &&& drained.recorded(handle, operand, output).taken.last() == c.recorded(
                handle,
                operand,
                output,
            ).taken.last()
            &&& drained.recorded(handle, operand, output).next_seq == c.recorded(
                handle,
                operand,
                output,
            ).next_seq
        }),
{
}

/// One use of a collection.
pub enum Event<T> {
    Record { handle: WeightHandle, operand: Kept<T>, output: Option<Kept<T>> },
    Drain,
}

/// A collection after some events, and what each drain handed out.
pub struct Run<T> {
    pub capture: Capture<T>,
    pub batches: Seq<Seq<Snapshot<T>>>,
}

/// A new collection after these events.
pub open spec fn played<T>(cfg: SnapshotConfig, events: Seq<Event<T>>) -> Run<T>
    decreases events.len(),
{
    if events.len() == 0 {
        Run { capture: empty_capture(cfg), batches: Seq::empty() }
    } else {
        let before = played(cfg, events.drop_last());
        match events.last() {
            Event::Record { handle, operand, output } => Run {
                capture: before.capture.recorded(handle, operand, output),
                ..before
            },
            Event::Drain => Run {
                capture: Capture { taken: Seq::empty(), ..before.capture },
                batches: before.batches.push(before.capture.taken),
            },
        }
    }
}

/// How many of the events are recordings.
pub open spec fn recordings<T>(events: Seq<Event<T>>) -> nat
    decreases events.len(),
{
    if events.len() == 0 {
        0
    } else if events.last() is Record {
        recordings(events.drop_last()) + 1
    } else {
        recordings(events.drop_last())
    }
}

/// All batches, one after the other.
pub open spec fn joined<T>(batches: Seq<Seq<Snapshot<T>>>) -> Seq<Snapshot<T>>
    decreases batches.len(),
{
    if batches.len() == 0 {
        Seq::empty()
    } else {
        joined(batches.drop_last()) + batches.last()
    }
}

/// However recordings and drains follow each other, what was handed out and what is still held
/// are numbered 0, 1, 2, and so on, in the order of recording; every recording is handed out,
/// held or counted as dropped; no batch exceeds the limit; and the settings stay.
pub proof fn law_drained_batches_number_on<T>(cfg: SnapshotConfig, events: Seq<Event<T>>)
    ensures
        ({
            let run = played(cfg, events);
            let all = joined(run.batches) + run.capture.taken;
            &&& run.capture.cfg == cfg
            &&& run.capture.consistent()
            &&& all.len() == run.capture.next_seq
            &&& forall|i: int| 0 <= i < all.len() ==> (#[trigger] all[i]).seq_idx == i
            &&& recordings(events) == all.len() + run.capture.dropped
            &&& forall|b: int|
                0 <= b < run.batches.len() ==> (cfg.max_snapshots matches Some(cap) ==> (
                #[trigger] run.batches[b]).len() <= cap)
        }),
        events.len() > 0 && events.last() is Drain ==> {
            let run = played(cfg, events);
            let before = played(cfg, events.drop_last());
            &&& run.capture.taken.len() == 0
            &&& recordings(events) == joined(run.batches).len() + run.capture.dropped
            &&& run.capture.dropped == before.capture.dropped
            &&& cfg.max_snapshots matches Some(cap) ==> (run.capture.full() <==> cap == 0)
        },
    decreases events.len(),
{
    let run = played(cfg, events);
    let all = joined(run.batches) + run.capture.taken;
    if events.len() > 0 {
        let shorter = events.drop_last();
        law_drained_batches_number_on(cfg, shorter);
        let before = played(cfg, shorter);
        let earlier = joined(before.batches) + before.capture.taken;
        match events.last() {
            Event::Record { handle, operand, output } => {
                if before.capture.full() {
                    assert(all =~= earlier);
                } else {
                    assert(all =~= earlier.push(run.capture.taken.last()));
                }
            },
            Event::Drain => {
                assert(run.batches.drop_last() =~= before.batches);
                assert(all =~= earlier);
            },
        }
    }
}

} // verus!
