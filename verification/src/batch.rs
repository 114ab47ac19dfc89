//! Batching of finished reaches before they are written out.
//!
//! The writer collects results as they arrive and writes them in batches: when
//! a batch is full, when no result arrived for a while, and, one last time,
//! when the run stops.
use vstd::prelude::*;

verus! {

/// Largest number of results the writer holds before writing them.
pub const MAX_WRITE_BATCH: usize = 100;

/// What the writer hears.
pub enum WriterEvent<T> {
    /// A reach's results arrived.
    Results(T),
    /// The run is over: write what is held and stop.
    Shutdown,
    /// Nothing arrived for a while: write what is held.
    Timeout,
    /// Every sender is gone: write what is held and stop.
    Disconnected,
}

/// What the writer must do after an event.
pub struct WriterStep<T> {
    /// A batch to write now, if any.
    pub flush: Option<Vec<T>>,
    /// Whether the writer stops after writing it.
    pub stop: bool,
}

pub struct BatchWriter<T> {
    batch: Vec<T>,
    batch_size: usize,
}

/// The writer's state as a mathematical value.
pub struct BatchState<T> {
    pub batch: Seq<T>,
    pub batch_size: nat,
}

impl<T> View for BatchWriter<T> {
    type V = BatchState<T>;

    closed spec fn view(&self) -> BatchState<T> {
        BatchState { batch: self.batch@, batch_size: self.batch_size as nat }
    }
}

/// The batch size for a run over `total_nodes` reaches.
pub open spec fn spec_batch_size(total_nodes: nat) -> nat {
    if total_nodes < MAX_WRITE_BATCH {
        total_nodes
    } else {
        MAX_WRITE_BATCH as nat
    }
}

/// One step of the writer: the batch held afterwards, the batch written (if
/// any) and whether the writer stops.
pub open spec fn spec_writer_step<T>(held: Seq<T>, batch_size: nat, event: WriterEvent<T>) -> (
    Seq<T>,
    Option<Seq<T>>,
    bool,
) {
    match event {
        WriterEvent::Results(r) => {
            let b = held.push(r);
            if b.len() >= batch_size {
                (Seq::empty(), Some(b), false)
            } else {
                (b, None, false)
            }
        },
        WriterEvent::Timeout => if held.len() > 0 {
            (Seq::empty(), Some(held), false)
        } else {
            (held, None, false)
        },
        _ => if held.len() > 0 {
            (Seq::empty(), Some(held), true)
        } else {
            (held, None, true)
        },
    }
}

/// A flush as a mathematical value.
pub open spec fn flushed<T>(flush: Option<Vec<T>>) -> Option<Seq<T>> {
    match flush {
        Some(v) => Some(v@),
        None => None,
    }
}

impl<T> BatchWriter<T> {
    /// An empty writer that writes once `batch_size` results are held.
    pub fn new(batch_size: usize) -> (w: BatchWriter<T>)
        ensures
            w@.batch == Seq::<T>::empty(),
            w@.batch_size == batch_size,
    {
        BatchWriter { batch: Vec::new(), batch_size }
    }

    /// A writer sized for a run over `total_nodes` reaches: batches of at most
    /// one hundred results, or of all the reaches when there are fewer.
    pub fn for_network(total_nodes: usize) -> (w: BatchWriter<T>)
        ensures
            w@.batch == Seq::<T>::empty(),
            w@.batch_size == spec_batch_size(total_nodes as nat),
    {
        let size = if total_nodes < MAX_WRITE_BATCH {
            total_nodes
        } else {
            MAX_WRITE_BATCH
        };
        BatchWriter::new(size)
    }

    /// Number of results held.
    pub fn held(&self) -> (n: usize)
        ensures
            n == self@.batch.len(),
    {
        self.batch.len()
    }

    /// Takes the held results out, leaving the writer empty.
    fn take_batch(&mut self) -> (b: Vec<T>)
        ensures
            b@ == old(self)@.batch,
            final(self)@.batch == Seq::<T>::empty(),
            final(self)@.batch_size == old(self)@.batch_size,
    {
        let mut taken: Vec<T> = Vec::new();
        std::mem::swap(&mut taken, &mut self.batch);
        taken
    }

    /// Reacts to one event.
    pub fn handle(&mut self, event: WriterEvent<T>) -> (step: WriterStep<T>)
        ensures
            (final(self)@.batch, flushed(step.flush), step.stop) == spec_writer_step(
                old(self)@.batch,
                old(self)@.batch_size,
                event,
            ),
            final(self)@.batch_size == old(self)@.batch_size,
    {
        match event {
            WriterEvent::Results(r) => {
                self.batch.push(r);
                if self.batch.len() >= self.batch_size {
                    let b = self.take_batch();
                    WriterStep { flush: Some(b), stop: false }
                } else {
                    WriterStep { flush: None, stop: false }
                }
            },
            WriterEvent::Timeout => {
                if self.batch.len() > 0 {
                    let b = self.take_batch();
                    WriterStep { flush: Some(b), stop: false }
                } else {
                    WriterStep { flush: None, stop: false }
                }
            },
            WriterEvent::Shutdown | WriterEvent::Disconnected => {
                if self.batch.len() > 0 {
                    let b = self.take_batch();
                    WriterStep { flush: Some(b), stop: true }
                } else {
                    WriterStep { flush: None, stop: true }
                }
            },
        }
    }
}

/// The writer run over `events` from an empty batch, events after a stop
/// ignored: the batch held at the end, the batches written, and whether it stopped.
pub open spec fn spec_writer_run<T>(events: Seq<WriterEvent<T>>, batch_size: nat) -> (
    Seq<T>,
    Seq<Seq<T>>,
    bool,
)
    decreases events.len(),
{
    if events.len() == 0 {
        (Seq::empty(), Seq::empty(), false)
    } else {
        let (held, written, stopped) = spec_writer_run(events.drop_last(), batch_size);
        if stopped {
            (held, written, stopped)
        } else {
            let (h2, f, st) = spec_writer_step(held, batch_size, events.last());
            match f {
                Some(b) => (h2, written.push(b), st),
                None => (h2, written, st),
            }
        }
    }
}

/// Whether `events` holds a shutdown or a disconnection.
pub open spec fn spec_stopped<T>(events: Seq<WriterEvent<T>>) -> bool
    decreases events.len(),
{
    if events.len() == 0 {
        false
    } else {
        spec_stopped(events.drop_last()) || !(events.last() is Results || events.last() is Timeout)
    }
}

/// The results carried by `events` up to the first stop.
pub open spec fn spec_received<T>(events: Seq<WriterEvent<T>>) -> Seq<T>
    decreases events.len(),
{
    if events.len() == 0 {
        Seq::empty()
    } else if spec_stopped(events.drop_last()) {
        spec_received(events.drop_last())
    } else {
        match events.last() {
            WriterEvent::Results(r) => spec_received(events.drop_last()).push(r),
            _ => spec_received(events.drop_last()),
        }
    }
}

/// The batches written, one after the other.
pub open spec fn spec_concat<T>(batches: Seq<Seq<T>>) -> Seq<T>
    decreases batches.len(),
{
    if batches.len() == 0 {
        Seq::empty()
    } else {
        spec_concat(batches.drop_last()) + batches.last()
    }
}

/// The writer stops at the first shutdown or disconnection, whatever the batch size.
proof fn lemma_stop_independent<T>(events: Seq<WriterEvent<T>>, batch_size: nat)
    ensures
        spec_writer_run(events, batch_size).2 == spec_stopped(events),
    decreases events.len(),
{
    if events.len() > 0 {
        lemma_stop_independent(events.drop_last(), batch_size);
    }
}

/// Nothing is lost, repeated or reordered: the batches written, followed by
/// what is still held, are exactly the results received, in order. Every
/// batch written is non-empty and holds at most the batch size (one result
/// when the batch size is zero). A result is written at the latest when its
/// batch fills, on the next timeout, or at the stop: a writer holds nothing
/// after a timeout or a stop, and a running writer holds fewer results than
/// its batch size.
pub proof fn lemma_writer_delivers_in_order<T>(events: Seq<WriterEvent<T>>, batch_size: nat)
    ensures
        ({
            let (held, written, stopped) = spec_writer_run(events, batch_size);
            &&& spec_concat(written) + held == spec_received(events)
            &&& forall|i: int| 0 <= i < written.len() ==> (#[trigger] written[i]).len() > 0
            &&& forall|i: int|
                0 <= i < written.len() ==> (#[trigger] written[i]).len() <= batch_size || written[i].len()
                    == 1
            &&& held.len() == 0 || held.len() < batch_size
            &&& stopped ==> held.len() == 0
            &&& (events.len() > 0 && !(events.last() is Results)) ==> held.len() == 0
            &&& (!stopped && events.len() > 0) ==> held.len() < batch_size || batch_size == 0
                && held.len() == 0
        }),
    decreases events.len(),
{
    if events.len() > 0 {
        let rest = events.drop_last();
        lemma_writer_delivers_in_order(rest, batch_size);
        lemma_stop_independent(rest, batch_size);
        let (held, written, stopped) = spec_writer_run(rest, batch_size);
        if !stopped {
            let (h2, f, st) = spec_writer_step(held, batch_size, events.last());
            match f {
                Some(b) => {
                    assert(spec_concat(written.push(b)) == spec_concat(written) + b) by {
                        assert(written.push(b).drop_last() =~= written);
                    }
                    match events.last() {
                        WriterEvent::Results(r) => {
                            assert(spec_concat(written) + held.push(r) =~= (spec_concat(written)
                                + held).push(r));
                        },
                        _ => {},
                    }
                    assert(spec_concat(written.push(b)) + h2 =~= spec_received(events));
                },
                None => {
                    match events.last() {
                        WriterEvent::Results(r) => {
                            assert(spec_concat(written) + held.push(r) =~= (spec_concat(written)
                                + held).push(r));
                        },
                        _ => {},
                    }
                },
            }
        }
    }
}

} // verus!
