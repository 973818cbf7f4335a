use vstd::prelude::*;
use vstd::arithmetic::div_mod::{lemma_add_mod_noop_right, lemma_small_mod, lemma_mod_pos_bound};

verus! {

/// The worker after `current` in round-robin order among `workers` workers.
pub open spec fn spec_next_slot(current: nat, workers: nat) -> nat {
    (current + 1) % workers
}

/// The worker that the next job goes to after `k` jobs were handed out, starting at
/// worker 0.
pub open spec fn slot_after(workers: nat, k: nat) -> nat
    decreases k,
{
    if k == 0 {
        0
    } else {
        spec_next_slot(slot_after(workers, (k - 1) as nat), workers)
    }
}

/// Advances the round-robin position of a worker queue: job after job goes to worker 0,
/// 1, 2, ... and back to 0 after the last worker.
pub fn next_slot(current: usize, workers: usize) -> (r: usize)
    requires
        current < workers,
    ensures
        r == spec_next_slot(current as nat, workers as nat),
        r < workers,
{
    (current + 1) % workers
}

/// Jobs are scheduled round robin: the `k`-th job (counting from 0) goes to worker
/// `k % workers`.
pub proof fn law_round_robin(workers: nat, k: nat)
    requires
        workers > 0,
    ensures
        slot_after(workers, k) == k % workers,
        slot_after(workers, k) < workers,
    decreases k,
{
    if k == 0 {
        lemma_small_mod(0, workers);
    } else {
        law_round_robin(workers, (k - 1) as nat);
        lemma_add_mod_noop_right(1, (k - 1) as int, workers as int);
        lemma_mod_pos_bound(k as int, workers as int);
    }
}

/// The gathering end of a fork/join assembly line. For every item that enters the line,
/// the result of every internal line is received in line order, and when all lines
/// delivered, the results go to the join function together: one join per item, so with
/// no internal lines the join function still runs once per item, and never without one.
pub struct Gather<L> {
    lines: usize,
    item_started: bool,
    collected: Vec<L>,
}

/// What the gathering end does next.
pub enum GatherNext<L> {
    /// Wait until the next item enters the fork/join line.
    AwaitItem,
    /// Receive the current item's result from the internal line with this index.
    Receive(usize),
    /// Every line delivered for the current item: join these results, the `i`-th from
    /// line `i`.
    Join(Vec<L>),
}

impl<L> Gather<L> {
    /// The number of internal lines.
    pub closed spec fn lines_view(&self) -> nat {
        self.lines as nat
    }

    /// Whether an item entered the line and its results are being gathered.
    pub closed spec fn started_view(&self) -> bool {
        self.item_started
    }

    /// The results received for the item being gathered, in line order.
    pub closed spec fn collected_view(&self) -> Seq<L> {
        self.collected@
    }

    /// Never more results than lines, and none while no item is being gathered.
    pub open spec fn wf(&self) -> bool {
        &&& self.collected_view().len() <= self.lines_view()
        &&& !self.started_view() ==> self.collected_view().len() == 0
    }

    /// A gathering end for `lines` internal lines, waiting for the first item.
    pub fn new(lines: usize) -> (r: Gather<L>)
        ensures
            r.wf(),
            r.lines_view() == lines,
            !r.started_view(),
            r.collected_view() == Seq::<L>::empty(),
    {
        Gather { lines, item_started: false, collected: Vec::new() }
    }

    /// Decides the next step: wait for an item when none is being gathered; otherwise
    /// receive from the first line that has not delivered for it yet, or, when all have,
    /// hand the results to the join function and wait for the next item.
    pub fn next(&mut self) -> (r: GatherNext<L>)
        requires
            old(self).wf(),
        ensures
            final(self).wf(),
            final(self).lines_view() == old(self).lines_view(),
            !old(self).started_view() ==> {
                &&& r is AwaitItem
                &&& !final(self).started_view()
                &&& final(self).collected_view() == old(self).collected_view()
            },
            old(self).started_view() && old(self).collected_view().len() < old(self).lines_view() ==> {
                &&& r matches GatherNext::Receive(line)
                &&& line == old(self).collected_view().len()
                &&& final(self).started_view()
                &&& final(self).collected_view() == old(self).collected_view()
            },
            old(self).started_view() && old(self).collected_view().len() == old(self).lines_view() ==> {
                &&& r matches GatherNext::Join(results)
                &&& results@ == old(self).collected_view()
                &&& !final(self).started_view()
                &&& final(self).collected_view() == Seq::<L>::empty()
            },
    {
        if !self.item_started {
            GatherNext::AwaitItem
        } else if self.collected.len() < self.lines {
            GatherNext::Receive(self.collected.len())
        } else {
            let mut results: Vec<L> = Vec::new();
            std::mem::swap(&mut results, &mut self.collected);
            self.item_started = false;
            GatherNext::Join(results)
        }
    }

    /// An item entered the fork/join line: its results are gathered next.
    pub fn item_arrived(&mut self)
        requires
            old(self).wf(),
            !old(self).started_view(),
        ensures
            final(self).wf(),
            final(self).lines_view() == old(self).lines_view(),
            final(self).started_view(),
            final(self).collected_view() == Seq::<L>::empty(),
    {
        self.item_started = true;
    }

    /// Records the result received from the line that `next` asked for.
    pub fn record(&mut self, result: L)
        requires
            old(self).wf(),
            old(self).started_view(),
            old(self).collected_view().len() < old(self).lines_view(),
        ensures
            final(self).wf(),
            final(self).lines_view() == old(self).lines_view(),
            final(self).started_view(),
            final(self).collected_view() == old(self).collected_view().push(result),
    {
        self.collected.push(result);
    }
}

} // verus!
