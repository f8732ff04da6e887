//! Policy and health accounting of a resident, watcher-maintained index.
use vstd::prelude::*;
use core::time::Duration;
use crate::index::model::IndexStatus;

verus! {

/// `Duration::from_millis`; nothing is stated of the opaque duration it
/// returns.
pub assume_specification[core::time::Duration::from_millis](millis: u64) -> Duration;

/// Runtime policy for a resident watcher-maintained index.
#[derive(Debug, Clone, Copy)]
pub struct LiveIndexOptions {
    /// Coalescing delay after the first filesystem event.
    pub debounce: Duration,
    /// Maximum queued callback messages before forcing a conservative rescan.
    pub event_buffer: usize,
    /// Rebuild existing indexes at startup to close watcher downtime gaps.
    pub rebuild_on_start: bool,
    /// Atomically save the index after every successful event batch.
    pub persist_each_batch: bool,
}

impl Default for LiveIndexOptions {
    /// A 75 ms debounce, a 4096-message buffer, a startup rebuild and no
    /// saving after each batch.
    fn default() -> (options: Self)
        ensures
            options.event_buffer == 4096,
            options.rebuild_on_start,
            !options.persist_each_batch,
    {
        LiveIndexOptions {
            debounce: Duration::from_millis(75),
            event_buffer: 4_096,
            rebuild_on_start: true,
            persist_each_batch: false,
        }
    }
}

impl LiveIndexOptions {
    /// Sets the event coalescing delay.
    pub fn with_debounce(self, debounce: Duration) -> (options: Self)
        ensures
            options == (LiveIndexOptions { debounce, ..self }),
    {
        LiveIndexOptions { debounce, ..self }
    }

    /// Sets the bounded watcher callback queue.
    pub fn with_event_buffer(self, event_buffer: usize) -> (options: Self)
        ensures
            options == (LiveIndexOptions { event_buffer, ..self }),
    {
        LiveIndexOptions { event_buffer, ..self }
    }

    /// Selects whether startup performs a complete freshness rebuild.
    pub fn with_rebuild_on_start(self, enabled: bool) -> (options: Self)
        ensures
            options == (LiveIndexOptions { rebuild_on_start: enabled, ..self }),
    {
        LiveIndexOptions { rebuild_on_start: enabled, ..self }
    }

    /// Selects whether every successful batch is atomically persisted.
    pub fn with_persist_each_batch(self, enabled: bool) -> (options: Self)
        ensures
            options == (LiveIndexOptions { persist_each_batch: enabled, ..self }),
    {
        LiveIndexOptions { persist_each_batch: enabled, ..self }
    }

    /// Allows a trusted existing snapshot to open without a startup rebuild.
    pub fn trust_existing_snapshot(self) -> (options: Self)
        ensures
            options == (LiveIndexOptions { rebuild_on_start: false, ..self }),
    {
        LiveIndexOptions { rebuild_on_start: false, ..self }
    }
}

/// Health and update evidence for a resident index.
#[derive(Debug, Clone, PartialEq, Eq)]
pub struct LiveIndexStatus {
    /// Current immutable query snapshot.
    pub index: IndexStatus,
    /// Successful event batches.
    pub batches: u64,
    /// Files added, replaced, or removed across successful batches.
    pub changed_files: u64,
    /// Conservative full rebuilds caused by structural or overflow evidence.
    pub full_rebuilds: u64,
    /// Last background watcher or persistence failure.
    pub last_error: Option<String>,
    /// Whether RAM contains successful updates not yet persisted.
    pub dirty: bool,
    /// Whether the background update worker is still running.
    pub running: bool,
    /// Monotonic generation incremented after every successful update.
    pub generation: u64,
}

/// The counters a live index keeps across update batches.
#[derive(Debug, Clone, Copy, PartialEq, Eq, Structural)]
pub struct LiveCounters {
    /// Successful event batches.
    pub batches: u64,
    /// Files added, replaced, or removed across successful batches.
    pub changed_files: u64,
    /// Full rebuilds.
    pub full_rebuilds: u64,
    /// Whether successful updates are not yet persisted.
    pub dirty: bool,
    /// Generation, raised after every successful update.
    pub generation: u64,
}

impl LiveCounters {
    /// Counters of a freshly started index.
    pub fn new() -> (counters: Self)
        ensures
            counters == (LiveCounters { batches: 0, changed_files: 0, full_rebuilds: 0, dirty: false, generation: 0 }),
    {
        LiveCounters { batches: 0, changed_files: 0, full_rebuilds: 0, dirty: false, generation: 0 }
    }

    /// Records one successful batch that added, replaced and removed the
    /// given numbers of files: the snapshot becomes dirty, the batch and
    /// change counters advance (wrapping), a full rebuild is counted, and
    /// the generation rises unless it is at its maximum.
    pub fn record_update(&mut self, added: u64, updated: u64, removed: u64, full_rebuild: bool)
        ensures
            final(self).dirty,
            final(self).batches == old(self).batches.wrapping_add(1),
            final(self).changed_files == old(self).changed_files.wrapping_add(
                added.saturating_add(updated).saturating_add(removed)),
            final(self).full_rebuilds == if full_rebuild {
                old(self).full_rebuilds.wrapping_add(1)
            } else {
                old(self).full_rebuilds
            },
            final(self).generation == old(self).generation.saturating_add(1),
            final(self).generation >= old(self).generation,
    {
        self.dirty = true;
        self.batches = self.batches.wrapping_add(1);
        self.changed_files = self.changed_files.wrapping_add(added.saturating_add(updated).saturating_add(removed));
        if full_rebuild {
            self.full_rebuilds = self.full_rebuilds.wrapping_add(1);
        }
        self.generation = self.generation.saturating_add(1);
    }

    /// Records that the snapshot was persisted.
    pub fn record_saved(&mut self)
        ensures
            *final(self) == (LiveCounters { dirty: false, ..*old(self) }),
    {
        self.dirty = false;
    }

    /// The health snapshot of an index with these counters.
    pub fn status(&self, index: IndexStatus, last_error: Option<String>, running: bool) -> (status: LiveIndexStatus)
        ensures
            status == (LiveIndexStatus {
                index,
                batches: self.batches,
                changed_files: self.changed_files,
                full_rebuilds: self.full_rebuilds,
                last_error,
                dirty: self.dirty,
                running,
                generation: self.generation,
            }),
    {
        LiveIndexStatus {
            index,
            batches: self.batches,
            changed_files: self.changed_files,
            full_rebuilds: self.full_rebuilds,
            last_error,
            dirty: self.dirty,
            running,
            generation: self.generation,
        }
    }
}

/// What a watcher plan for one root asks of its batch.
#[derive(Debug, Clone, Copy, PartialEq, Eq)]
pub struct PlanShape {
    /// The plan can only be served by rebuilding every root.
    pub full_rescan: bool,
    /// The plan names no changed and no removed path.
    pub empty: bool,
}

/// One index update that a batch of watcher events applies.
#[derive(Debug, Clone, Copy, PartialEq, Eq)]
pub struct BatchUpdate {
    /// The root whose plan is applied.
    pub root_index: usize,
    /// Whether the update rebuilds every root.
    pub full_rescan: bool,
}

/// The updates for the plans from root `i` on: roots with empty plans are
/// skipped, and a plan that needs a full rescan is the last one applied.
pub open spec fn planned_updates(plans: Seq<PlanShape>, i: int) -> Seq<BatchUpdate>
    decreases plans.len() - i,
{
    if i < 0 || i >= plans.len() {
        Seq::empty()
    } else if plans[i].full_rescan {
        seq![BatchUpdate { root_index: i as usize, full_rescan: true }]
    } else if plans[i].empty {
        planned_updates(plans, i + 1)
    } else {
        seq![BatchUpdate { root_index: i as usize, full_rescan: false }] + planned_updates(plans, i + 1)
    }
}

/// The updates one batch of watcher events applies, given the plan of each
/// root in root order: after lost or overflowed events a single full rescan,
/// else the updates the plans ask for.
pub fn batch_updates(force_rescan: bool, plans: &Vec<PlanShape>) -> (updates: Vec<BatchUpdate>)
    ensures
        force_rescan ==> updates@ == seq![BatchUpdate { root_index: 0, full_rescan: true }],
        !force_rescan ==> updates@ == planned_updates(plans@, 0),
{
    let mut updates: Vec<BatchUpdate> = Vec::new();
    if force_rescan {
        updates.push(BatchUpdate { root_index: 0, full_rescan: true });
        proof {
            assert(updates@ =~= seq![BatchUpdate { root_index: 0, full_rescan: true }]);
        }
        return updates;
    }
    let mut i: usize = 0;
    while i < plans.len()
        invariant
            !force_rescan,
            i <= plans@.len(),
            updates@ + planned_updates(plans@, i as int) == planned_updates(plans@, 0),
        decreases plans@.len() - i,
    {
        let plan = plans[i];
        if plan.full_rescan {
            updates.push(BatchUpdate { root_index: i, full_rescan: true });
            proof {
                assert(updates@ =~= planned_updates(plans@, 0));
            }
            return updates;
        }
        if !plan.empty {
            let ghost before = updates@;
            updates.push(BatchUpdate { root_index: i, full_rescan: false });
            proof {
                assert(before + planned_updates(plans@, i as int) =~= updates@ + planned_updates(plans@, i + 1));
            }
        }
        i = i + 1;
    }
    proof {
        assert(updates@ =~= planned_updates(plans@, 0));
    }
    updates
}

/// What the live worker receives while it collects a batch.
#[derive(Debug, Clone, Copy, PartialEq, Eq)]
pub enum LiveInput {
    /// A watcher event, kept for the batch.
    Event,
    /// The watcher reported lost or invalid events.
    LostEvents,
    /// The index is stopping, or the event channel closed.
    Stop,
    /// The debounce delay ran out.
    Timeout,
}

/// The state of a batch being collected.
#[derive(Debug, Clone, Copy, PartialEq, Eq)]
pub struct BatchCollection {
    /// The batch must rebuild every root.
    pub force_rescan: bool,
    /// The worker stops after applying the batch.
    pub stop_after_batch: bool,
    /// The batch still takes events.
    pub open: bool,
}

/// The batch state after one input: lost events force a full rescan, a
/// stop closes the batch and stops the worker after it, a timeout closes
/// the batch, and an event leaves the state as it is.
pub fn collect_step(state: BatchCollection, input: LiveInput) -> (next: BatchCollection)
    ensures
        next == (match input {
            LiveInput::Event => state,
            LiveInput::LostEvents => BatchCollection { force_rescan: true, ..state },
            LiveInput::Stop => BatchCollection { stop_after_batch: true, open: false, ..state },
            LiveInput::Timeout => BatchCollection { open: false, ..state },
        }),
{
    match input {
        LiveInput::Event => state,
        LiveInput::LostEvents => BatchCollection { force_rescan: true, ..state },
        LiveInput::Stop => BatchCollection { stop_after_batch: true, open: false, ..state },
        LiveInput::Timeout => BatchCollection { open: false, ..state },
    }
}

} // verus!
