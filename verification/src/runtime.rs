//! Bookkeeping of the asynchronous data-task runtime: which tiles are
//! queued or being fetched, so that a tile is never fetched twice at once.
use vstd::prelude::*;

use crate::config::MvtProviderConfig;
use crate::tile::TileId;

verus! {

/// Default maximum of concurrent tile fetch tasks.
pub const DEFAULT_TILE_FETCH_CONCURRENCY: usize = 8;

/// A unit of asynchronous data work submitted from the main thread.
pub enum DataJob {
    /// Resolve the TileJSON endpoint once.
    ProviderInit { config: MvtProviderConfig },
    /// Download, decode and map one MVT tile.
    TileFetch { tile_id: TileId, priority: u64 },
}

/// The tiles currently accepted for fetching and not yet settled.
pub struct InFlightTiles {
    tiles: Vec<TileId>,
}

impl View for InFlightTiles {
    type V = Set<TileId>;

    closed spec fn view(&self) -> Set<TileId> {
        self.tiles@.to_set()
    }
}

impl InFlightTiles {
    /// No tile is listed twice.
    pub closed spec fn wf(&self) -> bool {
        self.tiles@.no_duplicates()
    }

    /// The in-flight set is finite, so its size is what `len` counts.
    pub proof fn lemma_view_finite(&self)
        ensures
            self@.finite(),
    {
        vstd::seq_lib::seq_to_set_is_finite(self.tiles@);
    }

    /// Nothing in flight.
    pub fn new() -> (r: Self)
        ensures
            r.wf(),
            r@ == Set::<TileId>::empty(),
            r@.finite(),
            r@.len() == 0,
    {
        let r = InFlightTiles { tiles: Vec::new() };
        assert(r.tiles@.to_set() =~= Set::<TileId>::empty());
        r
    }

    fn position(&self, tile_id: TileId) -> (r: Option<usize>)
        ensures
            r matches Some(i) ==> i < self.tiles@.len() && self.tiles@[i as int] == tile_id,
            r is None ==> !self.tiles@.contains(tile_id),
    {
        let mut i: usize = 0;
        while i < self.tiles.len()
            invariant
                i <= self.tiles@.len(),
                forall|k: int| 0 <= k < i ==> self.tiles@[k] != tile_id,
            decreases self.tiles@.len() - i,
        {
            if self.tiles[i] == tile_id {
                return Some(i);
            }
            i += 1;
        }
        None
    }

    /// Whether `tile_id` is queued or being fetched.
    pub fn contains(&self, tile_id: TileId) -> (r: bool)
        requires
            self.wf(),
        ensures
            r == self@.contains(tile_id),
    {
        self.position(tile_id).is_some()
    }

    /// How many tiles are in flight.
    pub fn len(&self) -> (r: usize)
        requires
            self.wf(),
        ensures
            r == self@.len(),
    {
        proof {
            self.tiles@.unique_seq_to_set();
        }
        self.tiles.len()
    }

    /// Accepts `tile_id` unless it is already in flight; returns whether it
    /// was accepted.
    pub fn accept(&mut self, tile_id: TileId) -> (r: bool)
        requires
            old(self).wf(),
        ensures
            final(self).wf(),
            r == !old(self)@.contains(tile_id),
            final(self)@ == old(self)@.insert(tile_id),
            final(self)@.finite(),
            final(self)@.len() == old(self)@.len() + if r { 1int } else { 0int },
    {
        proof {
            self.lemma_view_finite();
        }
        if self.position(tile_id).is_some() {
            assert(self@.insert(tile_id) =~= self@);
            return false;
        }
        let ghost before = self.tiles@;
        self.tiles.push(tile_id);
        proof {
            assert forall|a: int, b: int| 0 <= a < b < self.tiles@.len() implies self.tiles@[a] != self.tiles@[b] by {
                if b == before.len() {
                    assert(!before.contains(tile_id));
                    assert(before[a] == self.tiles@[a]);
                }
            }
            assert(self.tiles@.to_set() =~= before.to_set().insert(tile_id)) by {
                before.lemma_push_to_set_commute(tile_id);
            }
        }
        proof {
            self.lemma_view_finite();
        }
        true
    }

    /// Settles `tile_id`: it is no longer in flight.
    pub fn release(&mut self, tile_id: TileId)
        requires
            old(self).wf(),
        ensures
            final(self).wf(),
            final(self)@ == old(self)@.remove(tile_id),
            final(self)@.finite(),
            final(self)@.len() == old(self)@.len() - if old(self)@.contains(tile_id) { 1int } else { 0int },
    {
        proof {
            self.lemma_view_finite();
        }
        match self.position(tile_id) {
            Some(i) => {
                let ghost before = self.tiles@;
                self.tiles.swap_remove(i);
                proof {
                    assert forall|a: int, b: int| 0 <= a < b < self.tiles@.len() implies self.tiles@[a] != self.tiles@[b] by {
                        if b == i {
                            assert(self.tiles@[b] == before[before.len() - 1]);
                        }
                        if a == i {
                            assert(self.tiles@[a] == before[before.len() - 1]);
                        }
                    }
                    assert forall|t: TileId| self.tiles@.contains(t) <==> before.contains(t) && t != tile_id by {
                        if self.tiles@.contains(t) {
                            let k = choose|k: int| 0 <= k < self.tiles@.len() && self.tiles@[k] == t;
                            if k == i {
                                assert(before[before.len() - 1] == t);
                            } else {
                                assert(before[k] == t);
                            }
                        }
                        if before.contains(t) && t != tile_id {
                            let k = choose|k: int| 0 <= k < before.len() && before[k] == t;
                            if k == before.len() - 1 {
                                assert(self.tiles@[i as int] == t);
                            } else {
                                assert(self.tiles@[k] == t);
                            }
                        }
                    }
                    assert(self.tiles@.to_set() =~= before.to_set().remove(tile_id));
                    assert(before.to_set().contains(tile_id)) by {
                        assert(before[i as int] == tile_id);
                    }
                    self.lemma_view_finite();
                }
            },
            None => {
                assert(self@.remove(tile_id) =~= self@);
                proof {
                    self.lemma_view_finite();
                }
            },
        }
    }

    /// Decides whether a job is handed to the worker: a tile fetch is
    /// accepted only when its tile is not in flight already; provider
    /// initialisation always is.
    pub fn submit(&mut self, job: &DataJob) -> (r: bool)
        requires
            old(self).wf(),
        ensures
            final(self).wf(),
            match job {
                DataJob::TileFetch { tile_id, .. } => r == !old(self)@.contains(*tile_id)
                    && final(self)@ == old(self)@.insert(*tile_id)
                    && final(self)@.len() == old(self)@.len() + if r { 1int } else { 0int },
                DataJob::ProviderInit { .. } => r && final(self)@ == old(self)@,
            },
            final(self)@.finite(),
    {
        match job {
            DataJob::TileFetch { tile_id, .. } => self.accept(*tile_id),
            DataJob::ProviderInit { .. } => {
                proof {
                    self.lemma_view_finite();
                }
                true
            },
        }
    }
}

/// What the data worker does with the next job it receives.
pub enum WorkerAction {
    /// Resolve the endpoint of this configuration and keep the provider.
    InitProvider { config: MvtProviderConfig },
    /// Download, decode and map this tile with the provider.
    FetchTile { tile_id: TileId },
    /// Report this tile as failed: no provider has been resolved yet.
    FailNotReady { tile_id: TileId },
}

/// The worker's decision for `job`, given whether a provider is ready:
/// provider initialisation always runs; a tile fetch runs only once a
/// provider is ready and otherwise fails at once (so that the tile is
/// released from the in-flight set when the failure is drained).
pub open spec fn action_of(job: DataJob, provider_ready: bool) -> WorkerAction {
    match job {
        DataJob::ProviderInit { config } => WorkerAction::InitProvider { config },
        DataJob::TileFetch { tile_id, .. } => if provider_ready {
            WorkerAction::FetchTile { tile_id }
        } else {
            WorkerAction::FailNotReady { tile_id }
        },
    }
}

/// Decides what the worker does with `job` (see [`action_of`]).
pub fn worker_action(job: DataJob, provider_ready: bool) -> (r: WorkerAction)
    ensures
        r == action_of(job, provider_ready),
{
    match job {
        DataJob::ProviderInit { config } => WorkerAction::InitProvider { config },
        DataJob::TileFetch { tile_id, .. } => if provider_ready {
            WorkerAction::FetchTile { tile_id }
        } else {
            WorkerAction::FailNotReady { tile_id }
        },
    }
}

/// A message on the worker's job channel.
pub enum WorkerMsg {
    Job(DataJob),
    Shutdown,
}

/// What the worker loop keeps between messages: whether a provider has been
/// resolved.
pub struct WorkerState {
    pub provider_ready: bool,
}

impl WorkerState {
    /// No provider yet.
    pub fn new() -> (r: Self)
        ensures
            !r.provider_ready,
    {
        WorkerState { provider_ready: false }
    }

    /// The worker's step on `msg`: `None` on shutdown (the loop stops and
    /// handles nothing after it), otherwise exactly one action for the job.
    pub fn next_action(&self, msg: WorkerMsg) -> (r: Option<WorkerAction>)
        ensures
            match msg {
                WorkerMsg::Shutdown => r is None,
                WorkerMsg::Job(job) => r == Some(action_of(job, self.provider_ready)),
            },
    {
        match msg {
            WorkerMsg::Shutdown => None,
            WorkerMsg::Job(job) => Some(worker_action(job, self.provider_ready)),
        }
    }

    /// Records the outcome of a provider resolution: once one succeeded, a
    /// provider stays ready.
    pub fn provider_resolved(&mut self, ok: bool)
        ensures
            final(self).provider_ready == (old(self).provider_ready || ok),
    {
        if ok {
            self.provider_ready = true;
        }
    }
}

/// Whether `msg` is a provider initialisation job.
pub open spec fn is_provider_init(msg: WorkerMsg) -> bool {
    msg matches WorkerMsg::Job(DataJob::ProviderInit { .. })
}

/// The worker state's readiness after the first `i` messages, where
/// `init_ok[j]` is the outcome of the resolution that message `j` started
/// when it is a provider initialisation.
pub open spec fn ready_after(msgs: Seq<WorkerMsg>, init_ok: Seq<bool>, i: nat) -> bool
    decreases i,
{
    if i == 0 {
        false
    } else {
        let prev = ready_after(msgs, init_ok, (i - 1) as nat);
        if is_provider_init(msgs[i - 1]) {
            prev || init_ok[i - 1]
        } else {
            prev
        }
    }
}

/// Over a run of messages, the worker fails a tile job with "provider not
/// ready" exactly when no provider initialisation before it succeeded, and
/// fetches it otherwise; a provider initialisation always starts a
/// resolution.
pub proof fn lemma_worker_fails_tiles_until_ready(msgs: Seq<WorkerMsg>, init_ok: Seq<bool>, i: nat)
    requires
        i < msgs.len(),
        init_ok.len() == msgs.len(),
    ensures
        ready_after(msgs, init_ok, i) <==> exists|j: int| 0 <= j < i && is_provider_init(#[trigger] msgs[j]) && init_ok[j],
        match msgs[i as int] {
            WorkerMsg::Job(job) => match job {
                DataJob::TileFetch { tile_id, .. } => action_of(job, ready_after(msgs, init_ok, i)) == if exists|j: int|
                    0 <= j < i && is_provider_init(#[trigger] msgs[j]) && init_ok[j] {
                    WorkerAction::FetchTile { tile_id }
                } else {
                    WorkerAction::FailNotReady { tile_id }
                },
                DataJob::ProviderInit { config } => action_of(job, ready_after(msgs, init_ok, i))
                    == (WorkerAction::InitProvider { config }),
            },
            WorkerMsg::Shutdown => true,
        },
    decreases i,
{
    lemma_ready_after_iff(msgs, init_ok, i);
}

proof fn lemma_ready_after_iff(msgs: Seq<WorkerMsg>, init_ok: Seq<bool>, i: nat)
    requires
        i <= msgs.len(),
        init_ok.len() == msgs.len(),
    ensures
        ready_after(msgs, init_ok, i) <==> exists|j: int| 0 <= j < i && is_provider_init(#[trigger] msgs[j]) && init_ok[j],
    decreases i,
{
    if i > 0 {
        lemma_ready_after_iff(msgs, init_ok, (i - 1) as nat);
        if exists|j: int| 0 <= j < i && is_provider_init(#[trigger] msgs[j]) && init_ok[j] {
            let j = choose|j: int| 0 <= j < i && is_provider_init(#[trigger] msgs[j]) && init_ok[j];
            if j < i - 1 {
                assert(exists|j2: int| 0 <= j2 < i - 1 && is_provider_init(#[trigger] msgs[j2]) && init_ok[j2]);
            }
        }
        if ready_after(msgs, init_ok, (i - 1) as nat) {
            let j = choose|j: int| 0 <= j < i - 1 && is_provider_init(#[trigger] msgs[j]) && init_ok[j];
            assert(0 <= j < i && is_provider_init(msgs[j]) && init_ok[j]);
        }
        if is_provider_init(msgs[i - 1]) && init_ok[i - 1] {
            assert(is_provider_init(msgs[i - 1]) && init_ok[i - 1]);
        }
    }
}

impl InFlightTiles {
    /// Settles every tile of `tiles`, as draining a batch of results does:
    /// they are no longer in flight, and the count drops by the number of
    /// them that were.
    pub fn release_all(&mut self, tiles: &[TileId])
        requires
            old(self).wf(),
        ensures
            final(self).wf(),
            final(self)@ == old(self)@.difference(tiles@.to_set()),
            final(self)@.finite(),
            final(self)@.len() == old(self)@.len() - old(self)@.intersect(tiles@.to_set()).len(),
    {
        let ghost start = self@;
        let mut i: usize = 0;
        proof {
            self.lemma_view_finite();
        }
        while i < tiles.len()
            invariant
                self.wf(),
                i <= tiles@.len(),
                self@ == start.difference(tiles@.take(i as int).to_set()),
            decreases tiles@.len() - i,
        {
            self.release(tiles[i]);
            proof {
                assert(tiles@.take(i + 1) =~= tiles@.take(i as int).push(tiles@[i as int]));
                tiles@.take(i as int).lemma_push_to_set_commute(tiles@[i as int]);
                assert(self@ =~= start.difference(tiles@.take(i + 1).to_set()));
            }
            i += 1;
        }
        proof {
            assert(tiles@.take(tiles@.len() as int) =~= tiles@);
            self.lemma_view_finite();
            vstd::seq_lib::seq_to_set_is_finite(tiles@);
            vstd::set_lib::lemma_set_difference_len(start, tiles@.to_set());
        }
    }
}

/// Draining a batch of distinct results for tiles in flight settles exactly
/// those tiles: none of them stays in flight, the others do, and the count
/// drops by the size of the batch.
pub proof fn lemma_drain_settles_batch(s: &InFlightTiles, batch: Seq<TileId>)
    requires
        batch.no_duplicates(),
        forall|k: int| 0 <= k < batch.len() ==> s@.contains(#[trigger] batch[k]),
    ensures
        forall|t: TileId| #[trigger] s@.difference(batch.to_set()).contains(t) <==> s@.contains(t) && !batch.contains(t),
        s@.intersect(batch.to_set()).len() == batch.len(),
{
    s.lemma_view_finite();
    assert(s@.intersect(batch.to_set()) =~= batch.to_set());
    batch.unique_seq_to_set();
}

/// Accepting a tile twice in a row queues it once: after `accept(t)` the
/// in-flight set is `s@.insert(t)`, which holds `t`, so a second `accept(t)`
/// is refused and leaves it unchanged; the count grows by at most one.
pub proof fn lemma_accept_twice_queues_once(s: &InFlightTiles, t: TileId)
    ensures
        s@.insert(t).contains(t),
        s@.insert(t).insert(t) == s@.insert(t),
        s@.insert(t).len() == s@.len() + if s@.contains(t) { 0int } else { 1int },
{
    s.lemma_view_finite();
    assert(s@.insert(t).insert(t) =~= s@.insert(t));
    if s@.contains(t) {
        assert(s@.insert(t) =~= s@);
    }
}

/// Releasing a finished tile lets the same tile be accepted again: after
/// `release(t)` the set no longer holds `t`, so the next `accept(t)` is taken
/// and restores the count; the other in-flight tiles are as they were.
pub proof fn lemma_release_then_accept(s: &InFlightTiles, t: TileId)
    ensures
        !s@.remove(t).contains(t),
        s@.remove(t).insert(t) == s@.insert(t),
        s@.remove(t).insert(t).len() == s@.len() + if s@.contains(t) { 0int } else { 1int },
{
    s.lemma_view_finite();
    assert(s@.remove(t).insert(t) =~= s@.insert(t));
    if s@.contains(t) {
        assert(s@.insert(t) =~= s@);
    }
}

} // verus!
