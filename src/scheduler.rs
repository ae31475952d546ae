//! Decisions of the cooperative tile scheduler.
//!
//! A `TileLayer` is one analysis mode's tile store together with its
//! in-flight set and the redraw counter. Scheduling a tile is split into the
//! decisions made here and the work done by the host between them: the host
//! asks `begin` whether to start, yields `yields_before_compute` times, asks
//! the analysis backend for the columns, and hands the outcome to `finish`.
use vstd::prelude::*;
use crate::in_flight::InFlightSet;
use crate::lod::{spec_tile_count, tile_count_for_samples, valid_lod};
use crate::render::PreRendered;
use crate::tile_store::{
    after_insert, has_key, ready_count, touched, unselected, key_of, lemma_filter_keys,
    lemma_insert_keys, lemma_touched_keys, Selector, Tile, TileCache, TileKey,
};

verus! {

/// Whether scheduling `key` starts work: the tile is neither stored nor in
/// flight, and lies within the file's `total_samples` at its level.
pub open spec fn admits(
    stored: Seq<Tile>,
    in_flight: Set<TileKey>,
    key: TileKey,
    total_samples: int,
) -> bool {
    &&& !has_key(stored, key)
    &&& !in_flight.contains(key)
    &&& (key.tile_idx as int) < spec_tile_count(total_samples, key.lod as int)
}

/// In-flight set after scheduling `key`.
pub open spec fn in_flight_after_begin(
    stored: Seq<Tile>,
    in_flight: Set<TileKey>,
    key: TileKey,
    total_samples: int,
) -> Set<TileKey> {
    if admits(stored, in_flight, key, total_samples) {
        in_flight.insert(key)
    } else {
        in_flight
    }
}

/// Deduplication: once `key` has been scheduled, scheduling it again before
/// it ends starts no work, whether or not the first call did.
pub proof fn lemma_schedule_dedup(
    stored: Seq<Tile>,
    in_flight: Set<TileKey>,
    key: TileKey,
    total_samples: int,
)
    ensures
        !admits(
            stored,
            in_flight_after_begin(stored, in_flight, key, total_samples),
            key,
            total_samples,
        ),
{
}

/// The kind of analysis a tile layer holds; it decides how costly a tile is.
#[derive(Clone, Copy, Debug, PartialEq, Eq, Structural)]
pub enum LayerKind {
    /// Plain magnitude tiles computed from samples.
    Magnitude,
    /// Flow (movement or phase) tiles.
    Flow,
    /// Reassigned tiles: three FFTs per frame.
    Reassign,
    /// Level-1 tiles rendered from columns already computed.
    Stored,
    /// Chromagram tiles.
    Chroma,
}

/// Number of yields a task makes before its expensive step: one at once, one
/// more for fine levels (2 and above) of computed layers, one more for
/// reassignment, and three more when the file is not the focused one.
pub open spec fn spec_yields(kind: LayerKind, lod: u8, is_current: bool) -> nat {
    let fine: nat = if lod >= 2 && (kind == LayerKind::Magnitude || kind == LayerKind::Flow
        || kind == LayerKind::Reassign) {
        1
    } else {
        0
    };
    let reassign: nat = if kind == LayerKind::Reassign {
        1
    } else {
        0
    };
    let background: nat = if is_current {
        0
    } else {
        3
    };
    1 + fine + reassign + background
}

/// Number of yields a task makes before its expensive step.
pub fn yields_before_compute(kind: LayerKind, lod: u8, is_current: bool) -> (r: u32)
    ensures
        r == spec_yields(kind, lod, is_current),
{
    let mut n: u32 = 1;
    let computed = match kind {
        LayerKind::Magnitude | LayerKind::Flow | LayerKind::Reassign => true,
        _ => false,
    };
    if lod >= 2 && computed {
        n = n + 1;
    }
    if kind == LayerKind::Reassign {
        n = n + 1;
    }
    if !is_current {
        n = n + 3;
    }
    n
}

/// How a scheduled task ended.
#[derive(Clone, Copy, Debug, PartialEq, Eq, Structural)]
pub enum TaskEnd {
    /// The file changed while the task waited: nothing computed.
    Abandoned,
    /// The backend gave no columns: nothing stored, a later call may retry.
    NoData,
    /// A tile was stored.
    Stored,
}

/// One analysis mode's tiles: the store, the keys in flight, and a counter
/// raised each time a tile becomes ready.
pub struct TileLayer {
    cache: TileCache,
    in_flight: InFlightSet,
    ready_counter: u64,
}

impl TileLayer {
    /// Well-formedness: the store is well formed and no key is both in
    /// flight and stored.
    pub closed spec fn wf(&self) -> bool {
        &&& self.cache.wf()
        &&& forall|k: TileKey| #[trigger] self.in_flight@.contains(k) ==> !has_key(self.cache@, k)
    }

    /// No key is both in flight and stored.
    pub proof fn lemma_pending_not_stored(&self, k: TileKey)
        requires
            self.wf(),
        ensures
            self.pending().contains(k) ==> !has_key(self.stored(), k),
    {
    }

    /// Tiles held, from least to most recently used.
    pub closed spec fn stored(&self) -> Seq<Tile> {
        self.cache@
    }

    /// Keys in flight.
    pub closed spec fn pending(&self) -> Set<TileKey> {
        self.in_flight@
    }

    /// Byte budget of the store.
    pub closed spec fn budget(&self) -> nat {
        self.cache.spec_max_bytes()
    }

    /// Redraw counter.
    pub closed spec fn counter(&self) -> u64 {
        self.ready_counter
    }

    /// An empty layer whose store has a budget of `max_bytes`.
    pub fn with_max_bytes(max_bytes: usize) -> (r: Self)
        ensures
            r.wf(),
            r.stored() == Seq::<Tile>::empty(),
            r.pending() == Set::<TileKey>::empty(),
            r.budget() == max_bytes,
            r.counter() == 0,
    {
        TileLayer {
            cache: TileCache::with_max_bytes(max_bytes),
            in_flight: InFlightSet::new(),
            ready_counter: 0,
        }
    }

    /// An empty layer with the default budget.
    pub fn new() -> (r: Self)
        ensures
            r.wf(),
            r.stored() == Seq::<Tile>::empty(),
            r.pending() == Set::<TileKey>::empty(),
            r.budget() == crate::tile_store::MAX_BYTES,
            r.counter() == 0,
    {
        Self::with_max_bytes(crate::tile_store::MAX_BYTES)
    }

    /// The redraw counter, raised by one (wrapping) for every stored tile.
    pub fn tiles_ready_counter(&self) -> (r: u64)
        ensures
            r == self.counter(),
    {
        self.ready_counter
    }

    /// Whether `key` is in flight.
    pub fn is_in_flight(&self, key: &TileKey) -> (r: bool)
        ensures
            r == self.pending().contains(*key),
    {
        self.in_flight.contains(key)
    }

    /// Whether a tile is stored under `key`. Does not change recency.
    pub fn contains(&self, key: &TileKey) -> (r: bool)
        ensures
            r == has_key(self.stored(), *key),
    {
        self.cache.contains(key)
    }

    /// The tile stored under (`file_idx`, `lod`, `tile_idx`), if any, without
    /// changing recency.
    pub fn get(&self, file_idx: usize, lod: u8, tile_idx: usize) -> (r: Option<&Tile>)
        requires
            self.wf(),
        ensures
            r is Some == has_key(self.stored(), TileKey { file_idx, lod, tile_idx }),
            r is Some ==> self.stored().contains(*r->0)
                && key_of(*r->0) == (TileKey { file_idx, lod, tile_idx }),
    {
        self.cache.get(file_idx, lod, tile_idx)
    }

    /// Looks up a tile and, on a hit, marks it most recently used.
    pub fn borrow(&mut self, file_idx: usize, lod: u8, tile_idx: usize) -> (r: Option<&Tile>)
        requires
            old(self).wf(),
        ensures
            final(self).wf(),
            final(self).stored() == touched(old(self).stored(), TileKey { file_idx, lod, tile_idx }),
            final(self).pending() == old(self).pending(),
            final(self).budget() == old(self).budget(),
            final(self).counter() == old(self).counter(),
            r is Some == has_key(old(self).stored(), TileKey { file_idx, lod, tile_idx }),
            r is Some ==> old(self).stored().contains(*r->0)
                && key_of(*r->0) == (TileKey { file_idx, lod, tile_idx }),
    {
        let ghost k = TileKey { file_idx, lod, tile_idx };
        proof {
            assert forall|x: TileKey| #[trigger] self.in_flight@.contains(x) implies !has_key(
                touched(self.cache@, k),
                x,
            ) by {
                lemma_touched_keys(self.cache@, k, x);
            }
        }
        self.cache.borrow(file_idx, lod, tile_idx)
    }

    /// Number of level-1 tiles `0..n_tiles` of file `file_idx` held.
    pub fn tiles_ready(&self, file_idx: usize, n_tiles: usize) -> (r: usize)
        ensures
            r == ready_count(self.stored(), file_idx, n_tiles as nat),
    {
        self.cache.tiles_ready(file_idx, n_tiles)
    }

    /// Decides whether to start computing `key` for a file of
    /// `total_samples` samples, and if so marks it in flight. A stored, in
    /// flight, or out-of-range tile starts nothing and changes nothing.
    pub fn begin(&mut self, key: TileKey, total_samples: usize) -> (r: bool)
        requires
            old(self).wf(),
            valid_lod(key.lod),
        ensures
            final(self).wf(),
            r == admits(old(self).stored(), old(self).pending(), key, total_samples as int),
            final(self).pending() == in_flight_after_begin(
                old(self).stored(),
                old(self).pending(),
                key,
                total_samples as int,
            ),
            final(self).stored() == old(self).stored(),
            final(self).budget() == old(self).budget(),
            final(self).counter() == old(self).counter(),
            key.tile_idx >= spec_tile_count(total_samples as int, key.lod as int) ==> !r
                && final(self).pending() == old(self).pending(),
    {
        if self.cache.contains(&key) {
            return false;
        }
        if self.in_flight.contains(&key) {
            return false;
        }
        let max_tiles = tile_count_for_samples(total_samples, key.lod);
        if key.tile_idx >= max_tiles {
            return false;
        }
        self.in_flight.insert(key);
        true
    }

    /// Ends the task for `key`. The key leaves the in-flight set. When the
    /// file is still the one the task was started for and the backend gave
    /// a tile, the tile is stored and the redraw counter raised.
    pub fn finish(&mut self, key: TileKey, still_current: bool, rendered: Option<PreRendered>) -> (r:
        TaskEnd)
        requires
            old(self).wf(),
        ensures
            final(self).wf(),
            final(self).pending() == old(self).pending().remove(key),
            final(self).budget() == old(self).budget(),
            r == (if !still_current {
                TaskEnd::Abandoned
            } else if rendered is None {
                TaskEnd::NoData
            } else {
                TaskEnd::Stored
            }),
            r != TaskEnd::Stored ==> final(self).stored() == old(self).stored()
                && final(self).counter() == old(self).counter(),
            r == TaskEnd::Stored ==> final(self).stored() == after_insert(
                old(self).stored(),
                Tile {
                    tile_idx: key.tile_idx,
                    file_idx: key.file_idx,
                    lod: key.lod,
                    rendered: rendered->0,
                },
                old(self).budget(),
            ) && final(self).counter() == old(self).counter().wrapping_add(1),
    {
        self.in_flight.remove(&key);
        if !still_current {
            return TaskEnd::Abandoned;
        }
        match rendered {
            None => TaskEnd::NoData,
            Some(p) => {
                let ghost before = self.cache@;
                self.cache.insert(key.file_idx, key.lod, key.tile_idx, p);
                proof {
                    assert forall|x: TileKey| #[trigger] self.in_flight@.contains(x) implies !has_key(
                        self.cache@,
                        x,
                    ) by {
                        lemma_insert_keys(before, self.cache@.last(), self.cache.spec_max_bytes(), x);
                    }
                }
                self.ready_counter = self.ready_counter.wrapping_add(1);
                TaskEnd::Stored
            },
        }
    }

    /// Stores a tile rendered on the spot (from columns at hand, or a live
    /// tile padded to full width), outside the task flow. A task in flight
    /// for the same key is released; the redraw counter is not raised.
    pub fn store_now(&mut self, key: TileKey, rendered: PreRendered)
        requires
            old(self).wf(),
        ensures
            final(self).wf(),
            final(self).stored() == after_insert(
                old(self).stored(),
                Tile { tile_idx: key.tile_idx, file_idx: key.file_idx, lod: key.lod, rendered },
                old(self).budget(),
            ),
            final(self).pending() == old(self).pending().remove(key),
            final(self).budget() == old(self).budget(),
            final(self).counter() == old(self).counter(),
    {
        self.in_flight.remove(&key);
        let ghost before = self.cache@;
        self.cache.insert(key.file_idx, key.lod, key.tile_idx, rendered);
        proof {
            assert forall|x: TileKey| #[trigger] self.in_flight@.contains(x) implies !has_key(
                self.cache@,
                x,
            ) by {
                lemma_insert_keys(before, self.cache@.last(), self.cache.spec_max_bytes(), x);
            }
        }
    }

    /// Removes the tiles of (`file_idx`, `lod`) farther than `keep_radius`
    /// from `center_tile`.
    pub fn evict_far(&mut self, file_idx: usize, lod: u8, center_tile: usize, keep_radius: usize)
        requires
            old(self).wf(),
        ensures
            final(self).wf(),
            final(self).stored() == unselected(
                old(self).stored(),
                Selector::Far { file_idx, lod, center_tile, keep_radius },
            ),
            final(self).pending() == old(self).pending(),
            final(self).budget() == old(self).budget(),
            final(self).counter() == old(self).counter(),
    {
        self.cache.evict_far_from(file_idx, lod, center_tile, keep_radius);
        proof {
            assert forall|x: TileKey| #[trigger] self.in_flight@.contains(x) implies !has_key(
                self.cache@,
                x,
            ) by {
                lemma_filter_keys(
                    old(self).cache@,
                    Selector::Far { file_idx, lod, center_tile, keep_radius },
                    x,
                );
            }
        }
    }

    /// Drops every tile of file `file_idx` and forgets its keys in flight.
    pub fn clear_file(&mut self, file_idx: usize)
        requires
            old(self).wf(),
        ensures
            final(self).wf(),
            final(self).stored() == unselected(old(self).stored(), Selector::File(file_idx)),
            final(self).pending() == old(self).pending().filter(
                |k: TileKey| k.file_idx != file_idx,
            ),
            final(self).budget() == old(self).budget(),
            final(self).counter() == old(self).counter(),
    {
        self.cache.clear_for_file(file_idx);
        self.in_flight.remove_file(file_idx);
        proof {
            assert forall|x: TileKey| #[trigger] self.in_flight@.contains(x) implies !has_key(
                self.cache@,
                x,
            ) by {
                lemma_filter_keys(old(self).cache@, Selector::File(file_idx), x);
            }
        }
    }

    /// Drops every tile and forgets every key in flight.
    pub fn clear_all(&mut self)
        ensures
            final(self).wf(),
            final(self).stored() == Seq::<Tile>::empty(),
            final(self).pending() == Set::<TileKey>::empty(),
            final(self).budget() == old(self).budget(),
            final(self).counter() == old(self).counter(),
    {
        self.cache.clear_all();
        self.in_flight.clear();
    }
}

} // verus!
