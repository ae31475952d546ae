//! Which tiles to schedule next: around the viewport, ahead of the
//! playhead, and at the start of the file.
use vstd::prelude::*;
use crate::lod::{
    lod_config, spec_hop_size, spec_tile_count, spec_tile_span, spec_tiles_for_columns,
    tile_count_for_samples, valid_lod, TILE_COLS,
};
use crate::scheduler::LayerKind;
use crate::tile_store::TileKey;

verus! {

/// Most tiles one prefetch pass schedules.
pub const MAX_PREFETCH: usize = 30;

/// Most tiles one pass over the visible range schedules.
pub const MAX_VISIBLE_SCHEDULE: usize = 20;

/// The integers `lo, lo + 1, ..., hi - 1` (empty when `hi <= lo`).
pub open spec fn int_range(lo: int, hi: int) -> Seq<usize> {
    Seq::new(if hi > lo { (hi - lo) as nat } else { 0 }, |i: int| (lo + i) as usize)
}

/// Tile of level `lod` that holds sample `sample`.
pub open spec fn spec_tile_of_sample(sample: int, lod: int) -> int {
    sample / spec_hop_size(lod) / (TILE_COLS as int)
}

/// Number of tiles taken from `center` onwards (up to `ahead_end`, capped).
pub open spec fn ahead_len(center: int, ahead_end: int, cap: int) -> int {
    if center <= ahead_end {
        if ahead_end - center + 1 < cap {
            ahead_end - center + 1
        } else {
            cap
        }
    } else {
        0
    }
}

/// Prefetch order: tiles `center..=ahead_end`, then tiles `0..=initial_end`
/// not already listed, in increasing order, `cap` tiles at most.
pub open spec fn spec_prefetch_order(center: int, ahead_end: int, initial_end: int, cap: int) -> Seq<
    usize,
> {
    let n1 = ahead_len(center, ahead_end, cap);
    let first = int_range(center, center + n1);
    let lower_end = if initial_end + 1 < center {
        initial_end + 1
    } else {
        center
    };
    let rest = int_range(0, lower_end) + int_range(center + n1, initial_end + 1);
    let room = cap - n1;
    first + rest.take(if rest.len() < room { rest.len() as int } else { room })
}

/// Tiles to prefetch at level `lod` for a file of `total_samples` samples:
/// from the tile of `center_sample` to the tile of `ahead_sample`, then the
/// tiles up to that of `initial_sample` (the start of the file), within the
/// file and `MAX_PREFETCH` tiles at most. A file with no tile gives none.
pub open spec fn spec_plan_prefetch(
    lod: int,
    total_samples: int,
    center_sample: int,
    ahead_sample: int,
    initial_sample: int,
) -> Seq<usize> {
    let max_tiles = spec_tile_count(total_samples, lod);
    if max_tiles == 0 {
        Seq::empty()
    } else {
        let ahead = spec_tile_of_sample(ahead_sample, lod);
        let initial = spec_tile_of_sample(initial_sample, lod);
        spec_prefetch_order(
            spec_tile_of_sample(center_sample, lod),
            if ahead < max_tiles - 1 { ahead } else { max_tiles - 1 },
            if initial < max_tiles - 1 { initial } else { max_tiles - 1 },
            MAX_PREFETCH as int,
        )
    }
}

/// Tile of level `lod` that holds sample `sample`.
pub fn tile_of_sample(sample: usize, lod: u8) -> (r: usize)
    requires
        valid_lod(lod),
    ensures
        r == spec_tile_of_sample(sample as int, lod as int),
{
    let hop = lod_config(lod).hop_size;
    sample / hop / TILE_COLS
}

/// Appends `lo..hi` to `v`, stopping once `v` holds `cap` tiles.
fn push_range_capped(v: &mut Vec<usize>, lo: usize, hi: usize, cap: usize)
    requires
        old(v)@.len() <= cap,
    ensures
        final(v)@ == old(v)@ + int_range(lo as int, hi as int).take(
            if int_range(lo as int, hi as int).len() < cap - old(v)@.len() {
                int_range(lo as int, hi as int).len() as int
            } else {
                cap - old(v)@.len()
            },
        ),
{
    let ghost r = int_range(lo as int, hi as int);
    let ghost base = old(v)@;
    let mut t: usize = lo;
    while t < hi && v.len() < cap
        invariant
            lo <= t,
            t <= hi || t == lo,
            base.len() <= v@.len() <= cap,
            v@ == base + r.take(t - lo),
            t - lo == v@.len() - base.len(),
            r == int_range(lo as int, hi as int),
        decreases hi - t,
    {
        proof {
            assert(r.take(t - lo + 1) =~= r.take(t - lo).push(t));
        }
        v.push(t);
        t = t + 1;
    }
    proof {
        let want = if r.len() < cap - base.len() {
            r.len() as int
        } else {
            cap - base.len()
        };
        if lo >= hi {
            assert(r.len() == 0);
            assert(r.take(0) =~= r.take(want));
        } else {
            assert(r.len() == hi - lo);
            assert(t - lo == want);
        }
    }
}

proof fn lemma_take_concat(a: Seq<usize>, b: Seq<usize>, room: int)
    requires
        room >= 0,
    ensures
        ({
            let ta = if a.len() < room {
                a.len() as int
            } else {
                room
            };
            let tb = if b.len() < room - ta {
                b.len() as int
            } else {
                room - ta
            };
            let want = if (a + b).len() < room {
                (a + b).len() as int
            } else {
                room
            };
            (a + b).take(want) == a.take(ta) + b.take(tb)
        }),
{
    let ta = if a.len() < room {
        a.len() as int
    } else {
        room
    };
    let tb = if b.len() < room - ta {
        b.len() as int
    } else {
        room - ta
    };
    let want = if (a + b).len() < room {
        (a + b).len() as int
    } else {
        room
    };
    assert((a + b).take(want) =~= a.take(ta) + b.take(tb));
}

/// Prefetch order over tile indices: `center..=ahead_end`, then the tiles
/// of `0..=initial_end` not yet listed, `cap` tiles at most.
pub fn prefetch_order(center: usize, ahead_end: usize, initial_end: usize, cap: usize) -> (r: Vec<
    usize,
>)
    requires
        ahead_end < usize::MAX,
        initial_end < usize::MAX,
    ensures
        r@ == spec_prefetch_order(center as int, ahead_end as int, initial_end as int, cap as int),
{
    let mut tiles: Vec<usize> = Vec::new();
    let ghost n1 = ahead_len(center as int, ahead_end as int, cap as int);
    if center <= ahead_end {
        push_range_capped(&mut tiles, center, ahead_end + 1, cap);
    }
    proof {
        assert(tiles@ =~= int_range(center as int, center + n1));
    }
    let first_len = tiles.len();
    let lower_end = if initial_end + 1 < center {
        initial_end + 1
    } else {
        center
    };
    push_range_capped(&mut tiles, 0, lower_end, cap);
    let ghost mid = tiles@;
    if first_len <= initial_end && center <= initial_end - first_len {
        push_range_capped(&mut tiles, center + first_len, initial_end + 1, cap);
    } else {
        proof {
            let b = int_range(center + n1, initial_end + 1);
            assert(b.len() == 0);
            assert(tiles@ =~= mid + b.take(0));
        }
    }
    proof {
        let a = int_range(0, lower_end as int);
        let b = int_range(center + n1, initial_end + 1);
        lemma_take_concat(a, b, cap - n1);
        assert(tiles@ =~= int_range(center as int, center + n1) + (a + b).take(
            if (a + b).len() < cap - n1 {
                (a + b).len() as int
            } else {
                cap - n1
            },
        ));
    }
    tiles
}

/// Tiles to prefetch at level `lod` for a file of `total_samples` samples:
/// from the tile of `center_sample` up to that of `ahead_sample`, then from
/// the first tile up to that of `initial_sample`, skipping tiles already
/// listed, all within the file and `MAX_PREFETCH` tiles at most.
pub fn plan_prefetch(
    lod: u8,
    total_samples: usize,
    center_sample: usize,
    ahead_sample: usize,
    initial_sample: usize,
) -> (r: Vec<usize>)
    requires
        valid_lod(lod),
    ensures
        r@ == spec_plan_prefetch(
            lod as int,
            total_samples as int,
            center_sample as int,
            ahead_sample as int,
            initial_sample as int,
        ),
{
    let max_tiles = tile_count_for_samples(total_samples, lod);
    if max_tiles == 0 {
        let tiles: Vec<usize> = Vec::new();
        proof {
            assert(tiles@ =~= Seq::<usize>::empty());
        }
        return tiles;
    }
    let center = tile_of_sample(center_sample, lod);
    let ahead = tile_of_sample(ahead_sample, lod);
    let ahead_end = if ahead < max_tiles - 1 {
        ahead
    } else {
        max_tiles - 1
    };
    let initial = tile_of_sample(initial_sample, lod);
    let initial_end = if initial < max_tiles - 1 {
        initial
    } else {
        max_tiles - 1
    };
    prefetch_order(center, ahead_end, initial_end, MAX_PREFETCH)
}

/// One tile computation the prefetch asks for.
#[derive(Clone, Copy, Debug, PartialEq, Eq, Structural)]
pub struct PrefetchJob {
    pub layer: LayerKind,
    pub key: TileKey,
}

/// Level-1 tile that holds the start of tile `tile` of level `lod`, when
/// that start is addressable.
pub open spec fn spec_fallback_lod1_tile(lod: int, tile: int) -> Option<usize> {
    if tile * spec_tile_span(lod) <= usize::MAX {
        Some(((tile * spec_tile_span(lod)) / spec_tile_span(1)) as usize)
    } else {
        None
    }
}

/// Jobs for one tile: its magnitude tile; when the level is not 1, the
/// level-1 magnitude tile to fall back on; its flow tile when a flow mode
/// is on; its reassigned tile when reassignment is on and the level is not
/// the coarsest.
pub open spec fn spec_tile_jobs(
    file_idx: usize,
    lod: u8,
    tile: usize,
    flow: bool,
    reassign: bool,
) -> Seq<PrefetchJob> {
    let key = TileKey { file_idx, lod, tile_idx: tile };
    let magnitude = seq![PrefetchJob { layer: LayerKind::Magnitude, key }];
    let fallback = if lod != 1 && spec_fallback_lod1_tile(lod as int, tile as int) is Some {
        seq![
            PrefetchJob {
                layer: LayerKind::Magnitude,
                key: TileKey {
                    file_idx,
                    lod: 1,
                    tile_idx: spec_fallback_lod1_tile(lod as int, tile as int)->0,
                },
            },
        ]
    } else {
        Seq::empty()
    };
    let flows = if flow {
        seq![PrefetchJob { layer: LayerKind::Flow, key }]
    } else {
        Seq::empty()
    };
    let reassigned = if reassign && lod > 0 {
        seq![PrefetchJob { layer: LayerKind::Reassign, key }]
    } else {
        Seq::empty()
    };
    magnitude + fallback + flows + reassigned
}

/// Jobs for each of `tiles` in turn.
pub open spec fn spec_jobs(
    file_idx: usize,
    lod: u8,
    tiles: Seq<usize>,
    flow: bool,
    reassign: bool,
) -> Seq<PrefetchJob>
    decreases tiles.len(),
{
    if tiles.len() == 0 {
        Seq::empty()
    } else {
        spec_jobs(file_idx, lod, tiles.drop_last(), flow, reassign) + spec_tile_jobs(
            file_idx,
            lod,
            tiles.last(),
            flow,
            reassign,
        )
    }
}

/// Jobs for the tiles of a prefetch plan, tile by tile.
pub fn prefetch_jobs(file_idx: usize, lod: u8, tiles: &Vec<usize>, flow: bool, reassign: bool) -> (r:
    Vec<PrefetchJob>)
    requires
        valid_lod(lod),
    ensures
        r@ == spec_jobs(file_idx, lod, tiles@, flow, reassign),
{
    let mut jobs: Vec<PrefetchJob> = Vec::new();
    let hop = lod_config(lod).hop_size;
    let span = TILE_COLS * hop;
    let lod1_span = TILE_COLS * lod_config(1).hop_size;
    let mut i: usize = 0;
    while i < tiles.len()
        invariant
            i <= tiles@.len(),
            span == spec_tile_span(lod as int),
            lod1_span == spec_tile_span(1),
            jobs@ == spec_jobs(file_idx, lod, tiles@.take(i as int), flow, reassign),
        decreases tiles@.len() - i,
    {
        let t = tiles[i];
        let key = TileKey { file_idx, lod, tile_idx: t };
        let ghost before = jobs@;
        jobs.push(PrefetchJob { layer: LayerKind::Magnitude, key });
        if lod != 1 {
            match t.checked_mul(span) {
                Some(start) => {
                    jobs.push(
                        PrefetchJob {
                            layer: LayerKind::Magnitude,
                            key: TileKey { file_idx, lod: 1, tile_idx: start / lod1_span },
                        },
                    );
                },
                None => {},
            }
        }
        if flow {
            jobs.push(PrefetchJob { layer: LayerKind::Flow, key });
        }
        if reassign && lod > 0 {
            jobs.push(PrefetchJob { layer: LayerKind::Reassign, key });
        }
        proof {
            assert(tiles@.take(i + 1).drop_last() =~= tiles@.take(i as int));
            assert(jobs@ =~= before + spec_tile_jobs(file_idx, lod, t, flow, reassign));
        }
        i = i + 1;
    }
    proof {
        assert(tiles@.take(i as int) =~= tiles@);
    }
    jobs
}

/// Tiles at distance `d` from `center` within `0..n_tiles`: the center
/// itself at distance 0 (even past the end), else the tile before it, then
/// the tile after it, each only where it exists.
pub open spec fn ring(center: int, n_tiles: int, d: int) -> Seq<usize> {
    if d == 0 {
        seq![center as usize]
    } else {
        (if center - d >= 0 && center - d < n_tiles {
            seq![(center - d) as usize]
        } else {
            Seq::<usize>::empty()
        }) + (if center + d < n_tiles {
            seq![(center + d) as usize]
        } else {
            Seq::<usize>::empty()
        })
    }
}

/// Visible-range order from distance `d` on, once `count` tiles are listed:
/// whole rings outward from the center until `cap` tiles are listed or a
/// ring is empty.
pub open spec fn order_from(center: int, n_tiles: int, cap: int, d: int, count: int) -> Seq<usize>
    decreases center + n_tiles + 1 - d,
{
    if count >= cap || d > center + n_tiles || d < 0 {
        Seq::empty()
    } else {
        let r = ring(center, n_tiles, d);
        if r.len() == 0 {
            Seq::empty()
        } else {
            r + order_from(center, n_tiles, cap, d + 1, count + r.len())
        }
    }
}

/// Order in which to schedule level-1 tiles of a file with `n_tiles` tiles
/// around `center_tile`: the center, then outward one ring at a time, until
/// `min(MAX_VISIBLE_SCHEDULE, n_tiles)` tiles are listed (a last ring may
/// add one more) or the file has no tile farther out. No tiles give none.
pub open spec fn spec_visible_order(center_tile: int, n_tiles: int) -> Seq<usize> {
    if n_tiles == 0 {
        Seq::empty()
    } else {
        order_from(
            center_tile,
            n_tiles,
            if n_tiles < MAX_VISIBLE_SCHEDULE { n_tiles } else { MAX_VISIBLE_SCHEDULE as int },
            0,
            0,
        )
    }
}

/// Order in which to schedule level-1 tiles around `center_tile` in a file
/// of `n_tiles` tiles.
pub fn visible_tile_order(center_tile: usize, n_tiles: usize) -> (r: Vec<usize>)
    ensures
        r@ == spec_visible_order(center_tile as int, n_tiles as int),
{
    let mut out: Vec<usize> = Vec::new();
    if n_tiles == 0 {
        proof {
            assert(out@ =~= spec_visible_order(center_tile as int, n_tiles as int));
        }
        return out;
    }
    proof {
        assert(out@ + spec_visible_order(center_tile as int, n_tiles as int) =~= spec_visible_order(
            center_tile as int,
            n_tiles as int,
        ));
    }
    let cap = if n_tiles < MAX_VISIBLE_SCHEDULE {
        n_tiles
    } else {
        MAX_VISIBLE_SCHEDULE
    };
    let mut dist: usize = 0;
    while out.len() < cap
        invariant
            out@.len() <= cap + 1,
            cap <= MAX_VISIBLE_SCHEDULE,
            cap == (if n_tiles < MAX_VISIBLE_SCHEDULE { n_tiles } else { MAX_VISIBLE_SCHEDULE }),
            n_tiles > 0,
            dist <= center_tile as int + n_tiles as int + 1,
            dist <= out@.len(),
            out@ + order_from(center_tile as int, n_tiles as int, cap as int, dist as int, out@.len() as int)
                == spec_visible_order(center_tile as int, n_tiles as int),
        ensures
            out@ == spec_visible_order(center_tile as int, n_tiles as int),
        decreases center_tile as int + n_tiles as int + 1 - dist,
    {
        let ghost before = out@;
        let before_len = out.len();
        let ghost r = ring(center_tile as int, n_tiles as int, dist as int);
        if dist > n_tiles && dist - n_tiles > center_tile {
            proof {
                assert(order_from(center_tile as int, n_tiles as int, cap as int, dist as int, out@.len() as int)
                    =~= Seq::<usize>::empty());
                assert(out@ + Seq::<usize>::empty() =~= out@);
            }
            break;
        }
        if dist == 0 {
            out.push(center_tile);
        } else {
            if center_tile >= dist && center_tile - dist < n_tiles {
                out.push(center_tile - dist);
            }
            if dist < n_tiles && center_tile < n_tiles - dist {
                out.push(center_tile + dist);
            }
        }
        proof {
            assert(out@ =~= before + r);
        }
        if out.len() == before_len {
            proof {
                assert(r.len() == 0);
                assert(out@ + Seq::<usize>::empty() =~= out@);
            }
            break;
        }
        proof {
            assert(before + order_from(center_tile as int, n_tiles as int, cap as int, dist as int, before.len() as int)
                =~= out@ + order_from(center_tile as int, n_tiles as int, cap as int, dist + 1, out@.len() as int));
        }
        dist = dist + 1;
    }
    out
}

/// Number of tiles for `total_cols` columns: the count rounded up to whole
/// tiles.
pub fn tile_count_for_columns(total_cols: usize) -> (r: usize)
    ensures
        r == spec_tiles_for_columns(total_cols as int),
{
    total_cols / TILE_COLS + if total_cols % TILE_COLS == 0 {
        0
    } else {
        1
    }
}

} // verus!
