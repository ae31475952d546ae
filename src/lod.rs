//! Level-of-detail table and the tile/sample arithmetic built on it.
use vstd::prelude::*;

verus! {

/// Number of spectrogram columns in every tile, at every level.
pub const TILE_COLS: usize = 256;

/// Number of level-of-detail levels.
pub const NUM_LODS: usize = 4;

/// FFT and hop size of one level of detail.
#[derive(Clone, Copy, Debug, PartialEq, Eq, Structural)]
pub struct LodConfig {
    pub fft_size: usize,
    pub hop_size: usize,
}

/// FFT size of level `lod`: the same at every level.
pub open spec fn spec_fft_size(lod: int) -> int {
    2048
}

/// Hop size of level `lod`: each level is four times finer than the one before.
pub open spec fn spec_hop_size(lod: int) -> int {
    if lod == 0 {
        2048
    } else if lod == 1 {
        512
    } else if lod == 2 {
        128
    } else {
        32
    }
}

/// Whether `lod` names a level of the table.
pub open spec fn valid_lod(lod: u8) -> bool {
    (lod as int) < NUM_LODS as int
}

/// Configuration of level `lod`.
pub fn lod_config(lod: u8) -> (r: LodConfig)
    requires
        valid_lod(lod),
    ensures
        r.fft_size == spec_fft_size(lod as int),
        r.hop_size == spec_hop_size(lod as int),
{
    let hop_size: usize = if lod == 0 {
        2048
    } else if lod == 1 {
        512
    } else if lod == 2 {
        128
    } else {
        32
    };
    LodConfig { fft_size: 2048, hop_size }
}

/// Number of STFT columns that fit in `total_samples` samples at level `lod`.
pub open spec fn spec_column_count(total_samples: int, lod: int) -> int {
    if total_samples < spec_fft_size(lod) {
        0
    } else {
        (total_samples - spec_fft_size(lod)) / spec_hop_size(lod) + 1
    }
}

/// Number of `TILE_COLS`-wide tiles needed for `cols` columns (rounded up).
pub open spec fn spec_tiles_for_columns(cols: int) -> int {
    (cols + TILE_COLS - 1) / (TILE_COLS as int)
}

/// Number of tiles at level `lod` for a file of `total_samples` samples.
pub open spec fn spec_tile_count(total_samples: int, lod: int) -> int {
    spec_tiles_for_columns(spec_column_count(total_samples, lod))
}

/// Number of tiles at level `lod` for a file of `total_samples` samples:
/// zero below one FFT frame, else the column count rounded up to whole tiles.
pub fn tile_count_for_samples(total_samples: usize, lod: u8) -> (r: usize)
    requires
        valid_lod(lod),
    ensures
        r == spec_tile_count(total_samples as int, lod as int),
{
    let config = lod_config(lod);
    if total_samples < config.fft_size {
        return 0;
    }
    let total_cols = (total_samples - config.fft_size) / config.hop_size + 1;
    total_cols / TILE_COLS + if total_cols % TILE_COLS == 0 { 0 } else { 1 }
}


/// Tile count at a level, stated for the three shapes of input that matter:
/// no samples gives no tile, one sample short of an FFT frame gives no tile,
/// and `fft_size + k * hop_size` samples give `ceil((k + 1) / TILE_COLS)` tiles.
pub proof fn lemma_tile_count_formula(lod: u8, k: nat)
    requires
        valid_lod(lod),
    ensures
        spec_tile_count(0, lod as int) == 0,
        spec_tile_count(spec_fft_size(lod as int) - 1, lod as int) == 0,
        spec_tile_count(
            spec_fft_size(lod as int) + k * spec_hop_size(lod as int),
            lod as int,
        ) == (k + 1 + TILE_COLS - 1) / (TILE_COLS as int),
{
    let h = spec_hop_size(lod as int);
    assert(h > 0);
    assert((k * h) / h == k) by (nonlinear_arith)
        requires
            h > 0,
    ;
}

/// Where a tile of one level lies inside a tile of another level.
///
/// `tile_idx` is the tile of the other level that holds the start of the
/// time range; `start_offset` and `end_offset` are the bounds of the range
/// in samples from the start of that tile. Dividing them by the other
/// level's hop size gives the sub-column window to draw.
#[derive(Clone, Copy, Debug, PartialEq, Eq, Structural)]
pub struct FallbackSpan {
    pub tile_idx: usize,
    pub start_offset: usize,
    pub end_offset: usize,
}

/// Number of samples that one tile of level `lod` spans.
pub open spec fn spec_tile_span(lod: int) -> int {
    TILE_COLS * spec_hop_size(lod)
}

/// First sample of tile `tile` at level `lod`.
pub open spec fn spec_tile_start(lod: int, tile: int) -> int {
    tile * spec_tile_span(lod)
}

/// The tile of `fallback_lod` covering the start of tile `target_tile` of
/// `target_lod`, and the target's sample range relative to that tile.
pub open spec fn spec_fallback(target_lod: int, target_tile: int, fallback_lod: int) -> (int, int, int) {
    let start = spec_tile_start(target_lod, target_tile);
    let end = start + spec_tile_span(target_lod);
    let fb_tile = start / spec_tile_span(fallback_lod);
    let base = spec_tile_start(fallback_lod, fb_tile);
    (fb_tile, start - base, end - base)
}

/// Whether the sample range of tile `tile` at level `lod` is addressable.
pub open spec fn tile_range_fits(lod: int, tile: int) -> bool {
    (tile + 1) * spec_tile_span(lod) <= usize::MAX
}

/// Maps tile `target_tile` of `target_lod` to the tile of `fallback_lod`
/// that covers its start, with the covered range in samples relative to
/// that fallback tile.
pub fn fallback_tile_span(target_lod: u8, target_tile: usize, fallback_lod: u8) -> (r: FallbackSpan)
    requires
        valid_lod(target_lod),
        valid_lod(fallback_lod),
        tile_range_fits(target_lod as int, target_tile as int),
    ensures
        (r.tile_idx as int, r.start_offset as int, r.end_offset as int)
            == spec_fallback(target_lod as int, target_tile as int, fallback_lod as int),
{
    let target_hop = lod_config(target_lod).hop_size;
    let fb_hop = lod_config(fallback_lod).hop_size;
    let target_span = TILE_COLS * target_hop;
    let fb_span = TILE_COLS * fb_hop;
    assert((target_tile as int + 1) * target_span == target_tile * target_span + target_span)
        by (nonlinear_arith);
    let sample_start = target_tile * target_span;
    let sample_end = sample_start + target_span;
    let fb_tile = sample_start / fb_span;
    assert(fb_tile * fb_span <= sample_start) by (nonlinear_arith)
        requires
            fb_tile == sample_start / fb_span,
            fb_span > 0,
            sample_start >= 0,
    ;
    let base = fb_tile * fb_span;
    FallbackSpan {
        tile_idx: fb_tile,
        start_offset: sample_start - base,
        end_offset: sample_end - base,
    }
}

/// Mapping a tile to its own level is the identity: the same tile, covered
/// from its first column to its last (`0` to `TILE_COLS` columns).
pub proof fn lemma_fallback_same_level(lod: u8, tile: nat)
    requires
        valid_lod(lod),
    ensures
        spec_fallback(lod as int, tile as int, lod as int) == (
            tile as int,
            0int,
            spec_tile_span(lod as int),
        ),
        spec_tile_span(lod as int) / spec_hop_size(lod as int) == TILE_COLS,
{
    let s = spec_tile_span(lod as int);
    assert(s > 0);
    let h = spec_hop_size(lod as int);
    assert((tile * s) / s == tile) by (nonlinear_arith)
        requires
            s > 0,
    ;
    assert((TILE_COLS * h) / h == TILE_COLS as int) by (nonlinear_arith)
        requires
            h > 0,
    ;
}

} // verus!
