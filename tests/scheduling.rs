use spectro_tiles::chroma::{chroma_tile_key, ChromaLayer, NormMemo};
use spectro_tiles::lod::tile_count_for_samples;
use spectro_tiles::prefetch::{
    plan_prefetch, prefetch_jobs, prefetch_order, tile_count_for_columns, tile_of_sample,
    visible_tile_order, PrefetchJob, MAX_PREFETCH,
};
use spectro_tiles::render::PreRendered;
use spectro_tiles::scheduler::{yields_before_compute, LayerKind, TaskEnd, TileLayer};
use spectro_tiles::tile_store::TileKey;

fn image(bytes: usize) -> PreRendered {
    PreRendered { width: 1, height: 1, pixels: vec![7u8; bytes] }
}

fn key(file_idx: usize, lod: u8, tile_idx: usize) -> TileKey {
    TileKey { file_idx, lod, tile_idx }
}

const TEN_TILES_LOD1: usize = 2048 + (10 * 256 - 1) * 512;

#[test]
fn second_schedule_before_completion_starts_nothing() {
    let mut layer = TileLayer::new();
    let k = key(0, 1, 3);
    let mut backend_calls = 0;
    if layer.begin(k, TEN_TILES_LOD1) {
        backend_calls += 1;
    }
    if layer.begin(k, TEN_TILES_LOD1) {
        backend_calls += 1;
    }
    assert_eq!(backend_calls, 1);
    assert!(layer.is_in_flight(&k));
}

#[test]
fn stored_tile_is_not_scheduled_again() {
    let mut layer = TileLayer::new();
    let k = key(0, 1, 3);
    assert!(layer.begin(k, TEN_TILES_LOD1));
    assert_eq!(layer.finish(k, true, Some(image(16))), TaskEnd::Stored);
    assert!(!layer.is_in_flight(&k));
    assert!(!layer.begin(k, TEN_TILES_LOD1));
    assert!(!layer.is_in_flight(&k));
}

#[test]
fn out_of_range_tile_is_never_in_flight() {
    let mut layer = TileLayer::new();
    assert_eq!(tile_count_for_samples(TEN_TILES_LOD1, 1), 10);
    assert!(!layer.begin(key(0, 1, 10), TEN_TILES_LOD1));
    assert!(!layer.is_in_flight(&key(0, 1, 10)));
    assert!(!layer.begin(key(0, 1, 0), 100));
    assert!(!layer.is_in_flight(&key(0, 1, 0)));
    assert!(layer.begin(key(0, 1, 9), TEN_TILES_LOD1));
}

#[test]
fn finish_outcomes() {
    let mut layer = TileLayer::new();
    let a = key(0, 1, 0);
    let b = key(0, 1, 1);
    let c = key(0, 1, 2);
    assert!(layer.begin(a, TEN_TILES_LOD1));
    assert!(layer.begin(b, TEN_TILES_LOD1));
    assert!(layer.begin(c, TEN_TILES_LOD1));
    assert_eq!(layer.finish(a, false, Some(image(4))), TaskEnd::Abandoned);
    assert_eq!(layer.finish(b, true, None), TaskEnd::NoData);
    assert_eq!(layer.tiles_ready_counter(), 0);
    assert_eq!(layer.finish(c, true, Some(image(4))), TaskEnd::Stored);
    assert_eq!(layer.tiles_ready_counter(), 1);
    assert!(!layer.contains(&a));
    assert!(!layer.contains(&b));
    assert!(layer.contains(&c));
    // No data leaves the key free for a retry.
    assert!(layer.begin(b, TEN_TILES_LOD1));
}

#[test]
fn clear_file_forgets_tiles_and_flights() {
    let mut layer = TileLayer::new();
    assert!(layer.begin(key(0, 1, 0), TEN_TILES_LOD1));
    assert!(layer.begin(key(1, 1, 0), TEN_TILES_LOD1));
    assert_eq!(layer.finish(key(0, 1, 0), true, Some(image(4))), TaskEnd::Stored);
    assert!(layer.begin(key(0, 1, 1), TEN_TILES_LOD1));
    layer.clear_file(0);
    assert!(!layer.contains(&key(0, 1, 0)));
    assert!(!layer.is_in_flight(&key(0, 1, 1)));
    assert!(layer.is_in_flight(&key(1, 1, 0)));
    layer.clear_all();
    assert!(!layer.is_in_flight(&key(1, 1, 0)));
}

#[test]
fn layer_borrow_and_evict_far() {
    let mut layer = TileLayer::with_max_bytes(1000);
    for t in 0..6usize {
        assert!(layer.begin(key(0, 1, t), TEN_TILES_LOD1));
        assert_eq!(layer.finish(key(0, 1, t), true, Some(image(10))), TaskEnd::Stored);
    }
    assert_eq!(layer.tiles_ready(0, 10), 6);
    assert_eq!(layer.borrow(0, 1, 2).map(|t| t.tile_idx), Some(2));
    layer.evict_far(0, 1, 0, 1);
    assert_eq!(layer.tiles_ready(0, 10), 2);
    assert!(layer.get(0, 1, 1).is_some());
    assert!(layer.get(0, 1, 2).is_none());
}

#[test]
fn yield_counts() {
    assert_eq!(yields_before_compute(LayerKind::Magnitude, 1, true), 1);
    assert_eq!(yields_before_compute(LayerKind::Magnitude, 2, true), 2);
    assert_eq!(yields_before_compute(LayerKind::Magnitude, 3, false), 5);
    assert_eq!(yields_before_compute(LayerKind::Flow, 0, false), 4);
    assert_eq!(yields_before_compute(LayerKind::Reassign, 1, true), 2);
    assert_eq!(yields_before_compute(LayerKind::Reassign, 2, false), 6);
    assert_eq!(yields_before_compute(LayerKind::Stored, 1, false), 4);
    assert_eq!(yields_before_compute(LayerKind::Chroma, 3, true), 1);
}

#[test]
fn chroma_normalization_is_reused_until_cleared() {
    let mut chroma: ChromaLayer<(i32, i32)> = ChromaLayer::new();
    let mut computations = 0;
    for tile in [0usize, 1] {
        let k = chroma_tile_key(0, tile);
        assert!(chroma.tiles.begin(k, TEN_TILES_LOD1));
        let norm = match chroma.norms.get(0) {
            Some(n) => *n,
            None => {
                computations += 1;
                chroma.norms.record(0, (40, 25));
                (40, 25)
            }
        };
        assert_eq!(norm, (40, 25));
        assert_eq!(chroma.tiles.finish(k, true, Some(image(8))), TaskEnd::Stored);
    }
    assert_eq!(computations, 1);
    chroma.clear_file(0);
    assert!(chroma.norms.get(0).is_none());
    assert!(!chroma.tiles.contains(&chroma_tile_key(0, 0)));
}

#[test]
fn norm_memo_keeps_files_apart() {
    let mut memo: NormMemo<u32> = NormMemo::new();
    memo.record(1, 10);
    memo.record(2, 20);
    memo.record(1, 11);
    assert_eq!(memo.get(1), Some(&11));
    assert_eq!(memo.get(2), Some(&20));
    memo.forget(1);
    assert_eq!(memo.get(1), None);
    assert_eq!(memo.get(2), Some(&20));
    memo.clear();
    assert_eq!(memo.get(2), None);
}

#[test]
fn chroma_keys_are_level_one() {
    assert_eq!(chroma_tile_key(4, 9), key(4, 1, 9));
}

#[test]
fn tile_of_sample_per_level() {
    assert_eq!(tile_of_sample(131_071, 1), 0);
    assert_eq!(tile_of_sample(131_072, 1), 1);
    assert_eq!(tile_of_sample(524_288, 0), 1);
    assert_eq!(tile_of_sample(8192, 3), 1);
}

#[test]
fn prefetch_ahead_then_start_of_file() {
    // 10 tiles at LOD1; playhead in tile 5, ahead to tile 7, warm start to tile 1.
    let order = plan_prefetch(1, TEN_TILES_LOD1, 5 * 131_072, 7 * 131_072 + 5, 131_072);
    assert_eq!(order, vec![5, 6, 7, 0, 1]);
}

#[test]
fn prefetch_skips_tiles_already_listed() {
    let order = plan_prefetch(1, TEN_TILES_LOD1, 0, 2 * 131_072, 3 * 131_072);
    assert_eq!(order, vec![0, 1, 2, 3]);
}

#[test]
fn prefetch_clamps_to_file_and_cap() {
    let order = plan_prefetch(1, TEN_TILES_LOD1, 8 * 131_072, 100 * 131_072, 0);
    assert_eq!(order, vec![8, 9, 0]);
    let long = prefetch_order(0, 99, 200, MAX_PREFETCH);
    assert_eq!(long.len(), MAX_PREFETCH);
    assert_eq!(long, (0..30).collect::<Vec<usize>>());
    let mixed = prefetch_order(20, 45, 12, MAX_PREFETCH);
    assert_eq!(mixed.len(), 30);
    assert_eq!(&mixed[..26], &(20..46).collect::<Vec<usize>>()[..]);
    assert_eq!(&mixed[26..], &[0, 1, 2, 3]);
}

#[test]
fn prefetch_of_empty_file_is_empty() {
    assert!(plan_prefetch(1, 2047, 0, 1_000_000, 1_000_000).is_empty());
    assert!(plan_prefetch(3, 0, 0, 0, 0).is_empty());
}

#[test]
fn prefetch_past_end_keeps_only_start() {
    let order = plan_prefetch(1, TEN_TILES_LOD1, 50 * 131_072, 60 * 131_072, 131_072);
    assert_eq!(order, vec![0, 1]);
}

#[test]
fn prefetch_jobs_per_tile() {
    let jobs = prefetch_jobs(3, 2, &vec![5, 6], true, true);
    let expect = vec![
        PrefetchJob { layer: LayerKind::Magnitude, key: key(3, 2, 5) },
        PrefetchJob { layer: LayerKind::Magnitude, key: key(3, 1, 1) },
        PrefetchJob { layer: LayerKind::Flow, key: key(3, 2, 5) },
        PrefetchJob { layer: LayerKind::Reassign, key: key(3, 2, 5) },
        PrefetchJob { layer: LayerKind::Magnitude, key: key(3, 2, 6) },
        PrefetchJob { layer: LayerKind::Magnitude, key: key(3, 1, 1) },
        PrefetchJob { layer: LayerKind::Flow, key: key(3, 2, 6) },
        PrefetchJob { layer: LayerKind::Reassign, key: key(3, 2, 6) },
    ];
    assert_eq!(jobs, expect);
    let coarse = prefetch_jobs(0, 0, &vec![3], false, true);
    assert_eq!(
        coarse,
        vec![
            PrefetchJob { layer: LayerKind::Magnitude, key: key(0, 0, 3) },
            PrefetchJob { layer: LayerKind::Magnitude, key: key(0, 1, 12) },
        ]
    );
    let lod1 = prefetch_jobs(0, 1, &vec![4], false, false);
    assert_eq!(lod1, vec![PrefetchJob { layer: LayerKind::Magnitude, key: key(0, 1, 4) }]);
}

#[test]
fn visible_order_grows_outward() {
    assert_eq!(visible_tile_order(5, 100)[..7], [5, 4, 6, 3, 7, 2, 8]);
    assert_eq!(visible_tile_order(5, 100).len(), 20);
    assert_eq!(visible_tile_order(5, 100)[11..], [11, 12, 13, 14, 15, 16, 17, 18, 19]);
    // A last ring of two may pass the cap by one.
    assert_eq!(visible_tile_order(50, 100).len(), 21);
    assert_eq!(visible_tile_order(0, 3), vec![0, 1, 2]);
    assert_eq!(visible_tile_order(1, 3), vec![1, 0, 2]);
    assert_eq!(visible_tile_order(2, 3), vec![2, 1, 0]);
    assert!(visible_tile_order(0, 0).is_empty());
}

#[test]
fn visible_order_center_past_end() {
    assert_eq!(visible_tile_order(5, 3), vec![5]);
    assert_eq!(visible_tile_order(3, 3), vec![3, 2, 1]);
}

#[test]
fn tile_count_for_columns_rounds_up() {
    assert_eq!(tile_count_for_columns(0), 0);
    assert_eq!(tile_count_for_columns(1), 1);
    assert_eq!(tile_count_for_columns(256), 1);
    assert_eq!(tile_count_for_columns(257), 2);
    assert_eq!(tile_count_for_columns(511), 2);
}

#[test]
fn store_now_releases_flight_and_stores() {
    let mut layer = TileLayer::with_max_bytes(100);
    let k = key(2, 1, 0);
    assert!(layer.begin(k, TEN_TILES_LOD1));
    layer.store_now(k, image(30));
    assert!(!layer.is_in_flight(&k));
    assert!(layer.contains(&k));
    assert_eq!(layer.tiles_ready_counter(), 0);
    assert!(!layer.begin(k, TEN_TILES_LOD1));
    // A late finish of the released task replaces the tile.
    assert_eq!(layer.finish(k, true, Some(image(40))), TaskEnd::Stored);
    assert_eq!(layer.get(2, 1, 0).unwrap().rendered.byte_len(), 40);
}

#[test]
fn background_file_finishing_after_clear_is_abandoned() {
    let mut layer = TileLayer::new();
    let k = key(1, 2, 4);
    let total = 2048 + 5000 * 128;
    assert!(layer.begin(k, total));
    layer.clear_file(1);
    assert!(!layer.is_in_flight(&k));
    assert_eq!(layer.finish(k, false, Some(image(8))), TaskEnd::Abandoned);
    assert!(!layer.contains(&k));
}
