use spectro_tiles::lod::{fallback_tile_span, lod_config, tile_count_for_samples, TILE_COLS};
use spectro_tiles::render::{pad_to_tile_width, PreRendered};
use spectro_tiles::tile_store::{TileCache, TileKey, MAX_BYTES};

fn image(bytes: usize) -> PreRendered {
    PreRendered { width: 1, height: 1, pixels: vec![0u8; bytes] }
}

fn key(file_idx: usize, lod: u8, tile_idx: usize) -> TileKey {
    TileKey { file_idx, lod, tile_idx }
}

#[test]
fn tile_count_zero_samples() {
    for lod in 0..4u8 {
        assert_eq!(tile_count_for_samples(0, lod), 0);
    }
}

#[test]
fn tile_count_one_short_of_a_frame() {
    for lod in 0..4u8 {
        let fft = lod_config(lod).fft_size;
        assert_eq!(tile_count_for_samples(fft - 1, lod), 0);
        assert_eq!(tile_count_for_samples(fft, lod), 1);
    }
}

#[test]
fn tile_count_formula_for_k_hops() {
    for lod in 0..4u8 {
        let c = lod_config(lod);
        for k in [0usize, 1, 254, 255, 256, 511, 512, 1000] {
            let expected = (k + 1 + TILE_COLS - 1) / TILE_COLS;
            assert_eq!(tile_count_for_samples(c.fft_size + k * c.hop_size, lod), expected);
        }
    }
}

#[test]
fn lod1_file_of_511_columns_has_two_tiles() {
    let samples = 2048 + 511 * 512;
    assert_eq!(samples, 263_680);
    assert_eq!(tile_count_for_samples(samples, 1), 2);
}

#[test]
fn lod_table_values() {
    let hops: Vec<usize> = (0..4u8).map(|l| lod_config(l).hop_size).collect();
    assert_eq!(hops, vec![2048, 512, 128, 32]);
    assert!((0..4u8).all(|l| lod_config(l).fft_size == 2048));
}

#[test]
fn fallback_to_same_level_is_identity() {
    for lod in 0..4u8 {
        let hop = lod_config(lod).hop_size;
        for tile in [0usize, 1, 7, 1000] {
            let span = fallback_tile_span(lod, tile, lod);
            assert_eq!(span.tile_idx, tile);
            assert_eq!(span.start_offset, 0);
            assert_eq!(span.end_offset / hop, TILE_COLS);
        }
    }
}

#[test]
fn fallback_from_fine_to_lod1() {
    // LOD2 tile 5 starts at sample 5 * 256 * 128 = 163840, inside LOD1 tile 1.
    let span = fallback_tile_span(2, 5, 1);
    assert_eq!(span.tile_idx, 1);
    assert_eq!(span.start_offset, 32768);
    assert_eq!(span.end_offset, 65536);
    assert_eq!(span.start_offset / 512, 64);
    assert_eq!(span.end_offset / 512, 128);
}

#[test]
fn fallback_from_coarse_to_fine_spans_several_tiles() {
    // LOD0 tile 1 covers samples 524288..1048576; at LOD3 that starts in tile 64.
    let span = fallback_tile_span(0, 1, 3);
    assert_eq!(span.tile_idx, 64);
    assert_eq!(span.start_offset, 0);
    assert_eq!(span.end_offset, 524288);
}

#[test]
fn new_store_is_empty_with_default_budget() {
    let c = TileCache::new();
    assert_eq!(c.len(), 0);
    assert_eq!(c.total_bytes(), 0);
    assert_eq!(c.max_bytes(), MAX_BYTES);
    assert_eq!(MAX_BYTES, 120 * 1024 * 1024);
}

#[test]
fn eviction_drops_oldest_first() {
    let mut c = TileCache::with_max_bytes(100);
    c.insert(0, 1, 0, image(40));
    c.insert(0, 1, 1, image(40));
    c.insert(0, 1, 2, image(40));
    assert!(c.get(0, 1, 0).is_none());
    assert!(c.get(0, 1, 1).is_some());
    assert!(c.get(0, 1, 2).is_some());
    assert_eq!(c.lru_keys(), vec![key(0, 1, 1), key(0, 1, 2)]);
    assert_eq!(c.total_bytes(), 80);
}

#[test]
fn borrow_keeps_recent_tile() {
    let mut c = TileCache::with_max_bytes(100);
    c.insert(0, 1, 0, image(40));
    c.insert(0, 1, 1, image(40));
    let hit = c.borrow(0, 1, 0).map(|t| t.tile_idx);
    assert_eq!(hit, Some(0));
    c.insert(0, 1, 2, image(40));
    assert!(c.get(0, 1, 0).is_some());
    assert!(c.get(0, 1, 1).is_none());
    assert_eq!(c.lru_keys(), vec![key(0, 1, 0), key(0, 1, 2)]);
}

#[test]
fn get_does_not_change_recency() {
    let mut c = TileCache::with_max_bytes(100);
    c.insert(0, 1, 0, image(40));
    c.insert(0, 1, 1, image(40));
    assert!(c.get(0, 1, 0).is_some());
    c.insert(0, 1, 2, image(40));
    assert!(c.get(0, 1, 0).is_none());
}

#[test]
fn borrow_miss_changes_nothing() {
    let mut c = TileCache::with_max_bytes(100);
    c.insert(0, 1, 0, image(10));
    c.insert(0, 1, 1, image(10));
    assert!(c.borrow(3, 1, 0).is_none());
    assert_eq!(c.lru_keys(), vec![key(0, 1, 0), key(0, 1, 1)]);
}

#[test]
fn five_three_megabyte_tiles_under_ten_megabytes() {
    let mb = 1024 * 1024;
    let mut c = TileCache::with_max_bytes(10 * mb);
    for t in 0..5usize {
        c.insert(0, 1, t, image(3 * mb));
        assert!(c.total_bytes() <= 10 * mb);
    }
    assert_eq!(c.lru_keys(), vec![key(0, 1, 2), key(0, 1, 3), key(0, 1, 4)]);
    assert_eq!(c.total_bytes(), 9 * mb);
}

#[test]
fn total_bytes_tracks_contents_and_stays_in_budget() {
    let mut c = TileCache::with_max_bytes(1000);
    let sizes = [100usize, 250, 400, 50, 300, 999, 1, 600];
    for (i, s) in sizes.iter().enumerate() {
        c.insert(i % 3, 1, i, image(*s));
        let _ = c.borrow(i % 3, 1, i / 2);
        let sum: usize = c
            .lru_keys()
            .iter()
            .map(|k| c.get(k.file_idx, k.lod, k.tile_idx).unwrap().rendered.byte_len())
            .sum();
        assert_eq!(sum, c.total_bytes());
        assert!(c.total_bytes() <= 1000);
    }
}

#[test]
fn replacing_a_key_replaces_its_bytes() {
    let mut c = TileCache::with_max_bytes(100);
    c.insert(0, 1, 0, image(30));
    c.insert(0, 1, 1, image(30));
    c.insert(0, 1, 0, image(50));
    assert_eq!(c.len(), 2);
    assert_eq!(c.total_bytes(), 80);
    assert_eq!(c.lru_keys(), vec![key(0, 1, 1), key(0, 1, 0)]);
    assert_eq!(c.get(0, 1, 0).unwrap().rendered.byte_len(), 50);
}

#[test]
fn oversized_tile_empties_store_and_stays() {
    let mut c = TileCache::with_max_bytes(100);
    c.insert(0, 1, 0, image(60));
    c.insert(0, 1, 1, image(150));
    assert_eq!(c.lru_keys(), vec![key(0, 1, 1)]);
    assert_eq!(c.total_bytes(), 150);
}

#[test]
fn evict_far_removes_only_distant_tiles_of_that_file_and_level() {
    let mut c = TileCache::with_max_bytes(10_000);
    for t in 0..10usize {
        c.insert(0, 2, t, image(10));
    }
    c.insert(0, 1, 0, image(10));
    c.insert(1, 2, 0, image(10));
    c.evict_far_from(0, 2, 5, 2);
    let kept: Vec<usize> =
        c.lru_keys().iter().filter(|k| k.file_idx == 0 && k.lod == 2).map(|k| k.tile_idx).collect();
    assert_eq!(kept, vec![3, 4, 5, 6, 7]);
    assert!(c.get(0, 1, 0).is_some());
    assert!(c.get(1, 2, 0).is_some());
    assert_eq!(c.total_bytes(), 70);
}

#[test]
fn clear_for_file_and_clear_all() {
    let mut c = TileCache::with_max_bytes(10_000);
    c.insert(0, 1, 0, image(10));
    c.insert(1, 1, 0, image(20));
    c.insert(0, 2, 3, image(30));
    c.clear_for_file(0);
    assert_eq!(c.lru_keys(), vec![key(1, 1, 0)]);
    assert_eq!(c.total_bytes(), 20);
    c.clear_all();
    assert_eq!(c.len(), 0);
    assert_eq!(c.total_bytes(), 0);
    assert_eq!(c.max_bytes(), 10_000);
}

#[test]
fn tiles_ready_counts_level_one_tiles_in_range() {
    let mut c = TileCache::with_max_bytes(10_000);
    c.insert(0, 1, 0, image(1));
    c.insert(0, 1, 2, image(1));
    c.insert(0, 1, 7, image(1));
    c.insert(0, 2, 1, image(1));
    c.insert(1, 1, 1, image(1));
    assert_eq!(c.tiles_ready(0, 5), 2);
    assert_eq!(c.tiles_ready(0, 8), 3);
    assert_eq!(c.tiles_ready(1, 8), 1);
    assert_eq!(c.tiles_ready(2, 8), 0);
}

#[test]
fn pad_partial_tile_to_full_width() {
    // 2 x 2 image, every byte distinct.
    let pixels: Vec<u8> = (1..=16).collect();
    let padded = pad_to_tile_width(PreRendered { width: 2, height: 2, pixels });
    assert_eq!(padded.width as usize, TILE_COLS);
    assert_eq!(padded.height, 2);
    assert_eq!(padded.pixels.len(), 2 * TILE_COLS * 4);
    assert_eq!(&padded.pixels[0..8], &[1, 2, 3, 4, 5, 6, 7, 8]);
    assert!(padded.pixels[8..1024].iter().all(|&b| b == 0));
    assert_eq!(&padded.pixels[1024..1032], &[9, 10, 11, 12, 13, 14, 15, 16]);
    assert!(padded.pixels[1032..].iter().all(|&b| b == 0));
}

#[test]
fn pad_leaves_empty_and_full_tiles_alone() {
    let empty = pad_to_tile_width(PreRendered { width: 0, height: 0, pixels: Vec::new() });
    assert_eq!((empty.width, empty.height, empty.pixels.len()), (0, 0, 0));
    let full = pad_to_tile_width(PreRendered { width: 256, height: 1, pixels: vec![5u8; 1024] });
    assert_eq!(full.width, 256);
    assert_eq!(full.pixels, vec![5u8; 1024]);
}

#[test]
fn pad_skips_rows_missing_from_source() {
    // Claims 2 rows of width 1 but holds only the first row's bytes.
    let padded = pad_to_tile_width(PreRendered { width: 1, height: 2, pixels: vec![9u8; 4] });
    assert_eq!(&padded.pixels[0..4], &[9, 9, 9, 9]);
    assert!(padded.pixels[4..].iter().all(|&b| b == 0));
}
