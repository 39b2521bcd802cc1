use chunk_stream::chunk::{cell_world_coords, Chunk};
use chunk_stream::config::Config;
use chunk_stream::controller::{center_chunk, floor_div, tick, window_coords};
use chunk_stream::store::TileMap;
use chunk_stream::tile::{classify, TileType};
use noise::{NoiseFn, Perlin};

/// World-to-noise-space scale factor used by the samplers in these tests.
const NOISE_SCALE: f64 = 0.02;

fn small_config() -> Config {
    Config { chunk_size: 4, load_radius: 1, seed: 123123, tile_world_size: 2 }
}

/// Sample the noise field for every cell of the chunk at `coords`, in
/// row-major order, as fixed-point thousandths.
fn sample_chunk(coords: (i64, i64), cfg: &Config) -> Vec<i64> {
    let perlin = Perlin::new(cfg.seed);
    let size = cfg.chunk_size as i64;
    let mut samples = Vec::new();
    for x in 0..cfg.chunk_size {
        for y in 0..cfg.chunk_size {
            let (wx, wy) = cell_world_coords(coords, x, y, cfg);
            let v = perlin.get([wx as f64 * NOISE_SCALE, wy as f64 * NOISE_SCALE]);
            samples.push((v * 1000.0) as i64);
        }
    }
    assert_eq!(samples.len() as i64, size * size);
    samples
}

fn generate(coords: (i64, i64), cfg: &Config) -> Chunk {
    let samples = sample_chunk(coords, cfg);
    Chunk::new(coords, &samples, cfg)
}

#[test]
fn classify_thresholds() {
    assert_eq!(classify(1000), TileType::Grass);
    assert_eq!(classify(501), TileType::Grass);
    assert_eq!(classify(500), TileType::Dirt);
    assert_eq!(classify(1), TileType::Dirt);
    assert_eq!(classify(0), TileType::Water);
    assert_eq!(classify(-1), TileType::Water);
    assert_eq!(classify(-1000), TileType::Water);
}

#[test]
fn generate_is_deterministic() {
    let cfg = Config::standard();
    for coords in [(0i64, 0i64), (3, -2), (-7, 11)] {
        let a = generate(coords, &cfg);
        let b = generate(coords, &cfg);
        assert_eq!(a.tiles.len(), b.tiles.len());
        for (ta, tb) in a.tiles.iter().zip(b.tiles.iter()) {
            assert_eq!(ta, tb);
        }
    }
}

#[test]
fn generate_layout_row_major() {
    let cfg = small_config();
    let coords = (2i64, -3i64);
    let samples = sample_chunk(coords, &cfg);
    let chunk = Chunk::new(coords, &samples, &cfg);
    assert_eq!(chunk.chunk_coords, coords);
    assert_eq!(chunk.tiles.len(), 16);
    assert!(chunk.tile_entities.is_empty());
    for (i, tile) in chunk.tiles.iter().enumerate() {
        assert_eq!(tile.position, ((i / 4) as u32, (i % 4) as u32));
        assert_eq!(tile.tile_type, classify(samples[i]));
    }
}

#[test]
fn world_coords_of_cells() {
    let cfg = Config::standard();
    assert_eq!(cell_world_coords((0, 0), 0, 0, &cfg), (0, 0));
    assert_eq!(cell_world_coords((2, -3), 5, 7, &cfg), (2 * 64 + 5, -3 * 64 + 7));
}

#[test]
fn floor_division_rounds_down() {
    assert_eq!(floor_div(0, 128), 0);
    assert_eq!(floor_div(127, 128), 0);
    assert_eq!(floor_div(128, 128), 1);
    assert_eq!(floor_div(255, 128), 1);
    assert_eq!(floor_div(-1, 128), -1);
    assert_eq!(floor_div(-128, 128), -1);
    assert_eq!(floor_div(-129, 128), -2);
    assert_eq!(floor_div(i64::MIN, 1), i64::MIN);
}

#[test]
fn center_chunk_of_viewpoint() {
    let cfg = Config::standard();
    // One chunk spans 64 tiles of 2 world units each: 128 units.
    assert_eq!(center_chunk((0, 0), &cfg), (0, 0));
    assert_eq!(center_chunk((127, 127), &cfg), (0, 0));
    assert_eq!(center_chunk((128, 0), &cfg), (1, 0));
    assert_eq!(center_chunk((-1, -1), &cfg), (-1, -1));
    assert_eq!(center_chunk((-129, 5), &cfg), (-2, 0));
}

#[test]
fn window_is_chebyshev_square() {
    let w = window_coords((0, 0), 1);
    assert_eq!(w.len(), 9);
    for dx in -1..=1 {
        for dy in -1..=1 {
            assert!(w.contains(&(dx, dy)));
        }
    }
    assert!(!w.contains(&(2, 0)));
    assert!(!w.contains(&(-2, 1)));
    let w0 = window_coords((5, -7), 0);
    assert_eq!(w0, vec![(5, -7)]);
}

#[test]
fn store_lifecycle() {
    let cfg = small_config();
    let mut store = TileMap::new();
    assert!(!store.contains((0, 0)));
    assert!(!store.loaded_or_pending((0, 0)));

    let task = store.begin_load((0, 0));
    assert_eq!(task, 0);
    assert!(store.contains((0, 0)));
    assert!(store.loaded_or_pending((0, 0)));
    assert!(store.get_chunk((0, 0)).is_none());
    assert_eq!(store.len(), 1);

    let chunk = generate((0, 0), &cfg);
    assert!(store.complete_load((0, 0), chunk));
    let got = store.get_chunk((0, 0)).expect("chunk should be ready");
    assert_eq!(got.chunk_coords, (0, 0));
    assert_eq!(got.tiles.len(), 16);

    assert!(store.record_handles((0, 0), vec![10, 11]).is_none());
    let handles = store.evict((0, 0)).expect("entry should exist");
    assert_eq!(handles, vec![10, 11]);
    assert!(!store.contains((0, 0)));
    assert_eq!(store.len(), 0);
}

#[test]
fn stale_completion_is_dropped() {
    let cfg = small_config();
    let mut store = TileMap::new();

    // Completion for a coordinate that was never tracked.
    let chunk = generate((1, 1), &cfg);
    assert!(!store.complete_load((1, 1), chunk));
    assert!(!store.contains((1, 1)));

    // Completion for a coordinate that is already ready.
    store.begin_load((2, 2));
    assert!(store.complete_load((2, 2), generate((2, 2), &cfg)));
    assert!(!store.complete_load((2, 2), generate((2, 2), &cfg)));
    assert!(store.get_chunk((2, 2)).is_some());
}

#[test]
fn evict_untracked_returns_none() {
    let mut store = TileMap::new();
    assert!(store.evict((4, 4)).is_none());
}

#[test]
fn evict_pending_returns_no_handles() {
    let mut store = TileMap::new();
    store.begin_load((1, 2));
    let handles = store.evict((1, 2)).expect("entry should exist");
    assert!(handles.is_empty());
    assert!(!store.contains((1, 2)));
}

#[test]
fn record_handles_after_eviction_is_rejected() {
    let mut store = TileMap::new();
    let rejected = store.record_handles((3, 3), vec![7, 8]);
    assert_eq!(rejected, Some(vec![7, 8]));

    store.begin_load((4, 4));
    let rejected = store.record_handles((4, 4), vec![9]);
    assert_eq!(rejected, Some(vec![9]));
}

#[test]
fn tick_streams_window_around_origin() {
    let cfg = small_config();
    let mut store = TileMap::new();

    // First tick: the whole 3x3 window around the origin is admitted.
    let out = tick(&mut store, (0, 0), Vec::new(), &cfg);
    assert_eq!(out.tasks.len(), 9);
    assert!(out.materialized.is_empty());
    assert!(out.released.is_empty());
    for dx in -1..=1 {
        for dy in -1..=1 {
            assert!(store.contains((dx, dy)));
            assert!(store.get_chunk((dx, dy)).is_none());
        }
    }

    // No duplicate submission: the same viewpoint admits nothing new.
    let out2 = tick(&mut store, (0, 0), Vec::new(), &cfg);
    assert!(out2.tasks.is_empty());

    // Run the "workers": complete every task and harvest the results.
    let completions: Vec<((i64, i64), Chunk)> =
        out.tasks.iter().map(|t| (t.coords, generate(t.coords, &cfg))).collect();
    let out3 = tick(&mut store, (0, 0), completions, &cfg);
    assert!(out3.tasks.is_empty());
    assert_eq!(out3.materialized.len(), 9);
    assert_eq!(store.len(), 9);
    for dx in -1..=1 {
        for dy in -1..=1 {
            assert!(store.get_chunk((dx, dy)).is_some());
        }
    }

    // Materialize: record one handle per ready chunk.
    for (n, &coords) in out3.materialized.iter().enumerate() {
        assert!(store.record_handles(coords, vec![100 + n as u64]).is_none());
    }

    // A converged tick with an unchanged viewpoint is a no-op.
    let quiet = tick(&mut store, (0, 0), Vec::new(), &cfg);
    assert!(quiet.tasks.is_empty());
    assert!(quiet.materialized.is_empty());
    assert!(quiet.released.is_empty());
    assert_eq!(store.len(), 9);

    // Move one chunk width east: one chunk is 4 tiles of 2 units = 8.
    let out4 = tick(&mut store, (8, 0), Vec::new(), &cfg);
    let mut new_coords: Vec<(i64, i64)> = out4.tasks.iter().map(|t| t.coords).collect();
    new_coords.sort();
    assert_eq!(new_coords, vec![(2, -1), (2, 0), (2, 1)]);
    let mut evicted: Vec<(i64, i64)> = out4.released.iter().map(|r| r.0).collect();
    evicted.sort();
    assert_eq!(evicted, vec![(-1, -1), (-1, 0), (-1, 1)]);
    for (coords, handles) in &out4.released {
        assert_eq!(handles.len(), 1, "one handle was recorded for {:?}", coords);
    }
    assert_eq!(store.len(), 9);
    assert!(!store.contains((-1, 0)));
    assert!(store.contains((2, 0)));
}

#[test]
fn completion_after_eviction_is_discarded() {
    let cfg = small_config();
    let mut store = TileMap::new();

    // Admit the window around the origin; all entries are pending.
    let out = tick(&mut store, (0, 0), Vec::new(), &cfg);
    assert_eq!(out.tasks.len(), 9);

    // Move far away before any task completes: everything is evicted
    // while pending, with no handles to release.
    let out2 = tick(&mut store, (800, 800), Vec::new(), &cfg);
    assert_eq!(out2.released.len(), 9);
    for (_, handles) in &out2.released {
        assert!(handles.is_empty());
    }

    // The old tasks now complete; their coordinates are no longer
    // tracked, so nothing is materialized and nothing becomes ready.
    let completions: Vec<((i64, i64), Chunk)> =
        out.tasks.iter().map(|t| (t.coords, generate(t.coords, &cfg))).collect();
    let out3 = tick(&mut store, (800, 800), completions, &cfg);
    assert!(out3.materialized.is_empty());
    for t in &out.tasks {
        assert!(!store.contains(t.coords));
    }
}

#[test]
fn noise_samples_are_in_expected_range() {
    let cfg = Config::standard();
    let samples = sample_chunk((0, 0), &cfg);
    for s in samples {
        assert!((-1000..=1000).contains(&s));
    }
}
