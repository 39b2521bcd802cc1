use vstd::prelude::*;
use crate::chunk::{spec_tiles, ChunkView};
use crate::controller::{in_window_spec, lemma_harvest_frame, spec_harvest, window_set};
use crate::store::StateView;
use crate::tile::Tile;

verus! {

/// Determinism of generation: two tile grids generated from the same
/// samples and the same edge length are identical. `Chunk::new` ensures
/// its tiles equal `spec_tiles` of its inputs, so two calls on equal
/// inputs -- the same coordinates sampled under the same seed and scale
/// -- yield identical tile sequences.
pub proof fn lemma_generate_deterministic(
    samples: Seq<i64>,
    size: u32,
    t1: Seq<Tile>,
    t2: Seq<Tile>,
)
    requires
        t1 == spec_tiles(samples, size),
        t2 == spec_tiles(samples, size),
    ensures
        t1 == t2,
{
}

/// No generation task is still pending: every tracked coordinate is
/// ready.
pub open spec fn converged(m: Map<(i64, i64), StateView>) -> bool {
    forall|c: (i64, i64)| #[trigger] m.contains_key(c) ==> m[c] is Ready
}

/// The coordinates tracked as ready.
pub open spec fn ready_set(m: Map<(i64, i64), StateView>) -> Set<(i64, i64)> {
    Set::new(|c: (i64, i64)| m.contains_key(c) && m[c] is Ready)
}

/// Window coverage: `tick` leaves the tracked coordinates exactly equal
/// to the required window, so once a tick converges -- no task pending
/// any more -- the ready coordinates are exactly the Chebyshev window
/// around the viewpoint's chunk.
pub proof fn lemma_window_coverage(
    m: Map<(i64, i64), StateView>,
    center: (i64, i64),
    radius: i64,
)
    requires
        m.dom() == window_set(center, radius),
        converged(m),
    ensures
        ready_set(m) == window_set(center, radius),
{
    assert(ready_set(m) =~= window_set(center, radius)) by {
        assert forall|c: (i64, i64)|
            #[trigger] ready_set(m).contains(c) <==> window_set(center, radius).contains(
                c,
            ) by {
            if window_set(center, radius).contains(c) {
                assert(m.dom().contains(c));
                assert(m.contains_key(c));
            }
        }
    }
}

/// Eviction completeness, store half: after a tick the tracked set is
/// the required window, so every coordinate outside the window is absent
/// from the store. (The handle half -- each evicted ready chunk's
/// handles are reported for release exactly once -- is ensured by
/// `evict_outside` and `tick` directly.)
pub proof fn lemma_eviction_completeness(
    m: Map<(i64, i64), StateView>,
    center: (i64, i64),
    radius: i64,
)
    requires
        m.dom() == window_set(center, radius),
    ensures
        forall|c: (i64, i64)| !in_window_spec(c, center, radius) ==> !(
        #[trigger] m.contains_key(c)),
{
    assert forall|c: (i64, i64)|
        !in_window_spec(c, center, radius) implies !(#[trigger] m.contains_key(c)) by {
        if m.contains_key(c) {
            assert(m.dom().contains(c));
            assert(window_set(center, radius).contains(c));
        }
    }
}

/// Stale discard: a coordinate that is untracked when a completion batch
/// is harvested -- one evicted while its task was in flight -- is never
/// materialized by that batch, and is still untracked afterwards; the
/// late result is simply dropped.
pub proof fn lemma_stale_discard(
    m: Map<(i64, i64), StateView>,
    comps: Seq<((i64, i64), ChunkView)>,
    c: (i64, i64),
)
    requires
        !m.contains_key(c),
    ensures
        !spec_harvest(m, comps).store.contains_key(c),
        !spec_harvest(m, comps).materialized.contains(c),
{
    lemma_harvest_frame(m, comps);
    assert(spec_harvest(m, comps).store.dom() == m.dom());
    if spec_harvest(m, comps).materialized.contains(c) {
        assert(m.contains_key(c));
    }
}

} // verus!
