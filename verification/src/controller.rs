use vstd::prelude::*;
use crate::chunk::{Chunk, ChunkView};
use crate::config::Config;
use crate::store::{StateView, TileMap};
use vstd::arithmetic::div_mod::{
    lemma_div_pos_is_pos, lemma_fundamental_div_mod, lemma_fundamental_div_mod_converse_div,
    lemma_mod_bound,
};

verus! {

/// Record of a generation task the controller asked for this tick: the
/// caller is expected to run chunk generation for `coords` on a worker
/// and hand the result back as a completion of a later tick.
pub struct ChunkLoadingTask {
    pub task_id: u64,
    pub coords: (i64, i64),
}

/// Chebyshev membership: `c` lies within distance `radius` of `center`
/// on both axes (a square window, not a circle).
pub open spec fn in_window_spec(c: (i64, i64), center: (i64, i64), radius: i64) -> bool {
    &&& center.0 - radius <= c.0 <= center.0 + radius
    &&& center.1 - radius <= c.1 <= center.1 + radius
}

/// The required window: every coordinate within Chebyshev distance
/// `radius` of `center`.
pub open spec fn window_set(center: (i64, i64), radius: i64) -> Set<(i64, i64)> {
    Set::new(|c: (i64, i64)| in_window_spec(c, center, radius))
}

/// The whole window stays within machine range around `center`.
pub open spec fn center_in_range(center: (i64, i64), radius: i64) -> bool {
    &&& i64::MIN <= center.0 - radius
    &&& center.0 + radius <= i64::MAX
    &&& i64::MIN <= center.1 - radius
    &&& center.1 + radius <= i64::MAX
}

/// Whether `c` lies in the required window around `center`.
pub fn in_window(c: (i64, i64), center: (i64, i64), radius: i64) -> (r: bool)
    requires
        0 <= radius,
        center_in_range(center, radius),
    ensures
        r == in_window_spec(c, center, radius),
{
    c.0 >= center.0 - radius && c.0 <= center.0 + radius && c.1 >= center.1 - radius && c.1
        <= center.1 + radius
}

/// Division rounding toward negative infinity, which for a positive
/// divisor agrees with mathematical (Euclidean) division.
pub fn floor_div(a: i64, b: i64) -> (q: i64)
    requires
        1 <= b,
    ensures
        q == a as int / b as int,
{
    if a >= 0 {
        let qa = (a as u64) / (b as u64);
        proof {
            lemma_div_pos_is_pos(a as int, b as int);
            lemma_fundamental_div_mod(a as int, b as int);
            lemma_mod_bound(a as int, b as int);
            assert(a as int / b as int <= b as int * (a as int / b as int)) by (nonlinear_arith)
                requires
                    1 <= b as int,
                    0 <= a as int / b as int,
            ;
        }
        qa as i64
    } else {
        // `m` is `-a - 1`, computed without negating `a` itself so that
        // even `i64::MIN` stays in range.
        let m = -(a + 1);
        let qm = (m as u64) / (b as u64);
        proof {
            let mi = m as int;
            let bi = b as int;
            let qi = mi / bi;
            let ri = mi % bi;
            lemma_div_pos_is_pos(mi, bi);
            lemma_fundamental_div_mod(mi, bi);
            lemma_mod_bound(mi, bi);
            assert(qi <= bi * qi) by (nonlinear_arith)
                requires
                    1 <= bi,
                    0 <= qi,
            ;
            assert(a as int == (-qi - 1) * bi + (bi - 1 - ri)) by (nonlinear_arith)
                requires
                    mi == bi * qi + ri,
                    a as int == -mi - 1,
            ;
            lemma_fundamental_div_mod_converse_div(a as int, bi, -qi - 1, bi - 1 - ri);
        }
        -(qm as i64) - 1
    }
}

/// The chunk the viewpoint stands in: each world axis floor-divided by
/// the world-unit span of one chunk.
pub open spec fn spec_center(viewpoint: (i64, i64), cfg: Config) -> (i64, i64) {
    (
        ((viewpoint.0 as int) / cfg.spec_chunk_span()) as i64,
        ((viewpoint.1 as int) / cfg.spec_chunk_span()) as i64,
    )
}

/// Compute the chunk coordinates the viewpoint stands in.
pub fn center_chunk(viewpoint: (i64, i64), cfg: &Config) -> (c: (i64, i64))
    requires
        cfg.wf(),
    ensures
        c == spec_center(viewpoint, *cfg),
        c.0 == viewpoint.0 as int / cfg.spec_chunk_span(),
        c.1 == viewpoint.1 as int / cfg.spec_chunk_span(),
{
    let span = cfg.chunk_span();
    let cx = floor_div(viewpoint.0, span);
    let cy = floor_div(viewpoint.1, span);
    (cx, cy)
}

/// Every coordinate of the required window, each exactly once.
pub fn window_coords(center: (i64, i64), radius: i64) -> (w: Vec<(i64, i64)>)
    requires
        0 <= radius <= 4096,
        center_in_range(center, radius),
    ensures
        w@.no_duplicates(),
        forall|c: (i64, i64)| #[trigger] w@.contains(c) <==> in_window_spec(c, center, radius),
{
    let mut w: Vec<(i64, i64)> = Vec::new();
    let mut dx: i64 = -radius;
    while dx <= radius
        invariant
            0 <= radius <= 4096,
            center_in_range(center, radius),
            -radius <= dx <= radius + 1,
            w@.no_duplicates(),
            forall|c: (i64, i64)| #[trigger] w@.contains(c) <==> (in_window_spec(
                c,
                center,
                radius,
            ) && c.0 - center.0 < dx),
        decreases radius + 1 - dx,
    {
        let mut dy: i64 = -radius;
        while dy <= radius
            invariant
                0 <= radius <= 4096,
                center_in_range(center, radius),
                -radius <= dx <= radius,
                -radius <= dy <= radius + 1,
                w@.no_duplicates(),
                forall|c: (i64, i64)| #[trigger] w@.contains(c) <==> (in_window_spec(
                    c,
                    center,
                    radius,
                ) && (c.0 - center.0 < dx || (c.0 - center.0 == dx && c.1 - center.1 < dy))),
            decreases radius + 1 - dy,
        {
            let coord = (center.0 + dx, center.1 + dy);
            proof {
                assert(!w@.contains(coord));
            }
            let ghost pre = w@;
            w.push(coord);
            proof {
                assert forall|p: int, q: int| 0 <= p < q < w@.len() implies w@[p] != w@[q] by {
                    if q < pre.len() {
                        assert(w@[p] == pre[p] && w@[q] == pre[q]);
                    } else {
                        assert(w@[q] == coord && w@[p] == pre[p]);
                        assert(pre.contains(pre[p]));
                    }
                }
                assert forall|c: (i64, i64)| #[trigger] w@.contains(c) <==> (in_window_spec(
                    c,
                    center,
                    radius,
                ) && (c.0 - center.0 < dx || (c.0 - center.0 == dx && c.1 - center.1 < dy
                    + 1))) by {
                    if w@.contains(c) {
                        let j = choose|j: int| 0 <= j < w@.len() && (#[trigger] w@[j]) == c;
                        if j < pre.len() {
                            assert(pre.contains(c));
                        } else {
                            assert(c == coord);
                        }
                    }
                    if in_window_spec(c, center, radius) && (c.0 - center.0 < dx || (c.0
                        - center.0 == dx && c.1 - center.1 < dy + 1)) {
                        if c.0 - center.0 < dx || (c.0 - center.0 == dx && c.1 - center.1
                            < dy) {
                            assert(pre.contains(c));
                            let j = choose|j: int| 0 <= j < pre.len() && (#[trigger] pre[j]) == c;
                            assert(w@[j] == c);
                        } else {
                            assert(c == coord);
                            assert(w@[w@.len() - 1] == c);
                        }
                    }
                }
            }
            dy = dy + 1;
        }
        dx = dx + 1;
    }
    w
}

/// Admission step of a tick: for every window coordinate that the store
/// does not track, begin a load and record the task to submit.
///
/// No tracked coordinate, pending or ready, is ever submitted again, and
/// no tracked entry is touched.
pub fn admit_window(store: &mut TileMap, window: &Vec<(i64, i64)>) -> (tasks: Vec<
    ChunkLoadingTask,
>)
    requires
        old(store).wf(),
        window@.no_duplicates(),
    ensures
        final(store).wf(),
        forall|c: (i64, i64)| #[trigger] final(store)@.contains_key(c) <==> (old(
            store,
        )@.contains_key(c) || window@.contains(c)),
        forall|c: (i64, i64)| #[trigger] old(store)@.contains_key(c) ==> final(store)@[c] == old(
            store,
        )@[c],
        forall|c: (i64, i64)| #[trigger] window@.contains(c) && !old(store)@.contains_key(c)
            ==> final(store)@[c] is Pending,
        forall|k: int| 0 <= k < tasks@.len() ==> window@.contains(
            (#[trigger] tasks@[k]).coords,
        ) && !old(store)@.contains_key(tasks@[k].coords) && final(store)@[tasks@[k].coords]
            == StateView::Pending(tasks@[k].task_id),
        forall|c: (i64, i64)| #[trigger] window@.contains(c) && !old(store)@.contains_key(c)
            ==> exists|k: int| 0 <= k < tasks@.len() && (#[trigger] tasks@[k]).coords == c,
        forall|k1: int, k2: int| 0 <= k1 < k2 < tasks@.len() ==> (#[trigger] tasks@[k1]).coords
            != (#[trigger] tasks@[k2]).coords,
{
    let mut tasks: Vec<ChunkLoadingTask> = Vec::new();
    let mut i: usize = 0;
    while i < window.len()
        invariant
            store.wf(),
            window@.no_duplicates(),
            i <= window@.len(),
            forall|c: (i64, i64)| #[trigger] store@.contains_key(c) <==> (old(
                store,
            )@.contains_key(c) || window@.take(i as int).contains(c)),
            forall|c: (i64, i64)| #[trigger] old(store)@.contains_key(c) ==> store@[c] == old(
                store,
            )@[c],
            forall|c: (i64, i64)| #[trigger] window@.take(i as int).contains(c) && !old(
                store,
            )@.contains_key(c) ==> store@[c] is Pending,
            forall|k: int| 0 <= k < tasks@.len() ==> window@.take(i as int).contains(
                (#[trigger] tasks@[k]).coords,
            ) && !old(store)@.contains_key(tasks@[k].coords) && store@[tasks@[k].coords]
                == StateView::Pending(tasks@[k].task_id),
            forall|c: (i64, i64)| #[trigger] window@.take(i as int).contains(c) && !old(
                store,
            )@.contains_key(c) ==> exists|k: int| 0 <= k < tasks@.len() && (
            #[trigger] tasks@[k]).coords == c,
            forall|k1: int, k2: int| 0 <= k1 < k2 < tasks@.len() ==> (
            #[trigger] tasks@[k1]).coords != (#[trigger] tasks@[k2]).coords,
        decreases window@.len() - i,
    {
        let c = window[i];
        proof {
            assert(window@.take(i as int + 1) =~= window@.take(i as int).push(c));
            assert(window@.contains(c)) by {
                assert(window@[i as int] == c);
            }
            assert(window@.take(i as int + 1)[i as int] == c);
            assert(window@.take(i as int + 1).contains(c));
        }
        let ghost pre_tasks = tasks@;
        let ghost pre_store = store@;
        if !store.contains(c) {
            let task = store.begin_load(c);
            tasks.push(ChunkLoadingTask { task_id: task, coords: c });
            proof {
                assert(!window@.take(i as int).contains(c)) by {
                    if window@.take(i as int).contains(c) {
                        let j = choose|j: int|
                            0 <= j < i as int && (#[trigger] window@.take(i as int)[j]) == c;
                        assert(window@[j] == c);
                    }
                }
                assert forall|c2: (i64, i64)| #[trigger] store@.contains_key(c2) <==> (old(
                    store,
                )@.contains_key(c2) || window@.take(i as int + 1).contains(c2)) by {
                    if window@.take(i as int + 1).contains(c2) {
                        if c2 != c {
                            let j = choose|j: int|
                                0 <= j < i as int + 1 && (#[trigger] window@.take(i as int + 1)[j]) == c2;
                            assert(window@.take(i as int)[j] == c2);
                        }
                    }
                    if window@.take(i as int).contains(c2) {
                        let j = choose|j: int|
                            0 <= j < i as int && (#[trigger] window@.take(i as int)[j]) == c2;
                        assert(window@.take(i as int + 1)[j] == c2);
                    }
                }
                assert forall|k: int| 0 <= k < tasks@.len() implies window@.take(
                    i as int + 1,
                ).contains((#[trigger] tasks@[k]).coords) && !old(store)@.contains_key(
                    tasks@[k].coords,
                ) && store@[tasks@[k].coords] == StateView::Pending(tasks@[k].task_id) by {
                    if k < pre_tasks.len() {
                        assert(tasks@[k] == pre_tasks[k]);
                        assert(window@.take(i as int).contains(pre_tasks[k].coords));
                        let j = choose|j: int|
                            0 <= j < i as int && (#[trigger] window@.take(i as int)[j]) == pre_tasks[k].coords;
                        assert(window@.take(i as int + 1)[j] == pre_tasks[k].coords);
                        assert(pre_tasks[k].coords != c);
                    } else {
                        assert(tasks@[k].coords == c);
                        assert(window@.take(i as int + 1)[i as int] == c);
                    }
                }
                assert forall|c2: (i64, i64)| #[trigger] window@.take(i as int + 1).contains(
                    c2,
                ) && !old(store)@.contains_key(c2) implies exists|k: int|
                    0 <= k < tasks@.len() && (#[trigger] tasks@[k]).coords == c2 by {
                    if c2 == c {
                        assert(tasks@[tasks@.len() - 1].coords == c);
                    } else {
                        let j = choose|j: int|
                            0 <= j < i as int + 1 && (#[trigger] window@.take(i as int + 1)[j]) == c2;
                        assert(window@.take(i as int)[j] == c2);
                        assert(window@.take(i as int).contains(c2));
                        let k = choose|k: int|
                            0 <= k < pre_tasks.len() && (#[trigger] pre_tasks[k]).coords == c2;
                        assert(tasks@[k].coords == c2);
                    }
                }
                assert forall|c2: (i64, i64)| #[trigger] window@.take(i as int + 1).contains(
                    c2,
                ) && !old(store)@.contains_key(c2) implies store@[c2] is Pending by {
                    if c2 != c {
                        let j = choose|j: int|
                            0 <= j < i as int + 1 && (#[trigger] window@.take(i as int + 1)[j]) == c2;
                        assert(window@.take(i as int)[j] == c2);
                        assert(window@.take(i as int).contains(c2));
                    }
                }
            }
        } else {
            proof {
                assert forall|c2: (i64, i64)| #[trigger] store@.contains_key(c2) <==> (old(
                    store,
                )@.contains_key(c2) || window@.take(i as int + 1).contains(c2)) by {
                    if window@.take(i as int + 1).contains(c2) {
                        if c2 != c {
                            let j = choose|j: int|
                                0 <= j < i as int + 1 && (#[trigger] window@.take(i as int + 1)[j]) == c2;
                            assert(window@.take(i as int)[j] == c2);
                            assert(window@.take(i as int).contains(c2));
                        } else {
                            assert(store@.contains_key(c));
                        }
                    }
                    if window@.take(i as int).contains(c2) {
                        let j = choose|j: int|
                            0 <= j < i as int && (#[trigger] window@.take(i as int)[j]) == c2;
                        assert(window@.take(i as int + 1)[j] == c2);
                    }
                }
                assert forall|k: int| 0 <= k < tasks@.len() implies window@.take(
                    i as int + 1,
                ).contains((#[trigger] tasks@[k]).coords) by {
                    assert(window@.take(i as int).contains(tasks@[k].coords));
                    let j = choose|j: int|
                        0 <= j < i as int && (#[trigger] window@.take(i as int)[j]) == tasks@[k].coords;
                    assert(window@.take(i as int + 1)[j] == tasks@[k].coords);
                }
                assert forall|c2: (i64, i64)| #[trigger] window@.take(i as int + 1).contains(
                    c2,
                ) && !old(store)@.contains_key(c2) implies (exists|k: int|
                    0 <= k < tasks@.len() && (#[trigger] tasks@[k]).coords == c2) && store@[c2]
                    is Pending by {
                    if c2 == c {
                        assert(old(store)@.contains_key(c) || window@.take(i as int).contains(
                            c,
                        ));
                    } else {
                        let j = choose|j: int|
                            0 <= j < i as int + 1 && (#[trigger] window@.take(i as int + 1)[j]) == c2;
                        assert(window@.take(i as int)[j] == c2);
                        assert(window@.take(i as int).contains(c2));
                    }
                }
            }
        }
        i = i + 1;
    }
    proof {
        assert(window@.take(window@.len() as int) =~= window@);
    }
    tasks
}


/// Result of folding a batch of completions into a store map: the map
/// afterwards, and the coordinates that became ready and must be
/// materialized, in harvest order.
pub struct HarvestOut {
    pub store: Map<(i64, i64), StateView>,
    pub materialized: Seq<(i64, i64)>,
}

/// The mathematical content of a completion batch.
pub open spec fn comps_view(s: Seq<((i64, i64), Chunk)>) -> Seq<((i64, i64), ChunkView)> {
    s.map_values(|p: ((i64, i64), Chunk)| (p.0, p.1@))
}

/// Fold a completion batch into a store map, first to last: a completion
/// for a coordinate that is still pending makes it ready and is
/// materialized; any other completion is stale and is discarded.
pub open spec fn spec_harvest(
    m: Map<(i64, i64), StateView>,
    comps: Seq<((i64, i64), ChunkView)>,
) -> HarvestOut
    decreases comps.len(),
{
    if comps.len() == 0 {
        HarvestOut { store: m, materialized: Seq::empty() }
    } else if m.contains_key(comps[0].0) && m[comps[0].0] is Pending {
        let rest = spec_harvest(
            m.insert(comps[0].0, StateView::Ready(comps[0].1)),
            comps.subrange(1, comps.len() as int),
        );
        HarvestOut { store: rest.store, materialized: seq![comps[0].0] + rest.materialized }
    } else {
        spec_harvest(m, comps.subrange(1, comps.len() as int))
    }
}

/// Frame facts of harvesting: the set of tracked coordinates does not
/// change, a ready entry is never overwritten, and only coordinates that
/// were still pending are materialized. In particular a coordinate that
/// is not tracked at harvest time -- one evicted while pending -- is
/// never materialized and never becomes ready: its completion is stale
/// and is discarded.
pub proof fn lemma_harvest_frame(
    m: Map<(i64, i64), StateView>,
    comps: Seq<((i64, i64), ChunkView)>,
)
    ensures
        spec_harvest(m, comps).store.dom() == m.dom(),
        forall|c: (i64, i64)|
            m.contains_key(c) && m[c] is Ready ==> spec_harvest(m, comps).store[c] == m[c],
        forall|c: (i64, i64)| #[trigger]
            spec_harvest(m, comps).materialized.contains(c) ==> m.contains_key(c) && m[c]
                is Pending,
    decreases comps.len(),
{
    if comps.len() == 0 {
    } else {
        let c0 = comps[0].0;
        let cv = comps[0].1;
        let rest = comps.subrange(1, comps.len() as int);
        if m.contains_key(c0) && m[c0] is Pending {
            let m1 = m.insert(c0, StateView::Ready(cv));
            lemma_harvest_frame(m1, rest);
            assert(m1.dom() =~= m.dom());
            assert forall|c: (i64, i64)|
                m.contains_key(c) && m[c] is Ready implies spec_harvest(m, comps).store[c]
                == m[c] by {
                assert(c != c0);
                assert(m1.contains_key(c) && m1[c] == m[c]);
            }
            assert forall|c: (i64, i64)| #[trigger]
                spec_harvest(m, comps).materialized.contains(c) implies m.contains_key(c)
                && m[c] is Pending by {
                let mats = seq![c0] + spec_harvest(m1, rest).materialized;
                if c != c0 {
                    let j = choose|j: int| 0 <= j < mats.len() && (#[trigger] mats[j]) == c;
                    assert(j >= 1);
                    assert(spec_harvest(m1, rest).materialized[j - 1] == c);
                    assert(spec_harvest(m1, rest).materialized.contains(c));
                    assert(m1.contains_key(c) && m1[c] is Pending);
                    assert(m[c] == m1[c]);
                }
            }
        } else {
            lemma_harvest_frame(m, rest);
        }
    }
}

/// Harvest step of a tick: fold every completed generation task into the
/// store, without blocking on tasks that have not finished (those simply
/// do not appear in `completions`).
///
/// Completions for coordinates still tracked as pending become ready and
/// are returned for materialization, in harvest order; completions for
/// evicted or already-ready coordinates are stale and are discarded.
pub fn harvest(store: &mut TileMap, completions: Vec<((i64, i64), Chunk)>) -> (materialized:
    Vec<(i64, i64)>)
    requires
        old(store).wf(),
    ensures
        final(store).wf(),
        final(store).task_counter() == old(store).task_counter(),
        final(store)@ == spec_harvest(old(store)@, comps_view(completions@)).store,
        materialized@ == spec_harvest(old(store)@, comps_view(completions@)).materialized,
{
    let ghost orig = completions@;
    let mut mats: Vec<(i64, i64)> = Vec::new();
    let mut rest = completions;
    while rest.len() > 0
        invariant
            store.wf(),
            store.task_counter() == old(store).task_counter(),
            spec_harvest(old(store)@, comps_view(orig)).store == spec_harvest(
                store@,
                comps_view(rest@),
            ).store,
            spec_harvest(old(store)@, comps_view(orig)).materialized == mats@ + spec_harvest(
                store@,
                comps_view(rest@),
            ).materialized,
        decreases rest@.len(),
    {
        let ghost pre_store = store@;
        let ghost pre_rest = rest@;
        let ghost pre_mats = mats@;
        let comp = rest.remove(0);
        let coords = comp.0;
        let ghost chv = comp.1@;
        let applied = store.complete_load(coords, comp.1);
        if applied {
            mats.push(coords);
        }
        proof {
            assert(comps_view(pre_rest)[0] == (coords, chv));
            assert(comps_view(pre_rest).subrange(1, comps_view(pre_rest).len() as int)
                =~= comps_view(rest@));
            if applied {
                assert(store@ == pre_store.insert(coords, StateView::Ready(chv)));
                assert(spec_harvest(pre_store, comps_view(pre_rest)).materialized == seq![coords]
                    + spec_harvest(store@, comps_view(rest@)).materialized);
                assert(mats@ =~= pre_mats + seq![coords]);
                assert((pre_mats + seq![coords]) + spec_harvest(store@, comps_view(rest@)).materialized
                    =~= pre_mats + (seq![coords] + spec_harvest(store@, comps_view(rest@)).materialized));
            }
        }
    }
    proof {
        assert(comps_view(rest@) =~= Seq::<((i64, i64), ChunkView)>::empty());
        assert(mats@ + spec_harvest(store@, comps_view(rest@)).materialized =~= mats@);
    }
    mats
}

/// Eviction step of a tick: remove every tracked coordinate outside the
/// required window and report, per evicted coordinate, the presentation
/// handles whose release must be requested. A coordinate evicted while
/// pending reports no handles; its eventual completion will be discarded
/// as stale by a later harvest.
pub fn evict_outside(store: &mut TileMap, center: (i64, i64), radius: i64) -> (released: Vec<
    ((i64, i64), Vec<u64>),
>)
    requires
        old(store).wf(),
        0 <= radius,
        center_in_range(center, radius),
    ensures
        final(store).wf(),
        final(store).task_counter() == old(store).task_counter(),
        final(store)@ == old(store)@.restrict(window_set(center, radius)),
        forall|k: int|
            0 <= k < released@.len() ==> !in_window_spec(
                (#[trigger] released@[k]).0,
                center,
                radius,
            ) && old(store)@.contains_key(released@[k].0),
        forall|k: int|
            0 <= k < released@.len() ==> (old(store)@[(#[trigger] released@[k]).0] matches
                StateView::Ready(cv) ==> released@[k].1@ == cv.handles),
        forall|k: int|
            0 <= k < released@.len() ==> (old(store)@[(#[trigger] released@[k]).0] is Pending
                ==> released@[k].1@ == Seq::<u64>::empty()),
        forall|c: (i64, i64)| #[trigger]
            old(store)@.contains_key(c) && !in_window_spec(c, center, radius) ==> exists|k: int|
                0 <= k < released@.len() && (#[trigger] released@[k]).0 == c,
        forall|k1: int, k2: int|
            0 <= k1 < k2 < released@.len() ==> (#[trigger] released@[k1]).0 != (
            #[trigger] released@[k2]).0,
{
    let ks = store.keys();
    let mut released: Vec<((i64, i64), Vec<u64>)> = Vec::new();
    let mut i: usize = 0;
    while i < ks.len()
        invariant
            store.wf(),
            store.task_counter() == old(store).task_counter(),
            0 <= radius,
            center_in_range(center, radius),
            i <= ks@.len(),
            ks@.no_duplicates(),
            forall|c: (i64, i64)| #[trigger] ks@.contains(c) <==> old(store)@.contains_key(c),
            forall|c: (i64, i64)| #[trigger]
                store@.contains_key(c) <==> (old(store)@.contains_key(c) && (in_window_spec(
                    c,
                    center,
                    radius,
                ) || !ks@.take(i as int).contains(c))),
            forall|c: (i64, i64)| #[trigger]
                store@.contains_key(c) ==> store@[c] == old(store)@[c],
            forall|k: int|
                0 <= k < released@.len() ==> !in_window_spec(
                    (#[trigger] released@[k]).0,
                    center,
                    radius,
                ) && old(store)@.contains_key(released@[k].0) && ks@.take(i as int).contains(
                    released@[k].0,
                ),
            forall|k: int|
                0 <= k < released@.len() ==> (old(store)@[(#[trigger] released@[k]).0] matches
                    StateView::Ready(cv) ==> released@[k].1@ == cv.handles),
            forall|k: int|
                0 <= k < released@.len() ==> (old(store)@[(#[trigger] released@[k]).0]
                    is Pending ==> released@[k].1@ == Seq::<u64>::empty()),
            forall|c: (i64, i64)| #[trigger]
                ks@.take(i as int).contains(c) && !in_window_spec(c, center, radius)
                    ==> exists|k: int|
                    0 <= k < released@.len() && (#[trigger] released@[k]).0 == c,
            forall|k1: int, k2: int|
                0 <= k1 < k2 < released@.len() ==> (#[trigger] released@[k1]).0 != (
                #[trigger] released@[k2]).0,
        decreases ks@.len() - i,
    {
        let c = ks[i];
        let ghost pre_store = store@;
        let ghost pre_released = released@;
        proof {
            assert(ks@.take(i as int + 1) =~= ks@.take(i as int).push(c));
            assert(ks@.contains(c)) by {
                assert(ks@[i as int] == c);
            }
            assert(!ks@.take(i as int).contains(c)) by {
                if ks@.take(i as int).contains(c) {
                    let j = choose|j: int|
                        0 <= j < i as int && (#[trigger] ks@.take(i as int)[j]) == c;
                    assert(ks@[j] == c);
                }
            }
            assert(ks@.take(i as int + 1)[i as int] == c);
            assert(ks@.take(i as int + 1).contains(c));
        }
        if !in_window(c, center, radius) {
            proof {
                assert(store@.contains_key(c));
            }
            let r = store.evict(c);
            match r {
                Some(h) => {
                    released.push((c, h));
                },
                None => {},
            }
            proof {
                assert forall|c2: (i64, i64)| #[trigger]
                    store@.contains_key(c2) <==> (old(store)@.contains_key(c2) && (
                    in_window_spec(c2, center, radius) || !ks@.take(i as int + 1).contains(
                        c2,
                    ))) by {
                    if c2 == c {
                        assert(!store@.contains_key(c));
                    } else {
                        assert(store@.contains_key(c2) == pre_store.contains_key(c2));
                        if ks@.take(i as int).contains(c2) {
                            let j = choose|j: int|
                                0 <= j < i as int && (#[trigger] ks@.take(i as int)[j]) == c2;
                            assert(ks@.take(i as int + 1)[j] == c2);
                        }
                        if ks@.take(i as int + 1).contains(c2) {
                            let j = choose|j: int|
                                0 <= j < i as int + 1 && (#[trigger] ks@.take(i as int + 1)[j])
                                    == c2;
                            assert(j < i as int);
                            assert(ks@.take(i as int)[j] == c2);
                            assert(ks@.take(i as int).contains(c2));
                        }
                    }
                }
                assert forall|k: int|
                    0 <= k < released@.len() implies !in_window_spec(
                    (#[trigger] released@[k]).0,
                    center,
                    radius,
                ) && old(store)@.contains_key(released@[k].0) && ks@.take(i as int + 1).contains(
                    released@[k].0,
                ) by {
                    if k < pre_released.len() {
                        assert(released@[k] == pre_released[k]);
                        assert(ks@.take(i as int).contains(pre_released[k].0));
                        let j = choose|j: int|
                            0 <= j < i as int && (#[trigger] ks@.take(i as int)[j])
                                == pre_released[k].0;
                        assert(ks@.take(i as int + 1)[j] == pre_released[k].0);
                    } else {
                        assert(released@[k].0 == c);
                    }
                }
                assert forall|c2: (i64, i64)| #[trigger]
                    ks@.take(i as int + 1).contains(c2) && !in_window_spec(c2, center, radius)
                    implies exists|k: int|
                    0 <= k < released@.len() && (#[trigger] released@[k]).0 == c2 by {
                    if c2 == c {
                        assert(released@[released@.len() - 1].0 == c);
                    } else {
                        let j = choose|j: int|
                            0 <= j < i as int + 1 && (#[trigger] ks@.take(i as int + 1)[j]) == c2;
                        assert(j < i as int);
                        assert(ks@.take(i as int)[j] == c2);
                        assert(ks@.take(i as int).contains(c2));
                        let k = choose|k: int|
                            0 <= k < pre_released.len() && (#[trigger] pre_released[k]).0 == c2;
                        assert(released@[k].0 == c2);
                    }
                }
            }
        } else {
            proof {
                assert forall|c2: (i64, i64)| #[trigger]
                    store@.contains_key(c2) <==> (old(store)@.contains_key(c2) && (
                    in_window_spec(c2, center, radius) || !ks@.take(i as int + 1).contains(
                        c2,
                    ))) by {
                    if c2 != c {
                        if ks@.take(i as int).contains(c2) {
                            let j = choose|j: int|
                                0 <= j < i as int && (#[trigger] ks@.take(i as int)[j]) == c2;
                            assert(ks@.take(i as int + 1)[j] == c2);
                        }
                        if ks@.take(i as int + 1).contains(c2) {
                            let j = choose|j: int|
                                0 <= j < i as int + 1 && (#[trigger] ks@.take(i as int + 1)[j])
                                    == c2;
                            assert(j < i as int);
                            assert(ks@.take(i as int)[j] == c2);
                            assert(ks@.take(i as int).contains(c2));
                        }
                    }
                }
                assert forall|k: int|
                    0 <= k < released@.len() implies ks@.take(i as int + 1).contains(
                    (#[trigger] released@[k]).0,
                ) by {
                    assert(ks@.take(i as int).contains(released@[k].0));
                    let j = choose|j: int|
                        0 <= j < i as int && (#[trigger] ks@.take(i as int)[j])
                            == released@[k].0;
                    assert(ks@.take(i as int + 1)[j] == released@[k].0);
                }
                assert forall|c2: (i64, i64)| #[trigger]
                    ks@.take(i as int + 1).contains(c2) && !in_window_spec(c2, center, radius)
                    implies exists|k: int|
                    0 <= k < released@.len() && (#[trigger] released@[k]).0 == c2 by {
                    if c2 == c {
                    } else {
                        let j = choose|j: int|
                            0 <= j < i as int + 1 && (#[trigger] ks@.take(i as int + 1)[j]) == c2;
                        assert(j < i as int);
                        assert(ks@.take(i as int)[j] == c2);
                        assert(ks@.take(i as int).contains(c2));
                    }
                }
            }
        }
        i = i + 1;
    }
    proof {
        assert(ks@.take(ks@.len() as int) =~= ks@);
        assert forall|c: (i64, i64)| #[trigger]
            old(store)@.contains_key(c) && !in_window_spec(c, center, radius) implies exists|k: int|
            0 <= k < released@.len() && (#[trigger] released@[k]).0 == c by {
            assert(ks@.contains(c));
            assert(ks@.take(ks@.len() as int).contains(c));
        }
        assert(store@ =~= old(store)@.restrict(window_set(center, radius))) by {
            assert forall|c: (i64, i64)| #[trigger]
                store@.contains_key(c) <==> (old(store)@.contains_key(c) && window_set(
                    center,
                    radius,
                ).contains(c)) by {
                if old(store)@.contains_key(c) {
                    assert(ks@.contains(c));
                }
            }
        }
    }
    released
}

/// What one tick asks its caller to do: submit the listed generation
/// tasks to workers, materialize visuals for the listed newly ready
/// coordinates (recording the handles with `TileMap::record_handles`),
/// and request release of the listed handles of evicted chunks.
pub struct TickOutcome {
    pub tasks: Vec<ChunkLoadingTask>,
    pub materialized: Vec<(i64, i64)>,
    pub released: Vec<((i64, i64), Vec<u64>)>,
}

/// The window around the viewpoint's chunk stays within machine range.
pub open spec fn viewpoint_in_range(viewpoint: (i64, i64), cfg: Config) -> bool {
    center_in_range(spec_center(viewpoint, cfg), cfg.load_radius)
}

/// One tick of the streaming controller, run once per frame by the
/// single control thread:
/// read the viewpoint, compute the required window, begin loads for
/// window coordinates that are not yet tracked, fold the harvested
/// completions into the store, and evict everything that left the
/// window.
///
/// After any tick the tracked coordinates are exactly the required
/// window; no tracked coordinate is ever submitted again; and a
/// coordinate that was neither tracked nor in the window -- one whose
/// completion arrived after its eviction -- is neither materialized nor
/// tracked afterwards.
pub fn tick(
    store: &mut TileMap,
    viewpoint: (i64, i64),
    completions: Vec<((i64, i64), Chunk)>,
    cfg: &Config,
) -> (out: TickOutcome)
    requires
        old(store).wf(),
        cfg.wf(),
        viewpoint_in_range(viewpoint, *cfg),
    ensures
        final(store).wf(),
        final(store)@.dom() == window_set(spec_center(viewpoint, *cfg), cfg.load_radius),
        forall|k: int|
            0 <= k < out.tasks@.len() ==> in_window_spec(
                (#[trigger] out.tasks@[k]).coords,
                spec_center(viewpoint, *cfg),
                cfg.load_radius,
            ) && !old(store)@.contains_key(out.tasks@[k].coords),
        forall|c: (i64, i64)|
            in_window_spec(c, spec_center(viewpoint, *cfg), cfg.load_radius) && !old(
                store,
            )@.contains_key(c) ==> exists|k: int|
                0 <= k < out.tasks@.len() && (#[trigger] out.tasks@[k]).coords == c,
        forall|k1: int, k2: int|
            0 <= k1 < k2 < out.tasks@.len() ==> (#[trigger] out.tasks@[k1]).coords != (
            #[trigger] out.tasks@[k2]).coords,
        forall|c: (i64, i64)| #[trigger]
            out.materialized@.contains(c) ==> ((old(store)@.contains_key(c) && old(store)@[c]
                is Pending) || (in_window_spec(c, spec_center(viewpoint, *cfg), cfg.load_radius)
                && !old(store)@.contains_key(c))),
        forall|c: (i64, i64)|
            old(store)@.contains_key(c) && old(store)@[c] is Ready && in_window_spec(
                c,
                spec_center(viewpoint, *cfg),
                cfg.load_radius,
            ) ==> #[trigger] final(store)@[c] == old(store)@[c],
        forall|k: int|
            0 <= k < out.released@.len() ==> !in_window_spec(
                (#[trigger] out.released@[k]).0,
                spec_center(viewpoint, *cfg),
                cfg.load_radius,
            ) && old(store)@.contains_key(out.released@[k].0),
        forall|k: int|
            0 <= k < out.released@.len() ==> (old(store)@[(#[trigger] out.released@[k]).0]
                matches StateView::Ready(cv) ==> out.released@[k].1@ == cv.handles),
        forall|c: (i64, i64)| #[trigger]
            old(store)@.contains_key(c) && !in_window_spec(
                c,
                spec_center(viewpoint, *cfg),
                cfg.load_radius,
            ) ==> exists|k: int|
                0 <= k < out.released@.len() && (#[trigger] out.released@[k]).0 == c,
        forall|k1: int, k2: int|
            0 <= k1 < k2 < out.released@.len() ==> (#[trigger] out.released@[k1]).0 != (
            #[trigger] out.released@[k2]).0,
{
    let ghost ctr = spec_center(viewpoint, *cfg);
    let ghost radius = cfg.load_radius;
    let center = center_chunk(viewpoint, cfg);
    let window = window_coords(center, cfg.load_radius);
    let tasks = admit_window(store, &window);
    let ghost mid1 = store@;
    let materialized = harvest(store, completions);
    let ghost mid2 = store@;
    proof {
        lemma_harvest_frame(mid1, comps_view(completions@));
        assert(mid2.dom() == mid1.dom());
        assert forall|c: (i64, i64)| #[trigger]
            mid2.contains_key(c) <==> (old(store)@.contains_key(c) || in_window_spec(
                c,
                ctr,
                radius,
            )) by {
            assert(mid2.contains_key(c) == mid1.contains_key(c));
            assert(mid1.contains_key(c) <==> (old(store)@.contains_key(c) || window@.contains(
                c,
            )));
        }
    }
    let released = evict_outside(store, center, cfg.load_radius);
    proof {
        assert(store@.dom() =~= window_set(ctr, radius)) by {
            assert forall|c: (i64, i64)| #[trigger]
                store@.dom().contains(c) <==> window_set(ctr, radius).contains(c) by {
                assert(store@.contains_key(c) <==> (mid2.contains_key(c) && window_set(
                    ctr,
                    radius,
                ).contains(c)));
            }
        }
        assert forall|k: int|
            0 <= k < tasks@.len() implies in_window_spec(
            (#[trigger] tasks@[k]).coords,
            ctr,
            radius,
        ) && !old(store)@.contains_key(tasks@[k].coords) by {
            assert(window@.contains(tasks@[k].coords));
        }
        assert forall|c: (i64, i64)|
            in_window_spec(c, ctr, radius) && !old(store)@.contains_key(c) implies exists|k: int|
            0 <= k < tasks@.len() && (#[trigger] tasks@[k]).coords == c by {
            assert(window@.contains(c));
        }
        assert forall|c: (i64, i64)| #[trigger]
            materialized@.contains(c) implies ((old(store)@.contains_key(c) && old(store)@[c]
            is Pending) || (in_window_spec(c, ctr, radius) && !old(store)@.contains_key(
            c,
        ))) by {
            assert(mid1.contains_key(c) && mid1[c] is Pending);
            if old(store)@.contains_key(c) {
                assert(mid1[c] == old(store)@[c]);
            } else {
                assert(window@.contains(c));
            }
        }
        assert forall|c: (i64, i64)|
            old(store)@.contains_key(c) && old(store)@[c] is Ready && in_window_spec(
                c,
                ctr,
                radius,
            ) implies #[trigger] store@[c] == old(store)@[c] by {
            assert(mid1.contains_key(c) && mid1[c] == old(store)@[c]);
            assert(mid2[c] == mid1[c]);
            assert(mid2.contains_key(c));
            assert(window_set(ctr, radius).contains(c));
            assert(store@[c] == mid2[c]);
        }
        assert forall|k: int|
            0 <= k < released@.len() implies !in_window_spec(
            (#[trigger] released@[k]).0,
            ctr,
            radius,
        ) && old(store)@.contains_key(released@[k].0) by {
            let c = released@[k].0;
            assert(mid2.contains_key(c));
        }
        assert forall|k: int|
            0 <= k < released@.len() implies (old(store)@[(#[trigger] released@[k]).0] matches
            StateView::Ready(cv) ==> released@[k].1@ == cv.handles) by {
            let c = released@[k].0;
            assert(mid2.contains_key(c));
            assert(!in_window_spec(c, ctr, radius));
            assert(old(store)@.contains_key(c));
            if old(store)@[c] is Ready {
                assert(mid1.contains_key(c) && mid1[c] == old(store)@[c]);
                assert(mid2[c] == mid1[c]);
            }
        }
        assert forall|c: (i64, i64)| #[trigger]
            old(store)@.contains_key(c) && !in_window_spec(c, ctr, radius) implies exists|k: int|
            0 <= k < released@.len() && (#[trigger] released@[k]).0 == c by {
            assert(mid2.contains_key(c));
        }
    }
    let out = TickOutcome { tasks, materialized, released };
    proof {
        assert forall|c: (i64, i64)|
            in_window_spec(c, ctr, radius) && !old(store)@.contains_key(c) implies exists|k: int|
            0 <= k < out.tasks@.len() && (#[trigger] out.tasks@[k]).coords == c by {
            let k = choose|k: int|
                0 <= k < out.tasks@.len() && (#[trigger] out.tasks@[k]).coords == c;
            assert(out.tasks@[k].coords == c);
        }
        assert forall|c: (i64, i64)| #[trigger]
            old(store)@.contains_key(c) && !in_window_spec(c, ctr, radius) implies exists|k: int|
            0 <= k < out.released@.len() && (#[trigger] out.released@[k]).0 == c by {
            let k = choose|k: int|
                0 <= k < out.released@.len() && (#[trigger] out.released@[k]).0 == c;
            assert(out.released@[k].0 == c);
        }
    }
    out
}

} // verus!
