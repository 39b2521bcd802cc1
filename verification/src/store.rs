use vstd::prelude::*;
use crate::chunk::{Chunk, ChunkView};

verus! {

/// State of one tracked coordinate.
pub enum ChunkState {
    /// Generation is in flight; the payload is the task handle issued when
    /// the load began. No tile data exists yet.
    Pending(u64),
    /// The chunk has been generated and harvested.
    Ready(Chunk),
}

/// Mathematical content of a `ChunkState`.
pub enum StateView {
    Pending(u64),
    Ready(ChunkView),
}

impl View for ChunkState {
    type V = StateView;

    open spec fn view(&self) -> StateView {
        match self {
            ChunkState::Pending(t) => StateView::Pending(*t),
            ChunkState::Ready(c) => StateView::Ready(c@),
        }
    }
}

/// The mapping denoted by an association sequence; a later entry for a key
/// shadows an earlier one (a well-formed store never has two).
spec fn map_of(s: Seq<((i64, i64), ChunkState)>) -> Map<(i64, i64), StateView>
    decreases s.len(),
{
    if s.len() == 0 {
        Map::empty()
    } else {
        map_of(s.drop_last()).insert(s.last().0, s.last().1@)
    }
}

/// Every pair of entries carries distinct coordinates.
spec fn distinct_keys(s: Seq<((i64, i64), ChunkState)>) -> bool {
    forall|i: int, j: int| 0 <= i < j < s.len() ==> (#[trigger] s[i]).0 != (#[trigger] s[j]).0
}

/// The task handle issued after `t`; handles wrap around rather than
/// overflow, since a handle only needs to name an in-flight task.
pub open spec fn next_counter(t: u64) -> u64 {
    if t == u64::MAX {
        0
    } else {
        (t + 1) as u64
    }
}

proof fn lemma_map_of_contains(s: Seq<((i64, i64), ChunkState)>, c: (i64, i64))
    ensures
        map_of(s).contains_key(c) <==> exists|i: int| 0 <= i < s.len() && (#[trigger] s[i]).0 == c,
    decreases s.len(),
{
    if s.len() == 0 {
    } else {
        lemma_map_of_contains(s.drop_last(), c);
        if s.last().0 == c {
            assert(s[s.len() - 1].0 == c);
        } else {
            if map_of(s).contains_key(c) {
                let i = choose|i: int|
                    0 <= i < s.drop_last().len() && (#[trigger] s.drop_last()[i]).0 == c;
                assert(s[i].0 == c);
            }
            if exists|i: int| 0 <= i < s.len() && (#[trigger] s[i]).0 == c {
                let i = choose|i: int| 0 <= i < s.len() && (#[trigger] s[i]).0 == c;
                assert(i < s.len() - 1);
                assert(s.drop_last()[i].0 == c);
            }
        }
    }
}

proof fn lemma_map_of_get(s: Seq<((i64, i64), ChunkState)>, i: int)
    requires
        distinct_keys(s),
        0 <= i < s.len(),
    ensures
        map_of(s).contains_key(s[i].0),
        map_of(s)[s[i].0] == s[i].1@,
    decreases s.len(),
{
    if i == s.len() - 1 {
    } else {
        assert(distinct_keys(s.drop_last()));
        lemma_map_of_get(s.drop_last(), i);
        assert(s.drop_last()[i] == s[i]);
        assert(s.last().0 != s[i].0);
    }
}

proof fn lemma_map_of_push(s: Seq<((i64, i64), ChunkState)>, c: (i64, i64), st: ChunkState)
    ensures
        map_of(s.push((c, st))) == map_of(s).insert(c, st@),
{
    assert(s.push((c, st)).drop_last() =~= s);
    assert(s.push((c, st)).last() == (c, st));
}

proof fn lemma_map_of_remove(s: Seq<((i64, i64), ChunkState)>, i: int)
    requires
        distinct_keys(s),
        0 <= i < s.len(),
    ensures
        map_of(s.remove(i)) == map_of(s).remove(s[i].0),
    decreases s.len(),
{
    let c = s[i].0;
    if i == s.len() - 1 {
        assert(s.remove(i) =~= s.drop_last());
        lemma_map_of_contains(s.drop_last(), c);
        assert(forall|j: int|
            0 <= j < s.drop_last().len() ==> (#[trigger] s.drop_last()[j]).0 != c);
        assert(!map_of(s.drop_last()).contains_key(c));
        assert(map_of(s.drop_last()).insert(c, s[i].1@).remove(c) =~= map_of(s.drop_last()));
    } else {
        assert(distinct_keys(s.drop_last()));
        lemma_map_of_remove(s.drop_last(), i);
        assert(s.remove(i).drop_last() =~= s.drop_last().remove(i));
        assert(s.remove(i).last() == s.last());
        assert(s.last().0 != c);
        assert(map_of(s.drop_last()).remove(c).insert(s.last().0, s.last().1@) =~= map_of(
            s.drop_last(),
        ).insert(s.last().0, s.last().1@).remove(c));
    }
}

/// Removing an entry keeps the remaining keys distinct, and none of them
/// carries the removed entry's key.
proof fn lemma_distinct_remove(s: Seq<((i64, i64), ChunkState)>, i: int)
    requires
        distinct_keys(s),
        0 <= i < s.len(),
    ensures
        distinct_keys(s.remove(i)),
        forall|j: int| 0 <= j < s.remove(i).len() ==> (#[trigger] s.remove(i)[j]).0 != s[i].0,
{
    let r = s.remove(i);
    assert forall|p: int, q: int| 0 <= p < q < r.len() implies (#[trigger] r[p]).0 != (
    #[trigger] r[q]).0 by {
        if p < i {
            assert(r[p] == s[p]);
        } else {
            assert(r[p] == s[p + 1]);
        }
        if q < i {
            assert(r[q] == s[q]);
        } else {
            assert(r[q] == s[q + 1]);
        }
    }
    assert forall|j: int| 0 <= j < r.len() implies (#[trigger] r[j]).0 != s[i].0 by {
        if j < i {
            assert(r[j] == s[j]);
        } else {
            assert(r[j] == s[j + 1]);
        }
    }
}

proof fn lemma_distinct_push(s: Seq<((i64, i64), ChunkState)>, c: (i64, i64), st: ChunkState)
    requires
        distinct_keys(s),
        forall|j: int| 0 <= j < s.len() ==> (#[trigger] s[j]).0 != c,
    ensures
        distinct_keys(s.push((c, st))),
{
    let r = s.push((c, st));
    assert forall|p: int, q: int| 0 <= p < q < r.len() implies (#[trigger] r[p]).0 != (
    #[trigger] r[q]).0 by {
        if q < s.len() {
            assert(r[p] == s[p] && r[q] == s[q]);
        } else {
            assert(r[p] == s[p] && r[q] == (c, st));
        }
    }
}

/// Source of truth for which coordinates are tracked and in what state.
///
/// Backed by a short association list; the view is the finite map from
/// chunk coordinates to the state of that coordinate. At most one entry
/// exists per coordinate, so a coordinate is never simultaneously pending
/// and ready.
pub struct TileMap {
    chunks: Vec<((i64, i64), ChunkState)>,
    next_task: u64,
}

impl View for TileMap {
    type V = Map<(i64, i64), StateView>;

    closed spec fn view(&self) -> Map<(i64, i64), StateView> {
        map_of(self.chunks@)
    }
}

impl TileMap {
    /// At most one entry per coordinate pair.
    pub closed spec fn wf(self) -> bool {
        distinct_keys(self.chunks@)
    }

    /// The task handle the next `begin_load` will issue.
    pub closed spec fn task_counter(self) -> u64 {
        self.next_task
    }

    /// An empty store: no coordinate is tracked.
    pub fn new() -> (m: TileMap)
        ensures
            m.wf(),
            m@ == Map::<(i64, i64), StateView>::empty(),
            m.task_counter() == 0,
    {
        TileMap { chunks: Vec::new(), next_task: 0 }
    }

    /// Index of the entry for `coords`, if one exists.
    fn find_index(&self, coords: (i64, i64)) -> (r: Option<usize>)
        ensures
            match r {
                Some(i) => i < self.chunks@.len() && self.chunks@[i as int].0 == coords,
                None => forall|j: int|
                    0 <= j < self.chunks@.len() ==> (#[trigger] self.chunks@[j]).0 != coords,
            },
    {
        let mut i: usize = 0;
        while i < self.chunks.len()
            invariant
                i <= self.chunks@.len(),
                forall|j: int| 0 <= j < i ==> (#[trigger] self.chunks@[j]).0 != coords,
            decreases self.chunks@.len() - i,
        {
            if self.chunks[i].0.0 == coords.0 && self.chunks[i].0.1 == coords.1 {
                return Some(i);
            }
            i = i + 1;
        }
        None
    }

    /// Whether `coords` is tracked at all, pending or ready.
    pub fn contains(&self, coords: (i64, i64)) -> (r: bool)
        ensures
            r == self@.contains_key(coords),
    {
        proof {
            lemma_map_of_contains(self.chunks@, coords);
        }
        match self.find_index(coords) {
            Some(_) => true,
            None => false,
        }
    }

    /// Admission check of the streaming controller: a coordinate with any
    /// entry, loaded (ready) or pending, must not be submitted again.
    pub fn loaded_or_pending(&self, coords: (i64, i64)) -> (r: bool)
        ensures
            r == self@.contains_key(coords),
    {
        self.contains(coords)
    }

    /// Begin loading `coords`: insert a pending entry and issue the task
    /// handle under which the generation task is to be submitted. Calling
    /// this for a coordinate that is already tracked is a controller bug,
    /// so it is excluded by precondition.
    pub fn begin_load(&mut self, coords: (i64, i64)) -> (task: u64)
        requires
            old(self).wf(),
            !old(self)@.contains_key(coords),
        ensures
            final(self).wf(),
            task == old(self).task_counter(),
            final(self).task_counter() == next_counter(old(self).task_counter()),
            final(self)@ == old(self)@.insert(coords, StateView::Pending(task)),
    {
        let ghost pre = self.chunks@;
        let task = self.next_task;
        self.next_task = if task == u64::MAX {
            0
        } else {
            task + 1
        };
        self.chunks.push((coords, ChunkState::Pending(task)));
        proof {
            lemma_map_of_contains(pre, coords);
            lemma_map_of_push(pre, coords, ChunkState::Pending(task));
            lemma_distinct_push(pre, coords, ChunkState::Pending(task));
        }
        task
    }

    /// Replace the pending entry at `coords` with the harvested chunk.
    ///
    /// Returns whether the result was applied. A result harvested for a
    /// coordinate that is absent or already ready is stale (the coordinate
    /// was evicted while its task was in flight) and is dropped without
    /// touching the store.
    pub fn complete_load(&mut self, coords: (i64, i64), chunk: Chunk) -> (applied: bool)
        requires
            old(self).wf(),
        ensures
            final(self).wf(),
            final(self).task_counter() == old(self).task_counter(),
            applied == (old(self)@.contains_key(coords) && old(self)@[coords] is Pending),
            applied ==> final(self)@ == old(self)@.insert(coords, StateView::Ready(chunk@)),
            !applied ==> final(self)@ == old(self)@,
    {
        match self.find_index(coords) {
            Some(i) => {
                proof {
                    lemma_map_of_get(self.chunks@, i as int);
                }
                let pending = match &self.chunks[i].1 {
                    ChunkState::Pending(_) => true,
                    ChunkState::Ready(_) => false,
                };
                if pending {
                    let ghost pre = self.chunks@;
                    let entry = self.chunks.remove(i);
                    self.chunks.push((entry.0, ChunkState::Ready(chunk)));
                    proof {
                        lemma_map_of_remove(pre, i as int);
                        lemma_distinct_remove(pre, i as int);
                        lemma_map_of_push(
                            pre.remove(i as int),
                            coords,
                            ChunkState::Ready(chunk),
                        );
                        lemma_distinct_push(
                            pre.remove(i as int),
                            coords,
                            ChunkState::Ready(chunk),
                        );
                        assert(map_of(self.chunks@) =~= map_of(pre).insert(
                            coords,
                            StateView::Ready(chunk@),
                        ));
                    }
                    true
                } else {
                    false
                }
            },
            None => {
                proof {
                    lemma_map_of_contains(self.chunks@, coords);
                }
                false
            },
        }
    }

    /// Remove the entry at `coords` regardless of state.
    ///
    /// Returns `None` when the coordinate was not tracked; otherwise the
    /// recorded presentation handles (empty for a pending entry), so that
    /// the caller can request their release. This is also the recovery
    /// for a failed generation task: dropping the pending entry lets a
    /// later tick admit the coordinate again while it stays in range.
    pub fn evict(&mut self, coords: (i64, i64)) -> (r: Option<Vec<u64>>)
        requires
            old(self).wf(),
        ensures
            final(self).wf(),
            final(self).task_counter() == old(self).task_counter(),
            final(self)@ == old(self)@.remove(coords),
            r is Some <==> old(self)@.contains_key(coords),
            old(self)@.contains_key(coords) ==> (old(self)@[coords] is Pending ==> (r matches Some(
                h,
            ) && h@ == Seq::<u64>::empty())),
            old(self)@.contains_key(coords) ==> (old(self)@[coords] matches StateView::Ready(cv)
                ==> (r matches Some(h) && h@ == cv.handles)),
    {
        match self.find_index(coords) {
            Some(i) => {
                let ghost pre = self.chunks@;
                proof {
                    lemma_map_of_get(pre, i as int);
                    lemma_map_of_remove(pre, i as int);
                    lemma_distinct_remove(pre, i as int);
                }
                let entry = self.chunks.remove(i);
                match entry.1 {
                    ChunkState::Pending(_) => Some(Vec::new()),
                    ChunkState::Ready(ch) => Some(ch.tile_entities),
                }
            },
            None => {
                proof {
                    lemma_map_of_contains(self.chunks@, coords);
                    assert(self@ =~= self@.remove(coords));
                }
                None
            },
        }
    }

    /// Record the presentation handles returned by materializing the ready
    /// chunk at `coords`, appending them to the chunk's handle list.
    ///
    /// If the coordinate is no longer tracked as ready (it was evicted
    /// between harvest and materialization), nothing is recorded and the
    /// handles are handed back so the caller can release them at once.
    pub fn record_handles(&mut self, coords: (i64, i64), handles: Vec<u64>) -> (rejected: Option<
        Vec<u64>,
    >)
        requires
            old(self).wf(),
        ensures
            final(self).wf(),
            final(self).task_counter() == old(self).task_counter(),
            old(self)@.contains_key(coords) ==> (old(self)@[coords] matches StateView::Ready(cv)
                ==> rejected is None && final(self)@ == old(self)@.insert(
                coords,
                StateView::Ready(ChunkView { handles: cv.handles + handles@, ..cv }),
            )),
            !(old(self)@.contains_key(coords) && old(self)@[coords] is Ready) ==> (rejected
                matches Some(h) && h@ == handles@ && final(self)@ == old(self)@),
    {
        match self.find_index(coords) {
            Some(i) => {
                proof {
                    lemma_map_of_get(self.chunks@, i as int);
                }
                let ghost pre = self.chunks@;
                let entry = self.chunks.remove(i);
                match entry.1 {
                    ChunkState::Ready(mut ch) => {
                        let mut hs = handles;
                        ch.tile_entities.append(&mut hs);
                        let ghost chv = ch@;
                        self.chunks.push((entry.0, ChunkState::Ready(ch)));
                        proof {
                            lemma_map_of_remove(pre, i as int);
                            lemma_distinct_remove(pre, i as int);
                            lemma_map_of_push(
                                pre.remove(i as int),
                                coords,
                                ChunkState::Ready(ch),
                            );
                            lemma_distinct_push(
                                pre.remove(i as int),
                                coords,
                                ChunkState::Ready(ch),
                            );
                            assert(map_of(self.chunks@) =~= map_of(pre).insert(
                                coords,
                                StateView::Ready(chv),
                            ));
                        }
                        None
                    },
                    ChunkState::Pending(t) => {
                        self.chunks.push((entry.0, ChunkState::Pending(t)));
                        proof {
                            lemma_map_of_remove(pre, i as int);
                            lemma_distinct_remove(pre, i as int);
                            lemma_map_of_push(
                                pre.remove(i as int),
                                coords,
                                ChunkState::Pending(t),
                            );
                            lemma_distinct_push(
                                pre.remove(i as int),
                                coords,
                                ChunkState::Pending(t),
                            );
                            assert(map_of(self.chunks@) =~= map_of(pre));
                        }
                        Some(handles)
                    },
                }
            },
            None => {
                proof {
                    lemma_map_of_contains(self.chunks@, coords);
                }
                Some(handles)
            },
        }
    }

    /// Read access to the ready chunk at `coords`, if there is one.
    pub fn get_chunk(&self, coords: (i64, i64)) -> (r: Option<&Chunk>)
        requires
            self.wf(),
        ensures
            match r {
                Some(ch) => self@.contains_key(coords) && self@[coords] == StateView::Ready(ch@),
                None => !self@.contains_key(coords) || self@[coords] is Pending,
            },
    {
        match self.find_index(coords) {
            Some(i) => {
                proof {
                    lemma_map_of_get(self.chunks@, i as int);
                }
                match &self.chunks[i].1 {
                    ChunkState::Ready(ch) => Some(ch),
                    ChunkState::Pending(_) => None,
                }
            },
            None => {
                proof {
                    lemma_map_of_contains(self.chunks@, coords);
                }
                None
            },
        }
    }

    /// Every tracked coordinate, each exactly once.
    pub fn keys(&self) -> (ks: Vec<(i64, i64)>)
        requires
            self.wf(),
        ensures
            ks@.no_duplicates(),
            forall|c: (i64, i64)| #[trigger] ks@.contains(c) <==> self@.contains_key(c),
    {
        let mut ks: Vec<(i64, i64)> = Vec::new();
        let mut i: usize = 0;
        while i < self.chunks.len()
            invariant
                i <= self.chunks@.len(),
                ks@.len() == i,
                forall|j: int| 0 <= j < i ==> ks@[j] == (#[trigger] self.chunks@[j]).0,
            decreases self.chunks@.len() - i,
        {
            ks.push(self.chunks[i].0);
            i = i + 1;
        }
        proof {
            assert forall|p: int, q: int| 0 <= p < q < ks@.len() implies ks@[p] != ks@[q] by {
                assert(ks@[p] == self.chunks@[p].0 && ks@[q] == self.chunks@[q].0);
            }
            assert forall|c: (i64, i64)| #[trigger] ks@.contains(c) <==> self@.contains_key(
                c,
            ) by {
                lemma_map_of_contains(self.chunks@, c);
                if ks@.contains(c) {
                    let j = choose|j: int| 0 <= j < ks@.len() && ks@[j] == c;
                    assert(self.chunks@[j].0 == c);
                }
                if self@.contains_key(c) {
                    let j = choose|j: int|
                        0 <= j < self.chunks@.len() && (#[trigger] self.chunks@[j]).0 == c;
                    assert(ks@[j] == c);
                }
            }
        }
        ks
    }

    /// Number of tracked coordinates.
    pub fn len(&self) -> (n: usize)
        requires
            self.wf(),
        ensures
            n == self@.dom().len(),
    {
        proof {
            lemma_map_of_dom_len(self.chunks@);
        }
        self.chunks.len()
    }
}

proof fn lemma_map_of_dom_len(s: Seq<((i64, i64), ChunkState)>)
    requires
        distinct_keys(s),
    ensures
        map_of(s).dom().finite(),
        map_of(s).dom().len() == s.len(),
    decreases s.len(),
{
    if s.len() == 0 {
        assert(map_of(s).dom() =~= Set::<(i64, i64)>::empty());
    } else {
        assert(distinct_keys(s.drop_last()));
        lemma_map_of_dom_len(s.drop_last());
        lemma_map_of_contains(s.drop_last(), s.last().0);
        assert(forall|j: int|
            0 <= j < s.drop_last().len() ==> (#[trigger] s.drop_last()[j]).0 != s.last().0);
        assert(!map_of(s.drop_last()).contains_key(s.last().0));
        assert(map_of(s).dom() =~= map_of(s.drop_last()).dom().insert(s.last().0));
    }
}

} // verus!
