//! Chromagram layer: level-1 tiles plus a per-file normalization memo.
//!
//! Chromagram colours are normalized by file-wide maxima, computed once per
//! file and reused by every tile of that file until the file's tiles are
//! cleared.
use vstd::prelude::*;
use crate::scheduler::TileLayer;
use crate::tile_store::{unselected, Selector, Tile, TileKey};

verus! {

/// The value recorded for `file_idx` in `s`: the latest entry for it.
pub open spec fn memo_get<V>(s: Seq<(usize, V)>, file_idx: usize) -> Option<V>
    decreases s.len(),
{
    if s.len() == 0 {
        None
    } else if s.last().0 == file_idx {
        Some(s.last().1)
    } else {
        memo_get(s.drop_last(), file_idx)
    }
}

/// Per-file memo of normalization values.
pub struct NormMemo<V> {
    entries: Vec<(usize, V)>,
}

impl<V> NormMemo<V> {
    /// Recorded entries, oldest first.
    pub closed spec fn entries(&self) -> Seq<(usize, V)> {
        self.entries@
    }

    /// The value recorded for `file_idx`, if any.
    pub open spec fn lookup(&self, file_idx: usize) -> Option<V> {
        memo_get(self.entries(), file_idx)
    }

    /// An empty memo.
    pub fn new() -> (r: Self)
        ensures
            forall|f: usize| #[trigger] r.lookup(f) is None,
    {
        NormMemo { entries: Vec::new() }
    }

    /// The value recorded for `file_idx`, if any.
    pub fn get(&self, file_idx: usize) -> (r: Option<&V>)
        ensures
            r is Some == self.lookup(file_idx) is Some,
            r is Some ==> *r->0 == self.lookup(file_idx)->0,
    {
        let mut i: usize = self.entries.len();
        proof {
            assert(self.entries@.take(i as int) =~= self.entries@);
        }
        while i > 0
            invariant
                i <= self.entries@.len(),
                memo_get(self.entries@, file_idx) == memo_get(self.entries@.take(i as int), file_idx),
            decreases i,
        {
            proof {
                assert(self.entries@.take(i as int).drop_last() =~= self.entries@.take(i - 1));
            }
            if self.entries[i - 1].0 == file_idx {
                return Some(&self.entries[i - 1].1);
            }
            i = i - 1;
        }
        None
    }

    /// Records `value` for `file_idx`; other files keep theirs.
    pub fn record(&mut self, file_idx: usize, value: V)
        ensures
            final(self).lookup(file_idx) == Some(value),
            forall|f: usize| f != file_idx ==> #[trigger] final(self).lookup(f) == old(self).lookup(f),
    {
        self.entries.push((file_idx, value));
        proof {
            assert(self.entries@.drop_last() =~= old(self).entries@);
        }
    }

    /// Forgets the value of `file_idx`; other files keep theirs.
    pub fn forget(&mut self, file_idx: usize)
        ensures
            final(self).lookup(file_idx) is None,
            forall|f: usize| f != file_idx ==> #[trigger] final(self).lookup(f) == old(self).lookup(f),
    {
        let ghost orig = self.entries@;
        let mut rest: Vec<(usize, V)> = Vec::new();
        std::mem::swap(&mut rest, &mut self.entries);
        let ghost mut i: int = 0;
        proof {
            assert(orig.skip(0) =~= orig);
        }
        while rest.len() > 0
            invariant
                0 <= i <= orig.len(),
                rest@ == orig.skip(i),
                memo_get(self.entries@, file_idx) is None,
                forall|f: usize| f != file_idx ==> #[trigger] memo_get(self.entries@, f) == memo_get(
                    orig.take(i),
                    f,
                ),
            decreases rest.len(),
        {
            let e = rest.remove(0);
            let ghost prev = self.entries@;
            proof {
                assert(e == orig[i]);
                assert(orig.take(i + 1).drop_last() =~= orig.take(i));
                assert(rest@ =~= orig.skip(i + 1));
            }
            let keep = e.0 != file_idx;
            if keep {
                self.entries.push(e);
                proof {
                    assert(self.entries@.drop_last() =~= prev);
                }
            }
            proof {
                let t = orig.take(i + 1);
                assert(t.last() == e);
                assert forall|f: usize| f != file_idx implies #[trigger] memo_get(self.entries@, f)
                    == memo_get(orig.take(i + 1), f) by {
                    assert(memo_get(prev, f) == memo_get(orig.take(i), f));
                    assert(memo_get(t, f) == if e.0 == f {
                        Some(e.1)
                    } else {
                        memo_get(orig.take(i), f)
                    });
                    if keep {
                        assert(self.entries@.last() == e);
                    }
                }
                if keep {
                    assert(self.entries@.last() == e);
                }
                i = i + 1;
            }
        }
        proof {
            assert(orig.take(i) =~= orig);
        }
    }

    /// Forgets every value.
    pub fn clear(&mut self)
        ensures
            forall|f: usize| #[trigger] final(self).lookup(f) is None,
    {
        self.entries.clear();
    }
}

/// Chromagram tiles (all at level 1) and the normalization memo of each file.
pub struct ChromaLayer<V> {
    pub tiles: TileLayer,
    pub norms: NormMemo<V>,
}

/// Key of chromagram tile `tile_idx` of file `file_idx`.
pub open spec fn chroma_key(file_idx: usize, tile_idx: usize) -> TileKey {
    TileKey { file_idx, lod: 1, tile_idx }
}

/// Key of chromagram tile `tile_idx` of file `file_idx`: level 1.
pub fn chroma_tile_key(file_idx: usize, tile_idx: usize) -> (r: TileKey)
    ensures
        r == chroma_key(file_idx, tile_idx),
{
    TileKey { file_idx, lod: 1, tile_idx }
}

impl<V> ChromaLayer<V> {
    /// An empty layer with the default budget.
    pub fn new() -> (r: Self)
        ensures
            r.tiles.wf(),
            r.tiles.stored() == Seq::<Tile>::empty(),
            r.tiles.pending() == Set::<TileKey>::empty(),
            forall|f: usize| #[trigger] r.norms.lookup(f) is None,
    {
        ChromaLayer { tiles: TileLayer::new(), norms: NormMemo::new() }
    }

    /// Drops the tiles, keys in flight and normalization of file `file_idx`,
    /// so that its next tile recomputes the normalization.
    pub fn clear_file(&mut self, file_idx: usize)
        requires
            old(self).tiles.wf(),
        ensures
            final(self).tiles.wf(),
            final(self).tiles.stored() == unselected(old(self).tiles.stored(), Selector::File(file_idx)),
            final(self).tiles.pending() == old(self).tiles.pending().filter(
                |k: TileKey| k.file_idx != file_idx,
            ),
            final(self).norms.lookup(file_idx) is None,
            forall|f: usize| f != file_idx ==> #[trigger] final(self).norms.lookup(f) == old(
                self,
            ).norms.lookup(f),
    {
        self.tiles.clear_file(file_idx);
        self.norms.forget(file_idx);
    }

    /// Drops every tile, key in flight and normalization.
    pub fn clear_all(&mut self)
        ensures
            final(self).tiles.wf(),
            final(self).tiles.stored() == Seq::<Tile>::empty(),
            final(self).tiles.pending() == Set::<TileKey>::empty(),
            forall|f: usize| #[trigger] final(self).norms.lookup(f) is None,
    {
        self.tiles.clear_all();
        self.norms.clear();
    }
}

} // verus!
