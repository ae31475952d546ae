//! Set of tile keys whose computation has been scheduled and not yet ended.
use vstd::prelude::*;
use crate::tile_store::TileKey;

verus! {

/// Keys currently being computed, each held once.
pub struct InFlightSet {
    keys: Vec<TileKey>,
}

impl View for InFlightSet {
    type V = Set<TileKey>;

    closed spec fn view(&self) -> Set<TileKey> {
        self.keys@.to_set()
    }
}

/// Whether a removal given by `only` and `drop_file` takes out `k`.
spec fn dropped(only: TileKey, drop_file: Option<usize>, k: TileKey) -> bool {
    match drop_file {
        Some(f) => k.file_idx == f,
        None => k == only,
    }
}

impl InFlightSet {
    /// An empty set.
    pub fn new() -> (r: Self)
        ensures
            r@ == Set::<TileKey>::empty(),
    {
        let r = InFlightSet { keys: Vec::new() };
        proof {
            assert(r.keys@.to_set() =~= Set::<TileKey>::empty());
        }
        r
    }

    /// Whether `k` is in flight.
    pub fn contains(&self, k: &TileKey) -> (r: bool)
        ensures
            r == self@.contains(*k),
    {
        let mut i: usize = 0;
        while i < self.keys.len()
            invariant
                i <= self.keys@.len(),
                forall|j: int| 0 <= j < i ==> self.keys@[j] != *k,
            decreases self.keys@.len() - i,
        {
            if self.keys[i] == *k {
                proof {
                    assert(self.keys@.contains(*k));
                }
                return true;
            }
            i += 1;
        }
        false
    }

    /// Marks `k` in flight.
    pub fn insert(&mut self, k: TileKey)
        ensures
            final(self)@ == old(self)@.insert(k),
    {
        if !self.contains(&k) {
            self.keys.push(k);
            proof {
                assert(self.keys@.to_set() =~= old(self).keys@.to_set().insert(k)) by {
                    assert forall|x: TileKey| self.keys@.contains(x) implies old(self).keys@.contains(x)
                        || x == k by {
                        let j = choose|j: int| 0 <= j < self.keys@.len() && self.keys@[j] == x;
                        if j < old(self).keys@.len() {
                            assert(old(self).keys@[j] == x);
                        }
                    }
                    assert forall|x: TileKey| old(self).keys@.contains(x) implies self.keys@.contains(x) by {
                        let j = choose|j: int| 0 <= j < old(self).keys@.len() && old(self).keys@[j] == x;
                        assert(self.keys@[j] == x);
                    }
                    assert(self.keys@[self.keys@.len() - 1] == k);
                }
            }
        } else {
            proof {
                assert(old(self)@.insert(k) =~= old(self)@);
            }
        }
    }

    /// Takes out every key for which `drop_file` is `Some(f)` and the key's
    /// file is `f`, or every key equal to `only` when `drop_file` is `None`.
    fn retain_where(&mut self, only: TileKey, drop_file: Option<usize>)
        ensures
            forall|x: TileKey| #[trigger]
                final(self)@.contains(x) <==> (old(self)@.contains(x) && !dropped(only, drop_file, x)),
    {
        let ghost orig = self.keys@;
        let mut kept: Vec<TileKey> = Vec::new();
        let mut i: usize = 0;
        while i < self.keys.len()
            invariant
                i <= self.keys@.len(),
                self.keys@ == orig,
                forall|x: TileKey| #[trigger]
                    kept@.contains(x) <==> (orig.take(i as int).contains(x) && !dropped(only, drop_file, x)),
            decreases self.keys@.len() - i,
        {
            let k = self.keys[i];
            let is_gone = match drop_file {
                Some(f) => k.file_idx == f,
                None => k == only,
            };
            let ghost before = kept@;
            if !is_gone {
                kept.push(k);
            }
            proof {
                assert(orig.take(i + 1) =~= orig.take(i as int).push(k));
                assert(is_gone == dropped(only, drop_file, k));
                assert(orig.take(i + 1)[i as int] == k);
                assert forall|x: TileKey| #[trigger]
                    kept@.contains(x) <==> (orig.take(i + 1).contains(x) && !dropped(only, drop_file, x)) by {
                    if kept@.contains(x) && !before.contains(x) {
                        let j = choose|j: int| 0 <= j < kept@.len() && kept@[j] == x;
                        assert(j == before.len());
                    }
                    if before.contains(x) {
                        let j = choose|j: int| 0 <= j < before.len() && before[j] == x;
                        assert(kept@[j] == x);
                    }
                    if orig.take(i + 1).contains(x) && !orig.take(i as int).contains(x) {
                        let j = choose|j: int| 0 <= j < i + 1 && #[trigger] orig.take(i + 1)[j] == x;
                        if j < i {
                            assert(orig.take(i as int)[j] == x);
                        }
                    }
                    if orig.take(i as int).contains(x) {
                        let j = choose|j: int| 0 <= j < i && #[trigger] orig.take(i as int)[j] == x;
                        assert(orig.take(i + 1)[j] == x);
                    }
                    if !is_gone && x == k {
                        assert(kept@[kept@.len() - 1] == x);
                    }
                }
            }
            i += 1;
        }
        proof {
            assert(orig.take(i as int) =~= orig);
        }
        self.keys = kept;
    }

    /// Ends the computation of `k`.
    pub fn remove(&mut self, k: &TileKey)
        ensures
            final(self)@ == old(self)@.remove(*k),
    {
        self.retain_where(*k, None);
        proof {
            assert(self@ =~= old(self)@.remove(*k));
        }
    }

    /// Ends the computation of every key of file `file_idx`.
    pub fn remove_file(&mut self, file_idx: usize)
        ensures
            final(self)@ == old(self)@.filter(|k: TileKey| k.file_idx != file_idx),
    {
        self.retain_where(TileKey { file_idx, lod: 0, tile_idx: 0 }, Some(file_idx));
        proof {
            assert(self@ =~= old(self)@.filter(|k: TileKey| k.file_idx != file_idx));
        }
    }

    /// Ends every computation.
    pub fn clear(&mut self)
        ensures
            final(self)@ == Set::<TileKey>::empty(),
    {
        self.keys.clear();
        proof {
            assert(self.keys@.to_set() =~= Set::<TileKey>::empty());
        }
    }
}

} // verus!
