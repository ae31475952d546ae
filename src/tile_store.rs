//! Byte-budgeted tile store with least-recently-used eviction.
//!
//! The store keeps its tiles in one vector ordered by recency: the front is
//! the least recently used tile, the back the most recently used one. Keys
//! are unique and `total_bytes` is the sum of the tiles' pixel storage.
use vstd::prelude::*;
use crate::render::PreRendered;

verus! {

/// Default byte budget of one store: about 120 MB of pixel data.
pub const MAX_BYTES: usize = 125829120;

/// Identifies a tile: file, level of detail and tile index at that level.
#[derive(Clone, Copy, Debug, PartialEq, Eq, Hash, Structural)]
pub struct TileKey {
    pub file_idx: usize,
    pub lod: u8,
    pub tile_idx: usize,
}

/// A rendered tile together with the coordinates it was rendered for.
pub struct Tile {
    pub tile_idx: usize,
    pub file_idx: usize,
    pub lod: u8,
    pub rendered: PreRendered,
}

/// Key under which a tile is stored.
pub open spec fn key_of(t: Tile) -> TileKey {
    TileKey { file_idx: t.file_idx, lod: t.lod, tile_idx: t.tile_idx }
}

/// Pixel storage of a tile, in bytes.
pub open spec fn byte_len(t: Tile) -> nat {
    t.rendered.spec_byte_len()
}

/// Sum of the pixel storage of a sequence of tiles.
pub open spec fn total(s: Seq<Tile>) -> nat
    decreases s.len(),
{
    if s.len() == 0 {
        0
    } else {
        total(s.drop_last()) + byte_len(s.last())
    }
}

/// No two tiles of `s` share a key.
pub open spec fn keys_unique(s: Seq<Tile>) -> bool {
    forall|i: int, j: int| 0 <= i < j < s.len() ==> key_of(#[trigger] s[i]) != key_of(#[trigger] s[j])
}

/// Some tile of `s` has key `k`.
pub open spec fn has_key(s: Seq<Tile>, k: TileKey) -> bool {
    exists|i: int| 0 <= i < s.len() && key_of(#[trigger] s[i]) == k
}

/// Which tiles a bulk removal takes out.
#[derive(Clone, Copy, Debug, PartialEq, Eq, Structural)]
pub enum Selector {
    /// The tile with this key.
    Key(TileKey),
    /// Every tile of this file.
    File(usize),
    /// Tiles of one file and level whose index is more than `keep_radius` from `center_tile`.
    Far { file_idx: usize, lod: u8, center_tile: usize, keep_radius: usize },
}

/// Distance between two tile indices.
pub open spec fn index_distance(a: int, b: int) -> int {
    if a >= b {
        a - b
    } else {
        b - a
    }
}

/// Whether `sel` takes out the tile stored under `k`.
pub open spec fn selects(sel: Selector, k: TileKey) -> bool {
    match sel {
        Selector::Key(key) => k == key,
        Selector::File(f) => k.file_idx == f,
        Selector::Far { file_idx, lod, center_tile, keep_radius } => k.file_idx == file_idx
            && k.lod == lod && index_distance(k.tile_idx as int, center_tile as int)
            > keep_radius as int,
    }
}

/// Tiles of `s` that `sel` takes out, in their order.
pub open spec fn selected(s: Seq<Tile>, sel: Selector) -> Seq<Tile> {
    s.filter(|t: Tile| selects(sel, key_of(t)))
}

/// Tiles of `s` that `sel` leaves, in their order.
pub open spec fn unselected(s: Seq<Tile>, sel: Selector) -> Seq<Tile> {
    s.filter(|t: Tile| !selects(sel, key_of(t)))
}

/// Drops least recently used tiles from the front of `s` while the tiles
/// left plus `incoming` bytes would exceed `max` and any tile is left.
pub open spec fn evict_oldest(s: Seq<Tile>, incoming: nat, max: nat) -> Seq<Tile>
    decreases s.len(),
{
    if s.len() > 0 && total(s) + incoming > max {
        evict_oldest(s.drop_first(), incoming, max)
    } else {
        s
    }
}

/// Contents after inserting `t` under a budget of `max` bytes: any tile with
/// the same key goes, then the oldest tiles until `t` fits (or none is left),
/// then `t` becomes the most recently used tile.
pub open spec fn after_insert(s: Seq<Tile>, t: Tile, max: nat) -> Seq<Tile> {
    evict_oldest(unselected(s, Selector::Key(key_of(t))), byte_len(t), max).push(t)
}

/// Contents after marking the tile under `k` most recently used (no change
/// when no tile has that key).
pub open spec fn touched(s: Seq<Tile>, k: TileKey) -> Seq<Tile> {
    unselected(s, Selector::Key(k)) + selected(s, Selector::Key(k))
}

/// Number of tiles `0..n` of level 1 of `file_idx` present in `s`.
pub open spec fn ready_count(s: Seq<Tile>, file_idx: usize, n: nat) -> nat
    decreases n,
{
    if n == 0 {
        0
    } else {
        ready_count(s, file_idx, (n - 1) as nat) + if has_key(
            s,
            TileKey { file_idx, lod: 1, tile_idx: (n - 1) as usize },
        ) {
            1nat
        } else {
            0nat
        }
    }
}

/// Appending a tile adds its bytes to the total.
pub proof fn lemma_total_push(s: Seq<Tile>, t: Tile)
    ensures
        total(s.push(t)) == total(s) + byte_len(t),
{
    assert(s.push(t).drop_last() =~= s);
}

/// The total is the first tile's bytes plus the total of the rest.
pub proof fn lemma_total_drop_first(s: Seq<Tile>)
    requires
        s.len() > 0,
    ensures
        total(s) == byte_len(s[0]) + total(s.drop_first()),
    decreases s.len(),
{
    if s.len() > 1 {
        lemma_total_drop_first(s.drop_last());
        assert(s.drop_last().drop_first() =~= s.drop_first().drop_last());
    } else {
        assert(s.drop_last() =~= Seq::<Tile>::empty());
        assert(s.drop_first() =~= Seq::<Tile>::empty());
    }
}

/// Appending a tile with a new key keeps keys unique.
pub proof fn lemma_unique_push(s: Seq<Tile>, t: Tile)
    requires
        keys_unique(s),
        !has_key(s, key_of(t)),
    ensures
        keys_unique(s.push(t)),
{
    let s2 = s.push(t);
    assert forall|i: int, j: int| 0 <= i < j < s2.len() implies key_of(s2[i]) != key_of(s2[j]) by {
        if j == s.len() {
            assert(s2[i] == s[i]);
        } else {
            assert(s2[i] == s[i] && s2[j] == s[j]);
        }
    }
}

/// Dropping the oldest tile keeps keys unique.
pub proof fn lemma_unique_drop_first(s: Seq<Tile>)
    requires
        keys_unique(s),
        s.len() > 0,
    ensures
        keys_unique(s.drop_first()),
{
    let d = s.drop_first();
    assert forall|i: int, j: int| 0 <= i < j < d.len() implies key_of(d[i]) != key_of(d[j]) by {
        assert(d[i] == s[i + 1] && d[j] == s[j + 1]);
    }
}

/// How appending one tile extends the selected and unselected parts.
pub proof fn lemma_selected_push(s: Seq<Tile>, t: Tile, sel: Selector)
    ensures
        selected(s.push(t), sel) == if selects(sel, key_of(t)) {
            selected(s, sel).push(t)
        } else {
            selected(s, sel)
        },
        unselected(s.push(t), sel) == if selects(sel, key_of(t)) {
            unselected(s, sel)
        } else {
            unselected(s, sel).push(t)
        },
{
    reveal(Seq::filter);
    assert(s.push(t).drop_last() =~= s);
}

/// Nothing is selected from, or left of, an empty sequence.
pub proof fn lemma_selected_empty(sel: Selector)
    ensures
        selected(Seq::<Tile>::empty(), sel) == Seq::<Tile>::empty(),
        unselected(Seq::<Tile>::empty(), sel) == Seq::<Tile>::empty(),
{
    reveal(Seq::filter);
}

/// When no tile is selected, removal changes nothing.
pub proof fn lemma_unselected_all(s: Seq<Tile>, sel: Selector)
    requires
        forall|i: int| 0 <= i < s.len() ==> !selects(sel, key_of(#[trigger] s[i])),
    ensures
        unselected(s, sel) == s,
        selected(s, sel) == Seq::<Tile>::empty(),
    decreases s.len(),
{
    if s.len() == 0 {
        lemma_selected_empty(sel);
    } else {
        lemma_unselected_all(s.drop_last(), sel);
        lemma_selected_push(s.drop_last(), s.last(), sel);
        assert(s.drop_last().push(s.last()) =~= s);
    }
}

/// After a touch of a present key, that key's tile is the most recently used.
pub proof fn lemma_touched_last(s: Seq<Tile>, k: TileKey)
    requires
        keys_unique(s),
        has_key(s, k),
    ensures
        touched(s, k).len() == s.len(),
        key_of(touched(s, k).last()) == k,
        s.contains(touched(s, k).last()),
{
    let i = choose|i: int| 0 <= i < s.len() && key_of(#[trigger] s[i]) == k;
    let sel = Selector::Key(k);
    let pre = s.take(i);
    let post = s.skip(i + 1);
    assert forall|j: int| 0 <= j < pre.len() implies !selects(sel, key_of(#[trigger] pre[j])) by {
        assert(pre[j] == s[j]);
    }
    assert forall|j: int| 0 <= j < post.len() implies !selects(sel, key_of(#[trigger] post[j])) by {
        assert(post[j] == s[i + 1 + j]);
    }
    lemma_unselected_all(pre, sel);
    lemma_unselected_all(post, sel);
    lemma_selected_push(pre, s[i], sel);
    assert(s =~= pre.push(s[i]) + post);
    reveal(Seq::filter);
    Seq::filter_distributes_over_add(pre.push(s[i]), post, |t: Tile| selects(sel, key_of(t)));
    Seq::filter_distributes_over_add(pre.push(s[i]), post, |t: Tile| !selects(sel, key_of(t)));
    assert(selected(s, sel) =~= seq![s[i]]);
    assert(unselected(s, sel) =~= pre + post);
}

/// Eviction stops with the incoming bytes fitting, or with nothing left.
pub proof fn lemma_evict_oldest_fits(s: Seq<Tile>, incoming: nat, max: nat)
    ensures
        evict_oldest(s, incoming, max).len() == 0 || total(evict_oldest(s, incoming, max))
            + incoming <= max,
    decreases s.len(),
{
    if s.len() > 0 && total(s) + incoming > max {
        lemma_evict_oldest_fits(s.drop_first(), incoming, max);
    }
}

/// Byte budget after an insert: the store holds exactly the bytes of its
/// tiles (`total`), and whenever the inserted tile alone fits the budget,
/// the whole store fits it afterwards, whatever it held before.
pub proof fn lemma_insert_within_budget(s: Seq<Tile>, t: Tile, max: nat)
    requires
        byte_len(t) <= max,
    ensures
        total(after_insert(s, t, max)) <= max,
{
    let e = evict_oldest(unselected(s, Selector::Key(key_of(t))), byte_len(t), max);
    lemma_evict_oldest_fits(unselected(s, Selector::Key(key_of(t))), byte_len(t), max);
    lemma_total_push(e, t);
    if e.len() == 0 {
        assert(total(e) == 0);
    }
}

proof fn lemma_insert_fresh(s: Seq<Tile>, t: Tile, max: nat)
    requires
        forall|i: int| 0 <= i < s.len() ==> key_of(#[trigger] s[i]) != key_of(t),
    ensures
        after_insert(s, t, max) == evict_oldest(s, byte_len(t), max).push(t),
{
    lemma_unselected_all(s, Selector::Key(key_of(t)));
}

proof fn lemma_total_two(a: Tile, b: Tile)
    ensures
        total(seq![a]) == byte_len(a),
        total(seq![a, b]) == byte_len(a) + byte_len(b),
{
    lemma_total_push(Seq::<Tile>::empty(), a);
    assert(Seq::<Tile>::empty().push(a) =~= seq![a]);
    lemma_total_push(seq![a], b);
    assert(seq![a].push(b) =~= seq![a, b]);
}

/// Eviction order: inserting A, B, C in turn into an empty store, when any
/// two of them fit the budget but all three do not, evicts A and keeps B
/// and C, in that order of recency.
pub proof fn lemma_eviction_order(a: Tile, b: Tile, c: Tile, max: nat)
    requires
        key_of(a) != key_of(b),
        key_of(a) != key_of(c),
        key_of(b) != key_of(c),
        byte_len(a) + byte_len(b) <= max,
        byte_len(a) + byte_len(c) <= max,
        byte_len(b) + byte_len(c) <= max,
        byte_len(a) + byte_len(b) + byte_len(c) > max,
    ensures
        after_insert(
            after_insert(after_insert(Seq::<Tile>::empty(), a, max), b, max),
            c,
            max,
        ) == seq![b, c],
{
    lemma_total_two(a, b);
    lemma_total_two(b, c);
    let s0 = Seq::<Tile>::empty();
    lemma_insert_fresh(s0, a, max);
    assert(s0.push(a) =~= seq![a]);
    let s1 = after_insert(s0, a, max);
    assert(s1 == seq![a]);
    assert forall|i: int| 0 <= i < s1.len() implies key_of(#[trigger] s1[i]) != key_of(b) by {}
    lemma_insert_fresh(s1, b, max);
    assert(seq![a].push(b) =~= seq![a, b]);
    let s2 = after_insert(s1, b, max);
    assert(s2 == seq![a, b]);
    assert forall|i: int| 0 <= i < s2.len() implies key_of(#[trigger] s2[i]) != key_of(c) by {}
    lemma_insert_fresh(s2, c, max);
    assert(seq![a, b].drop_first() =~= seq![b]);
    assert(evict_oldest(seq![a, b], byte_len(c), max) == evict_oldest(seq![b], byte_len(c), max));
    assert(seq![b].push(c) =~= seq![b, c]);
}

/// Recency is kept: after inserting A and B and then touching A, an insert
/// of C that forces one eviction evicts B and keeps A.
pub proof fn lemma_recency_preserved(a: Tile, b: Tile, c: Tile, max: nat)
    requires
        key_of(a) != key_of(b),
        key_of(a) != key_of(c),
        key_of(b) != key_of(c),
        byte_len(a) + byte_len(b) <= max,
        byte_len(a) + byte_len(c) <= max,
        byte_len(a) + byte_len(b) + byte_len(c) > max,
    ensures
        after_insert(
            touched(after_insert(after_insert(Seq::<Tile>::empty(), a, max), b, max), key_of(a)),
            c,
            max,
        ) == seq![a, c],
{
    lemma_total_two(a, b);
    lemma_total_two(b, a);
    let s0 = Seq::<Tile>::empty();
    lemma_insert_fresh(s0, a, max);
    assert(s0.push(a) =~= seq![a]);
    let s1 = after_insert(s0, a, max);
    assert(s1 == seq![a]);
    assert forall|i: int| 0 <= i < s1.len() implies key_of(#[trigger] s1[i]) != key_of(b) by {}
    lemma_insert_fresh(s1, b, max);
    assert(seq![a].push(b) =~= seq![a, b]);
    let s2 = after_insert(s1, b, max);
    assert(s2 == seq![a, b]);
    let ka = Selector::Key(key_of(a));
    lemma_selected_empty(ka);
    lemma_selected_push(s0, a, ka);
    lemma_selected_push(seq![a], b, ka);
    assert(s0.push(a) =~= seq![a]);
    let s3 = touched(s2, key_of(a));
    assert(s3 =~= seq![b, a]);
    assert forall|i: int| 0 <= i < s3.len() implies key_of(#[trigger] s3[i]) != key_of(c) by {}
    lemma_insert_fresh(s3, c, max);
    assert(seq![b, a].drop_first() =~= seq![a]);
    assert(evict_oldest(seq![b, a], byte_len(c), max) == evict_oldest(seq![a], byte_len(c), max));
    assert(seq![a].push(c) =~= seq![a, c]);
}

/// Removal keeps only keys that were there.
pub proof fn lemma_filter_keys(s: Seq<Tile>, sel: Selector, k: TileKey)
    ensures
        has_key(unselected(s, sel), k) ==> has_key(s, k),
        has_key(selected(s, sel), k) ==> has_key(s, k),
{
    let u = unselected(s, sel);
    let d = selected(s, sel);
    if has_key(u, k) {
        let i = choose|i: int| 0 <= i < u.len() && key_of(#[trigger] u[i]) == k;
        assert(u.contains(u[i]));
        s.lemma_filter_contains_rev(|t: Tile| !selects(sel, key_of(t)), u[i]);
        let j = choose|j: int| 0 <= j < s.len() && s[j] == u[i];
        assert(key_of(s[j]) == k);
    }
    if has_key(d, k) {
        let i = choose|i: int| 0 <= i < d.len() && key_of(#[trigger] d[i]) == k;
        assert(d.contains(d[i]));
        s.lemma_filter_contains_rev(|t: Tile| selects(sel, key_of(t)), d[i]);
        let j = choose|j: int| 0 <= j < s.len() && s[j] == d[i];
        assert(key_of(s[j]) == k);
    }
}

/// Eviction keeps only keys that were there.
pub proof fn lemma_evict_keys(s: Seq<Tile>, incoming: nat, max: nat, k: TileKey)
    ensures
        has_key(evict_oldest(s, incoming, max), k) ==> has_key(s, k),
    decreases s.len(),
{
    if s.len() > 0 && total(s) + incoming > max {
        lemma_evict_keys(s.drop_first(), incoming, max, k);
        if has_key(s.drop_first(), k) {
            let i = choose|i: int| 0 <= i < s.drop_first().len() && key_of(#[trigger] s.drop_first()[i]) == k;
            assert(s[i + 1] == s.drop_first()[i]);
        }
    }
}

/// The keys after an insert are the inserted key and keys that were there.
pub proof fn lemma_insert_keys(s: Seq<Tile>, t: Tile, max: nat, k: TileKey)
    ensures
        has_key(after_insert(s, t, max), k) ==> has_key(s, k) || k == key_of(t),
{
    let u = unselected(s, Selector::Key(key_of(t)));
    let e = evict_oldest(u, byte_len(t), max);
    if has_key(e.push(t), k) && k != key_of(t) {
        let i = choose|i: int| 0 <= i < e.push(t).len() && key_of(#[trigger] e.push(t)[i]) == k;
        assert(e.push(t)[i] == e[i]);
        lemma_evict_keys(u, byte_len(t), max, k);
        lemma_filter_keys(s, Selector::Key(key_of(t)), k);
    }
}

/// A touch keeps the same keys.
pub proof fn lemma_touched_keys(s: Seq<Tile>, k: TileKey, x: TileKey)
    ensures
        has_key(touched(s, k), x) ==> has_key(s, x),
{
    let u = unselected(s, Selector::Key(k));
    let d = selected(s, Selector::Key(k));
    lemma_filter_keys(s, Selector::Key(k), x);
    if has_key(u + d, x) {
        let i = choose|i: int| 0 <= i < (u + d).len() && key_of(#[trigger] (u + d)[i]) == x;
        if i < u.len() {
            assert((u + d)[i] == u[i]);
        } else {
            assert((u + d)[i] == d[i - u.len()]);
        }
    }
}

/// The tiles of `s` are listed in order of recency and `total_bytes`
/// accounts for all of them.
pub open spec fn store_wf(s: Seq<Tile>, total_bytes: usize) -> bool {
    &&& keys_unique(s)
    &&& total_bytes as nat == total(s)
}

/// Byte-budgeted LRU store of tiles.
pub struct TileCache {
    tiles: Vec<Tile>,
    total_bytes: usize,
    max_bytes: usize,
}

impl View for TileCache {
    type V = Seq<Tile>;

    /// Tiles from least to most recently used.
    closed spec fn view(&self) -> Seq<Tile> {
        self.tiles@
    }
}

impl Selector {
    /// Whether the selector takes out the tile stored under `k`.
    pub fn matches(&self, k: &TileKey) -> (r: bool)
        ensures
            r == selects(*self, *k),
    {
        match self {
            Selector::Key(key) => *k == *key,
            Selector::File(f) => k.file_idx == *f,
            Selector::Far { file_idx, lod, center_tile, keep_radius } => {
                let dist = if k.tile_idx >= *center_tile {
                    k.tile_idx - *center_tile
                } else {
                    *center_tile - k.tile_idx
                };
                k.file_idx == *file_idx && k.lod == *lod && dist > *keep_radius
            },
        }
    }
}

impl Tile {
    /// Key under which this tile is stored.
    pub fn key(&self) -> (r: TileKey)
        ensures
            r == key_of(*self),
    {
        TileKey { file_idx: self.file_idx, lod: self.lod, tile_idx: self.tile_idx }
    }
}

impl TileCache {
    /// Well-formedness: unique keys and exact byte accounting.
    pub closed spec fn wf(&self) -> bool {
        store_wf(self.tiles@, self.total_bytes)
    }

    /// Byte budget of this store.
    pub closed spec fn spec_max_bytes(&self) -> nat {
        self.max_bytes as nat
    }

    /// Bytes of pixel storage currently held.
    pub closed spec fn spec_total_bytes(&self) -> nat {
        self.total_bytes as nat
    }

    /// An empty store with the default budget of `MAX_BYTES`.
    pub fn new() -> (r: Self)
        ensures
            r.wf(),
            r@ == Seq::<Tile>::empty(),
            r.spec_max_bytes() == MAX_BYTES,
    {
        TileCache { tiles: Vec::new(), total_bytes: 0, max_bytes: MAX_BYTES }
    }

    /// An empty store with a budget of `max_bytes`.
    pub fn with_max_bytes(max_bytes: usize) -> (r: Self)
        ensures
            r.wf(),
            r@ == Seq::<Tile>::empty(),
            r.spec_max_bytes() == max_bytes,
    {
        TileCache { tiles: Vec::new(), total_bytes: 0, max_bytes }
    }

    /// Byte budget of this store.
    pub fn max_bytes(&self) -> (r: usize)
        ensures
            r == self.spec_max_bytes(),
    {
        self.max_bytes
    }

    /// Bytes of pixel storage currently held: the sum over all tiles.
    pub fn total_bytes(&self) -> (r: usize)
        requires
            self.wf(),
        ensures
            r == self.spec_total_bytes(),
            r == total(self@),
    {
        self.total_bytes
    }

    /// Number of tiles held.
    pub fn len(&self) -> (r: usize)
        ensures
            r == self@.len(),
    {
        self.tiles.len()
    }

    /// Keys of the tiles from least to most recently used.
    pub fn lru_keys(&self) -> (r: Vec<TileKey>)
        ensures
            r@ == self@.map_values(|t: Tile| key_of(t)),
    {
        let mut r: Vec<TileKey> = Vec::new();
        let mut i: usize = 0;
        while i < self.tiles.len()
            invariant
                i <= self.tiles@.len(),
                r@ == self.tiles@.take(i as int).map_values(|t: Tile| key_of(t)),
            decreases self.tiles@.len() - i,
        {
            r.push(self.tiles[i].key());
            assert(self.tiles@.take(i + 1) =~= self.tiles@.take(i as int).push(self.tiles@[i as int]));
            i += 1;
        }
        assert(self.tiles@.take(i as int) =~= self.tiles@);
        r
    }

    /// Index of the tile with key `k`, if any.
    fn position(&self, k: &TileKey) -> (r: Option<usize>)
        ensures
            match r {
                Some(i) => i < self@.len() && key_of(self@[i as int]) == *k,
                None => !has_key(self@, *k),
            },
    {
        let mut i: usize = 0;
        while i < self.tiles.len()
            invariant
                i <= self.tiles@.len(),
                forall|j: int| 0 <= j < i ==> key_of(#[trigger] self.tiles@[j]) != *k,
            decreases self.tiles@.len() - i,
        {
            if self.tiles[i].key() == *k {
                return Some(i);
            }
            i += 1;
        }
        None
    }

    /// Whether a tile is stored under `k`. Does not change recency.
    pub fn contains(&self, k: &TileKey) -> (r: bool)
        ensures
            r == has_key(self@, *k),
    {
        self.position(k).is_some()
    }

    /// The tile stored under (`file_idx`, `lod`, `tile_idx`), if any.
    /// Does not change recency.
    pub fn get(&self, file_idx: usize, lod: u8, tile_idx: usize) -> (r: Option<&Tile>)
        requires
            self.wf(),
        ensures
            r is Some == has_key(self@, TileKey { file_idx, lod, tile_idx }),
            r is Some ==> self@.contains(*r->0)
                && key_of(*r->0) == (TileKey { file_idx, lod, tile_idx }),
    {
        let k = TileKey { file_idx, lod, tile_idx };
        match self.position(&k) {
            Some(i) => Some(&self.tiles[i]),
            None => None,
        }
    }

    /// Stores `rendered` as the tile (`file_idx`, `lod`, `tile_idx`).
    ///
    /// A tile already under that key is replaced. Least recently used tiles
    /// are evicted first, while the held bytes plus the new tile's bytes
    /// exceed the budget and any tile is left; the new tile then becomes the
    /// most recently used. A tile that fits the budget leaves the store
    /// within it.
    pub fn insert(&mut self, file_idx: usize, lod: u8, tile_idx: usize, rendered: PreRendered)
        requires
            old(self).wf(),
        ensures
            final(self).wf(),
            final(self)@ == after_insert(
                old(self)@,
                Tile { tile_idx, file_idx, lod, rendered },
                old(self).spec_max_bytes(),
            ),
            final(self).spec_max_bytes() == old(self).spec_max_bytes(),
            rendered.spec_byte_len() <= old(self).spec_max_bytes() ==> final(self).spec_total_bytes()
                <= final(self).spec_max_bytes(),
            final(self)@.len() > 0,
            final(self)@.last() == (Tile { tile_idx, file_idx, lod, rendered }),
    {
        let key = TileKey { file_idx, lod, tile_idx };
        let bytes = rendered.byte_len();
        let ghost t = Tile { tile_idx, file_idx, lod, rendered };
        let _ = self.remove_selected(&Selector::Key(key));
        let ghost base = self.tiles@;
        while (self.total_bytes > self.max_bytes || bytes > self.max_bytes - self.total_bytes)
            && self.tiles.len() > 0
            invariant
                self.wf(),
                self.max_bytes == old(self).max_bytes,
                evict_oldest(self.tiles@, bytes as nat, self.max_bytes as nat) == evict_oldest(
                    base,
                    bytes as nat,
                    self.max_bytes as nat,
                ),
                forall|j: int| 0 <= j < self.tiles@.len() ==> key_of(#[trigger] self.tiles@[j]) != key,
            decreases self.tiles@.len(),
        {
            let ghost prev = self.tiles@;
            proof {
                lemma_total_drop_first(prev);
                lemma_unique_drop_first(prev);
            }
            let oldest = self.tiles.remove(0);
            self.total_bytes = self.total_bytes - oldest.rendered.byte_len();
            proof {
                assert forall|j: int| 0 <= j < self.tiles@.len() implies key_of(#[trigger] self.tiles@[j]) != key by {
                    assert(self.tiles@[j] == prev[j + 1]);
                }
            }
        }
        proof {
            assert(!has_key(self.tiles@, key));
            lemma_unique_push(self.tiles@, t);
            lemma_total_push(self.tiles@, t);
        }
        self.total_bytes = self.total_bytes + bytes;
        self.tiles.push(Tile { tile_idx, file_idx, lod, rendered });
    }

    /// Removes every tile of (`file_idx`, `lod`) whose index is more than
    /// `keep_radius` away from `center_tile`, whatever its recency.
    pub fn evict_far_from(&mut self, file_idx: usize, lod: u8, center_tile: usize, keep_radius: usize)
        requires
            old(self).wf(),
        ensures
            final(self).wf(),
            final(self)@ == unselected(
                old(self)@,
                Selector::Far { file_idx, lod, center_tile, keep_radius },
            ),
            final(self).spec_max_bytes() == old(self).spec_max_bytes(),
    {
        let _ = self.remove_selected(&Selector::Far { file_idx, lod, center_tile, keep_radius });
    }

    /// Removes every tile of file `file_idx`.
    pub fn clear_for_file(&mut self, file_idx: usize)
        requires
            old(self).wf(),
        ensures
            final(self).wf(),
            final(self)@ == unselected(old(self)@, Selector::File(file_idx)),
            final(self).spec_max_bytes() == old(self).spec_max_bytes(),
    {
        let _ = self.remove_selected(&Selector::File(file_idx));
    }

    /// Removes every tile.
    pub fn clear_all(&mut self)
        ensures
            final(self).wf(),
            final(self)@ == Seq::<Tile>::empty(),
            final(self).spec_max_bytes() == old(self).spec_max_bytes(),
    {
        self.tiles.clear();
        self.total_bytes = 0;
    }

    /// Number of level-1 tiles `0..n_tiles` of file `file_idx` held.
    pub fn tiles_ready(&self, file_idx: usize, n_tiles: usize) -> (r: usize)
        ensures
            r == ready_count(self@, file_idx, n_tiles as nat),
    {
        let mut count: usize = 0;
        let mut i: usize = 0;
        while i < n_tiles
            invariant
                i <= n_tiles,
                count == ready_count(self@, file_idx, i as nat),
                count <= i,
            decreases n_tiles - i,
        {
            if self.contains(&TileKey { file_idx, lod: 1, tile_idx: i }) {
                count = count + 1;
            }
            i = i + 1;
        }
        count
    }

    /// Marks the tile under `k` most recently used; no change when absent.
    pub fn touch(&mut self, k: TileKey)
        requires
            old(self).wf(),
        ensures
            final(self).wf(),
            final(self)@ == touched(old(self)@, k),
            final(self).spec_max_bytes() == old(self).spec_max_bytes(),
            final(self).spec_total_bytes() == old(self).spec_total_bytes(),
    {
        let sel = Selector::Key(k);
        let mut removed = self.remove_selected(&sel);
        let ghost kept = self.tiles@;
        proof {
            if removed@.len() > 1 {
                assert(key_of(removed@[0]) == key_of(removed@[1]));
            }
        }
        if removed.len() > 0 {
            let t = removed.pop().unwrap();
            proof {
                assert(removed@.len() == 0);
                assert(!has_key(kept, k)) by {
                    if has_key(kept, k) {
                        let j = choose|j: int| 0 <= j < kept.len() && key_of(#[trigger] kept[j]) == k;
                        reveal(Seq::filter);
                        old(self)@.lemma_filter_pred(|t: Tile| !selects(sel, key_of(t)), j);
                    }
                }
                lemma_unique_push(kept, t);
                lemma_total_push(kept, t);
                lemma_total_push(Seq::<Tile>::empty(), t);
                assert(selected(old(self)@, sel) =~= seq![t]);
                assert(kept.push(t) =~= kept + seq![t]);
            }
            self.total_bytes = self.total_bytes + t.rendered.byte_len();
            self.tiles.push(t);
        } else {
            proof {
                assert(kept + selected(old(self)@, sel) =~= kept);
            }
        }
    }

    /// Looks up the tile under (`file_idx`, `lod`, `tile_idx`) and, when
    /// present, marks it most recently used. A miss changes nothing.
    pub fn borrow(&mut self, file_idx: usize, lod: u8, tile_idx: usize) -> (r: Option<&Tile>)
        requires
            old(self).wf(),
        ensures
            final(self).wf(),
            final(self)@ == touched(old(self)@, TileKey { file_idx, lod, tile_idx }),
            final(self).spec_max_bytes() == old(self).spec_max_bytes(),
            final(self).spec_total_bytes() == old(self).spec_total_bytes(),
            r is Some == has_key(old(self)@, TileKey { file_idx, lod, tile_idx }),
            r is Some ==> old(self)@.contains(*r->0)
                && key_of(*r->0) == (TileKey { file_idx, lod, tile_idx }),
    {
        let k = TileKey { file_idx, lod, tile_idx };
        if !self.contains(&k) {
            proof {
                lemma_unselected_all(old(self)@, Selector::Key(k));
                assert(touched(old(self)@, k) =~= old(self)@);
            }
            return None;
        }
        self.touch(k);
        let n = self.tiles.len();
        proof {
            assert(has_key(old(self)@, k));
            lemma_touched_last(old(self)@, k);
        }
        Some(&self.tiles[n - 1])
    }

    /// Takes out every tile that `sel` selects, keeping the order of the
    /// rest; returns the tiles taken out, in their order.
    pub fn remove_selected(&mut self, sel: &Selector) -> (removed: Vec<Tile>)
        requires
            old(self).wf(),
        ensures
            final(self).wf(),
            final(self)@ == unselected(old(self)@, *sel),
            removed@ == selected(old(self)@, *sel),
            final(self).spec_max_bytes() == old(self).spec_max_bytes(),
            total(removed@) + final(self).spec_total_bytes() == old(self).spec_total_bytes(),
            keys_unique(removed@),
            forall|j: int| 0 <= j < removed@.len() ==> selects(*sel, key_of(#[trigger] removed@[j])),
            forall|j: int| 0 <= j < final(self)@.len() ==> !selects(*sel, key_of(#[trigger] final(self)@[j])),
    {
        let ghost orig = self.tiles@;
        let mut rest: Vec<Tile> = Vec::new();
        std::mem::swap(&mut rest, &mut self.tiles);
        let mut removed: Vec<Tile> = Vec::new();
        let mut removed_bytes: usize = 0;
        let ghost mut i: int = 0;
        proof {
            lemma_selected_empty(*sel);
            assert(orig.take(0) =~= Seq::<Tile>::empty());
            assert(orig.skip(0) =~= orig);
        }
        while rest.len() > 0
            invariant
                0 <= i <= orig.len(),
                keys_unique(orig),
                total(orig) == old(self).total_bytes,
                rest@ == orig.skip(i),
                self.tiles@ == unselected(orig.take(i), *sel),
                removed@ == selected(orig.take(i), *sel),
                self.total_bytes == old(self).total_bytes,
                keys_unique(self.tiles@),
                keys_unique(removed@),
                forall|j: int| 0 <= j < self.tiles@.len() ==> #[trigger] orig.take(i).contains(self.tiles@[j]),
                forall|j: int| 0 <= j < removed@.len() ==> #[trigger] orig.take(i).contains(removed@[j]),
                forall|j: int| 0 <= j < removed@.len() ==> selects(*sel, key_of(#[trigger] removed@[j])),
                forall|j: int| 0 <= j < self.tiles@.len() ==> !selects(*sel, key_of(#[trigger] self.tiles@[j])),
                total(self.tiles@) + total(removed@) + total(rest@) == total(orig),
                removed_bytes == total(removed@),
                self.max_bytes == old(self).max_bytes,
            decreases rest.len(),
        {
            proof {
                lemma_total_drop_first(rest@);
            }
            let t = rest.remove(0);
            proof {
                assert(t == orig[i]);
                assert(orig.take(i + 1) =~= orig.take(i).push(t));
                assert(rest@ =~= orig.skip(i + 1));
                lemma_selected_push(orig.take(i), t, *sel);
            }
            let is_sel = sel.matches(&t.key());
            if is_sel {
                proof {
                    assert(!has_key(removed@, key_of(t))) by {
                        if has_key(removed@, key_of(t)) {
                            let j = choose|j: int| 0 <= j < removed@.len() && key_of(#[trigger] removed@[j]) == key_of(t);
                            assert(orig.take(i).contains(removed@[j]));
                            let m = choose|m: int| 0 <= m < i && #[trigger] orig.take(i)[m] == removed@[j];
                            assert(orig[m] == orig.take(i)[m]);
                        }
                    }
                    lemma_unique_push(removed@, t);
                    lemma_total_push(removed@, t);
                }
                removed_bytes = removed_bytes + t.rendered.byte_len();
                removed.push(t);
            } else {
                proof {
                    assert(!has_key(self.tiles@, key_of(t))) by {
                        if has_key(self.tiles@, key_of(t)) {
                            let j = choose|j: int| 0 <= j < self.tiles@.len() && key_of(#[trigger] self.tiles@[j]) == key_of(t);
                            assert(orig.take(i).contains(self.tiles@[j]));
                            let m = choose|m: int| 0 <= m < i && #[trigger] orig.take(i)[m] == self.tiles@[j];
                            assert(orig[m] == orig.take(i)[m]);
                        }
                    }
                    lemma_unique_push(self.tiles@, t);
                    lemma_total_push(self.tiles@, t);
                }
                self.tiles.push(t);
            }
            proof {
                i = i + 1;
                assert forall|j: int| 0 <= j < self.tiles@.len() implies #[trigger] orig.take(i).contains(self.tiles@[j]) by {
                    if j < self.tiles@.len() - 1 || is_sel {
                        assert(orig.take(i - 1).contains(self.tiles@[j]));
                        let m = choose|m: int| 0 <= m < i - 1 && #[trigger] orig.take(i - 1)[m] == self.tiles@[j];
                        assert(orig.take(i)[m] == self.tiles@[j]);
                    } else {
                        assert(orig.take(i)[i - 1] == self.tiles@[j]);
                    }
                }
                assert forall|j: int| 0 <= j < removed@.len() implies #[trigger] orig.take(i).contains(removed@[j]) by {
                    if j < removed@.len() - 1 || !is_sel {
                        assert(orig.take(i - 1).contains(removed@[j]));
                        let m = choose|m: int| 0 <= m < i - 1 && #[trigger] orig.take(i - 1)[m] == removed@[j];
                        assert(orig.take(i)[m] == removed@[j]);
                    } else {
                        assert(orig.take(i)[i - 1] == removed@[j]);
                    }
                }
            }
        }
        proof {
            assert(orig.take(i) =~= orig);
            assert(rest@ =~= Seq::<Tile>::empty());
        }
        self.total_bytes = self.total_bytes - removed_bytes;
        removed
    }
}

} // verus!
