//! Persisted chunk data: a coordinate plus eight layers of 32x32 tile ids,
//! stored row-major (`index = x + y * 32`), and the operations that load,
//! create and save chunk files against the persistence backing store.

use vstd::prelude::*;
use crate::codec::{chunk_chars, decode_chunk, encode_chunk, parse_chunk};
use crate::coord::{key_of, key_spec, lemma_key_of_injective, lemma_key_spec_injective, offset_coord, Direction};
use crate::map::{empty_tile, white, MapView, TileData, TileGrid};
use crate::store::{find_file, FileStore};

verus! {

/// One layer of tile ids; id `0` means an empty cell.
pub struct Tile {
    pub id: Vec<u32>,
}

/// One chunk: its coordinate and eight layers of 1024 tile ids each.
pub struct MapData {
    pub x: i32,
    pub y: i32,
    pub group: u64,
    pub tile: Vec<Tile>,
}

/// An all-empty 8-layer, 1024-cell tile grid.
pub open spec fn is_default_ids(ids: Seq<Seq<u32>>) -> bool {
    &&& ids.len() == 8
    &&& forall|l: int| 0 <= l < 8 ==> (#[trigger] ids[l]).len() == 1024
    &&& forall|l: int, i: int| 0 <= l < 8 && 0 <= i < 1024 ==> #[trigger] ids[l][i] == 0
}

impl MapData {
    /// Shape invariant: exactly 8 layers of exactly 1024 tile ids.
    pub open spec fn wf(self) -> bool {
        &&& self.tile@.len() == 8
        &&& forall|l: int| 0 <= l < 8 ==> (#[trigger] self.tile@[l]).id@.len() == 1024
    }

    /// The tile ids of this chunk, layer by layer.
    pub open spec fn ids(self) -> Seq<Seq<u32>> {
        self.tile@.map_values(|t: Tile| t.id@)
    }

    /// A fresh all-empty chunk at `(x, y, group)`.
    pub fn default(x: i32, y: i32, group: u64) -> (r: MapData)
        ensures
            r.wf(),
            r.x == x,
            r.y == y,
            r.group == group,
            is_default_ids(r.ids()),
    {
        let mut tile: Vec<Tile> = Vec::new();
        while tile.len() < 8
            invariant
                tile@.len() <= 8,
                forall|l: int|
                    0 <= l < tile@.len() ==> (#[trigger] tile@[l]).id@.len() == 1024,
                forall|l: int, i: int|
                    0 <= l < tile@.len() && 0 <= i < 1024 ==> #[trigger] tile@[l].id@[i] == 0,
            decreases 8 - tile.len(),
        {
            let mut id: Vec<u32> = Vec::new();
            while id.len() < 1024
                invariant
                    id@.len() <= 1024,
                    forall|i: int| 0 <= i < id@.len() ==> #[trigger] id@[i] == 0,
                decreases 1024 - id.len(),
            {
                id.push(0);
            }
            tile.push(Tile { id });
        }
        let r = MapData { x, y, group, tile };
        proof {
            assert(forall|l: int| 0 <= l < 8 ==> r.ids()[l] == #[trigger] r.tile@[l].id@);
        }
        r
    }
}

/// The all-empty tile grid, as a concrete sequence.
pub open spec fn default_ids() -> Seq<Seq<u32>> {
    Seq::new(8, |l: int| Seq::new(1024, |i: int| 0u32))
}

/// What the chunk returned by a load means, in terms of the store the load
/// saw: the parsed file where one exists and parses, a fresh default at the
/// requested coordinate otherwise.
pub open spec fn loaded_chunk_ok(
    fs: Seq<crate::store::StoredFile>,
    x: int,
    y: int,
    g: int,
    r: MapData,
) -> bool {
    &&& r.wf()
    &&& match find_file(fs, x, y, g) {
        None => r.x as int == x && r.y as int == y && r.group as int == g && is_default_ids(
            r.ids(),
        ),
        Some(c) => match parse_chunk(c) {
            Some(t) => r.x as int == t.0 && r.y as int == t.1 && r.group as int == t.2 && r.ids()
                == t.3,
            None => r.x as int == x && r.y as int == y && r.group as int == g && is_default_ids(
                r.ids(),
            ),
        },
    }
}

/// What a load does to the store: nothing when the file exists (even a
/// malformed file is left byte-for-byte unchanged), and exactly one new
/// default file otherwise.
pub open spec fn store_after_load(
    fs0: Seq<crate::store::StoredFile>,
    fs1: Seq<crate::store::StoredFile>,
    x: int,
    y: int,
    g: int,
) -> bool {
    if find_file(fs0, x, y, g) is Some {
        fs1 == fs0
    } else {
        forall|tx: int, ty: int, tg: int|
            #[trigger] find_file(fs1, tx, ty, tg) == if tx == x && ty == y && tg == g {
                Some(chunk_chars(x, y, g, default_ids()))
            } else {
                find_file(fs0, tx, ty, tg)
            }
    }
}

impl MapData {
    /// Writes this chunk's canonical serialization to its file (named by
    /// the chunk's own coordinate), replacing any previous content.
    pub fn save_file(&self, store: &mut FileStore)
        requires
            self.wf(),
        ensures
            forall|tx: int, ty: int, tg: int|
                #[trigger] find_file(final(store).files@, tx, ty, tg) == if tx == self.x as int
                    && ty == self.y as int && tg == self.group as int {
                    Some(chunk_chars(self.x as int, self.y as int, self.group as int, self.ids()))
                } else {
                    find_file(old(store).files@, tx, ty, tg)
                },
    {
        let content = encode_chunk(self);
        store.write_file(self.x, self.y, self.group, content);
    }
}

/// Creates the file for `(x, y, group)` with `data`'s serialization, only
/// if no file exists there yet; an existing file is left untouched.
pub fn create_file(store: &mut FileStore, x: i32, y: i32, group: u64, data: &MapData)
    requires
        data.wf(),
    ensures
        find_file(old(store).files@, x as int, y as int, group as int) is Some ==> final(store).files@
            == old(store).files@,
        find_file(old(store).files@, x as int, y as int, group as int) is None ==> forall|
            tx: int,
            ty: int,
            tg: int,
        |
            #[trigger] find_file(final(store).files@, tx, ty, tg) == if tx == x as int && ty
                == y as int && tg == group as int {
                Some(chunk_chars(data.x as int, data.y as int, data.group as int, data.ids()))
            } else {
                find_file(old(store).files@, tx, ty, tg)
            },
{
    if store.exists_file(x, y, group) {
        return ;
    }
    let content = encode_chunk(data);
    store.write_file(x, y, group, content);
}

/// Round trip through the store: when the file for `(x, y, g)` holds the
/// canonical serialization of a well-formed tile grid (as it does after
/// any save), a load of that coordinate yields a chunk with exactly that
/// coordinate and grid.
pub proof fn lemma_save_then_load(
    fs: Seq<crate::store::StoredFile>,
    x: i32,
    y: i32,
    g: u64,
    ids: Seq<Seq<u32>>,
    m: MapData,
)
    requires
        ids.len() == 8,
        forall|l: int| 0 <= l < 8 ==> (#[trigger] ids[l]).len() == 1024,
        find_file(fs, x as int, y as int, g as int) == Some(
            chunk_chars(x as int, y as int, g as int, ids),
        ),
        loaded_chunk_ok(fs, x as int, y as int, g as int, m),
    ensures
        m.x == x,
        m.y == y,
        m.group == g,
        m.ids() == ids,
{
    crate::codec::lemma_chunk_roundtrip(x, y, g, ids);
}

/// Whether a chunk file exists for `(x, y, group)`.
pub fn is_map_exist(store: &FileStore, x: i32, y: i32, group: u64) -> (r: bool)
    ensures
        r == (find_file(store.files@, x as int, y as int, group as int) is Some),
{
    store.exists_file(x, y, group)
}

/// Loads the chunk at `(x, y, group)`.  When no file exists, a default
/// all-empty chunk file is created (write-through) and the default is
/// returned.  When the file exists but is malformed, a default chunk is
/// returned and the file is left untouched.
pub fn load_file(store: &mut FileStore, x: i32, y: i32, group: u64) -> (r: MapData)
    ensures
        loaded_chunk_ok(old(store).files@, x as int, y as int, group as int, r),
        store_after_load(
            old(store).files@,
            final(store).files@,
            x as int,
            y as int,
            group as int,
        ),
{
    if !store.exists_file(x, y, group) {
        let data = MapData::default(x, y, group);
        create_file(store, x, y, group, &data);
        proof {
            assert(data.ids() =~~= default_ids());
        }
        return data;
    }
    let r = match store.read_file(x, y, group) {
        Some(content) => {
            match decode_chunk(content) {
                Some(m) => m,
                None => MapData::default(x, y, group),
            }
        },
        None => {
            proof {
                assert(false);
            }
            MapData::default(x, y, group)
        },
    };
    proof {
        if !loaded_chunk_ok(old(store).files@, x as int, y as int, group as int, r) {
            assert(is_default_ids(r.ids()));
        }
    }
    r
}

/// One cached chunk: its canonical key, its data, and whether the
/// in-memory copy has diverged from its file.
pub struct CacheEntry {
    pub key: String,
    pub map: MapData,
    pub dirty: bool,
}

/// Cache keys are unique.
pub open spec fn wf_keys(es: Seq<CacheEntry>) -> bool {
    forall|i: int, j: int|
        0 <= i < j < es.len() ==> (#[trigger] es[i]).key@ != (#[trigger] es[j]).key@
}

/// Whether some cached chunk has key `k`.
pub open spec fn cache_has(es: Seq<CacheEntry>, k: Seq<char>) -> bool {
    exists|i: int| 0 <= i < es.len() && (#[trigger] es[i]).key@ == k
}

/// The cached entry with key `k` (meaningful only when `cache_has`).
pub open spec fn cache_entry(es: Seq<CacheEntry>, k: Seq<char>) -> CacheEntry {
    es[choose|i: int| 0 <= i < es.len() && (#[trigger] es[i]).key@ == k]
}

/// Whether any cached chunk is dirty.
pub open spec fn cache_any_dirty(es: Seq<CacheEntry>) -> bool {
    exists|i: int| 0 <= i < es.len() && (#[trigger] es[i]).dirty
}

/// With unique keys, the entry at any index is the entry for its key.
proof fn lemma_cache_entry_is(es: Seq<CacheEntry>, i: int)
    requires
        wf_keys(es),
        0 <= i < es.len(),
    ensures
        cache_has(es, es[i].key@),
        cache_entry(es, es[i].key@) == es[i],
{
    let k = es[i].key@;
    assert(cache_has(es, k));
    let j = choose|j: int| 0 <= j < es.len() && (#[trigger] es[j]).key@ == k;
    if j != i {
        assert(es[i].key@ != es[j].key@);
    }
}

/// Replacing the entry at an index with one of the same key changes that
/// key's entry and nothing else.
proof fn lemma_cache_update(es: Seq<CacheEntry>, i: int, e: CacheEntry)
    requires
        wf_keys(es),
        0 <= i < es.len(),
        e.key@ == es[i].key@,
    ensures
        wf_keys(es.update(i, e)),
        forall|k: Seq<char>| cache_has(es.update(i, e), k) == cache_has(es, k),
        cache_entry(es.update(i, e), e.key@) == e,
        forall|k: Seq<char>|
            k != e.key@ && cache_has(es, k) ==> cache_entry(es.update(i, e), k) == cache_entry(
                es,
                k,
            ),
{
    let u = es.update(i, e);
    assert(forall|j: int| 0 <= j < es.len() ==> (#[trigger] u[j]).key@ == es[j].key@);
    assert forall|k: Seq<char>| cache_has(u, k) == cache_has(es, k) by {
        if cache_has(u, k) {
            let w = choose|w: int| 0 <= w < u.len() && (#[trigger] u[w]).key@ == k;
            assert(es[w].key@ == k);
            assert(cache_has(es, k));
        }
        if cache_has(es, k) {
            let w = choose|w: int| 0 <= w < es.len() && (#[trigger] es[w]).key@ == k;
            assert(u[w].key@ == k);
            assert(cache_has(u, k));
        }
    }
    lemma_cache_entry_is(u, i);
    assert forall|k: Seq<char>|
        k != e.key@ && cache_has(es, k) implies cache_entry(u, k) == cache_entry(es, k) by {
        let w = choose|w: int| 0 <= w < es.len() && (#[trigger] es[w]).key@ == k;
        assert(w != i);
        assert(u[w] == es[w]);
        lemma_cache_entry_is(es, w);
        lemma_cache_entry_is(u, w);
    }
}

/// Appending an entry with a fresh key adds that entry and changes
/// nothing else.
proof fn lemma_cache_push(es: Seq<CacheEntry>, e: CacheEntry)
    requires
        wf_keys(es),
        !cache_has(es, e.key@),
    ensures
        wf_keys(es.push(e)),
        cache_has(es.push(e), e.key@),
        cache_entry(es.push(e), e.key@) == e,
        forall|k: Seq<char>| k != e.key@ ==> cache_has(es.push(e), k) == cache_has(es, k),
        forall|k: Seq<char>|
            k != e.key@ && cache_has(es, k) ==> cache_entry(es.push(e), k) == cache_entry(es, k),
{
    let u = es.push(e);
    assert(u[es.len() as int] == e);
    assert forall|i: int, j: int|
        0 <= i < j < u.len() implies (#[trigger] u[i]).key@ != (#[trigger] u[j]).key@ by {
        if j < es.len() {
            assert(u[i] == es[i] && u[j] == es[j]);
        } else {
            assert(u[j] == e);
            assert(u[i] == es[i]);
            if es[i].key@ == e.key@ {
                assert(cache_has(es, e.key@));
            }
        }
    }
    lemma_cache_entry_is(u, es.len() as int);
    assert forall|k: Seq<char>| k != e.key@ implies cache_has(u, k) == cache_has(es, k) by {
        if cache_has(u, k) {
            let w = choose|w: int| 0 <= w < u.len() && (#[trigger] u[w]).key@ == k;
            assert(w < es.len());
            assert(es[w].key@ == k);
        }
        if cache_has(es, k) {
            let w = choose|w: int| 0 <= w < es.len() && (#[trigger] es[w]).key@ == k;
            assert(u[w].key@ == k);
        }
    }
    assert forall|k: Seq<char>|
        k != e.key@ && cache_has(es, k) implies cache_entry(u, k) == cache_entry(es, k) by {
        let w = choose|w: int| 0 <= w < es.len() && (#[trigger] es[w]).key@ == k;
        assert(u[w] == es[w]);
        lemma_cache_entry_is(es, w);
        lemma_cache_entry_is(u, w);
    }
}

/// Removing the entry at an index drops its key and changes nothing else.
proof fn lemma_cache_remove(es: Seq<CacheEntry>, i: int)
    requires
        wf_keys(es),
        0 <= i < es.len(),
    ensures
        wf_keys(es.remove(i)),
        !cache_has(es.remove(i), es[i].key@),
        forall|k: Seq<char>|
            k != es[i].key@ ==> cache_has(es.remove(i), k) == cache_has(es, k),
        forall|k: Seq<char>|
            k != es[i].key@ && cache_has(es, k) ==> cache_entry(es.remove(i), k) == cache_entry(
                es,
                k,
            ),
{
    let u = es.remove(i);
    assert(forall|j: int| 0 <= j < i ==> (#[trigger] u[j]) == es[j]);
    assert(forall|j: int| i <= j < u.len() ==> (#[trigger] u[j]) == es[j + 1]);
    assert forall|a: int, b: int|
        0 <= a < b < u.len() implies (#[trigger] u[a]).key@ != (#[trigger] u[b]).key@ by {
        let a2 = if a < i { a } else { a + 1 };
        let b2 = if b < i { b } else { b + 1 };
        assert(u[a] == es[a2] && u[b] == es[b2]);
    }
    if cache_has(u, es[i].key@) {
        let w = choose|w: int| 0 <= w < u.len() && (#[trigger] u[w]).key@ == es[i].key@;
        let w2 = if w < i { w } else { w + 1 };
        assert(es[w2].key@ == es[i].key@);
        assert(w2 != i);
        assert(false);
    }
    assert forall|k: Seq<char>|
        k != es[i].key@ implies cache_has(u, k) == cache_has(es, k) by {
        if cache_has(u, k) {
            let w = choose|w: int| 0 <= w < u.len() && (#[trigger] u[w]).key@ == k;
            let w2 = if w < i { w } else { w + 1 };
            assert(es[w2].key@ == k);
        }
        if cache_has(es, k) {
            let w = choose|w: int| 0 <= w < es.len() && (#[trigger] es[w]).key@ == k;
            assert(w != i);
            let w2 = if w < i { w } else { w - 1 };
            assert(u[w2].key@ == k);
        }
    }
    assert forall|k: Seq<char>|
        k != es[i].key@ && cache_has(es, k) implies cache_entry(u, k) == cache_entry(es, k) by {
        let w = choose|w: int| 0 <= w < es.len() && (#[trigger] es[w]).key@ == k;
        assert(w != i);
        let w2 = if w < i { w } else { w - 1 };
        assert(u[w2] == es[w]);
        lemma_cache_entry_is(es, w);
        lemma_cache_entry_is(u, w2);
    }
}

/// Index of the first cached entry whose key is `key`.
fn find_key_index(es: &Vec<CacheEntry>, key: &String) -> (r: Option<usize>)
    ensures
        match r {
            Some(i) => i < es@.len() && es@[i as int].key@ == key@,
            None => !cache_has(es@, key@),
        },
{
    let mut i: usize = 0;
    while i < es.len()
        invariant
            0 <= i <= es@.len(),
            forall|j: int| 0 <= j < i ==> (#[trigger] es@[j]).key@ != key@,
        decreases es@.len() - i,
    {
        if es[i].key == *key {
            return Some(i);
        }
        i = i + 1;
    }
    proof {
        if cache_has(es@, key@) {
            let w = choose|w: int| 0 <= w < es@.len() && (#[trigger] es@[w]).key@ == key@;
            assert(false);
        }
    }
    None
}

/// The tile ids held by a render grid, layer by layer.
pub open spec fn grid_ids(g: TileGrid) -> Seq<Seq<u32>> {
    Seq::new(8, |l: int| Seq::new(1024, |i: int| g.tiles@[l * 1024 + i].texture_id))
}

/// The render-grid cell for a stored tile id: a white-tinted tile for a
/// nonzero id, an empty cell for zero.
pub open spec fn cell_of_id(id: u32) -> TileData {
    if id > 0 {
        TileData { texture_id: id, texture_layer: 0, color: white() }
    } else {
        empty_tile()
    }
}

/// Whether the cached entry at `j` is dirty and its data is addressed to
/// the file at `(tx, ty, tg)`.
pub open spec fn dirty_at(es: Seq<CacheEntry>, j: int, tx: int, ty: int, tg: int) -> bool {
    0 <= j < es.len() && es[j].dirty && es[j].map.x as int == tx && es[j].map.y as int == ty
        && es[j].map.group as int == tg
}

/// Reads a render grid back into chunk-data layers.
fn grid_to_tiles(map: &TileGrid) -> (r: Vec<Tile>)
    requires
        map.wf(),
    ensures
        r@.len() == 8,
        forall|l: int| 0 <= l < 8 ==> (#[trigger] r@[l]).id@.len() == 1024,
        forall|l: int, i: int|
            0 <= l < 8 && 0 <= i < 1024 ==> #[trigger] r@[l].id@[i] == map.tiles@[l * 1024
                + i].texture_id,
{
    let mut r: Vec<Tile> = Vec::new();
    let mut l: usize = 0;
    while l < 8
        invariant
            map.wf(),
            r@.len() == l,
            0 <= l <= 8,
            forall|l2: int| 0 <= l2 < l ==> (#[trigger] r@[l2]).id@.len() == 1024,
            forall|l2: int, i: int|
                0 <= l2 < l && 0 <= i < 1024 ==> #[trigger] r@[l2].id@[i] == map.tiles@[l2 * 1024
                    + i].texture_id,
        decreases 8 - l,
    {
        let mut id: Vec<u32> = Vec::new();
        let mut i: usize = 0;
        while i < 1024
            invariant
                map.wf(),
                0 <= l < 8,
                id@.len() == i,
                0 <= i <= 1024,
                forall|j: int|
                    0 <= j < i ==> #[trigger] id@[j] == map.tiles@[l * 1024 + j].texture_id,
            decreases 1024 - i,
        {
            id.push(map.tiles[l * 1024 + i].texture_id);
            i = i + 1;
        }
        r.push(Tile { id });
        l = l + 1;
    }
    r
}

/// Horizontal chunk offset of linked-map slot `ml`.
pub open spec fn link_dx(ml: int) -> int {
    if ml == 0 || ml == 3 || ml == 5 {
        -1
    } else if ml == 1 || ml == 6 {
        0
    } else {
        1
    }
}

/// Vertical chunk offset of linked-map slot `ml` (north is `+1`).
pub open spec fn link_dy(ml: int) -> int {
    if ml <= 2 {
        1
    } else if ml <= 4 {
        0
    } else {
        -1
    }
}

/// Horizontal origin of the border band copied from neighbor `ml`.
pub open spec fn band_x(ml: int) -> int {
    if ml == 0 || ml == 3 || ml == 5 {
        30
    } else {
        0
    }
}

/// Vertical origin of the border band copied from neighbor `ml`.
pub open spec fn band_y(ml: int) -> int {
    if ml >= 5 {
        30
    } else {
        0
    }
}

/// Width of the border band copied from neighbor `ml`.
pub open spec fn band_w(ml: int) -> int {
    if ml == 1 || ml == 6 {
        32
    } else {
        2
    }
}

/// Height of the border band copied from neighbor `ml`.
pub open spec fn band_h(ml: int) -> int {
    if ml == 3 || ml == 4 {
        32
    } else {
        2
    }
}

impl TileGrid {
    /// Copies the `(w, h)` band of `data` starting at `(bx0, by0)` into
    /// this grid's top-left corner, on every layer, skipping empty ids.
    fn copy_band(&mut self, data: &MapData, bx0: u32, by0: u32, w: u32, h: u32)
        requires
            old(self).wf(),
            data.wf(),
            bx0 + w <= 32,
            by0 + h <= 32,
        ensures
            final(self).wf(),
            forall|x: int, y: int, l: int|
                0 <= x < 32 && 0 <= y < 32 && 0 <= l < 8 ==> #[trigger] final(self).cell(x, y, l)
                    == (if x < w && y < h && data.ids()[l][bx0 + x + (by0 + y) * 32] > 0 {
                    cell_of_id(data.ids()[l][bx0 + x + (by0 + y) * 32])
                } else {
                    old(self).cell(x, y, l)
                }),
    {
        let mut l: u32 = 0;
        while l < 8
            invariant
                self.wf(),
                data.wf(),
                bx0 + w <= 32,
                by0 + h <= 32,
                0 <= l <= 8,
                forall|x: int, y: int, l2: int|
                    0 <= x < 32 && 0 <= y < 32 && 0 <= l2 < 8 ==> #[trigger] self.cell(x, y, l2)
                        == (if l2 < l && x < w && y < h && data.ids()[l2][bx0 + x + (by0 + y) * 32]
                        > 0 {
                        cell_of_id(data.ids()[l2][bx0 + x + (by0 + y) * 32])
                    } else {
                        old(self).cell(x, y, l2)
                    }),
            decreases 8 - l,
        {
            let mut x: u32 = 0;
            while x < w
                invariant
                    self.wf(),
                    data.wf(),
                    bx0 + w <= 32,
                    by0 + h <= 32,
                    0 <= l < 8,
                    0 <= x <= w,
                    forall|x2: int, y2: int, l2: int|
                        0 <= x2 < 32 && 0 <= y2 < 32 && 0 <= l2 < 8 ==> #[trigger] self.cell(
                            x2,
                            y2,
                            l2,
                        ) == (if (l2 < l || (l2 == l && x2 < x)) && x2 < w && y2 < h && data.ids()[
                        l2][bx0 + x2 + (by0 + y2) * 32] > 0 {
                            cell_of_id(data.ids()[l2][bx0 + x2 + (by0 + y2) * 32])
                        } else {
                            old(self).cell(x2, y2, l2)
                        }),
                decreases w - x,
            {
                let mut y: u32 = 0;
                while y < h
                    invariant
                        self.wf(),
                        data.wf(),
                        bx0 + w <= 32,
                        by0 + h <= 32,
                        0 <= l < 8,
                        0 <= x < w,
                        0 <= y <= h,
                        forall|x2: int, y2: int, l2: int|
                            0 <= x2 < 32 && 0 <= y2 < 32 && 0 <= l2 < 8 ==> #[trigger] self.cell(
                                x2,
                                y2,
                                l2,
                            ) == (if (l2 < l || (l2 == l && (x2 < x || (x2 == x && y2 < y)))) && x2
                                < w && y2 < h && data.ids()[l2][bx0 + x2 + (by0 + y2) * 32] > 0 {
                                cell_of_id(data.ids()[l2][bx0 + x2 + (by0 + y2) * 32])
                            } else {
                                old(self).cell(x2, y2, l2)
                            }),
                    decreases h - y,
                {
                    let tile_num = get_tile_pos((bx0 + x) as i32, (by0 + y) as i32);
                    let texture_id = data.tile[l as usize].id[tile_num];
                    proof {
                        assert(data.ids()[l as int] == data.tile@[l as int].id@);
                    }
                    if texture_id > 0 {
                        self.set_tile(
                            (x, y, l),
                            TileData {
                                texture_id,
                                texture_layer: 0,
                                color: crate::map::Rgba { r: 255, g: 255, b: 255, a: 255 },
                            },
                        );
                    }
                    y = y + 1;
                }
                x = x + 1;
            }
            l = l + 1;
        }
    }
}

/// Whether one linked-map slot of the render view shows exactly the
/// border band of its neighbor chunk: the band of the cached neighbor
/// where that neighbor's file exists, and nothing otherwise.
pub open spec fn link_slot_ok(
    mv: MapView,
    es: Seq<CacheEntry>,
    fs: Seq<crate::store::StoredFile>,
    cx: int,
    cy: int,
    g: int,
    ml: int,
) -> bool {
    let nx = cx + link_dx(ml);
    let ny = cy + link_dy(ml);
    let nk = key_spec(nx, ny, g);
    let loaded = i32::MIN <= nx <= i32::MAX && i32::MIN <= ny <= i32::MAX && find_file(
        fs,
        nx,
        ny,
        g,
    ) is Some;
    forall|x: int, y: int, l: int|
        0 <= x < 32 && 0 <= y < 32 && 0 <= l < 8 ==> #[trigger] mv.maps@[ml + 1].cell(x, y, l)
            == (if loaded && x < band_w(ml) && y < band_h(ml) && cache_entry(es, nk).map.ids()[l][
        band_x(ml) + x + (band_y(ml) + y) * 32] > 0 {
            cell_of_id(cache_entry(es, nk).map.ids()[l][band_x(ml) + x + (band_y(ml) + y) * 32])
        } else {
            empty_tile()
        })
}

/// What loading one linked map does to the cache: an existing neighbor
/// file is cached (clean, with the loaded contents) if it was not cached
/// already.
pub open spec fn link_cache_ok(
    es0: Seq<CacheEntry>,
    es: Seq<CacheEntry>,
    fs: Seq<crate::store::StoredFile>,
    cx: int,
    cy: int,
    g: int,
    ml: int,
) -> bool {
    let nx = cx + link_dx(ml);
    let ny = cy + link_dy(ml);
    let nk = key_spec(nx, ny, g);
    let loaded = i32::MIN <= nx <= i32::MAX && i32::MIN <= ny <= i32::MAX && find_file(
        fs,
        nx,
        ny,
        g,
    ) is Some;
    loaded ==> cache_has(es, nk) && (!cache_has(es0, nk) ==> !cache_entry(es, nk).dirty
        && loaded_chunk_ok(fs, nx, ny, g, cache_entry(es, nk).map))
}

/// A correctly filled linked-map slot stays correct while its grid slot
/// and its neighbor's cache entry are untouched.
proof fn lemma_link_slot_preserved(
    mv1: MapView,
    mv2: MapView,
    es1: Seq<CacheEntry>,
    es2: Seq<CacheEntry>,
    fs: Seq<crate::store::StoredFile>,
    cx: int,
    cy: int,
    g: int,
    ml: int,
)
    requires
        0 <= ml < 8,
        link_slot_ok(mv1, es1, fs, cx, cy, g, ml),
        link_cache_ok(es1, es1, fs, cx, cy, g, ml),
        mv2.maps@.len() == 9,
        mv1.maps@.len() == 9,
        mv2.maps@[ml + 1] == mv1.maps@[ml + 1],
        cache_has(es1, key_spec(cx + link_dx(ml), cy + link_dy(ml), g)) ==> cache_entry(
            es2,
            key_spec(cx + link_dx(ml), cy + link_dy(ml), g),
        ) == cache_entry(es1, key_spec(cx + link_dx(ml), cy + link_dy(ml), g)),
    ensures
        link_slot_ok(mv2, es2, fs, cx, cy, g, ml),
{
    let nx = cx + link_dx(ml);
    let ny = cy + link_dy(ml);
    let nk = key_spec(nx, ny, g);
    let loaded = i32::MIN <= nx <= i32::MAX && i32::MIN <= ny <= i32::MAX && find_file(
        fs,
        nx,
        ny,
        g,
    ) is Some;
    assert forall|x: int, y: int, l: int|
        0 <= x < 32 && 0 <= y < 32 && 0 <= l < 8 implies #[trigger] mv2.maps@[ml + 1].cell(x, y, l)
            == (if loaded && x < band_w(ml) && y < band_h(ml) && cache_entry(es2, nk).map.ids()[l][
        band_x(ml) + x + (band_y(ml) + y) * 32] > 0 {
            cell_of_id(cache_entry(es2, nk).map.ids()[l][band_x(ml) + x + (band_y(ml) + y) * 32])
        } else {
            empty_tile()
        }) by {
        assert(mv1.maps@[ml + 1].cell(x, y, l) == mv2.maps@[ml + 1].cell(x, y, l));
        if loaded {
            assert(cache_has(es1, nk));
            assert(cache_entry(es2, nk) == cache_entry(es1, nk));
        }
    }
}

/// An error reported by the session: stepping past the edge of the
/// coordinate space.
#[derive(Clone, Copy, PartialEq, Eq, Structural, Debug)]
pub enum MapError {
    OutOfRange,
}

/// The chunk cache: the current center coordinate, its canonical key, and
/// the cached chunks with their dirty flags.
pub struct EditorData {
    pub x: i32,
    pub y: i32,
    pub group: u64,
    pub current_index: String,
    pub maps: Vec<CacheEntry>,
}

impl EditorData {
    /// Session invariant: unique keys, well-formed chunk data, and a
    /// center key that is always cached.
    pub open spec fn wf(self) -> bool {
        &&& wf_keys(self.maps@)
        &&& forall|i: int| 0 <= i < self.maps@.len() ==> (#[trigger] self.maps@[i]).map.wf()
        &&& self.current_index@ == key_spec(self.x as int, self.y as int, self.group as int)
        &&& cache_has(self.maps@, self.current_index@)
    }

    /// Starts a session centered on chunk `(0, 0, 0)`, loading (and if
    /// necessary creating) its file.
    pub fn new(store: &mut FileStore) -> (r: EditorData)
        ensures
            r.wf(),
            r.x == 0 && r.y == 0 && r.group == 0,
            r.maps@.len() == 1,
            r.maps@[0].key@ == key_spec(0, 0, 0),
            !r.maps@[0].dirty,
            loaded_chunk_ok(old(store).files@, 0, 0, 0, r.maps@[0].map),
            store_after_load(old(store).files@, final(store).files@, 0, 0, 0),
    {
        let map = load_file(store, 0, 0, 0);
        let current_index = key_of(0, 0, 0);
        let key = key_of(0, 0, 0);
        let mut maps: Vec<CacheEntry> = Vec::new();
        maps.push(CacheEntry { key, map, dirty: false });
        let r = EditorData { x: 0, y: 0, group: 0, current_index, maps };
        proof {
            assert(r.maps@.len() == 1);
            assert(r.maps@[0].key@ == r.current_index@);
            assert(cache_has(r.maps@, r.current_index@));
        }
        r
    }

    /// Jumps the center to `(x, y, group)`, reusing the cached chunk or
    /// loading it from the store; nothing is evicted.
    pub fn init_map(&mut self, x: i32, y: i32, group: u64, store: &mut FileStore)
        requires
            old(self).wf(),
        ensures
            final(self).wf(),
            final(self).x == x && final(self).y == y && final(self).group == group,
            final(self).current_index@ == key_spec(x as int, y as int, group as int),
            cache_has(old(self).maps@, key_spec(x as int, y as int, group as int))
                ==> final(self).maps@ == old(self).maps@ && final(store).files@
                == old(store).files@,
            !cache_has(old(self).maps@, key_spec(x as int, y as int, group as int)) ==> {
                let kd = key_spec(x as int, y as int, group as int);
                &&& cache_has(final(self).maps@, kd)
                &&& cache_entry(final(self).maps@, kd).key@ == kd
                &&& !cache_entry(final(self).maps@, kd).dirty
                &&& loaded_chunk_ok(
                    old(store).files@,
                    x as int,
                    y as int,
                    group as int,
                    cache_entry(final(self).maps@, kd).map,
                )
                &&& store_after_load(
                    old(store).files@,
                    final(store).files@,
                    x as int,
                    y as int,
                    group as int,
                )
                &&& forall|k: Seq<char>|
                    k != kd ==> cache_has(final(self).maps@, k) == cache_has(old(self).maps@, k)
                &&& forall|k: Seq<char>|
                    k != kd && cache_has(old(self).maps@, k) ==> cache_entry(final(self).maps@, k)
                        == cache_entry(old(self).maps@, k)
            },
    {
        self.x = x;
        self.y = y;
        self.group = group;
        let key_data = key_of(x, y, group);
        let ghost es0 = self.maps@;
        match find_key_index(&self.maps, &key_data) {
            Some(i) => {
                proof {
                    lemma_cache_entry_is(es0, i as int);
                }
                self.current_index = key_data;
            },
            None => {
                self.current_index = key_data.clone();
                let map = load_file(store, x, y, group);
                let e = CacheEntry { key: key_data, map, dirty: false };
                proof {
                    lemma_cache_push(es0, e);
                }
                self.maps.push(e);
            },
        }
    }

    /// Moves the center one chunk in `direction`.  The previous center is
    /// evicted if it has no unsaved edits; otherwise it stays cached and
    /// its key is returned so the caller can remember to save it.  The new
    /// center is reused from the cache or loaded from the store.  A step
    /// past the edge of the coordinate space changes nothing and reports
    /// `OutOfRange`.
    pub fn move_map(&mut self, direction: Direction, store: &mut FileStore) -> (r: Result<
        Option<String>,
        MapError,
    >)
        requires
            old(self).wf(),
        ensures
            final(self).wf(),
            match r {
                Err(_) => *final(self) == *old(self) && final(store).files@ == old(store).files@
                    && !(i32::MIN <= old(self).x + crate::coord::dir_dx(direction) <= i32::MAX
                    && i32::MIN <= old(self).y + crate::coord::dir_dy(direction) <= i32::MAX),
                Ok(tk) => {
                    let nx = old(self).x + crate::coord::dir_dx(direction);
                    let ny = old(self).y + crate::coord::dir_dy(direction);
                    let g = old(self).group as int;
                    let pk = old(self).current_index@;
                    let nk = key_spec(nx, ny, g);
                    &&& i32::MIN <= nx <= i32::MAX && i32::MIN <= ny <= i32::MAX
                    &&& final(self).x as int == nx && final(self).y as int == ny
                    &&& final(self).group == old(self).group
                    &&& final(self).current_index@ == nk
                    &&& (cache_entry(old(self).maps@, pk).dirty ==> (tk matches Some(s) && s@ == pk)
                        && cache_has(final(self).maps@, pk) && cache_entry(final(self).maps@, pk)
                        == cache_entry(old(self).maps@, pk))
                    &&& (!cache_entry(old(self).maps@, pk).dirty ==> tk is None && !cache_has(
                        final(self).maps@,
                        pk,
                    ))
                    &&& (cache_has(old(self).maps@, nk) ==> cache_entry(final(self).maps@, nk)
                        == cache_entry(old(self).maps@, nk) && final(store).files@
                        == old(store).files@)
                    &&& (!cache_has(old(self).maps@, nk) ==> {
                        &&& cache_has(final(self).maps@, nk)
                        &&& cache_entry(final(self).maps@, nk).key@ == nk
                        &&& !cache_entry(final(self).maps@, nk).dirty
                        &&& loaded_chunk_ok(
                            old(store).files@,
                            nx,
                            ny,
                            g,
                            cache_entry(final(self).maps@, nk).map,
                        )
                        &&& store_after_load(old(store).files@, final(store).files@, nx, ny, g)
                    })
                    &&& forall|k: Seq<char>|
                        k != pk && k != nk ==> cache_has(final(self).maps@, k) == cache_has(
                            old(self).maps@,
                            k,
                        )
                    &&& forall|k: Seq<char>|
                        k != pk && k != nk && cache_has(old(self).maps@, k) ==> cache_entry(
                            final(self).maps@,
                            k,
                        ) == cache_entry(old(self).maps@, k)
                },
            },
    {
        let step = offset_coord(self.x, self.y, direction);
        let (nx, ny) = match step {
            None => {
                return Err(MapError::OutOfRange);
            },
            Some(p) => p,
        };
        let ghost es0 = self.maps@;
        let ghost pk = self.current_index@;
        let mut temp_key: Option<String> = None;
        let pi = match find_key_index(&self.maps, &self.current_index) {
            Some(i) => i,
            None => {
                proof {
                    assert(false);
                }
                0
            },
        };
        proof {
            lemma_cache_entry_is(es0, pi as int);
        }
        if !self.maps[pi].dirty {
            self.maps.remove(pi);
            proof {
                lemma_cache_remove(es0, pi as int);
            }
        } else {
            temp_key = Some(self.current_index.clone());
        }
        let ghost es1 = self.maps@;
        self.x = nx;
        self.y = ny;
        let key_data = key_of(self.x, self.y, self.group);
        proof {
            if pk == key_data@ {
                lemma_key_of_injective(
                    old(self).x,
                    old(self).y,
                    old(self).group,
                    nx,
                    ny,
                    old(self).group,
                );
                assert(false);
            }
        }
        match find_key_index(&self.maps, &key_data) {
            Some(i) => {
                proof {
                    lemma_cache_entry_is(es1, i as int);
                }
                self.current_index = key_data;
            },
            None => {
                self.current_index = key_data.clone();
                let map = load_file(store, nx, ny, self.group);
                let e = CacheEntry { key: key_data, map, dirty: false };
                proof {
                    lemma_cache_push(es1, e);
                }
                self.maps.push(e);
            },
        }
        Ok(temp_key)
    }

    /// Copies every tile id of the center render grid back into the
    /// cached chunk data under `old_map_key` (if given) or the active
    /// chunk.  Only the active-chunk form persists to the store and clears
    /// the dirty flag; the keyed form is the copy-back used when
    /// navigating away with unsaved edits.
    pub fn save_map_data(
        &mut self,
        map: &TileGrid,
        old_map_key: Option<String>,
        store: &mut FileStore,
    )
        requires
            old(self).wf(),
            map.wf(),
        ensures
            final(self).wf(),
            final(self).x == old(self).x && final(self).y == old(self).y && final(self).group
                == old(self).group && final(self).current_index == old(self).current_index,
            match old_map_key {
                None => {
                    let ck = old(self).current_index@;
                    let e0 = cache_entry(old(self).maps@, ck);
                    &&& forall|k: Seq<char>|
                        cache_has(final(self).maps@, k) == cache_has(old(self).maps@, k)
                    &&& cache_entry(final(self).maps@, ck).key == e0.key
                    &&& cache_entry(final(self).maps@, ck).map.x == e0.map.x
                    &&& cache_entry(final(self).maps@, ck).map.y == e0.map.y
                    &&& cache_entry(final(self).maps@, ck).map.group == e0.map.group
                    &&& cache_entry(final(self).maps@, ck).map.ids() == grid_ids(*map)
                    &&& !cache_entry(final(self).maps@, ck).dirty
                    &&& forall|k: Seq<char>|
                        k != ck && cache_has(old(self).maps@, k) ==> cache_entry(
                            final(self).maps@,
                            k,
                        ) == cache_entry(old(self).maps@, k)
                    &&& forall|tx: int, ty: int, tg: int|
                        #[trigger] find_file(final(store).files@, tx, ty, tg) == if tx
                            == e0.map.x as int && ty == e0.map.y as int && tg
                            == e0.map.group as int {
                            Some(
                                chunk_chars(
                                    e0.map.x as int,
                                    e0.map.y as int,
                                    e0.map.group as int,
                                    grid_ids(*map),
                                ),
                            )
                        } else {
                            find_file(old(store).files@, tx, ty, tg)
                        }
                },
                Some(k) => {
                    &&& final(store).files@ == old(store).files@
                    &&& (!cache_has(old(self).maps@, k@) ==> final(self).maps@ == old(self).maps@)
                    &&& (cache_has(old(self).maps@, k@) ==> {
                        let e0 = cache_entry(old(self).maps@, k@);
                        &&& forall|k2: Seq<char>|
                            cache_has(final(self).maps@, k2) == cache_has(old(self).maps@, k2)
                        &&& cache_entry(final(self).maps@, k@).key == e0.key
                        &&& cache_entry(final(self).maps@, k@).map.x == e0.map.x
                        &&& cache_entry(final(self).maps@, k@).map.y == e0.map.y
                        &&& cache_entry(final(self).maps@, k@).map.group == e0.map.group
                        &&& cache_entry(final(self).maps@, k@).map.ids() == grid_ids(*map)
                        &&& cache_entry(final(self).maps@, k@).dirty == e0.dirty
                        &&& forall|k2: Seq<char>|
                            k2 != k@ && cache_has(old(self).maps@, k2) ==> cache_entry(
                                final(self).maps@,
                                k2,
                            ) == cache_entry(old(self).maps@, k2)
                    })
                },
            },
    {
        let ghost es0 = self.maps@;
        let should_save: bool;
        let find_key: String;
        match old_map_key {
            Some(k) => {
                should_save = false;
                find_key = k;
            },
            None => {
                should_save = true;
                find_key = self.current_index.clone();
            },
        }
        match find_key_index(&self.maps, &find_key) {
            Some(i) => {
                proof {
                    lemma_cache_entry_is(es0, i as int);
                }
                let tile = grid_to_tiles(map);
                let ex = self.maps[i].map.x;
                let ey = self.maps[i].map.y;
                let eg = self.maps[i].map.group;
                let new_map = MapData { x: ex, y: ey, group: eg, tile };
                proof {
                    assert(new_map.ids() =~~= grid_ids(*map)) by {
                        assert(forall|l: int|
                            0 <= l < 8 ==> new_map.ids()[l] == #[trigger] new_map.tile@[l].id@);
                        assert(forall|l: int, j: int|
                            0 <= l < 8 && 0 <= j < 1024 ==> #[trigger] grid_ids(*map)[l][j]
                                == map.tiles@[l * 1024 + j].texture_id);
                    }
                }
                let key2 = self.maps[i].key.clone();
                let new_dirty = if should_save {
                    false
                } else {
                    self.maps[i].dirty
                };
                if should_save {
                    new_map.save_file(store);
                }
                let e = CacheEntry { key: key2, map: new_map, dirty: new_dirty };
                proof {
                    lemma_cache_update(es0, i as int, e);
                }
                self.maps[i] = e;
                proof {
                    assert(self.maps@ =~= es0.update(i as int, e));
                }
            },
            None => {},
        }
    }

    /// Persists every cached chunk that has unsaved edits (in cache
    /// order, so a later entry for the same file coordinate wins) and
    /// clears its dirty flag; chunks without edits are neither written
    /// nor touched on disk.
    pub fn save_all_maps(&mut self, store: &mut FileStore)
        requires
            old(self).wf(),
        ensures
            final(self).wf(),
            final(self).x == old(self).x && final(self).y == old(self).y && final(self).group
                == old(self).group && final(self).current_index == old(self).current_index,
            final(self).maps@.len() == old(self).maps@.len(),
            forall|j: int|
                0 <= j < old(self).maps@.len() ==> (#[trigger] final(self).maps@[j]).key
                    == old(self).maps@[j].key && final(self).maps@[j].map == old(self).maps@[j].map
                    && !final(self).maps@[j].dirty,
            forall|tx: int, ty: int, tg: int|
                (forall|j: int| !dirty_at(old(self).maps@, j, tx, ty, tg)) ==> #[trigger] find_file(
                    final(store).files@,
                    tx,
                    ty,
                    tg,
                ) == find_file(old(store).files@, tx, ty, tg),
            forall|tx: int, ty: int, tg: int|
                (exists|j: int| dirty_at(old(self).maps@, j, tx, ty, tg)) ==> (exists|j: int|
                    dirty_at(old(self).maps@, j, tx, ty, tg) && (forall|j2: int|
                        j < j2 < old(self).maps@.len() ==> !dirty_at(
                            old(self).maps@,
                            j2,
                            tx,
                            ty,
                            tg,
                        )) && #[trigger] find_file(final(store).files@, tx, ty, tg) == Some(
                        chunk_chars(
                            old(self).maps@[j].map.x as int,
                            old(self).maps@[j].map.y as int,
                            old(self).maps@[j].map.group as int,
                            old(self).maps@[j].map.ids(),
                        ),
                    )),
    {
        let ghost es0 = self.maps@;
        let ghost fs0 = store.files@;
        let mut i: usize = 0;
        while i < self.maps.len()
            invariant
                wf_keys(self.maps@),
                forall|j: int|
                    0 <= j < self.maps@.len() ==> (#[trigger] self.maps@[j]).map.wf(),
                self.x == old(self).x && self.y == old(self).y && self.group == old(self).group
                    && self.current_index == old(self).current_index,
                cache_has(self.maps@, self.current_index@),
                self.current_index@ == key_spec(
                    self.x as int,
                    self.y as int,
                    self.group as int,
                ),
                es0 == old(self).maps@,
                fs0 == old(store).files@,
                0 <= i <= self.maps@.len(),
                self.maps@.len() == es0.len(),
                forall|j: int|
                    0 <= j < i ==> (#[trigger] self.maps@[j]).key == es0[j].key && self.maps@[j].map
                        == es0[j].map && !self.maps@[j].dirty,
                forall|j: int| i <= j < es0.len() ==> #[trigger] self.maps@[j] == es0[j],
                forall|tx: int, ty: int, tg: int|
                    (forall|j: int| 0 <= j < i ==> !dirty_at(es0, j, tx, ty, tg))
                        ==> #[trigger] find_file(store.files@, tx, ty, tg) == find_file(
                        fs0,
                        tx,
                        ty,
                        tg,
                    ),
                forall|tx: int, ty: int, tg: int|
                    (exists|j: int| 0 <= j < i && dirty_at(es0, j, tx, ty, tg)) ==> (exists|j: int|
                        0 <= j < i && dirty_at(es0, j, tx, ty, tg) && (forall|j2: int|
                            j < j2 < i ==> !dirty_at(es0, j2, tx, ty, tg))
                            && #[trigger] find_file(store.files@, tx, ty, tg) == Some(
                            chunk_chars(
                                es0[j].map.x as int,
                                es0[j].map.y as int,
                                es0[j].map.group as int,
                                es0[j].map.ids(),
                            ),
                        )),
            decreases self.maps@.len() - i,
        {
            let ghost es_pre = self.maps@;
            let ghost fs_pre = store.files@;
            let di = self.maps[i].dirty;
            if di {
                self.maps[i].map.save_file(store);
                self.maps[i].dirty = false;
            }
            proof {
                assert(di == es0[i as int].dirty);
                assert(self.maps@.len() == es_pre.len());
                assert(forall|j: int|
                    0 <= j < es_pre.len() && j != i ==> #[trigger] self.maps@[j] == es_pre[j]);
                assert(self.maps@[i as int].key == es_pre[i as int].key && self.maps@[
                i as int].map == es_pre[i as int].map);
                assert forall|a: int, b: int|
                    0 <= a < b < self.maps@.len() implies (#[trigger] self.maps@[a]).key@ != (
                #[trigger] self.maps@[b]).key@ by {
                    assert(self.maps@[a].key == es_pre[a].key && self.maps@[b].key
                        == es_pre[b].key);
                    assert(es_pre[a].key@ != es_pre[b].key@);
                }
                let w = choose|w: int|
                    0 <= w < es_pre.len() && (#[trigger] es_pre[w]).key@ == self.current_index@;
                assert(self.maps@[w].key == es_pre[w].key);
                assert(cache_has(self.maps@, self.current_index@));
                assert forall|tx: int, ty: int, tg: int|
                    (forall|j: int| 0 <= j < i + 1 ==> !dirty_at(es0, j, tx, ty, tg))
                        implies #[trigger] find_file(store.files@, tx, ty, tg) == find_file(
                        fs0,
                        tx,
                        ty,
                        tg,
                    ) by {
                    assert(!dirty_at(es0, i as int, tx, ty, tg));
                    if di {
                        assert(!(tx == es0[i as int].map.x as int && ty == es0[
                        i as int].map.y as int && tg == es0[i as int].map.group as int));
                        assert(find_file(store.files@, tx, ty, tg) == find_file(
                            fs_pre,
                            tx,
                            ty,
                            tg,
                        ));
                    }
                    assert(find_file(fs_pre, tx, ty, tg) == find_file(fs0, tx, ty, tg));
                }
                assert forall|tx: int, ty: int, tg: int|
                    (exists|j: int| 0 <= j < i + 1 && dirty_at(es0, j, tx, ty, tg)) implies (exists|
                    j: int|
                        0 <= j < i + 1 && dirty_at(es0, j, tx, ty, tg) && (forall|j2: int|
                            j < j2 < i + 1 ==> !dirty_at(es0, j2, tx, ty, tg))
                            && #[trigger] find_file(store.files@, tx, ty, tg) == Some(
                            chunk_chars(
                                es0[j].map.x as int,
                                es0[j].map.y as int,
                                es0[j].map.group as int,
                                es0[j].map.ids(),
                            ),
                        )) by {
                    if dirty_at(es0, i as int, tx, ty, tg) {
                        assert(di);
                        assert(find_file(store.files@, tx, ty, tg) == Some(
                            chunk_chars(
                                es0[i as int].map.x as int,
                                es0[i as int].map.y as int,
                                es0[i as int].map.group as int,
                                es0[i as int].map.ids(),
                            ),
                        ));
                        assert(0 <= i as int && (i as int) < i + 1 && dirty_at(es0, i as int, tx, ty, tg) && (
                        forall|j2: int| (i as int) < j2 < i + 1 ==> !dirty_at(es0, j2, tx, ty, tg))
                            && find_file(store.files@, tx, ty, tg) == Some(
                            chunk_chars(
                                es0[i as int].map.x as int,
                                es0[i as int].map.y as int,
                                es0[i as int].map.group as int,
                                es0[i as int].map.ids(),
                            ),
                        ));
                    } else {
                        let j0 = choose|j: int| 0 <= j < i + 1 && dirty_at(es0, j, tx, ty, tg);
                        assert(j0 < i);
                        assert(exists|j: int| 0 <= j < i && dirty_at(es0, j, tx, ty, tg));
                        let j = choose|j: int|
                            0 <= j < i && dirty_at(es0, j, tx, ty, tg) && (forall|j2: int|
                                j < j2 < i ==> !dirty_at(es0, j2, tx, ty, tg)) && #[trigger] find_file(
                                fs_pre,
                                tx,
                                ty,
                                tg,
                            ) == Some(
                                chunk_chars(
                                    es0[j].map.x as int,
                                    es0[j].map.y as int,
                                    es0[j].map.group as int,
                                    es0[j].map.ids(),
                                ),
                            );
                        if di {
                            assert(!(tx == es0[i as int].map.x as int && ty == es0[
                            i as int].map.y as int && tg == es0[i as int].map.group as int));
                            assert(find_file(store.files@, tx, ty, tg) == find_file(
                                fs_pre,
                                tx,
                                ty,
                                tg,
                            ));
                        }
                        assert(0 <= j < i + 1 && dirty_at(es0, j, tx, ty, tg) && (forall|j2: int|
                            j < j2 < i + 1 ==> !dirty_at(es0, j2, tx, ty, tg)) && find_file(
                            store.files@,
                            tx,
                            ty,
                            tg,
                        ) == Some(
                            chunk_chars(
                                es0[j].map.x as int,
                                es0[j].map.y as int,
                                es0[j].map.group as int,
                                es0[j].map.ids(),
                            ),
                        ));
                    }
                }
            }
            i = i + 1;
        }
    }

    /// Rebuilds the center render grid from the active chunk's data:
    /// every nonzero tile id becomes a white-tinted tile, every zero an
    /// empty cell.
    pub fn load_map_data(&mut self, map: &mut MapView)
        requires
            old(self).wf(),
            old(map).wf(),
        ensures
            *final(self) == *old(self),
            final(map).wf(),
            forall|x: int, y: int, l: int|
                0 <= x < 32 && 0 <= y < 32 && 0 <= l < 8 ==> #[trigger] final(map).maps@[0].cell(
                    x,
                    y,
                    l,
                ) == cell_of_id(
                    cache_entry(old(self).maps@, old(self).current_index@).map.ids()[l][x + y * 32],
                ),
            forall|s: int| 1 <= s < 9 ==> #[trigger] final(map).maps@[s] == old(map).maps@[s],
            final(map).link_map_selection == old(map).link_map_selection,
            final(map).preview_pos == old(map).preview_pos,
            final(map).preview_size == old(map).preview_size,
            final(map).preview_area == old(map).preview_area,
            final(map).preview_changed == old(map).preview_changed,
    {
        map.clear_map(0);
        let ci = match find_key_index(&self.maps, &self.current_index) {
            Some(i) => i,
            None => {
                proof {
                    assert(false);
                }
                0
            },
        };
        proof {
            lemma_cache_entry_is(self.maps@, ci as int);
        }
        let ghost data = self.maps@[ci as int].map;
        let mut l: usize = 0;
        while l < 8
            invariant
                old(self).wf(),
                *self == *old(self),
                ci < self.maps@.len(),
                data == self.maps@[ci as int].map,
                data == cache_entry(old(self).maps@, old(self).current_index@).map,
                data.wf(),
                map.wf(),
                0 <= l <= 8,
                forall|x: int, y: int, l2: int|
                    0 <= x < 32 && 0 <= y < 32 && 0 <= l2 < 8 ==> #[trigger] map.maps@[0].cell(
                        x,
                        y,
                        l2,
                    ) == (if l2 < l {
                        cell_of_id(data.ids()[l2][x + y * 32])
                    } else {
                        empty_tile()
                    }),
                forall|s: int| 1 <= s < 9 ==> #[trigger] map.maps@[s] == old(map).maps@[s],
                map.link_map_selection == old(map).link_map_selection,
                map.preview_pos == old(map).preview_pos,
                map.preview_size == old(map).preview_size,
                map.preview_area == old(map).preview_area,
                map.preview_changed == old(map).preview_changed,
            decreases 8 - l,
        {
            let mut i: usize = 0;
            while i < 1024
                invariant
                    old(self).wf(),
                    *self == *old(self),
                    ci < self.maps@.len(),
                    data == self.maps@[ci as int].map,
                    data == cache_entry(old(self).maps@, old(self).current_index@).map,
                    data.wf(),
                    map.wf(),
                    0 <= l < 8,
                    0 <= i <= 1024,
                    forall|x: int, y: int, l2: int|
                        0 <= x < 32 && 0 <= y < 32 && 0 <= l2 < 8 ==> #[trigger] map.maps@[0].cell(
                            x,
                            y,
                            l2,
                        ) == (if l2 < l as int || (l2 == l as int && x + y * 32 < i) {
                            cell_of_id(data.ids()[l2][x + y * 32])
                        } else {
                            empty_tile()
                        }),
                    forall|s: int| 1 <= s < 9 ==> #[trigger] map.maps@[s] == old(map).maps@[s],
                    map.link_map_selection == old(map).link_map_selection,
                    map.preview_pos == old(map).preview_pos,
                    map.preview_size == old(map).preview_size,
                    map.preview_area == old(map).preview_area,
                    map.preview_changed == old(map).preview_changed,
                decreases 1024 - i,
            {
                let texture_id = self.maps[ci].map.tile[l].id[i];
                let ghost pre = map.maps@[0];
                if texture_id > 0 {
                    let idx: usize = l * 1024 + i;
                    map.maps[0].tiles[idx] = TileData {
                        texture_id,
                        texture_layer: 0,
                        color: crate::map::Rgba { r: 255, g: 255, b: 255, a: 255 },
                    };
                    proof {
                        assert(data.ids()[l as int] == data.tile@[l as int].id@);
                        assert forall|x: int, y: int, l2: int|
                            0 <= x < 32 && 0 <= y < 32 && 0 <= l2 < 8 implies #[trigger] map.maps@[
                        0].cell(x, y, l2) == (if l2 < l as int || (l2 == l as int && x + y * 32 < i
                            + 1) {
                            cell_of_id(data.ids()[l2][x + y * 32])
                        } else {
                            empty_tile()
                        }) by {
                            if l2 * 1024 + x + y * 32 == idx {
                                assert(l2 == l as int && x + y * 32 == i);
                            } else {
                                assert(map.maps@[0].cell(x, y, l2) == pre.cell(x, y, l2));
                            }
                        }
                    }
                } else {
                    proof {
                        assert(data.ids()[l as int] == data.tile@[l as int].id@);
                        assert(cell_of_id(data.ids()[l as int][i as int]) == empty_tile());
                    }
                }
                i = i + 1;
            }
            l = l + 1;
        }
    }

    /// Loads one linked-map slot: clears it, and if the neighbor chunk's
    /// file exists, caches the neighbor (clean) if needed and copies its
    /// border band into the slot.
    fn load_link_map(&mut self, map: &mut MapView, store: &mut FileStore, maplink: usize)
        requires
            maplink < 8,
            old(self).wf(),
            old(map).wf(),
        ensures
            final(self).wf(),
            final(map).wf(),
            final(store).files@ == old(store).files@,
            final(self).x == old(self).x && final(self).y == old(self).y && final(self).group
                == old(self).group && final(self).current_index == old(self).current_index,
            forall|k: Seq<char>|
                cache_has(old(self).maps@, k) ==> cache_has(final(self).maps@, k) && cache_entry(
                    final(self).maps@,
                    k,
                ) == cache_entry(old(self).maps@, k),
            forall|k: Seq<char>|
                cache_has(final(self).maps@, k) ==> cache_has(old(self).maps@, k) || k == key_spec(
                    old(self).x + link_dx(maplink as int),
                    old(self).y + link_dy(maplink as int),
                    old(self).group as int,
                ),
            link_cache_ok(
                old(self).maps@,
                final(self).maps@,
                old(store).files@,
                old(self).x as int,
                old(self).y as int,
                old(self).group as int,
                maplink as int,
            ),
            link_slot_ok(
                *final(map),
                final(self).maps@,
                old(store).files@,
                old(self).x as int,
                old(self).y as int,
                old(self).group as int,
                maplink as int,
            ),
            forall|s: int|
                0 <= s < 9 && s != maplink + 1 ==> #[trigger] final(map).maps@[s] == old(
                    map,
                ).maps@[s],
            final(map).link_map_selection == old(map).link_map_selection,
            final(map).preview_pos == old(map).preview_pos,
            final(map).preview_size == old(map).preview_size,
            final(map).preview_area == old(map).preview_area,
            final(map).preview_changed == old(map).preview_changed,
    {
        map.clear_map(maplink + 1);
        let dxv: i32 = match maplink {
            0 => -1,
            1 => 0,
            2 => 1,
            3 => -1,
            4 => 1,
            5 => -1,
            6 => 0,
            _ => 1,
        };
        let dyv: i32 = match maplink {
            0 => 1,
            1 => 1,
            2 => 1,
            3 => 0,
            4 => 0,
            5 => -1,
            6 => -1,
            _ => -1,
        };
        let bx0: u32 = match maplink {
            0 => 30,
            3 => 30,
            5 => 30,
            _ => 0,
        };
        let by0: u32 = match maplink {
            5 => 30,
            6 => 30,
            7 => 30,
            _ => 0,
        };
        let w: u32 = match maplink {
            1 => 32,
            6 => 32,
            _ => 2,
        };
        let h: u32 = match maplink {
            3 => 32,
            4 => 32,
            _ => 2,
        };
        proof {
            assert(dxv as int == link_dx(maplink as int));
            assert(dyv as int == link_dy(maplink as int));
            assert(bx0 as int == band_x(maplink as int));
            assert(by0 as int == band_y(maplink as int));
            assert(w as int == band_w(maplink as int));
            assert(h as int == band_h(maplink as int));
        }
        let nx64: i64 = self.x as i64 + dxv as i64;
        let ny64: i64 = self.y as i64 + dyv as i64;
        if nx64 < -0x8000_0000i64 || nx64 > 0x7FFF_FFFFi64 || ny64 < -0x8000_0000i64 || ny64
            > 0x7FFF_FFFFi64 {
            return ;
        }
        let nx = nx64 as i32;
        let ny = ny64 as i32;
        if !is_map_exist(store, nx, ny, self.group) {
            return ;
        }
        let key = key_of(nx, ny, self.group);
        let ghost es0 = self.maps@;
        let ei: usize = match find_key_index(&self.maps, &key) {
            Some(i) => {
                proof {
                    lemma_cache_entry_is(es0, i as int);
                }
                i
            },
            None => {
                let m = load_file(store, nx, ny, self.group);
                let e = CacheEntry { key, map: m, dirty: false };
                proof {
                    lemma_cache_push(es0, e);
                }
                self.maps.push(e);
                self.maps.len() - 1
            },
        };
        proof {
            lemma_cache_entry_is(self.maps@, ei as int);
        }
        map.maps[maplink + 1].copy_band(&self.maps[ei].map, bx0, by0, w, h);
    }

    /// Rebuilds the eight linked-map slots of the render view: each shows
    /// the border band of its neighbor chunk where that chunk's file
    /// exists (caching the neighbor, clean, on first access) and stays
    /// empty otherwise.
    pub fn load_link_maps(&mut self, map: &mut MapView, store: &mut FileStore)
        requires
            old(self).wf(),
            old(map).wf(),
        ensures
            final(self).wf(),
            final(map).wf(),
            final(store).files@ == old(store).files@,
            final(self).x == old(self).x && final(self).y == old(self).y && final(self).group
                == old(self).group && final(self).current_index == old(self).current_index,
            forall|k: Seq<char>|
                cache_has(old(self).maps@, k) ==> cache_has(final(self).maps@, k) && cache_entry(
                    final(self).maps@,
                    k,
                ) == cache_entry(old(self).maps@, k),
            forall|k: Seq<char>|
                cache_has(final(self).maps@, k) ==> cache_has(old(self).maps@, k) || (exists|
                ml: int|
                    0 <= ml < 8 && k == key_spec(
                        old(self).x + link_dx(ml),
                        old(self).y + link_dy(ml),
                        old(self).group as int,
                    )),
            forall|ml: int|
                0 <= ml < 8 ==> link_cache_ok(
                    old(self).maps@,
                    final(self).maps@,
                    old(store).files@,
                    old(self).x as int,
                    old(self).y as int,
                    old(self).group as int,
                    ml,
                ),
            forall|ml: int|
                0 <= ml < 8 ==> link_slot_ok(
                    *final(map),
                    final(self).maps@,
                    old(store).files@,
                    old(self).x as int,
                    old(self).y as int,
                    old(self).group as int,
                    ml,
                ),
            final(map).maps@[0] == old(map).maps@[0],
            final(map).link_map_selection == old(map).link_map_selection,
            final(map).preview_pos == old(map).preview_pos,
            final(map).preview_size == old(map).preview_size,
            final(map).preview_area == old(map).preview_area,
            final(map).preview_changed == old(map).preview_changed,
    {
        let ghost cx = self.x as int;
        let ghost cy = self.y as int;
        let ghost g = self.group as int;
        let ghost fs = store.files@;
        let ghost es_in = self.maps@;
        let mut maplink: usize = 0;
        while maplink < 8
            invariant
                self.wf(),
                map.wf(),
                store.files@ == fs,
                cx == old(self).x as int && cy == old(self).y as int && g == old(
                    self,
                ).group as int,
                fs == old(store).files@,
                es_in == old(self).maps@,
                self.x == old(self).x && self.y == old(self).y && self.group == old(self).group
                    && self.current_index == old(self).current_index,
                0 <= maplink <= 8,
                forall|k: Seq<char>|
                    cache_has(es_in, k) ==> cache_has(self.maps@, k) && cache_entry(self.maps@, k)
                        == cache_entry(es_in, k),
                forall|k: Seq<char>|
                    cache_has(self.maps@, k) ==> cache_has(es_in, k) || (exists|ml: int|
                        0 <= ml < maplink && k == key_spec(cx + link_dx(ml), cy + link_dy(ml), g)),
                forall|ml: int|
                    0 <= ml < maplink ==> link_cache_ok(es_in, self.maps@, fs, cx, cy, g, ml),
                forall|ml: int|
                    0 <= ml < maplink ==> link_slot_ok(*map, self.maps@, fs, cx, cy, g, ml),
                map.maps@[0] == old(map).maps@[0],
                forall|s: int|
                    maplink + 1 <= s < 9 ==> #[trigger] map.maps@[s] == old(map).maps@[s],
                map.link_map_selection == old(map).link_map_selection,
                map.preview_pos == old(map).preview_pos,
                map.preview_size == old(map).preview_size,
                map.preview_area == old(map).preview_area,
                map.preview_changed == old(map).preview_changed,
            decreases 8 - maplink,
        {
            let ghost es_pre = self.maps@;
            let ghost mv_pre = *map;
            self.load_link_map(map, store, maplink);
            proof {
                assert forall|ml: int|
                    0 <= ml < maplink + 1 implies link_cache_ok(
                    es_in,
                    self.maps@,
                    fs,
                    cx,
                    cy,
                    g,
                    ml,
                ) by {
                    let nx = cx + link_dx(ml);
                    let ny = cy + link_dy(ml);
                    let nk = key_spec(nx, ny, g);
                    let loaded = i32::MIN <= nx <= i32::MAX && i32::MIN <= ny <= i32::MAX
                        && find_file(fs, nx, ny, g) is Some;
                    if ml < maplink {
                        assert(link_cache_ok(es_in, es_pre, fs, cx, cy, g, ml));
                        if cache_has(es_pre, nk) {
                            assert(cache_entry(self.maps@, nk) == cache_entry(es_pre, nk));
                        }
                    } else {
                        assert(link_cache_ok(es_pre, self.maps@, fs, cx, cy, g, ml));
                        if loaded && !cache_has(es_in, nk) && cache_has(es_pre, nk) {
                            let ml2 = choose|ml2: int|
                                0 <= ml2 < maplink && nk == key_spec(
                                    cx + link_dx(ml2),
                                    cy + link_dy(ml2),
                                    g,
                                );
                            lemma_key_spec_injective(
                                nx,
                                ny,
                                g,
                                cx + link_dx(ml2),
                                cy + link_dy(ml2),
                                g,
                            );
                            assert(link_cache_ok(es_in, es_pre, fs, cx, cy, g, ml2));
                            assert(cache_has(es_pre, nk));
                            assert(cache_entry(self.maps@, nk) == cache_entry(es_pre, nk));
                        }
                    }
                }
                assert forall|ml: int|
                    0 <= ml < maplink + 1 implies link_slot_ok(
                    *map,
                    self.maps@,
                    fs,
                    cx,
                    cy,
                    g,
                    ml,
                ) by {
                    let nk = key_spec(cx + link_dx(ml), cy + link_dy(ml), g);
                    if ml < maplink {
                        assert(link_slot_ok(mv_pre, es_pre, fs, cx, cy, g, ml));
                        assert(link_cache_ok(es_in, es_pre, fs, cx, cy, g, ml));
                        assert(link_cache_ok(es_pre, es_pre, fs, cx, cy, g, ml)) by {
                            if cache_has(es_in, nk) {
                                assert(cache_entry(es_pre, nk) == cache_entry(es_in, nk));
                            }
                        }
                        assert(map.maps@[ml + 1] == mv_pre.maps@[ml + 1]);
                        if cache_has(es_pre, nk) {
                            assert(cache_entry(self.maps@, nk) == cache_entry(es_pre, nk));
                        }
                        lemma_link_slot_preserved(
                            mv_pre,
                            *map,
                            es_pre,
                            self.maps@,
                            fs,
                            cx,
                            cy,
                            g,
                            ml,
                        );
                    } else {
                        assert(link_slot_ok(*map, self.maps@, fs, cx, cy, g, ml));
                    }
                }
            }
            maplink = maplink + 1;
        }
    }

    /// Marks the active chunk as having unsaved edits.
    pub fn set_map_change(&mut self) -> (r: bool)
        requires
            old(self).wf(),
        ensures
            final(self).wf(),
            r,
            final(self).x == old(self).x && final(self).y == old(self).y && final(self).group
                == old(self).group && final(self).current_index == old(self).current_index,
            forall|k: Seq<char>|
                cache_has(final(self).maps@, k) == cache_has(old(self).maps@, k),
            cache_entry(final(self).maps@, old(self).current_index@) == (CacheEntry {
                dirty: true,
                ..cache_entry(old(self).maps@, old(self).current_index@)
            }),
            forall|k: Seq<char>|
                k != old(self).current_index@ && cache_has(old(self).maps@, k) ==> cache_entry(
                    final(self).maps@,
                    k,
                ) == cache_entry(old(self).maps@, k),
    {
        let ghost es0 = self.maps@;
        let i = match find_key_index(&self.maps, &self.current_index) {
            Some(i) => i,
            None => {
                proof {
                    assert(false);
                }
                0
            },
        };
        self.maps[i].dirty = true;
        proof {
            let e = CacheEntry { dirty: true, ..es0[i as int] };
            assert(self.maps@ =~= es0.update(i as int, e));
            lemma_cache_update(es0, i as int, e);
            lemma_cache_entry_is(es0, i as int);
        }
        true
    }

    /// Whether any cached chunk has unsaved edits.
    pub fn got_changes(&mut self) -> (r: bool)
        requires
            old(self).wf(),
        ensures
            *final(self) == *old(self),
            r == cache_any_dirty(old(self).maps@),
    {
        let mut i: usize = 0;
        while i < self.maps.len()
            invariant
                0 <= i <= self.maps@.len(),
                forall|j: int| 0 <= j < i ==> !(#[trigger] self.maps@[j]).dirty,
            decreases self.maps@.len() - i,
        {
            if self.maps[i].dirty {
                return true;
            }
            i = i + 1;
        }
        proof {
            if cache_any_dirty(self.maps@) {
                let w = choose|w: int| 0 <= w < self.maps@.len() && (#[trigger] self.maps@[w]).dirty;
                assert(false);
            }
        }
        false
    }

    /// Whether the chunk at `(x, y, group)` has unsaved edits; a chunk
    /// that is not cached has none.
    pub fn did_change(&mut self, x: i32, y: i32, group: u64) -> (r: bool)
        requires
            old(self).wf(),
        ensures
            *final(self) == *old(self),
            r == (cache_has(old(self).maps@, key_spec(x as int, y as int, group as int))
                && cache_entry(
                old(self).maps@,
                key_spec(x as int, y as int, group as int),
            ).dirty),
    {
        let key = key_of(x, y, group);
        match find_key_index(&self.maps, &key) {
            Some(i) => {
                proof {
                    lemma_cache_entry_is(self.maps@, i as int);
                }
                self.maps[i].dirty
            },
            None => false,
        }
    }
}

/// Row-major index of the tile at `(x, y)` within one 32x32 layer.
pub fn get_tile_pos(x: i32, y: i32) -> (r: usize)
    requires
        0 <= x < 32,
        0 <= y < 32,
    ensures
        r == x + y * 32,
{
    (x + (y * 32)) as usize
}

} // verus!
