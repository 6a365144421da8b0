use vstd::prelude::*;
use crate::load::load_tile_handles;
use crate::loader::TextureLoader;
use crate::place::{
    is_leaf_failure, lemma_structure_preserved, missing_in, place_tile, placeable, tile_placed,
    LoadStatus, PlacedTile, TilesetError,
};
use crate::tile::{
    id_range, same_shape, tiles_leaves, ImageId, TileDef, TileGroupId, TileHandle, TileKind,
    TilesetId,
};

verus! {

/// A tileset as written in its definition file.
pub struct TilesetDef {
    /// The optional name of the tileset (a generated one is used when absent).
    pub name: Option<String>,
    /// The id of the tileset.
    pub id: TilesetId,
    /// The tiles: each group id with the path of its definition file, relative
    /// to the tileset's own file, by increasing group id.
    pub tiles: Vec<(TileGroupId, String)>,
}

/// The group ids of a sequence of entries, in order.
pub open spec fn group_ids<T>(entries: Seq<(TileGroupId, T)>) -> Seq<TileGroupId> {
    entries.map_values(|e: (TileGroupId, T)| e.0)
}

/// The second components of a sequence of entries, in order.
pub open spec fn entry_values<T>(entries: Seq<(TileGroupId, T)>) -> Seq<T> {
    entries.map_values(|e: (TileGroupId, T)| e.1)
}

impl TilesetDef {
    pub open spec fn keys(self) -> Seq<TileGroupId> {
        group_ids(self.tiles@)
    }

    /// The group ids increase strictly, as the keys of an ordered map do.
    pub open spec fn wf(self) -> bool {
        forall|i: int, j: int| 0 <= i < j < self.tiles@.len() ==> self.tiles@[i].0 < self.tiles@[j].0
    }

    /// The group ids of the tiles, in order.
    pub fn group_ids(&self) -> (r: Vec<TileGroupId>)
        ensures
            r@ == self.keys(),
    {
        let mut r: Vec<TileGroupId> = Vec::new();
        let mut i: usize = 0;
        while i < self.tiles.len()
            invariant
                i <= self.tiles@.len(),
                r@ == self.keys().subrange(0, i as int),
            decreases self.tiles@.len() - i,
        {
            r.push(self.tiles[i].0);
            proof {
                assert(r@ =~= self.keys().subrange(0, i + 1));
            }
            i += 1;
        }
        proof {
            assert(r@ =~= self.keys());
        }
        r
    }
}

impl Default for TilesetDef {
    fn default() -> (r: TilesetDef)
        ensures
            r.name.is_none(),
            r.id == 0,
            r.tiles@.len() == 0,
    {
        TilesetDef { name: None, id: 0, tiles: Vec::new() }
    }
}

/// Registers the images of the tiles of `def`, whose definitions are
/// `tile_defs`, in the same order, and pairs each handle with its group id.
pub fn resolve_tiles<T: TextureLoader>(
    def: &TilesetDef,
    tile_defs: Vec<TileDef>,
    asset_loader: &mut T,
) -> (r: Vec<(TileGroupId, TileHandle)>)
    requires
        tile_defs@.len() == def.tiles@.len(),
        old(asset_loader).registered().len() + tiles_leaves(tile_defs@).len() <= usize::MAX,
    ensures
        group_ids(r@) == def.keys(),
        r@.len() == tile_defs@.len(),
        forall|i: int| 0 <= i < r@.len() ==> same_shape(#[trigger] tile_defs@[i], r@[i].1),
        tiles_leaves(entry_values(r@)) == id_range(
            old(asset_loader).registered().len() as int,
            tiles_leaves(tile_defs@).len() as int,
        ),
        final(asset_loader).registered() == old(asset_loader).registered() + tiles_leaves(tile_defs@),
{
    let ghost defs = tile_defs@;
    let handles = load_tile_handles(tile_defs, asset_loader);
    let mut r: Vec<(TileGroupId, TileHandle)> = Vec::new();
    let mut handles = handles;
    let ghost all = handles@;
    // Take the handles off the back, then restore the order.
    let mut rev: Vec<TileHandle> = Vec::new();
    while handles.len() > 0
        invariant
            handles@.len() + rev@.len() == all.len(),
            forall|k: int| 0 <= k < handles@.len() ==> handles@[k] == all[k],
            forall|k: int| 0 <= k < rev@.len() ==> rev@[k] == all[all.len() - 1 - k],
        decreases handles@.len(),
    {
        let h = handles.pop().unwrap();
        rev.push(h);
    }
    let mut i: usize = 0;
    while i < def.tiles.len()
        invariant
            i <= def.tiles@.len(),
            def.tiles@.len() == all.len(),
            rev@.len() == all.len() - i,
            forall|k: int| 0 <= k < rev@.len() ==> rev@[k] == all[all.len() - 1 - k],
            r@.len() == i,
            forall|k: int| 0 <= k < i ==> #[trigger] r@[k] == (def.tiles@[k].0, all[k]),
        decreases def.tiles@.len() - i,
    {
        let h = rev.pop().unwrap();
        r.push((def.tiles[i].0, h));
        i += 1;
    }
    proof {
        assert(group_ids(r@) =~= def.keys());
        assert(entry_values(r@) =~= all);
    }
    r
}

/// The assembled tileset: its tiles in index order, each with its group id,
/// and its leaves placed in the atlas.
pub struct Tileset {
    id: TilesetId,
    name: String,
    tile_ids: Vec<TileGroupId>,
    tile_handles: Vec<PlacedTile>,
    warnings: Vec<ImageId>,
}

impl Tileset {
    pub closed spec fn id_view(self) -> TilesetId {
        self.id
    }

    pub closed spec fn name_view(self) -> String {
        self.name
    }

    /// The group id of each index.
    pub closed spec fn ids(self) -> Seq<TileGroupId> {
        self.tile_ids@
    }

    /// The placed tile of each index.
    pub closed spec fn handles(self) -> Seq<PlacedTile> {
        self.tile_handles@
    }

    /// The identities of animation frames dropped for want of an image.
    pub closed spec fn dropped(self) -> Seq<ImageId> {
        self.warnings@
    }

    /// One tile per group id, each group id once.
    pub open spec fn wf(self) -> bool {
        &&& self.ids().len() == self.handles().len()
        &&& self.ids().no_duplicates()
    }

    /// The index of each group id.
    pub open spec fn index_map(self) -> Map<TileGroupId, int> {
        Map::new(
            |g: TileGroupId| self.ids().contains(g),
            |g: TileGroupId| choose|i: int| 0 <= i < self.ids().len() && self.ids()[i] == g,
        )
    }

    pub fn id(&self) -> (r: TilesetId)
        ensures
            r == self.id_view(),
    {
        self.id
    }

    pub fn name(&self) -> (r: &String)
        ensures
            *r == self.name_view(),
    {
        &self.name
    }

    /// The number of tiles.
    pub fn len(&self) -> (r: usize)
        ensures
            r == self.ids().len(),
    {
        self.tile_ids.len()
    }

    /// The group ids in index order.
    pub fn tile_ids(&self) -> (r: &Vec<TileGroupId>)
        ensures
            r@ == self.ids(),
    {
        &self.tile_ids
    }

    /// The placed tiles in index order.
    pub fn tile_handles(&self) -> (r: &Vec<PlacedTile>)
        ensures
            r@ == self.handles(),
    {
        &self.tile_handles
    }

    /// The animation frames that were dropped because their image failed.
    pub fn warnings(&self) -> (r: &Vec<ImageId>)
        ensures
            r@ == self.dropped(),
    {
        &self.warnings
    }

    /// The index of the tile with group id `group`.
    pub fn index_of(&self, group: TileGroupId) -> (r: Option<usize>)
        requires
            self.wf(),
        ensures
            r is Some <==> self.index_map().dom().contains(group),
            r is Some ==> r->Some_0 == self.index_map()[group],
    {
        let r = find_index(&self.tile_ids, group);
        proof {
            if let Some(i) = r {
                assert(self.ids().contains(group));
                let c = choose|j: int| 0 <= j < self.ids().len() && self.ids()[j] == group;
                assert(c == i as int);
            }
        }
        r
    }

    /// The group id of the tile at `index`.
    pub fn group_at(&self, index: usize) -> (r: Option<TileGroupId>)
        ensures
            index < self.ids().len() ==> r == Some(self.ids()[index as int]),
            index >= self.ids().len() ==> r.is_none(),
    {
        if index < self.tile_ids.len() {
            Some(self.tile_ids[index])
        } else {
            None
        }
    }

    /// The placed tile of group `group`.
    pub fn tile_handle(&self, group: TileGroupId) -> (r: Option<&PlacedTile>)
        requires
            self.wf(),
        ensures
            r is Some <==> self.index_map().dom().contains(group),
            r is Some ==> *r->Some_0 == self.handles()[self.index_map()[group]],
    {
        match self.index_of(group) {
            Some(i) => Some(&self.tile_handles[i]),
            None => None,
        }
    }

    /// The group id of the first tile, by index, named `name`.
    pub fn group_of_name(&self, name: &String) -> (r: Option<TileGroupId>)
        requires
            self.wf(),
        ensures
            match r {
                Some(g) => exists|i: int|
                    0 <= i < self.ids().len() && self.ids()[i] == g && (#[trigger] self.handles()[i]).name@
                        == name@ && forall|j: int| 0 <= j < i ==> self.handles()[j].name@ != name@,
                None => forall|i: int| 0 <= i < self.handles().len() ==> (#[trigger] self.handles()[i]).name@ != name@,
            },
    {
        let mut i: usize = 0;
        while i < self.tile_handles.len()
            invariant
                self.wf(),
                i <= self.handles().len(),
                forall|j: int| 0 <= j < i ==> (#[trigger] self.handles()[j]).name@ != name@,
            decreases self.handles().len() - i,
        {
            if self.tile_handles[i].name.eq(name) {
                assert(self.handles()[i as int].name@ == name@);
                return Some(self.tile_ids[i]);
            }
            i += 1;
        }
        None
    }

    /// The name of the tile of group `group`.
    pub fn tile_name(&self, group: TileGroupId) -> (r: Option<&String>)
        requires
            self.wf(),
        ensures
            r is Some <==> self.index_map().dom().contains(group),
            r is Some ==> *r->Some_0 == self.handles()[self.index_map()[group]].name,
    {
        match self.index_of(group) {
            Some(i) => Some(&self.tile_handles[i].name),
            None => None,
        }
    }
}

/// The first position of `g` in `ids`.
fn find_index(ids: &Vec<TileGroupId>, g: TileGroupId) -> (r: Option<usize>)
    ensures
        match r {
            Some(i) => i < ids@.len() && ids@[i as int] == g,
            None => !ids@.contains(g),
        },
{
    let mut i: usize = 0;
    while i < ids.len()
        invariant
            i <= ids@.len(),
            forall|k: int| 0 <= k < i ==> ids@[k] != g,
        decreases ids@.len() - i,
    {
        if ids[i] == g {
            return Some(i);
        }
        i += 1;
    }
    None
}

/// Tile `i` of `entries` is accepted: its group id is new and it can be placed.
pub open spec fn accepted(
    entries: Seq<(TileGroupId, TileHandle)>,
    i: int,
    pl: Seq<LoadStatus>,
    strict: bool,
) -> bool {
    !group_ids(entries).subrange(0, i).contains(entries[i].0) && placeable(entries[i].1, pl, strict)
}

/// Assembles the tileset from its handles, in the given order, and the load
/// outcome of every registered image.
///
/// Tile `i` gets index `i`. The first tile whose group id was already taken
/// fails the build with `DuplicateId`; the first that cannot be placed fails
/// it with the error of one of its missing images (see `place_tile`). In
/// lenient mode only a standard tile without its image cannot be placed; the
/// frames and variants dropped elsewhere are listed in the tileset's warnings.
pub fn build_tileset(
    name: Option<String>,
    fallback_name: String,
    id: TilesetId,
    handles: Vec<(TileGroupId, TileHandle)>,
    placements: &Vec<LoadStatus>,
    strict: bool,
) -> (r: Result<Tileset, TilesetError>)
    ensures
        match r {
            Ok(t) => {
                &&& t.wf()
                &&& t.id_view() == id
                &&& t.name_view() == (match name {
                    Some(n) => n,
                    None => fallback_name,
                })
                &&& t.ids() == group_ids(handles@)
                &&& forall|i: int|
                    0 <= i < handles@.len() ==> tile_placed(
                        #[trigger] handles@[i].1,
                        t.handles()[i],
                        placements@,
                        strict,
                    )
                &&& t.dropped() == tiles_leaves(entry_values(handles@)).filter(missing_in(placements@))
            },
            Err(e) => exists|i: int|
                0 <= i < handles@.len() && (forall|j: int| 0 <= j < i ==> accepted(handles@, j, placements@, strict))
                    && !(#[trigger] accepted(handles@, i, placements@, strict)) && (if group_ids(
                    handles@,
                ).subrange(0, i).contains(handles@[i].0) {
                    e == TilesetError::DuplicateId(handles@[i].0)
                } else {
                    is_leaf_failure(handles@[i].1.leaves(), placements@, e)
                }),
        },
        r is Err ==> exists|i: int|
            0 <= i < handles@.len() && (group_ids(handles@).subrange(0, i).contains((#[trigger] handles@[i]).0)
                || strict || (match handles@[i].1.kind {
                TileKind::Standard(id) => missing_in(placements@)(id),
                _ => false,
            })),
{
    let ghost gs = group_ids(handles@);
    let ghost hs = entry_values(handles@);
    let mut ids: Vec<TileGroupId> = Vec::new();
    let mut placed: Vec<PlacedTile> = Vec::new();
    let mut warnings: Vec<ImageId> = Vec::new();
    let mut i: usize = 0;
    while i < handles.len()
        invariant
            i <= handles@.len(),
            gs == group_ids(handles@),
            hs == entry_values(handles@),
            ids@ == gs.subrange(0, i as int),
            ids@.no_duplicates(),
            placed@.len() == i,
            forall|k: int| 0 <= k < i ==> tile_placed(#[trigger] handles@[k].1, placed@[k], placements@, strict),
            forall|k: int| 0 <= k < i ==> accepted(handles@, k, placements@, strict),
            warnings@ == tiles_leaves(hs.subrange(0, i as int)).filter(missing_in(placements@)),
        decreases handles@.len() - i,
    {
        let g = handles[i].0;
        assert(gs[i as int] == g);
        if let Some(_) = find_index(&ids, g) {
            proof {
                assert(!accepted(handles@, i as int, placements@, strict));
                assert(group_ids(handles@).subrange(0, i as int).contains(handles@[i as int].0));
            }
            return Err(TilesetError::DuplicateId(g));
        }
        let ghost pre = tiles_leaves(hs.subrange(0, i as int));
        proof {
            assert(hs.subrange(0, i + 1).drop_last() =~= hs.subrange(0, i as int));
            Seq::filter_distributes_over_add(pre, hs[i as int].leaves(), missing_in(placements@));
        }
        match place_tile(&handles[i].1, placements, strict, &mut warnings) {
            Ok(p) => {
                proof {
                    assert(placeable(handles@[i as int].1, placements@, strict));
                    assert(accepted(handles@, i as int, placements@, strict));
                }
                placed.push(p);
                ids.push(g);
                proof {
                    assert(ids@ =~= gs.subrange(0, i + 1));
                    assert(warnings@ =~= tiles_leaves(hs.subrange(0, i + 1)).filter(missing_in(placements@)));
                }
            },
            Err(e) => {
                proof {
                    assert(!accepted(handles@, i as int, placements@, strict));
                }
                return Err(e);
            },
        }
        i += 1;
    }
    proof {
        assert(ids@ =~= gs);
        assert(hs.subrange(0, i as int) =~= hs);
    }
    let name = match name {
        Some(n) => n,
        None => fallback_name,
    };
    Ok(Tileset { id, name, tile_ids: ids, tile_handles: placed, warnings })
}

/// In a well-formed tileset the group ids, the indices and the tile handles
/// correspond one to one: every group id has exactly one index, every index
/// in `0..n` belongs to exactly one group id, and there is one handle per index.
pub proof fn lemma_tables_correspond(t: Tileset)
    requires
        t.wf(),
    ensures
        t.handles().len() == t.ids().len(),
        t.ids().to_set().len() == t.ids().len(),
        t.index_map().dom() == t.ids().to_set(),
        forall|i: int| 0 <= i < t.ids().len() ==> t.index_map()[#[trigger] t.ids()[i]] == i,
        forall|g: TileGroupId|
            #[trigger] t.index_map().dom().contains(g) ==> 0 <= t.index_map()[g] < t.ids().len()
                && t.ids()[t.index_map()[g]] == g,
{
    let ids = t.ids();
    ids.unique_seq_to_set();
    assert(t.index_map().dom() =~= ids.to_set());
    assert forall|i: int| 0 <= i < ids.len() implies t.index_map()[#[trigger] ids[i]] == i by {
        assert(ids.contains(ids[i]));
        let c = choose|j: int| 0 <= j < ids.len() && ids[j] == ids[i];
        assert(c == i);
    }
    assert forall|g: TileGroupId| #[trigger] t.index_map().dom().contains(g) implies 0 <= t.index_map()[g]
        < ids.len() && ids[t.index_map()[g]] == g by {
        assert(ids.contains(g));
    }
}

/// The tile at position `n` of a definition gets index `n` in a tileset
/// whose group ids are those of the definition, in order.
pub proof fn lemma_order_preserved(def: TilesetDef, t: Tileset)
    requires
        t.wf(),
        t.ids() == def.keys(),
    ensures
        forall|n: int|
            0 <= n < def.tiles@.len() ==> t.index_map()[#[trigger] def.tiles@[n].0] == n,
{
    lemma_tables_correspond(t);
    assert forall|n: int| 0 <= n < def.tiles@.len() implies t.index_map()[#[trigger] def.tiles@[n].0] == n by {
        assert(t.ids()[n] == def.tiles@[n].0);
    }
}

/// The tiles of a definition never collide: no group id repeats an earlier
/// one, so a tileset assembled in definition order never fails with
/// `DuplicateId`.
pub proof fn lemma_definition_ids_distinct(def: TilesetDef)
    requires
        def.wf(),
    ensures
        forall|i: int|
            0 <= i < def.tiles@.len() ==> !(#[trigger] def.keys().subrange(0, i)).contains(def.tiles@[i].0),
{
    assert forall|i: int| 0 <= i < def.tiles@.len() implies !(#[trigger] def.keys().subrange(0, i)).contains(
        def.tiles@[i].0,
    ) by {
        if def.keys().subrange(0, i).contains(def.tiles@[i].0) {
            let j = choose|j: int| 0 <= j < i && def.keys().subrange(0, i)[j] == def.tiles@[i].0;
            assert(def.tiles@[j].0 < def.tiles@[i].0);
        }
    }
}

proof fn lemma_tiles_nothing_missing(hs: Seq<TileHandle>, pl: Seq<LoadStatus>)
    requires
        tiles_leaves(hs).filter(missing_in(pl)).len() == 0,
    ensures
        forall|i: int| 0 <= i < hs.len() ==> (#[trigger] hs[i]).leaves().filter(missing_in(pl)).len() == 0,
    decreases hs.len(),
{
    if hs.len() > 0 {
        let d = hs.drop_last();
        Seq::filter_distributes_over_add(tiles_leaves(d), hs.last().leaves(), missing_in(pl));
        lemma_tiles_nothing_missing(d, pl);
        assert forall|i: int| 0 <= i < hs.len() implies (#[trigger] hs[i]).leaves().filter(missing_in(pl)).len() == 0 by {
            if i < d.len() {
                assert(d[i] == hs[i]);
            }
        }
    }
}

/// When no image failed, every tile of the assembled tileset has the shape of
/// the definition it came from: the same kind, name, speeds, weights and
/// rules, and the same number of frames and variants.
pub proof fn lemma_tileset_structure_preserved(
    defs: Seq<TileDef>,
    entries: Seq<(TileGroupId, TileHandle)>,
    t: Tileset,
    pl: Seq<LoadStatus>,
    strict: bool,
)
    requires
        entries.len() == defs.len(),
        forall|i: int| 0 <= i < defs.len() ==> same_shape(#[trigger] defs[i], entries[i].1),
        t.handles().len() == entries.len(),
        forall|i: int| 0 <= i < entries.len() ==> tile_placed(#[trigger] entries[i].1, t.handles()[i], pl, strict),
        t.dropped() == tiles_leaves(entry_values(entries)).filter(missing_in(pl)),
        t.dropped().len() == 0,
    ensures
        forall|i: int| 0 <= i < defs.len() ==> same_shape(#[trigger] defs[i], t.handles()[i]),
{
    let hs = entry_values(entries);
    lemma_tiles_nothing_missing(hs, pl);
    assert forall|i: int| 0 <= i < defs.len() implies same_shape(#[trigger] defs[i], t.handles()[i]) by {
        assert(hs[i] == entries[i].1);
        assert(tile_placed(entries[i].1, t.handles()[i], pl, strict));
        lemma_structure_preserved(defs[i], entries[i].1, t.handles()[i], pl, strict);
    }
}

} // verus!
