use vstd::prelude::*;
use crate::loader::TextureLoader;
use crate::tile::{
    lemma_autos_leaves_prefix, lemma_tiles_leaves_prefix, lemma_variants_leaves_prefix,
    animated_same_shape, autos_leaves, id_range, same_shape, simple_same_shape, tiles_leaves,
    variant_same_shape, variants_leaves, AnimatedTile, AutoTile, ImageId, SimpleTile, Tile,
    TileDef, TileHandle, TileKind, VariantTile,
};

verus! {

proof fn lemma_id_range_split(start: int, a: int, b: int)
    requires
        0 <= start,
        0 <= a,
        0 <= b,
    ensures
        id_range(start, a) + id_range(start + a, b) =~= id_range(start, a + b),
{
}

/// Registers every frame of an animation, in order.
fn load_animated<T: TextureLoader>(def: &AnimatedTile<String>, asset_loader: &mut T) -> (r:
    AnimatedTile<ImageId>)
    requires
        old(asset_loader).registered().len() + def.leaves().len() <= usize::MAX,
    ensures
        animated_same_shape(*def, r),
        r.leaves() == id_range(old(asset_loader).registered().len() as int, def.leaves().len() as int),
        final(asset_loader).registered() == old(asset_loader).registered() + def.leaves(),
{
    let mut frames: Vec<ImageId> = Vec::new();
    let mut i: usize = 0;
    while i < def.frames.len()
        invariant
            i <= def.frames@.len(),
            old(asset_loader).registered().len() + def.frames@.len() <= usize::MAX,
            frames@ == id_range(old(asset_loader).registered().len() as int, i as int),
            asset_loader.registered() == old(asset_loader).registered() + def.frames@.subrange(0, i as int),
        decreases def.frames@.len() - i,
    {
        let id = asset_loader.load_texture(def.frames[i].clone());
        frames.push(id);
        proof {
            assert(def.frames@.subrange(0, i + 1) =~= def.frames@.subrange(0, i as int).push(def.frames@[i as int]));
            assert(frames@ =~= id_range(old(asset_loader).registered().len() as int, i + 1));
        }
        i += 1;
    }
    proof {
        assert(def.frames@.subrange(0, i as int) =~= def.frames@);
    }
    AnimatedTile { speed_bits: def.speed_bits, frames }
}

/// Registers the leaves of a simple tile.
fn load_simple<T: TextureLoader>(def: &SimpleTile<String>, asset_loader: &mut T) -> (r: SimpleTile<
    ImageId,
>)
    requires
        old(asset_loader).registered().len() + def.leaves().len() <= usize::MAX,
    ensures
        simple_same_shape(*def, r),
        r.leaves() == id_range(old(asset_loader).registered().len() as int, def.leaves().len() as int),
        final(asset_loader).registered() == old(asset_loader).registered() + def.leaves(),
{
    match def {
        SimpleTile::Standard(path) => {
            let id = asset_loader.load_texture(path.clone());
            proof {
                assert(single_leaf(id) =~= id_range(id as int, 1));
            }
            SimpleTile::Standard(id)
        },
        SimpleTile::Animated(anim) => SimpleTile::Animated(load_animated(anim, asset_loader)),
    }
}

spec fn single_leaf(id: ImageId) -> Seq<ImageId> {
    seq![id]
}

/// Registers the leaves of one weighted variant.
fn load_variant<T: TextureLoader>(def: &VariantTile<String>, asset_loader: &mut T) -> (r:
    VariantTile<ImageId>)
    requires
        old(asset_loader).registered().len() + def.leaves().len() <= usize::MAX,
    ensures
        variant_same_shape(*def, r),
        r.leaves() == id_range(old(asset_loader).registered().len() as int, def.leaves().len() as int),
        final(asset_loader).registered() == old(asset_loader).registered() + def.leaves(),
{
    VariantTile { weight_bits: def.weight_bits, tile: load_simple(&def.tile, asset_loader) }
}

/// Registers the leaves of a list of variants, variant after variant.
fn load_variants<T: TextureLoader>(defs: &Vec<VariantTile<String>>, asset_loader: &mut T) -> (r: Vec<
    VariantTile<ImageId>,
>)
    requires
        old(asset_loader).registered().len() + variants_leaves(defs@).len() <= usize::MAX,
    ensures
        crate::tile::variants_same_shape(defs@, r@),
        variants_leaves(r@) == id_range(
            old(asset_loader).registered().len() as int,
            variants_leaves(defs@).len() as int,
        ),
        final(asset_loader).registered() == old(asset_loader).registered() + variants_leaves(defs@),
{
    let ghost start = old(asset_loader).registered().len() as int;
    let mut out: Vec<VariantTile<ImageId>> = Vec::new();
    let mut i: usize = 0;
    while i < defs.len()
        invariant
            i <= defs@.len(),
            out@.len() == i,
            start == old(asset_loader).registered().len(),
            start + variants_leaves(defs@).len() <= usize::MAX,
            forall|k: int| 0 <= k < i ==> variant_same_shape(#[trigger] defs@[k], out@[k]),
            variants_leaves(out@) == id_range(start, variants_leaves(defs@.subrange(0, i as int)).len() as int),
            asset_loader.registered() == old(asset_loader).registered() + variants_leaves(defs@.subrange(0, i as int)),
        decreases defs@.len() - i,
    {
        let ghost done = variants_leaves(defs@.subrange(0, i as int));
        let ghost prev_out = out@;
        proof {
            lemma_variants_leaves_prefix(defs@, i + 1);
            assert(defs@.subrange(0, i + 1).drop_last() =~= defs@.subrange(0, i as int));
        }
        let v = load_variant(&defs[i], asset_loader);
        out.push(v);
        proof {
            assert(out@.drop_last() =~= prev_out);
            lemma_id_range_split(start, done.len() as int, defs@[i as int].leaves().len() as int);
        }
        i += 1;
    }
    proof {
        assert(defs@.subrange(0, i as int) =~= defs@);
    }
    out
}

/// Registers the leaves of an auto tile's rule.
fn load_auto<T: TextureLoader>(def: &AutoTile<String>, asset_loader: &mut T) -> (r: AutoTile<
    ImageId,
>)
    requires
        old(asset_loader).registered().len() + def.leaves().len() <= usize::MAX,
    ensures
        crate::tile::auto_same_shape(*def, r),
        r.leaves() == id_range(old(asset_loader).registered().len() as int, def.leaves().len() as int),
        final(asset_loader).registered() == old(asset_loader).registered() + def.leaves(),
{
    AutoTile { rule: def.rule, variants: load_variants(&def.variants, asset_loader) }
}

/// Registers the leaves of a list of auto rules, rule after rule.
fn load_autos<T: TextureLoader>(defs: &Vec<AutoTile<String>>, asset_loader: &mut T) -> (r: Vec<
    AutoTile<ImageId>,
>)
    requires
        old(asset_loader).registered().len() + autos_leaves(defs@).len() <= usize::MAX,
    ensures
        crate::tile::autos_same_shape(defs@, r@),
        autos_leaves(r@) == id_range(
            old(asset_loader).registered().len() as int,
            autos_leaves(defs@).len() as int,
        ),
        final(asset_loader).registered() == old(asset_loader).registered() + autos_leaves(defs@),
{
    let ghost start = old(asset_loader).registered().len() as int;
    let mut out: Vec<AutoTile<ImageId>> = Vec::new();
    let mut i: usize = 0;
    while i < defs.len()
        invariant
            i <= defs@.len(),
            out@.len() == i,
            start == old(asset_loader).registered().len(),
            start + autos_leaves(defs@).len() <= usize::MAX,
            forall|k: int| 0 <= k < i ==> crate::tile::auto_same_shape(#[trigger] defs@[k], out@[k]),
            autos_leaves(out@) == id_range(start, autos_leaves(defs@.subrange(0, i as int)).len() as int),
            asset_loader.registered() == old(asset_loader).registered() + autos_leaves(defs@.subrange(0, i as int)),
        decreases defs@.len() - i,
    {
        let ghost done = autos_leaves(defs@.subrange(0, i as int));
        let ghost prev_out = out@;
        proof {
            lemma_autos_leaves_prefix(defs@, i + 1);
            assert(defs@.subrange(0, i + 1).drop_last() =~= defs@.subrange(0, i as int));
        }
        let a = load_auto(&defs[i], asset_loader);
        out.push(a);
        proof {
            assert(out@.drop_last() =~= prev_out);
            lemma_id_range_split(start, done.len() as int, defs@[i as int].leaves().len() as int);
        }
        i += 1;
    }
    proof {
        assert(defs@.subrange(0, i as int) =~= defs@);
    }
    out
}

/// Registers the leaves of one tile and mirrors its structure.
fn load_tile<T: TextureLoader>(def: &TileDef, asset_loader: &mut T) -> (r: TileHandle)
    requires
        old(asset_loader).registered().len() + def.leaves().len() <= usize::MAX,
    ensures
        same_shape(*def, r),
        r.leaves() == id_range(old(asset_loader).registered().len() as int, def.leaves().len() as int),
        final(asset_loader).registered() == old(asset_loader).registered() + def.leaves(),
{
    let kind = match &def.kind {
        TileKind::Standard(path) => {
            let id = asset_loader.load_texture(path.clone());
            proof {
                assert(single_leaf(id) =~= id_range(id as int, 1));
            }
            TileKind::Standard(id)
        },
        TileKind::Animated(anim) => TileKind::Animated(load_animated(anim, asset_loader)),
        TileKind::Variant(variants) => TileKind::Variant(load_variants(variants, asset_loader)),
        TileKind::Auto(autos) => TileKind::Auto(load_autos(autos, asset_loader)),
    };
    Tile { name: def.name.clone(), kind }
}

/// Registers every image of the given tile definitions with the loader and
/// returns their handles, in the order of the definitions.
///
/// Each handle has the shape of its definition; its leaves are the identities
/// the loader gave, which run consecutively over all tiles in leaf order, and
/// the loader's table gains exactly the leaf paths, in that order.
pub fn load_tile_handles<T: TextureLoader>(tiles: Vec<TileDef>, asset_loader: &mut T) -> (r: Vec<
    TileHandle,
>)
    requires
        old(asset_loader).registered().len() + tiles_leaves(tiles@).len() <= usize::MAX,
    ensures
        r@.len() == tiles@.len(),
        forall|i: int| 0 <= i < tiles@.len() ==> same_shape(#[trigger] tiles@[i], r@[i]),
        tiles_leaves(r@) == id_range(
            old(asset_loader).registered().len() as int,
            tiles_leaves(tiles@).len() as int,
        ),
        final(asset_loader).registered() == old(asset_loader).registered() + tiles_leaves(tiles@),
{
    let ghost start = old(asset_loader).registered().len() as int;
    let mut out: Vec<TileHandle> = Vec::new();
    let mut i: usize = 0;
    while i < tiles.len()
        invariant
            i <= tiles@.len(),
            out@.len() == i,
            start == old(asset_loader).registered().len(),
            start + tiles_leaves(tiles@).len() <= usize::MAX,
            forall|k: int| 0 <= k < i ==> same_shape(#[trigger] tiles@[k], out@[k]),
            tiles_leaves(out@) == id_range(start, tiles_leaves(tiles@.subrange(0, i as int)).len() as int),
            asset_loader.registered() == old(asset_loader).registered() + tiles_leaves(tiles@.subrange(0, i as int)),
        decreases tiles@.len() - i,
    {
        let ghost done = tiles_leaves(tiles@.subrange(0, i as int));
        let ghost prev_out = out@;
        proof {
            lemma_tiles_leaves_prefix(tiles@, i + 1);
            assert(tiles@.subrange(0, i + 1).drop_last() =~= tiles@.subrange(0, i as int));
        }
        let h = load_tile(&tiles[i], asset_loader);
        out.push(h);
        proof {
            assert(out@.drop_last() =~= prev_out);
            lemma_id_range_split(start, done.len() as int, tiles@[i as int].leaves().len() as int);
        }
        i += 1;
    }
    proof {
        assert(tiles@.subrange(0, i as int) =~= tiles@);
    }
    out
}

} // verus!
