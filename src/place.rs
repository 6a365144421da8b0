use vstd::prelude::*;
use crate::tile::{
    lemma_autos_leaves_prefix, lemma_variants_leaves_prefix, animated_same_shape, auto_same_shape, autos_leaves, autos_same_shape, same_shape,
    variant_same_shape, variants_leaves, variants_same_shape, AnimatedTile, AutoTile, ImageId,
    SimpleTile, Tile, TileGroupId, TileHandle, TileKind, VariantTile,
};

verus! {

/// What became of one registered image by the time the atlas is assembled.
#[derive(Clone, Copy, PartialEq, Eq, Structural, Debug)]
pub enum LoadStatus {
    /// No outcome was reported for it.
    Pending,
    /// It loaded and was added to the atlas at this index.
    Placed(usize),
    /// Its bytes could not be read.
    ReadFailed,
    /// Its bytes are not a valid image.
    DecodeFailed,
}

/// An image identity together with its place in the packed atlas.
#[derive(Clone, Copy, PartialEq, Eq, Structural, Debug)]
pub struct Placement {
    pub image: ImageId,
    pub index: usize,
}

/// A tile whose leaves point into the atlas.
pub type PlacedTile = Tile<Placement>;

/// The ways in which loading or assembling a tileset fails.
#[derive(Clone, PartialEq, Eq, Debug)]
pub enum TilesetError {
    /// A definition file could not be read; holds its path.
    ReadError(String),
    /// A definition file is malformed; holds a description.
    ParseError(String),
    /// The bytes of a registered image could not be read.
    ImageReadError(ImageId),
    /// The bytes of a registered image are not a valid image.
    ImageDecodeError(ImageId),
    /// A registered image has no outcome at all.
    MissingImage(ImageId),
    /// Two tiles claim the same group id.
    DuplicateId(TileGroupId),
}

pub open spec fn placed_in(pl: Seq<LoadStatus>) -> spec_fn(ImageId) -> bool {
    |id: ImageId| id < pl.len() && pl[id as int] is Placed
}

pub open spec fn missing_in(pl: Seq<LoadStatus>) -> spec_fn(ImageId) -> bool {
    |id: ImageId| !(id < pl.len() && pl[id as int] is Placed)
}

pub open spec fn place_in(pl: Seq<LoadStatus>) -> spec_fn(ImageId) -> Placement {
    |id: ImageId| Placement { image: id, index: pl[id as int]->Placed_0 }
}

/// The error reported for an image that has no placement.
pub open spec fn failure_of(pl: Seq<LoadStatus>, id: ImageId) -> TilesetError {
    if id < pl.len() && pl[id as int] is ReadFailed {
        TilesetError::ImageReadError(id)
    } else if id < pl.len() && pl[id as int] is DecodeFailed {
        TilesetError::ImageDecodeError(id)
    } else {
        TilesetError::MissingImage(id)
    }
}

/// `e` is the error of one of `leaves` that has no placement.
pub open spec fn is_leaf_failure(leaves: Seq<ImageId>, pl: Seq<LoadStatus>, e: TilesetError) -> bool {
    exists|k: int| 0 <= k < leaves.len() && missing_in(pl)(#[trigger] leaves[k]) && e == failure_of(pl, leaves[k])
}

// ---------------------------------------------------------------------------
// The placed form of a handle: frames without a placement are dropped (and,
// in strict mode, not allowed); every other leaf must have one.
// ---------------------------------------------------------------------------

pub open spec fn animated_placed(
    h: AnimatedTile<ImageId>,
    p: AnimatedTile<Placement>,
    pl: Seq<LoadStatus>,
    strict: bool,
) -> bool {
    &&& h.speed_bits == p.speed_bits
    &&& strict ==> (forall|k: int| 0 <= k < h.frames@.len() ==> placed_in(pl)(#[trigger] h.frames@[k]))
    &&& p.frames@ == h.frames@.filter(placed_in(pl)).map_values(place_in(pl))
}

pub open spec fn simple_placed(
    h: SimpleTile<ImageId>,
    p: SimpleTile<Placement>,
    pl: Seq<LoadStatus>,
    strict: bool,
) -> bool {
    match (h, p) {
        (SimpleTile::Standard(i), SimpleTile::Standard(q)) => placed_in(pl)(i) && q == place_in(pl)(i),
        (SimpleTile::Animated(x), SimpleTile::Animated(y)) => animated_placed(x, y, pl, strict),
        _ => false,
    }
}

pub open spec fn variant_placed(
    h: VariantTile<ImageId>,
    p: VariantTile<Placement>,
    pl: Seq<LoadStatus>,
    strict: bool,
) -> bool {
    h.weight_bits == p.weight_bits && simple_placed(h.tile, p.tile, pl, strict)
}

/// A variant that stays in lenient mode: any but a single image without a
/// placement.
pub open spec fn variant_kept(pl: Seq<LoadStatus>) -> spec_fn(VariantTile<ImageId>) -> bool {
    |v: VariantTile<ImageId>|
        match v.tile {
            SimpleTile::Standard(id) => id < pl.len() && pl[id as int] is Placed,
            SimpleTile::Animated(_) => true,
        }
}

/// The variants that are placed: all of them in strict mode; in lenient mode
/// those that are kept, in order.
pub open spec fn kept_variants(
    h: Seq<VariantTile<ImageId>>,
    pl: Seq<LoadStatus>,
    strict: bool,
) -> Seq<VariantTile<ImageId>> {
    if strict {
        h
    } else {
        h.filter(variant_kept(pl))
    }
}

pub open spec fn variants_placed(
    h: Seq<VariantTile<ImageId>>,
    p: Seq<VariantTile<Placement>>,
    pl: Seq<LoadStatus>,
    strict: bool,
) -> bool {
    &&& p.len() == kept_variants(h, pl, strict).len()
    &&& forall|i: int|
        0 <= i < p.len() ==> variant_placed(#[trigger] kept_variants(h, pl, strict)[i], p[i], pl, strict)
}

pub open spec fn auto_placed(
    h: AutoTile<ImageId>,
    p: AutoTile<Placement>,
    pl: Seq<LoadStatus>,
    strict: bool,
) -> bool {
    h.rule == p.rule && variants_placed(h.variants@, p.variants@, pl, strict)
}

pub open spec fn autos_placed(
    h: Seq<AutoTile<ImageId>>,
    p: Seq<AutoTile<Placement>>,
    pl: Seq<LoadStatus>,
    strict: bool,
) -> bool {
    h.len() == p.len() && forall|i: int| 0 <= i < h.len() ==> auto_placed(#[trigger] h[i], p[i], pl, strict)
}

pub open spec fn kind_placed(
    h: TileKind<ImageId>,
    p: TileKind<Placement>,
    pl: Seq<LoadStatus>,
    strict: bool,
) -> bool {
    match (h, p) {
        (TileKind::Standard(i), TileKind::Standard(q)) => placed_in(pl)(i) && q == place_in(pl)(i),
        (TileKind::Animated(x), TileKind::Animated(y)) => animated_placed(x, y, pl, strict),
        (TileKind::Variant(x), TileKind::Variant(y)) => variants_placed(x@, y@, pl, strict),
        (TileKind::Auto(x), TileKind::Auto(y)) => autos_placed(x@, y@, pl, strict),
        _ => false,
    }
}

/// `p` is the handle `h` with its leaves placed according to `pl`.
pub open spec fn tile_placed(h: TileHandle, p: PlacedTile, pl: Seq<LoadStatus>, strict: bool) -> bool {
    h.name == p.name && kind_placed(h.kind, p.kind, pl, strict)
}

/// The handle `h` can be placed according to `pl`.
pub open spec fn placeable(h: TileHandle, pl: Seq<LoadStatus>, strict: bool) -> bool {
    exists|p: PlacedTile| tile_placed(h, p, pl, strict)
}

fn lookup(pl: &Vec<LoadStatus>, id: ImageId) -> (r: Option<Placement>)
    ensures
        r is Some <==> placed_in(pl@)(id),
        r is Some ==> r->Some_0 == place_in(pl@)(id),
{
    if id < pl.len() {
        match pl[id] {
            LoadStatus::Placed(index) => Some(Placement { image: id, index }),
            _ => None,
        }
    } else {
        None
    }
}

fn failure(pl: &Vec<LoadStatus>, id: ImageId) -> (e: TilesetError)
    ensures
        e == failure_of(pl@, id),
{
    if id < pl.len() {
        match pl[id] {
            LoadStatus::ReadFailed => TilesetError::ImageReadError(id),
            LoadStatus::DecodeFailed => TilesetError::ImageDecodeError(id),
            _ => TilesetError::MissingImage(id),
        }
    } else {
        TilesetError::MissingImage(id)
    }
}

proof fn lemma_filter_single<A>(x: A, pred: spec_fn(A) -> bool)
    ensures
        seq![x].filter(pred) == (if pred(x) {
            seq![x]
        } else {
            Seq::<A>::empty()
        }),
{
    let e = Seq::<A>::empty();
    assert(seq![x] =~= e.push(x));
    e.lemma_filter_push(x, pred);
    reveal(Seq::filter);
    assert(e.filter(pred) =~= e);
    assert(e.push(x) =~= seq![x]);
}

proof fn lemma_filter_all<A>(s: Seq<A>, pred: spec_fn(A) -> bool)
    requires
        forall|i: int| 0 <= i < s.len() ==> pred(#[trigger] s[i]),
    ensures
        s.filter(pred) == s,
    decreases s.len(),
{
    if s.len() == 0 {
        reveal(Seq::filter);
        assert(s.filter(pred) =~= s);
    } else {
        let d = s.drop_last();
        assert(s =~= d.push(s.last()));
        d.lemma_filter_push(s.last(), pred);
        assert forall|i: int| 0 <= i < d.len() implies pred(#[trigger] d[i]) by {
            assert(d[i] == s[i]);
        }
        lemma_filter_all(d, pred);
    }
}

fn place_animated(
    h: &AnimatedTile<ImageId>,
    pl: &Vec<LoadStatus>,
    strict: bool,
    warnings: &mut Vec<ImageId>,
) -> (r: Result<AnimatedTile<Placement>, TilesetError>)
    ensures
        match r {
            Ok(p) => animated_placed(*h, p, pl@, strict) && final(warnings)@ == old(warnings)@
                + h.leaves().filter(missing_in(pl@)),
            Err(e) => (forall|p: AnimatedTile<Placement>| !animated_placed(*h, p, pl@, strict))
                && is_leaf_failure(h.leaves(), pl@, e),
        },
        r is Err ==> strict,
{
    let ghost fs = h.frames@;
    let mut frames: Vec<Placement> = Vec::new();
    let mut i: usize = 0;
    while i < h.frames.len()
        invariant
            i <= fs.len(),
            fs == h.frames@,
            frames@ == fs.subrange(0, i as int).filter(placed_in(pl@)).map_values(place_in(pl@)),
            warnings@ == old(warnings)@ + fs.subrange(0, i as int).filter(missing_in(pl@)),
            strict ==> forall|k: int| 0 <= k < i ==> placed_in(pl@)(#[trigger] fs[k]),
        decreases fs.len() - i,
    {
        let id = h.frames[i];
        let ghost pre = fs.subrange(0, i as int);
        proof {
            assert(fs.subrange(0, i + 1) =~= pre.push(id));
            pre.lemma_filter_push(id, placed_in(pl@));
            pre.lemma_filter_push(id, missing_in(pl@));
        }
        match lookup(pl, id) {
            Some(p) => {
                frames.push(p);
                proof {
                    assert(frames@ =~= pre.push(id).filter(placed_in(pl@)).map_values(place_in(pl@)));
                }
            },
            None => {
                if strict {
                    let e = failure(pl, id);
                    proof {
                        assert(missing_in(pl@)(id));
                        assert(h.leaves()[i as int] == id);
                        assert forall|p: AnimatedTile<Placement>| !animated_placed(*h, p, pl@, strict) by {
                            assert(!placed_in(pl@)(fs[i as int]));
                        }
                    }
                    return Err(e);
                }
                warnings.push(id);
                proof {
                    assert(warnings@ =~= old(warnings)@ + pre.push(id).filter(missing_in(pl@)));
                }
            },
        }
        i += 1;
    }
    proof {
        assert(fs.subrange(0, i as int) =~= fs);
    }
    Ok(AnimatedTile { speed_bits: h.speed_bits, frames })
}

fn place_simple(
    h: &SimpleTile<ImageId>,
    pl: &Vec<LoadStatus>,
    strict: bool,
    warnings: &mut Vec<ImageId>,
) -> (r: Result<SimpleTile<Placement>, TilesetError>)
    ensures
        match r {
            Ok(p) => simple_placed(*h, p, pl@, strict) && final(warnings)@ == old(warnings)@
                + h.leaves().filter(missing_in(pl@)),
            Err(e) => (forall|p: SimpleTile<Placement>| !simple_placed(*h, p, pl@, strict))
                && is_leaf_failure(h.leaves(), pl@, e),
        },
        r is Err ==> strict || (match *h {
            SimpleTile::Standard(id) => missing_in(pl@)(id),
            _ => false,
        }),
{
    match h {
        SimpleTile::Standard(id) => match lookup(pl, *id) {
            Some(p) => {
                proof {
                    lemma_filter_single(*id, missing_in(pl@));
                    assert(warnings@ =~= old(warnings)@ + h.leaves().filter(missing_in(pl@)));
                }
                Ok(SimpleTile::Standard(p))
            },
            None => {
                let e = failure(pl, *id);
                proof {
                    assert(missing_in(pl@)(*id));
                    assert(h.leaves()[0] == *id);
                }
                Err(e)
            },
        },
        SimpleTile::Animated(a) => match place_animated(a, pl, strict, warnings) {
            Ok(p) => Ok(SimpleTile::Animated(p)),
            Err(e) => {
                proof {
                    assert forall|p: SimpleTile<Placement>| !simple_placed(*h, p, pl@, strict) by {
                        if let SimpleTile::Animated(y) = p {
                            assert(!animated_placed(*a, y, pl@, strict));
                        }
                    }
                }
                Err(e)
            },
        },
    }
}

fn place_variant(
    h: &VariantTile<ImageId>,
    pl: &Vec<LoadStatus>,
    strict: bool,
    warnings: &mut Vec<ImageId>,
) -> (r: Result<VariantTile<Placement>, TilesetError>)
    ensures
        match r {
            Ok(p) => variant_placed(*h, p, pl@, strict) && final(warnings)@ == old(warnings)@
                + h.leaves().filter(missing_in(pl@)),
            Err(e) => (forall|p: VariantTile<Placement>| !variant_placed(*h, p, pl@, strict))
                && is_leaf_failure(h.leaves(), pl@, e),
        },
        r is Err ==> strict || (match h.tile {
            SimpleTile::Standard(id) => missing_in(pl@)(id),
            _ => false,
        }),
{
    match place_simple(&h.tile, pl, strict, warnings) {
        Ok(tile) => Ok(VariantTile { weight_bits: h.weight_bits, tile }),
        Err(e) => {
            proof {
                assert forall|p: VariantTile<Placement>| !variant_placed(*h, p, pl@, strict) by {
                    assert(!simple_placed(h.tile, p.tile, pl@, strict));
                }
            }
            Err(e)
        },
    }
}

fn place_variants(
    hs: &Vec<VariantTile<ImageId>>,
    pl: &Vec<LoadStatus>,
    strict: bool,
    warnings: &mut Vec<ImageId>,
) -> (r: Result<Vec<VariantTile<Placement>>, TilesetError>)
    ensures
        match r {
            Ok(p) => variants_placed(hs@, p@, pl@, strict) && final(warnings)@ == old(warnings)@
                + variants_leaves(hs@).filter(missing_in(pl@)),
            Err(e) => (forall|p: Seq<VariantTile<Placement>>| !variants_placed(hs@, p, pl@, strict))
                && is_leaf_failure(variants_leaves(hs@), pl@, e),
        },
        r is Err ==> strict,
{
    let mut out: Vec<VariantTile<Placement>> = Vec::new();
    let mut i: usize = 0;
    while i < hs.len()
        invariant
            i <= hs@.len(),
            out@.len() == kept_variants(hs@.subrange(0, i as int), pl@, strict).len(),
            forall|k: int|
                0 <= k < out@.len() ==> variant_placed(
                    #[trigger] kept_variants(hs@.subrange(0, i as int), pl@, strict)[k],
                    out@[k],
                    pl@,
                    strict,
                ),
            warnings@ == old(warnings)@ + variants_leaves(hs@.subrange(0, i as int)).filter(missing_in(pl@)),
        decreases hs@.len() - i,
    {
        let ghost pre = variants_leaves(hs@.subrange(0, i as int));
        let ghost sub = hs@.subrange(0, i as int);
        let ghost kp = kept_variants(sub, pl@, strict);
        let ghost v = hs@[i as int];
        let ghost prev_out = out@;
        proof {
            assert(hs@.subrange(0, i + 1).drop_last() =~= sub);
            assert(hs@.subrange(0, i + 1) =~= sub.push(v));
            Seq::filter_distributes_over_add(pre, v.leaves(), missing_in(pl@));
            sub.lemma_filter_push(v, variant_kept(pl@));
            lemma_filter_single(v.leaves()[0], missing_in(pl@));
        }
        let skip = match &hs[i].tile {
            SimpleTile::Standard(id) => !strict && lookup(pl, *id).is_none(),
            SimpleTile::Animated(_) => false,
        };
        if skip {
            if let SimpleTile::Standard(id) = &hs[i].tile {
                warnings.push(*id);
                proof {
                    assert(v.leaves() =~= seq![*id]);
                    assert(warnings@ =~= old(warnings)@ + variants_leaves(hs@.subrange(0, i + 1)).filter(missing_in(pl@)));
                    assert(kept_variants(hs@.subrange(0, i + 1), pl@, strict) == kp);
                }
            }
        } else {
            proof {
                assert(!strict ==> variant_kept(pl@)(v));
                assert(kept_variants(hs@.subrange(0, i + 1), pl@, strict) == kp.push(v));
            }
            match place_variant(&hs[i], pl, strict, warnings) {
                Ok(p) => {
                    out.push(p);
                    proof {
                        assert(warnings@ =~= old(warnings)@ + variants_leaves(hs@.subrange(0, i + 1)).filter(missing_in(pl@)));
                        assert forall|k: int| 0 <= k < out@.len() implies variant_placed(
                            #[trigger] kept_variants(hs@.subrange(0, i + 1), pl@, strict)[k],
                            out@[k],
                            pl@,
                            strict,
                        ) by {
                            if k < prev_out.len() {
                                assert(out@[k] == prev_out[k]);
                                assert(kp.push(v)[k] == kp[k]);
                            }
                        }
                    }
                },
                Err(e) => {
                    proof {
                        lemma_variants_leaves_prefix(hs@, i + 1);
                        let inner = v.leaves();
                        let k = choose|k: int| 0 <= k < inner.len() && missing_in(pl@)(#[trigger] inner[k]) && e == failure_of(pl@, inner[k]);
                        let upto = variants_leaves(hs@.subrange(0, i + 1));
                        assert(upto == pre + inner);
                        assert(variants_leaves(hs@).subrange(0, upto.len() as int) == upto);
                        assert(variants_leaves(hs@)[pre.len() + k] == upto[pre.len() + k]);
                        assert(upto[pre.len() + k] == inner[k]);
                        let rest = hs@.subrange(i + 1, hs@.len() as int);
                        assert(hs@ =~= hs@.subrange(0, i + 1) + rest);
                        Seq::filter_distributes_over_add(hs@.subrange(0, i + 1), rest, variant_kept(pl@));
                        let all = kept_variants(hs@, pl@, strict);
                        assert(all.len() > kp.len() && all[kp.len() as int] == v) by {
                            if strict {
                            } else {
                                assert(all == kp.push(v) + rest.filter(variant_kept(pl@)));
                            }
                        }
                        assert forall|p: Seq<VariantTile<Placement>>| !variants_placed(hs@, p, pl@, strict) by {
                            if variants_placed(hs@, p, pl@, strict) {
                                assert(variant_placed(all[kp.len() as int], p[kp.len() as int], pl@, strict));
                            }
                        }
                    }
                    return Err(e);
                },
            }
        }
        i += 1;
    }
    proof {
        assert(hs@.subrange(0, i as int) =~= hs@);
    }
    Ok(out)
}

fn place_auto(
    h: &AutoTile<ImageId>,
    pl: &Vec<LoadStatus>,
    strict: bool,
    warnings: &mut Vec<ImageId>,
) -> (r: Result<AutoTile<Placement>, TilesetError>)
    ensures
        match r {
            Ok(p) => auto_placed(*h, p, pl@, strict) && final(warnings)@ == old(warnings)@
                + h.leaves().filter(missing_in(pl@)),
            Err(e) => (forall|p: AutoTile<Placement>| !auto_placed(*h, p, pl@, strict))
                && is_leaf_failure(h.leaves(), pl@, e),
        },
        r is Err ==> strict,
{
    match place_variants(&h.variants, pl, strict, warnings) {
        Ok(variants) => Ok(AutoTile { rule: h.rule, variants }),
        Err(e) => {
            proof {
                assert forall|p: AutoTile<Placement>| !auto_placed(*h, p, pl@, strict) by {
                    assert(!variants_placed(h.variants@, p.variants@, pl@, strict));
                }
            }
            Err(e)
        },
    }
}

fn place_autos(
    hs: &Vec<AutoTile<ImageId>>,
    pl: &Vec<LoadStatus>,
    strict: bool,
    warnings: &mut Vec<ImageId>,
) -> (r: Result<Vec<AutoTile<Placement>>, TilesetError>)
    ensures
        match r {
            Ok(p) => autos_placed(hs@, p@, pl@, strict) && final(warnings)@ == old(warnings)@
                + autos_leaves(hs@).filter(missing_in(pl@)),
            Err(e) => (forall|p: Seq<AutoTile<Placement>>| !autos_placed(hs@, p, pl@, strict))
                && is_leaf_failure(autos_leaves(hs@), pl@, e),
        },
        r is Err ==> strict,
{
    let mut out: Vec<AutoTile<Placement>> = Vec::new();
    let mut i: usize = 0;
    while i < hs.len()
        invariant
            i <= hs@.len(),
            out@.len() == i,
            forall|k: int| 0 <= k < i ==> auto_placed(#[trigger] hs@[k], out@[k], pl@, strict),
            warnings@ == old(warnings)@ + autos_leaves(hs@.subrange(0, i as int)).filter(missing_in(pl@)),
        decreases hs@.len() - i,
    {
        let ghost pre = autos_leaves(hs@.subrange(0, i as int));
        proof {
            assert(hs@.subrange(0, i + 1).drop_last() =~= hs@.subrange(0, i as int));
            Seq::filter_distributes_over_add(pre, hs@[i as int].leaves(), missing_in(pl@));
        }
        match place_auto(&hs[i], pl, strict, warnings) {
            Ok(a) => {
                out.push(a);
                proof {
                    assert(warnings@ =~= old(warnings)@ + autos_leaves(hs@.subrange(0, i + 1)).filter(missing_in(pl@)));
                }
            },
            Err(e) => {
                proof {
                    lemma_autos_leaves_prefix(hs@, i + 1);
                    let inner = hs@[i as int].leaves();
                    let k = choose|k: int| 0 <= k < inner.len() && missing_in(pl@)(#[trigger] inner[k]) && e == failure_of(pl@, inner[k]);
                    let upto = autos_leaves(hs@.subrange(0, i + 1));
                    assert(upto == pre + inner);
                    assert(autos_leaves(hs@).subrange(0, upto.len() as int) == upto);
                    assert(autos_leaves(hs@)[pre.len() + k] == upto[pre.len() + k]);
                    assert(upto[pre.len() + k] == inner[k]);
                    assert forall|p: Seq<AutoTile<Placement>>| !autos_placed(hs@, p, pl@, strict) by {
                        if autos_placed(hs@, p, pl@, strict) {
                            assert(auto_placed(hs@[i as int], p[i as int], pl@, strict));
                        }
                    }
                }
                return Err(e);
            },
        }
        i += 1;
    }
    proof {
        assert(hs@.subrange(0, i as int) =~= hs@);
    }
    Ok(out)
}

/// Places every leaf of one handle: each image identity is joined with its
/// atlas index.
///
/// In strict mode every image must have a placement. In lenient mode an
/// animation frame without one is dropped, and so is a variant (also one of an
/// auto rule) whose single image has none; the identities dropped are appended
/// to `warnings`. A standard tile whose image has no placement fails in either
/// mode: its one image is all there is of it.
pub fn place_tile(
    h: &TileHandle,
    placements: &Vec<LoadStatus>,
    strict: bool,
    warnings: &mut Vec<ImageId>,
) -> (r: Result<PlacedTile, TilesetError>)
    ensures
        match r {
            Ok(p) => tile_placed(*h, p, placements@, strict) && final(warnings)@ == old(warnings)@
                + h.leaves().filter(missing_in(placements@)),
            Err(e) => !placeable(*h, placements@, strict) && is_leaf_failure(h.leaves(), placements@, e),
        },
        r is Err ==> strict || (match h.kind {
            TileKind::Standard(id) => missing_in(placements@)(id),
            _ => false,
        }),
{
    let pl = placements;
    let kind = match &h.kind {
        TileKind::Standard(id) => match lookup(pl, *id) {
            Some(p) => {
                proof {
                    lemma_filter_single(*id, missing_in(pl@));
                    assert(warnings@ =~= old(warnings)@ + h.leaves().filter(missing_in(pl@)));
                }
                TileKind::Standard(p)
            },
            None => {
                let e = failure(pl, *id);
                proof {
                    assert(missing_in(pl@)(*id));
                    assert(h.leaves()[0] == *id);
                }
                return Err(e);
            },
        },
        TileKind::Animated(a) => match place_animated(a, pl, strict, warnings) {
            Ok(p) => TileKind::Animated(p),
            Err(e) => {
                proof {
                    assert forall|p: PlacedTile| !tile_placed(*h, p, pl@, strict) by {
                        if let TileKind::Animated(y) = p.kind {
                            assert(!animated_placed(*a, y, pl@, strict));
                        }
                    }
                }
                return Err(e);
            },
        },
        TileKind::Variant(vs) => match place_variants(vs, pl, strict, warnings) {
            Ok(p) => TileKind::Variant(p),
            Err(e) => {
                proof {
                    assert forall|p: PlacedTile| !tile_placed(*h, p, pl@, strict) by {
                        if let TileKind::Variant(y) = p.kind {
                            assert(!variants_placed(vs@, y@, pl@, strict));
                        }
                    }
                }
                return Err(e);
            },
        },
        TileKind::Auto(autos) => match place_autos(autos, pl, strict, warnings) {
            Ok(p) => TileKind::Auto(p),
            Err(e) => {
                proof {
                    assert forall|p: PlacedTile| !tile_placed(*h, p, pl@, strict) by {
                        if let TileKind::Auto(y) = p.kind {
                            assert(!autos_placed(autos@, y@, pl@, strict));
                        }
                    }
                }
                return Err(e);
            },
        },
    };
    Ok(Tile { name: h.name.clone(), kind })
}

/// `r` is the table of `count` outcomes built from `events`: an identity with
/// no event is pending, an identity with events has the status of its last.
pub open spec fn is_outcome_table(count: nat, events: Seq<(ImageId, LoadStatus)>, r: Seq<LoadStatus>) -> bool {
    &&& r.len() == count
    &&& forall|k: int|
        0 <= k < events.len() && (#[trigger] events[k]).0 < count && (forall|j: int|
            k < j < events.len() ==> events[j].0 != events[k].0) ==> r[events[k].0 as int]
            == events[k].1
    &&& forall|id: ImageId|
        id < count && (forall|k: int| 0 <= k < events.len() ==> events[k].0 != id) ==> r[id as int]
            is Pending
}

/// Gathers the outcomes of the loads of `count` registered images, reported
/// as `(identity, status)` events in the order in which they completed.
/// Events for identities at or above `count` are ignored.
pub fn gather_outcomes(count: usize, events: &Vec<(ImageId, LoadStatus)>) -> (r: Vec<LoadStatus>)
    ensures
        is_outcome_table(count as nat, events@, r@),
{
    let mut r: Vec<LoadStatus> = Vec::new();
    let mut i: usize = 0;
    while i < count
        invariant
            i <= count,
            r@.len() == i,
            forall|k: int| 0 <= k < i ==> r@[k] is Pending,
        decreases count - i,
    {
        r.push(LoadStatus::Pending);
        i += 1;
    }
    let mut e: usize = 0;
    while e < events.len()
        invariant
            e <= events@.len(),
            is_outcome_table(count as nat, events@.subrange(0, e as int), r@),
        decreases events@.len() - e,
    {
        let (id, status) = events[e];
        let ghost prev = r@;
        let ghost pre = events@.subrange(0, e as int);
        let ghost next = events@.subrange(0, e + 1);
        if id < count {
            r.set(id, status);
        }
        proof {
            assert(next == pre.push((id, status)));
            assert forall|k: int|
                0 <= k < next.len() && next[k].0 < count && (forall|j: int|
                    k < j < next.len() ==> next[j].0 != next[k].0) implies r@[(#[trigger] next[k]).0 as int]
                == next[k].1 by {
                if k < e {
                    assert(next[e as int].0 != next[k].0);
                    assert(pre[k] == next[k]);
                    assert forall|j: int| k < j < pre.len() implies pre[j].0 != pre[k].0 by {
                        assert(pre[j] == next[j]);
                    }
                }
            }
            assert forall|x: ImageId|
                x < count && (forall|k: int| 0 <= k < next.len() ==> next[k].0 != x) implies r@[x as int] is Pending by {
                assert(next[e as int].0 != x);
                assert forall|k: int| 0 <= k < pre.len() implies pre[k].0 != x by {
                    assert(pre[k] == next[k]);
                }
            }
        }
        e += 1;
    }
    proof {
        assert(events@.subrange(0, e as int) =~= events@);
    }
    r
}

/// The outcome table does not depend on the order in which the loads
/// completed: two reports of the same events, each identity reported once,
/// give the same table.
pub proof fn lemma_completion_order_irrelevant(
    count: nat,
    a: Seq<(ImageId, LoadStatus)>,
    b: Seq<(ImageId, LoadStatus)>,
    ra: Seq<LoadStatus>,
    rb: Seq<LoadStatus>,
)
    requires
        count <= usize::MAX,
        a.map_values(|e: (ImageId, LoadStatus)| e.0).no_duplicates(),
        b.map_values(|e: (ImageId, LoadStatus)| e.0).no_duplicates(),
        a.to_set() == b.to_set(),
        is_outcome_table(count, a, ra),
        is_outcome_table(count, b, rb),
    ensures
        ra == rb,
{
    let fa = |e: (ImageId, LoadStatus)| e.0;
    assert forall|i: int| 0 <= i < ra.len() implies ra[i] == rb[i] by {
        let id = i as ImageId;
        assert(id as int == i);
        if exists|k: int| 0 <= k < a.len() && a[k].0 == id {
            let k = choose|k: int| 0 <= k < a.len() && a[k].0 == id;
            assert(a.to_set().contains(a[k]));
            assert(b.to_set().contains(a[k]));
            let m = choose|m: int| 0 <= m < b.len() && b[m] == a[k];
            assert forall|j: int| k < j < a.len() implies a[j].0 != a[k].0 by {
                assert(a.map_values(fa)[j] == a[j].0);
                assert(a.map_values(fa)[k] == a[k].0);
            }
            assert forall|j: int| m < j < b.len() implies b[j].0 != b[m].0 by {
                assert(b.map_values(fa)[j] == b[j].0);
                assert(b.map_values(fa)[m] == b[m].0);
            }
            assert(ra[a[k].0 as int] == a[k].1);
            assert(rb[b[m].0 as int] == b[m].1);
        } else {
            assert forall|m: int| 0 <= m < b.len() implies b[m].0 != id by {
                if b[m].0 == id {
                    assert(b.to_set().contains(b[m]));
                    assert(a.to_set().contains(b[m]));
                    let k = choose|k: int| 0 <= k < a.len() && a[k] == b[m];
                    assert(a[k].0 == id);
                }
            }
        }
    }
    assert(ra =~= rb);
}

proof fn lemma_nothing_missing(s: Seq<ImageId>, pl: Seq<LoadStatus>)
    requires
        s.filter(missing_in(pl)).len() == 0,
    ensures
        s.filter(placed_in(pl)) == s,
    decreases s.len(),
{
    if s.len() == 0 {
        reveal(Seq::filter);
        assert(s.filter(placed_in(pl)) =~= s);
    } else {
        let d = s.drop_last();
        assert(s =~= d.push(s.last()));
        d.lemma_filter_push(s.last(), missing_in(pl));
        d.lemma_filter_push(s.last(), placed_in(pl));
        lemma_nothing_missing(d, pl);
    }
}

proof fn lemma_variants_nothing_missing(hs: Seq<VariantTile<ImageId>>, pl: Seq<LoadStatus>)
    requires
        variants_leaves(hs).filter(missing_in(pl)).len() == 0,
    ensures
        forall|i: int| 0 <= i < hs.len() ==> (#[trigger] hs[i]).leaves().filter(missing_in(pl)).len() == 0,
    decreases hs.len(),
{
    if hs.len() > 0 {
        let d = hs.drop_last();
        Seq::filter_distributes_over_add(variants_leaves(d), hs.last().leaves(), missing_in(pl));
        lemma_variants_nothing_missing(d, pl);
        assert forall|i: int| 0 <= i < hs.len() implies (#[trigger] hs[i]).leaves().filter(missing_in(pl)).len() == 0 by {
            if i < d.len() {
                assert(d[i] == hs[i]);
            }
        }
    }
}

proof fn lemma_autos_nothing_missing(hs: Seq<AutoTile<ImageId>>, pl: Seq<LoadStatus>)
    requires
        autos_leaves(hs).filter(missing_in(pl)).len() == 0,
    ensures
        forall|i: int| 0 <= i < hs.len() ==> (#[trigger] hs[i]).leaves().filter(missing_in(pl)).len() == 0,
    decreases hs.len(),
{
    if hs.len() > 0 {
        let d = hs.drop_last();
        Seq::filter_distributes_over_add(autos_leaves(d), hs.last().leaves(), missing_in(pl));
        lemma_autos_nothing_missing(d, pl);
        assert forall|i: int| 0 <= i < hs.len() implies (#[trigger] hs[i]).leaves().filter(missing_in(pl)).len() == 0 by {
            if i < d.len() {
                assert(d[i] == hs[i]);
            }
        }
    }
}

proof fn lemma_animated_keeps_shape(
    h: AnimatedTile<ImageId>,
    p: AnimatedTile<Placement>,
    pl: Seq<LoadStatus>,
    strict: bool,
)
    requires
        animated_placed(h, p, pl, strict),
        h.leaves().filter(missing_in(pl)).len() == 0,
    ensures
        animated_same_shape(h, p),
{
    lemma_nothing_missing(h.frames@, pl);
}

proof fn lemma_variants_keep_shape(
    hs: Seq<VariantTile<ImageId>>,
    ps: Seq<VariantTile<Placement>>,
    pl: Seq<LoadStatus>,
    strict: bool,
)
    requires
        variants_placed(hs, ps, pl, strict),
        variants_leaves(hs).filter(missing_in(pl)).len() == 0,
    ensures
        variants_same_shape(hs, ps),
{
    lemma_variants_nothing_missing(hs, pl);
    assert forall|i: int| 0 <= i < hs.len() implies variant_kept(pl)(#[trigger] hs[i]) by {
        if let SimpleTile::Standard(id) = hs[i].tile {
            lemma_filter_single(id, missing_in(pl));
            assert(hs[i].leaves() =~= seq![id]);
        }
    }
    lemma_filter_all(hs, variant_kept(pl));
    assert(kept_variants(hs, pl, strict) == hs);
    assert forall|i: int| 0 <= i < hs.len() implies variant_same_shape(#[trigger] hs[i], ps[i]) by {
        assert(variant_placed(kept_variants(hs, pl, strict)[i], ps[i], pl, strict));
        if let (SimpleTile::Animated(x), SimpleTile::Animated(y)) = (hs[i].tile, ps[i].tile) {
            lemma_animated_keeps_shape(x, y, pl, strict);
        }
    }
}

proof fn lemma_autos_keep_shape(
    hs: Seq<AutoTile<ImageId>>,
    ps: Seq<AutoTile<Placement>>,
    pl: Seq<LoadStatus>,
    strict: bool,
)
    requires
        autos_placed(hs, ps, pl, strict),
        autos_leaves(hs).filter(missing_in(pl)).len() == 0,
    ensures
        autos_same_shape(hs, ps),
{
    lemma_autos_nothing_missing(hs, pl);
    assert forall|i: int| 0 <= i < hs.len() implies auto_same_shape(#[trigger] hs[i], ps[i]) by {
        assert(auto_placed(hs[i], ps[i], pl, strict));
        lemma_variants_keep_shape(hs[i].variants@, ps[i].variants@, pl, strict);
    }
}

proof fn lemma_same_shape_trans<A, B, C>(a: Tile<A>, b: Tile<B>, c: Tile<C>)
    requires
        same_shape(a, b),
        same_shape(b, c),
    ensures
        same_shape(a, c),
{
    match (a.kind, b.kind, c.kind) {
        (TileKind::Variant(x), TileKind::Variant(y), TileKind::Variant(z)) => {
            assert forall|i: int| 0 <= i < x@.len() implies variant_same_shape(#[trigger] x@[i], z@[i]) by {
                assert(variant_same_shape(x@[i], y@[i]));
                assert(variant_same_shape(y@[i], z@[i]));
            }
        },
        (TileKind::Auto(x), TileKind::Auto(y), TileKind::Auto(z)) => {
            assert forall|i: int| 0 <= i < x@.len() implies auto_same_shape(#[trigger] x@[i], z@[i]) by {
                assert(auto_same_shape(x@[i], y@[i]));
                assert(auto_same_shape(y@[i], z@[i]));
                let (vx, vy, vz) = (x@[i].variants@, y@[i].variants@, z@[i].variants@);
                assert forall|j: int| 0 <= j < vx.len() implies variant_same_shape(#[trigger] vx[j], vz[j]) by {
                    assert(variant_same_shape(vx[j], vy[j]));
                    assert(variant_same_shape(vy[j], vz[j]));
                }
            }
        },
        _ => {},
    }
}

/// When no image of a tile failed, the placed tile has the shape of the
/// definition it was resolved from: the same kind, name, speeds, weights and
/// rules, and the same number of frames and of variants at every level.
pub proof fn lemma_structure_preserved(
    def: Tile<String>,
    h: TileHandle,
    p: PlacedTile,
    pl: Seq<LoadStatus>,
    strict: bool,
)
    requires
        same_shape(def, h),
        tile_placed(h, p, pl, strict),
        h.leaves().filter(missing_in(pl)).len() == 0,
    ensures
        same_shape(def, p),
{
    match (h.kind, p.kind) {
        (TileKind::Animated(x), TileKind::Animated(y)) => lemma_animated_keeps_shape(x, y, pl, strict),
        (TileKind::Variant(x), TileKind::Variant(y)) => lemma_variants_keep_shape(x@, y@, pl, strict),
        (TileKind::Auto(x), TileKind::Auto(y)) => lemma_autos_keep_shape(x@, y@, pl, strict),
        _ => {},
    }
    assert(same_shape(h, p));
    lemma_same_shape_trans(def, h, p);
}

} // verus!
