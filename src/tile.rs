use vstd::prelude::*;

verus! {

/// The key of one logical tile slot within a tileset.
pub type TileGroupId = u32;

/// The identifier of a tileset.
pub type TilesetId = u8;

/// The identity of one image registered for loading: its position in the
/// loader's registration table.
pub type ImageId = usize;

/// An animation: a playback speed and an ordered sequence of frames.
pub struct AnimatedTile<L> {
    /// Playback speed, carried as the bit pattern of an `f32`.
    pub speed_bits: u32,
    pub frames: Vec<L>,
}

/// A tile that holds no further nesting: one image or one animation.
pub enum SimpleTile<L> {
    Standard(L),
    Animated(AnimatedTile<L>),
}

/// One weighted choice of a variant tile.
pub struct VariantTile<L> {
    /// Selection weight, carried as the bit pattern of an `f32`.
    pub weight_bits: u32,
    pub tile: SimpleTile<L>,
}

/// The neighbour pattern an auto tile matches: `Some(true)` requires a
/// matching neighbour, `Some(false)` forbids one, `None` ignores the side.
#[derive(Clone, Copy, PartialEq, Eq, Structural, Debug, Default)]
pub struct AutoTileRule {
    pub north: Option<bool>,
    pub east: Option<bool>,
    pub south: Option<bool>,
    pub west: Option<bool>,
    pub north_east: Option<bool>,
    pub north_west: Option<bool>,
    pub south_east: Option<bool>,
    pub south_west: Option<bool>,
}

/// One rule of an auto tile with its weighted variants.
pub struct AutoTile<L> {
    pub rule: AutoTileRule,
    pub variants: Vec<VariantTile<L>>,
}

/// The kinds of tile. Variants and auto rules hold only simple tiles.
pub enum TileKind<L> {
    Standard(L),
    Animated(AnimatedTile<L>),
    Variant(Vec<VariantTile<L>>),
    Auto(Vec<AutoTile<L>>),
}

/// A named tile whose leaves are of type `L`: a path in a definition, an
/// image identity in a handle, an atlas placement in a tileset.
pub struct Tile<L> {
    pub name: String,
    pub kind: TileKind<L>,
}

/// A tile as written in its definition file: each leaf is an image path.
pub type TileDef = Tile<String>;

/// A tile whose leaves are registered image identities.
pub type TileHandle = Tile<ImageId>;

// ---------------------------------------------------------------------------
// Leaves, in structural order
// ---------------------------------------------------------------------------

impl<L> AnimatedTile<L> {
    pub open spec fn leaves(self) -> Seq<L> {
        self.frames@
    }
}

impl<L> SimpleTile<L> {
    pub open spec fn leaves(self) -> Seq<L> {
        match self {
            SimpleTile::Standard(l) => seq![l],
            SimpleTile::Animated(a) => a.leaves(),
        }
    }
}

impl<L> VariantTile<L> {
    pub open spec fn leaves(self) -> Seq<L> {
        self.tile.leaves()
    }
}

pub open spec fn variants_leaves<L>(vs: Seq<VariantTile<L>>) -> Seq<L>
    decreases vs.len(),
{
    if vs.len() == 0 {
        Seq::empty()
    } else {
        variants_leaves(vs.drop_last()) + vs.last().leaves()
    }
}

impl<L> AutoTile<L> {
    pub open spec fn leaves(self) -> Seq<L> {
        variants_leaves(self.variants@)
    }
}

pub open spec fn autos_leaves<L>(autos: Seq<AutoTile<L>>) -> Seq<L>
    decreases autos.len(),
{
    if autos.len() == 0 {
        Seq::empty()
    } else {
        autos_leaves(autos.drop_last()) + autos.last().leaves()
    }
}

impl<L> TileKind<L> {
    pub open spec fn leaves(self) -> Seq<L> {
        match self {
            TileKind::Standard(l) => seq![l],
            TileKind::Animated(a) => a.leaves(),
            TileKind::Variant(vs) => variants_leaves(vs@),
            TileKind::Auto(autos) => autos_leaves(autos@),
        }
    }
}

impl<L> Tile<L> {
    pub open spec fn leaves(self) -> Seq<L> {
        self.kind.leaves()
    }
}

/// All leaves of a sequence of tiles, tile after tile.
pub open spec fn tiles_leaves<L>(tiles: Seq<Tile<L>>) -> Seq<L>
    decreases tiles.len(),
{
    if tiles.len() == 0 {
        Seq::empty()
    } else {
        tiles_leaves(tiles.drop_last()) + tiles.last().leaves()
    }
}

// ---------------------------------------------------------------------------
// Shape: everything but the leaves
// ---------------------------------------------------------------------------

pub open spec fn animated_same_shape<A, B>(a: AnimatedTile<A>, b: AnimatedTile<B>) -> bool {
    a.speed_bits == b.speed_bits && a.frames@.len() == b.frames@.len()
}

pub open spec fn simple_same_shape<A, B>(a: SimpleTile<A>, b: SimpleTile<B>) -> bool {
    match (a, b) {
        (SimpleTile::Standard(_), SimpleTile::Standard(_)) => true,
        (SimpleTile::Animated(x), SimpleTile::Animated(y)) => animated_same_shape(x, y),
        _ => false,
    }
}

pub open spec fn variant_same_shape<A, B>(a: VariantTile<A>, b: VariantTile<B>) -> bool {
    a.weight_bits == b.weight_bits && simple_same_shape(a.tile, b.tile)
}

pub open spec fn variants_same_shape<A, B>(a: Seq<VariantTile<A>>, b: Seq<VariantTile<B>>) -> bool {
    a.len() == b.len() && forall|i: int| 0 <= i < a.len() ==> variant_same_shape(#[trigger] a[i], b[i])
}

pub open spec fn auto_same_shape<A, B>(a: AutoTile<A>, b: AutoTile<B>) -> bool {
    a.rule == b.rule && variants_same_shape(a.variants@, b.variants@)
}

pub open spec fn autos_same_shape<A, B>(a: Seq<AutoTile<A>>, b: Seq<AutoTile<B>>) -> bool {
    a.len() == b.len() && forall|i: int| 0 <= i < a.len() ==> auto_same_shape(#[trigger] a[i], b[i])
}

pub open spec fn kind_same_shape<A, B>(a: TileKind<A>, b: TileKind<B>) -> bool {
    match (a, b) {
        (TileKind::Standard(_), TileKind::Standard(_)) => true,
        (TileKind::Animated(x), TileKind::Animated(y)) => animated_same_shape(x, y),
        (TileKind::Variant(x), TileKind::Variant(y)) => variants_same_shape(x@, y@),
        (TileKind::Auto(x), TileKind::Auto(y)) => autos_same_shape(x@, y@),
        _ => false,
    }
}

/// Two tiles agree in name, kind, and every non-leaf datum and cardinality.
pub open spec fn same_shape<A, B>(a: Tile<A>, b: Tile<B>) -> bool {
    a.name == b.name && kind_same_shape(a.kind, b.kind)
}

/// The identities `start, start + 1, ..., start + n - 1`.
pub open spec fn id_range(start: int, n: int) -> Seq<ImageId> {
    Seq::new(n as nat, |k: int| (start + k) as ImageId)
}

// ---------------------------------------------------------------------------
// Prefixes
// ---------------------------------------------------------------------------

/// The leaves of the first `j` elements are a prefix of the leaves of all.
pub proof fn lemma_variants_leaves_prefix<L>(s: Seq<VariantTile<L>>, j: int)
    requires
        0 <= j <= s.len(),
    ensures
        variants_leaves(s.subrange(0, j)).len() <= variants_leaves(s).len(),
        variants_leaves(s).subrange(0, variants_leaves(s.subrange(0, j)).len() as int) == variants_leaves(s.subrange(0, j)),
    decreases s.len(),
{
    if j < s.len() {
        lemma_variants_leaves_prefix(s.drop_last(), j);
        assert(s.drop_last().subrange(0, j) =~= s.subrange(0, j));
        let p = variants_leaves(s.subrange(0, j));
        let d = variants_leaves(s.drop_last());
        assert(variants_leaves(s).subrange(0, p.len() as int) =~= d.subrange(0, p.len() as int));
    } else {
        assert(s.subrange(0, j) =~= s);
        assert(variants_leaves(s).subrange(0, variants_leaves(s).len() as int) =~= variants_leaves(s));
    }
}

/// The leaves of the first `j` elements are a prefix of the leaves of all.
pub proof fn lemma_autos_leaves_prefix<L>(s: Seq<AutoTile<L>>, j: int)
    requires
        0 <= j <= s.len(),
    ensures
        autos_leaves(s.subrange(0, j)).len() <= autos_leaves(s).len(),
        autos_leaves(s).subrange(0, autos_leaves(s.subrange(0, j)).len() as int) == autos_leaves(s.subrange(0, j)),
    decreases s.len(),
{
    if j < s.len() {
        lemma_autos_leaves_prefix(s.drop_last(), j);
        assert(s.drop_last().subrange(0, j) =~= s.subrange(0, j));
        let p = autos_leaves(s.subrange(0, j));
        let d = autos_leaves(s.drop_last());
        assert(autos_leaves(s).subrange(0, p.len() as int) =~= d.subrange(0, p.len() as int));
    } else {
        assert(s.subrange(0, j) =~= s);
        assert(autos_leaves(s).subrange(0, autos_leaves(s).len() as int) =~= autos_leaves(s));
    }
}

/// The leaves of the first `j` elements are a prefix of the leaves of all.
pub proof fn lemma_tiles_leaves_prefix<L>(s: Seq<Tile<L>>, j: int)
    requires
        0 <= j <= s.len(),
    ensures
        tiles_leaves(s.subrange(0, j)).len() <= tiles_leaves(s).len(),
        tiles_leaves(s).subrange(0, tiles_leaves(s.subrange(0, j)).len() as int) == tiles_leaves(s.subrange(0, j)),
    decreases s.len(),
{
    if j < s.len() {
        lemma_tiles_leaves_prefix(s.drop_last(), j);
        assert(s.drop_last().subrange(0, j) =~= s.subrange(0, j));
        let p = tiles_leaves(s.subrange(0, j));
        let d = tiles_leaves(s.drop_last());
        assert(tiles_leaves(s).subrange(0, p.len() as int) =~= d.subrange(0, p.len() as int));
    } else {
        assert(s.subrange(0, j) =~= s);
        assert(tiles_leaves(s).subrange(0, tiles_leaves(s).len() as int) =~= tiles_leaves(s));
    }
}

} // verus!
