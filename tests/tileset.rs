use bevy_tileset_core::{
    build_tileset, gather_outcomes, load_tile_handles, place_tile, resolve_tiles, AnimatedTile,
    AutoTile, AutoTileRule, LoadStatus, Placement, RecordingLoader, SimpleTile, TextureLoader,
    Tile, TileDef, TileHandle, TileKind, TilesetDef, TilesetError, VariantTile,
};

fn standard(name: &str, path: &str) -> TileDef {
    Tile { name: name.to_string(), kind: TileKind::Standard(path.to_string()) }
}

fn animated(name: &str, frames: &[&str]) -> TileDef {
    Tile {
        name: name.to_string(),
        kind: TileKind::Animated(AnimatedTile {
            speed_bits: 2.5f32.to_bits(),
            frames: frames.iter().map(|f| f.to_string()).collect(),
        }),
    }
}

fn def_of(tiles: &[(u32, &str)]) -> TilesetDef {
    TilesetDef {
        name: None,
        id: 7,
        tiles: tiles.iter().map(|(g, p)| (*g, p.to_string())).collect(),
    }
}

fn all_placed(n: usize) -> Vec<LoadStatus> {
    (0..n).map(|i| LoadStatus::Placed(100 + i)).collect()
}

#[test]
fn registering_same_path_twice_keeps_both() {
    let mut loader = RecordingLoader::new();
    let a = loader.load_texture("img.png".to_string());
    let b = loader.load_texture("img.png".to_string());
    assert_ne!(a, b);
    assert_eq!(loader.paths(), &vec!["img.png".to_string(), "img.png".to_string()]);
    assert_eq!(loader.path(a), Some(&"img.png".to_string()));
    assert_eq!(loader.path(b), Some(&"img.png".to_string()));
    assert_eq!(loader.path(2), None);
}

#[test]
fn handles_mirror_definitions_and_register_leaves_in_order() {
    let variant = Tile {
        name: "v".to_string(),
        kind: TileKind::Variant(vec![
            VariantTile { weight_bits: 1.0f32.to_bits(), tile: SimpleTile::Standard("v1.png".to_string()) },
            VariantTile {
                weight_bits: 3.0f32.to_bits(),
                tile: SimpleTile::Animated(AnimatedTile {
                    speed_bits: 1.5f32.to_bits(),
                    frames: vec!["v2a.png".to_string(), "v2b.png".to_string()],
                }),
            },
        ]),
    };
    let rule = AutoTileRule { north: Some(true), south: Some(false), ..AutoTileRule::default() };
    let auto = Tile {
        name: "auto".to_string(),
        kind: TileKind::Auto(vec![AutoTile {
            rule,
            variants: vec![VariantTile {
                weight_bits: 1.0f32.to_bits(),
                tile: SimpleTile::Standard("auto.png".to_string()),
            }],
        }]),
    };
    let tiles = vec![standard("s", "s.png"), animated("a", &["a1.png", "a2.png", "a3.png"]), variant, auto];
    let mut loader = RecordingLoader::new();
    let handles = load_tile_handles(tiles, &mut loader);
    assert_eq!(handles.len(), 4);
    assert!(matches!(handles[0].kind, TileKind::Standard(0)));
    match &handles[1].kind {
        TileKind::Animated(a) => {
            assert_eq!(a.frames, vec![1, 2, 3]);
            assert_eq!(a.speed_bits, 2.5f32.to_bits());
        },
        _ => panic!("expected an animated handle"),
    }
    match &handles[2].kind {
        TileKind::Variant(vs) => {
            assert_eq!(vs.len(), 2);
            assert_eq!(vs[1].weight_bits, 3.0f32.to_bits());
            assert!(matches!(vs[0].tile, SimpleTile::Standard(4)));
            match &vs[1].tile {
                SimpleTile::Animated(a) => assert_eq!(a.frames, vec![5, 6]),
                _ => panic!("expected an animated variant"),
            }
        },
        _ => panic!("expected a variant handle"),
    }
    match &handles[3].kind {
        TileKind::Auto(autos) => {
            assert_eq!(autos.len(), 1);
            assert_eq!(autos[0].rule, rule);
            assert!(matches!(autos[0].variants[0].tile, SimpleTile::Standard(7)));
        },
        _ => panic!("expected an auto handle"),
    }
    assert_eq!(handles[3].name, "auto");
    let expected: Vec<String> = ["s.png", "a1.png", "a2.png", "a3.png", "v1.png", "v2a.png", "v2b.png", "auto.png"]
        .iter()
        .map(|s| s.to_string())
        .collect();
    assert_eq!(loader.paths(), &expected);
}

#[test]
fn minimal_tileset_round_trip() {
    let def = TilesetDef { name: Some("mini".to_string()), id: 1, tiles: vec![(1, "a.tile".to_string())] };
    let mut loader = RecordingLoader::new();
    let entries = resolve_tiles(&def, vec![standard("a", "img.png")], &mut loader);
    assert_eq!(loader.paths(), &vec!["img.png".to_string()]);
    let table = gather_outcomes(1, &vec![(0, LoadStatus::Placed(0))]);
    let tileset = build_tileset(def.name.clone(), "unused".to_string(), def.id, entries, &table, true).unwrap();
    assert_eq!(tileset.len(), 1);
    assert_eq!(tileset.id(), 1);
    assert_eq!(tileset.name(), "mini");
    assert_eq!(tileset.index_of(1), Some(0));
    assert_eq!(tileset.group_at(0), Some(1));
    assert_eq!(tileset.tile_name(1), Some(&"a".to_string()));
    let handle = tileset.tile_handle(1).unwrap();
    assert!(matches!(handle.kind, TileKind::Standard(Placement { image: 0, index: 0 })));
    assert!(tileset.warnings().is_empty());
    assert_eq!(tileset.index_of(2), None);
}

#[test]
fn indices_follow_definition_order() {
    let def = def_of(&[(3, "c"), (10, "a"), (42, "b")]);
    let mut loader = RecordingLoader::new();
    let entries = resolve_tiles(&def, vec![standard("c", "c.png"), standard("a", "a.png"), standard("b", "b.png")], &mut loader);
    let tileset = build_tileset(None, "generated".to_string(), def.id, entries, &all_placed(3), false).unwrap();
    assert_eq!(tileset.tile_ids(), &vec![3, 10, 42]);
    assert_eq!(tileset.index_of(3), Some(0));
    assert_eq!(tileset.index_of(10), Some(1));
    assert_eq!(tileset.index_of(42), Some(2));
    assert_eq!(tileset.tile_handles().len(), 3);
    assert_eq!(tileset.tile_name(42), Some(&"b".to_string()));
    assert_eq!(tileset.name(), "generated");
    assert_eq!(tileset.group_of_name(&"a".to_string()), Some(10));
    assert_eq!(tileset.group_of_name(&"z".to_string()), None);
    assert_eq!(def.group_ids(), vec![3, 10, 42]);
}

#[test]
fn lenient_mode_drops_failed_frame_with_warning() {
    let def = def_of(&[(1, "anim.tile")]);
    let mut loader = RecordingLoader::new();
    let entries = resolve_tiles(&def, vec![animated("anim", &["f0.png", "f1.png", "f2.png"])], &mut loader);
    let events = vec![(2, LoadStatus::Placed(1)), (1, LoadStatus::DecodeFailed), (0, LoadStatus::Placed(0))];
    let table = gather_outcomes(3, &events);
    let tileset = build_tileset(None, "t".to_string(), 0, entries, &table, false).unwrap();
    match &tileset.tile_handle(1).unwrap().kind {
        TileKind::Animated(a) => {
            assert_eq!(a.frames, vec![Placement { image: 0, index: 0 }, Placement { image: 2, index: 1 }]);
            assert_eq!(a.speed_bits, 2.5f32.to_bits());
        },
        _ => panic!("expected an animated tile"),
    }
    assert_eq!(tileset.warnings(), &vec![1]);
}

#[test]
fn strict_mode_fails_on_undecodable_frame() {
    let def = def_of(&[(1, "anim.tile")]);
    let mut loader = RecordingLoader::new();
    let entries = resolve_tiles(&def, vec![animated("anim", &["f0.png", "f1.png", "f2.png"])], &mut loader);
    let table = gather_outcomes(3, &vec![(0, LoadStatus::Placed(0)), (1, LoadStatus::DecodeFailed), (2, LoadStatus::Placed(1))]);
    let r = build_tileset(None, "t".to_string(), 0, entries, &table, true);
    assert_eq!(r.err(), Some(TilesetError::ImageDecodeError(1)));
}

#[test]
fn unreadable_standard_image_fails_in_either_mode() {
    for strict in [false, true] {
        let handle: TileHandle = Tile { name: "s".to_string(), kind: TileKind::Standard(0) };
        let mut warnings = Vec::new();
        let r = place_tile(&handle, &vec![LoadStatus::ReadFailed], strict, &mut warnings);
        assert_eq!(r.err(), Some(TilesetError::ImageReadError(0)));
    }
}

#[test]
fn image_without_outcome_is_missing() {
    let entries = vec![(5, Tile { name: "s".to_string(), kind: TileKind::Standard(1) })];
    let table = gather_outcomes(2, &vec![(0, LoadStatus::Placed(0))]);
    assert_eq!(table, vec![LoadStatus::Placed(0), LoadStatus::Pending]);
    let r = build_tileset(None, "t".to_string(), 0, entries, &table, false);
    assert_eq!(r.err(), Some(TilesetError::MissingImage(1)));
}

#[test]
fn duplicate_group_id_is_rejected() {
    let entries = vec![
        (4, Tile { name: "x".to_string(), kind: TileKind::Standard(0) }),
        (4, Tile { name: "y".to_string(), kind: TileKind::Standard(1) }),
    ];
    let r = build_tileset(None, "t".to_string(), 0, entries, &all_placed(2), true);
    assert_eq!(r.err(), Some(TilesetError::DuplicateId(4)));
}

#[test]
fn empty_tileset_builds() {
    let def = TilesetDef::default();
    let mut loader = RecordingLoader::new();
    let entries = resolve_tiles(&def, vec![], &mut loader);
    let tileset = build_tileset(def.name, "empty".to_string(), def.id, entries, &vec![], true).unwrap();
    assert_eq!(tileset.len(), 0);
    assert_eq!(tileset.index_of(0), None);
    assert_eq!(tileset.group_at(0), None);
}

#[test]
fn completion_order_does_not_matter() {
    let n = 5;
    let in_order: Vec<(usize, LoadStatus)> = (0..n).map(|i| (i, LoadStatus::Placed(i))).collect();
    let mut shuffled = in_order.clone();
    shuffled.reverse();
    shuffled.swap(1, 3);
    let a = gather_outcomes(n, &in_order);
    let b = gather_outcomes(n, &shuffled);
    assert_eq!(a, b);
    let tiles: Vec<TileDef> = (0..n).map(|i| standard(&format!("t{}", i), &format!("{}.png", i))).collect();
    let def = TilesetDef { name: None, id: 2, tiles: (0..n).map(|i| (i as u32, format!("{}.tile", i))).collect() };
    let mut loader = RecordingLoader::new();
    let entries = resolve_tiles(&def, tiles, &mut loader);
    let tileset = build_tileset(None, "t".to_string(), 2, entries, &b, true).unwrap();
    assert_eq!(tileset.len(), n);
    for i in 0..n {
        match &tileset.tile_handle(i as u32).unwrap().kind {
            TileKind::Standard(p) => assert_eq!(*p, Placement { image: i, index: i }),
            _ => panic!("expected a standard tile"),
        }
    }
}

#[test]
fn later_event_for_an_identity_wins_and_out_of_range_is_ignored() {
    let table = gather_outcomes(2, &vec![(0, LoadStatus::ReadFailed), (9, LoadStatus::Placed(3)), (0, LoadStatus::Placed(1))]);
    assert_eq!(table, vec![LoadStatus::Placed(1), LoadStatus::Pending]);
}

fn variant_handle() -> TileHandle {
    Tile {
        name: "v".to_string(),
        kind: TileKind::Variant(vec![
            VariantTile { weight_bits: 1.0f32.to_bits(), tile: SimpleTile::Standard(0) },
            VariantTile { weight_bits: 2.0f32.to_bits(), tile: SimpleTile::Standard(1) },
            VariantTile {
                weight_bits: 3.0f32.to_bits(),
                tile: SimpleTile::Animated(AnimatedTile { speed_bits: 4.0f32.to_bits(), frames: vec![2, 3] }),
            },
        ]),
    }
}

#[test]
fn lenient_mode_drops_variant_with_failed_image() {
    let table = vec![LoadStatus::Placed(0), LoadStatus::DecodeFailed, LoadStatus::Placed(1), LoadStatus::ReadFailed];
    let mut warnings = Vec::new();
    let placed = place_tile(&variant_handle(), &table, false, &mut warnings).unwrap();
    match &placed.kind {
        TileKind::Variant(vs) => {
            assert_eq!(vs.len(), 2);
            assert_eq!(vs[0].weight_bits, 1.0f32.to_bits());
            assert!(matches!(vs[0].tile, SimpleTile::Standard(Placement { image: 0, index: 0 })));
            assert_eq!(vs[1].weight_bits, 3.0f32.to_bits());
            match &vs[1].tile {
                SimpleTile::Animated(a) => assert_eq!(a.frames, vec![Placement { image: 2, index: 1 }]),
                _ => panic!("expected an animated variant"),
            }
        },
        _ => panic!("expected a variant tile"),
    }
    assert_eq!(warnings, vec![1, 3]);
}

#[test]
fn strict_mode_fails_on_variant_with_failed_image() {
    let table = vec![LoadStatus::Placed(0), LoadStatus::DecodeFailed, LoadStatus::Placed(1), LoadStatus::Placed(2)];
    let mut warnings = Vec::new();
    let r = place_tile(&variant_handle(), &table, true, &mut warnings);
    assert_eq!(r.err(), Some(TilesetError::ImageDecodeError(1)));
}

#[test]
fn lenient_mode_drops_auto_rule_variant_with_failed_image() {
    let handle: TileHandle = Tile {
        name: "auto".to_string(),
        kind: TileKind::Auto(vec![AutoTile {
            rule: AutoTileRule::default(),
            variants: vec![
                VariantTile { weight_bits: 1.0f32.to_bits(), tile: SimpleTile::Standard(0) },
                VariantTile { weight_bits: 1.0f32.to_bits(), tile: SimpleTile::Standard(1) },
            ],
        }]),
    };
    let table = vec![LoadStatus::Pending, LoadStatus::Placed(5)];
    let mut warnings = Vec::new();
    let placed = place_tile(&handle, &table, false, &mut warnings).unwrap();
    match &placed.kind {
        TileKind::Auto(autos) => {
            assert_eq!(autos.len(), 1);
            assert_eq!(autos[0].variants.len(), 1);
            assert!(matches!(autos[0].variants[0].tile, SimpleTile::Standard(Placement { image: 1, index: 5 })));
        },
        _ => panic!("expected an auto tile"),
    }
    assert_eq!(warnings, vec![0]);
    let strict = place_tile(&handle, &table, true, &mut Vec::new());
    assert_eq!(strict.err(), Some(TilesetError::MissingImage(0)));
}
