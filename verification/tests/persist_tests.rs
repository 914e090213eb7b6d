use tile_editor::level::{insert_tile, remove_tile, Layer, Level, Point};
use tile_editor::persist::{Doc, LoadError};
use tile_editor::schema::{Schema, SchemaSpec, SpriteSpec};

fn two_layer_schema() -> Schema {
    let raw = SchemaSpec {
        name: "forest".to_string(),
        layers: vec!["terrain".to_string(), "units".to_string()],
        prefix: "assets".to_string(),
        colors: vec!["ff0000".to_string(), "00ff00".to_string()],
        tiles: vec![
            ("grass".to_string(), SpriteSpec { texture: "grass.png".to_string(), area: None }),
            ("tree".to_string(), SpriteSpec { texture: "tree.png".to_string(), area: None }),
        ],
    };
    Schema::from_spec(raw).expect("schema is valid")
}

fn sample_level() -> Level {
    let mut level = Level::empty("demo".to_string(), "forest".to_string());
    let mut terrain = Layer::new();
    insert_tile(&mut terrain, "grass", (0, 0), 0);
    insert_tile(&mut terrain, "grass", (1, 0), 1);
    insert_tile(&mut terrain, "tree", (2, 5), 0);
    let mut units = Layer::new();
    insert_tile(&mut units, "tree", (4, 4), 1);
    // an emptied kind must survive the round trip too
    insert_tile(&mut units, "grass", (9, 9), 0);
    remove_tile(&mut units, (9, 9));
    level.layers.push(("terrain".to_string(), terrain));
    level.layers.push(("units".to_string(), units));
    level
}

fn levels_equal(a: &Level, b: &Level) -> bool {
    if a.name != b.name || a.schema != b.schema || a.layers.len() != b.layers.len() {
        return false;
    }
    a.layers.iter().zip(b.layers.iter()).all(|(la, lb)| {
        la.0 == lb.0 && la.1.kinds.len() == lb.1.kinds.len()
            && la.1.kinds.iter().zip(lb.1.kinds.iter()).all(|(ka, kb)| {
                ka.0 == kb.0 && ka.1.len() == kb.1.len()
                    && ka.1.iter().zip(kb.1.iter()).all(|(pa, pb)| {
                        pa.0 == pb.0 && pa.1 == pb.1 && pa.2 == pb.2
                    })
            })
    })
}

#[test]
fn save_then_load_returns_the_same_level() {
    let schema = two_layer_schema();
    let level = sample_level();
    let doc = level.save();
    let reloaded = Level::load(&doc, &schema).expect("own document loads");
    assert!(levels_equal(&level, &reloaded));
}

#[test]
fn load_rejects_schema_mismatch() {
    let schema = two_layer_schema();
    let mut level = sample_level();
    level.schema = "swamp".to_string();
    let doc = level.save();
    assert!(matches!(Level::load(&doc, &schema), Err(LoadError::SchemaMismatch)));
}

#[test]
fn load_rejects_unknown_layer() {
    let schema = two_layer_schema();
    let mut level = sample_level();
    level.layers.push(("lava".to_string(), Layer::new()));
    let doc = level.save();
    assert!(matches!(Level::load(&doc, &schema), Err(LoadError::UnknownLayer)));
}

#[test]
fn load_keeps_empty_layers_and_kinds() {
    let schema = two_layer_schema();
    let mut level = Level::empty("demo".to_string(), "forest".to_string());
    let mut terrain = Layer::new();
    insert_tile(&mut terrain, "grass", (0, 0), 0);
    remove_tile(&mut terrain, (0, 0));
    level.layers.push(("terrain".to_string(), terrain));
    level.layers.push(("units".to_string(), Layer::new()));
    let doc = level.save();
    let reloaded = Level::load(&doc, &schema).expect("loads");
    assert!(levels_equal(&level, &reloaded));
    assert_eq!(reloaded.layers.len(), 2);
    assert_eq!(reloaded.layers[0].1.kinds.len(), 1);
    assert_eq!(reloaded.layers[0].1.kinds[0].1.len(), 0);
}

#[test]
fn load_repairs_position_held_by_two_kinds() {
    // a hand-edited document with one position under two kinds is rebuilt
    // by re-painting in document order, so the later kind wins.
    let schema = two_layer_schema();
    let doc = Doc {
        name: "demo".to_string(),
        schema: "forest".to_string(),
        layers: vec![(
            "terrain".to_string(),
            Layer {
                kinds: vec![
                    ("grass".to_string(), vec![Point(1, 1, 0)]),
                    ("tree".to_string(), vec![Point(1, 1, 3)]),
                ],
            },
        )],
    };
    let reloaded = Level::load(&doc, &schema).expect("loads");
    let terrain = &reloaded.layers[0].1;
    let grass = terrain.kinds.iter().find(|kc| kc.0 == "grass").unwrap();
    let tree = terrain.kinds.iter().find(|kc| kc.0 == "tree").unwrap();
    assert_eq!(grass.1.len(), 0);
    assert_eq!(tree.1.len(), 1);
    assert_eq!((tree.1[0].0, tree.1[0].1, tree.1[0].2), (1, 1, 3));
}

#[test]
fn load_repairs_unsorted_and_duplicated_cells() {
    let schema = two_layer_schema();
    let doc = Doc {
        name: "demo".to_string(),
        schema: "forest".to_string(),
        layers: vec![(
            "terrain".to_string(),
            Layer {
                kinds: vec![(
                    "grass".to_string(),
                    vec![Point(5, 5, 0), Point(1, 1, 1), Point(5, 5, 9)],
                )],
            },
        )],
    };
    let reloaded = Level::load(&doc, &schema).expect("loads");
    let grass = &reloaded.layers[0].1.kinds[0];
    let positions: Vec<(i32, i32, u32)> = grass.1.iter().map(|p| (p.0, p.1, p.2)).collect();
    // duplicates collapse (the later entry wins the tag) and cells come
    // out ordered
    assert_eq!(positions, vec![(1, 1, 1), (5, 5, 9)]);
}
