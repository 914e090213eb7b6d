use tile_editor::schema::{
    parse_color, try_parse_color, Color, Schema, SchemaError, SchemaSpec, SpriteInfo, SpriteSpec,
};

#[test]
fn parse_color_reads_rrggbb() {
    assert_eq!(parse_color("ff8000"), Color(255, 128, 0, 255));
    assert_eq!(parse_color("000000"), Color(0, 0, 0, 255));
    assert_eq!(parse_color("FFFFFF"), Color(255, 255, 255, 255));
    assert_eq!(parse_color("12aB3c"), Color(0x12, 0xab, 0x3c, 255));
}

#[test]
fn try_parse_color_rejects_bad_strings() {
    assert_eq!(try_parse_color("ff800"), None);
    assert_eq!(try_parse_color("ff80000"), None);
    assert_eq!(try_parse_color(""), None);
    assert_eq!(try_parse_color("ff80g0"), None);
    assert_eq!(try_parse_color("ff8000"), Some(Color(255, 128, 0, 255)));
}

#[test]
fn sprite_from_spec_copies_fields() {
    let raw = SpriteSpec { texture: "tree.png".to_string(), area: Some((1, 2, 16, 16)) };
    let info = SpriteInfo::from_spec(raw).expect("never fails");
    assert_eq!(info.texture, "tree.png");
    assert_eq!(info.area, Some((1, 2, 16, 16)));
}

#[test]
fn schema_from_spec_parses_all_colors() {
    let raw = SchemaSpec {
        name: "forest".to_string(),
        layers: vec!["terrain".to_string()],
        prefix: "assets".to_string(),
        colors: vec!["ff0000".to_string(), "00ff00".to_string(), "0000ff".to_string()],
        tiles: vec![(
            "grass".to_string(),
            SpriteSpec { texture: "grass.png".to_string(), area: None },
        )],
    };
    let schema = Schema::from_spec(raw).expect("valid schema");
    assert_eq!(schema.name, "forest");
    assert_eq!(schema.prefix, "assets");
    assert_eq!(
        schema.colors,
        vec![Color(255, 0, 0, 255), Color(0, 255, 0, 255), Color(0, 0, 255, 255)]
    );
    assert_eq!(schema.tiles.len(), 1);
    assert_eq!(schema.tiles[0].0, "grass");
    assert_eq!(schema.tiles[0].1.texture, "grass.png");
}

#[test]
fn schema_from_spec_reports_first_bad_color() {
    let raw = SchemaSpec {
        name: "forest".to_string(),
        layers: vec!["terrain".to_string()],
        prefix: "assets".to_string(),
        colors: vec!["ff0000".to_string(), "nothex".to_string()],
        tiles: Vec::new(),
    };
    match Schema::from_spec(raw) {
        Err(SchemaError::BadColor(text)) => assert_eq!(text, "nothex"),
        Ok(_) => panic!("schema with a bad colour must not validate"),
    }
}
