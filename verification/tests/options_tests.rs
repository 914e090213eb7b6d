use tile_editor::options::{resolve_options, OptionsError};

#[test]
fn edit_stands_for_load_and_save() {
    let r = resolve_options(None, None, Some("level.json".to_string()));
    assert_eq!(
        r,
        Ok((Some("level.json".to_string()), Some("level.json".to_string())))
    );
}

#[test]
fn explicit_paths_pass_through() {
    let r = resolve_options(Some("in.json".to_string()), Some("out.json".to_string()), None);
    assert_eq!(r, Ok((Some("in.json".to_string()), Some("out.json".to_string()))));
    assert_eq!(resolve_options(None, None, None), Ok((None, None)));
}

#[test]
fn edit_refuses_explicit_load_or_save() {
    let r = resolve_options(Some("in.json".to_string()), None, Some("e.json".to_string()));
    assert_eq!(r, Err(OptionsError::EditOverwritesLoad));
    let r2 = resolve_options(None, Some("out.json".to_string()), Some("e.json".to_string()));
    assert_eq!(r2, Err(OptionsError::EditOverwritesSave));
}
