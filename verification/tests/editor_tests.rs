use tile_editor::editor::{ButtonState, Editor, Message, Tool};
use tile_editor::level::{Layer, Level, Point};
use tile_editor::schema::{Color, SpriteInfo};

fn sprite(texture: &str) -> SpriteInfo {
    SpriteInfo { texture: texture.to_string(), area: None }
}

fn forest_editor(save_to: Option<String>) -> Editor {
    Editor::new(
        vec!["terrain".to_string(), "units".to_string()],
        vec![
            ("grass".to_string(), sprite("grass.png")),
            ("tree".to_string(), sprite("tree.png")),
        ],
        vec![Color(255, 0, 0, 255), Color(0, 255, 0, 255)],
        Level::empty("demo".to_string(), "forest".to_string()),
        save_to,
    )
}

fn layer<'a>(level: &'a Level, name: &str) -> Option<&'a Layer> {
    level.layers.iter().find(|e| e.0 == name).map(|e| &e.1)
}

fn cells<'a>(level: &'a Level, layer_name: &str, tile: &str) -> Vec<(i32, i32, u32)> {
    match layer(level, layer_name) {
        Some(l) => l
            .kinds
            .iter()
            .find(|kc| kc.0 == tile)
            .map(|kc| kc.1.iter().map(|p| (p.0, p.1, p.2)).collect())
            .unwrap_or_default(),
        None => Vec::new(),
    }
}

#[test]
fn new_editor_starts_on_last_layer_first_tile_first_color() {
    let e = forest_editor(None);
    assert_eq!(e.current_layer, 1);
    assert_eq!(e.current_tile, 0);
    assert_eq!(e.current_color, 0);
    assert_eq!(e.tool, Tool::Paint);
    assert_eq!(e.button_down, ButtonState::Idle);
    assert_eq!(e.viewport.model, (0, 0, 20, 15));
    assert_eq!(e.viewport.view, (0, 600, 800, 0));
}

#[test]
fn layer_index_clamps_at_both_ends() {
    let mut e = forest_editor(None);
    let mut queue = Vec::new();
    // already on the last layer: Next stays put
    assert_eq!(e.current_layer, 1);
    e.handle(Message::NextLayer, &mut queue);
    assert_eq!(e.current_layer, 1);
    e.handle(Message::PrevLayer, &mut queue);
    assert_eq!(e.current_layer, 0);
    // at layer zero: Prev stays put
    e.handle(Message::PrevLayer, &mut queue);
    assert_eq!(e.current_layer, 0);
    e.handle(Message::NextLayer, &mut queue);
    assert_eq!(e.current_layer, 1);
}

#[test]
fn tile_and_color_indices_wrap_at_both_ends() {
    let mut e = forest_editor(None);
    let mut queue = Vec::new();
    // Prev at index 0 wraps to the last index
    e.handle(Message::PrevTile, &mut queue);
    assert_eq!(e.current_tile, 1);
    // Next at the last index wraps back to 0
    e.handle(Message::NextTile, &mut queue);
    assert_eq!(e.current_tile, 0);
    e.handle(Message::PrevColor, &mut queue);
    assert_eq!(e.current_color, 1);
    e.handle(Message::NextColor, &mut queue);
    assert_eq!(e.current_color, 0);
}

#[test]
fn click_drag_release_paints_exactly_the_sampled_cells() {
    // the press paints (1,0) with "grass" on the current (last) layer
    // "units"; the drag paints (2,0) as well; after release, motion
    // paints nothing further.
    let mut e = forest_editor(None);
    let mut queue = Vec::new();
    e.handle(Message::LeftClickAt(40, 580), &mut queue);
    assert_eq!(cells(&e.level, "units", "grass"), vec![(1, 0, 0)]);
    e.handle(Message::MouseMovedTo(80, 580), &mut queue);
    assert_eq!(cells(&e.level, "units", "grass"), vec![(1, 0, 0), (2, 0, 0)]);
    e.handle(Message::LeftReleasedAt(80, 580), &mut queue);
    assert_eq!(e.button_down, ButtonState::Idle);
    e.handle(Message::MouseMovedTo(120, 580), &mut queue);
    assert_eq!(cells(&e.level, "units", "grass"), vec![(1, 0, 0), (2, 0, 0)]);
    // nothing landed on the other layer
    assert!(layer(&e.level, "terrain").is_none());
}

#[test]
fn secondary_button_erases_a_painted_cell() {
    let mut e = forest_editor(None);
    let mut queue = Vec::new();
    e.handle(Message::LeftClickAt(40, 580), &mut queue);
    e.handle(Message::LeftReleasedAt(40, 580), &mut queue);
    assert_eq!(cells(&e.level, "units", "grass"), vec![(1, 0, 0)]);
    e.handle(Message::RightClickAt(40, 580), &mut queue);
    assert_eq!(e.button_down, ButtonState::Erasing);
    assert_eq!(cells(&e.level, "units", "grass"), vec![]);
    // rendering that layer afterward yields no entry at that cell
    e.handle(Message::RightReleasedAt(40, 580), &mut queue);
    let items = e.render();
    assert!(items.is_empty());
}

#[test]
fn erase_on_absent_layer_is_a_no_op() {
    // the current layer "units" has never been painted: erasing there must
    // not create it — layers come into being on first paint only.
    let mut e = forest_editor(None);
    let mut queue = Vec::new();
    e.handle(Message::RightClickAt(40, 580), &mut queue);
    assert_eq!(e.button_down, ButtonState::Erasing);
    assert!(e.level.layers.is_empty());
    e.handle(Message::MouseMovedTo(80, 580), &mut queue);
    assert!(e.level.layers.is_empty());
}

#[test]
fn painting_uses_current_tile_and_color() {
    let mut e = forest_editor(None);
    let mut queue = Vec::new();
    e.handle(Message::NextTile, &mut queue);
    e.handle(Message::NextColor, &mut queue);
    e.handle(Message::LeftClickAt(0, 600), &mut queue);
    assert_eq!(cells(&e.level, "units", "tree"), vec![(0, 0, 1)]);
}

#[test]
fn repainting_a_cell_moves_it_to_the_new_kind() {
    let mut e = forest_editor(None);
    let mut queue = Vec::new();
    e.handle(Message::LeftClickAt(40, 580), &mut queue);
    e.handle(Message::LeftReleasedAt(40, 580), &mut queue);
    e.handle(Message::NextTile, &mut queue);
    e.handle(Message::LeftClickAt(40, 580), &mut queue);
    assert_eq!(cells(&e.level, "units", "grass"), vec![]);
    assert_eq!(cells(&e.level, "units", "tree"), vec![(1, 0, 0)]);
}

#[test]
fn pan_messages_shift_the_model_window() {
    let mut e = forest_editor(None);
    let mut queue = Vec::new();
    e.handle(Message::Up, &mut queue);
    assert_eq!(e.viewport.model, (0, 1, 20, 16));
    e.handle(Message::Right, &mut queue);
    assert_eq!(e.viewport.model, (1, 1, 21, 16));
    e.handle(Message::Down, &mut queue);
    e.handle(Message::Left, &mut queue);
    assert_eq!(e.viewport.model, (0, 0, 20, 15));
    assert_eq!(e.viewport.view, (0, 600, 800, 0));
}

#[test]
fn save_returns_destination_only_when_configured() {
    let mut queue = Vec::new();
    let mut silent = forest_editor(None);
    assert_eq!(silent.handle(Message::Save, &mut queue), None);
    assert!(queue.is_empty());
    let mut saving = forest_editor(Some("level-output.json".to_string()));
    assert_eq!(
        saving.handle(Message::Save, &mut queue),
        Some("level-output.json".to_string())
    );
    assert!(queue.is_empty());
}

#[test]
fn pre_exit_saves_and_queues_exit() {
    let mut queue = Vec::new();
    let mut e = forest_editor(Some("out.json".to_string()));
    assert_eq!(e.handle(Message::PreExit, &mut queue), Some("out.json".to_string()));
    assert_eq!(queue, vec![Message::Exit]);
    let mut silent = forest_editor(None);
    let mut queue2 = Vec::new();
    assert_eq!(silent.handle(Message::PreExit, &mut queue2), None);
    assert_eq!(queue2, vec![Message::Exit]);
}

#[test]
fn render_lists_visible_layers_in_order() {
    let mut e = forest_editor(None);
    let mut queue = Vec::new();
    // paint (1,0) and (2,0) with grass on "units"
    e.handle(Message::LeftClickAt(40, 580), &mut queue);
    e.handle(Message::MouseMovedTo(80, 580), &mut queue);
    e.handle(Message::LeftReleasedAt(80, 580), &mut queue);
    // paint (0,0) with tree on "terrain"
    e.handle(Message::PrevLayer, &mut queue);
    e.handle(Message::NextTile, &mut queue);
    e.handle(Message::LeftClickAt(0, 600), &mut queue);
    e.handle(Message::LeftReleasedAt(0, 600), &mut queue);
    // back on "units": both layers visible, terrain first
    e.handle(Message::NextLayer, &mut queue);
    let items = e.render();
    let listed: Vec<(&str, i32, i32, u32, u32, u32)> = items
        .iter()
        .map(|it| (it.tile.as_str(), it.rect.x, it.rect.y, it.rect.width, it.rect.height, it.tag))
        .collect();
    assert_eq!(
        listed,
        vec![
            ("tree", 0, 560, 40, 40, 0),
            ("grass", 40, 560, 40, 40, 0),
            ("grass", 80, 560, 40, 40, 0),
        ]
    );
    // on "terrain" alone, the units layer is not drawn
    e.handle(Message::PrevLayer, &mut queue);
    let items2 = e.render();
    assert_eq!(items2.len(), 1);
    assert_eq!(items2[0].tile, "tree");
}

#[test]
fn mouse_click_records_position_and_button() {
    let mut e = forest_editor(None);
    e.mouse_click((40, 580), 1);
    assert_eq!(e.prev_point, (40, 580));
    assert_eq!(e.button_down, ButtonState::Painting);
    e.mouse_click((80, 580), 2);
    assert_eq!(e.button_down, ButtonState::Erasing);
}
