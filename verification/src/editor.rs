//! The editor interaction state machine.
//!
//! An `Editor` holds the session: the schema's layer, tile and colour
//! lists with a current index into each, the level being edited, the
//! viewport, the active tool and the pointer-button state.  It consumes
//! abstract input messages and mutates the grid, the viewport or the
//! indices; the only outward effect it ever asks for is a save, which it
//! hands back as a request for the surrounding layer to perform.

use vstd::prelude::*;

use crate::level::{
    find_layer, grid_view_wf, has_pos, insert_tile, layer_wf, lemma_view_erase_wf, lemma_view_paint_wf,
    level_ensure_layer, level_has_name, level_index_of, names_unique, remove_tile, view_erase,
    view_paint, Layer, Level, Point,
};
use crate::schema::{Color, SpriteInfo};
use crate::viewport::{map_x, map_y, point_in_range, rect_in_range, rect_map, Rect, Viewport};

verus! {

/// An abstract input message, independent of any windowing toolkit.
/// Pointer coordinates are in view (pixel) space.
#[derive(Clone, Copy, Debug, PartialEq, Eq, Structural)]
pub enum Message {
    Up,
    Down,
    Left,
    Right,
    PreExit,
    Exit,
    NextLayer,
    PrevLayer,
    NextTile,
    PrevTile,
    NextColor,
    PrevColor,
    Save,
    LeftClickAt(i32, i32),
    LeftReleasedAt(i32, i32),
    RightClickAt(i32, i32),
    RightReleasedAt(i32, i32),
    MouseMovedTo(i32, i32),
}

/// The editing tool in hand.
#[derive(Clone, Copy, Debug, PartialEq, Eq, Structural)]
pub enum Tool {
    Paint,
}

/// Which pointer button is held down, as a tagged state rather than a raw
/// number: no invalid value is representable.
#[derive(Clone, Copy, Debug, PartialEq, Eq, Structural)]
pub enum ButtonState {
    Idle,
    Painting,
    Erasing,
}

/// Some string of the list reads `nm`.
pub open spec fn known_name(names: Seq<String>, nm: Seq<char>) -> bool {
    exists|k: int| 0 <= k < names.len() && (#[trigger] names[k])@ == nm
}

/// The level view after painting cell `p` with tile kind `tile` on the
/// named layer, creating the layer when absent.
pub open spec fn level_paint_at(
    v: Seq<(Seq<char>, Seq<(Seq<char>, Seq<Point>)>)>,
    name: Seq<char>,
    tile: Seq<char>,
    p: Point,
) -> Seq<(Seq<char>, Seq<(Seq<char>, Seq<Point>)>)> {
    let v1 = level_ensure_layer(v, name);
    let i = level_index_of(v1, name);
    v1.update(i, (name, view_paint(v1[i].1, tile, p)))
}

/// The level view after erasing position (x, y) from every kind of the
/// named layer.  A layer that does not exist is left uncreated: erasing is
/// a no-op then, since layers come into being on first paint only.
pub open spec fn level_erase_at(
    v: Seq<(Seq<char>, Seq<(Seq<char>, Seq<Point>)>)>,
    name: Seq<char>,
    x: int,
    y: int,
) -> Seq<(Seq<char>, Seq<(Seq<char>, Seq<Point>)>)> {
    if level_has_name(v, name) {
        let i = level_index_of(v, name);
        v.update(i, (name, view_erase(v[i].1, x, y)))
    } else {
        v
    }
}

/// The editor session state.
#[derive(Debug)]
pub struct Editor {
    pub layers: Vec<String>,
    pub current_layer: usize,
    pub tiles: Vec<(String, SpriteInfo)>,
    pub current_tile: usize,
    pub colors: Vec<Color>,
    pub current_color: usize,
    pub level: Level,
    pub viewport: Viewport,
    pub tool: Tool,
    pub button_down: ButtonState,
    pub prev_point: (i32, i32),
    pub save_to: Option<String>,
}

impl Editor {
    /// The session invariant, established at construction and preserved by
    /// every message: the three catalog lists are non-empty with their
    /// current indices in range, the level is well-formed with every layer
    /// name known, and the viewport has non-zero spans.
    pub open spec fn wf(self) -> bool {
        &&& self.layers@.len() > 0
        &&& self.current_layer < self.layers@.len()
        &&& self.tiles@.len() > 0
        &&& self.current_tile < self.tiles@.len()
        &&& self.colors@.len() > 0
        &&& self.current_color < self.colors@.len()
        &&& self.level.wf()
        &&& forall|i: int|
            0 <= i < self.level.layers@.len() ==> known_name(
                self.layers@,
                (#[trigger] self.level.layers@[i]).0@,
            )
        &&& self.viewport.wf()
    }

    /// The fields no index-cycling message ever touches.
    pub open spec fn same_shell(self, other: Editor) -> bool {
        &&& other.layers == self.layers
        &&& other.tiles == self.tiles
        &&& other.colors == self.colors
        &&& other.level == self.level
        &&& other.viewport == self.viewport
        &&& other.tool == self.tool
        &&& other.button_down == self.button_down
        &&& other.prev_point == self.prev_point
        &&& other.save_to == self.save_to
    }

    /// The fields a pointer paint or erase never touches: everything but
    /// the level.
    pub open spec fn same_session(self, other: Editor) -> bool {
        &&& other.layers == self.layers
        &&& other.current_layer == self.current_layer
        &&& other.tiles == self.tiles
        &&& other.current_tile == self.current_tile
        &&& other.colors == self.colors
        &&& other.current_color == self.current_color
        &&& other.viewport == self.viewport
        &&& other.tool == self.tool
        &&& other.button_down == self.button_down
        &&& other.prev_point == self.prev_point
        &&& other.save_to == self.save_to
    }

    /// Builds a session over a validated level.  The schema's lists must
    /// be non-empty and every layer of the level known to the schema:
    /// empty lists or an unknown layer name were fatal construction-time
    /// assertion failures.  Editing starts on the last layer, the first
    /// tile and the first colour, with the paint tool, no button held,
    /// and a fixed initial window of 20 by 15 model cells onto a
    /// Y-flipped 800 by 600 view.
    pub fn new(
        layers: Vec<String>,
        tile_sprites: Vec<(String, SpriteInfo)>,
        colors: Vec<Color>,
        level: Level,
        save_to: Option<String>,
    ) -> (e: Editor)
        requires
            layers@.len() > 0,
            tile_sprites@.len() > 0,
            colors@.len() > 0,
            level.wf(),
            forall|i: int|
                0 <= i < level.layers@.len() ==> known_name(
                    layers@,
                    (#[trigger] level.layers@[i]).0@,
                ),
        ensures
            e.wf(),
            e.layers == layers,
            e.current_layer == layers@.len() - 1,
            e.tiles == tile_sprites,
            e.current_tile == 0,
            e.colors == colors,
            e.current_color == 0,
            e.level == level,
            e.viewport.model == (0i32, 0i32, 20i32, 15i32),
            e.viewport.view == (0i32, 600i32, 800i32, 0i32),
            e.tool == Tool::Paint,
            e.button_down == ButtonState::Idle,
            e.prev_point == (0i32, 0i32),
            e.save_to == save_to,
    {
        let num_layers = layers.len();
        Editor {
            layers,
            current_layer: num_layers - 1,
            tiles: tile_sprites,
            current_tile: 0,
            colors,
            current_color: 0,
            level,
            viewport: Viewport { model: (0, 0, 20, 15), view: (0, 600, 800, 0) },
            tool: Tool::Paint,
            button_down: ButtonState::Idle,
            prev_point: (0, 0),
            save_to,
        }
    }

    /// The clamped successor of the layer index.
    pub open spec fn next_layer_index(self) -> int {
        if self.current_layer + 1 < self.layers@.len() {
            self.current_layer + 1
        } else {
            self.layers@.len() - 1
        }
    }

    /// The clamped predecessor of the layer index.
    pub open spec fn prev_layer_index(self) -> int {
        if self.current_layer == 0 {
            0
        } else {
            self.current_layer - 1
        }
    }

    /// The wrapping successor of the tile index.
    pub open spec fn next_tile_index(self) -> int {
        if self.current_tile + 1 == self.tiles@.len() {
            0
        } else {
            self.current_tile + 1
        }
    }

    /// The wrapping predecessor of the tile index.
    pub open spec fn prev_tile_index(self) -> int {
        if self.current_tile == 0 {
            self.tiles@.len() - 1
        } else {
            self.current_tile - 1
        }
    }

    /// The wrapping successor of the colour index.
    pub open spec fn next_color_index(self) -> int {
        if self.current_color + 1 == self.colors@.len() {
            0
        } else {
            self.current_color + 1
        }
    }

    /// The wrapping predecessor of the colour index.
    pub open spec fn prev_color_index(self) -> int {
        if self.current_color == 0 {
            self.colors@.len() - 1
        } else {
            self.current_color - 1
        }
    }

    /// Shifting the viewport's model rectangle by (dx, dy) stays within
    /// 32 bits on every corner.
    pub open spec fn can_pan(self, dx: int, dy: int) -> bool {
        &&& i32::MIN <= self.viewport.model.0 + dx <= i32::MAX
        &&& i32::MIN <= self.viewport.model.1 + dy <= i32::MAX
        &&& i32::MIN <= self.viewport.model.2 + dx <= i32::MAX
        &&& i32::MIN <= self.viewport.model.3 + dy <= i32::MAX
    }

    /// What a pan message leaves behind: the model rectangle shifted by
    /// (dx, dy), the view rectangle and every other session field as they
    /// were.
    pub open spec fn pan_post(self, post: Editor, dx: int, dy: int) -> bool {
        &&& post.viewport.model.0 == self.viewport.model.0 + dx
        &&& post.viewport.model.1 == self.viewport.model.1 + dy
        &&& post.viewport.model.2 == self.viewport.model.2 + dx
        &&& post.viewport.model.3 == self.viewport.model.3 + dy
        &&& post.viewport.view == self.viewport.view
        &&& post.layers == self.layers
        &&& post.current_layer == self.current_layer
        &&& post.tiles == self.tiles
        &&& post.current_tile == self.current_tile
        &&& post.colors == self.colors
        &&& post.current_color == self.current_color
        &&& post.level == self.level
        &&& post.tool == self.tool
        &&& post.button_down == self.button_down
        &&& post.prev_point == self.prev_point
        &&& post.save_to == self.save_to
    }

    /// What a button press leaves behind: the press recorded, and one
    /// cell painted (primary) or erased (secondary).
    pub open spec fn click_post(self, post: Editor, x: i32, y: i32, primary: bool) -> bool {
        &&& post.layers == self.layers
        &&& post.current_layer == self.current_layer
        &&& post.tiles == self.tiles
        &&& post.current_tile == self.current_tile
        &&& post.colors == self.colors
        &&& post.current_color == self.current_color
        &&& post.viewport == self.viewport
        &&& post.tool == self.tool
        &&& post.save_to == self.save_to
        &&& post.prev_point == (x, y)
        &&& post.button_down == (if primary {
            ButtonState::Painting
        } else {
            ButtonState::Erasing
        })
        &&& post.level.name == self.level.name
        &&& post.level.schema == self.level.schema
        &&& post.level.layers_view() == (if primary {
            self.spec_paint_level((x, y))
        } else {
            self.spec_erase_level((x, y))
        })
    }

    /// Whether the session can take this message as it stands: pointer
    /// messages must land on a representable model cell, pan messages must
    /// not push the model window past the 32-bit corners.  These are the
    /// machine limits of the session, not choices of the state machine.
    pub open spec fn message_ok(self, message: Message) -> bool {
        match message {
            Message::Up => self.can_pan(0, 1),
            Message::Down => self.can_pan(0, -1),
            Message::Left => self.can_pan(-1, 0),
            Message::Right => self.can_pan(1, 0),
            Message::LeftClickAt(x, y) => self.pointer_in_range((x, y)),
            Message::RightClickAt(x, y) => self.pointer_in_range((x, y)),
            Message::MouseMovedTo(x, y) => self.button_down != ButtonState::Idle
                ==> self.pointer_in_range((x, y)),
            _ => true,
        }
    }

    /// Steps to the next layer, clamped: at the last layer it stays put.
    pub fn next_layer(&mut self)
        requires
            old(self).wf(),
        ensures
            final(self).wf(),
            old(self).same_shell(*final(self)),
            final(self).current_tile == old(self).current_tile,
            final(self).current_color == old(self).current_color,
            final(self).current_layer == (if old(self).current_layer + 1
                < old(self).layers@.len() {
                old(self).current_layer + 1
            } else {
                old(self).layers@.len() - 1
            }),
    {
        let n = self.layers.len();
        if self.current_layer < n - 1 {
            self.current_layer = self.current_layer + 1;
        } else {
            self.current_layer = n - 1;
        }
    }

    /// Steps to the previous layer, clamped: at layer zero it stays put.
    pub fn prev_layer(&mut self)
        requires
            old(self).wf(),
        ensures
            final(self).wf(),
            old(self).same_shell(*final(self)),
            final(self).current_tile == old(self).current_tile,
            final(self).current_color == old(self).current_color,
            final(self).current_layer == (if old(self).current_layer == 0 {
                0
            } else {
                old(self).current_layer - 1
            }),
    {
        if self.current_layer > 0 {
            self.current_layer = self.current_layer - 1;
        }
    }

    /// Steps to the next tile kind, wrapping: past the last it returns to
    /// the first.
    pub fn next_tile(&mut self)
        requires
            old(self).wf(),
        ensures
            final(self).wf(),
            old(self).same_shell(*final(self)),
            final(self).current_layer == old(self).current_layer,
            final(self).current_color == old(self).current_color,
            final(self).current_tile == (if old(self).current_tile + 1 == old(self).tiles@.len() {
                0int
            } else {
                old(self).current_tile + 1
            }),
    {
        let n = self.tiles.len();
        if self.current_tile < n - 1 {
            self.current_tile = self.current_tile + 1;
        } else {
            self.current_tile = 0;
        }
    }

    /// Steps to the previous tile kind, wrapping: before the first it
    /// returns to the last.
    pub fn prev_tile(&mut self)
        requires
            old(self).wf(),
        ensures
            final(self).wf(),
            old(self).same_shell(*final(self)),
            final(self).current_layer == old(self).current_layer,
            final(self).current_color == old(self).current_color,
            final(self).current_tile == (if old(self).current_tile == 0 {
                old(self).tiles@.len() - 1
            } else {
                old(self).current_tile - 1
            }),
    {
        if self.current_tile == 0 {
            self.current_tile = self.tiles.len() - 1;
        } else {
            self.current_tile = self.current_tile - 1;
        }
    }

    /// Steps to the next colour, wrapping.
    pub fn next_color(&mut self)
        requires
            old(self).wf(),
        ensures
            final(self).wf(),
            old(self).same_shell(*final(self)),
            final(self).current_layer == old(self).current_layer,
            final(self).current_tile == old(self).current_tile,
            final(self).current_color == (if old(self).current_color + 1 == old(self).colors@.len() {
                0int
            } else {
                old(self).current_color + 1
            }),
    {
        let n = self.colors.len();
        if self.current_color < n - 1 {
            self.current_color = self.current_color + 1;
        } else {
            self.current_color = 0;
        }
    }

    /// The model-space cell under a view-space point, by the floor
    /// conversion through the viewport.
    pub open spec fn cell_at(self, view_coord: (i32, i32)) -> (int, int) {
        (
            map_x(view_coord.0 as int, self.viewport.view, self.viewport.model),
            map_y(view_coord.1 as int, self.viewport.view, self.viewport.model),
        )
    }

    /// The view-space point converts to a representable model cell: the
    /// machine limit a pointer event must satisfy before it can paint.
    pub open spec fn pointer_in_range(self, view_coord: (i32, i32)) -> bool {
        point_in_range(
            view_coord.0 as int,
            view_coord.1 as int,
            self.viewport.view,
            self.viewport.model,
        )
    }

    /// The name of the layer being edited.
    pub open spec fn current_layer_name(self) -> Seq<char> {
        self.layers@[self.current_layer as int]@
    }

    /// The name of the tile kind in hand.
    pub open spec fn current_tile_name(self) -> Seq<char> {
        self.tiles@[self.current_tile as int].0@
    }

    /// The cell a pointer event at this view point would paint: the
    /// converted position tagged with the current colour index.
    pub open spec fn painted_cell(self, view_coord: (i32, i32)) -> Point {
        Point(
            self.cell_at(view_coord).0 as i32,
            self.cell_at(view_coord).1 as i32,
            self.current_color as u32,
        )
    }

    /// The level's layers after painting the current tile at this view
    /// point on the current layer.
    pub open spec fn spec_paint_level(self, view_coord: (i32, i32)) -> Seq<
        (Seq<char>, Seq<(Seq<char>, Seq<Point>)>),
    > {
        level_paint_at(
            self.level.layers_view(),
            self.current_layer_name(),
            self.current_tile_name(),
            self.painted_cell(view_coord),
        )
    }

    /// The level's layers after erasing the cell under this view point on
    /// the current layer.
    pub open spec fn spec_erase_level(self, view_coord: (i32, i32)) -> Seq<
        (Seq<char>, Seq<(Seq<char>, Seq<Point>)>),
    > {
        level_erase_at(
            self.level.layers_view(),
            self.current_layer_name(),
            self.cell_at(view_coord).0,
            self.cell_at(view_coord).1,
        )
    }

    /// Steps to the previous colour, wrapping.
    pub fn prev_color(&mut self)
        requires
            old(self).wf(),
        ensures
            final(self).wf(),
            old(self).same_shell(*final(self)),
            final(self).current_layer == old(self).current_layer,
            final(self).current_tile == old(self).current_tile,
            final(self).current_color == (if old(self).current_color == 0 {
                old(self).colors@.len() - 1
            } else {
                old(self).current_color - 1
            }),
    {
        if self.current_color == 0 {
            self.current_color = self.colors.len() - 1;
        } else {
            self.current_color = self.current_color - 1;
        }
    }

    /// Paints or erases exactly one cell: the cell under the given
    /// view-space point, on the current layer.  Painting clears the
    /// position from every tile kind and inserts it into the current kind,
    /// tagged with the current colour, creating the layer on its first
    /// paint; erasing only clears the position, and is a no-op when the
    /// layer does not exist — erasing never creates one.
    pub fn paint(&mut self, view_coord: (i32, i32), erase: bool)
        requires
            old(self).wf(),
            old(self).pointer_in_range(view_coord),
        ensures
            final(self).wf(),
            old(self).same_session(*final(self)),
            final(self).level.name == old(self).level.name,
            final(self).level.schema == old(self).level.schema,
            final(self).level.layers_view() == (if erase {
                old(self).spec_erase_level(view_coord)
            } else {
                old(self).spec_paint_level(view_coord)
            }),
    {
        let ghost v0 = self.level.layers_view();
        let ghost name = self.current_layer_name();
        let ghost p = self.painted_cell(view_coord);
        let layer_name = self.layers[self.current_layer].clone();
        let pos = self.viewport.view_to_model(view_coord);
        let color = self.current_color as u32;
        if erase {
            // erasing never creates a layer: with the current layer absent
            // from the level, nothing happens at all
            match find_layer(&self.level, &layer_name) {
                Some(idx) => {
                    proof {
                        assert(v0[idx as int].0 == name);
                        assert(level_has_name(v0, name));
                        assert(level_index_of(v0, name) == idx as int) by {
                            let i2 = level_index_of(v0, name);
                            assert(0 <= i2 < v0.len() && v0[i2].0 == name);
                            if i2 != idx as int {
                                assert(grid_view_wf(v0));
                            }
                        }
                        assert(layer_wf(v0[idx as int].1)) by {
                            assert(grid_view_wf(v0));
                        }
                        lemma_view_erase_wf(v0[idx as int].1, p.0 as int, p.1 as int);
                    }
                    remove_tile(&mut self.level.layers[idx].1, pos);
                    proof {
                        assert(self.level.layers_view() =~= v0.update(
                            idx as int,
                            (name, view_erase(v0[idx as int].1, p.0 as int, p.1 as int)),
                        ));
                        let vf = self.level.layers_view();
                        assert(grid_view_wf(vf)) by {
                            assert forall|k1: int, k2: int|
                                #![trigger vf[k1], vf[k2]]
                                0 <= k1 < k2 < vf.len() implies vf[k1].0 != vf[k2].0 by {
                                assert(vf[k1].0 == v0[k1].0 && vf[k2].0 == v0[k2].0);
                                assert(grid_view_wf(v0));
                            }
                            assert forall|k: int| 0 <= k < vf.len() implies layer_wf(
                                (#[trigger] vf[k]).1,
                            ) by {
                                if k != idx as int {
                                    assert(vf[k].1 == v0[k].1);
                                    assert(grid_view_wf(v0));
                                }
                            }
                        }
                        assert forall|i: int|
                            0 <= i < self.level.layers@.len() implies known_name(
                            self.layers@,
                            (#[trigger] self.level.layers@[i]).0@,
                        ) by {
                            assert(vf[i].0 == self.level.layers@[i].0@);
                            assert(vf[i].0 == v0[i].0);
                            assert(old(self).level.layers@[i].0@ == v0[i].0);
                        }
                    }
                },
                None => {
                    proof {
                        if level_has_name(v0, name) {
                            let k = choose|k: int| 0 <= k < v0.len() && (#[trigger] v0[k]).0
                                == name;
                            assert(self.level.layers@[k].0@ == name);
                            assert(false);
                        }
                        assert(old(self).spec_erase_level(view_coord) == v0);
                    }
                },
            }
        } else {
            let idx: usize = match find_layer(&self.level, &layer_name) {
                Some(i) => {
                    proof {
                        assert(v0[i as int].0 == name);
                        assert(level_has_name(v0, name));
                    }
                    i
                },
                None => {
                    proof {
                        if level_has_name(v0, name) {
                            let k = choose|k: int| 0 <= k < v0.len() && (#[trigger] v0[k]).0
                                == name;
                            assert(self.level.layers@[k].0@ == name);
                            assert(false);
                        }
                    }
                    self.level.layers.push((layer_name.clone(), Layer::new()));
                    proof {
                        assert(self.level.layers_view() =~= v0.push(
                            (name, Seq::<(Seq<char>, Seq<Point>)>::empty()),
                        ));
                    }
                    self.level.layers.len() - 1
                },
            };
            let ghost v1 = self.level.layers_view();
            proof {
                assert(v1 == level_ensure_layer(v0, name));
                assert(v1[idx as int].0 == name);
                assert(level_index_of(v1, name) == idx as int) by {
                    let i2 = level_index_of(v1, name);
                    assert(level_has_name(v1, name));
                    assert(0 <= i2 < v1.len() && v1[i2].0 == name);
                    if i2 != idx as int {
                        if level_has_name(v0, name) {
                            assert(grid_view_wf(v1));
                        } else {
                            assert(i2 < v0.len());
                            assert(v0[i2].0 == name);
                            assert(level_has_name(v0, name));
                        }
                    }
                }
                assert(layer_wf(v1[idx as int].1)) by {
                    if level_has_name(v0, name) {
                        assert(grid_view_wf(v0));
                    } else {
                        if idx as int == v0.len() as int {
                            assert(v1[idx as int].1 =~= Seq::<(Seq<char>, Seq<Point>)>::empty());
                            assert(names_unique(v1[idx as int].1));
                        }
                    }
                }
            }
            let tile = self.tiles[self.current_tile].0.clone();
            insert_tile(&mut self.level.layers[idx].1, tile.as_str(), pos, color);
            proof {
                assert(self.level.layers_view() =~= v1.update(
                    idx as int,
                    (name, view_paint(v1[idx as int].1, tile@, p)),
                ));
                let vf = self.level.layers_view();
                assert(grid_view_wf(vf)) by {
                    assert forall|k1: int, k2: int|
                        #![trigger vf[k1], vf[k2]]
                        0 <= k1 < k2 < vf.len() implies vf[k1].0 != vf[k2].0 by {
                        assert(vf[k1].0 == v1[k1].0 && vf[k2].0 == v1[k2].0);
                        if level_has_name(v0, name) {
                            assert(grid_view_wf(v0));
                        } else {
                            if k2 < v0.len() {
                                assert(v1[k1].0 == v0[k1].0 && v1[k2].0 == v0[k2].0);
                            } else {
                                if v0[k1].0 == name {
                                    assert(level_has_name(v0, name));
                                }
                            }
                        }
                    }
                    assert forall|k: int| 0 <= k < vf.len() implies layer_wf(
                        (#[trigger] vf[k]).1,
                    ) by {
                        if k != idx as int {
                            assert(vf[k].1 == v1[k].1);
                            if level_has_name(v0, name) {
                                assert(grid_view_wf(v0));
                            } else {
                                assert(k < v0.len());
                                assert(v1[k].1 == v0[k].1);
                            }
                        }
                    }
                }
                assert forall|i: int|
                    0 <= i < self.level.layers@.len() implies known_name(
                    self.layers@,
                    (#[trigger] self.level.layers@[i]).0@,
                ) by {
                    assert(vf[i].0 == self.level.layers@[i].0@);
                    if !level_has_name(v0, name) && i == v0.len() as int {
                        assert(self.layers@[old(self).current_layer as int]@ == name);
                        assert(known_name(self.layers@, name));
                    } else {
                        assert(vf[i].0 == v0[i].0);
                        assert(old(self).level.layers@[i].0@ == v0[i].0);
                    }
                }
            }
        }
    }

    /// A pointer motion: with no button held it does nothing; with the
    /// primary button held it paints the cell under the pointer, with the
    /// secondary it erases there.  Only the cell under the current sampled
    /// position is touched — motion is not interpolated, so a fast drag
    /// can skip cells.
    pub fn mouse_move(&mut self, view_coord: (i32, i32))
        requires
            old(self).wf(),
            old(self).button_down != ButtonState::Idle ==> old(self).pointer_in_range(view_coord),
        ensures
            final(self).wf(),
            old(self).button_down == ButtonState::Idle ==> *final(self) == *old(self),
            old(self).button_down != ButtonState::Idle ==> old(self).same_session(*final(self))
                && final(self).level.name == old(self).level.name && final(self).level.schema == old(
            self).level.schema,
            old(self).button_down == ButtonState::Painting ==> final(self).level.layers_view()
                == old(self).spec_paint_level(view_coord),
            old(self).button_down == ButtonState::Erasing ==> final(self).level.layers_view()
                == old(self).spec_erase_level(view_coord),
    {
        match self.button_down {
            ButtonState::Idle => {},
            ButtonState::Painting => self.paint(view_coord, false),
            ButtonState::Erasing => self.paint(view_coord, true),
        }
    }

    /// A button press: records which button went down and where, then
    /// paints or erases that cell at once — a press paints or erases
    /// exactly one cell even without any subsequent motion.  Button 1 is
    /// the primary (painting) button, button 2 the secondary (erasing)
    /// one.
    pub fn mouse_click(&mut self, view_coord: (i32, i32), button: u8)
        requires
            old(self).wf(),
            button == 1 || button == 2,
            old(self).pointer_in_range(view_coord),
        ensures
            final(self).wf(),
            final(self).layers == old(self).layers,
            final(self).current_layer == old(self).current_layer,
            final(self).tiles == old(self).tiles,
            final(self).current_tile == old(self).current_tile,
            final(self).colors == old(self).colors,
            final(self).current_color == old(self).current_color,
            final(self).viewport == old(self).viewport,
            final(self).tool == old(self).tool,
            final(self).save_to == old(self).save_to,
            final(self).prev_point == view_coord,
            final(self).button_down == (if button == 1 {
                ButtonState::Painting
            } else {
                ButtonState::Erasing
            }),
            final(self).level.name == old(self).level.name,
            final(self).level.schema == old(self).level.schema,
            final(self).level.layers_view() == (if button == 1 {
                old(self).spec_paint_level(view_coord)
            } else {
                old(self).spec_erase_level(view_coord)
            }),
    {
        self.prev_point = view_coord;
        self.button_down = if button == 1 {
            ButtonState::Painting
        } else {
            ButtonState::Erasing
        };
        self.mouse_move(view_coord);
    }

    /// What a button release leaves behind: no button held, everything
    /// else — the last pointer position included — as it was.
    pub open spec fn release_post(self, post: Editor) -> bool {
        &&& post.layers == self.layers
        &&& post.current_layer == self.current_layer
        &&& post.tiles == self.tiles
        &&& post.current_tile == self.current_tile
        &&& post.colors == self.colors
        &&& post.current_color == self.current_color
        &&& post.level == self.level
        &&& post.viewport == self.viewport
        &&& post.tool == self.tool
        &&& post.prev_point == self.prev_point
        &&& post.save_to == self.save_to
        &&& post.button_down == ButtonState::Idle
    }

    /// Consumes one abstract input message to completion, performing its
    /// whole effect on the session: a pan shifts the model window by one
    /// unit, the cycle messages step their index (layers clamped, tiles
    /// and colours wrapped), pointer messages paint or erase one cell,
    /// releasing either button always stops drag-painting, and `Save` and
    /// `PreExit` ask the caller to persist the level by returning the
    /// configured destination — with none configured they are silent
    /// no-ops, never errors.  `PreExit` also queues `Exit` for the
    /// surrounding loop; `Exit` itself is terminal and never reaches the
    /// engine.
    pub fn handle(&mut self, message: Message, queue: &mut Vec<Message>) -> (save: Option<String>)
        requires
            old(self).wf(),
            message != Message::Exit,
            old(self).message_ok(message),
        ensures
            final(self).wf(),
            final(self).current_layer < final(self).layers@.len(),
            final(self).current_tile < final(self).tiles@.len(),
            final(self).current_color < final(self).colors@.len(),
            message == Message::Up ==> old(self).pan_post(*final(self), 0, 1),
            message == Message::Down ==> old(self).pan_post(*final(self), 0, -1),
            message == Message::Left ==> old(self).pan_post(*final(self), -1, 0),
            message == Message::Right ==> old(self).pan_post(*final(self), 1, 0),
            message == Message::NextLayer ==> old(self).same_shell(*final(self)) && final(self).current_tile == old(self).current_tile && final(self).current_color == old(self).current_color && final(self).current_layer == old(self).next_layer_index(),
            message == Message::PrevLayer ==> old(self).same_shell(*final(self)) && final(self).current_tile == old(self).current_tile && final(self).current_color == old(self).current_color && final(self).current_layer == old(self).prev_layer_index(),
            message == Message::NextTile ==> old(self).same_shell(*final(self)) && final(self).current_layer == old(self).current_layer && final(self).current_color == old(self).current_color && final(self).current_tile == old(self).next_tile_index(),
            message == Message::PrevTile ==> old(self).same_shell(*final(self)) && final(self).current_layer == old(self).current_layer && final(self).current_color == old(self).current_color && final(self).current_tile == old(self).prev_tile_index(),
            message == Message::NextColor ==> old(self).same_shell(*final(self)) && final(self).current_layer == old(self).current_layer && final(self).current_tile == old(self).current_tile && final(self).current_color == old(self).next_color_index(),
            message == Message::PrevColor ==> old(self).same_shell(*final(self)) && final(self).current_layer == old(self).current_layer && final(self).current_tile == old(self).current_tile && final(self).current_color == old(self).prev_color_index(),
            message == Message::Save ==> *final(self) == *old(self),
            message == Message::PreExit ==> *final(self) == *old(self),
            message matches Message::LeftClickAt(x, y) ==> old(self).click_post(
                *final(self),
                x,
                y,
                true,
            ),
            message matches Message::RightClickAt(x, y) ==> old(self).click_post(
                *final(self),
                x,
                y,
                false,
            ),
            message matches Message::LeftReleasedAt(x, y) ==> old(self).release_post(
                *final(self),
            ),
            message matches Message::RightReleasedAt(x, y) ==> old(self).release_post(
                *final(self),
            ),
            message matches Message::MouseMovedTo(x, y) ==> {
                &&& old(self).button_down == ButtonState::Idle ==> *final(self) == *old(self)
                &&& old(self).button_down == ButtonState::Painting ==> old(self).same_session(
                    *final(self),
                ) && final(self).level.name == old(self).level.name && final(self).level.schema
                    == old(self).level.schema && final(self).level.layers_view() == old(self).spec_paint_level((x, y))
                &&& old(self).button_down == ButtonState::Erasing ==> old(self).same_session(
                    *final(self),
                ) && final(self).level.name == old(self).level.name && final(self).level.schema
                    == old(self).level.schema && final(self).level.layers_view() == old(self).spec_erase_level((x, y))
            },
            (save is Some) == ((message == Message::Save || message == Message::PreExit) && old(self).save_to is Some),
            save matches Some(p) ==> old(self).save_to matches Some(q) && p@ == q@,
            message == Message::PreExit ==> final(queue)@ == old(queue)@.push(Message::Exit),
            message != Message::PreExit ==> final(queue)@ == old(queue)@,
    {
        match message {
            Message::Up => {
                self.viewport.translate((0, 1));
                None
            },
            Message::Left => {
                self.viewport.translate((-1, 0));
                None
            },
            Message::Down => {
                self.viewport.translate((0, -1));
                None
            },
            Message::Right => {
                self.viewport.translate((1, 0));
                None
            },
            Message::NextLayer => {
                self.next_layer();
                None
            },
            Message::PrevLayer => {
                self.prev_layer();
                None
            },
            Message::NextTile => {
                self.next_tile();
                None
            },
            Message::PrevTile => {
                self.prev_tile();
                None
            },
            Message::PrevColor => {
                self.prev_color();
                None
            },
            Message::NextColor => {
                self.next_color();
                None
            },
            Message::Save => {
                match &self.save_to {
                    Some(path) => Some(path.clone()),
                    None => None,
                }
            },
            Message::LeftClickAt(x, y) => {
                self.mouse_click((x, y), 1);
                None
            },
            Message::RightClickAt(x, y) => {
                self.mouse_click((x, y), 2);
                None
            },
            Message::MouseMovedTo(x, y) => {
                self.mouse_move((x, y));
                None
            },
            Message::LeftReleasedAt(_, _) => {
                self.button_down = ButtonState::Idle;
                None
            },
            Message::RightReleasedAt(_, _) => {
                self.button_down = ButtonState::Idle;
                None
            },
            Message::PreExit => {
                let request = match &self.save_to {
                    Some(path) => Some(path.clone()),
                    None => None,
                };
                queue.push(Message::Exit);
                request
            },
            Message::Exit => {
                proof {
                    assert(false);
                }
                None
            },
        }
    }
}


/// One draw instruction for the external renderer: a tile-kind name, the
/// view-space rectangle it covers, and the cell's colour/variant tag.
#[derive(Clone, Debug)]
pub struct RenderItem {
    pub tile: String,
    pub rect: Rect,
    pub tag: u32,
}

/// The view of a list of draw instructions.
pub open spec fn item_views(s: Seq<RenderItem>) -> Seq<(Seq<char>, Rect, u32)> {
    s.map_values(|it: RenderItem| (it.tile@, it.rect, it.tag))
}

/// The unit model-space rectangle covering one grid cell.
pub open spec fn cell_rect(p: Point) -> Rect {
    Rect { x: p.0, y: p.1, width: 1, height: 1 }
}

/// The cell's unit rectangle maps into view space within 32 bits: the
/// machine limit a cell must satisfy to be drawn.
pub open spec fn cell_renderable(p: Point, vp: Viewport) -> bool {
    &&& p.0 + 1 <= i32::MAX
    &&& p.1 + 1 <= i32::MAX
    &&& rect_in_range(cell_rect(p), vp.model, vp.view)
}

/// Every cell of every kind in the layer can be drawn.
pub open spec fn layer_renderable(lv: Seq<(Seq<char>, Seq<Point>)>, vp: Viewport) -> bool {
    forall|ki: int, ci: int|
        0 <= ki < lv.len() && 0 <= ci < lv[ki].1.len() ==> cell_renderable(
            #[trigger] lv[ki].1[ci],
            vp,
        )
}

/// The draw instructions for one kind's cells, in cell order: each cell's
/// unit rectangle mapped into view space, tagged with the cell's tag.
pub open spec fn items_of_cells(name: Seq<char>, cells: Seq<Point>, vp: Viewport) -> Seq<
    (Seq<char>, Rect, u32),
>
    decreases cells.len(),
{
    if cells.len() == 0 {
        Seq::empty()
    } else {
        items_of_cells(name, cells.drop_last(), vp).push(
            (name, rect_map(cell_rect(cells.last()), vp.model, vp.view), cells.last().2),
        )
    }
}

/// The draw instructions for a whole layer, kind by kind in layer order.
pub open spec fn items_of_kinds(lv: Seq<(Seq<char>, Seq<Point>)>, vp: Viewport) -> Seq<
    (Seq<char>, Rect, u32),
>
    decreases lv.len(),
{
    if lv.len() == 0 {
        Seq::empty()
    } else {
        items_of_kinds(lv.drop_last(), vp) + items_of_cells(lv.last().0, lv.last().1, vp)
    }
}

/// A kind's draw instructions are its cells', one for one and in order.
pub proof fn lemma_items_of_cells_pointwise(name: Seq<char>, cells: Seq<Point>, vp: Viewport)
    ensures
        items_of_cells(name, cells, vp).len() == cells.len(),
        forall|j: int|
            0 <= j < cells.len() ==> #[trigger] items_of_cells(name, cells, vp)[j] == (
                name,
                rect_map(cell_rect(cells[j]), vp.model, vp.view),
                cells[j].2,
            ),
    decreases cells.len(),
{
    if cells.len() > 0 {
        lemma_items_of_cells_pointwise(name, cells.drop_last(), vp);
        assert forall|j: int|
            0 <= j < cells.len() implies #[trigger] items_of_cells(name, cells, vp)[j] == (
            name,
            rect_map(cell_rect(cells[j]), vp.model, vp.view),
            cells[j].2,
        ) by {
            if j < cells.len() - 1 {
                assert(cells.drop_last()[j] == cells[j]);
            }
        }
    }
}

/// Every draw instruction of a layer is the instruction of one of its
/// painted cells: nothing in the draw list comes from anywhere else.
pub proof fn lemma_items_from_cells(lv: Seq<(Seq<char>, Seq<Point>)>, vp: Viewport)
    ensures
        forall|j: int|
            0 <= j < items_of_kinds(lv, vp).len() ==> (exists|ki: int, ci: int|
                0 <= ki < lv.len() && 0 <= ci < lv[ki].1.len() && #[trigger] items_of_kinds(
                    lv,
                    vp,
                )[j] == (lv[ki].0, rect_map(cell_rect(lv[ki].1[ci]), vp.model, vp.view), lv[ki].1[ci].2)),
    decreases lv.len(),
{
    if lv.len() > 0 {
        let head = lv.drop_last();
        lemma_items_from_cells(head, vp);
        lemma_items_of_cells_pointwise(lv.last().0, lv.last().1, vp);
        let prefix = items_of_kinds(head, vp);
        let tail = items_of_cells(lv.last().0, lv.last().1, vp);
        assert forall|j: int|
            0 <= j < items_of_kinds(lv, vp).len() implies (exists|ki: int, ci: int|
            0 <= ki < lv.len() && 0 <= ci < lv[ki].1.len() && #[trigger] items_of_kinds(lv, vp)[j]
                == (lv[ki].0, rect_map(cell_rect(lv[ki].1[ci]), vp.model, vp.view), lv[ki].1[ci].2)) by {
            if j < prefix.len() {
                assert(items_of_kinds(lv, vp)[j] == prefix[j]);
                let (ki, ci) = choose|ki: int, ci: int|
                    0 <= ki < head.len() && 0 <= ci < head[ki].1.len() && #[trigger] items_of_kinds(
                        head,
                        vp,
                    )[j] == (head[ki].0, rect_map(cell_rect(head[ki].1[ci]), vp.model, vp.view), head[ki].1[ci].2);
                assert(head[ki] == lv[ki]);
                assert(items_of_kinds(lv, vp)[j] == (
                    lv[ki].0,
                    rect_map(cell_rect(lv[ki].1[ci]), vp.model, vp.view),
                    lv[ki].1[ci].2,
                ));
            } else {
                let ci = j - prefix.len();
                let ki = lv.len() - 1;
                assert(items_of_kinds(lv, vp)[j] == tail[ci]);
                assert(lv[ki] == lv.last());
                assert(tail[ci] == (
                    lv[ki].0,
                    rect_map(cell_rect(lv[ki].1[ci]), vp.model, vp.view),
                    lv[ki].1[ci].2,
                ));
            }
        }
    }
}

/// An erased position yields no draw instruction: every instruction of the
/// erased layer arises from one of its surviving cells, and no surviving
/// cell sits at the erased position, whatever was painted before.
pub proof fn lemma_erased_cell_not_drawn(
    lv: Seq<(Seq<char>, Seq<Point>)>,
    x: int,
    y: int,
    vp: Viewport,
)
    ensures
        forall|j: int|
            #![trigger items_of_kinds(view_erase(lv, x, y), vp)[j]]
            0 <= j < items_of_kinds(view_erase(lv, x, y), vp).len() ==> (exists|ki: int, ci: int|
                #![trigger view_erase(lv, x, y)[ki].1[ci]]
                {
                    &&& 0 <= ki < view_erase(lv, x, y).len()
                    &&& 0 <= ci < view_erase(lv, x, y)[ki].1.len()
                    &&& !((view_erase(lv, x, y)[ki].1[ci]).0 == x && view_erase(
                        lv,
                        x,
                        y,
                    )[ki].1[ci].1 == y)
                    &&& items_of_kinds(view_erase(lv, x, y), vp)[j] == (
                        view_erase(lv, x, y)[ki].0,
                        rect_map(cell_rect(view_erase(lv, x, y)[ki].1[ci]), vp.model, vp.view),
                        view_erase(lv, x, y)[ki].1[ci].2,
                    )
                }),
{
    let ev = view_erase(lv, x, y);
    lemma_view_erase_wf(lv, x, y);
    lemma_items_from_cells(ev, vp);
    assert forall|j: int|
        #![trigger items_of_kinds(view_erase(lv, x, y), vp)[j]]
        0 <= j < items_of_kinds(ev, vp).len() implies (exists|ki: int, ci: int|
        #![trigger view_erase(lv, x, y)[ki].1[ci]]
        {
            &&& 0 <= ki < view_erase(lv, x, y).len()
            &&& 0 <= ci < view_erase(lv, x, y)[ki].1.len()
            &&& !((view_erase(lv, x, y)[ki].1[ci]).0 == x && view_erase(lv, x, y)[ki].1[ci].1
                == y)
            &&& items_of_kinds(view_erase(lv, x, y), vp)[j] == (
                view_erase(lv, x, y)[ki].0,
                rect_map(cell_rect(view_erase(lv, x, y)[ki].1[ci]), vp.model, vp.view),
                view_erase(lv, x, y)[ki].1[ci].2,
            )
        }) by {
        let (ki, ci) = choose|ki: int, ci: int|
            0 <= ki < ev.len() && 0 <= ci < ev[ki].1.len() && #[trigger] items_of_kinds(ev, vp)[j]
                == (ev[ki].0, rect_map(cell_rect(ev[ki].1[ci]), vp.model, vp.view), ev[ki].1[ci].2);
        assert(!has_pos(ev[ki].1, x, y));
        assert(!((ev[ki].1[ci]).0 == x && ev[ki].1[ci].1 == y)) by {
            if (ev[ki].1[ci]).0 == x && ev[ki].1[ci].1 == y {
                assert(has_pos(ev[ki].1, x, y));
            }
        }
    }
}


impl Editor {
    /// Every painted cell of the level can be drawn under the current
    /// viewport.
    pub open spec fn renderable(self) -> bool {
        forall|i: int|
            0 <= i < self.level.layers_view().len() ==> layer_renderable(
                (#[trigger] self.level.layers_view()[i]).1,
                self.viewport,
            )
    }

    /// The draw instructions for the layers up to and including the
    /// current one, in schema layer order: a layer name the level has no
    /// content for contributes nothing.
    pub open spec fn items_of_layers(self, upto: int) -> Seq<(Seq<char>, Rect, u32)>
        decreases upto,
    {
        if upto <= 0 {
            Seq::empty()
        } else {
            let prev = self.items_of_layers(upto - 1);
            let name = self.layers@[upto - 1]@;
            let v = self.level.layers_view();
            if level_has_name(v, name) {
                prev + items_of_kinds(v[level_index_of(v, name)].1, self.viewport)
            } else {
                prev
            }
        }
    }

    /// Computes the render-ready draw list: for every layer up to and
    /// including the current one, every painted cell's view-space
    /// rectangle with its tile kind and tag, deterministically ordered by
    /// layer, then kind, then cell position.  The engine computes
    /// rectangles only; drawing belongs to the renderer outside.
    pub fn render(&self) -> (items: Vec<RenderItem>)
        requires
            self.wf(),
            self.renderable(),
        ensures
            item_views(items@) == self.items_of_layers(self.current_layer + 1),
    {
        let mut items: Vec<RenderItem> = Vec::new();
        // reading the length brings the fact that it fits in usize, so the
        // index increment below cannot overflow
        let nlayers = self.layers.len();
        proof {
            assert(self.current_layer < nlayers);
        }
        let upto = self.current_layer + 1;
        let mut li: usize = 0;
        while li < upto
            invariant
                li <= upto,
                self.wf(),
                self.renderable(),
                upto == self.current_layer + 1,
                item_views(items@) == self.items_of_layers(li as int),
            decreases upto - li,
        {
            let name = self.layers[li].clone();
            let ghost v = self.level.layers_view();
            match find_layer(&self.level, &name) {
                Some(idx) => {
                    proof {
                        assert(v[idx as int].0 == name@);
                        assert(level_has_name(v, name@));
                        assert(level_index_of(v, name@) == idx as int) by {
                            let i2 = level_index_of(v, name@);
                            assert(0 <= i2 < v.len() && v[i2].0 == name@);
                            if i2 != idx as int {
                                assert(grid_view_wf(v));
                            }
                        }
                    }
                    self.layer_items(idx, &mut items);
                },
                None => {
                    proof {
                        if level_has_name(v, name@) {
                            let k = choose|k: int| 0 <= k < v.len() && (#[trigger] v[k]).0
                                == name@;
                            assert(self.level.layers@[k].0@ == name@);
                            assert(false);
                        }
                    }
                },
            }
            li = li + 1;
        }
        items
    }

    /// Appends one level layer's draw instructions to `out`.
    fn layer_items(&self, idx: usize, out: &mut Vec<RenderItem>)
        requires
            self.wf(),
            self.renderable(),
            idx < self.level.layers@.len(),
        ensures
            item_views(final(out)@) == item_views(old(out)@) + items_of_kinds(
                self.level.layers_view()[idx as int].1,
                self.viewport,
            ),
    {
        let ghost lv = self.level.layers_view()[idx as int].1;
        let nk = self.level.layers[idx].1.kinds.len();
        let mut ki: usize = 0;
        while ki < nk
            invariant
                ki <= nk,
                self.wf(),
                self.renderable(),
                idx < self.level.layers@.len(),
                lv == self.level.layers_view()[idx as int].1,
                nk == lv.len(),
                item_views(out@) == item_views(old(out)@) + items_of_kinds(
                    lv.take(ki as int),
                    self.viewport,
                ),
            decreases nk - ki,
        {
            let nc = self.level.layers[idx].1.kinds[ki].1.len();
            let ghost cells = lv[ki as int].1;
            let ghost kname = lv[ki as int].0;
            let mut ci: usize = 0;
            while ci < nc
                invariant
                    ci <= nc,
                    ki < nk,
                    self.wf(),
                    self.renderable(),
                    idx < self.level.layers@.len(),
                    lv == self.level.layers_view()[idx as int].1,
                    nk == lv.len(),
                    cells == lv[ki as int].1,
                    kname == lv[ki as int].0,
                    nc == cells.len(),
                    item_views(out@) == item_views(old(out)@) + items_of_kinds(
                        lv.take(ki as int),
                        self.viewport,
                    ) + items_of_cells(kname, cells.take(ci as int), self.viewport),
                decreases nc - ci,
            {
                let p = self.level.layers[idx].1.kinds[ki].1[ci];
                proof {
                    assert(p == cells[ci as int]);
                    assert(cell_renderable(p, self.viewport));
                }
                let view_rect = self.viewport.model_to_view_rect(Rect::new(p.0, p.1, 1, 1));
                let tile = self.level.layers[idx].1.kinds[ki].0.clone();
                let ghost pre_items = out@;
                out.push(RenderItem { tile, rect: view_rect, tag: p.2 });
                proof {
                    let t = cells.take(ci as int + 1);
                    assert(t.drop_last() =~= cells.take(ci as int));
                    assert(t.last() == cells[ci as int]);
                    let item = (
                        kname,
                        rect_map(cell_rect(p), self.viewport.model, self.viewport.view),
                        p.2,
                    );
                    assert(kname == self.level.layers@[idx as int].1.kinds@[ki as int].0@);
                    assert(tile@ == kname);
                    assert(view_rect == rect_map(
                        cell_rect(p),
                        self.viewport.model,
                        self.viewport.view,
                    ));
                    assert(items_of_cells(kname, t, self.viewport) == items_of_cells(
                        kname,
                        cells.take(ci as int),
                        self.viewport,
                    ).push(item));
                    assert(item_views(out@) =~= item_views(pre_items).push(item));
                    assert(item_views(pre_items).push(item) =~= item_views(old(out)@)
                        + items_of_kinds(lv.take(ki as int), self.viewport) + items_of_cells(
                        kname,
                        cells.take(ci as int),
                        self.viewport,
                    ).push(item));
                    assert(item_views(out@) == item_views(old(out)@) + items_of_kinds(
                        lv.take(ki as int),
                        self.viewport,
                    ) + items_of_cells(kname, t, self.viewport));
                }
                ci = ci + 1;
            }
            proof {
                let t = lv.take(ki as int + 1);
                assert(t.drop_last() =~= lv.take(ki as int));
                assert(t.last() == lv[ki as int]);
                assert(cells.take(nc as int) =~= cells);
                assert(items_of_kinds(t, self.viewport) == items_of_kinds(
                    lv.take(ki as int),
                    self.viewport,
                ) + items_of_cells(kname, cells, self.viewport));
                assert(item_views(old(out)@) + items_of_kinds(t, self.viewport) =~= item_views(
                    old(out)@,
                ) + items_of_kinds(lv.take(ki as int), self.viewport) + items_of_cells(
                    kname,
                    cells,
                    self.viewport,
                ));
            }
            ki = ki + 1;
        }
        proof {
            assert(lv.take(nk as int) =~= lv);
        }
    }
}

} // verus!
