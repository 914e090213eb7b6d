use tile_editor::viewport::{convert, convert_rect, Rect, Viewport};

fn standard_viewport() -> Viewport {
    Viewport { model: (0, 0, 20, 15), view: (0, 600, 800, 0) }
}

#[test]
fn view_to_model_floor_with_y_flip() {
    let vp = standard_viewport();
    // 40 px into an 800 px wide view over 20 columns: column 1.
    // 580 px with the view's Y running downward: row 0 in model space.
    assert_eq!(vp.view_to_model((40, 580)), (1, 0));
    assert_eq!(vp.view_to_model((80, 580)), (2, 0));
    assert_eq!(vp.view_to_model((120, 580)), (3, 0));
    assert_eq!(vp.view_to_model((0, 600)), (0, 0));
    assert_eq!(vp.view_to_model((799, 1)), (19, 14));
}

#[test]
fn model_to_view_maps_cell_origin() {
    let vp = standard_viewport();
    assert_eq!(vp.model_to_view((0, 0)), (0, 600));
    assert_eq!(vp.model_to_view((1, 0)), (40, 600));
    assert_eq!(vp.model_to_view((0, 1)), (0, 560));
    assert_eq!(vp.model_to_view((20, 15)), (800, 0));
}

#[test]
fn conversion_rounds_toward_negative_infinity() {
    // A span ratio of 1/2 exposes the rounding direction: -1 must go to
    // -1, not to 0 as truncation would.
    let from = (0, 0, 4, 4);
    let to = (0, 0, 2, 2);
    assert_eq!(convert((-1, -1), from, to), (-1, -1));
    assert_eq!(convert((1, 1), from, to), (0, 0));
    assert_eq!(convert((-3, 3), from, to), (-2, 1));
}

#[test]
fn round_trip_is_identity_when_spans_divide() {
    let vp = standard_viewport();
    for &pt in &[(0, 0), (5, 7), (19, 14), (-3, -2), (100, -50)] {
        let v = vp.model_to_view(pt);
        assert_eq!(vp.view_to_model(v), pt);
    }
}

#[test]
fn rect_conversion_normalises_across_y_flip() {
    let vp = standard_viewport();
    // one model cell at the origin; Y flips, so the corners swap on that
    // axis and the result must still have non-negative extents.
    let r = vp.model_to_view_rect(Rect::new(0, 0, 1, 1));
    assert_eq!((r.x, r.y, r.width, r.height), (0, 560, 40, 40));
    let r2 = vp.model_to_view_rect(Rect::new(1, 0, 1, 1));
    assert_eq!((r2.x, r2.y, r2.width, r2.height), (40, 560, 40, 40));
}

#[test]
fn rect_conversion_matches_corner_conversion() {
    let from = (0, 0, 10, 10);
    let to = (0, 0, 100, 100);
    let r = convert_rect(Rect::new(2, 3, 4, 5), from, to);
    assert_eq!((r.x, r.y, r.width, r.height), (20, 30, 40, 50));
}

#[test]
fn translate_pans_model_only() {
    let mut vp = standard_viewport();
    vp.translate((3, -2));
    assert_eq!(vp.model, (3, -2, 23, 13));
    assert_eq!(vp.view, (0, 600, 800, 0));
    vp.translate((-3, 2));
    assert_eq!(vp.model, (0, 0, 20, 15));
}
