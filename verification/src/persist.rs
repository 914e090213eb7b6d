//! Loading and saving a level as a document.
//!
//! The document is the plain structure that goes to and comes from disk:
//! the same shape as a `Level`, but with nothing assumed about its content.
//! Saving copies the level out; loading validates a document against the
//! active schema and hands back a well-formed level.  A document that is
//! already well-formed is taken over exactly as it stands; one with
//! duplicate or unordered cells (a hand-edited file) is rebuilt
//! deterministically by re-painting its cells in document order, so later
//! entries win a contested position.

use vstd::prelude::*;

use crate::level::{
    ensure_kind, find_layer, grid_view_wf, has_kind, has_pos, insert_tile, layer_wf,
    all_cells_sorted, cells_sorted, lemma_view_paint_wf, level_ensure_layer, level_has_name,
    level_index_of, names_unique, positions_disjoint, pos_lt, view_ensure_kind, view_paint,
    Layer, Level, Point,
};
use crate::schema::Schema;

verus! {

/// Why a document was rejected at load time.
#[derive(Clone, Copy, Debug, PartialEq, Eq, Structural)]
pub enum LoadError {
    /// The document's schema identifier is not the active schema's name.
    SchemaMismatch,
    /// The document uses a layer name the schema does not know.
    UnknownLayer,
}

/// A level as it is persisted: a name, a schema identifier, and layers of
/// tile kinds with their cells.  Nothing is assumed about its content; a
/// hand-edited file may hold anything.
#[derive(Debug)]
pub struct Doc {
    pub name: String,
    pub schema: String,
    pub layers: Vec<(String, Layer)>,
}

impl Doc {
    /// The document's layers as a sequence of (name, kinds) pairs.
    pub open spec fn layers_view(self) -> Seq<(Seq<char>, Seq<(Seq<char>, Seq<Point>)>)> {
        self.layers@.map_values(|e: (String, Layer)| (e.0@, e.1.view_kinds()))
    }

    /// The document already satisfies the grid invariant as it stands.
    pub open spec fn wf(self) -> bool {
        grid_view_wf(self.layers_view())
    }
}

/// The schema knows a layer of this name.
pub open spec fn known_layer(schema: Schema, name: Seq<char>) -> bool {
    exists|k: int| 0 <= k < schema.layers@.len() && (#[trigger] schema.layers@[k])@ == name
}

/// Every layer name of the document is known to the schema.
pub open spec fn layers_known(doc: Doc, schema: Schema) -> bool {
    forall|i: int|
        0 <= i < doc.layers@.len() ==> known_layer(schema, (#[trigger] doc.layers@[i]).0@)
}

/// The document is accepted by `Level::load` against this schema.
pub open spec fn load_accepts(doc: Doc, schema: Schema) -> bool {
    doc.schema@ == schema.name@ && layers_known(doc, schema)
}

/// Two cells in strictly ascending adjacent order chain into a strict
/// order between any two indices.
proof fn lemma_pos_lt_chain(s: Seq<Point>, j1: int, j2: int)
    requires
        forall|k: int| 0 <= k < s.len() - 1 ==> pos_lt(#[trigger] s[k], s[k + 1]),
        0 <= j1 < j2 < s.len(),
    ensures
        pos_lt(s[j1], s[j2]),
    decreases j2 - j1,
{
    if j2 == j1 + 1 {
        assert(pos_lt(s[j1], s[j1 + 1]));
    } else {
        lemma_pos_lt_chain(s, j1, j2 - 1);
        assert(pos_lt(s[j2 - 1], s[j2]));
    }
}

/// Decides whether a cell list is strictly sorted by (column, row).
fn check_cells_sorted(cells: &Vec<Point>) -> (r: bool)
    ensures
        r == cells_sorted(cells@),
{
    let n = cells.len();
    if n == 0 {
        return true;
    }
    let mut j: usize = 0;
    while j < n - 1
        invariant
            n == cells@.len(),
            n >= 1,
            j <= n - 1,
            forall|k: int| 0 <= k < j ==> pos_lt(#[trigger] cells@[k], cells@[k + 1]),
        decreases n - j,
    {
        let p = cells[j];
        let q = cells[j + 1];
        if !(p.0 < q.0 || (p.0 == q.0 && p.1 < q.1)) {
            proof {
                assert(!pos_lt(cells@[j as int], cells@[j as int + 1]));
            }
            return false;
        }
        j = j + 1;
    }
    proof {
        assert forall|j1: int, j2: int|
            #![trigger cells@[j1], cells@[j2]]
            0 <= j1 < j2 < cells@.len() implies pos_lt(cells@[j1], cells@[j2]) by {
            lemma_pos_lt_chain(cells@, j1, j2);
        }
    }
    true
}

/// Decides whether some cell of the list sits at position (x, y).
fn cells_have_pos(cells: &Vec<Point>, x: i32, y: i32) -> (r: bool)
    ensures
        r == has_pos(cells@, x as int, y as int),
{
    let n = cells.len();
    let mut j: usize = 0;
    while j < n
        invariant
            j <= n,
            n == cells@.len(),
            forall|k: int|
                0 <= k < j ==> !((#[trigger] cells@[k]).0 == x as int && cells@[k].1 == y as int),
        decreases n - j,
    {
        let p = cells[j];
        if p.0 == x && p.1 == y {
            return true;
        }
        j = j + 1;
    }
    false
}

/// Decides whether a layer satisfies the layer invariant: distinct kind
/// names, sorted cell lists, one occupant per position.
fn check_layer_wf(layer: &Layer) -> (r: bool)
    ensures
        r == layer_wf(layer.view_kinds()),
{
    let n = layer.kinds.len();
    // distinct kind names
    let mut i: usize = 0;
    while i < n
        invariant
            i <= n,
            n == layer.kinds@.len(),
            forall|i1: int, i2: int|
                #![trigger layer.kinds@[i1], layer.kinds@[i2]]
                0 <= i1 < i2 < i ==> layer.kinds@[i1].0@ != layer.kinds@[i2].0@,
        decreases n - i,
    {
        let mut k: usize = 0;
        while k < i
            invariant
                k <= i < n,
                n == layer.kinds@.len(),
                forall|k1: int|
                    0 <= k1 < k ==> (#[trigger] layer.kinds@[k1]).0@ != layer.kinds@[i as int].0@,
            decreases i - k,
        {
            if layer.kinds[k].0 == layer.kinds[i].0 {
                proof {
                    assert(layer.kinds@[k as int].0@ == layer.kinds@[i as int].0@);
                    assert(layer.view_kinds()[k as int] == (layer.kinds@[k as int].0@, layer.kinds@[k as int].1@));
                    assert(layer.view_kinds()[i as int] == (layer.kinds@[i as int].0@, layer.kinds@[i as int].1@));
                    assert(!names_unique(layer.view_kinds()));
                }
                return false;
            }
            k = k + 1;
        }
        i = i + 1;
    }
    // sorted cell lists
    let mut i2: usize = 0;
    while i2 < n
        invariant
            i2 <= n,
            n == layer.kinds@.len(),
            forall|k: int| 0 <= k < i2 ==> cells_sorted((#[trigger] layer.kinds@[k]).1@),
        decreases n - i2,
    {
        if !check_cells_sorted(&layer.kinds[i2].1) {
            proof {
                assert(!cells_sorted(layer.view_kinds()[i2 as int].1));
            }
            return false;
        }
        i2 = i2 + 1;
    }
    // one occupant per position: no cell of any kind recurs in another kind
    let mut i3: usize = 0;
    while i3 < n
        invariant
            i3 <= n,
            n == layer.kinds@.len(),
            forall|a: int, j: int, b: int|
                0 <= a < i3 && 0 <= j < layer.kinds@[a].1@.len() && 0 <= b < n && b != a
                    ==> !(#[trigger] has_pos(
                    layer.kinds@[b].1@,
                    (layer.kinds@[a].1@[j]).0 as int,
                    layer.kinds@[a].1@[j].1 as int,
                )),
        decreases n - i3,
    {
        let m = layer.kinds[i3].1.len();
        let mut j: usize = 0;
        while j < m
            invariant
                j <= m,
                i3 < n,
                n == layer.kinds@.len(),
                m == layer.kinds@[i3 as int].1@.len(),
                forall|jj: int, b: int|
                    0 <= jj < j && 0 <= b < n && b != i3 as int ==> !(#[trigger] has_pos(
                        layer.kinds@[b].1@,
                        (layer.kinds@[i3 as int].1@[jj]).0 as int,
                        layer.kinds@[i3 as int].1@[jj].1 as int,
                    )),
            decreases m - j,
        {
            let p = layer.kinds[i3].1[j];
            let mut b: usize = 0;
            while b < n
                invariant
                    b <= n,
                    i3 < n,
                    j < m,
                    n == layer.kinds@.len(),
                    m == layer.kinds@[i3 as int].1@.len(),
                    p == layer.kinds@[i3 as int].1@[j as int],
                    forall|bb: int|
                        0 <= bb < b && bb != i3 as int ==> !has_pos(
                            (#[trigger] layer.kinds@[bb]).1@,
                            p.0 as int,
                            p.1 as int,
                        ),
                decreases n - b,
            {
                if b != i3 {
                    if cells_have_pos(&layer.kinds[b].1, p.0, p.1) {
                        proof {
                            assert(has_pos(layer.view_kinds()[i3 as int].1, p.0 as int, p.1 as int));
                            assert(has_pos(layer.view_kinds()[b as int].1, p.0 as int, p.1 as int));
                            assert(!positions_disjoint(layer.view_kinds()));
                        }
                        return false;
                    }
                }
                b = b + 1;
            }
            j = j + 1;
        }
        i3 = i3 + 1;
    }
    proof {
        let lv = layer.view_kinds();
        assert(names_unique(lv));
        assert(all_cells_sorted(lv)) by {
            assert forall|k: int| 0 <= k < lv.len() implies cells_sorted((#[trigger] lv[k]).1) by {
                assert(lv[k].1 == layer.kinds@[k].1@);
            }
        }
        assert(positions_disjoint(lv)) by {
            assert forall|x: int, y: int, a: int, b: int|
                0 <= a < lv.len() && 0 <= b < lv.len() && #[trigger] has_pos(lv[a].1, x, y)
                    && #[trigger] has_pos(lv[b].1, x, y) implies a == b by {
                if a != b {
                    let j = choose|j: int|
                        0 <= j < lv[a].1.len() && (#[trigger] lv[a].1[j]).0 == x && lv[a].1[j].1
                            == y;
                    assert(!has_pos(
                        layer.kinds@[b].1@,
                        (layer.kinds@[a].1@[j]).0 as int,
                        layer.kinds@[a].1@[j].1 as int,
                    ));
                }
            }
        }
    }
    true
}

/// Some layer in the document carries this name.
pub open spec fn doc_has_layer(doc: Doc, name: Seq<char>) -> bool {
    exists|i: int| 0 <= i < doc.layers@.len() && (#[trigger] doc.layers@[i]).0@ == name
}

/// Some entry of the list carries this name.
spec fn entries_have_name(entries: Seq<(String, Layer)>, name: Seq<char>) -> bool {
    exists|i: int| 0 <= i < entries.len() && (#[trigger] entries[i]).0@ == name
}

/// Decides whether the document satisfies the grid invariant as it stands.
fn check_doc_wf(doc: &Doc) -> (r: bool)
    ensures
        r == doc.wf(),
{
    let n = doc.layers.len();
    let mut i: usize = 0;
    while i < n
        invariant
            i <= n,
            n == doc.layers@.len(),
            forall|i1: int, i2: int|
                #![trigger doc.layers@[i1], doc.layers@[i2]]
                0 <= i1 < i2 < i ==> doc.layers@[i1].0@ != doc.layers@[i2].0@,
            forall|k: int| 0 <= k < i ==> layer_wf((#[trigger] doc.layers@[k]).1.view_kinds()),
        decreases n - i,
    {
        let mut k: usize = 0;
        while k < i
            invariant
                k <= i < n,
                n == doc.layers@.len(),
                forall|k1: int|
                    0 <= k1 < k ==> (#[trigger] doc.layers@[k1]).0@ != doc.layers@[i as int].0@,
            decreases i - k,
        {
            if doc.layers[k].0 == doc.layers[i].0 {
                proof {
                    let dv = doc.layers_view();
                    assert(dv[k as int].0 == dv[i as int].0);
                }
                return false;
            }
            k = k + 1;
        }
        if !check_layer_wf(&doc.layers[i].1) {
            proof {
                let dv = doc.layers_view();
                assert(!layer_wf(dv[i as int].1));
            }
            return false;
        }
        i = i + 1;
    }
    proof {
        let dv = doc.layers_view();
        assert forall|i1: int, i2: int|
            #![trigger dv[i1], dv[i2]]
            0 <= i1 < i2 < dv.len() implies dv[i1].0 != dv[i2].0 by {
            assert(dv[i1].0 == doc.layers@[i1].0@ && dv[i2].0 == doc.layers@[i2].0@);
        }
        assert forall|k: int| 0 <= k < dv.len() implies layer_wf((#[trigger] dv[k]).1) by {
            assert(dv[k].1 == doc.layers@[k].1.view_kinds());
        }
    }
    true
}

/// Copies a cell list.
fn copy_cells(cells: &Vec<Point>) -> (out: Vec<Point>)
    ensures
        out@ == cells@,
{
    let n = cells.len();
    let mut out: Vec<Point> = Vec::new();
    let mut j: usize = 0;
    while j < n
        invariant
            j <= n,
            n == cells@.len(),
            out@ =~= cells@.take(j as int),
        decreases n - j,
    {
        out.push(cells[j]);
        j = j + 1;
    }
    proof {
        assert(cells@.take(n as int) =~= cells@);
    }
    out
}

/// Copies a layer, content for content.
fn copy_layer(layer: &Layer) -> (out: Layer)
    ensures
        out.view_kinds() == layer.view_kinds(),
{
    let n = layer.kinds.len();
    let mut kinds: Vec<(String, Vec<Point>)> = Vec::new();
    let mut i: usize = 0;
    while i < n
        invariant
            i <= n,
            n == layer.kinds@.len(),
            kinds@.len() == i,
            forall|k: int|
                0 <= k < i ==> (#[trigger] kinds@[k]).0@ == layer.kinds@[k].0@ && kinds@[k].1@
                    == layer.kinds@[k].1@,
        decreases n - i,
    {
        let name = layer.kinds[i].0.clone();
        let cells = copy_cells(&layer.kinds[i].1);
        kinds.push((name, cells));
        i = i + 1;
    }
    let out = Layer { kinds };
    proof {
        assert(out.view_kinds() =~= layer.view_kinds());
    }
    out
}

/// Copies a list of named layers.
fn copy_named_layers(layers: &Vec<(String, Layer)>) -> (out: Vec<(String, Layer)>)
    ensures
        out@.len() == layers@.len(),
        forall|k: int|
            0 <= k < layers@.len() ==> (#[trigger] out@[k]).0@ == layers@[k].0@
                && out@[k].1.view_kinds() == layers@[k].1.view_kinds(),
{
    let n = layers.len();
    let mut out: Vec<(String, Layer)> = Vec::new();
    let mut i: usize = 0;
    while i < n
        invariant
            i <= n,
            n == layers@.len(),
            out@.len() == i,
            forall|k: int|
                0 <= k < i ==> (#[trigger] out@[k]).0@ == layers@[k].0@ && out@[k].1.view_kinds()
                    == layers@[k].1.view_kinds(),
        decreases n - i,
    {
        let name = layers[i].0.clone();
        let layer = copy_layer(&layers[i].1);
        out.push((name, layer));
        i = i + 1;
    }
    out
}

/// Decides whether some string of the list reads `name`.
fn contains_name(names: &Vec<String>, name: &String) -> (r: bool)
    ensures
        r == exists|k: int| 0 <= k < names@.len() && (#[trigger] names@[k])@ == name@,
{
    let n = names.len();
    let mut i: usize = 0;
    while i < n
        invariant
            i <= n,
            n == names@.len(),
            forall|k: int| 0 <= k < i ==> (#[trigger] names@[k])@ != name@,
        decreases n - i,
    {
        if names[i] == *name {
            return true;
        }
        i = i + 1;
    }
    false
}

/// The layer view after painting every cell of the list, in list order,
/// with the given kind: a later cell wins any position an earlier one (or
/// any other kind) held.
pub open spec fn paint_cells(
    lv: Seq<(Seq<char>, Seq<Point>)>,
    tile: Seq<char>,
    cells: Seq<Point>,
) -> Seq<(Seq<char>, Seq<Point>)>
    decreases cells.len(),
{
    if cells.len() == 0 {
        lv
    } else {
        view_paint(paint_cells(lv, tile, cells.drop_last()), tile, cells.last())
    }
}

/// One document kind replayed into a layer: the kind is made present (even
/// when its cell list is empty) and its cells painted in document order.
pub open spec fn replay_kind(
    lv: Seq<(Seq<char>, Seq<Point>)>,
    tile: Seq<char>,
    cells: Seq<Point>,
) -> Seq<(Seq<char>, Seq<Point>)> {
    paint_cells(view_ensure_kind(lv, tile), tile, cells)
}

/// A document layer's kinds replayed left to right.
pub open spec fn replay_kinds(
    lv: Seq<(Seq<char>, Seq<Point>)>,
    kinds: Seq<(Seq<char>, Seq<Point>)>,
) -> Seq<(Seq<char>, Seq<Point>)>
    decreases kinds.len(),
{
    if kinds.len() == 0 {
        lv
    } else {
        replay_kind(replay_kinds(lv, kinds.drop_last()), kinds.last().0, kinds.last().1)
    }
}

/// One document layer replayed into a level: the layer is made present
/// (merging into an earlier entry of the same name) and its kinds replayed
/// into it.
pub open spec fn replay_layer(
    v: Seq<(Seq<char>, Seq<(Seq<char>, Seq<Point>)>)>,
    name: Seq<char>,
    kinds: Seq<(Seq<char>, Seq<Point>)>,
) -> Seq<(Seq<char>, Seq<(Seq<char>, Seq<Point>)>)> {
    let v1 = level_ensure_layer(v, name);
    let i = level_index_of(v1, name);
    v1.update(i, (name, replay_kinds(v1[i].1, kinds)))
}

/// A document's layers replayed left to right.
pub open spec fn replay_layers(
    v: Seq<(Seq<char>, Seq<(Seq<char>, Seq<Point>)>)>,
    dlayers: Seq<(Seq<char>, Seq<(Seq<char>, Seq<Point>)>)>,
) -> Seq<(Seq<char>, Seq<(Seq<char>, Seq<Point>)>)>
    decreases dlayers.len(),
{
    if dlayers.len() == 0 {
        v
    } else {
        replay_layer(replay_layers(v, dlayers.drop_last()), dlayers.last().0, dlayers.last().1)
    }
}

/// The deterministic repair of a malformed document: its whole content
/// replayed into an empty level through the paint operation, in document
/// order, so a later entry wins a contested position.
pub open spec fn replay_doc(doc: Doc) -> Seq<(Seq<char>, Seq<(Seq<char>, Seq<Point>)>)> {
    replay_layers(Seq::empty(), doc.layers_view())
}

/// Replays a source layer's kinds and cells into `dst` through the paint
/// operation: every kind of the source ends up present (even an empty
/// one), and each source cell is painted in document order, so a later
/// entry wins a contested position.
fn merge_layer(dst: &mut Layer, src: &Layer)
    requires
        layer_wf(old(dst).view_kinds()),
    ensures
        layer_wf(final(dst).view_kinds()),
        final(dst).view_kinds() == replay_kinds(old(dst).view_kinds(), src.view_kinds()),
        forall|nm: Seq<char>|
            has_kind(final(dst).view_kinds(), nm) <==> has_kind(old(dst).view_kinds(), nm)
                || has_kind(src.view_kinds(), nm),
{
    let n = src.kinds.len();
    let mut i: usize = 0;
    while i < n
        invariant
            i <= n,
            n == src.kinds@.len(),
            layer_wf(dst.view_kinds()),
            dst.view_kinds() == replay_kinds(
                old(dst).view_kinds(),
                src.view_kinds().take(i as int),
            ),
            forall|nm: Seq<char>|
                has_kind(dst.view_kinds(), nm) <==> has_kind(old(dst).view_kinds(), nm) || (
                exists|k: int| 0 <= k < i && (#[trigger] src.kinds@[k]).0@ == nm),
        decreases n - i,
    {
        let tile = src.kinds[i].0.clone();
        let ghost pre = dst.view_kinds();
        ensure_kind(dst, &tile);
        proof {
            assert forall|nm: Seq<char>|
                has_kind(dst.view_kinds(), nm) <==> has_kind(old(dst).view_kinds(), nm) || (
            exists|k: int| 0 <= k <= i && (#[trigger] src.kinds@[k]).0@ == nm) by {
                if has_kind(dst.view_kinds(), nm) {
                    if nm == tile@ {
                        assert(src.kinds@[i as int].0@ == nm);
                    } else {
                        assert(has_kind(pre, nm));
                    }
                }
                if exists|k: int| 0 <= k <= i && (#[trigger] src.kinds@[k]).0@ == nm {
                    let k = choose|k: int| 0 <= k <= i && (#[trigger] src.kinds@[k]).0@ == nm;
                    if k < i {
                        assert(has_kind(pre, nm));
                    } else {
                        assert(nm == tile@);
                    }
                    assert(has_kind(dst.view_kinds(), nm));
                }
            }
        }
        let ghost cells = src.view_kinds()[i as int].1;
        proof {
            assert(cells == src.kinds@[i as int].1@);
            assert(dst.view_kinds() == paint_cells(
                view_ensure_kind(pre, tile@),
                tile@,
                cells.take(0),
            )) by {
                assert(cells.take(0) =~= Seq::<Point>::empty());
            }
        }
        let m = src.kinds[i].1.len();
        let mut j: usize = 0;
        while j < m
            invariant
                j <= m,
                i < n,
                n == src.kinds@.len(),
                m == src.kinds@[i as int].1@.len(),
                tile@ == src.kinds@[i as int].0@,
                cells == src.kinds@[i as int].1@,
                pre == replay_kinds(old(dst).view_kinds(), src.view_kinds().take(i as int)),
                dst.view_kinds() == paint_cells(
                    view_ensure_kind(pre, tile@),
                    tile@,
                    cells.take(j as int),
                ),
                layer_wf(dst.view_kinds()),
                has_kind(dst.view_kinds(), tile@),
                forall|nm: Seq<char>|
                    has_kind(dst.view_kinds(), nm) <==> has_kind(old(dst).view_kinds(), nm) || (
                    exists|k: int| 0 <= k <= i && (#[trigger] src.kinds@[k]).0@ == nm),
            decreases m - j,
        {
            let p = src.kinds[i].1[j];
            let ghost before = dst.view_kinds();
            insert_tile(dst, tile.as_str(), (p.0, p.1), p.2);
            proof {
                let t = cells.take(j as int + 1);
                assert(t.drop_last() =~= cells.take(j as int));
                assert(t.last() == cells[j as int]);
                assert(Point(p.0, p.1, p.2) == cells[j as int]);
                assert(dst.view_kinds() == paint_cells(view_ensure_kind(pre, tile@), tile@, t));
                lemma_view_paint_wf(before, tile@, Point(p.0, p.1, p.2));
                assert forall|nm: Seq<char>|
                    has_kind(dst.view_kinds(), nm) <==> has_kind(old(dst).view_kinds(), nm) || (
                exists|k: int| 0 <= k <= i && (#[trigger] src.kinds@[k]).0@ == nm) by {
                    assert(has_kind(dst.view_kinds(), nm) ==> has_kind(before, nm) || nm == tile@);
                    assert(has_kind(before, nm) ==> has_kind(dst.view_kinds(), nm));
                    assert(has_kind(before, nm) <==> has_kind(old(dst).view_kinds(), nm) || (
                    exists|k: int| 0 <= k <= i && (#[trigger] src.kinds@[k]).0@ == nm));
                    if nm == tile@ {
                        assert(has_kind(before, nm));
                    }
                }
            }
            j = j + 1;
        }
        proof {
            let kv = src.view_kinds();
            let t = kv.take(i as int + 1);
            assert(t.drop_last() =~= kv.take(i as int));
            assert(t.last() == kv[i as int]);
            assert(kv[i as int].0 == tile@ && kv[i as int].1 == cells);
            assert(cells.take(m as int) =~= cells);
            assert(dst.view_kinds() == replay_kind(pre, tile@, cells));
            assert(dst.view_kinds() == replay_kinds(old(dst).view_kinds(), t));
        }
        i = i + 1;
    }
    proof {
        assert(src.view_kinds().take(n as int) =~= src.view_kinds());
        assert forall|nm: Seq<char>| (exists|k: int|
            0 <= k < n && (#[trigger] src.kinds@[k]).0@ == nm) <==> has_kind(
            src.view_kinds(),
            nm,
        ) by {
            if exists|k: int| 0 <= k < n && (#[trigger] src.kinds@[k]).0@ == nm {
                let k = choose|k: int| 0 <= k < n && (#[trigger] src.kinds@[k]).0@ == nm;
                assert(src.view_kinds()[k].0 == nm);
            }
            if has_kind(src.view_kinds(), nm) {
                let k = choose|k: int|
                    0 <= k < src.view_kinds().len() && (#[trigger] src.view_kinds()[k]).0 == nm;
                assert(src.kinds@[k].0@ == nm);
            }
        }
    }
}

impl Level {
    /// Serialises the level into its document form: the same name, schema
    /// identifier and layer content, copied out for the persistence layer
    /// to write.
    pub fn save(&self) -> (d: Doc)
        ensures
            d.name@ == self.name@,
            d.schema@ == self.schema@,
            d.layers_view() == self.layers_view(),
    {
        let d = Doc {
            name: self.name.clone(),
            schema: self.schema.clone(),
            layers: copy_named_layers(&self.layers),
        };
        proof {
            assert(d.layers_view() =~= self.layers_view());
        }
        d
    }

    /// Validates a document against the active schema and builds the
    /// level it describes.
    ///
    /// A document whose schema identifier differs from the schema's name,
    /// or which uses a layer name the schema does not know, is rejected;
    /// both were fatal startup errors for the editor.  A well-formed
    /// document is taken over exactly as it stands.  A malformed one (a
    /// hand-edited file with duplicate names, unordered cells or a
    /// position under two kinds) is rebuilt deterministically by replaying
    /// its content through the paint operation in document order, so later
    /// entries win a contested position.
    pub fn load(doc: &Doc, schema: &Schema) -> (r: Result<Level, LoadError>)
        ensures
            r is Ok <==> load_accepts(*doc, *schema),
            r matches Ok(l) ==> {
                &&& l.wf()
                &&& l.name@ == doc.name@
                &&& l.schema@ == doc.schema@
                &&& forall|nm: Seq<char>| l.has_layer(nm) <==> doc_has_layer(*doc, nm)
                &&& doc.wf() ==> l.layers_view() == doc.layers_view()
                &&& !doc.wf() ==> l.layers_view() == replay_doc(*doc)
            },
            r == Err::<Level, LoadError>(LoadError::SchemaMismatch) <==> doc.schema@
                != schema.name@,
            r == Err::<Level, LoadError>(LoadError::UnknownLayer) <==> (doc.schema@
                == schema.name@ && !layers_known(*doc, *schema)),
    {
        if !(doc.schema == schema.name) {
            return Err(LoadError::SchemaMismatch);
        }
        let n = doc.layers.len();
        let mut i: usize = 0;
        while i < n
            invariant
                i <= n,
                n == doc.layers@.len(),
                doc.schema@ == schema.name@,
                forall|k: int|
                    0 <= k < i ==> known_layer(*schema, (#[trigger] doc.layers@[k]).0@),
            decreases n - i,
        {
            if !contains_name(&schema.layers, &doc.layers[i].0) {
                proof {
                    assert(!known_layer(*schema, doc.layers@[i as int].0@));
                    assert(!layers_known(*doc, *schema));
                }
                return Err(LoadError::UnknownLayer);
            }
            i = i + 1;
        }
        proof {
            assert(layers_known(*doc, *schema));
        }
        if check_doc_wf(doc) {
            let l = Level {
                name: doc.name.clone(),
                schema: doc.schema.clone(),
                layers: copy_named_layers(&doc.layers),
            };
            proof {
                assert(l.layers_view() =~= doc.layers_view());
                assert forall|nm: Seq<char>| l.has_layer(nm) implies doc_has_layer(*doc, nm) by {
                    let k = choose|k: int|
                        0 <= k < l.layers@.len() && (#[trigger] l.layers@[k]).0@ == nm;
                    assert(doc.layers@[k].0@ == nm);
                }
                assert forall|nm: Seq<char>| doc_has_layer(*doc, nm) implies l.has_layer(nm) by {
                    let k = choose|k: int|
                        0 <= k < doc.layers@.len() && (#[trigger] doc.layers@[k]).0@ == nm;
                    assert(l.layers@[k].0@ == nm);
                }
            }
            return Ok(l);
        }
        let mut out = Level {
            name: doc.name.clone(),
            schema: doc.schema.clone(),
            layers: Vec::new(),
        };
        proof {
            assert(out.layers_view() =~= Seq::<(Seq<char>, Seq<(Seq<char>, Seq<Point>)>)>::empty());
        }
        let mut i2: usize = 0;
        while i2 < n
            invariant
                i2 <= n,
                n == doc.layers@.len(),
                load_accepts(*doc, *schema),
                out.wf(),
                out.name@ == doc.name@,
                out.schema@ == doc.schema@,
                out.layers_view() == replay_layers(
                    Seq::<(Seq<char>, Seq<(Seq<char>, Seq<Point>)>)>::empty(),
                    doc.layers_view().take(i2 as int),
                ),
                forall|nm: Seq<char>|
                    out.has_layer(nm) <==> (exists|k: int|
                        0 <= k < i2 && (#[trigger] doc.layers@[k]).0@ == nm),
            decreases n - i2,
        {
            let lname = doc.layers[i2].0.clone();
            match find_layer(&out, &lname) {
                Some(li) => {
                    let ghost before = out.layers_view();
                    let ghost old_entries = out.layers@;
                    proof {
                        assert forall|nm: Seq<char>|
                            #![trigger entries_have_name(old_entries, nm)]
                            entries_have_name(old_entries, nm) <==> (exists|k: int|
                            0 <= k < i2 && (#[trigger] doc.layers@[k]).0@ == nm) by {
                            assert(out.has_layer(nm) <==> entries_have_name(old_entries, nm));
                        }
                    }
                    let mut work = copy_layer(&out.layers[li].1);
                    proof {
                        assert(before[li as int].1 == out.layers@[li as int].1.view_kinds());
                        assert(layer_wf(work.view_kinds()));
                        assert(work.view_kinds() == before[li as int].1);
                    }
                    merge_layer(&mut work, &doc.layers[i2].1);
                    out.layers[li].1 = work;
                    proof {
                        let after = out.layers_view();
                        assert(out.layers@.len() == old_entries.len());
                        assert forall|k: int|
                            0 <= k < old_entries.len() implies (#[trigger] out.layers@[k]).0@
                            == old_entries[k].0@ && (k != li as int ==> out.layers@[k]
                            == old_entries[k]) by {}
                        assert(out.wf()) by {
                            assert forall|k1: int, k2: int|
                                #![trigger after[k1], after[k2]]
                                0 <= k1 < k2 < after.len() implies after[k1].0 != after[k2].0 by {
                                assert(after[k1].0 == old_entries[k1].0@ && after[k2].0
                                    == old_entries[k2].0@);
                                assert(before[k1].0 == old_entries[k1].0@ && before[k2].0
                                    == old_entries[k2].0@);
                            }
                            assert forall|k: int| 0 <= k < after.len() implies layer_wf(
                                (#[trigger] after[k]).1,
                            ) by {
                                if k != li as int {
                                    assert(after[k].1 == before[k].1);
                                } else {
                                    assert(after[k].1 == work.view_kinds());
                                }
                            }
                        }
                        assert forall|nm: Seq<char>| out.has_layer(nm) <==> (exists|k: int|
                            0 <= k < i2 + 1 && (#[trigger] doc.layers@[k]).0@ == nm) by {
                            assert(out.has_layer(nm) <==> entries_have_name(old_entries, nm)) by {
                                if out.has_layer(nm) {
                                    let k = choose|k: int|
                                        0 <= k < out.layers@.len() && (
                                        #[trigger] out.layers@[k]).0@ == nm;
                                    assert(old_entries[k].0@ == nm);
                                }
                                if entries_have_name(old_entries, nm) {
                                    let k = choose|k: int|
                                        0 <= k < old_entries.len() && (
                                        #[trigger] old_entries[k]).0@ == nm;
                                    assert(out.layers@[k].0@ == nm);
                                }
                            }
                            if nm == lname@ {
                                assert(old_entries[li as int].0@ == nm);
                                assert(entries_have_name(old_entries, nm));
                                assert(doc.layers@[i2 as int].0@ == nm);
                            }
                        }
                        assert(out.layers_view() == replay_layers(
                            Seq::<(Seq<char>, Seq<(Seq<char>, Seq<Point>)>)>::empty(),
                            doc.layers_view().take(i2 as int + 1),
                        )) by {
                            let dv = doc.layers_view();
                            let t = dv.take(i2 as int + 1);
                            assert(t.drop_last() =~= dv.take(i2 as int));
                            assert(t.last() == dv[i2 as int]);
                            assert(dv[i2 as int].0 == lname@);
                            assert(dv[i2 as int].1 == doc.layers@[i2 as int].1.view_kinds());
                            assert(before[li as int].0 == lname@);
                            assert(level_has_name(before, lname@));
                            assert(level_ensure_layer(before, lname@) == before);
                            assert(level_index_of(before, lname@) == li as int) by {
                                let x2 = level_index_of(before, lname@);
                                assert(0 <= x2 < before.len() && before[x2].0 == lname@);
                                if x2 != li as int {
                                    assert(grid_view_wf(before));
                                }
                            }
                            assert(work.view_kinds() == replay_kinds(
                                before[li as int].1,
                                doc.layers@[i2 as int].1.view_kinds(),
                            ));
                            assert(after =~= before.update(
                                li as int,
                                (lname@, work.view_kinds()),
                            ));
                            assert(replay_layer(before, lname@, t.last().1) == before.update(
                                li as int,
                                (lname@, replay_kinds(before[li as int].1, t.last().1)),
                            ));
                        }
                    }
                },
                None => {
                    let ghost before = out.layers_view();
                    let ghost old_entries = out.layers@;
                    proof {
                        assert forall|nm: Seq<char>|
                            #![trigger entries_have_name(old_entries, nm)]
                            entries_have_name(old_entries, nm) <==> (exists|k: int|
                            0 <= k < i2 && (#[trigger] doc.layers@[k]).0@ == nm) by {
                            assert(out.has_layer(nm) <==> entries_have_name(old_entries, nm));
                        }
                    }
                    let mut work = Layer::new();
                    proof {
                        assert(work.view_kinds() =~= Seq::<(Seq<char>, Seq<Point>)>::empty());
                        assert(names_unique(work.view_kinds()));
                        assert(layer_wf(work.view_kinds()));
                    }
                    merge_layer(&mut work, &doc.layers[i2].1);
                    out.layers.push((lname, work));
                    proof {
                        let after = out.layers_view();
                        let nn = old_entries.len() as int;
                        assert(out.layers@ =~= old_entries.push((lname, work)));
                        assert(out.wf()) by {
                            assert forall|k1: int, k2: int|
                                #![trigger after[k1], after[k2]]
                                0 <= k1 < k2 < after.len() implies after[k1].0 != after[k2].0 by {
                                if k2 == nn {
                                    assert(after[k1].0 == old_entries[k1].0@);
                                    assert(after[k2].0 == lname@);
                                } else {
                                    assert(after[k1] == before[k1] && after[k2] == before[k2]);
                                }
                            }
                            assert forall|k: int| 0 <= k < after.len() implies layer_wf(
                                (#[trigger] after[k]).1,
                            ) by {
                                if k < nn {
                                    assert(after[k] == before[k]);
                                } else {
                                    assert(after[k].1 == work.view_kinds());
                                }
                            }
                        }
                        assert forall|nm: Seq<char>| out.has_layer(nm) <==> (exists|k: int|
                            0 <= k < i2 + 1 && (#[trigger] doc.layers@[k]).0@ == nm) by {
                            if nm == lname@ {
                                assert(out.layers@[nn].0@ == nm);
                                assert(doc.layers@[i2 as int].0@ == nm);
                                assert(out.has_layer(nm));
                            } else {
                                assert(out.has_layer(nm) <==> entries_have_name(old_entries, nm))
                                    by {
                                    if out.has_layer(nm) {
                                        let k = choose|k: int|
                                            0 <= k < out.layers@.len() && (
                                            #[trigger] out.layers@[k]).0@ == nm;
                                        assert(k < nn);
                                        assert(old_entries[k].0@ == nm);
                                    }
                                    if entries_have_name(old_entries, nm) {
                                        let k = choose|k: int|
                                            0 <= k < old_entries.len() && (
                                            #[trigger] old_entries[k]).0@ == nm;
                                        assert(out.layers@[k].0@ == nm);
                                    }
                                }
                            }
                        }
                        assert(out.layers_view() == replay_layers(
                            Seq::<(Seq<char>, Seq<(Seq<char>, Seq<Point>)>)>::empty(),
                            doc.layers_view().take(i2 as int + 1),
                        )) by {
                            let dv = doc.layers_view();
                            let t = dv.take(i2 as int + 1);
                            assert(t.drop_last() =~= dv.take(i2 as int));
                            assert(t.last() == dv[i2 as int]);
                            assert(dv[i2 as int].0 == lname@);
                            assert(dv[i2 as int].1 == doc.layers@[i2 as int].1.view_kinds());
                            assert(!level_has_name(before, lname@)) by {
                                if level_has_name(before, lname@) {
                                    let k = choose|k: int|
                                        0 <= k < before.len() && (#[trigger] before[k]).0
                                            == lname@;
                                    assert(old_entries[k].0@ == lname@);
                                }
                            }
                            let v1 = before.push((lname@, Seq::<(Seq<char>, Seq<Point>)>::empty()));
                            assert(level_ensure_layer(before, lname@) == v1);
                            assert(level_index_of(v1, lname@) == nn) by {
                                assert(v1[nn].0 == lname@);
                                let x2 = level_index_of(v1, lname@);
                                assert(0 <= x2 < v1.len() && v1[x2].0 == lname@);
                                if x2 < nn {
                                    assert(before[x2].0 == lname@);
                                    assert(level_has_name(before, lname@));
                                }
                            }
                            assert(work.view_kinds() == replay_kinds(
                                Seq::<(Seq<char>, Seq<Point>)>::empty(),
                                doc.layers@[i2 as int].1.view_kinds(),
                            ));
                            assert(v1[nn].1 == Seq::<(Seq<char>, Seq<Point>)>::empty());
                            assert(replay_layer(before, lname@, t.last().1) == v1.update(
                                nn,
                                (lname@, replay_kinds(v1[nn].1, t.last().1)),
                            ));
                            assert(after =~= v1.update(nn, (lname@, work.view_kinds())));
                        }
                    }
                },
            }
            i2 = i2 + 1;
        }
        proof {
            assert(doc.layers_view().take(n as int) =~= doc.layers_view());
        }
        Ok(out)
    }
}

/// Round trip: a well-formed grid accepted by its schema, saved and loaded
/// back, is returned unchanged — layers, tile kinds and position sets all
/// match.  `d` is any document `save` may return for `g`, and `r` any
/// result `load` may return for `d`; the requires quote those functions'
/// guarantees.
pub proof fn lemma_save_load_round_trip(g: Level, d: Doc, r: Result<Level, LoadError>, schema: Schema)
    requires
        g.wf(),
        load_accepts(d, schema),
        d.name@ == g.name@,
        d.schema@ == g.schema@,
        d.layers_view() == g.layers_view(),
        r is Ok <==> load_accepts(d, schema),
        r matches Ok(l) ==> l.name@ == d.name@ && l.schema@ == d.schema@ && (d.wf()
            ==> l.layers_view() == d.layers_view()),
    ensures
        r matches Ok(l) && l.name@ == g.name@ && l.schema@ == g.schema@ && l.layers_view()
            == g.layers_view(),
{
    assert(d.wf());
}

} // verus!
