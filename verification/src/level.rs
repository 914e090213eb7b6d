//! The layered sparse tile grid.
//!
//! A `Level` is a named, ordered list of layers; each `Layer` maps tile-kind
//! names to ordered lists of painted cells.  A position (column, row) occurs
//! in at most one tile kind per layer: painting always clears the position
//! from every kind before inserting it into the chosen one, and that is the
//! only way occupancy is ever mutated.

use vstd::prelude::*;

verus! {

/// A painted cell: column, row, and a small colour/variant tag.  Two cells
/// denote the same position when column and row agree; the tag is payload,
/// not identity.
#[derive(Clone, Copy, Debug)]
pub struct Point(pub i32, pub i32, pub u32);

/// The two cells name the same grid position, whatever their tags.
pub open spec fn same_pos(p: Point, q: Point) -> bool {
    p.0 == q.0 && p.1 == q.1
}

impl PartialEq for Point {
    /// Cells compare equal by position alone: the tag is payload, not
    /// identity, so a repaint with a new tag still finds the old cell.
    fn eq(&self, other: &Point) -> (r: bool) {
        self.0 == other.0 && self.1 == other.1
    }
}

impl Eq for Point {}

impl vstd::std_specs::cmp::PartialEqSpecImpl for Point {
    open spec fn obeys_eq_spec() -> bool {
        true
    }

    open spec fn eq_spec(&self, other: &Point) -> bool {
        same_pos(*self, *other)
    }
}

impl PartialOrd for Point {
    /// Cells order by (column, row), the tag again set aside; the order
    /// every cell list is kept in.
    fn partial_cmp(&self, other: &Point) -> (r: Option<core::cmp::Ordering>) {
        if self.0 < other.0 {
            Some(core::cmp::Ordering::Less)
        } else if other.0 < self.0 {
            Some(core::cmp::Ordering::Greater)
        } else if self.1 < other.1 {
            Some(core::cmp::Ordering::Less)
        } else if other.1 < self.1 {
            Some(core::cmp::Ordering::Greater)
        } else {
            Some(core::cmp::Ordering::Equal)
        }
    }
}

impl vstd::std_specs::cmp::PartialOrdSpecImpl for Point {
    open spec fn obeys_partial_cmp_spec() -> bool {
        true
    }

    open spec fn partial_cmp_spec(&self, other: &Point) -> Option<core::cmp::Ordering> {
        if pos_lt(*self, *other) {
            Some(core::cmp::Ordering::Less)
        } else if pos_lt(*other, *self) {
            Some(core::cmp::Ordering::Greater)
        } else {
            Some(core::cmp::Ordering::Equal)
        }
    }
}

/// Strict ordering of cells by (column, row); the tag does not participate.
pub open spec fn pos_lt(p: Point, q: Point) -> bool {
    p.0 < q.0 || (p.0 == q.0 && p.1 < q.1)
}

/// The cell list is strictly increasing by (column, row): deterministic
/// iteration order, and no duplicate positions.
pub open spec fn cells_sorted(s: Seq<Point>) -> bool {
    forall|j1: int, j2: int| #![trigger s[j1], s[j2]] 0 <= j1 < j2 < s.len() ==> pos_lt(s[j1], s[j2])
}

/// Some cell in the list sits at position (x, y).
pub open spec fn has_pos(s: Seq<Point>, x: int, y: int) -> bool {
    exists|j: int| 0 <= j < s.len() && (#[trigger] s[j]).0 == x && s[j].1 == y
}

/// The cell list with every cell at position (x, y) removed, order kept.
pub open spec fn erase_cells(s: Seq<Point>, x: int, y: int) -> Seq<Point>
    decreases s.len(),
{
    if s.len() == 0 {
        Seq::empty()
    } else {
        let rest = erase_cells(s.drop_last(), x, y);
        if s.last().0 == x && s.last().1 == y {
            rest
        } else {
            rest.push(s.last())
        }
    }
}

/// What `erase_cells` keeps and what it drops: exactly the cells at other
/// positions survive, in their original relative order.
pub proof fn lemma_erase_cells(s: Seq<Point>, x: int, y: int)
    ensures
        erase_cells(s, x, y).len() <= s.len(),
        forall|j: int|
            0 <= j < erase_cells(s, x, y).len() ==> s.contains(
                #[trigger] erase_cells(s, x, y)[j],
            ),
        forall|j: int|
            0 <= j < erase_cells(s, x, y).len() ==> !((#[trigger] erase_cells(s, x, y)[j]).0 == x
                && erase_cells(s, x, y)[j].1 == y),
        forall|q: Point|
            s.contains(q) && !(q.0 == x && q.1 == y) ==> erase_cells(s, x, y).contains(q),
        cells_sorted(s) ==> cells_sorted(erase_cells(s, x, y)),
    decreases s.len(),
{
    let res = erase_cells(s, x, y);
    if s.len() == 0 {
        assert(forall|q: Point| !s.contains(q));
    } else {
        let head = s.drop_last();
        let rest = erase_cells(head, x, y);
        lemma_erase_cells(head, x, y);
        assert(forall|j: int| 0 <= j < head.len() ==> head[j] == s[j]);
        assert(forall|q: Point| head.contains(q) ==> s.contains(q));
        if cells_sorted(s) {
            assert(cells_sorted(head));
            assert(cells_sorted(rest));
            if !(s.last().0 == x && s.last().1 == y) {
                assert forall|j1: int, j2: int|
                    0 <= j1 < j2 < res.len() implies pos_lt(#[trigger] res[j1], #[trigger] res[j2])
                by {
                    if j2 < rest.len() {
                        assert(rest[j1] == res[j1] && rest[j2] == res[j2]);
                    } else {
                        assert(res[j2] == s.last());
                        assert(head.contains(rest[j1]));
                        let k = choose|k: int| 0 <= k < head.len() && head[k] == rest[j1];
                        assert(pos_lt(s[k], s[s.len() - 1]));
                    }
                }
            }
        }
        assert forall|q: Point| s.contains(q) && !(q.0 == x && q.1 == y) implies res.contains(q)
        by {
            let k = choose|k: int| 0 <= k < s.len() && s[k] == q;
            if k < s.len() - 1 {
                assert(head[k] == q);
                assert(head.contains(q));
                assert(rest.contains(q));
                let j = choose|j: int| 0 <= j < rest.len() && rest[j] == q;
                assert(res[j] == q);
            } else {
                assert(q == s.last());
                assert(res.last() == q);
            }
        }
        assert forall|j: int| 0 <= j < res.len() implies s.contains(#[trigger] res[j]) by {
            if j < rest.len() {
                assert(head.contains(rest[j]));
                let k = choose|k: int| 0 <= k < head.len() && head[k] == rest[j];
                assert(s[k] == res[j]);
            } else {
                assert(res[j] == s.last());
                assert(s[s.len() - 1] == res[j]);
            }
        }
    }
}

/// A layer: tile-kind names, each with the ordered list of cells it
/// occupies.  Kinds appear in first-use order and never share a position.
#[derive(Clone, Debug)]
pub struct Layer {
    pub kinds: Vec<(String, Vec<Point>)>,
}

impl Layer {
    /// The layer's content as a sequence of (kind name, cells) pairs.
    pub open spec fn view_kinds(self) -> Seq<(Seq<char>, Seq<Point>)> {
        self.kinds@.map_values(|kc: (String, Vec<Point>)| (kc.0@, kc.1@))
    }

    /// An empty layer, created lazily the first time a layer name is
    /// painted on.
    pub fn new() -> (l: Layer)
        ensures
            l.view_kinds() =~= Seq::<(Seq<char>, Seq<Point>)>::empty(),
    {
        Layer { kinds: Vec::new() }
    }
}

/// Kind names within the view are pairwise distinct.
pub open spec fn names_unique(lv: Seq<(Seq<char>, Seq<Point>)>) -> bool {
    forall|i1: int, i2: int|
        #![trigger lv[i1], lv[i2]]
        0 <= i1 < i2 < lv.len() ==> lv[i1].0 != lv[i2].0
}

/// Every kind's cell list is strictly sorted by (column, row).
pub open spec fn all_cells_sorted(lv: Seq<(Seq<char>, Seq<Point>)>) -> bool {
    forall|i: int| 0 <= i < lv.len() ==> cells_sorted((#[trigger] lv[i]).1)
}

/// No grid position is occupied by two different tile kinds.
pub open spec fn positions_disjoint(lv: Seq<(Seq<char>, Seq<Point>)>) -> bool {
    forall|x: int, y: int, i1: int, i2: int|
        0 <= i1 < lv.len() && 0 <= i2 < lv.len() && #[trigger] has_pos(lv[i1].1, x, y)
            && #[trigger] has_pos(lv[i2].1, x, y) ==> i1 == i2
}

/// The layer invariant: distinct kind names, sorted cell lists, and a
/// single occupant per position.
pub open spec fn layer_wf(lv: Seq<(Seq<char>, Seq<Point>)>) -> bool {
    names_unique(lv) && all_cells_sorted(lv) && positions_disjoint(lv)
}

/// Some kind in the view carries this name.
pub open spec fn has_kind(lv: Seq<(Seq<char>, Seq<Point>)>, name: Seq<char>) -> bool {
    exists|i: int| 0 <= i < lv.len() && (#[trigger] lv[i]).0 == name
}

/// The index of the kind with this name (unique when names are distinct).
pub open spec fn kind_index(lv: Seq<(Seq<char>, Seq<Point>)>, name: Seq<char>) -> int {
    choose|i: int| 0 <= i < lv.len() && (#[trigger] lv[i]).0 == name
}

/// The cells of the kind with this name.
pub open spec fn kind_cells(lv: Seq<(Seq<char>, Seq<Point>)>, name: Seq<char>) -> Seq<Point> {
    lv[kind_index(lv, name)].1
}

/// The view after erasing position (x, y) from every kind: each cell list
/// is filtered, the kind names and their order are untouched.
pub open spec fn view_erase(lv: Seq<(Seq<char>, Seq<Point>)>, x: int, y: int) -> Seq<
    (Seq<char>, Seq<Point>),
> {
    lv.map_values(|kc: (Seq<char>, Seq<Point>)| (kc.0, erase_cells(kc.1, x, y)))
}

/// Where a cell belongs in an ordered cell list: the index of the first
/// cell strictly greater than `p`, or the length when there is none.
pub open spec fn insertion_index(s: Seq<Point>, p: Point) -> int
    decreases s.len(),
{
    if s.len() == 0 {
        0
    } else if pos_lt(p, s[0]) {
        0
    } else {
        1 + insertion_index(s.drop_first(), p)
    }
}

/// The cell list with `p` inserted at its ordered position.
pub open spec fn insert_cell(s: Seq<Point>, p: Point) -> Seq<Point> {
    s.insert(insertion_index(s, p), p)
}

/// `insertion_index` is the unique cut: everything before it is not above
/// `p`, and the element at it (if any) is.
pub proof fn lemma_insertion_index_is(s: Seq<Point>, p: Point, j: int)
    requires
        0 <= j <= s.len(),
        forall|k: int| 0 <= k < j ==> !pos_lt(p, #[trigger] s[k]),
        j < s.len() ==> pos_lt(p, s[j]),
    ensures
        insertion_index(s, p) == j,
    decreases s.len(),
{
    if s.len() == 0 {
    } else if pos_lt(p, s[0]) {
        if j > 0 {
            assert(!pos_lt(p, s[0]));
        }
    } else {
        assert(j >= 1) by {
            if j == 0 {
                assert(pos_lt(p, s[0]));
            }
        }
        let t = s.drop_first();
        assert forall|k: int| 0 <= k < j - 1 implies !pos_lt(p, #[trigger] t[k]) by {
            assert(t[k] == s[k + 1]);
        }
        if j - 1 < t.len() {
            assert(t[j - 1] == s[j]);
        }
        lemma_insertion_index_is(t, p, j - 1);
    }
}

/// `insertion_index` always lands inside the list bounds.
pub proof fn lemma_insertion_index_bounds(s: Seq<Point>, p: Point)
    ensures
        0 <= insertion_index(s, p) <= s.len(),
    decreases s.len(),
{
    if s.len() == 0 {
    } else if pos_lt(p, s[0]) {
    } else {
        lemma_insertion_index_bounds(s.drop_first(), p);
    }
}

/// Inserting a cell whose position is absent keeps the list strictly
/// sorted, and the result holds exactly the old cells plus the new one.
pub proof fn lemma_insert_cell_sorted(s: Seq<Point>, p: Point)
    requires
        cells_sorted(s),
        forall|k: int| 0 <= k < s.len() ==> !same_pos(#[trigger] s[k], p),
    ensures
        cells_sorted(insert_cell(s, p)),
        insert_cell(s, p).len() == s.len() + 1,
        forall|q: Point| #[trigger] insert_cell(s, p).contains(q) <==> s.contains(q) || q == p,
{
    let j = insertion_index(s, p);
    lemma_insertion_index_bounds(s, p);
    let res = insert_cell(s, p);
    assert forall|k: int| 0 <= k < j implies pos_lt(#[trigger] s[k], p) by {
        lemma_insertion_prefix_below(s, p, k);
    }
    assert forall|k: int| j <= k < s.len() implies pos_lt(p, #[trigger] s[k]) by {
        lemma_insertion_suffix_above(s, p, k);
    }
    assert forall|j1: int, j2: int|
        0 <= j1 < j2 < res.len() implies pos_lt(#[trigger] res[j1], #[trigger] res[j2]) by {
        if j1 < j && j2 < j {
            assert(res[j1] == s[j1] && res[j2] == s[j2]);
        } else if j1 < j && j2 == j {
            assert(res[j1] == s[j1] && res[j2] == p);
        } else if j1 < j && j2 > j {
            assert(res[j1] == s[j1] && res[j2] == s[j2 - 1]);
            assert(pos_lt(s[j1], p) && pos_lt(p, s[j2 - 1]));
        } else if j1 == j {
            assert(res[j1] == p && res[j2] == s[j2 - 1]);
        } else {
            assert(res[j1] == s[j1 - 1] && res[j2] == s[j2 - 1]);
        }
    }
    assert forall|q: Point| res.contains(q) implies s.contains(q) || q == p by {
        let k = choose|k: int| 0 <= k < res.len() && res[k] == q;
        if k < j {
            assert(s[k] == q);
        } else if k == j {
            assert(q == p);
        } else {
            assert(s[k - 1] == q);
        }
    }
    assert forall|q: Point| s.contains(q) || q == p implies res.contains(q) by {
        if q == p {
            assert(res[j] == p);
        } else {
            let k = choose|k: int| 0 <= k < s.len() && s[k] == q;
            if k < j {
                assert(res[k] == q);
            } else {
                assert(res[k + 1] == q);
            }
        }
    }
}

/// Everything strictly before the insertion cut is strictly below `p` in a
/// sorted list whose positions avoid `p`'s.
proof fn lemma_insertion_prefix_below(s: Seq<Point>, p: Point, k: int)
    requires
        cells_sorted(s),
        forall|m: int| 0 <= m < s.len() ==> !same_pos(#[trigger] s[m], p),
        0 <= k < insertion_index(s, p),
    ensures
        pos_lt(s[k], p),
    decreases s.len(),
{
    lemma_insertion_index_bounds(s, p);
    if s.len() == 0 || pos_lt(p, s[0]) {
    } else {
        if k == 0 {
            assert(!pos_lt(p, s[0]));
            assert(!same_pos(s[0], p));
        } else {
            let t = s.drop_first();
            lemma_insertion_index_bounds(t, p);
            assert forall|m: int| 0 <= m < t.len() implies !same_pos(#[trigger] t[m], p) by {
                assert(t[m] == s[m + 1]);
            }
            lemma_insertion_prefix_below(t, p, k - 1);
            assert(t[k - 1] == s[k]);
        }
    }
}

/// Everything at or past the insertion cut is strictly above `p` in a
/// sorted list.
proof fn lemma_insertion_suffix_above(s: Seq<Point>, p: Point, k: int)
    requires
        cells_sorted(s),
        insertion_index(s, p) <= k < s.len(),
    ensures
        pos_lt(p, s[k]),
    decreases s.len(),
{
    if s.len() == 0 {
    } else if pos_lt(p, s[0]) {
        if k > 0 {
            assert(pos_lt(s[0], s[k]));
            assert(pos_lt(p, s[k]));
        }
    } else {
        let t = s.drop_first();
        lemma_insertion_index_bounds(t, p);
        assert(cells_sorted(t)) by {
            assert forall|j1: int, j2: int|
                0 <= j1 < j2 < t.len() implies pos_lt(#[trigger] t[j1], #[trigger] t[j2]) by {
                assert(t[j1] == s[j1 + 1] && t[j2] == s[j2 + 1]);
            }
        }
        lemma_insertion_suffix_above(t, p, k - 1);
        assert(t[k - 1] == s[k]);
    }
}

/// The view after painting cell `p` with tile kind `tile`: the position is
/// first erased from every kind, then the cell is inserted into `tile`'s
/// list at its ordered place; a kind not yet present is appended.
pub open spec fn view_paint(lv: Seq<(Seq<char>, Seq<Point>)>, tile: Seq<char>, p: Point) -> Seq<
    (Seq<char>, Seq<Point>),
> {
    let cleared = view_erase(lv, p.0 as int, p.1 as int);
    if has_kind(cleared, tile) {
        let i = kind_index(cleared, tile);
        cleared.update(i, (tile, insert_cell(cleared[i].1, p)))
    } else {
        cleared.push((tile, seq![p]))
    }
}

/// Erasing a position preserves the layer invariant, removes the position
/// from every kind, and touches nothing else: names, kind order, and all
/// other positions survive.
pub proof fn lemma_view_erase_wf(lv: Seq<(Seq<char>, Seq<Point>)>, x: int, y: int)
    ensures
        view_erase(lv, x, y).len() == lv.len(),
        forall|i: int| 0 <= i < lv.len() ==> (#[trigger] view_erase(lv, x, y)[i]).0 == lv[i].0,
        forall|i: int| 0 <= i < lv.len() ==> !has_pos(#[trigger] view_erase(lv, x, y)[i].1, x, y),
        forall|i: int, a: int, b: int|
            0 <= i < lv.len() && #[trigger] has_pos(view_erase(lv, x, y)[i].1, a, b) ==> has_pos(
                lv[i].1,
                a,
                b,
            ),
        forall|i: int, a: int, b: int|
            0 <= i < lv.len() && !(a == x && b == y) && #[trigger] has_pos(lv[i].1, a, b)
                ==> has_pos(view_erase(lv, x, y)[i].1, a, b),
        forall|i: int, q: Point|
            0 <= i < lv.len() && #[trigger] view_erase(lv, x, y)[i].1.contains(q)
                ==> lv[i].1.contains(q),
        forall|i: int, q: Point|
            0 <= i < lv.len() && !(q.0 == x && q.1 == y) && #[trigger] lv[i].1.contains(q)
                ==> view_erase(lv, x, y)[i].1.contains(q),
        layer_wf(lv) ==> layer_wf(view_erase(lv, x, y)),
{
    let res = view_erase(lv, x, y);
    assert forall|i: int| 0 <= i < lv.len() implies !has_pos(#[trigger] res[i].1, x, y) by {
        lemma_erase_cells(lv[i].1, x, y);
    }
    assert forall|i: int, a: int, b: int|
        0 <= i < lv.len() && #[trigger] has_pos(res[i].1, a, b) implies has_pos(lv[i].1, a, b) by {
        lemma_erase_cells(lv[i].1, x, y);
        let j = choose|j: int| 0 <= j < res[i].1.len() && (#[trigger] res[i].1[j]).0 == a
            && res[i].1[j].1 == b;
        let q = res[i].1[j];
        assert(lv[i].1.contains(q));
        let k = choose|k: int| 0 <= k < lv[i].1.len() && lv[i].1[k] == q;
    }
    assert forall|i: int, a: int, b: int|
        0 <= i < lv.len() && !(a == x && b == y) && #[trigger] has_pos(lv[i].1, a, b) implies
        has_pos(res[i].1, a, b) by {
        lemma_erase_cells(lv[i].1, x, y);
        let j = choose|j: int| 0 <= j < lv[i].1.len() && (#[trigger] lv[i].1[j]).0 == a
            && lv[i].1[j].1 == b;
        let q = lv[i].1[j];
        assert(lv[i].1.contains(q));
        assert(res[i].1.contains(q));
        let k = choose|k: int| 0 <= k < res[i].1.len() && res[i].1[k] == q;
    }
    assert forall|i: int, q: Point|
        0 <= i < lv.len() && #[trigger] res[i].1.contains(q) implies lv[i].1.contains(q) by {
        lemma_erase_cells(lv[i].1, x, y);
        let j = choose|j: int| 0 <= j < res[i].1.len() && res[i].1[j] == q;
    }
    assert forall|i: int, q: Point|
        0 <= i < lv.len() && !(q.0 == x && q.1 == y) && #[trigger] lv[i].1.contains(q) implies
        res[i].1.contains(q) by {
        lemma_erase_cells(lv[i].1, x, y);
    }
    if layer_wf(lv) {
        assert forall|i: int| 0 <= i < res.len() implies cells_sorted((#[trigger] res[i]).1) by {
            lemma_erase_cells(lv[i].1, x, y);
        }
        assert forall|a: int, b: int, i1: int, i2: int|
            0 <= i1 < res.len() && 0 <= i2 < res.len() && #[trigger] has_pos(res[i1].1, a, b)
                && #[trigger] has_pos(res[i2].1, a, b) implies i1 == i2 by {
            assert(has_pos(lv[i1].1, a, b) && has_pos(lv[i2].1, a, b));
        }
    }
}

/// Painting preserves the layer invariant; afterwards the painted kind
/// holds exactly the painted cell at that position, and no other kind
/// holds the position at all.
pub proof fn lemma_view_paint_wf(lv: Seq<(Seq<char>, Seq<Point>)>, tile: Seq<char>, p: Point)
    requires
        layer_wf(lv),
    ensures
        layer_wf(view_paint(lv, tile, p)),
        has_kind(view_paint(lv, tile, p), tile),
        kind_cells(view_paint(lv, tile, p), tile).contains(p),
        has_pos(kind_cells(view_paint(lv, tile, p), tile), p.0 as int, p.1 as int),
        forall|i: int|
            0 <= i < view_paint(lv, tile, p).len() && (#[trigger] view_paint(lv, tile, p)[i]).0
                != tile ==> !has_pos(view_paint(lv, tile, p)[i].1, p.0 as int, p.1 as int),
        forall|u: Seq<char>|
            has_kind(lv, u) ==> has_kind(#[trigger] view_paint(lv, tile, p), u),
        forall|u: Seq<char>|
            has_kind(#[trigger] view_paint(lv, tile, p), u) ==> has_kind(lv, u) || u == tile,
{
    let x = p.0 as int;
    let y = p.1 as int;
    let cleared = view_erase(lv, x, y);
    let res = view_paint(lv, tile, p);
    lemma_view_erase_wf(lv, x, y);
    if has_kind(cleared, tile) {
        let i = kind_index(cleared, tile);
        assert(0 <= i < cleared.len() && cleared[i].0 == tile);
        let inserted = insert_cell(cleared[i].1, p);
        assert forall|k: int| 0 <= k < cleared[i].1.len() implies !same_pos(
            #[trigger] cleared[i].1[k],
            p,
        ) by {
            if same_pos(cleared[i].1[k], p) {
                assert(has_pos(cleared[i].1, x, y));
            }
        }
        lemma_insert_cell_sorted(cleared[i].1, p);
        lemma_insertion_index_bounds(cleared[i].1, p);
        assert(res == cleared.update(i, (tile, inserted)));
        assert(res[i].1 == inserted);
        assert(inserted.contains(p));
        assert(has_pos(inserted, x, y)) by {
            let jw = choose|j: int| 0 <= j < inserted.len() && inserted[j] == p;
            assert((inserted[jw]).0 == x && inserted[jw].1 == y);
        }
        // names and the other kinds are untouched by the update
        assert forall|k: int| 0 <= k < res.len() && k != i implies res[k] == cleared[k] by {}
        assert(names_unique(res));
        assert forall|k: int| 0 <= k < res.len() implies cells_sorted((#[trigger] res[k]).1) by {
            if k != i {
                assert(res[k] == cleared[k]);
            }
        }
        assert forall|a: int, b: int, i1: int, i2: int|
            0 <= i1 < res.len() && 0 <= i2 < res.len() && #[trigger] has_pos(res[i1].1, a, b)
                && #[trigger] has_pos(res[i2].1, a, b) implies i1 == i2 by {
            lemma_paint_update_occupancy(cleared, i, p, a, b, i1);
            lemma_paint_update_occupancy(cleared, i, p, a, b, i2);
            if a == x && b == y {
                assert(i1 == i && i2 == i);
            } else {
                assert(has_pos(cleared[i1].1, a, b) && has_pos(cleared[i2].1, a, b));
            }
        }
        assert forall|k: int|
            0 <= k < res.len() && (#[trigger] res[k]).0 != tile implies !has_pos(
            res[k].1,
            x,
            y,
        ) by {
            assert(k != i);
            assert(res[k] == cleared[k]);
        }
        assert(kind_index(res, tile) == i) by {
            let i2 = kind_index(res, tile);
            assert(res[i].0 == tile);
            assert(0 <= i2 < res.len() && res[i2].0 == tile);
            if i2 != i {
                assert(cleared[i2].0 == tile);
            }
        }
        assert forall|u: Seq<char>| has_kind(lv, u) implies has_kind(
            #[trigger] view_paint(lv, tile, p),
            u,
        ) by {
            let k = choose|k: int| 0 <= k < lv.len() && (#[trigger] lv[k]).0 == u;
            assert(cleared[k].0 == u);
            assert(res[k].0 == u);
        }
        assert forall|u: Seq<char>| has_kind(#[trigger] view_paint(lv, tile, p), u) implies
        has_kind(lv, u) || u == tile by {
            let k = choose|k: int| 0 <= k < res.len() && (#[trigger] res[k]).0 == u;
            assert(cleared[k].0 == u);
            assert(lv[k].0 == u);
        }
    } else {
        let n = cleared.len() as int;
        assert(res == cleared.push((tile, seq![p])));
        assert(res[n] == (tile, seq![p]));
        assert(res[n].1[0] == p);
        assert(has_pos(res[n].1, x, y));
        assert forall|k: int| 0 <= k < n implies res[k] == cleared[k] by {}
        assert(names_unique(res)) by {
            assert forall|i1: int, i2: int|
                #![trigger res[i1], res[i2]]
                0 <= i1 < i2 < res.len() implies res[i1].0 != res[i2].0 by {
                if i2 == n {
                    if res[i1].0 == tile {
                        assert(cleared[i1].0 == tile);
                        assert(has_kind(cleared, tile));
                    }
                } else {
                    assert(res[i1] == cleared[i1] && res[i2] == cleared[i2]);
                }
            }
        }
        assert forall|k: int| 0 <= k < res.len() implies cells_sorted((#[trigger] res[k]).1) by {
            if k < n {
                assert(res[k] == cleared[k]);
            } else {
                assert(res[k].1.len() == 1);
            }
        }
        assert forall|a: int, b: int, i1: int, i2: int|
            0 <= i1 < res.len() && 0 <= i2 < res.len() && #[trigger] has_pos(res[i1].1, a, b)
                && #[trigger] has_pos(res[i2].1, a, b) implies i1 == i2 by {
            if i1 < n && i2 < n {
                assert(has_pos(cleared[i1].1, a, b) && has_pos(cleared[i2].1, a, b));
            } else if i1 == n && i2 < n {
                assert(a == x && b == y);
                assert(!has_pos(cleared[i2].1, x, y));
            } else if i1 < n && i2 == n {
                assert(a == x && b == y);
                assert(!has_pos(cleared[i1].1, x, y));
            }
        }
        assert forall|k: int|
            0 <= k < res.len() && (#[trigger] res[k]).0 != tile implies !has_pos(
            res[k].1,
            x,
            y,
        ) by {
            assert(k != n);
            assert(res[k] == cleared[k]);
        }
        assert(kind_index(res, tile) == n) by {
            let i2 = kind_index(res, tile);
            assert(res[n].0 == tile);
            assert(0 <= i2 < res.len() && res[i2].0 == tile);
            if i2 != n {
                assert(cleared[i2].0 == tile);
                assert(has_kind(cleared, tile));
            }
        }
        assert forall|u: Seq<char>| has_kind(lv, u) implies has_kind(
            #[trigger] view_paint(lv, tile, p),
            u,
        ) by {
            let k = choose|k: int| 0 <= k < lv.len() && (#[trigger] lv[k]).0 == u;
            assert(cleared[k].0 == u);
            assert(res[k].0 == u);
        }
        assert forall|u: Seq<char>| has_kind(#[trigger] view_paint(lv, tile, p), u) implies
        has_kind(lv, u) || u == tile by {
            let k = choose|k: int| 0 <= k < res.len() && (#[trigger] res[k]).0 == u;
            if k < n {
                assert(cleared[k].0 == u);
                assert(lv[k].0 == u);
            }
        }
    }
}

/// In a layer updated at one kind index, a position is found either in the
/// updated list (at that index) or untouched elsewhere.
proof fn lemma_paint_update_occupancy(
    cleared: Seq<(Seq<char>, Seq<Point>)>,
    i: int,
    p: Point,
    a: int,
    b: int,
    k: int,
)
    requires
        0 <= i < cleared.len(),
        0 <= k < cleared.len(),
        forall|m: int| 0 <= m < cleared[i].1.len() ==> !same_pos(#[trigger] cleared[i].1[m], p),
        cells_sorted(cleared[i].1),
        has_pos(
            cleared.update(i, (cleared[i].0, insert_cell(cleared[i].1, p)))[k].1,
            a,
            b,
        ),
    ensures
        k == i && a == p.0 && b == p.1 ==> true,
        !(a == p.0 && b == p.1) ==> has_pos(cleared[k].1, a, b),
        (a == p.0 && b == p.1) && k != i ==> has_pos(cleared[k].1, a, b),
{
    let upd = cleared.update(i, (cleared[i].0, insert_cell(cleared[i].1, p)));
    if k != i {
        assert(upd[k] == cleared[k]);
    } else {
        lemma_insert_cell_sorted(cleared[i].1, p);
        let s = upd[i].1;
        let j = choose|j: int| 0 <= j < s.len() && (#[trigger] s[j]).0 == a && s[j].1 == b;
        let q = s[j];
        assert(s.contains(q));
        if q == p {
            if !(a == p.0 && b == p.1) {
                assert(false);
            }
        } else {
            assert(cleared[i].1.contains(q));
            let m = choose|m: int| 0 <= m < cleared[i].1.len() && cleared[i].1[m] == q;
            assert(has_pos(cleared[i].1, a, b));
            if a == p.0 && b == p.1 {
                assert(!same_pos(cleared[i].1[m], p));
                assert(false);
            }
        }
    }
}

/// Removes every cell at position (x, y) from `cells`, keeping order.
fn remove_pos_from(cells: &Vec<Point>, x: i32, y: i32) -> (out: Vec<Point>)
    ensures
        out@ == erase_cells(cells@, x as int, y as int),
{
    let mut out: Vec<Point> = Vec::new();
    let n = cells.len();
    let mut j: usize = 0;
    while j < n
        invariant
            j <= n,
            n == cells@.len(),
            out@ == erase_cells(cells@.take(j as int), x as int, y as int),
        decreases n - j,
    {
        let p = cells[j];
        proof {
            let t = cells@.take(j as int + 1);
            assert(t.drop_last() =~= cells@.take(j as int));
            assert(t.last() == cells@[j as int]);
        }
        if !(p.0 == x && p.1 == y) {
            out.push(p);
        }
        j = j + 1;
    }
    proof {
        assert(cells@.take(n as int) =~= cells@);
    }
    out
}

/// Removes the given position from every tile kind's cell list in the
/// layer; a no-op where the position is absent.  This, together with
/// `insert_tile`, is the only way occupancy changes.
pub fn remove_tile(layer: &mut Layer, pos: (i32, i32))
    ensures
        final(layer).view_kinds() == view_erase(
            old(layer).view_kinds(),
            pos.0 as int,
            pos.1 as int,
        ),
{
    let n = layer.kinds.len();
    let mut i: usize = 0;
    while i < n
        invariant
            i <= n,
            n == layer.kinds@.len(),
            layer.kinds@.len() == old(layer).kinds@.len(),
            forall|k: int|
                i <= k < n ==> #[trigger] layer.kinds@[k] == old(layer).kinds@[k],
            forall|k: int|
                0 <= k < i ==> (#[trigger] layer.kinds@[k]).0@ == old(layer).kinds@[k].0@
                    && layer.kinds@[k].1@ == erase_cells(
                    old(layer).kinds@[k].1@,
                    pos.0 as int,
                    pos.1 as int,
                ),
        decreases n - i,
    {
        let updated = remove_pos_from(&layer.kinds[i].1, pos.0, pos.1);
        layer.kinds[i].1 = updated;
        i = i + 1;
    }
    proof {
        assert(final(layer).view_kinds() =~= view_erase(
            old(layer).view_kinds(),
            pos.0 as int,
            pos.1 as int,
        ));
    }
}

/// Some layer of the level view carries this name.
pub open spec fn level_has_name(
    v: Seq<(Seq<char>, Seq<(Seq<char>, Seq<Point>)>)>,
    name: Seq<char>,
) -> bool {
    exists|i: int| 0 <= i < v.len() && (#[trigger] v[i]).0 == name
}

/// The index of the layer with this name (unique when the level is
/// well-formed).
pub open spec fn level_index_of(
    v: Seq<(Seq<char>, Seq<(Seq<char>, Seq<Point>)>)>,
    name: Seq<char>,
) -> int {
    choose|i: int| 0 <= i < v.len() && (#[trigger] v[i]).0 == name
}

/// The level view with a layer of this name guaranteed present: unchanged
/// when it exists, else appended empty — layers are created lazily on
/// first use.
pub open spec fn level_ensure_layer(
    v: Seq<(Seq<char>, Seq<(Seq<char>, Seq<Point>)>)>,
    name: Seq<char>,
) -> Seq<(Seq<char>, Seq<(Seq<char>, Seq<Point>)>)> {
    if level_has_name(v, name) {
        v
    } else {
        v.push((name, Seq::empty()))
    }
}

/// A whole grid, seen abstractly: distinct layer names, each layer
/// well-formed.  Shared between the level itself and the document form it
/// is persisted as.
pub open spec fn grid_view_wf(v: Seq<(Seq<char>, Seq<(Seq<char>, Seq<Point>)>)>) -> bool {
    &&& forall|i1: int, i2: int|
        #![trigger v[i1], v[i2]]
        0 <= i1 < i2 < v.len() ==> v[i1].0 != v[i2].0
    &&& forall|i: int| 0 <= i < v.len() ==> layer_wf((#[trigger] v[i]).1)
}

/// A level: a name, the identifier of the schema it was built against, and
/// its layers in first-use order, each a named `Layer`.
#[derive(Clone, Debug)]
pub struct Level {
    pub name: String,
    pub schema: String,
    pub layers: Vec<(String, Layer)>,
}

impl Level {
    /// The level's layers as a sequence of (layer name, layer content)
    /// pairs.
    pub open spec fn layers_view(self) -> Seq<(Seq<char>, Seq<(Seq<char>, Seq<Point>)>)> {
        self.layers@.map_values(|e: (String, Layer)| (e.0@, e.1.view_kinds()))
    }

    /// The level invariant: distinct layer names, and every layer
    /// well-formed.
    pub open spec fn wf(self) -> bool {
        grid_view_wf(self.layers_view())
    }

    /// Some layer in the level carries this name.
    pub open spec fn has_layer(self, name: Seq<char>) -> bool {
        exists|i: int| 0 <= i < self.layers@.len() && (#[trigger] self.layers@[i]).0@ == name
    }

    /// An empty level for the given name and schema identifier.
    pub fn empty(name: String, schema: String) -> (l: Level)
        ensures
            l.name == name,
            l.schema == schema,
            l.layers@.len() == 0,
            l.wf(),
    {
        Level { name, schema, layers: Vec::new() }
    }
}

/// Finds the index of the layer with the given name, if present.
pub fn find_layer(level: &Level, name: &String) -> (r: Option<usize>)
    ensures
        match r {
            Some(i) => 0 <= i < level.layers@.len() && level.layers@[i as int].0@ == name@,
            None => forall|k: int|
                0 <= k < level.layers@.len() ==> (#[trigger] level.layers@[k]).0@ != name@,
        },
{
    let n = level.layers.len();
    let mut i: usize = 0;
    while i < n
        invariant
            i <= n,
            n == level.layers@.len(),
            forall|k: int| 0 <= k < i ==> (#[trigger] level.layers@[k]).0@ != name@,
        decreases n - i,
    {
        if level.layers[i].0 == *name {
            return Some(i);
        }
        i = i + 1;
    }
    None
}

/// Finds the index of the kind with the given name, if present.
pub fn find_kind(layer: &Layer, name: &String) -> (r: Option<usize>)
    ensures
        match r {
            Some(i) => 0 <= i < layer.kinds@.len() && layer.kinds@[i as int].0@ == name@,
            None => forall|k: int|
                0 <= k < layer.kinds@.len() ==> (#[trigger] layer.kinds@[k]).0@ != name@,
        },
{
    let n = layer.kinds.len();
    let mut i: usize = 0;
    while i < n
        invariant
            i <= n,
            n == layer.kinds@.len(),
            forall|k: int| 0 <= k < i ==> (#[trigger] layer.kinds@[k]).0@ != name@,
        decreases n - i,
    {
        if layer.kinds[i].0 == *name {
            return Some(i);
        }
        i = i + 1;
    }
    None
}

/// Finds the ordered insertion index for `p` in a cell list.
fn find_insert_index(cells: &Vec<Point>, p: Point) -> (j: usize)
    ensures
        j as int == insertion_index(cells@, p),
        j <= cells@.len(),
{
    let n = cells.len();
    let mut j: usize = 0;
    while j < n
        invariant
            j <= n,
            n == cells@.len(),
            forall|k: int| 0 <= k < j ==> !pos_lt(p, #[trigger] cells@[k]),
        decreases n - j,
    {
        let q = cells[j];
        if p.0 < q.0 || (p.0 == q.0 && p.1 < q.1) {
            proof {
                lemma_insertion_index_is(cells@, p, j as int);
            }
            return j;
        }
        j = j + 1;
    }
    proof {
        lemma_insertion_index_is(cells@, p, n as int);
    }
    n
}

/// Paints the cell at `pos` with tile kind `tile`, carrying `color` as the
/// cell's variant tag: the position is first removed from every kind, then
/// inserted into `tile`'s ordered cell list, creating the kind at the end
/// of the layer if it was absent.  Last write wins; one tile per cell.
pub fn insert_tile(layer: &mut Layer, tile: &str, pos: (i32, i32), color: u32)
    requires
        layer_wf(old(layer).view_kinds()),
    ensures
        final(layer).view_kinds() == view_paint(
            old(layer).view_kinds(),
            tile@,
            Point(pos.0, pos.1, color),
        ),
        layer_wf(final(layer).view_kinds()),
{
    let ghost old_view = layer.view_kinds();
    let p = Point(pos.0, pos.1, color);
    let ghost cleared = view_erase(old_view, p.0 as int, p.1 as int);
    remove_tile(layer, pos);
    proof {
        lemma_view_erase_wf(old_view, p.0 as int, p.1 as int);
        lemma_view_paint_wf(old_view, tile@, p);
    }
    let tile_string: String = tile.to_owned();
    match find_kind(layer, &tile_string) {
        Some(i) => {
            proof {
                assert(has_kind(cleared, tile@));
                let ki = kind_index(cleared, tile@);
                assert(0 <= ki < cleared.len() && cleared[ki].0 == tile@);
                if ki != i as int {
                    assert(cleared[ki].0 == cleared[i as int].0);
                    assert(false);
                }
                assert forall|k: int| 0 <= k < cleared[i as int].1.len() implies !same_pos(
                    #[trigger] cleared[i as int].1[k],
                    p,
                ) by {
                    if same_pos(cleared[i as int].1[k], p) {
                        assert(has_pos(cleared[i as int].1, p.0 as int, p.1 as int));
                    }
                }
                lemma_insertion_index_bounds(cleared[i as int].1, p);
            }
            let j = find_insert_index(&layer.kinds[i].1, p);
            layer.kinds[i].1.insert(j, p);
            proof {
                assert(layer.view_kinds() =~= cleared.update(
                    i as int,
                    (tile@, insert_cell(cleared[i as int].1, p)),
                ));
            }
        },
        None => {
            proof {
                if has_kind(cleared, tile@) {
                    let ki = kind_index(cleared, tile@);
                    assert(0 <= ki < cleared.len() && cleared[ki].0 == tile@);
                    assert((layer.kinds@[ki]).0@ == tile@);
                    assert(false);
                }
            }
            let mut cells: Vec<Point> = Vec::new();
            cells.push(p);
            layer.kinds.push((tile_string, cells));
            proof {
                assert(layer.view_kinds() =~= cleared.push((tile@, seq![p])));
            }
        },
    }
}

/// The view after making sure a kind of this name exists: unchanged when
/// present, else the kind is appended with no cells.
pub open spec fn view_ensure_kind(lv: Seq<(Seq<char>, Seq<Point>)>, name: Seq<char>) -> Seq<
    (Seq<char>, Seq<Point>),
> {
    if has_kind(lv, name) {
        lv
    } else {
        lv.push((name, Seq::empty()))
    }
}

/// Makes sure the layer has a kind of this name, appending an empty one
/// when absent: a loaded document keeps a kind even when its cell list is
/// empty.
pub fn ensure_kind(layer: &mut Layer, name: &String)
    requires
        layer_wf(old(layer).view_kinds()),
    ensures
        final(layer).view_kinds() == view_ensure_kind(old(layer).view_kinds(), name@),
        layer_wf(final(layer).view_kinds()),
        has_kind(final(layer).view_kinds(), name@),
        forall|u: Seq<char>|
            has_kind(final(layer).view_kinds(), u) <==> has_kind(old(layer).view_kinds(), u) || u
                == name@,
{
    let ghost old_view = layer.view_kinds();
    match find_kind(layer, name) {
        Some(i) => {
            proof {
                assert((old_view[i as int]).0 == name@);
                assert(has_kind(old_view, name@));
            }
        },
        None => {
            proof {
                if has_kind(old_view, name@) {
                    let ki = kind_index(old_view, name@);
                    assert((layer.kinds@[ki]).0@ == name@);
                    assert(false);
                }
            }
            let cells: Vec<Point> = Vec::new();
            layer.kinds.push((name.clone(), cells));
            proof {
                let res = layer.view_kinds();
                let n = old_view.len() as int;
                assert(res =~= old_view.push((name@, Seq::empty())));
                assert(res[n].0 == name@);
                assert(has_kind(res, name@));
                assert(names_unique(res)) by {
                    assert forall|i1: int, i2: int|
                        #![trigger res[i1], res[i2]]
                        0 <= i1 < i2 < res.len() implies res[i1].0 != res[i2].0 by {
                        if i2 == n {
                            if res[i1].0 == name@ {
                                assert(old_view[i1].0 == name@);
                                assert(has_kind(old_view, name@));
                            }
                        } else {
                            assert(res[i1] == old_view[i1] && res[i2] == old_view[i2]);
                        }
                    }
                }
                assert(all_cells_sorted(res)) by {
                    assert forall|k: int| 0 <= k < res.len() implies cells_sorted(
                        (#[trigger] res[k]).1,
                    ) by {
                        if k < n {
                            assert(res[k] == old_view[k]);
                        } else {
                            assert(res[k].1.len() == 0);
                        }
                    }
                }
                assert(positions_disjoint(res)) by {
                    assert forall|a: int, b: int, i1: int, i2: int|
                        0 <= i1 < res.len() && 0 <= i2 < res.len() && #[trigger] has_pos(
                            res[i1].1,
                            a,
                            b,
                        ) && #[trigger] has_pos(res[i2].1, a, b) implies i1 == i2 by {
                        assert(!has_pos(Seq::<Point>::empty(), a, b));
                        assert(i1 < n && i2 < n);
                        assert(has_pos(old_view[i1].1, a, b) && has_pos(old_view[i2].1, a, b));
                    }
                }
                assert forall|u: Seq<char>| has_kind(res, u) implies has_kind(old_view, u) || u
                    == name@ by {
                    let k = choose|k: int| 0 <= k < res.len() && (#[trigger] res[k]).0 == u;
                    if k < n {
                        assert(old_view[k].0 == u);
                    }
                }
                assert forall|u: Seq<char>| has_kind(old_view, u) implies has_kind(res, u) by {
                    let k = choose|k: int| 0 <= k < old_view.len() && (#[trigger] old_view[k]).0
                        == u;
                    assert(res[k].0 == u);
                }
            }
        },
    }
}

/// Painting one position with tile kind `a` and then with a different kind
/// `b` leaves the position occupied by `b` and absent from `a`: the single
/// occupant invariant, stated over any well-formed layer and any two cells
/// at the same position.
pub proof fn lemma_paint_single_occupant(
    lv: Seq<(Seq<char>, Seq<Point>)>,
    a: Seq<char>,
    b: Seq<char>,
    p: Point,
    q: Point,
)
    requires
        layer_wf(lv),
        a != b,
        same_pos(p, q),
    ensures
        has_pos(kind_cells(view_paint(view_paint(lv, a, p), b, q), b), q.0 as int, q.1 as int),
        has_kind(view_paint(view_paint(lv, a, p), b, q), a),
        !has_pos(kind_cells(view_paint(view_paint(lv, a, p), b, q), a), q.0 as int, q.1 as int),
{
    let lv1 = view_paint(lv, a, p);
    let lv2 = view_paint(lv1, b, q);
    lemma_view_paint_wf(lv, a, p);
    lemma_view_paint_wf(lv1, b, q);
    let ia = kind_index(lv2, a);
    assert(has_kind(lv1, a));
    assert(has_kind(lv2, a));
    assert(0 <= ia < lv2.len() && lv2[ia].0 == a);
    assert(!has_pos(lv2[ia].1, q.0 as int, q.1 as int));
}

/// Erasing a position leaves it absent from every tile kind's cell list in
/// the layer, whatever sequence of paints came before.
pub proof fn lemma_erase_clears_position(lv: Seq<(Seq<char>, Seq<Point>)>, x: int, y: int)
    ensures
        forall|i: int|
            0 <= i < view_erase(lv, x, y).len() ==> !has_pos(
                (#[trigger] view_erase(lv, x, y)[i]).1,
                x,
                y,
            ),
{
    lemma_view_erase_wf(lv, x, y);
}

} // verus!
