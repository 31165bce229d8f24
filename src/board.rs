//! A board of hexagons and its drawing.
use std::collections::BTreeMap;
use vstd::prelude::*;
use vstd::std_specs::iter::IteratorSpec;

use crate::grid::{
    grid_view, lemma_grid_view_insert, flatten, render_char_map, span, max_col, max_row,
    is_max_col, is_max_row, lemma_max_col_unique, lemma_max_row_unique, lemma_text_cell,
};
use crate::layout::{
    LEFT_BRACKET, RIGHT_BRACKET, to_cartesian, corner, outline, stamp, paint, placed, center,
    lemma_stamp, lemma_center_inverse, lemma_placed_insert, shift, lemma_placed_shift,
    lemma_read_back, lemma_paint_near, at,
};

verus! {

broadcast use vstd::std_specs::btree::group_btree_axioms, vstd::laws_cmp::group_laws_cmp;

/// A machine position as a mathematical one.
spec fn pos(p: (i64, i64)) -> (int, int) {
    (p.0 as int, p.1 as int)
}

/// Converts hexagonal coordinates to cartesian ones; see [`to_cartesian`].
fn hexagonal_to_cartesian(h: (i32, i32)) -> (r: (i64, i64))
    ensures
        pos(r) == to_cartesian((h.0 as int, h.1 as int)),
{
    (-5 * (h.0 as i64) + 5 * (h.1 as i64), -(h.0 as i64) - (h.1 as i64))
}

/// Puts `ch` at `p`.
fn put(out: &mut BTreeMap<(i64, i64), char>, p: (i64, i64), ch: char)
    ensures
        grid_view(final(out)@) == grid_view(old(out)@).insert(pos(p), ch),
{
    out.insert(p, ch);
    proof {
        lemma_grid_view_insert(old(out)@, p, ch);
    }
}

/// Proposes the diagonal `single` at the corner `p`; see [`corner`].
fn put_corner(out: &mut BTreeMap<(i64, i64), char>, p: (i64, i64), single: char, multiple: char)
    ensures
        grid_view(final(out)@) == corner(grid_view(old(out)@), pos(p), single, multiple),
{
    let ghost g = grid_view(out@);
    assert(g.contains_key(pos(p)) == out@.contains_key(p));
    match out.get(&p) {
        None => {
            put(out, p, single);
        },
        Some(c) => {
            assert(g[pos(p)] == *c);
            if *c == LEFT_BRACKET || *c == RIGHT_BRACKET {
            } else {
                put(out, p, multiple);
            }
        },
    }
}

/// Draws the hexagon centered at `c` and showing `ch` into `out`.
fn put_hexagon(out: &mut BTreeMap<(i64, i64), char>, c: (i64, i64), ch: char)
    requires
        i64::MIN + 3 <= c.0 <= i64::MAX - 3,
        i64::MIN + 1 <= c.1 <= i64::MAX - 1,
    ensures
        grid_view(final(out)@) == stamp(grid_view(old(out)@), pos(c), ch),
{
    let ghost c0 = pos(c);
    let ghost g0 = grid_view(out@);
    put(out, c, ch);
    put(out, (c.0 - 1, c.1 + 1), '-');
    put(out, (c.0, c.1 + 1), '-');
    put(out, (c.0 + 1, c.1 + 1), '-');
    put(out, (c.0 - 3, c.1), LEFT_BRACKET);
    put(out, (c.0 + 3, c.1), RIGHT_BRACKET);
    put(out, (c.0 - 1, c.1 - 1), '-');
    put(out, (c.0, c.1 - 1), '-');
    put(out, (c.0 + 1, c.1 - 1), '-');
    assert(grid_view(out@) == outline(g0, c0, ch));
    put_corner(out, (c.0 - 2, c.1 + 1), '\\', RIGHT_BRACKET);
    put_corner(out, (c.0 + 2, c.1 + 1), '/', LEFT_BRACKET);
    put_corner(out, (c.0 - 2, c.1 - 1), '/', RIGHT_BRACKET);
    put_corner(out, (c.0 + 2, c.1 - 1), '\\', LEFT_BRACKET);
}

/// The board's hexagons, keyed by mathematical coordinates.
pub open spec fn hexes(cs: Map<(i32, i32), char>) -> Map<(int, int), char> {
    Map::new(
        |h: (int, int)|
            i32::MIN <= h.0 <= i32::MAX && i32::MIN <= h.1 <= i32::MAX && cs.contains_key(
                (h.0 as i32, h.1 as i32),
            ),
        |h: (int, int)| cs[(h.0 as i32, h.1 as i32)],
    )
}

/// `m` is the largest `q - r` over the hexagons `(q, r)` in `dom`.
pub open spec fn is_max_diff(dom: Set<(i32, i32)>, m: int) -> bool {
    &&& exists|h: (i32, i32)| #[trigger] dom.contains(h) && h.0 - h.1 == m
    &&& forall|h: (i32, i32)| #[trigger] dom.contains(h) ==> h.0 - h.1 <= m
}

/// `m` is the largest `q + r` over the hexagons `(q, r)` in `dom`.
pub open spec fn is_max_sum(dom: Set<(i32, i32)>, m: int) -> bool {
    &&& exists|h: (i32, i32)| #[trigger] dom.contains(h) && h.0 + h.1 == m
    &&& forall|h: (i32, i32)| #[trigger] dom.contains(h) ==> h.0 + h.1 <= m
}

/// The largest `q - r` on the board; 0 for an empty board.
pub open spec fn max_diff(dom: Set<(i32, i32)>) -> int {
    if dom.is_empty() {
        0
    } else {
        choose|m: int| is_max_diff(dom, m)
    }
}

/// The largest `q + r` on the board; 0 for an empty board.
pub open spec fn max_sum(dom: Set<(i32, i32)>) -> int {
    if dom.is_empty() {
        0
    } else {
        choose|m: int| is_max_sum(dom, m)
    }
}

/// The shift that puts the leftmost hexagon's left bracket in column 0 and the topmost
/// hexagon's top border in row 0.
pub open spec fn origin(dom: Set<(i32, i32)>) -> (int, int) {
    (5 * max_diff(dom) + 3, max_sum(dom) + 1)
}

/// The glyph grid of a board whose hexagons show the characters `cs`.
pub open spec fn layout(cs: Map<(i32, i32), char>) -> Map<(int, int), char> {
    paint(placed(hexes(cs), origin(cs.dom())))
}

/// The text drawing of a board whose hexagons show the characters `cs`.
pub open spec fn drawing(cs: Map<(i32, i32), char>) -> Seq<char> {
    flatten(layout(cs))
}

proof fn lemma_max_diff_unique(dom: Set<(i32, i32)>, m: int)
    requires
        is_max_diff(dom, m),
    ensures
        max_diff(dom) == m,
{
    let h = choose|h: (i32, i32)| #[trigger] dom.contains(h) && h.0 - h.1 == m;
    assert(!dom.is_empty()) by {
        assert(dom.contains(h));
    }
    let c = max_diff(dom);
    assert(is_max_diff(dom, c));
    let k = choose|h: (i32, i32)| #[trigger] dom.contains(h) && h.0 - h.1 == c;
}

proof fn lemma_max_sum_unique(dom: Set<(i32, i32)>, m: int)
    requires
        is_max_sum(dom, m),
    ensures
        max_sum(dom) == m,
{
    let h = choose|h: (i32, i32)| #[trigger] dom.contains(h) && h.0 + h.1 == m;
    assert(!dom.is_empty()) by {
        assert(dom.contains(h));
    }
    let c = max_sum(dom);
    assert(is_max_sum(dom, c));
    let k = choose|h: (i32, i32)| #[trigger] dom.contains(h) && h.0 + h.1 == c;
}

proof fn lemma_hexes_insert(cs: Map<(i32, i32), char>, k: (i32, i32), ch: char)
    ensures
        hexes(cs.insert(k, ch)) == hexes(cs).insert((k.0 as int, k.1 as int), ch),
{
    assert(hexes(cs.insert(k, ch)) =~= hexes(cs).insert((k.0 as int, k.1 as int), ch));
}

/// The board that a list of entries builds, the later of two equal coordinates winning.
pub open spec fn entries_map<T>(s: Seq<((i32, i32), T)>) -> Map<(i32, i32), T>
    decreases s.len(),
{
    if s.len() == 0 {
        Map::empty()
    } else {
        entries_map(s.drop_last()).insert(s.last().0, s.last().1)
    }
}

/// `char::from` on `T` follows its stated meaning.
pub open spec fn converts<T>() -> bool
    where
        char: From<T>,
{
    <char as vstd::std_specs::convert::FromSpec<T>>::obeys_from_spec()
}

/// `c` is a character that `char::from` may return for `t`.
pub open spec fn from_gives<T>(t: T, c: char) -> bool
    where
        char: From<T>,
{
    call_ensures(char::from, (t,), c)
}

/// The character that `char::from` makes of `t`.
pub open spec fn char_of<T>(t: T) -> char
    where
        char: From<T>,
{
    <char as vstd::std_specs::convert::FromSpec<T>>::from_spec(t)
}

/// Drawing one more hexagon over a board's grid gives the grid of the larger board.
proof fn lemma_add_hexagon(done: Map<(i32, i32), char>, k: (i32, i32), ch: char, off: (int, int))
    requires
        !done.contains_key(k),
    ensures
        paint(placed(hexes(done.insert(k, ch)), off)) == stamp(
            paint(placed(hexes(done), off)),
            center((k.0 as int, k.1 as int), off),
            ch,
        ),
{
    let h = (k.0 as int, k.1 as int);
    let hs = hexes(done);
    assert(!hs.contains_key(h));
    lemma_center_inverse(h, off);
    lemma_placed_insert(hs, off, h, ch);
    lemma_stamp(placed(hs, off), off, center(h, off), ch);
    lemma_hexes_insert(done, k, ch);
}

proof fn lemma_max_exists(dom: Set<(i32, i32)>)
    requires
        dom.finite(),
        !dom.is_empty(),
    ensures
        exists|m: int| is_max_diff(dom, m),
        exists|m: int| is_max_sum(dom, m),
    decreases dom.len(),
{
    let h = dom.choose();
    assert(dom.contains(h));
    let rest = dom.remove(h);
    if rest.is_empty() {
        assert forall|k: (i32, i32)| #[trigger] dom.contains(k) implies k == h by {
            if k != h {
                assert(rest.contains(k));
            }
        }
        assert(is_max_diff(dom, h.0 - h.1));
        assert(is_max_sum(dom, h.0 + h.1));
    } else {
        assert(rest.len() < dom.len()) by {
            assert(dom.len() == rest.len() + 1);
        }
        lemma_max_exists(rest);
        let md = choose|m: int| is_max_diff(rest, m);
        let ms = choose|m: int| is_max_sum(rest, m);
        let kd = choose|k: (i32, i32)| #[trigger] rest.contains(k) && k.0 - k.1 == md;
        let ks = choose|k: (i32, i32)| #[trigger] rest.contains(k) && k.0 + k.1 == ms;
        assert(dom.contains(kd) && dom.contains(ks));
        let d = if h.0 - h.1 > md {
            h.0 - h.1
        } else {
            md
        };
        let t = if h.0 + h.1 > ms {
            h.0 + h.1
        } else {
            ms
        };
        assert forall|k: (i32, i32)| #[trigger] dom.contains(k) implies k.0 - k.1 <= d && k.0
            + k.1 <= t by {
            if k != h {
                assert(rest.contains(k));
            }
        }
        assert(is_max_diff(dom, d));
        assert(is_max_sum(dom, t));
    }
}

/// `m` is the smallest `q - r` over the hexagons `(q, r)` in `dom`.
spec fn is_min_diff(dom: Set<(i32, i32)>, m: int) -> bool {
    &&& exists|h: (i32, i32)| #[trigger] dom.contains(h) && h.0 - h.1 == m
    &&& forall|h: (i32, i32)| #[trigger] dom.contains(h) ==> h.0 - h.1 >= m
}

/// `m` is the smallest `q + r` over the hexagons `(q, r)` in `dom`.
spec fn is_min_sum(dom: Set<(i32, i32)>, m: int) -> bool {
    &&& exists|h: (i32, i32)| #[trigger] dom.contains(h) && h.0 + h.1 == m
    &&& forall|h: (i32, i32)| #[trigger] dom.contains(h) ==> h.0 + h.1 >= m
}

proof fn lemma_min_exists(dom: Set<(i32, i32)>)
    requires
        dom.finite(),
        !dom.is_empty(),
    ensures
        exists|m: int| is_min_diff(dom, m),
        exists|m: int| is_min_sum(dom, m),
    decreases dom.len(),
{
    let h = dom.choose();
    assert(dom.contains(h));
    let rest = dom.remove(h);
    if rest.is_empty() {
        assert forall|k: (i32, i32)| #[trigger] dom.contains(k) implies k == h by {
            if k != h {
                assert(rest.contains(k));
            }
        }
        assert(is_min_diff(dom, h.0 - h.1));
        assert(is_min_sum(dom, h.0 + h.1));
    } else {
        assert(rest.len() < dom.len()) by {
            assert(dom.len() == rest.len() + 1);
        }
        lemma_min_exists(rest);
        let md = choose|m: int| is_min_diff(rest, m);
        let ms = choose|m: int| is_min_sum(rest, m);
        let kd = choose|k: (i32, i32)| #[trigger] rest.contains(k) && k.0 - k.1 == md;
        let ks = choose|k: (i32, i32)| #[trigger] rest.contains(k) && k.0 + k.1 == ms;
        assert(dom.contains(kd) && dom.contains(ks));
        let d = if h.0 - h.1 < md {
            h.0 - h.1
        } else {
            md
        };
        let t = if h.0 + h.1 < ms {
            h.0 + h.1
        } else {
            ms
        };
        assert forall|k: (i32, i32)| #[trigger] dom.contains(k) implies k.0 - k.1 >= d && k.0
            + k.1 >= t by {
            if k != h {
                assert(rest.contains(k));
            }
        }
        assert(is_min_diff(dom, d));
        assert(is_min_sum(dom, t));
    }
}

proof fn lemma_layout_bounded(cs: Map<(i32, i32), char>, nd: int, ns: int, p: (int, int))
    requires
        is_min_diff(cs.dom(), nd),
        is_min_sum(cs.dom(), ns),
        layout(cs).contains_key(p),
        is_max_diff(cs.dom(), max_diff(cs.dom())),
        is_max_sum(cs.dom(), max_sum(cs.dom())),
    ensures
        p.0 <= 5 * (max_diff(cs.dom()) - nd) + 6,
        p.1 <= max_sum(cs.dom()) - ns + 2,
{
    let hs = hexes(cs);
    let off = origin(cs.dom());
    lemma_paint_near(hs, off, p);
    let h = choose|h: (int, int)|
        #[trigger] hs.contains_key(h) && -3 <= p.0 - center(h, off).0 <= 3 && -1 <= p.1 - center(
            h,
            off,
        ).1 <= 1;
    assert(cs.dom().contains((h.0 as i32, h.1 as i32)));
}

/// The largest column and row that a nonempty board draws.
#[verifier::rlimit(40)]
proof fn lemma_layout_extent(cs: Map<(i32, i32), char>, nd: int, ns: int)
    requires
        is_min_diff(cs.dom(), nd),
        is_min_sum(cs.dom(), ns),
        is_max_diff(cs.dom(), max_diff(cs.dom())),
        is_max_sum(cs.dom(), max_sum(cs.dom())),
    ensures
        max_col(layout(cs)) == 5 * (max_diff(cs.dom()) - nd) + 6,
        max_row(layout(cs)) == max_sum(cs.dom()) - ns + 2,
{
    let dom = cs.dom();
    let g = layout(cs);
    let mx = 5 * (max_diff(dom) - nd) + 6;
    let my = max_sum(dom) - ns + 2;
    assert forall|p: (int, int)| #[trigger] g.contains_key(p) implies p.0 <= mx && p.1 <= my by {
        lemma_layout_bounded(cs, nd, ns, p);
    }
    let pd = lemma_extent_col_witness(cs, nd);
    let ps = lemma_extent_row_witness(cs, ns);
    assert(is_max_col(g, mx));
    assert(is_max_row(g, my));
    lemma_max_col_unique(g, mx);
    lemma_max_row_unique(g, my);
}

proof fn lemma_extent_col_witness(cs: Map<(i32, i32), char>, nd: int) -> (p: (int, int))
    requires
        is_min_diff(cs.dom(), nd),
    ensures
        layout(cs).contains_key(p),
        p.0 == 5 * (max_diff(cs.dom()) - nd) + 6,
{
    let dom = cs.dom();
    let off = origin(dom);
    let kd = choose|h: (i32, i32)| #[trigger] dom.contains(h) && h.0 - h.1 == nd;
    let hd = (kd.0 as int, kd.1 as int);
    assert(hexes(cs).contains_key(hd));
    lemma_read_back(hexes(cs), off, hd);
    at(center(hd, off), 3, 0)
}

proof fn lemma_extent_row_witness(cs: Map<(i32, i32), char>, ns: int) -> (p: (int, int))
    requires
        is_min_sum(cs.dom(), ns),
    ensures
        layout(cs).contains_key(p),
        p.1 == max_sum(cs.dom()) - ns + 2,
{
    let dom = cs.dom();
    let off = origin(dom);
    let ks = choose|h: (i32, i32)| #[trigger] dom.contains(h) && h.0 + h.1 == ns;
    let hsum = (ks.0 as int, ks.1 as int);
    assert(hexes(cs).contains_key(hsum));
    lemma_read_back(hexes(cs), off, hsum);
    at(center(hsum, off), 0, 1)
}

/// Each hexagon's character is read back from the text drawing at its center: column `x`
/// of row `y` stands at `y * (width + 1) + x`, where `width` is the number of columns.
pub proof fn lemma_text_read_back(cs: Map<(i32, i32), char>, k: (i32, i32))
    requires
        cs.dom().finite(),
        cs.contains_key(k),
    ensures
        ({
            let g = layout(cs);
            let c = center((k.0 as int, k.1 as int), origin(cs.dom()));
            let width = span(max_col(g));
            &&& 0 <= c.0 < width
            &&& 0 <= c.1 < span(max_row(g))
            &&& drawing(cs)[c.1 * (width + 1) + c.0] == cs[k]
        }),
{
    let dom = cs.dom();
    let hs = hexes(cs);
    assert(dom.contains(k));
    lemma_max_exists(dom);
    lemma_min_exists(dom);
    let md = choose|m: int| is_max_diff(dom, m);
    let ms = choose|m: int| is_max_sum(dom, m);
    let nd = choose|m: int| is_min_diff(dom, m);
    let ns = choose|m: int| is_min_sum(dom, m);
    lemma_max_diff_unique(dom, md);
    lemma_max_sum_unique(dom, ms);
    let off = origin(dom);
    let g = layout(cs);
    let hk = (k.0 as int, k.1 as int);
    assert(hs.contains_key(hk));
    lemma_read_back(hs, off, hk);
    lemma_layout_extent(cs, nd, ns);
    let mx = 5 * (md - nd) + 6;
    let my = ms - ns + 2;
    let c = center(hk, off);
    assert(!g.dom().is_empty()) by {
        assert(g.dom().contains(c));
    }
    lemma_text_cell(g, span(mx), span(my), c.0, c.1);
}

/// Translating every hexagon of a board by the same step `(a, b)` leaves its grid, and so
/// its text drawing, unchanged.
pub proof fn lemma_translation(cs: Map<(i32, i32), char>, moved: Map<(i32, i32), char>, a: int, b: int)
    requires
        cs.dom().finite(),
        hexes(moved) == shift(hexes(cs), a, b),
    ensures
        layout(moved) == layout(cs),
        drawing(moved) == drawing(cs),
{
    let hs = hexes(cs);
    if cs.dom().is_empty() {
        assert forall|k: (i32, i32)| !moved.contains_key(k) by {
            if moved.contains_key(k) {
                assert(hexes(moved).contains_key((k.0 as int, k.1 as int)));
                let j = ((k.0 - a) as i32, (k.1 - b) as i32);
                assert(cs.contains_key(j));
            }
        }
        assert(moved.dom() =~= Set::empty());
        assert(hexes(moved) =~= hexes(cs));
    } else {
        lemma_max_exists(cs.dom());
        let md = choose|m: int| is_max_diff(cs.dom(), m);
        let ms = choose|m: int| is_max_sum(cs.dom(), m);
        lemma_max_diff_unique(cs.dom(), md);
        lemma_max_sum_unique(cs.dom(), ms);
        let kd = choose|k: (i32, i32)| #[trigger] cs.dom().contains(k) && k.0 - k.1 == md;
        let ks = choose|k: (i32, i32)| #[trigger] cs.dom().contains(k) && k.0 + k.1 == ms;
        assert(hs.contains_key((kd.0 as int, kd.1 as int)));
        assert(hs.contains_key((ks.0 as int, ks.1 as int)));
        let kd2 = (kd.0 + a, kd.1 + b);
        let ks2 = (ks.0 + a, ks.1 + b);
        assert(hexes(moved).contains_key(kd2));
        assert(hexes(moved).contains_key(ks2));
        assert(moved.dom().contains((kd2.0 as i32, kd2.1 as i32)));
        assert(moved.dom().contains((ks2.0 as i32, ks2.1 as i32)));
        assert forall|k: (i32, i32)| #[trigger] moved.dom().contains(k) implies k.0 - k.1 <= md
            + a - b && k.0 + k.1 <= ms + a + b by {
            assert(hexes(moved).contains_key((k.0 as int, k.1 as int)));
            let j = ((k.0 - a) as i32, (k.1 - b) as i32);
            assert(cs.dom().contains(j));
        }
        assert(is_max_diff(moved.dom(), md + a - b));
        assert(is_max_sum(moved.dom(), ms + a + b));
        lemma_max_diff_unique(moved.dom(), md + a - b);
        lemma_max_sum_unique(moved.dom(), ms + a + b);
        let off = origin(cs.dom());
        assert(origin(moved.dom()) == (off.0 + 5 * (a - b), off.1 + a + b));
        lemma_placed_shift(hs, a, b, off);
    }
}

/// A board composed of hexagons: each hexagonal coordinate `(q, r)` holds at most one
/// value. The basis `(1, 0)` is the hexagon to the left and up, `(0, 1)` the one to the
/// right and up.
#[derive(Debug, Clone)]
pub struct HexagonalBoard<T> {
    values: BTreeMap<(i32, i32), T>,
}

impl<T> View for HexagonalBoard<T> {
    type V = Map<(i32, i32), T>;

    closed spec fn view(&self) -> Map<(i32, i32), T> {
        self.values@
    }
}

impl<T> Default for HexagonalBoard<T> {
    /// The board with no hexagon.
    fn default() -> (r: Self)
        ensures
            r@ == Map::<(i32, i32), T>::empty(),
            r@.dom().finite(),
    {
        Self::new()
    }
}

impl<T> HexagonalBoard<T> {
    /// A board with no hexagon.
    pub fn new() -> (r: Self)
        ensures
            r@ == Map::<(i32, i32), T>::empty(),
            r@.dom().finite(),
    {
        HexagonalBoard { values: BTreeMap::new() }
    }

    /// Puts `value` at `pos`, replacing what was there.
    pub fn insert(&mut self, pos: (i32, i32), value: T)
        ensures
            final(self)@ == old(self)@.insert(pos, value),
            final(self)@.dom().finite(),
    {
        self.values.insert(pos, value);
    }

    /// A board holding the given entries; where a coordinate comes twice, the later value
    /// wins.
    pub fn from_entries(entries: Vec<((i32, i32), T)>) -> (r: Self)
        ensures
            r@ == entries_map(entries@),
            r@.dom().finite(),
    {
        let mut board = Self::new();
        let ghost s = entries@;
        for e in it: entries.into_iter()
            invariant
                it.seq() == s,
                board@ == entries_map(s.take(it.index())),
        {
            let (pos, value) = e;
            proof {
                assert(s.take(it.index() + 1).drop_last() =~= s.take(it.index()));
            }
            board.insert(pos, value);
        }
        proof {
            assert(s.take(s.len() as int) =~= s);
        }
        board
    }

    /// The largest `q - r` and `q + r` on the board, each 0 for an empty board.
    fn bounds(&self) -> (r: (i64, i64))
        ensures
            r.0 == max_diff(self@.dom()),
            r.1 == max_sum(self@.dom()),
            forall|h: (i32, i32)| #[trigger]
                self@.contains_key(h) ==> h.0 - h.1 <= r.0 && h.0 + h.1 <= r.1,
            -0x1_0000_0000 <= r.0 <= 0x1_0000_0000,
            -0x1_0000_0000 <= r.1 <= 0x1_0000_0000,
    {
        let ghost s = self.values.iter().remaining();
        let ghost mut n: int = 0;
        let ghost mut kd: (i32, i32) = (0, 0);
        let ghost mut ks: (i32, i32) = (0, 0);
        let mut any = false;
        let mut md: i64 = 0;
        let mut ms: i64 = 0;
        for e in it: self.values.iter()
            invariant
                it.seq() == s,
                n == it.index(),
                any <==> n > 0,
                any ==> self@.contains_key(kd) && kd.0 - kd.1 == md,
                any ==> self@.contains_key(ks) && ks.0 + ks.1 == ms,
                -0x1_0000_0000 <= md <= 0x1_0000_0000,
                -0x1_0000_0000 <= ms <= 0x1_0000_0000,
                forall|i: int|
                    0 <= i < n ==> (*s[i].0).0 - (*s[i].0).1 <= md && (*s[i].0).0 + (*s[i].0).1
                        <= ms,
        {
            let (k, _v) = e;
            let d = k.0 as i64 - k.1 as i64;
            let t = k.0 as i64 + k.1 as i64;
            if !any || d > md {
                md = d;
                proof {
                    kd = *k;
                }
            }
            if !any || t > ms {
                ms = t;
                proof {
                    ks = *k;
                }
            }
            any = true;
            proof {
                n = n + 1;
            }
        }
        assert(n == s.len());
        let ghost dom = self@.dom();
        if !any {
            proof {
                dom.lemma_len0_is_empty();
            }
            return (0, 0);
        }
        proof {
            assert forall|h: (i32, i32)| #[trigger] dom.contains(h) implies h.0 - h.1 <= md && h.0
                + h.1 <= ms by {
                assert(s.contains((&h, &self@[h])));
            }
            assert(dom.contains(kd));
            assert(dom.contains(ks));
            lemma_max_diff_unique(dom, md as int);
            lemma_max_sum_unique(dom, ms as int);
        }
        (md, ms)
    }

    /// The glyph of every drawn position: each hexagon's character (given by `into_char`) at
    /// its center, its border around it, and the joining brackets where hexagons touch.
    /// The grid is the same whatever order the board keeps its hexagons in.
    pub fn char_map<F: Fn(&T) -> char>(&self, into_char: F) -> (r: BTreeMap<(i64, i64), char>)
        requires
            forall|t: &T| #[trigger] into_char.requires((t,)),
        ensures
            exists|cs: Map<(i32, i32), char>|
                {
                    &&& cs.dom() == self@.dom()
                    &&& forall|k: (i32, i32)| #[trigger]
                        cs.contains_key(k) ==> into_char.ensures((&self@[k],), cs[k])
                    &&& grid_view(r@) == layout(cs)
                },
    {
        let (md, ms) = self.bounds();
        let ghost off = origin(self@.dom());
        let mut out: BTreeMap<(i64, i64), char> = BTreeMap::new();
        let ghost s = self.values.iter().remaining();
        let ghost mut n: int = 0;
        let ghost mut done: Map<(i32, i32), char> = Map::empty();
        proof {
            assert(grid_view(out@) =~= paint(placed(hexes(done), off)));
        }
        for e in it: self.values.iter()
            invariant
                it.seq() == s,
                n == it.index(),
                s.no_duplicates(),
                off == origin(self@.dom()),
                off == (5 * md + 3, ms + 1),
                forall|h: (i32, i32)| #[trigger]
                    self@.contains_key(h) ==> h.0 - h.1 <= md && h.0 + h.1 <= ms,
                -0x1_0000_0000 <= md <= 0x1_0000_0000,
                -0x1_0000_0000 <= ms <= 0x1_0000_0000,
                forall|k: (i32, i32)| #[trigger]
                    done.contains_key(k) <==> exists|i: int| 0 <= i < n && *s[i].0 == k,
                forall|k: (i32, i32)| #[trigger]
                    done.contains_key(k) ==> into_char.ensures((&self@[k],), done[k]),
                forall|t: &T| #[trigger] into_char.requires((t,)),
                grid_view(out@) == paint(placed(hexes(done), off)),
        {
            let (k, v) = e;
            let ch = into_char(v);
            assert(self@.contains_key(*k));
            let cart = hexagonal_to_cartesian(*k);
            let c: (i64, i64) = (cart.0 + 5 * md + 3, cart.1 + ms + 1);
            proof {
                assert(!done.contains_key(*k)) by {
                    if done.contains_key(*k) {
                        let i = choose|i: int| 0 <= i < n && *s[i].0 == *k;
                        assert(s[i] == s[n]);
                    }
                }
                assert(pos(c) == center((k.0 as int, k.1 as int), off));
                lemma_add_hexagon(done, *k, ch, off);
            }
            put_hexagon(&mut out, c, ch);
            proof {
                done = done.insert(*k, ch);
                n = n + 1;
            }
        }
        assert(n == s.len());
        proof {
            assert forall|k: (i32, i32)| done.contains_key(k) <==> self@.contains_key(k) by {
                if self@.contains_key(k) {
                    assert(s.contains((&k, &self@[k])));
                }
            }
            assert(done.dom() =~= self@.dom());
        }
        out
    }

    /// The text drawing of the board, each value shown as `into_char` gives it: the grid of
    /// [`Self::char_map`] written out row by row.
    pub fn render_with<F: Fn(&T) -> char>(&self, into_char: F) -> (r: String)
        requires
            forall|t: &T| #[trigger] into_char.requires((t,)),
        ensures
            exists|cs: Map<(i32, i32), char>|
                {
                    &&& cs.dom() == self@.dom()
                    &&& forall|k: (i32, i32)| #[trigger]
                        cs.contains_key(k) ==> into_char.ensures((&self@[k],), cs[k])
                    &&& r@ == drawing(cs)
                },
    {
        let g = self.char_map(into_char);
        render_char_map(g)
    }

    /// The text drawing of the board, each value converted to its character.
    pub fn render(&self) -> (r: String)
        where
            char: From<T>,
            T: Copy,
        ensures
            exists|cs: Map<(i32, i32), char>|
                {
                    &&& cs.dom() == self@.dom()
                    &&& forall|k: (i32, i32)| #[trigger]
                        cs.contains_key(k) ==> from_gives(self@[k], cs[k])
                    &&& r@ == drawing(cs)
                },
            self@.dom().is_empty() ==> r@ == Seq::<char>::empty(),
            converts::<T>() ==> r@ == drawing(self@.map_values(|t: T| char_of(t))),
    {
        let conv = |t: &T| -> (c: char)
            ensures
                from_gives(*t, c),
                converts::<T>() ==> c == char_of(*t),
            {
                char::from(*t)
            };
        let r = self.render_with(conv);
        proof {
            let cs = choose|cs: Map<(i32, i32), char>|
                {
                    &&& cs.dom() == self@.dom()
                    &&& forall|k: (i32, i32)| #[trigger]
                        cs.contains_key(k) ==> conv.ensures((&self@[k],), cs[k])
                    &&& r@ == drawing(cs)
                };
            assert forall|k: (i32, i32)| #[trigger]
                cs.contains_key(k) implies from_gives(self@[k], cs[k]) by {
                assert(conv.ensures((&self@[k],), cs[k]));
            }
            if self@.dom().is_empty() {
                assert(cs =~= Map::empty());
                lemma_empty_drawing();
            }
            if converts::<T>() {
                let want = self@.map_values(|t: T| char_of(t));
                assert(cs =~= want);
            }
        }
        r
    }
}

/// The empty board draws nothing.
pub proof fn lemma_empty_drawing()
    ensures
        layout(Map::empty()) == Map::<(int, int), char>::empty(),
        drawing(Map::empty()) == Seq::<char>::empty(),
{
    let cs = Map::<(i32, i32), char>::empty();
    assert(hexes(cs) =~= Map::empty());
    assert(placed(hexes(cs), origin(cs.dom())) =~= Map::empty());
    assert(layout(cs) =~= Map::empty());
    assert(layout(cs).dom() =~= Set::empty());
}

/// Every board holds finitely many hexagons.
pub proof fn lemma_board_finite<T>(board: &HexagonalBoard<T>)
    ensures
        board@.dom().finite(),
{
}

} // verus!
