//! Where each hexagon's glyphs go, stated over mathematical positions.
use vstd::prelude::*;

verus! {

/// Opening bracket on the left side of a hexagon.
pub const LEFT_BRACKET: char = '⟨';

/// Closing bracket on the right side of a hexagon.
pub const RIGHT_BRACKET: char = '⟩';

/// Cartesian position of a hexagon's center before the origin is moved: one step along the
/// first axis goes five columns left and one row up, one step along the second goes five
/// columns right and one row up.
pub open spec fn to_cartesian(h: (int, int)) -> (int, int) {
    (-5 * h.0 + 5 * h.1, -h.0 - h.1)
}

/// Center of hexagon `h` once the origin is moved by `off`.
pub open spec fn center(h: (int, int), off: (int, int)) -> (int, int) {
    (to_cartesian(h).0 + off.0, to_cartesian(h).1 + off.1)
}

/// `p` is the center of some hexagon under the origin offset `off`.
pub open spec fn on_lattice(p: (int, int), off: (int, int)) -> bool {
    &&& (off.0 - p.0) % 5 == 0
    &&& ((off.0 - p.0) / 5 + (off.1 - p.1)) % 2 == 0
}

/// The hexagon whose center is `p`, for `p` on the lattice.
pub open spec fn hex_of(p: (int, int), off: (int, int)) -> (int, int) {
    let a = (off.0 - p.0) / 5;
    let b = off.1 - p.1;
    ((a + b) / 2, (b - a) / 2)
}

/// The hexagons' display characters, moved to their centers.
pub open spec fn placed(cs: Map<(int, int), char>, off: (int, int)) -> Map<(int, int), char> {
    Map::new(
        |p: (int, int)| on_lattice(p, off) && cs.contains_key(hex_of(p, off)),
        |p: (int, int)| cs[hex_of(p, off)],
    )
}

/// Some center lies at offset `(dx, dy)` from `p`'s point of view, that is at `p - (dx, dy)`.
pub open spec fn has(cs: Map<(int, int), char>, p: (int, int), dx: int, dy: int) -> bool {
    cs.contains_key((p.0 - dx, p.1 - dy))
}

/// The glyph that the hexagons centered at the keys of `cs` put at `p`.
///
/// A center shows its character. The rows above and below a center hold `-` three wide,
/// and the brackets stand three columns to either side. A corner touched by one hexagon
/// shows its diagonal; one touched by two shows the bracket that joins them.
pub open spec fn glyph(cs: Map<(int, int), char>, p: (int, int)) -> Option<char> {
    if cs.contains_key(p) {
        Some(cs[p])
    } else if has(cs, p, -1, 1) || has(cs, p, 0, 1) || has(cs, p, 1, 1) || has(cs, p, -1, -1)
        || has(cs, p, 0, -1) || has(cs, p, 1, -1) {
        Some('-')
    } else if has(cs, p, -3, 0) {
        Some(LEFT_BRACKET)
    } else if has(cs, p, 3, 0) {
        Some(RIGHT_BRACKET)
    } else if has(cs, p, -2, 1) && has(cs, p, -2, -1) {
        Some(RIGHT_BRACKET)
    } else if has(cs, p, 2, 1) && has(cs, p, 2, -1) {
        Some(LEFT_BRACKET)
    } else if has(cs, p, -2, 1) {
        Some('\\')
    } else if has(cs, p, 2, 1) {
        Some('/')
    } else if has(cs, p, -2, -1) {
        Some('/')
    } else if has(cs, p, 2, -1) {
        Some('\\')
    } else {
        None
    }
}

/// The grid drawn around the centers in `cs`.
pub open spec fn paint(cs: Map<(int, int), char>) -> Map<(int, int), char> {
    Map::new(|p: (int, int)| glyph(cs, p) is Some, |p: (int, int)| glyph(cs, p)->Some_0)
}

/// The position `(dx, dy)` away from `c`.
pub open spec fn at(c: (int, int), dx: int, dy: int) -> (int, int) {
    (c.0 + dx, c.1 + dy)
}

/// Proposes a diagonal at a corner: an empty place takes `single`, a bracket stays, and a
/// diagonal already drawn by a neighbour becomes the joining bracket `multiple`.
pub open spec fn corner(g: Map<(int, int), char>, p: (int, int), single: char, multiple: char) -> Map<
    (int, int),
    char,
> {
    if !g.contains_key(p) {
        g.insert(p, single)
    } else if g[p] == LEFT_BRACKET || g[p] == RIGHT_BRACKET {
        g
    } else {
        g.insert(p, multiple)
    }
}

/// The center and the fixed border of the hexagon at `c`.
pub open spec fn outline(g: Map<(int, int), char>, c: (int, int), ch: char) -> Map<(int, int), char> {
    g.insert(c, ch).insert(at(c, -1, 1), '-').insert(at(c, 0, 1), '-').insert(
        at(c, 1, 1),
        '-',
    ).insert(at(c, -3, 0), LEFT_BRACKET).insert(at(c, 3, 0), RIGHT_BRACKET).insert(
        at(c, -1, -1),
        '-',
    ).insert(at(c, 0, -1), '-').insert(at(c, 1, -1), '-')
}

/// Draws the hexagon at `c` showing `ch` over the grid `g`: its outline, then its four
/// corners.
pub open spec fn stamp(g: Map<(int, int), char>, c: (int, int), ch: char) -> Map<(int, int), char> {
    let g1 = outline(g, c, ch);
    let g2 = corner(g1, at(c, -2, 1), '\\', RIGHT_BRACKET);
    let g3 = corner(g2, at(c, 2, 1), '/', LEFT_BRACKET);
    let g4 = corner(g3, at(c, -2, -1), '/', RIGHT_BRACKET);
    corner(g4, at(c, 2, -1), '\\', LEFT_BRACKET)
}

/// Near a new center, the larger set's glyph is what drawing the new hexagon leaves.
proof fn lemma_near(cs: Map<(int, int), char>, off: (int, int), c: (int, int), ch: char, p: (int, int))
    requires
        forall|p: (int, int)| #[trigger] cs.contains_key(p) ==> on_lattice(p, off),
        on_lattice(c, off),
        !cs.contains_key(c),
        -3 <= p.0 - c.0 <= 3,
        -1 <= p.1 - c.1 <= 1,
        p != c,
    ensures
        glyph(cs.insert(c, ch), p) == stamp(paint(cs), c, ch).get(p),
{
    assert(paint(cs).get(p) == glyph(cs, p));
}

/// Drawing one more hexagon over the grid of the others gives the grid of all of them.
pub proof fn lemma_stamp(cs: Map<(int, int), char>, off: (int, int), c: (int, int), ch: char)
    requires
        forall|p: (int, int)| #[trigger] cs.contains_key(p) ==> on_lattice(p, off),
        on_lattice(c, off),
        !cs.contains_key(c),
    ensures
        paint(cs.insert(c, ch)) == stamp(paint(cs), c, ch),
{
    let big = cs.insert(c, ch);
    assert forall|p: (int, int)| #[trigger] glyph(big, p) == stamp(paint(cs), c, ch).get(p) by {
        let dx = p.0 - c.0;
        let dy = p.1 - c.1;
        assert(paint(cs).get(p) == glyph(cs, p));
        if dx == 0 && dy == 0 {
        } else if -3 <= dx <= 3 && -1 <= dy <= 1 {
            lemma_near(cs, off, c, ch, p);
        } else {
            assert(glyph(big, p) == glyph(cs, p));
        }
    }
    assert(paint(big) =~= stamp(paint(cs), c, ch));
}

/// A hexagon's center lies on the lattice, and leads back to that hexagon.
pub proof fn lemma_center_inverse(h: (int, int), off: (int, int))
    ensures
        on_lattice(center(h, off), off),
        hex_of(center(h, off), off) == h,
{
    let p = center(h, off);
    assert(off.0 - p.0 == 5 * (h.0 - h.1));
    assert((off.0 - p.0) / 5 == h.0 - h.1);
    assert(off.1 - p.1 == h.0 + h.1);
}

/// A point on the lattice is the center of the hexagon that it leads back to.
pub proof fn lemma_lattice_center(p: (int, int), off: (int, int))
    requires
        on_lattice(p, off),
    ensures
        center(hex_of(p, off), off) == p,
{
    let a = (off.0 - p.0) / 5;
    let b = off.1 - p.1;
    assert(5 * a == off.0 - p.0);
    assert((a + b) % 2 == 0);
    assert(2 * ((a + b) / 2) == a + b);
    assert(2 * ((b - a) / 2) == b - a);
}

/// Adding a hexagon adds its center.
pub proof fn lemma_placed_insert(cs: Map<(int, int), char>, off: (int, int), h: (int, int), ch: char)
    ensures
        placed(cs.insert(h, ch), off) == placed(cs, off).insert(center(h, off), ch),
{
    lemma_center_inverse(h, off);
    assert forall|p: (int, int)| on_lattice(p, off) && hex_of(p, off) == h implies p == center(
        h,
        off,
    ) by {
        lemma_lattice_center(p, off);
    }
    assert(placed(cs.insert(h, ch), off) =~= placed(cs, off).insert(center(h, off), ch));
}

/// The hexagons of `cs`, each moved by `(a, b)`.
pub open spec fn shift(cs: Map<(int, int), char>, a: int, b: int) -> Map<(int, int), char> {
    Map::new(
        |h: (int, int)| cs.contains_key((h.0 - a, h.1 - b)),
        |h: (int, int)| cs[(h.0 - a, h.1 - b)],
    )
}

/// Moving every hexagon by `(a, b)` and the origin by the same step in cartesian terms
/// leaves every center where it was.
pub proof fn lemma_placed_shift(cs: Map<(int, int), char>, a: int, b: int, off: (int, int))
    ensures
        placed(shift(cs, a, b), (off.0 + 5 * (a - b), off.1 + a + b)) == placed(cs, off),
{
    let off2 = (off.0 + 5 * (a - b), off.1 + a + b);
    assert forall|p: (int, int)| #[trigger] on_lattice(p, off) implies on_lattice(p, off2)
        && hex_of(p, off2) == (hex_of(p, off).0 + a, hex_of(p, off).1 + b) by {
        let h = hex_of(p, off);
        lemma_lattice_center(p, off);
        lemma_center_inverse((h.0 + a, h.1 + b), off2);
    }
    assert forall|p: (int, int)| #[trigger] on_lattice(p, off2) implies on_lattice(p, off) by {
        let h = hex_of(p, off2);
        lemma_lattice_center(p, off2);
        lemma_center_inverse((h.0 - a, h.1 - b), off);
    }
    assert(placed(shift(cs, a, b), off2) =~= placed(cs, off));
}

/// Every drawn position lies within three columns and one row of some hexagon's center.
pub proof fn lemma_paint_near(cs: Map<(int, int), char>, off: (int, int), p: (int, int))
    requires
        paint(placed(cs, off)).contains_key(p),
    ensures
        exists|h: (int, int)|
            #[trigger] cs.contains_key(h) && -3 <= p.0 - center(h, off).0 <= 3 && -1 <= p.1
                - center(h, off).1 <= 1,
{
    let g = placed(cs, off);
    let q = choose|q: (int, int)|
        g.contains_key(q) && -3 <= p.0 - q.0 <= 3 && -1 <= p.1 - q.1 <= 1;
    lemma_lattice_center(q, off);
    let h = hex_of(q, off);
    assert(cs.contains_key(h));
}

/// `p` is one of the thirteen positions that the hexagon centered at `c` draws.
pub open spec fn in_footprint(p: (int, int), c: (int, int)) -> bool {
    let dx = p.0 - c.0;
    let dy = p.1 - c.1;
    ||| dx == 0 && dy == 0
    ||| -2 <= dx <= 2 && (dy == 1 || dy == -1)
    ||| (dx == -3 || dx == 3) && dy == 0
}

/// The hexagon at `h` keeps its whole outline in grid `g` under origin offset `off`:
/// its character, its borders, both brackets and its four single diagonals.
pub open spec fn whole_outline(g: Map<(int, int), char>, h: (int, int), ch: char, off: (int, int)) -> bool {
    let c = center(h, off);
    &&& g.contains_key(c) && g[c] == ch
    &&& g.contains_key(at(c, -1, 1)) && g[at(c, -1, 1)] == '-'
    &&& g.contains_key(at(c, 0, 1)) && g[at(c, 0, 1)] == '-'
    &&& g.contains_key(at(c, 1, 1)) && g[at(c, 1, 1)] == '-'
    &&& g.contains_key(at(c, -1, -1)) && g[at(c, -1, -1)] == '-'
    &&& g.contains_key(at(c, 0, -1)) && g[at(c, 0, -1)] == '-'
    &&& g.contains_key(at(c, 1, -1)) && g[at(c, 1, -1)] == '-'
    &&& g.contains_key(at(c, -3, 0)) && g[at(c, -3, 0)] == LEFT_BRACKET
    &&& g.contains_key(at(c, 3, 0)) && g[at(c, 3, 0)] == RIGHT_BRACKET
    &&& g.contains_key(at(c, -2, -1)) && g[at(c, -2, -1)] == '/'
    &&& g.contains_key(at(c, 2, -1)) && g[at(c, 2, -1)] == '\\'
    &&& g.contains_key(at(c, -2, 1)) && g[at(c, -2, 1)] == '\\'
    &&& g.contains_key(at(c, 2, 1)) && g[at(c, 2, 1)] == '/'
}

/// The two hexagons share a corner: one is a direct neighbour of the other.
pub open spec fn share_corner(h1: (int, int), h2: (int, int)) -> bool {
    let d = (h2.0 - h1.0, h2.1 - h1.1);
    ||| d == (1int, 0int)
    ||| d == (-1int, 0int)
    ||| d == (0int, 1int)
    ||| d == (0int, -1int)
    ||| d == (1int, 1int)
    ||| d == (-1int, -1int)
}

proof fn lemma_pair_whole(h1: (int, int), c1: char, h2: (int, int), c2: char, off: (int, int))
    requires
        h1 != h2,
        !share_corner(h1, h2),
    ensures
        whole_outline(paint(placed(map![h1 => c1, h2 => c2], off)), h1, c1, off),
{
    let e = Map::<(int, int), char>::empty();
    assert(placed(e, off) =~= e);
    lemma_placed_insert(e, off, h1, c1);
    lemma_placed_insert(e.insert(h1, c1), off, h2, c2);
    assert(map![h1 => c1, h2 => c2] =~= e.insert(h1, c1).insert(h2, c2));
    let g = paint(placed(map![h1 => c1, h2 => c2], off));
    let c = center(h1, off);
    assert(g.contains_key(c));
    assert(g.contains_key(at(c, -1, 1)));
    assert(g.contains_key(at(c, 0, 1)));
    assert(g.contains_key(at(c, 1, 1)));
    assert(g.contains_key(at(c, -1, -1)));
    assert(g.contains_key(at(c, 0, -1)));
    assert(g.contains_key(at(c, 1, -1)));
    assert(g.contains_key(at(c, -3, 0)));
    assert(g.contains_key(at(c, 3, 0)));
    assert(g.contains_key(at(c, -2, -1)));
    assert(g.contains_key(at(c, 2, -1)));
    assert(g.contains_key(at(c, -2, 1)));
    assert(g.contains_key(at(c, 2, 1)));
}

/// Two hexagons that share no corner are drawn apart: their footprints do not meet, and
/// each keeps its whole outline, brackets on both sides and single diagonals at its corners.
pub proof fn lemma_apart(h1: (int, int), c1: char, h2: (int, int), c2: char, off: (int, int))
    requires
        h1 != h2,
        !share_corner(h1, h2),
    ensures
        forall|p: (int, int)|
            !(#[trigger] in_footprint(p, center(h1, off)) && in_footprint(p, center(h2, off))),
        whole_outline(paint(placed(map![h1 => c1, h2 => c2], off)), h1, c1, off),
        whole_outline(paint(placed(map![h1 => c1, h2 => c2], off)), h2, c2, off),
{
    lemma_footprints_apart(h1, h2, off);
    lemma_pair_whole(h1, c1, h2, c2, off);
    lemma_pair_whole(h2, c2, h1, c1, off);
    assert(map![h1 => c1, h2 => c2] =~= map![h2 => c2, h1 => c1]);
}

proof fn lemma_footprints_apart(h1: (int, int), h2: (int, int), off: (int, int))
    requires
        h1 != h2,
        !share_corner(h1, h2),
    ensures
        forall|p: (int, int)|
            !(#[trigger] in_footprint(p, center(h1, off)) && in_footprint(p, center(h2, off))),
{
    let u = h2.0 - h1.0;
    let v = h2.1 - h1.1;
    let c1 = center(h1, off);
    let c2 = center(h2, off);
    assert(c2.0 - c1.0 == 5 * (v - u) && c2.1 - c1.1 == -(u + v));
    assert forall|p: (int, int)|
        !(#[trigger] in_footprint(p, c1) && in_footprint(p, c2)) by {
        if in_footprint(p, c1) && in_footprint(p, c2) {
            assert(-6 <= 5 * (v - u) <= 6);
            assert(-2 <= u + v <= 2);
        }
    }
}

/// The hexagons that a list of `(coordinate, character)` entries holds, a later entry
/// replacing an earlier one at the same coordinate.
pub open spec fn hex_map(s: Seq<((int, int), char)>) -> Map<(int, int), char>
    decreases s.len(),
{
    if s.len() == 0 {
        Map::empty()
    } else {
        hex_map(s.drop_last()).insert(s.last().0, s.last().1)
    }
}

/// The grid left by drawing the entries' hexagons one after another, in list order.
pub open spec fn stamp_all(s: Seq<((int, int), char)>, off: (int, int)) -> Map<(int, int), char>
    decreases s.len(),
{
    if s.len() == 0 {
        Map::empty()
    } else {
        stamp(stamp_all(s.drop_last(), off), center(s.last().0, off), s.last().1)
    }
}

/// No coordinate comes twice in the list.
pub open spec fn distinct_keys(s: Seq<((int, int), char)>) -> bool {
    forall|i: int, j: int| 0 <= i < j < s.len() ==> #[trigger] s[i].0 != #[trigger] s[j].0
}

proof fn lemma_hex_map_keys(s: Seq<((int, int), char)>, k: (int, int))
    requires
        hex_map(s).contains_key(k),
    ensures
        exists|i: int| 0 <= i < s.len() && #[trigger] s[i].0 == k,
    decreases s.len(),
{
    if s.last().0 != k {
        lemma_hex_map_keys(s.drop_last(), k);
        let i = choose|i: int| 0 <= i < s.len() - 1 && #[trigger] s.drop_last()[i].0 == k;
        assert(s[i].0 == k);
    } else {
        assert(s[s.len() - 1].0 == k);
    }
}

/// Drawing the hexagons one after another, each over the grid of those before it, yields
/// the grid of the whole set.
pub proof fn lemma_stamp_all(s: Seq<((int, int), char)>, off: (int, int))
    requires
        distinct_keys(s),
    ensures
        stamp_all(s, off) == paint(placed(hex_map(s), off)),
    decreases s.len(),
{
    if s.len() == 0 {
        assert(paint(placed(hex_map(s), off)) =~= Map::empty());
    } else {
        let init = s.drop_last();
        let (h, ch) = s.last();
        assert(distinct_keys(init)) by {
            assert forall|i: int, j: int| 0 <= i < j < init.len() implies #[trigger] init[i].0
                != #[trigger] init[j].0 by {
                assert(s[i].0 != s[j].0);
            }
        }
        lemma_stamp_all(init, off);
        if hex_map(init).contains_key(h) {
            lemma_hex_map_keys(init, h);
            let i = choose|i: int| 0 <= i < init.len() && #[trigger] init[i].0 == h;
            assert(s[i].0 != s[s.len() - 1].0);
        }
        lemma_center_inverse(h, off);
        lemma_placed_insert(hex_map(init), off, h, ch);
        lemma_stamp(placed(hex_map(init), off), off, center(h, off), ch);
    }
}

/// The drawing does not depend on the order in which the hexagons are drawn: two lists
/// of the same hexagons, each coordinate once, leave the same grid.
pub proof fn lemma_order_independent(
    s1: Seq<((int, int), char)>,
    s2: Seq<((int, int), char)>,
    off: (int, int),
)
    requires
        distinct_keys(s1),
        distinct_keys(s2),
        hex_map(s1) == hex_map(s2),
    ensures
        stamp_all(s1, off) == stamp_all(s2, off),
{
    lemma_stamp_all(s1, off);
    lemma_stamp_all(s2, off);
}

/// Each hexagon's character is found again at its center, and its fixed border around it.
pub proof fn lemma_read_back(cs: Map<(int, int), char>, off: (int, int), h: (int, int))
    requires
        cs.contains_key(h),
    ensures
        paint(placed(cs, off)).contains_key(center(h, off)),
        paint(placed(cs, off))[center(h, off)] == cs[h],
        paint(placed(cs, off))[at(center(h, off), 0, -1)] == '-',
        paint(placed(cs, off))[at(center(h, off), 0, 1)] == '-',
        paint(placed(cs, off))[at(center(h, off), -3, 0)] == LEFT_BRACKET,
        paint(placed(cs, off))[at(center(h, off), 3, 0)] == RIGHT_BRACKET,
{
    lemma_center_inverse(h, off);
    let c = center(h, off);
    let g = placed(cs, off);
    assert(g.contains_key(c));
    assert forall|p: (int, int)| #[trigger] g.contains_key(p) implies on_lattice(p, off) by {}
}

} // verus!
