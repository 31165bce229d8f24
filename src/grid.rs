//! Flattening a sparse character grid into lines of text.
use std::collections::BTreeMap;
use vstd::prelude::*;
use vstd::std_specs::iter::IteratorSpec;

verus! {

broadcast use vstd::std_specs::btree::group_btree_axioms, vstd::laws_cmp::group_laws_cmp;

/// Relies on `String::push`: the character is appended at the end.
pub assume_specification[ String::push ](s: &mut String, ch: char)
    ensures
        final(s)@ == old(s)@.push(ch),
;

/// A grid keyed by machine positions, seen as a map over mathematical positions.
pub open spec fn grid_view(g: Map<(i64, i64), char>) -> Map<(int, int), char> {
    Map::new(
        |p: (int, int)|
            i64::MIN <= p.0 <= i64::MAX && i64::MIN <= p.1 <= i64::MAX && g.contains_key(
                (p.0 as i64, p.1 as i64),
            ),
        |p: (int, int)| g[(p.0 as i64, p.1 as i64)],
    )
}

/// `m` is the largest column of an entry of `g`.
pub open spec fn is_max_col(g: Map<(int, int), char>, m: int) -> bool {
    &&& exists|p: (int, int)| #[trigger] g.contains_key(p) && p.0 == m
    &&& forall|p: (int, int)| #[trigger] g.contains_key(p) ==> p.0 <= m
}

/// `m` is the largest row of an entry of `g`.
pub open spec fn is_max_row(g: Map<(int, int), char>, m: int) -> bool {
    &&& exists|p: (int, int)| #[trigger] g.contains_key(p) && p.1 == m
    &&& forall|p: (int, int)| #[trigger] g.contains_key(p) ==> p.1 <= m
}

/// The largest column of an entry of `g`.
pub open spec fn max_col(g: Map<(int, int), char>) -> int {
    choose|m: int| is_max_col(g, m)
}

/// The largest row of an entry of `g`.
pub open spec fn max_row(g: Map<(int, int), char>) -> int {
    choose|m: int| is_max_row(g, m)
}

/// How many of `0..=m` there are.
pub open spec fn span(m: int) -> nat {
    if m < 0 {
        0
    } else {
        (m + 1) as nat
    }
}

/// The character drawn at `(x, y)`: the grid's own, or a blank.
pub open spec fn cell(g: Map<(int, int), char>, x: int, y: int) -> char {
    if g.contains_key((x, y)) {
        g[(x, y)]
    } else {
        ' '
    }
}

/// Row `y`, columns `0..width`.
pub open spec fn row_text(g: Map<(int, int), char>, y: int, width: nat) -> Seq<char> {
    Seq::new(width, |x: int| cell(g, x, y))
}

/// Rows `0..n`, each `width` wide, joined by newlines.
pub open spec fn rows_text(g: Map<(int, int), char>, width: nat, n: nat) -> Seq<char>
    decreases n,
{
    if n == 0 {
        Seq::empty()
    } else if n == 1 {
        row_text(g, 0, width)
    } else {
        rows_text(g, width, (n - 1) as nat) + seq!['\n'] + row_text(g, n - 1, width)
    }
}

/// The text of a grid: the rectangle from `(0, 0)` to the largest column and row that
/// hold an entry, blanks where there is none; an empty grid gives the empty text.
pub open spec fn flatten(g: Map<(int, int), char>) -> Seq<char> {
    if g.dom().is_empty() {
        Seq::empty()
    } else {
        rows_text(g, span(max_col(g)), span(max_row(g)))
    }
}

/// Writing an entry writes the same entry in the view.
pub proof fn lemma_grid_view_insert(g: Map<(i64, i64), char>, k: (i64, i64), c: char)
    ensures
        grid_view(g.insert(k, c)) == grid_view(g).insert((k.0 as int, k.1 as int), c),
{
    assert(grid_view(g.insert(k, c)) =~= grid_view(g).insert((k.0 as int, k.1 as int), c));
}

pub proof fn lemma_max_col_unique(g: Map<(int, int), char>, m: int)
    requires
        is_max_col(g, m),
    ensures
        max_col(g) == m,
{
    let c = max_col(g);
    assert(is_max_col(g, c));
    let p = choose|p: (int, int)| #[trigger] g.contains_key(p) && p.0 == m;
    let q = choose|p: (int, int)| #[trigger] g.contains_key(p) && p.0 == c;
    assert(p.0 <= c);
    assert(q.0 <= m);
}

pub proof fn lemma_max_row_unique(g: Map<(int, int), char>, m: int)
    requires
        is_max_row(g, m),
    ensures
        max_row(g) == m,
{
    let c = max_row(g);
    assert(is_max_row(g, c));
    let p = choose|p: (int, int)| #[trigger] g.contains_key(p) && p.1 == m;
    let q = choose|p: (int, int)| #[trigger] g.contains_key(p) && p.1 == c;
    assert(p.1 <= c);
    assert(q.1 <= m);
}

/// Writes the grid out as text: rows `0..=max_y`, columns `0..=max_x`, a blank where the
/// grid holds nothing, rows joined by `'\n'` with none after the last. Positions left of
/// or above the origin are not drawn. An empty grid gives the empty string.
pub fn render_char_map(char_map: BTreeMap<(i64, i64), char>) -> (r: String)
    ensures
        r@ == flatten(grid_view(char_map@)),
{
    let ghost g = grid_view(char_map@);
    let ghost s = char_map.iter().remaining();
    let ghost mut n: int = 0;
    let ghost mut kx: (i64, i64) = (0, 0);
    let ghost mut ky: (i64, i64) = (0, 0);
    let mut any = false;
    let mut max_x: i64 = 0;
    let mut max_y: i64 = 0;
    for e in it: char_map.iter()
        invariant
            it.seq() == s,
            n == it.index(),
            any <==> n > 0,
            any ==> char_map@.contains_key(kx) && kx.0 == max_x,
            any ==> char_map@.contains_key(ky) && ky.1 == max_y,
            forall|i: int| 0 <= i < n ==> (*s[i].0).0 <= max_x && (*s[i].0).1 <= max_y,
    {
        let (k, _c) = e;
        if !any || k.0 > max_x {
            max_x = k.0;
            proof {
                kx = *k;
            }
        }
        if !any || k.1 > max_y {
            max_y = k.1;
            proof {
                ky = *k;
            }
        }
        any = true;
        proof {
            n = n + 1;
        }
    }
    assert(n == s.len());
    let mut out = String::new();
    if !any {
        proof {
            char_map@.dom().lemma_len0_is_empty();
            assert forall|p: (int, int)| !g.contains_key(p) by {
                if g.contains_key(p) {
                    assert(char_map@.dom().contains((p.0 as i64, p.1 as i64)));
                }
            }
        }
        assert(g.dom() =~= Set::empty());
        return out;
    }
    proof {
        assert(g.contains_key((kx.0 as int, kx.1 as int)));
        assert(g.contains_key((ky.0 as int, ky.1 as int)));
        assert forall|p: (int, int)| #[trigger] g.contains_key(p) implies p.0 <= max_x && p.1
            <= max_y by {
            let k = (p.0 as i64, p.1 as i64);
            assert(s.contains((&k, &char_map@[k])));
        }
        assert(is_max_col(g, max_x as int));
        assert(is_max_row(g, max_y as int));
        lemma_max_col_unique(g, max_x as int);
        lemma_max_row_unique(g, max_y as int);
    }
    let width: i128 = max_x as i128 + 1;
    let height: i128 = max_y as i128 + 1;
    let ghost w = span(max_x as int);
    let mut y: i128 = 0;
    while y < height
        invariant
            0 <= y,
            height == max_y + 1,
            width == max_x + 1,
            w == span(max_x as int),
            y <= height || y == 0,
            out@ == rows_text(g, w, y as nat),
            g == grid_view(char_map@),
            max_x == max_col(g),
            max_y == max_row(g),
            g.contains_key((kx.0 as int, kx.1 as int)),
        decreases height - y,
    {
        if y > 0 {
            out.push('\n');
        }
        let ghost before = out@;
        let mut x: i128 = 0;
        while x < width
            invariant
                0 <= x,
                0 <= y < height,
                height == max_y + 1,
                width == max_x + 1,
                w == span(max_x as int),
                x <= width || x == 0,
                out@ == before + Seq::new(x as nat, |i: int| cell(g, i, y as int)),
                g == grid_view(char_map@),
            decreases width - x,
        {
            let c = match char_map.get(&(x as i64, y as i64)) {
                Some(c) => *c,
                None => ' ',
            };
            proof {
                let key = (x as i64, y as i64);
                assert(key.0 == x && key.1 == y);
                assert(g.contains_key((x as int, y as int)) == char_map@.contains_key(key));
            }
            assert(c == cell(g, x as int, y as int));
            out.push(c);
            assert(out@ =~= before + Seq::new((x + 1) as nat, |i: int| cell(g, i, y as int)));
            x = x + 1;
        }
        assert(out@ =~= rows_text(g, w, (y + 1) as nat));
        y = y + 1;
    }
    assert(y as nat == span(max_y as int));
    assert(g.dom().contains((kx.0 as int, kx.1 as int)));
    assert(!g.dom().is_empty());
    out
}

/// Each row of the text is `width` characters and a newline: the character at column `x`
/// of row `y` stands at `y * (width + 1) + x`.
pub proof fn lemma_text_cell(g: Map<(int, int), char>, width: nat, n: nat, x: int, y: int)
    requires
        0 <= x < width,
        0 <= y < n,
    ensures
        rows_text(g, width, n).len() == n * (width + 1) - 1,
        rows_text(g, width, n)[y * (width + 1) + x] == cell(g, x, y),
    decreases n,
{
    if n == 1 {
        assert(y == 0);
    } else if y < n - 1 {
        lemma_text_cell(g, width, (n - 1) as nat, x, y);
        assert(y * (width + 1) + x < (n - 1) * (width + 1) - 1) by (nonlinear_arith)
            requires
                0 <= x < width,
                0 <= y < n - 1,
        ;
        assert(n * (width + 1) == (n - 1) * (width + 1) + width + 1) by (nonlinear_arith);
    } else {
        lemma_text_cell(g, width, (n - 1) as nat, x, 0);
        assert(n * (width + 1) == (n - 1) * (width + 1) + width + 1) by (nonlinear_arith);
        assert(y * (width + 1) == (n - 1) * (width + 1));
    }
}

/// An empty grid gives the empty text, and a grid of one entry at the origin gives that
/// one character.
pub proof fn lemma_flatten_small(c: char)
    ensures
        flatten(Map::empty()) == Seq::<char>::empty(),
        flatten(map![(0int, 0int) => c]) == seq![c],
{
    let g = map![(0int, 0int) => c];
    assert(g.contains_key((0, 0)));
    assert(is_max_col(g, 0));
    assert(is_max_row(g, 0));
    lemma_max_col_unique(g, 0);
    lemma_max_row_unique(g, 0);
    assert(!g.dom().is_empty());
    assert(Map::<(int, int), char>::empty().dom() =~= Set::empty());
    assert(row_text(g, 0, 1) =~= seq![c]);
}

} // verus!
