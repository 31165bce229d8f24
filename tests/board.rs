use std::collections::BTreeMap;

use hext_boards::{render_char_map, HexagonalBoard};

fn lines(rows: &[&str]) -> String {
    rows.join("\n")
}

fn board_of(entries: &[((i32, i32), char)]) -> HexagonalBoard<char> {
    HexagonalBoard::from_entries(entries.to_vec())
}

#[test]
fn display() {
    let board = board_of(&[((0, 0), 'a'), ((1, 0), 'b'), ((0, 1), 'c'), ((-1, -1), 'd')]);

    let output = board.render();
    let expected = lines(&[
        " /---\\     /---\\ ",
        "⟨  b  ⟩---⟨  c  ⟩",
        " \\---⟨  a  ⟩---/ ",
        "      ⟩---⟨      ",
        "     ⟨  d  ⟩     ",
        "      \\---/      ",
        "",
    ]);

    println!("{output}");
    println!("{expected}");

    for (output, expected) in output.split('\n').zip(expected.split('\n')) {
        for (output, expected) in expected.chars().zip(output.chars()) {
            assert_eq!(output, expected)
        }
    }
}

#[test]
fn single() {
    let board = board_of(&[((0, 0), 'a')]);

    println!("{}", board.render());

    let expected = " /---\\ \n⟨  a  ⟩\n \\---/ ";

    assert_eq!(board.render(), expected);
}

#[test]
fn four() {
    let board = board_of(&[((0, 0), 'a'), ((1, 0), 'b'), ((0, 1), 'c'), ((-1, -1), 'd')]);

    let expected = lines(&[
        " /---\\     /---\\ ",
        "⟨  b  ⟩---⟨  c  ⟩",
        " \\---⟨  a  ⟩---/ ",
        "      ⟩---⟨      ",
        "     ⟨  d  ⟩     ",
        "      \\---/      ",
    ]);

    assert_eq!(board.render(), expected);
}

#[test]
fn empty_center() {
    let board = board_of(&[((1, 1), 't'), ((-1, -1), 'b')]);

    let expected = lines(&[
        " /---\\ ",
        "⟨  t  ⟩",
        " \\---/ ",
        "       ",
        " /---\\ ",
        "⟨  b  ⟩",
        " \\---/ ",
    ]);

    assert_eq!(board.render(), expected);
}

#[test]
fn stacked_pair_shares_a_border() {
    let board = board_of(&[((0, 0), 'A'), ((1, 1), 'B')]);
    let expected = lines(&[
        " /---\\ ",
        "⟨  B  ⟩",
        " ⟩---⟨ ",
        "⟨  A  ⟩",
        " \\---/ ",
    ]);
    assert_eq!(board.render(), expected);
}

#[test]
fn render_with_radix_digits() {
    let mut board: HexagonalBoard<u32> = HexagonalBoard::new();
    board.insert((0, 0), 5);
    board.insert((0, 1), 13);
    board.insert((1, 1), 25);
    let output = board.render_with(|n: &u32| char::from_digit(*n, 36).expect("below 36"));
    let expected = lines(&[
        " /---\\      ",
        "⟨  p  ⟩---\\ ",
        " ⟩---⟨  d  ⟩",
        "⟨  5  ⟩---/ ",
        " \\---/      ",
    ]);
    assert_eq!(output, expected);
}

#[test]
fn rendering_ignores_insertion_order() {
    let a = board_of(&[((0, 0), 'a'), ((1, 0), 'b'), ((0, 1), 'c'), ((-1, -1), 'd')]);
    let b = board_of(&[((-1, -1), 'd'), ((0, 1), 'c'), ((1, 0), 'b'), ((0, 0), 'a')]);
    let c = board_of(&[((0, 1), 'c'), ((0, 0), 'a'), ((-1, -1), 'd'), ((1, 0), 'b')]);
    assert_eq!(a.render(), a.render());
    assert_eq!(a.render(), b.render());
    assert_eq!(a.render(), c.render());
    assert_eq!(a.char_map(|t: &char| *t), c.char_map(|t: &char| *t));
}

#[test]
fn edge_neighbours_merge_their_corners() {
    let board = board_of(&[((0, 0), 'a'), ((1, 0), 'b')]);
    let grid = board.char_map(|t: &char| *t);
    // `b` is centered at (3, 1), `a` at (8, 2).
    assert_eq!(grid.get(&(3, 1)), Some(&'b'));
    assert_eq!(grid.get(&(8, 2)), Some(&'a'));
    assert_eq!(grid.get(&(6, 1)), Some(&'⟩'));
    assert_eq!(grid.get(&(5, 2)), Some(&'⟨'));
    let expected = lines(&[
        " /---\\      ",
        "⟨  b  ⟩---\\ ",
        " \\---⟨  a  ⟩",
        "      \\---/ ",
    ]);
    assert_eq!(board.render(), expected);
}

#[test]
fn distant_hexagons_stay_apart() {
    let board = board_of(&[((1, 1), 't'), ((-1, -1), 'b')]);
    let output = board.render();
    let rows: Vec<&str> = output.split('\n').collect();
    assert_eq!(rows.len(), 7);
    assert_eq!(rows[3], "       ");
    assert_eq!(rows[0], rows[4]);
    assert_eq!(rows[2], rows[6]);
    assert_eq!(rows[1], "⟨  t  ⟩");
    assert_eq!(rows[5], "⟨  b  ⟩");
}

#[test]
fn translation_keeps_the_drawing() {
    let base = [((0, 0), 'a'), ((1, 0), 'b'), ((0, 1), 'c'), ((-1, -1), 'd')];
    let expected = board_of(&base).render();
    for (a, b) in [(3, -7), (-100, 42), (1000, 1000), (-5, -5)] {
        let moved: Vec<((i32, i32), char)> =
            base.iter().map(|((q, r), v)| ((q + a, r + b), *v)).collect();
        assert_eq!(HexagonalBoard::from_entries(moved).render(), expected);
    }
}

#[test]
fn flattening_small_grids() {
    assert_eq!(render_char_map(BTreeMap::new()), "");
    let mut one = BTreeMap::new();
    one.insert((0, 0), 'x');
    assert_eq!(render_char_map(one), "x");
}

#[test]
fn flattening_pads_and_skips_negative_positions() {
    let mut g = BTreeMap::new();
    g.insert((2, 1), 'q');
    g.insert((-4, 0), 'z');
    g.insert((0, -3), 'z');
    assert_eq!(render_char_map(g), "   \n  q");
    let mut only_negative = BTreeMap::new();
    only_negative.insert((-1, -1), 'n');
    assert_eq!(render_char_map(only_negative), "");
}

#[test]
fn empty_board_renders_nothing() {
    let board: HexagonalBoard<char> = HexagonalBoard::new();
    assert_eq!(board.render(), "");
    assert!(board.char_map(|t: &char| *t).is_empty());
}

#[test]
fn later_entry_wins() {
    let board = board_of(&[((0, 0), 'a'), ((0, 0), 'z')]);
    assert_eq!(board.render(), " /---\\ \n⟨  z  ⟩\n \\---/ ");
}

#[test]
fn characters_read_back_at_centers() {
    let entries = [((0, 0), 'a'), ((1, 0), 'b'), ((0, 1), 'c'), ((-1, -1), 'd'), ((3, -2), 'e')];
    let board = board_of(&entries);
    let grid = board.char_map(|t: &char| *t);
    let max_diff = entries.iter().map(|((q, r), _)| q - r).max().unwrap() as i64;
    let max_sum = entries.iter().map(|((q, r), _)| q + r).max().unwrap() as i64;
    let mut centers = 0;
    for ((q, r), v) in entries {
        let x = -5 * q as i64 + 5 * r as i64 + 5 * max_diff + 3;
        let y = -(q as i64) - r as i64 + max_sum + 1;
        assert_eq!(grid.get(&(x, y)), Some(&v));
        assert_eq!(grid.get(&(x - 3, y)), Some(&'⟨'));
        assert_eq!(grid.get(&(x + 3, y)), Some(&'⟩'));
        centers += 1;
    }
    assert_eq!(centers, 5);
    let text = render_char_map(grid.clone());
    let width = grid.keys().map(|p| p.0).max().unwrap() + 1;
    let letters: Vec<char> = text.chars().filter(|c| c.is_ascii_lowercase()).collect();
    assert_eq!(letters.len(), 5);
    let rows: Vec<Vec<char>> = text.split('\n').map(|r| r.chars().collect()).collect();
    assert!(rows.iter().all(|r| r.len() as i64 == width));
}

#[test]
fn default_board_is_empty() {
    let board: HexagonalBoard<char> = HexagonalBoard::default();
    assert_eq!(board.render(), "");
    let copy = board_of(&[((2, -1), 'k')]).clone();
    assert_eq!(copy.render(), " /---\\ \n⟨  k  ⟩\n \\---/ ");
}
