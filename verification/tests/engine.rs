use tetris::block::Block;
use tetris::block::Color;
use tetris::game::Control;
use tetris::game::Tetris;

fn cell(t: &Tetris, y: usize, x: usize) -> Color {
    t.field[y * 10 + x]
}

fn count_nonblack(t: &Tetris) -> usize {
    t.field.iter().filter(|c| **c != Color::Black).count()
}

fn piece_ok(t: &Tetris) -> bool {
    t.block.blocks.iter().all(|&(y, x)| {
        0 <= y && y < 20 && 0 <= x && x < 10 && cell(t, y as usize, x as usize) == Color::Black
    })
}

#[test]
fn fresh_game_is_empty_with_a_piece() {
    let t = Tetris::new();
    assert_eq!(t.score, 0);
    assert_eq!(t.field.len(), 200);
    for k in 0..200 {
        assert_eq!(t.field[k], Color::Black);
    }
    assert!(!t.block.blocks.is_empty());
    assert!(t.block.blocks.len() == 4 || t.block.blocks.len() == 5);
}

#[test]
fn random_pieces_come_from_the_catalog() {
    for _ in 0..200 {
        let b = Block::rand();
        assert!(b.color != Color::Black);
        assert!(b.color != Color::White);
        assert!(b.blocks.len() == 4 || b.blocks.len() == 5);
        for &(y, x) in b.blocks.iter() {
            assert!(0 <= y && y < 3);
            assert!(0 <= x && x < 4);
        }
    }
}

#[test]
fn left_then_right_restores_cells_exactly() {
    let mut b = Block::new(Color::Cyan, vec![(5, 3), (5, 4), (6, 4), (7, 4)]);
    let before = b.blocks.clone();
    b.left();
    b.right();
    assert_eq!(b.blocks, before);
    b.right();
    b.left();
    assert_eq!(b.blocks, before);
}

#[test]
fn down_moves_every_row_by_one() {
    let mut b = Block::new(Color::Red, vec![(0, 0), (0, 1), (1, 0), (1, 1)]);
    b.down();
    assert_eq!(b.blocks, vec![(1, 0), (1, 1), (2, 0), (2, 1)]);
}

#[test]
fn rotate_bar_exact_coordinates() {
    // Four cells in a row, centroid (0, 1.5). Each new row is
    // round(x - 1.5) with ties away from zero, rounded per coordinate: the
    // tie -0.5 goes to -1 and the tie 0.5 goes to 1, so no new row is 0.
    // Each new column is round(1.5 - (y - 0)) = 2.
    let mut b = Block::new(Color::Green, vec![(0, 0), (0, 1), (0, 2), (0, 3)]);
    b.rotate();
    assert_eq!(b.blocks, vec![(-2, 2), (-1, 2), (1, 2), (2, 2)]);
    assert_eq!(b.color, Color::Green);
}

#[test]
fn rotate_square_four_times_is_identity() {
    let mut b = Block::new(Color::Blue, vec![(0, 0), (0, 1), (1, 0), (1, 1)]);
    let before = b.blocks.clone();
    for _ in 0..4 {
        b.rotate();
        assert_eq!(b.blocks.len(), before.len());
        assert_eq!(b.color, Color::Blue);
    }
    assert_eq!(b.blocks, before);
}

#[test]
fn rotate_four_times_restores_tie_free_pieces() {
    // Five-cell pieces can never land a centroid sum on a rounding tie,
    // and neither does the square, so four rotations restore them exactly
    // (well within the one-unit drift tolerance).
    let shapes: Vec<Vec<(i32, i32)>> = vec![
        vec![(0, 0), (0, 1), (1, 0), (1, 1)],
        vec![(0, 0), (0, 1), (0, 2), (1, 1), (2, 1)],
        vec![(0, 0), (0, 1), (0, 2), (0, 3), (1, 3)],
        vec![(0, 0), (0, 1), (0, 2), (0, 3), (1, 0)],
    ];
    for cells in shapes {
        let before = cells.clone();
        let mut b = Block::new(Color::Magenta, cells);
        for _ in 0..4 {
            b.rotate();
        }
        assert_eq!(b.blocks, before);
        assert_eq!(b.color, Color::Magenta);
    }
}

#[test]
fn rotate_four_times_on_tie_pieces_drifts_and_keeps_count() {
    // The bar and the two bent three-column pieces put both centroid sums
    // exactly on rounding ties, where away-from-zero rounding is not
    // translation invariant: four rotations spread their cells by one
    // unit instead of restoring them. The count and color never change.
    let cases: Vec<(Vec<(i32, i32)>, Vec<(i32, i32)>)> = vec![
        (
            vec![(0, 0), (0, 1), (0, 2), (0, 3)],
            vec![(0, 0), (0, 1), (0, 3), (0, 4)],
        ),
        (
            vec![(0, 0), (0, 1), (1, 1), (1, 2)],
            vec![(0, 0), (0, 2), (1, 2), (1, 3)],
        ),
        (
            vec![(1, 0), (1, 1), (0, 1), (0, 2)],
            vec![(1, 0), (1, 2), (0, 2), (0, 3)],
        ),
    ];
    for (cells, after_four) in cases {
        let before = cells.clone();
        let mut b = Block::new(Color::Cyan, cells);
        for _ in 0..4 {
            b.rotate();
        }
        assert_eq!(b.blocks, after_four);
        assert_eq!(b.blocks.len(), before.len());
        assert_eq!(b.color, Color::Cyan);
        for (a, o) in b.blocks.iter().zip(before.iter()) {
            assert!((a.0 - o.0).abs() <= 1);
            assert!((a.1 - o.1).abs() <= 1);
        }
    }
}

#[test]
fn move_left_against_the_wall_is_rejected() {
    // The square spawns on columns 0 and 1; every further step left would
    // cross the wall, so three left commands leave it exactly in place.
    let mut t = Tetris::new();
    t.block = Block::new(Color::Yellow, vec![(0, 0), (0, 1), (1, 0), (1, 1)]);
    let before = t.block.blocks.clone();
    for _ in 0..3 {
        t.control(Control::Left);
    }
    assert_eq!(t.block.blocks, before);
}

#[test]
fn moves_commit_when_the_way_is_free() {
    let mut t = Tetris::new();
    t.block = Block::new(Color::Yellow, vec![(0, 0), (0, 1), (1, 0), (1, 1)]);
    t.control(Control::Right);
    assert_eq!(t.block.blocks, vec![(0, 1), (0, 2), (1, 1), (1, 2)]);
    t.control(Control::Down);
    assert_eq!(t.block.blocks, vec![(1, 1), (1, 2), (2, 1), (2, 2)]);
    t.control(Control::Left);
    assert_eq!(t.block.blocks, vec![(1, 0), (1, 1), (2, 0), (2, 1)]);
    assert_eq!(t.score, 0);
    for k in 0..200 {
        assert_eq!(t.field[k], Color::Black);
    }
}

#[test]
fn rotation_into_the_wall_is_rejected() {
    // The bar at its spawn row would rotate to rows -2, -1, 1, 2, leaving
    // the field, so the command must roll the cells back unchanged.
    let mut t = Tetris::new();
    t.block = Block::new(Color::Green, vec![(0, 0), (0, 1), (0, 2), (0, 3)]);
    t.control(Control::Rotate);
    assert_eq!(t.block.blocks, vec![(0, 0), (0, 1), (0, 2), (0, 3)]);
}

#[test]
fn vertical_bar_rotation_lands_a_tie_outside_and_is_rejected() {
    // A vertical bar on column 1: the new columns are round(2.5 - y) per
    // cell, and the bottom cell's tie -1.5 rounds away from zero to -2,
    // outside the field, so the rotation is rolled back.
    let mut t = Tetris::new();
    t.block = Block::new(Color::Red, vec![(0, 1), (1, 1), (2, 1), (3, 1)]);
    t.control(Control::Rotate);
    assert_eq!(t.block.blocks, vec![(0, 1), (1, 1), (2, 1), (3, 1)]);
}

#[test]
fn move_into_occupied_cells_is_rejected() {
    let mut t = Tetris::new();
    t.block = Block::new(Color::Red, vec![(5, 5)]);
    t.field[6 * 10 + 5] = Color::Blue;
    t.control(Control::Down);
    assert_eq!(t.block.blocks, vec![(5, 5)]);
    t.control(Control::Right);
    assert_eq!(t.block.blocks, vec![(5, 6)]);
}

#[test]
fn commands_keep_the_piece_inside_and_off_locked_cells() {
    let mut t = Tetris::new();
    t.field[10 * 10 + 4] = Color::Red;
    t.field[15 * 10 + 7] = Color::Blue;
    assert!(piece_ok(&t));
    for step in 0..128 {
        let op = match (step * 7 + step / 5) % 4 {
            0 => Control::Left,
            1 => Control::Down,
            2 => Control::Rotate,
            _ => Control::Right,
        };
        t.control(op);
        assert!(piece_ok(&t));
    }
}

#[test]
fn clearing_a_full_bottom_row_shifts_the_row_above() {
    let mut t = Tetris::new();
    t.block = Block::new(Color::Blue, vec![(0, 5)]);
    for x in 0..10 {
        t.field[19 * 10 + x] = Color::Red;
    }
    for x in 0..5 {
        t.field[18 * 10 + x] = Color::Green;
    }
    let before = count_nonblack(&t);
    t.delete();
    // Row 19 now holds what row 18 held.
    for x in 0..5 {
        assert_eq!(cell(&t, 19, x), Color::Green);
    }
    for x in 5..10 {
        assert_eq!(cell(&t, 19, x), Color::Black);
    }
    // Row 18 took the empty row 17, and row 0 is left as it was.
    for x in 0..10 {
        assert_eq!(cell(&t, 18, x), Color::Black);
        assert_eq!(cell(&t, 0, x), Color::Black);
    }
    assert_eq!(count_nonblack(&t), before - 10);
}

#[test]
fn clearing_a_middle_row_shifts_every_row_above() {
    let mut t = Tetris::new();
    t.block = Block::new(Color::Blue, vec![(0, 5)]);
    for x in 0..10 {
        t.field[10 * 10 + x] = Color::Cyan;
    }
    t.field[9 * 10 + 2] = Color::Magenta;
    t.field[5 * 10 + 7] = Color::Yellow;
    t.field[12 * 10 + 3] = Color::Green;
    let before = count_nonblack(&t);
    t.delete();
    assert_eq!(cell(&t, 10, 2), Color::Magenta);
    assert_eq!(cell(&t, 9, 2), Color::Black);
    assert_eq!(cell(&t, 6, 7), Color::Yellow);
    assert_eq!(cell(&t, 5, 7), Color::Black);
    // Rows below the cleared one keep their cells.
    assert_eq!(cell(&t, 12, 3), Color::Green);
    assert_eq!(count_nonblack(&t), before - 10);
}

#[test]
fn a_partial_row_is_not_cleared() {
    let mut t = Tetris::new();
    t.block = Block::new(Color::Blue, vec![(0, 5)]);
    for x in 0..9 {
        t.field[19 * 10 + x] = Color::Red;
    }
    t.delete();
    for x in 0..9 {
        assert_eq!(cell(&t, 19, x), Color::Red);
    }
    assert_eq!(cell(&t, 19, 9), Color::Black);
}

#[test]
fn gravity_locks_a_piece_resting_on_the_floor() {
    let mut t = Tetris::new();
    t.block = Block::new(Color::Red, vec![(19, 0), (19, 1)]);
    t.fall();
    // The move down was rejected at the bottom boundary, so the piece
    // locked: its cells now color the field and a new piece is active.
    assert_eq!(cell(&t, 19, 0), Color::Red);
    assert_eq!(cell(&t, 19, 1), Color::Red);
    assert!(t.block.blocks.len() == 4 || t.block.blocks.len() == 5);
    for &(y, x) in t.block.blocks.iter() {
        assert!(0 <= y && y < 3);
        assert!(0 <= x && x < 4);
    }
    assert_eq!(t.score, 0);
}

#[test]
fn gravity_moves_a_free_piece_down_without_locking() {
    let mut t = Tetris::new();
    t.block = Block::new(Color::Cyan, vec![(0, 3), (0, 4)]);
    t.fall();
    assert_eq!(t.block.blocks, vec![(1, 3), (1, 4)]);
    assert_eq!(t.block.color, Color::Cyan);
    for k in 0..200 {
        assert_eq!(t.field[k], Color::Black);
    }
}

#[test]
fn gravity_locks_a_piece_resting_on_the_stack() {
    let mut t = Tetris::new();
    for x in 0..10 {
        t.field[19 * 10 + x] = Color::Green;
    }
    t.field[19 * 10 + 0] = Color::Black;
    t.block = Block::new(Color::Red, vec![(18, 5)]);
    t.fall();
    // The stack below blocked the fall, so the cell locked at (18, 5);
    // no row was complete, so nothing shifted.
    assert_eq!(cell(&t, 18, 5), Color::Red);
    assert_eq!(cell(&t, 19, 0), Color::Black);
}

#[test]
fn locking_that_completes_a_row_clears_it() {
    let mut t = Tetris::new();
    for x in 0..9 {
        t.field[19 * 10 + x] = Color::Green;
    }
    t.block = Block::new(Color::Red, vec![(19, 9)]);
    t.fall();
    // The lock completed row 19; the clearing pass then emptied it.
    for x in 0..10 {
        assert_eq!(cell(&t, 19, x), Color::Black);
    }
}

#[test]
fn a_full_top_row_is_left_in_place() {
    // Clearing shifts the rows above the full row down; above row 0 there
    // is nothing to shift, and vacated rows are never refilled with
    // background, so a full top row survives the pass unchanged.
    let mut t = Tetris::new();
    t.block = Block::new(Color::Blue, vec![(5, 5)]);
    for x in 0..10 {
        t.field[x] = Color::Red;
    }
    t.delete();
    for x in 0..10 {
        assert_eq!(cell(&t, 0, x), Color::Red);
    }
}

#[test]
fn two_full_rows_clear_in_one_pass() {
    let mut t = Tetris::new();
    t.block = Block::new(Color::Blue, vec![(0, 5)]);
    for x in 0..10 {
        t.field[18 * 10 + x] = Color::Red;
        t.field[19 * 10 + x] = Color::Green;
    }
    t.field[17 * 10] = Color::Cyan;
    t.delete();
    // The lone cell above the two full rows fell by two rows.
    assert_eq!(count_nonblack(&t), 1);
    assert_eq!(cell(&t, 19, 0), Color::Cyan);
}
