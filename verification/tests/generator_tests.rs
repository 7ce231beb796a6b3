use shisen::shisen::{Board, BoardCell, Square};

/// Play a board to the end with the deterministic move search, and return
/// whether it was fully cleared.
fn plays_to_empty(mut b: Board) -> bool {
    while let Some(m) = b.find_move() {
        b.do_move(&m);
    }
    b.is_empty()
}

#[test]
fn random_board_fills_the_interior() {
    let b = Board::random(4, 4);
    assert_eq!(b.ncol(), 6);
    assert_eq!(b.nrow(), 6);
    for sq in b.squares_inner() {
        assert!(b.cell_at(sq).is_tile(), "interior square {:?} left empty", sq);
    }
    for sq in b.squares() {
        if sq.c == 0 || sq.r == 0 || sq.c == b.ncol() - 1 || sq.r == b.nrow() - 1 {
            assert!(b.cell_at(sq).is_empty(), "border square {:?} holds a tile", sq);
        }
    }
}

#[test]
fn generated_boards_play_to_empty_small() {
    for _ in 0..5 {
        assert!(plays_to_empty(Board::random(4, 4)), "a 4x4 board did not clear");
    }
}

#[test]
fn generated_boards_play_to_empty_reference_size() {
    for _ in 0..3 {
        assert!(plays_to_empty(Board::random(8, 7)), "an 8x7 board did not clear");
    }
}

#[test]
fn generated_boards_play_to_empty_odd_by_even() {
    for _ in 0..5 {
        assert!(plays_to_empty(Board::random(3, 4)), "a 3x4 board did not clear");
    }
    for _ in 0..5 {
        assert!(plays_to_empty(Board::random(2, 5)), "a 2x5 board did not clear");
    }
}

#[test]
fn shuffle_solvable_keeps_occupancy() {
    let mut b = Board::empty(4, 2);
    b.set_cell(Square::new(1, 1), BoardCell::Tile(3));
    b.set_cell(Square::new(3, 1), BoardCell::Tile(3));
    b.set_cell(Square::new(2, 2), BoardCell::Tile(11));
    b.set_cell(Square::new(4, 2), BoardCell::Tile(11));
    let before = b.clone();
    b.shuffle_solvable();
    for sq in before.squares() {
        assert_eq!(
            b.cell_at(sq).is_tile(),
            before.cell_at(sq).is_tile(),
            "occupancy changed at {:?}",
            sq
        );
    }
    let mut kinds_before = before.iter_tiles();
    let mut kinds_after = b.iter_tiles();
    kinds_before.sort();
    kinds_after.sort();
    assert_eq!(kinds_before, kinds_after, "the multiset of kinds changed");
    assert!(plays_to_empty(b));
}

#[test]
fn shuffle_solvable_frees_a_stuck_board_with_pairs() {
    // A 2x2 checkerboard of two kinds is stuck, but both kinds are
    // paired, so the reshuffled board always admits a move again.
    for _ in 0..10 {
        let mut b = Board::empty(2, 2);
        b.set_cell(Square::new(1, 1), BoardCell::Tile(0));
        b.set_cell(Square::new(2, 1), BoardCell::Tile(1));
        b.set_cell(Square::new(1, 2), BoardCell::Tile(1));
        b.set_cell(Square::new(2, 2), BoardCell::Tile(0));
        assert!(b.is_stuck(), "the checkerboard start should admit no move");
        b.shuffle_solvable();
        assert!(!b.is_stuck(), "the reshuffled board must have a move");
        assert!(b.find_move().is_some());
    }
}

#[test]
fn random_board_is_never_stuck_at_birth() {
    for _ in 0..5 {
        let b = Board::random(4, 4);
        assert!(!b.is_stuck());
        assert!(b.find_move().is_some());
    }
}

#[test]
fn random_board_uses_kinds_in_pairs() {
    for &(c, r) in &[(4usize, 4usize), (8, 7), (3, 4)] {
        let b = Board::random(c, r);
        let mut counts = [0usize; 34];
        for cell in b.iter_tiles() {
            match cell {
                BoardCell::Tile(kind) => {
                    assert!(kind < 34, "kind {} out of range", kind);
                    counts[kind] += 1;
                }
                BoardCell::Empty => panic!("iter_tiles returned an empty cell"),
            }
        }
        for (kind, n) in counts.iter().enumerate() {
            assert!(n % 2 == 0, "kind {} appears {} times on a {}x{} board", kind, n, c, r);
        }
    }
}

#[test]
fn random_move_finds_a_move_exactly_when_one_exists() {
    let mut b = Board::empty(2, 2);
    assert!(b.random_move().is_none());
    b.set_cell(Square::new(1, 1), BoardCell::Tile(4));
    b.set_cell(Square::new(2, 2), BoardCell::Tile(4));
    for _ in 0..10 {
        let m = b.random_move().expect("a legal move exists");
        assert!(b.cell_at(m.src()).is_same_tile(b.cell_at(m.dst())));
    }
}
