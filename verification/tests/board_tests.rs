use shisen::shisen::{Board, BoardCell, Square, TILE_KIND_COUNT};

#[test]
fn empty_board_dimensions_and_cells() {
    let b = Board::empty(4, 4);
    assert_eq!(b.ncol(), 6);
    assert_eq!(b.nrow(), 6);
    for sq in b.squares() {
        assert_eq!(b.cell_at(sq), BoardCell::Empty);
    }
    assert!(b.is_empty());
    assert!(!b.is_stuck());
}

#[test]
fn zero_area_interior_is_cleared_not_stuck() {
    let b = Board::empty(0, 0);
    assert_eq!(b.ncol(), 2);
    assert_eq!(b.nrow(), 2);
    assert!(b.is_empty());
    assert!(!b.is_stuck());
    assert!(b.find_move().is_none());
}

#[test]
fn squares_enumerates_full_grid_row_major() {
    let b = Board::empty(2, 2);
    let v = b.squares();
    assert_eq!(v.len(), 16);
    assert_eq!(v[0], Square::new(0, 0));
    assert_eq!(v[1], Square::new(1, 0));
    assert_eq!(v[4], Square::new(0, 1));
    assert_eq!(v[15], Square::new(3, 3));
}

#[test]
fn squares_inner_excludes_border() {
    let b = Board::empty(3, 2);
    let v = b.squares_inner();
    assert_eq!(v.len(), 6);
    for sq in &v {
        assert!(sq.c >= 1 && sq.c <= 3);
        assert!(sq.r >= 1 && sq.r <= 2);
    }
    assert_eq!(v[0], Square::new(1, 1));
    assert_eq!(v[5], Square::new(3, 2));
}

#[test]
fn set_cell_and_cell_at_round_trip() {
    let mut b = Board::empty(4, 4);
    let sq = Square::new(2, 3);
    b.set_cell(sq, BoardCell::Tile(17));
    assert_eq!(b.cell_at(sq), BoardCell::Tile(17));
    assert!(b.cell_at(sq).is_tile());
    assert!(!b.is_empty());
    b.set_cell(sq, BoardCell::Empty);
    assert!(b.is_empty());
}

#[test]
fn kind_count_is_fixed() {
    assert_eq!(TILE_KIND_COUNT, 34);
}

#[test]
fn cell_predicates() {
    assert!(BoardCell::Empty.is_empty());
    assert!(!BoardCell::Empty.is_tile());
    assert!(BoardCell::Tile(3).is_tile());
    assert!(BoardCell::Tile(3).is_same_tile(BoardCell::Tile(3)));
    assert!(!BoardCell::Tile(3).is_same_tile(BoardCell::Tile(4)));
    assert!(!BoardCell::Tile(3).is_same_tile(BoardCell::Empty));
    assert!(!BoardCell::Empty.is_same_tile(BoardCell::Empty));
}

#[test]
fn enumerate_tiles_lists_occupied_squares_in_order() {
    let mut b = Board::empty(4, 2);
    b.set_cell(Square::new(3, 1), BoardCell::Tile(8));
    b.set_cell(Square::new(1, 2), BoardCell::Tile(2));
    b.set_cell(Square::new(1, 1), BoardCell::Tile(5));
    let e = b.enumerate_tiles();
    assert_eq!(e.len(), 3);
    assert_eq!(e[0], (Square::new(1, 1), BoardCell::Tile(5)));
    assert_eq!(e[1], (Square::new(3, 1), BoardCell::Tile(8)));
    assert_eq!(e[2], (Square::new(1, 2), BoardCell::Tile(2)));
    let t = b.iter_tiles();
    assert_eq!(t, vec![BoardCell::Tile(5), BoardCell::Tile(8), BoardCell::Tile(2)]);
}
