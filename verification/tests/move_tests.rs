use shisen::shisen::{Board, BoardCell, Square};

/// Chebyshev length of a path, as the library defines move distance.
fn path_len(path: &[Square]) -> usize {
    let mut d = 0;
    for w in path.windows(2) {
        let dc = w[0].c.abs_diff(w[1].c);
        let dr = w[0].r.abs_diff(w[1].r);
        d += dc.max(dr);
    }
    d
}

/// Brute-force enumeration of every valid candidate path between two
/// squares, returning the distances of all of them.
fn brute_force_distances(b: &Board, src: Square, dst: Square) -> Vec<usize> {
    let mut out = Vec::new();
    if src == dst || !b.cell_at(src).is_same_tile(b.cell_at(dst)) {
        return out;
    }
    let reach_col = |c: usize, r: usize, w: usize| -> bool {
        let (lo, hi) = if w < r { (w, r - 1) } else if w > r { (r + 1, w) } else { return true };
        (lo..=hi).all(|t| b.cell_at(Square::new(c, t)).is_empty())
    };
    let reach_row = |r: usize, c: usize, x: usize| -> bool {
        let (lo, hi) = if x < c { (x, c - 1) } else if x > c { (c + 1, x) } else { return true };
        (lo..=hi).all(|t| b.cell_at(Square::new(t, r)).is_empty())
    };
    if src.c != dst.c {
        for w in 0..b.nrow() {
            let row_clear = (src.c.min(dst.c) + 1..src.c.max(dst.c))
                .all(|t| b.cell_at(Square::new(t, w)).is_empty());
            if reach_col(src.c, src.r, w) && reach_col(dst.c, dst.r, w) && row_clear {
                let d = src.r.abs_diff(w) + src.c.abs_diff(dst.c) + dst.r.abs_diff(w);
                out.push(d);
            }
        }
    }
    if src.r != dst.r {
        for x in 0..b.ncol() {
            let col_clear = (src.r.min(dst.r) + 1..src.r.max(dst.r))
                .all(|t| b.cell_at(Square::new(x, t)).is_empty());
            if reach_row(src.r, src.c, x) && reach_row(dst.r, dst.c, x) && col_clear {
                let d = src.c.abs_diff(x) + src.r.abs_diff(dst.r) + dst.c.abs_diff(x);
                out.push(d);
            }
        }
    }
    out
}

#[test]
fn adjacent_pair_has_direct_straight_move() {
    // A two-column interior with one matching pair: the shortest move is
    // the degenerate straight path with no bends.
    let mut b = Board::empty(2, 2);
    let a = Square::new(1, 1);
    let c = Square::new(2, 1);
    b.set_cell(a, BoardCell::Tile(7));
    b.set_cell(c, BoardCell::Tile(7));
    let m = b.shortest_move_between(a, c).expect("adjacent pair must match");
    assert_eq!(m.src(), a);
    assert_eq!(m.dst(), c);
    assert_eq!(m.path().as_slice(), &[a, c]);
    assert_eq!(path_len(m.path()), 1);
    assert_eq!(m.path_distance(), 1);
    assert!(b.find_move().is_some());
    let mut b2 = b.clone();
    b2.do_move(&m);
    assert!(b2.is_empty());
}

#[test]
fn blocked_pair_routes_around_through_border() {
    // Two tiles of one kind with a different tile directly between them:
    // no straight move, but a two-bend path through the border row.
    let mut b = Board::empty(4, 2);
    let a = Square::new(1, 1);
    let c = Square::new(3, 1);
    b.set_cell(a, BoardCell::Tile(3));
    b.set_cell(Square::new(2, 1), BoardCell::Tile(9));
    b.set_cell(c, BoardCell::Tile(3));
    let m = b.find_move_between(a, c).expect("bent path must exist");
    assert!(m.path().len() > 2, "the direct straight path is blocked");
    let s = b.shortest_move_between(a, c).expect("bent path must exist");
    assert_eq!(
        s.path().as_slice(),
        &[a, Square::new(1, 0), Square::new(3, 0), c],
        "the shortest route bends through the empty border row"
    );
}

#[test]
fn find_move_between_rejects_mismatches_and_identical_squares() {
    let mut b = Board::empty(4, 2);
    let a = Square::new(1, 1);
    let c = Square::new(2, 1);
    b.set_cell(a, BoardCell::Tile(3));
    b.set_cell(c, BoardCell::Tile(9));
    assert!(b.find_move_between(a, c).is_none(), "kinds differ");
    assert!(b.find_move_between(a, a).is_none(), "same square");
    assert!(b.find_move_between(Square::new(3, 1), Square::new(4, 1)).is_none(), "both empty");
    assert!(b.shortest_move_between(a, c).is_none());
}

#[test]
fn shortest_move_is_no_longer_than_any_brute_force_candidate() {
    // A pair in one column admits several routes: the straight one and
    // bent ones through the border columns.
    let mut b = Board::empty(4, 4);
    let a = Square::new(1, 1);
    let c = Square::new(1, 3);
    b.set_cell(a, BoardCell::Tile(12));
    b.set_cell(c, BoardCell::Tile(12));
    let m = b.shortest_move_between(a, c).expect("pair must match");
    let d = path_len(m.path());
    let all = brute_force_distances(&b, a, c);
    assert!(!all.is_empty());
    for cand in &all {
        assert!(d <= *cand, "returned {} longer than candidate {}", d, cand);
    }
    assert_eq!(d, 2, "the straight vertical path is shortest");

    // The blocked-row scenario as well: every candidate found by brute
    // force is at least as long as the returned move.
    let mut b2 = Board::empty(4, 2);
    let a2 = Square::new(1, 1);
    let c2 = Square::new(3, 1);
    b2.set_cell(a2, BoardCell::Tile(3));
    b2.set_cell(Square::new(2, 1), BoardCell::Tile(9));
    b2.set_cell(c2, BoardCell::Tile(3));
    let m2 = b2.shortest_move_between(a2, c2).expect("pair must match");
    let d2 = path_len(m2.path());
    for cand in &brute_force_distances(&b2, a2, c2) {
        assert!(d2 <= *cand);
    }
}

#[test]
fn move_path_intermediate_points_are_empty() {
    let mut b = Board::empty(4, 4);
    let a = Square::new(1, 1);
    let c = Square::new(3, 2);
    b.set_cell(a, BoardCell::Tile(20));
    b.set_cell(c, BoardCell::Tile(20));
    b.set_cell(Square::new(2, 2), BoardCell::Tile(1));
    let m = b.find_move_between(a, c).expect("pair must match");
    let p = m.path();
    for k in 1..p.len() - 1 {
        assert!(b.cell_at(p[k]).is_empty(), "intermediate point {:?} not empty", p[k]);
    }
}

#[test]
fn do_move_removes_exactly_the_two_end_tiles() {
    let mut b = Board::empty(4, 2);
    b.set_cell(Square::new(1, 1), BoardCell::Tile(3));
    b.set_cell(Square::new(2, 1), BoardCell::Tile(9));
    b.set_cell(Square::new(3, 1), BoardCell::Tile(3));
    b.set_cell(Square::new(4, 2), BoardCell::Tile(9));
    let before = b.clone();
    let n_before = b.iter_tiles().len();
    let m = b.find_move_between(Square::new(1, 1), Square::new(3, 1)).expect("pair must match");
    b.do_move(&m);
    assert_eq!(b.iter_tiles().len(), n_before - 2);
    assert_eq!(b.cell_at(m.src()), BoardCell::Empty);
    assert_eq!(b.cell_at(m.dst()), BoardCell::Empty);
    for sq in before.squares() {
        if sq != m.src() && sq != m.dst() {
            assert_eq!(b.cell_at(sq), before.cell_at(sq), "cell {:?} changed", sq);
        }
    }
}

#[test]
fn move_search_is_deterministic() {
    // Same board state, same answer: the search scans candidates in a
    // fixed order.
    let mut b = Board::empty(4, 4);
    b.set_cell(Square::new(1, 1), BoardCell::Tile(5));
    b.set_cell(Square::new(3, 3), BoardCell::Tile(5));
    b.set_cell(Square::new(2, 2), BoardCell::Tile(8));
    b.set_cell(Square::new(4, 1), BoardCell::Tile(8));
    let b2 = b.clone();
    let m1 = b.find_move().expect("a move exists");
    let m2 = b2.find_move().expect("a move exists");
    assert_eq!(m1.path(), m2.path());
    let f1 = b.find_move_between(Square::new(1, 1), Square::new(3, 3)).expect("pair matches");
    let f2 = b2.find_move_between(Square::new(1, 1), Square::new(3, 3)).expect("pair matches");
    assert_eq!(f1.path(), f2.path());
}

#[test]
fn mismatched_leftover_pair_is_stuck() {
    let mut b = Board::empty(2, 2);
    b.set_cell(Square::new(1, 1), BoardCell::Tile(1));
    b.set_cell(Square::new(2, 1), BoardCell::Tile(2));
    assert!(!b.is_empty());
    assert!(b.find_move().is_none());
    assert!(b.random_move().is_none());
    assert!(b.is_stuck());
}
