//! Board representation, move search and solvable-board generation.

use rand::seq::SliceRandom;
use vstd::multiset::Multiset;
use vstd::prelude::*;

verus! {

/// Number of distinct tile kinds used by the board generator.
pub const TILE_KIND_COUNT: usize = 34;

/// A position on the board: column `c`, row `r`.
#[derive(Clone, Copy, Debug, PartialEq, Eq, Structural, Hash, PartialOrd, Ord)]
pub struct Square {
    pub c: usize,
    pub r: usize,
}

impl Square {
    pub fn new(c: usize, r: usize) -> (sq: Square)
        ensures
            sq.c == c,
            sq.r == r,
    {
        Square { c, r }
    }
}

/// Contents of one cell: empty, or a tile of some kind.
#[derive(Clone, Copy, Debug, PartialEq, Eq, Structural, Hash, PartialOrd, Ord)]
pub enum BoardCell {
    Empty,
    Tile(usize),
}

impl BoardCell {
    /// True iff the cell holds no tile.
    pub open spec fn spec_is_empty(self) -> bool {
        self is Empty
    }

    /// True iff the cell holds a tile.
    pub open spec fn spec_is_tile(self) -> bool {
        self is Tile
    }

    /// True iff both cells hold tiles of the same kind.
    pub open spec fn spec_is_same_tile(self, other: BoardCell) -> bool {
        self is Tile && other is Tile && self->Tile_0 == other->Tile_0
    }

    #[verifier::when_used_as_spec(spec_is_empty)]
    pub fn is_empty(self) -> (b: bool)
        ensures
            b == self.spec_is_empty(),
    {
        matches!(self, BoardCell::Empty)
    }

    #[verifier::when_used_as_spec(spec_is_tile)]
    pub fn is_tile(self) -> (b: bool)
        ensures
            b == self.spec_is_tile(),
    {
        matches!(self, BoardCell::Tile(_))
    }

    #[verifier::when_used_as_spec(spec_is_same_tile)]
    pub fn is_same_tile(self, other: BoardCell) -> (b: bool)
        ensures
            b == self.spec_is_same_tile(other),
    {
        match (self, other) {
            (BoardCell::Tile(kind1), BoardCell::Tile(kind2)) => kind1 == kind2,
            _ => false,
        }
    }
}

/// The cell is empty or holds a tile of one of the known kinds.
pub open spec fn cell_kind_ok(c: BoardCell) -> bool {
    c is Tile ==> c->Tile_0 < TILE_KIND_COUNT
}

/// The multiset of tile cells that a list of kinds denotes.
pub open spec fn kinds_as_cells(ts: Seq<usize>) -> Multiset<BoardCell> {
    ts.map_values(|u: usize| BoardCell::Tile(u)).to_multiset()
}

/// Appending one kind inserts one tile of that kind.
proof fn lemma_kinds_push(ts: Seq<usize>, u: usize)
    ensures
        kinds_as_cells(ts.push(u)) == kinds_as_cells(ts).insert(BoardCell::Tile(u)),
{
    assert(ts.push(u).map_values(|u2: usize| BoardCell::Tile(u2)) =~= ts.map_values(
        |u2: usize| BoardCell::Tile(u2),
    ).push(BoardCell::Tile(u)));
    vstd::seq_lib::to_multiset_build(ts.map_values(|u2: usize| BoardCell::Tile(u2)), BoardCell::Tile(u));
}

/// An empty kind list denotes no tiles at all.
proof fn lemma_kinds_empty(ts: Seq<usize>)
    requires
        ts.len() == 0,
    ensures
        forall|v: BoardCell| #[trigger] kinds_as_cells(ts).count(v) == 0,
{
    broadcast use vstd::seq_lib::group_seq_properties;

    assert forall|v: BoardCell| #[trigger] kinds_as_cells(ts).count(v) == 0 by {
        let m = ts.map_values(|u2: usize| BoardCell::Tile(u2));
        vstd::seq_lib::to_multiset_contains(m, v);
        assert(!m.contains(v));
    }
}

/// A prefix never counts an element more often than the whole sequence.
proof fn lemma_prefix_count_le<T>(s: Seq<T>, j: int, v: T)
    requires
        0 <= j <= s.len(),
    ensures
        s.subrange(0, j).to_multiset().count(v) <= s.to_multiset().count(v),
{
    broadcast use vstd::multiset::group_multiset_axioms;

    assert(s =~= s.subrange(0, j) + s.subrange(j, s.len() as int));
    vstd::seq_lib::lemma_multiset_commutative(s.subrange(0, j), s.subrange(j, s.len() as int));
}

/// A sequence drawn from the same multiset as a sequence of well-kinded
/// cells is itself well-kinded.
proof fn lemma_kind_ok_from_multiset(s1: Seq<BoardCell>, s2: Seq<BoardCell>)
    requires
        s1.to_multiset() == s2.to_multiset(),
        forall|i: int| 0 <= i < s1.len() ==> cell_kind_ok(#[trigger] s1[i]),
    ensures
        forall|i: int| 0 <= i < s2.len() ==> cell_kind_ok(#[trigger] s2[i]),
{
    broadcast use vstd::seq_lib::group_seq_properties;

    assert forall|i: int| 0 <= i < s2.len() implies cell_kind_ok(#[trigger] s2[i]) by {
        assert(s2.contains(s2[i]));
        vstd::seq_lib::to_multiset_contains(s2, s2[i]);
        vstd::seq_lib::to_multiset_contains(s1, s2[i]);
        assert(s1.contains(s2[i]));
        let j = choose|j: int| 0 <= j < s1.len() && s1[j] == s2[i];
        assert(cell_kind_ok(s1[j]));
    }
}

/// The playing field: a grid of `ncol` x `nrow` cells stored row-major,
/// with a one-cell empty border around the playable interior.
#[derive(Debug)]
pub struct Board {
    ncol: usize,
    nrow: usize,
    cells: Vec<BoardCell>,
}

impl Board {
    /// Number of columns, border included.
    pub closed spec fn spec_ncol(self) -> int {
        self.ncol as int
    }

    /// Number of rows, border included.
    pub closed spec fn spec_nrow(self) -> int {
        self.nrow as int
    }

    /// The cells in row-major order.
    pub closed spec fn spec_cells(self) -> Seq<BoardCell> {
        self.cells@
    }

    /// Contents of the cell in column `c`, row `r`.
    pub open spec fn cell_cr(self, c: int, r: int) -> BoardCell {
        self.spec_cells()[r * self.spec_ncol() + c]
    }

    /// Contents of the cell at `sq`.
    pub open spec fn cell(self, sq: Square) -> BoardCell {
        self.cell_cr(sq.c as int, sq.r as int)
    }

    /// `sq` lies on the allocated grid.
    pub open spec fn in_bounds(self, sq: Square) -> bool {
        sq.c < self.spec_ncol() && sq.r < self.spec_nrow()
    }

    /// The coordinates lie on the one-cell border ring.
    pub open spec fn on_border(self, c: int, r: int) -> bool {
        c == 0 || r == 0 || c == self.spec_ncol() - 1 || r == self.spec_nrow() - 1
    }

    /// `sq` lies in the playable interior (excludes the border ring).
    pub open spec fn inner(self, sq: Square) -> bool {
        1 <= sq.c < self.spec_ncol() - 1 && 1 <= sq.r < self.spec_nrow() - 1
    }

    /// Structural invariant: the grid is allocated, at least one inner
    /// dimension is even, and the border ring holds no tile.
    pub open spec fn wf(self) -> bool {
        &&& self.spec_ncol() >= 2
        &&& self.spec_nrow() >= 2
        &&& self.spec_cells().len() == self.spec_ncol() * self.spec_nrow()
        &&& self.spec_cells().len() <= usize::MAX
        &&& ((self.spec_ncol() - 2) % 2 == 0 || (self.spec_nrow() - 2) % 2 == 0)
        &&& forall|c: int, r: int|
            0 <= c < self.spec_ncol() && 0 <= r < self.spec_nrow() && self.on_border(c, r)
                ==> (#[trigger] self.cell_cr(c, r)).is_empty()
    }

    /// Number of columns, border included.
    pub fn ncol(&self) -> (n: usize)
        ensures
            n == self.spec_ncol(),
    {
        self.ncol
    }

    /// Number of rows, border included.
    pub fn nrow(&self) -> (n: usize)
        ensures
            n == self.spec_nrow(),
    {
        self.nrow
    }

    /// Row-major index of `sq` into the cell vector.
    fn lin_idx(&self, sq: Square) -> (i: usize)
        requires
            self.wf(),
            self.in_bounds(sq),
        ensures
            i == sq.r as int * self.spec_ncol() + sq.c as int,
            i < self.spec_cells().len(),
    {
        proof {
            lemma_lin_in_range(self.spec_ncol(), self.spec_nrow(), sq.c as int, sq.r as int);
        }
        // Reading the length brings the vector's usize size bound into
        // scope for the index arithmetic below.
        let _upper: usize = self.cells.len();
        sq.r * self.ncol + sq.c
    }

    /// Read the cell at `sq`.
    pub fn cell_at(&self, sq: Square) -> (c: BoardCell)
        requires
            self.wf(),
            self.in_bounds(sq),
        ensures
            c == self.cell(sq),
    {
        let idx: usize = self.lin_idx(sq);
        self.cells[idx]
    }

    /// Write the cell at `sq`. A tile may only be placed in the interior,
    /// so that the border stays empty.
    pub fn set_cell(&mut self, sq: Square, cell: BoardCell)
        requires
            old(self).wf(),
            old(self).in_bounds(sq),
            cell.is_tile() ==> old(self).inner(sq),
        ensures
            final(self).wf(),
            final(self).spec_ncol() == old(self).spec_ncol(),
            final(self).spec_nrow() == old(self).spec_nrow(),
            final(self).spec_cells() == old(self).spec_cells().update(
                sq.r as int * old(self).spec_ncol() + sq.c as int,
                cell,
            ),
            final(self).cell(sq) == cell,
            forall|sq2: Square|
                old(self).in_bounds(sq2) && sq2 != sq ==> final(self).cell(sq2) == old(self).cell(
                    sq2,
                ),
    {
        let idx: usize = self.lin_idx(sq);
        self.cells.set(idx, cell);
        proof {
            let nc = old(self).spec_ncol();
            let nr = old(self).spec_nrow();
            assert forall|sq2: Square| old(self).in_bounds(sq2) && sq2 != sq implies self.cell(sq2)
                == old(self).cell(sq2) by {
                let i2 = sq2.r as int * nc + sq2.c as int;
                lemma_lin_in_range(nc, nr, sq2.c as int, sq2.r as int);
                lemma_lin_injective(nc, nr, sq2.c as int, sq2.r as int, sq.c as int, sq.r as int);
                assert(i2 != idx as int);
                assert(old(self).spec_cells().update(idx as int, cell)[i2] == old(
                    self,
                ).spec_cells()[i2]);
            }
            assert forall|c: int, r: int|
                0 <= c < self.spec_ncol() && 0 <= r < self.spec_nrow() && self.on_border(
                    c,
                    r,
                ) implies (#[trigger] self.cell_cr(c, r)).is_empty() by {
                let i2 = r * nc + c;
                lemma_lin_in_range(nc, nr, c, r);
                if c == sq.c as int && r == sq.r as int {
                    assert(self.spec_cells()[i2] == cell);
                } else {
                    lemma_lin_injective(nc, nr, c, r, sq.c as int, sq.r as int);
                    assert(i2 != idx as int);
                    assert(old(self).spec_cells().update(idx as int, cell)[i2] == old(
                        self,
                    ).spec_cells()[i2]);
                    assert(old(self).cell_cr(c, r).is_empty());
                }
            }
        }
    }
}

/// `a` comes strictly before `b` in row-major order.
pub open spec fn lex_before(a: Square, b: Square) -> bool {
    a.r < b.r || (a.r == b.r && a.c < b.c)
}

impl Clone for Board {
    /// An independent copy of the board.
    fn clone(&self) -> (r: Board)
        ensures
            r.spec_ncol() == self.spec_ncol(),
            r.spec_nrow() == self.spec_nrow(),
            r.spec_cells() == self.spec_cells(),
    {
        let mut cells: Vec<BoardCell> = Vec::new();
        let n: usize = self.cells.len();
        let mut i: usize = 0;
        while i < n
            invariant
                n == self.spec_cells().len(),
                i <= n,
                cells@ =~= self.spec_cells().subrange(0, i as int),
            decreases n - i,
        {
            cells.push(self.cells[i]);
            i = i + 1;
        }
        proof {
            assert(cells@ =~= self.spec_cells());
        }
        Board { ncol: self.ncol, nrow: self.nrow, cells }
    }
}

impl Board {
    /// A board of the requested interior size with every cell empty.
    ///
    /// `ncol_inner`, `nrow_inner` give the playable interior; the allocated
    /// grid adds the one-cell border on all four sides. At least one of the
    /// two interior dimensions must be even, and the total cell count must
    /// be addressable.
    pub fn empty(ncol_inner: usize, nrow_inner: usize) -> (b: Board)
        requires
            ncol_inner % 2 == 0 || nrow_inner % 2 == 0,
            (ncol_inner + 2) * (nrow_inner + 2) <= usize::MAX,
        ensures
            b.wf(),
            b.spec_ncol() == ncol_inner + 2,
            b.spec_nrow() == nrow_inner + 2,
            forall|c: int, r: int|
                0 <= c < b.spec_ncol() && 0 <= r < b.spec_nrow() ==> (#[trigger] b.cell_cr(
                    c,
                    r,
                )).is_empty(),
            forall|i: int| 0 <= i < b.spec_cells().len() ==> (#[trigger] b.spec_cells()[i]).is_empty(),
    {
        proof {
            assert((ncol_inner + 2) * 2 <= (ncol_inner + 2) * (nrow_inner + 2))
                by (nonlinear_arith);
            assert((nrow_inner + 2) * 2 <= (ncol_inner + 2) * (nrow_inner + 2))
                by (nonlinear_arith);
        }
        let ncol: usize = ncol_inner + 2;
        let nrow: usize = nrow_inner + 2;
        let n: usize = ncol * nrow;
        let mut cells: Vec<BoardCell> = Vec::new();
        let mut i: usize = 0;
        while i < n
            invariant
                i <= n,
                cells@.len() == i,
                forall|k: int| 0 <= k < i ==> (#[trigger] cells@[k]).is_empty(),
            decreases n - i,
        {
            cells.push(BoardCell::Empty);
            i = i + 1;
        }
        let b = Board { ncol, nrow, cells };
        proof {
            assert forall|c: int, r: int|
                0 <= c < b.spec_ncol() && 0 <= r < b.spec_nrow() implies (#[trigger] b.cell_cr(
                c,
                r,
            )).is_empty() by {
                lemma_lin_in_range(b.spec_ncol(), b.spec_nrow(), c, r);
            }
        }
        b
    }

    /// Every square of the allocated grid, border included, in row-major
    /// order.
    pub fn squares(&self) -> (v: Vec<Square>)
        requires
            self.wf(),
        ensures
            v@.len() == self.spec_ncol() * self.spec_nrow(),
            forall|k: int| 0 <= k < v@.len() ==> self.in_bounds(#[trigger] v@[k]),
            forall|k1: int, k2: int|
                0 <= k1 < k2 < v@.len() ==> lex_before(v@[k1], v@[k2]),
            forall|sq: Square| self.in_bounds(sq) ==> v@.contains(sq),
    {
        broadcast use vstd::seq_lib::group_seq_properties;

        let ncol: usize = self.ncol;
        let nrow: usize = self.nrow;
        let mut v: Vec<Square> = Vec::new();
        let mut r: usize = 0;
        while r < nrow
            invariant
                r <= nrow,
                ncol == self.spec_ncol(),
                nrow == self.spec_nrow(),
                self.wf(),
                v@.len() == r * ncol,
                forall|k: int| 0 <= k < v@.len() ==> self.in_bounds(#[trigger] v@[k]),
                forall|k1: int, k2: int|
                    0 <= k1 < k2 < v@.len() ==> lex_before(v@[k1], v@[k2]),
                forall|k: int| 0 <= k < v@.len() ==> (#[trigger] v@[k]).r < r,
                forall|sq: Square| self.in_bounds(sq) && sq.r < r ==> v@.contains(sq),
            decreases nrow - r,
        {
            let mut c: usize = 0;
            while c < ncol
                invariant
                    r < nrow,
                    c <= ncol,
                    ncol == self.spec_ncol(),
                    nrow == self.spec_nrow(),
                    self.wf(),
                    v@.len() == r * ncol + c,
                    forall|k: int| 0 <= k < v@.len() ==> self.in_bounds(#[trigger] v@[k]),
                    forall|k1: int, k2: int|
                        0 <= k1 < k2 < v@.len() ==> lex_before(v@[k1], v@[k2]),
                    forall|k: int|
                        0 <= k < v@.len() ==> ((#[trigger] v@[k]).r < r || (v@[k].r == r && v@[k].c
                            < c)),
                    forall|sq: Square|
                        self.in_bounds(sq) && (sq.r < r || (sq.r == r && sq.c < c))
                            ==> v@.contains(sq),
                decreases ncol - c,
            {
                proof {
                    lemma_lin_in_range(ncol as int, nrow as int, c as int, r as int);
                }
                let ghost vpre = v@;
                v.push(Square { c, r });
                proof {
                    assert forall|sq: Square|
                        self.in_bounds(sq) && (sq.r < r || (sq.r == r && sq.c
                            < c + 1)) implies v@.contains(sq) by {
                        if sq.r == r as int && sq.c == c as int {
                            assert(v@[v@.len() - 1] == sq);
                        } else {
                            assert(vpre.contains(sq));
                            let j = choose|j: int| 0 <= j < vpre.len() && vpre[j] == sq;
                            assert(v@[j] == sq);
                        }
                    }
                }
                c = c + 1;
            }
            proof {
                assert(r * ncol + ncol == (r + 1) * ncol) by (nonlinear_arith);
            }
            r = r + 1;
        }
        proof {
            assert(nrow * ncol == ncol * nrow) by (nonlinear_arith);
        }
        v
    }

    /// Every interior square, in row-major order.
    pub fn squares_inner(&self) -> (v: Vec<Square>)
        requires
            self.wf(),
        ensures
            v@.len() == (self.spec_ncol() - 2) * (self.spec_nrow() - 2),
            forall|k: int| 0 <= k < v@.len() ==> self.inner(#[trigger] v@[k]),
            forall|k1: int, k2: int|
                0 <= k1 < k2 < v@.len() ==> lex_before(v@[k1], v@[k2]),
            forall|sq: Square| self.inner(sq) ==> v@.contains(sq),
    {
        broadcast use vstd::seq_lib::group_seq_properties;

        let ncol: usize = self.ncol;
        let nrow: usize = self.nrow;
        let mut v: Vec<Square> = Vec::new();
        let mut r: usize = 1;
        while r < nrow - 1
            invariant
                1 <= r <= nrow - 1,
                ncol == self.spec_ncol(),
                nrow == self.spec_nrow(),
                self.wf(),
                v@.len() == (r - 1) * (ncol - 2),
                forall|k: int| 0 <= k < v@.len() ==> self.inner(#[trigger] v@[k]),
                forall|k1: int, k2: int|
                    0 <= k1 < k2 < v@.len() ==> lex_before(v@[k1], v@[k2]),
                forall|k: int| 0 <= k < v@.len() ==> (#[trigger] v@[k]).r < r,
                forall|sq: Square| self.inner(sq) && sq.r < r ==> v@.contains(sq),
            decreases nrow - r,
        {
            let mut c: usize = 1;
            while c < ncol - 1
                invariant
                    1 <= r < nrow - 1,
                    1 <= c <= ncol - 1,
                    ncol == self.spec_ncol(),
                    nrow == self.spec_nrow(),
                    self.wf(),
                    v@.len() == (r - 1) * (ncol - 2) + (c - 1),
                    forall|k: int| 0 <= k < v@.len() ==> self.inner(#[trigger] v@[k]),
                    forall|k1: int, k2: int|
                        0 <= k1 < k2 < v@.len() ==> lex_before(v@[k1], v@[k2]),
                    forall|k: int|
                        0 <= k < v@.len() ==> ((#[trigger] v@[k]).r < r || (v@[k].r == r && v@[k].c
                            < c)),
                    forall|sq: Square|
                        self.inner(sq) && (sq.r < r || (sq.r == r && sq.c < c)) ==> v@.contains(
                            sq,
                        ),
                decreases ncol - c,
            {
                let ghost vpre = v@;
                v.push(Square { c, r });
                proof {
                    assert forall|sq: Square|
                        self.inner(sq) && (sq.r < r || (sq.r == r && sq.c
                            < c + 1)) implies v@.contains(sq) by {
                        if sq.r == r as int && sq.c == c as int {
                            assert(v@[v@.len() - 1] == sq);
                        } else {
                            assert(vpre.contains(sq));
                            let j = choose|j: int| 0 <= j < vpre.len() && vpre[j] == sq;
                            assert(v@[j] == sq);
                        }
                    }
                }
                c = c + 1;
            }
            proof {
                assert((r - 1) * (ncol - 2) + (ncol - 2) == r * (ncol - 2)) by (nonlinear_arith);
            }
            r = r + 1;
        }
        proof {
            assert((nrow - 2) * (ncol - 2) == (ncol - 2) * (nrow - 2)) by (nonlinear_arith);
        }
        v
    }
}

/// The smaller of two integers.
pub open spec fn imin(a: int, b: int) -> int {
    if a <= b {
        a
    } else {
        b
    }
}

/// The larger of two integers.
pub open spec fn imax(a: int, b: int) -> int {
    if a >= b {
        a
    } else {
        b
    }
}

impl Board {
    /// Rows `lo..=hi` of column `c` hold no tile.
    pub open spec fn col_open(self, c: int, lo: int, hi: int) -> bool {
        forall|t: int| lo <= t <= hi ==> (#[trigger] self.cell_cr(c, t)).is_empty()
    }

    /// Columns `lo..=hi` of row `r` hold no tile.
    pub open spec fn row_open(self, r: int, lo: int, hi: int) -> bool {
        forall|t: int| lo <= t <= hi ==> (#[trigger] self.cell_cr(t, r)).is_empty()
    }

    /// A vertical line from `(c, r)` can reach row `w` in column `c`:
    /// every cell strictly past `r` up to and including `w` is empty.
    pub open spec fn col_reach(self, c: int, r: int, w: int) -> bool {
        if w < r {
            self.col_open(c, w, r - 1)
        } else if w > r {
            self.col_open(c, r + 1, w)
        } else {
            true
        }
    }

    /// A horizontal line from `(c, r)` can reach column `x` in row `r`.
    pub open spec fn row_reach(self, r: int, c: int, x: int) -> bool {
        if x < c {
            self.row_open(r, x, c - 1)
        } else if x > c {
            self.row_open(r, c + 1, x)
        } else {
            true
        }
    }

    /// The vertical-horizontal-vertical path bending on row `w` connects
    /// `src` and `dst` without crossing a tile.
    pub open spec fn vhv_ok(self, src: Square, dst: Square, w: int) -> bool {
        &&& 0 <= w < self.spec_nrow()
        &&& src.c != dst.c
        &&& self.col_reach(src.c as int, src.r as int, w)
        &&& self.col_reach(dst.c as int, dst.r as int, w)
        &&& self.row_open(w, imin(src.c as int, dst.c as int) + 1, imax(src.c as int, dst.c as int) - 1)
    }

    /// The horizontal-vertical-horizontal path bending on column `x`
    /// connects `src` and `dst` without crossing a tile.
    pub open spec fn hvh_ok(self, src: Square, dst: Square, x: int) -> bool {
        &&& 0 <= x < self.spec_ncol()
        &&& src.r != dst.r
        &&& self.row_reach(src.r as int, src.c as int, x)
        &&& self.row_reach(dst.r as int, dst.c as int, x)
        &&& self.col_open(x, imin(src.r as int, dst.r as int) + 1, imax(src.r as int, dst.r as int) - 1)
    }

    /// A legal move exists between `src` and `dst`: distinct squares, tiles
    /// of the same kind, and some path of at most two bends between them.
    pub open spec fn connects(self, src: Square, dst: Square) -> bool {
        &&& src != dst
        &&& self.cell(src).is_same_tile(self.cell(dst))
        &&& ((exists|w: int| self.vhv_ok(src, dst, w)) || (exists|x: int|
            self.hvh_ok(src, dst, x)))
    }

    /// Check one horizontal segment for emptiness.
    fn row_open_exec(&self, r: usize, lo: usize, hi: usize) -> (b: bool)
        requires
            self.wf(),
            r < self.spec_nrow(),
            lo <= hi ==> hi < self.spec_ncol(),
        ensures
            b == self.row_open(r as int, lo as int, hi as int),
    {
        if lo > hi {
            return true;
        }
        let mut t: usize = lo;
        while t < hi
            invariant
                self.wf(),
                r < self.spec_nrow(),
                lo <= t <= hi < self.spec_ncol(),
                self.row_open(r as int, lo as int, t as int - 1),
            decreases hi - t,
        {
            if !self.cell_at(Square { c: t, r }).is_empty() {
                return false;
            }
            t = t + 1;
        }
        self.cell_at(Square { c: hi, r }).is_empty()
    }

    /// Check one vertical segment for emptiness.
    fn col_open_exec(&self, c: usize, lo: usize, hi: usize) -> (b: bool)
        requires
            self.wf(),
            c < self.spec_ncol(),
            lo <= hi ==> hi < self.spec_nrow(),
        ensures
            b == self.col_open(c as int, lo as int, hi as int),
    {
        if lo > hi {
            return true;
        }
        let mut t: usize = lo;
        while t < hi
            invariant
                self.wf(),
                c < self.spec_ncol(),
                lo <= t <= hi < self.spec_nrow(),
                self.col_open(c as int, lo as int, t as int - 1),
            decreases hi - t,
        {
            if !self.cell_at(Square { c, r: t }).is_empty() {
                return false;
            }
            t = t + 1;
        }
        self.cell_at(Square { c, r: hi }).is_empty()
    }

    /// Check that row `w` is vertically reachable from `(c, r)`.
    fn col_reach_exec(&self, c: usize, r: usize, w: usize) -> (b: bool)
        requires
            self.wf(),
            c < self.spec_ncol(),
            r < self.spec_nrow(),
            w < self.spec_nrow(),
        ensures
            b == self.col_reach(c as int, r as int, w as int),
    {
        if w < r {
            self.col_open_exec(c, w, r - 1)
        } else if w > r {
            self.col_open_exec(c, r + 1, w)
        } else {
            true
        }
    }

    /// Check that column `x` is horizontally reachable from `(c, r)`.
    fn row_reach_exec(&self, r: usize, c: usize, x: usize) -> (b: bool)
        requires
            self.wf(),
            c < self.spec_ncol(),
            r < self.spec_nrow(),
            x < self.spec_ncol(),
        ensures
            b == self.row_reach(r as int, c as int, x as int),
    {
        if x < c {
            self.row_open_exec(r, x, c - 1)
        } else if x > c {
            self.row_open_exec(r, c + 1, x)
        } else {
            true
        }
    }

    /// Check the full vertical-horizontal-vertical candidate on row `w`.
    fn check_vhv(&self, src: Square, dst: Square, w: usize) -> (b: bool)
        requires
            self.wf(),
            self.in_bounds(src),
            self.in_bounds(dst),
            src.c != dst.c,
            w < self.spec_nrow(),
        ensures
            b == self.vhv_ok(src, dst, w as int),
    {
        if !self.col_reach_exec(src.c, src.r, w) {
            return false;
        }
        if !self.col_reach_exec(dst.c, dst.r, w) {
            return false;
        }
        proof {
            lemma_dims_bounded(*self);
        }
        let mn: usize = if src.c < dst.c {
            src.c
        } else {
            dst.c
        };
        let mx: usize = if src.c < dst.c {
            dst.c
        } else {
            src.c
        };
        self.row_open_exec(w, mn + 1, mx - 1)
    }

    /// Check the full horizontal-vertical-horizontal candidate on column `x`.
    fn check_hvh(&self, src: Square, dst: Square, x: usize) -> (b: bool)
        requires
            self.wf(),
            self.in_bounds(src),
            self.in_bounds(dst),
            src.r != dst.r,
            x < self.spec_ncol(),
        ensures
            b == self.hvh_ok(src, dst, x as int),
    {
        if !self.row_reach_exec(src.r, src.c, x) {
            return false;
        }
        if !self.row_reach_exec(dst.r, dst.c, x) {
            return false;
        }
        proof {
            lemma_dims_bounded(*self);
        }
        let mn: usize = if src.r < dst.r {
            src.r
        } else {
            dst.r
        };
        let mx: usize = if src.r < dst.r {
            dst.r
        } else {
            src.r
        };
        self.col_open_exec(x, mn + 1, mx - 1)
    }
}

/// On a well-formed board each dimension leaves headroom in `usize`.
proof fn lemma_dims_bounded(b: Board)
    requires
        b.wf(),
    ensures
        2 * b.spec_ncol() <= usize::MAX,
        2 * b.spec_nrow() <= usize::MAX,
{
    assert(2 * b.spec_ncol() <= b.spec_ncol() * b.spec_nrow() && 2 * b.spec_nrow()
        <= b.spec_ncol() * b.spec_nrow()) by (nonlinear_arith)
        requires
            b.spec_ncol() >= 2,
            b.spec_nrow() >= 2,
    ;
    assert(b.spec_cells().len() <= usize::MAX);
}

/// A row-major linear index is within the allocated length.
proof fn lemma_lin_in_range(ncol: int, nrow: int, c: int, r: int)
    by (nonlinear_arith)
    requires
        0 <= c < ncol,
        0 <= r < nrow,
    ensures
        0 <= r * ncol + c < nrow * ncol,
        r * ncol + c < ncol * nrow,
{
}

/// Distinct in-bounds coordinates have distinct row-major linear indices.
proof fn lemma_lin_injective(ncol: int, nrow: int, c1: int, r1: int, c2: int, r2: int)
    by (nonlinear_arith)
    requires
        0 <= c1 < ncol,
        0 <= r1 < nrow,
        0 <= c2 < ncol,
        0 <= r2 < nrow,
        c1 != c2 || r1 != r2,
    ensures
        r1 * ncol + c1 != r2 * ncol + c2,
{
}

/// The canonical vertical-horizontal-vertical path from `src` to `dst`
/// bending on row `w`, with degenerate segments collapsed.
pub open spec fn vhv_path(src: Square, dst: Square, w: int) -> Seq<Square> {
    let a = if src.r != w {
        seq![Square { c: src.c, r: w as usize }]
    } else {
        Seq::<Square>::empty()
    };
    let b = if dst.r != w {
        seq![Square { c: dst.c, r: w as usize }]
    } else {
        Seq::<Square>::empty()
    };
    seq![src] + a + b + seq![dst]
}

/// The canonical horizontal-vertical-horizontal path from `src` to `dst`
/// bending on column `x`, with degenerate segments collapsed.
pub open spec fn hvh_path(src: Square, dst: Square, x: int) -> Seq<Square> {
    let a = if src.c != x {
        seq![Square { c: x as usize, r: src.r }]
    } else {
        Seq::<Square>::empty()
    };
    let b = if dst.c != x {
        seq![Square { c: x as usize, r: dst.r }]
    } else {
        Seq::<Square>::empty()
    };
    seq![src] + a + b + seq![dst]
}

/// A legal move: the ordered path of squares connecting the two removed
/// tiles, the endpoints first and last. A move is computed against one
/// board state and is stale once the board changes.
#[derive(Debug)]
pub struct Move {
    path: Vec<Square>,
}

impl View for Move {
    type V = Seq<Square>;

    closed spec fn view(&self) -> Seq<Square> {
        self.path@
    }
}

impl Move {
    /// First square of the path: the source tile.
    pub open spec fn spec_src(self) -> Square {
        self@[0]
    }

    /// Last square of the path: the destination tile.
    pub open spec fn spec_dst(self) -> Square {
        self@[self@.len() - 1]
    }

    /// Build the vertical-horizontal-vertical move bending on row `w`.
    fn new_vhv(src: Square, dst: Square, w: usize) -> (m: Move)
        requires
            src.c != dst.c,
        ensures
            m@ == vhv_path(src, dst, w as int),
            m.spec_src() == src,
            m.spec_dst() == dst,
            2 <= m@.len() <= 4,
    {
        let mut path: Vec<Square> = Vec::new();
        path.push(src);
        if src.r != w {
            path.push(Square { c: src.c, r: w });
        }
        if dst.r != w {
            path.push(Square { c: dst.c, r: w });
        }
        path.push(dst);
        proof {
            assert(path@ =~= vhv_path(src, dst, w as int));
        }
        Move { path }
    }

    /// Build the horizontal-vertical-horizontal move bending on column `x`.
    fn new_hvh(src: Square, dst: Square, x: usize) -> (m: Move)
        requires
            src.r != dst.r,
        ensures
            m@ == hvh_path(src, dst, x as int),
            m.spec_src() == src,
            m.spec_dst() == dst,
            2 <= m@.len() <= 4,
    {
        let mut path: Vec<Square> = Vec::new();
        path.push(src);
        if src.c != x {
            path.push(Square { c: x, r: src.r });
        }
        if dst.c != x {
            path.push(Square { c: x, r: dst.r });
        }
        path.push(dst);
        proof {
            assert(path@ =~= hvh_path(src, dst, x as int));
        }
        Move { path }
    }

    /// Source square of the move.
    pub fn src(&self) -> (sq: Square)
        requires
            self@.len() >= 1,
        ensures
            sq == self.spec_src(),
    {
        self.path[0]
    }

    /// Destination square of the move.
    pub fn dst(&self) -> (sq: Square)
        requires
            self@.len() >= 1,
        ensures
            sq == self.spec_dst(),
    {
        self.path[self.path.len() - 1]
    }

    /// The full path, source first and destination last.
    pub fn path(&self) -> (p: &Vec<Square>)
        ensures
            p@ == self@,
    {
        &self.path
    }
}

impl Board {
    /// `m` is a legal move on this board: its endpoints are distinct
    /// same-kind tiles and its path is a clear candidate of one of the two
    /// shapes.
    pub open spec fn valid_move(self, m: Move) -> bool {
        &&& self.in_bounds(m.spec_src())
        &&& self.in_bounds(m.spec_dst())
        &&& m.spec_src() != m.spec_dst()
        &&& self.cell(m.spec_src()).is_same_tile(self.cell(m.spec_dst()))
        &&& ((exists|w: int|
            #![trigger self.vhv_ok(m.spec_src(), m.spec_dst(), w)]
            self.vhv_ok(m.spec_src(), m.spec_dst(), w) && m@ == vhv_path(
                m.spec_src(),
                m.spec_dst(),
                w,
            )) || (exists|x: int|
            #![trigger self.hvh_ok(m.spec_src(), m.spec_dst(), x)]
            self.hvh_ok(m.spec_src(), m.spec_dst(), x) && m@ == hvh_path(
                m.spec_src(),
                m.spec_dst(),
                x,
            )))
    }

    /// `m` is the first candidate between `src` and `dst` in the fixed
    /// search order: vertical-horizontal-vertical shapes by ascending bend
    /// row, then horizontal-vertical-horizontal shapes by ascending bend
    /// column. At most one move satisfies this for a given board and pair,
    /// so a search that returns it is deterministic.
    pub open spec fn first_candidate(self, src: Square, dst: Square, m: Move) -> bool {
        ||| (exists|w: int|
            #![trigger self.vhv_ok(src, dst, w)]
            self.vhv_ok(src, dst, w) && m@ == vhv_path(src, dst, w) && (forall|w2: int|
                0 <= w2 < w ==> !self.vhv_ok(src, dst, w2)))
        ||| ((forall|w: int| !self.vhv_ok(src, dst, w)) && (exists|x: int|
            #![trigger self.hvh_ok(src, dst, x)]
            self.hvh_ok(src, dst, x) && m@ == hvh_path(src, dst, x) && (forall|x2: int|
                0 <= x2 < x ==> !self.hvh_ok(src, dst, x2))))
    }

    /// The first legal move between the two given squares, if any.
    ///
    /// Returns a move exactly when the squares are distinct, hold tiles of
    /// the same kind, and some clear path of at most two bends joins them.
    /// The move returned is the first candidate in the fixed search order.
    pub fn find_move_between(&self, src: Square, dst: Square) -> (mv: Option<Move>)
        requires
            self.wf(),
            self.in_bounds(src),
            self.in_bounds(dst),
        ensures
            mv is Some <==> self.connects(src, dst),
            mv matches Some(m) ==> self.valid_move(m) && m.spec_src() == src && m.spec_dst()
                == dst,
            mv matches Some(m) ==> self.first_candidate(src, dst, m),
    {
        if src == dst {
            return None;
        }
        let csrc = self.cell_at(src);
        let cdst = self.cell_at(dst);
        if !csrc.is_same_tile(cdst) {
            return None;
        }
        if src.c != dst.c {
            let mut w: usize = 0;
            while w < self.nrow
                invariant
                    self.wf(),
                    self.in_bounds(src),
                    self.in_bounds(dst),
                    src.c != dst.c,
                    src != dst,
                    self.cell(src).is_same_tile(self.cell(dst)),
                    w <= self.spec_nrow(),
                    forall|w2: int| 0 <= w2 < w ==> !self.vhv_ok(src, dst, w2),
                decreases self.spec_nrow() - w,
            {
                if self.check_vhv(src, dst, w) {
                    let m = Move::new_vhv(src, dst, w);
                    proof {
                        assert(self.vhv_ok(src, dst, w as int));
                        assert(self.vhv_ok(m.spec_src(), m.spec_dst(), w as int) && m@ == vhv_path(
                            m.spec_src(),
                            m.spec_dst(),
                            w as int,
                        ));
                        assert(self.valid_move(m));
                        assert(self.connects(src, dst));
                        assert(self.first_candidate(src, dst, m));
                    }
                    return Some(m);
                }
                w = w + 1;
            }
        }
        proof {
            assert(forall|w: int| !self.vhv_ok(src, dst, w));
        }
        if src.r != dst.r {
            let mut x: usize = 0;
            while x < self.ncol
                invariant
                    self.wf(),
                    self.in_bounds(src),
                    self.in_bounds(dst),
                    src.r != dst.r,
                    src != dst,
                    self.cell(src).is_same_tile(self.cell(dst)),
                    x <= self.spec_ncol(),
                    forall|w: int| !self.vhv_ok(src, dst, w),
                    forall|x2: int| 0 <= x2 < x ==> !self.hvh_ok(src, dst, x2),
                decreases self.spec_ncol() - x,
            {
                if self.check_hvh(src, dst, x) {
                    let m = Move::new_hvh(src, dst, x);
                    proof {
                        assert(self.hvh_ok(src, dst, x as int));
                        assert(self.hvh_ok(m.spec_src(), m.spec_dst(), x as int) && m@ == hvh_path(
                            m.spec_src(),
                            m.spec_dst(),
                            x as int,
                        ));
                        assert(self.valid_move(m));
                        assert(self.connects(src, dst));
                        assert(forall|w: int| !self.vhv_ok(src, dst, w));
                        assert(self.first_candidate(src, dst, m));
                    }
                    return Some(m);
                }
                x = x + 1;
            }
        }
        None
    }
}

/// Absolute difference of two integers.
pub open spec fn dist1(a: int, b: int) -> int {
    if a >= b {
        a - b
    } else {
        b - a
    }
}

/// Chebyshev distance between two squares: the larger of the column and
/// row differences.
pub open spec fn cheb(a: Square, b: Square) -> int {
    imax(dist1(a.c as int, b.c as int), dist1(a.r as int, b.r as int))
}

/// Total length of a path: the sum of the Chebyshev distances of its
/// consecutive points.
pub open spec fn path_dist(s: Seq<Square>) -> int
    decreases s.len(),
{
    if s.len() <= 1 {
        0
    } else {
        path_dist(s.drop_last()) + cheb(s[s.len() - 2], s[s.len() - 1])
    }
}

/// The distance of a vertical-horizontal-vertical path is the sum of its
/// three (possibly degenerate) segment lengths.
proof fn lemma_vhv_path_dist(src: Square, dst: Square, w: int)
    requires
        src.c != dst.c,
        0 <= w <= usize::MAX,
    ensures
        path_dist(vhv_path(src, dst, w)) == dist1(src.r as int, w) + dist1(
            src.c as int,
            dst.c as int,
        ) + dist1(dst.r as int, w),
{
    reveal_with_fuel(path_dist, 5);
    let m1 = Square { c: src.c, r: w as usize };
    let m2 = Square { c: dst.c, r: w as usize };
    if src.r == w && dst.r == w {
        let p = seq![src, dst];
        assert(vhv_path(src, dst, w) =~= p);
        assert(p.drop_last() =~= seq![src]);
        assert(path_dist(p) == cheb(src, dst));
    } else if src.r != w && dst.r == w {
        let p = seq![src, m1, dst];
        assert(vhv_path(src, dst, w) =~= p);
        assert(p.drop_last() =~= seq![src, m1]);
        assert(p.drop_last().drop_last() =~= seq![src]);
        assert(path_dist(p) == cheb(src, m1) + cheb(m1, dst));
    } else if src.r == w && dst.r != w {
        let p = seq![src, m2, dst];
        assert(vhv_path(src, dst, w) =~= p);
        assert(p.drop_last() =~= seq![src, m2]);
        assert(p.drop_last().drop_last() =~= seq![src]);
        assert(path_dist(p) == cheb(src, m2) + cheb(m2, dst));
    } else {
        let p = seq![src, m1, m2, dst];
        assert(vhv_path(src, dst, w) =~= p);
        assert(p.drop_last() =~= seq![src, m1, m2]);
        assert(p.drop_last().drop_last() =~= seq![src, m1]);
        assert(p.drop_last().drop_last().drop_last() =~= seq![src]);
        assert(path_dist(p) == cheb(src, m1) + cheb(m1, m2) + cheb(m2, dst));
    }
}

/// The distance of a horizontal-vertical-horizontal path is the sum of
/// its three (possibly degenerate) segment lengths.
proof fn lemma_hvh_path_dist(src: Square, dst: Square, x: int)
    requires
        src.r != dst.r,
        0 <= x <= usize::MAX,
    ensures
        path_dist(hvh_path(src, dst, x)) == dist1(src.c as int, x) + dist1(
            src.r as int,
            dst.r as int,
        ) + dist1(dst.c as int, x),
{
    reveal_with_fuel(path_dist, 5);
    let m1 = Square { c: x as usize, r: src.r };
    let m2 = Square { c: x as usize, r: dst.r };
    if src.c == x && dst.c == x {
        let p = seq![src, dst];
        assert(hvh_path(src, dst, x) =~= p);
        assert(p.drop_last() =~= seq![src]);
        assert(path_dist(p) == cheb(src, dst));
    } else if src.c != x && dst.c == x {
        let p = seq![src, m1, dst];
        assert(hvh_path(src, dst, x) =~= p);
        assert(p.drop_last() =~= seq![src, m1]);
        assert(p.drop_last().drop_last() =~= seq![src]);
        assert(path_dist(p) == cheb(src, m1) + cheb(m1, dst));
    } else if src.c == x && dst.c != x {
        let p = seq![src, m2, dst];
        assert(hvh_path(src, dst, x) =~= p);
        assert(p.drop_last() =~= seq![src, m2]);
        assert(p.drop_last().drop_last() =~= seq![src]);
        assert(path_dist(p) == cheb(src, m2) + cheb(m2, dst));
    } else {
        let p = seq![src, m1, m2, dst];
        assert(hvh_path(src, dst, x) =~= p);
        assert(p.drop_last() =~= seq![src, m1, m2]);
        assert(p.drop_last().drop_last() =~= seq![src, m1]);
        assert(p.drop_last().drop_last().drop_last() =~= seq![src]);
        assert(path_dist(p) == cheb(src, m1) + cheb(m1, m2) + cheb(m2, dst));
    }
}

/// On a well-formed board the length of any candidate path fits in
/// `usize` with room to spare.
proof fn lemma_dist_headroom(b: Board)
    requires
        b.wf(),
    ensures
        2 * b.spec_nrow() + b.spec_ncol() - 3 < usize::MAX,
        2 * b.spec_ncol() + b.spec_nrow() - 3 < usize::MAX,
{
    assert(2 * b.spec_nrow() + b.spec_ncol() <= b.spec_ncol() * b.spec_nrow() + 2 && 2
        * b.spec_ncol() + b.spec_nrow() <= b.spec_ncol() * b.spec_nrow() + 2) by (nonlinear_arith)
        requires
            b.spec_ncol() >= 2,
            b.spec_nrow() >= 2,
    ;
    assert(b.spec_cells().len() <= usize::MAX);
}

/// Every prefix of a path is at most as long as the whole, and no
/// distance is negative.
proof fn lemma_path_dist_prefix(s: Seq<Square>, i: int)
    requires
        0 <= i <= s.len(),
    ensures
        0 <= path_dist(s.take(i)) <= path_dist(s),
    decreases s.len(),
{
    if i == s.len() {
        assert(s.take(i) =~= s);
        if s.len() > 1 {
            lemma_path_dist_prefix(s.drop_last(), s.len() - 1);
            assert(s.drop_last().take(s.len() - 1) =~= s.drop_last());
        }
    } else {
        if s.len() > 1 {
            assert(s.drop_last().take(i) =~= s.take(i));
            lemma_path_dist_prefix(s.drop_last(), i);
        } else {
            assert(s.take(i) =~= Seq::<Square>::empty());
        }
    }
}

impl Move {
    /// Total length of this move's path, by the Chebyshev metric.
    pub fn path_distance(&self) -> (d: usize)
        requires
            path_dist(self@) <= usize::MAX,
        ensures
            d == path_dist(self@),
    {
        let n: usize = self.path.len();
        if n <= 1 {
            return 0;
        }
        let mut d: usize = 0;
        let mut i: usize = 1;
        while i < n
            invariant
                1 <= i <= n,
                n == self@.len(),
                d == path_dist(self@.take(i as int)),
                path_dist(self@) <= usize::MAX,
            decreases n - i,
        {
            let a = self.path[i - 1];
            let b = self.path[i];
            let dc: usize = if a.c >= b.c {
                a.c - b.c
            } else {
                b.c - a.c
            };
            let dr: usize = if a.r >= b.r {
                a.r - b.r
            } else {
                b.r - a.r
            };
            let seg: usize = if dc >= dr {
                dc
            } else {
                dr
            };
            proof {
                let t = self@.take(i as int + 1);
                assert(t.drop_last() =~= self@.take(i as int));
                assert(t[t.len() - 2] == self@[i - 1] && t[t.len() - 1] == self@[i as int]);
                assert(path_dist(t) == path_dist(self@.take(i as int)) + cheb(
                    self@[i - 1],
                    self@[i as int],
                ));
                lemma_path_dist_prefix(self@, i as int + 1);
            }
            d = d + seg;
            i = i + 1;
        }
        proof {
            assert(self@.take(n as int) =~= self@);
        }
        d
    }
}

impl Board {
    /// Length of the vertical-horizontal-vertical candidate on row `w`.
    fn vhv_distance(&self, src: Square, dst: Square, w: usize) -> (d: usize)
        requires
            self.wf(),
            self.in_bounds(src),
            self.in_bounds(dst),
            src.c != dst.c,
            w < self.spec_nrow(),
        ensures
            d == path_dist(vhv_path(src, dst, w as int)),
    {
        proof {
            lemma_dist_headroom(*self);
            lemma_vhv_path_dist(src, dst, w as int);
        }
        let d1: usize = if src.r >= w {
            src.r - w
        } else {
            w - src.r
        };
        let d2: usize = if src.c >= dst.c {
            src.c - dst.c
        } else {
            dst.c - src.c
        };
        let d3: usize = if dst.r >= w {
            dst.r - w
        } else {
            w - dst.r
        };
        d1 + d2 + d3
    }

    /// Length of the horizontal-vertical-horizontal candidate on column `x`.
    fn hvh_distance(&self, src: Square, dst: Square, x: usize) -> (d: usize)
        requires
            self.wf(),
            self.in_bounds(src),
            self.in_bounds(dst),
            src.r != dst.r,
            x < self.spec_ncol(),
        ensures
            d == path_dist(hvh_path(src, dst, x as int)),
    {
        proof {
            lemma_dist_headroom(*self);
            lemma_hvh_path_dist(src, dst, x as int);
        }
        let d1: usize = if src.c >= x {
            src.c - x
        } else {
            x - src.c
        };
        let d2: usize = if src.r >= dst.r {
            src.r - dst.r
        } else {
            dst.r - src.r
        };
        let d3: usize = if dst.c >= x {
            dst.c - x
        } else {
            x - dst.c
        };
        d1 + d2 + d3
    }

    /// The shortest legal move between the two given squares, if any.
    ///
    /// Returns a move exactly when one exists, and no other candidate of
    /// either shape is shorter by the Chebyshev path metric.
    pub fn shortest_move_between(&self, src: Square, dst: Square) -> (mv: Option<Move>)
        requires
            self.wf(),
            self.in_bounds(src),
            self.in_bounds(dst),
        ensures
            mv is Some <==> self.connects(src, dst),
            mv matches Some(m) ==> self.valid_move(m) && m.spec_src() == src && m.spec_dst()
                == dst,
            mv matches Some(m) ==> (forall|w: int|
                #![trigger self.vhv_ok(src, dst, w)]
                self.vhv_ok(src, dst, w) ==> path_dist(m@) <= path_dist(vhv_path(src, dst, w))),
            mv matches Some(m) ==> (forall|x: int|
                #![trigger self.hvh_ok(src, dst, x)]
                self.hvh_ok(src, dst, x) ==> path_dist(m@) <= path_dist(hvh_path(src, dst, x))),
    {
        if src == dst {
            return None;
        }
        let csrc = self.cell_at(src);
        let cdst = self.cell_at(dst);
        if !csrc.is_same_tile(cdst) {
            return None;
        }
        let mut best: Option<Move> = None;
        let mut best_d: usize = 0;
        if src.c != dst.c {
            let mut w: usize = 0;
            while w < self.nrow
                invariant
                    self.wf(),
                    self.in_bounds(src),
                    self.in_bounds(dst),
                    src.c != dst.c,
                    src != dst,
                    self.cell(src).is_same_tile(self.cell(dst)),
                    w <= self.spec_nrow(),
                    best is None ==> forall|w2: int| 0 <= w2 < w ==> !self.vhv_ok(src, dst, w2),
                    best matches Some(bm) ==> self.valid_move(bm) && bm.spec_src() == src
                        && bm.spec_dst() == dst && best_d == path_dist(bm@),
                    best matches Some(bm) ==> (forall|w2: int|
                        #![trigger self.vhv_ok(src, dst, w2)]
                        0 <= w2 < w && self.vhv_ok(src, dst, w2) ==> best_d <= path_dist(
                            vhv_path(src, dst, w2),
                        )),
                decreases self.spec_nrow() - w,
            {
                if self.check_vhv(src, dst, w) {
                    let d = self.vhv_distance(src, dst, w);
                    if best.is_none() || d < best_d {
                        let m = Move::new_vhv(src, dst, w);
                        proof {
                            assert(self.vhv_ok(m.spec_src(), m.spec_dst(), w as int) && m@
                                == vhv_path(m.spec_src(), m.spec_dst(), w as int));
                            assert(self.valid_move(m));
                        }
                        best = Some(m);
                        best_d = d;
                    }
                }
                w = w + 1;
            }
        }
        proof {
            let gbest = best;
            if gbest is None {
                assert forall|w2: int| !self.vhv_ok(src, dst, w2) by {}
            }
            if gbest matches Some(bm) {
                assert forall|w2: int| #![trigger self.vhv_ok(src, dst, w2)]
                    self.vhv_ok(src, dst, w2) implies best_d <= path_dist(
                    vhv_path(src, dst, w2),
                ) by {}
            }
        }
        if src.r != dst.r {
            let mut x: usize = 0;
            while x < self.ncol
                invariant
                    self.wf(),
                    self.in_bounds(src),
                    self.in_bounds(dst),
                    src.r != dst.r,
                    src != dst,
                    self.cell(src).is_same_tile(self.cell(dst)),
                    x <= self.spec_ncol(),
                    best is None ==> forall|w2: int| !self.vhv_ok(src, dst, w2),
                    best is None ==> forall|x2: int| 0 <= x2 < x ==> !self.hvh_ok(src, dst, x2),
                    best matches Some(bm) ==> self.valid_move(bm) && bm.spec_src() == src
                        && bm.spec_dst() == dst && best_d == path_dist(bm@),
                    best matches Some(bm) ==> (forall|w2: int|
                        #![trigger self.vhv_ok(src, dst, w2)]
                        self.vhv_ok(src, dst, w2) ==> best_d <= path_dist(
                            vhv_path(src, dst, w2),
                        )),
                    best matches Some(bm) ==> (forall|x2: int|
                        #![trigger self.hvh_ok(src, dst, x2)]
                        0 <= x2 < x && self.hvh_ok(src, dst, x2) ==> best_d <= path_dist(
                            hvh_path(src, dst, x2),
                        )),
                decreases self.spec_ncol() - x,
            {
                if self.check_hvh(src, dst, x) {
                    let d = self.hvh_distance(src, dst, x);
                    if best.is_none() || d < best_d {
                        let m = Move::new_hvh(src, dst, x);
                        proof {
                            assert(self.hvh_ok(m.spec_src(), m.spec_dst(), x as int) && m@
                                == hvh_path(m.spec_src(), m.spec_dst(), x as int));
                            assert(self.valid_move(m));
                        }
                        best = Some(m);
                        best_d = d;
                    }
                }
                x = x + 1;
            }
        }
        proof {
            let gbest = best;
            if gbest is None {
                assert forall|x2: int| !self.hvh_ok(src, dst, x2) by {}
                assert(!self.connects(src, dst));
            }
            if gbest is Some {
                let bm = gbest->0;
                assert(self.valid_move(bm));
                assert(self.connects(src, dst));
            }
        }
        best
    }
}

/// Number of tile-holding cells in a cell sequence.
pub open spec fn count_tiles(s: Seq<BoardCell>) -> int
    decreases s.len(),
{
    if s.len() == 0 {
        0
    } else {
        count_tiles(s.drop_last()) + if s.last().is_tile() {
            1int
        } else {
            0int
        }
    }
}

/// Replacing one cell changes the tile count by the difference of the old
/// and new cells.
proof fn lemma_count_tiles_update(s: Seq<BoardCell>, i: int, v: BoardCell)
    requires
        0 <= i < s.len(),
    ensures
        count_tiles(s.update(i, v)) == count_tiles(s) - (if s[i].is_tile() {
            1int
        } else {
            0int
        }) + (if v.is_tile() {
            1int
        } else {
            0int
        }),
    decreases s.len(),
{
    if i == s.len() - 1 {
        assert(s.update(i, v).drop_last() =~= s.drop_last());
        assert(s.update(i, v).last() == v);
    } else {
        assert(s.update(i, v).drop_last() =~= s.drop_last().update(i, v));
        lemma_count_tiles_update(s.drop_last(), i, v);
    }
}

/// A sequence of empty cells holds no tile.
proof fn lemma_count_tiles_all_empty(s: Seq<BoardCell>)
    requires
        forall|i: int| 0 <= i < s.len() ==> (#[trigger] s[i]).is_empty(),
    ensures
        count_tiles(s) == 0,
    decreases s.len(),
{
    if s.len() > 0 {
        assert forall|i: int| 0 <= i < s.drop_last().len() implies (
        #[trigger] s.drop_last()[i]).is_empty() by {
            assert(s[i].is_empty());
        }
        lemma_count_tiles_all_empty(s.drop_last());
    }
}

/// The tile count of a sequence is never negative.
proof fn lemma_count_tiles_nonneg(s: Seq<BoardCell>)
    ensures
        0 <= count_tiles(s) <= s.len(),
    decreases s.len(),
{
    if s.len() > 0 {
        lemma_count_tiles_nonneg(s.drop_last());
    }
}

/// No move ever joins a square with itself, nor two squares that do not
/// hold tiles of one and the same kind: `find_move_between` and its
/// relatives report nothing for such a pair.
pub proof fn lemma_no_move_without_matching_pair(b: Board, src: Square, dst: Square)
    requires
        src == dst || !b.cell(src).is_same_tile(b.cell(dst)),
    ensures
        !b.connects(src, dst),
{
}

/// Whether two squares can be joined depends only on which cells are
/// occupied and on the two endpoint values: a board with the same
/// occupancy pattern and the same tiles at the endpoints admits the same
/// move.
pub proof fn lemma_connects_transfer(b1: Board, b2: Board, s: Square, d: Square)
    requires
        b1.wf(),
        b1.spec_ncol() == b2.spec_ncol(),
        b1.spec_nrow() == b2.spec_nrow(),
        forall|sq: Square|
            b1.in_bounds(sq) ==> ((#[trigger] b1.cell(sq)).is_tile() == b2.cell(sq).is_tile()),
        b1.in_bounds(s),
        b1.in_bounds(d),
        b2.cell(s) == b1.cell(s),
        b2.cell(d) == b1.cell(d),
        b1.connects(s, d),
    ensures
        b2.connects(s, d),
{
    assert forall|c: int, r: int|
        #![trigger b1.cell_cr(c, r)]
        #![trigger b2.cell_cr(c, r)]
        0 <= c < b1.spec_ncol() && 0 <= r < b1.spec_nrow() implies b1.cell_cr(c, r).is_empty()
        == b2.cell_cr(c, r).is_empty() by {
        let sq = Square { c: c as usize, r: r as usize };
        lemma_dims_bounded(b1);
        assert(b1.cell(sq).is_tile() == b2.cell(sq).is_tile());
    }
    assert forall|w: int| b1.vhv_ok(s, d, w) implies b2.vhv_ok(s, d, w) by {}
    assert forall|x: int| b1.hvh_ok(s, d, x) implies b2.hvh_ok(s, d, x) by {}
}

/// A value counted at least twice in a sequence sits at two distinct
/// indices.
proof fn lemma_count_two_to_indices<T>(s: Seq<T>, v: T)
    requires
        s.to_multiset().count(v) >= 2,
    ensures
        exists|i: int, j: int| 0 <= i < j < s.len() && #[trigger] s[i] == v && #[trigger] s[j] == v,
    decreases s.len(),
{
    broadcast use vstd::seq_lib::group_seq_properties;

    vstd::seq_lib::to_multiset_len(s);
    let d = s.drop_last();
    vstd::seq_lib::to_multiset_build(d, s.last());
    assert(d.push(s.last()) =~= s);
    if s.last() == v {
        vstd::seq_lib::to_multiset_contains(d, v);
        if d.to_multiset().count(v) >= 1 {
            let i = choose|i: int| 0 <= i < d.len() && d[i] == v;
            assert(s[i] == v && s[s.len() - 1] == v);
        }
    } else {
        lemma_count_two_to_indices(d, v);
        let (i, j) = choose|i: int, j: int|
            0 <= i < j < d.len() && #[trigger] d[i] == v && #[trigger] d[j] == v;
        assert(s[i] == v && s[j] == v);
    }
}

/// A value at two distinct indices is counted at least twice.
proof fn lemma_indices_to_count_two<T>(s: Seq<T>, i: int, j: int)
    requires
        0 <= i < j < s.len(),
        s[i] == s[j],
    ensures
        s.to_multiset().count(s[i]) >= 2,
{
    broadcast use vstd::seq_lib::group_seq_properties;
    broadcast use vstd::multiset::group_multiset_axioms;

    let v = s[i];
    vstd::seq_lib::to_multiset_remove(s, j);
    let s2 = s.remove(j);
    assert(s2[i] == v);
    assert(s2.contains(v));
    vstd::seq_lib::to_multiset_contains(s2, v);
    assert(s.to_multiset().remove(v).count(v) >= 1);
}

/// A row-major index names an in-bounds square, and the cell there is the
/// sequence element at that index.
proof fn lemma_index_to_square(b: Board, i: int) -> (sq: Square)
    requires
        b.wf(),
        0 <= i < b.spec_cells().len(),
    ensures
        b.in_bounds(sq),
        sq.r as int * b.spec_ncol() + sq.c as int == i,
        b.cell(sq) == b.spec_cells()[i],
{
    let nc = b.spec_ncol();
    let nr = b.spec_nrow();
    vstd::arithmetic::div_mod::lemma_fundamental_div_mod(i, nc);
    vstd::arithmetic::div_mod::lemma_mod_bound(i, nc);
    let c = i % nc;
    let r = i / nc;
    assert(0 <= r && r < nr) by (nonlinear_arith)
        requires
            i == nc * r + c,
            0 <= c < nc,
            0 <= i < nr * nc || 0 <= i < nc * nr,
            nc >= 2,
            b.spec_cells().len() == nc * nr,
            i < b.spec_cells().len(),
    ;
    let sq = Square { c: c as usize, r: r as usize };
    lemma_dims_bounded(b);
    assert(r * nc == nc * r) by (nonlinear_arith);
    assert(sq.r as int * nc + sq.c as int == i);
    sq
}

/// Some tile kind occurs at least twice on the board, so a matching pair
/// exists somewhere (though not necessarily a connectable one).
pub open spec fn has_matching_pair(self_cells: Seq<BoardCell>) -> bool {
    exists|v: BoardCell| v.is_tile() && #[trigger] self_cells.to_multiset().count(v) >= 2
}

/// A board with a doubled kind holds that kind on two distinct interior
/// squares.
proof fn lemma_matching_pair_squares(b: Board) -> (r: (Square, Square))
    requires
        b.wf(),
        has_matching_pair(b.spec_cells()),
    ensures
        b.inner(r.0),
        b.inner(r.1),
        r.0 != r.1,
        b.cell(r.0).is_tile(),
        b.cell(r.0) == b.cell(r.1),
{
    let v = choose|v: BoardCell| v.is_tile() && #[trigger] b.spec_cells().to_multiset().count(v)
        >= 2;
    lemma_count_two_to_indices(b.spec_cells(), v);
    let (i, j) = choose|i: int, j: int|
        0 <= i < j < b.spec_cells().len() && #[trigger] b.spec_cells()[i] == v
            && #[trigger] b.spec_cells()[j] == v;
    let s1 = lemma_index_to_square(b, i);
    let s2 = lemma_index_to_square(b, j);
    assert(s1 != s2) by {
        if s1 == s2 {
            assert(i == j);
        }
    }
    b.lemma_tile_inner(s1);
    b.lemma_tile_inner(s2);
    (s1, s2)
}

/// The connect relation does not depend on the order of its endpoints.
pub proof fn lemma_connects_symmetric(b: Board, s: Square, d: Square)
    ensures
        b.connects(s, d) == b.connects(d, s),
{
    assert forall|w: int| b.vhv_ok(s, d, w) implies b.vhv_ok(d, s, w) by {}
    assert forall|w: int| b.vhv_ok(d, s, w) implies b.vhv_ok(s, d, w) by {}
    assert forall|x: int| b.hvh_ok(s, d, x) implies b.hvh_ok(d, s, x) by {}
    assert forall|x: int| b.hvh_ok(d, s, x) implies b.hvh_ok(s, d, x) by {}
}

impl Board {
    /// No cell of the board holds a tile.
    pub open spec fn spec_is_empty(self) -> bool {
        forall|c: int, r: int|
            0 <= c < self.spec_ncol() && 0 <= r < self.spec_nrow() ==> (#[trigger] self.cell_cr(
                c,
                r,
            )).is_empty()
    }

    /// Some legal move exists somewhere on the board.
    pub open spec fn has_move(self) -> bool {
        exists|src: Square, dst: Square|
            self.in_bounds(src) && self.in_bounds(dst) && #[trigger] self.connects(src, dst)
    }

    /// Number of tiles on the board.
    pub open spec fn tile_count(self) -> int {
        count_tiles(self.spec_cells())
    }

    /// A tile can only sit in the interior of a well-formed board.
    proof fn lemma_tile_inner(self, sq: Square)
        requires
            self.wf(),
            self.in_bounds(sq),
            self.cell(sq).is_tile(),
        ensures
            self.inner(sq),
    {
        if !self.inner(sq) {
            assert(self.on_border(sq.c as int, sq.r as int));
            assert(self.cell_cr(sq.c as int, sq.r as int).is_empty());
        }
    }

    /// True iff every cell of the board is empty.
    pub fn is_empty(&self) -> (b: bool)
        requires
            self.wf(),
        ensures
            b == self.spec_is_empty(),
    {
        let v = self.squares_inner();
        let n: usize = v.len();
        let mut i: usize = 0;
        while i < n
            invariant
                self.wf(),
                i <= n,
                n == v@.len(),
                forall|k: int| 0 <= k < v@.len() ==> self.inner(#[trigger] v@[k]),
                forall|sq: Square| self.inner(sq) ==> v@.contains(sq),
                forall|k: int| 0 <= k < i ==> (#[trigger] self.cell(v@[k])).is_empty(),
            decreases n - i,
        {
            if !self.cell_at(v[i]).is_empty() {
                return false;
            }
            i = i + 1;
        }
        proof {
            assert forall|c: int, r: int|
                0 <= c < self.spec_ncol() && 0 <= r < self.spec_nrow() implies (
            #[trigger] self.cell_cr(c, r)).is_empty() by {
                lemma_dims_bounded(*self);
                let sq = Square { c: c as usize, r: r as usize };
                if self.on_border(c, r) {
                    assert(self.cell_cr(c, r).is_empty());
                } else {
                    assert(self.inner(sq));
                    assert(v@.contains(sq));
                    let k = choose|k: int| 0 <= k < v@.len() && v@[k] == sq;
                    assert(self.cell(v@[k]).is_empty());
                }
            }
        }
        true
    }

    /// The first legal move on the board under the fixed pair enumeration,
    /// or nothing when the board admits no move at all.
    pub fn find_move(&self) -> (mv: Option<Move>)
        requires
            self.wf(),
        ensures
            mv is Some <==> self.has_move(),
            mv matches Some(m) ==> self.valid_move(m),
            mv matches Some(m) ==> self.first_candidate(m.spec_src(), m.spec_dst(), m),
            mv matches Some(m) ==> (forall|a: Square, b: Square|
                self.inner(a) && self.inner(b) && lex_before(a, b) && (lex_before(a, m.spec_src())
                    || (a == m.spec_src() && lex_before(b, m.spec_dst()))) ==> !(
                #[trigger] self.connects(a, b))),
    {
        let v = self.squares_inner();
        let n: usize = v.len();
        let mut i: usize = 0;
        while i < n
            invariant
                self.wf(),
                i <= n,
                n == v@.len(),
                forall|k: int| 0 <= k < v@.len() ==> self.inner(#[trigger] v@[k]),
                forall|sq: Square| self.inner(sq) ==> v@.contains(sq),
                forall|k1: int, k2: int|
                    0 <= k1 < k2 < v@.len() ==> lex_before(v@[k1], v@[k2]),
                forall|a: int, b: int|
                    0 <= a < i && a < b < v@.len() ==> !self.connects(
                        #[trigger] v@[a],
                        #[trigger] v@[b],
                    ),
            decreases n - i,
        {
            let mut j: usize = i + 1;
            while j < n
                invariant
                    self.wf(),
                    i < n,
                    i + 1 <= j <= n,
                    n == v@.len(),
                    forall|k: int| 0 <= k < v@.len() ==> self.inner(#[trigger] v@[k]),
                    forall|sq: Square| self.inner(sq) ==> v@.contains(sq),
                    forall|k1: int, k2: int|
                        0 <= k1 < k2 < v@.len() ==> lex_before(v@[k1], v@[k2]),
                    forall|a: int, b: int|
                        0 <= a < i && a < b < v@.len() ==> !self.connects(
                            #[trigger] v@[a],
                            #[trigger] v@[b],
                        ),
                    forall|b: int| i < b < j ==> !self.connects(v@[i as int], #[trigger] v@[b]),
                decreases n - j,
            {
                let found = self.find_move_between(v[i], v[j]);
                if found.is_some() {
                    proof {
                        assert(self.connects(v@[i as int], v@[j as int]));
                        let src = v@[i as int];
                        let dst = v@[j as int];
                        assert forall|a: Square, b: Square|
                            self.inner(a) && self.inner(b) && lex_before(a, b) && (lex_before(
                                a,
                                src,
                            ) || (a == src && lex_before(b, dst))) implies !(
                        #[trigger] self.connects(a, b)) by {
                            assert(v@.contains(a));
                            assert(v@.contains(b));
                            let ka = choose|kk: int| 0 <= kk < v@.len() && v@[kk] == a;
                            let kb = choose|kk: int| 0 <= kk < v@.len() && v@[kk] == b;
                            assert(ka < kb) by {
                                if kb < ka {
                                    assert(lex_before(v@[kb], v@[ka]));
                                } else if kb == ka {
                                    assert(a == b);
                                }
                            }
                            if lex_before(a, src) {
                                assert(ka < i) by {
                                    if ka > i {
                                        assert(lex_before(v@[i as int], v@[ka]));
                                    }
                                }
                                assert(!self.connects(v@[ka], v@[kb]));
                            } else {
                                assert(ka == i as int) by {
                                    if ka < i {
                                        assert(lex_before(v@[ka], v@[i as int]));
                                    } else if ka > i {
                                        assert(lex_before(v@[i as int], v@[ka]));
                                    }
                                }
                                assert(kb > i as int);
                                assert(kb < j) by {
                                    if kb > j {
                                        assert(lex_before(v@[j as int], v@[kb]));
                                    }
                                }
                                assert(!self.connects(v@[i as int], v@[kb]));
                            }
                        }
                    }
                    return found;
                }
                j = j + 1;
            }
            i = i + 1;
        }
        proof {
            assert forall|src: Square, dst: Square|
                self.in_bounds(src) && self.in_bounds(dst) implies !(#[trigger] self.connects(
                src,
                dst,
            )) by {
                if self.connects(src, dst) {
                    self.lemma_tile_inner(src);
                    self.lemma_tile_inner(dst);
                    assert(v@.contains(src));
                    assert(v@.contains(dst));
                    let ka = choose|k: int| 0 <= k < v@.len() && v@[k] == src;
                    let kb = choose|k: int| 0 <= k < v@.len() && v@[k] == dst;
                    if ka < kb {
                        assert(!self.connects(v@[ka], v@[kb]));
                    } else if kb < ka {
                        lemma_connects_symmetric(*self, src, dst);
                        assert(!self.connects(v@[kb], v@[ka]));
                    } else {
                        assert(src == dst);
                    }
                }
            }
        }
        None
    }

    /// True iff the board still holds tiles but no legal move remains.
    pub fn is_stuck(&self) -> (b: bool)
        requires
            self.wf(),
        ensures
            b == (!self.spec_is_empty() && !self.has_move()),
    {
        !self.is_empty() && self.find_move().is_none()
    }

    /// Carry out a move: both of its end tiles leave the board. The move
    /// must have been computed against the board's current state.
    pub fn do_move(&mut self, mv: &Move)
        requires
            old(self).wf(),
            old(self).valid_move(*mv),
        ensures
            final(self).wf(),
            final(self).spec_ncol() == old(self).spec_ncol(),
            final(self).spec_nrow() == old(self).spec_nrow(),
            final(self).cell(mv.spec_src()).is_empty(),
            final(self).cell(mv.spec_dst()).is_empty(),
            forall|sq: Square|
                old(self).in_bounds(sq) && sq != mv.spec_src() && sq != mv.spec_dst()
                    ==> final(self).cell(sq) == old(self).cell(sq),
            final(self).tile_count() == old(self).tile_count() - 2,
    {
        proof {
            lemma_valid_move_shape(*self, *mv);
        }
        let src = mv.src();
        let dst = mv.dst();
        let ghost mid = self.spec_cells();
        proof {
            lemma_lin_in_range(self.spec_ncol(), self.spec_nrow(), src.c as int, src.r as int);
            lemma_lin_in_range(self.spec_ncol(), self.spec_nrow(), dst.c as int, dst.r as int);
            lemma_lin_injective(
                self.spec_ncol(),
                self.spec_nrow(),
                src.c as int,
                src.r as int,
                dst.c as int,
                dst.r as int,
            );
            lemma_count_tiles_update(
                self.spec_cells(),
                src.r as int * self.spec_ncol() + src.c as int,
                BoardCell::Empty,
            );
        }
        self.set_cell(src, BoardCell::Empty);
        proof {
            lemma_count_tiles_update(
                self.spec_cells(),
                dst.r as int * self.spec_ncol() + dst.c as int,
                BoardCell::Empty,
            );
        }
        self.set_cell(dst, BoardCell::Empty);
    }
}

/// A valid move's path has its endpoints first and last, and two to four
/// points in all.
proof fn lemma_valid_move_shape(b: Board, m: Move)
    requires
        b.valid_move(m),
    ensures
        2 <= m@.len() <= 4,
        m@[0] == m.spec_src(),
        m@[m@.len() - 1] == m.spec_dst(),
{
    let src = m.spec_src();
    let dst = m.spec_dst();
    if exists|w: int|
        b.vhv_ok(src, dst, w) && m@ == vhv_path(src, dst, w) {
        let w = choose|w: int| b.vhv_ok(src, dst, w) && m@ == vhv_path(src, dst, w);
        assert(m@ == vhv_path(src, dst, w));
    } else {
        let x = choose|x: int| b.hvh_ok(src, dst, x) && m@ == hvh_path(src, dst, x);
        assert(m@ == hvh_path(src, dst, x));
    }
}

/// Every point of a valid move's path between its two endpoints was empty
/// on the board the move was computed against.
pub proof fn lemma_move_path_intermediates_empty(b: Board, m: Move)
    requires
        b.wf(),
        b.valid_move(m),
    ensures
        forall|i: int| 0 < i < m@.len() - 1 ==> (#[trigger] b.cell(m@[i])).is_empty(),
{
    lemma_dims_bounded(b);
    let src = m.spec_src();
    let dst = m.spec_dst();
    assert forall|i: int| 0 < i < m@.len() - 1 implies (#[trigger] b.cell(m@[i])).is_empty() by {
        if exists|w: int|
            #![trigger b.vhv_ok(src, dst, w)]
            b.vhv_ok(src, dst, w) && m@ == vhv_path(src, dst, w) {
            let w = choose|w: int|
                #![trigger b.vhv_ok(src, dst, w)]
                b.vhv_ok(src, dst, w) && m@ == vhv_path(src, dst, w);
            let m1 = Square { c: src.c, r: w as usize };
            let m2 = Square { c: dst.c, r: w as usize };
            if src.r != w && m@[i] == m1 {
                if w < src.r {
                    assert(b.cell_cr(src.c as int, w).is_empty());
                } else {
                    assert(b.cell_cr(src.c as int, w).is_empty());
                }
                assert(b.cell(m1).is_empty());
            } else {
                assert(dst.r != w && m@[i] == m2);
                assert(b.cell_cr(dst.c as int, w).is_empty());
                assert(b.cell(m2).is_empty());
            }
        } else {
            let x = choose|x: int|
                #![trigger b.hvh_ok(src, dst, x)]
                b.hvh_ok(src, dst, x) && m@ == hvh_path(src, dst, x);
            let m1 = Square { c: x as usize, r: src.r };
            let m2 = Square { c: x as usize, r: dst.r };
            if src.c != x && m@[i] == m1 {
                assert(b.cell_cr(x, src.r as int).is_empty());
                assert(b.cell(m1).is_empty());
            } else {
                assert(dst.c != x && m@[i] == m2);
                assert(b.cell_cr(x, dst.r as int).is_empty());
                assert(b.cell(m2).is_empty());
            }
        }
    }
}

impl Board {
    /// Every tile on the board paired with its square, in row-major order.
    pub fn enumerate_tiles(&self) -> (e: Vec<(Square, BoardCell)>)
        requires
            self.wf(),
        ensures
            forall|k: int|
                0 <= k < e@.len() ==> self.inner((#[trigger] e@[k]).0) && e@[k].1 == self.cell(
                    e@[k].0,
                ) && e@[k].1.is_tile(),
            forall|k1: int, k2: int|
                0 <= k1 < k2 < e@.len() ==> lex_before(e@[k1].0, e@[k2].0),
            forall|sq: Square|
                self.inner(sq) && (#[trigger] self.cell(sq)).is_tile() ==> exists|k: int|
                    0 <= k < e@.len() && (#[trigger] e@[k]).0 == sq,
    {
        let v = self.squares_inner();
        let n: usize = v.len();
        let mut e: Vec<(Square, BoardCell)> = Vec::new();
        let mut i: usize = 0;
        while i < n
            invariant
                self.wf(),
                i <= n,
                n == v@.len(),
                forall|k: int| 0 <= k < v@.len() ==> self.inner(#[trigger] v@[k]),
                forall|k1: int, k2: int|
                    0 <= k1 < k2 < v@.len() ==> lex_before(v@[k1], v@[k2]),
                forall|sq: Square| self.inner(sq) ==> v@.contains(sq),
                forall|k: int|
                    0 <= k < e@.len() ==> self.inner((#[trigger] e@[k]).0) && e@[k].1 == self.cell(
                        e@[k].0,
                    ) && e@[k].1.is_tile(),
                forall|k1: int, k2: int|
                    0 <= k1 < k2 < e@.len() ==> lex_before(e@[k1].0, e@[k2].0),
                forall|k: int|
                    0 <= k < e@.len() ==> exists|j: int|
                        0 <= j < i && v@[j] == (#[trigger] e@[k]).0,
                forall|j: int|
                    0 <= j < i && (#[trigger] self.cell(v@[j])).is_tile() ==> exists|k: int|
                        0 <= k < e@.len() && (#[trigger] e@[k]).0 == v@[j],
            decreases n - i,
        {
            let sq = v[i];
            let cl = self.cell_at(sq);
            if cl.is_tile() {
                let ghost epre = e@;
                e.push((sq, cl));
                proof {
                    assert forall|k1: int, k2: int|
                        0 <= k1 < k2 < e@.len() implies lex_before(e@[k1].0, e@[k2].0) by {
                        if k2 == e@.len() - 1 {
                            let j = choose|j: int| 0 <= j < i && v@[j] == epre[k1].0;
                            assert(lex_before(v@[j], v@[i as int]));
                        }
                    }
                    assert forall|j: int|
                        0 <= j < i + 1 && (#[trigger] self.cell(v@[j])).is_tile() implies exists|
                        k: int,
                    |
                        0 <= k < e@.len() && (#[trigger] e@[k]).0 == v@[j] by {
                        if j == i as int {
                            assert(e@[e@.len() - 1].0 == v@[i as int]);
                        } else {
                            let k0 = choose|k0: int| 0 <= k0 < epre.len() && epre[k0].0 == v@[j];
                            assert(e@[k0] == epre[k0]);
                            assert(e@[k0].0 == v@[j]);
                        }
                    }
                }
            }
            i = i + 1;
        }
        proof {
            assert forall|sq: Square|
                self.inner(sq) && (#[trigger] self.cell(sq)).is_tile() implies exists|k: int|
                0 <= k < e@.len() && (#[trigger] e@[k]).0 == sq by {
                assert(v@.contains(sq));
                let j = choose|j: int| 0 <= j < v@.len() && v@[j] == sq;
                assert(self.cell(v@[j]).is_tile());
            }
        }
        e
    }

    /// The tiles on the board in row-major order, without their squares.
    ///
    /// The result is pinned down by a witness sequence of squares: the
    /// row-major list of all occupied squares, whose cells are the returned
    /// values.
    pub fn iter_tiles(&self) -> (t: Vec<BoardCell>)
        requires
            self.wf(),
        ensures
            forall|k: int| 0 <= k < t@.len() ==> (#[trigger] t@[k]).is_tile(),
            exists|qs: Seq<Square>|
                {
                    &&& #[trigger] qs.len() == t@.len()
                    &&& (forall|k: int|
                        0 <= k < qs.len() ==> self.inner(#[trigger] qs[k]) && self.cell(qs[k])
                            == t@[k])
                    &&& (forall|k1: int, k2: int|
                        0 <= k1 < k2 < qs.len() ==> lex_before(qs[k1], qs[k2]))
                    &&& (forall|sq: Square|
                        self.inner(sq) && (#[trigger] self.cell(sq)).is_tile() ==> qs.contains(
                            sq,
                        ))
                },
    {
        broadcast use vstd::seq_lib::group_seq_properties;

        let e = self.enumerate_tiles();
        let n: usize = e.len();
        let mut t: Vec<BoardCell> = Vec::new();
        let mut i: usize = 0;
        while i < n
            invariant
                i <= n,
                n == e@.len(),
                t@.len() == i,
                forall|k: int| 0 <= k < i ==> t@[k] == (#[trigger] e@[k]).1,
            decreases n - i,
        {
            t.push(e[i].1);
            i = i + 1;
        }
        proof {
            assert forall|k: int| 0 <= k < t@.len() implies (#[trigger] t@[k]).is_tile() by {
                assert(t@[k] == e@[k].1);
            }
            let qs = e@.map_values(|pr: (Square, BoardCell)| pr.0);
            assert forall|sq: Square|
                self.inner(sq) && (#[trigger] self.cell(sq)).is_tile() implies qs.contains(
                sq,
            ) by {
                let k = choose|k: int| 0 <= k < e@.len() && (#[trigger] e@[k]).0 == sq;
                assert(qs[k] == sq);
            }
            assert(qs.len() == t@.len() && (forall|k: int|
                0 <= k < qs.len() ==> self.inner(#[trigger] qs[k]) && self.cell(qs[k]) == t@[k])
                && (forall|k1: int, k2: int|
                0 <= k1 < k2 < qs.len() ==> lex_before(qs[k1], qs[k2])) && (forall|sq: Square|
                self.inner(sq) && (#[trigger] self.cell(sq)).is_tile() ==> qs.contains(sq)));
        }
        t
    }
}

/// Relies on rand's `SliceRandom::shuffle` with `thread_rng`: it permutes
/// the elements of the vector in place, so the multiset of elements (and
/// hence the length) is unchanged. Nothing is assumed about the order.
#[verifier::external_body]
fn shuffle_vec<T>(v: &mut Vec<T>)
    ensures
        final(v)@.to_multiset() == old(v)@.to_multiset(),
        final(v)@.len() == old(v)@.len(),
{
    v.shuffle(&mut rand::thread_rng());
}

impl Board {
    /// Shuffle the kinds of all tiles of this board in place, writing the
    /// resulting arrangement onto `target` at the same squares. The two
    /// boards must have equal dimensions and agree on every occupied
    /// square of this board, and they still do afterwards. Each board
    /// keeps its occupancy and its multiset of cells: kinds move between
    /// occupied squares, none appears or disappears.
    fn shuffle_into(&mut self, target: &mut Board)
        requires
            old(self).wf(),
            old(target).wf(),
            old(target).spec_ncol() == old(self).spec_ncol(),
            old(target).spec_nrow() == old(self).spec_nrow(),
            forall|sq: Square|
                old(self).in_bounds(sq) && (#[trigger] old(self).cell(sq)).is_tile() ==> old(
                    target,
                ).cell(sq) == old(self).cell(sq),
        ensures
            final(self).wf(),
            final(target).wf(),
            final(self).spec_ncol() == old(self).spec_ncol(),
            final(self).spec_nrow() == old(self).spec_nrow(),
            final(target).spec_ncol() == old(target).spec_ncol(),
            final(target).spec_nrow() == old(target).spec_nrow(),
            forall|sq: Square|
                old(self).in_bounds(sq) ==> ((#[trigger] final(self).cell(sq)).is_tile()
                    == old(self).cell(sq).is_tile()),
            forall|sq: Square|
                old(target).in_bounds(sq) ==> ((#[trigger] final(target).cell(sq)).is_tile()
                    == old(target).cell(sq).is_tile()),
            final(self).spec_cells().to_multiset() == old(self).spec_cells().to_multiset(),
            final(target).spec_cells().to_multiset() == old(target).spec_cells().to_multiset(),
            final(self).tile_count() == old(self).tile_count(),
            final(target).tile_count() == old(target).tile_count(),
            forall|sq: Square|
                final(self).in_bounds(sq) && (#[trigger] final(self).cell(sq)).is_tile()
                    ==> final(target).cell(sq) == final(self).cell(sq),
            forall|sq: Square|
                old(self).in_bounds(sq) && (#[trigger] old(self).cell(sq)).is_empty()
                    ==> final(target).cell(sq) == old(target).cell(sq),
    {
        broadcast use vstd::seq_lib::group_to_multiset_ensures;
        broadcast use vstd::multiset::group_multiset_axioms;

        let e = self.enumerate_tiles();
        let n: usize = e.len();
        let mut vals: Vec<BoardCell> = Vec::new();
        let mut i: usize = 0;
        while i < n
            invariant
                i <= n,
                n == e@.len(),
                vals@.len() == i,
                forall|k: int| 0 <= k < i ==> vals@[k] == (#[trigger] e@[k]).1,
            decreases n - i,
        {
            vals.push(e[i].1);
            i = i + 1;
        }
        let ghost olds = vals@;
        shuffle_vec(&mut vals);
        proof {
            assert forall|k: int| 0 <= k < vals@.len() implies (#[trigger] vals@[k]).is_tile() by {
                assert(vals@.contains(vals@[k]));
                assert(olds.to_multiset().count(vals@[k]) > 0);
                assert(olds.contains(vals@[k]));
                let k0 = choose|k0: int| 0 <= k0 < olds.len() && olds[k0] == vals@[k];
                assert(e@[k0].1.is_tile());
            }
        }
        let ghost b0 = *self;
        let ghost t0 = *target;
        proof {
            let e0 = olds.subrange(0, 0);
            let e1 = vals@.subrange(0, 0);
            assert forall|a: BoardCell| e0.to_multiset().count(a) == 0 && e1.to_multiset().count(
                a,
            ) == 0 by {
                vstd::seq_lib::to_multiset_contains(e0, a);
                vstd::seq_lib::to_multiset_contains(e1, a);
                assert(!e0.contains(a) && !e1.contains(a));
            }
            assert(self.spec_cells().to_multiset().add(e0.to_multiset())
                =~= b0.spec_cells().to_multiset().add(e1.to_multiset()));
            assert(target.spec_cells().to_multiset().add(e0.to_multiset())
                =~= t0.spec_cells().to_multiset().add(e1.to_multiset()));
        }
        let mut j: usize = 0;
        while j < n
            invariant
                n == e@.len(),
                j <= n,
                n == vals@.len(),
                b0.wf(),
                t0.wf(),
                self.wf(),
                target.wf(),
                self.spec_ncol() == b0.spec_ncol(),
                self.spec_nrow() == b0.spec_nrow(),
                target.spec_ncol() == b0.spec_ncol(),
                target.spec_nrow() == b0.spec_nrow(),
                t0.spec_ncol() == b0.spec_ncol(),
                t0.spec_nrow() == b0.spec_nrow(),
                forall|k: int|
                    0 <= k < e@.len() ==> b0.inner((#[trigger] e@[k]).0) && e@[k].1 == b0.cell(
                        e@[k].0,
                    ) && e@[k].1.is_tile(),
                forall|sq: Square|
                    b0.inner(sq) && (#[trigger] b0.cell(sq)).is_tile() ==> exists|k: int|
                        0 <= k < e@.len() && (#[trigger] e@[k]).0 == sq,
                forall|sq: Square|
                    b0.in_bounds(sq) && (#[trigger] b0.cell(sq)).is_tile() ==> t0.cell(sq)
                        == b0.cell(sq),
                forall|k1: int, k2: int|
                    0 <= k1 < k2 < e@.len() ==> lex_before(e@[k1].0, e@[k2].0),
                forall|k: int| 0 <= k < olds.len() ==> olds[k] == (#[trigger] e@[k]).1,
                olds.len() == n,
                forall|k: int| 0 <= k < vals@.len() ==> (#[trigger] vals@[k]).is_tile(),
                forall|sq: Square|
                    b0.in_bounds(sq) ==> ((#[trigger] self.cell(sq)).is_tile() == b0.cell(
                        sq,
                    ).is_tile()),
                forall|sq: Square|
                    t0.in_bounds(sq) ==> ((#[trigger] target.cell(sq)).is_tile() == t0.cell(
                        sq,
                    ).is_tile()),
                forall|k: int| j <= k < e@.len() ==> self.cell((#[trigger] e@[k]).0) == b0.cell(
                    e@[k].0,
                ),
                forall|k: int| j <= k < e@.len() ==> target.cell((#[trigger] e@[k]).0) == t0.cell(
                    e@[k].0,
                ),
                forall|k: int|
                    0 <= k < j ==> self.cell((#[trigger] e@[k]).0) == vals@[k] && target.cell(
                        e@[k].0,
                    ) == vals@[k],
                forall|sq: Square|
                    b0.in_bounds(sq) && (#[trigger] b0.cell(sq)).is_empty() ==> target.cell(sq)
                        == t0.cell(sq),
                self.spec_cells().to_multiset().add(olds.subrange(0, j as int).to_multiset())
                    == b0.spec_cells().to_multiset().add(
                    vals@.subrange(0, j as int).to_multiset(),
                ),
                target.spec_cells().to_multiset().add(olds.subrange(0, j as int).to_multiset())
                    == t0.spec_cells().to_multiset().add(
                    vals@.subrange(0, j as int).to_multiset(),
                ),
                self.tile_count() == b0.tile_count(),
                target.tile_count() == t0.tile_count(),
            decreases n - j,
        {
            let sq = e[j].0;
            let ghost pre = *self;
            let ghost pre_t = *target;
            proof {
                lemma_lin_in_range(self.spec_ncol(), self.spec_nrow(), sq.c as int, sq.r as int);
            }
            self.set_cell(sq, vals[j]);
            target.set_cell(sq, vals[j]);
            proof {
                let li = sq.r as int * pre.spec_ncol() + sq.c as int;
                let o = pre.cell(sq);
                let nv = vals@[j as int];
                assert(pre.spec_cells()[li] == o);
                assert(pre.spec_cells().contains(o)) by {
                    assert(pre.spec_cells()[li] == o);
                }
                vstd::seq_lib::to_multiset_contains(pre.spec_cells(), o);
                assert(self.spec_cells() == pre.spec_cells().update(li, nv));
                vstd::seq_lib::to_multiset_update(pre.spec_cells(), li, nv);
                lemma_count_tiles_update(pre.spec_cells(), li, nv);
                assert(o.is_tile() && nv.is_tile());
                assert(o == b0.cell(sq) && o == olds[j as int]);
                assert(pre_t.cell(sq) == t0.cell(sq) && t0.cell(sq) == b0.cell(sq));
                assert(pre_t.spec_cells()[li] == o);
                assert(pre_t.spec_cells().contains(o)) by {
                    assert(pre_t.spec_cells()[li] == o);
                }
                vstd::seq_lib::to_multiset_contains(pre_t.spec_cells(), o);
                assert(target.spec_cells() == pre_t.spec_cells().update(li, nv));
                vstd::seq_lib::to_multiset_update(pre_t.spec_cells(), li, nv);
                lemma_count_tiles_update(pre_t.spec_cells(), li, nv);
                let po = olds.subrange(0, j as int);
                let pv = vals@.subrange(0, j as int);
                let po1 = olds.subrange(0, j as int + 1);
                let pv1 = vals@.subrange(0, j as int + 1);
                assert(po1 =~= po.push(olds[j as int]));
                assert(pv1 =~= pv.push(nv));
                vstd::seq_lib::to_multiset_build(po, o);
                vstd::seq_lib::to_multiset_build(pv, nv);
                assert(po1.to_multiset() == po.to_multiset().insert(o));
                assert(pv1.to_multiset() == pv.to_multiset().insert(nv));
                assert forall|a: BoardCell|
                    self.spec_cells().to_multiset().add(po1.to_multiset()).count(a)
                        == b0.spec_cells().to_multiset().add(pv1.to_multiset()).count(a)
                        && target.spec_cells().to_multiset().add(po1.to_multiset()).count(a)
                        == t0.spec_cells().to_multiset().add(pv1.to_multiset()).count(a) by {
                    assert(self.spec_cells().to_multiset() == pre.spec_cells().to_multiset().insert(
                        nv,
                    ).remove(o));
                    assert(target.spec_cells().to_multiset()
                        == pre_t.spec_cells().to_multiset().insert(nv).remove(o));
                    assert(pre.spec_cells().to_multiset().count(o) > 0);
                    assert(pre_t.spec_cells().to_multiset().count(o) > 0);
                    assert(pre.spec_cells().to_multiset().add(po.to_multiset()).count(a)
                        == b0.spec_cells().to_multiset().add(pv.to_multiset()).count(a));
                    assert(pre_t.spec_cells().to_multiset().add(po.to_multiset()).count(a)
                        == t0.spec_cells().to_multiset().add(pv.to_multiset()).count(a));
                    let m_pre = pre.spec_cells().to_multiset();
                    let m_pre_t = pre_t.spec_cells().to_multiset();
                    let s_o = Multiset::singleton(o);
                    let s_n = Multiset::singleton(nv);
                    assert(s_o.count(a) == if a == o {
                        1nat
                    } else {
                        0nat
                    });
                    assert(s_n.count(a) == if a == nv {
                        1nat
                    } else {
                        0nat
                    });
                    assert(self.spec_cells().to_multiset().count(a) == m_pre.add(s_n).sub(
                        s_o,
                    ).count(a));
                    assert(m_pre.add(s_n).count(a) == m_pre.count(a) + s_n.count(a));
                    assert(target.spec_cells().to_multiset().count(a) == m_pre_t.add(s_n).sub(
                        s_o,
                    ).count(a));
                    assert(m_pre_t.add(s_n).count(a) == m_pre_t.count(a) + s_n.count(a));
                    assert(po1.to_multiset().count(a) == po.to_multiset().count(a) + s_o.count(a));
                    assert(pv1.to_multiset().count(a) == pv.to_multiset().count(a) + s_n.count(a));
                }
                assert(self.spec_cells().to_multiset().add(po1.to_multiset())
                    =~= b0.spec_cells().to_multiset().add(pv1.to_multiset()));
                assert(target.spec_cells().to_multiset().add(po1.to_multiset())
                    =~= t0.spec_cells().to_multiset().add(pv1.to_multiset()));
                assert forall|k: int|
                    j + 1 <= k < e@.len() implies self.cell((#[trigger] e@[k]).0) == b0.cell(
                    e@[k].0,
                ) && target.cell((#[trigger] e@[k]).0) == t0.cell(e@[k].0) by {
                    assert(lex_before(e@[j as int].0, e@[k].0));
                    assert(e@[k].0 != sq);
                }
                assert forall|k: int|
                    0 <= k < j implies self.cell((#[trigger] e@[k]).0) == vals@[k] && target.cell(
                    (#[trigger] e@[k]).0,
                ) == vals@[k] by {
                    assert(lex_before(e@[k].0, e@[j as int].0));
                    assert(e@[k].0 != sq);
                }
            }
            j = j + 1;
        }
        proof {
            assert(olds.subrange(0, n as int) =~= olds);
            assert(vals@.subrange(0, n as int) =~= vals@);
            assert forall|a: BoardCell|
                self.spec_cells().to_multiset().count(a) == b0.spec_cells().to_multiset().count(
                a,
            ) && target.spec_cells().to_multiset().count(a)
                == t0.spec_cells().to_multiset().count(a) by {
                assert(self.spec_cells().to_multiset().add(olds.to_multiset()).count(a)
                    == b0.spec_cells().to_multiset().add(vals@.to_multiset()).count(a));
                assert(target.spec_cells().to_multiset().add(olds.to_multiset()).count(a)
                    == t0.spec_cells().to_multiset().add(vals@.to_multiset()).count(a));
                assert(olds.to_multiset().count(a) == vals@.to_multiset().count(a));
            }
            assert(self.spec_cells().to_multiset() =~= b0.spec_cells().to_multiset());
            assert(target.spec_cells().to_multiset() =~= t0.spec_cells().to_multiset());
            assert forall|sq: Square|
                self.in_bounds(sq) && (#[trigger] self.cell(sq)).is_tile() implies target.cell(
                sq,
            ) == self.cell(sq) by {
                assert(b0.cell(sq).is_tile());
                assert(b0.inner(sq)) by {
                    b0.lemma_tile_inner(sq);
                }
                let k = choose|k: int| 0 <= k < e@.len() && (#[trigger] e@[k]).0 == sq;
                assert(self.cell(e@[k].0) == vals@[k] && target.cell(e@[k].0) == vals@[k]);
            }
        }
    }
}

impl Board {
    /// A legal move chosen by scanning all pairs of interior squares in a
    /// uniformly shuffled order, or nothing when the board admits no move.
    pub fn random_move(&self) -> (mv: Option<Move>)
        requires
            self.wf(),
        ensures
            mv is Some <==> self.has_move(),
            mv matches Some(m) ==> self.valid_move(m),
    {
        broadcast use vstd::seq_lib::group_to_multiset_ensures;
        broadcast use vstd::seq_lib::group_seq_properties;

        let v = self.squares_inner();
        let n: usize = v.len();
        let mut pairs: Vec<(Square, Square)> = Vec::new();
        let mut i: usize = 0;
        while i < n
            invariant
                self.wf(),
                i <= n,
                n == v@.len(),
                forall|k: int| 0 <= k < v@.len() ==> self.inner(#[trigger] v@[k]),
                forall|k: int|
                    0 <= k < pairs@.len() ==> self.inner((#[trigger] pairs@[k]).0) && self.inner(
                        pairs@[k].1,
                    ),
                forall|a: int, b: int|
                    0 <= a < i && a < b < v@.len() ==> pairs@.contains((v@[a], v@[b])),
            decreases n - i,
        {
            let mut j: usize = i + 1;
            while j < n
                invariant
                    self.wf(),
                    i < n,
                    i + 1 <= j <= n,
                    n == v@.len(),
                    forall|k: int| 0 <= k < v@.len() ==> self.inner(#[trigger] v@[k]),
                    forall|k: int|
                        0 <= k < pairs@.len() ==> self.inner((#[trigger] pairs@[k]).0)
                            && self.inner(pairs@[k].1),
                    forall|a: int, b: int|
                        0 <= a < i && a < b < v@.len() ==> pairs@.contains((v@[a], v@[b])),
                    forall|b: int| i < b < j ==> pairs@.contains((v@[i as int], v@[b])),
                decreases n - j,
            {
                let ghost ppre = pairs@;
                pairs.push((v[i], v[j]));
                proof {
                    assert(pairs@[pairs@.len() - 1] == (v@[i as int], v@[j as int]));
                    assert forall|a: int, b: int|
                        0 <= a < i && a < b < v@.len() implies pairs@.contains(
                        (v@[a], v@[b]),
                    ) by {
                        assert(ppre.contains((v@[a], v@[b])));
                        let k = choose|k: int| 0 <= k < ppre.len() && ppre[k] == (v@[a], v@[b]);
                        assert(pairs@[k] == (v@[a], v@[b]));
                    }
                    assert forall|b: int| i < b < j + 1 implies pairs@.contains(
                        (v@[i as int], v@[b]),
                    ) by {
                        if b < j {
                            assert(ppre.contains((v@[i as int], v@[b])));
                            let k = choose|k: int|
                                0 <= k < ppre.len() && ppre[k] == (v@[i as int], v@[b]);
                            assert(pairs@[k] == (v@[i as int], v@[b]));
                        }
                    }
                }
                j = j + 1;
            }
            i = i + 1;
        }
        let ghost pairs0 = pairs@;
        shuffle_vec(&mut pairs);
        proof {
            assert forall|a: int, b: int|
                0 <= a < v@.len() && a < b < v@.len() implies pairs@.contains(
                (v@[a], v@[b]),
            ) by {
                assert(pairs0.contains((v@[a], v@[b])));
                assert(pairs0.to_multiset().count((v@[a], v@[b])) > 0);
                assert(pairs@.to_multiset().count((v@[a], v@[b])) > 0);
            }
            assert forall|k: int|
                0 <= k < pairs@.len() implies self.inner((#[trigger] pairs@[k]).0) && self.inner(
                pairs@[k].1,
            ) by {
                assert(pairs@.contains(pairs@[k]));
                assert(pairs@.to_multiset().count(pairs@[k]) > 0);
                assert(pairs0.to_multiset().count(pairs@[k]) > 0);
                assert(pairs0.contains(pairs@[k]));
                let k0 = choose|k0: int| 0 <= k0 < pairs0.len() && pairs0[k0] == pairs@[k];
                assert(self.inner(pairs0[k0].0) && self.inner(pairs0[k0].1));
            }
        }
        let np: usize = pairs.len();
        let mut k: usize = 0;
        while k < np
            invariant
                self.wf(),
                k <= np,
                np == pairs@.len(),
                forall|k2: int|
                    0 <= k2 < pairs@.len() ==> self.inner((#[trigger] pairs@[k2]).0) && self.inner(
                        pairs@[k2].1,
                    ),
                forall|a: int, b: int|
                    0 <= a < v@.len() && a < b < v@.len() ==> pairs@.contains((v@[a], v@[b])),
                forall|k2: int| 0 <= k2 < v@.len() ==> self.inner(#[trigger] v@[k2]),
                forall|sq: Square| self.inner(sq) ==> v@.contains(sq),
                forall|k2: int|
                    0 <= k2 < k ==> !self.connects(
                        (#[trigger] pairs@[k2]).0,
                        pairs@[k2].1,
                    ),
            decreases np - k,
        {
            let (a, b) = pairs[k];
            let found = self.find_move_between(a, b);
            if found.is_some() {
                return found;
            }
            k = k + 1;
        }
        proof {
            assert forall|src: Square, dst: Square|
                self.in_bounds(src) && self.in_bounds(dst) implies !(#[trigger] self.connects(
                src,
                dst,
            )) by {
                if self.connects(src, dst) {
                    self.lemma_tile_inner(src);
                    self.lemma_tile_inner(dst);
                    assert(v@.contains(src));
                    assert(v@.contains(dst));
                    let ka = choose|q: int| 0 <= q < v@.len() && v@[q] == src;
                    let kb = choose|q: int| 0 <= q < v@.len() && v@[q] == dst;
                    if ka < kb {
                        assert(pairs@.contains((src, dst)));
                        let kp = choose|q: int| 0 <= q < pairs@.len() && pairs@[q] == (src, dst);
                        assert(!self.connects(pairs@[kp].0, pairs@[kp].1));
                    } else if kb < ka {
                        lemma_connects_symmetric(*self, src, dst);
                        assert(pairs@.contains((dst, src)));
                        let kp = choose|q: int| 0 <= q < pairs@.len() && pairs@[q] == (dst, src);
                        assert(!self.connects(pairs@[kp].0, pairs@[kp].1));
                    } else {
                        assert(src == dst);
                    }
                }
            }
        }
        None
    }
}

/// Boards with equal dimensions and equal cells agree on everything.
proof fn lemma_board_eq(b1: Board, b2: Board)
    requires
        b1.spec_ncol() == b2.spec_ncol(),
        b1.spec_nrow() == b2.spec_nrow(),
        b1.spec_cells() == b2.spec_cells(),
    ensures
        b1.wf() == b2.wf(),
        forall|sq: Square| #[trigger] b1.cell(sq) == b2.cell(sq),
        b1.tile_count() == b2.tile_count(),
{
    assert forall|sq: Square| #[trigger] b1.cell(sq) == b2.cell(sq) by {}
    if b1.wf() {
        assert forall|c: int, r: int|
            0 <= c < b2.spec_ncol() && 0 <= r < b2.spec_nrow() && b2.on_border(c, r) implies (
        #[trigger] b2.cell_cr(c, r)).is_empty() by {
            assert(b1.cell_cr(c, r).is_empty());
        }
        assert(b2.wf());
    }
    if b2.wf() {
        assert forall|c: int, r: int|
            0 <= c < b1.spec_ncol() && 0 <= r < b1.spec_nrow() && b1.on_border(c, r) implies (
        #[trigger] b1.cell_cr(c, r)).is_empty() by {
            assert(b2.cell_cr(c, r).is_empty());
        }
        assert(b1.wf());
    }
}

impl Board {
    /// Exchange the contents of two occupied interior squares.
    fn swap_cells(&mut self, p: Square, q: Square)
        requires
            old(self).wf(),
            old(self).inner(p),
            old(self).inner(q),
            old(self).cell(p).is_tile(),
            old(self).cell(q).is_tile(),
        ensures
            final(self).wf(),
            final(self).spec_ncol() == old(self).spec_ncol(),
            final(self).spec_nrow() == old(self).spec_nrow(),
            final(self).cell(p) == old(self).cell(q),
            final(self).cell(q) == old(self).cell(p),
            forall|sq: Square|
                old(self).in_bounds(sq) && sq != p && sq != q ==> final(self).cell(sq) == old(
                    self,
                ).cell(sq),
            forall|sq: Square|
                old(self).in_bounds(sq) ==> ((#[trigger] final(self).cell(sq)).is_tile() == old(
                    self,
                ).cell(sq).is_tile()),
            final(self).tile_count() == old(self).tile_count(),
            final(self).spec_cells().to_multiset() == old(self).spec_cells().to_multiset(),
    {
        broadcast use vstd::seq_lib::group_to_multiset_ensures;
        broadcast use vstd::multiset::group_multiset_axioms;

        let cp = self.cell_at(p);
        let cq = self.cell_at(q);
        let ghost ip = p.r as int * self.spec_ncol() + p.c as int;
        let ghost iq = q.r as int * self.spec_ncol() + q.c as int;
        proof {
            lemma_lin_in_range(self.spec_ncol(), self.spec_nrow(), p.c as int, p.r as int);
            lemma_lin_in_range(self.spec_ncol(), self.spec_nrow(), q.c as int, q.r as int);
            lemma_count_tiles_update(self.spec_cells(), ip, cq);
        }
        self.set_cell(p, cq);
        let ghost mid = *self;
        proof {
            lemma_count_tiles_update(self.spec_cells(), iq, cp);
            if p != q {
                assert(self.cell(q) == old(self).cell(q));
            }
        }
        self.set_cell(q, cp);
        proof {
            let m0 = old(self).spec_cells().to_multiset();
            vstd::seq_lib::to_multiset_update(old(self).spec_cells(), ip, cq);
            vstd::seq_lib::to_multiset_update(mid.spec_cells(), iq, cp);
            assert(mid.spec_cells()[iq] == cq);
            assert(old(self).spec_cells()[ip] == cp);
            assert(old(self).spec_cells().contains(cp)) by {
                assert(old(self).spec_cells()[ip] == cp);
            }
            vstd::seq_lib::to_multiset_contains(old(self).spec_cells(), cp);
            assert forall|a: BoardCell|
                self.spec_cells().to_multiset().count(a) == m0.count(a) by {
                let s_p = Multiset::singleton(cp);
                let s_q = Multiset::singleton(cq);
                assert(s_p.count(a) == if a == cp {
                    1nat
                } else {
                    0nat
                });
                assert(s_q.count(a) == if a == cq {
                    1nat
                } else {
                    0nat
                });
                assert(mid.spec_cells().to_multiset().count(a) == m0.add(s_q).sub(s_p).count(a));
                assert(m0.add(s_q).count(a) == m0.count(a) + s_q.count(a));
                assert(self.spec_cells().to_multiset().count(a)
                    == mid.spec_cells().to_multiset().add(s_p).sub(s_q).count(a));
                assert(mid.spec_cells().to_multiset().add(s_p).count(a)
                    == mid.spec_cells().to_multiset().count(a) + s_p.count(a));
            }
            assert(self.spec_cells().to_multiset() =~= m0);
        }
    }

    /// Two distinct occupied squares holding the same kind, if any exist;
    /// nothing exactly when no kind occurs on two squares.
    fn find_duplicate_pair(&self) -> (r: Option<(Square, Square)>)
        requires
            self.wf(),
        ensures
            r matches Some(pr) ==> self.inner(pr.0) && self.inner(pr.1) && pr.0 != pr.1
                && self.cell(pr.0).is_same_tile(self.cell(pr.1)),
            r is None ==> forall|s: Square, d: Square|
                self.inner(s) && self.inner(d) && s != d ==> !(#[trigger] self.cell(
                    s,
                )).is_same_tile(#[trigger] self.cell(d)),
    {
        let e = self.enumerate_tiles();
        let n: usize = e.len();
        let mut k1: usize = 0;
        while k1 < n
            invariant
                self.wf(),
                k1 <= n,
                n == e@.len(),
                forall|k: int|
                    0 <= k < e@.len() ==> self.inner((#[trigger] e@[k]).0) && e@[k].1 == self.cell(
                        e@[k].0,
                    ) && e@[k].1.is_tile(),
                forall|ka: int, kb: int|
                    0 <= ka < kb < e@.len() ==> lex_before(e@[ka].0, e@[kb].0),
                forall|sq: Square|
                    self.inner(sq) && (#[trigger] self.cell(sq)).is_tile() ==> exists|k: int|
                        0 <= k < e@.len() && (#[trigger] e@[k]).0 == sq,
                forall|ka: int, kb: int|
                    0 <= ka < k1 && ka < kb < e@.len() ==> !(#[trigger] e@[ka]).1.is_same_tile(
                        (#[trigger] e@[kb]).1,
                    ),
            decreases n - k1,
        {
            let mut k2: usize = k1 + 1;
            while k2 < n
                invariant
                    self.wf(),
                    k1 < n,
                    k1 + 1 <= k2 <= n,
                    n == e@.len(),
                    forall|k: int|
                        0 <= k < e@.len() ==> self.inner((#[trigger] e@[k]).0) && e@[k].1
                            == self.cell(e@[k].0) && e@[k].1.is_tile(),
                    forall|ka: int, kb: int|
                        0 <= ka < kb < e@.len() ==> lex_before(e@[ka].0, e@[kb].0),
                    forall|ka: int, kb: int|
                        0 <= ka < k1 && ka < kb < e@.len() ==> !(#[trigger] e@[ka]).1.is_same_tile(
                            (#[trigger] e@[kb]).1,
                        ),
                    forall|kb: int|
                        k1 < kb < k2 ==> !e@[k1 as int].1.is_same_tile((#[trigger] e@[kb]).1),
                decreases n - k2,
            {
                if e[k1].1.is_same_tile(e[k2].1) {
                    proof {
                        assert(lex_before(e@[k1 as int].0, e@[k2 as int].0));
                    }
                    return Some((e[k1].0, e[k2].0));
                }
                k2 = k2 + 1;
            }
            k1 = k1 + 1;
        }
        proof {
            assert forall|s: Square, d: Square|
                self.inner(s) && self.inner(d) && s != d implies !(#[trigger] self.cell(
                s,
            )).is_same_tile(#[trigger] self.cell(d)) by {
                if self.cell(s).is_same_tile(self.cell(d)) {
                    let ka = choose|k: int| 0 <= k < e@.len() && (#[trigger] e@[k]).0 == s;
                    let kb = choose|k: int| 0 <= k < e@.len() && (#[trigger] e@[k]).0 == d;
                    assert(ka != kb);
                    if ka < kb {
                        assert(!e@[ka].1.is_same_tile(e@[kb].1));
                    } else {
                        assert(!e@[kb].1.is_same_tile(e@[ka].1));
                    }
                }
            }
        }
        None
    }

    /// The first two occupied squares in row-major order, when the board
    /// holds at least two tiles; nothing exactly when fewer than two
    /// squares are occupied. Every interior square that precedes the
    /// second one (other than the first) is empty.
    fn first_two_tiles(&self) -> (r: Option<(Square, Square)>)
        requires
            self.wf(),
        ensures
            r is None ==> forall|s: Square, d: Square|
                self.inner(s) && self.inner(d) && s != d ==> !((#[trigger] self.cell(
                    s,
                )).is_tile() && (#[trigger] self.cell(d)).is_tile()),
            r matches Some(pr) ==> {
                &&& self.inner(pr.0) && self.inner(pr.1)
                &&& self.cell(pr.0).is_tile() && self.cell(pr.1).is_tile()
                &&& lex_before(pr.0, pr.1)
                &&& forall|sq: Square|
                    self.inner(sq) && lex_before(sq, pr.0) ==> (#[trigger] self.cell(
                        sq,
                    )).is_empty()
                &&& forall|sq: Square|
                    self.inner(sq) && lex_before(pr.0, sq) && lex_before(sq, pr.1) ==> (
                    #[trigger] self.cell(sq)).is_empty()
            },
    {
        let e = self.enumerate_tiles();
        if e.len() < 2 {
            proof {
                assert forall|s: Square, d: Square|
                    self.inner(s) && self.inner(d) && s != d implies !((#[trigger] self.cell(
                    s,
                )).is_tile() && (#[trigger] self.cell(d)).is_tile()) by {
                    if self.cell(s).is_tile() && self.cell(d).is_tile() {
                        let ka = choose|k: int| 0 <= k < e@.len() && (#[trigger] e@[k]).0 == s;
                        let kb = choose|k: int| 0 <= k < e@.len() && (#[trigger] e@[k]).0 == d;
                        assert(ka != kb);
                    }
                }
            }
            return None;
        }
        let a = e[0].0;
        let b = e[1].0;
        proof {
            assert forall|sq: Square|
                self.inner(sq) && lex_before(sq, a) implies (#[trigger] self.cell(
                sq,
            )).is_empty() by {
                if self.cell(sq).is_tile() {
                    let k = choose|k: int| 0 <= k < e@.len() && (#[trigger] e@[k]).0 == sq;
                    if k > 0 {
                        assert(lex_before(e@[0].0, e@[k].0));
                    }
                }
            }
            assert forall|sq: Square|
                self.inner(sq) && lex_before(a, sq) && lex_before(sq, b) implies (
            #[trigger] self.cell(sq)).is_empty() by {
                if self.cell(sq).is_tile() {
                    let k = choose|k: int| 0 <= k < e@.len() && (#[trigger] e@[k]).0 == sq;
                    if k == 0 {
                        assert(sq == a);
                    } else if k == 1 {
                        assert(sq == b);
                    } else {
                        assert(lex_before(e@[1].0, e@[k].0));
                    }
                }
            }
            assert(lex_before(a, b));
        }
        Some((a, b))
    }
}

/// Two same-kind tiles that are the first two occupied squares in
/// row-major order can always be joined: straight along their shared row,
/// or around through the empty region that precedes them.
proof fn lemma_leading_pair_connects(b: Board, a1: Square, a2: Square)
    requires
        b.wf(),
        b.inner(a1),
        b.inner(a2),
        b.cell(a1).is_tile(),
        b.cell(a2).is_tile(),
        b.cell(a1).is_same_tile(b.cell(a2)),
        lex_before(a1, a2),
        forall|sq: Square|
            b.inner(sq) && lex_before(sq, a1) ==> (#[trigger] b.cell(sq)).is_empty(),
        forall|sq: Square|
            b.inner(sq) && lex_before(a1, sq) && lex_before(sq, a2) ==> (#[trigger] b.cell(
                sq,
            )).is_empty(),
    ensures
        b.connects(a1, a2),
{
    lemma_dims_bounded(b);
    if a1.r == a2.r {
        let w = a1.r as int;
        assert(b.vhv_ok(a1, a2, w)) by {
            assert forall|t: int|
                imin(a1.c as int, a2.c as int) + 1 <= t <= imax(a1.c as int, a2.c as int)
                    - 1 implies (#[trigger] b.cell_cr(t, w)).is_empty() by {
                let sq = Square { c: t as usize, r: a1.r };
                assert(b.inner(sq));
                assert(lex_before(a1, sq) && lex_before(sq, a2));
                assert(b.cell(sq).is_empty());
            }
        }
    } else {
        let x = 0int;
        assert(b.hvh_ok(a1, a2, x)) by {
            assert(b.row_reach(a1.r as int, a1.c as int, 0)) by {
                assert forall|t: int| 0 <= t <= a1.c - 1 implies (#[trigger] b.cell_cr(
                    t,
                    a1.r as int,
                )).is_empty() by {
                    if t == 0 {
                        assert(b.on_border(t, a1.r as int));
                    } else {
                        let sq = Square { c: t as usize, r: a1.r };
                        assert(b.inner(sq));
                        assert(lex_before(sq, a1));
                        assert(b.cell(sq).is_empty());
                    }
                }
            }
            assert(b.row_reach(a2.r as int, a2.c as int, 0)) by {
                assert forall|t: int| 0 <= t <= a2.c - 1 implies (#[trigger] b.cell_cr(
                    t,
                    a2.r as int,
                )).is_empty() by {
                    if t == 0 {
                        assert(b.on_border(t, a2.r as int));
                    } else {
                        let sq = Square { c: t as usize, r: a2.r };
                        assert(b.inner(sq));
                        assert(lex_before(a1, sq) && lex_before(sq, a2));
                        assert(b.cell(sq).is_empty());
                    }
                }
            }
            assert(b.col_open(0, imin(a1.r as int, a2.r as int) + 1, imax(
                a1.r as int,
                a2.r as int,
            ) - 1)) by {
                assert forall|t: int|
                    imin(a1.r as int, a2.r as int) + 1 <= t <= imax(a1.r as int, a2.r as int)
                        - 1 implies (#[trigger] b.cell_cr(0, t)).is_empty() by {
                    assert(b.on_border(0, t));
                }
            }
        }
    }
}

impl Board {
    /// Shuffle all tiles in place so that the result is solvable: the
    /// board is rebuilt in layers, each layer an arrangement of the tiles
    /// still in play that is then reduced by random legal moves until no
    /// move remains. Occupied squares stay occupied throughout.
    pub fn shuffle_solvable(&mut self)
        requires
            old(self).wf(),
        ensures
            final(self).wf(),
            final(self).spec_ncol() == old(self).spec_ncol(),
            final(self).spec_nrow() == old(self).spec_nrow(),
            forall|sq: Square|
                old(self).in_bounds(sq) ==> ((#[trigger] final(self).cell(sq)).is_tile() == old(
                    self,
                ).cell(sq).is_tile()),
            final(self).spec_cells().to_multiset() == old(self).spec_cells().to_multiset(),
            final(self).tile_count() == old(self).tile_count(),
            has_matching_pair(old(self).spec_cells()) ==> final(self).has_move(),
    {
        let ghost b0 = *self;
        let mut work = self.clone();
        proof {
            lemma_board_eq(work, b0);
        }
        // Once the first layer is laid, its first removed pair stays a
        // legal move on the result board: its squares are never rewritten,
        // and move legality depends only on the (constant) occupancy and
        // the endpoint tiles.
        let ghost mut wit_set: bool = false;
        let ghost mut ws: Square = Square { c: 0, r: 0 };
        let ghost mut wd: Square = Square { c: 0, r: 0 };
        loop
            invariant
                self.wf(),
                work.wf(),
                self.spec_ncol() == b0.spec_ncol(),
                self.spec_nrow() == b0.spec_nrow(),
                work.spec_ncol() == b0.spec_ncol(),
                work.spec_nrow() == b0.spec_nrow(),
                forall|sq: Square|
                    b0.in_bounds(sq) ==> ((#[trigger] self.cell(sq)).is_tile() == b0.cell(
                        sq,
                    ).is_tile()),
                forall|sq: Square|
                    work.in_bounds(sq) && (#[trigger] work.cell(sq)).is_tile() ==> self.cell(sq)
                        == work.cell(sq),
                self.spec_cells().to_multiset() == b0.spec_cells().to_multiset(),
                self.tile_count() == b0.tile_count(),
                has_matching_pair(b0.spec_cells()) && wit_set ==> self.in_bounds(ws)
                    && self.in_bounds(wd) && self.connects(ws, wd) && work.cell(ws).is_empty()
                    && work.cell(wd).is_empty(),
                has_matching_pair(b0.spec_cells()) && !wit_set ==> (forall|sq: Square|
                    b0.in_bounds(sq) ==> ((#[trigger] work.cell(sq)).is_tile() == b0.cell(
                        sq,
                    ).is_tile())) && work.spec_cells().to_multiset()
                    == b0.spec_cells().to_multiset(),
            ensures
                self.wf(),
                self.spec_ncol() == b0.spec_ncol(),
                self.spec_nrow() == b0.spec_nrow(),
                forall|sq: Square|
                    b0.in_bounds(sq) ==> ((#[trigger] self.cell(sq)).is_tile() == b0.cell(
                        sq,
                    ).is_tile()),
                self.spec_cells().to_multiset() == b0.spec_cells().to_multiset(),
                self.tile_count() == b0.tile_count(),
                has_matching_pair(b0.spec_cells()) ==> self.has_move(),
            decreases work.tile_count(),
        {
            proof {
                lemma_count_tiles_nonneg(work.spec_cells());
            }
            if work.is_empty() {
                proof {
                    if has_matching_pair(b0.spec_cells()) {
                        if !wit_set {
                            assert(has_matching_pair(work.spec_cells())) by {
                                let v = choose|v: BoardCell|
                                    v.is_tile() && #[trigger] b0.spec_cells().to_multiset().count(
                                        v,
                                    ) >= 2;
                                assert(work.spec_cells().to_multiset().count(v) >= 2);
                            }
                            let pr = lemma_matching_pair_squares(work);
                            assert(work.cell_cr(pr.0.c as int, pr.0.r as int).is_empty());
                            assert(false);
                        }
                        assert(self.has_move());
                    }
                }
                break;
            }
            let ghost c0 = work.tile_count();
            // Lay the next layer: a fresh arrangement of the remaining
            // tiles, written to the working copy and the result alike.
            let ghost self_pre = *self;
            let ghost work_pre = work;
            work.shuffle_into(self);
            proof {
                if has_matching_pair(b0.spec_cells()) {
                    if wit_set {
                        assert(self.cell(ws) == self_pre.cell(ws) && self.cell(wd)
                            == self_pre.cell(wd));
                        lemma_connects_transfer(self_pre, *self, ws, wd);
                    } else {
                        assert(has_matching_pair(work.spec_cells())) by {
                            let v = choose|v: BoardCell|
                                v.is_tile() && #[trigger] b0.spec_cells().to_multiset().count(v)
                                    >= 2;
                            assert(work.spec_cells().to_multiset().count(v) >= 2);
                        }
                    }
                }
            }
            // When the arrangement happens to admit no move, make one by
            // moving a duplicated kind onto the two leading tiles (on both
            // boards, which stay in step); if no kind is duplicated at
            // all, no arrangement has a move and the layer stays as is.
            if work.find_move().is_none() {
                let leading = work.first_two_tiles();
                if leading.is_none() {
                    proof {
                        if has_matching_pair(b0.spec_cells()) {
                            if !wit_set {
                                let pr = lemma_matching_pair_squares(work);
                                assert(false);
                            }
                            assert(self.has_move());
                        }
                    }
                    break;
                }
                let (a1, a2) = leading.unwrap();
                let dup = work.find_duplicate_pair();
                if dup.is_none() {
                    proof {
                        if has_matching_pair(b0.spec_cells()) {
                            if !wit_set {
                                let pr = lemma_matching_pair_squares(work);
                                assert(work.cell(pr.0).is_same_tile(work.cell(pr.1)));
                                assert(false);
                            }
                            assert(self.has_move());
                        }
                    }
                    break;
                }
                let (s1, s2) = dup.unwrap();
                let t: Square;
                if s1 == a1 {
                    t = s2;
                } else if s2 == a1 {
                    t = s1;
                } else {
                    let ghost wpre = work;
                    let ghost spre = *self;
                    work.swap_cells(a1, s1);
                    self.swap_cells(a1, s1);
                    proof {
                        assert forall|sq: Square|
                            work.in_bounds(sq) && (#[trigger] work.cell(sq)).is_tile() implies
                            self.cell(sq) == work.cell(sq) by {
                            assert(wpre.cell(a1).is_tile() && wpre.cell(s1).is_tile());
                        }
                        if has_matching_pair(b0.spec_cells()) && wit_set {
                            assert(self.cell(ws) == spre.cell(ws) && self.cell(wd) == spre.cell(
                                wd,
                            ));
                            lemma_connects_transfer(spre, *self, ws, wd);
                        }
                    }
                    t = s2;
                }
                if t != a2 {
                    let ghost wpre = work;
                    let ghost spre = *self;
                    work.swap_cells(a2, t);
                    self.swap_cells(a2, t);
                    proof {
                        assert forall|sq: Square|
                            work.in_bounds(sq) && (#[trigger] work.cell(sq)).is_tile() implies
                            self.cell(sq) == work.cell(sq) by {
                            assert(wpre.cell(a2).is_tile() && wpre.cell(t).is_tile());
                        }
                        if has_matching_pair(b0.spec_cells()) && wit_set {
                            assert(self.cell(ws) == spre.cell(ws) && self.cell(wd) == spre.cell(
                                wd,
                            ));
                            lemma_connects_transfer(spre, *self, ws, wd);
                        }
                    }
                }
                proof {
                    lemma_leading_pair_connects(work, a1, a2);
                    assert(work.has_move());
                }
            }
            // Reduce the working copy by random legal moves until stuck;
            // the tiles it loses are exactly the ones a forward play of
            // this layer can remove.
            let first = work.random_move();
            proof {
                assert(first is Some);
            }
            let m = first.unwrap();
            proof {
                if has_matching_pair(b0.spec_cells()) && !wit_set {
                    assert(work.connects(m.spec_src(), m.spec_dst()));
                    assert(work.cell(m.spec_src()).is_tile() && work.cell(m.spec_dst()).is_tile());
                    lemma_connects_transfer(work, *self, m.spec_src(), m.spec_dst());
                    ws = m.spec_src();
                    wd = m.spec_dst();
                    wit_set = true;
                }
            }
            work.do_move(&m);
            proof {
                lemma_count_tiles_nonneg(work.spec_cells());
            }
            let mut mv = work.random_move();
            while mv.is_some()
                invariant
                    self.wf(),
                    work.wf(),
                    self.spec_ncol() == b0.spec_ncol(),
                    self.spec_nrow() == b0.spec_nrow(),
                    work.spec_ncol() == b0.spec_ncol(),
                    work.spec_nrow() == b0.spec_nrow(),
                    mv matches Some(m2) ==> work.valid_move(m2),
                    work.tile_count() <= c0 - 2,
                    forall|sq: Square|
                        b0.in_bounds(sq) ==> ((#[trigger] self.cell(sq)).is_tile() == b0.cell(
                            sq,
                        ).is_tile()),
                    forall|sq: Square|
                        work.in_bounds(sq) && (#[trigger] work.cell(sq)).is_tile() ==> self.cell(
                            sq,
                        ) == work.cell(sq),
                    self.spec_cells().to_multiset() == b0.spec_cells().to_multiset(),
                    self.tile_count() == b0.tile_count(),
                    has_matching_pair(b0.spec_cells()) ==> wit_set && self.in_bounds(ws)
                        && self.in_bounds(wd) && self.connects(ws, wd) && work.cell(
                        ws,
                    ).is_empty() && work.cell(wd).is_empty(),
                decreases work.tile_count(),
            {
                let m2 = mv.unwrap();
                work.do_move(&m2);
                proof {
                    lemma_count_tiles_nonneg(work.spec_cells());
                }
                mv = work.random_move();
            }
            proof {
                lemma_count_tiles_nonneg(work.spec_cells());
            }
        }
    }

    /// A random board of the requested interior size whose full clearance
    /// is reachable by legal moves. Every interior square holds a tile,
    /// with all kinds represented as evenly as the area allows.
    #[verifier::rlimit(100)]
    pub fn random(ncol_inner: usize, nrow_inner: usize) -> (b: Board)
        requires
            ncol_inner % 2 == 0 || nrow_inner % 2 == 0,
            (ncol_inner + 2) * (nrow_inner + 2) <= usize::MAX,
        ensures
            b.wf(),
            b.spec_ncol() == ncol_inner + 2,
            b.spec_nrow() == nrow_inner + 2,
            forall|sq: Square| b.inner(sq) ==> (#[trigger] b.cell(sq)).is_tile(),
            forall|sq: Square| b.in_bounds(sq) ==> cell_kind_ok(#[trigger] b.cell(sq)),
            !b.spec_is_empty() ==> b.has_move(),
            b.tile_count() == ncol_inner * nrow_inner,
            forall|v: BoardCell|
                v.is_tile() ==> (#[trigger] b.spec_cells().to_multiset().count(v)) % 2 == 0,
            forall|k: int|
                0 <= k < TILE_KIND_COUNT ==> (#[trigger] b.spec_cells().to_multiset().count(
                    BoardCell::Tile(k as usize),
                )) == 2 * ((ncol_inner * nrow_inner) / (2 * TILE_KIND_COUNT))
                    || b.spec_cells().to_multiset().count(BoardCell::Tile(k as usize)) == 2 * ((
                ncol_inner * nrow_inner) / (2 * TILE_KIND_COUNT)) + 2,
    {
        broadcast use vstd::seq_lib::group_to_multiset_ensures;
        broadcast use vstd::seq_lib::group_seq_properties;
        broadcast use vstd::multiset::group_multiset_axioms;

        let mut this = Board::empty(ncol_inner, nrow_inner);
        proof {
            assert(ncol_inner * nrow_inner < (ncol_inner + 2) * (nrow_inner + 2))
                by (nonlinear_arith);
        }
        let n_inner: usize = ncol_inner * nrow_inner;
        let q: usize = n_inner / (2 * TILE_KIND_COUNT);
        let r: usize = n_inner % (2 * TILE_KIND_COUNT);
        proof {
            vstd::arithmetic::div_mod::lemma_fundamental_div_mod(n_inner as int, 68);
        }
        // Use each kind as evenly as possible: every kind appears in each
        // of the 2*q full rounds, and the remainder is spread over a pair
        // of randomly chosen kinds each.
        let mut tiles: Vec<usize> = Vec::new();
        proof {
            lemma_kinds_empty(tiles@);
        }
        let mut rep: usize = 0;
        while rep < 2 * q
            invariant
                q <= n_inner,
                rep <= 2 * q,
                2 * q * 34 <= 2 * n_inner,
                tiles@.len() == rep * 34,
                forall|kk: int| 0 <= kk < tiles@.len() ==> #[trigger] tiles@[kk] < 34,
                rep >= 1 ==> tiles@.len() >= 34 && tiles@[0] == 0,
                rep >= 2 ==> tiles@.len() >= 68 && tiles@[34] == 0,
                forall|u: usize|
                    #[trigger] kinds_as_cells(tiles@).count(BoardCell::Tile(u)) == rep as int * (
                    if u < 34 {
                        1int
                    } else {
                        0int
                    }),
            decreases 2 * q - rep,
        {
            let mut k: usize = 0;
            while k < TILE_KIND_COUNT
                invariant
                    k <= 34,
                    rep < 2 * q,
                    2 * q * 34 <= 2 * n_inner,
                    tiles@.len() == rep * 34 + k,
                    forall|kk: int| 0 <= kk < tiles@.len() ==> #[trigger] tiles@[kk] < 34,
                    rep >= 1 ==> tiles@.len() >= 34 && tiles@[0] == 0,
                    rep >= 2 ==> tiles@.len() >= 68 && tiles@[34] == 0,
                    rep == 0 && k >= 1 ==> tiles@[0] == 0,
                    rep == 1 && k >= 1 ==> tiles@[34] == 0,
                    forall|u: usize|
                        #[trigger] kinds_as_cells(tiles@).count(BoardCell::Tile(u)) == rep as int
                            * (if u < 34 {
                            1int
                        } else {
                            0int
                        }) + (if u < k {
                            1int
                        } else {
                            0int
                        }),
                decreases 34 - k,
            {
                let ghost tiles_pre = tiles@;
                tiles.push(k);
                proof {
                    lemma_kinds_push(tiles_pre, k);
                    assert forall|u: usize|
                        #[trigger] kinds_as_cells(tiles@).count(BoardCell::Tile(u)) == rep as int
                            * (if u < 34 {
                            1int
                        } else {
                            0int
                        }) + (if u < k + 1 {
                            1int
                        } else {
                            0int
                        }) by {
                        if u == k {
                        } else {
                        }
                    }
                }
                k = k + 1;
            }
            rep = rep + 1;
        }
        let mut xs: Vec<usize> = Vec::new();
        proof {
            assert forall|u: usize| #[trigger] xs@.to_multiset().count(u) == 0nat by {
                vstd::seq_lib::to_multiset_contains(xs@, u);
                assert(!xs@.contains(u));
            }
        }
        let mut k: usize = 0;
        while k < TILE_KIND_COUNT
            invariant
                k <= 34,
                xs@.len() == k,
                forall|kk: int| 0 <= kk < xs@.len() ==> #[trigger] xs@[kk] < 34,
                forall|u: usize|
                    #[trigger] xs@.to_multiset().count(u) == (if u < k {
                        1nat
                    } else {
                        0nat
                    }),
            decreases 34 - k,
        {
            let ghost xs_pre = xs@;
            xs.push(k);
            proof {
                vstd::seq_lib::to_multiset_build(xs_pre, k);
            }
            k = k + 1;
        }
        let ghost xs0 = xs@;
        shuffle_vec(&mut xs);
        proof {
            assert forall|kk: int| 0 <= kk < xs@.len() implies #[trigger] xs@[kk] < 34 by {
                assert(xs@.contains(xs@[kk]));
                vstd::seq_lib::to_multiset_contains(xs@, xs@[kk]);
                vstd::seq_lib::to_multiset_contains(xs0, xs@[kk]);
                assert(xs0.contains(xs@[kk]));
                let j = choose|j: int| 0 <= j < xs0.len() && xs0[j] == xs@[kk];
            }
            assert forall|u: usize|
                #[trigger] xs@.to_multiset().count(u) == (if u < 34 {
                    1nat
                } else {
                    0nat
                }) by {
                assert(xs@.to_multiset().count(u) == xs0.to_multiset().count(u));
            }
        }
        let half: usize = r / 2;
        let ghost tiles_base = tiles@;
        let mut t: usize = 0;
        proof {
            assert forall|u: usize| #[trigger] xs@.subrange(0, 0).to_multiset().count(u)
                == 0nat by {
                vstd::seq_lib::to_multiset_contains(xs@.subrange(0, 0), u);
                assert(!xs@.subrange(0, 0).contains(u));
            }
        }
        while t < 2
            invariant
                t <= 2,
                half <= 33,
                xs@.len() == 34,
                tiles@.len() == 2 * q * 34 + t * half,
                tiles_base.len() == 2 * q * 34,
                forall|kk: int| 0 <= kk < xs@.len() ==> #[trigger] xs@[kk] < 34,
                forall|kk: int| 0 <= kk < tiles@.len() ==> #[trigger] tiles@[kk] < 34,
                q >= 1 ==> tiles@[0] == 0 && tiles@[34] == 0,
                t >= 1 && half >= 1 ==> tiles@[2 * q * 34] == xs@[0],
                t >= 2 && half >= 1 ==> tiles@[2 * q * 34 + half] == xs@[0],
                forall|u: usize|
                    #[trigger] xs@.to_multiset().count(u) == (if u < 34 {
                        1nat
                    } else {
                        0nat
                    }),
                forall|u: usize|
                    #[trigger] kinds_as_cells(tiles@).count(BoardCell::Tile(u)) == kinds_as_cells(
                        tiles_base,
                    ).count(BoardCell::Tile(u)) + t as int * xs@.subrange(
                        0,
                        half as int,
                    ).to_multiset().count(u),
            decreases 2 - t,
        {
            let mut k2: usize = 0;
            proof {
                assert forall|u: usize| #[trigger] xs@.subrange(0, 0).to_multiset().count(u)
                    == 0nat by {
                    vstd::seq_lib::to_multiset_contains(xs@.subrange(0, 0), u);
                    assert(!xs@.subrange(0, 0).contains(u));
                }
            }
            while k2 < half
                invariant
                    k2 <= half,
                    half <= 33,
                    t < 2,
                    xs@.len() == 34,
                    tiles@.len() == 2 * q * 34 + t * half + k2,
                    tiles_base.len() == 2 * q * 34,
                    forall|kk: int| 0 <= kk < xs@.len() ==> #[trigger] xs@[kk] < 34,
                    forall|kk: int| 0 <= kk < tiles@.len() ==> #[trigger] tiles@[kk] < 34,
                    q >= 1 ==> tiles@[0] == 0 && tiles@[34] == 0,
                    t == 0 && k2 >= 1 ==> tiles@[2 * q * 34] == xs@[0],
                    t == 1 && half >= 1 ==> tiles@[2 * q * 34] == xs@[0],
                    t == 1 && k2 >= 1 ==> tiles@[2 * q * 34 + half] == xs@[0],
                    forall|u: usize|
                        #[trigger] xs@.to_multiset().count(u) == (if u < 34 {
                            1nat
                        } else {
                            0nat
                        }),
                    forall|u: usize|
                        #[trigger] kinds_as_cells(tiles@).count(BoardCell::Tile(u))
                            == kinds_as_cells(tiles_base).count(BoardCell::Tile(u)) + t as int
                            * xs@.subrange(0, half as int).to_multiset().count(u) + xs@.subrange(
                            0,
                            k2 as int,
                        ).to_multiset().count(u),
                decreases half - k2,
            {
                let ghost tiles_pre = tiles@;
                tiles.push(xs[k2]);
                proof {
                    lemma_kinds_push(tiles_pre, xs@[k2 as int]);
                    assert(xs@.subrange(0, k2 as int + 1) =~= xs@.subrange(0, k2 as int).push(
                        xs@[k2 as int],
                    ));
                    vstd::seq_lib::to_multiset_build(xs@.subrange(0, k2 as int), xs@[k2 as int]);
                }
                k2 = k2 + 1;
            }
            proof {
                assert(t * half + half == (t + 1) * half) by (nonlinear_arith);
                assert forall|u: usize|
                    #[trigger] kinds_as_cells(tiles@).count(BoardCell::Tile(u)) == kinds_as_cells(
                        tiles_base,
                    ).count(BoardCell::Tile(u)) + (t + 1) as int * xs@.subrange(
                        0,
                        half as int,
                    ).to_multiset().count(u) by {
                    let hc = xs@.subrange(0, half as int).to_multiset().count(u);
                    assert(t as int * hc + hc == (t + 1) as int * hc) by (nonlinear_arith);
                }
            }
            t = t + 1;
        }
        proof {
            // Each kind's share of the tile list: its two full-round
            // copies plus possibly one remainder pair.
            assert forall|u: usize|
                #[trigger] kinds_as_cells(tiles@).count(BoardCell::Tile(u)) == 2 * q as int * (
                if u < 34 {
                    1int
                } else {
                    0int
                }) + 2 * xs@.subrange(0, half as int).to_multiset().count(u) by {
                let hc = xs@.subrange(0, half as int).to_multiset().count(u);
                assert(2int * hc == 2 as int * hc) by (nonlinear_arith);
            }
            assert forall|u: usize|
                #[trigger] xs@.subrange(0, half as int).to_multiset().count(u) <= (if u < 34 {
                    1nat
                } else {
                    0nat
                }) by {
                lemma_prefix_count_le(xs@, half as int, u);
            }
        }
        proof {
            // The interior area is even, so the remainder of the division
            // by 68 is even as well and the tile list fills it exactly.
            if ncol_inner % 2 == 0 {
                let h = ncol_inner / 2;
                assert(ncol_inner == 2 * h);
                assert(n_inner == 2 * (h * nrow_inner)) by (nonlinear_arith)
                    requires
                        n_inner == ncol_inner * nrow_inner,
                        ncol_inner == 2 * h,
                ;
                vstd::arithmetic::div_mod::lemma_mod_multiples_basic((h * nrow_inner) as int, 2);
            } else {
                let h = nrow_inner / 2;
                assert(nrow_inner == 2 * h);
                assert(n_inner == 2 * (h * ncol_inner)) by (nonlinear_arith)
                    requires
                        n_inner == ncol_inner * nrow_inner,
                        nrow_inner == 2 * h,
                ;
                vstd::arithmetic::div_mod::lemma_mod_multiples_basic((h * ncol_inner) as int, 2);
            }
            assert(n_inner % 2 == 0);
            assert((68 * q) % 2 == 0) by {
                vstd::arithmetic::div_mod::lemma_mod_multiples_basic((34 * q) as int, 2);
                assert(68 * q == (34 * q) * 2);
            }
            assert(r == n_inner - 68 * q);
            assert(r % 2 == 0) by {
                let d = (n_inner as int - 68 * q) / 2;
                assert(n_inner as int - 68 * q == 2 * d);
                vstd::arithmetic::div_mod::lemma_mod_multiples_basic(d, 2);
            }
            assert(2 * half == r);
            assert(2 * q * 34 == 68 * q);
            assert(tiles@.len() == n_inner);
        }
        let v = this.squares_inner();
        proof {
            assert(v@.len() == ncol_inner * nrow_inner);
        }
        proof {
            assert forall|sq: Square|
                1 <= sq.c <= ncol_inner && 1 <= sq.r <= nrow_inner implies v@.contains(sq) by {
                assert(this.inner(sq));
            }
            assert forall|kk: int|
                0 <= kk < v@.len() implies 1 <= (#[trigger] v@[kk]).c <= ncol_inner && 1
                    <= v@[kk].r <= nrow_inner by {
                assert(this.inner(v@[kk]));
            }
        }
        let nv: usize = v.len();
        let mut k3: usize = 0;
        proof {
            assert forall|vv: BoardCell|
                vv.is_tile() implies #[trigger] this.spec_cells().to_multiset().count(vv)
                == 0nat by {
                vstd::seq_lib::to_multiset_contains(this.spec_cells(), vv);
                if this.spec_cells().contains(vv) {
                    let i = choose|i: int|
                        0 <= i < this.spec_cells().len() && this.spec_cells()[i] == vv;
                }
            }
            lemma_kinds_empty(tiles@.subrange(0, 0));
            lemma_count_tiles_all_empty(this.spec_cells());
        }
        while k3 < nv
            invariant
                this.wf(),
                this.spec_ncol() == ncol_inner + 2,
                this.spec_nrow() == nrow_inner + 2,
                k3 <= nv,
                nv == v@.len(),
                nv == tiles@.len(),
                forall|kk: int|
                    0 <= kk < v@.len() ==> 1 <= (#[trigger] v@[kk]).c <= ncol_inner && 1
                        <= v@[kk].r <= nrow_inner,
                forall|k1: int, k2: int| 0 <= k1 < k2 < v@.len() ==> lex_before(v@[k1], v@[k2]),
                forall|sq: Square|
                    1 <= sq.c <= ncol_inner && 1 <= sq.r <= nrow_inner ==> v@.contains(sq),
                forall|kk: int|
                    0 <= kk < k3 ==> (#[trigger] this.cell(v@[kk])) == BoardCell::Tile(
                        tiles@[kk] as usize,
                    ),
                forall|kk: int| k3 <= kk < nv ==> (#[trigger] this.cell(v@[kk])).is_empty(),
                forall|kk: int| 0 <= kk < tiles@.len() ==> #[trigger] tiles@[kk] < 34,
                forall|i: int|
                    0 <= i < this.spec_cells().len() ==> cell_kind_ok(
                        #[trigger] this.spec_cells()[i],
                    ),
                this.tile_count() == k3,
                forall|vv: BoardCell|
                    vv.is_tile() ==> #[trigger] this.spec_cells().to_multiset().count(vv)
                        == kinds_as_cells(tiles@.subrange(0, k3 as int)).count(vv),
            decreases nv - k3,
        {
            let ghost tpre = this;
            this.set_cell(v[k3], BoardCell::Tile(tiles[k3]));
            proof {
                assert forall|kk: int| 0 <= kk < k3 + 1 implies (#[trigger] this.cell(
                    v@[kk],
                )) == BoardCell::Tile(tiles@[kk] as usize) by {
                    if kk < k3 {
                        assert(lex_before(v@[kk], v@[k3 as int]));
                        assert(v@[kk] != v@[k3 as int]);
                    }
                }
                assert forall|kk: int| k3 + 1 <= kk < nv implies (#[trigger] this.cell(
                    v@[kk],
                )).is_empty() by {
                    assert(lex_before(v@[k3 as int], v@[kk]));
                    assert(v@[kk] != v@[k3 as int]);
                    assert(tpre.cell(v@[kk]).is_empty());
                }
                let li = v@[k3 as int].r as int * tpre.spec_ncol() + v@[k3 as int].c as int;
                lemma_lin_in_range(
                    tpre.spec_ncol(),
                    tpre.spec_nrow(),
                    v@[k3 as int].c as int,
                    v@[k3 as int].r as int,
                );
                let nc = BoardCell::Tile(tiles@[k3 as int]);
                assert(this.spec_cells() == tpre.spec_cells().update(li, nc));
                assert(tpre.spec_cells()[li] == BoardCell::Empty) by {
                    assert(tpre.cell(v@[k3 as int]).is_empty());
                }
                lemma_count_tiles_update(tpre.spec_cells(), li, nc);
                vstd::seq_lib::to_multiset_update(tpre.spec_cells(), li, nc);
                lemma_kinds_push(tiles@.subrange(0, k3 as int), tiles@[k3 as int]);
                assert(tiles@.subrange(0, k3 as int + 1) =~= tiles@.subrange(0, k3 as int).push(
                    tiles@[k3 as int],
                ));
                assert forall|vv: BoardCell|
                    vv.is_tile() implies #[trigger] this.spec_cells().to_multiset().count(vv)
                    == kinds_as_cells(tiles@.subrange(0, k3 as int + 1)).count(vv) by {
                    let s_n = Multiset::singleton(nc);
                    let s_e = Multiset::singleton(BoardCell::Empty);
                    assert(s_e.count(vv) == 0nat);
                    assert(s_n.count(vv) == if vv == nc {
                        1nat
                    } else {
                        0nat
                    });
                    assert(this.spec_cells().to_multiset().count(vv)
                        == tpre.spec_cells().to_multiset().add(s_n).sub(s_e).count(vv));
                    assert(tpre.spec_cells().to_multiset().add(s_n).count(vv)
                        == tpre.spec_cells().to_multiset().count(vv) + s_n.count(vv));
                }
                assert forall|i: int|
                    0 <= i < this.spec_cells().len() implies cell_kind_ok(
                    #[trigger] this.spec_cells()[i],
                ) by {
                    if i != li {
                        assert(tpre.spec_cells().update(li, nc)[i] == tpre.spec_cells()[i]);
                        assert(cell_kind_ok(tpre.spec_cells()[i]));
                    } else {
                        assert(tpre.spec_cells().update(li, nc)[i] == nc);
                    }
                }
            }
            k3 = k3 + 1;
        }
        let ghost filled = this;
        proof {
            if n_inner >= 2 {
                // Two positions of the tile list share a kind: the first
                // two full rounds both start with kind zero, or the two
                // remainder copies both start with the first chosen kind.
                let ka = 0int;
                let kb = if q >= 1 {
                    34int
                } else {
                    half as int
                };
                if q == 0 {
                    assert(r == n_inner);
                    assert(half >= 1);
                }
                assert(0 <= ka < kb < nv && tiles@[ka] == tiles@[kb]);
                assert(filled.cell(v@[ka]) == BoardCell::Tile(tiles@[ka] as usize));
                assert(filled.cell(v@[kb]) == BoardCell::Tile(tiles@[kb] as usize));
                assert(lex_before(v@[ka], v@[kb]));
                let la = v@[ka].r as int * filled.spec_ncol() + v@[ka].c as int;
                let lb = v@[kb].r as int * filled.spec_ncol() + v@[kb].c as int;
                lemma_lin_in_range(
                    filled.spec_ncol(),
                    filled.spec_nrow(),
                    v@[ka].c as int,
                    v@[ka].r as int,
                );
                lemma_lin_in_range(
                    filled.spec_ncol(),
                    filled.spec_nrow(),
                    v@[kb].c as int,
                    v@[kb].r as int,
                );
                lemma_lin_injective(
                    filled.spec_ncol(),
                    filled.spec_nrow(),
                    v@[ka].c as int,
                    v@[ka].r as int,
                    v@[kb].c as int,
                    v@[kb].r as int,
                );
                assert(filled.spec_cells()[la] == filled.spec_cells()[lb]
                    && filled.spec_cells()[la].is_tile());
                if la < lb {
                    lemma_indices_to_count_two(filled.spec_cells(), la, lb);
                } else {
                    lemma_indices_to_count_two(filled.spec_cells(), lb, la);
                }
                assert(has_matching_pair(filled.spec_cells()));
            }
        }
        this.shuffle_solvable();
        proof {
            assert forall|sq: Square| this.inner(sq) implies (#[trigger] this.cell(
                sq,
            )).is_tile() by {
                assert(v@.contains(sq));
                let kk = choose|kk: int| 0 <= kk < v@.len() && v@[kk] == sq;
            }
            lemma_kind_ok_from_multiset(filled.spec_cells(), this.spec_cells());
            assert forall|sq: Square| this.in_bounds(sq) implies cell_kind_ok(
                #[trigger] this.cell(sq),
            ) by {
                lemma_lin_in_range(this.spec_ncol(), this.spec_nrow(), sq.c as int, sq.r as int);
            }
            if !this.spec_is_empty() {
                if n_inner < 2 {
                    // A zero-area interior leaves every cell on the border
                    // ring, so the board is empty after all.
                    assert(n_inner == 0) by (nonlinear_arith)
                        requires
                            n_inner == ncol_inner * nrow_inner,
                            n_inner % 2 == 0,
                            ncol_inner >= 0,
                            nrow_inner >= 0,
                            n_inner < 2,
                    ;
                    assert(ncol_inner == 0 || nrow_inner == 0) by (nonlinear_arith)
                        requires
                            ncol_inner * nrow_inner == 0,
                    ;
                    assert forall|c: int, r2: int|
                        0 <= c < this.spec_ncol() && 0 <= r2 < this.spec_nrow() implies (
                    #[trigger] this.cell_cr(c, r2)).is_empty() by {
                        assert(this.on_border(c, r2));
                    }
                    assert(false);
                }
                assert(this.has_move());
            }
        }
        this
    }
}

} // verus!
