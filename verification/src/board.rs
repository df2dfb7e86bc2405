use vstd::prelude::*;

verus! {

/// What occupies one cell of the maze.
#[derive(Clone, Copy, PartialEq, Eq, Structural, Debug)]
pub enum BoardTile {
    Empty,
    Wall,
    Dot,
    PowerUp,
}

/// A rectangular maze: `height` rows of `width` tiles each.
///
/// Row `i` and column `j` address the tile at `(i, j)`; the columns wrap
/// around (the horizontal tunnel), the rows do not.
pub struct Board {
    rows: Vec<Vec<BoardTile>>,
}

/// A grid is well formed when it has at least one row, every row has the
/// same, non-zero length, and the number of tiles is below `usize::MAX`.
pub open spec fn grid_wf(g: Seq<Seq<BoardTile>>) -> bool {
    &&& g.len() > 0
    &&& g[0].len() > 0
    &&& forall|i: int| 0 <= i < g.len() ==> #[trigger] g[i].len() == g[0].len()
    &&& g.len() * g[0].len() < usize::MAX
}

impl View for Board {
    type V = Seq<Seq<BoardTile>>;

    closed spec fn view(&self) -> Seq<Seq<BoardTile>> {
        layout_of(self.rows@)
    }
}

impl Board {
    #[verifier::type_invariant]
    closed spec fn inv(&self) -> bool {
        grid_wf(self@)
    }

    /// Number of columns.
    pub open spec fn spec_width(&self) -> nat {
        self@[0].len()
    }

    /// Number of rows.
    pub open spec fn spec_height(&self) -> nat {
        self@.len()
    }

    /// The tile at row `i`, column `j`.
    pub open spec fn tile(&self, i: int, j: int) -> BoardTile {
        self@[i][j]
    }

    pub open spec fn in_bounds(&self, i: int, j: int) -> bool {
        0 <= i < self@.len() && 0 <= j < self@[0].len()
    }

    proof fn lemma_grid(g: Seq<Seq<BoardTile>>)
        requires
            grid_wf(g),
        ensures
            g.len() * g[0].len() == g[0].len() * g.len(),
    {
        assert(g.len() * g[0].len() == g[0].len() * g.len()) by (nonlinear_arith);
    }

    /// Builds a board from its rows; `None` unless the rows form a
    /// non-empty rectangle whose tile count is below `usize::MAX`.
    pub fn from_rows(rows: Vec<Vec<BoardTile>>) -> (r: Option<Board>)
        ensures
            r is Some <==> grid_wf(layout_of(rows@)),
            r matches Some(b) ==> b@ == layout_of(rows@),
    {
        let ghost g = layout_of(rows@);
        if rows.len() == 0 {
            return None;
        }
        let w = rows[0].len();
        if w == 0 {
            return None;
        }
        let mut k: usize = 0;
        while k < rows.len()
            invariant
                0 <= k <= rows.len(),
                g == layout_of(rows@),
                w == g[0].len(),
                forall|i: int| 0 <= i < k ==> #[trigger] g[i].len() == w,
            decreases rows.len() - k,
        {
            if rows[k].len() != w {
                assert(g[k as int].len() != g[0].len());
                return None;
            }
            k = k + 1;
        }
        match rows.len().checked_mul(w) {
            None => {
                return None;
            },
            Some(n) => {
                if n == usize::MAX {
                    return None;
                }
            },
        }
        let b = Board { rows };
        assert(b@ =~= g);
        Some(b)
    }

    /// Number of columns.
    pub fn width(&self) -> (r: usize)
        ensures
            r == self.spec_width(),
            r > 0,
            grid_wf(self@),
    {
        proof {
            use_type_invariant(self);
        }
        self.rows[0].len()
    }

    /// Number of rows.
    pub fn height(&self) -> (r: usize)
        ensures
            r == self.spec_height(),
            r > 0,
            r * self.spec_width() < usize::MAX,
    {
        proof {
            use_type_invariant(self);
            Self::lemma_grid(self@);
            assert(self@.len() == self.rows@.len());
        }
        self.rows.len()
    }

    /// The tile at `(i, j)`, or `None` when the cell lies outside the board.
    pub fn try_get(&self, i: usize, j: usize) -> (r: Option<BoardTile>)
        ensures
            r == (if self.in_bounds(i as int, j as int) {
                Some(self.tile(i as int, j as int))
            } else {
                None
            }),
    {
        proof {
            use_type_invariant(self);
        }
        if i < self.rows.len() {
            assert(self@[i as int].len() == self@[0].len());
            if j < self.rows[i].len() {
                return Some(self.rows[i][j]);
            }
        }
        None
    }
}

/// The tile a layout character stands for: `#` a wall, `.` a dot, `o` a
/// power-up, a space an empty cell.
pub open spec fn spec_tile_of(c: u8) -> Option<BoardTile> {
    if c == 35 {
        Some(BoardTile::Wall)
    } else if c == 46 {
        Some(BoardTile::Dot)
    } else if c == 111 {
        Some(BoardTile::PowerUp)
    } else if c == 32 {
        Some(BoardTile::Empty)
    } else {
        None
    }
}

/// The tile a layout character stands for, if any.
pub fn tile_from_byte(c: u8) -> (r: Option<BoardTile>)
    ensures
        r == spec_tile_of(c),
{
    if c == 35 {
        Some(BoardTile::Wall)
    } else if c == 46 {
        Some(BoardTile::Dot)
    } else if c == 111 {
        Some(BoardTile::PowerUp)
    } else if c == 32 {
        Some(BoardTile::Empty)
    } else {
        None
    }
}

/// The contents of a list of rows.
pub open spec fn layout_of<T>(rows: Seq<Vec<T>>) -> Seq<Seq<T>> {
    Seq::new(rows.len(), |i: int| rows[i]@)
}

/// Every character of the layout stands for a tile.
pub open spec fn layout_known(rows: Seq<Seq<u8>>) -> bool {
    forall|i: int, j: int| 0 <= i < rows.len() && 0 <= j < rows[i].len() ==> (#[trigger] spec_tile_of(rows[i][j])) is Some
}

/// The tiles of a layout whose characters all stand for tiles.
pub open spec fn layout_tiles(rows: Seq<Seq<u8>>) -> Seq<Seq<BoardTile>> {
    Seq::new(rows.len(), |i: int| Seq::new(rows[i].len(), |j: int| spec_tile_of(rows[i][j])->0))
}

impl Board {
    /// Builds a board from the characters of its rows (see
    /// `tile_from_byte`); `None` when a character stands for no tile or
    /// the rows do not form a board.
    pub fn from_layout(rows: &Vec<Vec<u8>>) -> (r: Option<Board>)
        ensures
            r is Some <==> layout_known(layout_of(rows@)) && grid_wf(
                layout_tiles(layout_of(rows@)),
            ),
            r matches Some(b) ==> b@ == layout_tiles(layout_of(rows@)),
    {
        let ghost text = layout_of(rows@);
        let mut tiles: Vec<Vec<BoardTile>> = Vec::new();
        let mut i: usize = 0;
        while i < rows.len()
            invariant
                0 <= i <= rows@.len(),
                text == layout_of(rows@),
                tiles@.len() == i,
                forall|a: int, c: int| 0 <= a < i && 0 <= c < text[a].len() ==> (#[trigger] spec_tile_of(text[a][c])) is Some,
                forall|a: int| 0 <= a < i ==> #[trigger] tiles@[a]@ == layout_tiles(text)[a],
            decreases rows@.len() - i,
        {
            let row = &rows[i];
            let mut out: Vec<BoardTile> = Vec::new();
            let mut j: usize = 0;
            while j < row.len()
                invariant
                    0 <= j <= row@.len(),
                    row@ == text[i as int],
                    text == layout_of(rows@),
                    i < text.len(),
                    out@.len() == j,
                    forall|c: int| 0 <= c < j ==> (#[trigger] spec_tile_of(row@[c])) is Some,
                    forall|c: int| 0 <= c < j ==> #[trigger] out@[c] == spec_tile_of(row@[c])->0,
                decreases row@.len() - j,
            {
                match tile_from_byte(row[j]) {
                    Some(t) => out.push(t),
                    None => {
                        proof {
                            assert(spec_tile_of(text[i as int][j as int]) is None);
                            assert(!layout_known(text));
                        }
                        return None;
                    },
                }
                j = j + 1;
            }
            proof {
                assert(out@ =~= layout_tiles(text)[i as int]);
            }
            tiles.push(out);
            i = i + 1;
        }
        proof {
            assert(layout_of(tiles@) =~= layout_tiles(text));
        }
        Board::from_rows(tiles)
    }
}

} // verus!
