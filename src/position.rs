use vstd::prelude::*;

verus! {

/// Largest column or row coordinate.
pub const MAX_XY: usize = 7;

/// Column letters of the coordinate notation, `a` to `h`.
pub const X_POSITIONS: [char; 8] = ['a', 'b', 'c', 'd', 'e', 'f', 'g', 'h'];

/// Row digits of the coordinate notation, `1` to `8`.
pub const Y_POSITIONS: [char; 8] = ['1', '2', '3', '4', '5', '6', '7', '8'];

/// Column of a cell index.
pub open spec fn col(i: int) -> int {
    i % 8
}

/// Row of a cell index.
pub open spec fn row(i: int) -> int {
    i / 8
}

/// Horizontal step of compass direction `d`: N, NE, E, SE, S, SW, W, NW for `d` in `0..8`.
pub open spec fn dir_dx(d: int) -> int {
    if d == 1 || d == 2 || d == 3 {
        1
    } else if d == 5 || d == 6 || d == 7 {
        -1
    } else {
        0
    }
}

/// Vertical step of compass direction `d` (rows grow southwards).
pub open spec fn dir_dy(d: int) -> int {
    if d == 0 || d == 1 || d == 7 {
        -1
    } else if d == 3 || d == 4 || d == 5 {
        1
    } else {
        0
    }
}

/// The direction pointing the other way.
pub open spec fn dir_back(d: int) -> int {
    (d + 4) % 8
}

/// `k` steps of size `s` in `{-1, 0, 1}`.
pub open spec fn scaled(k: int, s: int) -> int {
    if s > 0 {
        k
    } else if s < 0 {
        -k
    } else {
        0
    }
}

/// How many steps fit on one axis from coordinate `c` before leaving the board.
pub open spec fn axis_reach(c: int, s: int) -> int {
    if s > 0 {
        7 - c
    } else if s < 0 {
        c
    } else {
        7
    }
}

/// How many steps fit from cell `i` towards direction `d` before the edge.
pub open spec fn reach(i: int, d: int) -> int {
    let a = axis_reach(col(i), dir_dx(d));
    let b = axis_reach(row(i), dir_dy(d));
    if a < b {
        a
    } else {
        b
    }
}

/// The cell `k` steps from `i` towards direction `d`.
pub open spec fn ray_cell(i: int, d: int, k: int) -> int {
    (col(i) + scaled(k, dir_dx(d))) + 8 * (row(i) + scaled(k, dir_dy(d)))
}

/// The ray from cell `i` towards direction `d`: `i` itself, then every cell up to the edge.
pub open spec fn ray(i: int, d: int) -> Seq<int> {
    Seq::new((reach(i, d) + 1) as nat, |k: int| ray_cell(i, d, k))
}

/// The cell indexes of a sequence of positions.
pub open spec fn indexes_of_positions(s: Seq<Position>) -> Seq<int> {
    s.map_values(|p: Position| p@)
}

/// Every cell of a ray from a board cell lies on the board, and its first cell is the origin.
pub proof fn lemma_ray_cell_bounds(i: int, d: int, k: int)
    requires
        0 <= i < 64,
        0 <= d < 8,
        0 <= k <= reach(i, d),
    ensures
        0 <= ray_cell(i, d, k) < 64,
        0 <= col(i) + scaled(k, dir_dx(d)) < 8,
        0 <= row(i) + scaled(k, dir_dy(d)) < 8,
        ray_cell(i, d, 0) == i,
        0 <= reach(i, d) <= 7,
{
}

/// Walking back from the cell `k` steps along a ray retraces that ray: the cell `j` steps back
/// is the cell `k - j` steps out, and the ray back reaches at least as far as the origin.
pub proof fn lemma_ray_reverse(i: int, d: int, k: int, j: int)
    requires
        0 <= i < 64,
        0 <= d < 8,
        0 <= k <= reach(i, d),
        0 <= j <= k,
    ensures
        0 <= ray_cell(i, d, k) < 64,
        reach(ray_cell(i, d, k), dir_back(d)) >= k,
        ray_cell(ray_cell(i, d, k), dir_back(d), j) == ray_cell(i, d, k - j),
        dir_back(dir_back(d)) == d,
        0 <= dir_back(d) < 8,
{
    lemma_ray_cell_bounds(i, d, k);
    let o = ray_cell(i, d, k);
    let x = col(i) + scaled(k, dir_dx(d));
    let y = row(i) + scaled(k, dir_dy(d));
    assert(col(o) == x && row(o) == y) by {
        vstd::arithmetic::div_mod::lemma_fundamental_div_mod_converse(o, 8, y, x);
    }
}

/// A board cell, addressed by its index `column + 8 * row` in `0..64`.
#[derive(Copy, Clone, Debug, Eq, PartialEq, Structural, PartialOrd, Ord)]
pub struct Position(usize);

impl View for Position {
    type V = int;

    closed spec fn view(&self) -> int {
        self.0 as int
    }
}

/// Two positions with the same index are the same position.
pub proof fn lemma_position_view_injective(a: Position, b: Position)
    ensures
        a@ == b@ <==> a == b,
{
}

/// The position at a cell index, as seen by a board cell's index.
pub broadcast proof fn lemma_position_at_view(i: int)
    requires
        0 <= i < 64,
    ensures
        (#[trigger] Position::at(i))@ == i,
{
}

/// Every position is the position at its own index.
pub broadcast proof fn lemma_position_at_of_view(p: Position)
    ensures
        Position::at(#[trigger] p@) == p,
{
}

impl Position {
    /// The position at cell index `i`.
    pub closed spec fn at(i: int) -> Position {
        Position(i as usize)
    }

    #[verifier::type_invariant]
    spec fn in_bounds(self) -> bool {
        self.0 < 64
    }

    /// The position with the given cell index.
    pub fn new(index: usize) -> (r: Position)
        requires
            index < 64,
        ensures
            r@ == index,
            r == Position::at(index as int),
    {
        Position(index)
    }

    /// The cell index of this position.
    pub fn index(&self) -> (r: usize)
        ensures
            r == self@,
            r < 64,
    {
        proof {
            use_type_invariant(self);
        }
        self.0
    }

    /// The position at column `x` and row `y`.
    pub fn from_xy(x: usize, y: usize) -> (r: Position)
        requires
            x <= MAX_XY,
            y <= MAX_XY,
        ensures
            r@ == y * 8 + x,
            col(r@) == x,
            row(r@) == y,
    {
        Self::new((y * 8) + x)
    }

    /// The column and row of this position.
    pub fn to_xy(self) -> (r: (usize, usize))
        ensures
            r.0 == col(self@),
            r.1 == row(self@),
            r.0 <= MAX_XY,
            r.1 <= MAX_XY,
    {
        let i = self.index();
        (i % 8, i / 8)
    }

    /// The column letter and row digit of the coordinate notation, `d3` for column 3, row 2.
    pub fn to_chars(self) -> (r: (char, char))
        ensures
            r.0 == X_POSITIONS@[col(self@)],
            r.1 == Y_POSITIONS@[row(self@)],
    {
        let (x, y) = self.to_xy();
        (X_POSITIONS[x], Y_POSITIONS[y])
    }

    /// Reads the coordinate notation: a column letter `a` to `h` and a row digit `1` to `8`.
    pub fn from_chars(x: char, y: char) -> (r: Option<Position>)
        ensures
            r is Some <==> (X_POSITIONS@.contains(x) && Y_POSITIONS@.contains(y)),
            r is Some ==> X_POSITIONS@[col(r->0@)] == x && Y_POSITIONS@[row(r->0@)] == y,
    {
        let mut cx: usize = 0;
        while cx < 8 && X_POSITIONS[cx] != x
            invariant
                cx <= 8,
                forall|j: int| 0 <= j < cx ==> X_POSITIONS@[j] != x,
            decreases 8 - cx,
        {
            cx += 1;
        }
        let mut cy: usize = 0;
        while cy < 8 && Y_POSITIONS[cy] != y
            invariant
                cy <= 8,
                forall|j: int| 0 <= j < cy ==> Y_POSITIONS@[j] != y,
            decreases 8 - cy,
        {
            cy += 1;
        }
        if cx == 8 || cy == 8 {
            proof {
                if X_POSITIONS@.contains(x) {
                    assert(cy == 8);
                    if Y_POSITIONS@.contains(y) {
                        let j = choose|j: int| 0 <= j < 8 && Y_POSITIONS@[j] == y;
                        assert(Y_POSITIONS@[j] != y);
                    }
                } else {
                }
            }
            None
        } else {
            let p = Self::from_xy(cx, cy);
            assert(X_POSITIONS@[cx as int] == x);
            assert(Y_POSITIONS@[cy as int] == y);
            Some(p)
        }
    }

    /// The ray from this position towards direction `d`, as positions.
    fn generate_line(&self, d: usize) -> (r: Vec<Position>)
        requires
            d < 8,
        ensures
            indexes_of_positions(r@) == ray(self@, d as int),
    {
        let i = self.index();
        let x = i % 8;
        let y = i / 8;
        let n = ray_reach(x, y, d);
        let mut output: Vec<Position> = Vec::with_capacity(8);
        let mut k: usize = 0;
        while k <= n
            invariant
                i == self@,
                x < 8,
                y < 8,
                i == x + 8 * y,
                x == col(i as int),
                y == row(i as int),
                n == reach(i as int, d as int),
                d < 8,
                k <= n + 1,
                n <= 7,
                output@.len() == k,
                forall|j: int| 0 <= j < k ==> #[trigger] output@[j]@ == ray_cell(i as int, d as int, j),
            decreases n + 1 - k,
        {
            output.push(Position::new(ray_cell_at(x, y, d, k)));
            k += 1;
        }
        assert(indexes_of_positions(output@) =~= ray(self@, d as int));
        output
    }

    /// The cells from here to the northern edge.
    pub fn generate_north(&self) -> (r: Vec<Position>)
        ensures
            indexes_of_positions(r@) == ray(self@, 0),
    {
        self.generate_line(0)
    }

    /// The cells from here to the edge, towards the north-east.
    pub fn generate_north_east(&self) -> (r: Vec<Position>)
        ensures
            indexes_of_positions(r@) == ray(self@, 1),
    {
        self.generate_line(1)
    }

    /// The cells from here to the eastern edge.
    pub fn generate_east(&self) -> (r: Vec<Position>)
        ensures
            indexes_of_positions(r@) == ray(self@, 2),
    {
        self.generate_line(2)
    }

    /// The cells from here to the edge, towards the south-east.
    pub fn generate_south_east(&self) -> (r: Vec<Position>)
        ensures
            indexes_of_positions(r@) == ray(self@, 3),
    {
        self.generate_line(3)
    }

    /// The cells from here to the southern edge.
    pub fn generate_south(&self) -> (r: Vec<Position>)
        ensures
            indexes_of_positions(r@) == ray(self@, 4),
    {
        self.generate_line(4)
    }

    /// The cells from here to the edge, towards the south-west.
    pub fn generate_south_west(&self) -> (r: Vec<Position>)
        ensures
            indexes_of_positions(r@) == ray(self@, 5),
    {
        self.generate_line(5)
    }

    /// The cells from here to the western edge.
    pub fn generate_west(&self) -> (r: Vec<Position>)
        ensures
            indexes_of_positions(r@) == ray(self@, 6),
    {
        self.generate_line(6)
    }

    /// The cells from here to the edge, towards the north-west.
    pub fn generate_north_west(&self) -> (r: Vec<Position>)
        ensures
            indexes_of_positions(r@) == ray(self@, 7),
    {
        self.generate_line(7)
    }
}

/// How many steps fit from column `x`, row `y` towards direction `d`.
pub fn ray_reach(x: usize, y: usize, d: usize) -> (r: usize)
    requires
        x < 8,
        y < 8,
        d < 8,
    ensures
        r == reach(x + 8 * y, d as int),
        r <= 7,
{
    assert(col(x + 8 * y) == x && row(x + 8 * y) == y) by {
        vstd::arithmetic::div_mod::lemma_fundamental_div_mod_converse(
            (x + 8 * y) as int,
            8,
            y as int,
            x as int,
        );
    }
    let a: usize = if d == 1 || d == 2 || d == 3 {
        MAX_XY - x
    } else if d == 5 || d == 6 || d == 7 {
        x
    } else {
        MAX_XY
    };
    let b: usize = if d == 3 || d == 4 || d == 5 {
        MAX_XY - y
    } else if d == 0 || d == 1 || d == 7 {
        y
    } else {
        MAX_XY
    };
    if a < b {
        a
    } else {
        b
    }
}

/// The cell `k` steps from column `x`, row `y` towards direction `d`.
pub fn ray_cell_at(x: usize, y: usize, d: usize, k: usize) -> (r: usize)
    requires
        x < 8,
        y < 8,
        d < 8,
        k <= reach(x + 8 * y, d as int),
    ensures
        r == ray_cell(x + 8 * y, d as int, k as int),
        r < 64,
{
    assert(col(x + 8 * y) == x && row(x + 8 * y) == y) by {
        vstd::arithmetic::div_mod::lemma_fundamental_div_mod_converse(
            (x + 8 * y) as int,
            8,
            y as int,
            x as int,
        );
    }
    proof {
        lemma_ray_cell_bounds(x + 8 * y, d as int, k as int);
    }
    let cx: usize = if d == 1 || d == 2 || d == 3 {
        x + k
    } else if d == 5 || d == 6 || d == 7 {
        x - k
    } else {
        x
    };
    let cy: usize = if d == 3 || d == 4 || d == 5 {
        y + k
    } else if d == 0 || d == 1 || d == 7 {
        y - k
    } else {
        y
    };
    cx + 8 * cy
}

} // verus!
