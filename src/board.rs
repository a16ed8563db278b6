use vstd::prelude::*;

use crate::disc::Disc;
use crate::position::{ray, ray_cell, ray_cell_at, ray_reach, reach};

verus! {

/// Number of cells holding `v` in a sequence of cells.
pub open spec fn count(s: Seq<Option<Disc>>, v: Option<Disc>) -> nat
    decreases s.len(),
{
    if s.len() == 0 {
        0
    } else {
        count(s.drop_last(), v) + if s.last() == v {
            1nat
        } else {
            0nat
        }
    }
}

/// The cells of a ray, or of any sequence of cell indexes, as integers.
pub open spec fn as_ints(s: Seq<usize>) -> Seq<int> {
    s.map_values(|u: usize| u as int)
}

/// The cell contents of the standard starting position: light on d4 and e5, dark on e4 and d5.
pub open spec fn start_cells() -> Seq<Option<Disc>> {
    Seq::new(
        64,
        |i: int|
            if i == 27 || i == 36 {
                Some(Disc::Light)
            } else if i == 28 || i == 35 {
                Some(Disc::Dark)
            } else {
                None
            },
    )
}

/// Changing one cell changes each count by what left and what came.
pub proof fn lemma_count_update(s: Seq<Option<Disc>>, i: int, v: Option<Disc>, c: Option<Disc>)
    requires
        0 <= i < s.len(),
    ensures
        count(s.update(i, v), c) + (if s[i] == c {
            1int
        } else {
            0int
        }) == count(s, c) + (if v == c {
            1int
        } else {
            0int
        }),
    decreases s.len(),
{
    let t = s.update(i, v);
    if i == s.len() - 1 {
        assert(t.drop_last() =~= s.drop_last());
    } else {
        assert(t.drop_last() =~= s.drop_last().update(i, v));
        lemma_count_update(s.drop_last(), i, v, c);
    }
}

/// Every cell is dark, light or empty.
pub proof fn lemma_count_total(s: Seq<Option<Disc>>)
    ensures
        count(s, Some(Disc::Dark)) + count(s, Some(Disc::Light)) + count(s, None) == s.len(),
    decreases s.len(),
{
    if s.len() > 0 {
        lemma_count_total(s.drop_last());
        match s.last() {
            Some(Disc::Dark) => {},
            Some(Disc::Light) => {},
            None => {},
        }
    }
}

/// A count is zero exactly when no cell holds the value.
pub proof fn lemma_count_zero(s: Seq<Option<Disc>>, v: Option<Disc>)
    ensures
        count(s, v) == 0 <==> forall|i: int| 0 <= i < s.len() ==> s[i] != v,
    decreases s.len(),
{
    if s.len() > 0 {
        lemma_count_zero(s.drop_last(), v);
        if count(s, v) == 0 {
            assert forall|i: int| 0 <= i < s.len() implies s[i] != v by {
                if i < s.len() - 1 {
                    assert(s.drop_last()[i] == s[i]);
                }
            }
        } else if count(s.drop_last(), v) != 0 {
            let j = choose|j: int| 0 <= j < s.len() - 1 && s.drop_last()[j] == v;
            assert(s[j] == v);
        }
    }
}

/// Cells that hold `v` at the same places hold it the same number of times.
pub proof fn lemma_count_same_places(s: Seq<Option<Disc>>, u: Seq<Option<Disc>>, v: Option<Disc>)
    requires
        s.len() == u.len(),
        forall|i: int| 0 <= i < s.len() ==> (s[i] == v) == (u[i] == v),
    ensures
        count(s, v) == count(u, v),
    decreases s.len(),
{
    if s.len() > 0 {
        assert forall|i: int| 0 <= i < s.len() - 1 implies (s.drop_last()[i] == v) == (u.drop_last()[i] == v) by {
            assert(s.drop_last()[i] == s[i]);
            assert(u.drop_last()[i] == u[i]);
        }
        lemma_count_same_places(s.drop_last(), u.drop_last(), v);
    }
}

/// The starting position holds two discs of each color and sixty empty cells.
pub proof fn lemma_start_counts()
    ensures
        count(start_cells(), Some(Disc::Dark)) == 2,
        count(start_cells(), Some(Disc::Light)) == 2,
        count(start_cells(), None) == 60,
{
    // The starting cells are the empty board with four cells set, one at a time.
    let empty = Seq::new(64, |i: int| None::<Disc>);
    {
        lemma_count_zero(empty, Some(Disc::Dark));
        lemma_count_zero(empty, Some(Disc::Light));
        lemma_count_total(empty);
        let a = empty.update(27, Some(Disc::Light));
        let b = a.update(28, Some(Disc::Dark));
        let c = b.update(36, Some(Disc::Light));
        let d = c.update(35, Some(Disc::Dark));
        assert(d =~= start_cells());
        lemma_count_update(empty, 27, Some(Disc::Light), Some(Disc::Dark));
        lemma_count_update(empty, 27, Some(Disc::Light), Some(Disc::Light));
        lemma_count_update(empty, 27, Some(Disc::Light), None);
        lemma_count_update(a, 28, Some(Disc::Dark), Some(Disc::Dark));
        lemma_count_update(a, 28, Some(Disc::Dark), Some(Disc::Light));
        lemma_count_update(a, 28, Some(Disc::Dark), None);
        lemma_count_update(b, 36, Some(Disc::Light), Some(Disc::Dark));
        lemma_count_update(b, 36, Some(Disc::Light), Some(Disc::Light));
        lemma_count_update(b, 36, Some(Disc::Light), None);
        lemma_count_update(c, 35, Some(Disc::Dark), Some(Disc::Dark));
        lemma_count_update(c, 35, Some(Disc::Dark), Some(Disc::Light));
        lemma_count_update(c, 35, Some(Disc::Dark), None);
    }
}

/// The 8x8 game board: for each cell index in `0..64`, the disc on it, if any.
#[derive(Debug, PartialEq, Eq, Copy, Clone)]
pub struct Board {
    positions: [Option<Disc>; 64],
}

impl View for Board {
    type V = Seq<Option<Disc>>;

    closed spec fn view(&self) -> Seq<Option<Disc>> {
        self.positions@
    }
}

/// A board always has 64 cells.
pub broadcast proof fn lemma_board_len(b: Board)
    ensures
        (#[trigger] b@).len() == 64,
{
}

impl Board {
    /// A board with no discs.
    pub fn empty() -> (r: Board)
        ensures
            r@ == Seq::new(64, |i: int| None::<Disc>),
    {
        let r = Board { positions: vstd::array::array_fill_for_copy_types::<Option<Disc>, 64>(None) };
        assert(r@ =~= Seq::new(64, |i: int| None::<Disc>));
        r
    }

    /// A board holding the four starting discs.
    pub fn new() -> (r: Board)
        ensures
            r@ == start_cells(),
    {
        let mut board = Board::empty();
        board.set(27, Disc::Light);
        board.set(28, Disc::Dark);
        board.set(36, Disc::Light);
        board.set(35, Disc::Dark);
        assert(board@ =~= start_cells());
        board
    }

    /// The disc at a given index.
    pub fn get(&self, index: usize) -> (r: Option<Disc>)
        requires
            index < 64,
        ensures
            r == self@[index as int],
    {
        self.positions[index]
    }

    /// Places a disc at the given index, with no flipping or scoring.
    pub fn set(&mut self, index: usize, disc: Disc)
        requires
            index < 64,
        ensures
            final(self)@ == old(self)@.update(index as int, Some(disc)),
    {
        self.positions[index] = Some(disc);
        assert(self@ =~= old(self)@.update(index as int, Some(disc)));
    }

    /// The indexes of all cells holding `disc`, in ascending order.
    pub fn indexes_of(&self, disc: Option<Disc>) -> (r: Vec<usize>)
        ensures
            r@.len() == count(self@, disc),
            forall|j: int, k: int| 0 <= j < k < r@.len() ==> r@[j] < r@[k],
            forall|j: int| 0 <= j < r@.len() ==> r@[j] < 64 && self@[r@[j] as int] == disc,
            forall|i: int| 0 <= i < 64 && self@[i] == disc ==> r@.contains(i as usize),
    {
        let mut output: Vec<usize> = Vec::new();
        let mut i: usize = 0;
        while i < 64
            invariant
                i <= 64,
                self@.len() == 64,
                output@.len() == count(self@.subrange(0, i as int), disc),
                forall|j: int, k: int| 0 <= j < k < output@.len() ==> output@[j] < output@[k],
                forall|j: int| 0 <= j < output@.len() ==> output@[j] < i && self@[output@[j] as int] == disc,
                forall|c: int| 0 <= c < i && self@[c] == disc ==> output@.contains(c as usize),
            decreases 64 - i,
        {
            assert(self@.subrange(0, i + 1).drop_last() =~= self@.subrange(0, i as int));
            let cell = self.positions[i];
            if cell == disc {
                let ghost prev = output@;
                output.push(i);
                proof {
                    assert forall|c: int| 0 <= c < i + 1 && self@[c] == disc implies output@.contains(c as usize) by {
                        if c < i {
                            let j = choose|j: int| 0 <= j < prev.len() && prev[j] == c as usize;
                            assert(output@[j] == c as usize);
                        } else {
                            assert(output@[output@.len() - 1] == c as usize);
                        }
                    }
                }
            } else {
            }
            i += 1;
        }
        assert(self@.subrange(0, 64) =~= self@);
        output
    }

    /// The cells of the ray from `index` towards direction `d` (N, NE, E, SE, S, SW, W, NW).
    fn line(index: usize, d: usize) -> (r: Vec<usize>)
        requires
            index < 64,
            d < 8,
        ensures
            as_ints(r@) == ray(index as int, d as int),
    {
        let x = index % 8;
        let y = index / 8;
        let n = ray_reach(x, y, d);
        let mut output: Vec<usize> = Vec::with_capacity(8);
        let mut k: usize = 0;
        while k <= n
            invariant
                x < 8,
                y < 8,
                index == x + 8 * y,
                d < 8,
                n == reach(index as int, d as int),
                n <= 7,
                k <= n + 1,
                output@.len() == k,
                forall|j: int| 0 <= j < k ==> #[trigger] output@[j] == ray_cell(index as int, d as int, j),
            decreases n + 1 - k,
        {
            output.push(ray_cell_at(x, y, d, k));
            k += 1;
        }
        assert(as_ints(output@) =~= ray(index as int, d as int));
        output
    }

    /// The eight rays from a cell, in the order N, NE, E, SE, S, SW, W, NW; each starts
    /// with the cell itself and runs to the edge of the board.
    pub fn lines_for(&self, index: usize) -> (r: Vec<Vec<usize>>)
        requires
            index < 64,
        ensures
            r@.len() == 8,
            forall|d: int| 0 <= d < 8 ==> as_ints(#[trigger] r@[d]@) == ray(index as int, d),
    {
        let mut output: Vec<Vec<usize>> = Vec::with_capacity(8);
        let mut d: usize = 0;
        while d < 8
            invariant
                index < 64,
                d <= 8,
                output@.len() == d,
                forall|e: int| 0 <= e < d ==> as_ints(#[trigger] output@[e]@) == ray(index as int, e),
            decreases 8 - d,
        {
            output.push(Self::line(index, d));
            d += 1;
        }
        output
    }
}

} // verus!
