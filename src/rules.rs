use vstd::prelude::*;

use crate::disc::Disc;
use crate::position::{dir_back, lemma_ray_cell_bounds, lemma_ray_reverse, ray, ray_cell};

verus! {

/// Length of the run of opponent discs that starts at step `k` of the ray `r`.
pub open spec fn opp_run(b: Seq<Option<Disc>>, p: Disc, r: Seq<int>, k: int) -> nat
    decreases r.len() - k,
{
    if 0 <= k < r.len() && b[r[k]] == Some(p.opp()) {
        1 + opp_run(b, p, r, k + 1)
    } else {
        0
    }
}

/// The discs that player `p` flips along the ray `r` by playing at its first cell: the
/// run of opponent discs right after it, provided the run is not empty and ends at a
/// disc of `p`.
pub open spec fn ray_flips(b: Seq<Option<Disc>>, p: Disc, r: Seq<int>) -> Seq<int> {
    let n = opp_run(b, p, r, 1) as int;
    if n > 0 && n + 1 < r.len() && b[r[n + 1]] == Some(p) {
        r.subrange(1, n + 1)
    } else {
        Seq::empty()
    }
}

/// The discs flipped along the first `j` of the eight rays from `t`.
pub open spec fn flips_upto(b: Seq<Option<Disc>>, p: Disc, t: int, j: int) -> Set<int>
    decreases j,
{
    if j <= 0 {
        Set::empty()
    } else {
        flips_upto(b, p, t, j - 1) + ray_flips(b, p, ray(t, j - 1)).to_set()
    }
}

/// Every disc that player `p` flips by playing at `t`: the union over the eight rays.
pub open spec fn move_flips(b: Seq<Option<Disc>>, p: Disc, t: int) -> Set<int> {
    flips_upto(b, p, t, 8)
}

/// Whether player `p` may play at `t`: the cell is on the board and empty, and at least one
/// ray flips a disc.
pub open spec fn is_legal(b: Seq<Option<Disc>>, p: Disc, t: int) -> bool {
    &&& 0 <= t < 64
    &&& b[t] is None
    &&& exists|d: int| 0 <= d < 8 && (#[trigger] ray_flips(b, p, ray(t, d))).len() > 0
}

/// Whether player `p` has any legal move.
pub open spec fn has_moves(b: Seq<Option<Disc>>, p: Disc) -> bool {
    exists|t: int| is_legal(b, p, t)
}

/// The board after player `p` plays at `t`: the played cell and every flipped disc become `p`.
pub open spec fn place(b: Seq<Option<Disc>>, p: Disc, t: int) -> Seq<Option<Disc>> {
    Seq::new(
        b.len(),
        |i: int|
            if i == t || move_flips(b, p, t).contains(i) {
                Some(p)
            } else {
                b[i]
            },
    )
}

/// Each index is smaller than the next.
pub open spec fn strictly_sorted(s: Seq<int>) -> bool {
    forall|i: int, j: int| 0 <= i < j < s.len() ==> s[i] < s[j]
}

/// A run of opponent discs over `[a, c)` adds its length to the run from `c`.
pub proof fn lemma_opp_run_split(b: Seq<Option<Disc>>, p: Disc, r: Seq<int>, a: int, c: int)
    requires
        0 <= a <= c <= r.len(),
        forall|j: int| a <= j < c ==> b[r[j]] == Some(p.opp()),
    ensures
        opp_run(b, p, r, a) == (c - a) + opp_run(b, p, r, c),
    decreases c - a,
{
    if a < c {
        lemma_opp_run_split(b, p, r, a + 1, c);
    }
}

/// Every cell inside a run holds an opponent disc.
pub proof fn lemma_opp_run_cells(b: Seq<Option<Disc>>, p: Disc, r: Seq<int>, a: int, j: int)
    requires
        0 <= a <= j < a + opp_run(b, p, r, a),
    ensures
        j < r.len(),
        b[r[j]] == Some(p.opp()),
    decreases j - a,
{
    if a < j {
        lemma_opp_run_cells(b, p, r, a + 1, j);
    }
}

/// The discs flipped along a ray from a board cell are opponent discs on the board.
pub proof fn lemma_ray_flip_cell(b: Seq<Option<Disc>>, p: Disc, t: int, d: int, c: int)
    requires
        0 <= t < 64,
        0 <= d < 8,
        ray_flips(b, p, ray(t, d)).contains(c),
    ensures
        0 <= c < 64,
        b[c] == Some(p.opp()),
        c != t,
{
    let r = ray(t, d);
    let f = ray_flips(b, p, r);
    let j = choose|j: int| 0 <= j < f.len() && f[j] == c;
    lemma_opp_run_cells(b, p, r, 1, j + 1);
    lemma_ray_cell_bounds(t, d, j + 1);
    lemma_ray_cell_bounds(t, d, 0);
}

/// Every disc that a move flips is an opponent disc on the board, other than the played cell.
pub proof fn lemma_flip_cell(b: Seq<Option<Disc>>, p: Disc, t: int, j: int, c: int)
    requires
        0 <= t < 64,
        j <= 8,
        flips_upto(b, p, t, j).contains(c),
    ensures
        0 <= c < 64,
        b[c] == Some(p.opp()),
        c != t,
    decreases j,
{
    if j > 0 {
        if flips_upto(b, p, t, j - 1).contains(c) {
            lemma_flip_cell(b, p, t, j - 1, c);
        } else {
            lemma_ray_flip_cell(b, p, t, j - 1, c);
        }
    }
}

/// The legal moves of player `p` among the cells below `n`, in ascending order.
pub open spec fn legal_upto(b: Seq<Option<Disc>>, p: Disc, n: int) -> Seq<int>
    decreases n,
{
    if n <= 0 {
        Seq::empty()
    } else if is_legal(b, p, n - 1) {
        legal_upto(b, p, n - 1).push(n - 1)
    } else {
        legal_upto(b, p, n - 1)
    }
}

/// Every legal move of player `p`, in ascending order.
pub open spec fn legal_list(b: Seq<Option<Disc>>, p: Disc) -> Seq<int> {
    legal_upto(b, p, 64)
}

/// The moves listed below `n` are ascending, legal, and include every legal cell below `n`.
pub proof fn lemma_legal_upto(b: Seq<Option<Disc>>, p: Disc, n: int)
    requires
        0 <= n,
    ensures
        strictly_sorted(legal_upto(b, p, n)),
        forall|j: int| 0 <= j < legal_upto(b, p, n).len() ==> #[trigger] legal_upto(b, p, n)[j] < n
            && is_legal(b, p, legal_upto(b, p, n)[j]),
        forall|t: int| 0 <= t < n && is_legal(b, p, t) ==> #[trigger] legal_upto(b, p, n).contains(t),
    decreases n,
{
    if n > 0 {
        lemma_legal_upto(b, p, n - 1);
        let prev = legal_upto(b, p, n - 1);
        let cur = legal_upto(b, p, n);
        assert forall|t: int| 0 <= t < n && is_legal(b, p, t) implies #[trigger] cur.contains(t) by {
            if t < n - 1 {
                assert(prev.contains(t));
                let q = choose|q: int| 0 <= q < prev.len() && prev[q] == t;
                assert(cur[q] == t);
            } else {
                assert(cur[cur.len() - 1] == t);
            }
        }
    }
}

/// Player `p` has a move exactly when the list of legal moves is not empty.
pub proof fn lemma_legal_list_empty(b: Seq<Option<Disc>>, p: Disc)
    ensures
        has_moves(b, p) <==> legal_list(b, p).len() > 0,
{
    lemma_legal_upto(b, p, 64);
    if has_moves(b, p) {
        let t = choose|t: int| is_legal(b, p, t);
        assert(legal_list(b, p).contains(t));
    }
    if legal_list(b, p).len() > 0 {
        assert(is_legal(b, p, legal_list(b, p)[0]));
    }
}

/// The cell that player `p` could play, seen from its own disc at `o` along direction `d`:
/// past a run of opponent discs, the first cell that follows, if it is empty.
pub open spec fn back_target(b: Seq<Option<Disc>>, p: Disc, o: int, d: int) -> Option<int> {
    let r = ray(o, d);
    let n = opp_run(b, p, r, 1) as int;
    if n > 0 && n + 1 < r.len() && b[r[n + 1]] is None {
        Some(r[n + 1])
    } else {
        None
    }
}

/// The cell right after the run of opponent discs on the ray from `t` towards `d`.
pub open spec fn closing_disc(b: Seq<Option<Disc>>, p: Disc, t: int, d: int) -> int {
    ray_cell(t, d, opp_run(b, p, ray(t, d), 1) as int + 1)
}

/// A cell seen from one's own disc past a run of opponent discs is a legal move: the ray from
/// it back towards that disc flips the run.
pub proof fn lemma_back_target_sound(b: Seq<Option<Disc>>, p: Disc, o: int, d: int)
    requires
        0 <= o < 64,
        0 <= d < 8,
        b[o] == Some(p),
        back_target(b, p, o, d) is Some,
    ensures
        is_legal(b, p, back_target(b, p, o, d)->0),
{
    let r = ray(o, d);
    let n = opp_run(b, p, r, 1) as int;
    let t = r[n + 1];
    lemma_ray_reverse(o, d, n + 1, 0);
    let rt = ray(t, dir_back(d));
    assert forall|j: int| 1 <= j <= n implies b[rt[j]] == Some(p.opp()) by {
        lemma_ray_reverse(o, d, n + 1, j);
        lemma_opp_run_cells(b, p, r, 1, n + 1 - j);
    }
    lemma_ray_reverse(o, d, n + 1, n + 1);
    lemma_ray_cell_bounds(o, d, 0);
    assert(rt[n + 1] == o);
    lemma_opp_run_split(b, p, rt, 1, n + 1);
    assert(ray_flips(b, p, rt).len() > 0);
}

/// Every ray that flips discs ends at a disc of the player, and looking back from that disc
/// along the ray finds the move.
pub proof fn lemma_back_target_complete(b: Seq<Option<Disc>>, p: Disc, t: int, d: int)
    requires
        0 <= t < 64,
        0 <= d < 8,
        b[t] is None,
        ray_flips(b, p, ray(t, d)).len() > 0,
    ensures
        0 <= closing_disc(b, p, t, d) < 64,
        b[closing_disc(b, p, t, d)] == Some(p),
        back_target(b, p, closing_disc(b, p, t, d), dir_back(d)) == Some(t),
{
    let r = ray(t, d);
    let n = opp_run(b, p, r, 1) as int;
    let o = ray_cell(t, d, n + 1);
    lemma_ray_reverse(t, d, n + 1, 0);
    let ro = ray(o, dir_back(d));
    assert forall|j: int| 1 <= j <= n implies b[ro[j]] == Some(p.opp()) by {
        lemma_ray_reverse(t, d, n + 1, j);
        lemma_opp_run_cells(b, p, r, 1, n + 1 - j);
    }
    lemma_ray_reverse(t, d, n + 1, n + 1);
    lemma_ray_cell_bounds(t, d, 0);
    assert(ro[n + 1] == t);
    lemma_opp_run_split(b, p, ro, 1, n + 1);
}

/// The flips along the first `j` rays are exactly the discs that one of those rays flips.
proof fn lemma_flips_upto_union(b: Seq<Option<Disc>>, p: Disc, t: int, j: int, c: int)
    requires
        0 <= j,
    ensures
        flips_upto(b, p, t, j).contains(c) <==> exists|d: int| 0 <= d < j && (#[trigger] ray_flips(b, p, ray(t, d))).contains(c),
    decreases j,
{
    if j > 0 {
        lemma_flips_upto_union(b, p, t, j - 1, c);
        if ray_flips(b, p, ray(t, j - 1)).contains(c) {
            assert(ray_flips(b, p, ray(t, j - 1)).to_set().contains(c));
        }
        if flips_upto(b, p, t, j).contains(c) && !flips_upto(b, p, t, j - 1).contains(c) {
            assert(ray_flips(b, p, ray(t, j - 1)).to_set().contains(c));
        }
    }
}

/// A disc is flipped by a move exactly when one of the eight rays from the move flips it, so a
/// cell that several rays reach has all their flips, each once.
pub proof fn lemma_move_flips_union(b: Seq<Option<Disc>>, p: Disc, t: int, c: int)
    ensures
        move_flips(b, p, t).contains(c) <==> exists|d: int| 0 <= d < 8 && (#[trigger] ray_flips(b, p, ray(t, d))).contains(c),
{
    lemma_flips_upto_union(b, p, t, 8, c);
}

} // verus!
