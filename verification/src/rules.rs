//! The mathematical model of the game: what a board holds, which moves are
//! legal, what a move does to the board, and how the disks are counted.
//!
//! A board value is a sequence of `NUM_CELLS` cells, row by row; the cell at
//! `(row, col)` sits at index `row * BOARD_SIZE + col`.

use vstd::prelude::*;

verus! {

use crate::board::{Side, Cell, Direction, dir_of_index, lemma_every_direction_indexed};

/// Whether `(row, col)` addresses a cell of the board.
pub open spec fn in_bounds(row: int, col: int) -> bool {
    0 <= row < 8 && 0 <= col < 8
}

/// The index of the cell at `(row, col)` in a board sequence.
pub open spec fn cell_index(row: int, col: int) -> int {
    row * 8 + col
}

/// The cell at `(row, col)` of the board `v`.
pub open spec fn cell_at(v: Seq<Cell>, row: int, col: int) -> Cell {
    v[cell_index(row, col)]
}

/// The row reached after `t` steps from `row` in direction `d`.
pub open spec fn ray_row(row: int, d: Direction, t: int) -> int {
    row + t * d.delta_row()
}

/// The column reached after `t` steps from `col` in direction `d`.
pub open spec fn ray_col(col: int, d: Direction, t: int) -> int {
    col + t * d.delta_col()
}

/// From `(row, col)`, direction `d` holds a run of exactly `n` disks of the
/// side opposite to `s`, terminated by a disk of `s` itself.
pub open spec fn capture_run(
    v: Seq<Cell>,
    s: Side,
    row: int,
    col: int,
    d: Direction,
    n: int,
) -> bool {
    &&& 1 <= n
    &&& forall|t: int|
        1 <= t <= n ==> in_bounds(#[trigger] ray_row(row, d, t), ray_col(col, d, t)) && cell_at(
            v,
            ray_row(row, d, t),
            ray_col(col, d, t),
        ) == Some(s.spec_opposite())
    &&& in_bounds(ray_row(row, d, n + 1), ray_col(col, d, n + 1))
    &&& cell_at(v, ray_row(row, d, n + 1), ray_col(col, d, n + 1)) == Some(s)
}

/// A move of `s` at `(row, col)` captures in direction `d`.
pub open spec fn captures_in_direction(
    v: Seq<Cell>,
    s: Side,
    row: int,
    col: int,
    d: Direction,
) -> bool {
    exists|n: int| capture_run(v, s, row, col, d, n)
}

/// A move of `s` at `(row, col)` is legal: the cell is an empty cell of the
/// board and some direction captures.
pub open spec fn is_legal_move(v: Seq<Cell>, s: Side, row: int, col: int) -> bool {
    &&& in_bounds(row, col)
    &&& cell_at(v, row, col) is None
    &&& exists|d: Direction| captures_in_direction(v, s, row, col, d)
}

/// Side `s` has at least one legal move on the board `v`.
pub open spec fn side_can_move(v: Seq<Cell>, s: Side) -> bool {
    exists|row: int, col: int| is_legal_move(v, s, row, col)
}

/// The cell `(i, j)` is turned over by a move of `s` at `(row, col)`: it lies
/// within the captured run of some direction.
pub open spec fn flipped_by_move(
    v: Seq<Cell>,
    s: Side,
    row: int,
    col: int,
    i: int,
    j: int,
) -> bool {
    exists|d: Direction, n: int, t: int|
        #![trigger capture_run(v, s, row, col, d, n), ray_row(row, d, t)]
        {
            &&& capture_run(v, s, row, col, d, n)
            &&& 1 <= t <= n
            &&& i == ray_row(row, d, t)
            &&& j == ray_col(col, d, t)
        }
}

/// The board after a move of `s` at `(row, col)`: the moved-to cell and every
/// captured cell hold a disk of `s`; every other cell is unchanged.
pub open spec fn board_after_move(v: Seq<Cell>, s: Side, row: int, col: int) -> Seq<Cell> {
    Seq::new(
        64,
        |k: int|
            if k == cell_index(row, col) {
                Some(s)
            } else if flipped_by_move(v, s, row, col, k / 8, k % 8) {
                Some(s)
            } else {
                v[k]
            },
    )
}

/// How many of the first `n` cells of `v` hold a disk of `s`.
pub open spec fn count_side_upto(v: Seq<Cell>, s: Side, n: int) -> int
    decreases n,
{
    if n <= 0 {
        0
    } else {
        count_side_upto(v, s, n - 1) + (if v[n - 1] == Some(s) {
            1int
        } else {
            0int
        })
    }
}

/// How many cells of the board `v` hold a disk of `s`.
pub open spec fn count_side(v: Seq<Cell>, s: Side) -> int {
    count_side_upto(v, s, 64)
}

/// How many of the first `n` cells of `v` hold a disk.
pub open spec fn count_occupied_upto(v: Seq<Cell>, n: int) -> int
    decreases n,
{
    if n <= 0 {
        0
    } else {
        count_occupied_upto(v, n - 1) + (if v[n - 1] is Some {
            1int
        } else {
            0int
        })
    }
}

/// How many cells of the board `v` hold a disk.
pub open spec fn count_occupied(v: Seq<Cell>) -> int {
    count_occupied_upto(v, 64)
}

/// The side to move after a move of `mover` produced the board `v2`.
pub open spec fn next_state(v2: Seq<Cell>, mover: Side) -> Option<Side> {
    if count_occupied(v2) == 64 {
        None
    } else if side_can_move(v2, mover.spec_opposite()) {
        Some(mover.spec_opposite())
    } else if side_can_move(v2, mover) {
        Some(mover)
    } else {
        None
    }
}

pub proof fn lemma_count_side_upto_bounds(v: Seq<Cell>, s: Side, n: int)
    requires
        n >= 0,
    ensures
        0 <= count_side_upto(v, s, n) <= n,
    decreases n,
{
    if n > 0 {
        lemma_count_side_upto_bounds(v, s, n - 1);
    }
}

pub proof fn lemma_count_occupied_upto_bounds(v: Seq<Cell>, n: int)
    requires
        n >= 0,
    ensures
        0 <= count_occupied_upto(v, n) <= n,
    decreases n,
{
    if n > 0 {
        lemma_count_occupied_upto_bounds(v, n - 1);
    }
}

/// A cell holds a disk exactly when it holds a dark or a light disk, so the
/// occupied count splits into the two side counts.
pub proof fn lemma_count_split(v: Seq<Cell>, n: int)
    requires
        n >= 0,
    ensures
        count_occupied_upto(v, n) == count_side_upto(v, Side::Dark, n) + count_side_upto(
            v,
            Side::Light,
            n,
        ),
    decreases n,
{
    if n > 0 {
        lemma_count_split(v, n - 1);
        match v[n - 1] {
            None => {},
            Some(Side::Dark) => {},
            Some(Side::Light) => {},
        }
    }
}

/// Overwriting one cell moves each count by the worth of the new cell minus
/// the worth of the old one.
pub proof fn lemma_count_update(v: Seq<Cell>, s: Side, k: int, x: Cell, n: int)
    requires
        0 <= k < v.len(),
        0 <= n <= v.len(),
    ensures
        count_side_upto(v.update(k, x), s, n) == if k < n {
            count_side_upto(v, s, n) - (if v[k] == Some(s) {
                1int
            } else {
                0int
            }) + (if x == Some(s) {
                1int
            } else {
                0int
            })
        } else {
            count_side_upto(v, s, n)
        },
    decreases n,
{
    if n > 0 {
        lemma_count_update(v, s, k, x, n - 1);
    }
}

/// A board whose first `n` cells are all empty holds no disk among them.
pub proof fn lemma_count_side_empty(v: Seq<Cell>, s: Side, n: int)
    requires
        0 <= n <= v.len(),
        forall|k: int| 0 <= k < n ==> v[k] is None,
    ensures
        count_side_upto(v, s, n) == 0,
    decreases n,
{
    if n > 0 {
        lemma_count_side_empty(v, s, n - 1);
    }
}

/// A ray that is still on the board after `t` steps has taken at most seven.
pub proof fn lemma_ray_bound(row: int, col: int, d: Direction, t: int)
    requires
        in_bounds(row, col),
        t >= 0,
        in_bounds(ray_row(row, d, t), ray_col(col, d, t)),
    ensures
        t <= 7,
{
    match d {
        Direction::North => assert(ray_row(row, d, t) == row - t),
        Direction::NorthEast => assert(ray_row(row, d, t) == row - t),
        Direction::East => assert(ray_col(col, d, t) == col + t),
        Direction::SouthEast => assert(ray_row(row, d, t) == row + t),
        Direction::South => assert(ray_row(row, d, t) == row + t),
        Direction::SouthWest => assert(ray_row(row, d, t) == row + t),
        Direction::West => assert(ray_col(col, d, t) == col - t),
        Direction::NorthWest => assert(ray_row(row, d, t) == row - t),
    }
}

/// Two steps of one ray land on the same cell only if they are the same step.
pub proof fn lemma_ray_injective(row: int, col: int, d: Direction, t1: int, t2: int)
    requires
        ray_row(row, d, t1) == ray_row(row, d, t2),
        ray_col(col, d, t1) == ray_col(col, d, t2),
    ensures
        t1 == t2,
{
    match d {
        Direction::North => assert(row - t1 == row - t2),
        Direction::NorthEast => assert(row - t1 == row - t2),
        Direction::East => assert(col + t1 == col + t2),
        Direction::SouthEast => assert(row + t1 == row + t2),
        Direction::South => assert(row + t1 == row + t2),
        Direction::SouthWest => assert(row + t1 == row + t2),
        Direction::West => assert(col - t1 == col - t2),
        Direction::NorthWest => assert(row - t1 == row - t2),
    }
}

/// Rays of two distinct directions share no cell beyond their common start.
pub proof fn lemma_rays_disjoint(row: int, col: int, d1: Direction, d2: Direction, t1: int, t2: int)
    requires
        t1 >= 1,
        t2 >= 1,
        ray_row(row, d1, t1) == ray_row(row, d2, t2),
        ray_col(col, d1, t1) == ray_col(col, d2, t2),
    ensures
        d1 == d2,
        t1 == t2,
{
    let dr1 = d1.delta_row();
    let dc1 = d1.delta_col();
    let dr2 = d2.delta_row();
    let dc2 = d2.delta_col();
    assert(t1 * dr1 == t2 * dr2);
    assert(t1 * dc1 == t2 * dc2);
    assert(dr1 == dr2) by (nonlinear_arith)
        requires
            t1 >= 1,
            t2 >= 1,
            t1 * dr1 == t2 * dr2,
            -1 <= dr1 <= 1,
            -1 <= dr2 <= 1,
    ;
    assert(dc1 == dc2) by (nonlinear_arith)
        requires
            t1 >= 1,
            t2 >= 1,
            t1 * dc1 == t2 * dc2,
            -1 <= dc1 <= 1,
            -1 <= dc2 <= 1,
    ;
    assert(d1 == d2);
    assert(!(dr1 == 0 && dc1 == 0));
    assert(t1 == t2) by (nonlinear_arith)
        requires
            t1 * dr1 == t2 * dr1,
            t1 * dc1 == t2 * dc1,
            !(dr1 == 0 && dc1 == 0),
            -1 <= dr1 <= 1,
            -1 <= dc1 <= 1,
    ;
}

/// A point one or more steps out on a ray is not the start of the ray.
pub proof fn lemma_ray_leaves_start(row: int, col: int, d: Direction, t: int)
    requires
        t >= 1,
    ensures
        !(ray_row(row, d, t) == row && ray_col(col, d, t) == col),
{
    match d {
        Direction::North => assert(ray_row(row, d, t) == row - t),
        Direction::NorthEast => assert(ray_row(row, d, t) == row - t),
        Direction::East => assert(ray_col(col, d, t) == col + t),
        Direction::SouthEast => assert(ray_row(row, d, t) == row + t),
        Direction::South => assert(ray_row(row, d, t) == row + t),
        Direction::SouthWest => assert(ray_row(row, d, t) == row + t),
        Direction::West => assert(ray_col(col, d, t) == col - t),
        Direction::NorthWest => assert(ray_row(row, d, t) == row - t),
    }
}

/// A direction captures with exactly one run length.
pub proof fn lemma_run_unique(
    v: Seq<Cell>,
    s: Side,
    row: int,
    col: int,
    d: Direction,
    n1: int,
    n2: int,
)
    requires
        capture_run(v, s, row, col, d, n1),
        capture_run(v, s, row, col, d, n2),
    ensures
        n1 == n2,
{
    assert(s.spec_opposite() != s);
    if n1 < n2 {
        assert(cell_at(v, ray_row(row, d, n1 + 1), ray_col(col, d, n1 + 1)) == Some(
            s.spec_opposite(),
        ));
    } else if n2 < n1 {
        assert(cell_at(v, ray_row(row, d, n2 + 1), ray_col(col, d, n2 + 1)) == Some(
            s.spec_opposite(),
        ));
    }
}

/// The cell `(i, j)` is turned over by one of the directions whose scan index
/// is below `m`.
pub open spec fn flipped_upto(
    v: Seq<Cell>,
    s: Side,
    row: int,
    col: int,
    i: int,
    j: int,
    m: int,
) -> bool {
    exists|di: int, n: int, t: int|
        #![trigger capture_run(v, s, row, col, dir_of_index(di), n), ray_row(row, dir_of_index(di), t)]
        {
            &&& 0 <= di < m
            &&& capture_run(v, s, row, col, dir_of_index(di), n)
            &&& 1 <= t <= n
            &&& i == ray_row(row, dir_of_index(di), t)
            &&& j == ray_col(col, dir_of_index(di), t)
        }
}

/// The cell `(i, j)` lies on the first `tmax` steps of the ray of `d`.
pub open spec fn on_ray_prefix(
    row: int,
    col: int,
    d: Direction,
    tmax: int,
    i: int,
    j: int,
) -> bool {
    exists|t: int| 1 <= t <= tmax && i == #[trigger] ray_row(row, d, t) && j == ray_col(col, d, t)
}

/// One more step on a ray adds one direction offset to each coordinate.
pub proof fn lemma_ray_step(row: int, col: int, d: Direction, t: int)
    ensures
        ray_row(row, d, t + 1) == ray_row(row, d, t) + d.delta_row(),
        ray_col(col, d, t + 1) == ray_col(col, d, t) + d.delta_col(),
{
    assert((t + 1) * d.delta_row() == t * d.delta_row() + d.delta_row()) by (nonlinear_arith);
    assert((t + 1) * d.delta_col() == t * d.delta_col() + d.delta_col()) by (nonlinear_arith);
}

/// The scan index names each direction once.
pub proof fn lemma_dir_index_injective(i: int, j: int)
    requires
        0 <= i < 8,
        0 <= j < 8,
        dir_of_index(i) == dir_of_index(j),
    ensures
        i == j,
{
}

/// A scan that has seen `t` opposite disks and then finds the next cell off
/// the board, empty, or otherwise unable to extend or close the run shows
/// that the direction captures nothing.
pub proof fn lemma_no_capture_blocked(
    v: Seq<Cell>,
    s: Side,
    row: int,
    col: int,
    d: Direction,
    t: int,
)
    requires
        t >= 0,
        forall|u: int|
            1 <= u <= t ==> in_bounds(#[trigger] ray_row(row, d, u), ray_col(col, d, u)) && cell_at(
                v,
                ray_row(row, d, u),
                ray_col(col, d, u),
            ) == Some(s.spec_opposite()),
        in_bounds(ray_row(row, d, t + 1), ray_col(col, d, t + 1)) ==> cell_at(
            v,
            ray_row(row, d, t + 1),
            ray_col(col, d, t + 1),
        ) != Some(s.spec_opposite()),
        t >= 1 ==> (in_bounds(ray_row(row, d, t + 1), ray_col(col, d, t + 1)) ==> cell_at(
            v,
            ray_row(row, d, t + 1),
            ray_col(col, d, t + 1),
        ) != Some(s)),
    ensures
        !captures_in_direction(v, s, row, col, d),
{
    assert(s.spec_opposite() != s);
    if captures_in_direction(v, s, row, col, d) {
        let n = choose|n: int| capture_run(v, s, row, col, d, n);
        if n <= t - 1 {
            assert(cell_at(v, ray_row(row, d, n + 1), ray_col(col, d, n + 1)) == Some(
                s.spec_opposite(),
            ));
        } else if n == t {
            assert(cell_at(v, ray_row(row, d, t + 1), ray_col(col, d, t + 1)) == Some(s));
        } else {
            assert(in_bounds(ray_row(row, d, t + 1), ray_col(col, d, t + 1)) && cell_at(
                v,
                ray_row(row, d, t + 1),
                ray_col(col, d, t + 1),
            ) == Some(s.spec_opposite()));
        }
    }
}

/// Once all eight directions are processed, the cells turned over are exactly
/// those of `flipped_by_move`.
pub proof fn lemma_flipped_full(v: Seq<Cell>, s: Side, row: int, col: int, i: int, j: int)
    ensures
        flipped_upto(v, s, row, col, i, j, 8) == flipped_by_move(v, s, row, col, i, j),
{
    if flipped_upto(v, s, row, col, i, j, 8) {
        let (di, n, t) = choose|di: int, n: int, t: int|
            #![trigger capture_run(v, s, row, col, dir_of_index(di), n), ray_row(row, dir_of_index(di), t)]
            {
                &&& 0 <= di < 8
                &&& capture_run(v, s, row, col, dir_of_index(di), n)
                &&& 1 <= t <= n
                &&& i == ray_row(row, dir_of_index(di), t)
                &&& j == ray_col(col, dir_of_index(di), t)
            };
        assert(capture_run(v, s, row, col, dir_of_index(di), n));
        assert(ray_row(row, dir_of_index(di), t) == i);
        assert(flipped_by_move(v, s, row, col, i, j));
    }
    if flipped_by_move(v, s, row, col, i, j) {
        let (d, n, t) = choose|d: Direction, n: int, t: int|
            #![trigger capture_run(v, s, row, col, d, n), ray_row(row, d, t)]
            {
                &&& capture_run(v, s, row, col, d, n)
                &&& 1 <= t <= n
                &&& i == ray_row(row, d, t)
                &&& j == ray_col(col, d, t)
            };
        lemma_every_direction_indexed(d);
        let di = choose|di: int| 0 <= di < 8 && dir_of_index(di) == d;
        assert(capture_run(v, s, row, col, dir_of_index(di), n));
        assert(ray_row(row, dir_of_index(di), t) == i);
        assert(flipped_upto(v, s, row, col, i, j, 8));
    }
}

} // verus!
