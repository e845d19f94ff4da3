//! The state machine of a game: a board snapshot, the side to move (or the
//! terminal marker) and the running scores. Playing a move never mutates the
//! turn it is played on; it yields a brand-new turn.

use vstd::prelude::*;

verus! {

use crate::board::{
    Board,
    Side,
    Cell,
    Coord,
    Direction,
    ReversiError,
    direction_from_index,
    dir_of_index,
    lemma_every_direction_indexed,
    BOARD_SIZE,
    NUM_CELLS,
};
use crate::rules::{
    in_bounds,
    cell_index,
    cell_at,
    ray_row,
    ray_col,
    capture_run,
    captures_in_direction,
    is_legal_move,
    side_can_move,
    flipped_by_move,
    flipped_upto,
    on_ray_prefix,
    board_after_move,
    count_side,
    count_occupied,
    next_state,
    lemma_count_side_upto_bounds,
    lemma_count_occupied_upto_bounds,
    lemma_count_split,
    lemma_count_update,
    lemma_count_side_empty,
    lemma_ray_bound,
    lemma_ray_injective,
    lemma_rays_disjoint,
    lemma_ray_leaves_start,
    lemma_ray_step,
    lemma_run_unique,
    lemma_no_capture_blocked,
    lemma_dir_index_injective,
    lemma_flipped_full,
};

/// A turn is either still running, with a side to play next, or ended.
pub type State = Option<Side>;

/// A board together with the side to move next and the running scores.
pub struct Turn {
    board: Board,
    state: State,
    score_dark: u8,
    score_light: u8,
}

impl Turn {
    /// The cells of this turn's board.
    pub closed spec fn spec_board(self) -> Seq<Cell> {
        self.board@
    }

    /// The side to move, or `None` once the game has ended.
    pub closed spec fn spec_state(self) -> State {
        self.state
    }

    pub closed spec fn spec_score_dark(self) -> int {
        self.score_dark as int
    }

    pub closed spec fn spec_score_light(self) -> int {
        self.score_light as int
    }

    /// The tracked score of the given side.
    pub open spec fn spec_score_of(self, s: Side) -> int {
        match s {
            Side::Dark => self.spec_score_dark(),
            Side::Light => self.spec_score_light(),
        }
    }

    /// Every turn reachable from [`Turn::first_turn`] keeps this shape: the
    /// tracked scores are the disk counts of the board, and the game is
    /// marked ended exactly when the board is full or neither side has a
    /// legal move.
    pub open spec fn wf(self) -> bool {
        &&& self.spec_board().len() == NUM_CELLS
        &&& self.spec_score_dark() == count_side(self.spec_board(), Side::Dark)
        &&& self.spec_score_light() == count_side(self.spec_board(), Side::Light)
        &&& match self.spec_state() {
            None => count_occupied(self.spec_board()) == 64 || (!side_can_move(
                self.spec_board(),
                Side::Dark,
            ) && !side_can_move(self.spec_board(), Side::Light)),
            Some(_) => count_occupied(self.spec_board()) < 64 && (side_can_move(
                self.spec_board(),
                Side::Dark,
            ) || side_can_move(self.spec_board(), Side::Light)),
        }
    }

    /// The first turn of a game: the four centre cells hold two disks per
    /// side in a cross pattern, all other cells are empty, both scores are
    /// two, and Dark is the first to play.
    pub fn first_turn() -> (t: Turn)
        ensures
            t.wf(),
            t.spec_state() == Some(Side::Dark),
            t.spec_score_dark() == 2,
            t.spec_score_light() == 2,
            cell_at(t.spec_board(), 3, 4) == Some(Side::Dark),
            cell_at(t.spec_board(), 4, 3) == Some(Side::Dark),
            cell_at(t.spec_board(), 3, 3) == Some(Side::Light),
            cell_at(t.spec_board(), 4, 4) == Some(Side::Light),
            forall|i: int, j: int|
                in_bounds(i, j) && !(3 <= i <= 4 && 3 <= j <= 4) ==> cell_at(
                    t.spec_board(),
                    i,
                    j,
                ) is None,
    {
        let mut board = Board::new();
        let ghost v0 = board@;
        board.put(Side::Dark, 3, 4);
        board.put(Side::Dark, 4, 3);
        board.put(Side::Light, 3, 3);
        board.put(Side::Light, 4, 4);
        let t = Turn { board, state: Some(Side::Dark), score_dark: 2, score_light: 2 };
        proof {
            let v = t.spec_board();
            lemma_count_side_empty(v0, Side::Dark, 64);
            lemma_count_side_empty(v0, Side::Light, 64);
            lemma_count_update(v0, Side::Dark, 28, Some(Side::Dark), 64);
            lemma_count_update(v0, Side::Light, 28, Some(Side::Dark), 64);
            let v1 = v0.update(28, Some(Side::Dark));
            lemma_count_update(v1, Side::Dark, 35, Some(Side::Dark), 64);
            lemma_count_update(v1, Side::Light, 35, Some(Side::Dark), 64);
            let v2 = v1.update(35, Some(Side::Dark));
            lemma_count_update(v2, Side::Dark, 27, Some(Side::Light), 64);
            lemma_count_update(v2, Side::Light, 27, Some(Side::Light), 64);
            let v3 = v2.update(27, Some(Side::Light));
            lemma_count_update(v3, Side::Dark, 36, Some(Side::Light), 64);
            lemma_count_update(v3, Side::Light, 36, Some(Side::Light), 64);
            assert(v == v3.update(36, Some(Side::Light)));
            assert(count_side(v, Side::Dark) == 2);
            assert(count_side(v, Side::Light) == 2);
            lemma_count_split(v, 64);
            // Dark already has a move: placing at (2, 3) captures the light
            // disk at (3, 3) against the dark disk at (4, 3), going south.
            assert(ray_row(2, Direction::South, 1) == 3 && ray_col(3, Direction::South, 1) == 3);
            assert(ray_row(2, Direction::South, 2) == 4 && ray_col(3, Direction::South, 2) == 3);
            assert(cell_at(v, 3, 3) == Some(Side::Light));
            assert(cell_at(v, 4, 3) == Some(Side::Dark));
            assert(capture_run(v, Side::Dark, 2, 3, Direction::South, 1));
            assert(captures_in_direction(v, Side::Dark, 2, 3, Direction::South));
            assert(cell_at(v, 2, 3) is None);
            assert(is_legal_move(v, Side::Dark, 2, 3));
            assert(side_can_move(v, Side::Dark));
        }
        t
    }

    /// The turn's board.
    pub fn get_board(&self) -> (b: &Board)
        ensures
            b@ == self.spec_board(),
    {
        &self.board
    }

    /// The board's cell at the given coordinate.
    pub fn get_cell(&self, coord: Coord) -> (r: Result<Cell, ReversiError>)
        requires
            self.wf(),
        ensures
            match r {
                Ok(c) => coord.spec_in_bounds() && c == cell_at(
                    self.spec_board(),
                    coord.row as int,
                    coord.col as int,
                ),
                Err(e) => e == ReversiError::OutOfBoundCoord(coord) && !coord.spec_in_bounds(),
            },
    {
        self.board.get_cell(coord)
    }

    /// The turn's status.
    pub fn get_state(&self) -> (r: State)
        ensures
            r == self.spec_state(),
    {
        self.state
    }

    /// Whether the game has ended.
    pub fn is_endgame(&self) -> (r: bool)
        ensures
            r == (self.spec_state() is None),
    {
        self.state.is_none()
    }

    /// The current score of the match, dark first.
    pub fn get_score(&self) -> (r: (u8, u8))
        ensures
            r.0 == self.spec_score_dark(),
            r.1 == self.spec_score_light(),
    {
        (self.score_dark, self.score_light)
    }

    /// The difference in score between Light and Dark.
    pub fn get_score_diff(&self) -> (r: i16)
        ensures
            r == self.spec_score_light() - self.spec_score_dark(),
    {
        self.score_light as i16 - self.score_dark as i16
    }

    /// The turn's tempo: how many disks there are on the board.
    pub fn get_tempo(&self) -> (r: u8)
        requires
            self.wf(),
        ensures
            r == count_occupied(self.spec_board()),
            r == self.spec_score_dark() + self.spec_score_light(),
    {
        proof {
            lemma_count_split(self.spec_board(), 64);
            lemma_count_side_upto_bounds(self.spec_board(), Side::Dark, 64);
            lemma_count_side_upto_bounds(self.spec_board(), Side::Light, 64);
        }
        self.score_light + self.score_dark
    }

    /// Checks whether the side to move may move at `coord`: the game is
    /// running, the cell is an empty cell of the board, and some direction
    /// captures.
    pub fn check_move(&self, coord: Coord) -> (r: Result<(), ReversiError>)
        requires
            self.wf(),
        ensures
            match r {
                Ok(()) => self.spec_state() is Some && is_legal_move(
                    self.spec_board(),
                    self.spec_state()->0,
                    coord.row as int,
                    coord.col as int,
                ),
                Err(ReversiError::EndedGame) => self.spec_state() is None,
                Err(ReversiError::OutOfBoundCoord(c)) => c == coord && self.spec_state() is Some
                    && !coord.spec_in_bounds(),
                Err(ReversiError::CellAlreadyTaken(c)) => c == coord && self.spec_state() is Some
                    && coord.spec_in_bounds() && cell_at(
                    self.spec_board(),
                    coord.row as int,
                    coord.col as int,
                ) is Some,
                Err(ReversiError::IllegalMove(c)) => c == coord && self.spec_state() is Some
                    && coord.spec_in_bounds() && cell_at(
                    self.spec_board(),
                    coord.row as int,
                    coord.col as int,
                ) is None && !is_legal_move(
                    self.spec_board(),
                    self.spec_state()->0,
                    coord.row as int,
                    coord.col as int,
                ),
                Err(_) => false,
            },
    {
        let s = match self.state {
            None => {
                return Err(ReversiError::EndedGame);
            },
            Some(s) => s,
        };
        if !coord.in_bounds() {
            return Err(ReversiError::OutOfBoundCoord(coord));
        }
        if self.board.at(coord.row, coord.col).is_some() {
            return Err(ReversiError::CellAlreadyTaken(coord));
        }
        let mut i: usize = 0;
        while i < 8
            invariant
                self.wf(),
                self.spec_state() == Some(s),
                coord.spec_in_bounds(),
                cell_at(self.spec_board(), coord.row as int, coord.col as int) is None,
                i <= 8,
                forall|di: int|
                    0 <= di < i ==> !captures_in_direction(
                        self.spec_board(),
                        s,
                        coord.row as int,
                        coord.col as int,
                        dir_of_index(di),
                    ),
            decreases 8 - i,
        {
            let d = direction_from_index(i);
            let n = capture_run_length(&self.board, s, coord.row, coord.col, d);
            if n > 0 {
                proof {
                    assert(captures_in_direction(
                        self.spec_board(),
                        s,
                        coord.row as int,
                        coord.col as int,
                        d,
                    ));
                }
                return Ok(());
            }
            i += 1;
        }
        proof {
            assert forall|d: Direction|
                !captures_in_direction(
                    self.spec_board(),
                    s,
                    coord.row as int,
                    coord.col as int,
                    d,
                ) by {
                lemma_every_direction_indexed(d);
                let di = choose|di: int| 0 <= di < 8 && dir_of_index(di) == d;
                assert(!captures_in_direction(
                    self.spec_board(),
                    s,
                    coord.row as int,
                    coord.col as int,
                    dir_of_index(di),
                ));
            }
        }
        Err(ReversiError::IllegalMove(coord))
    }

    /// Plays a move of the current side at `coord` and returns the new turn,
    /// leaving this turn untouched. The captured runs of every capturing
    /// direction are turned over, the mover's disk is placed, the scores are
    /// settled, and the new turn's state names the opponent, the mover again
    /// (a pass), or nobody (the end of the game).
    pub fn make_move(&self, coord: Coord) -> (r: Result<Turn, ReversiError>)
        requires
            self.wf(),
        ensures
            match r {
                Ok(t2) => {
                    &&& self.spec_state() is Some
                    &&& is_legal_move(
                        self.spec_board(),
                        self.spec_state()->0,
                        coord.row as int,
                        coord.col as int,
                    )
                    &&& t2.wf()
                    &&& t2.spec_board() == board_after_move(
                        self.spec_board(),
                        self.spec_state()->0,
                        coord.row as int,
                        coord.col as int,
                    )
                    &&& t2.spec_state() == next_state(t2.spec_board(), self.spec_state()->0)
                    &&& t2.spec_score_of(self.spec_state()->0) - self.spec_score_of(
                        self.spec_state()->0,
                    ) == 1 + (self.spec_score_of(self.spec_state()->0.spec_opposite())
                        - t2.spec_score_of(self.spec_state()->0.spec_opposite()))
                    &&& t2.spec_score_of(self.spec_state()->0.spec_opposite())
                        <= self.spec_score_of(self.spec_state()->0.spec_opposite()) - 1
                    &&& count_occupied(t2.spec_board()) == count_occupied(self.spec_board()) + 1
                },
                Err(ReversiError::EndedGame) => self.spec_state() is None,
                Err(ReversiError::OutOfBoundCoord(c)) => c == coord && self.spec_state() is Some
                    && !coord.spec_in_bounds(),
                Err(ReversiError::CellAlreadyTaken(c)) => c == coord && self.spec_state() is Some
                    && coord.spec_in_bounds() && cell_at(
                    self.spec_board(),
                    coord.row as int,
                    coord.col as int,
                ) is Some,
                Err(ReversiError::IllegalMove(c)) => c == coord && self.spec_state() is Some
                    && coord.spec_in_bounds() && cell_at(
                    self.spec_board(),
                    coord.row as int,
                    coord.col as int,
                ) is None && !is_legal_move(
                    self.spec_board(),
                    self.spec_state()->0,
                    coord.row as int,
                    coord.col as int,
                ),
                Err(_) => false,
            },
    {
        let ghost v = self.spec_board();
        let s = match self.state {
            None => {
                return Err(ReversiError::EndedGame);
            },
            Some(s) => s,
        };
        let opp = s.opposite();
        if !coord.in_bounds() {
            return Err(ReversiError::OutOfBoundCoord(coord));
        }
        let row = coord.row;
        let col = coord.col;
        let ghost rowi = row as int;
        let ghost coli = col as int;
        if self.board.at(row, col).is_some() {
            return Err(ReversiError::CellAlreadyTaken(coord));
        }
        // First pass: measure the captured run of every direction on the
        // board as it stands before the move.
        let mut lens: Vec<u8> = Vec::new();
        let mut any_capture = false;
        let mut i: usize = 0;
        while i < 8
            invariant
                self.wf(),
                v == self.spec_board(),
                row < BOARD_SIZE,
                col < BOARD_SIZE,
                rowi == row as int,
                coli == col as int,
                cell_at(v, rowi, coli) is None,
                i <= 8,
                lens@.len() == i,
                forall|k: int|
                    0 <= k < i ==> (lens@[k] > 0 ==> capture_run(
                        v,
                        s,
                        rowi,
                        coli,
                        dir_of_index(k),
                        lens@[k] as int,
                    )),
                forall|k: int|
                    0 <= k < i ==> (lens@[k] == 0 ==> !captures_in_direction(
                        v,
                        s,
                        rowi,
                        coli,
                        dir_of_index(k),
                    )),
                any_capture ==> exists|k: int| 0 <= k < i && lens@[k] > 0,
                !any_capture ==> forall|k: int| 0 <= k < i ==> lens@[k] == 0,
            decreases 8 - i,
        {
            let d = direction_from_index(i);
            let n = capture_run_length(&self.board, s, row, col, d);
            if n > 0 {
                any_capture = true;
            }
            let ghost lens_old = lens@;
            lens.push(n);
            proof {
                if n > 0 {
                    assert(lens@[i as int] > 0);
                } else if any_capture {
                    let k = choose|k: int| 0 <= k < i && lens_old[k] > 0;
                    assert(lens@[k] > 0);
                }
            }
            i += 1;
        }
        if !any_capture {
            proof {
                assert forall|d: Direction| !captures_in_direction(v, s, rowi, coli, d) by {
                    lemma_every_direction_indexed(d);
                    let k = choose|k: int| 0 <= k < 8 && dir_of_index(k) == d;
                    assert(lens@[k] == 0);
                    assert(!captures_in_direction(v, s, rowi, coli, dir_of_index(k)));
                }
            }
            return Err(ReversiError::IllegalMove(coord));
        }
        proof {
            let k = choose|k: int| 0 <= k < 8 && lens@[k] > 0;
            assert(capture_run(v, s, rowi, coli, dir_of_index(k), lens@[k] as int));
            assert(captures_in_direction(v, s, rowi, coli, dir_of_index(k)));
            assert(is_legal_move(v, s, rowi, coli));
        }
        // Second pass: turn the captured runs over on a copy of the board,
        // counting the turned disks.
        let mut nb = self.board.clone();
        let mut flips: u8 = 0;
        let mut di: usize = 0;
        while di < 8
            invariant
                v.len() == 64,
                opp == s.spec_opposite(),
                row < BOARD_SIZE,
                col < BOARD_SIZE,
                rowi == row as int,
                coli == col as int,
                cell_at(v, rowi, coli) is None,
                lens@.len() == 8,
                forall|k: int|
                    0 <= k < 8 ==> (lens@[k] > 0 ==> capture_run(
                        v,
                        s,
                        rowi,
                        coli,
                        dir_of_index(k),
                        lens@[k] as int,
                    )),
                forall|k: int|
                    0 <= k < 8 ==> (lens@[k] == 0 ==> !captures_in_direction(
                        v,
                        s,
                        rowi,
                        coli,
                        dir_of_index(k),
                    )),
                exists|k: int| 0 <= k < 8 && lens@[k] > 0,
                di <= 8,
                nb.wf(),
                flips <= 64,
                count_side(nb@, s) == count_side(v, s) + flips,
                count_side(nb@, s.spec_opposite()) == count_side(v, s.spec_opposite()) - flips,
                (exists|k: int| 0 <= k < di && lens@[k] > 0) ==> flips >= 1,
                forall|k: int|
                    0 <= k < 64 ==> nb@[k] == (if flipped_upto(
                        v,
                        s,
                        rowi,
                        coli,
                        k / 8,
                        k % 8,
                        di as int,
                    ) {
                        Some(s)
                    } else {
                        v[k]
                    }),
            decreases 8 - di,
        {
            let n = lens[di];
            if n > 0 {
                let d = direction_from_index(di);
                proof {
                    assert(capture_run(v, s, rowi, coli, d, n as int));
                    lemma_ray_bound(rowi, coli, d, n as int + 1);
                }
                let mut cur_row = row;
                let mut cur_col = col;
                let mut t: u8 = 0;
                let ghost flips0 = flips as int;
                while t < n
                    invariant
                        v.len() == 64,
                        opp == s.spec_opposite(),
                        row < BOARD_SIZE,
                        col < BOARD_SIZE,
                        rowi == row as int,
                        coli == col as int,
                        cell_at(v, rowi, coli) is None,
                        di < 8,
                        d == dir_of_index(di as int),
                        capture_run(v, s, rowi, coli, d, n as int),
                        1 <= n <= 6,
                        t <= n,
                        cur_row < BOARD_SIZE,
                        cur_col < BOARD_SIZE,
                        cur_row as int == ray_row(rowi, d, t as int),
                        cur_col as int == ray_col(coli, d, t as int),
                        nb.wf(),
                        flips as int == flips0 + t,
                        flips <= 64,
                        count_side(nb@, s) == count_side(v, s) + flips,
                        count_side(nb@, s.spec_opposite()) == count_side(v, s.spec_opposite())
                            - flips,
                        forall|k: int|
                            0 <= k < 64 ==> nb@[k] == (if flipped_upto(
                                v,
                                s,
                                rowi,
                                coli,
                                k / 8,
                                k % 8,
                                di as int,
                            ) || on_ray_prefix(rowi, coli, d, t as int, k / 8, k % 8) {
                                Some(s)
                            } else {
                                v[k]
                            }),
                    decreases n - t,
                {
                    let p = match step(cur_row, cur_col, d) {
                        Some(p) => p,
                        None => {
                            proof {
                                lemma_ray_step(rowi, coli, d, t as int);
                                assert(in_bounds(
                                    ray_row(rowi, d, t as int + 1),
                                    ray_col(coli, d, t as int + 1),
                                ));
                                assert(false);
                            }
                            (0, 0)
                        },
                    };
                    proof {
                        lemma_ray_step(rowi, coli, d, t as int);
                    }
                    let ghost tp = t as int + 1;
                    let ghost pi = ray_row(rowi, d, tp);
                    let ghost pj = ray_col(coli, d, tp);
                    let ghost kp = cell_index(pi, pj);
                    proof {
                        assert(in_bounds(pi, pj));
                        assert(0 <= kp < 64);
                        assert(kp / 8 == pi && kp % 8 == pj);
                        assert(!on_ray_prefix(rowi, coli, d, t as int, pi, pj)) by {
                            if on_ray_prefix(rowi, coli, d, t as int, pi, pj) {
                                let u = choose|u: int|
                                    1 <= u <= t && pi == #[trigger] ray_row(rowi, d, u) && pj
                                        == ray_col(coli, d, u);
                                lemma_ray_injective(rowi, coli, d, u, tp);
                            }
                        };
                        assert(!flipped_upto(v, s, rowi, coli, pi, pj, di as int)) by {
                            if flipped_upto(v, s, rowi, coli, pi, pj, di as int) {
                                let (k2, n2, t2) = choose|k2: int, n2: int, t2: int|
                                    #![trigger capture_run(v, s, rowi, coli, dir_of_index(k2), n2), ray_row(rowi, dir_of_index(k2), t2)]
                                    {
                                        &&& 0 <= k2 < di as int
                                        &&& capture_run(v, s, rowi, coli, dir_of_index(k2), n2)
                                        &&& 1 <= t2 <= n2
                                        &&& pi == ray_row(rowi, dir_of_index(k2), t2)
                                        &&& pj == ray_col(coli, dir_of_index(k2), t2)
                                    };
                                lemma_rays_disjoint(rowi, coli, dir_of_index(k2), d, t2, tp);
                                lemma_dir_index_injective(k2, di as int);
                            }
                        };
                        assert(nb@[kp] == v[kp]);
                        assert(cell_at(v, pi, pj) == Some(s.spec_opposite()));
                    }
                    let ghost nbv0 = nb@;
                    nb.turn_over(p.0, p.1);
                    proof {
                        assert(s.spec_opposite().spec_opposite() == s);
                        assert(nb@ == nbv0.update(kp, Some(s)));
                        lemma_count_update(nbv0, s, kp, Some(s), 64);
                        lemma_count_update(nbv0, s.spec_opposite(), kp, Some(s), 64);
                        lemma_count_side_upto_bounds(nb@, s.spec_opposite(), 64);
                        lemma_count_side_upto_bounds(v, s.spec_opposite(), 64);
                        assert forall|k: int| 0 <= k < 64 implies nb@[k] == (if flipped_upto(
                            v,
                            s,
                            rowi,
                            coli,
                            k / 8,
                            k % 8,
                            di as int,
                        ) || on_ray_prefix(rowi, coli, d, tp, k / 8, k % 8) {
                            Some(s)
                        } else {
                            v[k]
                        }) by {
                            if k == kp {
                                assert(on_ray_prefix(rowi, coli, d, tp, pi, pj));
                            } else {
                                assert(nb@[k] == nbv0[k]);
                                if on_ray_prefix(rowi, coli, d, tp, k / 8, k % 8) {
                                    let u = choose|u: int|
                                        1 <= u <= tp && k / 8 == #[trigger] ray_row(rowi, d, u) && k
                                            % 8 == ray_col(coli, d, u);
                                    if u == tp {
                                        assert(k == 8 * (k / 8) + k % 8);
                                        assert(false);
                                    }
                                    assert(on_ray_prefix(rowi, coli, d, t as int, k / 8, k % 8));
                                }
                            }
                        }
                    }
                    cur_row = p.0;
                    cur_col = p.1;
                    flips = flips + 1;
                    t = t + 1;
                }
                proof {
                    assert forall|k: int| 0 <= k < 64 implies nb@[k] == (if flipped_upto(
                        v,
                        s,
                        rowi,
                        coli,
                        k / 8,
                        k % 8,
                        di as int + 1,
                    ) {
                        Some(s)
                    } else {
                        v[k]
                    }) by {
                        let ii = k / 8;
                        let jj = k % 8;
                        if flipped_upto(v, s, rowi, coli, ii, jj, di as int + 1) {
                            let (k2, n2, t2) = choose|k2: int, n2: int, t2: int|
                                #![trigger capture_run(v, s, rowi, coli, dir_of_index(k2), n2), ray_row(rowi, dir_of_index(k2), t2)]
                                {
                                    &&& 0 <= k2 < di as int + 1
                                    &&& capture_run(v, s, rowi, coli, dir_of_index(k2), n2)
                                    &&& 1 <= t2 <= n2
                                    &&& ii == ray_row(rowi, dir_of_index(k2), t2)
                                    &&& jj == ray_col(coli, dir_of_index(k2), t2)
                                };
                            if k2 == di as int {
                                lemma_run_unique(v, s, rowi, coli, d, n2, n as int);
                                assert(on_ray_prefix(rowi, coli, d, n as int, ii, jj));
                            } else {
                                assert(flipped_upto(v, s, rowi, coli, ii, jj, di as int));
                            }
                        }
                        if flipped_upto(v, s, rowi, coli, ii, jj, di as int) {
                            assert(flipped_upto(v, s, rowi, coli, ii, jj, di as int + 1));
                        }
                        if on_ray_prefix(rowi, coli, d, n as int, ii, jj) {
                            let u = choose|u: int|
                                1 <= u <= n && ii == #[trigger] ray_row(rowi, d, u) && jj
                                    == ray_col(coli, d, u);
                            assert(capture_run(v, s, rowi, coli, dir_of_index(di as int), n as int));
                            assert(flipped_upto(v, s, rowi, coli, ii, jj, di as int + 1));
                        }
                    }
                }
            } else {
                proof {
                    assert forall|k: int| 0 <= k < 64 implies nb@[k] == (if flipped_upto(
                        v,
                        s,
                        rowi,
                        coli,
                        k / 8,
                        k % 8,
                        di as int + 1,
                    ) {
                        Some(s)
                    } else {
                        v[k]
                    }) by {
                        let ii = k / 8;
                        let jj = k % 8;
                        if flipped_upto(v, s, rowi, coli, ii, jj, di as int + 1) {
                            let (k2, n2, t2) = choose|k2: int, n2: int, t2: int|
                                #![trigger capture_run(v, s, rowi, coli, dir_of_index(k2), n2), ray_row(rowi, dir_of_index(k2), t2)]
                                {
                                    &&& 0 <= k2 < di as int + 1
                                    &&& capture_run(v, s, rowi, coli, dir_of_index(k2), n2)
                                    &&& 1 <= t2 <= n2
                                    &&& ii == ray_row(rowi, dir_of_index(k2), t2)
                                    &&& jj == ray_col(coli, dir_of_index(k2), t2)
                                };
                            if k2 == di as int {
                                assert(captures_in_direction(
                                    v,
                                    s,
                                    rowi,
                                    coli,
                                    dir_of_index(di as int),
                                ));
                                assert(false);
                            }
                            assert(flipped_upto(v, s, rowi, coli, ii, jj, di as int));
                        }
                        if flipped_upto(v, s, rowi, coli, ii, jj, di as int) {
                            assert(flipped_upto(v, s, rowi, coli, ii, jj, di as int + 1));
                        }
                    }
                }
            }
            di += 1;
        }
        // Place the mover's disk on the cell played.
        let ghost k0 = cell_index(rowi, coli);
        proof {
            assert(0 <= k0 < 64 && k0 / 8 == rowi && k0 % 8 == coli);
            assert(!flipped_by_move(v, s, rowi, coli, rowi, coli)) by {
                if flipped_by_move(v, s, rowi, coli, rowi, coli) {
                    let (d2, n2, t2) = choose|d2: Direction, n2: int, t2: int|
                        #![trigger capture_run(v, s, rowi, coli, d2, n2), ray_row(rowi, d2, t2)]
                        {
                            &&& capture_run(v, s, rowi, coli, d2, n2)
                            &&& 1 <= t2 <= n2
                            &&& rowi == ray_row(rowi, d2, t2)
                            &&& coli == ray_col(coli, d2, t2)
                        };
                    lemma_ray_leaves_start(rowi, coli, d2, t2);
                }
            };
            lemma_flipped_full(v, s, rowi, coli, rowi, coli);
            assert(nb@[k0] == v[k0]);
        }
        let ghost nbv = nb@;
        nb.put(s, row, col);
        let ghost v2 = nb@;
        proof {
            assert forall|k: int| 0 <= k < 64 implies v2[k] == board_after_move(
                v,
                s,
                rowi,
                coli,
            )[k] by {
                lemma_flipped_full(v, s, rowi, coli, k / 8, k % 8);
            }
            assert(v2 =~= board_after_move(v, s, rowi, coli));
            lemma_count_update(nbv, Side::Dark, k0, Some(s), 64);
            lemma_count_update(nbv, Side::Light, k0, Some(s), 64);
            lemma_count_split(v2, 64);
            lemma_count_split(v, 64);
            lemma_count_side_upto_bounds(v2, Side::Dark, 64);
            lemma_count_side_upto_bounds(v2, Side::Light, 64);
            lemma_count_side_upto_bounds(v, Side::Dark, 64);
            lemma_count_side_upto_bounds(v, Side::Light, 64);
            lemma_count_occupied_upto_bounds(v2, 64);
            assert(count_side(v2, s) == count_side(v, s) + flips + 1);
            assert(count_side(v2, s.spec_opposite()) == count_side(v, s.spec_opposite()) - flips);
        }
        // Settle the scores: the mover gains the new disk and the captured
        // run, the opponent loses exactly the captured run.
        let (new_dark, new_light): (u8, u8) = match s {
            Side::Dark => {
                proof {
                    assert(self.score_dark as int + 1 + flips as int == count_side(
                        v2,
                        Side::Dark,
                    ));
                    assert(self.score_light as int - flips as int == count_side(v2, Side::Light));
                }
                (self.score_dark + 1 + flips, self.score_light - flips)
            },
            Side::Light => {
                proof {
                    assert(self.score_light as int + 1 + flips as int == count_side(
                        v2,
                        Side::Light,
                    ));
                    assert(self.score_dark as int - flips as int == count_side(v2, Side::Dark));
                }
                (self.score_dark - flips, self.score_light + 1 + flips)
            },
        };
        proof {
            assert(new_dark as int + new_light as int == count_occupied(v2));
        }
        // Decide who moves next: on a full board the game ends; otherwise
        // the turn passes to the opponent, back to the mover when the
        // opponent cannot move, and to nobody when neither side can.
        let tempo = new_dark + new_light;
        let mut t2 = Turn { board: nb, state: Some(opp), score_dark: new_dark, score_light: new_light };
        if tempo == 64 {
            t2.state = None;
        } else if !t2.can_move() {
            t2.state = Some(s);
            if !t2.can_move() {
                t2.state = None;
            }
        }
        proof {
            match s {
                Side::Dark => assert(opp == Side::Light),
                Side::Light => assert(opp == Side::Dark),
            }
            assert(t2.spec_state() == next_state(v2, s));
        }
        Ok(t2)
    }

    /// Whether the side to move has any legal move at all. Callers should
    /// rather look at the turn's state, which already accounts for this.
    fn can_move(&self) -> (r: bool)
        requires
            self.spec_board().len() == NUM_CELLS,
            self.spec_state() is Some,
        ensures
            r == side_can_move(self.spec_board(), self.spec_state()->0),
    {
        let s = self.state.unwrap();
        side_has_move(&self.board, s)
    }
}

impl Clone for Turn {
    /// The clone shows the same board, state and scores, and shares no
    /// mutable storage with the original.
    fn clone(&self) -> (r: Turn)
        ensures
            r.spec_board() == self.spec_board(),
            r.spec_state() == self.spec_state(),
            r.spec_score_dark() == self.spec_score_dark(),
            r.spec_score_light() == self.spec_score_light(),
            self.wf() ==> r.wf(),
    {
        Turn {
            board: self.board.clone(),
            state: self.state,
            score_dark: self.score_dark,
            score_light: self.score_light,
        }
    }
}

/// In every well-formed turn the two scores add up to the number of occupied
/// cells — the tempo — and each score lies between zero and the cell count
/// of the board.
pub proof fn lemma_turn_invariant(t: Turn)
    requires
        t.wf(),
    ensures
        t.spec_score_dark() + t.spec_score_light() == count_occupied(t.spec_board()),
        0 <= t.spec_score_dark() <= 64,
        0 <= t.spec_score_light() <= 64,
        0 <= count_occupied(t.spec_board()) <= 64,
{
    lemma_count_split(t.spec_board(), 64);
    lemma_count_side_upto_bounds(t.spec_board(), Side::Dark, 64);
    lemma_count_side_upto_bounds(t.spec_board(), Side::Light, 64);
    lemma_count_occupied_upto_bounds(t.spec_board(), 64);
}

/// Once a move fills the board, the game ends, whatever capturing moves
/// would otherwise exist on the full board.
pub proof fn lemma_full_board_ends(v2: Seq<Cell>, mover: Side)
    requires
        count_occupied(v2) == 64,
    ensures
        next_state(v2, mover) is None,
{
}

/// One bounds-checked step from an in-bounds position.
fn step(row: usize, col: usize, d: Direction) -> (r: Option<(usize, usize)>)
    requires
        row < BOARD_SIZE,
        col < BOARD_SIZE,
    ensures
        match r {
            Some(p) => p.0 < BOARD_SIZE && p.1 < BOARD_SIZE && p.0 as int == row + d.delta_row()
                && p.1 as int == col + d.delta_col(),
            None => !in_bounds(row + d.delta_row(), col + d.delta_col()),
        },
{
    match d {
        Direction::North => if row == 0 {
            None
        } else {
            Some((row - 1, col))
        },
        Direction::NorthEast => if row == 0 || col == 7 {
            None
        } else {
            Some((row - 1, col + 1))
        },
        Direction::East => if col == 7 {
            None
        } else {
            Some((row, col + 1))
        },
        Direction::SouthEast => if row == 7 || col == 7 {
            None
        } else {
            Some((row + 1, col + 1))
        },
        Direction::South => if row == 7 {
            None
        } else {
            Some((row + 1, col))
        },
        Direction::SouthWest => if row == 7 || col == 0 {
            None
        } else {
            Some((row + 1, col - 1))
        },
        Direction::West => if col == 0 {
            None
        } else {
            Some((row, col - 1))
        },
        Direction::NorthWest => if row == 0 || col == 0 {
            None
        } else {
            Some((row - 1, col - 1))
        },
    }
}

/// Scans outward from `(row, col)` in direction `d` and returns the length of
/// the captured run for the side `s`, or zero when the direction captures
/// nothing.
fn capture_run_length(b: &Board, s: Side, row: usize, col: usize, d: Direction) -> (n: u8)
    requires
        b.wf(),
        row < BOARD_SIZE,
        col < BOARD_SIZE,
    ensures
        n > 0 ==> capture_run(b@, s, row as int, col as int, d, n as int),
        n == 0 ==> !captures_in_direction(b@, s, row as int, col as int, d),
{
    let ghost rowi = row as int;
    let ghost coli = col as int;
    let opp = s.opposite();
    let (mut cur_row, mut cur_col) = match step(row, col, d) {
        None => {
            proof {
                lemma_ray_step(rowi, coli, d, 0);
                lemma_no_capture_blocked(b@, s, rowi, coli, d, 0);
            }
            return 0;
        },
        Some(p) => p,
    };
    proof {
        lemma_ray_step(rowi, coli, d, 0);
    }
    let c1 = b.at(cur_row, cur_col);
    let extend = match c1 {
        Some(x) => x == opp,
        None => false,
    };
    if !extend {
        proof {
            lemma_no_capture_blocked(b@, s, rowi, coli, d, 0);
        }
        return 0;
    }
    let mut t: u8 = 1;
    loop
        invariant
            b.wf(),
            row < BOARD_SIZE,
            col < BOARD_SIZE,
            rowi == row as int,
            coli == col as int,
            1 <= t <= 7,
            cur_row < BOARD_SIZE,
            cur_col < BOARD_SIZE,
            cur_row as int == ray_row(rowi, d, t as int),
            cur_col as int == ray_col(coli, d, t as int),
            forall|u: int|
                1 <= u <= t ==> in_bounds(#[trigger] ray_row(rowi, d, u), ray_col(coli, d, u))
                    && cell_at(b@, ray_row(rowi, d, u), ray_col(coli, d, u)) == Some(
                    s.spec_opposite(),
                ),
        decreases 8 - t,
    {
        match step(cur_row, cur_col, d) {
            None => {
                proof {
                    lemma_ray_step(rowi, coli, d, t as int);
                    lemma_no_capture_blocked(b@, s, rowi, coli, d, t as int);
                }
                return 0;
            },
            Some(p) => {
                proof {
                    lemma_ray_step(rowi, coli, d, t as int);
                }
                match b.at(p.0, p.1) {
                    None => {
                        proof {
                            lemma_no_capture_blocked(b@, s, rowi, coli, d, t as int);
                        }
                        return 0;
                    },
                    Some(x) => {
                        if x == s {
                            proof {
                                assert(capture_run(b@, s, rowi, coli, d, t as int));
                            }
                            return t;
                        }
                        proof {
                            lemma_ray_bound(rowi, coli, d, t as int + 1);
                        }
                        cur_row = p.0;
                        cur_col = p.1;
                        t = t + 1;
                    },
                }
            },
        }
    }
}

/// Whether side `s` has any legal move on the board `b`: some empty cell
/// captures in some direction.
fn side_has_move(b: &Board, s: Side) -> (r: bool)
    requires
        b.wf(),
    ensures
        r == side_can_move(b@, s),
{
    let mut row: usize = 0;
    while row < 8
        invariant
            b.wf(),
            row <= 8,
            forall|i: int, j: int| 0 <= i < row && 0 <= j < 8 ==> !is_legal_move(b@, s, i, j),
        decreases 8 - row,
    {
        let mut col: usize = 0;
        while col < 8
            invariant
                b.wf(),
                row < 8,
                col <= 8,
                forall|i: int, j: int| 0 <= i < row && 0 <= j < 8 ==> !is_legal_move(b@, s, i, j),
                forall|j: int| 0 <= j < col ==> !is_legal_move(b@, s, row as int, j),
            decreases 8 - col,
        {
            if b.at(row, col).is_none() {
                let mut di: usize = 0;
                while di < 8
                    invariant
                        b.wf(),
                        row < 8,
                        col < 8,
                        di <= 8,
                        cell_at(b@, row as int, col as int) is None,
                        forall|k: int|
                            0 <= k < di ==> !captures_in_direction(
                                b@,
                                s,
                                row as int,
                                col as int,
                                dir_of_index(k),
                            ),
                    decreases 8 - di,
                {
                    let d = direction_from_index(di);
                    let n = capture_run_length(b, s, row, col, d);
                    if n > 0 {
                        proof {
                            assert(captures_in_direction(b@, s, row as int, col as int, d));
                            assert(is_legal_move(b@, s, row as int, col as int));
                        }
                        return true;
                    }
                    di += 1;
                }
                proof {
                    assert forall|d: Direction|
                        !captures_in_direction(b@, s, row as int, col as int, d) by {
                        lemma_every_direction_indexed(d);
                        let k = choose|k: int| 0 <= k < 8 && dir_of_index(k) == d;
                        assert(!captures_in_direction(
                            b@,
                            s,
                            row as int,
                            col as int,
                            dir_of_index(k),
                        ));
                    }
                }
            }
            col += 1;
        }
        row += 1;
    }
    proof {
        assert forall|i: int, j: int| !is_legal_move(b@, s, i, j) by {
            if in_bounds(i, j) {
                assert(!is_legal_move(b@, s, i, j));
            }
        }
    }
    false
}

} // verus!
