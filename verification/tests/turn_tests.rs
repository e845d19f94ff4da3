use rusthello::board::{Coord, ReversiError, Side};
use rusthello::turn::Turn;

/// Plays the given coordinates in order, insisting that every move is legal.
fn play(moves: &[(usize, usize)]) -> Turn {
    let mut turn = Turn::first_turn();
    for &(row, col) in moves {
        turn = turn
            .make_move(Coord::new(row, col))
            .expect("every listed move should be legal");
    }
    turn
}

#[test]
fn first_turn_starting_position() {
    let turn = Turn::first_turn();
    assert_eq!(turn.get_score(), (2, 2));
    assert_eq!(turn.get_tempo(), 4);
    assert_eq!(turn.get_state(), Some(Side::Dark));
    assert!(!turn.is_endgame());
    assert_eq!(turn.get_score_diff(), 0);
    for row in 0..8 {
        for col in 0..8 {
            let cell = turn.get_cell(Coord::new(row, col)).unwrap();
            let expected = match (row, col) {
                (3, 4) | (4, 3) => Some(Side::Dark),
                (3, 3) | (4, 4) => Some(Side::Light),
                _ => None,
            };
            assert_eq!(cell, expected);
        }
    }
}

#[test]
fn check_move_finds_the_four_openings() {
    let turn = Turn::first_turn();
    let legal = [(2, 3), (3, 2), (4, 5), (5, 4)];
    for &(row, col) in &legal {
        assert_eq!(turn.check_move(Coord::new(row, col)), Ok(()));
    }
    for row in 0..8 {
        for col in 0..8 {
            let coord = Coord::new(row, col);
            let r = turn.check_move(coord);
            if legal.contains(&(row, col)) {
                assert_eq!(r, Ok(()));
            } else if turn.get_cell(coord).unwrap().is_some() {
                assert_eq!(r, Err(ReversiError::CellAlreadyTaken(coord)));
            } else {
                assert_eq!(r, Err(ReversiError::IllegalMove(coord)));
            }
        }
    }
}

#[test]
fn check_move_out_of_bounds() {
    let turn = Turn::first_turn();
    let coord = Coord::new(8, 0);
    assert_eq!(turn.check_move(coord), Err(ReversiError::OutOfBoundCoord(coord)));
    let coord = Coord::new(0, 100);
    assert_eq!(turn.check_move(coord), Err(ReversiError::OutOfBoundCoord(coord)));
}

#[test]
fn make_move_on_taken_cell_leaves_turn_usable() {
    let turn = Turn::first_turn();
    let coord = Coord::new(3, 3);
    assert_eq!(
        turn.make_move(coord).err(),
        Some(ReversiError::CellAlreadyTaken(coord))
    );
    // The refused move left the turn untouched and still playable.
    assert_eq!(turn.get_score(), (2, 2));
    assert_eq!(turn.get_state(), Some(Side::Dark));
    let after = turn.make_move(Coord::new(2, 3)).unwrap();
    assert_eq!(after.get_score(), (4, 1));
}

#[test]
fn make_move_illegal_cell() {
    let turn = Turn::first_turn();
    let coord = Coord::new(0, 0);
    assert_eq!(turn.make_move(coord).err(), Some(ReversiError::IllegalMove(coord)));
}

#[test]
fn scores_after_single_capture() {
    let turn = Turn::first_turn();
    let after = turn.make_move(Coord::new(2, 3)).unwrap();
    // One disk flipped: the mover gains 1 + 1, the opponent loses 1,
    // the tempo grows by exactly one.
    assert_eq!(after.get_score(), (4, 1));
    assert_eq!(after.get_tempo(), 5);
    assert_eq!(after.get_state(), Some(Side::Light));
    assert_eq!(after.get_cell(Coord::new(3, 3)).unwrap(), Some(Side::Dark));
    assert_eq!(after.get_cell(Coord::new(2, 3)).unwrap(), Some(Side::Dark));
}

#[test]
fn flip_accounting_holds_along_a_whole_game() {
    let moves = [
        (5, 4), (5, 3), (2, 2), (3, 5), (6, 3), (4, 2), (3, 6), (2, 6), (3, 2), (4, 6),
        (4, 1), (6, 2), (4, 5), (4, 0), (5, 0), (7, 3), (3, 0), (6, 5), (5, 5), (2, 3),
    ];
    let mut turn = Turn::first_turn();
    for &(row, col) in &moves {
        let side = turn.get_state().unwrap();
        let (dark, light) = turn.get_score();
        let next = turn.make_move(Coord::new(row, col)).unwrap();
        let (dark2, light2) = next.get_score();
        let (mover, mover2, other, other2) = match side {
            Side::Dark => (dark, dark2, light, light2),
            Side::Light => (light, light2, dark, dark2),
        };
        let flipped = other as i32 - other2 as i32;
        assert!(flipped >= 1);
        assert_eq!(mover2 as i32, mover as i32 + 1 + flipped);
        assert_eq!(next.get_tempo(), turn.get_tempo() + 1);
        turn = next;
    }
}

#[test]
fn pass_keeps_the_same_side_to_move() {
    // After this sequence Dark plays (5, 6); Light then has no legal move
    // while Dark still has one, so the turn stays with Dark.
    let moves = [
        (3, 2), (2, 4), (1, 5), (4, 2), (5, 3), (1, 4), (2, 5), (0, 6), (0, 3), (2, 6),
        (5, 4), (2, 2), (5, 1), (0, 4), (1, 1), (6, 0), (3, 6), (3, 5), (1, 7), (6, 5),
        (1, 3), (2, 7), (3, 1), (0, 2), (7, 6), (6, 4), (7, 5), (4, 0), (3, 0), (2, 1),
        (1, 2), (2, 3), (3, 7), (6, 3), (6, 2), (7, 4), (4, 5), (1, 0), (4, 1), (7, 3),
        (5, 2), (7, 7), (1, 6), (4, 6), (0, 7), (6, 1), (4, 7), (2, 0), (7, 2), (6, 6),
        (0, 0), (5, 5), (6, 7), (5, 7), (7, 0), (0, 1), (5, 0), (7, 1),
    ];
    let turn = play(&moves);
    assert_eq!(turn.get_state(), Some(Side::Dark));
    let after = turn.make_move(Coord::new(5, 6)).unwrap();
    // The pass: Dark moved and it is Dark's turn again, not Light's.
    assert_eq!(after.get_state(), Some(Side::Dark));
    assert!(!after.is_endgame());
    assert_eq!(after.get_score(), (32, 31));
    assert_eq!(after.get_tempo(), 63);
}

#[test]
fn full_board_ends_the_game() {
    let moves = [
        (5, 4), (5, 3), (2, 2), (3, 5), (6, 3), (4, 2), (3, 6), (2, 6), (3, 2), (4, 6),
        (4, 1), (6, 2), (4, 5), (4, 0), (5, 0), (7, 3), (3, 0), (6, 5), (5, 5), (2, 3),
        (3, 7), (1, 2), (6, 4), (2, 4), (5, 6), (7, 5), (3, 1), (2, 1), (1, 4), (4, 7),
        (5, 1), (2, 5), (5, 7), (6, 6), (5, 2), (6, 0), (1, 3), (0, 3), (0, 2), (0, 1),
        (7, 2), (1, 1), (6, 7), (7, 7), (1, 7), (2, 0), (2, 7), (0, 7), (1, 5), (1, 6),
        (0, 5), (0, 6), (7, 4), (7, 6), (1, 0), (0, 0), (6, 1), (7, 1), (7, 0), (0, 4),
    ];
    let turn = play(&moves);
    assert!(turn.is_endgame());
    assert_eq!(turn.get_state(), None);
    assert_eq!(turn.get_tempo(), 64);
    assert_eq!(turn.get_score(), (12, 52));
    assert_eq!(turn.get_score_diff(), 40);
}

#[test]
fn game_can_end_before_the_board_fills() {
    let moves = [
        (4, 5), (3, 5), (2, 2), (5, 6), (2, 5), (4, 2), (5, 3), (1, 5), (4, 1), (3, 2),
        (2, 6), (5, 0), (5, 5), (1, 2), (2, 4), (3, 6), (2, 1), (6, 6), (2, 3), (3, 7),
        (0, 1), (6, 2), (6, 4), (1, 3), (7, 1), (5, 4), (4, 0), (1, 4), (6, 5), (6, 3),
        (3, 1), (1, 1), (7, 5), (7, 3), (0, 4), (6, 1), (1, 7), (5, 1), (4, 7), (3, 0),
        (6, 7), (0, 3), (2, 0), (5, 7), (7, 4), (0, 5), (6, 0), (7, 6), (7, 7), (1, 6),
        (4, 6), (5, 2), (1, 0), (7, 0), (2, 7), (0, 0), (7, 2), (0, 6), (0, 2),
    ];
    let turn = play(&moves);
    assert!(turn.is_endgame());
    assert_eq!(turn.get_tempo(), 63);
    assert_eq!(turn.get_score(), (25, 38));
}

#[test]
fn ended_game_refuses_every_move() {
    let moves = [
        (4, 5), (3, 5), (2, 2), (5, 6), (2, 5), (4, 2), (5, 3), (1, 5), (4, 1), (3, 2),
        (2, 6), (5, 0), (5, 5), (1, 2), (2, 4), (3, 6), (2, 1), (6, 6), (2, 3), (3, 7),
        (0, 1), (6, 2), (6, 4), (1, 3), (7, 1), (5, 4), (4, 0), (1, 4), (6, 5), (6, 3),
        (3, 1), (1, 1), (7, 5), (7, 3), (0, 4), (6, 1), (1, 7), (5, 1), (4, 7), (3, 0),
        (6, 7), (0, 3), (2, 0), (5, 7), (7, 4), (0, 5), (6, 0), (7, 6), (7, 7), (1, 6),
        (4, 6), (5, 2), (1, 0), (7, 0), (2, 7), (0, 0), (7, 2), (0, 6), (0, 2),
    ];
    let turn = play(&moves);
    assert!(turn.is_endgame());
    for row in 0..8 {
        for col in 0..8 {
            let coord = Coord::new(row, col);
            assert_eq!(turn.make_move(coord).err(), Some(ReversiError::EndedGame));
            assert_eq!(turn.check_move(coord), Err(ReversiError::EndedGame));
        }
    }
    // Even a coordinate off the board reports the ended game first.
    let coord = Coord::new(42, 42);
    assert_eq!(turn.make_move(coord).err(), Some(ReversiError::EndedGame));
}

#[test]
fn clones_evolve_independently() {
    let original = Turn::first_turn().make_move(Coord::new(2, 3)).unwrap();
    let copy = original.clone();

    let from_copy = copy.make_move(Coord::new(2, 2)).unwrap();
    // Playing on the copy moved neither the copy itself nor the original.
    assert_eq!(original.get_score(), (4, 1));
    assert_eq!(copy.get_score(), (4, 1));
    assert_eq!(original.get_state(), Some(Side::Light));
    assert_eq!(copy.get_state(), Some(Side::Light));

    let from_original = original.make_move(Coord::new(2, 4)).unwrap();
    assert_eq!(copy.get_score(), (4, 1));
    // The two successors saw different moves and neither leaked into the other.
    assert_eq!(from_copy.get_cell(Coord::new(2, 2)).unwrap(), Some(Side::Light));
    assert_eq!(from_copy.get_cell(Coord::new(2, 4)).unwrap(), None);
    assert_eq!(from_original.get_cell(Coord::new(2, 4)).unwrap(), Some(Side::Light));
    assert_eq!(from_original.get_cell(Coord::new(2, 2)).unwrap(), None);
    for row in 0..8 {
        for col in 0..8 {
            let coord = Coord::new(row, col);
            assert_eq!(
                original.get_cell(coord).unwrap(),
                copy.get_cell(coord).unwrap()
            );
        }
    }
}
