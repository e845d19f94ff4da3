use rusthello::board::{Board, Coord, ReversiError, Side};

#[test]
fn new_board_is_empty() {
    let board = Board::new();
    for row in 0..8 {
        for col in 0..8 {
            assert_eq!(board.get_cell(Coord::new(row, col)), Ok(None));
        }
    }
    assert_eq!(board.get_all_cells().len(), 64);
}

#[test]
fn get_cell_out_of_bounds() {
    let board = Board::new();
    let coord = Coord::new(0, 8);
    assert_eq!(board.get_cell(coord), Err(ReversiError::OutOfBoundCoord(coord)));
}

#[test]
fn place_disk_fills_exactly_one_cell() {
    let mut board = Board::new();
    assert_eq!(board.place_disk(Side::Dark, Coord::new(5, 2)), Ok(()));
    assert_eq!(board.get_cell(Coord::new(5, 2)), Ok(Some(Side::Dark)));
    assert_eq!(board.get_cell(Coord::new(2, 5)), Ok(None));
}

#[test]
fn place_disk_refuses_taken_and_out_of_bounds_cells() {
    let mut board = Board::new();
    board.place_disk(Side::Light, Coord::new(1, 1)).unwrap();
    let taken = Coord::new(1, 1);
    assert_eq!(
        board.place_disk(Side::Dark, taken),
        Err(ReversiError::CellAlreadyTaken(taken))
    );
    assert_eq!(board.get_cell(taken), Ok(Some(Side::Light)));
    let outside = Coord::new(9, 1);
    assert_eq!(
        board.place_disk(Side::Dark, outside),
        Err(ReversiError::OutOfBoundCoord(outside))
    );
}

#[test]
fn flip_disk_turns_a_disk_over() {
    let mut board = Board::new();
    board.place_disk(Side::Dark, Coord::new(4, 4)).unwrap();
    assert_eq!(board.flip_disk(Coord::new(4, 4)), Ok(()));
    assert_eq!(board.get_cell(Coord::new(4, 4)), Ok(Some(Side::Light)));
    assert_eq!(board.flip_disk(Coord::new(4, 4)), Ok(()));
    assert_eq!(board.get_cell(Coord::new(4, 4)), Ok(Some(Side::Dark)));
}

#[test]
fn flip_disk_refuses_empty_and_out_of_bounds_cells() {
    let mut board = Board::new();
    let empty = Coord::new(3, 3);
    assert_eq!(board.flip_disk(empty), Err(ReversiError::EmptyCell(empty)));
    let outside = Coord::new(3, 12);
    assert_eq!(board.flip_disk(outside), Err(ReversiError::OutOfBoundCoord(outside)));
}

#[test]
fn sides_are_each_others_opposite() {
    assert_eq!(Side::Dark.opposite(), Side::Light);
    assert_eq!(Side::Light.opposite(), Side::Dark);
    assert_eq!(Side::Dark.opposite().opposite(), Side::Dark);
}

#[test]
fn cloned_board_holds_the_same_cells() {
    let mut board = Board::new();
    board.place_disk(Side::Dark, Coord::new(0, 7)).unwrap();
    let copy = board.clone();
    board.flip_disk(Coord::new(0, 7)).unwrap();
    assert_eq!(copy.get_cell(Coord::new(0, 7)), Ok(Some(Side::Dark)));
    assert_eq!(board.get_cell(Coord::new(0, 7)), Ok(Some(Side::Light)));
}
