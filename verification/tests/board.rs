use ms::board::Board;
use ms::error::BoardError;
use ms::field::{Field, MineState, Position, CLOSED, FLAG, MINE, OPENED};

fn mines(board: &mut Board, at: &[Position]) {
    board.plant_mines(at.to_vec());
}

fn every_position(board: &Board) -> Vec<Position> {
    let size = board.get_size();
    let mut all = Vec::new();
    for r in 0..size.get_rows() {
        for c in 0..size.get_cols() {
            all.push((r, c));
        }
    }
    all
}

fn snapshot(board: &Board) -> Vec<Field> {
    every_position(board).into_iter().map(|p| board.get(p)).collect()
}

#[test]
fn test_board_2d_indexer() {
    let mut b = Board::new(10, 10);

    b.set((0, 0), Field::Opened(3));
    b.set((1, 0), Field::Flagged);
    b.set((0, 1), Field::Mine(MineState::Hidden));

    assert_eq!(b.get((0, 0)), Field::Opened(3));
    assert_eq!(b.get((1, 0)), Field::Flagged);
    assert_eq!(b.get((0, 1)), Field::Mine(MineState::Hidden));
}

#[test]
fn test_board_open() {
    let mut b = Board::new(10, 10);

    b.set((1, 0), Field::Mine(MineState::Hidden));
    b.set((0, 1), Field::Mine(MineState::Hidden));
    b.set((1, 1), Field::Mine(MineState::Hidden));

    b.open((0, 0));

    println!("{}", b.to_string());
    assert_eq!(b.get((0, 0)), Field::Opened(3));
    assert_eq!(b.get((2, 1)), Field::Closed);

    b.open((2, 1));
    println!("{}", b.to_string());
    assert_eq!(b.get((2, 1)), Field::Opened(2));
    assert_eq!(b.get((3, 3)), Field::Closed);

    b.open((3, 3));
    println!("{}", b.to_string());
    assert_eq!(b.get((3, 3)), Field::Opened(0));
    assert_eq!(b.get((9, 9)), Field::Opened(0));
    assert_eq!(b.get((2, 2)), Field::Opened(1));
    assert_eq!(b.get((1, 2)), Field::Opened(2));
    assert_eq!(b.get((0, 2)), Field::Opened(2));
    assert_eq!(b.get((2, 0)), Field::Opened(2));
    assert_eq!(b.get((1, 1)), Field::Mine(MineState::Hidden));
    assert_eq!(b.get((1, 0)), Field::Mine(MineState::Hidden));
    assert_eq!(b.get((0, 1)), Field::Mine(MineState::Hidden));
}

#[test]
fn test_board_display() {
    let mut b = Board::new(10, 10);

    b.set((0, 0), Field::Opened(3));
    b.set((1, 0), Field::Flagged);
    b.set((0, 1), Field::Mine(MineState::Hidden));
    b.set((0, 2), Field::Mine(MineState::Hidden));

    b.set((9, 9), Field::Mine(MineState::Detonated));
    let text = b.to_string();
    println!("{}", text);

    let lines: Vec<&str> = text.split('\n').collect();
    assert_eq!(lines.len(), 11);
    assert_eq!(lines[10], "");
    assert_eq!(lines[0], format!(" 3 {}", CLOSED.repeat(9)));
    assert_eq!(lines[1], format!("{}{}", FLAG, CLOSED.repeat(9)));
    assert_eq!(lines[5], CLOSED.repeat(10));
    assert_eq!(lines[9], format!("{}{}", CLOSED.repeat(9), MINE));
}

#[test]
fn test_board_reset() {
    let mut b = Board::new(5, 5);

    b.set((0, 0), Field::Mine(MineState::Hidden));
    b.set((1, 1), Field::Flagged);
    b.set((1, 3), Field::Flagged);
    b.set((1, 4), Field::Flagged);

    b.reset();

    assert_eq!(snapshot(&b).len(), 25);
    snapshot(&b).into_iter().for_each(|item| {
        assert_eq!(item, Field::Closed);
    });
}

#[test]
fn test_board_plant_mines() {
    let mut b = Board::new(5, 5);

    let vec: Vec<Position> = vec![(1, 1), (1, 2), (2, 2), (4, 4)];

    b.plant_mines(vec);

    assert_eq!(b.get((1, 1)), Field::Mine(MineState::Hidden));
    assert_eq!(b.get((1, 2)), Field::Mine(MineState::Hidden));
    assert_eq!(b.get((2, 2)), Field::Mine(MineState::Hidden));
    assert_eq!(b.get((4, 4)), Field::Mine(MineState::Hidden));

    assert_eq!(b.get((0, 0)), Field::Closed);
}

#[test]
fn test_board_iter_neighbors_upper_bound() {
    let b = Board::new(5, 5);

    let neighbors: Vec<Position> = b.iter_neighbors((0, 0));

    assert_eq!(neighbors.len(), 3);

    assert_eq!(neighbors.contains(&(1, 0)), true);
    assert_eq!(neighbors.contains(&(1, 1)), true);
    assert_eq!(neighbors.contains(&(0, 1)), true);
}

#[test]
fn test_board_iter_neighbors_lower_bound() {
    let b = Board::new(5, 5);

    let neighbors: Vec<Position> = b.iter_neighbors((4, 4));

    assert_eq!(neighbors.len(), 3);

    assert_eq!(neighbors.contains(&(4, 3)), true);
    assert_eq!(neighbors.contains(&(3, 3)), true);
    assert_eq!(neighbors.contains(&(3, 4)), true);
}

#[test]
fn neighbors_come_row_by_row() {
    let b = Board::new(5, 5);
    assert_eq!(
        b.iter_neighbors((2, 2)),
        vec![(1, 1), (1, 2), (1, 3), (2, 1), (2, 3), (3, 1), (3, 2), (3, 3)]
    );
    assert_eq!(b.iter_neighbors((0, 2)), vec![(0, 1), (0, 3), (1, 1), (1, 2), (1, 3)]);
    assert_eq!(b.iter_neighbors((2, 4)), vec![(1, 3), (1, 4), (2, 3), (3, 3), (3, 4)]);
    let single = Board::new(1, 1);
    assert_eq!(single.iter_neighbors((0, 0)), Vec::<Position>::new());
}

#[test]
fn new_board_is_closed_everywhere() {
    let b = Board::new(7, 3);
    assert_eq!(b.get_size().get_cols(), 7);
    assert_eq!(b.get_size().get_rows(), 3);
    assert_eq!(b.get_size().total(), 21);
    let cells = snapshot(&b);
    assert_eq!(cells.len(), 21);
    assert!(cells.iter().all(|f| *f == Field::Closed));
    assert_eq!(b.get((2, 6)), Field::Closed);
}

#[test]
fn try_new_turns_down_degenerate_sizes() {
    assert!(matches!(Board::try_new(0, 4), Err(BoardError::InvalidSize)));
    assert!(matches!(Board::try_new(4, 0), Err(BoardError::InvalidSize)));
    assert!(matches!(Board::try_new(usize::MAX, 2), Err(BoardError::InvalidSize)));
    let b = match Board::try_new(4, 2) {
        Ok(b) => b,
        Err(_) => panic!("a 2 by 4 board is valid"),
    };
    assert_eq!(snapshot(&b), vec![Field::Closed; 8]);
}

#[test]
fn plant_mines_overwrites_and_leaves_the_rest() {
    let mut b = Board::new(4, 4);
    b.set((0, 0), Field::Opened(2));
    b.set((3, 3), Field::Flagged);
    b.set((2, 1), Field::Opened(1));
    let before = snapshot(&b);
    b.plant_mines(vec![(0, 0), (1, 2), (0, 0)]);
    let after = snapshot(&b);
    for (i, p) in every_position(&b).into_iter().enumerate() {
        if p == (0, 0) || p == (1, 2) {
            assert_eq!(after[i], Field::Mine(MineState::Hidden));
        } else {
            assert_eq!(after[i], before[i]);
        }
    }
}

#[test]
fn counts_mines_and_flags_around_a_cell() {
    let mut b = Board::new(3, 3);
    b.set((0, 0), Field::Mine(MineState::Hidden));
    b.set((0, 1), Field::Mine(MineState::Flagged));
    b.set((0, 2), Field::Mine(MineState::Detonated));
    b.set((1, 0), Field::Flagged);
    b.set((2, 2), Field::Opened(4));
    assert_eq!(b.count_neighboring_mines((1, 1)), 3);
    assert_eq!(b.count_neighboring_flags((1, 1)), 2);
    assert_eq!(b.count_neighboring_mines((2, 2)), 0);
    assert_eq!(b.count_neighboring_flags((2, 0)), 1);
    assert_eq!(b.count_neighboring_mines((0, 1)), 2);
    assert_eq!(b.count_neighboring_flags((0, 1)), 1);
}

#[test]
fn open_floods_the_zero_region_and_stops_at_counts() {
    let mut b = Board::new(4, 4);
    mines(&mut b, &[(0, 0), (3, 3)]);
    b.open((0, 3));
    let o = Field::Opened;
    assert_eq!(
        snapshot(&b),
        vec![
            Field::Mine(MineState::Hidden), o(1), o(0), o(0),
            o(1), o(1), o(0), o(0),
            o(0), o(0), o(1), o(1),
            o(0), o(0), o(1), Field::Mine(MineState::Hidden),
        ]
    );
}

#[test]
fn open_with_mines_around_opens_one_cell() {
    let mut b = Board::new(3, 3);
    mines(&mut b, &[(0, 0), (2, 2)]);
    let before = snapshot(&b);
    b.open((1, 1));
    let after = snapshot(&b);
    for (i, p) in every_position(&b).into_iter().enumerate() {
        if p == (1, 1) {
            assert_eq!(after[i], Field::Opened(2));
        } else {
            assert_eq!(after[i], before[i]);
        }
    }
}

#[test]
fn flood_is_walled_in_by_counts() {
    let mut b = Board::new(5, 1);
    mines(&mut b, &[(0, 2)]);
    b.open((0, 0));
    assert_eq!(
        snapshot(&b),
        vec![
            Field::Opened(0),
            Field::Opened(1),
            Field::Mine(MineState::Hidden),
            Field::Closed,
            Field::Closed,
        ]
    );
}

#[test]
fn flood_passes_by_flags() {
    let mut b = Board::new(3, 1);
    b.toggle_flag((0, 1));
    b.open((0, 0));
    assert_eq!(snapshot(&b), vec![Field::Opened(0), Field::Flagged, Field::Closed]);
}

#[test]
fn opening_a_hidden_mine_detonates_it_alone() {
    let mut b = Board::new(3, 3);
    mines(&mut b, &[(1, 1), (0, 2)]);
    b.toggle_flag((2, 2));
    let before = snapshot(&b);
    b.open((1, 1));
    let after = snapshot(&b);
    for (i, p) in every_position(&b).into_iter().enumerate() {
        if p == (1, 1) {
            assert_eq!(after[i], Field::Mine(MineState::Detonated));
        } else {
            assert_eq!(after[i], before[i]);
        }
    }
}

#[test]
fn opening_marked_or_exploded_cells_changes_nothing() {
    let mut b = Board::new(3, 3);
    b.set((0, 0), Field::Flagged);
    b.set((0, 1), Field::Mine(MineState::Flagged));
    b.set((0, 2), Field::Mine(MineState::Detonated));
    let before = snapshot(&b);
    b.open((0, 0));
    b.open((0, 1));
    b.open((0, 2));
    assert_eq!(snapshot(&b), before);
}

#[test]
fn toggle_flag_round_trip() {
    let states = [
        Field::Closed,
        Field::Flagged,
        Field::Mine(MineState::Hidden),
        Field::Mine(MineState::Flagged),
    ];
    let once = [
        Field::Flagged,
        Field::Closed,
        Field::Mine(MineState::Flagged),
        Field::Mine(MineState::Hidden),
    ];
    for (state, toggled) in states.iter().zip(once.iter()) {
        let mut b = Board::new(2, 2);
        b.set((1, 0), *state);
        b.toggle_flag((1, 0));
        assert_eq!(b.get((1, 0)), *toggled);
        assert_eq!(b.get((0, 0)), Field::Closed);
        assert_eq!(b.get((1, 1)), Field::Closed);
        b.toggle_flag((1, 0));
        assert_eq!(b.get((1, 0)), *state);
    }
    for fixed in [Field::Opened(0), Field::Opened(5), Field::Mine(MineState::Detonated)] {
        let mut b = Board::new(2, 2);
        b.set((0, 1), fixed);
        b.toggle_flag((0, 1));
        assert_eq!(b.get((0, 1)), fixed);
    }
}

#[test]
fn chord_reveals_the_unmarked_neighbors() {
    let mut b = Board::new(3, 3);
    mines(&mut b, &[(0, 0)]);
    b.open((1, 1));
    assert_eq!(b.get((1, 1)), Field::Opened(1));
    assert_eq!(b.get((0, 1)), Field::Closed);
    b.toggle_flag((0, 0));
    b.open((1, 1));
    let o = Field::Opened;
    assert_eq!(
        snapshot(&b),
        vec![
            Field::Mine(MineState::Flagged), o(1), o(0),
            o(1), o(1), o(0),
            o(0), o(0), o(0),
        ]
    );
}

#[test]
fn chord_with_another_flag_count_changes_nothing() {
    let mut b = Board::new(3, 3);
    mines(&mut b, &[(0, 0)]);
    b.open((1, 1));
    let before = snapshot(&b);
    b.open((1, 1));
    assert_eq!(snapshot(&b), before);
    b.toggle_flag((0, 0));
    b.toggle_flag((2, 2));
    let marked = snapshot(&b);
    b.open((1, 1));
    assert_eq!(snapshot(&b), marked);
}

#[test]
fn chord_on_a_wrong_flag_detonates_the_mine() {
    let mut b = Board::new(3, 3);
    mines(&mut b, &[(0, 0)]);
    b.open((1, 1));
    b.toggle_flag((0, 1));
    b.open((1, 1));
    assert_eq!(b.get((0, 0)), Field::Mine(MineState::Detonated));
    assert_eq!(b.get((0, 1)), Field::Flagged);
    assert_eq!(b.get((2, 2)), Field::Opened(0));
    assert_eq!(b.get((1, 0)), Field::Opened(1));
}

#[test]
fn chord_goes_on_through_cells_it_has_just_opened() {
    // The chord on (1, 1) floods from (0, 0), which reveals (0, 2) with the
    // count 1. That cell is a neighbor of (1, 1) too, so it is opened again:
    // with the one flag beside it, it is a chord itself and sets off the mine.
    let mut b = Board::new(5, 2);
    mines(&mut b, &[(0, 3)]);
    b.set((1, 1), Field::Opened(0));
    b.set((1, 3), Field::Flagged);
    b.open((1, 1));
    let o = Field::Opened;
    assert_eq!(
        snapshot(&b),
        vec![
            o(0), o(0), o(1), Field::Mine(MineState::Detonated), Field::Closed,
            o(0), o(0), o(1), Field::Flagged, Field::Closed,
        ]
    );
}

#[test]
fn chord_opens_each_neighbor_in_turn() {
    let mut b = Board::new(4, 2);
    mines(&mut b, &[(0, 0)]);
    b.set((0, 1), Field::Flagged);
    b.set((1, 1), Field::Opened(1));
    b.open((1, 1));
    let o = Field::Opened;
    assert_eq!(
        snapshot(&b),
        vec![
            Field::Mine(MineState::Detonated), Field::Flagged, o(0), o(0),
            o(1), o(1), o(0), o(0),
        ]
    );
}

#[test]
fn moves_off_the_board_are_turned_down() {
    let mut b = Board::new(3, 2);
    mines(&mut b, &[(1, 2)]);
    let before = snapshot(&b);
    assert_eq!(b.try_open((2, 0)), Err(BoardError::OutOfBounds));
    assert_eq!(b.try_open((0, 3)), Err(BoardError::OutOfBounds));
    assert_eq!(b.try_toggle_flag((2, 2)), Err(BoardError::OutOfBounds));
    assert_eq!(snapshot(&b), before);
    assert!(b.contains((1, 2)));
    assert!(!b.contains((2, 1)));
    assert_eq!(b.try_toggle_flag((1, 2)), Ok(()));
    assert_eq!(b.get((1, 2)), Field::Mine(MineState::Flagged));
    assert_eq!(b.try_open((0, 0)), Ok(()));
    assert_eq!(b.get((0, 0)), Field::Opened(0));
    assert_eq!(b.get((0, 1)), Field::Opened(1));
    assert_eq!(b.get((0, 2)), Field::Closed);
    b.reveal_mines();
    assert_eq!(b.get((1, 2)), Field::Mine(MineState::Flagged));
}

#[test]
fn renders_row_by_row() {
    let mut b = Board::new(3, 2);
    b.set((0, 0), Field::Opened(0));
    b.set((0, 2), Field::Opened(12));
    b.set((1, 0), Field::Mine(MineState::Flagged));
    b.set((1, 1), Field::Mine(MineState::Detonated));
    assert_eq!(
        b.to_string(),
        format!("{}{} 12 \n{}{}{}\n", OPENED, CLOSED, FLAG, MINE, CLOSED)
    );
}

#[test]
fn planting_off_the_board_is_turned_down() {
    let mut b = Board::new(3, 2);
    b.set((0, 0), Field::Flagged);
    let before = snapshot(&b);
    assert_eq!(b.try_plant_mines(vec![(1, 1), (0, 3)]), Err(BoardError::OutOfBounds));
    assert_eq!(b.try_plant_mines(vec![(2, 0)]), Err(BoardError::OutOfBounds));
    assert_eq!(snapshot(&b), before);
    assert_eq!(b.try_plant_mines(vec![(1, 2), (0, 0)]), Ok(()));
    assert_eq!(b.get((1, 2)), Field::Mine(MineState::Hidden));
    assert_eq!(b.get((0, 0)), Field::Mine(MineState::Hidden));
    assert_eq!(b.get((0, 1)), Field::Closed);
    assert_eq!(b.try_plant_mines(vec![]), Ok(()));
}

#[test]
fn neighbor_counts_by_place() {
    let b = Board::new(5, 5);
    for (p, n) in [((0, 0), 3), ((0, 4), 3), ((4, 0), 3), ((4, 4), 3), ((0, 2), 5), ((3, 0), 5), ((2, 2), 8), ((3, 1), 8)] {
        assert_eq!(b.iter_neighbors(p).len(), n);
    }
    let strip = Board::new(4, 1);
    assert_eq!(strip.iter_neighbors((0, 0)), vec![(0, 1)]);
    assert_eq!(strip.iter_neighbors((0, 2)), vec![(0, 1), (0, 3)]);
}
