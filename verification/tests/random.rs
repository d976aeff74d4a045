use ms::board::Board;
use ms::error::BoardError;
use ms::field::{Field, MineState, Position};
use ms::random::{pick, random_position, random_position_vec, random_range};
use ms::size::Size;

fn check_sample(size: Size, total: usize) {
    let drawn = match random_position_vec(size, total) {
        Ok(drawn) => drawn,
        Err(_) => panic!("the size holds that many cells"),
    };
    assert_eq!(drawn.len(), total);
    for (i, p) in drawn.iter().enumerate() {
        assert!(p.0 < size.get_rows());
        assert!(p.1 < size.get_cols());
        assert!(!drawn[..i].contains(p));
    }
}

#[test]
fn test() {
    let mut board = Board::new(10, 10);
    let mines = match random_position_vec(board.get_size(), 10) {
        Ok(mines) => mines,
        Err(_) => panic!("a 10 by 10 board holds 10 mines"),
    };
    board.plant_mines(mines);

    let mut opened_vec = vec![];

    for _ in 0..15 {
        opened_vec.push(random_position(board.get_size()));
        board.open(*opened_vec.last().unwrap());
    }

    println!("{}", board.to_string());
    println!("{:?}", opened_vec);

    let mut mined = 0;
    for r in 0..10 {
        for c in 0..10 {
            if matches!(board.get((r, c)), Field::Mine(_)) {
                mined += 1;
            }
        }
    }
    assert_eq!(mined, 10);
    for p in opened_vec {
        assert!(matches!(
            board.get(p),
            Field::Opened(_) | Field::Mine(MineState::Detonated)
        ));
    }
}

#[test]
fn samples_are_distinct_and_inside() {
    for total in [0, 1, 10, 59, 60] {
        check_sample(Size::new(6, 10), total);
    }
    check_sample(Size::new(1, 1), 1);
    check_sample(Size::new(0, 5), 0);
}

#[test]
fn sampling_every_cell_gives_every_cell() {
    let size = Size::new(4, 3);
    let mut drawn = random_position_vec(size, 12).unwrap();
    drawn.sort();
    let mut all: Vec<Position> = Vec::new();
    for r in 0..3 {
        for c in 0..4 {
            all.push((r, c));
        }
    }
    assert_eq!(drawn, all);
}

#[test]
fn sampling_too_many_fails() {
    assert_eq!(random_position_vec(Size::new(4, 3), 13), Err(BoardError::SamplerExhausted));
    assert_eq!(random_position_vec(Size::new(0, 3), 1), Err(BoardError::SamplerExhausted));
    assert_eq!(random_position_vec(Size::new(10, 10), usize::MAX), Err(BoardError::SamplerExhausted));
}

#[test]
fn random_range_stays_in_range() {
    for _ in 0..200 {
        let n = random_range(3, 7);
        assert!(3 <= n && n < 7);
    }
    assert_eq!(random_range(41, 42), 41);
    let mut seen = [false; 4];
    for _ in 0..2000 {
        seen[random_range(0, 4)] = true;
    }
    assert_eq!(seen, [true; 4]);
}

#[test]
fn random_position_stays_on_the_board() {
    let size = Size::new(2, 9);
    for _ in 0..200 {
        let (r, c) = random_position(size);
        assert!(r < 9 && c < 2);
    }
}

#[test]
fn pick_exchanges_two_places() {
    let mut pool: Vec<Position> = vec![(0, 0), (0, 1), (1, 0), (1, 1)];
    pick(&mut pool, 0, 3);
    assert_eq!(pool, vec![(1, 1), (0, 1), (1, 0), (0, 0)]);
    pick(&mut pool, 2, 2);
    assert_eq!(pool, vec![(1, 1), (0, 1), (1, 0), (0, 0)]);
}

#[test]
fn size_keeps_its_dimensions() {
    let size = Size::new(7, 3);
    assert_eq!(size.get_cols(), 7);
    assert_eq!(size.get_rows(), 3);
    assert_eq!(size.total(), 21);
    assert_eq!(size.checked_total(), Some(21));
    assert_eq!(Size::new(usize::MAX, 2).checked_total(), None);
    assert_eq!(Size::new(0, usize::MAX).checked_total(), Some(0));
    assert_eq!(Size::new(usize::MAX, 1).checked_total(), Some(usize::MAX));
}
