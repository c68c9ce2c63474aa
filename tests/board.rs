use buscaminas::board::Board;
use buscaminas::board_elements::BoardElements;

#[test]
fn board_initializes_correctly() {
    let data: &str = ".*...\n..**.\n..*..\n....*\n";
    let board: Board = Board::new(data.as_bytes());
    let matrix: Vec<Vec<BoardElements>> = vec![
        vec![
            BoardElements::Empty,
            BoardElements::Mine,
            BoardElements::Empty,
            BoardElements::Empty,
            BoardElements::Empty,
        ],
        vec![
            BoardElements::Empty,
            BoardElements::Empty,
            BoardElements::Mine,
            BoardElements::Mine,
            BoardElements::Empty,
        ],
        vec![
            BoardElements::Empty,
            BoardElements::Empty,
            BoardElements::Mine,
            BoardElements::Empty,
            BoardElements::Empty,
        ],
        vec![
            BoardElements::Empty,
            BoardElements::Empty,
            BoardElements::Empty,
            BoardElements::Empty,
            BoardElements::Mine,
        ],
    ];

    assert_eq!(board.height(), 4);
    assert_eq!(board.width(), 5);
    assert_eq!(*board.data(), matrix);
}

#[test]
fn get_bounds_returns_correct_vertical_bounds_on_borders() {
    let data: &str = "..*..\n..***\n*...*\n.*...\n";
    let board: Board = Board::new(data.as_bytes());

    assert_eq!(board.get_bounds(true, 0), (0, 1));
    assert_eq!(board.get_bounds(true, board.height() - 1), (-1, 0));
}

#[test]
fn get_bounds_returns_correct_horizontal_bounds_on_borders() {
    let data: &str = "..*..\n..***\n*...*\n.*...\n";
    let board: Board = Board::new(data.as_bytes());

    assert_eq!(board.get_bounds(false, 0), (0, 1));
    assert_eq!(board.get_bounds(false, board.width() - 1), (-1, 0));
}

#[test]
fn get_bounds_returns_correct_bounds_on_middle() {
    let data: &str = "..*..\n..***\n*...*\n.*...\n";
    let board: Board = Board::new(data.as_bytes());

    assert_eq!(board.get_bounds(false, 2), (-1, 1));
    assert_eq!(board.get_bounds(true, 2), (-1, 1));
}

#[test]
fn counting_surrounding_mines_for_edge_position_returns_correct_value() {
    let data: &str = ".**..\n*.***\n*...*\n.*.*.\n";
    let board: Board = Board::new(data.as_bytes());

    assert_eq!(board.count_surrounding_mines(0, 0), 2);
}

#[test]
fn counting_surrounding_mines_for_border_position_returns_correct_value() {
    let data: &str = ".**..\n*.***\n.*..*\n.*.*.\n";
    let board: Board = Board::new(data.as_bytes());

    assert_eq!(board.count_surrounding_mines(2, 0), 3);
}

#[test]
fn counting_surrounding_mines_for_middle_position_returns_correct_value() {
    let data: &str = ".**..\n*.***\n.*..*\n.*.*.\n";
    let board: Board = Board::new(data.as_bytes());

    assert_eq!(board.count_surrounding_mines(2, 3), 5);
}

#[test]
fn count_mines_returns_correct_number_of_mines() {
    let data: &str = "..*..\n..***\n*...*\n.*...\n";
    let board: Board = Board::new(data.as_bytes());
    let expected_result: &str = ".2*42\n13***\n*334*\n2*111\n";

    assert_eq!(board.mine_count(), expected_result);
}

#[test]
fn count_mines_on_empty_board_returns_empty_board() {
    let data: &str = ".....\n.....\n.....\n.....\n";
    let board: Board = Board::new(data.as_bytes());
    let expected_result: &str = ".....\n.....\n.....\n.....\n";

    assert_eq!(board.mine_count(), expected_result);
}

#[test]
fn count_mines_on_full_board_returns_full_board() {
    let data: &str = "*****\n*****\n*****\n*****\n";
    let board: Board = Board::new(data.as_bytes());
    let expected_result: &str = "*****\n*****\n*****\n*****\n";

    assert_eq!(board.mine_count(), expected_result);
}
