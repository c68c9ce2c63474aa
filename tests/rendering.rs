use buscaminas::board::{is_well_formed, Board};
use buscaminas::board_elements::BoardElements;

fn render(data: &str) -> String {
    Board::new(data.as_bytes()).mine_count()
}

#[test]
fn renders_board_with_mines_in_first_rows() {
    assert_eq!(render(".*.*.\n..*..\n..*..\n.....\n"), "1*3*1\n13*31\n.2*2.\n.111.\n");
}

#[test]
fn renders_five_by_five_empty_board_unchanged() {
    let data = ".....\n.....\n.....\n.....\n.....\n";
    assert_eq!(render(data), data);
}

#[test]
fn single_mine_in_corner_marks_its_three_neighbours() {
    assert_eq!(render("*..\n...\n...\n"), "*1.\n11.\n...\n");
}

#[test]
fn mine_in_middle_marks_all_eight_neighbours() {
    assert_eq!(render("...\n.*.\n...\n"), "111\n1*1\n111\n");
}

#[test]
fn interior_cell_surrounded_by_mines_counts_eight() {
    let board = Board::new("***\n*.*\n***\n".as_bytes());
    assert_eq!(board.count_surrounding_mines(1, 1), 8);
    assert_eq!(board.mine_count(), "***\n*8*\n***\n");
}

#[test]
fn single_cell_boards() {
    assert_eq!(render(".\n"), ".\n");
    assert_eq!(render("*\n"), "*\n");
}

#[test]
fn single_row_board_has_only_side_neighbours() {
    let board = Board::new("*.*.\n".as_bytes());
    assert_eq!(board.get_bounds(true, 0), (0, 0));
    assert_eq!(board.get_bounds(false, 1), (-1, 1));
    assert_eq!(board.mine_count(), "*2*1\n");
}

#[test]
fn single_column_board_has_only_vertical_neighbours() {
    let board = Board::new("*\n.\n.\n*\n".as_bytes());
    assert_eq!(board.get_bounds(false, 0), (0, 0));
    assert_eq!(board.mine_count(), "*\n1\n1\n*\n");
}

#[test]
fn unknown_bytes_are_read_as_empty_cells() {
    let board = Board::new("x*\n?.\n".as_bytes());
    assert_eq!(
        *board.data(),
        vec![
            vec![BoardElements::Empty, BoardElements::Mine],
            vec![BoardElements::Empty, BoardElements::Empty],
        ]
    );
    assert_eq!(board.mine_count(), "1*\n11\n");
}

#[test]
fn rendering_keeps_shape_and_mines() {
    let data = "..*..\n..***\n*...*\n.*...\n";
    let board = Board::new(data.as_bytes());
    let text = board.mine_count();
    assert_eq!(text.len(), board.height() * (board.width() + 1));
    for (line, source) in text.lines().zip(data.lines()) {
        assert_eq!(line.len(), board.width());
        for (out, inp) in line.chars().zip(source.chars()) {
            assert_eq!(out == '*', inp == '*');
        }
    }
}

#[test]
fn rendered_text_parses_back_to_same_shape() {
    let data = ".**..\n*.***\n.*..*\n.*.*.\n";
    let board = Board::new(data.as_bytes());
    let text = board.mine_count();
    assert!(is_well_formed(text.as_bytes()));
    let again = Board::new(text.as_bytes());
    assert_eq!(again.height(), board.height());
    assert_eq!(again.width(), board.width());
}

#[test]
fn well_formed_text_is_accepted() {
    assert!(is_well_formed(b".*.\n...\n"));
    assert!(is_well_formed(b"*\n"));
    assert!(is_well_formed(b"ab\ncd\n"));
}

#[test]
fn malformed_text_is_rejected() {
    assert!(!is_well_formed(b""));
    assert!(!is_well_formed(b"\n"));
    assert!(!is_well_formed(b"..."));
    assert!(!is_well_formed(b"...\n.."));
    assert!(!is_well_formed(b"...\n..\n"));
    assert!(!is_well_formed(b"..\n...\n"));
    assert!(!is_well_formed(b"..\n\n"));
    assert!(!is_well_formed(b"..\n..\n\n"));
}

#[test]
fn classification_of_bytes() {
    assert_eq!(BoardElements::from(b'\n'), BoardElements::Newline);
    assert_eq!(BoardElements::from(b'*'), BoardElements::Mine);
    assert_eq!(BoardElements::from(b'.'), BoardElements::Empty);
    assert_eq!(BoardElements::from(b'x'), BoardElements::Error);
    assert_eq!(BoardElements::from(b'E'), BoardElements::Error);
}

#[test]
fn classification_is_repeatable() {
    for b in 0..=255u8 {
        assert_eq!(BoardElements::from(b), BoardElements::from(b));
        assert_eq!(BoardElements::from_cell_byte(b), BoardElements::from_cell_byte(b));
    }
}

#[test]
fn classification_of_chars() {
    assert_eq!(BoardElements::from('\n'), BoardElements::Newline);
    assert_eq!(BoardElements::from('*'), BoardElements::Mine);
    assert_eq!(BoardElements::from('.'), BoardElements::Empty);
    assert_eq!(BoardElements::from('z'), BoardElements::Error);
}

#[test]
fn cell_classification_never_gives_errors() {
    assert_eq!(BoardElements::from_cell_byte(b'\n'), BoardElements::Newline);
    assert_eq!(BoardElements::from_cell_byte(b'*'), BoardElements::Mine);
    assert_eq!(BoardElements::from_cell_byte(b'.'), BoardElements::Empty);
    assert_eq!(BoardElements::from_cell_byte(b'E'), BoardElements::Empty);
}

#[test]
fn symbols_classify_back_to_their_kind() {
    for e in [
        BoardElements::Newline,
        BoardElements::Mine,
        BoardElements::Empty,
        BoardElements::Error,
    ] {
        assert_eq!(BoardElements::from(e.symbol()), e);
    }
    assert_eq!(BoardElements::Error.symbol(), 'E');
}
