use vstd::prelude::*;

verus! {

/// Byte that ends a row of the board text.
pub const NEWLINE_BYTE: u8 = 10;

/// Byte that marks a mine.
pub const MINE_BYTE: u8 = 42;

/// Byte that marks an empty cell.
pub const EMPTY_BYTE: u8 = 46;

/// The kinds of content a position of the board text can hold.
#[derive(Debug, Clone, Copy, PartialEq, Eq, Structural)]
pub enum BoardElements {
    /// A row delimiter, `'\n'`.
    Newline,
    /// A mine, `'*'`.
    Mine,
    /// An empty cell, `'.'`.
    Empty,
    /// Anything else, `'E'`; never stored in a board.
    Error,
}

/// Strict classification of a byte: each of the three known bytes has its
/// own kind, every other byte is an error.
pub open spec fn classify_byte(b: u8) -> BoardElements {
    if b == NEWLINE_BYTE {
        BoardElements::Newline
    } else if b == MINE_BYTE {
        BoardElements::Mine
    } else if b == EMPTY_BYTE {
        BoardElements::Empty
    } else {
        BoardElements::Error
    }
}

/// Strict classification of a character, with the same mapping as bytes.
pub open spec fn classify_char(c: char) -> BoardElements {
    if c == '\n' {
        BoardElements::Newline
    } else if c == '*' {
        BoardElements::Mine
    } else if c == '.' {
        BoardElements::Empty
    } else {
        BoardElements::Error
    }
}

/// Classification used when a board is built: a cell is a mine exactly when
/// its byte is the mine byte, and empty otherwise.
pub open spec fn cell_of_byte(b: u8) -> BoardElements {
    if b == MINE_BYTE {
        BoardElements::Mine
    } else {
        BoardElements::Empty
    }
}

/// The character that stands for each kind in board text.
pub open spec fn symbol_of(e: BoardElements) -> char {
    match e {
        BoardElements::Newline => '\n',
        BoardElements::Mine => '*',
        BoardElements::Empty => '.',
        BoardElements::Error => 'E',
    }
}

impl BoardElements {
    /// The character that stands for this kind in board text.
    pub fn symbol(self) -> (r: char)
        ensures
            r == symbol_of(self),
    {
        match self {
            BoardElements::Newline => '\n',
            BoardElements::Mine => '*',
            BoardElements::Empty => '.',
            BoardElements::Error => 'E',
        }
    }

    /// Permissive classification of a board cell: the newline byte is kept
    /// as a delimiter, the mine byte is a mine, and every other byte is an
    /// empty cell, so that no error ever enters a board.
    pub fn from_cell_byte(b: u8) -> (r: BoardElements)
        ensures
            b == NEWLINE_BYTE ==> r == BoardElements::Newline,
            b != NEWLINE_BYTE ==> r == cell_of_byte(b),
    {
        if b == NEWLINE_BYTE {
            BoardElements::Newline
        } else if b == MINE_BYTE {
            BoardElements::Mine
        } else {
            BoardElements::Empty
        }
    }
}

impl From<u8> for BoardElements {
    fn from(item: u8) -> (r: BoardElements) {
        match item {
            NEWLINE_BYTE => BoardElements::Newline,
            MINE_BYTE => BoardElements::Mine,
            EMPTY_BYTE => BoardElements::Empty,
            _ => BoardElements::Error,
        }
    }
}

impl vstd::std_specs::convert::FromSpecImpl<u8> for BoardElements {
    open spec fn obeys_from_spec() -> bool {
        true
    }

    open spec fn from_spec(v: u8) -> BoardElements {
        classify_byte(v)
    }
}

impl From<char> for BoardElements {
    fn from(item: char) -> (r: BoardElements) {
        match item {
            '\n' => BoardElements::Newline,
            '*' => BoardElements::Mine,
            '.' => BoardElements::Empty,
            _ => BoardElements::Error,
        }
    }
}

impl vstd::std_specs::convert::FromSpecImpl<char> for BoardElements {
    open spec fn obeys_from_spec() -> bool {
        true
    }

    open spec fn from_spec(v: char) -> BoardElements {
        classify_char(v)
    }
}

/// Classification is a function of the byte alone: the same byte, classified
/// twice, gives the same kind.
pub proof fn lemma_classify_deterministic(a: u8, b: u8)
    requires
        a == b,
    ensures
        classify_byte(a) == classify_byte(b),
        cell_of_byte(a) == cell_of_byte(b),
{
}

/// Classifying the symbol of a kind gives that kind back.
pub proof fn lemma_classify_symbol(e: BoardElements)
    ensures
        classify_char(symbol_of(e)) == e,
{
}

} // verus!
