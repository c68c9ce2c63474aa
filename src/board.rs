use crate::board_elements::{cell_of_byte, BoardElements, NEWLINE_BYTE};
use vstd::arithmetic::div_mod::lemma_fundamental_div_mod_converse;
use vstd::prelude::*;

verus! {

// ----------------------------------------------------------------------------
// Mathematical model of board text.
// ----------------------------------------------------------------------------

/// `s` is the text of a board of `h` rows of `w` cells: each row is `w`
/// bytes other than newline followed by one newline, and nothing else.
pub open spec fn is_board_text(s: Seq<u8>, w: nat, h: nat) -> bool {
    &&& w >= 1
    &&& h >= 1
    &&& s.len() == h * (w + 1)
    &&& forall|r: int, c: int|
        0 <= r < h && 0 <= c <= w ==> (#[trigger] s[r * (w + 1) + c] == NEWLINE_BYTE <==> c == w)
}

/// `s` is the text of some board.
pub open spec fn well_formed_text(s: Seq<u8>) -> bool {
    exists|w: nat, h: nat| is_board_text(s, w, h)
}

/// The width and height of the board whose text is `s`.
pub open spec fn text_dims(s: Seq<u8>) -> (nat, nat)
    recommends
        well_formed_text(s),
{
    choose|w: nat, h: nat| is_board_text(s, w, h)
}

/// The grid that the text `s` of a board of width `w` and height `h`
/// describes: the mine byte is a mine, any other byte an empty cell.
pub open spec fn grid_of_text(s: Seq<u8>, w: nat, h: nat) -> Seq<Seq<BoardElements>> {
    Seq::new(h, |r: int| Seq::new(w, |c: int| cell_of_byte(s[r * (w + 1) + c])))
}

/// The grid that the well-formed board text `s` describes.
pub open spec fn parse_text(s: Seq<u8>) -> Seq<Seq<BoardElements>> {
    grid_of_text(s, text_dims(s).0, text_dims(s).1)
}

/// The byte of cell `(r, c)` in board text, and whether it is a newline.
proof fn lemma_text_at(s: Seq<u8>, w: nat, h: nat, r: int, c: int)
    requires
        is_board_text(s, w, h),
        0 <= r < h,
        0 <= c <= w,
    ensures
        0 <= r * (w + 1) + c < s.len(),
        s[r * (w + 1) + c] == NEWLINE_BYTE <==> c == w,
{
    assert(0 <= r * (w + 1) + c < s.len()) by (nonlinear_arith)
        requires
            s.len() == h * (w + 1),
            0 <= r < h,
            0 <= c <= w,
    ;
}

/// Board text has one width and one height: its first row ends at its first
/// newline, and the rows then divide its length.
pub proof fn lemma_text_dims_unique(s: Seq<u8>, w1: nat, h1: nat, w2: nat, h2: nat)
    requires
        is_board_text(s, w1, h1),
        is_board_text(s, w2, h2),
    ensures
        w1 == w2,
        h1 == h2,
{
    lemma_text_at(s, w1, h1, 0, w1 as int);
    lemma_text_at(s, w2, h2, 0, w2 as int);
    if w1 < w2 {
        lemma_text_at(s, w2, h2, 0, w1 as int);
    } else if w2 < w1 {
        lemma_text_at(s, w1, h1, 0, w2 as int);
    }
    assert(w1 == w2);
    lemma_fundamental_div_mod_converse(s.len() as int, (w1 + 1) as int, h1 as int, 0);
    lemma_fundamental_div_mod_converse(s.len() as int, (w1 + 1) as int, h2 as int, 0);
}

/// In board text the width is the position of the first newline.
proof fn lemma_first_newline(s: Seq<u8>, w: nat, h: nat, m: int)
    requires
        is_board_text(s, w, h),
        0 <= m < s.len(),
        s[m] == NEWLINE_BYTE,
        forall|k: int| 0 <= k < m ==> s[k] != NEWLINE_BYTE,
    ensures
        m == w,
{
    lemma_text_at(s, w, h, 0, w as int);
    if m < w {
        lemma_text_at(s, w, h, 0, m);
    }
}

/// Whether `data` is the text of a board: rows of one width, at least one
/// row and one cell in each, and every row ended by a newline.
pub fn is_well_formed(data: &[u8]) -> (r: bool)
    ensures
        r == well_formed_text(data@),
{
    let ghost s = data@;
    let mut width: usize = 0;
    while width < data.len() && data[width] != NEWLINE_BYTE
        invariant
            s == data@,
            width <= s.len(),
            forall|k: int| 0 <= k < width ==> s[k] != NEWLINE_BYTE,
        decreases s.len() - width,
    {
        width += 1;
    }
    if width == data.len() || width == 0 {
        proof {
            if well_formed_text(s) {
                let (w, h) = text_dims(s);
                lemma_text_at(s, w, h, 0, w as int);
                lemma_text_at(s, w, h, 0, 0);
            }
        }
        return false;
    }
    proof {
        if well_formed_text(s) {
            let (w, h) = text_dims(s);
            lemma_first_newline(s, w, h, width as int);
        }
    }
    let ghost w = width as nat;
    let ghost mut r: nat = 0;
    let mut col: usize = 0;
    let mut k: usize = 0;
    while k < data.len()
        invariant
            s == data@,
            width == w,
            w >= 1,
            well_formed_text(s) ==> text_dims(s).0 == w,
            k == r * (w + 1) + col,
            k <= s.len(),
            col <= w,
            forall|i: int, c: int|
                0 <= i < r && 0 <= c <= w ==> (#[trigger] s[i * (w + 1) + c] == NEWLINE_BYTE <==> c
                    == w),
            forall|c: int| 0 <= c < col ==> #[trigger] s[r * (w + 1) + c] != NEWLINE_BYTE,
        decreases s.len() - k,
    {
        let is_newline = data[k] == NEWLINE_BYTE;
        if is_newline != (col == width) {
            proof {
                if well_formed_text(s) {
                    let (w2, h) = text_dims(s);
                    assert(r < h) by (nonlinear_arith)
                        requires
                            k == r * (w + 1) + col,
                            k < s.len(),
                            s.len() == h * (w + 1),
                    ;
                    lemma_text_at(s, w, h, r as int, col as int);
                }
            }
            return false;
        }
        if is_newline {
            proof {
                assert forall|i: int, c: int|
                    0 <= i < r + 1 && 0 <= c <= w implies (#[trigger] s[i * (w + 1) + c]
                    == NEWLINE_BYTE <==> c == w) by {
                    if i == r && c < w {
                        assert(s[r * (w + 1) + c] != NEWLINE_BYTE);
                    }
                }
                assert(k + 1 == (r + 1) * (w + 1)) by (nonlinear_arith)
                    requires
                        k == r * (w + 1) + col,
                        col == w,
                ;
                r = r + 1;
            }
            col = 0;
        } else {
            col += 1;
        }
        k += 1;
    }
    if col != 0 {
        proof {
            if well_formed_text(s) {
                let (w2, h) = text_dims(s);
                lemma_fundamental_div_mod_converse(s.len() as int, (w + 1) as int, h as int, 0);
                lemma_fundamental_div_mod_converse(s.len() as int, (w + 1) as int, r as int, col as int);
            }
        }
        return false;
    }
    proof {
        assert(r >= 1) by (nonlinear_arith)
            requires
                s.len() == r * (w + 1),
                s.len() > 0,
        ;
        assert(is_board_text(s, w, r));
    }
    true
}

// ----------------------------------------------------------------------------
// Mathematical model of a grid and of the neighbour counts on it.
// ----------------------------------------------------------------------------

/// A grid that a board can hold: at least one row and one column, every row
/// as wide as the first, and every cell a mine or empty.
pub open spec fn is_board_grid(g: Seq<Seq<BoardElements>>) -> bool {
    &&& g.len() >= 1
    &&& g[0].len() >= 1
    &&& forall|r: int| 0 <= r < g.len() ==> #[trigger] g[r].len() == g[0].len()
    &&& forall|r: int, c: int|
        0 <= r < g.len() && 0 <= c < g[r].len() ==> (#[trigger] g[r][c] == BoardElements::Mine
            || g[r][c] == BoardElements::Empty)
}

/// Whether `(r, c)` is a position of the grid.
pub open spec fn in_grid(g: Seq<Seq<BoardElements>>, r: int, c: int) -> bool {
    0 <= r < g.len() && 0 <= c < g[r].len()
}

/// 1 when `(r, c)` is a position of the grid that holds a mine, else 0.
pub open spec fn mine_at(g: Seq<Seq<BoardElements>>, r: int, c: int) -> int {
    if in_grid(g, r, c) && g[r][c] == BoardElements::Mine {
        1
    } else {
        0
    }
}

/// Number of mines among the (up to eight) cells around `(r, c)`.
pub open spec fn neighbor_count(g: Seq<Seq<BoardElements>>, r: int, c: int) -> int {
    mine_at(g, r - 1, c - 1) + mine_at(g, r - 1, c) + mine_at(g, r - 1, c + 1) + mine_at(g, r, c - 1)
        + mine_at(g, r, c + 1) + mine_at(g, r + 1, c - 1) + mine_at(g, r + 1, c) + mine_at(
        g,
        r + 1,
        c + 1,
    )
}

/// Number of positions of the grid among the cells around `(r, c)`.
pub open spec fn neighbor_positions(g: Seq<Seq<BoardElements>>, r: int, c: int) -> int {
    (if in_grid(g, r - 1, c - 1) { 1int } else { 0 }) + (if in_grid(g, r - 1, c) { 1int } else { 0 })
        + (if in_grid(g, r - 1, c + 1) { 1int } else { 0 }) + (if in_grid(g, r, c - 1) { 1int } else { 0 })
        + (if in_grid(g, r, c + 1) { 1int } else { 0 }) + (if in_grid(g, r + 1, c - 1) { 1int } else { 0 })
        + (if in_grid(g, r + 1, c) { 1int } else { 0 }) + (if in_grid(g, r + 1, c + 1) { 1int } else { 0 })
}

/// What the cell at offset `(dr, dc)` from `(r, c)` adds to the count of
/// `(r, c)`: nothing for the cell itself.
spec fn offset_term(g: Seq<Seq<BoardElements>>, r: int, c: int, dr: int, dc: int) -> int {
    if dr == 0 && dc == 0 {
        0
    } else {
        mine_at(g, r + dr, c + dc)
    }
}

/// Sum of the terms of row offset `dr` whose column offset is below `k`.
spec fn row_prefix(g: Seq<Seq<BoardElements>>, r: int, c: int, dr: int, k: int) -> int {
    (if -1 < k { offset_term(g, r, c, dr, -1) } else { 0 }) + (if 0 < k { offset_term(g, r, c, dr, 0) } else { 0 })
        + (if 1 < k { offset_term(g, r, c, dr, 1) } else { 0 })
}

/// Sum of the terms of the window rows whose offset is below `k`.
spec fn window_prefix(g: Seq<Seq<BoardElements>>, r: int, c: int, k: int) -> int {
    (if -1 < k { row_prefix(g, r, c, -1, 2) } else { 0 }) + (if 0 < k { row_prefix(g, r, c, 0, 2) } else { 0 })
        + (if 1 < k { row_prefix(g, r, c, 1, 2) } else { 0 })
}

/// The first offset of the window at position `pos` of an axis.
pub open spec fn lower_bound(pos: int) -> int {
    if pos == 0 {
        0
    } else {
        -1
    }
}

/// The last offset of the window at position `pos` of an axis of `len`
/// positions.
pub open spec fn upper_bound(len: int, pos: int) -> int {
    if pos == len - 1 {
        0
    } else {
        1
    }
}

/// Number of positions along the axis chosen by `vertical`.
pub open spec fn axis_len(g: Seq<Seq<BoardElements>>, vertical: bool) -> int {
    if vertical {
        g.len() as int
    } else {
        g[0].len() as int
    }
}

/// The character for a cell that is not a mine and has `n` mines around it:
/// `'.'` for none, the decimal digit for one to nine, `'E'` otherwise.
pub open spec fn count_symbol(n: int) -> char {
    if n == 0 {
        '.'
    } else if 0 < n < 10 {
        (('0' as int) + n) as char
    } else {
        'E'
    }
}

/// The character that the rendered board shows at `(r, c)`.
pub open spec fn cell_symbol(g: Seq<Seq<BoardElements>>, r: int, c: int) -> char {
    if g[r][c] == BoardElements::Mine {
        '*'
    } else {
        count_symbol(neighbor_count(g, r, c))
    }
}

/// The rendered text of row `r`: its cell characters, then a newline.
pub open spec fn render_row(g: Seq<Seq<BoardElements>>, r: int) -> Seq<char> {
    Seq::new(g[r].len(), |c: int| cell_symbol(g, r, c)).push('\n')
}

/// The rendered text of the first `n` rows.
pub open spec fn render_rows(g: Seq<Seq<BoardElements>>, n: nat) -> Seq<char>
    decreases n,
{
    if n == 0 {
        Seq::empty()
    } else {
        render_rows(g, (n - 1) as nat) + render_row(g, n - 1)
    }
}

/// The rendered text of the whole grid.
pub open spec fn render_text(g: Seq<Seq<BoardElements>>) -> Seq<char> {
    render_rows(g, g.len())
}

/// Relies on `String::push`, which appends one character to the string.
pub assume_specification[ String::push ](s: &mut String, ch: char)
    ensures
        final(s)@ == old(s)@.push(ch),
;

/// The decimal digit for `n`, if `n` has one.
fn decimal_digit(n: u8) -> (r: Option<char>)
    ensures
        n < 10 ==> r == Some((('0' as int) + n) as char),
        n >= 10 ==> r is None,
{
    if n < 10 {
        Some((48u8 + n) as char)
    } else {
        None
    }
}

// ----------------------------------------------------------------------------
// The board.
// ----------------------------------------------------------------------------

/// A minesweeper board: a rectangular grid of mines and empty cells.
pub struct Board {
    data: Vec<Vec<BoardElements>>,
    width: usize,
    height: usize,
}

impl View for Board {
    type V = Seq<Seq<BoardElements>>;

    closed spec fn view(&self) -> Seq<Seq<BoardElements>> {
        Seq::new(self.data@.len(), |r: int| self.data@[r]@)
    }
}

/// `pos + delta`, for a step of at most one that stays within `usize`.
fn shift(pos: usize, delta: isize) -> (r: usize)
    requires
        -1 <= delta <= 1,
        0 <= pos + delta <= usize::MAX,
    ensures
        r == pos + delta,
{
    if delta < 0 {
        pos - 1
    } else {
        pos + delta as usize
    }
}

impl Board {
    #[verifier::type_invariant]
    spec fn inv(&self) -> bool {
        &&& self.height == self.data@.len()
        &&& is_board_grid(self@)
        &&& self.width == self@[0].len()
    }

    /// Builds the board that the text `data` describes: rows end at each
    /// newline, the mine byte is a mine and every other byte an empty cell.
    pub fn new(data: &[u8]) -> (r: Board)
        requires
            well_formed_text(data@),
        ensures
            r@ == parse_text(data@),
            is_board_grid(r@),
    {
        let ghost s = data@;
        let ghost (w, h) = text_dims(s);
        proof {
            lemma_text_at(s, w, h, 0, w as int);
        }
        let mut width: usize = 0;
        while BoardElements::from(data[width]) != BoardElements::Newline
            invariant
                s == data@,
                is_board_text(s, w, h),
                width <= w,
                w < s.len(),
                s[w as int] == NEWLINE_BYTE,
            decreases w - width,
        {
            proof {
                if width == w {
                    assert(false);
                }
            }
            width += 1;
        }
        proof {
            if width < w {
                lemma_text_at(s, w, h, 0, width as int);
            }
        }
        let width_con_newline: usize = width + 1;
        let height: usize = data.len() / width_con_newline;
        proof {
            lemma_fundamental_div_mod_converse(s.len() as int, (w + 1) as int, h as int, 0);
        }
        let mut matrix: Vec<Vec<BoardElements>> = Vec::new();
        let mut row: Vec<BoardElements> = Vec::new();
        let ghost mut r: nat = 0;
        let ghost mut c: nat = 0;
        let mut k: usize = 0;
        while k < data.len()
            invariant
                s == data@,
                is_board_text(s, w, h),
                width == w,
                k == r * (w + 1) + c,
                k <= s.len(),
                c <= w,
                r <= h,
                r == h ==> c == 0,
                matrix@.len() == r,
                forall|i: int| 0 <= i < r ==> (#[trigger] matrix@[i])@ == grid_of_text(s, w, h)[i],
                row@ == Seq::new(c, |j: int| cell_of_byte(s[r * (w + 1) + j])),
            decreases s.len() - k,
        {
            proof {
                if r == h {
                    assert(k == s.len()) by (nonlinear_arith)
                        requires
                            k == r * (w + 1) + c,
                            c == 0,
                            r == h,
                            s.len() == h * (w + 1),
                    ;
                }
                lemma_text_at(s, w, h, r as int, c as int);
            }
            let element = BoardElements::from_cell_byte(data[k]);
            match element {
                BoardElements::Newline => {
                    assert(row@ =~= grid_of_text(s, w, h)[r as int]);
                    matrix.push(row);
                    row = Vec::new();
                    proof {
                        assert(k + 1 == (r + 1) * (w + 1)) by (nonlinear_arith)
                            requires
                                k == r * (w + 1) + c,
                                c == w,
                        ;
                        r = r + 1;
                        c = 0;
                    }
                },
                element => {
                    row.push(element);
                    proof {
                        c = c + 1;
                    }
                    assert(row@ =~= Seq::new(c, |j: int| cell_of_byte(s[r * (w + 1) + j])));
                },
            }
            k += 1;
        }
        proof {
            lemma_fundamental_div_mod_converse(s.len() as int, (w + 1) as int, r as int, c as int);
        }
        let board = Board { data: matrix, width, height };
        assert(board@ =~= grid_of_text(s, w, h));
        board
    }

    /// Number of cells in each row.
    pub fn width(&self) -> (r: usize)
        ensures
            r == self@[0].len(),
    {
        proof {
            use_type_invariant(self);
        }
        self.width
    }

    /// Number of rows.
    pub fn height(&self) -> (r: usize)
        ensures
            r == self@.len(),
    {
        proof {
            use_type_invariant(self);
        }
        self.height
    }

    /// The rows of the board.
    pub fn data(&self) -> (r: &Vec<Vec<BoardElements>>)
        ensures
            r@.len() == self@.len(),
            forall|i: int| 0 <= i < r@.len() ==> (#[trigger] r@[i])@ == self@[i],
    {
        &self.data
    }

    /// The window of offsets to look at along one axis: from -1 to 1,
    /// without -1 at the first position and without 1 at the last, so that
    /// the window stays on the board.
    pub fn get_bounds(&self, vertical: bool, position_in_axis: usize) -> (r: (isize, isize))
        requires
            position_in_axis < axis_len(self@, vertical),
        ensures
            r.0 == lower_bound(position_in_axis as int),
            r.1 == upper_bound(axis_len(self@, vertical), position_in_axis as int),
    {
        proof {
            use_type_invariant(self);
        }
        let board_size_in_axis = if vertical {
            self.height
        } else {
            self.width
        };
        let mut bounds: (isize, isize) = (-1, 1);
        if position_in_axis == 0 {
            bounds.0 = 0;
        }
        if position_in_axis == board_size_in_axis - 1 {
            bounds.1 = 0;
        }
        bounds
    }

    /// Number of mines around the cell at `row`, `column`.
    pub fn count_surrounding_mines(&self, row: usize, column: usize) -> (r: u8)
        requires
            row < self@.len(),
            column < self@[0].len(),
        ensures
            r == neighbor_count(self@, row as int, column as int),
    {
        proof {
            use_type_invariant(self);
        }
        let ghost g = self@;
        let mut surrounding_mines: u8 = 0;
        let vertical_bounds: (isize, isize) = self.get_bounds(true, row);
        let horizontal_bounds: (isize, isize) = self.get_bounds(false, column);

        let mut i: isize = vertical_bounds.0;
        while i <= vertical_bounds.1
            invariant
                g == self@,
                is_board_grid(g),
                self.data@.len() == g.len(),
                self.height == g.len(),
                self.width == g[0].len(),
                row < g.len(),
                column < g[0].len(),
                vertical_bounds.0 == lower_bound(row as int),
                vertical_bounds.1 == upper_bound(g.len() as int, row as int),
                horizontal_bounds.0 == lower_bound(column as int),
                horizontal_bounds.1 == upper_bound(g[0].len() as int, column as int),
                vertical_bounds.0 <= i <= vertical_bounds.1 + 1,
                surrounding_mines == window_prefix(g, row as int, column as int, i as int),
            decreases vertical_bounds.1 + 1 - i,
        {
            let mut j: isize = horizontal_bounds.0;
            while j <= horizontal_bounds.1
                invariant
                    g == self@,
                    is_board_grid(g),
                    self.data@.len() == g.len(),
                    self.height == g.len(),
                    self.width == g[0].len(),
                    row < g.len(),
                    column < g[0].len(),
                    vertical_bounds.0 == lower_bound(row as int),
                    vertical_bounds.1 == upper_bound(g.len() as int, row as int),
                    horizontal_bounds.0 == lower_bound(column as int),
                    horizontal_bounds.1 == upper_bound(g[0].len() as int, column as int),
                    vertical_bounds.0 <= i <= vertical_bounds.1,
                    horizontal_bounds.0 <= j <= horizontal_bounds.1 + 1,
                    surrounding_mines == window_prefix(g, row as int, column as int, i as int)
                        + row_prefix(g, row as int, column as int, i as int, j as int),
                decreases horizontal_bounds.1 + 1 - j,
            {
                let r = shift(row, i);
                let c = shift(column, j);
                assert(g[r as int] == self.data@[r as int]@);
                if self.data[r][c] == BoardElements::Mine && !(i == 0 && j == 0) {
                    surrounding_mines += 1;
                }
                j += 1;
            }
            i += 1;
        }
        surrounding_mines
    }

    /// The board as text, row by row: `'*'` for each mine, and for every
    /// other cell the number of mines around it (`'.'` when there are none),
    /// each row followed by a newline.
    pub fn mine_count(&self) -> (r: String)
        ensures
            r@ == render_text(self@),
    {
        proof {
            use_type_invariant(self);
        }
        let ghost g = self@;
        let mut resultado: String = String::new();
        for i in 0..self.height
            invariant
                g == self@,
                is_board_grid(g),
                self.data@.len() == g.len(),
                self.height == g.len(),
                self.width == g[0].len(),
                resultado@ == render_rows(g, i as nat),
        {
            assert(g[i as int] == self.data@[i as int]@);
            for j in 0..self.width
                invariant
                    g == self@,
                    is_board_grid(g),
                    self.data@.len() == g.len(),
                    self.height == g.len(),
                    self.width == g[0].len(),
                    i < g.len(),
                    g[i as int] == self.data@[i as int]@,
                    resultado@ == render_rows(g, i as nat) + Seq::new(
                        j as nat,
                        |c: int| cell_symbol(g, i as int, c),
                    ),
            {
                if self.data[i][j] == BoardElements::Mine {
                    resultado.push(BoardElements::Mine.symbol());
                } else {
                    match self.count_surrounding_mines(i, j) {
                        0 => resultado.push(BoardElements::Empty.symbol()),
                        count => match decimal_digit(count) {
                            None => resultado.push(BoardElements::Error.symbol()),
                            Some(c) => resultado.push(c),
                        },
                    }
                }
                assert(resultado@ =~= render_rows(g, i as nat) + Seq::new(
                    (j + 1) as nat,
                    |c: int| cell_symbol(g, i as int, c),
                ));
            }
            resultado.push(BoardElements::Newline.symbol());
            assert(resultado@ =~= render_rows(g, (i + 1) as nat));
        }
        resultado
    }
}

// ----------------------------------------------------------------------------
// Laws of rendering.
// ----------------------------------------------------------------------------

/// The text of the first `n` rows of a grid of width `w`: `n` lines of `w`
/// cell characters, each line ended by a newline.
proof fn lemma_render_rows(g: Seq<Seq<BoardElements>>, n: nat)
    requires
        is_board_grid(g),
        n <= g.len(),
    ensures
        render_rows(g, n).len() == n * (g[0].len() + 1),
        forall|r: int, c: int|
            0 <= r < n && 0 <= c < g[0].len() ==> #[trigger] render_rows(g, n)[r * (g[0].len() + 1)
                + c] == cell_symbol(g, r, c),
        forall|r: int|
            0 <= r < n ==> #[trigger] render_rows(g, n)[r * (g[0].len() + 1) + g[0].len()] == '\n',
    decreases n,
{
    let w = g[0].len();
    if n > 0 {
        let m = (n - 1) as nat;
        lemma_render_rows(g, m);
        assert(n * (w + 1) == m * (w + 1) + (w + 1)) by (nonlinear_arith)
            requires
                m == n - 1,
        ;
        assert forall|r: int, c: int| 0 <= r < n && 0 <= c <= w implies {
            &&& #[trigger] (r * (w + 1) + c) < n * (w + 1)
            &&& (r < m ==> r * (w + 1) + c < m * (w + 1))
            &&& (r == m ==> r * (w + 1) + c == m * (w + 1) + c)
        } by {
            assert(r * (w + 1) + c < n * (w + 1)) by (nonlinear_arith)
                requires
                    0 <= r < n,
                    0 <= c <= w,
            ;
            if r < m {
                assert(r * (w + 1) + c < m * (w + 1)) by (nonlinear_arith)
                    requires
                        0 <= r < m,
                        0 <= c <= w,
                ;
            }
        }
        assert forall|r: int, c: int|
            0 <= r < n && 0 <= c < w implies #[trigger] render_rows(g, n)[r * (w + 1) + c]
            == cell_symbol(g, r, c) by {
            assert((r * (w + 1) + c) < n * (w + 1));
        }
        assert forall|r: int| 0 <= r < n implies #[trigger] render_rows(g, n)[r * (w + 1) + w]
            == '\n' by {
            assert((r * (w + 1) + w) < n * (w + 1));
        }
    }
}

/// The rendered text of a board of `h` rows and `w` columns has `h` lines,
/// each of `w` cell characters followed by a newline.
pub proof fn lemma_render_shape(g: Seq<Seq<BoardElements>>)
    requires
        is_board_grid(g),
    ensures
        render_text(g).len() == g.len() * (g[0].len() + 1),
        forall|r: int, c: int|
            0 <= r < g.len() && 0 <= c < g[0].len() ==> #[trigger] render_text(g)[r * (g[0].len()
                + 1) + c] == cell_symbol(g, r, c),
        forall|r: int|
            0 <= r < g.len() ==> #[trigger] render_text(g)[r * (g[0].len() + 1) + g[0].len()]
                == '\n',
{
    lemma_render_rows(g, g.len());
}

/// A cell is rendered as the mine character exactly when it holds a mine.
pub proof fn lemma_render_marks_mines(g: Seq<Seq<BoardElements>>, r: int, c: int)
    requires
        is_board_grid(g),
        0 <= r < g.len(),
        0 <= c < g[0].len(),
    ensures
        render_text(g)[r * (g[0].len() + 1) + c] == '*' <==> g[r][c] == BoardElements::Mine,
{
    lemma_render_shape(g);
}

/// A cell that holds no mine is rendered as the number of mines among the
/// cells around it that lie on the board: `'.'` for none, else the digit.
/// That number is at most the number of such cells, which is 3 at a corner,
/// 5 elsewhere on the border and 8 inside, on a board of at least two rows
/// and two columns.
pub proof fn lemma_render_counts(g: Seq<Seq<BoardElements>>, r: int, c: int)
    requires
        is_board_grid(g),
        0 <= r < g.len(),
        0 <= c < g[0].len(),
        g[r][c] != BoardElements::Mine,
    ensures
        0 <= neighbor_count(g, r, c) <= neighbor_positions(g, r, c) <= 8,
        neighbor_count(g, r, c) == 0 ==> render_text(g)[r * (g[0].len() + 1) + c] == '.',
        neighbor_count(g, r, c) > 0 ==> render_text(g)[r * (g[0].len() + 1) + c] as int - '0' as int
            == neighbor_count(g, r, c),
        g.len() >= 2 && g[0].len() >= 2 ==> {
            let corner_r = r == 0 || r == g.len() - 1;
            let corner_c = c == 0 || c == g[0].len() - 1;
            &&& (corner_r && corner_c ==> neighbor_positions(g, r, c) == 3)
            &&& (corner_r != corner_c ==> neighbor_positions(g, r, c) == 5)
            &&& (!corner_r && !corner_c ==> neighbor_positions(g, r, c) == 8)
        },
{
    lemma_render_shape(g);
}

/// The bytes of a text made of ASCII characters.
pub open spec fn text_bytes(t: Seq<char>) -> Seq<u8> {
    t.map_values(|ch: char| ch as u8)
}

/// The rendered text of a board is again the text of a board of the same
/// width and height (digits read back as empty cells, so only the shape
/// survives).
pub proof fn lemma_render_reparses(g: Seq<Seq<BoardElements>>)
    requires
        is_board_grid(g),
    ensures
        well_formed_text(text_bytes(render_text(g))),
        text_dims(text_bytes(render_text(g))) == (g[0].len(), g.len()),
        parse_text(text_bytes(render_text(g))).len() == g.len(),
        forall|r: int|
            0 <= r < g.len() ==> #[trigger] parse_text(text_bytes(render_text(g)))[r].len()
                == g[0].len(),
{
    let w = g[0].len();
    let h = g.len();
    let t = render_text(g);
    let b = text_bytes(t);
    lemma_render_shape(g);
    assert forall|r: int, c: int| 0 <= r < h && 0 <= c <= w implies (#[trigger] b[r * (w + 1)
        + c] == NEWLINE_BYTE <==> c == w) by {
        assert(0 <= r * (w + 1) + c < h * (w + 1)) by (nonlinear_arith)
            requires
                0 <= r < h,
                0 <= c <= w,
        ;
    }
    assert(is_board_text(b, w, h));
    let (w2, h2) = text_dims(b);
    lemma_text_dims_unique(b, w, h, w2, h2);
}

} // verus!
