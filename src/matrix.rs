//! A rows × columns grid of values with checked access.
use vstd::prelude::*;
use crate::grid_text::{chars_of, grid_spans, holds_no_value, is_rectangular, span_texts, text_grid};
use vstd::std_specs::cmp::PartialEqSpec;
use vstd::string::is_ascii;
use crate::grid_text::spans_within;

verus! {

/// Why a matrix operation could not be carried out.
#[derive(Debug, Clone, Copy, PartialEq, Eq, Structural)]
pub enum MatrixError {
    /// A row or column index is not below the matrix's dimension.
    IndexOutOfRange,
    /// Text input holds no values, or a token that is not a number.
    ParseError,
    /// The rows of the input do not all have the same length.
    InconsistentRowLength,
}

/// The mathematical content of a matrix: its dimensions and its cells, row by row.
pub struct MatrixModel<T> {
    pub rows: nat,
    pub columns: nat,
    pub cells: Seq<Seq<T>>,
}

impl<T> MatrixModel<T> {
    /// Every row holds exactly `columns` cells and there are `rows` of them.
    pub open spec fn well_formed(self) -> bool {
        &&& self.cells.len() == self.rows
        &&& forall|i: int| 0 <= i < self.rows ==> (#[trigger] self.cells[i]).len() == self.columns
    }

    /// Whether (`row`, `column`) addresses a cell.
    pub open spec fn in_bounds(self, row: int, column: int) -> bool {
        0 <= row < self.rows && 0 <= column < self.columns
    }

    /// The cells of column `j`, top to bottom.
    pub open spec fn column(self, j: int) -> Seq<T> {
        Seq::new(self.rows, |i: int| self.cells[i][j])
    }

    /// Every column, left to right.
    pub open spec fn column_list(self) -> Seq<Seq<T>> {
        Seq::new(self.columns, |j: int| self.column(j))
    }

    /// The cells (i, i), for as many `i` as both dimensions allow.
    pub open spec fn diagonal(self) -> Seq<T> {
        let n = if self.rows <= self.columns {
            self.rows
        } else {
            self.columns
        };
        Seq::new(n, |i: int| self.cells[i][i])
    }
}

/// The contents of nested vectors, row by row.
pub open spec fn nested_view<T>(v: Seq<Vec<T>>) -> Seq<Seq<T>> {
    v.map_values(|r: Vec<T>| r@)
}

/// `parse` returned `Some(v)` for a string whose characters are `word`.
pub open spec fn reads_as<T, F: Fn(&str) -> Option<T>>(parse: F, word: Seq<char>, v: T) -> bool {
    exists|t: &str| t@ == word && #[trigger] parse.ensures((t,), Some(v))
}

/// `parse` returned `None` for a string whose characters are `word`.
pub open spec fn rejected<T, F: Fn(&str) -> Option<T>>(parse: F, word: Seq<char>) -> bool {
    exists|t: &str| t@ == word && #[trigger] parse.ensures((t,), None::<T>)
}

/// Whether `m` is what `parse` makes of the words `grid`: one cell per word,
/// in the same places, each a value that `parse` returned for its word.
pub open spec fn parsed_grid<T, F: Fn(&str) -> Option<T>>(
    m: MatrixModel<T>,
    grid: Seq<Seq<Seq<char>>>,
    parse: F,
) -> bool {
    &&& m.well_formed()
    &&& is_rectangular(grid)
    &&& m.rows == grid.len()
    &&& m.rows > 0 ==> m.columns == grid[0].len()
    &&& forall|i: int, j: int|
        m.in_bounds(i, j) ==> #[trigger] reads_as(parse, grid[i][j], m.cells[i][j])
}

/// `parse` rejected one of the words of `grid`.
pub open spec fn rejects_a_word<T, F: Fn(&str) -> Option<T>>(
    grid: Seq<Seq<Seq<char>>>,
    parse: F,
) -> bool {
    exists|i: int, j: int|
        0 <= i < grid.len() && 0 <= j < grid[i].len() && #[trigger] rejected(parse, grid[i][j])
}

/// A rectangular grid of values, stored row-major.
#[derive(Debug)]
pub struct Matrix<T> {
    rows: usize,
    columns: usize,
    data: Vec<Vec<T>>,
}

impl<T> View for Matrix<T> {
    type V = MatrixModel<T>;

    closed spec fn view(&self) -> MatrixModel<T> {
        MatrixModel {
            rows: self.rows as nat,
            columns: self.columns as nat,
            cells: self.data@.map_values(|r: Vec<T>| r@),
        }
    }
}

impl<T> Matrix<T> {
    #[verifier::type_invariant]
    closed spec fn inv(self) -> bool {
        self@.well_formed()
    }
}

impl<T: Copy> Matrix<T> {

    /// A `rows` × `columns` matrix with every cell set to `fill`.
    pub fn new(rows: usize, columns: usize, fill: T) -> (m: Matrix<T>)
        ensures
            m@.rows == rows,
            m@.columns == columns,
            m@.well_formed(),
            forall|i: int, j: int|
                0 <= i < rows && 0 <= j < columns ==> #[trigger] m@.cells[i][j] == fill,
    {
        let mut data: Vec<Vec<T>> = Vec::new();
        let mut i: usize = 0;
        while i < rows
            invariant
                i <= rows,
                data@.len() == i,
                forall|k: int| 0 <= k < i ==> (#[trigger] data@[k])@ == Seq::new(columns as nat, |j: int| fill),
            decreases rows - i,
        {
            let mut row: Vec<T> = Vec::new();
            let mut j: usize = 0;
            while j < columns
                invariant
                    j <= columns,
                    row@ == Seq::new(j as nat, |k: int| fill),
                decreases columns - j,
            {
                row.push(fill);
                j = j + 1;
                assert(row@ =~= Seq::new(j as nat, |k: int| fill));
            }
            data.push(row);
            i = i + 1;
        }
        let m = Matrix { rows, columns, data };
        assert(m@.well_formed());
        m
    }

    /// The number of rows.
    pub fn rows(&self) -> (r: usize)
        ensures
            r == self@.rows,
    {
        self.rows
    }

    /// The number of columns.
    pub fn columns(&self) -> (r: usize)
        ensures
            r == self@.columns,
    {
        self.columns
    }

    /// A matrix holding the rows `input`, which must all be equally long;
    /// with no rows, a 0 × 0 matrix.
    pub fn from_vec(input: Vec<Vec<T>>) -> (r: Result<Matrix<T>, MatrixError>)
        ensures
            is_rectangular(nested_view(input@)) ==> (r matches Ok(m) && {
                &&& m@.rows == input@.len()
                &&& m@.columns == (if input@.len() == 0 {
                    0
                } else {
                    input@[0]@.len()
                })
                &&& m@.well_formed()
                &&& m@.cells == nested_view(input@)
            }),
            !is_rectangular(nested_view(input@)) ==> r == Err::<Matrix<T>, MatrixError>(
                MatrixError::InconsistentRowLength,
            ),
    {
        let rows = input.len();
        if rows == 0 {
            let m = Matrix { rows: 0, columns: 0, data: input };
            assert(m@.cells =~= nested_view(input@));
            return Ok(m);
        }
        let columns = input[0].len();
        let mut i: usize = 0;
        while i < rows
            invariant
                rows == input@.len(),
                columns == input@[0]@.len(),
                i <= rows,
                forall|k: int| 0 <= k < i ==> (#[trigger] input@[k])@.len() == columns,
            decreases rows - i,
        {
            if input[i].len() != columns {
                proof {
                    assert(nested_view(input@)[i as int].len() != nested_view(input@)[0].len());
                }
                return Err(MatrixError::InconsistentRowLength);
            }
            i = i + 1;
        }
        let m = Matrix { rows, columns, data: input };
        assert(m@.cells =~= nested_view(input@));
        Ok(m)
    }

    /// The matrix that the text `s` describes, one row per line and the
    /// values of a row separated by white space, each value read by `parse`.
    /// Text without any value is a `ParseError`, rows of different lengths
    /// are `InconsistentRowLength`, and a word that `parse` rejects is a
    /// `ParseError`.
    pub fn from_string<F: Fn(&str) -> Option<T>>(s: &str, parse: F) -> (r: Result<
        Matrix<T>,
        MatrixError,
    >)
        requires
            forall|t: &str| #[trigger] parse.requires((t,)),
        ensures
            holds_no_value(text_grid(s@)) ==> r == Err::<Matrix<T>, MatrixError>(
                MatrixError::ParseError,
            ),
            !holds_no_value(text_grid(s@)) && !is_rectangular(text_grid(s@)) ==> r == Err::<
                Matrix<T>,
                MatrixError,
            >(MatrixError::InconsistentRowLength),
            !holds_no_value(text_grid(s@)) && is_rectangular(text_grid(s@)) ==> match r {
                Ok(m) => parsed_grid(m@, text_grid(s@), parse),
                Err(e) => e == MatrixError::ParseError && rejects_a_word(text_grid(s@), parse),
            },
    {
        let ghost g = text_grid(s@);
        let chars = chars_of(s);
        let spans = grid_spans(&chars);
        let rows = spans.len();
        let mut any = false;
        for k in 0..rows
            invariant
                rows == spans@.len(),
                rows == g.len(),
                g == text_grid(s@),
                forall|q: int| 0 <= q < rows ==> span_texts(s@, (#[trigger] spans@[q])@) == g[q],
                any ==> !holds_no_value(g),
                !any ==> forall|q: int| 0 <= q < k ==> (#[trigger] g[q]).len() == 0,
        {
            if spans[k].len() > 0 {
                any = true;
                assert(span_texts(s@, spans@[k as int]@).len() == spans@[k as int]@.len());
            }
        }
        if !any {
            return Err(MatrixError::ParseError);
        }
        let columns = spans[0].len();
        assert(g[0] == span_texts(s@, spans@[0]@));
        for k in 0..rows
            invariant
                rows == spans@.len(),
                rows == g.len(),
                rows > 0,
                columns == g[0].len(),
                g == text_grid(s@),
                forall|q: int| 0 <= q < rows ==> span_texts(s@, (#[trigger] spans@[q])@) == g[q],
                forall|q: int| 0 <= q < k ==> (#[trigger] g[q]).len() == columns,
                !holds_no_value(g),
        {
            assert(g[k as int] == span_texts(s@, spans@[k as int]@));
            if spans[k].len() != columns {
                assert(g[k as int].len() != g[0].len());
                return Err(MatrixError::InconsistentRowLength);
            }
        }
        assert(is_rectangular(g));
        let ascii = s.is_ascii();
        let mut data: Vec<Vec<T>> = Vec::new();
        for i in 0..rows
            invariant
                rows == spans@.len(),
                rows == g.len(),
                rows > 0,
                columns == g[0].len(),
                g == text_grid(s@),
                !holds_no_value(g),
                is_rectangular(g),
                chars@ == s@,
                ascii == is_ascii(s),
                forall|q: int| 0 <= q < rows ==> span_texts(s@, (#[trigger] spans@[q])@) == g[q],
                forall|q: int| 0 <= q < rows ==> spans_within((#[trigger] spans@[q])@, s@.len()),
                forall|q: int| 0 <= q < rows ==> (#[trigger] g[q]).len() == columns,
                forall|t: &str| #[trigger] parse.requires((t,)),
                data@.len() == i,
                forall|a: int| 0 <= a < i ==> (#[trigger] data@[a])@.len() == columns,
                forall|a: int, b: int|
                    0 <= a < i && 0 <= b < columns ==> #[trigger] reads_as(
                        parse,
                        g[a][b],
                        data@[a]@[b],
                    ),
        {
            let line = &spans[i];
            assert(g[i as int] == span_texts(s@, line@));
            assert(line@.len() == columns);
            let mut row: Vec<T> = Vec::new();
            for j in 0..columns
                invariant
                    i < rows,
                    rows == g.len(),
                    g == text_grid(s@),
                    !holds_no_value(g),
                    is_rectangular(g),
                    line@.len() == columns,
                    g[i as int] == span_texts(s@, line@),
                    spans_within(line@, s@.len()),
                    ascii == is_ascii(s),
                    forall|t: &str| #[trigger] parse.requires((t,)),
                    row@.len() == j,
                    forall|b: int|
                        0 <= b < j ==> #[trigger] reads_as(parse, g[i as int][b], row@[b]),
            {
                let (a, b) = line[j];
                assert(line@[j as int] == (a, b));
                assert(a < b <= s@.len());
                let word = if ascii {
                    s.substring_ascii(a, b)
                } else {
                    s.substring_char(a, b)
                };
                assert(word@ == g[i as int][j as int]);
                match parse(word) {
                    Some(v) => {
                        row.push(v);
                        assert(row@[j as int] == v);
                        assert(reads_as(parse, g[i as int][j as int], v));
                    },
                    None => {
                        assert(rejected(parse, g[i as int][j as int]));
                        assert(rejects_a_word(g, parse));
                        return Err(MatrixError::ParseError);
                    },
                }
            }
            data.push(row);
            assert forall|a: int, b: int|
                0 <= a < i + 1 && 0 <= b < columns implies #[trigger] reads_as(
                parse,
                g[a][b],
                data@[a]@[b],
            ) by {
                if a == i {
                    assert(data@[a]@ == row@);
                }
            }
        }
        let m = Matrix { rows, columns, data };
        assert(m@.cells =~= nested_view(data@));
        assert(parsed_grid(m@, g, parse));
        Ok(m)
    }

    /// A copy of `m`.
    pub fn from_matrix(m: &Matrix<T>) -> (r: Matrix<T>)
        ensures
            r@ == m@,
    {
        proof {
            use_type_invariant(m);
        }
        let data = m.get_rows();
        let r = Matrix { rows: m.rows, columns: m.columns, data };
        assert(r@.cells =~= m@.cells);
        r
    }

    /// A copy of every row, top to bottom.
    pub fn get_rows(&self) -> (r: Vec<Vec<T>>)
        ensures
            nested_view(r@) == self@.cells,
    {
        proof {
            use_type_invariant(self);
        }
        let mut out: Vec<Vec<T>> = Vec::new();
        for i in 0..self.rows
            invariant
                self@.well_formed(),
                self.rows == self@.rows,
                out@.len() == i,
                forall|k: int| 0 <= k < i ==> (#[trigger] out@[k])@ == self@.cells[k],
        {
            let row = self.get_row(i);
            assert(row is Ok);
            match row {
                Ok(v) => out.push(v),
                Err(_) => {},
            }
        }
        assert(nested_view(out@) =~= self@.cells);
        out
    }

    /// A copy of every column, left to right.
    pub fn get_columns(&self) -> (r: Vec<Vec<T>>)
        ensures
            nested_view(r@) == self@.column_list(),
    {
        let mut out: Vec<Vec<T>> = Vec::new();
        for j in 0..self.columns
            invariant
                self.columns == self@.columns,
                out@.len() == j,
                forall|k: int| 0 <= k < j ==> (#[trigger] out@[k])@ == self@.column(k),
        {
            let column = self.get_column(j);
            match column {
                Ok(v) => out.push(v),
                Err(_) => {},
            }
        }
        assert(nested_view(out@) =~= self@.column_list());
        out
    }

    /// A copy of row `row`, or `IndexOutOfRange` when there is no such row.
    pub fn get_row(&self, row: usize) -> (r: Result<Vec<T>, MatrixError>)
        ensures
            row < self@.rows ==> (r matches Ok(v) && v@ == self@.cells[row as int]),
            row >= self@.rows ==> r == Err::<Vec<T>, MatrixError>(MatrixError::IndexOutOfRange),
    {
        proof {
            use_type_invariant(self);
        }
        if row >= self.rows {
            return Err(MatrixError::IndexOutOfRange);
        }
        let source = &self.data[row];
        assert(source@ == self@.cells[row as int]);
        let mut out: Vec<T> = Vec::new();
        for j in 0..source.len()
            invariant
                out@ == source@.take(j as int),
        {
            out.push(source[j]);
            assert(out@ =~= source@.take(j + 1));
        }
        assert(out@ =~= source@);
        Ok(out)
    }

    /// A copy of column `column`, or `IndexOutOfRange` when there is no such
    /// column.
    pub fn get_column(&self, column: usize) -> (r: Result<Vec<T>, MatrixError>)
        ensures
            column < self@.columns ==> (r matches Ok(v) && v@ == self@.column(column as int)),
            column >= self@.columns ==> r == Err::<Vec<T>, MatrixError>(
                MatrixError::IndexOutOfRange,
            ),
    {
        proof {
            use_type_invariant(self);
        }
        if column >= self.columns {
            return Err(MatrixError::IndexOutOfRange);
        }
        let mut out: Vec<T> = Vec::new();
        for i in 0..self.rows
            invariant
                self@.well_formed(),
                self.rows == self@.rows,
                column < self@.columns,
                out@ == self@.column(column as int).take(i as int),
        {
            assert(self@.cells[i as int] == self.data@[i as int]@);
            out.push(self.data[i][column]);
            assert(out@ =~= self@.column(column as int).take(i + 1));
        }
        assert(out@ =~= self@.column(column as int));
        Ok(out)
    }

    /// The cells (i, i) for `i` below both dimensions.
    pub fn get_diagonal(&self) -> (r: Vec<T>)
        ensures
            r@ == self@.diagonal(),
    {
        proof {
            use_type_invariant(self);
        }
        let n = if self.rows <= self.columns {
            self.rows
        } else {
            self.columns
        };
        let mut out: Vec<T> = Vec::new();
        for i in 0..n
            invariant
                self@.well_formed(),
                n <= self@.rows,
                n <= self@.columns,
                n == self@.diagonal().len(),
                out@ == self@.diagonal().take(i as int),
        {
            assert(self@.cells[i as int] == self.data@[i as int]@);
            out.push(self.data[i][i]);
            assert(out@ =~= self@.diagonal().take(i + 1));
        }
        assert(out@ =~= self@.diagonal());
        out
    }

    /// The cell at (`row`, `column`), or `IndexOutOfRange` when either index is too large.
    pub fn get(&self, row: usize, column: usize) -> (r: Result<T, MatrixError>)
        ensures
            row < self@.rows && column < self@.columns ==> r == Ok::<T, MatrixError>(
                self@.cells[row as int][column as int],
            ),
            !(row < self@.rows && column < self@.columns) ==> r == Err::<T, MatrixError>(
                MatrixError::IndexOutOfRange,
            ),
    {
        proof {
            use_type_invariant(self);
        }
        if row < self.rows && column < self.columns {
            assert(self@.cells[row as int] == self.data@[row as int]@);
            Ok(self.data[row][column])
        } else {
            Err(MatrixError::IndexOutOfRange)
        }
    }
}

impl<T: PartialEq> PartialEq for Matrix<T> {
    /// Equal dimensions and equal cells.
    fn eq(&self, other: &Matrix<T>) -> (r: bool) {
        proof {
            use_type_invariant(self);
            use_type_invariant(other);
        }
        if self.rows != other.rows || self.columns != other.columns {
            return false;
        }
        let mut i: usize = 0;
        while i < self.rows
            invariant
                self@.well_formed(),
                other@.well_formed(),
                self.rows == self@.rows,
                self.columns == self@.columns,
                self@.rows == other@.rows,
                self@.columns == other@.columns,
                i <= self.rows,
                T::obeys_eq_spec() ==> forall|a: int, b: int|
                    0 <= a < i && 0 <= b < self@.columns ==> #[trigger] self@.cells[a][b].eq_spec(
                        &other@.cells[a][b],
                    ),
            decreases self.rows - i,
        {
            assert(self@.cells[i as int] == self.data@[i as int]@);
            assert(other@.cells[i as int] == other.data@[i as int]@);
            let mut j: usize = 0;
            while j < self.columns
                invariant
                    self@.well_formed(),
                    other@.well_formed(),
                    self.rows == self@.rows,
                    self.columns == self@.columns,
                    self@.rows == other@.rows,
                    self@.columns == other@.columns,
                    i < self.rows,
                    j <= self.columns,
                    self@.cells[i as int] == self.data@[i as int]@,
                    other@.cells[i as int] == other.data@[i as int]@,
                    T::obeys_eq_spec() ==> forall|a: int, b: int|
                        0 <= a < i && 0 <= b < self@.columns ==> #[trigger] self@.cells[a][b].eq_spec(
                            &other@.cells[a][b],
                        ),
                    T::obeys_eq_spec() ==> forall|b: int|
                        0 <= b < j ==> #[trigger] self@.cells[i as int][b].eq_spec(
                            &other@.cells[i as int][b],
                        ),
                decreases self.columns - j,
            {
                if !(self.data[i][j] == other.data[i][j]) {
                    return false;
                }
                j = j + 1;
            }
            i = i + 1;
        }
        true
    }
}

impl<T: PartialEq> vstd::std_specs::cmp::PartialEqSpecImpl for Matrix<T> {
    open spec fn obeys_eq_spec() -> bool {
        T::obeys_eq_spec()
    }

    open spec fn eq_spec(&self, other: &Matrix<T>) -> bool {
        &&& self@.rows == other@.rows
        &&& self@.columns == other@.columns
        &&& forall|a: int, b: int|
            0 <= a < self@.rows && 0 <= b < self@.columns ==> #[trigger] self@.cells[a][b].eq_spec(
                &other@.cells[a][b],
            )
    }
}

/// A matrix read from text reproduces the text's values: the cell at each
/// position — which `get` returns, and which `get_row` and `get_column` hold
/// at that position — is a value that `parse` returned for the word in the
/// same place of the text.
pub proof fn lemma_text_round_trip<T, F: Fn(&str) -> Option<T>>(
    s: Seq<char>,
    parse: F,
    m: MatrixModel<T>,
)
    requires
        parsed_grid(m, text_grid(s), parse),
    ensures
        m.rows == text_grid(s).len(),
        forall|i: int| 0 <= i < m.rows ==> (#[trigger] text_grid(s)[i]).len() == m.columns,
        forall|i: int, j: int|
            #![trigger m.cells[i][j]]
            m.in_bounds(i, j) ==> {
                &&& reads_as(parse, text_grid(s)[i][j], m.cells[i][j])
                &&& m.cells[i][j] == m.column(j)[i]
                &&& m.cells[i][j] == m.column_list()[j][i]
            },
{
    let g = text_grid(s);
    assert forall|i: int| 0 <= i < m.rows implies (#[trigger] g[i]).len() == m.columns by {
        assert(g[i].len() == g[0].len());
    }
    assert forall|i: int, j: int| m.in_bounds(i, j) implies {
        &&& reads_as(parse, g[i][j], m.cells[i][j])
        &&& m.cells[i][j] == m.column(j)[i]
        &&& m.cells[i][j] == m.column_list()[j][i]
    } by {
        assert(reads_as(parse, g[i][j], m.cells[i][j]));
    }
}

} // verus!
