use vstd::prelude::*;

verus! {

/// Side length of the square board.
pub const ROWS: usize = 3;

/// Number of cells on the board.
pub const BOARD_SIZE: usize = 9;

/// Contents of one board cell, and also the identity of a player.
#[derive(Debug, Copy, Clone, PartialEq, Eq, Structural)]
pub enum Mark {
    X,
    O,
    NoPlayer,
}

/// Outcome of a finished game, seen from one player's perspective.
#[derive(Debug, Copy, Clone, PartialEq, Eq, Structural)]
pub enum Score {
    Loss,
    Draw,
    Win,
}

impl Score {
    /// The score counted in half-points, so that a draw needs no
    /// fractional value: a win is two halves, a draw one, a loss none.
    pub open spec fn spec_half_points(self) -> u64 {
        match self {
            Score::Loss => 0,
            Score::Draw => 1,
            Score::Win => 2,
        }
    }

    #[verifier::when_used_as_spec(spec_half_points)]
    pub fn half_points(self) -> (r: u64)
        ensures
            r == self.spec_half_points(),
    {
        match self {
            Score::Loss => 0,
            Score::Draw => 1,
            Score::Win => 2,
        }
    }
}

/// The three columns of the board, top to bottom within each column.
pub open spec fn column_lines() -> Seq<Seq<usize>> {
    seq![seq![0usize, 3usize, 6usize], seq![1usize, 4usize, 7usize], seq![2usize, 5usize, 8usize]]
}

/// The three rows of the board, left to right within each row.
pub open spec fn row_lines() -> Seq<Seq<usize>> {
    seq![seq![0usize, 1usize, 2usize], seq![3usize, 4usize, 5usize], seq![6usize, 7usize, 8usize]]
}

/// The two diagonals of the board.
pub open spec fn diagonal_lines() -> Seq<Seq<usize>> {
    seq![seq![0usize, 4usize, 8usize], seq![2usize, 4usize, 6usize]]
}

/// The line groups in the order the result check walks them:
/// columns, then rows, then diagonals.
pub open spec fn all_line_groups() -> Seq<Seq<Seq<usize>>> {
    seq![column_lines(), row_lines(), diagonal_lines()]
}

/// All eight winning lines, flattened in group order.
pub open spec fn all_lines() -> Seq<Seq<usize>> {
    column_lines() + row_lines() + diagonal_lines()
}

/// Every winning line consists of three in-range cell indices.
pub open spec fn line_wf(line: Seq<usize>) -> bool {
    &&& line.len() == 3
    &&& forall|k: int| 0 <= k < 3 ==> line[k] < BOARD_SIZE
}

pub proof fn lemma_all_lines_wf()
    ensures
        all_lines().len() == 8,
        forall|i: int| 0 <= i < 8 ==> #[trigger] line_wf(all_lines()[i]),
{
    assert forall|i: int| 0 <= i < 8 implies #[trigger] line_wf(all_lines()[i]) by {
        assert(line_wf(all_lines()[0]));
        assert(line_wf(all_lines()[1]));
        assert(line_wf(all_lines()[2]));
        assert(line_wf(all_lines()[3]));
        assert(line_wf(all_lines()[4]));
        assert(line_wf(all_lines()[5]));
        assert(line_wf(all_lines()[6]));
        assert(line_wf(all_lines()[7]));
    }
}

/// A vector of lines holds exactly the given abstract lines.
pub open spec fn lines_match(v: Seq<Vec<usize>>, s: Seq<Seq<usize>>) -> bool {
    &&& v.len() == s.len()
    &&& forall|k: int| 0 <= k < v.len() ==> #[trigger] v[k]@ == s[k]
}

/// A vector of line groups holds exactly the given abstract groups.
pub open spec fn line_groups_match(v: Seq<Vec<Vec<usize>>>, s: Seq<Seq<Seq<usize>>>) -> bool {
    &&& v.len() == s.len()
    &&& forall|k: int| 0 <= k < v.len() ==> #[trigger] lines_match(v[k]@, s[k])
}

/// Builds the column lines: every third cell, starting from each cell
/// of the first row.
fn get_column_vector() -> (v: Vec<Vec<usize>>)
    ensures
        lines_match(v@, column_lines()),
{
    let mut v: Vec<Vec<usize>> = Vec::new();
    let mut i: usize = 0;
    while i < ROWS
        invariant
            i <= ROWS,
            v@.len() == i,
            forall|k: int| 0 <= k < i ==> #[trigger] v@[k]@ == column_lines()[k],
        decreases ROWS - i,
    {
        let mut column: Vec<usize> = Vec::new();
        column.push(i);
        column.push(i + ROWS);
        column.push(i + 2 * ROWS);
        assert(column@ =~= column_lines()[i as int]);
        v.push(column);
        i = i + 1;
    }
    v
}

/// Builds the row lines by transposing the column lines.
fn get_row_vector(col_vec: &Vec<Vec<usize>>) -> (v: Vec<Vec<usize>>)
    requires
        lines_match(col_vec@, column_lines()),
    ensures
        lines_match(v@, row_lines()),
{
    let mut v: Vec<Vec<usize>> = Vec::new();
    let mut i: usize = 0;
    while i < ROWS
        invariant
            i <= ROWS,
            lines_match(col_vec@, column_lines()),
            v@.len() == i,
            forall|k: int| 0 <= k < i ==> #[trigger] v@[k]@ == row_lines()[k],
        decreases ROWS - i,
    {
        let mut row: Vec<usize> = Vec::new();
        let mut j: usize = 0;
        while j < ROWS
            invariant
                j <= ROWS,
                i < ROWS,
                lines_match(col_vec@, column_lines()),
                row@ == row_lines()[i as int].take(j as int),
            decreases ROWS - j,
        {
            row.push(col_vec[j][i]);
            assert(row@ =~= row_lines()[i as int].take(j + 1));
            j = j + 1;
        }
        assert(row@ =~= row_lines()[i as int]);
        v.push(row);
        i = i + 1;
    }
    v
}

/// Builds the two diagonals out of the row lines.
fn get_diagonals(row_vec: &Vec<Vec<usize>>) -> (v: Vec<Vec<usize>>)
    requires
        lines_match(row_vec@, row_lines()),
    ensures
        lines_match(v@, diagonal_lines()),
{
    let mut left_diagonal: Vec<usize> = Vec::new();
    let mut right_diagonal: Vec<usize> = Vec::new();
    let mut i: usize = 0;
    while i < ROWS
        invariant
            i <= ROWS,
            lines_match(row_vec@, row_lines()),
            left_diagonal@ == diagonal_lines()[0].take(i as int),
            right_diagonal@ == diagonal_lines()[1].take(i as int),
        decreases ROWS - i,
    {
        left_diagonal.push(row_vec[i][i]);
        right_diagonal.push(row_vec[i][ROWS - i - 1]);
        assert(left_diagonal@ =~= diagonal_lines()[0].take(i + 1));
        assert(right_diagonal@ =~= diagonal_lines()[1].take(i + 1));
        i = i + 1;
    }
    assert(left_diagonal@ =~= diagonal_lines()[0]);
    assert(right_diagonal@ =~= diagonal_lines()[1]);
    let mut v: Vec<Vec<usize>> = Vec::new();
    v.push(left_diagonal);
    v.push(right_diagonal);
    v
}

/// The winning-line table a fresh board is equipped with: the
/// columns, the rows and the diagonals, in that order.
pub fn get_result_lines() -> (r: Vec<Vec<Vec<usize>>>)
    ensures
        line_groups_match(r@, all_line_groups()),
{
    let col_vec = get_column_vector();
    let row_vec = get_row_vector(&col_vec);
    let diagonal_vec = get_diagonals(&row_vec);

    let mut result_lines: Vec<Vec<Vec<usize>>> = Vec::new();
    result_lines.push(col_vec);
    result_lines.push(row_vec);
    result_lines.push(diagonal_vec);
    result_lines
}

} // verus!
