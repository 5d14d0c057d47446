//! The 9x9 grid: its fields by coordinate and in reading order, the count of
//! the determined ones, and the textual form of a puzzle.

use vstd::prelude::*;
use vstd::set_lib::{
    lemma_int_range, lemma_len_subset, lemma_set_subset_finite, lemma_subset_equality,
    set_int_range,
};
use crate::error::{digit_char, SudokuError};
use crate::field::{lemma_all_candidates, Cell, Field};
use crate::text::{
    digit_value, digits_value, is_digit, is_whitespace, parse_i8, parse_number, split_tokens,
    token_views, tokens,
};

verus! {

/// The place of the field in column `x` and row `y` in reading order: row by
/// row, each row from left to right.
pub open spec fn index_of(x: int, y: int) -> int {
    y * 9 + x
}

/// The grid of which nothing is known yet.
pub open spec fn fresh_grid() -> Seq<Cell> {
    Seq::new(81, |i: int| Cell::fresh())
}

/// A grid has 81 fields, each within its states.
pub open spec fn grid_wf(grid: Seq<Cell>) -> bool {
    &&& grid.len() == 81
    &&& forall|i: int| 0 <= i < 81 ==> (#[trigger] grid[i]).wf()
}

/// The places of the determined fields of a grid.
pub open spec fn solved_indices(grid: Seq<Cell>) -> Set<int> {
    Set::new(|i: int| 0 <= i < grid.len() && grid[i].is_solved())
}

/// How many fields of a grid are determined.
pub open spec fn solved_count(grid: Seq<Cell>) -> nat {
    solved_indices(grid).len()
}

/// No more fields are determined than the grid has, and all of them are
/// exactly when the count reaches the size of the grid.
pub proof fn lemma_solved_count(grid: Seq<Cell>)
    ensures
        solved_indices(grid).finite(),
        solved_count(grid) <= grid.len(),
        solved_count(grid) == grid.len() <==> forall|i: int|
            0 <= i < grid.len() ==> (#[trigger] grid[i]).is_solved(),
{
    let all = set_int_range(0, grid.len() as int);
    let solved = solved_indices(grid);
    lemma_int_range(0, grid.len() as int);
    lemma_set_subset_finite(all, solved);
    lemma_len_subset(solved, all);
    if solved_count(grid) == grid.len() {
        lemma_subset_equality(solved, all);
        assert forall|i: int| 0 <= i < grid.len() implies (#[trigger] grid[i]).is_solved() by {
            assert(all.contains(i));
        }
    }
    if forall|i: int| 0 <= i < grid.len() ==> (#[trigger] grid[i]).is_solved() {
        assert(solved =~= all);
    }
}

/// The fresh grid is a grid.
pub proof fn lemma_fresh_grid()
    ensures
        grid_wf(fresh_grid()),
        solved_count(fresh_grid()) == 0,
{
    lemma_all_candidates();
    assert(solved_indices(fresh_grid()) =~= Set::<int>::empty());
}

/// The numbers that the tokens of a text write, token by token.
pub open spec fn token_values(text: Seq<char>) -> Seq<Option<i8>> {
    tokens(text).map_values(|token: Seq<char>| parse_i8(token))
}

/// A token is accepted when it writes no number, or one of 1 to 9.
pub open spec fn accepted(value: Option<i8>) -> bool {
    value matches Some(v) ==> 1 <= v <= 9
}

/// The field that a token describes: determined where the token writes a
/// number, fresh where it writes none.
pub open spec fn cell_of(value: Option<i8>) -> Cell {
    match value {
        Some(v) => Cell::solved(v),
        None => Cell::fresh(),
    }
}

/// The place of the first token that is not accepted.
pub open spec fn first_refused(values: Seq<Option<i8>>) -> int {
    choose|i: int|
        0 <= i < values.len() && !accepted(values[i]) && forall|j: int|
            0 <= j < i ==> accepted(#[trigger] values[j])
}

/// What a puzzle text stands for: the grid that its 81 tokens describe in
/// reading order; or the failure `MalformedInput` with the number of its
/// tokens, where that is not 81; or else `InvalidOption` with the number of
/// the first token that is not accepted.
pub open spec fn parse_result(text: Seq<char>) -> Result<Seq<Cell>, SudokuError> {
    let values = token_values(text);
    if values.len() != 81 {
        Err(SudokuError::MalformedInput { count: values.len() as usize })
    } else if forall|i: int| 0 <= i < 81 ==> accepted(#[trigger] values[i]) {
        Ok(values.map_values(|value: Option<i8>| cell_of(value)))
    } else {
        Err(SudokuError::InvalidOption { value: values[first_refused(values)]->0 })
    }
}

/// The text that writes a grid of determined fields: the digits of their
/// values in reading order, with one space between two of them.
pub open spec fn render(values: Seq<i8>) -> Seq<char>
    decreases values.len(),
{
    if values.len() == 0 {
        Seq::empty()
    } else if values.len() == 1 {
        seq![digit_char(values[0] as int)]
    } else {
        render(values.drop_last()).push(' ').push(digit_char(values.last() as int))
    }
}

/// What kind of character a digit is.
proof fn lemma_digit_char(d: int)
    requires
        0 <= d <= 9,
    ensures
        is_digit(digit_char(d)),
        digit_value(digit_char(d)) == d,
        !is_whitespace(digit_char(d)),
        digit_char(d) != '-',
        digit_char(d) != '+',
        is_whitespace(' '),
{
}

/// The tokens of a rendered grid are the digits of its values.
proof fn lemma_render_tokens(values: Seq<i8>)
    requires
        forall|i: int| 0 <= i < values.len() ==> 1 <= #[trigger] values[i] <= 9,
    ensures
        tokens(render(values)) == values.map_values(|v: i8| seq![digit_char(v as int)]),
    decreases values.len(),
{
    let digits = values.map_values(|v: i8| seq![digit_char(v as int)]);
    let text = render(values);
    if values.len() == 0 {
        assert(tokens(text) =~= digits);
    } else if values.len() == 1 {
        lemma_digit_char(values[0] as int);
        assert(text.drop_last() =~= Seq::<char>::empty());
        assert(tokens(Seq::<char>::empty()) =~= Seq::<Seq<char>>::empty());
        assert(tokens(text) =~= digits);
    } else {
        let shorter = values.drop_last();
        lemma_render_tokens(shorter);
        let spaced = render(shorter).push(' ');
        let d = digit_char(values.last() as int);
        lemma_digit_char(values.last() as int);
        assert(text.drop_last() =~= spaced);
        assert(spaced.drop_last() =~= render(shorter));
        assert(tokens(spaced) == tokens(render(shorter)));
        assert(text[text.len() - 2] == ' ');
        assert(tokens(text) == tokens(spaced).push(seq![d]));
        assert forall|i: int| 0 <= i < digits.len() implies tokens(text)[i]
            == #[trigger] digits[i] by {
            if i < shorter.len() {
                assert(shorter[i] == values[i]);
            }
        }
        assert(tokens(text) =~= digits);
    }
}

/// Reading a rendered grid gives the grid back: parsing undoes rendering.
pub proof fn lemma_parse_render(values: Seq<i8>)
    requires
        values.len() == 81,
        forall|i: int| 0 <= i < 81 ==> 1 <= #[trigger] values[i] <= 9,
    ensures
        parse_result(render(values)) == Ok::<Seq<Cell>, SudokuError>(
            values.map_values(|v: i8| Cell::solved(v)),
        ),
        token_values(render(values)) == values.map_values(|v: i8| Some(v)),
{
    lemma_render_tokens(values);
    let read = token_values(render(values));
    assert forall|i: int| 0 <= i < 81 implies #[trigger] read[i] == Some(values[i]) by {
        let token = seq![digit_char(values[i] as int)];
        assert(tokens(render(values))[i] == token);
        lemma_digit_char(values[i] as int);
        assert(token.drop_last() =~= Seq::<char>::empty());
        assert(digits_value(Seq::<char>::empty()) == 0);
        assert(digits_value(token) == values[i]);
    }
    assert(read =~= values.map_values(|v: i8| Some(v)));
    assert(read.map_values(|value: Option<i8>| cell_of(value)) =~= values.map_values(
        |v: i8| Cell::solved(v),
    ));
}

/// The 9x9 grid of fields.
#[derive(PartialEq, Debug)]
pub struct Board {
    fields: [[Field; 9]; 9],
}

impl View for Board {
    type V = Seq<Cell>;

    /// The 81 fields in reading order.
    closed spec fn view(&self) -> Seq<Cell> {
        Seq::new(81, |i: int| self.fields[i % 9][i / 9]@)
    }
}

/// The places that come before position `k` when the fields are listed
/// column by column, and that hold a determined field.
spec fn solved_before(grid: Seq<Cell>, k: int) -> Set<int> {
    Set::new(|i: int| 0 <= i < 81 && grid[i].is_solved() && (i % 9) * 9 + i / 9 < k)
}

impl Board {
    /// A board always has 81 fields.
    pub proof fn lemma_len(&self)
        ensures
            self@.len() == 81,
    {
    }

    /// The board of which nothing is known yet.
    pub fn new() -> (b: Board)
        ensures
            b@ == fresh_grid(),
            grid_wf(b@),
    {
        proof {
            lemma_fresh_grid();
        }
        let b = Board {
            fields: [
                Field::new9(),
                Field::new9(),
                Field::new9(),
                Field::new9(),
                Field::new9(),
                Field::new9(),
                Field::new9(),
                Field::new9(),
                Field::new9(),
            ],
        };
        assert(b@ =~= fresh_grid());
        b
    }

    /// Reads a puzzle: 81 tokens between white space, row by row.  A token
    /// that writes a number determines its field, and any other token leaves
    /// its field open.
    pub fn parse(printout: &str) -> (r: Result<Board, SudokuError>)
        ensures
            match r {
                Ok(b) => parse_result(printout@) == Ok::<Seq<Cell>, SudokuError>(b@) && grid_wf(b@),
                Err(e) => parse_result(printout@) == Err::<Seq<Cell>, SudokuError>(e),
            },
    {
        let parts = split_tokens(printout);
        if parts.len() != 81 {
            return Err(SudokuError::MalformedInput { count: parts.len() });
        }
        let ghost values = token_values(printout@);
        let mut b = Board::new();
        let mut i: usize = 0;
        while i < 81
            invariant
                i <= 81,
                parts@.len() == 81,
                token_views(parts@) == tokens(printout@),
                values == token_values(printout@),
                forall|k: int| 0 <= k < i ==> accepted(#[trigger] values[k]),
                b@ == Seq::new(
                    81,
                    |k: int|
                        if k < i {
                            cell_of(values[k])
                        } else {
                            Cell::fresh()
                        },
                ),
            decreases 81 - i,
        {
            let value = parse_number(&parts[i]);
            let ghost before = b@;
            proof {
                assert(token_views(parts@)[i as int] == parts@[i as int]@);
                assert(value == values[i as int]);
                assert(index_of(i as int % 9, i as int / 9) == i);
                lemma_all_candidates();
            }
            match value {
                Some(v) => {
                    match b.field(i % 9, i / 9).solve(v) {
                        Ok(()) => {},
                        Err(e) => {
                            proof {
                                let first = first_refused(values);
                                assert(!accepted(values[i as int]));
                                assert(first == i);
                            }
                            return Err(e);
                        },
                    }
                },
                None => {},
            }
            i = i + 1;
            assert(b@ =~= Seq::new(
                81,
                |k: int|
                    if k < i {
                        cell_of(values[k])
                    } else {
                        Cell::fresh()
                    },
            ));
        }
        assert(b@ =~= values.map_values(|value: Option<i8>| cell_of(value)));
        proof {
            lemma_all_candidates();
            assert forall|k: int| 0 <= k < 81 implies (#[trigger] b@[k]).wf() by {
                assert(accepted(values[k]));
            }
        }
        Ok(b)
    }

    /// The field in column `x` and row `y`, to read or to change.
    pub fn field(&mut self, x: usize, y: usize) -> (f: &mut Field)
        requires
            x < 9,
            y < 9,
        ensures
            (*f)@ == old(self)@[index_of(x as int, y as int)],
            final(self)@ == old(self)@.update(index_of(x as int, y as int), (*final(f))@),
    {
        proof {
            let i = index_of(x as int, y as int);
            assert(i % 9 == x && i / 9 == y);
        }
        &mut self.fields[x][y]
    }

    /// The field at place `i` in reading order, to read or to change.
    pub fn field_seq(&mut self, i: usize) -> (f: &mut Field)
        requires
            i < 81,
        ensures
            (*f)@ == old(self)@[i as int],
            final(self)@ == old(self)@.update(i as int, (*final(f))@),
    {
        &mut self.fields[i % 9][i / 9]
    }

    /// Every field with its column and its row, column by column.
    pub fn _all_fields(&self) -> (all: Vec<(usize, usize, &Field)>)
        ensures
            all@.len() == 81,
            forall|k: int|
                0 <= k < 81 ==> {
                    &&& (#[trigger] all@[k]).0 == k / 9
                    &&& all@[k].1 == k % 9
                    &&& (*all@[k].2)@ == self@[index_of(k / 9, k % 9)]
                },
    {
        let mut res: Vec<(usize, usize, &Field)> = Vec::new();
        let mut x: usize = 0;
        while x < 9
            invariant
                x <= 9,
                res@.len() == x * 9,
                forall|k: int|
                    0 <= k < res@.len() ==> {
                        &&& (#[trigger] res@[k]).0 == k / 9
                        &&& res@[k].1 == k % 9
                        &&& (*res@[k].2)@ == self@[index_of(k / 9, k % 9)]
                    },
            decreases 9 - x,
        {
            let mut y: usize = 0;
            while y < 9
                invariant
                    x < 9,
                    y <= 9,
                    res@.len() == x * 9 + y,
                    forall|k: int|
                        0 <= k < res@.len() ==> {
                            &&& (#[trigger] res@[k]).0 == k / 9
                            &&& res@[k].1 == k % 9
                            &&& (*res@[k].2)@ == self@[index_of(k / 9, k % 9)]
                        },
                decreases 9 - y,
            {
                proof {
                    let i = index_of(x as int, y as int);
                    assert(i % 9 == x && i / 9 == y);
                }
                res.push((x, y, &self.fields[x][y]));
                y = y + 1;
            }
            x = x + 1;
        }
        res
    }

    /// How many fields are determined.
    pub fn num_solved(&self) -> (n: usize)
        ensures
            n == solved_count(self@),
    {
        let all = self._all_fields();
        let mut n: usize = 0;
        let mut k: usize = 0;
        proof {
            assert(solved_before(self@, 0) =~= Set::<int>::empty());
        }
        while k < 81
            invariant
                k <= 81,
                n <= k,
                all@.len() == 81,
                forall|j: int|
                    0 <= j < 81 ==> (*(#[trigger] all@[j]).2)@ == self@[index_of(j / 9, j % 9)],
                solved_before(self@, k as int).finite(),
                n == solved_before(self@, k as int).len(),
            decreases 81 - k,
        {
            let solved = all[k].2.is_solved();
            proof {
                let here = index_of(k as int / 9, k as int % 9);
                let before = solved_before(self@, k as int);
                let after = solved_before(self@, k as int + 1);
                assert((here % 9) * 9 + here / 9 == k);
                if solved {
                    assert(after =~= before.insert(here));
                } else {
                    assert(after =~= before);
                }
            }
            if solved {
                n = n + 1;
            }
            k = k + 1;
        }
        proof {
            assert(solved_before(self@, 81) =~= solved_indices(self@));
        }
        n
    }

    /// Whether every field is determined.
    pub fn is_solved(&self) -> (solved: bool)
        ensures
            solved == (solved_count(self@) == 81),
            solved == forall|i: int| 0 <= i < 81 ==> (#[trigger] self@[i]).is_solved(),
    {
        proof {
            lemma_solved_count(self@);
        }
        self.num_solved() == 81
    }
}

} // verus!
