//! One position of the grid: the value it holds, or the candidates still open.

use vstd::prelude::*;
use vstd::std_specs::iter::IteratorSpec;
use std::collections::HashSet;
use crate::error::SudokuError;

verus! {

broadcast use vstd::std_specs::hash::group_hash_axioms;

/// The mathematical model of a field: what [`Field`] is in contracts.
pub struct Cell {
    /// The value of the field, once it is determined.
    pub value: Option<i8>,
    /// The values that have not been ruled out.
    pub candidates: Set<i8>,
}

impl Cell {
    /// The nine values a field can take.
    pub open spec fn all_candidates() -> Set<i8> {
        Set::new(|v: i8| 1 <= v <= 9)
    }

    /// A field of which nothing is known yet.
    pub open spec fn fresh() -> Cell {
        Cell { value: None, candidates: Self::all_candidates() }
    }

    /// A field that holds `v`.
    pub open spec fn solved(v: i8) -> Cell {
        Cell { value: Some(v), candidates: set![v] }
    }

    /// Whether the value of the field is known.
    pub open spec fn is_solved(self) -> bool {
        self.value is Some
    }

    /// The states a field can be in: its candidates are among 1 to 9; an
    /// undetermined field has at least two of them left; a determined field
    /// has its value as only candidate, or none at all once that value was
    /// eliminated from it.
    pub open spec fn wf(self) -> bool {
        &&& self.candidates.subset_of(Self::all_candidates())
        &&& match self.value {
            Some(v) => 1 <= v <= 9 && self.candidates.subset_of(set![v]),
            None => self.candidates.len() >= 2,
        }
    }

    /// A determined field whose value was eliminated: a contradiction.
    pub open spec fn is_exhausted(self) -> bool {
        self.value is Some && self.candidates.is_empty()
    }

    /// The field after a request to take the value `v`, and the answer to the
    /// request.
    pub open spec fn set(self, v: i8) -> (Cell, Result<(), SudokuError>) {
        match self.value {
            Some(x) => if x == v {
                (self, Ok(()))
            } else {
                (self, Err(SudokuError::Conflict { existing: x, requested: v }))
            },
            None => if self.candidates.contains(v) {
                (Cell::solved(v), Ok(()))
            } else {
                (self, Err(SudokuError::InvalidOption { value: v }))
            },
        }
    }

    /// The field after `v` is ruled out, and whether that changed it.
    pub open spec fn eliminate(self, v: i8) -> (Cell, Result<bool, SudokuError>) {
        if !self.candidates.contains(v) {
            (self, Ok(false))
        } else {
            let rest = self.candidates.remove(v);
            if rest.len() == 0 {
                (Cell { value: self.value, candidates: rest }, Err(SudokuError::Exhausted))
            } else if rest.len() == 1 {
                (Cell { value: Some(rest.choose()), candidates: rest }, Ok(true))
            } else {
                (Cell { value: self.value, candidates: rest }, Ok(true))
            }
        }
    }
}

/// The nine candidates are finitely many.
pub proof fn lemma_all_candidates()
    ensures
        Cell::all_candidates().finite(),
        Cell::all_candidates().len() == 9,
        Cell::fresh().wf(),
{
    assert(Cell::all_candidates() =~= set![1i8, 2i8, 3i8, 4i8, 5i8, 6i8, 7i8, 8i8, 9i8]);
}

/// A field never has more than nine candidates, and only a determined field
/// can have none.
pub proof fn lemma_wf_bounds(c: Cell)
    requires
        c.wf(),
    ensures
        c.candidates.finite(),
        c.candidates.len() <= 9,
        c.candidates.len() == 0 ==> c.is_exhausted(),
        c.value is Some && !c.is_exhausted() ==> c == Cell::solved(c.value->0),
{
    lemma_all_candidates();
    vstd::set_lib::lemma_set_subset_finite(Cell::all_candidates(), c.candidates);
    vstd::set_lib::lemma_len_subset(c.candidates, Cell::all_candidates());
    if c.candidates.len() == 0 {
        c.candidates.lemma_len0_is_empty();
    }
    if c.value is Some && !c.is_exhausted() {
        assert(c.candidates =~= set![c.value->0]);
    }
}

/// Taking a value keeps a field within its states.
pub proof fn lemma_set_keeps_wf(c: Cell, v: i8)
    requires
        c.wf(),
    ensures
        c.set(v).0.wf(),
{
}

/// Ruling a value out keeps a field within its states; when the last
/// candidate goes the answer is `Exhausted`, and in no other case.
pub proof fn lemma_eliminate_keeps_wf(c: Cell, v: i8)
    requires
        c.wf(),
    ensures
        c.eliminate(v).0.wf(),
        c.eliminate(v).0.candidates.subset_of(c.candidates),
        c.eliminate(v).1 is Err <==> c.candidates == set![v],
        c.eliminate(v).1 is Err <==> c.eliminate(v).0.is_exhausted() && !c.is_exhausted(),
        c.eliminate(v).1 is Err ==> c.eliminate(v).1 == Err::<bool, SudokuError>(
            SudokuError::Exhausted,
        ),
{
    lemma_wf_bounds(c);
    let rest = c.candidates.remove(v);
    if c.candidates.contains(v) {
        if rest.len() == 0 {
            rest.lemma_len0_is_empty();
            assert(c.candidates =~= set![v]);
        } else {
            assert(rest.contains(rest.choose()));
            if rest.len() == 1 {
                Set::lemma_is_singleton(rest);
                assert(rest =~= set![rest.choose()]);
            }
        }
    } else {
        if c.candidates == set![v] {
            assert(set![v].contains(v));
        }
    }
}

/// Asking a field twice for the same value: where the first request
/// succeeds the second succeeds too and changes nothing.
pub proof fn lemma_set_idempotent(c: Cell, v: i8)
    ensures
        c.set(v).1 is Ok ==> c.set(v).0.set(v) == (c.set(v).0, Ok::<(), SudokuError>(())),
        c.value == Some(v) ==> c.set(v) == (c, Ok::<(), SudokuError>(())),
{
}

/// Ruling the same value out a second time changes nothing and says so.
pub proof fn lemma_eliminate_idempotent(c: Cell, v: i8)
    ensures
        c.eliminate(v).0.eliminate(v) == (c.eliminate(v).0, Ok::<bool, SudokuError>(false)),
{
}

/// One position of the grid.
#[derive(PartialEq, Debug)]
pub struct Field {
    /// Set once the value is known.
    pub value: Option<i8>,
    /// Starts as 1 to 9 and is whittled down over time.
    pub options: HashSet<i8>,
}

impl View for Field {
    type V = Cell;

    open spec fn view(&self) -> Cell {
        Cell { value: self.value, candidates: self.options@ }
    }
}

/// What a hash set holds is finite.
proof fn lemma_options_finite(options: &HashSet<i8>)
    ensures
        options@.finite(),
{
    let keys = vstd::std_specs::hash::spec_hash_keys_iter(options).remaining().unref();
    vstd::seq_lib::seq_to_set_is_finite(keys);
    assert(keys.to_set() == options@);
}

impl Field {
    /// A field of which nothing is known yet.
    pub fn new() -> (f: Field)
        ensures
            f@ == Cell::fresh(),
    {
        let mut opts: HashSet<i8> = HashSet::new();
        let mut v: i8 = 1;
        while v < 10
            invariant
                1 <= v <= 10,
                opts@ =~= Set::new(|w: i8| 1 <= w < v),
            decreases 10 - v,
        {
            opts.insert(v);
            v = v + 1;
        }
        assert(opts@ =~= Cell::all_candidates());
        Field { value: None, options: opts }
    }

    /// Nine fresh fields: one column of an empty board.
    pub fn new9() -> (column: [Field; 9])
        ensures
            forall|i: int| 0 <= i < 9 ==> (#[trigger] column[i])@ == Cell::fresh(),
    {
        [
            Field::new(),
            Field::new(),
            Field::new(),
            Field::new(),
            Field::new(),
            Field::new(),
            Field::new(),
            Field::new(),
            Field::new(),
        ]
    }

    /// Whether the value of the field is known.
    pub fn is_solved(&self) -> (solved: bool)
        ensures
            solved == self@.is_solved(),
    {
        match self.value {
            Some(_) => true,
            None => false,
        }
    }

    /// Gives the field the value `v`.
    ///
    /// A field that holds `v` already stays as it is.  A field that holds
    /// another value answers `Conflict`, and an undetermined field from which
    /// `v` was eliminated answers `InvalidOption`; neither changes.
    pub fn set(&mut self, v: i8) -> (r: Result<(), SudokuError>)
        ensures
            final(self)@ == old(self)@.set(v).0,
            r == old(self)@.set(v).1,
            old(self)@.wf() ==> final(self)@.wf(),
    {
        match self.value {
            Some(x) => {
                if x == v {
                    Ok(())
                } else {
                    Err(SudokuError::Conflict { existing: x, requested: v })
                }
            },
            None => {
                if !self.options.contains(&v) {
                    return Err(SudokuError::InvalidOption { value: v });
                }
                self.value = Some(v);
                self.options = HashSet::new();
                self.options.insert(v);
                assert(self.options@ =~= set![v]);
                Ok(())
            },
        }
    }

    /// Gives the field the value `v`, as [`Field::set`] does.
    pub fn solve(&mut self, v: i8) -> (r: Result<(), SudokuError>)
        ensures
            final(self)@ == old(self)@.set(v).0,
            r == old(self)@.set(v).1,
            old(self)@.wf() ==> final(self)@.wf(),
    {
        self.set(v)
    }

    /// Rules `v` out as a value of the field, and says whether the field
    /// changed.
    ///
    /// When one candidate is left after that, it becomes the value of the
    /// field.  When none is left the answer is `Exhausted`.
    pub fn eliminate(&mut self, v: i8) -> (r: Result<bool, SudokuError>)
        ensures
            final(self)@ == old(self)@.eliminate(v).0,
            r == old(self)@.eliminate(v).1,
            old(self)@.wf() ==> final(self)@.wf(),
    {
        proof {
            if old(self)@.wf() {
                lemma_eliminate_keeps_wf(old(self)@, v);
            }
        }
        let res = self.options.remove(&v);
        if !res {
            assert(self.options@ =~= old(self).options@);
            return Ok(false);
        }
        let left: usize = self.options.len();
        if left == 0 {
            Err(SudokuError::Exhausted)
        } else if left == 1 {
            let x = self.last_option();
            self.value = Some(x);
            Ok(true)
        } else {
            Ok(true)
        }
    }

    /// The candidate of a field that has exactly one.
    fn last_option(&self) -> (x: i8)
        requires
            self.options@.len() == 1,
        ensures
            x == self.options@.choose(),
    {
        let mut x: i8 = 0;
        for option in it: self.options.iter()
            invariant
                it.seq().len() == 1,
                it.seq().unref().to_set() == self.options@,
                it.index() >= 1 ==> self.options@.contains(x),
        {
            proof {
                let keys = it.seq().unref();
                assert(keys[it.index()] == *option);
                assert(keys.to_set().contains(keys[it.index()]));
            }
            x = *option;
        }
        proof {
            lemma_options_finite(&self.options);
            Set::lemma_is_singleton(self.options@);
            assert(self.options@.contains(self.options@.choose()));
        }
        x
    }
}

} // verus!
