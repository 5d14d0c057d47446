//! Deduction rules, and the rule that clears rows and columns.

use vstd::prelude::*;
use crate::board::{grid_wf, index_of, Board};
use crate::error::SudokuError;
use crate::field::{lemma_eliminate_keeps_wf, lemma_wf_bounds, Cell};

verus! {

/// `after` has the size of `before`, and no field of it has a candidate that
/// the same field of `before` has not.
pub open spec fn narrows(before: Seq<Cell>, after: Seq<Cell>) -> bool {
    &&& after.len() == before.len()
    &&& forall|i: int|
        0 <= i < before.len() ==> (#[trigger] after[i]).candidates.subset_of(before[i].candidates)
}

/// Every field that is determined in `before` holds the same value in `after`.
pub open spec fn keeps_values(before: Seq<Cell>, after: Seq<Cell>) -> bool {
    forall|i: int|
        0 <= i < before.len() && before[i].value is Some ==> (#[trigger] after[i]).value
            == before[i].value
}

/// A deduction rule: it narrows a board by what follows from its present
/// state, and says whether that changed anything.
pub trait Solver {
    /// What the rule makes of a grid: the grid it leaves, and its answer.
    spec fn outcome(&self, grid: Seq<Cell>) -> (Seq<Cell>, Result<bool, SudokuError>);

    /// Applies the rule to the board once.  The answer is `Ok(true)` when a
    /// field changed, `Ok(false)` when none did, and the failure of the field
    /// at which the rule met a contradiction.
    fn apply(&self, b: &mut Board) -> (r: Result<bool, SudokuError>)
        ensures
            final(b)@ == self.outcome(old(b)@).0,
            r == self.outcome(old(b)@).1,
            narrows(old(b)@, final(b)@),
            r == Ok::<bool, SudokuError>(false) ==> final(b)@ == old(b)@,
            r == Ok::<bool, SudokuError>(true) ==> final(b)@ != old(b)@,
            grid_wf(old(b)@) ==> grid_wf(final(b)@) && keeps_values(old(b)@, final(b)@),
    ;
}

/// Two different places of the grid in one row or in one column.
pub open spec fn peers(i: int, p: int) -> bool {
    &&& 0 <= i < 81
    &&& 0 <= p < 81
    &&& i != p
    &&& (i % 9 == p % 9 || i / 9 == p / 9)
}

/// No field of `after` has as candidate the value that another field of its
/// row or of its column holds in `before`.
pub open spec fn cleared(before: Seq<Cell>, after: Seq<Cell>) -> bool {
    forall|i: int, p: int|
        #![trigger before[i], after[p]]
        peers(i, p) && before[i].value is Some ==> !after[p].candidates.contains(
            before[i].value->0,
        )
}

/// Another field of the row or of the column of place `p` holds `w`.
pub open spec fn held_by_peer(grid: Seq<Cell>, p: int, w: i8) -> bool {
    exists|i: int| #![trigger grid[i]] peers(i, p) && grid[i].value == Some(w)
}

/// Every candidate that a field has in `before` and not in `after` is the
/// value that another field of its row or of its column holds in `after`.
pub open spec fn justified(before: Seq<Cell>, after: Seq<Cell>) -> bool {
    forall|p: int, w: i8|
        0 <= p < 81 && before[p].candidates.contains(w) && !(#[trigger] after[p].candidates
            .contains(w)) ==> held_by_peer(after, p, w)
}

/// The field at place `p` lost its last candidate between `before` and
/// `after`.
pub open spec fn newly_exhausted(before: Seq<Cell>, after: Seq<Cell>, p: int) -> bool {
    0 <= p < 81 && after[p].is_exhausted() && !before[p].is_exhausted()
}

/// The candidates of all fields of a grid, counted together.
pub open spec fn weight(grid: Seq<Cell>) -> nat
    decreases grid.len(),
{
    if grid.len() == 0 {
        0
    } else {
        weight(grid.drop_last()) + grid.last().candidates.len()
    }
}

/// Some field of `before` has a candidate that it has no more in `after`.
pub open spec fn lost_candidate(before: Seq<Cell>, after: Seq<Cell>) -> bool {
    exists|p: int, w: i8|
        #![trigger after[p].candidates.contains(w)]
        0 <= p < before.len() && before[p].candidates.contains(w) && !after[p].candidates.contains(
            w,
        )
}

/// The grid after `v` is ruled out at place `i`, and the answer of that field.
pub open spec fn eliminate_at(grid: Seq<Cell>, i: int, v: i8) -> (
    Seq<Cell>,
    Result<bool, SudokuError>,
) {
    (grid.update(i, grid[i].eliminate(v).0), grid[i].eliminate(v).1)
}

/// One more elimination in a pass that has come to `state`: after a failure
/// nothing is done any more, and a change once seen stays reported.
pub open spec fn then_eliminate(state: (Seq<Cell>, Result<bool, SudokuError>), i: int, v: i8) -> (
    Seq<Cell>,
    Result<bool, SudokuError>,
) {
    match state.1 {
        Err(_) => state,
        Ok(progress) => {
            let (grid, answer) = eliminate_at(state.0, i, v);
            match answer {
                Err(e) => (grid, Err(e)),
                Ok(changed) => (grid, Ok(progress || changed)),
            }
        },
    }
}

/// The first `n` of the nine steps that clear `v`, the value of the field in
/// column `x` and row `y`, from its column and its row.  Step `j` visits the
/// field of row `j` in that column, then the field of column `j` in that
/// row, and leaves the field itself alone.
pub open spec fn sweep(
    state: (Seq<Cell>, Result<bool, SudokuError>),
    x: int,
    y: int,
    v: i8,
    n: nat,
) -> (Seq<Cell>, Result<bool, SudokuError>)
    decreases n,
{
    if n == 0 {
        state
    } else {
        let j = n - 1;
        let before = sweep(state, x, y, v, (n - 1) as nat);
        let column_done = if j != y {
            then_eliminate(before, index_of(x, j), v)
        } else {
            before
        };
        if j != x {
            then_eliminate(column_done, index_of(j, y), v)
        } else {
            column_done
        }
    }
}

/// The pass over the first `n` fields in reading order: each field that is
/// determined when the pass comes to it has its value cleared from its
/// column and its row.
pub open spec fn pass(grid: Seq<Cell>, n: nat) -> (Seq<Cell>, Result<bool, SudokuError>)
    decreases n,
{
    if n == 0 {
        (grid, Ok(false))
    } else {
        let i = n - 1;
        let before = pass(grid, (n - 1) as nat);
        match before.1 {
            Err(_) => before,
            Ok(_) => match before.0[i].value {
                None => before,
                Some(v) => sweep(before, i % 9, i / 9, v, 9),
            },
        }
    }
}

/// The grid after `n` passes over all its fields, failures passed over.
pub open spec fn after_passes(grid: Seq<Cell>, n: nat) -> Seq<Cell>
    decreases n,
{
    if n == 0 {
        grid
    } else {
        after_passes(pass(grid, 81).0, (n - 1) as nat)
    }
}

/// How a later state of a pass stands to an earlier one, whatever the grid
/// holds: the grid only narrows, a failure ends the pass, and the answer
/// tells whether a candidate went away.
pub open spec fn tracks(
    earlier: (Seq<Cell>, Result<bool, SudokuError>),
    later: (Seq<Cell>, Result<bool, SudokuError>),
) -> bool {
    &&& narrows(earlier.0, later.0)
    &&& earlier.1 is Err ==> later == earlier
    &&& later.1 == Ok::<bool, SudokuError>(false) ==> earlier.1 == later.1 && later.0 == earlier.0
    &&& earlier.1 == Ok::<bool, SudokuError>(false) && later.1 == Ok::<bool, SudokuError>(true)
        ==> lost_candidate(earlier.0, later.0)
}

proof fn lemma_tracks_trans(
    a: (Seq<Cell>, Result<bool, SudokuError>),
    b: (Seq<Cell>, Result<bool, SudokuError>),
    c: (Seq<Cell>, Result<bool, SudokuError>),
)
    requires
        tracks(a, b),
        tracks(b, c),
    ensures
        tracks(a, c),
{
    assert forall|i: int| 0 <= i < a.0.len() implies (#[trigger] c.0[i]).candidates.subset_of(
        a.0[i].candidates,
    ) by {
        assert(b.0[i].candidates.subset_of(a.0[i].candidates));
    }
    if a.1 == Ok::<bool, SudokuError>(false) && c.1 == Ok::<bool, SudokuError>(true) {
        if b.1 == Ok::<bool, SudokuError>(true) {
            let (p, w) = choose|p: int, w: i8|
                #![trigger b.0[p].candidates.contains(w)]
                0 <= p < a.0.len() && a.0[p].candidates.contains(w) && !b.0[p].candidates.contains(
                    w,
                );
            assert(c.0[p].candidates.subset_of(b.0[p].candidates));
            assert(!c.0[p].candidates.contains(w));
            assert(lost_candidate(a.0, c.0));
        } else {
            assert(b.1 is Ok);
            assert(b.1->Ok_0 == false);
        }
    }
}

proof fn lemma_then_eliminate_tracks(s: (Seq<Cell>, Result<bool, SudokuError>), i: int, v: i8)
    requires
        0 <= i < s.0.len(),
    ensures
        tracks(s, then_eliminate(s, i, v)),
{
    let t = then_eliminate(s, i, v);
    if s.1 is Ok {
        if s.0[i].candidates.contains(v) {
            assert(!t.0[i].candidates.contains(v));
        } else {
            assert(t.0 =~= s.0);
        }
    }
}

proof fn lemma_sweep_tracks(
    s: (Seq<Cell>, Result<bool, SudokuError>),
    x: int,
    y: int,
    v: i8,
    n: nat,
)
    requires
        s.0.len() == 81,
        0 <= x < 9,
        0 <= y < 9,
        n <= 9,
    ensures
        tracks(s, sweep(s, x, y, v, n)),
    decreases n,
{
    if n > 0 {
        let j = n - 1;
        let before = sweep(s, x, y, v, (n - 1) as nat);
        lemma_sweep_tracks(s, x, y, v, (n - 1) as nat);
        let column_done = if j != y {
            then_eliminate(before, index_of(x, j), v)
        } else {
            before
        };
        if j != y {
            lemma_then_eliminate_tracks(before, index_of(x, j), v);
        }
        if j != x {
            lemma_then_eliminate_tracks(column_done, index_of(j, y), v);
        }
        lemma_tracks_trans(before, column_done, sweep(s, x, y, v, n));
        lemma_tracks_trans(s, before, sweep(s, x, y, v, n));
    }
}

/// What the answer of a pass says of the grid it leaves, whatever the grid
/// held: no field has gained a candidate; after the answer that nothing
/// changed the grid is as it was, and after the answer that something
/// changed it is not.
pub proof fn lemma_pass_reports(grid: Seq<Cell>, n: nat)
    requires
        grid.len() == 81,
        n <= 81,
    ensures
        tracks((grid, Ok::<bool, SudokuError>(false)), pass(grid, n)),
        pass(grid, n).1 == Ok::<bool, SudokuError>(true) ==> pass(grid, n).0 != grid,
    decreases n,
{
    let start = (grid, Ok::<bool, SudokuError>(false));
    if n > 0 {
        let i = n - 1;
        let before = pass(grid, (n - 1) as nat);
        lemma_pass_reports(grid, (n - 1) as nat);
        if before.1 is Ok && before.0[i].value is Some {
            lemma_sweep_tracks(before, i % 9, i / 9, before.0[i].value->0, 9);
        }
        lemma_tracks_trans(start, before, pass(grid, n));
    }
}

/// How a later state of a pass over a grid of well-formed fields stands to
/// an earlier one.
spec fn advances(
    earlier: (Seq<Cell>, Result<bool, SudokuError>),
    later: (Seq<Cell>, Result<bool, SudokuError>),
) -> bool {
    &&& grid_wf(later.0)
    &&& narrows(earlier.0, later.0)
    &&& keeps_values(earlier.0, later.0)
    &&& weight(later.0) <= weight(earlier.0)
    &&& earlier.1 is Err ==> later == earlier
    &&& earlier.1 != Ok::<bool, SudokuError>(false) ==> later.1 != Ok::<bool, SudokuError>(false)
    &&& later.1 == Ok::<bool, SudokuError>(false) ==> later.0 == earlier.0
    &&& earlier.1 == Ok::<bool, SudokuError>(false) && later.1 != Ok::<bool, SudokuError>(false)
        ==> weight(later.0) < weight(earlier.0)
    &&& later.1 is Err ==> later.1 == Err::<bool, SudokuError>(SudokuError::Exhausted)
        || later.1 == earlier.1
    &&& later.1 is Ok ==> forall|p: int|
        0 <= p < 81 && (#[trigger] later.0[p]).is_exhausted() ==> earlier.0[p].is_exhausted()
    &&& earlier.1 is Ok && later.1 is Err ==> exists|p: int|
        #![trigger later.0[p]]
        newly_exhausted(earlier.0, later.0, p)
    &&& justified(earlier.0, later.0)
}

/// Replacing one field changes the weight of a grid by the difference of the
/// two fields.
proof fn lemma_weight_update(grid: Seq<Cell>, i: int, c: Cell)
    requires
        0 <= i < grid.len(),
    ensures
        weight(grid.update(i, c)) + grid[i].candidates.len() == weight(grid) + c.candidates.len(),
    decreases grid.len(),
{
    if i == grid.len() - 1 {
        assert(grid.update(i, c).drop_last() =~= grid.drop_last());
    } else {
        assert(grid.update(i, c).drop_last() =~= grid.drop_last().update(i, c));
        lemma_weight_update(grid.drop_last(), i, c);
    }
}

/// A grid weighs at most nine candidates for each field.
pub proof fn lemma_weight_bound(grid: Seq<Cell>)
    requires
        forall|i: int| 0 <= i < grid.len() ==> (#[trigger] grid[i]).wf(),
    ensures
        weight(grid) <= 9 * grid.len(),
    decreases grid.len(),
{
    if grid.len() > 0 {
        lemma_wf_bounds(grid.last());
        lemma_weight_bound(grid.drop_last());
    }
}

proof fn lemma_advances_trans(
    a: (Seq<Cell>, Result<bool, SudokuError>),
    b: (Seq<Cell>, Result<bool, SudokuError>),
    c: (Seq<Cell>, Result<bool, SudokuError>),
)
    requires
        advances(a, b),
        advances(b, c),
    ensures
        advances(a, c),
{
    assert forall|i: int| 0 <= i < a.0.len() implies (#[trigger] c.0[i]).candidates.subset_of(
        a.0[i].candidates,
    ) by {
        assert(b.0[i].candidates.subset_of(a.0[i].candidates));
    }
    assert forall|i: int|
        0 <= i < a.0.len() && a.0[i].value is Some implies (#[trigger] c.0[i]).value
        == a.0[i].value by {
        assert(b.0[i].value == a.0[i].value);
    }
    if c.1 is Ok {
        assert forall|p: int|
            0 <= p < 81 && (#[trigger] c.0[p]).is_exhausted() implies a.0[p].is_exhausted() by {
            assert(b.0[p].is_exhausted());
        }
    }
    if a.1 is Ok && c.1 is Err {
        if b.1 is Err {
            let p = choose|p: int| #![trigger b.0[p]] newly_exhausted(a.0, b.0, p);
            assert(newly_exhausted(a.0, c.0, p));
        } else {
            let p = choose|p: int| #![trigger c.0[p]] newly_exhausted(b.0, c.0, p);
            assert(b.0[p].candidates.subset_of(a.0[p].candidates));
            assert(newly_exhausted(a.0, c.0, p));
        }
    }
    assert forall|p: int, w: i8|
        0 <= p < 81 && a.0[p].candidates.contains(w) && !(#[trigger] c.0[p].candidates.contains(
            w,
        )) implies held_by_peer(c.0, p, w) by {
        if b.0[p].candidates.contains(w) {
            assert(held_by_peer(c.0, p, w));
        } else {
            assert(held_by_peer(b.0, p, w));
            let i = choose|i: int| #![trigger b.0[i]] peers(i, p) && b.0[i].value == Some(w);
            assert(c.0[i].value == Some(w));
        }
    }
}

proof fn lemma_then_eliminate_advances(s: (Seq<Cell>, Result<bool, SudokuError>), i: int, v: i8)
    requires
        grid_wf(s.0),
        0 <= i < 81,
        held_by_peer(s.0, i, v),
    ensures
        advances(s, then_eliminate(s, i, v)),
{
    let t = then_eliminate(s, i, v);
    if s.1 is Ok {
        let c = s.0[i];
        lemma_eliminate_keeps_wf(c, v);
        lemma_wf_bounds(c);
        lemma_weight_update(s.0, i, c.eliminate(v).0);
        if c.candidates.contains(v) {
            assert(c.eliminate(v).0.candidates == c.candidates.remove(v));
        } else {
            assert(t.0 =~= s.0);
        }
        assert forall|k: int| 0 <= k < 81 implies (#[trigger] t.0[k]).wf() by {
            if k != i {
                assert(t.0[k] == s.0[k]);
            }
        }
        assert forall|k: int|
            0 <= k < 81 && s.0[k].value is Some implies (#[trigger] t.0[k]).value
            == s.0[k].value by {
            if k == i && c.candidates.contains(v) {
                assert(c.candidates =~= set![v]);
            }
        }
        if t.1 is Err {
            assert(newly_exhausted(s.0, t.0, i));
        }
        let source = choose|k: int| #![trigger s.0[k]] peers(k, i) && s.0[k].value == Some(v);
        assert(t.0[source].value == Some(v));
        assert(held_by_peer(t.0, i, v));
    }
}

/// What a sweep leaves: the grid only narrows, and where the sweep did not
/// fail, the value is gone from every field it visited.
proof fn lemma_sweep(s: (Seq<Cell>, Result<bool, SudokuError>), x: int, y: int, v: i8, n: nat)
    requires
        grid_wf(s.0),
        0 <= x < 9,
        0 <= y < 9,
        n <= 9,
        s.0[index_of(x, y)].value == Some(v),
    ensures
        advances(s, sweep(s, x, y, v, n)),
        sweep(s, x, y, v, n).1 is Ok && s.1 is Ok ==> forall|k: int|
            #![trigger index_of(x, k)]
            #![trigger index_of(k, y)]
            0 <= k < n ==> {
                &&& k != y ==> !sweep(s, x, y, v, n).0[index_of(x, k)].candidates.contains(v)
                &&& k != x ==> !sweep(s, x, y, v, n).0[index_of(k, y)].candidates.contains(v)
            },
    decreases n,
{
    if n > 0 {
        let j = n - 1;
        let before = sweep(s, x, y, v, (n - 1) as nat);
        lemma_sweep(s, x, y, v, (n - 1) as nat);
        let column_done = if j != y {
            then_eliminate(before, index_of(x, j), v)
        } else {
            before
        };
        let source = index_of(x, y);
        assert(before.0[source].value == Some(v));
        if j != y {
            assert(peers(source, index_of(x, j)));
            lemma_then_eliminate_advances(before, index_of(x, j), v);
        }
        let after = sweep(s, x, y, v, n);
        assert(column_done.0[source].value == Some(v));
        if j != x {
            assert(peers(source, index_of(j, y)));
            lemma_then_eliminate_advances(column_done, index_of(j, y), v);
        }
        lemma_advances_trans(before, column_done, after);
        lemma_advances_trans(s, before, after);
        if after.1 is Ok && s.1 is Ok {
            assert forall|k: int|
                #![trigger index_of(x, k)]
                #![trigger index_of(k, y)]
                0 <= k < n implies {
                &&& k != y ==> !after.0[index_of(x, k)].candidates.contains(v)
                &&& k != x ==> !after.0[index_of(k, y)].candidates.contains(v)
            } by {
                if k != y {
                    let p = index_of(x, k);
                    assert(after.0[p].candidates.subset_of(column_done.0[p].candidates));
                    assert(column_done.0[p].candidates.subset_of(before.0[p].candidates));
                }
                if k != x {
                    let p = index_of(k, y);
                    assert(after.0[p].candidates.subset_of(column_done.0[p].candidates));
                    assert(column_done.0[p].candidates.subset_of(before.0[p].candidates));
                }
            }
        }
    }
}

/// What a pass leaves: the grid only narrows, and where the pass did not
/// fail, the value of every field that was determined at the start is gone
/// from the rest of its column and of its row.
proof fn lemma_pass(grid: Seq<Cell>, n: nat)
    requires
        grid_wf(grid),
        n <= 81,
    ensures
        advances((grid, Ok::<bool, SudokuError>(false)), pass(grid, n)),
        pass(grid, n).1 is Ok ==> forall|i: int, p: int|
            #![trigger grid[i], pass(grid, n).0[p]]
            peers(i, p) && i < n && grid[i].value is Some ==> !pass(
                grid,
                n,
            ).0[p].candidates.contains(grid[i].value->0),
    decreases n,
{
    let start = (grid, Ok::<bool, SudokuError>(false));
    if n > 0 {
        let i = n - 1;
        let before = pass(grid, (n - 1) as nat);
        let after = pass(grid, n);
        lemma_pass(grid, (n - 1) as nat);
        if before.1 is Ok && before.0[i].value is Some {
            let v = before.0[i].value->0;
            assert(index_of(i % 9, i / 9) == i);
            lemma_sweep(before, i % 9, i / 9, v, 9);
        }
        lemma_advances_trans(start, before, after);
        if after.1 is Ok {
            assert forall|a: int, p: int|
                #![trigger grid[a], after.0[p]]
                peers(a, p) && a < n && grid[a].value is Some implies !after.0[p].candidates
                    .contains(grid[a].value->0) by {
                let w = grid[a].value->0;
                assert(after.0[p].candidates.subset_of(before.0[p].candidates));
                if a < n - 1 {
                    assert(!before.0[p].candidates.contains(w));
                } else {
                    assert(before.0[a].value == grid[a].value);
                    if a % 9 == p % 9 {
                        assert(p == index_of(a % 9, p / 9));
                    } else {
                        assert(p == index_of(p % 9, a / 9));
                    }
                }
            }
        }
    }
}

/// A pass that came to a failure stays there.
proof fn lemma_sweep_stops(
    s: (Seq<Cell>, Result<bool, SudokuError>),
    x: int,
    y: int,
    v: i8,
    m: nat,
    n: nat,
)
    requires
        m <= n,
        sweep(s, x, y, v, m).1 is Err,
    ensures
        sweep(s, x, y, v, n) == sweep(s, x, y, v, m),
    decreases n,
{
    if m < n {
        lemma_sweep_stops(s, x, y, v, m, (n - 1) as nat);
    }
}

proof fn lemma_pass_stops(grid: Seq<Cell>, m: nat, n: nat)
    requires
        m <= n,
        pass(grid, m).1 is Err,
    ensures
        pass(grid, n) == pass(grid, m),
    decreases n,
{
    if m < n {
        lemma_pass_stops(grid, m, (n - 1) as nat);
    }
}

/// A failure in step `j` of the sweep from place `i` is the outcome of the
/// whole pass.
proof fn lemma_failure_ends_pass(grid: Seq<Cell>, i: nat, v: i8, j: nat)
    requires
        i < 81,
        j < 9,
        pass(grid, i).1 is Ok,
        pass(grid, i).0[i as int].value == Some(v),
        sweep(pass(grid, i), i as int % 9, i as int / 9, v, j + 1).1 is Err,
    ensures
        pass(grid, 81) == sweep(pass(grid, i), i as int % 9, i as int / 9, v, j + 1),
{
    lemma_sweep_stops(pass(grid, i), i as int % 9, i as int / 9, v, j + 1, 9);
    assert(pass(grid, i + 1) == sweep(pass(grid, i), i as int % 9, i as int / 9, v, 9));
    lemma_pass_stops(grid, i + 1, 81);
}

/// What one pass over all fields leaves of a grid.
pub proof fn lemma_pass_laws(grid: Seq<Cell>)
    requires
        grid_wf(grid),
    ensures
        grid_wf(pass(grid, 81).0),
        narrows(grid, pass(grid, 81).0),
        keeps_values(grid, pass(grid, 81).0),
        pass(grid, 81).1 == Ok::<bool, SudokuError>(false) <==> pass(grid, 81).0 == grid,
        pass(grid, 81).1 != Ok::<bool, SudokuError>(false) ==> weight(pass(grid, 81).0) < weight(
            grid,
        ),
        pass(grid, 81).1 is Err ==> pass(grid, 81).1 == Err::<bool, SudokuError>(
            SudokuError::Exhausted,
        ),
        pass(grid, 81).1 is Ok ==> cleared(grid, pass(grid, 81).0),
        pass(grid, 81).1 is Ok ==> forall|p: int|
            0 <= p < 81 && (#[trigger] pass(grid, 81).0[p]).is_exhausted()
                ==> grid[p].is_exhausted(),
        pass(grid, 81).1 is Err ==> exists|p: int|
            #![trigger pass(grid, 81).0[p]]
            newly_exhausted(grid, pass(grid, 81).0, p),
        justified(grid, pass(grid, 81).0),
{
    lemma_pass(grid, 81);
}

/// Passes repeated on a grid come to a pass that changes nothing, after no
/// more passes than the grid has candidates, which are 729 at most.  Every
/// pass before that one takes a candidate away, whether it fails or not.
pub proof fn lemma_passes_converge(grid: Seq<Cell>)
    requires
        grid_wf(grid),
    ensures
        weight(grid) <= 729,
        exists|n: nat|
            n <= weight(grid) && #[trigger] pass(after_passes(grid, n), 81) == (
                after_passes(grid, n),
                Ok::<bool, SudokuError>(false),
            ),
    decreases weight(grid),
{
    lemma_weight_bound(grid);
    lemma_pass_laws(grid);
    let next = pass(grid, 81);
    if next.1 == Ok::<bool, SudokuError>(false) {
        assert(pass(after_passes(grid, 0), 81) == (after_passes(grid, 0), next.1));
    } else {
        lemma_passes_converge(next.0);
        let m = choose|m: nat|
            m <= weight(next.0) && #[trigger] pass(after_passes(next.0, m), 81) == (
                after_passes(next.0, m),
                Ok::<bool, SudokuError>(false),
            );
        assert(after_passes(grid, m + 1) == after_passes(next.0, m));
        assert(pass(after_passes(grid, m + 1), 81) == (
            after_passes(grid, m + 1),
            Ok::<bool, SudokuError>(false),
        ));
    }
}

/// The rule that clears the value of every determined field from the other
/// fields of its row and of its column.
pub struct EliminateObviousSolver {}

impl Solver for EliminateObviousSolver {
    open spec fn outcome(&self, grid: Seq<Cell>) -> (Seq<Cell>, Result<bool, SudokuError>) {
        pass(grid, 81)
    }

    /// Goes through the fields in reading order and rules the value of each
    /// determined one out in the rest of its column and of its row.  The
    /// first field that loses its last candidate ends the pass with
    /// `Exhausted`.
    fn apply(&self, b: &mut Board) -> (r: Result<bool, SudokuError>)
        ensures
            grid_wf(old(b)@) ==> justified(old(b)@, final(b)@),
            grid_wf(old(b)@) && r != Ok::<bool, SudokuError>(false) ==> weight(final(b)@) < weight(
                old(b)@,
            ),
            grid_wf(old(b)@) && r is Ok ==> {
                &&& cleared(old(b)@, final(b)@)
                &&& forall|p: int|
                    0 <= p < 81 && (#[trigger] final(b)@[p]).is_exhausted() ==> old(
                        b,
                    )@[p].is_exhausted()
            },
            grid_wf(old(b)@) && r is Err ==> {
                &&& r == Err::<bool, SudokuError>(SudokuError::Exhausted)
                &&& exists|p: int| #![trigger final(b)@[p]] newly_exhausted(old(b)@, final(b)@, p)
            },
    {
        let ghost start = b@;
        proof {
            b.lemma_len();
            lemma_pass_reports(start, 81);
            if grid_wf(start) {
                lemma_pass_laws(start);
            }
        }
        let mut made_progress = false;
        let mut i: usize = 0;
        while i < 81
            invariant
                i <= 81,
                start == old(b)@,
                start.len() == 81,
                b@.len() == 81,
                (b@, Ok::<bool, SudokuError>(made_progress)) == pass(start, i as nat),
            decreases 81 - i,
        {
            let ghost here = b@;
            let f = b.field_seq(i);
            let value = f.value;
            assert(b@ =~= here);
            match value {
                None => {},
                Some(v) => {
                    let x: usize = i % 9;
                    let y: usize = i / 9;
                    let ghost before = pass(start, i as nat);
                    let mut j: usize = 0;
                    while j < 9
                        invariant
                            j <= 9,
                            i < 81,
                            x == i % 9,
                            y == i / 9,
                            start == old(b)@,
                start.len() == 81,
                            b@.len() == 81,
                            before == pass(start, i as nat),
                            before.1 is Ok,
                            before.0.len() == 81,
                            before.0[i as int].value == Some(v),
                            (b@, Ok::<bool, SudokuError>(made_progress)) == sweep(
                                before,
                                x as int,
                                y as int,
                                v,
                                j as nat,
                            ),
                        decreases 9 - j,
                    {
                        let ghost done = sweep(before, x as int, y as int, v, j as nat);
                        if j != y {
                            match b.field(x, j).eliminate(v) {
                                Ok(changed) => {
                                    if changed {
                                        made_progress = true;
                                    }
                                },
                                Err(e) => {
                                    proof {
                                        let failed = then_eliminate(
                                            done,
                                            index_of(x as int, j as int),
                                            v,
                                        );
                                        assert(failed == (b@, Err::<bool, SudokuError>(e)));
                                        lemma_failure_ends_pass(start, i as nat, v, j as nat);
                                        lemma_pass_reports(start, 81);
                                        if grid_wf(start) {
                                            lemma_pass_laws(start);
                                        }
                                    }
                                    return Err(e);
                                },
                            }
                        }
                        if j != x {
                            let ghost column_done = (b@, Ok::<bool, SudokuError>(made_progress));
                            match b.field(j, y).eliminate(v) {
                                Ok(changed) => {
                                    if changed {
                                        made_progress = true;
                                    }
                                },
                                Err(e) => {
                                    proof {
                                        let failed = then_eliminate(
                                            column_done,
                                            index_of(j as int, y as int),
                                            v,
                                        );
                                        assert(failed == (b@, Err::<bool, SudokuError>(e)));
                                        lemma_failure_ends_pass(start, i as nat, v, j as nat);
                                        lemma_pass_reports(start, 81);
                                        if grid_wf(start) {
                                            lemma_pass_laws(start);
                                        }
                                    }
                                    return Err(e);
                                },
                            }
                        }
                        j = j + 1;
                    }
                },
            }
            i = i + 1;
        }
        Ok(made_progress)
    }
}

} // verus!
