use crate::abox::ABox;
use crate::column::Column;
use crate::enums::{Container, Progress, SetKind, SolverError, Summary};
use crate::helpers::{
    contains_value, digit_seq, distinct_seq, inverse_vec, lemma_digits_missing_distinct,
    lemma_digits_missing_upto_contains, lemma_push_contains, lemma_remove_first_props,
    multi_intersections, remove_element,
};
use crate::line::Line;
use crate::model::{
    aboxes_recomputed, apply_entries, apply_entry, box_cell, box_entries, box_ids, box_of,
    cell_with_potentials, cells_with, cells_with_prefix, column_cell,
    column_ids, columns_recomputed, digits_with_count, digits_with_count_prefix, entries_upto,
    entry_ok, group_updated, initial_cell, initial_group, initial_table, lemma_apply_entries_wf,
    lemma_digits_with_count_digits, lemma_entries_upto_ok, lemma_group_updated_wf,
    lemma_ids_in_range, lemma_initial_table_wf, lemma_refreshed_cell_wf, lemma_table_set_square_wf,
    box_rule_step, box_unique_target, distinct_values, engine_first_firing, family_ids, family_of,
    filled_upto, first_empty,
    first_not_in, first_one_left, first_unique_pot, friend_has, lemma_box_unique_target_scan,
    lemma_first_empty_scan, lemma_first_one_left_scan, lemma_first_unique_pot_scan,
    guess_step_result, incompetent_target, lemma_incompetent_target_scan,
    lemma_qualified_target_scan, lemma_taken_of_contains, last_single_idx, line_cell, line_ids,
    lines_recomputed, one_left_step, only_one_step, pair_entry, prune_entries, pruned_grid,
    quad_entry, qualified_target, raw_candidates, refreshed_cell, refreshed_grid, rollback_step,
    snapshot_of, subset_cells, table_set_square, taken_of, triple_entry, updated_table, valid_grid,
    views_of, wf_cell, wf_grid, wf_group, wf_snap, wf_table, CellModel, PruneEntry, SnapModel,
    TableModel,
};
use crate::square::Square;
use vstd::prelude::*;

verus! {

/// A full copy of the grid's state, taken just before a speculative guess,
/// tagged with the `(square_id, value)` pair about to be tried.
#[derive(Debug, Clone, PartialEq, Eq)]
pub struct SnapShot {
    square: Vec<Square>,
    line: Vec<Line>,
    column: Vec<Column>,
    abox: Vec<ABox>,
    value: usize,
    square_id: usize,
}

impl View for SnapShot {
    type V = SnapModel;

    closed spec fn view(&self) -> SnapModel {
        SnapModel {
            square: views_of(self.square@),
            line: views_of(self.line@),
            column: views_of(self.column@),
            abox: views_of(self.abox@),
            value: self.value,
            square_id: self.square_id,
        }
    }
}

/// The whole puzzle: 81 squares, their 27 groups, the snapshot stack for
/// backtracking, and the iteration budget.
#[derive(Debug, PartialEq, Eq)]
pub struct Table {
    abox: Vec<ABox>,
    line: Vec<Line>,
    column: Vec<Column>,
    pub squares: Vec<Square>,
    snapshots: Vec<SnapShot>,
    max_attempts: i32,
    iteration: i32,
    snapshots_taken: usize,
    snapshot_rollbacks: usize,
}

impl View for Table {
    type V = TableModel;

    closed spec fn view(&self) -> TableModel {
        TableModel {
            squares: views_of(self.squares@),
            line: views_of(self.line@),
            column: views_of(self.column@),
            abox: views_of(self.abox@),
            snapshots: views_of(self.snapshots@),
            max_attempts: self.max_attempts,
            iteration: self.iteration,
            snapshots_taken: self.snapshots_taken,
            snapshot_rollbacks: self.snapshot_rollbacks,
        }
    }
}

/// The non-zero values of the listed squares, in member order.
fn collect_taken(squares: &Vec<Square>, ids: &Vec<usize>) -> (r: Vec<usize>)
    requires
        squares@.len() == 81,
        ids@.len() == 9,
        forall|k: int| 0 <= k < 9 ==> #[trigger] ids@[k] < 81,
    ensures
        r@ == taken_of(views_of(squares@), ids@),
{
    let ghost m = views_of(squares@);
    let mut r: Vec<usize> = Vec::new();
    let mut k: usize = 0;
    while k < 9
        invariant
            0 <= k <= 9,
            m == views_of(squares@),
            squares@.len() == 81,
            ids@.len() == 9,
            forall|t: int| 0 <= t < 9 ==> #[trigger] ids@[t] < 81,
            r@ == taken_of(m, ids@.take(k as int)),
        decreases 9 - k,
    {
        let id = ids[k];
        let v = squares[id].value;
        proof {
            assert(ids@.take(k + 1).drop_last() =~= ids@.take(k as int));
            assert(ids@.take(k + 1).last() == ids@[k as int]);
            assert(m[id as int].value == squares@[id as int]@.value);
        }
        if v != 0 {
            r.push(v);
        }
        k += 1;
    }
    proof {
        assert(ids@.take(9) =~= ids@);
    }
    r
}

/// The prune entries that a list of `(digits, cells)` pairs stands for.
pub open spec fn entry_views(s: Seq<(Vec<usize>, Vec<usize>)>) -> Seq<PruneEntry> {
    Seq::new(s.len(), |i: int| PruneEntry { digits: s[i].0@, cells: s[i].1@ })
}

/// The grid after the first `k` cells of one identified subset have had
/// their candidates restricted.
pub open spec fn apply_entry_upto(m: Seq<CellModel>, e: PruneEntry, k: int) -> Seq<CellModel> {
    Seq::new(
        m.len(),
        |i: int|
            if e.cells.take(k).contains(i as usize) {
                cell_with_potentials(m[i], e.digits)
            } else {
                m[i]
            },
    )
}

/// Whether every element of `a` occurs in `b`.
fn is_subset(a: &Vec<usize>, b: &Vec<usize>) -> (r: bool)
    ensures
        r == subset_cells(a@, b@),
{
    let mut k: usize = 0;
    while k < a.len()
        invariant
            0 <= k <= a@.len(),
            forall|t: int| 0 <= t < k ==> b@.contains(#[trigger] a@[t]),
        decreases a@.len() - k,
    {
        if !contains_value(b, a[k]) {
            assert(!subset_cells(a@, b@)) by {
                assert(!b@.contains(a@[k as int]));
            }
            return false;
        }
        k += 1;
    }
    true
}

/// Whether the nine listed squares hold no duplicate non-zero value.
fn group_has_distinct_values(squares: &Vec<Square>, ids: &Vec<usize>) -> (b: bool)
    requires
        squares@.len() == 81,
        wf_grid(views_of(squares@)),
        ids@.len() == 9,
        forall|k: int| 0 <= k < 9 ==> #[trigger] ids@[k] < 81,
    ensures
        b == distinct_values(views_of(squares@), ids@),
{
    let ghost m = views_of(squares@);
    let empty_taken: Vec<usize> = Vec::new();
    let mut test: Vec<usize> = inverse_vec(&empty_taken);
    proof {
        lemma_digits_missing_distinct(Seq::empty(), 9);
        assert forall|dd: usize| #[trigger] test@.contains(dd) <==> (1 <= dd <= 9 && !taken_of(
            m,
            ids@.take(0),
        ).contains(dd)) by {
            lemma_digits_missing_upto_contains(Seq::empty(), 9, dd);
            assert(ids@.take(0) =~= Seq::<usize>::empty());
        }
    }
    let mut k: usize = 0;
    while k < 9
        invariant
            0 <= k <= 9,
            m == views_of(squares@),
            squares@.len() == 81,
            wf_grid(m),
            ids@.len() == 9,
            forall|t: int| 0 <= t < 9 ==> #[trigger] ids@[t] < 81,
            distinct_seq(test@),
            forall|dd: usize|
                #[trigger] test@.contains(dd) <==> (1 <= dd <= 9 && !taken_of(
                    m,
                    ids@.take(k as int),
                ).contains(dd)),
            distinct_values(m, ids@.take(k as int)),
        decreases 9 - k,
    {
        let id = ids[k];
        let v = squares[id].value;
        let ghost prefix = ids@.take(k as int);
        let ghost taken_now = taken_of(m, prefix);
        proof {
            assert(m[id as int].value == v);
            assert(wf_cell(m[id as int], id as int));
            assert(ids@.take(k + 1).drop_last() =~= prefix);
            assert(ids@.take(k + 1).last() == ids@[k as int]);
            assert forall|t: int| 0 <= t < k + 1 implies #[trigger] ids@.take(k + 1)[t]
                == ids@[t] by {}
        }
        if v != 0 {
            let ghost pre = test@;
            let removed = remove_element(v, &mut test);
            if !removed {
                proof {
                    assert(taken_now.contains(v));
                    lemma_taken_of_contains(m, prefix, v);
                    let k1 = choose|k1: int|
                        0 <= k1 < prefix.len() && #[trigger] m[prefix[k1] as int].value == v;
                    assert(prefix[k1] == ids@[k1]);
                    assert(!distinct_values(m, ids@)) by {
                        if distinct_values(m, ids@) {
                            assert(m[ids@[k1] as int].value != m[ids@[k as int] as int].value);
                            assert(false);
                        }
                    }
                }
                return false;
            }
            proof {
                lemma_remove_first_props(pre, v);
                assert(taken_of(m, ids@.take(k + 1)) == taken_now.push(v));
                assert forall|dd: usize| #[trigger] test@.contains(dd) <==> (1 <= dd <= 9
                    && !taken_of(m, ids@.take(k + 1)).contains(dd)) by {
                    lemma_push_contains(taken_now, v, dd);
                }
                lemma_taken_of_contains(m, prefix, v);
                assert forall|k1: int, k2: int|
                    0 <= k1 < ids@.take(k + 1).len() && 0 <= k2 < ids@.take(k + 1).len() && k1 != k2
                        && #[trigger] m[ids@.take(k + 1)[k1] as int].value != 0
                        && #[trigger] m[ids@.take(k + 1)[k2] as int].value != 0 implies m[ids@.take(
                    k + 1,
                )[k1] as int].value != m[ids@.take(k + 1)[k2] as int].value by {
                    if k1 < k && k2 < k {
                        assert(prefix[k1] == ids@[k1] && prefix[k2] == ids@[k2]);
                        assert(distinct_values(m, prefix));
                    } else {
                        let other = if k1 == k as int {
                            k2
                        } else {
                            k1
                        };
                        if m[ids@[other] as int].value == v {
                            assert(prefix[other] == ids@[other]);
                            assert(taken_now.contains(v));
                            assert(false);
                        }
                    }
                }
            }
        } else {
            proof {
                assert(taken_of(m, ids@.take(k + 1)) == taken_now);
                assert forall|k1: int, k2: int|
                    0 <= k1 < ids@.take(k + 1).len() && 0 <= k2 < ids@.take(k + 1).len() && k1 != k2
                        && #[trigger] m[ids@.take(k + 1)[k1] as int].value != 0
                        && #[trigger] m[ids@.take(k + 1)[k2] as int].value != 0 implies m[ids@.take(
                    k + 1,
                )[k1] as int].value != m[ids@.take(k + 1)[k2] as int].value by {
                    if k1 < k && k2 < k {
                        assert(prefix[k1] == ids@[k1] && prefix[k2] == ids@[k2]);
                        assert(distinct_values(m, prefix));
                    }
                }
            }
        }
        k += 1;
    }
    proof {
        assert(ids@.take(9) =~= ids@);
    }
    true
}

/// A copy of one square, equal in every field.
fn copy_square(s: &Square) -> (r: Square)
    ensures
        r@ == s@,
{
    let r = Square {
        id: s.id,
        value: s.value,
        potentials: copy_values(&s.potentials),
        line_potentials: copy_values(&s.line_potentials),
        column_potentials: copy_values(&s.column_potentials),
        box_potentials: copy_values(&s.box_potentials),
        abox_id: s.abox_id,
        line_id: s.line_id,
        column_id: s.column_id,
        history: copy_values(&s.history),
    };
    proof {
        assert(r@ =~= s@);
    }
    r
}

/// A copy of the whole square vector, cell for cell.
fn copy_squares(v: &Vec<Square>) -> (r: Vec<Square>)
    ensures
        views_of(r@) == views_of(v@),
{
    let mut r: Vec<Square> = Vec::new();
    let mut k: usize = 0;
    while k < v.len()
        invariant
            0 <= k <= v@.len(),
            r@.len() == k,
            forall|t: int| 0 <= t < k ==> (#[trigger] r@[t])@ == v@[t]@,
        decreases v@.len() - k,
    {
        r.push(copy_square(&v[k]));
        k += 1;
    }
    proof {
        assert(views_of(r@) =~= views_of(v@));
    }
    r
}

/// A copy of one line, equal in every field.
fn copy_line(g: &Line) -> (r: Line)
    ensures
        r@ == g@,
{
    let r = Line {
        _id: g._id,
        _taken: copy_values(&g._taken),
        _remaining: copy_values(&g._remaining),
        _squares: copy_values(&g._squares),
    };
    proof {
        assert(r@ =~= g@);
    }
    r
}

/// A copy of the line vector.
fn copy_lines(v: &Vec<Line>) -> (r: Vec<Line>)
    ensures
        views_of(r@) == views_of(v@),
{
    let mut r: Vec<Line> = Vec::new();
    let mut k: usize = 0;
    while k < v.len()
        invariant
            0 <= k <= v@.len(),
            r@.len() == k,
            forall|t: int| 0 <= t < k ==> (#[trigger] r@[t])@ == v@[t]@,
        decreases v@.len() - k,
    {
        r.push(copy_line(&v[k]));
        k += 1;
    }
    proof {
        assert(views_of(r@) =~= views_of(v@));
    }
    r
}

/// A copy of one column, equal in every field.
fn copy_column(g: &Column) -> (r: Column)
    ensures
        r@ == g@,
{
    let r = Column {
        _id: g._id,
        _taken: copy_values(&g._taken),
        _remaining: copy_values(&g._remaining),
        _squares: copy_values(&g._squares),
    };
    proof {
        assert(r@ =~= g@);
    }
    r
}

/// A copy of the column vector.
fn copy_columns(v: &Vec<Column>) -> (r: Vec<Column>)
    ensures
        views_of(r@) == views_of(v@),
{
    let mut r: Vec<Column> = Vec::new();
    let mut k: usize = 0;
    while k < v.len()
        invariant
            0 <= k <= v@.len(),
            r@.len() == k,
            forall|t: int| 0 <= t < k ==> (#[trigger] r@[t])@ == v@[t]@,
        decreases v@.len() - k,
    {
        r.push(copy_column(&v[k]));
        k += 1;
    }
    proof {
        assert(views_of(r@) =~= views_of(v@));
    }
    r
}

/// A copy of one box, equal in every field.
fn copy_abox(g: &ABox) -> (r: ABox)
    ensures
        r@ == g@,
{
    let r = ABox {
        _id: g._id,
        _taken: copy_values(&g._taken),
        _remaining: copy_values(&g._remaining),
        _squares: copy_values(&g._squares),
    };
    proof {
        assert(r@ =~= g@);
    }
    r
}

/// A copy of the box vector.
fn copy_aboxes(v: &Vec<ABox>) -> (r: Vec<ABox>)
    ensures
        views_of(r@) == views_of(v@),
{
    let mut r: Vec<ABox> = Vec::new();
    let mut k: usize = 0;
    while k < v.len()
        invariant
            0 <= k <= v@.len(),
            r@.len() == k,
            forall|t: int| 0 <= t < k ==> (#[trigger] r@[t])@ == v@[t]@,
        decreases v@.len() - k,
    {
        r.push(copy_abox(&v[k]));
        k += 1;
    }
    proof {
        assert(views_of(r@) =~= views_of(v@));
    }
    r
}

/// A copy of a list of values.
fn copy_values(v: &Vec<usize>) -> (r: Vec<usize>)
    ensures
        r@ == v@,
{
    let mut r: Vec<usize> = Vec::new();
    let mut k: usize = 0;
    while k < v.len()
        invariant
            0 <= k <= v@.len(),
            r@ == v@.take(k as int),
        decreases v@.len() - k,
    {
        r.push(v[k]);
        proof {
            assert(r@ =~= v@.take(k + 1));
        }
        k += 1;
    }
    proof {
        assert(r@ =~= v@);
    }
    r
}

impl Table {
    /// Build the grid from an 81-value configuration (`0` meaning blank) and
    /// an iteration budget.  Squares and groups are wired by position
    /// arithmetic and never change membership afterwards.
    pub fn new(configuration: Vec<usize>, max_attempts: i32) -> (r: Table)
        requires
            configuration@.len() == 81,
            forall|i: int| 0 <= i < 81 ==> #[trigger] configuration@[i] <= 9,
        ensures
            r@ == initial_table(configuration@, max_attempts),
            wf_table(r@),
    {
        let mut s: Vec<Square> = Vec::new();
        let mut index: usize = 0;
        while index < 81
            invariant
                0 <= index <= 81,
                configuration@.len() == 81,
                s@.len() == index,
                forall|t: int|
                    0 <= t < index ==> (#[trigger] s@[t])@ == initial_cell(configuration@, t),
            decreases 81 - index,
        {
            let sq = Square {
                id: index,
                value: configuration[index],
                potentials: Vec::new(),
                line_potentials: Vec::new(),
                column_potentials: Vec::new(),
                box_potentials: Vec::new(),
                abox_id: (index / 27) * 3 + (index % 9) / 3,
                line_id: index / 9,
                column_id: index % 9,
                history: Vec::new(),
            };
            proof {
                assert(sq@ =~= initial_cell(configuration@, index as int));
            }
            s.push(sq);
            index += 1;
        }

        let mut l: Vec<Line> = Vec::new();
        let mut j: usize = 0;
        while j < 9
            invariant
                0 <= j <= 9,
                l@.len() == j,
                forall|t: int| 0 <= t < j ==> (#[trigger] l@[t])@ == initial_group(t, line_ids(t)),
            decreases 9 - j,
        {
            let mut ids: Vec<usize> = Vec::new();
            let mut k: usize = 0;
            while k < 9
                invariant
                    0 <= k <= 9,
                    j < 9,
                    ids@.len() == k,
                    forall|t: int| 0 <= t < k ==> #[trigger] ids@[t] == line_cell(j as int, t),
                decreases 9 - k,
            {
                ids.push(9 * j + k);
                k += 1;
            }
            proof {
                assert(ids@ =~= line_ids(j as int));
            }
            l.push(Line::new(j, ids));
            j += 1;
        }

        let mut c: Vec<Column> = Vec::new();
        let mut j: usize = 0;
        while j < 9
            invariant
                0 <= j <= 9,
                c@.len() == j,
                forall|t: int|
                    0 <= t < j ==> (#[trigger] c@[t])@ == initial_group(t, column_ids(t)),
            decreases 9 - j,
        {
            let mut ids: Vec<usize> = Vec::new();
            let mut k: usize = 0;
            while k < 9
                invariant
                    0 <= k <= 9,
                    j < 9,
                    ids@.len() == k,
                    forall|t: int| 0 <= t < k ==> #[trigger] ids@[t] == column_cell(j as int, t),
                decreases 9 - k,
            {
                ids.push(j + 9 * k);
                k += 1;
            }
            proof {
                assert(ids@ =~= column_ids(j as int));
            }
            c.push(Column::new(j, ids));
            j += 1;
        }

        let mut a: Vec<ABox> = Vec::new();
        let mut j: usize = 0;
        while j < 9
            invariant
                0 <= j <= 9,
                a@.len() == j,
                forall|t: int| 0 <= t < j ==> (#[trigger] a@[t])@ == initial_group(t, box_ids(t)),
            decreases 9 - j,
        {
            let mut ids: Vec<usize> = Vec::new();
            let mut k: usize = 0;
            while k < 9
                invariant
                    0 <= k <= 9,
                    j < 9,
                    ids@.len() == k,
                    forall|t: int| 0 <= t < k ==> #[trigger] ids@[t] == box_cell(j as int, t),
                decreases 9 - k,
            {
                ids.push(27 * (j / 3) + 3 * (j % 3) + 9 * (k / 3) + k % 3);
                k += 1;
            }
            proof {
                assert(ids@ =~= box_ids(j as int));
            }
            a.push(ABox::new(j, ids));
            j += 1;
        }

        let r = Table {
            abox: a,
            line: l,
            column: c,
            squares: s,
            snapshots: Vec::new(),
            snapshots_taken: 0,
            max_attempts,
            iteration: 0,
            snapshot_rollbacks: 0,
        };
        proof {
            let want = initial_table(configuration@, max_attempts);
            assert(views_of(r.squares@) =~= want.squares);
            assert(views_of(r.line@) =~= want.line);
            assert(views_of(r.column@) =~= want.column);
            assert(views_of(r.abox@) =~= want.abox);
            assert(views_of(r.snapshots@) =~= want.snapshots);
            assert(r@ =~= want);
            lemma_initial_table_wf(configuration@, max_attempts);
        }
        r
    }

    /// Shared reference to the box with the given id.
    fn get_abox(&self, _id: usize) -> (r: Result<&ABox, SolverError>)
        ensures
            _id < self@.abox.len() ==> (r matches Ok(g) && g@ == self@.abox[_id as int]),
            _id >= self@.abox.len() ==> r == Err::<&ABox, SolverError>(SolverError::NoSuchBox(_id)),
    {
        if _id < self.abox.len() {
            Ok(&self.abox[_id])
        } else {
            Err(SolverError::NoSuchBox(_id))
        }
    }

    /// Shared reference to the square with the given id.
    fn get_square(&self, _id: usize) -> (r: Result<&Square, SolverError>)
        ensures
            _id < self@.squares.len() ==> (r matches Ok(s) && s@ == self@.squares[_id as int]),
            _id >= self@.squares.len() ==> r == Err::<&Square, SolverError>(
                SolverError::NoSuchSquare(_id),
            ),
    {
        if _id < self.squares.len() {
            Ok(&self.squares[_id])
        } else {
            Err(SolverError::NoSuchSquare(_id))
        }
    }

    /// Exclusive reference to the square with the given id.
    fn get_square_mut(&mut self, _id: usize) -> (r: &mut Square)
        requires
            _id < old(self)@.squares.len(),
        ensures
            *r == old(self).squares@[_id as int],
            final(self).squares@ == old(self).squares@.update(_id as int, *final(r)),
            final(self).line@ == old(self).line@,
            final(self).column@ == old(self).column@,
            final(self).abox@ == old(self).abox@,
            final(self).snapshots@ == old(self).snapshots@,
            final(self).max_attempts == old(self).max_attempts,
            final(self).iteration == old(self).iteration,
            final(self).snapshots_taken == old(self).snapshots_taken,
            final(self).snapshot_rollbacks == old(self).snapshot_rollbacks,
    {
        &mut self.squares[_id]
    }

    /// Update every line's `taken`/`remaining` digit sets from the squares.
    pub fn update_line(&mut self) -> (r: Result<(), SolverError>)
        requires
            wf_table(old(self)@),
        ensures
            r == Ok::<(), SolverError>(()),
            final(self)@ == lines_recomputed(old(self)@),
            wf_table(final(self)@),
    {
        let ghost orig = self@;
        let mut j: usize = 0;
        while j < 9
            invariant
                0 <= j <= 9,
                wf_table(orig),
                views_of(self.squares@) == orig.squares,
                views_of(self.column@) == orig.column,
                views_of(self.abox@) == orig.abox,
                views_of(self.snapshots@) == orig.snapshots,
                self.max_attempts == orig.max_attempts,
                self.iteration == orig.iteration,
                self.snapshots_taken == orig.snapshots_taken,
                self.snapshot_rollbacks == orig.snapshot_rollbacks,
                self.line@.len() == 9,
                forall|t: int|
                    0 <= t < 9 ==> (#[trigger] self.line@[t])@ == if t < j {
                        group_updated(orig.line[t], orig.squares, line_ids(t))
                    } else {
                        orig.line[t]
                    },
            decreases 9 - j,
        {
            proof {
                assert(wf_group(orig.line[j as int], j as int, line_ids(j as int)));
                lemma_ids_in_range(j as int);
            }
            let ids = self.line[j].get_square_ids();
            let t = collect_taken(&self.squares, &ids);
            let rem = inverse_vec(&t);
            let g = &mut self.line[j];
            g._remaining = rem;
            g._taken = t;
            proof {
                assert(self.line@[j as int]@ =~= group_updated(
                    orig.line[j as int],
                    orig.squares,
                    line_ids(j as int),
                ));
            }
            j += 1;
        }
        proof {
            assert(views_of(self.line@) =~= lines_recomputed(orig).line);
            assert(self@ =~= lines_recomputed(orig));
            assert forall|t: int| 0 <= t < 9 implies wf_group(
                #[trigger] self@.line[t],
                t,
                line_ids(t),
            ) by {
                lemma_ids_in_range(t);
                lemma_group_updated_wf(orig.line[t], orig.squares, t, line_ids(t));
            }
        }
        Ok(())
    }

    /// Update every column's `taken`/`remaining` digit sets from the squares.
    pub fn update_column(&mut self) -> (r: Result<(), SolverError>)
        requires
            wf_table(old(self)@),
        ensures
            r == Ok::<(), SolverError>(()),
            final(self)@ == columns_recomputed(old(self)@),
            wf_table(final(self)@),
    {
        let ghost orig = self@;
        let mut j: usize = 0;
        while j < 9
            invariant
                0 <= j <= 9,
                wf_table(orig),
                views_of(self.squares@) == orig.squares,
                views_of(self.line@) == orig.line,
                views_of(self.abox@) == orig.abox,
                views_of(self.snapshots@) == orig.snapshots,
                self.max_attempts == orig.max_attempts,
                self.iteration == orig.iteration,
                self.snapshots_taken == orig.snapshots_taken,
                self.snapshot_rollbacks == orig.snapshot_rollbacks,
                self.column@.len() == 9,
                forall|t: int|
                    0 <= t < 9 ==> (#[trigger] self.column@[t])@ == if t < j {
                        group_updated(orig.column[t], orig.squares, column_ids(t))
                    } else {
                        orig.column[t]
                    },
            decreases 9 - j,
        {
            proof {
                assert(wf_group(orig.column[j as int], j as int, column_ids(j as int)));
                lemma_ids_in_range(j as int);
            }
            let ids = self.column[j].get_square_ids();
            let t = collect_taken(&self.squares, &ids);
            let rem = inverse_vec(&t);
            let g = &mut self.column[j];
            g._remaining = rem;
            g._taken = t;
            proof {
                assert(self.column@[j as int]@ =~= group_updated(
                    orig.column[j as int],
                    orig.squares,
                    column_ids(j as int),
                ));
            }
            j += 1;
        }
        proof {
            assert(views_of(self.column@) =~= columns_recomputed(orig).column);
            assert(self@ =~= columns_recomputed(orig));
            assert forall|t: int| 0 <= t < 9 implies wf_group(
                #[trigger] self@.column[t],
                t,
                column_ids(t),
            ) by {
                lemma_ids_in_range(t);
                lemma_group_updated_wf(orig.column[t], orig.squares, t, column_ids(t));
            }
        }
        Ok(())
    }

    /// Update every box's `taken`/`remaining` digit sets from the squares.
    pub fn update_abox(&mut self) -> (r: Result<(), SolverError>)
        requires
            wf_table(old(self)@),
        ensures
            r == Ok::<(), SolverError>(()),
            final(self)@ == aboxes_recomputed(old(self)@),
            wf_table(final(self)@),
    {
        let ghost orig = self@;
        let mut j: usize = 0;
        while j < 9
            invariant
                0 <= j <= 9,
                wf_table(orig),
                views_of(self.squares@) == orig.squares,
                views_of(self.line@) == orig.line,
                views_of(self.column@) == orig.column,
                views_of(self.snapshots@) == orig.snapshots,
                self.max_attempts == orig.max_attempts,
                self.iteration == orig.iteration,
                self.snapshots_taken == orig.snapshots_taken,
                self.snapshot_rollbacks == orig.snapshot_rollbacks,
                self.abox@.len() == 9,
                forall|t: int|
                    0 <= t < 9 ==> (#[trigger] self.abox@[t])@ == if t < j {
                        group_updated(orig.abox[t], orig.squares, box_ids(t))
                    } else {
                        orig.abox[t]
                    },
            decreases 9 - j,
        {
            proof {
                assert(wf_group(orig.abox[j as int], j as int, box_ids(j as int)));
                lemma_ids_in_range(j as int);
            }
            let ids = self.abox[j].get_square_ids();
            let t = collect_taken(&self.squares, &ids);
            let rem = inverse_vec(&t);
            let g = &mut self.abox[j];
            g._remaining = rem;
            g._taken = t;
            proof {
                assert(self.abox@[j as int]@ =~= group_updated(
                    orig.abox[j as int],
                    orig.squares,
                    box_ids(j as int),
                ));
            }
            j += 1;
        }
        proof {
            assert(views_of(self.abox@) =~= aboxes_recomputed(orig).abox);
            assert(self@ =~= aboxes_recomputed(orig));
            assert forall|t: int| 0 <= t < 9 implies wf_group(
                #[trigger] self@.abox[t],
                t,
                box_ids(t),
            ) by {
                lemma_ids_in_range(t);
                lemma_group_updated_wf(orig.abox[t], orig.squares, t, box_ids(t));
            }
        }
        Ok(())
    }

    /// Recompute every square's per-axis candidate lists from its groups'
    /// digit sets and, for each empty square, reset its candidate list to
    /// their ordered intersection.
    fn update_square_potentials(&mut self) -> (r: Result<(), SolverError>)
        requires
            wf_table(old(self)@),
        ensures
            r == Ok::<(), SolverError>(()),
            final(self)@ == (TableModel { squares: refreshed_grid(old(self)@), ..old(self)@ }),
            wf_table(final(self)@),
    {
        let ghost orig = self@;
        let mut i: usize = 0;
        while i < 81
            invariant
                0 <= i <= 81,
                wf_table(orig),
                views_of(self.line@) == orig.line,
                views_of(self.column@) == orig.column,
                views_of(self.abox@) == orig.abox,
                views_of(self.snapshots@) == orig.snapshots,
                self.max_attempts == orig.max_attempts,
                self.iteration == orig.iteration,
                self.snapshots_taken == orig.snapshots_taken,
                self.snapshot_rollbacks == orig.snapshot_rollbacks,
                self.squares@.len() == 81,
                forall|t: int|
                    0 <= t < 81 ==> (#[trigger] self.squares@[t])@ == if t < i {
                        refreshed_cell(orig, t)
                    } else {
                        orig.squares[t]
                    },
            decreases 81 - i,
        {
            proof {
                assert(wf_cell(orig.squares[i as int], i as int));
                crate::model::lemma_box_of_range(i as int);
            }
            if self.squares[i].value == 0 {
                let line_id = self.squares[i].line_id;
                let column_id = self.squares[i].column_id;
                let abox_id = self.squares[i].abox_id;
                let lp = inverse_vec(&self.line[line_id]._taken);
                let cp = inverse_vec(&self.column[column_id]._taken);
                let bp = inverse_vec(&self.abox[abox_id]._taken);
                let mut lists: Vec<Vec<usize>> = Vec::new();
                lists.push(copy_values(&bp));
                lists.push(copy_values(&lp));
                lists.push(copy_values(&cp));
                proof {
                    assert(lists@[0]@ == bp@ && lists@[1]@ == lp@ && lists@[2]@ == cp@);
                }
                let pots = multi_intersections(lists);
                let sq = &mut self.squares[i];
                sq.update(Container::LINE, lp);
                sq.update(Container::COLUMN, cp);
                sq.update(Container::ABOX, bp);
                sq.set_potentials(pots);
            } else {
                let sq = &mut self.squares[i];
                sq.update(Container::LINE, Vec::new());
                sq.update(Container::COLUMN, Vec::new());
                sq.update(Container::ABOX, Vec::new());
            }
            proof {
                assert(self.squares@[i as int]@ =~= refreshed_cell(orig, i as int));
            }
            i += 1;
        }
        proof {
            assert(views_of(self.squares@) =~= refreshed_grid(orig));
            assert(self@ =~= (TableModel { squares: refreshed_grid(orig), ..orig }));
            assert forall|t: int| 0 <= t < 81 implies wf_cell(#[trigger] self@.squares[t], t) by {
                lemma_refreshed_cell_wf(orig, t);
            }
        }
        Ok(())
    }

    /// Identify naked subsets within each box — `n` digits that only the
    /// same `n` cells can hold, for `n` of 2, 3 or 4 — and restrict those
    /// cells' candidate lists to exactly those digits.  No value is
    /// assigned: candidate lists only shrink.
    fn update_box_remove_potentials(&mut self) -> (r: Result<(), SolverError>)
        requires
            wf_table(old(self)@),
        ensures
            r == Ok::<(), SolverError>(()),
            final(self)@ == (TableModel {
                squares: pruned_grid(old(self)@.squares),
                ..old(self)@
            }),
            wf_table(final(self)@),
    {
        let ghost orig = self@;
        let ghost m = orig.squares;
        let mut identified: Vec<(Vec<usize>, Vec<usize>)> = Vec::new();
        let mut b: usize = 0;
        while b < 9
            invariant
                0 <= b <= 9,
                wf_table(orig),
                self@ == orig,
                m == orig.squares,
                entry_views(identified@) == entries_upto(m, b as int),
            decreases 9 - b,
        {
            let mut cells_by_digit: Vec<Vec<usize>> = Vec::new();
            let mut d: usize = 1;
            while d <= 9
                invariant
                    1 <= d <= 10,
                    b < 9,
                    wf_table(orig),
                    self@ == orig,
                    m == orig.squares,
                    cells_by_digit@.len() == d - 1,
                    forall|t: int|
                        0 <= t < d - 1 ==> (#[trigger] cells_by_digit@[t])@ == cells_with(
                            m,
                            b as int,
                            (t + 1) as usize,
                        ),
                decreases 10 - d,
            {
                let mut cells: Vec<usize> = Vec::new();
                let mut k: usize = 0;
                while k < 9
                    invariant
                        0 <= k <= 9,
                        1 <= d <= 9,
                        b < 9,
                        wf_table(orig),
                        self@ == orig,
                        m == orig.squares,
                        cells@ == cells_with_prefix(m, b as int, d, k as int),
                    decreases 9 - k,
                {
                    proof {
                        assert(wf_group(orig.abox[b as int], b as int, box_ids(b as int)));
                        lemma_ids_in_range(b as int);
                        assert(self.abox@[b as int]@.squares[k as int] == box_ids(b as int)[k as int]);
                    }
                    let id = self.abox[b]._squares[k];
                    proof {
                        assert(id == box_cell(b as int, k as int));
                        assert(id < 81);
                        assert(self.squares@[id as int]@ == m[id as int]);
                    }
                    let sq = match self.get_square(id) {
                        Ok(s) => s,
                        Err(e) => {
                            return Err(e);
                        },
                    };
                    if contains_value(&sq.potentials, d) {
                        cells.push(id);
                    }
                    k += 1;
                }
                cells_by_digit.push(cells);
                d += 1;
            }

            let mut p2: Vec<usize> = Vec::new();
            let mut p3: Vec<usize> = Vec::new();
            let mut p4: Vec<usize> = Vec::new();
            let mut d: usize = 1;
            while d <= 9
                invariant
                    1 <= d <= 10,
                    b < 9,
                    m == orig.squares,
                    cells_by_digit@.len() == 9,
                    forall|t: int|
                        0 <= t < 9 ==> (#[trigger] cells_by_digit@[t])@ == cells_with(
                            m,
                            b as int,
                            (t + 1) as usize,
                        ),
                    p2@ == digits_with_count_prefix(m, b as int, 2, d - 1),
                    p3@ == digits_with_count_prefix(m, b as int, 3, d - 1),
                    p4@ == digits_with_count_prefix(m, b as int, 4, d - 1),
                decreases 10 - d,
            {
                let len = cells_by_digit[d - 1].len();
                proof {
                    assert(cells_by_digit@[d - 1]@ == cells_with(m, b as int, d));
                }
                if len == 2 {
                    p2.push(d);
                }
                if len == 3 {
                    p3.push(d);
                }
                if len == 4 {
                    p4.push(d);
                }
                d += 1;
            }
            proof {
                assert(p2@ == digits_with_count(m, b as int, 2));
                assert(p3@ == digits_with_count(m, b as int, 3));
                assert(p4@ == digits_with_count(m, b as int, 4));
                lemma_digits_with_count_digits(m, b as int, 2, 9);
                lemma_digits_with_count_digits(m, b as int, 3, 9);
                lemma_digits_with_count_digits(m, b as int, 4, 9);
            }

            let ghost pre_entries = entry_views(identified@);
            if p2.len() == 2 {
                let d1 = p2[0];
                let d2 = p2[1];
                let c1 = copy_values(&cells_by_digit[d1 - 1]);
                if is_subset(&c1, &cells_by_digit[d2 - 1]) {
                    identified.push((copy_values(&p2), c1));
                    proof {
                        let e = PruneEntry {
                            digits: p2@,
                            cells: cells_with(m, b as int, p2@[0]),
                        };
                        assert(pair_entry(m, b as int) == Some(e));
                        assert(entry_views(identified@) =~= pre_entries.push(e));
                    }
                }
            }
            proof {
                assert(entry_views(identified@) =~= pre_entries + (match pair_entry(m, b as int) {
                    Some(e) => seq![e],
                    None => Seq::<PruneEntry>::empty(),
                }));
            }
            let ghost after_pair = entry_views(identified@);
            if p3.len() == 3 {
                let d1 = p3[0];
                let d2 = p3[1];
                let d3 = p3[2];
                let c1 = copy_values(&cells_by_digit[d1 - 1]);
                let sub2 = is_subset(&c1, &cells_by_digit[d2 - 1]);
                let sub3 = is_subset(&c1, &cells_by_digit[d3 - 1]);
                if sub2 && sub3 {
                    identified.push((copy_values(&p3), c1));
                    proof {
                        let e = PruneEntry {
                            digits: p3@,
                            cells: cells_with(m, b as int, p3@[0]),
                        };
                        assert(triple_entry(m, b as int) == Some(e));
                        assert(entry_views(identified@) =~= after_pair.push(e));
                    }
                }
            }
            proof {
                assert(entry_views(identified@) =~= after_pair + (match triple_entry(
                    m,
                    b as int,
                ) {
                    Some(e) => seq![e],
                    None => Seq::<PruneEntry>::empty(),
                }));
            }
            let ghost after_triple = entry_views(identified@);
            if p4.len() >= 4 {
                let d1 = p4[0];
                let d2 = p4[1];
                let d3 = p4[2];
                let d4 = p4[3];
                let c1 = copy_values(&cells_by_digit[d1 - 1]);
                let sub2 = is_subset(&c1, &cells_by_digit[d2 - 1]);
                let sub3 = is_subset(&c1, &cells_by_digit[d3 - 1]);
                let sub4 = is_subset(&c1, &cells_by_digit[d4 - 1]);
                if sub2 && sub3 && sub4 {
                    let mut ds: Vec<usize> = Vec::new();
                    ds.push(d1);
                    ds.push(d2);
                    ds.push(d3);
                    ds.push(d4);
                    proof {
                        assert(ds@ =~= p4@.take(4));
                    }
                    identified.push((ds, c1));
                    proof {
                        let e = PruneEntry {
                            digits: p4@.take(4),
                            cells: cells_with(m, b as int, p4@[0]),
                        };
                        assert(quad_entry(m, b as int) == Some(e));
                        assert(entry_views(identified@) =~= after_triple.push(e));
                    }
                }
            }
            proof {
                assert(entry_views(identified@) =~= after_triple + (match quad_entry(
                    m,
                    b as int,
                ) {
                    Some(e) => seq![e],
                    None => Seq::<PruneEntry>::empty(),
                }));
                assert(entry_views(identified@) =~= entries_upto(m, b as int) + box_entries(
                    m,
                    b as int,
                ));
                assert(entries_upto(m, b + 1) == entries_upto(m, b as int) + box_entries(
                    m,
                    b as int,
                ));
            }
            b += 1;
        }

        let ghost entries = prune_entries(m);
        proof {
            assert(entry_views(identified@) == entries);
            lemma_entries_upto_ok(m, 9);
            assert(entries.take(0) =~= Seq::<PruneEntry>::empty());
        }
        let mut n: usize = 0;
        while n < identified.len()
            invariant
                0 <= n <= identified@.len(),
                wf_table(orig),
                m == orig.squares,
                entry_views(identified@) == entries,
                entries == prune_entries(m),
                forall|t: int| 0 <= t < entries.len() ==> entry_ok(m, #[trigger] entries[t]),
                self.squares@.len() == 81,
                views_of(self.squares@) == apply_entries(m, entries.take(n as int)),
                views_of(self.line@) == orig.line,
                views_of(self.column@) == orig.column,
                views_of(self.abox@) == orig.abox,
                views_of(self.snapshots@) == orig.snapshots,
                self.max_attempts == orig.max_attempts,
                self.iteration == orig.iteration,
                self.snapshots_taken == orig.snapshots_taken,
                self.snapshot_rollbacks == orig.snapshot_rollbacks,
            decreases identified@.len() - n,
        {
            let ghost applied = apply_entries(m, entries.take(n as int));
            let ghost e = entries[n as int];
            proof {
                assert(e == entry_views(identified@)[n as int]);
                assert(identified@[n as int].0@ == e.digits);
                assert(identified@[n as int].1@ == e.cells);
                assert(e.cells.take(0) =~= Seq::<usize>::empty());
                assert(views_of(self.squares@) =~= apply_entry_upto(applied, e, 0));
            }
            let num_cells = identified[n].1.len();
            let mut k: usize = 0;
            while k < num_cells
                invariant
                    0 <= k <= num_cells,
                    n < identified@.len(),
                    num_cells == e.cells.len(),
                    e == entries[n as int],
                    entry_ok(m, e),
                    identified@[n as int].0@ == e.digits,
                    identified@[n as int].1@ == e.cells,
                    self.squares@.len() == 81,
                    applied.len() == 81,
                    views_of(self.squares@) == apply_entry_upto(applied, e, k as int),
                    views_of(self.line@) == orig.line,
                    views_of(self.column@) == orig.column,
                    views_of(self.abox@) == orig.abox,
                    views_of(self.snapshots@) == orig.snapshots,
                    self.max_attempts == orig.max_attempts,
                    self.iteration == orig.iteration,
                    self.snapshots_taken == orig.snapshots_taken,
                    self.snapshot_rollbacks == orig.snapshot_rollbacks,
                decreases num_cells - k,
            {
                let c = identified[n].1[k];
                proof {
                    assert(c == e.cells[k as int]);
                    assert(c < 81);
                }
                let digits = copy_values(&identified[n].0);
                let ghost before = views_of(self.squares@);
                let sq = &mut self.squares[c];
                sq.set_potentials(digits);
                proof {
                    assert(views_of(self.squares@) =~= before.update(
                        c as int,
                        cell_with_potentials(before[c as int], e.digits),
                    ));
                    assert(e.cells.take(k + 1) =~= e.cells.take(k as int).push(e.cells[k as int]));
                    assert forall|i: int| 0 <= i < 81 implies views_of(self.squares@)[i]
                        == apply_entry_upto(applied, e, k + 1)[i] by {
                        lemma_push_contains(e.cells.take(k as int), e.cells[k as int], i as usize);
                        if i == c {
                            assert(cell_with_potentials(before[c as int], e.digits)
                                =~= cell_with_potentials(applied[c as int], e.digits));
                        }
                    }
                    assert(views_of(self.squares@) =~= apply_entry_upto(applied, e, k + 1));
                }
                k += 1;
            }
            proof {
                assert(e.cells.take(e.cells.len() as int) =~= e.cells);
                assert(apply_entry_upto(applied, e, e.cells.len() as int) =~= apply_entry(
                    applied,
                    e,
                ));
                assert(entries.take(n + 1).drop_last() =~= entries.take(n as int));
                assert(entries.take(n + 1).last() == e);
                assert(views_of(self.squares@) == apply_entries(m, entries.take(n + 1)));
            }
            n += 1;
        }
        proof {
            assert(entries.take(identified@.len() as int) =~= entries);
            assert(views_of(self.squares@) == pruned_grid(m));
            assert(self@ =~= (TableModel { squares: pruned_grid(m), ..orig }));
            lemma_apply_entries_wf(m, entries);
        }
        Ok(())
    }

    /// A full copy of the current grid state, not yet tagged with a guess.
    fn prepare_snapshot(&self) -> (s: SnapShot)
        ensures
            s@ == snapshot_of(self@, 99, 99),
    {
        let s = SnapShot {
            square: copy_squares(&self.squares),
            line: copy_lines(&self.line),
            column: copy_columns(&self.column),
            abox: copy_aboxes(&self.abox),
            value: 99,
            square_id: 99,
        };
        proof {
            assert(s@ =~= snapshot_of(self@, 99, 99));
        }
        s
    }

    /// Store a tagged snapshot on the stack.
    fn snapshot_take(&mut self, snapshot: SnapShot)
        requires
            old(self)@.snapshots_taken < usize::MAX,
        ensures
            final(self)@ == (TableModel {
                snapshots: old(self)@.snapshots.push(snapshot@),
                snapshots_taken: (old(self)@.snapshots_taken + 1) as usize,
                ..old(self)@
            }),
    {
        self.snapshots.push(snapshot);
        self.snapshots_taken = self.snapshots_taken + 1;
        proof {
            assert(views_of(self.snapshots@) =~= old(self)@.snapshots.push(
                self.snapshots@[self.snapshots@.len() - 1]@,
            ));
            assert(self@ =~= (TableModel {
                snapshots: old(self)@.snapshots.push(self.snapshots@[self.snapshots@.len() - 1]@),
                snapshots_taken: (old(self)@.snapshots_taken + 1) as usize,
                ..old(self)@
            }));
        }
    }

    /// The first square, in id order, holding a pruned candidate not yet in
    /// its history, with that candidate.
    fn find_qualified(&self) -> (r: Option<(usize, usize)>)
        requires
            wf_table(self@),
        ensures
            match qualified_target(self@.squares, 0) {
                None => r is None,
                Some((i, d)) => r == Some((i as usize, d)) && 0 <= i < 81 && 1 <= d <= 9,
            },
    {
        let ghost m = self@.squares;
        let mut i: usize = 0;
        while i < 81
            invariant
                0 <= i <= 81,
                wf_table(self@),
                m == self@.squares,
                forall|t: int|
                    0 <= t < i ==> first_not_in(
                        (#[trigger] m[t]).potentials,
                        m[t].history,
                        0,
                    ) is None,
            decreases 81 - i,
        {
            let pots_len = self.squares[i].potentials.len();
            let mut idx: usize = 0;
            while idx < pots_len
                invariant
                    0 <= idx <= pots_len,
                    i < 81,
                    wf_table(self@),
                    m == self@.squares,
                    pots_len == m[i as int].potentials.len(),
                    forall|t: int|
                        0 <= t < i ==> first_not_in(
                            (#[trigger] m[t]).potentials,
                            m[t].history,
                            0,
                        ) is None,
                    forall|t: int|
                        0 <= t < idx ==> m[i as int].history.contains(
                            #[trigger] m[i as int].potentials[t],
                        ),
                decreases pots_len - idx,
            {
                let d = self.squares[i].potentials[idx];
                if !contains_value(&self.squares[i].history, d) {
                    proof {
                        crate::model::lemma_first_not_in_scan(
                            m[i as int].potentials,
                            m[i as int].history,
                            0,
                            idx as int,
                        );
                        assert(first_not_in(m[i as int].potentials, m[i as int].history, 0)
                            == Some(d));
                        lemma_qualified_target_scan(m, 0, i as int);
                        assert(qualified_target(m, 0) == Some((i as int, d)));
                        assert(wf_cell(m[i as int], i as int));
                        assert(1 <= d <= 9) by {
                            assert(digit_seq(m[i as int].potentials));
                        }
                    }
                    return Some((i, d));
                }
                idx += 1;
            }
            proof {
                crate::model::lemma_first_not_in_scan(
                    m[i as int].potentials,
                    m[i as int].history,
                    0,
                    pots_len as int,
                );
            }
            i += 1;
        }
        proof {
            lemma_qualified_target_scan(m, 0, 81);
        }
        None
    }

    /// Guess at the first square that still has an untried pruned
    /// candidate: snapshot the whole grid, then assign the candidate as a
    /// guess.  Reports whether a guess was made.
    pub fn qualified_guess(&mut self) -> (r: Result<bool, SolverError>)
        requires
            wf_table(old(self)@),
            old(self)@.snapshots_taken < usize::MAX,
        ensures
            wf_table(final(self)@),
            match qualified_target(old(self)@.squares, 0) {
                None => r == Ok::<bool, SolverError>(false) && final(self)@ == old(self)@,
                Some((i, d)) => r == Ok::<bool, SolverError>(true) && final(self)@
                    == guess_step_result(old(self)@, i, d),
            },
    {
        let ghost orig = self@;
        let mut snapshot = self.prepare_snapshot();
        let found = self.find_qualified();
        match found {
            None => Ok(false),
            Some((square_id, value)) => {
                self.set_square(square_id, value, SetKind::GUESS);
                snapshot.square_id = square_id;
                snapshot.value = value;
                self.snapshot_take(snapshot);
                proof {
                    assert(self@ =~= guess_step_result(
                        orig,
                        square_id as int,
                        value,
                    ));
                    assert forall|n: int| 0 <= n < self@.snapshots.len() implies wf_snap(
                        #[trigger] self@.snapshots[n],
                    ) by {
                        if n == self@.snapshots.len() - 1 {
                            assert(self@.snapshots[n] == snapshot_of(orig, square_id, value));
                        } else {
                            assert(self@.snapshots[n] == orig.snapshots[n]);
                        }
                    }
                }
                Ok(true)
            },
        }
    }

    /// The first empty square, in id order, whose raw per-axis candidate
    /// intersection holds a digit not yet in its history, with that digit.
    fn find_incompetent(&self) -> (r: Option<(usize, usize)>)
        requires
            wf_table(self@),
        ensures
            match incompetent_target(self@.squares, 0) {
                None => r is None,
                Some((i, d)) => r == Some((i as usize, d)) && 0 <= i < 81 && 1 <= d <= 9,
            },
    {
        let ghost m = self@.squares;
        let mut i: usize = 0;
        while i < 81
            invariant
                0 <= i <= 81,
                wf_table(self@),
                m == self@.squares,
                forall|t: int|
                    0 <= t < i ==> !((#[trigger] m[t]).value == 0 && first_not_in(
                        raw_candidates(m[t]),
                        m[t].history,
                        0,
                    ) is Some),
            decreases 81 - i,
        {
            if self.squares[i].value == 0 {
                let mut lists: Vec<Vec<usize>> = Vec::new();
                lists.push(copy_values(&self.squares[i].box_potentials));
                lists.push(copy_values(&self.squares[i].line_potentials));
                lists.push(copy_values(&self.squares[i].column_potentials));
                proof {
                    assert(lists@[0]@ == m[i as int].box_potentials && lists@[1]@ == m[
                        i as int
                    ].line_potentials && lists@[2]@ == m[i as int].column_potentials);
                }
                let cand = multi_intersections(lists);
                proof {
                    assert(cand@ == raw_candidates(m[i as int]));
                }
                let cand_len = cand.len();
                let mut idx: usize = 0;
                while idx < cand_len
                    invariant
                        0 <= idx <= cand_len,
                        i < 81,
                        wf_table(self@),
                        m == self@.squares,
                        cand_len == cand@.len(),
                        cand@ == raw_candidates(m[i as int]),
                        m[i as int].value == 0,
                        forall|t: int|
                            0 <= t < i ==> !((#[trigger] m[t]).value == 0 && first_not_in(
                                raw_candidates(m[t]),
                                m[t].history,
                                0,
                            ) is Some),
                        forall|t: int|
                            0 <= t < idx ==> m[i as int].history.contains(#[trigger] cand@[t]),
                    decreases cand_len - idx,
                {
                    let d = cand[idx];
                    if !contains_value(&self.squares[i].history, d) {
                        proof {
                            crate::model::lemma_first_not_in_scan(
                                cand@,
                                m[i as int].history,
                                0,
                                idx as int,
                            );
                            assert(first_not_in(cand@, m[i as int].history, 0) == Some(d));
                            lemma_incompetent_target_scan(m, 0, i as int);
                            assert(incompetent_target(m, 0) == Some((i as int, d)));
                            assert(wf_cell(m[i as int], i as int));
                            assert(1 <= d <= 9) by {
                                crate::helpers::lemma_common_distinct_digit_seq(
                                    m[i as int].box_potentials,
                                    m[i as int].line_potentials,
                                    m[i as int].column_potentials,
                                    m[i as int].box_potentials.len() as int,
                                );
                                assert(digit_seq(cand@));
                            }
                        }
                        return Some((i, d));
                    }
                    idx += 1;
                }
                proof {
                    crate::model::lemma_first_not_in_scan(
                        cand@,
                        m[i as int].history,
                        0,
                        cand_len as int,
                    );
                }
            }
            i += 1;
        }
        proof {
            lemma_incompetent_target_scan(m, 0, 81);
        }
        None
    }

    /// Guess at the first empty square whose raw row/column/box candidate
    /// intersection (ignoring pruning) holds an untried digit: the fallback
    /// when no qualified guess exists.
    pub fn incompetent_guess(&mut self) -> (r: Result<bool, SolverError>)
        requires
            wf_table(old(self)@),
            old(self)@.snapshots_taken < usize::MAX,
        ensures
            wf_table(final(self)@),
            match incompetent_target(old(self)@.squares, 0) {
                None => r == Ok::<bool, SolverError>(false) && final(self)@ == old(self)@,
                Some((i, d)) => r == Ok::<bool, SolverError>(true) && final(self)@
                    == guess_step_result(old(self)@, i, d),
            },
    {
        let ghost orig = self@;
        let mut snapshot = self.prepare_snapshot();
        let found = self.find_incompetent();
        match found {
            None => Ok(false),
            Some((square_id, value)) => {
                self.set_square(square_id, value, SetKind::GUESS);
                snapshot.square_id = square_id;
                snapshot.value = value;
                self.snapshot_take(snapshot);
                proof {
                    assert(self@ =~= guess_step_result(
                        orig,
                        square_id as int,
                        value,
                    ));
                    assert forall|n: int| 0 <= n < self@.snapshots.len() implies wf_snap(
                        #[trigger] self@.snapshots[n],
                    ) by {
                        if n == self@.snapshots.len() - 1 {
                            assert(self@.snapshots[n] == snapshot_of(orig, square_id, value));
                        } else {
                            assert(self@.snapshots[n] == orig.snapshots[n]);
                        }
                    }
                }
                Ok(true)
            },
        }
    }

    /// Restore the grid from the newest snapshot and record the failed
    /// guess in the restored square's history, so that it is never tried
    /// again along this branch.  A rollback with no snapshot stored is the
    /// search-exhausted fault.
    pub fn snapshot_rollback(&mut self) -> (r: Result<(), SolverError>)
        requires
            wf_table(old(self)@),
            old(self)@.snapshot_rollbacks < usize::MAX,
        ensures
            wf_table(final(self)@),
            old(self)@.snapshots.len() == 0 ==> r == Err::<(), SolverError>(
                SolverError::EmptySnapshotStack,
            ) && final(self)@ == old(self)@,
            old(self)@.snapshots.len() > 0 ==> r == Ok::<(), SolverError>(()) && final(self)@
                == rollback_step(old(self)@),
    {
        let ghost orig = self@;
        if self.snapshots.len() == 0 {
            return Err(SolverError::EmptySnapshotStack);
        }
        proof {
            assert(wf_snap(orig.snapshots.last()));
        }
        let snapshot = match self.snapshots.pop() {
            Some(s) => s,
            None => {
                return Err(SolverError::EmptySnapshotStack);
            },
        };
        proof {
            assert(snapshot@ == orig.snapshots.last());
        }
        self.squares = snapshot.square;
        self.line = snapshot.line;
        self.column = snapshot.column;
        self.abox = snapshot.abox;
        self.snapshot_rollbacks = self.snapshot_rollbacks + 1;
        let square = self.get_square_mut(snapshot.square_id);
        square.history.push(snapshot.value);
        proof {
            let want = rollback_step(orig);
            assert(views_of(self.squares@) =~= want.squares);
            assert(views_of(self.snapshots@) =~= want.snapshots);
            assert(self@ =~= want);
            assert forall|i: int| 0 <= i < 81 implies wf_cell(#[trigger] self@.squares[i], i) by {
                assert(wf_cell(orig.snapshots.last().square[i], i));
            }
        }
        Ok(())
    }

    /// One full recomputation pass: every group's digit sets, then every
    /// square's candidate lists, then naked-subset pruning.
    pub fn update(&mut self) -> (r: Result<(), SolverError>)
        requires
            wf_table(old(self)@),
        ensures
            r == Ok::<(), SolverError>(()),
            final(self)@ == updated_table(old(self)@),
            wf_table(final(self)@),
    {
        match self.update_line() {
            Ok(_) => (),
            Err(e) => {
                return Err(e);
            },
        }
        match self.update_column() {
            Ok(_) => (),
            Err(e) => {
                return Err(e);
            },
        }
        match self.update_abox() {
            Ok(_) => (),
            Err(e) => {
                return Err(e);
            },
        }
        match self.update_square_potentials() {
            Ok(_) => (),
            Err(e) => {
                return Err(e);
            },
        }
        match self.update_box_remove_potentials() {
            Ok(_) => (),
            Err(e) => {
                return Err(e);
            },
        }
        proof {
            assert(self@ =~= updated_table(old(self)@));
        }
        Ok(())
    }

    /// Run the deduction rules in strict priority order: row last-cell,
    /// column last-cell, box last-cell, sole candidate, block-unique
    /// candidate.  The first rule that fires assigns one value; the grid is
    /// then validated and rolled back if the assignment broke it.  Reports
    /// whether any rule fired.
    pub fn engine(&mut self) -> (r: Result<bool, SolverError>)
        requires
            wf_table(old(self)@),
            old(self)@.snapshot_rollbacks < usize::MAX,
        ensures
            wf_table(final(self)@),
            match engine_first_firing(old(self)@) {
                None => r == Ok::<bool, SolverError>(false) && final(self)@ == old(self)@,
                Some(Err(e)) => r == Err::<bool, SolverError>(e) && final(self)@ == old(self)@,
                Some(Ok(t1)) => if valid_grid(t1.squares) {
                    r == Ok::<bool, SolverError>(true) && final(self)@ == t1
                } else if t1.snapshots.len() > 0 {
                    r == Ok::<bool, SolverError>(true) && final(self)@ == rollback_step(t1)
                } else {
                    r == Err::<bool, SolverError>(SolverError::EmptySnapshotStack) && final(self)@
                        == t1
                },
            },
    {
        let updated = match self.engine_line_one_left() {
            Ok(b) => b,
            Err(e) => {
                return Err(e);
            },
        };
        if updated {
            let valid = self.validate();
            if !valid {
                match self.snapshot_rollback() {
                    Ok(_) => (),
                    Err(e) => {
                        return Err(e);
                    },
                }
            }
            return Ok(true);
        }
        let updated = match self.engine_column_one_left() {
            Ok(b) => b,
            Err(e) => {
                return Err(e);
            },
        };
        if updated {
            let valid = self.validate();
            if !valid {
                match self.snapshot_rollback() {
                    Ok(_) => (),
                    Err(e) => {
                        return Err(e);
                    },
                }
            }
            return Ok(true);
        }
        let updated = match self.engine_box_one_left() {
            Ok(b) => b,
            Err(e) => {
                return Err(e);
            },
        };
        if updated {
            let valid = self.validate();
            if !valid {
                match self.snapshot_rollback() {
                    Ok(_) => (),
                    Err(e) => {
                        return Err(e);
                    },
                }
            }
            return Ok(true);
        }
        let updated = match self.engine_only_one_possible() {
            Ok(b) => b,
            Err(e) => {
                return Err(e);
            },
        };
        if updated {
            let valid = self.validate();
            if !valid {
                match self.snapshot_rollback() {
                    Ok(_) => (),
                    Err(e) => {
                        return Err(e);
                    },
                }
            }
            return Ok(true);
        }
        let updated = match self.engine_box() {
            Ok(b) => b,
            Err(e) => {
                return Err(e);
            },
        };
        if updated {
            let valid = self.validate();
            if !valid {
                match self.snapshot_rollback() {
                    Ok(_) => (),
                    Err(e) => {
                        return Err(e);
                    },
                }
            }
            return Ok(true);
        }
        Ok(false)
    }

    /// One solver-loop bookkeeping step: count the pass and report whether
    /// the puzzle is finished, the budget is spent, or work continues.
    pub fn complete(&mut self) -> (r: Progress)
        requires
            wf_table(old(self)@),
            old(self)@.iteration < i32::MAX,
        ensures
            wf_table(final(self)@),
            final(self)@ == (TableModel { iteration: (old(self)@.iteration + 1) as i32, ..old(self)@ }),
            ({
                let done = filled_upto(old(self)@.squares, 81) == 81 && valid_grid(
                    old(self)@.squares,
                );
                let summary = Summary {
                    iterations: (old(self)@.iteration + 1) as i32,
                    snapshots_taken: old(self)@.snapshots_taken,
                    snapshot_rollbacks: old(self)@.snapshot_rollbacks,
                };
                if done {
                    r == Progress::Solved(summary)
                } else if old(self)@.iteration + 1 == old(self)@.max_attempts {
                    r == Progress::LimitReached(summary)
                } else {
                    r == Progress::InProgress((old(self)@.iteration + 1) as i32)
                }
            }),
    {
        let ghost orig = self@;
        self.iteration = self.iteration + 1;
        proof {
            assert(self@ =~= (TableModel { iteration: (orig.iteration + 1) as i32, ..orig }));
        }
        let mut progress: usize = 0;
        let mut i: usize = 0;
        while i < 81
            invariant
                0 <= i <= 81,
                wf_table(self@),
                self@.squares == orig.squares,
                progress == filled_upto(orig.squares, i as int),
                progress <= i,
            decreases 81 - i,
        {
            if self.squares[i].value != 0 {
                progress = progress + 1;
            }
            i += 1;
        }
        let msg = Summary {
            iterations: self.iteration,
            snapshots_taken: self.snapshots_taken,
            snapshot_rollbacks: self.snapshot_rollbacks,
        };
        if progress == 81 && self.validate() {
            Progress::Solved(msg)
        } else if self.iteration == self.max_attempts {
            Progress::LimitReached(msg)
        } else {
            Progress::InProgress(self.iteration)
        }
    }

    /// Drive the full solver loop: recompute, deduce, guess, roll back,
    /// until the puzzle is solved or the attempt budget is spent.  The loop
    /// provably terminates: each pass consumes one attempt, so the
    /// iteration count strictly grows and never passes the budget.  The
    /// only outcomes are `Solved` with a full legal grid, `LimitReached`
    /// with the budget spent, or one of the two fatal faults: the search
    /// space is exhausted (the snapshot stack is empty), or some group
    /// demands a last-cell assignment while holding no empty square.
    #[verifier::loop_isolation(false)]
    pub fn solve(&mut self) -> (r: Result<Progress, SolverError>)
        requires
            wf_table(old(self)@),
            0 <= old(self)@.iteration < old(self)@.max_attempts,
            old(self)@.snapshots_taken + old(self)@.max_attempts <= usize::MAX,
            old(self)@.snapshot_rollbacks + old(self)@.max_attempts <= usize::MAX,
        ensures
            wf_table(final(self)@),
            final(self)@.max_attempts == old(self)@.max_attempts,
            old(self)@.iteration < final(self)@.iteration <= final(self)@.max_attempts,
            r matches Ok(p) ==> (p matches Progress::Solved(s) && filled_upto(
                final(self)@.squares,
                81,
            ) == 81 && valid_grid(final(self)@.squares)) || (p matches Progress::LimitReached(s)
                && final(self)@.iteration == final(self)@.max_attempts),
            r == Err::<Progress, SolverError>(SolverError::EmptySnapshotStack)
                ==> final(self)@.snapshots.len() == 0,
            r matches Err(e) ==> (e == SolverError::EmptySnapshotStack || (e
                matches SolverError::NoEmptyCell(c, j, d) && one_left_step(final(self)@, c)
                == Some(Err::<TableModel, SolverError>(SolverError::NoEmptyCell(c, j, d))))),
    {
        loop
            invariant
                wf_table(self@),
                self@.max_attempts == old(self)@.max_attempts,
                self@.iteration >= old(self)@.iteration,
                0 <= self@.iteration < self@.max_attempts,
                self@.snapshots_taken + (self@.max_attempts - self@.iteration) <= usize::MAX,
                self@.snapshot_rollbacks + (self@.max_attempts - self@.iteration) <= usize::MAX,
            decreases self@.max_attempts - self@.iteration,
        {
            let p = self.complete();
            match p {
                Progress::Solved(_) => {
                    return Ok(p);
                },
                Progress::LimitReached(_) => {
                    return Ok(p);
                },
                Progress::InProgress(_) => {},
            }
            match self.update() {
                Ok(_) => (),
                Err(e) => {
                    return Err(e);
                },
            }
            let ghost pre_engine = self@;
            let engaged = match self.engine() {
                Ok(b) => b,
                Err(e) => {
                    proof {
                        match e {
                            SolverError::NoEmptyCell(c, j, d) => {
                                assert(self@ == pre_engine);
                                assert(engine_first_firing(pre_engine) == Some(Err::<
                                    TableModel,
                                    SolverError,
                                >(e)));
                                if one_left_step(pre_engine, Container::LINE) is Some {
                                    assert(one_left_step(pre_engine, Container::LINE) == Some(
                                        Err::<TableModel, SolverError>(e),
                                    ));
                                    assert(c == Container::LINE);
                                } else if one_left_step(pre_engine, Container::COLUMN) is Some {
                                    assert(one_left_step(pre_engine, Container::COLUMN) == Some(
                                        Err::<TableModel, SolverError>(e),
                                    ));
                                    assert(c == Container::COLUMN);
                                } else {
                                    assert(one_left_step(pre_engine, Container::ABOX) == Some(
                                        Err::<TableModel, SolverError>(e),
                                    ));
                                    assert(c == Container::ABOX);
                                }
                            },
                            _ => {},
                        }
                    }
                    return Err(e);
                },
            };
            if !engaged {
                let guessed = match self.qualified_guess() {
                    Ok(b) => b,
                    Err(e) => {
                        return Err(e);
                    },
                };
                if !guessed {
                    let fallback = match self.incompetent_guess() {
                        Ok(b) => b,
                        Err(e) => {
                            return Err(e);
                        },
                    };
                    if !fallback {
                        match self.snapshot_rollback() {
                            Ok(_) => (),
                            Err(e) => {
                                return Err(e);
                            },
                        }
                    }
                }
            }
        }
    }

    /// Whether no line repeats a digit.
    fn _validate_line(&self) -> (b: bool)
        requires
            wf_table(self@),
        ensures
            b == (forall|j: int|
                0 <= j < 9 ==> distinct_values(self@.squares, #[trigger] line_ids(j))),
    {
        let mut j: usize = 0;
        while j < 9
            invariant
                0 <= j <= 9,
                wf_table(self@),
                forall|t: int| 0 <= t < j ==> distinct_values(self@.squares, #[trigger] line_ids(t)),
            decreases 9 - j,
        {
            proof {
                lemma_ids_in_range(j as int);
                assert(wf_group(self@.line[j as int], j as int, line_ids(j as int)));
            }
            let ids = self.line[j].get_square_ids();
            if !group_has_distinct_values(&self.squares, &ids) {
                return false;
            }
            j += 1;
        }
        true
    }

    /// Whether no column repeats a digit.
    fn _validate_column(&self) -> (b: bool)
        requires
            wf_table(self@),
        ensures
            b == (forall|j: int|
                0 <= j < 9 ==> distinct_values(self@.squares, #[trigger] column_ids(j))),
    {
        let mut j: usize = 0;
        while j < 9
            invariant
                0 <= j <= 9,
                wf_table(self@),
                forall|t: int|
                    0 <= t < j ==> distinct_values(self@.squares, #[trigger] column_ids(t)),
            decreases 9 - j,
        {
            proof {
                lemma_ids_in_range(j as int);
                assert(wf_group(self@.column[j as int], j as int, column_ids(j as int)));
            }
            let ids = self.column[j].get_square_ids();
            if !group_has_distinct_values(&self.squares, &ids) {
                return false;
            }
            j += 1;
        }
        true
    }

    /// Whether no box repeats a digit.
    fn _validate_box(&self) -> (b: bool)
        requires
            wf_table(self@),
        ensures
            b == (forall|j: int|
                0 <= j < 9 ==> distinct_values(self@.squares, #[trigger] box_ids(j))),
    {
        let mut j: usize = 0;
        while j < 9
            invariant
                0 <= j <= 9,
                wf_table(self@),
                forall|t: int| 0 <= t < j ==> distinct_values(self@.squares, #[trigger] box_ids(t)),
            decreases 9 - j,
        {
            proof {
                lemma_ids_in_range(j as int);
                assert(wf_group(self@.abox[j as int], j as int, box_ids(j as int)));
            }
            let ids = self.abox[j].get_square_ids();
            if !group_has_distinct_values(&self.squares, &ids) {
                return false;
            }
            j += 1;
        }
        true
    }

    /// Whether the whole grid is legal: no line, column or box repeats a
    /// digit among its placed values.
    fn validate(&self) -> (b: bool)
        requires
            wf_table(self@),
        ensures
            b == valid_grid(self@.squares),
    {
        let a = self._validate_line();
        let c = self._validate_column();
        let d = self._validate_box();
        a && c && d
    }

    /// The first group of the selected family with exactly one digit left.
    fn find_one_left(&self, container: Container) -> (r: Option<usize>)
        requires
            wf_table(self@),
        ensures
            r is None ==> first_one_left(family_of(self@, container), 0) is None,
            r matches Some(j) ==> j < 9 && first_one_left(family_of(self@, container), 0) == Some(
                j as int,
            ) && family_of(self@, container)[j as int].remaining.len() == 1,
    {
        let ghost fam = family_of(self@, container);
        let mut j: usize = 0;
        while j < 9
            invariant
                0 <= j <= 9,
                wf_table(self@),
                fam == family_of(self@, container),
                fam.len() == 9,
                forall|t: int| 0 <= t < j ==> (#[trigger] fam[t]).remaining.len() != 1,
            decreases 9 - j,
        {
            let rem_len = match container {
                Container::LINE => self.line[j]._remaining.len(),
                Container::COLUMN => self.column[j]._remaining.len(),
                Container::ABOX => self.abox[j]._remaining.len(),
            };
            proof {
                assert(rem_len == fam[j as int].remaining.len());
            }
            if rem_len == 1 {
                proof {
                    lemma_first_one_left_scan(fam, 0, j as int);
                }
                return Some(j);
            }
            j += 1;
        }
        proof {
            lemma_first_one_left_scan(fam, 0, 9);
        }
        None
    }

    /// The position, within the listed members, of the first empty square.
    fn find_first_empty(&self, ids: &Vec<usize>) -> (r: Option<usize>)
        requires
            wf_table(self@),
            ids@.len() == 9,
            forall|k: int| 0 <= k < 9 ==> #[trigger] ids@[k] < 81,
        ensures
            r is None ==> first_empty(self@.squares, ids@, 0) is None,
            r matches Some(k) ==> k < 9 && first_empty(self@.squares, ids@, 0) == Some(k as int),
    {
        let mut k: usize = 0;
        while k < 9
            invariant
                0 <= k <= 9,
                wf_table(self@),
                ids@.len() == 9,
                forall|t: int| 0 <= t < 9 ==> #[trigger] ids@[t] < 81,
                forall|t: int| 0 <= t < k ==> self@.squares[#[trigger] ids@[t] as int].value != 0,
            decreases 9 - k,
        {
            let id = ids[k];
            if self.squares[id].value == 0 {
                proof {
                    lemma_first_empty_scan(self@.squares, ids@, 0, k as int);
                }
                return Some(k);
            }
            k += 1;
        }
        proof {
            lemma_first_empty_scan(self@.squares, ids@, 0, 9);
        }
        None
    }

    /// One last-cell rule: if some group of the selected family has exactly
    /// one digit left, assign it to the group's first empty member.
    fn engine_one_left(&mut self, container: Container) -> (r: Result<bool, SolverError>)
        requires
            wf_table(old(self)@),
        ensures
            wf_table(final(self)@),
            match one_left_step(old(self)@, container) {
                None => r == Ok::<bool, SolverError>(false) && final(self)@ == old(self)@,
                Some(Err(e)) => r == Err::<bool, SolverError>(e) && final(self)@ == old(self)@,
                Some(Ok(t1)) => r == Ok::<bool, SolverError>(true) && final(self)@ == t1,
            },
    {
        let ghost orig = self@;
        let found = self.find_one_left(container);
        match found {
            None => Ok(false),
            Some(j) => {
                proof {
                    assert(wf_group(family_of(orig, container)[j as int], j as int, family_ids(container, j as int)));
                }
                let d = match container {
                    Container::LINE => {
                        proof {
                            assert(self.line@[j as int]@ == family_of(orig, container)[j as int]);
                        }
                        self.line[j]._remaining[0]
                    },
                    Container::COLUMN => {
                        proof {
                            assert(self.column@[j as int]@ == family_of(orig, container)[j as int]);
                        }
                        self.column[j]._remaining[0]
                    },
                    Container::ABOX => {
                        proof {
                            assert(self.abox@[j as int]@ == family_of(orig, container)[j as int]);
                        }
                        self.abox[j]._remaining[0]
                    },
                };
                proof {
                    assert(d == family_of(orig, container)[j as int].remaining[0]);
                    assert(1 <= d <= 9) by {
                        assert(digit_seq(family_of(orig, container)[j as int].remaining));
                    }
                    lemma_ids_in_range(j as int);
                }
                let ids = match container {
                    Container::LINE => self.line[j].get_square_ids(),
                    Container::COLUMN => self.column[j].get_square_ids(),
                    Container::ABOX => self.abox[j].get_square_ids(),
                };
                proof {
                    assert(ids@ == family_ids(container, j as int));
                }
                match self.find_first_empty(&ids) {
                    None => Err(SolverError::NoEmptyCell(container, j, d)),
                    Some(k) => {
                        let c = ids[k];
                        self.set_square(c, d, SetKind::NORMAL);
                        Ok(true)
                    },
                }
            },
        }
    }

    /// Assign the single remaining digit of the first line that has exactly
    /// one digit left.
    pub fn engine_line_one_left(&mut self) -> (r: Result<bool, SolverError>)
        requires
            wf_table(old(self)@),
        ensures
            wf_table(final(self)@),
            match one_left_step(old(self)@, Container::LINE) {
                None => r == Ok::<bool, SolverError>(false) && final(self)@ == old(self)@,
                Some(Err(e)) => r == Err::<bool, SolverError>(e) && final(self)@ == old(self)@,
                Some(Ok(t1)) => r == Ok::<bool, SolverError>(true) && final(self)@ == t1,
            },
    {
        self.engine_one_left(Container::LINE)
    }

    /// Assign the single remaining digit of the first column that has
    /// exactly one digit left.
    pub fn engine_column_one_left(&mut self) -> (r: Result<bool, SolverError>)
        requires
            wf_table(old(self)@),
        ensures
            wf_table(final(self)@),
            match one_left_step(old(self)@, Container::COLUMN) {
                None => r == Ok::<bool, SolverError>(false) && final(self)@ == old(self)@,
                Some(Err(e)) => r == Err::<bool, SolverError>(e) && final(self)@ == old(self)@,
                Some(Ok(t1)) => r == Ok::<bool, SolverError>(true) && final(self)@ == t1,
            },
    {
        self.engine_one_left(Container::COLUMN)
    }

    /// Assign the single remaining digit of the first box that has exactly
    /// one digit left.
    pub fn engine_box_one_left(&mut self) -> (r: Result<bool, SolverError>)
        requires
            wf_table(old(self)@),
        ensures
            wf_table(final(self)@),
            match one_left_step(old(self)@, Container::ABOX) {
                None => r == Ok::<bool, SolverError>(false) && final(self)@ == old(self)@,
                Some(Err(e)) => r == Err::<bool, SolverError>(e) && final(self)@ == old(self)@,
                Some(Ok(t1)) => r == Ok::<bool, SolverError>(true) && final(self)@ == t1,
            },
    {
        self.engine_one_left(Container::ABOX)
    }

    /// Assign the sole candidate of the last square whose candidate list
    /// has exactly one digit.
    pub fn engine_only_one_possible(&mut self) -> (r: Result<bool, SolverError>)
        requires
            wf_table(old(self)@),
        ensures
            wf_table(final(self)@),
            match only_one_step(old(self)@) {
                None => r == Ok::<bool, SolverError>(false) && final(self)@ == old(self)@,
                Some(t1) => r == Ok::<bool, SolverError>(true) && final(self)@ == t1,
            },
    {
        let ghost orig = self@;
        let ghost m = orig.squares;
        let mut upd: Option<(usize, usize)> = None;
        let mut i: usize = 0;
        while i < 81
            invariant
                0 <= i <= 81,
                self@ == orig,
                wf_table(orig),
                m == orig.squares,
                match last_single_idx(m, i - 1) {
                    None => upd is None,
                    Some(t) => upd == Some((t as usize, m[t].potentials[0])) && 0 <= t < 81 && m[
                        t
                    ].potentials.len() == 1,
                },
            decreases 81 - i,
        {
            if self.squares[i].potentials.len() == 1 {
                let d = self.squares[i].potentials[0];
                upd = Some((i, d));
            }
            i += 1;
        }
        match upd {
            None => Ok(false),
            Some((square_id, value)) => {
                proof {
                    assert(last_single_idx(m, 80) == Some(square_id as int));
                    assert(wf_cell(m[square_id as int], square_id as int));
                    assert(1 <= value <= 9) by {
                        assert(digit_seq(m[square_id as int].potentials));
                        assert(value == m[square_id as int].potentials[0]);
                    }
                }
                self.set_square(square_id, value, SetKind::NORMAL);
                Ok(true)
            },
        }
    }

    /// Whether some other square of `i`'s box lists `d` as a candidate.
    fn box_friend_holds(&self, i: usize, d: usize) -> (b: bool)
        requires
            wf_table(self@),
            i < 81,
        ensures
            b == friend_has(self@.squares, i as int, d),
    {
        let ghost m = self@.squares;
        proof {
            assert(wf_cell(m[i as int], i as int));
            crate::model::lemma_box_of_range(i as int);
        }
        let abox_id = self.squares[i].abox_id;
        proof {
            assert(wf_group(self@.abox[abox_id as int], abox_id as int, box_ids(abox_id as int)));
            lemma_ids_in_range(abox_id as int);
        }
        let ids = match self.get_abox(abox_id) {
            Ok(a) => a.get_square_ids(),
            Err(_) => {
                return false;
            },
        };
        proof {
            assert(ids@ == box_ids(abox_id as int));
        }
        let mut k: usize = 0;
        while k < 9
            invariant
                0 <= k <= 9,
                wf_table(self@),
                m == self@.squares,
                i < 81,
                abox_id as int == box_of(i as int),
                abox_id < 9,
                ids@ == box_ids(abox_id as int),
                forall|k2: int|
                    0 <= k2 < k && box_cell(box_of(i as int), k2) != i as int ==> !(
                    #[trigger] m[box_cell(box_of(i as int), k2) as int].potentials.contains(d)),
            decreases 9 - k,
        {
            proof {
                assert(ids@[k as int] == box_ids(abox_id as int)[k as int]);
            }
            let sid = ids[k];
            proof {
                assert(sid == box_cell(box_of(i as int), k as int));
                assert(sid < 81);
            }
            if sid != i {
                let friend = match self.get_square(sid) {
                    Ok(s) => s,
                    Err(_) => {
                        return false;
                    },
                };
                if contains_value(&friend.potentials, d) {
                    proof {
                        assert(friend_has(m, i as int, d)) by {
                            assert(box_cell(box_of(i as int), k as int) != i as int && m[box_cell(
                                box_of(i as int),
                                k as int,
                            ) as int].potentials.contains(d));
                        }
                    }
                    return true;
                }
            }
            k += 1;
        }
        proof {
            assert(!friend_has(m, i as int, d));
        }
        false
    }

    /// Assign the first candidate, of the first square, that no other
    /// square in the same box could hold.
    #[verifier::loop_isolation(false)]
    pub fn engine_box(&mut self) -> (r: Result<bool, SolverError>)
        requires
            wf_table(old(self)@),
        ensures
            wf_table(final(self)@),
            match box_rule_step(old(self)@) {
                None => r == Ok::<bool, SolverError>(false) && final(self)@ == old(self)@,
                Some(t1) => r == Ok::<bool, SolverError>(true) && final(self)@ == t1,
            },
    {
        let ghost orig = self@;
        let ghost m = orig.squares;
        let mut i: usize = 0;
        while i < 81
            invariant
                0 <= i <= 81,
                self@ == orig,
                wf_table(orig),
                m == orig.squares,
                forall|t: int| 0 <= t < i ==> #[trigger] first_unique_pot(m, t, 0) is None,
            decreases 81 - i,
        {
            let pots_len = self.squares[i].potentials.len();
            let mut idx: usize = 0;
            while idx < pots_len
                invariant
                    0 <= idx <= pots_len,
                    i < 81,
                    self@ == orig,
                    wf_table(orig),
                    m == orig.squares,
                    pots_len == m[i as int].potentials.len(),
                    forall|t: int| 0 <= t < i ==> #[trigger] first_unique_pot(m, t, 0) is None,
                    forall|t: int|
                        0 <= t < idx ==> friend_has(m, i as int, #[trigger] m[i as int].potentials[t]),
                decreases pots_len - idx,
            {
                let d = self.squares[i].potentials[idx];
                if !self.box_friend_holds(i, d) {
                    proof {
                        lemma_first_unique_pot_scan(m, i as int, 0, idx as int);
                        assert(m[i as int].potentials[idx as int] == d);
                        assert(first_unique_pot(m, i as int, idx as int) == Some(d));
                        lemma_box_unique_target_scan(m, 0, i as int);
                        assert(box_unique_target(m, 0) == Some((i as int, d)));
                        assert(wf_cell(m[i as int], i as int));
                        assert(1 <= d <= 9) by {
                            assert(digit_seq(m[i as int].potentials));
                        }
                    }
                    self.set_square(i, d, SetKind::NORMAL);
                    return Ok(true);
                }
                idx += 1;
            }
            proof {
                lemma_first_unique_pot_scan(m, i as int, 0, pots_len as int);
            }
            i += 1;
        }
        proof {
            lemma_box_unique_target_scan(m, 0, 81);
        }
        Ok(false)
    }

    /// Write `value` at `square_id` (committed or guessed, by `kind`) and
    /// record the digit as taken in the square's line, column and box.
    fn set_square(&mut self, square_id: usize, value: usize, kind: SetKind)
        requires
            wf_table(old(self)@),
            square_id < 81,
            1 <= value <= 9,
        ensures
            final(self)@ == table_set_square(
                old(self)@,
                square_id as int,
                value,
                kind == SetKind::GUESS,
            ),
            wf_table(final(self)@),
    {
        proof {
            assert(wf_cell(old(self)@.squares[square_id as int], square_id as int));
            assert(self.squares@[square_id as int]@ == old(self)@.squares[square_id as int]);
        }
        let line_id = self.squares[square_id].line_id;
        let column_id = self.squares[square_id].column_id;
        let abox_id = self.squares[square_id].abox_id;
        match kind {
            SetKind::NORMAL => self.squares[square_id].set_value(value),
            SetKind::GUESS => self.squares[square_id].set_value_guess(value),
        }
        self.line[line_id].set_taken(value);
        self.column[column_id].set_taken(value);
        self.abox[abox_id].set_taken(value);
        proof {
            let want = table_set_square(
                old(self)@,
                square_id as int,
                value,
                kind == SetKind::GUESS,
            );
            assert(views_of(self.squares@) =~= want.squares);
            assert(views_of(self.line@) =~= want.line);
            assert(views_of(self.column@) =~= want.column);
            assert(views_of(self.abox@) =~= want.abox);
            assert(views_of(self.snapshots@) =~= want.snapshots);
            assert(self@ =~= want);
            lemma_table_set_square_wf(
                old(self)@,
                square_id as int,
                value,
                kind == SetKind::GUESS,
            );
        }
    }
}

} // verus!
