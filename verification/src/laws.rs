//! Library-wide properties of the solving engine, stated and proved over
//! the models of `crate::model`: legality of validated grids, soundness of
//! candidate narrowing, monotonicity of guess histories, and idempotence of
//! recomputation.

use crate::helpers::{common_distinct, lemma_common_distinct_contains, missing_digits};
use crate::model::{
    aboxes_recomputed, apply_entries, box_of, cell_with_potentials, column_ids, columns_recomputed,
    first_not_in, group_updated, incompetent_target, lemma_apply_entries_wf,
    lemma_entries_upto_ok, lemma_first_not_in_props,
    lemma_ids_in_range, lemma_recomputed_wf, lemma_taken_of_congruent, lemma_updated_table_wf,
    line_ids, lines_recomputed, prune_entries, qualified_target, raw_candidates,
    refreshed_cell, refreshed_grid, rollback_step, table_set_square, updated_table,
    valid_grid, wf_cell, wf_table, CellModel, TableModel,
};
use vstd::prelude::*;

verus! {

/// Group legality: in a grid that validation accepts, no two distinct
/// members of any line, column or box hold the same non-zero value.
pub proof fn lemma_group_legality(m: Seq<CellModel>, j: int, k1: int, k2: int)
    requires
        valid_grid(m),
        0 <= j < 9,
        0 <= k1 < 9,
        0 <= k2 < 9,
        k1 != k2,
    ensures
        m[line_ids(j)[k1] as int].value != 0 ==> m[line_ids(j)[k1] as int].value != m[line_ids(
            j,
        )[k2] as int].value || m[line_ids(j)[k2] as int].value == 0,
        m[column_ids(j)[k1] as int].value != 0 ==> m[column_ids(j)[k1] as int].value != m[column_ids(
            j,
        )[k2] as int].value || m[column_ids(j)[k2] as int].value == 0,
        m[crate::model::box_ids(j)[k1] as int].value != 0 ==> m[crate::model::box_ids(
            j,
        )[k1] as int].value != m[crate::model::box_ids(j)[k2] as int].value || m[crate::model::box_ids(
            j,
        )[k2] as int].value == 0,
{
}

/// Potential soundness: after an update pass, every candidate of a cell
/// that was empty is still missing from the cell's row, column and box
/// alike — pruning only ever shrinks a candidate set below the raw
/// row/column/box intersection, never grows it.
pub proof fn lemma_potential_soundness(t: TableModel, i: int, d: usize)
    requires
        wf_table(t),
        0 <= i < 81,
        t.squares[i].value == 0,
        updated_table(t).squares[i].potentials.contains(d),
    ensures
        updated_table(t).line[i / 9].remaining.contains(d),
        updated_table(t).column[i % 9].remaining.contains(d),
        updated_table(t).abox[box_of(i)].remaining.contains(d),
{
    lemma_recomputed_wf(t);
    crate::model::lemma_box_of_range(i);
    let t3 = aboxes_recomputed(columns_recomputed(lines_recomputed(t)));
    let m4 = refreshed_grid(t3);
    assert forall|k: int| 0 <= k < 81 implies wf_cell(#[trigger] m4[k], k) by {
        crate::model::lemma_refreshed_cell_wf(t3, k);
    }
    lemma_entries_upto_ok(m4, 9);
    lemma_apply_entries_wf(m4, prune_entries(m4));
    let u = updated_table(t);
    assert(u.squares == apply_entries(m4, prune_entries(m4)));
    assert(m4[i].potentials.contains(d));
    let lp = missing_digits(t3.line[i / 9].taken);
    let cp = missing_digits(t3.column[i % 9].taken);
    let bp = missing_digits(t3.abox[box_of(i)].taken);
    assert(m4[i] == refreshed_cell(t3, i));
    assert(m4[i].potentials == common_distinct(bp, lp, cp));
    lemma_common_distinct_contains(bp, lp, cp, bp.len() as int, d);
    assert(bp.contains(d)) by {
        let w = choose|w: int| 0 <= w < bp.len() && bp[w] == d;
        assert(bp[w] == d);
    }
    assert(u.line[i / 9].remaining == lp);
    assert(u.column[i % 9].remaining == cp);
    assert(u.abox[box_of(i)].remaining == bp);
}

/// History monotonicity: an update pass never touches any cell's history,
/// and an assignment appends to the assigned cell's history exactly when it
/// is a guess.
pub proof fn lemma_history_monotone(t: TableModel, id: int, v: usize, guess: bool, i: int)
    requires
        wf_table(t),
        0 <= id < 81,
        0 <= i < 81,
    ensures
        updated_table(t).squares[i].history == t.squares[i].history,
        i != id ==> table_set_square(t, id, v, guess).squares[i].history == t.squares[i].history,
        guess ==> table_set_square(t, id, v, guess).squares[id].history == t.squares[id].history.push(
            v,
        ),
        !guess ==> table_set_square(t, id, v, guess).squares[id].history == t.squares[id].history,
{
    lemma_updated_table_wf(t);
}

/// History monotonicity under rollback: the restored cell's history is the
/// snapshot's history extended with the failed guess, so that value is
/// permanently excluded at that cell along this branch.
pub proof fn lemma_rollback_history(t: TableModel)
    requires
        wf_table(t),
        t.snapshots.len() > 0,
    ensures
        ({
            let s = t.snapshots.last();
            rollback_step(t).squares[s.square_id as int].history
                == s.square[s.square_id as int].history.push(s.value)
        }),
{
}

/// A qualified guess is never a value already in the guessed cell's
/// history, and always one of the cell's pruned candidates.
pub proof fn lemma_qualified_guess_fresh(m: Seq<CellModel>, k: int, i: int, d: usize)
    requires
        0 <= k,
        qualified_target(m, k) == Some((i, d)),
    ensures
        k <= i < 81,
        !m[i].history.contains(d),
        m[i].potentials.contains(d),
    decreases 81 - k,
{
    if k >= 81 {
    } else if first_not_in(m[k].potentials, m[k].history, 0) is Some {
        lemma_first_not_in_props(m[k].potentials, m[k].history, 0);
    } else {
        lemma_qualified_guess_fresh(m, k + 1, i, d);
    }
}

/// A fallback guess is never a value already in the guessed cell's
/// history, and always targets an empty cell with that value among its raw
/// row/column/box candidates.
pub proof fn lemma_incompetent_guess_fresh(m: Seq<CellModel>, k: int, i: int, d: usize)
    requires
        0 <= k,
        incompetent_target(m, k) == Some((i, d)),
    ensures
        k <= i < 81,
        m[i].value == 0,
        !m[i].history.contains(d),
        raw_candidates(m[i]).contains(d),
    decreases 81 - k,
{
    if k >= 81 {
    } else if m[k].value == 0 && first_not_in(raw_candidates(m[k]), m[k].history, 0) is Some {
        lemma_first_not_in_props(raw_candidates(m[k]), m[k].history, 0);
    } else {
        lemma_incompetent_guess_fresh(m, k + 1, i, d);
    }
}

/// Idempotence of update: a second update pass with no assignment in
/// between recomputes exactly the same taken, remaining and candidate
/// sets — the whole table is unchanged by the second pass.
pub proof fn lemma_update_idempotent(t: TableModel)
    requires
        wf_table(t),
    ensures
        updated_table(updated_table(t)) == updated_table(t),
{
    let u = updated_table(t);
    lemma_updated_table_wf(t);
    lemma_recomputed_wf(t);
    lemma_recomputed_wf(u);
    let t3 = aboxes_recomputed(columns_recomputed(lines_recomputed(t)));
    let u3 = aboxes_recomputed(columns_recomputed(lines_recomputed(u)));
    let m4 = refreshed_grid(t3);
    assert forall|k: int| 0 <= k < 81 implies wf_cell(#[trigger] m4[k], k) by {
        crate::model::lemma_refreshed_cell_wf(t3, k);
    }
    lemma_entries_upto_ok(m4, 9);
    lemma_apply_entries_wf(m4, prune_entries(m4));
    assert(u.squares == apply_entries(m4, prune_entries(m4)));

    // The second recomputation reads the same values, so it rebuilds the
    // same groups; and the first pass already installed exactly those
    // groups.
    assert forall|j: int| 0 <= j < 9 implies #[trigger] u3.line[j] == u.line[j] by {
        lemma_ids_in_range(j);
        assert forall|k: int|
            0 <= k < line_ids(j).len() implies u.squares[#[trigger] line_ids(j)[k] as int].value
            == t.squares[line_ids(j)[k] as int].value by {}
        lemma_taken_of_congruent(u.squares, t.squares, line_ids(j));
        assert(u.line[j] == group_updated(t.line[j], t.squares, line_ids(j)));
        assert(u3.line[j] == group_updated(u.line[j], u.squares, line_ids(j)));
        assert(u3.line[j] =~= u.line[j]);
    }
    assert forall|j: int| 0 <= j < 9 implies #[trigger] u3.column[j] == u.column[j] by {
        lemma_ids_in_range(j);
        assert forall|k: int|
            0 <= k < column_ids(j).len() implies u.squares[#[trigger] column_ids(j)[k] as int].value
            == t.squares[column_ids(j)[k] as int].value by {}
        lemma_taken_of_congruent(u.squares, t.squares, column_ids(j));
        assert(u.column[j] == group_updated(t.column[j], t.squares, column_ids(j)));
        assert(u3.column[j] == group_updated(u.column[j], u.squares, column_ids(j)));
        assert(u3.column[j] =~= u.column[j]);
    }
    assert forall|j: int| 0 <= j < 9 implies #[trigger] u3.abox[j] == u.abox[j] by {
        lemma_ids_in_range(j);
        assert forall|k: int|
            0 <= k < crate::model::box_ids(j).len() implies u.squares[#[trigger] crate::model::box_ids(
            j,
        )[k] as int].value == t.squares[crate::model::box_ids(j)[k] as int].value by {}
        lemma_taken_of_congruent(u.squares, t.squares, crate::model::box_ids(j));
        assert(u.abox[j] == group_updated(t.abox[j], t.squares, crate::model::box_ids(j)));
        assert(u3.abox[j] == group_updated(u.abox[j], u.squares, crate::model::box_ids(j)));
        assert(u3.abox[j] =~= u.abox[j]);
    }
    assert(u3.line =~= u.line);
    assert(u3.column =~= u.column);
    assert(u3.abox =~= u.abox);
    assert(u3 =~= (TableModel { squares: u.squares, ..u }));
    assert(u3 =~= u);

    // Refreshing the already-refreshed grid reproduces it: the axis sets
    // come from the same groups, and the candidate intersections from the
    // same axis sets.
    let m4b = refreshed_grid(u3);
    assert forall|i: int| 0 <= i < 81 implies #[trigger] m4b[i] == m4[i] by {
        crate::model::lemma_box_of_range(i);
        assert(m4b[i] == refreshed_cell(u3, i));
        assert(m4[i] == refreshed_cell(t3, i));
        assert(u3.line[i / 9] == u.line[i / 9] && u.line[i / 9] == t3.line[i / 9]);
        assert(u3.column[i % 9] == t3.column[i % 9]);
        assert(u3.abox[box_of(i)] == t3.abox[box_of(i)]);
        assert(u.squares[i] == cell_with_potentials(m4[i], u.squares[i].potentials));
        if t.squares[i].value != 0 {
            assert(wf_cell(t.squares[i], i));
            assert(m4[i].potentials == t.squares[i].potentials);
            assert(m4[i].potentials.len() == 0);
            assert(u.squares[i].potentials.len() == 0);
            assert(u.squares[i].potentials =~= m4[i].potentials);
            assert(m4b[i] =~= m4[i]);
        } else {
            assert(m4b[i] =~= m4[i]);
        }
    }
    assert(m4b =~= m4);
    assert(updated_table(u).squares == apply_entries(m4, prune_entries(m4)));
    assert(updated_table(u) =~= u);
}

} // verus!
