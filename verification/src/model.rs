use crate::enums::{Container, SolverError};
use crate::helpers::{
    common_distinct, digit_seq, lemma_digits_missing_digit_seq, missing_digits, remove_first,
};
use vstd::prelude::*;

verus! {

// ---------------------------------------------------------------------------
// Mathematical models of the grid's data.
//
// Every executable type of the library has one of these as its view, and all
// contracts are stated over them.
// ---------------------------------------------------------------------------

/// Model of one grid position.
#[verifier::ext_equal]
pub struct CellModel {
    pub id: int,
    pub value: usize,
    pub potentials: Seq<usize>,
    pub line_potentials: Seq<usize>,
    pub column_potentials: Seq<usize>,
    pub box_potentials: Seq<usize>,
    pub abox_id: int,
    pub line_id: int,
    pub column_id: int,
    pub history: Seq<usize>,
}

/// Model of one group of nine squares (a row, a column, or a box).
#[verifier::ext_equal]
pub struct GroupModel {
    pub id: int,
    pub taken: Seq<usize>,
    pub remaining: Seq<usize>,
    pub squares: Seq<usize>,
}

/// Model of a full-grid snapshot, tagged with the guess about to be made.
#[verifier::ext_equal]
pub struct SnapModel {
    pub square: Seq<CellModel>,
    pub line: Seq<GroupModel>,
    pub column: Seq<GroupModel>,
    pub abox: Seq<GroupModel>,
    pub value: usize,
    pub square_id: usize,
}

/// Model of the whole table.
#[verifier::ext_equal]
pub struct TableModel {
    pub squares: Seq<CellModel>,
    pub line: Seq<GroupModel>,
    pub column: Seq<GroupModel>,
    pub abox: Seq<GroupModel>,
    pub snapshots: Seq<SnapModel>,
    pub max_attempts: i32,
    pub iteration: i32,
    pub snapshots_taken: usize,
    pub snapshot_rollbacks: usize,
}

/// The views of a sequence of viewable values, in order.
pub open spec fn views_of<T: View>(s: Seq<T>) -> Seq<T::V> {
    Seq::new(s.len(), |i: int| s[i]@)
}

// ---------------------------------------------------------------------------
// Grid geometry.
// ---------------------------------------------------------------------------

/// The box that cell `i` belongs to.
pub open spec fn box_of(i: int) -> int {
    (i / 27) * 3 + (i % 9) / 3
}

/// The `k`-th cell of line `j`.
pub open spec fn line_cell(j: int, k: int) -> usize {
    (9 * j + k) as usize
}

/// The `k`-th cell of column `j`.
pub open spec fn column_cell(j: int, k: int) -> usize {
    (j + 9 * k) as usize
}

/// The `k`-th cell of box `j`, in row-major order within the box.
pub open spec fn box_cell(j: int, k: int) -> usize {
    (27 * (j / 3) + 3 * (j % 3) + 9 * (k / 3) + k % 3) as usize
}

/// The nine cell ids of line `j`, in order.
pub open spec fn line_ids(j: int) -> Seq<usize> {
    Seq::new(9, |k: int| line_cell(j, k))
}

/// The nine cell ids of column `j`, in order.
pub open spec fn column_ids(j: int) -> Seq<usize> {
    Seq::new(9, |k: int| column_cell(j, k))
}

/// The nine cell ids of box `j`, in order.
pub open spec fn box_ids(j: int) -> Seq<usize> {
    Seq::new(9, |k: int| box_cell(j, k))
}

// ---------------------------------------------------------------------------
// Well-formedness.
// ---------------------------------------------------------------------------

/// Structural invariant of cell `i`: wiring fixed at construction, a value
/// in `0..=9`, candidate lists that hold digits only, and no candidates on a
/// filled cell.
pub open spec fn wf_cell(c: CellModel, i: int) -> bool {
    &&& c.id == i
    &&& c.line_id == i / 9
    &&& c.column_id == i % 9
    &&& c.abox_id == box_of(i)
    &&& c.value <= 9
    &&& (c.value != 0 ==> c.potentials.len() == 0)
    &&& digit_seq(c.potentials)
    &&& digit_seq(c.line_potentials)
    &&& digit_seq(c.column_potentials)
    &&& digit_seq(c.box_potentials)
}

/// Structural invariant of a group: its member list is fixed by `ids`, and
/// its taken/remaining lists hold digits only.
pub open spec fn wf_group(g: GroupModel, j: int, ids: Seq<usize>) -> bool {
    &&& g.id == j
    &&& g.squares == ids
    &&& digit_seq(g.taken)
    &&& digit_seq(g.remaining)
}

/// Structural invariant of a full grid: 81 well-formed cells.
pub open spec fn wf_grid(m: Seq<CellModel>) -> bool {
    &&& m.len() == 81
    &&& (forall|i: int| 0 <= i < 81 ==> wf_cell(#[trigger] m[i], i))
}

/// Structural invariant of the three group families.
pub open spec fn wf_groups(
    line: Seq<GroupModel>,
    column: Seq<GroupModel>,
    abox: Seq<GroupModel>,
) -> bool {
    &&& line.len() == 9
    &&& column.len() == 9
    &&& abox.len() == 9
    &&& (forall|j: int| 0 <= j < 9 ==> wf_group(#[trigger] line[j], j, line_ids(j)))
    &&& (forall|j: int| 0 <= j < 9 ==> wf_group(#[trigger] column[j], j, column_ids(j)))
    &&& (forall|j: int| 0 <= j < 9 ==> wf_group(#[trigger] abox[j], j, box_ids(j)))
}

/// Structural invariant of a stored snapshot: a well-formed copy of the
/// grid, tagged with a digit guessed at a real cell.
pub open spec fn wf_snap(s: SnapModel) -> bool {
    &&& wf_grid(s.square)
    &&& wf_groups(s.line, s.column, s.abox)
    &&& s.square_id < 81
    &&& 1 <= s.value <= 9
}

/// Structural invariant of the whole table.
pub open spec fn wf_table(t: TableModel) -> bool {
    &&& wf_grid(t.squares)
    &&& wf_groups(t.line, t.column, t.abox)
    &&& (forall|n: int| 0 <= n < t.snapshots.len() ==> wf_snap(#[trigger] t.snapshots[n]))
    &&& 0 <= t.iteration
}

// ---------------------------------------------------------------------------
// Reading the grid.
// ---------------------------------------------------------------------------

/// The non-zero values of the cells listed by `ids`, in member order: what a
/// group's `taken` list must be after recomputation.
pub open spec fn taken_of(m: Seq<CellModel>, ids: Seq<usize>) -> Seq<usize>
    decreases ids.len(),
{
    if ids.len() == 0 {
        Seq::empty()
    } else {
        let prev = taken_of(m, ids.drop_last());
        let v = m[ids.last() as int].value;
        if v != 0 {
            prev.push(v)
        } else {
            prev
        }
    }
}

/// How many of the first `k` cells hold a value.
pub open spec fn filled_upto(m: Seq<CellModel>, k: int) -> int
    decreases k,
{
    if k <= 0 {
        0
    } else {
        filled_upto(m, k - 1) + if m[k - 1].value != 0 {
            1int
        } else {
            0int
        }
    }
}

/// What the recomputed taken list contains: exactly the values standing in
/// the listed cells.
pub proof fn lemma_taken_of_contains(m: Seq<CellModel>, ids: Seq<usize>, v: usize)
    ensures
        taken_of(m, ids).contains(v) <==> (v != 0 && exists|k: int|
            0 <= k < ids.len() && #[trigger] m[ids[k] as int].value == v),
    decreases ids.len(),
{
    if ids.len() == 0 {
    } else {
        lemma_taken_of_contains(m, ids.drop_last(), v);
        let prev = taken_of(m, ids.drop_last());
        let w = m[ids.last() as int].value;
        if w != 0 {
            crate::helpers::lemma_push_contains(prev, w, v);
        }
        if taken_of(m, ids).contains(v) {
            if prev.contains(v) {
                let k = choose|k: int|
                    0 <= k < ids.drop_last().len() && #[trigger] m[ids.drop_last()[k] as int].value
                        == v;
                assert(ids.drop_last()[k] == ids[k]);
                assert(m[ids[k] as int].value == v);
            } else {
                assert(m[ids[ids.len() - 1] as int].value == v);
            }
        }
        if v != 0 && (exists|k: int| 0 <= k < ids.len() && #[trigger] m[ids[k] as int].value == v) {
            let k = choose|k: int| 0 <= k < ids.len() && #[trigger] m[ids[k] as int].value == v;
            if k < ids.len() - 1 {
                assert(ids.drop_last()[k] == ids[k]);
                assert(prev.contains(v));
            } else {
                assert(w == v);
            }
        }
    }
}

/// The members of `ids` hold no duplicate non-zero value.
pub open spec fn distinct_values(m: Seq<CellModel>, ids: Seq<usize>) -> bool {
    forall|k1: int, k2: int|
        0 <= k1 < ids.len() && 0 <= k2 < ids.len() && k1 != k2 && #[trigger] m[ids[k1] as int].value
            != 0 && #[trigger] m[ids[k2] as int].value != 0 ==> m[ids[k1] as int].value
            != m[ids[k2] as int].value
}

/// The puzzle's legality constraint: no row, column or box repeats a digit.
pub open spec fn valid_grid(m: Seq<CellModel>) -> bool {
    &&& (forall|j: int| 0 <= j < 9 ==> distinct_values(m, #[trigger] line_ids(j)))
    &&& (forall|j: int| 0 <= j < 9 ==> distinct_values(m, #[trigger] column_ids(j)))
    &&& (forall|j: int| 0 <= j < 9 ==> distinct_values(m, #[trigger] box_ids(j)))
}

/// The first member of `ids`, at position `k` or after, whose cell is empty.
pub open spec fn first_empty(m: Seq<CellModel>, ids: Seq<usize>, k: int) -> Option<int>
    decreases ids.len() - k,
{
    if k < 0 || k >= ids.len() {
        None
    } else if m[ids[k] as int].value == 0 {
        Some(k)
    } else {
        first_empty(m, ids, k + 1)
    }
}

// ---------------------------------------------------------------------------
// Writing the grid: the effect of an assignment.
// ---------------------------------------------------------------------------

/// A cell after a committed assignment: the value is written and every
/// candidate list is cleared.
pub open spec fn cell_assigned(c: CellModel, v: usize) -> CellModel {
    CellModel {
        value: v,
        potentials: Seq::empty(),
        line_potentials: Seq::empty(),
        column_potentials: Seq::empty(),
        box_potentials: Seq::empty(),
        ..c
    }
}

/// A cell after a guessed assignment: as committed, and the guess is
/// recorded in the history.
pub open spec fn cell_guessed(c: CellModel, v: usize) -> CellModel {
    CellModel { history: c.history.push(v), ..cell_assigned(c, v) }
}

/// A cell with its pruned candidate list replaced.
pub open spec fn cell_with_potentials(c: CellModel, p: Seq<usize>) -> CellModel {
    CellModel { potentials: p, ..c }
}

/// A cell with one per-axis candidate list replaced, selected by tag.
pub open spec fn cell_axis_set(c: CellModel, target: Container, p: Seq<usize>) -> CellModel {
    match target {
        Container::LINE => CellModel { line_potentials: p, ..c },
        Container::COLUMN => CellModel { column_potentials: p, ..c },
        Container::ABOX => CellModel { box_potentials: p, ..c },
    }
}

/// A group after one of its members took `v`.
pub open spec fn group_took(g: GroupModel, v: usize) -> GroupModel {
    GroupModel { taken: g.taken.push(v), remaining: remove_first(g.remaining, v), ..g }
}

/// The whole table after value `v` is set at cell `id`: the cell is written
/// and its three owning groups record the taken digit.
pub open spec fn table_set_square(t: TableModel, id: int, v: usize, guess: bool) -> TableModel {
    TableModel {
        squares: t.squares.update(
            id,
            if guess {
                cell_guessed(t.squares[id], v)
            } else {
                cell_assigned(t.squares[id], v)
            },
        ),
        line: t.line.update(id / 9, group_took(t.line[id / 9], v)),
        column: t.column.update(id % 9, group_took(t.column[id % 9], v)),
        abox: t.abox.update(box_of(id), group_took(t.abox[box_of(id)], v)),
        ..t
    }
}

// ---------------------------------------------------------------------------
// Construction.
// ---------------------------------------------------------------------------

/// Cell `i` of a freshly built table: the configured value, empty candidate
/// lists, empty history, wiring from position arithmetic.
pub open spec fn initial_cell(config: Seq<usize>, i: int) -> CellModel {
    CellModel {
        id: i,
        value: config[i],
        potentials: Seq::empty(),
        line_potentials: Seq::empty(),
        column_potentials: Seq::empty(),
        box_potentials: Seq::empty(),
        abox_id: box_of(i),
        line_id: i / 9,
        column_id: i % 9,
        history: Seq::empty(),
    }
}

/// A freshly built group: members wired, no digit taken yet.
pub open spec fn initial_group(j: int, ids: Seq<usize>) -> GroupModel {
    GroupModel { id: j, taken: Seq::empty(), remaining: Seq::empty(), squares: ids }
}

/// The whole table as constructed from a configuration and a budget.
pub open spec fn initial_table(config: Seq<usize>, max_attempts: i32) -> TableModel {
    TableModel {
        squares: Seq::new(81, |i: int| initial_cell(config, i)),
        line: Seq::new(9, |j: int| initial_group(j, line_ids(j))),
        column: Seq::new(9, |j: int| initial_group(j, column_ids(j))),
        abox: Seq::new(9, |j: int| initial_group(j, box_ids(j))),
        snapshots: Seq::empty(),
        max_attempts: max_attempts,
        iteration: 0,
        snapshots_taken: 0,
        snapshot_rollbacks: 0,
    }
}

// ---------------------------------------------------------------------------
// Recomputation (`update`): groups, then per-cell candidates, then pruning.
// ---------------------------------------------------------------------------

/// A group with its taken/remaining digits recomputed from the grid.
pub open spec fn group_updated(g: GroupModel, m: Seq<CellModel>, ids: Seq<usize>) -> GroupModel {
    GroupModel { taken: taken_of(m, ids), remaining: missing_digits(taken_of(m, ids)), ..g }
}

/// The table with every line's digit sets recomputed.
pub open spec fn lines_recomputed(t: TableModel) -> TableModel {
    TableModel {
        line: Seq::new(t.line.len(), |j: int| group_updated(t.line[j], t.squares, line_ids(j))),
        ..t
    }
}

/// The table with every column's digit sets recomputed.
pub open spec fn columns_recomputed(t: TableModel) -> TableModel {
    TableModel {
        column: Seq::new(
            t.column.len(),
            |j: int| group_updated(t.column[j], t.squares, column_ids(j)),
        ),
        ..t
    }
}

/// The table with every box's digit sets recomputed.
pub open spec fn aboxes_recomputed(t: TableModel) -> TableModel {
    TableModel {
        abox: Seq::new(t.abox.len(), |j: int| group_updated(t.abox[j], t.squares, box_ids(j))),
        ..t
    }
}

/// Cell `i` refreshed from the groups' digit sets: an empty cell gets its
/// three per-axis candidate lists recomputed and its candidate list reset
/// to their duplicate-free ordered intersection; a filled cell keeps every
/// potential field empty.
pub open spec fn refreshed_cell(t: TableModel, i: int) -> CellModel {
    if t.squares[i].value == 0 {
        let lp = missing_digits(t.line[i / 9].taken);
        let cp = missing_digits(t.column[i % 9].taken);
        let bp = missing_digits(t.abox[box_of(i)].taken);
        CellModel {
            potentials: common_distinct(bp, lp, cp),
            line_potentials: lp,
            column_potentials: cp,
            box_potentials: bp,
            ..t.squares[i]
        }
    } else {
        CellModel {
            line_potentials: Seq::empty(),
            column_potentials: Seq::empty(),
            box_potentials: Seq::empty(),
            ..t.squares[i]
        }
    }
}

/// The whole grid refreshed from the groups.
pub open spec fn refreshed_grid(t: TableModel) -> Seq<CellModel> {
    Seq::new(t.squares.len(), |i: int| refreshed_cell(t, i))
}

// ---------------------------------------------------------------------------
// Naked-subset pruning within boxes.
// ---------------------------------------------------------------------------

/// The ids of the first `k` members of box `b` whose candidate list holds
/// digit `d`, in member order.
pub open spec fn cells_with_prefix(m: Seq<CellModel>, b: int, d: usize, k: int) -> Seq<usize>
    decreases k,
{
    if k <= 0 {
        Seq::empty()
    } else {
        let prev = cells_with_prefix(m, b, d, k - 1);
        let id = box_cell(b, k - 1);
        if m[id as int].potentials.contains(d) {
            prev.push(id)
        } else {
            prev
        }
    }
}

/// The ids of the members of box `b` whose candidate list holds digit `d`.
pub open spec fn cells_with(m: Seq<CellModel>, b: int, d: usize) -> Seq<usize> {
    cells_with_prefix(m, b, d, 9)
}

/// The digits `1..=dmax` that exactly `n` members of box `b` can hold, in
/// increasing order.
pub open spec fn digits_with_count_prefix(m: Seq<CellModel>, b: int, n: int, dmax: int) -> Seq<
    usize,
>
    decreases dmax,
{
    if dmax <= 0 {
        Seq::empty()
    } else {
        let prev = digits_with_count_prefix(m, b, n, dmax - 1);
        if cells_with(m, b, dmax as usize).len() == n {
            prev.push(dmax as usize)
        } else {
            prev
        }
    }
}

/// The digits that exactly `n` members of box `b` can hold.
pub open spec fn digits_with_count(m: Seq<CellModel>, b: int, n: int) -> Seq<usize> {
    digits_with_count_prefix(m, b, n, 9)
}

/// One identified naked subset: `digits` confined to exactly `cells`.
#[verifier::ext_equal]
pub struct PruneEntry {
    pub digits: Seq<usize>,
    pub cells: Seq<usize>,
}

/// Every element of `a` occurs in `b`.
pub open spec fn subset_cells(a: Seq<usize>, b: Seq<usize>) -> bool {
    forall|t: int| 0 <= t < a.len() ==> b.contains(#[trigger] a[t])
}

/// The naked pair of box `b`, when exactly two digits are each confined to
/// the same two cells.
pub open spec fn pair_entry(m: Seq<CellModel>, b: int) -> Option<PruneEntry> {
    let p = digits_with_count(m, b, 2);
    if p.len() == 2 && subset_cells(cells_with(m, b, p[0]), cells_with(m, b, p[1])) {
        Some(PruneEntry { digits: p, cells: cells_with(m, b, p[0]) })
    } else {
        None
    }
}

/// The naked triple of box `b`.
pub open spec fn triple_entry(m: Seq<CellModel>, b: int) -> Option<PruneEntry> {
    let p = digits_with_count(m, b, 3);
    if p.len() == 3 && subset_cells(cells_with(m, b, p[0]), cells_with(m, b, p[1]))
        && subset_cells(cells_with(m, b, p[0]), cells_with(m, b, p[2])) {
        Some(PruneEntry { digits: p, cells: cells_with(m, b, p[0]) })
    } else {
        None
    }
}

/// The naked quadruple of box `b`, taken from the first four digits that
/// four cells can hold.
pub open spec fn quad_entry(m: Seq<CellModel>, b: int) -> Option<PruneEntry> {
    let p = digits_with_count(m, b, 4);
    if p.len() >= 4 && subset_cells(cells_with(m, b, p[0]), cells_with(m, b, p[1]))
        && subset_cells(cells_with(m, b, p[0]), cells_with(m, b, p[2])) && subset_cells(
        cells_with(m, b, p[0]),
        cells_with(m, b, p[3]),
    ) {
        Some(PruneEntry { digits: p.take(4), cells: cells_with(m, b, p[0]) })
    } else {
        None
    }
}

/// The identified subsets of box `b`, pairs first.
pub open spec fn box_entries(m: Seq<CellModel>, b: int) -> Seq<PruneEntry> {
    (match pair_entry(m, b) {
        Some(e) => seq![e],
        None => Seq::empty(),
    }) + (match triple_entry(m, b) {
        Some(e) => seq![e],
        None => Seq::empty(),
    }) + (match quad_entry(m, b) {
        Some(e) => seq![e],
        None => Seq::empty(),
    })
}

/// The identified subsets of the first `b` boxes, in box order.
pub open spec fn entries_upto(m: Seq<CellModel>, b: int) -> Seq<PruneEntry>
    decreases b,
{
    if b <= 0 {
        Seq::empty()
    } else {
        entries_upto(m, b - 1) + box_entries(m, b - 1)
    }
}

/// Every naked subset identified in the grid.
pub open spec fn prune_entries(m: Seq<CellModel>) -> Seq<PruneEntry> {
    entries_upto(m, 9)
}

/// The grid after one identified subset restricts its cells' candidates.
pub open spec fn apply_entry(m: Seq<CellModel>, e: PruneEntry) -> Seq<CellModel> {
    Seq::new(
        m.len(),
        |i: int|
            if e.cells.contains(i as usize) {
                cell_with_potentials(m[i], e.digits)
            } else {
                m[i]
            },
    )
}

/// The grid after a list of identified subsets is applied in order.
pub open spec fn apply_entries(m: Seq<CellModel>, es: Seq<PruneEntry>) -> Seq<CellModel>
    decreases es.len(),
{
    if es.len() == 0 {
        m
    } else {
        apply_entry(apply_entries(m, es.drop_last()), es.last())
    }
}

/// The grid after naked-subset pruning.
pub open spec fn pruned_grid(m: Seq<CellModel>) -> Seq<CellModel> {
    apply_entries(m, prune_entries(m))
}

/// What a prune entry may claim of the grid it was identified in: its
/// digits are digits, its cells are real, and every one of its digits is
/// still a candidate of every one of its cells.
pub open spec fn entry_ok(m: Seq<CellModel>, e: PruneEntry) -> bool {
    &&& digit_seq(e.digits)
    &&& e.digits.len() > 0
    &&& (forall|t: int| 0 <= t < e.cells.len() ==> #[trigger] e.cells[t] < 81)
    &&& (forall|t: int, u: int|
        0 <= t < e.cells.len() && 0 <= u < e.digits.len() ==> m[#[trigger] e.cells[t] as int].potentials.contains(
            #[trigger] e.digits[u],
        ))
}

/// Every cell listed for digit `d` is a real cell whose candidates hold `d`.
pub proof fn lemma_cells_with_props(m: Seq<CellModel>, b: int, d: usize, k: int)
    requires
        0 <= b < 9,
        k <= 9,
    ensures
        forall|t: int|
            0 <= t < cells_with_prefix(m, b, d, k).len() ==> #[trigger] cells_with_prefix(
                m,
                b,
                d,
                k,
            )[t] < 81 && m[cells_with_prefix(m, b, d, k)[t] as int].potentials.contains(d),
    decreases k,
{
    if k <= 0 {
    } else {
        lemma_cells_with_props(m, b, d, k - 1);
        let prev = cells_with_prefix(m, b, d, k - 1);
        let id = box_cell(b, k - 1);
        assert(id < 81) by {
            assert(b / 3 <= 2);
            assert(b % 3 <= 2);
            assert((k - 1) / 3 <= 2);
            assert((k - 1) % 3 <= 2);
        }
        if m[id as int].potentials.contains(d) {
            assert forall|t: int| 0 <= t < prev.push(id).len() implies #[trigger] prev.push(id)[t]
                < 81 && m[prev.push(id)[t] as int].potentials.contains(d) by {
                if t < prev.len() {
                    assert(prev.push(id)[t] == prev[t]);
                } else {
                    assert(prev.push(id)[t] == id);
                }
            }
        }
    }
}

/// The digit lists built by counting candidates hold digits only.
pub proof fn lemma_digits_with_count_digits(m: Seq<CellModel>, b: int, n: int, dmax: int)
    requires
        dmax <= 9,
    ensures
        digit_seq(digits_with_count_prefix(m, b, n, dmax)),
    decreases dmax,
{
    if dmax <= 0 {
    } else {
        lemma_digits_with_count_digits(m, b, n, dmax - 1);
        let prev = digits_with_count_prefix(m, b, n, dmax - 1);
        if cells_with(m, b, dmax as usize).len() == n {
            assert forall|t: int| 0 <= t < prev.push(dmax as usize).len() implies 1
                <= #[trigger] prev.push(dmax as usize)[t] <= 9 by {
                if t < prev.len() {
                    assert(prev.push(dmax as usize)[t] == prev[t]);
                }
            }
        }
    }
}

/// Every entry a box identifies is sound for the grid it was read from.
pub proof fn lemma_box_entries_ok(m: Seq<CellModel>, b: int)
    requires
        0 <= b < 9,
    ensures
        forall|n: int| 0 <= n < box_entries(m, b).len() ==> entry_ok(m, #[trigger] box_entries(m, b)[n]),
{
    lemma_digits_with_count_digits(m, b, 2, 9);
    lemma_digits_with_count_digits(m, b, 3, 9);
    lemma_digits_with_count_digits(m, b, 4, 9);
    assert forall|n: int| 0 <= n < box_entries(m, b).len() implies entry_ok(
        m,
        #[trigger] box_entries(m, b)[n],
    ) by {
        let e = box_entries(m, b)[n];
        assert(e == pair_entry(m, b).unwrap() || e == triple_entry(m, b).unwrap() || e
            == quad_entry(m, b).unwrap());
        if pair_entry(m, b) matches Some(pe) && e == pe {
            let p = digits_with_count(m, b, 2);
            assert(p.take(2) =~= p);
            lemma_entry_from_subsets(m, b, p, e);
        }
        if triple_entry(m, b) matches Some(te) && e == te {
            let p = digits_with_count(m, b, 3);
            assert(p.take(3) =~= p);
            lemma_entry_from_subsets(m, b, p, e);
        }
        if quad_entry(m, b) matches Some(qe) && e == qe {
            let p = digits_with_count(m, b, 4);
            assert forall|u: int| 1 <= u < p.take(4).len() implies subset_cells(
                cells_with(m, b, p.take(4)[0]),
                cells_with(m, b, #[trigger] p.take(4)[u]),
            ) by {
                assert(p.take(4)[u] == p[u]);
            }
            lemma_entry_from_subsets(m, b, p.take(4), e);
        }
    }
}

/// An entry whose cells are the candidate cells of its first digit, and
/// whose digits all confine to supersets of those cells, is sound.
proof fn lemma_entry_from_subsets(m: Seq<CellModel>, b: int, digits: Seq<usize>, e: PruneEntry)
    requires
        0 <= b < 9,
        digit_seq(digits),
        digits.len() > 0,
        e.digits == digits,
        e.cells == cells_with(m, b, digits[0]),
        forall|u: int|
            1 <= u < digits.len() ==> subset_cells(
                cells_with(m, b, digits[0]),
                cells_with(m, b, #[trigger] digits[u]),
            ),
    ensures
        entry_ok(m, e),
{
    assert forall|t: int| 0 <= t < e.cells.len() implies #[trigger] e.cells[t] < 81 by {
        lemma_cells_with_props(m, b, digits[0], 9);
    }
    assert forall|t: int, u: int|
        0 <= t < e.cells.len() && 0 <= u < e.digits.len() implies m[#[trigger] e.cells[t] as int].potentials.contains(
        #[trigger] e.digits[u],
    ) by {
        let c = e.cells[t];
        lemma_cells_with_props(m, b, digits[0], 9);
        assert(cells_with(m, b, digits[0]).contains(c)) by {
            assert(cells_with(m, b, digits[0])[t] == c);
        }
        if u != 0 {
            assert(subset_cells(cells_with(m, b, digits[0]), cells_with(m, b, digits[u])));
            assert(cells_with(m, b, digits[u]).contains(c)) by {
                let t1 = choose|t1: int|
                    0 <= t1 < cells_with(m, b, digits[0]).len() && cells_with(m, b, digits[0])[t1]
                        == c;
                assert(cells_with(m, b, digits[0])[t1] == c);
            }
        }
        let t2 = choose|t2: int|
            0 <= t2 < cells_with(m, b, digits[u]).len() && cells_with(m, b, digits[u])[t2] == c;
        lemma_cells_with_props(m, b, digits[u], 9);
        assert(m[cells_with(m, b, digits[u])[t2] as int].potentials.contains(digits[u]));
    }
}

/// Every entry identified anywhere in the grid is sound.
pub proof fn lemma_entries_upto_ok(m: Seq<CellModel>, b: int)
    requires
        b <= 9,
    ensures
        forall|n: int| 0 <= n < entries_upto(m, b).len() ==> entry_ok(m, #[trigger] entries_upto(m, b)[n]),
    decreases b,
{
    if b <= 0 {
    } else {
        lemma_entries_upto_ok(m, b - 1);
        lemma_box_entries_ok(m, b - 1);
        let prev = entries_upto(m, b - 1);
        let bx = box_entries(m, b - 1);
        assert forall|n: int| 0 <= n < (prev + bx).len() implies entry_ok(
            m,
            #[trigger] (prev + bx)[n],
        ) by {
            if n < prev.len() {
                assert((prev + bx)[n] == prev[n]);
            } else {
                assert((prev + bx)[n] == bx[n - prev.len()]);
            }
        }
    }
}

/// Applying a list of sound entries keeps the grid well formed, changes
/// nothing but pruned candidate lists, and only ever shrinks them.
pub proof fn lemma_apply_entries_wf(m: Seq<CellModel>, es: Seq<PruneEntry>)
    requires
        wf_grid(m),
        forall|n: int| 0 <= n < es.len() ==> entry_ok(m, #[trigger] es[n]),
    ensures
        apply_entries(m, es).len() == 81,
        wf_grid(apply_entries(m, es)),
        forall|i: int|
            0 <= i < 81 ==> #[trigger] apply_entries(m, es)[i] == cell_with_potentials(
                m[i],
                apply_entries(m, es)[i].potentials,
            ),
        forall|i: int, dd: usize|
            0 <= i < 81 && #[trigger] apply_entries(m, es)[i].potentials.contains(dd)
                ==> m[i].potentials.contains(dd),
    decreases es.len(),
{
    if es.len() == 0 {
        assert forall|i: int| 0 <= i < 81 implies #[trigger] apply_entries(m, es)[i]
            == cell_with_potentials(m[i], apply_entries(m, es)[i].potentials) by {
            assert(m[i] =~= cell_with_potentials(m[i], m[i].potentials));
        }
    } else {
        assert forall|n: int| 0 <= n < es.drop_last().len() implies entry_ok(
            m,
            #[trigger] es.drop_last()[n],
        ) by {
            assert(es.drop_last()[n] == es[n]);
        }
        lemma_apply_entries_wf(m, es.drop_last());
        let mid = apply_entries(m, es.drop_last());
        let e = es.last();
        let r = apply_entries(m, es);
        assert(r == apply_entry(mid, e));
        assert(entry_ok(m, e));
        assert forall|i: int| 0 <= i < 81 implies #[trigger] r[i] == cell_with_potentials(
            m[i],
            r[i].potentials,
        ) by {
            if e.cells.contains(i as usize) {
                assert(r[i] == cell_with_potentials(mid[i], e.digits));
                assert(mid[i] == cell_with_potentials(m[i], mid[i].potentials));
                assert(cell_with_potentials(mid[i], e.digits) =~= cell_with_potentials(
                    m[i],
                    e.digits,
                ));
            } else {
                assert(r[i] == mid[i]);
            }
        }
        assert forall|i: int, dd: usize|
            0 <= i < 81 && #[trigger] r[i].potentials.contains(dd) implies m[i].potentials.contains(
            dd,
        ) by {
            if e.cells.contains(i as usize) {
                assert(r[i].potentials == e.digits);
                let t = choose|t: int| 0 <= t < e.cells.len() && e.cells[t] == i as usize;
                let u = choose|u: int| 0 <= u < e.digits.len() && e.digits[u] == dd;
                assert(m[e.cells[t] as int].potentials.contains(e.digits[u]));
            } else {
                assert(r[i] == mid[i]);
            }
        }
        assert forall|i: int| 0 <= i < 81 implies wf_cell(#[trigger] r[i], i) by {
            assert(wf_cell(m[i], i));
            assert(wf_cell(mid[i], i));
            if e.cells.contains(i as usize) {
                assert(r[i] == cell_with_potentials(mid[i], e.digits));
                if r[i].value != 0 {
                    let t = choose|t: int| 0 <= t < e.cells.len() && e.cells[t] == i as usize;
                    assert(m[e.cells[t] as int].potentials.contains(e.digits[0]));
                    assert(m[i].potentials.len() == 0);
                    let w = choose|w: int|
                        0 <= w < m[i].potentials.len() && m[i].potentials[w] == e.digits[0];
                    assert(false);
                }
            } else {
                assert(r[i] == mid[i]);
            }
        }
    }
}

/// The whole effect of one `update` pass: group digit sets recomputed, every
/// cell's candidates refreshed, then naked subsets pruned.
pub open spec fn updated_table(t: TableModel) -> TableModel {
    let t3 = aboxes_recomputed(columns_recomputed(lines_recomputed(t)));
    let t4 = TableModel { squares: refreshed_grid(t3), ..t3 };
    TableModel { squares: pruned_grid(t4.squares), ..t4 }
}

/// Recomputing all three group families preserves well-formedness.
pub proof fn lemma_recomputed_wf(t: TableModel)
    requires
        wf_table(t),
    ensures
        wf_table(aboxes_recomputed(columns_recomputed(lines_recomputed(t)))),
        aboxes_recomputed(columns_recomputed(lines_recomputed(t))).squares == t.squares,
        aboxes_recomputed(columns_recomputed(lines_recomputed(t))).snapshots == t.snapshots,
{
    let t3 = aboxes_recomputed(columns_recomputed(lines_recomputed(t)));
    assert forall|j: int| 0 <= j < 9 implies wf_group(#[trigger] t3.line[j], j, line_ids(j)) by {
        lemma_ids_in_range(j);
        lemma_group_updated_wf(t.line[j], t.squares, j, line_ids(j));
    }
    assert forall|j: int| 0 <= j < 9 implies wf_group(#[trigger] t3.column[j], j, column_ids(j)) by {
        lemma_ids_in_range(j);
        lemma_group_updated_wf(t.column[j], t.squares, j, column_ids(j));
    }
    assert forall|j: int| 0 <= j < 9 implies wf_group(#[trigger] t3.abox[j], j, box_ids(j)) by {
        lemma_ids_in_range(j);
        lemma_group_updated_wf(t.abox[j], t.squares, j, box_ids(j));
    }
}

/// The whole update pass preserves well-formedness, and changes nothing of
/// any cell but its candidate lists.
pub proof fn lemma_updated_table_wf(t: TableModel)
    requires
        wf_table(t),
    ensures
        wf_table(updated_table(t)),
        updated_table(t).squares.len() == 81,
        updated_table(t).line == aboxes_recomputed(
            columns_recomputed(lines_recomputed(t)),
        ).line,
        updated_table(t).column == aboxes_recomputed(
            columns_recomputed(lines_recomputed(t)),
        ).column,
        updated_table(t).abox == aboxes_recomputed(
            columns_recomputed(lines_recomputed(t)),
        ).abox,
        updated_table(t).snapshots == t.snapshots,
        updated_table(t).iteration == t.iteration,
        updated_table(t).max_attempts == t.max_attempts,
        updated_table(t).snapshots_taken == t.snapshots_taken,
        updated_table(t).snapshot_rollbacks == t.snapshot_rollbacks,
        forall|i: int|
            0 <= i < 81 ==> (#[trigger] updated_table(t).squares[i]).value == t.squares[i].value
                && updated_table(t).squares[i].history == t.squares[i].history && updated_table(
                t,
            ).squares[i].id == t.squares[i].id,
        forall|i: int|
            0 <= i < 81 && t.squares[i].value != 0 ==> (#[trigger] updated_table(
                t,
            ).squares[i]).potentials.len() == 0,
{
    lemma_recomputed_wf(t);
    let t3 = aboxes_recomputed(columns_recomputed(lines_recomputed(t)));
    let m4 = refreshed_grid(t3);
    let t4 = TableModel { squares: m4, ..t3 };
    assert forall|i: int| 0 <= i < 81 implies wf_cell(#[trigger] m4[i], i) by {
        lemma_refreshed_cell_wf(t3, i);
    }
    assert(wf_table(t4));
    lemma_entries_upto_ok(m4, 9);
    lemma_apply_entries_wf(m4, prune_entries(m4));
    let u = updated_table(t);
    assert(u.squares == apply_entries(m4, prune_entries(m4)));
    assert forall|i: int|
        0 <= i < 81 implies (#[trigger] u.squares[i]).value == t.squares[i].value
            && u.squares[i].history == t.squares[i].history && u.squares[i].id
            == t.squares[i].id by {
        assert(u.squares[i] == cell_with_potentials(m4[i], u.squares[i].potentials));
        assert(m4[i] == refreshed_cell(t3, i));
    }
    assert forall|i: int|
        0 <= i < 81 && t.squares[i].value != 0 implies (#[trigger] u.squares[i]).potentials.len()
            == 0 by {
        assert(wf_cell(t.squares[i], i));
        assert(m4[i] == refreshed_cell(t3, i));
        assert(m4[i].potentials == t.squares[i].potentials);
        if u.squares[i].potentials.len() > 0 {
            let dd = u.squares[i].potentials[0];
            assert(u.squares[i].potentials.contains(dd)) by {
                assert(u.squares[i].potentials[0] == dd);
            }
            assert(m4[i].potentials.contains(dd));
        }
    }
}

/// A taken list depends only on the listed cells' values.
pub proof fn lemma_taken_of_congruent(m1: Seq<CellModel>, m2: Seq<CellModel>, ids: Seq<usize>)
    requires
        forall|k: int|
            0 <= k < ids.len() ==> m1[#[trigger] ids[k] as int].value == m2[ids[k] as int].value,
    ensures
        taken_of(m1, ids) == taken_of(m2, ids),
    decreases ids.len(),
{
    if ids.len() == 0 {
    } else {
        assert forall|k: int|
            0 <= k < ids.drop_last().len() implies m1[#[trigger] ids.drop_last()[k] as int].value
            == m2[ids.drop_last()[k] as int].value by {
            assert(ids.drop_last()[k] == ids[k]);
        }
        lemma_taken_of_congruent(m1, m2, ids.drop_last());
        assert(ids.last() == ids[ids.len() - 1]);
    }
}

// ---------------------------------------------------------------------------
// The deduction rules and the search steps, as functions of the model.
// ---------------------------------------------------------------------------

/// The group family selected by a tag.
pub open spec fn family_of(t: TableModel, c: Container) -> Seq<GroupModel> {
    match c {
        Container::LINE => t.line,
        Container::COLUMN => t.column,
        Container::ABOX => t.abox,
    }
}

/// The member ids of group `j` of the family selected by a tag.
pub open spec fn family_ids(c: Container, j: int) -> Seq<usize> {
    match c {
        Container::LINE => line_ids(j),
        Container::COLUMN => column_ids(j),
        Container::ABOX => box_ids(j),
    }
}

/// The first group at or after `k` whose `remaining` set has exactly one
/// digit left.
pub open spec fn first_one_left(gs: Seq<GroupModel>, k: int) -> Option<int>
    decreases gs.len() - k,
{
    if k < 0 || k >= gs.len() {
        None
    } else if gs[k].remaining.len() == 1 {
        Some(k)
    } else {
        first_one_left(gs, k + 1)
    }
}

/// The outcome of a last-cell rule on one family: `None` when no group of
/// the family has exactly one digit left; otherwise the table after that
/// digit is assigned to the group's first empty member, or the fault when
/// the group has no empty member.
pub open spec fn one_left_step(t: TableModel, c: Container) -> Option<
    Result<TableModel, SolverError>,
> {
    match first_one_left(family_of(t, c), 0) {
        None => None,
        Some(j) => {
            let d = family_of(t, c)[j].remaining[0];
            match first_empty(t.squares, family_ids(c, j), 0) {
                None => Some(Err(SolverError::NoEmptyCell(c, j as usize, d))),
                Some(k) => Some(Ok(table_set_square(t, family_ids(c, j)[k] as int, d, false))),
            }
        },
    }
}

/// The greatest cell index at or below `k` whose candidate list has exactly
/// one digit: the cell that a full ascending scan settles on last.
pub open spec fn last_single_idx(m: Seq<CellModel>, k: int) -> Option<int>
    decreases k + 1,
{
    if k < 0 {
        None
    } else if m[k].potentials.len() == 1 {
        Some(k)
    } else {
        last_single_idx(m, k - 1)
    }
}

/// The outcome of the sole-candidate rule: the table after the last cell
/// with a single candidate is assigned it, or `None` when there is none.
pub open spec fn only_one_step(t: TableModel) -> Option<TableModel> {
    match last_single_idx(t.squares, 80) {
        None => None,
        Some(i) => Some(table_set_square(t, i, t.squares[i].potentials[0], false)),
    }
}

/// Whether some other member of cell `i`'s box lists `d` as a candidate.
pub open spec fn friend_has(m: Seq<CellModel>, i: int, d: usize) -> bool {
    exists|k: int|
        0 <= k < 9 && box_cell(box_of(i), k) != i
            && #[trigger] m[box_cell(box_of(i), k) as int].potentials.contains(d)
}

/// The first element of `s` at or after `idx` that `hist` does not contain.
pub open spec fn first_not_in(s: Seq<usize>, hist: Seq<usize>, idx: int) -> Option<usize>
    decreases s.len() - idx,
{
    if idx < 0 || idx >= s.len() {
        None
    } else if !hist.contains(s[idx]) {
        Some(s[idx])
    } else {
        first_not_in(s, hist, idx + 1)
    }
}

/// The first candidate of cell `i` at or after `idx` that no box friend
/// shares.
pub open spec fn first_unique_pot(m: Seq<CellModel>, i: int, idx: int) -> Option<usize>
    decreases m[i].potentials.len() - idx,
{
    if idx < 0 || idx >= m[i].potentials.len() {
        None
    } else if !friend_has(m, i, m[i].potentials[idx]) {
        Some(m[i].potentials[idx])
    } else {
        first_unique_pot(m, i, idx + 1)
    }
}

/// The first cell at or after `i` holding a candidate that no box friend
/// shares, with that candidate.
pub open spec fn box_unique_target(m: Seq<CellModel>, i: int) -> Option<(int, usize)>
    decreases 81 - i,
{
    if i < 0 || i >= 81 {
        None
    } else {
        match first_unique_pot(m, i, 0) {
            Some(d) => Some((i, d)),
            None => box_unique_target(m, i + 1),
        }
    }
}

/// The outcome of the block-unique rule.
pub open spec fn box_rule_step(t: TableModel) -> Option<TableModel> {
    match box_unique_target(t.squares, 0) {
        None => None,
        Some((i, d)) => Some(table_set_square(t, i, d, false)),
    }
}

/// The first cell at or after `i` with a pruned candidate not yet in its
/// history, with that candidate: the qualified guess.
pub open spec fn qualified_target(m: Seq<CellModel>, i: int) -> Option<(int, usize)>
    decreases 81 - i,
{
    if i < 0 || i >= 81 {
        None
    } else {
        match first_not_in(m[i].potentials, m[i].history, 0) {
            Some(d) => Some((i, d)),
            None => qualified_target(m, i + 1),
        }
    }
}

/// A cell's raw per-axis candidate intersection, ignoring pruning.
pub open spec fn raw_candidates(c: CellModel) -> Seq<usize> {
    common_distinct(c.box_potentials, c.line_potentials, c.column_potentials)
}

/// The first empty cell at or after `i` with a raw candidate not yet in its
/// history, with that candidate: the fallback guess.
pub open spec fn incompetent_target(m: Seq<CellModel>, i: int) -> Option<(int, usize)>
    decreases 81 - i,
{
    if i < 0 || i >= 81 {
        None
    } else if m[i].value == 0 && first_not_in(raw_candidates(m[i]), m[i].history, 0) is Some {
        Some((i, first_not_in(raw_candidates(m[i]), m[i].history, 0).unwrap()))
    } else {
        incompetent_target(m, i + 1)
    }
}

/// The snapshot of the whole grid state, tagged with a guess.
pub open spec fn snapshot_of(t: TableModel, id: usize, v: usize) -> SnapModel {
    SnapModel {
        square: t.squares,
        line: t.line,
        column: t.column,
        abox: t.abox,
        value: v,
        square_id: id,
    }
}

/// The table after digit `d` is guessed at cell `i`: the pre-guess state is
/// pushed on the snapshot stack, then the guess is assigned.
pub open spec fn guess_step_result(t: TableModel, i: int, d: usize) -> TableModel {
    let t1 = table_set_square(t, i, d, true);
    TableModel {
        snapshots: t.snapshots.push(snapshot_of(t, i as usize, d)),
        snapshots_taken: (t.snapshots_taken + 1) as usize,
        ..t1
    }
}

/// The table after the top snapshot is consumed: the saved state is
/// restored and the failed guess is recorded in its cell's history.
pub open spec fn rollback_step(t: TableModel) -> TableModel
    recommends
        t.snapshots.len() > 0,
{
    let s = t.snapshots.last();
    let c = s.square[s.square_id as int];
    TableModel {
        squares: s.square.update(s.square_id as int, CellModel { history: c.history.push(s.value), ..c }),
        line: s.line,
        column: s.column,
        abox: s.abox,
        snapshots: t.snapshots.drop_last(),
        snapshot_rollbacks: (t.snapshot_rollbacks + 1) as usize,
        ..t
    }
}

/// The first engine rule that fires, in strict priority order, and its
/// outcome before validation.
pub open spec fn engine_first_firing(t: TableModel) -> Option<Result<TableModel, SolverError>> {
    if one_left_step(t, Container::LINE) is Some {
        one_left_step(t, Container::LINE)
    } else if one_left_step(t, Container::COLUMN) is Some {
        one_left_step(t, Container::COLUMN)
    } else if one_left_step(t, Container::ABOX) is Some {
        one_left_step(t, Container::ABOX)
    } else if only_one_step(t) is Some {
        Some(Ok(only_one_step(t).unwrap()))
    } else if box_rule_step(t) is Some {
        Some(Ok(box_rule_step(t).unwrap()))
    } else {
        None
    }
}

// ---------------------------------------------------------------------------
// Scan lemmas: an ascending scan that has excluded a prefix agrees with the
// recursive first-match definitions.
// ---------------------------------------------------------------------------

/// A scan that ruled out groups `k..j` may continue from `j`.
pub proof fn lemma_first_one_left_scan(gs: Seq<GroupModel>, k: int, j: int)
    requires
        0 <= k <= j <= gs.len(),
        forall|t: int| k <= t < j ==> (#[trigger] gs[t]).remaining.len() != 1,
    ensures
        first_one_left(gs, k) == first_one_left(gs, j),
    decreases j - k,
{
    if k < j {
        lemma_first_one_left_scan(gs, k + 1, j);
    }
}

/// A scan that ruled out members `k..j` may continue from `j`.
pub proof fn lemma_first_empty_scan(m: Seq<CellModel>, ids: Seq<usize>, k: int, j: int)
    requires
        0 <= k <= j <= ids.len(),
        forall|t: int| k <= t < j ==> m[#[trigger] ids[t] as int].value != 0,
    ensures
        first_empty(m, ids, k) == first_empty(m, ids, j),
    decreases j - k,
{
    if k < j {
        lemma_first_empty_scan(m, ids, k + 1, j);
    }
}

/// A scan that ruled out elements `k..j` may continue from `j`.
pub proof fn lemma_first_not_in_scan(s: Seq<usize>, hist: Seq<usize>, k: int, j: int)
    requires
        0 <= k <= j <= s.len(),
        forall|t: int| k <= t < j ==> hist.contains(#[trigger] s[t]),
    ensures
        first_not_in(s, hist, k) == first_not_in(s, hist, j),
    decreases j - k,
{
    if k < j {
        lemma_first_not_in_scan(s, hist, k + 1, j);
    }
}

/// A scan that ruled out candidates `k..j` may continue from `j`.
pub proof fn lemma_first_unique_pot_scan(m: Seq<CellModel>, i: int, k: int, j: int)
    requires
        0 <= k <= j <= m[i].potentials.len(),
        forall|t: int| k <= t < j ==> friend_has(m, i, #[trigger] m[i].potentials[t]),
    ensures
        first_unique_pot(m, i, k) == first_unique_pot(m, i, j),
    decreases j - k,
{
    if k < j {
        lemma_first_unique_pot_scan(m, i, k + 1, j);
    }
}

/// A scan that found nothing in cells `k..j` may continue from `j`.
pub proof fn lemma_box_unique_target_scan(m: Seq<CellModel>, k: int, j: int)
    requires
        0 <= k <= j <= 81,
        forall|t: int| k <= t < j ==> first_unique_pot(m, t, 0) is None,
    ensures
        box_unique_target(m, k) == box_unique_target(m, j),
    decreases j - k,
{
    if k < j {
        lemma_box_unique_target_scan(m, k + 1, j);
    }
}

/// A scan that found nothing in cells `k..j` may continue from `j`.
pub proof fn lemma_qualified_target_scan(m: Seq<CellModel>, k: int, j: int)
    requires
        0 <= k <= j <= 81,
        forall|t: int| k <= t < j ==> first_not_in(m[t].potentials, m[t].history, 0) is None,
    ensures
        qualified_target(m, k) == qualified_target(m, j),
    decreases j - k,
{
    if k < j {
        lemma_qualified_target_scan(m, k + 1, j);
    }
}

/// A scan that found nothing in cells `k..j` may continue from `j`.
pub proof fn lemma_incompetent_target_scan(m: Seq<CellModel>, k: int, j: int)
    requires
        0 <= k <= j <= 81,
        forall|t: int|
            k <= t < j ==> !(m[t].value == 0 && first_not_in(
                raw_candidates(#[trigger] m[t]),
                m[t].history,
                0,
            ) is Some),
    ensures
        incompetent_target(m, k) == incompetent_target(m, j),
    decreases j - k,
{
    if k < j {
        lemma_incompetent_target_scan(m, k + 1, j);
    }
}

/// What a found first-untried element satisfies.
pub proof fn lemma_first_not_in_props(s: Seq<usize>, hist: Seq<usize>, idx: int)
    requires
        0 <= idx,
        first_not_in(s, hist, idx) is Some,
    ensures
        s.contains(first_not_in(s, hist, idx).unwrap()),
        !hist.contains(first_not_in(s, hist, idx).unwrap()),
    decreases s.len() - idx,
{
    if idx >= s.len() {
    } else if !hist.contains(s[idx]) {
        assert(s.contains(s[idx])) by {
            assert(s[idx] == s[idx]);
        }
    } else {
        lemma_first_not_in_props(s, hist, idx + 1);
    }
}

// ---------------------------------------------------------------------------
// Well-formedness lemmas.
// ---------------------------------------------------------------------------

/// A fresh table is well formed.
pub proof fn lemma_initial_table_wf(config: Seq<usize>, max_attempts: i32)
    requires
        config.len() == 81,
        forall|i: int| 0 <= i < 81 ==> #[trigger] config[i] <= 9,
    ensures
        wf_table(initial_table(config, max_attempts)),
{
    let t = initial_table(config, max_attempts);
    assert forall|i: int| 0 <= i < 81 implies wf_cell(#[trigger] t.squares[i], i) by {
        assert(t.squares[i] == initial_cell(config, i));
    }
    assert forall|j: int| 0 <= j < 9 implies wf_group(#[trigger] t.line[j], j, line_ids(j)) by {
        assert(t.line[j] == initial_group(j, line_ids(j)));
    }
    assert forall|j: int| 0 <= j < 9 implies wf_group(#[trigger] t.column[j], j, column_ids(j)) by {
        assert(t.column[j] == initial_group(j, column_ids(j)));
    }
    assert forall|j: int| 0 <= j < 9 implies wf_group(#[trigger] t.abox[j], j, box_ids(j)) by {
        assert(t.abox[j] == initial_group(j, box_ids(j)));
    }
}

/// The cell ids produced by the grid geometry are in range.
pub proof fn lemma_ids_in_range(j: int)
    requires
        0 <= j < 9,
    ensures
        forall|k: int| 0 <= k < 9 ==> #[trigger] line_ids(j)[k] < 81,
        forall|k: int| 0 <= k < 9 ==> #[trigger] column_ids(j)[k] < 81,
        forall|k: int| 0 <= k < 9 ==> #[trigger] box_ids(j)[k] < 81,
{
    assert forall|k: int| 0 <= k < 9 implies #[trigger] box_ids(j)[k] < 81 by {
        assert(j / 3 <= 2);
        assert(j % 3 <= 2);
        assert(k / 3 <= 2);
        assert(k % 3 <= 2);
    }
}

/// Recomputed taken lists hold digits only.
pub proof fn lemma_taken_of_digits(m: Seq<CellModel>, ids: Seq<usize>)
    requires
        wf_grid(m),
        forall|k: int| 0 <= k < ids.len() ==> #[trigger] ids[k] < 81,
    ensures
        digit_seq(taken_of(m, ids)),
    decreases ids.len(),
{
    if ids.len() == 0 {
    } else {
        assert forall|k: int| 0 <= k < ids.drop_last().len() implies #[trigger] ids.drop_last()[k]
            < 81 by {
            assert(ids.drop_last()[k] == ids[k]);
        }
        lemma_taken_of_digits(m, ids.drop_last());
        let prev = taken_of(m, ids.drop_last());
        let v = m[ids.last() as int].value;
        if v != 0 {
            assert(wf_cell(m[ids.last() as int], ids.last() as int));
            assert forall|t: int| 0 <= t < prev.push(v).len() implies 1 <= #[trigger] prev.push(
                v,
            )[t] <= 9 by {
                if t < prev.len() {
                    assert(prev.push(v)[t] == prev[t]);
                }
            }
        }
    }
}

/// Recomputing a group's digit sets preserves its invariant.
pub proof fn lemma_group_updated_wf(g: GroupModel, m: Seq<CellModel>, j: int, ids: Seq<usize>)
    requires
        wf_grid(m),
        wf_group(g, j, ids),
        forall|k: int| 0 <= k < ids.len() ==> #[trigger] ids[k] < 81,
    ensures
        wf_group(group_updated(g, m, ids), j, ids),
{
    lemma_taken_of_digits(m, ids);
    lemma_digits_missing_digit_seq(taken_of(m, ids), 9);
}

/// A box id computed from a cell id is in range.
pub proof fn lemma_box_of_range(i: int)
    requires
        0 <= i < 81,
    ensures
        0 <= box_of(i) < 9,
{
    assert(i / 27 <= 2);
    assert((i % 9) / 3 <= 2);
}

/// A refreshed cell keeps its invariant.
pub proof fn lemma_refreshed_cell_wf(t: TableModel, i: int)
    requires
        wf_table(t),
        0 <= i < 81,
    ensures
        wf_cell(refreshed_cell(t, i), i),
{
    lemma_box_of_range(i);
    assert(wf_cell(t.squares[i], i));
    assert(wf_group(t.line[i / 9], i / 9, line_ids(i / 9)));
    assert(wf_group(t.column[i % 9], i % 9, column_ids(i % 9)));
    assert(wf_group(t.abox[box_of(i)], box_of(i), box_ids(box_of(i))));
    let lp = missing_digits(t.line[i / 9].taken);
    let cp = missing_digits(t.column[i % 9].taken);
    let bp = missing_digits(t.abox[box_of(i)].taken);
    lemma_digits_missing_digit_seq(t.line[i / 9].taken, 9);
    lemma_digits_missing_digit_seq(t.column[i % 9].taken, 9);
    lemma_digits_missing_digit_seq(t.abox[box_of(i)].taken, 9);
    if t.squares[i].value == 0 {
        crate::helpers::lemma_common_distinct_digit_seq(bp, lp, cp, bp.len() as int);
    }
}

/// Removing an element from a digit list leaves a digit list.
pub proof fn lemma_remove_first_digit_seq(s: Seq<usize>, x: usize)
    requires
        digit_seq(s),
    ensures
        digit_seq(remove_first(s, x)),
    decreases s.len(),
{
    if s.len() == 0 {
    } else if s[0] == x {
        assert forall|t: int| 0 <= t < s.drop_first().len() implies 1 <= #[trigger] s.drop_first()[t]
            <= 9 by {
            assert(s.drop_first()[t] == s[t + 1]);
        }
    } else {
        assert forall|t: int| 0 <= t < s.drop_first().len() implies 1 <= #[trigger] s.drop_first()[t]
            <= 9 by {
            assert(s.drop_first()[t] == s[t + 1]);
        }
        lemma_remove_first_digit_seq(s.drop_first(), x);
        let r = seq![s[0]].add(remove_first(s.drop_first(), x));
        assert forall|t: int| 0 <= t < r.len() implies 1 <= #[trigger] r[t] <= 9 by {
            if t == 0 {
                assert(r[0] == s[0]);
            } else {
                assert(r[t] == remove_first(s.drop_first(), x)[t - 1]);
            }
        }
    }
}

/// Setting a digit at a real cell preserves well-formedness.
pub proof fn lemma_table_set_square_wf(t: TableModel, id: int, v: usize, guess: bool)
    requires
        wf_table(t),
        0 <= id < 81,
        1 <= v <= 9,
    ensures
        wf_table(table_set_square(t, id, v, guess)),
{
    let r = table_set_square(t, id, v, guess);
    assert forall|i: int| 0 <= i < 81 implies wf_cell(#[trigger] r.squares[i], i) by {
        if i == id {
            assert(wf_cell(t.squares[i], i));
        } else {
            assert(r.squares[i] == t.squares[i]);
        }
    }
    assert forall|j: int| 0 <= j < 9 implies wf_group(#[trigger] r.line[j], j, line_ids(j)) by {
        if j == id / 9 {
            lemma_remove_first_digit_seq(t.line[j].remaining, v);
            assert(digit_seq(t.line[j].taken.push(v)));
        } else {
            assert(r.line[j] == t.line[j]);
        }
    }
    assert forall|j: int| 0 <= j < 9 implies wf_group(#[trigger] r.column[j], j, column_ids(j)) by {
        if j == id % 9 {
            lemma_remove_first_digit_seq(t.column[j].remaining, v);
            assert(digit_seq(t.column[j].taken.push(v)));
        } else {
            assert(r.column[j] == t.column[j]);
        }
    }
    assert forall|j: int| 0 <= j < 9 implies wf_group(#[trigger] r.abox[j], j, box_ids(j)) by {
        if j == box_of(id) {
            lemma_remove_first_digit_seq(t.abox[j].remaining, v);
            assert(digit_seq(t.abox[j].taken.push(v)));
        } else {
            assert(r.abox[j] == t.abox[j]);
        }
    }
}

} // verus!
