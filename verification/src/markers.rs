//! Which strip the user sees, and which row a workspace shows.

use crate::rows;
use crate::rows::{Action, RowView, StripRow, Target};
use crate::search;
use crate::types::{Entity, WorkspaceId};
use vstd::prelude::*;

verus! {

/// Picks the active strips other than that of `trigger`.
pub open spec fn formerly_active(trigger: Entity) -> spec_fn(RowView) -> bool {
    |row: RowView| row.active && row.entity != trigger
}

/// Picks the selected strips of a workspace other than that of `trigger`.
pub open spec fn formerly_selected(trigger: Entity, id: WorkspaceId) -> spec_fn(RowView) -> bool {
    |row: RowView| row.selected && row.entity != trigger && row.strip.id == id
}

/// Picks the strips that hold a window.
pub open spec fn holds(window: Entity) -> spec_fn(RowView) -> bool {
    |row: RowView| row.strip.contains(window)
}

/// What takes the mark of the strip that the user sees from all strips but one.
pub open spec fn active_marks_taken(trigger: Entity, rows: Seq<RowView>) -> Seq<Action> {
    rows.filter(formerly_active(trigger)).map_values(
        |row: RowView| Action::RemoveActive(row.entity),
    )
}

/// What takes the mark of the row that a workspace shows from all strips of it but
/// one.
pub open spec fn selected_marks_taken(trigger: Entity, rows: Seq<RowView>) -> Seq<Action> {
    match search::first(rows, rows::row_of(trigger)) {
        Some(t) => rows.filter(formerly_selected(trigger, rows[t].strip.id)).map_values(
            |row: RowView| Action::RemoveSelected(row.entity),
        ),
        None => Seq::empty(),
    }
}

/// What is done to the world when a window gets focus.
pub open spec fn brought_up(focused: Entity, rows: Seq<RowView>) -> Seq<Action> {
    match search::first(rows, rows::is_active()) {
        Some(a) => if rows[a].strip.contains(focused) {
            Seq::empty()
        } else {
            activations(rows.filter(holds(focused)))
        },
        None => Seq::empty(),
    }
}

/// Takes the mark of the strip that the user sees from all strips but the one
/// that has just got it.
pub fn cleanup_active_workspace_marker(trigger: Entity, rows: &Vec<StripRow>) -> (actions: Vec<
    Action,
>)
    ensures
        actions@ == rows.deep_view().filter(formerly_active(trigger)).map_values(
            |row: RowView| Action::RemoveActive(row.entity),
        ),
        actions@ == active_marks_taken(trigger, rows.deep_view()),
{
    let ghost table = rows.deep_view();
    let ghost pick = formerly_active(trigger);
    let ghost act = |row: RowView| Action::RemoveActive(row.entity);
    let mut actions: Vec<Action> = Vec::new();
    proof {
        reveal(Seq::filter);
        assert(actions@ =~= table.take(0).filter(pick).map_values(act));
    }
    for i in 0..rows.len()
        invariant
            table == rows.deep_view(),
            pick == formerly_active(trigger),
            act == (|row: RowView| Action::RemoveActive(row.entity)),
            actions@ == table.take(i as int).filter(pick).map_values(act),
    {
        proof {
            assert(table[i as int] == rows@[i as int]@);
            search::lemma_filter_take(table, i as int, pick);
        }
        if rows[i].active && rows[i].entity != trigger {
            actions.push(Action::RemoveActive(rows[i].entity));
        }
        assert(actions@ =~= table.take(i + 1).filter(pick).map_values(act));
    }
    assert(table.take(table.len() as int) =~= table);
    actions
}

/// Takes the mark of the row that a workspace shows from all strips of the
/// workspace but the one that has just got it.
pub fn cleanup_selected_space_marker(trigger: Entity, rows: &Vec<StripRow>) -> (actions: Vec<
    Action,
>)
    ensures
        actions@ == match search::first(rows.deep_view(), rows::row_of(trigger)) {
            Some(t) => rows.deep_view().filter(
                formerly_selected(trigger, rows.deep_view()[t].strip.id),
            ).map_values(|row: RowView| Action::RemoveSelected(row.entity)),
            None => Seq::empty(),
        },
        actions@ == selected_marks_taken(trigger, rows.deep_view()),
{
    let mut actions: Vec<Action> = Vec::new();
    let id = match rows::find_row(rows, trigger) {
        Some(t) => {
            assert(rows.deep_view()[t as int] == rows@[t as int]@);
            rows[t].strip.id()
        },
        None => {
            return actions;
        },
    };
    let ghost table = rows.deep_view();
    let ghost pick = formerly_selected(trigger, id);
    let ghost act = |row: RowView| Action::RemoveSelected(row.entity);
    proof {
        reveal(Seq::filter);
        assert(actions@ =~= table.take(0).filter(pick).map_values(act));
    }
    for i in 0..rows.len()
        invariant
            table == rows.deep_view(),
            pick == formerly_selected(trigger, id),
            act == (|row: RowView| Action::RemoveSelected(row.entity)),
            actions@ == table.take(i as int).filter(pick).map_values(act),
    {
        proof {
            assert(table[i as int] == rows@[i as int]@);
            search::lemma_filter_take(table, i as int, pick);
        }
        if rows[i].selected && rows[i].entity != trigger && rows[i].strip.id() == id {
            actions.push(Action::RemoveSelected(rows[i].entity));
        }
        assert(actions@ =~= table.take(i + 1).filter(pick).map_values(act));
    }
    assert(table.take(table.len() as int) =~= table);
    actions
}

/// What makes all strips of these rows active and selected, in order.
pub open spec fn activations(rows: Seq<RowView>) -> Seq<Action>
    decreases rows.len(),
{
    if rows.len() == 0 {
        Seq::empty()
    } else {
        activations(rows.drop_last()) + crate::spaces::activation(
            Target::Strip(rows.last().entity),
        )
    }
}

/// Answers that a window got focus: if it is in another strip than the active
/// one, the strips that hold it become active and selected. Without an active
/// strip nothing happens.
pub fn virtual_strip_activated(focused: Entity, rows: &Vec<StripRow>) -> (actions: Vec<Action>)
    ensures
        actions@ == match search::first(rows.deep_view(), rows::is_active()) {
            Some(a) => if rows.deep_view()[a].strip.contains(focused) {
                Seq::empty()
            } else {
                activations(rows.deep_view().filter(holds(focused)))
            },
            None => Seq::empty(),
        },
        actions@ == brought_up(focused, rows.deep_view()),
{
    let mut actions: Vec<Action> = Vec::new();
    let ghost table = rows.deep_view();
    match crate::moves::find_active(rows) {
        Some(a) => {
            assert(table[a as int] == rows@[a as int]@);
            if rows[a].strip.contains(focused) {
                return actions;
            }
        },
        None => {
            return actions;
        },
    }
    proof {
        reveal(Seq::filter);
        assert(actions@ =~= activations(table.take(0).filter(holds(focused))));
    }
    for i in 0..rows.len()
        invariant
            table == rows.deep_view(),
            actions@ == activations(table.take(i as int).filter(holds(focused))),
    {
        let ghost before = table.take(i as int).filter(holds(focused));
        proof {
            assert(table[i as int] == rows@[i as int]@);
            search::lemma_filter_take(table, i as int, holds(focused));
        }
        if rows[i].strip.contains(focused) {
            let target = Target::Strip(rows[i].entity);
            actions.push(Action::InsertActive(target));
            actions.push(Action::InsertSelected(target));
            proof {
                let row = table[i as int];
                assert(before.push(row).drop_last() =~= before);
                assert(actions@ =~= activations(before.push(row)));
            }
        }
    }
    assert(table.take(table.len() as int) =~= table);
    actions
}

/// Of the strips that were active when one became active, that one alone still
/// is.
pub proof fn one_strip_stays_active(rows: Seq<RowView>, trigger: Entity, row: RowView)
    requires
        rows.contains(row),
    ensures
        ({
            let removed = rows.filter(formerly_active(trigger)).map_values(
                |row: RowView| Action::RemoveActive(row.entity),
            );
            row.active && !removed.contains(Action::RemoveActive(row.entity)) <==> row.active
                && row.entity == trigger
        }),
{
    let picked = rows.filter(formerly_active(trigger));
    let act = |row: RowView| Action::RemoveActive(row.entity);
    let removed = picked.map_values(act);
    search::lemma_filter_contains(rows, formerly_active(trigger), row);
    if row.active && row.entity != trigger {
        let k = choose|k: int| 0 <= k < picked.len() && picked[k] == row;
        assert(removed[k] == Action::RemoveActive(row.entity));
    }
    if removed.contains(Action::RemoveActive(row.entity)) {
        let k = choose|k: int|
            0 <= k < removed.len() && removed[k] == Action::RemoveActive(row.entity);
        assert(picked.contains(picked[k]));
        search::lemma_filter_contains(rows, formerly_active(trigger), picked[k]);
        assert(picked[k].entity == row.entity);
    }
}

/// Of the strips of a workspace that were selected when one was selected, that
/// one alone still is; those of other workspaces stay as they are.
pub proof fn one_row_of_a_workspace_stays_selected(
    rows: Seq<RowView>,
    trigger: Entity,
    id: WorkspaceId,
    row: RowView,
)
    requires
        rows::distinct(rows),
        rows.contains(row),
    ensures
        ({
            let removed = rows.filter(formerly_selected(trigger, id)).map_values(
                |row: RowView| Action::RemoveSelected(row.entity),
            );
            row.selected && !removed.contains(Action::RemoveSelected(row.entity)) <==> row.selected
                && (row.entity == trigger || row.strip.id != id)
        }),
{
    let picked = rows.filter(formerly_selected(trigger, id));
    let act = |row: RowView| Action::RemoveSelected(row.entity);
    let removed = picked.map_values(act);
    search::lemma_filter_contains(rows, formerly_selected(trigger, id), row);
    if row.selected && row.entity != trigger && row.strip.id == id {
        let k = choose|k: int| 0 <= k < picked.len() && picked[k] == row;
        assert(removed[k] == Action::RemoveSelected(row.entity));
    }
    if removed.contains(Action::RemoveSelected(row.entity)) {
        let k = choose|k: int|
            0 <= k < removed.len() && removed[k] == Action::RemoveSelected(row.entity);
        let other = picked[k];
        assert(picked.contains(other));
        search::lemma_filter_contains(rows, formerly_selected(trigger, id), other);
        assert(other.entity == row.entity);
        let i = choose|i: int| 0 <= i < rows.len() && rows[i] == row;
        let j = choose|j: int| 0 <= j < rows.len() && rows[j] == other;
        assert(rows[i].entity == rows[j].entity);
        assert(i == j);
    }
}

} // verus!
