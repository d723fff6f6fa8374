//! What becomes of the strips once the actions are carried out.

use crate::markers;
use crate::orphans;
use crate::orphans::Fate;
use crate::rows;
use crate::rows::{Action, Display, PresentView, RefreshWindowSizes, RowView, Target};
use crate::search;
use crate::types::{Entity, WorkspaceId};
use vstd::prelude::*;

verus! {

/// A strip after an action. What is done to other strips and to windows leaves
/// it as it is, and so does what is done to strips that are only just made; one
/// that goes is no longer looked at. `mark` is the mark that a strip gets when its
/// windows are to be measured.
pub open spec fn after_action(
    row: RowView,
    action: Action,
    mark: RefreshWindowSizes,
) -> RowView {
    match action {
        Action::InsertActive(Target::Strip(e)) if e == row.entity => RowView {
            active: true,
            ..row
        },
        Action::RemoveActive(e) if e == row.entity => RowView { active: false, ..row },
        Action::InsertSelected(Target::Strip(e)) if e == row.entity => RowView {
            selected: true,
            ..row
        },
        Action::RemoveSelected(e) if e == row.entity => RowView { selected: false, ..row },
        Action::InsertPrevious(e, previous) if e == row.entity => RowView {
            previous: Some(previous),
            ..row
        },
        Action::RemovePrevious(e) if e == row.entity => RowView { previous: None, ..row },
        Action::SetParent(e, display) if e == row.entity => RowView {
            parent: Some(display),
            ..row
        },
        Action::RemoveTimeout(e) if e == row.entity => RowView { timeout: None, ..row },
        Action::InsertRefresh(e) if e == row.entity => RowView {
            refresh: Some(mark),
            ..row
        },
        Action::RemoveRefresh(e) if e == row.entity => RowView { refresh: None, ..row },
        _ => row,
    }
}

/// A strip after several actions.
pub open spec fn after_actions(row: RowView, actions: Seq<Action>, mark: RefreshWindowSizes) -> RowView
    decreases actions.len(),
{
    if actions.len() == 0 {
        row
    } else {
        after_action(after_actions(row, actions.drop_last(), mark), actions.last(), mark)
    }
}

/// All strips after several actions.
pub open spec fn all_after(rows: Seq<RowView>, actions: Seq<Action>, mark: RefreshWindowSizes) -> Seq<RowView> {
    rows.map_values(|row: RowView| after_actions(row, actions, mark))
}

/// Actions in two parts are carried out one part after the other.
pub proof fn lemma_after_both(row: RowView, a: Seq<Action>, b: Seq<Action>, mark: RefreshWindowSizes)
    ensures
        after_actions(row, a + b, mark) == after_actions(after_actions(row, a, mark), b, mark),
    decreases b.len(),
{
    if b.len() == 0 {
        assert(a + b =~= a);
    } else {
        assert((a + b).drop_last() =~= a + b.drop_last());
        lemma_after_both(row, a, b.drop_last(), mark);
    }
}

/// Actions change neither the entity of a strip nor its windows.
pub proof fn actions_keep_the_windows(row: RowView, actions: Seq<Action>, mark: RefreshWindowSizes)
    ensures
        after_actions(row, actions, mark).entity == row.entity,
        after_actions(row, actions, mark).strip == row.strip,
    decreases actions.len(),
{
    if actions.len() > 0 {
        actions_keep_the_windows(row, actions.drop_last(), mark);
    }
}

/// A strip that waited for a display, once all such strips are dealt with: on
/// the display that shows its workspace, or on the one that it was on, it waits
/// no more and is measured anew; else it is as it was.
pub open spec fn orphan_outcome(row: RowView, fate: Fate, mark: RefreshWindowSizes) -> RowView {
    let measured = Some(mark);
    match fate {
        Fate::Settled => RowView { timeout: None, refresh: measured, ..row },
        Fate::Reparented(display) => RowView {
            timeout: None,
            parent: Some(display),
            refresh: measured,
            ..row
        },
        _ => row,
    }
}

/// The steps for one strip that waits make of it what they should, and nothing
/// of any other that waits.
proof fn lemma_orphan_step(
    rows: Seq<RowView>,
    o: int,
    p: int,
    present: Seq<PresentView>,
    displays: Seq<Display>,
    mark: RefreshWindowSizes,
)
    requires
        rows::distinct(rows),
        0 <= o < rows.len(),
        0 <= p < rows.len(),
        rows[o].timeout is Some,
    ensures
        after_actions(rows[o], orphans::actions_for_orphan(rows, p, present, displays), mark) == if p == o {
            orphan_outcome(rows[o], orphans::fate(rows, o, present, displays).unwrap(), mark)
        } else {
            rows[o]
        },
        p != o ==> forall|row: RowView|
            row.entity == rows[o].entity ==> #[trigger] after_actions(
                row,
                orphans::actions_for_orphan(rows, p, present, displays), mark) == row,
{
    let actions = orphans::actions_for_orphan(rows, p, present, displays);
    reveal_with_fuel(after_actions, 4);
    match orphans::fate(rows, p, present, displays) {
        Some(Fate::Released) => {
            assert forall|k: int| 0 <= k < actions.len() implies #[trigger] actions[k] is InsertFloating by {}
            assert forall|row: RowView| #[trigger] after_actions(row, actions, mark) == row by {
                lemma_floating_leaves_strips(row, actions, mark);
            }
        },
        Some(Fate::Merged(m)) => {
            orphans::lemma_merged_into_settled(rows, p, present, displays, m);
            assert(m != o);
            assert(rows[m].entity != rows[o].entity);
            let e = rows[p].entity;
            let f = rows[m].entity;
            assert(actions.drop_last() =~= seq![Action::Despawn(e)]);
            assert(seq![Action::Despawn(e)].drop_last() =~= Seq::<Action>::empty());
            assert forall|row: RowView| row.entity == rows[o].entity implies #[trigger] after_actions(
                row,
                actions, mark) == row by {
                assert(after_actions(row, seq![Action::Despawn(e)], mark) == row);
            }
        },
        Some(Fate::Reparented(display)) => {
            let e = rows[p].entity;
            let two = seq![Action::RemoveTimeout(e), Action::SetParent(e, display)];
            let one = seq![Action::RemoveTimeout(e)];
            assert(actions.drop_last() =~= two);
            assert(two.drop_last() =~= one);
            assert(one.drop_last() =~= Seq::<Action>::empty());
            if p != o {
                assert(rows[p].entity != rows[o].entity);
            }
            assert forall|row: RowView| #[trigger] after_actions(row, actions, mark) == after_action(
                after_action(after_action(row, one[0], mark), two[1], mark),
                actions[2], mark) by {
                assert(after_actions(row, one, mark) == after_action(row, one[0], mark));
                assert(after_actions(row, two, mark) == after_action(after_action(row, one[0], mark), two[1], mark));
            }
        },
        Some(Fate::Settled) => {
            let e = rows[p].entity;
            let one = seq![Action::RemoveTimeout(e)];
            assert(actions.drop_last() =~= one);
            assert(one.drop_last() =~= Seq::<Action>::empty());
            if p != o {
                assert(rows[p].entity != rows[o].entity);
            }
            assert forall|row: RowView| #[trigger] after_actions(row, actions, mark) == after_action(
                after_action(row, one[0], mark),
                actions[1], mark) by {
                assert(after_actions(row, one, mark) == after_action(row, one[0], mark));
            }
        },
        Some(Fate::Discarded) => {
            assert(actions.drop_last() =~= Seq::<Action>::empty());
        },
        _ => {},
    }
}

/// Windows that are let float leave the strips as they are.
proof fn lemma_floating_leaves_strips(row: RowView, actions: Seq<Action>, mark: RefreshWindowSizes)
    requires
        forall|k: int| 0 <= k < actions.len() ==> #[trigger] actions[k] is InsertFloating,
    ensures
        after_actions(row, actions, mark) == row,
    decreases actions.len(),
{
    if actions.len() > 0 {
        let less = actions.drop_last();
        assert forall|k: int| 0 <= k < less.len() implies #[trigger] less[k] is InsertFloating by {
            assert(less[k] == actions[k]);
        }
        assert(actions[actions.len() - 1] is InsertFloating);
        lemma_floating_leaves_strips(row, less, mark);
    }
}

/// What becomes of a strip that waits, once the first `n` are dealt with.
proof fn lemma_orphans_so_far(
    rows: Seq<RowView>,
    n: int,
    present: Seq<PresentView>,
    displays: Seq<Display>,
    o: int,
    mark: RefreshWindowSizes,
)
    requires
        rows::distinct(rows),
        0 <= o < rows.len(),
        0 <= n <= rows.len(),
        rows[o].timeout is Some,
    ensures
        after_actions(rows[o], orphans::actions_for_orphans(rows, n, present, displays), mark) == if o < n {
            orphan_outcome(rows[o], orphans::fate(rows, o, present, displays).unwrap(), mark)
        } else {
            rows[o]
        },
    decreases n,
{
    if n > 0 {
        lemma_orphans_so_far(rows, n - 1, present, displays, o, mark);
        lemma_after_both(
            rows[o],
            orphans::actions_for_orphans(rows, n - 1, present, displays),
            orphans::actions_for_orphan(rows, n - 1, present, displays), mark);
        actions_keep_the_windows(
            rows[o],
            orphans::actions_for_orphans(rows, n - 1, present, displays), mark);
        lemma_orphan_step(rows, o, n - 1, present, displays, mark);
    }
}

/// A strip that waited for a display ends up as `orphan_outcome` says, whatever
/// is done for the others. So a strip whose workspace is on a display again is
/// a child of that display and waits no more, and one whose workspace is on
/// none goes on waiting.
pub proof fn orphans_end_up_where_they_belong(
    rows: Seq<RowView>,
    present: Seq<PresentView>,
    displays: Seq<Display>,
    o: int,
    mark: RefreshWindowSizes,
)
    requires
        rows::distinct(rows),
        0 <= o < rows.len(),
        rows[o].timeout is Some,
    ensures
        after_actions(
            rows[o],
            orphans::actions_for_orphans(rows, rows.len() as int, present, displays), mark) == orphan_outcome(rows[o], orphans::fate(rows, o, present, displays).unwrap(), mark),
{
    lemma_orphans_so_far(rows, rows.len() as int, present, displays, o, mark);
}

/// What makes a strip the one that is seen, the two marks in any order.
pub open spec fn is_activation(entity: Entity, actions: Seq<Action>) -> bool {
    let target = Target::Strip(entity);
    actions == seq![Action::InsertActive(target), Action::InsertSelected(target)] || actions
        == seq![Action::InsertSelected(target), Action::InsertActive(target)]
}

/// What takes the mark of the strip that is seen from the others.
pub open spec fn active_cleanup(rows: Seq<RowView>, entity: Entity) -> Seq<Action> {
    rows.filter(markers::formerly_active(entity)).map_values(
        |row: RowView| Action::RemoveActive(row.entity),
    )
}

/// What takes the mark of the row that is shown from the others of a workspace.
pub open spec fn selected_cleanup(rows: Seq<RowView>, entity: Entity, id: WorkspaceId) -> Seq<
    Action,
> {
    rows.filter(markers::formerly_selected(entity, id)).map_values(
        |row: RowView| Action::RemoveSelected(row.entity),
    )
}

/// A strip after the two marks are put on one.
proof fn lemma_activation(row: RowView, entity: Entity, actions: Seq<Action>, mark: RefreshWindowSizes)
    requires
        is_activation(entity, actions),
    ensures
        after_actions(row, actions, mark) == if row.entity == entity {
            RowView { active: true, selected: true, ..row }
        } else {
            row
        },
{
    reveal_with_fuel(after_actions, 3);
    assert(actions.drop_last() =~= seq![actions[0]]);
    assert(actions.drop_last().drop_last() =~= Seq::<Action>::empty());
    assert(after_actions(row, actions.drop_last(), mark) == after_action(row, actions[0], mark));
}

/// A strip after the mark of the strip that is seen is taken from some.
proof fn lemma_active_removed(row: RowView, actions: Seq<Action>, mark: RefreshWindowSizes)
    requires
        forall|k: int| 0 <= k < actions.len() ==> #[trigger] actions[k] is RemoveActive,
    ensures
        after_actions(row, actions, mark) == if actions.contains(Action::RemoveActive(row.entity)) {
            RowView { active: false, ..row }
        } else {
            row
        },
    decreases actions.len(),
{
    if actions.len() > 0 {
        let less = actions.drop_last();
        assert forall|k: int| 0 <= k < less.len() implies #[trigger] less[k] is RemoveActive by {
            assert(less[k] == actions[k]);
        }
        assert(actions[actions.len() - 1] is RemoveActive);
        lemma_active_removed(row, less, mark);
        lemma_contains_by_parts(actions, Action::RemoveActive(row.entity));
    }
}

/// A strip after the mark of the row that is shown is taken from some.
proof fn lemma_selected_removed(row: RowView, actions: Seq<Action>, mark: RefreshWindowSizes)
    requires
        forall|k: int| 0 <= k < actions.len() ==> #[trigger] actions[k] is RemoveSelected,
    ensures
        after_actions(row, actions, mark) == if actions.contains(Action::RemoveSelected(row.entity)) {
            RowView { selected: false, ..row }
        } else {
            row
        },
    decreases actions.len(),
{
    if actions.len() > 0 {
        let less = actions.drop_last();
        assert forall|k: int| 0 <= k < less.len() implies #[trigger] less[k] is RemoveSelected by {
            assert(less[k] == actions[k]);
        }
        assert(actions[actions.len() - 1] is RemoveSelected);
        lemma_selected_removed(row, less, mark);
        lemma_contains_by_parts(actions, Action::RemoveSelected(row.entity));
    }
}

/// An action is in a list if it is the last or in the rest.
proof fn lemma_contains_by_parts(actions: Seq<Action>, action: Action)
    requires
        actions.len() > 0,
    ensures
        actions.contains(action) <==> actions.drop_last().contains(action) || actions.last()
            == action,
{
    let less = actions.drop_last();
    if less.contains(action) {
        let k = choose|k: int| 0 <= k < less.len() && less[k] == action;
        assert(actions[k] == action);
    }
    if actions.contains(action) {
        let k = choose|k: int| 0 <= k < actions.len() && actions[k] == action;
        if k < less.len() {
            assert(less[k] == action);
        }
    }
}

/// When a strip is made the one that is seen, and the marks are then taken from
/// the strips that had them, it alone is active, and it alone is selected in its
/// workspace; what is selected in other workspaces stays.
pub proof fn activation_leaves_one_strip_in_view(
    rows: Seq<RowView>,
    t: int,
    actions: Seq<Action>,
    i: int,
    mark: RefreshWindowSizes,
)
    requires
        rows::distinct(rows),
        0 <= t < rows.len(),
        is_activation(rows[t].entity, actions),
        0 <= i < rows.len(),
    ensures
        ({
            let entity = rows[t].entity;
            let id = rows[t].strip.id;
            let marked = all_after(rows, actions, mark);
            let seen = all_after(marked, active_cleanup(marked, entity), mark);
            let after = all_after(seen, selected_cleanup(seen, entity, id), mark);
            after[i] == (RowView {
                active: i == t,
                selected: i == t || (rows[i].selected && rows[i].strip.id != id),
                ..rows[i]
            })
        }),
{
    let entity = rows[t].entity;
    let id = rows[t].strip.id;
    let marked = all_after(rows, actions, mark);
    assert forall|j: int| 0 <= j < rows.len() implies (#[trigger] marked[j]) == if j == t {
        RowView { active: true, selected: true, ..rows[j] }
    } else {
        rows[j]
    } by {
        lemma_activation(rows[j], entity, actions, mark);
        if j != t {
            assert(rows[j].entity != rows[t].entity);
        }
    }
    let first = active_cleanup(marked, entity);
    let seen = all_after(marked, first, mark);
    assert forall|j: int| 0 <= j < rows.len() implies (#[trigger] seen[j]) == (RowView {
        active: j == t,
        ..marked[j]
    }) by {
        assert forall|k: int| 0 <= k < first.len() implies #[trigger] first[k] is RemoveActive by {}
        lemma_active_removed(marked[j], first, mark);
        assert(marked.contains(marked[j]));
        markers::one_strip_stays_active(marked, entity, marked[j]);
        if j == t {
            lemma_not_formerly_active(marked, entity);
        } else {
            assert(rows[j].entity != rows[t].entity);
        }
    }
    let second = selected_cleanup(seen, entity, id);
    let after = all_after(seen, second, mark);
    assert(rows::distinct(seen)) by {
        assert forall|j: int, k: int|
            0 <= j < seen.len() && 0 <= k < seen.len() && j != k implies (
        #[trigger] seen[j]).entity != (#[trigger] seen[k]).entity by {
            assert(rows[j].entity != rows[k].entity);
        }
    }
    assert forall|k: int| 0 <= k < second.len() implies #[trigger] second[k] is RemoveSelected by {}
    lemma_selected_removed(seen[i], second, mark);
    assert(seen.contains(seen[i]));
    markers::one_row_of_a_workspace_stays_selected(seen, entity, id, seen[i]);
    if i != t {
        assert(rows[i].entity != rows[t].entity);
    }
}

/// The strip that has just got the mark does not lose it.
proof fn lemma_not_formerly_active(rows: Seq<RowView>, entity: Entity)
    ensures
        !active_cleanup(rows, entity).contains(Action::RemoveActive(entity)),
{
    let picked = rows.filter(markers::formerly_active(entity));
    let actions = active_cleanup(rows, entity);
    if actions.contains(Action::RemoveActive(entity)) {
        let k = choose|k: int|
            0 <= k < actions.len() && actions[k] == Action::RemoveActive(entity);
        assert(picked.contains(picked[k]));
        search::lemma_filter_contains(rows, markers::formerly_active(entity), picked[k]);
    }
}

} // verus!
