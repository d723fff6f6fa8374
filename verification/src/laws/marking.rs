//! Which strip the user sees, and which row a workspace shows.

use crate::laws::moving;
use crate::markers;
use crate::rows;
use crate::rows::{Action, RowView, StripRow, Target};
use crate::search;
use crate::types::Entity;
use vstd::prelude::*;

verus! {

/// A strip loses the mark of the one that is seen if and only if it has the mark and
/// is not the one that has just got it; strips lose it in the order of the table.
pub proof fn active_marks_are_taken_from_the_others(
    trigger: Entity,
    rows: Seq<RowView>,
    row: RowView,
)
    ensures
        markers::active_marks_taken(trigger, Seq::empty()) == Seq::<Action>::empty(),
        markers::active_marks_taken(trigger, rows.push(row)) == if row.active && row.entity
            != trigger {
            markers::active_marks_taken(trigger, rows).push(Action::RemoveActive(row.entity))
        } else {
            markers::active_marks_taken(trigger, rows)
        },
{
    let p = markers::formerly_active(trigger);
    search::lemma_filter_push(rows, row, p);
    let some = rows.filter(p);
    let act = |row: RowView| Action::RemoveActive(row.entity);
    assert(some.push(row).map_values(act) =~= some.map_values(act).push(
        Action::RemoveActive(row.entity),
    ));
    reveal(Seq::filter);
    assert(markers::active_marks_taken(trigger, Seq::empty()) =~= Seq::<Action>::empty());
}

/// A strip loses the mark of the row that is shown if and only if it has the mark,
/// is of the workspace of the strip that has just got it, and is not that strip.
/// Without that strip in the table none does.
pub proof fn selected_marks_are_taken_within_the_workspace(
    trigger: Entity,
    rows: Seq<RowView>,
    t: int,
    entity: Entity,
)
    requires
        0 <= t < rows.len(),
        rows[t].entity == trigger,
        forall|j: int| 0 <= j < t ==> (#[trigger] rows[j]).entity != trigger,
    ensures
        markers::selected_marks_taken(trigger, rows).contains(Action::RemoveSelected(entity))
            <==> entity != trigger && exists|i: int|
            0 <= i < rows.len() && (#[trigger] rows[i]).entity == entity && rows[i].selected
                && rows[i].strip.id == rows[t].strip.id,
        markers::selected_marks_taken(trigger, rows) == rows.filter(
            |row: RowView|
                row.selected && row.entity != trigger && row.strip.id == rows[t].strip.id,
        ).map_values(|row: RowView| Action::RemoveSelected(row.entity)),
{
    let of = rows::row_of(trigger);
    assert forall|j: int| 0 <= j < t implies !of(rows[j]) by {}
    search::lemma_first_is(rows, of, t);
    let p = markers::formerly_selected(trigger, rows[t].strip.id);
    assert(p =~= (|row: RowView|
        row.selected && row.entity != trigger && row.strip.id == rows[t].strip.id));
    let picked = rows.filter(p);
    let taken = markers::selected_marks_taken(trigger, rows);
    if taken.contains(Action::RemoveSelected(entity)) {
        let k = choose|k: int|
            0 <= k < taken.len() && taken[k] == Action::RemoveSelected(entity);
        assert(picked.contains(picked[k]));
        search::lemma_filter_contains(rows, p, picked[k]);
        let i = choose|i: int| 0 <= i < rows.len() && rows[i] == picked[k];
        assert(rows[i].entity == entity);
    }
    if entity != trigger && exists|i: int|
        0 <= i < rows.len() && (#[trigger] rows[i]).entity == entity && rows[i].selected
            && rows[i].strip.id == rows[t].strip.id {
        let i = choose|i: int|
            0 <= i < rows.len() && (#[trigger] rows[i]).entity == entity && rows[i].selected
                && rows[i].strip.id == rows[t].strip.id;
        assert(rows.contains(rows[i]));
        search::lemma_filter_contains(rows, p, rows[i]);
        let k = choose|k: int| 0 <= k < picked.len() && picked[k] == rows[i];
        assert(taken[k] == Action::RemoveSelected(entity));
    }
}

/// One more row at the end of the table loses the mark, behind the others, or does
/// not, and changes nothing for them.
pub proof fn selected_marks_are_taken_in_order(
    trigger: Entity,
    rows: Seq<RowView>,
    t: int,
    row: RowView,
)
    requires
        0 <= t < rows.len(),
        rows[t].entity == trigger,
        forall|j: int| 0 <= j < t ==> (#[trigger] rows[j]).entity != trigger,
    ensures
        markers::selected_marks_taken(trigger, rows.push(row)) == if row.selected && row.entity
            != trigger && row.strip.id == rows[t].strip.id {
            markers::selected_marks_taken(trigger, rows).push(Action::RemoveSelected(row.entity))
        } else {
            markers::selected_marks_taken(trigger, rows)
        },
{
    let of = rows::row_of(trigger);
    let more = rows.push(row);
    assert forall|j: int| 0 <= j < t implies !of(rows[j]) && !of(more[j]) by {
        assert(rows[j].entity != trigger);
    }
    search::lemma_first_is(rows, of, t);
    search::lemma_first_is(more, of, t);
    let p = markers::formerly_selected(trigger, rows[t].strip.id);
    search::lemma_filter_push(rows, row, p);
    let some = rows.filter(p);
    let act = |row: RowView| Action::RemoveSelected(row.entity);
    assert(some.push(row).map_values(act) =~= some.map_values(act).push(
        Action::RemoveSelected(row.entity),
    ));
}

/// A strip that is not in the table takes no mark away.
pub proof fn a_strip_that_is_gone_takes_no_marks(trigger: Entity, rows: Seq<RowView>)
    requires
        forall|j: int| 0 <= j < rows.len() ==> (#[trigger] rows[j]).entity != trigger,
    ensures
        markers::selected_marks_taken(trigger, rows) == Seq::<Action>::empty(),
{
    let of = rows::row_of(trigger);
    assert forall|j: int| 0 <= j < rows.len() implies !of(rows[j]) by {}
    search::lemma_first_none(rows, of);
}

/// A window that gets focus brings up every strip that has it, in the order of the
/// table, if the first active strip has it not. `a` is that strip.
pub proof fn focus_brings_up_the_strips_of_the_window(
    focused: Entity,
    rows: Seq<RowView>,
    a: int,
    row: RowView,
)
    requires
        0 <= a < rows.len(),
        rows[a].active,
        forall|j: int| 0 <= j < a ==> !(#[trigger] rows[j]).active,
    ensures
        moving::has_window(rows[a], focused) ==> markers::brought_up(focused, rows) == Seq::<
            Action,
        >::empty(),
        !moving::has_window(rows[a], focused) ==> markers::brought_up(focused, rows.push(row))
            == if moving::has_window(row, focused) {
            markers::brought_up(focused, rows) + seq![
                Action::InsertActive(Target::Strip(row.entity)),
                Action::InsertSelected(Target::Strip(row.entity)),
            ]
        } else {
            markers::brought_up(focused, rows)
        },
        (forall|j: int|
            0 <= j < rows.len() ==> !moving::has_window(#[trigger] rows[j], focused))
            ==> markers::brought_up(focused, rows) == Seq::<Action>::empty(),
{
    let p = rows::is_active();
    let more = rows.push(row);
    assert forall|j: int| 0 <= j < a implies !p(rows[j]) && !p(more[j]) by {
        assert(!rows[j].active);
    }
    search::lemma_first_is(rows, p, a);
    search::lemma_first_is(more, p, a);
    let h = markers::holds(focused);
    let some = rows.filter(h);
    search::lemma_filter_push(rows, row, h);
    assert(h(row) == moving::has_window(row, focused));
    assert(h(rows[a]) == moving::has_window(rows[a], focused));
    assert(more[a] == rows[a]);
    if h(row) {
        assert(some.push(row).drop_last() =~= some);
        assert(some.push(row).last() == row);
    }
    if forall|j: int| 0 <= j < rows.len() ==> !moving::has_window(#[trigger] rows[j], focused) {
        if some.len() > 0 {
            assert(some.contains(some[0]));
            search::lemma_filter_contains(rows, h, some[0]);
            let j = choose|j: int| 0 <= j < rows.len() && rows[j] == some[0];
            assert(!moving::has_window(rows[j], focused));
            assert(h(rows[j]) == moving::has_window(rows[j], focused));
        }
        assert(some =~= Seq::<RowView>::empty());
    }
}

proof fn lemma_activations(rows: Seq<RowView>)
    ensures
        markers::activations(rows) == rows.map_values(
            |row: RowView|
                seq![
                    Action::InsertActive(Target::Strip(row.entity)),
                    Action::InsertSelected(Target::Strip(row.entity)),
                ],
        ).flatten(),
    decreases rows.len(),
{
    let both = |row: RowView|
        seq![
            Action::InsertActive(Target::Strip(row.entity)),
            Action::InsertSelected(Target::Strip(row.entity)),
        ];
    if rows.len() == 0 {
        assert(rows.map_values(both) =~= Seq::<Seq<Action>>::empty());
        assert(rows.map_values(both).flatten() =~= Seq::<Action>::empty());
    } else {
        let less = rows.drop_last();
        lemma_activations(less);
        assert(rows.map_values(both) =~= less.map_values(both).push(both(rows.last())));
        less.map_values(both).lemma_flatten_push(both(rows.last()));
    }
}

/// Each strip that has the window is brought up once: it becomes active and then
/// selected, before the next one does. The strips come up in the order of the table,
/// whether they stand before or behind the one that is active.
pub proof fn each_strip_of_the_window_is_brought_up_once(
    focused: Entity,
    rows: Seq<RowView>,
    a: int,
)
    requires
        0 <= a < rows.len(),
        rows[a].active,
        forall|j: int| 0 <= j < a ==> !(#[trigger] rows[j]).active,
        !moving::has_window(rows[a], focused),
    ensures
        markers::brought_up(focused, rows) == rows.filter(
            |row: RowView| moving::has_window(row, focused),
        ).map_values(
            |row: RowView|
                seq![
                    Action::InsertActive(Target::Strip(row.entity)),
                    Action::InsertSelected(Target::Strip(row.entity)),
                ],
        ).flatten(),
{
    let p = rows::is_active();
    assert forall|j: int| 0 <= j < a implies !p(rows[j]) by {
        assert(!rows[j].active);
    }
    search::lemma_first_is(rows, p, a);
    let h = markers::holds(focused);
    let raw = |row: RowView| moving::has_window(row, focused);
    assert forall|i: int| 0 <= i < rows.len() implies h(#[trigger] rows[i]) == raw(rows[i]) by {}
    assert(h(rows[a]) == raw(rows[a]));
    search::lemma_same_filter(rows, h, raw);
    lemma_activations(rows.filter(h));
}

/// Without an active strip nothing is brought up.
pub proof fn nothing_is_brought_up_without_an_active_strip(focused: Entity, rows: Seq<RowView>)
    requires
        forall|j: int| 0 <= j < rows.len() ==> !(#[trigger] rows[j]).active,
    ensures
        markers::brought_up(focused, rows) == Seq::<Action>::empty(),
{
    let p = rows::is_active();
    assert forall|j: int| 0 <= j < rows.len() implies !p(rows[j]) by {}
    search::lemma_first_none(rows, p);
}

/// Marks are taken and strips brought up by the calls for it.
pub proof fn marks_are_taken_and_given(
    entity: Entity,
    rows: &Vec<StripRow>,
    active: Vec<Action>,
    selected: Vec<Action>,
    focus: Vec<Action>,
)
    requires
        call_ensures(markers::cleanup_active_workspace_marker, (entity, rows), active),
        call_ensures(markers::cleanup_selected_space_marker, (entity, rows), selected),
        call_ensures(markers::virtual_strip_activated, (entity, rows), focus),
    ensures
        active@ == markers::active_marks_taken(entity, rows.deep_view()),
        selected@ == markers::selected_marks_taken(entity, rows.deep_view()),
        focus@ == markers::brought_up(entity, rows.deep_view()),
{
}

} // verus!
