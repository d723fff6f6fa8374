//! The rows of a workspace: their order, their numbers, and the step from one to
//! the next.

use crate::laws::viewing;
use crate::rows;
use crate::rows::{Action, RowView, StripRow, Target};
use crate::search;
use crate::types::{Command, Direction, Entity, Event, Operation, WorkspaceId};
use crate::virtual_rows;
use vstd::prelude::*;

verus! {

/// Whether row `i` comes before row `j`: it has the smaller number, or the same one
/// and stands earlier in the table.
pub open spec fn comes_before(rows: Seq<RowView>, i: int, j: int) -> bool {
    ||| rows[i].strip.virtual_index < rows[j].strip.virtual_index
    ||| rows[i].strip.virtual_index == rows[j].strip.virtual_index && i < j
}

/// Whether row `i` is one of a workspace.
pub open spec fn is_row(rows: Seq<RowView>, id: WorkspaceId, i: int) -> bool {
    0 <= i < rows.len() && rows[i].strip.id == id
}

/// Whether a row holds no window and is below the first.
pub open spec fn is_vacant(row: RowView) -> bool {
    row.strip.columns.len() == 0 && row.strip.virtual_index > 0
}

proof fn lemma_before(rows: Seq<RowView>, i: int, j: int)
    ensures
        virtual_rows::precedes(rows, i, j) == comes_before(rows, i, j),
{
}

/// The order lists the rows of the workspace, each once, the smaller numbers first
/// and equal ones by their place in the table.
pub proof fn rows_are_ordered_by_number_and_place(rows: Seq<RowView>, id: WorkspaceId)
    ensures
        ({
            let order = virtual_rows::row_order(rows, id);
            &&& forall|i: int| #[trigger] order.contains(i) <==> is_row(rows, id, i)
            &&& forall|p: int, q: int|
                0 <= p < q < order.len() ==> comes_before(
                    rows,
                    #[trigger] order[p],
                    #[trigger] order[q],
                )
            &&& order.len() <= rows.len()
        }),
{
    let order = virtual_rows::row_order(rows, id);
    virtual_rows::row_order_is_unique(rows, id, order);
    virtual_rows::lemma_order_is_short(rows, id, order);
    assert forall|i: int| #[trigger] order.contains(i) <==> is_row(rows, id, i) by {
        if order.contains(i) {
            let p = choose|p: int| 0 <= p < order.len() && order[p] == i;
            assert(0 <= order[p] < rows.len());
            assert(rows[order[p]].strip.id == id);
        }
    }
    assert forall|p: int, q: int| 0 <= p < q < order.len() implies comes_before(
        rows,
        #[trigger] order[p],
        #[trigger] order[q],
    ) by {
        assert(virtual_rows::precedes(rows, order[p], order[q]));
    }
}

/// A strip is taken away by a tidying if and only if it is a row of the workspace
/// that holds no window and is below the first.
pub proof fn tidying_takes_the_vacant_rows(rows: Seq<RowView>, id: WorkspaceId, entity: Entity)
    ensures
        virtual_rows::despawns(rows, id).contains(Action::Despawn(entity)) <==> exists|i: int|
            is_row(rows, id, i) && is_vacant(#[trigger] rows[i]) && rows[i].entity == entity,
{
    let order = virtual_rows::row_order(rows, id);
    let goes = virtual_rows::goes(rows);
    let gone = order.filter(goes);
    let actions = virtual_rows::despawns(rows, id);
    rows_are_ordered_by_number_and_place(rows, id);
    if actions.contains(Action::Despawn(entity)) {
        let k = choose|k: int| 0 <= k < actions.len() && actions[k] == Action::Despawn(entity);
        assert(gone.contains(gone[k]));
        search::lemma_filter_contains(order, goes, gone[k]);
        assert(order.contains(gone[k]));
        assert(is_vacant(rows[gone[k]]));
    }
    if exists|i: int|
        is_row(rows, id, i) && is_vacant(#[trigger] rows[i]) && rows[i].entity == entity {
        let i = choose|i: int|
            is_row(rows, id, i) && is_vacant(#[trigger] rows[i]) && rows[i].entity == entity;
        assert(order.contains(i));
        search::lemma_filter_contains(order, goes, i);
        let k = choose|k: int| 0 <= k < gone.len() && gone[k] == i;
        assert(actions[k] == Action::Despawn(entity));
    }
}

/// A tidying does nothing else to the world, takes each of these rows away once,
/// and does so in their order.
pub proof fn tidying_takes_rows_in_order(rows: Seq<RowView>, id: WorkspaceId) -> (gone: Seq<int>)
    ensures
        virtual_rows::despawns(rows, id).len() == gone.len(),
        forall|k: int|
            0 <= k < gone.len() ==> (#[trigger] virtual_rows::despawns(rows, id)[k])
                == Action::Despawn(rows[gone[k]].entity),
        forall|k: int|
            0 <= k < gone.len() ==> is_row(rows, id, #[trigger] gone[k]) && is_vacant(
                rows[gone[k]],
            ),
        forall|i: int|
            is_row(rows, id, i) && is_vacant(#[trigger] rows[i]) ==> gone.contains(i),
        forall|j: int, k: int|
            0 <= j < k < gone.len() ==> comes_before(rows, #[trigger] gone[j], #[trigger] gone[k]),
{
    let order = virtual_rows::row_order(rows, id);
    let goes = virtual_rows::goes(rows);
    let gone = order.filter(goes);
    rows_are_ordered_by_number_and_place(rows, id);
    assert forall|k: int| 0 <= k < gone.len() implies is_row(rows, id, #[trigger] gone[k])
        && is_vacant(rows[gone[k]]) by {
        assert(gone.contains(gone[k]));
        search::lemma_filter_contains(order, goes, gone[k]);
        assert(order.contains(gone[k]));
    }
    assert forall|i: int| is_row(rows, id, i) && is_vacant(#[trigger] rows[i]) implies gone.contains(
        i,
    ) by {
        assert(order.contains(i));
        search::lemma_filter_contains(order, goes, i);
    }
    lemma_filter_keeps_order(rows, order, goes);
    gone
}

/// What is left of an ordered list is ordered.
proof fn lemma_filter_keeps_order(rows: Seq<RowView>, order: Seq<int>, p: spec_fn(int) -> bool)
    requires
        forall|j: int, k: int|
            0 <= j < k < order.len() ==> comes_before(rows, #[trigger] order[j], #[trigger] order[k]),
    ensures
        forall|j: int, k: int|
            0 <= j < k < order.filter(p).len() ==> comes_before(
                rows,
                #[trigger] order.filter(p)[j],
                #[trigger] order.filter(p)[k],
            ),
    decreases order.len(),
{
    reveal(Seq::filter);
    if order.len() > 0 {
        let less = order.drop_last();
        assert forall|j: int, k: int| 0 <= j < k < less.len() implies comes_before(
            rows,
            #[trigger] less[j],
            #[trigger] less[k],
        ) by {
            assert(comes_before(rows, order[j], order[k]));
        }
        lemma_filter_keeps_order(rows, less, p);
        let some = less.filter(p);
        let all = order.filter(p);
        assert forall|j: int, k: int| 0 <= j < k < all.len() implies comes_before(
            rows,
            #[trigger] all[j],
            #[trigger] all[k],
        ) by {
            assert(all[j] == some[j]);
            if k == some.len() {
                assert(some.contains(some[j]));
                search::lemma_filter_contains(less, p, some[j]);
                let a = choose|a: int| 0 <= a < less.len() && less[a] == some[j];
                assert(comes_before(rows, order[a], order[order.len() - 1]));
            } else {
                assert(all[k] == some[k]);
            }
        }
    }
}

/// What a tidying makes of the numbers: the rows of the workspace that are not taken
/// away keep their order, the first of them has the number zero, and no number is
/// left out below any other. Nothing but these numbers changes.
pub proof fn tidying_closes_the_gaps(rows: Seq<RowView>, id: WorkspaceId, after: Seq<RowView>)
    requires
        rows.len() <= u32::MAX,
        virtual_rows::is_renumbering(rows, id, after),
    ensures
        after.len() == rows.len(),
        forall|i: int|
            0 <= i < rows.len() ==> {
                &&& (#[trigger] after[i]) == RowView { strip: after[i].strip, ..rows[i] }
                &&& after[i].strip.id == rows[i].strip.id
                &&& after[i].strip.columns == rows[i].strip.columns
                &&& rows[i].strip.id != id || is_vacant(rows[i]) ==> after[i] == rows[i]
            },
        forall|i: int, j: int|
            is_row(rows, id, i) && is_row(rows, id, j) && !is_vacant(rows[i]) && !is_vacant(rows[j])
                && comes_before(rows, i, j) ==> (#[trigger] after[i]).strip.virtual_index < (
            #[trigger] after[j]).strip.virtual_index,
        forall|i: int|
            is_row(rows, id, i) && !is_vacant(rows[i]) && (forall|j: int|
                is_row(rows, id, j) && !is_vacant(#[trigger] rows[j]) ==> !comes_before(rows, j, i))
                ==> (#[trigger] after[i]).strip.virtual_index == 0,
        forall|i: int|
            is_row(rows, id, i) && !is_vacant(rows[i]) && (#[trigger] after[i]).strip.virtual_index
                > 0 ==> exists|j: int|
                is_row(rows, id, j) && !is_vacant(rows[j]) && (
                #[trigger] after[j]).strip.virtual_index == after[i].strip.virtual_index - 1,
{
    virtual_rows::tidied_rows_are_numbered_without_gaps(rows, id, after);
    let stays = virtual_rows::stays(rows);
    let kept = virtual_rows::staying(rows, id);
    let order = virtual_rows::row_order(rows, id);
    rows_are_ordered_by_number_and_place(rows, id);
    assert forall|i: int| 0 <= i < rows.len() implies stays(i) == !is_vacant(
        #[trigger] rows[i],
    ) by {}
    assert forall|i: int| 0 <= i < rows.len() && is_vacant(rows[i]) implies (#[trigger] after[i])
        == rows[i] by {
        virtual_rows::lemma_staying(rows, id, i);
        assert(stays(i) == !is_vacant(rows[i]));
    }
    assert forall|i: int, j: int|
        is_row(rows, id, i) && is_row(rows, id, j) && !is_vacant(rows[i]) && !is_vacant(rows[j])
            && comes_before(rows, i, j) implies (#[trigger] after[i]).strip.virtual_index < (
    #[trigger] after[j]).strip.virtual_index by {
        assert(stays(i) == !is_vacant(rows[i]));
        assert(stays(j) == !is_vacant(rows[j]));
        lemma_before(rows, i, j);
    }
    assert forall|i: int| is_row(rows, id, i) && !is_vacant(rows[i]) implies exists|q: int|
        0 <= q < kept.len() && kept[q] == i && (#[trigger] after[i]).strip.virtual_index == q by {
        assert(stays(i) == !is_vacant(rows[i]));
        virtual_rows::lemma_staying(rows, id, i);
        let q = choose|q: int| 0 <= q < kept.len() && kept[q] == i;
        assert(after[kept[q]].strip.virtual_index == q);
    }
    virtual_rows::lemma_staying_is_ordered(rows, id, order.len() as int);
    assert(order.take(order.len() as int) =~= order);
    assert forall|i: int|
        is_row(rows, id, i) && !is_vacant(rows[i]) && (forall|j: int|
            is_row(rows, id, j) && !is_vacant(#[trigger] rows[j]) ==> !comes_before(
                rows,
                j,
                i,
            )) implies (#[trigger] after[i]).strip.virtual_index == 0 by {
        let q = choose|q: int|
            0 <= q < kept.len() && kept[q] == i && after[i].strip.virtual_index == q;
        if q > 0 {
            let j = kept[0];
            assert(kept.contains(j));
            virtual_rows::lemma_staying(rows, id, j);
            assert(stays(j) == !is_vacant(rows[j]));
            assert(virtual_rows::precedes(rows, kept[0], kept[q]));
            lemma_before(rows, j, i);
        }
    }
    assert forall|i: int|
        is_row(rows, id, i) && !is_vacant(rows[i]) && (#[trigger] after[i]).strip.virtual_index
            > 0 implies exists|j: int|
        is_row(rows, id, j) && !is_vacant(rows[j]) && (#[trigger] after[j]).strip.virtual_index
            == after[i].strip.virtual_index - 1 by {
        let q = choose|q: int|
            0 <= q < kept.len() && kept[q] == i && after[i].strip.virtual_index == q;
        let j = kept[q - 1];
        assert(kept.contains(j));
        virtual_rows::lemma_staying(rows, id, j);
        assert(stays(j) == !is_vacant(rows[j]));
        assert(after[kept[q - 1]].strip.virtual_index == q - 1);
    }
}

/// Whether row `a` is the one that a switch starts from: the first active row of the
/// workspace, or the first row if none is active.
pub open spec fn is_start(rows: Seq<RowView>, id: WorkspaceId, a: int) -> bool {
    &&& is_row(rows, id, a)
    &&& rows[a].active ==> forall|k: int|
        is_row(rows, id, k) && (#[trigger] rows[k]).active ==> !comes_before(rows, k, a)
    &&& !rows[a].active ==> forall|k: int|
        is_row(rows, id, k) ==> !(#[trigger] rows[k]).active && !comes_before(rows, k, a)
}

/// Whether no row of a workspace comes between two others.
pub open spec fn are_adjacent(rows: Seq<RowView>, id: WorkspaceId, i: int, j: int) -> bool {
    &&& is_row(rows, id, i)
    &&& is_row(rows, id, j)
    &&& comes_before(rows, i, j)
    &&& forall|k: int|
        is_row(rows, id, k) ==> !(comes_before(rows, i, k) && #[trigger] comes_before(rows, k, j))
}

/// The command to switch in a direction.
pub open spec fn switch_command(direction: Direction) -> Event {
    Event::Command { command: Command::Window(Operation::Virtual(direction)) }
}

/// Where the start of a switch is in the order.
proof fn lemma_start(rows: Seq<RowView>, id: WorkspaceId, a: int) -> (p: int)
    requires
        is_start(rows, id, a),
    ensures
        0 <= p < virtual_rows::row_order(rows, id).len(),
        virtual_rows::row_order(rows, id)[p] == a,
        virtual_rows::current_position(rows, virtual_rows::row_order(rows, id)) == p,
{
    let order = virtual_rows::row_order(rows, id);
    let active = virtual_rows::active_row(rows);
    rows_are_ordered_by_number_and_place(rows, id);
    assert(order.contains(a));
    let p = choose|p: int| 0 <= p < order.len() && order[p] == a;
    if rows[a].active {
        assert forall|q: int| 0 <= q < p implies !active(order[q]) by {
            assert(comes_before(rows, order[q], order[p]));
            assert(order.contains(order[q]));
            if active(order[q]) {
                assert(rows[order[q]].active);
            }
        }
        search::lemma_first_is(order, active, p);
    } else {
        assert forall|q: int| 0 <= q < order.len() implies !active(order[q]) by {
            assert(order.contains(order[q]));
            assert(!rows[order[q]].active);
        }
        search::lemma_first_none(order, active);
        if p > 0 {
            assert(comes_before(rows, order[0], order[p]));
            assert(order.contains(order[0]));
            assert(!rows[order[0]].active);
        }
    }
    p
}

/// Adjacent rows follow each other in the order.
proof fn lemma_adjacent(rows: Seq<RowView>, id: WorkspaceId, p: int, q: int)
    requires
        0 <= p < virtual_rows::row_order(rows, id).len(),
        0 <= q < virtual_rows::row_order(rows, id).len(),
        are_adjacent(
            rows,
            id,
            virtual_rows::row_order(rows, id)[p],
            virtual_rows::row_order(rows, id)[q],
        ),
    ensures
        q == p + 1,
{
    let order = virtual_rows::row_order(rows, id);
    rows_are_ordered_by_number_and_place(rows, id);
    if q < p {
        assert(comes_before(rows, order[q], order[p]));
    } else if p + 1 < q {
        let k = order[p + 1];
        assert(order.contains(k));
        assert(comes_before(rows, order[p], order[p + 1]));
        assert(comes_before(rows, k, order[q])) by {
            assert(comes_before(rows, order[p + 1], order[q]));
        }
    }
}

/// A switch down goes to the row directly behind the one that it starts from,
/// whatever the two hold; it goes nowhere only if there is none behind it.
pub proof fn a_switch_down_goes_to_the_next_row(
    rows: Seq<RowView>,
    id: WorkspaceId,
    a: int,
    j: int,
)
    requires
        is_start(rows, id, a),
    ensures
        are_adjacent(rows, id, a, j) ==> virtual_rows::switched(
            switch_command(Direction::South),
            id,
            rows,
        ) == seq![
            Action::InsertSelected(Target::Strip(rows[j].entity)),
            Action::InsertActive(Target::Strip(rows[j].entity)),
        ],
        (forall|k: int| is_row(rows, id, k) ==> !#[trigger] comes_before(rows, a, k))
            ==> virtual_rows::switched(switch_command(Direction::South), id, rows) == Seq::<
            Action,
        >::empty(),
        (exists|k: int| is_row(rows, id, k) && #[trigger] comes_before(rows, a, k))
            ==> virtual_rows::switched(switch_command(Direction::South), id, rows).len() == 2,
{
    let order = virtual_rows::row_order(rows, id);
    rows_are_ordered_by_number_and_place(rows, id);
    let p = lemma_start(rows, id, a);
    if are_adjacent(rows, id, a, j) {
        assert(order.contains(j));
        let q = choose|q: int| 0 <= q < order.len() && order[q] == j;
        lemma_adjacent(rows, id, p, q);
    }
    if p + 1 < order.len() {
        assert(comes_before(rows, order[p], order[p + 1]));
        assert(order.contains(order[p + 1]));
        assert(comes_before(rows, a, order[p + 1]));
    }
    if exists|k: int| is_row(rows, id, k) && #[trigger] comes_before(rows, a, k) {
        let k = choose|k: int| is_row(rows, id, k) && #[trigger] comes_before(rows, a, k);
        assert(order.contains(k));
        let q = choose|q: int| 0 <= q < order.len() && order[q] == k;
        if q < p {
            assert(comes_before(rows, order[q], order[p]));
        }
    }
}

/// A switch up goes to the row directly before the one that it starts from, whatever
/// the two hold; it goes nowhere only if there is none before it.
pub proof fn a_switch_up_goes_to_the_row_before(
    rows: Seq<RowView>,
    id: WorkspaceId,
    a: int,
    j: int,
)
    requires
        is_start(rows, id, a),
    ensures
        are_adjacent(rows, id, j, a) ==> virtual_rows::switched(
            switch_command(Direction::North),
            id,
            rows,
        ) == seq![
            Action::InsertSelected(Target::Strip(rows[j].entity)),
            Action::InsertActive(Target::Strip(rows[j].entity)),
        ],
        (forall|k: int| is_row(rows, id, k) ==> !#[trigger] comes_before(rows, k, a))
            ==> virtual_rows::switched(switch_command(Direction::North), id, rows) == Seq::<
            Action,
        >::empty(),
        (exists|k: int| is_row(rows, id, k) && #[trigger] comes_before(rows, k, a))
            ==> virtual_rows::switched(switch_command(Direction::North), id, rows).len() == 2,
{
    let order = virtual_rows::row_order(rows, id);
    rows_are_ordered_by_number_and_place(rows, id);
    let p = lemma_start(rows, id, a);
    if are_adjacent(rows, id, j, a) {
        assert(order.contains(j));
        let q = choose|q: int| 0 <= q < order.len() && order[q] == j;
        lemma_adjacent(rows, id, q, p);
    }
    if p > 0 {
        assert(comes_before(rows, order[p - 1], order[p]));
        assert(order.contains(order[p - 1]));
        assert(comes_before(rows, order[p - 1], a));
    }
    if exists|k: int| is_row(rows, id, k) && #[trigger] comes_before(rows, k, a) {
        let k = choose|k: int| is_row(rows, id, k) && #[trigger] comes_before(rows, k, a);
        assert(order.contains(k));
        let q = choose|q: int| 0 <= q < order.len() && order[q] == k;
        if p < q {
            assert(comes_before(rows, order[p], order[q]));
        }
    }
}

/// Nothing else switches rows: no other direction, no other event or command, and
/// no command where the workspace has no row.
pub proof fn nothing_else_switches_rows(rows: Seq<RowView>, id: WorkspaceId, message: Event)
    requires
        (message != switch_command(Direction::South) && message != switch_command(
            Direction::North,
        )) || forall|i: int| !#[trigger] is_row(rows, id, i),
    ensures
        virtual_rows::switched(message, id, rows) == Seq::<Action>::empty(),
{
    let order = virtual_rows::row_order(rows, id);
    rows_are_ordered_by_number_and_place(rows, id);
    if forall|i: int| !#[trigger] is_row(rows, id, i) {
        if order.len() > 0 {
            assert(order.contains(order[0]));
            assert(is_row(rows, id, order[0]));
        }
        assert(search::first(order, virtual_rows::active_row(rows)) is None);
    }
}

/// A tidying is one of the workspace of the strip that has just become active; a strip
/// that is not in the table has none tidied.
pub proof fn tidying_is_for_the_workspace_of_the_strip(
    changed: Entity,
    rows: &mut Vec<StripRow>,
    actions: Vec<Action>,
    c: int,
)
    requires
        call_ensures(virtual_rows::cleanup_virtual_workspaces, (changed, rows), actions),
    ensures
        ({
            let before = old(rows).deep_view();
            let after = final(rows).deep_view();
            &&& viewing::is_row_of(before, changed, c) ==> actions@ == virtual_rows::despawns(
                before,
                before[c].strip.id,
            ) && virtual_rows::is_renumbering(before, before[c].strip.id, after)
            &&& (forall|j: int| 0 <= j < before.len() ==> (#[trigger] before[j]).entity != changed)
                ==> after == before && actions.len() == 0
        }),
{
    let before = old(rows).deep_view();
    let p = rows::row_of(changed);
    if viewing::is_row_of(before, changed, c) {
        assert forall|j: int| 0 <= j < c implies !p(before[j]) by {}
        search::lemma_first_is(before, p, c);
    }
    if forall|j: int| 0 <= j < before.len() ==> (#[trigger] before[j]).entity != changed {
        assert forall|j: int| 0 <= j < before.len() implies !p(before[j]) by {}
        search::lemma_first_none(before, p);
    }
}

/// A strip is taken away by the call if and only if it is a row of the workspace that
/// holds no window and is below the first; a row with windows, be they one or many,
/// stays.
pub proof fn a_tidying_takes_no_window_away(
    changed: Entity,
    rows: &mut Vec<StripRow>,
    actions: Vec<Action>,
    c: int,
    i: int,
)
    requires
        call_ensures(virtual_rows::cleanup_virtual_workspaces, (changed, rows), actions),
        viewing::is_row_of(old(rows).deep_view(), changed, c),
        is_row(old(rows).deep_view(), old(rows).deep_view()[c].strip.id, i),
        forall|j: int|
            0 <= j < old(rows).len() && j != i ==> (#[trigger] old(rows).deep_view()[j]).entity
                != old(rows).deep_view()[i].entity,
    ensures
        ({
            let row = old(rows).deep_view()[i];
            actions@.contains(Action::Despawn(row.entity)) <==> row.strip.columns.len() == 0
                && row.strip.virtual_index > 0
        }),
{
    let before = old(rows).deep_view();
    let id = before[c].strip.id;
    tidying_is_for_the_workspace_of_the_strip(changed, rows, actions, c);
    tidying_takes_the_vacant_rows(before, id, before[i].entity);
    if actions@.contains(Action::Despawn(before[i].entity)) {
        let k = choose|k: int|
            is_row(before, id, k) && is_vacant(#[trigger] before[k]) && before[k].entity
                == before[i].entity;
        assert(k == i);
    }
    if is_vacant(before[i]) {
        assert(is_row(before, id, i));
    }
}

/// A command is answered with the switch that it asks for.
pub proof fn commands_are_answered_with_a_switch(
    message: &Event,
    id: WorkspaceId,
    rows: &Vec<StripRow>,
    actions: Vec<Action>,
)
    requires
        call_ensures(virtual_rows::switch_virtual_workspace_bind, (message, id, rows), actions),
    ensures
        actions@ == virtual_rows::switched(*message, id, rows.deep_view()),
{
}

} // verus!
