//! Strips that lost their display.

use crate::orphans;
use crate::rows::{Action, Display, PresentDisplay, PresentView, RowView, StripRow};
use crate::search;
use crate::strip::StripView;
use crate::types::{Entity, WorkspaceId};
use vstd::prelude::*;

verus! {

/// What the strip in row `o` adds to the actions for those before it.
pub open spec fn own_actions(
    rows: Seq<RowView>,
    o: int,
    present: Seq<PresentView>,
    displays: Seq<Display>,
) -> Seq<Action> {
    orphans::actions_for_orphans(rows, o + 1, present, displays).skip(
        orphans::actions_for_orphans(rows, o, present, displays).len() as int,
    )
}

/// Whether the actions for the rows up to `o` are those for the rows before, and
/// then some.
pub open spec fn goes_on(
    rows: Seq<RowView>,
    o: int,
    present: Seq<PresentView>,
    displays: Seq<Display>,
) -> bool {
    orphans::actions_for_orphans(rows, o + 1, present, displays) == orphans::actions_for_orphans(
        rows,
        o,
        present,
        displays,
    ) + own_actions(rows, o, present, displays)
}

/// Whether the reported display `p` is the first that lists a workspace and is one
/// of the world, namely `d`.
pub open spec fn is_listed_by(
    id: WorkspaceId,
    present: Seq<PresentView>,
    displays: Seq<Display>,
    p: int,
    d: int,
) -> bool {
    &&& 0 <= p < present.len()
    &&& 0 <= d < displays.len()
    &&& present[p].spaces.contains(id)
    &&& displays[d].id == present[p].id
    &&& forall|c: int| 0 <= c < d ==> (#[trigger] displays[c]).id != present[p].id
    &&& forall|q: int, c: int|
        0 <= q < p && 0 <= c < displays.len() && (#[trigger] present[q]).spaces.contains(id)
            ==> (#[trigger] displays[c]).id != present[q].id
}

/// Whether no reported display of the world lists a workspace.
pub open spec fn is_not_listed(
    id: WorkspaceId,
    present: Seq<PresentView>,
    displays: Seq<Display>,
) -> bool {
    forall|q: int, c: int|
        0 <= q < present.len() && 0 <= c < displays.len() && (
        #[trigger] present[q]).spaces.contains(id) ==> (#[trigger] displays[c]).id != present[q].id
}

/// Whether row `m` is the first strip of a workspace that is on a display and does
/// not wait, or nothing if there is none.
pub open spec fn is_strip_on(
    rows: Seq<RowView>,
    display: Entity,
    id: WorkspaceId,
    m: Option<int>,
) -> bool {
    match m {
        Some(m) => {
            &&& 0 <= m < rows.len()
            &&& rows[m].timeout is None
            &&& rows[m].parent == Some(display)
            &&& rows[m].strip.id == id
            &&& forall|j: int|
                0 <= j < m ==> !((#[trigger] rows[j]).timeout is None && rows[j].parent == Some(
                    display,
                ) && rows[j].strip.id == id)
        },
        None => forall|j: int|
            0 <= j < rows.len() ==> !((#[trigger] rows[j]).timeout is None && rows[j].parent
                == Some(display) && rows[j].strip.id == id),
    }
}

proof fn lemma_own(
    rows: Seq<RowView>,
    o: int,
    present: Seq<PresentView>,
    displays: Seq<Display>,
)
    requires
        0 <= o,
    ensures
        own_actions(rows, o, present, displays) == orphans::actions_for_orphan(
            rows,
            o,
            present,
            displays,
        ),
        goes_on(rows, o, present, displays),
{
    assert(own_actions(rows, o, present, displays) =~= orphans::actions_for_orphan(
        rows,
        o,
        present,
        displays,
    ));
}

proof fn lemma_listed(
    id: WorkspaceId,
    present: Seq<PresentView>,
    displays: Seq<Display>,
    p: int,
    d: int,
)
    requires
        is_listed_by(id, present, displays, p, d),
    ensures
        orphans::display_of_space(id, present, displays) == Some(displays[d].entity),
{
    let shows = orphans::shows(id, displays);
    let with = orphans::display_with_id(present[p].id);
    assert forall|c: int| 0 <= c < d implies !with(displays[c]) by {}
    search::lemma_first_is(displays, with, d);
    assert(shows(present[p]));
    assert forall|q: int| 0 <= q < p implies !shows(present[q]) by {
        if present[q].spaces.contains(id) {
            let other = orphans::display_with_id(present[q].id);
            assert forall|c: int| 0 <= c < displays.len() implies !other(displays[c]) by {
                assert(displays[c].id != present[q].id);
            }
            search::lemma_first_none(displays, other);
        }
    }
    search::lemma_first_is(present, shows, p);
}

proof fn lemma_not_listed(id: WorkspaceId, present: Seq<PresentView>, displays: Seq<Display>)
    requires
        is_not_listed(id, present, displays),
    ensures
        orphans::display_of_space(id, present, displays) is None,
{
    let shows = orphans::shows(id, displays);
    assert forall|q: int| 0 <= q < present.len() implies !shows(present[q]) by {
        if present[q].spaces.contains(id) {
            let other = orphans::display_with_id(present[q].id);
            assert forall|c: int| 0 <= c < displays.len() implies !other(displays[c]) by {
                assert(displays[c].id != present[q].id);
            }
            search::lemma_first_none(displays, other);
        }
    }
    search::lemma_first_none(present, shows);
}

proof fn lemma_strip_on(rows: Seq<RowView>, display: Entity, id: WorkspaceId, m: Option<int>)
    requires
        is_strip_on(rows, display, id, m),
    ensures
        search::first(rows, orphans::settled_on(display, id)) == m,
{
    let on = orphans::settled_on(display, id);
    match m {
        Some(k) => {
            assert(on(rows[k]));
            assert forall|j: int| 0 <= j < k implies !on(rows[j]) by {}
            search::lemma_first_is(rows, on, k);
        },
        None => {
            assert forall|j: int| 0 <= j < rows.len() implies !on(rows[j]) by {}
            search::lemma_first_none(rows, on);
        },
    }
}

/// To begin with nothing is done.
pub proof fn no_strips_need_nothing(
    rows: Seq<RowView>,
    present: Seq<PresentView>,
    displays: Seq<Display>,
)
    ensures
        orphans::actions_for_orphans(rows, 0, present, displays) == Seq::<Action>::empty(),
        orphans::rows_after_orphans(rows, 0, present, displays) == rows,
{
}

/// A strip that does not wait is left alone. One that waits and is empty goes. One
/// that waits, is not empty and is on a display waits no more and is measured anew,
/// be its time up or not.
pub proof fn strips_with_a_display_or_without_windows(
    rows: Seq<RowView>,
    present: Seq<PresentView>,
    displays: Seq<Display>,
    o: int,
)
    requires
        0 <= o < rows.len(),
    ensures
        goes_on(rows, o, present, displays),
        rows[o].timeout is None ==> own_actions(rows, o, present, displays) == Seq::<
            Action,
        >::empty(),
        rows[o].timeout is Some && rows[o].strip.columns.len() == 0 ==> own_actions(
            rows,
            o,
            present,
            displays,
        ) == seq![Action::Despawn(rows[o].entity)],
        rows[o].timeout is Some && rows[o].strip.columns.len() > 0 && rows[o].parent is Some
            ==> own_actions(rows, o, present, displays) == seq![
            Action::RemoveTimeout(rows[o].entity),
            Action::InsertRefresh(rows[o].entity),
        ],
        rows[o].timeout is None || rows[o].strip.columns.len() == 0 || rows[o].parent is Some
            ==> orphans::rows_after_orphans(rows, o + 1, present, displays)
            == orphans::rows_after_orphans(rows, o, present, displays),
{
    lemma_own(rows, o, present, displays);
}

/// The windows of a strip without a display float once its time is up, all of them
/// and none before: while there is time, no window is let float for it.
pub proof fn windows_float_when_the_time_is_up(
    rows: Seq<RowView>,
    present: Seq<PresentView>,
    displays: Seq<Display>,
    o: int,
)
    requires
        0 <= o < rows.len(),
        rows[o].timeout is Some,
        rows[o].strip.columns.len() > 0,
        rows[o].parent is None,
    ensures
        goes_on(rows, o, present, displays),
        rows[o].timeout.unwrap().finished ==> own_actions(rows, o, present, displays)
            == rows[o].strip.columns.flatten().map_values(|w: Entity| Action::InsertFloating(w))
            && orphans::rows_after_orphans(rows, o + 1, present, displays)
            == orphans::rows_after_orphans(rows, o, present, displays),
        !rows[o].timeout.unwrap().finished ==> forall|w: Entity| !#[trigger] own_actions(
            rows,
            o,
            present,
            displays,
        ).contains(Action::InsertFloating(w)),
{
    lemma_own(rows, o, present, displays);
    assert(own_actions(rows, o, present, displays) =~= orphans::actions_for_orphan(
        rows,
        o,
        present,
        displays,
    ));
    if rows[o].timeout.unwrap().finished {
        assert(own_actions(rows, o, present, displays)
            =~= rows[o].strip.columns.flatten().map_values(|w: Entity| Action::InsertFloating(w)));
    }
}

/// While there is time, a strip whose workspace no display of the world lists goes
/// on waiting.
pub proof fn strips_wait_for_a_display(
    rows: Seq<RowView>,
    present: Seq<PresentView>,
    displays: Seq<Display>,
    o: int,
)
    requires
        0 <= o < rows.len(),
        rows[o].timeout is Some,
        !rows[o].timeout.unwrap().finished,
        rows[o].strip.columns.len() > 0,
        rows[o].parent is None,
        is_not_listed(rows[o].strip.id, present, displays),
    ensures
        goes_on(rows, o, present, displays),
        own_actions(rows, o, present, displays) == Seq::<Action>::empty(),
        orphans::rows_after_orphans(rows, o + 1, present, displays) == orphans::rows_after_orphans(
            rows,
            o,
            present,
            displays,
        ),
{
    lemma_own(rows, o, present, displays);
    lemma_not_listed(rows[o].strip.id, present, displays);
}

/// While there is time, a strip whose workspace a display of the world lists comes
/// to that display, whatever its row. If the display has a strip for the workspace,
/// the windows go to the right end of that one, each in a column of its own, and the
/// strip goes; else the strip itself goes there and waits no more. Either way the
/// strip that then has the windows is measured anew.
pub proof fn strips_come_to_the_display_of_their_workspace(
    rows: Seq<RowView>,
    present: Seq<PresentView>,
    displays: Seq<Display>,
    o: int,
    p: int,
    d: int,
    m: Option<int>,
)
    requires
        0 <= o < rows.len(),
        rows[o].timeout is Some,
        !rows[o].timeout.unwrap().finished,
        rows[o].strip.columns.len() > 0,
        rows[o].parent is None,
        is_listed_by(rows[o].strip.id, present, displays, p, d),
        is_strip_on(rows, displays[d].entity, rows[o].strip.id, m),
    ensures
        goes_on(rows, o, present, displays),
        ({
            let own = own_actions(rows, o, present, displays);
            let before = orphans::rows_after_orphans(rows, o, present, displays);
            let after = orphans::rows_after_orphans(rows, o + 1, present, displays);
            match m {
                Some(m) => {
                    &&& own == seq![
                        Action::Despawn(rows[o].entity),
                        Action::InsertRefresh(rows[m].entity),
                    ]
                    &&& after == before.update(
                        m,
                        RowView {
                            strip: StripView {
                                columns: before[m].strip.columns
                                    + rows[o].strip.columns.flatten().map_values(
                                    |w: Entity| seq![w],
                                ),
                                ..before[m].strip
                            },
                            ..before[m]
                        },
                    )
                },
                None => {
                    &&& own == seq![
                        Action::RemoveTimeout(rows[o].entity),
                        Action::SetParent(rows[o].entity, displays[d].entity),
                        Action::InsertRefresh(rows[o].entity),
                    ]
                    &&& after == before
                },
            }
        }),
{
    lemma_own(rows, o, present, displays);
    lemma_listed(rows[o].strip.id, present, displays, p, d);
    lemma_strip_on(rows, displays[d].entity, rows[o].strip.id, m);
}

/// All strips are dealt with, each once and in the order of the table.
pub proof fn all_strips_are_dealt_with(
    present: &Vec<PresentDisplay>,
    displays: &Vec<Display>,
    rows: &mut Vec<StripRow>,
    actions: Vec<Action>,
)
    requires
        call_ensures(orphans::find_orphaned_workspaces, (present, displays, rows), actions),
    ensures
        ({
            let table = old(rows).deep_view();
            let n = table.len() as int;
            let shown = present.deep_view();
            &&& final(rows).deep_view() == orphans::rows_after_orphans(table, n, shown, displays@)
            &&& actions@ == orphans::actions_for_orphans(table, n, shown, displays@)
            &&& (forall|o: int| 0 <= o < n ==> (#[trigger] table[o]).timeout is None)
                ==> final(rows).deep_view() == table && actions.len() == 0
        }),
{
    let table = old(rows).deep_view();
    let n = table.len() as int;
    assert(n == old(rows).len());
    if forall|o: int| 0 <= o < n ==> (#[trigger] table[o]).timeout is None {
        lemma_nothing_waits(table, n, present.deep_view(), displays@);
    }
}

proof fn lemma_nothing_waits(
    rows: Seq<RowView>,
    n: int,
    present: Seq<PresentView>,
    displays: Seq<Display>,
)
    requires
        0 <= n <= rows.len(),
        forall|o: int| 0 <= o < n ==> (#[trigger] rows[o]).timeout is None,
    ensures
        orphans::rows_after_orphans(rows, n, present, displays) == rows,
        orphans::actions_for_orphans(rows, n, present, displays) == Seq::<Action>::empty(),
    decreases n,
{
    if n > 0 {
        lemma_nothing_waits(rows, n - 1, present, displays);
        strips_with_a_display_or_without_windows(rows, present, displays, n - 1);
        assert(rows[n - 1].timeout is None);
    }
}

} // verus!
