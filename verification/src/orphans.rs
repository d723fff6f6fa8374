//! Strips that lost their display.

use crate::rows::{Action, Display, PresentDisplay, PresentView, RowView, StripRow};
use crate::search;
use crate::strip;
use crate::types::{DisplayId, Entity, WorkspaceId};
use vstd::prelude::*;

verus! {

/// What becomes of a strip that waits for a display.
pub enum Fate {
    /// It is empty and goes.
    Discarded,
    /// It is on a display again and need not wait any more.
    Settled,
    /// Its time is up: its windows float.
    Released,
    /// No display shows its workspace yet.
    Waiting,
    /// Its windows go to the strip in a row, which the display has for the
    /// workspace already, and it goes.
    Merged(int),
    /// It goes to a display.
    Reparented(Entity),
}

/// Picks a display of the world by its identifier.
pub open spec fn display_with_id(id: DisplayId) -> spec_fn(Display) -> bool {
    |display: Display| display.id == id
}

/// Picks the reported displays that show a workspace and are in the world.
pub open spec fn shows(id: WorkspaceId, displays: Seq<Display>) -> spec_fn(PresentView) -> bool {
    |present: PresentView|
        present.spaces.contains(id) && search::first(
            displays,
            display_with_id(present.id),
        ) is Some
}

/// The display of the world that shows a workspace.
pub open spec fn display_of_space(
    id: WorkspaceId,
    present: Seq<PresentView>,
    displays: Seq<Display>,
) -> Option<Entity> {
    match search::first(present, shows(id, displays)) {
        Some(p) => match search::first(displays, display_with_id(present[p].id)) {
            Some(d) => Some(displays[d].entity),
            None => None,
        },
        None => None,
    }
}

/// Picks the strips that are on a display for a workspace and do not wait.
pub open spec fn settled_on(display: Entity, id: WorkspaceId) -> spec_fn(RowView) -> bool {
    |row: RowView| row.timeout is None && row.parent == Some(display) && row.strip.id == id
}

/// What becomes of the strip in row `o`, if it is one that waits.
pub open spec fn fate(
    rows: Seq<RowView>,
    o: int,
    present: Seq<PresentView>,
    displays: Seq<Display>,
) -> Option<Fate> {
    let row = rows[o];
    match row.timeout {
        None => None,
        Some(timeout) => Some(
            if row.strip.columns.len() == 0 {
                Fate::Discarded
            } else if row.parent is Some {
                Fate::Settled
            } else if timeout.finished {
                Fate::Released
            } else {
                match display_of_space(row.strip.id, present, displays) {
                    None => Fate::Waiting,
                    Some(display) => match search::first(
                        rows,
                        settled_on(display, row.strip.id),
                    ) {
                        Some(m) => Fate::Merged(m),
                        None => Fate::Reparented(display),
                    },
                }
            },
        ),
    }
}

/// What is done to the world for the strip in row `o`.
pub open spec fn actions_for_orphan(
    rows: Seq<RowView>,
    o: int,
    present: Seq<PresentView>,
    displays: Seq<Display>,
) -> Seq<Action> {
    let entity = rows[o].entity;
    match fate(rows, o, present, displays) {
        None => Seq::empty(),
        Some(Fate::Discarded) => seq![Action::Despawn(entity)],
        Some(Fate::Settled) => seq![Action::RemoveTimeout(entity), Action::InsertRefresh(entity)],
        Some(Fate::Released) => rows[o].strip.windows().map_values(
            |window: Entity| Action::InsertFloating(window),
        ),
        Some(Fate::Waiting) => Seq::empty(),
        Some(Fate::Merged(m)) => seq![
            Action::Despawn(entity),
            Action::InsertRefresh(rows[m].entity),
        ],
        Some(Fate::Reparented(display)) => seq![
            Action::RemoveTimeout(entity),
            Action::SetParent(entity, display),
            Action::InsertRefresh(entity),
        ],
    }
}

/// What is done to the world for the strips in the first `n` rows.
pub open spec fn actions_for_orphans(
    rows: Seq<RowView>,
    n: int,
    present: Seq<PresentView>,
    displays: Seq<Display>,
) -> Seq<Action>
    decreases n,
{
    if n <= 0 {
        Seq::empty()
    } else {
        actions_for_orphans(rows, n - 1, present, displays) + actions_for_orphan(
            rows,
            n - 1,
            present,
            displays,
        )
    }
}

/// The rows once the strips in the first `n` of them are dealt with: the
/// windows of those that are merged are at the right end of the others.
pub open spec fn rows_after_orphans(
    rows: Seq<RowView>,
    n: int,
    present: Seq<PresentView>,
    displays: Seq<Display>,
) -> Seq<RowView>
    decreases n,
{
    if n <= 0 {
        rows
    } else {
        let before = rows_after_orphans(rows, n - 1, present, displays);
        match fate(rows, n - 1, present, displays) {
            Some(Fate::Merged(m)) => before.update(
                m,
                before[m].with_strip(
                    before[m].strip.appended_all(rows[n - 1].strip.windows()),
                ),
            ),
            _ => before,
        }
    }
}

/// Whether a list holds a workspace.
fn lists(spaces: &Vec<WorkspaceId>, id: WorkspaceId) -> (found: bool)
    ensures
        found == spaces@.contains(id),
{
    for i in 0..spaces.len()
        invariant
            forall|j: int| 0 <= j < i ==> spaces@[j] != id,
    {
        if spaces[i] == id {
            return true;
        }
    }
    false
}

/// Finds a display of the world by its identifier.
fn find_display(displays: &Vec<Display>, id: DisplayId) -> (found: Option<Entity>)
    ensures
        found == match search::first(displays@, display_with_id(id)) {
            Some(d) => Some(displays@[d].entity),
            None => None,
        },
{
    for i in 0..displays.len()
        invariant
            forall|j: int| 0 <= j < i ==> !display_with_id(id)(displays@[j]),
    {
        if displays[i].id == id {
            proof {
                search::lemma_first_is(displays@, display_with_id(id), i as int);
            }
            return Some(displays[i].entity);
        }
    }
    proof {
        search::lemma_first_none(displays@, display_with_id(id));
    }
    None
}

/// Finds the display of the world that shows a workspace.
fn find_display_of_space(
    id: WorkspaceId,
    present: &Vec<PresentDisplay>,
    displays: &Vec<Display>,
) -> (found: Option<Entity>)
    ensures
        found == display_of_space(id, present.deep_view(), displays@),
{
    let ghost table = present.deep_view();
    for i in 0..present.len()
        invariant
            table == present.deep_view(),
            forall|j: int| 0 <= j < i ==> !shows(id, displays@)(table[j]),
    {
        assert(table[i as int] == present@[i as int]@);
        if lists(&present[i].spaces, id) {
            if let Some(entity) = find_display(displays, present[i].id) {
                proof {
                    search::lemma_first_is(table, shows(id, displays@), i as int);
                }
                return Some(entity);
            }
        }
    }
    proof {
        search::lemma_first_none(table, shows(id, displays@));
    }
    None
}

/// Finds the strip that a display has for a workspace.
fn find_settled(rows: &Vec<StripRow>, display: Entity, id: WorkspaceId) -> (found: Option<usize>)
    ensures
        match search::first(rows.deep_view(), settled_on(display, id)) {
            Some(i) => found == Some(i as usize) && 0 <= i < rows.len(),
            None => found is None,
        },
{
    let ghost table = rows.deep_view();
    for i in 0..rows.len()
        invariant
            table == rows.deep_view(),
            forall|j: int| 0 <= j < i ==> !settled_on(display, id)(table[j]),
    {
        assert(table[i as int] == rows@[i as int]@);
        let on_display = match rows[i].parent {
            Some(parent) => parent == display,
            None => false,
        };
        if on_display && rows[i].timeout.is_none() && rows[i].strip.id() == id {
            proof {
                search::lemma_first_is(table, settled_on(display, id), i as int);
            }
            return Some(i);
        }
    }
    proof {
        search::lemma_first_none(table, settled_on(display, id));
    }
    None
}

/// The strip that another is merged into is on a display and does not wait.
pub proof fn lemma_merged_into_settled(
    rows: Seq<RowView>,
    o: int,
    present: Seq<PresentView>,
    displays: Seq<Display>,
    m: int,
)
    requires
        fate(rows, o, present, displays) == Some(Fate::Merged(m)),
    ensures
        0 <= m < rows.len(),
        rows[m].timeout is None,
        rows[m].parent is Some,
        rows[m].strip.id == rows[o].strip.id,
{
    let display = display_of_space(rows[o].strip.id, present, displays).unwrap();
    search::lemma_first(rows, settled_on(display, rows[o].strip.id));
}

/// Dealing with orphans changes nothing in a row but the windows of its strip,
/// and nothing at all in the row of a strip that waits.
pub proof fn orphans_keep_all_but_windows(
    rows: Seq<RowView>,
    n: int,
    present: Seq<PresentView>,
    displays: Seq<Display>,
)
    requires
        n <= rows.len(),
    ensures
        rows_after_orphans(rows, n, present, displays).len() == rows.len(),
        forall|i: int|
            0 <= i < rows.len() ==> (#[trigger] rows_after_orphans(rows, n, present, displays)[i])
                == rows[i].with_strip(
                strip::StripView {
                    columns: rows_after_orphans(rows, n, present, displays)[i].strip.columns,
                    ..rows[i].strip
                },
            ),
        forall|i: int|
            0 <= i < rows.len() && rows[i].timeout is Some ==> (#[trigger] rows_after_orphans(
                rows,
                n,
                present,
                displays,
            )[i]) == rows[i],
    decreases n,
{
    if n > 0 {
        orphans_keep_all_but_windows(rows, n - 1, present, displays);
        match fate(rows, n - 1, present, displays) {
            Some(Fate::Merged(m)) => {
                lemma_merged_into_settled(rows, n - 1, present, displays, m);
            },
            _ => {},
        }
    }
}

/// The strip that a waiting strip is merged into can be found at any time.
proof fn lemma_settled_is_stable(
    rows: Seq<RowView>,
    n: int,
    present: Seq<PresentView>,
    displays: Seq<Display>,
    display: Entity,
    id: WorkspaceId,
)
    requires
        n <= rows.len(),
    ensures
        search::first(rows_after_orphans(rows, n, present, displays), settled_on(display, id))
            == search::first(rows, settled_on(display, id)),
{
    let after = rows_after_orphans(rows, n, present, displays);
    let p = settled_on(display, id);
    orphans_keep_all_but_windows(rows, n, present, displays);
    assert forall|j: int| 0 <= j < rows.len() implies p(#[trigger] after[j]) == p(rows[j]) by {
        assert(after[j].strip.id == rows[j].strip.id);
    }
    search::lemma_same_first(rows, after, p);
}

/// Deals with all strips that wait for a display. `present` are the displays
/// that the window server reports, `displays` those of the world.
pub fn find_orphaned_workspaces(
    present: &Vec<PresentDisplay>,
    displays: &Vec<Display>,
    rows: &mut Vec<StripRow>,
) -> (actions: Vec<Action>)
    ensures
        final(rows).deep_view() == rows_after_orphans(
            old(rows).deep_view(),
            old(rows).len() as int,
            present.deep_view(),
            displays@,
        ),
        actions@ == actions_for_orphans(
            old(rows).deep_view(),
            old(rows).len() as int,
            present.deep_view(),
            displays@,
        ),
{
    let ghost table = rows.deep_view();
    let ghost shown = present.deep_view();
    let n: usize = rows.len();
    let mut actions: Vec<Action> = Vec::new();
    for o in 0..n
        invariant
            n == table.len(),
            rows.len() == n,
            shown == present.deep_view(),
            rows.deep_view() == rows_after_orphans(table, o as int, shown, displays@),
            actions@ == actions_for_orphans(table, o as int, shown, displays@),
    {
        let ghost before = actions@;
        let ghost current = rows.deep_view();
        proof {
            orphans_keep_all_but_windows(table, o as int, shown, displays@);
            assert(current[o as int] == rows@[o as int]@);
        }
        let entity = rows[o].entity;
        if let Some(timeout) = rows[o].timeout {
            assert(rows@[o as int]@ == table[o as int]);
            if rows[o].strip.len() == 0 {
                actions.push(Action::Despawn(entity));
                assert(actions@ =~= before + actions_for_orphan(
                    table,
                    o as int,
                    shown,
                    displays@,
                ));
            } else if rows[o].parent.is_some() {
                actions.push(Action::RemoveTimeout(entity));
                actions.push(Action::InsertRefresh(entity));
                assert(actions@ =~= before + actions_for_orphan(
                    table,
                    o as int,
                    shown,
                    displays@,
                ));
            } else if timeout.finished {
                let windows = rows[o].strip.all_windows();
                release(&windows, &mut actions);
                assert(actions@ =~= before + actions_for_orphan(
                    table,
                    o as int,
                    shown,
                    displays@,
                ));
            } else {
                let id = rows[o].strip.id();
                match find_display_of_space(id, present, displays) {
                    None => {
                        assert(actions@ =~= before + actions_for_orphan(
                            table,
                            o as int,
                            shown,
                            displays@,
                        ));
                    },
                    Some(display) => {
                        proof {
                            lemma_settled_is_stable(
                                table,
                                o as int,
                                shown,
                                displays@,
                                display,
                                id,
                            );
                        }
                        match find_settled(rows, display, id) {
                            Some(m) => {
                                let windows = rows[o].strip.all_windows();
                                rows[m].strip.append_all(&windows);
                                proof {
                                    assert(rows.deep_view() =~= current.update(
                                        m as int,
                                        current[m as int].with_strip(
                                            current[m as int].strip.appended_all(windows@),
                                        ),
                                    ));
                                }
                                actions.push(Action::Despawn(entity));
                                actions.push(Action::InsertRefresh(rows[m].entity));
                                assert(actions@ =~= before + actions_for_orphan(
                                    table,
                                    o as int,
                                    shown,
                                    displays@,
                                ));
                            },
                            None => {
                                actions.push(Action::RemoveTimeout(entity));
                                actions.push(Action::SetParent(entity, display));
                                actions.push(Action::InsertRefresh(entity));
                                assert(actions@ =~= before + actions_for_orphan(
                                    table,
                                    o as int,
                                    shown,
                                    displays@,
                                ));
                            },
                        }
                    },
                }
            }
        } else {
            assert(table[o as int].timeout is None);
            assert(actions@ =~= before + actions_for_orphan(table, o as int, shown, displays@));
        }
    }
    actions
}

/// Lets windows float.
fn release(windows: &Vec<Entity>, actions: &mut Vec<Action>)
    ensures
        final(actions)@ == old(actions)@ + windows@.map_values(
            |window: Entity| Action::InsertFloating(window),
        ),
{
    let ghost all = windows@.map_values(|window: Entity| Action::InsertFloating(window));
    for i in 0..windows.len()
        invariant
            all == windows@.map_values(|window: Entity| Action::InsertFloating(window)),
            actions@ == old(actions)@ + all.take(i as int),
    {
        actions.push(Action::InsertFloating(windows[i]));
        assert(all.take(i + 1) =~= all.take(i as int).push(all[i as int]));
    }
    assert(all.take(all.len() as int) =~= all);
}

/// No strip loses a window while orphans are dealt with.
pub proof fn orphans_take_no_window_away(
    rows: Seq<RowView>,
    n: int,
    present: Seq<PresentView>,
    displays: Seq<Display>,
    i: int,
    window: Entity,
)
    requires
        n <= rows.len(),
        0 <= i < rows.len(),
        rows[i].strip.contains(window),
    ensures
        rows_after_orphans(rows, n, present, displays)[i].strip.contains(window),
    decreases n,
{
    if n > 0 {
        orphans_take_no_window_away(rows, n - 1, present, displays, i, window);
        orphans_keep_all_but_windows(rows, n - 1, present, displays);
        let before = rows_after_orphans(rows, n - 1, present, displays);
        match fate(rows, n - 1, present, displays) {
            Some(Fate::Merged(m)) => {
                lemma_merged_into_settled(rows, n - 1, present, displays, m);
                strip::appended_all_adds_windows(before[m].strip, rows[n - 1].strip.windows());
            },
            _ => {},
        }
    }
}

/// A strip that goes leaves no window behind: it was empty, or its windows are
/// in a strip that is on a display and does not wait.
pub proof fn strips_that_go_leave_no_window_behind(
    rows: Seq<RowView>,
    present: Seq<PresentView>,
    displays: Seq<Display>,
    o: int,
    window: Entity,
)
    requires
        0 <= o < rows.len(),
        actions_for_orphan(rows, o, present, displays).contains(Action::Despawn(rows[o].entity)),
        rows[o].strip.contains(window),
    ensures
        exists|m: int|
            0 <= m < rows.len() && rows[m].parent is Some && rows[m].timeout is None
                && #[trigger] rows_after_orphans(
                rows,
                rows.len() as int,
                present,
                displays,
            )[m].strip.contains(window),
{
    let actions = actions_for_orphan(rows, o, present, displays);
    let k = choose|k: int| 0 <= k < actions.len() && actions[k] == Action::Despawn(rows[o].entity);
    match fate(rows, o, present, displays) {
        Some(Fate::Merged(m)) => {
            lemma_merged_into_settled(rows, o, present, displays, m);
            strip::windows_lists_what_the_strip_holds(rows[o].strip);
            assert(rows[o].strip.windows().contains(window));
            lemma_merged_windows_stay(rows, rows.len() as int, present, displays, o, m, window);
        },
        Some(Fate::Discarded) => {},
        Some(Fate::Released) => {
            assert(actions[k] == Action::InsertFloating(rows[o].strip.windows()[k]));
        },
        _ => {},
    }
}

/// Once the windows of a strip are merged into another they stay there.
proof fn lemma_merged_windows_stay(
    rows: Seq<RowView>,
    n: int,
    present: Seq<PresentView>,
    displays: Seq<Display>,
    o: int,
    m: int,
    window: Entity,
)
    requires
        0 <= o < n <= rows.len(),
        fate(rows, o, present, displays) == Some(Fate::Merged(m)),
        0 <= m < rows.len(),
        rows[o].strip.windows().contains(window),
    ensures
        rows_after_orphans(rows, n, present, displays)[m].strip.contains(window),
    decreases n,
{
    orphans_keep_all_but_windows(rows, n - 1, present, displays);
    let before = rows_after_orphans(rows, n - 1, present, displays);
    if o < n - 1 {
        lemma_merged_windows_stay(rows, n - 1, present, displays, o, m, window);
    }
    match fate(rows, n - 1, present, displays) {
        Some(Fate::Merged(t)) => {
            lemma_merged_into_settled(rows, n - 1, present, displays, t);
            strip::appended_all_adds_windows(before[t].strip, rows[n - 1].strip.windows());
        },
        _ => {},
    }
}

} // verus!
