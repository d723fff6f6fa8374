//! Strips that go out of view and come back.

use crate::moves;
use crate::rows;
use crate::rows::{Action, Display, PreviousStripPosition, RowView, StripRow, WindowRow};
use crate::search;
use crate::types::{Entity, ProcessSerialNumber, WorkspaceId};
use vstd::prelude::*;

verus! {

/// Picks the active strips of a workspace.
pub open spec fn active_in(id: WorkspaceId) -> spec_fn(RowView) -> bool {
    |row: RowView| row.strip.id == id && row.active
}

/// The row of a strip that is to go out of view: it is not active itself, and
/// another strip of its workspace is active in its stead. If none is, the user
/// looks at another display, and the strip stays.
pub open spec fn row_to_hide(rows: Seq<RowView>, entity: Entity) -> Option<int> {
    match search::first(rows, rows::row_of(entity)) {
        Some(r) => if !rows[r].active && search::first(
            rows,
            active_in(rows[r].strip.id),
        ) is Some {
            Some(r)
        } else {
            None
        },
        None => None,
    }
}

/// The rows with the strips of `removed` out of view.
pub open spec fn rows_after_hiding(
    rows: Seq<RowView>,
    removed: Seq<Entity>,
    display: Display,
) -> Seq<RowView>
    decreases removed.len(),
{
    if removed.len() == 0 {
        rows
    } else {
        let before = rows_after_hiding(rows, removed.drop_last(), display);
        match row_to_hide(rows, removed.last()) {
            Some(r) => before.update(
                r,
                before[r].moved_to(display.bounds.max.minus(moves::HIDDEN_INSET as int)),
            ),
            None => before,
        }
    }
}

/// What is done to the world when strips go out of view: each keeps in mind
/// where it stood and which window had focus, unless it does already.
pub open spec fn actions_for_hiding(
    rows: Seq<RowView>,
    removed: Seq<Entity>,
    focused: Option<Entity>,
    display: Display,
) -> Seq<Action>
    decreases removed.len(),
{
    if removed.len() == 0 {
        Seq::empty()
    } else {
        let before = rows_after_hiding(rows, removed.drop_last(), display);
        actions_for_hiding(rows, removed.drop_last(), focused, display) + match row_to_hide(
            rows,
            removed.last(),
        ) {
            Some(r) => if rows[r].previous is None {
                seq![
                    Action::InsertPrevious(
                        removed.last(),
                        PreviousStripPosition { origin: before[r].position, focus: focused },
                    ),
                ]
            } else {
                Seq::empty()
            },
            None => Seq::empty(),
        }
    }
}

/// Hiding changes nothing in a row but the place of its strip.
pub proof fn hiding_keeps_all_but_places(
    rows: Seq<RowView>,
    removed: Seq<Entity>,
    display: Display,
)
    ensures
        rows_after_hiding(rows, removed, display).len() == rows.len(),
        forall|i: int|
            0 <= i < rows.len() ==> (#[trigger] rows_after_hiding(rows, removed, display)[i])
                == rows[i].moved_to(rows_after_hiding(rows, removed, display)[i].position),
    decreases removed.len(),
{
    if removed.len() > 0 {
        hiding_keeps_all_but_places(rows, removed.drop_last(), display);
        search::lemma_first(rows, rows::row_of(removed.last()));
    }
}

/// Whether a row is to go out of view does not depend on where others are.
proof fn lemma_hiding_is_stable(
    rows: Seq<RowView>,
    removed: Seq<Entity>,
    display: Display,
    entity: Entity,
)
    ensures
        row_to_hide(rows_after_hiding(rows, removed, display), entity) == row_to_hide(rows, entity),
{
    let after = rows_after_hiding(rows, removed, display);
    hiding_keeps_all_but_places(rows, removed, display);
    search::lemma_same_first(rows, after, rows::row_of(entity));
    search::lemma_first(rows, rows::row_of(entity));
    match search::first(rows, rows::row_of(entity)) {
        Some(r) => {
            search::lemma_same_first(rows, after, active_in(rows[r].strip.id));
            assert(after[r].strip.id == rows[r].strip.id);
        },
        None => {},
    }
}

/// Finds the row of a strip that is to go out of view.
fn find_row_to_hide(rows: &Vec<StripRow>, entity: Entity) -> (found: Option<usize>)
    ensures
        match row_to_hide(rows.deep_view(), entity) {
            Some(r) => found == Some(r as usize) && 0 <= r < rows.len(),
            None => found is None,
        },
{
    let ghost table = rows.deep_view();
    let r = match rows::find_row(rows, entity) {
        Some(r) => r,
        None => {
            return None;
        },
    };
    assert(table[r as int] == rows@[r as int]@);
    if rows[r].active {
        return None;
    }
    let id = rows[r].strip.id();
    for i in 0..rows.len()
        invariant
            table == rows.deep_view(),
            r < rows.len(),
            search::first(table, rows::row_of(entity)) == Some(r as int),
            !table[r as int].active,
            id == table[r as int].strip.id,
            forall|j: int| 0 <= j < i ==> !active_in(id)(table[j]),
    {
        assert(table[i as int] == rows@[i as int]@);
        if rows[i].strip.id() == id && rows[i].active {
            proof {
                search::lemma_first_is(table, active_in(id), i as int);
            }
            return Some(r);
        }
    }
    proof {
        search::lemma_first_none(table, active_in(id));
    }
    None
}

/// Whether some strip of a list is to go out of view, so that the lower right
/// corner of the display is needed.
pub fn hides_a_strip(removed: &Vec<Entity>, rows: &Vec<StripRow>) -> (hides: bool)
    ensures
        hides == exists|k: int|
            0 <= k < removed.len() && row_to_hide(rows.deep_view(), #[trigger] removed@[k]) is Some,
{
    for k in 0..removed.len()
        invariant
            forall|j: int|
                0 <= j < k ==> row_to_hide(rows.deep_view(), #[trigger] removed@[j]) is None,
    {
        if find_row_to_hide(rows, removed[k]).is_some() {
            assert(row_to_hide(rows.deep_view(), removed@[k as int]) is Some);
            return true;
        }
    }
    false
}

/// Puts strips that are no longer the active ones out of view, at the lower
/// right corner of the display. A strip that has become active again stays.
pub fn hide_inactive_workspace(
    removed: &Vec<Entity>,
    focused: Option<Entity>,
    display: &Display,
    rows: &mut Vec<StripRow>,
) -> (actions: Vec<Action>)
    requires
        (exists|k: int|
            0 <= k < removed.len() && row_to_hide(
                old(rows).deep_view(),
                #[trigger] removed@[k],
            ) is Some) ==> display.bounds.max.allows_minus(moves::HIDDEN_INSET as int),
    ensures
        final(rows).deep_view() == rows_after_hiding(old(rows).deep_view(), removed@, *display),
        actions@ == actions_for_hiding(old(rows).deep_view(), removed@, focused, *display),
{
    let ghost table = rows.deep_view();
    let n: usize = rows.len();
    let mut actions: Vec<Action> = Vec::new();
    for k in 0..removed.len()
        invariant
            n == table.len(),
            rows.len() == n,
            rows.deep_view() == rows_after_hiding(table, removed@.take(k as int), *display),
            actions@ == actions_for_hiding(table, removed@.take(k as int), focused, *display),
            (exists|k: int|
                0 <= k < removed.len() && row_to_hide(table, #[trigger] removed@[k]) is Some)
                ==> display.bounds.max.allows_minus(moves::HIDDEN_INSET as int),
    {
        let entity = removed[k];
        let ghost current = rows.deep_view();
        let ghost before = actions@;
        proof {
            assert(removed@.take(k + 1).drop_last() =~= removed@.take(k as int));
            assert(removed@.take(k + 1).last() == entity);
            lemma_hiding_is_stable(table, removed@.take(k as int), *display, entity);
            hiding_keeps_all_but_places(table, removed@.take(k as int), *display);
        }
        if let Some(r) = find_row_to_hide(rows, entity) {
            assert(removed@[k as int] == entity);
            assert(current[r as int] == rows@[r as int]@);
            if rows[r].previous.is_none() {
                actions.push(
                    Action::InsertPrevious(
                        entity,
                        PreviousStripPosition { origin: rows[r].position, focus: focused },
                    ),
                );
            }
            rows[r].position = display.bounds.max.less(moves::HIDDEN_INSET);
            assert(rows.deep_view() =~= current.update(
                r as int,
                current[r as int].moved_to(
                    display.bounds.max.minus(moves::HIDDEN_INSET as int),
                ),
            ));
        }
        assert(actions@ =~= actions_for_hiding(table, removed@.take(k + 1), focused, *display));
    }
    assert(removed@.take(removed@.len() as int) =~= removed@);
    actions
}

/// The process that owns a window, if both are known.
pub open spec fn psn_of(windows: Seq<WindowRow>, window: Entity) -> Option<ProcessSerialNumber> {
    match search::first(windows, rows::window_of(window)) {
        Some(i) => windows[i].psn,
        None => None,
    }
}

/// Gives the focus back to the window that had it, if the strip still holds it
/// and the processes of it and of the window that has the focus are known.
pub open spec fn refocus(
    row: RowView,
    focus: Option<Entity>,
    focused: Option<Entity>,
    windows: Seq<WindowRow>,
) -> Seq<Action> {
    match (focus, focused) {
        (Some(window), Some(previous)) => match (
            psn_of(windows, window),
            psn_of(windows, previous),
        ) {
            (Some(psn), Some(previous_psn)) => if row.strip.contains(window) {
                seq![Action::FocusWithoutRaise { window, psn, previous, previous_psn }]
            } else {
                Seq::empty()
            },
            _ => Seq::empty(),
        },
        _ => Seq::empty(),
    }
}

/// The rows with the strip that became active back in view, and what is done to
/// the world for it. A strip that has no place in mind was not hidden.
pub open spec fn shown(
    rows: Seq<RowView>,
    activated: Entity,
    focused: Option<Entity>,
    windows: Seq<WindowRow>,
) -> (Seq<RowView>, Seq<Action>) {
    match search::first(rows, rows::row_of(activated)) {
        Some(r) => match rows[r].previous {
            Some(previous) => (
                rows.update(r, rows[r].moved_to(previous.origin)),
                seq![Action::RemovePrevious(activated)] + refocus(
                    rows[r],
                    previous.focus,
                    focused,
                    windows,
                ),
            ),
            None => (rows, Seq::empty()),
        },
        None => (rows, Seq::empty()),
    }
}

/// Brings the strip that became active back to where it stood, and gives the
/// focus back to the window that had it.
pub fn show_active_workspace(
    activated: Entity,
    focused: Option<Entity>,
    windows: &Vec<WindowRow>,
    rows: &mut Vec<StripRow>,
) -> (actions: Vec<Action>)
    ensures
        (final(rows).deep_view(), actions@) == shown(
            old(rows).deep_view(),
            activated,
            focused,
            windows@,
        ),
{
    let mut actions: Vec<Action> = Vec::new();
    let ghost table = rows.deep_view();
    let r = match rows::find_row(rows, activated) {
        Some(r) => r,
        None => {
            return actions;
        },
    };
    assert(table[r as int] == rows@[r as int]@);
    if let Some(previous) = rows[r].previous {
        actions.push(Action::RemovePrevious(activated));
        rows[r].position = previous.origin;
        if let (Some(window), Some(last)) = (previous.focus, focused) {
            if rows[r].strip.contains(window) {
                if let (Some(psn), Some(previous_psn)) = (
                    find_psn(windows, window),
                    find_psn(windows, last),
                ) {
                    actions.push(
                        Action::FocusWithoutRaise { window, psn, previous: last, previous_psn },
                    );
                }
            }
        }
        proof {
            assert(rows.deep_view() =~= table.update(
                r as int,
                table[r as int].moved_to(previous.origin),
            ));
            assert(actions@ =~= seq![Action::RemovePrevious(activated)] + refocus(
                table[r as int],
                previous.focus,
                focused,
                windows@,
            ));
        }
    }
    actions
}

/// Finds the process that owns a window.
fn find_psn(windows: &Vec<WindowRow>, window: Entity) -> (psn: Option<ProcessSerialNumber>)
    ensures
        psn == psn_of(windows@, window),
{
    match rows::find_window(windows, window) {
        Some(i) => windows[i].psn,
        None => None,
    }
}

/// A strip that is hidden already keeps the place in mind that it came from.
pub proof fn hiding_again_keeps_the_place_in_mind(
    rows: Seq<RowView>,
    entity: Entity,
    focused: Option<Entity>,
    display: Display,
)
    requires
        row_to_hide(rows, entity) is Some,
        rows[row_to_hide(rows, entity).unwrap()].previous is Some,
    ensures
        actions_for_hiding(rows, seq![entity], focused, display) == Seq::<Action>::empty(),
{
    let one = seq![entity];
    assert(one.drop_last() =~= Seq::<Entity>::empty());
    assert(one.last() == entity);
    reveal_with_fuel(actions_for_hiding, 2);
}

/// A strip that has a place in mind comes back to it, however often it and
/// others are hidden before.
pub proof fn strip_comes_back_to_the_place_in_mind(
    rows: Seq<RowView>,
    removed: Seq<Entity>,
    entity: Entity,
    focused: Option<Entity>,
    display: Display,
    windows: Seq<WindowRow>,
    r: int,
)
    requires
        search::first(rows, rows::row_of(entity)) == Some(r),
        rows[r].previous is Some,
    ensures
        ({
            let hidden = rows_after_hiding(rows, removed, display);
            let origin = rows[r].previous.unwrap().origin;
            shown(hidden, entity, focused, windows).0[r] == rows[r].moved_to(origin)
        }),
{
    let hidden = rows_after_hiding(rows, removed, display);
    search::lemma_first(rows, rows::row_of(entity));
    hiding_keeps_all_but_places(rows, removed, display);
    search::lemma_same_first(rows, hidden, rows::row_of(entity));
}

/// A row that a window was sent to without the focus lies hidden, and comes up
/// at the upper left corner of the display, where it gives that window the
/// focus if the processes are known.
pub proof fn row_made_hidden_comes_into_view(
    rows: Seq<RowView>,
    source: int,
    step: moves::WindowMove,
    display: Display,
    entity: Entity,
    focused: Option<Entity>,
    windows: Seq<WindowRow>,
)
    requires
        moves::move_hides(rows, source, step),
        forall|i: int| 0 <= i < rows.len() ==> (#[trigger] rows[i]).entity != entity,
    ensures
        ({
            let new = moves::strip_for_move(rows, source, step, display);
            let table = rows.push(new.row(entity));
            let n = rows.len() as int;
            let (after, actions) = shown(table, entity, focused, windows);
            &&& new.position == display.bounds.max.minus(moves::HIDDEN_INSET as int)
            &&& after == rows.push(new.row(entity).moved_to(display.bounds.min))
            &&& actions[0] == Action::RemovePrevious(entity)
            &&& focused is Some && psn_of(windows, step.window) is Some && psn_of(
                windows,
                focused.unwrap(),
            ) is Some ==> actions.len() == 2 && actions[1] == (Action::FocusWithoutRaise {
                window: step.window,
                psn: psn_of(windows, step.window).unwrap(),
                previous: focused.unwrap(),
                previous_psn: psn_of(windows, focused.unwrap()).unwrap(),
            })
        }),
{
    let new = moves::strip_for_move(rows, source, step, display);
    let table = rows.push(new.row(entity));
    let n = rows.len() as int;
    assert forall|j: int| 0 <= j < n implies !rows::row_of(entity)(table[j]) by {
        assert(table[j] == rows[j]);
    }
    search::lemma_first_is(table, rows::row_of(entity), n);
    let contents = new.contents();
    assert(contents.columns[0][0] == step.window);
    assert(contents.columns[0].contains(step.window));
    assert(contents.contains(step.window));
    assert(shown(table, entity, focused, windows).0 =~= rows.push(
        new.row(entity).moved_to(display.bounds.min),
    ));
}

} // verus!
