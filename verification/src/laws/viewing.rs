//! Strips that go out of view and come back.

use crate::geometry::Origin;
use crate::laws::moving;
use crate::rows;
use crate::rows::{Action, Display, PreviousStripPosition, RowView, StripRow, WindowRow};
use crate::search;
use crate::types::{Entity, ProcessSerialNumber};
use crate::visibility;
use vstd::prelude::*;

verus! {

/// Whether row `r` is the first of an entity.
pub open spec fn is_row_of(rows: Seq<RowView>, entity: Entity, r: int) -> bool {
    &&& 0 <= r < rows.len()
    &&& rows[r].entity == entity
    &&& forall|j: int| 0 <= j < r ==> (#[trigger] rows[j]).entity != entity
}

/// Whether a strip of the workspace of row `r` is active.
pub open spec fn is_workspace_seen(rows: Seq<RowView>, r: int) -> bool {
    exists|j: int|
        0 <= j < rows.len() && (#[trigger] rows[j]).active && rows[j].strip.id == rows[r].strip.id
}

proof fn lemma_to_hide(rows: Seq<RowView>, entity: Entity, r: int)
    requires
        is_row_of(rows, entity, r),
    ensures
        visibility::row_to_hide(rows, entity) == if !rows[r].active && is_workspace_seen(rows, r) {
            Some(r)
        } else {
            None
        },
{
    let of = rows::row_of(entity);
    assert forall|j: int| 0 <= j < r implies !of(rows[j]) by {}
    search::lemma_first_is(rows, of, r);
    let p = visibility::active_in(rows[r].strip.id);
    search::lemma_first(rows, p);
    match search::first(rows, p) {
        Some(k) => {
            assert(p(rows[k]));
            assert(rows[k].active);
        },
        None => {
            if is_workspace_seen(rows, r) {
                let j = choose|j: int|
                    0 <= j < rows.len() && (#[trigger] rows[j]).active && rows[j].strip.id
                        == rows[r].strip.id;
                assert(!p(rows[j]));
            }
        },
    }
}

/// A strip that is not active, while another strip of its workspace is, goes to the
/// lower right corner of the display, less ten each way. It is told to keep in mind
/// where it stood and which window has focus, unless it has a place in mind already.
/// Nothing else changes.
pub proof fn a_strip_that_is_no_longer_active_is_hidden(
    rows: Seq<RowView>,
    removed: Seq<Entity>,
    entity: Entity,
    focused: Option<Entity>,
    display: Display,
    r: int,
)
    requires
        is_row_of(rows, entity, r),
        !rows[r].active,
        is_workspace_seen(rows, r),
        display.bounds.max.x - 10 >= i32::MIN,
        display.bounds.max.y - 10 >= i32::MIN,
    ensures
        ({
            let before = visibility::rows_after_hiding(rows, removed, display);
            &&& visibility::rows_after_hiding(rows, removed.push(entity), display) == before.update(
                r,
                RowView {
                    position: Origin {
                        x: (display.bounds.max.x - 10) as i32,
                        y: (display.bounds.max.y - 10) as i32,
                    },
                    ..before[r]
                },
            )
            &&& visibility::actions_for_hiding(rows, removed.push(entity), focused, display)
                == if rows[r].previous is None {
                visibility::actions_for_hiding(rows, removed, focused, display).push(
                    Action::InsertPrevious(
                        entity,
                        PreviousStripPosition { origin: before[r].position, focus: focused },
                    ),
                )
            } else {
                visibility::actions_for_hiding(rows, removed, focused, display)
            }
        }),
{
    lemma_to_hide(rows, entity, r);
    let more = removed.push(entity);
    assert(more.drop_last() =~= removed);
    assert(more.last() == entity);
    let before = visibility::rows_after_hiding(rows, removed, display);
    let so_far = visibility::actions_for_hiding(rows, removed, focused, display);
    let place = Action::InsertPrevious(
        entity,
        PreviousStripPosition { origin: before[r].position, focus: focused },
    );
    assert(so_far + seq![place] =~= so_far.push(place));
    assert(so_far + Seq::<Action>::empty() =~= so_far);
}

/// A strip stays in view if it is active again, if no strip of its workspace is
/// active, or if it is not in the table.
pub proof fn other_strips_stay_in_view(
    rows: Seq<RowView>,
    removed: Seq<Entity>,
    entity: Entity,
    focused: Option<Entity>,
    display: Display,
)
    requires
        (exists|r: int| #[trigger]
            is_row_of(rows, entity, r) && (rows[r].active || !is_workspace_seen(rows, r)))
            || forall|j: int| 0 <= j < rows.len() ==> (#[trigger] rows[j]).entity != entity,
    ensures
        visibility::rows_after_hiding(rows, Seq::empty(), display) == rows,
        visibility::actions_for_hiding(rows, Seq::empty(), focused, display) == Seq::<
            Action,
        >::empty(),
        visibility::rows_after_hiding(rows, removed.push(entity), display)
            == visibility::rows_after_hiding(rows, removed, display),
        visibility::actions_for_hiding(rows, removed.push(entity), focused, display)
            == visibility::actions_for_hiding(rows, removed, focused, display),
{
    if exists|r: int| #[trigger]
        is_row_of(rows, entity, r) && (rows[r].active || !is_workspace_seen(rows, r)) {
        let r = choose|r: int| #[trigger]
            is_row_of(rows, entity, r) && (rows[r].active || !is_workspace_seen(rows, r));
        lemma_to_hide(rows, entity, r);
    } else {
        let of = rows::row_of(entity);
        assert forall|j: int| 0 <= j < rows.len() implies !of(rows[j]) by {}
        search::lemma_first_none(rows, of);
    }
    let more = removed.push(entity);
    assert(more.drop_last() =~= removed);
    assert(more.last() == entity);
    let so_far = visibility::actions_for_hiding(rows, removed, focused, display);
    assert(so_far + Seq::<Action>::empty() =~= so_far);
}

/// Whether the process of a window is `psn`, by the first row of the window, or is
/// not known.
pub open spec fn is_process_of(
    windows: Seq<WindowRow>,
    window: Entity,
    psn: Option<ProcessSerialNumber>,
) -> bool {
    ||| exists|i: int|
        0 <= i < windows.len() && (#[trigger] windows[i]).entity == window && windows[i].psn == psn
            && forall|j: int| 0 <= j < i ==> (#[trigger] windows[j]).entity != window
    ||| psn is None && forall|j: int|
        0 <= j < windows.len() ==> (#[trigger] windows[j]).entity != window
}

proof fn lemma_process(
    windows: Seq<WindowRow>,
    window: Entity,
    psn: Option<ProcessSerialNumber>,
)
    requires
        is_process_of(windows, window, psn),
    ensures
        visibility::psn_of(windows, window) == psn,
{
    let of = rows::window_of(window);
    if exists|i: int|
        0 <= i < windows.len() && (#[trigger] windows[i]).entity == window && windows[i].psn == psn
            && forall|j: int| 0 <= j < i ==> (#[trigger] windows[j]).entity != window {
        let i = choose|i: int|
            0 <= i < windows.len() && (#[trigger] windows[i]).entity == window && windows[i].psn
                == psn && forall|j: int| 0 <= j < i ==> (#[trigger] windows[j]).entity != window;
        assert forall|j: int| 0 <= j < i implies !of(windows[j]) by {}
        search::lemma_first_is(windows, of, i);
    } else {
        assert forall|j: int| 0 <= j < windows.len() implies !of(windows[j]) by {}
        search::lemma_first_none(windows, of);
    }
}

/// A strip that becomes active and has a place in mind goes there, and has it in mind
/// no longer. The window that had focus gets it back, without being raised, if the
/// strip has it, some window has focus now, and the processes of both are known; else
/// no window does.
pub proof fn a_strip_with_a_place_in_mind_comes_back(
    rows: Seq<RowView>,
    entity: Entity,
    focused: Option<Entity>,
    windows: Seq<WindowRow>,
    r: int,
    place: PreviousStripPosition,
    psn: Option<ProcessSerialNumber>,
    focused_psn: Option<ProcessSerialNumber>,
)
    requires
        is_row_of(rows, entity, r),
        rows[r].previous == Some(place),
        place.focus matches Some(w) ==> is_process_of(windows, w, psn),
        focused matches Some(w) ==> is_process_of(windows, w, focused_psn),
    ensures
        ({
            let (after, actions) = visibility::shown(rows, entity, focused, windows);
            let gives_back = place.focus is Some && focused is Some && psn is Some
                && focused_psn is Some && moving::has_window(rows[r], place.focus.unwrap());
            &&& after == rows.update(r, RowView { position: place.origin, ..rows[r] })
            &&& gives_back ==> actions == seq![
                Action::RemovePrevious(entity),
                Action::FocusWithoutRaise {
                    window: place.focus.unwrap(),
                    psn: psn.unwrap(),
                    previous: focused.unwrap(),
                    previous_psn: focused_psn.unwrap(),
                },
            ]
            &&& !gives_back ==> actions == seq![Action::RemovePrevious(entity)]
        }),
{
    let of = rows::row_of(entity);
    assert forall|j: int| 0 <= j < r implies !of(rows[j]) by {}
    search::lemma_first_is(rows, of, r);
    if let Some(w) = place.focus {
        lemma_process(windows, w, psn);
        assert(moving::has_window(rows[r], w) == rows[r].strip.contains(w));
    }
    if let Some(w) = focused {
        lemma_process(windows, w, focused_psn);
    }
    let (after, actions) = visibility::shown(rows, entity, focused, windows);
    let rest = visibility::refocus(rows[r], place.focus, focused, windows);
    assert(actions == seq![Action::RemovePrevious(entity)] + rest);
    if rest.len() == 0 {
        assert(actions =~= seq![Action::RemovePrevious(entity)]);
    } else {
        assert(actions =~= seq![Action::RemovePrevious(entity), rest[0]]);
    }
}

/// A strip that has no place in mind, or is not in the table, is left where it is.
pub proof fn a_strip_without_a_place_in_mind_stays(
    rows: Seq<RowView>,
    entity: Entity,
    focused: Option<Entity>,
    windows: Seq<WindowRow>,
)
    requires
        (exists|r: int| #[trigger] is_row_of(rows, entity, r) && rows[r].previous is None)
            || forall|j: int| 0 <= j < rows.len() ==> (#[trigger] rows[j]).entity != entity,
    ensures
        visibility::shown(rows, entity, focused, windows) == (rows, Seq::<Action>::empty()),
{
    let of = rows::row_of(entity);
    if exists|r: int| #[trigger] is_row_of(rows, entity, r) && rows[r].previous is None {
        let r = choose|r: int| #[trigger]
            is_row_of(rows, entity, r) && rows[r].previous is None;
        assert forall|j: int| 0 <= j < r implies !of(rows[j]) by {}
        search::lemma_first_is(rows, of, r);
    } else {
        assert forall|j: int| 0 <= j < rows.len() implies !of(rows[j]) by {}
        search::lemma_first_none(rows, of);
    }
}

/// Whether a strip goes out of view: it is not active, and one of its workspace is.
pub open spec fn goes_out_of_view(rows: Seq<RowView>, entity: Entity) -> bool {
    exists|r: int| #[trigger]
        is_row_of(rows, entity, r) && !rows[r].active && is_workspace_seen(rows, r)
}

proof fn lemma_goes_out_of_view(rows: Seq<RowView>, entity: Entity)
    ensures
        visibility::row_to_hide(rows, entity) is Some <==> goes_out_of_view(rows, entity),
{
    let of = rows::row_of(entity);
    search::lemma_first(rows, of);
    match search::first(rows, of) {
        Some(r) => {
            assert(of(rows[r]));
            assert forall|j: int| 0 <= j < r implies (#[trigger] rows[j]).entity != entity by {
                assert(!of(rows[j]));
            }
            assert(is_row_of(rows, entity, r));
            lemma_to_hide(rows, entity, r);
            if goes_out_of_view(rows, entity) {
                let q = choose|q: int| #[trigger]
                    is_row_of(rows, entity, q) && !rows[q].active && is_workspace_seen(rows, q);
                lemma_to_hide(rows, entity, q);
            }
        },
        None => {
            if goes_out_of_view(rows, entity) {
                let q = choose|q: int| #[trigger]
                    is_row_of(rows, entity, q) && !rows[q].active && is_workspace_seen(rows, q);
                assert(!of(rows[q]));
            }
        },
    }
}

/// Strips are hidden and shown by the calls for it, and room is asked for if and only
/// if one is to be hidden.
pub proof fn strips_are_hidden_and_shown(
    removed: &Vec<Entity>,
    focused: Option<Entity>,
    display: &Display,
    hidden: &mut Vec<StripRow>,
    hiding: Vec<Action>,
    hides: bool,
    activated: Entity,
    windows: &Vec<WindowRow>,
    rows: &mut Vec<StripRow>,
    showing: Vec<Action>,
)
    requires
        call_ensures(
            visibility::hide_inactive_workspace,
            (removed, focused, display, hidden),
            hiding,
        ),
        call_ensures(visibility::hides_a_strip, (removed, &*old(hidden)), hides),
        call_ensures(
            visibility::show_active_workspace,
            (activated, focused, windows, rows),
            showing,
        ),
    ensures
        final(hidden).deep_view() == visibility::rows_after_hiding(
            old(hidden).deep_view(),
            removed@,
            *display,
        ),
        hiding@ == visibility::actions_for_hiding(
            old(hidden).deep_view(),
            removed@,
            focused,
            *display,
        ),
        hides <==> exists|k: int|
            0 <= k < removed.len() && goes_out_of_view(
                old(hidden).deep_view(),
                #[trigger] removed@[k],
            ),
        (final(rows).deep_view(), showing@) == visibility::shown(
            old(rows).deep_view(),
            activated,
            focused,
            windows@,
        ),
{
    let table = old(hidden).deep_view();
    assert forall|k: int| 0 <= k < removed.len() implies visibility::row_to_hide(
        table,
        #[trigger] removed@[k],
    ) is Some <==> goes_out_of_view(table, removed@[k]) by {
        lemma_goes_out_of_view(table, removed@[k]);
    }
    if hides {
        let k = choose|k: int|
            0 <= k < removed.len() && visibility::row_to_hide(table, #[trigger] removed@[k]) is Some;
        assert(goes_out_of_view(table, removed@[k]));
    }
}

} // verus!
