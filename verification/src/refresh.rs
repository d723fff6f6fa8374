//! New measurements of the windows of the active strip.

use crate::geometry::{Origin, Rect};
use crate::rows;
use crate::rows::{Action, RowView, StripRow, Unmanaged, WindowRow};
use crate::search;
use crate::types::{Entity, WinID, WorkspaceId};
use vstd::prelude::*;

verus! {

/// Picks the active strips whose windows are to be measured anew.
pub open spec fn asks_refresh() -> spec_fn(RowView) -> bool {
    |row: RowView| row.active && row.refresh is Some
}

/// The row of the one active strip whose windows are to be measured now. There
/// is none if several strips ask for it, or while the wait is not over.
pub open spec fn refresh_row(rows: Seq<RowView>) -> Option<int> {
    match search::first(rows, asks_refresh()) {
        Some(i) => if search::last(rows, asks_refresh()) == Some(i)
            && rows[i].refresh.unwrap().ready {
            Some(i)
        } else {
            None
        },
        None => None,
    }
}

/// What is to be found out before windows can be measured anew.
pub struct RefreshRequest {
    /// The workspace whose windows are to be listed.
    pub workspace_id: WorkspaceId,
    /// The windows that are to be measured.
    pub windows: Vec<Entity>,
}

/// Finds the row of the strip whose windows are to be measured now.
fn find_refresh_row(rows: &Vec<StripRow>) -> (found: Option<usize>)
    ensures
        match refresh_row(rows.deep_view()) {
            Some(i) => found == Some(i as usize) && 0 <= i < rows.len(),
            None => found is None,
        },
{
    let ghost table = rows.deep_view();
    let mut found: Option<usize> = None;
    let mut several = false;
    for i in 0..rows.len()
        invariant
            table == rows.deep_view(),
            match found {
                Some(k) => {
                    &&& k < i
                    &&& asks_refresh()(table[k as int])
                    &&& forall|j: int| 0 <= j < k ==> !asks_refresh()(table[j])
                    &&& several <==> exists|j: int| k < j < i && asks_refresh()(#[trigger] table[j])
                },
                None => !several && forall|j: int| 0 <= j < i ==> !asks_refresh()(table[j]),
            },
    {
        assert(table[i as int] == rows@[i as int]@);
        if rows[i].active && rows[i].refresh.is_some() {
            if found.is_some() {
                several = true;
            } else {
                found = Some(i);
            }
        }
    }
    proof {
        search::lemma_first(table, asks_refresh());
        search::lemma_last(table, asks_refresh());
    }
    match found {
        Some(i) => {
            proof {
                search::lemma_first_is(table, asks_refresh(), i as int);
                assert(table[i as int] == rows@[i as int]@);
            }
            let ready = match rows[i].refresh {
                Some(marker) => marker.ready,
                None => false,
            };
            if !several && ready {
                Some(i)
            } else {
                None
            }
        },
        None => None,
    }
}

/// Says what is to be listed and measured, if anything is.
pub fn refresh_request(rows: &Vec<StripRow>) -> (request: Option<RefreshRequest>)
    ensures
        match refresh_row(rows.deep_view()) {
            Some(i) => request matches Some(r) && r.workspace_id == rows.deep_view()[i].strip.id
                && r.windows@ == rows.deep_view()[i].strip.windows(),
            None => request is None,
        },
{
    match find_refresh_row(rows) {
        Some(i) => {
            assert(rows.deep_view()[i as int] == rows@[i as int]@);
            Some(
                RefreshRequest {
                    workspace_id: rows[i].strip.id(),
                    windows: rows[i].strip.all_windows(),
                },
            )
        },
        None => None,
    }
}

/// Whether window `k` of the strip is one of the world and was measured.
pub open spec fn is_measured(
    windows: Seq<WindowRow>,
    strip: Seq<Entity>,
    frames: Seq<Option<Rect>>,
    k: int,
) -> bool {
    frames[k] is Some && search::first(windows, rows::window_of(strip[k])) is Some
}

/// The windows with the sizes that the first `n` windows of the strip were
/// measured with.
pub open spec fn resized(
    windows: Seq<WindowRow>,
    strip: Seq<Entity>,
    frames: Seq<Option<Rect>>,
    n: int,
) -> Seq<WindowRow>
    decreases n,
{
    if n <= 0 {
        windows
    } else {
        let before = resized(windows, strip, frames, n - 1);
        match (search::first(windows, rows::window_of(strip[n - 1])), frames[n - 1]) {
            (Some(i), Some(frame)) => before.update(
                i,
                WindowRow { bounds: frame.extent(), ..before[i] },
            ),
            _ => before,
        }
    }
}

/// Picks the windows that are not among the first `n` of the strip that were
/// measured.
pub open spec fn unmeasured(
    windows: Seq<WindowRow>,
    strip: Seq<Entity>,
    frames: Seq<Option<Rect>>,
    n: int,
) -> spec_fn(WinID) -> bool {
    |id: WinID|
        !exists|k: int|
            0 <= k < n && #[trigger] is_measured(windows, strip, frames, k) && windows[search::first(
                windows,
                rows::window_of(strip[k]),
            ).unwrap()].id == id
}

/// Picks the windows that float.
pub open spec fn floats(windows: Seq<WindowRow>) -> spec_fn(WinID) -> bool {
    |id: WinID|
        match search::first(windows, rows::window_with_id(id)) {
            Some(i) => windows[i].unmanaged == Some(Unmanaged::Floating),
            None => false,
        }
}

/// The window of the world that an identifier stands for.
pub open spec fn entity_with_id(windows: Seq<WindowRow>, id: WinID) -> Entity {
    windows[search::first(windows, rows::window_with_id(id)).unwrap()].entity
}

/// Moves floating windows to a place.
pub open spec fn repositions(
    windows: Seq<WindowRow>,
    ids: Seq<WinID>,
    origin: Origin,
) -> Seq<Action> {
    ids.filter(floats(windows)).map_values(
        |id: WinID| Action::Reposition(entity_with_id(windows, id), origin),
    )
}

/// A new size changes nothing that windows are found by.
proof fn lemma_resized_keeps(
    windows: Seq<WindowRow>,
    strip: Seq<Entity>,
    frames: Seq<Option<Rect>>,
    n: int,
)
    ensures
        resized(windows, strip, frames, n).len() == windows.len(),
        forall|i: int|
            0 <= i < windows.len() ==> (#[trigger] resized(windows, strip, frames, n)[i]) == (
            WindowRow { bounds: resized(windows, strip, frames, n)[i].bounds, ..windows[i] }),
    decreases n,
{
    if n > 0 {
        lemma_resized_keeps(windows, strip, frames, n - 1);
        search::lemma_first(windows, rows::window_of(strip[n - 1]));
    }
}

/// Leaves out a window from a list.
fn leave_out(ids: &Vec<WinID>, id: WinID) -> (rest: Vec<WinID>)
    ensures
        rest@ == ids@.filter(|other: WinID| other != id),
{
    let ghost pick = |other: WinID| other != id;
    let mut rest: Vec<WinID> = Vec::new();
    proof {
        reveal(Seq::filter);
        assert(rest@ =~= ids@.take(0).filter(pick));
    }
    for i in 0..ids.len()
        invariant
            pick == (|other: WinID| other != id),
            rest@ == ids@.take(i as int).filter(pick),
    {
        proof {
            search::lemma_filter_take(ids@, i as int, pick);
        }
        if ids[i] != id {
            rest.push(ids[i]);
        }
    }
    assert(ids@.take(ids@.len() as int) =~= ids@);
    rest
}

/// Takes over new measurements of the windows of the active strip, and brings
/// the floating windows of the workspace to `origin`. `listed` are the windows
/// that the window server lists for the workspace, none if there is no list;
/// `frames` are the measurements of the windows that the request named, where
/// they could be had.
pub fn refresh_workspace_window_sizes(
    listed: Vec<WinID>,
    frames: &Vec<Option<Rect>>,
    origin: Origin,
    rows: &Vec<StripRow>,
    windows: &mut Vec<WindowRow>,
) -> (actions: Vec<Action>)
    requires
        refresh_row(rows.deep_view()) matches Some(r) ==> {
            let strip = rows.deep_view()[r].strip.windows();
            &&& frames.len() == strip.len()
            &&& forall|k: int|
                0 <= k < strip.len() && is_measured(old(windows)@, strip, frames@, k) ==> (
                #[trigger] frames@[k]).unwrap().measurable()
        },
    ensures
        match refresh_row(rows.deep_view()) {
            Some(r) => {
                let strip = rows.deep_view()[r].strip.windows();
                let n = strip.len() as int;
                let rest = listed@.filter(unmeasured(old(windows)@, strip, frames@, n));
                &&& final(windows)@ == resized(old(windows)@, strip, frames@, n)
                &&& actions@ == repositions(old(windows)@, rest, origin).push(
                    Action::RemoveRefresh(rows.deep_view()[r].entity),
                )
            },
            None => final(windows)@ == old(windows)@ && actions@ == Seq::<Action>::empty(),
        },
{
    let mut actions: Vec<Action> = Vec::new();
    let r = match find_refresh_row(rows) {
        Some(r) => r,
        None => {
            return actions;
        },
    };
    assert(rows.deep_view()[r as int] == rows@[r as int]@);
    let strip = rows[r].strip.all_windows();
    let ghost before = windows@;
    let ghost given = listed@;
    let mut in_workspace = listed;
    proof {
        search::lemma_filter_all(given, unmeasured(before, strip@, frames@, 0));
    }
    for k in 0..strip.len()
        invariant
            frames.len() == strip.len(),
            windows@ == resized(before, strip@, frames@, k as int),
            in_workspace@ == given.filter(unmeasured(before, strip@, frames@, k as int)),
            forall|k: int|
                0 <= k < strip@.len() && is_measured(before, strip@, frames@, k) ==> (
                #[trigger] frames@[k]).unwrap().measurable(),
    {
        let entity = strip[k];
        let ghost pick = unmeasured(before, strip@, frames@, k as int);
        let ghost next = unmeasured(before, strip@, frames@, k + 1);
        proof {
            lemma_resized_keeps(before, strip@, frames@, k as int);
            search::lemma_same_first(before, windows@, rows::window_of(entity));
        }
        let mut measured = false;
        if let Some(i) = rows::find_window(windows, entity) {
            if let Some(frame) = frames[k] {
                measured = true;
                assert(is_measured(before, strip@, frames@, k as int));
                assert(frames@[k as int].unwrap().measurable());
                let id = windows[i].id;
                windows[i].bounds = frame.size();
                in_workspace = leave_out(&in_workspace, id);
                proof {
                    assert(windows@ =~= resized(before, strip@, frames@, k + 1));
                    assert(id == before[i as int].id);
                    let out = |other: WinID| other != id;
                    assert forall|x: WinID| #[trigger] next(x) == (pick(x) && out(x)) by {
                        if !pick(x) {
                            let j = choose|j: int|
                                0 <= j < k && #[trigger] is_measured(before, strip@, frames@, j)
                                    && before[search::first(
                                    before,
                                    rows::window_of(strip@[j]),
                                ).unwrap()].id == x;
                            assert(is_measured(before, strip@, frames@, j));
                        }
                        if !next(x) && pick(x) {
                            let j = choose|j: int|
                                0 <= j < k + 1 && #[trigger] is_measured(
                                    before,
                                    strip@,
                                    frames@,
                                    j,
                                ) && before[search::first(
                                    before,
                                    rows::window_of(strip@[j]),
                                ).unwrap()].id == x;
                            assert(j == k);
                        }
                    }
                    search::lemma_filter_twice(given, pick, out, next);
                }
            }
        }
        proof {
            if !measured {
                assert(!is_measured(before, strip@, frames@, k as int));
                assert forall|x: WinID| #[trigger] next(x) == pick(x) by {
                    if !next(x) && pick(x) {
                        let j = choose|j: int|
                            0 <= j < k + 1 && #[trigger] is_measured(before, strip@, frames@, j)
                                && before[search::first(
                                before,
                                rows::window_of(strip@[j]),
                            ).unwrap()].id == x;
                        assert(j < k);
                    }
                    if next(x) && !pick(x) {
                        let j = choose|j: int|
                            0 <= j < k && #[trigger] is_measured(before, strip@, frames@, j)
                                && before[search::first(
                                before,
                                rows::window_of(strip@[j]),
                            ).unwrap()].id == x;
                        assert(is_measured(before, strip@, frames@, j));
                    }
                }
                assert(next =~= pick);
            }
        }
    }
    proof {
        lemma_resized_keeps(before, strip@, frames@, strip@.len() as int);
    }
    reposition_floating(&in_workspace, windows, Ghost(before), origin, &mut actions);
    actions.push(Action::RemoveRefresh(rows[r].entity));
    actions
}

/// Brings the floating windows of a list to a place.
fn reposition_floating(
    ids: &Vec<WinID>,
    windows: &Vec<WindowRow>,
    Ghost(before): Ghost<Seq<WindowRow>>,
    origin: Origin,
    actions: &mut Vec<Action>,
)
    requires
        windows.len() == before.len(),
        forall|i: int|
            0 <= i < before.len() ==> (#[trigger] windows@[i]) == (WindowRow {
                bounds: windows@[i].bounds,
                ..before[i]
            }),
    ensures
        final(actions)@ == old(actions)@ + repositions(before, ids@, origin),
{
    let ghost pick = floats(before);
    let ghost act = |id: WinID| Action::Reposition(entity_with_id(before, id), origin);
    proof {
        reveal(Seq::filter);
        assert(actions@ =~= old(actions)@ + ids@.take(0).filter(pick).map_values(act));
    }
    for k in 0..ids.len()
        invariant
            windows.len() == before.len(),
            forall|i: int|
                0 <= i < before.len() ==> (#[trigger] windows@[i]) == (WindowRow {
                    bounds: windows@[i].bounds,
                    ..before[i]
                }),
            pick == floats(before),
            act == (|id: WinID| Action::Reposition(entity_with_id(before, id), origin)),
            actions@ == old(actions)@ + ids@.take(k as int).filter(pick).map_values(act),
    {
        let id = ids[k];
        proof {
            search::lemma_filter_take(ids@, k as int, pick);
            search::lemma_same_first(before, windows@, rows::window_with_id(id));
        }
        if let Some(i) = rows::find_id(windows, id) {
            assert(windows@[i as int].unmanaged == before[i as int].unmanaged);
            if let Some(Unmanaged::Floating) = windows[i].unmanaged {
                actions.push(Action::Reposition(windows[i].entity, origin));
            }
        }
        assert(actions@ =~= old(actions)@ + ids@.take(k + 1).filter(pick).map_values(act));
    }
    assert(ids@.take(ids@.len() as int) =~= ids@);
}

/// A window that stands in the strip once and was measured has the measured
/// size; a window that was not measured keeps its size.
pub proof fn measured_windows_have_the_measured_size(
    windows: Seq<WindowRow>,
    strip: Seq<Entity>,
    frames: Seq<Option<Rect>>,
    n: int,
    i: int,
)
    requires
        strip.no_duplicates(),
        0 <= n <= strip.len(),
        0 <= i < windows.len(),
    ensures
        forall|k: int|
            0 <= k < n && frames[k] is Some && #[trigger] search::first(
                windows,
                rows::window_of(strip[k]),
            ) == Some(i) ==> resized(windows, strip, frames, n)[i].bounds
                == frames[k].unwrap().extent(),
        (forall|k: int|
            0 <= k < n && frames[k] is Some ==> #[trigger] search::first(
                windows,
                rows::window_of(strip[k]),
            ) != Some(i)) ==> resized(windows, strip, frames, n)[i] == windows[i],
    decreases n,
{
    if n > 0 {
        measured_windows_have_the_measured_size(windows, strip, frames, n - 1, i);
        lemma_resized_keeps(windows, strip, frames, n - 1);
        search::lemma_first(windows, rows::window_of(strip[n - 1]));
        assert forall|k: int|
            0 <= k < n && frames[k] is Some && #[trigger] search::first(
                windows,
                rows::window_of(strip[k]),
            ) == Some(i) implies resized(windows, strip, frames, n)[i].bounds
            == frames[k].unwrap().extent() by {
            search::lemma_first(windows, rows::window_of(strip[k]));
            if k < n - 1 {
                assert(strip[k] != strip[n - 1]);
            }
        }
    }
}

/// A window that was measured is not moved as one that floats outside of the
/// strip.
pub proof fn measured_windows_are_not_listed_as_outside(
    windows: Seq<WindowRow>,
    strip: Seq<Entity>,
    frames: Seq<Option<Rect>>,
    listed: Seq<WinID>,
    k: int,
)
    requires
        0 <= k < strip.len(),
        is_measured(windows, strip, frames, k),
    ensures
        !listed.filter(unmeasured(windows, strip, frames, strip.len() as int)).contains(
            windows[search::first(windows, rows::window_of(strip[k])).unwrap()].id,
        ),
{
    let id = windows[search::first(windows, rows::window_of(strip[k])).unwrap()].id;
    search::lemma_filter_contains(
        listed,
        unmeasured(windows, strip, frames, strip.len() as int),
        id,
    );
}

} // verus!
