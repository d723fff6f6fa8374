//! Windows that turn up in the active workspace.
//!
//! When a strip becomes active, the windows that the window server lists for
//! its workspace are held against the strips. The steps are: find the workspace
//! (`activated_space`), list its windows, sort them into those that moved here
//! and those that nobody knows (`detect_moved_windows`), ask the applications
//! for the latter (`retry_unresolved`), and give the former a place
//! (`adopt_moved_windows`).

use crate::moves;
use crate::rows;
use crate::rows::{Display, RowView, StripRow, WindowRow};
use crate::search;
use crate::strip;
use crate::strip::{LayoutStrip, StripView};
use crate::types::{Entity, WinID, WorkspaceId};
use std::collections::HashSet;
use vstd::prelude::*;

verus! {

broadcast use vstd::std_specs::hash::group_hash_axioms;

/// A window that the window server lists, and the window of the world that it
/// turned out to be.
pub struct Lookup {
    pub id: WinID,
    pub found: Option<Entity>,
}

/// What the strips hold.
pub open spec fn strip_views(strips: Seq<&LayoutStrip>) -> Seq<StripView> {
    strips.map_values(|strip: &LayoutStrip| strip@)
}

/// Whether one of the strips holds a window.
pub open spec fn held(strips: Seq<StripView>, window: Entity) -> bool {
    exists|i: int| 0 <= i < strips.len() && (#[trigger] strips[i]).contains(window)
}

/// Picks the windows that are known and that no strip holds.
pub open spec fn is_astray(strips: Seq<StripView>) -> spec_fn(Lookup) -> bool {
    |lookup: Lookup| lookup.found is Some && !held(strips, lookup.found.unwrap())
}

/// Picks the windows that are not known.
pub open spec fn is_unknown() -> spec_fn(Lookup) -> bool {
    |lookup: Lookup| lookup.found is None
}

/// The windows that are known and that no strip holds, in the order of the list.
pub open spec fn astray(lookups: Seq<Lookup>, strips: Seq<StripView>) -> Seq<Entity> {
    lookups.filter(is_astray(strips)).map_values(|lookup: Lookup| lookup.found.unwrap())
}

/// The windows that are not known, in the order of the list.
pub open spec fn unknown(lookups: Seq<Lookup>) -> Seq<WinID> {
    lookups.filter(is_unknown()).map_values(|lookup: Lookup| lookup.id)
}

/// Whether looking up the windows of a list could have given these results.
pub open spec fn looked_up<F: Fn(WinID) -> Option<Entity>>(
    ids: Seq<WinID>,
    find_window: F,
    lookups: Seq<Lookup>,
) -> bool {
    &&& lookups.len() == ids.len()
    &&& forall|i: int|
        0 <= i < ids.len() ==> (#[trigger] lookups[i]).id == ids[i] && call_ensures(
            find_window,
            (ids[i],),
            lookups[i].found,
        )
}

/// Whether one of the strips holds a window.
fn any_contains(strips: &[&LayoutStrip], window: Entity) -> (found: bool)
    ensures
        found == held(strip_views(strips@), window),
{
    for i in 0..strips.len()
        invariant
            forall|j: int|
                0 <= j < i ==> !(#[trigger] strip_views(strips@)[j]).contains(window),
    {
        assert(strip_views(strips@)[i as int] == strips@[i as int]@);
        if strips[i].contains(window) {
            return true;
        }
    }
    false
}

/// Sorts the windows of a workspace, as the window server lists them, into
/// those that are known but in none of the strips, and those that are not
/// known. Where the list could not be had, the error is passed on.
pub fn windows_not_in_strips<F: Fn(WinID) -> Option<Entity>, E>(
    listed: Result<Vec<WinID>, E>,
    find_window: F,
    strips: &[&LayoutStrip],
) -> (sorted: Result<(Vec<Entity>, Vec<WinID>), E>)
    requires
        forall|id: WinID| #[trigger] call_requires(find_window, (id,)),
    ensures
        match (listed, sorted) {
            (Ok(ids), Ok((moved, unresolved))) => exists|lookups: Seq<Lookup>| #[trigger]
                looked_up(ids@, find_window, lookups) && moved@ == astray(
                    lookups,
                    strip_views(strips@),
                ) && unresolved@ == unknown(lookups),
            (Err(e), Err(f)) => e == f,
            _ => false,
        },
{
    let ids = match listed {
        Ok(ids) => ids,
        Err(e) => {
            return Err(e);
        },
    };
    let ghost views = strip_views(strips@);
    let mut moved: Vec<Entity> = Vec::new();
    let mut unresolved: Vec<WinID> = Vec::new();
    let ghost mut lookups: Seq<Lookup> = Seq::empty();
    proof {
        reveal(Seq::filter);
        assert(moved@ =~= astray(lookups, views));
        assert(unresolved@ =~= unknown(lookups));
    }
    for i in 0..ids.len()
        invariant
            forall|id: WinID| #[trigger] call_requires(find_window, (id,)),
            views == strip_views(strips@),
            looked_up(ids@.take(i as int), find_window, lookups),
            moved@ == astray(lookups, views),
            unresolved@ == unknown(lookups),
    {
        let id = ids[i];
        let found = find_window(id);
        let ghost before = lookups;
        let ghost next = Lookup { id, found };
        proof {
            lookups = lookups.push(next);
            search::lemma_filter_push(before, next, is_astray(views));
            search::lemma_filter_push(before, next, is_unknown());
            assert forall|k: int| 0 <= k < i + 1 implies (#[trigger] lookups[k]).id
                == ids@.take(i + 1)[k] && call_ensures(
                find_window,
                (ids@.take(i + 1)[k],),
                lookups[k].found,
            ) by {
                if k < i {
                    assert(ids@.take(i as int)[k] == ids@[k]);
                    assert(lookups[k] == before[k]);
                }
            }
        }
        match found {
            Some(entity) => {
                if !any_contains(strips, entity) {
                    moved.push(entity);
                }
            },
            None => {
                unresolved.push(id);
            },
        }
        assert(moved@ =~= astray(lookups, views));
        assert(unresolved@ =~= unknown(lookups));
    }
    assert(ids@.take(ids@.len() as int) =~= ids@);
    Ok((moved, unresolved))
}

/// Picks the strip of an entity, if it is on a display.
pub open spec fn attached(entity: Entity) -> spec_fn(RowView) -> bool {
    |row: RowView| row.entity == entity && row.parent is Some
}

/// Picks the strips of a workspace that are on a display.
pub open spec fn attached_of_space(id: WorkspaceId) -> spec_fn(RowView) -> bool {
    |row: RowView| row.parent is Some && row.strip.id == id
}

/// The workspace of a strip that is on a display.
pub open spec fn space_of(rows: Seq<RowView>, activated: Entity) -> Option<WorkspaceId> {
    match search::first(rows, attached(activated)) {
        Some(i) => Some(rows[i].strip.id),
        None => None,
    }
}

/// The strips of a workspace that are on a display.
pub open spec fn strips_of_space(rows: Seq<RowView>, id: WorkspaceId) -> Seq<StripView> {
    rows.filter(attached_of_space(id)).map_values(|row: RowView| row.strip)
}

/// The listed windows, and the windows that they are among those laid out.
pub open spec fn managed_lookups(ids: Seq<WinID>, windows: Seq<WindowRow>) -> Seq<Lookup> {
    ids.map_values(|id: WinID| Lookup { id, found: rows::managed_window(windows, id) })
}

/// Picks the windows that are not in the world at all, and that are not known
/// to be unobtainable.
pub open spec fn is_obtainable(windows: Seq<WindowRow>, ignored: Set<WinID>) -> spec_fn(
    WinID,
) -> bool {
    |id: WinID|
        !ignored.contains(id) && search::first(windows, rows::window_with_id(id)) is None
}

/// What a look at the active workspace found.
pub struct Detected {
    /// The workspace.
    pub workspace_id: WorkspaceId,
    /// The windows that moved to the workspace.
    pub moved: Vec<Entity>,
    /// The windows that are not in the world.
    pub unresolved: Vec<WinID>,
}

/// Finds the workspace of the strip that became active.
pub fn activated_space(activated: Entity, rows: &Vec<StripRow>) -> (id: Option<WorkspaceId>)
    ensures
        id == space_of(rows.deep_view(), activated),
{
    for i in 0..rows.len()
        invariant
            forall|j: int| 0 <= j < i ==> !attached(activated)(rows.deep_view()[j]),
    {
        assert(rows.deep_view()[i as int] == rows@[i as int]@);
        if rows[i].entity == activated && rows[i].parent.is_some() {
            proof {
                search::lemma_first_is(rows.deep_view(), attached(activated), i as int);
            }
            return Some(rows[i].strip.id());
        }
    }
    proof {
        search::lemma_first_none(rows.deep_view(), attached(activated));
    }
    None
}

/// Finds the windows that moved to the workspace of the strip that became
/// active, and those that are not in the world. `listed` are the windows that
/// the window server lists for the workspace. Where the strip is on no display
/// or there is no list, there is nothing to say.
pub fn detect_moved_windows<E>(
    activated: Entity,
    windows: &Vec<WindowRow>,
    rows: &Vec<StripRow>,
    ignored: &HashSet<WinID>,
    listed: Result<Vec<WinID>, E>,
) -> (detected: Option<Detected>)
    ensures
        match (space_of(rows.deep_view(), activated), listed) {
            (Some(id), Ok(ids)) => detected matches Some(d) && d.workspace_id == id && d.moved@
                == astray(
                managed_lookups(ids@, windows@),
                strips_of_space(rows.deep_view(), id),
            ) && d.unresolved@ == unknown(managed_lookups(ids@, windows@)).filter(
                is_obtainable(windows@, ignored@),
            ),
            _ => detected is None,
        },
{
    let workspace_id = match activated_space(activated, rows) {
        Some(id) => id,
        None => {
            return None;
        },
    };
    let ghost table = rows.deep_view();
    let mut strips: Vec<&LayoutStrip> = Vec::new();
    proof {
        reveal(Seq::filter);
        assert(strip_views(strips@) =~= strips_of_space(table.take(0), workspace_id));
    }
    for i in 0..rows.len()
        invariant
            table == rows.deep_view(),
            strip_views(strips@) == strips_of_space(table.take(i as int), workspace_id),
    {
        proof {
            assert(table[i as int] == rows@[i as int]@);
            search::lemma_filter_take(table, i as int, attached_of_space(workspace_id));
        }
        if rows[i].parent.is_some() && rows[i].strip.id() == workspace_id {
            let ghost before = strips@;
            strips.push(&rows[i].strip);
            proof {
                assert(strip_views(strips@) =~= strip_views(before).push(rows@[i as int].strip@));
                assert(strips_of_space(table.take(i + 1), workspace_id) =~= strips_of_space(
                    table.take(i as int),
                    workspace_id,
                ).push(rows@[i as int].strip@));
            }
        }
    }
    assert(table.take(table.len() as int) =~= table);
    let find_window = |id: WinID| -> (found: Option<Entity>)
        ensures
            found == rows::managed_window(windows@, id),
        { rows::find_managed(windows, id) };
    let ghost given = listed;
    match windows_not_in_strips(listed, find_window, strips.as_slice()) {
        Ok((moved, found)) => {
            proof {
                let ids = given->Ok_0@;
                let lookups = choose|lookups: Seq<Lookup>| #[trigger]
                    looked_up(ids, find_window, lookups) && moved@ == astray(
                        lookups,
                        strip_views(strips@),
                    ) && found@ == unknown(lookups);
                assert(lookups =~= managed_lookups(ids, windows@));
            }
            let unresolved = keep_obtainable(&found, windows, ignored);
            Some(Detected { workspace_id, moved, unresolved })
        },
        Err(_) => None,
    }
}

/// Leaves out the windows that are in the world, if not laid out, and those
/// that are known to be unobtainable.
fn keep_obtainable(
    found: &Vec<WinID>,
    windows: &Vec<WindowRow>,
    ignored: &HashSet<WinID>,
) -> (unresolved: Vec<WinID>)
    ensures
        unresolved@ == found@.filter(is_obtainable(windows@, ignored@)),
{
    let mut unresolved: Vec<WinID> = Vec::new();
    proof {
        reveal(Seq::filter);
        assert(unresolved@ =~= found@.take(0).filter(is_obtainable(windows@, ignored@)));
    }
    for i in 0..found.len()
        invariant
            unresolved@ == found@.take(i as int).filter(is_obtainable(windows@, ignored@)),
    {
        proof {
            search::lemma_filter_take(found@, i as int, is_obtainable(windows@, ignored@));
        }
        if !ignored.contains(&found[i]) && rows::find_id(windows, found[i]).is_none() {
            unresolved.push(found[i]);
        }
    }
    assert(found@.take(found@.len() as int) =~= found@);
    unresolved
}

/// The positions in `ids` of the windows that are wanted.
pub open spec fn positions_of(ids: Seq<WinID>, wanted: Seq<WinID>) -> Seq<usize> {
    Seq::new(ids.len(), |i: int| i as usize).filter(
        |i: usize| wanted.contains(ids[i as int]),
    )
}

/// Whether a list holds a window.
fn lists(ids: &Vec<WinID>, id: WinID) -> (found: bool)
    ensures
        found == ids@.contains(id),
{
    for i in 0..ids.len()
        invariant
            forall|j: int| 0 <= j < i ==> ids@[j] != id,
    {
        if ids[i] == id {
            return true;
        }
    }
    false
}

/// Picks, out of all windows that the applications list now, those that were
/// not in the world: they are to be brought into it. Where there are none of
/// them, the missing windows are unobtainable from now on.
pub fn retry_unresolved(
    unresolved: &Vec<WinID>,
    app_windows: &Vec<WinID>,
    ignored: &mut HashSet<WinID>,
) -> (retry: Vec<usize>)
    ensures
        retry@ == positions_of(app_windows@, unresolved@),
        final(ignored)@ == if retry@.len() == 0 {
            old(ignored)@.union(unresolved@.to_set())
        } else {
            old(ignored)@
        },
{
    let ghost all: Seq<usize> = Seq::new(app_windows@.len(), |i: int| i as usize);
    let ghost wanted = |i: usize| unresolved@.contains(app_windows@[i as int]);
    let mut retry: Vec<usize> = Vec::new();
    proof {
        reveal(Seq::filter);
        assert(retry@ =~= all.take(0).filter(wanted));
    }
    for i in 0..app_windows.len()
        invariant
            all == Seq::new(app_windows@.len(), |i: int| i as usize),
            wanted == (|i: usize| unresolved@.contains(app_windows@[i as int])),
            retry@ == all.take(i as int).filter(wanted),
    {
        proof {
            search::lemma_filter_take(all, i as int, wanted);
        }
        if lists(unresolved, app_windows[i]) {
            retry.push(i);
        }
    }
    assert(all.take(all.len() as int) =~= all);
    if retry.len() == 0 {
        for i in 0..unresolved.len()
            invariant
                ignored@ == old(ignored)@.union(unresolved@.take(i as int).to_set()),
        {
            ignored.insert(unresolved[i]);
            proof {
                let less = unresolved@.take(i as int);
                let more = unresolved@.take(i + 1);
                assert(more =~= less.push(unresolved@[i as int]));
                assert(more.to_set() =~= less.to_set().insert(unresolved@[i as int])) by {
                    assert forall|id: WinID| more.contains(id) <==> less.contains(id) || id
                        == unresolved@[i as int] by {
                        assert(more[i as int] == unresolved@[i as int]);
                        if less.contains(id) {
                            let k = choose|k: int| 0 <= k < less.len() && less[k] == id;
                            assert(more[k] == id);
                        }
                    }
                }
                assert(ignored@ =~= old(ignored)@.union(more.to_set()));
            }
        }
        assert(unresolved@.take(unresolved@.len() as int) =~= unresolved@);
    }
    retry
}

/// Picks the fullscreen strips whose window came from a workspace.
pub open spec fn returns_to(id: WorkspaceId) -> spec_fn(RowView) -> bool {
    |row: RowView|
        row.parent is Some && row.fullscreen is Some && row.fullscreen.unwrap().previous_strip == id
}

/// The place in the strip of a workspace that its fullscreen window left.
pub open spec fn return_index(rows: Seq<RowView>, id: WorkspaceId) -> Option<usize> {
    match search::first(rows, returns_to(id)) {
        Some(i) => Some(rows[i].fullscreen.unwrap().previous_index),
        None => None,
    }
}

/// Whether the strip is one of the workspace, on the active display.
pub open spec fn is_home(row: RowView, id: WorkspaceId, display: Entity) -> bool {
    row.strip.id == id && row.parent == Some(display)
}

/// A row after a window moved to a workspace: strips of the workspace on the
/// active display take it up, at the place that a fullscreen window left or
/// else at the right end; the others on any display are without it.
pub open spec fn adopted(
    row: RowView,
    id: WorkspaceId,
    display: Entity,
    at: Option<usize>,
    window: Entity,
) -> RowView {
    let rest = row.strip.without(window);
    if row.parent is None {
        row
    } else if is_home(row, id, display) {
        row.with_strip(
            match at {
                Some(index) => rest.inserted_at(index as int, window),
                None => rest.appended(window),
            },
        )
    } else {
        row.with_strip(rest)
    }
}

/// A row after several windows moved to a workspace, one after another.
pub open spec fn adopted_all(
    row: RowView,
    id: WorkspaceId,
    display: Entity,
    at: Option<usize>,
    windows: Seq<Entity>,
) -> RowView
    decreases windows.len(),
{
    if windows.len() == 0 {
        row
    } else {
        adopted(
            adopted_all(row, id, display, at, windows.drop_last()),
            id,
            display,
            at,
            windows.last(),
        )
    }
}

/// All rows after several windows moved to a workspace.
pub open spec fn rows_after_adoption(
    rows: Seq<RowView>,
    id: WorkspaceId,
    display: Entity,
    windows: Seq<Entity>,
) -> Seq<RowView> {
    let at = return_index(rows, id);
    rows.map_values(|row: RowView| adopted_all(row, id, display, at, windows))
}

/// Finds the place that the fullscreen window of a workspace left.
fn find_return_index(rows: &Vec<StripRow>, id: WorkspaceId) -> (at: Option<usize>)
    ensures
        at == return_index(rows.deep_view(), id),
{
    for i in 0..rows.len()
        invariant
            forall|j: int| 0 <= j < i ==> !returns_to(id)(rows.deep_view()[j]),
    {
        assert(rows.deep_view()[i as int] == rows@[i as int]@);
        if let (Some(_), Some(marker)) = (rows[i].parent, rows[i].fullscreen) {
            if marker.previous_strip == id {
                proof {
                    search::lemma_first_is(rows.deep_view(), returns_to(id), i as int);
                }
                return Some(marker.previous_index);
            }
        }
    }
    proof {
        search::lemma_first_none(rows.deep_view(), returns_to(id));
    }
    None
}

/// Gives the windows that moved to a workspace a place in its strips on the
/// active display, and takes them out of all other strips on a display.
pub fn adopt_moved_windows(
    workspace_id: WorkspaceId,
    display: Entity,
    moved: &Vec<Entity>,
    rows: &mut Vec<StripRow>,
)
    ensures
        final(rows).deep_view() == rows_after_adoption(
            old(rows).deep_view(),
            workspace_id,
            display,
            moved@,
        ),
{
    let ghost table = rows.deep_view();
    let at = find_return_index(rows, workspace_id);
    let n: usize = rows.len();
    for k in 0..moved.len()
        invariant
            n == table.len(),
            rows.len() == n,
            forall|j: int|
                0 <= j < n ==> (#[trigger] rows@[j])@ == adopted_all(
                    table[j],
                    workspace_id,
                    display,
                    at,
                    moved@.take(k as int),
                ),
    {
        let window = moved[k];
        proof {
            assert(moved@.take(k + 1).drop_last() =~= moved@.take(k as int));
            assert(moved@.take(k + 1).last() == window);
        }
        for i in 0..n
            invariant
                k < moved.len(),
                n == table.len(),
                rows.len() == n,
                window == moved@[k as int],
                moved@.take(k + 1).drop_last() == moved@.take(k as int),
                moved@.take(k + 1).last() == window,
                forall|j: int|
                    0 <= j < n ==> (#[trigger] rows@[j])@ == adopted_all(
                        table[j],
                        workspace_id,
                        display,
                        at,
                        if j < i {
                            moved@.take(k + 1)
                        } else {
                            moved@.take(k as int)
                        },
                    ),
        {
            if let Some(parent) = rows[i].parent {
                rows[i].strip.remove(window);
                if rows[i].strip.id() == workspace_id && parent == display {
                    match at {
                        Some(index) => {
                            rows[i].strip.insert_at(index, window);
                        },
                        None => {
                            rows[i].strip.append(window);
                        },
                    }
                }
            }
        }
    }
    assert(moved@.take(moved@.len() as int) =~= moved@);
    assert(rows.deep_view() =~= rows_after_adoption(table, workspace_id, display, moved@));
}

/// A window that moved to a workspace is in the strips of that workspace on
/// the active display and in no other strip on a display. Other windows stay
/// where they are, and nothing else about the rows changes.
pub proof fn adopted_windows_are_at_home_alone(
    row: RowView,
    id: WorkspaceId,
    display: Entity,
    at: Option<usize>,
    windows: Seq<Entity>,
)
    requires
        row.parent is Some,
    ensures
        adopted_all(row, id, display, at, windows) == row.with_strip(
            StripView {
                columns: adopted_all(row, id, display, at, windows).strip.columns,
                ..row.strip
            },
        ),
        forall|w: Entity| #[trigger]
            adopted_all(row, id, display, at, windows).strip.contains(w) <==> if windows.contains(
                w,
            ) {
                is_home(row, id, display)
            } else {
                row.strip.contains(w)
            },
    decreases windows.len(),
{
    if windows.len() > 0 {
        let less = windows.drop_last();
        let last = windows.last();
        adopted_windows_are_at_home_alone(row, id, display, at, less);
        let mid = adopted_all(row, id, display, at, less);
        let rest = mid.strip.without(last);
        strip::without_drops_one_window(mid.strip, last);
        strip::appended_adds_one_window(rest, last);
        match at {
            Some(index) => {
                strip::inserted_at_adds_one_window(rest, index as int, last);
            },
            None => {},
        }
        assert forall|w: Entity| #[trigger]
            adopted_all(row, id, display, at, windows).strip.contains(w) <==> if windows.contains(
                w,
            ) {
                is_home(row, id, display)
            } else {
                row.strip.contains(w)
            } by {
            assert(windows =~= less.push(last));
            assert(windows.contains(w) <==> less.contains(w) || w == last) by {
                assert(windows[windows.len() - 1] == last);
                if less.contains(w) {
                    let k = choose|k: int| 0 <= k < less.len() && less[k] == w;
                    assert(windows[k] == w);
                }
            }
            assert(mid.strip.contains(w) <==> if less.contains(w) {
                is_home(row, id, display)
            } else {
                row.strip.contains(w)
            });
        }
    }
}

/// Windows of the workspace that the strips took up are not found astray
/// again, if the workspace has a strip on the active display.
pub proof fn adopted_windows_are_not_detected_again(
    rows: Seq<RowView>,
    windows: Seq<WindowRow>,
    id: WorkspaceId,
    display: Entity,
    ids: Seq<WinID>,
    home: int,
)
    requires
        0 <= home < rows.len(),
        is_home(rows[home], id, display),
    ensures
        ({
            let lookups = managed_lookups(ids, windows);
            let moved = astray(lookups, strips_of_space(rows, id));
            let after = rows_after_adoption(rows, id, display, moved);
            astray(lookups, strips_of_space(after, id)) == Seq::<Entity>::empty()
        }),
{
    let lookups = managed_lookups(ids, windows);
    let before = strips_of_space(rows, id);
    let moved = astray(lookups, before);
    let at = return_index(rows, id);
    let after = rows_after_adoption(rows, id, display, moved);
    let strips = strips_of_space(after, id);
    let pick = is_astray(strips);
    assert forall|x: Lookup| lookups.contains(x) implies !pick(x) by {
        if x.found is Some {
            let w = x.found.unwrap();
            // The row that holds the window afterwards.
            let r = if held(before, w) {
                lemma_held_is_in_a_row(rows, id, w);
                choose|r: int|
                    0 <= r < rows.len() && attached_of_space(id)(rows[r])
                        && #[trigger] rows[r].strip.contains(w)
            } else {
                home
            };
            let picked = lookups.filter(is_astray(before));
            search::lemma_filter_contains(lookups, is_astray(before), x);
            if !held(before, w) {
                let k = choose|k: int| 0 <= k < picked.len() && picked[k] == x;
                assert(moved[k] == w);
                assert(moved.contains(w));
            } else if moved.contains(w) {
                let k = choose|k: int| 0 <= k < moved.len() && moved[k] == w;
                assert(picked.contains(picked[k]));
                search::lemma_filter_contains(lookups, is_astray(before), picked[k]);
            }
            adopted_windows_are_at_home_alone(rows[r], id, display, at, moved);
            assert(after[r] == adopted_all(rows[r], id, display, at, moved));
            assert(after[r].strip.contains(w));
            assert(attached_of_space(id)(after[r]));
            lemma_row_holds(after, id, r, w);
        }
    }
    let rest = lookups.filter(pick);
    if rest.len() > 0 {
        assert(rest.contains(rest[0]));
        search::lemma_filter_contains(lookups, pick, rest[0]);
    }
    assert(astray(lookups, strips) =~= Seq::<Entity>::empty());
}

/// A window that the strips of a workspace hold is in one of its rows.
pub proof fn lemma_held_is_in_a_row(rows: Seq<RowView>, id: WorkspaceId, window: Entity)
    requires
        held(strips_of_space(rows, id), window),
    ensures
        exists|r: int|
            0 <= r < rows.len() && attached_of_space(id)(rows[r])
                && #[trigger] rows[r].strip.contains(window),
{
    let kept = rows.filter(attached_of_space(id));
    let strips = strips_of_space(rows, id);
    let i = choose|i: int| 0 <= i < strips.len() && (#[trigger] strips[i]).contains(window);
    assert(kept.contains(kept[i]));
    search::lemma_filter_contains(rows, attached_of_space(id), kept[i]);
    let r = choose|r: int| 0 <= r < rows.len() && rows[r] == kept[i];
    assert(rows[r].strip.contains(window));
}

/// A window in a row of a workspace is one that the strips of it hold.
pub proof fn lemma_row_holds(rows: Seq<RowView>, id: WorkspaceId, r: int, window: Entity)
    requires
        0 <= r < rows.len(),
        attached_of_space(id)(rows[r]),
        rows[r].strip.contains(window),
    ensures
        held(strips_of_space(rows, id), window),
{
    let kept = rows.filter(attached_of_space(id));
    assert(rows.contains(rows[r]));
    search::lemma_filter_contains(rows, attached_of_space(id), rows[r]);
    let i = choose|i: int| 0 <= i < kept.len() && kept[i] == rows[r];
    assert(strips_of_space(rows, id)[i].contains(window));
}

/// Windows that the applications could not come up with are not asked for
/// again.
pub proof fn unobtainable_windows_are_not_asked_for_again(
    ids: Seq<WinID>,
    windows: Seq<WindowRow>,
    ignored: Set<WinID>,
)
    ensures
        ({
            let found = unknown(managed_lookups(ids, windows));
            let unresolved = found.filter(is_obtainable(windows, ignored));
            let after = ignored.union(unresolved.to_set());
            found.filter(is_obtainable(windows, after)) == Seq::<WinID>::empty()
        }),
{
    let found = unknown(managed_lookups(ids, windows));
    let unresolved = found.filter(is_obtainable(windows, ignored));
    let after = ignored.union(unresolved.to_set());
    let again = found.filter(is_obtainable(windows, after));
    if again.len() > 0 {
        let id = again[0];
        assert(again.contains(id));
        search::lemma_filter_contains(found, is_obtainable(windows, after), id);
        search::lemma_filter_contains(found, is_obtainable(windows, ignored), id);
        assert(unresolved.to_set().contains(id));
    }
    assert(again =~= Seq::<WinID>::empty());
}

/// A window that was sent to another row of its workspace is not taken for one
/// that moved to the workspace: a strip of the workspace holds it, be it one
/// that was on a display before or the one that was made for it.
pub proof fn windows_sent_to_a_row_are_not_astray(
    rows: Seq<RowView>,
    source: int,
    moves: Seq<moves::WindowMove>,
    display: Display,
    k: int,
    entity: Entity,
)
    requires
        0 <= source < rows.len(),
        moves::distinct_windows(moves),
        0 <= k < moves.len(),
        forall|t: int|
            moves::move_target(rows, source, moves[k]) == Some(t) ==> (
            #[trigger] rows[t]).parent is Some,
    ensures
        ({
            let id = moves::home_of(rows, source, moves[k].window);
            let before = moves::rows_after_moves(rows, source, moves.take(k));
            let after = moves::rows_after_moves(rows, source, moves);
            let new = moves::strip_for_move(before, source, moves[k], display).row(entity);
            held(
                strips_of_space(
                    if moves::move_target(rows, source, moves[k]) is Some {
                        after
                    } else {
                        after.push(new)
                    },
                    id,
                ),
                moves[k].window,
            )
        }),
{
    let id = moves::home_of(rows, source, moves[k].window);
    let after = moves::rows_after_moves(rows, source, moves);
    let before = moves::rows_after_moves(rows, source, moves.take(k));
    let window = moves[k].window;
    let p = moves::row_at(id, moves[k].marker.target_virtual_index);
    moves::moved_windows_are_in_their_targets_alone(rows, source, moves);
    moves::moves_keep_all_but_windows(rows, source, moves);
    assert forall|j: int| 0 <= j < moves.take(k).len() implies (
    #[trigger] moves.take(k)[j]).window != window by {
        assert(moves[j].window != moves[k].window);
    }
    moves::lemma_target_is_stable(rows, source, moves.take(k), moves[k]);
    search::lemma_first(rows, p);
    match moves::move_target(rows, source, moves[k]) {
        Some(t) => {
            assert(after[t].strip.contains(moves[k].window));
            assert(after[t].strip.id == rows[t].strip.id);
            assert(rows[t].parent is Some);
            lemma_row_holds(after, id, t, window);
        },
        None => {
            let strip = moves::strip_for_move(before, source, moves[k], display);
            assert(strip.contents().columns[0][0] == window);
            assert(strip.contents().columns[0].contains(window));
            assert(strip.contents().contains(window));
            let more = after.push(strip.row(entity));
            assert(more[after.len() as int].strip.contains(window));
            lemma_row_holds(more, id, after.len() as int, window);
        },
    }
}

} // verus!
