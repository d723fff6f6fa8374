//! Windows that turn up in the active workspace.

use crate::detect;
use crate::detect::{Detected, Lookup};
use crate::laws::moving;
use crate::rows;
use crate::rows::{RowView, StripRow, WindowRow};
use crate::search;
use crate::strip;
use crate::strip::LayoutStrip;
use crate::types::{Entity, WinID, WorkspaceId};
use std::collections::HashSet;
use vstd::prelude::*;

verus! {

/// Whether row `r` is the first of an entity that is on a display.
pub open spec fn is_attached_row(rows: Seq<RowView>, entity: Entity, r: int) -> bool {
    &&& 0 <= r < rows.len()
    &&& rows[r].entity == entity
    &&& rows[r].parent is Some
    &&& forall|j: int|
        0 <= j < r ==> !((#[trigger] rows[j]).entity == entity && rows[j].parent is Some)
}

/// Whether no row of an entity is on a display.
pub open spec fn is_unattached(rows: Seq<RowView>, entity: Entity) -> bool {
    forall|j: int|
        0 <= j < rows.len() ==> !((#[trigger] rows[j]).entity == entity && rows[j].parent is Some)
}

/// Whether some strip of a workspace that is on a display has a window.
pub open spec fn is_in_workspace(rows: Seq<RowView>, id: WorkspaceId, window: Entity) -> bool {
    exists|r: int|
        0 <= r < rows.len() && (#[trigger] rows[r]).parent is Some && rows[r].strip.id == id
            && moving::has_window(rows[r], window)
}

/// Whether row `w` is the first that is laid out and has an identifier.
pub open spec fn is_laid_out_as(windows: Seq<WindowRow>, id: WinID, w: int) -> bool {
    &&& 0 <= w < windows.len()
    &&& windows[w].id == id
    &&& windows[w].unmanaged is None
    &&& forall|j: int|
        0 <= j < w ==> !((#[trigger] windows[j]).id == id && windows[j].unmanaged is None)
}

/// Whether no row that is laid out has an identifier.
pub open spec fn is_not_laid_out(windows: Seq<WindowRow>, id: WinID) -> bool {
    forall|j: int|
        0 <= j < windows.len() ==> !((#[trigger] windows[j]).id == id
            && windows[j].unmanaged is None)
}

proof fn lemma_space(rows: Seq<RowView>, activated: Entity, r: int)
    ensures
        is_attached_row(rows, activated, r) ==> detect::space_of(rows, activated) == Some(
            rows[r].strip.id,
        ),
        is_unattached(rows, activated) ==> detect::space_of(rows, activated) is None,
{
    let p = detect::attached(activated);
    if is_attached_row(rows, activated, r) {
        assert forall|j: int| 0 <= j < r implies !p(rows[j]) by {}
        search::lemma_first_is(rows, p, r);
    }
    if is_unattached(rows, activated) {
        assert forall|j: int| 0 <= j < rows.len() implies !p(rows[j]) by {}
        search::lemma_first_none(rows, p);
    }
}

proof fn lemma_laid_out(windows: Seq<WindowRow>, id: WinID, w: int)
    ensures
        is_laid_out_as(windows, id, w) ==> rows::managed_window(windows, id) == Some(
            windows[w].entity,
        ),
        is_not_laid_out(windows, id) ==> rows::managed_window(windows, id) is None,
{
    let p = rows::managed_with_id(id);
    if is_laid_out_as(windows, id, w) {
        assert forall|j: int| 0 <= j < w implies !p(windows[j]) by {}
        search::lemma_first_is(windows, p, w);
    }
    if is_not_laid_out(windows, id) {
        assert forall|j: int| 0 <= j < windows.len() implies !p(windows[j]) by {}
        search::lemma_first_none(windows, p);
    }
}

proof fn lemma_in_workspace(rows: Seq<RowView>, id: WorkspaceId, window: Entity)
    ensures
        detect::held(detect::strips_of_space(rows, id), window) == is_in_workspace(
            rows,
            id,
            window,
        ),
{
    if detect::held(detect::strips_of_space(rows, id), window) {
        detect::lemma_held_is_in_a_row(rows, id, window);
        let r = choose|r: int|
            0 <= r < rows.len() && detect::attached_of_space(id)(rows[r])
                && #[trigger] rows[r].strip.contains(window);
        assert(rows[r].parent is Some);
        assert(moving::has_window(rows[r], window));
    }
    if is_in_workspace(rows, id, window) {
        let r = choose|r: int|
            0 <= r < rows.len() && (#[trigger] rows[r]).parent is Some && rows[r].strip.id == id
                && moving::has_window(rows[r], window);
        assert(rows[r].strip.contains(window));
        detect::lemma_row_holds(rows, id, r, window);
    }
}

/// The workspace that is looked at is that of the first row of the strip that is on a
/// display.
pub proof fn the_workspace_is_that_of_the_strip(
    activated: Entity,
    rows: &Vec<StripRow>,
    id: Option<WorkspaceId>,
    r: int,
)
    requires
        call_ensures(detect::activated_space, (activated, rows), id),
    ensures
        is_attached_row(rows.deep_view(), activated, r) ==> id == Some(
            rows.deep_view()[r].strip.id,
        ),
        is_unattached(rows.deep_view(), activated) ==> id is None,
{
    lemma_space(rows.deep_view(), activated, r);
}

/// There is nothing to say if the strip is on no display or there is no list; else the
/// workspace is that of the strip, and for an empty list no window is named.
pub proof fn a_look_needs_a_display_and_a_list<E>(
    activated: Entity,
    windows: &Vec<WindowRow>,
    rows: &Vec<StripRow>,
    ignored: &HashSet<WinID>,
    listed: Result<Vec<WinID>, E>,
    detected: Option<Detected>,
    r: int,
)
    requires
        call_ensures(
            detect::detect_moved_windows::<E>,
            (activated, windows, rows, ignored, listed),
            detected,
        ),
    ensures
        is_unattached(rows.deep_view(), activated) || listed is Err ==> detected is None,
        is_attached_row(rows.deep_view(), activated, r) && listed is Ok ==> (detected matches Some(d)
            && d.workspace_id == rows.deep_view()[r].strip.id && (listed->Ok_0.len() == 0
            ==> d.moved.len() == 0 && d.unresolved.len() == 0)),
{
    lemma_space(rows.deep_view(), activated, r);
    if is_attached_row(rows.deep_view(), activated, r) && listed is Ok && listed->Ok_0.len() == 0 {
        reveal(Seq::filter);
        let lookups = detect::managed_lookups(listed->Ok_0@, windows@);
        assert(lookups =~= Seq::<Lookup>::empty());
        assert(detect::unknown(lookups) =~= Seq::<WinID>::empty());
    }
}

/// What one more window at the end of the list adds. A window that is laid out has
/// moved here if no strip of the workspace that is on a display has it, and is where
/// it should be if one has. Of a window that is not laid out nothing is known if it is
/// not in the world at all and is not ignored.
pub proof fn each_listed_window_is_sorted<E>(
    activated: Entity,
    windows: &Vec<WindowRow>,
    rows: &Vec<StripRow>,
    ignored: &HashSet<WinID>,
    ids: Vec<WinID>,
    more: Vec<WinID>,
    id: WinID,
    before: Detected,
    after: Detected,
    w: int,
)
    requires
        more@ == ids@.push(id),
        call_ensures(
            detect::detect_moved_windows::<E>,
            (activated, windows, rows, ignored, Ok::<Vec<WinID>, E>(ids)),
            Some(before),
        ),
        call_ensures(
            detect::detect_moved_windows::<E>,
            (activated, windows, rows, ignored, Ok::<Vec<WinID>, E>(more)),
            Some(after),
        ),
    ensures
        after.workspace_id == before.workspace_id,
        is_laid_out_as(windows@, id, w) ==> after.unresolved@ == before.unresolved@,
        is_laid_out_as(windows@, id, w) && is_in_workspace(
            rows.deep_view(),
            before.workspace_id,
            windows@[w].entity,
        ) ==> after.moved@ == before.moved@,
        is_laid_out_as(windows@, id, w) && !is_in_workspace(
            rows.deep_view(),
            before.workspace_id,
            windows@[w].entity,
        ) ==> after.moved@ == before.moved@.push(windows@[w].entity),
        is_not_laid_out(windows@, id) ==> after.moved@ == before.moved@,
        is_not_laid_out(windows@, id) && !ignored@.contains(id) && (forall|j: int|
            0 <= j < windows.len() ==> (#[trigger] windows@[j]).id != id) ==> after.unresolved@
            == before.unresolved@.push(id),
        is_not_laid_out(windows@, id) && (ignored@.contains(id) || exists|j: int|
            0 <= j < windows.len() && (#[trigger] windows@[j]).id == id) ==> after.unresolved@
            == before.unresolved@,
{
    let table = rows.deep_view();
    let space = before.workspace_id;
    let strips = detect::strips_of_space(table, space);
    let lookups = detect::managed_lookups(ids@, windows@);
    let next = Lookup { id, found: rows::managed_window(windows@, id) };
    assert(detect::managed_lookups(more@, windows@) =~= lookups.push(next));
    lemma_laid_out(windows@, id, w);
    search::lemma_filter_push(lookups, next, detect::is_astray(strips));
    search::lemma_filter_push(lookups, next, detect::is_unknown());
    let entity = |lookup: Lookup| lookup.found.unwrap();
    let name = |lookup: Lookup| lookup.id;
    let astray = lookups.filter(detect::is_astray(strips));
    let unknown = lookups.filter(detect::is_unknown());
    assert(astray.push(next).map_values(entity) =~= astray.map_values(entity).push(
        next.found.unwrap(),
    ));
    assert(unknown.push(next).map_values(name) =~= unknown.map_values(name).push(id));
    let obtainable = detect::is_obtainable(windows@, ignored@);
    search::lemma_filter_push(unknown.map_values(name), id, obtainable);
    if is_laid_out_as(windows@, id, w) {
        lemma_in_workspace(table, space, windows@[w].entity);
    }
    let named = rows::window_with_id(id);
    search::lemma_first(windows@, named);
    if exists|j: int| 0 <= j < windows.len() && (#[trigger] windows@[j]).id == id {
        let j = choose|j: int| 0 <= j < windows.len() && (#[trigger] windows@[j]).id == id;
        assert(named(windows@[j]));
    } else if search::first(windows@, named) is Some {
        assert(named(windows@[search::first(windows@, named).unwrap()]));
    }
}

/// Whether one of the strips has a window in some column.
pub open spec fn is_in_strips(strips: Seq<&LayoutStrip>, window: Entity) -> bool {
    exists|i: int, c: int|
        #![trigger strips[i]@.columns[c]]
        0 <= i < strips.len() && 0 <= c < strips[i]@.columns.len() && strips[i]@.columns[c].contains(
            window,
        )
}

/// Held against some strips, the listed windows fall into those that are known and
/// that no strip has, and those that are not known; both keep the order of the list.
/// Where there is no list, the error is passed on.
pub proof fn listed_windows_are_held_against_strips<F: Fn(WinID) -> Option<Entity>, E>(
    listed: Result<Vec<WinID>, E>,
    find_window: F,
    find: spec_fn(WinID) -> Option<Entity>,
    strips: &[&LayoutStrip],
    sorted: Result<(Vec<Entity>, Vec<WinID>), E>,
)
    requires
        call_ensures(
            detect::windows_not_in_strips::<F, E>,
            (listed, find_window, strips),
            sorted,
        ),
        forall|id: WinID, found: Option<Entity>| #[trigger]
            call_ensures(find_window, (id,), found) ==> found == find(id),
    ensures
        listed matches Err(e) ==> sorted == Err::<(Vec<Entity>, Vec<WinID>), E>(e),
        listed matches Ok(ids) ==> (sorted matches Ok((moved, unresolved)) && unresolved@
            == ids@.filter(|id: WinID| find(id) is None) && moved@ == ids@.filter(
            |id: WinID| find(id) is Some && !is_in_strips(strips@, find(id).unwrap()),
        ).map_values(|id: WinID| find(id).unwrap())),
{
    if let (Ok(ids), Ok((moved, unresolved))) = (listed, sorted) {
        let views = detect::strip_views(strips@);
        let lookups = choose|lookups: Seq<Lookup>| #[trigger]
            detect::looked_up(ids@, find_window, lookups) && moved@ == detect::astray(
                lookups,
                views,
            ) && unresolved@ == detect::unknown(lookups);
        assert forall|i: int| 0 <= i < ids@.len() implies (#[trigger] lookups[i]).id == ids@[i]
            && lookups[i].found == find(ids@[i]) by {
            assert(call_ensures(find_window, (ids@[i],), lookups[i].found));
        }
        assert forall|w: Entity| #[trigger] detect::held(views, w) == is_in_strips(strips@, w) by {
            if detect::held(views, w) {
                let i = choose|i: int| 0 <= i < views.len() && (#[trigger] views[i]).contains(w);
                let c = choose|c: int|
                    0 <= c < views[i].columns.len() && (#[trigger] views[i].columns[c]).contains(w);
                assert(strips@[i]@.columns[c].contains(w));
            }
            if is_in_strips(strips@, w) {
                let (i, c) = choose|i: int, c: int|
                    #![trigger strips@[i]@.columns[c]]
                    0 <= i < strips@.len() && 0 <= c < strips@[i]@.columns.len()
                        && strips@[i]@.columns[c].contains(w);
                assert(views[i] == strips@[i]@);
                assert(views[i].contains(w));
            }
        }
        lemma_sorted(ids@, find, strips@, lookups, ids@.len() as int);
        assert(ids@.take(ids@.len() as int) =~= ids@);
        assert(lookups.take(ids@.len() as int) =~= lookups);
    }
}

proof fn lemma_sorted(
    ids: Seq<WinID>,
    find: spec_fn(WinID) -> Option<Entity>,
    strips: Seq<&LayoutStrip>,
    lookups: Seq<Lookup>,
    n: int,
)
    requires
        0 <= n <= ids.len(),
        lookups.len() == ids.len(),
        forall|i: int|
            0 <= i < ids.len() ==> (#[trigger] lookups[i]).id == ids[i] && lookups[i].found == find(
                ids[i],
            ),
        forall|w: Entity| #[trigger]
            detect::held(detect::strip_views(strips), w) == is_in_strips(strips, w),
    ensures
        detect::unknown(lookups.take(n)) == ids.take(n).filter(|id: WinID| find(id) is None),
        detect::astray(lookups.take(n), detect::strip_views(strips)) == ids.take(n).filter(
            |id: WinID| find(id) is Some && !is_in_strips(strips, find(id).unwrap()),
        ).map_values(|id: WinID| find(id).unwrap()),
    decreases n,
{
    let views = detect::strip_views(strips);
    let lost = |id: WinID| find(id) is None;
    let away = |id: WinID| find(id) is Some && !is_in_strips(strips, find(id).unwrap());
    let name = |id: WinID| find(id).unwrap();
    if n == 0 {
        reveal(Seq::filter);
        assert(detect::unknown(lookups.take(0)) =~= ids.take(0).filter(lost));
        assert(detect::astray(lookups.take(0), views) =~= ids.take(0).filter(away).map_values(
            name,
        ));
    } else {
        lemma_sorted(ids, find, strips, lookups, n - 1);
        search::lemma_filter_take(lookups, n - 1, detect::is_unknown());
        search::lemma_filter_take(lookups, n - 1, detect::is_astray(views));
        search::lemma_filter_take(ids, n - 1, lost);
        search::lemma_filter_take(ids, n - 1, away);
        assert(lookups[n - 1].id == ids[n - 1]);
        if let Some(w) = find(ids[n - 1]) {
            assert(detect::held(views, w) == is_in_strips(strips, w));
        }
        assert(detect::is_astray(views)(lookups[n - 1]) == away(ids[n - 1]));
        let entity = |lookup: Lookup| lookup.found.unwrap();
        let a = lookups.take(n - 1).filter(detect::is_astray(views));
        let b = ids.take(n - 1).filter(away);
        assert(a.push(lookups[n - 1]).map_values(entity) =~= a.map_values(entity).push(
            lookups[n - 1].found.unwrap(),
        ));
        assert(b.push(ids[n - 1]).map_values(name) =~= b.map_values(name).push(
            find(ids[n - 1]).unwrap(),
        ));
        assert(detect::unknown(lookups.take(n)) =~= ids.take(n).filter(lost));
        assert(detect::astray(lookups.take(n), views) =~= ids.take(n).filter(away).map_values(
            name,
        ));
    }
}

/// Of the windows that the applications list, those that are missing are asked for, by
/// their places in the list and in order. If there is none, all that are missing are
/// ignored from now on; if there is one, none is.
pub proof fn missing_windows_are_asked_for_or_ignored(
    unresolved: &Vec<WinID>,
    app_windows: &Vec<WinID>,
    ignored: &mut HashSet<WinID>,
    retry: Vec<usize>,
)
    requires
        call_ensures(detect::retry_unresolved, (unresolved, app_windows, ignored), retry),
        app_windows@.len() <= usize::MAX,
    ensures
        forall|i: usize| #[trigger]
            retry@.contains(i) <==> i < app_windows@.len() && unresolved@.contains(
                app_windows@[i as int],
            ),
        forall|j: int, k: int| 0 <= j < k < retry.len() ==> #[trigger] retry@[j] < #[trigger] retry@[k],
        (exists|i: int|
            0 <= i < app_windows@.len() && unresolved@.contains(#[trigger] app_windows@[i]))
            ==> final(ignored)@ == old(ignored)@,
        (forall|i: int|
            0 <= i < app_windows@.len() ==> !unresolved@.contains(#[trigger] app_windows@[i]))
            ==> forall|id: WinID| #[trigger]
            final(ignored)@.contains(id) <==> old(ignored)@.contains(id) || unresolved@.contains(
                id,
            ),
{
    let all: Seq<usize> = Seq::new(app_windows@.len(), |i: int| i as usize);
    let wanted = |i: usize| unresolved@.contains(app_windows@[i as int]);
    assert forall|i: usize| #[trigger]
        retry@.contains(i) <==> i < app_windows@.len() && unresolved@.contains(
            app_windows@[i as int],
        ) by {
        search::lemma_filter_contains(all, wanted, i);
        if i < app_windows@.len() {
            assert(all[i as int] == i);
        }
    }
    lemma_filter_rises(all, wanted);
    if exists|i: int|
        0 <= i < app_windows@.len() && unresolved@.contains(#[trigger] app_windows@[i]) {
        let i = choose|i: int|
            0 <= i < app_windows@.len() && unresolved@.contains(#[trigger] app_windows@[i]);
        assert(retry@.contains(i as usize));
    } else {
        if retry.len() > 0 {
            assert(retry@.contains(retry@[0]));
            assert(!unresolved@.contains(app_windows@[retry@[0] as int]));
        }
    }
}

/// What is left of a rising list rises.
proof fn lemma_filter_rises(s: Seq<usize>, p: spec_fn(usize) -> bool)
    requires
        forall|j: int, k: int| 0 <= j < k < s.len() ==> #[trigger] s[j] < #[trigger] s[k],
    ensures
        forall|j: int, k: int|
            0 <= j < k < s.filter(p).len() ==> #[trigger] s.filter(p)[j] < #[trigger] s.filter(p)[k],
    decreases s.len(),
{
    reveal(Seq::filter);
    if s.len() > 0 {
        let less = s.drop_last();
        assert forall|j: int, k: int| 0 <= j < k < less.len() implies #[trigger] less[j]
            < #[trigger] less[k] by {
            assert(s[j] < s[k]);
        }
        lemma_filter_rises(less, p);
        let some = less.filter(p);
        let all = s.filter(p);
        assert forall|j: int, k: int| 0 <= j < k < all.len() implies #[trigger] all[j]
            < #[trigger] all[k] by {
            assert(all[j] == some[j]);
            if k == some.len() {
                assert(some.contains(some[j]));
                search::lemma_filter_contains(less, p, some[j]);
                let a = choose|a: int| 0 <= a < less.len() && less[a] == some[j];
                assert(s[a] < s[s.len() - 1]);
            } else {
                assert(all[k] == some[k]);
            }
        }
    }
}

/// Whether a window that comes to a workspace goes to a column: the one that its
/// fullscreen window left, by the first such strip on a display, or none in particular.
pub open spec fn is_place_left(
    rows: Seq<RowView>,
    id: WorkspaceId,
    at: Option<usize>,
) -> bool {
    ||| exists|r: int|
        0 <= r < rows.len() && (#[trigger] rows[r]).parent is Some && rows[r].fullscreen is Some
            && rows[r].fullscreen.unwrap().previous_strip == id && at == Some(
            rows[r].fullscreen.unwrap().previous_index,
        ) && forall|j: int|
            0 <= j < r ==> !((#[trigger] rows[j]).parent is Some && rows[j].fullscreen is Some
                && rows[j].fullscreen.unwrap().previous_strip == id)
    ||| at is None && forall|j: int|
        0 <= j < rows.len() ==> !((#[trigger] rows[j]).parent is Some && rows[j].fullscreen is Some
            && rows[j].fullscreen.unwrap().previous_strip == id)
}

proof fn lemma_place_left(rows: Seq<RowView>, id: WorkspaceId, at: Option<usize>)
    requires
        is_place_left(rows, id, at),
    ensures
        detect::return_index(rows, id) == at,
{
    let p = detect::returns_to(id);
    if at is Some {
        let r = choose|r: int|
            0 <= r < rows.len() && (#[trigger] rows[r]).parent is Some && rows[r].fullscreen is Some
                && rows[r].fullscreen.unwrap().previous_strip == id && at == Some(
                rows[r].fullscreen.unwrap().previous_index,
            ) && forall|j: int|
                0 <= j < r ==> !((#[trigger] rows[j]).parent is Some && rows[j].fullscreen is Some
                    && rows[j].fullscreen.unwrap().previous_strip == id);
        assert forall|j: int| 0 <= j < r implies !p(rows[j]) by {}
        search::lemma_first_is(rows, p, r);
    } else {
        assert forall|j: int| 0 <= j < rows.len() implies !p(rows[j]) by {}
        search::lemma_first_none(rows, p);
    }
}

/// What one more window that moved to a workspace changes. The strips of the workspace
/// on the active display have it in a column of its own: where a fullscreen window
/// left one, or at the right end if there is no such place or the strip does not reach
/// as far. The other strips on a display are without it, and what is on no display
/// stays as it is.
pub proof fn each_moved_window_comes_home(
    id: WorkspaceId,
    display: Entity,
    moved: &Vec<Entity>,
    more: &Vec<Entity>,
    window: Entity,
    rows: &mut Vec<StripRow>,
    others: &mut Vec<StripRow>,
    at: Option<usize>,
    i: int,
)
    requires
        more@ == moved@.push(window),
        old(rows).deep_view() == old(others).deep_view(),
        call_ensures(detect::adopt_moved_windows, (id, display, moved, rows), ()),
        call_ensures(detect::adopt_moved_windows, (id, display, more, others), ()),
        is_place_left(old(rows).deep_view(), id, at),
        0 <= i < old(rows).len(),
    ensures
        moved.len() == 0 ==> final(rows).deep_view() == old(rows).deep_view(),
        final(rows).len() == old(rows).len(),
        final(others).len() == old(rows).len(),
        ({
            let before = final(rows).deep_view()[i];
            let after = final(others).deep_view()[i];
            let rest = before.strip.without(window).columns;
            let own = seq![seq![window]];
            &&& after == RowView { strip: after.strip, ..before }
            &&& after.strip.id == before.strip.id
            &&& after.strip.virtual_index == before.strip.virtual_index
            &&& before.parent is None ==> after == before
            &&& before.parent is Some ==> after.strip.columns == if before.strip.id != id
                || before.parent != Some(display) {
                rest
            } else if at is Some && at.unwrap() < rest.len() {
                rest.take(at.unwrap() as int) + own + rest.skip(at.unwrap() as int)
            } else {
                rest + own
            }
            &&& rest.flatten() == before.strip.columns.flatten().filter(|w: Entity| w != window)
        }),
{
    let table = old(rows).deep_view();
    lemma_place_left(table, id, at);
    assert(table.len() == old(rows).len());
    assert(final(rows).deep_view().len() == final(rows).len());
    assert(final(others).deep_view().len() == final(others).len());
    assert(more@.drop_last() =~= moved@);
    assert(more@.last() == window);
    assert(final(rows).deep_view()[i] == detect::adopted_all(table[i], id, display, at, moved@));
    assert(final(others).deep_view()[i] == detect::adopted_all(table[i], id, display, at, more@));
    let before = final(rows).deep_view()[i];
    let after = final(others).deep_view()[i];
    let rest = before.strip.without(window).columns;
    assert(after == detect::adopted(before, id, display, at, window));
    strip::without_keeps_the_order(before.strip, window);
    assert(strip::other_than(window) =~= (|w: Entity| w != window));
    if at is Some && at.unwrap() < rest.len() {
        assert(rest.insert(at.unwrap() as int, seq![window]) =~= rest.take(at.unwrap() as int)
            + seq![seq![window]] + rest.skip(at.unwrap() as int));
    }
    assert(rest.insert(rest.len() as int, seq![window]) =~= rest + seq![seq![window]]);
    assert(rest.push(seq![window]) =~= rest + seq![seq![window]]);
    if moved.len() == 0 {
        assert(final(rows).deep_view() =~= table);
    }
}

} // verus!
