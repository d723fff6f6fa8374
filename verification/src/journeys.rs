//! Ways there and back: what several steps, one after another, make of the
//! strips.

use crate::detect;
use crate::moves;
use crate::moves::WindowMove;
use crate::outcome;
use crate::rows;
use crate::rows::{
    Action, Display, PreviousStripPosition, RefreshWindowSizes, RowView, Target, WindowRow,
};
use crate::search;
use crate::spaces;
use crate::strip;
use crate::strip::StripView;
use crate::types::{Entity, Event, WinID, WorkspaceId};
use crate::visibility;
use vstd::prelude::*;

verus! {

/// The table when a window has got a workspace of its own: the strip that it left
/// is without it, and the new strip, as `entity`, is at the end.
pub open spec fn gone_fullscreen(
    rows: Seq<RowView>,
    space: WorkspaceId,
    window: Entity,
    display: Display,
    entity: Entity,
) -> Seq<RowView> {
    let o = search::last(rows, spaces::left_behind(space)).unwrap();
    spaces::space_changed(
        Event::SpaceChanged,
        Some(space),
        true,
        Some(window),
        display,
        rows,
    ).0.push(spaces::fullscreen_strip(rows[o], space, window, display).row(entity))
}

/// The windows that a look at a workspace finds astray.
pub open spec fn found_astray(
    rows: Seq<RowView>,
    id: WorkspaceId,
    ids: Seq<WinID>,
    windows: Seq<WindowRow>,
) -> Seq<Entity> {
    detect::astray(detect::managed_lookups(ids, windows), detect::strips_of_space(rows, id))
}

/// Whether two tables have the same strips on the same displays, whatever else is
/// attached to them.
pub open spec fn same_places(a: Seq<RowView>, b: Seq<RowView>) -> bool {
    &&& a.len() == b.len()
    &&& forall|i: int|
        0 <= i < a.len() ==> {
            &&& (#[trigger] b[i]).strip == a[i].strip
            &&& b[i].parent == a[i].parent
            &&& b[i].fullscreen == a[i].fullscreen
        }
}

/// Whether a window got a workspace of its own, `space`, out of a strip from which
/// it finds its way back. It had the column `index` to itself, and its strip is the
/// only one of its workspace on the display `home`. If an earlier fullscreen window
/// of the workspace left a mark, that mark names the same place, or one at the right
/// end if the window stood there.
pub open spec fn finds_its_way_back(
    rows: Seq<RowView>,
    space: WorkspaceId,
    window: Entity,
    home: Entity,
    index: int,
) -> bool {
    let o = search::last(rows, spaces::left_behind(space)).unwrap();
    let strip = rows[o].strip;
    &&& spaces::asks_fullscreen(Event::SpaceChanged, Some(space), rows)
    &&& strip.wf()
    &&& 0 <= index < strip.columns.len() <= usize::MAX
    &&& strip.columns[index] == seq![window]
    &&& forall|c: int|
        0 <= c < strip.columns.len() && c != index ==> !(#[trigger] strip.columns[c]).contains(
            window,
        )
    &&& rows[o].parent == Some(home)
    &&& forall|i: int|
        0 <= i < rows.len() && i != o ==> !detect::is_home(#[trigger] rows[i], strip.id, home)
    &&& forall|i: int|
        0 <= i < rows.len() && i != o && detect::attached_of_space(strip.id)(#[trigger] rows[i])
            ==> !rows[i].strip.contains(window)
    &&& detect::return_index(rows, strip.id) matches Some(at) ==> at == index || (at > index
        && index == strip.columns.len() - 1)
}

/// Whether the list of a workspace names a window and, besides, no laid out window
/// that is not in a strip of the workspace.
pub open spec fn lists_back(
    rows: Seq<RowView>,
    id: WorkspaceId,
    window: Entity,
    ids: Seq<WinID>,
    windows: Seq<WindowRow>,
) -> bool {
    &&& exists|k: int|
        0 <= k < ids.len() && rows::managed_window(windows, #[trigger] ids[k]) == Some(window)
    &&& forall|k: int, w: Entity|
        0 <= k < ids.len() && rows::managed_window(windows, #[trigger] ids[k]) == Some(w) && w
            != window ==> #[trigger] detect::held(detect::strips_of_space(rows, id), w)
}

/// A window that got a workspace of its own comes back to the column that it had
/// to itself, when the workspace that it left is looked at again: its strip is as it
/// was, and the strip that was made for the window is empty. `between` is the table
/// when the workspace is looked at.
pub proof fn fullscreen_and_back_restores_the_strip(
    rows: Seq<RowView>,
    space: WorkspaceId,
    window: Entity,
    display: Display,
    entity: Entity,
    between: Seq<RowView>,
    home: Entity,
    index: int,
    ids: Seq<WinID>,
    windows: Seq<WindowRow>,
)
    requires
        finds_its_way_back(rows, space, window, home, index),
        same_places(gone_fullscreen(rows, space, window, display, entity), between),
        lists_back(
            rows,
            rows[search::last(rows, spaces::left_behind(space)).unwrap()].strip.id,
            window,
            ids,
            windows,
        ),
    ensures
        ({
            let o = search::last(rows, spaces::left_behind(space)).unwrap();
            let n = rows.len() as int;
            let p = rows[o].strip.id;
            let moved = found_astray(between, p, ids, windows);
            let after = detect::rows_after_adoption(between, p, home, moved);
            &&& 0 <= o < n
            &&& moved.len() > 0
            &&& forall|k: int| 0 <= k < moved.len() ==> (#[trigger] moved[k]) == window
            &&& after.len() == n + 1
            &&& after[o] == between[o].with_strip(rows[o].strip)
            &&& after[n] == between[n].with_strip(
                StripView { columns: Seq::empty(), ..between[n].strip },
            )
        }),
{
    search::lemma_last(rows, spaces::left_behind(space));
    let o = search::last(rows, spaces::left_behind(space)).unwrap();
    let p = rows[o].strip.id;
    let n = rows.len() as int;
    let new = spaces::fullscreen_strip(rows[o], space, window, display);
    let table = gone_fullscreen(rows, space, window, display, entity);
    let whole = rows[o].strip;
    strip::without_then_inserted_back_restores(whole, window, index);
    strip::without_drops_one_window(whole, window);
    assert(table[o] == rows[o].with_strip(whole.without(window)));
    assert(table[n] == new.row(entity));
    assert forall|i: int| 0 <= i < n && i != o implies (#[trigger] table[i]) == rows[i] by {}
    assert(between[o].strip == whole.without(window));
    assert(between[n].strip == new.contents());
    // The window is the only one that is astray.
    assert(!detect::held(detect::strips_of_space(between, p), window)) by {
        if detect::held(detect::strips_of_space(between, p), window) {
            detect::lemma_held_is_in_a_row(between, p, window);
            let r = choose|r: int|
                0 <= r < between.len() && detect::attached_of_space(p)(between[r])
                    && #[trigger] between[r].strip.contains(window);
            assert(between[r].strip == table[r].strip);
            assert(r < n && r != o);
            assert(detect::attached_of_space(p)(rows[r]));
        }
    }
    assert forall|k: int, w: Entity|
        0 <= k < ids.len() && rows::managed_window(windows, #[trigger] ids[k]) == Some(w) && w
            != window implies #[trigger] detect::held(
        detect::strips_of_space(between, p),
        w,
    ) by {
        assert(detect::held(detect::strips_of_space(rows, p), w));
        detect::lemma_held_is_in_a_row(rows, p, w);
        let r = choose|r: int|
            0 <= r < rows.len() && detect::attached_of_space(p)(rows[r])
                && #[trigger] rows[r].strip.contains(w);
        assert(between[r].strip == table[r].strip);
        assert(between[r].strip.contains(w));
        detect::lemma_row_holds(between, p, r, w);
    }
    lemma_astray_is_the_window(between, p, window, ids, windows);
    // A mark says where it is to come back to.
    let at = lemma_mark_is_found(rows, space, window, display, entity, between, home, index);
    let moved = found_astray(between, p, ids, windows);
    let after = detect::rows_after_adoption(between, p, home, moved);
    assert(whole.without(window).inserted_at(at as int, window) == whole);
    assert(after[o] == detect::adopted_all(between[o], p, home, Some(at), moved));
    lemma_taken_back(between[o].with_strip(whole), p, home, at, window, moved);
    assert(between[o].with_strip(whole).with_strip(whole.without(window)) == between[o]);
    let empty = StripView { columns: Seq::empty(), ..new.contents() };
    strip::appended_then_without_restores(empty, window);
    assert(empty.appended(window).columns =~= new.contents().columns);
    assert(after[n] == detect::adopted_all(between[n], p, home, Some(at), moved));
    lemma_let_go(between[n], p, home, Some(at), window, empty, moved);
}

/// The place that the window is put back to, and that it is the one that it left.
proof fn lemma_mark_is_found(
    rows: Seq<RowView>,
    space: WorkspaceId,
    window: Entity,
    display: Display,
    entity: Entity,
    between: Seq<RowView>,
    home: Entity,
    index: int,
) -> (at: usize)
    requires
        finds_its_way_back(rows, space, window, home, index),
        same_places(gone_fullscreen(rows, space, window, display, entity), between),
    ensures
        ({
            let strip = rows[search::last(rows, spaces::left_behind(space)).unwrap()].strip;
            &&& detect::return_index(between, strip.id) == Some(at)
            &&& strip.without(window).inserted_at(at as int, window) == strip
        }),
{
    search::lemma_last(rows, spaces::left_behind(space));
    let o = search::last(rows, spaces::left_behind(space)).unwrap();
    let n = rows.len() as int;
    let whole = rows[o].strip;
    let new = spaces::fullscreen_strip(rows[o], space, window, display);
    let table = gone_fullscreen(rows, space, window, display, entity);
    strip::without_then_inserted_back_restores(whole, window, index);
    assert(table[n] == new.row(entity));
    let back = detect::returns_to(whole.id);
    assert forall|i: int| 0 <= i < n implies back(#[trigger] between[i]) == back(rows[i]) by {
        assert(between[i].parent == table[i].parent);
        assert(between[i].fullscreen == table[i].fullscreen);
        assert(table[i].parent == rows[i].parent && table[i].fullscreen == rows[i].fullscreen);
    }
    search::lemma_first(rows, back);
    match search::first(rows, back) {
        Some(f) => {
            assert(back(between[f]));
            assert forall|j: int| 0 <= j < f implies !back(between[j]) by {
                assert(!back(rows[j]));
                assert(back(between[j]) == back(rows[j]));
            }
            search::lemma_first_is(between, back, f);
            let at = rows[f].fullscreen.unwrap().previous_index;
            assert(between[f].fullscreen == table[f].fullscreen);
            assert(detect::return_index(rows, whole.id) == Some(at));
            let rest = whole.without(window);
            assert(rest.inserted_at(index, window).columns.len() == rest.columns.len() + 1);
            if at != index {
                assert(rest.inserted_at(at as int, window).columns =~= rest.inserted_at(
                    index,
                    window,
                ).columns);
            }
            at
        },
        None => {
            assert(between[n].fullscreen == table[n].fullscreen);
            assert(back(between[n]));
            assert forall|j: int| 0 <= j < n implies !back(between[j]) by {
                assert(!back(rows[j]));
                assert(back(between[j]) == back(rows[j]));
            }
            search::lemma_first_is(between, back, n);
            index as usize
        },
    }
}

/// The same for all strips: if the window was in no other strip on a display, each
/// of those that were there is as it was.
pub proof fn fullscreen_and_back_restores_all_strips(
    rows: Seq<RowView>,
    space: WorkspaceId,
    window: Entity,
    display: Display,
    entity: Entity,
    between: Seq<RowView>,
    home: Entity,
    index: int,
    ids: Seq<WinID>,
    windows: Seq<WindowRow>,
)
    requires
        finds_its_way_back(rows, space, window, home, index),
        same_places(gone_fullscreen(rows, space, window, display, entity), between),
        lists_back(
            rows,
            rows[search::last(rows, spaces::left_behind(space)).unwrap()].strip.id,
            window,
            ids,
            windows,
        ),
        forall|i: int|
            0 <= i < rows.len() && (#[trigger] rows[i]).parent is Some ==> rows[i].strip.wf(),
        forall|i: int|
            0 <= i < rows.len() && (#[trigger] rows[i]).parent is Some && Some(i) != search::last(
                rows,
                spaces::left_behind(space),
            ) ==> !rows[i].strip.contains(window),
    ensures
        ({
            let p = rows[search::last(rows, spaces::left_behind(space)).unwrap()].strip.id;
            let moved = found_astray(between, p, ids, windows);
            let after = detect::rows_after_adoption(between, p, home, moved);
            forall|i: int|
                0 <= i < rows.len() ==> (#[trigger] after[i]) == between[i].with_strip(
                    rows[i].strip,
                )
        }),
{
    fullscreen_and_back_restores_the_strip(
        rows,
        space,
        window,
        display,
        entity,
        between,
        home,
        index,
        ids,
        windows,
    );
    let o = search::last(rows, spaces::left_behind(space)).unwrap();
    let p = rows[o].strip.id;
    let table = gone_fullscreen(rows, space, window, display, entity);
    let moved = found_astray(between, p, ids, windows);
    let at = detect::return_index(between, p);
    let after = detect::rows_after_adoption(between, p, home, moved);
    assert forall|i: int| 0 <= i < rows.len() implies (#[trigger] after[i])
        == between[i].with_strip(rows[i].strip) by {
        if i != o {
            assert(table[i] == rows[i]);
            assert(between[i].strip == table[i].strip && between[i].parent == table[i].parent);
            assert(after[i] == detect::adopted_all(between[i], p, home, at, moved));
            assert(!detect::is_home(rows[i], p, home));
            lemma_left_alone(between[i], p, home, at, window, moved);
        }
    }
}

/// Of the windows that are listed for a workspace, only the one that its strips do
/// not hold is astray.
proof fn lemma_astray_is_the_window(
    table: Seq<RowView>,
    id: WorkspaceId,
    window: Entity,
    ids: Seq<WinID>,
    windows: Seq<WindowRow>,
)
    requires
        !detect::held(detect::strips_of_space(table, id), window),
        lists_back(table, id, window, ids, windows),
    ensures
        found_astray(table, id, ids, windows).len() > 0,
        forall|k: int|
            0 <= k < found_astray(table, id, ids, windows).len() ==> (#[trigger] found_astray(
                table,
                id,
                ids,
                windows,
            )[k]) == window,
{
    let lookups = detect::managed_lookups(ids, windows);
    let strips = detect::strips_of_space(table, id);
    let pick = detect::is_astray(strips);
    let picked = lookups.filter(pick);
    let moved = found_astray(table, id, ids, windows);
    let k = choose|k: int|
        0 <= k < ids.len() && rows::managed_window(windows, #[trigger] ids[k]) == Some(window);
    assert(lookups[k].found == Some(window));
    assert(lookups.contains(lookups[k]));
    search::lemma_filter_contains(lookups, pick, lookups[k]);
    assert(picked.contains(lookups[k]));
    assert forall|j: int| 0 <= j < moved.len() implies (#[trigger] moved[j]) == window by {
        let x = picked[j];
        assert(picked.contains(x));
        search::lemma_filter_contains(lookups, pick, x);
        let m = choose|m: int| 0 <= m < lookups.len() && lookups[m] == x;
        let w = x.found.unwrap();
        assert(rows::managed_window(windows, ids[m]) == Some(w));
        if w != window {
            assert(detect::held(strips, w));
        }
    }
}

/// A strip takes the window back to where it was, however often it is named.
proof fn lemma_taken_back(
    row: RowView,
    id: WorkspaceId,
    display: Entity,
    at: usize,
    window: Entity,
    moved: Seq<Entity>,
)
    requires
        detect::is_home(row, id, display),
        row.strip.without(window).inserted_at(at as int, window) == row.strip,
        moved.len() > 0,
        forall|k: int| 0 <= k < moved.len() ==> (#[trigger] moved[k]) == window,
    ensures
        detect::adopted_all(
            row.with_strip(row.strip.without(window)),
            id,
            display,
            Some(at),
            moved,
        ) == row,
    decreases moved.len(),
{
    let less = moved.drop_last();
    let left = row.with_strip(row.strip.without(window));
    assert(moved[moved.len() - 1] == window);
    if less.len() > 0 {
        assert forall|k: int| 0 <= k < less.len() implies (#[trigger] less[k]) == window by {
            assert(moved[k] == window);
        }
        lemma_taken_back(row, id, display, at, window, less);
    } else {
        strip::without_drops_one_window(row.strip, window);
        strip::without_absent_window_is_unchanged(left.strip, window);
        assert(detect::adopted_all(left, id, display, Some(at), less) == left);
    }
}

/// A strip that is not at home stays as it is if it does not hold the window, and
/// in any case if it is on no display.
proof fn lemma_left_alone(
    row: RowView,
    id: WorkspaceId,
    display: Entity,
    at: Option<usize>,
    window: Entity,
    moved: Seq<Entity>,
)
    requires
        !detect::is_home(row, id, display),
        row.parent is Some ==> row.strip.wf() && !row.strip.contains(window),
        forall|k: int| 0 <= k < moved.len() ==> (#[trigger] moved[k]) == window,
    ensures
        detect::adopted_all(row, id, display, at, moved) == row,
    decreases moved.len(),
{
    if moved.len() > 0 {
        let less = moved.drop_last();
        assert forall|k: int| 0 <= k < less.len() implies (#[trigger] less[k]) == window by {
            assert(moved[k] == window);
        }
        assert(moved[moved.len() - 1] == window);
        lemma_left_alone(row, id, display, at, window, less);
        if row.parent is Some {
            strip::without_absent_window_is_unchanged(row.strip, window);
        }
    }
}

/// A strip of another workspace lets the window go.
proof fn lemma_let_go(
    row: RowView,
    id: WorkspaceId,
    display: Entity,
    at: Option<usize>,
    window: Entity,
    rest: StripView,
    moved: Seq<Entity>,
)
    requires
        row.parent is Some,
        row.strip.id != id,
        rest.id == row.strip.id,
        row.strip.without(window) == rest,
        rest.wf(),
        !rest.contains(window),
        moved.len() > 0,
        forall|k: int| 0 <= k < moved.len() ==> (#[trigger] moved[k]) == window,
    ensures
        detect::adopted_all(row, id, display, at, moved) == row.with_strip(rest),
    decreases moved.len(),
{
    let less = moved.drop_last();
    assert(moved[moved.len() - 1] == window);
    if less.len() > 0 {
        assert forall|k: int| 0 <= k < less.len() implies (#[trigger] less[k]) == window by {
            assert(moved[k] == window);
        }
        lemma_let_go(row, id, display, at, window, rest, less);
        strip::without_absent_window_is_unchanged(rest, window);
    } else {
        assert(detect::adopted_all(row, id, display, at, less) == row);
    }
}

/// The table when one window has moved: a strip that was made for it, as `entity`,
/// is at the end.
pub open spec fn gone_to_a_row(
    rows: Seq<RowView>,
    source: int,
    step: WindowMove,
    display: Display,
    entity: Entity,
) -> Seq<RowView> {
    let after = moves::rows_after_moves(rows, source, seq![step]);
    if moves::move_target(rows, source, step) is Some {
        after
    } else {
        after.push(moves::strip_for_move(rows, source, step, display).row(entity))
    }
}

/// Where the strip that the window went to stands in that table.
pub open spec fn row_reached(rows: Seq<RowView>, source: int, step: WindowMove) -> int {
    match moves::move_target(rows, source, step) {
        Some(t) => t,
        None => rows.len() as int,
    }
}

/// Whether two tables have the same strips, whatever marks they carry.
pub open spec fn same_strips(a: Seq<RowView>, b: Seq<RowView>) -> bool {
    &&& a.len() == b.len()
    &&& forall|i: int|
        0 <= i < a.len() ==> (#[trigger] b[i]).entity == a[i].entity && b[i].strip == a[i].strip
}

/// A window that goes to another row and comes back is at the right end of the
/// strip that it was in, behind the others in the order that they had. The other
/// row is as it was, or empty if it was made for the window, and no other strip
/// changes. If the window is followed on its way back, its strip becomes active.
/// Left out are a window that also stands in another strip, and an earlier strip
/// with the workspace and the number of the one that the window starts from.
/// `between` is the table when the strip that the window went to has become the
/// active one.
pub proof fn window_sent_to_a_row_and_back(
    rows: Seq<RowView>,
    source: int,
    there: WindowMove,
    back: WindowMove,
    display: Display,
    entity: Entity,
    between: Seq<RowView>,
)
    requires
        rows::distinct(rows),
        0 <= source < rows.len(),
        rows[source].strip.contains(there.window),
        forall|i: int|
            0 <= i < rows.len() && i != source ==> (#[trigger] rows[i]).strip.wf()
                && !rows[i].strip.contains(there.window),
        there.marker.target_virtual_index != rows[source].strip.virtual_index,
        back.window == there.window,
        back.marker.target_virtual_index == rows[source].strip.virtual_index,
        search::first(
            rows,
            moves::row_at(rows[source].strip.id, rows[source].strip.virtual_index),
        ) == Some(source),
        forall|i: int| 0 <= i < rows.len() ==> (#[trigger] rows[i]).entity != entity,
        same_strips(gone_to_a_row(rows, source, there, display, entity), between),
        search::first(between, rows::is_active()) == Some(row_reached(rows, source, there)),
    ensures
        ({
            let t = row_reached(rows, source, there);
            let after = moves::rows_after_moves(between, t, seq![back]);
            let actions = moves::actions_for_moves(between, t, seq![back], display);
            &&& after.len() == between.len()
            &&& after[source].strip == rows[source].strip.without(there.window).appended(
                there.window,
            )
            &&& after[source].strip.windows() == rows[source].strip.windows().filter(
                strip::other_than(there.window),
            ).push(there.window)
            &&& t < rows.len() ==> after[t].strip == rows[t].strip
            &&& t == rows.len() ==> after[t].strip.columns == Seq::<Seq<Entity>>::empty()
            &&& forall|i: int|
                0 <= i < rows.len() && i != source ==> (#[trigger] after[i]).strip == rows[i].strip
            &&& back.marker.move_focus is Follow ==> actions.contains(
                Action::InsertActive(Target::Strip(rows[source].entity)),
            )
        }),
{
    let w = there.window;
    let id = rows[source].strip.id;
    let n = rows.len() as int;
    let t = row_reached(rows, source, there);
    let one = seq![there];
    let mid = moves::rows_after_moves(rows, source, one);
    let table = gone_to_a_row(rows, source, there, display, entity);
    lemma_one_move(rows, source, there);
    assert(moves::home_of(rows, source, w) == id);
    let p = moves::row_at(id, there.marker.target_virtual_index);
    search::lemma_first(rows, p);
    search::lemma_first(
        rows,
        moves::row_at(id, rows[source].strip.virtual_index),
    );
    let target = moves::entity_at(rows, moves::move_target(rows, source, there));
    assert(t != source);
    assert forall|i: int| 0 <= i < n implies (#[trigger] mid[i]) == moves::row_after_move(
        rows[i],
        target,
        w,
    ) by {}
    assert(target != Some(rows[source].entity)) by {
        if t < n {
            assert(rows[t].entity != rows[source].entity);
        }
    }
    // After the first move the window is in the strip that it went to.
    assert forall|i: int| 0 <= i < n && i != source && i != t implies (#[trigger] mid[i]).strip
        == rows[i].strip by {
        if t < n {
            assert(rows[i].entity != rows[t].entity);
        }
        strip::without_absent_window_is_unchanged(rows[i].strip, w);
    }
    let went = if t < n {
        rows[t].strip
    } else {
        StripView {
            id,
            virtual_index: there.marker.target_virtual_index,
            columns: Seq::empty(),
        }
    };
    assert(went.wf() && !went.contains(w));
    assert(table[t].strip == went.appended(w)) by {
        if t == n {
            assert(went.appended(w).columns =~= seq![seq![w]]);
        }
    }
    strip::appended_adds_one_window(went, w);
    assert(went.appended(w).contains(w));
    assert(between[t].strip == went.appended(w));
    // On the way back it goes by the workspace of that strip.
    assert(moves::home_of(between, t, w) == id);
    let r = moves::row_at(id, rows[source].strip.virtual_index);
    assert forall|i: int| 0 <= i < n implies r(#[trigger] between[i]) == r(rows[i]) by {
        assert(between[i].strip == table[i].strip);
    }
    assert forall|j: int| 0 <= j < source implies !r(between[j]) by {
        assert(!r(rows[j]));
        assert(r(between[j]) == r(rows[j]));
    }
    assert(r(between[source]) == r(rows[source]));
    search::lemma_first_is(between, r, source);
    assert(moves::move_target(between, t, back) == Some(source));
    lemma_one_move(between, t, back);
    let after = moves::rows_after_moves(between, t, seq![back]);
    let home = Some(rows[source].entity);
    assert(between[source].entity == rows[source].entity);
    assert forall|i: int| 0 <= i < between.len() implies (#[trigger] after[i])
        == moves::row_after_move(between[i], home, w) by {}
    assert(between[t].entity != rows[source].entity) by {
        if t < n {
            assert(rows[t].entity != rows[source].entity);
        } else {
            assert(table[t].entity == entity);
        }
    }
    strip::appended_then_without_restores(went, w);
    assert forall|i: int| 0 <= i < n && i != source implies (#[trigger] after[i]).strip
        == rows[i].strip by {
        assert(rows[i].entity != rows[source].entity);
        assert(between[i].entity == table[i].entity);
        assert(between[i].strip == table[i].strip);
        if i != t {
            assert(mid[i].strip == rows[i].strip);
            strip::without_absent_window_is_unchanged(rows[i].strip, w);
        }
    }
    assert(between[source].strip == mid[source].strip);
    assert(mid[source].strip == rows[source].strip.without(w));
    assert(after[source].strip == rows[source].strip.without(w).appended(w));
    let rest = rows[source].strip.without(w);
    strip::without_keeps_the_order(rows[source].strip, w);
    rest.columns.lemma_flatten_push(seq![w]);
    assert(rest.windows() + seq![w] =~= rest.windows().push(w));
    if back.marker.move_focus is Follow {
        let actions = moves::actions_for_moves(between, t, seq![back], display);
        let own = moves::actions_for_move(between, t, back, display);
        lemma_one_move_acts(between, t, back, display);
        assert(own.len() == 5);
        assert(own[3] == Action::InsertActive(Target::Strip(between[source].entity)));
        assert(actions.contains(own[3]));
    }
}

/// One move in a list of its own.
proof fn lemma_one_move(rows: Seq<RowView>, source: int, step: WindowMove)
    ensures
        moves::rows_after_moves(rows, source, seq![step]) == moves::rows_after_move(
            rows,
            source,
            step,
        ),
{
    let one = seq![step];
    reveal_with_fuel(moves::rows_after_moves, 2);
    assert(one.drop_last() =~= Seq::<WindowMove>::empty());
    assert(one.last() == step);
    assert(moves::rows_after_moves(rows, source, one.drop_last()) == rows);
}

/// What is done to the world for one move in a list of its own.
proof fn lemma_one_move_acts(
    rows: Seq<RowView>,
    source: int,
    step: WindowMove,
    display: Display,
)
    ensures
        moves::actions_for_moves(rows, source, seq![step], display) == moves::actions_for_move(
            rows,
            source,
            step,
            display,
        ),
{
    let one = seq![step];
    reveal_with_fuel(moves::actions_for_moves, 2);
    reveal_with_fuel(moves::rows_after_moves, 2);
    assert(one.drop_last() =~= Seq::<WindowMove>::empty());
    assert(one.last() == step);
    assert(moves::rows_after_moves(rows, source, one.drop_last()) == rows);
    assert(moves::actions_for_moves(rows, source, one, display) =~= moves::actions_for_move(
        rows,
        source,
        step,
        display,
    ));
}

/// The place that a strip keeps in mind when it is hidden, if it has none yet.
pub open spec fn place_in_mind(row: RowView, focused: Option<Entity>) -> PreviousStripPosition {
    match row.previous {
        Some(previous) => previous,
        None => PreviousStripPosition { origin: row.position, focus: focused },
    }
}

/// The table when the strips of a list have lost the mark of the active one, and
/// what is to be done for it is done.
pub open spec fn gone_out_of_view(
    rows: Seq<RowView>,
    removed: Seq<Entity>,
    focused: Option<Entity>,
    display: Display,
    mark: RefreshWindowSizes,
) -> Seq<RowView> {
    outcome::all_after(
        visibility::rows_after_hiding(rows, removed, display),
        visibility::actions_for_hiding(rows, removed, focused, display),
        mark,
    )
}

/// Whether a list names an entity no more than once.
pub open spec fn listed_once(list: Seq<Entity>, entity: Entity) -> bool {
    forall|i: int, j: int|
        0 <= i < list.len() && 0 <= j < list.len() && #[trigger] list[i] == entity
            && #[trigger] list[j] == entity ==> i == j
}

/// A strip that goes out of view, with others in any order, comes back to where
/// it stood when it is shown, if it is listed once. What it held in mind is done
/// with.
pub proof fn hidden_strips_come_back_to_their_places(
    rows: Seq<RowView>,
    removed: Seq<Entity>,
    focused: Option<Entity>,
    focused_then: Option<Entity>,
    display: Display,
    windows: Seq<WindowRow>,
    mark: RefreshWindowSizes,
    entity: Entity,
    r: int,
)
    requires
        removed.contains(entity),
        listed_once(removed, entity),
        visibility::row_to_hide(rows, entity) == Some(r),
        rows[r].previous is None,
    ensures
        ({
            let hidden = gone_out_of_view(rows, removed, focused, display, mark);
            let (shown, actions) = visibility::shown(hidden, entity, focused_then, windows);
            &&& hidden[r].position == display.bounds.max.minus(moves::HIDDEN_INSET as int)
            &&& hidden[r].previous == Some(place_in_mind(rows[r], focused))
            &&& shown[r].position == rows[r].position
            &&& outcome::after_actions(shown[r], actions, mark) == rows[r]
        }),
{
    let places = visibility::rows_after_hiding(rows, removed, display);
    let orders = visibility::actions_for_hiding(rows, removed, focused, display);
    let hidden = gone_out_of_view(rows, removed, focused, display, mark);
    search::lemma_first(rows, rows::row_of(entity));
    visibility::hiding_keeps_all_but_places(rows, removed, display);
    lemma_hidden(rows, removed, focused, display, mark, entity, r);
    assert(hidden[r] == outcome::after_actions(places[r], orders, mark));
    assert forall|i: int| 0 <= i < rows.len() implies rows::row_of(entity)(#[trigger] hidden[i])
        == rows::row_of(entity)(rows[i]) by {
        outcome::actions_keep_the_windows(places[i], orders, mark);
    }
    search::lemma_same_first(rows, hidden, rows::row_of(entity));
    let (shown, actions) = visibility::shown(hidden, entity, focused_then, windows);
    let place = place_in_mind(rows[r], focused);
    assert(shown[r] == hidden[r].moved_to(place.origin));
    reveal_with_fuel(outcome::after_actions, 3);
    let first = seq![Action::RemovePrevious(entity)];
    assert(actions[0] == Action::RemovePrevious(entity));
    assert(first.drop_last() =~= Seq::<Action>::empty());
    if actions.len() == 1 {
        assert(actions =~= first);
    } else {
        assert(actions.drop_last() =~= first);
    }
    assert(outcome::after_actions(shown[r], first, mark) == outcome::after_action(
        shown[r],
        first[0],
        mark,
    ));
}

/// What hiding the strips of a list makes of one of them.
proof fn lemma_hidden(
    rows: Seq<RowView>,
    removed: Seq<Entity>,
    focused: Option<Entity>,
    display: Display,
    mark: RefreshWindowSizes,
    entity: Entity,
    r: int,
)
    requires
        listed_once(removed, entity),
        visibility::row_to_hide(rows, entity) == Some(r),
        rows[r].previous is None,
    ensures
        ({
            let places = visibility::rows_after_hiding(rows, removed, display);
            let orders = visibility::actions_for_hiding(rows, removed, focused, display);
            let hidden = rows[r].moved_to(
                display.bounds.max.minus(moves::HIDDEN_INSET as int),
            );
            &&& places[r] == if removed.contains(entity) {
                hidden
            } else {
                rows[r]
            }
            &&& forall|row: RowView|
                row.entity == entity ==> (#[trigger] outcome::after_actions(row, orders, mark))
                    == if removed.contains(entity) {
                    RowView { previous: Some(place_in_mind(rows[r], focused)), ..row }
                } else {
                    row
                }
        }),
    decreases removed.len(),
{
    search::lemma_first(rows, rows::row_of(entity));
    if removed.len() > 0 {
        let less = removed.drop_last();
        let last = removed.last();
        assert(listed_once(less, entity)) by {
            assert forall|i: int, j: int|
                0 <= i < less.len() && 0 <= j < less.len() && #[trigger] less[i] == entity
                    && #[trigger] less[j] == entity implies i == j by {
                assert(removed[i] == entity && removed[j] == entity);
            }
        }
        lemma_hidden(rows, less, focused, display, mark, entity, r);
        visibility::hiding_keeps_all_but_places(rows, less, display);
        search::lemma_first(rows, rows::row_of(last));
        assert(removed.contains(entity) <==> less.contains(entity) || last == entity) by {
            assert(removed[removed.len() - 1] == last);
            if less.contains(entity) {
                let k = choose|k: int| 0 <= k < less.len() && less[k] == entity;
                assert(removed[k] == entity);
            }
            if removed.contains(entity) {
                let k = choose|k: int| 0 <= k < removed.len() && removed[k] == entity;
                if k < less.len() {
                    assert(less[k] == entity);
                }
            }
        }
        assert(last == entity ==> !less.contains(entity)) by {
            if last == entity && less.contains(entity) {
                let k = choose|k: int| 0 <= k < less.len() && less[k] == entity;
                assert(removed[k] == entity && removed[removed.len() - 1] == entity);
            }
        }
        let before = visibility::actions_for_hiding(rows, less, focused, display);
        let all = visibility::actions_for_hiding(rows, removed, focused, display);
        let own = all.skip(before.len() as int);
        assert(all =~= before + own);
        assert forall|row: RowView| row.entity == entity implies (
        #[trigger] outcome::after_actions(row, all, mark)) == if removed.contains(entity) {
            RowView { previous: Some(place_in_mind(rows[r], focused)), ..row }
        } else {
            row
        } by {
            outcome::lemma_after_both(row, before, own, mark);
            let so_far = outcome::after_actions(row, before, mark);
            reveal_with_fuel(outcome::after_actions, 2);
            if own.len() == 0 {
                assert(outcome::after_actions(so_far, own, mark) == so_far);
            } else {
                assert(own.drop_last() =~= Seq::<Action>::empty());
                assert(own.last() == all[before.len() as int]);
                assert(outcome::after_actions(so_far, own, mark) == outcome::after_action(
                    so_far,
                    own.last(),
                    mark,
                ));
            }
        }
    } else {
        assert(visibility::actions_for_hiding(rows, removed, focused, display) =~= Seq::<
            Action,
        >::empty());
    }
}

} // verus!
