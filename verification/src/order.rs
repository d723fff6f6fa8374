//! What every step keeps: no strip has an empty column, and no window stands in
//! two places.

use crate::detect;
use crate::moves;
use crate::moves::WindowMove;
use crate::orphans;
use crate::rows;
use crate::rows::{Display, NewStrip, PresentView, RowView};
use crate::search;
use crate::spaces;
use crate::strip;
use crate::strip::StripView;
use crate::types::{Entity, Event, WorkspaceId};
use crate::virtual_rows;
use crate::visibility;
use vstd::prelude::*;

verus! {

/// A strip in order: no empty column, and no window twice.
pub open spec fn neat(strip: StripView) -> bool {
    strip.wf() && strip.single()
}

/// No window is in two of the strips.
pub open spec fn exclusive(rows: Seq<RowView>) -> bool {
    forall|i: int, j: int, w: Entity|
        0 <= i < rows.len() && 0 <= j < rows.len() && #[trigger] rows[i].strip.contains(w)
            && #[trigger] rows[j].strip.contains(w) ==> i == j
}

/// The strips of the world in order: each of them is, no two are one entity,
/// and no window is in two of them.
pub open spec fn orderly(rows: Seq<RowView>) -> bool {
    &&& rows::distinct(rows)
    &&& forall|i: int| 0 <= i < rows.len() ==> neat((#[trigger] rows[i]).strip)
    &&& exclusive(rows)
}

/// A strip that comes into the world is in order.
pub proof fn new_strips_are_neat(new: NewStrip)
    ensures
        neat(new.contents()),
        forall|w: Entity| #[trigger] new.contents().contains(w) <==> new.window == Some(w),
{
    let strip = new.contents();
    match new.window {
        Some(window) => {
            strip.columns.lemma_flatten_one_element();
            assert(strip.windows() == seq![window]);
            assert(strip.columns[0][0] == window);
            assert(strip.columns[0].contains(window));
        },
        None => {
            assert(strip.windows() =~= Seq::<Entity>::empty());
        },
    }
}

/// A new strip keeps the world in order, if its entity is new and no strip
/// holds its window.
pub proof fn new_strips_keep_order(rows: Seq<RowView>, new: NewStrip, entity: Entity)
    requires
        orderly(rows),
        forall|i: int| 0 <= i < rows.len() ==> (#[trigger] rows[i]).entity != entity,
        forall|i: int, w: Entity|
            0 <= i < rows.len() && new.window == Some(w) ==> !(#[trigger] rows[i].strip.contains(w)),
    ensures
        orderly(rows.push(new.row(entity))),
{
    let after = rows.push(new.row(entity));
    let n = rows.len() as int;
    new_strips_are_neat(new);
    assert forall|i: int| 0 <= i < n implies (#[trigger] after[i]) == rows[i] by {}
    assert(after[n].strip == new.contents());
    assert forall|i: int, j: int, w: Entity|
        0 <= i < after.len() && 0 <= j < after.len() && #[trigger] after[i].strip.contains(w)
            && #[trigger] after[j].strip.contains(w) implies i == j by {
        if i < n && j < n {
            assert(rows[i].strip.contains(w) && rows[j].strip.contains(w));
        } else if i < n {
            assert(rows[i].strip.contains(w));
        } else if j < n {
            assert(rows[j].strip.contains(w));
        }
    }
}

/// A workspace that comes up keeps the world in order.
pub proof fn new_workspaces_keep_order(
    rows: Seq<RowView>,
    id: WorkspaceId,
    display: Display,
    entity: Entity,
)
    requires
        orderly(rows),
        forall|i: int| 0 <= i < rows.len() ==> (#[trigger] rows[i]).entity != entity,
    ensures
        orderly(rows.push(spaces::fresh_strip(id, display).row(entity))),
{
    new_strips_keep_order(rows, spaces::fresh_strip(id, display), entity);
}

/// A change of workspaces keeps the strips that were there in order. So does
/// the strip of a fullscreen window, if no strip but the one left behind held
/// the window.
pub proof fn changes_of_workspaces_keep_order(
    event: Event,
    space: Option<WorkspaceId>,
    fullscreen: bool,
    focused: Option<Entity>,
    display: Display,
    rows: Seq<RowView>,
)
    requires
        orderly(rows),
    ensures
        orderly(spaces::space_changed(event, space, fullscreen, focused, display, rows).0),
        forall|id: WorkspaceId, window: Entity, entity: Entity|
            space == Some(id) && focused == Some(window) && fullscreen
                && spaces::asks_fullscreen(event, space, rows)
                && (forall|i: int| 0 <= i < rows.len() ==> (#[trigger] rows[i]).entity != entity)
                && (forall|i: int|
                0 <= i < rows.len() && Some(i) != search::last(rows, spaces::left_behind(id))
                    ==> !(#[trigger] rows[i].strip.contains(window))) ==> orderly(
                spaces::space_changed(event, space, fullscreen, focused, display, rows).0.push(
                    (#[trigger] spaces::fullscreen_strip(
                        rows[search::last(rows, spaces::left_behind(id)).unwrap()],
                        id,
                        window,
                        display,
                    ).row(entity)),
                ),
            ),
{
    let after = spaces::space_changed(event, space, fullscreen, focused, display, rows).0;
    if let (Some(id), Some(window)) = (space, focused) {
        if fullscreen && spaces::asks_fullscreen(event, space, rows) {
            search::lemma_last(rows, spaces::left_behind(id));
            let o = search::last(rows, spaces::left_behind(id)).unwrap();
            strip::without_drops_one_window(rows[o].strip, window);
            strip::without_stays_single(rows[o].strip, window);
            assert forall|i: int, w: Entity| 0 <= i < rows.len() && #[trigger]
                after[i].strip.contains(w) implies rows[i].strip.contains(w) && (i == o ==> w
                != window) by {}
            lemma_fewer_windows_keep_order(rows, after);
            assert forall|entity: Entity|
                (forall|i: int| 0 <= i < rows.len() ==> (#[trigger] rows[i]).entity != entity) && (
                forall|i: int|
                    0 <= i < rows.len() && i != o ==> !(#[trigger] rows[i].strip.contains(
                        window,
                    ))) implies orderly(
                after.push(
                    (#[trigger] spaces::fullscreen_strip(rows[o], id, window, display).row(
                        entity,
                    )),
                ),
            ) by {
                assert forall|i: int| 0 <= i < after.len() implies (#[trigger] after[i]).entity
                    != entity by {
                    assert(after[i].entity == rows[i].entity);
                }
                new_strips_keep_order(
                    after,
                    spaces::fullscreen_strip(rows[o], id, window, display),
                    entity,
                );
            }
        }
    }
}

/// Strips that are in order, and hold no window that they did not hold before,
/// stay apart.
proof fn lemma_fewer_windows_keep_order(rows: Seq<RowView>, after: Seq<RowView>)
    requires
        orderly(rows),
        after.len() == rows.len(),
        forall|i: int|
            0 <= i < rows.len() ==> (#[trigger] after[i]).entity == rows[i].entity && neat(
                after[i].strip,
            ),
        forall|i: int, w: Entity|
            0 <= i < rows.len() && #[trigger] after[i].strip.contains(w)
                ==> rows[i].strip.contains(w),
    ensures
        orderly(after),
{
    assert forall|i: int, j: int|
        0 <= i < after.len() && 0 <= j < after.len() && i != j implies (#[trigger] after[i]).entity
        != (#[trigger] after[j]).entity by {
        assert(rows[i].entity != rows[j].entity);
    }
}

/// Moves between rows keep the world in order, if no window is sent to the
/// strip that holds it already.
pub proof fn moves_keep_order(rows: Seq<RowView>, source: int, moves: Seq<WindowMove>)
    requires
        0 <= source < rows.len(),
        orderly(rows),
        moves::distinct_windows(moves),
        forall|k: int, i: int|
            0 <= k < moves.len() && 0 <= i < rows.len() && #[trigger] rows[i].strip.contains(
                (#[trigger] moves[k]).window,
            ) ==> moves::target_entity(rows, source, moves[k]) != Some(rows[i].entity),
    ensures
        orderly(moves::rows_after_moves(rows, source, moves)),
{
    let after = moves::rows_after_moves(rows, source, moves);
    moves::moves_keep_all_but_windows(rows, source, moves);
    moves::moved_windows_are_in_their_targets_alone(rows, source, moves);
    lemma_moves_stay_neat(rows, source, moves);
    assert forall|i: int, j: int|
        0 <= i < after.len() && 0 <= j < after.len() && i != j implies (#[trigger] after[i]).entity
        != (#[trigger] after[j]).entity by {
        assert(rows[i].entity != rows[j].entity);
    }
    assert forall|i: int, j: int, w: Entity|
        0 <= i < after.len() && 0 <= j < after.len() && #[trigger] after[i].strip.contains(w)
            && #[trigger] after[j].strip.contains(w) implies i == j by {
        if exists|k: int| 0 <= k < moves.len() && (#[trigger] moves[k]).window == w {
            let k = choose|k: int| 0 <= k < moves.len() && (#[trigger] moves[k]).window == w;
            assert(after[i].strip.contains(moves[k].window));
            assert(after[j].strip.contains(moves[k].window));
            assert(rows[i].entity == rows[j].entity);
        } else {
            assert(rows[i].strip.contains(w));
            assert(rows[j].strip.contains(w));
        }
    }
}

/// No strip gets an empty column or a window twice by moves.
proof fn lemma_moves_stay_neat(rows: Seq<RowView>, source: int, moves: Seq<WindowMove>)
    requires
        0 <= source < rows.len(),
        orderly(rows),
        moves::distinct_windows(moves),
        forall|k: int, i: int|
            0 <= k < moves.len() && 0 <= i < rows.len() && #[trigger] rows[i].strip.contains(
                (#[trigger] moves[k]).window,
            ) ==> moves::target_entity(rows, source, moves[k]) != Some(rows[i].entity),
    ensures
        forall|i: int|
            0 <= i < rows.len() ==> neat(
                (#[trigger] moves::rows_after_moves(rows, source, moves)[i]).strip,
            ),
    decreases moves.len(),
{
    if moves.len() > 0 {
        let less = moves.drop_last();
        let step = moves.last();
        let last = moves.len() - 1;
        let mid = moves::rows_after_moves(rows, source, less);
        let after = moves::rows_after_moves(rows, source, moves);
        assert forall|j: int, k: int|
            0 <= j < less.len() && 0 <= k < less.len() && j != k implies (
        #[trigger] less[j]).window != (#[trigger] less[k]).window by {
            assert(moves[j].window != moves[k].window);
        }
        assert forall|k: int, i: int|
            0 <= k < less.len() && 0 <= i < rows.len() && #[trigger] rows[i].strip.contains(
                (#[trigger] less[k]).window,
            ) implies moves::target_entity(rows, source, less[k]) != Some(rows[i].entity) by {
            assert(less[k] == moves[k]);
            assert(rows[i].strip.contains(moves[k].window));
        }
        lemma_moves_stay_neat(rows, source, less);
        moves::moves_keep_all_but_windows(rows, source, less);
        moves::moved_windows_are_in_their_targets_alone(rows, source, less);
        assert forall|k: int| 0 <= k < less.len() implies (#[trigger] less[k]).window
            != step.window by {
            assert(moves[k].window != moves[last].window);
        }
        moves::lemma_target_is_stable(rows, source, less, step);
        search::lemma_first(
            rows,
            moves::row_at(
                moves::home_of(rows, source, step.window),
                step.marker.target_virtual_index,
            ),
        );
        let target = moves::target_entity(rows, source, step);
        assert(moves::entity_at(mid, moves::move_target(mid, source, step)) == target);
        assert forall|i: int| 0 <= i < rows.len() implies neat((#[trigger] after[i]).strip) by {
            assert(after[i] == moves::row_after_move(mid[i], target, step.window));
            assert(mid[i].entity == rows[i].entity);
            if target == Some(rows[i].entity) {
                assert(!rows[i].strip.contains(moves[last].window));
                assert(!mid[i].strip.contains(step.window));
                strip::appended_adds_one_window(mid[i].strip, step.window);
                lemma_appended_stays_single(mid[i].strip, step.window);
            } else {
                strip::without_drops_one_window(mid[i].strip, step.window);
                strip::without_stays_single(mid[i].strip, step.window);
            }
        }
    }
}

/// A strip to which a window is appended that it does not hold holds no window
/// twice if it did not before.
proof fn lemma_appended_stays_single(strip: StripView, window: Entity)
    requires
        strip.single(),
        !strip.contains(window),
    ensures
        strip.appended(window).single(),
{
    strip::inserted_at_stays_single(strip, strip.columns.len() as int, window);
    assert(strip.appended(window).columns =~= strip.inserted_at(
        strip.columns.len() as int,
        window,
    ).columns);
}

/// Windows that moved to a workspace keep the world in order, if the workspace
/// has no more than one strip on the active display and the windows are in no
/// strip without a display.
pub proof fn adoption_keeps_order(
    rows: Seq<RowView>,
    id: WorkspaceId,
    display: Entity,
    windows: Seq<Entity>,
)
    requires
        orderly(rows),
        forall|i: int, j: int|
            0 <= i < rows.len() && 0 <= j < rows.len() && detect::is_home(
                #[trigger] rows[i],
                id,
                display,
            ) && detect::is_home(#[trigger] rows[j], id, display) ==> i == j,
        forall|i: int, w: Entity|
            0 <= i < rows.len() && rows[i].parent is None && windows.contains(w) ==> !(
            #[trigger] rows[i].strip.contains(w)),
    ensures
        orderly(detect::rows_after_adoption(rows, id, display, windows)),
{
    let at = detect::return_index(rows, id);
    let after = detect::rows_after_adoption(rows, id, display, windows);
    assert forall|i: int| 0 <= i < rows.len() implies (#[trigger] after[i]).entity
        == rows[i].entity && neat(after[i].strip) && (forall|w: Entity| #[trigger]
        after[i].strip.contains(w) <==> if windows.contains(w) {
            detect::is_home(rows[i], id, display)
        } else {
            rows[i].strip.contains(w)
        }) by {
        assert(after[i] == detect::adopted_all(rows[i], id, display, at, windows));
        if rows[i].parent is Some {
            detect::adopted_windows_are_at_home_alone(rows[i], id, display, at, windows);
            lemma_adopted_stays_neat(rows[i], id, display, at, windows);
        } else {
            lemma_detached_is_left_alone(rows[i], id, display, at, windows);
        }
    }
    assert forall|i: int, j: int|
        0 <= i < after.len() && 0 <= j < after.len() && i != j implies (#[trigger] after[i]).entity
        != (#[trigger] after[j]).entity by {
        assert(rows[i].entity != rows[j].entity);
    }
    assert forall|i: int, j: int, w: Entity|
        0 <= i < after.len() && 0 <= j < after.len() && #[trigger] after[i].strip.contains(w)
            && #[trigger] after[j].strip.contains(w) implies i == j by {
        if !windows.contains(w) {
            assert(rows[i].strip.contains(w));
            assert(rows[j].strip.contains(w));
        }
    }
}

/// A strip without a display takes no window up.
proof fn lemma_detached_is_left_alone(
    row: RowView,
    id: WorkspaceId,
    display: Entity,
    at: Option<usize>,
    windows: Seq<Entity>,
)
    requires
        row.parent is None,
    ensures
        detect::adopted_all(row, id, display, at, windows) == row,
    decreases windows.len(),
{
    if windows.len() > 0 {
        lemma_detached_is_left_alone(row, id, display, at, windows.drop_last());
    }
}

/// A strip that takes windows up stays in order.
proof fn lemma_adopted_stays_neat(
    row: RowView,
    id: WorkspaceId,
    display: Entity,
    at: Option<usize>,
    windows: Seq<Entity>,
)
    requires
        row.parent is Some,
        neat(row.strip),
    ensures
        neat(detect::adopted_all(row, id, display, at, windows).strip),
    decreases windows.len(),
{
    if windows.len() > 0 {
        let less = windows.drop_last();
        let last = windows.last();
        lemma_adopted_stays_neat(row, id, display, at, less);
        let mid = detect::adopted_all(row, id, display, at, less);
        let rest = mid.strip.without(last);
        strip::without_drops_one_window(mid.strip, last);
        strip::without_stays_single(mid.strip, last);
        match at {
            Some(index) => {
                strip::inserted_at_adds_one_window(rest, index as int, last);
                strip::inserted_at_stays_single(rest, index as int, last);
            },
            None => {
                strip::appended_adds_one_window(rest, last);
                lemma_appended_stays_single(rest, last);
            },
        }
    }
}

/// Whether the strip in row `o` goes because its windows are in another.
pub open spec fn is_merged(
    rows: Seq<RowView>,
    o: int,
    present: Seq<PresentView>,
    displays: Seq<Display>,
) -> bool {
    orphans::fate(rows, o, present, displays) matches Some(orphans::Fate::Merged(_))
}

/// Whether one of the first `n` strips went and left `window` to row `i`.
pub open spec fn handed_over(
    rows: Seq<RowView>,
    n: int,
    present: Seq<PresentView>,
    displays: Seq<Display>,
    i: int,
    window: Entity,
) -> bool {
    exists|o: int|
        0 <= o < n && orphans::fate(rows, o, present, displays) == Some(orphans::Fate::Merged(i))
            && #[trigger] rows[o].strip.contains(window)
}

/// Where the windows are once the first `n` strips without a display are dealt
/// with: each row holds what it held and what was handed over to it.
pub proof fn orphans_hand_their_windows_over(
    rows: Seq<RowView>,
    n: int,
    present: Seq<PresentView>,
    displays: Seq<Display>,
    i: int,
)
    requires
        0 <= n <= rows.len(),
        0 <= i < rows.len(),
    ensures
        forall|w: Entity| #[trigger]
            orphans::rows_after_orphans(rows, n, present, displays)[i].strip.contains(w)
                <==> rows[i].strip.contains(w) || handed_over(rows, n, present, displays, i, w),
    decreases n,
{
    if n > 0 {
        let before = orphans::rows_after_orphans(rows, n - 1, present, displays);
        let after = orphans::rows_after_orphans(rows, n, present, displays);
        orphans_hand_their_windows_over(rows, n - 1, present, displays, i);
        orphans::orphans_keep_all_but_windows(rows, n - 1, present, displays);
        strip::windows_lists_what_the_strip_holds(rows[n - 1].strip);
        let here = orphans::fate(rows, n - 1, present, displays) == Some(
            orphans::Fate::Merged(i),
        );
        strip::appended_all_adds_windows(before[i].strip, rows[n - 1].strip.windows());
        if let Some(orphans::Fate::Merged(m)) = orphans::fate(rows, n - 1, present, displays) {
            orphans::lemma_merged_into_settled(rows, n - 1, present, displays, m);
        }
        assert forall|w: Entity| #[trigger]
            after[i].strip.contains(w) <==> rows[i].strip.contains(w) || handed_over(
                rows,
                n,
                present,
                displays,
                i,
                w,
            ) by {
            assert(after[i].strip.contains(w) <==> before[i].strip.contains(w) || (here
                && rows[n - 1].strip.windows().contains(w)));
            if handed_over(rows, n - 1, present, displays, i, w) {
                let o = choose|o: int|
                    0 <= o < n - 1 && orphans::fate(rows, o, present, displays) == Some(
                        orphans::Fate::Merged(i),
                    ) && #[trigger] rows[o].strip.contains(w);
                assert(rows[o].strip.contains(w));
            }
            if handed_over(rows, n, present, displays, i, w) {
                let o = choose|o: int|
                    0 <= o < n && orphans::fate(rows, o, present, displays) == Some(
                        orphans::Fate::Merged(i),
                    ) && #[trigger] rows[o].strip.contains(w);
                if o < n - 1 {
                    assert(rows[o].strip.contains(w));
                }
            }
        }
    }
}

/// Strips without a display are dealt with in order: what strips there are
/// afterwards are in order, and no window is in two of those that stay.
pub proof fn orphans_keep_order(
    rows: Seq<RowView>,
    present: Seq<PresentView>,
    displays: Seq<Display>,
)
    requires
        orderly(rows),
    ensures
        ({
            let after = orphans::rows_after_orphans(
                rows,
                rows.len() as int,
                present,
                displays,
            );
            &&& rows::distinct(after)
            &&& forall|i: int| 0 <= i < after.len() ==> neat((#[trigger] after[i]).strip)
            &&& forall|i: int, j: int, w: Entity|
                0 <= i < after.len() && 0 <= j < after.len() && !is_merged(
                    rows,
                    i,
                    present,
                    displays,
                ) && !is_merged(rows, j, present, displays) && #[trigger] after[i].strip.contains(w)
                    && #[trigger] after[j].strip.contains(w) ==> i == j
        }),
{
    let n = rows.len() as int;
    let after = orphans::rows_after_orphans(rows, n, present, displays);
    orphans::orphans_keep_all_but_windows(rows, n, present, displays);
    assert forall|i: int, j: int|
        0 <= i < after.len() && 0 <= j < after.len() && i != j implies (#[trigger] after[i]).entity
        != (#[trigger] after[j]).entity by {
        assert(rows[i].entity != rows[j].entity);
    }
    lemma_orphans_stay_neat(rows, n, present, displays);
    assert forall|i: int, j: int, w: Entity|
        0 <= i < after.len() && 0 <= j < after.len() && !is_merged(rows, i, present, displays)
            && !is_merged(rows, j, present, displays) && #[trigger] after[i].strip.contains(w)
            && #[trigger] after[j].strip.contains(w) implies i == j by {
        orphans_hand_their_windows_over(rows, n, present, displays, i);
        orphans_hand_their_windows_over(rows, n, present, displays, j);
        let a = if rows[i].strip.contains(w) {
            i
        } else {
            choose|o: int|
                0 <= o < n && orphans::fate(rows, o, present, displays) == Some(
                    orphans::Fate::Merged(i),
                ) && #[trigger] rows[o].strip.contains(w)
        };
        let b = if rows[j].strip.contains(w) {
            j
        } else {
            choose|o: int|
                0 <= o < n && orphans::fate(rows, o, present, displays) == Some(
                    orphans::Fate::Merged(j),
                ) && #[trigger] rows[o].strip.contains(w)
        };
        assert(rows[a].strip.contains(w) && rows[b].strip.contains(w));
        assert(a == b);
    }
}

/// No strip gets an empty column or a window twice when others leave their
/// windows to it.
proof fn lemma_orphans_stay_neat(
    rows: Seq<RowView>,
    n: int,
    present: Seq<PresentView>,
    displays: Seq<Display>,
)
    requires
        0 <= n <= rows.len(),
        orderly(rows),
    ensures
        forall|i: int|
            0 <= i < rows.len() ==> neat(
                (#[trigger] orphans::rows_after_orphans(rows, n, present, displays)[i]).strip,
            ),
    decreases n,
{
    if n > 0 {
        let before = orphans::rows_after_orphans(rows, n - 1, present, displays);
        let after = orphans::rows_after_orphans(rows, n, present, displays);
        lemma_orphans_stay_neat(rows, n - 1, present, displays);
        orphans::orphans_keep_all_but_windows(rows, n - 1, present, displays);
        if let Some(orphans::Fate::Merged(m)) = orphans::fate(rows, n - 1, present, displays) {
            orphans::lemma_merged_into_settled(rows, n - 1, present, displays, m);
            let given = rows[n - 1].strip;
            strip::windows_lists_what_the_strip_holds(given);
            orphans_hand_their_windows_over(rows, n - 1, present, displays, m);
            assert forall|w: Entity| #[trigger] given.windows().contains(w) implies !before[
                m
            ].strip.contains(w) by {
                assert(rows[n - 1].strip.contains(w));
                if rows[m].strip.contains(w) {
                    assert(m == n - 1);
                } else if before[m].strip.contains(w) {
                    let o = choose|o: int|
                        0 <= o < n - 1 && orphans::fate(rows, o, present, displays) == Some(
                            orphans::Fate::Merged(m),
                        ) && #[trigger] rows[o].strip.contains(w);
                    assert(o == n - 1);
                }
            }
            strip::appended_all_stays_single(before[m].strip, given.windows());
            let more = before[m].strip.appended_all(given.windows());
            assert forall|c: int| 0 <= c < more.columns.len() implies (
            #[trigger] more.columns[c]).len() > 0 by {
                if c < before[m].strip.columns.len() {
                    assert(more.columns[c] == before[m].strip.columns[c]);
                }
            }
        }
    }
}

/// Whether two tables have the same windows in the same strips.
pub open spec fn same_windows(a: Seq<RowView>, b: Seq<RowView>) -> bool {
    &&& a.len() == b.len()
    &&& forall|i: int|
        0 <= i < a.len() ==> (#[trigger] b[i]).entity == a[i].entity && b[i].strip.columns
            == a[i].strip.columns
}

/// Whether the world is in order hangs on the windows in the strips alone.
pub proof fn order_hangs_on_windows(a: Seq<RowView>, b: Seq<RowView>)
    requires
        same_windows(a, b),
        orderly(a),
    ensures
        orderly(b),
{
    assert forall|i: int| 0 <= i < b.len() implies neat((#[trigger] b[i]).strip) by {
        assert(neat(a[i].strip));
        let x = a[i].strip.columns;
        assert(b[i].strip.columns == x);
        assert forall|c: int| 0 <= c < x.len() implies (#[trigger] b[i].strip.columns[c]).len()
            > 0 by {
            assert(a[i].strip.columns[c].len() > 0);
        }
    }
    assert forall|i: int, j: int|
        0 <= i < b.len() && 0 <= j < b.len() && i != j implies (#[trigger] b[i]).entity != (
    #[trigger] b[j]).entity by {
        assert(a[i].entity != a[j].entity);
    }
    assert forall|i: int, w: Entity| 0 <= i < b.len() && #[trigger]
        b[i].strip.contains(w) implies a[i].strip.contains(w) by {
        let c = choose|c: int|
            0 <= c < b[i].strip.columns.len() && (#[trigger] b[i].strip.columns[c]).contains(w);
        assert(a[i].strip.columns[c].contains(w));
    }
    assert forall|i: int, j: int, w: Entity|
        0 <= i < b.len() && 0 <= j < b.len() && #[trigger] b[i].strip.contains(w)
            && #[trigger] b[j].strip.contains(w) implies i == j by {
        assert(a[i].strip.contains(w));
        assert(a[j].strip.contains(w));
    }
}

/// Tidying the rows of a workspace keeps the world in order.
pub proof fn tidying_keeps_order(rows: Seq<RowView>, id: WorkspaceId, after: Seq<RowView>)
    requires
        rows.len() <= u32::MAX,
        orderly(rows),
        virtual_rows::is_renumbering(rows, id, after),
    ensures
        orderly(after),
{
    virtual_rows::tidied_rows_are_numbered_without_gaps(rows, id, after);
    order_hangs_on_windows(rows, after);
}

/// Hiding strips and bringing one back keep the world in order.
pub proof fn hiding_and_showing_keep_order(
    rows: Seq<RowView>,
    removed: Seq<Entity>,
    activated: Entity,
    focused: Option<Entity>,
    windows: Seq<rows::WindowRow>,
    display: Display,
)
    requires
        orderly(rows),
    ensures
        orderly(visibility::rows_after_hiding(rows, removed, display)),
        orderly(visibility::shown(rows, activated, focused, windows).0),
{
    visibility::hiding_keeps_all_but_places(rows, removed, display);
    order_hangs_on_windows(rows, visibility::rows_after_hiding(rows, removed, display));
    search::lemma_first(rows, rows::row_of(activated));
    order_hangs_on_windows(rows, visibility::shown(rows, activated, focused, windows).0);
}

} // verus!
