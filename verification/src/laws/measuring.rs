//! New measurements of windows.

use crate::geometry::{Origin, Rect};
use crate::refresh;
use crate::refresh::RefreshRequest;
use crate::rows;
use crate::rows::{Action, RowView, StripRow, Unmanaged, WindowRow};
use crate::search;
use crate::types::{Entity, WinID};
use vstd::prelude::*;

verus! {

/// Whether row `r` is the one active row whose windows are to be measured, and the
/// wait for it is over.
pub open spec fn is_row_to_measure(rows: Seq<RowView>, r: int) -> bool {
    &&& 0 <= r < rows.len()
    &&& rows[r].active
    &&& rows[r].refresh is Some
    &&& rows[r].refresh.unwrap().ready
    &&& forall|j: int|
        0 <= j < rows.len() && j != r ==> !((#[trigger] rows[j]).active && rows[j].refresh is Some)
}

/// Whether window `k` of a list was measured and is row `w` of the world.
pub open spec fn is_measured_as(
    windows: Seq<WindowRow>,
    strip: Seq<Entity>,
    frames: Seq<Option<Rect>>,
    k: int,
    w: int,
) -> bool {
    &&& 0 <= k < strip.len()
    &&& frames[k] is Some
    &&& 0 <= w < windows.len()
    &&& windows[w].entity == strip[k]
    &&& forall|j: int| 0 <= j < w ==> (#[trigger] windows[j]).entity != strip[k]
}

proof fn lemma_row_to_measure(rows: Seq<RowView>, r: int)
    ensures
        is_row_to_measure(rows, r) ==> refresh::refresh_row(rows) == Some(r),
        (forall|q: int| !#[trigger] is_row_to_measure(rows, q)) ==> refresh::refresh_row(
            rows,
        ) is None,
{
    let p = refresh::asks_refresh();
    search::lemma_first(rows, p);
    search::lemma_last(rows, p);
    if is_row_to_measure(rows, r) {
        assert forall|j: int| 0 <= j < rows.len() && j != r implies !p(rows[j]) by {}
        assert(p(rows[r]));
        search::lemma_first_is(rows, p, r);
        match search::last(rows, p) {
            Some(k) => {
                assert(p(rows[k]));
            },
            None => {
                assert(!p(rows[r]));
            },
        }
    }
    if let Some(q) = refresh::refresh_row(rows) {
        assert(p(rows[q]));
        assert forall|j: int| 0 <= j < rows.len() && j != q implies !((
        #[trigger] rows[j]).active && rows[j].refresh is Some) by {
            assert(!p(rows[j]));
        }
        assert(is_row_to_measure(rows, q));
    }
}

/// The windows of the one active row that asks for it, once its wait is over, are to
/// be measured, and those of its workspace to be listed; if there is no such row, or
/// more than one row asks, none are.
pub proof fn one_row_is_measured_at_a_time(
    rows: &Vec<StripRow>,
    request: Option<RefreshRequest>,
    r: int,
)
    requires
        call_ensures(refresh::refresh_request, (rows,), request),
    ensures
        is_row_to_measure(rows.deep_view(), r) ==> (request matches Some(asked)
            && asked.workspace_id == rows.deep_view()[r].strip.id && asked.windows@
            == rows.deep_view()[r].strip.columns.flatten()),
        (forall|q: int| !#[trigger] is_row_to_measure(rows.deep_view(), q)) ==> request is None,
{
    lemma_row_to_measure(rows.deep_view(), r);
}

proof fn lemma_sizes(
    windows: Seq<WindowRow>,
    strip: Seq<Entity>,
    frames: Seq<Option<Rect>>,
    n: int,
    w: int,
)
    requires
        0 <= n <= strip.len(),
        0 <= w < windows.len(),
    ensures
        refresh::resized(windows, strip, frames, n).len() == windows.len(),
        forall|k: int|
            k < n && #[trigger] is_measured_as(windows, strip, frames, k, w) && (forall|j: int|
                k < j < n ==> !#[trigger] is_measured_as(windows, strip, frames, j, w))
                ==> refresh::resized(windows, strip, frames, n)[w] == (WindowRow {
                bounds: frames[k].unwrap().extent(),
                ..windows[w]
            }),
        (forall|k: int| k < n ==> !#[trigger] is_measured_as(windows, strip, frames, k, w))
            ==> refresh::resized(windows, strip, frames, n)[w] == windows[w],
    decreases n,
{
    if n > 0 {
        lemma_sizes(windows, strip, frames, n - 1, w);
        let before = refresh::resized(windows, strip, frames, n - 1);
        let after = refresh::resized(windows, strip, frames, n);
        let p = rows::window_of(strip[n - 1]);
        search::lemma_first(windows, p);
        let last = is_measured_as(windows, strip, frames, n - 1, w);
        if last {
            assert forall|j: int| 0 <= j < w implies !p(windows[j]) by {}
            search::lemma_first_is(windows, p, w);
        } else if frames[n - 1] is Some && search::first(windows, p) == Some(w) {
            assert(p(windows[w]));
            assert forall|j: int| 0 <= j < w implies (#[trigger] windows[j]).entity != strip[n
                - 1] by {
                assert(!p(windows[j]));
            }
        }
        lemma_only_size(windows, strip, frames, n - 1, w);
        assert forall|k: int|
            k < n && #[trigger] is_measured_as(windows, strip, frames, k, w) && (forall|j: int|
                k < j < n ==> !#[trigger] is_measured_as(
                    windows,
                    strip,
                    frames,
                    j,
                    w,
                )) implies after[w] == (WindowRow {
            bounds: frames[k].unwrap().extent(),
            ..windows[w]
        }) by {
            if k < n - 1 {
                assert(!is_measured_as(windows, strip, frames, n - 1, w));
                assert(after[w] == before[w]);
            }
        }
    }
}

proof fn lemma_only_size(
    windows: Seq<WindowRow>,
    strip: Seq<Entity>,
    frames: Seq<Option<Rect>>,
    n: int,
    w: int,
)
    requires
        0 <= w < windows.len(),
    ensures
        refresh::resized(windows, strip, frames, n).len() == windows.len(),
        refresh::resized(windows, strip, frames, n)[w] == (WindowRow {
            bounds: refresh::resized(windows, strip, frames, n)[w].bounds,
            ..windows[w]
        }),
    decreases n,
{
    if n > 0 {
        lemma_only_size(windows, strip, frames, n - 1, w);
        let p = rows::window_of(strip[n - 1]);
        search::lemma_first(windows, p);
    }
}

/// A window of the strip that was measured has the width and the height of its frame
/// from then on, those of the last frame if it stands in the strip more than once. A
/// window that was not measured keeps its size, and nothing but sizes changes.
pub proof fn windows_have_the_size_that_was_measured(
    listed: Vec<WinID>,
    frames: &Vec<Option<Rect>>,
    origin: Origin,
    rows: &Vec<StripRow>,
    windows: &mut Vec<WindowRow>,
    actions: Vec<Action>,
    r: int,
    k: int,
    w: int,
)
    requires
        call_ensures(
            refresh::refresh_workspace_window_sizes,
            (listed, frames, origin, rows, windows),
            actions,
        ),
        0 <= w < old(windows).len(),
        is_row_to_measure(rows.deep_view(), r),
    ensures
        ({
            let strip = rows.deep_view()[r].strip.columns.flatten();
            let a = old(windows)@[w];
            let b = final(windows)@[w];
            &&& final(windows).len() == old(windows).len()
            &&& b.entity == a.entity
            &&& b.id == a.id
            &&& b.unmanaged == a.unmanaged
            &&& b.psn == a.psn
            &&& is_measured_as(old(windows)@, strip, frames@, k, w) && frames@[k].unwrap().measurable()
                && (forall|j: int|
                k < j ==> !#[trigger] is_measured_as(old(windows)@, strip, frames@, j, w))
                ==> b.bounds.x == frames@[k].unwrap().max.x - frames@[k].unwrap().min.x
                && b.bounds.y == frames@[k].unwrap().max.y - frames@[k].unwrap().min.y
            &&& (forall|j: int| !#[trigger] is_measured_as(old(windows)@, strip, frames@, j, w))
                ==> b.bounds == a.bounds
        }),
{
    let strip = rows.deep_view()[r].strip.windows();
    let n = strip.len() as int;
    lemma_row_to_measure(rows.deep_view(), r);
    lemma_sizes(old(windows)@, strip, frames@, n, w);
    lemma_only_size(old(windows)@, strip, frames@, n, w);
}

/// While no row is to be measured, nothing happens.
pub proof fn nothing_is_measured_before_its_time(
    listed: Vec<WinID>,
    frames: &Vec<Option<Rect>>,
    origin: Origin,
    rows: &Vec<StripRow>,
    windows: &mut Vec<WindowRow>,
    actions: Vec<Action>,
)
    requires
        call_ensures(
            refresh::refresh_workspace_window_sizes,
            (listed, frames, origin, rows, windows),
            actions,
        ),
        forall|q: int| !#[trigger] is_row_to_measure(rows.deep_view(), q),
    ensures
        final(windows)@ == old(windows)@,
        actions.len() == 0,
{
    lemma_row_to_measure(rows.deep_view(), 0);
}

/// Whether row `w` is the first that the window server knows by an identifier.
pub open spec fn is_known_as(windows: Seq<WindowRow>, id: WinID, w: int) -> bool {
    &&& 0 <= w < windows.len()
    &&& windows[w].id == id
    &&& forall|j: int| 0 <= j < w ==> (#[trigger] windows[j]).id != id
}

/// Whether a window that was measured goes by an identifier.
pub open spec fn is_measured_id(
    windows: Seq<WindowRow>,
    strip: Seq<Entity>,
    frames: Seq<Option<Rect>>,
    id: WinID,
) -> bool {
    exists|k: int, w: int| #[trigger]
        is_measured_as(windows, strip, frames, k, w) && windows[w].id == id
}

proof fn lemma_measured_id(
    windows: Seq<WindowRow>,
    strip: Seq<Entity>,
    frames: Seq<Option<Rect>>,
    id: WinID,
)
    ensures
        refresh::unmeasured(windows, strip, frames, strip.len() as int)(id) == !is_measured_id(
            windows,
            strip,
            frames,
            id,
        ),
{
    let n = strip.len() as int;
    if is_measured_id(windows, strip, frames, id) {
        let (k, w) = choose|k: int, w: int| #[trigger]
            is_measured_as(windows, strip, frames, k, w) && windows[w].id == id;
        let p = rows::window_of(strip[k]);
        assert forall|j: int| 0 <= j < w implies !p(windows[j]) by {}
        search::lemma_first_is(windows, p, w);
        assert(refresh::is_measured(windows, strip, frames, k));
    }
    if !refresh::unmeasured(windows, strip, frames, n)(id) {
        let k = choose|k: int|
            0 <= k < n && #[trigger] refresh::is_measured(windows, strip, frames, k)
                && windows[search::first(windows, rows::window_of(strip[k])).unwrap()].id == id;
        let p = rows::window_of(strip[k]);
        search::lemma_first(windows, p);
        let w = search::first(windows, p).unwrap();
        assert(p(windows[w]));
        assert forall|j: int| 0 <= j < w implies (#[trigger] windows[j]).entity != strip[k] by {
            assert(!p(windows[j]));
        }
        assert(is_measured_as(windows, strip, frames, k, w));
    }
}

/// What one more window at the end of the list adds: it is brought to the given place
/// if the first window that goes by its identifier floats and no window that goes by
/// it was measured. At the end the row asks for measurements no more.
pub proof fn floating_windows_are_brought_along(
    listed: Vec<WinID>,
    more: Vec<WinID>,
    id: WinID,
    frames: &Vec<Option<Rect>>,
    origin: Origin,
    rows: &Vec<StripRow>,
    windows: &mut Vec<WindowRow>,
    others: &mut Vec<WindowRow>,
    before: Vec<Action>,
    after: Vec<Action>,
    r: int,
    w: int,
)
    requires
        more@ == listed@.push(id),
        old(windows)@ == old(others)@,
        call_ensures(
            refresh::refresh_workspace_window_sizes,
            (listed, frames, origin, rows, windows),
            before,
        ),
        call_ensures(
            refresh::refresh_workspace_window_sizes,
            (more, frames, origin, rows, others),
            after,
        ),
        is_row_to_measure(rows.deep_view(), r),
    ensures
        ({
            let strip = rows.deep_view()[r].strip.columns.flatten();
            let told = Action::RemoveRefresh(rows.deep_view()[r].entity);
            let measured = is_measured_id(old(windows)@, strip, frames@, id);
            let unknown = forall|j: int|
                0 <= j < old(windows).len() ==> (#[trigger] old(windows)@[j]).id != id;
            &&& before.len() > 0 && before@.last() == told
            &&& listed.len() == 0 ==> before@ == seq![told]
            &&& measured || unknown ==> after@ == before@
            &&& is_known_as(old(windows)@, id, w) && !measured ==> after@ == if old(windows)@[w].unmanaged
                == Some(Unmanaged::Floating) {
                before@.drop_last().push(Action::Reposition(old(windows)@[w].entity, origin)).push(
                    told,
                )
            } else {
                before@
            }
        }),
{
    let table = old(windows)@;
    let strip = rows.deep_view()[r].strip.windows();
    let n = strip.len() as int;
    let told = Action::RemoveRefresh(rows.deep_view()[r].entity);
    lemma_row_to_measure(rows.deep_view(), r);
    lemma_measured_id(table, strip, frames@, id);
    let p = refresh::unmeasured(table, strip, frames@, n);
    let q = refresh::floats(table);
    let rest = listed@.filter(p);
    let act = |id: WinID| Action::Reposition(refresh::entity_with_id(table, id), origin);
    search::lemma_filter_push(listed@, id, p);
    search::lemma_filter_push(rest, id, q);
    assert(rest.filter(q).push(id).map_values(act) =~= rest.filter(q).map_values(act).push(
        Action::Reposition(refresh::entity_with_id(table, id), origin),
    ));
    let named = rows::window_with_id(id);
    if is_known_as(table, id, w) {
        assert forall|j: int| 0 <= j < w implies !named(table[j]) by {}
        search::lemma_first_is(table, named, w);
    }
    if forall|j: int| 0 <= j < table.len() ==> (#[trigger] table[j]).id != id {
        assert forall|j: int| 0 <= j < table.len() implies !named(table[j]) by {}
        search::lemma_first_none(table, named);
    }
    assert(before@.drop_last() =~= refresh::repositions(table, rest, origin));
    if listed.len() == 0 {
        search::lemma_filter_is_short(listed@, p);
        search::lemma_filter_is_short(rest, q);
        assert(before@ =~= seq![told]);
    }
}

} // verus!
