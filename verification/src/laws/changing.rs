//! Workspaces that come, go and change places.

use crate::rows;
use crate::rows::{Action, Display, NativeFullscreenMarker, NewStrip, RowView, StripRow, Target};
use crate::search;
use crate::spaces;
use crate::strip;
use crate::types::{Entity, Event, WorkspaceId};
use vstd::prelude::*;

verus! {

/// Whether row `i` is the last selected row of a workspace that is not active, or
/// nothing if there is none.
pub open spec fn is_last_selected(rows: Seq<RowView>, id: WorkspaceId, i: Option<int>) -> bool {
    match i {
        Some(i) => {
            &&& 0 <= i < rows.len()
            &&& rows[i].selected && !rows[i].active && rows[i].strip.id == id
            &&& forall|j: int|
                i < j < rows.len() ==> !((#[trigger] rows[j]).selected && !rows[j].active
                    && rows[j].strip.id == id)
        },
        None => forall|j: int|
            0 <= j < rows.len() ==> !((#[trigger] rows[j]).selected && !rows[j].active
                && rows[j].strip.id == id),
    }
}

/// Whether row `o` is the last active one of another workspace, or nothing if there
/// is none.
pub open spec fn is_last_elsewhere(rows: Seq<RowView>, id: WorkspaceId, o: Option<int>) -> bool {
    match o {
        Some(o) => {
            &&& 0 <= o < rows.len()
            &&& rows[o].active && rows[o].strip.id != id
            &&& forall|j: int|
                o < j < rows.len() ==> !((#[trigger] rows[j]).active && rows[j].strip.id != id)
        },
        None => forall|j: int|
            0 <= j < rows.len() ==> !((#[trigger] rows[j]).active && rows[j].strip.id != id),
    }
}

proof fn lemma_awaiting(rows: Seq<RowView>, id: WorkspaceId, i: Option<int>)
    requires
        is_last_selected(rows, id, i),
    ensures
        search::last(rows, spaces::awaiting(id)) == i,
{
    let p = spaces::awaiting(id);
    search::lemma_last(rows, p);
    match search::last(rows, p) {
        Some(k) => {
            assert(p(rows[k]));
            assert(rows[k].selected && !rows[k].active && rows[k].strip.id == id);
        },
        None => {
            if let Some(k) = i {
                assert(!p(rows[k]));
            }
        },
    }
    if let (Some(a), Some(b)) = (i, search::last(rows, p)) {
        assert(p(rows[a]));
        if b < a {
            assert(!p(rows[a]));
        }
    }
}

proof fn lemma_left_behind(rows: Seq<RowView>, id: WorkspaceId, o: Option<int>)
    requires
        is_last_elsewhere(rows, id, o),
    ensures
        search::last(rows, spaces::left_behind(id)) == o,
{
    let p = spaces::left_behind(id);
    search::lemma_last(rows, p);
    match search::last(rows, p) {
        Some(k) => {
            assert(p(rows[k]));
            assert(rows[k].active && rows[k].strip.id != id);
        },
        None => {
            if let Some(k) = o {
                assert(!p(rows[k]));
            }
        },
    }
    if let (Some(a), Some(b)) = (o, search::last(rows, p)) {
        assert(p(rows[a]));
        if b < a {
            assert(!p(rows[a]));
        }
    }
}

/// When the display shows another workspace, the row that is selected there comes
/// up, the last of them if there are several; no window moves, and whether the
/// workspace is a fullscreen one makes no difference.
pub proof fn the_selected_row_comes_up(
    id: WorkspaceId,
    fullscreen: bool,
    focused: Option<Entity>,
    display: Display,
    rows: Seq<RowView>,
    i: int,
)
    requires
        is_last_selected(rows, id, Some(i)),
    ensures
        ({
            let (after, actions) = spaces::space_changed(
                Event::SpaceChanged,
                Some(id),
                fullscreen,
                focused,
                display,
                rows,
            );
            &&& after == rows
            &&& actions == seq![
                Action::InsertActive(Target::Strip(rows[i].entity)),
                Action::InsertSelected(Target::Strip(rows[i].entity)),
            ]
        }),
        !spaces::asks_fullscreen(Event::SpaceChanged, Some(id), rows),
{
    lemma_awaiting(rows, id, Some(i));
}

/// No strip is made active by a change of workspaces but one that was selected in
/// the workspace that is shown, or one that is only just made.
pub proof fn only_selected_rows_come_up(
    event: Event,
    space: Option<WorkspaceId>,
    fullscreen: bool,
    focused: Option<Entity>,
    display: Display,
    rows: Seq<RowView>,
    entity: Entity,
)
    requires
        spaces::space_changed(event, space, fullscreen, focused, display, rows).1.contains(
            Action::InsertActive(Target::Strip(entity)),
        ),
    ensures
        event is SpaceChanged,
        exists|i: int|
            0 <= i < rows.len() && (#[trigger] rows[i]).entity == entity && rows[i].selected
                && !rows[i].active && space == Some(rows[i].strip.id),
{
    let actions = spaces::space_changed(event, space, fullscreen, focused, display, rows).1;
    let k = choose|k: int|
        0 <= k < actions.len() && actions[k] == Action::InsertActive(Target::Strip(entity));
    assert(actions[k] == Action::InsertActive(Target::Strip(entity)));
    let id = space.unwrap();
    let p = spaces::awaiting(id);
    search::lemma_last(rows, p);
    match search::last(rows, p) {
        Some(i) => {
            assert(p(rows[i]));
            assert(rows[i].entity == entity);
        },
        None => {},
    }
}

/// When the display shows a fullscreen workspace that has no selected row, the
/// window that has focus leaves the last active strip of another workspace for a
/// strip of its own, which becomes active. That strip keeps in mind which
/// workspace the window came from, and which column: the first that held it, or
/// the leftmost if none did.
pub proof fn a_fullscreen_window_gets_a_strip(
    id: WorkspaceId,
    window: Entity,
    display: Display,
    rows: Seq<RowView>,
    o: int,
    c: int,
)
    requires
        is_last_selected(rows, id, None),
        is_last_elsewhere(rows, id, Some(o)),
        rows[o].strip.columns.len() <= usize::MAX,
        (0 <= c < rows[o].strip.columns.len() && rows[o].strip.columns[c].contains(window) && forall|
            b: int,
        |
            0 <= b < c ==> !(#[trigger] rows[o].strip.columns[b]).contains(window)) || (c == 0
            && forall|b: int|
            0 <= b < rows[o].strip.columns.len() ==> !(
            #[trigger] rows[o].strip.columns[b]).contains(window)),
    ensures
        spaces::asks_fullscreen(Event::SpaceChanged, Some(id), rows),
        ({
            let (after, actions) = spaces::space_changed(
                Event::SpaceChanged,
                Some(id),
                true,
                Some(window),
                display,
                rows,
            );
            &&& after == rows.update(o, RowView { strip: after[o].strip, ..rows[o] })
            &&& after[o].strip.id == rows[o].strip.id
            &&& after[o].strip.virtual_index == rows[o].strip.virtual_index
            &&& after[o].strip.columns == rows[o].strip.without(window).columns
            &&& after[o].strip.columns.flatten() == rows[o].strip.columns.flatten().filter(
                |w: Entity| w != window,
            )
            &&& actions == seq![
                Action::Spawn(
                    NewStrip {
                        id,
                        virtual_index: 0,
                        window: Some(window),
                        position: display.bounds.min,
                        parent: display.entity,
                        selected: false,
                        fullscreen: Some(
                            NativeFullscreenMarker {
                                previous_strip: rows[o].strip.id,
                                previous_index: c as usize,
                            },
                        ),
                        previous: None,
                    },
                ),
                Action::InsertActive(Target::Spawned),
                Action::InsertSelected(Target::Spawned),
            ]
        }),
{
    lemma_awaiting(rows, id, None);
    lemma_left_behind(rows, id, Some(o));
    let strip = rows[o].strip;
    strip::without_keeps_the_order(strip, window);
    assert(strip::other_than(window) =~= (|w: Entity| w != window));
    let h = strip::holding(window);
    search::lemma_first(strip.columns, h);
    if 0 <= c < strip.columns.len() && strip.columns[c].contains(window) {
        assert forall|b: int| 0 <= b < c implies !h(strip.columns[b]) by {
            assert(!strip.columns[b].contains(window));
        }
        search::lemma_first_is(strip.columns, h, c);
    } else {
        assert forall|b: int| 0 <= b < strip.columns.len() implies !h(strip.columns[b]) by {
            assert(!strip.columns[b].contains(window));
        }
        search::lemma_first_none(strip.columns, h);
    }
    let (after, actions) = spaces::space_changed(
        Event::SpaceChanged,
        Some(id),
        true,
        Some(window),
        display,
        rows,
    );
    assert(after =~= rows.update(o, RowView { strip: after[o].strip, ..rows[o] }));
    assert(actions =~= seq![
        Action::Spawn(spaces::fullscreen_strip(rows[o], id, window, display)),
        Action::InsertActive(Target::Spawned),
        Action::InsertSelected(Target::Spawned),
    ]);
}

/// In all other cases a change of workspaces changes nothing: some other event, no
/// workspace to be found out, or no selected row and one of these: no active strip
/// elsewhere, no fullscreen workspace, no focus.
pub proof fn other_changes_do_nothing(
    event: Event,
    space: Option<WorkspaceId>,
    fullscreen: bool,
    focused: Option<Entity>,
    display: Display,
    rows: Seq<RowView>,
)
    requires
        event != Event::SpaceChanged || space is None || (is_last_selected(
            rows,
            space.unwrap(),
            None,
        ) && (!fullscreen || focused is None || is_last_elsewhere(rows, space.unwrap(), None))),
    ensures
        spaces::space_changed(event, space, fullscreen, focused, display, rows) == (
            rows,
            Seq::<Action>::empty(),
        ),
        event != Event::SpaceChanged || space is None || is_last_elsewhere(
            rows,
            space.unwrap(),
            None,
        ) ==> !spaces::asks_fullscreen(event, space, rows),
{
    if let (Event::SpaceChanged, Some(id)) = (event, space) {
        lemma_awaiting(rows, id, None);
        if is_last_elsewhere(rows, id, None) {
            lemma_left_behind(rows, id, None);
        }
    }
}

/// The end of a workspace takes away its first strip and no other.
pub proof fn the_end_of_a_workspace_takes_its_first_strip(
    id: WorkspaceId,
    rows: Seq<RowView>,
    i: int,
)
    requires
        0 <= i < rows.len(),
        forall|j: int| 0 <= j < i ==> (#[trigger] rows[j]).strip.id != id,
    ensures
        rows[i].strip.id == id ==> spaces::space_destroyed(
            Event::SpaceDestroyed { space_id: id },
            rows,
        ) == seq![Action::Despawn(rows[i].entity)],
        rows[i].strip.id != id && i == rows.len() - 1 ==> spaces::space_destroyed(
            Event::SpaceDestroyed { space_id: id },
            rows,
        ) == Seq::<Action>::empty(),
{
    let p = rows::of_space(id);
    assert forall|j: int| 0 <= j < i implies !p(rows[j]) by {}
    if rows[i].strip.id == id {
        search::lemma_first_is(rows, p, i);
    } else if i == rows.len() - 1 {
        search::lemma_first_none(rows, p);
    }
}

/// A workspace that comes up gets an empty strip in the first row, on the active
/// display and at its upper left corner, if and only if it has no strip yet.
pub proof fn a_new_workspace_gets_one_empty_strip(
    id: WorkspaceId,
    display: Display,
    rows: Seq<RowView>,
)
    ensures
        (forall|j: int| 0 <= j < rows.len() ==> (#[trigger] rows[j]).strip.id != id)
            ==> spaces::space_created(Event::SpaceCreated { space_id: id }, display, rows) == seq![
            Action::Spawn(
                NewStrip {
                    id,
                    virtual_index: 0,
                    window: None,
                    position: display.bounds.min,
                    parent: display.entity,
                    selected: false,
                    fullscreen: None,
                    previous: None,
                },
            ),
        ],
        (exists|j: int| 0 <= j < rows.len() && (#[trigger] rows[j]).strip.id == id)
            ==> spaces::space_created(Event::SpaceCreated { space_id: id }, display, rows) == Seq::<
            Action,
        >::empty(),
{
    let p = rows::of_space(id);
    search::lemma_first(rows, p);
    if exists|j: int| 0 <= j < rows.len() && (#[trigger] rows[j]).strip.id == id {
        let j = choose|j: int| 0 <= j < rows.len() && (#[trigger] rows[j]).strip.id == id;
        assert(p(rows[j]));
    } else if search::first(rows, p) is Some {
        assert(p(rows[search::first(rows, p).unwrap()]));
    }
}

/// Strips are made and taken away for the events that say so and for no others.
pub proof fn other_events_make_and_take_no_strips(
    event: Event,
    display: Display,
    rows: Seq<RowView>,
)
    ensures
        !(event matches Event::SpaceDestroyed { .. }) || rows.len() == 0
            ==> spaces::space_destroyed(event, rows) == Seq::<Action>::empty(),
        !(event matches Event::SpaceCreated { .. }) ==> spaces::space_created(event, display, rows)
            == Seq::<Action>::empty(),
{
}

/// The watcher tells of a workspace that is not the one seen last, and keeps it in
/// mind; it says nothing and keeps what it has if the workspace is the same or
/// could not be found out.
pub proof fn the_watcher_tells_of_changes(current: WorkspaceId, id: WorkspaceId)
    ensures
        spaces::watched(None, current) == (current, Seq::<Action>::empty()),
        spaces::watched(Some(current), current) == (current, Seq::<Action>::empty()),
        id != current ==> spaces::watched(Some(id), current) == (
            id,
            seq![Action::Trigger(Event::SpaceChanged)],
        ),
{
}

/// When the display shows another workspace, a call brings up the row that is selected
/// there and nothing else.
pub proof fn a_change_brings_up_the_selected_row(
    id: WorkspaceId,
    fullscreen: bool,
    focused: Option<Entity>,
    display: &Display,
    rows: &mut Vec<StripRow>,
    actions: Vec<Action>,
    asks: bool,
    i: int,
)
    requires
        call_ensures(
            spaces::workspace_change_trigger,
            (&Event::SpaceChanged, Some(id), fullscreen, focused, display, rows),
            actions,
        ),
        call_ensures(
            spaces::workspace_change_asks_fullscreen,
            (&Event::SpaceChanged, Some(id), &*old(rows)),
            asks,
        ),
        is_last_selected(old(rows).deep_view(), id, Some(i)),
    ensures
        final(rows).deep_view() == old(rows).deep_view(),
        actions@ == seq![
            Action::InsertActive(Target::Strip(old(rows).deep_view()[i].entity)),
            Action::InsertSelected(Target::Strip(old(rows).deep_view()[i].entity)),
        ],
        !asks,
{
    the_selected_row_comes_up(id, fullscreen, focused, *display, old(rows).deep_view(), i);
}

/// A change of workspaces is answered by the rows and actions that it calls for.
pub proof fn changes_are_answered(
    event: &Event,
    space: Option<WorkspaceId>,
    fullscreen: bool,
    focused: Option<Entity>,
    display: &Display,
    rows: &mut Vec<StripRow>,
    actions: Vec<Action>,
    asks: bool,
)
    requires
        call_ensures(
            spaces::workspace_change_trigger,
            (event, space, fullscreen, focused, display, rows),
            actions,
        ),
        call_ensures(
            spaces::workspace_change_asks_fullscreen,
            (event, space, &*old(rows)),
            asks,
        ),
    ensures
        ({
            let table = old(rows).deep_view();
            &&& (final(rows).deep_view(), actions@) == spaces::space_changed(
                *event,
                space,
                fullscreen,
                focused,
                *display,
                table,
            )
            &&& asks == spaces::asks_fullscreen(*event, space, table)
            &&& asks <==> *event == Event::SpaceChanged && space is Some && is_last_selected(
                table,
                space.unwrap(),
                None,
            ) && !is_last_elsewhere(table, space.unwrap(), None)
        }),
{
    let table = old(rows).deep_view();
    if let (Event::SpaceChanged, Some(id)) = (*event, space) {
        let p = spaces::awaiting(id);
        let q = spaces::left_behind(id);
        search::lemma_last(table, p);
        search::lemma_last(table, q);
        assert forall|j: int| 0 <= j < table.len() implies p(table[j]) == ((
        #[trigger] table[j]).selected && !table[j].active && table[j].strip.id == id) && q(table[j])
            == (table[j].active && table[j].strip.id != id) by {}
    }
}

/// The ends and beginnings of workspaces are answered by the strips that they take and
/// make, and what the watcher sees is told.
pub proof fn ends_and_beginnings_are_answered(
    event: &Event,
    display: &Display,
    rows: &Vec<StripRow>,
    destroyed: Vec<Action>,
    created: Vec<Action>,
    space: Option<WorkspaceId>,
    current: &mut WorkspaceId,
    told: Vec<Action>,
)
    requires
        call_ensures(spaces::workspace_destroyed_trigger, (event, rows), destroyed),
        call_ensures(spaces::workspace_created_trigger, (event, display, rows), created),
        call_ensures(spaces::workspace_change_watcher, (space, current), told),
    ensures
        destroyed@ == spaces::space_destroyed(*event, rows.deep_view()),
        created@ == spaces::space_created(*event, *display, rows.deep_view()),
        space is None ==> *final(current) == *old(current) && told.len() == 0,
        space matches Some(id) ==> *final(current) == id,
        space == Some(*old(current)) ==> told.len() == 0,
        space is Some && space != Some(*old(current)) ==> told@ == seq![
            Action::Trigger(Event::SpaceChanged),
        ],
{
}

} // verus!
