//! Workspaces that come, go and change places.

use crate::rows;
use crate::rows::{Action, Display, NativeFullscreenMarker, NewStrip, RowView, StripRow, Target};
use crate::search;
use crate::strip;
use crate::strip::StripView;
use crate::types::{Entity, Event, WorkspaceId};
use vstd::prelude::*;

verus! {

/// Picks the active rows of other workspaces than `id`.
pub open spec fn left_behind(id: WorkspaceId) -> spec_fn(RowView) -> bool {
    |row: RowView| row.active && row.strip.id != id
}

/// Picks the selected rows of workspace `id` that are not active.
pub open spec fn awaiting(id: WorkspaceId) -> spec_fn(RowView) -> bool {
    |row: RowView| !row.active && row.strip.id == id && row.selected
}

/// What makes a strip the active and selected one.
pub open spec fn activation(target: Target) -> Seq<Action> {
    seq![Action::InsertActive(target), Action::InsertSelected(target)]
}

/// The strip of a workspace that `window`, once in `row`, fills.
pub open spec fn fullscreen_strip(
    row: RowView,
    id: WorkspaceId,
    window: Entity,
    display: Display,
) -> NewStrip {
    NewStrip {
        id,
        virtual_index: 0,
        window: Some(window),
        position: display.bounds.min,
        parent: display.entity,
        selected: false,
        fullscreen: Some(
            NativeFullscreenMarker {
                previous_strip: row.strip.id,
                previous_index: match row.strip.column_of(window) {
                    Some(i) => i as usize,
                    None => 0,
                },
            },
        ),
        previous: None,
    }
}

/// Whether the answer to a change of workspaces hangs on whether the active
/// display shows a fullscreen workspace: some row is left behind, and none
/// awaits.
pub open spec fn asks_fullscreen(
    event: Event,
    space: Option<WorkspaceId>,
    rows: Seq<RowView>,
) -> bool {
    event is SpaceChanged && match space {
        Some(id) => search::last(rows, awaiting(id)) is None && search::last(
            rows,
            left_behind(id),
        ) is Some,
        None => false,
    }
}

/// The rows and the actions after a change of workspaces. The last row that
/// awaits becomes active. Where none does, a row is left behind, the workspace
/// is a fullscreen one and a window has focus, that window moves to a strip of
/// its own, which becomes active.
pub open spec fn space_changed(
    event: Event,
    space: Option<WorkspaceId>,
    fullscreen: bool,
    focused: Option<Entity>,
    display: Display,
    rows: Seq<RowView>,
) -> (Seq<RowView>, Seq<Action>) {
    match (event, space) {
        (Event::SpaceChanged, Some(id)) => match search::last(rows, awaiting(id)) {
            Some(i) => (rows, activation(Target::Strip(rows[i].entity))),
            None => match (search::last(rows, left_behind(id)), focused) {
                (Some(o), Some(window)) if fullscreen => (
                    rows.update(o, rows[o].with_strip(rows[o].strip.without(window))),
                    seq![Action::Spawn(fullscreen_strip(rows[o], id, window, display))]
                        + activation(Target::Spawned),
                ),
                _ => (rows, Seq::empty()),
            },
        },
        _ => (rows, Seq::empty()),
    }
}

/// The rows that a change to workspace `id` leaves behind and brings up.
fn survey(rows: &Vec<StripRow>, id: WorkspaceId) -> (found: (Option<usize>, Option<usize>))
    ensures
        match search::last(rows.deep_view(), left_behind(id)) {
            Some(i) => found.0 == Some(i as usize) && 0 <= i < rows.len(),
            None => found.0 is None,
        },
        match search::last(rows.deep_view(), awaiting(id)) {
            Some(i) => found.1 == Some(i as usize) && 0 <= i < rows.len(),
            None => found.1 is None,
        },
{
    let mut remove_from: Option<usize> = None;
    let mut insert_into: Option<usize> = None;
    let ghost table = rows.deep_view();
    for i in 0..rows.len()
        invariant
            table == rows.deep_view(),
            match search::last(table.take(i as int), left_behind(id)) {
                Some(k) => remove_from == Some(k as usize) && 0 <= k < i,
                None => remove_from is None,
            },
            match search::last(table.take(i as int), awaiting(id)) {
                Some(k) => insert_into == Some(k as usize) && 0 <= k < i,
                None => insert_into is None,
            },
    {
        let row = &rows[i];
        proof {
            assert(table[i as int] == row@);
            assert(table.take(i + 1).drop_last() =~= table.take(i as int));
            assert(table.take(i + 1).last() == row@);
        }
        if row.active && row.strip.id() != id {
            remove_from = Some(i);
        }
        if !row.active && row.strip.id() == id && row.selected {
            insert_into = Some(i);
        }
    }
    assert(table.take(table.len() as int) =~= table);
    (remove_from, insert_into)
}

/// Whether `workspace_change_trigger` needs to know if the active display shows
/// a fullscreen workspace.
pub fn workspace_change_asks_fullscreen(
    event: &Event,
    space: Option<WorkspaceId>,
    rows: &Vec<StripRow>,
) -> (asks: bool)
    ensures
        asks == asks_fullscreen(*event, space, rows.deep_view()),
{
    match (event, space) {
        (Event::SpaceChanged, Some(id)) => {
            let (remove_from, insert_into) = survey(rows, id);
            insert_into.is_none() && remove_from.is_some()
        },
        _ => false,
    }
}

/// Answers a change of workspaces on the active display. `space` is the
/// workspace that the display shows now, if that could be found out, and
/// `fullscreen` whether it is a fullscreen one.
pub fn workspace_change_trigger(
    event: &Event,
    space: Option<WorkspaceId>,
    fullscreen: bool,
    focused: Option<Entity>,
    display: &Display,
    rows: &mut Vec<StripRow>,
) -> (actions: Vec<Action>)
    ensures
        (final(rows).deep_view(), actions@) == space_changed(
            *event,
            space,
            fullscreen,
            focused,
            *display,
            old(rows).deep_view(),
        ),
{
    let mut actions: Vec<Action> = Vec::new();
    match event {
        Event::SpaceChanged => {},
        _ => {
            return actions;
        },
    }
    let id = match space {
        Some(id) => id,
        None => {
            return actions;
        },
    };
    let (remove_from, insert_into) = survey(rows, id);
    if let Some(i) = insert_into {
        let target = Target::Strip(rows[i].entity);
        actions.push(Action::InsertActive(target));
        actions.push(Action::InsertSelected(target));
        assert(actions@ =~= activation(target));
        return actions;
    }
    if let (Some(o), Some(window), true) = (remove_from, focused, fullscreen) {
        let previous_index = match rows[o].strip.index_of(window) {
            Ok(i) => i,
            Err(_) => 0,
        };
        let marker = NativeFullscreenMarker {
            previous_strip: rows[o].strip.id(),
            previous_index,
        };
        rows[o].strip.remove(window);
        actions.push(
            Action::Spawn(
                NewStrip {
                    id,
                    virtual_index: 0,
                    window: Some(window),
                    position: display.bounds.min,
                    parent: display.entity,
                    selected: false,
                    fullscreen: Some(marker),
                    previous: None,
                },
            ),
        );
        actions.push(Action::InsertActive(Target::Spawned));
        actions.push(Action::InsertSelected(Target::Spawned));
        proof {
            let before = old(rows).deep_view();
            assert(before[o as int] == old(rows)@[o as int]@);
            assert(rows.deep_view() =~= before.update(
                o as int,
                before[o as int].with_strip(before[o as int].strip.without(window)),
            ));
            assert(actions@ =~= seq![
                Action::Spawn(fullscreen_strip(before[o as int], id, window, *display)),
            ] + activation(Target::Spawned));
        }
    }
    actions
}

/// What is done to the world when a workspace ends.
pub open spec fn space_destroyed(event: Event, rows: Seq<RowView>) -> Seq<Action> {
    match event {
        Event::SpaceDestroyed { space_id } => match search::first(rows, rows::of_space(space_id)) {
            Some(i) => seq![Action::Despawn(rows[i].entity)],
            None => Seq::empty(),
        },
        _ => Seq::empty(),
    }
}

/// Answers the end of a workspace: the first strip of it goes.
pub fn workspace_destroyed_trigger(event: &Event, rows: &Vec<StripRow>) -> (actions: Vec<Action>)
    ensures
        actions@ == match *event {
            Event::SpaceDestroyed { space_id } => match search::first(
                rows.deep_view(),
                rows::of_space(space_id),
            ) {
                Some(i) => seq![Action::Despawn(rows.deep_view()[i].entity)],
                None => Seq::empty(),
            },
            _ => Seq::empty(),
        },
        actions@ == space_destroyed(*event, rows.deep_view()),
{
    let mut actions: Vec<Action> = Vec::new();
    if let Event::SpaceDestroyed { space_id } = event {
        if let Some(i) = first_of_space(rows, *space_id) {
            assert(rows.deep_view()[i as int] == rows@[i as int]@);
            actions.push(Action::Despawn(rows[i].entity));
            assert(actions@ =~= seq![Action::Despawn(rows.deep_view()[i as int].entity)]);
        }
    }
    actions
}

/// The strip of a workspace that has just come up, empty and in the first row.
pub open spec fn fresh_strip(id: WorkspaceId, display: Display) -> NewStrip {
    NewStrip {
        id,
        virtual_index: 0,
        window: None,
        position: display.bounds.min,
        parent: display.entity,
        selected: false,
        fullscreen: None,
        previous: None,
    }
}

/// What is done to the world when a workspace comes up.
pub open spec fn space_created(
    event: Event,
    display: Display,
    rows: Seq<RowView>,
) -> Seq<Action> {
    match event {
        Event::SpaceCreated { space_id } => if search::first(
            rows,
            rows::of_space(space_id),
        ) is None {
            seq![Action::Spawn(fresh_strip(space_id, display))]
        } else {
            Seq::empty()
        },
        _ => Seq::empty(),
    }
}

/// Answers a new workspace: it gets an empty strip on the active display,
/// unless it has a strip already.
pub fn workspace_created_trigger(event: &Event, display: &Display, rows: &Vec<StripRow>) -> (actions:
    Vec<Action>)
    ensures
        actions@ == match *event {
            Event::SpaceCreated { space_id } => if search::first(
                rows.deep_view(),
                rows::of_space(space_id),
            ) is None {
                seq![Action::Spawn(fresh_strip(space_id, *display))]
            } else {
                Seq::empty()
            },
            _ => Seq::empty(),
        },
        actions@ == space_created(*event, *display, rows.deep_view()),
{
    let mut actions: Vec<Action> = Vec::new();
    if let Event::SpaceCreated { space_id } = event {
        if first_of_space(rows, *space_id).is_none() {
            actions.push(
                Action::Spawn(
                    NewStrip {
                        id: *space_id,
                        virtual_index: 0,
                        window: None,
                        position: display.bounds.min,
                        parent: display.entity,
                        selected: false,
                        fullscreen: None,
                        previous: None,
                    },
                ),
            );
            assert(actions@ =~= seq![Action::Spawn(fresh_strip(*space_id, *display))]);
        }
    }
    actions
}

/// The first row of a workspace.
fn first_of_space(rows: &Vec<StripRow>, id: WorkspaceId) -> (found: Option<usize>)
    ensures
        match search::first(rows.deep_view(), rows::of_space(id)) {
            Some(i) => found == Some(i as usize) && 0 <= i < rows.len(),
            None => found is None,
        },
{
    for i in 0..rows.len()
        invariant
            forall|j: int| 0 <= j < i ==> !rows::of_space(id)(rows.deep_view()[j]),
    {
        assert(rows.deep_view()[i as int] == rows@[i as int]@);
        if rows[i].strip.id() == id {
            proof {
                search::lemma_first_is(rows.deep_view(), rows::of_space(id), i as int);
            }
            return Some(i);
        }
    }
    proof {
        search::lemma_first_none(rows.deep_view(), rows::of_space(id));
    }
    None
}

/// The workspace seen last, after a look at the one that is shown, and what is
/// reported.
pub open spec fn watched(space: Option<WorkspaceId>, current: WorkspaceId) -> (
    WorkspaceId,
    Seq<Action>,
) {
    match space {
        Some(id) => (
            id,
            if id != current {
                seq![Action::Trigger(Event::SpaceChanged)]
            } else {
                Seq::empty()
            },
        ),
        None => (current, Seq::empty()),
    }
}

/// Compares the workspace that the active display shows with the one seen
/// last, and reports a change as an event of its own. `space` is the workspace
/// shown, if that could be found out.
pub fn workspace_change_watcher(
    space: Option<WorkspaceId>,
    current_space: &mut WorkspaceId,
) -> (actions: Vec<Action>)
    ensures
        (*final(current_space), actions@) == watched(space, *old(current_space)),
{
    let mut actions: Vec<Action> = Vec::new();
    if let Some(id) = space {
        if *current_space != id {
            *current_space = id;
            actions.push(Action::Trigger(Event::SpaceChanged));
            assert(actions@ =~= seq![Action::Trigger(Event::SpaceChanged)]);
        }
    }
    actions
}

/// A change of workspaces is reported once.
pub proof fn change_is_reported_once(space: Option<WorkspaceId>, current: WorkspaceId)
    ensures
        watched(space, watched(space, current).0) == (
            watched(space, current).0,
            Seq::<Action>::empty(),
        ),
{
}

/// Whether the workspace is a fullscreen one makes no difference unless it is
/// asked for.
pub proof fn fullscreen_matters_only_when_asked_for(
    event: Event,
    space: Option<WorkspaceId>,
    focused: Option<Entity>,
    display: Display,
    rows: Seq<RowView>,
)
    requires
        !asks_fullscreen(event, space, rows),
    ensures
        space_changed(event, space, true, focused, display, rows) == space_changed(
            event,
            space,
            false,
            focused,
            display,
            rows,
        ),
{
}

/// The window of a fullscreen workspace leaves its strip for the new one, and
/// no other window moves.
pub proof fn fullscreen_window_leaves_its_strip(
    id: WorkspaceId,
    window: Entity,
    display: Display,
    rows: Seq<RowView>,
)
    requires
        asks_fullscreen(Event::SpaceChanged, Some(id), rows),
    ensures
        ({
            let o = search::last(rows, left_behind(id)).unwrap();
            let (after, actions) = space_changed(
                Event::SpaceChanged,
                Some(id),
                true,
                Some(window),
                display,
                rows,
            );
            &&& 0 <= o < rows.len()
            &&& forall|w: Entity| #[trigger]
                after[o].strip.contains(w) <==> rows[o].strip.contains(w) && w != window
            &&& forall|i: int| 0 <= i < rows.len() && i != o ==> (#[trigger] after[i]) == rows[i]
            &&& actions[0] == Action::Spawn(fullscreen_strip(rows[o], id, window, display))
            &&& fullscreen_strip(rows[o], id, window, display).contents().contains(window)
        }),
{
    search::lemma_last(rows, left_behind(id));
    let o = search::last(rows, left_behind(id)).unwrap();
    strip::without_drops_one_window(rows[o].strip, window);
    let contents = fullscreen_strip(rows[o], id, window, display).contents();
    assert(contents.columns[0][0] == window);
    assert(contents.columns[0].contains(window));
}

/// A workspace that was created is known: it is not created again, and its end
/// takes away the strip that it got.
pub proof fn created_workspace_is_known(
    id: WorkspaceId,
    display: Display,
    rows: Seq<RowView>,
    entity: Entity,
)
    requires
        search::first(rows, rows::of_space(id)) is None,
    ensures
        ({
            let after = rows.push(fresh_strip(id, display).row(entity));
            &&& search::first(after, rows::of_space(id)) == Some(rows.len() as int)
            &&& after[rows.len() as int].entity == entity
            &&& after[rows.len() as int].strip == (StripView {
                id,
                virtual_index: 0,
                columns: Seq::empty(),
            })
        }),
{
    let after = rows.push(fresh_strip(id, display).row(entity));
    search::lemma_first(rows, rows::of_space(id));
    assert forall|j: int| 0 <= j < rows.len() implies !rows::of_space(id)(after[j]) by {
        assert(after[j] == rows[j]);
        assert(!rows::of_space(id)(rows[j]));
    }
    search::lemma_first_is(after, rows::of_space(id), rows.len() as int);
}

} // verus!
