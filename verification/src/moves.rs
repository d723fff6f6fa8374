//! Windows that move between the rows of a workspace.

use crate::geometry::Origin;
use crate::markers;
use crate::rows;
use crate::rows::{
    Action, Display, NewStrip, PreviousStripPosition, RowView, StripRow, Target, VirtualMoveMarker,
};
use crate::search;
use crate::strip;
use crate::strip::StripView;
use crate::types::{Direction, Entity, Event, MoveFocus, Operation, WorkspaceId};
use vstd::prelude::*;

verus! {

/// How far a hidden strip still reaches into the display, from its lower right
/// corner.
pub const HIDDEN_INSET: i32 = 10;

/// A window, and where it is to go.
#[derive(Clone, Copy, Debug, PartialEq, Eq)]
pub struct WindowMove {
    pub window: Entity,
    pub marker: VirtualMoveMarker,
}

/// The row of the workspace, counted from that of the active strip, that a
/// window is to go to. Downwards it goes only if that leaves a window behind;
/// upwards only from below the first row.
pub open spec fn adjacent_row(direction: Direction, virtual_index: u32, len: nat) -> Option<u32> {
    match direction {
        Direction::South => if len > 1 {
            Some((virtual_index + 1) as u32)
        } else {
            None
        },
        Direction::North => if virtual_index > 0 {
            Some((virtual_index - 1) as u32)
        } else {
            None
        },
        _ => None,
    }
}

/// What is done to the world for a command to send the focused window elsewhere.
pub open spec fn sent(
    message: Event,
    focused: Option<Entity>,
    virtual_index: u32,
    len: nat,
) -> Seq<Action> {
    match (message.operation(), focused) {
        (Some(Operation::VirtualMove(direction, move_focus)), Some(window)) => match adjacent_row(
            direction,
            virtual_index,
            len,
        ) {
            Some(target_virtual_index) => seq![
                Action::InsertVirtualMove(
                    window,
                    VirtualMoveMarker { target_virtual_index, move_focus },
                ),
            ],
            None => Seq::empty(),
        },
        _ => Seq::empty(),
    }
}

/// Answers the command to send the focused window to another row: marks the
/// window for `handle_virtual_window_moves`. `virtual_index` and `len` are the
/// row and the number of columns of the active strip.
pub fn move_virtual_workspace_bind(
    message: &Event,
    focused: Option<Entity>,
    virtual_index: u32,
    len: usize,
) -> (actions: Vec<Action>)
    requires
        message.operation() matches Some(Operation::VirtualMove(Direction::South, _))
            && focused is Some && len > 1 ==> virtual_index < u32::MAX,
    ensures
        actions@ == match (message.operation(), focused) {
            (Some(Operation::VirtualMove(direction, move_focus)), Some(window)) => match adjacent_row(
                direction,
                virtual_index,
                len as nat,
            ) {
                Some(target_virtual_index) => seq![
                    Action::InsertVirtualMove(
                        window,
                        VirtualMoveMarker { target_virtual_index, move_focus },
                    ),
                ],
                None => Seq::empty(),
            },
            _ => Seq::empty(),
        },
        actions@ == sent(*message, focused, virtual_index, len as nat),
{
    let mut actions: Vec<Action> = Vec::new();
    let (direction, move_focus) = match message.virtual_move() {
        Some(order) => order,
        None => {
            return actions;
        },
    };
    let window = match focused {
        Some(window) => window,
        None => {
            return actions;
        },
    };
    let target_virtual_index: u32 = match direction {
        Direction::South => {
            if len <= 1 {
                return actions;
            }
            virtual_index + 1
        },
        Direction::North => {
            if virtual_index == 0 {
                return actions;
            }
            virtual_index - 1
        },
        _ => {
            return actions;
        },
    };
    let marker = VirtualMoveMarker { target_virtual_index, move_focus };
    actions.push(Action::InsertVirtualMove(window, marker));
    assert(actions@ =~= seq![Action::InsertVirtualMove(window, marker)]);
    actions
}

/// Picks the strip that makes up a row of a workspace.
pub open spec fn row_at(id: WorkspaceId, virtual_index: u32) -> spec_fn(RowView) -> bool {
    |row: RowView| row.strip.id == id && row.strip.virtual_index == virtual_index
}

/// The workspace that a window is in: that of the source strip if it holds the
/// window, or else that of the first strip that does. A window that is in no
/// strip goes by the source.
pub open spec fn home_of(rows: Seq<RowView>, source: int, window: Entity) -> WorkspaceId {
    if rows[source].strip.contains(window) {
        rows[source].strip.id
    } else {
        match search::first(rows, markers::holds(window)) {
            Some(i) => rows[i].strip.id,
            None => rows[source].strip.id,
        }
    }
}

/// The strip that a window goes to, if its workspace has that row.
pub open spec fn move_target(rows: Seq<RowView>, source: int, step: WindowMove) -> Option<int> {
    search::first(
        rows,
        row_at(home_of(rows, source, step.window), step.marker.target_virtual_index),
    )
}

/// Whether focus stays behind: the move asks for it, and the window has a
/// neighbour that can take the focus.
pub open spec fn move_stays(rows: Seq<RowView>, source: int, step: WindowMove) -> bool {
    step.marker.move_focus is Stay && rows[source].strip.neighbour(step.window) is Some
}

/// Whether the move makes a row that is hidden from the start.
pub open spec fn move_hides(rows: Seq<RowView>, source: int, step: WindowMove) -> bool {
    move_target(rows, source, step) is None && move_stays(rows, source, step)
}

/// A row after the move: the strip of the target entity has the window at its
/// right end, every other strip is without it.
pub open spec fn row_after_move(row: RowView, target: Option<Entity>, window: Entity) -> RowView {
    if target == Some(row.entity) {
        row.with_strip(row.strip.appended(window))
    } else {
        row.with_strip(row.strip.without(window))
    }
}

/// The entity in a row, if there is such a row.
pub open spec fn entity_at(rows: Seq<RowView>, i: Option<int>) -> Option<Entity> {
    match i {
        Some(i) => Some(rows[i].entity),
        None => None,
    }
}

/// All rows after the move.
pub open spec fn rows_after_move(
    rows: Seq<RowView>,
    source: int,
    step: WindowMove,
) -> Seq<RowView> {
    let target = entity_at(rows, move_target(rows, source, step));
    rows.map_values(|row: RowView| row_after_move(row, target, step.window))
}

/// The strip for a row that the workspace does not have yet. It is visible if
/// focus goes along; else it lies hidden, and keeps in mind where to come up.
pub open spec fn strip_for_move(
    rows: Seq<RowView>,
    source: int,
    step: WindowMove,
    display: Display,
) -> NewStrip {
    let stays = move_stays(rows, source, step);
    NewStrip {
        id: home_of(rows, source, step.window),
        virtual_index: step.marker.target_virtual_index,
        window: Some(step.window),
        position: if stays {
            display.bounds.max.minus(HIDDEN_INSET as int)
        } else {
            display.bounds.min
        },
        parent: display.entity,
        selected: true,
        fullscreen: None,
        previous: if stays {
            Some(PreviousStripPosition { origin: display.bounds.min, focus: Some(step.window) })
        } else {
            None
        },
    }
}

/// What is done to the world for one move, besides the change to the rows: a
/// missing row is made, the place of the source strip is kept if the view
/// leaves it, the target is selected and, if focus goes along, made active, and
/// the window that then has focus is brought into view.
pub open spec fn actions_for_move(
    rows: Seq<RowView>,
    source: int,
    step: WindowMove,
    display: Display,
) -> Seq<Action> {
    let stays = move_stays(rows, source, step);
    let target = match move_target(rows, source, step) {
        Some(t) => Target::Strip(rows[t].entity),
        None => Target::Spawned,
    };
    seq![Action::RemoveVirtualMove(step.window)] + (if target is Spawned {
        seq![Action::Spawn(strip_for_move(rows, source, step, display))]
    } else {
        Seq::empty()
    }) + (if stays {
        Seq::empty()
    } else {
        seq![
            Action::InsertPrevious(
                rows[source].entity,
                PreviousStripPosition {
                    origin: rows[source].position,
                    focus: rows[source].strip.left_of(step.window),
                },
            ),
        ]
    }) + seq![Action::InsertSelected(target)] + (if stays {
        let neighbour = rows[source].strip.neighbour(step.window).unwrap();
        seq![
            Action::ReshuffleAround(neighbour),
            Action::RemoveFocused(step.window),
            Action::InsertFocused(neighbour),
        ]
    } else {
        seq![Action::InsertActive(target), Action::ReshuffleAround(step.window)]
    })
}

/// All rows after all moves.
pub open spec fn rows_after_moves(
    rows: Seq<RowView>,
    source: int,
    moves: Seq<WindowMove>,
) -> Seq<RowView>
    decreases moves.len(),
{
    if moves.len() == 0 {
        rows
    } else {
        rows_after_move(rows_after_moves(rows, source, moves.drop_last()), source, moves.last())
    }
}

/// What is done to the world for all moves; each move finds the rows as those
/// before it left them, without the strips that they made.
pub open spec fn actions_for_moves(
    rows: Seq<RowView>,
    source: int,
    moves: Seq<WindowMove>,
    display: Display,
) -> Seq<Action>
    decreases moves.len(),
{
    if moves.len() == 0 {
        Seq::empty()
    } else {
        actions_for_moves(rows, source, moves.drop_last(), display) + actions_for_move(
            rows_after_moves(rows, source, moves.drop_last()),
            source,
            moves.last(),
            display,
        )
    }
}

/// Whether the move at a place of the list makes a row that is hidden from the
/// start.
#[verifier::opaque]
pub open spec fn hides_at(
    rows: Seq<RowView>,
    source: int,
    moves: Seq<WindowMove>,
    k: int,
) -> bool {
    move_hides(rows_after_moves(rows, source, moves.take(k)), source, moves[k])
}

/// Whether some move makes a row that is hidden from the start.
#[verifier::opaque]
pub open spec fn some_move_hides(
    rows: Seq<RowView>,
    source: int,
    moves: Seq<WindowMove>,
) -> bool {
    exists|k: int| 0 <= k < moves.len() && #[trigger] hides_at(rows, source, moves, k)
}

proof fn lemma_some_move_hides(
    rows: Seq<RowView>,
    source: int,
    moves: Seq<WindowMove>,
    k: int,
)
    requires
        0 <= k < moves.len(),
        move_hides(rows_after_moves(rows, source, moves.take(k)), source, moves[k]),
    ensures
        some_move_hides(rows, source, moves),
{
    reveal(some_move_hides);
    assert(hides_at(rows, source, moves, k)) by {
        reveal(hides_at);
    }
}

/// Whether a move hides a row does not depend on the moves behind it.
proof fn lemma_hides_early(
    rows: Seq<RowView>,
    source: int,
    moves: Seq<WindowMove>,
    n: int,
    k: int,
)
    requires
        0 <= k < n <= moves.len(),
    ensures
        hides_at(rows, source, moves.take(n), k) == hides_at(rows, source, moves, k),
{
    reveal(hides_at);
    assert(moves.take(n).take(k) =~= moves.take(k));
    assert(moves.take(n)[k] == moves[k]);
}

/// Some of the first moves hides a row if one before the last of them does, or
/// that one.
#[verifier::spinoff_prover]
proof fn lemma_hides_by_parts(rows: Seq<RowView>, source: int, moves: Seq<WindowMove>, k: int)
    requires
        0 <= k < moves.len(),
    ensures
        some_move_hides(rows, source, moves.take(k + 1)) ==> some_move_hides(
            rows,
            source,
            moves.take(k),
        ) || move_hides(rows_after_moves(rows, source, moves.take(k)), source, moves[k]),
{
    let more = moves.take(k + 1);
    let less = moves.take(k);
    if some_move_hides(rows, source, more) {
        reveal(some_move_hides);
        let j = choose|j: int| 0 <= j < more.len() && #[trigger] hides_at(rows, source, more, j);
        lemma_hides_early(rows, source, moves, k + 1, j);
        if j < k {
            lemma_hides_early(rows, source, moves, k, j);
            assert(hides_at(rows, source, less, j));
        } else {
            reveal(hides_at);
        }
    }
}

/// Finds the strip that makes up a row of a workspace.
fn find_row_at(rows: &Vec<StripRow>, id: WorkspaceId, virtual_index: u32) -> (found: Option<usize>)
    ensures
        match search::first(rows.deep_view(), row_at(id, virtual_index)) {
            Some(i) => found == Some(i as usize) && 0 <= i < rows.len(),
            None => found is None,
        },
{
    for i in 0..rows.len()
        invariant
            forall|j: int| 0 <= j < i ==> !row_at(id, virtual_index)(rows.deep_view()[j]),
    {
        assert(rows.deep_view()[i as int] == rows@[i as int]@);
        if rows[i].strip.id() == id && rows[i].strip.virtual_index() == virtual_index {
            proof {
                search::lemma_first_is(rows.deep_view(), row_at(id, virtual_index), i as int);
            }
            return Some(i);
        }
    }
    proof {
        search::lemma_first_none(rows.deep_view(), row_at(id, virtual_index));
    }
    None
}

/// Finds the workspace that a window is in.
fn find_home(rows: &Vec<StripRow>, source: usize, window: Entity) -> (id: WorkspaceId)
    requires
        source < rows.len(),
    ensures
        id == home_of(rows.deep_view(), source as int, window),
{
    let ghost table = rows.deep_view();
    assert(table[source as int] == rows@[source as int]@);
    let id = rows[source].strip.id();
    if rows[source].strip.contains(window) {
        return id;
    }
    for i in 0..rows.len()
        invariant
            source < rows.len(),
            table == rows.deep_view(),
            id == table[source as int].strip.id,
            !table[source as int].strip.contains(window),
            forall|j: int| 0 <= j < i ==> !markers::holds(window)(table[j]),
    {
        assert(table[i as int] == rows@[i as int]@);
        if rows[i].strip.contains(window) {
            proof {
                search::lemma_first_is(table, markers::holds(window), i as int);
            }
            return rows[i].strip.id();
        }
    }
    proof {
        search::lemma_first_none(table, markers::holds(window));
    }
    id
}

/// Finds the first active strip.
pub fn find_active(rows: &Vec<StripRow>) -> (found: Option<usize>)
    ensures
        match search::first(rows.deep_view(), rows::is_active()) {
            Some(i) => found == Some(i as usize) && 0 <= i < rows.len(),
            None => found is None,
        },
{
    for i in 0..rows.len()
        invariant
            forall|j: int| 0 <= j < i ==> !rows::is_active()(rows.deep_view()[j]),
    {
        assert(rows.deep_view()[i as int] == rows@[i as int]@);
        if rows[i].active {
            proof {
                search::lemma_first_is(rows.deep_view(), rows::is_active(), i as int);
            }
            return Some(i);
        }
    }
    proof {
        search::lemma_first_none(rows.deep_view(), rows::is_active());
    }
    None
}

/// Puts a window at the right end of one strip and takes it out of all others.
fn transfer(rows: &mut Vec<StripRow>, target: Option<Entity>, window: Entity)
    ensures
        final(rows).deep_view() == old(rows).deep_view().map_values(
            |row: RowView| row_after_move(row, target, window),
        ),
{
    let ghost before = rows.deep_view();
    let n: usize = rows.len();
    for i in 0..n
        invariant
            n == before.len(),
            rows.len() == n,
            forall|j: int|
                0 <= j < before.len() ==> (#[trigger] rows@[j])@ == if j < i {
                    row_after_move(before[j], target, window)
                } else {
                    before[j]
                },
    {
        let goes_here = match target {
            Some(entity) => rows[i].entity == entity,
            None => false,
        };
        if goes_here {
            rows[i].strip.append(window);
        } else {
            rows[i].strip.remove(window);
        }
    }
    assert(rows.deep_view() =~= before.map_values(
        |row: RowView| row_after_move(row, target, window),
    ));
}

/// Carries out one move.
fn move_window(
    rows: &mut Vec<StripRow>,
    source: usize,
    step: WindowMove,
    display: &Display,
    actions: &mut Vec<Action>,
)
    requires
        source < old(rows).len(),
        move_hides(old(rows).deep_view(), source as int, step) ==> display.bounds.max.allows_minus(
            HIDDEN_INSET as int,
        ),
    ensures
        final(rows).deep_view() == rows_after_move(old(rows).deep_view(), source as int, step),
        final(actions)@ == old(actions)@ + actions_for_move(
            old(rows).deep_view(),
            source as int,
            step,
            *display,
        ),
{
    let ghost table = rows.deep_view();
    let ghost s = source as int;
    assert(table[s] == rows@[s]@);
    let window = step.window;
    actions.push(Action::RemoveVirtualMove(window));
    let id = find_home(rows, source, window);
    let found = find_row_at(rows, id, step.marker.target_virtual_index);
    let left = rows[source].strip.left_neighbour(window);
    let neighbour = match left {
        Some(w) => Some(w),
        None => rows[source].strip.right_neighbour(window),
    };
    let follow = match step.marker.move_focus {
        MoveFocus::Follow => true,
        MoveFocus::Stay => false,
    };
    let stays = !follow && neighbour.is_some();
    let (target, target_entity) = match found {
        Some(t) => {
            assert(table[t as int] == rows@[t as int]@);
            (Target::Strip(rows[t].entity), Some(rows[t].entity))
        },
        None => {
            let visible_origin = display.bounds.min;
            let origin: Origin = if stays {
                display.bounds.max.less(HIDDEN_INSET)
            } else {
                visible_origin
            };
            let previous = if stays {
                Some(PreviousStripPosition { origin: visible_origin, focus: Some(window) })
            } else {
                None
            };
            let new_strip = NewStrip {
                id,
                virtual_index: step.marker.target_virtual_index,
                window: Some(window),
                position: origin,
                parent: display.entity,
                selected: true,
                fullscreen: None,
                previous,
            };
            assert(new_strip == strip_for_move(table, s, step, *display));
            actions.push(Action::Spawn(new_strip));
            (Target::Spawned, None)
        },
    };
    if !stays {
        actions.push(
            Action::InsertPrevious(
                rows[source].entity,
                PreviousStripPosition { origin: rows[source].position, focus: left },
            ),
        );
    }
    transfer(rows, target_entity, window);
    actions.push(Action::InsertSelected(target));
    match neighbour {
        Some(w) if stays => {
            actions.push(Action::ReshuffleAround(w));
            actions.push(Action::RemoveFocused(window));
            actions.push(Action::InsertFocused(w));
        },
        _ => {
            actions.push(Action::InsertActive(target));
            actions.push(Action::ReshuffleAround(window));
        },
    }
    assert(actions@ =~= old(actions)@ + actions_for_move(table, s, step, *display));
}

/// Whether some move makes a row that is hidden from the start, so that the
/// lower right corner of the display is needed.
pub fn hides_a_row(moves: &Vec<WindowMove>, rows: &Vec<StripRow>) -> (hides: bool)
    ensures
        hides == match search::first(rows.deep_view(), rows::is_active()) {
            Some(s) => some_move_hides(rows.deep_view(), s, moves@),
            None => false,
        },
{
    let source = match find_active(rows) {
        Some(s) => s,
        None => {
            return false;
        },
    };
    let ghost table = rows.deep_view();
    let ghost s = source as int;
    let mut now: Vec<StripRow> = Vec::new();
    for i in 0..rows.len()
        invariant
            now.len() == i,
            forall|j: int| 0 <= j < i ==> (#[trigger] now@[j])@ == rows@[j]@,
    {
        now.push(rows[i].clone());
    }
    assert(now.deep_view() =~= table);
    proof {
        reveal(some_move_hides);
    }
    for k in 0..moves.len()
        invariant
            source < table.len(),
            s == source,
            table == rows.deep_view(),
            search::first(table, rows::is_active()) == Some(s),
            now.deep_view() == rows_after_moves(table, s, moves@.take(k as int)),
            now.len() == table.len(),
            !some_move_hides(table, s, moves@.take(k as int)),
    {
        proof {
            assert(moves@.take(k + 1).drop_last() =~= moves@.take(k as int));
            assert(moves@.take(k + 1).last() == moves@[k as int]);
            lemma_hides_by_parts(table, s, moves@, k as int);
        }
        if try_move(&mut now, source, moves[k]) {
            proof {
                lemma_some_move_hides(table, s, moves@, k as int);
            }
            return true;
        }
    }
    assert(moves@.take(moves@.len() as int) =~= moves@);
    false
}

/// Changes the rows as one move does, unless that makes a row that is hidden from
/// the start.
fn try_move(rows: &mut Vec<StripRow>, source: usize, step: WindowMove) -> (hides: bool)
    requires
        source < old(rows).len(),
    ensures
        hides == move_hides(old(rows).deep_view(), source as int, step),
        !hides ==> final(rows).deep_view() == rows_after_move(
            old(rows).deep_view(),
            source as int,
            step,
        ),
        final(rows).len() == old(rows).len(),
{
    let ghost table = rows.deep_view();
    assert(table[source as int] == rows@[source as int]@);
    let id = find_home(rows, source, step.window);
    let found = find_row_at(rows, id, step.marker.target_virtual_index);
    let stay = match step.marker.move_focus {
        MoveFocus::Follow => false,
        MoveFocus::Stay => true,
    };
    let neighbour = rows[source].strip.left_neighbour(step.window).is_some()
        || rows[source].strip.right_neighbour(step.window).is_some();
    if found.is_none() && stay && neighbour {
        return true;
    }
    let target = match found {
        Some(t) => {
            assert(table[t as int] == rows@[t as int]@);
            Some(rows[t].entity)
        },
        None => None,
    };
    transfer(rows, target, step.window);
    assert(rows.deep_view().len() == table.len());
    false
}

/// Carries out the moves of all marked windows, each to the row of its own
/// workspace that the mark names. Without an active strip nothing happens.
pub fn handle_virtual_window_moves(
    moves: &Vec<WindowMove>,
    display: &Display,
    rows: &mut Vec<StripRow>,
) -> (actions: Vec<Action>)
    requires
        search::first(old(rows).deep_view(), rows::is_active()) matches Some(s)
            && some_move_hides(old(rows).deep_view(), s, moves@)
            ==> display.bounds.max.allows_minus(HIDDEN_INSET as int),
    ensures
        match search::first(old(rows).deep_view(), rows::is_active()) {
            Some(s) => {
                &&& final(rows).deep_view() == rows_after_moves(
                    old(rows).deep_view(),
                    s,
                    moves@,
                )
                &&& actions@ == actions_for_moves(old(rows).deep_view(), s, moves@, *display)
            },
            None => final(rows).deep_view() == old(rows).deep_view() && actions@ == Seq::<
                Action,
            >::empty(),
        },
{
    let mut actions: Vec<Action> = Vec::new();
    let source = match find_active(rows) {
        Some(s) => s,
        None => {
            return actions;
        },
    };
    let ghost table = rows.deep_view();
    let ghost s = source as int;
    for k in 0..moves.len()
        invariant
            source < table.len(),
            s == source,
            some_move_hides(table, s, moves@) ==> display.bounds.max.allows_minus(
                HIDDEN_INSET as int,
            ),
            rows.deep_view() == rows_after_moves(table, s, moves@.take(k as int)),
            rows.len() == table.len(),
            actions@ == actions_for_moves(table, s, moves@.take(k as int), *display),
    {
        proof {
            assert(moves@.take(k + 1).drop_last() =~= moves@.take(k as int));
            assert(moves@.take(k + 1).last() == moves@[k as int]);
            if move_hides(rows.deep_view(), s, moves@[k as int]) {
                lemma_some_move_hides(table, s, moves@, k as int);
            }
        }
        let ghost before = rows.deep_view();
        move_window(rows, source, moves[k], display, &mut actions);
        assert(rows.deep_view().len() == before.len());
    }
    assert(moves@.take(moves@.len() as int) =~= moves@);
    actions
}

/// Moves change nothing in a row but the windows of its strip.
pub proof fn moves_keep_all_but_windows(rows: Seq<RowView>, source: int, moves: Seq<WindowMove>)
    ensures
        rows_after_moves(rows, source, moves).len() == rows.len(),
        forall|i: int|
            0 <= i < rows.len() ==> (#[trigger] rows_after_moves(rows, source, moves)[i])
                == rows[i].with_strip(
                StripView {
                    columns: rows_after_moves(rows, source, moves)[i].strip.columns,
                    ..rows[i].strip
                },
            ),
    decreases moves.len(),
{
    if moves.len() > 0 {
        moves_keep_all_but_windows(rows, source, moves.drop_last());
    }
}

/// A window that is in none of the moves stays in the strips that it is in.
pub proof fn windows_that_do_not_move_stay(
    rows: Seq<RowView>,
    source: int,
    moves: Seq<WindowMove>,
    window: Entity,
)
    requires
        forall|k: int| 0 <= k < moves.len() ==> (#[trigger] moves[k]).window != window,
    ensures
        forall|i: int|
            0 <= i < rows.len() ==> (#[trigger] rows_after_moves(
                rows,
                source,
                moves,
            )[i].strip.contains(window) <==> rows[i].strip.contains(window)),
    decreases moves.len(),
{
    if moves.len() > 0 {
        let less = moves.drop_last();
        let step = moves.last();
        let mid = rows_after_moves(rows, source, less);
        let after = rows_after_moves(rows, source, moves);
        assert forall|k: int| 0 <= k < less.len() implies (#[trigger] less[k]).window
            != window by {
            assert(moves[k].window != window);
        }
        assert(moves[moves.len() - 1].window != window);
        windows_that_do_not_move_stay(rows, source, less, window);
        moves_keep_all_but_windows(rows, source, less);
        let target = entity_at(mid, move_target(mid, source, step));
        assert forall|i: int| 0 <= i < rows.len() implies (#[trigger] after[i].strip.contains(
            window,
        ) <==> rows[i].strip.contains(window)) by {
            assert(after[i] == row_after_move(mid[i], target, step.window));
            assert(mid[i].strip.contains(window) <==> rows[i].strip.contains(window));
            strip::without_drops_one_window(mid[i].strip, step.window);
            strip::appended_adds_one_window(mid[i].strip, step.window);
        }
    }
}

/// The workspace of a window, and the row that it goes to, do not depend on the
/// moves of other windows before.
pub proof fn lemma_target_is_stable(
    rows: Seq<RowView>,
    source: int,
    moves: Seq<WindowMove>,
    step: WindowMove,
)
    requires
        0 <= source < rows.len(),
        forall|k: int| 0 <= k < moves.len() ==> (#[trigger] moves[k]).window != step.window,
    ensures
        home_of(rows_after_moves(rows, source, moves), source, step.window) == home_of(
            rows,
            source,
            step.window,
        ),
        move_target(rows_after_moves(rows, source, moves), source, step) == move_target(
            rows,
            source,
            step,
        ),
{
    let after = rows_after_moves(rows, source, moves);
    moves_keep_all_but_windows(rows, source, moves);
    windows_that_do_not_move_stay(rows, source, moves, step.window);
    assert(after[source].strip.id == rows[source].strip.id);
    assert(after[source].strip.contains(step.window) <==> rows[source].strip.contains(
        step.window,
    ));
    let h = markers::holds(step.window);
    assert forall|j: int| 0 <= j < rows.len() implies h(#[trigger] after[j]) == h(rows[j]) by {
        assert(after[j].strip.contains(step.window) <==> rows[j].strip.contains(step.window));
    }
    search::lemma_same_first(rows, after, h);
    search::lemma_first(rows, h);
    if let Some(i) = search::first(rows, h) {
        assert(after[i].strip.id == rows[i].strip.id);
    }
    let p = row_at(home_of(rows, source, step.window), step.marker.target_virtual_index);
    assert forall|j: int| 0 <= j < rows.len() implies p(#[trigger] after[j]) == p(rows[j]) by {
        assert(after[j].strip.id == rows[j].strip.id);
    }
    search::lemma_same_first(rows, after, p);
}

/// Every window is in at most one of the moves.
pub open spec fn distinct_windows(moves: Seq<WindowMove>) -> bool {
    forall|j: int, k: int|
        0 <= j < moves.len() && 0 <= k < moves.len() && j != k ==> (#[trigger] moves[j]).window != (
        #[trigger] moves[k]).window
}

/// The entity that a move goes to, if the workspace has that row.
pub open spec fn target_entity(rows: Seq<RowView>, source: int, step: WindowMove) -> Option<
    Entity,
> {
    entity_at(rows, move_target(rows, source, step))
}

/// A window that moves ends up in the strip that it was sent to and in no
/// other, and in none of those that were there before if the row is a new one.
/// Windows that do not move stay where they are.
pub proof fn moved_windows_are_in_their_targets_alone(
    rows: Seq<RowView>,
    source: int,
    moves: Seq<WindowMove>,
)
    requires
        0 <= source < rows.len(),
        distinct_windows(moves),
    ensures
        forall|k: int, i: int|
            0 <= k < moves.len() && 0 <= i < rows.len() ==> (#[trigger] rows_after_moves(
                rows,
                source,
                moves,
            )[i].strip.contains((#[trigger] moves[k]).window) <==> target_entity(
                rows,
                source,
                moves[k],
            ) == Some(rows[i].entity)),
        forall|w: Entity, i: int|
            0 <= i < rows.len() && (forall|k: int|
                0 <= k < moves.len() ==> (#[trigger] moves[k]).window != w) ==> (
            #[trigger] rows_after_moves(rows, source, moves)[i].strip.contains(w)
                <==> rows[i].strip.contains(w)),
    decreases moves.len(),
{
    if moves.len() > 0 {
        let less = moves.drop_last();
        let step = moves.last();
        let mid = rows_after_moves(rows, source, less);
        let after = rows_after_moves(rows, source, moves);
        assert(distinct_windows(less)) by {
            assert forall|j: int, k: int|
                0 <= j < less.len() && 0 <= k < less.len() && j != k implies (
            #[trigger] less[j]).window != (#[trigger] less[k]).window by {
                assert(moves[j].window != moves[k].window);
            }
        }
        moved_windows_are_in_their_targets_alone(rows, source, less);
        moves_keep_all_but_windows(rows, source, less);
        assert forall|k: int| 0 <= k < less.len() implies (#[trigger] less[k]).window
            != step.window by {
            assert(moves[k].window != moves[moves.len() - 1].window);
        }
        lemma_target_is_stable(rows, source, less, step);
        search::lemma_first(
            rows,
            row_at(home_of(rows, source, step.window), step.marker.target_virtual_index),
        );
        let target = target_entity(rows, source, step);
        assert(entity_at(mid, move_target(mid, source, step)) == target);
        assert forall|w: Entity, i: int| 0 <= i < rows.len() implies (
        #[trigger] after[i].strip.contains(w) <==> if w == step.window {
            target == Some(rows[i].entity)
        } else {
            mid[i].strip.contains(w)
        }) by {
            assert(after[i] == row_after_move(mid[i], target, step.window));
            assert(mid[i].entity == rows[i].entity);
            strip::without_drops_one_window(mid[i].strip, step.window);
            strip::appended_adds_one_window(mid[i].strip, step.window);
        }
        assert forall|k: int, i: int|
            0 <= k < moves.len() && 0 <= i < rows.len() implies (#[trigger] after[i].strip.contains(
            (#[trigger] moves[k]).window,
        ) <==> target_entity(rows, source, moves[k]) == Some(rows[i].entity)) by {
            if k < less.len() {
                assert(less[k] == moves[k]);
                assert(moves[k].window != moves[moves.len() - 1].window);
                assert(mid[i].strip.contains(less[k].window) <==> target_entity(
                    rows,
                    source,
                    less[k],
                ) == Some(rows[i].entity));
            }
        }
        assert forall|w: Entity, i: int|
            0 <= i < rows.len() && (forall|k: int|
                0 <= k < moves.len() ==> (#[trigger] moves[k]).window != w) implies (
        #[trigger] after[i].strip.contains(w) <==> rows[i].strip.contains(w)) by {
            assert forall|k: int| 0 <= k < less.len() implies (#[trigger] less[k]).window != w by {
                assert(moves[k].window != w);
            }
            assert(moves[moves.len() - 1].window != w);
            assert(mid[i].strip.contains(w) <==> rows[i].strip.contains(w));
        }
    }
}

/// A window that moves to a row that is not there gets a strip in that row of its
/// workspace, which holds it.
pub proof fn window_sent_to_a_missing_row_gets_a_strip(
    rows: Seq<RowView>,
    source: int,
    moves: Seq<WindowMove>,
    display: Display,
    k: int,
)
    requires
        0 <= source < rows.len(),
        distinct_windows(moves),
        0 <= k < moves.len(),
        move_target(rows, source, moves[k]) is None,
    ensures
        exists|strip: NewStrip| #[trigger]
            actions_for_moves(rows, source, moves, display).contains(Action::Spawn(strip))
                && strip.contents().contains(moves[k].window) && strip.id == home_of(
                rows,
                source,
                moves[k].window,
            ) && strip.virtual_index
                == moves[k].marker.target_virtual_index && strip.parent == display.entity,
    decreases moves.len(),
{
    let less = moves.drop_last();
    let before = actions_for_moves(rows, source, less, display);
    let mid = rows_after_moves(rows, source, less);
    let own = actions_for_move(mid, source, moves.last(), display);
    let all = actions_for_moves(rows, source, moves, display);
    assert(all == before + own);
    if k < less.len() {
        assert(less[k] == moves[k]);
        assert(distinct_windows(less)) by {
            assert forall|i: int, j: int|
                0 <= i < less.len() && 0 <= j < less.len() && i != j implies (
            #[trigger] less[i]).window != (#[trigger] less[j]).window by {
                assert(moves[i].window != moves[j].window);
            }
        }
        window_sent_to_a_missing_row_gets_a_strip(rows, source, less, display, k);
        let strip = choose|strip: NewStrip| #[trigger]
            before.contains(Action::Spawn(strip)) && strip.contents().contains(moves[k].window)
                && strip.id == home_of(rows, source, moves[k].window) && strip.virtual_index
                == moves[k].marker.target_virtual_index && strip.parent == display.entity;
        let n = choose|n: int| 0 <= n < before.len() && before[n] == Action::Spawn(strip);
        assert(all[n] == Action::Spawn(strip));
        assert(all.contains(Action::Spawn(strip)));
    } else {
        moves_keep_all_but_windows(rows, source, less);
        assert forall|j: int| 0 <= j < less.len() implies (#[trigger] less[j]).window
            != moves.last().window by {
            assert(moves[j].window != moves[k].window);
        }
        lemma_target_is_stable(rows, source, less, moves.last());
        let strip = strip_for_move(mid, source, moves.last(), display);
        assert(own[1] == Action::Spawn(strip));
        assert(all[before.len() as int + 1] == Action::Spawn(strip));
        assert(strip.contents().columns[0][0] == moves[k].window);
        assert(strip.contents().columns[0].contains(moves[k].window));
        assert(all.contains(Action::Spawn(strip)));
    }
}

/// When focus stays behind it goes to a window that is still in the source
/// strip, if the window that moves stood in one column only and moves to
/// another strip.
pub proof fn focus_stays_in_the_source_strip(rows: Seq<RowView>, source: int, step: WindowMove)
    requires
        0 <= source < rows.len(),
        move_stays(rows, source, step),
        target_entity(rows, source, step) != Some(rows[source].entity),
        forall|i: int, j: int|
            0 <= i < rows[source].strip.columns.len() && 0 <= j < rows[source].strip.columns.len()
                && rows[source].strip.columns[i].contains(step.window)
                && rows[source].strip.columns[j].contains(step.window) ==> i == j,
    ensures
        rows_after_move(rows, source, step)[source].strip.contains(
            rows[source].strip.neighbour(step.window).unwrap(),
        ),
        rows[source].strip.neighbour(step.window).unwrap() != step.window,
{
    let strip = rows[source].strip;
    let w = strip.neighbour(step.window).unwrap();
    let c = strip.column_of(step.window).unwrap();
    search::lemma_first(strip.columns, strip::holding(step.window));
    assert(strip.columns[c].contains(step.window));
    let n = if strip.left_of(step.window) is Some {
        c - 1
    } else {
        c + 1
    };
    assert(strip.columns[n][0] == w);
    assert(strip.columns[n].contains(w));
    if w == step.window {
        assert(strip.columns[n].contains(step.window));
    }
    strip::without_drops_one_window(strip, step.window);
    assert(strip.contains(w));
}

/// A window that is sent down leaves another one behind, if the strip has no
/// empty column and the window stands in one column only.
pub proof fn window_sent_down_leaves_one_behind(
    strip: StripView,
    window: Entity,
    virtual_index: u32,
)
    requires
        adjacent_row(Direction::South, virtual_index, strip.columns.len()) is Some,
        strip.wf(),
        forall|i: int, j: int|
            0 <= i < strip.columns.len() && 0 <= j < strip.columns.len()
                && strip.columns[i].contains(window) && strip.columns[j].contains(window) ==> i
                == j,
    ensures
        exists|w: Entity| w != window && #[trigger] strip.without(window).contains(w),
{
    strip::without_drops_one_window(strip, window);
    let n: int = if strip.columns[0].contains(window) {
        1
    } else {
        0
    };
    let w = strip.columns[n][0];
    assert(strip.columns[n].contains(w));
    assert(strip.contains(w));
    assert(strip.without(window).contains(w));
}

/// A window in the only column of its strip takes the focus along, whatever the
/// move asks for: it has no neighbour that could have it.
pub proof fn window_in_the_only_column_takes_the_focus_along(
    rows: Seq<RowView>,
    source: int,
    step: WindowMove,
)
    requires
        rows[source].strip.columns.len() <= 1,
    ensures
        !move_stays(rows, source, step),
{
    let strip = rows[source].strip;
    search::lemma_first(strip.columns, strip::holding(step.window));
}

/// Picks the windows that no move takes out of a strip: those that are in none
/// of the moves, and those that are sent to that very strip.
pub open spec fn remains(
    rows: Seq<RowView>,
    source: int,
    moves: Seq<WindowMove>,
    entity: Entity,
) -> spec_fn(Entity) -> bool {
    |w: Entity|
        forall|k: int|
            0 <= k < moves.len() && (#[trigger] moves[k]).window == w ==> target_entity(
                rows,
                source,
                moves[k],
            ) == Some(entity)
}

/// Picks the windows that are in none of the moves.
pub open spec fn unmarked(moves: Seq<WindowMove>) -> spec_fn(Entity) -> bool {
    |w: Entity| forall|k: int| 0 <= k < moves.len() ==> (#[trigger] moves[k]).window != w
}

/// Picks the moves that go to a strip.
pub open spec fn comes_to(rows: Seq<RowView>, source: int, entity: Entity) -> spec_fn(
    WindowMove,
) -> bool {
    |step: WindowMove| target_entity(rows, source, step) == Some(entity)
}

/// The windows that come to a strip, in the order of the moves.
pub open spec fn arrivals(
    rows: Seq<RowView>,
    source: int,
    moves: Seq<WindowMove>,
    entity: Entity,
) -> Seq<Entity> {
    moves.filter(comes_to(rows, source, entity)).map_values(|step: WindowMove| step.window)
}

/// A window remains if it remains without the last move, and that is about
/// another window or goes to the strip itself.
proof fn lemma_remains_by_parts(
    rows: Seq<RowView>,
    source: int,
    moves: Seq<WindowMove>,
    entity: Entity,
)
    requires
        moves.len() > 0,
    ensures
        forall|w: Entity| #[trigger]
            remains(rows, source, moves, entity)(w) == (remains(
                rows,
                source,
                moves.drop_last(),
                entity,
            )(w) && (target_entity(rows, source, moves.last()) == Some(entity) || w
                != moves.last().window)),
{
    let less = moves.drop_last();
    let step = moves.last();
    let last = moves.len() - 1;
    let p = remains(rows, source, moves, entity);
    let q = remains(rows, source, less, entity);
    let target = target_entity(rows, source, step);
    assert forall|w: Entity| #[trigger]
        p(w) == (q(w) && (target == Some(entity) || w != step.window)) by {
        if p(w) {
            assert forall|k: int| 0 <= k < less.len() && (#[trigger] less[k]).window
                == w implies target_entity(rows, source, less[k]) == Some(entity) by {
                assert(moves[k].window == w);
            }
            assert(moves[last].window == step.window);
        }
        if q(w) && (target == Some(entity) || w != step.window) {
            assert forall|k: int| 0 <= k < moves.len() && (#[trigger] moves[k]).window
                == w implies target_entity(rows, source, moves[k]) == Some(entity) by {
                if k < last {
                    assert(less[k].window == w);
                }
            }
        }
    }
}

/// A window that is in none of the moves is not among those that come.
proof fn lemma_arrivals_are_marked(
    rows: Seq<RowView>,
    source: int,
    moves: Seq<WindowMove>,
    entity: Entity,
    window: Entity,
)
    requires
        forall|k: int| 0 <= k < moves.len() ==> (#[trigger] moves[k]).window != window,
    ensures
        forall|k: int|
            0 <= k < arrivals(rows, source, moves, entity).len() ==> strip::other_than(window)(
                #[trigger] arrivals(rows, source, moves, entity)[k],
            ),
{
    let came = comes_to(rows, source, entity);
    let picked = moves.filter(came);
    let all = arrivals(rows, source, moves, entity);
    assert forall|k: int| 0 <= k < all.len() implies strip::other_than(window)(
        #[trigger] all[k],
    ) by {
        assert(picked.contains(picked[k]));
        search::lemma_filter_contains(moves, came, picked[k]);
        let j = choose|j: int| 0 <= j < moves.len() && moves[j] == picked[k];
        assert(moves[j].window != window);
    }
}

/// The windows that come are those that come without the last move, and that of
/// the last move if it goes to the strip.
proof fn lemma_arrivals_by_parts(
    rows: Seq<RowView>,
    source: int,
    moves: Seq<WindowMove>,
    entity: Entity,
)
    requires
        moves.len() > 0,
    ensures
        arrivals(rows, source, moves, entity) == if target_entity(rows, source, moves.last())
            == Some(entity) {
            arrivals(rows, source, moves.drop_last(), entity).push(moves.last().window)
        } else {
            arrivals(rows, source, moves.drop_last(), entity)
        },
{
    let less = moves.drop_last();
    assert(moves =~= less.push(moves.last()));
    search::lemma_filter_push(less, moves.last(), comes_to(rows, source, entity));
    assert(arrivals(rows, source, moves, entity) =~= if target_entity(rows, source, moves.last())
        == Some(entity) {
        arrivals(rows, source, less, entity).push(moves.last().window)
    } else {
        arrivals(rows, source, less, entity)
    });
}

/// A window that is appended comes behind those that are there.
proof fn lemma_order_when_appended(
    strip: StripView,
    window: Entity,
    given: Seq<Entity>,
    q: spec_fn(Entity) -> bool,
    before: Seq<Entity>,
    p: spec_fn(Entity) -> bool,
)
    requires
        strip.windows() == given.filter(q) + before,
        forall|w: Entity| #[trigger] p(w) == q(w),
    ensures
        strip.appended(window).windows() == given.filter(p) + before.push(window),
{
    assert(p =~= q);
    strip.columns.lemma_flatten_push(seq![window]);
    assert(strip.appended(window).windows() =~= given.filter(p) + before.push(window));
}

/// A window that is taken out leaves the others in order.
proof fn lemma_order_when_taken_out(
    strip: StripView,
    window: Entity,
    given: Seq<Entity>,
    q: spec_fn(Entity) -> bool,
    before: Seq<Entity>,
    p: spec_fn(Entity) -> bool,
)
    requires
        strip.windows() == given.filter(q) + before,
        forall|w: Entity| #[trigger] p(w) == (q(w) && w != window),
        forall|k: int| 0 <= k < before.len() ==> strip::other_than(window)(#[trigger] before[k]),
    ensures
        strip.without(window).windows() == given.filter(p) + before,
{
    let out = strip::other_than(window);
    strip::without_keeps_the_order(strip, window);
    Seq::filter_distributes_over_add(given.filter(q), before, out);
    assert forall|w: Entity| #[trigger] p(w) == (q(w) && out(w)) by {}
    search::lemma_filter_twice(given, q, out, p);
    search::lemma_filter_all(before, out);
}

/// After the moves the windows of a strip are those that no move took out, in
/// the order that they had, followed by those that came, in the order of the
/// moves.
#[verifier::spinoff_prover]
pub proof fn moves_keep_the_order_of_windows(
    rows: Seq<RowView>,
    source: int,
    moves: Seq<WindowMove>,
    i: int,
)
    requires
        0 <= source < rows.len(),
        distinct_windows(moves),
        0 <= i < rows.len(),
    ensures
        rows_after_moves(rows, source, moves)[i].strip.windows() == rows[i].strip.windows().filter(
            remains(rows, source, moves, rows[i].entity),
        ) + arrivals(rows, source, moves, rows[i].entity),
    decreases moves.len(),
{
    let entity = rows[i].entity;
    let given = rows[i].strip.windows();
    let p = remains(rows, source, moves, entity);
    if moves.len() == 0 {
        search::lemma_filter_all(given, p);
        reveal(Seq::filter);
        assert(arrivals(rows, source, moves, entity) =~= Seq::<Entity>::empty());
        assert(given + arrivals(rows, source, moves, entity) =~= given);
    } else {
        let less = moves.drop_last();
        let step = moves.last();
        let last = moves.len() - 1;
        let mid = rows_after_moves(rows, source, less);
        let after = rows_after_moves(rows, source, moves);
        assert forall|j: int, k: int|
            0 <= j < less.len() && 0 <= k < less.len() && j != k implies (
        #[trigger] less[j]).window != (#[trigger] less[k]).window by {
            assert(moves[j].window != moves[k].window);
        }
        assert forall|k: int| 0 <= k < less.len() implies (#[trigger] less[k]).window
            != step.window by {
            assert(moves[k].window != moves[last].window);
        }
        moves_keep_the_order_of_windows(rows, source, less, i);
        moves_keep_all_but_windows(rows, source, less);
        lemma_target_is_stable(rows, source, less, step);
        search::lemma_first(
            rows,
            row_at(home_of(rows, source, step.window), step.marker.target_virtual_index),
        );
        let target = target_entity(rows, source, step);
        assert(entity_at(mid, move_target(mid, source, step)) == target);
        assert(after[i] == row_after_move(mid[i], target, step.window));
        assert(mid[i].entity == entity);
        let before = arrivals(rows, source, less, entity);
        lemma_remains_by_parts(rows, source, moves, entity);
        lemma_arrivals_by_parts(rows, source, moves, entity);
        if target == Some(entity) {
            lemma_order_when_appended(
                mid[i].strip,
                step.window,
                given,
                remains(rows, source, less, entity),
                before,
                p,
            );
        } else {
            lemma_arrivals_are_marked(rows, source, less, entity, step.window);
            lemma_order_when_taken_out(
                mid[i].strip,
                step.window,
                given,
                remains(rows, source, less, entity),
                before,
                p,
            );
        }
    }
}

/// If no window is sent to the strip that holds it already, the windows of a
/// strip are after the moves those that are not marked, in the order that they
/// had, followed by those that came.
pub proof fn unmarked_windows_come_first(
    rows: Seq<RowView>,
    source: int,
    moves: Seq<WindowMove>,
    i: int,
)
    requires
        0 <= source < rows.len(),
        distinct_windows(moves),
        0 <= i < rows.len(),
        forall|k: int|
            0 <= k < moves.len() && rows[i].strip.contains((#[trigger] moves[k]).window)
                ==> target_entity(rows, source, moves[k]) != Some(rows[i].entity),
    ensures
        rows_after_moves(rows, source, moves)[i].strip.windows() == rows[i].strip.windows().filter(
            unmarked(moves),
        ) + arrivals(rows, source, moves, rows[i].entity),
{
    moves_keep_the_order_of_windows(rows, source, moves, i);
    strip::windows_lists_what_the_strip_holds(rows[i].strip);
    let given = rows[i].strip.windows();
    let p = remains(rows, source, moves, rows[i].entity);
    assert forall|k: int| 0 <= k < given.len() implies p(#[trigger] given[k]) == unmarked(moves)(
        given[k],
    ) by {
        assert(given.contains(given[k]));
        if p(given[k]) && !unmarked(moves)(given[k]) {
            let j = choose|j: int| 0 <= j < moves.len() && (#[trigger] moves[j]).window == given[k];
            assert(rows[i].strip.contains(moves[j].window));
        }
    }
    search::lemma_same_filter(given, p, unmarked(moves));
}

/// A window that moves stays in its workspace: the strip that it goes to, or the
/// one that is made for it, is the row of that workspace that the mark names.
pub proof fn moved_windows_stay_in_their_workspace(
    rows: Seq<RowView>,
    source: int,
    step: WindowMove,
    display: Display,
)
    requires
        0 <= source < rows.len(),
    ensures
        match move_target(rows, source, step) {
            Some(t) => 0 <= t < rows.len() && rows[t].strip.id == home_of(rows, source, step.window)
                && rows[t].strip.virtual_index == step.marker.target_virtual_index,
            None => strip_for_move(rows, source, step, display).id == home_of(
                rows,
                source,
                step.window,
            ) && strip_for_move(rows, source, step, display).virtual_index
                == step.marker.target_virtual_index,
        },
        (exists|i: int| 0 <= i < rows.len() && #[trigger] rows[i].strip.contains(step.window))
            ==> exists|i: int|
            0 <= i < rows.len() && #[trigger] rows[i].strip.contains(step.window)
                && rows[i].strip.id == home_of(rows, source, step.window),
{
    search::lemma_first(
        rows,
        row_at(home_of(rows, source, step.window), step.marker.target_virtual_index),
    );
    let h = markers::holds(step.window);
    search::lemma_first(rows, h);
    if exists|i: int| 0 <= i < rows.len() && #[trigger] rows[i].strip.contains(step.window) {
        let i = choose|i: int|
            0 <= i < rows.len() && #[trigger] rows[i].strip.contains(step.window);
        assert(h(rows[i]));
        let f = search::first(rows, h).unwrap();
        assert(rows[f].strip.contains(step.window));
    }
}

} // verus!
