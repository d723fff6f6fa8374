//! Windows that are sent to another row.

use crate::geometry::Origin;
use crate::markers;
use crate::moves;
use crate::moves::WindowMove;
use crate::rows;
use crate::rows::{
    Action, Display, NewStrip, PreviousStripPosition, RowView, StripRow, Target, VirtualMoveMarker,
};
use crate::search;
use crate::strip;
use crate::types::{Command, Direction, Entity, Event, MoveFocus, Operation, WorkspaceId};
use vstd::prelude::*;

verus! {

/// Whether a column is the first of a row's strip that holds a window.
pub open spec fn stands_in(row: RowView, window: Entity, c: int) -> bool {
    &&& 0 <= c < row.strip.columns.len()
    &&& row.strip.columns[c].contains(window)
    &&& forall|b: int| 0 <= b < c ==> !(#[trigger] row.strip.columns[b]).contains(window)
}

/// Whether a row's strip has a window in some column.
pub open spec fn has_window(row: RowView, window: Entity) -> bool {
    exists|c: int|
        0 <= c < row.strip.columns.len() && (#[trigger] row.strip.columns[c]).contains(window)
}

/// Whether `n` is the window next to another in a row's strip: the top window of the
/// column to the left of the first that has the other, or else of the column to the
/// right.
pub open spec fn is_next_to(row: RowView, window: Entity, n: Entity) -> bool {
    let columns = row.strip.columns;
    exists|c: int| #[trigger]
        stands_in(row, window, c) && if c > 0 && columns[c - 1].len() > 0 {
            n == columns[c - 1][0]
        } else {
            c + 1 < columns.len() && columns[c + 1].len() > 0 && n == columns[c + 1][0]
        }
}

/// Whether a window belongs to a workspace: that of the source strip if the window
/// is there, else that of the first strip that has it, else that of the source.
pub open spec fn belongs_to(
    rows: Seq<RowView>,
    source: int,
    window: Entity,
    id: WorkspaceId,
) -> bool {
    ||| has_window(rows[source], window) && id == rows[source].strip.id
    ||| !has_window(rows[source], window) && exists|f: int|
        0 <= f < rows.len() && #[trigger] has_window(rows[f], window) && id == rows[f].strip.id && forall|
            g: int,
        |
            0 <= g < f ==> !#[trigger] has_window(rows[g], window)
    ||| id == rows[source].strip.id && forall|f: int|
        0 <= f < rows.len() ==> !#[trigger] has_window(rows[f], window)
}

/// Whether `t` is the first strip that makes up a row of a workspace, or nothing if
/// there is none.
pub open spec fn is_strip_of_row(
    rows: Seq<RowView>,
    id: WorkspaceId,
    virtual_index: u32,
    t: Option<int>,
) -> bool {
    match t {
        Some(t) => {
            &&& 0 <= t < rows.len()
            &&& rows[t].strip.id == id
            &&& rows[t].strip.virtual_index == virtual_index
            &&& forall|j: int|
                0 <= j < t ==> !((#[trigger] rows[j]).strip.id == id && rows[j].strip.virtual_index
                    == virtual_index)
        },
        None => forall|j: int|
            0 <= j < rows.len() ==> !((#[trigger] rows[j]).strip.id == id
                && rows[j].strip.virtual_index == virtual_index),
    }
}

/// A strip is looked into column by column.
proof fn lemma_has(row: RowView, window: Entity)
    ensures
        has_window(row, window) == row.strip.contains(window),
        markers::holds(window)(row) == has_window(row, window),
{
}

/// The workspace and the row that the law speaks of are those that the move goes by.
proof fn lemma_target(
    rows: Seq<RowView>,
    source: int,
    step: WindowMove,
    id: WorkspaceId,
    t: Option<int>,
)
    requires
        0 <= source < rows.len(),
        belongs_to(rows, source, step.window, id),
        is_strip_of_row(rows, id, step.marker.target_virtual_index, t),
    ensures
        moves::home_of(rows, source, step.window) == id,
        moves::move_target(rows, source, step) == t,
{
    let h = markers::holds(step.window);
    assert forall|i: int| 0 <= i < rows.len() implies #[trigger] h(rows[i]) == has_window(
        rows[i],
        step.window,
    ) by {
        lemma_has(rows[i], step.window);
    }
    assert(h(rows[source]) == has_window(rows[source], step.window));
    search::lemma_first(rows, h);
    if !has_window(rows[source], step.window) {
        match search::first(rows, h) {
            Some(f) => {
                assert(h(rows[f]));
                assert forall|g: int| 0 <= g < f implies !#[trigger] has_window(
                    rows[g],
                    step.window,
                ) by {
                    assert(!h(rows[g]));
                }
                if exists|e: int|
                    0 <= e < rows.len() && #[trigger] has_window(rows[e], step.window) && id
                        == rows[e].strip.id && forall|g: int|
                        0 <= g < e ==> !#[trigger] has_window(rows[g], step.window) {
                    let e = choose|e: int|
                        0 <= e < rows.len() && #[trigger] has_window(rows[e], step.window) && id
                            == rows[e].strip.id && forall|g: int|
                            0 <= g < e ==> !#[trigger] has_window(rows[g], step.window);
                    if e < f {
                        assert(!has_window(rows[e], step.window));
                    }
                    if f < e {
                        assert(!has_window(rows[f], step.window));
                    }
                    assert(e == f);
                }
            },
            None => {
                assert forall|g: int| 0 <= g < rows.len() implies !#[trigger] has_window(
                    rows[g],
                    step.window,
                ) by {
                    assert(!h(rows[g]));
                }
            },
        }
    }
    let p = moves::row_at(id, step.marker.target_virtual_index);
    search::lemma_first(rows, p);
    match t {
        Some(k) => {
            assert(p(rows[k]));
            assert forall|j: int| 0 <= j < k implies !p(rows[j]) by {}
            search::lemma_first_is(rows, p, k);
        },
        None => {
            assert forall|j: int| 0 <= j < rows.len() implies !p(rows[j]) by {}
            search::lemma_first_none(rows, p);
        },
    }
}

/// What a list of moves with one more at the end adds to what the list does.
proof fn lemma_one_more(
    rows: Seq<RowView>,
    source: int,
    moves: Seq<WindowMove>,
    step: WindowMove,
    display: Display,
)
    ensures
        moves::actions_for_moves(rows, source, moves.push(step), display)
            == moves::actions_for_moves(rows, source, moves, display) + moves::actions_for_move(
            moves::rows_after_moves(rows, source, moves),
            source,
            step,
            display,
        ),
        moves::rows_after_moves(rows, source, moves.push(step)) == moves::rows_after_move(
            moves::rows_after_moves(rows, source, moves),
            source,
            step,
        ),
{
    let more = moves.push(step);
    assert(more.drop_last() =~= moves);
    assert(more.last() == step);
}

/// No moves do nothing.
pub proof fn no_moves_do_nothing(rows: Seq<RowView>, source: int, display: Display)
    ensures
        moves::rows_after_moves(rows, source, Seq::empty()) == rows,
        moves::actions_for_moves(rows, source, Seq::empty(), display) == Seq::<Action>::empty(),
{
}

/// Where a move takes its window: to the right end of the first strip that makes up
/// the named row of the window's own workspace, and out of every other strip; if
/// there is no such strip, out of all of them. Nothing else in the table changes.
/// `now` is the table as the moves before left it.
pub proof fn a_move_takes_its_window_to_the_named_row(
    rows: Seq<RowView>,
    source: int,
    moves: Seq<WindowMove>,
    step: WindowMove,
    now: Seq<RowView>,
    id: WorkspaceId,
    t: Option<int>,
    i: int,
)
    requires
        0 <= source < rows.len(),
        now == moves::rows_after_moves(rows, source, moves),
        belongs_to(now, source, step.window, id),
        is_strip_of_row(now, id, step.marker.target_virtual_index, t),
        forall|j: int, k: int|
            0 <= j < now.len() && 0 <= k < now.len() && j != k ==> (#[trigger] now[j]).entity != (
            #[trigger] now[k]).entity,
        0 <= i < now.len(),
    ensures
        ({
            let after = moves::rows_after_moves(rows, source, moves.push(step));
            &&& after.len() == now.len()
            &&& after[i] == RowView { strip: after[i].strip, ..now[i] }
            &&& after[i].strip.id == now[i].strip.id
            &&& after[i].strip.virtual_index == now[i].strip.virtual_index
            &&& t == Some(i) ==> after[i].strip.columns == now[i].strip.columns.push(
                seq![step.window],
            )
            &&& t != Some(i) ==> after[i].strip.columns == now[i].strip.without(step.window).columns
            &&& t != Some(i) ==> after[i].strip.columns.flatten()
                == now[i].strip.columns.flatten().filter(|w: Entity| w != step.window)
            &&& t != Some(i) && !has_window(now[i], step.window) && (forall|c: int|
                0 <= c < now[i].strip.columns.len() ==> (#[trigger] now[i].strip.columns[c]).len()
                    > 0) ==> after[i].strip.columns == now[i].strip.columns
        }),
{
    let display: Display = arbitrary();
    lemma_one_more(rows, source, moves, step, display);
    moves::moves_keep_all_but_windows(rows, source, moves);
    lemma_target(now, source, step, id, t);
    lemma_has(now[i], step.window);
    if t is Some && t != Some(i) {
        assert(now[t.unwrap()].entity != now[i].entity);
    }
    strip::without_keeps_the_order(now[i].strip, step.window);
    assert(strip::other_than(step.window) =~= (|w: Entity| w != step.window));
    if !has_window(now[i], step.window) && (forall|c: int|
        0 <= c < now[i].strip.columns.len() ==> (#[trigger] now[i].strip.columns[c]).len() > 0) {
        strip::without_absent_window_is_unchanged(now[i].strip, step.window);
    }
}

/// A move that asks the focus to stay, of a window that has a neighbour in the
/// source strip: whatever the target is or holds, the view stays, and the focus
/// goes to that neighbour. The target is selected; if it is not there it is made, out
/// of view, and told where to come up.
pub proof fn focus_stays_with_a_neighbour(
    rows: Seq<RowView>,
    source: int,
    moves: Seq<WindowMove>,
    step: WindowMove,
    display: Display,
    now: Seq<RowView>,
    id: WorkspaceId,
    t: Option<int>,
    n: Entity,
)
    requires
        0 <= source < rows.len(),
        now == moves::rows_after_moves(rows, source, moves),
        belongs_to(now, source, step.window, id),
        is_strip_of_row(now, id, step.marker.target_virtual_index, t),
        step.marker.move_focus == MoveFocus::Stay,
        is_next_to(now[source], step.window, n),
    ensures
        ({
            let before = moves::actions_for_moves(rows, source, moves, display);
            let all = moves::actions_for_moves(rows, source, moves.push(step), display);
            let own = all.skip(before.len() as int);
            let w = step.window;
            &&& all == before + own
            &&& forall|target: Target| !#[trigger] own.contains(Action::InsertActive(target))
            &&& own.contains(Action::InsertFocused(n))
            &&& own.contains(Action::RemoveFocused(w))
            &&& own.contains(Action::ReshuffleAround(n))
            &&& t matches Some(k) ==> own == seq![
                Action::RemoveVirtualMove(w),
                Action::InsertSelected(Target::Strip(now[k].entity)),
                Action::ReshuffleAround(n),
                Action::RemoveFocused(w),
                Action::InsertFocused(n),
            ]
            &&& t is None && display.bounds.max.x - 10 >= i32::MIN && display.bounds.max.y - 10
                >= i32::MIN ==> own == seq![
                Action::RemoveVirtualMove(w),
                Action::Spawn(
                    NewStrip {
                        id,
                        virtual_index: step.marker.target_virtual_index,
                        window: Some(w),
                        position: Origin {
                            x: (display.bounds.max.x - 10) as i32,
                            y: (display.bounds.max.y - 10) as i32,
                        },
                        parent: display.entity,
                        selected: true,
                        fullscreen: None,
                        previous: Some(
                            PreviousStripPosition { origin: display.bounds.min, focus: Some(w) },
                        ),
                    },
                ),
                Action::InsertSelected(Target::Spawned),
                Action::ReshuffleAround(n),
                Action::RemoveFocused(w),
                Action::InsertFocused(n),
            ]
        }),
{
    lemma_one_more(rows, source, moves, step, display);
    moves::moves_keep_all_but_windows(rows, source, moves);
    lemma_target(now, source, step, id, t);
    let before = moves::actions_for_moves(rows, source, moves, display);
    let all = moves::actions_for_moves(rows, source, moves.push(step), display);
    let own = all.skip(before.len() as int);
    let w = step.window;
    assert(own =~= moves::actions_for_move(now, source, step, display));
    lemma_next_to(now[source], w, n);
    match t {
        Some(k) => {
            assert(own =~= seq![
                Action::RemoveVirtualMove(w),
                Action::InsertSelected(Target::Strip(now[k].entity)),
                Action::ReshuffleAround(n),
                Action::RemoveFocused(w),
                Action::InsertFocused(n),
            ]);
            assert(own[2] == Action::ReshuffleAround(n));
            assert(own[3] == Action::RemoveFocused(w));
            assert(own[4] == Action::InsertFocused(n));
        },
        None => {
            let new = moves::strip_for_move(now, source, step, display);
            assert(own =~= seq![
                Action::RemoveVirtualMove(w),
                Action::Spawn(new),
                Action::InsertSelected(Target::Spawned),
                Action::ReshuffleAround(n),
                Action::RemoveFocused(w),
                Action::InsertFocused(n),
            ]);
            assert(own[3] == Action::ReshuffleAround(n));
            assert(own[4] == Action::RemoveFocused(w));
            assert(own[5] == Action::InsertFocused(n));
        },
    }
}

/// The window next to another is its neighbour.
proof fn lemma_next_to(row: RowView, window: Entity, n: Entity)
    ensures
        is_next_to(row, window, n) == (row.strip.neighbour(window) == Some(n)),
{
    let columns = row.strip.columns;
    let h = strip::holding(window);
    if is_next_to(row, window, n) {
        let c = choose|c: int| #[trigger]
            stands_in(row, window, c) && if c > 0 && columns[c - 1].len() > 0 {
                n == columns[c - 1][0]
            } else {
                c + 1 < columns.len() && columns[c + 1].len() > 0 && n == columns[c + 1][0]
            };
        lemma_place(columns, window, c);
    }
    if row.strip.neighbour(window) == Some(n) {
        search::lemma_first(columns, h);
        let c = search::first(columns, h).unwrap();
        assert(h(columns[c]));
        assert forall|b: int| 0 <= b < c implies !(#[trigger] columns[b]).contains(window) by {
            assert(!h(columns[b]));
        }
        assert(stands_in(row, window, c));
    }
}

/// Where a window stands is where it is looked for.
proof fn lemma_place(columns: Seq<Seq<Entity>>, window: Entity, c: int)
    requires
        0 <= c < columns.len(),
        columns[c].contains(window),
        forall|b: int| 0 <= b < c ==> !(#[trigger] columns[b]).contains(window),
    ensures
        search::first(columns, strip::holding(window)) == Some(c),
{
    assert forall|b: int| 0 <= b < c implies !strip::holding(window)(columns[b]) by {
        assert(!columns[b].contains(window));
    }
    search::lemma_first_is(columns, strip::holding(window), c);
}

/// A move that takes the view along: it asks for that, or the window has no
/// neighbour in the source strip. The source strip keeps in mind where it stands and
/// the top window of the column to the left, the target is selected and made active,
/// and the window is brought into view. A missing target is made in view.
pub proof fn the_view_goes_along(
    rows: Seq<RowView>,
    source: int,
    moves: Seq<WindowMove>,
    step: WindowMove,
    display: Display,
    now: Seq<RowView>,
    id: WorkspaceId,
    t: Option<int>,
    c: Option<int>,
)
    requires
        0 <= source < rows.len(),
        now == moves::rows_after_moves(rows, source, moves),
        belongs_to(now, source, step.window, id),
        is_strip_of_row(now, id, step.marker.target_virtual_index, t),
        match c {
            Some(c) => stands_in(now[source], step.window, c),
            None => !has_window(now[source], step.window),
        },
        step.marker.move_focus == MoveFocus::Follow || forall|n: Entity|
            !#[trigger] is_next_to(now[source], step.window, n),
    ensures
        ({
            let before = moves::actions_for_moves(rows, source, moves, display);
            let all = moves::actions_for_moves(rows, source, moves.push(step), display);
            let own = all.skip(before.len() as int);
            let w = step.window;
            let kept = Action::InsertPrevious(
                now[source].entity,
                PreviousStripPosition {
                    origin: now[source].position,
                    focus: match c {
                        Some(c) => if c > 0 && now[source].strip.columns[c - 1].len() > 0 {
                            Some(now[source].strip.columns[c - 1][0])
                        } else {
                            None
                        },
                        None => None,
                    },
                },
            );
            &&& all == before + own
            &&& forall|e: Entity| !#[trigger] own.contains(Action::InsertFocused(e))
            &&& t matches Some(k) ==> own == seq![
                Action::RemoveVirtualMove(w),
                kept,
                Action::InsertSelected(Target::Strip(now[k].entity)),
                Action::InsertActive(Target::Strip(now[k].entity)),
                Action::ReshuffleAround(w),
            ]
            &&& t is None ==> own == seq![
                Action::RemoveVirtualMove(w),
                Action::Spawn(
                    NewStrip {
                        id,
                        virtual_index: step.marker.target_virtual_index,
                        window: Some(w),
                        position: display.bounds.min,
                        parent: display.entity,
                        selected: true,
                        fullscreen: None,
                        previous: None,
                    },
                ),
                kept,
                Action::InsertSelected(Target::Spawned),
                Action::InsertActive(Target::Spawned),
                Action::ReshuffleAround(w),
            ]
        }),
{
    lemma_one_more(rows, source, moves, step, display);
    moves::moves_keep_all_but_windows(rows, source, moves);
    lemma_target(now, source, step, id, t);
    lemma_has(now[source], step.window);
    if let Some(n) = now[source].strip.neighbour(step.window) {
        lemma_next_to(now[source], step.window, n);
    }
    let before = moves::actions_for_moves(rows, source, moves, display);
    let all = moves::actions_for_moves(rows, source, moves.push(step), display);
    let own = all.skip(before.len() as int);
    let w = step.window;
    let strip = now[source].strip;
    assert(own =~= moves::actions_for_move(now, source, step, display));
    match c {
        Some(c) => {
            lemma_place(strip.columns, w, c);
        },
        None => {
            assert forall|b: int| 0 <= b < strip.columns.len() implies !strip::holding(w)(
                strip.columns[b],
            ) by {
                assert(!strip.columns[b].contains(w));
            }
            search::lemma_first_none(strip.columns, strip::holding(w));
        },
    }
    let kept = Action::InsertPrevious(
        now[source].entity,
        PreviousStripPosition { origin: now[source].position, focus: strip.left_of(w) },
    );
    match t {
        Some(k) => {
            assert(own =~= seq![
                Action::RemoveVirtualMove(w),
                kept,
                Action::InsertSelected(Target::Strip(now[k].entity)),
                Action::InsertActive(Target::Strip(now[k].entity)),
                Action::ReshuffleAround(w),
            ]);
        },
        None => {
            let new = moves::strip_for_move(now, source, step, display);
            assert(own =~= seq![
                Action::RemoveVirtualMove(w),
                Action::Spawn(new),
                kept,
                Action::InsertSelected(Target::Spawned),
                Action::InsertActive(Target::Spawned),
                Action::ReshuffleAround(w),
            ]);
        },
    }
}

/// The command to send the focused window in a direction.
pub open spec fn send_command(direction: Direction, move_focus: MoveFocus) -> Event {
    Event::Command { command: Command::Window(Operation::VirtualMove(direction, move_focus)) }
}

/// The focused window is marked for the row below if another column is left behind,
/// and for the row above unless it is in the first, with the focus as the command
/// asks for it.
pub proof fn windows_are_sent_one_row_up_or_down(
    window: Entity,
    move_focus: MoveFocus,
    virtual_index: u32,
    len: nat,
)
    requires
        virtual_index < u32::MAX,
    ensures
        moves::sent(
            send_command(Direction::South, move_focus),
            Some(window),
            virtual_index,
            len,
        ) == if len > 1 {
            seq![
                Action::InsertVirtualMove(
                    window,
                    VirtualMoveMarker {
                        target_virtual_index: (virtual_index + 1) as u32,
                        move_focus,
                    },
                ),
            ]
        } else {
            Seq::empty()
        },
        moves::sent(
            send_command(Direction::North, move_focus),
            Some(window),
            virtual_index,
            len,
        ) == if virtual_index > 0 {
            seq![
                Action::InsertVirtualMove(
                    window,
                    VirtualMoveMarker {
                        target_virtual_index: (virtual_index - 1) as u32,
                        move_focus,
                    },
                ),
            ]
        } else {
            Seq::empty()
        },
{
}

/// From the last number that there is, a window is sent up like from any other.
pub proof fn windows_are_sent_up_from_anywhere(
    window: Entity,
    move_focus: MoveFocus,
    virtual_index: u32,
    len: nat,
)
    requires
        virtual_index > 0,
    ensures
        moves::sent(
            send_command(Direction::North, move_focus),
            Some(window),
            virtual_index,
            len,
        ) == seq![
            Action::InsertVirtualMove(
                window,
                VirtualMoveMarker {
                    target_virtual_index: (virtual_index - 1) as u32,
                    move_focus,
                },
            ),
        ],
        len <= 1 ==> moves::sent(
            send_command(Direction::South, move_focus),
            Some(window),
            virtual_index,
            len,
        ) == Seq::<Action>::empty(),
{
}

/// Nothing else sends a window: no other direction, event or command, and no command
/// where no window has focus.
pub proof fn nothing_else_sends_windows(
    message: Event,
    focused: Option<Entity>,
    virtual_index: u32,
    len: nat,
)
    requires
        focused is None || forall|move_focus: MoveFocus|
            message != #[trigger] send_command(Direction::South, move_focus) && message
                != send_command(Direction::North, move_focus),
    ensures
        moves::sent(message, focused, virtual_index, len) == Seq::<Action>::empty(),
{
    if let Some(Operation::VirtualMove(direction, move_focus)) = message.operation() {
        assert(message == send_command(direction, move_focus));
        assert(message != send_command(Direction::South, move_focus) || focused is None);
    }
}

/// A command is answered with what it sends.
pub proof fn commands_are_answered_with_what_they_send(
    message: &Event,
    focused: Option<Entity>,
    virtual_index: u32,
    len: usize,
    actions: Vec<Action>,
)
    requires
        call_ensures(
            moves::move_virtual_workspace_bind,
            (message, focused, virtual_index, len),
            actions,
        ),
    ensures
        actions@ == moves::sent(*message, focused, virtual_index, len as nat),
        focused is None ==> actions.len() == 0,
        actions.len() > 0 ==> exists|direction: Direction, move_focus: MoveFocus|
            *message == #[trigger] send_command(direction, move_focus) && (direction
                == Direction::South && len > 1 || direction == Direction::North && virtual_index
                > 0),
{
    if actions.len() > 0 {
        if let Some(Operation::VirtualMove(direction, move_focus)) = message.operation() {
            assert(*message == send_command(direction, move_focus));
        }
    }
}

/// All moves start from the first active strip, one after another; without an active
/// strip there are none.
pub proof fn moves_start_from_the_active_strip(
    moves: &Vec<WindowMove>,
    display: &Display,
    rows: &mut Vec<StripRow>,
    actions: Vec<Action>,
    source: int,
)
    requires
        call_ensures(moves::handle_virtual_window_moves, (moves, display, rows), actions),
    ensures
        ({
            let table = old(rows).deep_view();
            &&& 0 <= source < table.len() && table[source].active && (forall|j: int|
                0 <= j < source ==> !(#[trigger] table[j]).active) ==> final(rows).deep_view()
                == moves::rows_after_moves(table, source, moves@) && actions@
                == moves::actions_for_moves(table, source, moves@, *display)
            &&& (forall|j: int| 0 <= j < table.len() ==> !(#[trigger] table[j]).active)
                ==> final(rows).deep_view() == table && actions.len() == 0
        }),
{
    let table = old(rows).deep_view();
    let p = rows::is_active();
    if 0 <= source < table.len() && table[source].active && (forall|j: int|
        0 <= j < source ==> !(#[trigger] table[j]).active) {
        assert forall|j: int| 0 <= j < source implies !p(table[j]) by {}
        search::lemma_first_is(table, p, source);
    }
    if forall|j: int| 0 <= j < table.len() ==> !(#[trigger] table[j]).active {
        assert forall|j: int| 0 <= j < table.len() implies !p(table[j]) by {}
        search::lemma_first_none(table, p);
    }
}

/// Whether a move makes a row that nobody sees: the focus is to stay and can, and the
/// row is not there yet.
pub open spec fn makes_a_hidden_row(now: Seq<RowView>, source: int, step: WindowMove) -> bool {
    &&& step.marker.move_focus == MoveFocus::Stay
    &&& exists|n: Entity| #[trigger] is_next_to(now[source], step.window, n)
    &&& exists|id: WorkspaceId| #[trigger]
        belongs_to(now, source, step.window, id) && is_strip_of_row(
            now,
            id,
            step.marker.target_virtual_index,
            None,
        )
}

proof fn lemma_makes_hidden(now: Seq<RowView>, source: int, step: WindowMove)
    requires
        0 <= source < now.len(),
    ensures
        moves::move_hides(now, source, step) == makes_a_hidden_row(now, source, step),
{
    let neighbour = now[source].strip.neighbour(step.window);
    if neighbour is Some {
        lemma_next_to(now[source], step.window, neighbour.unwrap());
    }
    if makes_a_hidden_row(now, source, step) {
        let n = choose|n: Entity| #[trigger] is_next_to(now[source], step.window, n);
        lemma_next_to(now[source], step.window, n);
        let id = choose|id: WorkspaceId| #[trigger]
            belongs_to(now, source, step.window, id) && is_strip_of_row(
                now,
                id,
                step.marker.target_virtual_index,
                None,
            );
        lemma_target(now, source, step, id, None);
    }
    if moves::move_hides(now, source, step) {
        let w = step.window;
        let id = moves::home_of(now, source, w);
        let h = markers::holds(w);
        assert forall|i: int| 0 <= i < now.len() implies #[trigger] h(now[i]) == has_window(
            now[i],
            w,
        ) by {
            lemma_has(now[i], w);
        }
        assert(h(now[source]) == has_window(now[source], w));
        search::lemma_first(now, h);
        match search::first(now, h) {
            Some(f) => {
                assert(h(now[f]));
                assert(has_window(now[f], w));
                assert forall|g: int| 0 <= g < f implies !#[trigger] has_window(now[g], w) by {
                    assert(!h(now[g]));
                }
            },
            None => {
                assert forall|g: int| 0 <= g < now.len() implies !#[trigger] has_window(
                    now[g],
                    w,
                ) by {
                    assert(!h(now[g]));
                }
            },
        }
        assert(belongs_to(now, source, w, id));
        let p = moves::row_at(id, step.marker.target_virtual_index);
        search::lemma_first(now, p);
        assert forall|j: int| 0 <= j < now.len() implies !((#[trigger] now[j]).strip.id == id
            && now[j].strip.virtual_index == step.marker.target_virtual_index) by {
            assert(!p(now[j]));
        }
        assert(is_strip_of_row(now, id, step.marker.target_virtual_index, None));
    }
}

/// Room for a hidden row is asked for if and only if some move, on the table as the
/// moves before it leave it, makes a row that nobody sees.
pub proof fn room_is_asked_for_hidden_rows(
    moves: &Vec<WindowMove>,
    rows: &Vec<StripRow>,
    hides: bool,
    source: int,
)
    requires
        call_ensures(moves::hides_a_row, (moves, rows), hides),
        0 <= source < rows.len(),
        rows.deep_view()[source].active,
        forall|j: int| 0 <= j < source ==> !(#[trigger] rows.deep_view()[j]).active,
    ensures
        hides <==> exists|k: int|
            0 <= k < moves.len() && makes_a_hidden_row(
                moves::rows_after_moves(rows.deep_view(), source, moves@.take(k)),
                source,
                #[trigger] moves@[k],
            ),
{
    let table = rows.deep_view();
    let p = rows::is_active();
    assert forall|j: int| 0 <= j < source implies !p(table[j]) by {}
    search::lemma_first_is(table, p, source);
    reveal(moves::some_move_hides);
    reveal(moves::hides_at);
    assert forall|k: int| 0 <= k < moves.len() implies moves::hides_at(table, source, moves@, k)
        == makes_a_hidden_row(
        moves::rows_after_moves(table, source, moves@.take(k)),
        source,
        #[trigger] moves@[k],
    ) by {
        moves::moves_keep_all_but_windows(table, source, moves@.take(k));
        lemma_makes_hidden(
            moves::rows_after_moves(table, source, moves@.take(k)),
            source,
            moves@[k],
        );
    }
    if hides {
        let k = choose|k: int|
            0 <= k < moves@.len() && #[trigger] moves::hides_at(table, source, moves@, k);
        assert(makes_a_hidden_row(
            moves::rows_after_moves(table, source, moves@.take(k)),
            source,
            moves@[k],
        ));
    }
    if exists|k: int|
        0 <= k < moves.len() && makes_a_hidden_row(
            moves::rows_after_moves(table, source, moves@.take(k)),
            source,
            #[trigger] moves@[k],
        ) {
        let k = choose|k: int|
            0 <= k < moves.len() && makes_a_hidden_row(
                moves::rows_after_moves(table, source, moves@.take(k)),
                source,
                #[trigger] moves@[k],
            );
        assert(moves::hides_at(table, source, moves@, k));
    }
}

/// Without an active strip no room is asked for.
pub proof fn no_room_is_asked_for_without_an_active_strip(
    moves: &Vec<WindowMove>,
    rows: &Vec<StripRow>,
    hides: bool,
)
    requires
        call_ensures(moves::hides_a_row, (moves, rows), hides),
        forall|j: int| 0 <= j < rows.len() ==> !(#[trigger] rows.deep_view()[j]).active,
    ensures
        !hides,
{
    let table = rows.deep_view();
    let p = rows::is_active();
    assert forall|j: int| 0 <= j < table.len() implies !p(table[j]) by {}
    search::lemma_first_none(table, p);
}

} // verus!
