use std::collections::HashSet;

use workspaces::detect::detect_moved_windows;
use workspaces::geometry::{Origin, Rect, Size};
use workspaces::markers::{
    cleanup_active_workspace_marker, cleanup_selected_space_marker, virtual_strip_activated,
};
use workspaces::moves::{
    find_active, handle_virtual_window_moves, hides_a_row, move_virtual_workspace_bind, WindowMove,
};
use workspaces::refresh::{refresh_request, refresh_workspace_window_sizes};
use workspaces::rows::{
    Action, Display, NewStrip, PreviousStripPosition, RefreshWindowSizes, StripRow, Target,
    Unmanaged, VirtualMoveMarker, WindowRow,
};
use workspaces::strip::LayoutStrip;
use workspaces::types::{
    Command, Direction, Entity, Event, MoveFocus, Operation, ProcessSerialNumber, WinID,
    WorkspaceId,
};
use workspaces::virtual_rows::{cleanup_virtual_workspaces, switch_virtual_workspace_bind};
use workspaces::visibility::{hide_inactive_workspace, hides_a_strip, show_active_workspace};

fn entity(bits: u64) -> Entity {
    Entity { bits }
}

fn display() -> Display {
    Display {
        entity: entity(10),
        id: 1,
        bounds: Rect::new(5, 6, 1024, 768),
    }
}

fn row(bits: u64, id: WorkspaceId, virtual_index: u32, windows: &[u64]) -> StripRow {
    StripRow {
        entity: entity(bits),
        strip: LayoutStrip::from_columns(
            id,
            virtual_index,
            windows.iter().map(|bits| vec![entity(*bits)]).collect(),
        ),
        position: Origin { x: 70, y: 80 },
        parent: Some(entity(10)),
        active: false,
        selected: false,
        fullscreen: None,
        previous: None,
        timeout: None,
        refresh: None,
    }
}

fn active(row: StripRow) -> StripRow {
    StripRow { active: true, ..row }
}

fn window(bits: u64, id: WinID) -> WindowRow {
    WindowRow {
        entity: entity(bits),
        id,
        bounds: Size { x: 400, y: 1000 },
        unmanaged: None,
        psn: Some(ProcessSerialNumber { high: 1, low: id as u32 }),
    }
}

fn bits(row: &StripRow) -> Vec<u64> {
    row.strip.all_windows().iter().map(|window| window.bits).collect()
}

fn indices(rows: &[StripRow]) -> Vec<u32> {
    rows.iter().map(|row| row.strip.virtual_index()).collect()
}

fn order(operation: Operation) -> Event {
    Event::Command {
        command: Command::Window(operation),
    }
}

fn step(bits: u64, target_virtual_index: u32, move_focus: MoveFocus) -> WindowMove {
    WindowMove {
        window: entity(bits),
        marker: VirtualMoveMarker { target_virtual_index, move_focus },
    }
}

#[test]
fn active_mark_is_taken_from_the_others() {
    let rows = vec![
        active(row(20, 2, 0, &[])),
        row(21, 2, 1, &[]),
        active(row(22, 3, 0, &[])),
        active(row(23, 3, 1, &[])),
    ];
    assert_eq!(
        cleanup_active_workspace_marker(entity(22), &rows),
        vec![Action::RemoveActive(entity(20)), Action::RemoveActive(entity(23))]
    );
}

#[test]
fn selected_mark_is_taken_from_the_others_of_the_workspace() {
    let mut rows = vec![
        row(20, 2, 0, &[]),
        row(21, 2, 1, &[]),
        row(22, 3, 0, &[]),
        row(23, 2, 2, &[]),
    ];
    for row in rows.iter_mut() {
        row.selected = row.entity != entity(23);
    }
    assert_eq!(
        cleanup_selected_space_marker(entity(21), &rows),
        vec![Action::RemoveSelected(entity(20))]
    );
    assert!(cleanup_selected_space_marker(entity(99), &rows).is_empty());
}

#[test]
fn focus_in_another_strip_activates_it() {
    let rows = vec![
        row(20, 2, 0, &[30]),
        active(row(21, 2, 1, &[31])),
        row(22, 2, 2, &[30]),
    ];
    assert!(virtual_strip_activated(entity(31), &rows).is_empty());
    assert!(virtual_strip_activated(entity(99), &rows).is_empty());
    let first = Target::Strip(entity(20));
    let second = Target::Strip(entity(22));
    assert_eq!(
        virtual_strip_activated(entity(30), &rows),
        vec![
            Action::InsertActive(first),
            Action::InsertSelected(first),
            Action::InsertActive(second),
            Action::InsertSelected(second),
        ]
    );
}

#[test]
fn focus_without_an_active_strip_changes_nothing() {
    let rows = vec![row(20, 2, 0, &[30])];
    assert_eq!(find_active(&rows), None);
    assert!(virtual_strip_activated(entity(30), &rows).is_empty());
}

#[test]
fn empty_rows_go_and_the_others_are_renumbered() {
    let mut rows = vec![
        row(20, 2, 7, &[30]),
        row(21, 2, 3, &[]),
        row(22, 3, 9, &[]),
        row(23, 2, 0, &[]),
        row(24, 2, 5, &[31]),
    ];
    let actions = cleanup_virtual_workspaces(entity(20), &mut rows);
    assert_eq!(actions, vec![Action::Despawn(entity(21))]);
    assert_eq!(indices(&rows), vec![2, 3, 9, 0, 1]);
    assert_eq!(bits(&rows[0]), vec![30]);
}

#[test]
fn rows_with_one_number_keep_their_order() {
    let mut rows = vec![row(20, 2, 4, &[30]), row(21, 2, 4, &[31]), row(22, 2, 1, &[32])];
    assert!(cleanup_virtual_workspaces(entity(21), &mut rows).is_empty());
    assert_eq!(indices(&rows), vec![1, 2, 0]);
    assert!(cleanup_virtual_workspaces(entity(21), &mut rows).is_empty());
    assert_eq!(indices(&rows), vec![1, 2, 0]);
}

#[test]
fn tidying_after_an_unknown_strip_changes_nothing() {
    let mut rows = vec![row(20, 2, 4, &[30])];
    assert!(cleanup_virtual_workspaces(entity(99), &mut rows).is_empty());
    assert_eq!(indices(&rows), vec![4]);
}

#[test]
fn switch_goes_one_row_down_and_back() {
    let mut rows = vec![
        row(20, 2, 2, &[]),
        active(row(21, 2, 0, &[])),
        row(22, 3, 1, &[]),
        row(23, 2, 1, &[]),
    ];
    let south = order(Operation::Virtual(Direction::South));
    let north = order(Operation::Virtual(Direction::North));
    let target = Target::Strip(entity(23));
    assert_eq!(
        switch_virtual_workspace_bind(&south, 2, &rows),
        vec![Action::InsertSelected(target), Action::InsertActive(target)]
    );
    assert!(switch_virtual_workspace_bind(&north, 2, &rows).is_empty());
    rows[1].active = false;
    rows[3].active = true;
    let target = Target::Strip(entity(21));
    assert_eq!(
        switch_virtual_workspace_bind(&north, 2, &rows),
        vec![Action::InsertSelected(target), Action::InsertActive(target)]
    );
    rows[3].active = false;
    rows[0].active = true;
    assert!(switch_virtual_workspace_bind(&south, 2, &rows).is_empty());
}

#[test]
fn switch_answers_its_own_command_alone() {
    let rows = vec![active(row(20, 2, 0, &[])), row(21, 2, 1, &[])];
    for message in [
        order(Operation::Virtual(Direction::East)),
        order(Operation::Focus(Direction::South)),
        order(Operation::VirtualMove(Direction::South, MoveFocus::Follow)),
        Event::Command { command: Command::PrintState },
        Event::SpaceChanged,
    ] {
        assert!(switch_virtual_workspace_bind(&message, 2, &rows).is_empty());
    }
    let south = order(Operation::Virtual(Direction::South));
    assert!(switch_virtual_workspace_bind(&south, 9, &rows).is_empty());
}

#[test]
fn switch_without_an_active_row_starts_from_the_first() {
    let rows = vec![row(20, 2, 1, &[]), row(21, 2, 0, &[])];
    let south = order(Operation::Virtual(Direction::South));
    assert_eq!(
        switch_virtual_workspace_bind(&south, 2, &rows)[0],
        Action::InsertSelected(Target::Strip(entity(20)))
    );
}

#[test]
fn window_is_marked_for_the_next_row() {
    let south = order(Operation::VirtualMove(Direction::South, MoveFocus::Stay));
    let north = order(Operation::VirtualMove(Direction::North, MoveFocus::Follow));
    assert_eq!(
        move_virtual_workspace_bind(&south, Some(entity(30)), 4, 2),
        vec![Action::InsertVirtualMove(
            entity(30),
            VirtualMoveMarker {
                target_virtual_index: 5,
                move_focus: MoveFocus::Stay,
            }
        )]
    );
    assert_eq!(
        move_virtual_workspace_bind(&north, Some(entity(30)), 4, 1),
        vec![Action::InsertVirtualMove(
            entity(30),
            VirtualMoveMarker {
                target_virtual_index: 3,
                move_focus: MoveFocus::Follow,
            }
        )]
    );
}

#[test]
fn window_is_not_marked_without_a_row_or_a_reason() {
    let focus = Some(entity(30));
    let south = order(Operation::VirtualMove(Direction::South, MoveFocus::Stay));
    let north = order(Operation::VirtualMove(Direction::North, MoveFocus::Stay));
    let west = order(Operation::VirtualMove(Direction::West, MoveFocus::Stay));
    let other = order(Operation::Virtual(Direction::South));
    assert!(move_virtual_workspace_bind(&south, focus, 0, 1).is_empty());
    assert!(move_virtual_workspace_bind(&north, focus, 0, 3).is_empty());
    assert!(move_virtual_workspace_bind(&west, focus, 1, 3).is_empty());
    assert!(move_virtual_workspace_bind(&other, focus, 1, 3).is_empty());
    assert!(move_virtual_workspace_bind(&south, None, 1, 3).is_empty());
}

#[test]
fn followed_window_takes_the_view_along() {
    let mut rows = vec![
        row(20, 2, 1, &[33]),
        active(row(21, 2, 0, &[30, 31, 32])),
        row(22, 3, 1, &[]),
    ];
    let moves = vec![step(31, 1, MoveFocus::Follow)];
    let actions = handle_virtual_window_moves(&moves, &display(), &mut rows);
    let target = Target::Strip(entity(20));
    assert_eq!(
        actions,
        vec![
            Action::RemoveVirtualMove(entity(31)),
            Action::InsertPrevious(
                entity(21),
                PreviousStripPosition {
                    origin: Origin { x: 70, y: 80 },
                    focus: Some(entity(30)),
                }
            ),
            Action::InsertSelected(target),
            Action::InsertActive(target),
            Action::ReshuffleAround(entity(31)),
        ]
    );
    assert_eq!(bits(&rows[0]), vec![33, 31]);
    assert_eq!(bits(&rows[1]), vec![30, 32]);
}

#[test]
fn focus_stays_with_a_neighbour() {
    let mut rows = vec![active(row(20, 2, 0, &[30, 31])), row(21, 2, 1, &[])];
    let moves = vec![step(30, 1, MoveFocus::Stay)];
    let actions = handle_virtual_window_moves(&moves, &display(), &mut rows);
    assert_eq!(
        actions,
        vec![
            Action::RemoveVirtualMove(entity(30)),
            Action::InsertSelected(Target::Strip(entity(21))),
            Action::ReshuffleAround(entity(31)),
            Action::RemoveFocused(entity(30)),
            Action::InsertFocused(entity(31)),
        ]
    );
    assert_eq!(bits(&rows[0]), vec![31]);
    assert_eq!(bits(&rows[1]), vec![30]);
}

#[test]
fn window_alone_is_followed() {
    let mut rows = vec![active(row(20, 2, 1, &[30])), row(21, 2, 0, &[])];
    let moves = vec![step(30, 0, MoveFocus::Stay)];
    let actions = handle_virtual_window_moves(&moves, &display(), &mut rows);
    assert_eq!(actions.len(), 5);
    assert_eq!(
        actions[1],
        Action::InsertPrevious(
            entity(20),
            PreviousStripPosition {
                origin: Origin { x: 70, y: 80 },
                focus: None,
            }
        )
    );
    assert_eq!(actions[3], Action::InsertActive(Target::Strip(entity(21))));
}

#[test]
fn missing_row_is_made_in_view() {
    let mut rows = vec![active(row(20, 2, 0, &[30, 31]))];
    let moves = vec![step(31, 1, MoveFocus::Follow)];
    let actions = handle_virtual_window_moves(&moves, &display(), &mut rows);
    assert_eq!(
        actions[1],
        Action::Spawn(NewStrip {
            id: 2,
            virtual_index: 1,
            window: Some(entity(31)),
            position: Origin { x: 5, y: 6 },
            parent: entity(10),
            selected: true,
            fullscreen: None,
            previous: None,
        })
    );
    assert_eq!(actions[3], Action::InsertSelected(Target::Spawned));
    assert_eq!(actions[4], Action::InsertActive(Target::Spawned));
    assert_eq!(bits(&rows[0]), vec![30]);
}

#[test]
fn missing_row_is_made_out_of_view_when_focus_stays() {
    let mut rows = vec![active(row(20, 2, 0, &[30, 31]))];
    let moves = vec![step(31, 1, MoveFocus::Stay)];
    let actions = handle_virtual_window_moves(&moves, &display(), &mut rows);
    let strip = NewStrip {
        id: 2,
        virtual_index: 1,
        window: Some(entity(31)),
        position: Origin { x: 1014, y: 758 },
        parent: entity(10),
        selected: true,
        fullscreen: None,
        previous: Some(PreviousStripPosition {
            origin: Origin { x: 5, y: 6 },
            focus: Some(entity(31)),
        }),
    };
    assert_eq!(
        actions,
        vec![
            Action::RemoveVirtualMove(entity(31)),
            Action::Spawn(strip),
            Action::InsertSelected(Target::Spawned),
            Action::ReshuffleAround(entity(30)),
            Action::RemoveFocused(entity(31)),
            Action::InsertFocused(entity(30)),
        ]
    );
    // Once it is in the world it comes up in the corner of the display.
    let mut made = row(25, 2, 1, &[]);
    made.strip = strip.strip();
    made.position = strip.position;
    made.previous = strip.previous;
    rows.push(made);
    let windows = vec![window(30, 0), window(31, 1)];
    let shown = show_active_workspace(entity(25), Some(entity(30)), &windows, &mut rows);
    assert_eq!(rows[1].position, Origin { x: 5, y: 6 });
    assert_eq!(
        shown,
        vec![
            Action::RemovePrevious(entity(25)),
            Action::FocusWithoutRaise {
                window: entity(31),
                psn: ProcessSerialNumber { high: 1, low: 1 },
                previous: entity(30),
                previous_psn: ProcessSerialNumber { high: 1, low: 0 },
            },
        ]
    );
}

#[test]
fn moves_are_carried_out_one_after_another() {
    let mut rows = vec![active(row(20, 2, 0, &[30, 31])), row(21, 2, 1, &[])];
    let moves = vec![step(30, 1, MoveFocus::Stay), step(31, 1, MoveFocus::Stay)];
    let actions = handle_virtual_window_moves(&moves, &display(), &mut rows);
    assert!(rows[0].strip.all_windows().is_empty());
    assert_eq!(bits(&rows[1]), vec![30, 31]);
    // The second window had no neighbour left, so the view goes along.
    assert_eq!(actions[9], Action::ReshuffleAround(entity(31)));
    assert_eq!(actions.len(), 10);
}

#[test]
fn moves_without_an_active_strip_do_nothing() {
    let mut rows = vec![row(20, 2, 0, &[30])];
    let moves = vec![step(30, 1, MoveFocus::Follow)];
    assert!(handle_virtual_window_moves(&moves, &display(), &mut rows).is_empty());
    assert_eq!(bits(&rows[0]), vec![30]);
}

#[test]
fn strip_goes_out_of_view_and_comes_back() {
    let mut rows = vec![row(20, 2, 0, &[30]), active(row(21, 2, 1, &[31]))];
    let place = PreviousStripPosition {
        origin: Origin { x: 70, y: 80 },
        focus: Some(entity(30)),
    };
    let hidden = hide_inactive_workspace(&vec![entity(20)], Some(entity(30)), &display(), &mut rows);
    assert_eq!(hidden, vec![Action::InsertPrevious(entity(20), place)]);
    assert_eq!(rows[0].position, Origin { x: 1014, y: 758 });
    rows[0].previous = Some(place);
    // Hiding it once more keeps the place in mind.
    let again = hide_inactive_workspace(&vec![entity(20)], None, &display(), &mut rows);
    assert!(again.is_empty());
    let windows = vec![window(30, 0), window(31, 1)];
    let shown = show_active_workspace(entity(20), Some(entity(31)), &windows, &mut rows);
    assert_eq!(rows[0].position, Origin { x: 70, y: 80 });
    assert_eq!(
        shown,
        vec![
            Action::RemovePrevious(entity(20)),
            Action::FocusWithoutRaise {
                window: entity(30),
                psn: ProcessSerialNumber { high: 1, low: 0 },
                previous: entity(31),
                previous_psn: ProcessSerialNumber { high: 1, low: 1 },
            },
        ]
    );
}

#[test]
fn strip_stays_in_view_while_its_workspace_has_no_active_row() {
    let mut rows = vec![row(20, 2, 0, &[30]), active(row(21, 3, 0, &[31]))];
    let removed = vec![entity(20), entity(99)];
    assert!(hide_inactive_workspace(&removed, None, &display(), &mut rows).is_empty());
    assert_eq!(rows[0].position, Origin { x: 70, y: 80 });
}

#[test]
fn strip_without_a_place_in_mind_was_not_hidden() {
    let mut rows = vec![active(row(20, 2, 0, &[30]))];
    let windows = vec![window(30, 0)];
    assert!(show_active_workspace(entity(20), Some(entity(30)), &windows, &mut rows).is_empty());
    assert!(show_active_workspace(entity(99), Some(entity(30)), &windows, &mut rows).is_empty());
    assert_eq!(rows[0].position, Origin { x: 70, y: 80 });
}

#[test]
fn focus_is_given_back_only_if_all_is_known() {
    let place = |focus| {
        Some(PreviousStripPosition {
            origin: Origin { x: 1, y: 2 },
            focus,
        })
    };
    let mut nameless = window(32, 2);
    nameless.psn = None;
    let windows = vec![window(30, 0), window(31, 1), nameless];
    let only = vec![Action::RemovePrevious(entity(20))];
    // No window in mind, one that left, one without a process, no focus now.
    for (in_mind, focused) in [
        (None, Some(entity(31))),
        (Some(entity(31)), Some(entity(30))),
        (Some(entity(32)), Some(entity(31))),
        (Some(entity(30)), Some(entity(32))),
        (Some(entity(33)), Some(entity(31))),
        (Some(entity(30)), None),
    ] {
        let mut rows = vec![active(row(20, 2, 0, &[30, 32, 33]))];
        rows[0].previous = place(in_mind);
        assert_eq!(
            show_active_workspace(entity(20), focused, &windows, &mut rows),
            only
        );
        assert_eq!(rows[0].position, Origin { x: 1, y: 2 });
    }
}

#[test]
fn windows_are_measured_and_floating_ones_moved() {
    let mut rows = vec![row(20, 3, 0, &[]), active(row(21, 2, 0, &[30, 31, 39]))];
    rows[1].refresh = Some(RefreshWindowSizes { ready: true });
    let request = refresh_request(&rows).unwrap();
    assert_eq!(request.workspace_id, 2);
    assert_eq!(request.windows, vec![entity(30), entity(31), entity(39)]);

    let mut floating = window(32, 2);
    floating.unmanaged = Some(Unmanaged::Floating);
    let mut other = window(33, 3);
    other.unmanaged = Some(Unmanaged::Other);
    let mut measured = window(30, 0);
    measured.unmanaged = Some(Unmanaged::Floating);
    let mut windows = vec![measured, window(31, 1), floating, other];
    let frames = vec![
        Some(Rect::new(10, 20, 110, 220)),
        None,
        Some(Rect::new(0, 0, 1, 1)),
    ];
    let listed = vec![0, 1, 2, 3, 4];
    let corner = Origin { x: 5, y: 6 };
    let actions = refresh_workspace_window_sizes(listed, &frames, corner, &rows, &mut windows);
    assert_eq!(
        actions,
        vec![
            Action::Reposition(entity(32), corner),
            Action::RemoveRefresh(entity(21)),
        ]
    );
    assert_eq!(windows[0].bounds, Size { x: 100, y: 200 });
    assert_eq!(windows[1].bounds, Size { x: 400, y: 1000 });
    assert_eq!(windows[2].bounds, Size { x: 400, y: 1000 });
}

#[test]
fn nothing_is_measured_before_its_time() {
    let mut rows = vec![active(row(20, 2, 0, &[30])), row(21, 2, 1, &[31])];
    let mut windows = vec![window(30, 0)];
    let corner = Origin { x: 5, y: 6 };
    assert!(refresh_request(&rows).is_none());
    rows[1].refresh = Some(RefreshWindowSizes { ready: true });
    assert!(refresh_request(&rows).is_none());
    rows[0].refresh = Some(RefreshWindowSizes { ready: false });
    assert!(refresh_request(&rows).is_none());
    let actions = refresh_workspace_window_sizes(vec![0], &vec![], corner, &rows, &mut windows);
    assert!(actions.is_empty());
    rows[0].refresh = Some(RefreshWindowSizes { ready: true });
    assert!(refresh_request(&rows).is_some());
    // Two active strips ask at once.
    rows[1].active = true;
    assert!(refresh_request(&rows).is_none());
}

#[test]
fn activation_leaves_one_active_and_one_selected_strip() {
    let mut rows = vec![
        active(row(20, 2, 0, &[])),
        row(21, 2, 1, &[]),
        row(22, 3, 0, &[]),
    ];
    rows[0].selected = true;
    rows[2].selected = true;
    let south = order(Operation::Virtual(Direction::South));
    assert_eq!(switch_virtual_workspace_bind(&south, 2, &rows).len(), 2);
    rows[1].active = true;
    rows[1].selected = true;
    assert_eq!(
        cleanup_active_workspace_marker(entity(21), &rows),
        vec![Action::RemoveActive(entity(20))]
    );
    assert_eq!(
        cleanup_selected_space_marker(entity(21), &rows),
        vec![Action::RemoveSelected(entity(20))]
    );
}

#[test]
fn window_sent_to_a_row_is_not_detected_as_moved() {
    let mut rows = vec![active(row(20, 2, 0, &[30, 31])), row(21, 2, 1, &[])];
    let windows = vec![window(30, 0), window(31, 1)];
    let moves = vec![step(30, 1, MoveFocus::Follow)];
    handle_virtual_window_moves(&moves, &display(), &mut rows);
    let ignored: HashSet<WinID> = HashSet::new();
    let listed: Result<Vec<WinID>, ()> = Ok(vec![0, 1]);
    let detected = detect_moved_windows(entity(21), &windows, &rows, &ignored, listed).unwrap();
    assert!(detected.moved.is_empty());
    assert!(detected.unresolved.is_empty());
}

#[test]
fn window_sent_down_leaves_another_behind() {
    let mut rows = vec![active(row(20, 2, 0, &[30, 31])), row(21, 2, 1, &[])];
    let south = order(Operation::VirtualMove(Direction::South, MoveFocus::Follow));
    let strip = &rows[0].strip;
    let marked =
        move_virtual_workspace_bind(&south, Some(entity(30)), strip.virtual_index(), strip.len());
    let moves = match marked[0] {
        Action::InsertVirtualMove(window, marker) => vec![WindowMove { window, marker }],
        _ => panic!("the window should be marked"),
    };
    handle_virtual_window_moves(&moves, &display(), &mut rows);
    assert_eq!(bits(&rows[0]), vec![31]);
    assert_eq!(bits(&rows[1]), vec![30]);
    let strip = &rows[0].strip;
    assert!(move_virtual_workspace_bind(&south, Some(entity(31)), 0, strip.len()).is_empty());
}

#[test]
fn moves_put_no_window_in_two_places() {
    let mut rows = vec![
        active(row(20, 2, 0, &[30, 31, 32])),
        row(21, 2, 1, &[33]),
        row(22, 3, 1, &[34]),
    ];
    let moves = vec![
        step(30, 1, MoveFocus::Stay),
        step(32, 5, MoveFocus::Stay),
        step(33, 0, MoveFocus::Stay),
    ];
    handle_virtual_window_moves(&moves, &display(), &mut rows);
    let mut all: Vec<u64> = rows.iter().flat_map(bits).collect();
    all.sort_unstable();
    // The window for the missing row is in none of the strips that were there.
    assert_eq!(all, vec![30, 31, 33, 34]);
    assert_eq!(bits(&rows[0]), vec![31, 33]);
    assert_eq!(bits(&rows[1]), vec![30]);
}

#[test]
fn strip_that_is_active_again_is_not_hidden() {
    let mut rows = vec![active(row(20, 2, 0, &[30])), row(21, 2, 1, &[31])];
    let removed = vec![entity(20)];
    assert!(!hides_a_strip(&removed, &rows));
    assert!(hide_inactive_workspace(&removed, Some(entity(30)), &display(), &mut rows).is_empty());
    assert_eq!(rows[0].position, Origin { x: 70, y: 80 });
    // Nor is it when another strip of the workspace is active besides.
    rows[1].active = true;
    assert!(hide_inactive_workspace(&removed, Some(entity(30)), &display(), &mut rows).is_empty());
    assert_eq!(rows[0].position, Origin { x: 70, y: 80 });
}

#[test]
fn several_strips_come_back_to_their_places() {
    let mut rows = vec![
        row(20, 2, 0, &[30]),
        row(21, 2, 1, &[31]),
        active(row(22, 2, 2, &[32])),
    ];
    rows[1].position = Origin { x: -3, y: 4 };
    let removed = vec![entity(21), entity(99), entity(20)];
    assert!(hides_a_strip(&removed, &rows));
    let actions = hide_inactive_workspace(&removed, None, &display(), &mut rows);
    assert_eq!(actions.len(), 2);
    for action in actions {
        match action {
            Action::InsertPrevious(strip, place) => {
                for row in rows.iter_mut().filter(|row| row.entity == strip) {
                    row.previous = Some(place);
                }
            }
            _ => panic!("only places should be kept in mind"),
        }
    }
    assert_eq!(rows[0].position, Origin { x: 1014, y: 758 });
    assert_eq!(rows[1].position, Origin { x: 1014, y: 758 });
    for strip in [20, 21] {
        show_active_workspace(entity(strip), None, &vec![], &mut rows);
    }
    assert_eq!(rows[0].position, Origin { x: 70, y: 80 });
    assert_eq!(rows[1].position, Origin { x: -3, y: 4 });
}

#[test]
fn marked_window_stays_in_its_workspace() {
    let mut rows = vec![
        active(row(20, 2, 0, &[30])),
        row(21, 2, 1, &[31]),
        row(22, 3, 0, &[32, 33]),
        row(23, 3, 1, &[34]),
    ];
    let moves = vec![step(32, 1, MoveFocus::Follow)];
    let actions = handle_virtual_window_moves(&moves, &display(), &mut rows);
    assert_eq!(bits(&rows[0]), vec![30]);
    assert_eq!(bits(&rows[1]), vec![31]);
    assert_eq!(bits(&rows[2]), vec![33]);
    assert_eq!(bits(&rows[3]), vec![34, 32]);
    assert!(actions.contains(&Action::InsertSelected(Target::Strip(entity(23)))));
}

#[test]
fn row_is_made_in_the_workspace_of_the_window() {
    let mut rows = vec![
        active(row(20, 2, 0, &[30])),
        row(21, 2, 5, &[31]),
        row(22, 3, 0, &[32]),
    ];
    let moves = vec![step(32, 5, MoveFocus::Follow)];
    let actions = handle_virtual_window_moves(&moves, &display(), &mut rows);
    match actions[1] {
        Action::Spawn(strip) => {
            assert_eq!(strip.id, 3);
            assert_eq!(strip.virtual_index, 5);
            assert_eq!(strip.window, Some(entity(32)));
        }
        _ => panic!("a strip should be made"),
    }
    assert_eq!(bits(&rows[1]), vec![31]);
    assert!(rows[2].strip.all_windows().is_empty());
    // A window that is in no strip goes by the active one.
    let moves = vec![step(77, 5, MoveFocus::Follow)];
    handle_virtual_window_moves(&moves, &display(), &mut rows);
    assert_eq!(bits(&rows[1]), vec![31, 77]);
}

#[test]
fn window_goes_to_the_next_row_and_back() {
    let mut rows = vec![
        active(row(20, 2, 0, &[30, 31, 32])),
        row(21, 2, 1, &[33]),
        row(22, 3, 1, &[34]),
    ];
    let there = vec![step(30, 1, MoveFocus::Follow)];
    handle_virtual_window_moves(&there, &display(), &mut rows);
    assert_eq!(bits(&rows[1]), vec![33, 30]);
    rows[0].active = false;
    rows[1].active = true;
    let back = vec![step(30, 0, MoveFocus::Follow)];
    let actions = handle_virtual_window_moves(&back, &display(), &mut rows);
    assert_eq!(bits(&rows[0]), vec![31, 32, 30]);
    assert_eq!(bits(&rows[1]), vec![33]);
    assert_eq!(bits(&rows[2]), vec![34]);
    assert!(actions.contains(&Action::InsertActive(Target::Strip(entity(20)))));
}

#[test]
fn windows_that_stay_keep_their_order_before_those_that_come() {
    let mut rows = vec![
        active(row(20, 2, 0, &[30, 31, 32, 33])),
        row(21, 2, 1, &[34, 35, 36]),
    ];
    let moves = vec![
        step(33, 1, MoveFocus::Stay),
        step(35, 0, MoveFocus::Stay),
        step(31, 1, MoveFocus::Stay),
    ];
    handle_virtual_window_moves(&moves, &display(), &mut rows);
    assert_eq!(bits(&rows[0]), vec![30, 32, 35]);
    assert_eq!(bits(&rows[1]), vec![34, 36, 33, 31]);
}

#[test]
fn rows_are_tidy_once_those_that_go_are_gone() {
    let mut rows = vec![
        row(20, 2, 6, &[30]),
        row(21, 2, 2, &[]),
        row(22, 3, 4, &[]),
        row(23, 2, 0, &[]),
        row(24, 2, 9, &[]),
        row(25, 2, 8, &[31]),
    ];
    let gone = cleanup_virtual_workspaces(entity(20), &mut rows);
    assert_eq!(gone, vec![Action::Despawn(entity(21)), Action::Despawn(entity(24))]);
    rows.retain(|row| !gone.contains(&Action::Despawn(row.entity)));
    assert_eq!(indices(&rows), vec![1, 4, 0, 2]);
    assert!(cleanup_virtual_workspaces(entity(20), &mut rows).is_empty());
    assert_eq!(indices(&rows), vec![1, 4, 0, 2]);
}

#[test]
fn hidden_rows_are_foreseen() {
    let rows = vec![active(row(20, 2, 0, &[30, 31])), row(21, 2, 1, &[])];
    assert!(hides_a_row(&vec![step(30, 2, MoveFocus::Stay)], &rows));
    assert!(!hides_a_row(&vec![step(30, 1, MoveFocus::Stay)], &rows));
    assert!(!hides_a_row(&vec![step(30, 2, MoveFocus::Follow)], &rows));
    // The first move leaves the second window without a neighbour.
    let moves = vec![step(30, 1, MoveFocus::Stay), step(31, 2, MoveFocus::Stay)];
    assert!(!hides_a_row(&moves, &rows));
    assert_eq!(bits(&rows[0]), vec![30, 31]);
    let idle = vec![row(20, 2, 0, &[30, 31])];
    assert!(!hides_a_row(&vec![step(30, 2, MoveFocus::Stay)], &idle));
}

#[test]
fn copy_of_a_row_is_its_own() {
    let rows = vec![active(row(20, 2, 3, &[30, 31]))];
    let mut copy = rows.clone();
    copy[0].strip.remove(entity(30));
    assert_eq!(bits(&copy[0]), vec![31]);
    assert_eq!(bits(&rows[0]), vec![30, 31]);
    assert_eq!(copy[0].strip.virtual_index(), 3);
    assert!(copy[0].active);
}

#[test]
fn strip_listed_once_comes_back_though_others_are_listed_twice() {
    let mut rows = vec![
        row(20, 2, 0, &[30]),
        row(21, 2, 1, &[31]),
        active(row(22, 2, 2, &[32])),
    ];
    let removed = vec![entity(21), entity(20), entity(21)];
    let actions = hide_inactive_workspace(&removed, None, &display(), &mut rows);
    let place = PreviousStripPosition {
        origin: Origin { x: 70, y: 80 },
        focus: None,
    };
    assert!(actions.contains(&Action::InsertPrevious(entity(20), place)));
    rows[0].previous = Some(place);
    show_active_workspace(entity(20), None, &vec![], &mut rows);
    assert_eq!(rows[0].position, Origin { x: 70, y: 80 });
}
