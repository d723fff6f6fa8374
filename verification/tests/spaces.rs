use std::collections::HashSet;

use workspaces::detect::{
    activated_space, adopt_moved_windows, detect_moved_windows, retry_unresolved,
    windows_not_in_strips,
};
use workspaces::geometry::{Origin, Rect, Size};
use workspaces::rows::{
    find_id, find_managed, find_row, find_window, Action, Display, NativeFullscreenMarker,
    NewStrip, StripRow, Target, Unmanaged, WindowRow,
};
use workspaces::spaces::{
    workspace_change_asks_fullscreen, workspace_change_trigger, workspace_change_watcher,
    workspace_created_trigger, workspace_destroyed_trigger,
};
use workspaces::strip::LayoutStrip;
use workspaces::types::{Entity, Event, WinID, WorkspaceId};

fn entity(bits: u64) -> Entity {
    Entity { bits }
}

fn display() -> Display {
    Display {
        entity: entity(10),
        id: 1,
        bounds: Rect::new(5, 6, 1024, 768),
    }
}

fn row(bits: u64, id: WorkspaceId, windows: &[u64]) -> StripRow {
    StripRow {
        entity: entity(bits),
        strip: LayoutStrip::from_columns(
            id,
            0,
            windows.iter().map(|bits| vec![entity(*bits)]).collect(),
        ),
        position: Origin { x: 0, y: 0 },
        parent: Some(entity(10)),
        active: false,
        selected: false,
        fullscreen: None,
        previous: None,
        timeout: None,
        refresh: None,
    }
}

fn active(row: StripRow) -> StripRow {
    StripRow { active: true, selected: true, ..row }
}

fn selected(row: StripRow) -> StripRow {
    StripRow { selected: true, ..row }
}

fn window(bits: u64, id: WinID, unmanaged: Option<Unmanaged>) -> WindowRow {
    WindowRow {
        entity: entity(bits),
        id,
        bounds: Size { x: 400, y: 1000 },
        unmanaged,
        psn: None,
    }
}

fn bits(row: &StripRow) -> Vec<u64> {
    row.strip.all_windows().iter().map(|window| window.bits).collect()
}

#[test]
fn change_activates_the_selected_row() {
    let mut rows = vec![
        active(row(20, 2, &[30])),
        row(21, 3, &[31]),
        selected(row(22, 3, &[32])),
    ];
    let event = Event::SpaceChanged;
    assert!(!workspace_change_asks_fullscreen(&event, Some(3), &rows));
    let actions =
        workspace_change_trigger(&event, Some(3), false, Some(entity(30)), &display(), &mut rows);
    let target = Target::Strip(entity(22));
    assert_eq!(
        actions,
        vec![Action::InsertActive(target), Action::InsertSelected(target)]
    );
    assert_eq!(bits(&rows[0]), vec![30]);
}

#[test]
fn change_takes_the_last_of_several_rows() {
    let mut rows = vec![selected(row(20, 3, &[])), selected(row(21, 3, &[]))];
    let actions =
        workspace_change_trigger(&Event::SpaceChanged, Some(3), true, None, &display(), &mut rows);
    assert_eq!(actions[0], Action::InsertActive(Target::Strip(entity(21))));
}

#[test]
fn fullscreen_window_gets_a_strip() {
    let mut rows = vec![row(19, 4, &[29]), active(row(20, 2, &[30, 31, 32]))];
    let event = Event::SpaceChanged;
    assert!(workspace_change_asks_fullscreen(&event, Some(9), &rows));
    let actions =
        workspace_change_trigger(&event, Some(9), true, Some(entity(31)), &display(), &mut rows);
    let strip = NewStrip {
        id: 9,
        virtual_index: 0,
        window: Some(entity(31)),
        position: Origin { x: 5, y: 6 },
        parent: entity(10),
        selected: false,
        fullscreen: Some(NativeFullscreenMarker {
            previous_strip: 2,
            previous_index: 1,
        }),
        previous: None,
    };
    assert_eq!(
        actions,
        vec![
            Action::Spawn(strip),
            Action::InsertActive(Target::Spawned),
            Action::InsertSelected(Target::Spawned),
        ]
    );
    assert_eq!(bits(&rows[1]), vec![30, 32]);
    assert_eq!(bits(&rows[0]), vec![29]);
    let made = strip.strip();
    assert_eq!(made.id(), 9);
    assert_eq!(made.all_windows(), vec![entity(31)]);
}

#[test]
fn fullscreen_window_from_elsewhere_has_index_zero() {
    let mut rows = vec![active(row(20, 2, &[30]))];
    let actions = workspace_change_trigger(
        &Event::SpaceChanged,
        Some(9),
        true,
        Some(entity(77)),
        &display(),
        &mut rows,
    );
    match actions[0] {
        Action::Spawn(strip) => assert_eq!(
            strip.fullscreen,
            Some(NativeFullscreenMarker {
                previous_strip: 2,
                previous_index: 0,
            })
        ),
        _ => panic!("a strip should be made"),
    }
    assert_eq!(bits(&rows[0]), vec![30]);
}

#[test]
fn change_without_anything_to_do() {
    let display = display();
    let focus = Some(entity(30));
    let mut rows = vec![active(row(20, 2, &[30]))];
    let changed = Event::SpaceChanged;
    // Not a fullscreen workspace, no focus, the same workspace, no workspace.
    assert!(workspace_change_trigger(&changed, Some(9), false, focus, &display, &mut rows).is_empty());
    assert!(workspace_change_trigger(&changed, Some(9), true, None, &display, &mut rows).is_empty());
    assert!(workspace_change_trigger(&changed, Some(2), true, focus, &display, &mut rows).is_empty());
    assert!(workspace_change_trigger(&changed, None, true, focus, &display, &mut rows).is_empty());
    assert!(!workspace_change_asks_fullscreen(&changed, None, &rows));
    let other = Event::DisplayChanged;
    assert!(workspace_change_trigger(&other, Some(9), true, focus, &display, &mut rows).is_empty());
    assert!(!workspace_change_asks_fullscreen(&other, Some(9), &rows));
    assert_eq!(bits(&rows[0]), vec![30]);
}

#[test]
fn destroyed_workspace_loses_its_first_strip() {
    let rows = vec![row(20, 2, &[]), row(21, 3, &[]), row(22, 3, &[])];
    let event = Event::SpaceDestroyed { space_id: 3 };
    assert_eq!(
        workspace_destroyed_trigger(&event, &rows),
        vec![Action::Despawn(entity(21))]
    );
    let event = Event::SpaceDestroyed { space_id: 4 };
    assert!(workspace_destroyed_trigger(&event, &rows).is_empty());
    assert!(workspace_destroyed_trigger(&Event::SpaceChanged, &rows).is_empty());
}

#[test]
fn created_workspace_gets_an_empty_strip_once() {
    let mut rows = vec![row(20, 2, &[30])];
    let event = Event::SpaceCreated { space_id: 3 };
    let strip = NewStrip {
        id: 3,
        virtual_index: 0,
        window: None,
        position: Origin { x: 5, y: 6 },
        parent: entity(10),
        selected: false,
        fullscreen: None,
        previous: None,
    };
    assert_eq!(
        workspace_created_trigger(&event, &display(), &rows),
        vec![Action::Spawn(strip)]
    );
    assert_eq!(strip.strip().len(), 0);
    rows.push(row(21, 3, &[]));
    assert!(workspace_created_trigger(&event, &display(), &rows).is_empty());
    assert!(workspace_created_trigger(&Event::SpaceChanged, &display(), &rows).is_empty());
    assert_eq!(
        workspace_destroyed_trigger(&Event::SpaceDestroyed { space_id: 3 }, &rows),
        vec![Action::Despawn(entity(21))]
    );
}

#[test]
fn watcher_reports_a_change_once() {
    let mut current: WorkspaceId = 2;
    assert_eq!(
        workspace_change_watcher(Some(3), &mut current),
        vec![Action::Trigger(Event::SpaceChanged)]
    );
    assert_eq!(current, 3);
    assert!(workspace_change_watcher(Some(3), &mut current).is_empty());
    assert!(workspace_change_watcher(None, &mut current).is_empty());
    assert_eq!(current, 3);
}

#[test]
fn listed_windows_are_sorted_by_what_is_known() {
    let held = LayoutStrip::from_columns(2, 0, vec![vec![entity(31)]]);
    let find = |id: WinID| if id < 5 { Some(entity(30 + id as u64)) } else { None };
    let listed: Result<Vec<WinID>, u8> = Ok(vec![1, 7, 2, 0, 6]);
    let (moved, unresolved) = windows_not_in_strips(listed, find, &[&held]).unwrap();
    assert_eq!(moved, vec![entity(32), entity(30)]);
    assert_eq!(unresolved, vec![7, 6]);
}

#[test]
fn missing_list_is_passed_on_as_an_error() {
    let listed: Result<Vec<WinID>, u8> = Err(9);
    let sorted = windows_not_in_strips(listed, |_: WinID| None, &[]);
    assert_eq!(sorted, Err(9));
}

#[test]
fn moved_and_unresolved_windows_are_detected() {
    let mut detached = row(23, 2, &[34]);
    detached.parent = None;
    let rows = vec![row(20, 3, &[30]), row(21, 2, &[31]), row(22, 2, &[32]), detached];
    let windows = vec![
        window(30, 0, None),
        window(31, 1, None),
        window(32, 2, None),
        window(33, 3, Some(Unmanaged::Floating)),
        window(34, 4, None),
    ];
    let ignored: HashSet<WinID> = [8].into_iter().collect();
    let listed: Result<Vec<WinID>, ()> = Ok(vec![0, 1, 2, 3, 4, 7, 8]);
    let detected = detect_moved_windows(entity(22), &windows, &rows, &ignored, listed).unwrap();
    assert_eq!(detected.workspace_id, 2);
    assert_eq!(detected.moved, vec![entity(30), entity(34)]);
    assert_eq!(detected.unresolved, vec![7]);
}

#[test]
fn nothing_is_detected_without_list_or_display() {
    let mut rows = vec![row(20, 2, &[])];
    let windows = vec![window(30, 0, None)];
    let ignored: HashSet<WinID> = HashSet::new();
    let listed: Result<Vec<WinID>, ()> = Err(());
    assert!(detect_moved_windows(entity(20), &windows, &rows, &ignored, listed).is_none());
    assert_eq!(activated_space(entity(20), &rows), Some(2));
    rows[0].parent = None;
    assert_eq!(activated_space(entity(20), &rows), None);
    let listed: Result<Vec<WinID>, ()> = Ok(vec![0]);
    assert!(detect_moved_windows(entity(20), &windows, &rows, &ignored, listed).is_none());
}

#[test]
fn unresolved_windows_are_asked_for_until_nobody_has_them() {
    let mut ignored: HashSet<WinID> = [1].into_iter().collect();
    assert_eq!(
        retry_unresolved(&vec![7, 8], &vec![3, 8, 4, 7, 8], &mut ignored),
        vec![1, 3, 4]
    );
    assert_eq!(ignored.len(), 1);
    assert!(retry_unresolved(&vec![7, 8], &vec![3, 4], &mut ignored).is_empty());
    assert_eq!(ignored.len(), 3);
    assert!(ignored.contains(&1) && ignored.contains(&7) && ignored.contains(&8));
    let rows = vec![row(20, 2, &[])];
    let listed: Result<Vec<WinID>, ()> = Ok(vec![7, 8]);
    let detected = detect_moved_windows(entity(20), &vec![], &rows, &ignored, listed).unwrap();
    assert!(detected.unresolved.is_empty());
}

#[test]
fn moved_windows_go_to_the_end_of_their_strip() {
    let mut far = row(22, 2, &[33]);
    far.parent = Some(entity(11));
    let mut detached = row(23, 4, &[32]);
    detached.parent = None;
    let mut rows = vec![row(20, 3, &[30, 31]), row(21, 2, &[34]), far, detached];
    adopt_moved_windows(2, entity(10), &vec![entity(31), entity(32), entity(33)], &mut rows);
    assert_eq!(bits(&rows[0]), vec![30]);
    assert_eq!(bits(&rows[1]), vec![34, 31, 32, 33]);
    assert!(rows[2].strip.all_windows().is_empty());
    assert_eq!(bits(&rows[3]), vec![32]);
}

#[test]
fn adopted_windows_are_not_found_a_second_time() {
    let mut rows = vec![row(20, 3, &[30]), row(21, 2, &[31])];
    let windows = vec![window(30, 0, None), window(31, 1, None)];
    let ignored: HashSet<WinID> = HashSet::new();
    let listed: Result<Vec<WinID>, ()> = Ok(vec![0, 1]);
    let detected = detect_moved_windows(entity(21), &windows, &rows, &ignored, listed).unwrap();
    adopt_moved_windows(detected.workspace_id, entity(10), &detected.moved, &mut rows);
    assert_eq!(bits(&rows[1]), vec![31, 30]);
    let listed: Result<Vec<WinID>, ()> = Ok(vec![0, 1]);
    let again = detect_moved_windows(entity(21), &windows, &rows, &ignored, listed).unwrap();
    assert!(again.moved.is_empty());
}

#[test]
fn window_comes_back_from_fullscreen_to_its_column() {
    let mut rows = vec![active(row(20, 2, &[30, 31, 32]))];
    let actions = workspace_change_trigger(
        &Event::SpaceChanged,
        Some(9),
        true,
        Some(entity(31)),
        &display(),
        &mut rows,
    );
    match actions[0] {
        Action::Spawn(strip) => {
            let mut full = row(21, 9, &[]);
            full.strip = strip.strip();
            full.fullscreen = strip.fullscreen;
            rows.push(full);
        }
        _ => panic!("a strip should be made"),
    }
    assert_eq!(bits(&rows[0]), vec![30, 32]);
    adopt_moved_windows(2, entity(10), &vec![entity(31)], &mut rows);
    assert_eq!(bits(&rows[0]), vec![30, 31, 32]);
    assert!(rows[1].strip.all_windows().is_empty());
}

#[test]
fn tables_are_searched_from_the_start() {
    let rows = vec![row(20, 2, &[]), row(21, 2, &[])];
    assert_eq!(find_row(&rows, entity(21)), Some(1));
    assert_eq!(find_row(&rows, entity(22)), None);
    let windows = vec![
        window(30, 5, Some(Unmanaged::Other)),
        window(31, 5, None),
    ];
    assert_eq!(find_window(&windows, entity(31)), Some(1));
    assert_eq!(find_window(&windows, entity(32)), None);
    assert_eq!(find_id(&windows, 5), Some(0));
    assert_eq!(find_id(&windows, 6), None);
    assert_eq!(find_managed(&windows, 5), Some(entity(31)));
    assert_eq!(find_managed(&windows, 6), None);
}

#[test]
fn fullscreen_makes_no_difference_unless_asked_for() {
    let tables = || {
        vec![
            active(row(20, 2, &[30])),
            selected(row(21, 3, &[31])),
        ]
    };
    let event = Event::SpaceChanged;
    for space in [2, 3] {
        let mut one = tables();
        let mut two = tables();
        assert!(!workspace_change_asks_fullscreen(&event, Some(space), &one));
        let focus = Some(entity(30));
        assert_eq!(
            workspace_change_trigger(&event, Some(space), true, focus, &display(), &mut one),
            workspace_change_trigger(&event, Some(space), false, focus, &display(), &mut two)
        );
        assert_eq!(bits(&one[0]), bits(&two[0]));
    }
}

#[test]
fn windows_stay_in_one_place_through_fullscreen_and_back() {
    let mut rows = vec![active(row(20, 2, &[30, 31])), row(21, 3, &[32])];
    let focus = Some(entity(30));
    let actions =
        workspace_change_trigger(&Event::SpaceChanged, Some(9), true, focus, &display(), &mut rows);
    match actions[0] {
        Action::Spawn(strip) => {
            let mut full = row(22, 9, &[]);
            full.strip = strip.strip();
            full.fullscreen = strip.fullscreen;
            rows.push(full);
        }
        _ => panic!("a strip should be made"),
    }
    let places = |rows: &Vec<StripRow>| {
        let mut all: Vec<u64> = rows.iter().flat_map(bits).collect();
        all.sort_unstable();
        all
    };
    assert_eq!(places(&rows), vec![30, 31, 32]);
    adopt_moved_windows(2, entity(10), &vec![entity(30), entity(32), entity(30)], &mut rows);
    assert_eq!(places(&rows), vec![30, 31, 32]);
    assert_eq!(bits(&rows[0]).len(), 3);
}

#[test]
fn fullscreen_window_is_found_and_put_back() {
    let mut rows = vec![row(19, 4, &[29]), active(row(20, 2, &[30, 31, 32]))];
    let windows = vec![
        window(29, 9, None),
        window(30, 0, None),
        window(31, 1, None),
        window(32, 2, None),
    ];
    let actions = workspace_change_trigger(
        &Event::SpaceChanged,
        Some(9),
        true,
        Some(entity(30)),
        &display(),
        &mut rows,
    );
    match actions[0] {
        Action::Spawn(strip) => {
            let mut full = row(21, 9, &[]);
            full.strip = strip.strip();
            full.fullscreen = strip.fullscreen;
            rows.push(full);
        }
        _ => panic!("a strip should be made"),
    }
    let ignored: HashSet<WinID> = HashSet::new();
    let listed: Result<Vec<WinID>, ()> = Ok(vec![2, 0, 1]);
    let detected = detect_moved_windows(entity(20), &windows, &rows, &ignored, listed).unwrap();
    assert_eq!(detected.moved, vec![entity(30)]);
    adopt_moved_windows(detected.workspace_id, entity(10), &detected.moved, &mut rows);
    assert_eq!(bits(&rows[0]), vec![29]);
    assert_eq!(bits(&rows[1]), vec![30, 31, 32]);
    assert_eq!(rows[2].strip.len(), 0);
}

#[test]
fn fullscreen_window_comes_back_to_another_display_and_past_an_old_mark() {
    let mut rows = vec![row(19, 8, &[]), active(row(20, 2, &[30, 31])), row(21, 2, &[33])];
    // The strip is on a second display, its workspace also has one on the first,
    // and an old mark points past its right end.
    rows[1].parent = Some(entity(11));
    rows[0].fullscreen = Some(NativeFullscreenMarker {
        previous_strip: 2,
        previous_index: 7,
    });
    let windows = vec![window(30, 0, None), window(31, 1, None), window(33, 3, None)];
    let actions = workspace_change_trigger(
        &Event::SpaceChanged,
        Some(9),
        true,
        Some(entity(31)),
        &display(),
        &mut rows,
    );
    match actions[0] {
        Action::Spawn(strip) => {
            let mut full = row(22, 9, &[]);
            full.strip = strip.strip();
            full.fullscreen = strip.fullscreen;
            rows.push(full);
        }
        _ => panic!("a strip should be made"),
    }
    assert_eq!(bits(&rows[1]), vec![30]);
    let ignored: HashSet<WinID> = HashSet::new();
    let listed: Result<Vec<WinID>, ()> = Ok(vec![0, 1, 3]);
    let detected = detect_moved_windows(entity(20), &windows, &rows, &ignored, listed).unwrap();
    assert_eq!(detected.moved, vec![entity(31)]);
    adopt_moved_windows(detected.workspace_id, entity(11), &detected.moved, &mut rows);
    assert_eq!(bits(&rows[1]), vec![30, 31]);
    assert_eq!(bits(&rows[2]), vec![33]);
    assert_eq!(rows[3].strip.len(), 0);
}
