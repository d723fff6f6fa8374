use workspaces::geometry::{Origin, Rect};
use workspaces::mock::{window_spawner, MockWindowManager, TEST_DISPLAY_ID, TEST_WORKSPACE_ID};
use workspaces::orphans::find_orphaned_workspaces;
use workspaces::rows::{Action, Display, PresentDisplay, RefreshWindowSizes, StripRow, Timeout};
use workspaces::strip::LayoutStrip;
use workspaces::types::{Entity, WorkspaceId};

const TEST_DISPLAY_WIDTH: i32 = 1024;
const TEST_DISPLAY_HEIGHT: i32 = 768;

fn entity(bits: u64) -> Entity {
    Entity { bits }
}

fn display(bits: u64, id: u32) -> Display {
    Display {
        entity: entity(bits),
        id,
        bounds: Rect::new(0, 0, TEST_DISPLAY_WIDTH, TEST_DISPLAY_HEIGHT),
    }
}

fn row(bits: u64, id: WorkspaceId, windows: &[u64]) -> StripRow {
    StripRow {
        entity: entity(bits),
        strip: LayoutStrip::from_columns(
            id,
            0,
            windows.iter().map(|bits| vec![entity(*bits)]).collect(),
        ),
        position: Origin { x: 0, y: 0 },
        parent: None,
        active: false,
        selected: false,
        fullscreen: None,
        previous: None,
        timeout: None,
        refresh: None,
    }
}

fn orphan(bits: u64, id: WorkspaceId, windows: &[u64]) -> StripRow {
    StripRow {
        timeout: Some(Timeout { finished: false }),
        ..row(bits, id, windows)
    }
}

fn settled(bits: u64, id: WorkspaceId, windows: &[u64], parent: u64) -> StripRow {
    StripRow {
        parent: Some(entity(parent)),
        ..row(bits, id, windows)
    }
}

fn present(id: u32, spaces: &[WorkspaceId]) -> PresentDisplay {
    PresentDisplay {
        id,
        spaces: spaces.to_vec(),
    }
}

fn bits(row: &StripRow) -> Vec<u64> {
    row.strip.all_windows().iter().map(|window| window.bits).collect()
}

/// Carries out the actions that concern the strips.
fn carry_out(rows: &mut Vec<StripRow>, actions: &[Action]) {
    for action in actions {
        match *action {
            Action::Despawn(gone) => rows.retain(|row| row.entity != gone),
            Action::RemoveTimeout(strip) => {
                for row in rows.iter_mut().filter(|row| row.entity == strip) {
                    row.timeout = None;
                }
            }
            Action::SetParent(strip, display) => {
                for row in rows.iter_mut().filter(|row| row.entity == strip) {
                    row.parent = Some(display);
                }
            }
            Action::InsertRefresh(strip) => {
                for row in rows.iter_mut().filter(|row| row.entity == strip) {
                    row.refresh = Some(RefreshWindowSizes { ready: false });
                }
            }
            _ => {}
        }
    }
}

#[test]
fn test_multi_display_lifecycle() {
    let manager = MockWindowManager {
        windows: |_: WorkspaceId| window_spawner(1),
        workspaces: vec![TEST_WORKSPACE_ID],
    };

    // Initial state check: 1 display, 1 workspace attached.
    let mut displays = vec![display(10, TEST_DISPLAY_ID)];
    let mut rows = vec![settled(20, TEST_WORKSPACE_ID, &[30], 10)];
    let actions = find_orphaned_workspaces(&manager.present_displays(), &displays, &mut rows);
    assert_eq!(displays.len(), 1, "should have one display");
    assert!(actions.is_empty());

    // The display is removed.
    displays.clear();
    rows[0].parent = None;
    rows[0].timeout = Some(Timeout { finished: false });
    for _ in 0..5 {
        let actions = find_orphaned_workspaces(&manager.present_displays(), &displays, &mut rows);
        carry_out(&mut rows, &actions);
    }
    assert!(displays.is_empty(), "display should be despawned");
    assert_eq!(rows.len(), 1, "should have one workspace");
    assert!(
        rows[0].timeout.is_some(),
        "orphaned workspace should have a timeout"
    );
    assert!(
        rows[0].parent.is_none(),
        "orphaned workspace should have no parent"
    );

    // The display is back, as another entity.
    displays.push(display(11, TEST_DISPLAY_ID));
    for _ in 0..5 {
        let actions = find_orphaned_workspaces(&manager.present_displays(), &displays, &mut rows);
        carry_out(&mut rows, &actions);
    }
    assert_eq!(displays.len(), 1, "display should be spawned again");
    assert_eq!(rows.len(), 1, "should have one workspace");
    assert!(
        rows[0].timeout.is_none(),
        "re-parented workspace should no longer have a timeout"
    );
    let parent = rows[0]
        .parent
        .expect("re-parented workspace should have a parent");
    assert_eq!(
        parent, displays[0].entity,
        "workspace should be child of the new display"
    );
    assert_eq!(bits(&rows[0]), vec![30]);
}

#[test]
fn test_multi_workspace_orphaning() {
    let manager = MockWindowManager {
        windows: |_: WorkspaceId| window_spawner(1),
        workspaces: vec![TEST_WORKSPACE_ID, TEST_WORKSPACE_ID + 1],
    };

    // Verify initial state: 1 display, 2 workspaces.
    let mut displays = vec![display(10, TEST_DISPLAY_ID)];
    let mut rows = vec![
        settled(20, TEST_WORKSPACE_ID, &[30], 10),
        settled(21, TEST_WORKSPACE_ID + 1, &[31], 10),
    ];
    let actions = find_orphaned_workspaces(&manager.present_displays(), &displays, &mut rows);
    carry_out(&mut rows, &actions);
    assert_eq!(displays.len(), 1, "should have one display");
    assert_eq!(rows.len(), 2, "should have two workspaces");
    for row in &rows {
        let parent = row.parent.expect("workspace should have parent");
        assert_eq!(parent, displays[0].entity);
    }

    // The display is removed: both workspaces are orphaned.
    displays.clear();
    for row in rows.iter_mut() {
        row.parent = None;
        row.timeout = Some(Timeout { finished: false });
    }
    for _ in 0..5 {
        let actions = find_orphaned_workspaces(&manager.present_displays(), &displays, &mut rows);
        carry_out(&mut rows, &actions);
    }
    assert_eq!(rows.len(), 2);
    for row in &rows {
        assert!(
            row.timeout.is_some(),
            "each workspace should have a timeout"
        );
        assert!(
            row.parent.is_none(),
            "each workspace should have no parent"
        );
    }
}

#[test]
fn empty_orphan_goes() {
    let mut rows = vec![orphan(20, 2, &[]), orphan(21, 2, &[])];
    rows[1].parent = Some(entity(10));
    let actions = find_orphaned_workspaces(&vec![], &vec![], &mut rows);
    assert_eq!(
        actions,
        vec![Action::Despawn(entity(20)), Action::Despawn(entity(21))]
    );
}

#[test]
fn orphan_on_a_display_waits_no_more() {
    let mut rows = vec![orphan(20, 2, &[30])];
    rows[0].parent = Some(entity(10));
    rows[0].timeout = Some(Timeout { finished: true });
    let actions = find_orphaned_workspaces(&vec![], &vec![], &mut rows);
    assert_eq!(
        actions,
        vec![
            Action::RemoveTimeout(entity(20)),
            Action::InsertRefresh(entity(20)),
        ]
    );
}

#[test]
fn windows_of_a_timed_out_orphan_float() {
    let mut rows = vec![orphan(20, 2, &[30, 31])];
    rows[0].timeout = Some(Timeout { finished: true });
    let displays = vec![display(10, 1)];
    let actions = find_orphaned_workspaces(&vec![present(1, &[2])], &displays, &mut rows);
    assert_eq!(
        actions,
        vec![
            Action::InsertFloating(entity(30)),
            Action::InsertFloating(entity(31)),
        ]
    );
    assert_eq!(bits(&rows[0]), vec![30, 31]);
}

#[test]
fn orphan_without_a_display_waits() {
    let mut rows = vec![orphan(20, 2, &[30])];
    let displays = vec![display(10, 1)];
    assert!(find_orphaned_workspaces(&vec![present(1, &[3])], &displays, &mut rows).is_empty());
    assert!(find_orphaned_workspaces(&vec![present(4, &[2])], &displays, &mut rows).is_empty());
    assert_eq!(bits(&rows[0]), vec![30]);
}

#[test]
fn orphan_goes_to_the_display_of_its_workspace() {
    let mut rows = vec![settled(19, 3, &[29], 11), orphan(20, 2, &[30])];
    let displays = vec![display(10, 1), display(11, 5)];
    let reported = vec![present(4, &[2]), present(1, &[3]), present(5, &[9, 2])];
    let actions = find_orphaned_workspaces(&reported, &displays, &mut rows);
    assert_eq!(
        actions,
        vec![
            Action::RemoveTimeout(entity(20)),
            Action::SetParent(entity(20), entity(11)),
            Action::InsertRefresh(entity(20)),
        ]
    );
    assert_eq!(bits(&rows[0]), vec![29]);
}

#[test]
fn orphans_are_merged_into_the_strip_of_the_display() {
    let mut rows = vec![
        orphan(20, 2, &[30, 31]),
        settled(21, 2, &[32], 10),
        orphan(22, 2, &[33]),
    ];
    let displays = vec![display(10, 1)];
    let actions = find_orphaned_workspaces(&vec![present(1, &[2])], &displays, &mut rows);
    assert_eq!(
        actions,
        vec![
            Action::Despawn(entity(20)),
            Action::InsertRefresh(entity(21)),
            Action::Despawn(entity(22)),
            Action::InsertRefresh(entity(21)),
        ]
    );
    assert_eq!(bits(&rows[1]), vec![32, 30, 31, 33]);
    carry_out(&mut rows, &actions);
    assert_eq!(rows.len(), 1);
}

#[test]
fn orphan_is_not_merged_into_one_that_waits() {
    let mut rows = vec![orphan(20, 2, &[30]), orphan(21, 2, &[31])];
    rows[1].parent = Some(entity(10));
    let displays = vec![display(10, 1)];
    let actions = find_orphaned_workspaces(&vec![present(1, &[2])], &displays, &mut rows);
    assert_eq!(
        actions,
        vec![
            Action::RemoveTimeout(entity(20)),
            Action::SetParent(entity(20), entity(10)),
            Action::InsertRefresh(entity(20)),
            Action::RemoveTimeout(entity(21)),
            Action::InsertRefresh(entity(21)),
        ]
    );
    assert_eq!(bits(&rows[0]), vec![30]);
    assert_eq!(bits(&rows[1]), vec![31]);
}
