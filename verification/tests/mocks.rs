use workspaces::geometry::{Origin, Rect, Size};
use workspaces::mock::{
    window_spawner, MockApplication, MockWindow, MockWindowManager, TwoDisplayMock, WindowPadding,
    EXT_DISPLAY_ID, EXT_WORKSPACE_ID, TEST_DISPLAY_ID, TEST_WORKSPACE_ID,
};
use workspaces::types::{Error, Event, ProcessSerialNumber, WorkspaceId};

#[test]
fn test_set_padding_expands_frame() {
    // Window at (100, 50) with size (400, 300).
    let frame = Rect::new(100, 50, 500, 350);
    let mut window = MockWindow::new(1, frame);

    assert_eq!(window.frame.width(), 400);
    assert_eq!(window.frame.height(), 300);

    // Setting horizontal padding should expand the frame by the padding on each side.
    window.set_padding(WindowPadding::Horizontal(8));
    assert_eq!(
        window.frame.min.x,
        92,
        "min.x should shift left by padding"
    );
    assert_eq!(
        window.frame.max.x,
        508,
        "max.x should shift right by padding"
    );
    assert_eq!(
        window.frame.width(),
        416,
        "width should grow by 2 * padding"
    );

    // Setting vertical padding should expand the frame vertically.
    window.set_padding(WindowPadding::Vertical(5));
    assert_eq!(window.frame.min.y, 45, "min.y should shift up by padding");
    assert_eq!(
        window.frame.max.y,
        355,
        "max.y should shift down by padding"
    );
    assert_eq!(
        window.frame.height(),
        310,
        "height should grow by 2 * padding"
    );

    // Changing padding from 8 to 12 should only expand by the delta (4).
    window.set_padding(WindowPadding::Horizontal(12));
    assert_eq!(window.frame.min.x, 88);
    assert_eq!(window.frame.max.x, 512);
    assert_eq!(window.frame.width(), 424);
}

#[test]
fn last_padding_is_the_one_that_counts() {
    let frame = Rect::new(0, 0, 100, 60);
    let mut once = MockWindow::new(1, frame);
    let mut twice = MockWindow::new(1, frame);
    twice.set_padding(WindowPadding::Vertical(9));
    twice.set_padding(WindowPadding::Vertical(-3));
    once.set_padding(WindowPadding::Vertical(-3));
    assert_eq!(once, twice);
    assert_eq!(once.frame, Rect::new(0, 3, 100, 57));
}

#[test]
fn corners_may_come_in_any_order() {
    let rect = Rect::new(500, 50, 100, 350);
    assert_eq!(rect.min, Origin { x: 100, y: 50 });
    assert_eq!(rect.max, Origin { x: 500, y: 350 });
    assert_eq!(rect.size(), Size { x: 400, y: 300 });
}

#[test]
fn size_is_the_distance_of_the_corners() {
    let rect = Rect {
        min: Origin { x: -30, y: -20 },
        max: Origin { x: 12, y: 13 },
    };
    assert_eq!(rect.size(), Size { x: 42, y: 33 });
    assert_eq!(rect.width(), 42);
    assert_eq!(rect.height(), 33);
}

#[test]
fn reposition_keeps_the_size() {
    let mut window = MockWindow::new(1, Rect::new(100, 50, 500, 350));
    window.reposition(Origin { x: -7, y: 20 });
    assert_eq!(window.frame.min, Origin { x: -7, y: 20 });
    assert_eq!(window.frame.max, Origin { x: 393, y: 320 });
}

#[test]
fn resize_keeps_the_corner() {
    let mut window = MockWindow::new(1, Rect::new(100, 50, 500, 350));
    window.resize(Size { x: 11, y: 22 });
    assert_eq!(window.frame.min, Origin { x: 100, y: 50 });
    assert_eq!(window.frame.max, Origin { x: 111, y: 72 });
}

#[test]
fn new_window_has_no_padding_and_is_in_view() {
    let window = MockWindow::new(3, Rect::new(1, 2, 3, 4));
    assert_eq!(window.id, 3);
    assert_eq!(window.frame, Rect::new(1, 2, 3, 4));
    assert_eq!(window.horizontal_padding, 0);
    assert_eq!(window.vertical_padding, 0);
    assert!(!window.minimized);
}

#[test]
fn application_without_focus_has_no_focused_window() {
    let app = MockApplication::new(ProcessSerialNumber { high: 1, low: 2 }, 1);
    assert_eq!(app.pid, 1);
    assert_eq!(app.focused_window_id(), Err(Error::InvalidWindow));
}

#[test]
fn focus_with_raise_tells_application_and_queue() {
    let psn = ProcessSerialNumber { high: 1, low: 2 };
    let mut app = MockApplication::new(psn, 1);
    let mut queue = vec![Event::SpaceChanged];
    let window = MockWindow::new(5, Rect::new(0, 0, 10, 10));
    window.focus_with_raise(psn, &mut app, &mut queue);
    assert_eq!(app.focused_window_id(), Ok(5));
    assert_eq!(
        queue,
        vec![
            Event::SpaceChanged,
            Event::ApplicationFrontSwitched { psn },
            Event::WindowFocused { window_id: 5 },
        ]
    );
}

#[test]
fn spawner_numbers_windows_from_zero() {
    let windows = window_spawner(3);
    assert_eq!(windows.len(), 3);
    for (i, window) in windows.iter().enumerate() {
        assert_eq!(window.id, i as i32);
        assert_eq!(window.frame, Rect::new(0, 0, 400, 1000));
    }
    assert!(window_spawner(-2).is_empty());
}

#[test]
fn window_server_lists_its_windows() {
    let manager = MockWindowManager {
        windows: |id: WorkspaceId| window_spawner(id as i32),
        workspaces: vec![TEST_WORKSPACE_ID, TEST_WORKSPACE_ID + 1],
    };
    assert_eq!(manager.windows_in_workspace(2), vec![0, 1]);
    let found = manager.find_existing_application_windows(&vec![2, 0, 1]);
    let ids: Vec<i32> = found.iter().map(|window| window.id).collect();
    assert_eq!(ids, vec![0, 1, 0]);
    let present = manager.present_displays();
    assert_eq!(present.len(), 1);
    assert_eq!(present[0].id, TEST_DISPLAY_ID);
    assert_eq!(present[0].spaces, vec![2, 3]);
}

#[test]
fn two_displays_show_two_workspaces() {
    let manager = TwoDisplayMock {
        active_display: EXT_DISPLAY_ID,
    };
    assert_eq!(manager.active_display_space(manager.active_display), EXT_WORKSPACE_ID);
    assert_eq!(manager.active_display_space(TEST_DISPLAY_ID), TEST_WORKSPACE_ID);
    let present = manager.present_displays();
    assert_eq!(present[0].id, 2);
    assert_eq!(present[0].spaces, vec![20]);
    assert_eq!(present[1].id, 1);
    assert_eq!(present[1].spaces, vec![2]);
}
