//! Stand-ins that do as they are told.

use crate::geometry::{Origin, Rect, Size};
use crate::mock;
use crate::mock::{
    MockApplication, MockWindow, MockWindowManager, TwoDisplayMock, WindowPadding,
};
use crate::rows::PresentDisplay;
use crate::types::{DisplayId, Error, Event, Pid, ProcessSerialNumber, WinID, WorkspaceId};
use vstd::prelude::*;

verus! {

/// An application starts without a focused window, and names the one that got the
/// focus last; the window server reports the application first and then the window.
pub proof fn focus_goes_to_the_window_that_is_raised(
    psn: ProcessSerialNumber,
    pid: Pid,
    new: MockApplication,
    window: &MockWindow,
    app: &mut MockApplication,
    queue: &mut Vec<Event>,
    before: Result<WinID, Error>,
    after: Result<WinID, Error>,
)
    requires
        call_ensures(MockApplication::new, (psn, pid), new),
        call_ensures(MockApplication::focused_window_id, (&new,), before),
        call_ensures(MockWindow::focus_with_raise, (window, psn, app, queue), ()),
        call_ensures(MockApplication::focused_window_id, (&*final(app),), after),
    ensures
        new.psn == psn,
        new.pid == pid,
        new.focused_id is None,
        before == Err::<WinID, Error>(Error::InvalidWindow),
        after == Ok::<WinID, Error>(window.id),
        final(app).focused_id == Some(window.id),
        final(app).psn == old(app).psn,
        final(app).pid == old(app).pid,
        final(queue)@ == old(queue)@.push(Event::ApplicationFrontSwitched { psn }).push(
            Event::WindowFocused { window_id: window.id },
        ),
{
}

/// What an application says of its focus is what it has in mind.
pub proof fn applications_know_their_focus(app: MockApplication, id: Result<WinID, Error>)
    requires
        call_ensures(MockApplication::focused_window_id, (&app,), id),
    ensures
        app.focused_id matches Some(focused) ==> id == Ok::<WinID, Error>(focused),
        app.focused_id is None ==> id == Err::<WinID, Error>(Error::InvalidWindow),
{
}

/// A window starts in view, where it is told, without space around it. It moves
/// without a change of size, and changes its size without moving.
pub proof fn windows_go_where_they_are_told(
    id: WinID,
    frame: Rect,
    new: MockWindow,
    moved: &mut MockWindow,
    sized: &mut MockWindow,
    origin: Origin,
    size: Size,
)
    requires
        call_ensures(MockWindow::new, (id, frame), new),
        call_ensures(MockWindow::reposition, (moved, origin), ()),
        call_ensures(MockWindow::resize, (sized, size), ()),
        old(moved).frame.measurable(),
    ensures
        new.id == id,
        new.frame == frame,
        new.horizontal_padding == 0,
        new.vertical_padding == 0,
        !new.minimized,
        final(moved).frame.min == origin,
        final(moved).frame.max.x - origin.x == old(moved).frame.max.x - old(moved).frame.min.x,
        final(moved).frame.max.y - origin.y == old(moved).frame.max.y - old(moved).frame.min.y,
        final(moved).id == old(moved).id,
        final(moved).horizontal_padding == old(moved).horizontal_padding,
        final(moved).vertical_padding == old(moved).vertical_padding,
        final(moved).minimized == old(moved).minimized,
        final(sized).frame.min == old(sized).frame.min,
        final(sized).frame.max.x - final(sized).frame.min.x == size.x,
        final(sized).frame.max.y - final(sized).frame.min.y == size.y,
        final(sized).id == old(sized).id,
        final(sized).horizontal_padding == old(sized).horizontal_padding,
        final(sized).vertical_padding == old(sized).vertical_padding,
        final(sized).minimized == old(sized).minimized,
{
}

/// Space above and below a window moves its upper and lower edges apart by what is
/// new about it, space to the sides the left and right edges; the rest stays.
pub proof fn padding_moves_two_edges(window: &mut MockWindow, padding: WindowPadding)
    requires
        call_ensures(MockWindow::set_padding, (window, padding), ()),
        old(window).allows_padding(padding),
    ensures
        ({
            let a = *old(window);
            let b = *final(window);
            &&& b.id == a.id
            &&& b.minimized == a.minimized
            &&& padding matches WindowPadding::Vertical(p) ==> {
                &&& b.vertical_padding == p
                &&& b.horizontal_padding == a.horizontal_padding
                &&& b.frame.min.x == a.frame.min.x
                &&& b.frame.max.x == a.frame.max.x
                &&& b.frame.min.y == a.frame.min.y - (p - a.vertical_padding)
                &&& b.frame.max.y == a.frame.max.y + (p - a.vertical_padding)
            }
            &&& padding matches WindowPadding::Horizontal(p) ==> {
                &&& b.horizontal_padding == p
                &&& b.vertical_padding == a.vertical_padding
                &&& b.frame.min.y == a.frame.min.y
                &&& b.frame.max.y == a.frame.max.y
                &&& b.frame.min.x == a.frame.min.x - (p - a.horizontal_padding)
                &&& b.frame.max.x == a.frame.max.x + (p - a.horizontal_padding)
            }
        }),
{
}

/// Spawned windows are numbered from zero and lie on top of each other in the upper
/// left corner; there are as many as asked for, and none for less than one.
pub proof fn spawned_windows_are_alike(count: i32, windows: Vec<MockWindow>, i: int)
    requires
        call_ensures(mock::window_spawner, (count,), windows),
    ensures
        count >= 0 ==> windows.len() == count,
        count < 0 ==> windows.len() == 0,
        0 <= i < windows.len() ==> {
            let window = windows@[i];
            &&& window.id == i
            &&& window.frame.min == Origin { x: 0, y: 0 }
            &&& window.frame.max == Origin { x: 400, y: 1000 }
            &&& window.horizontal_padding == 0
            &&& window.vertical_padding == 0
            &&& !window.minimized
        },
{
    if 0 <= i < windows.len() {
        assert(windows@[i] == MockWindow::fresh(i as WinID, mock::first_frame()));
    }
}

/// A window server with one display has all its workspaces there, in the order in
/// which it was given them.
pub proof fn one_display_has_all_workspaces<F: Fn(WorkspaceId) -> Vec<MockWindow>>(
    server: &MockWindowManager<F>,
    present: Vec<PresentDisplay>,
)
    requires
        call_ensures(MockWindowManager::<F>::present_displays, (server,), present),
    ensures
        present.len() == 1,
        present@[0].id == 1,
        present@[0].spaces@ == server.workspaces@,
{
}

/// The windows of a workspace are those that the window server was given for it, in
/// their order.
pub proof fn windows_are_listed_as_given<F: Fn(WorkspaceId) -> Vec<MockWindow>>(
    server: &MockWindowManager<F>,
    id: WorkspaceId,
    given: Vec<MockWindow>,
    ids: Vec<WinID>,
    i: int,
)
    requires
        call_ensures(MockWindowManager::<F>::windows_in_workspace, (server, id), ids),
        forall|list: Vec<MockWindow>| #[trigger]
            call_ensures(server.windows, (id,), list) ==> list == given,
    ensures
        ids.len() == given.len(),
        0 <= i < ids.len() ==> ids@[i] == given@[i].id,
{
}

/// All windows of some workspaces are those of the first, then those of the second,
/// and so on.
pub proof fn windows_of_several_workspaces_follow_each_other<
    F: Fn(WorkspaceId) -> Vec<MockWindow>,
>(
    server: &MockWindowManager<F>,
    spaces: &Vec<WorkspaceId>,
    more: &Vec<WorkspaceId>,
    id: WorkspaceId,
    give: spec_fn(WorkspaceId) -> Vec<MockWindow>,
    found: Vec<MockWindow>,
    all: Vec<MockWindow>,
)
    requires
        more@ == spaces@.push(id),
        call_ensures(
            MockWindowManager::<F>::find_existing_application_windows,
            (server, spaces),
            found,
        ),
        call_ensures(
            MockWindowManager::<F>::find_existing_application_windows,
            (server, more),
            all,
        ),
        forall|id: WorkspaceId, list: Vec<MockWindow>| #[trigger]
            call_ensures(server.windows, (id,), list) ==> list == give(id),
    ensures
        spaces.len() == 0 ==> found.len() == 0,
        all@ == found@ + give(id)@,
{
    let view = |list: Vec<MockWindow>| list@;
    let lists = choose|lists: Seq<Vec<MockWindow>>| #[trigger]
        mock::listed(server.windows, spaces@, lists) && found@ == mock::joined(lists);
    let longer = choose|lists: Seq<Vec<MockWindow>>| #[trigger]
        mock::listed(server.windows, more@, lists) && all@ == mock::joined(lists);
    assert forall|i: int| 0 <= i < longer.len() implies longer[i] == if i < lists.len() {
        lists[i]
    } else {
        give(id)
    } by {
        assert(call_ensures(server.windows, (more@[i],), longer[i]));
        if i < lists.len() {
            assert(call_ensures(server.windows, (spaces@[i],), lists[i]));
        }
    }
    assert(longer =~= lists.push(give(id)));
    assert(longer.map_values(view) =~= lists.map_values(view).push(give(id)@));
    lists.map_values(view).lemma_flatten_push(give(id)@);
    if spaces.len() == 0 {
        assert(lists.map_values(view) =~= Seq::<Seq<MockWindow>>::empty());
    }
}

/// A window server with two displays shows one workspace on each, the second display
/// first, and takes every other display for the first one.
pub proof fn two_displays_have_one_workspace_each(
    server: &TwoDisplayMock,
    present: Vec<PresentDisplay>,
    display_id: DisplayId,
    space: WorkspaceId,
)
    requires
        call_ensures(TwoDisplayMock::present_displays, (server,), present),
        call_ensures(TwoDisplayMock::active_display_space, (server, display_id), space),
    ensures
        present.len() == 2,
        present@[0].id == 2,
        present@[0].spaces@ == seq![20u64],
        present@[1].id == 1,
        present@[1].spaces@ == seq![2u64],
        space == if display_id == 2 {
            20u64
        } else {
            2u64
        },
{
}

} // verus!
