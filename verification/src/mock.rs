//! Stand-ins for windows and applications, for tests and dry runs: they keep
//! in memory what the window server would know.

use crate::geometry;
use crate::geometry::{Origin, Rect, Size};
use crate::rows::PresentDisplay;
use crate::types::{DisplayId, Error, Event, Pid, ProcessSerialNumber, WinID, WorkspaceId};
use vstd::prelude::*;

verus! {

/// The display that is always there.
pub const TEST_DISPLAY_ID: DisplayId = 1;

/// The workspace that this display shows.
pub const TEST_WORKSPACE_ID: WorkspaceId = 2;

/// A second display.
pub const EXT_DISPLAY_ID: DisplayId = 2;

/// The workspace that the second display shows.
pub const EXT_WORKSPACE_ID: WorkspaceId = 20;

/// Width of a new window.
pub const TEST_WINDOW_WIDTH: i32 = 400;

/// Height of a new window.
pub const TEST_WINDOW_HEIGHT: i32 = 1000;

/// Space around a window, above and below it or on both sides.
#[derive(Clone, Copy, Debug, PartialEq, Eq)]
pub enum WindowPadding {
    Vertical(i32),
    Horizontal(i32),
}

/// An application that knows which of its windows has focus.
#[derive(Clone, Copy, Debug, PartialEq, Eq)]
pub struct MockApplication {
    pub psn: ProcessSerialNumber,
    pub pid: Pid,
    pub focused_id: Option<WinID>,
}

impl MockApplication {
    /// An application without a focused window.
    pub fn new(psn: ProcessSerialNumber, pid: Pid) -> (app: MockApplication)
        ensures
            app == (MockApplication { psn, pid, focused_id: None }),
    {
        MockApplication { psn, pid, focused_id: None }
    }

    /// The focused window.
    pub fn focused_window_id(&self) -> (id: Result<WinID, Error>)
        ensures
            match self.focused_id {
                Some(focused) => id == Ok::<WinID, Error>(focused),
                None => id == Err::<WinID, Error>(Error::InvalidWindow),
            },
    {
        match self.focused_id {
            Some(id) => Ok(id),
            None => Err(Error::InvalidWindow),
        }
    }
}

/// A window that goes where it is told to.
#[derive(Clone, Copy, Debug, PartialEq, Eq)]
pub struct MockWindow {
    pub id: WinID,
    /// The window with the space around it.
    pub frame: Rect,
    pub horizontal_padding: i32,
    pub vertical_padding: i32,
    pub minimized: bool,
}

impl MockWindow {
    /// The window, in view and without space around it.
    pub open spec fn fresh(id: WinID, frame: Rect) -> MockWindow {
        MockWindow {
            id,
            frame,
            horizontal_padding: 0,
            vertical_padding: 0,
            minimized: false,
        }
    }

    /// A window in view, without space around it.
    pub fn new(id: WinID, frame: Rect) -> (window: MockWindow)
        ensures
            window == MockWindow::fresh(id, frame),
    {
        MockWindow { id, frame, horizontal_padding: 0, vertical_padding: 0, minimized: false }
    }

    /// Moves the window; its size stays.
    pub fn reposition(&mut self, origin: Origin)
        requires
            old(self).frame.measurable(),
            geometry::fits(origin.x + old(self).frame.extent().x),
            geometry::fits(origin.y + old(self).frame.extent().y),
        ensures
            final(self).frame.min == origin,
            final(self).frame.max.x == origin.x + old(self).frame.extent().x,
            final(self).frame.max.y == origin.y + old(self).frame.extent().y,
            *final(self) == (MockWindow { frame: final(self).frame, ..*old(self) }),
    {
        let size = self.frame.size();
        self.frame.min = origin;
        self.frame.max = origin.plus(size);
    }

    /// Changes the size of the window; its upper left corner stays.
    pub fn resize(&mut self, size: Size)
        requires
            geometry::fits(old(self).frame.min.x + size.x),
            geometry::fits(old(self).frame.min.y + size.y),
        ensures
            final(self).frame.min == old(self).frame.min,
            final(self).frame.max.x == old(self).frame.min.x + size.x,
            final(self).frame.max.y == old(self).frame.min.y + size.y,
            *final(self) == (MockWindow { frame: final(self).frame, ..*old(self) }),
    {
        self.frame.max = self.frame.min.plus(size);
    }

    /// How much a new padding adds on each side.
    pub open spec fn padding_change(self, padding: WindowPadding) -> int {
        match padding {
            WindowPadding::Vertical(p) => p - self.vertical_padding,
            WindowPadding::Horizontal(p) => p - self.horizontal_padding,
        }
    }

    /// Whether the frame with a new padding is in range.
    pub open spec fn allows_padding(self, padding: WindowPadding) -> bool {
        let d = self.padding_change(padding);
        geometry::fits(d) && match padding {
            WindowPadding::Vertical(_) => geometry::fits(self.frame.min.y - d) && geometry::fits(
                self.frame.max.y + d,
            ),
            WindowPadding::Horizontal(_) => geometry::fits(self.frame.min.x - d) && geometry::fits(
                self.frame.max.x + d,
            ),
        }
    }

    /// The window with a new padding: its frame grows on both sides by what is
    /// added.
    pub open spec fn padded(self, padding: WindowPadding) -> MockWindow {
        let d = self.padding_change(padding);
        let min = self.frame.min;
        let max = self.frame.max;
        match padding {
            WindowPadding::Vertical(p) => MockWindow {
                frame: Rect {
                    min: Origin { x: min.x, y: (min.y - d) as i32 },
                    max: Origin { x: max.x, y: (max.y + d) as i32 },
                },
                vertical_padding: p,
                ..self
            },
            WindowPadding::Horizontal(p) => MockWindow {
                frame: Rect {
                    min: Origin { x: (min.x - d) as i32, y: min.y },
                    max: Origin { x: (max.x + d) as i32, y: max.y },
                },
                horizontal_padding: p,
                ..self
            },
        }
    }

    /// Sets the space around the window.
    pub fn set_padding(&mut self, padding: WindowPadding)
        requires
            old(self).allows_padding(padding),
        ensures
            *final(self) == old(self).padded(padding),
    {
        match padding {
            WindowPadding::Vertical(padding) => {
                let delta: i32 = padding - self.vertical_padding;
                self.frame.min.y = self.frame.min.y - delta;
                self.frame.max.y = self.frame.max.y + delta;
                self.vertical_padding = padding;
            },
            WindowPadding::Horizontal(padding) => {
                let delta: i32 = padding - self.horizontal_padding;
                self.frame.min.x = self.frame.min.x - delta;
                self.frame.max.x = self.frame.max.x + delta;
                self.horizontal_padding = padding;
            },
        }
    }

    /// Gives the window focus and brings it to the front. What the window
    /// server would report goes to the end of `queue`.
    pub fn focus_with_raise(
        &self,
        psn: ProcessSerialNumber,
        app: &mut MockApplication,
        queue: &mut Vec<Event>,
    )
        ensures
            *final(app) == (MockApplication { focused_id: Some(self.id), ..*old(app) }),
            final(queue)@ == old(queue)@ + seq![
                Event::ApplicationFrontSwitched { psn },
                Event::WindowFocused { window_id: self.id },
            ],
    {
        queue.push(Event::ApplicationFrontSwitched { psn });
        queue.push(Event::WindowFocused { window_id: self.id });
        app.focused_id = Some(self.id);
        assert(queue@ =~= old(queue)@ + seq![
            Event::ApplicationFrontSwitched { psn },
            Event::WindowFocused { window_id: self.id },
        ]);
    }
}

/// The frame of a new window, in the upper left corner of the desktop.
pub open spec fn first_frame() -> Rect {
    Rect {
        min: Origin { x: 0, y: 0 },
        max: Origin { x: TEST_WINDOW_WIDTH, y: TEST_WINDOW_HEIGHT },
    }
}

/// New windows, numbered from zero.
pub fn window_spawner(count: i32) -> (windows: Vec<MockWindow>)
    ensures
        windows.len() == if count > 0 {
            count as int
        } else {
            0
        },
        forall|i: int|
            0 <= i < windows.len() ==> (#[trigger] windows@[i]) == MockWindow::fresh(
                i as WinID,
                first_frame(),
            ),
{
    let mut windows: Vec<MockWindow> = Vec::new();
    let mut id: WinID = 0;
    while id < count
        invariant
            0 <= id,
            count > 0 ==> id <= count,
            count <= 0 ==> id == 0,
            windows.len() == id,
            forall|i: int|
                0 <= i < windows.len() ==> (#[trigger] windows@[i]) == MockWindow::fresh(
                    i as WinID,
                    first_frame(),
                ),
        decreases count - id,
    {
        let origin = Origin { x: 0, y: 0 };
        let size = Size { x: TEST_WINDOW_WIDTH, y: TEST_WINDOW_HEIGHT };
        let frame = Rect { min: origin, max: origin.plus(size) };
        windows.push(MockWindow::new(id, frame));
        id += 1;
    }
    windows
}

/// A window server with one display. `windows` are the windows of each
/// workspace.
pub struct MockWindowManager<F: Fn(WorkspaceId) -> Vec<MockWindow>> {
    pub windows: F,
    pub workspaces: Vec<WorkspaceId>,
}

/// Whether asking for the windows of some workspaces could have given these
/// lists.
pub open spec fn listed<F: Fn(WorkspaceId) -> Vec<MockWindow>>(
    windows: F,
    spaces: Seq<WorkspaceId>,
    lists: Seq<Vec<MockWindow>>,
) -> bool {
    &&& lists.len() == spaces.len()
    &&& forall|i: int|
        0 <= i < spaces.len() ==> call_ensures(windows, (spaces[i],), #[trigger] lists[i])
}

/// The windows of several lists, one list after another.
pub open spec fn joined(lists: Seq<Vec<MockWindow>>) -> Seq<MockWindow> {
    lists.map_values(|list: Vec<MockWindow>| list@).flatten()
}

impl<F: Fn(WorkspaceId) -> Vec<MockWindow>> MockWindowManager<F> {
    /// The displays, and the workspaces of each.
    pub fn present_displays(&self) -> (present: Vec<PresentDisplay>)
        ensures
            present.len() == 1,
            present@[0].id == TEST_DISPLAY_ID,
            present@[0].spaces@ == self.workspaces@,
    {
        let mut spaces: Vec<WorkspaceId> = Vec::new();
        for i in 0..self.workspaces.len()
            invariant
                spaces@ == self.workspaces@.take(i as int),
        {
            spaces.push(self.workspaces[i]);
            assert(self.workspaces@.take(i + 1) =~= self.workspaces@.take(i as int).push(
                self.workspaces@[i as int],
            ));
        }
        assert(self.workspaces@.take(self.workspaces@.len() as int) =~= self.workspaces@);
        let mut present: Vec<PresentDisplay> = Vec::new();
        present.push(PresentDisplay { id: TEST_DISPLAY_ID, spaces });
        present
    }

    /// The identifiers of the windows of a workspace.
    pub fn windows_in_workspace(&self, workspace_id: WorkspaceId) -> (ids: Vec<WinID>)
        requires
            call_requires(self.windows, (workspace_id,)),
        ensures
            exists|list: Vec<MockWindow>| #[trigger]
                call_ensures(self.windows, (workspace_id,), list) && ids@ == list@.map_values(
                    |window: MockWindow| window.id,
                ),
    {
        let list = (self.windows)(workspace_id);
        let ghost all = list@.map_values(|window: MockWindow| window.id);
        let mut ids: Vec<WinID> = Vec::new();
        for i in 0..list.len()
            invariant
                all == list@.map_values(|window: MockWindow| window.id),
                ids@ == all.take(i as int),
        {
            ids.push(list[i].id);
            assert(all.take(i + 1) =~= all.take(i as int).push(all[i as int]));
        }
        assert(all.take(all.len() as int) =~= all);
        ids
    }

    /// All windows of some workspaces, one workspace after another.
    pub fn find_existing_application_windows(&self, spaces: &Vec<WorkspaceId>) -> (found: Vec<
        MockWindow,
    >)
        requires
            forall|id: WorkspaceId| #[trigger] call_requires(self.windows, (id,)),
        ensures
            exists|lists: Seq<Vec<MockWindow>>| #[trigger]
                listed(self.windows, spaces@, lists) && found@ == joined(lists),
    {
        let mut found: Vec<MockWindow> = Vec::new();
        let ghost mut lists: Seq<Vec<MockWindow>> = Seq::empty();
        assert(found@ =~= joined(lists));
        for i in 0..spaces.len()
            invariant
                forall|id: WorkspaceId| #[trigger] call_requires(self.windows, (id,)),
                listed(self.windows, spaces@.take(i as int), lists),
                found@ == joined(lists),
        {
            let list = (self.windows)(spaces[i]);
            let ghost before = found@;
            for k in 0..list.len()
                invariant
                    found@ == before + list@.take(k as int),
            {
                found.push(list[k]);
                assert(list@.take(k + 1) =~= list@.take(k as int).push(list@[k as int]));
            }
            proof {
                assert(list@.take(list@.len() as int) =~= list@);
                let seqs = lists.map_values(|list: Vec<MockWindow>| list@);
                seqs.lemma_flatten_push(list@);
                let more = lists.push(list);
                assert(more.map_values(|list: Vec<MockWindow>| list@) =~= seqs.push(list@));
                assert forall|j: int| 0 <= j < i + 1 implies call_ensures(
                    self.windows,
                    (spaces@.take(i + 1)[j],),
                    #[trigger] more[j],
                ) by {
                    if j < i {
                        assert(more[j] == lists[j]);
                        assert(spaces@.take(i as int)[j] == spaces@[j]);
                    }
                }
                lists = more;
            }
        }
        assert(spaces@.take(spaces@.len() as int) =~= spaces@);
        found
    }
}

/// A window server with two displays, one of which is active.
pub struct TwoDisplayMock {
    pub active_display: DisplayId,
}

impl TwoDisplayMock {
    /// The displays, the second one first, and the workspace of each.
    pub fn present_displays(&self) -> (present: Vec<PresentDisplay>)
        ensures
            present.len() == 2,
            present@[0].id == EXT_DISPLAY_ID,
            present@[0].spaces@ == seq![EXT_WORKSPACE_ID],
            present@[1].id == TEST_DISPLAY_ID,
            present@[1].spaces@ == seq![TEST_WORKSPACE_ID],
    {
        let mut ext: Vec<WorkspaceId> = Vec::new();
        ext.push(EXT_WORKSPACE_ID);
        assert(ext@ =~= seq![EXT_WORKSPACE_ID]);
        let mut inner: Vec<WorkspaceId> = Vec::new();
        inner.push(TEST_WORKSPACE_ID);
        assert(inner@ =~= seq![TEST_WORKSPACE_ID]);
        let mut present: Vec<PresentDisplay> = Vec::new();
        present.push(PresentDisplay { id: EXT_DISPLAY_ID, spaces: ext });
        present.push(PresentDisplay { id: TEST_DISPLAY_ID, spaces: inner });
        present
    }

    /// The workspace that a display shows.
    pub fn active_display_space(&self, display_id: DisplayId) -> (space: WorkspaceId)
        ensures
            space == if display_id == EXT_DISPLAY_ID {
                EXT_WORKSPACE_ID
            } else {
                TEST_WORKSPACE_ID
            },
    {
        if display_id == EXT_DISPLAY_ID {
            EXT_WORKSPACE_ID
        } else {
            TEST_WORKSPACE_ID
        }
    }
}

/// Only the padding that was set last counts, in each direction.
pub proof fn last_padding_counts(window: MockWindow, first: WindowPadding, second: WindowPadding)
    requires
        first is Vertical <==> second is Vertical,
        window.allows_padding(first),
        window.allows_padding(second),
    ensures
        window.padded(first).padded(second) == window.padded(second),
{
}

/// Padding makes the frame wider or higher by twice what is added, and leaves
/// its centre where it is.
pub proof fn padding_grows_both_sides(window: MockWindow, padding: WindowPadding)
    requires
        window.allows_padding(padding),
    ensures
        ({
            let d = window.padding_change(padding);
            let a = window.frame;
            let b = window.padded(padding).frame;
            let w = if padding is Horizontal {
                d
            } else {
                0
            };
            let h = if padding is Vertical {
                d
            } else {
                0
            };
            &&& b.max.x - b.min.x == a.max.x - a.min.x + 2 * w
            &&& b.max.y - b.min.y == a.max.y - a.min.y + 2 * h
            &&& b.min.x + b.max.x == a.min.x + a.max.x
            &&& b.min.y + b.max.y == a.min.y + a.max.y
        }),
{
}

} // verus!
