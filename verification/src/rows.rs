//! The strips, windows and displays of the world as tables of plain values,
//! and what is to be done to the world.

use crate::geometry::{Origin, Rect, Size};
use crate::search;
use crate::strip::{LayoutStrip, StripView};
use crate::types::{
    DisplayId, Entity, Event, MoveFocus, ProcessSerialNumber, WinID, WorkspaceId,
};
use vstd::prelude::*;

verus! {

/// Where a strip stood, and which window had focus, before it was hidden.
#[derive(Clone, Copy, Debug, PartialEq, Eq)]
pub struct PreviousStripPosition {
    pub origin: Origin,
    pub focus: Option<Entity>,
}

/// Where the window of a fullscreen workspace came from.
#[derive(Clone, Copy, Debug, PartialEq, Eq)]
pub struct NativeFullscreenMarker {
    pub previous_strip: WorkspaceId,
    pub previous_index: usize,
}

/// Marks a window that is to go to another row of its workspace.
#[derive(Clone, Copy, Debug, PartialEq, Eq)]
pub struct VirtualMoveMarker {
    pub target_virtual_index: u32,
    pub move_focus: MoveFocus,
}

/// Why a window is not laid out.
#[derive(Clone, Copy, Debug, PartialEq, Eq, Structural)]
pub enum Unmanaged {
    Floating,
    Other,
}

/// How long a strip without a display is kept.
#[derive(Clone, Copy, Debug, PartialEq, Eq, Structural)]
pub struct Timeout {
    /// Whether the time is up.
    pub finished: bool,
}

/// Marks a strip whose windows are to be measured anew.
#[derive(Clone, Copy, Debug, PartialEq, Eq, Structural)]
pub struct RefreshWindowSizes {
    /// Whether the wait before the measurement is over.
    pub ready: bool,
}

/// A display of the world.
#[derive(Clone, Copy, Debug, PartialEq, Eq)]
pub struct Display {
    pub entity: Entity,
    pub id: DisplayId,
    pub bounds: Rect,
}

/// A display that the window server reports, and its workspaces.
#[derive(Debug)]
pub struct PresentDisplay {
    pub id: DisplayId,
    pub spaces: Vec<WorkspaceId>,
}

/// A window of the world.
#[derive(Clone, Copy, Debug, PartialEq, Eq)]
pub struct WindowRow {
    pub entity: Entity,
    pub id: WinID,
    /// Width and height as the layout knows them.
    pub bounds: Size,
    pub unmanaged: Option<Unmanaged>,
    /// Serial number of the process that owns the window, if that is known.
    pub psn: Option<ProcessSerialNumber>,
}

/// A strip of the world, with what is attached to it.
#[derive(Debug)]
pub struct StripRow {
    pub entity: Entity,
    pub strip: LayoutStrip,
    /// Where the strip stands on the desktop.
    pub position: Origin,
    /// The display that the strip belongs to.
    pub parent: Option<Entity>,
    /// Whether the strip is the one that the user sees.
    pub active: bool,
    /// Whether the strip is the row of its workspace that is shown when the
    /// workspace is.
    pub selected: bool,
    pub fullscreen: Option<NativeFullscreenMarker>,
    pub previous: Option<PreviousStripPosition>,
    pub timeout: Option<Timeout>,
    pub refresh: Option<RefreshWindowSizes>,
}

/// What a row of the strip table holds.
pub struct RowView {
    pub entity: Entity,
    pub strip: StripView,
    pub position: Origin,
    pub parent: Option<Entity>,
    pub active: bool,
    pub selected: bool,
    pub fullscreen: Option<NativeFullscreenMarker>,
    pub previous: Option<PreviousStripPosition>,
    pub timeout: Option<Timeout>,
    pub refresh: Option<RefreshWindowSizes>,
}

impl View for StripRow {
    type V = RowView;

    open spec fn view(&self) -> RowView {
        RowView {
            entity: self.entity,
            strip: self.strip@,
            position: self.position,
            parent: self.parent,
            active: self.active,
            selected: self.selected,
            fullscreen: self.fullscreen,
            previous: self.previous,
            timeout: self.timeout,
            refresh: self.refresh,
        }
    }
}

impl DeepView for StripRow {
    type V = RowView;

    open spec fn deep_view(&self) -> RowView {
        self@
    }
}

impl Clone for StripRow {
    fn clone(&self) -> (copy: StripRow)
        ensures
            copy@ == self@,
    {
        StripRow {
            entity: self.entity,
            strip: self.strip.clone(),
            position: self.position,
            parent: self.parent,
            active: self.active,
            selected: self.selected,
            fullscreen: self.fullscreen,
            previous: self.previous,
            timeout: self.timeout,
            refresh: self.refresh,
        }
    }
}

/// What a row of the table of reported displays holds.
pub struct PresentView {
    pub id: DisplayId,
    pub spaces: Seq<WorkspaceId>,
}

impl View for PresentDisplay {
    type V = PresentView;

    open spec fn view(&self) -> PresentView {
        PresentView { id: self.id, spaces: self.spaces@ }
    }
}

impl DeepView for PresentDisplay {
    type V = PresentView;

    open spec fn deep_view(&self) -> PresentView {
        self@
    }
}

impl RowView {
    /// The row with another strip in it.
    pub open spec fn with_strip(self, strip: StripView) -> RowView {
        RowView { strip, ..self }
    }

    /// The row at another place.
    pub open spec fn moved_to(self, position: Origin) -> RowView {
        RowView { position, ..self }
    }
}

/// Picks the row of a strip entity.
pub open spec fn row_of(entity: Entity) -> spec_fn(RowView) -> bool {
    |row: RowView| row.entity == entity
}

/// Picks the rows of a workspace.
pub open spec fn of_space(id: WorkspaceId) -> spec_fn(RowView) -> bool {
    |row: RowView| row.strip.id == id
}

/// Picks the active rows.
pub open spec fn is_active() -> spec_fn(RowView) -> bool {
    |row: RowView| row.active
}

/// No two rows are of one entity.
pub open spec fn distinct(rows: Seq<RowView>) -> bool {
    forall|i: int, j: int|
        0 <= i < rows.len() && 0 <= j < rows.len() && i != j ==> (#[trigger] rows[i]).entity != (
        #[trigger] rows[j]).entity
}

/// Picks the window that an entity is.
pub open spec fn window_of(entity: Entity) -> spec_fn(WindowRow) -> bool {
    |row: WindowRow| row.entity == entity
}

/// Picks the windows that the window server knows by an identifier.
pub open spec fn window_with_id(id: WinID) -> spec_fn(WindowRow) -> bool {
    |row: WindowRow| row.id == id
}

/// Picks, of these, the windows that are laid out.
pub open spec fn managed_with_id(id: WinID) -> spec_fn(WindowRow) -> bool {
    |row: WindowRow| row.unmanaged is None && row.id == id
}

/// The entity of the window that is laid out and known by `id`.
pub open spec fn managed_window(windows: Seq<WindowRow>, id: WinID) -> Option<Entity> {
    match search::first(windows, managed_with_id(id)) {
        Some(i) => Some(windows[i].entity),
        None => None,
    }
}

/// A strip that is to come into the world.
#[derive(Clone, Copy, Debug, PartialEq, Eq)]
pub struct NewStrip {
    pub id: WorkspaceId,
    pub virtual_index: u32,
    /// The one window that the strip starts with, if any.
    pub window: Option<Entity>,
    pub position: Origin,
    pub parent: Entity,
    pub selected: bool,
    pub fullscreen: Option<NativeFullscreenMarker>,
    pub previous: Option<PreviousStripPosition>,
}

impl NewStrip {
    /// What the strip holds when it comes into the world.
    pub open spec fn contents(self) -> StripView {
        StripView {
            id: self.id,
            virtual_index: self.virtual_index,
            columns: match self.window {
                Some(window) => seq![seq![window]],
                None => Seq::empty(),
            },
        }
    }

    /// The row that the strip makes once it is in the world as `entity`.
    pub open spec fn row(self, entity: Entity) -> RowView {
        RowView {
            entity,
            strip: self.contents(),
            position: self.position,
            parent: Some(self.parent),
            active: false,
            selected: self.selected,
            fullscreen: self.fullscreen,
            previous: self.previous,
            timeout: None,
            refresh: None,
        }
    }

    /// The strip itself.
    pub fn strip(&self) -> (strip: LayoutStrip)
        ensures
            strip@ == self.contents(),
    {
        let mut strip = LayoutStrip::new(self.id, self.virtual_index);
        match self.window {
            Some(window) => {
                strip.append(window);
                assert(strip@.columns =~= seq![seq![window]]);
            },
            None => {},
        }
        strip
    }
}

/// The strip that an action is about.
#[derive(Clone, Copy, Debug, PartialEq, Eq)]
pub enum Target {
    /// A strip of the world.
    Strip(Entity),
    /// The strip of the latest `Spawn` before the action.
    Spawned,
}

/// What is to be done to the world, in the order in which it is listed. An
/// action on an entity that is no longer there is skipped.
#[derive(Clone, Copy, Debug, PartialEq, Eq)]
pub enum Action {
    /// Bring a strip into the world.
    Spawn(NewStrip),
    Despawn(Entity),
    /// Mark the strip that the user sees.
    InsertActive(Target),
    RemoveActive(Entity),
    /// Mark the row of a workspace that is shown when the workspace is.
    InsertSelected(Target),
    RemoveSelected(Entity),
    InsertPrevious(Entity, PreviousStripPosition),
    RemovePrevious(Entity),
    /// Make a strip (first) a child of a display (second).
    SetParent(Entity, Entity),
    RemoveTimeout(Entity),
    InsertRefresh(Entity),
    RemoveRefresh(Entity),
    /// Take a window out of the layout and let it float.
    InsertFloating(Entity),
    InsertVirtualMove(Entity, VirtualMoveMarker),
    RemoveVirtualMove(Entity),
    InsertFocused(Entity),
    RemoveFocused(Entity),
    /// Move a window.
    Reposition(Entity, Origin),
    /// Lay out the strip anew so that the window is in view.
    ReshuffleAround(Entity),
    /// Give `window` the focus that `previous` has, without raising it.
    FocusWithoutRaise {
        window: Entity,
        psn: ProcessSerialNumber,
        previous: Entity,
        previous_psn: ProcessSerialNumber,
    },
    /// Let an event take its course.
    Trigger(Event),
}

/// The row of a strip entity.
pub fn find_row(rows: &Vec<StripRow>, entity: Entity) -> (found: Option<usize>)
    ensures
        match search::first(rows.deep_view(), row_of(entity)) {
            Some(i) => found == Some(i as usize) && 0 <= i < rows.len(),
            None => found is None,
        },
{
    for i in 0..rows.len()
        invariant
            forall|j: int| 0 <= j < i ==> !row_of(entity)(rows.deep_view()[j]),
    {
        assert(rows.deep_view()[i as int] == rows@[i as int]@);
        if rows[i].entity == entity {
            proof {
                search::lemma_first_is(rows.deep_view(), row_of(entity), i as int);
            }
            return Some(i);
        }
    }
    proof {
        search::lemma_first_none(rows.deep_view(), row_of(entity));
    }
    None
}

/// The window that an entity is.
pub fn find_window(windows: &Vec<WindowRow>, entity: Entity) -> (found: Option<usize>)
    ensures
        match search::first(windows@, window_of(entity)) {
            Some(i) => found == Some(i as usize) && 0 <= i < windows.len(),
            None => found is None,
        },
{
    for i in 0..windows.len()
        invariant
            forall|j: int| 0 <= j < i ==> !window_of(entity)(windows@[j]),
    {
        if windows[i].entity == entity {
            proof {
                search::lemma_first_is(windows@, window_of(entity), i as int);
            }
            return Some(i);
        }
    }
    proof {
        search::lemma_first_none(windows@, window_of(entity));
    }
    None
}

/// The window that the window server knows by an identifier.
pub fn find_id(windows: &Vec<WindowRow>, id: WinID) -> (found: Option<usize>)
    ensures
        match search::first(windows@, window_with_id(id)) {
            Some(i) => found == Some(i as usize) && 0 <= i < windows.len(),
            None => found is None,
        },
{
    for i in 0..windows.len()
        invariant
            forall|j: int| 0 <= j < i ==> !window_with_id(id)(windows@[j]),
    {
        if windows[i].id == id {
            proof {
                search::lemma_first_is(windows@, window_with_id(id), i as int);
            }
            return Some(i);
        }
    }
    proof {
        search::lemma_first_none(windows@, window_with_id(id));
    }
    None
}

/// The window that is laid out and that the window server knows by an
/// identifier.
pub fn find_managed(windows: &Vec<WindowRow>, id: WinID) -> (found: Option<Entity>)
    ensures
        found == managed_window(windows@, id),
{
    for i in 0..windows.len()
        invariant
            forall|j: int| 0 <= j < i ==> !managed_with_id(id)(windows@[j]),
    {
        if windows[i].unmanaged.is_none() && windows[i].id == id {
            proof {
                search::lemma_first_is(windows@, managed_with_id(id), i as int);
            }
            return Some(windows[i].entity);
        }
    }
    proof {
        search::lemma_first_none(windows@, managed_with_id(id));
    }
    None
}

} // verus!
