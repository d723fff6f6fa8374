//! Identifiers, events and commands.

use vstd::prelude::*;

verus! {

/// Identifier that the window server gives a window.
pub type WinID = i32;

/// Identifier that the window server gives a workspace (a "space").
pub type WorkspaceId = u64;

/// Identifier that the window server gives a display.
pub type DisplayId = u32;

/// Process identifier.
pub type Pid = i32;

/// An entity of the world: a window, a strip of windows or a display.
#[derive(Clone, Copy, Debug, PartialEq, Eq, Hash, Structural)]
pub struct Entity {
    pub bits: u64,
}

/// Serial number of a process.
#[derive(Clone, Copy, Debug, PartialEq, Eq, Hash, Structural)]
pub struct ProcessSerialNumber {
    pub high: u32,
    pub low: u32,
}

/// What can go wrong in a lookup.
#[derive(Clone, Copy, Debug, PartialEq, Eq, Structural)]
pub enum Error {
    /// There is no such window where it was looked for.
    InvalidWindow,
}

/// Directions that a command can name.
#[derive(Clone, Copy, Debug, PartialEq, Eq, Structural)]
pub enum Direction {
    North,
    South,
    East,
    West,
    First,
    Last,
}

/// Whether focus goes along with a window that is sent elsewhere.
#[derive(Clone, Copy, Debug, PartialEq, Eq, Structural)]
pub enum MoveFocus {
    Follow,
    Stay,
}

/// Directions of a resize command.
#[derive(Clone, Copy, Debug, PartialEq, Eq, Structural)]
pub enum ResizeDirection {
    Grow,
    Shrink,
}

/// Operations on the focused window or on the strips around it.
#[derive(Clone, Copy, Debug, PartialEq, Eq, Structural)]
pub enum Operation {
    Focus(Direction),
    Swap(Direction),
    Center,
    Resize(ResizeDirection),
    Stack(bool),
    ToNextDisplay(MoveFocus),
    /// Switch to the virtual workspace above or below.
    Virtual(Direction),
    /// Send the focused window to the virtual workspace above or below.
    VirtualMove(Direction, MoveFocus),
}

/// Commands that a user can give.
#[derive(Clone, Copy, Debug, PartialEq, Eq, Structural)]
pub enum Command {
    Window(Operation),
    PrintState,
}

/// Events that the window server or the user brings about.
#[derive(Clone, Copy, Debug, PartialEq, Eq, Structural)]
pub enum Event {
    /// The active workspace is another one.
    SpaceChanged,
    SpaceCreated { space_id: WorkspaceId },
    SpaceDestroyed { space_id: WorkspaceId },
    DisplayAdded { display_id: DisplayId },
    DisplayRemoved { display_id: DisplayId },
    DisplayChanged,
    ApplicationFrontSwitched { psn: ProcessSerialNumber },
    WindowFocused { window_id: WinID },
    MenuOpened { window_id: WinID },
    Command { command: Command },
}

impl Event {
    /// The window operation that the event commands, if it is such a command.
    pub open spec fn operation(self) -> Option<Operation> {
        match self {
            Event::Command { command: Command::Window(operation) } => Some(operation),
            _ => None,
        }
    }

    /// The direction of a switch between virtual workspaces, if the event
    /// commands one.
    pub fn virtual_direction(&self) -> (direction: Option<Direction>)
        ensures
            direction == match self.operation() {
                Some(Operation::Virtual(d)) => Some(d),
                _ => None,
            },
    {
        match self {
            Event::Command { command: Command::Window(Operation::Virtual(direction)) } => Some(
                *direction,
            ),
            _ => None,
        }
    }

    /// Direction and focus of a move between virtual workspaces, if the event
    /// commands one.
    pub fn virtual_move(&self) -> (order: Option<(Direction, MoveFocus)>)
        ensures
            order == match self.operation() {
                Some(Operation::VirtualMove(d, f)) => Some((d, f)),
                _ => None,
            },
    {
        match self {
            Event::Command {
                command: Command::Window(Operation::VirtualMove(direction, move_focus)),
            } => Some((*direction, *move_focus)),
            _ => None,
        }
    }
}

} // verus!
