//! Workspaces of a scrolling window manager.
//!
//! Windows stand in strips, side by side in columns. A workspace of the window
//! server has one strip for each of its rows; the rows are the virtual
//! workspaces that the user switches between. One strip is the active one, which
//! the user sees, and in each workspace one row is selected, which is shown when
//! the workspace is.
//!
//! The library decides what becomes of the strips when workspaces come, go and
//! change places, when windows move between rows, and when displays are
//! unplugged. It knows the world as tables of plain values ([`rows`]). Each
//! function reads the tables and what the window server had to say, changes the
//! strips in place, and returns the actions to be carried out on the rest of the
//! world.
//!
//! - [`spaces`]: workspaces that come, go and change places.
//! - [`detect`]: windows that turn up in the active workspace.
//! - [`orphans`]: strips that lost their display.
//! - [`refresh`]: new measurements of windows.
//! - [`markers`]: which strip is active, and which rows are selected.
//! - [`virtual_rows`]: the order of the rows, and the step from one to the next.
//! - [`moves`]: windows that move between rows.
//! - [`visibility`]: strips that go out of view and come back.
//! - [`strip`], [`geometry`], [`types`], [`search`]: what the above is made of.
//! - [`order`], [`outcome`], [`journeys`]: what all of it keeps, what comes of the
//!   actions, and where several steps lead.
//! - [`laws`]: what the operations are for, said of what goes into a call and what
//!   comes out of it.
//! - [`mock`]: stand-ins for windows, applications and the window server.

pub mod detect;
pub mod geometry;
pub mod journeys;
pub mod laws;
pub mod markers;
pub mod mock;
pub mod moves;
pub mod order;
pub mod orphans;
pub mod outcome;
pub mod refresh;
pub mod rows;
pub mod search;
pub mod spaces;
pub mod strip;
pub mod types;
pub mod virtual_rows;
pub mod visibility;
