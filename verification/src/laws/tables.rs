//! What is found in the tables, how far apart corners are, and what a command says.

use crate::geometry::{Rect, Size};
use crate::laws::moving;
use crate::laws::tidying;
use crate::moves;
use crate::rows;
use crate::rows::{PresentDisplay, StripRow, WindowRow};
use crate::search;
use crate::types::{Direction, Entity, Event, MoveFocus, Operation, WinID};
use vstd::prelude::*;

verus! {

/// What a table says of a strip or a display is what its row holds.
pub proof fn tables_say_what_their_rows_hold(
    rows: &Vec<StripRow>,
    present: &Vec<PresentDisplay>,
    i: int,
)
    ensures
        rows.deep_view().len() == rows.len(),
        0 <= i < rows.len() ==> {
            let view = rows.deep_view()[i];
            let row = rows@[i];
            &&& view.entity == row.entity
            &&& view.strip == row.strip@
            &&& view.position == row.position
            &&& view.parent == row.parent
            &&& view.active == row.active
            &&& view.selected == row.selected
            &&& view.fullscreen == row.fullscreen
            &&& view.previous == row.previous
            &&& view.timeout == row.timeout
            &&& view.refresh == row.refresh
        },
        present.deep_view().len() == present.len(),
        0 <= i < present.len() ==> present.deep_view()[i].id == present@[i].id
            && present.deep_view()[i].spaces == present@[i].spaces@,
{
}

/// A strip is found in the first row of its entity, and the active strip in the first
/// row that is active.
pub proof fn strips_are_found_in_their_first_row(
    rows: &Vec<StripRow>,
    entity: Entity,
    found: Option<usize>,
    active: Option<usize>,
)
    requires
        call_ensures(rows::find_row, (rows, entity), found),
        call_ensures(moves::find_active, (rows,), active),
    ensures
        match found {
            Some(i) => i < rows.len() && rows@[i as int].entity == entity && forall|j: int|
                0 <= j < i ==> (#[trigger] rows@[j]).entity != entity,
            None => forall|j: int|
                0 <= j < rows.len() ==> (#[trigger] rows@[j]).entity != entity,
        },
        match active {
            Some(i) => i < rows.len() && rows@[i as int].active && forall|j: int|
                0 <= j < i ==> !(#[trigger] rows@[j]).active,
            None => forall|j: int| 0 <= j < rows.len() ==> !(#[trigger] rows@[j]).active,
        },
{
    let table = rows.deep_view();
    let p = rows::row_of(entity);
    let q = rows::is_active();
    search::lemma_first(table, p);
    search::lemma_first(table, q);
    assert forall|j: int| 0 <= j < rows.len() implies p(table[j]) == ((
    #[trigger] rows@[j]).entity == entity) && q(table[j]) == rows@[j].active by {
        assert(table[j] == rows@[j]@);
    }
}

/// A window is found in the first row of its entity or identifier; as one that is
/// laid out, in the first of these rows that is not kept out of the layout.
pub proof fn windows_are_found_in_their_first_row(
    windows: &Vec<WindowRow>,
    entity: Entity,
    id: WinID,
    by_entity: Option<usize>,
    by_id: Option<usize>,
    managed: Option<Entity>,
)
    requires
        call_ensures(rows::find_window, (windows, entity), by_entity),
        call_ensures(rows::find_id, (windows, id), by_id),
        call_ensures(rows::find_managed, (windows, id), managed),
    ensures
        match by_entity {
            Some(i) => i < windows.len() && windows@[i as int].entity == entity && forall|j: int|
                0 <= j < i ==> (#[trigger] windows@[j]).entity != entity,
            None => forall|j: int|
                0 <= j < windows.len() ==> (#[trigger] windows@[j]).entity != entity,
        },
        match by_id {
            Some(i) => i < windows.len() && windows@[i as int].id == id && forall|j: int|
                0 <= j < i ==> (#[trigger] windows@[j]).id != id,
            None => forall|j: int| 0 <= j < windows.len() ==> (#[trigger] windows@[j]).id != id,
        },
        match managed {
            Some(e) => exists|i: int|
                0 <= i < windows.len() && (#[trigger] windows@[i]).id == id
                    && windows@[i].unmanaged is None && windows@[i].entity == e && forall|j: int|
                    0 <= j < i ==> !((#[trigger] windows@[j]).id == id
                        && windows@[j].unmanaged is None),
            None => forall|j: int|
                0 <= j < windows.len() ==> !((#[trigger] windows@[j]).id == id
                    && windows@[j].unmanaged is None),
        },
{
    let p = rows::window_of(entity);
    let q = rows::window_with_id(id);
    let r = rows::managed_with_id(id);
    search::lemma_first(windows@, p);
    search::lemma_first(windows@, q);
    search::lemma_first(windows@, r);
    assert forall|j: int| 0 <= j < windows.len() implies p(windows@[j]) == ((
    #[trigger] windows@[j]).entity == entity) && q(windows@[j]) == (windows@[j].id == id) && r(
        windows@[j],
    ) == (windows@[j].id == id && windows@[j].unmanaged is None) by {}
    match search::first(windows@, r) {
        Some(i) => {
            assert(r(windows@[i]));
            assert(windows@[i].id == id);
        },
        None => {},
    }
}

/// A rectangle lies between the two corners that it is made of, whatever their order,
/// and is as wide and as high as they are apart.
pub proof fn rectangles_lie_between_their_corners(
    x0: i32,
    y0: i32,
    x1: i32,
    y1: i32,
    rect: Rect,
    size: Size,
    width: i32,
    height: i32,
)
    requires
        call_ensures(Rect::new, (x0, y0, x1, y1), rect),
        call_ensures(Rect::size, (&rect,), size),
        call_ensures(Rect::width, (&rect,), width),
        call_ensures(Rect::height, (&rect,), height),
    ensures
        rect.min.x <= rect.max.x,
        rect.min.y <= rect.max.y,
        (rect.min.x == x0 && rect.max.x == x1) || (rect.min.x == x1 && rect.max.x == x0),
        (rect.min.y == y0 && rect.max.y == y1) || (rect.min.y == y1 && rect.max.y == y0),
        size.x == width,
        size.y == height,
        rect.min.x + width == rect.max.x,
        rect.min.y + height == rect.max.y,
        x0 <= x1 ==> x0 + width == x1,
        y0 <= y1 ==> y0 + height == y1,
{
}

/// The width and the height of a rectangle are the distances between its edges, be it
/// made of ordered corners or not.
pub proof fn sizes_are_distances_between_edges(rect: Rect, size: Size, width: i32, height: i32)
    requires
        call_ensures(Rect::size, (&rect,), size),
        call_ensures(Rect::width, (&rect,), width),
        call_ensures(Rect::height, (&rect,), height),
    ensures
        size.x == rect.max.x - rect.min.x,
        size.y == rect.max.y - rect.min.y,
        width == size.x,
        height == size.y,
{
}

/// A command to switch rows says where to, a command to send a window says where to
/// and what becomes of the focus, and nothing else says either.
pub proof fn commands_say_where_to(
    event: Event,
    direction: Direction,
    move_focus: MoveFocus,
    switches: Option<Direction>,
    sends: Option<(Direction, MoveFocus)>,
)
    requires
        call_ensures(Event::virtual_direction, (&event,), switches),
        call_ensures(Event::virtual_move, (&event,), sends),
    ensures
        switches == Some(direction) <==> event == tidying::switch_command(direction),
        sends == Some((direction, move_focus)) <==> event == moving::send_command(
            direction,
            move_focus,
        ),
        event.operation() == Some(Operation::Virtual(direction)) <==> switches == Some(direction),
        event.operation() == Some(Operation::VirtualMove(direction, move_focus)) <==> sends == Some(
            (direction, move_focus),
        ),
{
}

} // verus!
