//! What becomes of the columns of a strip.

use crate::rows::NewStrip;
use crate::search;
use crate::strip;
use crate::strip::LayoutStrip;
use crate::types::{Entity, Error, WorkspaceId};
use vstd::prelude::*;

verus! {

/// Whether column `c` is the first of a strip that has a window.
pub open spec fn is_column_of(columns: Seq<Seq<Entity>>, window: Entity, c: int) -> bool {
    &&& 0 <= c < columns.len()
    &&& exists|k: int| 0 <= k < columns[c].len() && #[trigger] columns[c][k] == window
    &&& forall|b: int, k: int|
        0 <= b < c && 0 <= k < columns[b].len() ==> #[trigger] columns[b][k] != window
}

/// Whether no column of a strip has a window.
pub open spec fn is_absent(columns: Seq<Seq<Entity>>, window: Entity) -> bool {
    forall|b: int, k: int|
        0 <= b < columns.len() && 0 <= k < columns[b].len() ==> #[trigger] columns[b][k] != window
}

/// A window is looked for from left to right.
pub proof fn lemma_column(columns: Seq<Seq<Entity>>, window: Entity, c: int)
    ensures
        is_column_of(columns, window, c) ==> search::first(columns, strip::holding(window)) == Some(
            c,
        ),
        is_absent(columns, window) ==> search::first(columns, strip::holding(window)) is None,
{
    let h = strip::holding(window);
    if is_column_of(columns, window, c) {
        let k = choose|k: int| 0 <= k < columns[c].len() && #[trigger] columns[c][k] == window;
        assert(columns[c].contains(window));
        assert forall|b: int| 0 <= b < c implies !h(columns[b]) by {
            if columns[b].contains(window) {
                let j = choose|j: int| 0 <= j < columns[b].len() && columns[b][j] == window;
                assert(columns[b][j] != window);
            }
        }
        search::lemma_first_is(columns, h, c);
    }
    if is_absent(columns, window) {
        assert forall|b: int| 0 <= b < columns.len() implies !h(columns[b]) by {
            if columns[b].contains(window) {
                let j = choose|j: int| 0 <= j < columns[b].len() && columns[b][j] == window;
                assert(columns[b][j] != window);
            }
        }
        search::lemma_first_none(columns, h);
    }
}

/// A new strip has no columns; that of a fullscreen window has one, and is the first
/// row.
pub proof fn new_strips_hold_what_they_are_given(
    id: WorkspaceId,
    virtual_index: u32,
    window: Entity,
    empty: LayoutStrip,
    full: LayoutStrip,
)
    requires
        call_ensures(LayoutStrip::new, (id, virtual_index), empty),
        call_ensures(LayoutStrip::fullscreen, (id, window), full),
    ensures
        empty@.id == id,
        empty@.virtual_index == virtual_index,
        empty@.columns.len() == 0,
        full@.id == id,
        full@.virtual_index == 0,
        full@.columns.len() == 1,
        full@.columns[0] == seq![window],
{
}

/// A strip of given columns has each of them that is not empty, in order.
pub proof fn strips_have_the_columns_that_they_are_made_of(
    id: WorkspaceId,
    virtual_index: u32,
    columns: Vec<Vec<Entity>>,
    more: Vec<Vec<Entity>>,
    column: Vec<Entity>,
    strip: LayoutStrip,
    wider: LayoutStrip,
)
    requires
        more@ == columns@.push(column),
        call_ensures(LayoutStrip::from_columns, (id, virtual_index, columns), strip),
        call_ensures(LayoutStrip::from_columns, (id, virtual_index, more), wider),
    ensures
        strip@.id == id,
        strip@.virtual_index == virtual_index,
        columns@.len() == 0 ==> strip@.columns.len() == 0,
        wider@.columns == if column@.len() > 0 {
            strip@.columns.push(column@)
        } else {
            strip@.columns
        },
{
    let view = |column: Vec<Entity>| column@;
    let given = columns@.map_values(view);
    assert(more@.map_values(view) =~= given.push(column@));
    search::lemma_filter_push(given, column@, strip::occupied());
    search::lemma_filter_is_short(given, strip::occupied());
}

/// What a strip says of itself is what it was made or set to.
pub proof fn strips_know_their_place(
    strip: &LayoutStrip,
    changed: &mut LayoutStrip,
    id: WorkspaceId,
    virtual_index: u32,
    len: usize,
    copy: LayoutStrip,
)
    requires
        call_ensures(LayoutStrip::id, (strip,), id),
        call_ensures(LayoutStrip::virtual_index, (strip,), virtual_index),
        call_ensures(LayoutStrip::len, (strip,), len),
        call_ensures(LayoutStrip::set_virtual_index, (changed, virtual_index), ()),
        call_ensures(LayoutStrip::clone, (strip,), copy),
    ensures
        id == strip@.id,
        virtual_index == strip@.virtual_index,
        len == strip@.columns.len(),
        final(changed)@.virtual_index == virtual_index,
        final(changed)@.id == old(changed)@.id,
        final(changed)@.columns == old(changed)@.columns,
        copy@ == strip@,
{
}

/// A window is found in the first column that has it, and in none if none does.
pub proof fn windows_are_found_where_they_stand(
    strip: &LayoutStrip,
    window: Entity,
    c: int,
    index: Result<usize, Error>,
    found: bool,
)
    requires
        strip@.columns.len() <= usize::MAX,
        call_ensures(LayoutStrip::index_of, (strip, window), index),
        call_ensures(LayoutStrip::contains, (strip, window), found),
    ensures
        is_column_of(strip@.columns, window, c) ==> found && index == Ok::<usize, Error>(
            c as usize,
        ),
        is_absent(strip@.columns, window) ==> !found && index == Err::<usize, Error>(
            Error::InvalidWindow,
        ),
{
    let columns = strip@.columns;
    lemma_column(columns, window, c);
    if is_column_of(columns, window, c) {
        let k = choose|k: int| 0 <= k < columns[c].len() && #[trigger] columns[c][k] == window;
        assert(columns[c].contains(window));
    }
    if is_absent(columns, window) && found {
        let b = choose|b: int| 0 <= b < columns.len() && (#[trigger] columns[b]).contains(window);
        let j = choose|j: int| 0 <= j < columns[b].len() && columns[b][j] == window;
        assert(columns[b][j] != window);
    }
}

/// The neighbours of a window are the top windows of the next columns to both sides,
/// where there are such columns and they are not empty.
pub proof fn neighbours_are_in_the_next_columns(
    strip: &LayoutStrip,
    window: Entity,
    c: int,
    left: Option<Entity>,
    right: Option<Entity>,
)
    requires
        call_ensures(LayoutStrip::left_neighbour, (strip, window), left),
        call_ensures(LayoutStrip::right_neighbour, (strip, window), right),
    ensures
        is_column_of(strip@.columns, window, c) ==> left == if c > 0 && strip@.columns[c - 1].len()
            > 0 {
            Some(strip@.columns[c - 1][0])
        } else {
            None
        },
        is_column_of(strip@.columns, window, c) ==> right == if c + 1 < strip@.columns.len()
            && strip@.columns[c + 1].len() > 0 {
            Some(strip@.columns[c + 1][0])
        } else {
            None
        },
        is_absent(strip@.columns, window) ==> left is None && right is None,
        is_column_of(strip@.columns, window, c) ==> strip@.neighbour(window) == if left is Some {
            left
        } else {
            right
        },
        is_absent(strip@.columns, window) ==> strip@.neighbour(window) is None,
{
    lemma_column(strip@.columns, window, c);
}

/// The list of all windows goes through the columns from left to right, and through
/// each from top to bottom.
pub proof fn all_windows_are_listed_column_by_column(
    strip: &LayoutStrip,
    wider: &LayoutStrip,
    column: Seq<Entity>,
    windows: Vec<Entity>,
    more: Vec<Entity>,
)
    requires
        wider@.columns == strip@.columns.push(column),
        call_ensures(LayoutStrip::all_windows, (strip,), windows),
        call_ensures(LayoutStrip::all_windows, (wider,), more),
    ensures
        strip@.columns.len() == 0 ==> windows@.len() == 0,
        more@ == windows@ + column,
{
    strip@.columns.lemma_flatten_push(column);
}

/// A window is put into a column of its own: at the right end, or where it is told to
/// go, if the strip reaches as far.
pub proof fn windows_are_put_into_columns_of_their_own(
    strip: &mut LayoutStrip,
    other: &mut LayoutStrip,
    index: usize,
    window: Entity,
)
    requires
        call_ensures(LayoutStrip::append, (strip, window), ()),
        call_ensures(LayoutStrip::insert_at, (other, index, window), ()),
    ensures
        final(strip)@.id == old(strip)@.id,
        final(strip)@.virtual_index == old(strip)@.virtual_index,
        final(strip)@.columns == old(strip)@.columns + seq![seq![window]],
        final(other)@.id == old(other)@.id,
        final(other)@.virtual_index == old(other)@.virtual_index,
        final(other)@.columns == if index < old(other)@.columns.len() {
            old(other)@.columns.take(index as int) + seq![seq![window]] + old(other)@.columns.skip(
                index as int,
            )
        } else {
            old(other)@.columns + seq![seq![window]]
        },
{
}

/// Several windows are appended one after the other.
pub proof fn windows_are_appended_in_order(
    strip: &mut LayoutStrip,
    other: &mut LayoutStrip,
    windows: &Vec<Entity>,
    more: &Vec<Entity>,
    window: Entity,
)
    requires
        old(strip)@ == old(other)@,
        more@ == windows@.push(window),
        call_ensures(LayoutStrip::append_all, (strip, windows), ()),
        call_ensures(LayoutStrip::append_all, (other, more), ()),
    ensures
        windows@.len() == 0 ==> final(strip)@ == old(strip)@,
        final(other)@.id == final(strip)@.id,
        final(other)@.virtual_index == final(strip)@.virtual_index,
        final(other)@.columns == final(strip)@.columns + seq![seq![window]],
{
    if windows@.len() == 0 {
        assert(final(strip)@.columns =~= old(strip)@.columns);
    }
    assert(final(other)@.columns =~= final(strip)@.columns + seq![seq![window]]);
}

/// A column loses the window that is taken out, and nothing else.
proof fn lemma_trimmed(column: Seq<Entity>, window: Entity)
    ensures
        !column.contains(window) ==> column.filter(strip::other_than(window)) == column,
        column =~= seq![window] ==> column.filter(strip::other_than(window)).len() == 0,
{
    let p = strip::other_than(window);
    if !column.contains(window) {
        assert forall|i: int| 0 <= i < column.len() implies p(column[i]) by {
            assert(column.contains(column[i]));
        }
        search::lemma_filter_all(column, p);
    }
    if column =~= seq![window] {
        assert(column =~= Seq::<Entity>::empty().push(window));
        search::lemma_filter_push(Seq::<Entity>::empty(), window, p);
        search::lemma_filter_is_short(Seq::<Entity>::empty(), p);
    }
}

/// A window that is taken out leaves each column with the other windows that it has,
/// in order, and closes up the columns that have no other. What becomes of one column
/// more at the right end does not depend on the columns before it.
pub proof fn windows_are_taken_out_of_each_column(
    strip: &mut LayoutStrip,
    wider: &mut LayoutStrip,
    column: Seq<Entity>,
    window: Entity,
)
    requires
        old(wider)@.columns == old(strip)@.columns.push(column),
        call_ensures(LayoutStrip::remove, (strip, window), ()),
        call_ensures(LayoutStrip::remove, (wider, window), ()),
    ensures
        final(strip)@.id == old(strip)@.id,
        final(strip)@.virtual_index == old(strip)@.virtual_index,
        old(strip)@.columns.len() == 0 ==> final(strip)@.columns.len() == 0,
        ({
            let rest = column.filter(|w: Entity| w != window);
            &&& final(wider)@.columns == if rest.len() > 0 {
                final(strip)@.columns.push(rest)
            } else {
                final(strip)@.columns
            }
            &&& column.contains(window) || rest == column
            &&& column == seq![window] ==> rest.len() == 0
        }),
        final(strip)@ == old(strip)@.without(window),
{
    let p = strip::other_than(window);
    assert(p =~= (|w: Entity| w != window));
    let cut = strip::column_without(window);
    let less = old(strip)@.columns.map_values(cut);
    assert(old(wider)@.columns.map_values(cut) =~= less.push(column.filter(p)));
    search::lemma_filter_push(less, column.filter(p), strip::occupied());
    search::lemma_filter_is_short(less, strip::occupied());
    lemma_trimmed(column, window);
}

/// Nothing but the one window leaves a strip, none of the others changes places with
/// another, and no column is left empty.
pub proof fn the_other_windows_stay_in_order(strip: &mut LayoutStrip, window: Entity)
    requires
        call_ensures(LayoutStrip::remove, (strip, window), ()),
    ensures
        final(strip)@.columns.flatten() == old(strip)@.columns.flatten().filter(
            |w: Entity| w != window,
        ),
        forall|i: int|
            0 <= i < final(strip)@.columns.len() ==> (#[trigger] final(strip)@.columns[i]).len()
                > 0,
{
    assert(strip::other_than(window) =~= (|w: Entity| w != window));
    strip::without_keeps_the_order(old(strip)@, window);
    strip::without_drops_one_window(old(strip)@, window);
}

/// A strip that is to come into the world holds its window, if it has one, in its
/// only column.
pub proof fn strips_come_with_their_window(new: &NewStrip, entity: Entity, strip: LayoutStrip)
    requires
        call_ensures(NewStrip::strip, (new,), strip),
    ensures
        strip@.id == new.id,
        strip@.virtual_index == new.virtual_index,
        strip@.columns == match new.window {
            Some(window) => seq![seq![window]],
            None => Seq::empty(),
        },
        new.row(entity).strip == strip@,
        new.row(entity).entity == entity,
        new.row(entity).position == new.position,
        new.row(entity).parent == Some(new.parent),
        new.row(entity).selected == new.selected,
        new.row(entity).fullscreen == new.fullscreen,
        new.row(entity).previous == new.previous,
        !new.row(entity).active,
        new.row(entity).timeout is None,
        new.row(entity).refresh is None,
{
}

} // verus!
