//! The rows of a workspace: their order, their numbers, and the step from one
//! to the next.

use crate::rows::{Action, RowView, StripRow, Target};
use crate::search;
use crate::strip::StripView;
use crate::types::{Direction, Entity, Event, Operation, WorkspaceId};
use vstd::prelude::*;

verus! {

/// Whether row `i` comes before row `j` in a workspace: by its number, and
/// among equal numbers by its place in the table.
pub open spec fn precedes(rows: Seq<RowView>, i: int, j: int) -> bool {
    rows[i].strip.virtual_index < rows[j].strip.virtual_index || (rows[i].strip.virtual_index
        == rows[j].strip.virtual_index && i < j)
}

/// Whether `order` lists the rows of a workspace among the first `n`, each
/// once, in order.
pub open spec fn orders_first(
    rows: Seq<RowView>,
    id: WorkspaceId,
    n: int,
    order: Seq<int>,
) -> bool {
    &&& forall|p: int| 0 <= p < order.len() ==> 0 <= (#[trigger] order[p]) < n
    &&& forall|p: int| 0 <= p < order.len() ==> rows[#[trigger] order[p]].strip.id == id
    &&& forall|i: int| 0 <= i < n && rows[i].strip.id == id ==> #[trigger] order.contains(i)
    &&& forall|p: int, q: int|
        0 <= p < q < order.len() ==> precedes(rows, #[trigger] order[p], #[trigger] order[q])
}

/// Whether `order` lists the rows of a workspace, each once, in order.
pub open spec fn is_row_order(rows: Seq<RowView>, id: WorkspaceId, order: Seq<int>) -> bool {
    orders_first(rows, id, rows.len() as int, order)
}

/// The rows of a workspace in order.
pub open spec fn row_order(rows: Seq<RowView>, id: WorkspaceId) -> Seq<int> {
    choose|order: Seq<int>| is_row_order(rows, id, order)
}

/// Where row `n` is to be put into the order of the rows before it.
proof fn lemma_insert_into_order(
    rows: Seq<RowView>,
    id: WorkspaceId,
    n: int,
    order: Seq<int>,
    at: int,
)
    requires
        0 <= n < rows.len(),
        rows[n].strip.id == id,
        orders_first(rows, id, n, order),
        0 <= at <= order.len(),
        forall|p: int|
            0 <= p < at ==> rows[#[trigger] order[p]].strip.virtual_index
                <= rows[n].strip.virtual_index,
        forall|p: int|
            at <= p < order.len() ==> rows[#[trigger] order[p]].strip.virtual_index
                > rows[n].strip.virtual_index,
    ensures
        orders_first(rows, id, n + 1, order.insert(at, n)),
{
    let more = order.insert(at, n);
    assert forall|p: int| 0 <= p < more.len() implies 0 <= (#[trigger] more[p]) < n + 1
        && rows[more[p]].strip.id == id by {
        if p < at {
            assert(more[p] == order[p]);
        } else if p > at {
            assert(more[p] == order[p - 1]);
        }
    }
    assert forall|i: int| 0 <= i < n + 1 && rows[i].strip.id == id implies #[trigger] more.contains(
        i,
    ) by {
        if i == n {
            assert(more[at] == n);
        } else {
            assert(order.contains(i));
            let p = choose|p: int| 0 <= p < order.len() && order[p] == i;
            assert(more[if p < at {
                p
            } else {
                p + 1
            }] == i);
        }
    }
    assert forall|p: int, q: int| 0 <= p < q < more.len() implies precedes(
        rows,
        #[trigger] more[p],
        #[trigger] more[q],
    ) by {
        let a = if p < at {
            p
        } else {
            p - 1
        };
        let b = if q < at {
            q
        } else {
            q - 1
        };
        if p != at && q != at {
            assert(more[p] == order[a]);
            assert(more[q] == order[b]);
        } else if p == at {
            assert(more[q] == order[b]);
        } else {
            assert(more[p] == order[a]);
        }
    }
}

/// Row `n` belongs to another workspace and changes nothing in the order.
proof fn lemma_skip_in_order(rows: Seq<RowView>, id: WorkspaceId, n: int, order: Seq<int>)
    requires
        0 <= n < rows.len(),
        rows[n].strip.id != id,
        orders_first(rows, id, n, order),
    ensures
        orders_first(rows, id, n + 1, order),
{
}

/// There is an order of the rows of a workspace.
proof fn lemma_order_exists(rows: Seq<RowView>, id: WorkspaceId, n: int) -> (order: Seq<int>)
    requires
        0 <= n <= rows.len(),
    ensures
        orders_first(rows, id, n, order),
    decreases n,
{
    if n == 0 {
        Seq::empty()
    } else {
        let less = lemma_order_exists(rows, id, n - 1);
        if rows[n - 1].strip.id != id {
            lemma_skip_in_order(rows, id, n - 1, less);
            less
        } else {
            let later = |i: int| rows[i].strip.virtual_index > rows[n - 1].strip.virtual_index;
            search::lemma_first(less, later);
            let at = match search::first(less, later) {
                Some(p) => p,
                None => less.len() as int,
            };
            assert forall|p: int| 0 <= p < at implies rows[#[trigger] less[p]].strip.virtual_index
                <= rows[n - 1].strip.virtual_index by {
                assert(!later(less[p]));
            }
            assert forall|p: int| at <= p < less.len() implies rows[
                #[trigger] less[p]
            ].strip.virtual_index > rows[n - 1].strip.virtual_index by {
                assert(later(less[at]));
                if at < p {
                    assert(precedes(rows, less[at], less[p]));
                }
            }
            lemma_insert_into_order(rows, id, n - 1, less, at);
            less.insert(at, n - 1)
        }
    }
}

/// There is one order of the rows of a workspace and no other.
pub proof fn row_order_is_unique(rows: Seq<RowView>, id: WorkspaceId, order: Seq<int>)
    ensures
        is_row_order(rows, id, row_order(rows, id)),
        is_row_order(rows, id, order) ==> order == row_order(rows, id),
{
    let witness = lemma_order_exists(rows, id, rows.len() as int);
    assert(is_row_order(rows, id, witness));
    let chosen = row_order(rows, id);
    if is_row_order(rows, id, order) {
        lemma_same_prefix(rows, id, order, chosen, order.len() as int);
        if order.len() < chosen.len() {
            lemma_all_listed(rows, id, order, chosen);
        } else {
            lemma_all_listed(rows, id, chosen, order);
        }
        assert(order =~= chosen);
    }
}

/// Two orders agree as far as both reach.
proof fn lemma_same_prefix(rows: Seq<RowView>, id: WorkspaceId, a: Seq<int>, b: Seq<int>, n: int)
    requires
        is_row_order(rows, id, a),
        is_row_order(rows, id, b),
    ensures
        forall|p: int| 0 <= p < n && p < a.len() && p < b.len() ==> #[trigger] a[p] == b[p],
    decreases n,
{
    if n > 0 {
        let p = n - 1;
        lemma_same_prefix(rows, id, a, b, p);
        if p < a.len() && p < b.len() && a[p] != b[p] {
            assert(b.contains(a[p]));
            let q = choose|q: int| 0 <= q < b.len() && b[q] == a[p];
            assert(a.contains(b[p]));
            let r = choose|r: int| 0 <= r < a.len() && a[r] == b[p];
            if q < p {
                assert(a[q] == b[q]);
                assert(precedes(rows, a[q], a[p]));
            } else if r < p {
                assert(a[r] == b[r]);
                assert(precedes(rows, b[r], b[p]));
            } else {
                assert(precedes(rows, b[p], b[q]));
                assert(precedes(rows, a[p], a[r]));
            }
        }
    }
}

/// An order that starts as another, longer one is as long.
proof fn lemma_all_listed(rows: Seq<RowView>, id: WorkspaceId, a: Seq<int>, b: Seq<int>)
    requires
        is_row_order(rows, id, a),
        is_row_order(rows, id, b),
        a.len() <= b.len(),
        forall|p: int| 0 <= p < a.len() ==> #[trigger] a[p] == b[p],
    ensures
        a.len() == b.len(),
{
    if a.len() < b.len() {
        let i = b[a.len() as int];
        assert(a.contains(i));
        let p = choose|p: int| 0 <= p < a.len() && a[p] == i;
        assert(precedes(rows, b[p], b[a.len() as int]));
    }
}

/// The rows that positions in the table stand for.
pub open spec fn as_ints(order: Seq<usize>) -> Seq<int> {
    order.map_values(|i: usize| i as int)
}

/// Lists the rows of a workspace in order.
fn sort_rows(rows: &Vec<StripRow>, id: WorkspaceId) -> (order: Vec<usize>)
    ensures
        as_ints(order@) == row_order(rows.deep_view(), id),
        is_row_order(rows.deep_view(), id, as_ints(order@)),
{
    let ghost table = rows.deep_view();
    let mut order: Vec<usize> = Vec::new();
    for n in 0..rows.len()
        invariant
            table == rows.deep_view(),
            orders_first(table, id, n as int, as_ints(order@)),
    {
        assert(table[n as int] == rows@[n as int]@);
        let ghost sorted = as_ints(order@);
        if rows[n].strip.id() == id {
            let virtual_index = rows[n].strip.virtual_index();
            let mut at: usize = order.len();
            assert forall|p: int| 0 <= p < order.len() implies (#[trigger] order@[p])
                < rows.len() by {
                assert(sorted[p] == order@[p]);
            }
            while at > 0 && rows[order[at - 1]].strip.virtual_index() > virtual_index
                invariant
                    0 <= at <= order.len(),
                    n < rows.len(),
                    table == rows.deep_view(),
                    sorted == as_ints(order@),
                    orders_first(table, id, n as int, sorted),
                    virtual_index == table[n as int].strip.virtual_index,
                    forall|p: int| 0 <= p < order.len() ==> (#[trigger] order@[p]) < rows.len(),
                    forall|p: int|
                        at <= p < order.len() ==> table[#[trigger] sorted[p]].strip.virtual_index
                            > virtual_index,
                decreases at,
            {
                assert(sorted[at - 1] == order@[at - 1]);
                assert(table[sorted[at - 1]] == rows@[sorted[at - 1]]@);
                at -= 1;
            }
            proof {
                assert forall|p: int| 0 <= p < at implies table[
                    #[trigger] sorted[p]
                ].strip.virtual_index <= virtual_index by {
                    assert(sorted[at - 1] == order@[at - 1]);
                    assert(table[sorted[at - 1]] == rows@[sorted[at - 1]]@);
                    if p < at - 1 {
                        assert(precedes(table, sorted[p], sorted[at - 1]));
                    }
                }
                lemma_insert_into_order(table, id, n as int, sorted, at as int);
            }
            order.insert(at, n);
            assert(as_ints(order@) =~= sorted.insert(at as int, n as int));
        } else {
            proof {
                lemma_skip_in_order(table, id, n as int, sorted);
            }
        }
    }
    proof {
        row_order_is_unique(table, id, as_ints(order@));
    }
    order
}

/// Picks the rows that stay: an empty row stays only if it is the first.
pub open spec fn stays(rows: Seq<RowView>) -> spec_fn(int) -> bool {
    |i: int| rows[i].strip.virtual_index == 0 || rows[i].strip.columns.len() > 0
}

/// Picks the rows that go.
pub open spec fn goes(rows: Seq<RowView>) -> spec_fn(int) -> bool {
    |i: int| rows[i].strip.virtual_index > 0 && rows[i].strip.columns.len() == 0
}

/// A row with another number.
pub open spec fn numbered(row: RowView, virtual_index: int) -> RowView {
    row.with_strip(StripView { virtual_index: virtual_index as u32, ..row.strip })
}

/// The rows of a workspace that stay, in order.
pub open spec fn staying(rows: Seq<RowView>, id: WorkspaceId) -> Seq<int> {
    row_order(rows, id).filter(stays(rows))
}

/// Whether `after` are the rows once those of a workspace that stay are numbered
/// from zero, in order, and nothing else is changed.
pub open spec fn is_renumbering(
    rows: Seq<RowView>,
    id: WorkspaceId,
    after: Seq<RowView>,
) -> bool {
    &&& after.len() == rows.len()
    &&& forall|q: int|
        0 <= q < staying(rows, id).len() ==> after[#[trigger] staying(rows, id)[q]] == numbered(
            rows[staying(rows, id)[q]],
            q,
        )
    &&& forall|j: int|
        0 <= j < rows.len() && !staying(rows, id).contains(j) ==> (#[trigger] after[j]) == rows[j]
}

/// What is done to the world for the rows of a workspace that go.
pub open spec fn despawns(rows: Seq<RowView>, id: WorkspaceId) -> Seq<Action> {
    row_order(rows, id).filter(goes(rows)).map_values(|i: int| Action::Despawn(rows[i].entity))
}

/// Tidies the rows of the workspace whose strip has just become active: empty
/// rows below the first go, and the others are numbered from zero without
/// gaps.
pub fn cleanup_virtual_workspaces(changed: Entity, rows: &mut Vec<StripRow>) -> (actions: Vec<
    Action,
>)
    requires
        old(rows).len() <= u32::MAX,
    ensures
        match search::first(old(rows).deep_view(), crate::rows::row_of(changed)) {
            Some(c) => {
                let before = old(rows).deep_view();
                let id = before[c].strip.id;
                &&& is_renumbering(before, id, final(rows).deep_view())
                &&& actions@ == row_order(before, id).filter(goes(before)).map_values(
                    |i: int| Action::Despawn(before[i].entity),
                )
                &&& actions@ == despawns(before, id)
            },
            None => final(rows).deep_view() == old(rows).deep_view() && actions@ == Seq::<
                Action,
            >::empty(),
        },
{
    let mut actions: Vec<Action> = Vec::new();
    let id = match crate::rows::find_row(rows, changed) {
        Some(c) => {
            assert(rows.deep_view()[c as int] == rows@[c as int]@);
            rows[c].strip.id()
        },
        None => {
            return actions;
        },
    };
    let ghost table = rows.deep_view();
    let order = sort_rows(rows, id);
    let ghost sorted = as_ints(order@);
    let ghost act = |i: int| Action::Despawn(table[i].entity);
    let n: usize = rows.len();
    let mut next_idx: u32 = 0;
    proof {
        reveal(Seq::filter);
        assert(actions@ =~= sorted.take(0).filter(goes(table)).map_values(act));
        assert(sorted.take(0).filter(stays(table)) =~= Seq::<int>::empty());
    }
    let ghost mut kept: Seq<int> = Seq::empty();
    for p in 0..order.len()
        invariant
            n == table.len(),
            n <= u32::MAX,
            rows.len() == n,
            sorted == as_ints(order@),
            act == (|i: int| Action::Despawn(table[i].entity)),
            is_row_order(table, id, sorted),
            kept == sorted.take(p as int).filter(stays(table)),
            next_idx == kept.len(),
            next_idx <= p,
            actions@ == sorted.take(p as int).filter(goes(table)).map_values(act),
            forall|q: int|
                0 <= q < kept.len() ==> 0 <= (#[trigger] kept[q]) < n && rows@[kept[q]]@
                    == numbered(table[kept[q]], q),
            forall|j: int| 0 <= j < n && !kept.contains(j) ==> (#[trigger] rows@[j])@ == table[j],
    {
        let i = order[p];
        proof {
            assert(sorted[p as int] == i);
            lemma_order_is_short(table, id, sorted);
            search::lemma_filter_take(sorted, p as int, stays(table));
            search::lemma_filter_take(sorted, p as int, goes(table));
            lemma_not_listed_before(table, id, sorted, p as int);
            assert(rows@[i as int]@ == table[i as int]);
        }
        if rows[i].strip.virtual_index() > 0 && rows[i].strip.len() == 0 {
            actions.push(Action::Despawn(rows[i].entity));
            assert(actions@ =~= sorted.take(p + 1).filter(goes(table)).map_values(act));
        } else {
            let ghost before = rows@;
            rows[i].strip.set_virtual_index(next_idx);
            let ghost more = kept.push(i as int);
            proof {
                assert(sorted.take(p + 1).filter(stays(table)) == more);
                assert forall|q: int| 0 <= q < more.len() implies 0 <= (#[trigger] more[q]) < n
                    && rows@[more[q]]@ == numbered(table[more[q]], q) by {
                    if q < kept.len() {
                        assert(more[q] == kept[q]);
                        assert(kept.contains(kept[q]));
                        assert(rows@[kept[q]] == before[kept[q]]);
                    }
                }
                assert forall|j: int| 0 <= j < n && !more.contains(j) implies (
                #[trigger] rows@[j])@ == table[j] by {
                    assert(more[kept.len() as int] == i);
                    if kept.contains(j) {
                        let q = choose|q: int| 0 <= q < kept.len() && kept[q] == j;
                        assert(more[q] == j);
                    }
                    assert(rows@[j] == before[j]);
                }
                kept = more;
            }
            next_idx = next_idx + 1;
        }
    }
    proof {
        assert(sorted.take(sorted.len() as int) =~= sorted);
        assert(sorted.filter(stays(table)) == staying(table, id));
        let after = rows.deep_view();
        assert(kept == staying(table, id));
        assert forall|q: int| 0 <= q < kept.len() implies after[#[trigger] kept[q]] == numbered(
            table[kept[q]],
            q,
        ) by {
            assert(after[kept[q]] == rows@[kept[q]]@);
        }
        assert forall|j: int| 0 <= j < table.len() && !staying(table, id).contains(j) implies (
        #[trigger] after[j]) == table[j] by {
            assert(after[j] == rows@[j]@);
        }
    }
    actions
}

/// No more rows are listed than there are.
pub proof fn lemma_order_is_short(rows: Seq<RowView>, id: WorkspaceId, order: Seq<int>)
    requires
        is_row_order(rows, id, order),
    ensures
        order.len() <= rows.len(),
{
    assert(order.no_duplicates()) by {
        assert forall|p: int, q: int|
            0 <= p < order.len() && 0 <= q < order.len() && p != q implies order[p]
            != order[q] by {
            if p < q {
                assert(precedes(rows, order[p], order[q]));
            } else {
                assert(precedes(rows, order[q], order[p]));
            }
        }
    }
    order.unique_seq_to_set();
    let all = vstd::set_lib::set_int_range(0, rows.len() as int);
    vstd::set_lib::lemma_int_range(0, rows.len() as int);
    assert(order.to_set().subset_of(all)) by {
        assert forall|i: int| order.to_set().contains(i) implies all.contains(i) by {
            let p = choose|p: int| 0 <= p < order.len() && order[p] == i;
            assert(0 <= order[p] < rows.len());
        }
    }
    vstd::set_lib::lemma_len_subset(order.to_set(), all);
}

/// The row at a position of the order is not among those that stay before it.
proof fn lemma_not_listed_before(rows: Seq<RowView>, id: WorkspaceId, order: Seq<int>, p: int)
    requires
        is_row_order(rows, id, order),
        0 <= p < order.len(),
    ensures
        !order.take(p).filter(stays(rows)).contains(order[p]),
{
    search::lemma_filter_contains(order.take(p), stays(rows), order[p]);
    if order.take(p).contains(order[p]) {
        let q = choose|q: int| 0 <= q < p && order.take(p)[q] == order[p];
        assert(order[q] == order[p]);
        assert(precedes(rows, order[q], order[p]));
    }
}

/// Picks the active rows.
pub open spec fn active_row(rows: Seq<RowView>) -> spec_fn(int) -> bool {
    |i: int| rows[i].active
}

/// The position in the order of the active row, or else the first.
pub open spec fn current_position(rows: Seq<RowView>, order: Seq<int>) -> int {
    match search::first(order, active_row(rows)) {
        Some(p) => p,
        None => 0,
    }
}

/// The position one step down or up, if there is a row there.
pub open spec fn next_position(direction: Direction, current: int, len: nat) -> Option<int> {
    match direction {
        Direction::South => if current + 1 < len {
            Some(current + 1)
        } else {
            None
        },
        Direction::North => if current > 0 {
            Some(current - 1)
        } else {
            None
        },
        _ => None,
    }
}

/// The row that a switch goes to, if it goes anywhere.
pub open spec fn switch_target(
    direction: Direction,
    id: WorkspaceId,
    rows: Seq<RowView>,
) -> Option<int> {
    let order = row_order(rows, id);
    match next_position(direction, current_position(rows, order), order.len()) {
        Some(p) => Some(order[p]),
        None => None,
    }
}

/// What is done to the world for a command to switch rows.
pub open spec fn switched(message: Event, id: WorkspaceId, rows: Seq<RowView>) -> Seq<Action> {
    match message.operation() {
        Some(Operation::Virtual(direction)) => match switch_target(direction, id, rows) {
            Some(i) => seq![
                Action::InsertSelected(Target::Strip(rows[i].entity)),
                Action::InsertActive(Target::Strip(rows[i].entity)),
            ],
            None => Seq::empty(),
        },
        _ => Seq::empty(),
    }
}

/// Answers the command to switch to the row above or below: the strip of that
/// row becomes selected and active. There is no way round from the last row to
/// the first. `workspace_id` is the workspace of the active strip.
pub fn switch_virtual_workspace_bind(
    message: &Event,
    workspace_id: WorkspaceId,
    rows: &Vec<StripRow>,
) -> (actions: Vec<Action>)
    ensures
        actions@ == match message.operation() {
            Some(Operation::Virtual(direction)) => match switch_target(
                direction,
                workspace_id,
                rows.deep_view(),
            ) {
                Some(i) => seq![
                    Action::InsertSelected(Target::Strip(rows.deep_view()[i].entity)),
                    Action::InsertActive(Target::Strip(rows.deep_view()[i].entity)),
                ],
                None => Seq::empty(),
            },
            _ => Seq::empty(),
        },
        actions@ == switched(*message, workspace_id, rows.deep_view()),
{
    let mut actions: Vec<Action> = Vec::new();
    let direction = match message.virtual_direction() {
        Some(direction) => direction,
        None => {
            return actions;
        },
    };
    let ghost table = rows.deep_view();
    let order = sort_rows(rows, workspace_id);
    let ghost sorted = as_ints(order@);
    if order.len() == 0 {
        assert(search::first(sorted, active_row(table)) is None);
        return actions;
    }
    let current_index = active_position(rows, &order);
    let last: usize = order.len() - 1;
    let next_index: usize = match direction {
        Direction::South => {
            if current_index + 1 < last {
                current_index + 1
            } else {
                last
            }
        },
        Direction::North => {
            if current_index > 0 {
                current_index - 1
            } else {
                0
            }
        },
        _ => {
            return actions;
        },
    };
    if next_index == current_index {
        return actions;
    }
    let i = order[next_index];
    assert(sorted[next_index as int] == i);
    assert(table[i as int] == rows@[i as int]@);
    let target = Target::Strip(rows[i].entity);
    actions.push(Action::InsertSelected(target));
    actions.push(Action::InsertActive(target));
    assert(actions@ =~= seq![Action::InsertSelected(target), Action::InsertActive(target)]);
    actions
}

/// Finds the position in the order of the active row, or else the first.
fn active_position(rows: &Vec<StripRow>, order: &Vec<usize>) -> (p: usize)
    requires
        order.len() > 0,
        forall|p: int| 0 <= p < as_ints(order@).len() ==> (#[trigger] as_ints(order@)[p])
            < rows.len(),
    ensures
        p == current_position(rows.deep_view(), as_ints(order@)),
        p < order.len(),
{
    let ghost table = rows.deep_view();
    let ghost sorted = as_ints(order@);
    for p in 0..order.len()
        invariant
            table == rows.deep_view(),
            sorted == as_ints(order@),
            forall|p: int| 0 <= p < sorted.len() ==> (#[trigger] sorted[p]) < rows.len(),
            forall|q: int| 0 <= q < p ==> !active_row(table)(sorted[q]),
    {
        assert(sorted[p as int] == order@[p as int]);
        let i = order[p];
        assert(table[i as int] == rows@[i as int]@);
        if rows[i].active {
            proof {
                search::lemma_first_is(sorted, active_row(table), p as int);
            }
            return p;
        }
    }
    proof {
        search::lemma_first_none(sorted, active_row(table));
    }
    0
}

/// A row stays if and only if it is one of the workspace that does not go.
pub proof fn lemma_staying(rows: Seq<RowView>, id: WorkspaceId, i: int)
    ensures
        staying(rows, id).contains(i) <==> 0 <= i < rows.len() && rows[i].strip.id == id && stays(
            rows,
        )(i),
{
    let order = row_order(rows, id);
    row_order_is_unique(rows, id, order);
    search::lemma_filter_contains(order, stays(rows), i);
    if order.contains(i) {
        let p = choose|p: int| 0 <= p < order.len() && order[p] == i;
        assert(0 <= order[p] < rows.len());
        assert(rows[order[p]].strip.id == id);
    }
}

/// The rows that stay are listed in order.
pub proof fn lemma_staying_is_ordered(rows: Seq<RowView>, id: WorkspaceId, n: int)
    requires
        0 <= n <= row_order(rows, id).len(),
    ensures
        forall|p: int, q: int|
            0 <= p < q < row_order(rows, id).take(n).filter(stays(rows)).len() ==> precedes(
                rows,
                #[trigger] row_order(rows, id).take(n).filter(stays(rows))[p],
                #[trigger] row_order(rows, id).take(n).filter(stays(rows))[q],
            ),
    decreases n,
{
    let order = row_order(rows, id);
    let pick = stays(rows);
    if n == 0 {
        reveal(Seq::filter);
        assert(order.take(0).filter(pick) =~= Seq::<int>::empty());
    } else {
        lemma_staying_is_ordered(rows, id, n - 1);
        row_order_is_unique(rows, id, order);
        search::lemma_filter_take(order, n - 1, pick);
        let less = order.take(n - 1).filter(pick);
        let all = order.take(n).filter(pick);
        assert forall|p: int, q: int| 0 <= p < q < all.len() implies precedes(
            rows,
            #[trigger] all[p],
            #[trigger] all[q],
        ) by {
            if q < less.len() {
                assert(all[p] == less[p] && all[q] == less[q]);
            } else {
                assert(all[p] == less[p]);
                assert(less.contains(less[p]));
                search::lemma_filter_contains(order.take(n - 1), pick, less[p]);
                let start = order.take(n - 1);
                let a = choose|a: int| 0 <= a < start.len() && start[a] == less[p];
                assert(order[a] == less[p]);
                assert(precedes(rows, order[a], order[n - 1]));
            }
        }
    }
}

/// After a tidying the rows of the workspace that stay are numbered from zero
/// without gaps, in the order that they had; what they hold is unchanged, and
/// so are all rows of other workspaces.
pub proof fn tidied_rows_are_numbered_without_gaps(
    rows: Seq<RowView>,
    id: WorkspaceId,
    after: Seq<RowView>,
)
    requires
        rows.len() <= u32::MAX,
        is_renumbering(rows, id, after),
    ensures
        forall|q: int|
            0 <= q < staying(rows, id).len() ==> after[
                #[trigger] staying(rows, id)[q]
            ].strip.virtual_index == q,
        forall|i: int|
            0 <= i < rows.len() && rows[i].strip.id == id && stays(rows)(i) ==> (
            #[trigger] after[i]).strip.virtual_index < staying(rows, id).len(),
        forall|i: int, j: int|
            0 <= i < rows.len() && 0 <= j < rows.len() && rows[i].strip.id == id
                && rows[j].strip.id == id && stays(rows)(i) && stays(rows)(j) && precedes(
                rows,
                i,
                j,
            ) ==> (#[trigger] after[i]).strip.virtual_index < (
            #[trigger] after[j]).strip.virtual_index,
        forall|i: int|
            0 <= i < rows.len() ==> (#[trigger] after[i]) == numbered(
                rows[i],
                after[i].strip.virtual_index as int,
            ),
        forall|i: int|
            0 <= i < rows.len() && rows[i].strip.id != id ==> (#[trigger] after[i]) == rows[i],
{
    let order = row_order(rows, id);
    let kept = staying(rows, id);
    row_order_is_unique(rows, id, order);
    lemma_order_is_short(rows, id, order);
    search::lemma_filter_is_short(order, stays(rows));
    lemma_staying_is_ordered(rows, id, order.len() as int);
    assert(order.take(order.len() as int) =~= order);
    assert forall|i: int|
        0 <= i < rows.len() && rows[i].strip.id == id && stays(rows)(i) implies exists|q: int|
        0 <= q < kept.len() && kept[q] == i && (#[trigger] after[i]).strip.virtual_index == q by {
        lemma_staying(rows, id, i);
        let q = choose|q: int| 0 <= q < kept.len() && kept[q] == i;
        assert(after[kept[q]].strip.virtual_index == q);
    }
    assert forall|i: int, j: int|
        0 <= i < rows.len() && 0 <= j < rows.len() && rows[i].strip.id == id && rows[j].strip.id
            == id && stays(rows)(i) && stays(rows)(j) && precedes(rows, i, j) implies (
    #[trigger] after[i]).strip.virtual_index < (#[trigger] after[j]).strip.virtual_index by {
        let p = choose|p: int|
            0 <= p < kept.len() && kept[p] == i && after[i].strip.virtual_index == p;
        let q = choose|q: int|
            0 <= q < kept.len() && kept[q] == j && after[j].strip.virtual_index == q;
        if q < p {
            assert(precedes(rows, kept[q], kept[p]));
        }
    }
    assert forall|i: int| 0 <= i < rows.len() implies (#[trigger] after[i]) == numbered(
        rows[i],
        after[i].strip.virtual_index as int,
    ) by {
        if kept.contains(i) {
            let q = choose|q: int| 0 <= q < kept.len() && kept[q] == i;
            assert(after[kept[q]] == numbered(rows[kept[q]], q));
        }
    }
    assert forall|i: int| 0 <= i < rows.len() && rows[i].strip.id != id implies (
    #[trigger] after[i]) == rows[i] by {
        lemma_staying(rows, id, i);
    }
}

/// Whether row `i`, if it is empty and has the number zero, is the first row of
/// its workspace.
pub open spec fn empty_means_first(rows: Seq<RowView>, id: WorkspaceId, i: int) -> bool {
    rows[i].strip.virtual_index == 0 && rows[i].strip.columns.len() == 0 ==> forall|j: int|
        0 <= j < rows.len() && j != i && (#[trigger] rows[j]).strip.id == id ==> precedes(
            rows,
            i,
            j,
        )
}

/// A row that stays in a tidying also stays in the next one, unless it is an
/// empty one with the number zero that comes behind another with that number.
pub proof fn tidied_rows_stay_next_time(
    rows: Seq<RowView>,
    id: WorkspaceId,
    after: Seq<RowView>,
    i: int,
)
    requires
        rows.len() <= u32::MAX,
        is_renumbering(rows, id, after),
        0 <= i < rows.len(),
        rows[i].strip.id == id,
        stays(rows)(i),
        empty_means_first(rows, id, i),
    ensures
        stays(after)(i),
{
    tidied_rows_are_numbered_without_gaps(rows, id, after);
    if !stays(after)(i) {
        let kept = staying(rows, id);
        lemma_staying(rows, id, i);
        let order = row_order(rows, id);
        lemma_staying_is_ordered(rows, id, order.len() as int);
        assert(order.take(order.len() as int) =~= order);
        let q = choose|q: int| 0 <= q < kept.len() && kept[q] == i;
        assert(after[kept[q]].strip.virtual_index == q);
        let j = kept[0];
        assert(kept.contains(j));
        lemma_staying(rows, id, j);
        assert(precedes(rows, kept[0], kept[q]));
        assert(rows[j].strip.id == id);
    }
}

/// Picks the rows that are left once those of a workspace that go are gone.
pub open spec fn is_left(rows: Seq<RowView>, id: WorkspaceId) -> spec_fn(int) -> bool {
    |i: int| !(rows[i].strip.id == id && goes(rows)(i))
}

/// Where the rows that are left stood, from the start of the table.
pub open spec fn places_left(rows: Seq<RowView>, id: WorkspaceId) -> Seq<int> {
    Seq::new(rows.len(), |i: int| i).filter(is_left(rows, id))
}

/// The table after a tidying, once the rows that go are gone.
pub open spec fn rows_left(
    rows: Seq<RowView>,
    id: WorkspaceId,
    after: Seq<RowView>,
) -> Seq<RowView> {
    places_left(rows, id).map_values(|i: int| after[i])
}

/// The rows that are left are listed once each.
proof fn lemma_places_left(rows: Seq<RowView>, id: WorkspaceId)
    ensures
        places_left(rows, id).no_duplicates(),
        forall|i: int| #[trigger]
            places_left(rows, id).contains(i) <==> 0 <= i < rows.len() && is_left(rows, id)(i),
{
    let all = Seq::new(rows.len(), |i: int| i);
    assert(all.no_duplicates());
    search::lemma_filter_no_duplicates(all, is_left(rows, id));
    assert forall|i: int| #[trigger]
        places_left(rows, id).contains(i) <==> 0 <= i < rows.len() && is_left(rows, id)(i) by {
        search::lemma_filter_contains(all, is_left(rows, id), i);
        if 0 <= i < rows.len() {
            assert(all[i] == i);
        }
        if all.contains(i) {
            let k = choose|k: int| 0 <= k < all.len() && all[k] == i;
            assert(all[k] == k);
        }
    }
}

/// Tidying once more, when the rows that went are gone, changes nothing and
/// sends no row away. Left out are workspaces that have an empty row with the
/// number zero behind another with that number.
pub proof fn tidying_twice_is_tidying_once(
    rows: Seq<RowView>,
    id: WorkspaceId,
    after: Seq<RowView>,
    again: Seq<RowView>,
)
    requires
        rows.len() <= u32::MAX,
        is_renumbering(rows, id, after),
        is_renumbering(rows_left(rows, id, after), id, again),
        forall|i: int|
            0 <= i < rows.len() && rows[i].strip.id == id ==> #[trigger] empty_means_first(
                rows,
                id,
                i,
            ),
    ensures
        again == rows_left(rows, id, after),
        row_order(rows_left(rows, id, after), id).filter(goes(rows_left(rows, id, after)))
            == Seq::<int>::empty(),
{
    let kept = staying(rows, id);
    let places = places_left(rows, id);
    let left = rows_left(rows, id, after);
    tidied_rows_are_numbered_without_gaps(rows, id, after);
    lemma_places_left(rows, id);
    // Where the rows that stay stand in the table that is left.
    let at = |q: int| choose|a: int| 0 <= a < places.len() && places[a] == kept[q];
    let order = Seq::new(kept.len(), at);
    assert forall|q: int| 0 <= q < kept.len() implies 0 <= (#[trigger] order[q]) < places.len()
        && places[order[q]] == kept[q] && left[order[q]] == after[kept[q]] && rows[kept[q]].strip.id
        == id && stays(rows)(kept[q]) && 0 <= kept[q] < rows.len() by {
        assert(kept.contains(kept[q]));
        lemma_staying(rows, id, kept[q]);
        assert(is_left(rows, id)(kept[q]));
        assert(places.contains(kept[q]));
        assert(order[q] == at(q));
    }
    assert forall|q: int| 0 <= q < kept.len() implies left[#[trigger] order[q]].strip.id == id
        && left[order[q]].strip.virtual_index == q && stays(left)(order[q]) by {
        let i = kept[q];
        assert(after[staying(rows, id)[q]].strip.virtual_index == q);
        assert(after[i] == numbered(rows[i], after[i].strip.virtual_index as int));
        assert(empty_means_first(rows, id, i));
        tidied_rows_stay_next_time(rows, id, after, i);
    }
    assert(is_row_order(left, id, order)) by {
        assert forall|a: int| 0 <= a < left.len() && left[a].strip.id == id implies
            #[trigger] order.contains(a) by {
            let i = places[a];
            assert(places.contains(i));
            assert(after[i] == numbered(rows[i], after[i].strip.virtual_index as int));
            assert(is_left(rows, id)(i));
            lemma_staying(rows, id, i);
            assert(kept.contains(i));
            let q = choose|q: int| 0 <= q < kept.len() && kept[q] == i;
            assert(places[order[q]] == places[a]);
            assert(order[q] == a);
        }
        assert forall|p: int, q: int| 0 <= p < q < order.len() implies precedes(
            left,
            #[trigger] order[p],
            #[trigger] order[q],
        ) by {
            assert(left[order[p]].strip.virtual_index == p);
            assert(left[order[q]].strip.virtual_index == q);
        }
    }
    row_order_is_unique(left, id, order);
    assert forall|q: int| 0 <= q < order.len() implies stays(left)(order[q]) by {
        assert(left[order[q]].strip.virtual_index == q);
    }
    search::lemma_filter_all(order, stays(left));
    assert(staying(left, id) == order);
    assert forall|a: int| 0 <= a < left.len() implies again[a] == left[a] by {
        if order.contains(a) {
            let q = choose|q: int| 0 <= q < order.len() && order[q] == a;
            assert(left[order[q]].strip.virtual_index == q);
            assert(again[staying(left, id)[q]] == numbered(left[staying(left, id)[q]], q));
        }
    }
    assert(again =~= left);
    let gone = order.filter(goes(left));
    if gone.len() > 0 {
        assert(gone.contains(gone[0]));
        search::lemma_filter_contains(order, goes(left), gone[0]);
        let q = choose|q: int| 0 <= q < order.len() && order[q] == gone[0];
        assert(stays(left)(order[q]));
    }
    assert(gone =~= Seq::<int>::empty());
}

/// The rows when row `i` is the only active one.
pub open spec fn with_active(rows: Seq<RowView>, i: int) -> Seq<RowView> {
    Seq::new(rows.len(), |j: int| RowView { active: j == i, ..rows[j] })
}

/// The active strip does not matter to the order of the rows.
proof fn lemma_order_ignores_active(rows: Seq<RowView>, id: WorkspaceId, i: int)
    ensures
        row_order(with_active(rows, i), id) == row_order(rows, id),
{
    let order = row_order(rows, id);
    let changed = with_active(rows, i);
    row_order_is_unique(rows, id, order);
    assert forall|j: int| 0 <= j < rows.len() implies (#[trigger] changed[j]).strip
        == rows[j].strip by {}
    assert(is_row_order(changed, id, order)) by {
        assert forall|p: int| 0 <= p < order.len() implies changed[
            #[trigger] order[p]
        ].strip.id == id by {
            assert(0 <= order[p] < rows.len());
            assert(rows[order[p]].strip.id == id);
        }
        assert forall|p: int, q: int| 0 <= p < q < order.len() implies precedes(
            changed,
            #[trigger] order[p],
            #[trigger] order[q],
        ) by {
            assert(precedes(rows, order[p], order[q]));
            assert(0 <= order[p] < rows.len());
            assert(0 <= order[q] < rows.len());
        }
    }
    row_order_is_unique(changed, id, order);
}

/// Where the only active row stands in the order.
proof fn lemma_current_position(rows: Seq<RowView>, id: WorkspaceId, p: int)
    requires
        0 <= p < row_order(rows, id).len(),
    ensures
        current_position(with_active(rows, row_order(rows, id)[p]), row_order(rows, id)) == p,
{
    let order = row_order(rows, id);
    row_order_is_unique(rows, id, order);
    let changed = with_active(rows, order[p]);
    assert forall|q: int| 0 <= q < p implies !active_row(changed)(order[q]) by {
        assert(precedes(rows, order[q], order[p]));
        assert(0 <= order[q] < rows.len());
    }
    assert(0 <= order[p] < rows.len());
    search::lemma_first_is(order, active_row(changed), p);
}

/// A switch down, once its target is the active strip, is undone by a switch
/// up, and the other way round.
pub proof fn switch_and_switch_back(
    direction: Direction,
    opposite: Direction,
    id: WorkspaceId,
    rows: Seq<RowView>,
)
    requires
        (direction is South && opposite is North) || (direction is North && opposite is South),
        switch_target(direction, id, rows) is Some,
    ensures
        ({
            let order = row_order(rows, id);
            let target = switch_target(direction, id, rows).unwrap();
            switch_target(opposite, id, with_active(rows, target)) == Some(
                order[current_position(rows, order)],
            )
        }),
{
    let order = row_order(rows, id);
    let current = current_position(rows, order);
    search::lemma_first(order, active_row(rows));
    let p = next_position(direction, current, order.len()).unwrap();
    lemma_order_ignores_active(rows, id, order[p]);
    lemma_current_position(rows, id, p);
}

/// A switch stays within the workspace and never goes to the row that it
/// starts from.
pub proof fn switch_goes_to_another_row_of_the_workspace(
    direction: Direction,
    id: WorkspaceId,
    rows: Seq<RowView>,
)
    requires
        switch_target(direction, id, rows) is Some,
    ensures
        ({
            let order = row_order(rows, id);
            let target = switch_target(direction, id, rows).unwrap();
            let start = order[current_position(rows, order)];
            &&& 0 <= target < rows.len()
            &&& rows[target].strip.id == id
            &&& direction is South ==> precedes(rows, start, target)
            &&& direction is North ==> precedes(rows, target, start)
            &&& target != start
        }),
{
    let order = row_order(rows, id);
    row_order_is_unique(rows, id, order);
    let current = current_position(rows, order);
    search::lemma_first(order, active_row(rows));
    let p = next_position(direction, current, order.len()).unwrap();
    assert(0 <= order[p] < rows.len());
    assert(rows[order[p]].strip.id == id);
    if p < current {
        assert(precedes(rows, order[p], order[current]));
    } else {
        assert(precedes(rows, order[current], order[p]));
    }
}

} // verus!
