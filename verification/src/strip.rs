//! A strip: the windows of one row of a workspace, in columns from left to
//! right.

use crate::search;
use crate::types::{Entity, Error, WorkspaceId};
use vstd::prelude::*;

verus! {

/// What a strip holds.
pub struct StripView {
    /// The workspace that the strip belongs to.
    pub id: WorkspaceId,
    /// The row of the workspace that the strip makes up.
    pub virtual_index: u32,
    /// The columns from left to right, and in each the windows from top to
    /// bottom.
    pub columns: Seq<Seq<Entity>>,
}

/// Picks the columns that hold `window`.
pub open spec fn holding(window: Entity) -> spec_fn(Seq<Entity>) -> bool {
    |column: Seq<Entity>| column.contains(window)
}

/// Picks every window but `window`.
pub open spec fn other_than(window: Entity) -> spec_fn(Entity) -> bool {
    |w: Entity| w != window
}

/// Picks the columns that hold a window at all.
pub open spec fn occupied() -> spec_fn(Seq<Entity>) -> bool {
    |column: Seq<Entity>| column.len() > 0
}

/// Takes `window` out of a column.
pub open spec fn column_without(window: Entity) -> spec_fn(Seq<Entity>) -> Seq<Entity> {
    |column: Seq<Entity>| column.filter(other_than(window))
}

impl StripView {
    /// No column is empty.
    pub open spec fn wf(self) -> bool {
        forall|i: int| 0 <= i < self.columns.len() ==> (#[trigger] self.columns[i]).len() > 0
    }

    /// No window stands in the strip twice.
    pub open spec fn single(self) -> bool {
        self.windows().no_duplicates()
    }

    /// Whether some column holds `window`.
    pub open spec fn contains(self, window: Entity) -> bool {
        exists|i: int| 0 <= i < self.columns.len() && (#[trigger] self.columns[i]).contains(window)
    }

    /// The first column that holds `window`.
    pub open spec fn column_of(self, window: Entity) -> Option<int> {
        search::first(self.columns, holding(window))
    }

    /// All windows, column by column.
    pub open spec fn windows(self) -> Seq<Entity> {
        self.columns.flatten()
    }

    /// The window at the top of a column, if that column exists and is not
    /// empty.
    pub open spec fn top(self, column: int) -> Option<Entity> {
        if 0 <= column < self.columns.len() && self.columns[column].len() > 0 {
            Some(self.columns[column][0])
        } else {
            None
        }
    }

    /// The top window of the column to the left of the one that holds `window`.
    pub open spec fn left_of(self, window: Entity) -> Option<Entity> {
        match self.column_of(window) {
            Some(i) => self.top(i - 1),
            None => None,
        }
    }

    /// The top window of the column to the right of the one that holds `window`.
    pub open spec fn right_of(self, window: Entity) -> Option<Entity> {
        match self.column_of(window) {
            Some(i) => self.top(i + 1),
            None => None,
        }
    }

    /// The left neighbour of `window`, or else its right neighbour.
    pub open spec fn neighbour(self, window: Entity) -> Option<Entity> {
        match self.left_of(window) {
            Some(w) => Some(w),
            None => self.right_of(window),
        }
    }

    /// The strip without `window`; columns left empty close up.
    pub open spec fn without(self, window: Entity) -> StripView {
        StripView {
            columns: self.columns.map_values(column_without(window)).filter(occupied()),
            ..self
        }
    }

    /// The strip with `window` in a new column at the right end.
    pub open spec fn appended(self, window: Entity) -> StripView {
        StripView { columns: self.columns.push(seq![window]), ..self }
    }

    /// The strip with each window of `windows`, in order, in a new column at
    /// the right end.
    pub open spec fn appended_all(self, windows: Seq<Entity>) -> StripView {
        StripView {
            columns: self.columns + windows.map_values(|w: Entity| seq![w]),
            ..self
        }
    }

    /// The strip with `window` in a new column at `index`, or at the right end
    /// if the strip is shorter than that.
    pub open spec fn inserted_at(self, index: int, window: Entity) -> StripView {
        StripView {
            columns: self.columns.insert(
                if index < self.columns.len() {
                    index
                } else {
                    self.columns.len() as int
                },
                seq![window],
            ),
            ..self
        }
    }
}

/// A strip of windows.
#[derive(Debug, PartialEq, Eq)]
pub struct LayoutStrip {
    id: WorkspaceId,
    virtual_index: u32,
    columns: Vec<Vec<Entity>>,
}

impl View for LayoutStrip {
    type V = StripView;

    closed spec fn view(&self) -> StripView {
        StripView {
            id: self.id,
            virtual_index: self.virtual_index,
            columns: self.columns@.map_values(|column: Vec<Entity>| column@),
        }
    }
}

impl LayoutStrip {
    /// An empty strip.
    pub fn new(id: WorkspaceId, virtual_index: u32) -> (strip: LayoutStrip)
        ensures
            strip@ == (StripView { id, virtual_index, columns: Seq::empty() }),
    {
        let strip = LayoutStrip { id, virtual_index, columns: Vec::new() };
        assert(strip@.columns =~= Seq::empty());
        strip
    }

    /// The strip of a workspace that one window fills.
    pub fn fullscreen(id: WorkspaceId, window: Entity) -> (strip: LayoutStrip)
        ensures
            strip@ == (StripView { id, virtual_index: 0, columns: seq![seq![window]] }),
    {
        let mut strip = LayoutStrip::new(id, 0);
        strip.append(window);
        assert(strip@.columns =~= seq![seq![window]]);
        strip
    }

    /// A strip of the given columns; empty ones are left out.
    pub fn from_columns(id: WorkspaceId, virtual_index: u32, columns: Vec<Vec<Entity>>) -> (strip:
        LayoutStrip)
        ensures
            strip@ == (StripView {
                id,
                virtual_index,
                columns: columns@.map_values(|column: Vec<Entity>| column@).filter(occupied()),
            }),
    {
        let ghost given = columns@.map_values(|column: Vec<Entity>| column@);
        let mut kept: Vec<Vec<Entity>> = Vec::new();
        assert(kept@.map_values(|column: Vec<Entity>| column@) =~= given.take(0).filter(
            occupied(),
        )) by {
            reveal(Seq::filter);
        }
        for i in 0..columns.len()
            invariant
                given == columns@.map_values(|column: Vec<Entity>| column@),
                kept@.map_values(|column: Vec<Entity>| column@) == given.take(i as int).filter(
                    occupied(),
                ),
        {
            proof {
                search::lemma_filter_take(given, i as int, occupied());
                assert(given[i as int] == columns@[i as int]@);
            }
            if columns[i].len() > 0 {
                let ghost before = kept@;
                kept.push(copy_column(&columns[i]));
                assert(kept@.map_values(|column: Vec<Entity>| column@) =~= before.map_values(
                    |column: Vec<Entity>| column@,
                ).push(given[i as int]));
            }
        }
        assert(given.take(given.len() as int) =~= given);
        LayoutStrip { id, virtual_index, columns: kept }
    }

    /// The workspace that the strip belongs to.
    pub fn id(&self) -> (id: WorkspaceId)
        ensures
            id == self@.id,
    {
        self.id
    }

    /// The row of the workspace that the strip makes up.
    pub fn virtual_index(&self) -> (virtual_index: u32)
        ensures
            virtual_index == self@.virtual_index,
    {
        self.virtual_index
    }

    /// Makes the strip another row of its workspace.
    pub fn set_virtual_index(&mut self, virtual_index: u32)
        ensures
            final(self)@ == (StripView { virtual_index, ..old(self)@ }),
    {
        self.virtual_index = virtual_index;
    }

    /// The number of columns.
    pub fn len(&self) -> (n: usize)
        ensures
            n == self@.columns.len(),
    {
        self.columns.len()
    }

    /// The column that holds a window.
    pub fn index_of(&self, window: Entity) -> (found: Result<usize, Error>)
        ensures
            match self@.column_of(window) {
                Some(i) => found == Ok::<usize, Error>(i as usize) && i <= usize::MAX,
                None => found == Err::<usize, Error>(Error::InvalidWindow),
            },
    {
        let ghost columns = self@.columns;
        for i in 0..self.columns.len()
            invariant
                columns == self@.columns,
                forall|j: int| 0 <= j < i ==> !holding(window)(columns[j]),
        {
            assert(self.columns@[i as int]@ == columns[i as int]);
            if column_contains(&self.columns[i], window) {
                proof {
                    search::lemma_first_is(columns, holding(window), i as int);
                }
                return Ok(i);
            }
        }
        proof {
            search::lemma_first_none(columns, holding(window));
        }
        Err(Error::InvalidWindow)
    }

    /// Whether the strip holds a window.
    pub fn contains(&self, window: Entity) -> (found: bool)
        ensures
            found == self@.contains(window),
    {
        proof {
            search::lemma_first(self@.columns, holding(window));
        }
        match self.index_of(window) {
            Ok(i) => {
                assert(holding(window)(self@.columns[i as int]));
                true
            },
            Err(_) => {
                assert forall|j: int| 0 <= j < self@.columns.len() implies !(
                #[trigger] self@.columns[j]).contains(window) by {
                    assert(!holding(window)(self@.columns[j]));
                }
                false
            },
        }
    }

    /// The top window of the column to the left.
    pub fn left_neighbour(&self, window: Entity) -> (neighbour: Option<Entity>)
        ensures
            neighbour == self@.left_of(window),
    {
        match self.index_of(window) {
            Ok(i) => {
                if i > 0 {
                    proof {
                        search::lemma_first(self@.columns, holding(window));
                    }
                    self.top(i - 1)
                } else {
                    None
                }
            },
            Err(_) => None,
        }
    }

    /// The top window of the column to the right.
    pub fn right_neighbour(&self, window: Entity) -> (neighbour: Option<Entity>)
        ensures
            neighbour == self@.right_of(window),
    {
        match self.index_of(window) {
            Ok(i) => {
                proof {
                    search::lemma_first(self@.columns, holding(window));
                }
                if i < self.columns.len() - 1 {
                    self.top(i + 1)
                } else {
                    None
                }
            },
            Err(_) => None,
        }
    }

    fn top(&self, column: usize) -> (window: Option<Entity>)
        requires
            column < self@.columns.len(),
        ensures
            window == self@.top(column as int),
    {
        assert(self.columns@[column as int]@ == self@.columns[column as int]);
        if self.columns[column].len() > 0 {
            Some(self.columns[column][0])
        } else {
            None
        }
    }

    /// All windows, column by column.
    pub fn all_windows(&self) -> (windows: Vec<Entity>)
        ensures
            windows@ == self@.windows(),
    {
        let ghost columns = self@.columns;
        let mut windows: Vec<Entity> = Vec::new();
        for i in 0..self.columns.len()
            invariant
                columns == self@.columns,
                windows@ == columns.take(i as int).flatten(),
        {
            let column = &self.columns[i];
            assert(column@ == columns[i as int]);
            let ghost before = windows@;
            for j in 0..column.len()
                invariant
                    windows@ == before + column@.take(j as int),
            {
                windows.push(column[j]);
                assert(column@.take(j + 1) =~= column@.take(j as int).push(column@[j as int]));
                assert(windows@ =~= before + column@.take(j + 1));
            }
            proof {
                assert(column@.take(column@.len() as int) =~= column@);
                assert(columns.take(i + 1) =~= columns.take(i as int).push(columns[i as int]));
                columns.take(i as int).lemma_flatten_push(columns[i as int]);
            }
        }
        assert(columns.take(columns.len() as int) =~= columns);
        windows
    }

    /// Puts a window in a new column at the right end.
    pub fn append(&mut self, window: Entity)
        ensures
            final(self)@ == old(self)@.appended(window),
    {
        let mut column: Vec<Entity> = Vec::new();
        column.push(window);
        assert(column@ =~= seq![window]);
        self.columns.push(column);
        assert(self@.columns =~= old(self)@.columns.push(seq![window]));
    }

    /// Puts windows, in order, in new columns at the right end.
    pub fn append_all(&mut self, windows: &Vec<Entity>)
        ensures
            final(self)@ == old(self)@.appended_all(windows@),
    {
        assert(self@.columns =~= old(self)@.appended_all(windows@.take(0)).columns);
        for i in 0..windows.len()
            invariant
                self@ == old(self)@.appended_all(windows@.take(i as int)),
        {
            self.append(windows[i]);
            assert(self@.columns =~= old(self)@.appended_all(windows@.take(i + 1)).columns);
        }
        assert(windows@.take(windows@.len() as int) =~= windows@);
    }

    /// Puts a window in a new column at `index`, or at the right end if the
    /// strip is shorter than that.
    pub fn insert_at(&mut self, index: usize, window: Entity)
        ensures
            final(self)@ == old(self)@.inserted_at(index as int, window),
    {
        if index < self.columns.len() {
            let mut column: Vec<Entity> = Vec::new();
            column.push(window);
            assert(column@ =~= seq![window]);
            self.columns.insert(index, column);
            assert(self@.columns =~= old(self)@.columns.insert(index as int, seq![window]));
        } else {
            self.append(window);
            assert(self@.columns =~= old(self)@.columns.insert(
                old(self)@.columns.len() as int,
                seq![window],
            ));
        }
    }

    /// Takes a window out of the strip; columns left empty close up.
    pub fn remove(&mut self, window: Entity)
        ensures
            final(self)@ == old(self)@.without(window),
    {
        let ghost columns = self@.columns;
        let ghost trimmed = columns.map_values(column_without(window));
        let mut kept: Vec<Vec<Entity>> = Vec::new();
        assert(kept@.map_values(|column: Vec<Entity>| column@) =~= trimmed.take(0).filter(
            occupied(),
        )) by {
            reveal(Seq::filter);
        }
        for i in 0..self.columns.len()
            invariant
                columns == self@.columns,
                trimmed == columns.map_values(column_without(window)),
                kept@.map_values(|column: Vec<Entity>| column@) == trimmed.take(i as int).filter(
                    occupied(),
                ),
        {
            assert(self.columns@[i as int]@ == columns[i as int]);
            let column = trim(&self.columns[i], window);
            proof {
                search::lemma_filter_take(trimmed, i as int, occupied());
                assert(trimmed[i as int] == column@);
            }
            let ghost before = kept@;
            if column.len() > 0 {
                kept.push(column);
                assert(kept@.map_values(|column: Vec<Entity>| column@) =~= before.map_values(
                    |column: Vec<Entity>| column@,
                ).push(column@));
            }
        }
        assert(trimmed.take(trimmed.len() as int) =~= trimmed);
        self.columns = kept;
    }
}

impl Clone for LayoutStrip {
    fn clone(&self) -> (copy: LayoutStrip)
        ensures
            copy@ == self@,
    {
        let ghost given = self@.columns;
        let mut columns: Vec<Vec<Entity>> = Vec::new();
        for i in 0..self.columns.len()
            invariant
                given == self@.columns,
                columns@.map_values(|column: Vec<Entity>| column@) == given.take(i as int),
        {
            assert(given[i as int] == self.columns@[i as int]@);
            let ghost before = columns@;
            columns.push(copy_column(&self.columns[i]));
            assert(columns@.map_values(|column: Vec<Entity>| column@) =~= before.map_values(
                |column: Vec<Entity>| column@,
            ).push(given[i as int]));
            assert(given.take(i + 1) =~= given.take(i as int).push(given[i as int]));
        }
        assert(given.take(given.len() as int) =~= given);
        LayoutStrip { id: self.id, virtual_index: self.virtual_index, columns }
    }
}

/// The same column once more.
fn copy_column(column: &Vec<Entity>) -> (copy: Vec<Entity>)
    ensures
        copy@ == column@,
{
    let mut copy: Vec<Entity> = Vec::new();
    for i in 0..column.len()
        invariant
            copy@ == column@.take(i as int),
    {
        copy.push(column[i]);
        assert(column@.take(i + 1) =~= column@.take(i as int).push(column@[i as int]));
    }
    assert(column@.take(column@.len() as int) =~= column@);
    copy
}

/// Whether a column holds a window.
fn column_contains(column: &Vec<Entity>, window: Entity) -> (found: bool)
    ensures
        found == column@.contains(window),
{
    for i in 0..column.len()
        invariant
            forall|j: int| 0 <= j < i ==> column@[j] != window,
    {
        if column[i] == window {
            return true;
        }
    }
    false
}

/// A column without one window.
fn trim(column: &Vec<Entity>, window: Entity) -> (rest: Vec<Entity>)
    ensures
        rest@ == column@.filter(other_than(window)),
{
    let mut rest: Vec<Entity> = Vec::new();
    assert(rest@ =~= column@.take(0).filter(other_than(window))) by {
        reveal(Seq::filter);
    }
    for i in 0..column.len()
        invariant
            rest@ == column@.take(i as int).filter(other_than(window)),
    {
        proof {
            search::lemma_filter_take(column@, i as int, other_than(window));
        }
        if column[i] != window {
            rest.push(column[i]);
        }
    }
    assert(column@.take(column@.len() as int) =~= column@);
    rest
}

/// A strip without a window holds every other window that it held, and not
/// that one; no column of it is empty.
pub proof fn without_drops_one_window(strip: StripView, window: Entity)
    ensures
        strip.without(window).wf(),
        forall|w: Entity| #[trigger]
            strip.without(window).contains(w) <==> strip.contains(w) && w != window,
{
    let trimmed = strip.columns.map_values(column_without(window));
    let rest = trimmed.filter(occupied());
    assert forall|i: int| 0 <= i < rest.len() implies (#[trigger] rest[i]).len() > 0 by {
        search::lemma_filter_contains(trimmed, occupied(), rest[i]);
        assert(rest.contains(rest[i]));
    }
    assert forall|w: Entity| #[trigger]
        strip.without(window).contains(w) <==> strip.contains(w) && w != window by {
        if strip.without(window).contains(w) {
            let i = choose|i: int|
                0 <= i < strip.without(window).columns.len() && (
                #[trigger] strip.without(window).columns[i]).contains(w);
            assert(rest.contains(rest[i]));
            search::lemma_filter_contains(trimmed, occupied(), rest[i]);
            let j = choose|j: int| 0 <= j < trimmed.len() && trimmed[j] == rest[i];
            search::lemma_filter_contains(strip.columns[j], other_than(window), w);
            assert(trimmed[j] == strip.columns[j].filter(other_than(window)));
            assert(strip.columns[j].contains(w));
        }
        if strip.contains(w) && w != window {
            let j = choose|j: int|
                0 <= j < strip.columns.len() && (#[trigger] strip.columns[j]).contains(w);
            search::lemma_filter_contains(strip.columns[j], other_than(window), w);
            assert(trimmed[j].contains(w));
            assert(trimmed.contains(trimmed[j]));
            search::lemma_filter_contains(trimmed, occupied(), trimmed[j]);
            let i = choose|i: int| 0 <= i < rest.len() && rest[i] == trimmed[j];
            assert(strip.without(window).columns[i].contains(w));
        }
    }
}

/// A strip loses nothing when a window that it does not hold is taken out.
pub proof fn without_absent_window_is_unchanged(strip: StripView, window: Entity)
    requires
        strip.wf(),
        !strip.contains(window),
    ensures
        strip.without(window) == strip,
{
    let trimmed = strip.columns.map_values(column_without(window));
    assert forall|i: int| 0 <= i < strip.columns.len() implies trimmed[i] == strip.columns[i] by {
        let column = strip.columns[i];
        assert forall|j: int| 0 <= j < column.len() implies other_than(window)(column[j]) by {
            assert(column.contains(column[j]));
        }
        search::lemma_filter_all(column, other_than(window));
    }
    assert(trimmed =~= strip.columns);
    search::lemma_filter_all(trimmed, occupied());
}

/// A strip to which a window is appended holds that window and those that it
/// held; no column becomes empty.
pub proof fn appended_adds_one_window(strip: StripView, window: Entity)
    ensures
        strip.wf() ==> strip.appended(window).wf(),
        forall|w: Entity| #[trigger]
            strip.appended(window).contains(w) <==> strip.contains(w) || w == window,
{
    inserted_at_adds_one_window(strip, strip.columns.len() as int, window);
    assert(strip.appended(window).columns =~= strip.inserted_at(
        strip.columns.len() as int,
        window,
    ).columns);
}

/// A strip to which windows are appended holds those windows and the ones that
/// it held.
pub proof fn appended_all_adds_windows(strip: StripView, windows: Seq<Entity>)
    ensures
        forall|w: Entity| #[trigger]
            strip.appended_all(windows).contains(w) <==> strip.contains(w) || windows.contains(w),
    decreases windows.len(),
{
    if windows.len() == 0 {
        assert(strip.appended_all(windows).columns =~= strip.columns);
    } else {
        let less = windows.drop_last();
        let last = windows.last();
        appended_all_adds_windows(strip, less);
        appended_adds_one_window(strip.appended_all(less), last);
        assert(strip.appended_all(windows).columns =~= strip.appended_all(less).appended(
            last,
        ).columns);
        assert forall|w: Entity| #[trigger]
            strip.appended_all(windows).contains(w) <==> strip.contains(w) || windows.contains(
                w,
            ) by {
            assert(windows =~= less.push(last));
            assert(windows[windows.len() - 1] == last);
            if less.contains(w) {
                let k = choose|k: int| 0 <= k < less.len() && less[k] == w;
                assert(windows[k] == w);
            }
            assert(strip.appended_all(less).appended(last).contains(w) <==> strip.appended_all(
                less,
            ).contains(w) || w == last);
        }
    }
}

/// A strip into which a window is put holds that window and those that it
/// held; no column becomes empty.
pub proof fn inserted_at_adds_one_window(strip: StripView, index: int, window: Entity)
    requires
        0 <= index,
    ensures
        strip.wf() ==> strip.inserted_at(index, window).wf(),
        forall|w: Entity| #[trigger]
            strip.inserted_at(index, window).contains(w) <==> strip.contains(w) || w == window,
{
    let n = strip.columns.len();
    let at = if index < n {
        index
    } else {
        n as int
    };
    let more = strip.inserted_at(index, window).columns;
    assert(more[at] == seq![window]);
    assert(seq![window][0] == window);
    assert forall|i: int| 0 <= i < n implies more[if i < at {
        i
    } else {
        i + 1
    }] == strip.columns[i] by {}
    assert forall|w: Entity| #[trigger]
        strip.inserted_at(index, window).contains(w) <==> strip.contains(w) || w == window by {
        if strip.inserted_at(index, window).contains(w) {
            let i = choose|i: int| 0 <= i < more.len() && (#[trigger] more[i]).contains(w);
            if i < at {
                assert(strip.columns[i].contains(w));
            } else if i > at {
                assert(strip.columns[i - 1].contains(w));
            }
        }
        if strip.contains(w) {
            let i = choose|i: int|
                0 <= i < strip.columns.len() && (#[trigger] strip.columns[i]).contains(w);
            let k = if i < at {
                i
            } else {
                i + 1
            };
            assert(more[k].contains(w));
        }
        if w == window {
            assert(more[at].contains(w));
        }
    }
    if strip.wf() {
        assert forall|i: int| 0 <= i < more.len() implies (#[trigger] more[i]).len() > 0 by {
            if i < at {
                assert(more[i] == strip.columns[i]);
            } else if i > at {
                assert(more[i] == strip.columns[i - 1]);
            }
        }
    }
}

/// A window that had a column of its own, and is taken out and put back at the
/// place where it was, leaves the strip as it was.
pub proof fn without_then_inserted_back_restores(strip: StripView, window: Entity, index: int)
    requires
        strip.wf(),
        0 <= index < strip.columns.len(),
        strip.columns[index] == seq![window],
        forall|i: int|
            0 <= i < strip.columns.len() && i != index ==> !(
            #[trigger] strip.columns[i]).contains(window),
    ensures
        strip.column_of(window) == Some(index),
        strip.without(window).inserted_at(index, window) == strip,
{
    let columns = strip.columns;
    assert(seq![window][0] == window);
    assert(columns[index].contains(window));
    assert forall|j: int| 0 <= j < index implies !holding(window)(columns[j]) by {
        assert(!columns[j].contains(window));
    }
    search::lemma_first_is(columns, holding(window), index);
    let trimmed = columns.map_values(column_without(window));
    let left = trimmed.take(index);
    let right = trimmed.skip(index + 1);
    assert forall|i: int| 0 <= i < columns.len() && i != index implies trimmed[i] == columns[i] by {
        let column = columns[i];
        assert forall|j: int| 0 <= j < column.len() implies other_than(window)(column[j]) by {
            assert(column.contains(column[j]));
        }
        search::lemma_filter_all(column, other_than(window));
    }
    assert(trimmed[index].len() == 0) by {
        if trimmed[index].len() > 0 {
            let w = trimmed[index][0];
            assert(trimmed[index].contains(w));
            search::lemma_filter_contains(columns[index], other_than(window), w);
        }
    }
    search::lemma_filter_all(left, occupied());
    search::lemma_filter_all(right, occupied());
    let middle = seq![trimmed[index]];
    assert(middle.filter(occupied()) =~= Seq::<Seq<Entity>>::empty()) by {
        search::lemma_filter_push(Seq::<Seq<Entity>>::empty(), trimmed[index], occupied());
        assert(middle =~= Seq::<Seq<Entity>>::empty().push(trimmed[index]));
        reveal(Seq::filter);
    }
    assert(trimmed =~= left + middle + right);
    Seq::filter_distributes_over_add(left + middle, right, occupied());
    Seq::filter_distributes_over_add(left, middle, occupied());
    assert(trimmed.filter(occupied()) =~= left + right);
    assert(strip.without(window).inserted_at(index, window).columns =~= columns);
}

/// The list of all windows names exactly the windows that the strip holds.
pub proof fn windows_lists_what_the_strip_holds(strip: StripView)
    ensures
        forall|w: Entity| #[trigger] strip.windows().contains(w) <==> strip.contains(w),
    decreases strip.columns.len(),
{
    let columns = strip.columns;
    if columns.len() == 0 {
        assert(strip.windows() =~= Seq::<Entity>::empty());
    } else {
        let rest = StripView { columns: columns.drop_last(), ..strip };
        windows_lists_what_the_strip_holds(rest);
        assert(columns =~= rest.columns.push(columns.last()));
        rest.columns.lemma_flatten_push(columns.last());
        assert forall|w: Entity| #[trigger]
            strip.windows().contains(w) <==> strip.contains(w) by {
            let all = rest.windows() + columns.last();
            assert(strip.windows() == all);
            if strip.windows().contains(w) {
                let k = choose|k: int| 0 <= k < all.len() && all[k] == w;
                if k < rest.windows().len() {
                    assert(rest.windows().contains(w));
                    let i = choose|i: int|
                        0 <= i < rest.columns.len() && (#[trigger] rest.columns[i]).contains(w);
                    assert(columns[i].contains(w));
                } else {
                    assert(columns.last()[k - rest.windows().len()] == w);
                    assert(columns[columns.len() - 1].contains(w));
                }
            }
            if strip.contains(w) {
                let i = choose|i: int|
                    0 <= i < columns.len() && (#[trigger] columns[i]).contains(w);
                if i < columns.len() - 1 {
                    assert(rest.columns[i].contains(w));
                    assert(rest.windows().contains(w));
                    let k = choose|k: int| 0 <= k < rest.windows().len() && rest.windows()[k] == w;
                    assert(all[k] == w);
                } else {
                    let k = choose|k: int| 0 <= k < columns[i].len() && columns[i][k] == w;
                    assert(all[rest.windows().len() + k] == w);
                }
            }
        }
    }
}

/// The windows of a strip without one of them are the others, in the order that
/// they had.
pub proof fn without_keeps_the_order(strip: StripView, window: Entity)
    ensures
        strip.without(window).windows() == strip.windows().filter(other_than(window)),
    decreases strip.columns.len(),
{
    let p = other_than(window);
    let columns = strip.columns;
    let trimmed = columns.map_values(column_without(window));
    reveal(Seq::filter);
    if columns.len() == 0 {
        assert(trimmed.filter(occupied()) =~= Seq::<Seq<Entity>>::empty());
        assert(strip.windows() =~= Seq::<Entity>::empty());
    } else {
        let rest = StripView { columns: columns.drop_last(), ..strip };
        let last = columns.last();
        without_keeps_the_order(rest, window);
        assert(columns =~= rest.columns.push(last));
        rest.columns.lemma_flatten_push(last);
        Seq::filter_distributes_over_add(rest.windows(), last, p);
        let less = rest.columns.map_values(column_without(window));
        assert(trimmed =~= less.push(last.filter(p)));
        search::lemma_filter_push(less, last.filter(p), occupied());
        less.filter(occupied()).lemma_flatten_push(last.filter(p));
        if last.filter(p).len() == 0 {
            assert(last.filter(p) =~= Seq::<Entity>::empty());
            assert(rest.windows().filter(p) + last.filter(p) =~= rest.windows().filter(p));
        }
    }
}

/// Windows are appended behind those that a strip has.
pub proof fn appended_all_goes_to_the_end(strip: StripView, windows: Seq<Entity>)
    ensures
        strip.appended_all(windows).windows() == strip.windows() + windows,
    decreases windows.len(),
{
    if windows.len() == 0 {
        assert(strip.appended_all(windows).columns =~= strip.columns);
        assert(strip.windows() + windows =~= strip.windows());
    } else {
        let less = windows.drop_last();
        appended_all_goes_to_the_end(strip, less);
        let before = strip.appended_all(less);
        before.columns.lemma_flatten_push(seq![windows.last()]);
        assert(strip.appended_all(windows).columns =~= before.columns.push(
            seq![windows.last()],
        ));
        assert(strip.windows() + windows =~= strip.windows() + less + seq![windows.last()]);
    }
}

/// A strip without a window holds no window twice if it did not before.
pub proof fn without_stays_single(strip: StripView, window: Entity)
    requires
        strip.single(),
    ensures
        strip.without(window).single(),
{
    without_keeps_the_order(strip, window);
    search::lemma_filter_no_duplicates(strip.windows(), other_than(window));
}

/// A strip to which windows are appended that it does not hold, each once, holds
/// no window twice if it did not before.
pub proof fn appended_all_stays_single(strip: StripView, windows: Seq<Entity>)
    requires
        strip.single(),
        windows.no_duplicates(),
        forall|w: Entity| #[trigger] windows.contains(w) ==> !strip.contains(w),
    ensures
        strip.appended_all(windows).single(),
{
    appended_all_goes_to_the_end(strip, windows);
    windows_lists_what_the_strip_holds(strip);
    let all = strip.windows() + windows;
    let n = strip.windows().len();
    assert forall|i: int, j: int|
        0 <= i < all.len() && 0 <= j < all.len() && i != j implies all[i] != all[j] by {
        if i < n && j >= n {
            assert(windows.contains(windows[j - n]));
            assert(strip.windows().contains(strip.windows()[i]));
        } else if j < n && i >= n {
            assert(windows.contains(windows[i - n]));
            assert(strip.windows().contains(strip.windows()[j]));
        }
    }
}

/// A strip into which a window is put that it does not hold holds no window
/// twice if it did not before.
pub proof fn inserted_at_stays_single(strip: StripView, index: int, window: Entity)
    requires
        0 <= index,
        strip.single(),
        !strip.contains(window),
    ensures
        strip.inserted_at(index, window).single(),
{
    let n = strip.columns.len() as int;
    let at = if index < n {
        index
    } else {
        n
    };
    let left = strip.columns.take(at);
    let right = strip.columns.skip(at);
    let middle = seq![seq![window]];
    assert(strip.columns =~= left + right);
    assert(strip.inserted_at(index, window).columns =~= left + middle + right);
    vstd::seq_lib::lemma_flatten_concat(left, right);
    vstd::seq_lib::lemma_flatten_concat(left + middle, right);
    vstd::seq_lib::lemma_flatten_concat(left, middle);
    middle.lemma_flatten_one_element();
    windows_lists_what_the_strip_holds(strip);
    let a = left.flatten();
    let b = right.flatten();
    let before = a + b;
    let all = a + seq![window] + b;
    assert(strip.windows() == before);
    assert(strip.inserted_at(index, window).windows() == all);
    assert forall|i: int, j: int|
        0 <= i < all.len() && 0 <= j < all.len() && i != j implies all[i] != all[j] by {
        let k = a.len() as int;
        if i != k {
            let x = if i < k {
                i
            } else {
                i - 1
            };
            assert(before[x] == all[i]);
            assert(before.contains(all[i]));
            if j != k {
                let y = if j < k {
                    j
                } else {
                    j - 1
                };
                assert(before[y] == all[j]);
            }
        } else {
            let y = if j < k {
                j
            } else {
                j - 1
            };
            assert(before[y] == all[j]);
            assert(before.contains(all[j]));
        }
    }
}

/// A window that is appended and taken out again leaves the strip as it was.
pub proof fn appended_then_without_restores(strip: StripView, window: Entity)
    requires
        strip.wf(),
        !strip.contains(window),
    ensures
        strip.appended(window).without(window) == strip,
{
    let p = other_than(window);
    let less = strip.columns.map_values(column_without(window));
    let one = seq![window];
    assert(one.filter(p) =~= Seq::<Entity>::empty()) by {
        search::lemma_filter_push(Seq::<Entity>::empty(), window, p);
        assert(one =~= Seq::<Entity>::empty().push(window));
        reveal(Seq::filter);
    }
    assert(strip.appended(window).columns.map_values(column_without(window)) =~= less.push(
        one.filter(p),
    ));
    search::lemma_filter_push(less, one.filter(p), occupied());
    without_absent_window_is_unchanged(strip, window);
}

/// A window that has a column to itself is in no other column, if the strip holds
/// no window twice.
pub proof fn window_in_its_own_column_is_nowhere_else(
    strip: StripView,
    window: Entity,
    index: int,
)
    requires
        strip.single(),
        0 <= index < strip.columns.len(),
        strip.columns[index] == seq![window],
    ensures
        forall|i: int|
            0 <= i < strip.columns.len() && i != index ==> !(
            #[trigger] strip.columns[i]).contains(window),
{
    let left = StripView { columns: strip.columns.take(index), ..strip };
    let right = StripView { columns: strip.columns.skip(index + 1), ..strip };
    let middle = seq![seq![window]];
    assert(strip.columns =~= left.columns + middle + right.columns);
    vstd::seq_lib::lemma_flatten_concat(left.columns + middle, right.columns);
    vstd::seq_lib::lemma_flatten_concat(left.columns, middle);
    middle.lemma_flatten_one_element();
    windows_lists_what_the_strip_holds(left);
    windows_lists_what_the_strip_holds(right);
    let a = left.windows();
    let b = right.windows();
    let all = a + seq![window] + b;
    assert(strip.windows() == all);
    let n = a.len() as int;
    assert(all[n] == window);
    assert forall|i: int| 0 <= i < strip.columns.len() && i != index implies !(
    #[trigger] strip.columns[i]).contains(window) by {
        if strip.columns[i].contains(window) {
            if i < index {
                assert(left.columns[i].contains(window));
                assert(a.contains(window));
                let k = choose|k: int| 0 <= k < a.len() && a[k] == window;
                assert(all[k] == window);
            } else {
                assert(right.columns[i - index - 1].contains(window));
                assert(b.contains(window));
                let k = choose|k: int| 0 <= k < b.len() && b[k] == window;
                assert(all[n + 1 + k] == window);
            }
        }
    }
}

} // verus!
