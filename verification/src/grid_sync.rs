//! Keeping the screens of clients up to date: cells, changed rows, full
//! snapshots, and the ring of the latest changes.
use std::collections::VecDeque;
use vstd::prelude::*;

verus! {

/// How a character is underlined.
#[derive(Clone, Copy, Debug, PartialEq, Eq, Structural)]
pub enum UnderlineStyle {
    NotUnderlined,
    Single,
    Double,
    Curly,
    Dotted,
    Dashed,
}

impl Default for UnderlineStyle {
    fn default() -> (style: Self)
        ensures
            style == UnderlineStyle::NotUnderlined,
    {
        UnderlineStyle::NotUnderlined
    }
}

/// How a character is drawn.
#[derive(Clone, Copy, Debug, PartialEq)]
pub struct CellStyle {
    pub bold: bool,
    pub italic: bool,
    pub underline: UnderlineStyle,
    pub underline_color: Option<u32>,
    pub strikethrough: bool,
    pub dim: bool,
    pub reverse: bool,
    pub wide_char: bool,
    pub wide_char_spacer: bool,
    pub leading_wide_char_spacer: bool,
    pub wrapline: bool,
    pub hidden: bool,
}

/// A style with nothing set.
pub open spec fn plain_style() -> CellStyle {
    CellStyle {
        bold: false,
        italic: false,
        underline: UnderlineStyle::NotUnderlined,
        underline_color: None,
        strikethrough: false,
        dim: false,
        reverse: false,
        wide_char: false,
        wide_char_spacer: false,
        leading_wide_char_spacer: false,
        wrapline: false,
        hidden: false,
    }
}

impl Default for CellStyle {
    fn default() -> (style: Self)
        ensures
            style == plain_style(),
    {
        CellStyle {
            bold: false,
            italic: false,
            underline: UnderlineStyle::NotUnderlined,
            underline_color: None,
            strikethrough: false,
            dim: false,
            reverse: false,
            wide_char: false,
            wide_char_spacer: false,
            leading_wide_char_spacer: false,
            wrapline: false,
            hidden: false,
        }
    }
}

/// A link that a cell carries.
#[derive(Debug, PartialEq)]
pub struct Hyperlink {
    pub id: String,
    pub uri: String,
}

impl View for Hyperlink {
    type V = (Seq<char>, Seq<char>);

    open spec fn view(&self) -> (Seq<char>, Seq<char>) {
        (self.id@, self.uri@)
    }
}

impl Clone for Hyperlink {
    fn clone(&self) -> (copy: Self)
        ensures
            copy@ == self@,
    {
        Hyperlink { id: self.id.clone(), uri: self.uri.clone() }
    }
}

/// What an optional link holds.
pub open spec fn link(hyperlink: Option<Hyperlink>) -> Option<(Seq<char>, Seq<char>)> {
    match hyperlink {
        Some(h) => Some(h@),
        None => None,
    }
}

/// A cell of a screen.
#[derive(Debug, PartialEq)]
pub struct Cell {
    pub character: String,
    pub zerowidth: String,
    pub style: CellStyle,
    pub foreground: u32,
    pub background: u32,
    pub hyperlink: Option<Hyperlink>,
}

/// What a cell holds.
pub struct CellModel {
    pub character: Seq<char>,
    pub zerowidth: Seq<char>,
    pub style: CellStyle,
    pub foreground: u32,
    pub background: u32,
    pub hyperlink: Option<(Seq<char>, Seq<char>)>,
}

impl View for Cell {
    type V = CellModel;

    open spec fn view(&self) -> CellModel {
        CellModel {
            character: self.character@,
            zerowidth: self.zerowidth@,
            style: self.style,
            foreground: self.foreground,
            background: self.background,
            hyperlink: link(self.hyperlink),
        }
    }
}

/// A cell with nothing in it.
pub open spec fn empty_cell() -> CellModel {
    CellModel {
        character: Seq::empty(),
        zerowidth: Seq::empty(),
        style: plain_style(),
        foreground: 0,
        background: 0,
        hyperlink: None,
    }
}

impl Default for Cell {
    fn default() -> (cell: Self)
        ensures
            cell@ == empty_cell(),
    {
        Cell {
            character: String::new(),
            zerowidth: String::new(),
            style: CellStyle::default(),
            foreground: 0,
            background: 0,
            hyperlink: None,
        }
    }
}

impl Clone for Cell {
    fn clone(&self) -> (copy: Self)
        ensures
            copy@ == self@,
    {
        Cell {
            character: self.character.clone(),
            zerowidth: self.zerowidth.clone(),
            style: self.style,
            foreground: self.foreground,
            background: self.background,
            hyperlink: match &self.hyperlink {
                Some(h) => Some(h.clone()),
                None => None,
            },
        }
    }
}

/// What a list of cells holds.
pub open spec fn cell_models(cells: Seq<Cell>) -> Seq<CellModel> {
    cells.map_values(|c: Cell| c@)
}

/// A copy of a list of cells.
pub fn copy_cells(cells: &Vec<Cell>) -> (copy: Vec<Cell>)
    ensures
        cell_models(copy@) == cell_models(cells@),
{
    let mut copy: Vec<Cell> = Vec::new();
    let mut i: usize = 0;
    while i < cells.len()
        invariant
            i <= cells.len(),
            cell_models(copy@) == cell_models(cells@).take(i as int),
        decreases cells.len() - i,
    {
        let cell: Cell = cells[i].clone();
        proof {
            assert(cell_models(copy@.push(cell)) =~= cell_models(copy@).push(cell@));
            assert(cell_models(cells@).take(i + 1) =~= cell_models(cells@).take(i as int).push(
                cells@[i as int]@,
            ));
        }
        copy.push(cell);
        i = i + 1;
    }
    assert(cell_models(cells@).take(i as int) =~= cell_models(cells@));
    copy
}

/// A row of a screen that changed.
#[derive(Debug)]
pub struct RowChange {
    /// The number of the row, from 0.
    pub row: u32,
    pub cells: Vec<Cell>,
}

/// What a changed row holds.
#[verifier::ext_equal]
pub struct RowModel {
    pub row: u32,
    pub cells: Seq<CellModel>,
}

impl View for RowChange {
    type V = RowModel;

    open spec fn view(&self) -> RowModel {
        RowModel { row: self.row, cells: cell_models(self.cells@) }
    }
}

impl Clone for RowChange {
    fn clone(&self) -> (copy: Self)
        ensures
            copy@ == self@,
    {
        RowChange { row: self.row, cells: copy_cells(&self.cells) }
    }
}

/// What a list of changed rows holds.
pub open spec fn row_models(rows: Seq<RowChange>) -> Seq<RowModel> {
    rows.map_values(|r: RowChange| r@)
}

/// The rows of a screen that changed.
#[derive(Debug)]
pub struct GridDiff {
    pub rows: Vec<RowChange>,
}

impl View for GridDiff {
    type V = Seq<RowModel>;

    open spec fn view(&self) -> Seq<RowModel> {
        row_models(self.rows@)
    }
}

impl Default for GridDiff {
    fn default() -> (diff: Self)
        ensures
            diff@ == Seq::<RowModel>::empty(),
    {
        let rows: Vec<RowChange> = Vec::new();
        assert(row_models(rows@) =~= Seq::<RowModel>::empty());
        GridDiff { rows }
    }
}

impl Clone for GridDiff {
    fn clone(&self) -> (copy: Self)
        ensures
            copy@ == self@,
    {
        let mut rows: Vec<RowChange> = Vec::new();
        let mut i: usize = 0;
        while i < self.rows.len()
            invariant
                i <= self.rows.len(),
                row_models(rows@) == self@.take(i as int),
            decreases self.rows.len() - i,
        {
            let row: RowChange = self.rows[i].clone();
            proof {
                assert(row_models(rows@.push(row)) =~= row_models(rows@).push(row@));
                assert(self@.take(i + 1) =~= self@.take(i as int).push(self.rows@[i as int]@));
            }
            rows.push(row);
            i = i + 1;
        }
        assert(self@.take(i as int) =~= self@);
        GridDiff { rows }
    }
}

/// The shape of a cursor.
#[derive(Clone, Copy, Debug, PartialEq, Eq, Structural)]
pub enum CursorShape {
    Block,
    Bar,
    Underline,
    HollowBlock,
    Hidden,
}

impl Default for CursorShape {
    fn default() -> (shape: Self)
        ensures
            shape == CursorShape::Block,
    {
        CursorShape::Block
    }
}

/// Where a cursor is and how it looks.
#[derive(Clone, Copy, Debug, PartialEq, Eq, Structural)]
pub struct CursorState {
    pub col: u32,
    pub row: u32,
    pub style: CursorShape,
    pub visible: bool,
    pub blinking: bool,
}

/// Everything a client needs to draw a screen.
#[derive(Debug)]
pub struct FullGridSnapshot {
    pub cols: u32,
    pub rows: u32,
    /// The cells of the screen, row by row.
    pub cells: Vec<Cell>,
    pub cursor: CursorState,
    pub alternate_screen: bool,
    pub display_offset: usize,
    pub history_size: usize,
    pub history_version: u64,
    pub modes: u32,
}

/// What a snapshot holds.
pub struct SnapshotModel {
    pub cols: u32,
    pub rows: u32,
    pub cells: Seq<CellModel>,
    pub cursor: CursorState,
    pub alternate_screen: bool,
    pub display_offset: usize,
    pub history_size: usize,
    pub history_version: u64,
    pub modes: u32,
}

impl View for FullGridSnapshot {
    type V = SnapshotModel;

    open spec fn view(&self) -> SnapshotModel {
        SnapshotModel {
            cols: self.cols,
            rows: self.rows,
            cells: cell_models(self.cells@),
            cursor: self.cursor,
            alternate_screen: self.alternate_screen,
            display_offset: self.display_offset,
            history_size: self.history_size,
            history_version: self.history_version,
            modes: self.modes,
        }
    }
}

impl Clone for FullGridSnapshot {
    fn clone(&self) -> (copy: Self)
        ensures
            copy@ == self@,
    {
        FullGridSnapshot {
            cols: self.cols,
            rows: self.rows,
            cells: copy_cells(&self.cells),
            cursor: self.cursor,
            alternate_screen: self.alternate_screen,
            display_offset: self.display_offset,
            history_size: self.history_size,
            history_version: self.history_version,
            modes: self.modes,
        }
    }
}

/// The snapshot of a screen on which nothing was written; `show_cursor` is the
/// mode bit that says that the cursor is shown.
pub fn build_empty_snapshot(cols: u32, rows: u32, show_cursor: u32) -> (snapshot: FullGridSnapshot)
    requires
        cols * rows <= usize::MAX,
    ensures
        snapshot@ == (SnapshotModel {
            cols,
            rows,
            cells: Seq::new((cols * rows) as nat, |i: int| empty_cell()),
            cursor: CursorState {
                col: 0,
                row: 0,
                style: CursorShape::Block,
                visible: true,
                blinking: false,
            },
            alternate_screen: false,
            display_offset: 0,
            history_size: 0,
            history_version: 0,
            modes: show_cursor,
        }),
{
    let count: usize = cols as usize * rows as usize;
    let mut cells: Vec<Cell> = Vec::new();
    while cells.len() < count
        invariant
            cells.len() <= count,
            forall|i: int| 0 <= i < cells.len() ==> (#[trigger] cells@[i])@ == empty_cell(),
        decreases count - cells.len(),
    {
        cells.push(Cell::default());
    }
    assert(cell_models(cells@) =~= Seq::new((cols * rows) as nat, |i: int| empty_cell()));
    FullGridSnapshot {
        cols,
        rows,
        cells,
        cursor: CursorState {
            col: 0,
            row: 0,
            style: CursorShape::Block,
            visible: true,
            blinking: false,
        },
        alternate_screen: false,
        display_offset: 0,
        history_size: 0,
        history_version: 0,
        modes: show_cursor,
    }
}

/// A change of the screen and the generation that it led to.
#[derive(Debug)]
struct DiffEntry {
    generation: u64,
    diff: GridDiff,
    /// Something changed that rows cannot say.
    requires_full_snapshot: bool,
}

/// What an entry of the ring holds.
pub struct RingEntry {
    pub generation: u64,
    pub rows: Seq<RowModel>,
    pub requires_full_snapshot: bool,
}

/// The latest changes of a screen.
#[derive(Debug)]
pub struct GridDiffRing {
    entries: VecDeque<DiffEntry>,
    capacity: usize,
}

/// What the ring holds.
#[verifier::ext_equal]
pub struct RingModel {
    pub entries: Seq<RingEntry>,
    pub capacity: nat,
}

impl View for GridDiffRing {
    type V = RingModel;

    closed spec fn view(&self) -> RingModel {
        RingModel {
            entries: self.entries@.map_values(
                |e: DiffEntry|
                    RingEntry {
                        generation: e.generation,
                        rows: e.diff@,
                        requires_full_snapshot: e.requires_full_snapshot,
                    },
            ),
            capacity: self.capacity as nat,
        }
    }
}

/// What a client is sent.
#[derive(Debug)]
pub enum GridUpdate {
    /// The rows that changed since a generation.
    Diff { from_generation: u64, to_generation: u64, diff: GridDiff },
    /// The whole screen.
    FullSnapshot { to_generation: u64, snapshot: FullGridSnapshot },
    /// The client is up to date.
    NoChange(u64),
}

/// What a client is owed.
#[verifier::ext_equal]
pub enum Fetched {
    NoChange,
    Full,
    Rows(Seq<RowModel>),
}

/// The place of the first change of a row in a list, or its length.
pub open spec fn first_change(rows: Seq<RowModel>, row: u32) -> int
    decreases rows.len(),
{
    if rows.len() == 0 {
        0
    } else {
        let before = first_change(rows.drop_last(), row);
        if before < rows.len() - 1 {
            before
        } else if rows.last().row == row {
            rows.len() - 1
        } else {
            rows.len() as int
        }
    }
}

/// A list of changed rows with one more change: a row that is in it gets its
/// new cells, another one comes last.
pub open spec fn with_change(rows: Seq<RowModel>, change: RowModel) -> Seq<RowModel> {
    let k = first_change(rows, change.row);
    if k < rows.len() {
        rows.update(k, RowModel { row: rows[k].row, cells: change.cells })
    } else {
        rows.push(change)
    }
}

/// The changes of a list on top of another one.
pub open spec fn with_changes(rows: Seq<RowModel>, changes: Seq<RowModel>) -> Seq<RowModel>
    decreases changes.len(),
{
    if changes.len() == 0 {
        rows
    } else {
        with_change(with_changes(rows, changes.drop_last()), changes.last())
    }
}

/// The rows that changed in the entries after a generation, each with the
/// cells of its latest change.
pub open spec fn merged(entries: Seq<RingEntry>, since: u64) -> Seq<RowModel>
    decreases entries.len(),
{
    if entries.len() == 0 {
        Seq::empty()
    } else {
        let before = merged(entries.drop_last(), since);
        if entries.last().generation > since {
            with_changes(before, entries.last().rows)
        } else {
            before
        }
    }
}

/// Whether an entry after a generation says something that rows cannot.
pub open spec fn needs_snapshot(entries: Seq<RingEntry>, since: u64) -> bool {
    exists|i: int|
        0 <= i < entries.len() && (#[trigger] entries[i]).generation > since
            && entries[i].requires_full_snapshot
}

/// What a client that has a generation is owed: the changed rows where the
/// ring still has every change since and rows can say them all.
pub open spec fn fetched(ring: RingModel, since: u64, current: u64) -> Fetched {
    if since == 0 {
        Fetched::Full
    } else if since == current {
        Fetched::NoChange
    } else if since > current {
        Fetched::Full
    } else if ring.entries.len() == 0 || since + 1 < ring.entries[0].generation {
        Fetched::Full
    } else if needs_snapshot(ring.entries, since) {
        Fetched::Full
    } else {
        Fetched::Rows(merged(ring.entries, since))
    }
}

/// The ring with one more entry: the oldest ones leave where it is full.
pub open spec fn ring_with(ring: RingModel, entry: RingEntry) -> RingModel {
    let all = ring.entries.push(entry);
    RingModel {
        entries: if all.len() > ring.capacity {
            all.skip(all.len() - ring.capacity)
        } else {
            all
        },
        capacity: ring.capacity,
    }
}

proof fn lemma_first_change(rows: Seq<RowModel>, row: u32, k: int)
    requires
        0 <= k <= rows.len(),
        k < rows.len() ==> rows[k].row == row,
        forall|j: int| 0 <= j < k ==> (#[trigger] rows[j]).row != row,
    ensures
        first_change(rows, row) == k,
    decreases rows.len(),
{
    if rows.len() > 0 {
        let init = rows.drop_last();
        let m = if k < init.len() {
            k
        } else {
            init.len() as int
        };
        if k < init.len() {
            assert(init[k] == rows[k]);
        }
        assert forall|j: int| 0 <= j < m implies (#[trigger] init[j]).row != row by {
            assert(init[j] == rows[j]);
        }
        lemma_first_change(init, row, m);
    }
}

/// Adds a change to a list of changed rows.
fn add_change(rows: &mut Vec<RowChange>, change: &RowChange)
    ensures
        row_models(final(rows)@) == with_change(row_models(old(rows)@), change@),
{
    let ghost before = row_models(rows@);
    let mut i: usize = 0;
    while i < rows.len()
        invariant
            i <= rows.len(),
            row_models(rows@) == before,
            rows@ == old(rows)@,
            forall|j: int| 0 <= j < i ==> (#[trigger] before[j]).row != change.row,
        decreases rows.len() - i,
    {
        assert(before[i as int] == rows@[i as int]@);
        if rows[i].row == change.row {
            proof {
                lemma_first_change(before, change.row, i as int);
            }
            rows[i].cells = copy_cells(&change.cells);
            assert(row_models(rows@) =~= with_change(before, change@));
            return;
        }
        i = i + 1;
    }
    proof {
        lemma_first_change(before, change.row, i as int);
    }
    rows.push(change.clone());
    assert(row_models(rows@) =~= with_change(before, change@));
}

impl GridDiffRing {
    /// A ring that keeps as many entries as its capacity says.
    pub fn new(capacity: usize) -> (ring: Self)
        ensures
            ring@ == (RingModel { entries: Seq::empty(), capacity: capacity as nat }),
    {
        let ring = GridDiffRing { entries: VecDeque::new(), capacity };
        assert(ring@.entries =~= Seq::<RingEntry>::empty());
        ring
    }

    /// Adds a generation that its rows say all of.
    pub fn push(&mut self, generation: u64, diff: GridDiff)
        ensures
            final(self)@ == ring_with(
                old(self)@,
                (RingEntry { generation, rows: diff@, requires_full_snapshot: false }),
            ),
    {
        self.push_entry(generation, diff, false);
    }

    /// Adds a generation that its rows do not say all of.
    pub fn push_requiring_full_snapshot(&mut self, generation: u64, diff: GridDiff)
        ensures
            final(self)@ == ring_with(
                old(self)@,
                (RingEntry { generation, rows: diff@, requires_full_snapshot: true }),
            ),
    {
        self.push_entry(generation, diff, true);
    }

    /// Adds a generation.
    pub fn push_entry(&mut self, generation: u64, diff: GridDiff, requires_full_snapshot: bool)
        ensures
            final(self)@ == ring_with(
                old(self)@,
                (RingEntry { generation, rows: diff@, requires_full_snapshot }),
            ),
    {
        self.entries.push_back(DiffEntry { generation, diff, requires_full_snapshot });
        let ghost all = self.entries@;
        proof {
            assert(self@.entries =~= old(self)@.entries.push(
                RingEntry { generation, rows: diff@, requires_full_snapshot },
            ));
        }
        let ghost whole = self@.entries;
        while self.entries.len() > self.capacity
            invariant
                self.capacity == old(self).capacity,
                self.entries@.len() <= all.len(),
                self.entries@ == all.skip(all.len() - self.entries@.len()),
                all.len() > self.capacity ==> self.entries@.len() >= self.capacity,
                all.len() <= self.capacity ==> self.entries@ == all,
            decreases self.entries@.len(),
        {
            let _ = self.entries.pop_front();
            assert(self.entries@ =~= all.skip(all.len() - self.entries@.len()));
        }
        proof {
            if all.len() > self.capacity {
                assert(self@.entries =~= whole.skip(whole.len() - self.capacity));
            } else {
                assert(self@.entries =~= whole);
            }
        }
    }

    /// Decides what a client that has a generation is sent. The snapshot is
    /// taken where the rows of the ring do not do.
    pub fn fetch_update<F: Fn() -> FullGridSnapshot>(
        &self,
        since_generation: u64,
        current: u64,
        full_snapshot: F,
    ) -> (update: GridUpdate)
        requires
            full_snapshot.requires(()),
        ensures
            match fetched(self@, since_generation, current) {
                Fetched::NoChange => update == GridUpdate::NoChange(current),
                Fetched::Full => update matches GridUpdate::FullSnapshot { to_generation, snapshot }
                    && to_generation == current && full_snapshot.ensures((), snapshot),
                Fetched::Rows(rows) => update matches GridUpdate::Diff {
                    from_generation,
                    to_generation,
                    diff,
                } && from_generation == since_generation && to_generation == current && diff@
                    == rows,
            },
    {
        if since_generation == 0 {
            return GridUpdate::FullSnapshot { to_generation: current, snapshot: full_snapshot() };
        }
        if since_generation == current {
            return GridUpdate::NoChange(current);
        }
        if since_generation > current {
            return GridUpdate::FullSnapshot { to_generation: current, snapshot: full_snapshot() };
        }
        let ghost entries = self@.entries;
        if self.entries.len() == 0 {
            return GridUpdate::FullSnapshot { to_generation: current, snapshot: full_snapshot() };
        }
        assert(entries[0].generation == self.entries@[0].generation);
        if since_generation + 1 < self.entries[0].generation {
            return GridUpdate::FullSnapshot { to_generation: current, snapshot: full_snapshot() };
        }
        let mut i: usize = 0;
        while i < self.entries.len()
            invariant
                i <= self.entries@.len(),
                entries == self@.entries,
                0 < since_generation < current,
                full_snapshot.requires(()),
                entries.len() > 0,
                since_generation + 1 >= entries[0].generation,
                forall|j: int|
                    0 <= j < i ==> !((#[trigger] entries[j]).generation > since_generation
                        && entries[j].requires_full_snapshot),
            decreases self.entries@.len() - i,
        {
            assert(entries[i as int].generation == self.entries@[i as int].generation);
            if self.entries[i].generation > since_generation
                && self.entries[i].requires_full_snapshot {
                return GridUpdate::FullSnapshot {
                    to_generation: current,
                    snapshot: full_snapshot(),
                };
            }
            i = i + 1;
        }
        let mut diff = GridDiff::default();
        let mut k: usize = 0;
        while k < self.entries.len()
            invariant
                k <= self.entries@.len(),
                entries == self@.entries,
                diff@ == merged(entries.take(k as int), since_generation),
            decreases self.entries@.len() - k,
        {
            let entry = &self.entries[k];
            proof {
                assert(entries.take(k + 1).drop_last() =~= entries.take(k as int));
                assert(entries.take(k + 1).last() == entries[k as int]);
            }
            if entry.generation > since_generation {
                let ghost before = diff@;
                let ghost changes = entry.diff@;
                let mut r: usize = 0;
                while r < entry.diff.rows.len()
                    invariant
                        r <= entry.diff.rows.len(),
                        changes == entry.diff@,
                        diff@ == with_changes(before, changes.take(r as int)),
                    decreases entry.diff.rows.len() - r,
                {
                    proof {
                        assert(changes.take(r + 1).drop_last() =~= changes.take(r as int));
                        assert(changes.take(r + 1).last() == entry.diff.rows@[r as int]@);
                    }
                    add_change(&mut diff.rows, &entry.diff.rows[r]);
                    r = r + 1;
                }
                assert(changes.take(r as int) =~= changes);
            }
            k = k + 1;
        }
        assert(entries.take(k as int) =~= entries);
        GridUpdate::Diff { from_generation: since_generation, to_generation: current, diff }
    }

    /// The number of entries.
    pub fn len(&self) -> (count: usize)
        ensures
            count == self@.entries.len(),
    {
        self.entries.len()
    }

    /// Whether there are no entries.
    pub fn is_empty(&self) -> (empty: bool)
        ensures
            empty == (self@.entries.len() == 0),
    {
        self.entries.len() == 0
    }
}

/// A screen, by row, after a list of changes.
pub open spec fn replayed(
    screen: Map<u32, Seq<CellModel>>,
    rows: Seq<RowModel>,
) -> Map<u32, Seq<CellModel>>
    decreases rows.len(),
{
    if rows.len() == 0 {
        screen
    } else {
        replayed(screen, rows.drop_last()).insert(rows.last().row, rows.last().cells)
    }
}

/// Whether no row is in a list twice.
pub open spec fn distinct_rows(rows: Seq<RowModel>) -> bool {
    forall|i: int, j: int|
        0 <= i < j < rows.len() ==> (#[trigger] rows[i]).row != (#[trigger] rows[j]).row
}

proof fn lemma_first_change_bounds(rows: Seq<RowModel>, row: u32)
    ensures
        0 <= first_change(rows, row) <= rows.len(),
        first_change(rows, row) < rows.len() ==> rows[first_change(rows, row)].row == row,
        forall|j: int| 0 <= j < first_change(rows, row) ==> (#[trigger] rows[j]).row != row,
    decreases rows.len(),
{
    if rows.len() > 0 {
        let init = rows.drop_last();
        lemma_first_change_bounds(init, row);
        let k = first_change(init, row);
        if k < init.len() {
            assert(init[k] == rows[k]);
        }
        assert forall|j: int| 0 <= j < first_change(rows, row) implies (#[trigger] rows[j]).row
            != row by {
            if j < init.len() {
                assert(init[j] == rows[j]);
            }
        }
    }
}

/// What a row holds after changes in which it occurs at most once.
proof fn lemma_replayed_at(screen: Map<u32, Seq<CellModel>>, rows: Seq<RowModel>, row: u32)
    requires
        distinct_rows(rows),
    ensures
        ({
            let k = first_change(rows, row);
            let after = replayed(screen, rows);
            &&& k < rows.len() ==> after.contains_key(row) && after[row] == rows[k].cells
            &&& k == rows.len() ==> after.contains_key(row) == screen.contains_key(row)
                && after[row] == screen[row]
        }),
    decreases rows.len(),
{
    lemma_first_change_bounds(rows, row);
    if rows.len() > 0 {
        let init = rows.drop_last();
        assert(distinct_rows(init)) by {
            assert forall|i: int, j: int| 0 <= i < j < init.len() implies (#[trigger] init[i]).row
                != (#[trigger] init[j]).row by {
                assert(init[i] == rows[i] && init[j] == rows[j]);
            }
        }
        lemma_replayed_at(screen, init, row);
        lemma_first_change_bounds(init, row);
        let k = first_change(init, row);
        if k < init.len() {
            assert(rows[k].row == row && rows[k] == init[k]);
            assert(rows[k].row != rows[rows.len() - 1].row);
        }
    }
}

proof fn lemma_with_change_replays(
    screen: Map<u32, Seq<CellModel>>,
    rows: Seq<RowModel>,
    change: RowModel,
)
    requires
        distinct_rows(rows),
    ensures
        distinct_rows(with_change(rows, change)),
        replayed(screen, with_change(rows, change)) == replayed(screen, rows).insert(
            change.row,
            change.cells,
        ),
{
    let k = first_change(rows, change.row);
    lemma_first_change_bounds(rows, change.row);
    let after = with_change(rows, change);
    if k < rows.len() {
        assert(distinct_rows(after)) by {
            assert forall|i: int, j: int| 0 <= i < j < after.len() implies (#[trigger] after[i]).row
                != (#[trigger] after[j]).row by {
                assert(after[i].row == rows[i].row && after[j].row == rows[j].row);
            }
        }
        let left = replayed(screen, after);
        let right = replayed(screen, rows).insert(change.row, change.cells);
        assert forall|row: u32|
            #![trigger left.dom().contains(row)]
            #![trigger left[row]]
            left.dom().contains(row) == right.dom().contains(row) && left[row] == right[row] by {
            lemma_replayed_at(screen, after, row);
            lemma_replayed_at(screen, rows, row);
            lemma_first_change_bounds(rows, row);
            let w = first_change(rows, row);
            assert forall|j: int| 0 <= j < w implies (#[trigger] after[j]).row != row by {
                assert(after[j].row == rows[j].row);
            }
            if w < rows.len() {
                assert(after[w].row == row);
                if row != change.row {
                    assert(w != k);
                    assert(after[w] == rows[w]);
                } else {
                    assert(w == k) by {
                        lemma_first_change(rows, row, w);
                    }
                }
            }
            lemma_first_change(after, row, w);
        }
        assert(left =~= right);
    } else {
        assert(distinct_rows(after)) by {
            assert forall|i: int, j: int| 0 <= i < j < after.len() implies (#[trigger] after[i]).row
                != (#[trigger] after[j]).row by {
                assert(after[i] == rows[i]);
                if j < rows.len() {
                    assert(after[j] == rows[j]);
                }
            }
        }
        assert(after.drop_last() =~= rows);
    }
}

proof fn lemma_with_changes_replays(
    screen: Map<u32, Seq<CellModel>>,
    rows: Seq<RowModel>,
    changes: Seq<RowModel>,
)
    requires
        distinct_rows(rows),
    ensures
        distinct_rows(with_changes(rows, changes)),
        replayed(screen, with_changes(rows, changes)) == replayed(
            replayed(screen, rows),
            changes,
        ),
    decreases changes.len(),
{
    if changes.len() > 0 {
        lemma_with_changes_replays(screen, rows, changes.drop_last());
        lemma_with_change_replays(
            screen,
            with_changes(rows, changes.drop_last()),
            changes.last(),
        );
    }
}

/// Whether the entries of a ring lead, one after the other, up to a
/// generation, and from each screen to the next wherever rows can say it.
pub open spec fn leads(
    entries: Seq<RingEntry>,
    current: u64,
    screens: Map<u64, Map<u32, Seq<CellModel>>>,
) -> bool {
    forall|i: int|
        0 <= i < entries.len() ==> {
            &&& (#[trigger] entries[i]).generation == current - (entries.len() - 1 - i)
            &&& entries[i].generation > 0
            &&& !entries[i].requires_full_snapshot ==> screens[entries[i].generation] == replayed(
                screens[(entries[i].generation - 1) as u64],
                entries[i].rows,
            )
        }
}

proof fn lemma_merged_catches_up(
    entries: Seq<RingEntry>,
    since: u64,
    current: u64,
    screens: Map<u64, Map<u32, Seq<CellModel>>>,
)
    requires
        leads(entries, current, screens),
        since <= current,
        current - since <= entries.len(),
        !needs_snapshot(entries, since),
    ensures
        distinct_rows(merged(entries, since)),
        replayed(screens[since], merged(entries, since)) == screens[current],
    decreases entries.len(),
{
    if entries.len() == 0 {
    } else if since == current {
        lemma_merged_of_old(entries, since);
    } else {
        let init = entries.drop_last();
        let before = (current - 1) as u64;
        let last = entries.last();
        assert(last == entries[entries.len() - 1]);
        assert(last.generation == current);
        assert forall|i: int| 0 <= i < init.len() implies {
            &&& (#[trigger] init[i]).generation == before - (init.len() - 1 - i)
            &&& init[i].generation > 0
            &&& !init[i].requires_full_snapshot ==> screens[init[i].generation] == replayed(
                screens[(init[i].generation - 1) as u64],
                init[i].rows,
            )
        } by {
            assert(init[i] == entries[i]);
        }
        assert(!needs_snapshot(init, since)) by {
            if needs_snapshot(init, since) {
                let i = choose|i: int|
                    0 <= i < init.len() && (#[trigger] init[i]).generation > since
                        && init[i].requires_full_snapshot;
                assert(entries[i] == init[i]);
            }
        }
        lemma_merged_catches_up(init, since, before, screens);
        lemma_with_changes_replays(screens[since], merged(init, since), last.rows);
    }
}

proof fn lemma_merged_of_old(entries: Seq<RingEntry>, since: u64)
    requires
        forall|i: int| 0 <= i < entries.len() ==> (#[trigger] entries[i]).generation <= since,
    ensures
        merged(entries, since) == Seq::<RowModel>::empty(),
    decreases entries.len(),
{
    if entries.len() > 0 {
        let init = entries.drop_last();
        assert forall|i: int| 0 <= i < init.len() implies (#[trigger] init[i]).generation
            <= since by {
            assert(init[i] == entries[i]);
        }
        assert(entries.last() == entries[entries.len() - 1]);
        lemma_merged_of_old(init, since);
    }
}

/// A client that draws the rows it is sent over the screen that it has gets
/// the current screen, wherever the ring holds one entry per generation up to
/// the current one.
pub proof fn law_rows_bring_a_client_up_to_date(
    ring: RingModel,
    since: u64,
    current: u64,
    screens: Map<u64, Map<u32, Seq<CellModel>>>,
)
    requires
        leads(ring.entries, current, screens),
    ensures
        fetched(ring, since, current) matches Fetched::Rows(rows) ==> replayed(screens[since], rows)
            == screens[current],
{
    if fetched(ring, since, current) is Rows {
        assert(ring.entries[0].generation == current - (ring.entries.len() - 1));
        lemma_merged_catches_up(ring.entries, since, current, screens);
    }
}

/// A client is never sent rows where something changed since that rows cannot
/// say, nor where an entry that it needs has left the ring.
pub proof fn law_rows_are_sent_only_where_they_say_all(ring: RingModel, since: u64, current: u64)
    ensures
        fetched(ring, since, current) is Rows ==> !needs_snapshot(ring.entries, since) && 0 < since
            < current && ring.entries.len() > 0 && ring.entries[0].generation <= since + 1,
{
}

/// The ring keeps the latest entries, as many as its capacity says.
pub proof fn law_ring_keeps_the_latest(ring: RingModel, entry: RingEntry)
    requires
        ring.entries.len() <= ring.capacity,
    ensures
        ring_with(ring, entry).entries.len() == if ring.entries.len() < ring.capacity {
            (ring.entries.len() + 1) as int
        } else {
            ring.capacity as int
        },
        ring.capacity > 0 ==> ring_with(ring, entry).entries.last() == entry,
        forall|i: int|
            0 <= i < ring_with(ring, entry).entries.len() - 1 ==> (
            #[trigger] ring_with(ring, entry).entries[i]) == ring.entries[i + ring.entries.len() + 1
                - ring_with(ring, entry).entries.len()],
{
}

/// What a client gets that asks for changes: nothing where it is up to date, a
/// screen where it has seen none, claims to be ahead, or is so far behind that
/// changes are missing or do not say all, and rows otherwise.
pub proof fn law_clients_get_what_they_lack(ring: RingModel, since: u64, current: u64)
    ensures
        fetched(ring, since, current) is NoChange <==> since == current && since != 0,
        fetched(ring, since, current) is Full <==> {
            ||| since == 0
            ||| since > current
            ||| since < current && (ring.entries.len() == 0 || since + 1
                < ring.entries[0].generation)
            ||| since < current && exists|i: int|
                0 <= i < ring.entries.len() && (#[trigger] ring.entries[i]).generation > since
                    && ring.entries[i].requires_full_snapshot
        },
{
}

} // verus!
