//! Cells and screens as they go over the wire.
use crate::grid_sync;
use crate::grid_sync::{
    Cell, CellModel, CursorShape, FullGridSnapshot, GridUpdate, Hyperlink, RowChange,
    SnapshotModel, UnderlineStyle,
};
use vstd::prelude::*;

verus! {

/// The number of a way of underlining.
pub open spec fn underline_number(style: UnderlineStyle) -> i32 {
    match style {
        UnderlineStyle::NotUnderlined => 1,
        UnderlineStyle::Single => 2,
        UnderlineStyle::Double => 3,
        UnderlineStyle::Curly => 4,
        UnderlineStyle::Dotted => 5,
        UnderlineStyle::Dashed => 6,
    }
}

/// The number of the shape of a cursor.
pub open spec fn cursor_number(shape: CursorShape) -> i32 {
    match shape {
        CursorShape::Block => 1,
        CursorShape::Bar => 2,
        CursorShape::Underline => 3,
        CursorShape::HollowBlock => 4,
        CursorShape::Hidden => 5,
    }
}

/// How a character is drawn, on the wire.
#[derive(Clone, Copy, Debug, PartialEq, Eq)]
pub struct WireStyle {
    pub bold: bool,
    pub italic: bool,
    pub underline: bool,
    pub strikethrough: bool,
    pub dim: bool,
    pub reverse: bool,
    pub underline_style: i32,
    pub underline_color: Option<u32>,
    pub wide_char: bool,
    pub wide_char_spacer: bool,
    pub leading_wide_char_spacer: bool,
    pub wrapline: bool,
    pub hidden: bool,
}

/// A cell on the wire.
#[derive(Debug)]
pub struct WireCell {
    pub character: String,
    pub style: WireStyle,
    pub foreground: u32,
    pub background: u32,
    pub zerowidth: String,
    pub hyperlink: Option<Hyperlink>,
}

/// A cell on the wire.
pub struct WireCellModel {
    pub character: Seq<char>,
    pub style: WireStyle,
    pub foreground: u32,
    pub background: u32,
    pub zerowidth: Seq<char>,
    pub hyperlink: Option<(Seq<char>, Seq<char>)>,
}

impl View for WireCell {
    type V = WireCellModel;

    open spec fn view(&self) -> WireCellModel {
        WireCellModel {
            character: self.character@,
            style: self.style,
            foreground: self.foreground,
            background: self.background,
            zerowidth: self.zerowidth@,
            hyperlink: grid_sync::link(self.hyperlink),
        }
    }
}

/// A cell as it goes over the wire.
pub open spec fn cell_on_wire(cell: CellModel) -> WireCellModel {
    WireCellModel {
        character: cell.character,
        style: WireStyle {
            bold: cell.style.bold,
            italic: cell.style.italic,
            underline: cell.style.underline != UnderlineStyle::NotUnderlined,
            strikethrough: cell.style.strikethrough,
            dim: cell.style.dim,
            reverse: cell.style.reverse,
            underline_style: underline_number(cell.style.underline),
            underline_color: cell.style.underline_color,
            wide_char: cell.style.wide_char,
            wide_char_spacer: cell.style.wide_char_spacer,
            leading_wide_char_spacer: cell.style.leading_wide_char_spacer,
            wrapline: cell.style.wrapline,
            hidden: cell.style.hidden,
        },
        foreground: cell.foreground,
        background: cell.background,
        zerowidth: cell.zerowidth,
        hyperlink: cell.hyperlink,
    }
}

/// Puts a cell on the wire.
pub fn grid_cell_to_wire(cell: &Cell) -> (wire: WireCell)
    ensures
        wire@ == cell_on_wire(cell@),
{
    let underline_style: i32 = match cell.style.underline {
        UnderlineStyle::NotUnderlined => 1,
        UnderlineStyle::Single => 2,
        UnderlineStyle::Double => 3,
        UnderlineStyle::Curly => 4,
        UnderlineStyle::Dotted => 5,
        UnderlineStyle::Dashed => 6,
    };
    WireCell {
        character: cell.character.clone(),
        style: WireStyle {
            bold: cell.style.bold,
            italic: cell.style.italic,
            underline: cell.style.underline != UnderlineStyle::NotUnderlined,
            strikethrough: cell.style.strikethrough,
            dim: cell.style.dim,
            reverse: cell.style.reverse,
            underline_style,
            underline_color: cell.style.underline_color,
            wide_char: cell.style.wide_char,
            wide_char_spacer: cell.style.wide_char_spacer,
            leading_wide_char_spacer: cell.style.leading_wide_char_spacer,
            wrapline: cell.style.wrapline,
            hidden: cell.style.hidden,
        },
        foreground: cell.foreground,
        background: cell.background,
        zerowidth: cell.zerowidth.clone(),
        hyperlink: match &cell.hyperlink {
            Some(h) => Some(h.clone()),
            None => None,
        },
    }
}

/// Two cells that look the same on the wire are the same.
pub proof fn law_wire_keeps_cells(a: CellModel, b: CellModel)
    requires
        cell_on_wire(a) == cell_on_wire(b),
    ensures
        a == b,
{
    assert(underline_number(a.style.underline) == underline_number(b.style.underline));
    assert(a.style.underline == b.style.underline);
    assert(cell_on_wire(a).style == cell_on_wire(b).style);
}

/// Each part of a cell is the part of the same name on the wire; the way of
/// underlining goes as its number, with a flag for whether there is any.
pub proof fn law_parts_of_cells_keep_their_names(cell: Cell, wire: WireCell)
    requires
        wire@ == cell_on_wire(cell@),
    ensures
        wire.character@ == cell.character@,
        wire.zerowidth@ == cell.zerowidth@,
        wire.foreground == cell.foreground,
        wire.background == cell.background,
        match cell.hyperlink {
            Some(link) => wire.hyperlink matches Some(sent) && sent.id@ == link.id@ && sent.uri@
                == link.uri@,
            None => wire.hyperlink is None,
        },
        wire.style.bold == cell.style.bold,
        wire.style.italic == cell.style.italic,
        wire.style.strikethrough == cell.style.strikethrough,
        wire.style.dim == cell.style.dim,
        wire.style.reverse == cell.style.reverse,
        wire.style.hidden == cell.style.hidden,
        wire.style.wide_char == cell.style.wide_char,
        wire.style.wide_char_spacer == cell.style.wide_char_spacer,
        wire.style.leading_wide_char_spacer == cell.style.leading_wide_char_spacer,
        wire.style.wrapline == cell.style.wrapline,
        wire.style.underline_color == cell.style.underline_color,
        wire.style.underline <==> !(cell.style.underline is NotUnderlined),
        cell.style.underline is NotUnderlined <==> wire.style.underline_style == 1,
        cell.style.underline is Single <==> wire.style.underline_style == 2,
        cell.style.underline is Double <==> wire.style.underline_style == 3,
        cell.style.underline is Curly <==> wire.style.underline_style == 4,
        cell.style.underline is Dotted <==> wire.style.underline_style == 5,
        cell.style.underline is Dashed <==> wire.style.underline_style == 6,
{
    assert(wire@.style == cell_on_wire(cell@).style);
    assert(wire@.hyperlink == cell_on_wire(cell@).hyperlink);
}

/// A list of cells as they go over the wire.
pub open spec fn cells_on_wire(cells: Seq<CellModel>) -> Seq<WireCellModel> {
    cells.map_values(|c: CellModel| cell_on_wire(c))
}

/// What a list of cells on the wire holds.
pub open spec fn wire_cells(cells: Seq<WireCell>) -> Seq<WireCellModel> {
    cells.map_values(|c: WireCell| c@)
}

/// Puts a list of cells on the wire.
pub fn grid_cells_to_wire(cells: &Vec<Cell>) -> (wire: Vec<WireCell>)
    ensures
        wire_cells(wire@) == cells_on_wire(grid_sync::cell_models(cells@)),
{
    let mut wire: Vec<WireCell> = Vec::new();
    let mut i: usize = 0;
    let ghost all = cells_on_wire(grid_sync::cell_models(cells@));
    while i < cells.len()
        invariant
            i <= cells.len(),
            all == cells_on_wire(grid_sync::cell_models(cells@)),
            wire_cells(wire@) == all.take(i as int),
        decreases cells.len() - i,
    {
        let cell: WireCell = grid_cell_to_wire(&cells[i]);
        let ghost before = wire@;
        wire.push(cell);
        proof {
            assert(all[i as int] == cell_on_wire(cells@[i as int]@));
            assert(wire_cells(wire@) =~= wire_cells(before).push(cell@));
            assert(all.take(i + 1) =~= all.take(i as int).push(all[i as int]));
        }
        i = i + 1;
    }
    assert(all.take(i as int) =~= all);
    wire
}

/// A changed row on the wire.
#[derive(Debug)]
pub struct WireRow {
    pub row: u32,
    pub cells: Vec<WireCell>,
}

/// A changed row on the wire.
pub struct WireRowModel {
    pub row: u32,
    pub cells: Seq<WireCellModel>,
}

impl View for WireRow {
    type V = WireRowModel;

    open spec fn view(&self) -> WireRowModel {
        WireRowModel { row: self.row, cells: wire_cells(self.cells@) }
    }
}

/// What a list of rows on the wire holds.
pub open spec fn wire_rows(rows: Seq<WireRow>) -> Seq<WireRowModel> {
    rows.map_values(|r: WireRow| r@)
}

/// Changed rows as they go over the wire.
pub open spec fn rows_on_wire(rows: Seq<grid_sync::RowModel>) -> Seq<WireRowModel> {
    rows.map_values(
        |r: grid_sync::RowModel| WireRowModel { row: r.row, cells: cells_on_wire(r.cells) },
    )
}

/// Puts changed rows on the wire.
pub fn rows_to_wire(rows: &Vec<RowChange>) -> (wire: Vec<WireRow>)
    ensures
        wire_rows(wire@) == rows_on_wire(grid_sync::row_models(rows@)),
{
    let mut wire: Vec<WireRow> = Vec::new();
    let mut i: usize = 0;
    let ghost all = rows_on_wire(grid_sync::row_models(rows@));
    while i < rows.len()
        invariant
            i <= rows.len(),
            all == rows_on_wire(grid_sync::row_models(rows@)),
            wire_rows(wire@) == all.take(i as int),
        decreases rows.len() - i,
    {
        let row = WireRow { row: rows[i].row, cells: grid_cells_to_wire(&rows[i].cells) };
        let ghost before = wire@;
        proof {
            assert(grid_sync::row_models(rows@)[i as int] == rows@[i as int]@);
            assert(all[i as int] == row@);
        }
        wire.push(row);
        proof {
            assert(wire_rows(wire@) =~= wire_rows(before).push(all[i as int]));
            assert(all.take(i + 1) =~= all.take(i as int).push(all[i as int]));
        }
        i = i + 1;
    }
    assert(all.take(i as int) =~= all);
    wire
}

/// A screen on the wire.
#[derive(Debug)]
pub struct WireSnapshot {
    pub cols: u32,
    pub rows: u32,
    pub cells: Vec<WireCell>,
    pub cursor_col: u32,
    pub cursor_row: u32,
    pub cursor_style: i32,
    pub cursor_visible: bool,
    pub cursor_blinking: bool,
    pub alternate_screen: bool,
    pub display_offset: u32,
    pub history_size: u32,
    pub history_version: u64,
    pub modes: u32,
}

/// A number, or the largest one that fits.
pub open spec fn fitted(n: usize) -> u32 {
    if n <= u32::MAX {
        n as u32
    } else {
        u32::MAX
    }
}

/// Whether this is how a screen goes over the wire.
pub open spec fn is_on_wire(wire: WireSnapshot, snapshot: SnapshotModel) -> bool {
    &&& wire.cols == snapshot.cols
    &&& wire.rows == snapshot.rows
    &&& wire_cells(wire.cells@) == cells_on_wire(snapshot.cells)
    &&& wire.cursor_col == snapshot.cursor.col
    &&& wire.cursor_row == snapshot.cursor.row
    &&& wire.cursor_style == cursor_number(snapshot.cursor.style)
    &&& wire.cursor_visible == snapshot.cursor.visible
    &&& wire.cursor_blinking == snapshot.cursor.blinking
    &&& wire.alternate_screen == snapshot.alternate_screen
    &&& wire.display_offset == fitted(snapshot.display_offset)
    &&& wire.history_size == fitted(snapshot.history_size)
    &&& wire.history_version == snapshot.history_version
    &&& wire.modes == snapshot.modes
}

fn fit(n: usize) -> (fit: u32)
    ensures
        fit == fitted(n),
{
    if n as u64 <= u32::MAX as u64 {
        n as u32
    } else {
        u32::MAX
    }
}

/// Puts a screen on the wire.
pub fn snapshot_to_wire(snapshot: &FullGridSnapshot) -> (wire: WireSnapshot)
    ensures
        is_on_wire(wire, snapshot@),
{
    let cursor_style: i32 = match snapshot.cursor.style {
        CursorShape::Block => 1,
        CursorShape::Bar => 2,
        CursorShape::Underline => 3,
        CursorShape::HollowBlock => 4,
        CursorShape::Hidden => 5,
    };
    WireSnapshot {
        cols: snapshot.cols,
        rows: snapshot.rows,
        cells: grid_cells_to_wire(&snapshot.cells),
        cursor_col: snapshot.cursor.col,
        cursor_row: snapshot.cursor.row,
        cursor_style,
        cursor_visible: snapshot.cursor.visible,
        cursor_blinking: snapshot.cursor.blinking,
        alternate_screen: snapshot.alternate_screen,
        display_offset: fit(snapshot.display_offset),
        history_size: fit(snapshot.history_size),
        history_version: snapshot.history_version,
        modes: snapshot.modes,
    }
}

/// The rows on the wire are the changed rows, under their numbers and in their
/// order, with each cell at its place.
pub proof fn law_rows_keep_their_numbers(rows: Seq<RowChange>, wire: Seq<WireRow>)
    requires
        wire_rows(wire) == rows_on_wire(grid_sync::row_models(rows)),
    ensures
        wire.len() == rows.len(),
        forall|i: int|
            0 <= i < rows.len() ==> (#[trigger] wire[i]).row == rows[i].row && wire[i].cells@.len()
                == rows[i].cells@.len(),
        forall|i: int, j: int|
            0 <= i < rows.len() && 0 <= j < rows[i].cells@.len() ==> (
            #[trigger] wire[i].cells@[j])@ == cell_on_wire(rows[i].cells@[j]@),
{
    let sent = wire_rows(wire);
    assert(sent.len() == wire.len());
    assert forall|i: int| 0 <= i < rows.len() implies {
        &&& (#[trigger] wire[i]).row == rows[i].row
        &&& wire[i].cells@.len() == rows[i].cells@.len()
        &&& forall|j: int|
            0 <= j < rows[i].cells@.len() ==> (#[trigger] wire[i].cells@[j])@ == cell_on_wire(
                rows[i].cells@[j]@,
            )
    } by {
        assert(sent[i] == wire[i]@);
        assert(grid_sync::row_models(rows)[i] == rows[i]@);
        law_cells_keep_their_places(rows[i].cells@, wire[i].cells@);
    }
}

/// The cells on the wire are the cells, in their order.
pub proof fn law_cells_keep_their_places(cells: Seq<Cell>, wire: Seq<WireCell>)
    requires
        wire_cells(wire) == cells_on_wire(grid_sync::cell_models(cells)),
    ensures
        wire.len() == cells.len(),
        forall|j: int|
            0 <= j < cells.len() ==> (#[trigger] wire[j])@ == cell_on_wire(cells[j]@),
{
    let sent = wire_cells(wire);
    assert(sent.len() == wire.len());
    assert forall|j: int| 0 <= j < cells.len() implies (#[trigger] wire[j])@ == cell_on_wire(
        cells[j]@,
    ) by {
        assert(sent[j] == wire[j]@);
        assert(grid_sync::cell_models(cells)[j] == cells[j]@);
    }
}

/// Each part of a screen is the part of the same name on the wire; the shape
/// of the cursor goes as its number, and sizes that do not fit as the largest
/// that does.
pub proof fn law_parts_of_screens_keep_their_names(screen: FullGridSnapshot, wire: WireSnapshot)
    requires
        is_on_wire(wire, screen@),
    ensures
        wire.cols == screen.cols,
        wire.rows == screen.rows,
        wire.cells@.len() == screen.cells@.len(),
        forall|j: int|
            0 <= j < screen.cells@.len() ==> (#[trigger] wire.cells@[j])@ == cell_on_wire(
                screen.cells@[j]@,
            ),
        wire.cursor_col == screen.cursor.col,
        wire.cursor_row == screen.cursor.row,
        wire.cursor_visible == screen.cursor.visible,
        wire.cursor_blinking == screen.cursor.blinking,
        screen.cursor.style is Block <==> wire.cursor_style == 1,
        screen.cursor.style is Bar <==> wire.cursor_style == 2,
        screen.cursor.style is Underline <==> wire.cursor_style == 3,
        screen.cursor.style is HollowBlock <==> wire.cursor_style == 4,
        screen.cursor.style is Hidden <==> wire.cursor_style == 5,
        wire.alternate_screen == screen.alternate_screen,
        screen.display_offset <= u32::MAX ==> wire.display_offset == screen.display_offset,
        screen.display_offset > u32::MAX ==> wire.display_offset == u32::MAX,
        screen.history_size <= u32::MAX ==> wire.history_size == screen.history_size,
        screen.history_size > u32::MAX ==> wire.history_size == u32::MAX,
        wire.history_version == screen.history_version,
        wire.modes == screen.modes,
{
    law_cells_keep_their_places(screen.cells@, wire.cells@);
}

/// What a client is answered that asks for the changes of a screen.
#[derive(Debug)]
pub enum WireUpdate {
    Rows(Vec<WireRow>),
    Snapshot(WireSnapshot),
    Nothing,
}

/// The answer to a client that asks for the changes of a screen.
#[derive(Debug)]
pub struct GridUpdateResponse {
    pub from_generation: u64,
    pub to_generation: u64,
    pub update: WireUpdate,
    pub output_sequence: u64,
}

/// Answers a client that asks for the changes of a screen.
pub fn update_to_wire(update: &GridUpdate, output_sequence: u64) -> (response: GridUpdateResponse)
    ensures
        response.output_sequence == output_sequence,
        match *update {
            GridUpdate::Diff { from_generation, to_generation, diff } => {
                &&& response.from_generation == from_generation
                &&& response.to_generation == to_generation
                &&& response.update matches WireUpdate::Rows(rows) && wire_rows(rows@)
                    == rows_on_wire(diff@)
            },
            GridUpdate::FullSnapshot { to_generation, snapshot } => {
                &&& response.from_generation == 0
                &&& response.to_generation == to_generation
                &&& response.update matches WireUpdate::Snapshot(wire) && is_on_wire(
                    wire,
                    snapshot@,
                )
            },
            GridUpdate::NoChange(current) => {
                &&& response.from_generation == current
                &&& response.to_generation == current
                &&& response.update is Nothing
            },
        },
{
    match update {
        GridUpdate::Diff { from_generation, to_generation, diff } => GridUpdateResponse {
            from_generation: *from_generation,
            to_generation: *to_generation,
            update: WireUpdate::Rows(rows_to_wire(&diff.rows)),
            output_sequence,
        },
        GridUpdate::FullSnapshot { to_generation, snapshot } => GridUpdateResponse {
            from_generation: 0,
            to_generation: *to_generation,
            update: WireUpdate::Snapshot(snapshot_to_wire(snapshot)),
            output_sequence,
        },
        GridUpdate::NoChange(current) => GridUpdateResponse {
            from_generation: *current,
            to_generation: *current,
            update: WireUpdate::Nothing,
            output_sequence,
        },
    }
}

/// What is kept free in a message for what goes around an answer.
pub const RESPONSE_FRAME_HEADROOM: usize = 256;

/// Whether an answer fits into a message.
pub fn fits_in_frame(encoded_length: usize, max_frame: usize) -> (fits: bool)
    requires
        max_frame >= RESPONSE_FRAME_HEADROOM,
    ensures
        fits == (encoded_length + RESPONSE_FRAME_HEADROOM <= max_frame),
{
    encoded_length <= max_frame - RESPONSE_FRAME_HEADROOM
}

} // verus!
