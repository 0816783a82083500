//! Screens, changed rows and history lines out of the grid of a terminal
//! emulator.
use crate::grid_sync;
use crate::grid_sync::{
    Cell, CellModel, CellStyle, CursorShape, CursorState, FullGridSnapshot, GridDiff, RowChange,
    RowModel, SnapshotModel, UnderlineStyle,
};
use crate::palette;
use crate::palette::Palette;
use crate::pattern;
use crate::pattern::{compile, is_match};
use crate::term_grid;
use crate::term_grid::{
    background_at, character_at, columns_of, display_offset_of, flags_at, foreground_at,
    history_size_of, hyperlink_at, screen_lines_of, underline_color_at, zerowidth_at, TermCellModel,
};
use alacritty_terminal::grid::Grid;
use alacritty_terminal::term::cell::Cell as TermCell;
use alacritty_terminal::term::color::Colors;
use regex::Regex;
use vstd::prelude::*;

verus! {

/// The flags of a cell.
pub const INVERSE: u16 = 0x1;

pub const BOLD: u16 = 0x2;

pub const ITALIC: u16 = 0x4;

pub const UNDERLINE: u16 = 0x8;

pub const WRAPLINE: u16 = 0x10;

pub const WIDE_CHAR: u16 = 0x20;

pub const WIDE_CHAR_SPACER: u16 = 0x40;

pub const DIM: u16 = 0x80;

pub const HIDDEN: u16 = 0x100;

pub const STRIKEOUT: u16 = 0x200;

pub const LEADING_WIDE_CHAR_SPACER: u16 = 0x400;

pub const DOUBLE_UNDERLINE: u16 = 0x800;

pub const UNDERCURL: u16 = 0x1000;

pub const DOTTED_UNDERLINE: u16 = 0x2000;

pub const DASHED_UNDERLINE: u16 = 0x4000;

/// Whether a flag is set.
pub open spec fn has_flag(flags: u16, flag: u16) -> bool {
    flags & flag == flag
}

/// How a cell with these flags is underlined; the fancier way wins.
pub open spec fn underline_of(flags: u16) -> UnderlineStyle {
    if has_flag(flags, DOUBLE_UNDERLINE) {
        UnderlineStyle::Double
    } else if has_flag(flags, UNDERCURL) {
        UnderlineStyle::Curly
    } else if has_flag(flags, DOTTED_UNDERLINE) {
        UnderlineStyle::Dotted
    } else if has_flag(flags, DASHED_UNDERLINE) {
        UnderlineStyle::Dashed
    } else if has_flag(flags, UNDERLINE) {
        UnderlineStyle::Single
    } else {
        UnderlineStyle::NotUnderlined
    }
}

/// A cell of the grid as clients see it.
pub open spec fn drawn(cell: TermCellModel, set: Map<int, Option<(u8, u8, u8)>>) -> CellModel {
    CellModel {
        character: seq![cell.character],
        zerowidth: cell.zerowidth,
        style: CellStyle {
            bold: has_flag(cell.flags, BOLD),
            italic: has_flag(cell.flags, ITALIC),
            underline: underline_of(cell.flags),
            underline_color: match cell.underline_color {
                Some(color) => Some(palette::resolved(color, set)),
                None => None,
            },
            strikethrough: has_flag(cell.flags, STRIKEOUT),
            dim: has_flag(cell.flags, DIM),
            reverse: has_flag(cell.flags, INVERSE),
            wide_char: has_flag(cell.flags, WIDE_CHAR),
            wide_char_spacer: has_flag(cell.flags, WIDE_CHAR_SPACER),
            leading_wide_char_spacer: has_flag(cell.flags, LEADING_WIDE_CHAR_SPACER),
            wrapline: has_flag(cell.flags, WRAPLINE),
            hidden: has_flag(cell.flags, HIDDEN),
        },
        foreground: palette::resolved(cell.foreground, set),
        background: palette::resolved(cell.background, set),
        hyperlink: cell.hyperlink,
    }
}

/// The cell at a place of the grid as clients see it.
pub open spec fn drawn_at(grid: Grid<TermCell>, colors: Colors, line: int, column: int) -> CellModel {
    drawn(term_grid::grid_cells(grid)[(line, column)], term_grid::set_colors(colors))
}

/// A line of the grid as clients see it.
pub open spec fn drawn_line(grid: Grid<TermCell>, colors: Colors, line: int) -> Seq<CellModel> {
    Seq::new(term_grid::grid_columns(grid), |column: int| drawn_at(grid, colors, line, column))
}

/// Whether the lines and columns of a grid can be numbered.
pub open spec fn is_numbered(grid: Grid<TermCell>) -> bool {
    &&& term_grid::grid_columns(grid) <= u32::MAX
    &&& term_grid::grid_lines(grid) <= i32::MAX
    &&& term_grid::grid_history(grid) <= i32::MAX
}

/// Whether the lines and columns of a grid can be numbered.
pub fn can_be_numbered(grid: &Grid<TermCell>) -> (yes: bool)
    ensures
        yes == is_numbered(*grid),
{
    columns_of(grid) as u64 <= u32::MAX as u64 && screen_lines_of(grid) as u64 <= i32::MAX as u64
        && history_size_of(grid) as u64 <= i32::MAX as u64
}

/// The cell at a place of the grid as clients see it.
pub fn cell_from_grid(grid: &Grid<TermCell>, colors: &Colors, line: i32, column: usize) -> (cell:
    Cell)
    requires
        term_grid::in_grid(*grid, line as int, column as int),
    ensures
        cell@ == drawn_at(*grid, *colors, line as int, column as int),
{
    let flags: u16 = flags_at(grid, line, column);
    let underline: UnderlineStyle = if flags & DOUBLE_UNDERLINE == DOUBLE_UNDERLINE {
        UnderlineStyle::Double
    } else if flags & UNDERCURL == UNDERCURL {
        UnderlineStyle::Curly
    } else if flags & DOTTED_UNDERLINE == DOTTED_UNDERLINE {
        UnderlineStyle::Dotted
    } else if flags & DASHED_UNDERLINE == DASHED_UNDERLINE {
        UnderlineStyle::Dashed
    } else if flags & UNDERLINE == UNDERLINE {
        UnderlineStyle::Single
    } else {
        UnderlineStyle::NotUnderlined
    };
    let underline_color: Option<u32> = match underline_color_at(grid, line, column) {
        Some(color) => Some(Palette::resolve(color, colors)),
        None => None,
    };
    Cell {
        character: character_at(grid, line, column),
        zerowidth: zerowidth_at(grid, line, column),
        style: CellStyle {
            bold: flags & BOLD == BOLD,
            italic: flags & ITALIC == ITALIC,
            underline,
            underline_color,
            strikethrough: flags & STRIKEOUT == STRIKEOUT,
            dim: flags & DIM == DIM,
            reverse: flags & INVERSE == INVERSE,
            wide_char: flags & WIDE_CHAR == WIDE_CHAR,
            wide_char_spacer: flags & WIDE_CHAR_SPACER == WIDE_CHAR_SPACER,
            leading_wide_char_spacer: flags & LEADING_WIDE_CHAR_SPACER == LEADING_WIDE_CHAR_SPACER,
            wrapline: flags & WRAPLINE == WRAPLINE,
            hidden: flags & HIDDEN == HIDDEN,
        },
        foreground: Palette::resolve(foreground_at(grid, line, column), colors),
        background: Palette::resolve(background_at(grid, line, column), colors),
        hyperlink: hyperlink_at(grid, line, column),
    }
}

/// A line of the grid as clients see it.
fn line_from_grid(grid: &Grid<TermCell>, colors: &Colors, line: i32) -> (cells: Vec<Cell>)
    requires
        -term_grid::grid_history(*grid) <= line < term_grid::grid_lines(*grid),
    ensures
        grid_sync::cell_models(cells@) == drawn_line(*grid, *colors, line as int),
{
    let columns: usize = columns_of(grid);
    let mut cells: Vec<Cell> = Vec::new();
    let mut column: usize = 0;
    while column < columns
        invariant
            column <= columns,
            columns == term_grid::grid_columns(*grid),
            -term_grid::grid_history(*grid) <= line < term_grid::grid_lines(*grid),
            grid_sync::cell_models(cells@) == drawn_line(*grid, *colors, line as int).take(
                column as int,
            ),
        decreases columns - column,
    {
        let cell: Cell = cell_from_grid(grid, colors, line, column);
        let ghost all = drawn_line(*grid, *colors, line as int);
        proof {
            assert(grid_sync::cell_models(cells@.push(cell)) =~= grid_sync::cell_models(
                cells@,
            ).push(cell@));
            assert(all.take(column + 1) =~= all.take(column as int).push(all[column as int]));
        }
        cells.push(cell);
        column = column + 1;
    }
    assert(drawn_line(*grid, *colors, line as int).take(column as int) =~= drawn_line(
        *grid,
        *colors,
        line as int,
    ));
    cells
}

/// The modes of a terminal emulator.
pub const MODE_SHOW_CURSOR: u32 = 0x1;

pub const MODE_APP_CURSOR: u32 = 0x2;

pub const MODE_APP_KEYPAD: u32 = 0x4;

pub const MODE_MOUSE_REPORT_CLICK: u32 = 0x8;

pub const MODE_BRACKETED_PASTE: u32 = 0x10;

pub const MODE_SGR_MOUSE: u32 = 0x20;

pub const MODE_MOUSE_MOTION: u32 = 0x40;

pub const MODE_LINE_WRAP: u32 = 0x80;

pub const MODE_LINE_FEED_NEW_LINE: u32 = 0x100;

pub const MODE_ORIGIN: u32 = 0x200;

pub const MODE_INSERT: u32 = 0x400;

pub const MODE_FOCUS_IN_OUT: u32 = 0x800;

pub const MODE_ALT_SCREEN: u32 = 0x1000;

pub const MODE_MOUSE_DRAG: u32 = 0x2000;

pub const MODE_UTF8_MOUSE: u32 = 0x4000;

pub const MODE_ALTERNATE_SCROLL: u32 = 0x8000;

pub const MODE_VI: u32 = 0x10000;

/// The number that stands for each mode on the wire.
#[derive(Clone, Copy, Debug, PartialEq, Eq, Structural)]
pub struct TerminalModes {
    pub app_cursor: u32,
    pub app_keypad: u32,
    pub show_cursor: u32,
    pub line_wrap: u32,
    pub origin: u32,
    pub insert: u32,
    pub line_feed_new_line: u32,
    pub focus_in_out: u32,
    pub alternate_scroll: u32,
    pub bracketed_paste: u32,
    pub sgr_mouse: u32,
    pub utf8_mouse: u32,
    pub alt_screen: u32,
    pub mouse_report_click: u32,
    pub mouse_drag: u32,
    pub mouse_motion: u32,
    pub vi: u32,
}

impl TerminalModes {
    /// Each mode with the number that stands for it.
    pub open spec fn pairs(self) -> Seq<(u32, u32)> {
        seq![
            (MODE_APP_CURSOR, self.app_cursor),
            (MODE_APP_KEYPAD, self.app_keypad),
            (MODE_SHOW_CURSOR, self.show_cursor),
            (MODE_LINE_WRAP, self.line_wrap),
            (MODE_ORIGIN, self.origin),
            (MODE_INSERT, self.insert),
            (MODE_LINE_FEED_NEW_LINE, self.line_feed_new_line),
            (MODE_FOCUS_IN_OUT, self.focus_in_out),
            (MODE_ALTERNATE_SCROLL, self.alternate_scroll),
            (MODE_BRACKETED_PASTE, self.bracketed_paste),
            (MODE_SGR_MOUSE, self.sgr_mouse),
            (MODE_UTF8_MOUSE, self.utf8_mouse),
            (MODE_ALT_SCREEN, self.alt_screen),
            (MODE_MOUSE_REPORT_CLICK, self.mouse_report_click),
            (MODE_MOUSE_DRAG, self.mouse_drag),
            (MODE_MOUSE_MOTION, self.mouse_motion),
            (MODE_VI, self.vi),
        ]
    }
}

/// Whether a mode is set.
pub open spec fn has_mode(mode: u32, bit: u32) -> bool {
    mode & bit == bit
}

/// The numbers of the modes that are set, put together.
pub open spec fn gathered(mode: u32, pairs: Seq<(u32, u32)>) -> u32
    decreases pairs.len(),
{
    if pairs.len() == 0 {
        0
    } else {
        let before = gathered(mode, pairs.drop_last());
        if has_mode(mode, pairs.last().0) {
            before | pairs.last().1
        } else {
            before
        }
    }
}

/// The modes of a terminal as they go over the wire.
pub fn modes_from_bits(mode: u32, numbers: &TerminalModes) -> (modes: u32)
    ensures
        modes == gathered(mode, numbers.pairs()),
{
    let pairs: [(u32, u32); 17] = [
        (MODE_APP_CURSOR, numbers.app_cursor),
        (MODE_APP_KEYPAD, numbers.app_keypad),
        (MODE_SHOW_CURSOR, numbers.show_cursor),
        (MODE_LINE_WRAP, numbers.line_wrap),
        (MODE_ORIGIN, numbers.origin),
        (MODE_INSERT, numbers.insert),
        (MODE_LINE_FEED_NEW_LINE, numbers.line_feed_new_line),
        (MODE_FOCUS_IN_OUT, numbers.focus_in_out),
        (MODE_ALTERNATE_SCROLL, numbers.alternate_scroll),
        (MODE_BRACKETED_PASTE, numbers.bracketed_paste),
        (MODE_SGR_MOUSE, numbers.sgr_mouse),
        (MODE_UTF8_MOUSE, numbers.utf8_mouse),
        (MODE_ALT_SCREEN, numbers.alt_screen),
        (MODE_MOUSE_REPORT_CLICK, numbers.mouse_report_click),
        (MODE_MOUSE_DRAG, numbers.mouse_drag),
        (MODE_MOUSE_MOTION, numbers.mouse_motion),
        (MODE_VI, numbers.vi),
    ];
    assert(pairs@ =~= numbers.pairs());
    let mut modes: u32 = 0;
    let mut i: usize = 0;
    while i < 17
        invariant
            i <= 17,
            pairs@ == numbers.pairs(),
            modes == gathered(mode, numbers.pairs().take(i as int)),
        decreases 17 - i,
    {
        let pair: (u32, u32) = pairs[i];
        proof {
            let all = numbers.pairs();
            assert(all.take(i + 1).drop_last() =~= all.take(i as int));
            assert(all.take(i + 1).last() == all[i as int]);
        }
        if mode & pair.0 == pair.0 {
            modes = modes | pair.1;
        }
        i = i + 1;
    }
    assert(numbers.pairs().take(17) =~= numbers.pairs());
    modes
}

proof fn lemma_gathered(mode: u32, pairs: Seq<(u32, u32)>, number: u32)
    requires
        number != 0,
        forall|i: int|
            0 <= i < pairs.len() ==> (#[trigger] pairs[i]).1 == number || pairs[i].1 & number == 0,
    ensures
        gathered(mode, pairs) & number == number || gathered(mode, pairs) & number == 0,
        has_mode(gathered(mode, pairs), number) <==> exists|i: int|
            0 <= i < pairs.len() && (#[trigger] pairs[i]).1 == number && has_mode(mode, pairs[i].0),
    decreases pairs.len(),
{
    if pairs.len() == 0 {
        assert(0u32 & number == 0) by (bit_vector);
    } else {
        let init = pairs.drop_last();
        assert forall|i: int| 0 <= i < init.len() implies (#[trigger] init[i]).1 == number
            || init[i].1 & number == 0 by {
            assert(init[i] == pairs[i]);
        }
        lemma_gathered(mode, init, number);
        let before = gathered(mode, init);
        let last = pairs.last();
        assert(last == pairs[pairs.len() - 1]);
        assert((before | number) & number == number) by (bit_vector);
        let other = last.1;
        if other & number == 0 {
            assert((before | other) & number == before & number) by (bit_vector)
                requires
                    other & number == 0,
            ;
        }
        if exists|i: int|
            0 <= i < init.len() && (#[trigger] init[i]).1 == number && has_mode(mode, init[i].0) {
            let i = choose|i: int|
                0 <= i < init.len() && (#[trigger] init[i]).1 == number && has_mode(
                    mode,
                    init[i].0,
                );
            assert(pairs[i] == init[i]);
        }
        if exists|i: int|
            0 <= i < pairs.len() && (#[trigger] pairs[i]).1 == number && has_mode(
                mode,
                pairs[i].0,
            ) {
            let i = choose|i: int|
                0 <= i < pairs.len() && (#[trigger] pairs[i]).1 == number && has_mode(
                    mode,
                    pairs[i].0,
                );
            if i < init.len() {
                assert(init[i] == pairs[i]);
            }
        }
    }
}

/// Where the numbers of the modes do not overlap, each of them is sent if and
/// only if its mode is set.
pub proof fn law_each_mode_is_told(mode: u32, numbers: TerminalModes, k: int)
    requires
        0 <= k < numbers.pairs().len(),
        numbers.pairs()[k].1 != 0,
        forall|i: int|
            0 <= i < numbers.pairs().len() && i != k ==> (#[trigger] numbers.pairs()[i]).1
                & numbers.pairs()[k].1 == 0,
    ensures
        has_mode(gathered(mode, numbers.pairs()), numbers.pairs()[k].1) <==> has_mode(
            mode,
            numbers.pairs()[k].0,
        ),
{
    let pairs = numbers.pairs();
    let number = pairs[k].1;
    assert(number & number == number) by (bit_vector);
    assert forall|i: int| 0 <= i < pairs.len() implies (#[trigger] pairs[i]).1 == number
        || pairs[i].1 & number == 0 by {
        if i != k {
            assert(numbers.pairs()[i].1 & number == 0);
        }
    }
    lemma_gathered(mode, pairs, number);
    if has_mode(gathered(mode, pairs), number) {
        let i = choose|i: int|
            0 <= i < pairs.len() && (#[trigger] pairs[i]).1 == number && has_mode(
                mode,
                pairs[i].0,
            );
        if i != k {
            assert(numbers.pairs()[i].1 & number == 0);
        }
    } else {
        assert(pairs[k].1 == number);
    }
}

/// The cursor of a terminal.
#[derive(Clone, Copy, Debug, PartialEq, Eq, Structural)]
pub struct TermCursor {
    pub line: i32,
    pub column: u32,
    pub shape: CursorShape,
    pub blinking: bool,
}

/// The cells of the screen, row by row.
pub open spec fn drawn_screen(grid: Grid<TermCell>, colors: Colors) -> Seq<CellModel> {
    let columns = term_grid::grid_columns(grid) as int;
    Seq::new(
        term_grid::grid_lines(grid) * term_grid::grid_columns(grid),
        |i: int| drawn_at(grid, colors, i / columns, i % columns),
    )
}

/// The cells of the first lines of the screen.
pub open spec fn drawn_lines(grid: Grid<TermCell>, colors: Colors, lines: nat) -> Seq<CellModel>
    decreases lines,
{
    if lines == 0 {
        Seq::empty()
    } else {
        drawn_lines(grid, colors, (lines - 1) as nat) + drawn_line(grid, colors, lines - 1)
    }
}

proof fn lemma_drawn_lines(grid: Grid<TermCell>, colors: Colors, lines: nat)
    ensures
        ({
            let columns = term_grid::grid_columns(grid);
            &&& drawn_lines(grid, colors, lines).len() == lines * columns
            &&& forall|i: int|
                0 <= i < lines * columns ==> #[trigger] drawn_lines(grid, colors, lines)[i]
                    == drawn_at(grid, colors, i / columns as int, i % columns as int)
        }),
    decreases lines,
{
    let columns = term_grid::grid_columns(grid) as int;
    if lines > 0 {
        let before = (lines - 1) as nat;
        lemma_drawn_lines(grid, colors, before);
        let start = before * columns;
        assert(lines * columns == start + columns) by (nonlinear_arith)
            requires
                start == before * columns,
                lines == before + 1,
        ;
        assert forall|i: int| 0 <= i < lines * columns implies #[trigger] drawn_lines(
            grid,
            colors,
            lines,
        )[i] == drawn_at(grid, colors, i / columns, i % columns) by {
            if i >= start {
                let c = i - start;
                assert(i / columns == before && i % columns == c) by (nonlinear_arith)
                    requires
                        i == before * columns + c,
                        0 <= c < columns,
                ;
            }
        }
    }
}

/// The screen of a terminal with everything around it.
pub open spec fn snapshot_model(
    grid: Grid<TermCell>,
    colors: Colors,
    cursor: TermCursor,
    mode: u32,
    numbers: TerminalModes,
) -> SnapshotModel {
    SnapshotModel {
        cols: term_grid::grid_columns(grid) as u32,
        rows: term_grid::grid_lines(grid) as u32,
        cells: drawn_screen(grid, colors),
        cursor: CursorState {
            col: cursor.column,
            row: if cursor.line < 0 {
                0
            } else {
                cursor.line as u32
            },
            style: cursor.shape,
            visible: has_mode(mode, MODE_SHOW_CURSOR) && cursor.shape != CursorShape::Hidden,
            blinking: cursor.blinking,
        },
        alternate_screen: has_mode(mode, MODE_ALT_SCREEN),
        display_offset: term_grid::grid_offset(grid) as usize,
        history_size: term_grid::grid_history(grid) as usize,
        history_version: 0,
        modes: gathered(mode, numbers.pairs()),
    }
}

/// Takes a snapshot of the screen; how far it is scrolled back is told apart.
pub fn snapshot_from_term(
    grid: &Grid<TermCell>,
    colors: &Colors,
    cursor: TermCursor,
    mode: u32,
    numbers: &TerminalModes,
) -> (snapshot: FullGridSnapshot)
    requires
        is_numbered(*grid),
    ensures
        snapshot@ == snapshot_model(*grid, *colors, cursor, mode, *numbers),
{
    let cols: usize = columns_of(grid);
    let rows: usize = screen_lines_of(grid);
    let mut cells: Vec<Cell> = Vec::new();
    let mut row: usize = 0;
    while row < rows
        invariant
            row <= rows,
            rows == term_grid::grid_lines(*grid),
            rows <= i32::MAX,
            grid_sync::cell_models(cells@) == drawn_lines(*grid, *colors, row as nat),
        decreases rows - row,
    {
        let mut line: Vec<Cell> = line_from_grid(grid, colors, row as i32);
        let ghost before = cells@;
        let ghost more = line@;
        cells.append(&mut line);
        proof {
            assert(grid_sync::cell_models(cells@) =~= grid_sync::cell_models(before)
                + grid_sync::cell_models(more));
        }
        row = row + 1;
    }
    proof {
        lemma_drawn_lines(*grid, *colors, rows as nat);
        assert(drawn_lines(*grid, *colors, rows as nat) =~= drawn_screen(*grid, *colors));
    }
    FullGridSnapshot {
        cols: cols as u32,
        rows: rows as u32,
        cells,
        cursor: CursorState {
            col: cursor.column,
            row: if cursor.line < 0 {
                0
            } else {
                cursor.line as u32
            },
            style: cursor.shape,
            visible: mode & MODE_SHOW_CURSOR == MODE_SHOW_CURSOR && cursor.shape
                != CursorShape::Hidden,
            blinking: cursor.blinking,
        },
        alternate_screen: mode & MODE_ALT_SCREEN == MODE_ALT_SCREEN,
        display_offset: display_offset_of(grid),
        history_size: history_size_of(grid),
        history_version: 0,
        modes: modes_from_bits(mode, numbers),
    }
}

/// A line of the history, by its age: 0 is the oldest.
pub open spec fn history_row(grid: Grid<TermCell>, colors: Colors, index: int) -> RowModel {
    RowModel {
        row: index as u32,
        cells: drawn_line(grid, colors, index - term_grid::grid_history(grid)),
    }
}

/// A line of the history.
pub fn row_from_history(grid: &Grid<TermCell>, colors: &Colors, index: usize) -> (row: RowChange)
    requires
        is_numbered(*grid),
        index < term_grid::grid_history(*grid),
    ensures
        row@ == history_row(*grid, *colors, index as int),
{
    let history: usize = history_size_of(grid);
    let line: i32 = index as i32 - history as i32;
    RowChange { row: index as u32, cells: line_from_grid(grid, colors, line) }
}

/// The first of the lines of the history that are asked for, and the one
/// after the last. A direction of 0 goes back in time.
pub open spec fn scrollback_range(history: int, from: int, direction: u32, count: int) -> (int, int) {
    if count == 0 || from >= history {
        (0, 0)
    } else if direction == 0 {
        (
            if from >= count - 1 {
                from - (count - 1)
            } else {
                0
            },
            from + 1,
        )
    } else {
        (
            from,
            if from + count < history {
                from + count
            } else {
                history
            },
        )
    }
}

/// Reads lines of the history, and how many there are.
pub fn fetch_scrollback_from_term(
    grid: &Grid<TermCell>,
    colors: &Colors,
    from_line: u32,
    direction: u32,
    count: u32,
) -> (fetched: (Vec<RowChange>, u32))
    requires
        is_numbered(*grid),
    ensures
        ({
            let history = term_grid::grid_history(*grid) as int;
            let range = scrollback_range(history, from_line as int, direction, count as int);
            &&& grid_sync::row_models(fetched.0@) == Seq::new(
                (range.1 - range.0) as nat,
                |i: int| history_row(*grid, *colors, range.0 + i),
            )
            &&& fetched.1 == history
        }),
{
    let history: usize = history_size_of(grid);
    let total: u32 = history as u32;
    let from: usize = from_line as usize;
    let mut rows: Vec<RowChange> = Vec::new();
    if history == 0 || count == 0 || from >= history {
        assert(grid_sync::row_models(rows@) =~= Seq::<RowModel>::empty());
        return (rows, total);
    }
    let count: usize = count as usize;
    let start: usize = if direction == 0 {
        if from >= count - 1 {
            from - (count - 1)
        } else {
            0
        }
    } else {
        from
    };
    let end: usize = if direction == 0 {
        from + 1
    } else if count < history - from {
        from + count
    } else {
        history
    };
    let mut index: usize = start;
    while index < end
        invariant
            is_numbered(*grid),
            start <= index <= end,
            end <= term_grid::grid_history(*grid),
            grid_sync::row_models(rows@) == Seq::new(
                (index - start) as nat,
                |i: int| history_row(*grid, *colors, start + i),
            ),
        decreases end - index,
    {
        let row: RowChange = row_from_history(grid, colors, index);
        proof {
            assert(grid_sync::row_models(rows@.push(row)) =~= grid_sync::row_models(rows@).push(
                row@,
            ));
        }
        rows.push(row);
        index = index + 1;
        assert(grid_sync::row_models(rows@) =~= Seq::new(
            (index - start) as nat,
            |i: int| history_row(*grid, *colors, start + i),
        ));
    }
    (rows, total)
}

/// The text of a line of the history.
pub open spec fn history_text(grid: Grid<TermCell>, index: int) -> Seq<char> {
    Seq::new(
        term_grid::grid_columns(grid),
        |column: int|
            term_grid::grid_cells(grid)[(
                index - term_grid::grid_history(grid),
                column,
            )].character,
    )
}

/// The lines of the history in the order in which they are searched. A
/// direction of 0 goes back in time.
pub open spec fn search_order(history: int, from: int, direction: u32) -> Seq<int> {
    if history == 0 {
        Seq::empty()
    } else if direction == 0 {
        let start = if from < history - 1 {
            from
        } else {
            history - 1
        };
        Seq::new((start + 1) as nat, |i: int| start - i)
    } else if from >= history {
        Seq::empty()
    } else {
        Seq::new((history - from) as nat, |i: int| from + i)
    }
}

/// Those lines of a list in which a pattern is found.
pub open spec fn hits(grid: Grid<TermCell>, pattern: Seq<char>, order: Seq<int>) -> Seq<int>
    decreases order.len(),
{
    if order.len() == 0 {
        Seq::empty()
    } else {
        let before = hits(grid, pattern, order.drop_last());
        if pattern::is_found(pattern, history_text(grid, order.last())) {
            before.push(order.last())
        } else {
            before
        }
    }
}

proof fn lemma_hits_prefix(grid: Grid<TermCell>, pattern: Seq<char>, order: Seq<int>, k: int)
    requires
        0 <= k <= order.len(),
    ensures
        hits(grid, pattern, order.take(k)).len() <= hits(grid, pattern, order).len(),
        hits(grid, pattern, order).take(hits(grid, pattern, order.take(k)).len() as int) == hits(
            grid,
            pattern,
            order.take(k),
        ),
    decreases order.len(),
{
    if k == order.len() {
        assert(order.take(k) =~= order);
        let all = hits(grid, pattern, order);
        assert(all.take(all.len() as int) =~= all);
    } else {
        let init = order.drop_last();
        lemma_hits_prefix(grid, pattern, init, k);
        assert(init.take(k) =~= order.take(k));
        let head = hits(grid, pattern, order.take(k));
        assert(hits(grid, pattern, order).take(head.len() as int) =~= hits(
            grid,
            pattern,
            init,
        ).take(head.len() as int));
    }
}

/// The lines that a search hands out: the first ones that the pattern is found
/// in, with their numbers.
pub open spec fn search_results(
    grid: Grid<TermCell>,
    colors: Colors,
    pattern: Seq<char>,
    from: int,
    direction: u32,
    max: int,
) -> Seq<(u32, RowModel)> {
    let order = search_order(term_grid::grid_history(grid) as int, from, direction);
    let found = hits(grid, pattern, order);
    found.take(
        if found.len() < max {
            found.len() as int
        } else {
            max
        },
    ).map_values(|index: int| (index as u32, history_row(grid, colors, index)))
}

/// What a list of search results holds.
pub open spec fn result_models(results: Seq<(u32, RowChange)>) -> Seq<(u32, RowModel)> {
    results.map_values(|r: (u32, RowChange)| (r.0, r.1@))
}

/// The text of the cells of a row.
fn row_text(row: &RowChange) -> (text: String)
    requires
        forall|i: int| 0 <= i < row.cells@.len() ==> (#[trigger] row.cells@[i]).character@.len() == 1,
    ensures
        text@ == Seq::new(row.cells@.len(), |i: int| row.cells@[i].character@[0]),
{
    let mut text: String = String::new();
    let mut i: usize = 0;
    while i < row.cells.len()
        invariant
            i <= row.cells.len(),
            forall|j: int|
                0 <= j < row.cells@.len() ==> (#[trigger] row.cells@[j]).character@.len() == 1,
            text@ == Seq::new(i as nat, |j: int| row.cells@[j].character@[0]),
        decreases row.cells.len() - i,
    {
        text.append(row.cells[i].character.as_str());
        assert(row.cells@[i as int].character@.len() == 1);
        i = i + 1;
        assert(text@ =~= Seq::new(i as nat, |j: int| row.cells@[j].character@[0]));
    }
    text
}

/// Searches the history with a regular expression.
pub fn search_scrollback_with(
    grid: &Grid<TermCell>,
    colors: &Colors,
    regex: &Regex,
    from_line: u32,
    direction: u32,
    max_results: u32,
) -> (results: Vec<(u32, RowChange)>)
    requires
        is_numbered(*grid),
    ensures
        result_models(results@) == search_results(
            *grid,
            *colors,
            pattern::pattern_of(*regex),
            from_line as int,
            direction,
            max_results as int,
        ),
{
    let history: usize = history_size_of(grid);
    let from: usize = from_line as usize;
    let max: usize = max_results as usize;
    let ghost pat = pattern::pattern_of(*regex);
    let ghost order = search_order(history as int, from as int, direction);
    let ghost found = hits(*grid, pat, order);
    let mut results: Vec<(u32, RowChange)> = Vec::new();
    let count: usize = if history == 0 {
        0
    } else if direction == 0 {
        if from < history - 1 {
            from + 1
        } else {
            history
        }
    } else if from >= history {
        0
    } else {
        history - from
    };
    assert(count == order.len());
    let mut k: usize = 0;
    let ghost mut at = Seq::<int>::empty();
    proof {
        assert(order.take(0) =~= Seq::<int>::empty());
        assert(result_models(results@) =~= at.map_values(
            |index: int| (index as u32, history_row(*grid, *colors, index)),
        ));
    }
    while k < count && results.len() < max
        invariant
            is_numbered(*grid),
            history == term_grid::grid_history(*grid),
            history <= i32::MAX,
            k <= count,
            count == order.len(),
            order == search_order(history as int, from as int, direction),
            pat == pattern::pattern_of(*regex),
            at == hits(*grid, pat, order.take(k as int)),
            results@.len() == at.len(),
            at.len() <= max,
            result_models(results@) == at.map_values(
                |index: int| (index as u32, history_row(*grid, *colors, index)),
            ),
        decreases count - k,
    {
        let index: usize = if direction == 0 {
            (if from < history - 1 {
                from
            } else {
                history - 1
            }) - k
        } else {
            from + k
        };
        proof {
            assert(order[k as int] == index);
            assert(order.take(k + 1).drop_last() =~= order.take(k as int));
            assert(order.take(k + 1).last() == index);
        }
        let row: RowChange = row_from_history(grid, colors, index);
        proof {
            let line = index - history;
            let cells = drawn_line(*grid, *colors, line);
            assert(row@.cells == cells);
            assert(row.cells@.len() == row@.cells.len());
            assert(cells.len() == term_grid::grid_columns(*grid));
            assert forall|i: int| 0 <= i < row.cells@.len() implies (
            #[trigger] row.cells@[i]).character@ == seq![
                term_grid::grid_cells(*grid)[(line, i)].character,
            ] by {
                assert(row@.cells == cells);
                assert(grid_sync::cell_models(row.cells@)[i] == row.cells@[i]@);
                assert(cells[i] == drawn_at(*grid, *colors, line, i));
            }
        }
        let text: String = row_text(&row);
        proof {
            assert(row.cells@.len() == row@.cells.len());
            assert(text@ =~= history_text(*grid, index as int));
        }
        if is_match(regex, text.as_str()) {
            let ghost before = results@;
            results.push((index as u32, row));
            proof {
                let f = |i: int| (i as u32, history_row(*grid, *colors, i));
                assert(result_models(results@) =~= result_models(before).push(
                    (index as u32, row@),
                ));
                assert(at.push(index as int).map_values(f) =~= at.map_values(f).push(
                    f(index as int),
                ));
                at = at.push(index as int);
            }
        }
        k = k + 1;
    }
    proof {
        lemma_hits_prefix(*grid, pat, order, k as int);
        assert(order.take(order.len() as int) =~= order);
        assert(at =~= found.take(
            if found.len() < max {
                found.len() as int
            } else {
                max as int
            },
        ));
    }
    results
}

/// Searches the history with a pattern. One that is no regular expression
/// finds nothing; a plain text of moderate length is found wherever it occurs.
pub fn search_scrollback_from_term(
    grid: &Grid<TermCell>,
    colors: &Colors,
    regex: &str,
    from_line: u32,
    direction: u32,
    max_results: u32,
) -> (results: Vec<(u32, RowChange)>)
    requires
        is_numbered(*grid),
    ensures
        result_models(results@) == if pattern::pattern_accepted(regex@, usize::BITS as nat) {
            search_results(
                *grid,
                *colors,
                regex@,
                from_line as int,
                direction,
                max_results as int,
            )
        } else {
            Seq::empty()
        },
        pattern::is_plain(regex@) && regex@.len() <= pattern::MAX_PLAIN_LENGTH ==> result_models(
            results@,
        ) == search_results(
            *grid,
            *colors,
            regex@,
            from_line as int,
            direction,
            max_results as int,
        ),
        pattern::is_unclosed(regex@) ==> results@.len() == 0,
{
    match compile(regex) {
        Some(regex) => search_scrollback_with(
            grid,
            colors,
            &regex,
            from_line,
            direction,
            max_results,
        ),
        None => {
            let none: Vec<(u32, RowChange)> = Vec::new();
            assert(result_models(none@) =~= Seq::empty());
            none
        },
    }
}

/// The lines of the screen among the numbers of a list, as clients see them.
pub open spec fn dirty_lines(grid: Grid<TermCell>, colors: Colors, dirty: Seq<usize>) -> Seq<
    RowModel,
>
    decreases dirty.len(),
{
    if dirty.len() == 0 {
        Seq::empty()
    } else {
        let before = dirty_lines(grid, colors, dirty.drop_last());
        let row = dirty.last();
        if row < term_grid::grid_lines(grid) {
            before.push(
                RowModel { row: row as u32, cells: drawn_line(grid, colors, row as int) },
            )
        } else {
            before
        }
    }
}

/// The rows of the screen that changed, in the order of the list. Numbers that
/// are not on the screen are passed over.
pub fn diff_from_dirty(grid: &Grid<TermCell>, colors: &Colors, dirty_rows: &Vec<usize>) -> (diff:
    GridDiff)
    requires
        is_numbered(*grid),
    ensures
        diff@ == dirty_lines(*grid, *colors, dirty_rows@),
{
    let lines: usize = screen_lines_of(grid);
    let mut rows: Vec<RowChange> = Vec::new();
    let mut i: usize = 0;
    proof {
        assert(dirty_rows@.take(0) =~= Seq::<usize>::empty());
        assert(grid_sync::row_models(rows@) =~= Seq::<RowModel>::empty());
    }
    while i < dirty_rows.len()
        invariant
            is_numbered(*grid),
            lines == term_grid::grid_lines(*grid),
            i <= dirty_rows.len(),
            grid_sync::row_models(rows@) == dirty_lines(*grid, *colors, dirty_rows@.take(i as int)),
        decreases dirty_rows.len() - i,
    {
        let row: usize = dirty_rows[i];
        proof {
            assert(dirty_rows@.take(i + 1).drop_last() =~= dirty_rows@.take(i as int));
            assert(dirty_rows@.take(i + 1).last() == row);
        }
        if row < lines {
            let change = RowChange {
                row: row as u32,
                cells: line_from_grid(grid, colors, row as i32),
            };
            proof {
                assert(grid_sync::row_models(rows@.push(change)) =~= grid_sync::row_models(
                    rows@,
                ).push(change@));
            }
            rows.push(change);
        }
        i = i + 1;
    }
    assert(dirty_rows@.take(i as int) =~= dirty_rows@);
    GridDiff { rows }
}

/// A row that is told as changed is told as the snapshot has it.
pub proof fn law_rows_and_snapshot_agree(grid: Grid<TermCell>, colors: Colors, row: int)
    requires
        0 <= row < term_grid::grid_lines(grid),
    ensures
        drawn_line(grid, colors, row) == drawn_screen(grid, colors).subrange(
            row * term_grid::grid_columns(grid),
            (row + 1) * term_grid::grid_columns(grid),
        ),
{
    let columns = term_grid::grid_columns(grid) as int;
    let lines = term_grid::grid_lines(grid) as int;
    assert(0 <= row * columns <= (row + 1) * columns <= lines * columns) by (nonlinear_arith)
        requires
            0 <= row < lines,
            0 <= columns,
    ;
    assert((row + 1) * columns == row * columns + columns) by (nonlinear_arith);
    let part = drawn_screen(grid, colors).subrange(row * columns, (row + 1) * columns);
    assert forall|c: int| 0 <= c < columns implies drawn_line(grid, colors, row)[c]
        == #[trigger] part[c] by {
        let i = row * columns + c;
        assert(i / columns == row && i % columns == c) by (nonlinear_arith)
            requires
                i == row * columns + c,
                0 <= c < columns,
        ;
    }
    assert(drawn_line(grid, colors, row) =~= part);
}

/// A cell is drawn as the terminal has it: its character and marks, its colours
/// each in its own place, and each of its flags by its own name.
pub proof fn law_cells_are_drawn_as_they_are(
    cell: TermCellModel,
    set: Map<int, Option<(u8, u8, u8)>>,
)
    ensures
        ({
            let shown = drawn(cell, set);
            let flags = cell.flags;
            &&& shown.character == seq![cell.character]
            &&& shown.zerowidth == cell.zerowidth
            &&& shown.hyperlink == cell.hyperlink
            &&& shown.foreground == palette::resolved(cell.foreground, set)
            &&& shown.background == palette::resolved(cell.background, set)
            &&& match cell.underline_color {
                Some(color) => shown.style.underline_color == Some(palette::resolved(color, set)),
                None => shown.style.underline_color is None,
            }
            &&& shown.style.reverse <==> flags & 0x1 == 0x1
            &&& shown.style.bold <==> flags & 0x2 == 0x2
            &&& shown.style.italic <==> flags & 0x4 == 0x4
            &&& shown.style.wrapline <==> flags & 0x10 == 0x10
            &&& shown.style.wide_char <==> flags & 0x20 == 0x20
            &&& shown.style.wide_char_spacer <==> flags & 0x40 == 0x40
            &&& shown.style.dim <==> flags & 0x80 == 0x80
            &&& shown.style.hidden <==> flags & 0x100 == 0x100
            &&& shown.style.strikethrough <==> flags & 0x200 == 0x200
            &&& shown.style.leading_wide_char_spacer <==> flags & 0x400 == 0x400
        }),
{
}

/// Where one way of underlining is set it is drawn, and where none is set
/// nothing is underlined; where several are set, the double line wins over the
/// curly one, that over the dotted, that over the dashed, and the plain line
/// loses to all.
pub proof fn law_underlines_are_drawn(flags: u16)
    ensures
        underline_of(flags) is Double <==> flags & 0x800 == 0x800,
        underline_of(flags) is Curly <==> flags & 0x1000 == 0x1000 && flags & 0x800 != 0x800,
        underline_of(flags) is Dotted <==> flags & 0x2000 == 0x2000 && flags & 0x800 != 0x800
            && flags & 0x1000 != 0x1000,
        underline_of(flags) is Dashed <==> flags & 0x4000 == 0x4000 && flags & 0x800 != 0x800
            && flags & 0x1000 != 0x1000 && flags & 0x2000 != 0x2000,
        underline_of(flags) is Single <==> flags & 0x8 == 0x8 && flags & 0x800 != 0x800 && flags
            & 0x1000 != 0x1000 && flags & 0x2000 != 0x2000 && flags & 0x4000 != 0x4000,
        underline_of(flags) is NotUnderlined <==> flags & 0x8 != 0x8 && flags & 0x800 != 0x800
            && flags & 0x1000 != 0x1000 && flags & 0x2000 != 0x2000 && flags & 0x4000 != 0x4000,
{
}

/// Whether the modes have numbers of one bit or more each, and no bit twice.
pub open spec fn are_apart(numbers: TerminalModes) -> bool {
    forall|i: int, k: int|
        0 <= i < numbers.pairs().len() && 0 <= k < numbers.pairs().len() ==> (
        #[trigger] numbers.pairs()[k]).1 != 0 && (i != k ==> (#[trigger] numbers.pairs()[i]).1
            & numbers.pairs()[k].1 == 0)
}

/// Each mode of a terminal is told under its own number.
pub proof fn law_modes_keep_their_names(mode: u32, numbers: TerminalModes)
    requires
        are_apart(numbers),
    ensures
        ({
            let told = gathered(mode, numbers.pairs());
            &&& has_mode(told, numbers.show_cursor) <==> mode & 0x1 == 0x1
            &&& has_mode(told, numbers.app_cursor) <==> mode & 0x2 == 0x2
            &&& has_mode(told, numbers.app_keypad) <==> mode & 0x4 == 0x4
            &&& has_mode(told, numbers.mouse_report_click) <==> mode & 0x8 == 0x8
            &&& has_mode(told, numbers.bracketed_paste) <==> mode & 0x10 == 0x10
            &&& has_mode(told, numbers.sgr_mouse) <==> mode & 0x20 == 0x20
            &&& has_mode(told, numbers.mouse_motion) <==> mode & 0x40 == 0x40
            &&& has_mode(told, numbers.line_wrap) <==> mode & 0x80 == 0x80
            &&& has_mode(told, numbers.line_feed_new_line) <==> mode & 0x100 == 0x100
            &&& has_mode(told, numbers.origin) <==> mode & 0x200 == 0x200
            &&& has_mode(told, numbers.insert) <==> mode & 0x400 == 0x400
            &&& has_mode(told, numbers.focus_in_out) <==> mode & 0x800 == 0x800
            &&& has_mode(told, numbers.alt_screen) <==> mode & 0x1000 == 0x1000
            &&& has_mode(told, numbers.mouse_drag) <==> mode & 0x2000 == 0x2000
            &&& has_mode(told, numbers.utf8_mouse) <==> mode & 0x4000 == 0x4000
            &&& has_mode(told, numbers.alternate_scroll) <==> mode & 0x8000 == 0x8000
            &&& has_mode(told, numbers.vi) <==> mode & 0x10000 == 0x10000
        }),
{
    let pairs = numbers.pairs();
    assert forall|k: int| 0 <= k < pairs.len() implies (has_mode(
        gathered(mode, pairs),
        (#[trigger] pairs[k]).1,
    ) <==> has_mode(mode, pairs[k].0)) by {
        law_each_mode_is_told(mode, numbers, k);
    }
    assert(pairs[0] == (0x2u32, numbers.app_cursor));
    assert(pairs[1] == (0x4u32, numbers.app_keypad));
    assert(pairs[2] == (0x1u32, numbers.show_cursor));
    assert(pairs[3] == (0x80u32, numbers.line_wrap));
    assert(pairs[4] == (0x200u32, numbers.origin));
    assert(pairs[5] == (0x400u32, numbers.insert));
    assert(pairs[6] == (0x100u32, numbers.line_feed_new_line));
    assert(pairs[7] == (0x800u32, numbers.focus_in_out));
    assert(pairs[8] == (0x8000u32, numbers.alternate_scroll));
    assert(pairs[9] == (0x10u32, numbers.bracketed_paste));
    assert(pairs[10] == (0x20u32, numbers.sgr_mouse));
    assert(pairs[11] == (0x4000u32, numbers.utf8_mouse));
    assert(pairs[12] == (0x1000u32, numbers.alt_screen));
    assert(pairs[13] == (0x8u32, numbers.mouse_report_click));
    assert(pairs[14] == (0x2000u32, numbers.mouse_drag));
    assert(pairs[15] == (0x40u32, numbers.mouse_motion));
    assert(pairs[16] == (0x10000u32, numbers.vi));
}

/// A screen has the size of the terminal, each cell of it at its line and
/// column, and the cursor where it is; the cursor is seen where the terminal
/// shows it and it has a shape.
pub proof fn law_screens_are_as_the_terminal(
    grid: Grid<TermCell>,
    colors: Colors,
    cursor: TermCursor,
    mode: u32,
    numbers: TerminalModes,
    line: int,
    column: int,
)
    requires
        is_numbered(grid),
        0 <= line < term_grid::grid_lines(grid),
        0 <= column < term_grid::grid_columns(grid),
    ensures
        ({
            let screen = snapshot_model(grid, colors, cursor, mode, numbers);
            &&& screen.cols == term_grid::grid_columns(grid)
            &&& screen.rows == term_grid::grid_lines(grid)
            &&& screen.cells.len() == screen.cols * screen.rows
            &&& 0 <= line * screen.cols + column < screen.cells.len()
            &&& screen.cells[line * screen.cols + column] == drawn(
                term_grid::grid_cells(grid)[(line, column)],
                term_grid::set_colors(colors),
            )
            &&& screen.cursor.col == cursor.column
            &&& cursor.line >= 0 ==> screen.cursor.row == cursor.line
            &&& cursor.line < 0 ==> screen.cursor.row == 0
            &&& screen.cursor.style == cursor.shape
            &&& screen.cursor.blinking == cursor.blinking
            &&& screen.cursor.visible <==> mode & 0x1 == 0x1 && !(cursor.shape is Hidden)
            &&& screen.alternate_screen <==> mode & 0x1000 == 0x1000
            &&& screen.modes == gathered(mode, numbers.pairs())
            &&& term_grid::grid_offset(grid) <= usize::MAX ==> screen.display_offset
                == term_grid::grid_offset(grid)
            &&& screen.history_size == term_grid::grid_history(grid)
        }),
{
    let columns = term_grid::grid_columns(grid) as int;
    let lines = term_grid::grid_lines(grid) as int;
    let at = line * columns + column;
    assert(0 <= at < lines * columns && at / columns == line && at % columns == column)
        by (nonlinear_arith)
        requires
            at == line * columns + column,
            0 <= line < lines,
            0 <= column < columns,
    ;
    assert(lines * columns == columns * lines) by (nonlinear_arith);
}

/// Going back, the lines fetched end with the line asked for; going on, they
/// begin with it. As many are fetched as were asked for, as far as there are
/// lines, and none where the line is not there.
pub proof fn law_scrollback_is_fetched_from_the_line(
    history: int,
    from: int,
    direction: u32,
    count: int,
)
    requires
        0 <= history,
        0 <= from,
        0 <= count,
    ensures
        ({
            let (start, end) = scrollback_range(history, from, direction, count);
            &&& 0 <= start <= end <= history
            &&& count == 0 || from >= history ==> start == end
            &&& count > 0 && from < history && direction == 0 ==> end == from + 1 && end - start
                == if count <= from + 1 {
                count
            } else {
                from + 1
            }
            &&& count > 0 && from < history && direction != 0 ==> start == from && end - start
                == if count <= history - from {
                count
            } else {
                history - from
            }
        }),
{
}

/// A line of the history is told under its number, counted from the oldest one,
/// with its cells in their columns.
pub proof fn law_history_lines_keep_their_cells(
    grid: Grid<TermCell>,
    colors: Colors,
    index: int,
    column: int,
)
    requires
        is_numbered(grid),
        0 <= index < term_grid::grid_history(grid),
        0 <= column < term_grid::grid_columns(grid),
    ensures
        history_row(grid, colors, index).row == index,
        history_row(grid, colors, index).cells.len() == term_grid::grid_columns(grid),
        history_row(grid, colors, index).cells[column] == drawn(
            term_grid::grid_cells(grid)[(index - term_grid::grid_history(grid), column)],
            term_grid::set_colors(colors),
        ),
        history_text(grid, index).len() == term_grid::grid_columns(grid),
        history_row(grid, colors, index).cells[column].character == seq![
            history_text(grid, index)[column],
        ],
{
}

/// A search looks at the lines of the history in order: back from the line it
/// starts from, or from the last one where that is not there, or on from it.
pub proof fn law_searches_go_line_by_line(history: int, from: int, direction: u32)
    requires
        0 <= history,
        0 <= from,
    ensures
        ({
            let order = search_order(history, from, direction);
            let step = if direction == 0 {
                -1int
            } else {
                1
            };
            &&& order.len() > 0 <==> history > 0 && (direction == 0 || from < history)
            &&& order.len() > 0 && from < history ==> order[0] == from
            &&& order.len() > 0 && from >= history ==> order[0] == history - 1
            &&& order.len() > 0 && direction == 0 ==> order.last() == 0
            &&& order.len() > 0 && direction != 0 ==> order.last() == history - 1
            &&& forall|i: int|
                0 <= i < order.len() ==> 0 <= #[trigger] order[i] < history && order[i] == order[0]
                    + step * i
        }),
{
    let order = search_order(history, from, direction);
    assert forall|i: int| 0 <= i < order.len() implies 0 <= #[trigger] order[i] < history
        && order[i] == order[0] + if direction == 0 {
        -1int
    } else {
        1
    } * i by {
        if direction == 0 {
            assert(-1 * i == -i);
        }
    }
}

/// The test for the lines of the history in which a pattern is found.
pub open spec fn line_matches(grid: Grid<TermCell>, pattern: Seq<char>) -> spec_fn(int) -> bool {
    |index: int| pattern::is_found(pattern, history_text(grid, index))
}

proof fn lemma_hits(grid: Grid<TermCell>, pattern: Seq<char>, order: Seq<int>)
    ensures
        hits(grid, pattern, order) == order.filter(line_matches(grid, pattern)),
    decreases order.len(),
{
    reveal(Seq::filter);
    if order.len() > 0 {
        lemma_hits(grid, pattern, order.drop_last());
    }
}

/// What a search finds are the lines in which the pattern is, in the order in
/// which it looks at them and each as it is in the history, up to the number
/// asked for.
pub proof fn law_searches_find_every_line(
    grid: Grid<TermCell>,
    colors: Colors,
    pattern: Seq<char>,
    from: int,
    direction: u32,
    max: int,
)
    requires
        is_numbered(grid),
        0 <= from,
        0 <= max,
    ensures
        ({
            let found = search_order(
                term_grid::grid_history(grid) as int,
                from,
                direction,
            ).filter(line_matches(grid, pattern));
            let results = search_results(grid, colors, pattern, from, direction, max);
            &&& results.len() == if found.len() <= max {
                found.len() as int
            } else {
                max
            }
            &&& forall|i: int|
                0 <= i < results.len() ==> (#[trigger] results[i]).0 == found[i] && results[i].1
                    == history_row(grid, colors, found[i])
        }),
{
    let history = term_grid::grid_history(grid) as int;
    let order = search_order(history, from, direction);
    lemma_hits(grid, pattern, order);
    law_searches_go_line_by_line(history, from, direction);
    let found = order.filter(line_matches(grid, pattern));
    let results = search_results(grid, colors, pattern, from, direction, max);
    lemma_filter_keeps(order, line_matches(grid, pattern), history);
    assert forall|i: int| 0 <= i < results.len() implies (#[trigger] results[i]).0 == found[i]
        && results[i].1 == history_row(grid, colors, found[i]) by {
        assert(0 <= found[i] < history);
    }
}

proof fn lemma_filter_keeps(order: Seq<int>, test: spec_fn(int) -> bool, history: int)
    requires
        forall|i: int| 0 <= i < order.len() ==> 0 <= #[trigger] order[i] < history,
    ensures
        forall|i: int|
            0 <= i < order.filter(test).len() ==> 0 <= #[trigger] order.filter(test)[i] < history,
    decreases order.len(),
{
    reveal(Seq::filter);
    if order.len() > 0 {
        let init = order.drop_last();
        assert forall|i: int| 0 <= i < init.len() implies 0 <= #[trigger] init[i] < history by {
            assert(init[i] == order[i]);
        }
        lemma_filter_keeps(init, test, history);
        let last = order[order.len() - 1];
        let all = order.filter(test);
        let before = init.filter(test);
        assert forall|i: int| 0 <= i < all.len() implies 0 <= #[trigger] all[i] < history by {
            if i < before.len() {
                assert(all[i] == before[i]);
            } else {
                assert(all[i] == last);
            }
        }
    }
}

/// The test for rows that a screen of so many lines has.
pub open spec fn is_line(lines: nat) -> spec_fn(usize) -> bool {
    |row: usize| row < lines
}

/// Of the rows that changed those that the screen has are told, in their order,
/// each under its number and as it is on the screen.
pub proof fn law_changed_rows_are_told(grid: Grid<TermCell>, colors: Colors, dirty: Seq<usize>)
    requires
        is_numbered(grid),
    ensures
        ({
            let rows = dirty.filter(is_line(term_grid::grid_lines(grid)));
            let told = dirty_lines(grid, colors, dirty);
            &&& told.len() == rows.len()
            &&& forall|i: int|
                0 <= i < told.len() ==> (#[trigger] told[i]).row == rows[i] && told[i].cells
                    == drawn_line(grid, colors, rows[i] as int)
        }),
    decreases dirty.len(),
{
    reveal(Seq::filter);
    if dirty.len() > 0 {
        let init = dirty.drop_last();
        law_changed_rows_are_told(grid, colors, init);
        let rows = dirty.filter(is_line(term_grid::grid_lines(grid)));
        let before = init.filter(is_line(term_grid::grid_lines(grid)));
        let told = dirty_lines(grid, colors, dirty);
        assert forall|i: int| 0 <= i < told.len() implies (#[trigger] told[i]).row == rows[i]
            && told[i].cells == drawn_line(grid, colors, rows[i] as int) by {
            if i < before.len() {
                assert(told[i] == dirty_lines(grid, colors, init)[i]);
                assert(rows[i] == before[i]);
            }
        }
    }
}

/// Lines count up to two to the power of 31 and columns up to that of 32; a grid
/// with more of them is not numbered.
pub proof fn law_grids_are_numbered_up_to_a_limit(grid: Grid<TermCell>)
    ensures
        is_numbered(grid) <==> term_grid::grid_columns(grid) < 0x1_0000_0000
            && term_grid::grid_lines(grid) < 0x8000_0000 && term_grid::grid_history(grid)
            < 0x8000_0000,
{
}

} // verus!
