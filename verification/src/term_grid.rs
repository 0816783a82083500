//! Reading the grid of a terminal emulator: what `alacritty_terminal` keeps of
//! a screen, its history and its colours.
use alacritty_terminal::grid::{Dimensions, Grid};
use alacritty_terminal::index::{Column, Line, Point};
use alacritty_terminal::term::cell::Cell as TermCell;
use alacritty_terminal::term::color::Colors;
use alacritty_terminal::vte::ansi::Color;
use crate::grid_sync;
use crate::grid_sync::Hyperlink;
use vstd::prelude::*;

verus! {

/// A colour as a program asked for it.
#[derive(Clone, Copy, Debug, PartialEq, Eq, Structural)]
pub enum TermColor {
    /// A colour by its place among the names: 0 to 15 and 256 to 268.
    Named(u16),
    /// A colour by its red, green and blue parts.
    Spec(u8, u8, u8),
    /// A colour by its place in the table of 256.
    Indexed(u8),
}

/// Whether a place among the names has one.
pub open spec fn is_name(index: int) -> bool {
    0 <= index < 16 || 256 <= index <= 268
}

impl TermColor {
    /// Whether a name that is asked for exists.
    pub open spec fn wf(self) -> bool {
        self is Named ==> is_name(self->Named_0 as int)
    }
}

/// What a cell of the grid holds.
pub struct TermCellModel {
    pub character: char,
    pub zerowidth: Seq<char>,
    pub flags: u16,
    pub foreground: TermColor,
    pub background: TermColor,
    pub underline_color: Option<TermColor>,
    /// The identifier and the target of a link.
    pub hyperlink: Option<(Seq<char>, Seq<char>)>,
}

/// `alacritty_terminal::grid::Grid`: a screen and its history. Nothing is
/// claimed of what is inside but by the functions below.
#[verifier::external_type_specification]
#[verifier::external_body]
#[verifier::reject_recursive_types(T)]
pub struct ExGrid<T>(alacritty_terminal::grid::Grid<T>);

/// `alacritty_terminal::term::cell::Cell`: a cell of a grid.
#[verifier::external_type_specification]
#[verifier::external_body]
pub struct ExTermCell(TermCell);

/// `alacritty_terminal::term::color::Colors`: the colours that a program has
/// set. Nothing is claimed of what is inside but by `set_color`.
#[verifier::external_type_specification]
#[verifier::external_body]
pub struct ExColors(alacritty_terminal::term::color::Colors);

/// `alacritty_terminal::vte::ansi::Rgb`: what the table of colours is indexed to.
#[verifier::external_type_specification]
#[verifier::external_body]
pub struct ExRgb(alacritty_terminal::vte::ansi::Rgb);

/// The cells of a grid by line and column. Line 0 is the top of the screen,
/// and the lines of the history count down from -1.
pub uninterp spec fn grid_cells(grid: Grid<TermCell>) -> Map<(int, int), TermCellModel>;

/// The width of a grid.
pub uninterp spec fn grid_columns(grid: Grid<TermCell>) -> nat;

/// The height of the screen of a grid.
pub uninterp spec fn grid_lines(grid: Grid<TermCell>) -> nat;

/// The number of lines of the history of a grid.
pub uninterp spec fn grid_history(grid: Grid<TermCell>) -> nat;

/// How far a grid is scrolled back.
pub uninterp spec fn grid_offset(grid: Grid<TermCell>) -> nat;

/// Whether a place is in a grid.
pub open spec fn in_grid(grid: Grid<TermCell>, line: int, column: int) -> bool {
    -grid_history(grid) <= line < grid_lines(grid) && 0 <= column < grid_columns(grid)
}

/// `Dimensions::columns` of a grid: its width.
#[verifier::external_body]
pub(crate) fn columns_of(grid: &Grid<TermCell>) -> (columns: usize)
    ensures
        columns == grid_columns(*grid),
{
    grid.columns()
}

/// `Dimensions::screen_lines` of a grid: the height of its screen.
#[verifier::external_body]
pub(crate) fn screen_lines_of(grid: &Grid<TermCell>) -> (lines: usize)
    ensures
        lines == grid_lines(*grid),
{
    grid.screen_lines()
}

/// `Dimensions::history_size` of a grid: the number of lines that have left
/// the screen and are kept.
#[verifier::external_body]
pub(crate) fn history_size_of(grid: &Grid<TermCell>) -> (size: usize)
    ensures
        size == grid_history(*grid),
{
    grid.history_size()
}

/// `Grid::display_offset`: how many lines the display is scrolled back.
#[verifier::external_body]
pub(crate) fn display_offset_of(grid: &Grid<TermCell>) -> (offset: usize)
    ensures
        offset == grid_offset(*grid),
{
    grid.display_offset()
}

/// `Index<Point>` of a grid, the field `c` of the cell there: its character.
#[verifier::external_body]
pub(crate) fn character_at(grid: &Grid<TermCell>, line: i32, column: usize) -> (text: String)
    requires
        in_grid(*grid, line as int, column as int),
    ensures
        text@ == seq![grid_cells(*grid)[(line as int, column as int)].character],
{
    grid[Point::new(Line(line), Column(column))].c.to_string()
}

/// `Cell::zerowidth` of the cell at a place: the characters that are drawn
/// over its own.
#[verifier::external_body]
pub(crate) fn zerowidth_at(grid: &Grid<TermCell>, line: i32, column: usize) -> (text: String)
    requires
        in_grid(*grid, line as int, column as int),
    ensures
        text@ == grid_cells(*grid)[(line as int, column as int)].zerowidth,
{
    grid[Point::new(Line(line), Column(column))].zerowidth().into_iter().flatten().collect()
}

/// `Flags::bits` of the cell at a place: its flags as a number.
#[verifier::external_body]
pub(crate) fn flags_at(grid: &Grid<TermCell>, line: i32, column: usize) -> (flags: u16)
    requires
        in_grid(*grid, line as int, column as int),
    ensures
        flags == grid_cells(*grid)[(line as int, column as int)].flags,
{
    grid[Point::new(Line(line), Column(column))].flags.bits()
}

/// `Index<Point>` of a grid, the field `fg` of the cell there: the colour of
/// its character. A named colour goes by the number that its name stands for.
#[verifier::external_body]
pub(crate) fn foreground_at(grid: &Grid<TermCell>, line: i32, column: usize) -> (color: TermColor)
    requires
        in_grid(*grid, line as int, column as int),
    ensures
        color == grid_cells(*grid)[(line as int, column as int)].foreground,
        color.wf(),
{
    match grid[Point::new(Line(line), Column(column))].fg {
        Color::Named(name) => TermColor::Named(name as u16),
        Color::Spec(rgb) => TermColor::Spec(rgb.r, rgb.g, rgb.b),
        Color::Indexed(index) => TermColor::Indexed(index),
    }
}

/// `Index<Point>` of a grid, the field `bg` of the cell there: the colour
/// behind its character. A named colour goes by the number that its name
/// stands for.
#[verifier::external_body]
pub(crate) fn background_at(grid: &Grid<TermCell>, line: i32, column: usize) -> (color: TermColor)
    requires
        in_grid(*grid, line as int, column as int),
    ensures
        color == grid_cells(*grid)[(line as int, column as int)].background,
        color.wf(),
{
    match grid[Point::new(Line(line), Column(column))].bg {
        Color::Named(name) => TermColor::Named(name as u16),
        Color::Spec(rgb) => TermColor::Spec(rgb.r, rgb.g, rgb.b),
        Color::Indexed(index) => TermColor::Indexed(index),
    }
}

/// `Cell::underline_color` of the cell at a place: the colour of its
/// underline, where it has one of its own.
#[verifier::external_body]
pub(crate) fn underline_color_at(grid: &Grid<TermCell>, line: i32, column: usize) -> (color: Option<
    TermColor,
>)
    requires
        in_grid(*grid, line as int, column as int),
    ensures
        color == grid_cells(*grid)[(line as int, column as int)].underline_color,
        color is Some ==> color->0.wf(),
{
    match grid[Point::new(Line(line), Column(column))].underline_color() {
        Some(Color::Named(name)) => Some(TermColor::Named(name as u16)),
        Some(Color::Spec(rgb)) => Some(TermColor::Spec(rgb.r, rgb.g, rgb.b)),
        Some(Color::Indexed(index)) => Some(TermColor::Indexed(index)),
        None => None,
    }
}

/// `Cell::hyperlink` of the cell at a place: the identifier and the target of
/// its link, where it has one.
#[verifier::external_body]
pub(crate) fn hyperlink_at(grid: &Grid<TermCell>, line: i32, column: usize) -> (hyperlink: Option<
    Hyperlink,
>)
    requires
        in_grid(*grid, line as int, column as int),
    ensures
        grid_sync::link(hyperlink) == grid_cells(*grid)[(line as int, column as int)].hyperlink,
{
    match grid[Point::new(Line(line), Column(column))].hyperlink() {
        Some(link) => Some(Hyperlink { id: link.id().to_string(), uri: link.uri().to_string() }),
        None => None,
    }
}

/// The colours that a program has set, by their place in the table.
pub uninterp spec fn set_colors(colors: Colors) -> Map<int, Option<(u8, u8, u8)>>;

/// The number of places in the table of colours.
pub const COLOR_COUNT: usize = 269;

/// `Index<usize>` of the table of colours: the red, green and blue parts of
/// the colour at a place, where a program has set it.
#[verifier::external_body]
pub(crate) fn set_color(colors: &Colors, index: usize) -> (color: Option<(u8, u8, u8)>)
    requires
        index < COLOR_COUNT,
    ensures
        color == set_colors(*colors)[index as int],
{
    match colors[index] {
        Some(rgb) => Some((rgb.r, rgb.g, rgb.b)),
        None => None,
    }
}

} // verus!
