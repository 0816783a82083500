use alacritty_terminal::event::VoidListener;
use alacritty_terminal::grid::{Dimensions, Scroll};
use alacritty_terminal::term::test::TermSize;
use alacritty_terminal::term::{Config, Term};
use alacritty_terminal::vte::ansi::{CursorShape as TerminalCursor, Processor, StdSyncHandler};
use mux_server::grid_sync::{
    build_empty_snapshot, Cell, CursorShape, FullGridSnapshot, GridDiff, GridDiffRing, GridUpdate,
    Hyperlink, RowChange, UnderlineStyle,
};
use mux_server::term_snapshot::{
    can_be_numbered, cell_from_grid, diff_from_dirty, fetch_scrollback_from_term, modes_from_bits,
    row_from_history, search_scrollback_from_term, snapshot_from_term, TermCursor, TerminalModes,
};

const SHOW_CURSOR: u32 = 0x4;

fn numbers() -> TerminalModes {
    TerminalModes {
        app_cursor: 0x1,
        app_keypad: 0x2,
        show_cursor: SHOW_CURSOR,
        line_wrap: 0x8,
        origin: 0x10,
        insert: 0x20,
        line_feed_new_line: 0x40,
        focus_in_out: 0x80,
        alternate_scroll: 0x100,
        bracketed_paste: 0x200,
        sgr_mouse: 0x400,
        utf8_mouse: 0x800,
        alt_screen: 0x1000,
        mouse_report_click: 0x2000,
        mouse_drag: 0x4000,
        mouse_motion: 0x8000,
        vi: 0x10000,
    }
}

fn new_term(cols: u32, rows: u32) -> Term<VoidListener> {
    let size = TermSize::new(cols as usize, rows as usize);
    Term::new(Config::default(), &size, VoidListener)
}

fn term_with_output(cols: u32, rows: u32, bytes: &[u8]) -> Term<VoidListener> {
    let mut term = new_term(cols, rows);
    let mut processor = Processor::<StdSyncHandler>::new();
    processor.advance(&mut term, bytes);
    assert!(can_be_numbered(term.grid()));
    term
}

fn cursor_of(term: &Term<VoidListener>) -> TermCursor {
    let cursor = term.renderable_content().cursor;
    TermCursor {
        line: cursor.point.line.0,
        column: cursor.point.column.0 as u32,
        shape: match cursor.shape {
            TerminalCursor::Block => CursorShape::Block,
            TerminalCursor::Beam => CursorShape::Bar,
            TerminalCursor::Underline => CursorShape::Underline,
            TerminalCursor::HollowBlock => CursorShape::HollowBlock,
            TerminalCursor::Hidden => CursorShape::Hidden,
        },
        blinking: term.cursor_style().blinking,
    }
}

fn snapshot(term: &Term<VoidListener>) -> FullGridSnapshot {
    snapshot_from_term(
        term.grid(),
        term.colors(),
        cursor_of(term),
        term.mode().bits(),
        &numbers(),
    )
}

fn dirty(term: &Term<VoidListener>, rows: &[usize]) -> GridDiff {
    diff_from_dirty(term.grid(), term.colors(), &rows.to_vec())
}

fn history_row(term: &Term<VoidListener>, index: usize) -> RowChange {
    row_from_history(term.grid(), term.colors(), index)
}

fn scrollback(
    term: &Term<VoidListener>,
    from_line: u32,
    direction: u32,
    count: u32,
) -> (Vec<RowChange>, u32) {
    fetch_scrollback_from_term(term.grid(), term.colors(), from_line, direction, count)
}

fn search(
    term: &Term<VoidListener>,
    regex: &str,
    from_line: u32,
    direction: u32,
    max_results: u32,
) -> Vec<(u32, RowChange)> {
    search_scrollback_from_term(
        term.grid(),
        term.colors(),
        regex,
        from_line,
        direction,
        max_results,
    )
}

fn row_text(row: &RowChange) -> String {
    row.cells
        .iter()
        .map(|cell| cell.character.as_str())
        .collect()
}

fn snapshot_row_text(snapshot: &FullGridSnapshot, row: u32) -> String {
    let cols = snapshot.cols as usize;
    let start = row as usize * cols;
    snapshot.cells[start..start + cols]
        .iter()
        .map(|cell| cell.character.as_str())
        .collect()
}

fn first_cell(term: &Term<VoidListener>, line: i32, column: usize) -> Cell {
    cell_from_grid(term.grid(), term.colors(), line, column)
}

fn dirty_row_numbers(diff: &GridDiff) -> Vec<u32> {
    diff.rows.iter().map(|row| row.row).collect()
}

fn match_indices(matches: &[(u32, RowChange)]) -> Vec<u32> {
    matches.iter().map(|(index, _)| *index).collect()
}

#[test]
fn diff_from_dirty_emits_only_the_requested_rows_at_full_width() {
    let term = term_with_output(4, 3, b"AA\r\nBB\r\nCC");

    let diff = dirty(&term, &[1]);

    assert_eq!(dirty_row_numbers(&diff), vec![1]);
    assert_eq!(
        diff.rows[0].cells.len(),
        4,
        "row diff must carry every column, got {:?}",
        row_text(&diff.rows[0])
    );
    assert_eq!(row_text(&diff.rows[0]), "BB  ");
}

#[test]
fn diff_from_dirty_without_dirty_rows_is_empty_not_a_full_grid() {
    let term = term_with_output(4, 3, b"AA\r\nBB\r\nCC");

    let diff = dirty(&term, &[]);

    assert_eq!(
        dirty_row_numbers(&diff),
        Vec::<u32>::new(),
        "an empty dirty set must not degrade into a full-grid diff"
    );
}

#[test]
fn diff_from_dirty_drops_out_of_range_rows_and_keeps_caller_order() {
    let term = term_with_output(4, 3, b"AA\r\nBB\r\nCC");

    let diff = dirty(&term, &[2, 3, 99, 0]);

    assert_eq!(dirty_row_numbers(&diff), vec![2, 0]);
    assert_eq!(row_text(&diff.rows[0]), "CC  ");
    assert_eq!(row_text(&diff.rows[1]), "AA  ");
}

#[test]
fn diff_from_dirty_rows_share_the_snapshot_coordinate_space_while_scrolled_back() {
    let mut term = term_with_output(4, 2, b"L0\r\nL1\r\nL2\r\nL3");
    term.scroll_display(Scroll::Delta(2));
    let snapshot = snapshot(&term);
    assert_eq!(
        snapshot.display_offset, 2,
        "test needs a scrolled-back viewport to be meaningful"
    );

    let diff = dirty(&term, &[0, 1]);

    // A client applies row diffs on top of the last full snapshot, so both
    // must number rows identically even when the viewport is scrolled.
    for row_change in &diff.rows {
        assert_eq!(
            row_text(row_change),
            snapshot_row_text(&snapshot, row_change.row),
            "row {} diverges between diff and snapshot",
            row_change.row
        );
    }
    assert_eq!(row_text(&diff.rows[0]), "L2  ");
    assert_eq!(row_text(&diff.rows[1]), "L3  ");
}

#[test]
fn history_index_zero_is_the_oldest_scrollback_line() {
    let term = term_with_output(4, 2, b"A\r\nB\r\nC\r\nD\r\nE");
    let history_size = term.grid().history_size();
    assert_eq!(history_size, 3, "expected A/B/C to have scrolled off");

    let oldest = history_row(&term, 0);
    let middle = history_row(&term, 1);
    let newest = history_row(&term, history_size - 1);

    assert_eq!(row_text(&oldest), "A   ");
    assert_eq!(row_text(&middle), "B   ");
    assert_eq!(row_text(&newest), "C   ");
    assert_eq!(oldest.row, 0);
    assert_eq!(newest.row, 2);
    assert_eq!(oldest.cells.len(), 4);
}

#[test]
fn history_index_maps_to_alacritty_line_index_minus_history_size() {
    let term = term_with_output(4, 2, b"A\r\nB\r\nC\r\nD\r\nE");
    let history_size = term.grid().history_size();

    // Off-by-one here shifts the whole scrollback, so pin both ends
    // directly against the alacritty grid rather than against text.
    assert_eq!(
        history_row(&term, 0).cells[0].character,
        first_cell(&term, -(history_size as i32), 0).character
    );
    assert_eq!(
        history_row(&term, history_size - 1).cells[0].character,
        first_cell(&term, -1, 0).character
    );
}

#[test]
fn history_rows_carry_cell_attributes_not_just_text() {
    let term = term_with_output(4, 2, b"\x1b[1mA\x1b[0m\r\nB\r\nC\r\nD\r\nE");
    let history_size = term.grid().history_size();

    let oldest = history_row(&term, 0);

    assert!(
        oldest.cells[0].style.bold,
        "scrollback line lost its bold attribute: {:?}",
        oldest.cells[0].style
    );
}

#[test]
fn fetch_scrollback_walks_older_and_newer_in_ascending_index_order() {
    let term = term_with_output(4, 2, b"A\r\nB\r\nC\r\nD\r\nE");

    let (newer, total) = scrollback(&term, 0, 1, 10);
    assert_eq!(total, 3);
    assert_eq!(
        newer.iter().map(row_text).collect::<Vec<_>>(),
        vec!["A   ", "B   ", "C   "]
    );

    let (older, _) = scrollback(&term, 2, 0, 2);
    assert_eq!(
        older.iter().map(row_text).collect::<Vec<_>>(),
        vec!["B   ", "C   "]
    );
}

#[test]
fn fetch_scrollback_returns_total_but_no_rows_for_degenerate_requests() {
    let term = term_with_output(4, 2, b"A\r\nB\r\nC\r\nD\r\nE");

    let (rows, total) = scrollback(&term, 0, 1, 0);
    assert!(rows.is_empty(), "count == 0 must yield no rows");
    assert_eq!(total, 3);

    let (rows, total) = scrollback(&term, 99, 1, 10);
    assert!(
        rows.is_empty(),
        "out-of-range from_line must yield no rows, got {:?}",
        rows.iter().map(row_text).collect::<Vec<_>>()
    );
    assert_eq!(total, 3);

    let empty = term_with_output(4, 2, b"A");
    let (rows, total) = scrollback(&empty, 0, 1, 10);
    assert!(rows.is_empty());
    assert_eq!(total, 0);
}

#[test]
fn sgr_attributes_map_onto_cell_style() {
    let term = term_with_output(4, 1, b"\x1b[1;2;3;4;7;8;9mX");

    let cell = first_cell(&term, 0, 0);

    assert_eq!(cell.character, "X");
    assert!(cell.style.bold, "bold missing from {:?}", cell.style);
    assert!(cell.style.dim, "dim missing from {:?}", cell.style);
    assert!(cell.style.italic, "italic missing from {:?}", cell.style);
    assert!(cell.style.reverse, "reverse missing from {:?}", cell.style);
    assert!(cell.style.hidden, "hidden missing from {:?}", cell.style);
    assert!(
        cell.style.strikethrough,
        "strikethrough missing from {:?}",
        cell.style
    );
    assert_eq!(cell.style.underline, UnderlineStyle::Single);
}

#[test]
fn plain_cell_carries_no_attributes() {
    let term = term_with_output(4, 1, b"X");

    let cell = first_cell(&term, 0, 0);

    assert!(!cell.style.bold, "unexpected style {:?}", cell.style);
    assert!(!cell.style.italic, "unexpected style {:?}", cell.style);
    assert!(!cell.style.reverse, "unexpected style {:?}", cell.style);
    assert!(!cell.style.wrapline, "unexpected style {:?}", cell.style);
    assert_eq!(cell.style.underline, UnderlineStyle::NotUnderlined);
    assert_eq!(cell.zerowidth, "");
    assert_eq!(cell.hyperlink, None);
}

#[test]
fn underline_variants_map_to_distinct_underline_styles() {
    for (sequence, expected) in [
        (b"\x1b[4mX".as_slice(), UnderlineStyle::Single),
        (b"\x1b[4:2mX".as_slice(), UnderlineStyle::Double),
        (b"\x1b[4:3mX".as_slice(), UnderlineStyle::Curly),
        (b"\x1b[4:4mX".as_slice(), UnderlineStyle::Dotted),
        (b"\x1b[4:5mX".as_slice(), UnderlineStyle::Dashed),
        (b"\x1b[4m\x1b[24mX".as_slice(), UnderlineStyle::NotUnderlined),
    ] {
        let term = term_with_output(4, 1, sequence);
        let cell = first_cell(&term, 0, 0);
        assert_eq!(
            cell.style.underline,
            expected,
            "sequence {:?} produced the wrong underline",
            String::from_utf8_lossy(sequence)
        );
    }
}

#[test]
fn underline_color_resolves_through_the_default_palette() {
    let term = term_with_output(4, 1, b"\x1b[4m\x1b[58;5;33mX");

    let cell = first_cell(&term, 0, 0);

    assert_eq!(cell.style.underline, UnderlineStyle::Single);
    assert_eq!(cell.style.underline_color, Some(0x0087ff));
}

#[test]
fn named_indexed_and_rgb_colors_resolve_to_the_default_palette() {
    let default_cell = first_cell(&term_with_output(4, 1, b"X"), 0, 0);
    assert_eq!(default_cell.foreground, 0xdddddd);
    assert_eq!(default_cell.background, 0x000000);

    let named = first_cell(&term_with_output(4, 1, b"\x1b[31;44mX"), 0, 0);
    assert_eq!(named.foreground, 0xcc5555);
    assert_eq!(named.background, 0x5555cc);

    let bright = first_cell(&term_with_output(4, 1, b"\x1b[91mX"), 0, 0);
    assert_eq!(bright.foreground, 0xff7777);

    // 196 sits in the 6x6x6 cube: (5,0,0) -> 0xff0000.
    let indexed = first_cell(&term_with_output(4, 1, b"\x1b[38;5;196mX"), 0, 0);
    assert_eq!(indexed.foreground, 0xff0000);

    // 244 sits in the grayscale ramp: 12 * 10 + 8 = 128.
    let grayscale = first_cell(&term_with_output(4, 1, b"\x1b[38;5;244mX"), 0, 0);
    assert_eq!(grayscale.foreground, 0x808080);

    let truecolor = first_cell(&term_with_output(4, 1, b"\x1b[38;2;18;52;86mX"), 0, 0);
    assert_eq!(truecolor.foreground, 0x123456);
}

#[test]
fn osc_4_palette_override_beats_the_default_palette() {
    let term = term_with_output(4, 1, b"\x1b]4;1;rgb:12/34/56\x1b\\\x1b[31mX");

    let cell = first_cell(&term, 0, 0);

    assert_eq!(
        cell.foreground, 0x123456,
        "OSC 4 override must win over the built-in xterm fallback"
    );
}

#[test]
fn wide_char_occupies_two_cells_with_a_trailing_spacer() {
    let term = term_with_output(4, 1, "漢".as_bytes());

    let wide = first_cell(&term, 0, 0);
    let spacer = first_cell(&term, 0, 1);

    assert_eq!(wide.character, "漢");
    assert!(wide.style.wide_char, "wide flag missing: {:?}", wide.style);
    assert!(!wide.style.wide_char_spacer);
    assert_eq!(spacer.character, " ");
    assert!(
        spacer.style.wide_char_spacer,
        "spacer flag missing: {:?}",
        spacer.style
    );
    assert!(!spacer.style.wide_char);
}

#[test]
fn wide_char_at_the_row_edge_emits_a_leading_spacer_and_wraps() {
    let term = term_with_output(4, 2, "abc漢".as_bytes());

    let leading_spacer = first_cell(&term, 0, 3);
    let wide = first_cell(&term, 1, 0);

    assert!(
        leading_spacer.style.leading_wide_char_spacer,
        "leading spacer flag missing: {:?}",
        leading_spacer.style
    );
    assert_eq!(wide.character, "漢");
    assert!(wide.style.wide_char, "wide flag missing: {:?}", wide.style);
}

#[test]
fn combining_marks_land_in_zerowidth_not_in_character() {
    let term = term_with_output(4, 1, "e\u{0301}\u{0302}".as_bytes());

    let cell = first_cell(&term, 0, 0);

    assert_eq!(cell.character, "e");
    assert_eq!(cell.zerowidth, "\u{0301}\u{0302}");
}

#[test]
fn wrapline_marks_only_the_final_cell_of_a_continued_row() {
    let term = term_with_output(4, 3, b"ABCDE");

    let diff = dirty(&term, &[0, 1]);
    let wrapped: Vec<bool> = diff.rows[0]
        .cells
        .iter()
        .map(|cell| cell.style.wrapline)
        .collect();

    // `capture-pane -J` joins on this flag, so it must sit on the last
    // column of the wrapped row and nowhere else.
    assert_eq!(wrapped, vec![false, false, false, true]);
    assert_eq!(row_text(&diff.rows[0]), "ABCD");
    assert_eq!(row_text(&diff.rows[1]), "E   ");
    assert!(
        diff.rows[1].cells.iter().all(|cell| !cell.style.wrapline),
        "continuation row must not be marked as wrapped"
    );
}

#[test]
fn wrapline_survives_the_trip_into_scrollback() {
    let term = term_with_output(4, 2, b"ABCDE\r\nF\r\nG\r\nH");
    let history_size = term.grid().history_size();
    assert!(history_size >= 2, "history_size was {history_size}");

    let wrapped_row = history_row(&term, 0);

    assert_eq!(row_text(&wrapped_row), "ABCD");
    assert!(
        wrapped_row.cells[3].style.wrapline,
        "scrollback lost WRAPLINE: {:?}",
        wrapped_row.cells[3].style
    );
}

#[test]
fn osc_8_hyperlink_is_exported_with_id_and_uri() {
    let term = term_with_output(
        8,
        1,
        b"\x1b]8;id=link1;https://example.com\x1b\\Z\x1b]8;;\x1b\\Y",
    );

    let linked = first_cell(&term, 0, 0);
    let plain = first_cell(&term, 0, 1);

    assert_eq!(
        linked.hyperlink,
        Some(Hyperlink {
            id: "link1".to_string(),
            uri: "https://example.com".to_string(),
        })
    );
    assert_eq!(plain.hyperlink, None);
}

fn term_with_search_history() -> Term<VoidListener> {
    // History ends up as [one, two, three, two]; "five" stays on screen.
    term_with_output(8, 2, b"one\r\ntwo\r\nthree\r\ntwo\r\nfour\r\nfive")
}

#[test]
fn search_direction_zero_walks_toward_older_lines() {
    let term = term_with_search_history();
    assert_eq!(term.grid().history_size(), 4);

    let matches = search(&term, "two", 3, 0, 10);

    assert_eq!(match_indices(&matches), vec![3, 1]);
    assert_eq!(matches[0].1.row, 3);
    assert_eq!(
        matches[0].1.cells.len(),
        8,
        "search hits must carry a full-width row"
    );
    assert_eq!(row_text(&matches[0].1), "two     ");
}

#[test]
fn search_direction_one_walks_toward_newer_lines() {
    let term = term_with_search_history();

    let matches = search(&term, "two", 0, 1, 10);

    assert_eq!(match_indices(&matches), vec![1, 3]);
}

#[test]
fn search_clamps_an_out_of_range_start_when_walking_older() {
    let term = term_with_search_history();

    let matches = search(&term, "two", 999, 0, 10);

    assert_eq!(match_indices(&matches), vec![3, 1]);
}

#[test]
fn search_past_the_newest_history_line_finds_nothing() {
    let term = term_with_search_history();

    let matches = search(&term, "two", 999, 1, 10);

    assert_eq!(match_indices(&matches), Vec::<u32>::new());
}

#[test]
fn search_truncates_at_max_results() {
    let term = term_with_search_history();

    assert_eq!(
        match_indices(&search(&term, "two", 3, 0, 1)),
        vec![3]
    );
    assert_eq!(
        match_indices(&search(&term, "two", 0, 1, 1)),
        vec![1]
    );
}

#[test]
fn search_returns_empty_for_zero_max_results_or_empty_history() {
    let term = term_with_search_history();
    assert_eq!(
        match_indices(&search(&term, "two", 3, 0, 0)),
        Vec::<u32>::new()
    );

    let no_history = term_with_output(8, 2, b"two");
    assert_eq!(no_history.grid().history_size(), 0);
    assert_eq!(
        match_indices(&search(&no_history, "two", 0, 0, 10)),
        Vec::<u32>::new()
    );
}

#[test]
fn search_returns_empty_for_an_invalid_regex() {
    let term = term_with_search_history();

    let matches = search(&term, "two(", 0, 1, 10);

    assert_eq!(match_indices(&matches), Vec::<u32>::new());
}

#[test]
fn search_matches_regex_syntax_not_just_literals() {
    let term = term_with_search_history();

    let matches = search(&term, "^t(wo|hree)", 0, 1, 10);

    assert_eq!(match_indices(&matches), vec![1, 2, 3]);
}

#[test]
fn search_does_not_report_lines_that_are_still_on_screen() {
    let term = term_with_search_history();

    let matches = search(&term, "five", 0, 1, 10);

    // The API is scrollback-only; the client searches the live viewport
    // itself from the snapshot it already holds.
    assert_eq!(match_indices(&matches), Vec::<u32>::new());
}

#[test]
fn plain_texts_are_found_where_they_occur() {
    let output = "a-b #1\r\nA-B #1\r\n~& é!\r\nlast\r\n";
    let term = term_with_output(8, 1, output.as_bytes());
    assert_eq!(term.grid().history_size(), 4);

    assert_eq!(match_indices(&search(&term, "-b #", 0, 1, 10)), vec![0]);
    assert_eq!(match_indices(&search(&term, "#1", 0, 1, 10)), vec![0, 1]);
    assert_eq!(match_indices(&search(&term, "~& é!", 0, 1, 10)), vec![2]);
    assert_eq!(match_indices(&search(&term, "", 0, 1, 10)), vec![0, 1, 2, 3]);
    assert_eq!(match_indices(&search(&term, "as", 3, 0, 10)), vec![3]);
    assert!(search(&term, "((a", 0, 1, 10).is_empty());

    let long = "x".repeat(1000);
    let text = long.clone() + "\r\n";
    let term = term_with_output(1000, 1, text.as_bytes());
    assert_eq!(match_indices(&search(&term, &long, 0, 1, 10)), vec![0]);
    assert!(search(&term, &"x".repeat(1001), 0, 1, 10).is_empty());
}

fn diff_with_row(row: u32, character: &str) -> GridDiff {
    GridDiff {
        rows: vec![RowChange {
            row,
            cells: vec![Cell {
                character: character.to_string(),
                ..Default::default()
            }],
        }],
    }
}

#[test]
fn ring_merges_rows_and_keeps_the_newest_content_per_row() {
    let mut ring = GridDiffRing::new(8);
    ring.push(1, diff_with_row(0, "a"));
    ring.push(2, diff_with_row(1, "b"));
    ring.push(3, diff_with_row(0, "c"));

    match ring.fetch_update(1, 3, || build_empty_snapshot(1, 2, SHOW_CURSOR)) {
        GridUpdate::Diff {
            from_generation,
            to_generation,
            diff,
        } => {
            assert_eq!((from_generation, to_generation), (1, 3));
            assert_eq!(dirty_row_numbers(&diff), vec![1, 0]);
            assert_eq!(row_text(&diff.rows[1]), "c");
        }
        update => panic!("expected merged diff, got {update:?}"),
    }
}

#[test]
fn ring_falls_back_to_a_full_snapshot_when_needed_generations_were_evicted() {
    let mut ring = GridDiffRing::new(2);
    for generation in 1..=4 {
        ring.push(generation, diff_with_row(0, "a"));
    }
    assert_eq!(ring.len(), 2, "ring must have dropped generations 1 and 2");

    // A client at generation 1 still needs generation 2, which is gone.
    match ring.fetch_update(1, 4, || build_empty_snapshot(1, 2, SHOW_CURSOR)) {
        GridUpdate::FullSnapshot { to_generation, .. } => assert_eq!(to_generation, 4),
        update => panic!("expected full snapshot after eviction, got {update:?}"),
    }

    // A client at generation 2 needs only the retained 3 and 4.
    match ring.fetch_update(2, 4, || build_empty_snapshot(1, 2, SHOW_CURSOR)) {
        GridUpdate::Diff { diff, .. } => assert_eq!(dirty_row_numbers(&diff), vec![0]),
        update => panic!("expected diff at the retention boundary, got {update:?}"),
    }
}

#[test]
fn ring_falls_back_to_a_full_snapshot_for_non_row_representable_generations() {
    let mut ring = GridDiffRing::new(8);
    ring.push(1, diff_with_row(0, "a"));
    ring.push_requiring_full_snapshot(2, GridDiff::default());

    match ring.fetch_update(1, 2, || build_empty_snapshot(1, 2, SHOW_CURSOR)) {
        GridUpdate::FullSnapshot { to_generation, .. } => assert_eq!(to_generation, 2),
        update => panic!("expected full snapshot, got {update:?}"),
    }
}

#[test]
fn ring_reports_no_change_only_when_the_client_is_current() {
    let mut ring = GridDiffRing::new(8);
    ring.push(1, diff_with_row(0, "a"));

    match ring.fetch_update(1, 1, || build_empty_snapshot(1, 2, SHOW_CURSOR)) {
        GridUpdate::NoChange(generation) => assert_eq!(generation, 1),
        update => panic!("expected NoChange, got {update:?}"),
    }
    match ring.fetch_update(0, 1, || build_empty_snapshot(1, 2, SHOW_CURSOR)) {
        GridUpdate::FullSnapshot { to_generation, .. } => assert_eq!(to_generation, 1),
        update => panic!("expected full snapshot for a fresh client, got {update:?}"),
    }
    // A client ahead of the server (server restart, generation reset) must
    // be resynchronized rather than handed a diff.
    match ring.fetch_update(9, 1, || build_empty_snapshot(1, 2, SHOW_CURSOR)) {
        GridUpdate::FullSnapshot { to_generation, .. } => assert_eq!(to_generation, 1),
        update => panic!("expected full snapshot for a stale-ahead client, got {update:?}"),
    }
}

#[test]
fn snapshot_from_term_exports_dimensions_cursor_and_history() {
    let term = term_with_output(4, 2, b"A\r\nB\r\nC");

    let snapshot = snapshot(&term);

    assert_eq!((snapshot.cols, snapshot.rows), (4, 2));
    assert_eq!(snapshot.cells.len(), 8);
    assert_eq!((snapshot.cursor.row, snapshot.cursor.col), (1, 1));
    assert!(snapshot.cursor.visible);
    assert!(!snapshot.alternate_screen);
    assert_eq!(snapshot.history_size, 1);
    assert_eq!(snapshot_row_text(&snapshot, 0), "B   ");
    assert_ne!(snapshot.modes & SHOW_CURSOR, 0);
}

#[test]
fn build_empty_snapshot_sizes_the_cell_buffer_to_cols_times_rows() {
    let snapshot = build_empty_snapshot(3, 4, SHOW_CURSOR);

    assert_eq!(snapshot.cells.len(), 12);
    assert_eq!((snapshot.cols, snapshot.rows), (3, 4));
    assert_eq!(snapshot.history_size, 0);
    assert_ne!(snapshot.modes & SHOW_CURSOR, 0);
}

#[test]
fn the_modes_of_a_terminal_are_told_by_their_numbers() {
    let term = term_with_output(4, 2, b"\x1b[?2004h\x1b[?1049h\x1b[?25l");
    let modes = modes_from_bits(term.mode().bits(), &numbers());
    assert_ne!(modes & numbers().bracketed_paste, 0);
    assert_ne!(modes & numbers().alt_screen, 0);
    assert_ne!(modes & numbers().line_wrap, 0);
    assert_eq!(modes & SHOW_CURSOR, 0);
    let snapshot = snapshot(&term);
    assert!(snapshot.alternate_screen);
    assert!(!snapshot.cursor.visible);
}

#[test]
fn a_bar_cursor_is_told() {
    let term = term_with_output(4, 2, b"\x1b[5 q");
    let snapshot = snapshot(&term);
    assert_eq!(snapshot.cursor.style, CursorShape::Bar);
    assert!(snapshot.cursor.blinking);
}

#[test]
fn a_ring_keeps_the_latest_changes() {
    let mut ring = GridDiffRing::new(2);
    assert!(ring.is_empty());
    for generation in 1..=3 {
        ring.push(generation, diff_with_row(generation as u32, "x"));
    }
    assert_eq!(ring.len(), 2);
    match ring.fetch_update(1, 3, || build_empty_snapshot(1, 1, SHOW_CURSOR)) {
        GridUpdate::Diff { diff, .. } => assert_eq!(dirty_row_numbers(&diff), vec![2, 3]),
        update => panic!("expected the two latest rows, got {update:?}"),
    }
}

#[test]
fn a_screen_is_drawn_from_the_rows_of_the_grid() {
    let term = term_with_output(3, 2, b"ab\r\ncd");
    let whole = snapshot(&term);
    let rows = dirty(&term, &[0, 1]);
    for row in &rows.rows {
        assert_eq!(row_text(row), snapshot_row_text(&whole, row.row));
    }
    assert_eq!(whole.cells[4].character, "d");
    assert_eq!(whole.cells[5], Cell { foreground: 0xdddddd, ..whole.cells[2].clone() });
}

#[test]
fn ring_that_holds_nothing_gives_a_full_snapshot() {
    let mut ring = GridDiffRing::new(0);
    ring.push_requiring_full_snapshot(2, GridDiff::default());
    assert_eq!(ring.len(), 0);
    match ring.fetch_update(1, 2, || build_empty_snapshot(1, 2, SHOW_CURSOR)) {
        GridUpdate::FullSnapshot { to_generation, .. } => assert_eq!(to_generation, 2),
        update => panic!("expected full snapshot, got {update:?}"),
    }
    match ring.fetch_update(2, 2, || build_empty_snapshot(1, 2, SHOW_CURSOR)) {
        GridUpdate::NoChange(generation) => assert_eq!(generation, 2),
        update => panic!("expected NoChange, got {update:?}"),
    }
}
