use alacritty_terminal::event::VoidListener;
use alacritty_terminal::grid::Scroll;
use alacritty_terminal::term::test::TermSize;
use alacritty_terminal::term::{Config, Term};
use alacritty_terminal::vte::ansi::{Processor, StdSyncHandler};
use mux_server::coalescing::KeyboardActivity;
use mux_server::grid_sync::{build_empty_snapshot, GridDiff, GridUpdate};
use mux_server::grid_wire::{fits_in_frame, snapshot_to_wire, update_to_wire, WireUpdate};
use mux_server::osc::{
    parse_osc_sequences, percent_decode, uri_path, ShellEvent, ShellState,
};
use mux_server::pane::{
    collect_dirty_rows, command_text, handle_emulator_event, input_action, pane_process, pane_size, poll_timeout,
    prune_subscribers, read_loop_step, sort_rows, whole_screen,
    Damage, Emission, EmulatorEvent, InputAction, Pane, PaneAction,
    PaneFeed, ReadEvent, ReadLoopState, ShellCommand, SizeError,
};
use mux_server::term_snapshot::MODE_BRACKETED_PASTE;

fn pane() -> Pane {
    Pane::new("p".to_string(), "/tmp".to_string(), 20, 5)
}

fn no_rows() -> GridDiff {
    GridDiff { rows: Vec::new() }
}

#[test]
fn titles_of_the_emulator_are_told() {
    let actions = handle_emulator_event(EmulatorEvent::Title("server title".to_string()));
    assert!(actions
        .iter()
        .any(|action| matches!(action, PaneAction::TellTitle(title) if title == "server title")));
    let told = actions
        .iter()
        .position(|action| matches!(action, PaneAction::TellTitle(_)))
        .expect("told");
    let dirty = actions
        .iter()
        .position(|action| matches!(action, PaneAction::TellDirty))
        .expect("dirty");
    assert!(told < dirty, "the title is told first");
    assert!(handle_emulator_event(EmulatorEvent::Bell)
        .iter()
        .any(|action| matches!(action, PaneAction::TellBell)));
    assert!(handle_emulator_event(EmulatorEvent::PtyWrite("x".to_string()))
        .iter()
        .any(|action| matches!(action, PaneAction::Write(text) if text == "x")));
    assert!(handle_emulator_event(EmulatorEvent::Other).is_empty());
}

#[test]
fn a_change_of_modes_alone_asks_for_the_whole_screen() {
    let mut pane = pane();
    let mut state = ReadLoopState::new();
    let emission = state.on_chunk(false, false, vec![0], false).expect("rows");
    assert!(!emission.requires_full_snapshot);
    assert_eq!(pane.publish_generation(no_rows(), emission.requires_full_snapshot), 1);
    let emission = state
        .on_chunk(false, false, Vec::new(), true)
        .expect("modes");
    assert!(emission.requires_full_snapshot);
    assert_eq!(pane.publish_generation(no_rows(), emission.requires_full_snapshot), 2);
    match pane.fetch_grid_update(1, || build_empty_snapshot(20, 5, 0)) {
        GridUpdate::FullSnapshot {
            to_generation,
            snapshot,
        } => {
            assert_eq!(to_generation, 2);
            assert_eq!((snapshot.cols, snapshot.rows), (20, 5));
        }
        update => panic!("expected mode-only full snapshot, got {update:?}"),
    }
    assert!(matches!(
        pane.fetch_grid_update(2, || build_empty_snapshot(20, 5, 0)),
        GridUpdate::NoChange(2)
    ));
}

#[test]
fn an_oversized_grid_is_refused() {
    assert_eq!(pane_size(4_097, 1, false).err(), Some(SizeError::Grid));
    assert_eq!(pane_size(1, 65_536, true).err(), Some(SizeError::Rows));
    assert_eq!(pane_size(65_536, 1, true).err(), Some(SizeError::Columns));
    let size = pane_size(80, 24, true).expect("fits");
    assert_eq!((size.cols, size.rows), (80, 24));
}

#[test]
fn a_pane_keeps_what_it_is_told() {
    let mut pane = pane();
    assert_eq!((pane.get_cols(), pane.get_rows()), (20, 5));
    assert_eq!(pane.get_generation(), 0);
    pane.set_title("vi".to_string(), no_rows());
    assert_eq!(pane.get_title(), "vi");
    pane.set_zoomed(true, no_rows());
    assert!(pane.is_zoomed());
    pane.resize(30, 6, no_rows());
    let metadata = pane.metadata_snapshot();
    assert_eq!(
        (metadata.cols, metadata.rows, metadata.zoomed, metadata.is_alive),
        (30, 6, true, true)
    );
    assert_eq!(metadata.generation, pane.get_generation());
    assert_eq!(pane.get_generation(), 3);
    pane.set_alive(false);
    assert!(!pane.is_alive());
    assert_eq!(pane.get_session_id(), None);
    pane.set_session_id("s".to_string());
    assert_eq!(pane.get_session_id().as_deref(), Some("s"));
    assert!(pane.on_shell_event(&ShellEvent::WorkingDirectory("/work".to_string())));
    assert_eq!(pane.get_cwd(), "/work");
    pane.bump_generation(no_rows());
    assert_eq!(pane.get_generation(), 4);
}

#[test]
fn pastes_are_marked_where_the_program_asks_for_it() {
    let mut pane = pane();
    assert_eq!(pane.paste("text"), "text");
    pane.sync_bracketed_paste_mode(MODE_BRACKETED_PASTE);
    assert!(pane.is_bracketed_paste_active());
    assert_eq!(pane.paste("text"), "\x1b[200~text\x1b[201~");
    pane.sync_bracketed_paste_mode(0);
    assert!(!pane.is_bracketed_paste_active());
    pane.set_bracketed_paste_mode(true);
    assert!(pane.is_bracketed_paste_active());
    assert_eq!(input_action(b"\x1b[?2004h"), InputAction::MarkPastes);
    assert_eq!(input_action(b"\x1b[?2004l"), InputAction::DoNotMarkPastes);
    assert_eq!(input_action(b"\x1b[?2004"), InputAction::Write);
}

#[test]
fn a_synchronised_update_is_published_at_its_end() {
    let mut state = ReadLoopState::new();
    assert!(state.on_chunk(true, false, vec![3, 1], false).is_none());
    assert!(state.on_chunk(true, false, vec![1], true).is_none());
    let emission = state
        .on_chunk(false, true, vec![2], false)
        .expect("published");
    assert_eq!(emission.rows, vec![1, 2, 3]);
    assert!(emission.requires_full_snapshot);
    assert!(state.on_chunk(false, false, Vec::new(), false).is_none());

    assert!(state.on_chunk(true, false, vec![4], false).is_none());
    let forced = state.force_flush().expect("forced");
    assert_eq!(forced.rows, vec![4]);
    assert!(state.force_flush().is_none());
    assert_eq!(sort_rows(&vec![5, 1, 5, 3]), vec![1, 3, 5]);
}

#[test]
fn clients_are_told_no_more_often_than_wanted() {
    let mut state = ReadLoopState::new();
    assert!(state.on_published(false, 1_000, 16));
    assert!(!state.on_published(false, 1_010, 16));
    assert!(!state.flush_pending_notify(1_015, 16));
    assert!(state.flush_pending_notify(1_016, 16));
    assert!(!state.flush_pending_notify(1_100, 16), "nothing is pending");
    assert!(state.on_published(false, 1_017, 0));
    assert!(!state.on_published(false, 1_018, 16));
    assert!(state.on_published(true, 1_019, 16));
}

#[test]
fn a_feed_holds_output_back_while_an_update_is_synchronised() {
    let mut feed = PaneFeed::new();
    let keyboard = KeyboardActivity::new();
    let start = feed.begin_chunk(b"\x1b[?2026hdrawing", 0, &keyboard);
    assert!(start.in_sync && !start.ended);
    assert!(feed.finish_chunk(start, vec![0], false).is_none());
    let start = feed.begin_chunk(b"done\x1b[?2026l", 5, &keyboard);
    assert!(start.ended);
    let emission = feed.finish_chunk(start, vec![1], false).expect("published");
    assert_eq!(emission.rows, vec![0, 1]);
}

#[test]
fn reading_goes_on_until_the_end() {
    assert!(read_loop_step(ReadEvent::Bytes, false).process);
    assert!(read_loop_step(ReadEvent::End, false).end);
    assert!(read_loop_step(ReadEvent::Failed, false).end);
    assert!(!read_loop_step(ReadEvent::Interrupted, false).end);
    assert!(!read_loop_step(ReadEvent::WouldBlock, false).end);
    assert_ne!(poll_timeout(true), poll_timeout(false));
    assert_eq!(prune_subscribers(&vec![10, 20, 30], &vec![1]), vec![10, 30]);
}

fn variables(list: &[(String, String)]) -> Vec<(&str, &str)> {
    list.iter()
        .map(|(name, value)| (name.as_str(), value.as_str()))
        .collect()
}

#[test]
fn a_pane_runs_the_shell_of_its_user() {
    let process = pane_process(
        &None,
        &Some("/bin/zsh".to_string()),
        "",
        &Some("/home/me".to_string()),
        "p",
        "s",
    );
    assert_eq!(process.command.program, "/bin/zsh");
    assert_eq!(process.cwd, "/home/me");
    assert!(process.command.args.is_empty());
    assert!(variables(&process.command.env).iter().any(|v| v.1 == "p"));
    let process = pane_process(&None, &None, "", &None, "p", "s");
    assert_eq!(process.command.program, "/bin/sh");
    assert_eq!(process.cwd, "/");
    let asked = ShellCommand {
        program: "/bin/cat".to_string(),
        args: vec!["-u".to_string(), "x".to_string()],
        env: vec![("A".to_string(), "B".to_string())],
    };
    assert_eq!(command_text(&asked), "/bin/cat -u x");
    let process = pane_process(&Some(asked), &None, "/work", &None, "p", "s");
    assert_eq!(process.command.program, "/bin/cat");
    assert_eq!(process.cwd, "/work");
    assert_eq!(variables(&process.command.env)[0], ("A", "B"));
}

#[test]
fn percent_codes_are_decoded() {
    assert_eq!(percent_decode("/a%20b"), "/a b");
    assert_eq!(percent_decode("%41%zz%4"), "A%zz%4");
    assert_eq!(percent_decode("%c3%a4x"), "äx");
    assert_eq!(percent_decode("%ffx"), "\u{fffd}x");
    assert_eq!(percent_decode(""), "");
    // What is written in codes is read back, and what holds none stays.
    assert_eq!(percent_decode("%2F%C3%A4%20%25"), "/\u{e4} %");
    assert_eq!(percent_decode("/plain/\u{e4}+x"), "/plain/\u{e4}+x");
}

#[test]
fn a_shell_tells_where_it_is() {
    assert_eq!(uri_path("file://host/home/me"), "/home/me");
    assert_eq!(uri_path("file://host"), "host");
    assert_eq!(uri_path("/plain"), "/plain");
    let events = parse_osc_sequences(
        b"text\x1b]7;file://host/wo%72k\x07more\x1b]133;A\x1b\\end\x1b]133;D;1\x07",
    );
    let mut state = ShellState {
        cwd: "/".to_string(),
        prompt_marker: 0,
    };
    let moved: Vec<bool> = events.iter().map(|event| state.on_event(event)).collect();
    assert!(moved[0]);
    assert_eq!(state.cwd, "/work");
    assert!(!state.move_to("/work".to_string()));
    assert!(state.move_to("/else".to_string()));
    assert!(events
        .iter()
        .any(|event| matches!(event, ShellEvent::Marker(kind) if *kind == b'A')));
    assert!(parse_osc_sequences(b"\x1b]7;file://host/unfinished").is_empty());
}

#[test]
fn updates_are_put_on_the_wire() {
    let snapshot = build_empty_snapshot(3, 2, 1);
    let wire = snapshot_to_wire(&snapshot);
    assert_eq!((wire.cols, wire.rows, wire.cells.len()), (3, 2, 6));
    let response = update_to_wire(&GridUpdate::NoChange(7), 9);
    assert_eq!(
        (response.from_generation, response.to_generation, response.output_sequence),
        (7, 7, 9)
    );
    assert!(matches!(response.update, WireUpdate::Nothing));
    let response = update_to_wire(
        &GridUpdate::FullSnapshot {
            to_generation: 4,
            snapshot,
        },
        1,
    );
    assert_eq!((response.from_generation, response.to_generation), (0, 4));
    assert!(fits_in_frame(744, 1000));
    assert!(!fits_in_frame(745, 1000));
}

#[test]
fn all_rows_are_dirty_where_the_whole_screen_is() {
    assert_eq!(collect_dirty_rows(Damage::Full, 3), vec![0, 1, 2]);
    assert_eq!(collect_dirty_rows(Damage::Lines(vec![4, 1]), 3), vec![4, 1]);
}

#[test]
fn a_scrolled_screen_is_sent_whole() {
    let mut term = Term::new(Config::default(), &TermSize::new(4, 2), VoidListener);
    Processor::<StdSyncHandler>::new().advance(&mut term, b"a\r\nb\r\nc");
    let mut pane = pane();
    assert_eq!(whole_screen(term.grid(), term.colors()).rows.len(), 2);
    let emission = Emission {
        rows: vec![1],
        requires_full_snapshot: false,
    };
    assert_eq!(pane.emit_generation(term.grid(), term.colors(), &emission), 1);
    assert_eq!(pane.emit_generation(term.grid(), term.colors(), &emission), 2);
    match pane.fetch_grid_update(1, || build_empty_snapshot(4, 2, 0)) {
        GridUpdate::Diff { diff, .. } => {
            assert_eq!(diff.rows.len(), 1);
            assert_eq!(diff.rows[0].cells[0].character, "c");
        }
        other => panic!("{other:?}"),
    }
    term.scroll_display(Scroll::Delta(1));
    assert_eq!(pane.emit_generation(term.grid(), term.colors(), &emission), 3);
    assert!(matches!(
        pane.fetch_grid_update(2, || build_empty_snapshot(4, 2, 0)),
        GridUpdate::FullSnapshot { .. }
    ));
}

#[test]
fn a_size_that_does_not_fit_is_told() {
    assert_eq!(
        SizeError::Grid.message(4_097, 1, "too many columns"),
        "invalid pane size 4097x1: too many columns"
    );
    assert_eq!(
        SizeError::Rows.message(1, 70_000, ""),
        "pane row count exceeds PTY limit"
    );
}
