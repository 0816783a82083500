//! A pane: what runs in it, when its output is published, and what its events
//! lead to. Times are nanoseconds on a clock that never goes back.
use alacritty_terminal::grid::Grid;
use alacritty_terminal::term::cell::Cell as TermCell;
use alacritty_terminal::term::color::Colors;
use crate::coalescing;
use crate::coalescing::{AdaptiveCoalescer, KeyboardActivity};
use crate::dec2026;
use crate::dec2026::{Dec2026Parser, Dec2026Transitions, SyncModel};
use crate::grid_sync;
use crate::grid_sync::{
    FullGridSnapshot, GridDiff, GridDiffRing, GridUpdate, RingEntry, RingModel, RowModel,
};
use crate::numbers;
use crate::numbers::decimal_text;
use crate::osc;
use crate::osc::{ShellEvent, ShellModel, ShellState};
use crate::pty::PtySize;
use crate::term_grid;
use crate::term_grid::{display_offset_of, screen_lines_of};
use crate::term_snapshot;
use crate::term_snapshot::{diff_from_dirty, MODE_BRACKETED_PASTE};
use crate::text;
use crate::text::{around, copy_optional, copy_texts, joined};
use vstd::prelude::*;
use vstd::string::*;

verus! {

/// A program to run, with its arguments and what it finds in its environment.
#[derive(Debug)]
pub struct ShellCommand {
    pub program: String,
    pub args: Vec<String>,
    pub env: Vec<(String, String)>,
}

/// What a list of pairs holds.
pub open spec fn pairs(list: Seq<(String, String)>) -> Seq<(Seq<char>, Seq<char>)> {
    list.map_values(|p: (String, String)| (p.0@, p.1@))
}

/// A program to run.
pub struct CommandModel {
    pub program: Seq<char>,
    pub args: Seq<Seq<char>>,
    pub env: Seq<(Seq<char>, Seq<char>)>,
}

impl View for ShellCommand {
    type V = CommandModel;

    open spec fn view(&self) -> CommandModel {
        CommandModel {
            program: self.program@,
            args: text::texts(self.args@),
            env: pairs(self.env@),
        }
    }
}

/// The process of a pane: a program, where it works, and its environment in
/// the order in which it is set.
#[derive(Debug)]
pub struct PaneProcess {
    pub command: ShellCommand,
    pub cwd: String,
}

/// The environment of every pane.
pub open spec fn pane_environment(id: Seq<char>, session: Seq<char>) -> Seq<
    (Seq<char>, Seq<char>),
> {
    let all = seq![
        ("TERM"@, "xterm-256color"@),
        ("COLORTERM"@, "truecolor"@),
        ("Z3RM_PANE_ID"@, id),
        ("Z3RM_PANE"@, id),
    ];
    if session.len() > 0 {
        all.push(("Z3RM_SESSION"@, session))
    } else {
        all
    }
}

/// A text, or another one where there is none.
pub open spec fn text_or(value: Option<Seq<char>>, other: Seq<char>) -> Seq<char> {
    match value {
        Some(text) => text,
        None => other,
    }
}

fn owned_or(value: &Option<String>, other: &str) -> (own: String)
    ensures
        own@ == text_or(text::optional(*value), other@),
{
    match value {
        Some(text) => text.clone(),
        None => other.to_owned(),
    }
}

fn set_variable(env: &mut Vec<(String, String)>, name: &str, value: &str)
    ensures
        pairs(final(env)@) == pairs(old(env)@).push((name@, value@)),
{
    let ghost before = env@;
    env.push((name.to_owned(), value.to_owned()));
    assert(pairs(env@) =~= pairs(before).push((name@, value@)));
}

/// Decides what runs in a pane: the program that was asked for or the shell of
/// the user, where it was asked to or at home.
pub fn pane_process(
    command: &Option<ShellCommand>,
    shell: &Option<String>,
    cwd: &str,
    home: &Option<String>,
    id: &str,
    session_id: &str,
) -> (process: PaneProcess)
    ensures
        process.cwd@ == if cwd@.len() == 0 {
            text_or(text::optional(*home), "/"@)
        } else {
            cwd@
        },
        process.command@ == match *command {
            Some(c) => CommandModel {
                env: c@.env + pane_environment(id@, session_id@),
                ..c@
            },
            None => CommandModel {
                program: text_or(text::optional(*shell), "/bin/sh"@),
                args: Seq::empty(),
                env: pane_environment(id@, session_id@),
            },
        },
{
    let mut env: Vec<(String, String)> = Vec::new();
    let mut args: Vec<String> = Vec::new();
    let ghost asked = match command {
        Some(c) => c@.env,
        None => Seq::empty(),
    };
    proof {
        assert(pairs(env@) =~= Seq::<(Seq<char>, Seq<char>)>::empty());
        assert(text::texts(args@) =~= Seq::<Seq<char>>::empty());
    }
    let program: String = match command {
        Some(c) => {
            args = copy_texts(&c.args);
            let mut i: usize = 0;
            assert(pairs(c.env@).take(0) =~= Seq::<(Seq<char>, Seq<char>)>::empty());
            while i < c.env.len()
                invariant
                    i <= c.env.len(),
                    pairs(env@) == pairs(c.env@).take(i as int),
                decreases c.env.len() - i,
            {
                assert(pairs(c.env@).take(i + 1) =~= pairs(c.env@).take(i as int).push(
                    (c.env@[i as int].0@, c.env@[i as int].1@),
                ));
                set_variable(&mut env, c.env[i].0.as_str(), c.env[i].1.as_str());
                i = i + 1;
            }
            assert(pairs(c.env@).take(i as int) =~= pairs(c.env@));
            c.program.clone()
        },
        None => owned_or(shell, "/bin/sh"),
    };
    let ghost own = pairs(env@);
    set_variable(&mut env, "TERM", "xterm-256color");
    set_variable(&mut env, "COLORTERM", "truecolor");
    set_variable(&mut env, "Z3RM_PANE_ID", id);
    set_variable(&mut env, "Z3RM_PANE", id);
    if !session_id.is_empty() {
        set_variable(&mut env, "Z3RM_SESSION", session_id);
    }
    proof {
        assert(own == asked);
        assert(pairs(env@) =~= asked + pane_environment(id@, session_id@));
        assert(Seq::<(Seq<char>, Seq<char>)>::empty() + pane_environment(id@, session_id@)
            =~= pane_environment(id@, session_id@));
    }
    let dir: String = if cwd.is_empty() {
        owned_or(home, "/")
    } else {
        cwd.to_owned()
    };
    PaneProcess { command: ShellCommand { program, args, env }, cwd: dir }
}

/// Texts with a space between them.
pub open spec fn spaced(texts: Seq<Seq<char>>) -> Seq<char>
    decreases texts.len(),
{
    if texts.len() == 0 {
        Seq::empty()
    } else if texts.len() == 1 {
        texts[0]
    } else {
        spaced(texts.drop_last()) + " "@ + texts.last()
    }
}

/// Writes a command on one line.
pub fn command_text(command: &ShellCommand) -> (line: String)
    ensures
        line@ == command@.program + " "@ + spaced(command@.args),
{
    let ghost args = command@.args;
    let mut rest: String = String::new();
    let mut i: usize = 0;
    assert(args.take(0) =~= Seq::<Seq<char>>::empty());
    while i < command.args.len()
        invariant
            i <= command.args.len(),
            args == text::texts(command.args@),
            rest@ == spaced(args.take(i as int)),
        decreases command.args.len() - i,
    {
        proof {
            assert(args.take(i + 1).drop_last() =~= args.take(i as int));
            assert(args.take(i + 1).last() == command.args@[i as int]@);
        }
        if i > 0 {
            rest.append(" ");
            rest.append(command.args[i].as_str());
        } else {
            assert(args.take(1)[0] == command.args@[0]@);
            rest = command.args[0].clone();
        }
        i = i + 1;
    }
    assert(args.take(i as int) =~= args);
    let head: String = joined(command.program.as_str(), " ");
    joined(head.as_str(), rest.as_str())
}

/// Why a size is refused.
#[derive(Clone, Copy, Debug, PartialEq, Eq, Structural)]
pub enum SizeError {
    /// The screen would have too many cells.
    Grid,
    Rows,
    Columns,
}

/// What is said of a size that a pane cannot have. `reason` says why a screen
/// does not have it.
pub open spec fn size_error_text(
    error: SizeError,
    cols: u32,
    rows: u32,
    reason: Seq<char>,
) -> Seq<char> {
    match error {
        SizeError::Grid => "invalid pane size "@ + numbers::digits_of(cols as nat) + "x"@
            + numbers::digits_of(rows as nat) + ": "@ + reason,
        SizeError::Rows => "pane row count exceeds PTY limit"@,
        SizeError::Columns => "pane column count exceeds PTY limit"@,
    }
}

impl SizeError {
    /// Says why a pane cannot have a size.
    pub fn message(self, cols: u32, rows: u32, reason: &str) -> (message: String)
        ensures
            message@ == size_error_text(self, cols, rows, reason@),
    {
        match self {
            SizeError::Grid => {
                let head: String = around(
                    "invalid pane size ",
                    decimal_text(cols as u64).as_str(),
                    "x",
                );
                let size: String = around(head.as_str(), decimal_text(rows as u64).as_str(), ": ");
                joined(size.as_str(), reason)
            },
            SizeError::Rows => "pane row count exceeds PTY limit".to_owned(),
            SizeError::Columns => "pane column count exceeds PTY limit".to_owned(),
        }
    }
}

/// Decides whether a pane takes a size, given whether its screen would not
/// have too many cells.
pub fn pane_size(cols: u32, rows: u32, grid_fits: bool) -> (result: Result<PtySize, SizeError>)
    ensures
        result == if !grid_fits {
            Err::<PtySize, SizeError>(SizeError::Grid)
        } else if rows > u16::MAX {
            Err(SizeError::Rows)
        } else if cols > u16::MAX {
            Err(SizeError::Columns)
        } else {
            Ok(
                PtySize { rows: rows as u16, cols: cols as u16, pixel_width: 0, pixel_height: 0 },
            )
        },
{
    if !grid_fits {
        return Err(SizeError::Grid);
    }
    if rows > u16::MAX as u32 {
        return Err(SizeError::Rows);
    }
    if cols > u16::MAX as u32 {
        return Err(SizeError::Columns);
    }
    Ok(PtySize { rows: rows as u16, cols: cols as u16, pixel_width: 0, pixel_height: 0 })
}

/// Why rows of the history are not handed out.
#[derive(Clone, Copy, Debug, PartialEq, Eq, Structural)]
pub enum ScrollbackError {
    /// There is no such direction.
    Direction,
    /// The rows would hold too many cells.
    Rows,
}

/// What is said of a request for rows of the history that is not met. `reason`
/// says why that many rows are not handed out.
pub open spec fn scrollback_error_text(
    error: ScrollbackError,
    direction: u32,
    count: u32,
    reason: Seq<char>,
) -> Seq<char> {
    match error {
        ScrollbackError::Direction => "invalid scrollback direction: "@ + numbers::digits_of(
            direction as nat,
        ),
        ScrollbackError::Rows => "invalid scrollback count "@ + numbers::digits_of(count as nat)
            + ": "@ + reason,
    }
}

impl ScrollbackError {
    /// Says why rows of the history are not handed out.
    pub fn message(self, direction: u32, count: u32, reason: &str) -> (message: String)
        ensures
            message@ == scrollback_error_text(self, direction, count, reason@),
    {
        match self {
            ScrollbackError::Direction => joined(
                "invalid scrollback direction: ",
                decimal_text(direction as u64).as_str(),
            ),
            ScrollbackError::Rows => {
                let head: String = around(
                    "invalid scrollback count ",
                    decimal_text(count as u64).as_str(),
                    ": ",
                );
                joined(head.as_str(), reason)
            },
        }
    }
}

/// Decides whether rows of the history are handed out, given whether they would
/// not hold too many cells. They are read back in time or forward.
pub fn check_scrollback_request(direction: u32, grid_fits: bool) -> (result: Result<
    (),
    ScrollbackError,
>)
    ensures
        result == if direction > 1 {
            Err::<(), ScrollbackError>(ScrollbackError::Direction)
        } else if !grid_fits {
            Err(ScrollbackError::Rows)
        } else {
            Ok(())
        },
{
    if direction > 1 {
        return Err(ScrollbackError::Direction);
    }
    if !grid_fits {
        return Err(ScrollbackError::Rows);
    }
    Ok(())
}

/// How many changes of a screen are kept.
pub const RING_CAPACITY: usize = 64;

/// The state of a pane that clients see.
#[derive(Debug)]
pub struct Pane {
    pub id: String,
    pub title: String,
    pub cols: u32,
    pub rows: u32,
    pub alive: bool,
    pub zoomed: bool,
    pub bracketed_paste: bool,
    pub session_id: Option<String>,
    pub shell: ShellState,
    generation: u64,
    ring: GridDiffRing,
}

/// The state of a pane that clients see.
pub struct PaneState {
    pub id: Seq<char>,
    pub title: Seq<char>,
    pub cols: u32,
    pub rows: u32,
    pub alive: bool,
    pub zoomed: bool,
    pub bracketed_paste: bool,
    pub session_id: Option<Seq<char>>,
    pub shell: ShellModel,
    pub generation: u64,
    pub ring: RingModel,
}

impl View for Pane {
    type V = PaneState;

    closed spec fn view(&self) -> PaneState {
        PaneState {
            id: self.id@,
            title: self.title@,
            cols: self.cols,
            rows: self.rows,
            alive: self.alive,
            zoomed: self.zoomed,
            bracketed_paste: self.bracketed_paste,
            session_id: text::optional(self.session_id),
            shell: self.shell@,
            generation: self.generation,
            ring: self.ring@,
        }
    }
}

/// The generation after one.
pub open spec fn next_generation(generation: u64) -> u64 {
    if generation == u64::MAX {
        u64::MAX
    } else {
        (generation + 1) as u64
    }
}

/// A pane after a change of its screen.
pub open spec fn published(p: PaneState, rows: Seq<RowModel>, full: bool) -> PaneState {
    let generation = next_generation(p.generation);
    PaneState {
        generation,
        ring: grid_sync::ring_with(
            p.ring,
            RingEntry { generation, rows, requires_full_snapshot: full },
        ),
        ..p
    }
}

/// What is told of a pane.
#[derive(Debug)]
pub struct PaneMetadata {
    pub title: String,
    pub generation: u64,
    pub cols: u32,
    pub rows: u32,
    pub is_alive: bool,
    pub zoomed: bool,
}

impl Pane {
    /// A pane on whose screen nothing has changed yet.
    pub fn new(id: String, cwd: String, cols: u32, rows: u32) -> (pane: Pane)
        ensures
            pane@ == (PaneState {
                id: id@,
                title: Seq::empty(),
                cols,
                rows,
                alive: true,
                zoomed: false,
                bracketed_paste: false,
                session_id: None,
                shell: ShellModel { cwd: cwd@, prompt_marker: 0 },
                generation: 0,
                ring: RingModel { entries: Seq::empty(), capacity: RING_CAPACITY as nat },
            }),
    {
        Pane {
            id,
            title: String::new(),
            cols,
            rows,
            alive: true,
            zoomed: false,
            bracketed_paste: false,
            session_id: None,
            shell: ShellState { cwd, prompt_marker: 0 },
            generation: 0,
            ring: GridDiffRing::new(RING_CAPACITY),
        }
    }

    /// Records a change of the screen, before its generation can be seen.
    pub fn publish_generation(&mut self, diff: GridDiff, requires_full_snapshot: bool) -> (generation:
        u64)
        ensures
            final(self)@ == published(old(self)@, diff@, requires_full_snapshot),
            generation == final(self)@.generation,
    {
        let generation: u64 = self.generation.saturating_add(1);
        if requires_full_snapshot {
            self.ring.push_requiring_full_snapshot(generation, diff);
        } else {
            self.ring.push(generation, diff);
        }
        self.generation = generation;
        generation
    }

    /// Records what is to be published of a screen. Rows do not say how far the
    /// screen is scrolled back.
    pub fn emit_generation(
        &mut self,
        grid: &Grid<TermCell>,
        colors: &Colors,
        emission: &Emission,
    ) -> (generation: u64)
        requires
            term_snapshot::is_numbered(*grid),
        ensures
            final(self)@ == published(
                old(self)@,
                term_snapshot::dirty_lines(*grid, *colors, emission.rows@),
                emission.requires_full_snapshot || term_grid::grid_offset(*grid) != 0,
            ),
            generation == final(self)@.generation,
    {
        let diff: GridDiff = diff_from_dirty(grid, colors, &emission.rows);
        let scrolled: bool = display_offset_of(grid) != 0;
        self.publish_generation(diff, emission.requires_full_snapshot || scrolled)
    }

    /// The generation of the screen.
    pub fn get_generation(&self) -> (generation: u64)
        ensures
            generation == self@.generation,
    {
        self.generation
    }

    /// Starts a new generation; `diff` is the whole screen.
    pub fn bump_generation(&mut self, diff: GridDiff)
        ensures
            final(self)@ == published(old(self)@, diff@, false),
    {
        let _ = self.publish_generation(diff, false);
    }

    /// How many columns the pane has.
    pub fn get_cols(&self) -> (cols: u32)
        ensures
            cols == self@.cols,
    {
        self.cols
    }

    /// How many rows the pane has.
    pub fn get_rows(&self) -> (rows: u32)
        ensures
            rows == self@.rows,
    {
        self.rows
    }

    /// Whether the program of the pane runs.
    pub fn is_alive(&self) -> (alive: bool)
        ensures
            alive == self@.alive,
    {
        self.alive
    }

    /// Records whether the program of the pane runs.
    pub fn set_alive(&mut self, alive: bool)
        ensures
            final(self)@ == (PaneState { alive, ..old(self)@ }),
    {
        self.alive = alive;
    }

    /// Records the session that the pane belongs to.
    pub fn set_session_id(&mut self, session_id: String)
        ensures
            final(self)@ == (PaneState { session_id: Some(session_id@), ..old(self)@ }),
    {
        self.session_id = Some(session_id);
    }

    /// The session that the pane belongs to.
    pub fn get_session_id(&self) -> (session_id: Option<String>)
        ensures
            text::optional(session_id) == self@.session_id,
    {
        copy_optional(&self.session_id)
    }

    /// The name of the pane.
    pub fn get_title(&self) -> (title: String)
        ensures
            title@ == self@.title,
    {
        self.title.clone()
    }

    /// Whether texts that are pasted are marked.
    pub fn is_bracketed_paste_active(&self) -> (active: bool)
        ensures
            active == self@.bracketed_paste,
    {
        self.bracketed_paste
    }

    /// Records whether texts that are pasted are marked.
    pub fn set_bracketed_paste_mode(&mut self, active: bool)
        ensures
            final(self)@ == (PaneState { bracketed_paste: active, ..old(self)@ }),
    {
        self.bracketed_paste = active;
    }

    /// Records whether texts that are pasted are marked, as the modes of the
    /// terminal say it.
    pub fn sync_bracketed_paste_mode(&mut self, mode: u32)
        ensures
            final(self)@ == (PaneState {
                bracketed_paste: mode & MODE_BRACKETED_PASTE != 0,
                ..old(self)@
            }),
    {
        self.bracketed_paste = mode & MODE_BRACKETED_PASTE != 0;
    }

    /// Whether the pane is zoomed.
    pub fn is_zoomed(&self) -> (zoomed: bool)
        ensures
            zoomed == self@.zoomed,
    {
        self.zoomed
    }

    /// Where the shell of the pane works.
    pub fn get_cwd(&self) -> (cwd: String)
        ensures
            cwd@ == self@.shell.cwd,
    {
        self.shell.cwd.clone()
    }

    /// How many markers the shell of the pane has told, as a number of 32 bits.
    pub fn get_prompt_marker(&self) -> (marker: u32)
        ensures
            marker == self@.shell.prompt_marker as u32,
    {
        self.shell.prompt_marker as u32
    }

    /// Takes in what the shell of the pane told, and says whether clients are to
    /// be told that it works elsewhere.
    pub fn on_shell_event(&mut self, event: &ShellEvent) -> (moved: bool)
        ensures
            final(self)@ == (PaneState {
                shell: osc::after_event(old(self)@.shell, event@),
                ..old(self)@
            }),
            moved == (final(self)@.shell.cwd != old(self)@.shell.cwd),
    {
        self.shell.on_event(event)
    }

    /// Names the pane; `diff` is the whole screen.
    pub fn set_title(&mut self, title: String, diff: GridDiff)
        ensures
            final(self)@ == published(
                (PaneState { title: title@, ..old(self)@ }),
                diff@,
                false,
            ),
    {
        self.title = title;
        let _ = self.publish_generation(diff, false);
    }

    /// Zooms the pane or ends that; `diff` is the whole screen.
    pub fn set_zoomed(&mut self, zoomed: bool, diff: GridDiff)
        ensures
            final(self)@ == published((PaneState { zoomed, ..old(self)@ }), diff@, false),
    {
        self.zoomed = zoomed;
        let _ = self.publish_generation(diff, false);
    }

    /// Gives the pane a size; `diff` is the whole screen. Rows do not say how
    /// large a screen is.
    pub fn resize(&mut self, cols: u32, rows: u32, diff: GridDiff)
        ensures
            final(self)@ == published((PaneState { cols, rows, ..old(self)@ }), diff@, true),
    {
        self.cols = cols;
        self.rows = rows;
        let _ = self.publish_generation(diff, true);
    }

    /// What a client that has a generation is sent.
    pub fn fetch_grid_update<F: Fn() -> FullGridSnapshot>(
        &self,
        since_generation: u64,
        full_snapshot: F,
    ) -> (update: GridUpdate)
        requires
            full_snapshot.requires(()),
        ensures
            match grid_sync::fetched(self@.ring, since_generation, self@.generation) {
                grid_sync::Fetched::NoChange => update == GridUpdate::NoChange(self@.generation),
                grid_sync::Fetched::Full => update matches GridUpdate::FullSnapshot {
                    to_generation,
                    snapshot,
                } && to_generation == self@.generation && full_snapshot.ensures((), snapshot),
                grid_sync::Fetched::Rows(rows) => update matches GridUpdate::Diff {
                    from_generation,
                    to_generation,
                    diff,
                } && from_generation == since_generation && to_generation == self@.generation
                    && diff@ == rows,
            },
    {
        self.ring.fetch_update(since_generation, self.generation, full_snapshot)
    }

    /// What is told of the pane.
    pub fn metadata_snapshot(&self) -> (metadata: PaneMetadata)
        ensures
            metadata.title@ == self@.title,
            metadata.generation == self@.generation,
            metadata.cols == self@.cols,
            metadata.rows == self@.rows,
            metadata.is_alive == self@.alive,
            metadata.zoomed == self@.zoomed,
    {
        PaneMetadata {
            title: self.title.clone(),
            generation: self.generation,
            cols: self.cols,
            rows: self.rows,
            is_alive: self.alive,
            zoomed: self.zoomed,
        }
    }

    /// What is written for a text that is pasted.
    pub fn paste(&self, pasted: &str) -> (input: String)
        ensures
            input@ == if self@.bracketed_paste {
                "\x1b[200~"@ + pasted@ + "\x1b[201~"@
            } else {
                pasted@
            },
    {
        if self.bracketed_paste {
            let head: String = joined("\x1b[200~", pasted);
            joined(head.as_str(), "\x1b[201~")
        } else {
            pasted.to_owned()
        }
    }
}

/// Whether the entries of the ring are numbered up to the generation of the
/// pane.
pub open spec fn is_numbered(p: PaneState) -> bool {
    forall|i: int|
        0 <= i < p.ring.entries.len() ==> (#[trigger] p.ring.entries[i]).generation == p.generation
            - (p.ring.entries.len() - 1 - i)
}

/// Every change of the screen is numbered one after the other, up to the
/// generation that clients see, as long as numbers last.
pub proof fn law_generations_follow_one_another(p: PaneState, rows: Seq<RowModel>, full: bool)
    requires
        is_numbered(p),
        p.generation < u64::MAX,
        p.ring.entries.len() <= p.ring.capacity,
        p.ring.capacity > 0,
    ensures
        is_numbered(published(p, rows, full)),
        published(p, rows, full).generation == p.generation + 1,
        published(p, rows, full).ring.entries.len() > 0,
        published(p, rows, full).ring.entries.last().generation == p.generation + 1,
        published(p, rows, full).ring.entries.len() <= p.ring.capacity,
{
    let after = published(p, rows, full);
    let entry = RingEntry { generation: after.generation, rows, requires_full_snapshot: full };
    grid_sync::law_ring_keeps_the_latest(p.ring, entry);
    assert forall|i: int| 0 <= i < after.ring.entries.len() implies (
    #[trigger] after.ring.entries[i]).generation == after.generation - (after.ring.entries.len() - 1
        - i) by {
        if i < after.ring.entries.len() - 1 {
            assert(grid_sync::ring_with(p.ring, entry).entries[i] == p.ring.entries[i
                + p.ring.entries.len() + 1 - after.ring.entries.len()]);
        }
    }
}

/// What output changed on the screen.
#[derive(Debug)]
pub enum Damage {
    /// All of it.
    Full,
    /// These rows.
    Lines(Vec<usize>),
}

/// The rows that output changed.
pub open spec fn rows_changed(damage: Damage, screen_lines: nat) -> Seq<usize> {
    match damage {
        Damage::Full => Seq::new(screen_lines, |i: int| i as usize),
        Damage::Lines(lines) => lines@,
    }
}

/// Lists the rows that output changed.
pub fn collect_dirty_rows(damage: Damage, screen_lines: usize) -> (rows: Vec<usize>)
    ensures
        rows@ == rows_changed(damage, screen_lines as nat),
{
    match damage {
        Damage::Lines(lines) => lines,
        Damage::Full => {
            let mut rows: Vec<usize> = Vec::new();
            let mut i: usize = 0;
            while i < screen_lines
                invariant
                    i <= screen_lines,
                    rows@ == Seq::new(i as nat, |k: int| k as usize),
                decreases screen_lines - i,
            {
                rows.push(i);
                i = i + 1;
            }
            rows
        },
    }
}

/// The rows of the whole screen.
pub fn whole_screen(grid: &Grid<TermCell>, colors: &Colors) -> (diff: GridDiff)
    requires
        term_snapshot::is_numbered(*grid),
    ensures
        diff@ == term_snapshot::dirty_lines(
            *grid,
            *colors,
            rows_changed(Damage::Full, term_grid::grid_lines(*grid)),
        ),
{
    let rows: Vec<usize> = collect_dirty_rows(Damage::Full, screen_lines_of(grid));
    diff_from_dirty(grid, colors, &rows)
}

/// What a pane has read and not published or told yet.
#[derive(Debug)]
pub struct ReadLoopState {
    /// When clients were told last.
    pub last_notify: Option<u64>,
    /// Whether changes are held back.
    pub pending_sync: bool,
    /// The rows that changed meanwhile.
    pub pending_dirty_rows: Vec<usize>,
    /// Whether something changed that rows cannot say.
    pub pending_full_snapshot: bool,
    /// Whether clients are still to be told of what was published.
    pub pending_notify: bool,
}

/// What a pane has read and not published or told yet.
#[verifier::ext_equal]
pub struct LoopModel {
    pub last_notify: Option<u64>,
    pub pending_sync: bool,
    pub rows: Seq<usize>,
    pub full: bool,
    pub pending_notify: bool,
}

impl View for ReadLoopState {
    type V = LoopModel;

    open spec fn view(&self) -> LoopModel {
        LoopModel {
            last_notify: self.last_notify,
            pending_sync: self.pending_sync,
            rows: self.pending_dirty_rows@,
            full: self.pending_full_snapshot,
            pending_notify: self.pending_notify,
        }
    }
}

/// A list of rows in order with one more.
pub open spec fn with_row(rows: Seq<usize>, row: usize) -> Seq<usize>
    decreases rows.len(),
{
    if rows.len() == 0 || rows.last() < row {
        rows.push(row)
    } else if rows.last() == row {
        rows
    } else {
        with_row(rows.drop_last(), row).push(rows.last())
    }
}

/// The rows of a list in order, each of them once.
pub open spec fn in_order(rows: Seq<usize>) -> Seq<usize>
    decreases rows.len(),
{
    if rows.len() == 0 {
        Seq::empty()
    } else {
        with_row(in_order(rows.drop_last()), rows.last())
    }
}

fn insert_row(rows: &mut Vec<usize>, row: usize)
    ensures
        final(rows)@ == with_row(old(rows)@, row),
{
    let ghost all = rows@;
    let mut i: usize = rows.len();
    assert(all.take(i as int) =~= all);
    assert(with_row(all, row) =~= with_row(all, row) + all.skip(i as int));
    while i > 0 && row < rows[i - 1]
        invariant
            i <= rows.len(),
            all == rows@,
            with_row(all, row) == with_row(all.take(i as int), row) + all.skip(i as int),
        decreases i,
    {
        proof {
            let some = all.take(i as int);
            assert(some.drop_last() =~= all.take(i - 1));
            assert(with_row(some, row) + all.skip(i as int) =~= with_row(all.take(i - 1), row)
                + all.skip(i - 1));
        }
        i = i - 1;
    }
    if i > 0 && rows[i - 1] == row {
        assert(all.take(i as int) + all.skip(i as int) =~= all);
        return;
    }
    rows.insert(i, row);
    assert(rows@ =~= all.take(i as int).push(row) + all.skip(i as int));
}

/// Puts rows in order, each of them once.
pub fn sort_rows(rows: &Vec<usize>) -> (sorted: Vec<usize>)
    ensures
        sorted@ == in_order(rows@),
{
    let mut sorted: Vec<usize> = Vec::new();
    let mut i: usize = 0;
    assert(rows@.take(0) =~= Seq::<usize>::empty());
    while i < rows.len()
        invariant
            i <= rows.len(),
            sorted@ == in_order(rows@.take(i as int)),
        decreases rows.len() - i,
    {
        proof {
            assert(rows@.take(i + 1).drop_last() =~= rows@.take(i as int));
            assert(rows@.take(i + 1).last() == rows@[i as int]);
        }
        insert_row(&mut sorted, rows[i]);
        i = i + 1;
    }
    assert(rows@.take(i as int) =~= rows@);
    sorted
}

/// Whether a list of rows is in order and has each of them once.
pub open spec fn ascending(rows: Seq<usize>) -> bool {
    forall|i: int, j: int| 0 <= i < j < rows.len() ==> rows[i] < rows[j]
}

proof fn lemma_with_row(rows: Seq<usize>, row: usize)
    requires
        ascending(rows),
    ensures
        ascending(with_row(rows, row)),
        forall|r: usize|
            #[trigger] with_row(rows, row).contains(r) <==> (rows.contains(r) || r == row),
    decreases rows.len(),
{
    let after = with_row(rows, row);
    if rows.len() == 0 || rows.last() < row {
        assert forall|r: usize| #[trigger] after.contains(r) <==> (rows.contains(r) || r == row) by {
            if rows.contains(r) {
                let i = choose|i: int| 0 <= i < rows.len() && rows[i] == r;
                assert(after[i] == r);
            }
            assert(after[after.len() - 1] == row);
            if after.contains(r) {
                let i = choose|i: int| 0 <= i < after.len() && after[i] == r;
                if i < rows.len() {
                    assert(rows[i] == r);
                }
            }
        }
    } else if rows.last() == row {
        assert(rows[rows.len() - 1] == row);
    } else {
        let init = rows.drop_last();
        let last = rows.last();
        assert forall|i: int, j: int| 0 <= i < j < init.len() implies init[i] < init[j] by {
            assert(rows[i] < rows[j]);
        }
        lemma_with_row(init, row);
        let part = with_row(init, row);
        assert forall|i: int, j: int| 0 <= i < j < after.len() implies after[i] < after[j] by {
            if j == part.len() {
                assert(part.contains(part[i]));
                if part[i] != row {
                    assert(init.contains(part[i]));
                    let k = choose|k: int| 0 <= k < init.len() && init[k] == part[i];
                    assert(rows[k] < rows[rows.len() - 1]);
                }
            } else {
                assert(part[i] < part[j]);
            }
        }
        assert forall|r: usize| #[trigger] after.contains(r) <==> (rows.contains(r) || r == row) by {
            assert(after[after.len() - 1] == last);
            assert(rows[rows.len() - 1] == last);
            assert(with_row(init, row).contains(r) <==> (init.contains(r) || r == row));
            if after.contains(r) {
                let i = choose|i: int| 0 <= i < after.len() && after[i] == r;
                if i < part.len() {
                    assert(part[i] == r);
                    assert(part.contains(r));
                    if r != row {
                        assert(init.contains(r));
                        let k = choose|k: int| 0 <= k < init.len() && init[k] == r;
                        assert(rows[k] == r);
                    }
                }
            }
            if rows.contains(r) || r == row {
                if r != last {
                    if rows.contains(r) {
                        let k = choose|k: int| 0 <= k < rows.len() && rows[k] == r;
                        assert(init[k] == r);
                        assert(init.contains(r));
                    }
                    assert(part.contains(r));
                    let k = choose|k: int| 0 <= k < part.len() && part[k] == r;
                    assert(after[k] == r);
                }
            }
        }
    }
}

/// Rows in order are in order, each of them once, and none is lost.
pub proof fn law_rows_in_order(rows: Seq<usize>, r: usize)
    ensures
        ascending(in_order(rows)),
        in_order(rows).contains(r) <==> rows.contains(r),
    decreases rows.len(),
{
    if rows.len() > 0 {
        let init = rows.drop_last();
        law_rows_in_order(init, r);
        lemma_with_row(in_order(init), rows.last());
        assert(rows[rows.len() - 1] == rows.last());
        if rows.contains(r) {
            let k = choose|k: int| 0 <= k < rows.len() && rows[k] == r;
            if k < init.len() {
                assert(init[k] == r);
            }
        }
        if init.contains(r) {
            let k = choose|k: int| 0 <= k < init.len() && init[k] == r;
            assert(rows[k] == r);
        }
    }
}

/// A change of the screen that is to be published.
#[derive(Debug)]
pub struct Emission {
    pub rows: Vec<usize>,
    pub requires_full_snapshot: bool,
}

/// What is to be published after output, and what is held back: nothing is
/// published while a program asks for that.
pub open spec fn after_chunk(
    l: LoopModel,
    in_sync: bool,
    ended: bool,
    dirty: Seq<usize>,
    changed: bool,
) -> (LoopModel, Option<(Seq<usize>, bool)>) {
    let grid_changed = dirty.len() > 0 || changed;
    if in_sync && !ended {
        (
            if grid_changed {
                LoopModel { pending_sync: true, rows: l.rows + dirty, full: l.full || changed, ..l }
            } else {
                l
            },
            None,
        )
    } else if grid_changed || l.pending_sync {
        (
            LoopModel { pending_sync: false, rows: Seq::empty(), full: false, ..l },
            Some((in_order(l.rows + dirty), l.full || changed)),
        )
    } else {
        (l, None)
    }
}

/// What is to be published.
pub open spec fn emission_model(emission: Option<Emission>) -> Option<(Seq<usize>, bool)> {
    match emission {
        Some(e) => Some((e.rows@, e.requires_full_snapshot)),
        None => None,
    }
}

/// Whether clients may be told again.
pub open spec fn may_tell(l: LoopModel, now: u64, delay: u64) -> bool {
    l.last_notify is None || coalescing::elapsed(now, l.last_notify->0) >= delay
}

/// What is left to tell after something was published.
pub open spec fn after_publishing(l: LoopModel, force: bool, now: u64, delay: u64) -> (
    LoopModel,
    bool,
) {
    if force || delay == 0 || may_tell(l, now, delay) {
        (LoopModel { last_notify: Some(now), pending_notify: false, ..l }, true)
    } else {
        (LoopModel { pending_notify: true, ..l }, false)
    }
}

/// What is left to tell once clients may be told again.
pub open spec fn after_waiting(l: LoopModel, now: u64, delay: u64) -> (LoopModel, bool) {
    if l.pending_notify && may_tell(l, now, delay) {
        (LoopModel { last_notify: Some(now), pending_notify: false, ..l }, true)
    } else {
        (l, false)
    }
}

impl ReadLoopState {
    /// Nothing was read yet.
    pub fn new() -> (state: ReadLoopState)
        ensures
            state@ == (LoopModel {
                last_notify: None,
                pending_sync: false,
                rows: Seq::empty(),
                full: false,
                pending_notify: false,
            }),
    {
        ReadLoopState {
            last_notify: None,
            pending_sync: false,
            pending_dirty_rows: Vec::new(),
            pending_full_snapshot: false,
            pending_notify: false,
        }
    }

    /// Takes in what output changed, and says what is to be published.
    pub fn on_chunk(
        &mut self,
        in_sync: bool,
        ended: bool,
        dirty_rows: Vec<usize>,
        render_state_changed: bool,
    ) -> (emission: Option<Emission>)
        ensures
            after_chunk(old(self)@, in_sync, ended, dirty_rows@, render_state_changed) == (
                final(self)@,
                emission_model(emission),
            ),
    {
        let ghost l = self@;
        let mut dirty: Vec<usize> = dirty_rows;
        let grid_changed: bool = dirty.len() > 0 || render_state_changed;
        if in_sync && !ended {
            if grid_changed {
                self.pending_sync = true;
                self.pending_dirty_rows.append(&mut dirty);
                self.pending_full_snapshot = self.pending_full_snapshot || render_state_changed;
            }
            return None;
        }
        if grid_changed || self.pending_sync {
            self.pending_dirty_rows.append(&mut dirty);
            let rows: Vec<usize> = sort_rows(&self.pending_dirty_rows);
            let requires_full_snapshot: bool = self.pending_full_snapshot || render_state_changed;
            self.pending_dirty_rows = Vec::new();
            self.pending_full_snapshot = false;
            self.pending_sync = false;
            return Some(Emission { rows, requires_full_snapshot });
        }
        None
    }

    /// Decides whether clients are told of what was published at once.
    pub fn on_published(&mut self, force: bool, now: u64, delay: u64) -> (tell: bool)
        ensures
            after_publishing(old(self)@, force, now, delay) == (final(self)@, tell),
    {
        let elapsed: bool = match self.last_notify {
            Some(at) => now.saturating_sub(at) >= delay,
            None => true,
        };
        if force || delay == 0 || elapsed {
            self.last_notify = Some(now);
            self.pending_notify = false;
            true
        } else {
            self.pending_notify = true;
            false
        }
    }

    /// Decides whether clients are now told of what they were not told of.
    pub fn flush_pending_notify(&mut self, now: u64, delay: u64) -> (tell: bool)
        ensures
            after_waiting(old(self)@, now, delay) == (final(self)@, tell),
    {
        if !self.pending_notify {
            return false;
        }
        let elapsed: bool = match self.last_notify {
            Some(at) => now.saturating_sub(at) >= delay,
            None => true,
        };
        if elapsed {
            self.last_notify = Some(now);
            self.pending_notify = false;
            return true;
        }
        false
    }

    /// Says what is to be published of what was held back for too long.
    pub fn force_flush(&mut self) -> (emission: Option<Emission>)
        ensures
            old(self)@.pending_sync ==> emission_model(emission) == Some(
                (in_order(old(self)@.rows), old(self)@.full),
            ) && final(self)@ == (LoopModel {
                pending_sync: false,
                rows: Seq::empty(),
                full: false,
                ..old(self)@
            }),
            !old(self)@.pending_sync ==> emission is None && final(self)@ == old(self)@,
    {
        if !self.pending_sync {
            return None;
        }
        let rows: Vec<usize> = sort_rows(&self.pending_dirty_rows);
        let requires_full_snapshot: bool = self.pending_full_snapshot;
        self.pending_dirty_rows = Vec::new();
        self.pending_full_snapshot = false;
        self.pending_sync = false;
        Some(Emission { rows, requires_full_snapshot })
    }
}

impl Default for ReadLoopState {
    fn default() -> (state: Self)
        ensures
            state@ == (LoopModel {
                last_notify: None,
                pending_sync: false,
                rows: Seq::empty(),
                full: false,
                pending_notify: false,
            }),
    {
        ReadLoopState::new()
    }
}

/// What is held back is published once it may be: every row that changed, and
/// that something changed which rows cannot say.
pub proof fn law_held_back_changes_are_published(
    l: LoopModel,
    dirty: Seq<usize>,
    changed: bool,
    row: usize,
)
    requires
        l.pending_sync,
    ensures
        ({
            let (after, told) = after_chunk(l, false, true, dirty, changed);
            &&& told matches Some((rows, full)) && (rows.contains(row) <==> l.rows.contains(row)
                || dirty.contains(row)) && full == (l.full || changed)
            &&& !after.pending_sync
        }),
{
    let all = l.rows + dirty;
    law_rows_in_order(all, row);
    if all.contains(row) {
        let k = choose|k: int| 0 <= k < all.len() && all[k] == row;
        if k < l.rows.len() {
            assert(l.rows[k] == row);
        } else {
            assert(dirty[k - l.rows.len()] == row);
        }
    }
    if l.rows.contains(row) {
        let k = choose|k: int| 0 <= k < l.rows.len() && l.rows[k] == row;
        assert(all[k] == row);
    }
    if dirty.contains(row) {
        let k = choose|k: int| 0 <= k < dirty.len() && dirty[k] == row;
        assert(all[k + l.rows.len()] == row);
    }
}

/// Of everything that is published, clients are told at once or later.
pub proof fn law_nothing_published_is_forgotten(l: LoopModel, force: bool, now: u64, delay: u64)
    ensures
        ({
            let after = after_publishing(l, force, now, delay);
            after.1 != after.0.pending_notify
        }),
{
}

/// What a pane does about its output.
#[derive(Debug)]
pub struct PaneFeed {
    pub sync: Dec2026Parser,
    pub coalescer: AdaptiveCoalescer,
    pub state: ReadLoopState,
}

/// What is known before output is interpreted.
#[derive(Clone, Copy, Debug, PartialEq, Eq, Structural)]
pub struct ChunkStart {
    /// Whether clients are told now of what they were not told of.
    pub tell: bool,
    /// Whether output is held back.
    pub in_sync: bool,
    /// Whether it ceased to be.
    pub ended: bool,
    /// How long to wait before clients are told again.
    pub delay: u64,
}

impl PaneFeed {
    /// Nothing was read yet.
    pub fn new() -> (feed: PaneFeed)
        ensures
            feed.sync@ == (SyncModel { in_sync: false, begin_time: None, matched: 0 }),
            feed.coalescer@ == coalescing::idle_model(),
            feed.state@ == (LoopModel {
                last_notify: None,
                pending_sync: false,
                rows: Seq::empty(),
                full: false,
                pending_notify: false,
            }),
    {
        PaneFeed {
            sync: Dec2026Parser::new(),
            coalescer: AdaptiveCoalescer::new(),
            state: ReadLoopState::new(),
        }
    }

    /// Looks at output before it is interpreted.
    pub fn begin_chunk(&mut self, bytes: &[u8], now: u64, keyboard: &KeyboardActivity) -> (start:
        ChunkStart)
        requires
            old(self).sync@.wf(),
        ensures
            final(self).sync@ == dec2026::after_bytes(old(self).sync@, bytes@, now),
            final(self).sync@.wf(),
            final(self).coalescer@ == coalescing::after_output(
                old(self).coalescer@,
                now,
                bytes@.len() as u64,
                keyboard.last_input,
            ),
            after_waiting(old(self).state@, now, final(self).coalescer@.delay) == (
                final(self).state@,
                start.tell,
            ),
            start.in_sync == final(self).sync@.in_sync,
            start.ended == dec2026::ends(old(self).sync@, bytes@, now),
            start.delay == final(self).coalescer@.delay,
    {
        let transitions: Dec2026Transitions = self.sync.parse(bytes, now);
        let delay: u64 = self.coalescer.on_output_at(now, bytes.len(), keyboard);
        let tell: bool = self.state.flush_pending_notify(now, delay);
        ChunkStart { tell, in_sync: self.sync.is_in_sync(), ended: transitions.ended(), delay }
    }

    /// Takes in what the output changed once it is interpreted, and says what
    /// is to be published.
    pub fn finish_chunk(
        &mut self,
        start: ChunkStart,
        dirty_rows: Vec<usize>,
        render_state_changed: bool,
    ) -> (emission: Option<Emission>)
        ensures
            after_chunk(
                old(self).state@,
                start.in_sync,
                start.ended,
                dirty_rows@,
                render_state_changed,
            ) == (final(self).state@, emission_model(emission)),
            final(self).sync == old(self).sync,
            final(self).coalescer == old(self).coalescer,
    {
        self.state.on_chunk(start.in_sync, start.ended, dirty_rows, render_state_changed)
    }
}

impl Default for PaneFeed {
    fn default() -> (feed: Self)
        ensures
            feed.sync@ == (SyncModel { in_sync: false, begin_time: None, matched: 0 }),
            feed.coalescer@ == coalescing::idle_model(),
            feed.state@ == (LoopModel {
                last_notify: None,
                pending_sync: false,
                rows: Seq::empty(),
                full: false,
                pending_notify: false,
            }),
    {
        PaneFeed::new()
    }
}

/// What came of reading the output of a pane.
#[derive(Clone, Copy, Debug, PartialEq, Eq, Structural)]
pub enum ReadEvent {
    /// There was nothing to read for a while.
    Quiet,
    /// There is nothing to read any more.
    End,
    /// There were bytes.
    Bytes,
    Interrupted,
    WouldBlock,
    Failed,
}

/// What to do about it.
#[derive(Clone, Copy, Debug, PartialEq, Eq, Structural)]
pub struct ReadAction {
    /// Interpret the bytes.
    pub process: bool,
    /// Publish what was held back for too long.
    pub force_flush: bool,
    /// Tell clients what they were not told of.
    pub flush_notify: bool,
    /// The pane is over.
    pub end: bool,
}

/// How long to wait for output, in thousandths of a second: not long while
/// output is held back.
pub fn poll_timeout(in_sync: bool) -> (milliseconds: i32)
    ensures
        milliseconds == if in_sync {
            25i32
        } else {
            250i32
        },
{
    if in_sync {
        25
    } else {
        250
    }
}

/// Decides what to do about what came of reading the output of a pane;
/// `timed_out` says whether output was held back for too long.
pub fn read_loop_step(event: ReadEvent, timed_out: bool) -> (action: ReadAction)
    ensures
        action.process == (event == ReadEvent::Bytes),
        action.end == (event == ReadEvent::End || event == ReadEvent::Failed),
        action.force_flush == (timed_out && (event == ReadEvent::Quiet || event == ReadEvent::Bytes
            || event == ReadEvent::WouldBlock)),
        action.flush_notify == (!timed_out && event == ReadEvent::Quiet),
{
    match event {
        ReadEvent::Quiet => ReadAction {
            process: false,
            force_flush: timed_out,
            flush_notify: !timed_out,
            end: false,
        },
        ReadEvent::End | ReadEvent::Failed => ReadAction {
            process: false,
            force_flush: false,
            flush_notify: false,
            end: true,
        },
        ReadEvent::Bytes => ReadAction {
            process: true,
            force_flush: timed_out,
            flush_notify: false,
            end: false,
        },
        ReadEvent::Interrupted => ReadAction {
            process: false,
            force_flush: false,
            flush_notify: false,
            end: false,
        },
        ReadEvent::WouldBlock => ReadAction {
            process: false,
            force_flush: timed_out,
            flush_notify: false,
            end: false,
        },
    }
}

/// What the emulator of a pane asks for.
#[derive(Debug)]
pub enum EmulatorEvent {
    Title(String),
    ResetTitle,
    Bell,
    /// An answer to the program.
    PtyWrite(String),
    ClipboardStore(String),
    ClipboardLoad,
    Exit,
    Other,
}

/// What is done about it.
#[derive(Debug)]
pub enum PaneAction {
    /// The pane gets a title and a generation.
    SetTitle(String),
    TellTitle(String),
    TellDirty,
    TellBell,
    Write(String),
    StoreClipboard(String),
    /// The pane is over.
    End,
}

/// What is done.
pub enum ActionModel {
    SetTitle(Seq<char>),
    TellTitle(Seq<char>),
    TellDirty,
    TellBell,
    Write(Seq<char>),
    StoreClipboard(Seq<char>),
    End,
}

impl View for PaneAction {
    type V = ActionModel;

    open spec fn view(&self) -> ActionModel {
        match self {
            PaneAction::SetTitle(title) => ActionModel::SetTitle(title@),
            PaneAction::TellTitle(title) => ActionModel::TellTitle(title@),
            PaneAction::TellDirty => ActionModel::TellDirty,
            PaneAction::TellBell => ActionModel::TellBell,
            PaneAction::Write(data) => ActionModel::Write(data@),
            PaneAction::StoreClipboard(data) => ActionModel::StoreClipboard(data@),
            PaneAction::End => ActionModel::End,
        }
    }
}

/// What a list of actions holds.
pub open spec fn action_models(actions: Seq<PaneAction>) -> Seq<ActionModel> {
    actions.map_values(|a: PaneAction| a@)
}

/// What is done about a title.
pub open spec fn title_actions(title: Seq<char>) -> Seq<ActionModel> {
    seq![ActionModel::SetTitle(title), ActionModel::TellTitle(title), ActionModel::TellDirty]
}

/// What is done about an event.
pub open spec fn actions_for(event: EmulatorEvent) -> Seq<ActionModel> {
    match event {
        EmulatorEvent::Title(title) => title_actions(title@),
        EmulatorEvent::ResetTitle => title_actions(Seq::empty()),
        EmulatorEvent::Bell => seq![ActionModel::TellBell],
        EmulatorEvent::PtyWrite(data) => seq![ActionModel::Write(data@)],
        EmulatorEvent::ClipboardStore(data) => seq![ActionModel::StoreClipboard(data@)],
        EmulatorEvent::ClipboardLoad => Seq::empty(),
        EmulatorEvent::Exit => seq![ActionModel::End],
        EmulatorEvent::Other => Seq::empty(),
    }
}

/// Decides what is done about what the emulator asks for.
pub fn handle_emulator_event(event: EmulatorEvent) -> (actions: Vec<PaneAction>)
    ensures
        action_models(actions@) == actions_for(event),
{
    let mut actions: Vec<PaneAction> = Vec::new();
    match event {
        EmulatorEvent::Title(title) => {
            actions.push(PaneAction::SetTitle(title.clone()));
            actions.push(PaneAction::TellTitle(title));
            actions.push(PaneAction::TellDirty);
        },
        EmulatorEvent::ResetTitle => {
            actions.push(PaneAction::SetTitle(String::new()));
            actions.push(PaneAction::TellTitle(String::new()));
            actions.push(PaneAction::TellDirty);
        },
        EmulatorEvent::Bell => {
            actions.push(PaneAction::TellBell);
        },
        EmulatorEvent::PtyWrite(data) => {
            actions.push(PaneAction::Write(data));
        },
        EmulatorEvent::ClipboardStore(data) => {
            actions.push(PaneAction::StoreClipboard(data));
        },
        EmulatorEvent::ClipboardLoad => {},
        EmulatorEvent::Exit => {
            actions.push(PaneAction::End);
        },
        EmulatorEvent::Other => {},
    }
    assert(action_models(actions@) =~= actions_for(event));
    actions
}

/// What is done about input.
#[derive(Clone, Copy, Debug, PartialEq, Eq, Structural)]
pub enum InputAction {
    /// Texts that are pasted are marked from now on.
    MarkPastes,
    /// They are not.
    DoNotMarkPastes,
    /// The input goes to the program.
    Write,
}

/// The sequences that switch the marking of texts that are pasted begin so.
pub open spec fn paste_prefix() -> Seq<u8> {
    seq![0x1b, 0x5b, 0x3f, 0x32, 0x30, 0x30, 0x34]
}

/// Decides what is done about input.
pub fn input_action(data: &[u8]) -> (action: InputAction)
    ensures
        action == if data@ == paste_prefix().push(0x68) {
            InputAction::MarkPastes
        } else if data@ == paste_prefix().push(0x6c) {
            InputAction::DoNotMarkPastes
        } else {
            InputAction::Write
        },
{
    let begins: bool = data.len() == 8 && data[0] == 0x1b && data[1] == 0x5b && data[2] == 0x3f
        && data[3] == 0x32 && data[4] == 0x30 && data[5] == 0x30 && data[6] == 0x34;
    proof {
        let on = paste_prefix().push(0x68);
        let off = paste_prefix().push(0x6c);
        assert(on.len() == 8 && off.len() == 8);
        if begins {
            assert(data@ =~= paste_prefix().push(data@[7]));
            assert(on[7] == 0x68 && off[7] == 0x6c);
        } else {
            if data@ == on {
                assert(data@[0] == on[0] && data@[1] == on[1] && data@[2] == on[2] && data@[3]
                    == on[3] && data@[4] == on[4] && data@[5] == on[5] && data@[6] == on[6]);
            }
            if data@ == off {
                assert(data@[0] == off[0] && data@[1] == off[1] && data@[2] == off[2] && data@[3]
                    == off[3] && data@[4] == off[4] && data@[5] == off[5] && data@[6] == off[6]);
            }
        }
    }
    if begins && data[7] == 0x68 {
        InputAction::MarkPastes
    } else if begins && data[7] == 0x6c {
        InputAction::DoNotMarkPastes
    } else {
        InputAction::Write
    }
}

/// Those entries of a list whose place is not in another one.
pub open spec fn kept(list: Seq<u64>, gone: Seq<usize>) -> Seq<u64>
    decreases list.len(),
{
    if list.len() == 0 {
        Seq::empty()
    } else if gone.contains((list.len() - 1) as usize) {
        kept(list.drop_last(), gone)
    } else {
        kept(list.drop_last(), gone).push(list.last())
    }
}

/// Forgets the subscribers that could not be told.
pub fn prune_subscribers(subscribers: &Vec<u64>, gone: &Vec<usize>) -> (live: Vec<u64>)
    ensures
        live@ == kept(subscribers@, gone@),
{
    let mut live: Vec<u64> = Vec::new();
    let mut i: usize = 0;
    assert(subscribers@.take(0) =~= Seq::<u64>::empty());
    while i < subscribers.len()
        invariant
            i <= subscribers.len(),
            live@ == kept(subscribers@.take(i as int), gone@),
        decreases subscribers.len() - i,
    {
        proof {
            assert(subscribers@.take(i + 1).drop_last() =~= subscribers@.take(i as int));
            assert(subscribers@.take(i + 1).last() == subscribers@[i as int]);
        }
        let mut is_gone: bool = false;
        let mut k: usize = 0;
        while k < gone.len()
            invariant
                k <= gone.len(),
                is_gone == exists|j: int| 0 <= j < k && gone@[j] == i,
            decreases gone.len() - k,
        {
            if gone[k] == i {
                is_gone = true;
            }
            k = k + 1;
        }
        proof {
            if gone@.contains(i) {
                let j = choose|j: int| 0 <= j < gone@.len() && gone@[j] == i;
                assert(is_gone);
            }
        }
        if !is_gone {
            live.push(subscribers[i]);
        }
        i = i + 1;
    }
    assert(subscribers@.take(i as int) =~= subscribers@);
    live
}

/// What a process learns from its environment: the kind of its terminal, its
/// pane under two names, and its session where it has one.
pub proof fn law_processes_know_their_pane(id: Seq<char>, session: Seq<char>)
    ensures
        ({
            let env = pane_environment(id, session);
            &&& env.contains(("TERM"@, "xterm-256color"@))
            &&& env.contains(("COLORTERM"@, "truecolor"@))
            &&& env.contains(("Z3RM_PANE_ID"@, id))
            &&& env.contains(("Z3RM_PANE"@, id))
            &&& session.len() > 0 ==> env.len() == 5 && env.contains(("Z3RM_SESSION"@, session))
            &&& session.len() == 0 ==> env.len() == 4
        }),
{
    let env = pane_environment(id, session);
    assert(env[0] == ("TERM"@, "xterm-256color"@));
    assert(env[1] == ("COLORTERM"@, "truecolor"@));
    assert(env[2] == ("Z3RM_PANE_ID"@, id));
    assert(env[3] == ("Z3RM_PANE"@, id));
    if session.len() > 0 {
        assert(env[4] == ("Z3RM_SESSION"@, session));
    }
}

/// Texts are joined by single spaces, in their order.
pub proof fn law_texts_are_joined_by_spaces(a: Seq<Seq<char>>, b: Seq<Seq<char>>, one: Seq<char>)
    requires
        a.len() > 0,
        b.len() > 0,
    ensures
        spaced(a + b) == spaced(a) + " "@ + spaced(b),
        spaced(seq![one]) == one,
        spaced(Seq::empty()).len() == 0,
    decreases b.len(),
{
    let all = a + b;
    assert(all.drop_last() =~= a + b.drop_last());
    assert(all.last() == b.last());
    if b.len() == 1 {
        assert(all.drop_last() =~= a);
        assert(spaced(b) == b.last());
    } else {
        law_texts_are_joined_by_spaces(a, b.drop_last(), one);
        assert(spaced(all) =~= spaced(a) + " "@ + spaced(b));
    }
}

/// A change that is published is the latest one kept: its rows, and whether it
/// takes a whole screen, under the next generation. Nothing else about the pane
/// changes.
pub proof fn law_published_changes_are_kept(p: PaneState, rows: Seq<RowModel>, full: bool)
    requires
        p.ring.entries.len() <= p.ring.capacity,
        p.ring.capacity > 0,
    ensures
        ({
            let after = published(p, rows, full);
            &&& after.ring.entries.len() > 0
            &&& after.ring.entries.last().rows == rows
            &&& after.ring.entries.last().requires_full_snapshot == full
            &&& after.ring.entries.last().generation == after.generation
            &&& p.generation < u64::MAX ==> after.generation == p.generation + 1
            &&& after.ring.capacity == p.ring.capacity
            &&& after.id == p.id && after.title == p.title
            &&& after.cols == p.cols && after.rows == p.rows
            &&& after.alive == p.alive && after.zoomed == p.zoomed
            &&& after.bracketed_paste == p.bracketed_paste
            &&& after.session_id == p.session_id && after.shell == p.shell
        }),
{
    let generation = next_generation(p.generation);
    grid_sync::law_ring_keeps_the_latest(
        p.ring,
        RingEntry { generation, rows, requires_full_snapshot: full },
    );
}

/// Where all of a screen changed, every row of it did, once and in order; else
/// the rows are those that are named.
pub proof fn law_changed_rows_are_collected(lines: Vec<usize>, screen_lines: nat, i: int)
    requires
        screen_lines <= usize::MAX,
    ensures
        rows_changed(Damage::Full, screen_lines).len() == screen_lines,
        0 <= i < screen_lines ==> rows_changed(Damage::Full, screen_lines)[i] == i,
        rows_changed(Damage::Lines(lines), screen_lines) == lines@,
{
}

/// While updates are held back nothing is published, and what changed is kept;
/// otherwise what changed is published at once, together with all that was held
/// back, and nothing is published where nothing changed.
pub proof fn law_changes_are_held_back_or_published(
    l: LoopModel,
    in_sync: bool,
    ended: bool,
    dirty: Seq<usize>,
    changed: bool,
    row: usize,
)
    ensures
        ({
            let (after, told) = after_chunk(l, in_sync, ended, dirty, changed);
            let held = in_sync && !ended;
            let any = dirty.len() > 0 || changed;
            &&& held ==> told is None
            &&& held && any ==> after.pending_sync && after.rows == l.rows + dirty && after.full == (
            l.full || changed)
            &&& !any && (held || !l.pending_sync) ==> after == l && told is None
            &&& !held && (any || l.pending_sync) ==> {
                &&& told matches Some((rows, full)) && (rows.contains(row) <==> l.rows.contains(row)
                    || dirty.contains(row)) && full == (l.full || changed)
                &&& !after.pending_sync && after.rows.len() == 0 && !after.full
            }
            &&& after.last_notify == l.last_notify && after.pending_notify == l.pending_notify
        }),
{
    let all = l.rows + dirty;
    law_rows_in_order(all, row);
    if all.contains(row) {
        let k = choose|k: int| 0 <= k < all.len() && all[k] == row;
        if k < l.rows.len() {
            assert(l.rows[k] == row);
        } else {
            assert(dirty[k - l.rows.len()] == row);
        }
    }
    if l.rows.contains(row) {
        let k = choose|k: int| 0 <= k < l.rows.len() && l.rows[k] == row;
        assert(all[k] == row);
    }
    if dirty.contains(row) {
        let k = choose|k: int| 0 <= k < dirty.len() && dirty[k] == row;
        assert(all[l.rows.len() + k] == row);
    }
}

/// Clients are told of what is published at once where that is forced, where
/// there is no delay, or where they were not told for that long, and else later;
/// and later only what is outstanding, not before the delay is over.
pub proof fn law_clients_are_told_in_time(l: LoopModel, force: bool, now: u64, delay: u64)
    ensures
        ({
            let over = l.last_notify is None || (now >= l.last_notify->0 && now - l.last_notify->0
                >= delay);
            let (published, told) = after_publishing(l, force, now, delay);
            let (waited, told_late) = after_waiting(l, now, delay);
            &&& told <==> force || delay == 0 || over
            &&& told ==> published.last_notify == Some(now) && !published.pending_notify
            &&& !told ==> published.last_notify == l.last_notify && published.pending_notify
            &&& published.rows == l.rows && published.full == l.full && published.pending_sync
                == l.pending_sync
            &&& delay > 0 ==> (told_late <==> l.pending_notify && over)
            &&& told_late ==> waited.last_notify == Some(now) && !waited.pending_notify
            &&& !told_late ==> waited == l
        }),
{
}

/// What an emulator reports is done: a title is set and told, a bell is told,
/// an answer is written, a selection is stored, and the end ends the pane.
pub proof fn law_emulator_events_are_done(event: EmulatorEvent)
    ensures
        match event {
            EmulatorEvent::Title(title) => actions_for(event).contains(
                ActionModel::SetTitle(title@),
            ) && actions_for(event).contains(ActionModel::TellTitle(title@))
                && actions_for(event).contains(ActionModel::TellDirty),
            EmulatorEvent::ResetTitle => actions_for(event).contains(
                ActionModel::SetTitle(Seq::empty()),
            ) && actions_for(event).contains(ActionModel::TellTitle(Seq::empty()))
                && actions_for(event).contains(ActionModel::TellDirty),
            EmulatorEvent::Bell => actions_for(event) == seq![ActionModel::TellBell],
            EmulatorEvent::PtyWrite(data) => actions_for(event) == seq![
                ActionModel::Write(data@),
            ],
            EmulatorEvent::ClipboardStore(data) => actions_for(event) == seq![
                ActionModel::StoreClipboard(data@),
            ],
            EmulatorEvent::ClipboardLoad => actions_for(event).len() == 0,
            EmulatorEvent::Exit => actions_for(event) == seq![ActionModel::End],
            EmulatorEvent::Other => actions_for(event).len() == 0,
        },
        forall|i: int|
            0 <= i < actions_for(event).len() ==> ((#[trigger] actions_for(event)[i]) is End <==>
                event is Exit),
{
    let actions = actions_for(event);
    match event {
        EmulatorEvent::Title(title) => {
            assert(actions[0] == ActionModel::SetTitle(title@));
            assert(actions[1] == ActionModel::TellTitle(title@));
            assert(actions[2] == ActionModel::TellDirty);
        },
        EmulatorEvent::ResetTitle => {
            assert(actions[0] == ActionModel::SetTitle(Seq::empty()));
            assert(actions[1] == ActionModel::TellTitle(Seq::empty()));
        },
        EmulatorEvent::Bell => {
            assert(actions[0] == ActionModel::TellBell);
        },
        _ => {},
    }
}

/// The input that turns the marking of pastes on or off is the one of private
/// mode 2004.
pub proof fn law_pastes_are_marked_by_mode_2004(number: Seq<u8>)
    ensures
        paste_prefix() == seq![0x1bu8, 0x5b, 0x3f] + number <==> number == seq![
            0x32u8,
            0x30,
            0x30,
            0x34,
        ],
{
    let head = seq![0x1bu8, 0x5b, 0x3f];
    let all = head + number;
    assert(paste_prefix() =~= head + seq![0x32u8, 0x30, 0x30, 0x34]);
    if all == paste_prefix() {
        assert(number =~= all.skip(3));
        assert(paste_prefix().skip(3) =~= seq![0x32u8, 0x30, 0x30, 0x34]);
    }
}

/// A subscriber is kept just where its place is not among those that went.
pub proof fn law_live_subscribers_are_kept(list: Seq<u64>, gone: Seq<usize>)
    requires
        list.len() <= usize::MAX,
    ensures
        forall|i: int|
            0 <= i < list.len() && !gone.contains(i as usize) ==> kept(list, gone).contains(
                #[trigger] list[i],
            ),
        forall|j: int|
            0 <= j < kept(list, gone).len() ==> exists|i: int|
                0 <= i < list.len() && !gone.contains(i as usize) && #[trigger] list[i]
                    == #[trigger] kept(list, gone)[j],
        gone.len() == 0 ==> kept(list, gone) == list,
    decreases list.len(),
{
    if list.len() > 0 {
        let init = list.drop_last();
        let before = kept(init, gone);
        let all = kept(list, gone);
        law_live_subscribers_are_kept(init, gone);
        assert forall|i: int| 0 <= i < list.len() && !gone.contains(i as usize) implies all.contains(
            #[trigger] list[i],
        ) by {
            if i < init.len() {
                assert(before.contains(init[i]));
                let j = choose|j: int| 0 <= j < before.len() && before[j] == init[i];
                assert(all[j] == list[i]);
            } else {
                assert(all[before.len() as int] == list[i]);
            }
        }
        assert forall|j: int| 0 <= j < all.len() implies exists|i: int|
            0 <= i < list.len() && !gone.contains(i as usize) && #[trigger] list[i]
                == #[trigger] all[j] by {
            if j < before.len() {
                assert(all[j] == before[j]);
                let i = choose|i: int|
                    0 <= i < init.len() && !gone.contains(i as usize) && #[trigger] init[i]
                        == before[j];
                assert(list[i] == all[j]);
            } else {
                assert(list[list.len() - 1] == all[j]);
            }
        }
        if gone.len() == 0 {
            assert(all =~= list);
        }
    } else {
        assert(kept(list, gone) =~= list);
    }
}

} // verus!
