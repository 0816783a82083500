//! The commands of a shell, out of the markers that it writes around them.
use vstd::prelude::*;

verus! {

/// What a marker marks, in the order in which a command meets them.
#[derive(Clone, Copy, Debug, PartialEq, Eq, Structural)]
pub enum ShellMarkerKind {
    PromptStart,
    CommandStart,
    OutputStart,
    CommandEnd,
}

/// A marker.
#[derive(Clone, Copy, Debug, PartialEq, Eq)]
pub struct ShellMarker {
    pub sequence: u64,
    pub kind: ShellMarkerKind,
    pub absolute_row: u64,
    pub column: u32,
    pub exit_code: Option<i32>,
    pub epoch: u64,
}

/// Where a marker is.
#[derive(Clone, Copy, Debug, PartialEq, Eq, Structural)]
pub enum ShellMarkerPosition {
    /// In the history, counted from the oldest line.
    History { index: u32 },
    /// On the screen.
    Viewport { line: u32 },
    /// Nowhere any more.
    Unavailable,
}

/// A marker with its line: 0 is the first on the screen, and the history
/// counts down from -1.
pub type LocatedMarker = (ShellMarker, Option<i64>);

/// The line of a place.
pub open spec fn line_of(position: ShellMarkerPosition, history: u32) -> Option<i64> {
    match position {
        ShellMarkerPosition::History { index } => if index < history {
            Some((index - history) as i64)
        } else {
            None
        },
        ShellMarkerPosition::Viewport { line } => Some(line as i64),
        ShellMarkerPosition::Unavailable => None,
    }
}

/// The line of a place. A place in the history that is not in it has none.
pub fn tmux_line(position: ShellMarkerPosition, history_size: u32) -> (line: Option<i64>)
    ensures
        line == line_of(position, history_size),
{
    match position {
        ShellMarkerPosition::History { index } => {
            let line: i64 = index as i64 - history_size as i64;
            if line < 0 {
                Some(line)
            } else {
                None
            }
        },
        ShellMarkerPosition::Viewport { line } => Some(line as i64),
        ShellMarkerPosition::Unavailable => None,
    }
}

/// A line is negative if and only if the marker is in the history.
pub proof fn law_history_lines_are_negative(position: ShellMarkerPosition, history: u32)
    ensures
        line_of(position, history) is Some ==> (line_of(position, history)->0 < 0
            <==> position is History),
{
}

/// How often the markers and the size of the history are read before it is
/// given up that they fit together.
pub const SNAPSHOT_ATTEMPTS: usize = 4;

/// What to make of a reading of the markers.
#[derive(Clone, Copy, Debug, PartialEq, Eq, Structural)]
pub enum SnapshotStep {
    /// The places fit the history.
    Use,
    /// They may not: read again.
    Retry,
    /// They will not: go without places.
    Unlocated,
}

/// Decides what to make of a reading of the markers, given the state of the
/// history before and after it.
pub fn snapshot_step(attempt: usize, epoch_before: u64, epoch_after: u64) -> (step: SnapshotStep)
    ensures
        step == if epoch_before == epoch_after {
            SnapshotStep::Use
        } else if attempt + 1 < SNAPSHOT_ATTEMPTS {
            SnapshotStep::Retry
        } else {
            SnapshotStep::Unlocated
        },
{
    if epoch_before == epoch_after {
        SnapshotStep::Use
    } else if attempt < SNAPSHOT_ATTEMPTS - 1 {
        SnapshotStep::Retry
    } else {
        SnapshotStep::Unlocated
    }
}

/// Gives markers the lines of their places.
pub fn locate_markers(positions: &Vec<(ShellMarker, ShellMarkerPosition)>, history_size: u32) -> (located:
    Vec<LocatedMarker>)
    ensures
        located@ == positions@.map_values(
            |p: (ShellMarker, ShellMarkerPosition)| (p.0, line_of(p.1, history_size)),
        ),
{
    let mut located: Vec<LocatedMarker> = Vec::new();
    let mut i: usize = 0;
    let ghost all = positions@.map_values(
        |p: (ShellMarker, ShellMarkerPosition)| (p.0, line_of(p.1, history_size)),
    );
    while i < positions.len()
        invariant
            i <= positions.len(),
            all == positions@.map_values(
                |p: (ShellMarker, ShellMarkerPosition)| (p.0, line_of(p.1, history_size)),
            ),
            located@ == all.take(i as int),
        decreases positions.len() - i,
    {
        let pair: (ShellMarker, ShellMarkerPosition) = positions[i];
        located.push((pair.0, tmux_line(pair.1, history_size)));
        assert(located@ =~= all.take(i + 1));
        i = i + 1;
    }
    assert(all.take(i as int) =~= all);
    located
}

/// Where something of a command is.
#[derive(Clone, Copy, Debug, PartialEq, Eq)]
pub struct CommandMarker {
    pub line: Option<i64>,
    pub column: u32,
}

/// A command.
#[derive(Clone, Copy, Debug, PartialEq, Eq)]
pub struct CommandRange {
    /// The number of its first marker.
    pub id: u64,
    pub prompt: Option<CommandMarker>,
    pub command: Option<CommandMarker>,
    pub output_start: Option<CommandMarker>,
    pub command_end: Option<CommandMarker>,
    pub exit_code: Option<i32>,
}

/// The place of a kind in the order in which a command meets them.
pub open spec fn slot(kind: ShellMarkerKind) -> int {
    match kind {
        ShellMarkerKind::PromptStart => 0,
        ShellMarkerKind::CommandStart => 1,
        ShellMarkerKind::OutputStart => 2,
        ShellMarkerKind::CommandEnd => 3,
    }
}

/// The place of a kind in the order in which a command meets them.
pub fn marker_slot(kind: ShellMarkerKind) -> (place: usize)
    ensures
        place == slot(kind),
{
    match kind {
        ShellMarkerKind::PromptStart => 0,
        ShellMarkerKind::CommandStart => 1,
        ShellMarkerKind::OutputStart => 2,
        ShellMarkerKind::CommandEnd => 3,
    }
}

/// A command of which nothing is known but its number.
pub open spec fn bare_command(id: u64) -> CommandRange {
    CommandRange {
        id,
        prompt: None,
        command: None,
        output_start: None,
        command_end: None,
        exit_code: None,
    }
}

/// A command with one more marker.
pub open spec fn with_marker(command: CommandRange, marker: LocatedMarker) -> CommandRange {
    let place = Some(CommandMarker { line: marker.1, column: marker.0.column });
    match marker.0.kind {
        ShellMarkerKind::PromptStart => CommandRange { prompt: place, ..command },
        ShellMarkerKind::CommandStart => CommandRange { command: place, ..command },
        ShellMarkerKind::OutputStart => CommandRange { output_start: place, ..command },
        ShellMarkerKind::CommandEnd => CommandRange {
            command_end: place,
            exit_code: marker.0.exit_code,
            ..command
        },
    }
}

/// The runs of markers: a marker goes on with a run where its kind comes after
/// that of the marker before it, and begins a new one otherwise.
pub open spec fn runs(markers: Seq<LocatedMarker>) -> Seq<CommandRange>
    decreases markers.len(),
{
    if markers.len() == 0 {
        Seq::empty()
    } else {
        let init = markers.drop_last();
        let last = markers.last();
        let before = runs(init);
        if init.len() > 0 && slot(last.0.kind) > slot(init.last().0.kind) {
            before.drop_last().push(with_marker(before.last(), last))
        } else {
            before.push(with_marker(bare_command(last.0.sequence), last))
        }
    }
}

/// Whether a run is more than a prompt.
pub open spec fn is_command(run: CommandRange) -> bool {
    run.command is Some || run.output_start is Some || run.command_end is Some
}

/// Those runs that are more than a prompt.
pub open spec fn commands_of(all: Seq<CommandRange>) -> Seq<CommandRange>
    decreases all.len(),
{
    if all.len() == 0 {
        Seq::empty()
    } else if is_command(all.last()) {
        commands_of(all.drop_last()).push(all.last())
    } else {
        commands_of(all.drop_last())
    }
}

fn add_marker(command: CommandRange, marker: &LocatedMarker) -> (more: CommandRange)
    ensures
        more == with_marker(command, *marker),
{
    let place: Option<CommandMarker> = Some(
        CommandMarker { line: marker.1, column: marker.0.column },
    );
    let mut more: CommandRange = command;
    match marker.0.kind {
        ShellMarkerKind::PromptStart => {
            more.prompt = place;
        },
        ShellMarkerKind::CommandStart => {
            more.command = place;
        },
        ShellMarkerKind::OutputStart => {
            more.output_start = place;
        },
        ShellMarkerKind::CommandEnd => {
            more.command_end = place;
            more.exit_code = marker.0.exit_code;
        },
    }
    more
}

/// Gathers markers into commands. Shells may leave markers out, and a prompt
/// that is drawn again is no command.
pub fn group_shell_markers(markers: &Vec<LocatedMarker>) -> (commands: Vec<CommandRange>)
    ensures
        commands@ == commands_of(runs(markers@)),
{
    let mut all: Vec<CommandRange> = Vec::new();
    let mut previous: Option<usize> = None;
    let mut i: usize = 0;
    assert(markers@.take(0) =~= Seq::<LocatedMarker>::empty());
    while i < markers.len()
        invariant
            i <= markers.len(),
            all@ == runs(markers@.take(i as int)),
            i > 0 ==> all@.len() > 0,
            previous is Some == (i > 0),
            i > 0 ==> previous->0 == slot(markers@[i - 1].0.kind),
        decreases markers.len() - i,
    {
        let marker: LocatedMarker = markers[i];
        let place: usize = marker_slot(marker.0.kind);
        proof {
            assert(markers@.take(i + 1).drop_last() =~= markers@.take(i as int));
            assert(markers@.take(i + 1).last() == marker);
            if i > 0 {
                assert(markers@.take(i as int).last() == markers@[i - 1]);
            }
        }
        let goes_on: bool = match previous {
            Some(before) => place > before,
            None => false,
        };
        if goes_on {
            let ghost before = all@;
            let last: usize = all.len() - 1;
            let command: CommandRange = all[last];
            all.set(last, add_marker(command, &marker));
            assert(all@ =~= before.drop_last().push(with_marker(before.last(), marker)));
        } else {
            let command = CommandRange {
                id: marker.0.sequence,
                prompt: None,
                command: None,
                output_start: None,
                command_end: None,
                exit_code: None,
            };
            all.push(add_marker(command, &marker));
        }
        previous = Some(place);
        i = i + 1;
    }
    assert(markers@.take(i as int) =~= markers@);
    let mut commands: Vec<CommandRange> = Vec::new();
    let mut k: usize = 0;
    assert(all@.take(0) =~= Seq::<CommandRange>::empty());
    while k < all.len()
        invariant
            k <= all.len(),
            commands@ == commands_of(all@.take(k as int)),
        decreases all.len() - k,
    {
        let run: CommandRange = all[k];
        proof {
            assert(all@.take(k + 1).drop_last() =~= all@.take(k as int));
            assert(all@.take(k + 1).last() == run);
        }
        if run.command.is_some() || run.output_start.is_some() || run.command_end.is_some() {
            commands.push(run);
        }
        k = k + 1;
    }
    assert(all@.take(k as int) =~= all@);
    commands
}

/// The commands of a pane, as a client gets them.
#[derive(Debug)]
pub struct CommandList {
    pub commands: Vec<CommandRange>,
    pub history_size: u32,
    pub recorded_markers: u32,
}

/// The last entries of a list; 0 stands for all of them.
pub open spec fn latest(all: Seq<CommandRange>, max: u32) -> Seq<CommandRange> {
    if max != 0 && all.len() > max {
        all.skip(all.len() - max)
    } else {
        all
    }
}

/// Lists the latest commands of a pane.
pub fn list_commands(markers: &Vec<LocatedMarker>, history_size: u32, max_results: u32) -> (list:
    CommandList)
    ensures
        list.commands@ == latest(commands_of(runs(markers@)), max_results),
        list.history_size == history_size,
        list.recorded_markers == if markers@.len() <= u32::MAX {
            markers@.len() as u32
        } else {
            u32::MAX
        },
{
    let mut commands: Vec<CommandRange> = group_shell_markers(markers);
    let max: usize = max_results as usize;
    if max != 0 && commands.len() > max {
        let start: usize = commands.len() - max;
        let ghost all = commands@;
        commands = commands.split_off(start);
        assert(commands@ =~= all.skip(start as int));
    }
    let recorded_markers: u32 = if markers.len() as u64 <= u32::MAX as u64 {
        markers.len() as u32
    } else {
        u32::MAX
    };
    CommandList { commands, history_size, recorded_markers }
}

proof fn lemma_runs_last(markers: Seq<LocatedMarker>)
    ensures
        markers.len() > 0 ==> runs(markers).len() > 0,
    decreases markers.len(),
{
    if markers.len() > 0 {
        lemma_runs_last(markers.drop_last());
    }
}

/// Markers that begin anew are gathered on their own: what came before them
/// changes nothing.
pub proof fn law_commands_are_independent(a: Seq<LocatedMarker>, b: Seq<LocatedMarker>)
    requires
        a.len() > 0 && b.len() > 0 ==> slot(b[0].0.kind) <= slot(a.last().0.kind),
    ensures
        runs(a + b) == runs(a) + runs(b),
    decreases b.len(),
{
    if b.len() == 0 {
        assert(a + b =~= a);
        assert(runs(a) + runs(b) =~= runs(a));
    } else {
        let init = b.drop_last();
        assert((a + b).drop_last() =~= a + init);
        assert((a + b).last() == b.last());
        if init.len() > 0 {
            assert(init[0] == b[0]);
        }
        law_commands_are_independent(a, init);
        lemma_runs_last(init);
        if init.len() > 0 {
            assert((a + init).last() == init.last());
        } else if a.len() > 0 {
            assert(a + init =~= a);
            assert(b.last() == b[0]);
        }
        assert(runs(a + b) =~= runs(a) + runs(b));
    }
}

/// Every command that is listed has more than a prompt.
pub proof fn law_listed_commands_have_run(all: Seq<CommandRange>, i: int)
    requires
        0 <= i < commands_of(all).len(),
    ensures
        is_command(commands_of(all)[i]),
        all.contains(commands_of(all)[i]),
    decreases all.len(),
{
    let init = all.drop_last();
    if i < commands_of(init).len() {
        law_listed_commands_have_run(init, i);
        let k = choose|k: int| 0 <= k < init.len() && init[k] == commands_of(init)[i];
        assert(all[k] == commands_of(all)[i]);
    } else {
        assert(all[all.len() - 1] == commands_of(all)[i]);
    }
}

/// Lines are counted from the top of the screen: a line of the history by how
/// far it is above, a line of the screen by how far it is below.
pub proof fn law_lines_count_from_the_screen(position: ShellMarkerPosition, history: u32)
    ensures
        position matches ShellMarkerPosition::History { index } ==> (if index < history {
            line_of(position, history) is Some && line_of(position, history)->0 + history == index
        } else {
            line_of(position, history) is None
        }),
        position matches ShellMarkerPosition::Viewport { line } ==> line_of(position, history)
            is Some && line_of(position, history)->0 == line,
        position is Unavailable ==> line_of(position, history) is None,
{
}

/// The place of a marker in a command, by the kind of the marker.
pub open spec fn place_for(command: CommandRange, kind: ShellMarkerKind) -> Option<CommandMarker> {
    if kind is PromptStart {
        command.prompt
    } else if kind is CommandStart {
        command.command
    } else if kind is OutputStart {
        command.output_start
    } else {
        command.command_end
    }
}

/// Whether a command has a marker where it belongs, and the exit code with the
/// marker of its end.
pub open spec fn records(command: CommandRange, marker: LocatedMarker) -> bool {
    &&& place_for(command, marker.0.kind) == Some(
        (CommandMarker { line: marker.1, column: marker.0.column }),
    )
    &&& marker.0.kind is CommandEnd ==> command.exit_code == marker.0.exit_code
}

/// A marker that is added to a command takes the place of its kind and no other;
/// the exit code comes with the end alone.
pub proof fn law_markers_take_their_own_place(
    command: CommandRange,
    marker: LocatedMarker,
    other: ShellMarkerKind,
)
    ensures
        records(with_marker(command, marker), marker),
        other != marker.0.kind ==> place_for(with_marker(command, marker), other) == place_for(
            command,
            other,
        ),
        !(marker.0.kind is CommandEnd) ==> with_marker(command, marker).exit_code
            == command.exit_code,
        with_marker(command, marker).id == command.id,
{
}

/// Whether markers are those of one command: each of a later kind than the one
/// before, from the prompt to the command, its output and its end.
pub open spec fn one_by_one(markers: Seq<LocatedMarker>) -> bool {
    forall|i: int, j: int|
        0 <= i < j < markers.len() ==> is_later(
            (#[trigger] markers[i]).0.kind,
            (#[trigger] markers[j]).0.kind,
        )
}

/// Whether a kind of marker comes after another in a command.
pub open spec fn is_later(first: ShellMarkerKind, second: ShellMarkerKind) -> bool {
    match first {
        ShellMarkerKind::PromptStart => !(second is PromptStart),
        ShellMarkerKind::CommandStart => second is OutputStart || second is CommandEnd,
        ShellMarkerKind::OutputStart => second is CommandEnd,
        ShellMarkerKind::CommandEnd => false,
    }
}

/// Markers that follow one another as in a command make one command, which has
/// each of them in its place and is known by the first of them; it has nothing
/// where there was no marker.
pub proof fn law_markers_make_a_command(markers: Seq<LocatedMarker>, kind: ShellMarkerKind)
    requires
        markers.len() > 0,
        one_by_one(markers),
    ensures
        runs(markers).len() == 1,
        runs(markers)[0].id == markers[0].0.sequence,
        forall|i: int|
            0 <= i < markers.len() ==> records(runs(markers)[0], #[trigger] markers[i]),
        (forall|i: int| 0 <= i < markers.len() ==> (#[trigger] markers[i]).0.kind != kind)
            ==> place_for(runs(markers)[0], kind) is None,
    decreases markers.len(),
{
    let init = markers.drop_last();
    let last = markers.last();
    if init.len() > 0 {
        assert forall|i: int, j: int| 0 <= i < j < init.len() implies is_later(
            (#[trigger] init[i]).0.kind,
            (#[trigger] init[j]).0.kind,
        ) by {
            assert(init[i] == markers[i] && init[j] == markers[j]);
        }
        law_markers_make_a_command(init, kind);
        assert(is_later(markers[init.len() - 1].0.kind, markers[init.len() as int].0.kind));
        let before = runs(init);
        assert(runs(markers) =~= seq![with_marker(before[0], last)]);
        assert forall|i: int| 0 <= i < markers.len() implies records(
            runs(markers)[0],
            #[trigger] markers[i],
        ) by {
            law_markers_take_their_own_place(before[0], last, markers[i].0.kind);
            if i < init.len() {
                assert(init[i] == markers[i]);
                assert(records(before[0], init[i]));
                assert(is_later(markers[i].0.kind, markers[init.len() as int].0.kind));
            }
        }
        if forall|i: int| 0 <= i < markers.len() ==> (#[trigger] markers[i]).0.kind != kind {
            assert forall|i: int| 0 <= i < init.len() implies (#[trigger] init[i]).0.kind != kind by {
                assert(init[i] == markers[i]);
            }
            assert(markers[init.len() as int].0.kind != kind);
        }
    } else {
        let bare = bare_command(last.0.sequence);
        assert(runs(init) =~= Seq::<CommandRange>::empty());
        assert(runs(markers) =~= seq![with_marker(bare, last)]);
        law_markers_take_their_own_place(bare, last, kind);
        if forall|i: int| 0 <= i < markers.len() ==> (#[trigger] markers[i]).0.kind != kind {
            assert(markers[0].0.kind != kind);
        }
    }
}

/// The test for runs of markers that are commands.
pub open spec fn command_test() -> spec_fn(CommandRange) -> bool {
    |run: CommandRange|
        run.command is Some || run.output_start is Some || run.command_end is Some
}

/// The commands are the runs of markers that are more than a prompt, in their
/// order; and the latest of them are the last ones, as many as were asked for,
/// or all where no number was given.
pub proof fn law_all_commands_are_listed(all: Seq<CommandRange>, max: u32)
    ensures
        commands_of(all) == all.filter(command_test()),
        latest(all, max).is_suffix_of(all),
        latest(all, max).len() == if max == 0 || all.len() <= max {
            all.len()
        } else {
            max as nat
        },
{
    lemma_commands_of(all);
}

proof fn lemma_commands_of(all: Seq<CommandRange>)
    ensures
        commands_of(all) == all.filter(command_test()),
    decreases all.len(),
{
    reveal(Seq::filter);
    if all.len() > 0 {
        lemma_commands_of(all.drop_last());
    }
}

} // verus!
