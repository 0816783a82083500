//! The command line of the server.
use crate::numbers;
use crate::numbers::decimal_text;
use crate::text;
use crate::text::{joined, same_text};
use vstd::prelude::*;
use vstd::string::*;

verus! {

/// What the server is asked to do.
#[derive(Clone, Copy, Debug, PartialEq, Eq, Structural)]
pub enum Command {
    Version,
    Status,
    Kill,
    Run,
}

/// What an argument asks for.
pub open spec fn command_of(argument: Option<Seq<char>>) -> Command {
    match argument {
        Some(word) => if word == "--version"@ || word == "-V"@ {
            Command::Version
        } else if word == "status"@ {
            Command::Status
        } else if word == "kill"@ {
            Command::Kill
        } else {
            Command::Run
        },
        None => Command::Run,
    }
}

/// Reads what the first argument asks for.
pub fn parse_command(argument: &Option<String>) -> (command: Command)
    ensures
        command == command_of(text::optional(*argument)),
{
    match argument {
        Some(word) => {
            if same_text(word.as_str(), "--version") || same_text(word.as_str(), "-V") {
                Command::Version
            } else if same_text(word.as_str(), "status") {
                Command::Status
            } else if same_text(word.as_str(), "kill") {
                Command::Kill
            } else {
                Command::Run
            }
        },
        None => Command::Run,
    }
}

/// Which session is meant.
#[derive(Debug)]
pub enum SessionFlag {
    /// None was named.
    Absent,
    /// One was named.
    Session(String),
    /// The name is missing.
    MissingValue,
}

/// Which session is meant.
pub enum SessionFlagModel {
    Absent,
    Session(Seq<char>),
    MissingValue,
}

impl View for SessionFlag {
    type V = SessionFlagModel;

    open spec fn view(&self) -> SessionFlagModel {
        match self {
            SessionFlag::Absent => SessionFlagModel::Absent,
            SessionFlag::Session(id) => SessionFlagModel::Session(id@),
            SessionFlag::MissingValue => SessionFlagModel::MissingValue,
        }
    }
}

/// Whether a text begins with another one.
pub open spec fn begins_with(text: Seq<char>, start: Seq<char>) -> bool {
    text.len() >= start.len() && text.take(start.len() as int) == start
}

/// The session that arguments name, from a place on: behind `--session=` or in
/// the argument after `--session`.
pub open spec fn session_flag(args: Seq<Seq<char>>, k: int) -> SessionFlagModel
    decreases args.len() - k,
{
    if k < 0 || k >= args.len() {
        SessionFlagModel::Absent
    } else if begins_with(args[k], "--session="@) {
        if args[k].len() > "--session="@.len() {
            SessionFlagModel::Session(args[k].skip("--session="@.len() as int))
        } else {
            SessionFlagModel::MissingValue
        }
    } else if args[k] == "--session"@ {
        if k + 1 < args.len() && args[k + 1].len() > 0 {
            SessionFlagModel::Session(args[k + 1])
        } else {
            SessionFlagModel::MissingValue
        }
    } else {
        session_flag(args, k + 1)
    }
}

/// Takes the beginning of a text away, where it begins so.
pub fn strip_start(text: &str, start: &str) -> (rest: Option<String>)
    ensures
        begins_with(text@, start@) ==> rest is Some && rest->0@ == text@.skip(
            start@.len() as int,
        ),
        !begins_with(text@, start@) ==> rest is None,
{
    let length: usize = text.unicode_len();
    let size: usize = start.unicode_len();
    if size > length {
        return None;
    }
    if !same_text(text.substring_char(0, size), start) {
        assert(text@.take(size as int) =~= text@.subrange(0, size as int));
        return None;
    }
    assert(text@.take(size as int) =~= text@.subrange(0, size as int));
    assert(text@.skip(size as int) =~= text@.subrange(size as int, length as int));
    Some(text.substring_char(size, length).to_owned())
}

/// Reads which session is meant.
pub fn parse_session_flag(args: &Vec<String>) -> (flag: SessionFlag)
    ensures
        flag@ == session_flag(text::texts(args@), 0),
{
    let ghost all = text::texts(args@);
    let mut i: usize = 0;
    while i < args.len()
        invariant
            i <= args.len(),
            all == text::texts(args@),
            session_flag(all, 0) == session_flag(all, i as int),
        decreases args.len() - i,
    {
        assert(all[i as int] == args@[i as int]@);
        match strip_start(args[i].as_str(), "--session=") {
            Some(id) => {
                return if id.as_str().is_empty() {
                    SessionFlag::MissingValue
                } else {
                    SessionFlag::Session(id)
                };
            },
            None => {},
        }
        if same_text(args[i].as_str(), "--session") {
            if i + 1 < args.len() {
                assert(all[i + 1] == args@[i + 1]@);
                if !args[i + 1].as_str().is_empty() {
                    return SessionFlag::Session(args[i + 1].clone());
                }
            }
            return SessionFlag::MissingValue;
        }
        i = i + 1;
    }
    SessionFlag::Absent
}

/// How long the server has been running, in words.
pub open spec fn uptime(seconds: Option<u64>) -> Seq<char> {
    match seconds {
        Some(s) => numbers::digits_of((s / 3600) as nat) + "h "@ + numbers::digits_of(
            ((s % 3600) / 60) as nat,
        ) + "m"@,
        None => "unknown"@,
    }
}

/// Says how long the server has been running.
pub fn uptime_text(seconds: Option<u64>) -> (line: String)
    ensures
        line@ == uptime(seconds),
{
    match seconds {
        Some(s) => {
            let mut line: String = decimal_text(s / 3600);
            line.append("h ");
            line.append(decimal_text((s % 3600) / 60).as_str());
            line.append("m");
            line
        },
        None => "unknown".to_owned(),
    }
}

/// How long the server has been running: since it started, as its owner wrote
/// down, or else since its socket was bound.
pub fn running_seconds(boot_secs: Option<u64>, bound_secs: Option<u64>, now: u64) -> (seconds:
    Option<u64>)
    ensures
        seconds == match (boot_secs, bound_secs) {
            (Some(since), _) | (None, Some(since)) => Some(
                if now >= since {
                    (now - since) as u64
                } else {
                    0
                },
            ),
            (None, None) => None,
        },
{
    let since: u64 = match boot_secs {
        Some(since) => since,
        None => match bound_secs {
            Some(since) => since,
            None => {
                return None;
            },
        },
    };
    if now >= since {
        Some(now - since)
    } else {
        Some(0)
    }
}

/// What the server tells of itself.
#[derive(Debug)]
pub struct StatusReport {
    pub uptime_seconds: Option<u64>,
    /// How many clients are attached to each session.
    pub attached_clients: Vec<u32>,
    /// How many panes each session has that could be looked at.
    pub panes: Vec<usize>,
    /// The memory of the server in bytes.
    pub memory: u64,
    pub socket: String,
    pub pid: Option<u32>,
}

/// How many of the sessions somebody is attached to.
pub open spec fn attached_count(clients: Seq<u32>) -> nat
    decreases clients.len(),
{
    if clients.len() == 0 {
        0
    } else {
        attached_count(clients.drop_last()) + if clients.last() > 0 {
            1nat
        } else {
            0
        }
    }
}

/// How many panes there are.
pub open spec fn pane_count(panes: Seq<usize>) -> nat
    decreases panes.len(),
{
    if panes.len() == 0 {
        0
    } else {
        pane_count(panes.drop_last()) + panes.last() as nat
    }
}

proof fn lemma_pane_count_grows(panes: Seq<usize>, k: int)
    requires
        0 <= k <= panes.len(),
    ensures
        pane_count(panes.take(k)) <= pane_count(panes),
    decreases panes.len(),
{
    if k == panes.len() {
        assert(panes.take(k) =~= panes);
    } else {
        lemma_pane_count_grows(panes.drop_last(), k);
        assert(panes.drop_last().take(k) =~= panes.take(k));
    }
}

/// The lines of a report.
pub open spec fn report_lines(report: StatusReport) -> Seq<Seq<char>> {
    let lines = seq![
        "z3rm-server v0.1.0"@,
        "Uptime: "@ + uptime(report.uptime_seconds),
        "Sessions: "@ + numbers::digits_of(report.attached_clients@.len()) + " ("@
            + numbers::digits_of(attached_count(report.attached_clients@)) + " attached)"@,
        "Panes: "@ + numbers::digits_of(pane_count(report.panes@)),
        "Memory: "@ + numbers::digits_of((report.memory / 1024 / 1024) as nat) + " MB"@,
        "Socket: "@ + report.socket@,
    ];
    match report.pid {
        Some(pid) => lines.push("PID: "@ + numbers::digits_of(pid as nat)),
        None => lines,
    }
}

/// Writes what the server tells of itself, line by line.
pub fn status_lines(report: &StatusReport) -> (lines: Vec<String>)
    requires
        pane_count(report.panes@) <= u64::MAX,
    ensures
        text::texts(lines@) == report_lines(*report),
{
    let mut attached: u64 = 0;
    let mut i: usize = 0;
    assert(report.attached_clients@.take(0) =~= Seq::<u32>::empty());
    while i < report.attached_clients.len()
        invariant
            i <= report.attached_clients.len(),
            attached <= i,
            attached == attached_count(report.attached_clients@.take(i as int)),
        decreases report.attached_clients.len() - i,
    {
        proof {
            let all = report.attached_clients@;
            assert(all.take(i + 1).drop_last() =~= all.take(i as int));
            assert(all.take(i + 1).last() == all[i as int]);
        }
        if report.attached_clients[i] > 0 {
            attached = attached + 1;
        }
        i = i + 1;
    }
    assert(report.attached_clients@.take(i as int) =~= report.attached_clients@);
    let mut panes: u64 = 0;
    let mut k: usize = 0;
    assert(report.panes@.take(0) =~= Seq::<usize>::empty());
    while k < report.panes.len()
        invariant
            k <= report.panes.len(),
            pane_count(report.panes@) <= u64::MAX,
            panes == pane_count(report.panes@.take(k as int)),
        decreases report.panes.len() - k,
    {
        proof {
            let all = report.panes@;
            assert(all.take(k + 1).drop_last() =~= all.take(k as int));
            assert(all.take(k + 1).last() == all[k as int]);
            lemma_pane_count_grows(all, k + 1);
        }
        panes = panes + report.panes[k] as u64;
        k = k + 1;
    }
    assert(report.panes@.take(k as int) =~= report.panes@);
    let mut lines: Vec<String> = Vec::new();
    lines.push("z3rm-server v0.1.0".to_owned());
    lines.push(joined("Uptime: ", uptime_text(report.uptime_seconds).as_str()));
    let mut sessions: String = joined(
        "Sessions: ",
        decimal_text(report.attached_clients.len() as u64).as_str(),
    );
    sessions.append(" (");
    sessions.append(decimal_text(attached).as_str());
    sessions.append(" attached)");
    lines.push(sessions);
    lines.push(joined("Panes: ", decimal_text(panes).as_str()));
    let mut memory: String = joined("Memory: ", decimal_text(report.memory / 1024 / 1024).as_str());
    memory.append(" MB");
    lines.push(memory);
    lines.push(joined("Socket: ", report.socket.as_str()));
    match report.pid {
        Some(pid) => {
            lines.push(joined("PID: ", decimal_text(pid as u64).as_str()));
        },
        None => {},
    }
    assert(text::texts(lines@) =~= report_lines(*report));
    lines
}

/// The first word says what is to be done; any other word, or none, runs the
/// server.
pub proof fn law_words_are_commands(word: Seq<char>)
    ensures
        command_of(Some(word)) is Version <==> word == "--version"@ || word == "-V"@,
        command_of(Some(word)) is Status <==> word == "status"@,
        command_of(Some(word)) is Kill <==> word == "kill"@,
        command_of(None) is Run,
{
    reveal_strlit("--version");
    reveal_strlit("-V");
    reveal_strlit("status");
    reveal_strlit("kill");
    assert("--version"@.len() == 9 && "-V"@.len() == 2 && "status"@.len() == 6 && "kill"@.len()
        == 4);
}

/// Whether an argument names a session in one piece.
pub open spec fn names_session(arg: Seq<char>, id: Seq<char>) -> bool {
    arg == "--session="@ + id
}

/// The session is that of the first flag, in one piece or as the next argument;
/// a flag without a session is told, and no flag is none.
pub proof fn law_first_flag_names_the_session(args: Seq<Seq<char>>, k: int, id: Seq<char>)
    requires
        0 <= k <= args.len(),
        forall|j: int, rest: Seq<char>|
            0 <= j < k ==> !#[trigger] names_session(args[j], rest),
        forall|j: int| 0 <= j < k ==> #[trigger] args[j] != "--session"@,
    ensures
        ({
            let flag = session_flag(args, 0);
            &&& k == args.len() ==> flag is Absent
            &&& k < args.len() && names_session(args[k], id) && id.len() > 0 ==> flag
                == SessionFlagModel::Session(id)
            &&& k < args.len() && names_session(args[k], id) && id.len() == 0 ==> flag
                is MissingValue
            &&& k + 1 < args.len() && args[k] == "--session"@ && args[k + 1] == id && id.len() > 0
                ==> flag == SessionFlagModel::Session(id)
            &&& k + 1 < args.len() && args[k] == "--session"@ && args[k + 1].len() == 0 ==> flag
                is MissingValue
            &&& k + 1 == args.len() && args[k] == "--session"@ ==> flag is MissingValue
        }),
{
    lemma_flag_found(args, k, 0);
    reveal_strlit("--session=");
    reveal_strlit("--session");
    if k < args.len() && names_session(args[k], id) {
        assert(args[k].take("--session="@.len() as int) =~= "--session="@);
        assert(args[k].skip("--session="@.len() as int) =~= id);
    }
}

proof fn lemma_flag_found(args: Seq<Seq<char>>, k: int, i: int)
    requires
        0 <= i <= k <= args.len(),
        forall|j: int, rest: Seq<char>|
            0 <= j < k ==> !#[trigger] names_session(args[j], rest),
        forall|j: int| 0 <= j < k ==> #[trigger] args[j] != "--session"@,
    ensures
        session_flag(args, i) == session_flag(args, k),
    decreases k - i,
{
    if i < k {
        if begins_with(args[i], "--session="@) {
            let rest = args[i].skip("--session="@.len() as int);
            assert(args[i] =~= args[i].take("--session="@.len() as int) + rest);
            assert(names_session(args[i], rest));
        }
        lemma_flag_found(args, k, i + 1);
    }
}

/// The time is told in whole hours and the whole minutes that are left.
pub proof fn law_time_is_told_in_hours_and_minutes(hours: u64, minutes: u64, seconds: u64)
    requires
        minutes < 60,
        seconds < 60,
        3600 * hours + 60 * minutes + seconds <= u64::MAX,
    ensures
        uptime(Some((3600 * hours + 60 * minutes + seconds) as u64)) == numbers::digits_of(
            hours as nat,
        ) + "h "@ + numbers::digits_of(minutes as nat) + "m"@,
{
    let all = (3600 * hours + 60 * minutes + seconds) as u64;
    assert(all / 3600 == hours);
    assert(all % 3600 == 60 * minutes + seconds);
    assert((all % 3600) / 60 == minutes);
}

/// The test for sessions that a client is attached to.
pub open spec fn attached_test() -> spec_fn(u32) -> bool {
    |clients: u32| clients > 0
}

/// The attached sessions are those with a client, and the panes those of all
/// sessions.
pub proof fn law_sessions_and_panes_are_counted(
    clients: Seq<u32>,
    a: Seq<usize>,
    b: Seq<usize>,
    n: usize,
)
    ensures
        attached_count(clients) == clients.filter(attached_test()).len(),
        pane_count(a + b) == pane_count(a) + pane_count(b),
        pane_count(seq![n]) == n,
    decreases clients.len() + b.len(),
{
    reveal_with_fuel(pane_count, 2);
    reveal(Seq::filter);
    assert(seq![n].drop_last() =~= Seq::<usize>::empty());
    if clients.len() > 0 {
        law_sessions_and_panes_are_counted(clients.drop_last(), a, b, n);
    } else if b.len() > 0 {
        law_sessions_and_panes_are_counted(clients, a, b.drop_last(), n);
        assert((a + b).drop_last() =~= a + b.drop_last());
    } else {
        assert(a + b =~= a);
    }
}

/// A report tells the sessions, the panes, the memory in whole megabytes, the
/// socket, and the process where it is known.
pub proof fn law_reports_tell_everything(report: StatusReport, megabytes: nat, rest: nat)
    requires
        rest < 1_048_576,
        report.memory == 1_048_576 * megabytes + rest,
    ensures
        ({
            let lines = report_lines(report);
            &&& lines.contains("Uptime: "@ + uptime(report.uptime_seconds))
            &&& lines.contains(
                "Sessions: "@ + numbers::digits_of(report.attached_clients@.len()) + " ("@
                    + numbers::digits_of(report.attached_clients@.filter(attached_test()).len())
                    + " attached)"@,
            )
            &&& lines.contains("Panes: "@ + numbers::digits_of(pane_count(report.panes@)))
            &&& lines.contains("Memory: "@ + numbers::digits_of(megabytes) + " MB"@)
            &&& lines.contains("Socket: "@ + report.socket@)
            &&& report.pid is Some ==> lines.contains(
                "PID: "@ + numbers::digits_of(report.pid->0 as nat),
            )
            &&& lines.len() == if report.pid is Some {
                7int
            } else {
                6
            }
        }),
{
    law_sessions_and_panes_are_counted(report.attached_clients@, Seq::empty(), Seq::empty(), 0);
    assert((report.memory / 1024 / 1024) as nat == megabytes);
    let lines = report_lines(report);
    assert(lines.contains(lines[1]) && lines.contains(lines[2]) && lines.contains(lines[3])
        && lines.contains(lines[4]) && lines.contains(lines[5]));
    if report.pid is Some {
        assert(lines.contains(lines[6]));
    }
}

} // verus!
