//! Starting the server: who owns the socket, and how long an idle server
//! lives.
use crate::lines;
use crate::lines::{find_line_end, trim};
use crate::numbers;
use crate::numbers::{decimal_text, parse_up_to};
use crate::paths;
use crate::text;
use crate::text::{around, joined};
use vstd::prelude::*;
use vstd::string::*;

verus! {

/// Who owns a socket: a process, and when it started.
#[derive(Clone, Copy, Debug, PartialEq, Eq, Structural)]
pub struct OwnerMetadata {
    pub pid: u32,
    pub boot_secs: u64,
}

/// The owner that the text of a file names: the process on the first line and
/// the seconds of its start on the second.
pub open spec fn owner_of(contents: Seq<char>) -> Option<OwnerMetadata> {
    let first = lines::line_end(contents, 0);
    let pid = numbers::parsed(lines::trimmed(contents.subrange(0, first)), u32::MAX as int);
    let rest = if first < contents.len() {
        contents.subrange(first + 1, lines::line_end(contents, first + 1))
    } else {
        Seq::empty()
    };
    let boot = numbers::parsed(lines::trimmed(rest), u64::MAX as int);
    if pid is Some && boot is Some {
        Some(OwnerMetadata { pid: pid->0 as u32, boot_secs: boot->0 as u64 })
    } else {
        None
    }
}

/// Reads who owns a socket.
pub fn read_owner_metadata(contents: &str) -> (owner: Option<OwnerMetadata>)
    ensures
        owner == owner_of(contents@),
{
    let length: usize = contents.unicode_len();
    let first: usize = find_line_end(contents, 0);
    let pid_line: String = trim(contents.substring_char(0, first));
    let boot_line: String = if first < length {
        let second: usize = find_line_end(contents, first + 1);
        trim(contents.substring_char(first + 1, second))
    } else {
        proof {
            assert(lines::trimmed(Seq::<char>::empty()) =~= Seq::<char>::empty());
        }
        String::new()
    };
    let pid: u64 = match parse_up_to(pid_line.as_str(), u32::MAX as u64) {
        Some(pid) => pid,
        None => {
            return None;
        },
    };
    match parse_up_to(boot_line.as_str(), u64::MAX) {
        Some(boot_secs) => Some(OwnerMetadata { pid: pid as u32, boot_secs }),
        None => None,
    }
}

/// The text that names an owner.
pub open spec fn owner_text(owner: OwnerMetadata) -> Seq<char> {
    numbers::digits_of(owner.pid as nat) + "\n"@ + numbers::digits_of(owner.boot_secs as nat)
        + "\n"@
}

/// Writes who owns a socket.
pub fn pidfile_contents(owner: &OwnerMetadata) -> (contents: String)
    ensures
        contents@ == owner_text(*owner),
{
    let mut contents: String = decimal_text(owner.pid as u64);
    contents.append("\n");
    contents.append(decimal_text(owner.boot_secs).as_str());
    contents.append("\n");
    contents
}

/// Reading who owns a socket gives what was written.
pub proof fn law_owner_is_read_back(owner: OwnerMetadata)
    ensures
        owner_of(owner_text(owner)) == Some(owner),
{
    let pid = numbers::digits_of(owner.pid as nat);
    let boot = numbers::digits_of(owner.boot_secs as nat);
    let contents = owner_text(owner);
    reveal_strlit("\n");
    numbers::lemma_digits(owner.pid as nat);
    numbers::lemma_digits(owner.boot_secs as nat);
    numbers::law_reading_undoes_writing(owner.pid as nat, u32::MAX as int);
    numbers::law_reading_undoes_writing(owner.boot_secs as nat, u64::MAX as int);
    let first = pid.len() as int;
    let second = first + 1 + boot.len();
    assert forall|j: int| 0 <= j < first implies contents[j] != '\n' by {
        assert(numbers::is_digit(pid[j]));
        assert(contents[j] == pid[j]);
    }
    assert forall|j: int| first + 1 <= j < second implies contents[j] != '\n' by {
        assert(numbers::is_digit(boot[j - first - 1]));
        assert(contents[j] == boot[j - first - 1]);
    }
    lines::lemma_line_end(contents, 0, first);
    lines::lemma_line_end(contents, first + 1, second);
    assert(contents.subrange(0, first) =~= pid);
    assert(contents.subrange(first + 1, second) =~= boot);
    assert forall|i: int| 0 <= i < pid.len() implies !lines::is_space(#[trigger] pid[i]) by {
        assert(numbers::is_digit(pid[i]));
    }
    assert forall|i: int| 0 <= i < boot.len() implies !lines::is_space(#[trigger] boot[i]) by {
        assert(numbers::is_digit(boot[i]));
    }
    lines::lemma_trimmed(pid);
    lines::lemma_trimmed(boot);
}

/// The file that an owner is written to before it takes its place.
pub fn staging_path(parent: &str, pid: u32) -> (path: String)
    ensures
        path@ == paths::path_join(
            parent@,
            ".mux-server.pid."@ + numbers::digits_of(pid as nat) + ".tmp"@,
        ),
{
    let mut name: String = text::joined(".mux-server.pid.", decimal_text(pid as u64).as_str());
    name.append(".tmp");
    paths::join(parent, name.as_str())
}

/// What signalling a process told: that it went well, or the number of the
/// error.
pub open spec fn told_alive(pid: u32, error: Option<i32>, no_such_process: i32) -> bool {
    pid <= i32::MAX && (error is None || error->0 != no_such_process)
}

/// Whether a process that was signalled is there: unless there is no process
/// of that number.
pub fn owner_process_alive(pid: u32, error: Option<i32>, no_such_process: i32) -> (alive: bool)
    ensures
        alive == told_alive(pid, error, no_such_process),
{
    if pid > i32::MAX as u32 {
        return false;
    }
    match error {
        Some(number) => number != no_such_process,
        None => true,
    }
}

/// What is at the path of a socket.
#[derive(Clone, Copy, Debug, PartialEq, Eq, Structural)]
pub enum PathInode {
    /// Nothing.
    Nothing,
    /// Something that cannot be looked at.
    Unknown,
    /// A file.
    File { is_symlink: bool, is_socket: bool, uid: u32 },
}

/// Why a path is not bound over.
#[derive(Clone, Copy, Debug, PartialEq, Eq, Structural)]
pub enum UnsafeSocket {
    Unknown,
    Symlink,
    NotASocket,
    ForeignOwner { uid: u32 },
}

/// What is said of a path that is not bound over. `detail` says what is known
/// of the file there, or why nothing is.
pub open spec fn unsafe_text(
    reason: UnsafeSocket,
    path: Seq<char>,
    detail: Seq<char>,
    our_uid: u32,
) -> Seq<char> {
    match reason {
        UnsafeSocket::Unknown => "cannot inspect existing socket path "@ + path + ": "@ + detail,
        UnsafeSocket::Symlink => "refusing to bind over symlink at "@ + path
            + " (potential redirect off the runtime dir)"@,
        UnsafeSocket::NotASocket => "refusing to bind over non-socket inode at "@ + path + " ("@
            + detail + ")"@,
        UnsafeSocket::ForeignOwner { uid } => "refusing to bind over socket at "@ + path
            + " owned by uid "@ + numbers::digits_of(uid as nat) + " (current uid "@
            + numbers::digits_of(our_uid as nat) + ")"@,
    }
}

impl UnsafeSocket {
    /// Says why a path is not bound over.
    pub fn message(self, path: &str, detail: &str, our_uid: u32) -> (message: String)
        ensures
            message@ == unsafe_text(self, path@, detail@, our_uid),
    {
        match self {
            UnsafeSocket::Unknown => {
                let head: String = around("cannot inspect existing socket path ", path, ": ");
                joined(head.as_str(), detail)
            },
            UnsafeSocket::Symlink => around(
                "refusing to bind over symlink at ",
                path,
                " (potential redirect off the runtime dir)",
            ),
            UnsafeSocket::NotASocket => {
                let head: String = around(
                    "refusing to bind over non-socket inode at ",
                    path,
                    " (",
                );
                around(head.as_str(), detail, ")")
            },
            UnsafeSocket::ForeignOwner { uid } => {
                let head: String = around(
                    "refusing to bind over socket at ",
                    path,
                    " owned by uid ",
                );
                let owned: String = around(
                    head.as_str(),
                    decimal_text(uid as u64).as_str(),
                    " (current uid ",
                );
                around(owned.as_str(), decimal_text(our_uid as u64).as_str(), ")")
            },
        }
    }
}

/// Whether a path may be bound over.
#[derive(Clone, Copy, Debug, PartialEq, Eq, Structural)]
pub enum SocketInodeState {
    Missing,
    OurSocket,
    Unsafe(UnsafeSocket),
}

/// Whether a path may be bound over, as far as what is there tells: only a
/// socket of our own may.
pub open spec fn inode_state(inode: PathInode, our_uid: u32) -> SocketInodeState {
    match inode {
        PathInode::Nothing => SocketInodeState::Missing,
        PathInode::Unknown => SocketInodeState::Unsafe(UnsafeSocket::Unknown),
        PathInode::File { is_symlink, is_socket, uid } => if is_symlink {
            SocketInodeState::Unsafe(UnsafeSocket::Symlink)
        } else if !is_socket {
            SocketInodeState::Unsafe(UnsafeSocket::NotASocket)
        } else if uid != our_uid {
            SocketInodeState::Unsafe(UnsafeSocket::ForeignOwner { uid })
        } else {
            SocketInodeState::OurSocket
        },
    }
}

/// Decides whether a path may be bound over.
pub fn classify_socket_inode(inode: PathInode, our_uid: u32) -> (state: SocketInodeState)
    ensures
        state == inode_state(inode, our_uid),
{
    match inode {
        PathInode::Nothing => SocketInodeState::Missing,
        PathInode::Unknown => SocketInodeState::Unsafe(UnsafeSocket::Unknown),
        PathInode::File { is_symlink, is_socket, uid } => {
            if is_symlink {
                SocketInodeState::Unsafe(UnsafeSocket::Symlink)
            } else if !is_socket {
                SocketInodeState::Unsafe(UnsafeSocket::NotASocket)
            } else if uid != our_uid {
                SocketInodeState::Unsafe(UnsafeSocket::ForeignOwner { uid })
            } else {
                SocketInodeState::OurSocket
            }
        },
    }
}

/// What to do next about a socket that could not be bound.
#[derive(Clone, Copy, Debug, PartialEq, Eq, Structural)]
pub enum ReclaimStep {
    /// Look at what is at its path.
    Inspect,
    /// Try to connect to it.
    Connect,
    /// Read who owns it.
    ReadOwner,
    /// Signal its owner.
    SignalOwner { pid: u32 },
    /// Take it over.
    Reclaim,
    /// Give up with the error of the first try.
    GiveUp,
    /// Give up since it must not be bound over.
    Refuse(UnsafeSocket),
}

/// What came of a step.
#[derive(Clone, Copy, Debug, PartialEq, Eq, Structural)]
pub enum ReclaimEvent {
    Inspected(SocketInodeState),
    Connected(bool),
    OwnerRead(Option<OwnerMetadata>),
    OwnerSignalled(bool),
}

/// The step after a step: a socket is taken over only where it is ours, nobody
/// answers at it, and no owner of it is alive.
pub open spec fn step_after(step: ReclaimStep, event: ReclaimEvent) -> ReclaimStep {
    match (step, event) {
        (ReclaimStep::Inspect, ReclaimEvent::Inspected(state)) => match state {
            SocketInodeState::Missing => ReclaimStep::GiveUp,
            SocketInodeState::Unsafe(reason) => ReclaimStep::Refuse(reason),
            SocketInodeState::OurSocket => ReclaimStep::Connect,
        },
        (ReclaimStep::Connect, ReclaimEvent::Connected(accepted)) => if accepted {
            ReclaimStep::GiveUp
        } else {
            ReclaimStep::ReadOwner
        },
        (ReclaimStep::ReadOwner, ReclaimEvent::OwnerRead(owner)) => match owner {
            Some(owner) => ReclaimStep::SignalOwner { pid: owner.pid },
            None => ReclaimStep::Reclaim,
        },
        (ReclaimStep::SignalOwner { .. }, ReclaimEvent::OwnerSignalled(alive)) => if alive {
            ReclaimStep::GiveUp
        } else {
            ReclaimStep::Reclaim
        },
        _ => step,
    }
}

/// Decides what to do next about a socket that could not be bound.
pub fn reclaim_or_refuse(step: ReclaimStep, event: ReclaimEvent) -> (next: ReclaimStep)
    ensures
        next == step_after(step, event),
{
    match (step, event) {
        (ReclaimStep::Inspect, ReclaimEvent::Inspected(state)) => match state {
            SocketInodeState::Missing => ReclaimStep::GiveUp,
            SocketInodeState::Unsafe(reason) => ReclaimStep::Refuse(reason),
            SocketInodeState::OurSocket => ReclaimStep::Connect,
        },
        (ReclaimStep::Connect, ReclaimEvent::Connected(accepted)) => {
            if accepted {
                ReclaimStep::GiveUp
            } else {
                ReclaimStep::ReadOwner
            }
        },
        (ReclaimStep::ReadOwner, ReclaimEvent::OwnerRead(owner)) => match owner {
            Some(owner) => ReclaimStep::SignalOwner { pid: owner.pid },
            None => ReclaimStep::Reclaim,
        },
        (ReclaimStep::SignalOwner { pid }, ReclaimEvent::OwnerSignalled(alive)) => {
            if alive {
                ReclaimStep::GiveUp
            } else {
                ReclaimStep::Reclaim
            }
        },
        (other, _) => other,
    }
}

/// A socket is taken over if and only if it is ours, nobody answers at it, and
/// its owner is unknown or gone.
pub proof fn law_only_dead_sockets_are_reclaimed(
    state: SocketInodeState,
    accepted: bool,
    owner: Option<OwnerMetadata>,
    alive: bool,
)
    ensures
        ({
            let one = step_after(ReclaimStep::Inspect, ReclaimEvent::Inspected(state));
            let two = step_after(one, ReclaimEvent::Connected(accepted));
            let three = step_after(two, ReclaimEvent::OwnerRead(owner));
            let four = step_after(three, ReclaimEvent::OwnerSignalled(alive));
            &&& four == ReclaimStep::Reclaim <==> state == SocketInodeState::OurSocket && !accepted
                && (owner is None || !alive)
            &&& four is Refuse <==> state is Unsafe
        }),
{
}

/// The state of the loop that serves connections: how many are open, and when
/// an idle server ends. Times are seconds.
#[derive(Clone, Copy, Debug, PartialEq, Eq, Structural)]
pub struct ServerLoop {
    pub active_connections: usize,
    pub idle_deadline: Option<u64>,
}

/// What the loop that serves connections can meet.
#[derive(Clone, Copy, Debug, PartialEq, Eq, Structural)]
pub enum ServerEvent {
    Accepted,
    AcceptFailed,
    ConnectionDone,
    ShutdownAcknowledged,
    IdleExpired,
}

/// The deadline of an idle server, looked at again.
pub open spec fn rearmed(
    deadline: Option<u64>,
    active: int,
    keep_alive: u64,
    now: u64,
) -> Option<u64> {
    if active > 0 {
        None
    } else if keep_alive > 0 && deadline is None {
        Some(
            if now + keep_alive <= u64::MAX {
                (now + keep_alive) as u64
            } else {
                u64::MAX
            },
        )
    } else {
        deadline
    }
}

impl ServerLoop {
    /// No connection is open.
    pub fn new() -> (state: ServerLoop)
        ensures
            state.active_connections == 0,
            state.idle_deadline == None::<u64>,
    {
        ServerLoop { active_connections: 0, idle_deadline: None }
    }

    /// Looks at the deadline again before the next event.
    pub fn rearm(&mut self, keep_alive_seconds: u64, now: u64)
        ensures
            final(self).active_connections == old(self).active_connections,
            final(self).idle_deadline == rearmed(
                old(self).idle_deadline,
                old(self).active_connections as int,
                keep_alive_seconds,
                now,
            ),
    {
        if self.active_connections == 0 && keep_alive_seconds > 0 && self.idle_deadline.is_none() {
            self.idle_deadline = Some(now.saturating_add(keep_alive_seconds));
        }
        if self.active_connections > 0 {
            self.idle_deadline = None;
        }
    }

    /// Takes an event in and says whether to go on.
    pub fn on_event(&mut self, event: ServerEvent) -> (go_on: bool)
        requires
            event == ServerEvent::Accepted ==> old(self).active_connections < usize::MAX,
            event == ServerEvent::ConnectionDone ==> old(self).active_connections > 0,
        ensures
            go_on == !(event == ServerEvent::ShutdownAcknowledged || event
                == ServerEvent::IdleExpired),
            final(self).active_connections == if event == ServerEvent::Accepted {
                old(self).active_connections + 1
            } else if event == ServerEvent::ConnectionDone {
                old(self).active_connections - 1
            } else {
                old(self).active_connections as int
            },
            final(self).idle_deadline == if event == ServerEvent::Accepted {
                None
            } else {
                old(self).idle_deadline
            },
    {
        match event {
            ServerEvent::Accepted => {
                self.idle_deadline = None;
                self.active_connections = self.active_connections + 1;
                true
            },
            ServerEvent::AcceptFailed => true,
            ServerEvent::ConnectionDone => {
                self.active_connections = self.active_connections - 1;
                true
            },
            ServerEvent::ShutdownAcknowledged => false,
            ServerEvent::IdleExpired => false,
        }
    }
}

impl Default for ServerLoop {
    fn default() -> (state: Self)
        ensures
            state.active_connections == 0,
            state.idle_deadline == None::<u64>,
    {
        ServerLoop::new()
    }
}

/// A server with an open connection, or one that lives for ever and has no
/// deadline yet, has none.
pub proof fn law_busy_servers_have_no_deadline(
    deadline: Option<u64>,
    active: int,
    keep_alive: u64,
    now: u64,
)
    ensures
        active > 0 ==> rearmed(deadline, active, keep_alive, now) is None,
        keep_alive == 0 && deadline is None ==> rearmed(deadline, active, keep_alive, now) is None,
        active <= 0 && keep_alive > 0 ==> rearmed(deadline, active, keep_alive, now) is Some,
{
}

/// A deadline is set for a server without clients where it is to end on its own:
/// so many seconds from then, and not moved while it waits.
pub proof fn law_idle_servers_end_in_time(
    deadline: Option<u64>,
    keep_alive: u64,
    now: u64,
)
    ensures
        deadline is Some ==> rearmed(deadline, 0, keep_alive, now) == deadline,
        deadline is None && keep_alive > 0 && now + keep_alive <= u64::MAX ==> rearmed(
            deadline,
            0,
            keep_alive,
            now,
        ) == Some((now + keep_alive) as u64),
        deadline is None && keep_alive == 0 ==> rearmed(deadline, 0, keep_alive, now) is None,
{
}

/// A socket is the server's own just where it is a socket, no link, and belongs
/// to the same user; of anything else at its path it is said what is wrong.
pub proof fn law_only_own_sockets_are_safe(
    is_symlink: bool,
    is_socket: bool,
    uid: u32,
    our_uid: u32,
)
    ensures
        ({
            let state = inode_state(PathInode::File { is_symlink, is_socket, uid }, our_uid);
            &&& state is OurSocket <==> !is_symlink && is_socket && uid == our_uid
            &&& is_symlink ==> state == SocketInodeState::Unsafe(UnsafeSocket::Symlink)
            &&& !is_symlink && !is_socket ==> state == SocketInodeState::Unsafe(
                UnsafeSocket::NotASocket,
            )
            &&& !is_symlink && is_socket && uid != our_uid ==> state == SocketInodeState::Unsafe(
                UnsafeSocket::ForeignOwner { uid },
            )
        }),
        inode_state(PathInode::Nothing, our_uid) is Missing,
        inode_state(PathInode::Unknown, our_uid) == SocketInodeState::Unsafe(UnsafeSocket::Unknown),
{
}

/// A process is taken for alive unless the system says that there is none, or
/// its number cannot be one.
pub proof fn law_processes_live_until_they_are_missing(pid: u32, error: i32, none_such: i32)
    ensures
        pid <= i32::MAX ==> told_alive(pid, None, none_such),
        pid <= i32::MAX ==> (told_alive(pid, Some(error), none_such) <==> error != none_such),
        pid > i32::MAX ==> !told_alive(pid, Some(error), none_such) && !told_alive(
            pid,
            None,
            none_such,
        ),
{
}

} // verus!
