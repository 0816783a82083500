//! Requests on a single pane, on the clipboard and on the versions of files.
use crate::pane;
use crate::pane::{input_action, InputAction};
use crate::pane_requests;
use crate::pane_requests::find_owning;
use crate::registry;
use crate::registry::{ensure_mutation_allowed, find_session, HandlerError};
use crate::session::{Session, SessionModel};
use crate::text;
use crate::text::{around, joined};
use vstd::prelude::*;
use vstd::string::*;

verus! {

/// Finds the session whose pane a client may change: a client that has left
/// its session may change none.
pub fn pane_to_change(sessions: &Vec<Session>, client_id: &Option<String>, pane_id: &str) -> (result:
    Result<usize, HandlerError>)
    ensures
        ({
            let r = registry::registry(sessions@);
            let k = pane_requests::owning(r, pane_id@, 0);
            match result {
                Ok(found) => {
                    &&& registry::may_mutate(r, text::optional(*client_id))
                    &&& found == k < r.len()
                },
                Err(e) => e == if !registry::may_mutate(r, text::optional(*client_id)) {
                    HandlerError::NotAttached
                } else {
                    HandlerError::PaneNotFound
                } && (registry::may_mutate(r, text::optional(*client_id)) ==> k == r.len()),
            }
        }),
{
    let ghost r = registry::registry(sessions@);
    match ensure_mutation_allowed(sessions, client_id) {
        Ok(_) => {},
        Err(e) => {
            return Err(e);
        },
    }
    proof {
        pane_requests::lemma_owning(r, pane_id@, 0);
    }
    let k: usize = find_owning(sessions, pane_id);
    if k >= sessions.len() {
        return Err(HandlerError::PaneNotFound);
    }
    Ok(k)
}

/// What is done about input for a pane.
#[derive(Clone, Copy, Debug, PartialEq, Eq, Structural)]
pub enum SendInput {
    /// It sets the clipboard and does not go to the program.
    SetClipboard,
    Pane(InputAction),
}

/// Decides what is done about input for a pane, given whether it holds what
/// sets the clipboard.
pub fn handle_send_input(
    sessions: &Vec<Session>,
    client_id: &Option<String>,
    pane_id: &str,
    data: &[u8],
    sets_clipboard: bool,
) -> (result: Result<SendInput, HandlerError>)
    ensures
        ({
            let r = registry::registry(sessions@);
            result == if !registry::may_mutate(r, text::optional(*client_id)) {
                Err::<SendInput, HandlerError>(HandlerError::NotAttached)
            } else if pane_requests::owning(r, pane_id@, 0) == r.len() {
                Err(HandlerError::PaneNotFound)
            } else if sets_clipboard {
                Ok(SendInput::SetClipboard)
            } else if data@ == pane::paste_prefix().push(0x68) {
                Ok(SendInput::Pane(InputAction::MarkPastes))
            } else if data@ == pane::paste_prefix().push(0x6c) {
                Ok(SendInput::Pane(InputAction::DoNotMarkPastes))
            } else {
                Ok(SendInput::Pane(InputAction::Write))
            }
        }),
{
    match pane_to_change(sessions, client_id, pane_id) {
        Ok(_) => if sets_clipboard {
            Ok(SendInput::SetClipboard)
        } else {
            Ok(SendInput::Pane(input_action(data)))
        },
        Err(e) => Err(e),
    }
}

/// All that are told of changes of the clipboard, session by session.
pub open spec fn everybody(r: Seq<SessionModel>) -> Seq<Seq<char>>
    decreases r.len(),
{
    if r.len() == 0 {
        Seq::empty()
    } else {
        everybody(r.drop_last()) + r.last().subscribers
    }
}

/// Finds all that are told of changes of the clipboard.
pub fn clipboard_recipients(sessions: &Vec<Session>) -> (recipients: Vec<String>)
    ensures
        text::texts(recipients@) == everybody(registry::registry(sessions@)),
{
    let ghost r = registry::registry(sessions@);
    let mut recipients: Vec<String> = Vec::new();
    let mut i: usize = 0;
    assert(text::texts(recipients@) =~= everybody(r.take(0)));
    while i < sessions.len()
        invariant
            i <= sessions.len(),
            r == registry::registry(sessions@),
            text::texts(recipients@) == everybody(r.take(i as int)),
        decreases sessions.len() - i,
    {
        let ghost before = text::texts(recipients@);
        let ghost more = text::texts(sessions@[i as int].lifecycle_subscribers@);
        proof {
            assert(r.take(i + 1).drop_last() =~= r.take(i as int));
            assert(r.take(i + 1).last() == sessions@[i as int]@);
        }
        let mut k: usize = 0;
        assert(before + more.take(0) =~= before);
        while k < sessions[i].lifecycle_subscribers.len()
            invariant
                i < sessions.len(),
                k <= sessions@[i as int].lifecycle_subscribers.len(),
                more == text::texts(sessions@[i as int].lifecycle_subscribers@),
                text::texts(recipients@) == before + more.take(k as int),
            decreases sessions@[i as int].lifecycle_subscribers.len() - k,
        {
            let client: String = sessions[i].lifecycle_subscribers[k].clone();
            proof {
                text::lemma_texts_push(recipients@, client);
                assert(before + more.take(k + 1) =~= (before + more.take(k as int)).push(
                    more[k as int],
                ));
            }
            recipients.push(client);
            k = k + 1;
        }
        assert(more.take(k as int) =~= more);
        i = i + 1;
    }
    assert(r.take(i as int) =~= r);
    recipients
}

/// What the clipboard holds.
#[derive(Debug)]
pub struct ClipboardEntry {
    /// Whether it is text.
    pub is_text: bool,
    pub data: Vec<u8>,
    pub origin_host: String,
}

/// What is told of the clipboard; an empty text where it holds nothing.
pub fn clipboard_shown(entry: Option<ClipboardEntry>) -> (shown: ClipboardEntry)
    ensures
        match entry {
            Some(e) => shown == e,
            None => shown.is_text && shown.data@.len() == 0 && shown.origin_host@.len() == 0,
        },
{
    match entry {
        Some(entry) => entry,
        None => ClipboardEntry { is_text: true, data: Vec::new(), origin_host: String::new() },
    }
}

/// Why the clipboard is not set.
#[derive(Clone, Copy, Debug, PartialEq, Eq, Structural)]
pub enum ClipboardError {
    NotAttached,
    NoEntry,
}

impl ClipboardError {
    /// Says why the clipboard is not set.
    pub fn message(self) -> (message: &'static str)
        ensures
            message@ == match self {
                ClipboardError::NotAttached => "client not attached (kicked or detached)"@,
                ClipboardError::NoEntry => "empty clipboard entry"@,
            },
    {
        match self {
            ClipboardError::NotAttached => "client not attached (kicked or detached)",
            ClipboardError::NoEntry => "empty clipboard entry",
        }
    }
}

/// A new content of the clipboard, and who is told of it.
#[derive(Debug)]
pub struct ClipboardChange {
    pub entry: ClipboardEntry,
    pub recipients: Vec<String>,
}

/// Takes a new content of the clipboard from a client.
pub fn handle_set_clipboard(
    sessions: &Vec<Session>,
    client_id: &Option<String>,
    entry: Option<ClipboardEntry>,
) -> (result: Result<ClipboardChange, ClipboardError>)
    ensures
        ({
            let r = registry::registry(sessions@);
            match result {
                Ok(change) => {
                    &&& registry::may_mutate(r, text::optional(*client_id))
                    &&& entry == Some(change.entry)
                    &&& text::texts(change.recipients@) == everybody(r)
                },
                Err(ClipboardError::NotAttached) => !registry::may_mutate(
                    r,
                    text::optional(*client_id),
                ),
                Err(ClipboardError::NoEntry) => registry::may_mutate(r, text::optional(*client_id))
                    && entry is None,
            }
        }),
{
    if ensure_mutation_allowed(sessions, client_id).is_err() {
        return Err(ClipboardError::NotAttached);
    }
    match entry {
        Some(entry) => Ok(ClipboardChange { entry, recipients: clipboard_recipients(sessions) }),
        None => Err(ClipboardError::NoEntry),
    }
}

/// What is told of the shell of a pane.
#[derive(Debug)]
pub struct ShellIntegration {
    pub cwd: String,
    pub prompt_marker: u32,
}

/// Tells of the shell of a pane, where there is such a pane.
pub fn shell_integration(pane_id: &str, found: Option<ShellIntegration>) -> (result: Result<
    ShellIntegration,
    String,
>)
    ensures
        match result {
            Ok(told) => found == Some(told),
            Err(message) => found is None && message@ == "shell_integration: pane "@ + pane_id@
                + " not found"@,
        },
{
    match found {
        Some(told) => Ok(told),
        None => Err(around("shell_integration: pane ", pane_id, " not found")),
    }
}

/// Finds the directory whose files have versions: that of a session whose
/// files are watched.
pub fn snapshot_context_for_session(sessions: &Vec<Session>, session_id: &str, watched: bool) -> (result:
    Result<String, String>)
    ensures
        ({
            let r = registry::registry(sessions@);
            let k = registry::session_index(r, session_id@, 0);
            match result {
                Ok(root) => k < r.len() && watched && root@ == r[k].cwd,
                Err(message) => message@ == if k >= r.len() {
                    "session not found: "@ + session_id@
                } else {
                    "shadow snapshot is not active for session: "@ + session_id@
                } && (k < r.len() ==> !watched),
            }
        }),
{
    let ghost r = registry::registry(sessions@);
    proof {
        registry::lemma_session_index(r, session_id@, 0);
    }
    let k: usize = find_session(sessions, session_id);
    if k >= sessions.len() {
        return Err(joined("session not found: ", session_id));
    }
    if !watched {
        return Err(joined("shadow snapshot is not active for session: ", session_id));
    }
    assert(r[k as int] == sessions@[k as int]@);
    Ok(sessions[k].cwd.clone())
}

/// What is answered where something either happened or failed.
#[derive(Debug)]
pub struct Acknowledgement {
    pub success: bool,
    pub error: String,
}

/// Tells whether something happened, and why not.
pub fn acknowledge(result: Result<(), String>) -> (told: Acknowledgement)
    ensures
        told.success == result is Ok,
        told.error@ == match result {
            Ok(_) => Seq::<char>::empty(),
            Err(message) => message@,
        },
{
    match result {
        Ok(_) => {
            let error = String::new();
            assert(error@ =~= Seq::<char>::empty());
            Acknowledgement { success: true, error }
        },
        Err(error) => Acknowledgement { success: false, error },
    }
}

/// A change of the clipboard is told to the subscribers of all sessions, session
/// by session and in their order.
pub proof fn law_everybody_is_told_of_the_clipboard(
    a: Seq<SessionModel>,
    b: Seq<SessionModel>,
    s: SessionModel,
)
    ensures
        everybody(a + b) == everybody(a) + everybody(b),
        everybody(seq![s]) == s.subscribers,
    decreases b.len(),
{
    reveal_with_fuel(everybody, 2);
    assert(seq![s].drop_last() =~= Seq::<SessionModel>::empty());
    assert(everybody(seq![s]) =~= s.subscribers);
    if b.len() == 0 {
        assert(a + b =~= a);
        assert(everybody(a) + everybody(b) =~= everybody(a));
    } else {
        law_everybody_is_told_of_the_clipboard(a, b.drop_last(), s);
        assert((a + b).drop_last() =~= a + b.drop_last());
        assert(everybody(a + b) =~= everybody(a) + everybody(b));
    }
}

} // verus!
