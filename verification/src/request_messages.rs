//! What is said to a client whose request is refused.
use crate::layout_refusals;
use crate::layout_refusals::{layout_error_message, LayoutNames};
use crate::numbers;
use crate::numbers::decimal_text;
use crate::protocol::RequestKind;
use crate::registry::HandlerError;
use crate::text::{around, joined};
use vstd::prelude::*;
use vstd::string::*;

verus! {

/// What a request names.
#[derive(Debug)]
pub struct RequestNames {
    pub session_id: String,
    pub pane_id: String,
    /// The pane that was started for the request.
    pub new_pane_id: String,
    pub direction: i32,
    /// What the split tree has to say, where it refuses the request.
    pub layout: LayoutNames,
}

/// A whole number as it is written.
pub open spec fn signed_digits(n: int) -> Seq<char> {
    if n < 0 {
        "-"@ + numbers::digits_of((-n) as nat)
    } else {
        numbers::digits_of(n as nat)
    }
}

fn signed_text(n: i32) -> (written: String)
    ensures
        written@ == signed_digits(n as int),
{
    if n < 0 {
        let size: i64 = -(n as i64);
        joined("-", decimal_text(size as u64).as_str())
    } else {
        decimal_text(n as u64)
    }
}

/// What is said of a pane that is not there.
pub open spec fn missing_pane_text(kind: RequestKind, pane: Seq<char>) -> Seq<char> {
    match kind {
        RequestKind::SplitPane
        | RequestKind::ResizePane
        | RequestKind::FetchGridUpdate
        | RequestKind::FetchScrollback
        | RequestKind::SearchScrollback => "pane not found"@,
        RequestKind::SetPaneTitle => "set_pane_title: pane "@ + pane + " not found"@,
        RequestKind::ZoomPane => "zoom_pane: pane "@ + pane + " not found"@,
        RequestKind::ShellIntegration => "shell_integration: pane "@ + pane + " not found"@,
        _ => "pane not found: "@ + pane,
    }
}

fn missing_pane(kind: RequestKind, pane_id: &str) -> (message: String)
    ensures
        message@ == missing_pane_text(kind, pane_id@),
{
    match kind {
        RequestKind::SplitPane
        | RequestKind::ResizePane
        | RequestKind::FetchGridUpdate
        | RequestKind::FetchScrollback
        | RequestKind::SearchScrollback => "pane not found".to_owned(),
        RequestKind::SetPaneTitle => around("set_pane_title: pane ", pane_id, " not found"),
        RequestKind::ZoomPane => around("zoom_pane: pane ", pane_id, " not found"),
        RequestKind::ShellIntegration => around("shell_integration: pane ", pane_id, " not found"),
        _ => joined("pane not found: ", pane_id),
    }
}

/// What comes before what is said of the split tree.
pub open spec fn rejection_head(kind: RequestKind) -> Seq<char> {
    match kind {
        RequestKind::SpawnPane => "spawn pane rejected: "@,
        RequestKind::SplitPane => "split pane rejected: "@,
        _ => ""@,
    }
}

/// What is said of a request that is refused. `started` says that a shell was
/// started for it already.
pub open spec fn refusal_text(
    kind: RequestKind,
    started: bool,
    error: HandlerError,
    names: RequestNames,
    max_wire: nat,
) -> Seq<char> {
    let pane = names.pane_id@;
    let new_pane = names.new_pane_id@;
    match error {
        HandlerError::NotAttached => "client not attached (kicked or detached)"@,
        HandlerError::SessionNotFound => if started {
            "session removed while spawning pane: "@ + names.session_id@
        } else {
            "session not found: "@ + names.session_id@
        },
        HandlerError::PaneNotFound => missing_pane_text(kind, pane),
        HandlerError::InvalidDirection => "invalid split direction: "@ + signed_digits(
            names.direction as int,
        ),
        HandlerError::PaneWithoutTab => "pane is not assigned to a tab: "@ + pane,
        HandlerError::NoAnchor => "session layout has no pane anchor"@,
        HandlerError::Layout(e) => rejection_head(kind) + layout_refusals::layout_error_text(
            e,
            false,
            pane,
            new_pane,
            names.layout@,
            max_wire,
        ),
        HandlerError::PaneStuck(e) => layout_refusals::layout_error_text(
            e,
            true,
            pane,
            new_pane,
            names.layout@,
            max_wire,
        ),
    }
}

/// Says why a request is refused.
pub fn refusal_message(
    kind: RequestKind,
    started: bool,
    error: HandlerError,
    names: &RequestNames,
    max_wire: usize,
) -> (message: String)
    ensures
        message@ == refusal_text(kind, started, error, *names, max_wire as nat),
{
    let pane: &str = names.pane_id.as_str();
    let new_pane: &str = names.new_pane_id.as_str();
    match error {
        HandlerError::NotAttached => "client not attached (kicked or detached)".to_owned(),
        HandlerError::SessionNotFound => if started {
            joined("session removed while spawning pane: ", names.session_id.as_str())
        } else {
            joined("session not found: ", names.session_id.as_str())
        },
        HandlerError::PaneNotFound => missing_pane(kind, pane),
        HandlerError::InvalidDirection => joined(
            "invalid split direction: ",
            signed_text(names.direction).as_str(),
        ),
        HandlerError::PaneWithoutTab => joined("pane is not assigned to a tab: ", pane),
        HandlerError::NoAnchor => "session layout has no pane anchor".to_owned(),
        HandlerError::Layout(e) => {
            let said: String = layout_error_message(
                e,
                false,
                pane,
                new_pane,
                &names.layout,
                max_wire,
            );
            let head: &str = match kind {
                RequestKind::SpawnPane => "spawn pane rejected: ",
                RequestKind::SplitPane => "split pane rejected: ",
                _ => "",
            };
            joined(head, said.as_str())
        },
        HandlerError::PaneStuck(e) => layout_error_message(
            e,
            true,
            pane,
            new_pane,
            &names.layout,
            max_wire,
        ),
    }
}

/// What is said of a request that is refused names what was asked for: the
/// session, the pane, or the direction with its sign.
pub proof fn law_refusals_name_what_was_asked_for(
    kind: RequestKind,
    started: bool,
    names: RequestNames,
    max_wire: nat,
)
    ensures
        refusal_text(kind, false, HandlerError::SessionNotFound, names, max_wire)
            == "session not found: "@ + names.session_id@,
        refusal_text(kind, true, HandlerError::SessionNotFound, names, max_wire)
            == "session removed while spawning pane: "@ + names.session_id@,
        kind is ClosePane || kind is FocusPane || kind is SendInput || kind is Paste
            ==> refusal_text(kind, started, HandlerError::PaneNotFound, names, max_wire)
            == "pane not found: "@ + names.pane_id@,
        kind is SplitPane || kind is ResizePane || kind is FetchGridUpdate || kind is FetchScrollback
            || kind is SearchScrollback ==> refusal_text(
            kind,
            started,
            HandlerError::PaneNotFound,
            names,
            max_wire,
        ) == "pane not found"@,
        kind is SetPaneTitle ==> refusal_text(
            kind,
            started,
            HandlerError::PaneNotFound,
            names,
            max_wire,
        ) == "set_pane_title: pane "@ + names.pane_id@ + " not found"@,
        kind is ZoomPane ==> refusal_text(
            kind,
            started,
            HandlerError::PaneNotFound,
            names,
            max_wire,
        ) == "zoom_pane: pane "@ + names.pane_id@ + " not found"@,
        kind is ShellIntegration ==> refusal_text(
            kind,
            started,
            HandlerError::PaneNotFound,
            names,
            max_wire,
        ) == "shell_integration: pane "@ + names.pane_id@ + " not found"@,
        names.direction >= 0 ==> refusal_text(
            kind,
            started,
            HandlerError::InvalidDirection,
            names,
            max_wire,
        ) == "invalid split direction: "@ + numbers::digits_of(names.direction as nat),
        names.direction < 0 ==> refusal_text(
            kind,
            started,
            HandlerError::InvalidDirection,
            names,
            max_wire,
        ) == "invalid split direction: "@ + ("-"@ + numbers::digits_of((-names.direction) as nat)),
        refusal_text(kind, started, HandlerError::PaneWithoutTab, names, max_wire)
            == "pane is not assigned to a tab: "@ + names.pane_id@,
        refusal_text(kind, started, HandlerError::NotAttached, names, max_wire)
            == "client not attached (kicked or detached)"@,
        refusal_text(kind, started, HandlerError::NoAnchor, names, max_wire)
            == "session layout has no pane anchor"@,
{
}

/// What the layout has to say against a request follows the name of the request.
pub proof fn law_layout_refusals_follow_the_request(
    kind: RequestKind,
    started: bool,
    error: crate::layout::LayoutError,
    names: RequestNames,
    max_wire: nat,
)
    ensures
        ({
            let said = refusal_text(kind, started, HandlerError::Layout(error), names, max_wire);
            let why = layout_refusals::layout_error_text(
                error,
                false,
                names.pane_id@,
                names.new_pane_id@,
                names.layout@,
                max_wire,
            );
            &&& kind is SpawnPane ==> said == "spawn pane rejected: "@ + why
            &&& kind is SplitPane ==> said == "split pane rejected: "@ + why
            &&& !(kind is SpawnPane) && !(kind is SplitPane) ==> said == ""@ + why
        }),
{
}

} // verus!
