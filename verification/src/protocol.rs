//! What a connection may ask for: roles, permissions, versions and the frames
//! that requests come in.
use crate::session::{AttachMode, ClientRole};
use vstd::arithmetic::power;
use vstd::prelude::*;

verus! {

/// The role that a client asks for by number. An unspecified or unknown number
/// comes from the peer alone and gives no right to write.
pub fn proto_role_to_client_role(role: i32) -> (mapped: ClientRole)
    ensures
        mapped == match role {
            2i32 => ClientRole::ReadWrite,
            3i32 => ClientRole::Admin,
            _ => ClientRole::ReadOnly,
        },
{
    match role {
        1 => ClientRole::ReadOnly,
        2 => ClientRole::ReadWrite,
        3 => ClientRole::Admin,
        _ => ClientRole::ReadOnly,
    }
}

/// How far the transport of a connection vouches for its peer.
#[derive(Clone, Copy, Debug, PartialEq, Eq, Structural)]
pub enum ConnectionTrust {
    /// A local socket that only the same user can open.
    LocalSocket,
    /// A transport that does not authenticate the peer.
    Unauthenticated,
}

impl ConnectionTrust {
    /// The role of a client that attaches without naming one.
    pub fn attach_default_role(self) -> (role: ClientRole)
        ensures
            role == default_role(self),
    {
        match self {
            ConnectionTrust::LocalSocket => ClientRole::Admin,
            ConnectionTrust::Unauthenticated => ClientRole::ReadOnly,
        }
    }
}

pub open spec fn default_role(trust: ConnectionTrust) -> ClientRole {
    match trust {
        ConnectionTrust::LocalSocket => ClientRole::Admin,
        ConnectionTrust::Unauthenticated => ClientRole::ReadOnly,
    }
}

/// What a request asks for.
#[derive(Clone, Copy, Debug, PartialEq, Eq, Structural)]
pub enum RequestKind {
    CreateSession,
    ListSessions,
    Attach,
    Detach,
    FetchGridUpdate,
    FetchScrollback,
    SearchScrollback,
    ListCommands,
    ListChangedFiles,
    ListFileVersions,
    GetFileVersion,
    DeclineFileVersion,
    Shutdown,
    GetClipboard,
    ListRecoveryCandidates,
    ConfirmRecovery,
    KillSession,
    RenameSession,
    InstallExtension,
    ExtensionChromeAction,
    NewWindow,
    SpawnPane,
    SplitPane,
    ClosePane,
    FocusPane,
    ResizePane,
    ResizeLayout,
    SendInput,
    Paste,
    SetClipboard,
    SetPaneTitle,
    ReadFile,
    ListDir,
    StatFile,
    ZoomPane,
    ShellIntegration,
    SubscribePaneOutput,
}

/// Requests that administer the server.
pub open spec fn administers(kind: RequestKind) -> bool {
    kind is Shutdown || kind is ListRecoveryCandidates || kind is ConfirmRecovery || kind is KillSession
        || kind is RenameSession || kind is InstallExtension || kind is NewWindow
}

/// Requests that write to panes, layouts, files or the clipboard.
pub open spec fn writes(kind: RequestKind) -> bool {
    kind is DeclineFileVersion || kind is ExtensionChromeAction || kind is SpawnPane
        || kind is SplitPane || kind is ClosePane || kind is FocusPane || kind is ResizePane
        || kind is ResizeLayout || kind is SendInput || kind is Paste || kind is SetClipboard
        || kind is SetPaneTitle || kind is ZoomPane
}

/// The role that a request takes.
pub open spec fn needed_role(kind: RequestKind) -> ClientRole {
    if administers(kind) {
        ClientRole::Admin
    } else if writes(kind) {
        ClientRole::ReadWrite
    } else {
        ClientRole::ReadOnly
    }
}

/// The role that a request takes.
pub fn required_role(kind: RequestKind) -> (role: ClientRole)
    ensures
        role == needed_role(kind),
{
    match kind {
        RequestKind::Shutdown
        | RequestKind::ListRecoveryCandidates
        | RequestKind::ConfirmRecovery
        | RequestKind::KillSession
        | RequestKind::RenameSession
        | RequestKind::InstallExtension
        | RequestKind::NewWindow => ClientRole::Admin,
        RequestKind::DeclineFileVersion
        | RequestKind::ExtensionChromeAction
        | RequestKind::SpawnPane
        | RequestKind::SplitPane
        | RequestKind::ClosePane
        | RequestKind::FocusPane
        | RequestKind::ResizePane
        | RequestKind::ResizeLayout
        | RequestKind::SendInput
        | RequestKind::Paste
        | RequestKind::SetClipboard
        | RequestKind::SetPaneTitle
        | RequestKind::ZoomPane => ClientRole::ReadWrite,
        _ => ClientRole::ReadOnly,
    }
}

/// The role of a connection that has not attached, for one request: on a local
/// socket what one-shot commands need, else that of a reader.
pub open spec fn role_before_attach(trust: ConnectionTrust, kind: RequestKind) -> ClientRole {
    if trust != ConnectionTrust::LocalSocket || kind is InstallExtension || kind is ExtensionChromeAction {
        ClientRole::ReadOnly
    } else {
        needed_role(kind)
    }
}

/// The role of a connection that has not attached, for one request.
pub fn pre_attach_role(trust: ConnectionTrust, kind: RequestKind) -> (role: ClientRole)
    ensures
        role == role_before_attach(trust, kind),
{
    if trust != ConnectionTrust::LocalSocket {
        return ClientRole::ReadOnly;
    }
    match kind {
        RequestKind::KillSession
        | RequestKind::Shutdown
        | RequestKind::RenameSession
        | RequestKind::NewWindow
        | RequestKind::ListRecoveryCandidates
        | RequestKind::ConfirmRecovery => ClientRole::Admin,
        RequestKind::SpawnPane
        | RequestKind::SplitPane
        | RequestKind::ClosePane
        | RequestKind::FocusPane
        | RequestKind::ResizePane
        | RequestKind::ResizeLayout
        | RequestKind::SendInput
        | RequestKind::Paste
        | RequestKind::SetClipboard
        | RequestKind::SetPaneTitle
        | RequestKind::ZoomPane
        | RequestKind::DeclineFileVersion => ClientRole::ReadWrite,
        _ => ClientRole::ReadOnly,
    }
}

/// The rank of a role: each may do what the ones below it may.
pub open spec fn role_rank(role: ClientRole) -> int {
    match role {
        ClientRole::ReadOnly => 0,
        ClientRole::ReadWrite => 1,
        ClientRole::Admin => 2,
    }
}

/// Whether a role suffices where another is required.
pub fn check_permission(role: ClientRole, required: ClientRole) -> (allowed: bool)
    ensures
        allowed == (role_rank(role) >= role_rank(required)),
{
    match (role, required) {
        (ClientRole::Admin, _) => true,
        (ClientRole::ReadWrite, ClientRole::ReadWrite) => true,
        (ClientRole::ReadWrite, ClientRole::ReadOnly) => true,
        (ClientRole::ReadOnly, ClientRole::ReadOnly) => true,
        _ => false,
    }
}

pub open spec fn attach_role(role: ClientRole, mode: AttachMode) -> ClientRole {
    if mode == AttachMode::ReadOnly {
        ClientRole::ReadOnly
    } else {
        role
    }
}

/// The role that attaching gives: reading is all that is left of any role in
/// the mode that only reads.
pub fn effective_attach_role(role: ClientRole, mode: AttachMode) -> (effective: ClientRole)
    ensures
        effective == attach_role(role, mode),
{
    match mode {
        AttachMode::ReadOnly => ClientRole::ReadOnly,
        AttachMode::Shared | AttachMode::Steal => role,
    }
}

/// What becomes of a request.
#[derive(Clone, Copy, Debug, PartialEq, Eq, Structural)]
pub enum Dispatch {
    /// It has no body; the answer says so.
    EmptyBody,
    /// The role does not suffice; the answer says which one is required.
    Denied(ClientRole),
    /// The server is to stop once the answer is on the wire.
    Shutdown,
    /// The handler of the request takes over.
    Handle(RequestKind),
}

/// What becomes of a request on a connection with this role.
pub open spec fn dispatched(
    kind: Option<RequestKind>,
    role: Option<ClientRole>,
    trust: ConnectionTrust,
) -> Dispatch {
    match kind {
        None => Dispatch::EmptyBody,
        Some(kind) => {
            let own = match role {
                Some(role) => role,
                None => role_before_attach(trust, kind),
            };
            if role_rank(own) < role_rank(needed_role(kind)) {
                Dispatch::Denied(needed_role(kind))
            } else if kind is Shutdown {
                Dispatch::Shutdown
            } else {
                Dispatch::Handle(kind)
            }
        },
    }
}

/// Decides what becomes of a request, before anything is done about it.
pub fn dispatch_request(
    kind: Option<RequestKind>,
    role: Option<ClientRole>,
    trust: ConnectionTrust,
) -> (dispatch: Dispatch)
    ensures
        dispatch == dispatched(kind, role, trust),
{
    let kind: RequestKind = match kind {
        Some(kind) => kind,
        None => {
            return Dispatch::EmptyBody;
        },
    };
    let own: ClientRole = match role {
        Some(role) => role,
        None => pre_attach_role(trust, kind),
    };
    let required: ClientRole = required_role(kind);
    if !check_permission(own, required) {
        return Dispatch::Denied(required);
    }
    match kind {
        RequestKind::Shutdown => Dispatch::Shutdown,
        _ => Dispatch::Handle(kind),
    }
}

/// What the answer to a denied request says.
pub open spec fn denial_text(kind: RequestKind) -> Seq<char> {
    if administers(kind) {
        "permission denied: admin required"@
    } else if kind is ExtensionChromeAction {
        "permission denied: read-write access required"@
    } else if writes(kind) {
        "permission denied: read-write required"@
    } else {
        "permission denied: read-only required"@
    }
}

/// What the answer to a denied request says.
pub fn denial_message(kind: RequestKind) -> (message: &'static str)
    ensures
        message@ == denial_text(kind),
{
    match required_role(kind) {
        ClientRole::Admin => "permission denied: admin required",
        ClientRole::ReadWrite => match kind {
            RequestKind::ExtensionChromeAction => "permission denied: read-write access required",
            _ => "permission denied: read-write required",
        },
        ClientRole::ReadOnly => "permission denied: read-only required",
    }
}

/// Whether a handler that fails is answered with its error; any other failure
/// ends the connection.
pub fn failure_is_answered(kind: RequestKind) -> (answered: bool)
    ensures
        answered == answers_failure(kind),
{
    match kind {
        RequestKind::ListChangedFiles
        | RequestKind::ListFileVersions
        | RequestKind::GetFileVersion
        | RequestKind::ListRecoveryCandidates
        | RequestKind::ConfirmRecovery => true,
        _ => false,
    }
}

/// What an answer holds.
pub enum AnswerBody<B> {
    /// What went wrong; nothing to say means that nothing did.
    Error(String),
    /// What the handler of the request found.
    Body(B),
}

/// An answer, under the number of the request.
pub struct Answer<B> {
    pub request_id: u64,
    pub body: AnswerBody<B>,
}

/// What an answer says.
#[verifier::ext_equal]
pub enum SaidModel<B> {
    Error(Seq<char>),
    Body(B),
}

/// What is seen of an answer.
#[verifier::ext_equal]
pub struct AnswerModel<B> {
    pub request_id: u64,
    pub said: SaidModel<B>,
}

impl<B> View for Answer<B> {
    type V = AnswerModel<B>;

    open spec fn view(&self) -> AnswerModel<B> {
        AnswerModel {
            request_id: self.request_id,
            said: match self.body {
                AnswerBody::Error(message) => SaidModel::Error(message@),
                AnswerBody::Body(body) => SaidModel::Body(body),
            },
        }
    }
}

/// What is seen of the answers that wait to be sent.
pub open spec fn answer_models<B>(answers: Seq<Answer<B>>) -> Seq<AnswerModel<B>> {
    answers.map_values(|a: Answer<B>| a@)
}

/// The handler that a request needs.
pub open spec fn handler_of(
    kind: Option<RequestKind>,
    role: Option<ClientRole>,
    trust: ConnectionTrust,
) -> Option<RequestKind> {
    match dispatched(kind, role, trust) {
        Dispatch::Handle(kind) => Some(kind),
        _ => None,
    }
}

/// What a request is answered before any handler runs.
pub open spec fn answered_at_once<B>(
    request_id: u64,
    kind: Option<RequestKind>,
    role: Option<ClientRole>,
    trust: ConnectionTrust,
) -> Seq<AnswerModel<B>> {
    match dispatched(kind, role, trust) {
        Dispatch::EmptyBody => seq![
            AnswerModel { request_id, said: SaidModel::Error("empty request body"@) },
        ],
        Dispatch::Denied(_) => seq![
            AnswerModel { request_id, said: SaidModel::Error(denial_text(kind->0)) },
        ],
        Dispatch::Shutdown => seq![AnswerModel { request_id, said: SaidModel::Error(""@) }],
        Dispatch::Handle(_) => Seq::empty(),
    }
}

/// Whether the failure of a handler is answered rather than ending the
/// connection.
pub open spec fn answers_failure(kind: RequestKind) -> bool {
    kind is ListChangedFiles || kind is ListFileVersions || kind is GetFileVersion
        || kind is ListRecoveryCandidates || kind is ConfirmRecovery
}

/// What a request is answered once its handler has run.
pub open spec fn answered_after<B>(
    request_id: u64,
    kind: RequestKind,
    handled: Result<B, Seq<char>>,
) -> Seq<AnswerModel<B>> {
    match handled {
        Ok(body) => seq![AnswerModel { request_id, said: SaidModel::Body(body) }],
        Err(message) => if answers_failure(kind) {
            seq![AnswerModel { request_id, said: SaidModel::Error(message) }]
        } else {
            Seq::empty()
        },
    }
}

/// What a handler came to.
pub open spec fn handled_model<B>(handled: Result<B, String>) -> Result<B, Seq<char>> {
    match handled {
        Ok(body) => Ok(body),
        Err(message) => Err(message@),
    }
}

/// Queues what a request is answered at once, and says which handler is to run
/// where none of it is.
pub fn begin_request<B>(
    answers: &mut Vec<Answer<B>>,
    request_id: u64,
    kind: Option<RequestKind>,
    role: Option<ClientRole>,
    trust: ConnectionTrust,
) -> (run: Option<RequestKind>)
    ensures
        run == handler_of(kind, role, trust),
        answer_models(final(answers)@) == answer_models(old(answers)@) + answered_at_once::<B>(
            request_id,
            kind,
            role,
            trust,
        ),
{
    let said: String = match (dispatch_request(kind, role, trust), kind) {
        (Dispatch::EmptyBody, _) | (_, None) => "empty request body".to_string(),
        (Dispatch::Denied(_), Some(kind)) => denial_message(kind).to_string(),
        (Dispatch::Shutdown, _) => "".to_string(),
        (Dispatch::Handle(kind), _) => {
            assert(answer_models(answers@) =~= answer_models(old(answers)@) + Seq::empty());
            return Some(kind);
        },
    };
    answers.push(Answer { request_id, body: AnswerBody::Error(said) });
    assert(answer_models(answers@) =~= answer_models(old(answers)@) + answered_at_once::<B>(
        request_id,
        kind,
        role,
        trust,
    ));
    None
}

/// Queues what a request is answered once its handler has run. The connection
/// ends with the failures that are not answered.
pub fn finish_request<B>(
    answers: &mut Vec<Answer<B>>,
    request_id: u64,
    kind: RequestKind,
    handled: Result<B, String>,
) -> (goes_on: bool)
    ensures
        goes_on == (handled is Ok || answers_failure(kind)),
        answer_models(final(answers)@) == answer_models(old(answers)@) + answered_after(
            request_id,
            kind,
            handled_model(handled),
        ),
{
    let ghost sent = answered_after(request_id, kind, handled_model(handled));
    let body: AnswerBody<B> = match handled {
        Ok(body) => AnswerBody::Body(body),
        Err(message) => {
            if !failure_is_answered(kind) {
                assert(answer_models(answers@) =~= answer_models(old(answers)@) + sent);
                return false;
            }
            AnswerBody::Error(message)
        },
    };
    answers.push(Answer { request_id, body });
    assert(answer_models(answers@) =~= answer_models(old(answers)@) + sent);
    true
}

/// All that a request is answered, where its handler comes to this.
pub open spec fn answers_to<B>(
    request_id: u64,
    kind: Option<RequestKind>,
    role: Option<ClientRole>,
    trust: ConnectionTrust,
    handled: Result<B, Seq<char>>,
) -> Seq<AnswerModel<B>> {
    answered_at_once(request_id, kind, role, trust) + match handler_of(kind, role, trust) {
        Some(kind) => answered_after(request_id, kind, handled),
        None => Seq::empty(),
    }
}

/// Whether a request ends the connection, where its handler comes to this.
pub open spec fn ends_connection<B>(
    kind: Option<RequestKind>,
    role: Option<ClientRole>,
    trust: ConnectionTrust,
    handled: Result<B, Seq<char>>,
) -> bool {
    match handler_of(kind, role, trust) {
        Some(kind) => handled is Err && !answers_failure(kind),
        None => false,
    }
}

/// Every request is answered once, under its own number, unless it ends the
/// connection. One without a body, and one that the role does not suffice for,
/// is answered with what is wrong, and no handler runs for it.
pub proof fn law_requests_are_answered_once<B>(
    request_id: u64,
    kind: Option<RequestKind>,
    role: Option<ClientRole>,
    trust: ConnectionTrust,
    handled: Result<B, Seq<char>>,
)
    ensures
        ends_connection(kind, role, trust, handled) ==> answers_to(
            request_id,
            kind,
            role,
            trust,
            handled,
        ).len() == 0,
        !ends_connection(kind, role, trust, handled) ==> {
            let sent = answers_to(request_id, kind, role, trust, handled);
            sent.len() == 1 && sent[0].request_id == request_id
        },
        kind is None ==> handler_of(kind, role, trust) is None && answers_to(
            request_id,
            kind,
            role,
            trust,
            handled,
        )[0].said == SaidModel::<B>::Error("empty request body"@),
        dispatched(kind, role, trust) is Denied ==> handler_of(kind, role, trust) is None
            && answers_to(request_id, kind, role, trust, handled)[0].said == SaidModel::<B>::Error(
            denial_text(kind->0),
        ),
{
}

/// A connection that does not authenticate its peer, and has not attached,
/// writes nothing and administers nothing.
pub proof fn law_strangers_only_read(kind: RequestKind)
    ensures
        writes(kind) || administers(kind) ==> dispatched(
            Some(kind),
            None,
            ConnectionTrust::Unauthenticated,
        ) == Dispatch::Denied(needed_role(kind)),
{
}

/// A connection that attached to read only is refused every request that
/// writes or administers, whatever role it asked for.
pub proof fn law_read_only_attach_only_reads(
    kind: RequestKind,
    asked: ClientRole,
    trust: ConnectionTrust,
)
    ensures
        writes(kind) || administers(kind) ==> dispatched(
            Some(kind),
            Some(attach_role(asked, AttachMode::ReadOnly)),
            trust,
        ) == Dispatch::Denied(needed_role(kind)),
{
}

/// A request that one role may make, every higher role may make too.
pub proof fn law_permissions_grow_with_the_role(
    kind: RequestKind,
    low: ClientRole,
    high: ClientRole,
    trust: ConnectionTrust,
)
    requires
        role_rank(low) <= role_rank(high),
        !(dispatched(Some(kind), Some(low), trust) is Denied),
    ensures
        dispatched(Some(kind), Some(high), trust) == dispatched(Some(kind), Some(low), trust),
{
}

/// What comes in an envelope.
#[derive(Clone, Copy, Debug, PartialEq, Eq, Structural)]
pub enum PayloadKind {
    Request,
    Response,
    Notification,
}

/// What becomes of an envelope.
#[derive(Clone, Copy, Debug, PartialEq, Eq, Structural)]
pub enum EnvelopeAction {
    /// The versions do not fit: the peer is told, and the connection ends.
    RejectVersion,
    /// Nothing is done.
    Ignore,
    /// The request is dispatched.
    Dispatch,
}

/// Whether the peer's version fits: the major number is there and the same.
pub fn version_compatible(peer_major: Option<u32>, own_major: u32) -> (fits: bool)
    ensures
        fits == (peer_major == Some(own_major)),
{
    match peer_major {
        Some(major) => major == own_major,
        None => false,
    }
}

/// What becomes of an envelope; only the first one of a connection has its
/// version looked at.
pub fn receive_envelope(
    first: bool,
    peer_major: Option<u32>,
    own_major: u32,
    payload: Option<PayloadKind>,
) -> (action: EnvelopeAction)
    ensures
        action == if first && peer_major != Some(own_major) {
            EnvelopeAction::RejectVersion
        } else if payload == Some(PayloadKind::Request) {
            EnvelopeAction::Dispatch
        } else {
            EnvelopeAction::Ignore
        },
{
    if first && !version_compatible(peer_major, own_major) {
        return EnvelopeAction::RejectVersion;
    }
    match payload {
        Some(PayloadKind::Request) => EnvelopeAction::Dispatch,
        _ => EnvelopeAction::Ignore,
    }
}

/// Whether an answer that has just been written is the one that a stop of the
/// server waits for.
pub fn is_shutdown_ack(
    requested: bool,
    ack_request_id: u64,
    response_id: Option<u64>,
) -> (yes: bool)
    ensures
        yes == (requested && response_id == Some(ack_request_id)),
{
    match response_id {
        Some(id) => requested && id == ack_request_id,
        None => false,
    }
}

/// How far the length in front of a frame has been read.
#[derive(Clone, Copy, Debug, PartialEq, Eq, Structural)]
pub enum FrameLength {
    /// The length goes on.
    Incomplete,
    /// The length, and how many bytes it took.
    Complete { length: u64, consumed: usize },
    /// The length takes more bytes than a length may.
    Overlong,
    /// The frame is longer than a frame may be.
    TooLarge { length: u64 },
}

/// The number whose base 128 digits, the lowest first, are the low seven bits
/// of the bytes.
pub open spec fn digits_value(bytes: Seq<u8>) -> int
    decreases bytes.len(),
{
    if bytes.len() == 0 {
        0
    } else {
        digits_value(bytes.drop_last()) + (bytes.last() % 128) * power::pow(
            128,
            (bytes.len() - 1) as nat,
        )
    }
}

/// Whether a byte is the last one of a length.
pub open spec fn ends_length(byte: u8) -> bool {
    byte < 128
}

/// The length that starts a run of bytes, of which `limit` may belong to it.
pub open spec fn frame_length(bytes: Seq<u8>, limit: int, max_length: int) -> FrameLength {
    if exists|k: int| is_length_end(bytes, limit, k) {
        let k = choose|k: int| is_length_end(bytes, limit, k);
        let length = digits_value(bytes.take(k + 1)) % 0x1_0000_0000_0000_0000;
        if length > max_length {
            FrameLength::TooLarge { length: length as u64 }
        } else {
            FrameLength::Complete { length: length as u64, consumed: (k + 1) as usize }
        }
    } else if bytes.len() >= limit {
        FrameLength::Overlong
    } else {
        FrameLength::Incomplete
    }
}

/// Whether the byte at `k` is the first one that ends a length.
pub open spec fn is_length_end(bytes: Seq<u8>, limit: int, k: int) -> bool {
    &&& 0 <= k < bytes.len()
    &&& k < limit
    &&& ends_length(bytes[k])
    &&& forall|j: int| 0 <= j < k ==> !ends_length(#[trigger] bytes[j])
}

/// Reads the length in front of a frame.
pub fn read_frame_length(bytes: &Vec<u8>, limit: usize, max_length: u64) -> (read: FrameLength)
    requires
        limit <= 10,
    ensures
        read == frame_length(bytes@, limit as int, max_length as int),
{
    let mut total: u128 = 0;
    let mut factor: u128 = 1;
    let mut i: usize = 0;
    proof {
        power::lemma_pow0(128);
        assert(bytes@.take(0) =~= Seq::<u8>::empty());
    }
    while i < bytes.len() && i < limit
        invariant
            i <= bytes.len(),
            i <= limit <= 10,
            total == digits_value(bytes@.take(i as int)),
            factor == power::pow(128, i as nat),
            total < factor <= 0x40_0000_0000_0000_0000,
            i < 10 ==> factor <= 0x8000_0000_0000_0000,
            forall|j: int| 0 <= j < i ==> !ends_length(#[trigger] bytes@[j]),
        decreases bytes.len() - i,
    {
        let byte: u8 = bytes[i];
        proof {
            assert(bytes@.take(i + 1).drop_last() =~= bytes@.take(i as int));
            assert(bytes@.take(i + 1).last() == byte);
            power::lemma_pow1(128);
            power::lemma_pow_adds(128, i as nat, 1);
            assert((byte % 128) * factor <= 127 * factor) by (nonlinear_arith)
                requires
                    0 <= byte % 128 <= 127,
                    factor >= 0,
            ;
            lemma_factor_bound(i as nat);
        }
        total = total + (byte % 128) as u128 * factor;
        if byte < 128 {
            let length: u64 = (total % 0x1_0000_0000_0000_0000) as u64;
            proof {
                assert(is_length_end(bytes@, limit as int, i as int));
                let k = choose|k: int| is_length_end(bytes@, limit as int, k);
                assert(k == i) by {
                    if k < i {
                        assert(ends_length(bytes@[k]));
                    }
                }
            }
            if length > max_length {
                return FrameLength::TooLarge { length };
            }
            return FrameLength::Complete { length, consumed: i + 1 };
        }
        factor = factor * 128;
        i = i + 1;
    }
    if bytes.len() >= limit {
        FrameLength::Overlong
    } else {
        FrameLength::Incomplete
    }
}

proof fn lemma_factor_bound(i: nat)
    requires
        i < 10,
    ensures
        power::pow(128, i + 1) <= 0x40_0000_0000_0000_0000,
        i + 1 < 10 ==> power::pow(128, i + 1) <= 0x8000_0000_0000_0000,
{
    power::lemma_pow0(128);
    reveal_with_fuel(power::pow, 12);
}

/// Who may ask for what. Anybody may make, list and join sessions and read
/// screens, files and the clipboard; those who may write may also do all but end
/// the server, kill, rename, recover and open sessions and install extensions;
/// and administrators may do everything.
pub proof fn law_roles_allow_what_they_say(kind: RequestKind, trust: ConnectionTrust)
    ensures
        ({
            let reads = kind is CreateSession || kind is ListSessions || kind is Attach
                || kind is Detach || kind is FetchGridUpdate || kind is FetchScrollback
                || kind is SearchScrollback || kind is ListCommands || kind is ListChangedFiles
                || kind is ListFileVersions || kind is GetFileVersion || kind is GetClipboard
                || kind is ReadFile || kind is ListDir || kind is StatFile
                || kind is ShellIntegration || kind is SubscribePaneOutput;
            let rules = kind is Shutdown || kind is KillSession || kind is RenameSession
                || kind is NewWindow || kind is InstallExtension || kind is ConfirmRecovery
                || kind is ListRecoveryCandidates;
            let reader = dispatched(Some(kind), Some(ClientRole::ReadOnly), trust);
            let writer = dispatched(Some(kind), Some(ClientRole::ReadWrite), trust);
            let admin = dispatched(Some(kind), Some(ClientRole::Admin), trust);
            &&& reads <==> !(reader is Denied)
            &&& reads ==> reader == Dispatch::Handle(kind)
            &&& rules <==> writer is Denied
            &&& !rules ==> writer == Dispatch::Handle(kind)
            &&& rules ==> reader == Dispatch::Denied(ClientRole::Admin) && writer
                == Dispatch::Denied(ClientRole::Admin)
            &&& !rules && !reads ==> reader == Dispatch::Denied(ClientRole::ReadWrite)
            &&& !(admin is Denied)
            &&& kind is Shutdown <==> admin is Shutdown
            &&& !(kind is Shutdown) ==> admin == Dispatch::Handle(kind)
        }),
{
}

/// Before it has attached, a client of the local socket may ask for anything but
/// what concerns extensions; any other client may only read. A request without a
/// body is no request.
pub proof fn law_local_clients_are_trusted(kind: RequestKind, role: Option<ClientRole>, trust: ConnectionTrust)
    ensures
        dispatched(None, role, trust) is EmptyBody,
        !(dispatched(Some(kind), None, ConnectionTrust::LocalSocket) is Denied) <==> !(
        kind is InstallExtension || kind is ExtensionChromeAction),
        dispatched(Some(kind), None, ConnectionTrust::Unauthenticated) == dispatched(
            Some(kind),
            Some(ClientRole::ReadOnly),
            ConnectionTrust::Unauthenticated,
        ),
{
}

/// A number as the bytes of a length: seven bits in each, the lowest first, and
/// the high bit set in all but the last.
pub open spec fn length_bytes(n: nat) -> Seq<u8>
    decreases n,
{
    if n < 128 {
        seq![n as u8]
    } else {
        seq![(128 + n % 128) as u8] + length_bytes(n / 128)
    }
}

proof fn lemma_first_digit(first: u8, rest: Seq<u8>)
    ensures
        digits_value(seq![first] + rest) == (first % 128) as int + 128 * digits_value(rest),
    decreases rest.len(),
{
    let all = seq![first] + rest;
    if rest.len() == 0 {
        assert(all.drop_last() =~= Seq::<u8>::empty());
        assert(all.last() == first);
        power::lemma_pow0(128);
        assert(digits_value(all.drop_last()) == 0);
        assert((first % 128) * power::pow(128, 0) == (first % 128) as int);
    } else {
        let init = rest.drop_last();
        lemma_first_digit(first, init);
        assert(all.drop_last() =~= seq![first] + init);
        assert(all.last() == rest.last());
        let e = (rest.len() - 1) as nat;
        power::lemma_pow1(128);
        power::lemma_pow_adds(128, 1, e);
        let d = (rest.last() % 128) as int;
        let p = power::pow(128, e);
        assert(d * (128 * p) == 128 * (d * p)) by (nonlinear_arith);
    }
}

proof fn lemma_length_bytes(n: nat)
    ensures
        length_bytes(n).len() > 0,
        digits_value(length_bytes(n)) == n,
        ends_length(length_bytes(n).last()),
        forall|j: int|
            0 <= j < length_bytes(n).len() - 1 ==> !ends_length(#[trigger] length_bytes(n)[j]),
    decreases n,
{
    let all = length_bytes(n);
    if n < 128 {
        lemma_first_digit(n as u8, Seq::empty());
        assert(seq![n as u8] + Seq::<u8>::empty() =~= all);
    } else {
        let rest = length_bytes(n / 128);
        let first = (128 + n % 128) as u8;
        lemma_length_bytes(n / 128);
        lemma_first_digit(first, rest);
        assert(first as int % 128 == n % 128);
        assert(all.last() == rest.last());
        assert forall|j: int| 0 <= j < all.len() - 1 implies !ends_length(#[trigger] all[j]) by {
            if j > 0 {
                assert(all[j] == rest[j - 1]);
            }
        }
    }
}

/// A length is read back as it was written, whatever comes after it, and where
/// it ends is known; while its last byte is missing it goes on, and a length
/// above the largest allowed is refused.
pub proof fn law_lengths_are_read_back(n: nat, rest: Seq<u8>, limit: int, max_length: int)
    requires
        n <= u64::MAX,
        length_bytes(n).len() <= limit <= 10,
        0 <= max_length <= u64::MAX,
    ensures
        n <= max_length ==> frame_length(length_bytes(n) + rest, limit, max_length) == (
        FrameLength::Complete { length: n as u64, consumed: length_bytes(n).len() as usize }),
        n > max_length ==> frame_length(length_bytes(n) + rest, limit, max_length) == (
        FrameLength::TooLarge { length: n as u64 }),
        forall|k: int|
            0 <= k < length_bytes(n).len() ==> frame_length(
                #[trigger] length_bytes(n).take(k),
                limit,
                max_length,
            ) is Incomplete,
{
    let own = length_bytes(n);
    let all = own + rest;
    let end = own.len() - 1;
    lemma_length_bytes(n);
    assert(all[end] == own.last());
    assert forall|j: int| 0 <= j < end implies !ends_length(#[trigger] all[j]) by {
        assert(all[j] == own[j]);
    }
    assert(is_length_end(all, limit, end));
    let k = choose|k: int| is_length_end(all, limit, k);
    assert(k == end) by {
        if k < end {
            assert(!ends_length(all[k]));
        } else if k > end {
            assert(!ends_length(all[end]));
        }
    }
    assert(all.take(end + 1) =~= own);
    assert(n as int % 0x1_0000_0000_0000_0000 == n);
    assert forall|k: int| 0 <= k < own.len() implies frame_length(
        #[trigger] own.take(k),
        limit,
        max_length,
    ) is Incomplete by {
        let part = own.take(k);
        assert forall|j: int| !is_length_end(part, limit, j) by {
            if 0 <= j < part.len() {
                assert(part[j] == own[j]);
                assert(!ends_length(own[j]));
            }
        }
    }
}

/// What a request is answered is what its handler found; of a handler that fails,
/// the failure where files, their versions or sessions to recover were asked for,
/// and nothing else, for then the connection ends. A request to stop is answered
/// that nothing is wrong, and one that is denied with the role that it takes.
pub proof fn law_answers_say_what_came_of_it<B>(
    request_id: u64,
    kind: RequestKind,
    role: Option<ClientRole>,
    trust: ConnectionTrust,
    body: B,
    message: Seq<char>,
)
    ensures
        ({
            let found = answers_to(request_id, Some(kind), role, trust, Ok::<B, Seq<char>>(body));
            let failed = answers_to(
                request_id,
                Some(kind),
                role,
                trust,
                Err::<B, Seq<char>>(message),
            );
            let told = kind is ListChangedFiles || kind is ListFileVersions || kind is GetFileVersion
                || kind is ListRecoveryCandidates || kind is ConfirmRecovery;
            match dispatched(Some(kind), role, trust) {
                Dispatch::Handle(_) => {
                    &&& found == seq![AnswerModel { request_id, said: SaidModel::Body(body) }]
                    &&& told ==> failed == seq![
                        AnswerModel { request_id, said: SaidModel::<B>::Error(message) },
                    ]
                    &&& !told ==> failed.len() == 0
                },
                Dispatch::Shutdown => found == seq![
                    AnswerModel { request_id, said: SaidModel::<B>::Error(""@) },
                ] && failed == found,
                Dispatch::Denied(needed) => {
                    let text = match needed {
                        ClientRole::Admin => "permission denied: admin required"@,
                        ClientRole::ReadWrite => if kind is ExtensionChromeAction {
                            "permission denied: read-write access required"@
                        } else {
                            "permission denied: read-write required"@
                        },
                        ClientRole::ReadOnly => "permission denied: read-only required"@,
                    };
                    found == seq![AnswerModel { request_id, said: SaidModel::<B>::Error(text) }]
                        && failed == found
                },
                Dispatch::EmptyBody => found.len() == 0,
            }
        }),
{
    let found = answers_to(request_id, Some(kind), role, trust, Ok::<B, Seq<char>>(body));
    let failed = answers_to(request_id, Some(kind), role, trust, Err::<B, Seq<char>>(message));
    assert(found.len() <= 1 && failed.len() <= 1);
    if found.len() == 1 {
        assert(found =~= seq![found[0]]);
    }
    if failed.len() == 1 {
        assert(failed =~= seq![failed[0]]);
    }
}

} // verus!
