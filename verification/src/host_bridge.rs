//! What extensions may ask of the server.
use crate::json;
use crate::json::{entry, object3, Json, JsonModel, Member};
use crate::host_settings;
use crate::host_settings::check_size;
use crate::numbers;
use crate::numbers::decimal_text;
use crate::pane_requests;
use crate::pane_requests::find_owning;
use crate::registry;
use crate::session;
use crate::session::{PaneModel, PaneRecord, Session, SessionModel};
use crate::text;
use crate::text::{around, joined, same_text};
use vstd::prelude::*;
use vstd::string::*;

verus! {

/// What an extension may see of the files of the server.
#[derive(Clone, Copy, Debug, PartialEq, Eq, Structural)]
pub enum FilesystemAccess {
    Nothing,
    Cwd,
    Home,
}

/// The directory that file requests are confined to.
#[derive(Clone, Copy, Debug, PartialEq, Eq, Structural)]
pub enum FileRoot {
    Cwd,
    Home,
}

/// How large what extensions ask for may be.
#[derive(Clone, Copy, Debug, PartialEq, Eq, Structural)]
pub struct HostLimits {
    pub url_bytes: u64,
    pub file_bytes: u64,
    pub dir_entries: usize,
}

/// What is to be done for an extension.
#[derive(Debug)]
pub enum HostAction {
    /// Nothing; this is the answer.
    Answer(Json),
    /// Bytes go to a pane.
    SendInput { pane_id: String, data: String },
    /// Lines of the history of a pane are read, from the oldest on.
    Capture { pane_id: String, count: u32 },
    GetSetting { key: String },
    SetSetting { key: String, value: Json },
    WorkspacePath,
    ReadTextFile { root: FileRoot, path: String },
    ReadDir { root: FileRoot, path: String },
    Fetch { url: String, options: Json },
    Spawn { command: String, arguments: Vec<String>, options: Json },
}

/// What is to be done for an extension.
pub enum ActionModel {
    Answer(JsonModel),
    SendInput { pane_id: Seq<char>, data: Seq<char> },
    Capture { pane_id: Seq<char>, count: u32 },
    GetSetting { key: Seq<char> },
    SetSetting { key: Seq<char>, value: JsonModel },
    WorkspacePath,
    ReadTextFile { root: FileRoot, path: Seq<char> },
    ReadDir { root: FileRoot, path: Seq<char> },
    Fetch { url: Seq<char>, options: JsonModel },
    Spawn { command: Seq<char>, arguments: Seq<Seq<char>>, options: JsonModel },
}

impl View for HostAction {
    type V = ActionModel;

    open spec fn view(&self) -> ActionModel {
        match *self {
            HostAction::Answer(j) => ActionModel::Answer(j@),
            HostAction::SendInput { pane_id, data } => ActionModel::SendInput {
                pane_id: pane_id@,
                data: data@,
            },
            HostAction::Capture { pane_id, count } => ActionModel::Capture {
                pane_id: pane_id@,
                count,
            },
            HostAction::GetSetting { key } => ActionModel::GetSetting { key: key@ },
            HostAction::SetSetting { key, value } => ActionModel::SetSetting {
                key: key@,
                value: value@,
            },
            HostAction::WorkspacePath => ActionModel::WorkspacePath,
            HostAction::ReadTextFile { root, path } => ActionModel::ReadTextFile {
                root,
                path: path@,
            },
            HostAction::ReadDir { root, path } => ActionModel::ReadDir { root, path: path@ },
            HostAction::Fetch { url, options } => ActionModel::Fetch {
                url: url@,
                options: options@,
            },
            HostAction::Spawn { command, arguments, options } => ActionModel::Spawn {
                command: command@,
                arguments: text::texts(arguments@),
                options: options@,
            },
        }
    }
}

/// What a result holds.
pub open spec fn action_result(result: Result<HostAction, String>) -> Result<
    ActionModel,
    Seq<char>,
> {
    match result {
        Ok(action) => Ok(action@),
        Err(message) => Err(message@),
    }
}

/// An argument that has to be a text.
pub open spec fn needed_text(args: JsonModel, index: int, method: Seq<char>) -> Result<
    Seq<char>,
    Seq<char>,
> {
    match json::text_of(json::item(args, index)) {
        Some(t) => Ok(t),
        None => Err(
            "`"@ + method + "` requires a string argument at position "@ + numbers::digits_of(
                index as nat,
            ),
        ),
    }
}

/// What a result holds.
pub open spec fn text_result(result: Result<String, String>) -> Result<Seq<char>, Seq<char>> {
    match result {
        Ok(t) => Ok(t@),
        Err(message) => Err(message@),
    }
}

/// Takes an argument that has to be a text.
pub fn required_string(args: &Json, index: usize, method: &str) -> (result: Result<String, String>)
    ensures
        text_result(result) == needed_text(args@, index as int, method@),
{
    let found: Option<&str> = match args.item(index) {
        Some(value) => value.as_str(),
        None => None,
    };
    match found {
        Some(text) => Ok(text.to_owned()),
        None => {
            let head: String = around("`", method, "` requires a string argument at position ");
            Err(joined(head.as_str(), decimal_text(index as u64).as_str()))
        },
    }
}

/// An argument that may be a number.
pub open spec fn number_given(args: JsonModel, index: int) -> Option<u32> {
    match json::whole_of(json::item(args, index)) {
        Some(n) => Some(
            if n > u32::MAX {
                u32::MAX
            } else {
                n as u32
            },
        ),
        None => None,
    }
}

/// Takes an argument that may be a number.
pub fn optional_u32(args: &Json, index: usize) -> (number: Option<u32>)
    ensures
        number == number_given(args@, index as int),
{
    let found: Option<u64> = match args.item(index) {
        Some(value) => value.as_u64(),
        None => None,
    };
    match found {
        Some(n) => if n > u32::MAX as u64 {
            Some(u32::MAX)
        } else {
            Some(n as u32)
        },
        None => None,
    }
}

/// An argument, or something else where there is none.
pub open spec fn item_or(args: JsonModel, index: int, other: JsonModel) -> JsonModel {
    match json::item(args, index) {
        Some(j) => j,
        None => other,
    }
}

/// Options that say nothing.
pub open spec fn no_options() -> JsonModel {
    JsonModel::Object(Seq::empty())
}

fn options_at(args: &Json, index: usize) -> (options: Json)
    ensures
        options@ == item_or(args@, index as int, no_options()),
{
    match args.item(index) {
        Some(options) => options.clone(),
        None => {
            let empty = Json::Object(Vec::new());
            proof {
                json::lemma_parts(empty);
                assert(json::members_of(empty->Object_0@) =~= Seq::empty());
            }
            empty
        },
    }
}

/// A session as extensions see it.
pub open spec fn session_json(s: SessionModel) -> JsonModel {
    JsonModel::Object(
        seq![
            ("id"@, JsonModel::Text(s.id)),
            ("name"@, JsonModel::Text(s.name)),
            ("cwd"@, JsonModel::Text(s.cwd)),
            ("clients"@, JsonModel::Whole(s.clients.len() as u32 as u64)),
            ("createdTimestamp"@, JsonModel::Whole(s.created_timestamp)),
        ],
    )
}

fn show_session(session: &Session) -> (value: Json)
    ensures
        value@ == session_json(session@),
{
    let mut members: Vec<Member> = Vec::new();
    members.push(entry("id", Json::Text(session.id.clone())));
    members.push(entry("name", Json::Text(session.name.clone())));
    members.push(entry("cwd", Json::Text(session.cwd.clone())));
    members.push(entry("clients", Json::Whole(session.attached_client_count() as u64)));
    members.push(entry("createdTimestamp", Json::Whole(session.created_timestamp)));
    let value = Json::Object(members);
    proof {
        json::lemma_parts(value);
        assert(json::members_of(members@) =~= session_json(session@)->Object_0);
    }
    value
}

fn show_sessions(sessions: &Vec<Session>) -> (value: Json)
    ensures
        value@ == JsonModel::List(
            registry::registry(sessions@).map_values(|s: SessionModel| session_json(s)),
        ),
{
    let ghost all = registry::registry(sessions@).map_values(|s: SessionModel| session_json(s));
    let mut items: Vec<Json> = Vec::new();
    let mut i: usize = 0;
    while i < sessions.len()
        invariant
            i <= sessions.len(),
            items.len() == i,
            all == registry::registry(sessions@).map_values(|s: SessionModel| session_json(s)),
            forall|j: int| 0 <= j < i ==> (#[trigger] items@[j])@ == all[j],
        decreases sessions.len() - i,
    {
        items.push(show_session(&sessions[i]));
        i = i + 1;
    }
    let value = Json::List(items);
    proof {
        json::lemma_parts(value);
        assert(json::values(items@) =~= all);
    }
    value
}

/// A pane as extensions see it.
pub open spec fn pane_json(session: Seq<char>, p: PaneModel) -> JsonModel {
    JsonModel::Object(
        seq![
            ("paneId"@, JsonModel::Text(p.id)),
            ("sessionId"@, JsonModel::Text(session)),
            ("title"@, JsonModel::Text(p.title)),
        ],
    )
}

/// The panes of a session as extensions see them.
pub open spec fn session_panes_json(s: SessionModel) -> Seq<JsonModel> {
    s.panes.map_values(|p: PaneModel| pane_json(s.id, p))
}

/// The panes of the sessions as extensions see them, or of the sessions of one
/// identifier.
pub open spec fn panes_json(r: Seq<SessionModel>, wanted: Option<Seq<char>>) -> Seq<JsonModel>
    decreases r.len(),
{
    if r.len() == 0 {
        Seq::empty()
    } else {
        let before = panes_json(r.drop_last(), wanted);
        if wanted is Some && wanted->0 != r.last().id {
            before
        } else {
            before + session_panes_json(r.last())
        }
    }
}

fn show_panes_of(session: &Session, items: &mut Vec<Json>)
    ensures
        json::values(final(items)@) == json::values(old(items)@) + session_panes_json(session@),
{
    let ghost before = json::values(items@);
    let ghost all = session_panes_json(session@);
    let mut i: usize = 0;
    assert(json::values(items@) =~= before + all.take(0));
    while i < session.panes.len()
        invariant
            i <= session.panes.len(),
            all == session_panes_json(session@),
            json::values(items@) == before + all.take(i as int),
        decreases session.panes.len() - i,
    {
        let pane: &PaneRecord = &session.panes[i];
        let value: Json = object3(
            entry("paneId", Json::Text(pane.id.clone())),
            entry("sessionId", Json::Text(session.id.clone())),
            entry("title", Json::Text(pane.title.clone())),
        );
        let ghost list = items@;
        items.push(value);
        proof {
            assert(session@.panes[i as int] == pane@);
            assert(all[i as int] == value@);
            assert(json::values(items@) =~= json::values(list).push(value@));
            assert(before + all.take(i + 1) =~= (before + all.take(i as int)).push(all[i as int]));
        }
        i = i + 1;
    }
    assert(all.take(i as int) =~= all);
}

fn show_panes(sessions: &Vec<Session>, wanted: Option<&str>) -> (value: Json)
    ensures
        value@ == JsonModel::List(
            panes_json(
                registry::registry(sessions@),
                match wanted {
                    Some(id) => Some(id@),
                    None => None,
                },
            ),
        ),
{
    let ghost r = registry::registry(sessions@);
    let ghost id = match wanted {
        Some(id) => Some(id@),
        None => None,
    };
    let mut items: Vec<Json> = Vec::new();
    let mut i: usize = 0;
    assert(json::values(items@) =~= panes_json(r.take(0), id));
    while i < sessions.len()
        invariant
            i <= sessions.len(),
            r == registry::registry(sessions@),
            id == (match wanted {
                Some(id) => Some(id@),
                None => None,
            }),
            json::values(items@) == panes_json(r.take(i as int), id),
        decreases sessions.len() - i,
    {
        let session = &sessions[i];
        proof {
            assert(r.take(i + 1).drop_last() =~= r.take(i as int));
            assert(r.take(i + 1).last() == session@);
        }
        let shown: bool = match wanted {
            Some(text) => same_text(session.id.as_str(), text),
            None => true,
        };
        if shown {
            show_panes_of(session, &mut items);
        }
        i = i + 1;
    }
    let value = Json::List(items);
    proof {
        json::lemma_parts(value);
        assert(r.take(i as int) =~= r);
    }
    value
}

/// Whether a session has a pane.
pub open spec fn pane_exists(r: Seq<SessionModel>, pane: Seq<char>) -> bool {
    pane_requests::owning(r, pane, 0) < r.len()
}

/// The texts of a list of arguments.
pub open spec fn argument_texts(list: Seq<JsonModel>) -> Result<Seq<Seq<char>>, Seq<char>>
    decreases list.len(),
{
    if list.len() == 0 {
        Ok(Seq::empty())
    } else {
        match argument_texts(list.drop_last()) {
            Err(e) => Err(e),
            Ok(before) => match json::text_of(Some(list.last())) {
                Some(t) => Ok(before.push(t)),
                None => Err("process arguments must be strings"@),
            },
        }
    }
}

/// The arguments of a program; there are none where no list is given.
pub open spec fn arguments_given(args: JsonModel) -> Result<Seq<Seq<char>>, Seq<char>> {
    match json::item(args, 1) {
        Some(JsonModel::List(list)) => argument_texts(list),
        _ => Ok(Seq::empty()),
    }
}

proof fn lemma_argument_error(list: Seq<JsonModel>, k: int)
    requires
        0 <= k <= list.len(),
        argument_texts(list.take(k)) is Err,
    ensures
        argument_texts(list) == argument_texts(list.take(k)),
    decreases list.len() - k,
{
    if k < list.len() {
        assert(list.take(k + 1).drop_last() =~= list.take(k));
        lemma_argument_error(list, k + 1);
    } else {
        assert(list.take(k) =~= list);
    }
}

/// What a result holds.
pub open spec fn texts_result(result: Result<Vec<String>, String>) -> Result<
    Seq<Seq<char>>,
    Seq<char>,
> {
    match result {
        Ok(list) => Ok(text::texts(list@)),
        Err(message) => Err(message@),
    }
}

fn take_arguments(args: &Json) -> (result: Result<Vec<String>, String>)
    ensures
        texts_result(result) == arguments_given(args@),
{
    let mut arguments: Vec<String> = Vec::new();
    proof {
        assert(text::texts(arguments@) =~= Seq::<Seq<char>>::empty());
    }
    match args.item(1) {
        Some(given) => {
            proof {
                json::lemma_parts(*given);
            }
            match given {
                Json::List(items) => {
                    let ghost all = json::values(items@);
                    let mut i: usize = 0;
                    assert(all.take(0) =~= Seq::<JsonModel>::empty());
                    while i < items.len()
                        invariant
                            i <= items.len(),
                            all == json::values(items@),
                            json::item(args@, 1) == Some(JsonModel::List(all)),
                            argument_texts(all.take(i as int)) == Ok::<
                                Seq<Seq<char>>,
                                Seq<char>,
                            >(text::texts(arguments@)),
                        decreases items.len() - i,
                    {
                        proof {
                            assert(all.take(i + 1).drop_last() =~= all.take(i as int));
                            assert(all.take(i + 1).last() == items@[i as int]@);
                        }
                        match items[i].as_str() {
                            Some(text) => {
                                let argument: String = text.to_owned();
                                proof {
                                    text::lemma_texts_push(arguments@, argument);
                                }
                                arguments.push(argument);
                            },
                            None => {
                                proof {
                                    lemma_argument_error(all, i + 1);
                                }
                                return Err("process arguments must be strings".to_owned());
                            },
                        }
                        i = i + 1;
                    }
                    assert(all.take(i as int) =~= all);
                    Ok(arguments)
                },
                _ => Ok(arguments),
            }
        },
        None => Ok(arguments),
    }
}

/// What is said of a pane that is not there.
pub open spec fn no_such_pane(pane: Seq<char>) -> Seq<char> {
    "pane not found: "@ + pane
}

/// The directory that file requests are confined to.
pub open spec fn root_of(access: FilesystemAccess) -> Result<FileRoot, Seq<char>> {
    match access {
        FilesystemAccess::Nothing => Err(
            "filesystem access is not granted to this extension"@,
        ),
        FilesystemAccess::Cwd => Ok(FileRoot::Cwd),
        FilesystemAccess::Home => Ok(FileRoot::Home),
    }
}

fn file_root(access: FilesystemAccess) -> (result: Result<FileRoot, String>)
    ensures
        match result {
            Ok(root) => root_of(access) == Ok::<FileRoot, Seq<char>>(root),
            Err(message) => root_of(access) == Err::<FileRoot, Seq<char>>(message@),
        },
{
    match access {
        FilesystemAccess::Nothing => Err(
            "filesystem access is not granted to this extension".to_owned(),
        ),
        FilesystemAccess::Cwd => Ok(FileRoot::Cwd),
        FilesystemAccess::Home => Ok(FileRoot::Home),
    }
}

/// What is done for a request on a file.
pub open spec fn file_action(
    args: JsonModel,
    method: Seq<char>,
    access: FilesystemAccess,
    lists: bool,
) -> Result<ActionModel, Seq<char>> {
    match needed_text(args, 0, method) {
        Err(e) => Err(e),
        Ok(path) => match root_of(access) {
            Err(e) => Err(e),
            Ok(root) => if lists {
                Ok(ActionModel::ReadDir { root, path })
            } else {
                Ok(ActionModel::ReadTextFile { root, path })
            },
        },
    }
}

/// What is done for a request to write to a pane.
pub open spec fn input_action(args: JsonModel, method: Seq<char>, r: Seq<SessionModel>) -> Result<
    ActionModel,
    Seq<char>,
> {
    match needed_text(args, 0, method) {
        Err(e) => Err(e),
        Ok(pane_id) => match needed_text(args, 1, method) {
            Err(e) => Err(e),
            Ok(data) => if pane_exists(r, pane_id) {
                Ok(ActionModel::SendInput { pane_id, data })
            } else {
                Err(no_such_pane(pane_id))
            },
        },
    }
}

/// What is done for a request to read from a pane.
pub open spec fn capture_action(
    args: JsonModel,
    method: Seq<char>,
    r: Seq<SessionModel>,
) -> Result<ActionModel, Seq<char>> {
    match needed_text(args, 0, method) {
        Err(e) => Err(e),
        Ok(pane_id) => if pane_exists(r, pane_id) {
            Ok(
                ActionModel::Capture {
                    pane_id,
                    count: match number_given(args, 1) {
                        Some(n) => n,
                        None => 100,
                    },
                },
            )
        } else {
            Err(no_such_pane(pane_id))
        },
    }
}

/// What is done for a request to fetch something.
pub open spec fn fetch_action(args: JsonModel, method: Seq<char>, limits: HostLimits) -> Result<
    ActionModel,
    Seq<char>,
> {
    match needed_text(args, 0, method) {
        Err(e) => Err(e),
        Ok(url) => if vstd::utf8::encode_utf8(url).len() > limits.url_bytes {
            Err(host_settings::too_large("network URL"@, limits.url_bytes as nat))
        } else {
            Ok(ActionModel::Fetch { url, options: item_or(args, 1, no_options()) })
        },
    }
}

/// What is done for a request to run a program.
pub open spec fn spawn_action(args: JsonModel, method: Seq<char>) -> Result<
    ActionModel,
    Seq<char>,
> {
    match needed_text(args, 0, method) {
        Err(e) => Err(e),
        Ok(command) => match arguments_given(args) {
            Err(e) => Err(e),
            Ok(arguments) => Ok(
                ActionModel::Spawn { command, arguments, options: item_or(args, 2, no_options()) },
            ),
        },
    }
}

/// What is done for a request.
pub open spec fn host_call(
    method: Seq<char>,
    args: JsonModel,
    r: Seq<SessionModel>,
    access: FilesystemAccess,
    limits: HostLimits,
) -> Result<ActionModel, Seq<char>> {
    if method == "mux.listSessions"@ {
        Ok(
            ActionModel::Answer(
                JsonModel::List(r.map_values(|s: SessionModel| session_json(s))),
            ),
        )
    } else if method == "mux.listPanes"@ {
        Ok(
            ActionModel::Answer(
                JsonModel::List(panes_json(r, json::text_of(json::item(args, 0)))),
            ),
        )
    } else if method == "mux.focusedPane"@ {
        Ok(ActionModel::Answer(JsonModel::Null))
    } else if method == "mux.sendInput"@ || method == "terminal.write"@ {
        input_action(args, method, r)
    } else if method == "mux.capturePane"@ || method == "terminal.capture"@ {
        capture_action(args, method, r)
    } else if method == "settings.get"@ {
        match needed_text(args, 0, method) {
            Err(e) => Err(e),
            Ok(key) => Ok(ActionModel::GetSetting { key }),
        }
    } else if method == "settings.set"@ {
        match needed_text(args, 0, method) {
            Err(e) => Err(e),
            Ok(key) => Ok(
                ActionModel::SetSetting { key, value: item_or(args, 1, JsonModel::Null) },
            ),
        }
    } else if method == "workspace.getPath"@ {
        Ok(ActionModel::WorkspacePath)
    } else if method == "filesystem.readTextFile"@ {
        file_action(args, method, access, false)
    } else if method == "filesystem.readDir"@ {
        file_action(args, method, access, true)
    } else if method == "network.fetch"@ {
        fetch_action(args, method, limits)
    } else if method == "process.spawn"@ {
        spawn_action(args, method)
    } else {
        Err("unknown host method: "@ + method)
    }
}

/// The bridge of an extension: it may see the files that the extension was
/// granted, below the directories that are set or else those of the process.
#[derive(Debug)]
pub struct ServerHostBridge {
    pub filesystem: FilesystemAccess,
    pub home: Option<String>,
    pub cwd: Option<String>,
}

impl ServerHostBridge {
    /// A bridge to the files below the directories of the process.
    pub fn new(filesystem: FilesystemAccess) -> (bridge: ServerHostBridge)
        ensures
            bridge.filesystem == filesystem,
            bridge.home is None,
            bridge.cwd is None,
    {
        ServerHostBridge { filesystem, home: None, cwd: None }
    }

    /// A bridge with a home directory of its own.
    pub fn with_home(home: String, filesystem: FilesystemAccess) -> (bridge: ServerHostBridge)
        ensures
            bridge.filesystem == filesystem,
            bridge.home == Some(home),
            bridge.cwd is None,
    {
        ServerHostBridge { filesystem, home: Some(home), cwd: None }
    }

    /// A bridge with directories of its own.
    pub fn with_roots(home: String, cwd: String, filesystem: FilesystemAccess) -> (bridge:
        ServerHostBridge)
        ensures
            bridge.filesystem == filesystem,
            bridge.home == Some(home),
            bridge.cwd == Some(cwd),
    {
        ServerHostBridge { filesystem, home: Some(home), cwd: Some(cwd) }
    }

    /// The directory that file requests are confined to, given those of the
    /// process.
    pub fn root_dir(
        &self,
        root: FileRoot,
        process_home: Option<String>,
        process_cwd: Option<String>,
    ) -> (result: Result<String, String>)
        ensures
            ({
                let own = match root {
                    FileRoot::Cwd => self.cwd,
                    FileRoot::Home => self.home,
                };
                let given = match root {
                    FileRoot::Cwd => process_cwd,
                    FileRoot::Home => process_home,
                };
                text_result(result) == match own {
                    Some(dir) => Ok::<Seq<char>, Seq<char>>(dir@),
                    None => match given {
                        Some(dir) => Ok(dir@),
                        None => Err(
                            match root {
                                FileRoot::Cwd => "host working directory unavailable"@,
                                FileRoot::Home => "host home directory unavailable"@,
                            },
                        ),
                    },
                }
            }),
    {
        match root {
            FileRoot::Cwd => match &self.cwd {
                Some(dir) => Ok(dir.clone()),
                None => match process_cwd {
                    Some(dir) => Ok(dir),
                    None => Err("host working directory unavailable".to_owned()),
                },
            },
            FileRoot::Home => match &self.home {
                Some(dir) => Ok(dir.clone()),
                None => match process_home {
                    Some(dir) => Ok(dir),
                    None => Err("host home directory unavailable".to_owned()),
                },
            },
        }
    }

    /// Decides what is done for a request of an extension.
    pub fn call(
        &self,
        method: &str,
        args: &Json,
        sessions: &Vec<Session>,
        limits: HostLimits,
    ) -> (result: Result<HostAction, String>)
        ensures
            action_result(result) == host_call(
                method@,
                args@,
                registry::registry(sessions@),
                self.filesystem,
                limits,
            ),
    {
        if same_text(method, "mux.listSessions") {
            return Ok(HostAction::Answer(show_sessions(sessions)));
        }
        if same_text(method, "mux.listPanes") {
            let wanted: Option<&str> = match args.item(0) {
                Some(value) => value.as_str(),
                None => None,
            };
            return Ok(HostAction::Answer(show_panes(sessions, wanted)));
        }
        if same_text(method, "mux.focusedPane") {
            return Ok(HostAction::Answer(Json::Null));
        }
        if same_text(method, "mux.sendInput") || same_text(method, "terminal.write") {
            return plan_input(args, method, sessions);
        }
        if same_text(method, "mux.capturePane") || same_text(method, "terminal.capture") {
            return plan_capture(args, method, sessions);
        }
        if same_text(method, "settings.get") {
            return match required_string(args, 0, method) {
                Ok(key) => Ok(HostAction::GetSetting { key }),
                Err(e) => Err(e),
            };
        }
        if same_text(method, "settings.set") {
            return match required_string(args, 0, method) {
                Ok(key) => {
                    let value: Json = match args.item(1) {
                        Some(value) => value.clone(),
                        None => Json::Null,
                    };
                    Ok(HostAction::SetSetting { key, value })
                },
                Err(e) => Err(e),
            };
        }
        if same_text(method, "workspace.getPath") {
            return Ok(HostAction::WorkspacePath);
        }
        if same_text(method, "filesystem.readTextFile") {
            return plan_file(args, method, self.filesystem, false);
        }
        if same_text(method, "filesystem.readDir") {
            return plan_file(args, method, self.filesystem, true);
        }
        if same_text(method, "network.fetch") {
            return plan_fetch(args, method, limits);
        }
        if same_text(method, "process.spawn") {
            return plan_spawn(args, method);
        }
        Err(joined("unknown host method: ", method))
    }
}

fn plan_input(args: &Json, method: &str, sessions: &Vec<Session>) -> (result: Result<
    HostAction,
    String,
>)
    ensures
        action_result(result) == input_action(args@, method@, registry::registry(sessions@)),
{
    let pane_id: String = match required_string(args, 0, method) {
        Ok(text) => text,
        Err(e) => {
            return Err(e);
        },
    };
    let data: String = match required_string(args, 1, method) {
        Ok(text) => text,
        Err(e) => {
            return Err(e);
        },
    };
    if find_owning(sessions, pane_id.as_str()) >= sessions.len() {
        return Err(joined("pane not found: ", pane_id.as_str()));
    }
    Ok(HostAction::SendInput { pane_id, data })
}

fn plan_capture(args: &Json, method: &str, sessions: &Vec<Session>) -> (result: Result<
    HostAction,
    String,
>)
    ensures
        action_result(result) == capture_action(args@, method@, registry::registry(sessions@)),
{
    let pane_id: String = match required_string(args, 0, method) {
        Ok(text) => text,
        Err(e) => {
            return Err(e);
        },
    };
    let count: u32 = match optional_u32(args, 1) {
        Some(n) => n,
        None => 100,
    };
    if find_owning(sessions, pane_id.as_str()) >= sessions.len() {
        return Err(joined("pane not found: ", pane_id.as_str()));
    }
    Ok(HostAction::Capture { pane_id, count })
}

fn plan_file(args: &Json, method: &str, access: FilesystemAccess, lists: bool) -> (result: Result<
    HostAction,
    String,
>)
    ensures
        action_result(result) == file_action(args@, method@, access, lists),
{
    let path: String = match required_string(args, 0, method) {
        Ok(text) => text,
        Err(e) => {
            return Err(e);
        },
    };
    match file_root(access) {
        Ok(root) => if lists {
            Ok(HostAction::ReadDir { root, path })
        } else {
            Ok(HostAction::ReadTextFile { root, path })
        },
        Err(e) => Err(e),
    }
}

fn plan_fetch(args: &Json, method: &str, limits: HostLimits) -> (result: Result<HostAction, String>)
    ensures
        action_result(result) == fetch_action(args@, method@, limits),
{
    let url: String = match required_string(args, 0, method) {
        Ok(text) => text,
        Err(e) => {
            return Err(e);
        },
    };
    let length: usize = url.as_str().as_bytes().len();
    match check_size("network URL", length as u64, limits.url_bytes) {
        Ok(_) => Ok(HostAction::Fetch { url, options: options_at(args, 1) }),
        Err(e) => Err(e),
    }
}

fn plan_spawn(args: &Json, method: &str) -> (result: Result<HostAction, String>)
    ensures
        action_result(result) == spawn_action(args@, method@),
{
    let command: String = match required_string(args, 0, method) {
        Ok(text) => text,
        Err(e) => {
            return Err(e);
        },
    };
    match take_arguments(args) {
        Ok(arguments) => Ok(
            HostAction::Spawn { command, arguments, options: options_at(args, 2) },
        ),
        Err(e) => Err(e),
    }
}

/// An extension that was granted no files gets at none.
pub proof fn law_no_files_without_a_grant(
    method: Seq<char>,
    args: JsonModel,
    r: Seq<SessionModel>,
    limits: HostLimits,
)
    ensures
        match host_call(method, args, r, FilesystemAccess::Nothing, limits) {
            Ok(action) => !(action is ReadTextFile || action is ReadDir),
            Err(_) => true,
        },
{
}

/// A request on a file names as its root the directory that was granted, never
/// the other one.
pub proof fn law_files_stay_in_their_root(
    method: Seq<char>,
    args: JsonModel,
    r: Seq<SessionModel>,
    access: FilesystemAccess,
    limits: HostLimits,
)
    ensures
        match host_call(method, args, r, access, limits) {
            Ok(ActionModel::ReadTextFile { root, path }) => root_of(access) == Ok::<
                FileRoot,
                Seq<char>,
            >(root),
            Ok(ActionModel::ReadDir { root, path }) => root_of(access) == Ok::<
                FileRoot,
                Seq<char>,
            >(root),
            _ => true,
        },
{
}

/// Whether a value is an object with a member of this name and value.
pub open spec fn names(value: JsonModel, key: Seq<char>, member: JsonModel) -> bool {
    value matches JsonModel::Object(members) && members.contains((key, member))
}

/// Sessions and panes are told with each thing under its own name.
pub proof fn law_listed_things_are_told_by_name(s: SessionModel, session: Seq<char>, p: PaneModel)
    ensures
        names(session_json(s), "id"@, JsonModel::Text(s.id)),
        names(session_json(s), "name"@, JsonModel::Text(s.name)),
        names(session_json(s), "cwd"@, JsonModel::Text(s.cwd)),
        s.clients.len() <= u32::MAX ==> names(
            session_json(s),
            "clients"@,
            JsonModel::Whole(s.clients.len() as u64),
        ),
        names(session_json(s), "createdTimestamp"@, JsonModel::Whole(s.created_timestamp)),
        names(pane_json(session, p), "paneId"@, JsonModel::Text(p.id)),
        names(pane_json(session, p), "sessionId"@, JsonModel::Text(session)),
        names(pane_json(session, p), "title"@, JsonModel::Text(p.title)),
{
    if let JsonModel::Object(m) = session_json(s) {
        assert(m.contains(m[0]) && m.contains(m[1]) && m.contains(m[2]) && m.contains(m[3])
            && m.contains(m[4]));
    }
    if let JsonModel::Object(m) = pane_json(session, p) {
        assert(m.contains(m[0]) && m.contains(m[1]) && m.contains(m[2]));
    }
}

/// Panes are listed session by session and in their order: all of them, or those
/// of the sessions with the identifier that was asked for.
pub proof fn law_panes_are_listed_by_session(
    a: Seq<SessionModel>,
    b: Seq<SessionModel>,
    s: SessionModel,
    wanted: Option<Seq<char>>,
    i: int,
)
    ensures
        panes_json(a + b, wanted) == panes_json(a, wanted) + panes_json(b, wanted),
        wanted is None || wanted == Some(s.id) ==> panes_json(seq![s], wanted).len()
            == s.panes.len() && (0 <= i < s.panes.len() ==> panes_json(seq![s], wanted)[i]
            == pane_json(s.id, s.panes[i])),
        wanted is Some && wanted != Some(s.id) ==> panes_json(seq![s], wanted).len() == 0,
    decreases b.len(),
{
    reveal_with_fuel(panes_json, 2);
    assert(seq![s].drop_last() =~= Seq::<SessionModel>::empty());
    if wanted is None || wanted == Some(s.id) {
        assert(panes_json(seq![s], wanted) =~= session_panes_json(s));
    }
    if b.len() == 0 {
        assert(a + b =~= a);
        assert(panes_json(a, wanted) + panes_json(b, wanted) =~= panes_json(a, wanted));
    } else {
        law_panes_are_listed_by_session(a, b.drop_last(), s, wanted, i);
        assert((a + b).drop_last() =~= a + b.drop_last());
        assert((a + b).last() == b.last());
        assert(panes_json(a + b, wanted) =~= panes_json(a, wanted) + panes_json(b, wanted));
    }
}

proof fn lemma_methods_differ(method: Seq<char>)
    ensures
        method == "mux.sendInput"@ || method == "terminal.write"@ ==> method
            != "mux.listSessions"@ && method != "mux.listPanes"@ && method != "mux.focusedPane"@,
        method == "mux.capturePane"@ || method == "terminal.capture"@ ==> method
            != "mux.listSessions"@ && method != "mux.listPanes"@ && method != "mux.focusedPane"@
            && method != "mux.sendInput"@ && method != "terminal.write"@,
        method == "mux.listPanes"@ || method == "mux.focusedPane"@ ==> method
            != "mux.listSessions"@,
        "mux.focusedPane"@ != "mux.listPanes"@,
        method == "settings.get"@ || method == "settings.set"@ || method == "workspace.getPath"@
            || method == "filesystem.readTextFile"@ || method == "filesystem.readDir"@ || method
            == "network.fetch"@ || method == "process.spawn"@ ==> method != "mux.listSessions"@
            && method != "mux.listPanes"@ && method != "mux.focusedPane"@ && method
            != "mux.sendInput"@ && method != "terminal.write"@ && method != "mux.capturePane"@
            && method != "terminal.capture"@,
        "settings.set"@ != "settings.get"@,
        method == "workspace.getPath"@ || method == "filesystem.readTextFile"@ || method
            == "filesystem.readDir"@ || method == "network.fetch"@ || method == "process.spawn"@
            ==> method != "settings.get"@ && method != "settings.set"@,
        method == "filesystem.readTextFile"@ || method == "filesystem.readDir"@ || method
            == "network.fetch"@ || method == "process.spawn"@ ==> method != "workspace.getPath"@,
        method == "filesystem.readDir"@ || method == "network.fetch"@ || method
            == "process.spawn"@ ==> method != "filesystem.readTextFile"@,
        method == "network.fetch"@ || method == "process.spawn"@ ==> method
            != "filesystem.readDir"@,
        "process.spawn"@ != "network.fetch"@,
{
    reveal_strlit("mux.listSessions");
    assert("mux.listSessions"@.len() == 16);
    reveal_strlit("mux.listPanes");
    assert("mux.listPanes"@.len() == 13);
    reveal_strlit("mux.focusedPane");
    assert("mux.focusedPane"@.len() == 15);
    reveal_strlit("mux.sendInput");
    assert("mux.sendInput"@.len() == 13);
    reveal_strlit("terminal.write");
    assert("terminal.write"@.len() == 14);
    reveal_strlit("mux.capturePane");
    assert("mux.capturePane"@.len() == 15);
    reveal_strlit("terminal.capture");
    assert("terminal.capture"@.len() == 16);
    reveal_strlit("settings.get");
    assert("settings.get"@.len() == 12);
    reveal_strlit("settings.set");
    assert("settings.set"@.len() == 12);
    reveal_strlit("workspace.getPath");
    assert("workspace.getPath"@.len() == 17);
    reveal_strlit("filesystem.readTextFile");
    assert("filesystem.readTextFile"@.len() == 23);
    reveal_strlit("filesystem.readDir");
    assert("filesystem.readDir"@.len() == 18);
    reveal_strlit("network.fetch");
    assert("network.fetch"@.len() == 13);
    reveal_strlit("process.spawn");
    assert("process.spawn"@.len() == 13);
    assert("mux.listSessions"@[0] != "terminal.capture"@[0]);
    assert("mux.listPanes"@[4] != "mux.sendInput"@[4]);
    assert("mux.listPanes"@[0] != "network.fetch"@[0]);
    assert("mux.listPanes"@[0] != "process.spawn"@[0]);
    assert("mux.focusedPane"@[4] != "mux.capturePane"@[4]);
    assert("mux.sendInput"@[0] != "network.fetch"@[0]);
    assert("mux.sendInput"@[0] != "process.spawn"@[0]);
    assert("settings.get"@[9] != "settings.set"@[9]);
    assert("network.fetch"@[0] != "process.spawn"@[0]);
}

/// What extensions ask of panes: input goes to the pane that is named, the
/// captured lines are as many as were asked for and a hundred else, and a pane
/// that is not there is refused.
pub proof fn law_panes_get_what_was_asked(
    method: Seq<char>,
    args: Seq<JsonModel>,
    pane: Seq<char>,
    data: Seq<char>,
    count: u32,
    r: Seq<SessionModel>,
    access: FilesystemAccess,
    limits: HostLimits,
)
    requires
        args.len() > 0,
        args[0] == JsonModel::Text(pane),
    ensures
        ({
            let done = host_call(method, JsonModel::List(args), r, access, limits);
            let input = method == "mux.sendInput"@ || method == "terminal.write"@;
            let capture = method == "mux.capturePane"@ || method == "terminal.capture"@;
            let here = exists|k: int| #[trigger] shows_pane(r, k, pane);
            &&& input && here && args.len() > 1 && args[1] == JsonModel::Text(data) ==> done == Ok::<
                ActionModel,
                Seq<char>,
            >(ActionModel::SendInput { pane_id: pane, data })
            &&& input && here && args.len() == 1 ==> done is Err
            &&& capture && here && args.len() > 1 && args[1] == JsonModel::Whole(count as u64)
                ==> done == Ok::<ActionModel, Seq<char>>(
                ActionModel::Capture { pane_id: pane, count },
            )
            &&& capture && here && args.len() == 1 ==> done == Ok::<ActionModel, Seq<char>>(
                ActionModel::Capture { pane_id: pane, count: 100 },
            )
            &&& (input || capture) && !here ==> done is Err
        }),
{
    lemma_methods_differ(method);
    lemma_pane_is_shown(r, pane, 0);
}

/// Whether a session of the registry shows a pane.
pub open spec fn shows_pane(r: Seq<SessionModel>, k: int, pane: Seq<char>) -> bool {
    &&& 0 <= k < r.len()
    &&& exists|i: int| 0 <= i < r[k].panes.len() && (#[trigger] r[k].panes[i]).id == pane
}

/// Settings, files, requests and processes are asked for with the arguments
/// that were given, and an argument that is left out is empty.
pub proof fn law_calls_carry_their_arguments(
    method: Seq<char>,
    args: Seq<JsonModel>,
    first: Seq<char>,
    r: Seq<SessionModel>,
    access: FilesystemAccess,
    limits: HostLimits,
)
    requires
        args.len() > 0,
        args[0] == JsonModel::Text(first),
    ensures
        ({
            let done = host_call(method, JsonModel::List(args), r, access, limits);
            &&& method == "settings.get"@ ==> done == Ok::<ActionModel, Seq<char>>(
                ActionModel::GetSetting { key: first },
            )
            &&& method == "settings.set"@ && args.len() > 1 ==> done == Ok::<
                ActionModel,
                Seq<char>,
            >(ActionModel::SetSetting { key: first, value: args[1] })
            &&& method == "settings.set"@ && args.len() == 1 ==> done == Ok::<
                ActionModel,
                Seq<char>,
            >(ActionModel::SetSetting { key: first, value: JsonModel::Null })
            &&& method == "workspace.getPath"@ ==> done == Ok::<ActionModel, Seq<char>>(
                ActionModel::WorkspacePath,
            )
            &&& method == "filesystem.readTextFile"@ && access is Cwd ==> done == Ok::<
                ActionModel,
                Seq<char>,
            >(ActionModel::ReadTextFile { root: FileRoot::Cwd, path: first })
            &&& method == "filesystem.readTextFile"@ && access is Home ==> done == Ok::<
                ActionModel,
                Seq<char>,
            >(ActionModel::ReadTextFile { root: FileRoot::Home, path: first })
            &&& method == "filesystem.readDir"@ && access is Cwd ==> done == Ok::<
                ActionModel,
                Seq<char>,
            >(ActionModel::ReadDir { root: FileRoot::Cwd, path: first })
            &&& method == "filesystem.readDir"@ && access is Home ==> done == Ok::<
                ActionModel,
                Seq<char>,
            >(ActionModel::ReadDir { root: FileRoot::Home, path: first })
            &&& method == "network.fetch"@ && vstd::utf8::encode_utf8(first).len()
                > limits.url_bytes ==> done is Err
            &&& method == "network.fetch"@ && vstd::utf8::encode_utf8(first).len()
                <= limits.url_bytes && args.len() > 1 ==> done == Ok::<ActionModel, Seq<char>>(
                ActionModel::Fetch { url: first, options: args[1] },
            )
            &&& method == "network.fetch"@ && vstd::utf8::encode_utf8(first).len()
                <= limits.url_bytes && args.len() == 1 ==> done == Ok::<ActionModel, Seq<char>>(
                ActionModel::Fetch { url: first, options: JsonModel::Object(Seq::empty()) },
            )
        }),
{
    lemma_methods_differ(method);
}

proof fn lemma_all_texts(words: Seq<Seq<char>>)
    ensures
        argument_texts(words.map_values(|w: Seq<char>| JsonModel::Text(w))) == Ok::<
            Seq<Seq<char>>,
            Seq<char>,
        >(words),
    decreases words.len(),
{
    let list = words.map_values(|w: Seq<char>| JsonModel::Text(w));
    if words.len() > 0 {
        let init = words.drop_last();
        lemma_all_texts(init);
        assert(list.drop_last() =~= init.map_values(|w: Seq<char>| JsonModel::Text(w)));
        assert(list.last() == JsonModel::Text(words.last()));
        assert(init.push(words.last()) =~= words);
    } else {
        assert(words =~= Seq::empty());
    }
}

/// A process is started with the command and all the arguments that were given,
/// in their order.
pub proof fn law_processes_get_their_arguments(
    command: Seq<char>,
    words: Seq<Seq<char>>,
    options: JsonModel,
    r: Seq<SessionModel>,
    access: FilesystemAccess,
    limits: HostLimits,
)
    ensures
        host_call(
            "process.spawn"@,
            JsonModel::List(
                seq![
                    JsonModel::Text(command),
                    JsonModel::List(words.map_values(|w: Seq<char>| JsonModel::Text(w))),
                    options,
                ],
            ),
            r,
            access,
            limits,
        ) == Ok::<ActionModel, Seq<char>>(
            ActionModel::Spawn { command, arguments: words, options },
        ),
        host_call(
            "process.spawn"@,
            JsonModel::List(seq![JsonModel::Text(command)]),
            r,
            access,
            limits,
        ) == Ok::<ActionModel, Seq<char>>(
            ActionModel::Spawn {
                command,
                arguments: Seq::empty(),
                options: JsonModel::Object(Seq::empty()),
            },
        ),
{
    lemma_methods_differ("process.spawn"@);
    lemma_all_texts(words);
}

proof fn lemma_pane_is_shown(r: Seq<SessionModel>, pane: Seq<char>, k: int)
    requires
        0 <= k <= r.len(),
    ensures
        ({
            let f = pane_requests::owning(r, pane, k);
            &&& k <= f <= r.len()
            &&& f < r.len() ==> shows_pane(r, f, pane)
            &&& forall|j: int| k <= j < f ==> !#[trigger] shows_pane(r, j, pane)
        }),
    decreases r.len() - k,
{
    if k < r.len() {
        let keys = session::pane_keys(r[k].panes);
        if r[k].has_pane(pane) {
            let i = choose|i: int| 0 <= i < keys.len() && keys[i] == pane;
            assert(r[k].panes[i].id == pane);
        } else {
            if shows_pane(r, k, pane) {
                let i = choose|i: int|
                    0 <= i < r[k].panes.len() && (#[trigger] r[k].panes[i]).id == pane;
                assert(keys[i] == pane);
            }
            lemma_pane_is_shown(r, pane, k + 1);
        }
    }
}

} // verus!
