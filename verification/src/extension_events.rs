//! What extensions are told of what happens on the server.
use crate::host_answers;
use crate::host_answers::number_value;
use crate::json;
use crate::json::{entry, object1, object2, object3, Json, JsonModel, Member};
use crate::layout_wire::{copy_factors, WireChild, WireModel, WireNode};
use vstd::prelude::*;
use vstd::string::*;

verus! {

/// A layout on the wire.
#[derive(Debug)]
pub struct WireTree {
    pub root: Option<WireNode>,
}

/// What happens on the server.
#[derive(Debug)]
pub enum ServerEvent {
    PaneFocused { pane_id: String },
    PaneTitleChanged { pane_id: String, title: String },
    PaneAdded { pane_id: String, tab_id: String },
    PaneRemoved { pane_id: String, exit_code: i32 },
    TabTitleChanged { tab_id: String, title: String },
    SessionLayoutChanged { layout: Option<WireTree> },
    WindowAdded { session_id: String, window_id: String },
    WindowRemoved { session_id: String, window_id: String },
    PaneZoomed { pane_id: String, zoomed: bool },
    ShellIntegrationChanged { cwd: String },
    PaneDirty { pane_id: String },
    PaneBell { pane_id: String },
    PaneOutput { pane_id: String, data: Vec<u8>, output_sequence: u64 },
    ClipboardChanged,
    SyncScrollback,
    ExtensionChrome,
    PaneMedia,
    PaneAction,
}

/// The name of a direction.
pub open spec fn direction_text(direction: i32) -> Seq<char> {
    if direction == 1 {
        "left-right"@
    } else if direction == 2 {
        "top-bottom"@
    } else {
        "unspecified"@
    }
}

/// A node of a layout as extensions see it.
pub open spec fn node_json(n: WireModel) -> JsonModel
    decreases n,
{
    match n {
        WireModel::Pane { id, pane_id } => JsonModel::Object(
            seq![("id"@, JsonModel::Text(id)), ("paneId"@, JsonModel::Text(pane_id))],
        ),
        WireModel::Split { id, direction, children } => JsonModel::Object(
            seq![
                ("id"@, JsonModel::Text(id)),
                ("direction"@, JsonModel::Text(direction_text(direction))),
                (
                    "children"@,
                    JsonModel::List(
                        Seq::new(
                            children.len(),
                            |i: int|
                                if 0 <= i < children.len() {
                                    node_json(children[i].0)
                                } else {
                                    JsonModel::Null
                                },
                        ),
                    ),
                ),
                (
                    "ratios"@,
                    JsonModel::List(
                        Seq::new(children.len(), |i: int| JsonModel::Product(children[i].1)),
                    ),
                ),
            ],
        ),
    }
}

/// Tells a node of a layout.
pub fn layout_node_json(node: &WireNode) -> (value: Json)
    ensures
        value@ == node_json(node.model()),
    decreases node,
{
    match node {
        WireNode::Pane { id, pane_id } => object2(
            entry("id", Json::Text(id.clone())),
            entry("paneId", Json::Text(pane_id.clone())),
        ),
        WireNode::Split { id, direction, children } => {
            let ghost list = node.model()->children;
            let name: &str = if *direction == 1 {
                "left-right"
            } else if *direction == 2 {
                "top-bottom"
            } else {
                "unspecified"
            };
            let mut below: Vec<Json> = Vec::new();
            let mut ratios: Vec<Json> = Vec::new();
            let mut i: usize = 0;
            while i < children.len()
                invariant
                    i <= children.len(),
                    below.len() == i,
                    ratios.len() == i,
                    *node matches WireNode::Split { id: _, direction: _, children: all } && all
                        == children,
                    list == node.model()->children,
                    list.len() == children.len(),
                    forall|j: int| 0 <= j < i ==> (#[trigger] below@[j])@ == node_json(list[j].0),
                    forall|j: int|
                        0 <= j < i ==> (#[trigger] ratios@[j])@ == JsonModel::Product(list[j].1),
                decreases children.len() - i,
            {
                let child: &WireChild = &children[i];
                proof {
                    assert(decreases_to!(*node => children@[i as int].node));
                    assert(list[i as int] == (child.node.model(), child.factors@));
                }
                let shown: Json = layout_node_json(&child.node);
                below.push(shown);
                ratios.push(Json::Product(copy_factors(&child.factors)));
                i = i + 1;
            }
            let shown = Json::List(below);
            let shares = Json::List(ratios);
            proof {
                json::lemma_parts(shown);
                json::lemma_parts(shares);
                let told = node_json(node.model())->Object_0;
                assert(told[2].1->List_0 =~= json::values(below@));
                assert(told[3].1->List_0 =~= json::values(ratios@));
            }
            let mut members: Vec<Member> = Vec::new();
            members.push(entry("id", Json::Text(id.clone())));
            members.push(entry("direction", Json::Text(name.to_owned())));
            members.push(entry("children", shown));
            members.push(entry("ratios", shares));
            let value = Json::Object(members);
            proof {
                json::lemma_parts(value);
                assert(json::members_of(members@) =~= node_json(node.model())->Object_0);
            }
            value
        },
    }
}

/// A layout as extensions see it.
pub open spec fn tree_json(tree: WireTree) -> JsonModel {
    JsonModel::Object(
        seq![
            (
                "root"@,
                match tree.root {
                    Some(node) => node_json(node.model()),
                    None => JsonModel::Null,
                },
            ),
        ],
    )
}

/// Tells a layout.
pub fn layout_json(tree: &WireTree) -> (value: Json)
    ensures
        value@ == tree_json(*tree),
{
    let root: Json = match &tree.root {
        Some(node) => layout_node_json(node),
        None => Json::Null,
    };
    object1(entry("root", root))
}

/// An object of one text.
pub open spec fn one(key: Seq<char>, value: Seq<char>) -> JsonModel {
    JsonModel::Object(seq![(key, JsonModel::Text(value))])
}

/// An object of two texts.
pub open spec fn two(
    key: Seq<char>,
    value: Seq<char>,
    other_key: Seq<char>,
    other: Seq<char>,
) -> JsonModel {
    JsonModel::Object(seq![(key, JsonModel::Text(value)), (other_key, JsonModel::Text(other))])
}

/// Bytes as extensions see them.
pub open spec fn bytes_json(data: Seq<u8>) -> JsonModel {
    JsonModel::List(Seq::new(data.len(), |i: int| JsonModel::Whole(data[i] as u64)))
}

/// The name of what happened and what is told of it; nothing is told of some
/// things.
pub open spec fn event_told(event: ServerEvent) -> Option<(Seq<char>, JsonModel)> {
    match event {
        ServerEvent::PaneFocused { pane_id } => Some(("pane:focus"@, one("paneId"@, pane_id@))),
        ServerEvent::PaneTitleChanged { pane_id, title } => Some(
            ("pane:title"@, two("paneId"@, pane_id@, "title"@, title@)),
        ),
        ServerEvent::PaneAdded { pane_id, tab_id } => Some(
            ("pane:add"@, two("paneId"@, pane_id@, "tabId"@, tab_id@)),
        ),
        ServerEvent::PaneRemoved { pane_id, exit_code } => Some(
            (
                "pane:remove"@,
                JsonModel::Object(
                    seq![
                        ("paneId"@, JsonModel::Text(pane_id@)),
                        ("exitCode"@, host_answers::number_json(exit_code as int)),
                    ],
                ),
            ),
        ),
        ServerEvent::TabTitleChanged { tab_id, title } => Some(
            ("tab:title"@, two("tabId"@, tab_id@, "title"@, title@)),
        ),
        ServerEvent::SessionLayoutChanged { layout } => match layout {
            Some(tree) => Some(("session:layout"@, tree_json(tree))),
            None => None,
        },
        ServerEvent::WindowAdded { session_id, window_id } => Some(
            ("window:add"@, two("windowId"@, window_id@, "sessionId"@, session_id@)),
        ),
        ServerEvent::WindowRemoved { session_id, window_id } => Some(
            ("window:remove"@, two("windowId"@, window_id@, "sessionId"@, session_id@)),
        ),
        ServerEvent::PaneZoomed { pane_id, zoomed } => Some(
            (
                "pane:zoom"@,
                JsonModel::Object(
                    seq![
                        ("paneId"@, JsonModel::Text(pane_id@)),
                        ("zoomed"@, JsonModel::Bool(zoomed)),
                    ],
                ),
            ),
        ),
        ServerEvent::ShellIntegrationChanged { cwd } => Some(
            ("shell:integration"@, one("cwd"@, cwd@)),
        ),
        ServerEvent::PaneDirty { pane_id } => Some(("pane:dirty"@, one("paneId"@, pane_id@))),
        ServerEvent::PaneBell { pane_id } => Some(("pane:bell"@, one("paneId"@, pane_id@))),
        ServerEvent::PaneOutput { pane_id, data, output_sequence } => Some(
            (
                "pane:output"@,
                JsonModel::Object(
                    seq![
                        ("paneId"@, JsonModel::Text(pane_id@)),
                        ("data"@, bytes_json(data@)),
                        ("outputSequence"@, JsonModel::Whole(output_sequence)),
                    ],
                ),
            ),
        ),
        ServerEvent::ClipboardChanged => Some(("clipboard"@, JsonModel::Null)),
        ServerEvent::SyncScrollback
        | ServerEvent::ExtensionChrome
        | ServerEvent::PaneMedia
        | ServerEvent::PaneAction => None,
    }
}

fn tell_one(key: &str, value: &String) -> (told: Json)
    ensures
        told@ == one(key@, value@),
{
    object1(entry(key, Json::Text(value.clone())))
}

fn tell_two(key: &str, value: &String, other_key: &str, other: &String) -> (told: Json)
    ensures
        told@ == two(key@, value@, other_key@, other@),
{
    object2(entry(key, Json::Text(value.clone())), entry(other_key, Json::Text(other.clone())))
}

fn tell_bytes(data: &Vec<u8>) -> (told: Json)
    ensures
        told@ == bytes_json(data@),
{
    let mut items: Vec<Json> = Vec::new();
    let mut i: usize = 0;
    while i < data.len()
        invariant
            i <= data.len(),
            items.len() == i,
            forall|j: int|
                0 <= j < i ==> (#[trigger] items@[j])@ == JsonModel::Whole(data@[j] as u64),
        decreases data.len() - i,
    {
        items.push(Json::Whole(data[i] as u64));
        i = i + 1;
    }
    let told = Json::List(items);
    proof {
        json::lemma_parts(told);
        assert(json::values(items@) =~= bytes_json(data@)->List_0);
    }
    told
}

/// What extensions are told.
#[derive(Debug)]
pub struct ToldEvent {
    pub name: String,
    pub payload: Json,
}

/// What is told.
pub open spec fn told_model(told: Option<ToldEvent>) -> Option<(Seq<char>, JsonModel)> {
    match told {
        Some(event) => Some((event.name@, event.payload@)),
        None => None,
    }
}

/// Tells extensions what happened.
pub fn emit_notification(event: &ServerEvent) -> (told: Option<ToldEvent>)
    ensures
        told_model(told) == event_told(*event),
{
    let (name, payload): (&str, Json) = match event {
        ServerEvent::PaneFocused { pane_id } => ("pane:focus", tell_one("paneId", pane_id)),
        ServerEvent::PaneTitleChanged { pane_id, title } => (
            "pane:title",
            tell_two("paneId", pane_id, "title", title),
        ),
        ServerEvent::PaneAdded { pane_id, tab_id } => (
            "pane:add",
            tell_two("paneId", pane_id, "tabId", tab_id),
        ),
        ServerEvent::PaneRemoved { pane_id, exit_code } => (
            "pane:remove",
            object2(
                entry("paneId", Json::Text(pane_id.clone())),
                entry("exitCode", number_value(*exit_code)),
            ),
        ),
        ServerEvent::TabTitleChanged { tab_id, title } => (
            "tab:title",
            tell_two("tabId", tab_id, "title", title),
        ),
        ServerEvent::SessionLayoutChanged { layout } => match layout {
            Some(tree) => ("session:layout", layout_json(tree)),
            None => {
                return None;
            },
        },
        ServerEvent::WindowAdded { session_id, window_id } => (
            "window:add",
            tell_two("windowId", window_id, "sessionId", session_id),
        ),
        ServerEvent::WindowRemoved { session_id, window_id } => (
            "window:remove",
            tell_two("windowId", window_id, "sessionId", session_id),
        ),
        ServerEvent::PaneZoomed { pane_id, zoomed } => (
            "pane:zoom",
            object2(
                entry("paneId", Json::Text(pane_id.clone())),
                entry("zoomed", Json::Bool(*zoomed)),
            ),
        ),
        ServerEvent::ShellIntegrationChanged { cwd } => (
            "shell:integration",
            tell_one("cwd", cwd),
        ),
        ServerEvent::PaneDirty { pane_id } => ("pane:dirty", tell_one("paneId", pane_id)),
        ServerEvent::PaneBell { pane_id } => ("pane:bell", tell_one("paneId", pane_id)),
        ServerEvent::PaneOutput { pane_id, data, output_sequence } => (
            "pane:output",
            object3(
                entry("paneId", Json::Text(pane_id.clone())),
                entry("data", tell_bytes(data)),
                entry("outputSequence", Json::Whole(*output_sequence)),
            ),
        ),
        ServerEvent::ClipboardChanged => ("clipboard", Json::Null),
        ServerEvent::SyncScrollback
        | ServerEvent::ExtensionChrome
        | ServerEvent::PaneMedia
        | ServerEvent::PaneAction => {
            return None;
        },
    };
    Some(ToldEvent { name: name.to_owned(), payload })
}

/// Whether a value is an object with a member of this name and value.
pub open spec fn has_member(value: JsonModel, key: Seq<char>, member: JsonModel) -> bool {
    value matches JsonModel::Object(members) && members.contains((key, member))
}

/// What extensions are told of an event: each thing under its own name.
pub proof fn law_events_are_told_by_name(event: ServerEvent)
    ensures
        match event {
            ServerEvent::PaneFocused { pane_id } => event_told(event) matches Some((name, told))
                && name == "pane:focus"@ && has_member(told, "paneId"@, JsonModel::Text(pane_id@)),
            ServerEvent::PaneTitleChanged { pane_id, title } => event_told(event) matches Some(
                (name, told),
            ) && name == "pane:title"@ && has_member(told, "paneId"@, JsonModel::Text(pane_id@))
                && has_member(told, "title"@, JsonModel::Text(title@)),
            ServerEvent::PaneAdded { pane_id, tab_id } => event_told(event) matches Some(
                (name, told),
            ) && name == "pane:add"@ && has_member(told, "paneId"@, JsonModel::Text(pane_id@))
                && has_member(told, "tabId"@, JsonModel::Text(tab_id@)),
            ServerEvent::PaneRemoved { pane_id, exit_code } => event_told(event) matches Some(
                (name, told),
            ) && name == "pane:remove"@ && has_member(told, "paneId"@, JsonModel::Text(pane_id@))
                && has_member(told, "exitCode"@, host_answers::number_json(exit_code as int)),
            ServerEvent::TabTitleChanged { tab_id, title } => event_told(event) matches Some(
                (name, told),
            ) && name == "tab:title"@ && has_member(told, "tabId"@, JsonModel::Text(tab_id@))
                && has_member(told, "title"@, JsonModel::Text(title@)),
            ServerEvent::SessionLayoutChanged { layout } => match layout {
                Some(tree) => event_told(event) matches Some((name, told)) && name
                    == "session:layout"@ && told == tree_json(tree),
                None => event_told(event) is None,
            },
            ServerEvent::WindowAdded { session_id, window_id } => event_told(event) matches Some(
                (name, told),
            ) && name == "window:add"@ && has_member(
                told,
                "windowId"@,
                JsonModel::Text(window_id@),
            ) && has_member(told, "sessionId"@, JsonModel::Text(session_id@)),
            ServerEvent::WindowRemoved { session_id, window_id } => event_told(event) matches Some(
                (name, told),
            ) && name == "window:remove"@ && has_member(
                told,
                "windowId"@,
                JsonModel::Text(window_id@),
            ) && has_member(told, "sessionId"@, JsonModel::Text(session_id@)),
            ServerEvent::PaneZoomed { pane_id, zoomed } => event_told(event) matches Some(
                (name, told),
            ) && name == "pane:zoom"@ && has_member(told, "paneId"@, JsonModel::Text(pane_id@))
                && has_member(told, "zoomed"@, JsonModel::Bool(zoomed)),
            ServerEvent::ShellIntegrationChanged { cwd } => event_told(event) matches Some(
                (name, told),
            ) && name == "shell:integration"@ && has_member(told, "cwd"@, JsonModel::Text(cwd@)),
            ServerEvent::PaneDirty { pane_id } => event_told(event) matches Some((name, told))
                && name == "pane:dirty"@ && has_member(told, "paneId"@, JsonModel::Text(pane_id@)),
            ServerEvent::PaneBell { pane_id } => event_told(event) matches Some((name, told))
                && name == "pane:bell"@ && has_member(told, "paneId"@, JsonModel::Text(pane_id@)),
            ServerEvent::PaneOutput { pane_id, data, output_sequence } => event_told(
                event,
            ) matches Some((name, told)) && name == "pane:output"@ && has_member(
                told,
                "paneId"@,
                JsonModel::Text(pane_id@),
            ) && has_member(told, "data"@, bytes_json(data@)) && has_member(
                told,
                "outputSequence"@,
                JsonModel::Whole(output_sequence),
            ),
            ServerEvent::ClipboardChanged => event_told(event) matches Some((name, _)) && name
                == "clipboard"@,
            _ => event_told(event) is None,
        },
{
    match event_told(event) {
        Some((name, JsonModel::Object(members))) => {
            if members.len() > 0 {
                assert(members.contains(members[0]));
            }
            if members.len() > 1 {
                assert(members.contains(members[1]));
            }
            if members.len() > 2 {
                assert(members.contains(members[2]));
            }
        },
        _ => {},
    }
}

/// Bytes are told as numbers, in their order.
pub proof fn law_bytes_are_told_as_numbers(data: Seq<u8>, i: int)
    requires
        0 <= i < data.len(),
    ensures
        bytes_json(data) matches JsonModel::List(list) && list.len() == data.len() && list[i]
            == JsonModel::Whole(data[i] as u64),
{
}

/// A layout is told as it is on the wire: a pane with its two identifiers, a
/// split with its identifier and direction, and of each child what it is and its
/// share, at the same place.
pub proof fn law_layouts_are_told_as_on_the_wire(n: WireModel, i: int)
    ensures
        match n {
            WireModel::Pane { id, pane_id } => has_member(
                node_json(n),
                "id"@,
                JsonModel::Text(id),
            ) && has_member(node_json(n), "paneId"@, JsonModel::Text(pane_id)),
            WireModel::Split { id, direction, children } => {
                &&& has_member(node_json(n), "id"@, JsonModel::Text(id))
                &&& direction == 1 ==> has_member(
                    node_json(n),
                    "direction"@,
                    JsonModel::Text("left-right"@),
                )
                &&& direction == 2 ==> has_member(
                    node_json(n),
                    "direction"@,
                    JsonModel::Text("top-bottom"@),
                )
                &&& node_json(n) matches JsonModel::Object(members) && members.len() == 4
                    && members[2].0 == "children"@ && members[3].0 == "ratios"@ && (
                members[2].1 matches JsonModel::List(nodes) && nodes.len() == children.len() && (0
                    <= i < children.len() ==> nodes[i] == node_json(children[i].0))) && (
                members[3].1 matches JsonModel::List(shares) && shares.len() == children.len() && (0
                    <= i < children.len() ==> shares[i] == JsonModel::Product(children[i].1)))
            },
        },
{
    if let JsonModel::Object(members) = node_json(n) {
        assert(members.contains(members[0]));
        assert(members.contains(members[1]));
    }
}

} // verus!
