//! Which files a client may read: those below the directories of the sessions
//! that it is attached to.
use crate::numbers;
use crate::numbers::decimal_text;
use crate::protocol::RequestKind;
use crate::registry;
use crate::session;
use crate::session::{is_attached, Session, SessionModel};
use crate::text;
use crate::text::{around, joined, same_text};
use crate::text_order;
use vstd::prelude::*;
use vstd::string::*;

verus! {

/// A list of the parts of a path with one more; empty parts and dots are left
/// out.
pub open spec fn with_part(parts: Seq<Seq<char>>, part: Seq<char>) -> Seq<Seq<char>> {
    if part.len() == 0 || part == "."@ {
        parts
    } else {
        parts.push(part)
    }
}

/// The parts of a path that end with a separator, and what is behind the last
/// one.
pub open spec fn split_path(path: Seq<char>) -> (Seq<Seq<char>>, Seq<char>)
    decreases path.len(),
{
    if path.len() == 0 {
        (Seq::empty(), Seq::empty())
    } else {
        let before = split_path(path.drop_last());
        if path.last() == '/' {
            (with_part(before.0, before.1), Seq::empty())
        } else {
            (before.0, before.1.push(path.last()))
        }
    }
}

/// The parts of a path.
pub open spec fn parts_of(path: Seq<char>) -> Seq<Seq<char>> {
    let split = split_path(path);
    with_part(split.0, split.1)
}

fn add_part(parts: &mut Vec<String>, part: &str)
    ensures
        text::texts(final(parts)@) == with_part(text::texts(old(parts)@), part@),
{
    if part.is_empty() || same_text(part, ".") {
        return;
    }
    let ghost before = parts@;
    let own: String = part.to_owned();
    proof {
        text::lemma_texts_push(before, own);
    }
    parts.push(own);
}

/// Takes a path apart.
pub fn path_parts(path: &str) -> (parts: Vec<String>)
    ensures
        text::texts(parts@) == parts_of(path@),
{
    let length: usize = path.unicode_len();
    let mut parts: Vec<String> = Vec::new();
    let mut start: usize = 0;
    let mut i: usize = 0;
    proof {
        assert(text::texts(parts@) =~= Seq::<Seq<char>>::empty());
        assert(path@.take(0) =~= Seq::<char>::empty());
        assert(path@.subrange(0, 0) =~= Seq::<char>::empty());
    }
    while i < length
        invariant
            start <= i <= length,
            length == path@.len(),
            split_path(path@.take(i as int)) == (
                text::texts(parts@),
                path@.subrange(start as int, i as int),
            ),
        decreases length - i,
    {
        proof {
            assert(path@.take(i + 1).drop_last() =~= path@.take(i as int));
            assert(path@.take(i + 1).last() == path@[i as int]);
        }
        if path.get_char(i) == '/' {
            add_part(&mut parts, path.substring_char(start, i));
            start = i + 1;
            assert(path@.subrange(i + 1, i + 1) =~= Seq::<char>::empty());
        } else {
            assert(path@.subrange(start as int, i + 1) =~= path@.subrange(
                start as int,
                i as int,
            ).push(path@[i as int]));
        }
        i = i + 1;
    }
    assert(path@.take(i as int) =~= path@);
    add_part(&mut parts, path.substring_char(start, length));
    parts
}

/// Why a path is refused.
#[derive(Clone, Copy, Debug, PartialEq, Eq, Structural)]
pub enum PathError {
    Empty,
    /// It goes up.
    ParentTraversal,
    /// It leads out of the directory.
    Escapes,
    /// The client is attached to no session.
    NotAttached,
}

impl PathError {
    /// Says why a path is refused.
    pub fn message(&self) -> (message: String)
        ensures
            message@ == path_error_text(*self),
    {
        match self {
            PathError::Empty => "path is empty".to_owned(),
            PathError::ParentTraversal => "path may not contain parent traversal".to_owned(),
            PathError::Escapes => "path escapes session cwd".to_owned(),
            PathError::NotAttached => "file access requires an attached session".to_owned(),
        }
    }
}

/// What is said of an error.
pub open spec fn path_error_text(error: PathError) -> Seq<char> {
    match error {
        PathError::Empty => "path is empty"@,
        PathError::ParentTraversal => "path may not contain parent traversal"@,
        PathError::Escapes => "path escapes session cwd"@,
        PathError::NotAttached => "file access requires an attached session"@,
    }
}

/// What is said of a path that is below no directory of a client, and why.
pub open spec fn outside_text(requested: Seq<char>, reason: Seq<char>) -> Seq<char> {
    "path is outside the attached session worktree: "@ + requested + ": "@ + reason
}

/// Says why a path was found below no directory of a client.
pub fn outside_refusal(requested: &str, reason: &str) -> (message: String)
    ensures
        message@ == outside_text(requested@, reason@),
{
    let head: String = around("path is outside the attached session worktree: ", requested, ": ");
    joined(head.as_str(), reason)
}

/// Says why a path that a client asked for is refused.
pub fn scope_refusal(error: PathError, requested: &str) -> (message: String)
    ensures
        message@ == if error is NotAttached {
            path_error_text(error)
        } else {
            outside_text(requested@, path_error_text(error))
        },
{
    let reason: String = error.message();
    match error {
        PathError::NotAttached => reason,
        _ => outside_refusal(requested, reason.as_str()),
    }
}

/// What comes before what is said of a file.
pub open spec fn file_error_head(kind: RequestKind) -> Seq<char> {
    match kind {
        RequestKind::ReadFile => "read_file: "@,
        RequestKind::ListDir => "list_dir: "@,
        RequestKind::StatFile => "stat_file: "@,
        RequestKind::DeclineFileVersion => "decline_file_version: "@,
        _ => ""@,
    }
}

/// Says why a request on a file failed.
pub fn file_error(kind: RequestKind, reason: &str) -> (message: String)
    ensures
        message@ == file_error_head(kind) + reason@,
{
    let head: &str = match kind {
        RequestKind::ReadFile => "read_file: ",
        RequestKind::ListDir => "list_dir: ",
        RequestKind::StatFile => "stat_file: ",
        RequestKind::DeclineFileVersion => "decline_file_version: ",
        _ => "",
    };
    joined(head, reason)
}

/// Gives the content of a version of a file, where there is such a version.
pub fn version_content(version_id: u64, content: Option<Vec<u8>>) -> (result: Result<
    Vec<u8>,
    String,
>)
    ensures
        match result {
            Ok(bytes) => content == Some(bytes),
            Err(message) => content is None && message@ == "shadow version not found: "@
                + numbers::digits_of(version_id as nat),
        },
{
    match content {
        Some(bytes) => Ok(bytes),
        None => Err(joined("shadow version not found: ", decimal_text(version_id).as_str())),
    }
}

/// The path that is meant, below a directory where it does not begin at the
/// root; a path that goes up is refused.
pub open spec fn candidate(root: Seq<char>, requested: Seq<char>) -> Result<
    Seq<Seq<char>>,
    PathError,
> {
    if requested.len() == 0 {
        Err(PathError::Empty)
    } else if parts_of(requested).contains(".."@) {
        Err(PathError::ParentTraversal)
    } else if requested[0] == '/' {
        Ok(parts_of(requested))
    } else {
        Ok(parts_of(root) + parts_of(requested))
    }
}

/// What a result holds.
pub open spec fn parts_result(result: Result<Vec<String>, PathError>) -> Result<
    Seq<Seq<char>>,
    PathError,
> {
    match result {
        Ok(parts) => Ok(text::texts(parts@)),
        Err(e) => Err(e),
    }
}

/// Finds the path that is meant, before anything is looked at.
pub fn candidate_path(root: &str, requested: &str) -> (result: Result<Vec<String>, PathError>)
    ensures
        parts_result(result) == candidate(root@, requested@),
{
    if requested.is_empty() {
        return Err(PathError::Empty);
    }
    let parts: Vec<String> = path_parts(requested);
    if text::contains_text(&parts, "..") {
        return Err(PathError::ParentTraversal);
    }
    if requested.get_char(0) == '/' {
        return Ok(parts);
    }
    let mut all: Vec<String> = path_parts(root);
    let mut rest: Vec<String> = parts;
    let ghost head = all@;
    let ghost tail = rest@;
    all.append(&mut rest);
    assert(text::texts(all@) =~= text::texts(head) + text::texts(tail));
    Ok(all)
}

/// Whether a list begins with another one.
pub open spec fn below(parts: Seq<Seq<char>>, root: Seq<Seq<char>>) -> bool {
    parts.len() >= root.len() && parts.take(root.len() as int) == root
}

/// The path that is meant, given how many of its parts exist and where they
/// really lead: it must not lead out of the directory.
pub open spec fn resolved(
    root: Seq<char>,
    meant: Seq<Seq<char>>,
    existing: int,
    actual: Seq<char>,
) -> Result<Seq<Seq<char>>, PathError> {
    if !below(parts_of(actual), parts_of(root)) {
        Err(PathError::Escapes)
    } else {
        Ok(parts_of(actual) + meant.skip(existing))
    }
}

fn is_below(parts: &Vec<String>, root: &Vec<String>) -> (yes: bool)
    ensures
        yes == below(text::texts(parts@), text::texts(root@)),
{
    let ghost all = text::texts(parts@);
    let ghost start = text::texts(root@);
    if parts.len() < root.len() {
        return false;
    }
    let mut i: usize = 0;
    while i < root.len()
        invariant
            i <= root.len() <= parts.len(),
            all == text::texts(parts@),
            start == text::texts(root@),
            forall|j: int| 0 <= j < i ==> all[j] == start[j],
        decreases root.len() - i,
    {
        assert(all[i as int] == parts@[i as int]@ && start[i as int] == root@[i as int]@);
        if !same_text(parts[i].as_str(), root[i].as_str()) {
            assert(all.take(start.len() as int)[i as int] != start[i as int]);
            return false;
        }
        i = i + 1;
    }
    assert(all.take(start.len() as int) =~= start);
    true
}

/// Finds the path that is meant, given the directory, how many of the parts of
/// the path exist, and where these really lead.
pub fn resolve_path_within_root(
    root: &str,
    meant: &Vec<String>,
    existing: usize,
    actual: &str,
) -> (result: Result<Vec<String>, PathError>)
    requires
        existing <= meant@.len(),
    ensures
        parts_result(result) == resolved(root@, text::texts(meant@), existing as int, actual@),
{
    let mut parts: Vec<String> = path_parts(actual);
    let start: Vec<String> = path_parts(root);
    if !is_below(&parts, &start) {
        return Err(PathError::Escapes);
    }
    let ghost actual_parts = text::texts(parts@);
    let ghost meant_parts = text::texts(meant@);
    let mut i: usize = existing;
    assert(meant_parts.subrange(existing as int, existing as int) =~= Seq::<Seq<char>>::empty());
    while i < meant.len()
        invariant
            existing <= i <= meant.len(),
            meant_parts == text::texts(meant@),
            text::texts(parts@) == actual_parts + meant_parts.subrange(existing as int, i as int),
        decreases meant.len() - i,
    {
        let part: String = meant[i].clone();
        proof {
            text::lemma_texts_push(parts@, part);
            assert(meant_parts.subrange(existing as int, i + 1) =~= meant_parts.subrange(
                existing as int,
                i as int,
            ).push(meant_parts[i as int]));
        }
        parts.push(part);
        i = i + 1;
        assert(text::texts(parts@) =~= actual_parts + meant_parts.subrange(
            existing as int,
            i as int,
        ));
    }
    assert(meant_parts.subrange(existing as int, i as int) =~= meant_parts.skip(existing as int));
    Ok(parts)
}

/// A path that is let through lies below the directory and does not go up
/// behind the parts that exist.
pub proof fn law_paths_stay_inside(
    root: Seq<char>,
    requested: Seq<char>,
    existing: int,
    actual: Seq<char>,
)
    requires
        candidate(root, requested) is Ok,
        0 <= existing <= candidate(root, requested)->Ok_0.len(),
        resolved(root, candidate(root, requested)->Ok_0, existing, actual) is Ok,
        requested[0] == '/' || existing >= parts_of(root).len(),
    ensures
        ({
            let meant = candidate(root, requested)->Ok_0;
            let path = resolved(root, meant, existing, actual)->Ok_0;
            &&& below(path, parts_of(root))
            &&& path == parts_of(actual) + meant.skip(existing)
            &&& forall|i: int|
                existing <= i < meant.len() ==> (#[trigger] meant[i]) != ".."@
        }),
{
    let meant = candidate(root, requested)->Ok_0;
    let path = resolved(root, meant, existing, actual)->Ok_0;
    assert(path.take(parts_of(root).len() as int) =~= parts_of(actual).take(
        parts_of(root).len() as int,
    ));
    assert forall|i: int| existing <= i < meant.len() implies (#[trigger] meant[i]) != ".."@ by {
        let own = parts_of(requested);
        if requested[0] == '/' {
            assert(own.contains(meant[i]));
        } else {
            assert(meant[i] == own[i - parts_of(root).len()]);
            assert(own.contains(meant[i]));
        }
    }
}

/// The text of a path that begins at the root.
pub open spec fn path_text(parts: Seq<Seq<char>>) -> Seq<char>
    decreases parts.len(),
{
    if parts.len() == 0 {
        Seq::empty()
    } else {
        path_text(parts.drop_last()) + seq!['/'] + parts.last()
    }
}

/// Puts a path that begins at the root together.
pub fn join_parts(parts: &Vec<String>) -> (path: String)
    ensures
        path@ == if parts@.len() == 0 {
            "/"@
        } else {
            path_text(text::texts(parts@))
        },
{
    if parts.len() == 0 {
        return "/".to_owned();
    }
    let ghost all = text::texts(parts@);
    let mut path: String = String::new();
    let mut i: usize = 0;
    assert(all.take(0) =~= Seq::<Seq<char>>::empty());
    while i < parts.len()
        invariant
            i <= parts.len(),
            all == text::texts(parts@),
            path@ == path_text(all.take(i as int)),
        decreases parts.len() - i,
    {
        proof {
            reveal_strlit("/");
            assert("/"@ =~= seq!['/']);
            assert(all.take(i + 1).drop_last() =~= all.take(i as int));
            assert(all.take(i + 1).last() == parts@[i as int]@);
        }
        path.append("/");
        path.append(parts[i].as_str());
        i = i + 1;
    }
    assert(all.take(i as int) =~= all);
    path
}

/// The directories of the sessions that a client is attached to.
pub open spec fn scopes_of(r: Seq<SessionModel>, client: Seq<char>) -> Seq<Seq<char>>
    decreases r.len(),
{
    if r.len() == 0 {
        Seq::empty()
    } else {
        let before = scopes_of(r.drop_last(), client);
        if session::has_client(r.last().clients, client) {
            before.push(r.last().cwd)
        } else {
            before
        }
    }
}

/// Finds the directories below which a client may read.
pub fn session_file_scopes(sessions: &Vec<Session>, client_id: &Option<String>) -> (scopes: Vec<
    String,
>)
    ensures
        text::texts(scopes@) == match text::optional(*client_id) {
            Some(client) => scopes_of(registry::registry(sessions@), client),
            None => Seq::empty(),
        },
{
    let mut scopes: Vec<String> = Vec::new();
    let ghost r = registry::registry(sessions@);
    proof {
        assert(text::texts(scopes@) =~= Seq::<Seq<char>>::empty());
        assert(r.take(0) =~= Seq::<SessionModel>::empty());
    }
    match client_id {
        None => {},
        Some(client) => {
            let mut i: usize = 0;
            while i < sessions.len()
                invariant
                    i <= sessions.len(),
                    r == registry::registry(sessions@),
                    text::texts(scopes@) == scopes_of(r.take(i as int), client@),
                decreases sessions.len() - i,
            {
                proof {
                    assert(r.take(i + 1).drop_last() =~= r.take(i as int));
                    assert(r.take(i + 1).last() == sessions@[i as int]@);
                }
                if is_attached(&sessions[i].attached_clients, client.as_str()) {
                    let cwd: String = sessions[i].cwd.clone();
                    proof {
                        text::lemma_texts_push(scopes@, cwd);
                    }
                    scopes.push(cwd);
                }
                i = i + 1;
            }
            assert(r.take(i as int) =~= r);
        },
    }
    scopes
}

/// What came of looking for a path below one directory after the other.
#[derive(Debug)]
pub struct ScopeSearch {
    pub scopes: Vec<String>,
    pub next: usize,
    pub last_error: PathError,
}

/// What to do next about a path.
#[derive(Debug)]
pub enum ScopeStep {
    /// Look below a directory.
    Look(String),
    /// Refuse it.
    Refuse(PathError),
}

impl ScopeSearch {
    /// Nothing has been looked at yet. Where there is no directory, the path is
    /// refused.
    pub fn new(scopes: Vec<String>) -> (search: ScopeSearch)
        ensures
            search.scopes == scopes,
            search.next == 0,
            search.last_error == PathError::NotAttached,
    {
        ScopeSearch { scopes, next: 0, last_error: PathError::NotAttached }
    }

    /// What to do next: look below the next directory, or refuse the path for
    /// the reason for which it was refused last.
    pub fn step(&mut self) -> (step: ScopeStep)
        ensures
            final(self).scopes == old(self).scopes,
            final(self).last_error == old(self).last_error,
            old(self).next < old(self).scopes@.len() ==> {
                &&& final(self).next == old(self).next + 1
                &&& step matches ScopeStep::Look(dir) && dir@ == old(
                    self,
                ).scopes@[old(self).next as int]@
            },
            old(self).next >= old(self).scopes@.len() ==> {
                &&& final(self).next == old(self).next
                &&& step matches ScopeStep::Refuse(e) && e == old(self).last_error
            },
    {
        if self.next < self.scopes.len() {
            let dir: String = self.scopes[self.next].clone();
            self.next = self.next + 1;
            ScopeStep::Look(dir)
        } else {
            ScopeStep::Refuse(self.last_error)
        }
    }

    /// Notes that a path was refused.
    pub fn refused(&mut self, error: PathError)
        ensures
            final(self).last_error == error,
            final(self).scopes == old(self).scopes,
            final(self).next == old(self).next,
    {
        self.last_error = error;
    }
}

/// A client that is attached to no session has no directory to read below.
pub proof fn law_strangers_read_nothing(r: Seq<SessionModel>, client: Seq<char>)
    requires
        forall|i: int|
            0 <= i < r.len() ==> !session::has_client((#[trigger] r[i]).clients, client),
    ensures
        scopes_of(r, client) == Seq::<Seq<char>>::empty(),
    decreases r.len(),
{
    if r.len() > 0 {
        let init = r.drop_last();
        assert forall|i: int| 0 <= i < init.len() implies !session::has_client(
            (#[trigger] init[i]).clients,
            client,
        ) by {
            assert(init[i] == r[i]);
        }
        assert(r.last() == r[r.len() - 1]);
        law_strangers_read_nothing(init, client);
    }
}

/// What is known of a file: whether it is a directory, and its size.
#[derive(Clone, Copy, Debug, PartialEq, Eq, Structural)]
pub struct FileFacts {
    pub is_dir: bool,
    pub size: u64,
}

/// An entry of a directory.
#[derive(Debug)]
pub struct DirEntry {
    pub name: String,
    pub is_dir: bool,
    pub size: u64,
    /// Whether versions of the file were recorded.
    pub is_modified: bool,
}

/// An entry of a directory.
pub struct EntryModel {
    pub name: Seq<char>,
    pub is_dir: bool,
    pub size: u64,
    pub is_modified: bool,
}

impl View for DirEntry {
    type V = EntryModel;

    open spec fn view(&self) -> EntryModel {
        EntryModel {
            name: self.name@,
            is_dir: self.is_dir,
            size: self.size,
            is_modified: self.is_modified,
        }
    }
}

/// Makes an entry of what is known of the target of a file or, where that is
/// gone, of the link itself. Where nothing is known there is no entry.
pub fn dir_entry(
    name: String,
    target: Option<FileFacts>,
    link: Option<FileFacts>,
    has_versions: bool,
) -> (entry: Option<DirEntry>)
    ensures
        ({
            let facts = if target is Some {
                target
            } else {
                link
            };
            match entry {
                Some(entry) => facts is Some && entry@ == (EntryModel {
                    name: name@,
                    is_dir: facts->0.is_dir,
                    size: facts->0.size,
                    is_modified: !facts->0.is_dir && has_versions,
                }),
                None => facts is None,
            }
        }),
{
    let facts: FileFacts = match target {
        Some(facts) => facts,
        None => match link {
            Some(facts) => facts,
            None => {
                return None;
            },
        },
    };
    Some(
        DirEntry {
            name,
            is_dir: facts.is_dir,
            size: facts.size,
            is_modified: !facts.is_dir && has_versions,
        },
    )
}

/// Whether an entry does not come after another one: directories come first,
/// then the names count.
pub open spec fn not_after(a: EntryModel, b: EntryModel) -> bool {
    if a.is_dir != b.is_dir {
        a.is_dir
    } else {
        text_order::not_after(a.name, b.name, 0)
    }
}

fn in_order(a: &DirEntry, b: &DirEntry) -> (yes: bool)
    ensures
        yes == not_after(a@, b@),
{
    if a.is_dir != b.is_dir {
        a.is_dir
    } else {
        text_order::in_order(a.name.as_str(), b.name.as_str())
    }
}

/// What a list of entries holds.
pub open spec fn entry_models(entries: Seq<DirEntry>) -> Seq<EntryModel> {
    entries.map_values(|e: DirEntry| e@)
}

/// A sorted list with one more entry, behind those that do not come after it.
pub open spec fn inserted(sorted: Seq<EntryModel>, entry: EntryModel) -> Seq<EntryModel>
    decreases sorted.len(),
{
    if sorted.len() == 0 || not_after(sorted.last(), entry) {
        sorted.push(entry)
    } else {
        inserted(sorted.drop_last(), entry).push(sorted.last())
    }
}

/// A list in order; entries that go by the same name stay as they were.
pub open spec fn in_listing_order(entries: Seq<EntryModel>) -> Seq<EntryModel>
    decreases entries.len(),
{
    if entries.len() == 0 {
        Seq::empty()
    } else {
        inserted(in_listing_order(entries.drop_last()), entries.last())
    }
}

/// Two lists in order as one; of entries that go by the same name those of the
/// first list come first.
pub open spec fn merged(first: Seq<EntryModel>, second: Seq<EntryModel>) -> Seq<EntryModel>
    decreases first.len() + second.len(),
{
    if first.len() == 0 {
        second
    } else if second.len() == 0 {
        first
    } else if not_after(first.last(), second.last()) {
        merged(first, second.drop_last()).push(second.last())
    } else {
        merged(first.drop_last(), second).push(first.last())
    }
}

/// One more entry goes into two lists as it goes into the second.
proof fn lemma_inserted_merged(
    first: Seq<EntryModel>,
    second: Seq<EntryModel>,
    entry: EntryModel,
)
    ensures
        inserted(merged(first, second), entry) == merged(first, inserted(second, entry)),
    decreases first.len() + second.len(),
{
    let more = inserted(second, entry);
    if first.len() > 0 {
        let a = first.last();
        let init = first.drop_last();
        if second.len() == 0 || not_after(second.last(), entry) {
            assert(more.drop_last() =~= second);
            if second.len() > 0 {
                lemma_entry_order(a, second.last(), entry);
            }
            if !not_after(a, entry) {
                lemma_inserted_merged(init, second, entry);
                if second.len() == 0 {
                    assert(merged(init, second) =~= init);
                } else {
                    assert(merged(first, second).drop_last() =~= merged(init, second));
                }
            }
        } else {
            let b = second.last();
            assert(more.drop_last() =~= inserted(second.drop_last(), entry));
            if not_after(a, b) {
                lemma_inserted_merged(first, second.drop_last(), entry);
                assert(merged(first, second).drop_last() =~= merged(first, second.drop_last()));
            } else {
                lemma_entry_order(a, b, b);
                lemma_entry_order(b, a, entry);
                lemma_inserted_merged(init, second, entry);
                assert(merged(first, second).drop_last() =~= merged(init, second));
            }
        }
    }
}

/// Two parts of a list, each put in order, make up the list in order.
proof fn lemma_merged_in_order(first: Seq<EntryModel>, second: Seq<EntryModel>)
    ensures
        in_listing_order(first + second) == merged(
            in_listing_order(first),
            in_listing_order(second),
        ),
    decreases second.len(),
{
    if second.len() == 0 {
        assert(first + second =~= first);
    } else {
        let init = second.drop_last();
        assert((first + second).drop_last() =~= first + init);
        lemma_merged_in_order(first, init);
        lemma_inserted_merged(in_listing_order(first), in_listing_order(init), second.last());
    }
}

/// Makes one list of two.
fn merge_entries(first: Vec<DirEntry>, second: Vec<DirEntry>) -> (list: Vec<DirEntry>)
    ensures
        entry_models(list@) == merged(entry_models(first@), entry_models(second@)),
{
    let mut a: Vec<DirEntry> = first;
    let mut b: Vec<DirEntry> = second;
    let mut taken: Vec<DirEntry> = Vec::new();
    let ghost all = merged(entry_models(a@), entry_models(b@));
    assert(all =~= all + entry_models(taken@).reverse());
    while a.len() > 0 && b.len() > 0
        invariant
            all == merged(entry_models(a@), entry_models(b@)) + entry_models(taken@).reverse(),
        decreases a.len() + b.len(),
    {
        let ghost left = entry_models(a@);
        let ghost right = entry_models(b@);
        let ghost behind = entry_models(taken@);
        let from_second: bool = in_order(&a[a.len() - 1], &b[b.len() - 1]);
        assert(left.last() == a@.last()@ && right.last() == b@.last()@);
        let last: Option<DirEntry> = if from_second {
            b.pop()
        } else {
            a.pop()
        };
        proof {
            if from_second {
                assert(entry_models(b@) =~= right.drop_last());
            } else {
                assert(entry_models(a@) =~= left.drop_last());
            }
        }
        if let Some(entry) = last {
            taken.push(entry);
            assert(entry_models(taken@) =~= behind.push(entry@));
            assert(merged(left, right) + behind.reverse() =~= merged(
                entry_models(a@),
                entry_models(b@),
            ) + entry_models(taken@).reverse());
        }
    }
    let ghost rest = merged(entry_models(a@), entry_models(b@));
    a.append(&mut b);
    assert(entry_models(a@) =~= rest);
    while taken.len() > 0
        invariant
            all == entry_models(a@) + entry_models(taken@).reverse(),
        decreases taken.len(),
    {
        let ghost before = entry_models(a@);
        let ghost behind = entry_models(taken@);
        if let Some(entry) = taken.pop() {
            assert(entry_models(taken@) =~= behind.drop_last());
            a.push(entry);
            assert(entry_models(a@) =~= before.push(entry@));
            assert(before + behind.reverse() =~= entry_models(a@) + entry_models(
                taken@,
            ).reverse());
        }
    }
    assert(all =~= entry_models(a@));
    a
}

/// Puts the entries of a directory in order: directories first, then by name.
/// Halves are put in order first and then made one.
pub fn sort_entries(entries: Vec<DirEntry>) -> (sorted: Vec<DirEntry>)
    ensures
        entry_models(sorted@) == in_listing_order(entry_models(entries@)),
    decreases entries@.len(),
{
    let mut first: Vec<DirEntry> = entries;
    let ghost all = entry_models(first@);
    if first.len() < 2 {
        proof {
            if all.len() == 1 {
                assert(in_listing_order(all.drop_last()) =~= Seq::<EntryModel>::empty());
                assert(in_listing_order(all) =~= all);
            } else {
                assert(in_listing_order(all) =~= all);
            }
        }
        return first;
    }
    let half: usize = first.len() / 2;
    let second: Vec<DirEntry> = first.split_off(half);
    proof {
        assert(all =~= entry_models(first@) + entry_models(second@));
        lemma_merged_in_order(entry_models(first@), entry_models(second@));
    }
    merge_entries(sort_entries(first), sort_entries(second))
}

/// Whether a list is in order.
pub open spec fn is_listed(entries: Seq<EntryModel>) -> bool {
    forall|i: int, j: int|
        0 <= i < j < entries.len() ==> not_after(#[trigger] entries[i], #[trigger] entries[j])
}

proof fn lemma_entry_order(a: EntryModel, b: EntryModel, c: EntryModel)
    ensures
        not_after(a, b) || not_after(b, a),
        not_after(a, b) && not_after(b, c) ==> not_after(a, c),
{
    text_order::lemma_not_after(a.name, b.name, c.name, 0);
}

proof fn lemma_inserted(sorted: Seq<EntryModel>, entry: EntryModel)
    requires
        is_listed(sorted),
    ensures
        is_listed(inserted(sorted, entry)),
        inserted(sorted, entry).to_multiset() == sorted.push(entry).to_multiset(),
        inserted(sorted, entry).len() == sorted.len() + 1,
        forall|other: EntryModel|
            inserted(sorted, entry).contains(other) ==> sorted.contains(other) || other == entry,
    decreases sorted.len(),
{
    broadcast use vstd::seq_lib::group_to_multiset_ensures;

    let after = inserted(sorted, entry);
    if sorted.len() == 0 || not_after(sorted.last(), entry) {
        assert forall|i: int, j: int| 0 <= i < j < after.len() implies not_after(
            #[trigger] after[i],
            #[trigger] after[j],
        ) by {
            if j == sorted.len() {
                if i < sorted.len() - 1 {
                    assert(not_after(sorted[i], sorted[sorted.len() - 1]));
                    lemma_entry_order(sorted[i], sorted.last(), entry);
                }
            }
        }
        assert forall|other: EntryModel| after.contains(other) implies sorted.contains(other)
            || other == entry by {
            let i = choose|i: int| 0 <= i < after.len() && after[i] == other;
            if i < sorted.len() {
                assert(sorted[i] == other);
            }
        }
    } else {
        let init = sorted.drop_last();
        let last = sorted.last();
        assert forall|i: int, j: int| 0 <= i < j < init.len() implies not_after(
            #[trigger] init[i],
            #[trigger] init[j],
        ) by {
            assert(not_after(sorted[i], sorted[j]));
        }
        lemma_inserted(init, entry);
        let part = inserted(init, entry);
        lemma_entry_order(last, entry, entry);
        assert forall|i: int, j: int| 0 <= i < j < after.len() implies not_after(
            #[trigger] after[i],
            #[trigger] after[j],
        ) by {
            if j < part.len() {
                assert(not_after(part[i], part[j]));
            } else {
                assert(after[i] == part[i]);
                assert(part.contains(part[i]));
                assert(inserted(init, entry).contains(part[i]));
                if part[i] != entry {
                    assert(init.contains(part[i]));
                    let k = choose|k: int| 0 <= k < init.len() && init[k] == part[i];
                    assert(not_after(sorted[k], sorted[sorted.len() - 1]));
                }
            }
        }
        assert forall|other: EntryModel| after.contains(other) implies sorted.contains(other)
            || other == entry by {
            let i = choose|i: int| 0 <= i < after.len() && after[i] == other;
            if i < part.len() {
                assert(part[i] == other);
                assert(inserted(init, entry).contains(other));
                if other != entry {
                    assert(init.contains(other));
                    let k = choose|k: int| 0 <= k < init.len() && init[k] == other;
                    assert(sorted[k] == other);
                }
            } else {
                assert(sorted[sorted.len() - 1] == other);
            }
        }
        assert(sorted =~= init.push(last));
        assert(after.to_multiset() =~= sorted.push(entry).to_multiset()) by {
            assert(after.to_multiset() =~= part.to_multiset().insert(last));
            assert(part.to_multiset() =~= init.push(entry).to_multiset());
            assert(init.push(entry).to_multiset() =~= init.to_multiset().insert(entry));
            assert(sorted.push(entry).to_multiset() =~= sorted.to_multiset().insert(entry));
            assert(sorted.to_multiset() =~= init.to_multiset().insert(last));
        }
    }
}

/// A listing is in order and has the same entries as the directory.
pub proof fn law_listings_are_in_order(entries: Seq<EntryModel>)
    ensures
        is_listed(in_listing_order(entries)),
        in_listing_order(entries).to_multiset() == entries.to_multiset(),
    decreases entries.len(),
{
    broadcast use vstd::seq_lib::group_to_multiset_ensures;

    if entries.len() > 0 {
        let init = entries.drop_last();
        law_listings_are_in_order(init);
        let part = in_listing_order(init);
        lemma_inserted(part, entries.last());
        assert(entries =~= init.push(entries.last()));
        assert(entries.to_multiset() =~= init.to_multiset().insert(entries.last()));
        assert(part.push(entries.last()).to_multiset() =~= part.to_multiset().insert(
            entries.last(),
        ));
    }
}

/// What is told of a file.
#[derive(Clone, Copy, Debug, PartialEq, Eq, Structural)]
pub struct FileStat {
    pub exists: bool,
    pub size: u64,
    pub is_dir: bool,
    pub modified_timestamp: u64,
}

/// Tells of a file what is known of it; nothing is told of one that is not
/// there.
pub fn stat_response(facts: Option<FileFacts>, modified: Option<u64>) -> (stat: FileStat)
    ensures
        stat == match facts {
            Some(f) => FileStat {
                exists: true,
                size: f.size,
                is_dir: f.is_dir,
                modified_timestamp: match modified {
                    Some(seconds) => seconds,
                    None => 0,
                },
            },
            None => FileStat { exists: false, size: 0, is_dir: false, modified_timestamp: 0 },
        },
{
    match facts {
        Some(f) => FileStat {
            exists: true,
            size: f.size,
            is_dir: f.is_dir,
            modified_timestamp: match modified {
                Some(seconds) => seconds,
                None => 0,
            },
        },
        None => FileStat { exists: false, size: 0, is_dir: false, modified_timestamp: 0 },
    }
}

proof fn lemma_split_append(a: Seq<char>, b: Seq<char>)
    requires
        !b.contains('/'),
    ensures
        split_path(a + b).0 == split_path(a).0,
        split_path(a + b).1 == split_path(a).1 + b,
    decreases b.len(),
{
    if b.len() == 0 {
        assert(a + b =~= a);
        assert(split_path(a).1 + b =~= split_path(a).1);
    } else {
        let init = b.drop_last();
        assert(!init.contains('/')) by {
            if init.contains('/') {
                let k = choose|k: int| 0 <= k < init.len() && init[k] == '/';
                assert(b[k] == '/');
            }
        }
        assert(b[b.len() - 1] != '/');
        lemma_split_append(a, init);
        assert((a + b).drop_last() =~= a + init);
        assert((a + b).last() == b.last());
        assert(split_path(a + b).1 =~= split_path(a).1 + b);
    }
}

/// Two paths joined by a slash have the parts of the one and then those of the
/// other.
pub proof fn law_joined_paths_have_both_parts(a: Seq<char>, b: Seq<char>)
    ensures
        parts_of(a + seq!['/'] + b) == parts_of(a) + parts_of(b),
    decreases b.len(),
{
    let all = a + seq!['/'] + b;
    lemma_joined_split(a, b);
    assert(parts_of(all) =~= parts_of(a) + parts_of(b));
}

proof fn lemma_joined_split(a: Seq<char>, b: Seq<char>)
    ensures
        split_path(a + seq!['/'] + b).0 == parts_of(a) + split_path(b).0,
        split_path(a + seq!['/'] + b).1 == split_path(b).1,
    decreases b.len(),
{
    let all = a + seq!['/'] + b;
    if b.len() == 0 {
        assert(all.drop_last() =~= a);
        assert(all.last() == '/');
        assert(split_path(b).0 =~= Seq::<Seq<char>>::empty());
        assert(split_path(all).0 =~= parts_of(a) + split_path(b).0);
    } else {
        lemma_joined_split(a, b.drop_last());
        assert(all.drop_last() =~= a + seq!['/'] + b.drop_last());
        assert(all.last() == b.last());
        assert(split_path(all).0 =~= parts_of(a) + split_path(b).0);
    }
}

/// A name without a slash is one part; an empty one and the dot are none. So the
/// parts of a path are the names between its slashes.
pub proof fn law_parts_are_the_names_between_slashes(name: Seq<char>)
    requires
        !name.contains('/'),
    ensures
        name.len() > 0 && name != "."@ ==> parts_of(name) == seq![name],
        name.len() == 0 || name == "."@ ==> parts_of(name).len() == 0,
{
    lemma_split_append(Seq::empty(), name);
    assert(Seq::<char>::empty() + name =~= name);
    assert(split_path(Seq::<char>::empty()).1 + name =~= name);
    if name.len() > 0 && name != "."@ {
        assert(parts_of(name) =~= seq![name]);
    }
}

/// Whether these can be the parts of a path.
pub open spec fn are_parts(parts: Seq<Seq<char>>) -> bool {
    forall|i: int|
        0 <= i < parts.len() ==> (#[trigger] parts[i]).len() > 0 && parts[i] != "."@
            && !parts[i].contains('/')
}

/// A path that is put together from parts has those parts.
pub proof fn law_paths_are_taken_apart_again(parts: Seq<Seq<char>>)
    requires
        are_parts(parts),
    ensures
        parts_of(path_text(parts)) == parts,
    decreases parts.len(),
{
    if parts.len() > 0 {
        let init = parts.drop_last();
        assert forall|i: int| 0 <= i < init.len() implies (#[trigger] init[i]).len() > 0 && init[i]
            != "."@ && !init[i].contains('/') by {
            assert(init[i] == parts[i]);
        }
        law_paths_are_taken_apart_again(init);
        assert(parts[parts.len() - 1] == parts.last());
        law_joined_paths_have_both_parts(path_text(init), parts.last());
        law_parts_are_the_names_between_slashes(parts.last());
        assert(init + seq![parts.last()] =~= parts);
    } else {
        law_parts_are_the_names_between_slashes(Seq::empty());
        assert(parts_of(path_text(parts)) =~= parts);
    }
}

/// A path that begins with a slash is meant as it is, any other below the root;
/// an empty path is refused, and so is one that goes up.
pub proof fn law_paths_are_meant_below_the_root(root: Seq<char>, requested: Seq<char>)
    ensures
        requested.len() == 0 ==> candidate(root, requested) == Err::<Seq<Seq<char>>, PathError>(
            PathError::Empty,
        ),
        requested.len() > 0 && parts_of(requested).contains(".."@) ==> candidate(root, requested)
            == Err::<Seq<Seq<char>>, PathError>(PathError::ParentTraversal),
        requested.len() > 0 && !parts_of(requested).contains(".."@) ==> candidate(root, requested)
            == Ok::<Seq<Seq<char>>, PathError>(
            if requested[0] == '/' {
                parts_of(requested)
            } else {
                parts_of(root + seq!['/'] + requested)
            },
        ),
{
    law_joined_paths_have_both_parts(root, requested);
}

/// A path that leads elsewhere than below the root is refused, and only that.
pub proof fn law_paths_elsewhere_are_refused(
    root: Seq<char>,
    meant: Seq<Seq<char>>,
    existing: int,
    actual: Seq<char>,
)
    ensures
        resolved(root, meant, existing, actual) is Ok <==> parts_of(root).is_prefix_of(
            parts_of(actual),
        ),
        resolved(root, meant, existing, actual) is Err ==> resolved(root, meant, existing, actual)
            == Err::<Seq<Seq<char>>, PathError>(PathError::Escapes),
{
    let parts = parts_of(actual);
    let n = parts_of(root).len() as int;
    if n <= parts.len() {
        assert(parts.subrange(0, n) =~= parts.take(n));
    }
}

/// The test for sessions that a client is attached to.
pub open spec fn attached_to(client: Seq<char>) -> spec_fn(SessionModel) -> bool {
    |s: SessionModel| session::has_client(s.clients, client)
}

/// A client reads below the directories of just the sessions that it is attached
/// to, in their order.
pub proof fn law_clients_read_where_they_are_attached(r: Seq<SessionModel>, client: Seq<char>)
    ensures
        ({
            let own = r.filter(attached_to(client));
            &&& scopes_of(r, client).len() == own.len()
            &&& forall|i: int|
                0 <= i < own.len() ==> #[trigger] scopes_of(r, client)[i] == own[i].cwd
        }),
    decreases r.len(),
{
    reveal(Seq::filter);
    if r.len() > 0 {
        let init = r.drop_last();
        law_clients_read_where_they_are_attached(init, client);
        let own = r.filter(attached_to(client));
        let before = init.filter(attached_to(client));
        let scopes = scopes_of(r, client);
        assert forall|i: int| 0 <= i < own.len() implies #[trigger] scopes[i] == own[i].cwd by {
            if i < before.len() {
                assert(scopes[i] == scopes_of(init, client)[i]);
                assert(own[i] == before[i]);
            }
        }
    }
}

/// In a listing the directories come first, and among themselves both
/// directories and files come in the order of their names.
pub proof fn law_directories_come_first(entries: Seq<EntryModel>, i: int, j: int)
    requires
        0 <= i < j < in_listing_order(entries).len(),
    ensures
        in_listing_order(entries)[j].is_dir ==> in_listing_order(entries)[i].is_dir,
        in_listing_order(entries)[i].is_dir == in_listing_order(entries)[j].is_dir
            ==> text_order::not_after(
            in_listing_order(entries)[i].name,
            in_listing_order(entries)[j].name,
            0,
        ),
{
    law_listings_are_in_order(entries);
    let listing = in_listing_order(entries);
    assert(not_after(listing[i], listing[j]));
}

/// What is said of a request on a file begins with the request, and what is said
/// of a path outside names the path and then the reason.
pub proof fn law_file_errors_name_the_request(requested: Seq<char>, error: PathError)
    ensures
        file_error_head(RequestKind::ReadFile) == "read_file: "@,
        file_error_head(RequestKind::ListDir) == "list_dir: "@,
        file_error_head(RequestKind::StatFile) == "stat_file: "@,
        file_error_head(RequestKind::DeclineFileVersion) == "decline_file_version: "@,
        path_error_text(PathError::Empty) == "path is empty"@,
        path_error_text(PathError::ParentTraversal) == "path may not contain parent traversal"@,
        path_error_text(PathError::Escapes) == "path escapes session cwd"@,
        path_error_text(PathError::NotAttached) == "file access requires an attached session"@,
        outside_text(requested, path_error_text(error))
            == "path is outside the attached session worktree: "@ + requested + ": "@
            + path_error_text(error),
{
}

} // verus!
