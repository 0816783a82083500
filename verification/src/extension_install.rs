//! What may be installed and run as an extension.
use crate::consent;
use crate::consent::{ledger_approves, RecordModel, ServerConsentRecord};
use crate::extension_manager::{SuspensionReason, WorkerEvent};
use crate::lines;
use crate::lines::trim;
use crate::numbers;
use crate::numbers::decimal_text;
use crate::text::{around, joined, same_text};
use crate::unicode::text_of_bytes;
use vstd::prelude::*;
use vstd::string::*;

verus! {

/// How large an archive that is installed may be.
pub const MAX_INSTALL_ARCHIVE_BYTES: u64 = 16_777_216;

/// How large what is in an archive may be.
pub const MAX_EXTRACTED_BYTES: u64 = 67_108_864;

/// How many bytes the name of an extension may have; it names a directory.
pub const MAX_EXTENSION_ID_LEN: usize = 128;

/// How many bytes the command of an action and its arguments may have.
pub const MAX_CHROME_ACTION_BYTES: usize = 1_048_576;

/// Whether a character is a control character.
pub open spec fn is_control(c: char) -> bool {
    (c as int) < 0x20 || 0x7f <= c as int <= 0x9f
}

/// Whether a character has no place in the name of a directory.
pub open spec fn is_unsafe(c: char) -> bool {
    c == '/' || c == '\\' || is_control(c)
}

/// What is wrong with the name of an extension.
pub open spec fn id_error(id: Seq<char>) -> Option<Seq<char>> {
    if id.len() == 0 {
        Some("extension id must not be empty"@)
    } else if vstd::utf8::encode_utf8(id).len() > MAX_EXTENSION_ID_LEN {
        Some(
            "extension id `"@ + id + "` exceeds "@ + numbers::digits_of(
                MAX_EXTENSION_ID_LEN as nat,
            ) + " bytes"@,
        )
    } else if id == "."@ || id == ".."@ {
        Some("extension id `"@ + id + "` is not a valid directory name"@)
    } else if exists|i: int| 0 <= i < id.len() && is_unsafe(#[trigger] id[i]) {
        Some("extension id `"@ + id + "` contains a path separator or control character"@)
    } else {
        None
    }
}

fn has_unsafe(id: &str) -> (found: bool)
    ensures
        found == exists|i: int| 0 <= i < id@.len() && is_unsafe(#[trigger] id@[i]),
{
    let length: usize = id.unicode_len();
    let mut i: usize = 0;
    while i < length
        invariant
            i <= length,
            length == id@.len(),
            forall|j: int| 0 <= j < i ==> !is_unsafe(#[trigger] id@[j]),
        decreases length - i,
    {
        let c: char = id.get_char(i);
        let code: u32 = c as u32;
        if c == '/' || c == '\\' || code < 0x20 || (0x7f <= code && code <= 0x9f) {
            assert(is_unsafe(id@[i as int]));
            return true;
        }
        i = i + 1;
    }
    false
}

/// What a result says.
pub open spec fn refusal<T>(result: Result<T, String>) -> Option<Seq<char>> {
    match result {
        Ok(_) => None,
        Err(message) => Some(message@),
    }
}

/// Refuses a name that does not name a directory of its own.
pub fn validate_extension_id(id: &str) -> (result: Result<(), String>)
    ensures
        refusal(result) == id_error(id@),
{
    if id.unicode_len() == 0 {
        return Err("extension id must not be empty".to_owned());
    }
    if id.as_bytes().len() > MAX_EXTENSION_ID_LEN {
        let head: String = around("extension id `", id, "` exceeds ");
        return Err(
            around(head.as_str(), decimal_text(MAX_EXTENSION_ID_LEN as u64).as_str(), " bytes"),
        );
    }
    if same_text(id, ".") || same_text(id, "..") {
        return Err(around("extension id `", id, "` is not a valid directory name"));
    }
    if has_unsafe(id) {
        return Err(
            around("extension id `", id, "` contains a path separator or control character"),
        );
    }
    Ok(())
}

/// A name that is accepted is a single step down from a directory.
pub proof fn law_accepted_names_are_single_steps(id: Seq<char>)
    requires
        id_error(id) is None,
    ensures
        id.len() > 0,
        id != "."@,
        id != ".."@,
        !id.contains('/'),
        !id.contains('\\'),
{
    if id.contains('/') {
        let i = choose|i: int| 0 <= i < id.len() && id[i] == '/';
        assert(is_unsafe(id[i]));
    }
    if id.contains('\\') {
        let i = choose|i: int| 0 <= i < id.len() && id[i] == '\\';
        assert(is_unsafe(id[i]));
    }
}

/// Where an extension runs.
#[derive(Clone, Copy, Debug, PartialEq, Eq, Structural)]
pub enum RuntimeSide {
    Client,
    Server,
    Both,
}

/// The name of a side.
pub open spec fn side_text(side: RuntimeSide) -> Seq<char> {
    match side {
        RuntimeSide::Client => "Client"@,
        RuntimeSide::Server => "Server"@,
        RuntimeSide::Both => "Both"@,
    }
}

impl RuntimeSide {
    /// Whether an extension of this side runs on the server.
    pub fn runs_on_server(self) -> (yes: bool)
        ensures
            yes == !(self is Client),
    {
        match self {
            RuntimeSide::Client => false,
            _ => true,
        }
    }

    fn name(self) -> (name: &'static str)
        ensures
            name@ == side_text(self),
    {
        match self {
            RuntimeSide::Client => "Client",
            RuntimeSide::Server => "Server",
            RuntimeSide::Both => "Both",
        }
    }
}

/// What of a manifest decides on an installation.
#[derive(Debug)]
pub struct ManifestFacts {
    pub id: String,
    pub side: RuntimeSide,
    pub fingerprint: String,
}

/// A request to install that may go on.
#[derive(Debug)]
pub struct InstallRequest {
    pub name: String,
    pub manifest_text: String,
}

/// What keeps a request to install from going on.
pub open spec fn request_error(
    name: Seq<char>,
    archive_bytes: nat,
    manifest: Seq<u8>,
) -> Option<Seq<char>> {
    match id_error(name) {
        Some(e) => Some(e),
        None => if archive_bytes > MAX_INSTALL_ARCHIVE_BYTES {
            Some(
                "extension archive for `"@ + name + "` is "@ + numbers::digits_of(archive_bytes)
                    + " bytes; limit is "@ + numbers::digits_of(MAX_INSTALL_ARCHIVE_BYTES as nat),
            )
        } else if !vstd::utf8::valid_utf8(manifest) {
            Some("extension manifest must be UTF-8 `extension.toml` text"@)
        } else {
            None
        },
    }
}

/// Looks at a request to install before its manifest is read.
pub fn check_install_request(name: &str, archive_bytes: u64, manifest: &Vec<u8>) -> (result: Result<
    InstallRequest,
    String,
>)
    ensures
        refusal(result) == request_error(
            lines::trimmed(name@),
            archive_bytes as nat,
            manifest@,
        ),
        result is Ok ==> result->Ok_0.name@ == lines::trimmed(name@)
            && result->Ok_0.manifest_text@ == vstd::utf8::decode_utf8(manifest@),
{
    let name: String = trim(name);
    match validate_extension_id(name.as_str()) {
        Ok(_) => {},
        Err(e) => {
            return Err(e);
        },
    }
    if archive_bytes > MAX_INSTALL_ARCHIVE_BYTES {
        let head: String = around("extension archive for `", name.as_str(), "` is ");
        let size: String = around(
            head.as_str(),
            decimal_text(archive_bytes).as_str(),
            " bytes; limit is ",
        );
        return Err(joined(size.as_str(), decimal_text(MAX_INSTALL_ARCHIVE_BYTES).as_str()));
    }
    match text_of_bytes(manifest.as_slice()) {
        Some(manifest_text) => Ok(InstallRequest { name, manifest_text }),
        None => Err("extension manifest must be UTF-8 `extension.toml` text".to_owned()),
    }
}

/// What keeps a manifest from being installed.
pub open spec fn manifest_error(
    name: Seq<char>,
    manifest: ManifestFacts,
    records: Seq<RecordModel>,
) -> Option<Seq<char>> {
    if manifest.side is Client {
        Some(
            "extension `"@ + name + "` declares runtime side `"@ + side_text(manifest.side)
                + "`; the daemon only runs `server` or `both` extensions"@,
        )
    } else {
        match id_error(manifest.id@) {
            Some(e) => Some(e),
            None => if manifest.id@ != name {
                Some(
                    "extension manifest id `"@ + manifest.id@ + "` does not match request name `"@
                        + name + "`"@,
                )
            } else if !consent::approves(records, manifest.id@, manifest.fingerprint@) {
                Some(
                    "extension `"@ + manifest.id@
                        + "` is not approved for server activation (policy fingerprint `"@
                        + manifest.fingerprint@ + "`); approve it before installing"@,
                )
            } else {
                None
            },
        }
    }
}

/// Looks at the manifest of a request to install.
pub fn check_manifest(
    name: &str,
    manifest: &ManifestFacts,
    records: &Vec<ServerConsentRecord>,
) -> (result: Result<(), String>)
    ensures
        refusal(result) == manifest_error(name@, *manifest, consent::record_models(records@)),
{
    if !manifest.side.runs_on_server() {
        let head: String = around("extension `", name, "` declares runtime side `");
        return Err(
            around(
                head.as_str(),
                manifest.side.name(),
                "`; the daemon only runs `server` or `both` extensions",
            ),
        );
    }
    match validate_extension_id(manifest.id.as_str()) {
        Ok(_) => {},
        Err(e) => {
            return Err(e);
        },
    }
    if !same_text(manifest.id.as_str(), name) {
        let head: String = around(
            "extension manifest id `",
            manifest.id.as_str(),
            "` does not match request name `",
        );
        return Err(around(head.as_str(), name, "`"));
    }
    if !ledger_approves(records, manifest.id.as_str(), manifest.fingerprint.as_str()) {
        let head: String = around(
            "extension `",
            manifest.id.as_str(),
            "` is not approved for server activation (policy fingerprint `",
        );
        return Err(
            around(
                head.as_str(),
                manifest.fingerprint.as_str(),
                "`); approve it before installing",
            ),
        );
    }
    Ok(())
}

/// What keeps what was unpacked from being run.
pub open spec fn staged_error(
    id: Seq<char>,
    same_manifest: bool,
    side: RuntimeSide,
    found: Seq<char>,
    fingerprint: Seq<char>,
    records: Seq<RecordModel>,
) -> Option<Seq<char>> {
    if !same_manifest {
        Some("archive manifest for `"@ + id + "` does not match the request manifest"@)
    } else if side is Client {
        Some(
            "on-disk manifest for `"@ + id + "` declares runtime side `"@ + side_text(side)
                + "`; refusing to run it on the server"@,
        )
    } else if !consent::approves(records, found, fingerprint) {
        Some(
            "extension `"@ + id + "` is not approved for server activation (policy fingerprint `"@
                + fingerprint + "`); approve it first"@,
        )
    } else {
        None
    }
}

/// Looks at what was unpacked before it is run: it is the manifest that was
/// unpacked that counts.
pub fn check_staged(
    id: &str,
    same_manifest: bool,
    manifest: &ManifestFacts,
    records: &Vec<ServerConsentRecord>,
) -> (result: Result<(), String>)
    ensures
        refusal(result) == staged_error(
            id@,
            same_manifest,
            manifest.side,
            manifest.id@,
            manifest.fingerprint@,
            consent::record_models(records@),
        ),
{
    if !same_manifest {
        return Err(
            around("archive manifest for `", id, "` does not match the request manifest"),
        );
    }
    if !manifest.side.runs_on_server() {
        let head: String = around("on-disk manifest for `", id, "` declares runtime side `");
        return Err(
            around(
                head.as_str(),
                manifest.side.name(),
                "`; refusing to run it on the server",
            ),
        );
    }
    if !ledger_approves(records, manifest.id.as_str(), manifest.fingerprint.as_str()) {
        let head: String = around(
            "extension `",
            id,
            "` is not approved for server activation (policy fingerprint `",
        );
        return Err(
            around(head.as_str(), manifest.fingerprint.as_str(), "`); approve it first"),
        );
    }
    Ok(())
}

/// Nothing is installed, and nothing that was unpacked is run, unless its
/// policy is approved and it runs on the server.
pub proof fn law_only_approved_extensions_run(
    name: Seq<char>,
    manifest: ManifestFacts,
    same_manifest: bool,
    records: Seq<RecordModel>,
)
    ensures
        manifest_error(name, manifest, records) is None ==> !(manifest.side is Client)
            && consent::approves(records, name, manifest.fingerprint@),
        staged_error(
            name,
            same_manifest,
            manifest.side,
            manifest.id@,
            manifest.fingerprint@,
            records,
        ) is None ==> same_manifest && !(manifest.side is Client) && consent::approves(
            records,
            manifest.id@,
            manifest.fingerprint@,
        ),
{
}

/// How much has been unpacked of an archive.
#[derive(Clone, Copy, Debug, PartialEq, Eq, Structural)]
pub struct ExtractBudget {
    pub extracted: u64,
}

/// A sum that stays at the largest number.
pub open spec fn sum_at_most(a: int, b: int) -> int {
    if a + b > u64::MAX {
        u64::MAX as int
    } else {
        a + b
    }
}

impl ExtractBudget {
    /// Nothing has been unpacked.
    pub fn new() -> (budget: ExtractBudget)
        ensures
            budget.extracted == 0,
    {
        ExtractBudget { extracted: 0 }
    }

    /// Counts a file of an archive before it is unpacked.
    pub fn take(&mut self, size: u64) -> (result: Result<(), String>)
        ensures
            final(self).extracted == sum_at_most(old(self).extracted as int, size as int),
            refusal(result) == if final(self).extracted > MAX_EXTRACTED_BYTES {
                Some(
                    "extension archive exceeds the "@ + numbers::digits_of(
                        MAX_EXTRACTED_BYTES as nat,
                    ) + "-byte uncompressed limit"@,
                )
            } else {
                None
            },
    {
        self.extracted = if size > u64::MAX - self.extracted {
            u64::MAX
        } else {
            self.extracted + size
        };
        if self.extracted > MAX_EXTRACTED_BYTES {
            return Err(
                around(
                    "extension archive exceeds the ",
                    decimal_text(MAX_EXTRACTED_BYTES).as_str(),
                    "-byte uncompressed limit",
                ),
            );
        }
        Ok(())
    }
}

/// Refuses a file of an archive that would not be unpacked where it belongs.
pub fn check_unpacked(unpacked: bool, path: &str) -> (result: Result<(), String>)
    ensures
        refusal(result) == if unpacked {
            None
        } else {
            Some("tar entry "@ + path@ + " escapes the install directory"@)
        },
{
    if unpacked {
        Ok(())
    } else {
        Err(around("tar entry ", path, " escapes the install directory"))
    }
}

/// How much of an archive has been counted.
pub open spec fn counted(sizes: Seq<u64>) -> int
    decreases sizes.len(),
{
    if sizes.len() == 0 {
        0
    } else {
        sum_at_most(counted(sizes.drop_last()), sizes.last() as int)
    }
}

/// The sizes of the files of an archive.
pub open spec fn total(sizes: Seq<u64>) -> int
    decreases sizes.len(),
{
    if sizes.len() == 0 {
        0
    } else {
        total(sizes.drop_last()) + sizes.last()
    }
}

/// What is unpacked of an archive is never larger than the limit.
pub proof fn law_archives_stay_within_the_limit(sizes: Seq<u64>)
    ensures
        0 <= counted(sizes) <= u64::MAX,
        counted(sizes) <= MAX_EXTRACTED_BYTES <==> total(sizes) <= MAX_EXTRACTED_BYTES,
        counted(sizes) <= MAX_EXTRACTED_BYTES ==> counted(sizes) == total(sizes),
        total(sizes) >= 0,
    decreases sizes.len(),
{
    if sizes.len() > 0 {
        law_archives_stay_within_the_limit(sizes.drop_last());
    }
}

/// Looks at a request to carry out an action.
pub fn check_action_request(extension_id: &str, command: &str, arguments: &str) -> (result: Result<
    (),
    String,
>)
    ensures
        ({
            let size = vstd::utf8::encode_utf8(command@).len() + vstd::utf8::encode_utf8(
                arguments@,
            ).len();
            let counted = if size > usize::MAX {
                usize::MAX as nat
            } else {
                size
            };
            refusal(result) == if size > MAX_CHROME_ACTION_BYTES {
                Some(
                    "chrome action for `"@ + extension_id@ + "` is "@ + numbers::digits_of(counted)
                        + " bytes; limit is "@ + numbers::digits_of(
                        MAX_CHROME_ACTION_BYTES as nat,
                    ),
                )
            } else {
                id_error(extension_id@)
            }
        }),
{
    let a: usize = command.as_bytes().len();
    let b: usize = arguments.as_bytes().len();
    let size: usize = if b > usize::MAX - a {
        usize::MAX
    } else {
        a + b
    };
    if size > MAX_CHROME_ACTION_BYTES {
        let head: String = around("chrome action for `", extension_id, "` is ");
        let line: String = around(
            head.as_str(),
            decimal_text(size as u64).as_str(),
            " bytes; limit is ",
        );
        return Err(
            joined(line.as_str(), decimal_text(MAX_CHROME_ACTION_BYTES as u64).as_str()),
        );
    }
    validate_extension_id(extension_id)
}

/// Says which limit an extension exceeded.
pub fn detect_violation(cpu: bool, memory: bool, io: bool) -> (reason: Option<SuspensionReason>)
    ensures
        reason == if cpu {
            Some(SuspensionReason::CpuBudget)
        } else if memory {
            Some(SuspensionReason::MemoryBudget)
        } else if io {
            Some(SuspensionReason::IoRateLimit)
        } else {
            None
        },
{
    if cpu {
        Some(SuspensionReason::CpuBudget)
    } else if memory {
        Some(SuspensionReason::MemoryBudget)
    } else if io {
        Some(SuspensionReason::IoRateLimit)
    } else {
        None
    }
}

/// What a worker did.
#[derive(Clone, Copy, Debug, PartialEq, Eq, Structural)]
pub enum WorkerWork {
    /// It told its extension of an event.
    Emitted,
    Rendered,
    /// It carried out an action, and whether somebody took the answer.
    Executed { answered: bool },
    /// It is to end, or there is nobody left to ask anything of it.
    Ended,
}

/// What a worker does next.
#[derive(Debug)]
pub struct WorkerStep {
    /// What it reports.
    pub report: Option<WorkerEvent>,
    pub ends: bool,
}

/// Decides what a worker does next: it ends where its extension exceeded a
/// limit, and reports that, or that its views have changed.
pub fn finish_operation(
    extension_id: &str,
    instance: u64,
    work: WorkerWork,
    violation: Option<SuspensionReason>,
    dirty: bool,
) -> (step: WorkerStep)
    ensures
        step.ends == (work is Ended || work == (WorkerWork::Executed { answered: false })
            || violation is Some),
        match step.report {
            Some(WorkerEvent::Suspended { extension_id: id, instance: worker, reason }) => {
                &&& !(work is Ended) && work != (WorkerWork::Executed { answered: false })
                &&& violation == Some(reason)
                &&& id@ == extension_id@
                &&& worker == instance
            },
            Some(WorkerEvent::RenderRequested { extension_id: id, instance: worker }) => {
                &&& !step.ends && dirty
                &&& id@ == extension_id@
                &&& worker == instance
            },
            None => work is Ended || work == (WorkerWork::Executed { answered: false }) || (
            violation is None && !dirty),
        },
{
    match work {
        WorkerWork::Ended => {
            return WorkerStep { report: None, ends: true };
        },
        WorkerWork::Executed { answered } => {
            if !answered {
                return WorkerStep { report: None, ends: true };
            }
        },
        _ => {},
    }
    match violation {
        Some(reason) => WorkerStep {
            report: Some(
                WorkerEvent::Suspended {
                    extension_id: extension_id.to_owned(),
                    instance,
                    reason,
                },
            ),
            ends: true,
        },
        None => if dirty {
            WorkerStep {
                report: Some(
                    WorkerEvent::RenderRequested { extension_id: extension_id.to_owned(), instance },
                ),
                ends: false,
            }
        } else {
            WorkerStep { report: None, ends: false }
        },
    }
}

/// What the host of the extensions has done.
#[derive(Clone, Copy, Debug, PartialEq, Eq, Structural)]
pub enum HostWork {
    /// It started the extensions that are approved.
    Started,
    Installed { succeeded: bool },
    Executed,
    Emitted,
    /// It was asked for a round of rendering.
    RenderWanted,
    IdsListed,
    /// It took a report, and whether that asks for a round of rendering.
    Reported { render: bool },
    /// It is to end, or there is nobody left to ask anything of it.
    Ended,
    /// It rendered: whether it has to, and whether the views could be sent.
    Rendered { vital: bool, sent: bool },
}

/// What the host of the extensions does next.
#[derive(Clone, Copy, Debug, PartialEq, Eq, Structural)]
pub enum HostNext {
    /// It waits for the next request.
    Wait,
    /// It renders: all views or those that have changed, and whether it ends
    /// where they cannot be sent.
    Render { force: bool, vital: bool },
    /// It ends and gives its workers back.
    HandBack,
    /// It ends.
    Stop,
}

/// Decides what the host of the extensions does next.
pub fn host_step(work: HostWork) -> (next: HostNext)
    ensures
        next == match work {
            HostWork::Started | HostWork::RenderWanted => HostNext::Render {
                force: true,
                vital: true,
            },
            HostWork::Installed { succeeded } => if succeeded {
                HostNext::Render { force: true, vital: true }
            } else {
                HostNext::Wait
            },
            HostWork::Reported { render } => if render {
                HostNext::Render { force: false, vital: false }
            } else {
                HostNext::Wait
            },
            HostWork::Executed | HostWork::Emitted | HostWork::IdsListed => HostNext::Wait,
            HostWork::Ended => HostNext::HandBack,
            HostWork::Rendered { vital, sent } => if vital && !sent {
                HostNext::Stop
            } else {
                HostNext::Wait
            },
        },
{
    match work {
        HostWork::Started | HostWork::RenderWanted => HostNext::Render { force: true, vital: true },
        HostWork::Installed { succeeded } => if succeeded {
            HostNext::Render { force: true, vital: true }
        } else {
            HostNext::Wait
        },
        HostWork::Reported { render } => if render {
            HostNext::Render { force: false, vital: false }
        } else {
            HostNext::Wait
        },
        HostWork::Executed | HostWork::Emitted | HostWork::IdsListed => HostNext::Wait,
        HostWork::Ended => HostNext::HandBack,
        HostWork::Rendered { vital, sent } => if vital && !sent {
            HostNext::Stop
        } else {
            HostNext::Wait
        },
    }
}

/// An identifier is accepted just where it names one step of a path: it is not
/// empty, has at most 128 bytes, is neither the dot nor the two dots, and has
/// neither slashes nor control characters.
pub proof fn law_names_are_accepted_where_they_are_single_steps(id: Seq<char>)
    ensures
        id_error(id) is None <==> {
            &&& id.len() > 0
            &&& vstd::utf8::encode_utf8(id).len() <= 128
            &&& id != "."@ && id != ".."@
            &&& forall|i: int|
                0 <= i < id.len() ==> (#[trigger] id[i]) != '/' && id[i] != '\\' && id[i] as int
                    >= 0x20 && !(0x7f <= id[i] as int <= 0x9f)
        },
{
    if id_error(id) is None {
        assert forall|i: int| 0 <= i < id.len() implies (#[trigger] id[i]) != '/' && id[i] != '\\'
            && id[i] as int >= 0x20 && !(0x7f <= id[i] as int <= 0x9f) by {
            assert(!is_unsafe(id[i]));
        }
    }
}

/// An extension is taken in just where its name is accepted, its archive is not
/// too large, its manifest is text and names the same extension, it is meant for
/// the server, and it is approved under the policy that it has.
pub proof fn law_extensions_are_taken_in_where_all_fits(
    name: Seq<char>,
    archive_bytes: nat,
    manifest: Seq<u8>,
    facts: ManifestFacts,
    same_manifest: bool,
    records: Seq<RecordModel>,
)
    ensures
        request_error(name, archive_bytes, manifest) is None <==> id_error(name) is None
            && archive_bytes <= 16_777_216 && vstd::utf8::valid_utf8(manifest),
        manifest_error(name, facts, records) is None <==> !(facts.side is Client) && facts.id@
            == name && id_error(name) is None && consent::approves(
            records,
            name,
            facts.fingerprint@,
        ),
        staged_error(name, same_manifest, facts.side, facts.id@, facts.fingerprint@, records)
            is None <==> same_manifest && !(facts.side is Client) && consent::approves(
            records,
            facts.id@,
            facts.fingerprint@,
        ),
{
}

} // verus!
