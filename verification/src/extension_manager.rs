//! The extensions that run on the server, and what their clients see of them.
//!
//! Each extension has a worker of its own. A worker that exceeds a limit or
//! does not answer is suspended: nothing is asked of it any longer, what it
//! showed is taken away, and a notice says why.
use crate::json_text;
use crate::json_text::quote;
use crate::json_documents;
use crate::json_documents::read_member;
use crate::text;
use crate::text::{around, contains_text, joined, remove_text, same_text};
use crate::text_order;
use crate::text_order::in_order;
use vstd::prelude::*;
use vstd::string::*;

verus! {

/// The view under which the server shows why an extension is suspended.
pub open spec fn notice_view() -> Seq<char> {
    "z3rm.suspended"@
}

/// Why an extension is suspended.
#[derive(Clone, Copy, Debug, PartialEq, Eq, Structural)]
pub enum SuspensionReason {
    CpuBudget,
    MemoryBudget,
    IoRateLimit,
    /// The worker did not answer in time.
    Unresponsive,
    /// The worker ended without an answer.
    Crashed,
}

/// How a reason is told.
pub open spec fn reason_text(reason: SuspensionReason) -> Seq<char> {
    match reason {
        SuspensionReason::CpuBudget => "cpu budget exceeded"@,
        SuspensionReason::MemoryBudget => "memory budget exceeded"@,
        SuspensionReason::IoRateLimit => "io rate limit exceeded"@,
        SuspensionReason::Unresponsive => "did not respond to the host in time"@,
        SuspensionReason::Crashed => "worker exited unexpectedly"@,
    }
}

impl SuspensionReason {
    /// Tells a reason.
    pub fn as_str(self) -> (reason: &'static str)
        ensures
            reason@ == reason_text(self),
    {
        match self {
            SuspensionReason::CpuBudget => "cpu budget exceeded",
            SuspensionReason::MemoryBudget => "memory budget exceeded",
            SuspensionReason::IoRateLimit => "io rate limit exceeded",
            SuspensionReason::Unresponsive => "did not respond to the host in time",
            SuspensionReason::Crashed => "worker exited unexpectedly",
        }
    }
}

/// The notice of a suspension.
pub open spec fn notice_text(extension: Seq<char>, reason: SuspensionReason) -> Seq<char> {
    "{\"text\":"@ + json_text::quoted(
        "extension "@ + extension + " suspended: "@ + reason_text(reason),
    ) + ",\"type\":\"span\"}"@
}

/// Writes the notice of a suspension.
pub fn suspension_notice_json(extension_id: &str, reason: SuspensionReason) -> (notice: String)
    ensures
        notice@ == notice_text(extension_id@, reason),
{
    let head: String = around("extension ", extension_id, " suspended: ");
    let line: String = joined(head.as_str(), reason.as_str());
    around("{\"text\":", quote(line.as_str()).as_str(), ",\"type\":\"span\"}")
}

/// The view that a rendered view names, or a fixed one.
pub fn view_id(named: Option<String>) -> (id: String)
    ensures
        id@ == match named {
            Some(name) => name@,
            None => "default"@,
        },
{
    match named {
        Some(name) => name,
        None => "default".to_owned(),
    }
}

/// The view that a rendered view is of.
pub open spec fn view_of(vdom: Seq<char>) -> Seq<char> {
    match json_documents::member_written(vdom, "id"@) {
        Some(name) => name,
        None => "default"@,
    }
}

/// Finds the view that a rendered view is of.
pub fn view_id_of(vdom_json: &str) -> (id: String)
    ensures
        id@ == view_of(vdom_json@),
{
    view_id(read_member(vdom_json, "id"))
}

/// A view on its way to the clients; one without a payload goes away.
#[derive(Debug)]
pub struct ChromeView {
    pub extension_id: String,
    pub view_id: String,
    pub vdom_json: String,
}

/// A view on its way to the clients.
pub struct ViewModel {
    pub extension: Seq<char>,
    pub view: Seq<char>,
    pub vdom: Seq<char>,
}

impl ViewModel {
    /// What tells a view from others.
    pub open spec fn key(self) -> (Seq<char>, Seq<char>) {
        (self.extension, self.view)
    }
}

impl View for ChromeView {
    type V = ViewModel;

    open spec fn view(&self) -> ViewModel {
        ViewModel {
            extension: self.extension_id@,
            view: self.view_id@,
            vdom: self.vdom_json@,
        }
    }
}

/// What a list of views holds.
pub open spec fn view_models(views: Seq<ChromeView>) -> Seq<ViewModel> {
    views.map_values(|v: ChromeView| v@)
}

/// What tells a view from others.
#[derive(Debug)]
pub struct ViewKey {
    pub extension_id: String,
    pub view_id: String,
}

/// What a list of keys holds.
pub open spec fn key_models(keys: Seq<ViewKey>) -> Seq<(Seq<char>, Seq<char>)> {
    keys.map_values(|k: ViewKey| (k.extension_id@, k.view_id@))
}

/// A worker.
#[derive(Debug)]
pub struct Worker {
    pub id: String,
    /// What tells it from earlier workers of the same extension.
    pub instance: u64,
    pub suspended: bool,
}

/// A worker.
pub struct WorkerModel {
    pub id: Seq<char>,
    pub instance: u64,
    pub suspended: bool,
}

impl View for Worker {
    type V = WorkerModel;

    open spec fn view(&self) -> WorkerModel {
        WorkerModel { id: self.id@, instance: self.instance, suspended: self.suspended }
    }
}

/// What a list of workers holds.
pub open spec fn worker_models(workers: Seq<Worker>) -> Seq<WorkerModel> {
    workers.map_values(|w: Worker| w@)
}

/// The workers, in the order of their extensions, and what is shown of them.
#[derive(Debug)]
pub struct ExtensionManager {
    pub workers: Vec<Worker>,
    /// The views that the clients see.
    pub published_views: Vec<ViewKey>,
    /// The extensions whose notices the clients see.
    pub notices: Vec<String>,
    pub next_instance: u64,
}

/// The workers and what is shown of them.
#[verifier::ext_equal]
pub struct ManagerModel {
    pub workers: Seq<WorkerModel>,
    pub published: Seq<(Seq<char>, Seq<char>)>,
    pub notices: Seq<Seq<char>>,
    pub next_instance: u64,
}

impl View for ExtensionManager {
    type V = ManagerModel;

    open spec fn view(&self) -> ManagerModel {
        ManagerModel {
            workers: worker_models(self.workers@),
            published: key_models(self.published_views@),
            notices: text::texts(self.notices@),
            next_instance: self.next_instance,
        }
    }
}

/// What is done: workers are asked to end, and views go to the clients.
#[derive(Debug)]
pub struct Effects {
    /// The extensions whose workers are asked to end.
    pub endings: Vec<String>,
    pub batches: Vec<Vec<ChromeView>>,
}

/// What is done.
#[verifier::ext_equal]
pub struct EffectsModel {
    pub endings: Seq<Seq<char>>,
    pub batches: Seq<Seq<ViewModel>>,
}

impl View for Effects {
    type V = EffectsModel;

    open spec fn view(&self) -> EffectsModel {
        EffectsModel {
            endings: text::texts(self.endings@),
            batches: self.batches@.map_values(|b: Vec<ChromeView>| view_models(b@)),
        }
    }
}

/// Nothing is done.
pub open spec fn nothing_done() -> EffectsModel {
    EffectsModel { endings: Seq::empty(), batches: Seq::empty() }
}

impl Effects {
    /// Nothing is done.
    pub fn new() -> (effects: Effects)
        ensures
            effects@ == nothing_done(),
    {
        let effects = Effects { endings: Vec::new(), batches: Vec::new() };
        assert(effects@ =~= nothing_done());
        effects
    }

    fn end(&mut self, extension_id: &str)
        ensures
            final(self)@ == (EffectsModel {
                endings: old(self)@.endings.push(extension_id@),
                ..old(self)@
            }),
    {
        let id: String = extension_id.to_owned();
        proof {
            text::lemma_texts_push(self.endings@, id);
        }
        self.endings.push(id);
    }

    fn send(&mut self, batch: Vec<ChromeView>)
        ensures
            final(self)@ == (EffectsModel {
                batches: old(self)@.batches.push(view_models(batch@)),
                ..old(self)@
            }),
    {
        let ghost before = self@.batches;
        self.batches.push(batch);
        assert(self@.batches =~= before.push(view_models(batch@)));
    }
}

/// The manager and what has been done.
#[verifier::ext_equal]
pub struct Progress {
    pub m: ManagerModel,
    pub done: EffectsModel,
}

/// The place of the worker of an extension, from `k` on.
pub open spec fn worker_index(workers: Seq<WorkerModel>, id: Seq<char>, k: int) -> int
    decreases workers.len() - k,
{
    if k >= workers.len() {
        workers.len() as int
    } else if workers[k].id == id {
        k
    } else {
        worker_index(workers, id, k + 1)
    }
}

/// What the place of a worker is.
pub proof fn lemma_worker_index(workers: Seq<WorkerModel>, id: Seq<char>, k: int)
    requires
        0 <= k <= workers.len(),
    ensures
        k <= worker_index(workers, id, k) <= workers.len(),
        worker_index(workers, id, k) < workers.len() ==> workers[worker_index(workers, id, k)].id
            == id,
        forall|i: int| k <= i < worker_index(workers, id, k) ==> (#[trigger] workers[i]).id != id,
    decreases workers.len() - k,
{
    if k < workers.len() && workers[k].id != id {
        lemma_worker_index(workers, id, k + 1);
    }
}

fn find_worker(workers: &Vec<Worker>, id: &str) -> (index: usize)
    ensures
        index == worker_index(worker_models(workers@), id@, 0),
        index <= workers.len(),
        index < workers.len() ==> workers@[index as int]@.id == id@,
{
    let ghost all = worker_models(workers@);
    let mut i: usize = 0;
    while i < workers.len()
        invariant
            i <= workers.len(),
            all == worker_models(workers@),
            worker_index(all, id@, 0) == worker_index(all, id@, i as int),
        decreases workers.len() - i,
    {
        assert(all[i as int] == workers@[i as int]@);
        if same_text(workers[i].id.as_str(), id) {
            return i;
        }
        i = i + 1;
    }
    i
}

/// The views of an extension that go away.
pub open spec fn gone_views(published: Seq<(Seq<char>, Seq<char>)>, extension: Seq<char>) -> Seq<
    ViewModel,
>
    decreases published.len(),
{
    if published.len() == 0 {
        Seq::empty()
    } else {
        let before = gone_views(published.drop_last(), extension);
        let (owner, view) = published.last();
        if owner == extension {
            before.push(ViewModel { extension: owner, view, vdom: Seq::empty() })
        } else {
            before
        }
    }
}

/// The views of all other extensions.
pub open spec fn kept_views(published: Seq<(Seq<char>, Seq<char>)>, extension: Seq<char>) -> Seq<
    (Seq<char>, Seq<char>),
>
    decreases published.len(),
{
    if published.len() == 0 {
        Seq::empty()
    } else {
        let before = kept_views(published.drop_last(), extension);
        if published.last().0 == extension {
            before
        } else {
            before.push(published.last())
        }
    }
}

/// What takes everything away that is shown of an extension.
pub open spec fn tombstones(m: ManagerModel, extension: Seq<char>) -> Seq<ViewModel> {
    let views = gone_views(m.published, extension);
    if m.notices.contains(extension) {
        views.push(ViewModel { extension, view: notice_view(), vdom: Seq::empty() })
    } else {
        views
    }
}

/// The manager once nothing is shown of an extension.
pub open spec fn hidden(m: ManagerModel, extension: Seq<char>) -> ManagerModel {
    ManagerModel {
        published: kept_views(m.published, extension),
        notices: text::without(m.notices, extension),
        ..m
    }
}

/// Everything that is shown of an extension is taken away.
pub open spec fn clear_away(p: Progress, extension: Seq<char>) -> Progress {
    let views = tombstones(p.m, extension);
    Progress {
        m: hidden(p.m, extension),
        done: if views.len() == 0 {
            p.done
        } else {
            EffectsModel { batches: p.done.batches.push(views), ..p.done }
        },
    }
}

/// A notice is shown, once.
pub open spec fn notify(p: Progress, extension: Seq<char>, reason: SuspensionReason) -> Progress {
    if p.m.notices.contains(extension) {
        p
    } else {
        Progress {
            m: ManagerModel { notices: p.m.notices.push(extension), ..p.m },
            done: EffectsModel {
                batches: p.done.batches.push(
                    seq![
                        ViewModel {
                            extension,
                            view: notice_view(),
                            vdom: notice_text(extension, reason),
                        },
                    ],
                ),
                ..p.done
            },
        }
    }
}

/// A worker is suspended, unless it is another one by now or is suspended
/// already.
pub open spec fn suspend(
    p: Progress,
    extension: Seq<char>,
    instance: u64,
    reason: SuspensionReason,
) -> Progress {
    let k = worker_index(p.m.workers, extension, 0);
    if k >= p.m.workers.len() || p.m.workers[k].instance != instance || p.m.workers[k].suspended {
        p
    } else {
        let stopped = Progress {
            m: ManagerModel {
                workers: p.m.workers.update(
                    k,
                    WorkerModel { suspended: true, ..p.m.workers[k] },
                ),
                ..p.m
            },
            done: EffectsModel { endings: p.done.endings.push(extension), ..p.done },
        };
        notify(clear_away(stopped, extension), extension, reason)
    }
}

/// Workers in order with one more.
pub open spec fn with_worker(workers: Seq<WorkerModel>, worker: WorkerModel) -> Seq<WorkerModel>
    decreases workers.len(),
{
    if workers.len() == 0 || text_order::not_after(workers.last().id, worker.id, 0) {
        workers.push(worker)
    } else {
        with_worker(workers.drop_last(), worker).push(workers.last())
    }
}

/// A worker is taken in, in place of an earlier one of the same extension; one
/// that is suspended from the start has its notice shown.
pub open spec fn take_in(
    p: Progress,
    worker: WorkerModel,
    reason: Option<SuspensionReason>,
) -> Progress {
    let k = worker_index(p.m.workers, worker.id, 0);
    let cleared = if k < p.m.workers.len() {
        let left = Progress {
            m: ManagerModel { workers: p.m.workers.remove(k), ..p.m },
            done: EffectsModel { endings: p.done.endings.push(worker.id), ..p.done },
        };
        clear_away(left, worker.id)
    } else {
        p
    };
    let told = match reason {
        Some(r) => notify(cleared, worker.id, r),
        None => cleared,
    };
    Progress {
        m: ManagerModel { workers: with_worker(told.m.workers, worker), ..told.m },
        ..told
    }
}

impl ExtensionManager {
    /// A manager without workers.
    pub fn new() -> (manager: ExtensionManager)
        ensures
            manager@ == (ManagerModel {
                workers: Seq::empty(),
                published: Seq::empty(),
                notices: Seq::empty(),
                next_instance: 0,
            }),
    {
        let manager = ExtensionManager {
            workers: Vec::new(),
            published_views: Vec::new(),
            notices: Vec::new(),
            next_instance: 0,
        };
        proof {
            assert(manager@.workers =~= Seq::empty());
            assert(manager@.published =~= Seq::empty());
            assert(manager@.notices =~= Seq::empty());
        }
        manager
    }

    /// Takes away everything that is shown of an extension.
    fn tombstone_chrome(&mut self, effects: &mut Effects, extension_id: &str)
        ensures
            at(final(self)@, final(effects)@) == clear_away(
                at(old(self)@, old(effects)@),
                extension_id@,
            ),
    {
        let ghost m = self@;
        let ghost all = m.published;
        let mut views: Vec<ChromeView> = Vec::new();
        let mut kept: Vec<ViewKey> = Vec::new();
        let mut i: usize = 0;
        proof {
            assert(view_models(views@) =~= gone_views(all.take(0), extension_id@));
            assert(key_models(kept@) =~= kept_views(all.take(0), extension_id@));
        }
        while i < self.published_views.len()
            invariant
                i <= self.published_views.len(),
                *self == *old(self),
                all == key_models(self.published_views@),
                view_models(views@) == gone_views(all.take(i as int), extension_id@),
                key_models(kept@) == kept_views(all.take(i as int), extension_id@),
            decreases self.published_views.len() - i,
        {
            let key: &ViewKey = &self.published_views[i];
            proof {
                assert(all.take(i + 1).drop_last() =~= all.take(i as int));
                assert(all.take(i + 1).last() == (key.extension_id@, key.view_id@));
            }
            if same_text(key.extension_id.as_str(), extension_id) {
                let gone: ChromeView = tombstone(extension_id, key.view_id.as_str());
                let ghost before = views@;
                views.push(gone);
                assert(view_models(views@) =~= view_models(before).push(gone@));
            } else {
                let copy = ViewKey {
                    extension_id: key.extension_id.clone(),
                    view_id: key.view_id.clone(),
                };
                let ghost before = kept@;
                kept.push(copy);
                assert(key_models(kept@) =~= key_models(before).push(
                    (copy.extension_id@, copy.view_id@),
                ));
            }
            i = i + 1;
        }
        assert(all.take(i as int) =~= all);
        if contains_text(&self.notices, extension_id) {
            let gone: ChromeView = tombstone(extension_id, "z3rm.suspended");
            let ghost before = views@;
            views.push(gone);
            assert(view_models(views@) =~= view_models(before).push(gone@));
        }
        self.published_views = kept;
        remove_text(&mut self.notices, extension_id);
        assert(view_models(views@) == tombstones(m, extension_id@));
        if views.len() > 0 {
            effects.send(views);
        }
    }

    /// Shows why an extension is suspended, once.
    fn publish_notice(&mut self, effects: &mut Effects, extension_id: &str, reason: SuspensionReason)
        ensures
            at(final(self)@, final(effects)@) == notify(
                at(old(self)@, old(effects)@),
                extension_id@,
                reason,
            ),
    {
        if contains_text(&self.notices, extension_id) {
            return;
        }
        let id: String = extension_id.to_owned();
        proof {
            text::lemma_texts_push(self.notices@, id);
        }
        self.notices.push(id);
        let notice = ChromeView {
            extension_id: extension_id.to_owned(),
            view_id: "z3rm.suspended".to_owned(),
            vdom_json: suspension_notice_json(extension_id, reason),
        };
        let mut batch: Vec<ChromeView> = Vec::new();
        batch.push(notice);
        assert(view_models(batch@) =~= seq![notice@]);
        effects.send(batch);
    }

    /// Suspends a worker; a report on a worker that is not there any longer
    /// does nothing.
    pub fn suspend_extension(
        &mut self,
        effects: &mut Effects,
        extension_id: &str,
        instance: u64,
        reason: SuspensionReason,
    )
        ensures
            at(final(self)@, final(effects)@) == suspend(
                at(old(self)@, old(effects)@),
                extension_id@,
                instance,
                reason,
            ),
    {
        let ghost m = self@;
        let k: usize = find_worker(&self.workers, extension_id);
        if k >= self.workers.len() {
            return;
        }
        assert(m.workers[k as int] == self.workers@[k as int]@);
        if self.workers[k].instance != instance || self.workers[k].suspended {
            return;
        }
        let stopped = Worker { id: self.workers[k].id.clone(), instance, suspended: true };
        let ghost list = self.workers@;
        self.workers.set(k, stopped);
        proof {
            assert(worker_models(self.workers@) =~= worker_models(list).update(
                k as int,
                stopped@,
            ));
        }
        effects.end(extension_id);
        self.tombstone_chrome(effects, extension_id);
        self.publish_notice(effects, extension_id, reason);
    }

    fn insert_worker(
        &mut self,
        effects: &mut Effects,
        worker: Worker,
        reason: Option<SuspensionReason>,
    )
        ensures
            at(final(self)@, final(effects)@) == take_in(
                at(old(self)@, old(effects)@),
                worker@,
                reason,
            ),
    {
        let k: usize = find_worker(&self.workers, worker.id.as_str());
        if k < self.workers.len() {
            let ghost list = self.workers@;
            let _old: Worker = self.workers.remove(k);
            proof {
                assert(worker_models(self.workers@) =~= worker_models(list).remove(k as int));
            }
            effects.end(worker.id.as_str());
            self.tombstone_chrome(effects, worker.id.as_str());
        }
        match reason {
            Some(r) => {
                self.publish_notice(effects, worker.id.as_str(), r);
            },
            None => {},
        }
        place_worker(&mut self.workers, worker);
    }
}

/// The manager and what has been done.
pub open spec fn at(m: ManagerModel, done: EffectsModel) -> Progress {
    Progress { m, done }
}

fn tombstone(extension_id: &str, view_id: &str) -> (gone: ChromeView)
    ensures
        gone@ == (ViewModel { extension: extension_id@, view: view_id@, vdom: Seq::empty() }),
{
    let gone = ChromeView {
        extension_id: extension_id.to_owned(),
        view_id: view_id.to_owned(),
        vdom_json: String::new(),
    };
    assert(gone.vdom_json@ =~= Seq::<char>::empty());
    gone
}

fn place_worker(workers: &mut Vec<Worker>, worker: Worker)
    ensures
        worker_models(final(workers)@) == with_worker(worker_models(old(workers)@), worker@),
{
    let ghost all = worker_models(workers@);
    let ghost added = worker@;
    let mut i: usize = workers.len();
    assert(all.take(i as int) =~= all);
    assert(with_worker(all, added) =~= with_worker(all, added) + all.skip(i as int));
    while i > 0 && !in_order(workers[i - 1].id.as_str(), worker.id.as_str())
        invariant
            i <= workers.len(),
            all == worker_models(workers@),
            added == worker@,
            with_worker(all, added) == with_worker(all.take(i as int), added) + all.skip(i as int),
        decreases i,
    {
        proof {
            let some = all.take(i as int);
            assert(some.last() == workers@[i - 1]@);
            assert(some.drop_last() =~= all.take(i - 1));
            assert(with_worker(some, added) + all.skip(i as int) =~= with_worker(
                all.take(i - 1),
                added,
            ) + all.skip(i - 1));
        }
        i = i - 1;
    }
    proof {
        if i > 0 {
            assert(all.take(i as int).last() == workers@[i - 1]@);
        }
    }
    workers.insert(i, worker);
    assert(worker_models(workers@) =~= all.take(i as int).push(added) + all.skip(i as int));
}

/// How a worker came up.
#[derive(Debug)]
pub enum WorkerReady {
    Running,
    /// It exceeded a limit while it came up.
    Suspended(SuspensionReason),
    /// It could not be loaded, and why.
    Failed(String),
    /// It did not come up in time.
    TimedOut,
}

/// What becomes of a worker that came up.
pub open spec fn came_up(p: Progress, id: Seq<char>, instance: u64, ready: WorkerReady) -> Progress {
    match ready {
        WorkerReady::Running => take_in(
            p,
            WorkerModel { id, instance, suspended: false },
            None,
        ),
        WorkerReady::Suspended(reason) => take_in(
            p,
            WorkerModel { id, instance, suspended: true },
            Some(reason),
        ),
        WorkerReady::Failed(_) => p,
        WorkerReady::TimedOut => take_in(
            p,
            WorkerModel { id, instance, suspended: true },
            Some(SuspensionReason::Unresponsive),
        ),
    }
}

/// The extensions whose workers run.
pub open spec fn running(workers: Seq<WorkerModel>) -> Seq<Seq<char>>
    decreases workers.len(),
{
    if workers.len() == 0 {
        Seq::empty()
    } else {
        let before = running(workers.drop_last());
        if workers.last().suspended {
            before
        } else {
            before.push(workers.last().id)
        }
    }
}

/// A worker that is asked to render.
#[derive(Debug)]
pub struct RenderTarget {
    pub extension_id: String,
    pub instance: u64,
}

/// The workers that are asked to render: those that run.
pub open spec fn render_asked(workers: Seq<WorkerModel>) -> Seq<(Seq<char>, u64)>
    decreases workers.len(),
{
    if workers.len() == 0 {
        Seq::empty()
    } else {
        let before = render_asked(workers.drop_last());
        if workers.last().suspended {
            before
        } else {
            before.push((workers.last().id, workers.last().instance))
        }
    }
}

/// What came of asking a worker to render.
#[derive(Debug)]
pub enum RenderOutcome {
    /// The worker rendered all of its views.
    Views(Vec<String>),
    /// Nothing of the worker was invalidated, and it rendered nothing.
    Unchanged,
    /// The worker ended without an answer.
    Gone,
    /// The worker did not answer in time.
    Silent,
}

/// The answer of a worker that was asked to render.
#[derive(Debug)]
pub struct RenderReply {
    pub extension_id: String,
    pub instance: u64,
    pub outcome: RenderOutcome,
}

/// Whether a view comes before another one: by its extension, then by itself.
pub open spec fn view_before(a: (Seq<char>, Seq<char>), b: (Seq<char>, Seq<char>)) -> bool {
    if a.0 == b.0 {
        text_order::not_after(a.1, b.1, 0)
    } else {
        text_order::not_after(a.0, b.0, 0)
    }
}

/// Views in order with one more, in place of an earlier one of the same key.
pub open spec fn with_view(views: Seq<ViewModel>, view: ViewModel) -> Seq<ViewModel>
    decreases views.len(),
{
    if views.len() == 0 {
        seq![view]
    } else if views.last().key() == view.key() {
        views.drop_last().push(view)
    } else if view_before(views.last().key(), view.key()) {
        views.push(view)
    } else {
        with_view(views.drop_last(), view).push(views.last())
    }
}

/// Views in order with those that an extension rendered.
pub open spec fn with_rendered(
    views: Seq<ViewModel>,
    extension: Seq<char>,
    rendered: Seq<Seq<char>>,
) -> Seq<ViewModel>
    decreases rendered.len(),
{
    if rendered.len() == 0 {
        views
    } else {
        with_view(
            with_rendered(views, extension, rendered.drop_last()),
            ViewModel { extension, view: view_of(rendered.last()), vdom: rendered.last() },
        )
    }
}

/// Whether a worker is there and suspended.
pub open spec fn is_suspended(workers: Seq<WorkerModel>, id: Seq<char>) -> bool {
    let k = worker_index(workers, id, 0);
    k < workers.len() && workers[k].suspended
}

/// The views of a round: what the workers that are not suspended rendered.
pub open spec fn round_views(workers: Seq<WorkerModel>, replies: Seq<RenderReply>) -> Seq<ViewModel>
    decreases replies.len(),
{
    if replies.len() == 0 {
        Seq::empty()
    } else {
        let before = round_views(workers, replies.drop_last());
        let reply = replies.last();
        match reply.outcome {
            RenderOutcome::Views(rendered) => if is_suspended(workers, reply.extension_id@) {
                before
            } else {
                with_rendered(before, reply.extension_id@, text::texts(rendered@))
            },
            _ => before,
        }
    }
}

/// The workers that ended without an answer are suspended.
pub open spec fn suspend_gone(p: Progress, replies: Seq<RenderReply>) -> Progress
    decreases replies.len(),
{
    if replies.len() == 0 {
        p
    } else {
        let before = suspend_gone(p, replies.drop_last());
        let reply = replies.last();
        match reply.outcome {
            RenderOutcome::Gone => suspend(
                before,
                reply.extension_id@,
                reply.instance,
                SuspensionReason::Crashed,
            ),
            _ => before,
        }
    }
}

/// The workers that did not answer in time are suspended.
pub open spec fn suspend_silent(p: Progress, replies: Seq<RenderReply>) -> Progress
    decreases replies.len(),
{
    if replies.len() == 0 {
        p
    } else {
        let before = suspend_silent(p, replies.drop_last());
        let reply = replies.last();
        match reply.outcome {
            RenderOutcome::Silent => suspend(
                before,
                reply.extension_id@,
                reply.instance,
                SuspensionReason::Unresponsive,
            ),
            _ => before,
        }
    }
}

/// The keys of views.
pub open spec fn view_keys(views: Seq<ViewModel>) -> Seq<(Seq<char>, Seq<char>)> {
    views.map_values(|v: ViewModel| v.key())
}

/// Whether an extension rendered its views anew in a round.
pub open spec fn rendered_anew(replies: Seq<RenderReply>, extension: Seq<char>) -> bool {
    exists|i: int|
        0 <= i < replies.len() && (#[trigger] replies[i]).outcome is Views
            && replies[i].extension_id@ == extension
}

/// The views that were shown of extensions that did not render anew.
pub open spec fn untouched(
    published: Seq<(Seq<char>, Seq<char>)>,
    replies: Seq<RenderReply>,
) -> Seq<(Seq<char>, Seq<char>)>
    decreases published.len(),
{
    if published.len() == 0 {
        Seq::empty()
    } else {
        let before = untouched(published.drop_last(), replies);
        if rendered_anew(replies, published.last().0) {
            before
        } else {
            before.push(published.last())
        }
    }
}

/// The views that were shown of extensions that rendered anew, and that are not
/// among what they rendered.
pub open spec fn vanished(
    published: Seq<(Seq<char>, Seq<char>)>,
    keys: Seq<(Seq<char>, Seq<char>)>,
    replies: Seq<RenderReply>,
) -> Seq<ViewModel>
    decreases published.len(),
{
    if published.len() == 0 {
        Seq::empty()
    } else {
        let before = vanished(published.drop_last(), keys, replies);
        if keys.contains(published.last()) || !rendered_anew(replies, published.last().0) {
            before
        } else {
            before.push(
                ViewModel {
                    extension: published.last().0,
                    view: published.last().1,
                    vdom: Seq::empty(),
                },
            )
        }
    }
}

/// Keys in order with one more.
pub open spec fn with_key(
    keys: Seq<(Seq<char>, Seq<char>)>,
    key: (Seq<char>, Seq<char>),
) -> Seq<(Seq<char>, Seq<char>)>
    decreases keys.len(),
{
    if keys.len() == 0 || view_before(keys.last(), key) {
        keys.push(key)
    } else {
        with_key(keys.drop_last(), key).push(keys.last())
    }
}

/// Keys in order with some more.
pub open spec fn with_keys(
    keys: Seq<(Seq<char>, Seq<char>)>,
    more: Seq<(Seq<char>, Seq<char>)>,
) -> Seq<(Seq<char>, Seq<char>)>
    decreases more.len(),
{
    if more.len() == 0 {
        keys
    } else {
        with_key(with_keys(keys, more.drop_last()), more.last())
    }
}

/// What goes to the clients at the end of a round.
pub open spec fn published_batch(
    m: ManagerModel,
    views: Seq<ViewModel>,
    replies: Seq<RenderReply>,
) -> Seq<ViewModel> {
    views + vanished(m.published, view_keys(views), replies)
}

/// The manager at the end of a round: what did not render anew is shown as it
/// was.
pub open spec fn published_manager(
    m: ManagerModel,
    views: Seq<ViewModel>,
    replies: Seq<RenderReply>,
) -> ManagerModel {
    ManagerModel { published: with_keys(untouched(m.published, replies), view_keys(views)), ..m }
}

fn renders_anew(replies: &Vec<RenderReply>, extension_id: &str) -> (yes: bool)
    ensures
        yes == rendered_anew(replies@, extension_id@),
{
    let mut i: usize = 0;
    while i < replies.len()
        invariant
            i <= replies.len(),
            forall|j: int|
                0 <= j < i ==> !((#[trigger] replies@[j]).outcome is Views
                    && replies@[j].extension_id@ == extension_id@),
        decreases replies.len() - i,
    {
        let anew: bool = match &replies[i].outcome {
            RenderOutcome::Views(_) => true,
            _ => false,
        };
        if anew && same_text(replies[i].extension_id.as_str(), extension_id) {
            return true;
        }
        i = i + 1;
    }
    false
}

/// Whether a view comes before another one.
fn is_view_before(a: (&str, &str), b: (&str, &str)) -> (yes: bool)
    ensures
        yes == view_before((a.0@, a.1@), (b.0@, b.1@)),
{
    if same_text(a.0, b.0) {
        in_order(a.1, b.1)
    } else {
        in_order(a.0, b.0)
    }
}

fn place_key(keys: &mut Vec<ViewKey>, key: ViewKey)
    ensures
        key_models(final(keys)@) == with_key(
            key_models(old(keys)@),
            (key.extension_id@, key.view_id@),
        ),
{
    let ghost all = key_models(keys@);
    let ghost added = (key.extension_id@, key.view_id@);
    let mut i: usize = keys.len();
    assert(all.take(i as int) =~= all);
    assert(with_key(all, added) =~= with_key(all, added) + all.skip(i as int));
    while i > 0 && !is_view_before(
        (keys[i - 1].extension_id.as_str(), keys[i - 1].view_id.as_str()),
        (key.extension_id.as_str(), key.view_id.as_str()),
    )
        invariant
            i <= keys.len(),
            all == key_models(keys@),
            added == (key.extension_id@, key.view_id@),
            with_key(all, added) == with_key(all.take(i as int), added) + all.skip(i as int),
        decreases i,
    {
        proof {
            let some = all.take(i as int);
            assert(some.last() == (keys@[i - 1].extension_id@, keys@[i - 1].view_id@));
            assert(some.drop_last() =~= all.take(i - 1));
            assert(with_key(some, added) + all.skip(i as int) =~= with_key(all.take(i - 1), added)
                + all.skip(i - 1));
        }
        i = i - 1;
    }
    proof {
        if i > 0 {
            assert(all.take(i as int).last() == (
                keys@[i - 1].extension_id@,
                keys@[i - 1].view_id@,
            ));
        }
    }
    keys.insert(i, key);
    assert(key_models(keys@) =~= all.take(i as int).push(added) + all.skip(i as int));
}

fn place_view(views: &mut Vec<ChromeView>, view: ChromeView)
    ensures
        view_models(final(views)@) == with_view(view_models(old(views)@), view@),
{
    let ghost all = view_models(views@);
    let ghost added = view@;
    let mut i: usize = views.len();
    assert(all.take(i as int) =~= all);
    assert(with_view(all, added) =~= with_view(all, added) + all.skip(i as int));
    while i > 0
        invariant
            i <= views.len(),
            views@ == old(views)@,
            all == view_models(views@),
            added == view@,
            with_view(all, added) == with_view(all.take(i as int), added) + all.skip(i as int),
        decreases i,
    {
        let ghost some = all.take(i as int);
        proof {
            assert(some.last() == views@[i - 1]@);
            assert(some.drop_last() =~= all.take(i - 1));
        }
        let own: (&str, &str) = (view.extension_id.as_str(), view.view_id.as_str());
        let other: (&str, &str) = (
            views[i - 1].extension_id.as_str(),
            views[i - 1].view_id.as_str(),
        );
        if same_text(other.0, own.0) && same_text(other.1, own.1) {
            views.set(i - 1, view);
            assert(view_models(views@) =~= all.take(i - 1).push(added) + all.skip(i as int));
            return;
        }
        if is_view_before(other, own) {
            views.insert(i, view);
            assert(view_models(views@) =~= some.push(added) + all.skip(i as int));
            return;
        }
        assert(with_view(some, added) + all.skip(i as int) =~= with_view(all.take(i - 1), added)
            + all.skip(i - 1));
        i = i - 1;
    }
    views.insert(0, view);
    assert(view_models(views@) =~= seq![added] + all.skip(0));
}

fn place_rendered(views: &mut Vec<ChromeView>, extension_id: &str, rendered: &Vec<String>)
    ensures
        view_models(final(views)@) == with_rendered(
            view_models(old(views)@),
            extension_id@,
            text::texts(rendered@),
        ),
{
    let ghost before = view_models(views@);
    let ghost all = text::texts(rendered@);
    let mut i: usize = 0;
    assert(all.take(0) =~= Seq::<Seq<char>>::empty());
    while i < rendered.len()
        invariant
            i <= rendered.len(),
            all == text::texts(rendered@),
            view_models(views@) == with_rendered(before, extension_id@, all.take(i as int)),
        decreases rendered.len() - i,
    {
        proof {
            assert(all.take(i + 1).drop_last() =~= all.take(i as int));
            assert(all.take(i + 1).last() == rendered@[i as int]@);
        }
        let view = ChromeView {
            extension_id: extension_id.to_owned(),
            view_id: view_id_of(rendered[i].as_str()),
            vdom_json: rendered[i].clone(),
        };
        place_view(views, view);
        i = i + 1;
    }
    assert(all.take(i as int) =~= all);
}

fn holds_key(views: &Vec<ChromeView>, extension_id: &str, view_id: &str) -> (found: bool)
    ensures
        found == view_keys(view_models(views@)).contains((extension_id@, view_id@)),
{
    let ghost keys = view_keys(view_models(views@));
    let mut i: usize = 0;
    while i < views.len()
        invariant
            i <= views.len(),
            keys == view_keys(view_models(views@)),
            forall|j: int| 0 <= j < i ==> #[trigger] keys[j] != (extension_id@, view_id@),
        decreases views.len() - i,
    {
        assert(keys[i as int] == (
            views@[i as int].extension_id@,
            views@[i as int].view_id@,
        ));
        if same_text(views[i].extension_id.as_str(), extension_id) && same_text(
            views[i].view_id.as_str(),
            view_id,
        ) {
            return true;
        }
        i = i + 1;
    }
    false
}

fn holds_view_key(keys: &Vec<ViewKey>, extension_id: &str, view_id: &str) -> (found: bool)
    ensures
        found == key_models(keys@).contains((extension_id@, view_id@)),
{
    let ghost all = key_models(keys@);
    let mut i: usize = 0;
    while i < keys.len()
        invariant
            i <= keys.len(),
            all == key_models(keys@),
            forall|j: int| 0 <= j < i ==> #[trigger] all[j] != (extension_id@, view_id@),
        decreases keys.len() - i,
    {
        assert(all[i as int] == (keys@[i as int].extension_id@, keys@[i as int].view_id@));
        if same_text(keys[i].extension_id.as_str(), extension_id) && same_text(
            keys[i].view_id.as_str(),
            view_id,
        ) {
            return true;
        }
        i = i + 1;
    }
    false
}

/// What is said of a worker that did not come up in time.
pub open spec fn late_text() -> Seq<char> {
    "worker did not finish loading in time; it was suspended"@
}

/// What keeps an action from being carried out.
pub open spec fn action_refusal(
    m: ManagerModel,
    extension: Seq<char>,
    view: Seq<char>,
    command: Seq<char>,
) -> Option<Seq<char>> {
    let k = worker_index(m.workers, extension, 0);
    if command.len() == 0 {
        Some("chrome action command must not be empty"@)
    } else if k >= m.workers.len() {
        Some("chrome action targets unknown server extension `"@ + extension + "`"@)
    } else if m.workers[k].suspended {
        Some("chrome action targets suspended server extension `"@ + extension + "`"@)
    } else if !m.published.contains((extension, view)) {
        Some(
            "chrome action targets view `"@ + view + "` of `"@ + extension
                + "`, which was never published to clients"@,
        )
    } else {
        None
    }
}

/// What came of asking a worker to carry out an action.
#[derive(Debug)]
pub enum ActionOutcome {
    Done,
    /// It failed, and why.
    Failed(String),
    /// The worker has too much to do already.
    Busy,
    /// The worker did not answer in time.
    TimedOut,
    /// The worker ended without an answer.
    Gone,
}

/// What becomes of the manager.
pub open spec fn after_action(
    p: Progress,
    extension: Seq<char>,
    instance: u64,
    outcome: ActionOutcome,
) -> Progress {
    match outcome {
        ActionOutcome::TimedOut => suspend(p, extension, instance, SuspensionReason::Unresponsive),
        ActionOutcome::Gone => suspend(p, extension, instance, SuspensionReason::Crashed),
        _ => p,
    }
}

/// What is answered.
pub open spec fn action_answer(extension: Seq<char>, outcome: ActionOutcome) -> Option<Seq<char>> {
    match outcome {
        ActionOutcome::Done => None,
        ActionOutcome::Failed(message) => Some(message@),
        ActionOutcome::Busy => Some(
            "chrome action target `"@ + extension + "` is busy; try again later"@,
        ),
        ActionOutcome::TimedOut => Some(
            "chrome action on `"@ + extension
                + "` did not complete in time; extension suspended"@,
        ),
        ActionOutcome::Gone => Some(
            "chrome action target `"@ + extension + "` exited unexpectedly"@,
        ),
    }
}

/// A report of a worker.
#[derive(Debug)]
pub enum WorkerEvent {
    Suspended { extension_id: String, instance: u64, reason: SuspensionReason },
    RenderRequested { extension_id: String, instance: u64 },
}

/// Whether a worker is there, is the one meant, and runs.
pub open spec fn is_current(m: ManagerModel, id: Seq<char>, instance: u64) -> bool {
    let k = worker_index(m.workers, id, 0);
    k < m.workers.len() && m.workers[k].instance == instance && !m.workers[k].suspended
}

impl ExtensionManager {
    /// What tells the next worker from all before it.
    pub fn reserve_instance(&mut self) -> (instance: u64)
        requires
            old(self)@.next_instance < u64::MAX,
        ensures
            instance == old(self)@.next_instance,
            final(self)@ == (ManagerModel {
                next_instance: (instance + 1) as u64,
                ..old(self)@
            }),
    {
        let instance: u64 = self.next_instance;
        self.next_instance = instance + 1;
        instance
    }

    /// Takes in a worker that came up, in place of an earlier one of the same
    /// extension.
    pub fn worker_ready(
        &mut self,
        effects: &mut Effects,
        extension_id: String,
        instance: u64,
        ready: WorkerReady,
    ) -> (result: Result<(), String>)
        ensures
            at(final(self)@, final(effects)@) == came_up(
                at(old(self)@, old(effects)@),
                extension_id@,
                instance,
                ready,
            ),
            match result {
                Ok(_) => ready is Running || ready is Suspended,
                Err(message) => match ready {
                    WorkerReady::Failed(why) => message@ == why@,
                    WorkerReady::TimedOut => message@ == late_text(),
                    _ => false,
                },
            },
    {
        match ready {
            WorkerReady::Running => {
                self.insert_worker(
                    effects,
                    Worker { id: extension_id, instance, suspended: false },
                    None,
                );
                Ok(())
            },
            WorkerReady::Suspended(reason) => {
                self.insert_worker(
                    effects,
                    Worker { id: extension_id, instance, suspended: true },
                    Some(reason),
                );
                Ok(())
            },
            WorkerReady::Failed(why) => Err(why),
            WorkerReady::TimedOut => {
                self.insert_worker(
                    effects,
                    Worker { id: extension_id, instance, suspended: true },
                    Some(SuspensionReason::Unresponsive),
                );
                Err("worker did not finish loading in time; it was suspended".to_owned())
            },
        }
    }

    /// The extensions that there are.
    pub fn ids(&self) -> (ids: Vec<String>)
        ensures
            text::texts(ids@) == self@.workers.map_values(|w: WorkerModel| w.id),
    {
        let ghost all = self@.workers.map_values(|w: WorkerModel| w.id);
        let mut ids: Vec<String> = Vec::new();
        let mut i: usize = 0;
        assert(text::texts(ids@) =~= all.take(0));
        while i < self.workers.len()
            invariant
                i <= self.workers.len(),
                all == self@.workers.map_values(|w: WorkerModel| w.id),
                text::texts(ids@) == all.take(i as int),
            decreases self.workers.len() - i,
        {
            let id: String = self.workers[i].id.clone();
            proof {
                text::lemma_texts_push(ids@, id);
                assert(self@.workers[i as int] == self.workers@[i as int]@);
                assert(all.take(i + 1) =~= all.take(i as int).push(id@));
            }
            ids.push(id);
            i = i + 1;
        }
        assert(all.take(i as int) =~= all);
        ids
    }

    /// The extensions that are told of an event: those that run.
    pub fn emit_targets(&self) -> (ids: Vec<String>)
        ensures
            text::texts(ids@) == running(self@.workers),
    {
        let ghost all = self@.workers;
        let mut ids: Vec<String> = Vec::new();
        let mut i: usize = 0;
        assert(text::texts(ids@) =~= running(all.take(0)));
        while i < self.workers.len()
            invariant
                i <= self.workers.len(),
                all == self@.workers,
                text::texts(ids@) == running(all.take(i as int)),
            decreases self.workers.len() - i,
        {
            proof {
                assert(all.take(i + 1).drop_last() =~= all.take(i as int));
                assert(all.take(i + 1).last() == self.workers@[i as int]@);
            }
            if !self.workers[i].suspended {
                let id: String = self.workers[i].id.clone();
                proof {
                    text::lemma_texts_push(ids@, id);
                }
                ids.push(id);
            }
            i = i + 1;
        }
        assert(all.take(i as int) =~= all);
        ids
    }

    /// The workers that are asked to render: those that run.
    pub fn render_targets(&self) -> (targets: Vec<RenderTarget>)
        ensures
            targets@.map_values(|t: RenderTarget| (t.extension_id@, t.instance)) == render_asked(
                self@.workers,
            ),
    {
        let ghost all = self@.workers;
        let mut targets: Vec<RenderTarget> = Vec::new();
        let mut i: usize = 0;
        assert(targets@.map_values(|t: RenderTarget| (t.extension_id@, t.instance))
            =~= render_asked(all.take(0)));
        while i < self.workers.len()
            invariant
                i <= self.workers.len(),
                all == self@.workers,
                targets@.map_values(|t: RenderTarget| (t.extension_id@, t.instance))
                    == render_asked(all.take(i as int)),
            decreases self.workers.len() - i,
        {
            proof {
                assert(all.take(i + 1).drop_last() =~= all.take(i as int));
                assert(all.take(i + 1).last() == self.workers@[i as int]@);
            }
            if !self.workers[i].suspended {
                let target = RenderTarget {
                    extension_id: self.workers[i].id.clone(),
                    instance: self.workers[i].instance,
                };
                let ghost before = targets@;
                targets.push(target);
                assert(targets@.map_values(|t: RenderTarget| (t.extension_id@, t.instance))
                    =~= before.map_values(|t: RenderTarget| (t.extension_id@, t.instance)).push(
                    (target.extension_id@, target.instance),
                ));
            }
            i = i + 1;
        }
        assert(all.take(i as int) =~= all);
        targets
    }

    fn collect_views(&self, replies: &Vec<RenderReply>) -> (views: Vec<ChromeView>)
        ensures
            view_models(views@) == round_views(self@.workers, replies@),
    {
        let mut views: Vec<ChromeView> = Vec::new();
        let mut i: usize = 0;
        assert(view_models(views@) =~= round_views(self@.workers, replies@.take(0)));
        while i < replies.len()
            invariant
                i <= replies.len(),
                view_models(views@) == round_views(self@.workers, replies@.take(i as int)),
            decreases replies.len() - i,
        {
            let reply: &RenderReply = &replies[i];
            proof {
                assert(replies@.take(i + 1).drop_last() =~= replies@.take(i as int));
                assert(replies@.take(i + 1).last() == *reply);
            }
            match &reply.outcome {
                RenderOutcome::Views(rendered) => {
                    let k: usize = find_worker(&self.workers, reply.extension_id.as_str());
                    if k < self.workers.len() {
                        assert(self@.workers[k as int] == self.workers@[k as int]@);
                    }
                    if !(k < self.workers.len() && self.workers[k].suspended) {
                        place_rendered(&mut views, reply.extension_id.as_str(), rendered);
                    }
                },
                _ => {},
            }
            i = i + 1;
        }
        assert(replies@.take(i as int) =~= replies@);
        views
    }

    /// Ends a round of rendering: workers that did not answer are suspended,
    /// and what the others rendered is shown in place of what was shown of them
    /// before. What was shown of an extension that rendered nothing anew, or
    /// that was not asked, stays.
    /// Gives what goes to the clients at last, apart from what the suspensions
    /// send; nothing goes to them where that is empty.
    pub fn finish_round(&mut self, effects: &mut Effects, replies: &Vec<RenderReply>) -> (batch: Vec<
        ChromeView,
    >)
        ensures
            ({
                let start = at(old(self)@, old(effects)@);
                let left = suspend_silent(suspend_gone(start, replies@), replies@);
                let views = round_views(old(self)@.workers, replies@);
                &&& final(self)@ == published_manager(left.m, views, replies@)
                &&& final(effects)@ == left.done
                &&& view_models(batch@) == published_batch(left.m, views, replies@)
            }),
    {
        let ghost start = at(self@, effects@);
        let views: Vec<ChromeView> = self.collect_views(replies);
        let mut i: usize = 0;
        assert(replies@.take(0) =~= Seq::<RenderReply>::empty());
        while i < replies.len()
            invariant
                i <= replies.len(),
                at(self@, effects@) == suspend_gone(start, replies@.take(i as int)),
            decreases replies.len() - i,
        {
            let reply: &RenderReply = &replies[i];
            proof {
                assert(replies@.take(i + 1).drop_last() =~= replies@.take(i as int));
                assert(replies@.take(i + 1).last() == *reply);
            }
            match &reply.outcome {
                RenderOutcome::Gone => {
                    self.suspend_extension(
                        effects,
                        reply.extension_id.as_str(),
                        reply.instance,
                        SuspensionReason::Crashed,
                    );
                },
                _ => {},
            }
            i = i + 1;
        }
        assert(replies@.take(i as int) =~= replies@);
        let ghost crashed = at(self@, effects@);
        i = 0;
        while i < replies.len()
            invariant
                i <= replies.len(),
                at(self@, effects@) == suspend_silent(crashed, replies@.take(i as int)),
            decreases replies.len() - i,
        {
            let reply: &RenderReply = &replies[i];
            proof {
                assert(replies@.take(i + 1).drop_last() =~= replies@.take(i as int));
                assert(replies@.take(i + 1).last() == *reply);
            }
            match &reply.outcome {
                RenderOutcome::Silent => {
                    self.suspend_extension(
                        effects,
                        reply.extension_id.as_str(),
                        reply.instance,
                        SuspensionReason::Unresponsive,
                    );
                },
                _ => {},
            }
            i = i + 1;
        }
        assert(replies@.take(i as int) =~= replies@);
        self.publish_views(views, replies)
    }

    /// Shows views in place of what was shown before of the extensions that
    /// rendered anew.
    fn publish_views(&mut self, current_views: Vec<ChromeView>, replies: &Vec<RenderReply>) -> (batch:
        Vec<ChromeView>)
        ensures
            final(self)@ == published_manager(old(self)@, view_models(current_views@), replies@),
            view_models(batch@) == published_batch(
                old(self)@,
                view_models(current_views@),
                replies@,
            ),
    {
        let ghost views = view_models(current_views@);
        let ghost keys = view_keys(views);
        let ghost all = self@.published;
        let mut gone: Vec<ChromeView> = Vec::new();
        let mut published: Vec<ViewKey> = Vec::new();
        let mut i: usize = 0;
        assert(view_models(gone@) =~= vanished(all.take(0), keys, replies@));
        assert(key_models(published@) =~= untouched(all.take(0), replies@));
        while i < self.published_views.len()
            invariant
                i <= self.published_views.len(),
                *self == *old(self),
                keys == view_keys(view_models(current_views@)),
                all == self@.published,
                view_models(gone@) == vanished(all.take(i as int), keys, replies@),
                key_models(published@) == untouched(all.take(i as int), replies@),
            decreases self.published_views.len() - i,
        {
            let key: &ViewKey = &self.published_views[i];
            proof {
                assert(all.take(i + 1).drop_last() =~= all.take(i as int));
                assert(all.take(i + 1).last() == (key.extension_id@, key.view_id@));
            }
            if !renders_anew(replies, key.extension_id.as_str()) {
                let copy = ViewKey {
                    extension_id: key.extension_id.clone(),
                    view_id: key.view_id.clone(),
                };
                let ghost before = published@;
                published.push(copy);
                assert(key_models(published@) =~= key_models(before).push(
                    (copy.extension_id@, copy.view_id@),
                ));
            } else if !holds_key(&current_views, key.extension_id.as_str(), key.view_id.as_str()) {
                let lost: ChromeView = tombstone(
                    key.extension_id.as_str(),
                    key.view_id.as_str(),
                );
                let ghost before = gone@;
                gone.push(lost);
                assert(view_models(gone@) =~= view_models(before).push(lost@));
            }
            i = i + 1;
        }
        assert(all.take(i as int) =~= all);
        let ghost kept = key_models(published@);
        i = 0;
        assert(with_keys(kept, keys.take(0)) == kept);
        while i < current_views.len()
            invariant
                i <= current_views.len(),
                keys == view_keys(view_models(current_views@)),
                key_models(published@) == with_keys(kept, keys.take(i as int)),
            decreases current_views.len() - i,
        {
            let key = ViewKey {
                extension_id: current_views[i].extension_id.clone(),
                view_id: current_views[i].view_id.clone(),
            };
            proof {
                assert(keys[i as int] == (key.extension_id@, key.view_id@));
                assert(keys.take(i + 1).drop_last() =~= keys.take(i as int));
                assert(keys.take(i + 1).last() == keys[i as int]);
            }
            place_key(&mut published, key);
            i = i + 1;
        }
        assert(keys.take(i as int) =~= keys);
        self.published_views = published;
        let mut batch: Vec<ChromeView> = current_views;
        let ghost lost = view_models(gone@);
        batch.append(&mut gone);
        assert(view_models(batch@) =~= views + lost);
        batch
    }

    /// Decides whether an action is carried out, and by which worker: only the
    /// extension that shows the view carries it out.
    pub fn plan_action(&self, extension_id: &str, view_id: &str, command: &str) -> (result: Result<
        u64,
        String,
    >)
        ensures
            ({
                let refusal = action_refusal(self@, extension_id@, view_id@, command@);
                match result {
                    Ok(instance) => refusal is None && is_current(self@, extension_id@, instance),
                    Err(message) => refusal == Some(message@),
                }
            }),
    {
        if command.unicode_len() == 0 {
            return Err("chrome action command must not be empty".to_owned());
        }
        let k: usize = find_worker(&self.workers, extension_id);
        if k >= self.workers.len() {
            return Err(
                around("chrome action targets unknown server extension `", extension_id, "`"),
            );
        }
        assert(self@.workers[k as int] == self.workers@[k as int]@);
        if self.workers[k].suspended {
            return Err(
                around("chrome action targets suspended server extension `", extension_id, "`"),
            );
        }
        if !holds_view_key(&self.published_views, extension_id, view_id) {
            let head: String = around("chrome action targets view `", view_id, "` of `");
            return Err(
                around(
                    head.as_str(),
                    extension_id,
                    "`, which was never published to clients",
                ),
            );
        }
        Ok(self.workers[k].instance)
    }

    /// Ends an action: a worker that did not answer is suspended.
    pub fn finish_action(
        &mut self,
        effects: &mut Effects,
        extension_id: &str,
        instance: u64,
        outcome: ActionOutcome,
    ) -> (result: Result<(), String>)
        ensures
            at(final(self)@, final(effects)@) == after_action(
                at(old(self)@, old(effects)@),
                extension_id@,
                instance,
                outcome,
            ),
            match result {
                Ok(_) => action_answer(extension_id@, outcome) is None,
                Err(message) => action_answer(extension_id@, outcome) == Some(message@),
            },
    {
        match outcome {
            ActionOutcome::Done => Ok(()),
            ActionOutcome::Failed(message) => Err(message),
            ActionOutcome::Busy => Err(
                around("chrome action target `", extension_id, "` is busy; try again later"),
            ),
            ActionOutcome::TimedOut => {
                self.suspend_extension(
                    effects,
                    extension_id,
                    instance,
                    SuspensionReason::Unresponsive,
                );
                Err(
                    around(
                        "chrome action on `",
                        extension_id,
                        "` did not complete in time; extension suspended",
                    ),
                )
            },
            ActionOutcome::Gone => {
                self.suspend_extension(effects, extension_id, instance, SuspensionReason::Crashed);
                Err(around("chrome action target `", extension_id, "` exited unexpectedly"))
            },
        }
    }

    /// Takes a report of a worker, and says whether a round of rendering is
    /// wanted.
    pub fn handle_worker_event(&mut self, effects: &mut Effects, event: WorkerEvent) -> (render:
        bool)
        ensures
            at(final(self)@, final(effects)@) == match event {
                WorkerEvent::Suspended { extension_id, instance, reason } => suspend(
                    at(old(self)@, old(effects)@),
                    extension_id@,
                    instance,
                    reason,
                ),
                WorkerEvent::RenderRequested { .. } => at(old(self)@, old(effects)@),
            },
            render == match event {
                WorkerEvent::Suspended { .. } => false,
                WorkerEvent::RenderRequested { extension_id, instance } => is_current(
                    old(self)@,
                    extension_id@,
                    instance,
                ),
            },
    {
        match event {
            WorkerEvent::Suspended { extension_id, instance, reason } => {
                self.suspend_extension(effects, extension_id.as_str(), instance, reason);
                false
            },
            WorkerEvent::RenderRequested { extension_id, instance } => {
                let k: usize = find_worker(&self.workers, extension_id.as_str());
                if k < self.workers.len() {
                    assert(self@.workers[k as int] == self.workers@[k as int]@);
                    self.workers[k].instance == instance && !self.workers[k].suspended
                } else {
                    false
                }
            },
        }
    }
}

} // verus!
