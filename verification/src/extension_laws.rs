//! What holds of the extensions on the server, whatever happens.
use crate::extension_manager;
use crate::extension_manager::{
    ActionOutcome, EffectsModel, ManagerModel, Progress, RenderOutcome, RenderReply,
    SuspensionReason, ViewModel, WorkerModel, WorkerReady,
};
use crate::json_text;
use crate::text;
use crate::text_order;
use vstd::prelude::*;

verus! {

/// What tells a view from others.
pub type Key = (Seq<char>, Seq<char>);

/// Whether the worker of an extension is there and runs.
pub open spec fn runs(workers: Seq<WorkerModel>, id: Seq<char>) -> bool {
    exists|i: int| 0 <= i < workers.len() && (#[trigger] workers[i]).id == id && !workers[i].suspended
}

/// Whether the worker of an extension is there and suspended.
pub open spec fn stopped(workers: Seq<WorkerModel>, id: Seq<char>) -> bool {
    exists|i: int| 0 <= i < workers.len() && (#[trigger] workers[i]).id == id && workers[i].suspended
}

/// Whether each extension has one worker.
pub open spec fn one_each(workers: Seq<WorkerModel>) -> bool {
    forall|i: int, j: int|
        0 <= i < workers.len() && 0 <= j < workers.len() && i != j ==> (#[trigger] workers[i]).id
            != (#[trigger] workers[j]).id
}

/// What is always so: each extension has one worker, views are shown only of
/// those that run, and a notice is shown of exactly those that are suspended.
pub open spec fn sound(m: ManagerModel) -> bool {
    &&& one_each(m.workers)
    &&& forall|k: Key| #[trigger] m.published.contains(k) ==> runs(m.workers, k.0)
    &&& forall|id: Seq<char>| #[trigger] m.notices.contains(id) <==> stopped(m.workers, id)
}

/// Whether the clients see a view.
pub open spec fn seen(m: ManagerModel, k: Key) -> bool {
    m.published.contains(k) || (m.notices.contains(k.0) && k.1 == extension_manager::notice_view())
}

/// What the clients see after views have come: one without a payload goes
/// away, any other is there.
pub open spec fn after_views(shown: Set<Key>, views: Seq<ViewModel>) -> Set<Key>
    decreases views.len(),
{
    if views.len() == 0 {
        shown
    } else {
        let before = after_views(shown, views.drop_last());
        if views.last().vdom.len() == 0 {
            before.remove(views.last().key())
        } else {
            before.insert(views.last().key())
        }
    }
}

/// What the clients see after batches have come.
pub open spec fn after_batches(shown: Set<Key>, batches: Seq<Seq<ViewModel>>) -> Set<Key>
    decreases batches.len(),
{
    if batches.len() == 0 {
        shown
    } else {
        after_views(after_batches(shown, batches.drop_last()), batches.last())
    }
}

/// Whether the clients see, of all that was ever sent to them, just what the
/// manager takes them to see.
pub open spec fn in_step(p: Progress) -> bool {
    forall|k: Key|
        #[trigger] after_batches(Set::empty(), p.done.batches).contains(k) <==> seen(p.m, k)
}

proof fn lemma_found(workers: Seq<WorkerModel>, id: Seq<char>)
    ensures
        ({
            let k = extension_manager::worker_index(workers, id, 0);
            &&& k < workers.len() && workers[k].suspended ==> stopped(workers, id)
            &&& k < workers.len() && !workers[k].suspended ==> runs(workers, id)
            &&& k >= workers.len() ==> !runs(workers, id) && !stopped(workers, id)
        }),
{
    extension_manager::lemma_worker_index(workers, id, 0);
}

proof fn lemma_kept(published: Seq<Key>, extension: Seq<char>, k: Key)
    ensures
        extension_manager::kept_views(published, extension).contains(k) <==> (published.contains(k)
            && k.0 != extension),
        extension_manager::view_keys(
            extension_manager::gone_views(published, extension),
        ).contains(k) <==> (published.contains(k) && k.0 == extension),
    decreases published.len(),
{
    if published.len() > 0 {
        let init = published.drop_last();
        let last = published.last();
        lemma_kept(init, extension, k);
        assert(published.contains(k) <==> (init.contains(k) || k == last)) by {
            assert(published[published.len() - 1] == last);
            if published.contains(k) {
                let i = choose|i: int| 0 <= i < published.len() && published[i] == k;
                if i < init.len() {
                    assert(init[i] == k);
                }
            }
            if init.contains(k) {
                let i = choose|i: int| 0 <= i < init.len() && init[i] == k;
                assert(published[i] == k);
            }
        }
        let kept = extension_manager::kept_views(init, extension);
        let gone = extension_manager::gone_views(init, extension);
        let gone_keys = extension_manager::view_keys(gone);
        lemma_push_contains(kept, last, k);
        lemma_push_contains(gone_keys, last, k);
        let v = ViewModel { extension: last.0, view: last.1, vdom: Seq::empty() };
        assert(extension_manager::view_keys(gone.push(v)) =~= gone_keys.push(last));
    }
}

proof fn lemma_push_contains(list: Seq<Key>, last: Key, k: Key)
    ensures
        list.push(last).contains(k) <==> (list.contains(k) || k == last),
{
    let longer = list.push(last);
    assert(longer[list.len() as int] == last);
    if longer.contains(k) {
        let i = choose|i: int| 0 <= i < longer.len() && longer[i] == k;
        if i < list.len() {
            assert(list[i] == k);
        }
    }
    if list.contains(k) {
        let i = choose|i: int| 0 <= i < list.len() && list[i] == k;
        assert(longer[i] == k);
    }
}

/// Whether none of these views has a payload.
spec fn all_gone(views: Seq<ViewModel>) -> bool {
    forall|i: int| 0 <= i < views.len() ==> (#[trigger] views[i]).vdom.len() == 0
}

/// Whether each of these views has a payload.
pub open spec fn none_gone(views: Seq<ViewModel>) -> bool {
    forall|i: int| 0 <= i < views.len() ==> (#[trigger] views[i]).vdom.len() > 0
}

proof fn lemma_views_go(shown: Set<Key>, views: Seq<ViewModel>, k: Key)
    requires
        all_gone(views),
    ensures
        after_views(shown, views).contains(k) <==> (shown.contains(k)
            && !extension_manager::view_keys(views).contains(k)),
    decreases views.len(),
{
    if views.len() > 0 {
        let init = views.drop_last();
        assert(all_gone(init)) by {
            assert forall|i: int| 0 <= i < init.len() implies (#[trigger] init[i]).vdom.len()
                == 0 by {
                assert(views[i].vdom.len() == 0);
            }
        }
        lemma_views_go(shown, init, k);
        assert(views[views.len() - 1].vdom.len() == 0);
        assert(extension_manager::view_keys(views) =~= extension_manager::view_keys(init).push(
            views.last().key(),
        ));
        lemma_push_contains(extension_manager::view_keys(init), views.last().key(), k);
    }
}

proof fn lemma_views_come(shown: Set<Key>, views: Seq<ViewModel>, k: Key)
    requires
        none_gone(views),
    ensures
        after_views(shown, views).contains(k) <==> (shown.contains(k)
            || extension_manager::view_keys(views).contains(k)),
    decreases views.len(),
{
    if views.len() > 0 {
        let init = views.drop_last();
        assert(none_gone(init)) by {
            assert forall|i: int| 0 <= i < init.len() implies (#[trigger] init[i]).vdom.len()
                > 0 by {
                assert(views[i].vdom.len() > 0);
            }
        }
        lemma_views_come(shown, init, k);
        assert(views[views.len() - 1].vdom.len() > 0);
        assert(extension_manager::view_keys(views) =~= extension_manager::view_keys(init).push(
            views.last().key(),
        ));
        lemma_push_contains(extension_manager::view_keys(init), views.last().key(), k);
    }
}

proof fn lemma_views_in_turn(shown: Set<Key>, a: Seq<ViewModel>, b: Seq<ViewModel>)
    ensures
        after_views(shown, a + b) == after_views(after_views(shown, a), b),
    decreases b.len(),
{
    if b.len() > 0 {
        lemma_views_in_turn(shown, a, b.drop_last());
        assert((a + b).drop_last() =~= a + b.drop_last());
        assert((a + b).last() == b.last());
    } else {
        assert(a + b =~= a);
    }
}

proof fn lemma_gone_views(published: Seq<Key>, extension: Seq<char>)
    ensures
        all_gone(extension_manager::gone_views(published, extension)),
    decreases published.len(),
{
    if published.len() > 0 {
        lemma_gone_views(published.drop_last(), extension);
    }
}

/// Clearing away keeps the clients in step, and leaves nothing to be seen of
/// the extension.
proof fn lemma_clear_away(p: Progress, extension: Seq<char>)
    requires
        in_step(p),
    ensures
        ({
            let q = extension_manager::clear_away(p, extension);
            &&& in_step(q)
            &&& q.m.workers == p.m.workers
            &&& q.m.next_instance == p.m.next_instance
            &&& forall|k: Key| #[trigger]
                q.m.published.contains(k) <==> (p.m.published.contains(k) && k.0 != extension)
            &&& forall|id: Seq<char>| #[trigger]
                q.m.notices.contains(id) <==> (p.m.notices.contains(id) && id != extension)
        }),
{
    let q = extension_manager::clear_away(p, extension);
    let views = extension_manager::tombstones(p.m, extension);
    let gone = extension_manager::gone_views(p.m.published, extension);
    assert forall|k: Key| #[trigger]
        q.m.published.contains(k) <==> (p.m.published.contains(k) && k.0 != extension) by {
        lemma_kept(p.m.published, extension, k);
    }
    assert forall|id: Seq<char>| #[trigger]
        q.m.notices.contains(id) <==> (p.m.notices.contains(id) && id != extension) by {
        text::lemma_without(p.m.notices, extension, id);
    }
    lemma_gone_views(p.m.published, extension);
    assert(all_gone(views));
    let shown = after_batches(Set::empty(), p.done.batches);
    assert forall|k: Key|
        #[trigger] after_batches(Set::empty(), q.done.batches).contains(k) <==> seen(q.m, k) by {
        lemma_kept(p.m.published, extension, k);
        text::lemma_without(p.m.notices, extension, k.0);
        lemma_views_go(shown, views, k);
        let notice = (extension, extension_manager::notice_view());
        lemma_push_contains(extension_manager::view_keys(gone), notice, k);
        if p.m.notices.contains(extension) {
            assert(extension_manager::view_keys(views) =~= extension_manager::view_keys(
                gone,
            ).push(notice));
        }
        if views.len() == 0 {
            assert(extension_manager::view_keys(views) =~= Seq::<Key>::empty());
            assert(q.done.batches == p.done.batches);
        } else {
            assert(q.done.batches.drop_last() =~= p.done.batches);
            assert(q.done.batches.last() == views);
        }
        assert(shown.contains(k) <==> seen(p.m, k));
    }
}

proof fn lemma_notify(p: Progress, extension: Seq<char>, reason: SuspensionReason)
    requires
        in_step(p),
    ensures
        ({
            let q = extension_manager::notify(p, extension, reason);
            &&& in_step(q)
            &&& q.m.workers == p.m.workers
            &&& q.m.next_instance == p.m.next_instance
            &&& q.m.published == p.m.published
            &&& forall|id: Seq<char>| #[trigger]
                q.m.notices.contains(id) <==> (p.m.notices.contains(id) || id == extension)
        }),
{
    let q = extension_manager::notify(p, extension, reason);
    let shown = after_batches(Set::empty(), p.done.batches);
    if !p.m.notices.contains(extension) {
        let notice = ViewModel {
            extension,
            view: extension_manager::notice_view(),
            vdom: extension_manager::notice_text(extension, reason),
        };
        reveal_strlit("{\"text\":");
        assert(notice.vdom.len() > 0);
        let batch = seq![notice];
        assert(none_gone(batch));
        assert forall|id: Seq<char>| #[trigger]
            q.m.notices.contains(id) <==> (p.m.notices.contains(id) || id == extension) by {
            assert(q.m.notices[p.m.notices.len() as int] == extension);
            if p.m.notices.contains(id) {
                let i = choose|i: int| 0 <= i < p.m.notices.len() && p.m.notices[i] == id;
                assert(q.m.notices[i] == id);
            }
            if q.m.notices.contains(id) {
                let i = choose|i: int| 0 <= i < q.m.notices.len() && q.m.notices[i] == id;
                if i < p.m.notices.len() {
                    assert(p.m.notices[i] == id);
                }
            }
        }
        assert forall|k: Key|
            #[trigger] after_batches(Set::empty(), q.done.batches).contains(k) <==> seen(
                q.m,
                k,
            ) by {
            lemma_views_come(shown, batch, k);
            assert(extension_manager::view_keys(batch) =~= seq![notice.key()]);
            assert(seq![notice.key()].contains(k) <==> k == notice.key()) by {
                assert(seq![notice.key()][0] == notice.key());
            }
            assert(q.done.batches.drop_last() =~= p.done.batches);
            assert(q.done.batches.last() == batch);
            assert(shown.contains(k) <==> seen(p.m, k));
            assert(q.m.notices.contains(k.0) <==> (p.m.notices.contains(k.0) || k.0 == extension));
        }
    }
}

/// A suspension leaves everything sound, and the clients in step.
pub proof fn law_suspensions_keep_order(
    p: Progress,
    extension: Seq<char>,
    instance: u64,
    reason: SuspensionReason,
)
    requires
        sound(p.m),
        in_step(p),
    ensures
        ({
            let q = extension_manager::suspend(p, extension, instance, reason);
            sound(q.m) && in_step(q)
        }),
{
    let k = extension_manager::worker_index(p.m.workers, extension, 0);
    extension_manager::lemma_worker_index(p.m.workers, extension, 0);
    if !(k >= p.m.workers.len() || p.m.workers[k].instance != instance
        || p.m.workers[k].suspended) {
        let workers = p.m.workers.update(k, WorkerModel { suspended: true, ..p.m.workers[k] });
        let s = Progress {
            m: ManagerModel { workers, ..p.m },
            done: EffectsModel { endings: p.done.endings.push(extension), ..p.done },
        };
        assert(in_step(s)) by {
            assert forall|v: Key|
                #[trigger] after_batches(Set::empty(), s.done.batches).contains(v) <==> seen(
                    s.m,
                    v,
                ) by {
                assert(after_batches(Set::empty(), p.done.batches).contains(v) <==> seen(p.m, v));
            }
        }
        lemma_clear_away(s, extension);
        let c = extension_manager::clear_away(s, extension);
        lemma_notify(c, extension, reason);
        let q = extension_manager::notify(c, extension, reason);
        assert(workers[k].id == extension && workers[k].suspended);
        assert forall|v: Key| #[trigger] q.m.published.contains(v) implies runs(
            q.m.workers,
            v.0,
        ) by {
            assert(c.m.published.contains(v));
            assert(p.m.published.contains(v));
            let i = choose|i: int|
                0 <= i < p.m.workers.len() && (#[trigger] p.m.workers[i]).id == v.0
                    && !p.m.workers[i].suspended;
            assert(workers[i] == p.m.workers[i]);
        }
        assert forall|id: Seq<char>| #[trigger] q.m.notices.contains(id) <==> stopped(
            q.m.workers,
            id,
        ) by {
            assert(c.m.notices.contains(id) <==> (p.m.notices.contains(id) && id != extension));
            assert(p.m.notices.contains(id) <==> stopped(p.m.workers, id));
            if id != extension {
                if stopped(p.m.workers, id) {
                    let i = choose|i: int|
                        0 <= i < p.m.workers.len() && (#[trigger] p.m.workers[i]).id == id
                            && p.m.workers[i].suspended;
                    assert(workers[i] == p.m.workers[i]);
                }
                if stopped(workers, id) {
                    let i = choose|i: int|
                        0 <= i < workers.len() && (#[trigger] workers[i]).id == id
                            && workers[i].suspended;
                    assert(workers[i] == p.m.workers[i]);
                }
            }
        }
        assert(one_each(workers)) by {
            assert forall|i: int, j: int|
                0 <= i < workers.len() && 0 <= j < workers.len() && i != j implies (
            #[trigger] workers[i]).id != (#[trigger] workers[j]).id by {
                assert(workers[i].id == p.m.workers[i].id);
                assert(workers[j].id == p.m.workers[j].id);
            }
        }
    }
}

proof fn lemma_with_worker(workers: Seq<WorkerModel>, worker: WorkerModel, w: WorkerModel)
    ensures
        extension_manager::with_worker(workers, worker).contains(w) <==> (workers.contains(w) || w
            == worker),
        extension_manager::with_worker(workers, worker).len() == workers.len() + 1,
    decreases workers.len(),
{
    let after = extension_manager::with_worker(workers, worker);
    if workers.len() == 0 || text_order::not_after(workers.last().id, worker.id, 0) {
        assert(after[workers.len() as int] == worker);
        if workers.contains(w) {
            let i = choose|i: int| 0 <= i < workers.len() && workers[i] == w;
            assert(after[i] == w);
        }
        if after.contains(w) {
            let i = choose|i: int| 0 <= i < after.len() && after[i] == w;
            if i < workers.len() {
                assert(workers[i] == w);
            }
        }
    } else {
        let init = workers.drop_last();
        let last = workers.last();
        lemma_with_worker(init, worker, w);
        let part = extension_manager::with_worker(init, worker);
        assert(after[part.len() as int] == last);
        assert(workers[init.len() as int] == last);
        if after.contains(w) {
            let i = choose|i: int| 0 <= i < after.len() && after[i] == w;
            if i < part.len() {
                assert(part[i] == w);
                assert(part.contains(w));
                if init.contains(w) {
                    let j = choose|j: int| 0 <= j < init.len() && init[j] == w;
                    assert(workers[j] == w);
                }
            }
        }
        if workers.contains(w) || w == worker {
            if workers.contains(w) {
                let j = choose|j: int| 0 <= j < workers.len() && workers[j] == w;
                if j < init.len() {
                    assert(init[j] == w);
                    assert(init.contains(w));
                }
            }
            if part.contains(w) {
                let i = choose|i: int| 0 <= i < part.len() && part[i] == w;
                assert(after[i] == w);
            }
        }
    }
}

proof fn lemma_with_worker_one_each(workers: Seq<WorkerModel>, worker: WorkerModel)
    requires
        one_each(workers),
        forall|i: int| 0 <= i < workers.len() ==> (#[trigger] workers[i]).id != worker.id,
    ensures
        one_each(extension_manager::with_worker(workers, worker)),
    decreases workers.len(),
{
    let after = extension_manager::with_worker(workers, worker);
    if workers.len() == 0 || text_order::not_after(workers.last().id, worker.id, 0) {
        assert forall|i: int, j: int|
            0 <= i < after.len() && 0 <= j < after.len() && i != j implies (#[trigger] after[i]).id
            != (#[trigger] after[j]).id by {
            if i < workers.len() {
                assert(after[i] == workers[i]);
            }
            if j < workers.len() {
                assert(after[j] == workers[j]);
            }
        }
    } else {
        let init = workers.drop_last();
        let last = workers.last();
        assert(one_each(init)) by {
            assert forall|i: int, j: int|
                0 <= i < init.len() && 0 <= j < init.len() && i != j implies (#[trigger] init[i]).id
                != (#[trigger] init[j]).id by {
                assert(init[i] == workers[i] && init[j] == workers[j]);
            }
        }
        assert forall|i: int| 0 <= i < init.len() implies (#[trigger] init[i]).id != worker.id by {
            assert(init[i] == workers[i]);
        }
        lemma_with_worker_one_each(init, worker);
        let part = extension_manager::with_worker(init, worker);
        assert forall|i: int| 0 <= i < part.len() implies (#[trigger] part[i]).id != last.id by {
            lemma_with_worker(init, worker, part[i]);
            assert(part.contains(part[i]));
            assert(workers[workers.len() - 1] == last);
            if init.contains(part[i]) {
                let j = choose|j: int| 0 <= j < init.len() && init[j] == part[i];
                assert(workers[j] == part[i]);
            }
        }
        assert forall|i: int, j: int|
            0 <= i < after.len() && 0 <= j < after.len() && i != j implies (#[trigger] after[i]).id
            != (#[trigger] after[j]).id by {
            if i < part.len() {
                assert(after[i] == part[i]);
            }
            if j < part.len() {
                assert(after[j] == part[j]);
            }
        }
    }
}

proof fn lemma_take_in(p: Progress, worker: WorkerModel, reason: Option<SuspensionReason>)
    requires
        sound(p.m),
        in_step(p),
        worker.suspended == reason is Some,
    ensures
        ({
            let q = extension_manager::take_in(p, worker, reason);
            sound(q.m) && in_step(q)
        }),
{
    let k = extension_manager::worker_index(p.m.workers, worker.id, 0);
    extension_manager::lemma_worker_index(p.m.workers, worker.id, 0);
    let rest = if k < p.m.workers.len() {
        p.m.workers.remove(k)
    } else {
        p.m.workers
    };
    let left = Progress {
        m: ManagerModel { workers: rest, ..p.m },
        done: EffectsModel { endings: p.done.endings.push(worker.id), ..p.done },
    };
    assert(in_step(left)) by {
        assert forall|v: Key|
            #[trigger] after_batches(Set::empty(), left.done.batches).contains(v) <==> seen(
                left.m,
                v,
            ) by {
            assert(after_batches(Set::empty(), p.done.batches).contains(v) <==> seen(p.m, v));
        }
    }
    lemma_clear_away(left, worker.id);
    let cleared = if k < p.m.workers.len() {
        extension_manager::clear_away(left, worker.id)
    } else {
        p
    };
    assert(in_step(cleared));
    // Without a worker nothing was shown of the extension.
    if k >= p.m.workers.len() {
        lemma_found(p.m.workers, worker.id);
    }
    assert forall|v: Key| #[trigger] cleared.m.published.contains(v) <==> (p.m.published.contains(v)
        && v.0 != worker.id) by {
        if k >= p.m.workers.len() && p.m.published.contains(v) {
            assert(runs(p.m.workers, v.0));
        }
    }
    assert forall|id: Seq<char>| #[trigger] cleared.m.notices.contains(id) <==> (
    p.m.notices.contains(id) && id != worker.id) by {
        if k >= p.m.workers.len() && p.m.notices.contains(id) {
            assert(stopped(p.m.workers, id));
        }
    }
    let told = match reason {
        Some(r) => extension_manager::notify(cleared, worker.id, r),
        None => cleared,
    };
    if reason is Some {
        lemma_notify(cleared, worker.id, reason->0);
    }
    let workers = extension_manager::with_worker(rest, worker);
    let q = Progress { m: ManagerModel { workers, ..told.m }, ..told };
    assert(q == extension_manager::take_in(p, worker, reason));
    assert(in_step(q)) by {
        assert forall|v: Key|
            #[trigger] after_batches(Set::empty(), q.done.batches).contains(v) <==> seen(
                q.m,
                v,
            ) by {
            assert(after_batches(Set::empty(), told.done.batches).contains(v) <==> seen(
                told.m,
                v,
            ));
        }
    }
    assert forall|i: int| 0 <= i < rest.len() implies (#[trigger] rest[i]).id != worker.id by {
        if k < p.m.workers.len() {
            if i < k {
                assert(rest[i] == p.m.workers[i]);
            } else {
                assert(rest[i] == p.m.workers[i + 1]);
                assert(p.m.workers[k].id != p.m.workers[i + 1].id);
            }
        }
    }
    assert(one_each(rest)) by {
        assert forall|i: int, j: int|
            0 <= i < rest.len() && 0 <= j < rest.len() && i != j implies (#[trigger] rest[i]).id
            != (#[trigger] rest[j]).id by {
            if k < p.m.workers.len() {
                let a = if i < k {
                    i
                } else {
                    i + 1
                };
                let b = if j < k {
                    j
                } else {
                    j + 1
                };
                assert(rest[i] == p.m.workers[a] && rest[j] == p.m.workers[b]);
            }
        }
    }
    lemma_with_worker_one_each(rest, worker);
    assert forall|v: Key| #[trigger] q.m.published.contains(v) implies runs(q.m.workers, v.0) by {
        assert(cleared.m.published.contains(v));
        let i = choose|i: int|
            0 <= i < p.m.workers.len() && (#[trigger] p.m.workers[i]).id == v.0
                && !p.m.workers[i].suspended;
        lemma_rest_holds(p.m.workers, k, i, worker, rest, workers);
    }
    assert forall|id: Seq<char>| #[trigger] q.m.notices.contains(id) <==> stopped(
        q.m.workers,
        id,
    ) by {
        assert(cleared.m.notices.contains(id) <==> (p.m.notices.contains(id) && id != worker.id));
        assert(p.m.notices.contains(id) <==> stopped(p.m.workers, id));
        lemma_with_worker(rest, worker, worker);
        let at = choose|at: int| 0 <= at < workers.len() && workers[at] == worker;
        assert(workers[at].id == worker.id);
        if id != worker.id && stopped(p.m.workers, id) {
            let i = choose|i: int|
                0 <= i < p.m.workers.len() && (#[trigger] p.m.workers[i]).id == id
                    && p.m.workers[i].suspended;
            lemma_rest_holds(p.m.workers, k, i, worker, rest, workers);
        }
        if stopped(workers, id) {
            let i = choose|i: int|
                0 <= i < workers.len() && (#[trigger] workers[i]).id == id && workers[i].suspended;
            lemma_with_worker(rest, worker, workers[i]);
            assert(workers.contains(workers[i]));
            if id != worker.id {
                let j = choose|j: int| 0 <= j < rest.len() && rest[j] == workers[i];
                if k < p.m.workers.len() {
                    if j < k {
                        assert(rest[j] == p.m.workers[j]);
                    } else {
                        assert(rest[j] == p.m.workers[j + 1]);
                    }
                }
            } else {
                assert(workers[at].id == workers[i].id);
                assert(at == i);
            }
        }
    }
}

/// Every other worker is still there.
proof fn lemma_rest_holds(
    before: Seq<WorkerModel>,
    k: int,
    i: int,
    worker: WorkerModel,
    rest: Seq<WorkerModel>,
    after: Seq<WorkerModel>,
)
    requires
        0 <= i < before.len(),
        0 <= k <= before.len(),
        before[i].id != worker.id,
        k < before.len() ==> before[k].id == worker.id && rest == before.remove(k),
        k >= before.len() ==> rest == before,
        after == extension_manager::with_worker(rest, worker),
    ensures
        before[i].suspended ==> stopped(after, before[i].id),
        !before[i].suspended ==> runs(after, before[i].id),
{
    let w = before[i];
    lemma_with_worker(rest, worker, w);
    assert(rest.contains(w)) by {
        if k < before.len() {
            if i < k {
                assert(rest[i] == w);
            } else {
                assert(rest[i - 1] == w);
            }
        } else {
            assert(rest[i] == w);
        }
    }
    let j = choose|j: int| 0 <= j < after.len() && after[j] == w;
    assert(after[j].id == w.id);
}

/// Workers that come up leave everything sound, and the clients in step.
pub proof fn law_new_workers_keep_order(
    p: Progress,
    id: Seq<char>,
    instance: u64,
    ready: WorkerReady,
)
    requires
        sound(p.m),
        in_step(p),
    ensures
        ({
            let q = extension_manager::came_up(p, id, instance, ready);
            sound(q.m) && in_step(q)
        }),
{
    match ready {
        WorkerReady::Running => {
            lemma_take_in(p, WorkerModel { id, instance, suspended: false }, None);
        },
        WorkerReady::Suspended(reason) => {
            lemma_take_in(p, WorkerModel { id, instance, suspended: true }, Some(reason));
        },
        WorkerReady::Failed(_) => {},
        WorkerReady::TimedOut => {
            lemma_take_in(
                p,
                WorkerModel { id, instance, suspended: true },
                Some(SuspensionReason::Unresponsive),
            );
        },
    }
}

/// The end of an action leaves everything sound, and the clients in step.
pub proof fn law_actions_keep_order(
    p: Progress,
    extension: Seq<char>,
    instance: u64,
    outcome: ActionOutcome,
)
    requires
        sound(p.m),
        in_step(p),
    ensures
        ({
            let q = extension_manager::after_action(p, extension, instance, outcome);
            sound(q.m) && in_step(q)
        }),
{
    law_suspensions_keep_order(p, extension, instance, SuspensionReason::Unresponsive);
    law_suspensions_keep_order(p, extension, instance, SuspensionReason::Crashed);
}

/// What the clients see of an extension that is suspended is its notice, and
/// nothing else.
pub proof fn law_only_the_notice_is_seen(m: ManagerModel, id: Seq<char>, view: Seq<char>)
    requires
        sound(m),
        stopped(m.workers, id),
    ensures
        seen(m, (id, view)) <==> view == extension_manager::notice_view(),
{
    assert(m.notices.contains(id));
    if m.published.contains((id, view)) {
        assert(runs(m.workers, id));
        let i = choose|i: int|
            0 <= i < m.workers.len() && (#[trigger] m.workers[i]).id == id
                && !m.workers[i].suspended;
        let j = choose|j: int|
            0 <= j < m.workers.len() && (#[trigger] m.workers[j]).id == id
                && m.workers[j].suspended;
        assert(i != j);
    }
}

/// A manager without workers is sound, and clients that were sent nothing are
/// in step with it.
pub proof fn law_order_from_the_start(m: ManagerModel)
    requires
        m.workers.len() == 0,
        m.published.len() == 0,
        m.notices.len() == 0,
    ensures
        sound(m),
        in_step(Progress { m, done: extension_manager::nothing_done() }),
{
}

/// Whether replies are what comes of asking the workers that run: one of each,
/// and views that are not empty.
pub open spec fn answers(m: ManagerModel, replies: Seq<RenderReply>) -> bool {
    &&& forall|i: int|
        0 <= i < replies.len() ==> extension_manager::is_current(
            m,
            (#[trigger] replies[i]).extension_id@,
            replies[i].instance,
        )
    &&& forall|i: int, j: int|
        0 <= i < replies.len() && 0 <= j < replies.len() && i != j ==> (
        #[trigger] replies[i]).extension_id@ != (#[trigger] replies[j]).extension_id@
    &&& forall|i: int| 0 <= i < replies.len() ==> rendered_something((#[trigger] replies[i]).outcome)
}

/// Whether every view that was rendered has a payload.
pub open spec fn rendered_something(outcome: RenderOutcome) -> bool {
    match outcome {
        RenderOutcome::Views(views) => forall|j: int|
            0 <= j < text::texts(views@).len() ==> (#[trigger] text::texts(views@)[j]).len() > 0,
        _ => true,
    }
}

proof fn lemma_gone_in_order(p: Progress, replies: Seq<RenderReply>)
    requires
        sound(p.m),
        in_step(p),
    ensures
        sound(extension_manager::suspend_gone(p, replies).m),
        in_step(extension_manager::suspend_gone(p, replies)),
    decreases replies.len(),
{
    if replies.len() > 0 {
        lemma_gone_in_order(p, replies.drop_last());
        law_suspensions_keep_order(
            extension_manager::suspend_gone(p, replies.drop_last()),
            replies.last().extension_id@,
            replies.last().instance,
            SuspensionReason::Crashed,
        );
    }
}

proof fn lemma_silent_in_order(p: Progress, replies: Seq<RenderReply>)
    requires
        sound(p.m),
        in_step(p),
    ensures
        sound(extension_manager::suspend_silent(p, replies).m),
        in_step(extension_manager::suspend_silent(p, replies)),
    decreases replies.len(),
{
    if replies.len() > 0 {
        lemma_silent_in_order(p, replies.drop_last());
        law_suspensions_keep_order(
            extension_manager::suspend_silent(p, replies.drop_last()),
            replies.last().extension_id@,
            replies.last().instance,
            SuspensionReason::Unresponsive,
        );
    }
}

proof fn lemma_others_run_on(
    p: Progress,
    extension: Seq<char>,
    instance: u64,
    reason: SuspensionReason,
    id: Seq<char>,
)
    requires
        id != extension,
        runs(p.m.workers, id),
    ensures
        runs(extension_manager::suspend(p, extension, instance, reason).m.workers, id),
{
    let k = extension_manager::worker_index(p.m.workers, extension, 0);
    extension_manager::lemma_worker_index(p.m.workers, extension, 0);
    let q = extension_manager::suspend(p, extension, instance, reason);
    let i = choose|i: int|
        0 <= i < p.m.workers.len() && (#[trigger] p.m.workers[i]).id == id
            && !p.m.workers[i].suspended;
    assert(q.m.workers[i] == p.m.workers[i]);
}

proof fn lemma_runs_on_when_others_go(p: Progress, replies: Seq<RenderReply>, id: Seq<char>)
    requires
        runs(p.m.workers, id),
        forall|i: int|
            0 <= i < replies.len() && (#[trigger] replies[i]).outcome is Gone
                ==> replies[i].extension_id@ != id,
    ensures
        runs(extension_manager::suspend_gone(p, replies).m.workers, id),
    decreases replies.len(),
{
    if replies.len() > 0 {
        let init = replies.drop_last();
        assert forall|i: int|
            0 <= i < init.len() && (#[trigger] init[i]).outcome is Gone implies init[i].extension_id@
            != id by {
            assert(init[i] == replies[i]);
        }
        lemma_runs_on_when_others_go(p, init, id);
        let last = replies[replies.len() - 1];
        if last.outcome is Gone {
            lemma_others_run_on(
                extension_manager::suspend_gone(p, init),
                last.extension_id@,
                last.instance,
                SuspensionReason::Crashed,
                id,
            );
        }
    }
}

proof fn lemma_runs_on_when_others_are_silent(
    p: Progress,
    replies: Seq<RenderReply>,
    id: Seq<char>,
)
    requires
        runs(p.m.workers, id),
        forall|i: int|
            0 <= i < replies.len() && (#[trigger] replies[i]).outcome is Silent
                ==> replies[i].extension_id@ != id,
    ensures
        runs(extension_manager::suspend_silent(p, replies).m.workers, id),
    decreases replies.len(),
{
    if replies.len() > 0 {
        let init = replies.drop_last();
        assert forall|i: int|
            0 <= i < init.len() && (#[trigger] init[i]).outcome is Silent implies init[
            i].extension_id@ != id by {
            assert(init[i] == replies[i]);
        }
        lemma_runs_on_when_others_are_silent(p, init, id);
        let last = replies[replies.len() - 1];
        if last.outcome is Silent {
            lemma_others_run_on(
                extension_manager::suspend_silent(p, init),
                last.extension_id@,
                last.instance,
                SuspensionReason::Unresponsive,
                id,
            );
        }
    }
}

/// Every view is of one of the extensions for which something holds, and has a
/// payload.
spec fn views_of(views: Seq<ViewModel>, owners: spec_fn(Seq<char>) -> bool) -> bool {
    forall|i: int|
        0 <= i < views.len() ==> owners((#[trigger] views[i]).extension) && views[i].vdom.len() > 0
}

proof fn lemma_with_view(
    views: Seq<ViewModel>,
    view: ViewModel,
    owners: spec_fn(Seq<char>) -> bool,
)
    requires
        views_of(views, owners),
        owners(view.extension),
        view.vdom.len() > 0,
    ensures
        views_of(extension_manager::with_view(views, view), owners),
    decreases views.len(),
{
    let after = extension_manager::with_view(views, view);
    if views.len() > 0 {
        let init = views.drop_last();
        assert(views_of(init, owners)) by {
            assert forall|i: int| 0 <= i < init.len() implies owners(
                (#[trigger] init[i]).extension,
            ) && init[i].vdom.len() > 0 by {
                assert(init[i] == views[i]);
            }
        }
        lemma_with_view(init, view, owners);
        let part = extension_manager::with_view(init, view);
        assert forall|i: int| 0 <= i < after.len() implies owners((#[trigger] after[i]).extension)
            && after[i].vdom.len() > 0 by {
            if views.last().key() == view.key() {
                if i < init.len() {
                    assert(after[i] == init[i]);
                }
            } else if extension_manager::view_before(views.last().key(), view.key()) {
                if i < views.len() {
                    assert(after[i] == views[i]);
                }
            } else {
                if i < part.len() {
                    assert(after[i] == part[i]);
                } else {
                    assert(after[i] == views[views.len() - 1]);
                }
            }
        }
    }
}

proof fn lemma_with_rendered(
    views: Seq<ViewModel>,
    extension: Seq<char>,
    rendered: Seq<Seq<char>>,
    owners: spec_fn(Seq<char>) -> bool,
)
    requires
        views_of(views, owners),
        owners(extension),
        forall|i: int| 0 <= i < rendered.len() ==> (#[trigger] rendered[i]).len() > 0,
    ensures
        views_of(extension_manager::with_rendered(views, extension, rendered), owners),
    decreases rendered.len(),
{
    if rendered.len() > 0 {
        let init = rendered.drop_last();
        assert forall|i: int| 0 <= i < init.len() implies (#[trigger] init[i]).len() > 0 by {
            assert(init[i] == rendered[i]);
        }
        lemma_with_rendered(views, extension, init, owners);
        assert(rendered[rendered.len() - 1].len() > 0);
        lemma_with_view(
            extension_manager::with_rendered(views, extension, init),
            ViewModel {
                extension,
                view: extension_manager::view_of(rendered.last()),
                vdom: rendered.last(),
            },
            owners,
        );
    }
}

proof fn lemma_round_views(
    workers: Seq<WorkerModel>,
    replies: Seq<RenderReply>,
    owners: spec_fn(Seq<char>) -> bool,
)
    requires
        forall|i: int|
            0 <= i < replies.len() && (#[trigger] replies[i]).outcome is Views ==> owners(
                replies[i].extension_id@,
            ),
        forall|i: int|
            0 <= i < replies.len() ==> rendered_something((#[trigger] replies[i]).outcome),
    ensures
        views_of(extension_manager::round_views(workers, replies), owners),
    decreases replies.len(),
{
    if replies.len() > 0 {
        let init = replies.drop_last();
        let last = replies[replies.len() - 1];
        assert forall|i: int|
            0 <= i < init.len() && (#[trigger] init[i]).outcome is Views implies owners(
            init[i].extension_id@,
        ) by {
            assert(init[i] == replies[i]);
        }
        assert forall|i: int| 0 <= i < init.len() implies rendered_something(
            (#[trigger] init[i]).outcome,
        ) by {
            assert(init[i] == replies[i]);
        }
        lemma_round_views(workers, init, owners);
        match last.outcome {
            RenderOutcome::Views(rendered) => {
                let all = text::texts(rendered@);
                assert(rendered_something(last.outcome));
                assert forall|j: int| 0 <= j < all.len() implies (#[trigger] all[j]).len() > 0 by {
                    assert(text::texts(rendered@)[j].len() > 0);
                }
                lemma_with_rendered(
                    extension_manager::round_views(workers, init),
                    last.extension_id@,
                    all,
                    owners,
                );
            },
            _ => {},
        }
    }
}

proof fn lemma_vanished(published: Seq<Key>, keys: Seq<Key>, replies: Seq<RenderReply>, k: Key)
    ensures
        all_gone(extension_manager::vanished(published, keys, replies)),
        extension_manager::view_keys(
            extension_manager::vanished(published, keys, replies),
        ).contains(k) <==> (published.contains(k) && !keys.contains(k)
            && extension_manager::rendered_anew(replies, k.0)),
        extension_manager::untouched(published, replies).contains(k) <==> (published.contains(k)
            && !extension_manager::rendered_anew(replies, k.0)),
    decreases published.len(),
{
    if published.len() > 0 {
        let init = published.drop_last();
        let last = published.last();
        lemma_vanished(init, keys, replies, k);
        let before = extension_manager::vanished(init, keys, replies);
        assert(published =~= init.push(last));
        lemma_push_contains(init, last, k);
        lemma_push_contains(extension_manager::view_keys(before), last, k);
        lemma_push_contains(extension_manager::untouched(init, replies), last, k);
        let v = ViewModel { extension: last.0, view: last.1, vdom: Seq::empty() };
        assert(extension_manager::view_keys(before.push(v)) =~= extension_manager::view_keys(
            before,
        ).push(last));
    }
}

proof fn lemma_with_key(keys: Seq<Key>, key: Key, k: Key)
    ensures
        extension_manager::with_key(keys, key).contains(k) <==> (keys.contains(k) || k == key),
    decreases keys.len(),
{
    if keys.len() == 0 || extension_manager::view_before(keys.last(), key) {
        lemma_push_contains(keys, key, k);
    } else {
        let init = keys.drop_last();
        lemma_with_key(init, key, k);
        lemma_push_contains(extension_manager::with_key(init, key), keys.last(), k);
        lemma_push_contains(init, keys.last(), k);
        assert(keys =~= init.push(keys.last()));
    }
}

proof fn lemma_with_keys(keys: Seq<Key>, more: Seq<Key>, k: Key)
    ensures
        extension_manager::with_keys(keys, more).contains(k) <==> (keys.contains(k)
            || more.contains(k)),
    decreases more.len(),
{
    if more.len() > 0 {
        let init = more.drop_last();
        lemma_with_keys(keys, init, k);
        lemma_with_key(extension_manager::with_keys(keys, init), more.last(), k);
        lemma_push_contains(init, more.last(), k);
        assert(more =~= init.push(more.last()));
    }
}

/// A round does not take away a view of an extension that rendered nothing anew:
/// it stays shown, and nothing withdraws it.
pub proof fn law_unchanged_views_stay(
    m: ManagerModel,
    views: Seq<ViewModel>,
    replies: Seq<RenderReply>,
    k: Key,
)
    requires
        m.published.contains(k),
        !extension_manager::rendered_anew(replies, k.0),
    ensures
        extension_manager::published_manager(m, views, replies).published.contains(k),
        !extension_manager::view_keys(
            extension_manager::vanished(
                m.published,
                extension_manager::view_keys(views),
                replies,
            ),
        ).contains(k),
{
    let keys = extension_manager::view_keys(views);
    lemma_vanished(m.published, keys, replies, k);
    lemma_with_keys(extension_manager::untouched(m.published, replies), keys, k);
}

/// A round of rendering leaves everything sound, and the clients in step.
pub proof fn law_rounds_keep_order(p: Progress, replies: Seq<RenderReply>)
    requires
        sound(p.m),
        in_step(p),
        answers(p.m, replies),
    ensures
        ({
            let left = extension_manager::suspend_silent(
                extension_manager::suspend_gone(p, replies),
                replies,
            );
            let views = extension_manager::round_views(p.m.workers, replies);
            let m = extension_manager::published_manager(left.m, views, replies);
            let batch = extension_manager::published_batch(left.m, views, replies);
            &&& sound(m)
            &&& in_step(
                Progress {
                    m,
                    done: EffectsModel { batches: left.done.batches.push(batch), ..left.done },
                },
            )
        }),
{
    let crashed = extension_manager::suspend_gone(p, replies);
    let left = extension_manager::suspend_silent(crashed, replies);
    let views = extension_manager::round_views(p.m.workers, replies);
    let keys = extension_manager::view_keys(views);
    let m = extension_manager::published_manager(left.m, views, replies);
    let batch = extension_manager::published_batch(left.m, views, replies);
    lemma_gone_in_order(p, replies);
    lemma_silent_in_order(crashed, replies);
    let owners = |id: Seq<char>| runs(left.m.workers, id);
    assert forall|i: int| 0 <= i < replies.len() && (#[trigger] replies[i]).outcome is Views implies
        owners(replies[i].extension_id@) by {
        let id = replies[i].extension_id@;
        assert(extension_manager::is_current(p.m, id, replies[i].instance));
        lemma_found(p.m.workers, id);
        assert(runs(p.m.workers, id));
        lemma_runs_on_when_others_go(p, replies, id);
        lemma_runs_on_when_others_are_silent(crashed, replies, id);
    }
    lemma_round_views(p.m.workers, replies, owners);
    let kept = extension_manager::untouched(left.m.published, replies);
    assert forall|k: Key| #[trigger] m.published.contains(k) implies runs(m.workers, k.0) by {
        lemma_with_keys(kept, keys, k);
        lemma_vanished(left.m.published, keys, replies, k);
        if keys.contains(k) {
            let i = choose|i: int| 0 <= i < keys.len() && keys[i] == k;
            assert(owners(views[i].extension));
        }
    }
    assert(none_gone(views));
    let shown = after_batches(Set::empty(), left.done.batches);
    let q = Progress {
        m,
        done: EffectsModel { batches: left.done.batches.push(batch), ..left.done },
    };
    assert forall|k: Key|
        #[trigger] after_batches(Set::empty(), q.done.batches).contains(k) <==> seen(q.m, k) by {
        assert(q.done.batches.drop_last() =~= left.done.batches);
        assert(q.done.batches.last() == batch);
        let lost = extension_manager::vanished(left.m.published, keys, replies);
        lemma_views_in_turn(shown, views, lost);
        lemma_views_come(shown, views, k);
        lemma_vanished(left.m.published, keys, replies, k);
        lemma_with_keys(kept, keys, k);
        lemma_views_go(after_views(shown, views), lost, k);
        assert(shown.contains(k) <==> seen(left.m, k));
        if left.m.notices.contains(k.0) && left.m.published.contains(k) {
            assert(runs(left.m.workers, k.0));
            assert(stopped(left.m.workers, k.0));
            let i = choose|i: int|
                0 <= i < left.m.workers.len() && (#[trigger] left.m.workers[i]).id == k.0
                    && !left.m.workers[i].suspended;
            let j = choose|j: int|
                0 <= j < left.m.workers.len() && (#[trigger] left.m.workers[j]).id == k.0
                    && left.m.workers[j].suspended;
            assert(i != j);
        }
    }
}

proof fn lemma_view_is_put(views: Seq<ViewModel>, view: ViewModel, other: ViewModel)
    ensures
        extension_manager::with_view(views, view).contains(view),
        views.contains(other) && other.key() != view.key() ==> extension_manager::with_view(
            views,
            view,
        ).contains(other),
    decreases views.len(),
{
    let all = extension_manager::with_view(views, view);
    if views.len() == 0 {
        assert(all[0] == view);
    } else {
        let init = views.drop_last();
        let last = views.last();
        if views.contains(other) {
            let k = choose|k: int| 0 <= k < views.len() && views[k] == other;
            if k < init.len() {
                assert(init[k] == other);
                assert(init.contains(other));
            }
        }
        if last.key() == view.key() {
            assert(all[all.len() - 1] == view);
            if views.contains(other) && other.key() != view.key() {
                let k = choose|k: int| 0 <= k < init.len() && init[k] == other;
                assert(all[k] == other);
            }
        } else if extension_manager::view_before(last.key(), view.key()) {
            assert(all[all.len() - 1] == view);
            if views.contains(other) {
                let k = choose|k: int| 0 <= k < views.len() && views[k] == other;
                assert(all[k] == other);
            }
        } else {
            lemma_view_is_put(init, view, other);
            let rest = extension_manager::with_view(init, view);
            let a = choose|a: int| 0 <= a < rest.len() && rest[a] == view;
            assert(all[a] == view);
            if views.contains(other) && other.key() != view.key() {
                if init.contains(other) {
                    let b = choose|b: int| 0 <= b < rest.len() && rest[b] == other;
                    assert(all[b] == other);
                } else {
                    assert(all[all.len() - 1] == other);
                }
            }
        }
    }
}

proof fn lemma_rendered_are_put(
    views: Seq<ViewModel>,
    extension: Seq<char>,
    rendered: Seq<Seq<char>>,
    k: int,
    other: ViewModel,
)
    requires
        0 <= k < rendered.len() ==> forall|j: int|
            k < j < rendered.len() ==> extension_manager::view_of(#[trigger] rendered[j])
                != extension_manager::view_of(rendered[k]),
    ensures
        0 <= k < rendered.len() ==> extension_manager::with_rendered(
            views,
            extension,
            rendered,
        ).contains(
            (ViewModel {
                extension,
                view: extension_manager::view_of(rendered[k]),
                vdom: rendered[k],
            }),
        ),
        views.contains(other) && other.extension != extension ==> extension_manager::with_rendered(
            views,
            extension,
            rendered,
        ).contains(other),
    decreases rendered.len(),
{
    if rendered.len() > 0 {
        let init = rendered.drop_last();
        let before = extension_manager::with_rendered(views, extension, init);
        let last = ViewModel {
            extension,
            view: extension_manager::view_of(rendered.last()),
            vdom: rendered.last(),
        };
        if 0 <= k < init.len() {
            assert forall|j: int| k < j < init.len() implies extension_manager::view_of(
                #[trigger] init[j],
            ) != extension_manager::view_of(init[k]) by {
                assert(init[j] == rendered[j] && init[k] == rendered[k]);
            }
            lemma_rendered_are_put(views, extension, init, k, other);
            let own = ViewModel {
                extension,
                view: extension_manager::view_of(rendered[k]),
                vdom: rendered[k],
            };
            assert(extension_manager::view_of(rendered[rendered.len() - 1])
                != extension_manager::view_of(rendered[k]));
            lemma_view_is_put(before, last, own);
        } else {
            lemma_rendered_are_put(views, extension, init, -1, other);
        }
        lemma_view_is_put(before, last, other);
    }
}

/// What a worker rendered is shown: each view under its own name and as it was
/// rendered last, among all that is sent at the end of the round.
pub proof fn law_rendered_views_are_shown(
    m: ManagerModel,
    replies: Seq<RenderReply>,
    i: int,
    rendered: Seq<Seq<char>>,
    k: int,
)
    requires
        0 <= i < replies.len(),
        replies[i].outcome matches RenderOutcome::Views(views) && text::texts(views@) == rendered,
        !extension_manager::is_suspended(m.workers, replies[i].extension_id@),
        forall|j: int|
            0 <= j < replies.len() && j != i ==> (#[trigger] replies[j]).extension_id@
                != replies[i].extension_id@,
        0 <= k < rendered.len(),
        forall|j: int|
            k < j < rendered.len() ==> extension_manager::view_of(#[trigger] rendered[j])
                != extension_manager::view_of(rendered[k]),
    ensures
        ({
            let views = extension_manager::round_views(m.workers, replies);
            let own = ViewModel {
                extension: replies[i].extension_id@,
                view: extension_manager::view_of(rendered[k]),
                vdom: rendered[k],
            };
            views.contains(own) && extension_manager::published_batch(m, views, replies).contains(
                own,
            )
        }),
{
    lemma_round_shows(m.workers, replies, i, rendered, k);
    let views = extension_manager::round_views(m.workers, replies);
    let own = ViewModel {
        extension: replies[i].extension_id@,
        view: extension_manager::view_of(rendered[k]),
        vdom: rendered[k],
    };
    let batch = extension_manager::published_batch(m, views, replies);
    let a = choose|a: int| 0 <= a < views.len() && views[a] == own;
    assert(batch[a] == own);
}

proof fn lemma_round_shows(
    workers: Seq<WorkerModel>,
    replies: Seq<RenderReply>,
    i: int,
    rendered: Seq<Seq<char>>,
    k: int,
)
    requires
        0 <= i < replies.len(),
        replies[i].outcome matches RenderOutcome::Views(views) && text::texts(views@) == rendered,
        !extension_manager::is_suspended(workers, replies[i].extension_id@),
        forall|j: int|
            0 <= j < replies.len() && j != i ==> (#[trigger] replies[j]).extension_id@
                != replies[i].extension_id@,
        0 <= k < rendered.len(),
        forall|j: int|
            k < j < rendered.len() ==> extension_manager::view_of(#[trigger] rendered[j])
                != extension_manager::view_of(rendered[k]),
    ensures
        extension_manager::round_views(workers, replies).contains(
            (ViewModel {
                extension: replies[i].extension_id@,
                view: extension_manager::view_of(rendered[k]),
                vdom: rendered[k],
            }),
        ),
    decreases replies.len(),
{
    let init = replies.drop_last();
    let last = replies.last();
    let before = extension_manager::round_views(workers, init);
    let own = ViewModel {
        extension: replies[i].extension_id@,
        view: extension_manager::view_of(rendered[k]),
        vdom: rendered[k],
    };
    if i < init.len() {
        assert(init[i] == replies[i]);
        assert forall|j: int| 0 <= j < init.len() && j != i implies (
        #[trigger] init[j]).extension_id@ != init[i].extension_id@ by {
            assert(init[j] == replies[j]);
        }
        lemma_round_shows(workers, init, i, rendered, k);
        assert(replies[replies.len() - 1].extension_id@ != replies[i].extension_id@);
        if let RenderOutcome::Views(views) = last.outcome {
            lemma_rendered_are_put(before, last.extension_id@, text::texts(views@), -1, own);
        }
    } else {
        lemma_rendered_are_put(before, last.extension_id@, rendered, k, own);
    }
}

/// A worker that is suspended while it runs no longer does, is ended, and a
/// notice is shown that names it and the reason; all other workers stay as they
/// are. Anything else than the worker that runs is not suspended.
pub proof fn law_suspended_workers_are_ended_and_named(
    p: Progress,
    extension: Seq<char>,
    instance: u64,
    reason: SuspensionReason,
)
    ensures
        ({
            let q = extension_manager::suspend(p, extension, instance, reason);
            &&& !extension_manager::is_current(p.m, extension, instance) ==> q == p
            &&& extension_manager::is_current(p.m, extension, instance) ==> {
                &&& !extension_manager::is_current(q.m, extension, instance)
                &&& q.done.endings == p.done.endings.push(extension)
                &&& q.m.workers.len() == p.m.workers.len()
                &&& forall|i: int|
                    0 <= i < p.m.workers.len() ==> (#[trigger] q.m.workers[i]).id
                        == p.m.workers[i].id && q.m.workers[i].instance == p.m.workers[i].instance
                        && (p.m.workers[i].id != extension ==> q.m.workers[i] == p.m.workers[i])
                &&& q.m.notices.contains(extension)
                &&& q.done.batches.last() == seq![
                    ViewModel {
                        extension,
                        view: "z3rm.suspended"@,
                        vdom: extension_manager::notice_text(extension, reason),
                    },
                ]
                &&& q.m.next_instance == p.m.next_instance
            }
        }),
{
    let k = extension_manager::worker_index(p.m.workers, extension, 0);
    lemma_index_is_first(p.m.workers, extension, 0);
    let q = extension_manager::suspend(p, extension, instance, reason);
    if extension_manager::is_current(p.m, extension, instance) {
        let stopped = Progress {
            m: ManagerModel {
                workers: p.m.workers.update(
                    k,
                    WorkerModel { suspended: true, ..p.m.workers[k] },
                ),
                ..p.m
            },
            done: EffectsModel { endings: p.done.endings.push(extension), ..p.done },
        };
        let cleared = extension_manager::clear_away(stopped, extension);
        text::lemma_without(stopped.m.notices, extension, extension);
        assert(!cleared.m.notices.contains(extension));
        assert(q == extension_manager::notify(cleared, extension, reason));
        assert(q.m.notices[q.m.notices.len() - 1] == extension);
        lemma_index_is_first(q.m.workers, extension, 0);
        let j = extension_manager::worker_index(q.m.workers, extension, 0);
        assert(j == k) by {
            assert(q.m.workers[k].id == extension);
            if j < k {
                assert(q.m.workers[j] == p.m.workers[j]);
            }
        }
    }
}

proof fn lemma_index_is_first(workers: Seq<WorkerModel>, id: Seq<char>, k: int)
    requires
        0 <= k <= workers.len(),
    ensures
        k <= extension_manager::worker_index(workers, id, k) <= workers.len(),
        extension_manager::worker_index(workers, id, k) < workers.len()
            ==> workers[extension_manager::worker_index(workers, id, k)].id == id,
        forall|j: int|
            k <= j < extension_manager::worker_index(workers, id, k) ==> (#[trigger] workers[j]).id
                != id,
    decreases workers.len() - k,
{
    if k < workers.len() && workers[k].id != id {
        lemma_index_is_first(workers, id, k + 1);
    }
}

/// The test for workers that run.
pub open spec fn running_test() -> spec_fn(WorkerModel) -> bool {
    |w: WorkerModel| !w.suspended
}

/// Events and requests to render go to the workers that run, all of them and in
/// their order, and to no other.
pub proof fn law_running_workers_are_asked(workers: Seq<WorkerModel>)
    ensures
        ({
            let up = workers.filter(running_test());
            &&& extension_manager::running(workers).len() == up.len()
            &&& extension_manager::render_asked(workers).len() == up.len()
            &&& forall|i: int|
                0 <= i < up.len() ==> #[trigger] extension_manager::running(workers)[i] == up[i].id
            &&& forall|i: int|
                0 <= i < up.len() ==> (#[trigger] extension_manager::render_asked(workers)[i]) == (
                    up[i].id,
                    up[i].instance,
                )
        }),
    decreases workers.len(),
{
    reveal(Seq::filter);
    if workers.len() > 0 {
        let init = workers.drop_last();
        law_running_workers_are_asked(init);
        let up = workers.filter(running_test());
        let before = init.filter(running_test());
        let told = extension_manager::running(workers);
        let asked = extension_manager::render_asked(workers);
        assert forall|i: int| 0 <= i < up.len() implies #[trigger] told[i] == up[i].id by {
            if i < before.len() {
                assert(told[i] == extension_manager::running(init)[i]);
                assert(up[i] == before[i]);
            }
        }
        assert forall|i: int| 0 <= i < up.len() implies (#[trigger] asked[i]) == (
            up[i].id,
            up[i].instance,
        ) by {
            if i < before.len() {
                assert(asked[i] == extension_manager::render_asked(init)[i]);
                assert(up[i] == before[i]);
            }
        }
    }
}

/// An action is done just where it names a command, its extension runs, and the
/// view that it comes from is shown.
pub proof fn law_actions_need_a_shown_view(
    m: ManagerModel,
    extension: Seq<char>,
    view: Seq<char>,
    command: Seq<char>,
)
    ensures
        extension_manager::action_refusal(m, extension, view, command) is None <==> {
            &&& command.len() > 0
            &&& m.published.contains((extension, view))
            &&& exists|i: int| #[trigger] is_first(m.workers, extension, i)
                && !m.workers[i].suspended
        },
{
    lemma_index_is_first(m.workers, extension, 0);
    let k = extension_manager::worker_index(m.workers, extension, 0);
    if k < m.workers.len() {
        assert(is_first(m.workers, extension, k));
    }
    assert forall|i: int| #[trigger] is_first(m.workers, extension, i) implies i == k by {
        if k < i {
            assert(m.workers[k].id != extension);
        } else if i < k {
            assert(m.workers[i].id != extension);
        }
    }
}

/// Whether this is the first worker of an extension.
pub open spec fn is_first(workers: Seq<WorkerModel>, id: Seq<char>, i: int) -> bool {
    &&& 0 <= i < workers.len()
    &&& workers[i].id == id
    &&& forall|j: int| 0 <= j < i ==> (#[trigger] workers[j]).id != id
}

/// A worker that comes up is there, in the place of the one of its extension:
/// running, or suspended where it broke its bounds or was late; one that failed
/// is not. The other workers stay.
pub proof fn law_workers_come_up_as_they_are(
    p: Progress,
    id: Seq<char>,
    instance: u64,
    ready: WorkerReady,
    other: WorkerModel,
)
    requires
        one_each(p.m.workers),
    ensures
        ({
            let q = extension_manager::came_up(p, id, instance, ready);
            let late = ready is TimedOut || ready is Suspended;
            &&& ready is Failed ==> q == p
            &&& !(ready is Failed) ==> q.m.workers.contains(
                (WorkerModel { id, instance, suspended: late }),
            )
            &&& other.id != id ==> (q.m.workers.contains(other) <==> p.m.workers.contains(other))
        }),
{
    if !(ready is Failed) {
        let worker = WorkerModel {
            id,
            instance,
            suspended: ready is TimedOut || ready is Suspended,
        };
        let k = extension_manager::worker_index(p.m.workers, id, 0);
        lemma_index_is_first(p.m.workers, id, 0);
        let left = if k < p.m.workers.len() {
            p.m.workers.remove(k)
        } else {
            p.m.workers
        };
        lemma_with_worker(left, worker, worker);
        lemma_with_worker(left, worker, other);
        if other.id != id {
            if p.m.workers.contains(other) {
                let a = choose|a: int| 0 <= a < p.m.workers.len() && p.m.workers[a] == other;
                if k < p.m.workers.len() {
                    if a < k {
                        assert(left[a] == other);
                    } else {
                        assert(left[a - 1] == other);
                    }
                }
            }
            if left.contains(other) && k < p.m.workers.len() {
                let a = choose|a: int| 0 <= a < left.len() && left[a] == other;
                if a < k {
                    assert(p.m.workers[a] == other);
                } else {
                    assert(p.m.workers[a + 1] == other);
                }
            }
        }
    }
}

/// A worker is suspended just where the first one of its extension is.
pub proof fn law_first_worker_is_suspended_or_not(workers: Seq<WorkerModel>, id: Seq<char>)
    ensures
        extension_manager::is_suspended(workers, id) <==> exists|i: int|
            #[trigger] is_first(workers, id, i) && workers[i].suspended,
{
    lemma_index_is_first(workers, id, 0);
    let k = extension_manager::worker_index(workers, id, 0);
    if k < workers.len() {
        assert(is_first(workers, id, k));
    }
    assert forall|i: int| #[trigger] is_first(workers, id, i) implies i == k by {
        if k < i {
            assert(workers[k].id != id);
        } else if i < k {
            assert(workers[i].id != id);
        }
    }
}

/// Views stand by their extensions, and those of one extension by their names.
pub proof fn law_views_stand_by_extension_and_name(
    extension: Seq<char>,
    other: Seq<char>,
    a: Seq<char>,
    b: Seq<char>,
)
    ensures
        extension_manager::view_before((extension, a), (extension, b)) == text_order::not_after(
            a,
            b,
            0,
        ),
        extension != other ==> extension_manager::view_before((extension, a), (other, b))
            == text_order::not_after(extension, other, 0),
{
}

/// The test for views whose extension did not render anew.
pub open spec fn not_anew_test(replies: Seq<RenderReply>) -> spec_fn((Seq<char>, Seq<char>)) -> bool {
    |key: (Seq<char>, Seq<char>)| !extension_manager::rendered_anew(replies, key.0)
}

/// Of what was shown, the views of the extensions that did not render anew stay,
/// all of them and in their order.
pub proof fn law_other_views_stay_shown(
    published: Seq<(Seq<char>, Seq<char>)>,
    replies: Seq<RenderReply>,
)
    ensures
        extension_manager::untouched(published, replies) == published.filter(
            not_anew_test(replies),
        ),
    decreases published.len(),
{
    reveal(Seq::filter);
    if published.len() > 0 {
        law_other_views_stay_shown(published.drop_last(), replies);
    }
}

/// An action that is done is answered with nothing; one that failed with the
/// failure; and of one that came to no end it is said why, and of which extension.
pub proof fn law_actions_are_answered(extension: Seq<char>, message: String)
    ensures
        extension_manager::action_answer(extension, ActionOutcome::Done) is None,
        extension_manager::action_answer(extension, ActionOutcome::Failed(message)) == Some(
            message@,
        ),
        extension_manager::action_answer(extension, ActionOutcome::Busy) == Some(
            "chrome action target `"@ + extension + "` is busy; try again later"@,
        ),
        extension_manager::action_answer(extension, ActionOutcome::TimedOut) == Some(
            "chrome action on `"@ + extension + "` did not complete in time; extension suspended"@,
        ),
        extension_manager::action_answer(extension, ActionOutcome::Gone) == Some(
            "chrome action target `"@ + extension + "` exited unexpectedly"@,
        ),
{
}

/// A notice says which extension was suspended, and each reason in its own words.
pub proof fn law_notices_say_why(extension: Seq<char>)
    ensures
        extension_manager::notice_text(extension, SuspensionReason::CpuBudget)
            == "{\"text\":"@ + json_text::quoted(
            "extension "@ + extension + " suspended: "@ + "cpu budget exceeded"@,
        ) + ",\"type\":\"span\"}"@,
        extension_manager::notice_text(extension, SuspensionReason::MemoryBudget)
            == "{\"text\":"@ + json_text::quoted(
            "extension "@ + extension + " suspended: "@ + "memory budget exceeded"@,
        ) + ",\"type\":\"span\"}"@,
        extension_manager::notice_text(extension, SuspensionReason::IoRateLimit)
            == "{\"text\":"@ + json_text::quoted(
            "extension "@ + extension + " suspended: "@ + "io rate limit exceeded"@,
        ) + ",\"type\":\"span\"}"@,
        extension_manager::notice_text(extension, SuspensionReason::Unresponsive)
            == "{\"text\":"@ + json_text::quoted(
            "extension "@ + extension + " suspended: "@ + "did not respond to the host in time"@,
        ) + ",\"type\":\"span\"}"@,
        extension_manager::notice_text(extension, SuspensionReason::Crashed)
            == "{\"text\":"@ + json_text::quoted(
            "extension "@ + extension + " suspended: "@ + "worker exited unexpectedly"@,
        ) + ",\"type\":\"span\"}"@,
{
}

/// A worker that did not answer an action in time is suspended for that, one that
/// ended for that, and after anything else all stays.
pub proof fn law_actions_that_come_to_no_end_suspend(
    p: Progress,
    extension: Seq<char>,
    instance: u64,
    outcome: ActionOutcome,
)
    requires
        extension_manager::is_current(p.m, extension, instance),
    ensures
        ({
            let q = extension_manager::after_action(p, extension, instance, outcome);
            &&& outcome is TimedOut || outcome is Gone <==> q != p
            &&& outcome is TimedOut ==> !extension_manager::is_current(q.m, extension, instance)
                && q.done.batches.last()[0].vdom == extension_manager::notice_text(
                extension,
                SuspensionReason::Unresponsive,
            )
            &&& outcome is Gone ==> !extension_manager::is_current(q.m, extension, instance)
                && q.done.batches.last()[0].vdom == extension_manager::notice_text(
                extension,
                SuspensionReason::Crashed,
            )
        }),
{
    law_suspended_workers_are_ended_and_named(
        p,
        extension,
        instance,
        SuspensionReason::Unresponsive,
    );
    law_suspended_workers_are_ended_and_named(p, extension, instance, SuspensionReason::Crashed);
}

} // verus!
