//! How large a pane is where several clients look at it: it takes the smallest
//! size among theirs, so that each of them sees the whole screen.

use crate::text;
use vstd::prelude::*;

verus! {

/// How much of a pane a client can show.
#[derive(Debug)]
pub struct Viewport {
    pub client_id: String,
    pub cols: u32,
    pub rows: u32,
}

/// What is seen of it.
pub struct ViewportModel {
    pub client_id: Seq<char>,
    pub cols: u32,
    pub rows: u32,
}

impl View for Viewport {
    type V = ViewportModel;

    open spec fn view(&self) -> ViewportModel {
        ViewportModel { client_id: self.client_id@, cols: self.cols, rows: self.rows }
    }
}

/// What the clients of a pane can show.
#[derive(Debug)]
pub struct Viewports {
    pub reported: Vec<Viewport>,
}

impl View for Viewports {
    type V = Seq<ViewportModel>;

    open spec fn view(&self) -> Seq<ViewportModel> {
        self.reported@.map_values(|v: Viewport| v@)
    }
}

/// What the other clients can show.
pub open spec fn others(viewports: Seq<ViewportModel>, client_id: Seq<char>) -> Seq<
    ViewportModel,
> {
    viewports.filter(|v: ViewportModel| v.client_id != client_id)
}

/// The lesser of two lengths.
pub open spec fn lesser(a: u32, b: u32) -> u32 {
    if a <= b {
        a
    } else {
        b
    }
}

/// The largest size that every client can show; nobody asks for one where
/// there is no client.
pub open spec fn fitted(viewports: Seq<ViewportModel>) -> Option<(u32, u32)>
    decreases viewports.len(),
{
    if viewports.len() == 0 {
        None
    } else {
        let last = viewports.last();
        match fitted(viewports.drop_last()) {
            Some((cols, rows)) => Some((lesser(cols, last.cols), lesser(rows, last.rows))),
            None => Some((last.cols, last.rows)),
        }
    }
}

/// Whether every client has one say.
pub open spec fn one_each(viewports: Seq<ViewportModel>) -> bool {
    forall|i: int, j: int|
        0 <= i < j < viewports.len() ==> (#[trigger] viewports[i]).client_id != (
        #[trigger] viewports[j]).client_id
}

/// The lesser of two lengths.
fn minimum(a: u32, b: u32) -> (least: u32)
    ensures
        least == lesser(a, b),
{
    if a <= b {
        a
    } else {
        b
    }
}

impl Viewports {
    /// No client has said anything.
    pub fn new() -> (viewports: Viewports)
        ensures
            viewports@ == Seq::<ViewportModel>::empty(),
    {
        let viewports: Viewports = Viewports { reported: Vec::new() };
        assert(viewports@ =~= Seq::empty());
        viewports
    }

    /// The size of the pane.
    pub fn fit(&self) -> (size: Option<(u32, u32)>)
        ensures
            size == fitted(self@),
    {
        let mut size: Option<(u32, u32)> = None;
        let mut i: usize = 0;
        while i < self.reported.len()
            invariant
                i <= self.reported.len(),
                size == fitted(self@.take(i as int)),
            decreases self.reported.len() - i,
        {
            let next: &Viewport = &self.reported[i];
            assert(self@.take(i + 1).drop_last() =~= self@.take(i as int));
            size =
            match size {
                Some((cols, rows)) => Some((minimum(cols, next.cols), minimum(rows, next.rows))),
                None => Some((next.cols, next.rows)),
            };
            i += 1;
        }
        assert(self@.take(i as int) =~= self@);
        size
    }

    /// Forgets what a client said.
    fn forget(&mut self, client_id: &str)
        ensures
            final(self)@ == others(old(self)@, client_id@),
    {
        let mut rest: Vec<Viewport> = Vec::new();
        let mut i: usize = 0;
        let ghost all = self@;
        assert(all.take(0) =~= Seq::empty());
        while i < self.reported.len()
            invariant
                i <= self.reported.len(),
                all == self@,
                rest@.map_values(|v: Viewport| v@) == others(all.take(i as int), client_id@),
            decreases self.reported.len() - i,
        {
            let next: &Viewport = &self.reported[i];
            let ghost keep = |v: ViewportModel| v.client_id != client_id@;
            let ghost before = rest@;
            proof {
                assert(all.take(i + 1) =~= all.take(i as int).push(all[i as int]));
                all.take(i as int).lemma_filter_push(all[i as int], keep);
            }
            if !text::same_text(next.client_id.as_str(), client_id) {
                rest.push(
                    Viewport {
                        client_id: next.client_id.as_str().to_owned(),
                        cols: next.cols,
                        rows: next.rows,
                    },
                );
            }
            assert(rest@.map_values(|v: Viewport| v@) =~= others(all.take(i + 1), client_id@));
            i += 1;
        }
        assert(all.take(i as int) =~= all);
        self.reported = rest;
    }

    /// Takes in what a client can show from now on, and gives the size of the
    /// pane.
    pub fn set_client_viewport(&mut self, client_id: String, cols: u32, rows: u32) -> (size: (
        u32,
        u32,
    ))
        ensures
            final(self)@ == others(old(self)@, client_id@).push(
                ViewportModel { client_id: client_id@, cols, rows },
            ),
            Some(size) == fitted(final(self)@),
    {
        self.forget(client_id.as_str());
        let ghost rest = self@;
        let ghost named = client_id@;
        let size: (u32, u32) = match self.fit() {
            Some((least_cols, least_rows)) => (
                minimum(least_cols, cols),
                minimum(least_rows, rows),
            ),
            None => (cols, rows),
        };
        self.reported.push(Viewport { client_id, cols, rows });
        assert(self@ =~= rest.push(ViewportModel { client_id: named, cols, rows }));
        assert(self@.drop_last() =~= rest);
        size
    }

    /// Forgets a client that has gone, and gives the size of the pane where
    /// others still look at it.
    pub fn remove_client_viewport(&mut self, client_id: &str) -> (size: Option<(u32, u32)>)
        ensures
            final(self)@ == others(old(self)@, client_id@),
            size == fitted(final(self)@),
    {
        self.forget(client_id);
        self.fit()
    }
}

/// The pane is as large as it can be while every client sees all of it.
pub proof fn law_every_client_sees_the_whole_pane(viewports: Seq<ViewportModel>)
    ensures
        fitted(viewports) is Some == (viewports.len() > 0),
        forall|i: int|
            0 <= i < viewports.len() ==> (fitted(viewports)->0).0 <= (#[trigger] viewports[i]).cols
                && (fitted(viewports)->0).1 <= viewports[i].rows,
        viewports.len() > 0 ==> (exists|i: int|
            0 <= i < viewports.len() && (#[trigger] viewports[i]).cols == (fitted(viewports)->0).0),
        viewports.len() > 0 ==> (exists|i: int|
            0 <= i < viewports.len() && (#[trigger] viewports[i]).rows == (fitted(viewports)->0).1),
    decreases viewports.len(),
{
    if viewports.len() > 0 {
        let init = viewports.drop_last();
        let n = viewports.len() as int;
        law_every_client_sees_the_whole_pane(init);
        assert forall|i: int| 0 <= i < n implies (fitted(viewports)->0).0 <= (
        #[trigger] viewports[i]).cols && (fitted(viewports)->0).1 <= viewports[i].rows by {
            if i < n - 1 {
                assert(init[i] == viewports[i]);
            }
        }
        assert(viewports[n - 1] == viewports.last());
        if init.len() > 0 {
            let a = choose|i: int|
                0 <= i < init.len() && (#[trigger] init[i]).cols == (fitted(init)->0).0;
            let b = choose|i: int|
                0 <= i < init.len() && (#[trigger] init[i]).rows == (fitted(init)->0).1;
            assert(viewports[a] == init[a]);
            assert(viewports[b] == init[b]);
        }
    }
}

/// Where a client goes, its say goes with it: a pane that others still look at
/// does not shrink, and is as large as if that client had said nothing.
pub proof fn law_a_pane_grows_back(viewports: Seq<ViewportModel>, gone: ViewportModel)
    ensures
        others(viewports, gone.client_id).len() > 0 ==> (fitted(viewports)->0).0 <= (fitted(
            others(viewports, gone.client_id),
        )->0).0 && (fitted(viewports)->0).1 <= (fitted(others(viewports, gone.client_id))->0).1,
        others(others(viewports, gone.client_id).push(gone), gone.client_id) == others(
            viewports,
            gone.client_id,
        ),
{
    let keep = |v: ViewportModel| v.client_id != gone.client_id;
    let rest = others(viewports, gone.client_id);
    lemma_others(viewports, gone.client_id);
    rest.lemma_filter_push(gone, keep);
    lemma_filter_keeps(rest, keep);
    law_every_client_sees_the_whole_pane(viewports);
    law_every_client_sees_the_whole_pane(rest);
    if rest.len() > 0 {
        let a = choose|i: int|
            0 <= i < rest.len() && (#[trigger] rest[i]).cols == (fitted(rest)->0).0;
        let b = choose|i: int|
            0 <= i < rest.len() && (#[trigger] rest[i]).rows == (fitted(rest)->0).1;
        assert(viewports.contains(rest[a]) && viewports.contains(rest[b]));
    }
}

proof fn lemma_filter_keeps(viewports: Seq<ViewportModel>, keep: spec_fn(ViewportModel) -> bool)
    requires
        forall|i: int| 0 <= i < viewports.len() ==> keep(#[trigger] viewports[i]),
    ensures
        viewports.filter(keep) == viewports,
    decreases viewports.len(),
{
    reveal(Seq::filter);
    if viewports.len() > 0 {
        let init = viewports.drop_last();
        assert forall|i: int| 0 <= i < init.len() implies keep(#[trigger] init[i]) by {
            assert(init[i] == viewports[i]);
        }
        lemma_filter_keeps(init, keep);
        assert(init.push(viewports.last()) =~= viewports);
    }
}

/// Every client has one say, whatever they say and whoever goes.
pub proof fn law_clients_have_one_say(viewports: Seq<ViewportModel>, said: ViewportModel)
    requires
        one_each(viewports),
    ensures
        one_each(others(viewports, said.client_id)),
        one_each(others(viewports, said.client_id).push(said)),
    decreases viewports.len(),
{
    let rest = others(viewports, said.client_id);
    lemma_others(viewports, said.client_id);
    let more = rest.push(said);
    assert forall|i: int, j: int| 0 <= i < j < more.len() implies (#[trigger] more[i]).client_id
        != (#[trigger] more[j]).client_id by {
        assert(more[i] == rest[i]);
        if j < rest.len() {
            assert(more[j] == rest[j]);
        }
    }
}

proof fn lemma_others(viewports: Seq<ViewportModel>, client_id: Seq<char>)
    ensures
        one_each(viewports) ==> one_each(others(viewports, client_id)),
        forall|i: int|
            0 <= i < others(viewports, client_id).len() ==> (#[trigger] others(
                viewports,
                client_id,
            )[i]).client_id != client_id && viewports.contains(others(viewports, client_id)[i]),
    decreases viewports.len(),
{
    let rest = others(viewports, client_id);
    reveal(Seq::filter);
    if viewports.len() > 0 {
        let init = viewports.drop_last();
        let last = viewports.last();
        let n = viewports.len() as int;
        lemma_others(init, client_id);
        let fewer = others(init, client_id);
        assert forall|i: int| 0 <= i < rest.len() implies (#[trigger] rest[i]).client_id
            != client_id && viewports.contains(rest[i]) by {
            if i < fewer.len() {
                assert(rest[i] == fewer[i]);
                let k = choose|k: int| 0 <= k < init.len() && init[k] == fewer[i];
                assert(viewports[k] == fewer[i]);
            } else {
                assert(viewports[n - 1] == rest[i]);
            }
        }
        if one_each(viewports) {
            assert forall|i: int, j: int| 0 <= i < j < init.len() implies (
            #[trigger] init[i]).client_id != (#[trigger] init[j]).client_id by {
                assert(init[i] == viewports[i] && init[j] == viewports[j]);
            }
            assert forall|i: int, j: int| 0 <= i < j < rest.len() implies (
            #[trigger] rest[i]).client_id != (#[trigger] rest[j]).client_id by {
                assert(rest[i] == fewer[i]);
                if j < fewer.len() {
                    assert(rest[j] == fewer[j]);
                } else {
                    let k = choose|k: int| 0 <= k < init.len() && init[k] == fewer[i];
                    assert(viewports[k] == fewer[i]);
                    assert(viewports[n - 1] == rest[j]);
                }
            }
        }
    }
}

} // verus!
