//! A whole run over the pages of a listing, and what a second one finds.
use vstd::prelude::*;

use crate::listing;
use crate::listing::RowModel;
use crate::plan;
use crate::plan::PlannedModel;
use crate::seqs;
use crate::state;
use crate::state::{StateModel, TorrentRecord};

verus! {

/// A torrent stands in a row of a page of the listing. The rows of page `p` stand at
/// `p - 1`.
pub open spec fn lists(site: Seq<Seq<RowModel>>, torrent: PlannedModel) -> bool {
    exists|p: int, i: int|
        0 <= p < site.len() && 0 <= i < site[p].len() && plan::listed_torrent(#[trigger] site[p][i])
            == Some(torrent)
}

/// No two torrents of the listing share a file name.
pub open spec fn names_agree_on(site: Seq<Seq<RowModel>>) -> bool {
    forall|a: PlannedModel, b: PlannedModel| #[trigger]
        lists(site, a) && #[trigger] lists(site, b) && a.filename == b.filename ==> a.title
            == b.title && a.url == b.url
}

/// All that was wanted of the listing is kept in `after`, and otherwise what was there
/// before.
pub open spec fn all_recorded(
    site: Seq<Seq<RowModel>>,
    before: Map<Seq<char>, TorrentRecord>,
    after: Map<Seq<char>, TorrentRecord>,
) -> bool {
    &&& forall|torrent: PlannedModel| #[trigger]
        lists(site, torrent) && plan::is_wanted(torrent, before) ==> after.contains_key(torrent.filename)
            && after[torrent.filename].title == torrent.title
            && after[torrent.filename].download_url == torrent.url
    &&& forall|name: Seq<char>|
        (forall|torrent: PlannedModel| #[trigger]
            lists(site, torrent) && plan::is_wanted(torrent, before) ==> torrent.filename != name) ==> (
        #[trigger] after.contains_key(name) == before.contains_key(name)) && (before.contains_key(
            name,
        ) ==> after[name] == before[name])
}

/// Once all that was wanted of a listing has been noted, in whatever order, no page of
/// it leaves anything to download, provided that no two torrents share a file name.
pub proof fn law_listing_is_downloaded_once(
    site: Seq<Seq<RowModel>>,
    before: Map<Seq<char>, TorrentRecord>,
    after: Map<Seq<char>, TorrentRecord>,
    p: int,
)
    requires
        names_agree_on(site),
        all_recorded(site, before, after),
        0 <= p < site.len(),
    ensures
        plan::planned(site[p], after) == Seq::<PlannedModel>::empty(),
{
    let again = plan::planned(site[p], after);
    if again.len() > 0 {
        let torrent = again[0];
        assert(again.contains(torrent));
        plan::law_plan_is_complete(site[p], after, torrent);
        let i = choose|i: int|
            0 <= i < site[p].len() && plan::listed_torrent(#[trigger] site[p][i]) == Some(torrent);
        assert(plan::listed_torrent(site[p][i]) == Some(torrent));
        assert(lists(site, torrent));
        if !plan::is_wanted(torrent, before) {
            assert forall|other: PlannedModel| #[trigger]
                lists(site, other) && plan::is_wanted(other, before) implies other.filename
                != torrent.filename by {}
            assert(after.contains_key(torrent.filename) == before.contains_key(torrent.filename));
        }
    }
}

// ---------------------------------------------------------------------------
// Runs

/// What a download is noted with.
pub struct Stamp {
    pub content_hash: Seq<char>,
    pub downloaded_at: u64,
}

/// The torrents that are kept once the planned ones have been noted, one after the
/// other.
pub open spec fn noted(
    torrents: Map<Seq<char>, TorrentRecord>,
    plan: Seq<PlannedModel>,
    stamp: spec_fn(PlannedModel) -> Stamp,
) -> Map<Seq<char>, TorrentRecord>
    decreases plan.len(),
{
    if plan.len() == 0 {
        torrents
    } else {
        let torrent = plan.last();
        noted(torrents, plan.drop_last(), stamp).insert(
            torrent.filename,
            plan::record_of(torrent, stamp(torrent).content_hash, stamp(torrent).downloaded_at),
        )
    }
}

/// The state once a page has been gone through without a failure: what was planned is
/// noted, at the time `now`, and so is the page.
pub open spec fn after_page(
    state: StateModel,
    base_url: Seq<char>,
    page: i32,
    rows: Seq<RowModel>,
    stamp: spec_fn(PlannedModel) -> Stamp,
    now: u64,
) -> StateModel {
    let plan = plan::planned(rows, state.torrents);
    StateModel {
        torrents: noted(state.torrents, plan, stamp),
        pages: state.pages.insert(base_url, state::pages_of(state.pages, base_url).insert(page)),
        last_update: if plan.len() == 0 {
            state.last_update
        } else {
            now
        },
    }
}

/// The state once the given pages have been gone through.
pub open spec fn after_pages(
    state: StateModel,
    base_url: Seq<char>,
    pages: Seq<i32>,
    site: Seq<Seq<RowModel>>,
    stamp: spec_fn(PlannedModel) -> Stamp,
    now: spec_fn(i32) -> u64,
) -> StateModel
    decreases pages.len(),
{
    if pages.len() == 0 {
        state
    } else {
        let page = pages.last();
        after_page(
            after_pages(state, base_url, pages.drop_last(), site, stamp, now),
            base_url,
            page,
            site[page - 1],
            stamp,
            now(page),
        )
    }
}

/// The state after a run over the listing without a failure.
pub open spec fn after_run(
    state: StateModel,
    base_url: Seq<char>,
    site: Seq<Seq<RowModel>>,
    stamp: spec_fn(PlannedModel) -> Stamp,
    now: spec_fn(i32) -> u64,
) -> StateModel {
    let listed = listing::first_pages(site.len());
    after_pages(
        StateModel { pages: state::pages_in_pass(state.pages, base_url, listed), ..state },
        base_url,
        state::pass_pages(state.pages, base_url, listed),
        site,
        stamp,
        now,
    )
}

/// Every page of the listing counts as gone through.
pub open spec fn all_noted(
    state: StateModel,
    base_url: Seq<char>,
    site: Seq<Seq<RowModel>>,
) -> bool {
    forall|page: i32|
        1 <= page <= site.len() ==> #[trigger] state::pages_of(state.pages, base_url).contains(page)
}

/// Under each file name stands a torrent that was planned under it, or what stood there
/// before.
proof fn lemma_noted(
    torrents: Map<Seq<char>, TorrentRecord>,
    plan: Seq<PlannedModel>,
    stamp: spec_fn(PlannedModel) -> Stamp,
    name: Seq<char>,
)
    ensures
        ({
            let after = noted(torrents, plan, stamp);
            ||| exists|k: int|
                0 <= k < plan.len() && (#[trigger] plan[k]).filename == name && after.contains_key(
                    name,
                ) && after[name].title == plan[k].title && after[name].download_url == plan[k].url
            ||| (forall|k: int| 0 <= k < plan.len() ==> (#[trigger] plan[k]).filename != name)
                && after.contains_key(name) == torrents.contains_key(name) && (
            torrents.contains_key(name) ==> after[name] == torrents[name])
        }),
    decreases plan.len(),
{
    if plan.len() > 0 {
        let front = plan.drop_last();
        lemma_noted(torrents, front, stamp, name);
        let after = noted(torrents, plan, stamp);
        if plan.last().filename == name {
            assert(plan[plan.len() - 1].filename == name);
        } else if exists|k: int| 0 <= k < front.len() && (#[trigger] front[k]).filename == name {
            let k = choose|k: int|
                0 <= k < front.len() && (#[trigger] front[k]).filename == name
                    && noted(torrents, front, stamp)[name].title == front[k].title
                    && noted(torrents, front, stamp)[name].download_url == front[k].url;
            assert(plan[k] == front[k]);
        } else {
            assert forall|k: int| 0 <= k < plan.len() implies (#[trigger] plan[k]).filename
                != name by {
                if k < front.len() {
                    assert(front[k] == plan[k]);
                }
            }
        }
    }
}

/// Going through page `p` leaves nothing to download on it, nor on a page that left
/// nothing before.
proof fn lemma_page_settles(
    site: Seq<Seq<RowModel>>,
    torrents: Map<Seq<char>, TorrentRecord>,
    stamp: spec_fn(PlannedModel) -> Stamp,
    p: int,
    q: int,
)
    requires
        names_agree_on(site),
        0 <= p < site.len(),
        0 <= q < site.len(),
        q == p || plan::planned(site[q], torrents).len() == 0,
    ensures
        plan::planned(site[q], noted(torrents, plan::planned(site[p], torrents), stamp)).len() == 0,
{
    let plan = plan::planned(site[p], torrents);
    let after = noted(torrents, plan, stamp);
    let left = plan::planned(site[q], after);
    if left.len() > 0 {
        let torrent = left[0];
        assert(left.contains(torrent));
        plan::law_plan_is_complete(site[q], after, torrent);
        plan::law_plan_is_complete(site[q], torrents, torrent);
        let i = choose|i: int|
            0 <= i < site[q].len() && plan::listed_torrent(#[trigger] site[q][i]) == Some(torrent);
        assert(plan::listed_torrent(site[q][i]) == Some(torrent));
        assert(lists(site, torrent));
        lemma_noted(torrents, plan, stamp, torrent.filename);
        if exists|k: int| 0 <= k < plan.len() && (#[trigger] plan[k]).filename == torrent.filename {
            let k = choose|k: int|
                0 <= k < plan.len() && (#[trigger] plan[k]).filename == torrent.filename
                    && after[torrent.filename].title == plan[k].title
                    && after[torrent.filename].download_url == plan[k].url;
            let other = plan[k];
            assert(plan.contains(other));
            plan::law_plan_is_complete(site[p], torrents, other);
            let j = choose|j: int|
                0 <= j < site[p].len() && plan::listed_torrent(#[trigger] site[p][j]) == Some(other);
            assert(plan::listed_torrent(site[p][j]) == Some(other));
            assert(lists(site, other));
        } else {
            assert(plan::is_wanted(torrent, torrents));
            assert(plan::planned(site[q], torrents).contains(torrent));
            if q == p {
                let k = choose|k: int| 0 <= k < plan.len() && plan[k] == torrent;
                assert(plan[k].filename == torrent.filename);
            }
        }
    }
}

/// Going through pages notes exactly those pages.
proof fn lemma_marks(
    state: StateModel,
    base_url: Seq<char>,
    pages: Seq<i32>,
    site: Seq<Seq<RowModel>>,
    stamp: spec_fn(PlannedModel) -> Stamp,
    now: spec_fn(i32) -> u64,
)
    ensures
        forall|page: i32|
            #[trigger] state::pages_of(
                after_pages(state, base_url, pages, site, stamp, now).pages,
                base_url,
            ).contains(page) <==> state::pages_of(state.pages, base_url).contains(page)
                || pages.contains(page),
    decreases pages.len(),
{
    if pages.len() > 0 {
        let front = pages.drop_last();
        lemma_marks(state, base_url, front, site, stamp, now);
        seqs::lemma_contains_last(pages);
        let middle = after_pages(state, base_url, front, site, stamp, now);
        let end = after_pages(state, base_url, pages, site, stamp, now);
        assert(state::pages_of(end.pages, base_url) == state::pages_of(
            middle.pages,
            base_url,
        ).insert(pages.last()));
    }
}

/// Going through pages leaves nothing to download on them, nor on a page that left
/// nothing before.
proof fn lemma_pages_settle(
    state: StateModel,
    base_url: Seq<char>,
    pages: Seq<i32>,
    site: Seq<Seq<RowModel>>,
    stamp: spec_fn(PlannedModel) -> Stamp,
    now: spec_fn(i32) -> u64,
    page: i32,
)
    requires
        names_agree_on(site),
        forall|i: int| 0 <= i < pages.len() ==> 1 <= #[trigger] pages[i] <= site.len(),
        1 <= page <= site.len(),
        pages.contains(page) || plan::planned(site[page - 1], state.torrents).len() == 0,
    ensures
        plan::planned(
            site[page - 1],
            after_pages(state, base_url, pages, site, stamp, now).torrents,
        ).len() == 0,
    decreases pages.len(),
{
    if pages.len() > 0 {
        let front = pages.drop_last();
        let last = pages[pages.len() - 1];
        assert forall|i: int| 0 <= i < front.len() implies 1 <= #[trigger] front[i]
            <= site.len() by {
            assert(front[i] == pages[i]);
        }
        seqs::lemma_contains_last(pages);
        let middle = after_pages(state, base_url, front, site, stamp, now);
        if front.contains(page) || plan::planned(site[page - 1], state.torrents).len() == 0 {
            lemma_pages_settle(state, base_url, front, site, stamp, now, page);
        }
        lemma_page_settles(site, middle.torrents, stamp, last - 1, page - 1);
    }
}

/// The pages of a pass are pages of the listing.
proof fn lemma_pass_is_listed(pages: Map<Seq<char>, Set<i32>>, base_url: Seq<char>, n: nat)
    requires
        n < i32::MAX,
    ensures
        forall|i: int|
            0 <= i < state::pass_pages(pages, base_url, listing::first_pages(n)).len() ==> 1
                <= #[trigger] state::pass_pages(pages, base_url, listing::first_pages(n))[i] <= n,
{
    let listed = listing::first_pages(n);
    state::law_pass(pages, base_url, listed, base_url, 0);
    let chosen = state::pass_pages(pages, base_url, listed);
    assert forall|i: int| 0 <= i < chosen.len() implies 1 <= #[trigger] chosen[i] <= n by {
        assert(listed.contains(chosen[i]));
        let k = choose|k: int| 0 <= k < listed.len() && listed[k] == chosen[i];
        assert(listed[k] == k + 1);
    }
}

/// After a run every page counts as gone through.
pub proof fn law_run_notes_all(
    state: StateModel,
    base_url: Seq<char>,
    site: Seq<Seq<RowModel>>,
    stamp: spec_fn(PlannedModel) -> Stamp,
    now: spec_fn(i32) -> u64,
)
    requires
        site.len() < i32::MAX,
    ensures
        all_noted(after_run(state, base_url, site, stamp, now), base_url, site),
{
    let listed = listing::first_pages(site.len());
    let start = StateModel { pages: state::pages_in_pass(state.pages, base_url, listed), ..state };
    let chosen = state::pass_pages(state.pages, base_url, listed);
    let end = after_run(state, base_url, site, stamp, now);
    lemma_marks(start, base_url, chosen, site, stamp, now);
    state::law_pass_leaves_nothing(state.pages, base_url, listed, end.pages);
    state::law_nothing_left(end.pages, base_url, listed);
    assert forall|page: i32| 1 <= page <= site.len() implies #[trigger] state::pages_of(
        end.pages,
        base_url,
    ).contains(page) by {
        assert(listed[page - 1] == page);
    }
}

/// After a run nothing is left to download on a page that was gone through in it, nor on
/// one that left nothing before, provided that no two torrents of the listing share a
/// file name.
pub proof fn law_run_leaves_nothing(
    state: StateModel,
    base_url: Seq<char>,
    site: Seq<Seq<RowModel>>,
    stamp: spec_fn(PlannedModel) -> Stamp,
    now: spec_fn(i32) -> u64,
    page: i32,
)
    requires
        site.len() < i32::MAX,
        names_agree_on(site),
        1 <= page <= site.len(),
        state::pass_pages(state.pages, base_url, listing::first_pages(site.len())).contains(page)
            || plan::planned(site[page - 1], state.torrents).len() == 0,
    ensures
        plan::planned(
            site[page - 1],
            after_run(state, base_url, site, stamp, now).torrents,
        ).len() == 0,
{
    let listed = listing::first_pages(site.len());
    let start = StateModel { pages: state::pages_in_pass(state.pages, base_url, listed), ..state };
    let chosen = state::pass_pages(state.pages, base_url, listed);
    lemma_pass_is_listed(state.pages, base_url, site.len());
    lemma_pages_settle(start, base_url, chosen, site, stamp, now, page);
}

/// Going through pages that leave nothing to download only notes them.
proof fn lemma_only_noted(
    state: StateModel,
    base_url: Seq<char>,
    pages: Seq<i32>,
    site: Seq<Seq<RowModel>>,
    stamp: spec_fn(PlannedModel) -> Stamp,
    now: spec_fn(i32) -> u64,
)
    requires
        forall|i: int|
            0 <= i < pages.len() ==> plan::planned(site[#[trigger] pages[i] - 1], state.torrents).len()
                == 0,
    ensures
        ({
            let end = after_pages(state, base_url, pages, site, stamp, now);
            &&& end.torrents == state.torrents
            &&& end.last_update == state.last_update
            &&& end.pages == if pages.len() == 0 {
                state.pages
            } else {
                state.pages.insert(
                    base_url,
                    state::pages_of(state.pages, base_url).union(pages.to_set()),
                )
            }
        }),
    decreases pages.len(),
{
    if pages.len() > 0 {
        let front = pages.drop_last();
        assert forall|i: int| 0 <= i < front.len() implies plan::planned(
            site[#[trigger] front[i] - 1],
            state.torrents,
        ).len() == 0 by {
            assert(front[i] == pages[i]);
        }
        lemma_only_noted(state, base_url, front, site, stamp, now);
        let last = pages[pages.len() - 1];
        assert(plan::planned(site[last - 1], state.torrents).len() == 0);
        let marks = state::pages_of(state.pages, base_url);
        seqs::lemma_contains_last(pages);
        assert(marks.union(pages.to_set()) =~= marks.union(front.to_set()).insert(last));
        if front.len() == 0 {
            assert(marks.union(front.to_set()) =~= marks);
        }
        let end = after_pages(state, base_url, pages, site, stamp, now);
        assert(end.pages =~= state.pages.insert(base_url, marks.union(pages.to_set())));
    }
}

/// A run over a listing whose pages all count as gone through looks at its first pages
/// again. Where these leave nothing to download, it ends in the state that it started in.
pub proof fn law_quiet_run_changes_nothing(
    state: StateModel,
    base_url: Seq<char>,
    site: Seq<Seq<RowModel>>,
    stamp: spec_fn(PlannedModel) -> Stamp,
    now: spec_fn(i32) -> u64,
)
    requires
        site.len() < i32::MAX,
        all_noted(state, base_url, site),
        forall|page: i32|
            #[trigger] state::recent(listing::first_pages(site.len())).contains(page)
                ==> plan::planned(site[page - 1], state.torrents).len() == 0,
    ensures
        state::pass_pages(state.pages, base_url, listing::first_pages(site.len()))
            == state::recent(listing::first_pages(site.len())),
        after_run(state, base_url, site, stamp, now) == state,
{
    let listed = listing::first_pages(site.len());
    let start = StateModel { pages: state::pages_in_pass(state.pages, base_url, listed), ..state };
    let chosen = state::pass_pages(state.pages, base_url, listed);
    assert forall|i: int| 0 <= i < listed.len() implies state::pages_of(state.pages, base_url).contains(
        #[trigger] listed[i],
    ) by {
        assert(1 <= listed[i] <= site.len());
    }
    state::law_nothing_left(state.pages, base_url, listed);
    assert forall|i: int| 0 <= i < chosen.len() implies plan::planned(
        site[#[trigger] chosen[i] - 1],
        start.torrents,
    ).len() == 0 by {
        assert(state::recent(listed).contains(chosen[i]));
    }
    lemma_only_noted(start, base_url, chosen, site, stamp, now);
    let end = after_run(state, base_url, site, stamp, now);
    if chosen.len() > 0 {
        assert(listed[0] == chosen[0]);
        assert(state::pages_of(state.pages, base_url).contains(chosen[0]));
        let marks = state.pages[base_url];
        let fewer = marks.difference(chosen.to_set());
        assert forall|page: i32| chosen.contains(page) implies marks.contains(page) by {
            let i = choose|i: int| 0 <= i < chosen.len() && chosen[i] == page;
            assert(listed[i] == page);
        }
        assert(fewer.union(chosen.to_set()) =~= marks);
        assert(end.pages =~= state.pages);
    } else {
        assert(listed.len() == 0);
        if state.pages.contains_key(base_url) {
            assert(state.pages[base_url].difference(chosen.to_set()) =~= state.pages[base_url]);
            assert(start.pages =~= state.pages);
        }
        assert(end.pages == state.pages);
    }
}

/// A second run over an unchanged listing downloads nothing and ends in the same state as
/// the first one, whatever the clock shows. No run fails, and no two torrents of the
/// listing share a file name. Of the first pages, which the second run looks at again,
/// those that the first run did not go through left nothing to download before it.
pub proof fn law_second_run(
    state: StateModel,
    base_url: Seq<char>,
    site: Seq<Seq<RowModel>>,
    stamp: spec_fn(PlannedModel) -> Stamp,
    now: spec_fn(i32) -> u64,
    later_stamp: spec_fn(PlannedModel) -> Stamp,
    later: spec_fn(i32) -> u64,
)
    requires
        site.len() < i32::MAX,
        names_agree_on(site),
        forall|page: i32|
            #[trigger] state::recent(listing::first_pages(site.len())).contains(page)
                && !state::pass_pages(
                state.pages,
                base_url,
                listing::first_pages(site.len()),
            ).contains(page) ==> plan::planned(site[page - 1], state.torrents).len() == 0,
    ensures
        ({
            let first = after_run(state, base_url, site, stamp, now);
            let again = state::pass_pages(
                first.pages,
                base_url,
                listing::first_pages(site.len()),
            );
            &&& again == state::recent(listing::first_pages(site.len()))
            &&& forall|page: i32| #[trigger]
                again.contains(page) ==> plan::planned(site[page - 1], first.torrents).len() == 0
            &&& after_run(first, base_url, site, later_stamp, later) == first
        }),
{
    let listed = listing::first_pages(site.len());
    let first = after_run(state, base_url, site, stamp, now);
    law_run_notes_all(state, base_url, site, stamp, now);
    assert forall|page: i32| #[trigger] state::recent(listed).contains(page) implies plan::planned(
        site[page - 1],
        first.torrents,
    ).len() == 0 by {
        let i = choose|i: int|
            0 <= i < state::recent(listed).len() && state::recent(listed)[i] == page;
        assert(listed[i] == page);
        law_run_leaves_nothing(state, base_url, site, stamp, now, page);
    }
    law_quiet_run_changes_nothing(first, base_url, site, later_stamp, later);
}

} // verus!
