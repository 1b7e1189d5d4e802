//! What has been downloaded, and which pages have been gone through.
use std::collections::HashSet;
use vstd::prelude::*;

use crate::clock;
use crate::seqs;
use crate::table::Table;
use crate::text;

verus! {

broadcast use vstd::std_specs::hash::group_hash_axioms;

/// A torrent that has been downloaded.
#[derive(Debug)]
pub struct TorrentInfo {
    pub title: String,
    pub download_url: String,
    pub size_text: String,
    pub filename: String,
    pub content_hash: Option<String>,
    pub downloaded_at: u64,
}

/// A downloaded torrent, as a value of the model.
pub struct TorrentRecord {
    pub title: Seq<char>,
    pub download_url: Seq<char>,
    pub size_text: Seq<char>,
    pub filename: Seq<char>,
    pub content_hash: Option<Seq<char>>,
    pub downloaded_at: u64,
}

impl View for TorrentInfo {
    type V = TorrentRecord;

    open spec fn view(&self) -> TorrentRecord {
        TorrentRecord {
            title: self.title@,
            download_url: self.download_url@,
            size_text: self.size_text@,
            filename: self.filename@,
            content_hash: match self.content_hash {
                Some(hash) => Some(hash@),
                None => None,
            },
            downloaded_at: self.downloaded_at,
        }
    }
}

impl Clone for TorrentInfo {
    fn clone(&self) -> (copy: Self)
        ensures
            copy@ == self@,
    {
        TorrentInfo {
            title: self.title.clone(),
            download_url: self.download_url.clone(),
            size_text: self.size_text.clone(),
            filename: self.filename.clone(),
            content_hash: match &self.content_hash {
                Some(hash) => Some(hash.clone()),
                None => None,
            },
            downloaded_at: self.downloaded_at,
        }
    }
}

/// The state of the downloads in one directory.
#[derive(Debug)]
pub struct DownloadState {
    /// What has been downloaded, under its file name.
    pub downloaded_torrents: Table<TorrentInfo>,
    /// The pages that have been gone through, under the base URL of the listing.
    pub processed_pages: Table<HashSet<i32>>,
    /// When a torrent was last downloaded, in seconds since the Unix epoch.
    pub last_update: u64,
}

/// The state, as a value of the model.
pub struct StateModel {
    pub torrents: Map<Seq<char>, TorrentRecord>,
    pub pages: Map<Seq<char>, Set<i32>>,
    pub last_update: u64,
}

impl View for DownloadState {
    type V = StateModel;

    open spec fn view(&self) -> StateModel {
        StateModel {
            torrents: self.downloaded_torrents@.map_values(|info: TorrentInfo| info@),
            pages: self.processed_pages@.map_values(|pages: HashSet<i32>| pages@),
            last_update: self.last_update,
        }
    }
}

/// Whether a torrent has to be downloaded: nothing is kept under its file name,
/// or what is kept there has another title or comes from another URL.
pub open spec fn wanted(
    torrents: Map<Seq<char>, TorrentRecord>,
    filename: Seq<char>,
    title: Seq<char>,
    url: Seq<char>,
) -> bool {
    torrents.contains_key(filename) ==> torrents[filename].title != title
        || torrents[filename].download_url != url
}

/// The pages of a listing that have been gone through.
pub open spec fn pages_of(pages: Map<Seq<char>, Set<i32>>, base_url: Seq<char>) -> Set<i32> {
    if pages.contains_key(base_url) {
        pages[base_url]
    } else {
        Set::empty()
    }
}

/// The pages among the given ones that have not been gone through, in order.
pub open spec fn unprocessed(
    pages: Map<Seq<char>, Set<i32>>,
    base_url: Seq<char>,
    listed: Seq<i32>,
) -> Seq<i32> {
    listed.filter(|page: i32| !pages_of(pages, base_url).contains(page))
}

/// How many pages are gone through again where all have been.
pub const RECENT: usize = 3;

/// The pages at the head of a listing, where new torrents come first.
pub open spec fn recent(listed: Seq<i32>) -> Seq<i32> {
    if listed.len() <= RECENT {
        listed
    } else {
        listed.take(RECENT as int)
    }
}

/// The pages to go through next: those that have not been, or the first few where
/// all have been.
pub open spec fn pass_pages(
    pages: Map<Seq<char>, Set<i32>>,
    base_url: Seq<char>,
    listed: Seq<i32>,
) -> Seq<i32> {
    let fresh = unprocessed(pages, base_url, listed);
    if fresh.len() > 0 {
        fresh
    } else {
        recent(listed)
    }
}

/// What still counts as gone through while those pages are.
pub open spec fn pages_in_pass(
    pages: Map<Seq<char>, Set<i32>>,
    base_url: Seq<char>,
    listed: Seq<i32>,
) -> Map<Seq<char>, Set<i32>> {
    if unprocessed(pages, base_url, listed).len() > 0 || !pages.contains_key(base_url) {
        pages
    } else {
        pages.insert(base_url, pages[base_url].difference(recent(listed).to_set()))
    }
}

/// The pages to go through.
pub struct Pass {
    pub pages: Vec<i32>,
    /// Whether all pages had been gone through before, so that these are to be
    /// gone through again.
    pub again: bool,
}

impl Default for DownloadState {
    fn default() -> (state: Self)
        ensures
            state.wf(),
            state@.torrents == Map::<Seq<char>, TorrentRecord>::empty(),
            state@.pages == Map::<Seq<char>, Set<i32>>::empty(),
            state@.last_update == 0,
    {
        let state = DownloadState {
            downloaded_torrents: Table::new(),
            processed_pages: Table::new(),
            last_update: 0,
        };
        assert(state@.torrents =~= Map::<Seq<char>, TorrentRecord>::empty());
        assert(state@.pages =~= Map::<Seq<char>, Set<i32>>::empty());
        state
    }
}

impl DownloadState {
    /// No file name and no base URL stands twice.
    pub open spec fn wf(&self) -> bool {
        self.downloaded_torrents.wf() && self.processed_pages.wf()
    }

    /// The number of torrents that have been downloaded.
    pub fn torrent_count(&self) -> (n: usize)
        requires
            self.wf(),
        ensures
            n == self@.torrents.len(),
    {
        assert(self@.torrents.dom() =~= self.downloaded_torrents@.dom());
        self.downloaded_torrents.len()
    }

    /// Whether the torrent has to be downloaded.
    pub fn should_download_torrent(&self, filename: &str, title: &str, download_url: &str) -> (wants:
        bool)
        requires
            self.wf(),
        ensures
            wants == wanted(self@.torrents, filename@, title@, download_url@),
            !wants <==> self.downloaded_torrents@.contains_key(filename@)
                && self.downloaded_torrents@[filename@].title@ == title@
                && self.downloaded_torrents@[filename@].download_url@ == download_url@,
    {
        match self.downloaded_torrents.get(filename) {
            Some(existing) => !text::same_text(existing.title.as_str(), title)
                || !text::same_text(existing.download_url.as_str(), download_url),
            None => true,
        }
    }

    /// Notes a torrent as downloaded at the time `now`.
    pub fn mark_torrent_downloaded_at(&mut self, filename: String, info: TorrentInfo, now: u64)
        requires
            old(self).wf(),
        ensures
            final(self).wf(),
            final(self)@.torrents == old(self)@.torrents.insert(filename@, info@),
            final(self)@.pages == old(self)@.pages,
            final(self)@.last_update == now,
            final(self).downloaded_torrents@ == old(self).downloaded_torrents@.insert(
                filename@,
                info,
            ),
            final(self).processed_pages == old(self).processed_pages,
            final(self).last_update == now,
    {
        self.downloaded_torrents.insert(filename, info);
        self.last_update = now;
        assert(self@.torrents =~= old(self)@.torrents.insert(filename@, info@));
    }

    /// Notes a torrent as downloaded now.
    pub fn mark_torrent_downloaded(&mut self, filename: String, info: TorrentInfo)
        requires
            old(self).wf(),
        ensures
            final(self).wf(),
            final(self)@.torrents == old(self)@.torrents.insert(filename@, info@),
            final(self)@.pages == old(self)@.pages,
    {
        self.mark_torrent_downloaded_at(
            filename,
            info,
            clock::seconds_or_zero(clock::since_epoch()),
        );
    }

    /// Whether the page of the listing has been gone through.
    pub fn has_processed_page(&self, base_url: &str, page: i32) -> (processed: bool)
        requires
            self.wf(),
        ensures
            processed == pages_of(self@.pages, base_url@).contains(page),
            processed <==> self.processed_pages@.contains_key(base_url@)
                && self.processed_pages@[base_url@]@.contains(page),
    {
        match self.processed_pages.get(base_url) {
            Some(pages) => pages.contains(&page),
            None => false,
        }
    }

    /// Notes the page of the listing as gone through.
    pub fn mark_page_processed(&mut self, base_url: String, page: i32)
        requires
            old(self).wf(),
        ensures
            final(self).wf(),
            final(self)@.torrents == old(self)@.torrents,
            final(self)@.pages == old(self)@.pages.insert(
                base_url@,
                pages_of(old(self)@.pages, base_url@).insert(page),
            ),
            final(self)@.last_update == old(self)@.last_update,
    {
        let known = match self.processed_pages.get_mut(base_url.as_str()) {
            Some(pages) => {
                pages.insert(page);
                true
            },
            None => false,
        };
        if !known {
            let mut pages: HashSet<i32> = HashSet::new();
            pages.insert(page);
            self.processed_pages.insert(base_url, pages);
        }
        assert(self@.pages =~= old(self)@.pages.insert(
            base_url@,
            pages_of(old(self)@.pages, base_url@).insert(page),
        ));
    }

    /// The pages among `listed` that have not been gone through.
    pub fn unprocessed_pages(&self, base_url: &str, listed: &Vec<i32>) -> (pages: Vec<i32>)
        requires
            self.wf(),
        ensures
            pages@ == unprocessed(self@.pages, base_url@, listed@),
    {
        let mut pages: Vec<i32> = Vec::new();
        let ghost keep = |page: i32| !pages_of(self@.pages, base_url@).contains(page);
        proof {
            reveal(Seq::filter);
            assert(listed@.take(0).filter(keep) =~= Seq::<i32>::empty());
        }
        for i in 0..listed.len()
            invariant
                self.wf(),
                keep == (|page: i32| !pages_of(self@.pages, base_url@).contains(page)),
                pages@ == listed@.take(i as int).filter(keep),
        {
            proof {
                reveal(Seq::filter);
                assert(listed@.take(i + 1).drop_last() == listed@.take(i as int));
            }
            if !self.has_processed_page(base_url, listed[i]) {
                pages.push(listed[i]);
            }
        }
        assert(listed@.take(listed@.len() as int) == listed@);
        pages
    }

    /// Forgets that the given pages of the listing have been gone through.
    fn forget_pages(&mut self, base_url: &str, pages: &Vec<i32>)
        requires
            old(self).wf(),
        ensures
            final(self).wf(),
            final(self)@.torrents == old(self)@.torrents,
            final(self)@.last_update == old(self)@.last_update,
            final(self)@.pages == if old(self)@.pages.contains_key(base_url@) {
                old(self)@.pages.insert(
                    base_url@,
                    old(self)@.pages[base_url@].difference(pages@.to_set()),
                )
            } else {
                old(self)@.pages
            },
    {
        match self.processed_pages.get_mut(base_url) {
            Some(set) => {
                let ghost all = set@;
                assert(all.difference(pages@.take(0).to_set()) =~= all);
                for i in 0..pages.len()
                    invariant
                        set@ == all.difference(pages@.take(i as int).to_set()),
                {
                    set.remove(&pages[i]);
                    proof {
                        let done = pages@.take(i + 1);
                        assert(done.drop_last() == pages@.take(i as int));
                        seqs::lemma_contains_last(done);
                    }
                    assert(set@ =~= all.difference(pages@.take(i + 1).to_set()));
                }
                assert(pages@.take(pages@.len() as int) == pages@);
            },
            None => {},
        }
    }

    /// The pages among `listed` to go through: those that have not been, or the
    /// first few where all have been. The first few then no longer count as gone
    /// through.
    pub fn begin_pass(&mut self, base_url: &str, listed: &Vec<i32>) -> (pass: Pass)
        requires
            old(self).wf(),
        ensures
            final(self).wf(),
            final(self)@.torrents == old(self)@.torrents,
            final(self)@.last_update == old(self)@.last_update,
            final(self)@.pages == pages_in_pass(old(self)@.pages, base_url@, listed@),
            pass.pages@ == pass_pages(old(self)@.pages, base_url@, listed@),
            pass.again == (unprocessed(old(self)@.pages, base_url@, listed@).len() == 0),
    {
        let fresh = self.unprocessed_pages(base_url, listed);
        if fresh.len() > 0 {
            return Pass { pages: fresh, again: false };
        }
        let mut pages: Vec<i32> = Vec::new();
        let n = if listed.len() < RECENT { listed.len() } else { RECENT };
        for i in 0..n
            invariant
                n <= listed@.len(),
                pages@ == listed@.take(i as int),
        {
            pages.push(listed[i]);
        }
        assert(pages@ == recent(listed@));
        self.forget_pages(base_url, &pages);
        Pass { pages, again: true }
    }
}

/// A torrent that has been noted as downloaded is wanted again only under another
/// title or from another URL; every other torrent is wanted as before.
pub proof fn law_downloaded_once(
    torrents: Map<Seq<char>, TorrentRecord>,
    filename: Seq<char>,
    info: TorrentRecord,
    name: Seq<char>,
    title: Seq<char>,
    url: Seq<char>,
)
    ensures
        !wanted(torrents.insert(filename, info), filename, info.title, info.download_url),
        wanted(torrents.insert(filename, info), filename, title, url) <==> (title != info.title
            || url != info.download_url),
        name != filename ==> wanted(torrents.insert(filename, info), name, title, url) == wanted(
            torrents,
            name,
            title,
            url,
        ),
{
}

/// A page that has been noted counts as gone through, and every other page of
/// every listing counts as before.
pub proof fn law_page_is_noted(
    pages: Map<Seq<char>, Set<i32>>,
    base_url: Seq<char>,
    page: i32,
    other_url: Seq<char>,
    other: i32,
)
    ensures
        ({
            let after = pages.insert(base_url, pages_of(pages, base_url).insert(page));
            &&& pages_of(after, base_url).contains(page)
            &&& other_url != base_url || other != page ==> pages_of(after, other_url).contains(
                other,
            ) == pages_of(pages, other_url).contains(other)
        }),
{
}

/// A torrent has to be downloaded where nothing is kept under its file name, and else if
/// and only if what is kept there has another title or another URL.
pub proof fn law_wanted(
    torrents: Map<Seq<char>, TorrentRecord>,
    filename: Seq<char>,
    title: Seq<char>,
    url: Seq<char>,
)
    ensures
        !torrents.contains_key(filename) ==> wanted(torrents, filename, title, url),
        torrents.contains_key(filename) ==> (wanted(torrents, filename, title, url) <==> !(
        torrents[filename].title == title && torrents[filename].download_url == url)),
{
}

/// A page has been gone through if and only if it stands among the pages that are kept
/// for its listing.
pub proof fn law_pages_of(pages: Map<Seq<char>, Set<i32>>, base_url: Seq<char>, page: i32)
    ensures
        pages_of(pages, base_url).contains(page) <==> pages.contains_key(base_url)
            && pages[base_url].contains(page),
{
}

/// What is left to go through of some pages and more pages is what is left of the
/// former, and behind it what is left of the latter. A page by itself is left if and
/// only if it has not been gone through.
pub proof fn law_unprocessed_of_parts(
    pages: Map<Seq<char>, Set<i32>>,
    base_url: Seq<char>,
    front: Seq<i32>,
    page: i32,
    rest: Seq<i32>,
)
    ensures
        unprocessed(pages, base_url, front + rest) == unprocessed(pages, base_url, front)
            + unprocessed(pages, base_url, rest),
        unprocessed(pages, base_url, seq![page]) == if pages.contains_key(base_url)
            && pages[base_url].contains(page) {
            Seq::empty()
        } else {
            seq![page]
        },
    decreases rest.len(),
{
    reveal(Seq::filter);
    let keep = |p: i32| !pages_of(pages, base_url).contains(p);
    assert(seq![page].drop_last() =~= Seq::<i32>::empty());
    assert(Seq::<i32>::empty().filter(keep) =~= Seq::<i32>::empty());
    assert(Seq::<i32>::empty().push(page) =~= seq![page]);
    let before = front.filter(keep);
    if rest.len() == 0 {
        assert(front + rest =~= front);
        assert(before + rest.filter(keep) =~= before);
    } else {
        let fewer = rest.drop_last();
        law_unprocessed_of_parts(pages, base_url, front, page, fewer);
        assert((front + rest).drop_last() =~= front + fewer);
        assert((front + rest).last() == rest.last());
        assert((before + fewer.filter(keep)).push(rest.last()) =~= before + fewer.filter(keep).push(
            rest.last(),
        ));
    }
}

/// Where a listed page has not been gone through, those that have not are gone through,
/// and every page keeps its mark.
pub proof fn law_fresh_pages_are_passed(
    pages: Map<Seq<char>, Set<i32>>,
    base_url: Seq<char>,
    listed: Seq<i32>,
    i: int,
)
    requires
        0 <= i < listed.len(),
        pages.contains_key(base_url) ==> !pages[base_url].contains(listed[i]),
    ensures
        pass_pages(pages, base_url, listed) == unprocessed(pages, base_url, listed),
        pages_in_pass(pages, base_url, listed) == pages,
{
    assert(!pages_of(pages, base_url).contains(listed[i]));
    law_nothing_left(pages, base_url, listed);
}

/// Where every listed page has been gone through, the first three are again, or all
/// where fewer are listed, in their order. They lose their marks, and no other page of
/// any listing does.
pub proof fn law_first_pages_are_passed_again(
    pages: Map<Seq<char>, Set<i32>>,
    base_url: Seq<char>,
    listed: Seq<i32>,
    other_url: Seq<char>,
    page: i32,
)
    requires
        forall|i: int|
            0 <= i < listed.len() ==> pages.contains_key(base_url) && pages[base_url].contains(
                #[trigger] listed[i],
            ),
    ensures
        pass_pages(pages, base_url, listed).len() == if listed.len() < 3 {
            listed.len() as int
        } else {
            3
        },
        forall|i: int|
            0 <= i < listed.len() && i < 3 ==> #[trigger] pass_pages(pages, base_url, listed)[i]
                == listed[i],
        pages_in_pass(pages, base_url, listed).dom() == pages.dom(),
        pages.contains_key(other_url) ==> (pages_in_pass(pages, base_url, listed)[other_url].contains(
            page,
        ) <==> pages[other_url].contains(page) && !(other_url == base_url && listed.take(
            if listed.len() < 3 {
                listed.len() as int
            } else {
                3
            },
        ).contains(page))),
{
    assert forall|i: int| 0 <= i < listed.len() implies pages_of(pages, base_url).contains(
        #[trigger] listed[i],
    ) by {
        assert(pages[base_url].contains(listed[i]));
    }
    law_nothing_left(pages, base_url, listed);
    assert(listed.take(listed.len() as int) =~= listed);
    assert(pages_in_pass(pages, base_url, listed).dom() =~= pages.dom());
}

/// There is nothing left to go through if and only if every page has been.
pub proof fn law_nothing_left(
    pages: Map<Seq<char>, Set<i32>>,
    base_url: Seq<char>,
    listed: Seq<i32>,
)
    ensures
        unprocessed(pages, base_url, listed).len() == 0 <==> (forall|i: int|
            0 <= i < listed.len() ==> pages_of(pages, base_url).contains(#[trigger] listed[i])),
{
    let keep = |page: i32| !pages_of(pages, base_url).contains(page);
    let fresh = listed.filter(keep);
    broadcast use vstd::seq_lib::group_filter_ensures;

    if fresh.len() == 0 {
        assert forall|i: int| 0 <= i < listed.len() implies pages_of(pages, base_url).contains(
            #[trigger] listed[i],
        ) by {
            if keep(listed[i]) {
                assert(fresh.contains(listed[i]));
            }
        }
    }
    if fresh.len() > 0 {
        lemma_filter_from(listed, keep, 0);
        assert(keep(fresh[0]));
    }
}

/// What a filter keeps was there before.
proof fn lemma_filter_from(listed: Seq<i32>, keep: spec_fn(i32) -> bool, i: int)
    requires
        0 <= i < listed.filter(keep).len(),
    ensures
        listed.contains(listed.filter(keep)[i]),
    decreases listed.len(),
{
    reveal(Seq::filter);
    let front = listed.drop_last();
    if i < front.filter(keep).len() {
        lemma_filter_from(front, keep, i);
        let page = front.filter(keep)[i];
        let k = choose|k: int| 0 <= k < front.len() && front[k] == page;
        assert(listed[k] == page);
    } else {
        assert(listed[listed.len() - 1] == listed.last());
    }
}

/// Every page of a pass is listed and does not count as gone through while the
/// pass lasts, no page outside of the pass loses its mark, and there is a page to
/// go through wherever one is listed.
pub proof fn law_pass(
    pages: Map<Seq<char>, Set<i32>>,
    base_url: Seq<char>,
    listed: Seq<i32>,
    other_url: Seq<char>,
    page: i32,
)
    ensures
        forall|i: int|
            0 <= i < pass_pages(pages, base_url, listed).len() ==> {
                let p = #[trigger] pass_pages(pages, base_url, listed)[i];
                listed.contains(p) && !pages_of(
                    pages_in_pass(pages, base_url, listed),
                    base_url,
                ).contains(p)
            },
        other_url != base_url || !pass_pages(pages, base_url, listed).contains(page) ==> pages_of(
            pages_in_pass(pages, base_url, listed),
            other_url,
        ).contains(page) == pages_of(pages, other_url).contains(page),
        listed.len() > 0 ==> pass_pages(pages, base_url, listed).len() > 0,
{
    let keep = |p: i32| !pages_of(pages, base_url).contains(p);
    let fresh = listed.filter(keep);
    broadcast use vstd::seq_lib::group_filter_ensures;

    let chosen = pass_pages(pages, base_url, listed);
    assert forall|i: int| 0 <= i < chosen.len() implies {
        let p = #[trigger] chosen[i];
        listed.contains(p) && !pages_of(pages_in_pass(pages, base_url, listed), base_url).contains(p)
    } by {
        if fresh.len() > 0 {
            lemma_filter_from(listed, keep, i);
            assert(keep(fresh[i]));
        } else {
            assert(listed[i] == chosen[i]);
            assert(recent(listed).to_set().contains(chosen[i]));
        }
    }
}

/// Once the pages of a pass have been gone through, nothing is left to go through.
pub proof fn law_pass_leaves_nothing(
    pages: Map<Seq<char>, Set<i32>>,
    base_url: Seq<char>,
    listed: Seq<i32>,
    after: Map<Seq<char>, Set<i32>>,
)
    requires
        forall|page: i32|
            pages_of(pages_in_pass(pages, base_url, listed), base_url).contains(page)
                || pass_pages(pages, base_url, listed).contains(page) ==> #[trigger] pages_of(
                after,
                base_url,
            ).contains(page),
    ensures
        unprocessed(after, base_url, listed).len() == 0,
{
    let keep = |p: i32| !pages_of(pages, base_url).contains(p);
    let fresh = listed.filter(keep);
    broadcast use vstd::seq_lib::group_filter_ensures;

    assert forall|i: int| 0 <= i < listed.len() implies pages_of(after, base_url).contains(
        #[trigger] listed[i],
    ) by {
        let page = listed[i];
        if keep(page) {
            assert(fresh.contains(page));
        } else if fresh.len() == 0 && recent(listed).contains(page) {
            assert(pass_pages(pages, base_url, listed).contains(page));
        } else {
            assert(pages_of(pages_in_pass(pages, base_url, listed), base_url).contains(page));
        }
    }
    law_nothing_left(after, base_url, listed);
}

} // verus!
