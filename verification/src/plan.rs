//! What is to be downloaded from a page, and how a download is noted.
use vstd::prelude::*;
use vstd::string::*;

use crate::clock;
use crate::listing;
use crate::listing::{ListingRow, RowModel};
use crate::names;
use crate::state;
use crate::state::{DownloadState, TorrentInfo, TorrentRecord};
use crate::text;
use crate::urls;

verus! {

/// A torrent to be downloaded.
pub struct PlannedTorrent {
    pub url: String,
    pub title: String,
    pub filename: String,
    pub size_text: String,
}

/// A torrent to be downloaded, as a value of the model.
pub struct PlannedModel {
    pub url: Seq<char>,
    pub title: Seq<char>,
    pub filename: Seq<char>,
    pub size_text: Seq<char>,
}

impl View for PlannedTorrent {
    type V = PlannedModel;

    open spec fn view(&self) -> PlannedModel {
        PlannedModel {
            url: self.url@,
            title: self.title@,
            filename: self.filename@,
            size_text: self.size_text@,
        }
    }
}

/// The torrents, as values of the model.
pub open spec fn planned_views(planned: Seq<PlannedTorrent>) -> Seq<PlannedModel> {
    planned.map_values(|p: PlannedTorrent| p@)
}

/// An attribute, or what stands for it where it is missing.
pub open spec fn attribute_or(attribute: Option<Seq<char>>, default: Seq<char>) -> Seq<char> {
    match attribute {
        Some(s) => s,
        None => default,
    }
}

/// The torrent that a row lists: it takes a title, a link that is not empty, and a
/// size.
pub open spec fn listed_torrent(row: RowModel) -> Option<PlannedModel> {
    match (row.title, row.link, row.size) {
        (Some(title), Some(link), Some(size)) => {
            let title = attribute_or(title, "Unknown"@);
            let link = attribute_or(link, Seq::empty());
            if link.len() == 0 {
                None
            } else {
                Some(
                    PlannedModel {
                        url: urls::SITE@ + link,
                        title,
                        filename: names::filename_of(title),
                        size_text: text::trimmed(size),
                    },
                )
            }
        },
        _ => None,
    }
}

/// Whether a listed torrent has to be downloaded.
pub open spec fn is_wanted(
    torrent: PlannedModel,
    torrents: Map<Seq<char>, TorrentRecord>,
) -> bool {
    state::wanted(torrents, torrent.filename, torrent.title, torrent.url)
}

/// The torrents among the listed ones that have to be downloaded, in order.
pub open spec fn planned(
    rows: Seq<RowModel>,
    torrents: Map<Seq<char>, TorrentRecord>,
) -> Seq<PlannedModel>
    decreases rows.len(),
{
    if rows.len() == 0 {
        Seq::empty()
    } else {
        let front = planned(rows.drop_last(), torrents);
        match listed_torrent(rows.last()) {
            Some(torrent) => if is_wanted(torrent, torrents) {
                front.push(torrent)
            } else {
                front
            },
            None => front,
        }
    }
}

fn attribute_or_default(attribute: &Option<String>, default: &str) -> (value: String)
    ensures
        value@ == match *attribute {
            Some(s) => s@,
            None => default@,
        },
{
    match attribute {
        Some(s) => s.clone(),
        None => default.to_owned(),
    }
}

/// The torrent that `row` lists.
pub fn torrent_in_row(row: &ListingRow) -> (torrent: Option<PlannedTorrent>)
    ensures
        match torrent {
            Some(torrent) => listed_torrent(row@) == Some(torrent@),
            None => listed_torrent(row@) is None,
        },
        torrent is Some <==> row.title is Some && row.link is Some && row.link->0 is Some
            && row.link->0->0@.len() > 0 && row.size is Some,
        torrent is Some ==> {
            &&& torrent->0.url@ == "https://nyaa.si"@ + row.link->0->0@
            &&& torrent->0.title@ == match row.title->0 {
                Some(title) => title@,
                None => "Unknown"@,
            }
            &&& torrent->0.filename@ == names::filename_of(torrent->0.title@)
            &&& torrent->0.size_text@ == text::trimmed(row.size->0@)
        },
{
    proof {
        reveal_strlit("");
        assert(""@ == Seq::<char>::empty());
    }
    match (&row.title, &row.link, &row.size) {
        (Some(title), Some(link), Some(size)) => {
            let title = attribute_or_default(title, "Unknown");
            let link = attribute_or_default(link, "");
            if link.as_str().is_empty() {
                return None;
            }
            let filename = names::torrent_filename(title.as_str());
            Some(
                PlannedTorrent {
                    url: urls::SITE.to_owned().concat(link.as_str()),
                    title,
                    filename,
                    size_text: text::trim(size.as_str()),
                },
            )
        },
        _ => None,
    }
}

/// The torrents in `rows` that have to be downloaded, given what has been.
pub fn plan_rows(rows: &Vec<ListingRow>, state: &DownloadState) -> (plan: Vec<PlannedTorrent>)
    requires
        state.wf(),
    ensures
        planned_views(plan@) == planned(listing::row_views(rows@), state@.torrents),
        plan@.len() == planned(listing::row_views(rows@), state@.torrents).len(),
        forall|i: int|
            0 <= i < plan@.len() ==> (#[trigger] plan@[i])@ == planned(
                listing::row_views(rows@),
                state@.torrents,
            )[i],
{
    let mut plan: Vec<PlannedTorrent> = Vec::new();
    let ghost views = listing::row_views(rows@);
    for i in 0..rows.len()
        invariant
            state.wf(),
            views == listing::row_views(rows@),
            planned_views(plan@) == planned(views.take(i as int), state@.torrents),
    {
        let ghost before = planned_views(plan@);
        assert(views.take(i + 1).drop_last() == views.take(i as int));
        assert(views.take(i + 1).last() == rows@[i as int]@);
        if let Some(torrent) = torrent_in_row(&rows[i]) {
            if state.should_download_torrent(
                torrent.filename.as_str(),
                torrent.title.as_str(),
                torrent.url.as_str(),
            ) {
                let ghost model = torrent@;
                plan.push(torrent);
                assert(planned_views(plan@) == before.push(model));
            }
        }
    }
    assert(views.take(rows@.len() as int) == views);
    assert forall|i: int| 0 <= i < plan@.len() implies (#[trigger] plan@[i])@ == planned(
        views,
        state@.torrents,
    )[i] by {
        assert(planned_views(plan@)[i] == plan@[i]@);
    }
    plan
}

/// The torrents that have to be downloaded from the page in an HTML document.
pub fn plan_page(html: &str, state: &DownloadState) -> (plan: Vec<PlannedTorrent>)
    requires
        listing::can_parse(html@),
        state.wf(),
    ensures
        planned_views(plan@) == planned(listing::rows_of(html@), state@.torrents),
{
    plan_rows(&listing::listing_rows(html), state)
}

/// What is noted of a torrent whose content has the given hash.
pub open spec fn record_of(
    torrent: PlannedModel,
    content_hash: Seq<char>,
    downloaded_at: u64,
) -> TorrentRecord {
    TorrentRecord {
        title: torrent.title,
        download_url: torrent.url,
        size_text: torrent.size_text,
        filename: torrent.filename,
        content_hash: Some(content_hash),
        downloaded_at,
    }
}

/// What is noted of `torrent`, downloaded at the given time.
pub fn torrent_info(torrent: &PlannedTorrent, content_hash: String, downloaded_at: u64) -> (info:
    TorrentInfo)
    ensures
        info@ == record_of(torrent@, content_hash@, downloaded_at),
        info.title@ == torrent.title@,
        info.download_url@ == torrent.url@,
        info.size_text@ == torrent.size_text@,
        info.filename@ == torrent.filename@,
        info.content_hash == Some(content_hash),
        info.downloaded_at == downloaded_at,
{
    TorrentInfo {
        title: torrent.title.clone(),
        download_url: torrent.url.clone(),
        size_text: torrent.size_text.clone(),
        filename: torrent.filename.clone(),
        content_hash: Some(content_hash),
        downloaded_at,
    }
}

/// Notes `torrent` as downloaded now.
pub fn record_download(state: &mut DownloadState, torrent: &PlannedTorrent, content_hash: String)
    requires
        old(state).wf(),
    ensures
        final(state).wf(),
        exists|downloaded_at: u64|
            final(state)@.torrents == old(state)@.torrents.insert(
                torrent@.filename,
                #[trigger] record_of(torrent@, content_hash@, downloaded_at),
            ),
        final(state)@.pages == old(state)@.pages,
{
    let now = clock::seconds_or_zero(clock::since_epoch());
    let info = torrent_info(torrent, content_hash, now);
    state.mark_torrent_downloaded(torrent.filename.clone(), info);
}

/// A row with an element for a title, a link that is not empty and an element for a size
/// lists a torrent, whatever these say and however long they are: at the link on the
/// site, under the title, with the size without the blanks around it.
pub proof fn law_complete_row_lists_a_torrent(
    title: Option<Seq<char>>,
    link: Seq<char>,
    size: Seq<char>,
)
    requires
        link.len() > 0,
    ensures
        ({
            let torrent = listed_torrent(
                RowModel { title: Some(title), link: Some(Some(link)), size: Some(size) },
            );
            &&& torrent is Some
            &&& torrent->0.url == "https://nyaa.si"@ + link
            &&& title is Some ==> torrent->0.title == title->0
            &&& title is None ==> torrent->0.title == "Unknown"@
            &&& torrent->0.filename == names::filename_of(torrent->0.title)
            &&& torrent->0.size_text == text::trimmed(size)
        }),
{
}

/// A row lists a torrent if and only if it has an element for a title, a link that is not
/// empty and an element for a size.
pub proof fn law_row_lists_a_torrent(row: RowModel)
    ensures
        listed_torrent(row) is Some <==> row.title is Some && row.link is Some && row.link->0 is Some
            && row.link->0->0.len() > 0 && row.size is Some,
{
}

/// Two rows with other links list two torrents.
pub proof fn law_links_tell_torrents_apart(a: RowModel, b: RowModel)
    requires
        listed_torrent(a) is Some,
        listed_torrent(b) is Some,
        listed_torrent(a)->0.url == listed_torrent(b)->0.url,
    ensures
        a.link == b.link,
{
    let (x, y) = (a.link->0->0, b.link->0->0);
    let n = urls::SITE@.len() as int;
    assert(x =~= listed_torrent(a)->0.url.skip(n));
    assert(y =~= listed_torrent(b)->0.url.skip(n));
}

/// The plan for some rows and more rows is the plan for the former, and behind it that
/// for the latter. A row by itself gives the torrent that it lists, if that has to be
/// downloaded.
pub proof fn law_plan_of_parts(
    front: Seq<RowModel>,
    row: RowModel,
    rest: Seq<RowModel>,
    torrents: Map<Seq<char>, TorrentRecord>,
)
    ensures
        planned(front + rest, torrents) == planned(front, torrents) + planned(rest, torrents),
        planned(seq![row], torrents) == match listed_torrent(row) {
            Some(torrent) => if is_wanted(torrent, torrents) {
                seq![torrent]
            } else {
                Seq::empty()
            },
            None => Seq::empty(),
        },
    decreases rest.len(),
{
    let none = Seq::<RowModel>::empty();
    assert(seq![row].drop_last() =~= none);
    assert(planned(none, torrents) == Seq::<PlannedModel>::empty());
    if listed_torrent(row) is Some {
        let torrent = listed_torrent(row)->0;
        assert(Seq::<PlannedModel>::empty().push(torrent) =~= seq![torrent]);
    }
    let before = planned(front, torrents);
    if rest.len() == 0 {
        assert(front + rest =~= front);
        assert(before + planned(rest, torrents) =~= before);
    } else {
        let fewer = rest.drop_last();
        law_plan_of_parts(front, row, fewer, torrents);
        assert((front + rest).drop_last() =~= front + fewer);
        assert((front + rest).last() == rest.last());
        if listed_torrent(rest.last()) is Some {
            let torrent = listed_torrent(rest.last())->0;
            assert((before + planned(fewer, torrents)).push(torrent) =~= before + planned(
                fewer,
                torrents,
            ).push(torrent));
        }
    }
}

/// Where nothing has been downloaded, the plan has exactly one torrent for each row that
/// has an element for a title, a link that is not empty and an element for a size, in
/// the order of the rows.
pub proof fn law_everything_is_planned_at_first(rows: Seq<RowModel>)
    ensures
        planned(rows, Map::empty()) == rows.filter(
            |row: RowModel|
                row.title is Some && row.link is Some && row.link->0 is Some
                    && row.link->0->0.len() > 0 && row.size is Some,
        ).map_values(|row: RowModel| listed_torrent(row)->0),
    decreases rows.len(),
{
    reveal(Seq::filter);
    let complete = |row: RowModel|
        row.title is Some && row.link is Some && row.link->0 is Some && row.link->0->0.len() > 0
            && row.size is Some;
    let torrent_of = |row: RowModel| listed_torrent(row)->0;
    if rows.len() == 0 {
        assert(planned(rows, Map::empty()) =~= rows.filter(complete).map_values(torrent_of));
    } else {
        let front = rows.drop_last();
        law_everything_is_planned_at_first(front);
        law_row_lists_a_torrent(rows.last());
        assert(front.filter(complete).push(rows.last()).map_values(torrent_of) =~= front.filter(
            complete,
        ).map_values(torrent_of).push(torrent_of(rows.last())));
    }
}

/// A listed torrent has to be downloaded where nothing is kept under its file name, and
/// else if and only if what is kept there has another title or another URL.
pub proof fn law_listed_is_wanted(
    torrent: PlannedModel,
    torrents: Map<Seq<char>, TorrentRecord>,
)
    ensures
        !torrents.contains_key(torrent.filename) ==> is_wanted(torrent, torrents),
        torrents.contains_key(torrent.filename) ==> (is_wanted(torrent, torrents) <==> !(
        torrents[torrent.filename].title == torrent.title
            && torrents[torrent.filename].download_url == torrent.url)),
{
}

/// A download is noted with all that is known of it.
pub proof fn law_record_keeps_the_torrent(
    torrent: PlannedModel,
    content_hash: Seq<char>,
    downloaded_at: u64,
)
    ensures
        ({
            let record = record_of(torrent, content_hash, downloaded_at);
            &&& record.title == torrent.title
            &&& record.download_url == torrent.url
            &&& record.size_text == torrent.size_text
            &&& record.filename == torrent.filename
            &&& record.content_hash == Some(content_hash)
            &&& record.downloaded_at == downloaded_at
        }),
{
}

/// Every torrent in a plan stands in a row and has to be downloaded, and every such
/// torrent is in the plan.
pub proof fn law_plan_is_complete(
    rows: Seq<RowModel>,
    torrents: Map<Seq<char>, TorrentRecord>,
    torrent: PlannedModel,
)
    ensures
        planned(rows, torrents).contains(torrent) <==> is_wanted(torrent, torrents) && exists|i: int|
            0 <= i < rows.len() && listed_torrent(#[trigger] rows[i]) == Some(torrent),
    decreases rows.len(),
{
    let plan = planned(rows, torrents);
    if rows.len() > 0 {
        let rest = rows.drop_last();
        let front = planned(rest, torrents);
        law_plan_is_complete(rest, torrents, torrent);
        if plan.contains(torrent) {
            let k = choose|k: int| 0 <= k < plan.len() && plan[k] == torrent;
            if k < front.len() {
                assert(front[k] == torrent);
                let i = choose|i: int|
                    0 <= i < rest.len() && listed_torrent(#[trigger] rest[i]) == Some(torrent);
                assert(listed_torrent(rows[i]) == Some(torrent));
            } else {
                assert(listed_torrent(rows[rows.len() - 1]) == Some(torrent));
            }
        }
        if is_wanted(torrent, torrents) && exists|i: int|
            0 <= i < rows.len() && listed_torrent(#[trigger] rows[i]) == Some(torrent) {
            let i = choose|i: int|
                0 <= i < rows.len() && listed_torrent(#[trigger] rows[i]) == Some(torrent);
            if i < rest.len() {
                assert(listed_torrent(rest[i]) == Some(torrent));
                let k = choose|k: int| 0 <= k < front.len() && front[k] == torrent;
                assert(plan[k] == torrent);
            } else {
                assert(plan[plan.len() - 1] == torrent);
            }
        }
    }
}

/// A torrent that has been noted as downloaded is not planned again.
pub proof fn law_downloaded_is_not_planned(
    rows: Seq<RowModel>,
    torrents: Map<Seq<char>, TorrentRecord>,
    torrent: PlannedModel,
    content_hash: Seq<char>,
    downloaded_at: u64,
)
    ensures
        !planned(
            rows,
            torrents.insert(torrent.filename, record_of(torrent, content_hash, downloaded_at)),
        ).contains(torrent),
{
    let after = torrents.insert(
        torrent.filename,
        record_of(torrent, content_hash, downloaded_at),
    );
    law_plan_is_complete(rows, after, torrent);
}

/// No two rows list two torrents under one file name.
pub open spec fn names_agree(rows: Seq<RowModel>) -> bool {
    forall|i: int, j: int|
        0 <= i < rows.len() && 0 <= j < rows.len() && (#[trigger] listed_torrent(
            rows[i],
        )) is Some && (#[trigger] listed_torrent(rows[j])) is Some && listed_torrent(
            rows[i],
        )->0.filename == listed_torrent(rows[j])->0.filename ==> listed_torrent(rows[i])->0.title
            == listed_torrent(rows[j])->0.title && listed_torrent(rows[i])->0.url
            == listed_torrent(rows[j])->0.url
}

/// `after` holds all that was planned, and otherwise what was there before.
pub open spec fn plan_is_recorded(
    plan: Seq<PlannedModel>,
    before: Map<Seq<char>, TorrentRecord>,
    after: Map<Seq<char>, TorrentRecord>,
) -> bool {
    &&& forall|k: int|
        0 <= k < plan.len() ==> {
            let torrent = #[trigger] plan[k];
            after.contains_key(torrent.filename) && after[torrent.filename].title == torrent.title
                && after[torrent.filename].download_url == torrent.url
        }
    &&& forall|name: Seq<char>|
        (forall|k: int| 0 <= k < plan.len() ==> (#[trigger] plan[k]).filename != name) ==> (
        #[trigger] after.contains_key(name) == before.contains_key(name)) && (before.contains_key(
            name,
        ) ==> after[name] == before[name])
}

/// Once all that was planned has been downloaded, the same rows leave nothing to
/// download, provided that no two of them share a file name.
pub proof fn law_page_is_downloaded_once(
    rows: Seq<RowModel>,
    before: Map<Seq<char>, TorrentRecord>,
    after: Map<Seq<char>, TorrentRecord>,
)
    requires
        names_agree(rows),
        plan_is_recorded(planned(rows, before), before, after),
    ensures
        planned(rows, after) == Seq::<PlannedModel>::empty(),
{
    let plan = planned(rows, before);
    let again = planned(rows, after);
    if again.len() > 0 {
        let torrent = again[0];
        assert(again.contains(torrent));
        law_plan_is_complete(rows, after, torrent);
        law_plan_is_complete(rows, before, torrent);
        let i = choose|i: int|
            0 <= i < rows.len() && listed_torrent(#[trigger] rows[i]) == Some(torrent);
        if is_wanted(torrent, before) {
            let k = choose|k: int| 0 <= k < plan.len() && plan[k] == torrent;
            assert(after[plan[k].filename].title == torrent.title);
        } else {
            assert forall|k: int| 0 <= k < plan.len() implies (#[trigger] plan[k]).filename
                != torrent.filename by {
                let other = plan[k];
                assert(plan.contains(other));
                law_plan_is_complete(rows, before, other);
                let j = choose|j: int|
                    0 <= j < rows.len() && listed_torrent(#[trigger] rows[j]) == Some(other);
                assert(listed_torrent(rows[i]) is Some && listed_torrent(rows[j]) is Some);
            }
            assert(after.contains_key(torrent.filename) == before.contains_key(torrent.filename));
        }
    }
}

} // verus!
