//! The pages of a listing: what stands on them, and how many there are.
use vstd::prelude::*;
use vstd::string::*;
use vstd::utf8::*;

use crate::text;

verus! {

/// The rows of a listing.
pub const ROW_SELECTOR: &'static str = "table tr, tbody tr";

/// The cell of a row that holds the title.
pub const TITLE_SELECTOR: &'static str = "td:nth-child(2) a[title]:not(.comments)";

/// The attribute of that cell's link that is the title.
pub const TITLE_ATTRIBUTE: &'static str = "title";

/// The cell of a row that links to the torrent.
pub const LINK_SELECTOR: &'static str = "td:nth-child(3) a[href^='/download/']";

/// The attribute of that link that is its target.
pub const LINK_ATTRIBUTE: &'static str = "href";

/// The cell of a row that holds the size.
pub const SIZE_SELECTOR: &'static str = "td:nth-child(4)";

/// The longest document that is parsed, in bytes. A text of the parser grows to at most
/// 2^31 bytes, and a byte of the document can become three there.
pub const MAX_HTML: usize = 0x2AAA_AAAA;

/// Whether a document is short enough to be parsed.
pub open spec fn can_parse(html: Seq<char>) -> bool {
    encode_utf8(html).len() <= MAX_HTML
}

/// A row of a listing.
pub struct ListingRow {
    /// The title of the torrent: `None` if the row has no element for it,
    /// `Some(None)` if that element does not say it.
    pub title: Option<Option<String>>,
    /// Where the torrent is linked to, in the same way.
    pub link: Option<Option<String>>,
    /// The text of the element for the size.
    pub size: Option<String>,
}

/// A row, as a value of the model.
pub struct RowModel {
    pub title: Option<Option<Seq<char>>>,
    pub link: Option<Option<Seq<char>>>,
    pub size: Option<Seq<char>>,
}

/// The characters of an attribute that may be there.
pub open spec fn attribute_view(attribute: Option<Option<String>>) -> Option<Option<Seq<char>>> {
    match attribute {
        Some(Some(s)) => Some(Some(s@)),
        Some(None) => Some(None),
        None => None,
    }
}

impl View for ListingRow {
    type V = RowModel;

    open spec fn view(&self) -> RowModel {
        RowModel {
            title: attribute_view(self.title),
            link: attribute_view(self.link),
            size: match self.size {
                Some(s) => Some(s@),
                None => None,
            },
        }
    }
}

/// The rows, as values of the model.
pub open spec fn row_views(rows: Seq<ListingRow>) -> Seq<RowModel> {
    rows.map_values(|row: ListingRow| row@)
}

/// What the selectors match in a row.
pub struct RowMatches {
    /// For each element for a title, what it says the title is.
    pub titles: Vec<Option<String>>,
    /// For each link, where it leads.
    pub links: Vec<Option<String>>,
    /// For each element for a size, its text.
    pub sizes: Vec<String>,
}

/// What the selectors match in a row, as a value of the model.
pub struct MatchesModel {
    pub titles: Seq<Option<Seq<char>>>,
    pub links: Seq<Option<Seq<char>>>,
    pub sizes: Seq<Seq<char>>,
}

/// The characters of attributes that may be there.
pub open spec fn attribute_views(attributes: Seq<Option<String>>) -> Seq<Option<Seq<char>>> {
    attributes.map_values(
        |attribute: Option<String>|
            match attribute {
                Some(s) => Some(s@),
                None => None,
            },
    )
}

impl View for RowMatches {
    type V = MatchesModel;

    open spec fn view(&self) -> MatchesModel {
        MatchesModel {
            titles: attribute_views(self.titles@),
            links: attribute_views(self.links@),
            sizes: text::views(self.sizes@),
        }
    }
}

/// The matches, as values of the model.
pub open spec fn matches_views(matches: Seq<RowMatches>) -> Seq<MatchesModel> {
    matches.map_values(|m: RowMatches| m@)
}

/// What the `scraper` crate selects in an HTML document: of each element that
/// `row` selects, in the order in which the parser made them, the attribute
/// `title_attribute` of the elements below it that `title` selects, the attribute
/// `link_attribute` of those that `link` selects, and the text of those that `size`
/// selects, each in the order of the document.
pub uninterp spec fn selected_rows(
    html: Seq<char>,
    row: Seq<char>,
    title: Seq<char>,
    title_attribute: Seq<char>,
    link: Seq<char>,
    link_attribute: Seq<char>,
    size: Seq<char>,
) -> Seq<MatchesModel>;

/// `scraper::Html::parse_document`, and `select`, `attr` and `text` on what it
/// gives: what the selectors match in the rows of the document. It is named, and
/// nothing else is claimed of it. The selectors are those above, which
/// `scraper::Selector::parse` takes. A document is bounded, as the parser counts its
/// bytes in 32 bits and doubles its buffers.
#[verifier::external_body]
fn select_rows(
    html: &str,
    row: &str,
    title: &str,
    title_attribute: &str,
    link: &str,
    link_attribute: &str,
    size: &str,
) -> (rows: Vec<RowMatches>)
    requires
        can_parse(html@),
        row@ == ROW_SELECTOR@,
        title@ == TITLE_SELECTOR@,
        link@ == LINK_SELECTOR@,
        size@ == SIZE_SELECTOR@,
    ensures
        matches_views(rows@) == selected_rows(
            html@,
            row@,
            title@,
            title_attribute@,
            link@,
            link_attribute@,
            size@,
        ),
{
    let row = scraper::Selector::parse(row).unwrap();
    let title = scraper::Selector::parse(title).unwrap();
    let link = scraper::Selector::parse(link).unwrap();
    let size = scraper::Selector::parse(size).unwrap();
    scraper::Html::parse_document(html).select(&row).map(|r| RowMatches {
        titles: r.select(&title).map(|e| e.attr(title_attribute).map(String::from)).collect(),
        links: r.select(&link).map(|e| e.attr(link_attribute).map(String::from)).collect(),
        sizes: r.select(&size).map(|e| e.text().collect()).collect(),
    }).collect()
}

/// The first item, if there is one.
pub open spec fn first_of<A>(items: Seq<A>) -> Option<A> {
    if items.len() > 0 {
        Some(items[0])
    } else {
        None
    }
}

/// A row is made of the first matches.
pub open spec fn row_of(matches: MatchesModel) -> RowModel {
    RowModel {
        title: first_of(matches.titles),
        link: first_of(matches.links),
        size: first_of(matches.sizes),
    }
}

/// The first attribute, if an element was matched.
fn first_attribute(attributes: &Vec<Option<String>>) -> (first: Option<Option<String>>)
    ensures
        attribute_view(first) == first_of(attribute_views(attributes@)),
        first is Some <==> attributes@.len() > 0,
        first is Some ==> (first->0 is Some <==> attributes@[0] is Some),
        first is Some && first->0 is Some ==> first->0->0@ == attributes@[0]->0@,
{
    if attributes.len() == 0 {
        return None;
    }
    match &attributes[0] {
        Some(s) => Some(Some(s.clone())),
        None => Some(None),
    }
}

/// The row that the matches make.
pub fn row_of_matches(matches: &RowMatches) -> (row: ListingRow)
    ensures
        row@ == row_of(matches@),
        row.title is Some <==> matches.titles@.len() > 0,
        row.link is Some <==> matches.links@.len() > 0,
        row.size is Some <==> matches.sizes@.len() > 0,
        row.title is Some ==> (row.title->0 is Some <==> matches.titles@[0] is Some),
        row.title is Some && row.title->0 is Some ==> row.title->0->0@ == matches.titles@[0]->0@,
        row.link is Some ==> (row.link->0 is Some <==> matches.links@[0] is Some),
        row.link is Some && row.link->0 is Some ==> row.link->0->0@ == matches.links@[0]->0@,
        row.size is Some ==> row.size->0@ == matches.sizes@[0]@,
{
    ListingRow {
        title: first_attribute(&matches.titles),
        link: first_attribute(&matches.links),
        size: if matches.sizes.len() == 0 {
            None
        } else {
            Some(matches.sizes[0].clone())
        },
    }
}

/// A row has what the first of the elements says, however many there are, and nothing
/// where there is no element.
pub proof fn law_first_match_counts(matches: MatchesModel)
    ensures
        row_of(matches).title is None <==> matches.titles.len() == 0,
        row_of(matches).link is None <==> matches.links.len() == 0,
        row_of(matches).size is None <==> matches.sizes.len() == 0,
        matches.titles.len() > 0 ==> row_of(matches).title == Some(matches.titles[0]),
        matches.links.len() > 0 ==> row_of(matches).link == Some(matches.links[0]),
        matches.sizes.len() > 0 ==> row_of(matches).size == Some(matches.sizes[0]),
{
}

/// The rows of the listing in an HTML document.
pub open spec fn rows_of(html: Seq<char>) -> Seq<RowModel> {
    selected_rows(
        html,
        ROW_SELECTOR@,
        TITLE_SELECTOR@,
        TITLE_ATTRIBUTE@,
        LINK_SELECTOR@,
        LINK_ATTRIBUTE@,
        SIZE_SELECTOR@,
    ).map_values(|matches: MatchesModel| row_of(matches))
}

/// The rows of the listing in an HTML document.
pub fn listing_rows(html: &str) -> (rows: Vec<ListingRow>)
    requires
        can_parse(html@),
    ensures
        row_views(rows@) == rows_of(html@),
        rows@.len() == rows_of(html@).len(),
        forall|i: int| 0 <= i < rows@.len() ==> (#[trigger] rows@[i])@ == rows_of(html@)[i],
{
    let selected = select_rows(
        html,
        ROW_SELECTOR,
        TITLE_SELECTOR,
        TITLE_ATTRIBUTE,
        LINK_SELECTOR,
        LINK_ATTRIBUTE,
        SIZE_SELECTOR,
    );
    let mut rows: Vec<ListingRow> = Vec::new();
    for i in 0..selected.len()
        invariant
            matches_views(selected@).map_values(|matches: MatchesModel| row_of(matches)) == rows_of(
                html@,
            ),
            row_views(rows@) == rows_of(html@).take(i as int),
    {
        let row = row_of_matches(&selected[i]);
        let ghost model = row@;
        let ghost before = row_views(rows@);
        rows.push(row);
        assert(row_views(rows@) == before.push(model));
        assert(model == rows_of(html@)[i as int]);
    }
    assert(selected@.len() == rows_of(html@).len());
    assert forall|i: int| 0 <= i < rows@.len() implies (#[trigger] rows@[i])@ == rows_of(
        html@,
    )[i] by {
        assert(row_views(rows@)[i] == rows@[i]@);
    }
    rows
}

/// Every element that is a row of a table gives a row of the listing, in order: no row
/// is left out, and none is added.
pub proof fn law_rows_are_all_there(html: Seq<char>, i: int)
    ensures
        ({
            let selected = selected_rows(
                html,
                "table tr, tbody tr"@,
                "td:nth-child(2) a[title]:not(.comments)"@,
                "title"@,
                "td:nth-child(3) a[href^='/download/']"@,
                "href"@,
                "td:nth-child(4)"@,
            );
            &&& rows_of(html).len() == selected.len()
            &&& 0 <= i < selected.len() ==> rows_of(html)[i] == row_of(selected[i])
        }),
{
}

/// Every document of up to 715827882 bytes is parsed.
pub proof fn law_documents_are_parsed(html: Seq<char>)
    ensures
        can_parse(html) <==> encode_utf8(html).len() <= 715_827_882,
{
}

/// The rows of the listing in an HTML document, or `None` where the document is too
/// long to be parsed.
pub fn checked_rows(html: &str) -> (rows: Option<Vec<ListingRow>>)
    ensures
        match rows {
            Some(rows) => can_parse(html@) && row_views(rows@) == rows_of(html@),
            None => !can_parse(html@),
        },
{
    if html.as_bytes().len() <= MAX_HTML {
        Some(listing_rows(html))
    } else {
        None
    }
}

/// A listing has torrents if a row of it has an element for a title.
pub open spec fn lists_torrents(rows: Seq<RowModel>) -> bool {
    exists|i: int| 0 <= i < rows.len() && (#[trigger] rows[i]).title is Some
}

/// A row with an element for a title makes a page that has torrents, whatever stands
/// before and behind it and however much that is. So a page that has torrents keeps them
/// when rows are added, and a page without such a row has none.
pub proof fn law_a_title_makes_a_page(front: Seq<RowModel>, row: RowModel, rest: Seq<RowModel>)
    ensures
        row.title is Some ==> lists_torrents(front + seq![row] + rest),
        lists_torrents(front) ==> lists_torrents(front + rest) && lists_torrents(rest + front),
        lists_torrents(front + rest) ==> lists_torrents(front) || lists_torrents(rest),
        !lists_torrents(Seq::<RowModel>::empty()),
        row.title is None ==> !lists_torrents(seq![row]),
{
    if row.title is Some {
        assert((front + seq![row] + rest)[front.len() as int].title is Some);
    }
    if lists_torrents(front) {
        let i = choose|i: int| 0 <= i < front.len() && (#[trigger] front[i]).title is Some;
        assert((front + rest)[i].title is Some);
        assert((rest + front)[rest.len() + i].title is Some);
    }
    if lists_torrents(front + rest) {
        let whole = front + rest;
        let i = choose|i: int| 0 <= i < whole.len() && (#[trigger] whole[i]).title is Some;
        if i < front.len() {
            assert(front[i].title is Some);
        } else {
            assert(rest[i - front.len()].title is Some);
        }
    }
}

/// Whether the rows list torrents.
pub fn has_torrents(rows: &Vec<ListingRow>) -> (has: bool)
    ensures
        has == lists_torrents(row_views(rows@)),
        has <==> exists|i: int| 0 <= i < rows@.len() && (#[trigger] rows@[i]).title is Some,
{
    for i in 0..rows.len()
        invariant
            forall|j: int| 0 <= j < i ==> (#[trigger] row_views(rows@)[j]).title is None,
    {
        if rows[i].title.is_some() {
            assert(row_views(rows@)[i as int].title is Some);
            assert(rows@[i as int].title is Some);
            return true;
        }
    }
    assert forall|j: int| 0 <= j < rows@.len() implies (#[trigger] rows@[j]).title is None by {
        assert(row_views(rows@)[j].title is None);
    }
    false
}

/// Whether the listing in an HTML document has torrents.
pub fn page_has_torrents(html: &str) -> (has: bool)
    requires
        can_parse(html@),
    ensures
        has == lists_torrents(rows_of(html@)),
{
    has_torrents(&listing_rows(html))
}

// ---------------------------------------------------------------------------
// Discovery

/// The search for the last page of a listing: its pages are looked at in turn,
/// from the first one on, until one has no torrents.
pub struct Discovery {
    pages: Vec<i32>,
    done: bool,
}

/// The search, as a value of the model.
pub struct DiscoveryModel {
    /// How many pages with torrents have been seen.
    pub seen: nat,
    /// Whether a page without torrents has been seen.
    pub done: bool,
}

/// The numbers of the first `n` pages.
pub open spec fn first_pages(n: nat) -> Seq<i32> {
    Seq::new(n, |i: int| (i + 1) as i32)
}

/// The first pages are counted from 1 on, without a gap.
pub proof fn law_first_pages(n: nat, i: int)
    requires
        n <= i32::MAX,
    ensures
        first_pages(n).len() == n,
        0 <= i < n ==> first_pages(n)[i] == i + 1,
{
}

/// The search after one more page.
pub open spec fn looked_at(search: DiscoveryModel, has: bool) -> DiscoveryModel {
    if search.done {
        search
    } else if has {
        DiscoveryModel { seen: search.seen + 1, ..search }
    } else {
        DiscoveryModel { done: true, ..search }
    }
}

/// A page with torrents is counted, one without ends the search, and nothing changes
/// once the search has ended.
pub proof fn law_a_page_is_counted(search: DiscoveryModel, has: bool)
    ensures
        looked_at(search, has).done <==> (has ==> search.done),
        looked_at(search, has).seen == if has && !search.done {
            search.seen + 1
        } else {
            search.seen
        },
{
}

impl View for Discovery {
    type V = DiscoveryModel;

    closed spec fn view(&self) -> DiscoveryModel {
        DiscoveryModel { seen: self.pages@.len(), done: self.done }
    }
}

impl Discovery {
    /// The pages that have been seen are the first ones, and there is a number for the
    /// page to look at.
    pub closed spec fn wf(&self) -> bool {
        &&& self.pages@.len() < i32::MAX
        &&& self.pages@ == first_pages(self.pages@.len())
    }

    /// A search that has seen no page.
    pub fn new() -> (search: Self)
        ensures
            search.wf(),
            search@ == (DiscoveryModel { seen: 0, done: false }),
    {
        let search = Discovery { pages: Vec::new(), done: false };
        assert(search.pages@ =~= first_pages(0));
        search
    }

    /// The page to look at.
    pub fn page(&self) -> (page: i32)
        requires
            self.wf(),
        ensures
            page == self@.seen + 1,
    {
        self.pages.len() as i32 + 1
    }

    /// Whether the last page is known.
    pub fn is_done(&self) -> (done: bool)
        ensures
            done == self@.done,
    {
        self.done
    }

    /// Goes on from the page looked at, which has torrents or has none.
    pub fn look(&mut self, has: bool)
        requires
            old(self).wf(),
            has && !old(self)@.done ==> old(self)@.seen + 1 < i32::MAX,
        ensures
            final(self).wf(),
            final(self)@ == looked_at(old(self)@, has),
    {
        if self.done {
            return;
        }
        if has {
            let page = self.page();
            self.pages.push(page);
            assert(self.pages@ =~= first_pages(self.pages@.len()));
        } else {
            self.done = true;
        }
    }

    /// Goes on from the page looked at, which is the given HTML document. Where that
    /// page has torrents and no number is left for the next one, the search stays
    /// where it is, and `false` is returned.
    pub fn look_at_page(&mut self, html: &str) -> (counted: bool)
        requires
            old(self).wf(),
            can_parse(html@),
        ensures
            final(self).wf(),
            counted == !(lists_torrents(rows_of(html@)) && !old(self)@.done && old(self)@.seen + 1
                == i32::MAX),
            final(self)@ == if counted {
                looked_at(old(self)@, lists_torrents(rows_of(html@)))
            } else {
                old(self)@
            },
    {
        let has = page_has_torrents(html);
        if has && !self.done && self.page() == i32::MAX {
            return false;
        }
        self.look(has);
        true
    }

    /// The pages with torrents that have been seen.
    pub fn into_pages(self) -> (pages: Vec<i32>)
        requires
            self.wf(),
        ensures
            pages@ == first_pages(self@.seen),
    {
        self.pages
    }
}

/// The search after pages that have torrents or have none.
pub open spec fn searched(answers: Seq<bool>) -> DiscoveryModel
    decreases answers.len(),
{
    if answers.len() == 0 {
        DiscoveryModel { seen: 0, done: false }
    } else {
        looked_at(searched(answers.drop_last()), answers.last())
    }
}

/// A search finds the pages before the first one without torrents, and ends there.
pub proof fn law_discovery(answers: Seq<bool>, last: nat)
    requires
        last <= answers.len(),
        forall|i: int| 0 <= i < last ==> answers[i],
        last < answers.len() ==> !answers[last as int],
    ensures
        searched(answers) == (DiscoveryModel { seen: last, done: last < answers.len() }),
    decreases answers.len(),
{
    if answers.len() > 0 {
        let front = answers.drop_last();
        if last == answers.len() {
            law_discovery(front, (last - 1) as nat);
        } else {
            law_discovery(front, last);
        }
    }
}

/// All pages of a listing are found, however many there are and however many rows stand
/// on each: those before the first page on which no row has an element for a title.
pub proof fn law_all_pages_are_found(site: Seq<Seq<RowModel>>, last: nat)
    requires
        last < site.len(),
        forall|p: int|
            #![trigger site[p]]
            0 <= p < last ==> exists|i: int|
                0 <= i < site[p].len() && (#[trigger] site[p][i]).title is Some,
        forall|i: int| 0 <= i < site[last as int].len() ==> (#[trigger] site[last as int][i]).title is None,
    ensures
        searched(site.map_values(|rows: Seq<RowModel>| lists_torrents(rows))) == (DiscoveryModel {
            seen: last,
            done: true,
        }),
{
    let answers = site.map_values(|rows: Seq<RowModel>| lists_torrents(rows));
    assert forall|p: int| 0 <= p < last implies answers[p] by {
        let i = choose|i: int| 0 <= i < site[p].len() && (#[trigger] site[p][i]).title is Some;
        assert(site[p][i].title is Some);
    }
    law_discovery(answers, last);
}

} // verus!
