use meow::listing::{
    checked_rows, has_torrents, listing_rows, page_has_torrents, row_of_matches, Discovery,
    ListingRow, RowMatches, MAX_HTML,
};
use meow::plan::{plan_page, plan_rows, record_download, torrent_in_row, torrent_info};
use meow::state::DownloadState;

const PAGE: &str = r##"<!DOCTYPE html><html><body><table class="torrent-list">
<thead><tr><th>Category</th><th>Name</th><th>Link</th><th>Size</th></tr></thead>
<tbody>
<tr><td><a href="/?c=1_2" title="Anime">c</a></td>
<td><a href="/view/1#comments" class="comments" title="2 comments">2</a>
<a href="/view/1" title="[G] Show - 01">[G] Show...</a></td>
<td><a href="/download/1.torrent">d</a><a href="magnet:?x">m</a></td>
<td> 1.4 <b>GiB</b> </td></tr>
<tr><td></td><td><a href="/view/2" title="Other &amp; more">Other</a></td>
<td><a href="magnet:?y">m</a></td><td>2 MiB</td></tr>
<tr><td></td><td><a href="/view/3" title="Third/One">Third</a></td>
<td><a href="/download/3.torrent">d</a></td><td>3 KiB</td></tr>
</tbody></table></body></html>"##;

fn row(title: Option<Option<&str>>, link: Option<Option<&str>>, size: Option<&str>) -> ListingRow {
    ListingRow {
        title: title.map(|t| t.map(|s| s.to_string())),
        link: link.map(|t| t.map(|s| s.to_string())),
        size: size.map(|s| s.to_string()),
    }
}

#[test]
fn rows_are_read_from_html() {
    let rows = listing_rows(PAGE);
    assert_eq!(rows.len(), 4);
    assert_eq!(rows[0].title, None);
    assert_eq!(rows[0].link, None);
    assert_eq!(rows[0].size, None);
    assert_eq!(rows[1].title, Some(Some("[G] Show - 01".to_string())));
    assert_eq!(rows[1].link, Some(Some("/download/1.torrent".to_string())));
    assert_eq!(rows[1].size, Some(" 1.4 GiB ".to_string()));
    assert_eq!(rows[2].title, Some(Some("Other & more".to_string())));
    assert_eq!(rows[2].link, None);
    assert_eq!(rows[3].title, Some(Some("Third/One".to_string())));
}

#[test]
fn a_row_is_made_of_the_first_matches() {
    let row = row_of_matches(&RowMatches {
        titles: vec![None, Some("b".to_string())],
        links: vec![Some("/1".to_string()), None, Some("/2".to_string())],
        sizes: vec!["1 B".to_string(), "2 B".to_string()],
    });
    assert_eq!(row.title, Some(None));
    assert_eq!(row.link, Some(Some("/1".to_string())));
    assert_eq!(row.size, Some("1 B".to_string()));
    let empty =
        row_of_matches(&RowMatches { titles: Vec::new(), links: Vec::new(), sizes: Vec::new() });
    assert_eq!(empty.title, None);
    assert_eq!(empty.link, None);
    assert_eq!(empty.size, None);
}

#[test]
fn the_first_links_of_a_row_count() {
    let rows = listing_rows(
        "<table><tr><td></td><td><a title='one'></a><a title='two'></a></td>\
         <td><a href='/download/1'></a><a href='/download/2'></a></td><td>1 B</td></tr></table>",
    );
    assert_eq!(rows.len(), 1);
    assert_eq!(rows[0].title, Some(Some("one".to_string())));
    assert_eq!(rows[0].link, Some(Some("/download/1".to_string())));
    assert_eq!(rows[0].size, Some("1 B".to_string()));
}

#[test]
fn pages_with_titles_have_torrents() {
    assert!(page_has_torrents(PAGE));
    assert!(!page_has_torrents(""));
    assert!(!page_has_torrents("<h3>No results found</h3>"));
    assert!(!page_has_torrents("<table><tr><th>a</th><th>b</th></tr></table>"));
    assert!(has_torrents(&vec![row(None, None, None), row(Some(None), None, None)]));
    assert!(!has_torrents(&vec![row(None, Some(None), Some("1 B"))]));
    assert!(!has_torrents(&Vec::new()));
}

#[test]
fn discovery_ends_at_the_first_empty_page() {
    let mut search = Discovery::new();
    assert_eq!(search.page(), 1);
    for has in [true, true, true, false] {
        assert!(!search.is_done());
        search.look(has);
    }
    assert!(search.is_done());
    assert_eq!(search.page(), 4);
    search.look(true);
    assert_eq!(search.into_pages(), vec![1, 2, 3]);
}

#[test]
fn discovery_looks_at_html() {
    let mut search = Discovery::new();
    assert!(search.look_at_page(PAGE));
    assert_eq!(search.page(), 2);
    assert!(search.look_at_page("<p>nothing</p>"));
    assert!(search.is_done());
    assert_eq!(search.into_pages(), vec![1]);
    let mut none = Discovery::new();
    assert!(none.look_at_page(""));
    assert!(none.into_pages().is_empty());
}

#[test]
fn a_row_lists_a_torrent_if_it_has_all_parts() {
    let t = torrent_in_row(&row(
        Some(Some("A: b")),
        Some(Some("/download/1.torrent")),
        Some(" 1 MiB\n"),
    ))
    .unwrap();
    assert_eq!(t.url, "https://nyaa.si/download/1.torrent");
    assert_eq!(t.title, "A: b");
    assert_eq!(t.filename, "A b.torrent");
    assert_eq!(t.size_text, "1 MiB");
    assert!(torrent_in_row(&row(None, Some(Some("/x")), Some("1"))).is_none());
    assert!(torrent_in_row(&row(Some(Some("a")), None, Some("1"))).is_none());
    assert!(torrent_in_row(&row(Some(Some("a")), Some(Some("/x")), None)).is_none());
    assert!(torrent_in_row(&row(Some(Some("a")), Some(Some("")), Some("1"))).is_none());
    assert!(torrent_in_row(&row(Some(Some("a")), Some(None), Some("1"))).is_none());
    let unknown = torrent_in_row(&row(Some(None), Some(Some("/x")), Some(""))).unwrap();
    assert_eq!(unknown.title, "Unknown");
    assert_eq!(unknown.filename, "Unknown.torrent");
}

#[test]
fn a_page_is_planned_in_order() {
    let state = DownloadState::default();
    let plan = plan_page(PAGE, &state);
    assert_eq!(plan.len(), 2);
    assert_eq!(plan[0].url, "https://nyaa.si/download/1.torrent");
    assert_eq!(plan[0].title, "[G] Show - 01");
    assert_eq!(plan[0].filename, "G Show - 01.torrent");
    assert_eq!(plan[0].size_text, "1.4 GiB");
    assert_eq!(plan[1].filename, "ThirdOne.torrent");
}

#[test]
fn what_was_downloaded_is_not_planned_again() {
    let mut state = DownloadState::default();
    let plan = plan_page(PAGE, &state);
    record_download(&mut state, &plan[0], "00".to_string());
    let rest = plan_page(PAGE, &state);
    assert_eq!(rest.len(), 1);
    assert_eq!(rest[0].title, "Third/One");
    record_download(&mut state, &rest[0], "11".to_string());
    assert!(plan_page(PAGE, &state).is_empty());
    assert_eq!(state.torrent_count(), 2);
}

#[test]
fn rows_that_share_a_file_name_are_planned_again() {
    let rows = vec![
        row(Some(Some("a/b")), Some(Some("/1")), Some("1 B")),
        row(Some(Some("ab")), Some(Some("/2")), Some("1 B")),
    ];
    let mut state = DownloadState::default();
    let plan = plan_rows(&rows, &state);
    assert_eq!(plan.len(), 2);
    for torrent in &plan {
        record_download(&mut state, torrent, String::new());
    }
    let again = plan_rows(&rows, &state);
    assert_eq!(again.len(), 1);
    assert_eq!(again[0].title, "a/b");
}

#[test]
fn a_download_is_noted_with_its_hash_and_time() {
    let state = DownloadState::default();
    let plan = plan_page(PAGE, &state);
    let info = torrent_info(&plan[0], "ab12".to_string(), 99);
    assert_eq!(info.title, "[G] Show - 01");
    assert_eq!(info.download_url, "https://nyaa.si/download/1.torrent");
    assert_eq!(info.size_text, "1.4 GiB");
    assert_eq!(info.filename, "G Show - 01.torrent");
    assert_eq!(info.content_hash, Some("ab12".to_string()));
    assert_eq!(info.downloaded_at, 99);
    let mut state = DownloadState::default();
    record_download(&mut state, &plan[0], "ab12".to_string());
    let kept = state.downloaded_torrents.get("G Show - 01.torrent").unwrap();
    assert_eq!(kept.content_hash, Some("ab12".to_string()));
    assert!(kept.downloaded_at > 1_600_000_000);
    assert!(state.last_update >= kept.downloaded_at);
}

#[test]
fn documents_that_are_too_long_are_not_parsed() {
    assert_eq!(checked_rows(PAGE).unwrap().len(), 4);
    let long = String::from_utf8(vec![0u8; MAX_HTML + 1]).unwrap();
    assert!(checked_rows(&long).is_none());
}

#[test]
fn a_second_run_changes_nothing() {
    let base = "https://nyaa.si/?q=a";
    let site = [PAGE, "<p>nothing</p>"];
    let mut state = DownloadState::default();
    let mut updates: Vec<(usize, u64)> = Vec::new();
    for run in 0..3 {
        let mut search = Discovery::new();
        while !search.is_done() {
            let page = search.page();
            assert!(search.look_at_page(site[page as usize - 1]));
        }
        let pass = state.begin_pass(base, &search.into_pages());
        assert_eq!(pass.pages, vec![1]);
        assert_eq!(pass.again, run > 0);
        for page in pass.pages {
            let plan = plan_page(site[page as usize - 1], &state);
            assert_eq!(plan.len(), if run == 0 { 2 } else { 0 });
            for torrent in &plan {
                record_download(&mut state, torrent, "00".to_string());
            }
            state.mark_page_processed(base.to_string(), page);
        }
        assert!(state.has_processed_page(base, 1));
        updates.push((state.torrent_count(), state.last_update));
    }
    assert_eq!(updates[1], updates[0]);
    assert_eq!(updates[2], updates[0]);
}

#[test]
fn a_second_run_is_quiet_though_a_late_page_was_left() {
    let base = "https://nyaa.si/?q=a";
    let site: Vec<Vec<ListingRow>> = (1..=5)
        .map(|page: i32| {
            let title = format!("Show {}", page);
            let link = format!("/download/{}", page);
            vec![row(Some(Some(title.as_str())), Some(Some(link.as_str())), Some("1 B"))]
        })
        .collect();
    let listed = vec![1, 2, 3, 4, 5];
    let mut state = DownloadState::default();
    state.mark_page_processed(base.to_string(), 5);
    let mut counts: Vec<(usize, u64)> = Vec::new();
    for pages in [vec![1, 2, 3, 4], vec![1, 2, 3], vec![1, 2, 3]] {
        let pass = state.begin_pass(base, &listed);
        assert_eq!(pass.pages, pages);
        for page in pass.pages {
            for torrent in &plan_rows(&site[page as usize - 1], &state) {
                record_download(&mut state, torrent, "00".to_string());
            }
            state.mark_page_processed(base.to_string(), page);
        }
        counts.push((state.torrent_count(), state.last_update));
    }
    assert_eq!(counts[0].0, 4);
    assert_eq!(counts[1], counts[0]);
    assert_eq!(counts[2], counts[0]);
    assert_eq!(plan_rows(&site[4], &state).len(), 1);
}
