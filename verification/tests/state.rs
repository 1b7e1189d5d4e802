use meow::clock::seconds_or_zero;
use meow::state::{DownloadState, TorrentInfo};
use meow::table::Table;
use std::time::{Duration, UNIX_EPOCH};

fn info(title: &str, url: &str) -> TorrentInfo {
    TorrentInfo {
        title: title.to_string(),
        download_url: url.to_string(),
        size_text: "1 MiB".to_string(),
        filename: "f".to_string(),
        content_hash: None,
        downloaded_at: 5,
    }
}

#[test]
fn a_state_starts_empty() {
    let state = DownloadState::default();
    assert_eq!(state.torrent_count(), 0);
    assert_eq!(state.processed_pages.len(), 0);
    assert_eq!(state.last_update, 0);
    assert!(state.should_download_torrent("f", "t", "u"));
    assert!(!state.has_processed_page("b", 1));
}

#[test]
fn a_torrent_is_wanted_until_it_is_noted() {
    let mut state = DownloadState::default();
    state.mark_torrent_downloaded_at("f".to_string(), info("t", "u"), 77);
    assert_eq!(state.last_update, 77);
    assert!(!state.should_download_torrent("f", "t", "u"));
    assert!(state.should_download_torrent("f", "t2", "u"));
    assert!(state.should_download_torrent("f", "t", "u2"));
    assert!(state.should_download_torrent("g", "t", "u"));
    state.mark_torrent_downloaded_at("f".to_string(), info("t2", "u"), 78);
    assert_eq!(state.torrent_count(), 1);
    assert!(state.should_download_torrent("f", "t", "u"));
    assert!(!state.should_download_torrent("f", "t2", "u"));
}

#[test]
fn a_torrent_is_noted_at_the_time_of_the_clock() {
    let mut state = DownloadState::default();
    state.mark_torrent_downloaded("f".to_string(), info("t", "u"));
    assert!(state.last_update > 1_600_000_000);
    assert!(!state.should_download_torrent("f", "t", "u"));
}

#[test]
fn a_clock_before_the_epoch_counts_as_zero() {
    assert_eq!(seconds_or_zero(Ok(12)), 12);
    let before = UNIX_EPOCH.duration_since(UNIX_EPOCH + Duration::from_secs(1)).unwrap_err();
    assert_eq!(seconds_or_zero(Err(before)), 0);
}

#[test]
fn copies_of_an_info_are_equal() {
    let mut one = info("t", "u");
    one.content_hash = Some("h".to_string());
    let copy = one.clone();
    assert_eq!(copy.title, "t");
    assert_eq!(copy.content_hash, Some("h".to_string()));
    assert_eq!(copy.downloaded_at, 5);
}

#[test]
fn pages_are_noted_for_their_listing() {
    let mut state = DownloadState::default();
    state.mark_page_processed("b".to_string(), 1);
    state.mark_page_processed("b".to_string(), 3);
    state.mark_page_processed("c".to_string(), 2);
    state.mark_page_processed("b".to_string(), 1);
    assert!(state.has_processed_page("b", 1));
    assert!(!state.has_processed_page("b", 2));
    assert!(state.has_processed_page("b", 3));
    assert!(!state.has_processed_page("c", 1));
    assert_eq!(state.processed_pages.len(), 2);
}

#[test]
fn a_pass_takes_the_pages_that_are_left() {
    let mut state = DownloadState::default();
    state.mark_page_processed("b".to_string(), 2);
    let pass = state.begin_pass("b", &vec![1, 2, 3, 4, 5]);
    assert_eq!(pass.pages, vec![1, 3, 4, 5]);
    assert!(!pass.again);
    assert!(state.has_processed_page("b", 2));
    assert_eq!(state.unprocessed_pages("c", &vec![7, 8]), vec![7, 8]);
}

#[test]
fn a_pass_starts_again_where_nothing_is_left() {
    let mut state = DownloadState::default();
    for page in 1..=5 {
        state.mark_page_processed("b".to_string(), page);
        state.mark_page_processed("c".to_string(), page);
    }
    let pass = state.begin_pass("b", &vec![1, 2, 3, 4, 5]);
    assert_eq!(pass.pages, vec![1, 2, 3]);
    assert!(pass.again);
    for page in 1..=5 {
        assert_eq!(state.has_processed_page("b", page), page > 3);
        assert!(state.has_processed_page("c", page));
    }
    let next = state.begin_pass("b", &vec![1, 2, 3, 4, 5]);
    assert_eq!(next.pages, vec![1, 2, 3]);
    assert!(!next.again);
}

#[test]
fn short_listings_are_gone_through_whole() {
    let mut state = DownloadState::default();
    state.mark_page_processed("b".to_string(), 1);
    state.mark_page_processed("b".to_string(), 2);
    let pass = state.begin_pass("b", &vec![1, 2]);
    assert_eq!(pass.pages, vec![1, 2]);
    assert!(pass.again);
    let none = DownloadState::default().begin_pass("b", &Vec::new());
    assert!(none.pages.is_empty());
    assert!(none.again);
}

#[test]
fn a_table_keeps_one_value_under_a_key() {
    let mut table: Table<u32> = Table::new();
    table.insert("a".to_string(), 1);
    table.insert("b".to_string(), 2);
    table.insert("a".to_string(), 3);
    assert_eq!(table.len(), 2);
    assert_eq!(table.get("a"), Some(&3));
    assert_eq!(table.get("c"), None);
    assert_eq!(table.key_at(0), "a");
    assert_eq!(table.key_at(1), "b");
    assert_eq!(*table.value_at(0), 3);
    assert_eq!(*table.value_at(1), 2);
    *table.get_mut("b").unwrap() = 9;
    assert_eq!(table.get("b"), Some(&9));
    assert!(table.get_mut("z").is_none());
}

#[test]
fn a_pass_that_was_gone_through_leaves_nothing() {
    let listed = vec![1, 2, 3, 4];
    let mut state = DownloadState::default();
    for _ in 0..3 {
        let pass = state.begin_pass("b", &listed);
        assert!(!pass.pages.is_empty());
        for page in pass.pages {
            assert!(!state.has_processed_page("b", page));
            state.mark_page_processed("b".to_string(), page);
        }
        assert!(state.unprocessed_pages("b", &listed).is_empty());
    }
}

#[test]
fn a_table_can_be_rebuilt_in_any_order() {
    let mut table: Table<u32> = Table::new();
    for (key, value) in [("x", 1), ("y", 2), ("z", 3), ("x", 4)] {
        table.insert(key.to_string(), value);
    }
    let mut other: Table<u32> = Table::new();
    for i in (0..table.len()).rev() {
        other.insert(table.key_at(i).to_string(), *table.value_at(i));
    }
    assert_eq!(other.len(), 3);
    for key in ["x", "y", "z", "w"] {
        assert_eq!(other.get(key), table.get(key));
    }
}
