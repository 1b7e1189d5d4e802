use meow::names::{
    dated_directory, directory_from_url, directory_path, file_path, filename_for_clean_title,
    search_directory, state_file_path, torrent_filename, url_part, DirectoryError, UrlPart,
};
use meow::urls::target_url;
use std::time::{Duration, UNIX_EPOCH};

#[test]
fn file_names_are_cleaned() {
    assert_eq!(
        torrent_filename("[Group] Show - 01 (1080p) [A1B2].mkv"),
        "Group Show - 01 1080p A1B2.mkv.torrent"
    );
    assert_eq!(torrent_filename("a/b\\c:d*e?f\"g<h>i|j"), "abcdefghij.torrent");
    assert_eq!(torrent_filename("【日本語】 アニメ_é"), "日本語 アニメ_é.torrent");
    assert_eq!(torrent_filename("../../etc"), "....etc.torrent");
    assert_eq!(torrent_filename("\u{1f600} smile\t!"), "smile.torrent");
    assert_eq!(torrent_filename(""), ".torrent");
}

#[test]
fn clean_titles_are_trimmed() {
    assert_eq!(filename_for_clean_title("  Show 1 "), "Show 1.torrent");
    assert_eq!(filename_for_clean_title("/"), "/.torrent");
}

#[test]
fn cleaned_names_hold_no_separator() {
    for title in ["/a/b", "c:\\d", "..\\..", "x/", "a\u{2215}b", " / x"] {
        let name = torrent_filename(title);
        assert!(name.ends_with(".torrent"));
        assert!(!name.starts_with(' '));
        assert!(!name.contains('/') && !name.contains('\\'));
    }
}

#[test]
fn paths_are_joined_with_a_slash() {
    assert_eq!(file_path("torrents/x", "a.torrent"), "torrents/x/a.torrent");
    assert_eq!(state_file_path("torrents/x"), "torrents/x/download_state.json");
}

fn part(url: &str) -> (u8, String) {
    match url_part(url) {
        UrlPart::User(s) => (0, s),
        UrlPart::Query(s) => (1, s),
        UrlPart::Nothing => (2, String::new()),
    }
}

#[test]
fn directories_are_named_after_users_and_searches() {
    assert_eq!(part("https://nyaa.si/user/NekoTrix"), (0, "user_NekoTrix".to_string()));
    assert_eq!(part("https://nyaa.si/user/a?q=b"), (0, "user_a?q=b".to_string()));
    assert_eq!(part("https://nyaa.si/?q=one%20two&c=1_2"), (1, "one%20two".to_string()));
    assert_eq!(part("https://nyaa.si/?q=one"), (1, "one".to_string()));
    assert_eq!(part("https://nyaa.si/?q="), (1, String::new()));
    assert_eq!(part("https://nyaa.si/?f=0&c=0_0&q=one"), (1, "one".to_string()));
    assert_eq!(part("https://nyaa.si/?f=0&q=one%20two&c=0_0"), (1, "one%20two".to_string()));
    assert_eq!(part("https://nyaa.si/?f=0&q=one?q=two"), (1, "two".to_string()));
    assert_eq!(part("https://nyaa.si/?f=0&c=0_0"), (2, String::new()));
    assert_eq!(part("https://nyaa.si/"), (2, String::new()));
}

#[test]
fn directory_names_are_cleaned() {
    assert_eq!(directory_path("user_NekoTrix"), "torrents/user_NekoTrix");
    assert_eq!(directory_path("a b/../c.d"), "torrents/a_b____c_d");
    assert_eq!(directory_path("日本 é-1"), "torrents/日本_é-1");
    assert_eq!(directory_path(""), "torrents/");
}

#[test]
fn directories_stay_under_the_base() {
    for name in ["..", "/etc", "a/b", ".", "\\"] {
        let path = directory_path(name);
        let rest = path.strip_prefix("torrents/").unwrap();
        assert_eq!(rest.chars().count(), name.chars().count());
        assert!(!rest.contains('/') && !rest.contains('.') && !rest.contains('\\'));
    }
}

#[test]
fn user_pages_have_a_directory() {
    assert_eq!(
        directory_from_url("https://nyaa.si/user/NekoTrix").ok().unwrap(),
        "torrents/user_NekoTrix"
    );
    assert_eq!(
        directory_from_url("https://nyaa.si/user/x?f=0").ok().unwrap(),
        "torrents/user_x_f_0"
    );
}

#[test]
fn searches_have_a_directory() {
    assert_eq!(
        directory_from_url("https://nyaa.si/?q=one%20two&c=1_2").ok().unwrap(),
        "torrents/search_one_two"
    );
    assert_eq!(
        directory_from_url("https://nyaa.si/?q=caf%C3%A9").ok().unwrap(),
        "torrents/search_café"
    );
    assert_eq!(
        directory_from_url("https://nyaa.si/?f=0&c=0_0&q=anime").ok().unwrap(),
        "torrents/search_anime"
    );
    assert_eq!(
        directory_from_url(&target_url("anime name")).ok().unwrap(),
        "torrents/search_anime_name"
    );
    assert_eq!(search_directory("100%25+%zz%4").ok().unwrap(), "torrents/search_100___zz_4");
}

#[test]
fn the_term_of_a_search_is_read_back() {
    for term in ["anime", "a b", "é&?=/#%", "日本"] {
        let expected = directory_path(&format!("search_{}", term));
        let url = format!("https://nyaa.si/?q={}", urlencoding::encode(term));
        assert_eq!(directory_from_url(&url).ok().unwrap(), expected);
        assert_eq!(directory_from_url(&target_url(term)).ok().unwrap(), expected);
    }
}

#[test]
fn terms_that_are_not_utf8_are_refused() {
    assert!(matches!(search_directory("%ff"), Err(DirectoryError::NotUtf8(_))));
    assert!(matches!(
        directory_from_url("https://nyaa.si/?q=%C3%28"),
        Err(DirectoryError::NotUtf8(_))
    ));
}

#[test]
fn other_urls_are_named_after_the_time() {
    assert_eq!(dated_directory(Ok(1700000000)).ok().unwrap(), "torrents/torrents_1700000000");
    let before = UNIX_EPOCH.duration_since(UNIX_EPOCH + Duration::from_secs(1)).unwrap_err();
    assert!(matches!(dated_directory(Err(before)), Err(DirectoryError::BeforeEpoch(_))));
    let path = directory_from_url("https://nyaa.si/?f=0&c=0_0").ok().unwrap();
    let seconds: u64 = path.strip_prefix("torrents/torrents_").unwrap().parse().unwrap();
    assert!(seconds > 1_600_000_000);
}
