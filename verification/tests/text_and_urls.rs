use meow::text;
use meow::urls::{get_base_url_without_page, page_url, target_url};

#[test]
fn blanks_are_those_of_unicode() {
    for code in 0..=0x10ffffu32 {
        if let Some(c) = char::from_u32(code) {
            assert_eq!(text::blank(c), c.is_whitespace(), "{:x}", code);
        }
    }
}

#[test]
fn trimming_takes_blanks_off_both_ends() {
    for s in ["", " ", "\t\n", "a", "  a b\u{3000}", "\u{a0}x", "é \u{2003}"] {
        assert_eq!(text::trim(s), s.trim());
        assert_eq!(text::trim(&text::trim(s)), s.trim());
    }
}

#[test]
fn words_are_parted_by_blanks() {
    for s in ["", "  ", "1.4 GiB", " a\tb  c\n", "x", "x\u{85}y"] {
        let expected: Vec<&str> = s.split_whitespace().collect();
        assert_eq!(text::split_words(s), expected);
    }
}

#[test]
fn searching_finds_the_leftmost_place() {
    let hay = text::chars_of("abcabc");
    assert_eq!(text::find(&hay, &text::chars_of("bc")), Some(1));
    assert_eq!(text::find(&hay, &text::chars_of("cb")), None);
    assert_eq!(text::find(&hay, &text::chars_of("")), Some(0));
    assert_eq!(text::find(&hay, &text::chars_of("abcabca")), None);
    assert_eq!(text::find(&hay, &text::chars_of("abcabc")), Some(0));
    assert!(text::contains("été?q", "?"));
    assert!(!text::contains("été", "?"));
    assert!(text::starts_with("https://nyaa.si", "https://"));
    assert!(!text::starts_with("http", "https"));
}

#[test]
fn equal_texts_are_the_same() {
    assert!(text::same_text("ünï", "ünï"));
    assert!(text::same_text("", ""));
    assert!(!text::same_text("a", "b"));
    assert!(!text::same_text("a", "ab"));
}

#[test]
fn replacing_goes_from_left_to_right() {
    for (s, from, to) in [
        ("aaa", "aa", "b"),
        ("a/b/c", "/", "_"),
        ("https://nyaa.si/https://nyaa.si/x", "https://nyaa.si/", ""),
        ("", "x", "y"),
        ("日本/語", "/", "__"),
    ] {
        assert_eq!(text::replace(s, from, to), s.replace(from, to));
    }
}

#[test]
fn numbers_are_written_in_decimal() {
    for n in [0, 1, 9, 10, 99, 1234567890, i32::MAX, -1, -10, i32::MIN] {
        assert_eq!(text::write_decimal(n), n.to_string());
    }
    for n in [0, 7, 10, u64::MAX] {
        assert_eq!(text::write_count(n), n.to_string());
    }
}

#[test]
fn urls_of_the_site_are_taken_as_they_are() {
    assert_eq!(target_url("https://nyaa.si/user/NekoTrix"), "https://nyaa.si/user/NekoTrix");
    assert_eq!(target_url("https://nyaa.si"), "https://nyaa.si");
    assert_eq!(
        target_url("https://nyaa.si/?f=0&c=0_0&q=anime"),
        "https://nyaa.si/?f=0&c=0_0&q=anime"
    );
}

#[test]
fn other_arguments_are_searched_for() {
    assert_eq!(target_url("anime name"), "https://nyaa.si/?f=0&c=0_0&q=anime%20name");
    assert_eq!(target_url("a&b=c/d?~é"), "https://nyaa.si/?f=0&c=0_0&q=a%26b%3Dc%2Fd%3F~%C3%A9");
    assert_eq!(target_url(""), "https://nyaa.si/?f=0&c=0_0&q=");
    assert_eq!(target_url("-_.~Az09"), "https://nyaa.si/?f=0&c=0_0&q=-_.~Az09");
    assert_eq!(target_url("http://nyaa.si"), "https://nyaa.si/?f=0&c=0_0&q=http%3A%2F%2Fnyaa.si");
}

#[test]
fn a_made_url_means_itself() {
    for input in ["anime name", "https://nyaa.si/x", "&p=1"] {
        let url = target_url(input);
        assert_eq!(target_url(&url), url);
    }
}

#[test]
fn the_page_parameter_is_taken_off() {
    assert_eq!(get_base_url_without_page("https://nyaa.si/?q=a&p=3"), "https://nyaa.si/?q=a");
    assert_eq!(get_base_url_without_page("https://nyaa.si/user/x?p=2"), "https://nyaa.si/user/x");
    assert_eq!(get_base_url_without_page("https://nyaa.si/?q=a"), "https://nyaa.si/?q=a");
    assert_eq!(get_base_url_without_page("https://nyaa.si/?q=a&p=3&s=id"), "https://nyaa.si/?q=a");
    assert_eq!(get_base_url_without_page("x&p=1&p=2"), "x");
    assert_eq!(get_base_url_without_page("a?p=1&p=2"), "a?p=1");
    assert_eq!(get_base_url_without_page(""), "");
}

#[test]
fn no_search_term_is_taken_for_a_page() {
    for term in ["&p=1", "?p=1", "p=1"] {
        let url = target_url(term);
        assert_eq!(get_base_url_without_page(&url), url);
    }
}

#[test]
fn pages_have_urls_of_their_own() {
    assert_eq!(page_url("https://nyaa.si/?q=a", 2), "https://nyaa.si/?q=a&p=2");
    assert_eq!(page_url("https://nyaa.si/user/x", 10), "https://nyaa.si/user/x?p=10");
    assert_ne!(page_url("b", 1), page_url("b", 11));
    assert_eq!(page_url("b", -3), "b?p=-3");
}

#[test]
fn the_base_of_a_page_is_its_listing() {
    for url in ["https://nyaa.si/?q=a&p=3", "https://nyaa.si/user/x", "a?p=1&p=2", "x&p", ""] {
        let base = get_base_url_without_page(url);
        assert_eq!(get_base_url_without_page(&page_url(&base, 7)), base);
    }
}
