//! The URLs of the site that are asked for.
use vstd::prelude::*;
use vstd::string::*;
use vstd::utf8::*;

use crate::percent;
use crate::text;

verus! {

/// The site, without a slash behind it.
pub const SITE: &'static str = "https://nyaa.si";

/// A search of the site, up to the search term.
pub const SEARCH: &'static str = "https://nyaa.si/?f=0&c=0_0&q=";

/// The URL of a search for a term.
pub open spec fn search_url(term: Seq<char>) -> Seq<char> {
    SEARCH@ + percent::percent_encoded(encode_utf8(term))
}

/// The URL that a command-line argument means: a URL of the site is taken as it
/// is, anything else is a term to search for.
pub open spec fn url_meant(input: Seq<char>) -> Seq<char> {
    if text::occurs_at(input, SITE@, 0) {
        input
    } else {
        search_url(input)
    }
}

/// The URL that the command-line argument `input` means.
pub fn target_url(input: &str) -> (url: String)
    ensures
        url@ == url_meant(input@),
{
    if text::starts_with(input, SITE) {
        input.to_owned()
    } else {
        SEARCH.to_owned().concat(percent::encode(input).as_str())
    }
}

/// A URL without its page parameter: without all that stands from its first `&p=` on,
/// or from its first `?p=` on where there is no `&p=`.
pub open spec fn base_url(url: Seq<char>) -> Seq<char> {
    if text::occurs(url, "&p="@) {
        text::before_first(url, "&p="@)
    } else {
        text::before_first(url, "?p="@)
    }
}

/// `url` up to its first `&p=`, or up to its first `?p=` where there is no `&p=`.
pub fn get_base_url_without_page(url: &str) -> (base: String)
    ensures
        base@ == base_url(url@),
{
    let chars = text::chars_of(url);
    if let Some(i) = text::find(&chars, &text::chars_of("&p=")) {
        proof {
            text::lemma_first_position(url@, "&p="@, i as int);
        }
        return text::text_of(&chars, 0, i);
    }
    if let Some(i) = text::find(&chars, &text::chars_of("?p=")) {
        proof {
            text::lemma_first_position(url@, "?p="@, i as int);
        }
        return text::text_of(&chars, 0, i);
    }
    url.to_owned()
}

/// The URL of a page of the listing at `base`.
pub open spec fn paged_url(base: Seq<char>, page: int) -> Seq<char> {
    if base.contains('?') {
        base + "&p="@ + text::decimal(page)
    } else {
        base + "?p="@ + text::decimal(page)
    }
}

/// The URL of page `page` of the listing at `base`.
pub fn page_url(base: &str, page: i32) -> (url: String)
    ensures
        url@ == paged_url(base@, page as int),
{
    let has_query = text::contains(base, "?");
    proof {
        reveal_strlit("?");
        if base@.contains('?') {
            let k = choose|k: int| 0 <= k < base@.len() && base@[k] == '?';
            assert(base@.subrange(k, k + 1) == "?"@);
            assert(text::occurs_at(base@, "?"@, k));
        }
        if text::occurs(base@, "?"@) {
            let k = choose|k: int| text::occurs_at(base@, "?"@, k);
            assert(base@.subrange(k, k + 1)[0] == '?');
            assert(base@[k] == '?');
        }
    }
    let separator = if has_query { "&p=" } else { "?p=" };
    base.to_owned().concat(separator).concat(text::write_decimal(page).as_str())
}

/// Where a pattern stands, its characters stand.
proof fn lemma_chars_at(s: Seq<char>, pattern: Seq<char>, i: int)
    requires
        pattern.len() > 0,
        text::occurs_at(s, pattern, i),
    ensures
        s[i] == pattern[0],
        forall|k: int| 0 <= k < pattern.len() ==> s[i + k] == #[trigger] pattern[k],
{
    assert forall|k: int| 0 <= k < pattern.len() implies s[i + k] == #[trigger] pattern[k] by {
        assert(s.subrange(i, i + pattern.len())[k] == s[i + k]);
    }
    assert(s[i + 0] == pattern[0]);
}

/// A base URL is the front of its URL and holds no `&p=`; it holds no `?p=`
/// either, unless that stands before a `&p=`.
pub proof fn law_base_url_has_no_page(url: Seq<char>)
    ensures
        base_url(url).len() <= url.len(),
        base_url(url) == url.take(base_url(url).len() as int),
        !text::occurs(base_url(url), "&p="@),
        !text::occurs(url, "&p="@) ==> !text::occurs(base_url(url), "?p="@),
{
    reveal_strlit("&p=");
    reveal_strlit("?p=");
    lemma_before_first(url, "&p="@);
    lemma_before_first(url, "?p="@);
    let base = base_url(url);
    if text::occurs(base, "&p="@) && !text::occurs(url, "&p="@) {
        let i = choose|i: int| text::occurs_at(base, "&p="@, i);
        assert(url.subrange(i, i + "&p="@.len()) == base.subrange(i, i + "&p="@.len()));
        assert(text::occurs_at(url, "&p="@, i));
    }
}

/// What stands before the leftmost place of a pattern does not hold it.
proof fn lemma_before_first(url: Seq<char>, pattern: Seq<char>)
    requires
        pattern.len() > 0,
    ensures
        text::before_first(url, pattern).len() <= url.len(),
        text::before_first(url, pattern) == url.take(text::before_first(url, pattern).len() as int),
        !text::occurs(text::before_first(url, pattern), pattern),
{
    let front = text::before_first(url, pattern);
    if text::occurs(url, pattern) {
        let at = choose|k: int| text::occurs_at(url, pattern, k);
        text::lemma_first_exists(url, pattern, at);
        if text::occurs(front, pattern) {
            let i = choose|i: int| text::occurs_at(front, pattern, i);
            assert(url.subrange(i, i + pattern.len()) == front.subrange(i, i + pattern.len()));
            assert(text::occurs_at(url, pattern, i));
        }
    } else {
        assert(url.take(url.len() as int) == url);
    }
}

/// Taking the page parameter off the URL of a page gives back the listing that
/// the page is of.
pub proof fn law_page_of_base(base: Seq<char>, page: int)
    requires
        !text::occurs(base, "&p="@),
    ensures
        base_url(paged_url(base, page)) == base,
{
    reveal_strlit("&p=");
    reveal_strlit("?p=");
    let url = paged_url(base, page);
    let n = base.len() as int;
    let number = text::decimal(page);
    assert forall|i: int| 0 <= i < number.len() implies #[trigger] number[i] != '&' && number[i]
        != '?' by {
        if page < 0 {
            text::lemma_digits((-page) as nat);
            if i > 0 {
                assert(number[i] == text::digits((-page) as nat)[i - 1]);
            }
        } else {
            text::lemma_digits(page as nat);
        }
    }
    let mark = if base.contains('?') { "&p="@ } else { "?p="@ };
    assert(url == base + mark + number);
    assert(url.take(n) == base);
    assert(url.subrange(n, n + 3) == mark);
    assert(text::occurs_at(url, mark, n));
    assert forall|i: int| text::occurs_at(url, "&p="@, i) implies i == n && mark == "&p="@ by {
        lemma_chars_at(url, "&p="@, i);
        assert(url[i] == '&' && url[i + 1] == "&p="@[1] && url[i + 2] == "&p="@[2]);
        if i + 3 <= n {
            assert(base.subrange(i, i + 3) == url.subrange(i, i + 3));
            assert(text::occurs_at(base, "&p="@, i));
        } else if i < n {
            if i == n - 1 {
                assert(url[i + 1] == mark[0]);
            } else {
                assert(url[i + 2] == mark[0]);
            }
        } else if i > n + 2 {
            assert(url[i] == number[i - n - 3]);
        } else {
            assert(url[i] == mark[i - n]);
        }
    }
    if base.contains('?') {
        assert(text::first_occurs_at(url, "&p="@, n));
        text::lemma_first_position(url, "&p="@, n);
    } else {
        assert("&p="@[0] != "?p="@[0]);
        assert(!text::occurs(url, "&p="@));
        assert forall|i: int| 0 <= i < n implies !text::occurs_at(url, "?p="@, i) by {
            if text::occurs_at(url, "?p="@, i) {
                lemma_chars_at(url, "?p="@, i);
                assert(url[i] == base[i]);
                assert(base.contains('?'));
            }
        }
        assert(text::first_occurs_at(url, "?p="@, n));
        text::lemma_first_position(url, "?p="@, n);
    }
}

/// Taking the page parameter off the URL of a page of a listing gives back the
/// base URL of that listing, whatever URL the base was made from.
pub proof fn law_page_url_keeps_base(url: Seq<char>, page: int)
    ensures
        base_url(paged_url(base_url(url), page)) == base_url(url),
{
    law_base_url_has_no_page(url);
    law_page_of_base(base_url(url), page);
}

/// Two pages of a listing have two URLs.
pub proof fn law_page_urls_differ(base: Seq<char>, m: int, n: int)
    requires
        paged_url(base, m) == paged_url(base, n),
    ensures
        m == n,
{
    let mark = if base.contains('?') { "&p="@ } else { "?p="@ };
    let k = (base + mark).len() as int;
    assert(paged_url(base, m).skip(k) == text::decimal(m));
    assert(paged_url(base, n).skip(k) == text::decimal(n));
    text::law_decimal_injective(m, n);
}

/// A URL of the site means itself. Every other argument is searched for: behind the
/// front that all searches share stands what decodes to exactly that argument.
pub proof fn law_url_meant(input: Seq<char>, rest: Seq<char>)
    ensures
        url_meant("https://nyaa.si"@ + rest) == "https://nyaa.si"@ + rest,
        (forall|rest: Seq<char>| input != #[trigger] ("https://nyaa.si"@ + rest)) ==> {
            let front = "https://nyaa.si/?f=0&c=0_0&q="@;
            let url = url_meant(input);
            &&& front.len() <= url.len()
            &&& url.take(front.len() as int) == front
            &&& valid_utf8(percent::bytes_meant(url.skip(front.len() as int)))
            &&& decode_utf8(percent::bytes_meant(url.skip(front.len() as int))) == input
            &&& url.skip(front.len() as int) == percent::percent_encoded(encode_utf8(input))
        },
{
    let site = "https://nyaa.si"@;
    let front = "https://nyaa.si/?f=0&c=0_0&q="@;
    let n = front.len() as int;
    assert((site + rest).subrange(0, site.len() as int) =~= site);
    if forall|rest: Seq<char>| input != #[trigger] (site + rest) {
        if text::occurs_at(input, site, 0) {
            assert(input =~= site + input.skip(site.len() as int));
        }
        let tail = percent::percent_encoded(encode_utf8(input));
        assert(url_meant(input) =~= front + tail);
        assert(url_meant(input).take(n) =~= front);
        assert(url_meant(input).skip(n) =~= tail);
        percent::law_decode_encode(input);
    }
}

/// The base of a URL is what stands before its first `&p=`; where it has none, what
/// stands before its first `?p=`; where it has neither, the URL.
pub proof fn law_base_url(front: Seq<char>, rest: Seq<char>)
    ensures
        (forall|i: int|
            0 <= i < front.len() ==> !#[trigger] text::occurs_at(
                front + "&p="@ + rest,
                "&p="@,
                i,
            )) ==> base_url(front + "&p="@ + rest) == front,
        !text::occurs(front + "?p="@ + rest, "&p="@) && (forall|i: int|
            0 <= i < front.len() ==> !#[trigger] text::occurs_at(
                front + "?p="@ + rest,
                "?p="@,
                i,
            )) ==> base_url(front + "?p="@ + rest) == front,
        !text::occurs(front, "&p="@) && !text::occurs(front, "?p="@) ==> base_url(front) == front,
{
    text::law_before_first(front, "&p="@, rest);
    text::law_before_first(front, "?p="@, rest);
    text::law_occurs(front + "&p="@ + rest, "&p="@);
}

/// The URL of a page is the base and the number of the page behind it, with `&p=`
/// between them where the base has a query already, and else with `?p=`.
pub proof fn law_paged_url(base: Seq<char>, page: int)
    ensures
        base.len() <= paged_url(base, page).len(),
        paged_url(base, page).take(base.len() as int) == base,
        base.contains('?') ==> paged_url(base, page).skip(base.len() as int) == "&p="@
            + text::decimal(page),
        !base.contains('?') ==> paged_url(base, page).skip(base.len() as int) == "?p="@
            + text::decimal(page),
{
    let url = paged_url(base, page);
    assert(url.take(base.len() as int) =~= base);
    let mark = if base.contains('?') { "&p="@ } else { "?p="@ };
    assert(url.skip(base.len() as int) =~= mark + text::decimal(page));
}

/// A URL that was made from an argument means itself.
pub proof fn law_url_meant_is_stable(input: Seq<char>)
    ensures
        url_meant(url_meant(input)) == url_meant(input),
{
    reveal_strlit("https://nyaa.si");
    reveal_strlit("https://nyaa.si/?f=0&c=0_0&q=");
    let url = search_url(input);
    assert(url.subrange(0, SITE@.len() as int) == SITE@);
}

/// The term can be read back from the URL of a search for it.
pub proof fn law_search_term_is_kept(term: Seq<char>)
    ensures
        valid_utf8(percent::bytes_meant(search_url(term).skip(SEARCH@.len() as int))),
        decode_utf8(percent::bytes_meant(search_url(term).skip(SEARCH@.len() as int))) == term,
{
    assert(search_url(term).skip(SEARCH@.len() as int) == percent::percent_encoded(
        encode_utf8(term),
    ));
    percent::law_decode_encode(term);
}

/// No search term is taken for a page parameter.
pub proof fn law_search_url_is_its_own_base(term: Seq<char>)
    ensures
        base_url(search_url(term)) == search_url(term),
{
    reveal_strlit("https://nyaa.si/?f=0&c=0_0&q=");
    reveal_strlit("&p=");
    reveal_strlit("?p=");
    let url = search_url(term);
    let tail = percent::percent_encoded(encode_utf8(term));
    percent::lemma_encoded_chars(encode_utf8(term));
    let n = SEARCH@.len() as int;
    assert forall|i: int| 0 <= i < url.len() && (#[trigger] url[i] == '&' || url[i] == '?') implies i
        < n && i + 1 < n && url[i + 1] != 'p' by {
        if i >= n {
            assert(url[i] == tail[i - n]);
        }
    }
    if text::occurs(url, "&p="@) {
        let i = choose|i: int| text::occurs_at(url, "&p="@, i);
        lemma_chars_at(url, "&p="@, i);
        assert(url[i + 1] == "&p="@[1]);
    }
    if text::occurs(url, "?p="@) {
        let i = choose|i: int| text::occurs_at(url, "?p="@, i);
        lemma_chars_at(url, "?p="@, i);
        assert(url[i + 1] == "?p="@[1]);
    }
}

} // verus!
