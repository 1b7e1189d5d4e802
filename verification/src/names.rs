//! The names of the directories and files that downloads are kept under.
use vstd::prelude::*;
use vstd::string::*;
use vstd::utf8::*;

use crate::clock;
use crate::percent;
use crate::text;
use crate::urls;

verus! {

/// The characters that are taken out of a title to make a file name of it.
pub const FILENAME_CLASS: &'static str = r"[^\w\-_\. ]";

/// The characters that are exchanged in a part of a URL to make a directory name
/// of it.
pub const URL_PART_CLASS: &'static str = r"[^\w\-_]";

/// Whether the class `\w` of the `regex` crate holds a character beyond ASCII:
/// one that is alphabetic, a mark, a decimal digit, a connector or a joiner.
pub uninterp spec fn is_word_beyond_ascii(c: char) -> bool;

/// Whether `c` is a word character: in ASCII a letter, a digit or `_`.
pub open spec fn is_word(c: char) -> bool {
    if c <= '\u{7f}' {
        ('0' <= c <= '9') || ('A' <= c <= 'Z') || ('a' <= c <= 'z') || c == '_'
    } else {
        is_word_beyond_ascii(c)
    }
}

/// Whether `c` is in the class that the pattern `class` stands for.
pub open spec fn class_holds(class: Seq<char>, c: char) -> bool {
    &&& !is_word(c)
    &&& c != '-'
    &&& class == FILENAME_CLASS@ ==> c != '.' && c != ' '
}

/// `s` with each character of a class exchanged for `replacement`.
pub open spec fn substituted(s: Seq<char>, class: Seq<char>, replacement: Seq<char>) -> Seq<char>
    decreases s.len(),
{
    if s.len() == 0 {
        Seq::empty()
    } else {
        let front = substituted(s.drop_last(), class, replacement);
        if class_holds(class, s.last()) {
            front + replacement
        } else {
            front.push(s.last())
        }
    }
}

/// `regex::Regex::replace_all`, for the two classes above: each character of
/// the text that the class holds is exchanged for the replacement, and the others
/// stay; so what is left beyond ASCII is a word character. A replacement with `$` in it would stand for a capture group.
#[verifier::external_body]
fn replace_class(s: &str, class: &str, replacement: &str) -> (result: String)
    requires
        class@ == FILENAME_CLASS@ || class@ == URL_PART_CLASS@,
        !replacement@.contains('$'),
    ensures
        result@ == substituted(s@, class@, replacement@),
        forall|i: int|
            0 <= i < result@.len() && result@[i] > '\u{7f}' ==> is_word_beyond_ascii(
                #[trigger] result@[i],
            ) || replacement@.contains(result@[i]),
{
    regex::Regex::new(class).unwrap().replace_all(s, replacement).into_owned()
}

/// Every character of the result was outside of the class, or is of the
/// replacement.
proof fn lemma_substituted(s: Seq<char>, class: Seq<char>, replacement: Seq<char>)
    ensures
        forall|i: int|
            0 <= i < substituted(s, class, replacement).len() ==> {
                let c = #[trigger] substituted(s, class, replacement)[i];
                !class_holds(class, c) || replacement.contains(c)
            },
        replacement.len() == 1 ==> substituted(s, class, replacement).len() == s.len(),
    decreases s.len(),
{
    if s.len() > 0 {
        lemma_substituted(s.drop_last(), class, replacement);
        let front = substituted(s.drop_last(), class, replacement);
        let whole = substituted(s, class, replacement);
        assert forall|i: int| 0 <= i < whole.len() implies {
            let c = #[trigger] whole[i];
            !class_holds(class, c) || replacement.contains(c)
        } by {
            if i < front.len() {
                assert(whole[i] == front[i]);
            } else if class_holds(class, s.last()) {
                assert(whole[i] == replacement[i - front.len()]);
            }
        }
    }
}

/// The word characters of ASCII are its letters, its digits and `_`.
pub proof fn law_ascii_words(c: char)
    requires
        c <= '\u{7f}',
    ensures
        is_word(c) <==> 48 <= c as u32 <= 57 || 65 <= c as u32 <= 90 || c as u32 == 95 || 97
            <= c as u32 <= 122,
{
}

/// Of a title, the word characters, `-`, `.` and spaces stay, in order, and nothing
/// else does.
pub proof fn law_clean_title(title: Seq<char>)
    ensures
        substituted(title, FILENAME_CLASS@, Seq::empty()) == title.filter(
            |c: char| is_word(c) || c == '-' || c == '.' || c == ' ',
        ),
    decreases title.len(),
{
    reveal(Seq::filter);
    if title.len() > 0 {
        law_clean_title(title.drop_last());
        let front = substituted(title.drop_last(), FILENAME_CLASS@, Seq::empty());
        assert(front + Seq::<char>::empty() =~= front);
    }
}

/// Of a part of a URL, the word characters and `-` stay, and `_` stands for every other
/// character.
pub proof fn law_clean_part(part: Seq<char>)
    ensures
        substituted(part, URL_PART_CLASS@, "_"@) == part.map_values(
            |c: char|
                if is_word(c) || c == '-' {
                    c
                } else {
                    '_'
                },
        ),
    decreases part.len(),
{
    reveal_strlit("_");
    lemma_classes_differ();
    let clean = |c: char|
        if is_word(c) || c == '-' {
            c
        } else {
            '_'
        };
    if part.len() > 0 {
        law_clean_part(part.drop_last());
        assert("_"@ =~= seq!['_']);
        assert(part.map_values(clean) =~= part.drop_last().map_values(clean).push(
            clean(part.last()),
        ));
        assert(part.drop_last().map_values(clean) + seq!['_'] =~= part.drop_last().map_values(
            clean,
        ).push('_'));
    }
}

// ---------------------------------------------------------------------------
// File names

/// The name of the file that a torrent with the given title is kept in.
pub open spec fn filename_of(title: Seq<char>) -> Seq<char> {
    named_torrent(substituted(title, FILENAME_CLASS@, Seq::empty()))
}

/// A cleaned title, without the blanks around it, as a file name.
pub open spec fn named_torrent(clean: Seq<char>) -> Seq<char> {
    text::trimmed(clean) + ".torrent"@
}

/// The file name that a cleaned title makes.
pub fn filename_for_clean_title(clean: &str) -> (filename: String)
    ensures
        filename@ == named_torrent(clean@),
{
    text::trim(clean).concat(".torrent")
}

/// The name of the file that a torrent titled `title` is kept in.
pub fn torrent_filename(title: &str) -> (filename: String)
    ensures
        filename@ == filename_of(title@),
{
    proof {
        reveal_strlit("");
        assert(""@ == Seq::<char>::empty());
    }
    filename_for_clean_title(replace_class(title, FILENAME_CLASS, "").as_str())
}

/// The path of a file in a directory.
pub open spec fn path_in(dir: Seq<char>, name: Seq<char>) -> Seq<char> {
    dir + "/"@ + name
}

/// The path of the file `name` in the directory `dir`.
pub fn file_path(dir: &str, name: &str) -> (path: String)
    ensures
        path@ == path_in(dir@, name@),
{
    dir.to_owned().concat("/").concat(name)
}

/// The path of the file that the state of the downloads in `dir` is kept in.
pub fn state_file_path(dir: &str) -> (path: String)
    ensures
        path@ == path_in(dir@, "download_state.json"@),
{
    file_path(dir, "download_state.json")
}

/// What stands between blanks in a cleaned title is the file name, up to its ending, and
/// all of it is, however long it is.
pub proof fn law_clean_title_is_kept(before: Seq<char>, kept: Seq<char>, after: Seq<char>)
    requires
        text::all_blank(before),
        text::all_blank(after),
        kept.len() > 0 ==> !text::is_blank(kept.first()) && !text::is_blank(kept.last()),
    ensures
        named_torrent(before + kept + after) == kept + ".torrent"@,
{
    text::law_trimmed_between(before, kept, after);
}

/// Two cleaned titles without blanks at their ends that differ have two file names.
pub proof fn law_clean_titles_have_their_names(a: Seq<char>, b: Seq<char>)
    requires
        a.len() > 0 ==> !text::is_blank(a.first()) && !text::is_blank(a.last()),
        b.len() > 0 ==> !text::is_blank(b.first()) && !text::is_blank(b.last()),
        named_torrent(a) == named_torrent(b),
    ensures
        a == b,
{
    let none = Seq::<char>::empty();
    law_clean_title_is_kept(none, a, none);
    law_clean_title_is_kept(none, b, none);
    assert(none + a + none =~= a && none + b + none =~= b);
    let ending = ".torrent"@;
    assert(a =~= named_torrent(a).take(named_torrent(a).len() - ending.len()));
    assert(b =~= named_torrent(b).take(named_torrent(b).len() - ending.len()));
}

/// A file name, up to its ending, has every character of the title that a file name may
/// have, in order, but for blanks at the two ends.
pub proof fn law_filename_keeps_the_title(title: Seq<char>)
    ensures
        ({
            let clean = title.filter(|c: char| is_word(c) || c == '-' || c == '.' || c == ' ');
            exists|before: Seq<char>, kept: Seq<char>, after: Seq<char>|
                #![trigger before + kept + after]
                {
                    &&& text::all_blank(before)
                    &&& text::all_blank(after)
                    &&& clean == before + kept + after
                    &&& kept.len() > 0 ==> !text::is_blank(kept.first()) && !text::is_blank(
                        kept.last(),
                    )
                    &&& filename_of(title) == kept + ".torrent"@
                }
        }),
{
    law_clean_title(title);
    let clean = title.filter(|c: char| is_word(c) || c == '-' || c == '.' || c == ' ');
    text::law_trimmed(clean);
    let kept = text::trimmed(clean);
    let (before, after) = choose|before: Seq<char>, after: Seq<char>|
        #![trigger text::all_blank(before), text::all_blank(after)]
        text::all_blank(before) && text::all_blank(after) && clean == before + kept + after;
    law_clean_title_is_kept(before, kept, after);
    assert(clean == before + kept + after);
}

/// A title that a file name may have as it is, without blanks at its ends, is the file
/// name up to its ending: two such titles that differ have two file names.
pub proof fn law_plain_title_is_the_name(title: Seq<char>)
    requires
        forall|i: int|
            0 <= i < title.len() ==> {
                let c = #[trigger] title[i];
                is_word(c) || c == '-' || c == '.' || c == ' '
            },
        title.len() > 0 ==> !text::is_blank(title.first()) && !text::is_blank(title.last()),
    ensures
        filename_of(title) == title + ".torrent"@,
{
    let keep = |c: char| is_word(c) || c == '-' || c == '.' || c == ' ';
    law_clean_title(title);
    lemma_all_kept(title, keep);
    let none = Seq::<char>::empty();
    law_clean_title_is_kept(none, title, none);
    assert(none + title + none =~= title);
}

/// A filter that holds of every character takes none out.
proof fn lemma_all_kept(s: Seq<char>, keep: spec_fn(char) -> bool)
    requires
        forall|i: int| 0 <= i < s.len() ==> keep(#[trigger] s[i]),
    ensures
        s.filter(keep) == s,
    decreases s.len(),
{
    reveal(Seq::filter);
    if s.len() > 0 {
        let front = s.drop_last();
        assert forall|i: int| 0 <= i < front.len() implies keep(#[trigger] front[i]) by {
            assert(front[i] == s[i]);
        }
        lemma_all_kept(front, keep);
        assert(keep(s[s.len() - 1]));
        assert(front.push(s.last()) =~= s);
    }
}

/// The path of a file is its directory, a slash and its name.
pub proof fn law_path(dir: Seq<char>, name: Seq<char>)
    ensures
        path_in(dir, name).len() == dir.len() + 1 + name.len(),
        path_in(dir, name).take(dir.len() as int) == dir,
        path_in(dir, name)[dir.len() as int] == '/',
        path_in(dir, name).skip(dir.len() as int + 1) == name,
{
    reveal_strlit("/");
    assert(path_in(dir, name).take(dir.len() as int) =~= dir);
    assert(path_in(dir, name).skip(dir.len() as int + 1) =~= name);
}

/// A file name made of a title ends in `.torrent` and holds only word characters,
/// `-`, `.` and spaces: no separator of directories in particular. It does not start
/// with a blank.
pub proof fn law_filename_is_clean(title: Seq<char>)
    ensures
        filename_of(title).len() >= ".torrent"@.len(),
        filename_of(title).skip(filename_of(title).len() - ".torrent"@.len()) == ".torrent"@,
        forall|i: int|
            0 <= i < filename_of(title).len() ==> {
                let c = #[trigger] filename_of(title)[i];
                is_word(c) || c == '-' || c == '.' || c == ' '
            },
        !text::is_blank(filename_of(title).first()),
        !filename_of(title).contains('/'),
        !filename_of(title).contains('\\'),
{
    reveal_strlit(".torrent");
    let clean = substituted(title, FILENAME_CLASS@, Seq::empty());
    lemma_substituted(title, FILENAME_CLASS@, Seq::empty());
    text::law_trimmed(clean);
    let kept = text::trimmed(clean);
    let (before, after) = choose|before: Seq<char>, after: Seq<char>|
        #![trigger text::all_blank(before), text::all_blank(after)]
        text::all_blank(before) && text::all_blank(after) && clean == before + kept + after;
    let name = filename_of(title);
    assert(name.first() == if kept.len() > 0 { kept.first() } else { '.' });
    assert(name.skip(name.len() - ".torrent"@.len()) == ".torrent"@);
    assert forall|i: int| 0 <= i < name.len() implies {
        let c = #[trigger] name[i];
        is_word(c) || c == '-' || c == '.' || c == ' '
    } by {
        if i < kept.len() {
            assert(name[i] == clean[before.len() + i]);
        } else {
            assert(name[i] == ".torrent"@[i - kept.len()]);
        }
    }
}

// ---------------------------------------------------------------------------
// Directories

/// The directory that all downloads are kept under.
pub const BASE_DIR: &'static str = "torrents";

/// The part of a URL that its directory is named after.
pub enum UrlPart {
    /// The path of a user's page, with `_` for each slash.
    User(String),
    /// The search term, still percent-encoded.
    Query(String),
    /// There is no such part: the time gives the name.
    Nothing,
}

/// What a URL is named after, as a value of the model.
pub enum UrlPartModel {
    User(Seq<char>),
    Query(Seq<char>),
    Nothing,
}

impl View for UrlPart {
    type V = UrlPartModel;

    open spec fn view(&self) -> UrlPartModel {
        match self {
            UrlPart::User(s) => UrlPartModel::User(s@),
            UrlPart::Query(s) => UrlPartModel::Query(s@),
            UrlPart::Nothing => UrlPartModel::Nothing,
        }
    }
}

/// The path of a user's page on the site, with `_` for each slash.
pub open spec fn user_part(url: Seq<char>) -> Seq<char> {
    text::replaced(text::replaced(url, "https://nyaa.si/"@, Seq::empty()), "/"@, "_"@)
}

/// Where the search term of a URL starts: behind its first `?q=`, or behind its first
/// `&q=` where there is no `?q=`.
pub open spec fn query_start(url: Seq<char>) -> Option<int> {
    if text::occurs(url, "?q="@) {
        Some(text::first_position(url, "?q="@) + 3)
    } else if text::occurs(url, "&q="@) {
        Some(text::first_position(url, "&q="@) + 3)
    } else {
        None
    }
}

/// What stands from `start` on in a URL, up to a `&`.
pub open spec fn query_part(url: Seq<char>, start: int) -> Seq<char> {
    text::before_first(url.skip(start), "&"@)
}

/// The part of a URL that its directory is named after.
pub open spec fn named_part(url: Seq<char>) -> UrlPartModel {
    if text::occurs(url, "user/"@) {
        UrlPartModel::User(user_part(url))
    } else {
        match query_start(url) {
            Some(start) => UrlPartModel::Query(query_part(url, start)),
            None => UrlPartModel::Nothing,
        }
    }
}

/// Where the search term of a URL starts.
fn find_query(url: &Vec<char>) -> (start: Option<usize>)
    ensures
        match start {
            Some(i) => query_start(url@) == Some(i as int) && i <= url@.len(),
            None => query_start(url@) is None,
        },
{
    proof {
        reveal_strlit("?q=");
        reveal_strlit("&q=");
    }
    assert(url.len() <= usize::MAX);
    if let Some(i) = text::find(url, &text::chars_of("?q=")) {
        proof {
            text::lemma_first_position(url@, "?q="@, i as int);
        }
        return Some(i + 3);
    }
    if let Some(i) = text::find(url, &text::chars_of("&q=")) {
        proof {
            text::lemma_first_position(url@, "&q="@, i as int);
        }
        return Some(i + 3);
    }
    None
}

/// The part of `url` that its directory is named after.
pub fn url_part(url: &str) -> (part: UrlPart)
    ensures
        part@ == named_part(url@),
{
    proof {
        reveal_strlit("");
        reveal_strlit("/");
        reveal_strlit("https://nyaa.si/");
        assert(""@ == Seq::<char>::empty());
    }
    if text::contains(url, "user/") {
        return UrlPart::User(
            text::replace(text::replace(url, "https://nyaa.si/", "").as_str(), "/", "_"),
        );
    }
    let chars = text::chars_of(url);
    match find_query(&chars) {
        None => UrlPart::Nothing,
        Some(start) => {
            let rest = text::text_of(&chars, start, chars.len());
            assert(rest@ == url@.skip(start as int));
            let tail = text::chars_of(rest.as_str());
            match text::find(&tail, &text::chars_of("&")) {
                None => UrlPart::Query(rest),
                Some(end) => {
                    proof {
                        text::lemma_first_position(rest@, "&"@, end as int);
                    }
                    assert(rest@.subrange(0, end as int) == rest@.take(end as int));
                    UrlPart::Query(text::text_of(&tail, 0, end))
                },
            }
        },
    }
}

/// The path of the directory that is named after the given text.
pub open spec fn directory_of(part: Seq<char>) -> Seq<char> {
    path_in(BASE_DIR@, substituted(part, URL_PART_CLASS@, "_"@))
}

/// The path of the directory named after `part`.
pub fn directory_path(part: &str) -> (path: String)
    ensures
        path@ == directory_of(part@),
{
    proof {
        reveal_strlit("_");
    }
    file_path(BASE_DIR, replace_class(part, URL_PART_CLASS, "_").as_str())
}

/// Why there is no directory for a URL.
pub enum DirectoryError {
    /// The search term does not decode to UTF-8.
    NotUtf8(std::string::FromUtf8Error),
    /// The clock stands before the Unix epoch.
    BeforeEpoch(std::time::SystemTimeError),
}

/// The directory of a search for the term that `query` decodes to.
pub fn search_directory(query: &str) -> (path: Result<String, DirectoryError>)
    ensures
        match path {
            Ok(path) => valid_utf8(percent::bytes_meant(query@)) && path@ == directory_of(
                "search_"@ + decode_utf8(percent::bytes_meant(query@)),
            ),
            Err(error) => error is NotUtf8 && !valid_utf8(percent::bytes_meant(query@)),
        },
{
    match percent::decode(query) {
        Ok(term) => Ok(directory_path("search_".to_owned().concat(term.as_str()).as_str())),
        Err(error) => Err(DirectoryError::NotUtf8(error)),
    }
}

/// The directory that is named after a reading of the clock.
pub fn dated_directory(clock: Result<u64, std::time::SystemTimeError>) -> (path: Result<
    String,
    DirectoryError,
>)
    ensures
        match clock {
            Ok(seconds) => path is Ok && path->Ok_0@ == directory_of(
                "torrents_"@ + text::decimal(seconds as int),
            ),
            Err(error) => path == Err::<String, DirectoryError>(DirectoryError::BeforeEpoch(error)),
        },
{
    match clock {
        Ok(seconds) => Ok(
            directory_path(
                "torrents_".to_owned().concat(text::write_count(seconds).as_str()).as_str(),
            ),
        ),
        Err(error) => Err(DirectoryError::BeforeEpoch(error)),
    }
}

/// The path of the directory that the downloads from `url` are kept in: named
/// after the user or the search term, or else after the time.
pub fn directory_from_url(url: &str) -> (path: Result<String, DirectoryError>)
    ensures
        match named_part(url@) {
            UrlPartModel::User(part) => path is Ok && path->Ok_0@ == directory_of(part),
            UrlPartModel::Query(query) => match path {
                Ok(path) => valid_utf8(percent::bytes_meant(query)) && path@ == directory_of(
                    "search_"@ + decode_utf8(percent::bytes_meant(query)),
                ),
                Err(error) => error is NotUtf8 && !valid_utf8(percent::bytes_meant(query)),
            },
            UrlPartModel::Nothing => match path {
                Ok(path) => exists|seconds: u64|
                    path@ == directory_of("torrents_"@ + #[trigger] text::decimal(seconds as int)),
                Err(error) => error is BeforeEpoch,
            },
        },
{
    match url_part(url) {
        UrlPart::User(part) => Ok(directory_path(part.as_str())),
        UrlPart::Query(query) => search_directory(query.as_str()),
        UrlPart::Nothing => dated_directory(clock::since_epoch()),
    }
}

/// A URL of a user, which has `user/` in it, is named after what is left of it without
/// the site, with `_` for each slash.
pub proof fn law_user_url(url: Seq<char>, i: int)
    requires
        text::occurs(url, "user/"@),
    ensures
        named_part(url) is User,
        ({
            let page = text::replaced(url, "https://nyaa.si/"@, Seq::empty());
            let part = named_part(url)->User_0;
            &&& part.len() == page.len()
            &&& 0 <= i < page.len() ==> part[i] == if page[i] == '/' {
                '_'
            } else {
                page[i]
            }
        }),
{
    reveal_strlit("/");
    reveal_strlit("_");
    assert("/"@ =~= seq!['/'] && "_"@ =~= seq!['_']);
    text::law_char_replaced(text::replaced(url, "https://nyaa.si/"@, Seq::empty()), '/', '_');
}

/// The page of a user on the site is named after the user, whatever the name is.
pub proof fn law_user_page(name: Seq<char>)
    requires
        !name.contains('/'),
    ensures
        named_part("https://nyaa.si/user/"@ + name) == UrlPartModel::User("user_"@ + name),
{
    reveal_strlit("https://nyaa.si/user/");
    reveal_strlit("https://nyaa.si/");
    reveal_strlit("user/");
    reveal_strlit("user_");
    let site = "https://nyaa.si/"@;
    let none = Seq::<char>::empty();
    let page = "user/"@ + name;
    let url = "https://nyaa.si/user/"@ + name;
    assert(url =~= none + site + page);
    assert(url =~= site + "user/"@ + name);
    text::law_occurs(url, "user/"@);
    if text::occurs(page, site) {
        let i = choose|i: int| text::occurs_at(page, site, i);
        text::law_occurs_at(page, site, i);
        assert(page[i + 6] == site[6] && page[i + 7] == site[7]);
        if i + 7 >= 5 {
            assert(page[i + 7] == name[i + 7 - 5]);
        }
    }
    text::law_nothing_replaced(page, site, none);
    text::law_replaced(none, site, page, none);
    assert(none + none + page =~= page);
    let part = named_part(url)->User_0;
    law_user_url(url, 0);
    let expected = "user_"@ + name;
    assert forall|i: int| 0 <= i < part.len() implies part[i] == expected[i] by {
        law_user_url(url, i);
        if i >= 5 {
            assert(page[i] == name[i - 5]);
        }
    }
    assert(part =~= expected);
}

/// A search is named after what stands behind its first `?q=`, or else its first `&q=`,
/// up to a `&` or to the end.
pub proof fn law_search_url(front: Seq<char>, mark: Seq<char>, term: Seq<char>, rest: Seq<char>)
    requires
        !text::occurs(front + mark + term + rest, "user/"@),
        mark == "?q="@ || mark == "&q="@ && !text::occurs(front + mark + term + rest, "?q="@),
        forall|i: int|
            0 <= i < front.len() ==> !#[trigger] text::occurs_at(
                front + mark + term + rest,
                mark,
                i,
            ),
        !term.contains('&'),
        rest.len() > 0 ==> rest[0] == '&',
    ensures
        named_part(front + mark + term + rest) == UrlPartModel::Query(term),
{
    reveal_strlit("?q=");
    reveal_strlit("&q=");
    reveal_strlit("&");
    let url = front + mark + term + rest;
    let n = front.len() as int;
    assert(url.subrange(n, n + 3) =~= mark);
    assert(text::occurs_at(url, mark, n));
    text::lemma_first_position(url, mark, n);
    let tail = url.skip(n + 3);
    assert(tail =~= term + rest);
    assert("&"@ =~= seq!['&']);
    if rest.len() > 0 {
        assert(tail =~= term + "&"@ + rest.skip(1));
        assert forall|i: int| 0 <= i < term.len() implies !#[trigger] text::occurs_at(
            term + "&"@ + rest.skip(1),
            "&"@,
            i,
        ) by {
            text::law_occurs_at(tail, "&"@, i);
            if tail[i + 0] == '&' {
                assert(term[i] == '&');
            }
            assert("&"@[0] == '&');
        }
        text::law_before_first(term, "&"@, rest.skip(1));
    } else {
        assert(tail =~= term);
        if text::occurs(term, "&"@) {
            let i = choose|i: int| text::occurs_at(term, "&"@, i);
            text::law_occurs_at(term, "&"@, i);
            assert("&"@[0] == '&');
            assert(term[i] == '&');
        }
        text::law_before_first(term, "&"@, rest);
    }
}

/// A URL with neither a user nor a search in it is not named after anything.
pub proof fn law_other_url(url: Seq<char>)
    ensures
        named_part(url) is Nothing <==> !text::occurs(url, "user/"@) && !text::occurs(url, "?q="@)
            && !text::occurs(url, "&q="@),
{
}

/// A directory is named after a text character by character: word characters and `-`
/// stay, and `_` stands for every other one.
pub proof fn law_directory_is_named_after(part: Seq<char>, i: int)
    ensures
        directory_of(part).len() == "torrents/"@.len() + part.len(),
        directory_of(part).take("torrents/"@.len() as int) == "torrents/"@,
        0 <= i < part.len() ==> directory_of(part)["torrents/"@.len() + i] == if is_word(part[i])
            || part[i] == '-' {
            part[i]
        } else {
            '_'
        },
{
    reveal_strlit("torrents");
    reveal_strlit("torrents/");
    reveal_strlit("/");
    law_clean_part(part);
    assert(directory_of(part).take("torrents/"@.len() as int) =~= "torrents/"@);
}

/// Every directory stands directly under the base directory: its name holds only
/// word characters and `-`, one for each character of the text that it is named
/// after.
pub proof fn law_directory_is_under_base(part: Seq<char>)
    ensures
        directory_of(part).len() == BASE_DIR@.len() + 1 + part.len(),
        directory_of(part).take(BASE_DIR@.len() as int + 1) == BASE_DIR@ + "/"@,
        forall|i: int|
            BASE_DIR@.len() + 1 <= i < directory_of(part).len() ==> {
                let c = #[trigger] directory_of(part)[i];
                (is_word(c) || c == '-') && c != '/' && c != '\\' && c != '.'
            },
{
    reveal_strlit("_");
    reveal_strlit("/");
    let name = substituted(part, URL_PART_CLASS@, "_"@);
    let path = directory_of(part);
    lemma_substituted(part, URL_PART_CLASS@, "_"@);
    lemma_classes_differ();
    assert(path.take(BASE_DIR@.len() as int + 1) == BASE_DIR@ + "/"@);
    assert forall|i: int| BASE_DIR@.len() + 1 <= i < path.len() implies {
        let c = #[trigger] path[i];
        (is_word(c) || c == '-') && c != '/' && c != '\\' && c != '.'
    } by {
        assert(path[i] == name[i - BASE_DIR@.len() - 1]);
    }
}

/// The directory of a search is named after the term: the term is read back from
/// the URL that is made of it, whatever its characters are.
pub proof fn law_search_directory_has_the_term(term: Seq<char>)
    ensures
        named_part(urls::search_url(term)) == UrlPartModel::Query(
            percent::percent_encoded(encode_utf8(term)),
        ),
        valid_utf8(percent::bytes_meant(percent::percent_encoded(encode_utf8(term)))),
        decode_utf8(percent::bytes_meant(percent::percent_encoded(encode_utf8(term)))) == term,
{
    reveal_strlit("https://nyaa.si/?f=0&c=0_0&q=");
    reveal_strlit("user/");
    reveal_strlit("?q=");
    reveal_strlit("&q=");
    reveal_strlit("&");
    let url = urls::search_url(term);
    let tail = percent::percent_encoded(encode_utf8(term));
    percent::lemma_encoded_chars(encode_utf8(term));
    percent::law_decode_encode(term);
    if text::occurs(url, "user/"@) {
        let i = choose|i: int| text::occurs_at(url, "user/"@, i);
        assert(url.subrange(i, i + 5)[4] == '/' && url.subrange(i, i + 5)[3] == 'r');
        assert(url[i + 4] == '/' && url[i + 3] == 'r');
        if i + 4 >= 29 {
            assert(url[i + 4] == tail[i + 4 - 29]);
        }
    }
    if text::occurs(url, "?q="@) {
        let i = choose|i: int| text::occurs_at(url, "?q="@, i);
        assert(url.subrange(i, i + 3)[0] == '?' && url.subrange(i, i + 3)[1] == 'q');
        assert(url[i] == '?' && url[i + 1] == 'q');
        if i >= 29 {
            assert(url[i] == tail[i - 29]);
        }
    }
    assert(url.subrange(26, 29) == "&q="@);
    assert forall|j: int| 0 <= j < 26 implies !text::occurs_at(url, "&q="@, j) by {
        if text::occurs_at(url, "&q="@, j) {
            assert(url.subrange(j, j + 3)[0] == '&' && url.subrange(j, j + 3)[1] == 'q');
            assert(url[j] == '&' && url[j + 1] == 'q');
        }
    }
    text::lemma_first_position(url, "&q="@, 26);
    assert(url.skip(29) == tail);
    if text::occurs(tail, "&"@) {
        let i = choose|i: int| text::occurs_at(tail, "&"@, i);
        assert(tail.subrange(i, i + 1)[0] == '&');
        assert(tail[i] == '&');
    }
}

/// The two classes are written differently.
proof fn lemma_classes_differ()
    ensures
        FILENAME_CLASS@ != URL_PART_CLASS@,
{
    reveal_strlit(r"[^\w\-_\. ]");
    reveal_strlit(r"[^\w\-_]");
    assert(FILENAME_CLASS@.len() != URL_PART_CLASS@.len());
}

} // verus!
