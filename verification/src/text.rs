//! Plain operations on text, stated over the sequence of its characters.
use vstd::prelude::*;
use vstd::string::*;
use vstd::utf8::*;

verus! {

/// `String::push` appends the given character to the end of the string.
pub assume_specification[ String::push ](s: &mut String, ch: char)
    ensures
        final(s)@ == old(s)@.push(ch),
;

/// The characters of `text`, in order.
pub fn chars_of(text: &str) -> (chars: Vec<char>)
    ensures
        chars@ == text@,
{
    let mut chars: Vec<char> = Vec::new();
    for c in it: text.chars()
        invariant
            chars@ == it.seq().take(it.index() as int),
            it.seq() == text@,
    {
        chars.push(c);
    }
    chars
}

/// The text made of the characters from `start` up to `end`.
pub fn text_of(chars: &Vec<char>, start: usize, end: usize) -> (text: String)
    requires
        start <= end <= chars@.len(),
    ensures
        text@ == chars@.subrange(start as int, end as int),
{
    let mut text = String::new();
    for i in start..end
        invariant
            start <= end <= chars@.len(),
            text@ == chars@.subrange(start as int, i as int),
    {
        text.push(chars[i]);
    }
    text
}

/// Whether two texts are equal, character by character.
pub fn same_text(a: &str, b: &str) -> (same: bool)
    ensures
        same == (a@ == b@),
{
    let left = a.as_bytes();
    let right = b.as_bytes();
    proof {
        encode_utf8_decode_utf8(a@);
        encode_utf8_decode_utf8(b@);
    }
    if left.len() != right.len() {
        return false;
    }
    for i in 0..left.len()
        invariant
            left@.len() == right@.len(),
            left@ == encode_utf8(a@),
            right@ == encode_utf8(b@),
            left@.take(i as int) == right@.take(i as int),
    {
        if left[i] != right[i] {
            return false;
        }
    }
    assert(left@ == left@.take(left@.len() as int));
    assert(right@ == right@.take(right@.len() as int));
    true
}

// ---------------------------------------------------------------------------
// Searching

/// `pattern` stands in `text` at position `i`.
pub open spec fn occurs_at(text: Seq<char>, pattern: Seq<char>, i: int) -> bool {
    &&& 0 <= i
    &&& i + pattern.len() <= text.len()
    &&& text.subrange(i, i + pattern.len()) == pattern
}

/// `pattern` stands somewhere in `text`.
pub open spec fn occurs(text: Seq<char>, pattern: Seq<char>) -> bool {
    exists|i: int| occurs_at(text, pattern, i)
}

/// The leftmost place of `pattern` in `text` is `i`.
pub open spec fn first_occurs_at(text: Seq<char>, pattern: Seq<char>, i: int) -> bool {
    &&& occurs_at(text, pattern, i)
    &&& forall|j: int| 0 <= j < i ==> !occurs_at(text, pattern, j)
}

/// The leftmost place of `pattern` in `text`, where there is one.
pub open spec fn first_position(text: Seq<char>, pattern: Seq<char>) -> int
    recommends
        occurs(text, pattern),
{
    choose|i: int| first_occurs_at(text, pattern, i)
}

/// What stands in `text` before the leftmost place of `pattern`: all of it,
/// where `pattern` does not occur.
pub open spec fn before_first(text: Seq<char>, pattern: Seq<char>) -> Seq<char> {
    if occurs(text, pattern) {
        text.take(first_position(text, pattern))
    } else {
        text
    }
}

/// There is at most one leftmost place.
pub proof fn lemma_first_position(text: Seq<char>, pattern: Seq<char>, i: int)
    requires
        first_occurs_at(text, pattern, i),
    ensures
        occurs(text, pattern),
        first_position(text, pattern) == i,
{
    let k = first_position(text, pattern);
    assert(first_occurs_at(text, pattern, k));
    assert(k >= i && k <= i);
}

/// Where there is a place, there is a leftmost one.
pub proof fn lemma_first_exists(text: Seq<char>, pattern: Seq<char>, i: int)
    requires
        occurs_at(text, pattern, i),
    ensures
        first_occurs_at(text, pattern, first_position(text, pattern)),
        0 <= first_position(text, pattern) <= i,
    decreases i,
{
    if forall|j: int| 0 <= j < i ==> !occurs_at(text, pattern, j) {
        assert(first_occurs_at(text, pattern, i));
        lemma_first_position(text, pattern, i);
    } else {
        let j = choose|j: int| 0 <= j < i && occurs_at(text, pattern, j);
        lemma_first_exists(text, pattern, j);
    }
}

/// A pattern stands at a place of a text if and only if its characters do, one after
/// the other.
pub proof fn law_occurs_at(text: Seq<char>, pattern: Seq<char>, i: int)
    ensures
        occurs_at(text, pattern, i) <==> 0 <= i && i + pattern.len() <= text.len() && (forall|k: int|
            0 <= k < pattern.len() ==> text[i + k] == #[trigger] pattern[k]),
{
    if 0 <= i && i + pattern.len() <= text.len() {
        let part = text.subrange(i, i + pattern.len());
        if forall|k: int| 0 <= k < pattern.len() ==> text[i + k] == #[trigger] pattern[k] {
            assert(part =~= pattern);
        }
        if part == pattern {
            assert forall|k: int| 0 <= k < pattern.len() implies text[i + k]
                == #[trigger] pattern[k] by {
                assert(part[k] == text[i + k]);
            }
        }
    }
}

/// A text holds a pattern if and only if it is made of some text, the pattern and some
/// more text.
pub proof fn law_occurs(text: Seq<char>, pattern: Seq<char>)
    ensures
        occurs(text, pattern) <==> exists|front: Seq<char>, rest: Seq<char>|
            text == #[trigger] (front + pattern + rest),
{
    if occurs(text, pattern) {
        let i = choose|i: int| occurs_at(text, pattern, i);
        assert(text =~= text.take(i) + pattern + text.skip(i + pattern.len()));
    }
    if exists|front: Seq<char>, rest: Seq<char>| text == #[trigger] (front + pattern + rest) {
        let (front, rest) = choose|front: Seq<char>, rest: Seq<char>|
            text == #[trigger] (front + pattern + rest);
        let n = front.len() as int;
        assert(text.subrange(n, n + pattern.len()) =~= pattern);
        assert(occurs_at(text, pattern, n));
    }
}

/// What stands before a pattern is the text up to the first place that the pattern
/// stands at, and the whole text where it stands nowhere.
pub proof fn law_before_first(front: Seq<char>, pattern: Seq<char>, rest: Seq<char>)
    ensures
        (forall|i: int|
            0 <= i < front.len() ==> !#[trigger] occurs_at(front + pattern + rest, pattern, i))
            ==> before_first(front + pattern + rest, pattern) == front,
        !occurs(front, pattern) ==> before_first(front, pattern) == front,
{
    let text = front + pattern + rest;
    let n = front.len() as int;
    assert(text.subrange(n, n + pattern.len()) =~= pattern);
    if forall|i: int| 0 <= i < n ==> !#[trigger] occurs_at(text, pattern, i) {
        lemma_first_position(text, pattern, n);
        assert(text.take(n) =~= front);
    }
}

/// Whether `pattern` stands in `text` at position `at`.
pub fn stands_at(text: &Vec<char>, pattern: &Vec<char>, at: usize) -> (found: bool)
    ensures
        found == occurs_at(text@, pattern@, at as int),
{
    if at > text.len() || pattern.len() > text.len() - at {
        return false;
    }
    for k in 0..pattern.len()
        invariant
            at + pattern.len() <= text.len(),
            forall|m: int| 0 <= m < k ==> text@[at + m] == pattern@[m],
    {
        if text[at + k] != pattern[k] {
            assert(text@.subrange(at as int, at + pattern@.len())[k as int] != pattern@[k as int]);
            return false;
        }
    }
    assert(text@.subrange(at as int, at + pattern@.len()) == pattern@);
    true
}

/// The leftmost place of `pattern` in `text`.
pub fn find(text: &Vec<char>, pattern: &Vec<char>) -> (place: Option<usize>)
    ensures
        match place {
            Some(i) => first_occurs_at(text@, pattern@, i as int) && i <= text@.len(),
            None => !occurs(text@, pattern@),
        },
{
    if pattern.len() > text.len() {
        return None;
    }
    let last = text.len() - pattern.len();
    for i in 0..last
        invariant
            last == text@.len() - pattern@.len(),
            forall|j: int| 0 <= j < i ==> !occurs_at(text@, pattern@, j),
    {
        if stands_at(text, pattern, i) {
            return Some(i);
        }
    }
    if stands_at(text, pattern, last) {
        return Some(last);
    }
    None
}

/// Whether `pattern` stands somewhere in `text`.
pub fn contains(text: &str, pattern: &str) -> (found: bool)
    ensures
        found == occurs(text@, pattern@),
{
    let place = find(&chars_of(text), &chars_of(pattern));
    match place {
        Some(i) => {
            assert(occurs_at(text@, pattern@, i as int));
            true
        },
        None => false,
    }
}

/// Whether `text` begins with `prefix`.
pub fn starts_with(text: &str, prefix: &str) -> (found: bool)
    ensures
        found == occurs_at(text@, prefix@, 0),
{
    stands_at(&chars_of(text), &chars_of(prefix), 0)
}

// ---------------------------------------------------------------------------
// Replacing

/// `text` with each place of `from`, taken from the left and without overlap,
/// exchanged for `to`.
pub open spec fn replaced(text: Seq<char>, from: Seq<char>, to: Seq<char>) -> Seq<char>
    decreases text.len(),
{
    if text.len() == 0 || from.len() == 0 {
        text
    } else if occurs_at(text, from, 0) {
        to + replaced(text.skip(from.len() as int), from, to)
    } else {
        seq![text[0]] + replaced(text.skip(1), from, to)
    }
}

/// Exchanges each place of `from` in `text` for `to`.
pub fn replace(text: &str, from: &str, to: &str) -> (result: String)
    requires
        from@.len() > 0,
    ensures
        result@ == replaced(text@, from@, to@),
{
    let chars = chars_of(text);
    let pattern = chars_of(from);
    let mut result = String::new();
    let mut i: usize = 0;
    assert(chars@.skip(0) == chars@);
    while i < chars.len()
        invariant
            chars@ == text@,
            pattern@ == from@,
            pattern@.len() > 0,
            i <= chars@.len(),
            result@ + replaced(chars@.skip(i as int), from@, to@) == replaced(text@, from@, to@),
        decreases chars@.len() - i,
    {
        let ghost rest = chars@.skip(i as int);
        let ghost before = result@;
        if stands_at(&chars, &pattern, i) {
            assert(rest.subrange(0, pattern@.len() as int) == chars@.subrange(
                i as int,
                i + pattern@.len(),
            ));
            result.append(to);
            i = i + pattern.len();
            assert(rest.skip(pattern@.len() as int) == chars@.skip(i as int));
            assert(before + (to@ + replaced(chars@.skip(i as int), from@, to@)) == (before + to@)
                + replaced(chars@.skip(i as int), from@, to@));
        } else {
            proof {
                if occurs_at(rest, from@, 0) {
                    assert(chars@.subrange(i as int, i + pattern@.len()) == rest.subrange(
                        0,
                        pattern@.len() as int,
                    ));
                }
            }
            result.push(chars[i]);
            i = i + 1;
            assert(rest.skip(1) == chars@.skip(i as int));
            assert(before + (seq![rest[0]] + replaced(chars@.skip(i as int), from@, to@))
                == before.push(rest[0]) + replaced(chars@.skip(i as int), from@, to@));
        }
    }
    assert(chars@.skip(i as int) == Seq::<char>::empty());
    assert(result@ + Seq::<char>::empty() == result@);
    result
}

/// The leftmost place of a pattern is exchanged, what stands before it stays, and what
/// stands behind it is treated alike.
pub proof fn law_replaced(front: Seq<char>, from: Seq<char>, rest: Seq<char>, to: Seq<char>)
    requires
        from.len() > 0,
        forall|i: int|
            0 <= i < front.len() ==> !#[trigger] occurs_at(front + from + rest, from, i),
    ensures
        replaced(front + from + rest, from, to) == front + to + replaced(rest, from, to),
    decreases front.len(),
{
    let text = front + from + rest;
    if front.len() == 0 {
        assert(text.subrange(0, from.len() as int) =~= from);
        assert(text.skip(from.len() as int) =~= rest);
        assert(front + to + replaced(rest, from, to) =~= to + replaced(rest, from, to));
    } else {
        let shorter = front.skip(1);
        let tail = shorter + from + rest;
        assert(text.skip(1) =~= tail);
        assert(!occurs_at(text, from, 0));
        assert forall|i: int| 0 <= i < shorter.len() implies !#[trigger] occurs_at(
            tail,
            from,
            i,
        ) by {
            if occurs_at(tail, from, i) {
                assert(text.subrange(i + 1, i + 1 + from.len()) =~= tail.subrange(
                    i,
                    i + from.len(),
                ));
                assert(occurs_at(text, from, i + 1));
            }
        }
        law_replaced(shorter, from, rest, to);
        assert(seq![text[0]] + (shorter + to + replaced(rest, from, to)) =~= front + to + replaced(
            rest,
            from,
            to,
        ));
    }
}

/// A text that does not hold a pattern stays as it is.
pub proof fn law_nothing_replaced(text: Seq<char>, from: Seq<char>, to: Seq<char>)
    requires
        !occurs(text, from),
    ensures
        replaced(text, from, to) == text,
    decreases text.len(),
{
    if text.len() > 0 && from.len() > 0 {
        let rest = text.skip(1);
        assert(!occurs_at(text, from, 0));
        if occurs(rest, from) {
            let i = choose|i: int| occurs_at(rest, from, i);
            assert(text.subrange(i + 1, i + 1 + from.len()) =~= rest.subrange(i, i + from.len()));
            assert(occurs_at(text, from, i + 1));
        }
        law_nothing_replaced(rest, from, to);
        assert(seq![text[0]] + rest =~= text);
    }
}

/// Where one character is exchanged for another one, every character is looked at by
/// itself.
pub proof fn law_char_replaced(text: Seq<char>, from: char, to: char)
    ensures
        replaced(text, seq![from], seq![to]).len() == text.len(),
        forall|i: int|
            0 <= i < text.len() ==> #[trigger] replaced(text, seq![from], seq![to])[i] == if text[i]
                == from {
                to
            } else {
                text[i]
            },
    decreases text.len(),
{
    if text.len() > 0 {
        let rest = text.skip(1);
        law_char_replaced(rest, from, to);
        law_occurs_at(text, seq![from], 0);
        let result = replaced(text, seq![from], seq![to]);
        let head = if text[0] == from { to } else { text[0] };
        assert(seq![from][0] == from);
        assert(result =~= seq![head] + replaced(rest, seq![from], seq![to]));
        assert forall|i: int| 0 <= i < text.len() implies #[trigger] result[i] == if text[i]
            == from {
            to
        } else {
            text[i]
        } by {
            if i > 0 {
                assert(result[i] == replaced(rest, seq![from], seq![to])[i - 1]);
                assert(rest[i - 1] == text[i]);
            }
        }
    }
}

// ---------------------------------------------------------------------------
// Blanks

/// The characters with the Unicode property White_Space.
pub open spec fn is_blank(c: char) -> bool {
    let code = c as u32;
    ||| 0x9 <= code <= 0xd
    ||| code == 0x20
    ||| code == 0x85
    ||| code == 0xa0
    ||| code == 0x1680
    ||| 0x2000 <= code <= 0x200a
    ||| code == 0x2028
    ||| code == 0x2029
    ||| code == 0x202f
    ||| code == 0x205f
    ||| code == 0x3000
}

/// Whether `c` has the Unicode property White_Space.
pub fn blank(c: char) -> (result: bool)
    ensures
        result == is_blank(c),
{
    let code = c as u32;
    (0x9 <= code && code <= 0xd) || code == 0x20 || code == 0x85 || code == 0xa0 || code == 0x1680
        || (0x2000 <= code && code <= 0x200a) || code == 0x2028 || code == 0x2029 || code == 0x202f
        || code == 0x205f || code == 0x3000
}

/// The blanks, one by one.
pub proof fn law_blanks(c: char)
    ensures
        is_blank(c) <==> seq![
            '\t',
            '\n',
            '\u{b}',
            '\u{c}',
            '\r',
            ' ',
            '\u{85}',
            '\u{a0}',
            '\u{1680}',
            '\u{2000}',
            '\u{2001}',
            '\u{2002}',
            '\u{2003}',
            '\u{2004}',
            '\u{2005}',
            '\u{2006}',
            '\u{2007}',
            '\u{2008}',
            '\u{2009}',
            '\u{200a}',
            '\u{2028}',
            '\u{2029}',
            '\u{202f}',
            '\u{205f}',
            '\u{3000}',
        ].contains(c),
{
    broadcast use vstd::seq_lib::group_seq_properties;

}

/// Every character of `text` is a blank.
pub open spec fn all_blank(text: Seq<char>) -> bool {
    forall|i: int| 0 <= i < text.len() ==> is_blank(#[trigger] text[i])
}

/// `text` without the blanks at its start.
pub open spec fn trimmed_start(text: Seq<char>) -> Seq<char>
    decreases text.len(),
{
    if text.len() > 0 && is_blank(text.first()) {
        trimmed_start(text.skip(1))
    } else {
        text
    }
}

/// `text` without the blanks at its end.
pub open spec fn trimmed_end(text: Seq<char>) -> Seq<char>
    decreases text.len(),
{
    if text.len() > 0 && is_blank(text.last()) {
        trimmed_end(text.drop_last())
    } else {
        text
    }
}

/// `text` without the blanks at its two ends.
pub open spec fn trimmed(text: Seq<char>) -> Seq<char> {
    trimmed_end(trimmed_start(text))
}

/// Takes the blanks off the two ends of `text`.
pub fn trim(text: &str) -> (result: String)
    ensures
        result@ == trimmed(text@),
{
    let chars = chars_of(text);
    let mut start: usize = 0;
    assert(chars@.skip(0) == chars@);
    while start < chars.len() && blank(chars[start])
        invariant
            chars@ == text@,
            start <= chars@.len(),
            trimmed_start(chars@.skip(start as int)) == trimmed_start(text@),
        decreases chars@.len() - start,
    {
        assert(chars@.skip(start as int).skip(1) == chars@.skip(start + 1));
        start = start + 1;
    }
    let ghost tail = chars@.skip(start as int);
    assert(tail == trimmed_start(text@));
    let mut end: usize = chars.len();
    assert(chars@.subrange(start as int, end as int) == tail);
    while start < end && blank(chars[end - 1])
        invariant
            start <= end <= chars@.len(),
            trimmed_end(chars@.subrange(start as int, end as int)) == trimmed_end(tail),
        decreases end,
    {
        assert(chars@.subrange(start as int, end as int).drop_last() == chars@.subrange(
            start as int,
            end - 1,
        ));
        end = end - 1;
    }
    text_of(&chars, start, end)
}

/// Trimming takes only blanks away, and all of them at both ends.
pub proof fn law_trimmed(text: Seq<char>)
    ensures
        exists|before: Seq<char>, after: Seq<char>|
            #![trigger all_blank(before), all_blank(after)]
            all_blank(before) && all_blank(after) && text == before + trimmed(text) + after,
        trimmed(text).len() > 0 ==> !is_blank(trimmed(text).first()) && !is_blank(
            trimmed(text).last(),
        ),
        trimmed(text).len() == 0 <==> all_blank(text),
        trimmed(trimmed(text)) == trimmed(text),
{
    let middle = trimmed_start(text);
    lemma_trimmed_start(text);
    lemma_trimmed_end(middle);
    let before = text.take(text.len() - middle.len());
    let after = middle.skip(trimmed(text).len() as int);
    assert(text == before + trimmed(text) + after);
    assert(all_blank(before) && all_blank(after));
    let kept = trimmed(text);
    if kept.len() > 0 {
        assert(kept.first() == middle.first());
        assert(text[before.len() as int] == kept[0]);
    } else {
        assert forall|i: int| 0 <= i < text.len() implies is_blank(#[trigger] text[i]) by {
            if i < before.len() {
                assert(before[i] == text[i]);
            } else {
                assert(after[i - before.len()] == text[i]);
            }
        }
    }
}

/// What stands between blanks, and has none at its own ends, is what trimming leaves.
pub proof fn law_trimmed_between(before: Seq<char>, kept: Seq<char>, after: Seq<char>)
    requires
        all_blank(before),
        all_blank(after),
        kept.len() > 0 ==> !is_blank(kept.first()) && !is_blank(kept.last()),
    ensures
        trimmed(before + kept + after) == kept,
{
    let text = before + kept + after;
    let left = trimmed(text);
    law_trimmed(text);
    let (b, a) = choose|b: Seq<char>, a: Seq<char>|
        #![trigger all_blank(b), all_blank(a)]
        all_blank(b) && all_blank(a) && text == b + left + a;
    if kept.len() == 0 {
        assert forall|i: int| 0 <= i < text.len() implies is_blank(#[trigger] text[i]) by {
            if i < before.len() {
                assert(text[i] == before[i]);
            } else {
                assert(text[i] == after[i - before.len()]);
            }
        }
        assert(left =~= kept);
    } else {
        let (n, m) = (before.len() as int, b.len() as int);
        let (n_end, m_end) = (n + kept.len() - 1, m + left.len() - 1);
        assert(text[n] == kept.first() && text[n_end] == kept.last());
        if left.len() == 0 {
            assert(is_blank(text[n]));
        }
        assert(text[m] == left.first() && text[m_end] == left.last());
        assert(n <= m) by {
            if m < n {
                assert(text[m] == before[m]);
            }
        }
        assert(m <= n) by {
            if n < m {
                assert(text[n] == b[n]);
            }
        }
        assert(m_end <= n_end) by {
            if n_end < m_end {
                assert(text[m_end] == after[m_end - n_end - 1]);
            }
        }
        assert(n_end <= m_end) by {
            if m_end < n_end {
                assert(text[n_end] == a[n_end - m_end - 1]);
            }
        }
        assert(kept =~= text.subrange(n, n_end + 1));
        assert(left =~= text.subrange(m, m_end + 1));
    }
}

proof fn lemma_trimmed_start(text: Seq<char>)
    ensures
        trimmed_start(text).len() <= text.len(),
        trimmed_start(text) == text.skip(text.len() - trimmed_start(text).len()),
        all_blank(text.take(text.len() - trimmed_start(text).len())),
        trimmed_start(text).len() > 0 ==> !is_blank(trimmed_start(text).first()),
    decreases text.len(),
{
    if text.len() > 0 && is_blank(text.first()) {
        let rest = text.skip(1);
        lemma_trimmed_start(rest);
        let n = trimmed_start(text).len();
        assert(rest.skip(rest.len() - n) == text.skip(text.len() - n));
        let front = text.take(text.len() - n);
        assert forall|i: int| 0 <= i < front.len() implies is_blank(#[trigger] front[i]) by {
            if i > 0 {
                assert(front[i] == rest.take(rest.len() - n)[i - 1]);
            }
        }
    } else {
        assert(text.skip(0) == text);
    }
}

proof fn lemma_trimmed_end(text: Seq<char>)
    ensures
        trimmed_end(text).len() <= text.len(),
        trimmed_end(text) == text.take(trimmed_end(text).len() as int),
        all_blank(text.skip(trimmed_end(text).len() as int)),
        trimmed_end(text).len() > 0 ==> !is_blank(trimmed_end(text).last()),
    decreases text.len(),
{
    if text.len() > 0 && is_blank(text.last()) {
        let rest = text.drop_last();
        lemma_trimmed_end(rest);
        let n = trimmed_end(text).len();
        assert(rest.take(n as int) == text.take(n as int));
        let back = text.skip(n as int);
        assert forall|i: int| 0 <= i < back.len() implies is_blank(#[trigger] back[i]) by {
            if i < back.len() - 1 {
                assert(back[i] == rest.skip(n as int)[i]);
            }
        }
    } else {
        assert(text.take(text.len() as int) == text);
    }
}

/// The words of `text`: its longest runs of characters that are not blanks.
pub open spec fn words(text: Seq<char>) -> Seq<Seq<char>>
    decreases text.len(),
{
    if text.len() == 0 {
        Seq::empty()
    } else {
        let earlier = words(text.drop_last());
        let c = text.last();
        if is_blank(c) {
            earlier
        } else if text.len() == 1 || is_blank(text[text.len() - 2]) {
            earlier.push(seq![c])
        } else {
            earlier.drop_last().push(earlier.last().push(c))
        }
    }
}

/// A text has no words if and only if it is all blanks. No word is empty or holds
/// a blank.
pub proof fn law_words(text: Seq<char>)
    ensures
        words(text).len() == 0 <==> all_blank(text),
        text.len() > 0 && !is_blank(text.last()) ==> words(text).len() > 0,
        forall|i: int|
            0 <= i < words(text).len() ==> (#[trigger] words(text)[i]).len() > 0 && no_blank(
                words(text)[i],
            ),
    decreases text.len(),
{
    if text.len() > 0 {
        let front = text.drop_last();
        law_words(front);
        let c = text.last();
        assert(all_blank(text) ==> all_blank(front)) by {
            if all_blank(text) {
                assert forall|i: int| 0 <= i < front.len() implies is_blank(#[trigger] front[i]) by {
                    assert(front[i] == text[i]);
                }
            }
        }
        if is_blank(c) && all_blank(front) {
            assert forall|i: int| 0 <= i < text.len() implies is_blank(#[trigger] text[i]) by {
                if i < front.len() {
                    assert(front[i] == text[i]);
                }
            }
        }
        if !is_blank(c) {
            assert(!is_blank(text[text.len() - 1]));
        }
    }
}

/// Blanks behind a text do not change its words.
proof fn lemma_words_then_blanks(text: Seq<char>, blanks: Seq<char>)
    requires
        all_blank(blanks),
    ensures
        words(text + blanks) == words(text),
    decreases blanks.len(),
{
    if blanks.len() == 0 {
        assert(text + blanks == text);
    } else {
        let fewer = blanks.drop_last();
        assert(all_blank(fewer)) by {
            assert forall|i: int| 0 <= i < fewer.len() implies is_blank(#[trigger] fewer[i]) by {
                assert(fewer[i] == blanks[i]);
            }
        }
        lemma_words_then_blanks(text, fewer);
        assert((text + blanks).drop_last() == text + fewer);
        assert((text + blanks).last() == blanks[blanks.len() - 1]);
    }
}

/// A word behind a text that ends in a blank, or is empty, is one word more.
proof fn lemma_words_then_word(text: Seq<char>, word: Seq<char>)
    requires
        text.len() == 0 || is_blank(text.last()),
        word.len() > 0,
        no_blank(word),
    ensures
        words(text + word) == words(text).push(word),
    decreases word.len(),
{
    let whole = text + word;
    let c = word[word.len() - 1];
    assert(whole.last() == c);
    let shorter = word.drop_last();
    assert(whole.drop_last() == text + shorter);
    if word.len() == 1 {
        assert(text + shorter == text);
        assert(word == seq![c]);
        if text.len() > 0 {
            assert(whole[whole.len() - 2] == text.last());
        }
    } else {
        assert forall|i: int| 0 <= i < shorter.len() implies !is_blank(#[trigger] shorter[i]) by {
            assert(shorter[i] == word[i]);
        }
        lemma_words_then_word(text, shorter);
        assert(whole[whole.len() - 2] == shorter[shorter.len() - 1]);
        let earlier = words(text).push(shorter);
        assert(earlier.drop_last() == words(text));
        assert(shorter.push(c) == word);
    }
}

/// Two words with blanks around them and between them are those two words, however
/// many blanks there are.
pub proof fn law_two_words(
    before: Seq<char>,
    first: Seq<char>,
    gap: Seq<char>,
    second: Seq<char>,
    after: Seq<char>,
)
    requires
        all_blank(before),
        first.len() > 0,
        no_blank(first),
        all_blank(gap),
        gap.len() > 0,
        second.len() > 0,
        no_blank(second),
        all_blank(after),
    ensures
        words(before + first + gap + second + after) == seq![first, second],
{
    let none = Seq::<char>::empty();
    lemma_words_then_blanks(none, before);
    assert(none + before == before);
    if before.len() > 0 {
        assert(is_blank(before[before.len() - 1]));
    }
    lemma_words_then_word(before, first);
    lemma_words_then_blanks(before + first, gap);
    assert((before + first + gap).last() == gap[gap.len() - 1]);
    lemma_words_then_word(before + first + gap, second);
    lemma_words_then_blanks(before + first + gap + second, after);
    assert(Seq::<Seq<char>>::empty().push(first).push(second) == seq![first, second]);
}

/// Blanks part a text into two, each with its own words.
pub proof fn law_words_of_parts(front: Seq<char>, gap: Seq<char>, back: Seq<char>)
    requires
        gap.len() > 0,
        all_blank(gap),
    ensures
        words(front + gap + back) == words(front) + words(back),
    decreases back.len(),
{
    let whole = front + gap + back;
    if back.len() == 0 {
        assert(whole =~= front + gap);
        lemma_words_then_blanks(front, gap);
        assert(words(front) + words(back) =~= words(front));
    } else {
        let shorter = back.drop_last();
        law_words_of_parts(front, gap, shorter);
        assert(whole.drop_last() =~= front + gap + shorter);
        let c = back.last();
        assert(whole.last() == c);
        let (left, right) = (words(front), words(shorter));
        if back.len() == 1 {
            assert(whole[whole.len() - 2] == gap[gap.len() - 1]);
            assert(right =~= Seq::<Seq<char>>::empty());
        } else {
            assert(whole[whole.len() - 2] == back[back.len() - 2]);
            assert(shorter.last() == back[back.len() - 2]);
        }
        law_words(shorter);
        if !is_blank(c) {
            if back.len() == 1 || is_blank(back[back.len() - 2]) {
                assert((left + right).push(seq![c]) =~= left + right.push(seq![c]));
            } else {
                assert((left + right).last() == right.last());
                let longer = right.last().push(c);
                assert((left + right).drop_last().push(longer) =~= left + right.drop_last().push(
                    longer,
                ));
            }
        }
    }
}

/// A text without blanks is one word.
pub proof fn law_one_word(word: Seq<char>)
    requires
        word.len() > 0,
        no_blank(word),
    ensures
        words(word) == seq![word],
{
    let none = Seq::<char>::empty();
    lemma_words_then_word(none, word);
    assert(none + word =~= word);
    assert(words(none).push(word) =~= seq![word]);
}

/// No character of `text` is a blank.
pub open spec fn no_blank(text: Seq<char>) -> bool {
    forall|i: int| 0 <= i < text.len() ==> !is_blank(#[trigger] text[i])
}

/// The texts' character sequences.
pub open spec fn views(texts: Seq<String>) -> Seq<Seq<char>> {
    texts.map_values(|t: String| t@)
}

/// Splits `text` into its words.
pub fn split_words(text: &str) -> (result: Vec<String>)
    ensures
        views(result@) == words(text@),
        result@.len() == words(text@).len(),
        forall|i: int| 0 <= i < result@.len() ==> (#[trigger] result@[i])@ == words(text@)[i],
{
    let chars = chars_of(text);
    let mut result: Vec<String> = Vec::new();
    let mut word = String::new();
    let mut open = false;
    for i in 0..chars.len()
        invariant
            chars@ == text@,
            open == (i > 0 && !is_blank(chars@[i - 1])),
            !open ==> views(result@) == words(chars@.take(i as int)),
            open ==> views(result@).push(word@) == words(chars@.take(i as int)),
    {
        let c = chars[i];
        let ghost now = chars@.take(i + 1);
        let ghost done = views(result@);
        let ghost held = word@;
        assert(now.drop_last() == chars@.take(i as int));
        if blank(c) {
            if open {
                result.push(word);
                word = String::new();
                open = false;
                assert(views(result@) == done.push(held));
            }
        } else {
            if !open {
                word = String::new();
                open = true;
            }
            word.push(c);
            assert(done.push(held).drop_last() == done);
            assert(Seq::<char>::empty().push(c) == seq![c]);
        }
    }
    assert(chars@.take(chars@.len() as int) == text@);
    if open {
        let ghost done = views(result@);
        let ghost held = word@;
        result.push(word);
        assert(views(result@) == done.push(held));
    }
    assert forall|i: int| 0 <= i < result@.len() implies (#[trigger] result@[i])@ == words(
        text@,
    )[i] by {
        assert(views(result@)[i] == result@[i]@);
    }
    result
}

// ---------------------------------------------------------------------------
// Numbers

/// The character of a decimal digit.
pub open spec fn digit_char(d: nat) -> char {
    (48 + d) as char
}

/// The decimal digits of `n`, without leading zeros.
pub open spec fn digits(n: nat) -> Seq<char>
    decreases n,
{
    if n < 10 {
        seq![digit_char(n)]
    } else {
        digits(n / 10).push(digit_char(n % 10))
    }
}

/// `n` written in decimal, with a minus sign where it is negative.
pub open spec fn decimal(n: int) -> Seq<char> {
    if n < 0 {
        seq!['-'] + digits((-n) as nat)
    } else {
        digits(n as nat)
    }
}

/// Numbers written alike are equal.
pub proof fn lemma_digits_injective(m: nat, n: nat)
    requires
        digits(m) == digits(n),
    ensures
        m == n,
    decreases m,
{
    lemma_digits(m);
    lemma_digits(n);
    assert(digits(m).last() == digits(n).last());
    assert(m % 10 == n % 10);
    if m >= 10 {
        assert(digits(m / 10) == digits(m).drop_last());
        assert(digits(n / 10) == digits(n).drop_last());
        lemma_digits_injective(m / 10, n / 10);
    }
}

/// A number is written in digits, in more than one from ten on.
pub proof fn lemma_digits(n: nat)
    ensures
        digits(n).len() >= 1,
        digits(n).len() == 1 <==> n < 10,
        digits(n).last() == digit_char(n % 10),
        forall|i: int| 0 <= i < digits(n).len() ==> '0' <= #[trigger] digits(n)[i] <= '9',
    decreases n,
{
    if n >= 10 {
        lemma_digits(n / 10);
    }
}

/// Numbers written in decimal alike are equal.
pub proof fn law_decimal_injective(m: int, n: int)
    requires
        decimal(m) == decimal(n),
    ensures
        m == n,
{
    let (a, b) = (if m < 0 { -m } else { m }, if n < 0 { -n } else { n });
    lemma_digits(a as nat);
    lemma_digits(b as nat);
    assert(m < 0 <==> decimal(m)[0] == '-');
    assert(n < 0 <==> decimal(n)[0] == '-');
    if m < 0 {
        assert(decimal(m).skip(1) == digits(a as nat));
        assert(decimal(n).skip(1) == digits(b as nat));
    }
    lemma_digits_injective(a as nat, b as nat);
}

/// A digit stands for a number below ten, from ten on the last digit stands behind the
/// others, and a minus sign stands before a negative number.
pub proof fn law_decimal(n: int)
    ensures
        0 <= n < 10 ==> decimal(n) == seq!["0123456789"@[n]],
        n >= 10 ==> decimal(n) == decimal(n / 10) + decimal(n % 10),
        n < 0 ==> decimal(n) == "-"@ + decimal(-n),
{
    reveal_strlit("0123456789");
    reveal_strlit("-");
    if n >= 10 {
        assert(decimal(n / 10) + decimal(n % 10) =~= digits((n / 10) as nat).push(
            digit_char((n % 10) as nat),
        ));
    } else if n < 0 {
        assert("-"@ =~= seq!['-']);
    }
}

fn append_digits(text: &mut String, n: u64)
    ensures
        final(text)@ == old(text)@ + digits(n as nat),
    decreases n,
{
    if n >= 10 {
        append_digits(text, n / 10);
    }
    let d = (n % 10) as u8;
    text.push((48u8 + d) as char);
}

/// Writes a count in decimal.
pub fn write_count(n: u64) -> (text: String)
    ensures
        text@ == decimal(n as int),
{
    let mut text = String::new();
    append_digits(&mut text, n);
    assert(text@ == digits(n as nat));
    text
}

/// Writes `n` in decimal.
pub fn write_decimal(n: i32) -> (text: String)
    ensures
        text@ == decimal(n as int),
{
    let mut text = String::new();
    if n < 0 {
        text.push('-');
        append_digits(&mut text, (0 - (n as i64)) as u64);
        assert(text@ == seq!['-'] + digits((-n) as nat));
    } else {
        append_digits(&mut text, n as u64);
        assert(text@ == digits(n as nat));
    }
    text
}

} // verus!
