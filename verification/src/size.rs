//! Sizes as they are written for people to read.
use vstd::arithmetic::power::*;
use vstd::prelude::*;
use vstd::string::*;
use vstd::utf8::*;

use crate::text;

verus! {

/// A size that is written in an unknown way.
pub enum SizeError {
    /// There are not two words.
    InvalidFormat,
    /// The second word, in upper case, is no unit.
    UnknownUnit(String),
}

/// What is told of a size that cannot be read.
pub open spec fn size_error_text(error: SizeError) -> Seq<char> {
    match error {
        SizeError::InvalidFormat => "Invalid size format"@,
        SizeError::UnknownUnit(unit) => "Unknown unit: "@ + unit@,
    }
}

/// What is told of a size with an unknown unit ends in the unit, all of it.
pub proof fn law_size_error_text(unit: String)
    ensures
        size_error_text(SizeError::InvalidFormat) == "Invalid size format"@,
        size_error_text(SizeError::UnknownUnit(unit)) == "Unknown unit: "@ + unit@,
{
}

impl SizeError {
    /// What is told of the size.
    pub fn message(&self) -> (message: String)
        ensures
            message@ == size_error_text(*self),
    {
        match self {
            SizeError::InvalidFormat => "Invalid size format".to_owned(),
            SizeError::UnknownUnit(unit) => "Unknown unit: ".to_owned().concat(unit.as_str()),
        }
    }
}

/// The two words of a size.
pub struct SizeFields {
    pub number: String,
    pub unit: String,
}

/// Parts a size into its number and its unit. A text of blanks stands for no size.
pub fn split_size(size: &str) -> (fields: Result<Option<SizeFields>, SizeError>)
    ensures
        match fields {
            Ok(None) => text::words(size@).len() == 0,
            Ok(Some(fields)) => text::words(size@) == seq![fields.number@, fields.unit@],
            Err(error) => error is InvalidFormat && text::words(size@).len() != 0 && text::words(
                size@,
            ).len() != 2,
        },
        fields matches Ok(None) <==> text::trimmed(size@).len() == 0,
{
    let mut words = text::split_words(size);
    proof {
        text::law_trimmed(size@);
        text::law_words(size@);
        assert(words@.len() == text::words(size@).len());
    }
    if words.len() == 0 {
        return Ok(None);
    }
    if words.len() != 2 {
        return Err(SizeError::InvalidFormat);
    }
    let ghost all = text::words(size@);
    assert(text::views(words@)[0] == all[0] && text::views(words@)[1] == all[1]);
    let unit = words.remove(1);
    let number = words.remove(0);
    assert(all == seq![number@, unit@]);
    Ok(Some(SizeFields { number, unit }))
}

/// The upper case of a text, as Unicode has it.
pub uninterp spec fn uppercase(s: Seq<char>) -> Seq<char>;

/// The upper case of an ASCII character.
pub open spec fn ascii_upper(c: char) -> char {
    if 'a' <= c <= 'z' {
        (c as u32 - 32) as char
    } else {
        c
    }
}

/// A text with its ASCII letters in upper case.
pub open spec fn ascii_uppercase(s: Seq<char>) -> Seq<char> {
    s.map_values(|c: char| ascii_upper(c))
}

/// `str::to_uppercase` gives the upper case of the text. In ASCII, the letters
/// from `a` to `z` become those from `A` to `Z`, and the other characters stay; in any
/// text it makes no difference which of its ASCII letters are in upper case already.
pub assume_specification[ str::to_uppercase ](s: &str) -> (upper: String)
    ensures
        upper@ == uppercase(s@),
        is_ascii_chars(s@) ==> upper@ == ascii_uppercase(s@),
        upper@ == uppercase(ascii_uppercase(s@)),
;

/// The lower-case letters of ASCII have the upper-case ones in their order, and every
/// other character stays.
pub proof fn law_ascii_upper(c: char, i: int)
    ensures
        0 <= i < 26 && c == "abcdefghijklmnopqrstuvwxyz"@[i] ==> ascii_upper(c)
            == "ABCDEFGHIJKLMNOPQRSTUVWXYZ"@[i],
        !('a' <= c <= 'z') ==> ascii_upper(c) == c,
{
    reveal_strlit("abcdefghijklmnopqrstuvwxyz");
    reveal_strlit("ABCDEFGHIJKLMNOPQRSTUVWXYZ");
}

/// How many bytes the unit written in upper case stands for.
pub open spec fn multiplier_of(unit: Seq<char>) -> Option<u64> {
    if unit == "B"@ {
        Some(1)
    } else if unit == "KB"@ || unit == "KIB"@ {
        Some(0x400)
    } else if unit == "MB"@ || unit == "MIB"@ {
        Some(0x10_0000)
    } else if unit == "GB"@ || unit == "GIB"@ {
        Some(0x4000_0000)
    } else if unit == "TB"@ || unit == "TIB"@ {
        Some(0x100_0000_0000)
    } else {
        None
    }
}

/// How many bytes the unit written in upper case stands for.
pub fn upper_unit_multiplier(unit: &str) -> (multiplier: Option<u64>)
    ensures
        multiplier == multiplier_of(unit@),
{
    if text::same_text(unit, "B") {
        Some(1)
    } else if text::same_text(unit, "KB") || text::same_text(unit, "KIB") {
        Some(0x400)
    } else if text::same_text(unit, "MB") || text::same_text(unit, "MIB") {
        Some(0x10_0000)
    } else if text::same_text(unit, "GB") || text::same_text(unit, "GIB") {
        Some(0x4000_0000)
    } else if text::same_text(unit, "TB") || text::same_text(unit, "TIB") {
        Some(0x100_0000_0000)
    } else {
        None
    }
}

/// How many bytes a unit stands for, in whatever case it is written.
pub open spec fn unit_meaning(unit: Seq<char>) -> Option<u64> {
    if is_ascii_chars(unit) {
        multiplier_of(ascii_uppercase(unit))
    } else {
        multiplier_of(uppercase(ascii_uppercase(unit)))
    }
}

/// How many bytes the unit stands for, in whatever case it is written.
pub fn unit_multiplier(unit: &str) -> (multiplier: Result<u64, SizeError>)
    ensures
        match multiplier {
            Ok(multiplier) => unit_meaning(unit@) == Some(multiplier),
            Err(SizeError::UnknownUnit(upper)) => unit_meaning(unit@) is None && upper@
                == uppercase(unit@),
            Err(SizeError::InvalidFormat) => false,
        },
        unit_meaning(unit@) == multiplier_of(uppercase(unit@)),
{
    let upper = unit.to_uppercase();
    match upper_unit_multiplier(upper.as_str()) {
        Some(multiplier) => Ok(multiplier),
        None => Err(SizeError::UnknownUnit(upper)),
    }
}

/// The units that sizes are told in, from the smallest one on.
pub open spec fn unit_name(index: int) -> Seq<char> {
    if index == 0 {
        "B"@
    } else if index == 1 {
        "KiB"@
    } else if index == 2 {
        "MiB"@
    } else if index == 3 {
        "GiB"@
    } else {
        "TiB"@
    }
}

/// The number of bytes in the unit with the given index.
pub open spec fn unit_bytes(index: int) -> int
    decreases index,
{
    if index <= 0 {
        1
    } else {
        1024 * unit_bytes(index - 1)
    }
}

/// The largest index of a unit.
pub const LAST_UNIT: u64 = 4;

/// The index of the unit that a size is told in: the largest unit that is not
/// larger than the size, or the smallest one.
pub open spec fn unit_index(bytes: u64) -> int {
    if bytes < unit_bytes(1) {
        0
    } else if bytes < unit_bytes(2) {
        1
    } else if bytes < unit_bytes(3) {
        2
    } else if bytes < unit_bytes(4) {
        3
    } else {
        4
    }
}

/// A unit that a size is told in.
pub struct DisplayUnit {
    pub name: &'static str,
    pub bytes: u64,
}

/// The unit that a size of `bytes` bytes is told in.
pub fn display_unit(bytes: u64) -> (unit: DisplayUnit)
    ensures
        unit.name@ == unit_name(unit_index(bytes)),
        unit.bytes == unit_bytes(unit_index(bytes)),
{
    let mut index: u64 = 0;
    let mut size: u64 = 1;
    proof {
        reveal_with_fuel(unit_bytes, 6);
    }
    while index < LAST_UNIT && bytes >= size * 1024
        invariant
            index <= LAST_UNIT,
            size == unit_bytes(index as int),
            index == 0 ==> size == 1,
            index == 1 ==> size == 0x400,
            index == 2 ==> size == 0x10_0000,
            index == 3 ==> size == 0x4000_0000,
            index == 4 ==> size == 0x100_0000_0000,
            index > 0 ==> bytes >= size,
        decreases LAST_UNIT - index,
    {
        size = size * 1024;
        index = index + 1;
    }
    assert(index == unit_index(bytes));
    let name = if index == 0 {
        "B"
    } else if index == 1 {
        "KiB"
    } else if index == 2 {
        "MiB"
    } else if index == 3 {
        "GiB"
    } else {
        "TiB"
    };
    DisplayUnit { name, bytes: size }
}

/// A size is told as a number below 1024 in every unit but the largest one, and as
/// one of at least 1 in every unit but the smallest one.
pub proof fn law_unit_fits(bytes: u64)
    ensures
        0 <= unit_index(bytes) <= LAST_UNIT,
        unit_index(bytes) < LAST_UNIT ==> bytes < 1024 * unit_bytes(unit_index(bytes)),
        unit_index(bytes) > 0 ==> bytes >= unit_bytes(unit_index(bytes)),
{
    reveal_with_fuel(unit_bytes, 6);
}

/// A unit has 1024 times the bytes of the one before, and a size is told in a unit or in
/// a larger one if and only if it has at least as many bytes as the unit.
pub proof fn law_units_are_powers(bytes: u64, k: int)
    requires
        0 <= k <= 4,
    ensures
        unit_bytes(k) == pow(1024, k as nat),
        0 <= unit_index(bytes) <= 4,
        k > 0 ==> (unit_index(bytes) >= k <==> bytes >= pow(1024, k as nat)),
{
    reveal_with_fuel(unit_bytes, 6);
    reveal_with_fuel(pow, 6);
}

/// A unit that sizes are told in is a letter, `i` and `B`, or `B` alone, and is read as
/// what it stands for.
pub proof fn law_told_unit_is_read(k: int)
    requires
        0 <= k <= 4,
    ensures
        unit_meaning(unit_name(k)) is Some,
        unit_meaning(unit_name(k))->0 == unit_bytes(k),
        unit_name(k) == if k == 0 {
            seq!['B']
        } else {
            seq!["KMGT"@[k - 1], 'i', 'B']
        },
{
    reveal_strlit("KMGT");
    reveal_with_fuel(unit_bytes, 6);
    reveal_strlit("B");
    reveal_strlit("KiB");
    reveal_strlit("MiB");
    reveal_strlit("GiB");
    reveal_strlit("TiB");
    reveal_strlit("KIB");
    reveal_strlit("MIB");
    reveal_strlit("GIB");
    reveal_strlit("TIB");
    let upper = ascii_uppercase(unit_name(k));
    assert(k == 0 ==> upper =~= "B"@);
    assert(k == 1 ==> upper =~= "KIB"@);
    assert(k == 2 ==> upper =~= "MIB"@);
    assert(k == 3 ==> upper =~= "GIB"@);
    assert(k == 4 ==> upper =~= "TIB"@);
    lemma_units_differ();
}

/// The units in upper case: a byte, and a letter for each power of 1024, with or without
/// an `I` behind it. Nothing else is a unit.
pub proof fn law_units(unit: Seq<char>)
    ensures
        multiplier_of(seq!['B']) == Some(1u64),
        forall|k: int|
            1 <= k <= 4 ==> {
                let letter = #[trigger] "KMGT"@[k - 1];
                &&& multiplier_of(seq![letter, 'B']) is Some
                &&& multiplier_of(seq![letter, 'B'])->0 == pow(1024, k as nat)
                &&& multiplier_of(seq![letter, 'I', 'B']) == multiplier_of(seq![letter, 'B'])
            },
        multiplier_of(unit) is Some ==> unit == seq!['B'] || unit.len() > 0 && "KMGT"@.contains(
            unit[0],
        ) && (unit == seq![unit[0], 'B'] || unit == seq![unit[0], 'I', 'B']),
{
    reveal_with_fuel(pow, 6);
    reveal_strlit("KMGT");
    lemma_units_differ();
    let letters = "KMGT"@;
    assert(letters[0] == 'K' && letters[1] == 'M' && letters[2] == 'G' && letters[3] == 'T');
}

/// The units are what they are written as, and no two are written alike.
proof fn lemma_units_differ()
    ensures
        "B"@ == seq!['B'],
        "KB"@ == seq!['K', 'B'],
        "MB"@ == seq!['M', 'B'],
        "GB"@ == seq!['G', 'B'],
        "TB"@ == seq!['T', 'B'],
        "KIB"@ == seq!['K', 'I', 'B'],
        "MIB"@ == seq!['M', 'I', 'B'],
        "GIB"@ == seq!['G', 'I', 'B'],
        "TIB"@ == seq!['T', 'I', 'B'],
        "B"@.len() == 1,
        "KB"@.len() == 2 && "KB"@[0] == 'K',
        "MB"@.len() == 2 && "MB"@[0] == 'M',
        "GB"@.len() == 2 && "GB"@[0] == 'G',
        "TB"@.len() == 2 && "TB"@[0] == 'T',
        "KIB"@.len() == 3 && "KIB"@[0] == 'K',
        "MIB"@.len() == 3 && "MIB"@[0] == 'M',
        "GIB"@.len() == 3 && "GIB"@[0] == 'G',
        "TIB"@.len() == 3 && "TIB"@[0] == 'T',
{
    reveal_strlit("B");
    reveal_strlit("KB");
    reveal_strlit("KIB");
    reveal_strlit("MB");
    reveal_strlit("MIB");
    reveal_strlit("GB");
    reveal_strlit("GIB");
    reveal_strlit("TB");
    reveal_strlit("TIB");
}

/// A unit in upper case without the `I` that may stand in its middle.
pub open spec fn plain_unit(unit: Seq<char>) -> Seq<char> {
    let upper = ascii_uppercase(unit);
    if upper.len() == 3 && upper[1] == 'I' {
        seq![upper[0], upper[2]]
    } else {
        upper
    }
}

/// Units that agree up to their ASCII case or, in ASCII, up to an `i` in the middle too.
pub open spec fn same_unit(unit: Seq<char>, other: Seq<char>) -> bool {
    ||| ascii_uppercase(unit) == ascii_uppercase(other)
    ||| is_ascii_chars(unit) && is_ascii_chars(other) && plain_unit(unit) == plain_unit(other)
}

/// Units that agree stand for the same number of bytes, or for none.
pub proof fn law_units_agree(unit: Seq<char>, other: Seq<char>)
    requires
        same_unit(unit, other),
    ensures
        unit_meaning(unit) == unit_meaning(other),
{
    lemma_ascii_uppercase(unit);
    lemma_ascii_uppercase(other);
    lemma_plain_unit(unit);
    lemma_plain_unit(other);
}

/// A text is ASCII if and only if it is with its ASCII letters in upper case.
proof fn lemma_ascii_uppercase(s: Seq<char>)
    ensures
        is_ascii_chars(s) == is_ascii_chars(ascii_uppercase(s)),
{
    let upper = ascii_uppercase(s);
    assert forall|i: int| 0 <= i < s.len() implies (#[trigger] s[i] <= '\u{7f}' <==> upper[i]
        <= '\u{7f}') by {}
}

/// Two sizes that are made of the same number and of units that agree, each with
/// whatever blanks around and between, are parted into that number and those units, and
/// the units stand for the same number of bytes, or for none.
pub proof fn law_sizes_agree(
    number: Seq<char>,
    unit: Seq<char>,
    other: Seq<char>,
    blanks: (Seq<char>, Seq<char>, Seq<char>),
    other_blanks: (Seq<char>, Seq<char>, Seq<char>),
)
    requires
        number.len() > 0 && text::no_blank(number),
        unit.len() > 0 && text::no_blank(unit),
        other.len() > 0 && text::no_blank(other),
        same_unit(unit, other),
        text::all_blank(blanks.0) && text::all_blank(blanks.1) && text::all_blank(blanks.2),
        text::all_blank(other_blanks.0) && text::all_blank(other_blanks.1) && text::all_blank(
            other_blanks.2,
        ),
        blanks.1.len() > 0 && other_blanks.1.len() > 0,
    ensures
        text::words(blanks.0 + number + blanks.1 + unit + blanks.2) == seq![number, unit],
        text::words(other_blanks.0 + number + other_blanks.1 + other + other_blanks.2) == seq![
            number,
            other,
        ],
        unit_meaning(unit) == unit_meaning(other),
{
    text::law_two_words(blanks.0, number, blanks.1, unit, blanks.2);
    text::law_two_words(other_blanks.0, number, other_blanks.1, other, other_blanks.2);
    law_units_agree(unit, other);
}

/// The `i` in the middle of a unit does not count.
proof fn lemma_plain_unit(unit: Seq<char>)
    ensures
        multiplier_of(ascii_uppercase(unit)) == multiplier_of(plain_unit(unit)),
{
    reveal_strlit("B");
    reveal_strlit("KB");
    reveal_strlit("KIB");
    reveal_strlit("MB");
    reveal_strlit("MIB");
    reveal_strlit("GB");
    reveal_strlit("GIB");
    reveal_strlit("TB");
    reveal_strlit("TIB");
    assert("KIB"@ =~= seq!['K', 'I', 'B'] && "KB"@ =~= seq!['K', 'B']);
    assert("MIB"@ =~= seq!['M', 'I', 'B'] && "MB"@ =~= seq!['M', 'B']);
    assert("GIB"@ =~= seq!['G', 'I', 'B'] && "GB"@ =~= seq!['G', 'B']);
    assert("TIB"@ =~= seq!['T', 'I', 'B'] && "TB"@ =~= seq!['T', 'B']);
    assert("B"@.len() == 1);
    let upper = ascii_uppercase(unit);
    if upper.len() == 3 && upper[1] == 'I' {
        let plain = plain_unit(unit);
        let (x, y) = (upper[0], upper[2]);
        assert(upper =~= seq![x, 'I', y]);
        assert(plain.len() == 2 && plain[0] == x && plain[1] == y);
        assert(forall|a: char| upper == seq![a, 'I', 'B'] <==> plain == seq![a, 'B']) by {
            assert forall|a: char| upper == seq![a, 'I', 'B'] <==> plain == seq![a, 'B'] by {
                if x == a && y == 'B' {
                    assert(upper =~= seq![a, 'I', 'B']);
                    assert(plain =~= seq![a, 'B']);
                } else {
                    assert(seq![a, 'I', 'B'][0] == a && seq![a, 'I', 'B'][2] == 'B');
                    assert(seq![a, 'B'][0] == a && seq![a, 'B'][1] == 'B');
                }
            }
        }
        assert(upper == "KIB"@ <==> plain == "KB"@);
        assert(upper == "MIB"@ <==> plain == "MB"@);
        assert(upper == "GIB"@ <==> plain == "GB"@);
        assert(upper == "TIB"@ <==> plain == "TB"@);
    }
}

} // verus!
