//! Percent-encoding of the text that stands in a URL.
use vstd::prelude::*;
use vstd::utf8::*;

verus! {

/// What `urlencoding::decode` returns where the decoded bytes are not UTF-8.
#[verifier::external_type_specification]
#[verifier::external_body]
pub struct ExFromUtf8Error(std::string::FromUtf8Error);

/// The bytes that stand for themselves: letters, digits, `-`, `_`, `.` and `~`.
pub open spec fn is_unreserved(b: u8) -> bool {
    ||| 0x30 <= b <= 0x39
    ||| 0x41 <= b <= 0x5a
    ||| 0x61 <= b <= 0x7a
    ||| b == 0x2d
    ||| b == 0x5f
    ||| b == 0x2e
    ||| b == 0x7e
}

/// The upper-case hexadecimal digit of value `d`.
pub open spec fn upper_hex(d: u8) -> char {
    if d < 10 {
        (0x30 + d) as char
    } else {
        (0x41 + d - 10) as char
    }
}

/// A byte in a URL: itself, or a percent sign and two hexadecimal digits.
pub open spec fn percent_byte(b: u8) -> Seq<char> {
    if is_unreserved(b) {
        seq![b as char]
    } else {
        seq!['%', upper_hex(b / 16), upper_hex(b % 16)]
    }
}

/// The bytes, one after the other, as they stand in a URL.
pub open spec fn percent_encoded(bytes: Seq<u8>) -> Seq<char>
    decreases bytes.len(),
{
    if bytes.len() == 0 {
        Seq::empty()
    } else {
        percent_byte(bytes[0]) + percent_encoded(bytes.skip(1))
    }
}

/// The value of a hexadecimal digit of either case.
pub open spec fn hex_value(b: u8) -> Option<int> {
    if 0x30 <= b <= 0x39 {
        Some(b - 0x30)
    } else if 0x41 <= b <= 0x46 {
        Some(b - 0x41 + 10)
    } else if 0x61 <= b <= 0x66 {
        Some(b - 0x61 + 10)
    } else {
        None
    }
}

/// The bytes with each percent sign and the two hexadecimal digits behind it
/// exchanged for the byte they stand for. A percent sign without two such digits
/// stands for itself.
pub open spec fn percent_decoded(bytes: Seq<u8>) -> Seq<u8>
    decreases bytes.len(),
{
    if bytes.len() == 0 {
        Seq::empty()
    } else if bytes[0] == 0x25 && bytes.len() >= 3 && hex_value(bytes[1]) is Some && hex_value(
        bytes[2],
    ) is Some {
        seq![(hex_value(bytes[1])->0 * 16 + hex_value(bytes[2])->0) as u8] + percent_decoded(
            bytes.skip(3),
        )
    } else {
        seq![bytes[0]] + percent_decoded(bytes.skip(1))
    }
}

/// The bytes that a percent-encoded text stands for.
pub open spec fn bytes_meant(text: Seq<char>) -> Seq<u8> {
    percent_decoded(encode_utf8(text))
}

/// `urlencoding::encode`: every byte of the text's UTF-8 form stands for itself
/// if it is a letter, a digit or one of `-`, `_`, `.`, `~`, and is written as a
/// percent sign and two upper-case hexadecimal digits otherwise.
#[verifier::external_body]
pub(crate) fn encode(text: &str) -> (encoded: String)
    ensures
        encoded@ == percent_encoded(encode_utf8(text@)),
{
    urlencoding::encode(text).into_owned()
}

/// `urlencoding::decode`: the text whose UTF-8 form is made of the bytes that
/// the given text stands for, or an error where those bytes are not UTF-8.
#[verifier::external_body]
pub(crate) fn decode(text: &str) -> (decoded: Result<String, std::string::FromUtf8Error>)
    ensures
        match decoded {
            Ok(plain) => valid_utf8(bytes_meant(text@)) && plain@ == decode_utf8(bytes_meant(text@)),
            Err(_) => !valid_utf8(bytes_meant(text@)),
        },
{
    urlencoding::decode(text).map(|plain| plain.into_owned())
}

/// What is encoded is ASCII, and holds none of the characters that part a URL.
pub proof fn lemma_encoded_chars(bytes: Seq<u8>)
    ensures
        is_ascii_chars(percent_encoded(bytes)),
        forall|i: int|
            0 <= i < percent_encoded(bytes).len() ==> {
                let c = #[trigger] percent_encoded(bytes)[i];
                c != '&' && c != '?' && c != '=' && c != '/' && c != '#'
            },
    decreases bytes.len(),
{
    if bytes.len() > 0 {
        lemma_encoded_chars(bytes.skip(1));
        let b = bytes[0];
        let head = percent_byte(b);
        assert forall|i: int| 0 <= i < head.len() implies {
            let c = #[trigger] head[i];
            0 <= (c as int) < 128 && c != '&' && c != '?' && c != '=' && c != '/' && c != '#'
        } by {
            assert(b / 16 < 16 && b % 16 < 16);
        }
        assert forall|i: int| 0 <= i < percent_encoded(bytes).len() implies {
            let c = #[trigger] percent_encoded(bytes)[i];
            0 <= (c as int) < 128 && c != '&' && c != '?' && c != '=' && c != '/' && c != '#'
        } by {
            if i < head.len() {
                assert(percent_encoded(bytes)[i] == head[i]);
            } else {
                assert(percent_encoded(bytes)[i] == percent_encoded(bytes.skip(1))[i
                    - head.len()]);
            }
        }
    }
}

/// Bytes are encoded one by one: a letter, a digit, `-`, `_`, `.` or `~` as itself, and
/// every other byte as a percent sign and its two hexadecimal digits.
pub proof fn law_encoded(front: Seq<u8>, b: u8, rest: Seq<u8>)
    ensures
        percent_encoded(front + rest) == percent_encoded(front) + percent_encoded(rest),
        percent_encoded(seq![b]) == if ('0' as u8) <= b <= ('9' as u8) || ('A' as u8) <= b <= (
        'Z' as u8) || ('a' as u8) <= b <= ('z' as u8) || "-_.~"@.contains(b as char) {
            seq![b as char]
        } else {
            seq!['%', "0123456789ABCDEF"@[b as int / 16], "0123456789ABCDEF"@[b as int % 16]]
        },
    decreases front.len(),
{
    reveal_strlit("0123456789ABCDEF");
    reveal_strlit("-_.~");
    if front.len() == 0 {
        assert(front + rest =~= rest);
        assert(percent_encoded(front) + percent_encoded(rest) =~= percent_encoded(rest));
    } else {
        law_encoded(front.skip(1), b, rest);
        assert((front + rest).skip(1) =~= front.skip(1) + rest);
        assert(percent_encoded(front + rest) =~= percent_encoded(front) + percent_encoded(rest));
    }
    let signs = "-_.~"@;
    assert(signs[0] == '-' && signs[1] == '_' && signs[2] == '.' && signs[3] == '~');
    assert(signs.contains(b as char) <==> b == 0x2d || b == 0x5f || b == 0x2e || b == 0x7e);
    assert(seq![b].skip(1) =~= Seq::<u8>::empty());
    assert(percent_encoded(Seq::<u8>::empty()) == Seq::<char>::empty());
    assert(percent_encoded(seq![b]) =~= percent_byte(b));
    assert(b / 16 < 16 && b % 16 < 16);
}

/// Decoding leaves what holds no percent sign as it is. A percent sign and two
/// hexadecimal digits of either case are exchanged for a byte; one that is followed by
/// anything else stays.
pub proof fn law_decoded(plain: Seq<u8>, high: u8, low: u8, rest: Seq<u8>)
    ensures
        !plain.contains(0x25) ==> percent_decoded(plain + rest) == plain + percent_decoded(rest),
        hex_value(high) is Some && hex_value(low) is Some ==> percent_decoded(
            seq![0x25, high, low] + rest,
        ) == seq![(16 * hex_value(high)->0 + hex_value(low)->0) as u8] + percent_decoded(rest),
        rest.len() < 2 || hex_value(rest[0]) is None || hex_value(rest[1]) is None
            ==> percent_decoded(seq![0x25u8] + rest) == seq![0x25u8] + percent_decoded(rest),
    decreases plain.len(),
{
    if !plain.contains(0x25) {
        if plain.len() == 0 {
            assert(plain + rest =~= rest);
            assert(plain + percent_decoded(rest) =~= percent_decoded(rest));
        } else {
            let shorter = plain.skip(1);
            assert(plain[0] != 0x25);
            assert(!shorter.contains(0x25)) by {
                if shorter.contains(0x25) {
                    let i = choose|i: int| 0 <= i < shorter.len() && shorter[i] == 0x25;
                    assert(plain[i + 1] == 0x25);
                }
            }
            law_decoded(shorter, high, low, rest);
            assert((plain + rest).skip(1) =~= shorter + rest);
            assert(seq![plain[0]] + (shorter + percent_decoded(rest)) =~= plain + percent_decoded(
                rest,
            ));
        }
    }
    assert((seq![0x25, high, low] + rest).skip(3) =~= rest);
    assert((seq![0x25u8] + rest).skip(1) =~= rest);
}

/// The hexadecimal digits of both cases, in the order of their values.
pub proof fn law_hex_value(b: u8, d: int)
    ensures
        hex_value(b) == Some(d) <==> 0 <= d < 16 && (b as char == "0123456789ABCDEF"@[d] || b as char
            == "0123456789abcdef"@[d]),
{
    reveal_strlit("0123456789ABCDEF");
    reveal_strlit("0123456789abcdef");
}

/// Decoding gives back every sequence of bytes that was encoded.
pub proof fn law_decode_encode_bytes(bytes: Seq<u8>)
    ensures
        bytes_meant(percent_encoded(bytes)) == bytes,
    decreases bytes.len(),
{
    lemma_encoded_chars(bytes);
    is_ascii_chars_encode_utf8(percent_encoded(bytes));
    let wire = encode_utf8(percent_encoded(bytes));
    if bytes.len() > 0 {
        let rest = bytes.skip(1);
        law_decode_encode_bytes(rest);
        lemma_encoded_chars(rest);
        is_ascii_chars_encode_utf8(percent_encoded(rest));
        let b = bytes[0];
        let n = percent_byte(b).len() as int;
        assert(percent_encoded(bytes).skip(n) == percent_encoded(rest));
        assert(wire.skip(n) == encode_utf8(percent_encoded(rest)));
        if is_unreserved(b) {
            assert(wire[0] == b);
        } else {
            assert(percent_encoded(bytes)[0] == '%');
            assert(percent_encoded(bytes)[1] == upper_hex(b / 16));
            assert(percent_encoded(bytes)[2] == upper_hex(b % 16));
            assert(wire[0] == 0x25u8);
            assert(hex_value(wire[1]) == Some((b / 16) as int));
            assert(hex_value(wire[2]) == Some((b % 16) as int));
        }
        assert(seq![b] + rest == bytes);
    } else {
        assert(wire.len() == 0);
        assert(bytes == Seq::<u8>::empty());
    }
}

/// Decoding gives back every text that was encoded.
pub proof fn law_decode_encode(text: Seq<char>)
    ensures
        valid_utf8(bytes_meant(percent_encoded(encode_utf8(text)))),
        decode_utf8(bytes_meant(percent_encoded(encode_utf8(text)))) == text,
{
    law_decode_encode_bytes(encode_utf8(text));
    encode_utf8_valid_utf8(text);
    encode_utf8_decode_utf8(text);
}

} // verus!
