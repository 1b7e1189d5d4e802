use meow::content::{content_hash, must_write, settle, to_hex, Existing};
use meow::pacing::{rate_limit, refused_message, Reply, Retries, Step};
use meow::size::{display_unit, split_size, unit_multiplier, upper_unit_multiplier, SizeError};

#[test]
fn hashes_are_those_of_sha256() {
    assert_eq!(
        content_hash(b""),
        "e3b0c44298fc1c149afbf4c8996fb92427ae41e4649b934ca495991b7852b855"
    );
    assert_eq!(
        content_hash(b"abc"),
        "ba7816bf8f01cfea414140de5dae2223b00361a396177a9cb410ff61f20015ad"
    );
}

#[test]
fn bytes_are_told_in_hexadecimal() {
    assert_eq!(to_hex(&[]), "");
    assert_eq!(to_hex(&[0x00, 0x0f, 0xa9, 0xff]), "000fa9ff");
    assert_ne!(to_hex(&[0x01]), to_hex(&[0x10]));
}

#[test]
fn a_content_is_written_unless_it_stands_there() {
    let new = settle(b"abc", &Existing::Missing);
    assert!(new.write);
    assert_eq!(new.content_hash, content_hash(b"abc"));
    assert!(settle(b"abc", &Existing::Unreadable).write);
    assert!(settle(b"abc", &Existing::Content(b"abd".to_vec())).write);
    let same = settle(b"abc", &Existing::Content(b"abc".to_vec()));
    assert!(!same.write);
    assert_eq!(same.content_hash, content_hash(b"abc"));
    assert!(must_write("a", None));
    assert!(must_write("a", Some("b")));
    assert!(!must_write("a", Some("a")));
}

#[test]
fn sizes_are_parted_into_number_and_unit() {
    let fields = split_size(" 1.4  GiB\n").ok().unwrap().unwrap();
    assert_eq!(fields.number, "1.4");
    assert_eq!(fields.unit, "GiB");
    assert!(matches!(split_size(""), Ok(None)));
    assert!(matches!(split_size(" \t "), Ok(None)));
    assert!(matches!(split_size("12"), Err(SizeError::InvalidFormat)));
    assert!(matches!(split_size("1 2 3"), Err(SizeError::InvalidFormat)));
    assert_eq!(SizeError::InvalidFormat.message(), "Invalid size format");
}

#[test]
fn units_stand_for_bytes() {
    for (unit, bytes) in [
        ("B", 1u64),
        ("kb", 1024),
        ("KiB", 1024),
        ("MB", 1048576),
        ("mib", 1048576),
        ("Gb", 1073741824),
        ("GiB", 1073741824),
        ("TB", 1099511627776),
        ("tIb", 1099511627776),
        ("k\u{131}b", 1024),
    ] {
        assert_eq!(unit_multiplier(unit).ok(), Some(bytes));
    }
    assert_eq!(upper_unit_multiplier("KIB"), Some(1024));
    assert_eq!(upper_unit_multiplier("KiB"), None);
    assert_eq!(upper_unit_multiplier(""), None);
}

#[test]
fn unknown_units_are_told_in_upper_case() {
    let error = unit_multiplier("piß").err().unwrap();
    assert!(matches!(&error, SizeError::UnknownUnit(unit) if unit == "PISS"));
    assert_eq!(error.message(), "Unknown unit: PISS");
}

#[test]
fn sizes_are_told_in_the_largest_unit_that_fits() {
    for (bytes, name, size) in [
        (0u64, "B", 1u64),
        (1023, "B", 1),
        (1024, "KiB", 1024),
        (1048575, "KiB", 1024),
        (1048576, "MiB", 1048576),
        (1073741824, "GiB", 1073741824),
        (1099511627775, "GiB", 1073741824),
        (1099511627776, "TiB", 1099511627776),
        (u64::MAX, "TiB", 1099511627776),
    ] {
        let unit = display_unit(bytes);
        assert_eq!(unit.name, name);
        assert_eq!(unit.bytes, size);
    }
}

#[test]
fn the_unit_is_found_as_with_floats() {
    for shift in 0..64 {
        for bytes in [1u64 << shift, (1u64 << shift) - 1, (1u64 << shift) | 1] {
            let mut size = bytes as f64;
            let mut index = 0;
            while size >= 1024.0 && index < 4 {
                size /= 1024.0;
                index += 1;
            }
            let unit = display_unit(bytes);
            assert_eq!(unit.name, ["B", "KiB", "MiB", "GiB", "TiB"][index]);
            assert_eq!(bytes as f64 / unit.bytes as f64, size);
        }
    }
}

#[test]
fn requests_are_half_a_second_apart() {
    assert_eq!(rate_limit(0), 500_000_000);
    assert_eq!(rate_limit(499_999_999), 1);
    assert_eq!(rate_limit(500_000_000), 0);
    assert_eq!(rate_limit(u128::MAX), 0);
}

#[test]
fn answers_are_taken() {
    for status in [200, 404, 428, 430, 500] {
        assert_eq!(Retries::new().step(Reply::Answered(status)), Step::Accept);
    }
}

#[test]
fn refusals_are_tried_again_ever_later() {
    let mut retries = Retries::new();
    assert_eq!(retries.step(Reply::Answered(429)), Step::RetryAfter(2000));
    assert_eq!(retries.step(Reply::Answered(429)), Step::RetryAfter(4000));
    assert_eq!(retries.step(Reply::Answered(429)), Step::GiveUpRefused);
}

#[test]
fn failures_are_tried_again_three_times() {
    let mut retries = Retries::new();
    assert_eq!(retries.step(Reply::Failed), Step::RetryAfter(500));
    assert_eq!(retries.step(Reply::Failed), Step::RetryAfter(1000));
    assert_eq!(retries.step(Reply::Failed), Step::RetryAfter(2000));
    assert_eq!(retries.step(Reply::Failed), Step::GiveUpFailed);
}

#[test]
fn refusals_and_failures_are_counted_together() {
    let mut retries = Retries::new();
    assert_eq!(retries.step(Reply::Failed), Step::RetryAfter(500));
    assert_eq!(retries.step(Reply::Answered(429)), Step::RetryAfter(4000));
    assert_eq!(retries.step(Reply::Failed), Step::RetryAfter(2000));
    assert_eq!(retries.step(Reply::Answered(429)), Step::GiveUpRefused);
}

#[test]
fn a_refusal_is_told_with_the_url() {
    assert_eq!(
        refused_message("https://nyaa.si"),
        "Too many requests after 3 retries for URL: https://nyaa.si"
    );
}

#[test]
fn spellings_of_a_size_agree() {
    for (one, other) in [("1.5 KB", " 1.5\tkib\n"), ("2 MiB", "2  mB "), ("3 XB", "\u{3000}3 xIb")] {
        let a = split_size(one).ok().unwrap().unwrap();
        let b = split_size(other).ok().unwrap().unwrap();
        assert_eq!(a.number, b.number);
        assert_eq!(unit_multiplier(&a.unit).ok(), unit_multiplier(&b.unit).ok());
    }
    assert!(unit_multiplier("xIb").is_err());
}

#[test]
fn the_case_of_ascii_letters_makes_no_difference() {
    for code in (0u32..0x3000).chain(0xa640..0xac00).chain(0xfb00..0xfb20).chain(0x10400..0x10500) {
        if let Some(c) = char::from_u32(code) {
            let lower = unit_multiplier(&format!("k{}b", c));
            let upper = unit_multiplier(&format!("K{}B", c));
            assert_eq!(lower.as_ref().ok(), upper.as_ref().ok());
            assert_eq!(lower.err().map(|e| e.message()), upper.err().map(|e| e.message()));
        }
    }
    assert_eq!(unit_multiplier("K\u{131}b").ok(), Some(1024));
    assert_eq!(unit_multiplier("\u{df}b").err().unwrap().message(), "Unknown unit: SSB");
}
