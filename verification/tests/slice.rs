use bson_dissector::config::ConfigError;
use bson_dissector::record::DocOffset;
use bson_dissector::slice::{parse_index, parse_side, parse_slice, select, trim, Bound};

fn chars(s: &str) -> Vec<char> {
    s.chars().collect()
}

fn index(n: u64) -> Vec<DocOffset> {
    (0..n).map(|k| DocOffset { offset: k * 10, size: 10 }).collect()
}

#[test]
fn parse_slice_reads_both_ends() {
    assert_eq!(parse_slice("10..20"), Ok((Bound::Included(10), Bound::Excluded(20))));
    assert_eq!(parse_slice("[10..20]"), Ok((Bound::Included(10), Bound::Excluded(20))));
    assert_eq!(parse_slice("  [[3..3]]\n"), Ok((Bound::Included(3), Bound::Excluded(3))));
    assert_eq!(parse_slice("+1..+2"), Ok((Bound::Included(1), Bound::Excluded(2))));
    assert_eq!(parse_slice("007..010"), Ok((Bound::Included(7), Bound::Excluded(10))));
}

#[test]
fn parse_slice_reads_open_ends() {
    assert_eq!(parse_slice("50.."), Ok((Bound::Included(50), Bound::Unbounded)));
    assert_eq!(parse_slice("..5"), Ok((Bound::Unbounded, Bound::Excluded(5))));
    assert_eq!(parse_slice(".."), Ok((Bound::Unbounded, Bound::Unbounded)));
    assert_eq!(parse_slice("0..5"), Ok((Bound::Unbounded, Bound::Excluded(5))));
    assert_eq!(parse_slice("0..0"), Ok((Bound::Unbounded, Bound::Excluded(0))));
    assert_eq!(parse_slice("[..]"), Ok((Bound::Unbounded, Bound::Unbounded)));
}

#[test]
fn parse_slice_rejects_sides_that_spell_no_position() {
    for text in [
        "a..b",
        "a..",
        "..b",
        "1 .. 5",
        "-1..5",
        "5...9",
        "+..-",
        "1..x",
        "99999999999999999999999..3",
        "3..99999999999999999999999",
        "1.5..2",
        "0x10..0x20",
        "[1..2]]x",
        "x[1..2]",
        "1..2.",
        ".1..2",
        "1..٣",
    ] {
        assert_eq!(parse_slice(text), Err(ConfigError::InvalidSlice), "{:?}", text);
    }
}

#[test]
fn parse_slice_rejects_bad_formats() {
    assert_eq!(parse_slice(""), Err(ConfigError::InvalidSlice));
    assert_eq!(parse_slice("5"), Err(ConfigError::InvalidSlice));
    assert_eq!(parse_slice("1.5"), Err(ConfigError::InvalidSlice));
    assert_eq!(parse_slice("1..2..3"), Err(ConfigError::InvalidSlice));
    assert_eq!(parse_slice("...."), Err(ConfigError::InvalidSlice));
    assert_eq!(parse_slice("20..10"), Err(ConfigError::InvalidSlice));
    assert_eq!(parse_slice("[]"), Err(ConfigError::InvalidSlice));
}

#[test]
fn parse_slice_reads_wrapped_ranges() {
    for text in ["3..9", " [3..9] ", "\t[[3..9]\n", "\u{2003}]3..9[\u{a0}", "+3..009"] {
        assert_eq!(
            parse_slice(text),
            Ok((Bound::Included(3), Bound::Excluded(9))),
            "{:?}",
            text
        );
    }
    assert_eq!(parse_slice(" [4..] "), Ok((Bound::Included(4), Bound::Unbounded)));
    assert_eq!(parse_slice("[[..7]]"), Ok((Bound::Unbounded, Bound::Excluded(7))));
    assert_eq!(
        parse_slice(&format!("2..{}", usize::MAX)),
        Ok((Bound::Included(2), Bound::Unbounded))
    );
    assert_eq!(parse_slice("[ 3..9 ]"), Err(ConfigError::InvalidSlice));
}

#[test]
fn parse_side_tells_open_from_unreadable() {
    assert_eq!(parse_side(&chars("")), Some(None));
    assert_eq!(parse_side(&chars("12")), Some(Some(12)));
    assert_eq!(parse_side(&chars("+0")), Some(Some(0)));
    assert_eq!(parse_side(&chars("a")), None);
    assert_eq!(parse_side(&chars(" ")), None);
    assert_eq!(parse_side(&chars("18446744073709551616")), None);
}

#[test]
fn trim_strips_both_ends_only() {
    assert_eq!(trim(&chars(" \t a b \r\n"), false), chars("a b"));
    assert_eq!(trim(&chars("   "), false), chars(""));
    assert_eq!(trim(&chars("[[a]b]"), true), chars("a]b"));
    assert_eq!(trim(&chars(" [a] "), true), chars(" [a] "));
}

#[test]
fn parse_index_reads_positions() {
    assert_eq!(parse_index(&chars("0")), Some(0));
    assert_eq!(parse_index(&chars("+42")), Some(42));
    assert_eq!(parse_index(&chars(&usize::MAX.to_string())), Some(usize::MAX));
    assert_eq!(parse_index(&chars("18446744073709551616")), None);
    assert_eq!(parse_index(&chars("")), None);
    assert_eq!(parse_index(&chars("+")), None);
    assert_eq!(parse_index(&chars("12a")), None);
    assert_eq!(parse_index(&chars("٣")), None);
}

#[test]
fn second_half_of_hundred_records() {
    let records = index(100);
    let range = parse_slice("50..").unwrap();
    let chosen = select(&records, range).unwrap();
    assert_eq!(chosen.len(), 50);
    assert_eq!(chosen, records[50..].to_vec());
    let bounded = select(&records, parse_slice("[50..100]").unwrap()).unwrap();
    assert_eq!(bounded, records[50..].to_vec());
}

#[test]
fn select_follows_the_bounds() {
    let records = index(10);
    assert_eq!(select(&records, (Bound::Unbounded, Bound::Unbounded)), Ok(index(10)));
    assert_eq!(
        select(&records, (Bound::Included(2), Bound::Excluded(4))),
        Ok(records[2..4].to_vec())
    );
    assert_eq!(
        select(&records, (Bound::Excluded(2), Bound::Included(4))),
        Ok(records[3..5].to_vec())
    );
    assert_eq!(select(&records, (Bound::Included(10), Bound::Unbounded)), Ok(vec![]));
    assert_eq!(select(&records, (Bound::Unbounded, Bound::Excluded(0))), Ok(vec![]));
}

#[test]
fn select_rejects_ranges_outside_the_index() {
    let records = index(10);
    assert_eq!(
        select(&records, (Bound::Unbounded, Bound::Excluded(11))),
        Err(ConfigError::SliceOutOfBounds)
    );
    assert_eq!(
        select(&records, (Bound::Included(11), Bound::Unbounded)),
        Err(ConfigError::SliceOutOfBounds)
    );
    assert_eq!(
        select(&records, (Bound::Included(5), Bound::Excluded(4))),
        Err(ConfigError::SliceOutOfBounds)
    );
    assert_eq!(
        select(&records, (Bound::Excluded(usize::MAX), Bound::Unbounded)),
        Err(ConfigError::SliceOutOfBounds)
    );
    assert_eq!(
        select(&records, (Bound::Unbounded, Bound::Included(usize::MAX))),
        Err(ConfigError::SliceOutOfBounds)
    );
}
