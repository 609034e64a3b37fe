use regex::Regex;
use yoteoke::{format_time, format_timecode, parse_timecode};

#[test]
fn timing_tags_give_their_time() {
    assert_eq!(parse_timecode("[00:00.000]"), Some(0));
    assert_eq!(parse_timecode("[00:02.000]"), Some(2000));
    assert_eq!(parse_timecode("[01:02.003]"), Some(62003));
    assert_eq!(parse_timecode("[1:2.3]"), Some(62003));
    assert_eq!(parse_timecode("[12:34.567]"), Some(754567));
    assert_eq!(parse_timecode("[0:90.0]"), Some(90000));
    assert_eq!(parse_timecode("[0000000000000:0000000000001.0000000000002]"), Some(1002));
}

#[test]
fn third_numeral_counts_milliseconds_whatever_its_width() {
    assert_eq!(parse_timecode("[0:0.5]"), Some(5));
    assert_eq!(parse_timecode("[0:0.05]"), Some(5));
    assert_eq!(parse_timecode("[0:0.500]"), Some(500));
    assert_eq!(parse_timecode("[0:0.5000]"), Some(5000));
}

#[test]
fn other_spans_give_none() {
    for text in [
        "", "[", "]", "[]", "[:]", "[:.]", "[1:2]", "[1:2.]", "[1:.3]", "[:2.3]", "[1.2:3]", "[1:2:3]",
        "[1:2.3", "1:2.3]", "[1:2.3]]", "[[1:2.3]", " [1:2.3]", "[1:2.3] ", "[1 :2.3]", "[1:2x3]",
        "[1:234]", "[a:2.3]", "[1:2.3a]", "[-1:2.3]", "[+1:2.3]", "[1:2,3]", "[1:2.3.4]",
        "[\u{661}:2.3]", "[1:2.\u{ff13}]", "(1:2.3)",
    ] {
        assert_eq!(parse_timecode(text), None, "{:?}", text);
    }
}

#[test]
fn numerals_must_fit_32_bits() {
    assert_eq!(parse_timecode("[4294967295:0.0]"), Some(4294967295 * 60000));
    assert_eq!(parse_timecode("[4294967296:0.0]"), None);
    assert_eq!(parse_timecode("[0:4294967295.0]"), Some(4294967295 * 1000));
    assert_eq!(parse_timecode("[0:4294967296.0]"), None);
    assert_eq!(parse_timecode("[0:0.4294967295]"), Some(4294967295));
    assert_eq!(parse_timecode("[0:0.4294967296]"), None);
    assert_eq!(parse_timecode("[99999999999999999999999999:0.0]"), None);
    assert_eq!(parse_timecode("[0:0.18446744073709551616]"), None);
}

#[test]
fn times_are_written_with_padding() {
    assert_eq!(format_timecode(0), "[00:00.000]");
    assert_eq!(format_timecode(7), "[00:00.007]");
    assert_eq!(format_timecode(2000), "[00:02.000]");
    assert_eq!(format_timecode(61001), "[01:01.001]");
    assert_eq!(format_timecode(599999), "[09:59.999]");
    assert_eq!(format_timecode(754567), "[12:34.567]");
    assert_eq!(format_timecode(6000000), "[100:00.000]");
    assert_eq!(format_time(0), "00:00.000");
    assert_eq!(format_time(125250), "02:05.250");
    assert_eq!(format_time(u64::MAX), "307445734561825:51.615");
}

#[test]
fn written_tags_read_back() {
    let limit = 4294967295u64 * 60000 + 59999;
    for time in [0u64, 1, 999, 1000, 59999, 60000, 754567, 3600000, 123456789012, limit] {
        assert_eq!(parse_timecode(&format_timecode(time)), Some(time));
    }
    assert_eq!(parse_timecode(&format_timecode(limit + 1)), None);
}

#[test]
fn agrees_with_the_pattern() {
    let pattern = Regex::new(r"^\[([0-9]+):([0-9]+)\.([0-9]+)\]$").unwrap();
    let pieces = ["", "[", "]", ":", ".", "0", "12", "x", "4294967296"];
    let mut texts = vec![String::new()];
    for _ in 0..5 {
        let mut longer = Vec::new();
        for text in &texts {
            for piece in pieces {
                longer.push(format!("{}{}", text, piece));
            }
        }
        texts = longer;
    }
    let mut count = 0;
    for inner in &texts {
        for text in [format!("[{}]", inner), inner.clone()] {
            let expected = pattern.captures(&text).and_then(|found| {
                let minutes: u32 = found.get(1).unwrap().as_str().parse().ok()?;
                let seconds: u32 = found.get(2).unwrap().as_str().parse().ok()?;
                let millis: u32 = found.get(3).unwrap().as_str().parse().ok()?;
                Some((minutes as u64 * 60 + seconds as u64) * 1000 + millis as u64)
            });
            assert_eq!(parse_timecode(&text), expected, "{:?}", text);
            if expected.is_some() {
                count += 1;
            }
        }
    }
    assert!(count > 0);
}
