use ntrancerator::text::{contains, parse_index, position_containing};

#[test]
fn containment_is_that_of_std() {
    let texts = ["", "a", "ab", "aab", "aaab", "abab", "ba", "xyzzy", "äöü", "öü", "the end", "end"];
    for hay in texts {
        for needle in texts {
            assert_eq!(contains(hay, needle), hay.contains(needle), "{hay:?} {needle:?}");
        }
    }
}

#[test]
fn indices_are_read_as_std_reads_them() {
    let texts = [
        "", "0", "7", "+7", "-7", "++7", "+", "007", " 7", "7 ", "7a", "12345678901234567890",
        "18446744073709551615", "18446744073709551616", "99999999999999999999", "٣", "1_000", "0x10",
    ];
    for s in texts {
        assert_eq!(parse_index(s), s.parse::<usize>().ok(), "{s:?}");
    }
}

#[test]
fn the_first_match_counts() {
    let names: Vec<String> = ["one", "two", "stone"].iter().map(|s| s.to_string()).collect();
    assert_eq!(position_containing(&names, "one"), Some(0));
    assert_eq!(position_containing(&names, "t"), Some(1));
    assert_eq!(position_containing(&names, "st"), Some(2));
    assert_eq!(position_containing(&names, "x"), None);
}
