use msweeper::score::{
    add_record, get_highscore, is_space_byte, leading_space_len, parse_score, trailing_space_len,
    trim,
};

#[test]
fn empty_record_is_beaten_by_any_game() {
    assert_eq!(get_highscore(b""), Some(u64::MAX));
}

#[test]
fn highscore_is_the_least_score() {
    assert_eq!(get_highscore(b"12\n7\n30"), Some(7));
    assert_eq!(get_highscore(b"7\n12\n30"), Some(7));
    assert_eq!(get_highscore(b"30\n12\n7"), Some(7));
    assert_eq!(get_highscore(b"42"), Some(42));
    assert_eq!(get_highscore(b"0\n0"), Some(0));
    assert_eq!(get_highscore(b"18446744073709551615"), Some(u64::MAX));
    assert_eq!(get_highscore(b"18446744073709551615\n3"), Some(3));
}

#[test]
fn highscore_of_a_broken_record_is_nothing() {
    assert_eq!(get_highscore(b"12\nabc"), None);
    assert_eq!(get_highscore(b"abc\n12"), None);
    assert_eq!(get_highscore(b"12\n"), None);
    assert_eq!(get_highscore(b"\n12"), None);
    assert_eq!(get_highscore(b"12\n\n13"), None);
    assert_eq!(get_highscore(b"\n"), None);
    assert_eq!(get_highscore(b"12 \n13"), None);
    assert_eq!(get_highscore(b"12\r\n13"), None);
    assert_eq!(get_highscore(b"18446744073709551616"), None);
    assert_eq!(get_highscore(b"-1"), None);
}

#[test]
fn parse_score_reads_decimal_digits() {
    assert_eq!(parse_score(b"0"), Some(0));
    assert_eq!(parse_score(b"007"), Some(7));
    assert_eq!(parse_score(b"1234567890"), Some(1234567890));
    assert_eq!(parse_score(b"+5"), Some(5));
    assert_eq!(parse_score(b"18446744073709551615"), Some(u64::MAX));
    assert_eq!(parse_score(b"+18446744073709551615"), Some(u64::MAX));
}

#[test]
fn parse_score_refuses_anything_else() {
    assert_eq!(parse_score(b""), None);
    assert_eq!(parse_score(b"+"), None);
    assert_eq!(parse_score(b"++5"), None);
    assert_eq!(parse_score(b"5+"), None);
    assert_eq!(parse_score(b"-5"), None);
    assert_eq!(parse_score(b" 5"), None);
    assert_eq!(parse_score(b"5 "), None);
    assert_eq!(parse_score(b"5a"), None);
    assert_eq!(parse_score(b"1.5"), None);
    assert_eq!(parse_score(b"18446744073709551616"), None);
    assert_eq!(parse_score(b"18446744073709551620"), None);
    assert_eq!(parse_score(b"99999999999999999999"), None);
    assert_eq!(parse_score(b"184467440737095516150"), None);
}

#[test]
fn trim_takes_white_space_off_both_ends() {
    assert_eq!(trim(b"  12\n7 \n\t"), b"12\n7".to_vec());
    assert_eq!(trim(b"12\n7"), b"12\n7".to_vec());
    assert_eq!(trim(b"\r\n 5"), b"5".to_vec());
    assert_eq!(trim(b"5\x0b\x0c"), b"5".to_vec());
    assert_eq!(trim(b" a b "), b"a b".to_vec());
    assert_eq!(trim(b""), Vec::<u8>::new());
    assert_eq!(trim(b" \n\t\r "), Vec::<u8>::new());
    assert_eq!(trim(b"\x08x\x0e"), b"\x08x\x0e".to_vec());
}

#[test]
fn white_space_bytes() {
    for b in [b' ', b'\t', b'\n', 0x0b, 0x0c, b'\r'] {
        assert!(is_space_byte(b));
    }
    for b in [0u8, 8, 14, 31, 33, b'0', b'a', 0x85, 0xa0, 255] {
        assert!(!is_space_byte(b));
    }
}

#[test]
fn add_record_appends_a_line() {
    assert_eq!(add_record(b"", 5), b"5".to_vec());
    assert_eq!(add_record(b"\n \n", 5), b"5".to_vec());
    assert_eq!(add_record(b"12", 0), b"12\n0".to_vec());
    assert_eq!(add_record(b"12\n", 7), b"12\n7".to_vec());
    assert_eq!(add_record(b" 12\n30 ", 100), b"12\n30\n100".to_vec());
    assert_eq!(add_record(b"1", u64::MAX), b"1\n18446744073709551615".to_vec());
    assert_eq!(add_record(b"", 10), b"10".to_vec());
    assert_eq!(add_record(b"", 9), b"9".to_vec());
}

#[test]
fn added_score_is_read_back() {
    let mut text: Vec<u8> = Vec::new();
    let mut best = u64::MAX;
    for score in [40u64, 55, 12, 12, 90, 3, 1000000] {
        text = add_record(&text, score);
        best = best.min(score);
        assert_eq!(get_highscore(&text), Some(best));
    }
    assert_eq!(text, b"40\n55\n12\n12\n90\n3\n1000000".to_vec());
}

/// Every character with the property White_Space.
const WHITE_SPACE: [char; 25] = [
    '\u{9}', '\u{a}', '\u{b}', '\u{c}', '\u{d}', '\u{20}', '\u{85}', '\u{a0}', '\u{1680}',
    '\u{2000}', '\u{2001}', '\u{2002}', '\u{2003}', '\u{2004}', '\u{2005}', '\u{2006}',
    '\u{2007}', '\u{2008}', '\u{2009}', '\u{200a}', '\u{2028}', '\u{2029}', '\u{202f}',
    '\u{205f}', '\u{3000}',
];

/// Characters that look like white space or stand next to it, and are none.
const NO_WHITE_SPACE: [char; 22] = [
    '\u{8}', '\u{e}', '\u{1f}', '\u{21}', '\u{84}', '\u{86}', '\u{9f}', '\u{a1}', '\u{167f}',
    '\u{1681}', '\u{180e}', '\u{1fff}', '\u{200b}', '\u{200c}', '\u{2027}', '\u{202a}',
    '\u{202e}', '\u{2030}', '\u{205e}', '\u{2060}', '\u{3001}', '\u{feff}',
];

#[test]
fn trim_takes_a_no_break_space_off_either_end() {
    assert_eq!(trim(&[0xc2, 0xa0, 0x35]), b"5".to_vec());
    assert_eq!(trim(&[0x35, 0xc2, 0xa0]), b"5".to_vec());
    assert_eq!(trim("\u{a0}12\n7\u{a0}".as_bytes()), b"12\n7".to_vec());
    assert_eq!(get_highscore(&trim(&[0x35, 0xc2, 0xa0])), Some(5));
    assert_eq!(get_highscore(&trim(&[0xc2, 0xa0, 0x35])), Some(5));
    assert_eq!(add_record(&[0x35, 0xc2, 0xa0], 7), b"5\n7".to_vec());
    assert_eq!(add_record(&[0xc2, 0xa0], 7), b"7".to_vec());
}

#[test]
fn trim_takes_off_every_white_space_character() {
    for c in WHITE_SPACE {
        assert!(c.is_whitespace());
        let text = format!("{}{}12\n34{} {}", c, c, c, c);
        assert_eq!(trim(text.as_bytes()), b"12\n34".to_vec());
        let inside = format!("1{}2", c);
        assert_eq!(trim(inside.as_bytes()), inside.as_bytes().to_vec());
        let only = format!("{}{}{}", c, c, c);
        assert_eq!(trim(only.as_bytes()), Vec::<u8>::new());
    }
}

#[test]
fn trim_leaves_every_other_character() {
    for c in NO_WHITE_SPACE {
        assert!(!c.is_whitespace());
        let text = format!("{}12{}", c, c);
        assert_eq!(trim(text.as_bytes()), text.as_bytes().to_vec());
        let padded = format!(" \u{2003}{}12{}\u{a0}\n", c, c);
        assert_eq!(trim(padded.as_bytes()), text.as_bytes().to_vec());
    }
}

#[test]
fn trim_agrees_with_the_trimming_of_strings() {
    let mut all: Vec<char> = Vec::new();
    all.extend(WHITE_SPACE);
    all.extend(NO_WHITE_SPACE);
    all.extend(['0', '9', 'a', '\u{e9}', '\u{20ac}', '\u{1f600}']);
    for a in &all {
        for b in &all {
            for c in &all {
                let text = format!("{}{}{}", a, b, c);
                assert_eq!(trim(text.as_bytes()), text.trim().as_bytes().to_vec());
            }
        }
    }
}

#[test]
fn trim_of_bytes_that_are_no_text() {
    // a white space form that is cut short stays
    assert_eq!(trim(&[0xc2]), vec![0xc2]);
    assert_eq!(trim(&[0xe2, 0x80]), vec![0xe2, 0x80]);
    assert_eq!(trim(&[0x35, 0xe2, 0x80]), vec![0x35, 0xe2, 0x80]);
    assert_eq!(trim(&[0xa0, 0x35, 0x85]), vec![0xa0, 0x35, 0x85]);
    assert_eq!(trim(&[0xff, 0x20]), vec![0xff]);
}

#[test]
fn white_space_at_the_ends_is_measured() {
    let text = "\u{3000}\u{a0} 5\t\u{85}\u{2028}".as_bytes();
    let len = text.len();
    assert_eq!(len, 13);
    assert_eq!(leading_space_len(text, 0, len), 3);
    assert_eq!(leading_space_len(text, 3, len), 2);
    assert_eq!(leading_space_len(text, 5, len), 1);
    assert_eq!(leading_space_len(text, 6, len), 0);
    assert_eq!(leading_space_len(text, 1, len), 0);
    assert_eq!(leading_space_len(text, 0, 2), 0);
    assert_eq!(leading_space_len(text, 4, 4), 0);
    assert_eq!(trailing_space_len(text, 0, len), 3);
    assert_eq!(trailing_space_len(text, 0, 10), 2);
    assert_eq!(trailing_space_len(text, 0, 8), 1);
    assert_eq!(trailing_space_len(text, 0, 7), 0);
    assert_eq!(trailing_space_len(text, 11, len), 0);
    assert_eq!(trailing_space_len(text, 9, 10), 0);
    assert_eq!(trailing_space_len(text, 0, 0), 0);
}
