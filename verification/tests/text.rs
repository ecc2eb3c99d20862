use mastodon::text::{chars_of, decimal, parse_u32, replace_all, trim, whitespace};

#[test]
fn whitespace_is_the_unicode_property() {
    let mut code: u32 = 0;
    while code <= 0x10ffff {
        if let Some(c) = char::from_u32(code) {
            assert_eq!(whitespace(c), c.is_whitespace(), "U+{:04X}", code);
        }
        code += 1;
    }
}

#[test]
fn whitespace_of_named_characters() {
    assert!(whitespace(' '));
    assert!(whitespace('\t'));
    assert!(whitespace('\n'));
    assert!(whitespace('\r'));
    assert!(whitespace('\u{a0}'));
    assert!(whitespace('\u{3000}'));
    assert!(!whitespace('a'));
    assert!(!whitespace('0'));
    assert!(!whitespace('\u{200b}'));
    assert!(!whitespace('\u{180e}'));
    assert!(!whitespace('\u{8}'));
    assert!(!whitespace('\u{e}'));
}

#[test]
fn trim_removes_both_ends_only() {
    assert_eq!(trim("  Lundo matene \n"), "Lundo matene");
    assert_eq!(trim("Lundo"), "Lundo");
    assert_eq!(trim("\tLundo"), "Lundo");
    assert_eq!(trim("Lundo\r\n"), "Lundo");
    assert_eq!(trim(" a  b "), "a  b");
}

#[test]
fn trim_of_nothing_but_white_space_is_empty() {
    assert_eq!(trim(""), "");
    assert_eq!(trim(" "), "");
    assert_eq!(trim(" \t\r\n\u{a0}\u{2003}"), "");
}

#[test]
fn trim_keeps_characters_of_several_bytes() {
    assert_eq!(trim("\u{3000}ĉiam ĝoja ŝtono\u{2028}"), "ĉiam ĝoja ŝtono");
    assert_eq!(trim(" 💚 "), "💚");
    assert_eq!(trim("\u{200b} x"), "\u{200b} x");
}

#[test]
fn trim_agrees_with_std() {
    let samples = [
        "",
        " ",
        "x",
        " x",
        "x ",
        "  x  y  ",
        "\n\n",
        "\u{85}x\u{85}",
        "\u{1680}\u{2000}\u{200a}z\u{202f}\u{205f}",
        "ŝi\n",
        "\u{feff} x ",
    ];
    for s in samples {
        assert_eq!(trim(s), s.trim(), "{:?}", s);
    }
}

#[test]
fn trim_is_idempotent() {
    let samples = ["  a b  ", "", " \n", "x", "\t\u{3000}q\u{a0}"];
    for s in samples {
        assert_eq!(trim(trim(s)), trim(s));
    }
}

#[test]
fn decimal_of_small_and_large_numbers() {
    assert_eq!(decimal(0), "0");
    assert_eq!(decimal(1), "1");
    assert_eq!(decimal(2), "2");
    assert_eq!(decimal(9), "9");
    assert_eq!(decimal(10), "10");
    assert_eq!(decimal(429), "429");
    assert_eq!(decimal(1000), "1000");
    assert_eq!(decimal(1234567890), "1234567890");
    assert_eq!(decimal(u32::MAX), "4294967295");
}

#[test]
fn decimal_agrees_with_std() {
    let mut n: u32 = 0;
    while n < 2000 {
        assert_eq!(decimal(n), n.to_string());
        n += 1;
    }
    let mut n: u32 = 1;
    while n < u32::MAX / 7 {
        assert_eq!(decimal(n), n.to_string());
        assert_eq!(decimal(n - 1), (n - 1).to_string());
        n *= 7;
    }
}

#[test]
fn parse_u32_reads_digits() {
    assert_eq!(parse_u32("0"), Some(0));
    assert_eq!(parse_u32("7"), Some(7));
    assert_eq!(parse_u32("12"), Some(12));
    assert_eq!(parse_u32("0012"), Some(12));
    assert_eq!(parse_u32("4294967295"), Some(u32::MAX));
    assert_eq!(parse_u32("0000000000000000000000042"), Some(42));
}

#[test]
fn parse_u32_takes_one_plus_sign() {
    assert_eq!(parse_u32("+12"), Some(12));
    assert_eq!(parse_u32("+0"), Some(0));
    assert_eq!(parse_u32("+"), None);
    assert_eq!(parse_u32("++1"), None);
    assert_eq!(parse_u32("1+"), None);
    assert_eq!(parse_u32("1+1"), None);
}

#[test]
fn parse_u32_refuses_what_is_no_number() {
    assert_eq!(parse_u32(""), None);
    assert_eq!(parse_u32("-1"), None);
    assert_eq!(parse_u32("-0"), None);
    assert_eq!(parse_u32(" 1"), None);
    assert_eq!(parse_u32("1 "), None);
    assert_eq!(parse_u32("1\n"), None);
    assert_eq!(parse_u32("12a"), None);
    assert_eq!(parse_u32("a12"), None);
    assert_eq!(parse_u32("1_000"), None);
    assert_eq!(parse_u32("0x10"), None);
    assert_eq!(parse_u32("１２"), None);
    assert_eq!(parse_u32("٣"), None);
    assert_eq!(parse_u32("draft"), None);
}

#[test]
fn parse_u32_refuses_what_does_not_fit() {
    assert_eq!(parse_u32("4294967296"), None);
    assert_eq!(parse_u32("4294967300"), None);
    assert_eq!(parse_u32("9999999999"), None);
    assert_eq!(parse_u32("99999999999999999999999999"), None);
    assert_eq!(parse_u32("4294967296x"), None);
    assert_eq!(parse_u32("+4294967296"), None);
}

#[test]
fn parse_u32_agrees_with_std() {
    let samples = [
        "", "+", "-", "0", "+0", "-0", "00", "1", "+1", "-1", "12", "012", "4294967295",
        "4294967296", "42949672950", "+4294967295", "1e3", "1.0", " 1", "1 ", "++1", "+-1",
        "18446744073709551616", "٣", "१२", "a", "1a", "0000000000000000000000000000001",
    ];
    for s in samples {
        assert_eq!(parse_u32(s), s.parse::<u32>().ok(), "{:?}", s);
    }
}

#[test]
fn parse_u32_reads_back_what_decimal_writes() {
    let numbers = [0, 1, 9, 10, 11, 99, 100, 429, 65535, 65536, 999999999, 1000000000, u32::MAX];
    for n in numbers {
        assert_eq!(parse_u32(&decimal(n)), Some(n));
    }
}

#[test]
fn chars_of_gives_each_character() {
    assert_eq!(chars_of(""), Vec::<char>::new());
    assert_eq!(chars_of("abc"), vec!['a', 'b', 'c']);
    assert_eq!(chars_of("ĝi 💚"), vec!['ĝ', 'i', ' ', '💚']);
}

#[test]
fn replace_all_replaces_every_occurrence() {
    assert_eq!(replace_all("posts/next/12/", "/next", "/done"), "posts/done/12/");
    assert_eq!(replace_all("a/next/next/b", "/next", "/done"), "a/done/done/b");
    assert_eq!(replace_all("/next", "/next", "/done"), "/done");
    assert_eq!(replace_all("/nex", "/next", "/done"), "/nex");
    assert_eq!(replace_all("", "/next", "/done"), "");
    assert_eq!(replace_all("nothing here", "/next", "/done"), "nothing here");
}

#[test]
fn replace_all_goes_from_left_to_right_without_overlap() {
    assert_eq!(replace_all("aaa", "aa", "b"), "ba");
    assert_eq!(replace_all("aaaa", "aa", "b"), "bb");
    assert_eq!(replace_all("ababa", "aba", "x"), "xba");
    assert_eq!(replace_all("abc", "abc", ""), "");
    assert_eq!(replace_all("abcabc", "c", "cc"), "abccabcc");
    assert_eq!(replace_all("aXbXc", "X", ""), "abc");
}

#[test]
fn replace_all_counts_characters_not_bytes() {
    assert_eq!(replace_all("ĉu ĝi ĉu", "ĉu", "jes"), "jes ĝi jes");
    assert_eq!(replace_all("💚💚x💚", "💚", "<3"), "<3<3x<3");
    assert_eq!(replace_all("señor", "n", "ñ"), "señor");
}

#[test]
fn replace_all_puts_the_filler_around_every_character_for_the_empty_pattern() {
    assert_eq!(replace_all("", "", "-"), "-");
    assert_eq!(replace_all("ab", "", "-"), "-a-b-");
    assert_eq!(replace_all("ĝi", "", "<>"), "<>ĝ<>i<>");
    assert_eq!(replace_all("ab", "", ""), "ab");
}

#[test]
fn replace_all_agrees_with_std() {
    let texts = ["", "a", "aa", "aaa", "abab", "posts/next/1/", "/next/next", "xx/nextx", "ĝĝĝ"];
    let patterns = ["", "a", "aa", "ab", "/next", "x", "ĝ", "ĝĝ", "zzzzzzzzzzzzzz"];
    let fillers = ["", "a", "/done", "aa", "ŝ"];
    for s in texts {
        for from in patterns {
            for to in fillers {
                assert_eq!(replace_all(s, from, to), s.replace(from, to), "{:?} {:?} {:?}", s, from, to);
            }
        }
    }
}
