use lemmalog::number::{decimal_string, parse_i64, parse_usize};
use lemmalog::text::{pieces_of, split_marked, tokens_of, words_of};

#[test]
fn words_split_on_any_whitespace() {
    assert_eq!(words_of("  a  b\tc\n"), vec!["a", "b", "c"]);
    assert_eq!(words_of("2023/04/10\u{00a0}(Mon) 17:50"), vec!["2023/04/10", "(Mon)", "17:50"]);
    assert_eq!(words_of(""), Vec::<String>::new());
    assert_eq!(words_of("   "), Vec::<String>::new());
}

#[test]
fn pieces_keep_empty_ones() {
    assert_eq!(pieces_of("1//2", '/'), vec!["1", "", "2"]);
    assert_eq!(pieces_of("", ':'), vec![""]);
    assert_eq!(pieces_of(":", ':'), vec!["", ""]);
}

#[test]
fn parse_i64_as_std_does() {
    for s in ["0", "+5", "-0", "-12", "007", "-9223372036854775808", "9223372036854775807",
              "9223372036854775808", "-9223372036854775809", "", "-", "+", "12a", " 1", "1.0",
              "99999999999999999999999"] {
        assert_eq!(parse_i64(s), s.parse::<i64>().ok(), "{s}");
    }
}

#[test]
fn parse_usize_as_std_does() {
    for s in ["0", "+5", "-0", "-1", "", "+", "18446744073709551615", "18446744073709551616", "٣"] {
        assert_eq!(parse_usize(s), s.parse::<usize>().ok(), "{s}");
    }
}

#[test]
fn decimal_strings() {
    assert_eq!(decimal_string(0), "0");
    assert_eq!(decimal_string(1234), "1234");
    assert_eq!(decimal_string(u64::MAX), u64::MAX.to_string());
}

#[test]
fn split_marked_runs() {
    let cs: Vec<char> = "ab-c--d".chars().collect();
    let keep: Vec<bool> = cs.iter().map(|c| *c != '-').collect();
    assert_eq!(split_marked(&cs, &keep), vec!["ab", "c", "d"]);
    assert_eq!(split_marked(&vec![], &vec![]), Vec::<String>::new());
    assert_eq!(tokens_of("Hello, wörld_2x!"), vec!["Hello", "wörld", "2x"]);
    assert_eq!(tokens_of("١٢٣ abc"), vec!["١٢٣", "abc"]);
}

#[test]
fn parse_reads_back_decimal_strings() {
    for v in [0i64, 7, -7, 1066395950, i64::MAX, i64::MIN] {
        assert_eq!(parse_i64(&v.to_string()), Some(v));
    }
    for n in [0u64, 12, u64::MAX] {
        assert_eq!(parse_usize(&decimal_string(n)), Some(n as usize));
    }
}

#[test]
fn whitespace_as_std_classifies() {
    for u in 0u32..0x11000 {
        if let Some(c) = char::from_u32(u) {
            assert_eq!(lemmalog::text::is_whitespace(c), c.is_whitespace(), "{u:#x}");
        }
    }
    assert!(lemmalog::text::is_whitespace('\u{3000}'));
    assert!(!lemmalog::text::is_whitespace('\u{180e}'));
}
