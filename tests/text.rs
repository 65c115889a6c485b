use crabby_changelog::text::{
    chars_of, is_whitespace, parse_u64, split_lines, split_once_chars, string_of, trim_chars,
};

fn samples() -> Vec<&'static str> {
    vec![
        "",
        "a",
        "\n",
        "\r\n",
        "one\ntwo",
        "one\r\ntwo\r\n",
        "bare\r",
        "x\n\ny\n",
        "  \t padded \u{3000}",
        "\u{a0}nbsp\u{2028}",
        "changelog[fix]: ok",
        "no marker here",
    ]
}

fn text(v: &Vec<char>) -> String {
    string_of(v, 0, v.len())
}

#[test]
fn whitespace_matches_std_for_every_char() {
    for c in (0u32..=0x10FFFF).filter_map(char::from_u32) {
        assert_eq!(is_whitespace(c), c.is_whitespace(), "{:?}", c);
    }
}

#[test]
fn trim_matches_std() {
    for s in samples() {
        assert_eq!(text(&trim_chars(&chars_of(s))), s.trim());
    }
}

#[test]
fn lines_match_std() {
    for s in samples() {
        let got: Vec<String> = split_lines(&chars_of(s)).iter().map(text).collect();
        let want: Vec<String> = s.lines().map(|l| l.to_string()).collect();
        assert_eq!(got, want, "{:?}", s);
    }
}

#[test]
fn split_once_matches_std() {
    for s in samples() {
        for pat in ["changelog", "]", "\n", "o", ""] {
            let got = split_once_chars(&chars_of(s), &chars_of(pat)).map(|(a, b)| (text(&a), text(&b)));
            let want = s.split_once(pat).map(|(a, b)| (a.to_string(), b.to_string()));
            assert_eq!(got, want, "{:?} {:?}", s, pat);
        }
    }
}

#[test]
fn parse_matches_std() {
    for s in ["0", "007", "+1", "+", "", "-1", "1a", "18446744073709551615", "18446744073709551616", "99999999999999999999"] {
        assert_eq!(parse_u64(&chars_of(s), 0), s.parse::<u64>().ok(), "{:?}", s);
    }
}
