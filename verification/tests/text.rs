use upulse::log::{failure, last_error, push_log, LOG_CAP};
use upulse::number::{checked_sum, parse_u64, parse_u8, show, show_two};
use upulse::order::{key_less, string_less};
use upulse::text::{
    byte_len, contains, find, join, lines, rfind, split, split_once, splitn, to_chars, to_text,
    trim, words,
};

fn texts(parts: &[&[char]]) -> Vec<String> {
    parts.iter().map(|p| to_text(p)).collect()
}

const SAMPLES: [&str; 16] = [
    "", " ", "a", "a b", "  a\tb \n", "\n", "a\n", "a\r\nb", "\n\n", "a\n\nb\r", "a,b,,c", ",",
    "x - y - z", "ä\u{85}ö\u{2003}ü", "\u{a0}nb\u{a0}", "a::b::",
];

#[test]
fn lines_words_and_trims_agree_with_std() {
    for s in SAMPLES {
        let c = to_chars(s);
        assert_eq!(texts(&lines(&c)), s.lines().collect::<Vec<_>>(), "{s:?}");
        assert_eq!(texts(&words(&c)), s.split_whitespace().collect::<Vec<_>>(), "{s:?}");
        assert_eq!(to_text(trim(&c)), s.trim(), "{s:?}");
        assert_eq!(byte_len(&c), s.len() as u128);
    }
}

#[test]
fn splits_agree_with_std() {
    for s in SAMPLES {
        let c = to_chars(s);
        for pat in [",", " - ", "::", "\n", "a"] {
            assert_eq!(texts(&split(&c, pat)), s.split(pat).collect::<Vec<_>>(), "{s:?} {pat:?}");
            for n in 0..4 {
                assert_eq!(
                    texts(&splitn(&c, n, pat)),
                    s.splitn(n, pat).collect::<Vec<_>>(),
                    "{s:?} {n} {pat:?}"
                );
            }
            assert_eq!(
                split_once(&c, pat).map(|(a, b)| (to_text(a), to_text(b))),
                s.split_once(pat).map(|(a, b)| (a.to_string(), b.to_string()))
            );
            assert_eq!(contains(&c, pat), s.contains(pat));
            assert_eq!(find(&c, &to_chars(pat)).is_some(), s.contains(pat));
        }
        assert_eq!(rfind(&c, ',').is_some(), s.rfind(',').is_some());
    }
    assert_eq!(join(&["a".to_string(), "b".to_string()], " ; "), "a ; b");
    assert_eq!(join(&[], " ; "), "");
}

#[test]
fn numbers_agree_with_std() {
    for s in [
        "", "0", "7", "007", "+5", "-1", "+", "1 ", "255", "256", "18446744073709551615",
        "18446744073709551616", "12a", "٣",
    ] {
        let c = to_chars(s);
        assert_eq!(parse_u64(&c), s.parse::<u64>().ok(), "{s:?}");
        assert_eq!(parse_u8(&c), s.parse::<u8>().ok(), "{s:?}");
    }
    for n in [0, 9, 10, 12345, u64::MAX] {
        assert_eq!(show(n), n.to_string());
        assert_eq!(parse_u64(&to_chars(&show(n))), Some(n));
    }
    assert_eq!((show_two(3), show_two(42)), ("03".to_string(), "42".to_string()));
    assert_eq!(checked_sum(&[1, 2, 3]), Some(6));
    assert_eq!(checked_sum(&[u64::MAX, 1]), None);
    assert_eq!(checked_sum(&[]), Some(0));
}

#[test]
fn orders_agree_with_std() {
    for a in SAMPLES {
        for b in SAMPLES {
            assert_eq!(string_less(a, b), a < b, "{a:?} {b:?}");
        }
    }
    assert!(key_less(&[6, 8], &[6, 8, 0]) && key_less(&[6, 9, 9], &[6, 10, 0]));
    assert!(!key_less(&[6], &[6]));
}

#[test]
fn transcripts_are_bounded() {
    let mut log: Vec<String> = (0..LOG_CAP + 10).map(|i| i.to_string()).collect();
    push_log(&mut log, "new".to_string());
    assert_eq!((log.len(), log[0].as_str(), log[LOG_CAP - 1].as_str()), (LOG_CAP, "11", "new"));
    assert_eq!(last_error(" \n\t"), None);
    assert_eq!(last_error("a\n b \n\n"), Some(" b".to_string()));
    assert_eq!(failure("", "fallback"), "fallback");
    assert_eq!(failure("x", "fallback"), "x");
}
