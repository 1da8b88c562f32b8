use launcher_core::text::{
    chars_of, find_exec, join_exec, lines_exec, lowercase_str, split_char_exec, split_str_exec, string_of,
    trim_str, words_exec,
};

fn strings(v: Vec<Vec<char>>) -> Vec<String> {
    v.iter().map(|c| c.iter().collect()).collect()
}

const SAMPLES: &[&str] = &[
    "",
    "a",
    "\n",
    "a\nb",
    "a\nb\n",
    "a\r\nb\r\n",
    "a\n\nb",
    "a\n\n",
    "foo\r\nbar\n\nbaz\r",
    "\r",
    "x\ry\n",
    "  spaced out\t\n",
    "\u{3000}全角\u{3000}",
    "a,b,,c,",
    ",",
];

#[test]
fn lines_agree_with_str_lines() {
    for s in SAMPLES {
        let expected: Vec<String> = s.lines().map(|l| l.to_string()).collect();
        assert_eq!(strings(lines_exec(&chars_of(s))), expected, "input {:?}", s);
    }
}

#[test]
fn trim_agrees_with_str_trim() {
    for s in SAMPLES {
        assert_eq!(trim_str(s), s.trim(), "input {:?}", s);
    }
    assert_eq!(trim_str("\u{85}\u{A0}x\u{2029}"), "x");
}

#[test]
fn words_agree_with_split_whitespace() {
    for s in SAMPLES {
        let expected: Vec<String> = s.split_whitespace().map(|w| w.to_string()).collect();
        assert_eq!(strings(words_exec(&chars_of(s))), expected, "input {:?}", s);
    }
}

#[test]
fn split_agrees_with_str_split() {
    for s in SAMPLES {
        let expected: Vec<String> = s.split(',').map(|w| w.to_string()).collect();
        assert_eq!(strings(split_char_exec(&chars_of(s), ',')), expected, "input {:?}", s);
    }
    for s in ["[Desktop Entry]a[Desktop Action]b", "x[Desktop", "[Desktop[Desktop", "none"] {
        let expected: Vec<String> = s.split("[Desktop").map(|w| w.to_string()).collect();
        let got = strings(split_str_exec(&chars_of(s), &chars_of("[Desktop")));
        assert_eq!(got, expected, "input {:?}", s);
    }
}

#[test]
fn find_counts_characters() {
    for (s, p) in [("wechat", "ch"), ("微信wechat", "we"), ("abc", ""), ("abc", "d"), ("", "")] {
        let expected = s.find(p).map(|b| s[..b].chars().count());
        assert_eq!(find_exec(&chars_of(s), &chars_of(p)), expected, "input {:?} {:?}", s, p);
    }
}

#[test]
fn join_and_string_of() {
    let parts = vec![chars_of("a"), chars_of(""), chars_of("b")];
    assert_eq!(string_of(&join_exec(&parts, &chars_of(","))), "a,,b");
    assert_eq!(string_of(&join_exec(&Vec::new(), &chars_of(","))), "");
    assert_eq!(string_of(&chars_of("全角")), "全角");
}

#[test]
fn lowercase_str_agrees_with_str_to_lowercase() {
    for s in SAMPLES {
        assert_eq!(lowercase_str(s), s.to_lowercase(), "input {:?}", s);
    }
    assert_eq!(lowercase_str("WeChat 微信 ΣΑΣ"), "wechat 微信 σας");
    assert_eq!(lowercase_str("KRITA"), "krita");
}
