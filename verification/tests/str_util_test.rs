use launcher_core::str_util::StrUtil;

#[test]
fn test_pinyin() {
    let text = "小明";
    let pinyin = StrUtil::parse_pinyin(text);
    assert_eq!("xiaoming", pinyin);
}

#[test]
fn pinyin_skips_characters_without_reading() {
    assert_eq!(StrUtil::parse_pinyin("a拼b音!"), "pinyin");
    assert_eq!(StrUtil::parse_pinyin(""), "");
}

#[test]
fn contains_chinese_checks_the_cjk_block() {
    assert!(StrUtil::contains_chinese("微信"));
    assert!(StrUtil::contains_chinese("abc中"));
    assert!(!StrUtil::contains_chinese("wechat"));
    assert!(!StrUtil::contains_chinese(""));
    assert!(StrUtil::contains_chinese("\u{4E00}"));
    assert!(StrUtil::contains_chinese("\u{9FFF}"));
    assert!(!StrUtil::contains_chinese("\u{3000}\u{A000}"));
}

#[test]
fn pinyin_of_ascii_text_is_empty() {
    assert_eq!(StrUtil::parse_pinyin("hello, World 123 ~!"), "");
    assert_eq!(StrUtil::parse_pinyin("\u{3006}"), "");
}

#[test]
fn pinyin_reads_each_character_on_its_own() {
    let (a, b) = ("小明 abc", "微信!");
    let whole = StrUtil::parse_pinyin(&format!("{}{}", a, b));
    assert_eq!(whole, StrUtil::parse_pinyin(a) + &StrUtil::parse_pinyin(b));
    assert_eq!(whole, "xiaomingweixin");
}
