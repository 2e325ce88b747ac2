use tongwen::chars::is_white_char;
use tongwen::processing::{
    apply_punct_rules, collapse_phrase_repeats, collapse_repeats, fix_tw_pronunciation,
    format_lists, localize_english_punct, normalize_interjections, strip_short_trailing_period,
};

#[test]
fn white_space_matches_std() {
    for c in (0u32..=0x10FFFF).filter_map(char::from_u32) {
        assert_eq!(is_white_char(c), c.is_whitespace(), "{:?}", c);
    }
}

#[test]
fn stutter_law_on_values() {
    assert_eq!(collapse_repeats("我我我我我"), "我");
    assert_eq!(collapse_repeats("好好好好"), "好好");
    assert_eq!(collapse_repeats("看看看"), "看看");
    assert_eq!(collapse_repeats("跑跑跳跳"), "跑跑跳跳");
    assert_eq!(collapse_repeats("aaa!!!"), "aaa!!!");
    assert_eq!(collapse_repeats(""), "");
}

#[test]
fn phrase_stutters() {
    assert_eq!(collapse_phrase_repeats("研究研究研究一下"), "研究一下");
    assert_eq!(collapse_phrase_repeats("我覺得我覺得我覺得好"), "我覺得好");
    assert_eq!(collapse_phrase_repeats("對對對對"), "對對");
    assert_eq!(collapse_phrase_repeats("就是就是就是說"), "就是說");
    assert_eq!(collapse_phrase_repeats("abab abab abab"), "abab abab abab");
}

#[test]
fn interjections_leave_none_behind() {
    let out = normalize_interjections("哎誒呃哎呀呃誒");
    assert_eq!(out, "欸欸欸呀欸");
    assert!(!out.contains('哎') && !out.contains('誒') && !out.contains('呃'));
}

#[test]
fn garbage_spellings() {
    assert_eq!(fix_tw_pronunciation("乐色车"), "垃圾车");
    assert_eq!(fix_tw_pronunciation("勾勒色彩"), "勾勒色彩");
    assert_eq!(fix_tw_pronunciation("把樂色丟掉"), "把垃圾丟掉");
    assert_eq!(fix_tw_pronunciation("樂"), "樂");
}

#[test]
fn punctuation_rules_more() {
    assert_eq!(apply_punct_rules("你好吗。"), "你好吗？");
    assert_eq!(apply_punct_rules("天啊，走吧"), "天啊！走吧");
    assert_eq!(apply_punct_rules("是不是"), "是不是？");
    assert_eq!(apply_punct_rules("好吗"), "好吗？");
    assert_eq!(apply_punct_rules("哈哈哈"), "哈哈哈");
    assert_eq!(apply_punct_rules("哈，好"), "吼，好");
    assert_eq!(apply_punct_rules(""), "");
}

#[test]
fn lists_numbering_past_nine() {
    let mut input = String::from("清單：");
    let ords = ["一", "二", "三", "四", "五", "六", "七", "八", "九", "十", "兩"];
    for (i, o) in ords.iter().enumerate() {
        input.push_str(&format!("第{}項目{}，", o, i));
    }
    let out = format_lists(&input);
    assert!(out.starts_with("清單：\n1. 目0\n2. 目1\n"));
    assert!(out.ends_with("\n10. 目9\n11. 目10"));
}

#[test]
fn lists_need_first_and_two_items() {
    assert_eq!(format_lists("第二是a第三是b"), "第二是a第三是b");
    assert_eq!(format_lists("第一是a"), "第一是a");
    assert_eq!(format_lists("第一個事情是 吃飯。第二點就是，睡覺；"), "1. 吃飯\n2. 睡覺");
}

#[test]
fn english_lines_more() {
    assert_eq!(localize_english_punct("i think so"), "I think so");
    assert_eq!(
        localize_english_punct("嗯so basically i think this is fine"),
        "So basically I think this is fine"
    );
    assert_eq!(localize_english_punct("你好\nhello world"), "你好\nHello world");
    assert_eq!(localize_english_punct("hello , world ."), "Hello, world.");
    assert_eq!(localize_english_punct("wait!  what?  ok"), "Wait! What? Ok");
    assert_eq!(localize_english_punct("is it hi-fi"), "Is it hi-fi");
}

#[test]
fn short_period_more() {
    assert_eq!(strip_short_trailing_period("好。  "), "好");
    assert_eq!(strip_short_trailing_period("你好！好。"), "你好！好。");
    assert_eq!(strip_short_trailing_period("一二三四五。"), "一二三四五");
    assert_eq!(strip_short_trailing_period("一二三四五六。"), "一二三四五六。");
    assert_eq!(strip_short_trailing_period(""), "");
}

#[test]
fn collapsing_twice_is_collapsing_once() {
    for text in ["我我我我我", "好好好好", "吃吃吃喝喝", "我我他他他", "a我我b", "嗯嗯嗯啊啊啊啊", "abc"] {
        let once = collapse_repeats(text);
        assert_eq!(collapse_repeats(&once), once, "{}", text);
    }
}

#[test]
fn interjections_count_and_fixed_point() {
    let text = "呃我哎呃你誒呃";
    let out = normalize_interjections(text);
    let dropped = text.chars().filter(|c| *c == '呃').count();
    assert_eq!(out.chars().count(), text.chars().count() - dropped);
    assert_eq!(normalize_interjections(&out), out);
}

#[test]
fn english_lines_keep_line_structure() {
    let text = "你好\ni said hi\n\n我說 hello 你好嗎\nok";
    let out = localize_english_punct(text);
    let before: Vec<&str> = text.split('\n').collect();
    let after: Vec<&str> = out.split('\n').collect();
    assert_eq!(before.len(), after.len());
    assert_eq!(after[0], "你好");
    assert_eq!(after[1], "I said hi");
    assert_eq!(after[2], "");
    assert_eq!(after[3], "我說 hello 你好嗎");
}
