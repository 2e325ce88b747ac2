use tongwen::processing::{
    apply_punct_rules, collapse_phrase_repeats, collapse_repeats, fix_tw_pronunciation,
    format_lists, localize_english_punct, normalize_interjections, strip_short_trailing_period,
};

#[test]
fn test_collapse_repeats() {
    assert_eq!(collapse_repeats("我我我"), "我");
    assert_eq!(collapse_repeats("慢慢"), "慢慢");
    assert_eq!(collapse_repeats("謝謝"), "謝謝");
    assert_eq!(collapse_repeats("吃吃喝喝"), "吃吃喝喝");
    assert_eq!(collapse_repeats("吃吃牛肉"), "吃牛肉");
    assert_eq!(collapse_repeats("我我我愛你"), "我愛你");
    assert_eq!(collapse_repeats("hello"), "hello");
}

#[test]
fn test_collapse_phrase_repeats() {
    assert_eq!(collapse_phrase_repeats("其實其實其實"), "其實");
    assert_eq!(collapse_phrase_repeats("然後然後"), "然後");
    assert_eq!(collapse_phrase_repeats("研究研究"), "研究研究");
    assert_eq!(collapse_phrase_repeats("其實其實其實其實"), "其實");
}

#[test]
fn test_normalize_interjections() {
    assert_eq!(normalize_interjections("哎呀"), "欸呀");
    assert_eq!(normalize_interjections("誒呀"), "欸呀");
    assert_eq!(normalize_interjections("呃呃"), "");
    assert_eq!(normalize_interjections("欸呃"), "欸");
}

#[test]
fn test_fix_tw_pronunciation() {
    assert_eq!(fix_tw_pronunciation("樂色"), "垃圾");
    assert_eq!(fix_tw_pronunciation("勒色"), "垃圾");
    assert_eq!(fix_tw_pronunciation("音樂"), "音樂");
    assert_eq!(fix_tw_pronunciation("色彩"), "色彩");
    assert_eq!(fix_tw_pronunciation("音樂色彩"), "音樂色彩");
    assert_eq!(fix_tw_pronunciation("可樂色素"), "可樂色素");
}

#[test]
fn test_apply_punct_rules() {
    assert_eq!(apply_punct_rules("吗。"), "吗？");
    assert_eq!(apply_punct_rules("啦"), "啦！");
    assert_eq!(apply_punct_rules("真的假的"), "真的假的！");
    assert_eq!(apply_punct_rules("對吼"), "對吼");
    assert_eq!(apply_punct_rules("搞好了好"), "搞好了吼");
    assert_eq!(apply_punct_rules("哈哈"), "哈哈");
    assert_eq!(apply_punct_rules("哈。"), "吼。");
}

#[test]
fn test_format_lists() {
    let input = "今天要做三件事第一是買菜第二是煮飯第三是洗碗";
    let out = format_lists(input);
    assert!(out.contains("1. 買菜"));
    assert!(out.contains("2. 煮飯"));
    assert!(out.contains("3. 洗碗"));
    assert_eq!(format_lists("第一次見面"), "第一次見面");
}

#[test]
fn test_localize_english_punct() {
    assert_eq!(localize_english_punct("hello，how are you？"), "Hello, how are you?");
    assert_eq!(
        localize_english_punct("hello，world。 i am here。"),
        "Hello, world. I am here."
    );
    assert_eq!(localize_english_punct("你好 hello，world？"), "你好 hello，world？");
}

#[test]
fn test_strip_short_trailing_period() {
    assert_eq!(strip_short_trailing_period("你好。"), "你好");
    assert_eq!(strip_short_trailing_period("你好嗎？"), "你好嗎？");
    assert_eq!(strip_short_trailing_period("這是一個很長的句子。"), "這是一個很長的句子。");
    assert_eq!(strip_short_trailing_period("第一行。\n第二行。"), "第一行。\n第二行。");
    assert_eq!(strip_short_trailing_period("hi。"), "hi");
}
