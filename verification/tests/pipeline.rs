use tongwen::convert::Conversion;
use tongwen::pipeline::{post_process_voiceink, strip_transcript_tags};
use tongwen::post_process;

/// Stands in for the S2TW converter on text it leaves as it is.
fn unchanged(t: &str) -> Conversion {
    Conversion::Converted(t.to_string())
}

#[test]
fn test_pipeline_basic() {
    assert_eq!(post_process("hello", false, unchanged), "Hello");
}

#[test]
fn test_pipeline_tw_fix_and_convert() {
    let out = post_process("乐色", false, unchanged);
    assert_eq!(out, "垃圾");
}

#[test]
fn test_pipeline_short_period() {
    assert_eq!(post_process("你好。", false, unchanged), "你好");
}

#[test]
fn test_pipeline_voiceink() {
    assert_eq!(
        post_process_voiceink("<TRANSCRIPT>hello</TRANSCRIPT>", false, unchanged),
        "Hello"
    );
}

#[test]
fn test_pipeline_punct() {
    let out = post_process("你好吗", false, unchanged);
    assert!(out.contains('？') || out.contains('?') || out.contains('嗎'));
}

#[test]
fn pipeline_empty_input_stays_empty() {
    assert_eq!(post_process("", true, unchanged), "");
}

#[test]
fn pipeline_hands_prepared_text_to_converter() {
    // The converter sees the text after steps 1 to 7 and its answer goes on.
    let out = post_process("我我我爱你", false, |t: &str| {
        assert_eq!(t, "我爱你");
        Conversion::Converted("我愛你".to_string())
    });
    assert_eq!(out, "我愛你");
}

#[test]
fn pipeline_without_converter_keeps_text() {
    assert_eq!(post_process("简体变繁体", false, |_: &str| Conversion::Unavailable), "简体变繁体");
    assert_eq!(post_process("简体变繁体", false, |_: &str| Conversion::Failed), "简体变繁体");
}

#[test]
fn pipeline_lists_only_when_enabled() {
    let input = "今天要做三件事第一是買菜第二是煮飯第三是洗碗";
    assert_eq!(post_process(input, false, unchanged), input);
    assert_eq!(
        post_process(input, true, unchanged),
        "今天要做三件事：\n1. 買菜\n2. 煮飯\n3. 洗碗"
    );
}

#[test]
fn strip_tags_and_trim() {
    assert_eq!(strip_transcript_tags("  <TRANSCRIPT> 简体 </TRANSCRIPT> "), "简体");
    assert_eq!(strip_transcript_tags("no tags"), "no tags");
    assert_eq!(strip_transcript_tags("<TRAN</TRANSCRIPT>SCRIPT>x"), "<TRANSCRIPT>x");
}

#[test]
fn voiceink_law_wrapped_text_is_unwrapped() {
    assert_eq!(strip_transcript_tags("<TRANSCRIPT> a b </TRANSCRIPT>"), "a b");
}
