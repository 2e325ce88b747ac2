use tongwen::convert::{to_traditional, Conversion};

#[test]
fn test_pure_traditional_unchanged() {
    assert_eq!(to_traditional("這是繁體中文資訊", Conversion::Unavailable), "這是繁體中文資訊");
    assert_eq!(to_traditional("軟體硬體", Conversion::Unavailable), "軟體硬體");
    assert_eq!(
        to_traditional("這是繁體中文資訊", Conversion::Converted("這是繁體中文資訊".to_string())),
        "這是繁體中文資訊"
    );
}

#[test]
fn test_char_conversion() {
    // What S2TW gives for each input, then the library's finishing step.
    let cases = [
        ("网络", "網絡", "網絡"),
        ("内存", "內存", "內存"),
        ("视频", "視頻", "視頻"),
        ("博客", "博客", "博客"),
        ("软件", "軟件", "軟件"),
        ("信息", "信息", "信息"),
        ("账单", "賬單", "帳單"),
        ("吃飯", "吃飯", "吃飯"),
    ];
    for (input, s2tw, expected) in cases {
        assert_eq!(to_traditional(input, Conversion::Converted(s2tw.to_string())), expected);
    }
}

#[test]
fn test_char_fix() {
    let s = to_traditional("转账", Conversion::Converted("轉賬".to_string()));
    assert!(s.contains('帳'));
}

#[test]
fn to_traditional_empty_and_failure() {
    assert_eq!(to_traditional("", Conversion::Converted("x".to_string())), "");
    assert_eq!(to_traditional("转账", Conversion::Failed), "转账");
    assert_eq!(to_traditional("賬", Conversion::Unavailable), "賬");
}
