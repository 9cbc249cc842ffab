use rust_value::dxvalue::decimal::Decimal;
use rust_value::dxvalue::json::{parseJson, serialize, skipWB};
use rust_value::dxvalue::{DxValue, Key_Value, Slots};

fn reread(text: &str) -> String {
    serialize(&parseJson(text.as_bytes().to_vec()).unwrap())
}

#[test]
fn written_text_reads_back_to_the_same_text() {
    for text in [
        "null",
        "true",
        "[]",
        "{}",
        "0",
        "-17",
        "9223372036854775807",
        "-9223372036854775808",
        "1.50",
        "-0.00",
        "\"\"",
        "\"a\\\"b\\\\c\\n\\u0000\\u001f\u{7f}\u{e9}\u{1F600}\"",
        "[1,[2,[3,[]]],{\"k\":[{}]}]",
        "{\"a\":1,\"b\":[1,2,3],\"c\":{\"d\":\"e\"},\"f\":null,\"g\":false,\"h\":12.25}",
    ] {
        assert_eq!(reread(text), text);
    }
}

#[test]
fn reading_normalises_white_space_and_numbers() {
    assert_eq!(reread(" { \"a\" : [ 1 , 2.5 , 1e2 ] } "), "{\"a\":[1,2.50,100.00]}");
    assert_eq!(reread("[0.004,0.005,0.0050001,0.015,2.675]"), "[0.00,0.00,0.01,0.02,2.68]");
    assert_eq!(reread("\"\\u0041\\/\""), "\"A/\"");
}

#[test]
fn a_tree_built_by_hand_survives_the_round_trip() {
    let mut inner = Slots::new();
    inner.push(DxValue::Int32(-3)).unwrap();
    inner.push(DxValue::Int64(1 << 40)).unwrap();
    inner.push(DxValue::Float(Decimal::from_f32_bits(1.005f32.to_bits()).unwrap())).unwrap();
    inner.push(DxValue::String("tab\there \"quoted\" \\ \u{1}".to_string())).unwrap();
    let mut members = Slots::new();
    members.push(Key_Value::new_value("list \"x\"", DxValue::Array(inner))).unwrap();
    members.push(Key_Value::new_bool("", true)).unwrap();
    let tree = DxValue::Object(members);
    let text = serialize(&tree);
    assert_eq!(
        text,
        "{\"list \\\"x\\\"\":[-3,1099511627776,1.00,\"tab\\there \\\"quoted\\\" \\\\ \\u0001\"],\"\":true}"
    );
    let back = parseJson(text.clone().into_bytes()).unwrap();
    assert_eq!(serialize(&back), text);
    let list = back.peek_byName("list \"x\"").unwrap();
    assert!(matches!(list.peek_byIndex(0), Some(DxValue::Int(-3))));
    assert!(matches!(list.peek_byIndex(2), Some(DxValue::Double(_))));
    assert_eq!(list.string_byIndex(3, String::new()), "tab\there \"quoted\" \\ \u{1}");
}

#[test]
fn leading_white_space_is_counted() {
    let (rest, skipped) = skipWB(b" \t\r\n x ");
    assert_eq!(skipped, 5);
    assert_eq!(rest, b"x ");
    let (rest, skipped) = skipWB(b"x");
    assert_eq!(skipped, 0);
    assert_eq!(rest, b"x");
    let (rest, skipped) = skipWB(b"  ");
    assert_eq!(skipped, 2);
    assert_eq!(rest, b"");
}
