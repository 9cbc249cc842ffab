use rust_value::dxvalue::json::{errJsonReson, errorJson, parseJson, serialize};
use rust_value::dxvalue::DxValue;

fn parse(text: &str) -> Result<DxValue, errorJson> {
    parseJson(text.as_bytes().to_vec())
}

fn fault_of(text: &str) -> errorJson {
    match parse(text) {
        Ok(_) => panic!("expected a fault for {}", text),
        Err(e) => e,
    }
}

#[test]
fn object_with_nested_array() {
    let mut tree = parse("{\"a\":1,\"b\":[1,2,3]}").unwrap();
    assert_eq!(tree.len(), 2);
    assert_eq!(tree.int_byName("a", -1), 1);
    assert_eq!(tree.int_byName("b.2", -7), -7);
    assert_eq!(serialize(&tree), "{\"a\":1,\"b\":[1,2,3]}");
    let array = tree.value_byName("b").unwrap();
    assert!(matches!(array, DxValue::Array(_)));
    assert_eq!(array.len(), 3);
    let third = array.value_byIndex(2).unwrap();
    assert!(matches!(third, DxValue::Int(3)));
}

#[test]
fn missing_value_is_invalid_literal_at_the_brace() {
    let e = fault_of("{\"a\": }");
    assert_eq!(e.reson, errJsonReson::JET_Invalidate);
    assert_eq!(e.errPos, 6);
}

#[test]
fn unterminated_array() {
    let e = fault_of("[1,2,");
    assert_eq!(e.reson, errJsonReson::JET_NoArrBack);
    assert_eq!(e.errPos, 5);
}

#[test]
fn unterminated_object() {
    let e = fault_of("{\"a\":1");
    assert_eq!(e.reson, errJsonReson::JET_NoObjBack);
    assert_eq!(e.errPos, 6);
}

#[test]
fn every_fault_kind() {
    assert_eq!(fault_of("{a:1}"), errorJson { errPos: 1, reson: errJsonReson::JET_NoKeyStart });
    assert_eq!(fault_of("[abc]"), errorJson { errPos: 1, reson: errJsonReson::JET_NoStrStart });
    assert_eq!(fault_of("\"abc"), errorJson { errPos: 4, reson: errJsonReson::JET_NoStrEnd });
    assert_eq!(fault_of("{\"a\" 1}"), errorJson { errPos: 5, reson: errJsonReson::JET_NoKVSplit });
    assert_eq!(fault_of("[1 2]"), errorJson { errPos: 3, reson: errJsonReson::JET_NoValueSplit });
    assert_eq!(fault_of("[tru]"), errorJson { errPos: 1, reson: errJsonReson::JET_Invalidate });
    assert_eq!(fault_of(""), errorJson { errPos: 0, reson: errJsonReson::JET_UnParse });
    assert_eq!(fault_of("  \n"), errorJson { errPos: 3, reson: errJsonReson::JET_UnParse });
    assert_eq!(fault_of("1 2"), errorJson { errPos: 2, reson: errJsonReson::JET_UnParse });
    assert_eq!(fault_of("[1,]"), errorJson { errPos: 3, reson: errJsonReson::JET_Invalidate });
    assert_eq!(fault_of("{\"a\":1,}"), errorJson { errPos: 7, reson: errJsonReson::JET_NoKeyStart });
    assert_eq!(fault_of("\"a\\x\""), errorJson { errPos: 2, reson: errJsonReson::JET_Invalidate });
    assert_eq!(fault_of("-"), errorJson { errPos: 1, reson: errJsonReson::JET_Invalidate });
    assert_eq!(fault_of("1.e5"), errorJson { errPos: 2, reson: errJsonReson::JET_Invalidate });
    assert_eq!(fault_of("1e"), errorJson { errPos: 2, reson: errJsonReson::JET_Invalidate });
    assert_eq!(fault_of("1e5000"), errorJson { errPos: 0, reson: errJsonReson::JET_Invalidate });
}

#[test]
fn byte_order_mark_and_white_space() {
    let mut bytes = vec![0xEF, 0xBB, 0xBF];
    bytes.extend_from_slice(b" \t\r\n[ 1 , 2 ]\n");
    let tree = parseJson(bytes).unwrap();
    assert_eq!(serialize(&tree), "[1,2]");
    let mut bad = vec![0xEF, 0xBB, 0xBF];
    bad.extend_from_slice(b" x");
    assert_eq!(parseJson(bad).err(), Some(errorJson { errPos: 4, reson: errJsonReson::JET_NoStrStart }));
}

#[test]
fn numbers_of_each_width() {
    assert!(matches!(parse("0").unwrap(), DxValue::Int(0)));
    assert!(matches!(parse("-0").unwrap(), DxValue::Int(0)));
    assert!(matches!(parse("007").unwrap(), DxValue::Int(7)));
    assert!(matches!(parse("-9223372036854775808").unwrap(), DxValue::Int(isize::MIN) | DxValue::Int64(i64::MIN)));
    assert!(matches!(parse("9223372036854775808").unwrap(), DxValue::Double(_)));
    assert_eq!(serialize(&parse("9223372036854775808").unwrap()), "9223372036854775808.00");
    assert_eq!(serialize(&parse("1.5").unwrap()), "1.50");
    assert_eq!(serialize(&parse("-1.005").unwrap()), "-1.00");
    assert_eq!(serialize(&parse("1.015").unwrap()), "1.02");
    assert_eq!(serialize(&parse("0.125").unwrap()), "0.12");
    assert_eq!(serialize(&parse("0.1251").unwrap()), "0.13");
    assert_eq!(serialize(&parse("0.995").unwrap()), "1.00");
    assert_eq!(serialize(&parse("9.996").unwrap()), "10.00");
    assert_eq!(serialize(&parse("1e3").unwrap()), "1000.00");
    assert_eq!(serialize(&parse("12E-1").unwrap()), "1.20");
    assert_eq!(serialize(&parse("1.5e+2").unwrap()), "150.00");
    assert_eq!(serialize(&parse("-0.001").unwrap()), "-0.00");
    assert_eq!(serialize(&parse("5e-400").unwrap()), "0.00");
}

#[test]
fn strings_and_escapes() {
    let tree = parse("\"a\\\"b\\\\c\\/d\\b\\f\\n\\r\\t\\u0041\\u00e9\\ud83d\\ude00\"").unwrap();
    assert_eq!(tree.as_String(), "a\"b\\c/d\u{8}\u{c}\n\r\tA\u{e9}\u{1F600}");
    assert_eq!(serialize(&tree), "\"a\\\"b\\\\c/d\\b\\f\\n\\r\\tA\u{e9}\u{1F600}\"");
    let raw = parse("\"\u{4e0d}\u{5f97}\u{95f2}\"").unwrap();
    assert_eq!(raw.as_String(), "\u{4e0d}\u{5f97}\u{95f2}");
    assert_eq!(fault_of("\"\\ud83d\""), errorJson { errPos: 1, reson: errJsonReson::JET_Invalidate });
    assert_eq!(fault_of("\"\\ude00\""), errorJson { errPos: 1, reson: errJsonReson::JET_Invalidate });
    assert_eq!(parseJson(vec![0x22, 0xFF, 0x22]).err(), Some(errorJson { errPos: 0, reson: errJsonReson::JET_Invalidate }));
    let control = parse("\"\\u0001\"").unwrap();
    assert_eq!(serialize(&control), "\"\\u0001\"");
}

#[test]
fn literals() {
    assert!(matches!(parse("true").unwrap(), DxValue::Boolean(true)));
    assert!(matches!(parse("false").unwrap(), DxValue::Boolean(false)));
    assert!(matches!(parse("null").unwrap(), DxValue::Null));
    assert_eq!(serialize(&parse(" [true,false,null] ").unwrap()), "[true,false,null]");
    assert_eq!(serialize(&parse("{}").unwrap()), "{}");
    assert_eq!(serialize(&parse("[ ]").unwrap()), "[]");
}

#[test]
fn strings_must_be_well_formed_utf8() {
    let bad: [&[u8]; 5] = [
        &[0x22, 0xC0, 0x80, 0x22],
        &[0x22, 0xED, 0xA0, 0x80, 0x22],
        &[0x22, 0xF4, 0x90, 0x80, 0x80, 0x22],
        &[0x22, 0xE4, 0xB8, 0x22],
        &[0x22, 0x80, 0x22],
    ];
    for text in bad.iter() {
        assert_eq!(
            parseJson(text.to_vec()).err(),
            Some(errorJson { errPos: 0, reson: errJsonReson::JET_Invalidate })
        );
    }
    let good = parseJson(vec![0x5B, 0x22, 0xF4, 0x8F, 0xBF, 0xBF, 0x22, 0x5D]).unwrap();
    assert_eq!(good.string_byIndex(0, String::new()), "\u{10FFFF}");
    let key = parseJson(vec![0x7B, 0x22, 0xFF, 0x22, 0x3A, 0x31, 0x7D]);
    assert_eq!(key.err(), Some(errorJson { errPos: 1, reson: errJsonReson::JET_Invalidate }));
}
