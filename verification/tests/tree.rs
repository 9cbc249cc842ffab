use rust_value::dxvalue::decimal::Decimal;
use rust_value::dxvalue::json::{parseJson, serialize};
use rust_value::dxvalue::{AccessError, DxValue, Key_Value, SetStatus, Slots};

fn sample() -> DxValue {
    let mut obj = DxValue::newObject();
    assert_eq!(obj.setKeyString("name", "\u{4e0d}\u{5f97}\u{95f2}"), Ok(SetStatus::Appended));
    assert_eq!(obj.setKeyValue("age", DxValue::Int(42)), Ok(SetStatus::Appended));
    assert_eq!(obj.setKeyValue("ok", DxValue::Boolean(true)), Ok(SetStatus::Appended));
    assert_eq!(obj.setKeyValue("count", DxValue::String("17".to_string())), Ok(SetStatus::Appended));
    assert_eq!(
        obj.setKeyValue("ratio", DxValue::Double(Decimal::from_f64_bits(2.75f64.to_bits()).unwrap())),
        Ok(SetStatus::Appended)
    );
    obj
}

#[test]
fn constructors_make_empty_containers() {
    assert_eq!(DxValue::newObject().len(), 0);
    assert_eq!(DxValue::newArray().len(), 0);
    assert_eq!(serialize(&DxValue::newObject()), "{}");
    assert_eq!(serialize(&DxValue::newArray()), "[]");
    assert_eq!(DxValue::Int(5).len(), 0);
    assert_eq!(DxValue::Null.len(), 0);
}

#[test]
fn members_keep_insertion_order() {
    let obj = sample();
    assert_eq!(obj.len(), 5);
    assert_eq!(
        serialize(&obj),
        "{\"name\":\"\u{4e0d}\u{5f97}\u{95f2}\",\"age\":42,\"ok\":true,\"count\":\"17\",\"ratio\":2.75}"
    );
}

#[test]
fn a_missing_key_gives_the_default() {
    let obj = sample();
    assert_eq!(obj.int_byName("missing", -5), -5);
    assert_eq!(obj.string_byName("missing", "dflt"), "dflt");
    assert_eq!(obj.bool_byName("missing", true), true);
    assert_eq!(obj.bool_byName("missing", false), false);
    assert_eq!(obj.text_byName("missing"), None);
    assert!(obj.peek_byName("missing").is_none());
    assert_eq!(DxValue::Int(3).int_byName("a", 9), 9);
    assert_eq!(DxValue::Null.string_byName("a", "x"), "x");
}

#[test]
fn an_index_out_of_range_gives_the_default() {
    let mut arr = DxValue::newArray();
    arr.setIndexValue(0, DxValue::Int(1)).unwrap();
    assert_eq!(arr.int_byIndex(1, 77), 77);
    assert_eq!(arr.string_byIndex(5, "none".to_string()), "none");
    assert_eq!(arr.bool_byIndex(usize::MAX, true), true);
    assert!(arr.peek_byIndex(1).is_none());
    assert!(arr.value_byIndex(1).is_none());
    assert_eq!(arr.int_byName("1", 8), 8);
    assert_eq!(arr.int_byName("x", 8), 8);
    assert_eq!(arr.len(), 1);
}

#[test]
fn set_then_get_returns_the_value() {
    let mut obj = sample();
    assert_eq!(obj.setKeyValue("age", DxValue::Int(43)), Ok(SetStatus::Replaced));
    assert_eq!(obj.int_byName("age", 0), 43);
    assert_eq!(obj.len(), 5);
    assert_eq!(obj.setKeyString("city", "Oslo"), Ok(SetStatus::Appended));
    assert_eq!(obj.string_byName("city", ""), "Oslo");
    let mut arr = DxValue::newArray();
    assert_eq!(arr.setIndexValue(0, DxValue::Int(10)), Ok(SetStatus::Appended));
    assert_eq!(arr.setIndexValue(1, DxValue::Int(11)), Ok(SetStatus::Appended));
    assert_eq!(arr.setIndexValue(1, DxValue::Int(12)), Ok(SetStatus::Replaced));
    assert_eq!(arr.int_byIndex(1, 0), 12);
    assert_eq!(arr.setKeyValue("0", DxValue::Int(9)), Ok(SetStatus::Replaced));
    assert_eq!(arr.int_byName("0", 0), 9);
    assert_eq!(arr.setKeyValue("2", DxValue::Int(13)), Ok(SetStatus::Appended));
    assert_eq!(arr.int_byName("2", 0), 13);
    assert_eq!(serialize(&arr), "[9,12,13]");
}

#[test]
fn array_writes_past_the_end_append_and_negative_ones_go_first() {
    let mut arr = DxValue::newArray();
    assert_eq!(arr.setIndexValue(7, DxValue::Int(1)), Ok(SetStatus::Appended));
    assert_eq!(arr.setIndexValue(-1, DxValue::Int(0)), Ok(SetStatus::InsertedFront));
    assert_eq!(arr.setIndexValue(isize::MIN, DxValue::Int(-1)), Ok(SetStatus::InsertedFront));
    assert_eq!(arr.setKeyValue("99", DxValue::Int(2)), Ok(SetStatus::Appended));
    assert_eq!(serialize(&arr), "[-1,0,1,2]");
    assert_eq!(arr.int_byIndex(7, -9), -9);
}

#[test]
fn setters_on_other_nodes_do_nothing() {
    let mut n = DxValue::Int(5);
    assert_eq!(n.setKeyValue("a", DxValue::Int(1)), Ok(SetStatus::NotApplicable));
    assert_eq!(n.setKeyString("a", "b"), Ok(SetStatus::NotApplicable));
    assert_eq!(n.setIndexValue(0, DxValue::Int(1)), Ok(SetStatus::NotApplicable));
    assert_eq!(serialize(&n), "5");
    let mut arr = DxValue::newArray();
    assert_eq!(arr.setKeyValue("first", DxValue::Int(1)), Ok(SetStatus::NotApplicable));
    assert_eq!(arr.setKeyValue("-1", DxValue::Int(1)), Ok(SetStatus::NotApplicable));
    assert_eq!(arr.len(), 0);
    let mut obj = sample();
    assert_eq!(obj.setIndexValue(5, DxValue::Int(1)), Ok(SetStatus::NotApplicable));
    assert_eq!(obj.setIndexValue(-1, DxValue::Int(1)), Ok(SetStatus::NotApplicable));
    assert_eq!(obj.setIndexValue(1, DxValue::Int(50)), Ok(SetStatus::Replaced));
    assert_eq!(obj.int_byName("age", 0), 50);
    assert_eq!(obj.len(), 5);
}

#[test]
fn only_the_first_of_two_equal_keys_is_seen() {
    let mut slots = Slots::new();
    slots.push(Key_Value::new_int("k", 1)).unwrap();
    slots.push(Key_Value::new_int("k", 2)).unwrap();
    let mut obj = DxValue::Object(slots);
    assert_eq!(obj.int_byName("k", 0), 1);
    assert_eq!(obj.setKeyValue("k", DxValue::Int(3)), Ok(SetStatus::Replaced));
    assert_eq!(serialize(&obj), "{\"k\":3,\"k\":2}");
    let parsed = parseJson(b"{\"k\":1,\"k\":2}".to_vec()).unwrap();
    assert_eq!(parsed.len(), 2);
    assert_eq!(parsed.int_byName("k", 0), 1);
}

#[test]
fn shared_views_allow_replacing_and_refuse_growing() {
    let mut obj = sample();
    assert!(obj.acquire_shared());
    assert_eq!(obj.setKeyValue("age", DxValue::Int(1)), Ok(SetStatus::Replaced));
    match obj.value_byName("ok") {
        Some(node) => node.setBool(false),
        None => panic!("member not found"),
    }
    assert_eq!(obj.bool_byName("ok", true), false);
    assert_eq!(obj.setKeyValue("fresh", DxValue::Int(1)), Err(AccessError::AliasingViolation));
    assert_eq!(obj.setKeyString("fresh", "x"), Err(AccessError::AliasingViolation));
    assert_eq!(obj.len(), 5);
    assert_eq!(obj.int_byName("fresh", -1), -1);
    assert!(obj.acquire_shared());
    obj.release_shared();
    assert_eq!(obj.setKeyValue("fresh", DxValue::Int(1)), Err(AccessError::AliasingViolation));
    obj.release_shared();
    assert_eq!(obj.setKeyValue("fresh", DxValue::Int(1)), Ok(SetStatus::Appended));
    obj.release_shared();
    assert_eq!(obj.len(), 6);

    let mut arr = DxValue::newArray();
    arr.setIndexValue(0, DxValue::Int(1)).unwrap();
    assert!(arr.acquire_shared());
    assert_eq!(arr.setIndexValue(0, DxValue::Int(2)), Ok(SetStatus::Replaced));
    assert_eq!(arr.setIndexValue(1, DxValue::Int(3)), Err(AccessError::AliasingViolation));
    assert_eq!(arr.setIndexValue(-1, DxValue::Int(3)), Err(AccessError::AliasingViolation));
    assert_eq!(arr.setKeyValue("1", DxValue::Int(3)), Err(AccessError::AliasingViolation));
    assert_eq!(serialize(&arr), "[2]");
    arr.release_shared();
    assert_eq!(arr.setIndexValue(1, DxValue::Int(3)), Ok(SetStatus::Appended));
    assert!(!DxValue::Int(1).acquire_shared());
}

#[test]
fn slots_count_their_views() {
    let mut slots: Slots<DxValue> = Slots::new();
    assert_eq!(slots.len(), 0);
    slots.push(DxValue::Int(1)).unwrap();
    slots.insert_front(DxValue::Int(0)).unwrap();
    assert!(slots.acquire_shared());
    assert_eq!(slots.push(DxValue::Int(2)), Err(AccessError::AliasingViolation));
    assert_eq!(slots.insert_front(DxValue::Int(2)), Err(AccessError::AliasingViolation));
    slots.replace(1, DxValue::Int(5));
    *slots.get_mut(0) = DxValue::Int(4);
    assert!(matches!(slots.get(0), DxValue::Int(4)));
    assert!(matches!(slots.get(1), DxValue::Int(5)));
    slots.release_shared();
    slots.release_shared();
    assert_eq!(slots.push(DxValue::Int(2)), Ok(()));
    assert_eq!(slots.len(), 3);
}

#[test]
fn integer_coercions() {
    assert_eq!(DxValue::Int(-7).as_int(), -7);
    assert_eq!(DxValue::Int32(-8).as_int(), -8);
    assert_eq!(DxValue::Int64(1 << 40).as_int(), (1i64 << 40) as isize);
    assert_eq!(DxValue::Boolean(true).as_int(), 1);
    assert_eq!(DxValue::Boolean(false).as_int(), 0);
    assert_eq!(DxValue::String("123".to_string()).as_int(), 123);
    assert_eq!(DxValue::String("+123".to_string()).as_int(), 123);
    assert_eq!(DxValue::String("-123".to_string()).as_int(), -123);
    assert_eq!(DxValue::String("12x".to_string()).as_int(), 0);
    assert_eq!(DxValue::String("".to_string()).as_int(), 0);
    assert_eq!(DxValue::String("-".to_string()).as_int(), 0);
    assert_eq!(DxValue::String(" 1".to_string()).as_int(), 0);
    assert_eq!(DxValue::String("99999999999999999999999".to_string()).as_int(), 0);
    assert_eq!(DxValue::String("-9223372036854775808".to_string()).int_or(5), "-9223372036854775808".parse::<isize>().unwrap_or(5));
    assert_eq!(DxValue::String("9223372036854775808".to_string()).int_or(5), "9223372036854775808".parse::<isize>().unwrap_or(5));
    assert_eq!(DxValue::String("abc".to_string()).int_or(5), 5);
    assert_eq!(DxValue::Null.as_int(), 0);
    assert_eq!(DxValue::Null.int_or(6), 6);
    assert_eq!(DxValue::newArray().int_or(6), 6);
    let d = Decimal::from_f64_bits((-2.75f64).to_bits()).unwrap();
    assert_eq!(DxValue::Double(d).as_int(), -2);
    let f = Decimal::from_f32_bits(7.9f32.to_bits()).unwrap();
    assert_eq!(DxValue::Float(f).as_int(), 7);
    let obj = sample();
    assert_eq!(obj.int_byName("count", 0), 17);
    assert_eq!(obj.int_byName("name", -3), -3);
    assert_eq!(obj.int_byName("ok", -3), 1);
    assert_eq!(obj.int_byName("ratio", -3), 2);
    assert_eq!(obj.int_byIndex(1, 0), 42);
}

#[test]
fn truth_coercions() {
    assert!(DxValue::Int(-1).as_bool());
    assert!(!DxValue::Int(0).as_bool());
    assert!(DxValue::Int32(2).as_bool());
    assert!(DxValue::Int64(-2).as_bool());
    assert!(!DxValue::Int64(0).as_bool());
    assert!(DxValue::Boolean(true).as_bool());
    assert!(DxValue::String("true".to_string()).as_bool());
    assert!(DxValue::String("TRUE".to_string()).as_bool());
    assert!(DxValue::String("tRuE".to_string()).as_bool());
    assert!(!DxValue::String("true ".to_string()).as_bool());
    assert!(!DxValue::String("yes".to_string()).as_bool());
    assert!(!DxValue::String("1".to_string()).as_bool());
    assert!(!DxValue::Null.as_bool());
    assert!(!DxValue::newObject().as_bool());
    assert!(DxValue::Double(Decimal::from_f64_bits(0.001f64.to_bits()).unwrap()).as_bool());
    assert!(!DxValue::Double(Decimal::from_f64_bits(0.0f64.to_bits()).unwrap()).as_bool());
    assert!(!DxValue::Float(Decimal::from_f32_bits((-1.0f32).to_bits()).unwrap()).as_bool());
    let obj = sample();
    assert!(obj.bool_byName("ok", false));
    assert!(obj.bool_byName("age", false));
    assert!(!obj.bool_byName("name", true));
    assert!(obj.bool_byIndex(2, false));
}

#[test]
fn text_coercions() {
    assert_eq!(DxValue::String("a\"b".to_string()).as_String(), "a\"b");
    assert_eq!(DxValue::Int(-12).as_String(), "-12");
    assert_eq!(DxValue::Int32(0).as_String(), "0");
    assert_eq!(DxValue::Int64(i64::MIN).as_String(), "-9223372036854775808");
    assert_eq!(DxValue::Boolean(true).as_String(), "true");
    assert_eq!(DxValue::Boolean(false).as_String(), "false");
    assert_eq!(DxValue::Null.as_String(), "null");
    assert_eq!(DxValue::Double(Decimal::from_f64_bits(3.14159f64.to_bits()).unwrap()).as_String(), "3.14");
    let obj = sample();
    assert_eq!(obj.string_byName("name", ""), "\u{4e0d}\u{5f97}\u{95f2}");
    assert_eq!(obj.string_byName("age", ""), "42");
    assert_eq!(obj.string_byName("ratio", ""), "2.75");
    assert_eq!(obj.string_byIndex(0, String::new()), "\u{4e0d}\u{5f97}\u{95f2}");
    assert_eq!(obj.text_byName("ok"), Some("true".to_string()));
    let mut arr = DxValue::newArray();
    arr.setIndexValue(0, sample()).unwrap();
    assert_eq!(arr.string_byIndex(0, String::new()), serialize(&sample()));
    assert_eq!(arr.string_byName("0", ""), serialize(&sample()));
    assert_eq!(arr.string_byName("+0", ""), serialize(&sample()));
}

#[test]
fn scalar_setters_keep_a_compatible_representation() {
    let mut n = DxValue::Int32(1);
    n.setInt(7);
    assert!(matches!(n, DxValue::Int32(7)));
    n.setInt((1isize << 31) + 5);
    assert!(matches!(n, DxValue::Int32(v) if v == ((1i64 << 31) + 5) as i32));
    let mut n = DxValue::Int64(1);
    n.setInt(-7);
    assert!(matches!(n, DxValue::Int64(-7)));
    let mut n = DxValue::Int(1);
    n.setInt(9);
    assert!(matches!(n, DxValue::Int(9)));
    let mut n = DxValue::String("x".to_string());
    n.setInt(9);
    assert!(matches!(n, DxValue::Int(9)));
    n.setString("text");
    assert_eq!(n.as_String(), "text");
    n.setString("other");
    assert_eq!(serialize(&n), "\"other\"");
    n.setBool(true);
    assert!(matches!(n, DxValue::Boolean(true)));
    n.setBool(false);
    assert!(matches!(n, DxValue::Boolean(false)));
    let mut n = sample();
    n.setBool(true);
    assert!(matches!(n, DxValue::Boolean(true)));
    assert_eq!(n.len(), 0);
}

#[test]
fn nested_nodes_can_be_reached_and_changed() {
    let mut tree = parseJson(b"{\"a\":{\"b\":[1,{\"c\":2}]}}".to_vec()).unwrap();
    {
        let a = tree.value_byName("a").unwrap();
        let b = a.value_byName("b").unwrap();
        let second = b.value_byIndex(1).unwrap();
        assert_eq!(second.setKeyValue("c", DxValue::Int(3)), Ok(SetStatus::Replaced));
        assert_eq!(second.setKeyString("d", "e"), Ok(SetStatus::Appended));
        assert_eq!(b.setIndexValue(0, DxValue::Null), Ok(SetStatus::Replaced));
    }
    assert_eq!(serialize(&tree), "{\"a\":{\"b\":[null,{\"c\":3,\"d\":\"e\"}]}}");
    let a = tree.peek_byName("a").unwrap();
    assert_eq!(a.peek_byName("b").unwrap().peek_byIndex(1).unwrap().int_byName("c", 0), 3);
    assert_eq!(tree.slot_of("a"), Some(0));
    assert_eq!(tree.slot_of("b"), None);
}

#[test]
fn member_constructors() {
    let mut slots = Slots::new();
    slots.push(Key_Value::new_int("i", -1)).unwrap();
    slots.push(Key_Value::new_int32("j", 2)).unwrap();
    slots.push(Key_Value::new_int64("k", 3)).unwrap();
    slots.push(Key_Value::new_string("s", "t")).unwrap();
    slots.push(Key_Value::new_bool("b", false)).unwrap();
    slots.push(Key_Value::new_Float("f", Decimal::from_f32_bits(0.5f32.to_bits()).unwrap())).unwrap();
    slots.push(Key_Value::new_Double("d", Decimal::from_f64_bits(0.25f64.to_bits()).unwrap())).unwrap();
    slots.push(Key_Value::new_value("n", DxValue::Null)).unwrap();
    let obj = DxValue::Object(slots);
    assert_eq!(
        serialize(&obj),
        "{\"i\":-1,\"j\":2,\"k\":3,\"s\":\"t\",\"b\":false,\"f\":0.50,\"d\":0.25,\"n\":null}"
    );
    let member = Key_Value::new_int("key", 1);
    assert_eq!(member.Key, "key");
    assert!(matches!(member.Value, DxValue::Int(1)));
}

#[test]
fn number_coercions() {
    fn shown(d: Option<Decimal>) -> Option<String> {
        d.map(|d| {
            let mut out = Vec::new();
            d.push_scientific(&mut out);
            String::from_utf8(out).unwrap()
        })
    }
    assert_eq!(shown(DxValue::Int(-12).as_decimal()), Some("-12e0".to_string()));
    assert_eq!(shown(DxValue::Int32(7).as_decimal()), Some("7e0".to_string()));
    assert_eq!(shown(DxValue::Int64(i64::MIN).as_decimal()), Some("-9223372036854775808e0".to_string()));
    assert_eq!(shown(DxValue::Boolean(true).as_decimal()), Some("1e0".to_string()));
    assert_eq!(shown(DxValue::Boolean(false).as_decimal()), Some("0e0".to_string()));
    let d = Decimal::new(false, b"75".to_vec(), -2).unwrap();
    assert_eq!(shown(DxValue::Double(d).as_decimal()), Some("75e-2".to_string()));
    let f = Decimal::new(true, b"5".to_vec(), -1).unwrap();
    assert_eq!(shown(DxValue::Float(f).as_decimal()), Some("-5e-1".to_string()));
    let exact = Decimal::from_f64_bits(0.75f64.to_bits()).unwrap();
    let text = shown(DxValue::Double(exact).as_decimal()).unwrap();
    assert_eq!(text.parse::<f64>().unwrap(), 0.75);
    assert_eq!(shown(DxValue::String("1.5".to_string()).as_decimal()), None);
    assert_eq!(shown(DxValue::Null.as_decimal()), None);
    assert_eq!(shown(DxValue::newArray().as_decimal()), None);
}

#[test]
fn float_setters_keep_the_width_of_a_float_node() {
    let half = || Decimal::from_f64_bits(0.5f64.to_bits()).unwrap();
    let mut n = DxValue::Float(Decimal::from_i64(1));
    n.setDouble(half());
    assert!(matches!(n, DxValue::Float(_)));
    assert_eq!(serialize(&n), "0.50");
    let mut n = DxValue::Double(Decimal::from_i64(1));
    n.setFloat(half());
    assert!(matches!(n, DxValue::Double(_)));
    let mut n = DxValue::Int(1);
    n.setFloat(half());
    assert!(matches!(n, DxValue::Float(_)));
    let mut n = DxValue::String("x".to_string());
    n.setDouble(half());
    assert!(matches!(n, DxValue::Double(_)));
    assert_eq!(n.as_String(), "0.50");
}
