use amqprs::ByteArray;
use amqprs::DecimalValue;
use amqprs::Error;
use amqprs::FieldArray;
use amqprs::FieldTable;
use amqprs::FieldValue;
use amqprs::LongStr;
use amqprs::ShortStr;

fn name(s: &str) -> ShortStr {
    s.try_into().unwrap()
}

#[test]
fn decimal_new_and_display() {
    let d = DecimalValue::new(3, 123456);
    assert_eq!(d.scale(), 3);
    assert_eq!(d.value(), 123456);
    assert_eq!(d.to_string(), "Decimal(3, 123456)");
    assert_eq!(DecimalValue::new(0, 0).to_string(), "Decimal(0, 0)");
    assert_eq!(
        DecimalValue::new(255, i32::MIN).to_string(),
        "Decimal(255, -2147483648)"
    );
    assert_eq!(
        DecimalValue::new(10, i32::MAX).to_string(),
        "Decimal(10, 2147483647)"
    );
    assert_eq!(d.clone(), d);
}

#[test]
fn byte_array_conversions_and_display() {
    let a = ByteArray::try_from(vec![1u8, 20, 255, 0]).unwrap();
    assert_eq!(a.to_string(), "[1, 20, 255, 0]");
    assert_eq!(a.clone(), a);
    let back: Vec<u8> = a.into();
    assert_eq!(back, vec![1u8, 20, 255, 0]);
    let empty = ByteArray::try_from(Vec::new()).unwrap();
    assert_eq!(empty.to_string(), "[]");
    assert_eq!(
        ByteArray::try_from(vec![7u8]).unwrap().to_string(),
        format!("{:?}", vec![7u8])
    );
}

#[test]
fn field_value_bool_round_trip() {
    let x: FieldValue = true.into();
    assert_eq!(x, FieldValue::t(true));
    let y: bool = x.try_into().unwrap();
    assert!(y);
    let r: Result<bool, Error> = FieldValue::I(1).try_into();
    assert_eq!(r, Err(Error::Message("not a bool".to_string())));
}

#[test]
fn field_value_table_round_trip() {
    let mut t = FieldTable::new();
    t.insert(name("k"), FieldValue::B(7));
    let v: FieldValue = t.clone().into();
    let back: FieldTable = v.try_into().unwrap();
    assert_eq!(back, t);
    let r: Result<FieldTable, Error> = FieldValue::V.try_into();
    assert_eq!(r, Err(Error::Message("not a FieldTable".to_string())));
}

#[test]
fn field_value_long_str_and_string() {
    let s: LongStr = "text".try_into().unwrap();
    let v: FieldValue = s.clone().into();
    let back: LongStr = v.clone().try_into().unwrap();
    assert_eq!(back, s);
    let text: String = v.try_into().unwrap();
    assert_eq!(text, "text");
    assert_eq!(
        FieldValue::from_string(String::from("abc")),
        FieldValue::S("abc".try_into().unwrap())
    );
    let w = FieldValue::from_str("xyz");
    let t: String = w.try_into().unwrap();
    assert_eq!(t, "xyz");
    let e: Result<LongStr, Error> = FieldValue::t(false).try_into();
    assert_eq!(e, Err(Error::Message("not a LongStr".to_string())));
    let e: Result<String, Error> = FieldValue::T(5).try_into();
    assert_eq!(e, Err(Error::Message("not a LongStr".to_string())));
}

#[test]
fn field_value_clone() {
    let mut t = FieldTable::new();
    t.insert(name("a"), FieldValue::A(FieldArray::try_from(vec![FieldValue::l(-3)]).unwrap()));
    let v = FieldValue::F(t);
    assert_eq!(v.clone(), v);
    let d = FieldValue::d(2.5f64.to_bits());
    assert_eq!(d.clone(), d);
}

#[test]
fn field_array_conversions() {
    let empty = FieldArray::new();
    let items: Vec<FieldValue> = empty.into();
    assert!(items.is_empty());
    let arr = FieldArray::try_from(vec![FieldValue::t(true), FieldValue::V]).unwrap();
    assert_eq!(arr.clone(), arr);
    let back: Vec<FieldValue> = arr.into();
    assert_eq!(back, vec![FieldValue::t(true), FieldValue::V]);
}

#[test]
fn field_array_layout() {
    let items = vec![String::from("a")];
    assert_eq!(FieldArray::format_items(&items), "[ a ]");
    let items = vec![String::from("a"), String::from("b"), String::from("c")];
    assert_eq!(FieldArray::format_items(&items), "[ a, b, c ]");
}

#[test]
fn test_field_array_display() {
    let field_arr = FieldArray::try_from(vec![
        FieldValue::t(true),
        FieldValue::D(DecimalValue::new(3, 123456)),
    ])
    .unwrap();
    assert_eq!(
        "[ true, Decimal(3, 123456) ]",
        FieldValue::A(field_arr).to_text(&vec![], &vec![])
    );
}

#[test]
fn test_field_table_display() {
    let mut table = FieldTable::new();
    table.insert(
        "Cash".try_into().unwrap(),
        FieldValue::D(DecimalValue::new(3, 123456)),
    );
    assert_eq!(
        "{ Cash: Decimal(3, 123456) }",
        FieldValue::F(table).to_text(&vec![], &vec![])
    );
}

#[test]
fn field_value_text_of_each_kind() {
    let none32: Vec<(u32, String)> = vec![];
    let none64: Vec<(u64, String)> = vec![];
    let text = |v: FieldValue| v.to_text(&none32, &none64);
    assert_eq!(text(FieldValue::t(false)), "false");
    assert_eq!(text(FieldValue::b(-128)), "-128");
    assert_eq!(text(FieldValue::B(255)), "255");
    assert_eq!(text(FieldValue::s(-300)), "-300");
    assert_eq!(text(FieldValue::u(65535)), "65535");
    assert_eq!(text(FieldValue::I(i32::MIN)), "-2147483648");
    assert_eq!(text(FieldValue::i(u32::MAX)), "4294967295");
    assert_eq!(text(FieldValue::l(i64::MIN)), "-9223372036854775808");
    assert_eq!(text(FieldValue::T(u64::MAX)), "18446744073709551615");
    assert_eq!(text(FieldValue::V), "()");
    assert_eq!(text(FieldValue::S("hi".try_into().unwrap())), "hi");
    assert_eq!(text(FieldValue::x(ByteArray::try_from(vec![1u8, 2]).unwrap())), "[1, 2]");
    let ints = FieldArray::try_from(vec![FieldValue::I(1), FieldValue::I(-2), FieldValue::I(3)]).unwrap();
    assert_eq!(text(FieldValue::A(ints)), "[ 1, -2, 3 ]");
}

#[test]
fn field_value_text_of_floats_and_nesting() {
    let f32s = vec![(1.5f32.to_bits(), String::from("1.5"))];
    let f64s = vec![(0.25f64.to_bits(), String::from("0.25"))];
    let inner = FieldArray::try_from(vec![FieldValue::f(1.5f32.to_bits()), FieldValue::d(0.25f64.to_bits())]).unwrap();
    let mut t = FieldTable::new();
    t.insert(name("b"), FieldValue::A(inner));
    t.insert(name("a"), FieldValue::u(7));
    assert_eq!(FieldValue::F(t).to_text(&f32s, &f64s), "{ a: 7, b: [ 1.5, 0.25 ] }");
    // a float without a given text shows as the empty text
    assert_eq!(FieldValue::f(2.0f32.to_bits()).to_text(&f32s, &f64s), "");
}

#[test]
fn field_value_has_text() {
    assert!(FieldValue::V.has_text());
    assert!(!FieldValue::A(FieldArray::new()).has_text());
    assert!(!FieldValue::F(FieldTable::new()).has_text());
    let mut t = FieldTable::new();
    t.insert(name("k"), FieldValue::A(FieldArray::new()));
    assert!(!FieldValue::F(t).has_text());
    let arr = FieldArray::try_from(vec![FieldValue::V]).unwrap();
    assert!(FieldValue::A(arr).has_text());
}

#[test]
fn field_value_clone_is_deep() {
    let mut inner = FieldTable::new();
    inner.insert(name("x"), FieldValue::S("deep".try_into().unwrap()));
    let arr = FieldArray::try_from(vec![FieldValue::F(inner), FieldValue::x(ByteArray::try_from(vec![9u8]).unwrap())]).unwrap();
    let v = FieldValue::A(arr);
    let c = v.clone();
    assert_eq!(c, v);
    assert_eq!(c.to_text(&vec![], &vec![]), "[ { x: deep }, [9] ]");
}

#[test]
fn field_table_layout_of_several_entries() {
    let entries = vec![
        (String::from("a"), String::from("1")),
        (String::from("b"), String::from("true")),
    ];
    assert_eq!(FieldTable::format_entries(&entries), "{ a: 1, b: true }");
}

#[test]
fn field_table_insert_get_remove() {
    let mut t = FieldTable::new();
    assert_eq!(t.get(&name("x")), None);
    assert_eq!(t.insert(name("x"), FieldValue::I(1)), None);
    assert_eq!(t.insert(name("y"), FieldValue::I(2)), None);
    assert_eq!(t.get(&name("x")), Some(&FieldValue::I(1)));
    assert_eq!(t.insert(name("x"), FieldValue::I(3)), Some(FieldValue::I(1)));
    assert_eq!(t.get(&name("x")), Some(&FieldValue::I(3)));
    assert_eq!(t.get(&name("y")), Some(&FieldValue::I(2)));
    assert_eq!(t.remove(&name("x")), Some(FieldValue::I(3)));
    assert_eq!(t.get(&name("x")), None);
    assert_eq!(t.remove(&name("x")), None);
    assert_eq!(t.get(&name("y")), Some(&FieldValue::I(2)));
}

#[test]
fn field_table_equality_ignores_insertion_order() {
    let mut a = FieldTable::new();
    a.insert(name("beta"), FieldValue::u(2));
    a.insert(name("alpha"), FieldValue::u(1));
    a.insert(name("alp"), FieldValue::u(0));
    let mut b = FieldTable::default();
    b.insert(name("alp"), FieldValue::u(0));
    b.insert(name("alpha"), FieldValue::u(1));
    b.insert(name("beta"), FieldValue::u(2));
    assert_eq!(a, b);
    let names: Vec<String> = a.into_entries().into_iter().map(|(k, _)| k.to_string()).collect();
    assert_eq!(names, vec!["alp", "alpha", "beta"]);
}

#[test]
fn field_table_names_are_compared_by_text() {
    let mut t = FieldTable::new();
    t.insert(name("é"), FieldValue::V);
    t.insert(name("e"), FieldValue::V);
    t.insert(name("z"), FieldValue::V);
    assert_eq!(t.get(&name("é")), Some(&FieldValue::V));
    let names: Vec<String> = t.clone().into_entries().into_iter().map(|(k, _)| k.to_string()).collect();
    assert_eq!(names, vec!["e", "z", "é"]);
}

#[test]
fn length_prefixes() {
    let a = ByteArray::try_from(vec![1u8, 2, 3]).unwrap();
    assert_eq!(a.len(), 3);
    assert_eq!(a.clone().len(), 3);
    let arr = FieldArray::try_from(vec![FieldValue::V, FieldValue::V]).unwrap();
    assert_eq!(arr.len(), 2);
    assert_eq!(FieldArray::new().len(), 0);
}

#[test]
fn decimal_equality() {
    assert_eq!(DecimalValue::new(2, -5), DecimalValue::new(2, -5));
    assert_ne!(DecimalValue::new(2, -5), DecimalValue::new(3, -5));
    assert_ne!(DecimalValue::new(2, -5), DecimalValue::new(2, 5));
}

#[test]
fn try_from_field_value() {
    assert_eq!(bool::try_from(FieldValue::t(true)), Ok(true));
    assert_eq!(
        bool::try_from(FieldValue::B(1)),
        Err(Error::Message("not a bool".to_string()))
    );
    let s: LongStr = "v".try_into().unwrap();
    assert_eq!(LongStr::try_from(FieldValue::S(s.clone())), Ok(s));
    assert_eq!(String::try_from(FieldValue::from_str("w")), Ok(String::from("w")));
    assert_eq!(
        FieldTable::try_from(FieldValue::V),
        Err(Error::Message("not a FieldTable".to_string()))
    );
}
