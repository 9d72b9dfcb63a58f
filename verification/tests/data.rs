use vie::data::{encode_value, entry, serialize_data_types, DataType};
use vie::keyed::Keyed;
use vie::value::Value;

fn text(s: &str) -> Value {
    Value::Text(s.to_string())
}

fn mapping(entries: Vec<(&str, Value)>) -> Value {
    Value::Mapping(entries.into_iter().map(|(k, v)| (text(k), v)).collect())
}

fn tagged(tag: &str, value: Value) -> Value {
    Value::Tagged(tag.to_string(), Box::new(value))
}

fn named(name: &str, value: DataType) -> (String, DataType) {
    (name.to_string(), value)
}

fn listed(entries: Vec<(String, DataType)>) -> Option<Keyed<DataType>> {
    let mut list = Keyed::new();
    for (key, value) in entries {
        list.insert(key, value);
    }
    Some(list)
}

#[test]
fn scalar_kinds_are_written_bare() {
    assert_eq!(encode_value(&DataType::String("hi".into())), Some(text("hi")));
    assert_eq!(encode_value(&DataType::EnumItem("Server".into())), Some(text("Server")));
    assert_eq!(encode_value(&DataType::CFrame("0, 0, 0".into())), Some(text("0, 0, 0")));
    assert_eq!(encode_value(&DataType::BrickColor("Really red".into())), Some(text("Really red")));
    assert_eq!(encode_value(&DataType::ColorSequence("0 1 1 1".into())), Some(text("0 1 1 1")));
    assert_eq!(encode_value(&DataType::Rect("0, 0, 1, 1".into())), Some(text("0, 0, 1, 1")));
    assert_eq!(
        encode_value(&DataType::Double(1.5f64.to_bits())),
        Some(Value::Double(1.5f64.to_bits()))
    );
    assert_eq!(
        encode_value(&DataType::Float(0.25f32.to_bits())),
        Some(Value::Single(0.25f32.to_bits()))
    );
    assert_eq!(encode_value(&DataType::Integer(-7)), Some(Value::Integer(-7)));
    assert_eq!(encode_value(&DataType::Integer(i32::MAX)), Some(Value::Integer(2147483647)));
    assert_eq!(
        encode_value(&DataType::Integer64(i64::MIN)),
        Some(Value::Integer(-9223372036854775808))
    );
    assert_eq!(encode_value(&DataType::Boolean(true)), Some(Value::Bool(true)));
    assert_eq!(encode_value(&DataType::Boolean(false)), Some(Value::Bool(false)));
}

#[test]
fn nil_and_instance_are_not_written() {
    assert_eq!(encode_value(&DataType::Nil), None);
    assert_eq!(encode_value(&DataType::Instance), None);
}

#[test]
fn vector3_is_a_tagged_mapping_of_its_parts() {
    let v = DataType::Vector3([1.0f64.to_bits(), 2.0f64.to_bits(), 3.0f64.to_bits()]);
    let written = encode_value(&v).unwrap();
    assert_eq!(
        written,
        tagged(
            "Vector3",
            mapping(vec![
                ("x", Value::Double(1.0f64.to_bits())),
                ("y", Value::Double(2.0f64.to_bits())),
                ("z", Value::Double(3.0f64.to_bits())),
            ])
        )
    );
    let Value::Tagged(tag, inner) = written else { panic!("not tagged") };
    assert_eq!(tag, "Vector3");
    let Value::Mapping(fields) = *inner else { panic!("not a mapping") };
    let parts: Vec<f64> = fields
        .iter()
        .map(|(_, value)| match value {
            Value::Double(bits) => f64::from_bits(*bits),
            other => panic!("not a number: {other:?}"),
        })
        .collect();
    assert_eq!(parts, vec![1.0, 2.0, 3.0]);
}

#[test]
fn vector2_is_a_tagged_mapping_of_its_parts() {
    let v = DataType::Vector2([(-0.5f64).to_bits(), 8.0f64.to_bits()]);
    assert_eq!(
        encode_value(&v),
        Some(tagged(
            "Vector2",
            mapping(vec![
                ("x", Value::Double((-0.5f64).to_bits())),
                ("y", Value::Double(8.0f64.to_bits())),
            ])
        ))
    );
}

#[test]
fn color3_is_a_tagged_mapping_of_its_channels() {
    assert_eq!(
        encode_value(&DataType::Color3([255, 0, 128])),
        Some(tagged(
            "Color3",
            mapping(vec![
                ("red", Value::Integer(255)),
                ("green", Value::Integer(0)),
                ("blue", Value::Integer(128)),
            ])
        ))
    );
}

#[test]
fn udim_keeps_the_scale_and_truncates_the_offset() {
    let u = DataType::UDim([0.5f32.to_bits(), 12.75f32.to_bits()]);
    assert_eq!(
        encode_value(&u),
        Some(tagged(
            "UDim",
            mapping(vec![
                ("scale", Value::Single(0.5f32.to_bits())),
                ("offset", Value::Integer(12)),
            ])
        ))
    );
    let negative = DataType::UDim([1.0f32.to_bits(), (-3.9f32).to_bits()]);
    assert_eq!(
        encode_value(&negative),
        Some(tagged(
            "UDim",
            mapping(vec![
                ("scale", Value::Single(1.0f32.to_bits())),
                ("offset", Value::Integer(-3)),
            ])
        ))
    );
}

#[test]
fn udim2_is_a_tagged_pair_of_mappings() {
    let u = DataType::UDim2([
        [0.0f32.to_bits(), 100.0f32.to_bits()],
        [1.0f32.to_bits(), (-50.5f32).to_bits()],
    ]);
    assert_eq!(
        encode_value(&u),
        Some(tagged(
            "UDim2",
            Value::Sequence(vec![
                mapping(vec![
                    ("scale", Value::Single(0.0f32.to_bits())),
                    ("offset", Value::Integer(100)),
                ]),
                mapping(vec![
                    ("scale", Value::Single(1.0f32.to_bits())),
                    ("offset", Value::Integer(-50)),
                ]),
            ])
        ))
    );
}

#[test]
fn font_is_a_tagged_mapping_of_its_fields() {
    let f = DataType::Font {
        style: "Normal".into(),
        family: "rbxasset://fonts/families/Arial.json".into(),
        weight: "Bold".into(),
    };
    assert_eq!(
        encode_value(&f),
        Some(tagged(
            "Font",
            mapping(vec![
                ("style", text("Normal")),
                ("family", text("rbxasset://fonts/families/Arial.json")),
                ("weight", text("Bold")),
            ])
        ))
    );
}

#[test]
fn entries_are_keyed_by_text() {
    assert_eq!(entry("x", Value::Integer(1)), (text("x"), Value::Integer(1)));
}

#[test]
fn no_list_is_written_as_null() {
    assert_eq!(serialize_data_types(&None), Value::Null);
}

#[test]
fn an_empty_list_is_written_as_an_empty_mapping() {
    assert_eq!(serialize_data_types(&listed(vec![])), Value::Mapping(vec![]));
}

#[test]
fn entries_are_written_in_the_order_of_keys() {
    let list = listed(vec![
        named("Size", DataType::Integer(3)),
        named("Anchored", DataType::Boolean(true)),
        named("name", DataType::String("x".into())),
        named("Transparency", DataType::Double(0.5f64.to_bits())),
        named("CanCollide", DataType::Boolean(false)),
    ]);
    assert_eq!(
        serialize_data_types(&list),
        mapping(vec![
            ("Anchored", Value::Bool(true)),
            ("CanCollide", Value::Bool(false)),
            ("Size", Value::Integer(3)),
            ("Transparency", Value::Double(0.5f64.to_bits())),
            ("name", text("x")),
        ])
    );
}

#[test]
fn the_order_entries_come_in_does_not_show() {
    let forward = listed(vec![
        named("a", DataType::Integer(1)),
        named("b", DataType::Integer(2)),
        named("c", DataType::Integer(3)),
        named("d", DataType::Color3([1, 2, 3])),
    ]);
    let shuffled = listed(vec![
        named("c", DataType::Integer(3)),
        named("d", DataType::Color3([1, 2, 3])),
        named("a", DataType::Integer(1)),
        named("b", DataType::Integer(2)),
    ]);
    assert_eq!(serialize_data_types(&forward), serialize_data_types(&shuffled));
}

#[test]
fn entries_that_are_not_written_are_left_out_of_the_mapping() {
    let list = listed(vec![
        named("Parent", DataType::Instance),
        named("Value", DataType::Integer(1)),
        named("Adornee", DataType::Nil),
    ]);
    assert_eq!(serialize_data_types(&list), mapping(vec![("Value", Value::Integer(1))]));
    let nothing = listed(vec![named("Parent", DataType::Instance)]);
    assert_eq!(serialize_data_types(&nothing), Value::Mapping(vec![]));
}

#[test]
fn a_key_is_held_once() {
    let mut list = Keyed::new();
    assert_eq!(list.insert("k".to_string(), DataType::Integer(1)), None);
    assert_eq!(list.insert("a".to_string(), DataType::Integer(0)), None);
    assert_eq!(list.insert("k".to_string(), DataType::Integer(2)), Some(DataType::Integer(1)));
    assert_eq!(list.len(), 2);
    assert_eq!(
        list.entries(),
        &vec![named("k", DataType::Integer(2)), named("a", DataType::Integer(0))]
    );
    assert_eq!(
        serialize_data_types(&Some(list)),
        mapping(vec![("a", Value::Integer(0)), ("k", Value::Integer(2))])
    );
}

#[test]
fn what_is_under_a_key_can_be_taken_out() {
    let mut list = listed(vec![
        named("a", DataType::Integer(1)),
        named("b", DataType::Integer(2)),
        named("c", DataType::Integer(3)),
    ])
    .unwrap();
    assert_eq!(list.remove("b"), Some(DataType::Integer(2)));
    assert_eq!(list.remove("b"), None);
    assert_eq!(list.remove("z"), None);
    assert_eq!(
        list.into_entries(),
        vec![named("a", DataType::Integer(1)), named("c", DataType::Integer(3))]
    );
}

#[test]
fn a_copy_of_a_value_equals_it() {
    let v = tagged(
        "UDim2",
        Value::Sequence(vec![
            mapping(vec![("scale", Value::Single(1)), ("offset", Value::Integer(-1))]),
            Value::Null,
            Value::Bool(true),
            Value::Double(7),
        ]),
    );
    assert_eq!(v.duplicate(), v);
}

#[test]
fn value_builders_build_what_they_say() {
    assert_eq!(Value::text("a"), text("a"));
    assert_eq!(Value::tagged("T", Value::Null), Value::Tagged("T".into(), Box::new(Value::Null)));
    assert_eq!(Value::mapping(vec![]), Value::Mapping(vec![]));
    assert_eq!(Value::sequence(vec![Value::Null]), Value::Sequence(vec![Value::Null]));
}
