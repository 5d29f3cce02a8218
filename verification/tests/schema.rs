//! Columns that properties make.
use geosetta::feature::Feature;
use geosetta::json::JsonValue;
use geosetta::schema::{infer_columns, property, Cell, ColumnType};

fn row(properties: Vec<(&str, JsonValue)>) -> Feature<i64, JsonValue> {
    Feature {
        geometry: None,
        properties: properties.into_iter().map(|(k, v)| (k.to_string(), v)).collect(),
    }
}

fn whole(text: &str) -> JsonValue {
    JsonValue::Number { text: text.into(), is_int: true }
}

#[test]
fn a_column_has_the_narrowest_type_of_its_values() {
    let rows = vec![
        row(vec![
            ("n", whole("1")),
            ("x", whole("2")),
            ("s", JsonValue::String("a".into())),
            ("b", JsonValue::Bool(true)),
        ]),
        row(vec![
            ("x", JsonValue::Number { text: "2.5".into(), is_int: false }),
            ("s", whole("3")),
            ("late", JsonValue::Null),
        ]),
    ];
    let columns = infer_columns(&rows);
    let types: Vec<(&str, ColumnType)> = columns.iter().map(|c| (c.name.as_str(), c.ty)).collect();
    assert_eq!(
        types,
        vec![
            ("n", ColumnType::Int64),
            ("x", ColumnType::Double),
            ("s", ColumnType::String),
            ("b", ColumnType::Bool),
            ("late", ColumnType::String),
        ]
    );
    assert_eq!(columns[0].values, vec![Cell::Int(1), Cell::Null]);
    assert_eq!(columns[1].values, vec![Cell::Double("2".into()), Cell::Double("2.5".into())]);
    assert_eq!(columns[2].values, vec![Cell::Str("a".into()), Cell::Str("3".into())]);
    assert_eq!(columns[3].values, vec![Cell::Bool(true), Cell::Null]);
}

#[test]
fn a_property_is_found_by_name() {
    let f = row(vec![("a", whole("1")), ("a", whole("2"))]);
    assert_eq!(property(&f, "a"), Some(&whole("1")));
    assert_eq!(property(&f, "z"), None);
}
