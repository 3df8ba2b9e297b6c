use docfmt::DataValue;

fn text(s: &str) -> DataValue {
    DataValue::Text(String::from(s))
}

fn mapping(pairs: Vec<(&str, DataValue)>) -> DataValue {
    DataValue::Mapping(pairs.into_iter().map(|(k, v)| (String::from(k), v)).collect())
}

#[test]
fn merge_null_deletes_key() {
    let a = mapping(vec![(
        "a",
        mapping(vec![("x", DataValue::Int(1)), ("y", DataValue::Int(2))]),
    )]);
    let b = mapping(vec![("a", mapping(vec![("x", DataValue::Null)]))]);
    let merged = DataValue::merge(a, b);
    let expected = mapping(vec![("a", mapping(vec![("y", DataValue::Int(2))]))]);
    assert_eq!(merged, expected);
}

#[test]
fn merge_replaces_sequences_wholesale() {
    let a = mapping(vec![(
        "a",
        DataValue::Sequence(vec![DataValue::Int(1), DataValue::Int(2)]),
    )]);
    let b = mapping(vec![("a", DataValue::Sequence(vec![DataValue::Int(3)]))]);
    let merged = DataValue::merge(a, b);
    let expected = mapping(vec![("a", DataValue::Sequence(vec![DataValue::Int(3)]))]);
    assert_eq!(merged, expected);
}

#[test]
fn merge_later_file_takes_precedence() {
    let base = mapping(vec![]);
    let f1 = mapping(vec![("k", DataValue::Int(1)), ("only1", text("a"))]);
    let f2 = mapping(vec![("k", DataValue::Int(2))]);
    let merged = docfmt::merge_all(base, vec![f1, f2]);
    let expected = mapping(vec![("k", DataValue::Int(2)), ("only1", text("a"))]);
    assert_eq!(merged, expected);
}

#[test]
fn merge_scalar_replaces_mapping() {
    let a = mapping(vec![("a", mapping(vec![("x", DataValue::Int(1))]))]);
    let b = mapping(vec![("a", DataValue::Bool(true))]);
    let merged = DataValue::merge(a, b);
    let expected = mapping(vec![("a", DataValue::Bool(true))]);
    assert_eq!(merged, expected);
}

#[test]
fn merge_non_mapping_incoming_replaces_wholesale() {
    let a = mapping(vec![("a", DataValue::Int(1))]);
    let b = text("flat");
    let merged = DataValue::merge(a, b);
    assert_eq!(merged, text("flat"));
}

#[test]
fn merge_new_key_with_null_inside_is_cleaned() {
    let a = mapping(vec![]);
    let b = mapping(vec![(
        "fresh",
        mapping(vec![("kept", DataValue::Int(7)), ("gone", DataValue::Null)]),
    )]);
    let merged = DataValue::merge(a, b);
    let expected = mapping(vec![("fresh", mapping(vec![("kept", DataValue::Int(7))]))]);
    assert_eq!(merged, expected);
}

#[test]
fn read_data() {
    let cfg = docfmt::Config {
        template: String::from("tests/templates/main.hbs"),
        output: String::from("tests/output/main.md"),
        force: false,
        follow: false,
        strict: false,
        verbose: false,
        includes: vec![],
        extensions: vec![],
        datafiles: vec![
            String::from("tests/data/data1.toml"),
            String::from("tests/data/data2.json"),
        ],
        data: mapping(vec![]),
    };
    // the first file declares the cities, the person, and a title; the
    // second only a title, which takes precedence
    let data1 = mapping(vec![
        ("cities", DataValue::Sequence(vec![text("colombo")])),
        ("person", mapping(vec![("firstName", text("Jane"))])),
        ("title", text("This is a title")),
    ]);
    let data2 = mapping(vec![("title", text("This is another title"))]);
    let merged = cfg.read_data(vec![data1, data2]);
    let expected = mapping(vec![
        ("cities", DataValue::Sequence(vec![text("colombo")])),
        ("person", mapping(vec![("firstName", text("Jane"))])),
        ("title", text("This is another title")),
    ]);
    assert_eq!(merged, expected);
}

#[test]
fn data_format_by_extension() {
    assert_eq!(
        docfmt::data_format("tests/data/data1.toml"),
        Ok(docfmt::DataFormat::Toml)
    );
    assert_eq!(
        docfmt::data_format("tests/data/data2.json"),
        Ok(docfmt::DataFormat::Json)
    );
    assert_eq!(
        docfmt::data_format("tests/data/data3.yaml"),
        Err(docfmt::DataError::UnsupportedDataFormat)
    );
    assert_eq!(
        docfmt::data_format("noextension"),
        Err(docfmt::DataError::UnsupportedDataFormat)
    );
    // comparison is exact and case-sensitive
    assert_eq!(
        docfmt::data_format("data.JSON"),
        Err(docfmt::DataError::UnsupportedDataFormat)
    );
}
