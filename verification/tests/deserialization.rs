use table_store::column::Column;
use table_store::errors::{DecodeError, InsertError, SchemaError};
use table_store::serializer::Serializable;
use table_store::table::Table;
use table_store::types::ColumnType;
use table_store::values::Value;

fn create_test_table() -> Table {
    let column1 = Column::key("C1", ColumnType::Integer);
    let column2 = Column::new("C2", ColumnType::Text);
    let columns = vec![column1, column2];

    Table::new(columns).unwrap()
}

fn create_test_table_with_comma() -> Table {
    let column1 = Column::key("C,1", ColumnType::Integer);
    let column2 = Column::new("C2,", ColumnType::Text);
    let columns = vec![column1, column2];

    Table::new(columns).unwrap()
}

fn deserialization_equal(table: Table) -> bool {
    let serialized = table.serialize();

    let deserialized = Table::deserialize(serialized);

    if deserialized.is_err() {
        return false;
    }

    table == deserialized.unwrap()
}

#[test]
fn deserialize_no_data() {
    let table = create_test_table();

    assert!(deserialization_equal(table));
}

#[test]
fn deserialize_data() {
    let mut table = create_test_table();

    table
        .insert(vec![Value::Integer(10), Value::Text("Hello".to_owned())])
        .unwrap();
    table
        .insert(vec![Value::Integer(20), Value::Text("World".to_owned())])
        .unwrap();

    assert!(deserialization_equal(table));
}

#[test]
fn deserialize_with_comma_no_data() {
    let table = create_test_table_with_comma();

    assert!(deserialization_equal(table));
}

#[test]
fn deserialize_with_comma_data() {
    let mut table = create_test_table_with_comma();

    table
        .insert(vec![Value::Integer(10), Value::Text("He,llo".to_owned())])
        .unwrap();
    table
        .insert(vec![Value::Integer(20), Value::Text("Wor,ld".to_owned())])
        .unwrap();

    assert!(deserialization_equal(table));
}

#[test]
fn deserialize_special_characters_round_trip() {
    // Quotes and backslashes inside values survive the codec, and so do
    // values that consist of escapes only.
    let mut table = create_test_table();

    table
        .insert(vec![Value::Integer(1), Value::Text("He said \"hi\"".to_owned())])
        .unwrap();
    table
        .insert(vec![Value::Integer(2), Value::Text("back\\slash".to_owned())])
        .unwrap();
    table
        .insert(vec![Value::Integer(3), Value::Text("\\,".to_owned())])
        .unwrap();
    table
        .insert(vec![Value::Integer(4), Value::Text("".to_owned())])
        .unwrap();

    assert!(deserialization_equal(table));
}

#[test]
fn deserialize_integer_limits_round_trip() {
    let mut table = create_test_table();

    table
        .insert(vec![Value::Integer(i32::MIN), Value::Text("low".to_owned())])
        .unwrap();
    table
        .insert(vec![Value::Integer(i32::MAX), Value::Text("high".to_owned())])
        .unwrap();

    assert!(deserialization_equal(table));
}

#[test]
fn deserialize_empty_schema_round_trip() {
    let table = Table::new(vec![]).unwrap();

    assert!(deserialization_equal(table));
}

#[test]
fn deserialize_empty_input() {
    assert_eq!(
        Table::deserialize("".to_owned()),
        Err(DecodeError::EmptyInput)
    );
}

#[test]
fn deserialize_unknown_column_type() {
    assert_eq!(
        Table::deserialize("num \"C1\"\n".to_owned()),
        Err(DecodeError::UnknownColumnType)
    );
}

#[test]
fn deserialize_missing_column_name() {
    // No opening quote after the tag.
    assert_eq!(
        Table::deserialize("int C1\n".to_owned()),
        Err(DecodeError::MissingColumnName)
    );
    // No closing quote.
    assert_eq!(
        Table::deserialize("int \"C1\n".to_owned()),
        Err(DecodeError::MissingColumnName)
    );
}

#[test]
fn deserialize_duplicate_column_names() {
    assert_eq!(
        Table::deserialize("int \"A\",str \"A\"\n".to_owned()),
        Err(DecodeError::Schema(SchemaError::DuplicateColumnName))
    );
}

#[test]
fn deserialize_malformed_row() {
    // Too many fields for the one column.
    assert_eq!(
        Table::deserialize("int \"A\"\n\"1\",\"2\"\n".to_owned()),
        Err(DecodeError::MalformedRow)
    );
    // Too few fields for the two columns.
    assert_eq!(
        Table::deserialize("int \"A\",str \"B\"\n\"1\"\n".to_owned()),
        Err(DecodeError::MalformedRow)
    );
    // A field without quotes.
    assert_eq!(
        Table::deserialize("int \"A\"\n1\n".to_owned()),
        Err(DecodeError::MalformedRow)
    );
}

#[test]
fn deserialize_value_parse_failure() {
    assert_eq!(
        Table::deserialize("str \"A\",int \"B\"\n\"x\",\"nan\"\n".to_owned()),
        Err(DecodeError::ValueParseFailure { index: 1 })
    );
}

#[test]
fn deserialize_duplicate_key_row() {
    assert_eq!(
        Table::deserialize("key int \"A\"\n\"1\"\n\"1\"\n".to_owned()),
        Err(DecodeError::Insert(InsertError::DuplicateKey))
    );
}

#[test]
fn deserialize_stops_at_blank_line() {
    let decoded = Table::deserialize("key int \"A\"\n\"1\"\n\n\"2\"\n".to_owned()).unwrap();

    assert_eq!(decoded.get_entries().len(), 1);
}
