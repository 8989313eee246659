use table_store::column::Column;
use table_store::serializer::Serializable;
use table_store::table::Table;
use table_store::types::ColumnType;
use table_store::values::Value;

fn create_test_table() -> Table {
    let column1 = Column::key("C1", ColumnType::Integer);
    let column2 = Column::new("C2", ColumnType::Text);
    let columns = vec![column1, column2];

    Table::new(columns).unwrap()
}

fn create_test_table_with_comma() -> Table {
    let column1 = Column::key("C,1", ColumnType::Integer);
    let column2 = Column::new("C2,", ColumnType::Text);
    let columns = vec![column1, column2];

    Table::new(columns).unwrap()
}

#[test]
fn serialize_no_data() {
    let table = create_test_table();

    let serialized = r#"key int "C1",str "C2""#.to_owned() + "\n";

    assert!(table.serialize() == serialized);
}

#[test]
fn serialize_data() {
    let mut table = create_test_table();

    table
        .insert(vec![Value::Integer(10), Value::Text("Hello".to_owned())])
        .unwrap();
    table
        .insert(vec![Value::Integer(20), Value::Text("World".to_owned())])
        .unwrap();

    let serialized = r#"key int "C1",str "C2"
"10","Hello"
"20","World"
"#;

    assert!(table.serialize() == serialized);
}

#[test]
fn serialize_with_comma_no_data() {
    let table = create_test_table_with_comma();

    let serialized = r#"key int "C\,1",str "C2\,""#.to_owned() + "\n";

    assert!(table.serialize() == serialized);
}

#[test]
fn serialize_with_comma_data() {
    let mut table = create_test_table_with_comma();

    table
        .insert(vec![Value::Integer(10), Value::Text("H,ello".to_owned())])
        .unwrap();
    table
        .insert(vec![Value::Integer(20), Value::Text("Wor,ld".to_owned())])
        .unwrap();

    let serialized = r#"key int "C\,1",str "C2\,"
"10","H\,ello"
"20","Wor\,ld"
"#;

    assert!(table.serialize() == serialized);
}

#[test]
fn serialize_negative_integer() {
    let mut table = create_test_table();

    table
        .insert(vec![Value::Integer(-42), Value::Text("Below".to_owned())])
        .unwrap();

    let serialized = r#"key int "C1",str "C2"
"-42","Below"
"#;

    assert!(table.serialize() == serialized);
}

#[test]
fn serialize_empty_schema() {
    let table = Table::new(vec![]).unwrap();

    assert!(table.serialize() == "\n");
}
