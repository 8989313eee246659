use table_store::column::Column;
use table_store::entry::Entry;
use table_store::errors::ProjectionError;
use table_store::types::ColumnType;
use table_store::values::Value;

#[test]
fn equivalent_entries_are_key_equivalent() {
    let column1 = Column::key("C1", ColumnType::Text);
    let column2 = Column::new("C2", ColumnType::Text);

    let entry1_values = vec![
        (column1, Value::Text("Hello".to_owned())),
        (column2, Value::Text("World".to_owned())),
    ];
    let entry2_values = entry1_values.clone();

    let entry1 = Entry::new(entry1_values);
    let entry2 = Entry::new(entry2_values);

    assert!(entry1.key_eq(&entry2));
}

#[test]
fn key_equivalent_entries_are_key_equivalent() {
    let column1 = Column::key("C1", ColumnType::Text);
    let column2 = Column::new("C2", ColumnType::Text);

    let entry1_values = vec![
        (column1.clone(), Value::Text("Hello".to_owned())),
        (column2.clone(), Value::Text("World".to_owned())),
    ];
    let entry2_values = vec![
        (column1.clone(), Value::Text("Hello".to_owned())),
        (column2.clone(), Value::Text("Moon".to_owned())),
    ];

    let entry1 = Entry::new(entry1_values);
    let entry2 = Entry::new(entry2_values);

    assert!(entry1.key_eq(&entry2));
}

#[test]
fn no_keys_are_key_equivalent() {
    let column1 = Column::new("C1", ColumnType::Text);
    let column2 = Column::new("C2", ColumnType::Text);

    let entry1_values = vec![
        (column1.clone(), Value::Text("Hello".to_owned())),
        (column2.clone(), Value::Text("World".to_owned())),
    ];
    let entry2_values = vec![
        (column1.clone(), Value::Text("Hello".to_owned())),
        (column2.clone(), Value::Text("World".to_owned())),
    ];

    let entry1 = Entry::new(entry1_values);
    let entry2 = Entry::new(entry2_values);

    assert!(!entry1.key_eq(&entry2));
}

#[test]
fn different_columns_entries_are_not_key_equivalent() {
    let column1 = Column::key("C1", ColumnType::Text);
    let column2 = Column::key("C2", ColumnType::Text);
    let column3 = Column::new("C3", ColumnType::Integer);

    let entry1_values = vec![
        (column1.clone(), Value::Text("Hello".to_owned())),
        (column2.clone(), Value::Text("World".to_owned())),
    ];
    let entry2_values = vec![
        (column1.clone(), Value::Text("Hello".to_owned())),
        (column3.clone(), Value::Integer(16)),
    ];

    let entry1 = Entry::new(entry1_values);
    let entry2 = Entry::new(entry2_values);

    assert!(!entry1.key_eq(&entry2));
}

#[test]
fn key_different_entries_are_key_equivalent() {
    let column1 = Column::key("C1", ColumnType::Text);
    let column2 = Column::new("C2", ColumnType::Text);

    let entry1_values = vec![
        (column1.clone(), Value::Text("Hello".to_owned())),
        (column2.clone(), Value::Text("World".to_owned())),
    ];
    let entry2_values = vec![
        (column1.clone(), Value::Text("Bye".to_owned())),
        (column2.clone(), Value::Text("World".to_owned())),
    ];

    let entry1 = Entry::new(entry1_values);
    let entry2 = Entry::new(entry2_values);

    assert!(!entry1.key_eq(&entry2));
}

#[test]
fn get_key_values() {
    let column1 = Column::key("C1", ColumnType::Text);
    let column2 = Column::new("C2", ColumnType::Text);

    let entry_values = vec![
        (column1.clone(), Value::Text("Hello".to_owned())),
        (column2.clone(), Value::Text("World".to_owned())),
    ];
    let entry = Entry::new(entry_values);

    assert_eq!(entry.get_key_values(), vec![Value::Text("Hello".to_owned())])
}

#[test]
fn get_key_values_no_key() {
    let column1 = Column::new("C1", ColumnType::Text);
    let column2 = Column::new("C2", ColumnType::Text);

    let entry_values = vec![
        (column1.clone(), Value::Text("Hello".to_owned())),
        (column2.clone(), Value::Text("World".to_owned())),
    ];
    let entry = Entry::new(entry_values);

    assert_eq!(entry.get_key_values(), vec![])
}

#[test]
fn values_in_order_reorders() {
    let column1 = Column::key("C1", ColumnType::Integer);
    let column2 = Column::new("C2", ColumnType::Text);
    let entry = Entry::new(vec![
        (column1.clone(), Value::Integer(7)),
        (column2.clone(), Value::Text("x".to_owned())),
    ]);

    let reordered = entry.get_values_in_order(&vec![column2.clone(), column1.clone()]);
    assert_eq!(
        reordered,
        Ok(vec![Value::Text("x".to_owned()), Value::Integer(7)])
    );
}

#[test]
fn values_in_order_rejects_unknown_column() {
    let column1 = Column::key("C1", ColumnType::Integer);
    let other = Column::new("C9", ColumnType::Text);
    let entry = Entry::new(vec![(column1.clone(), Value::Integer(7))]);

    assert_eq!(
        entry.get_values_in_order(&vec![other]),
        Err(ProjectionError::NotASubset)
    );
}
