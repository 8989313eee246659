use table_store::column::Column;
use table_store::errors::{InsertError, ProjectionError};
use table_store::table::Table;
use table_store::types::ColumnType;
use table_store::values::Value;

#[test]
fn normal_new() {
    let column1 = Column::new("Test1", ColumnType::Integer);
    let column2 = Column::new("Test2", ColumnType::Text);

    assert!(Table::new(vec![column1, column2]).is_ok());
}

#[test]
fn new_with_duplicate_columns() {
    let column1 = Column::new("Test1", ColumnType::Integer);
    let column2 = Column::new("Test1", ColumnType::Text);

    assert!(Table::new(vec![column1, column2]).is_err());
}

#[test]
fn normal_insert() {
    let column1 = Column::key("Test1", ColumnType::Integer);
    let column2 = Column::new("Test2", ColumnType::Text);
    let columns = vec![column1, column2];

    let mut table = Table::new(columns).unwrap();

    assert!(table
        .insert(vec![Value::Integer(10), Value::Text("Hello".to_string())])
        .is_ok());
    assert!(table
        .insert(vec![Value::Integer(12), Value::Text("World".to_string())])
        .is_ok());
}

#[test]
fn duplicate_insert() {
    let column1 = Column::key("Test1", ColumnType::Integer);
    let column2 = Column::new("Test2", ColumnType::Text);
    let columns = vec![column1, column2];

    let mut table = Table::new(columns).unwrap();

    assert!(table
        .insert(vec![Value::Integer(10), Value::Text("Hello".to_string())])
        .is_ok());
    assert!(table
        .insert(vec![Value::Integer(10), Value::Text("World".to_string())])
        .is_err());
}

#[test]
fn wrong_type_insert() {
    let column1 = Column::key("Test1", ColumnType::Integer);
    let column2 = Column::new("Test2", ColumnType::Text);
    let columns = vec![column1, column2];

    let mut table = Table::new(columns).unwrap();

    assert!(table
        .insert(vec![Value::Text("Hello".to_string()), Value::Integer(10)])
        .is_err());
    assert!(table
        .insert(vec![Value::Text("Bye".to_string()), Value::Text("World".to_string())])
        .is_err());
}

#[test]
fn wrong_column_num_insert() {
    let column1 = Column::key("Test1", ColumnType::Integer);
    let column2 = Column::new("Test2", ColumnType::Text);
    let columns = vec![column1, column2];

    let mut table = Table::new(columns).unwrap();

    assert!(table.insert(vec![Value::Integer(10)]).is_err());
    assert!(table
        .insert(vec![
            Value::Integer(12),
            Value::Text("World".to_string()),
            Value::Text("Hello".to_string())
        ])
        .is_err());
}

#[test]
fn normal_remove() {
    let column1 = Column::key("Test1", ColumnType::Integer);
    let column2 = Column::new("Test2", ColumnType::Text);
    let columns = vec![column1, column2];

    let mut table = Table::new(columns).unwrap();

    assert!(table
        .insert(vec![Value::Integer(10), Value::Text("Hello".to_string())])
        .is_ok());
    assert!(table
        .insert(vec![Value::Integer(12), Value::Text("World".to_string())])
        .is_ok());

    assert!(table.remove(vec![Value::Integer(10)]));

    let entries = table.get_entries();
    assert_eq!(entries.len(), 1);
    assert_eq!(
        entries[0].get_values(),
        vec![Value::Integer(12), Value::Text("World".to_string())]
    );
}

#[test]
fn unknown_remove() {
    let column1 = Column::key("Test1", ColumnType::Integer);
    let column2 = Column::new("Test2", ColumnType::Text);
    let columns = vec![column1, column2];

    let mut table = Table::new(columns).unwrap();

    assert!(table
        .insert(vec![Value::Integer(10), Value::Text("Hello".to_string())])
        .is_ok());
    assert!(table
        .insert(vec![Value::Integer(12), Value::Text("World".to_string())])
        .is_ok());

    let table_clone = table.clone();

    assert!(!table.remove(vec![Value::Integer(1)]));

    assert_eq!(table, table_clone);
}

#[test]
fn project() {
    let column1 = Column::key("Test1", ColumnType::Integer);
    let column2 = Column::new("Test2", ColumnType::Text);
    let columns = vec![column1.clone(), column2.clone()];

    let mut table = Table::new(columns).unwrap();

    assert!(table
        .insert(vec![Value::Integer(10), Value::Text("Hello".to_string())])
        .is_ok());
    assert!(table
        .insert(vec![Value::Integer(12), Value::Text("World".to_string())])
        .is_ok());

    let table_sub1_opt = table.project(vec![column1]);
    let table_sub2_opt = table.project(vec![column2]);

    assert!(table_sub1_opt.is_ok());
    assert!(table_sub2_opt.is_ok());

    let table_sub1 = table_sub1_opt.unwrap();
    let table_sub2 = table_sub2_opt.unwrap();

    let table_sub1_values: Vec<i32> = table_sub1
        .get_entries()
        .iter()
        .map(|e| e.get_values().first().unwrap().clone().into_integer().unwrap())
        .collect();
    let table_sub2_values: Vec<String> = table_sub2
        .get_entries()
        .iter()
        .map(|e| e.get_values().first().unwrap().clone().into_text().unwrap())
        .collect();

    println!("{:?}", table);
    println!("{:?}", table_sub2_values);

    assert!(table_sub1_values == vec![10, 12]);
    assert!(table_sub2_values == vec!["Hello".to_string(), "World".to_string()]);
}

#[test]
fn insert_reports_exact_errors() {
    let column1 = Column::key("Id", ColumnType::Integer);
    let column2 = Column::new("Name", ColumnType::Text);
    let mut table = Table::new(vec![column1, column2]).unwrap();

    assert_eq!(
        table.insert(vec![Value::Integer(1)]),
        Err(InsertError::ColumnCountMismatch)
    );
    assert_eq!(
        table.insert(vec![Value::Text("x".to_string()), Value::Integer(1)]),
        Err(InsertError::TypeMismatch {
            index: 0,
            expected: ColumnType::Integer,
            actual: ColumnType::Text
        })
    );
    assert!(table
        .insert(vec![Value::Integer(10), Value::Text("Hello".to_string())])
        .is_ok());
    assert_eq!(
        table.insert(vec![Value::Integer(10), Value::Text("World".to_string())]),
        Err(InsertError::DuplicateKey)
    );
}

#[test]
fn no_key_columns_accept_duplicates() {
    let column1 = Column::new("A", ColumnType::Integer);
    let column2 = Column::new("B", ColumnType::Text);
    let mut table = Table::new(vec![column1, column2]).unwrap();

    let row = vec![Value::Integer(1), Value::Text("same".to_string())];
    assert!(table.insert(row.clone()).is_ok());
    assert!(table.insert(row.clone()).is_ok());
    assert!(table.insert(row).is_ok());

    assert_eq!(table.get_entries().len(), 3);
}

#[test]
fn remove_without_key_columns_removes_nothing() {
    let column1 = Column::new("A", ColumnType::Integer);
    let mut table = Table::new(vec![column1]).unwrap();
    table.insert(vec![Value::Integer(1)]).unwrap();

    // The arity matches (zero key columns, zero keys), but rows without key
    // columns are never key-equal, so nothing can ever match.
    assert!(!table.remove(vec![]));
    assert_eq!(table.get_entries().len(), 1);
}

#[test]
fn remove_with_wrong_key_count() {
    let column1 = Column::key("A", ColumnType::Integer);
    let mut table = Table::new(vec![column1]).unwrap();
    table.insert(vec![Value::Integer(1)]).unwrap();

    assert!(!table.remove(vec![Value::Integer(1), Value::Integer(2)]));
    assert!(!table.remove(vec![]));
    assert_eq!(table.get_entries().len(), 1);
}

#[test]
fn project_rejects_unknown_column() {
    let column1 = Column::key("A", ColumnType::Integer);
    let table = Table::new(vec![column1]).unwrap();

    let unknown = Column::new("B", ColumnType::Text);
    assert_eq!(table.project(vec![unknown]), Err(ProjectionError::NotASubset));
}

#[test]
fn project_drops_colliding_keys() {
    let column1 = Column::key("A", ColumnType::Integer);
    let column2 = Column::key("B", ColumnType::Text);
    let mut table = Table::new(vec![column1.clone(), column2.clone()]).unwrap();

    table
        .insert(vec![Value::Integer(1), Value::Text("same".to_string())])
        .unwrap();
    table
        .insert(vec![Value::Integer(2), Value::Text("same".to_string())])
        .unwrap();

    // Projected onto the second key column alone, both rows carry the same
    // key, so the second one is silently dropped.
    let projected = table.project(vec![column2]).unwrap();
    assert_eq!(projected.get_entries().len(), 1);
    assert_eq!(
        projected.get_entries()[0].get_values(),
        vec![Value::Text("same".to_string())]
    );
}
