use table_store::column::Column;
use table_store::types::ColumnType;

#[test]
fn equal() {
    let column1 = Column::new("Test1", ColumnType::Integer);
    let column2 = Column::new("Test1", ColumnType::Integer);

    assert_eq!(column1, column2);
}

#[test]
fn is_key_nequal() {
    let column1 = Column::new("Test1", ColumnType::Integer);
    let column2 = Column::key("Test1", ColumnType::Integer);

    assert_ne!(column1, column2);
}

#[test]
fn name_nequal() {
    let column1 = Column::new("Test1", ColumnType::Integer);
    let column2 = Column::new("Test2", ColumnType::Integer);

    assert_ne!(column1, column2);
}

#[test]
fn type_nequal() {
    let column1 = Column::new("Test1", ColumnType::Integer);
    let column2 = Column::new("Test1", ColumnType::Text);

    assert_ne!(column1, column2);
}

#[test]
fn get_type_matches_variant() {
    assert_eq!(Column::new("A", ColumnType::Integer).get_type(), ColumnType::Integer);
    assert_eq!(Column::key("B", ColumnType::Text).get_type(), ColumnType::Text);
}
