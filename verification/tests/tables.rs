use numerical_value_analysis::table::Table;

#[test]
fn a_new_table_is_empty() {
    let table: Table<i32> = Table::new();
    assert_eq!(table.len(), 0);
    assert_eq!(table.get(&"a".to_string()), None);
    assert_eq!(table.find(&"a".to_string()), None);
}

#[test]
fn a_new_name_goes_to_the_end() {
    let mut table = Table::new();
    table.insert("b".to_string(), 1);
    table.insert("a".to_string(), 2);
    table.insert("c".to_string(), 3);
    assert_eq!(table.len(), 3);
    assert_eq!(table.name_at(0), "b");
    assert_eq!(table.name_at(1), "a");
    assert_eq!(table.name_at(2), "c");
    assert_eq!(*table.item_at(1), 2);
    assert_eq!(table.find(&"c".to_string()), Some(2));
    assert_eq!(table.get(&"a".to_string()), Some(&2));
    assert_eq!(table.get(&"d".to_string()), None);
}

#[test]
fn a_name_that_is_present_keeps_its_place() {
    let mut table = Table::new();
    table.insert("b".to_string(), 1);
    table.insert("a".to_string(), 2);
    table.insert("b".to_string(), 7);
    assert_eq!(table.len(), 2);
    assert_eq!(table.name_at(0), "b");
    assert_eq!(table.get(&"b".to_string()), Some(&7));
    assert_eq!(table.get(&"a".to_string()), Some(&2));
}

#[test]
fn names_are_told_apart_by_every_character() {
    let mut table = Table::new();
    table.insert("ab".to_string(), 1);
    table.insert("a".to_string(), 2);
    table.insert("".to_string(), 3);
    table.insert("aB".to_string(), 4);
    assert_eq!(table.len(), 4);
    assert_eq!(table.get(&"ab".to_string()), Some(&1));
    assert_eq!(table.get(&"a".to_string()), Some(&2));
    assert_eq!(table.get(&"".to_string()), Some(&3));
    assert_eq!(table.get(&"aB".to_string()), Some(&4));
    assert_eq!(table.get(&"b".to_string()), None);
}
