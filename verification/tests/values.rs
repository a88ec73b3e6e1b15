use js_compressor::code_analysis::{
    ChildValuesList, InsideOf, JsScope, NewValueName, PotentialValue, Value, ValueList,
};

fn value(old_name: &[u8], new_name: NewValueName, position: usize) -> Value {
    Value {
        value_old_name: old_name.to_vec(),
        value_new_name: new_name,
        amount_occurences: 0,
        declaration_index: position,
        last_usage_index: position,
        function_index: None,
    }
}

#[test]
fn value_index_takes_bits_of_three_bytes() {
    let scope = JsScope::new(None, InsideOf::NormalCode);
    // 'a' % 64 = 33, 'b' % 4 = 2, 'c' % 4 = 3: 33 + 2 * 64 + 3 * 256.
    assert_eq!(scope.get_value_index(b"abc"), 929);
    assert_eq!(scope.get_value_index(b"A"), 1 + 64 + 256);
}

#[test]
fn lookup_finds_the_most_recent_value() {
    let mut list = ValueList::new();
    list.insert(value(b"bc", NewValueName::OneChar(66), 1), 929);
    list.insert(value(b"bc", NewValueName::OneChar(67), 5), 929);
    let found = list.lookup(b"abc", 929).unwrap();
    assert!(matches!(found.value_new_name, NewValueName::OneChar(67)));
    assert!(list.lookup(b"abd", 929).is_none());
}

#[test]
fn update_counts_a_use() {
    let mut list = ValueList::new();
    list.insert(value(b"bc", NewValueName::OneChar(66), 1), 929);
    let name = list.update(b"abc", 40, 929);
    assert!(matches!(name, Some(NewValueName::OneChar(66))));
    let found = list.lookup(b"abc", 929).unwrap();
    assert_eq!(found.amount_occurences, 1);
    assert_eq!(found.last_usage_index, 40);
    assert!(list.update(b"xyz", 41, 3).is_none());
}

#[test]
fn child_values_remember_the_last_use_of_letters() {
    let mut children = ChildValuesList::new();
    children.insert(value(b"bc", NewValueName::OneChar(66), 7), 929);
    children.insert(value(b"yz", NewValueName::OneChar(98), 9), 12);
    assert_eq!(children.new_value_last_position[1], Some(7));
    assert_eq!(children.new_value_last_position[27], Some(9));
    assert_eq!(children.new_value_last_position[0], None);
}

#[test]
fn consume_moves_the_values_most_recent_first() {
    let mut children = ChildValuesList::new();
    children.insert(value(b"a", NewValueName::OneChar(66), 1), 5);
    let mut other = ValueList::new();
    other.insert(value(b"b", NewValueName::OneChar(67), 2), 5);
    other.insert(value(b"c", NewValueName::OneChar(68), 3), 5);
    children.consume(other);
    let bucket = &children.list.0[5];
    assert_eq!(bucket.len(), 3);
    assert_eq!(bucket[0].value_old_name, b"a".to_vec());
    assert_eq!(bucket[1].value_old_name, b"c".to_vec());
    assert_eq!(bucket[2].value_old_name, b"b".to_vec());
    assert_eq!(children.new_value_last_position[1], Some(1));
}

#[test]
fn declared_values_get_the_next_letters() {
    let mut scope = JsScope::new(None, InsideOf::NormalCode);
    let first = scope.new_value(b"first");
    let second = scope.new_value(b"second");
    assert!(matches!(first.value_new_name, NewValueName::OneChar(65)));
    assert!(matches!(second.value_new_name, NewValueName::OneChar(66)));
    assert_eq!(scope.latest_available_one_byte, 66);
    let used = scope.update_value(b"first");
    assert!(matches!(used, Some(NewValueName::OneChar(65))));
}

#[test]
fn insert_tells_whether_the_old_name_is_there_already() {
    let mut list = ValueList::new();
    assert!(!list.insert(value(b"bc", NewValueName::OneChar(66), 1), 929));
    assert!(!list.insert(value(b"bd", NewValueName::OneChar(67), 2), 929));
    assert!(list.insert(value(b"bc", NewValueName::OneChar(68), 3), 929));
    assert!(!list.insert(value(b"bc", NewValueName::OneChar(69), 4), 930));
}

#[test]
fn a_blocked_letter_is_not_given() {
    let mut scope = JsScope::new(None, InsideOf::NormalCode);
    // `foo` was used, with `A` in use, inside the function `F` declared earlier.
    scope.potential_values_declared.push((
        NewValueName::OneChar(70),
        vec![PotentialValue::new(b"foo".to_vec(), false, vec![NewValueName::OneChar(65)])],
    ));
    // A call of `foo` in this scope itself blocks nothing.
    scope
        .potential_values_called
        .push(PotentialValue::new(b"foo".to_vec(), false, vec![NewValueName::OneChar(66)]));
    let declared = scope.new_value(b"foo");
    assert!(matches!(declared.value_new_name, NewValueName::OneChar(66)));
    let other = scope.new_value(b"bar");
    assert!(matches!(other.value_new_name, NewValueName::OneChar(67)));
}

#[test]
fn letters_blocked_in_a_row_are_all_passed() {
    let mut scope = JsScope::new(None, InsideOf::NormalCode);
    scope.potential_values_declared.push((NewValueName::OneChar(70), vec![PotentialValue::new(
        b"bar".to_vec(),
        true,
        vec![NewValueName::OneChar(66)],
    )]));
    scope.potential_values_declared.push((NewValueName::OneChar(71), vec![PotentialValue::new(
        b"foo".to_vec(),
        true,
        vec![NewValueName::OneChar(65), NewValueName::OneChar(66), NewValueName::OneChar(67)],
    )]));
    let declared = scope.new_value(b"foo");
    assert!(matches!(declared.value_new_name, NewValueName::OneChar(68)));
}
