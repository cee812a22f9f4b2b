use playsync::parameter_dictionary::{ParameterDictionary, Value};

#[test]
fn parameter_dictionary_test_new() {
    let dict = ParameterDictionary::new();
    assert_eq!(dict.count(), 0);
}

#[test]
fn parameter_dictionary_test_with_capacity() {
    let dict = ParameterDictionary::with_capacity(10);
    assert_eq!(dict.count(), 0);
}

#[test]
fn test_set_get() {
    let mut dict = ParameterDictionary::new();
    dict.set(1, Value::Boolean(true));
    dict.set(2, Value::Int(42));
    dict.set(3, Value::String("hello".to_string()));

    match dict.get(1) {
        Some(Value::Boolean(val)) => assert_eq!(*val, true),
        _ => panic!("Expected Boolean(true)"),
    }

    match dict.get(2) {
        Some(Value::Int(val)) => assert_eq!(*val, 42),
        _ => panic!("Expected Int(42)"),
    }

    match dict.get(3) {
        Some(Value::String(val)) => assert_eq!(val, "hello"),
        _ => panic!("Expected String(\"hello\")"),
    }

    assert_eq!(dict.get(4), None);
}

#[test]
fn test_indexing() {
    let mut dict = ParameterDictionary::new();
    dict.set(1, Value::Boolean(true));

    match dict.index(1) {
        Value::Boolean(val) => assert_eq!(*val, true),
        _ => panic!("Expected Boolean(true)"),
    }

    dict.set(2, Value::Int(42));
    match dict.index(2) {
        Value::Int(val) => assert_eq!(*val, 42),
        _ => panic!("Expected Int(42)"),
    }
}

#[test]
fn test_contains_key() {
    let mut dict = ParameterDictionary::new();
    dict.set(1, Value::Boolean(true));

    assert!(dict.contains_key(1));
    assert!(!dict.contains_key(2));
}

#[test]
fn test_remove() {
    let mut dict = ParameterDictionary::new();
    dict.set(1, Value::Boolean(true));

    let removed = dict.remove(1);
    match removed {
        Some(Value::Boolean(val)) => assert_eq!(val, true),
        _ => panic!("Expected Boolean(true)"),
    }

    assert_eq!(dict.count(), 0);
    assert!(!dict.contains_key(1));
}

#[test]
fn test_clear() {
    let mut dict = ParameterDictionary::new();
    dict.set(1, Value::Boolean(true));
    dict.set(2, Value::Int(42));

    dict.clear();
    assert_eq!(dict.count(), 0);
    assert!(!dict.contains_key(1));
    assert!(!dict.contains_key(2));
}

#[test]
fn test_iteration() {
    let mut dict = ParameterDictionary::new();
    dict.set(1, Value::Boolean(true));
    dict.set(2, Value::Int(42));

    let mut count = 0;
    for (key, value) in dict.iter() {
        count += 1;
        match key {
            1 => match value {
                Value::Boolean(val) => assert_eq!(val, true),
                _ => panic!("Expected Boolean(true)"),
            },
            2 => match value {
                Value::Int(val) => assert_eq!(val, 42),
                _ => panic!("Expected Int(42)"),
            },
            _ => panic!("Unexpected key"),
        }
    }

    assert_eq!(count, 2);
}

#[test]
fn test_set_replaces_in_place() {
    let mut dict = ParameterDictionary::new();
    dict.set(1, Value::Int(1));
    dict.set(2, Value::Int(2));
    dict.set(1, Value::Int(9));

    assert_eq!(dict.count(), 2);
    assert_eq!(dict.get(1), Some(&Value::Int(9)));
    let entries = dict.iter();
    assert_eq!(entries[0].0, 1);
    assert_eq!(entries[1].0, 2);
}
