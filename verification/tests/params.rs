use submillisecond::params::{Params, ParamsKind};

fn collect(params: &Params) -> Vec<(String, String)> {
    let mut out = Vec::new();
    let mut it = params.iter();
    while let Some((k, v)) = it.next() {
        out.push((k.to_string(), v.to_string()));
    }
    out
}

fn expected(v: &[(&str, &str)]) -> Vec<(String, String)> {
    v.iter().map(|(k, v)| (k.to_string(), v.to_string())).collect()
}

#[test]
fn no_alloc() {
    assert!(matches!(Params::new().kind(), ParamsKind::Empty));
}

#[test]
fn heap_alloc() {
    let vec = vec![
        ("hello", "hello"),
        ("world", "world"),
        ("foo", "foo"),
        ("bar", "bar"),
        ("baz", "baz"),
    ];

    let mut params = Params::new();
    for (key, value) in vec.clone() {
        params.push(key.to_string(), value.to_string());
        assert_eq!(params.get(key), Some(value));
    }

    match params.kind() {
        ParamsKind::Large(..) => {}
        _ => panic!(),
    }

    assert_eq!(collect(&params), expected(&vec));
}

#[test]
fn stack_alloc() {
    let vec = vec![("hello", "hello"), ("world", "world"), ("baz", "baz")];

    let mut params = Params::new();
    for (key, value) in vec.clone() {
        params.push(key.to_string(), value.to_string());
        assert_eq!(params.get(key), Some(value));
    }

    match params.kind() {
        ParamsKind::Small(..) => {}
        _ => panic!(),
    }

    assert_eq!(collect(&params), expected(&vec));
}

#[test]
fn ignore_array_default() {
    let params = Params::new();
    assert!(params.get("").is_none());
}

#[test]
fn params_len_and_is_empty() {
    let mut params = Params::new();
    assert_eq!(params.len(), 0);
    assert!(params.is_empty());
    params.push("id".to_string(), "7".to_string());
    assert_eq!(params.len(), 1);
    assert!(!params.is_empty());
}

#[test]
fn params_get_after_push_law() {
    let mut params = Params::new();
    params.push("a".to_string(), "1".to_string());
    params.push("b".to_string(), "2".to_string());
    params.push("a".to_string(), "3".to_string());
    // the first parameter with the key is found
    assert_eq!(params.get("a"), Some("1"));
    assert_eq!(params.get("b"), Some("2"));
    assert_eq!(params.get("c"), None);
}

#[test]
fn params_merge_keeps_order() {
    let mut a = Params::new();
    a.push("x".to_string(), "1".to_string());
    let mut b = Params::new();
    b.push("y".to_string(), "2".to_string());
    b.push("z".to_string(), "3".to_string());
    b.push("w".to_string(), "4".to_string());
    a.merge(b);
    assert_eq!(a.len(), 4);
    assert!(matches!(a.kind(), ParamsKind::Large(..)));
    assert_eq!(
        collect(&a),
        expected(&[("x", "1"), ("y", "2"), ("z", "3"), ("w", "4")])
    );
}
