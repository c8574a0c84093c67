use submillisecond::process_local::ProcessLocal;

#[test]
fn lazily_initialized_then_set() {
    let mut local: ProcessLocal<u32> = ProcessLocal::new();
    assert_eq!(local.get(|| 1), 1);
    assert_eq!(local.get(|| 5), 1);
    local.set(2);
    assert_eq!(local.get(|| 9), 2);
}

#[test]
fn replace_and_take() {
    let mut local: ProcessLocal<u32> = ProcessLocal::new();
    assert_eq!(local.replace(|| 3, 4), 3);
    assert_eq!(local.take(|| 0), 4);
    assert_eq!(local.get(|| 7), 0);
}

#[test]
fn borrows() {
    let mut local: ProcessLocal<Vec<u32>> = ProcessLocal::new();
    let n = local.with_borrow(|| vec![1, 2], |v| v.len());
    assert_eq!(n, 2);
    let m = local.with_borrow_mut(|| vec![], |mut v| {
        v.push(3);
        let l = v.len();
        (v, l)
    });
    assert_eq!(m, 3);
    assert_eq!(local.with(|| vec![], |v| v.clone()), vec![1, 2, 3]);
}
