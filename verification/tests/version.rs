use ptbl_validator::version_info;

#[test]
fn version_info_returns_fixed_name() {
    let v = version_info();
    assert_eq!(v.name, "ptbl_validator scaffold");
}

#[test]
fn version_info_name_is_not_empty() {
    let v = version_info();
    assert!(!v.name.is_empty());
}

#[test]
fn version_info_is_deterministic_across_calls() {
    let a = version_info();
    let b = version_info();
    assert_eq!(a.name, b.name);
}

#[test]
fn version_info_clone_keeps_name() {
    let a = version_info();
    let b = a.clone();
    assert_eq!(a.name, b.name);
}
