use rusty_graphs::package::Package;

#[test]
fn new_package_is_empty() {
    let p = Package::new("serde");
    assert_eq!(p.name, "serde");
    assert!(p.deps.is_empty());
}

#[test]
fn add_dep_skips_self_and_repeats() {
    let mut p = Package::new("a");
    p.add_dep("b".to_string());
    p.add_dep("a".to_string());
    p.add_dep("b".to_string());
    p.add_dep("c".to_string());
    assert_eq!(p.deps, vec!["b".to_string(), "c".to_string()]);
}

#[test]
fn has_dependency_checks_names() {
    let mut p = Package::new("a");
    p.add_dep("b".to_string());
    let b = Package::new("b");
    let c = Package::new("c");
    assert!(p.has_dependency(&b));
    assert!(!p.has_dependency(&c));
    assert!(!b.has_dependency(&p));
    assert!(p.depends_on(&"b".to_string()));
}
