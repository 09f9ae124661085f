use fd_synthesis::dependency::FunctionalDependency;
use fd_synthesis::equivalence::{dependencies_entail, dependencies_equivalent};
use fd_synthesis::schema::RelationSchema;

fn eq_names(list: &[&str]) -> Vec<String> {
    list.iter().map(|s| s.to_string()).collect()
}

fn eq_fd(left: &[&str], right: &[&str]) -> FunctionalDependency {
    FunctionalDependency { determinant: eq_names(left), resultant: eq_names(right) }
}

#[test]
fn equivalence_is_reflexive() {
    let f = vec![eq_fd(&["a"], &["b"]), eq_fd(&["b", "c"], &["d"])];
    assert!(dependencies_equivalent(&f, &f));
    let none: Vec<FunctionalDependency> = Vec::new();
    assert!(dependencies_equivalent(&none, &none));
}

#[test]
fn equivalence_is_symmetric() {
    let f1 = vec![eq_fd(&["a"], &["b"]), eq_fd(&["b"], &["c"])];
    let f2 = vec![eq_fd(&["a"], &["b"]), eq_fd(&["b"], &["c"]), eq_fd(&["a"], &["c"])];
    let f3 = vec![eq_fd(&["a"], &["b"])];
    assert_eq!(dependencies_equivalent(&f1, &f2), dependencies_equivalent(&f2, &f1));
    assert_eq!(dependencies_equivalent(&f1, &f3), dependencies_equivalent(&f3, &f1));
    assert!(dependencies_equivalent(&f1, &f2));
    assert!(!dependencies_equivalent(&f1, &f3));
}

#[test]
fn equivalence_needs_both_directions() {
    let strong = vec![eq_fd(&["a"], &["b"]), eq_fd(&["b"], &["c"])];
    let weak = vec![eq_fd(&["a"], &["c"])];
    assert!(dependencies_entail(&strong, &weak));
    assert!(!dependencies_entail(&weak, &strong));
    assert!(!dependencies_equivalent(&strong, &weak));
    assert!(!dependencies_equivalent(&weak, &strong));
}

#[test]
fn equivalence_ignores_how_resultants_are_grouped() {
    let joined = vec![eq_fd(&["a"], &["b", "c"])];
    let apart = vec![eq_fd(&["a"], &["c"]), eq_fd(&["a"], &["b"])];
    assert!(dependencies_equivalent(&joined, &apart));
}

#[test]
fn nothing_is_equivalent_to_trivial_dependencies_only() {
    let none: Vec<FunctionalDependency> = Vec::new();
    let trivial = vec![eq_fd(&["a", "b"], &["a"])];
    let real = vec![eq_fd(&["a"], &["b"])];
    assert!(dependencies_equivalent(&none, &trivial));
    assert!(!dependencies_equivalent(&none, &real));
}

#[test]
fn schemas_compare_by_their_dependencies() {
    let attrs = eq_names(&["a", "b", "c"]);
    let one = RelationSchema::new(
        attrs.clone(),
        vec![eq_fd(&["a"], &["b"]), eq_fd(&["b"], &["c"])],
    ).unwrap();
    let two = RelationSchema::new(
        attrs.clone(),
        vec![eq_fd(&["b"], &["c"]), eq_fd(&["a"], &["b", "c"])],
    ).unwrap();
    let three = RelationSchema::new(attrs, vec![eq_fd(&["a"], &["b"])]).unwrap();
    assert!(one.is_equivalent(&one));
    assert!(one.is_equivalent(&two));
    assert!(two.is_equivalent(&one));
    assert!(!one.is_equivalent(&three));
    assert!(!three.is_equivalent(&one));
}
