use fd_synthesis::attrs::{has_attribute, is_subset, same_attributes, without_duplicates};
use fd_synthesis::closure::attribute_closure;
use fd_synthesis::dependency::FunctionalDependency;

fn closure_names(list: &[&str]) -> Vec<String> {
    list.iter().map(|s| s.to_string()).collect()
}

fn closure_fd(left: &[&str], right: &[&str]) -> FunctionalDependency {
    FunctionalDependency { determinant: closure_names(left), resultant: closure_names(right) }
}

fn closure_sorted(mut v: Vec<String>) -> Vec<String> {
    v.sort();
    v
}

#[test]
fn closure_follows_chains_whatever_the_order() {
    let fds = vec![closure_fd(&["b"], &["c"]), closure_fd(&["a"], &["b"])];
    let out = attribute_closure(&closure_names(&["a"]), &fds);
    assert_eq!(closure_sorted(out), closure_names(&["a", "b", "c"]));
}

#[test]
fn closure_of_a_chain_in_order() {
    let fds = vec![closure_fd(&["A"], &["B"]), closure_fd(&["B"], &["C"])];
    let out = attribute_closure(&closure_names(&["A"]), &fds);
    assert_eq!(closure_sorted(out), closure_names(&["A", "B", "C"]));
}

#[test]
fn closure_needs_many_scans() {
    let fds = vec![
        closure_fd(&["d"], &["e"]),
        closure_fd(&["c"], &["d"]),
        closure_fd(&["b"], &["c"]),
        closure_fd(&["a"], &["b"]),
    ];
    let out = attribute_closure(&closure_names(&["a"]), &fds);
    assert_eq!(closure_sorted(out), closure_names(&["a", "b", "c", "d", "e"]));
}

#[test]
fn closure_without_dependencies_is_the_seed() {
    let out = attribute_closure(&closure_names(&["x", "y"]), &Vec::new());
    assert_eq!(out, closure_names(&["x", "y"]));
}

#[test]
fn closure_of_nothing_is_nothing() {
    let fds = vec![closure_fd(&["a"], &["b"])];
    let out = attribute_closure(&Vec::new(), &fds);
    assert!(out.is_empty());
}

#[test]
fn closure_needs_the_whole_determinant() {
    let fds = vec![closure_fd(&["a", "b"], &["c"])];
    let one = attribute_closure(&closure_names(&["a"]), &fds);
    assert_eq!(closure_sorted(one), closure_names(&["a"]));
    let both = attribute_closure(&closure_names(&["b", "a"]), &fds);
    assert_eq!(closure_sorted(both), closure_names(&["a", "b", "c"]));
}

#[test]
fn closure_holds_each_attribute_once() {
    let fds = vec![closure_fd(&["a"], &["b", "b", "a"]), closure_fd(&["b"], &["a", "c"])];
    let out = attribute_closure(&closure_names(&["a", "a"]), &fds);
    assert_eq!(out.len(), 3);
    assert_eq!(closure_sorted(out), closure_names(&["a", "b", "c"]));
}

#[test]
fn closure_is_case_sensitive() {
    let fds = vec![closure_fd(&["a"], &["b"])];
    let out = attribute_closure(&closure_names(&["A"]), &fds);
    assert_eq!(out, closure_names(&["A"]));
    let spaced = attribute_closure(&closure_names(&["a "]), &fds);
    assert_eq!(spaced, closure_names(&["a "]));
}

#[test]
fn closure_contains_its_seed() {
    let fds = vec![closure_fd(&["a"], &["b"]), closure_fd(&["c"], &["d"])];
    let seed = closure_names(&["c", "z"]);
    let out = attribute_closure(&seed, &fds);
    assert!(is_subset(&seed, &out));
    assert_eq!(closure_sorted(out), closure_names(&["c", "d", "z"]));
}

#[test]
fn closure_taken_twice_is_closure_taken_once() {
    let fds = vec![
        closure_fd(&["a"], &["b"]),
        closure_fd(&["b", "c"], &["d"]),
        closure_fd(&["d"], &["e"]),
    ];
    let once = attribute_closure(&closure_names(&["a", "c"]), &fds);
    let twice = attribute_closure(&once, &fds);
    assert!(same_attributes(&once, &twice));
    assert_eq!(closure_sorted(twice), closure_names(&["a", "b", "c", "d", "e"]));
}

#[test]
fn closure_grows_with_its_seed() {
    let fds = vec![closure_fd(&["a"], &["b"]), closure_fd(&["b", "c"], &["d"])];
    let small = attribute_closure(&closure_names(&["a"]), &fds);
    let large = attribute_closure(&closure_names(&["a", "c"]), &fds);
    assert!(is_subset(&small, &large));
    assert!(!is_subset(&large, &small));
}

#[test]
fn attribute_helpers_compare_as_sets() {
    let left = closure_names(&["a", "b", "a"]);
    let right = closure_names(&["b", "a"]);
    assert!(same_attributes(&left, &right));
    assert!(!same_attributes(&left, &closure_names(&["a"])));
    assert!(has_attribute(&left, &"b".to_string()));
    assert!(!has_attribute(&left, &"B".to_string()));
    assert!(is_subset(&Vec::new(), &right));
    assert_eq!(without_duplicates(&left), closure_names(&["a", "b"]));
}

#[test]
fn closure_lists_the_seed_first_and_then_what_the_scans_reach() {
    let fds = vec![
        closure_fd(&["c"], &["e", "d"]),
        closure_fd(&["b"], &["c"]),
        closure_fd(&["a", "z"], &["b", "a", "y"]),
    ];
    let out = attribute_closure(&closure_names(&["z", "a", "z"]), &fds);
    assert_eq!(out, closure_names(&["z", "a", "b", "y", "c", "e", "d"]));
    let chain = vec![closure_fd(&["a"], &["b"]), closure_fd(&["b"], &["c"])];
    assert_eq!(attribute_closure(&closure_names(&["a"]), &chain), closure_names(&["a", "b", "c"]));
}
