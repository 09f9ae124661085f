use fd_synthesis::closure::attribute_closure;
use fd_synthesis::attrs::same_attributes;
use fd_synthesis::dependency::FunctionalDependency;
use fd_synthesis::key::{minimal_key, shrink};
use fd_synthesis::schema::RelationSchema;

fn key_names(list: &[&str]) -> Vec<String> {
    list.iter().map(|s| s.to_string()).collect()
}

fn key_fd(left: &[&str], right: &[&str]) -> FunctionalDependency {
    FunctionalDependency { determinant: key_names(left), resultant: key_names(right) }
}

#[test]
fn key_of_a_chain_is_its_head() {
    let attrs = key_names(&["a", "b", "c"]);
    let fds = vec![key_fd(&["a"], &["b"]), key_fd(&["b"], &["c"])];
    assert_eq!(minimal_key(&attrs, &fds), key_names(&["a"]));
}

#[test]
fn key_without_dependencies_is_everything() {
    let attrs = key_names(&["x", "y", "z"]);
    assert_eq!(minimal_key(&attrs, &Vec::new()), attrs);
}

#[test]
fn key_among_several_goes_by_the_order_of_attributes() {
    let fds = vec![key_fd(&["a"], &["b"]), key_fd(&["b"], &["a"])];
    assert_eq!(minimal_key(&key_names(&["a", "b"]), &fds), key_names(&["b"]));
    assert_eq!(minimal_key(&key_names(&["b", "a"]), &fds), key_names(&["a"]));
}

#[test]
fn key_with_a_cycle() {
    let attrs = key_names(&["a", "b", "c", "d"]);
    let fds = vec![key_fd(&["a", "b"], &["c"]), key_fd(&["c"], &["d"]), key_fd(&["d"], &["a"])];
    assert_eq!(minimal_key(&attrs, &fds), key_names(&["b", "d"]));
}

#[test]
fn key_is_a_superkey_and_no_part_of_it_is() {
    let attrs = key_names(&["a", "b", "c", "d", "e"]);
    let fds = vec![
        key_fd(&["a", "b"], &["c"]),
        key_fd(&["c"], &["d"]),
        key_fd(&["d", "e"], &["a"]),
    ];
    let key = minimal_key(&attrs, &fds);
    assert_eq!(key, key_names(&["b", "d", "e"]));
    assert!(same_attributes(&attribute_closure(&key, &fds), &attrs));
    for p in 0..key.len() {
        let mut less = key.clone();
        less.remove(p);
        assert!(!same_attributes(&attribute_closure(&less, &fds), &attrs));
    }
}

#[test]
fn key_counts_an_attribute_written_twice_once() {
    let attrs = key_names(&["a", "b", "a"]);
    let fds = vec![key_fd(&["a"], &["b"])];
    assert_eq!(minimal_key(&attrs, &fds), key_names(&["a"]));
}

#[test]
fn shrink_drops_what_is_not_needed() {
    let fds = vec![key_fd(&["a"], &["b"]), key_fd(&["b"], &["c"])];
    let out = shrink(&key_names(&["a", "b", "c"]), &key_names(&["d"]), &vec![
        key_fd(&["a", "b", "c"], &["d"]),
        fds[0].clone(),
        fds[1].clone(),
    ]);
    assert_eq!(out, key_names(&["a"]));
    let kept = shrink(&key_names(&["a", "b"]), &key_names(&["c"]), &vec![key_fd(&["a", "b"], &["c"])]);
    assert_eq!(kept, key_names(&["a", "b"]));
}

#[test]
fn schema_key_of_the_students_schema() {
    let schema = RelationSchema::new(
        key_names(&[
            "id",
            "name",
            "academic_year",
            "faculty",
            "faculty_location",
            "subject_name",
            "grade",
            "teacher",
        ]),
        vec![
            key_fd(
                &["id"],
                &[
                    "name",
                    "academic_year",
                    "faculty",
                    "faculty_location",
                    "subject_name",
                    "grade",
                    "teacher",
                ],
            ),
            key_fd(&["faculty"], &["faculty_location"]),
            key_fd(&["subject_name"], &["teacher"]),
        ],
    ).unwrap();
    assert_eq!(schema.minimal_key(), key_names(&["id"]));
    assert_eq!(schema.find_minimal_cover().minimal_key(), key_names(&["id"]));
    let reach = schema.calculate_closure(&key_names(&["id"]));
    assert!(same_attributes(&reach, schema.attributes()));
    let part = schema.calculate_closure(&key_names(&["faculty", "subject_name"]));
    assert!(same_attributes(
        &part,
        &key_names(&["faculty", "faculty_location", "subject_name", "teacher"])
    ));
}
