use fd_synthesis::dependency::{has_dependency, FunctionalDependency};
use fd_synthesis::schema::{RelationSchema, SchemaError};

fn schema_names(list: &[&str]) -> Vec<String> {
    list.iter().map(|s| s.to_string()).collect()
}

fn schema_fd(left: &[&str], right: &[&str]) -> FunctionalDependency {
    FunctionalDependency { determinant: schema_names(left), resultant: schema_names(right) }
}

#[test]
fn schema_keeps_what_it_is_given() {
    let schema = RelationSchema::new(
        schema_names(&["a", "b", "c"]),
        vec![schema_fd(&["a"], &["b", "c"]), schema_fd(&["b"], &["c"])],
    ).unwrap();
    assert_eq!(schema.attributes(), &schema_names(&["a", "b", "c"]));
    let fds = schema.functional_dependencies();
    assert_eq!(fds.len(), 2);
    assert_eq!(fds[0].determinant, schema_names(&["a"]));
    assert_eq!(fds[0].resultant, schema_names(&["b", "c"]));
    assert_eq!(fds[1].determinant, schema_names(&["b"]));
    assert_eq!(fds[1].resultant, schema_names(&["c"]));
}

#[test]
fn schema_without_dependencies_is_valid() {
    let schema = RelationSchema::new(schema_names(&["x", "y"]), Vec::new()).unwrap();
    assert_eq!(schema.attributes(), &schema_names(&["x", "y"]));
    assert!(schema.functional_dependencies().is_empty());
    assert!(schema.find_minimal_cover().functional_dependencies().is_empty());
    assert_eq!(schema.minimal_key(), schema_names(&["x", "y"]));
    assert_eq!(schema.calculate_closure(&schema_names(&["y"])), schema_names(&["y"]));
}

#[test]
fn schema_without_attributes_is_refused() {
    assert_eq!(RelationSchema::new(Vec::new(), Vec::new()).unwrap_err(), SchemaError::EmptyInput);
    assert_eq!(
        RelationSchema::new(Vec::new(), vec![schema_fd(&["a"], &["b"])]).unwrap_err(),
        SchemaError::EmptyInput
    );
}

#[test]
fn schema_refuses_an_unknown_attribute() {
    let attrs = schema_names(&["a", "b"]);
    assert_eq!(
        RelationSchema::new(attrs.clone(), vec![schema_fd(&["a"], &["c"])]).unwrap_err(),
        SchemaError::InvalidDependency
    );
    assert_eq!(
        RelationSchema::new(attrs.clone(), vec![schema_fd(&["c"], &["a"])]).unwrap_err(),
        SchemaError::InvalidDependency
    );
    assert_eq!(
        RelationSchema::new(
            attrs.clone(),
            vec![schema_fd(&["a"], &["b"]), schema_fd(&["a", "A"], &["b"])]
        ).unwrap_err(),
        SchemaError::InvalidDependency
    );
    assert_eq!(
        RelationSchema::new(attrs, vec![schema_fd(&["a"], &[" b"])]).unwrap_err(),
        SchemaError::InvalidDependency
    );
}

#[test]
fn schema_refuses_an_empty_side() {
    let attrs = schema_names(&["a", "b"]);
    assert_eq!(
        RelationSchema::new(attrs.clone(), vec![schema_fd(&[], &["a"])]).unwrap_err(),
        SchemaError::InvalidDependency
    );
    assert_eq!(
        RelationSchema::new(attrs.clone(), vec![schema_fd(&["a"], &[])]).unwrap_err(),
        SchemaError::InvalidDependency
    );
    assert_eq!(
        RelationSchema::new(attrs, vec![schema_fd(&[], &[])]).unwrap_err(),
        SchemaError::InvalidDependency
    );
}

#[test]
fn schema_collapses_duplicates() {
    let schema = RelationSchema::new(
        schema_names(&["a", "b", "a", "c", "b"]),
        vec![
            schema_fd(&["a", "b", "a"], &["c", "c"]),
            schema_fd(&["b", "a"], &["c"]),
            schema_fd(&["a"], &["c"]),
            schema_fd(&["a", "a"], &["c"]),
        ],
    ).unwrap();
    assert_eq!(schema.attributes(), &schema_names(&["a", "b", "c"]));
    let fds = schema.functional_dependencies();
    assert_eq!(fds.len(), 2);
    assert_eq!(fds[0].determinant, schema_names(&["a", "b"]));
    assert_eq!(fds[0].resultant, schema_names(&["c"]));
    assert_eq!(fds[1].determinant, schema_names(&["a"]));
    assert_eq!(fds[1].resultant, schema_names(&["c"]));
}

#[test]
fn schema_clone_is_the_same_schema() {
    let schema = RelationSchema::new(
        schema_names(&["a", "b"]),
        vec![schema_fd(&["a"], &["b"])],
    ).unwrap();
    let copy = schema.clone();
    assert_eq!(copy.attributes(), schema.attributes());
    assert_eq!(copy.functional_dependencies(), schema.functional_dependencies());
}

#[test]
fn dependencies_are_equal_as_pairs_of_sets() {
    assert_eq!(schema_fd(&["a", "b"], &["c"]), schema_fd(&["b", "a", "b"], &["c", "c"]));
    assert_ne!(schema_fd(&["a", "b"], &["c"]), schema_fd(&["a"], &["c"]));
    assert_ne!(schema_fd(&["a"], &["b"]), schema_fd(&["b"], &["a"]));
    assert_ne!(schema_fd(&["a"], &["b"]), schema_fd(&["a"], &["B"]));
    let fds = vec![schema_fd(&["a", "b"], &["c"]), schema_fd(&["c"], &["a"])];
    assert!(has_dependency(&fds, &schema_fd(&["b", "a"], &["c"])));
    assert!(!has_dependency(&fds, &schema_fd(&["b"], &["c"])));
    let copy = fds[0].clone();
    assert_eq!(copy.determinant, schema_names(&["a", "b"]));
    assert_eq!(copy.resultant, schema_names(&["c"]));
}
