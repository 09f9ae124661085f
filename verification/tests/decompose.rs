use fd_synthesis::dependency::FunctionalDependency;
use fd_synthesis::relation::Relation;
use fd_synthesis::schema::RelationSchema;

fn rel_names(list: &[&str]) -> Vec<String> {
    list.iter().map(|s| s.to_string()).collect()
}

fn rel_fd(left: &[&str], right: &[&str]) -> FunctionalDependency {
    FunctionalDependency { determinant: rel_names(left), resultant: rel_names(right) }
}

fn rel_pairs(schema: &RelationSchema) -> Vec<(Vec<String>, Vec<String>)> {
    schema
        .functional_dependencies()
        .iter()
        .map(|fd| (fd.determinant.clone(), fd.resultant.clone()))
        .collect()
}

fn rel_expected(list: &[(&[&str], &[&str])]) -> Vec<(Vec<String>, Vec<String>)> {
    list.iter().map(|(l, r)| (rel_names(l), rel_names(r))).collect()
}

fn rel_union(parts: &[Relation]) -> Vec<String> {
    let mut all: Vec<String> = Vec::new();
    for part in parts {
        for a in part.schema.attributes() {
            if !all.contains(a) {
                all.push(a.clone());
            }
        }
    }
    all.sort();
    all
}

fn rel_sorted(mut v: Vec<String>) -> Vec<String> {
    v.sort();
    v
}

fn students() -> Relation {
    Relation {
        relation_name: "students".to_string(),
        schema: RelationSchema::new(
            rel_names(&[
                "id",
                "name",
                "academic_year",
                "faculty",
                "faculty_location",
                "subject_name",
                "grade",
                "teacher",
            ]),
            vec![
                rel_fd(
                    &["id"],
                    &[
                        "name",
                        "academic_year",
                        "faculty",
                        "faculty_location",
                        "subject_name",
                        "grade",
                        "teacher",
                    ],
                ),
                rel_fd(&["faculty"], &["faculty_location"]),
                rel_fd(&["subject_name"], &["teacher"]),
            ],
        ).unwrap(),
    }
}

#[test]
fn decompose_the_students_relation() {
    let relation = students();
    let parts = relation.synthetic_approach_decompose();
    assert_eq!(parts.len(), 3);

    // The first schema is the one of id; faculty_location and teacher are
    // reached through faculty and subject_name and stay with these.
    assert_eq!(
        parts[0].schema.attributes(),
        &rel_names(&["id", "name", "academic_year", "faculty", "subject_name", "grade"])
    );
    assert_eq!(
        rel_pairs(&parts[0].schema),
        rel_expected(&[
            (&["id"], &["name"]),
            (&["id"], &["academic_year"]),
            (&["id"], &["faculty"]),
            (&["id"], &["subject_name"]),
            (&["id"], &["grade"]),
        ])
    );
    assert_eq!(parts[1].schema.attributes(), &rel_names(&["faculty", "faculty_location"]));
    assert_eq!(
        rel_pairs(&parts[1].schema),
        rel_expected(&[(&["faculty"], &["faculty_location"])])
    );
    assert_eq!(parts[2].schema.attributes(), &rel_names(&["subject_name", "teacher"]));
    assert_eq!(rel_pairs(&parts[2].schema), rel_expected(&[(&["subject_name"], &["teacher"])]));

    // The key, id, stands in the first schema: none is added for it.
    assert!(parts[0].schema.attributes().contains(&"id".to_string()));
    assert_eq!(rel_union(&parts), rel_sorted(relation.schema.attributes().clone()));
}

#[test]
fn decompose_without_dependencies_gives_the_schema_back() {
    let relation = Relation {
        relation_name: "plain".to_string(),
        schema: RelationSchema::new(rel_names(&["x", "y"]), Vec::new()).unwrap(),
    };
    let parts = relation.synthetic_approach_decompose();
    assert_eq!(parts.len(), 1);
    assert_eq!(parts[0].relation_name, "plain");
    assert_eq!(parts[0].schema.attributes(), &rel_names(&["x", "y"]));
    assert!(parts[0].schema.functional_dependencies().is_empty());
}

#[test]
fn decompose_adds_a_schema_for_the_key() {
    let relation = Relation {
        relation_name: "r".to_string(),
        schema: RelationSchema::new(rel_names(&["a", "b", "c"]), vec![rel_fd(&["a"], &["b"])])
            .unwrap(),
    };
    let parts = relation.synthetic_approach_decompose();
    assert_eq!(parts.len(), 2);
    assert_eq!(parts[0].schema.attributes(), &rel_names(&["a", "b"]));
    assert_eq!(rel_pairs(&parts[0].schema), rel_expected(&[(&["a"], &["b"])]));
    assert_eq!(parts[1].schema.attributes(), &rel_names(&["a", "c"]));
    assert!(parts[1].schema.functional_dependencies().is_empty());
    assert_eq!(rel_union(&parts), rel_names(&["a", "b", "c"]));
}

#[test]
fn decompose_keeps_the_name() {
    let parts = students().synthetic_approach_decompose();
    for part in &parts {
        assert_eq!(part.relation_name, "students");
    }
}

#[test]
fn decompose_groups_by_determinant_as_a_set() {
    let relation = Relation {
        relation_name: "r".to_string(),
        schema: RelationSchema::new(
            rel_names(&["a", "b", "c", "d", "e"]),
            vec![
                rel_fd(&["a", "b"], &["c"]),
                rel_fd(&["c"], &["e"]),
                rel_fd(&["b", "a"], &["d"]),
            ],
        ).unwrap(),
    };
    let parts = relation.synthetic_approach_decompose();
    assert_eq!(parts.len(), 2);
    assert_eq!(parts[0].schema.attributes(), &rel_names(&["a", "b", "c", "d"]));
    assert_eq!(
        rel_pairs(&parts[0].schema),
        rel_expected(&[(&["a", "b"], &["c"]), (&["b", "a"], &["d"])])
    );
    assert_eq!(parts[1].schema.attributes(), &rel_names(&["c", "e"]));
    assert_eq!(rel_pairs(&parts[1].schema), rel_expected(&[(&["c"], &["e"])]));
    assert_eq!(rel_union(&parts), rel_names(&["a", "b", "c", "d", "e"]));
}

#[test]
fn decompose_covers_every_attribute() {
    let relation = Relation {
        relation_name: "r".to_string(),
        schema: RelationSchema::new(
            rel_names(&["a", "b", "c", "d", "e", "f"]),
            vec![
                rel_fd(&["a"], &["b", "c"]),
                rel_fd(&["c", "d"], &["e"]),
                rel_fd(&["b"], &["c"]),
                rel_fd(&["e"], &["e"]),
            ],
        ).unwrap(),
    };
    let parts = relation.synthetic_approach_decompose();
    assert_eq!(rel_union(&parts), rel_names(&["a", "b", "c", "d", "e", "f"]));
    assert_eq!(parts.len(), 4);
    assert_eq!(parts[0].schema.attributes(), &rel_names(&["a", "b"]));
    assert_eq!(parts[1].schema.attributes(), &rel_names(&["c", "d", "e"]));
    assert_eq!(parts[2].schema.attributes(), &rel_names(&["b", "c"]));
    assert_eq!(parts[3].schema.attributes(), &rel_names(&["a", "d", "f"]));
    assert!(parts[3].schema.functional_dependencies().is_empty());
}
