use fd_synthesis::dependency::FunctionalDependency;
use fd_synthesis::relation::Relation;
use fd_synthesis::schema::RelationSchema;
use fd_synthesis::text::join;

fn text_names(list: &[&str]) -> Vec<String> {
    list.iter().map(|s| s.to_string()).collect()
}

fn text_fd(left: &[&str], right: &[&str]) -> FunctionalDependency {
    FunctionalDependency { determinant: text_names(left), resultant: text_names(right) }
}

#[test]
fn join_puts_the_separator_between() {
    assert_eq!(join(&Vec::new(), ", "), "");
    assert_eq!(join(&text_names(&["a"]), ", "), "a");
    assert_eq!(join(&text_names(&["a", "b", "c"]), ", "), "a, b, c");
    assert_eq!(join(&text_names(&["a", "", "c"]), "-"), "a--c");
}

#[test]
fn dependency_as_text() {
    assert_eq!(text_fd(&["a"], &["b"]).to_text(), "a → b");
    assert_eq!(text_fd(&["a", "b"], &["c"]).to_text(), "{a, b} → c");
    assert_eq!(text_fd(&["a"], &["b", "c", "d"]).to_text(), "a → {b, c, d}");
    assert_eq!(text_fd(&[], &[]).to_text(), "{} → {}");
}

#[test]
fn schema_as_text() {
    let schema = RelationSchema::new(
        text_names(&["a", "b", "c"]),
        vec![text_fd(&["a", "b"], &["c"]), text_fd(&["c"], &["a"])],
    ).unwrap();
    assert_eq!(schema.to_text(), "(a, b, c), FD:{{a, b} → c, c → a}");
    let plain = RelationSchema::new(text_names(&["x"]), Vec::new()).unwrap();
    assert_eq!(plain.to_text(), "(x), FD:{}");
}

#[test]
fn relation_as_text() {
    let relation = Relation {
        relation_name: "students".to_string(),
        schema: RelationSchema::new(
            text_names(&["id", "name", "faculty", "faculty_location"]),
            vec![
                text_fd(&["id"], &["name", "faculty", "faculty_location"]),
                text_fd(&["faculty"], &["faculty_location"]),
            ],
        ).unwrap(),
    };
    assert_eq!(
        relation.to_text(),
        "Relation: students(id, name, faculty, faculty_location), FD:{id → {name, faculty, faculty_location}, faculty → faculty_location}"
    );
    let parts = relation.synthetic_approach_decompose();
    assert_eq!(parts.len(), 2);
    assert_eq!(parts[0].to_text(), "Relation: students(id, name, faculty), FD:{id → name, id → faculty}");
    assert_eq!(
        parts[1].to_text(),
        "Relation: students(faculty, faculty_location), FD:{faculty → faculty_location}"
    );
}
