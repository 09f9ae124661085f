use fd_synthesis::cover::minimal_cover;
use fd_synthesis::dependency::FunctionalDependency;
use fd_synthesis::equivalence::dependencies_equivalent;
use fd_synthesis::schema::RelationSchema;

fn cover_names(list: &[&str]) -> Vec<String> {
    list.iter().map(|s| s.to_string()).collect()
}

fn cover_fd(left: &[&str], right: &[&str]) -> FunctionalDependency {
    FunctionalDependency { determinant: cover_names(left), resultant: cover_names(right) }
}

fn cover_pairs(fds: &[FunctionalDependency]) -> Vec<(Vec<String>, Vec<String>)> {
    fds.iter().map(|fd| (fd.determinant.clone(), fd.resultant.clone())).collect()
}

fn cover_expected(list: &[(&[&str], &[&str])]) -> Vec<(Vec<String>, Vec<String>)> {
    list.iter().map(|(l, r)| (cover_names(l), cover_names(r))).collect()
}

fn students_dependencies() -> Vec<FunctionalDependency> {
    vec![
        cover_fd(
            &["id"],
            &[
                "name",
                "academic_year",
                "faculty",
                "faculty_location",
                "subject_name",
                "grade",
                "teacher",
            ],
        ),
        cover_fd(&["faculty"], &["faculty_location"]),
        cover_fd(&["subject_name"], &["teacher"]),
    ]
}

#[test]
fn cover_of_the_students_schema() {
    let fds = students_dependencies();
    let cover = minimal_cover(&fds);
    // id -> faculty_location follows from id -> faculty and
    // faculty -> faculty_location, and id -> teacher from id -> subject_name
    // and subject_name -> teacher: both are pruned.
    assert_eq!(
        cover_pairs(&cover),
        cover_expected(&[
            (&["id"], &["name"]),
            (&["id"], &["academic_year"]),
            (&["id"], &["faculty"]),
            (&["id"], &["subject_name"]),
            (&["id"], &["grade"]),
            (&["faculty"], &["faculty_location"]),
            (&["subject_name"], &["teacher"]),
        ])
    );
    assert!(dependencies_equivalent(&fds, &cover));
}

#[test]
fn cover_of_the_students_schema_keeps_the_three_determinants() {
    let cover = minimal_cover(&students_dependencies());
    let mut determinants: Vec<Vec<String>> = Vec::new();
    for fd in &cover {
        assert_eq!(fd.resultant.len(), 1);
        if !determinants.contains(&fd.determinant) {
            determinants.push(fd.determinant.clone());
        }
    }
    assert_eq!(
        determinants,
        vec![cover_names(&["id"]), cover_names(&["faculty"]), cover_names(&["subject_name"])]
    );
    assert!(cover.contains(&cover_fd(&["faculty"], &["faculty_location"])));
    assert!(cover.contains(&cover_fd(&["subject_name"], &["teacher"])));
}

#[test]
fn cover_splits_resultants() {
    let cover = minimal_cover(&vec![cover_fd(&["a"], &["b", "c", "d"])]);
    assert_eq!(
        cover_pairs(&cover),
        cover_expected(&[(&["a"], &["b"]), (&["a"], &["c"]), (&["a"], &["d"])])
    );
}

#[test]
fn cover_drops_chained_extraneous_attributes() {
    let fds = vec![
        cover_fd(&["a", "b", "c"], &["d"]),
        cover_fd(&["a"], &["b"]),
        cover_fd(&["b"], &["c"]),
    ];
    let cover = minimal_cover(&fds);
    assert_eq!(
        cover_pairs(&cover),
        cover_expected(&[(&["a"], &["d"]), (&["a"], &["b"]), (&["b"], &["c"])])
    );
    assert!(dependencies_equivalent(&fds, &cover));
}

#[test]
fn cover_drops_one_extraneous_attribute() {
    let fds = vec![cover_fd(&["a", "b"], &["c"]), cover_fd(&["a"], &["b"])];
    let cover = minimal_cover(&fds);
    assert_eq!(cover_pairs(&cover), cover_expected(&[(&["a"], &["c"]), (&["a"], &["b"])]));
}

#[test]
fn cover_keeps_needed_determinant_attributes() {
    let fds = vec![cover_fd(&["a", "b"], &["c"])];
    let cover = minimal_cover(&fds);
    assert_eq!(cover_pairs(&cover), cover_expected(&[(&["a", "b"], &["c"])]));
}

#[test]
fn cover_drops_redundant_dependencies() {
    let fds = vec![cover_fd(&["a"], &["b"]), cover_fd(&["b"], &["c"]), cover_fd(&["a"], &["c"])];
    let cover = minimal_cover(&fds);
    assert_eq!(cover_pairs(&cover), cover_expected(&[(&["a"], &["b"]), (&["b"], &["c"])]));
    assert!(dependencies_equivalent(&fds, &cover));
}

#[test]
fn cover_drops_the_first_of_two_equal_dependencies() {
    let fds = vec![cover_fd(&["a"], &["b", "c"]), cover_fd(&["a"], &["b"])];
    let cover = minimal_cover(&fds);
    assert_eq!(cover_pairs(&cover), cover_expected(&[(&["a"], &["c"]), (&["a"], &["b"])]));
}

#[test]
fn cover_drops_trivial_dependencies() {
    let cover = minimal_cover(&vec![cover_fd(&["a"], &["a"])]);
    assert!(cover.is_empty());
    let mixed = minimal_cover(&vec![cover_fd(&["a", "b"], &["a", "c"])]);
    assert_eq!(cover_pairs(&mixed), cover_expected(&[(&["a", "b"], &["c"])]));
}

#[test]
fn cover_of_nothing_is_nothing() {
    let cover = minimal_cover(&Vec::new());
    assert!(cover.is_empty());
}

#[test]
fn cover_of_a_cover_is_the_cover() {
    let fds = vec![
        cover_fd(&["a", "b"], &["c", "d"]),
        cover_fd(&["c"], &["a"]),
        cover_fd(&["d"], &["b"]),
        cover_fd(&["a"], &["a"]),
    ];
    let once = minimal_cover(&fds);
    let twice = minimal_cover(&once);
    assert_eq!(cover_pairs(&once), cover_pairs(&twice));
    assert!(dependencies_equivalent(&fds, &once));
}

#[test]
fn cover_is_canonical() {
    let fds = vec![
        cover_fd(&["a", "b"], &["c"]),
        cover_fd(&["c"], &["d", "e"]),
        cover_fd(&["a"], &["b"]),
        cover_fd(&["a", "d"], &["e"]),
    ];
    let cover = minimal_cover(&fds);
    assert!(dependencies_equivalent(&fds, &cover));
    for (i, fd) in cover.iter().enumerate() {
        assert_eq!(fd.resultant.len(), 1);
        let mut others = cover.clone();
        others.remove(i);
        assert!(!dependencies_equivalent(&cover, &others));
        for p in 0..fd.determinant.len() {
            let mut narrowed = cover.clone();
            narrowed[i].determinant.remove(p);
            assert!(!dependencies_equivalent(&cover, &narrowed));
        }
    }
    assert_eq!(
        cover_pairs(&cover),
        cover_expected(&[
            (&["a"], &["c"]),
            (&["c"], &["d"]),
            (&["c"], &["e"]),
            (&["a"], &["b"]),
        ])
    );
}

#[test]
fn schema_cover_keeps_the_attributes() {
    let schema = RelationSchema::new(
        cover_names(&["a", "b", "c"]),
        vec![cover_fd(&["a"], &["b", "c"]), cover_fd(&["b"], &["c"])],
    ).unwrap();
    let cover = schema.find_minimal_cover();
    assert_eq!(cover.attributes(), &cover_names(&["a", "b", "c"]));
    assert_eq!(
        cover_pairs(cover.functional_dependencies()),
        cover_expected(&[(&["a"], &["b"]), (&["b"], &["c"])])
    );
    assert!(schema.is_equivalent(&cover));
}
