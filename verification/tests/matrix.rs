use mr_modpack::catalog::{Project, ProjectKey};
use mr_modpack::matrix::{build_matrix, group, observe, rank, VersionGroup};
use mr_modpack::version::SemanticVersion;

fn matrix_project(id: &str, labels: &[&str]) -> Project {
    Project {
        id: id.to_string(),
        slug: id.to_string(),
        title: id.to_string(),
        game_versions: labels.iter().map(|l| l.to_string()).collect(),
    }
}

fn matrix_version(major: u32, minor: u32, patch: u32) -> SemanticVersion {
    SemanticVersion {
        major,
        minor,
        patch,
    }
}

fn matrix_rows(groups: &[VersionGroup]) -> Vec<(SemanticVersion, Vec<usize>)> {
    groups
        .iter()
        .map(|g| (g.version, g.members.iter().map(|k| k.0).collect()))
        .collect()
}

#[test]
fn observations_follow_projects_and_labels() {
    let a = matrix_project("a", &["1.20.1", "snapshot", "1.21"]);
    let b = matrix_project("b", &["", "v1.21.0"]);
    let obs = observe(&vec![(ProjectKey(5), &a), (ProjectKey(9), &b)]);
    assert_eq!(
        obs,
        vec![
            (ProjectKey(5), matrix_version(1, 20, 1)),
            (ProjectKey(5), matrix_version(1, 21, 0)),
            (ProjectKey(9), matrix_version(1, 21, 0)),
        ]
    );
}

#[test]
fn groups_come_in_first_seen_order() {
    let obs = vec![
        (ProjectKey(0), matrix_version(1, 20, 0)),
        (ProjectKey(0), matrix_version(1, 21, 0)),
        (ProjectKey(1), matrix_version(1, 21, 0)),
        (ProjectKey(0), matrix_version(1, 21, 0)),
        (ProjectKey(2), matrix_version(1, 19, 0)),
    ];
    let groups = group(&obs);
    assert_eq!(
        matrix_rows(&groups),
        vec![
            (matrix_version(1, 20, 0), vec![0]),
            (matrix_version(1, 21, 0), vec![0, 1]),
            (matrix_version(1, 19, 0), vec![2]),
        ]
    );
}

#[test]
fn rank_puts_the_largest_group_first() {
    let groups = vec![
        VersionGroup {
            version: matrix_version(1, 0, 0),
            members: vec![ProjectKey(0), ProjectKey(1)],
        },
        VersionGroup {
            version: matrix_version(2, 0, 0),
            members: vec![ProjectKey(0)],
        },
        VersionGroup {
            version: matrix_version(3, 0, 0),
            members: vec![ProjectKey(0), ProjectKey(1), ProjectKey(2)],
        },
    ];
    let ranked = rank(&groups);
    assert_eq!(
        matrix_rows(&ranked),
        vec![
            (matrix_version(3, 0, 0), vec![0, 1, 2]),
            (matrix_version(1, 0, 0), vec![0, 1]),
            (matrix_version(2, 0, 0), vec![0]),
        ]
    );
}

#[test]
fn rank_of_equal_sizes_puts_the_later_group_first() {
    let groups = vec![
        VersionGroup {
            version: matrix_version(1, 0, 0),
            members: vec![ProjectKey(0)],
        },
        VersionGroup {
            version: matrix_version(2, 0, 0),
            members: vec![ProjectKey(1), ProjectKey(2)],
        },
        VersionGroup {
            version: matrix_version(3, 0, 0),
            members: vec![ProjectKey(3)],
        },
    ];
    let ranked = rank(&groups);
    assert_eq!(
        matrix_rows(&ranked),
        vec![
            (matrix_version(2, 0, 0), vec![1, 2]),
            (matrix_version(3, 0, 0), vec![3]),
            (matrix_version(1, 0, 0), vec![0]),
        ]
    );
}

#[test]
fn matrix_groups_projects_by_canonical_version() {
    let a = matrix_project("a", &["1.20.1", "1.20.4", "not a version"]);
    let b = matrix_project("b", &["v1.20.4", "1.19-pre"]);
    let c = matrix_project("c", &["1.20.4-fabric"]);
    let matrix = build_matrix(&vec![
        (ProjectKey(0), &a),
        (ProjectKey(1), &b),
        (ProjectKey(2), &c),
    ]);
    assert_eq!(
        matrix_rows(&matrix),
        vec![
            (matrix_version(1, 20, 4), vec![0, 1, 2]),
            (matrix_version(1, 19, 0), vec![1]),
            (matrix_version(1, 20, 1), vec![0]),
        ]
    );
}

#[test]
fn matrix_sizes_add_up_to_the_parseable_pairs() {
    let a = matrix_project("a", &["1.20.1", "1.20.4", "??"]);
    let b = matrix_project("b", &["1.20.4", "1.19", ""]);
    let projects = vec![(ProjectKey(0), &a), (ProjectKey(1), &b)];
    let pairs = observe(&projects).len();
    assert_eq!(pairs, 4);
    let total: usize = build_matrix(&projects)
        .iter()
        .map(|g| g.members.len())
        .sum();
    assert_eq!(total, pairs);
}

#[test]
fn matrix_counts_a_project_once_per_version() {
    let a = matrix_project("a", &["1.20", "1.20.0", "v1.20"]);
    let projects = vec![(ProjectKey(7), &a)];
    assert_eq!(observe(&projects).len(), 3);
    let matrix = build_matrix(&projects);
    assert_eq!(
        matrix_rows(&matrix),
        vec![(matrix_version(1, 20, 0), vec![7])]
    );
}

#[test]
fn matrix_without_parseable_labels_is_empty() {
    let a = matrix_project("a", &["", "release", "--"]);
    let b = matrix_project("b", &[]);
    assert!(build_matrix(&vec![(ProjectKey(0), &a), (ProjectKey(1), &b)]).is_empty());
    assert!(build_matrix(&vec![]).is_empty());
}
