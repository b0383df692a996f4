use mr_modpack::catalog::{CatalogIndex, Project, ProjectKey};
use mr_modpack::release::{
    latest_release, primary_file, Dependency, DependencyKind, Release, ReleaseFile, Timestamp,
};
use mr_modpack::resolver::{Choice, ResolutionState, ResolverError, Step};
use mr_modpack::snapshot::{resolve, CatalogEntry, Snapshot};

fn graph_project(id: &str) -> Project {
    Project {
        id: id.to_string(),
        slug: format!("{id}-slug"),
        title: id.to_uppercase(),
        game_versions: Vec::new(),
    }
}

fn graph_file(name: &str, primary: bool) -> ReleaseFile {
    ReleaseFile {
        filename: name.to_string(),
        url: format!("https://cdn/{name}"),
        primary,
    }
}

fn graph_release(
    label: &str,
    published: i64,
    files: Vec<ReleaseFile>,
    deps: &[(&str, DependencyKind)],
) -> Release {
    Release {
        name: format!("release {label}"),
        version_label: label.to_string(),
        published: Timestamp {
            seconds: published,
            nanos: 0,
        },
        files,
        dependencies: deps
            .iter()
            .map(|(id, kind)| Dependency {
                project_id: id.to_string(),
                kind: *kind,
            })
            .collect(),
    }
}

fn graph_entry(id: &str, deps: &[(&str, DependencyKind)]) -> CatalogEntry {
    CatalogEntry {
        project: graph_project(id),
        releases: vec![graph_release(
            "1.0",
            10,
            vec![graph_file(&format!("{id}.jar"), true)],
            deps,
        )],
    }
}

fn graph_ids(picks: &[mr_modpack::resolver::Pick]) -> Vec<String> {
    let mut ids: Vec<String> = picks.iter().map(|p| p.project_id.clone()).collect();
    ids.sort();
    ids
}

#[test]
fn primary_file_is_the_first_one_flagged() {
    let files = vec![
        graph_file("a.jar", false),
        graph_file("b.jar", true),
        graph_file("c.jar", true),
    ];
    assert_eq!(primary_file(&files), Some(1));
}

#[test]
fn primary_file_falls_back_to_the_first_file() {
    let files = vec![graph_file("b.jar", false), graph_file("a.jar", false)];
    let at = primary_file(&files).unwrap();
    assert_eq!(files[at].filename, "b.jar");
}

#[test]
fn primary_file_of_no_files() {
    assert_eq!(primary_file(&vec![]), None);
}

#[test]
fn latest_release_is_the_last_published() {
    let releases = vec![
        graph_release("9.9.9", 5, vec![], &[]),
        graph_release("1.0.0", 20, vec![], &[]),
        graph_release("2.0.0", 7, vec![], &[]),
    ];
    assert_eq!(latest_release(&releases), Some(1));
    assert_eq!(latest_release(&vec![]), None);
}

#[test]
fn latest_release_of_equal_instants_is_the_later_in_the_list() {
    let releases = vec![
        graph_release("a", 20, vec![], &[]),
        graph_release("b", 3, vec![], &[]),
        graph_release("c", 20, vec![], &[]),
        graph_release("d", -4, vec![], &[]),
    ];
    assert_eq!(latest_release(&releases), Some(2));
}

#[test]
fn state_starts_with_the_seeds_at_depth_zero() {
    let mut index = CatalogIndex::new();
    let a = index.insert(graph_project("a"));
    let b = index.insert(graph_project("b"));
    let mut state = ResolutionState::new(&vec![a, b]);
    assert_eq!(state.pending(), 2);
    assert!(state.output().is_empty());
    assert_eq!(state.pop(&index), Step::Query { key: b, depth: 0 });
    assert_eq!(state.pop(&index), Step::Query { key: a, depth: 0 });
    assert_eq!(state.pop(&index), Step::Finished);
    assert_eq!(state.pop(&index), Step::Finished);
}

#[test]
fn decide_without_releases_changes_nothing() {
    let mut index = CatalogIndex::new();
    let a = index.insert(graph_project("a"));
    let mut state = ResolutionState::new(&vec![a]);
    assert_eq!(state.pop(&index), Step::Query { key: a, depth: 0 });
    let choice = state.decide(&index, a, &vec![]);
    assert!(matches!(choice, Ok(Choice::Nothing)));
    assert!(state.output().is_empty());
    assert_eq!(state.pending(), 0);
    assert!(!state.is_downloaded(&"a".to_string()));
}

#[test]
fn decide_picks_latest_release_and_primary_file() {
    let mut index = CatalogIndex::new();
    let a = index.insert(graph_project("a"));
    let mut state = ResolutionState::new(&vec![a]);
    state.pop(&index);
    let releases = vec![
        graph_release("2.0", 100, vec![graph_file("old.jar", true)], &[]),
        graph_release(
            "1.0",
            300,
            vec![graph_file("sources.jar", false), graph_file("new.jar", true)],
            &[
                ("b", DependencyKind::Required),
                ("c", DependencyKind::Optional),
                ("a", DependencyKind::Required),
                ("d", DependencyKind::Incompatible),
                ("e", DependencyKind::Embedded),
                ("f", DependencyKind::Required),
            ],
        ),
    ];
    let choice = state.decide(&index, a, &releases).unwrap();
    match choice {
        Choice::Taken { wanted } => assert_eq!(wanted, vec!["b".to_string(), "f".to_string()]),
        Choice::Nothing => panic!("a release was there to pick"),
    }
    let picks = state.output();
    assert_eq!(picks.len(), 1);
    assert_eq!(picks[0].key, a);
    assert_eq!(picks[0].project_id, "a");
    assert_eq!(picks[0].release, 1);
    assert_eq!(picks[0].file, 1);
    assert_eq!(picks[0].filename, "new.jar");
    assert_eq!(picks[0].url, "https://cdn/new.jar");
    assert!(state.is_downloaded(&"a".to_string()));
    assert!(!state.is_downloaded(&"b".to_string()));
}

#[test]
fn decide_on_release_without_files_is_an_error() {
    let mut index = CatalogIndex::new();
    let a = index.insert(graph_project("a"));
    let mut state = ResolutionState::new(&vec![a]);
    state.pop(&index);
    let releases = vec![
        graph_release("1.0", 1, vec![graph_file("a.jar", true)], &[]),
        graph_release("1.1", 2, vec![], &[]),
    ];
    let choice = state.decide(&index, a, &releases);
    assert!(matches!(choice, Err(ResolverError::NoFiles)));
    assert!(state.output().is_empty());
}

#[test]
fn pop_reports_a_resolved_project_as_revisit() {
    let mut index = CatalogIndex::new();
    let a = index.insert(graph_project("a"));
    let again = index.insert(graph_project("a"));
    let mut state = ResolutionState::new(&vec![again, a]);
    assert_eq!(state.pop(&index), Step::Query { key: a, depth: 0 });
    let releases = vec![graph_release("1.0", 1, vec![graph_file("a.jar", false)], &[])];
    state.decide(&index, a, &releases).unwrap();
    assert_eq!(
        state.pop(&index),
        Step::Revisit {
            key: again,
            depth: 0
        }
    );
    assert_eq!(state.pop(&index), Step::Finished);
    assert_eq!(state.output().len(), 1);
}

#[test]
fn enqueue_is_last_in_first_out() {
    let mut index = CatalogIndex::new();
    let a = index.insert(graph_project("a"));
    let b = index.insert(graph_project("b"));
    let c = index.insert(graph_project("c"));
    let mut state = ResolutionState::new(&vec![a]);
    state.pop(&index);
    let releases = vec![graph_release("1.0", 1, vec![graph_file("a.jar", true)], &[])];
    state.decide(&index, a, &releases).unwrap();
    state.enqueue(&index, b, 1);
    state.enqueue(&index, c, 1);
    assert_eq!(state.pending(), 2);
    assert_eq!(state.pop(&index), Step::Query { key: c, depth: 1 });
    assert_eq!(state.pop(&index), Step::Query { key: b, depth: 1 });
}

#[test]
fn resolve_follows_required_dependencies_only() {
    let snapshot = Snapshot {
        entries: vec![
            graph_entry(
                "a",
                &[
                    ("b", DependencyKind::Required),
                    ("c", DependencyKind::Optional),
                    ("d", DependencyKind::Embedded),
                    ("e", DependencyKind::Incompatible),
                ],
            ),
            graph_entry("b", &[]),
            graph_entry("c", &[]),
            graph_entry("d", &[]),
            graph_entry("e", &[]),
        ],
    };
    let mut index = CatalogIndex::new();
    let a = index.insert(graph_project("a"));
    let picks = resolve(&snapshot, &mut index, &vec![a]).unwrap();
    let names: Vec<&str> = picks.iter().map(|p| p.filename.as_str()).collect();
    assert_eq!(names, vec!["a.jar", "b.jar"]);
    assert_eq!(index.len(), 2);
    assert_eq!(index.get(picks[1].key).id, "b");
}

#[test]
fn resolve_visits_a_shared_dependency_once() {
    let snapshot = Snapshot {
        entries: vec![
            graph_entry(
                "top",
                &[
                    ("left", DependencyKind::Required),
                    ("right", DependencyKind::Required),
                ],
            ),
            graph_entry("left", &[("base", DependencyKind::Required)]),
            graph_entry("right", &[("base", DependencyKind::Required)]),
            graph_entry("base", &[]),
        ],
    };
    let mut index = CatalogIndex::new();
    let top = index.insert(graph_project("top"));
    let picks = resolve(&snapshot, &mut index, &vec![top]).unwrap();
    assert_eq!(graph_ids(&picks), vec!["base", "left", "right", "top"]);
    assert_eq!(picks[0].project_id, "top");
}

#[test]
fn resolve_ends_on_a_cycle() {
    let snapshot = Snapshot {
        entries: vec![
            graph_entry("a", &[("b", DependencyKind::Required)]),
            graph_entry("b", &[("c", DependencyKind::Required)]),
            graph_entry(
                "c",
                &[
                    ("a", DependencyKind::Required),
                    ("c", DependencyKind::Required),
                ],
            ),
        ],
    };
    let mut index = CatalogIndex::new();
    let a = index.insert(graph_project("a"));
    let c = index.insert(graph_project("c"));
    let picks = resolve(&snapshot, &mut index, &vec![a, c, a]).unwrap();
    assert_eq!(graph_ids(&picks), vec!["a", "b", "c"]);
}

#[test]
fn resolve_passes_over_a_project_without_releases() {
    let snapshot = Snapshot {
        entries: vec![
            graph_entry("a", &[("hollow", DependencyKind::Required)]),
            CatalogEntry {
                project: graph_project("hollow"),
                releases: vec![],
            },
            graph_entry("behind", &[]),
        ],
    };
    let mut index = CatalogIndex::new();
    let a = index.insert(graph_project("a"));
    let unknown = index.insert(graph_project("nowhere"));
    let picks = resolve(&snapshot, &mut index, &vec![unknown, a]).unwrap();
    assert_eq!(graph_ids(&picks), vec!["a"]);
    assert_eq!(index.find(&"behind".to_string()), None);
    assert!(index.find(&"hollow".to_string()).is_some());
}

#[test]
fn resolve_leaves_out_a_dependency_that_nobody_knows() {
    let snapshot = Snapshot {
        entries: vec![graph_entry("a", &[("ghost", DependencyKind::Required)])],
    };
    let mut index = CatalogIndex::new();
    let a = index.insert(graph_project("a"));
    let picks = resolve(&snapshot, &mut index, &vec![a]).unwrap();
    assert_eq!(graph_ids(&picks), vec!["a"]);
    assert_eq!(index.len(), 1);
}

#[test]
fn resolve_stops_at_a_release_without_files() {
    let snapshot = Snapshot {
        entries: vec![
            graph_entry("a", &[("broken", DependencyKind::Required)]),
            CatalogEntry {
                project: graph_project("broken"),
                releases: vec![graph_release("1.0", 1, vec![], &[])],
            },
        ],
    };
    let mut index = CatalogIndex::new();
    let a = index.insert(graph_project("a"));
    assert_eq!(
        resolve(&snapshot, &mut index, &vec![a]).err(),
        Some(ResolverError::NoFiles)
    );
}

#[test]
fn resolve_of_no_seeds_is_empty() {
    let snapshot = Snapshot {
        entries: vec![graph_entry("a", &[])],
    };
    let mut index = CatalogIndex::new();
    let picks = resolve(&snapshot, &mut index, &vec![]).unwrap();
    assert!(picks.is_empty());
}

#[test]
fn resolve_reuses_a_project_that_the_index_holds() {
    let snapshot = Snapshot {
        entries: vec![
            graph_entry("a", &[("b", DependencyKind::Required)]),
            graph_entry("b", &[]),
        ],
    };
    let mut index = CatalogIndex::new();
    let b = index.insert(graph_project("b"));
    let a = index.insert(graph_project("a"));
    let picks = resolve(&snapshot, &mut index, &vec![a]).unwrap();
    assert_eq!(index.len(), 2);
    assert_eq!(picks.len(), 2);
    assert_eq!(picks[1].key, b);
    assert_ne!(a, ProjectKey(0));
}

#[test]
fn latest_release_looks_at_the_nanoseconds() {
    let mut releases = vec![
        graph_release("a", 20, vec![], &[]),
        graph_release("b", 20, vec![], &[]),
        graph_release("c", 19, vec![], &[]),
    ];
    releases[0].published.nanos = 500;
    releases[1].published.nanos = 499;
    releases[2].published.nanos = 999_999_999;
    assert_eq!(latest_release(&releases), Some(0));
    releases[1].published.nanos = 500;
    assert_eq!(latest_release(&releases), Some(1));
}

#[test]
fn timestamps_are_ordered_by_seconds_then_nanoseconds() {
    let a = Timestamp {
        seconds: -1,
        nanos: 999,
    };
    let b = Timestamp {
        seconds: 0,
        nanos: 0,
    };
    let c = Timestamp {
        seconds: 0,
        nanos: 1,
    };
    assert!(a.is_before(&b));
    assert!(b.is_before(&c));
    assert!(a.is_before(&c));
    assert!(!c.is_before(&b));
    assert!(!b.is_before(&b));
}

#[test]
fn unresolved_project_is_asked_for_again() {
    let mut index = CatalogIndex::new();
    let hollow = index.insert(graph_project("hollow"));
    let mut state = ResolutionState::new(&vec![hollow, hollow]);
    assert_eq!(
        state.pop(&index),
        Step::Query {
            key: hollow,
            depth: 0
        }
    );
    assert!(matches!(
        state.decide(&index, hollow, &vec![]),
        Ok(Choice::Nothing)
    ));
    assert_eq!(
        state.pop(&index),
        Step::Query {
            key: hollow,
            depth: 0
        }
    );
    assert!(matches!(
        state.decide(&index, hollow, &vec![]),
        Ok(Choice::Nothing)
    ));
    assert_eq!(state.pop(&index), Step::Finished);
    assert!(state.into_output().is_empty());
}

#[test]
fn wanted_lists_required_edges_to_unresolved_projects() {
    let mut index = CatalogIndex::new();
    let a = index.insert(graph_project("a"));
    let mut state = ResolutionState::new(&vec![a]);
    state.pop(&index);
    let releases = vec![graph_release("1.0", 1, vec![graph_file("a.jar", true)], &[])];
    state.decide(&index, a, &releases).unwrap();
    let edges = graph_release(
        "x",
        0,
        vec![],
        &[
            ("b", DependencyKind::Required),
            ("a", DependencyKind::Required),
            ("b", DependencyKind::Required),
            ("c", DependencyKind::Optional),
        ],
    )
    .dependencies;
    assert_eq!(
        state.wanted(&edges),
        vec!["b".to_string(), "b".to_string()]
    );
    assert!(state.wanted(&vec![]).is_empty());
}
