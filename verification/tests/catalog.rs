use mr_modpack::catalog::{CatalogIndex, Collection, Project, ProjectID, ProjectKey, UserID};

fn catalog_project(id: &str, labels: &[&str]) -> Project {
    Project {
        id: id.to_string(),
        slug: format!("{id}-slug"),
        title: format!("{id} title"),
        game_versions: labels.iter().map(|l| l.to_string()).collect(),
    }
}

#[test]
fn index_keys_grow_and_stay() {
    let mut index = CatalogIndex::new();
    assert_eq!(index.len(), 0);
    let a = index.insert(catalog_project("a", &["1.20"]));
    let b = index.insert(catalog_project("b", &[]));
    let again = index.insert(catalog_project("a", &["1.20"]));
    assert_eq!(a, ProjectKey(0));
    assert_eq!(b, ProjectKey(1));
    assert_eq!(again, ProjectKey(2));
    assert_eq!(index.len(), 3);
    assert_eq!(index.get(a).id, "a");
    assert_eq!(index.get(b).id, "b");
    assert_eq!(index.get(again).id, "a");
    assert_eq!(index.get(a).game_versions, vec!["1.20".to_string()]);
}

#[test]
fn index_contains_only_its_keys() {
    let mut index = CatalogIndex::new();
    assert!(!index.contains_key(ProjectKey(0)));
    let a = index.insert(catalog_project("a", &[]));
    assert!(index.contains_key(a));
    assert!(!index.contains_key(ProjectKey(1)));
}

#[test]
fn index_find_gives_the_first_record() {
    let mut index = CatalogIndex::new();
    index.insert(catalog_project("a", &[]));
    index.insert(catalog_project("b", &[]));
    index.insert(catalog_project("b", &["1"]));
    assert_eq!(index.find(&"b".to_string()), Some(ProjectKey(1)));
    assert_eq!(index.find(&"a".to_string()), Some(ProjectKey(0)));
    assert_eq!(index.find(&"c".to_string()), None);
}

#[test]
fn index_get_projects_keeps_the_order_of_the_keys() {
    let mut index = CatalogIndex::new();
    let a = index.insert(catalog_project("a", &[]));
    let b = index.insert(catalog_project("b", &[]));
    let c = index.insert(catalog_project("c", &[]));
    let got = index.get_projects(&vec![c, a, c, b]);
    let ids: Vec<(usize, &str)> = got.iter().map(|(k, p)| (k.0, p.id.as_str())).collect();
    assert_eq!(ids, vec![(2, "c"), (0, "a"), (2, "c"), (1, "b")]);
    assert!(index.get_projects(&vec![]).is_empty());
}

#[test]
fn project_duplicate_has_the_same_contents() {
    let p = catalog_project("sodium", &["1.20.1", "1.21"]);
    let q = p.duplicate();
    assert_eq!(q.id, p.id);
    assert_eq!(q.slug, p.slug);
    assert_eq!(q.title, p.title);
    assert_eq!(q.game_versions, p.game_versions);
}

#[test]
fn project_id_as_text() {
    let id = ProjectID("AANobbMI".to_string());
    let text: &str = id.as_ref();
    assert_eq!(text, "AANobbMI");
}

#[test]
fn collection_holds_its_keys() {
    let c = Collection {
        id: "c1".to_string(),
        user: UserID("u1".to_string()),
        name: "pack".to_string(),
        description: String::new(),
        projects: vec![ProjectKey(3), ProjectKey(1)],
    };
    assert_eq!(c.projects, vec![ProjectKey(3), ProjectKey(1)]);
    assert_eq!(c.user.0, "u1");
}

#[test]
fn saved_list_takes_each_id_once() {
    let mut list: Vec<String> = Vec::new();
    assert!(mr_modpack::saved::remember(&mut list, "abc".to_string()));
    assert!(mr_modpack::saved::remember(&mut list, "xyz".to_string()));
    assert!(!mr_modpack::saved::remember(&mut list, "abc".to_string()));
    assert!(!mr_modpack::saved::remember(&mut list, String::new()));
    assert_eq!(list, vec!["abc".to_string(), "xyz".to_string()]);
    assert_eq!(
        mr_modpack::saved::position(&list, &"xyz".to_string()),
        Some(1)
    );
    assert_eq!(mr_modpack::saved::position(&list, &"nope".to_string()), None);
}

#[test]
fn saved_list_forgets_the_first_occurrence() {
    let mut list = vec![
        "a".to_string(),
        "b".to_string(),
        "a".to_string(),
        "c".to_string(),
    ];
    assert!(mr_modpack::saved::forget(&mut list, &"a".to_string()));
    assert_eq!(
        list,
        vec!["b".to_string(), "a".to_string(), "c".to_string()]
    );
    assert!(!mr_modpack::saved::forget(&mut list, &"zzz".to_string()));
    assert_eq!(list.len(), 3);
}
