use mr_modpack::bundle::{
    archive_entries, archive_name, is_expired, retrieval_path, RETENTION_MILLIS,
};
use mr_modpack::catalog::ProjectKey;
use mr_modpack::client::{read_status, user_agent, Reply};
use mr_modpack::resolver::Pick;
use mr_modpack::text::render_decimal;

#[test]
fn decimal_rendering() {
    assert_eq!(render_decimal(0), "0");
    assert_eq!(render_decimal(7), "7");
    assert_eq!(render_decimal(10), "10");
    assert_eq!(render_decimal(1700000000123), "1700000000123");
    assert_eq!(
        render_decimal(u128::MAX),
        "340282366920938463463374607431768211455"
    );
}

#[test]
fn archive_is_named_by_collection_and_time() {
    assert_eq!(
        archive_name("my pack", 1700000000123),
        "my pack-1700000000123.zip"
    );
    assert_eq!(archive_name("", 0), "-0.zip");
}

#[test]
fn archive_is_retrieved_under_the_bundle_root() {
    assert_eq!(
        retrieval_path("my pack", 1700000000123),
        "/temp-download-all/my pack-1700000000123.zip"
    );
}

#[test]
fn archives_of_one_collection_differ_by_time() {
    assert_ne!(archive_name("pack", 41), archive_name("pack", 42));
    assert_ne!(retrieval_path("pack", 41), retrieval_path("pack", 42));
}

#[test]
fn archive_expires_after_two_minutes() {
    assert_eq!(RETENTION_MILLIS, 2 * 60 * 1000);
    assert!(!is_expired(1000, 1000));
    assert!(!is_expired(1000, 120999));
    assert!(is_expired(1000, 121000));
    assert!(is_expired(1000, 500000));
    assert!(!is_expired(1000, 0));
}

#[test]
fn archive_has_one_entry_per_pick_in_order() {
    let picks = vec![
        Pick {
            key: ProjectKey(4),
            project_id: "lithium".to_string(),
            release: 0,
            file: 1,
            filename: "b.jar".to_string(),
            url: "https://files/b".to_string(),
        },
        Pick {
            key: ProjectKey(2),
            project_id: "sodium".to_string(),
            release: 3,
            file: 0,
            filename: "a.jar".to_string(),
            url: "https://files/a".to_string(),
        },
    ];
    let entries = archive_entries(&picks);
    let got: Vec<(&str, &str)> = entries
        .iter()
        .map(|e| (e.name.as_str(), e.url.as_str()))
        .collect();
    assert_eq!(
        got,
        vec![("b.jar", "https://files/b"), ("a.jar", "https://files/a")]
    );
    assert!(archive_entries(&vec![]).is_empty());
}

#[test]
fn status_codes() {
    assert_eq!(read_status(200), Reply::Found);
    assert_eq!(read_status(204), Reply::Found);
    assert_eq!(read_status(299), Reply::Found);
    assert_eq!(read_status(404), Reply::NotFound);
    assert_eq!(read_status(199), Reply::Refused);
    assert_eq!(read_status(300), Reply::Refused);
    assert_eq!(read_status(500), Reply::Refused);
}

#[test]
fn user_agent_forms() {
    assert_eq!(user_agent("mr-modpack", None, None), "mr-modpack");
    assert_eq!(
        user_agent("mr-modpack", Some("0.1.0"), None),
        "mr-modpack/0.1.0"
    );
    assert_eq!(
        user_agent("mr-modpack", None, Some("me@example.org")),
        "mr-modpack (me@example.org)"
    );
    assert_eq!(
        user_agent("mr-modpack", Some("0.1.0"), Some("me@example.org")),
        "mr-modpack/0.1.0 (me@example.org)"
    );
}
