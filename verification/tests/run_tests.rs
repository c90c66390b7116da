use eks_builder::lock::{get_lock_entry_id, get_lock_entry_version_code, LockStore};
use eks_builder::orchestrator::{process_run, DiscoveredProject};
use eks_builder::server::generate_server_index;
use eks_builder::storage::parse_lock_file;
use eks_builder::structs::{Extension, Metadata};

fn metadata(slug: &str, version_code: u32) -> Metadata {
    Metadata {
        extension: Extension {
            slug: slug.to_owned(),
            name: format!("Name of {slug}"),
            icon: "icon.png".to_owned(),
            version_code,
            version_name: "1.0".to_owned(),
            language: "en".to_owned(),
            description: String::new(),
        },
    }
}

fn project(lang: &str, name: &str, metadata: Option<Metadata>) -> DiscoveredProject {
    DiscoveredProject {
        lang: lang.to_owned(),
        name: name.to_owned(),
        is_dir: true,
        has_manifest: true,
        metadata,
    }
}

#[test]
fn first_run_builds_and_records() {
    let mut lock = LockStore::new();
    let projects = vec![project("x", "foo", Some(metadata("x.foo", 1)))];
    let report = process_run(&projects, &mut lock);
    assert_eq!(report.to_build, vec!["x.foo".to_owned()]);
    assert_eq!(report.accepted.len(), 1);
    assert!(report.stale.is_empty());
    assert_eq!(get_lock_entry_version_code(&lock, &"x.foo".to_owned()), Some(1));
    assert_eq!(report.catalog.len(), 1);
    let id = get_lock_entry_id(&lock, &"x.foo".to_owned()).unwrap();
    assert_eq!(report.catalog[0].id, id);
    assert_eq!(report.catalog[0].name, "Name of x.foo");
    assert_eq!(report.catalog[0].version_code, 1);
}

#[test]
fn second_run_without_changes_builds_nothing() {
    let mut lock = LockStore::new();
    let projects = vec![
        project("x", "foo", Some(metadata("x.foo", 1))),
        project("y", "bar", Some(metadata("y.bar", 4))),
    ];
    let first = process_run(&projects, &mut lock);
    assert_eq!(first.to_build.len(), 2);
    let id_foo = get_lock_entry_id(&lock, &"x.foo".to_owned()).unwrap();
    let id_bar = get_lock_entry_id(&lock, &"y.bar".to_owned()).unwrap();

    let second = process_run(&projects, &mut lock);
    assert!(second.to_build.is_empty());
    assert_eq!(lock.len(), 2);
    assert_eq!(get_lock_entry_id(&lock, &"x.foo".to_owned()), Some(id_foo));
    assert_eq!(get_lock_entry_id(&lock, &"y.bar".to_owned()), Some(id_bar));
    assert_eq!(get_lock_entry_version_code(&lock, &"x.foo".to_owned()), Some(1));
    assert_eq!(get_lock_entry_version_code(&lock, &"y.bar".to_owned()), Some(4));
}

#[test]
fn bumped_version_code_rebuilds_and_keeps_the_id() {
    let mut lock = LockStore::new();
    let v1 = vec![project("x", "foo", Some(metadata("x.foo", 1)))];
    process_run(&v1, &mut lock);
    let id = get_lock_entry_id(&lock, &"x.foo".to_owned()).unwrap();

    let again = process_run(&v1, &mut lock);
    assert!(again.to_build.is_empty());

    let v2 = vec![project("x", "foo", Some(metadata("x.foo", 2)))];
    let bumped = process_run(&v2, &mut lock);
    assert_eq!(bumped.to_build, vec!["x.foo".to_owned()]);
    assert_eq!(get_lock_entry_id(&lock, &"x.foo".to_owned()), Some(id));
    assert_eq!(get_lock_entry_version_code(&lock, &"x.foo".to_owned()), Some(2));
}

#[test]
fn stale_slug_is_pruned_and_absent_from_catalog() {
    let text = "[\"x.bar\"]\nid = \"stale-id\"\nversion_code = \"5\"\n";
    let mut lock = parse_lock_file(text).unwrap();
    let projects = vec![project("x", "foo", Some(metadata("x.foo", 1)))];

    let report = process_run(&projects, &mut lock);

    assert_eq!(report.stale, vec!["x.bar".to_owned()]);
    assert_eq!(get_lock_entry_id(&lock, &"x.bar".to_owned()), None);
    assert_eq!(lock.len(), 1);
    assert!(report.catalog.iter().all(|e| e.id != "stale-id"));
}

#[test]
fn invalid_or_unparsed_metadata_is_skipped_not_fatal() {
    let mut lock = LockStore::new();
    let mut bad = metadata("x.bad", 1);
    bad.extension.name = "   ".to_owned();
    let projects = vec![
        project("x", "none", None),
        project("x", "bad", Some(bad)),
        project("x", "good", Some(metadata("x.good", 1))),
    ];
    let report = process_run(&projects, &mut lock);
    assert_eq!(report.to_build, vec!["x.good".to_owned()]);
    assert_eq!(report.accepted.len(), 1);
    assert_eq!(report.catalog.len(), 1);
    assert_eq!(lock.len(), 1);
    assert_eq!(get_lock_entry_id(&lock, &"x.bad".to_owned()), None);
}

#[test]
fn non_directories_and_plain_files_are_ignored() {
    let mut lock = LockStore::new();
    let mut not_dir = project("x", "file", Some(metadata("x.file", 1)));
    not_dir.is_dir = false;
    let mut no_manifest = project("x", "plain", Some(metadata("x.plain", 1)));
    no_manifest.has_manifest = false;
    let projects = vec![not_dir, no_manifest];
    let report = process_run(&projects, &mut lock);
    assert!(report.to_build.is_empty());
    assert!(report.accepted.is_empty());
    assert_eq!(lock.len(), 0);
}

#[test]
fn catalog_follows_metadata_order_and_skips_unknown_slugs() {
    let mut lock = LockStore::new();
    let projects = vec![
        project("en", "one", Some(metadata("en.one", 1))),
        project("en", "two", Some(metadata("en.two", 2))),
    ];
    process_run(&projects, &mut lock);

    let all = vec![
        metadata("en.two", 2),
        metadata("en.one", 1),
        metadata("en.unknown", 3),
    ];
    let catalog = generate_server_index(&all, &lock);
    assert_eq!(catalog.len(), 2);
    assert_eq!(catalog[0].name, "Name of en.two");
    assert_eq!(catalog[1].name, "Name of en.one");
    assert_eq!(catalog[0].version_code, 2);
    assert_eq!(catalog[0].language, "en");
    assert_eq!(catalog[0].icon, "icon.png");
    assert_eq!(catalog[0].version_name, "1.0");
}
