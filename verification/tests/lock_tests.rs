use eks_builder::lock::{
    add_entry_to_lock, check_extensions_against_lock, extension_requires_build,
    get_lock_entry_id, get_lock_entry_version_code, remove_stale_entries_from_lock,
    should_build, split_slug, update_lock_entry, LockStore,
};
use eks_builder::structs::{Extension, Metadata};

fn metadata(slug: &str, version_code: u32) -> Metadata {
    Metadata {
        extension: Extension {
            slug: slug.to_owned(),
            name: "Some name".to_owned(),
            icon: "icon.png".to_owned(),
            version_code,
            version_name: "1.0".to_owned(),
            language: "en".to_owned(),
            description: "d".to_owned(),
        },
    }
}

#[test]
fn empty_store_knows_nothing() {
    let store = LockStore::new();
    assert_eq!(store.len(), 0);
    assert_eq!(get_lock_entry_id(&store, &"en.foo".to_owned()), None);
    assert_eq!(get_lock_entry_version_code(&store, &"en.foo".to_owned()), None);
}

#[test]
fn unknown_slug_requires_build() {
    let store = LockStore::new();
    assert!(extension_requires_build(&metadata("en.foo", 1), &store));
}

#[test]
fn add_entry_assigns_id_and_code() {
    let mut store = LockStore::new();
    add_entry_to_lock(&mut store, &metadata("en.foo", 3));
    assert_eq!(store.len(), 1);
    let id = get_lock_entry_id(&store, &"en.foo".to_owned()).unwrap();
    assert_eq!(id.chars().count(), 36);
    assert_eq!(
        get_lock_entry_version_code(&store, &"en.foo".to_owned()),
        Some(3)
    );
    assert!(!extension_requires_build(&metadata("en.foo", 3), &store));
    assert!(!extension_requires_build(&metadata("en.foo", 2), &store));
    assert!(extension_requires_build(&metadata("en.foo", 4), &store));
}

#[test]
fn add_entry_leaves_known_slug_alone() {
    let mut store = LockStore::new();
    add_entry_to_lock(&mut store, &metadata("en.foo", 1));
    let id = get_lock_entry_id(&store, &"en.foo".to_owned()).unwrap();
    add_entry_to_lock(&mut store, &metadata("en.foo", 9));
    assert_eq!(store.len(), 1);
    assert_eq!(get_lock_entry_id(&store, &"en.foo".to_owned()), Some(id));
    assert_eq!(
        get_lock_entry_version_code(&store, &"en.foo".to_owned()),
        Some(1)
    );
}

#[test]
fn update_preserves_id() {
    let mut store = LockStore::new();
    add_entry_to_lock(&mut store, &metadata("en.foo", 1));
    let id = get_lock_entry_id(&store, &"en.foo".to_owned()).unwrap();
    update_lock_entry(&mut store, &metadata("en.foo", 2));
    assert_eq!(get_lock_entry_id(&store, &"en.foo".to_owned()), Some(id));
    assert_eq!(
        get_lock_entry_version_code(&store, &"en.foo".to_owned()),
        Some(2)
    );
}

#[test]
fn update_of_unknown_slug_changes_nothing() {
    let mut store = LockStore::new();
    update_lock_entry(&mut store, &metadata("en.foo", 2));
    assert_eq!(store.len(), 0);
}

#[test]
fn should_build_scenario_same_then_bumped_code() {
    let mut store = LockStore::new();

    assert!(should_build(&metadata("x.foo", 1), &mut store));
    let id = get_lock_entry_id(&store, &"x.foo".to_owned()).unwrap();
    assert_eq!(
        get_lock_entry_version_code(&store, &"x.foo".to_owned()),
        Some(1)
    );

    assert!(!should_build(&metadata("x.foo", 1), &mut store));
    assert_eq!(get_lock_entry_id(&store, &"x.foo".to_owned()), Some(id.clone()));

    assert!(should_build(&metadata("x.foo", 2), &mut store));
    assert_eq!(get_lock_entry_id(&store, &"x.foo".to_owned()), Some(id));
    assert_eq!(
        get_lock_entry_version_code(&store, &"x.foo".to_owned()),
        Some(2)
    );
}

#[test]
fn slugs_split_into_their_first_two_segments() {
    assert_eq!(
        split_slug(&"a.b.c".to_owned()),
        Some(("a".to_owned(), "b".to_owned()))
    );
    assert_eq!(
        split_slug(&"en.foo".to_owned()),
        Some(("en".to_owned(), "foo".to_owned()))
    );
    assert_eq!(split_slug(&"plain".to_owned()), None);
    assert_eq!(split_slug(&"".to_owned()), None);
    assert_eq!(
        split_slug(&"a.".to_owned()),
        Some(("a".to_owned(), "".to_owned()))
    );
}

#[test]
fn stale_entries_are_those_without_a_directory() {
    let mut store = LockStore::new();
    add_entry_to_lock(&mut store, &metadata("en.foo", 1));
    add_entry_to_lock(&mut store, &metadata("plain", 1));
    add_entry_to_lock(&mut store, &metadata("en.bar", 1));
    add_entry_to_lock(&mut store, &metadata("de.x.y", 1));
    let dirs = vec![
        ("en".to_owned(), "foo".to_owned()),
        ("de".to_owned(), "x".to_owned()),
    ];
    let stale = check_extensions_against_lock(&store, &dirs);
    assert_eq!(stale, vec!["en.bar".to_owned()]);
}

#[test]
fn pruning_removes_only_listed_slugs() {
    let mut store = LockStore::new();
    add_entry_to_lock(&mut store, &metadata("en.foo", 1));
    add_entry_to_lock(&mut store, &metadata("en.bar", 1));
    let keep_id = get_lock_entry_id(&store, &"en.foo".to_owned()).unwrap();
    remove_stale_entries_from_lock(&mut store, &vec!["en.bar".to_owned(), "en.gone".to_owned()]);
    assert_eq!(store.len(), 1);
    assert_eq!(get_lock_entry_id(&store, &"en.foo".to_owned()), Some(keep_id));
    assert_eq!(get_lock_entry_id(&store, &"en.bar".to_owned()), None);
}
