use eks_builder::lock::{
    add_entry_to_lock, extension_requires_build, get_lock_entry_id, get_lock_entry_version_code,
    LockStore,
};
use eks_builder::storage::{parse_lock_file, render_lock_file};
use eks_builder::structs::{Extension, Metadata};

fn metadata(slug: &str, version_code: u32) -> Metadata {
    Metadata {
        extension: Extension {
            slug: slug.to_owned(),
            name: "Some name".to_owned(),
            icon: "icon.png".to_owned(),
            version_code,
            version_name: "1.0".to_owned(),
            language: "en".to_owned(),
            description: String::new(),
        },
    }
}

#[test]
fn parses_a_lock_document() {
    let text = "[\"en.foo\"]\nid = \"abc-123\"\nversion_code = \"3\"\n";
    let store = parse_lock_file(text).unwrap();
    assert_eq!(store.len(), 1);
    assert_eq!(
        get_lock_entry_id(&store, &"en.foo".to_owned()),
        Some("abc-123".to_owned())
    );
    assert_eq!(
        get_lock_entry_version_code(&store, &"en.foo".to_owned()),
        Some(3)
    );
}

#[test]
fn parses_the_empty_document() {
    let store = parse_lock_file("").unwrap();
    assert_eq!(store.len(), 0);
}

#[test]
fn rejects_malformed_text() {
    assert!(parse_lock_file("][ not toml").is_err());
}

#[test]
fn unparsable_stored_code_counts_as_zero() {
    let text = "[\"en.foo\"]\nid = \"abc\"\nversion_code = \"junk\"\n";
    let store = parse_lock_file(text).unwrap();
    assert_eq!(
        get_lock_entry_version_code(&store, &"en.foo".to_owned()),
        Some(0)
    );
    assert!(extension_requires_build(&metadata("en.foo", 1), &store));
    assert!(!extension_requires_build(&metadata("en.foo", 0), &store));
}

#[test]
fn missing_stored_code_forces_build() {
    let text = "[\"en.foo\"]\nid = \"abc\"\n";
    let store = parse_lock_file(text).unwrap();
    assert_eq!(get_lock_entry_version_code(&store, &"en.foo".to_owned()), None);
    assert_eq!(
        get_lock_entry_id(&store, &"en.foo".to_owned()),
        Some("abc".to_owned())
    );
    assert!(extension_requires_build(&metadata("en.foo", 0), &store));
}

#[test]
fn entry_without_id_round_trips() {
    let text = "[\"en.foo\"]\nversion_code = \"4\"\n";
    let store = parse_lock_file(text).unwrap();
    assert_eq!(get_lock_entry_id(&store, &"en.foo".to_owned()), None);

    let rendered = render_lock_file(&store).unwrap();
    let reloaded = parse_lock_file(rendered.as_str()).unwrap();
    assert_eq!(reloaded.len(), 1);
    assert_eq!(get_lock_entry_id(&reloaded, &"en.foo".to_owned()), None);
    assert_eq!(
        get_lock_entry_version_code(&reloaded, &"en.foo".to_owned()),
        Some(4)
    );
}

#[test]
fn rendered_store_reads_back_unchanged() {
    let mut store = LockStore::new();
    add_entry_to_lock(&mut store, &metadata("en.foo", 7));
    add_entry_to_lock(&mut store, &metadata("de.bar", 2));
    let id_foo = get_lock_entry_id(&store, &"en.foo".to_owned()).unwrap();
    let id_bar = get_lock_entry_id(&store, &"de.bar".to_owned()).unwrap();

    let text = render_lock_file(&store).unwrap();
    let reloaded = parse_lock_file(text.as_str()).unwrap();
    assert_eq!(reloaded.len(), 2);
    assert_eq!(get_lock_entry_id(&reloaded, &"en.foo".to_owned()), Some(id_foo));
    assert_eq!(get_lock_entry_id(&reloaded, &"de.bar".to_owned()), Some(id_bar));
    assert_eq!(
        get_lock_entry_version_code(&reloaded, &"en.foo".to_owned()),
        Some(7)
    );
    assert_eq!(
        get_lock_entry_version_code(&reloaded, &"de.bar".to_owned()),
        Some(2)
    );
}
