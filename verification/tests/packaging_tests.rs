use eks_builder::binary::{plan_extension_binary, PackagingError};
use eks_builder::lock::{add_entry_to_lock, get_lock_entry_id, LockStore};
use eks_builder::structs::{Extension, Metadata};

fn metadata(slug: &str, version_code: u32) -> Metadata {
    Metadata {
        extension: Extension {
            slug: slug.to_owned(),
            name: "Some name".to_owned(),
            icon: "icon.png".to_owned(),
            version_code,
            version_name: "1.0".to_owned(),
            language: "en".to_owned(),
            description: String::new(),
        },
    }
}

fn names(v: &[&str]) -> Vec<String> {
    v.iter().map(|s| (*s).to_owned()).collect()
}

#[test]
fn payload_is_resources_plus_renamed_module() {
    let mut store = LockStore::new();
    add_entry_to_lock(&mut store, &metadata("en.foo", 1));
    let id = get_lock_entry_id(&store, &"en.foo".to_owned()).unwrap();

    let plan = plan_extension_binary(
        &"en.foo".to_owned(),
        &store,
        &names(&["a.txt", "b.png"]),
        &names(&["deps", "foo.wasm", "later.wasm"]),
        true,
    )
    .unwrap();

    assert_eq!(plan.id, id);
    assert!(plan.copy_icon);
    assert_eq!(
        plan.payload,
        vec![
            ("a.txt".to_owned(), "a.txt".to_owned()),
            ("b.png".to_owned(), "b.png".to_owned()),
            ("foo.wasm".to_owned(), "main.wasm".to_owned()),
        ]
    );
}

#[test]
fn no_resources_still_packages_the_module() {
    let mut store = LockStore::new();
    add_entry_to_lock(&mut store, &metadata("en.foo", 1));
    let plan = plan_extension_binary(
        &"en.foo".to_owned(),
        &store,
        &names(&[]),
        &names(&["m.wasm"]),
        false,
    )
    .unwrap();
    assert!(!plan.copy_icon);
    assert_eq!(plan.payload, vec![("m.wasm".to_owned(), "main.wasm".to_owned())]);
}

#[test]
fn missing_module_is_an_error_not_a_crash() {
    let mut store = LockStore::new();
    add_entry_to_lock(&mut store, &metadata("en.foo", 1));
    let r = plan_extension_binary(
        &"en.foo".to_owned(),
        &store,
        &names(&["a.txt"]),
        &names(&["notes.txt", "wasm"]),
        true,
    );
    assert!(matches!(r, Err(PackagingError::NoModule)));
}

#[test]
fn bare_dot_wasm_is_not_a_module() {
    let mut store = LockStore::new();
    add_entry_to_lock(&mut store, &metadata("en.foo", 1));
    let r = plan_extension_binary(
        &"en.foo".to_owned(),
        &store,
        &names(&[]),
        &names(&[".wasm"]),
        false,
    );
    assert!(matches!(r, Err(PackagingError::NoModule)));
}

#[test]
fn unknown_slug_cannot_be_packaged() {
    let store = LockStore::new();
    let r = plan_extension_binary(
        &"en.foo".to_owned(),
        &store,
        &names(&["a.txt"]),
        &names(&["m.wasm"]),
        true,
    );
    assert!(matches!(r, Err(PackagingError::UnknownSlug)));
}
