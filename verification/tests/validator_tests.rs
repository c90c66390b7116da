use eks_builder::structs::{Extension, Metadata};
use eks_builder::validator::validate_metadata;

fn metadata(slug: &str, name: &str, version_name: &str, language: &str) -> Metadata {
    Metadata {
        extension: Extension {
            slug: slug.to_owned(),
            name: name.to_owned(),
            icon: "icon.png".to_owned(),
            version_code: 1,
            version_name: version_name.to_owned(),
            language: language.to_owned(),
            description: String::new(),
        },
    }
}

#[test]
fn accepts_complete_metadata() {
    let m = metadata("en.foo", "Foo", "1.0", "en");
    assert!(validate_metadata(&m).is_ok());
}

#[test]
fn accepts_empty_description_and_icon() {
    let mut m = metadata("en.foo", "Foo", "1.0", "en");
    m.extension.icon = String::new();
    assert!(validate_metadata(&m).is_ok());
}

#[test]
fn rejects_empty_slug() {
    let m = metadata("", "Foo", "1.0", "en");
    assert_eq!(validate_metadata(&m), Err("Field `slug` is empty.".to_owned()));
}

#[test]
fn rejects_whitespace_slug() {
    let m = metadata(" \t\n", "Foo", "1.0", "en");
    assert_eq!(validate_metadata(&m), Err("Field `slug` is empty.".to_owned()));
}

#[test]
fn rejects_empty_name() {
    let m = metadata("en.foo", "   ", "1.0", "en");
    assert_eq!(validate_metadata(&m), Err("Field `name` is empty.".to_owned()));
}

#[test]
fn rejects_empty_version_name() {
    let m = metadata("en.foo", "Foo", "", "en");
    assert_eq!(
        validate_metadata(&m),
        Err("Field `version_name` is empty.".to_owned())
    );
}

#[test]
fn rejects_unicode_whitespace_language() {
    let m = metadata("en.foo", "Foo", "1.0", "\u{3000}\u{00a0}");
    assert_eq!(
        validate_metadata(&m),
        Err("Field `language` is empty.".to_owned())
    );
}

#[test]
fn first_empty_field_is_reported() {
    let m = metadata("", "", "", "");
    assert_eq!(validate_metadata(&m), Err("Field `slug` is empty.".to_owned()));
}
