//! Checks that a parsed extension descriptor carries the required fields.
//! A field made only of white space counts as empty; such metadata is
//! ineligible for processing and the caller skips the project.

use vstd::prelude::*;

use crate::structs::{Extension, Metadata};

verus! {

/// The Unicode characters that trimming removes (the `White_Space` property).
pub open spec fn spec_is_space(c: char) -> bool {
    c == '\u{9}' || c == '\u{a}' || c == '\u{b}' || c == '\u{c}' || c == '\u{d}'
        || c == ' ' || c == '\u{85}' || c == '\u{a0}' || c == '\u{1680}'
        || ('\u{2000}' <= c && c <= '\u{200a}') || c == '\u{2028}' || c == '\u{2029}'
        || c == '\u{202f}' || c == '\u{205f}' || c == '\u{3000}'
}

/// A string that trims to nothing: every character is white space.
pub open spec fn spec_is_blank(s: Seq<char>) -> bool {
    forall|i: int| 0 <= i < s.len() ==> spec_is_space(#[trigger] s[i])
}

fn char_is_space(c: char) -> (r: bool)
    ensures
        r == spec_is_space(c),
{
    c == '\u{9}' || c == '\u{a}' || c == '\u{b}' || c == '\u{c}' || c == '\u{d}'
        || c == ' ' || c == '\u{85}' || c == '\u{a0}' || c == '\u{1680}'
        || ('\u{2000}' <= c && c <= '\u{200a}') || c == '\u{2028}' || c == '\u{2029}'
        || c == '\u{202f}' || c == '\u{205f}' || c == '\u{3000}'
}

/// True exactly when `s` trims to the empty string.
pub fn str_is_blank(s: &str) -> (r: bool)
    ensures
        r == spec_is_blank(s@),
{
    let n = s.unicode_len();
    let mut i: usize = 0;
    while i < n
        invariant
            0 <= i <= n,
            n == s@.len(),
            forall|j: int| 0 <= j < i ==> spec_is_space(#[trigger] s@[j]),
        decreases n - i,
    {
        if !char_is_space(s.get_char(i)) {
            return false;
        }
        i = i + 1;
    }
    true
}

/// The required fields are all non-empty after trimming.
pub open spec fn spec_metadata_valid(m: Metadata) -> bool {
    &&& !spec_is_blank(m.extension.slug@)
    &&& !spec_is_blank(m.extension.name@)
    &&& !spec_is_blank(m.extension.version_name@)
    &&& !spec_is_blank(m.extension.language@)
}

/// The message validation fails with: it names the first required field,
/// in declaration order, that is empty after trimming.
pub open spec fn spec_validation_message(e: Extension) -> Seq<char> {
    if spec_is_blank(e.slug@) {
        "Field `slug` is empty."@
    } else if spec_is_blank(e.name@) {
        "Field `name` is empty."@
    } else if spec_is_blank(e.version_name@) {
        "Field `version_name` is empty."@
    } else {
        "Field `language` is empty."@
    }
}

/// Accepts metadata exactly when `slug`, `name`, `version_name` and
/// `language` are all non-empty after trimming; otherwise reports the first
/// empty field. A failure makes the extension ineligible, never the whole
/// run.
pub fn validate_metadata(metadata: &Metadata) -> (r: Result<(), String>)
    ensures
        r is Ok <==> spec_metadata_valid(*metadata),
        r is Err ==> r->Err_0@ == spec_validation_message(metadata.extension),
{
    let extension = &metadata.extension;

    if str_is_blank(extension.slug.as_str()) {
        return Err("Field `slug` is empty.".to_owned());
    }

    if str_is_blank(extension.name.as_str()) {
        return Err("Field `name` is empty.".to_owned());
    }

    if str_is_blank(extension.version_name.as_str()) {
        return Err("Field `version_name` is empty.".to_owned());
    }

    if str_is_blank(extension.language.as_str()) {
        return Err("Field `language` is empty.".to_owned());
    }

    Ok(())
}

} // verus!
