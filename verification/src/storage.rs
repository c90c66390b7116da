//! Reading and writing the lock file's text. The TOML surface syntax is
//! handled by the `toml` crate behind trusted wrappers: what a given text
//! parses to is a function of the text alone and is therefore named
//! (`toml_tables_of`); which fields a record becomes and how version codes
//! read back is verified in `lock`.

use std::collections::HashMap;

use vstd::prelude::*;

use crate::lock::{lemma_field_views, spec_field_v, spec_fields_view, LockStore};
use crate::numbers::spec_parse_u32_or_zero;

verus! {

/// What a text parses to as a TOML document of tables of string values:
/// the table-name-to-fields mapping, or `None` when the text is not such a
/// document.
pub uninterp spec fn toml_tables_of(text: Seq<char>) -> Option<
    Map<Seq<char>, Map<Seq<char>, Seq<char>>>,
>;

/// Relies on `toml::from_str` deserializing a TOML document of tables of
/// string values into a map of maps: a deterministic parse of the text,
/// named `toml_tables_of` above. Table names are unique within the parsed
/// map, so the returned list repeats no name, and each table's fields look
/// up exactly as the named map has them; only the list's order is left
/// open, as it comes from a hash-map walk.
#[verifier::external_body]
fn toml_parse_tables(text: &str) -> (r: Result<Vec<(String, Vec<(String, String)>)>, String>)
    ensures
        r is Ok <==> toml_tables_of(text@) is Some,
        r is Ok ==> {
            let tables = r->Ok_0@;
            let tm = toml_tables_of(text@)->Some_0;
            &&& forall|i: int, j: int|
                0 <= i < j < tables.len() ==> (#[trigger] tables[i].0@) != (
                #[trigger] tables[j].0@)
            &&& forall|i: int|
                0 <= i < tables.len() ==> tm.dom().contains((#[trigger] tables[i]).0@)
            &&& forall|k: Seq<char>|
                tm.dom().contains(k) ==> exists|i: int|
                    0 <= i < tables.len() && (#[trigger] tables[i].0@) == k
            &&& forall|i: int, key: Seq<char>|
                0 <= i < tables.len() ==> #[trigger] spec_field_v(
                    spec_fields_view(tables[i].1@),
                    key,
                ) == (if tm[tables[i].0@].dom().contains(key) {
                    Some(tm[tables[i].0@][key])
                } else {
                    None::<Seq<char>>
                })
        },
{
    let tables: HashMap<String, HashMap<String, String>> = match toml::from_str(text) {
        Ok(t) => t,
        Err(e) => return Err(e.to_string()),
    };
    Ok(tables.into_iter().map(|(slug, fields)| (slug, fields.into_iter().collect())).collect())
}

/// Relies on `toml::to_string` serializing a map of tables of string
/// values as a TOML document. Such a map — string keys, string values —
/// has none of the datatypes serialization can fail on, so the call
/// succeeds; nothing is assumed of the produced text.
#[verifier::external_body]
fn toml_encode_tables(tables: &Vec<(String, Vec<(String, String)>)>) -> (r: Result<
    String,
    String,
>)
    ensures
        r is Ok,
{
    let map: HashMap<String, HashMap<String, String>> = tables
        .iter()
        .map(|(slug, fields)| (slug.clone(), fields.iter().cloned().collect()))
        .collect();
    toml::to_string(&map).map_err(|e| e.to_string())
}

/// Reads lock-file text into a store: it succeeds exactly on text that is
/// a TOML document of string tables, and the store then maps each table
/// name to the record its `id` and `version_code` fields denote, the
/// version code read as a numeral with 0 for unparsable text. Malformed
/// text is reported to the caller, for whom it is fatal: the run cannot
/// proceed without knowing the prior build state.
pub fn parse_lock_file(text: &str) -> (r: Result<LockStore, String>)
    ensures
        r is Ok <==> toml_tables_of(text@) is Some,
        r is Ok ==> r->Ok_0.wf(),
        r is Ok ==> {
            let tm = toml_tables_of(text@)->Some_0;
            &&& forall|k: Seq<char>|
                #![trigger r->Ok_0@.dom().contains(k)]
                #![trigger tm.dom().contains(k)]
                r->Ok_0@.dom().contains(k) <==> tm.dom().contains(k)
            &&& forall|k: Seq<char>|
                tm.dom().contains(k) ==> (#[trigger] r->Ok_0@[k]).id == (
                if tm[k].dom().contains("id"@) {
                    Some(tm[k]["id"@])
                } else {
                    None::<Seq<char>>
                })
            &&& forall|k: Seq<char>|
                tm.dom().contains(k) ==> (#[trigger] r->Ok_0@[k]).version_code == (
                if tm[k].dom().contains("version_code"@) {
                    Some(spec_parse_u32_or_zero(tm[k]["version_code"@]))
                } else {
                    None::<u32>
                })
        },
{
    match toml_parse_tables(text) {
        Ok(tables) => {
            let store = LockStore::from_tables(&tables);
            proof {
                let tm = toml_tables_of(text@)->Some_0;
                assert forall|k: Seq<char>| store@.dom().contains(k) implies tm.dom().contains(
                    k,
                ) by {
                    let i = choose|i: int|
                        0 <= i < tables@.len() && (#[trigger] tables@[i].0@) == k;
                }
                assert forall|k: Seq<char>| tm.dom().contains(k) implies store@.dom().contains(
                    k,
                ) by {
                    let i = choose|i: int|
                        0 <= i < tables@.len() && (#[trigger] tables@[i].0@) == k;
                }
                assert forall|k: Seq<char>| tm.dom().contains(k) implies (store@[k].id == (
                if tm[k].dom().contains("id"@) {
                    Some(tm[k]["id"@])
                } else {
                    None::<Seq<char>>
                }) && store@[k].version_code == (if tm[k].dom().contains("version_code"@) {
                    Some(spec_parse_u32_or_zero(tm[k]["version_code"@]))
                } else {
                    None::<u32>
                })) by {
                    let i = choose|i: int|
                        0 <= i < tables@.len() && (#[trigger] tables@[i].0@) == k;
                    lemma_field_views(tables@[i].1@, "id"@);
                    lemma_field_views(tables@[i].1@, "version_code"@);
                }
            }
            Ok(store)
        },
        Err(e) => Err(e),
    }
}

/// The store as lock-file text, one table per entry. Encoding a map of
/// string tables cannot fail, so the text is always produced; the caller
/// still treats a failed write of it as non-fatal, as a failed save must
/// not abort the extension being processed.
pub fn render_lock_file(lock: &LockStore) -> (r: Result<String, String>)
    requires
        lock.wf(),
    ensures
        r is Ok,
{
    toml_encode_tables(&lock.to_tables())
}

} // verus!
