//! The lock store: the tool's durable memory of prior builds. It maps each
//! slug to a stable id, assigned once and never reassigned, and to the last
//! version code recorded for it. The store decides whether an extension
//! needs rebuilding, and is reconciled against the source tree by removing
//! entries whose project directory is gone.

use vstd::prelude::*;

use crate::numbers::{
    lemma_version_code_round_trip, parse_u32_or_zero, spec_parse_u32_or_zero, spec_u32_digits,
    u32_to_string,
};
use crate::structs::Metadata;
use crate::util::generate_uuid;

verus! {

/// One persisted record, keyed by its slug. A file written by hand or by an
/// older tool may lack either field, so both are optional; entries this tool
/// creates always carry both.
pub struct LockEntry {
    pub slug: String,
    pub id: Option<String>,
    pub version_code: Option<u32>,
}

/// The ghost value a slug is mapped to.
pub ghost struct LockRecord {
    pub id: Option<Seq<char>>,
    pub version_code: Option<u32>,
}

impl LockEntry {
    pub open spec fn record(self) -> LockRecord {
        LockRecord {
            id: match self.id {
                Some(s) => Some(s@),
                None => None,
            },
            version_code: self.version_code,
        }
    }
}

/// The mapping an entry sequence denotes; later entries would win, though a
/// well-formed store never repeats a slug.
pub open spec fn spec_map_of(es: Seq<LockEntry>) -> Map<Seq<char>, LockRecord>
    decreases es.len(),
{
    if es.len() == 0 {
        Map::empty()
    } else {
        spec_map_of(es.drop_last()).insert(es.last().slug@, es.last().record())
    }
}

pub open spec fn spec_distinct_slugs(es: Seq<LockEntry>) -> bool {
    forall|i: int, j: int|
        0 <= i < j < es.len() ==> (#[trigger] es[i].slug@) != (#[trigger] es[j].slug@)
}

/// The in-memory lock store: slug-keyed records in file order.
pub struct LockStore {
    entries: Vec<LockEntry>,
}

impl View for LockStore {
    type V = Map<Seq<char>, LockRecord>;

    closed spec fn view(&self) -> Map<Seq<char>, LockRecord> {
        spec_map_of(self.entries@)
    }
}

proof fn lemma_map_of_contains_index(es: Seq<LockEntry>, i: int)
    requires
        0 <= i < es.len(),
    ensures
        spec_map_of(es).dom().contains(es[i].slug@),
    decreases es.len(),
{
    if i < es.len() - 1 {
        lemma_map_of_contains_index(es.drop_last(), i);
    }
}

proof fn lemma_map_of_dom_to_index(es: Seq<LockEntry>, k: Seq<char>)
    requires
        spec_map_of(es).dom().contains(k),
    ensures
        exists|i: int| 0 <= i < es.len() && (#[trigger] es[i].slug@) == k,
    decreases es.len(),
{
    if es.len() > 0 {
        if es.last().slug@ == k {
            assert(es[es.len() - 1].slug@ == k);
        } else {
            lemma_map_of_dom_to_index(es.drop_last(), k);
            let i = choose|i: int|
                0 <= i < es.drop_last().len() && (#[trigger] es.drop_last()[i].slug@) == k;
            assert(es[i].slug@ == k);
        }
    }
}

proof fn lemma_map_of_get(es: Seq<LockEntry>, i: int)
    requires
        spec_distinct_slugs(es),
        0 <= i < es.len(),
    ensures
        spec_map_of(es).dom().contains(es[i].slug@),
        spec_map_of(es)[es[i].slug@] == es[i].record(),
    decreases es.len(),
{
    lemma_map_of_contains_index(es, i);
    if i < es.len() - 1 {
        assert(es[i].slug@ != es[es.len() - 1].slug@);
        lemma_map_of_get(es.drop_last(), i);
    }
}

proof fn lemma_map_of_update(es: Seq<LockEntry>, i: int, e: LockEntry)
    requires
        spec_distinct_slugs(es),
        0 <= i < es.len(),
        e.slug@ == es[i].slug@,
    ensures
        spec_map_of(es.update(i, e)) == spec_map_of(es).insert(e.slug@, e.record()),
    decreases es.len(),
{
    let updated = es.update(i, e);
    if i == es.len() - 1 {
        assert(updated.drop_last() =~= es.drop_last());
        assert(updated.last() == e);
        assert(spec_map_of(es).insert(e.slug@, e.record()) =~= spec_map_of(
            es.drop_last(),
        ).insert(es.last().slug@, es.last().record()).insert(e.slug@, e.record()));
    } else {
        assert(updated.drop_last() =~= es.drop_last().update(i, e));
        assert(updated.last() == es.last());
        lemma_map_of_update(es.drop_last(), i, e);
        assert(es[i].slug@ != es[es.len() - 1].slug@);
        assert(spec_map_of(es.drop_last()).insert(e.slug@, e.record()).insert(
            es.last().slug@,
            es.last().record(),
        ) =~= spec_map_of(es).insert(e.slug@, e.record()));
    }
}

proof fn lemma_map_of_remove(es: Seq<LockEntry>, i: int)
    requires
        spec_distinct_slugs(es),
        0 <= i < es.len(),
    ensures
        spec_map_of(es.remove(i)) == spec_map_of(es).remove(es[i].slug@),
    decreases es.len(),
{
    let removed = es.remove(i);
    if i == es.len() - 1 {
        assert(removed =~= es.drop_last());
        lemma_map_of_not_contained(es.drop_last(), es.last().slug@);
        assert(spec_map_of(es.drop_last()) =~= spec_map_of(es).remove(es[i].slug@));
    } else {
        assert(removed.drop_last() =~= es.drop_last().remove(i));
        assert(removed.last() == es.last());
        lemma_map_of_remove(es.drop_last(), i);
        assert(es[i].slug@ != es[es.len() - 1].slug@);
        assert(spec_map_of(es.drop_last()).remove(es[i].slug@).insert(
            es.last().slug@,
            es.last().record(),
        ) =~= spec_map_of(es).remove(es[i].slug@));
    }
}

proof fn lemma_map_of_not_contained(es: Seq<LockEntry>, k: Seq<char>)
    requires
        forall|i: int| 0 <= i < es.len() ==> (#[trigger] es[i].slug@) != k,
    ensures
        !spec_map_of(es).dom().contains(k),
{
    if spec_map_of(es).dom().contains(k) {
        lemma_map_of_dom_to_index(es, k);
    }
}

impl LockStore {
    pub closed spec fn wf(self) -> bool {
        spec_distinct_slugs(self.entries@)
    }

    /// The entries in file order; the map view forgets the order.
    pub closed spec fn entry_seq(self) -> Seq<LockEntry> {
        self.entries@
    }

    /// An empty store.
    pub fn new() -> (r: LockStore)
        ensures
            r.wf(),
            r@ == Map::<Seq<char>, LockRecord>::empty(),
            r.entry_seq() == Seq::<LockEntry>::empty(),
    {
        LockStore { entries: Vec::new() }
    }

    /// How many slugs the store knows.
    pub fn len(&self) -> (r: usize)
        ensures
            r == self.entry_seq().len(),
    {
        self.entries.len()
    }

    fn find_index(&self, slug: &String) -> (r: Option<usize>)
        ensures
            match r {
                Some(i) => i < self.entries@.len() && self.entries@[i as int].slug@ == slug@,
                None => forall|i: int|
                    0 <= i < self.entries@.len() ==> (#[trigger] self.entries@[i].slug@) != slug@,
            },
    {
        let n = self.entries.len();
        let mut i: usize = 0;
        while i < n
            invariant
                0 <= i <= n,
                n == self.entries@.len(),
                forall|j: int| 0 <= j < i ==> (#[trigger] self.entries@[j].slug@) != slug@,
            decreases n - i,
        {
            if self.entries[i].slug == *slug {
                return Some(i);
            }
            i = i + 1;
        }
        None
    }

    /// Whether a slug is recorded.
    pub fn contains_slug(&self, slug: &String) -> (r: bool)
        ensures
            r == self@.dom().contains(slug@),
    {
        match self.find_index(slug) {
            Some(i) => {
                proof {
                    lemma_map_of_contains_index(self.entries@, i as int);
                }
                true
            },
            None => {
                proof {
                    lemma_map_of_not_contained(self.entries@, slug@);
                }
                false
            },
        }
    }
}

/// The stored id of a slug, when the slug is recorded and its record has one.
pub fn get_lock_entry_id(lock: &LockStore, slug: &String) -> (r: Option<String>)
    requires
        lock.wf(),
    ensures
        r is Some <==> lock@.dom().contains(slug@) && lock@[slug@].id is Some,
        r is Some ==> r->Some_0@ == lock@[slug@].id->Some_0,
{
    match lock.find_index(slug) {
        Some(i) => {
            proof {
                lemma_map_of_get(lock.entries@, i as int);
            }
            match &lock.entries[i].id {
                Some(id) => Some(id.clone()),
                None => None,
            }
        },
        None => {
            proof {
                lemma_map_of_not_contained(lock.entries@, slug@);
            }
            None
        },
    }
}

/// The stored version code of a slug, when the slug is recorded and its
/// record has one.
pub fn get_lock_entry_version_code(lock: &LockStore, slug: &String) -> (r: Option<u32>)
    requires
        lock.wf(),
    ensures
        r is Some <==> lock@.dom().contains(slug@) && lock@[slug@].version_code is Some,
        r is Some ==> r->Some_0 == lock@[slug@].version_code->Some_0,
{
    match lock.find_index(slug) {
        Some(i) => {
            proof {
                lemma_map_of_get(lock.entries@, i as int);
            }
            lock.entries[i].version_code
        },
        None => {
            proof {
                lemma_map_of_not_contained(lock.entries@, slug@);
            }
            None
        },
    }
}

/// When a rebuild is due: the slug is unknown, or its record carries no
/// version code, or the metadata's version code is strictly newer.
pub open spec fn spec_requires_build(m: Metadata, l: Map<Seq<char>, LockRecord>) -> bool {
    let s = m.extension.slug@;
    if !l.dom().contains(s) {
        true
    } else {
        match l[s].version_code {
            None => true,
            Some(v) => m.extension.version_code > v,
        }
    }
}

/// True if the extension needs to be built: it is not present in the lock,
/// its entry has no version code, or its version code is higher than the
/// recorded one. Equal or lower version codes mean no rebuild.
pub fn extension_requires_build(metadata: &Metadata, lock: &LockStore) -> (r: bool)
    requires
        lock.wf(),
    ensures
        r == spec_requires_build(*metadata, lock@),
{
    match lock.find_index(&metadata.extension.slug) {
        Some(i) => {
            proof {
                lemma_map_of_get(lock.entries@, i as int);
            }
            match lock.entries[i].version_code {
                Some(v) => metadata.extension.version_code > v,
                None => true,
            }
        },
        None => {
            proof {
                lemma_map_of_not_contained(lock.entries@, metadata.extension.slug@);
            }
            true
        },
    }
}

/// Inserts a fresh record for the metadata's slug: a newly generated stable
/// id and the metadata's version code. A slug already present is left
/// entirely alone.
pub fn add_entry_to_lock(lock: &mut LockStore, metadata: &Metadata)
    requires
        old(lock).wf(),
    ensures
        final(lock).wf(),
        old(lock)@.dom().contains(metadata.extension.slug@) ==> *final(lock) == *old(lock),
        !old(lock)@.dom().contains(metadata.extension.slug@) ==> {
            let s = metadata.extension.slug@;
            &&& final(lock)@.dom() == old(lock)@.dom().insert(s)
            &&& final(lock)@[s].id is Some
            &&& final(lock)@[s].id->Some_0.len() == 36
            &&& final(lock)@[s].version_code == Some(metadata.extension.version_code)
            &&& forall|k: Seq<char>|
                k != s && old(lock)@.dom().contains(k) ==> final(lock)@[k] == #[trigger] old(
                    lock,
                )@[k]
        },
{
    match lock.find_index(&metadata.extension.slug) {
        Some(i) => {
            proof {
                lemma_map_of_contains_index(lock.entries@, i as int);
            }
        },
        None => {
            proof {
                lemma_map_of_not_contained(lock.entries@, metadata.extension.slug@);
            }
            let ghost es0 = lock.entries@;
            let id = generate_uuid();
            let entry = LockEntry {
                slug: metadata.extension.slug.clone(),
                id: Some(id),
                version_code: Some(metadata.extension.version_code),
            };
            lock.entries.push(entry);
            proof {
                assert(lock.entries@.drop_last() =~= es0);
                assert(final(lock)@.dom() =~= old(lock)@.dom().insert(
                    metadata.extension.slug@,
                ));
            }
        },
    }
}

/// Replaces the version code of an already recorded slug with the
/// metadata's, preserving the stored id. An unknown slug is a caller error
/// and changes nothing.
pub fn update_lock_entry(lock: &mut LockStore, metadata: &Metadata)
    requires
        old(lock).wf(),
    ensures
        final(lock).wf(),
        old(lock)@.dom().contains(metadata.extension.slug@) ==> final(lock)@ == old(
            lock,
        )@.insert(
            metadata.extension.slug@,
            LockRecord {
                id: old(lock)@[metadata.extension.slug@].id,
                version_code: Some(metadata.extension.version_code),
            },
        ),
        !old(lock)@.dom().contains(metadata.extension.slug@) ==> *final(lock) == *old(lock),
{
    match lock.find_index(&metadata.extension.slug) {
        Some(i) => {
            proof {
                lemma_map_of_get(lock.entries@, i as int);
            }
            let ghost es0 = lock.entries@;
            let slot = &mut lock.entries[i];
            slot.version_code = Some(metadata.extension.version_code);
            proof {
                lemma_map_of_update(es0, i as int, lock.entries@[i as int]);
                assert(lock.entries@ =~= es0.update(i as int, lock.entries@[i as int]));
            }
        },
        None => {
            proof {
                lemma_map_of_not_contained(lock.entries@, metadata.extension.slug@);
            }
        },
    }
}

/// The first value stored under `key`, if any.
pub open spec fn spec_field(fields: Seq<(String, String)>, key: Seq<char>) -> Option<Seq<char>>
    decreases fields.len(),
{
    if fields.len() == 0 {
        None
    } else if fields[0].0@ == key {
        Some(fields[0].1@)
    } else {
        spec_field(fields.skip(1), key)
    }
}

/// A field list as ghost pairs.
pub open spec fn spec_fields_view(fields: Seq<(String, String)>) -> Seq<(Seq<char>, Seq<char>)> {
    fields.map_values(|f: (String, String)| (f.0@, f.1@))
}

/// The fields a record is written out as: an `id` field when the record has
/// one, then a `version_code` field holding the code in decimal.
pub open spec fn spec_entry_fields(e: LockEntry) -> Seq<(Seq<char>, Seq<char>)> {
    (match e.id {
        Some(id) => seq![("id"@, id@)],
        None => Seq::<(Seq<char>, Seq<char>)>::empty(),
    }) + (match e.version_code {
        Some(v) => seq![("version_code"@, spec_u32_digits(v as int))],
        None => Seq::<(Seq<char>, Seq<char>)>::empty(),
    })
}

fn field_value(fields: &Vec<(String, String)>, key: &String) -> (r: Option<String>)
    ensures
        r is Some <==> spec_field(fields@, key@) is Some,
        r is Some ==> r->Some_0@ == spec_field(fields@, key@)->Some_0,
{
    let n = fields.len();
    let mut i: usize = 0;
    proof {
        assert(fields@.skip(0) =~= fields@);
    }
    while i < n
        invariant
            0 <= i <= n,
            n == fields@.len(),
            spec_field(fields@, key@) == spec_field(fields@.skip(i as int), key@),
        decreases n - i,
    {
        proof {
            assert(fields@.skip(i as int)[0] == fields@[i as int]);
            assert(fields@.skip(i as int).skip(1) =~= fields@.skip(i as int + 1));
        }
        if fields[i].0 == *key {
            return Some(fields[i].1.clone());
        }
        i = i + 1;
    }
    proof {
        assert(fields@.skip(n as int) =~= Seq::<(String, String)>::empty());
    }
    None
}

impl LockStore {
    /// Rebuilds a store from parsed lock-file tables: each table becomes one
    /// entry, its `id` and `version_code` fields taken by name and the
    /// version code read as a numeral, unparsable text counting as 0. Table
    /// names are distinct in any parsed document.
    pub fn from_tables(tables: &Vec<(String, Vec<(String, String)>)>) -> (r: LockStore)
        requires
            forall|i: int, j: int|
                0 <= i < j < tables@.len() ==> (#[trigger] tables@[i].0@) != (
                #[trigger] tables@[j].0@),
        ensures
            r.wf(),
            r.entry_seq().len() == tables@.len(),
            forall|i: int|
                0 <= i < tables@.len() ==> {
                    let slug = (#[trigger] tables@[i]).0@;
                    &&& r@.dom().contains(slug)
                    &&& r@[slug].id == spec_field(tables@[i].1@, "id"@)
                    &&& r@[slug].version_code == match spec_field(
                        tables@[i].1@,
                        "version_code"@,
                    ) {
                        None => None::<u32>,
                        Some(v) => Some(spec_parse_u32_or_zero(v)),
                    }
                },
            forall|k: Seq<char>|
                r@.dom().contains(k) ==> exists|i: int|
                    0 <= i < tables@.len() && (#[trigger] tables@[i].0@) == k,
    {
        let id_key = "id".to_owned();
        let vc_key = "version_code".to_owned();
        let mut entries: Vec<LockEntry> = Vec::new();
        let n = tables.len();
        let mut i: usize = 0;
        while i < n
            invariant
                0 <= i <= n,
                n == tables@.len(),
                id_key@ == "id"@,
                vc_key@ == "version_code"@,
                entries@.len() == i,
                forall|a: int, b: int|
                    0 <= a < b < tables@.len() ==> (#[trigger] tables@[a].0@) != (
                    #[trigger] tables@[b].0@),
                forall|a: int|
                    0 <= a < i ==> (#[trigger] entries@[a]).slug@ == tables@[a].0@
                        && entries@[a].record().id == spec_field(tables@[a].1@, "id"@)
                        && entries@[a].record().version_code == match spec_field(
                        tables@[a].1@,
                        "version_code"@,
                    ) {
                        None => None::<u32>,
                        Some(v) => Some(spec_parse_u32_or_zero(v)),
                    },
            decreases n - i,
        {
            let id = field_value(&tables[i].1, &id_key);
            let version_code = match field_value(&tables[i].1, &vc_key) {
                Some(text) => Some(parse_u32_or_zero(text.as_str())),
                None => None,
            };
            let entry = LockEntry { slug: tables[i].0.clone(), id, version_code };
            entries.push(entry);
            i = i + 1;
        }
        let store = LockStore { entries };
        proof {
            assert forall|i: int| 0 <= i < tables@.len() implies {
                let slug = (#[trigger] tables@[i]).0@;
                &&& store@.dom().contains(slug)
                &&& store@[slug].id == spec_field(tables@[i].1@, "id"@)
                &&& store@[slug].version_code == match spec_field(
                    tables@[i].1@,
                    "version_code"@,
                ) {
                    None => None::<u32>,
                    Some(v) => Some(spec_parse_u32_or_zero(v)),
                }
            } by {
                lemma_map_of_get(store.entries@, i);
            }
            assert forall|k: Seq<char>| store@.dom().contains(k) implies exists|i: int|
                0 <= i < tables@.len() && (#[trigger] tables@[i].0@) == k by {
                lemma_map_of_dom_to_index(store.entries@, k);
                let w = choose|w: int|
                    0 <= w < store.entries@.len() && (#[trigger] store.entries@[w].slug@) == k;
                assert(tables@[w].0@ == k);
            }
        }
        store
    }

    /// The store as lock-file tables, in entry order: one table per slug,
    /// no name repeated, and each table's fields reading back to exactly
    /// the record the store maps that slug to.
    pub fn to_tables(&self) -> (r: Vec<(String, Vec<(String, String)>)>)
        requires
            self.wf(),
        ensures
            r@.len() == self.entry_seq().len(),
            forall|i: int|
                0 <= i < r@.len() ==> (#[trigger] r@[i]).0@ == self.entry_seq()[i].slug@
                    && spec_fields_view(r@[i].1@) == spec_entry_fields(self.entry_seq()[i]),
            forall|i: int, j: int|
                0 <= i < j < r@.len() ==> (#[trigger] r@[i].0@) != (#[trigger] r@[j].0@),
            forall|i: int|
                0 <= i < r@.len() ==> {
                    let slug = (#[trigger] r@[i]).0@;
                    &&& self@.dom().contains(slug)
                    &&& spec_field_v(spec_fields_view(r@[i].1@), "id"@) == self@[slug].id
                    &&& (match spec_field_v(spec_fields_view(r@[i].1@), "version_code"@) {
                        None => None::<u32>,
                        Some(v) => Some(spec_parse_u32_or_zero(v)),
                    }) == self@[slug].version_code
                },
            forall|k: Seq<char>|
                self@.dom().contains(k) ==> exists|i: int|
                    0 <= i < r@.len() && (#[trigger] r@[i].0@) == k,
    {
        let mut tables: Vec<(String, Vec<(String, String)>)> = Vec::new();
        let n = self.entries.len();
        let mut i: usize = 0;
        while i < n
            invariant
                0 <= i <= n,
                n == self.entries@.len(),
                tables@.len() == i,
                forall|a: int|
                    0 <= a < i ==> (#[trigger] tables@[a]).0@ == self.entries@[a].slug@
                        && spec_fields_view(tables@[a].1@) == spec_entry_fields(
                        self.entries@[a],
                    ),
            decreases n - i,
        {
            let entry = &self.entries[i];
            let mut fields: Vec<(String, String)> = Vec::new();
            match &entry.id {
                Some(id) => {
                    fields.push(("id".to_owned(), id.clone()));
                },
                None => {},
            }
            match entry.version_code {
                Some(v) => {
                    fields.push(("version_code".to_owned(), u32_to_string(v)));
                },
                None => {},
            }
            proof {
                assert(spec_fields_view(fields@) =~= spec_entry_fields(self.entries@[i as int]));
            }
            tables.push((entry.slug.clone(), fields));
            i = i + 1;
        }
        proof {
            assert forall|a: int| 0 <= a < tables@.len() implies {
                let slug = (#[trigger] tables@[a]).0@;
                &&& self@.dom().contains(slug)
                &&& spec_field_v(spec_fields_view(tables@[a].1@), "id"@) == self@[slug].id
                &&& (match spec_field_v(spec_fields_view(tables@[a].1@), "version_code"@) {
                    None => None::<u32>,
                    Some(v) => Some(spec_parse_u32_or_zero(v)),
                }) == self@[slug].version_code
            } by {
                lemma_map_of_get(self.entries@, a);
                lemma_entry_fields_read_back(self.entries@[a]);
            }
            assert forall|k: Seq<char>| self@.dom().contains(k) implies exists|i: int|
                0 <= i < tables@.len() && (#[trigger] tables@[i].0@) == k by {
                lemma_map_of_dom_to_index(self.entries@, k);
                let w = choose|w: int|
                    0 <= w < self.entries@.len() && (#[trigger] self.entries@[w].slug@) == k;
                assert(tables@[w].0@ == k);
            }
        }
        tables
    }
}

/// `spec_field` over ghost pairs.
pub open spec fn spec_field_v(
    fields: Seq<(Seq<char>, Seq<char>)>,
    key: Seq<char>,
) -> Option<Seq<char>>
    decreases fields.len(),
{
    if fields.len() == 0 {
        None
    } else if fields[0].0 == key {
        Some(fields[0].1)
    } else {
        spec_field_v(fields.skip(1), key)
    }
}

pub proof fn lemma_field_views(fields: Seq<(String, String)>, key: Seq<char>)
    ensures
        spec_field(fields, key) == spec_field_v(spec_fields_view(fields), key),
    decreases fields.len(),
{
    if fields.len() > 0 {
        lemma_field_views(fields.skip(1), key);
        assert(spec_fields_view(fields).skip(1) =~= spec_fields_view(fields.skip(1)));
    }
}

/// The lock file round-trips: the fields an entry is written out as read
/// back to the same record, the version code by way of its decimal round
/// trip. Together with the contracts of `to_tables` and `from_tables` this
/// says a saved store loads back unchanged, record for record.
pub proof fn lemma_entry_fields_read_back(e: LockEntry)
    ensures
        spec_field_v(spec_entry_fields(e), "id"@) == (match e.id {
            Some(id) => Some(id@),
            None => None::<Seq<char>>,
        }),
        (match spec_field_v(spec_entry_fields(e), "version_code"@) {
            None => None::<u32>,
            Some(v) => Some(spec_parse_u32_or_zero(v)),
        }) == e.version_code,
{
    reveal_strlit("id");
    reveal_strlit("version_code");
    assert("id"@.len() == 2);
    assert("version_code"@.len() == 12);
    let fields = spec_entry_fields(e);
    assert("id"@ != "version_code"@);
    match e.id {
        Some(id) => {
            assert(fields[0] == ("id"@, id@));
            assert(spec_field_v(fields, "id"@) == Some(id@));
            assert(spec_field_v(fields, "version_code"@) == spec_field_v(
                fields.skip(1),
                "version_code"@,
            ));
            match e.version_code {
                Some(v) => {
                    assert(fields.len() == 2);
                    assert(fields[1] == ("version_code"@, spec_u32_digits(v as int)));
                    assert(fields.skip(1)[0] == fields[1]);
                    assert(spec_field_v(fields.skip(1), "version_code"@) == Some(
                        spec_u32_digits(v as int),
                    ));
                    lemma_version_code_round_trip(v);
                },
                None => {
                    assert(fields.len() == 1);
                    assert(fields.skip(1) =~= Seq::<(Seq<char>, Seq<char>)>::empty());
                    assert(spec_field_v(fields.skip(1), "version_code"@) is None);
                },
            }
        },
        None => {
            match e.version_code {
                Some(v) => {
                    assert(fields.len() == 1);
                    assert(fields[0] == ("version_code"@, spec_u32_digits(v as int)));
                    assert(spec_field_v(fields, "version_code"@) == Some(
                        spec_u32_digits(v as int),
                    ));
                    assert(spec_field_v(fields, "id"@) == spec_field_v(fields.skip(1), "id"@));
                    assert(fields.skip(1) =~= Seq::<(Seq<char>, Seq<char>)>::empty());
                    assert(spec_field_v(fields.skip(1), "id"@) is None);
                    lemma_version_code_round_trip(v);
                },
                None => {
                    assert(fields.len() == 0);
                    assert(spec_field_v(fields, "id"@) is None);
                    assert(spec_field_v(fields, "version_code"@) is None);
                },
            }
        },
    }
}

/// Load after save round-trips the mapping. The first three hypotheses are
/// what `to_tables` promises of a saved store's tables against its view
/// `s`; the last two are what `from_tables` promises of the reloaded view
/// `r` against those tables. Together they force `r == s`: every record
/// survives a save and a load unchanged. Equality of the encoded text is
/// deliberately not claimed — the encoder's table order varies per process.
pub proof fn lemma_tables_round_trip(
    s: Map<Seq<char>, LockRecord>,
    ts: Seq<(String, Vec<(String, String)>)>,
    r: Map<Seq<char>, LockRecord>,
)
    requires
        forall|i: int|
            0 <= i < ts.len() ==> {
                let slug = (#[trigger] ts[i]).0@;
                &&& s.dom().contains(slug)
                &&& spec_field_v(spec_fields_view(ts[i].1@), "id"@) == s[slug].id
                &&& (match spec_field_v(spec_fields_view(ts[i].1@), "version_code"@) {
                    None => None::<u32>,
                    Some(v) => Some(spec_parse_u32_or_zero(v)),
                }) == s[slug].version_code
            },
        forall|k: Seq<char>|
            s.dom().contains(k) ==> exists|i: int| 0 <= i < ts.len() && (#[trigger] ts[i].0@)
                == k,
        forall|i: int|
            0 <= i < ts.len() ==> {
                let slug = (#[trigger] ts[i]).0@;
                &&& r.dom().contains(slug)
                &&& r[slug].id == spec_field(ts[i].1@, "id"@)
                &&& r[slug].version_code == (match spec_field(ts[i].1@, "version_code"@) {
                    None => None::<u32>,
                    Some(v) => Some(spec_parse_u32_or_zero(v)),
                })
            },
        forall|k: Seq<char>|
            r.dom().contains(k) ==> exists|i: int| 0 <= i < ts.len() && (#[trigger] ts[i].0@)
                == k,
    ensures
        r == s,
{
    assert forall|k: Seq<char>| s.dom().contains(k) implies r.dom().contains(k) && r[k] == s[
        k
    ] by {
        let i = choose|i: int| 0 <= i < ts.len() && (#[trigger] ts[i].0@) == k;
        lemma_field_views(ts[i].1@, "id"@);
        lemma_field_views(ts[i].1@, "version_code"@);
    }
    assert forall|k: Seq<char>| r.dom().contains(k) implies s.dom().contains(k) by {
        let i = choose|i: int| 0 <= i < ts.len() && (#[trigger] ts[i].0@) == k;
    }
    assert(r =~= s);
}

/// Index of the first `.` in `s`, or `s.len()` when there is none.
pub open spec fn spec_first_dot(s: Seq<char>) -> int
    decreases s.len(),
{
    if s.len() == 0 {
        0
    } else if s[0] == '.' {
        0
    } else {
        1 + spec_first_dot(s.skip(1))
    }
}

pub proof fn lemma_first_dot(s: Seq<char>)
    ensures
        0 <= spec_first_dot(s) <= s.len(),
        spec_first_dot(s) < s.len() ==> s[spec_first_dot(s)] == '.',
        forall|j: int| 0 <= j < spec_first_dot(s) ==> s[j] != '.',
    decreases s.len(),
{
    if s.len() > 0 && s[0] != '.' {
        lemma_first_dot(s.skip(1));
        assert forall|j: int| 0 <= j < spec_first_dot(s) implies s[j] != '.' by {
            if j > 0 {
                assert(s.skip(1)[j - 1] == s[j]);
            }
        }
        if spec_first_dot(s) < s.len() {
            assert(s.skip(1)[spec_first_dot(s) - 1] == s[spec_first_dot(s)]);
        }
    }
}

/// The first two dot-separated segments of a slug: its `{language}` and
/// `{extension name}`. None when the slug holds no `.` at all, the
/// malformed case that is only warned about.
pub open spec fn spec_slug_parts(s: Seq<char>) -> Option<(Seq<char>, Seq<char>)> {
    let f1 = spec_first_dot(s);
    if f1 == s.len() {
        None
    } else {
        let rest = s.skip(f1 + 1);
        Some((s.take(f1), rest.take(spec_first_dot(rest))))
    }
}

fn find_dot(s: &str, from: usize) -> (r: usize)
    requires
        from <= s@.len(),
    ensures
        from <= r <= s@.len(),
        r < s@.len() ==> s@[r as int] == '.',
        forall|j: int| from <= j < r ==> s@[j] != '.',
{
    let n = s.unicode_len();
    let mut i = from;
    while i < n
        invariant
            from <= i <= n,
            n == s@.len(),
            forall|j: int| from <= j < i ==> s@[j] != '.',
        decreases n - i,
    {
        if s.get_char(i) == '.' {
            return i;
        }
        i = i + 1;
    }
    n
}

/// Splits a slug into its language and extension-name segments.
pub fn split_slug(slug: &String) -> (r: Option<(String, String)>)
    ensures
        r is Some <==> spec_slug_parts(slug@) is Some,
        r is Some ==> r->Some_0.0@ == spec_slug_parts(slug@)->Some_0.0 && r->Some_0.1@
            == spec_slug_parts(slug@)->Some_0.1,
{
    let s = slug.as_str();
    let n = s.unicode_len();
    proof {
        lemma_first_dot(s@);
    }
    let ghost f1 = spec_first_dot(s@);
    let i1 = find_dot(s, 0);
    proof {
        if i1 < f1 {
            assert(s@[i1 as int] == '.');
        }
        if f1 < i1 {
            assert(s@[f1] == '.');
        }
        assert(i1 == f1);
    }
    if i1 == n {
        return None;
    }
    let ghost rest = s@.skip(f1 + 1);
    proof {
        lemma_first_dot(rest);
    }
    let ghost f2 = spec_first_dot(rest);
    let i2 = find_dot(s, i1 + 1);
    proof {
        assert forall|k: int| 0 <= k < rest.len() implies rest[k] == s@[k + f1 + 1] by {}
        if i2 - i1 - 1 < f2 {
            assert(rest[i2 - i1 - 1] == s@[i2 as int]);
        }
        if f2 < i2 - i1 - 1 {
            assert(rest[f2] == s@[f2 + f1 + 1]);
        }
        assert(i2 - i1 - 1 == f2);
    }
    let lang = s.substring_char(0, i1).to_owned();
    let name = s.substring_char(i1 + 1, i2).to_owned();
    proof {
        assert(lang@ =~= s@.take(f1));
        assert(name@ =~= rest.take(f2));
    }
    Some((lang, name))
}

/// The (language, extension name) directory pairs present under the source
/// tree, as ghost values.
pub open spec fn spec_dir_pairs(dirs: Seq<(String, String)>) -> Seq<(Seq<char>, Seq<char>)> {
    dirs.map_values(|d: (String, String)| (d.0@, d.1@))
}

/// A recorded slug is stale when it splits into a `{language}.{name}` pair
/// whose source directory is gone. A slug without two segments is
/// malformed, not stale.
pub open spec fn spec_is_stale(s: Seq<char>, dirs: Seq<(Seq<char>, Seq<char>)>) -> bool {
    match spec_slug_parts(s) {
        None => false,
        Some(p) => !dirs.contains(p),
    }
}

/// The set of slugs a list of slug strings denotes.
pub open spec fn spec_slug_set(v: Seq<String>) -> Set<Seq<char>> {
    Set::new(|s: Seq<char>| exists|i: int| 0 <= i < v.len() && (#[trigger] v[i])@ == s)
}

/// Every slug that is stale against the given directory pairs.
pub open spec fn spec_stale_set(dirs: Seq<(Seq<char>, Seq<char>)>) -> Set<Seq<char>> {
    Set::new(|s: Seq<char>| spec_is_stale(s, dirs))
}

fn dirs_contain(dirs: &Vec<(String, String)>, lang: &String, name: &String) -> (r: bool)
    ensures
        r == spec_dir_pairs(dirs@).contains((lang@, name@)),
{
    let n = dirs.len();
    let mut i: usize = 0;
    while i < n
        invariant
            0 <= i <= n,
            n == dirs@.len(),
            forall|j: int| 0 <= j < i ==> #[trigger] spec_dir_pairs(dirs@)[j] != (lang@, name@),
        decreases n - i,
    {
        let hit = dirs[i].0 == *lang && dirs[i].1 == *name;
        proof {
            assert(spec_dir_pairs(dirs@)[i as int] == (dirs@[i as int].0@, dirs@[i as int].1@));
        }
        if hit {
            return true;
        }
        i = i + 1;
    }
    proof {
        if spec_dir_pairs(dirs@).contains((lang@, name@)) {
            let j = choose|j: int|
                0 <= j < spec_dir_pairs(dirs@).len() && spec_dir_pairs(dirs@)[j] == (
                    lang@,
                    name@,
                );
        }
    }
    false
}

/// Walks the recorded slugs and collects those whose `{language}/{name}`
/// source directory is no longer present. Malformed slugs (fewer than two
/// dot-separated segments) are passed over.
pub fn check_extensions_against_lock(lock: &LockStore, dirs: &Vec<(String, String)>) -> (r: Vec<
    String,
>)
    requires
        lock.wf(),
    ensures
        forall|j: int|
            0 <= j < r@.len() ==> lock@.dom().contains((#[trigger] r@[j])@) && spec_is_stale(
                r@[j]@,
                spec_dir_pairs(dirs@),
            ),
        forall|s: Seq<char>|
            lock@.dom().contains(s) && spec_is_stale(s, spec_dir_pairs(dirs@))
                ==> spec_slug_set(r@).contains(s),
{
    let mut stale: Vec<String> = Vec::new();
    let n = lock.entries.len();
    let mut i: usize = 0;
    while i < n
        invariant
            0 <= i <= n,
            n == lock.entries@.len(),
            lock.wf(),
            forall|j: int|
                0 <= j < stale@.len() ==> lock@.dom().contains((#[trigger] stale@[j])@)
                    && spec_is_stale(stale@[j]@, spec_dir_pairs(dirs@)),
            forall|k: int|
                0 <= k < i && spec_is_stale((#[trigger] lock.entries@[k]).slug@, spec_dir_pairs(
                    dirs@,
                )) ==> spec_slug_set(stale@).contains(lock.entries@[k].slug@),
        decreases n - i,
    {
        let slug = &lock.entries[i].slug;
        let ghost stale0 = stale@;
        let mut pushed = false;
        match split_slug(slug) {
            Some((lang, name)) => {
                if !dirs_contain(dirs, &lang, &name) {
                    stale.push(slug.clone());
                    pushed = true;
                    proof {
                        lemma_map_of_contains_index(lock.entries@, i as int);
                    }
                }
            },
            None => {},
        }
        proof {
            assert forall|s: Seq<char>| spec_slug_set(stale0).contains(s) implies spec_slug_set(
                stale@,
            ).contains(s) by {
                let w = choose|w: int| 0 <= w < stale0.len() && (#[trigger] stale0[w])@ == s;
                assert(stale@[w]@ == s);
            }
            if pushed {
                assert(stale@[stale@.len() - 1]@ == lock.entries@[i as int].slug@);
                assert(spec_slug_set(stale@).contains(lock.entries@[i as int].slug@));
            }
        }
        i = i + 1;
    }
    proof {
        assert forall|s: Seq<char>|
            lock@.dom().contains(s) && spec_is_stale(s, spec_dir_pairs(dirs@)) implies
            spec_slug_set(stale@).contains(s) by {
            lemma_map_of_dom_to_index(lock.entries@, s);
            let k = choose|k: int|
                0 <= k < lock.entries@.len() && (#[trigger] lock.entries@[k].slug@) == s;
        }
    }
    stale
}

/// Removes every listed slug from the store, leaving other entries
/// untouched; the caller persists the store afterwards.
pub fn remove_stale_entries_from_lock(lock: &mut LockStore, stale_slugs: &Vec<String>)
    requires
        old(lock).wf(),
    ensures
        final(lock).wf(),
        final(lock)@ == old(lock)@.remove_keys(spec_slug_set(stale_slugs@)),
{
    let n = stale_slugs.len();
    let mut i: usize = 0;
    while i < n
        invariant
            0 <= i <= n,
            n == stale_slugs@.len(),
            lock.wf(),
            lock@ == old(lock)@.remove_keys(spec_slug_set(stale_slugs@.take(i as int))),
        decreases n - i,
    {
        let ghost prev = lock@;
        let ghost set_i = spec_slug_set(stale_slugs@.take(i as int));
        let ghost set_i1 = spec_slug_set(stale_slugs@.take(i as int + 1));
        proof {
            assert forall|s: Seq<char>| set_i.contains(s) implies set_i1.contains(s) by {
                let w = choose|w: int|
                    0 <= w < stale_slugs@.take(i as int).len() && (#[trigger] stale_slugs@.take(
                        i as int,
                    )[w])@ == s;
                assert(stale_slugs@.take(i as int + 1)[w]@ == s);
            }
            assert forall|s: Seq<char>| set_i1.contains(s) implies set_i.contains(s) || s
                == stale_slugs@[i as int]@ by {
                let w = choose|w: int|
                    0 <= w < stale_slugs@.take(i as int + 1).len() && (#[trigger] stale_slugs@.take(
                        i as int + 1,
                    )[w])@ == s;
                if w < i {
                    assert(stale_slugs@.take(i as int)[w]@ == s);
                }
            }
            assert(set_i1.contains(stale_slugs@[i as int]@)) by {
                assert(stale_slugs@.take(i as int + 1)[i as int]@ == stale_slugs@[i as int]@);
            }
        }
        match lock.find_index(&stale_slugs[i]) {
            Some(j) => {
                let ghost es0 = lock.entries@;
                let _ = lock.entries.remove(j);
                proof {
                    lemma_map_of_remove(es0, j as int);
                    es0.remove_ensures(j as int);
                    assert forall|a: int, b: int|
                        0 <= a < b < lock.entries@.len() implies (
                    #[trigger] lock.entries@[a].slug@) != (#[trigger] lock.entries@[b].slug@) by {
                        let a0 = if a < j { a } else { a + 1 };
                        let b0 = if b < j { b } else { b + 1 };
                        assert(lock.entries@[a] == es0[a0]);
                        assert(lock.entries@[b] == es0[b0]);
                    }
                    assert(lock@ =~= old(lock)@.remove_keys(set_i1));
                }
            },
            None => {
                proof {
                    lemma_map_of_not_contained(lock.entries@, stale_slugs@[i as int]@);
                    assert(lock@ =~= old(lock)@.remove_keys(set_i1));
                }
            },
        }
        i = i + 1;
    }
    proof {
        assert(stale_slugs@.take(n as int) =~= stale_slugs@);
    }
}

/// How one decision step is allowed to change the store: nothing at all
/// when no rebuild is due; otherwise the slug's record now carries the
/// metadata's version code, a previously stored id is kept, a fresh 36
/// character id is assigned to a new slug, and every other record is
/// untouched.
pub open spec fn spec_lock_after_decision(
    m: Metadata,
    l0: Map<Seq<char>, LockRecord>,
    l1: Map<Seq<char>, LockRecord>,
) -> bool {
    let s = m.extension.slug@;
    if !spec_requires_build(m, l0) {
        l1 == l0
    } else {
        &&& l1.dom() == l0.dom().insert(s)
        &&& l1[s].version_code == Some(m.extension.version_code)
        &&& (l0.dom().contains(s) ==> l1[s].id == l0[s].id)
        &&& (!l0.dom().contains(s) ==> l1[s].id is Some && l1[s].id->Some_0.len() == 36)
        &&& forall|k: Seq<char>|
            k != s && l0.dom().contains(k) ==> l1[k] == #[trigger] l0[k]
    }
}

/// Decides whether the extension is to be built and records the decision: a
/// new slug gets a fresh entry, a known one whose version code is newer gets
/// its recorded code raised, and an up-to-date one is left alone. The caller
/// persists the store before invoking the compiler.
pub fn should_build(metadata: &Metadata, lock: &mut LockStore) -> (r: bool)
    requires
        old(lock).wf(),
    ensures
        final(lock).wf(),
        r == spec_requires_build(*metadata, old(lock)@),
        spec_lock_after_decision(*metadata, old(lock)@, final(lock)@),
{
    if lock.contains_slug(&metadata.extension.slug) {
        let build_required = extension_requires_build(metadata, lock);
        if build_required {
            update_lock_entry(lock, metadata);
            proof {
                assert(lock@.dom() =~= old(lock)@.dom().insert(metadata.extension.slug@));
            }
        }
        build_required
    } else {
        add_entry_to_lock(lock, metadata);
        true
    }
}

/// Deciding the same metadata a second time finds nothing to do: the first
/// decision recorded the version code, so no rebuild is due and the store
/// is left exactly as it was.
pub proof fn lemma_decision_idempotent(
    m: Metadata,
    l0: Map<Seq<char>, LockRecord>,
    l1: Map<Seq<char>, LockRecord>,
)
    requires
        spec_lock_after_decision(m, l0, l1),
    ensures
        !spec_requires_build(m, l1),
        forall|l2: Map<Seq<char>, LockRecord>|
            #[trigger] spec_lock_after_decision(m, l1, l2) ==> l2 == l1,
{
}

/// The rebuild rule in terms of the stored text: with a recorded version
/// code text `v`, a rebuild is due exactly when the metadata's version code
/// exceeds the numeral's value, unparsable text counting as 0.
pub proof fn lemma_requires_build_of_stored_text(
    m: Metadata,
    l: Map<Seq<char>, LockRecord>,
    v: Seq<char>,
)
    requires
        l.dom().contains(m.extension.slug@),
        l[m.extension.slug@].version_code == Some(spec_parse_u32_or_zero(v)),
    ensures
        spec_requires_build(m, l) <==> m.extension.version_code > spec_parse_u32_or_zero(v),
{
}

} // verus!
