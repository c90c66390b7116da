//! The generated server index: the public, derived view of the extensions
//! known this run. It is a pure function of the accepted metadata and the
//! lock store's ids, regenerated wholesale; the caller serializes it twice,
//! prettified and minified.

use vstd::prelude::*;

use crate::lock::{get_lock_entry_id, LockRecord, LockStore};
use crate::structs::{Metadata, ServerIndex};

verus! {

/// The ghost value of one index entry.
pub ghost struct IndexRecord {
    pub id: Seq<char>,
    pub name: Seq<char>,
    pub icon: Seq<char>,
    pub language: Seq<char>,
    pub version_code: u32,
    pub version_name: Seq<char>,
}

impl View for ServerIndex {
    type V = IndexRecord;

    open spec fn view(&self) -> IndexRecord {
        IndexRecord {
            id: self.id@,
            name: self.name@,
            icon: self.icon@,
            language: self.language@,
            version_code: self.version_code,
            version_name: self.version_name@,
        }
    }
}

/// The index the run derives: one entry per accepted metadata whose slug
/// has a recorded id, in metadata order; metadata without a resolvable id
/// contributes nothing.
pub open spec fn spec_catalog(ms: Seq<Metadata>, l: Map<Seq<char>, LockRecord>) -> Seq<
    IndexRecord,
>
    decreases ms.len(),
{
    if ms.len() == 0 {
        Seq::empty()
    } else {
        let rest = spec_catalog(ms.drop_last(), l);
        let m = ms.last();
        let s = m.extension.slug@;
        if l.dom().contains(s) && l[s].id is Some {
            rest.push(
                IndexRecord {
                    id: l[s].id->Some_0,
                    name: m.extension.name@,
                    icon: m.extension.icon@,
                    language: m.extension.language@,
                    version_code: m.extension.version_code,
                    version_name: m.extension.version_name@,
                },
            )
        } else {
            rest
        }
    }
}

/// Builds the index list for the given metadata, resolving each slug's id
/// through the lock store. Metadata whose slug has no id is skipped; the
/// caller logs a warning for it.
pub fn generate_server_index(all_metadata: &Vec<Metadata>, lock: &LockStore) -> (r: Vec<
    ServerIndex,
>)
    requires
        lock.wf(),
    ensures
        r@.map_values(|x: ServerIndex| x@) == spec_catalog(all_metadata@, lock@),
{
    let mut index_list: Vec<ServerIndex> = Vec::new();
    let n = all_metadata.len();
    let mut i: usize = 0;
    proof {
        assert(all_metadata@.take(0) =~= Seq::<Metadata>::empty());
    }
    while i < n
        invariant
            0 <= i <= n,
            n == all_metadata@.len(),
            lock.wf(),
            index_list@.map_values(|x: ServerIndex| x@) == spec_catalog(
                all_metadata@.take(i as int),
                lock@,
            ),
        decreases n - i,
    {
        let metadata = &all_metadata[i];
        let ghost before = index_list@;
        match get_lock_entry_id(lock, &metadata.extension.slug) {
            Some(id) => {
                let extension = &metadata.extension;
                let index = ServerIndex {
                    id,
                    name: extension.name.clone(),
                    icon: extension.icon.clone(),
                    language: extension.language.clone(),
                    version_code: extension.version_code,
                    version_name: extension.version_name.clone(),
                };
                index_list.push(index);
            },
            None => {},
        }
        proof {
            let taken = all_metadata@.take(i as int + 1);
            assert(taken.drop_last() =~= all_metadata@.take(i as int));
            assert(taken.last() == all_metadata@[i as int]);
            assert(index_list@.map_values(|x: ServerIndex| x@) =~= spec_catalog(taken, lock@));
        }
        i = i + 1;
    }
    proof {
        assert(all_metadata@.take(n as int) =~= all_metadata@);
    }
    index_list
}

/// The index never reads a lock record whose slug none of the metadata
/// carries: removing any set of such records leaves the index unchanged.
/// In particular a pruned stale slug cannot appear in the catalog.
pub proof fn lemma_catalog_ignores_other_slugs(
    ms: Seq<Metadata>,
    l: Map<Seq<char>, LockRecord>,
    ks: Set<Seq<char>>,
)
    requires
        forall|i: int| 0 <= i < ms.len() ==> !ks.contains((#[trigger] ms[i]).extension.slug@),
    ensures
        spec_catalog(ms, l.remove_keys(ks)) == spec_catalog(ms, l),
    decreases ms.len(),
{
    if ms.len() > 0 {
        lemma_catalog_ignores_other_slugs(ms.drop_last(), l, ks);
        assert(ms[ms.len() - 1] == ms.last());
        assert(!ks.contains(ms.last().extension.slug@));
    }
}

} // verus!
