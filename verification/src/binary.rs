//! Packaging layout for one successfully compiled extension: which files go
//! into the staged payload, under which names, and into which destination
//! directory. The caller performs the copies and runs the archiver over the
//! staged payload; everything it must do is decided here.

use vstd::prelude::*;

use crate::lock::{get_lock_entry_id, LockStore};

verus! {

/// Why an extension could not be packaged. Both are per-extension errors:
/// the caller logs them and the batch carries on.
#[derive(Debug)]
pub enum PackagingError {
    /// The slug has no recorded id, which the decision step should have
    /// assigned; an invariant violation.
    UnknownSlug,
    /// The build output holds no compiled module; there is nothing to
    /// package and no archive is produced.
    NoModule,
}

impl PackagingError {
    /// A message for the caller's log.
    pub fn message(&self) -> (r: &'static str) {
        match self {
            PackagingError::UnknownSlug => "no id found for the slug in the metadata lock",
            PackagingError::NoModule => "no compiled module found after the build",
        }
    }
}

/// Everything the packaging step writes: the destination directory is named
/// by the stable id; each payload pair is a source file name and the name
/// it gets inside the staged payload; the icon is copied when present.
pub struct PackagePlan {
    pub id: String,
    pub payload: Vec<(String, String)>,
    pub copy_icon: bool,
}

/// Ghost pairs of a payload list.
pub open spec fn spec_copy_pairs(v: Seq<(String, String)>) -> Seq<(Seq<char>, Seq<char>)> {
    v.map_values(|p: (String, String)| (p.0@, p.1@))
}

/// Ghost names of a file list.
pub open spec fn spec_names(v: Seq<String>) -> Seq<Seq<char>> {
    v.map_values(|s: String| s@)
}

/// A compiled module file: its name ends in `.wasm`, with a non-empty stem.
pub open spec fn spec_is_module_file(s: Seq<char>) -> bool {
    s.len() > 5 && s.skip(s.len() - 5) == ".wasm"@
}

/// The first compiled module among the build-output files, in the given
/// order.
pub open spec fn spec_first_module(files: Seq<Seq<char>>) -> Option<Seq<char>>
    decreases files.len(),
{
    if files.len() == 0 {
        None
    } else if spec_is_module_file(files[0]) {
        Some(files[0])
    } else {
        spec_first_module(files.skip(1))
    }
}

fn is_module_file(name: &String) -> (r: bool)
    ensures
        r == spec_is_module_file(name@),
{
    let s = name.as_str();
    let n = s.unicode_len();
    if n <= 5 {
        return false;
    }
    let suffix = s.substring_char(n - 5, n).to_owned();
    let r = suffix == ".wasm".to_owned();
    proof {
        assert(suffix@ =~= name@.skip(name@.len() - 5));
    }
    r
}

fn first_module_file(files: &Vec<String>) -> (r: Option<String>)
    ensures
        r is Some <==> spec_first_module(spec_names(files@)) is Some,
        r is Some ==> r->Some_0@ == spec_first_module(spec_names(files@))->Some_0,
{
    let n = files.len();
    let mut i: usize = 0;
    proof {
        assert(spec_names(files@).skip(0) =~= spec_names(files@));
    }
    while i < n
        invariant
            0 <= i <= n,
            n == files@.len(),
            spec_first_module(spec_names(files@)) == spec_first_module(
                spec_names(files@).skip(i as int),
            ),
        decreases n - i,
    {
        proof {
            assert(spec_names(files@).skip(i as int)[0] == files@[i as int]@);
            assert(spec_names(files@).skip(i as int).skip(1) =~= spec_names(files@).skip(
                i as int + 1,
            ));
        }
        if is_module_file(&files[i]) {
            return Some(files[i].clone());
        }
        i = i + 1;
    }
    proof {
        assert(spec_names(files@).skip(n as int) =~= Seq::<Seq<char>>::empty());
    }
    None
}

/// Lays out the package for one compiled extension. The payload holds every
/// resource file under its own name plus the first compiled module renamed
/// to `main.wasm`; the destination directory is named by the slug's stable
/// id. A slug without an id cannot be packaged, and without a compiled
/// module there is nothing to package.
pub fn plan_extension_binary(
    slug: &String,
    lock: &LockStore,
    resource_files: &Vec<String>,
    output_files: &Vec<String>,
    icon_present: bool,
) -> (r: Result<PackagePlan, PackagingError>)
    requires
        lock.wf(),
    ensures
        r is Ok <==> lock@.dom().contains(slug@) && lock@[slug@].id is Some && spec_first_module(
            spec_names(output_files@),
        ) is Some,
        r matches Err(PackagingError::UnknownSlug) <==> !(lock@.dom().contains(slug@)
            && lock@[slug@].id is Some),
        r matches Err(PackagingError::NoModule) <==> lock@.dom().contains(slug@)
            && lock@[slug@].id is Some && spec_first_module(spec_names(output_files@)) is None,
        r is Ok ==> {
            let plan = r->Ok_0;
            &&& plan.id@ == lock@[slug@].id->Some_0
            &&& spec_copy_pairs(plan.payload@) == spec_names(resource_files@).map_values(
                |n: Seq<char>| (n, n),
            ).push((spec_first_module(spec_names(output_files@))->Some_0, "main.wasm"@))
            &&& plan.copy_icon == icon_present
        },
{
    let id = match get_lock_entry_id(lock, slug) {
        Some(id) => id,
        None => {
            return Err(PackagingError::UnknownSlug);
        },
    };
    let module = match first_module_file(output_files) {
        Some(m) => m,
        None => {
            return Err(PackagingError::NoModule);
        },
    };
    let mut payload: Vec<(String, String)> = Vec::new();
    let n = resource_files.len();
    let mut i: usize = 0;
    while i < n
        invariant
            0 <= i <= n,
            n == resource_files@.len(),
            spec_copy_pairs(payload@) =~= spec_names(resource_files@.take(i as int)).map_values(
                |q: Seq<char>| (q, q),
            ),
        decreases n - i,
    {
        payload.push((resource_files[i].clone(), resource_files[i].clone()));
        proof {
            assert(spec_names(resource_files@.take(i as int + 1)).map_values(
                |q: Seq<char>| (q, q),
            ) =~= spec_names(resource_files@.take(i as int)).map_values(|q: Seq<char>| (q, q)).push(
                (resource_files@[i as int]@, resource_files@[i as int]@),
            ));
        }
        i = i + 1;
    }
    payload.push((module, "main.wasm".to_owned()));
    proof {
        assert(resource_files@.take(n as int) =~= resource_files@);
        assert(spec_copy_pairs(payload@) =~= spec_names(resource_files@).map_values(
            |q: Seq<char>| (q, q),
        ).push((spec_first_module(spec_names(output_files@))->Some_0, "main.wasm"@)));
    }
    Ok(PackagePlan { id, payload, copy_icon: icon_present })
}

} // verus!
