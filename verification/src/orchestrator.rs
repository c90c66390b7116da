//! One full run over the discovered source tree: accept each eligible
//! project's metadata, decide and record whether it is to be built, then
//! reconcile the lock against the tree and derive the server index. The
//! caller enumerates directories, parses descriptor files, persists the
//! store at each checkpoint, and performs the builds this module decides.
//!
//! A run's effect on the lock is captured by a ghost trace: the store's
//! value before the first decision and after each one. The laws at the end
//! of this module — idempotence, identity stability, stale pruning — are
//! stated over such traces.

use vstd::prelude::*;

use crate::lock::{
    check_extensions_against_lock, lemma_decision_idempotent, remove_stale_entries_from_lock,
    should_build, spec_dir_pairs, spec_is_stale, spec_lock_after_decision, spec_requires_build,
    spec_slug_set, spec_stale_set, LockRecord, LockStore,
};
use crate::server::{generate_server_index, spec_catalog};
use crate::structs::{Metadata, ServerIndex};
use crate::validator::{spec_metadata_valid, validate_metadata};

verus! {

/// One directory entry found while walking the source tree: its language
/// directory, its own name, whether it is a directory holding the
/// toolchain's project descriptor, and its parsed metadata, `None` when the
/// descriptor file was absent or malformed.
pub struct DiscoveredProject {
    pub lang: String,
    pub name: String,
    pub is_dir: bool,
    pub has_manifest: bool,
    pub metadata: Option<Metadata>,
}

/// A project takes part in the run when it is a directory with the
/// toolchain descriptor and carries metadata that parsed and validates.
pub open spec fn spec_eligible(p: DiscoveredProject) -> bool {
    p.is_dir && p.has_manifest && p.metadata is Some && spec_metadata_valid(p.metadata->Some_0)
}

/// The metadata accepted from a project list, in discovery order.
pub open spec fn spec_accepted(ps: Seq<DiscoveredProject>) -> Seq<Metadata>
    decreases ps.len(),
{
    if ps.len() == 0 {
        Seq::empty()
    } else {
        let rest = spec_accepted(ps.drop_last());
        if spec_eligible(ps.last()) {
            rest.push(ps.last().metadata->Some_0)
        } else {
            rest
        }
    }
}

/// The (language, name) pairs present in the source tree, one per
/// discovered entry.
pub open spec fn spec_project_pairs(ps: Seq<DiscoveredProject>) -> Seq<(Seq<char>, Seq<char>)> {
    ps.map_values(|p: DiscoveredProject| (p.lang@, p.name@))
}

pub open spec fn spec_slug_seq(v: Seq<String>) -> Seq<Seq<char>> {
    v.map_values(|s: String| s@)
}

/// A decision trace: `trace[0]` is the store before the first decision and
/// `trace[i + 1]` the store after deciding `ms[i]`, each step as
/// `should_build` is allowed to act.
pub open spec fn spec_decision_trace(
    ms: Seq<Metadata>,
    trace: Seq<Map<Seq<char>, LockRecord>>,
) -> bool {
    &&& trace.len() == ms.len() + 1
    &&& forall|i: int|
        0 <= i < ms.len() ==> spec_lock_after_decision(#[trigger] ms[i], trace[i], trace[i + 1])
}

/// The slugs a trace decides to build, in decision order.
pub open spec fn spec_trace_builds(
    ms: Seq<Metadata>,
    trace: Seq<Map<Seq<char>, LockRecord>>,
) -> Seq<Seq<char>>
    decreases ms.len(),
{
    if ms.len() == 0 {
        Seq::empty()
    } else {
        spec_trace_builds(ms.drop_last(), trace) + (if spec_requires_build(
            ms.last(),
            trace[ms.len() - 1],
        ) {
            seq![ms.last().extension.slug@]
        } else {
            Seq::empty()
        })
    }
}

/// Ordering on recorded version codes: absent before any, present codes by
/// value.
pub open spec fn spec_vc_le(a: Option<u32>, b: Option<u32>) -> bool {
    match a {
        None => true,
        Some(x) => match b {
            None => false,
            Some(y) => x <= y,
        },
    }
}

/// What any sequence of decision steps preserves: no entry disappears, no
/// id changes, no recorded version code decreases.
pub open spec fn spec_lock_extends(
    l0: Map<Seq<char>, LockRecord>,
    l1: Map<Seq<char>, LockRecord>,
) -> bool {
    forall|k: Seq<char>|
        #[trigger] l0.dom().contains(k) ==> l1.dom().contains(k) && l1[k].id == l0[k].id
            && spec_vc_le(l0[k].version_code, l1[k].version_code)
}

proof fn lemma_decision_extends(
    m: Metadata,
    l0: Map<Seq<char>, LockRecord>,
    l1: Map<Seq<char>, LockRecord>,
)
    requires
        spec_lock_after_decision(m, l0, l1),
    ensures
        spec_lock_extends(l0, l1),
{
    let s = m.extension.slug@;
    if spec_requires_build(m, l0) {
        assert forall|k: Seq<char>| #[trigger] l0.dom().contains(k) implies l1.dom().contains(k)
            && l1[k].id == l0[k].id && spec_vc_le(l0[k].version_code, l1[k].version_code) by {
            assert(l1.dom() == l0.dom().insert(s));
            if k != s {
                assert(l1[k] == l0[k]);
            }
        }
    }
}

proof fn lemma_extends_trans(
    l0: Map<Seq<char>, LockRecord>,
    l1: Map<Seq<char>, LockRecord>,
    l2: Map<Seq<char>, LockRecord>,
)
    requires
        spec_lock_extends(l0, l1),
        spec_lock_extends(l1, l2),
    ensures
        spec_lock_extends(l0, l2),
{
    assert forall|k: Seq<char>| #[trigger] l0.dom().contains(k) implies l2.dom().contains(k)
        && l2[k].id == l0[k].id && spec_vc_le(l0[k].version_code, l2[k].version_code) by {
        assert(l1.dom().contains(k));
    }
}

/// A metadata the store is already current for stays current under any
/// further extension of the store: codes only rise and entries only appear.
proof fn lemma_extends_preserves_settled(
    m: Metadata,
    l0: Map<Seq<char>, LockRecord>,
    l1: Map<Seq<char>, LockRecord>,
)
    requires
        !spec_requires_build(m, l0),
        spec_lock_extends(l0, l1),
    ensures
        !spec_requires_build(m, l1),
{
    let s = m.extension.slug@;
    assert(l0.dom().contains(s));
}

/// Along a decision trace the store only extends: taken to any step, and in
/// particular to the end, no entry disappears, no id changes and no code
/// decreases.
pub proof fn lemma_trace_extends(
    ms: Seq<Metadata>,
    trace: Seq<Map<Seq<char>, LockRecord>>,
    k: int,
)
    requires
        spec_decision_trace(ms, trace),
        0 <= k <= ms.len(),
    ensures
        spec_lock_extends(trace[0], trace[k]),
    decreases k,
{
    if k == 0 {
        assert forall|s: Seq<char>| #[trigger] trace[0].dom().contains(s) implies trace[
            0
        ].dom().contains(s) && trace[0][s].id == trace[0][s].id && spec_vc_le(
            trace[0][s].version_code,
            trace[0][s].version_code,
        ) by {}
    } else {
        lemma_trace_extends(ms, trace, k - 1);
        lemma_decision_extends(ms[k - 1], trace[k - 1], trace[k]);
        lemma_extends_trans(trace[0], trace[k - 1], trace[k]);
    }
}

/// After a trace finishes, the store is current for every metadata it
/// decided: deciding any of them again would find nothing to do.
pub proof fn lemma_trace_settles(ms: Seq<Metadata>, trace: Seq<Map<Seq<char>, LockRecord>>)
    requires
        spec_decision_trace(ms, trace),
    ensures
        forall|i: int|
            0 <= i < ms.len() ==> !spec_requires_build(#[trigger] ms[i], trace[ms.len() as int]),
    decreases ms.len(),
{
    let n = ms.len() as int;
    assert forall|i: int| 0 <= i < n implies !spec_requires_build(#[trigger] ms[i], trace[n]) by {
        lemma_decision_idempotent(ms[i], trace[i], trace[i + 1]);
        lemma_steps_extend(ms, trace, i + 1, n);
        lemma_extends_preserves_settled(ms[i], trace[i + 1], trace[n]);
    }
}

/// The store extends between any two steps of a trace.
proof fn lemma_steps_extend(
    ms: Seq<Metadata>,
    trace: Seq<Map<Seq<char>, LockRecord>>,
    a: int,
    b: int,
)
    requires
        spec_decision_trace(ms, trace),
        0 <= a <= b <= ms.len(),
    ensures
        spec_lock_extends(trace[a], trace[b]),
    decreases b - a,
{
    if a == b {
        assert forall|s: Seq<char>| #[trigger] trace[a].dom().contains(s) implies trace[
            a
        ].dom().contains(s) && trace[a][s].id == trace[a][s].id && spec_vc_le(
            trace[a][s].version_code,
            trace[a][s].version_code,
        ) by {}
    } else {
        lemma_decision_extends(ms[a], trace[a], trace[a + 1]);
        lemma_steps_extend(ms, trace, a + 1, b);
        lemma_extends_trans(trace[a], trace[a + 1], trace[b]);
    }
}

/// A trace whose every metadata the store is already current for changes
/// nothing and decides no builds.
pub proof fn lemma_settled_trace_is_noop(
    ms: Seq<Metadata>,
    trace: Seq<Map<Seq<char>, LockRecord>>,
    k: int,
)
    requires
        spec_decision_trace(ms, trace),
        forall|i: int| 0 <= i < ms.len() ==> !spec_requires_build(#[trigger] ms[i], trace[0]),
        0 <= k <= ms.len(),
    ensures
        trace[k] == trace[0],
        spec_trace_builds(ms.take(k), trace) == Seq::<Seq<char>>::empty(),
    decreases k,
{
    if k == 0 {
        assert(ms.take(0) =~= Seq::<Metadata>::empty());
    } else {
        lemma_settled_trace_is_noop(ms, trace, k - 1);
        assert(spec_lock_after_decision(ms[k - 1], trace[k - 1], trace[k]));
        assert(!spec_requires_build(ms[k - 1], trace[k - 1]));
        let taken = ms.take(k);
        assert(taken.drop_last() =~= ms.take(k - 1));
        assert(taken.last() == ms[k - 1]);
        assert(spec_trace_builds(taken, trace) =~= Seq::<Seq<char>>::empty());
    }
}

/// How builds depend on the trace: only the steps before each decision
/// matter, so traces that agree there decide the same builds.
proof fn lemma_builds_agree(
    ms: Seq<Metadata>,
    ta: Seq<Map<Seq<char>, LockRecord>>,
    tb: Seq<Map<Seq<char>, LockRecord>>,
)
    requires
        forall|i: int| 0 <= i < ms.len() ==> ta[i] == tb[i],
    ensures
        spec_trace_builds(ms, ta) == spec_trace_builds(ms, tb),
    decreases ms.len(),
{
    if ms.len() > 0 {
        lemma_builds_agree(ms.drop_last(), ta, tb);
        assert(ta[ms.len() - 1] == tb[ms.len() - 1]);
    }
}

/// Idempotence of a full run: over an unchanged source tree, a second run
/// decides no builds and leaves the lock exactly as the first run left it.
/// Each accepted metadata's slug must name a source directory that is
/// present, as it does whenever slugs follow the `{language}.{name}`
/// layout; a run that accepts a slug pointing at a missing directory would
/// prune the entry it just recorded.
pub proof fn lemma_run_idempotent(
    ps: Seq<DiscoveredProject>,
    trace1: Seq<Map<Seq<char>, LockRecord>>,
    l1: Map<Seq<char>, LockRecord>,
    trace2: Seq<Map<Seq<char>, LockRecord>>,
    l2: Map<Seq<char>, LockRecord>,
)
    requires
        spec_decision_trace(spec_accepted(ps), trace1),
        l1 == trace1.last().remove_keys(spec_stale_set(spec_project_pairs(ps))),
        spec_decision_trace(spec_accepted(ps), trace2),
        trace2[0] == l1,
        l2 == trace2.last().remove_keys(spec_stale_set(spec_project_pairs(ps))),
        forall|i: int|
            0 <= i < spec_accepted(ps).len() ==> !spec_is_stale(
                (#[trigger] spec_accepted(ps)[i]).extension.slug@,
                spec_project_pairs(ps),
            ),
    ensures
        spec_trace_builds(spec_accepted(ps), trace2) == Seq::<Seq<char>>::empty(),
        l2 == l1,
{
    let ms = spec_accepted(ps);
    let n = ms.len() as int;
    let stale = spec_stale_set(spec_project_pairs(ps));
    assert(trace1.last() == trace1[n]);
    lemma_trace_settles(ms, trace1);
    assert forall|i: int| 0 <= i < n implies !spec_requires_build(#[trigger] ms[i], l1) by {
        let s = ms[i].extension.slug@;
        assert(!spec_requires_build(ms[i], trace1[n]));
        assert(trace1[n].dom().contains(s));
        assert(!stale.contains(s));
        assert(l1.dom().contains(s) && l1[s] == trace1[n][s]);
    }
    lemma_settled_trace_is_noop(ms, trace2, n);
    assert(ms.take(n) =~= ms);
    assert(trace2.last() == trace2[n]);
    assert(l2 == l1.remove_keys(stale));
    assert(l1.remove_keys(stale) =~= trace1.last().remove_keys(stale));
}

/// Identity stability within one run: a slug recorded before the run and
/// still recorded after it keeps exactly the id it had.
pub proof fn lemma_identity_stable(
    ps: Seq<DiscoveredProject>,
    trace: Seq<Map<Seq<char>, LockRecord>>,
    l_end: Map<Seq<char>, LockRecord>,
    k: Seq<char>,
)
    requires
        spec_decision_trace(spec_accepted(ps), trace),
        l_end == trace.last().remove_keys(spec_stale_set(spec_project_pairs(ps))),
        trace[0].dom().contains(k),
        l_end.dom().contains(k),
    ensures
        l_end[k].id == trace[0][k].id,
{
    let ms = spec_accepted(ps);
    assert(trace.last() == trace[ms.len() as int]);
    lemma_trace_extends(ms, trace, ms.len() as int);
}

/// Identity stability across consecutive runs: a slug recorded throughout
/// keeps its id from run to run, however often its version code rises.
pub proof fn lemma_identity_stable_two_runs(
    ps1: Seq<DiscoveredProject>,
    ps2: Seq<DiscoveredProject>,
    trace1: Seq<Map<Seq<char>, LockRecord>>,
    l1: Map<Seq<char>, LockRecord>,
    trace2: Seq<Map<Seq<char>, LockRecord>>,
    l2: Map<Seq<char>, LockRecord>,
    k: Seq<char>,
)
    requires
        spec_decision_trace(spec_accepted(ps1), trace1),
        l1 == trace1.last().remove_keys(spec_stale_set(spec_project_pairs(ps1))),
        spec_decision_trace(spec_accepted(ps2), trace2),
        trace2[0] == l1,
        l2 == trace2.last().remove_keys(spec_stale_set(spec_project_pairs(ps2))),
        trace1[0].dom().contains(k),
        l1.dom().contains(k),
        l2.dom().contains(k),
    ensures
        l2[k].id == trace1[0][k].id,
{
    lemma_identity_stable(ps1, trace1, l1, k);
    lemma_identity_stable(ps2, trace2, l2, k);
}

/// Stale pruning: a slug whose source directory is gone is absent from the
/// lock once a run has finished, whether or not it was recorded before.
pub proof fn lemma_stale_pruned(
    ps: Seq<DiscoveredProject>,
    trace: Seq<Map<Seq<char>, LockRecord>>,
    l_end: Map<Seq<char>, LockRecord>,
    s: Seq<char>,
)
    requires
        l_end == trace.last().remove_keys(spec_stale_set(spec_project_pairs(ps))),
        spec_is_stale(s, spec_project_pairs(ps)),
    ensures
        !l_end.dom().contains(s),
{
    assert(spec_stale_set(spec_project_pairs(ps)).contains(s));
}

/// What a run hands back to the caller: the slugs to build in decision
/// order, the accepted metadata, the pruned slugs, the derived server
/// index, and the ghost decision trace the laws above speak of.
pub struct RunReport {
    pub to_build: Vec<String>,
    pub accepted: Vec<Metadata>,
    pub stale: Vec<String>,
    pub catalog: Vec<ServerIndex>,
    pub trace: Ghost<Seq<Map<Seq<char>, LockRecord>>>,
}

/// Processes one discovered source tree: validates each eligible project's
/// metadata, decides and records builds, prunes entries whose directory is
/// gone, and derives the server index from what was accepted. The caller
/// persists the store after each decision and at the end, compiles and
/// packages the returned slugs, and writes the index out.
pub fn process_run(projects: &Vec<DiscoveredProject>, lock: &mut LockStore) -> (r: RunReport)
    requires
        old(lock).wf(),
    ensures
        final(lock).wf(),
        r.accepted@ == spec_accepted(projects@),
        spec_decision_trace(r.accepted@, r.trace@),
        r.trace@[0] == old(lock)@,
        final(lock)@ == r.trace@.last().remove_keys(
            spec_stale_set(spec_project_pairs(projects@)),
        ),
        spec_slug_seq(r.to_build@) == spec_trace_builds(r.accepted@, r.trace@),
        r.catalog@.map_values(|x: ServerIndex| x@) == spec_catalog(
            spec_accepted(projects@),
            final(lock)@,
        ),
        forall|j: int|
            0 <= j < r.stale@.len() ==> spec_is_stale(
                (#[trigger] r.stale@[j])@,
                spec_project_pairs(projects@),
            ),
{
    let mut accepted: Vec<Metadata> = Vec::new();
    let mut to_build: Vec<String> = Vec::new();
    let ghost mut trace: Seq<Map<Seq<char>, LockRecord>> = seq![old(lock)@];
    let n = projects.len();
    let mut i: usize = 0;
    proof {
        assert(projects@.take(0) =~= Seq::<DiscoveredProject>::empty());
        assert(spec_slug_seq(to_build@) =~= Seq::<Seq<char>>::empty());
    }
    while i < n
        invariant
            0 <= i <= n,
            n == projects@.len(),
            lock.wf(),
            accepted@ == spec_accepted(projects@.take(i as int)),
            spec_decision_trace(accepted@, trace),
            trace[0] == old(lock)@,
            trace.last() == lock@,
            spec_slug_seq(to_build@) == spec_trace_builds(accepted@, trace),
        decreases n - i,
    {
        let p = &projects[i];
        let ghost taken = projects@.take(i as int + 1);
        proof {
            assert(taken.drop_last() =~= projects@.take(i as int));
            assert(taken.last() == projects@[i as int]);
        }
        let mut handled = false;
        if p.is_dir && p.has_manifest {
            match &p.metadata {
                Some(metadata) => {
                    if validate_metadata(metadata).is_ok() {
                        handled = true;
                        let ghost ms_pre = accepted@;
                        let ghost trace_pre = trace;
                        let ghost b_pre = spec_slug_seq(to_build@);
                        let ghost l_pre = lock@;
                        accepted.push(metadata.clone());
                        let build = should_build(metadata, lock);
                        if build {
                            to_build.push(metadata.extension.slug.clone());
                        }
                        proof {
                            trace = trace.push(lock@);
                            assert(spec_eligible(projects@[i as int]));
                            assert(accepted@ =~= spec_accepted(taken));
                            assert(accepted@.drop_last() =~= ms_pre);
                            assert(accepted@.last() == *metadata);
                            assert forall|q: int|
                                0 <= q < accepted@.len() implies spec_lock_after_decision(
                                #[trigger] accepted@[q],
                                trace[q],
                                trace[q + 1],
                            ) by {
                                if q < accepted@.len() - 1 {
                                    assert(accepted@[q] == ms_pre[q]);
                                    assert(trace[q] == trace_pre[q]);
                                    assert(trace[q + 1] == trace_pre[q + 1]);
                                }
                            }
                            lemma_builds_agree(ms_pre, trace_pre, trace);
                            assert(spec_trace_builds(accepted@, trace) =~= (
                            if spec_requires_build(*metadata, l_pre) {
                                spec_trace_builds(ms_pre, trace).push(metadata.extension.slug@)
                            } else {
                                spec_trace_builds(ms_pre, trace)
                            }));
                            if build {
                                assert(spec_slug_seq(to_build@) =~= b_pre.push(
                                    metadata.extension.slug@,
                                ));
                            }
                        }
                    }
                },
                None => {},
            }
        }
        proof {
            if !handled {
                assert(!spec_eligible(projects@[i as int]));
                assert(spec_accepted(taken) =~= spec_accepted(projects@.take(i as int)));
            }
        }
        i = i + 1;
    }
    proof {
        assert(projects@.take(n as int) =~= projects@);
    }
    let ghost lmid = lock@;
    let mut dirs: Vec<(String, String)> = Vec::new();
    let mut j: usize = 0;
    while j < n
        invariant
            0 <= j <= n,
            n == projects@.len(),
            dirs@.len() == j,
            forall|a: int|
                0 <= a < j ==> (#[trigger] dirs@[a]).0@ == projects@[a].lang@ && dirs@[a].1@
                    == projects@[a].name@,
        decreases n - j,
    {
        dirs.push((projects[j].lang.clone(), projects[j].name.clone()));
        j = j + 1;
    }
    proof {
        assert(spec_dir_pairs(dirs@) =~= spec_project_pairs(projects@));
    }
    let stale = check_extensions_against_lock(lock, &dirs);
    remove_stale_entries_from_lock(lock, &stale);
    proof {
        let pairs = spec_project_pairs(projects@);
        assert forall|s: Seq<char>| spec_slug_set(stale@).contains(s) implies spec_is_stale(
            s,
            pairs,
        ) by {
            let w = choose|w: int| 0 <= w < stale@.len() && (#[trigger] stale@[w])@ == s;
        }
        assert(lock@ =~= lmid.remove_keys(spec_stale_set(pairs))) by {
            assert forall|s: Seq<char>|
                lmid.dom().contains(s) && spec_stale_set(pairs).contains(s) implies spec_slug_set(
                stale@,
            ).contains(s) by {}
        }
    }
    let catalog = generate_server_index(&accepted, lock);
    RunReport { to_build, accepted, stale, catalog, trace: Ghost(trace) }
}

} // verus!
