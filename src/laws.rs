use vstd::prelude::*;
use crate::diff::{jobs_for, work_set, EntryModel, JobModel};
use crate::path::PathModel;
use crate::path::{extension_of, parent_of, stem_of, strip_prefix_of};
use crate::resolve::{derived_file_name, destination_of, OptionsModel, PathError};

verus! {

/// Every entry of `w` with its jobs dropped.
pub open spec fn emptied(w: Seq<EntryModel>) -> Seq<EntryModel> {
    w.map_values(|e: EntryModel| EntryModel { source: e.source, jobs: Seq::empty() })
}

/// `after` holds everything of `existing` and the destination of every job in `w`.
pub open spec fn covers(after: Seq<PathModel>, existing: Seq<PathModel>, w: Seq<EntryModel>) -> bool {
    &&& forall|p: PathModel| existing.contains(p) ==> after.contains(p)
    &&& forall|i: int, j: int|
        0 <= i < w.len() && 0 <= j < w[i].jobs.len() ==> after.contains(
            #[trigger] w[i].jobs[j].destination,
        )
}

/// No two variants share a name.
pub open spec fn distinct_names(opts: Seq<OptionsModel>) -> bool {
    forall|a: int, b: int| 0 <= a < b < opts.len() ==> opts[a].name != opts[b].name
}

proof fn lemma_jobs_fixpoint(
    sr: PathModel,
    dr: PathModel,
    s: PathModel,
    opts: Seq<OptionsModel>,
    existing: Seq<PathModel>,
    after: Seq<PathModel>,
    js: Seq<JobModel>,
)
    requires
        jobs_for(sr, dr, s, opts, existing) == Ok::<Seq<JobModel>, PathError>(js),
        forall|p: PathModel| existing.contains(p) ==> after.contains(p),
        forall|j: int| 0 <= j < js.len() ==> after.contains(#[trigger] js[j].destination),
    ensures
        jobs_for(sr, dr, s, opts, after) == Ok::<Seq<JobModel>, PathError>(Seq::empty()),
    decreases opts.len(),
{
    if opts.len() > 0 {
        let js0 = jobs_for(sr, dr, s, opts.drop_last(), existing)->Ok_0;
        let d = destination_of(sr, dr, s, opts.last().name)->Ok_0;
        assert forall|j: int| 0 <= j < js0.len() implies after.contains(
            #[trigger] js0[j].destination,
        ) by {
            assert(js[j] == js0[j]);
        }
        lemma_jobs_fixpoint(sr, dr, s, opts.drop_last(), existing, after, js0);
        if !existing.contains(d) {
            assert(js[js0.len() as int].destination == d);
        }
    }
}

/// Once every job of a derivation has run, so that the derivative listing
/// holds every destination it named, deriving again finds each source up
/// to date: the same entries, each with no job.
pub proof fn lemma_fixpoint(
    sr: PathModel,
    dr: PathModel,
    sources: Seq<PathModel>,
    opts: Seq<OptionsModel>,
    existing: Seq<PathModel>,
    after: Seq<PathModel>,
)
    requires
        work_set(sr, dr, sources, opts, existing) is Ok,
        covers(after, existing, work_set(sr, dr, sources, opts, existing)->Ok_0),
    ensures
        work_set(sr, dr, sources, opts, after) == Ok::<Seq<EntryModel>, PathError>(
            emptied(work_set(sr, dr, sources, opts, existing)->Ok_0),
        ),
    decreases sources.len(),
{
    let w = work_set(sr, dr, sources, opts, existing)->Ok_0;
    if sources.len() == 0 {
        assert(emptied(w) =~= Seq::<EntryModel>::empty());
    } else {
        let rest = sources.drop_last();
        let w0 = work_set(sr, dr, rest, opts, existing)->Ok_0;
        assert forall|i: int, j: int| 0 <= i < w0.len() && 0 <= j < w0[i].jobs.len() implies after.contains(
            #[trigger] w0[i].jobs[j].destination,
        ) by {
            assert(w[i] == w0[i]);
        }
        lemma_fixpoint(sr, dr, rest, opts, existing, after);
        if rest.contains(sources.last()) {
            assert(w == w0);
        } else {
            let js = jobs_for(sr, dr, sources.last(), opts, existing)->Ok_0;
            let n = w0.len() as int;
            assert(w[n].jobs == js);
            assert forall|j: int| 0 <= j < js.len() implies after.contains(#[trigger] js[j].destination) by {
                assert(w[n].jobs[j] == js[j]);
            }
            lemma_jobs_fixpoint(sr, dr, sources.last(), opts, existing, after, js);
            assert(emptied(w) =~= emptied(w0).push(
                EntryModel { source: sources.last(), jobs: Seq::empty() },
            ));
        }
    }
}

proof fn lemma_job_facts(
    sr: PathModel,
    dr: PathModel,
    s: PathModel,
    opts: Seq<OptionsModel>,
    existing: Seq<PathModel>,
)
    requires
        jobs_for(sr, dr, s, opts, existing) is Ok,
    ensures
        ({
            let js = jobs_for(sr, dr, s, opts, existing)->Ok_0;
            &&& forall|k: int| 0 <= k < opts.len() ==> (#[trigger] destination_of(sr, dr, s, opts[k].name)) is Ok
            &&& forall|j: int|
                0 <= j < js.len() ==> exists|k: int|
                    0 <= k < opts.len() && (#[trigger] js[j]) == (JobModel {
                        source: s,
                        destination: destination_of(sr, dr, s, opts[k].name)->Ok_0,
                        options: opts[k],
                    })
            &&& forall|k: int|
                0 <= k < opts.len() && !existing.contains(
                    (#[trigger] destination_of(sr, dr, s, opts[k].name))->Ok_0,
                ) ==> exists|j: int|
                    0 <= j < js.len() && js[j] == (JobModel {
                        source: s,
                        destination: destination_of(sr, dr, s, opts[k].name)->Ok_0,
                        options: opts[k],
                    })
        }),
    decreases opts.len(),
{
    if opts.len() > 0 {
        let js = jobs_for(sr, dr, s, opts, existing)->Ok_0;
        let ol = opts.drop_last();
        lemma_job_facts(sr, dr, s, ol, existing);
        let js0 = jobs_for(sr, dr, s, ol, existing)->Ok_0;
        let last = opts.len() - 1;
        assert(opts[last] == opts.last());
        assert forall|k: int| 0 <= k < opts.len() implies (#[trigger] destination_of(sr, dr, s, opts[k].name)) is Ok by {
            if k < last {
                assert(opts[k] == ol[k]);
                assert(destination_of(sr, dr, s, ol[k].name) is Ok);
            }
        }
        assert forall|j: int| 0 <= j < js.len() implies exists|k: int|
            0 <= k < opts.len() && (#[trigger] js[j]) == (JobModel {
                source: s,
                destination: destination_of(sr, dr, s, opts[k].name)->Ok_0,
                options: opts[k],
            }) by {
            if j < js0.len() {
                assert(js[j] == js0[j]);
                let k = choose|k: int|
                    0 <= k < ol.len() && (#[trigger] js0[j]) == (JobModel {
                        source: s,
                        destination: destination_of(sr, dr, s, ol[k].name)->Ok_0,
                        options: ol[k],
                    });
                assert(opts[k] == ol[k]);
            } else {
                assert(js[j].options == opts[last]);
            }
        }
        assert forall|k: int|
            0 <= k < opts.len() && !existing.contains(
                (#[trigger] destination_of(sr, dr, s, opts[k].name))->Ok_0,
            ) implies exists|j: int|
            0 <= j < js.len() && js[j] == (JobModel {
                source: s,
                destination: destination_of(sr, dr, s, opts[k].name)->Ok_0,
                options: opts[k],
            }) by {
            if k < last {
                assert(opts[k] == ol[k]);
                assert(!existing.contains(destination_of(sr, dr, s, ol[k].name)->Ok_0));
                let j = choose|j: int|
                    0 <= j < js0.len() && js0[j] == (JobModel {
                        source: s,
                        destination: destination_of(sr, dr, s, ol[k].name)->Ok_0,
                        options: ol[k],
                    });
                assert(js[j] == js0[j]);
            } else {
                assert(js[js0.len() as int] == (JobModel {
                    source: s,
                    destination: destination_of(sr, dr, s, opts[k].name)->Ok_0,
                    options: opts[k],
                }));
            }
        }
    }
}


proof fn lemma_destination_injective(
    sr: PathModel,
    dr: PathModel,
    s: PathModel,
    n1: Seq<char>,
    n2: Seq<char>,
)
    requires
        destination_of(sr, dr, s, n1) is Ok,
        destination_of(sr, dr, s, n2) is Ok,
        n1 != n2,
    ensures
        destination_of(sr, dr, s, n1)->Ok_0 != destination_of(sr, dr, s, n2)->Ok_0,
{
    let d1 = destination_of(sr, dr, s, n1)->Ok_0;
    let d2 = destination_of(sr, dr, s, n2)->Ok_0;
    if d1 == d2 {
        let a = d1.parts.last();
        let b = d2.parts.last();
        let stem = stem_of(s)->0;
        let ext = extension_of(s)->0;
        assert(a == derived_file_name(stem, n1, ext));
        assert(b == derived_file_name(stem, n2, ext));
        let lo: int = stem.len() as int + 1;
        assert(n1 =~= a.subrange(lo, lo + n1.len() as int));
        assert(n2 =~= b.subrange(lo, lo + n2.len() as int));
    }
}

proof fn lemma_jobs_distinct(
    sr: PathModel,
    dr: PathModel,
    s: PathModel,
    opts: Seq<OptionsModel>,
    existing: Seq<PathModel>,
)
    requires
        jobs_for(sr, dr, s, opts, existing) is Ok,
        distinct_names(opts),
    ensures
        ({
            let js = jobs_for(sr, dr, s, opts, existing)->Ok_0;
            forall|a: int, b: int|
                0 <= a < b < js.len() ==> (#[trigger] js[a]).destination != (#[trigger] js[b]).destination
        }),
    decreases opts.len(),
{
    if opts.len() > 0 {
        let js = jobs_for(sr, dr, s, opts, existing)->Ok_0;
        let ol = opts.drop_last();
        let js0 = jobs_for(sr, dr, s, ol, existing)->Ok_0;
        lemma_jobs_distinct(sr, dr, s, ol, existing);
        lemma_job_facts(sr, dr, s, ol, existing);
        lemma_job_facts(sr, dr, s, opts, existing);
        let last = opts.len() - 1;
        assert forall|a: int, b: int| 0 <= a < b < js.len() implies (#[trigger] js[a]).destination
            != (#[trigger] js[b]).destination by {
            assert(js[a] == js0[a]);
            if b < js0.len() {
                assert(js[b] == js0[b]);
            } else {
                let k = choose|k: int|
                    0 <= k < ol.len() && (#[trigger] js0[a]) == (JobModel {
                        source: s,
                        destination: destination_of(sr, dr, s, ol[k].name)->Ok_0,
                        options: ol[k],
                    });
                assert(opts[k] == ol[k]);
                assert(js[b].options == opts[last]);
                assert(destination_of(sr, dr, s, opts[k].name) is Ok);
                lemma_destination_injective(sr, dr, s, opts[k].name, opts[last].name);
            }
        }
    }
}

/// Every source is the key of an entry, every key is a source, no key
/// repeats, and each entry holds exactly the jobs that its source needs.
pub proof fn lemma_entry_facts(
    sr: PathModel,
    dr: PathModel,
    sources: Seq<PathModel>,
    opts: Seq<OptionsModel>,
    existing: Seq<PathModel>,
)
    requires
        work_set(sr, dr, sources, opts, existing) is Ok,
    ensures
        ({
            let w = work_set(sr, dr, sources, opts, existing)->Ok_0;
            &&& forall|a: int, b: int|
                0 <= a < b < w.len() ==> (#[trigger] w[a]).source != (#[trigger] w[b]).source
            &&& forall|i: int|
                0 <= i < w.len() ==> jobs_for(sr, dr, (#[trigger] w[i]).source, opts, existing)
                    == Ok::<Seq<JobModel>, PathError>(w[i].jobs)
            &&& forall|i: int| 0 <= i < w.len() ==> sources.contains((#[trigger] w[i]).source)
            &&& forall|k: int|
                #![trigger sources[k]]
                0 <= k < sources.len() ==> exists|i: int|
                    0 <= i < w.len() && (#[trigger] w[i]).source == sources[k]
        }),
    decreases sources.len(),
{
    if sources.len() > 0 {
        let w = work_set(sr, dr, sources, opts, existing)->Ok_0;
        let rest = sources.drop_last();
        let w0 = work_set(sr, dr, rest, opts, existing)->Ok_0;
        lemma_entry_facts(sr, dr, rest, opts, existing);
        let n = sources.len() - 1;
        assert(sources[n] == sources.last());
        assert forall|i: int| 0 <= i < w.len() implies sources.contains((#[trigger] w[i]).source) by {
            if i < w0.len() {
                assert(w[i] == w0[i]);
                let k = choose|k: int| 0 <= k < rest.len() && rest[k] == w0[i].source;
                assert(sources[k] == rest[k]);
            } else {
                assert(w[i].source == sources[n]);
            }
        }
        assert forall|i: int| 0 <= i < w.len() implies jobs_for(sr, dr, (#[trigger] w[i]).source, opts, existing)
            == Ok::<Seq<JobModel>, PathError>(w[i].jobs) by {
            if i < w0.len() {
                assert(w[i] == w0[i]);
            }
        }
        assert forall|a: int, b: int| 0 <= a < b < w.len() implies (#[trigger] w[a]).source != (
        #[trigger] w[b]).source by {
            assert(w[a] == w0[a]);
            if b < w0.len() {
                assert(w[b] == w0[b]);
            } else {
                assert(w[b].source == sources.last());
                assert(rest.contains(w0[a].source));
            }
        }
        assert forall|k: int| #![trigger sources[k]] 0 <= k < sources.len() implies exists|i: int|
            0 <= i < w.len() && (#[trigger] w[i]).source == sources[k] by {
            if k < n {
                assert(rest[k] == sources[k]);
                let i = choose|i: int| 0 <= i < w0.len() && (#[trigger] w0[i]).source == rest[k];
                assert(w[i] == w0[i]);
            } else if rest.contains(sources.last()) {
                let k2 = choose|k2: int| 0 <= k2 < rest.len() && rest[k2] == sources.last();
                let i = choose|i: int| 0 <= i < w0.len() && (#[trigger] w0[i]).source == rest[k2];
                assert(w[i] == w0[i]);
            } else {
                assert(w[w0.len() as int].source == sources[k]);
            }
        }
    }
}

/// No duplicated work: the entries have distinct sources, each job carries
/// its entry's source and lacks its destination, and where the variants
/// have distinct names no two jobs of an entry share a destination.
pub proof fn lemma_no_duplicate_jobs(
    sr: PathModel,
    dr: PathModel,
    sources: Seq<PathModel>,
    opts: Seq<OptionsModel>,
    existing: Seq<PathModel>,
)
    requires
        work_set(sr, dr, sources, opts, existing) is Ok,
        distinct_names(opts),
    ensures
        ({
            let w = work_set(sr, dr, sources, opts, existing)->Ok_0;
            &&& forall|a: int, b: int|
                0 <= a < b < w.len() ==> (#[trigger] w[a]).source != (#[trigger] w[b]).source
            &&& forall|i: int, j: int|
                0 <= i < w.len() && 0 <= j < w[i].jobs.len() ==> (#[trigger] w[i].jobs[j]).source
                    == w[i].source && !existing.contains(w[i].jobs[j].destination)
            &&& forall|i: int, a: int, b: int|
                0 <= i < w.len() && 0 <= a < b < w[i].jobs.len() ==> (#[trigger] w[i].jobs[a]).destination
                    != (#[trigger] w[i].jobs[b]).destination
        }),
{
    let w = work_set(sr, dr, sources, opts, existing)->Ok_0;
    lemma_entry_facts(sr, dr, sources, opts, existing);
    assert forall|i: int, j: int|
        0 <= i < w.len() && 0 <= j < w[i].jobs.len() implies (#[trigger] w[i].jobs[j]).source
        == w[i].source && !existing.contains(w[i].jobs[j].destination) by {
        lemma_job_facts(sr, dr, w[i].source, opts, existing);
        lemma_jobs_not_existing(sr, dr, w[i].source, opts, existing);
    }
    assert forall|i: int, a: int, b: int|
        0 <= i < w.len() && 0 <= a < b < w[i].jobs.len() implies (#[trigger] w[i].jobs[a]).destination
        != (#[trigger] w[i].jobs[b]).destination by {
        lemma_jobs_distinct(sr, dr, w[i].source, opts, existing);
    }
}

proof fn lemma_jobs_not_existing(
    sr: PathModel,
    dr: PathModel,
    s: PathModel,
    opts: Seq<OptionsModel>,
    existing: Seq<PathModel>,
)
    requires
        jobs_for(sr, dr, s, opts, existing) is Ok,
    ensures
        ({
            let js = jobs_for(sr, dr, s, opts, existing)->Ok_0;
            forall|j: int| 0 <= j < js.len() ==> !existing.contains((#[trigger] js[j]).destination)
        }),
    decreases opts.len(),
{
    if opts.len() > 0 {
        let js = jobs_for(sr, dr, s, opts, existing)->Ok_0;
        let js0 = jobs_for(sr, dr, s, opts.drop_last(), existing)->Ok_0;
        lemma_jobs_not_existing(sr, dr, s, opts.drop_last(), existing);
        assert forall|j: int| 0 <= j < js.len() implies !existing.contains((#[trigger] js[j]).destination) by {
            if j < js0.len() {
                assert(js[j] == js0[j]);
            }
        }
    }
}

/// Completeness: where the derivative of a source for a variant is absent,
/// exactly one entry has that source, and it holds exactly one job with
/// that destination, for that variant.
pub proof fn lemma_missing_derivative_has_one_job(
    sr: PathModel,
    dr: PathModel,
    sources: Seq<PathModel>,
    opts: Seq<OptionsModel>,
    existing: Seq<PathModel>,
    ks: int,
    ko: int,
)
    requires
        work_set(sr, dr, sources, opts, existing) is Ok,
        distinct_names(opts),
        0 <= ks < sources.len(),
        0 <= ko < opts.len(),
        !existing.contains(destination_of(sr, dr, sources[ks], opts[ko].name)->Ok_0),
    ensures
        ({
            let w = work_set(sr, dr, sources, opts, existing)->Ok_0;
            let d = destination_of(sr, dr, sources[ks], opts[ko].name)->Ok_0;
            exists|i: int, j: int|
                0 <= i < w.len() && 0 <= j < w[i].jobs.len() && w[i].source == sources[ks]
                    && w[i].jobs[j] == (JobModel { source: sources[ks], destination: d, options: opts[ko] })
                    && (forall|i2: int| 0 <= i2 < w.len() && i2 != i ==> (#[trigger] w[i2]).source != sources[ks])
                    && (forall|j2: int| 0 <= j2 < w[i].jobs.len() && j2 != j ==> (#[trigger] w[i].jobs[j2]).destination != d)
        }),
{
    let w = work_set(sr, dr, sources, opts, existing)->Ok_0;
    let s = sources[ks];
    let d = destination_of(sr, dr, s, opts[ko].name)->Ok_0;
    lemma_entry_facts(sr, dr, sources, opts, existing);
    lemma_no_duplicate_jobs(sr, dr, sources, opts, existing);
    let i = choose|i: int| 0 <= i < w.len() && (#[trigger] w[i]).source == s;
    lemma_job_facts(sr, dr, s, opts, existing);
    let js = w[i].jobs;
    let j = choose|j: int| 0 <= j < js.len() && js[j] == (JobModel { source: s, destination: d, options: opts[ko] });
    assert forall|i2: int| 0 <= i2 < w.len() && i2 != i implies (#[trigger] w[i2]).source != s by {
        if i2 < i {
            assert(w[i2].source != w[i].source);
        } else {
            assert(w[i].source != w[i2].source);
        }
    }
    assert forall|j2: int| 0 <= j2 < js.len() && j2 != j implies (#[trigger] w[i].jobs[j2]).destination != d by {
        if j2 < j {
            assert(w[i].jobs[j2].destination != w[i].jobs[j].destination);
        } else {
            assert(w[i].jobs[j].destination != w[i].jobs[j2].destination);
        }
    }
}

/// With no derivative present yet, every source gets a job for every
/// variant.
pub proof fn lemma_empty_tree_needs_every_job(
    sr: PathModel,
    dr: PathModel,
    sources: Seq<PathModel>,
    opts: Seq<OptionsModel>,
    ks: int,
    ko: int,
)
    requires
        work_set(sr, dr, sources, opts, Seq::empty()) is Ok,
        distinct_names(opts),
        0 <= ks < sources.len(),
        0 <= ko < opts.len(),
    ensures
        ({
            let w = work_set(sr, dr, sources, opts, Seq::empty())->Ok_0;
            let d = destination_of(sr, dr, sources[ks], opts[ko].name)->Ok_0;
            exists|i: int, j: int|
                0 <= i < w.len() && 0 <= j < w[i].jobs.len() && w[i].source == sources[ks]
                    && w[i].jobs[j] == (JobModel { source: sources[ks], destination: d, options: opts[ko] })
        }),
{
    lemma_missing_derivative_has_one_job(sr, dr, sources, opts, Seq::empty(), ks, ko);
}


/// A file whose directory lies under neither root gets no destination: it
/// fails with a prefix mismatch.
pub proof fn lemma_outside_roots_is_prefix_mismatch(
    sr: PathModel,
    dr: PathModel,
    p: PathModel,
    variant: Seq<char>,
)
    requires
        stem_of(p) is Some,
        strip_prefix_of(parent_of(p)->0, sr) is None,
        strip_prefix_of(parent_of(p)->0, dr) is None,
    ensures
        destination_of(sr, dr, p, variant) == Err::<PathModel, PathError>(PathError::PrefixMismatch),
{
}

} // verus!
