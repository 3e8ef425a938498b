use vstd::prelude::*;
use crate::enumerate::path_views;
use crate::path::{has_no_slash, ImgPath, PathModel};
use crate::resolve::{
    destination_of, get_destination_path, AppConfig, OptionsModel, PathError, ResizeOptions,
};

verus! {

/// One derivative to produce: read `source`, resize by `options`, write `destination`.
#[derive(Clone, Debug, PartialEq, Eq)]
pub struct ResizeJob {
    pub source: ImgPath,
    pub destination: ImgPath,
    pub options: ResizeOptions,
}

pub struct JobModel {
    pub source: PathModel,
    pub destination: PathModel,
    pub options: OptionsModel,
}

impl View for ResizeJob {
    type V = JobModel;

    open spec fn view(&self) -> JobModel {
        JobModel { source: self.source@, destination: self.destination@, options: self.options@ }
    }
}

/// A source file with the jobs that it still needs, possibly none.
#[derive(Clone, Debug, PartialEq, Eq)]
pub struct WorkEntry {
    pub source: ImgPath,
    pub jobs: Vec<ResizeJob>,
}

pub struct EntryModel {
    pub source: PathModel,
    pub jobs: Seq<JobModel>,
}

pub open spec fn job_views(s: Seq<ResizeJob>) -> Seq<JobModel> {
    s.map_values(|j: ResizeJob| j@)
}

impl View for WorkEntry {
    type V = EntryModel;

    open spec fn view(&self) -> EntryModel {
        EntryModel { source: self.source@, jobs: job_views(self.jobs@) }
    }
}

pub open spec fn entry_views(s: Seq<WorkEntry>) -> Seq<EntryModel> {
    s.map_values(|e: WorkEntry| e@)
}

pub open spec fn option_views(s: Seq<ResizeOptions>) -> Seq<OptionsModel> {
    s.map_values(|o: ResizeOptions| o@)
}

/// The jobs that source `s` needs: one per variant, in order, whose
/// destination is not among `existing`; the first path error aborts.
pub open spec fn jobs_for(
    sr: PathModel,
    dr: PathModel,
    s: PathModel,
    opts: Seq<OptionsModel>,
    existing: Seq<PathModel>,
) -> Result<Seq<JobModel>, PathError>
    decreases opts.len(),
{
    if opts.len() == 0 {
        Ok(Seq::empty())
    } else {
        match jobs_for(sr, dr, s, opts.drop_last(), existing) {
            Err(e) => Err(e),
            Ok(js) => match destination_of(sr, dr, s, opts.last().name) {
                Err(e) => Err(e),
                Ok(d) => if existing.contains(d) {
                    Ok(js)
                } else {
                    Ok(js.push(JobModel { source: s, destination: d, options: opts.last() }))
                },
            },
        }
    }
}

/// The work set: one entry per distinct source, in order of first
/// occurrence, each with its missing jobs; the first path error aborts.
pub open spec fn work_set(
    sr: PathModel,
    dr: PathModel,
    sources: Seq<PathModel>,
    opts: Seq<OptionsModel>,
    existing: Seq<PathModel>,
) -> Result<Seq<EntryModel>, PathError>
    decreases sources.len(),
{
    if sources.len() == 0 {
        Ok(Seq::empty())
    } else {
        match work_set(sr, dr, sources.drop_last(), opts, existing) {
            Err(e) => Err(e),
            Ok(w) => if sources.drop_last().contains(sources.last()) {
                Ok(w)
            } else {
                match jobs_for(sr, dr, sources.last(), opts, existing) {
                    Err(e) => Err(e),
                    Ok(js) => Ok(w.push(EntryModel { source: sources.last(), jobs: js })),
                }
            },
        }
    }
}

proof fn lemma_jobs_err(
    sr: PathModel,
    dr: PathModel,
    s: PathModel,
    opts: Seq<OptionsModel>,
    existing: Seq<PathModel>,
    n: int,
    e: PathError,
)
    requires
        0 <= n <= opts.len(),
        jobs_for(sr, dr, s, opts.subrange(0, n), existing) == Err::<Seq<JobModel>, PathError>(e),
    ensures
        jobs_for(sr, dr, s, opts, existing) == Err::<Seq<JobModel>, PathError>(e),
    decreases opts.len() - n,
{
    if n < opts.len() {
        assert(opts.subrange(0, n + 1).drop_last() =~= opts.subrange(0, n));
        lemma_jobs_err(sr, dr, s, opts, existing, n + 1, e);
    } else {
        assert(opts.subrange(0, n) =~= opts);
    }
}

proof fn lemma_work_err(
    sr: PathModel,
    dr: PathModel,
    sources: Seq<PathModel>,
    opts: Seq<OptionsModel>,
    existing: Seq<PathModel>,
    n: int,
    e: PathError,
)
    requires
        0 <= n <= sources.len(),
        work_set(sr, dr, sources.subrange(0, n), opts, existing) == Err::<Seq<EntryModel>, PathError>(e),
    ensures
        work_set(sr, dr, sources, opts, existing) == Err::<Seq<EntryModel>, PathError>(e),
    decreases sources.len() - n,
{
    if n < sources.len() {
        assert(sources.subrange(0, n + 1).drop_last() =~= sources.subrange(0, n));
        lemma_work_err(sr, dr, sources, opts, existing, n + 1, e);
    } else {
        assert(sources.subrange(0, n) =~= sources);
    }
}

/// Tells whether `p` is among `v`.
fn contains_path(v: &Vec<ImgPath>, p: &ImgPath, end: usize) -> (r: bool)
    requires
        end <= v@.len(),
    ensures
        r == path_views(v@).subrange(0, end as int).contains(p@),
{
    let mut i: usize = 0;
    while i < end
        invariant
            i <= end <= v@.len(),
            forall|k: int| 0 <= k < i ==> v@[k]@ != p@,
        decreases end - i,
    {
        if v[i].same_as(p) {
            assert(path_views(v@).subrange(0, end as int)[i as int] == p@);
            return true;
        }
        i = i + 1;
    }
    proof {
        if path_views(v@).subrange(0, end as int).contains(p@) {
            let k = choose|k: int|
                0 <= k < end && path_views(v@).subrange(0, end as int)[k] == p@;
            assert(v@[k]@ == p@);
        }
    }
    false
}

/// The jobs that `file` still needs, or the first path error.
fn jobs_for_file(
    config: &AppConfig,
    file: &ImgPath,
    resized_files: &Vec<ImgPath>,
    options_list: &Vec<ResizeOptions>,
) -> (r: Result<Vec<ResizeJob>, PathError>)
    requires
        config.wf(),
        file.wf(),
        forall|k: int| 0 <= k < options_list@.len() ==> has_no_slash(#[trigger] options_list@[k].name@),
    ensures
        match r {
            Ok(js) => jobs_for(
                config.original_photos_dir@,
                config.resized_photos_dir@,
                file@,
                option_views(options_list@),
                path_views(resized_files@),
            ) == Ok::<Seq<JobModel>, PathError>(job_views(js@)),
            Err(e) => jobs_for(
                config.original_photos_dir@,
                config.resized_photos_dir@,
                file@,
                option_views(options_list@),
                path_views(resized_files@),
            ) == Err::<Seq<JobModel>, PathError>(e),
        },
{
    let ghost sr = config.original_photos_dir@;
    let ghost dr = config.resized_photos_dir@;
    let ghost ov = option_views(options_list@);
    let ghost rv = path_views(resized_files@);
    let mut jobs: Vec<ResizeJob> = Vec::new();
    let mut k: usize = 0;
    assert(ov.subrange(0, 0) =~= Seq::<OptionsModel>::empty());
    assert(job_views(jobs@) =~= Seq::<JobModel>::empty());
    while k < options_list.len()
        invariant
            k <= options_list@.len(),
            config.wf(),
            file.wf(),
            forall|k: int| 0 <= k < options_list@.len() ==> has_no_slash(#[trigger] options_list@[k].name@),
            sr == config.original_photos_dir@,
            dr == config.resized_photos_dir@,
            ov == option_views(options_list@),
            rv == path_views(resized_files@),
            jobs_for(sr, dr, file@, ov.subrange(0, k as int), rv) == Ok::<Seq<JobModel>, PathError>(
                job_views(jobs@),
            ),
        decreases options_list@.len() - k,
    {
        let options = &options_list[k];
        assert(ov.subrange(0, k + 1).drop_last() =~= ov.subrange(0, k as int));
        assert(ov.subrange(0, k + 1).last() == options@);
        let dest = match get_destination_path(config, file, options) {
            Ok(d) => d,
            Err(e) => {
                proof {
                    lemma_jobs_err(sr, dr, file@, ov, rv, k + 1, e);
                }
                return Err(e);
            },
        };
        let len = resized_files.len();
        assert(path_views(resized_files@).subrange(0, len as int) =~= rv);
        if !contains_path(resized_files, &dest, len) {
            let ghost before = jobs@;
            let job = ResizeJob { source: file.duplicate(), destination: dest, options: options.duplicate() };
            jobs.push(job);
            assert(job_views(jobs@) =~= job_views(before).push(job@));
        }
        k = k + 1;
    }
    assert(ov.subrange(0, k as int) =~= ov);
    Ok(jobs)
}

/// For each source file, the resize jobs whose destination is not among
/// `resized_files`, one per size variant in order; every distinct source is
/// an entry, even with no job. A path error of any source aborts the whole
/// derivation.
pub fn get_files_not_resized(
    config: &AppConfig,
    source_files: Vec<ImgPath>,
    resized_files: Vec<ImgPath>,
    options_list: Vec<ResizeOptions>,
) -> (r: Result<Vec<WorkEntry>, PathError>)
    requires
        config.wf(),
        forall|i: int| 0 <= i < source_files@.len() ==> (#[trigger] source_files@[i]).wf(),
        forall|k: int| 0 <= k < options_list@.len() ==> has_no_slash(#[trigger] options_list@[k].name@),
    ensures
        match r {
            Ok(w) => work_set(
                config.original_photos_dir@,
                config.resized_photos_dir@,
                path_views(source_files@),
                option_views(options_list@),
                path_views(resized_files@),
            ) == Ok::<Seq<EntryModel>, PathError>(entry_views(w@)),
            Err(e) => work_set(
                config.original_photos_dir@,
                config.resized_photos_dir@,
                path_views(source_files@),
                option_views(options_list@),
                path_views(resized_files@),
            ) == Err::<Seq<EntryModel>, PathError>(e),
        },
{
    let ghost sr = config.original_photos_dir@;
    let ghost dr = config.resized_photos_dir@;
    let ghost sv = path_views(source_files@);
    let ghost ov = option_views(options_list@);
    let ghost rv = path_views(resized_files@);
    let mut out: Vec<WorkEntry> = Vec::new();
    let mut i: usize = 0;
    assert(sv.subrange(0, 0) =~= Seq::<PathModel>::empty());
    assert(entry_views(out@) =~= Seq::<EntryModel>::empty());
    while i < source_files.len()
        invariant
            i <= source_files@.len(),
            config.wf(),
            forall|i: int| 0 <= i < source_files@.len() ==> (#[trigger] source_files@[i]).wf(),
            forall|k: int| 0 <= k < options_list@.len() ==> has_no_slash(#[trigger] options_list@[k].name@),
            sr == config.original_photos_dir@,
            dr == config.resized_photos_dir@,
            sv == path_views(source_files@),
            ov == option_views(options_list@),
            rv == path_views(resized_files@),
            work_set(sr, dr, sv.subrange(0, i as int), ov, rv) == Ok::<Seq<EntryModel>, PathError>(
                entry_views(out@),
            ),
        decreases source_files@.len() - i,
    {
        let file = &source_files[i];
        assert(sv.subrange(0, i + 1).drop_last() =~= sv.subrange(0, i as int));
        assert(sv.subrange(0, i + 1).last() == file@);
        if !contains_path(&source_files, file, i) {
            let jobs = match jobs_for_file(config, file, &resized_files, &options_list) {
                Ok(js) => js,
                Err(e) => {
                    proof {
                        lemma_work_err(sr, dr, sv, ov, rv, i + 1, e);
                    }
                    return Err(e);
                },
            };
            let ghost before = out@;
            let entry = WorkEntry { source: file.duplicate(), jobs };
            out.push(entry);
            assert(entry_views(out@) =~= entry_views(before).push(entry@));
        }
        i = i + 1;
    }
    assert(sv.subrange(0, i as int) =~= sv);
    Ok(out)
}

} // verus!
