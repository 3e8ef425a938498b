use vstd::prelude::*;
use crate::path::{
    all_components, copy_parts, extension_of, find_last_dot, has_no_slash, is_component,
    is_dot_dot, lemma_last_dot_range, parent_of, part_views, split_name, stem_of,
    strip_prefix_of, ImgPath, PathModel,
};

verus! {

/// A named size variant as configured.
#[derive(Clone, Debug, PartialEq, Eq)]
pub struct ImageSize {
    pub name: String,
    pub width: u32,
    pub height: u32,
}

/// The size variant as the job derivation uses it: the name goes into the
/// derivative's file name.
#[derive(Clone, Debug, PartialEq, Eq)]
pub struct ResizeOptions {
    pub name: String,
    pub width: u32,
    pub height: u32,
}

/// The value of a size variant.
pub struct OptionsModel {
    pub name: Seq<char>,
    pub width: u32,
    pub height: u32,
}

impl View for ResizeOptions {
    type V = OptionsModel;

    open spec fn view(&self) -> OptionsModel {
        OptionsModel { name: self.name@, width: self.width, height: self.height }
    }
}

impl ResizeOptions {
    /// An independent copy of the options.
    pub fn duplicate(&self) -> (r: ResizeOptions)
        ensures
            r@ == self@,
    {
        ResizeOptions { name: self.name.clone(), width: self.width, height: self.height }
    }
}

/// The two roots: where originals are read and where derivatives are written.
#[derive(Clone, Debug, PartialEq, Eq)]
pub struct AppConfig {
    pub original_photos_dir: ImgPath,
    pub resized_photos_dir: ImgPath,
}

impl AppConfig {
    pub open spec fn wf(&self) -> bool {
        self.original_photos_dir.wf() && self.resized_photos_dir.wf()
    }
}

/// Why a path has no destination.
#[derive(PartialEq, Eq, Structural, Debug, Clone, Copy)]
pub enum PathError {
    MissingFileName,
    MissingParent,
    PrefixMismatch,
    MissingExtension,
}

/// The size variants as options, one for one and in order.
pub fn get_resize_options(sizes: Vec<ImageSize>) -> (r: Vec<ResizeOptions>)
    ensures
        r@.len() == sizes@.len(),
        forall|i: int|
            0 <= i < sizes@.len() ==> (#[trigger] r@[i])@ == (OptionsModel {
                name: sizes@[i].name@,
                width: sizes@[i].width,
                height: sizes@[i].height,
            }),
{
    let mut r: Vec<ResizeOptions> = Vec::new();
    let mut i: usize = 0;
    while i < sizes.len()
        invariant
            i <= sizes@.len(),
            r@.len() == i,
            forall|k: int|
                0 <= k < i ==> (#[trigger] r@[k])@ == (OptionsModel {
                    name: sizes@[k].name@,
                    width: sizes@[k].width,
                    height: sizes@[k].height,
                }),
        decreases sizes@.len() - i,
    {
        let s = &sizes[i];
        r.push(ResizeOptions { name: s.name.clone(), width: s.width, height: s.height });
        i = i + 1;
    }
    r
}

/// The file name of a derivative: `<stem>-<variant>.<extension>`.
pub open spec fn derived_file_name(stem: Seq<char>, variant: Seq<char>, ext: Seq<char>) -> Seq<
    char,
> {
    stem + seq!['-'] + variant + seq!['.'] + ext
}

/// The directory of a source relative to the source root, or failing that
/// relative to the derivative root.
pub open spec fn relative_dir(source_root: PathModel, derivative_root: PathModel, dir: PathModel) -> Option<
    Seq<Seq<char>>,
> {
    match strip_prefix_of(dir, source_root) {
        Some(rel) => Some(rel),
        None => strip_prefix_of(dir, derivative_root),
    }
}

/// Where the derivative of `p` for the variant named `variant` is written.
pub open spec fn destination_of(
    source_root: PathModel,
    derivative_root: PathModel,
    p: PathModel,
    variant: Seq<char>,
) -> Result<PathModel, PathError> {
    if stem_of(p) is None {
        Err(PathError::MissingFileName)
    } else if parent_of(p) is None {
        Err(PathError::MissingParent)
    } else if relative_dir(source_root, derivative_root, parent_of(p)->0) is None {
        Err(PathError::PrefixMismatch)
    } else if extension_of(p) is None {
        Err(PathError::MissingExtension)
    } else {
        Ok(
            PathModel {
                absolute: derivative_root.absolute,
                parts: derivative_root.parts + relative_dir(
                    source_root,
                    derivative_root,
                    parent_of(p)->0,
                )->0 + seq![derived_file_name(stem_of(p)->0, variant, extension_of(p)->0)],
            },
        )
    }
}

/// `destination_of` under a configuration.
pub open spec fn config_destination(config: &AppConfig, p: PathModel, variant: Seq<char>) -> Result<
    PathModel,
    PathError,
> {
    destination_of(config.original_photos_dir@, config.resized_photos_dir@, p, variant)
}

proof fn lemma_no_slash_concat(a: Seq<char>, b: Seq<char>)
    requires
        has_no_slash(a),
        has_no_slash(b),
    ensures
        has_no_slash(a + b),
{
    assert forall|i: int| 0 <= i < (a + b).len() implies (a + b)[i] != '/' by {
        if i < a.len() {
            assert((a + b)[i] == a[i]);
        } else {
            assert((a + b)[i] == b[i - a.len()]);
        }
    }
}

proof fn lemma_all_components_concat(a: Seq<Seq<char>>, b: Seq<Seq<char>>)
    requires
        all_components(a),
        all_components(b),
    ensures
        all_components(a + b),
{
    assert forall|i: int| 0 <= i < (a + b).len() implies is_component(#[trigger] (a + b)[i]) by {
        if i < a.len() {
            assert((a + b)[i] == a[i]);
        } else {
            assert((a + b)[i] == b[i - a.len()]);
        }
    }
}

/// The destination of the derivative of `path` for the variant `opts`.
pub fn get_destination_path(config: &AppConfig, path: &ImgPath, opts: &ResizeOptions) -> (r: Result<
    ImgPath,
    PathError,
>)
    requires
        config.wf(),
        path.wf(),
        has_no_slash(opts.name@),
    ensures
        match r {
            Ok(d) => config_destination(config, path@, opts.name@) == Ok::<PathModel, PathError>(
                d@,
            ) && d.wf(),
            Err(e) => config_destination(config, path@, opts.name@) == Err::<PathModel, PathError>(
                e,
            ),
        },
{
    let n = path.parts.len();
    if n == 0 {
        return Err(PathError::MissingFileName);
    }
    let last = path.parts[n - 1].as_str();
    assert(last@ == path@.parts.last());
    if is_dot_dot(last) {
        return Err(PathError::MissingFileName);
    }
    let parent = ImgPath { absolute: path.absolute, parts: copy_parts(&path.parts, 0, n - 1) };
    assert(parent@ == parent_of(path@)->0) by {
        assert(part_views(path.parts@).subrange(0, n - 1) =~= part_views(path.parts@).drop_last());
    }
    let rel = match parent.strip_prefix(&config.original_photos_dir) {
        Some(rel) => rel,
        None => match parent.strip_prefix(&config.resized_photos_dir) {
            Some(rel) => rel,
            None => {
                return Err(PathError::PrefixMismatch);
            },
        },
    };
    let len = last.unicode_len();
    let dot = find_last_dot(last);
    proof {
        lemma_last_dot_range(last@);
    }
    let d = match dot {
        Some(d) if d > 0 => d,
        _ => {
            return Err(PathError::MissingExtension);
        },
    };
    let ghost stem = last@.subrange(0, d as int);
    let ghost ext = last@.subrange(d + 1, len as int);
    assert(split_name(last@) == (stem, Some(ext)));
    let mut name = last.substring_char(0, d).to_owned();
    name.append("-");
    name.append(opts.name.as_str());
    name.append(".");
    name.append(last.substring_char(d + 1, len));
    proof {
        reveal_strlit("-");
        reveal_strlit(".");
        assert(name@ =~= derived_file_name(stem, opts.name@, ext));
        assert(is_component(last@));
        assert(has_no_slash(stem)) by {
            assert forall|i: int| 0 <= i < stem.len() implies stem[i] != '/' by {
                assert(stem[i] == last@[i]);
            }
        }
        assert(has_no_slash(ext)) by {
            assert forall|i: int| 0 <= i < ext.len() implies ext[i] != '/' by {
                assert(ext[i] == last@[d + 1 + i]);
            }
        }
        assert(has_no_slash(seq!['-']));
        assert(has_no_slash(seq!['.']));
        lemma_no_slash_concat(stem, seq!['-']);
        lemma_no_slash_concat(stem + seq!['-'], opts.name@);
        lemma_no_slash_concat(stem + seq!['-'] + opts.name@, seq!['.']);
        lemma_no_slash_concat(stem + seq!['-'] + opts.name@ + seq!['.'], ext);
        assert(name@.len() >= 2);
        assert(name@ != seq!['.']) by {
            if name@ == seq!['.'] {
                assert(name@.len() == 1);
            }
        }
        assert(is_component(name@));
    }
    let mut parts = copy_parts(&config.resized_photos_dir.parts, 0, config.resized_photos_dir.parts.len());
    let ghost root_parts = part_views(parts@);
    assert(root_parts =~= config.resized_photos_dir@.parts);
    let mut k: usize = 0;
    while k < rel.len()
        invariant
            k <= rel@.len(),
            part_views(parts@) =~= root_parts + part_views(rel@).subrange(0, k as int),
        decreases rel@.len() - k,
    {
        let ghost before = parts@;
        let piece = rel[k].clone();
        parts.push(piece);
        assert(part_views(parts@) =~= part_views(before).push(part_views(rel@)[k as int]));
        k = k + 1;
    }
    let ghost with_dir = part_views(parts@);
    parts.push(name);
    let r = ImgPath { absolute: config.resized_photos_dir.absolute, parts };
    proof {
        assert(part_views(rel@).subrange(0, k as int) =~= part_views(rel@));
        assert(part_views(parts@) =~= with_dir + seq![name@]);
        let rv = relative_dir(config.original_photos_dir@, config.resized_photos_dir@, parent@)->0;
        assert(rv == part_views(rel@));
        // the relative directory is a slice of the source's components
        let pp = parent@.parts;
        assert(all_components(pp)) by {
            assert forall|i: int| 0 <= i < pp.len() implies is_component(#[trigger] pp[i]) by {
                assert(pp[i] == path@.parts[i]);
            }
        }
        assert(all_components(rv)) by {
            assert forall|i: int| 0 <= i < rv.len() implies is_component(#[trigger] rv[i]) by {
                let base = if strip_prefix_of(parent@, config.original_photos_dir@) is Some {
                    config.original_photos_dir@.parts.len()
                } else {
                    config.resized_photos_dir@.parts.len()
                };
                assert(rv[i] == pp[base + i]);
            }
        }
        lemma_all_components_concat(root_parts, rv);
        assert(all_components(seq![name@])) by {
            assert forall|i: int| 0 <= i < 1 implies is_component(#[trigger] seq![name@][i]) by {}
        }
        lemma_all_components_concat(root_parts + rv, seq![name@]);
    }
    Ok(r)
}

} // verus!
