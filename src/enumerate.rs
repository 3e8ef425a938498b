use vstd::prelude::*;
use vstd::seq_lib::{to_multiset_build, to_multiset_insert};
use crate::path::{
    extension_of, file_name_of, find_last_dot, is_dot_dot, lemma_last_dot_range, render,
    split_name, ImgPath, PathModel,
};

verus! {

/// `c` is `lower`, or its upper-case ASCII form.
pub open spec fn ci_char(c: char, lower: char) -> bool {
    c == lower || ('A' <= c <= 'Z' && c as u32 + 32 == lower as u32)
}

/// `s` equals the lower-case text `lower` up to ASCII case.
pub open spec fn matches_ci(s: Seq<char>, lower: Seq<char>) -> bool {
    s.len() == lower.len() && forall|i: int| 0 <= i < s.len() ==> ci_char(s[i], lower[i])
}

/// A file is an image when its extension is `jpg` or `jpeg`, in any case.
pub open spec fn is_image_path(p: PathModel) -> bool {
    match extension_of(p) {
        Some(e) => matches_ci(e, seq!['j', 'p', 'g']) || matches_ci(e, seq!['j', 'p', 'e', 'g']),
        None => false,
    }
}

/// The image files among `s`, in their order.
pub open spec fn eligible(s: Seq<PathModel>) -> Seq<PathModel>
    decreases s.len(),
{
    if s.len() == 0 {
        s
    } else if is_image_path(s.last()) {
        eligible(s.drop_last()).push(s.last())
    } else {
        eligible(s.drop_last())
    }
}

/// Lexicographic order of texts, character by character.
pub open spec fn text_le(a: Seq<char>, b: Seq<char>) -> bool
    decreases a.len(),
{
    if a.len() == 0 {
        true
    } else if b.len() == 0 {
        false
    } else if a[0] != b[0] {
        a[0] < b[0]
    } else {
        text_le(a.drop_first(), b.drop_first())
    }
}

pub open spec fn path_le(a: PathModel, b: PathModel) -> bool {
    text_le(render(a), render(b))
}

/// Each path comes no later than the ones after it, by the order of their text.
pub open spec fn sorted_paths(s: Seq<PathModel>) -> bool {
    forall|i: int, j: int| 0 <= i < j < s.len() ==> path_le(#[trigger] s[i], #[trigger] s[j])
}

pub open spec fn path_views(s: Seq<ImgPath>) -> Seq<PathModel> {
    s.map_values(|p: ImgPath| p@)
}

pub proof fn lemma_text_le_total(a: Seq<char>, b: Seq<char>)
    ensures
        text_le(a, b) || text_le(b, a),
    decreases a.len(),
{
    if a.len() > 0 && b.len() > 0 && a[0] == b[0] {
        lemma_text_le_total(a.drop_first(), b.drop_first());
    }
}

pub proof fn lemma_text_le_trans(a: Seq<char>, b: Seq<char>, c: Seq<char>)
    requires
        text_le(a, b),
        text_le(b, c),
    ensures
        text_le(a, c),
    decreases a.len(),
{
    if a.len() > 0 && b.len() > 0 && c.len() > 0 && a[0] == b[0] && b[0] == c[0] {
        lemma_text_le_trans(a.drop_first(), b.drop_first(), c.drop_first());
    }
}

fn ci_eq(c: char, lower: char) -> (r: bool)
    ensures
        r == ci_char(c, lower),
{
    c == lower || ('A' <= c && c <= 'Z' && (c as u32) + 32 == lower as u32)
}

/// Tells whether the path names a `jpg` or `jpeg` file, in any case.
pub fn is_image_file(p: &ImgPath) -> (r: bool)
    ensures
        r == is_image_path(p@),
{
    let n = p.parts.len();
    if n == 0 {
        return false;
    }
    let last = p.parts[n - 1].as_str();
    assert(last@ == p@.parts.last());
    if is_dot_dot(last) {
        return false;
    }
    assert(file_name_of(p@) == Some(last@));
    let len = last.unicode_len();
    proof {
        lemma_last_dot_range(last@);
    }
    let d = match find_last_dot(last) {
        Some(d) if d > 0 => d,
        _ => {
            return false;
        },
    };
    let ghost ext = last@.subrange(d + 1, len as int);
    assert(split_name(last@).1 == Some(ext));
    let el = len - d - 1;
    let r = if el == 3 {
        ci_eq(last.get_char(d + 1), 'j') && ci_eq(last.get_char(d + 2), 'p') && ci_eq(
            last.get_char(d + 3),
            'g',
        )
    } else if el == 4 {
        ci_eq(last.get_char(d + 1), 'j') && ci_eq(last.get_char(d + 2), 'p') && ci_eq(
            last.get_char(d + 3),
            'e',
        ) && ci_eq(last.get_char(d + 4), 'g')
    } else {
        false
    };
    proof {
        let jpg = seq!['j', 'p', 'g'];
        let jpeg = seq!['j', 'p', 'e', 'g'];
        if el == 3 {
            if r {
                assert(matches_ci(ext, jpg));
            } else if matches_ci(ext, jpg) {
                assert(ci_char(ext[0], jpg[0]) && ci_char(ext[1], jpg[1]) && ci_char(ext[2], jpg[2]));
            }
        } else if el == 4 {
            if r {
                assert(matches_ci(ext, jpeg));
            } else if matches_ci(ext, jpeg) {
                assert(ci_char(ext[0], jpeg[0]) && ci_char(ext[1], jpeg[1]) && ci_char(ext[2], jpeg[2])
                    && ci_char(ext[3], jpeg[3]));
            }
        }
    }
    r
}

/// The characters of `s`.
fn chars_of(s: &str) -> (r: Vec<char>)
    ensures
        r@ == s@,
{
    let n = s.unicode_len();
    let mut r: Vec<char> = Vec::new();
    let mut i: usize = 0;
    while i < n
        invariant
            i <= n == s@.len(),
            r@ =~= s@.subrange(0, i as int),
        decreases n - i,
    {
        r.push(s.get_char(i));
        i = i + 1;
    }
    r
}

/// Compares two texts in lexicographic order.
fn le_text(a: &Vec<char>, b: &Vec<char>) -> (r: bool)
    ensures
        r == text_le(a@, b@),
{
    let mut i: usize = 0;
    assert(a@.skip(0) =~= a@ && b@.skip(0) =~= b@);
    while i < a.len() && i < b.len() && a[i] == b[i]
        invariant
            i <= a@.len(),
            i <= b@.len(),
            text_le(a@, b@) == text_le(a@.skip(i as int), b@.skip(i as int)),
        decreases a@.len() - i,
    {
        assert(a@.skip(i as int).drop_first() =~= a@.skip(i + 1));
        assert(b@.skip(i as int).drop_first() =~= b@.skip(i + 1));
        i = i + 1;
    }
    if i == a.len() {
        return true;
    }
    if i == b.len() {
        return false;
    }
    assert(a@.skip(i as int)[0] == a@[i as int]);
    assert(b@.skip(i as int)[0] == b@[i as int]);
    a[i] < b[i]
}

/// The image files among `files`, sorted by the text of their paths; equal
/// paths keep their order.
pub fn get_all_files(files: Vec<ImgPath>) -> (r: Vec<ImgPath>)
    requires
        forall|i: int| 0 <= i < files@.len() ==> (#[trigger] files@[i]).wf(),
    ensures
        sorted_paths(path_views(r@)),
        path_views(r@).to_multiset() == eligible(path_views(files@)).to_multiset(),
        forall|i: int| 0 <= i < r@.len() ==> (#[trigger] r@[i]).wf(),
{
    broadcast use to_multiset_build, to_multiset_insert;

    let mut out: Vec<ImgPath> = Vec::new();
    let mut keys: Vec<Vec<char>> = Vec::new();
    let mut i: usize = 0;
    let ghost mut taken: Seq<PathModel> = Seq::empty();
    assert(path_views(out@) =~= Seq::<PathModel>::empty());
    assert(path_views(files@).subrange(0, 0) =~= Seq::<PathModel>::empty());
    while i < files.len()
        invariant
            i <= files@.len(),
            forall|k: int| 0 <= k < files@.len() ==> (#[trigger] files@[k]).wf(),
            forall|k: int| 0 <= k < out@.len() ==> (#[trigger] out@[k]).wf(),
            keys@.len() == out@.len(),
            forall|k: int| 0 <= k < out@.len() ==> (#[trigger] keys@[k])@ == render(out@[k]@),
            sorted_paths(path_views(out@)),
            taken == eligible(path_views(files@).subrange(0, i as int)),
            path_views(out@).to_multiset() == taken.to_multiset(),
        decreases files@.len() - i,
    {
        let ghost prefix = path_views(files@).subrange(0, i as int);
        assert(path_views(files@).subrange(0, i + 1).drop_last() =~= prefix);
        assert(path_views(files@).subrange(0, i + 1).last() == files@[i as int]@);
        if is_image_file(&files[i]) {
            let p = &files[i];
            let text = p.to_path_string();
            let key = chars_of(text.as_str());
            let ghost kx = key@;
            let mut lo: usize = 0;
            let mut hi: usize = out.len();
            while lo < hi
                invariant
                    lo <= hi <= out@.len() == keys@.len(),
                    i < files@.len(),
                    kx == key@,
                    forall|k: int| 0 <= k < files@.len() ==> (#[trigger] files@[k]).wf(),
                    forall|k: int| 0 <= k < out@.len() ==> (#[trigger] out@[k]).wf(),
                    taken == eligible(prefix),
                    path_views(out@).to_multiset() == taken.to_multiset(),
                    forall|k: int| 0 <= k < out@.len() ==> (#[trigger] keys@[k])@ == render(out@[k]@),
                    sorted_paths(path_views(out@)),
                    forall|k: int| 0 <= k < lo ==> text_le((#[trigger] keys@[k])@, kx),
                    forall|k: int| hi <= k < out@.len() ==> !text_le((#[trigger] keys@[k])@, kx),
                decreases hi - lo,
            {
                let mid = lo + (hi - lo) / 2;
                let below = le_text(&keys[mid], &key);
                if below {
                    assert(text_le(keys@[mid as int]@, kx));
                    proof {
                        assert forall|k: int| 0 <= k <= mid implies text_le(
                            (#[trigger] keys@[k])@,
                            kx,
                        ) by {
                            if k < mid {
                                assert(keys@[k]@ == render(out@[k]@));
                                assert(keys@[mid as int]@ == render(out@[mid as int]@));
                                assert(path_views(out@)[k] == out@[k]@);
                                assert(path_views(out@)[mid as int] == out@[mid as int]@);
                                assert(path_le(path_views(out@)[k], path_views(out@)[mid as int]));
                                lemma_text_le_trans(keys@[k]@, keys@[mid as int]@, kx);
                            }
                        }
                    }
                    lo = mid + 1;
                } else {
                    proof {
                        assert forall|k: int| mid <= k < out@.len() implies !text_le(
                            (#[trigger] keys@[k])@,
                            kx,
                        ) by {
                            if k > mid && text_le(keys@[k]@, kx) {
                                assert(path_views(out@)[k] == out@[k]@);
                                assert(path_views(out@)[mid as int] == out@[mid as int]@);
                                assert(path_le(path_views(out@)[mid as int], path_views(out@)[k]));
                                lemma_text_le_trans(keys@[mid as int]@, keys@[k]@, kx);
                            }
                        }
                    }
                    hi = mid;
                }
            }
            let ghost old_out = out@;
            let ghost old_keys = keys@;
            let copy = p.duplicate();
            out.insert(lo, copy);
            keys.insert(lo, key);
            proof {
                assert(path_views(out@) =~= path_views(old_out).insert(lo as int, p@));
                assert forall|k: int| 0 <= k < out@.len() implies (#[trigger] keys@[k])@ == render(
                    out@[k]@,
                ) by {
                    if k < lo {
                        assert(keys@[k] == old_keys[k]);
                    } else if k > lo {
                        assert(keys@[k] == old_keys[k - 1]);
                    }
                }
                assert forall|a: int, b: int| 0 <= a < b < out@.len() implies path_le(
                    #[trigger] path_views(out@)[a],
                    #[trigger] path_views(out@)[b],
                ) by {
                    let ov = path_views(old_out);
                    if b < lo {
                        assert(path_le(ov[a], ov[b]));
                    } else if a > lo {
                        assert(path_le(ov[a - 1], ov[b - 1]));
                    } else if a == lo {
                        assert(keys@[b] == old_keys[b - 1]);
                        lemma_text_le_total(kx, old_keys[b - 1]@);
                    } else {
                        assert(keys@[a] == old_keys[a]);
                        if b > lo {
                            assert(path_le(ov[a], ov[b - 1]));
                        }
                    }
                }
                to_multiset_insert(path_views(old_out), lo as int, p@);
                to_multiset_build(taken, p@);
                taken = taken.push(p@);
                assert(path_views(out@).to_multiset() == taken.to_multiset());
            }
        }
        assert(taken == eligible(path_views(files@).subrange(0, i + 1)));
        i = i + 1;
    }
    assert(path_views(files@).subrange(0, i as int) =~= path_views(files@));
    out
}

} // verus!
