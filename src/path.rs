use vstd::prelude::*;

verus! {

/// The mathematical value of a path: whether it starts at the root, and its
/// components in order.
pub struct PathModel {
    pub absolute: bool,
    pub parts: Seq<Seq<char>>,
}

pub open spec fn has_no_slash(s: Seq<char>) -> bool {
    forall|i: int| 0 <= i < s.len() ==> s[i] != '/'
}

/// A component is a non-empty name without a separator, and never `.`.
pub open spec fn is_component(s: Seq<char>) -> bool {
    s.len() > 0 && has_no_slash(s) && s != seq!['.']
}

pub open spec fn all_components(parts: Seq<Seq<char>>) -> bool {
    forall|i: int| 0 <= i < parts.len() ==> is_component(#[trigger] parts[i])
}

pub open spec fn part_views(v: Seq<String>) -> Seq<Seq<char>> {
    v.map_values(|s: String| s@)
}

/// A filesystem path held as its components.
#[derive(Clone, Debug, PartialEq, Eq)]
pub struct ImgPath {
    pub absolute: bool,
    pub parts: Vec<String>,
}

impl View for ImgPath {
    type V = PathModel;

    open spec fn view(&self) -> PathModel {
        PathModel { absolute: self.absolute, parts: part_views(self.parts@) }
    }
}

impl ImgPath {
    pub open spec fn wf(&self) -> bool {
        all_components(self@.parts)
    }
}

/// Appends a finished segment to the components, dropping empty and `.` ones.
pub open spec fn close_segment(parts: Seq<Seq<char>>, seg: Seq<char>) -> Seq<Seq<char>> {
    if seg.len() == 0 || seg == seq!['.'] {
        parts
    } else {
        parts.push(seg)
    }
}

/// Reads `s` left to right: the components closed so far and the open segment.
pub open spec fn scan(s: Seq<char>) -> (Seq<Seq<char>>, Seq<char>)
    decreases s.len(),
{
    if s.len() == 0 {
        (Seq::empty(), Seq::empty())
    } else {
        let prev = scan(s.drop_last());
        if s.last() == '/' {
            (close_segment(prev.0, prev.1), Seq::empty())
        } else {
            (prev.0, prev.1.push(s.last()))
        }
    }
}

/// The path that a string denotes: `/`-separated, empty and `.` segments ignored.
pub open spec fn parse_model(s: Seq<char>) -> PathModel {
    PathModel {
        absolute: s.len() > 0 && s[0] == '/',
        parts: close_segment(scan(s).0, scan(s).1),
    }
}

/// The components joined by `/`.
pub open spec fn join(parts: Seq<Seq<char>>) -> Seq<char>
    decreases parts.len(),
{
    if parts.len() == 0 {
        Seq::empty()
    } else if parts.len() == 1 {
        parts[0]
    } else {
        join(parts.drop_last()) + seq!['/'] + parts.last()
    }
}

/// The text of a path: a leading `/` when absolute, then the joined components.
pub open spec fn render(p: PathModel) -> Seq<char> {
    if p.absolute {
        seq!['/'] + join(p.parts)
    } else {
        join(p.parts)
    }
}

proof fn lemma_scan_slash_free(s: Seq<char>)
    ensures
        has_no_slash(scan(s).1),
        all_components(scan(s).0),
    decreases s.len(),
{
    if s.len() > 0 {
        lemma_scan_slash_free(s.drop_last());
        let prev = scan(s.drop_last());
        if s.last() != '/' {
            assert(has_no_slash(prev.1.push(s.last()))) by {
                assert forall|i: int| 0 <= i < prev.1.len() + 1 implies prev.1.push(s.last())[i]
                    != '/' by {
                    if i < prev.1.len() {
                        assert(prev.1.push(s.last())[i] == prev.1[i]);
                    }
                }
            }
        } else {
            let c = close_segment(prev.0, prev.1);
            assert(all_components(c)) by {
                assert forall|i: int| 0 <= i < c.len() implies is_component(#[trigger] c[i]) by {
                    if i < prev.0.len() {
                        assert(c[i] == prev.0[i]);
                    }
                }
            }
        }
    }
}

/// Pushes `s[start..end]` as a component unless it is empty or `.`.
fn push_segment(parts: &mut Vec<String>, s: &str, start: usize, end: usize)
    requires
        start <= end <= s@.len(),
        has_no_slash(s@.subrange(start as int, end as int)),
    ensures
        part_views(final(parts)@) == close_segment(
            part_views(old(parts)@),
            s@.subrange(start as int, end as int),
        ),
{
    let ghost seg = s@.subrange(start as int, end as int);
    if start == end {
        return;
    }
    if end - start == 1 && s.get_char(start) == '.' {
        assert(seg =~= seq!['.']);
        return;
    }
    assert(seg.len() > 0 && seg != seq!['.']) by {
        if seg == seq!['.'] {
            assert(seg[0] == s@[start as int]);
        }
    }
    let piece = s.substring_char(start, end).to_owned();
    parts.push(piece);
    assert(part_views(parts@) =~= part_views(old(parts)@).push(seg));
}

impl ImgPath {
    /// Reads a path from text: a leading `/` makes it absolute, `/` separates
    /// components, and empty or `.` segments are ignored.
    pub fn parse(s: &str) -> (r: ImgPath)
        ensures
            r@ == parse_model(s@),
            r.wf(),
    {
        let n = s.unicode_len();
        let mut parts: Vec<String> = Vec::new();
        let mut start: usize = 0;
        let mut i: usize = 0;
        while i < n
            invariant
                start <= i <= n,
                n == s@.len(),
                scan(s@.subrange(0, i as int)).0 == part_views(parts@),
                scan(s@.subrange(0, i as int)).1 == s@.subrange(start as int, i as int),
            decreases n - i,
        {
            proof {
                lemma_scan_slash_free(s@.subrange(0, i as int));
            }
            let c = s.get_char(i);
            let ghost pre = s@.subrange(0, i as int);
            assert(s@.subrange(0, i + 1).drop_last() =~= pre);
            assert(s@.subrange(0, i + 1).last() == c);
            if c == '/' {
                push_segment(&mut parts, s, start, i);
                start = i + 1;
                assert(s@.subrange(start as int, i + 1) =~= Seq::<char>::empty());
            } else {
                assert(s@.subrange(start as int, i + 1) =~= s@.subrange(start as int, i as int).push(c));
            }
            i = i + 1;
        }
        proof {
            lemma_scan_slash_free(s@.subrange(0, i as int));
            assert(s@.subrange(0, n as int) =~= s@);
        }
        push_segment(&mut parts, s, start, n);
        let absolute = n > 0 && s.get_char(0) == '/';
        let r = ImgPath { absolute, parts };
        proof {
            lemma_scan_slash_free(s@);
            let c = close_segment(scan(s@).0, scan(s@).1);
            assert(all_components(c)) by {
                assert forall|k: int| 0 <= k < c.len() implies is_component(#[trigger] c[k]) by {
                    if k < scan(s@).0.len() {
                        assert(c[k] == scan(s@).0[k]);
                    }
                }
            }
        }
        r
    }
}


/// Position of the last `.` in `s`, or -1 where there is none.
pub open spec fn last_dot(s: Seq<char>) -> int
    decreases s.len(),
{
    if s.len() == 0 {
        -1
    } else if s.last() == '.' {
        s.len() - 1
    } else {
        last_dot(s.drop_last())
    }
}

/// A file name split into stem and extension at its last `.`: `..`, a name
/// without a dot and a name whose only dot leads have no extension.
pub open spec fn split_name(name: Seq<char>) -> (Seq<char>, Option<Seq<char>>) {
    let d = last_dot(name);
    if name == seq!['.', '.'] || d <= 0 {
        (name, None)
    } else {
        (name.subrange(0, d), Some(name.subrange(d + 1, name.len() as int)))
    }
}

/// The final component, unless the path has none or it is `..`.
pub open spec fn file_name_of(p: PathModel) -> Option<Seq<char>> {
    if p.parts.len() > 0 && p.parts.last() != seq!['.', '.'] {
        Some(p.parts.last())
    } else {
        None
    }
}

pub open spec fn stem_of(p: PathModel) -> Option<Seq<char>> {
    match file_name_of(p) {
        Some(n) => Some(split_name(n).0),
        None => None,
    }
}

pub open spec fn extension_of(p: PathModel) -> Option<Seq<char>> {
    match file_name_of(p) {
        Some(n) => split_name(n).1,
        None => None,
    }
}

/// The path without its final component, where it has one.
pub open spec fn parent_of(p: PathModel) -> Option<PathModel> {
    if p.parts.len() > 0 {
        Some(PathModel { absolute: p.absolute, parts: p.parts.drop_last() })
    } else {
        None
    }
}

/// The components of `p` after `base`, where `base` is a leading part of `p`.
pub open spec fn strip_prefix_of(p: PathModel, base: PathModel) -> Option<Seq<Seq<char>>> {
    if p.absolute == base.absolute && base.parts.len() <= p.parts.len() && p.parts.subrange(
        0,
        base.parts.len() as int,
    ) == base.parts {
        Some(p.parts.subrange(base.parts.len() as int, p.parts.len() as int))
    } else {
        None
    }
}

pub proof fn lemma_last_dot_range(s: Seq<char>)
    ensures
        -1 <= last_dot(s) < s.len(),
        last_dot(s) >= 0 ==> s[last_dot(s)] == '.',
        forall|i: int| last_dot(s) < i < s.len() ==> s[i] != '.',
    decreases s.len(),
{
    if s.len() > 0 {
        lemma_last_dot_range(s.drop_last());
        if s.last() != '.' {
            assert forall|i: int| last_dot(s) < i < s.len() implies s[i] != '.' by {
                if i < s.len() - 1 {
                    assert(s[i] == s.drop_last()[i]);
                }
            }
        }
    }
}

/// Finds the last `.` of `s`, as `last_dot` gives it.
pub fn find_last_dot(s: &str) -> (r: Option<usize>)
    ensures
        match r {
            Some(d) => d as int == last_dot(s@),
            None => last_dot(s@) == -1,
        },
{
    let n = s.unicode_len();
    let mut i: usize = n;
    assert(s@.subrange(0, n as int) =~= s@);
    while i > 0
        invariant
            i <= n == s@.len(),
            last_dot(s@) == last_dot(s@.subrange(0, i as int)),
        decreases i,
    {
        let c = s.get_char(i - 1);
        assert(s@.subrange(0, i as int).drop_last() =~= s@.subrange(0, i - 1));
        if c == '.' {
            return Some(i - 1);
        }
        i = i - 1;
    }
    None
}

/// Tells whether `s` is `..`.
pub fn is_dot_dot(s: &str) -> (r: bool)
    ensures
        r == (s@ == seq!['.', '.']),
{
    let n = s.unicode_len();
    if n != 2 {
        return false;
    }
    let r = s.get_char(0) == '.' && s.get_char(1) == '.';
    assert(r ==> s@ =~= seq!['.', '.']);
    r
}

/// Tells whether two component lists are equal.
fn same_parts(a: &Vec<String>, b: &Vec<String>) -> (r: bool)
    ensures
        r == (part_views(a@) == part_views(b@)),
{
    if a.len() != b.len() {
        assert(part_views(a@).len() != part_views(b@).len());
        return false;
    }
    let mut i: usize = 0;
    while i < a.len()
        invariant
            i <= a.len() == b.len(),
            forall|k: int| 0 <= k < i ==> a@[k]@ == b@[k]@,
        decreases a.len() - i,
    {
        if a[i] != b[i] {
            assert(part_views(a@)[i as int] != part_views(b@)[i as int]);
            return false;
        }
        i = i + 1;
    }
    assert(part_views(a@) =~= part_views(b@));
    true
}

proof fn lemma_scan_segment(prefix: Seq<char>, seg: Seq<char>)
    requires
        scan(prefix).1 == Seq::<char>::empty(),
        has_no_slash(seg),
    ensures
        scan(prefix + seg) == (scan(prefix).0, seg),
    decreases seg.len(),
{
    if seg.len() == 0 {
        assert(prefix + seg =~= prefix);
    } else {
        lemma_scan_segment(prefix, seg.drop_last());
        assert((prefix + seg).drop_last() =~= prefix + seg.drop_last());
        assert((prefix + seg).last() == seg.last());
        assert(seg.drop_last().push(seg.last()) =~= seg);
    }
}

proof fn lemma_scan_join(lead: Seq<char>, parts: Seq<Seq<char>>)
    requires
        scan(lead) == (Seq::<Seq<char>>::empty(), Seq::<char>::empty()),
        parts.len() > 0,
        all_components(parts),
    ensures
        scan(lead + join(parts)) == (parts.drop_last(), parts.last()),
    decreases parts.len(),
{
    if parts.len() == 1 {
        lemma_scan_segment(lead, parts[0]);
        assert(parts.drop_last() =~= Seq::<Seq<char>>::empty());
    } else {
        let dl = parts.drop_last();
        assert(all_components(dl)) by {
            assert forall|i: int| 0 <= i < dl.len() implies is_component(#[trigger] dl[i]) by {
                assert(dl[i] == parts[i]);
            }
        }
        lemma_scan_join(lead, dl);
        let x = lead + join(dl);
        assert((x + seq!['/']).drop_last() =~= x);
        assert(is_component(dl[dl.len() - 1]));
        assert(dl.drop_last().push(dl.last()) =~= dl);
        assert(is_component(parts[parts.len() - 1]));
        lemma_scan_segment(x + seq!['/'], parts.last());
        assert(lead + join(parts) =~= x + seq!['/'] + parts.last());
    }
}

proof fn lemma_join_first(parts: Seq<Seq<char>>)
    requires
        parts.len() > 0,
        all_components(parts),
    ensures
        join(parts).len() > 0,
        join(parts)[0] == parts[0][0],
    decreases parts.len(),
{
    if parts.len() > 1 {
        let dl = parts.drop_last();
        assert(all_components(dl)) by {
            assert forall|i: int| 0 <= i < dl.len() implies is_component(#[trigger] dl[i]) by {
                assert(dl[i] == parts[i]);
            }
        }
        lemma_join_first(dl);
        assert(is_component(parts[0]));
    } else {
        assert(is_component(parts[0]));
    }
}

/// Writing a well-formed path as text and reading the text back gives the
/// same path.
pub proof fn lemma_parse_render(p: PathModel)
    requires
        all_components(p.parts),
    ensures
        parse_model(render(p)) == p,
{
    let lead: Seq<char> = if p.absolute {
        seq!['/']
    } else {
        Seq::empty()
    };
    let none: Seq<char> = Seq::empty();
    assert(seq!['/'].drop_last() =~= none);
    assert(seq!['/'].last() == '/');
    assert(scan(none) == (Seq::<Seq<char>>::empty(), none));
    assert(scan(lead) == (Seq::<Seq<char>>::empty(), none));
    assert(render(p) =~= lead + join(p.parts));
    if p.parts.len() == 0 {
        assert(lead + join(p.parts) =~= lead);
        assert(p.parts =~= Seq::<Seq<char>>::empty());
    } else {
        lemma_scan_join(lead, p.parts);
        lemma_join_first(p.parts);
        assert(is_component(p.parts[p.parts.len() - 1]));
        assert(p.parts.drop_last().push(p.parts.last()) =~= p.parts);
        if !p.absolute {
            assert(is_component(p.parts[0]));
            assert(render(p)[0] == p.parts[0][0]);
        }
    }
}

/// A copy of the components `v[from..to]`.
pub fn copy_parts(v: &Vec<String>, from: usize, to: usize) -> (r: Vec<String>)
    requires
        from <= to <= v@.len(),
    ensures
        part_views(r@) == part_views(v@).subrange(from as int, to as int),
{
    let mut rest: Vec<String> = Vec::new();
    let mut j: usize = from;
    while j < to
        invariant
            from <= j <= to <= v@.len(),
            part_views(rest@) =~= part_views(v@).subrange(from as int, j as int),
        decreases to - j,
    {
        let ghost old_rest = rest@;
        let piece = v[j].clone();
        rest.push(piece);
        assert(part_views(rest@) =~= part_views(old_rest).push(part_views(v@)[j as int]));
        j = j + 1;
    }
    rest
}

impl ImgPath {
    /// An independent copy of the path.
    pub fn duplicate(&self) -> (r: ImgPath)
        ensures
            r@ == self@,
            r.wf() == self.wf(),
    {
        let r = ImgPath { absolute: self.absolute, parts: copy_parts(&self.parts, 0, self.parts.len()) };
        assert(part_views(self.parts@).subrange(0, self.parts@.len() as int) =~= part_views(self.parts@));
        r
    }

    /// Tells whether two paths have the same value.
    pub fn same_as(&self, other: &ImgPath) -> (r: bool)
        ensures
            r == (self@ == other@),
    {
        self.absolute == other.absolute && same_parts(&self.parts, &other.parts)
    }

    /// The text of the path.
    pub fn to_path_string(&self) -> (r: String)
        ensures
            r@ == render(self@),
    {
        let mut out = String::new();
        proof {
            reveal_strlit("/");
        }
        if self.absolute {
            out.append("/");
        }
        let ghost lead = out@;
        let mut i: usize = 0;
        while i < self.parts.len()
            invariant
                i <= self.parts.len(),
                out@ == lead + join(part_views(self.parts@).subrange(0, i as int)),
            decreases self.parts.len() - i,
        {
            let ghost pv = part_views(self.parts@);
            assert(pv.subrange(0, i + 1).drop_last() =~= pv.subrange(0, i as int));
            if i > 0 {
                out.append("/");
            } else {
                assert(join(pv.subrange(0, 1)) == pv[0]);
            }
            let ghost before = out@;
            out.append(self.parts[i].as_str());
            proof {
                reveal_strlit("/");
                assert("/"@ =~= seq!['/']);
                assert(self.parts@[i as int]@ == pv[i as int]);
                if i > 0 {
                    assert(join(pv.subrange(0, i + 1)) == join(pv.subrange(0, i as int)) + seq!['/']
                        + pv[i as int]);
                }
                assert(out@ =~= lead + join(pv.subrange(0, i + 1)));
            }
            i = i + 1;
        }
        assert(part_views(self.parts@).subrange(0, i as int) =~= part_views(self.parts@));
        out
    }

    /// The components after `base`, where `base` is a leading part of this path.
    pub fn strip_prefix(&self, base: &ImgPath) -> (r: Option<Vec<String>>)
        ensures
            match r {
                Some(v) => strip_prefix_of(self@, base@) == Some(part_views(v@)),
                None => strip_prefix_of(self@, base@) is None,
            },
    {
        if self.absolute != base.absolute || base.parts.len() > self.parts.len() {
            return None;
        }
        let m = base.parts.len();
        let mut i: usize = 0;
        while i < m
            invariant
                i <= m == base.parts.len() <= self.parts.len(),
                forall|k: int| 0 <= k < i ==> self.parts@[k]@ == base.parts@[k]@,
            decreases m - i,
        {
            if self.parts[i] != base.parts[i] {
                assert(part_views(self.parts@).subrange(0, m as int)[i as int] != part_views(
                    base.parts@,
                )[i as int]);
                return None;
            }
            i = i + 1;
        }
        assert(part_views(self.parts@).subrange(0, m as int) =~= part_views(base.parts@));
        Some(copy_parts(&self.parts, m, self.parts.len()))
    }
}

} // verus!
