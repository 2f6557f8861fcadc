//! Paths of the virtual filesystem: `/mount_point/resource/location?query`.
use vstd::prelude::*;
use crate::text::{chars_of, string_of};

verus! {

/// Character to separate path segments.
pub const PATH_SEPARATOR: char = '/';

/// Character that separates the path from the query.
pub const QUERY_CHARACTER: char = '?';

/// Index of the first `c` in `s` at or after `from`.
pub open spec fn find_from(s: Seq<char>, c: char, from: int) -> Option<int>
    decreases s.len() - from,
{
    if from < 0 || from >= s.len() {
        None
    } else if s[from] == c {
        Some(from)
    } else {
        find_from(s, c, from + 1)
    }
}

/// Where the mount point of `s` ends (the second separator).
pub open spec fn mount_point_end(s: Seq<char>) -> Option<int> {
    find_from(s, PATH_SEPARATOR, 1)
}

/// Whether `s` starts with a separator and holds a second one, so that a mount point can be cut.
pub open spec fn has_mount_point(s: Seq<char>) -> bool {
    s.len() > 0 && s[0] == PATH_SEPARATOR && mount_point_end(s) is Some
}

/// Start and end of the resource location of `s`, before a trailing separator is removed.
pub open spec fn raw_path_range(s: Seq<char>) -> (int, int) {
    let start = mount_point_end(s)->0 + 1;
    match find_from(s, QUERY_CHARACTER, 0) {
        Some(q) => (start, q),
        None => (start, s.len() as int),
    }
}

/// Parsing `s` panics: it has a mount point but its resource location is empty (or the
/// query character stands inside the mount point).
pub open spec fn parse_panics(s: Seq<char>) -> bool {
    has_mount_point(s) && !(raw_path_range(s).0 < raw_path_range(s).1)
}

#[derive(Copy, Clone, Debug, PartialEq, Eq, Structural, Hash)]
pub enum ParseError {
    InvalidMountPoint,
}

/// Abstract value of a [`Path`]: its characters and the character ranges of its parts.
pub struct PathView {
    pub chars: Seq<char>,
    pub mount_point: Option<(int, int)>,
    pub path: (int, int),
    pub query: Option<(int, int)>,
}

impl PathView {
    pub open spec fn wf(self) -> bool {
        &&& 0 <= self.path.0 <= self.path.1 <= self.chars.len()
        &&& match self.mount_point {
            Some((s, e)) => 1 <= s <= e < self.path.0,
            None => true,
        }
        &&& match self.query {
            Some((s, e)) => self.path.1 + 1 <= s <= e <= self.chars.len(),
            None => true,
        }
    }

    pub open spec fn path_str(self) -> Seq<char> {
        self.chars.subrange(self.path.0, self.path.1)
    }

    pub open spec fn mount_point_str(self) -> Option<Seq<char>> {
        match self.mount_point {
            Some((s, e)) => Some(self.chars.subrange(s, e)),
            None => None,
        }
    }

    pub open spec fn query_str(self) -> Option<Seq<char>> {
        match self.query {
            Some((s, e)) => Some(self.chars.subrange(s, e)),
            None => None,
        }
    }
}

/// The result of parsing `s`, for an `s` on which parsing does not panic.
pub open spec fn spec_parse(s: Seq<char>) -> Result<PathView, ParseError> {
    if !has_mount_point(s) {
        Err(ParseError::InvalidMountPoint)
    } else {
        let me = mount_point_end(s)->0;
        let (ps, pe) = raw_path_range(s);
        let trailing = s[pe - 1] == PATH_SEPARATOR;
        Ok(PathView {
            chars: if trailing { s.remove(pe - 1) } else { s },
            mount_point: if me == 1 { None } else { Some((1, me)) },
            path: if trailing { (ps, pe - 1) } else { (ps, pe) },
            query: match find_from(s, QUERY_CHARACTER, 0) {
                Some(q) => if trailing { Some((q, s.len() - 1)) } else { Some((q + 1, s.len() as int)) },
                None => None,
            },
        })
    }
}

/// The component that `push` inserts: `other`, with a separator in front unless it has one.
pub open spec fn pushed_component(other: Seq<char>) -> Seq<char> {
    if other.len() > 0 && other[0] == PATH_SEPARATOR {
        other
    } else {
        seq![PATH_SEPARATOR] + other
    }
}

/// The path after `push(other)`.
pub open spec fn spec_push(p: PathView, other: Seq<char>) -> PathView {
    let c = pushed_component(other);
    PathView {
        chars: p.chars.subrange(0, p.path.1) + c + p.chars.subrange(p.path.1, p.chars.len() as int),
        mount_point: p.mount_point,
        path: (p.path.0, p.path.1 + c.len()),
        query: match p.query {
            Some((s, e)) => Some((s + c.len(), e + c.len())),
            None => None,
        },
    }
}

/// The path after `set_path(new)`.
pub open spec fn spec_set_path(p: PathView, new: Seq<char>) -> PathView {
    let end = p.path.0 + new.len();
    PathView {
        chars: p.chars.subrange(0, p.path.0) + new + p.chars.subrange(p.path.1, p.chars.len() as int),
        mount_point: p.mount_point,
        path: (p.path.0, end),
        query: match p.query {
            Some((s, e)) => Some((end + 1, end + 1 + (e - s))),
            None => None,
        },
    }
}

/// A parsed path has no mount point exactly when its text starts with `//`.
pub proof fn lemma_no_mount_point_iff_double_separator(s: Seq<char>)
    requires
        !parse_panics(s),
        spec_parse(s) is Ok,
    ensures
        (spec_parse(s)->Ok_0.mount_point is None) <==> {
            let chars = spec_parse(s)->Ok_0.chars;
            chars.len() >= 2 && chars[0] == PATH_SEPARATOR && chars[1] == PATH_SEPARATOR
        },
{
    lemma_find_from_in_range(s, PATH_SEPARATOR, 1);
    lemma_find_from_in_range(s, QUERY_CHARACTER, 0);
    let me = mount_point_end(s)->0;
    let (ps, pe) = raw_path_range(s);
    let v = spec_parse(s)->Ok_0;
    assert(me + 1 < pe);
    if s[pe - 1] == PATH_SEPARATOR {
        assert(v.chars[0] == s[0]);
        assert(v.chars[1] == s[1]);
    }
    if me != 1 {
        assert(s[1] != PATH_SEPARATOR);
    }
}

/// Pushing a component or replacing the resource location keeps the mount point.
pub proof fn lemma_edits_keep_mount_point(v: PathView, other: Seq<char>)
    requires
        v.wf(),
    ensures
        spec_push(v, other).mount_point_str() == v.mount_point_str(),
        spec_set_path(v, other).mount_point_str() == v.mount_point_str(),
{
    match v.mount_point {
        Some((s, e)) => {
            let pushed = spec_push(v, other);
            let set = spec_set_path(v, other);
            assert(pushed.chars.subrange(s, e) =~= v.chars.subrange(s, e));
            assert(set.chars.subrange(s, e) =~= v.chars.subrange(s, e));
        },
        None => {},
    }
}

/// An edit of a path: a component pushed onto its resource location, or a new
/// resource location.
pub enum PathEdit {
    Push(Seq<char>),
    SetPath(Seq<char>),
}

/// The path after `edits`, applied in order.
pub open spec fn apply_edits(v: PathView, edits: Seq<PathEdit>) -> PathView
    decreases edits.len(),
{
    if edits.len() == 0 {
        v
    } else {
        let before = apply_edits(v, edits.drop_last());
        match edits.last() {
            PathEdit::Push(other) => spec_push(before, other),
            PathEdit::SetPath(new) => spec_set_path(before, new),
        }
    }
}

/// The text an edit brings in holds no query character.
pub open spec fn edit_without_query(e: PathEdit) -> bool {
    match e {
        PathEdit::Push(other) => !other.contains(QUERY_CHARACTER),
        PathEdit::SetPath(new) => !new.contains(QUERY_CHARACTER),
    }
}

/// The mount point's text, empty when there is none.
pub open spec fn mount_text(v: PathView) -> Seq<char> {
    match v.mount_point_str() {
        Some(m) => m,
        None => Seq::empty(),
    }
}

/// The query with its `?` in front, empty when there is no query.
pub open spec fn query_text(v: PathView) -> Seq<char> {
    match v.query_str() {
        Some(q) => seq![QUERY_CHARACTER] + q,
        None => Seq::empty(),
    }
}

/// The layout of a path: `/`, the mount point, `/`, the resource location (without a
/// query character), then `?` and the query when there is one.
pub open spec fn laid_out(v: PathView) -> bool {
    &&& v.wf()
    &&& v.chars.len() > 0
    &&& v.chars[0] == PATH_SEPARATOR
    &&& match v.mount_point {
        Some((s, e)) => s == 1 && v.path.0 == e + 1 && v.chars[e] == PATH_SEPARATOR,
        None => v.path.0 == 2 && v.chars[1] == PATH_SEPARATOR,
    }
    &&& forall|i: int| v.path.0 <= i < v.path.1 ==> #[trigger] v.chars[i] != QUERY_CHARACTER
    &&& match v.query {
        Some((s, e)) => s == v.path.1 + 1 && e == v.chars.len() && v.chars[v.path.1] == QUERY_CHARACTER,
        None => v.path.1 == v.chars.len(),
    }
}

/// A laid-out path is its parts put together.
pub proof fn lemma_laid_out_text(v: PathView)
    requires
        laid_out(v),
    ensures
        v.chars == seq![PATH_SEPARATOR] + mount_text(v) + seq![PATH_SEPARATOR] + v.path_str() + query_text(v),
        !v.path_str().contains(QUERY_CHARACTER),
{
    let whole = seq![PATH_SEPARATOR] + mount_text(v) + seq![PATH_SEPARATOR] + v.path_str() + query_text(v);
    assert(whole.len() == v.chars.len());
    assert forall|i: int| 0 <= i < v.chars.len() implies whole[i] == v.chars[i] by {
        let m = mount_text(v).len() as int;
        if i == 0 {
        } else if i <= m {
            assert(whole[i] == mount_text(v)[i - 1]);
        } else if i == m + 1 {
        } else if i < v.path.1 {
            assert(whole[i] == v.path_str()[i - m - 2]);
        } else if i == v.path.1 {
        } else {
            assert(whole[i] == query_text(v)[i - v.path.1]);
        }
    }
    assert(v.chars =~= whole);
    assert(!v.path_str().contains(QUERY_CHARACTER)) by {
        if v.path_str().contains(QUERY_CHARACTER) {
            let k = choose|k: int| 0 <= k < v.path_str().len() && v.path_str()[k] == QUERY_CHARACTER;
            assert(v.chars[v.path.0 + k] == QUERY_CHARACTER);
        }
    }
}

/// No `c` stands before the index that `find_from` gives.
proof fn lemma_find_from_first(s: Seq<char>, c: char, from: int)
    requires
        from >= 0,
    ensures
        find_from(s, c, from) matches Some(i) ==> forall|j: int| from <= j < i ==> s[j] != c,
    decreases s.len() - from,
{
    if from >= 0 && from < s.len() && s[from] != c {
        lemma_find_from_first(s, c, from + 1);
    }
}

/// Every path that parsing gives is laid out, and its query is the text after the first
/// query character.
pub proof fn lemma_parse_laid_out(s: Seq<char>)
    requires
        !parse_panics(s),
        spec_parse(s) is Ok,
    ensures
        laid_out(spec_parse(s)->Ok_0),
        spec_parse(s)->Ok_0.query_str() == match find_from(s, QUERY_CHARACTER, 0) {
            Some(q) => Some(s.subrange(q + 1, s.len() as int)),
            None => None,
        },
{
    lemma_find_from_in_range(s, PATH_SEPARATOR, 1);
    lemma_find_from_in_range(s, QUERY_CHARACTER, 0);
    lemma_find_from_first(s, QUERY_CHARACTER, 0);
    let v = spec_parse(s)->Ok_0;
    let me = mount_point_end(s)->0;
    let (ps, pe) = raw_path_range(s);
    assert forall|i: int| 0 <= i < pe implies s[i] != QUERY_CHARACTER by {}
    if s[pe - 1] == PATH_SEPARATOR {
        assert forall|i: int| v.path.0 <= i < v.path.1 implies #[trigger] v.chars[i] != QUERY_CHARACTER by {
            assert(v.chars[i] == s[i]);
        }
        assert(v.chars[me] == s[me]);
        assert(v.chars[0] == s[0]);
        if me == 1 {
            assert(v.chars[1] == s[1]);
        }
        if v.query is Some {
            assert(v.chars[v.path.1] == s[pe]);
            assert(v.chars.subrange(pe, s.len() - 1) =~= s.subrange(pe + 1, s.len() as int));
        }
    }
}

/// One edit without a query character keeps the layout, the mount point and the query.
proof fn lemma_edit_keeps_layout(v: PathView, e: PathEdit)
    requires
        laid_out(v),
        edit_without_query(e),
    ensures
        laid_out(match e {
            PathEdit::Push(other) => spec_push(v, other),
            PathEdit::SetPath(new) => spec_set_path(v, new),
        }),
        (match e {
            PathEdit::Push(other) => spec_push(v, other),
            PathEdit::SetPath(new) => spec_set_path(v, new),
        }).mount_point_str() == v.mount_point_str(),
        (match e {
            PathEdit::Push(other) => spec_push(v, other),
            PathEdit::SetPath(new) => spec_set_path(v, new),
        }).query_str() == v.query_str(),
{
    match e {
        PathEdit::Push(other) => {
            lemma_edits_keep_mount_point(v, other);
            let c = pushed_component(other);
            let w = spec_push(v, other);
            assert(!c.contains(QUERY_CHARACTER)) by {
                if c.contains(QUERY_CHARACTER) {
                    let k = choose|k: int| 0 <= k < c.len() && c[k] == QUERY_CHARACTER;
                    if other.len() > 0 && other[0] == PATH_SEPARATOR {
                        assert(other[k] == QUERY_CHARACTER);
                    } else {
                        assert(k > 0);
                        assert(other[k - 1] == QUERY_CHARACTER);
                    }
                }
            }
            assert forall|i: int| 0 <= i < v.path.1 implies #[trigger] w.chars[i] == v.chars[i] by {}
            assert forall|i: int| v.path.1 <= i < w.chars.len() - c.len() implies #[trigger] w.chars[i + c.len()] == v.chars[i] by {}
            assert forall|i: int| w.path.0 <= i < w.path.1 implies #[trigger] w.chars[i] != QUERY_CHARACTER by {
                if i >= v.path.1 {
                    assert(w.chars[i] == c[i - v.path.1]);
                }
            }
            if let Some((qs, qe)) = v.query {
                assert(w.chars[w.path.1] == v.chars[v.path.1]);
                assert(w.chars.subrange(qs + c.len(), qe + c.len()) =~= v.chars.subrange(qs, qe));
            }
            assert(w.chars[0] == v.chars[0]);
            if v.mount_point is None {
                assert(w.chars[1] == v.chars[1]);
            }
        },
        PathEdit::SetPath(new) => {
            lemma_edits_keep_mount_point(v, new);
            let w = spec_set_path(v, new);
            assert forall|i: int| 0 <= i < v.path.0 implies #[trigger] w.chars[i] == v.chars[i] by {}
            assert forall|i: int| w.path.0 <= i < w.path.1 implies #[trigger] w.chars[i] != QUERY_CHARACTER by {
                assert(w.chars[i] == new[i - v.path.0]);
                assert(new.contains(new[i - v.path.0]));
            }
            if let Some((qs, qe)) = v.query {
                assert(w.chars[w.path.1] == v.chars[v.path.1]);
                assert(w.chars.subrange(w.path.1 + 1, w.path.1 + 1 + (qe - qs)) =~= v.chars.subrange(qs, qe));
            }
            assert(w.chars[0] == v.chars[0]);
            if v.mount_point is None {
                assert(w.chars[1] == v.chars[1]);
            }
        },
    }
}

/// Any sequence of pushes and new resource locations without a query character keeps a
/// path laid out, its mount point and its query.
pub proof fn lemma_edits_keep_layout(v: PathView, edits: Seq<PathEdit>)
    requires
        laid_out(v),
        forall|k: int| 0 <= k < edits.len() ==> edit_without_query(#[trigger] edits[k]),
    ensures
        laid_out(apply_edits(v, edits)),
        apply_edits(v, edits).mount_point_str() == v.mount_point_str(),
        apply_edits(v, edits).query_str() == v.query_str(),
    decreases edits.len(),
{
    if edits.len() > 0 {
        let rest = edits.drop_last();
        assert forall|k: int| 0 <= k < rest.len() implies edit_without_query(#[trigger] rest[k]) by {
            assert(rest[k] == edits[k]);
        }
        lemma_edits_keep_layout(v, rest);
        lemma_edit_keeps_layout(apply_edits(v, rest), edits.last());
    }
}

/// `s` cut at every `sep`.
pub open spec fn split_seq(s: Seq<char>, sep: char) -> Seq<Seq<char>>
    decreases s.len(),
{
    match find_from(s, sep, 0) {
        Some(i) => {
            proof {
                lemma_find_from_in_range(s, sep, 0);
            }
            seq![s.subrange(0, i)] + split_seq(s.subrange(i + 1, s.len() as int), sep)
        },
        None => seq![s],
    }
}

/// Index of the first `c` in `s` at or after `from`.
fn find_char(s: &Vec<char>, c: char, from: usize) -> (res: Option<usize>)
    ensures
        match res {
            Some(i) => find_from(s@, c, from as int) == Some(i as int),
            None => find_from(s@, c, from as int) is None,
        },
{
    let mut i = from;
    while i < s.len()
        invariant
            from <= i,
            find_from(s@, c, from as int) == find_from(s@, c, i as int),
        decreases s.len() - i,
    {
        if s[i] == c {
            return Some(i);
        }
        i = i + 1;
    }
    None
}

/// Characters `s[start..end]`.
fn sub_chars(s: &Vec<char>, start: usize, end: usize) -> (res: Vec<char>)
    requires
        start <= end <= s.len(),
    ensures
        res@ == s@.subrange(start as int, end as int),
{
    let mut res: Vec<char> = Vec::new();
    let mut i = start;
    while i < end
        invariant
            start <= i <= end <= s.len(),
            res@ == s@.subrange(start as int, i as int),
        decreases end - i,
    {
        res.push(s[i]);
        i = i + 1;
    }
    res
}

/// `a` followed by `b`.
fn concat_chars(a: Vec<char>, b: &Vec<char>) -> (res: Vec<char>)
    requires
        a.len() + b.len() <= usize::MAX,
    ensures
        res@ == a@ + b@,
{
    let mut res = a;
    let ghost a0 = res@;
    let mut i: usize = 0;
    while i < b.len()
        invariant
            i <= b.len(),
            a0.len() + b.len() <= usize::MAX,
            res@ == a0 + b@.subrange(0, i as int),
        decreases b.len() - i,
    {
        res.push(b[i]);
        i = i + 1;
        assert(b@.subrange(0, i as int) == b@.subrange(0, i - 1).push(b@[i - 1]));
    }
    assert(b@.subrange(0, b.len() as int) =~= b@);
    res
}

/// A range of character positions.
#[derive(Copy, Clone, Debug, PartialEq, Eq, Structural, Hash)]
pub struct CharRange {
    pub start: usize,
    pub end: usize,
}

/// A UTF-8 path made of three parts:
/// - a mount point (`/mount_point/`, empty in `//`),
/// - a resource location,
/// - an optional query, after `?`.
///
/// Positions are counted in characters.
#[derive(Clone, Debug, PartialEq, Eq, Hash)]
pub struct Path {
    chars: Vec<char>,
    mount_point: Option<CharRange>,
    path: CharRange,
    query: Option<CharRange>,
}

impl Path {
    pub closed spec fn view(&self) -> PathView {
        PathView {
            chars: self.chars@,
            mount_point: match self.mount_point {
                Some(r) => Some((r.start as int, r.end as int)),
                None => None,
            },
            path: (self.path.start as int, self.path.end as int),
            query: match self.query {
                Some(r) => Some((r.start as int, r.end as int)),
                None => None,
            },
        }
    }

    pub closed spec fn wf(&self) -> bool {
        self.view().wf()
    }

    /// Parse `str`: it must start with `/` and hold a second `/` that ends the mount point.
    /// A trailing `/` of the resource location is removed.
    pub fn parse(str: &str) -> (res: Result<Path, ParseError>)
        requires
            !parse_panics(str@),
        ensures
            match res {
                Ok(p) => p.wf() && spec_parse(str@) == Ok::<PathView, ParseError>(p.view()),
                Err(e) => spec_parse(str@) == Err::<PathView, ParseError>(e),
            },
    {
        let s = chars_of(str);
        Self::parse_chars(s)
    }

    /// Whether parsing `str` would panic (see [`parse_panics`]), which callers check
    /// before they parse text they do not control.
    pub fn parse_would_panic(str: &str) -> (res: bool)
        ensures
            res == parse_panics(str@),
    {
        let s = chars_of(str);
        if s.len() == 0 || s[0] != PATH_SEPARATOR {
            return false;
        }
        let me = match find_char(&s, PATH_SEPARATOR, 1) {
            Some(i) => i,
            None => { return false; },
        };
        let pe = match find_char(&s, QUERY_CHARACTER, 0) {
            Some(qi) => qi,
            None => s.len(),
        };
        proof { lemma_find_from_in_range(s@, PATH_SEPARATOR, 1); }
        !(me < pe && me + 1 < pe)
    }

    fn parse_chars(s: Vec<char>) -> (res: Result<Path, ParseError>)
        requires
            !parse_panics(s@),
        ensures
            match res {
                Ok(p) => p.wf() && spec_parse(s@) == Ok::<PathView, ParseError>(p.view()),
                Err(e) => spec_parse(s@) == Err::<PathView, ParseError>(e),
            },
    {
        if s.len() == 0 || s[0] != PATH_SEPARATOR {
            return Err(ParseError::InvalidMountPoint);
        }
        let me = match find_char(&s, PATH_SEPARATOR, 1) {
            Some(i) => i,
            None => { return Err(ParseError::InvalidMountPoint); },
        };
        let q = find_char(&s, QUERY_CHARACTER, 0);
        let ghost orig = s@;
        let n = s.len();
        let ps = me + 1;
        let mut pe = match q {
            Some(qi) => qi,
            None => s.len(),
        };
        proof {
            if let Some(qi) = q {
                lemma_find_from_in_range(s@, QUERY_CHARACTER, 0);
            }
        }
        let mut chars = s;
        let trailing = chars[pe - 1] == PATH_SEPARATOR;
        if trailing {
            chars.remove(pe - 1);
            pe = pe - 1;
        }
        let query = match q {
            Some(qi) => if trailing {
                Some(CharRange { start: qi, end: n - 1 })
            } else {
                Some(CharRange { start: qi + 1, end: n })
            },
            None => None,
        };
        let p = Path {
            chars,
            mount_point: if me == 1 { None } else { Some(CharRange { start: 1, end: me }) },
            path: CharRange { start: ps, end: pe },
            query,
        };
        proof {
            lemma_find_from_in_range(orig, PATH_SEPARATOR, 1);
        }
        Ok(p)
    }

    /// The path `/mount_point/path`.
    pub fn from_mount_point_and_path(mount_point: &str, path: &str) -> (res: Path)
        requires
            spec_parse(seq![PATH_SEPARATOR] + mount_point@ + seq![PATH_SEPARATOR] + path@) is Ok,
            !parse_panics(seq![PATH_SEPARATOR] + mount_point@ + seq![PATH_SEPARATOR] + path@),
            mount_point@.len() + path@.len() + 2 <= usize::MAX,
        ensures
            res.wf(),
            spec_parse(seq![PATH_SEPARATOR] + mount_point@ + seq![PATH_SEPARATOR] + path@)
                == Ok::<PathView, ParseError>(res.view()),
    {
        let mut s: Vec<char> = Vec::new();
        s.push(PATH_SEPARATOR);
        let s = concat_chars(s, &chars_of(mount_point));
        let mut s = s;
        s.push(PATH_SEPARATOR);
        let s = concat_chars(s, &chars_of(path));
        assert(s@ =~= seq![PATH_SEPARATOR] + mount_point@ + seq![PATH_SEPARATOR] + path@);
        match Self::parse_chars(s) {
            Ok(p) => p,
            Err(_) => {
                proof { assert(false); }
                Path { chars: Vec::new(), mount_point: None, path: CharRange { start: 0, end: 0 }, query: None }
            }
        }
    }

    fn duplicate(&self) -> (res: Path)
        ensures
            res.view() == self.view(),
    {
        let n = self.chars.len();
        let chars = sub_chars(&self.chars, 0, n);
        assert(chars@ =~= self.chars@);
        Path {
            chars,
            mount_point: self.mount_point,
            path: self.path,
            query: self.query,
        }
    }

    /// Extend the resource location with a new component, separated by `/`.
    pub fn push(&mut self, other: &str)
        requires
            old(self).wf(),
            old(self).view().chars.len() + other@.len() + 2 <= usize::MAX,
        ensures
            final(self).wf(),
            final(self).view() == spec_push(old(self).view(), other@),
    {
        let ghost v = self.view();
        let o = chars_of(other);
        let comp = if o.len() > 0 && o[0] == PATH_SEPARATOR {
            o
        } else {
            let mut c: Vec<char> = Vec::new();
            c.push(PATH_SEPARATOR);
            concat_chars(c, &o)
        };
        assert(comp@ =~= pushed_component(other@));
        let head = sub_chars(&self.chars, 0, self.path.end);
        let tail = sub_chars(&self.chars, self.path.end, self.chars.len());
        let with = concat_chars(head, &comp);
        let chars = concat_chars(with, &tail);
        let n = comp.len();
        self.chars = chars;
        self.path = CharRange { start: self.path.start, end: self.path.end + n };
        self.query = match self.query {
            Some(r) => Some(CharRange { start: r.start + n, end: r.end + n }),
            None => None,
        };
        assert(self.view().chars =~= spec_push(v, other@).chars);
    }

    /// Like `push`, but returns a new path.
    pub fn join(&self, other: &str) -> (res: Path)
        requires
            self.wf(),
            self.view().chars.len() + other@.len() + 2 <= usize::MAX,
        ensures
            res.wf(),
            res.view() == spec_push(self.view(), other@),
    {
        let mut p = self.duplicate();
        p.push(other);
        p
    }

    /// Replace the resource location.
    pub fn set_path(&mut self, new: &str)
        requires
            old(self).wf(),
            old(self).view().chars.len() + new@.len() + 2 <= usize::MAX,
        ensures
            final(self).wf(),
            final(self).view() == spec_set_path(old(self).view(), new@),
    {
        let ghost v = self.view();
        let n = chars_of(new);
        let head = sub_chars(&self.chars, 0, self.path.start);
        let tail = sub_chars(&self.chars, self.path.end, self.chars.len());
        let with = concat_chars(head, &n);
        let chars = concat_chars(with, &tail);
        let end = self.path.start + n.len();
        self.chars = chars;
        self.path = CharRange { start: self.path.start, end };
        self.query = match self.query {
            Some(r) => Some(CharRange { start: end + 1, end: end + 1 + (r.end - r.start) }),
            None => None,
        };
        assert(self.view().chars =~= spec_set_path(v, new@).chars);
    }

    /// The whole path.
    pub fn as_str(&self) -> (res: String)
        ensures
            res@ == self.view().chars,
    {
        string_of(self.chars.as_slice())
    }

    /// The mount point, if not empty.
    pub fn mount_point(&self) -> (res: Option<String>)
        requires
            self.wf(),
        ensures
            match (res, self.view().mount_point_str()) {
                (Some(r), Some(m)) => r@ == m,
                (None, None) => true,
                _ => false,
            },
    {
        match self.mount_point {
            Some(r) => {
                let c = sub_chars(&self.chars, r.start, r.end);
                Some(string_of(c.as_slice()))
            },
            None => None,
        }
    }

    /// The resource location.
    pub fn path(&self) -> (res: String)
        requires
            self.wf(),
        ensures
            res@ == self.view().path_str(),
    {
        let c = sub_chars(&self.chars, self.path.start, self.path.end);
        string_of(c.as_slice())
    }

    /// The query, if any.
    pub fn query(&self) -> (res: Option<String>)
        requires
            self.wf(),
        ensures
            match (res, self.view().query_str()) {
                (Some(r), Some(q)) => r@ == q,
                (None, None) => true,
                _ => false,
            },
    {
        match self.query {
            Some(r) => {
                let c = sub_chars(&self.chars, r.start, r.end);
                Some(string_of(c.as_slice()))
            },
            None => None,
        }
    }

    /// The segments of the resource location, split at every `/`.
    pub fn path_segments(&self) -> (res: Vec<String>)
        requires
            self.wf(),
        ensures
            res@.len() == split_seq(self.view().path_str(), PATH_SEPARATOR).len(),
            forall|i: int| 0 <= i < res@.len() ==> #[trigger] res@[i]@ == split_seq(self.view().path_str(), PATH_SEPARATOR)[i],
    {
        let p = sub_chars(&self.chars, self.path.start, self.path.end);
        split_chars(&p, PATH_SEPARATOR)
    }
}

/// The index that `find_from` gives holds `c`, and none before it does.
pub proof fn lemma_find_from_in_range(s: Seq<char>, c: char, from: int)
    requires
        from >= 0,
    ensures
        find_from(s, c, from) matches Some(i) ==> from <= i < s.len() && s[i] == c,
        find_from(s, c, from) is None ==> forall|j: int| from <= j < s.len() ==> s[j] != c,
    decreases s.len() - from,
{
    if from >= 0 && from < s.len() && s[from] != c {
        lemma_find_from_in_range(s, c, from + 1);
    }
}

/// `s` cut at every `sep`.
fn split_chars(s: &Vec<char>, sep: char) -> (res: Vec<String>)
    ensures
        res@.len() == split_seq(s@, sep).len(),
        forall|i: int| 0 <= i < res@.len() ==> #[trigger] res@[i]@ == split_seq(s@, sep)[i],
    decreases s.len(),
{
    match find_char(s, sep, 0) {
        Some(i) => {
            proof { lemma_find_from_in_range(s@, sep, 0); }
            let head = sub_chars(s, 0, i);
            let rest = sub_chars(s, i + 1, s.len());
            let mut res: Vec<String> = Vec::new();
            res.push(string_of(head.as_slice()));
            let tail = split_chars(&rest, sep);
            let ghost expected = split_seq(s@, sep);
            let mut j: usize = 0;
            while j < tail.len()
                invariant
                    j <= tail.len(),
                    tail@.len() == split_seq(rest@, sep).len(),
                    forall|k: int| 0 <= k < tail@.len() ==> #[trigger] tail@[k]@ == split_seq(rest@, sep)[k],
                    expected == seq![s@.subrange(0, i as int)] + split_seq(rest@, sep),
                    res@.len() == j + 1,
                    res@[0]@ == s@.subrange(0, i as int),
                    forall|k: int| 1 <= k < res@.len() ==> #[trigger] res@[k]@ == split_seq(rest@, sep)[k - 1],
                decreases tail.len() - j,
            {
                res.push(tail[j].clone());
                j = j + 1;
            }
            proof {
                assert forall|k: int| 0 <= k < res@.len() implies #[trigger] res@[k]@ == split_seq(s@, sep)[k] by {
                    if k > 0 {
                        assert(expected[k] == split_seq(rest@, sep)[k - 1]);
                    }
                }
            }
            res
        },
        None => {
            let mut res: Vec<String> = Vec::new();
            res.push(string_of(s.as_slice()));
            res
        },
    }
}

} // verus!
