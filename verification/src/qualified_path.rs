use vstd::prelude::*;

use crate::text::{
    is_prefix_of, is_space_char, split_char, split_char_spec, str_starts_with, trim_space_ends,
    trim_spaces,
};

verus! {

/// Characters reserved by the flat branch-name convention: they are stripped
/// from raw text before it is taken apart into segments.
pub open spec fn is_marker_char(c: char) -> bool {
    c == '*' || c == '_'
}

/// Raw text with all reserved marker characters removed.
pub open spec fn strip_markers(s: Seq<char>) -> Seq<char> {
    s.filter(|c: char| !is_marker_char(c))
}

/// The segments that pushing raw text `s` appends: markers are stripped,
/// whitespace is trimmed from both ends, and the rest splits at `/`.
pub open spec fn parse_segments(s: Seq<char>) -> Seq<Seq<char>> {
    split_char_spec(trim_spaces(strip_markers(s)), '/')
}

pub proof fn lemma_parse_segments_empty()
    ensures
        parse_segments(Seq::<char>::empty()) == seq![Seq::<char>::empty()],
{
    reveal(Seq::filter);
    assert(strip_markers(Seq::<char>::empty()) =~= Seq::<char>::empty());
}

pub proof fn lemma_parse_segments_len(s: Seq<char>)
    ensures
        parse_segments(s).len() >= 1,
{
    lemma_split_len(trim_spaces(strip_markers(s)));
}

proof fn lemma_split_len(s: Seq<char>)
    ensures
        split_char_spec(s, '/').len() >= 1,
    decreases s.len(),
{
    crate::text::lemma_first_at_bounds(s, '/');
    let i = crate::text::first_at(s, '/');
    if 0 <= i < s.len() {
        lemma_split_len(s.skip(i + 1));
    }
}

/// The segments joined with `/`, as the path is displayed.
pub open spec fn slash_join(v: Seq<Seq<char>>) -> Seq<char>
    decreases v.len(),
{
    if v.len() == 0 {
        Seq::<char>::empty()
    } else if v.len() == 1 {
        v[0]
    } else {
        v[0] + seq!['/'] + slash_join(v.drop_first())
    }
}

/// An empty first segment and an empty last segment are dropped, as the
/// branch-name mapping ignores the absolute and directory markers.
pub open spec fn trim_empty_ends(v: Seq<Seq<char>>) -> Seq<Seq<char>> {
    let w = if v.len() > 0 && v[0] == Seq::<char>::empty() {
        v.drop_first()
    } else {
        v
    };
    if w.len() > 0 && w.last() == Seq::<char>::empty() {
        w.drop_last()
    } else {
        w
    }
}

/// The flat branch name of the segments: every segment but the last carries
/// the reserved `_` prefix, and segments are joined with `/`.
pub open spec fn branch_join(v: Seq<Seq<char>>) -> Seq<char>
    decreases v.len(),
{
    if v.len() <= 1 {
        slash_join(v)
    } else {
        seq!['_'] + v[0] + seq!['/'] + branch_join(v.drop_first())
    }
}

pub open spec fn branch_of(v: Seq<Seq<char>>) -> Seq<char> {
    branch_join(trim_empty_ends(v))
}

pub open spec fn dot_segment() -> Seq<char> {
    seq!['.']
}

pub open spec fn dotdot_segment() -> Seq<char> {
    seq!['.', '.']
}

/// One step of path resolution per remaining segment of `rhs`:
/// `.` is a no-op, `..` pops one segment (clamped at zero), a leading empty
/// segment of a longer `rhs` makes the result absolute (`rhs` wins whole),
/// an empty segment elsewhere only survives in final position, and a literal
/// segment is appended after the usual raw-text cleaning.
pub open spec fn add_loop(acc: Seq<Seq<char>>, next: int, rhs: Seq<Seq<char>>, i: int) -> Seq<
    Seq<char>,
>
    decreases rhs.len() - i,
{
    if i < 0 || i >= rhs.len() {
        acc
    } else {
        let part = rhs[i];
        if part == dot_segment() {
            add_loop(acc, next, rhs, i + 1)
        } else if part == dotdot_segment() {
            if next > 0 {
                add_loop(acc.take(next - 1), next - 1, rhs, i + 1)
            } else {
                add_loop(acc, next, rhs, i + 1)
            }
        } else if part == Seq::<char>::empty() {
            if i == 0 && rhs.len() > 1 {
                rhs
            } else if i == rhs.len() - 1 || acc.len() == 0 {
                add_loop(acc + seq![Seq::<char>::empty()], next, rhs, i + 1)
            } else {
                add_loop(acc, next, rhs, i + 1)
            }
        } else {
            add_loop(acc + parse_segments(part), next + 1, rhs, i + 1)
        }
    }
}

/// A trailing directory marker of the left operand is dropped before
/// resolution starts.
pub open spec fn add_init(a: Seq<Seq<char>>) -> Seq<Seq<char>> {
    if a.len() > 1 && a.last() == Seq::<char>::empty() {
        a.drop_last()
    } else {
        a
    }
}

/// Filesystem-style resolution of `b` against `a`.
pub open spec fn spec_add(a: Seq<Seq<char>>, b: Seq<Seq<char>>) -> Seq<Seq<char>> {
    add_loop(add_init(a), a.len() as int, b, 0)
}

/// A hierarchical, `/`-delimited path into the feature/product namespace.
///
/// An empty first segment marks an absolute path; a trailing empty segment
/// marks a directory (prefix) reference. Values are immutable once built up:
/// combination and slicing produce new values.
#[derive(Debug)]
pub struct QualifiedPath {
    path: Vec<String>,
}

impl View for QualifiedPath {
    type V = Seq<Seq<char>>;

    closed spec fn view(&self) -> Seq<Seq<char>> {
        self.path@.map_values(|s: String| s@)
    }
}

impl Clone for QualifiedPath {
    fn clone(&self) -> (r: Self)
        ensures
            r@ == self@,
    {
        let path = self.path.clone();
        proof {
            assert forall|i: int| 0 <= i < self.path@.len() implies path@[i]@ == self.path@[i]@ by {
                assert(vstd::pervasive::cloned::<String>(self.path[i], path[i]));
            }
            assert(path@.map_values(|s: String| s@) =~= self.path@.map_values(|s: String| s@));
        }
        QualifiedPath { path }
    }
}

impl PartialEq for QualifiedPath {
    fn eq(&self, other: &Self) -> (r: bool) {
        if self.path.len() != other.path.len() {
            proof {
                assert(self@.len() != other@.len());
            }
            return false;
        }
        let n = self.path.len();
        let mut i: usize = 0;
        while i < n
            invariant
                0 <= i <= n,
                n == self.path@.len(),
                n == other.path@.len(),
                forall|k: int| 0 <= k < i ==> self@[k] == other@[k],
            decreases n - i,
        {
            if !(self.path[i] == other.path[i]) {
                proof {
                    assert(self@[i as int] != other@[i as int]);
                }
                return false;
            }
            i = i + 1;
        }
        proof {
            assert(self@ =~= other@);
        }
        true
    }
}

impl vstd::std_specs::cmp::PartialEqSpecImpl for QualifiedPath {
    open spec fn obeys_eq_spec() -> bool {
        true
    }

    open spec fn eq_spec(&self, other: &Self) -> bool {
        self@ == other@
    }
}

impl QualifiedPath {
    /// The empty path.
    pub fn new() -> (r: Self)
        ensures
            r@ == Seq::<Seq<char>>::empty(),
    {
        let r = Self { path: Vec::new() };
        proof {
            assert(r@ =~= Seq::<Seq<char>>::empty());
        }
        r
    }

    /// Parses raw text into a path, cleaning it as `push` does.
    pub fn from_raw(s: &str) -> (r: Self)
        ensures
            r@ == parse_segments(s@),
    {
        let mut r = Self::new();
        r.push(s);
        proof {
            assert(r@ =~= parse_segments(s@));
        }
        r
    }

    /// Parses a flat branch name as the backend reports it: the result is
    /// absolute, with the reserved markers stripped.
    pub fn from_branch(s: &str) -> (r: Self)
        ensures
            r@ == seq![Seq::<char>::empty()] + parse_segments(s@),
    {
        let mut r = Self::from_raw("");
        r.push(s);
        proof {
            reveal_strlit("");
            assert(""@ =~= Seq::<char>::empty());
            lemma_parse_segments_empty();
            assert(r@ =~= seq![Seq::<char>::empty()] + parse_segments(s@));
        }
        r
    }

    /// Number of segments.
    pub fn len(&self) -> (r: usize)
        ensures
            r == self@.len(),
    {
        self.path.len()
    }

    /// True if the path has no segments.
    pub fn is_empty(&self) -> (r: bool)
        ensures
            r == (self@.len() == 0),
    {
        self.path.is_empty()
    }

    /// Appends one or more `/`-delimited sub-segments of the raw text,
    /// stripping reserved marker characters and surrounding whitespace first,
    /// so a branch-form name can be pushed directly.
    pub fn push(&mut self, part: &str)
        ensures
            final(self)@ == old(self)@ + parse_segments(part@),
    {
        let cleaned = strip_marker_chars(part);
        let trimmed = trim_space_ends(cleaned.as_str());
        let segs = split_char(trimmed.as_str(), '/');
        let ghost orig = self@;
        let n = segs.len();
        let mut i: usize = 0;
        while i < n
            invariant
                0 <= i <= n,
                n == segs@.len(),
                segs@.map_values(|x: String| x@) == parse_segments(part@),
                self@ == orig + segs@.map_values(|x: String| x@).take(i as int),
            decreases n - i,
        {
            let ghost prev = self@;
            let seg = segs[i].clone();
            self.path.push(seg);
            proof {
                let m = segs@.map_values(|x: String| x@);
                assert(self@ =~= prev.push(m[i as int]));
                assert(orig + m.take(i + 1 as int) =~= (orig + m.take(i as int)).push(
                    m[i as int],
                ));
            }
            i = i + 1;
        }
        proof {
            let m = segs@.map_values(|x: String| x@);
            assert(m.take(n as int) =~= m);
        }
    }

    /// The flat branch identifier: every segment but the last is prefixed
    /// with the reserved marker, and the absolute and directory markers are
    /// dropped.
    pub fn to_git_branch(&self) -> (r: String)
        requires
            trim_empty_ends(self@).len() > 0,
        ensures
            r@ == branch_of(self@),
    {
        let trimmed = self.trim_whitespaces();
        let n = trimmed.path.len();
        if n == 1 {
            let r = trimmed.path[0].clone();
            proof {
                assert(r@ == trim_empty_ends(self@)[0]);
            }
            r
        } else {
            let mut r = String::new();
            let mut i: usize = 0;
            proof {
                reveal_strlit("_");
                reveal_strlit("/");
                assert(trimmed@.skip(0) =~= trimmed@);
                assert(r@ + branch_join(trimmed@) =~= branch_join(trimmed@));
            }
            while i < n - 1
                invariant
                    0 <= i <= n - 1,
                    n == trimmed@.len(),
                    n >= 2,
                    "_"@ == seq!['_'],
                    "/"@ == seq!['/'],
                    branch_join(trimmed@) == r@ + branch_join(trimmed@.skip(i as int)),
                decreases n - i,
            {
                let ghost prev = r@;
                r.append("_");
                r.append(trimmed.path[i].as_str());
                r.append("/");
                proof {
                    let rest = trimmed@.skip(i as int);
                    assert(rest.len() >= 2);
                    assert(rest[0] == trimmed@[i as int]);
                    assert(rest.drop_first() =~= trimmed@.skip(i + 1 as int));
                    assert(r@ =~= prev + (seq!['_'] + trimmed@[i as int] + seq!['/']));
                    assert(prev + (seq!['_'] + trimmed@[i as int] + seq!['/']) + branch_join(
                        trimmed@.skip(i + 1 as int),
                    ) =~= prev + (seq!['_'] + rest[0] + seq!['/'] + branch_join(
                        rest.drop_first(),
                    )));
                }
                i = i + 1;
            }
            r.append(trimmed.path[n - 1].as_str());
            proof {
                let rest = trimmed@.skip(n - 1 as int);
                assert(rest.len() == 1);
                assert(rest[0] == trimmed@[n - 1 as int]);
                assert(branch_join(rest) == rest[0]);
            }
            r
        }
    }

    /// A copy of the segments from `n_left` (inclusive) to `n_right`
    /// (exclusive).
    pub fn strip_n(&self, n_left: usize, n_right: usize) -> (r: Self)
        requires
            n_left <= n_right <= self@.len(),
        ensures
            r@ == self@.subrange(n_left as int, n_right as int),
    {
        let mut path: Vec<String> = Vec::new();
        let mut i: usize = n_left;
        while i < n_right
            invariant
                n_left <= i <= n_right <= self.path@.len(),
                path@.map_values(|s: String| s@) == self@.subrange(n_left as int, i as int),
            decreases n_right - i,
        {
            let ghost prev = path@.map_values(|s: String| s@);
            let seg = self.path[i].clone();
            path.push(seg);
            proof {
                assert(path@.map_values(|s: String| s@) =~= prev.push(self@[i as int]));
                assert(self@.subrange(n_left as int, i + 1 as int) =~= self@.subrange(
                    n_left as int,
                    i as int,
                ).push(self@[i as int]));
            }
            i = i + 1;
        }
        let r = QualifiedPath { path };
        proof {
            assert(r@ =~= self@.subrange(n_left as int, n_right as int));
        }
        r
    }

    /// Drops the first `n` segments.
    pub fn strip_n_left(&self, n: usize) -> (r: Self)
        requires
            n <= self@.len(),
        ensures
            r@ == self@.skip(n as int),
    {
        let r = self.strip_n(n, self.path.len());
        proof {
            assert(r@ =~= self@.skip(n as int));
        }
        r
    }

    /// Keeps only the first `n` segments.
    pub fn strip_n_right(&self, n: usize) -> (r: Self)
        requires
            n <= self@.len(),
        ensures
            r@ == self@.take(n as int),
    {
        let r = self.strip_n(0, n);
        proof {
            assert(r@ =~= self@.take(n as int));
        }
        r
    }

    /// Drops an empty first segment and an empty last segment.
    pub fn trim_whitespaces(&self) -> (r: Self)
        ensures
            r@ == trim_empty_ends(self@),
    {
        let ghost v = self@;
        let mut r = self.clone();
        if r.path.len() > 0 {
            let first_empty = r.path[0].as_str().is_empty();
            proof {
                if first_empty {
                    assert(v[0] =~= Seq::<char>::empty());
                } else {
                    assert(v[0] != Seq::<char>::empty());
                }
            }
            if first_empty {
                let ghost prev = r@;
                r.path.remove(0);
                proof {
                    assert(r@ =~= prev.drop_first());
                }
            }
        }
        let ghost w = r@;
        proof {
            assert(w == if v.len() > 0 && v[0] == Seq::<char>::empty() {
                v.drop_first()
            } else {
                v
            });
        }
        if r.path.len() > 0 {
            let last_empty = r.path[r.path.len() - 1].as_str().is_empty();
            proof {
                if last_empty {
                    assert(w.last() =~= Seq::<char>::empty());
                } else {
                    assert(w.last() != Seq::<char>::empty());
                }
            }
            if last_empty {
                let ghost prev = r@;
                r.path.remove(r.path.len() - 1);
                proof {
                    assert(r@ =~= prev.drop_last());
                }
            }
        }
        proof {
            assert(r@ == trim_empty_ends(v));
        }
        r
    }

    /// A copy with `value` cleaned and inserted at `index`: the raw text
    /// goes through the same marker stripping, trimming and splitting as
    /// `push`, so it may contribute several segments.
    pub fn replace(&self, index: usize, value: &str) -> (r: Self)
        requires
            index <= self@.len(),
        ensures
            r@ == self@.take(index as int) + parse_segments(value@) + self@.skip(index as int),
    {
        let mut r = self.strip_n_right(index);
        r.push(value);
        let ghost before = r@;
        let n = self.path.len();
        let mut i: usize = index;
        proof {
            assert(self@.subrange(index as int, index as int) =~= Seq::<Seq<char>>::empty());
            assert(before + self@.subrange(index as int, index as int) =~= before);
        }
        while i < n
            invariant
                index <= i <= n,
                n == self.path@.len(),
                r@ == before + self@.subrange(index as int, i as int),
            decreases n - i,
        {
            let ghost prev = r@;
            let seg = self.path[i].clone();
            r.path.push(seg);
            proof {
                assert(r@ =~= prev.push(self@[i as int]));
                assert(before + self@.subrange(index as int, i + 1 as int) =~= (before
                    + self@.subrange(index as int, i as int)).push(self@[i as int]));
            }
            i = i + 1;
        }
        proof {
            assert(self@.subrange(index as int, n as int) =~= self@.skip(index as int));
            assert(before + self@.skip(index as int) =~= (self@.take(index as int)
                + parse_segments(value@)) + self@.skip(index as int));
        }
        r
    }

    /// The first segment, parsed as its own path.
    pub fn first(&self) -> (r: Option<Self>)
        ensures
            self@.len() == 0 ==> r is None,
            self@.len() > 0 ==> (r matches Some(q) && q@ == parse_segments(self@[0])),
    {
        if self.path.len() == 0 {
            None
        } else {
            Some(Self::from_raw(self.path[0].as_str()))
        }
    }

    /// The last raw segment.
    pub fn last(&self) -> (r: Option<&String>)
        ensures
            self@.len() == 0 ==> r is None,
            self@.len() > 0 ==> (r matches Some(s) && s@ == self@.last()),
    {
        if self.path.len() == 0 {
            None
        } else {
            Some(&self.path[self.path.len() - 1])
        }
    }

    /// The segment at `index`, parsed as its own path.
    pub fn get(&self, index: usize) -> (r: Option<Self>)
        ensures
            index >= self@.len() ==> r is None,
            index < self@.len() ==> (r matches Some(q) && q@ == parse_segments(self@[index as int])),
    {
        if index >= self.path.len() {
            None
        } else {
            Some(Self::from_raw(self.path[index].as_str()))
        }
    }

    /// Each segment as its own single-segment path.
    pub fn iter(&self) -> (r: Vec<Self>)
        ensures
            r@.len() == self@.len(),
            forall|i: int| 0 <= i < r@.len() ==> r@[i]@ == parse_segments(self@[i]),
    {
        let n = self.path.len();
        let mut r: Vec<Self> = Vec::new();
        let mut i: usize = 0;
        while i < n
            invariant
                0 <= i <= n,
                n == self@.len(),
                r@.len() == i,
                forall|k: int| 0 <= k < i ==> r@[k]@ == parse_segments(self@[k]),
            decreases n - i,
        {
            r.push(Self::from_raw(self.path[i].as_str()));
            i = i + 1;
        }
        r
    }

    /// The raw segments.
    pub fn iter_string(&self) -> (r: Vec<String>)
        ensures
            r@.map_values(|s: String| s@) == self@,
    {
        let r = self.path.clone();
        proof {
            assert forall|i: int| 0 <= i < self.path@.len() implies r@[i]@ == self.path@[i]@ by {
                assert(vstd::pervasive::cloned::<String>(self.path[i], r[i]));
            }
            assert(r@.map_values(|s: String| s@) =~= self@);
        }
        r
    }

    /// True if this path's display form starts with the display form of
    /// `prefix` (a character-level prefix, not a segment-level one).
    pub fn starts_with(&self, prefix: &QualifiedPath) -> (r: bool)
        ensures
            r == is_prefix_of(slash_join(prefix@), slash_join(self@)),
    {
        let own = self.to_string();
        let pre = prefix.to_string();
        str_starts_with(own.as_str(), pre.as_str())
    }

    /// True if both paths have the same last raw segment (or are both empty).
    pub fn last_is(&self, suffix: &QualifiedPath) -> (r: bool)
        ensures
            r == if self@.len() == 0 {
                suffix@.len() == 0
            } else {
                suffix@.len() > 0 && self@.last() == suffix@.last()
            },
    {
        if self.path.len() == 0 {
            suffix.path.len() == 0
        } else if suffix.path.len() == 0 {
            false
        } else {
            let a = &self.path[self.path.len() - 1];
            let b = &suffix.path[suffix.path.len() - 1];
            *a == *b
        }
    }

    /// The display form: segments joined with `/`.
    pub fn to_string(&self) -> (r: String)
        ensures
            r@ == slash_join(self@),
    {
        let n = self.path.len();
        let mut r = String::new();
        if n == 0 {
            return r;
        }
        let mut i: usize = 0;
        proof {
            reveal_strlit("/");
            assert(self@.skip(0) =~= self@);
            assert(r@ + slash_join(self@) =~= slash_join(self@));
        }
        while i < n - 1
            invariant
                0 <= i <= n - 1,
                n == self@.len(),
                n >= 1,
                "/"@ == seq!['/'],
                slash_join(self@) == r@ + slash_join(self@.skip(i as int)),
            decreases n - i,
        {
            let ghost prev = r@;
            r.append(self.path[i].as_str());
            r.append("/");
            proof {
                let rest = self@.skip(i as int);
                assert(rest.len() >= 2);
                assert(rest[0] == self@[i as int]);
                assert(rest.drop_first() =~= self@.skip(i + 1 as int));
                assert(r@ =~= prev + (self@[i as int] + seq!['/']));
                assert(prev + (self@[i as int] + seq!['/']) + slash_join(
                    self@.skip(i + 1 as int),
                ) =~= prev + (rest[0] + seq!['/'] + slash_join(rest.drop_first())));
            }
            i = i + 1;
        }
        r.append(self.path[n - 1].as_str());
        proof {
            let rest = self@.skip(n - 1 as int);
            assert(rest.len() == 1);
            assert(rest[0] == self@[n - 1 as int]);
        }
        r
    }

    /// A copy marked as a directory (prefix) reference by a trailing empty
    /// segment.
    pub fn as_dir(&self) -> (r: Self)
        ensures
            r@ == self@.push(Seq::<char>::empty()),
    {
        let mut path = self.path.clone();
        proof {
            assert forall|i: int| 0 <= i < self.path@.len() implies path@[i]@
                == self.path@[i]@ by {
                assert(vstd::pervasive::cloned::<String>(self.path[i], path[i]));
            }
            assert(path@.map_values(|s: String| s@) =~= self@);
        }
        let ghost before = path@.map_values(|s: String| s@);
        path.push(String::new());
        let r = QualifiedPath { path };
        proof {
            assert(r@ =~= before.push(Seq::<char>::empty()));
        }
        r
    }

    /// A copy marked absolute by a leading empty segment.
    pub fn as_absolute(&self) -> (r: Self)
        ensures
            r@ == seq![Seq::<char>::empty()] + self@,
    {
        let r = self.replace(0, "");
        proof {
            reveal_strlit("");
            assert(""@ =~= Seq::<char>::empty());
            lemma_parse_segments_empty();
            assert(self@.take(0) =~= Seq::<Seq<char>>::empty());
            assert(self@.skip(0) =~= self@);
            assert(r@ =~= seq![Seq::<char>::empty()] + self@);
        }
        r
    }

    /// True of a directory (prefix) reference: more than one segment and an
    /// empty last one.
    pub fn is_dir(&self) -> (r: bool)
        ensures
            r == (self@.len() > 1 && self@.last() == Seq::<char>::empty()),
    {
        if self.path.len() > 1 {
            let e = self.path[self.path.len() - 1].as_str().is_empty();
            proof {
                assert(self@.last() == self.path@[self.path@.len() - 1]@);
                if e {
                    assert(self@.last() =~= Seq::<char>::empty());
                }
            }
            e
        } else {
            false
        }
    }

    /// True of an absolute path: at least one segment and an empty first one.
    pub fn is_absolute(&self) -> (r: bool)
        ensures
            r == (self@.len() > 0 && self@[0] == Seq::<char>::empty()),
    {
        if self.path.len() > 0 {
            let e = self.path[0].as_str().is_empty();
            proof {
                if e {
                    assert(self@[0] =~= Seq::<char>::empty());
                }
            }
            e
        } else {
            false
        }
    }

    /// Resolves `rhs` against this path as a current-directory reference:
    /// `.` is a no-op, `..` pops one segment clamped at the root, an absolute
    /// `rhs` replaces this path entirely, and a trailing empty segment marks
    /// the result as a directory reference.
    pub fn add(self, rhs: QualifiedPath) -> (r: QualifiedPath)
        ensures
            r@ == spec_add(self@, rhs@),
    {
        let ghost a0 = self@;
        let ghost b = rhs@;
        let mut next_index: usize = self.len();
        let mut new_path = self;
        let mut pending: bool = false;
        if new_path.path.len() > 1 {
            let last_empty = new_path.path[new_path.path.len() - 1].as_str().is_empty();
            if last_empty {
                proof {
                    assert(new_path@.last() =~= Seq::<char>::empty());
                }
                new_path = new_path.strip_n_right(next_index - 1);
                next_index = next_index - 1;
                pending = true;
                proof {
                    assert(new_path@ =~= add_init(a0));
                }
            }
        }
        proof {
            if !pending {
                assert(new_path@ =~= add_init(a0));
            }
        }
        let dot = String::from_str(".");
        let dotdot = String::from_str("..");
        let empty_str = String::new();
        proof {
            reveal_strlit(".");
            reveal_strlit("..");
            assert(dot@ =~= dot_segment());
            assert(dotdot@ =~= dotdot_segment());
        }
        let n = rhs.path.len();
        let mut i: usize = 0;
        while i < n
            invariant
                0 <= i <= n,
                n == b.len(),
                rhs@ == b,
                rhs.path@.len() == n,
                dot@ == dot_segment(),
                dotdot@ == dotdot_segment(),
                empty_str@ == Seq::<char>::empty(),
                next_index <= new_path@.len(),
                next_index + (if pending { 1int } else { 0int }) >= 0,
                spec_add(a0, b) == add_loop(
                    new_path@,
                    next_index + (if pending { 1int } else { 0int }),
                    b,
                    i as int,
                ),
            decreases n - i,
        {
            let ghost acc = new_path@;
            let ghost next = next_index + (if pending { 1int } else { 0int });
            proof {
                assert(b[i as int] == rhs.path@[i as int]@);
            }
            if rhs.path[i] == dot {
                // no-op
            } else if rhs.path[i] == dotdot {
                if pending {
                    // the popped segment is the one the dropped directory
                    // marker stood past
                    new_path = new_path.strip_n_right(next_index);
                    pending = false;
                    proof {
                        assert(new_path@ =~= acc.take(next - 1));
                    }
                } else if next_index > 0 {
                    next_index = next_index - 1;
                    new_path = new_path.strip_n_right(next_index);
                }
            } else if rhs.path[i] == empty_str {
                if i == 0 && n > 1 {
                    let r = rhs;
                    proof {
                        assert(add_loop(acc, next, b, i as int) == b);
                        assert(r@ == b);
                    }
                    return r;
                } else if i == n - 1 || new_path.path.len() == 0 {
                    new_path.push("");
                    proof {
                        reveal_strlit("");
                        assert(""@ =~= Seq::<char>::empty());
                        lemma_parse_segments_empty();
                        assert(new_path@ =~= acc + seq![Seq::<char>::empty()]);
                    }
                }
            } else {
                new_path.push(rhs.path[i].as_str());
                proof {
                    lemma_parse_segments_len(b[i as int]);
                    assert(new_path@.len() > next_index);
                }
                let m = new_path.path.len();
                proof {
                    assert(next_index < m);
                }
                next_index = next_index + 1;
            }
            i = i + 1;
        }
        new_path
    }
}

/// A segment that resolution appends untouched: not one of the operator
/// segments, and unchanged by the raw-text cleaning.
pub open spec fn literal_segment(seg: Seq<char>) -> bool {
    &&& seg != dot_segment()
    &&& seg != dotdot_segment()
    &&& seg != Seq::<char>::empty()
    &&& parse_segments(seg) == seq![seg]
}

proof fn lemma_add_loop_literals(acc: Seq<Seq<char>>, next: int, rhs: Seq<Seq<char>>, i: int)
    requires
        0 <= i <= rhs.len(),
        forall|j: int| i <= j < rhs.len() ==> literal_segment(#[trigger] rhs[j]),
    ensures
        add_loop(acc, next, rhs, i) == acc + rhs.skip(i),
    decreases rhs.len() - i,
{
    if i == rhs.len() {
        assert(acc + rhs.skip(i) =~= acc);
    } else {
        lemma_add_loop_literals(acc + seq![rhs[i]], next + 1, rhs, i + 1);
        assert(acc + seq![rhs[i]] + rhs.skip(i + 1) =~= acc + rhs.skip(i));
    }
}

/// Law of path resolution: appending literal segments is plain concatenation.
pub proof fn lemma_add_appends_literals(a: Seq<Seq<char>>, b: Seq<Seq<char>>)
    requires
        add_init(a) == a,
        forall|j: int| 0 <= j < b.len() ==> literal_segment(#[trigger] b[j]),
    ensures
        spec_add(a, b) == a + b,
{
    if b.len() > 1 && b[0] == Seq::<char>::empty() {
        assert(literal_segment(b[0]));
        assert(false);
    }
    lemma_add_loop_literals(a, a.len() as int, b, 0);
    assert(a + b.skip(0) =~= a + b);
}

proof fn lemma_add_loop_pops(acc: Seq<Seq<char>>, rhs: Seq<Seq<char>>, i: int)
    requires
        0 <= i <= rhs.len(),
        forall|j: int| i <= j < rhs.len() ==> #[trigger] rhs[j] == dotdot_segment(),
        !(rhs.len() > 1 && rhs[0] == Seq::<char>::empty() && i == 0),
    ensures
        add_loop(acc, acc.len() as int, rhs, i) == acc.take(
            if acc.len() >= rhs.len() - i {
                acc.len() - (rhs.len() - i)
            } else {
                0
            },
        ),
    decreases rhs.len() - i,
{
    if i == rhs.len() {
        assert(acc.take(acc.len() as int) =~= acc);
    } else {
        assert(rhs[i] == dotdot_segment());
        assert(dotdot_segment() != dot_segment());
        assert(dotdot_segment() != Seq::<char>::empty());
        if acc.len() > 0 {
            let popped = acc.take(acc.len() - 1);
            lemma_add_loop_pops(popped, rhs, i + 1);
            assert(popped.take(
                if popped.len() >= rhs.len() - i - 1 {
                    popped.len() - (rhs.len() - i - 1)
                } else {
                    0
                },
            ) =~= acc.take(
                if acc.len() >= rhs.len() - i {
                    acc.len() - (rhs.len() - i)
                } else {
                    0
                },
            ));
        } else {
            lemma_add_loop_pops(acc, rhs, i + 1);
            assert(acc.take(0) =~= acc);
        }
    }
}

/// Law of path resolution: a chain of `k` parent references pops `k`
/// segments, clamped at the root; over-popping never errors.
pub proof fn lemma_add_parent_pops(a: Seq<Seq<char>>, k: nat)
    requires
        add_init(a) == a,
    ensures
        spec_add(a, Seq::new(k, |j: int| dotdot_segment())) == a.take(
            if a.len() >= k {
                a.len() - k
            } else {
                0
            },
        ),
{
    let rhs = Seq::new(k, |j: int| dotdot_segment());
    if k > 0 {
        assert(rhs[0] == dotdot_segment());
        assert(dotdot_segment() != Seq::<char>::empty());
    }
    lemma_add_loop_pops(a, rhs, 0);
}

/// One step of the filesystem-style normalized join: `.` is skipped, `..`
/// pops the last accumulated segment (clamped at the root), and any other
/// segment is appended.
pub open spec fn resolve_step(acc: Seq<Seq<char>>, seg: Seq<char>) -> Seq<Seq<char>> {
    if seg == dot_segment() {
        acc
    } else if seg == dotdot_segment() {
        if acc.len() > 0 {
            acc.drop_last()
        } else {
            acc
        }
    } else {
        acc.push(seg)
    }
}

/// The filesystem-style normalized join, one step per segment of `rhs`.
pub open spec fn resolve_join(acc: Seq<Seq<char>>, rhs: Seq<Seq<char>>) -> Seq<Seq<char>>
    decreases rhs.len(),
{
    if rhs.len() == 0 {
        acc
    } else {
        resolve_join(resolve_step(acc, rhs[0]), rhs.drop_first())
    }
}

/// An operand made only of `.`, `..` and literal segments.
pub open spec fn plain_operand(v: Seq<Seq<char>>) -> bool {
    forall|k: int|
        0 <= k < v.len() ==> ((#[trigger] v[k]) == dot_segment() || v[k] == dotdot_segment()
            || literal_segment(v[k]))
}

proof fn lemma_add_loop_resolves(acc: Seq<Seq<char>>, rhs: Seq<Seq<char>>, i: int)
    requires
        0 <= i <= rhs.len(),
        forall|k: int|
            i <= k < rhs.len() ==> ((#[trigger] rhs[k]) == dot_segment() || rhs[k]
                == dotdot_segment() || literal_segment(rhs[k])),
    ensures
        add_loop(acc, acc.len() as int, rhs, i) == resolve_join(acc, rhs.skip(i)),
    decreases rhs.len() - i,
{
    if i < rhs.len() {
        let part = rhs[i];
        assert(rhs.skip(i)[0] == part);
        assert(rhs.skip(i).drop_first() =~= rhs.skip(i + 1));
        assert(dot_segment().len() == 1);
        assert(dotdot_segment().len() == 2);
        if part == dot_segment() {
            lemma_add_loop_resolves(acc, rhs, i + 1);
        } else if part == dotdot_segment() {
            if acc.len() > 0 {
                assert(acc.take(acc.len() - 1) =~= acc.drop_last());
                lemma_add_loop_resolves(acc.drop_last(), rhs, i + 1);
            } else {
                lemma_add_loop_resolves(acc, rhs, i + 1);
            }
        } else {
            assert(literal_segment(part));
            assert(parse_segments(part) == seq![part]);
            assert(acc + seq![part] =~= acc.push(part));
            lemma_add_loop_resolves(acc.push(part), rhs, i + 1);
        }
    } else {
        assert(rhs.skip(i) =~= Seq::<Seq<char>>::empty());
    }
}

/// Law of path resolution: for operands made only of `.`, `..` and literal
/// segments, resolution is exactly the filesystem-style normalized join —
/// `.` is skipped, `..` pops the last accumulated segment clamped at the
/// root, and a literal segment is appended.
pub proof fn lemma_add_normalized_join(a: Seq<Seq<char>>, b: Seq<Seq<char>>)
    requires
        plain_operand(a),
        plain_operand(b),
    ensures
        spec_add(a, b) == resolve_join(a, b),
{
    assert(dot_segment().len() == 1);
    assert(dotdot_segment().len() == 2);
    if a.len() > 1 && a.last() == Seq::<char>::empty() {
        assert(a[a.len() - 1] == Seq::<char>::empty());
        assert(false);
    }
    assert(add_init(a) == a);
    lemma_add_loop_resolves(a, b, 0);
    assert(b.skip(0) =~= b);
}

/// A segment that survives the flat branch-name round trip: nonempty, and
/// free of the separator, the reserved markers, and whitespace.
pub open spec fn valid_branch_segment(seg: Seq<char>) -> bool {
    seg.len() > 0 && forall|k: int|
        0 <= k < seg.len() ==> (#[trigger] seg[k] != '/' && !is_marker_char(seg[k])
            && !is_space_char(seg[k]))
}

proof fn lemma_filter_clean_identity(s: Seq<char>)
    requires
        forall|k: int| 0 <= k < s.len() ==> !is_marker_char(#[trigger] s[k]),
    ensures
        strip_markers(s) == s,
    decreases s.len(),
{
    reveal(Seq::filter);
    if s.len() > 0 {
        lemma_filter_clean_identity(s.drop_last());
        assert(s.drop_last().push(s.last()) =~= s);
    } else {
        assert(s =~= Seq::<char>::empty());
    }
}

proof fn lemma_slash_join_clean(v: Seq<Seq<char>>)
    requires
        forall|i: int| 0 <= i < v.len() ==> valid_branch_segment(#[trigger] v[i]),
    ensures
        forall|k: int|
            0 <= k < slash_join(v).len() ==> (!is_marker_char(#[trigger] slash_join(v)[k])
                && !is_space_char(slash_join(v)[k])),
    decreases v.len(),
{
    if v.len() <= 1 {
    } else {
        lemma_slash_join_clean(v.drop_first());
        assert forall|k: int| 0 <= k < slash_join(v).len() implies (!is_marker_char(
            #[trigger] slash_join(v)[k],
        ) && !is_space_char(slash_join(v)[k])) by {
            let s = slash_join(v);
            let head = v[0];
            let rest = slash_join(v.drop_first());
            assert(s == head + seq!['/'] + rest);
            if k < head.len() {
                assert(s[k] == head[k]);
            } else if k == head.len() {
                assert(s[k] == '/');
            } else {
                assert(s[k] == rest[k - head.len() - 1]);
            }
        }
    }
}

proof fn lemma_strip_branch(v: Seq<Seq<char>>)
    requires
        forall|i: int| 0 <= i < v.len() ==> valid_branch_segment(#[trigger] v[i]),
    ensures
        strip_markers(branch_join(v)) == slash_join(v),
    decreases v.len(),
{
    if v.len() <= 1 {
        if v.len() == 1 {
            lemma_filter_clean_identity(v[0]);
        } else {
            lemma_filter_clean_identity(slash_join(v));
        }
    } else {
        lemma_strip_branch(v.drop_first());
        let head = v[0];
        let rest = branch_join(v.drop_first());
        assert(branch_join(v) == seq!['_'] + head + seq!['/'] + rest);
        Seq::filter_distributes_over_add(
            seq!['_'] + head + seq!['/'],
            rest,
            |c: char| !is_marker_char(c),
        );
        assert(seq!['_'] + head + seq!['/'] + rest =~= (seq!['_'] + head + seq!['/']) + rest);
        Seq::filter_distributes_over_add(seq!['_'] + head, seq!['/'], |c: char| !is_marker_char(c));
        assert(seq!['_'] + head + seq!['/'] =~= (seq!['_'] + head) + seq!['/']);
        Seq::filter_distributes_over_add(seq!['_'], head, |c: char| !is_marker_char(c));
        lemma_filter_clean_identity(head);
        lemma_filter_clean_identity(seq!['/']);
        reveal(Seq::filter);
        assert(seq!['_'].drop_last() =~= Seq::<char>::empty());
        assert(strip_markers(Seq::<char>::empty()) =~= Seq::<char>::empty());
        assert(strip_markers(seq!['_']) =~= Seq::<char>::empty());
        assert(strip_markers(branch_join(v)) =~= head + seq!['/'] + slash_join(v.drop_first()));
    }
}

proof fn lemma_split_slash_join(v: Seq<Seq<char>>)
    requires
        v.len() > 0,
        forall|i: int| 0 <= i < v.len() ==> valid_branch_segment(#[trigger] v[i]),
    ensures
        split_char_spec(slash_join(v), '/') == v,
    decreases v.len(),
{
    if v.len() == 1 {
        crate::text::lemma_split_whole(v[0], '/');
        assert(seq![v[0]] =~= v);
    } else {
        lemma_split_slash_join(v.drop_first());
        crate::text::lemma_split_step(v[0], slash_join(v.drop_first()), '/');
        assert(seq![v[0]] + v.drop_first() =~= v);
    }
}

/// Law of the branch-name mapping: for every valid absolute qualified path,
/// parsing the flat branch name back (as `from_branch` does) restores the
/// path exactly.
pub proof fn lemma_branch_round_trip(v: Seq<Seq<char>>)
    requires
        v.len() >= 2,
        v[0] == Seq::<char>::empty(),
        forall|i: int| 1 <= i < v.len() ==> valid_branch_segment(#[trigger] v[i]),
    ensures
        seq![Seq::<char>::empty()] + parse_segments(branch_of(v)) == v,
{
    let w = v.drop_first();
    assert(forall|i: int| 0 <= i < w.len() ==> valid_branch_segment(#[trigger] w[i]));
    assert(w.last().len() > 0);
    assert(trim_empty_ends(v) == w);
    lemma_strip_branch(w);
    let joined = slash_join(w);
    lemma_slash_join_clean(w);
    crate::text::lemma_trim_left_skip(joined, 0);
    crate::text::lemma_trim_right_take(joined, joined.len() as int);
    assert(joined.skip(0) =~= joined);
    assert(joined.take(joined.len() as int) =~= joined);
    assert(trim_spaces(joined) == joined);
    lemma_split_slash_join(w);
    assert(parse_segments(branch_of(v)) == w);
    assert(seq![Seq::<char>::empty()] + w =~= v);
}

/// Law of the branch-name mapping for relative paths: a path of valid
/// segments parses back from its branch name unchanged.
pub proof fn lemma_branch_round_trip_relative(v: Seq<Seq<char>>)
    requires
        v.len() >= 1,
        forall|i: int| 0 <= i < v.len() ==> valid_branch_segment(#[trigger] v[i]),
    ensures
        parse_segments(branch_of(v)) == v,
{
    assert(v[0].len() > 0);
    assert(v.last().len() > 0);
    assert(trim_empty_ends(v) == v);
    lemma_strip_branch(v);
    let joined = slash_join(v);
    lemma_slash_join_clean(v);
    crate::text::lemma_trim_left_skip(joined, 0);
    crate::text::lemma_trim_right_take(joined, joined.len() as int);
    assert(joined.skip(0) =~= joined);
    assert(joined.take(joined.len() as int) =~= joined);
    assert(trim_spaces(joined) == joined);
    lemma_split_slash_join(v);
}

/// A plain word — free of separators, markers and whitespace — parses into
/// exactly one segment, itself.
pub proof fn lemma_parse_segments_plain(s: Seq<char>)
    requires
        forall|k: int|
            0 <= k < s.len() ==> (#[trigger] s[k] != '/' && !is_marker_char(s[k]) && !is_space_char(
                s[k],
            )),
    ensures
        parse_segments(s) == seq![s],
{
    lemma_filter_clean_identity(s);
    crate::text::lemma_trim_left_skip(s, 0);
    crate::text::lemma_trim_right_take(s, s.len() as int);
    assert(s.skip(0) =~= s);
    assert(s.take(s.len() as int) =~= s);
    crate::text::lemma_split_whole(s, '/');
}

/// Removes the reserved marker characters from raw text.
fn strip_marker_chars(s: &str) -> (r: String)
    ensures
        r@ == strip_markers(s@),
{
    let n = s.unicode_len();
    let mut r = String::new();
    let mut i: usize = 0;
    proof {
        reveal(Seq::filter);
        assert(s@.take(0).filter(|c: char| !is_marker_char(c)) =~= Seq::<char>::empty());
    }
    while i < n
        invariant
            0 <= i <= n,
            n == s@.len(),
            r@ == s@.take(i as int).filter(|c: char| !is_marker_char(c)),
        decreases n - i,
    {
        let c = s.get_char(i);
        let ghost prev = r@;
        if !(c == '*' || c == '_') {
            r.push(c);
        }
        proof {
            reveal(Seq::filter);
            assert(s@.take(i + 1 as int).drop_last() =~= s@.take(i as int));
            assert(s@.take(i + 1 as int).last() == s@[i as int]);
        }
        i = i + 1;
    }
    proof {
        assert(s@.take(n as int) =~= s@);
    }
    r
}

} // verus!
