use vstd::prelude::*;

verus! {

/// Relies on std's String::push: appends the given char to the end of the string.
pub assume_specification[ String::push ](s: &mut String, ch: char)
    ensures
        final(s)@ == old(s)@.push(ch),
;

/// The whitespace characters that are trimmed from the ends of raw path text.
pub open spec fn is_space_char(c: char) -> bool {
    c == ' ' || c == '\t' || c == '\n' || c == '\r'
}

pub fn is_space(c: char) -> (r: bool)
    ensures
        r == is_space_char(c),
{
    c == ' ' || c == '\t' || c == '\n' || c == '\r'
}

/// Index of the first occurrence of `sep` in `s`, or `s.len()` if there is none.
pub open spec fn first_at(s: Seq<char>, sep: char) -> int
    decreases s.len(),
{
    if s.len() == 0 {
        0
    } else if s[0] == sep {
        0
    } else {
        1 + first_at(s.drop_first(), sep)
    }
}

pub proof fn lemma_first_at_bounds(s: Seq<char>, sep: char)
    ensures
        0 <= first_at(s, sep) <= s.len(),
        first_at(s, sep) < s.len() ==> s[first_at(s, sep)] == sep,
        forall|k: int| 0 <= k < first_at(s, sep) ==> s[k] != sep,
    decreases s.len(),
{
    if s.len() > 0 && s[0] != sep {
        lemma_first_at_bounds(s.drop_first(), sep);
        assert forall|k: int| 0 <= k < first_at(s, sep) implies s[k] != sep by {
            if k > 0 {
                assert(s.drop_first()[k - 1] == s[k]);
            }
        }
    }
}

/// The pieces of `s` between occurrences of `sep`: splitting the empty
/// sequence yields one empty piece, as `str::split` does.
pub open spec fn split_char_spec(s: Seq<char>, sep: char) -> Seq<Seq<char>>
    decreases s.len(),
{
    let i = first_at(s, sep);
    if 0 <= i < s.len() {
        seq![s.take(i)] + split_char_spec(s.skip(i + 1), sep)
    } else {
        seq![s]
    }
}

pub proof fn lemma_first_at_concat(x: Seq<char>, y: Seq<char>, sep: char)
    requires
        forall|k: int| 0 <= k < x.len() ==> x[k] != sep,
    ensures
        first_at(x + y, sep) == x.len() + first_at(y, sep),
    decreases x.len(),
{
    if x.len() == 0 {
        assert(x + y =~= y);
    } else {
        assert((x + y)[0] == x[0]);
        assert((x + y).drop_first() =~= x.drop_first() + y);
        lemma_first_at_concat(x.drop_first(), y, sep);
    }
}

/// A separator after a separator-free prefix splits the prefix off whole.
pub proof fn lemma_split_step(x: Seq<char>, rest: Seq<char>, sep: char)
    requires
        forall|k: int| 0 <= k < x.len() ==> x[k] != sep,
    ensures
        split_char_spec(x + seq![sep] + rest, sep) == seq![x] + split_char_spec(rest, sep),
{
    let s = x + seq![sep] + rest;
    assert(s =~= x + (seq![sep] + rest));
    lemma_first_at_concat(x, seq![sep] + rest, sep);
    assert((seq![sep] + rest)[0] == sep);
    assert(first_at(seq![sep] + rest, sep) == 0);
    assert(first_at(s, sep) == x.len());
    assert(s.take(x.len() as int) =~= x);
    assert(s.skip(x.len() + 1 as int) =~= rest);
}

/// A separator-free sequence is one single piece.
pub proof fn lemma_split_whole(x: Seq<char>, sep: char)
    requires
        forall|k: int| 0 <= k < x.len() ==> x[k] != sep,
    ensures
        split_char_spec(x, sep) == seq![x],
{
    assert(x + Seq::<char>::empty() =~= x);
    lemma_first_at_concat(x, Seq::<char>::empty(), sep);
}

/// `s` with its leading whitespace removed.
pub open spec fn trim_left(s: Seq<char>) -> Seq<char>
    decreases s.len(),
{
    if s.len() > 0 && is_space_char(s[0]) {
        trim_left(s.drop_first())
    } else {
        s
    }
}

/// `s` with its trailing whitespace removed.
pub open spec fn trim_right(s: Seq<char>) -> Seq<char>
    decreases s.len(),
{
    if s.len() > 0 && is_space_char(s.last()) {
        trim_right(s.drop_last())
    } else {
        s
    }
}

/// `s` with whitespace removed from both ends.
pub open spec fn trim_spaces(s: Seq<char>) -> Seq<char> {
    trim_right(trim_left(s))
}

pub proof fn lemma_trim_left_skip(s: Seq<char>, a: int)
    requires
        0 <= a <= s.len(),
        forall|k: int| 0 <= k < a ==> is_space_char(s[k]),
        a < s.len() ==> !is_space_char(s[a]),
    ensures
        trim_left(s) == s.skip(a),
    decreases a,
{
    if a == 0 {
        assert(s.skip(0) =~= s);
    } else {
        assert(is_space_char(s[0]));
        assert(s.drop_first() =~= s.skip(1));
        lemma_trim_left_skip(s.skip(1), a - 1);
        assert(s.skip(1).skip(a - 1) =~= s.skip(a));
    }
}

pub proof fn lemma_trim_right_take(s: Seq<char>, b: int)
    requires
        0 <= b <= s.len(),
        forall|k: int| b <= k < s.len() ==> is_space_char(s[k]),
        b > 0 ==> !is_space_char(s[b - 1]),
    ensures
        trim_right(s) == s.take(b),
    decreases s.len() - b,
{
    if b == s.len() {
        assert(s.take(b) =~= s);
    } else {
        assert(is_space_char(s.last()));
        assert(s.drop_last() =~= s.take(s.len() - 1));
        lemma_trim_right_take(s.take(s.len() - 1), b);
        assert(s.take(s.len() - 1).take(b) =~= s.take(b));
    }
}

/// Splits `s` at each occurrence of `sep`, keeping empty pieces.
pub fn split_char(s: &str, sep: char) -> (r: Vec<String>)
    ensures
        r@.map_values(|x: String| x@) == split_char_spec(s@, sep),
{
    let n = s.unicode_len();
    let mut out: Vec<String> = Vec::new();
    let mut cur: String = String::new();
    let mut i: usize = 0;
    proof {
        assert(cur@ + s@.skip(0) =~= s@);
        assert(out@.map_values(|x: String| x@) + split_char_spec(cur@ + s@.skip(0), sep)
            =~= split_char_spec(s@, sep));
    }
    while i < n
        invariant
            0 <= i <= n,
            n == s@.len(),
            forall|k: int| 0 <= k < cur@.len() ==> cur@[k] != sep,
            split_char_spec(s@, sep) == out@.map_values(|x: String| x@) + split_char_spec(
                cur@ + s@.skip(i as int),
                sep,
            ),
        decreases n - i,
    {
        let c = s.get_char(i);
        let ghost prev_cur = cur@;
        let ghost prev_out = out@;
        if c == sep {
            out.push(cur);
            cur = String::new();
            proof {
                assert(prev_cur + s@.skip(i as int) =~= prev_cur + seq![sep] + (cur@ + s@.skip(
                    i + 1,
                )));
                lemma_split_step(prev_cur, cur@ + s@.skip(i + 1), sep);
                assert(out@.map_values(|x: String| x@) =~= prev_out.map_values(|x: String| x@)
                    + seq![prev_cur]);
            }
        } else {
            cur.push(c);
            proof {
                assert(cur@ + s@.skip(i + 1) =~= prev_cur + s@.skip(i as int));
            }
        }
        i = i + 1;
    }
    proof {
        assert(cur@ + s@.skip(n as int) =~= cur@);
        lemma_split_whole(cur@, sep);
    }
    out.push(cur);
    proof {
        assert(out@.map_values(|x: String| x@) =~= split_char_spec(s@, sep));
    }
    out
}

/// Removes whitespace from both ends of `s`.
pub fn trim_space_ends(s: &str) -> (r: String)
    ensures
        r@ == trim_spaces(s@),
{
    let n = s.unicode_len();
    let mut a: usize = 0;
    while a < n && is_space(s.get_char(a))
        invariant
            0 <= a <= n,
            n == s@.len(),
            forall|k: int| 0 <= k < a ==> is_space_char(s@[k]),
        decreases n - a,
    {
        a = a + 1;
    }
    let mut b: usize = n;
    while b > a && is_space(s.get_char(b - 1))
        invariant
            a <= b <= n,
            n == s@.len(),
            forall|k: int| b <= k < n ==> is_space_char(s@[k]),
        decreases b,
    {
        b = b - 1;
    }
    let piece = s.substring_char(a, b);
    let r = piece.to_owned();
    proof {
        lemma_trim_left_skip(s@, a as int);
        let t = s@.skip(a as int);
        if b == a {
            // everything after the leading spaces is whitespace
            lemma_trim_right_take(t, 0);
        } else {
            lemma_trim_right_take(t, b - a);
        }
        assert(t.take(b - a) =~= s@.subrange(a as int, b as int));
    }
    r
}

/// True if `p` is a prefix of `s`, character by character.
pub open spec fn is_prefix_of(p: Seq<char>, s: Seq<char>) -> bool {
    p.len() <= s.len() && s.take(p.len() as int) == p
}

pub fn str_starts_with(s: &str, p: &str) -> (r: bool)
    ensures
        r == is_prefix_of(p@, s@),
{
    let sn = s.unicode_len();
    let pn = p.unicode_len();
    if pn > sn {
        proof {
            assert(!is_prefix_of(p@, s@));
        }
        return false;
    }
    let mut i: usize = 0;
    while i < pn
        invariant
            0 <= i <= pn <= sn,
            sn == s@.len(),
            pn == p@.len(),
            forall|k: int| 0 <= k < i ==> s@[k] == p@[k],
        decreases pn - i,
    {
        if s.get_char(i) != p.get_char(i) {
            proof {
                assert(s@.take(pn as int)[i as int] != p@[i as int]);
            }
            return false;
        }
        i = i + 1;
    }
    proof {
        assert(s@.take(pn as int) =~= p@);
    }
    true
}

/// True if `p` occurs in `s` as a contiguous run.
pub open spec fn is_substring_of(p: Seq<char>, s: Seq<char>) -> bool {
    exists|k: int| 0 <= k <= s.len() - p.len() && #[trigger] s.subrange(k, k + p.len()) == p
}

pub fn str_contains(s: &str, p: &str) -> (r: bool)
    ensures
        r == is_substring_of(p@, s@),
{
    let sn = s.unicode_len();
    let pn = p.unicode_len();
    if pn > sn {
        proof {
            assert(!is_substring_of(p@, s@));
        }
        return false;
    }
    let mut k: usize = 0;
    while k <= sn - pn
        invariant
            0 <= k <= sn - pn + 1,
            pn <= sn,
            sn == s@.len(),
            pn == p@.len(),
            forall|t: int| 0 <= t < k ==> #[trigger] s@.subrange(t, t + p@.len()) != p@,
        decreases sn + 1 - pn - k,
    {
        let mut j: usize = 0;
        let mut all = true;
        while j < pn
            invariant
                0 <= j <= pn,
                k + pn <= sn,
                sn == s@.len(),
                pn == p@.len(),
                all <==> forall|t: int| 0 <= t < j ==> s@[k + t] == p@[t],
            decreases pn - j,
        {
            if s.get_char(k + j) != p.get_char(j) {
                proof {
                    assert(s@[k + j] != p@[j as int]);
                }
                all = false;
            }
            j = j + 1;
        }
        if all {
            proof {
                assert(s@.subrange(k as int, k + p@.len()) =~= p@);
            }
            return true;
        }
        proof {
            if s@.subrange(k as int, k + p@.len()) == p@ {
                assert forall|t: int| 0 <= t < pn implies s@[k + t] == p@[t] by {
                    assert(s@.subrange(k as int, k + p@.len())[t] == s@[k + t]);
                }
                assert(false);
            }
        }
        k = k + 1;
    }
    proof {
        if is_substring_of(p@, s@) {
            let t = choose|t: int|
                0 <= t <= s@.len() - p@.len() && #[trigger] s@.subrange(t, t + p@.len()) == p@;
            assert(false);
        }
    }
    false
}

/// The lines of `s`, split at newline characters.
pub fn split_lines(s: &str) -> (r: Vec<String>)
    ensures
        r@.map_values(|x: String| x@) == split_char_spec(s@, '\n'),
{
    split_char(s, '\n')
}

} // verus!
