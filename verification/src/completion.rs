use vstd::prelude::*;

use crate::qualified_path::{
    dot_segment, dotdot_segment, slash_join, spec_add, QualifiedPath,
};
use crate::text::is_prefix_of;

verus! {

/// A prefix that ends in a relative operator is treated as a directory
/// reference, so the operator resolves before completion starts.
pub open spec fn transformed_prefix_of(prefix: Seq<Seq<char>>) -> Seq<Seq<char>> {
    if prefix.len() > 0 && (prefix.last() == dot_segment() || prefix.last() == dotdot_segment()) {
        prefix.push(Seq::<char>::empty())
    } else {
        prefix
    }
}

/// What one candidate path completes to, if it lies below the position the
/// prefix resolves to: the prefix's directory part with the candidate's
/// remainder resolved onto it.
pub open spec fn completion_of(
    refv: Seq<Seq<char>>,
    prefix: Seq<Seq<char>>,
    path: Seq<Seq<char>>,
) -> Option<Seq<Seq<char>>> {
    let tp = transformed_prefix_of(prefix);
    let cur = spec_add(refv, tp);
    let ci = cur.len() - 1;
    if is_prefix_of(slash_join(cur), slash_join(path)) && path.len() > ci {
        Some(spec_add(tp.take(tp.len() - 1), path.skip(ci)))
    } else {
        None
    }
}

/// The completions of a whole candidate stream, in order.
pub open spec fn completions_list(
    refv: Seq<Seq<char>>,
    prefix: Seq<Seq<char>>,
    ps: Seq<Seq<Seq<char>>>,
) -> Seq<Seq<Seq<char>>>
    decreases ps.len(),
{
    if ps.len() == 0 {
        Seq::empty()
    } else {
        match completion_of(refv, prefix, ps[0]) {
            Some(c) => seq![c] + completions_list(refv, prefix, ps.drop_first()),
            None => completions_list(refv, prefix, ps.drop_first()),
        }
    }
}

/// The strings kept in first-occurrence order, duplicates dropped.
pub open spec fn dedup_firsts(w: Seq<Seq<char>>) -> Seq<Seq<char>>
    decreases w.len(),
{
    if w.len() == 0 {
        Seq::empty()
    } else if w.drop_last().contains(w.last()) {
        dedup_firsts(w.drop_last())
    } else {
        dedup_firsts(w.drop_last()).push(w.last())
    }
}

proof fn lemma_dedup_membership(w: Seq<Seq<char>>)
    ensures
        forall|x: Seq<char>| #[trigger] dedup_firsts(w).contains(x) <==> w.contains(x),
    decreases w.len(),
{
    if w.len() > 0 {
        lemma_dedup_membership(w.drop_last());
        let sub = dedup_firsts(w.drop_last());
        assert forall|x: Seq<char>| #[trigger] dedup_firsts(w).contains(x) implies w.contains(
            x,
        ) by {
            if w.drop_last().contains(w.last()) {
                assert(sub.contains(x));
                let t = choose|t: int|
                    0 <= t < w.drop_last().len() && w.drop_last()[t] == x;
                assert(w[t] == x);
            } else {
                let j = choose|j: int|
                    0 <= j < dedup_firsts(w).len() && dedup_firsts(w)[j] == x;
                if j < sub.len() {
                    assert(sub.contains(x));
                    let t = choose|t: int|
                        0 <= t < w.drop_last().len() && w.drop_last()[t] == x;
                    assert(w[t] == x);
                } else {
                    assert(x == w.last());
                    assert(w[w.len() - 1] == x);
                }
            }
        }
        assert forall|x: Seq<char>| w.contains(x) implies #[trigger] dedup_firsts(w).contains(
            x,
        ) by {
            let t = choose|t: int| 0 <= t < w.len() && w[t] == x;
            if t < w.len() - 1 {
                assert(w.drop_last()[t] == x);
                assert(w.drop_last().contains(x));
                assert(sub.contains(x));
                let j = choose|j: int| 0 <= j < sub.len() && sub[j] == x;
                if !w.drop_last().contains(w.last()) {
                    assert(dedup_firsts(w)[j] == x);
                }
            } else {
                if w.drop_last().contains(w.last()) {
                    assert(sub.contains(x));
                } else {
                    assert(dedup_firsts(w)[sub.len() as int] == x);
                }
            }
        }
    }
}

/// The displayed shape of a completion when several compete: cut at the
/// prefix length, with a directory marker if the completion goes deeper.
pub open spec fn shortened(p: Seq<Seq<char>>, ci: int) -> Seq<char> {
    if p.len() == ci {
        slash_join(p.take(ci))
    } else {
        slash_join(p.take(ci).push(Seq::<char>::empty()))
    }
}

/// What `complete` answers: nothing without a match, the single match
/// spelled out, the shortened common forms when they differ, and all
/// matches spelled out when the shortened forms collapse into one.
pub open spec fn complete_spec(
    refv: Seq<Seq<char>>,
    prefix: Seq<Seq<char>>,
    ps: Seq<Seq<Seq<char>>>,
) -> Seq<Seq<char>> {
    let filtered = completions_list(refv, prefix, ps);
    if filtered.len() == 0 {
        Seq::empty()
    } else if filtered.len() == 1 {
        seq![slash_join(filtered[0])]
    } else {
        let all = dedup_firsts(
            Seq::new(filtered.len(), |k: int| shortened(filtered[k], prefix.len() as int)),
        );
        if all.len() == 1 {
            Seq::new(filtered.len(), |k: int| slash_join(filtered[k]))
        } else {
            all
        }
    }
}

/// Every listed path has at least the given number of segments.
pub open spec fn all_at_least(list: Seq<Seq<Seq<char>>>, n: int) -> bool {
    forall|k: int| 0 <= k < list.len() ==> (#[trigger] list[k]).len() >= n
}

/// Completes partially typed qualified paths relative to a fixed reference
/// position.
pub struct RelativePathCompleter {
    reference_path: QualifiedPath,
}

impl RelativePathCompleter {
    pub closed spec fn reference(&self) -> Seq<Seq<char>> {
        self.reference_path@
    }

    /// A completer anchored at a position; an empty reference is outside
    /// this constructor's domain.
    pub fn new(reference_path: QualifiedPath) -> (r: Self)
        requires
            reference_path@.len() > 0,
        ensures
            r.reference() == reference_path@,
    {
        Self { reference_path }
    }

    /// The candidates below the position the prefix resolves to, each
    /// rewritten into the prefix's own relative spelling.
    #[verifier::loop_isolation(false)]
    pub fn transform_and_filter_path(&self, prefix: QualifiedPath, paths: &Vec<QualifiedPath>) -> (r:
        Vec<QualifiedPath>)
        requires
            prefix@.len() > 0,
            spec_add(self.reference(), transformed_prefix_of(prefix@)).len() > 0,
        ensures
            r@.map_values(|p: QualifiedPath| p@) == completions_list(
                self.reference(),
                prefix@,
                paths@.map_values(|p: QualifiedPath| p@),
            ),
    {
        let ghost refv = self.reference();
        let ghost prefixv = prefix@;
        let ghost ps = paths@.map_values(|p: QualifiedPath| p@);
        let last_is_op = {
            match prefix.last() {
                Some(seg) => {
                    proof {
                        reveal_strlit(".");
                        reveal_strlit("..");
                        assert("."@ =~= dot_segment());
                        assert(".."@ =~= dotdot_segment());
                    }
                    *seg == String::from_str(".") || *seg == String::from_str("..")
                },
                None => false,
            }
        };
        let transformed_prefix = if last_is_op {
            prefix.as_dir()
        } else {
            prefix
        };
        proof {
            assert(transformed_prefix@ == transformed_prefix_of(prefixv));
        }
        let current_position = self.reference_path.clone().add(transformed_prefix.clone());
        let current_index = current_position.len() - 1;
        let ghost ci = current_index as int;
        let n = paths.len();
        let mut r: Vec<QualifiedPath> = Vec::new();
        let mut i: usize = 0;
        proof {
            assert(ps.skip(0) =~= ps);
            assert(r@.map_values(|p: QualifiedPath| p@) + completions_list(refv, prefixv, ps)
                =~= completions_list(refv, prefixv, ps));
        }
        while i < n
            invariant
                0 <= i <= n,
                n == ps.len(),
                completions_list(refv, prefixv, ps) == r@.map_values(|p: QualifiedPath| p@)
                    + completions_list(refv, prefixv, ps.skip(i as int)),
            decreases n - i,
        {
            let ghost before = r@.map_values(|p: QualifiedPath| p@);
            proof {
                assert(ps[i as int] == paths@[i as int]@);
                assert(ps.skip(i as int)[0] == ps[i as int]);
                assert(ps.skip(i as int).drop_first() =~= ps.skip(i + 1 as int));
            }
            let path = &paths[i];
            let matches_position = path.starts_with(&current_position);
            let deeper = path.len() > current_index;
            if matches_position && deeper {
                let stem = transformed_prefix.strip_n_right(transformed_prefix.len() - 1);
                let tail = path.strip_n_left(current_index);
                let built = stem.add(tail);
                r.push(built);
                proof {
                    assert(r@.map_values(|p: QualifiedPath| p@) =~= before.push(
                        completion_of(refv, prefixv, ps[i as int])->Some_0,
                    ));
                    assert(before + (seq![
                        completion_of(refv, prefixv, ps[i as int])->Some_0,
                    ] + completions_list(refv, prefixv, ps.skip(i + 1 as int))) =~= (before
                        + seq![completion_of(refv, prefixv, ps[i as int])->Some_0])
                        + completions_list(refv, prefixv, ps.skip(i + 1 as int)));
                }
            }
            i = i + 1;
        }
        proof {
            assert(completions_list(refv, prefixv, ps.skip(n as int)) =~= Seq::<
                Seq<Seq<char>>,
            >::empty());
            assert(r@.map_values(|p: QualifiedPath| p@) + Seq::<Seq<Seq<char>>>::empty()
                =~= r@.map_values(|p: QualifiedPath| p@));
        }
        r
    }

    /// Completes one partially typed prefix against the candidate paths.
    #[verifier::loop_isolation(false)]
    pub fn complete(&self, prefix: QualifiedPath, paths: &Vec<QualifiedPath>) -> (r: Vec<String>)
        requires
            prefix@.len() > 0,
            spec_add(self.reference(), transformed_prefix_of(prefix@)).len() > 0,
            all_at_least(
                completions_list(
                    self.reference(),
                    prefix@,
                    paths@.map_values(|p: QualifiedPath| p@),
                ),
                prefix@.len() as int,
            ),
        ensures
            r@.map_values(|s: String| s@) == complete_spec(
                self.reference(),
                prefix@,
                paths@.map_values(|p: QualifiedPath| p@),
            ),
    {
        let ghost refv = self.reference();
        let ghost prefixv = prefix@;
        let ghost ps = paths@.map_values(|p: QualifiedPath| p@);
        let ghost filtered_spec = completions_list(refv, prefixv, ps);
        let current_index = prefix.len();
        let filtered = self.transform_and_filter_path(prefix, paths);
        let n = filtered.len();
        if n == 0 {
            let r: Vec<String> = Vec::new();
            proof {
                assert(r@.map_values(|s: String| s@) =~= complete_spec(refv, prefixv, ps));
            }
            return r;
        }
        if n == 1 {
            let mut r: Vec<String> = Vec::new();
            r.push(filtered[0].to_string());
            proof {
                assert(filtered@[0]@ == filtered_spec[0]);
                assert(r@.map_values(|s: String| s@) =~= complete_spec(refv, prefixv, ps));
            }
            return r;
        }
        // several candidates: offer their shortened common forms
        let mut all: Vec<String> = Vec::new();
        let ghost shorts = Seq::new(
            filtered_spec.len(),
            |k: int| shortened(filtered_spec[k], prefixv.len() as int),
        );
        let mut i: usize = 0;
        proof {
            assert(shorts.take(0) =~= Seq::<Seq<char>>::empty());
            assert(all@.map_values(|s: String| s@) =~= dedup_firsts(shorts.take(0)));
            lemma_dedup_membership(shorts);
        }
        while i < n
            invariant
                0 <= i <= n,
                n == filtered_spec.len(),
                filtered@.map_values(|p: QualifiedPath| p@) == filtered_spec,
                filtered@.len() == n,
                all@.map_values(|s: String| s@) == dedup_firsts(shorts.take(i as int)),
            decreases n - i,
        {
            proof {
                assert(filtered@[i as int]@ == filtered_spec[i as int]);
                assert(filtered_spec[i as int].len() >= prefixv.len());
                assert(shorts.take(i + 1 as int).drop_last() =~= shorts.take(i as int));
                assert(shorts.take(i + 1 as int).last() == shorts[i as int]);
            }
            let p = &filtered[i];
            let to_index = p.strip_n_right(current_index);
            let shown = if p.len() == current_index {
                to_index.to_string()
            } else {
                to_index.as_dir().to_string()
            };
            proof {
                assert(shown@ == shorts[i as int]);
            }
            let ghost before = all@.map_values(|s: String| s@);
            let mut seen = false;
            let m = all.len();
            let mut k: usize = 0;
            while k < m
                invariant
                    0 <= k <= m,
                    m == all@.len(),
                    all@.map_values(|s: String| s@) == before,
                    shown@ == shorts[i as int],
                    seen <==> exists|t: int| 0 <= t < k && before[t] == shown@,
                decreases m - k,
            {
                if all[k] == shown {
                    proof {
                        assert(before[k as int] == shown@);
                    }
                    seen = true;
                }
                k = k + 1;
            }
            proof {
                if seen {
                    let t = choose|t: int| 0 <= t < before.len() && before[t] == shown@;
                    lemma_dedup_membership(shorts.take(i as int));
                    assert(dedup_firsts(shorts.take(i as int)).contains(shown@));
                    assert(shorts.take(i as int).contains(shown@));
                } else {
                    if shorts.take(i as int).contains(shown@) {
                        lemma_dedup_membership(shorts.take(i as int));
                        assert(dedup_firsts(shorts.take(i as int)).contains(shown@));
                        let t = choose|t: int| 0 <= t < before.len() && before[t] == shown@;
                        assert(false);
                    }
                }
            }
            if !seen {
                all.push(shown);
                proof {
                    assert(all@.map_values(|s: String| s@) =~= before.push(shorts[i as int]));
                }
            }
            i = i + 1;
        }
        proof {
            assert(shorts.take(n as int) =~= shorts);
        }
        if all.len() == 1 {
            let mut r: Vec<String> = Vec::new();
            let mut k: usize = 0;
            while k < n
                invariant
                    0 <= k <= n,
                    n == filtered_spec.len(),
                    filtered@.map_values(|p: QualifiedPath| p@) == filtered_spec,
                    filtered@.len() == n,
                    r@.map_values(|s: String| s@) == Seq::new(
                        k as nat,
                        |t: int| slash_join(filtered_spec[t]),
                    ),
                decreases n - k,
            {
                let ghost before = r@.map_values(|s: String| s@);
                proof {
                    assert(filtered@[k as int]@ == filtered_spec[k as int]);
                }
                r.push(filtered[k].to_string());
                proof {
                    assert(r@.map_values(|s: String| s@) =~= before.push(
                        slash_join(filtered_spec[k as int]),
                    ));
                    assert(before.push(slash_join(filtered_spec[k as int])) =~= Seq::new(
                        (k + 1) as nat,
                        |t: int| slash_join(filtered_spec[t]),
                    ));
                }
                k = k + 1;
            }
            proof {
                assert(Seq::new(n as nat, |t: int| slash_join(filtered_spec[t]))
                    =~= complete_spec(refv, prefixv, ps));
            }
            r
        } else {
            proof {
                assert(all@.map_values(|s: String| s@) =~= complete_spec(refv, prefixv, ps));
            }
            all
        }
    }
}

} // verus!
