use vstd::prelude::*;

use crate::commit::Commit;
use crate::derivation::DerivationFlowError;
use crate::qualified_path::{parse_segments, QualifiedPath};
use crate::text::{
    is_substring_of, split_char_spec, split_lines, str_contains, trim_space_ends, trim_spaces,
};

verus! {

/// The marker line that opens an old-style derivation commit message.
pub open spec fn untie_comment_line() -> Seq<char> {
    "# DO NOT EDIT OR REMOVE THIS COMMIT"@
}

/// The marker line that closes a finished derivation in the old style.
pub open spec fn untie_finished_line() -> Seq<char> {
    "DERIVATION FINISHED"@
}

/// The feature names of a finished-derivation message: its lines, the two
/// marker lines dropped, each parsed as a path.
pub open spec fn extracted_features(msg: Seq<char>) -> Seq<Seq<Seq<char>>> {
    split_char_spec(trim_spaces(msg), '\n').filter(
        |line: Seq<char>| line != untie_comment_line() && line != untie_finished_line(),
    ).map_values(|line: Seq<char>| parse_segments(line))
}

/// Reads the feature names out of a finished-derivation commit message.
#[verifier::loop_isolation(false)]
pub fn extract_feature_names(message: &str) -> (r: Vec<QualifiedPath>)
    ensures
        r@.map_values(|p: QualifiedPath| p@) == extracted_features(message@),
{
    let trimmed = trim_space_ends(message);
    let lines = split_lines(trimmed.as_str());
    let ghost ls = split_char_spec(trim_spaces(message@), '\n');
    let ghost pred = |line: Seq<char>| line != untie_comment_line() && line
        != untie_finished_line();
    let n = lines.len();
    let mut r: Vec<QualifiedPath> = Vec::new();
    let mut i: usize = 0;
    proof {
        reveal(Seq::filter);
        assert(ls.take(0).filter(pred) =~= Seq::<Seq<char>>::empty());
        assert(r@.map_values(|p: QualifiedPath| p@) =~= ls.take(0).filter(pred).map_values(
            |line: Seq<char>| parse_segments(line),
        ));
    }
    while i < n
        invariant
            0 <= i <= n,
            n == ls.len(),
            lines@.map_values(|x: String| x@) == ls,
            lines@.len() == n,
            r@.map_values(|p: QualifiedPath| p@) == ls.take(i as int).filter(pred).map_values(
                |line: Seq<char>| parse_segments(line),
            ),
        decreases n - i,
    {
        let ghost before = r@.map_values(|p: QualifiedPath| p@);
        proof {
            assert(ls[i as int] == lines@[i as int]@);
        }
        let line = &lines[i];
        let keep = !(*line == String::from_str("# DO NOT EDIT OR REMOVE THIS COMMIT") || *line
            == String::from_str("DERIVATION FINISHED"));
        if keep {
            r.push(QualifiedPath::from_raw(line.as_str()));
            proof {
                assert(r@.map_values(|p: QualifiedPath| p@) =~= before.push(
                    parse_segments(ls[i as int]),
                ));
            }
        }
        proof {
            reveal(Seq::filter);
            assert(ls.take(i + 1 as int).drop_last() =~= ls.take(i as int));
            assert(ls.take(i + 1 as int).last() == ls[i as int]);
            if pred(ls[i as int]) {
                assert(ls.take(i as int).filter(pred).push(ls[i as int]).map_values(
                    |line: Seq<char>| parse_segments(line),
                ) =~= ls.take(i as int).filter(pred).map_values(
                    |line: Seq<char>| parse_segments(line),
                ).push(parse_segments(ls[i as int])));
            }
        }
        i = i + 1;
    }
    proof {
        assert(ls.take(n as int) =~= ls);
    }
    r
}

/// Walking the history oldest-first, the untied commit is valid only after
/// some finished derivation; the derivation commits themselves cannot be
/// untied. The collected features are all that the finished derivations up
/// to the match name. The result grades into: not found at all, the hash
/// names a derivation commit itself, or the collected feature names.
pub open spec fn untie_scan_spec(
    hashes: Seq<Seq<char>>,
    msgs: Seq<Seq<char>>,
    hash: Seq<char>,
    i: int,
    found: bool,
    acc: Seq<Seq<Seq<char>>>,
) -> Option<Option<Seq<Seq<Seq<char>>>>>
    decreases msgs.len() - i,
{
    if i < 0 || i >= msgs.len() {
        None
    } else if is_substring_of(untie_finished_line(), msgs[i]) {
        if hashes[i] == hash {
            Some(None)
        } else {
            untie_scan_spec(hashes, msgs, hash, i + 1, true, acc + extracted_features(msgs[i]))
        }
    } else if found && hashes[i] == hash {
        Some(Some(acc))
    } else {
        untie_scan_spec(hashes, msgs, hash, i + 1, found, acc)
    }
}

/// Scans the history, oldest first, for the commit to untie: an error when
/// the commit does not follow a finished derivation or is itself a
/// derivation commit; otherwise the features those derivations named.
#[verifier::loop_isolation(false)]
pub fn scan_untie_commits(commits_oldest_first: &Vec<Commit>, hash: &String) -> (r: Result<
    Vec<QualifiedPath>,
    DerivationFlowError,
>)
    ensures
        ({
            let hs = commits_oldest_first@.map_values(|c: Commit| c.spec_hash());
            let ms = commits_oldest_first@.map_values(|c: Commit| c.spec_message());
            let outcome = untie_scan_spec(hs, ms, hash@, 0, false, Seq::empty());
            &&& (r is Err <==> !(outcome matches Some(inner) && inner is Some))
            &&& (r matches Ok(v) ==> outcome == Some(
                Some(v@.map_values(|p: QualifiedPath| p@)),
            ))
        }),
{
    let ghost hs = commits_oldest_first@.map_values(|c: Commit| c.spec_hash());
    let ghost ms = commits_oldest_first@.map_values(|c: Commit| c.spec_message());
    let n = commits_oldest_first.len();
    let mut found = false;
    let mut features: Vec<QualifiedPath> = Vec::new();
    let mut i: usize = 0;
    proof {
        assert(features@.map_values(|p: QualifiedPath| p@) =~= Seq::<Seq<Seq<char>>>::empty());
    }
    while i < n
        invariant
            0 <= i <= n,
            n == ms.len(),
            n == hs.len(),
            commits_oldest_first@.len() == n,
            untie_scan_spec(hs, ms, hash@, 0, false, Seq::empty()) == untie_scan_spec(
                hs,
                ms,
                hash@,
                i as int,
                found,
                features@.map_values(|p: QualifiedPath| p@),
            ),
        decreases n - i,
    {
        proof {
            assert(ms[i as int] == commits_oldest_first@[i as int].spec_message());
            assert(hs[i as int] == commits_oldest_first@[i as int].spec_hash());
        }
        let commit = &commits_oldest_first[i];
        let is_derivation = str_contains(commit.get_message().as_str(), "DERIVATION FINISHED");
        proof {
            reveal_strlit("DERIVATION FINISHED");
        }
        if is_derivation {
            if *commit.get_hash() == *hash {
                return Err(DerivationFlowError::new("a derivation commit cannot be untied"));
            }
            let ghost before = features@.map_values(|p: QualifiedPath| p@);
            let mut extra = extract_feature_names(commit.get_message().as_str());
            features.append(&mut extra);
            found = true;
            proof {
                assert(features@.map_values(|p: QualifiedPath| p@) =~= before
                    + extracted_features(ms[i as int]));
            }
        } else if found && *commit.get_hash() == *hash {
            return Ok(features);
        }
        i = i + 1;
    }
    Err(DerivationFlowError::new("commit not found after an initial derivation"))
}

/// The features that manage every file the commit touched; only into those
/// can the commit be untied.
pub open spec fn manages_all(managed: Seq<Seq<char>>, files: Seq<Seq<char>>) -> bool {
    forall|k: int| 0 <= k < files.len() ==> managed.contains(#[trigger] files[k])
}

/// Whether some feature with this path manages every changed file.
pub open spec fn is_covered_candidate(
    features: Seq<QualifiedPath>,
    managed: Seq<Vec<String>>,
    files: Seq<String>,
    pv: Seq<Seq<char>>,
) -> bool {
    exists|j: int|
        0 <= j < features.len() && (#[trigger] features[j])@ == pv && manages_all(
            managed[j]@.map_values(|f: String| f@),
            files.map_values(|f: String| f@),
        )
}

/// Keeps the candidate features whose managed file lists cover every file
/// the commit changed.
#[verifier::loop_isolation(false)]
pub fn filter_untie_candidates(
    features: &Vec<QualifiedPath>,
    managed: &Vec<Vec<String>>,
    files_of_commit: &Vec<String>,
) -> (r: Vec<QualifiedPath>)
    requires
        managed@.len() == features@.len(),
    ensures
        forall|k: int|
            0 <= k < r@.len() ==> is_covered_candidate(
                features@,
                managed@,
                files_of_commit@,
                (#[trigger] r@[k])@,
            ),
        forall|j: int|
            0 <= j < features@.len() && manages_all(
                (#[trigger] managed@[j])@.map_values(|f: String| f@),
                files_of_commit@.map_values(|f: String| f@),
            ) ==> exists|k: int| 0 <= k < r@.len() && (#[trigger] r@[k])@ == features@[j]@,
{
    let n = features.len();
    let mut r: Vec<QualifiedPath> = Vec::new();
    let ghost mut kept: Seq<int> = Seq::empty();
    let mut i: usize = 0;
    while i < n
        invariant
            0 <= i <= n,
            n == features@.len(),
            managed@.len() == n,
            r@.len() == kept.len(),
            forall|k: int|
                0 <= k < kept.len() ==> 0 <= #[trigger] kept[k] < features@.len() && (r@[k])@
                    == features@[kept[k]]@ && manages_all(
                    managed@[kept[k]]@.map_values(|f: String| f@),
                    files_of_commit@.map_values(|f: String| f@),
                ),
            forall|j: int|
                0 <= j < i && manages_all(
                    (#[trigger] managed@[j])@.map_values(|f: String| f@),
                    files_of_commit@.map_values(|f: String| f@),
                ) ==> kept.contains(j),
        decreases n - i,
    {
        let files = &managed[i];
        let m = files_of_commit.len();
        let mut all = true;
        let mut k: usize = 0;
        while k < m
            invariant
                0 <= k <= m,
                0 <= i < n,
                managed@.len() == n,
                m == files_of_commit@.len(),
                files == &managed@[i as int],
                all <==> forall|t: int|
                    0 <= t < k ==> managed@[i as int]@.map_values(|f: String| f@).contains(
                        (#[trigger] files_of_commit@[t])@,
                    ),
            decreases m - k,
        {
            let target = &files_of_commit[k];
            let mut present = false;
            let fm = files.len();
            let mut t: usize = 0;
            while t < fm
                invariant
                    0 <= t <= fm,
                    0 <= i < n,
                    managed@.len() == n,
                    fm == managed@[i as int]@.len(),
                    files == &managed@[i as int],
                    present <==> exists|x: int|
                        0 <= x < t && (#[trigger] managed@[i as int]@[x])@ == target@,
                decreases fm - t,
            {
                if files[t] == *target {
                    proof {
                        assert((managed@[i as int]@[t as int])@ == target@);
                    }
                    present = true;
                }
                t = t + 1;
            }
            proof {
                let mf = managed@[i as int]@.map_values(|f: String| f@);
                let cf = files_of_commit@.map_values(|f: String| f@);
                assert(cf[k as int] == target@);
                if present {
                    let x = choose|x: int| 0 <= x < fm && (#[trigger] managed@[i as int]@[x])@
                        == target@;
                    assert(mf[x] == target@);
                    assert(mf.contains(cf[k as int]));
                } else {
                    if mf.contains(cf[k as int]) {
                        let x = choose|x: int| 0 <= x < mf.len() && mf[x] == cf[k as int];
                        assert((managed@[i as int]@[x])@ == target@);
                        assert(false);
                    }
                }
            }
            if !present {
                all = false;
            }
            k = k + 1;
        }
        let ghost pre_kept = kept;
        proof {
            let mf = managed@[i as int]@.map_values(|f: String| f@);
            let cf = files_of_commit@.map_values(|f: String| f@);
            if all {
                assert forall|t: int| 0 <= t < cf.len() implies mf.contains(#[trigger] cf[t]) by {
                    assert(cf[t] == (files_of_commit@[t])@);
                }
                assert(manages_all(mf, cf));
            } else {
                if manages_all(mf, cf) {
                    let t = choose|t: int|
                        0 <= t < k && !mf.contains((#[trigger] files_of_commit@[t])@);
                    assert(cf[t] == (files_of_commit@[t])@);
                    assert(false);
                }
            }
        }
        if all {
            r.push(features[i].clone());
            proof {
                kept = pre_kept.push(i as int);
                assert(kept[pre_kept.len() as int] == i as int);
                assert forall|j: int|
                    0 <= j < i + 1 && manages_all(
                        (#[trigger] managed@[j])@.map_values(|f: String| f@),
                        files_of_commit@.map_values(|f: String| f@),
                    ) implies kept.contains(j) by {
                    if j < i {
                        let k0 = choose|k0: int| 0 <= k0 < pre_kept.len() && pre_kept[k0] == j;
                        assert(kept[k0] == j);
                    } else {
                        assert(kept[pre_kept.len() as int] == j);
                    }
                }
            }
        } else {
            proof {
                assert forall|j: int|
                    0 <= j < i + 1 && manages_all(
                        (#[trigger] managed@[j])@.map_values(|f: String| f@),
                        files_of_commit@.map_values(|f: String| f@),
                    ) implies kept.contains(j) by {
                    assert(j < i);
                }
            }
        }
        i = i + 1;
    }
    proof {
        assert(r@.len() == kept.len());
        assert forall|k: int| 0 <= k < r@.len() implies is_covered_candidate(
            features@,
            managed@,
            files_of_commit@,
            (#[trigger] r@[k])@,
        ) by {
            let j0 = kept[k];
            assert(0 <= j0 < features@.len());
            assert((features@[j0])@ == (r@[k])@);
            assert(manages_all(
                managed@[j0]@.map_values(|f: String| f@),
                files_of_commit@.map_values(|f: String| f@),
            ));
        }
        assert forall|j: int|
            0 <= j < features@.len() && manages_all(
                (#[trigger] managed@[j])@.map_values(|f: String| f@),
                files_of_commit@.map_values(|f: String| f@),
            ) implies exists|k: int| 0 <= k < r@.len() && (#[trigger] r@[k])@
            == features@[j]@ by {
            let k0 = choose|k0: int| 0 <= k0 < kept.len() && kept[k0] == j;
            assert((r@[k0])@ == features@[j]@);
        }
    }
    r
}

/// Chooses the untie target: a feature named by hand wins; otherwise there
/// must be exactly one candidate, and none or several is an error asking
/// for a manual choice.
pub fn choose_untie_target(filtered: &Vec<QualifiedPath>, maybe_feature: Option<&String>) -> (r:
    Result<QualifiedPath, DerivationFlowError>)
    ensures
        maybe_feature matches Some(f) ==> (r matches Ok(p) && p@ == parse_segments(f@)),
        maybe_feature is None && filtered@.len() == 1 ==> (r matches Ok(p) && p@ == filtered@[0]@),
        maybe_feature is None && filtered@.len() != 1 ==> r is Err,
{
    match maybe_feature {
        Some(f) => Ok(QualifiedPath::from_raw(f.as_str())),
        None => {
            if filtered.len() == 1 {
                Ok(filtered[0].clone())
            } else if filtered.len() == 0 {
                Err(
                    DerivationFlowError::new(
                        "no feature matches all changed files; choose one by hand",
                    ),
                )
            } else {
                Err(
                    DerivationFlowError::new(
                        "several features could take the commit; choose one by hand",
                    ),
                )
            }
        },
    }
}

} // verus!
