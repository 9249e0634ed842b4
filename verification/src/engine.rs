use vstd::prelude::*;

use crate::commit::Commit;
use crate::derivation::{DerivationFlowError, DerivationMetadata, DerivationState, MetadataView};
use crate::qualified_path::{parse_segments, QualifiedPath};
use crate::record::{parse_derivation_commit_message, sp_message, RecordParseError};

verus! {

/// The views of a commit list's messages.
pub open spec fn messages_of(commits: Seq<Commit>) -> Seq<Seq<char>> {
    commits.map_values(|c: Commit| c.spec_message())
}

/// The first (most recent) commit whose message carries the record
/// sentinel.
pub open spec fn first_record(msgs: Seq<Seq<char>>) -> Option<int>
    decreases msgs.len(),
{
    if msgs.len() == 0 {
        None
    } else if sp_message(msgs[0]) is Some {
        Some(0)
    } else {
        match first_record(msgs.drop_first()) {
            Some(i) => Some(i + 1),
            None => None,
        }
    }
}

/// Whether the message is a well-formed record that begins the derivation
/// with the given identifier.
pub open spec fn is_start_record(msg: Seq<char>, id: Seq<char>) -> bool {
    match sp_message(msg) {
        Some(inner) => match inner {
            Some(v) => v.id == id && v.state == DerivationState::Starting,
            None => false,
        },
        None => false,
    }
}

/// The last (oldest) commit whose message begins the derivation with the
/// given identifier.
pub open spec fn last_start_index(msgs: Seq<Seq<char>>, id: Seq<char>) -> Option<int>
    decreases msgs.len(),
{
    if msgs.len() == 0 {
        None
    } else if is_start_record(msgs.last(), id) {
        Some(msgs.len() - 1)
    } else {
        last_start_index(msgs.drop_last(), id)
    }
}

/// Whether any message carries the sentinel with a malformed payload.
pub open spec fn any_malformed(msgs: Seq<Seq<char>>) -> bool {
    exists|i: int|
        0 <= i < msgs.len() && #[trigger] sp_message(msgs[i]) == Some(None::<MetadataView>)
}

/// The most recent parseable derivation record in the history, scanning
/// newest-first: commits without the sentinel are skipped, and a sentinel
/// with a malformed payload is a hard error.
pub fn get_last_metadata(commits: &Vec<Commit>) -> (r: Result<
    Option<DerivationMetadata>,
    RecordParseError,
>)
    ensures
        first_record(messages_of(commits@)) is None <==> (r matches Ok(o) && o is None),
        first_record(messages_of(commits@)) matches Some(i) ==> (match sp_message(
            messages_of(commits@)[i],
        ) {
            Some(inner) => match inner {
                Some(v) => r matches Ok(o) && o matches Some(m) && m@ == v,
                None => r is Err,
            },
            None => false,
        }),
{
    let ghost msgs = messages_of(commits@);
    let n = commits.len();
    let mut i: usize = 0;
    while i < n
        invariant
            0 <= i <= n,
            n == msgs.len(),
            messages_of(commits@) == msgs,
            commits@.len() == n,
            forall|k: int| 0 <= k < i ==> sp_message(#[trigger] msgs[k]) is None,
        decreases n - i,
    {
        proof {
            assert(msgs[i as int] == commits@[i as int].spec_message());
        }
        match parse_derivation_commit_message(&commits[i]) {
            Some(res) => {
                proof {
                    lemma_first_record_at(msgs, i as int);
                }
                match res {
                    Ok(m) => {
                        return Ok(Some(m));
                    },
                    Err(e) => {
                        return Err(e);
                    },
                }
            },
            None => {},
        }
        i = i + 1;
    }
    proof {
        lemma_first_record_none(msgs);
    }
    Ok(None)
}

proof fn lemma_first_record_at(msgs: Seq<Seq<char>>, i: int)
    requires
        0 <= i < msgs.len(),
        sp_message(msgs[i]) is Some,
        forall|k: int| 0 <= k < i ==> sp_message(#[trigger] msgs[k]) is None,
    ensures
        first_record(msgs) == Some(i),
    decreases i,
{
    if i > 0 {
        assert(sp_message(msgs[0]) is None);
        assert(msgs.drop_first()[i - 1] == msgs[i]);
        assert forall|k: int| 0 <= k < i - 1 implies sp_message(
            #[trigger] msgs.drop_first()[k],
        ) is None by {
            assert(msgs.drop_first()[k] == msgs[k + 1]);
        }
        lemma_first_record_at(msgs.drop_first(), i - 1);
    }
}

proof fn lemma_first_record_none(msgs: Seq<Seq<char>>)
    requires
        forall|k: int| 0 <= k < msgs.len() ==> sp_message(#[trigger] msgs[k]) is None,
    ensures
        first_record(msgs) is None,
    decreases msgs.len(),
{
    if msgs.len() > 0 {
        assert forall|k: int| 0 <= k < msgs.drop_first().len() implies sp_message(
            #[trigger] msgs.drop_first()[k],
        ) is None by {
            assert(msgs.drop_first()[k] == msgs[k + 1]);
        }
        lemma_first_record_none(msgs.drop_first());
    }
}

/// The record and position that began the derivation with the given
/// identifier: the oldest matching start record in the history. Any
/// malformed record anywhere in the history is a hard error.
pub fn get_derivation_start_metadata(id: &String, commits: &Vec<Commit>) -> (r: Result<
    Option<(DerivationMetadata, usize)>,
    RecordParseError,
>)
    ensures
        r is Err <==> any_malformed(messages_of(commits@)),
        r matches Ok(o) ==> (o is None <==> last_start_index(messages_of(commits@), id@) is None),
        r matches Ok(o) ==> (o matches Some(t) ==> last_start_index(messages_of(commits@), id@)
            == Some(t.1 as int) && sp_message(messages_of(commits@)[t.1 as int]) == Some(
            Some(t.0@),
        ) && t.0@.id == id@ && t.0@.state == DerivationState::Starting && t.1 < commits@.len()),
{
    let ghost msgs = messages_of(commits@);
    let n = commits.len();
    let mut best: Option<(DerivationMetadata, usize)> = None;
    let mut i: usize = 0;
    while i < n
        invariant
            0 <= i <= n,
            n == msgs.len(),
            messages_of(commits@) == msgs,
            commits@.len() == n,
            forall|k: int| 0 <= k < i ==> sp_message(#[trigger] msgs[k]) != Some(
                None::<MetadataView>,
            ),
            best is None <==> last_start_index(msgs.take(i as int), id@) is None,
            best matches Some(t) ==> last_start_index(msgs.take(i as int), id@) == Some(
                t.1 as int,
            ) && sp_message(msgs[t.1 as int]) == Some(Some(t.0@)) && t.0@.id == id@ && t.0@.state
                == DerivationState::Starting && t.1 < n,
        decreases n - i,
    {
        proof {
            assert(msgs[i as int] == commits@[i as int].spec_message());
            assert(msgs.take(i + 1 as int).drop_last() =~= msgs.take(i as int));
            assert(msgs.take(i + 1 as int).last() == msgs[i as int]);
        }
        match parse_derivation_commit_message(&commits[i]) {
            Some(res) => {
                match res {
                    Ok(m) => {
                        let matches_id = *m.get_id() == *id;
                        let is_starting = match m.get_state() {
                            DerivationState::Starting => true,
                            _ => false,
                        };
                        if matches_id && is_starting {
                            proof {
                                assert(is_start_record(msgs[i as int], id@));
                            }
                            best = Some((m, i));
                        } else {
                            proof {
                                assert(!is_start_record(msgs[i as int], id@));
                            }
                        }
                    },
                    Err(e) => {
                        proof {
                            assert(sp_message(msgs[i as int]) == Some(None::<MetadataView>));
                        }
                        return Err(e);
                    },
                }
            },
            None => {
                proof {
                    assert(!is_start_record(msgs[i as int], id@));
                }
            },
        }
        i = i + 1;
    }
    proof {
        assert(msgs.take(n as int) =~= msgs);
        if any_malformed(msgs) {
            let j = choose|j: int|
                0 <= j < msgs.len() && #[trigger] sp_message(msgs[j]) == Some(
                    None::<MetadataView>,
                );
            assert(false);
        }
    }
    Ok(best)
}

/// What a requested continue resolves to.
pub enum ContinueDecision {
    /// No continue was requested and none is owed.
    NotRequested,
    /// Resume by merging this first missing feature by hand.
    ResumeWith(QualifiedPath),
}

/// Decides a requested continue against the latest record. Continuing is an
/// error when no derivation was ever started and, always, when the latest
/// record is finished — however many begin/finish cycles came before. An
/// unfinished record without a continue request is also an error: the
/// caller must finish it first.
pub fn plan_continue(last_state: &Option<DerivationMetadata>, continue_derivation: bool) -> (r:
    Result<ContinueDecision, DerivationFlowError>)
    requires
        (continue_derivation && (last_state matches Some(m) && m@.state
            != DerivationState::Finished)) ==> (last_state matches Some(m) && m@.missing.len()
            > 0),
    ensures
        continue_derivation && last_state is None ==> r is Err,
        last_state matches Some(m) ==> ((continue_derivation && m@.state
            == DerivationState::Finished) ==> r is Err),
        last_state matches Some(m) ==> ((continue_derivation && m@.state
            != DerivationState::Finished) ==> (r matches Ok(d) && d matches
            ContinueDecision::ResumeWith(p) && p@ == parse_segments(m@.missing[0]))),
        last_state matches Some(m) ==> ((!continue_derivation && m@.state
            != DerivationState::Finished) ==> r is Err),
        last_state matches Some(m) ==> ((!continue_derivation && m@.state
            == DerivationState::Finished) ==> (r matches Ok(d) && d matches
            ContinueDecision::NotRequested)),
        !continue_derivation && last_state is None ==> (r matches Ok(d) && d matches
            ContinueDecision::NotRequested),
{
    match (last_state, continue_derivation) {
        (None, true) => Err(
            DerivationFlowError::new("derivation not started, there is nothing to continue"),
        ),
        (Some(m), true) => {
            let finished = match m.get_state() {
                DerivationState::Finished => true,
                _ => false,
            };
            if finished {
                Err(DerivationFlowError::new("derivation finished, there is nothing to continue"))
            } else {
                let missing = m.get_missing();
                let first = missing[0].get_qualified_path();
                Ok(ContinueDecision::ResumeWith(first))
            }
        },
        (Some(m), false) => {
            match m.get_state() {
                DerivationState::Starting | DerivationState::InProgress => Err(
                    DerivationFlowError::new("derivation incomplete, please finish it first"),
                ),
                _ => Ok(ContinueDecision::NotRequested),
            }
        },
        (None, false) => Ok(ContinueDecision::NotRequested),
    }
}

/// What a requested abort resolves to.
pub enum AbortDecision {
    /// No abort was requested.
    NotRequested,
    /// Reset the working branch hard to this commit hash: the last clean
    /// state before the derivation began.
    ResetTo(String),
}

/// Decides a requested abort against the latest record and the history.
/// Aborting is an error when no derivation was started or the latest record
/// is finished; otherwise the reset target is the commit just before the
/// record that began the running derivation.
pub fn plan_abort(
    last_state: &Option<DerivationMetadata>,
    commits: &Vec<Commit>,
    abort: bool,
) -> (r: Result<AbortDecision, DerivationFlowError>)
    requires
        (abort && (last_state matches Some(m) && m@.state != DerivationState::Finished)) ==> (
        !any_malformed(messages_of(commits@)) && (last_state matches Some(m)
            && (last_start_index(messages_of(commits@), m@.id) matches Some(idx) && idx + 1
            < commits@.len()))),
    ensures
        abort && last_state is None ==> r is Err,
        last_state matches Some(m) ==> ((abort && m@.state == DerivationState::Finished) ==> r
            is Err),
        last_state matches Some(m) ==> ((abort && m@.state != DerivationState::Finished) ==> (
        r matches Ok(d) && d matches AbortDecision::ResetTo(h) && h@ == commits@[
            last_start_index(messages_of(commits@), m@.id)->Some_0 + 1
        ].spec_hash())),
        !abort ==> (r matches Ok(d) && d matches AbortDecision::NotRequested),
{
    if !abort {
        return Ok(AbortDecision::NotRequested);
    }
    match last_state {
        None => Err(DerivationFlowError::new("derivation not started, there is nothing to abort")),
        Some(m) => {
            let finished = match m.get_state() {
                DerivationState::Finished => true,
                _ => false,
            };
            if finished {
                Err(DerivationFlowError::new("derivation finished, there is nothing to abort"))
            } else {
                match get_derivation_start_metadata(m.get_id(), commits) {
                    Ok(found) => {
                        match found {
                            Some((_, index)) => {
                                let total = commits.len();
                                proof {
                                    assert(index + 1 < total);
                                }
                                let commit = &commits[index + 1];
                                Ok(AbortDecision::ResetTo(commit.get_hash().clone()))
                            },
                            None => {
                                proof {
                                    assert(false);
                                }
                                Err(DerivationFlowError::new("derivation start not found"))
                            },
                        }
                    },
                    Err(_) => {
                        proof {
                            assert(false);
                        }
                        Err(DerivationFlowError::new("derivation history is malformed"))
                    },
                }
            }
        },
    }
}

} // verus!
