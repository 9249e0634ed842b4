use vstd::prelude::*;

use crate::conflict::GitError;
use crate::qualified_path::QualifiedPath;

verus! {

/// One backend command a merge pass asks for.
#[derive(Debug)]
pub enum MergeAction {
    /// Attempt to merge this feature into the checked-out branch.
    Merge(QualifiedPath),
    /// Abort the in-progress merge.
    AbortMerge,
}

/// What the backend replied to the last merge-pass action.
#[derive(Debug)]
pub enum MergeEvent {
    /// The command ran; the flag is its exit status.
    Completed(bool),
    /// The backend invocation itself failed.
    Fatal(GitError),
}

/// Where a merge pass stands.
#[derive(Clone, Copy, PartialEq, Eq, Structural, Debug)]
pub enum MergeRunState {
    /// The next feature's merge is owed.
    Merging,
    /// The failed merge must be aborted before the pass stops.
    Aborting,
    /// The pass is over.
    Stopped,
}

/// One derivation merge pass, as a state machine: the features are merged
/// into the checked-out branch strictly one at a time and in order; on the
/// first failed merge that one merge is aborted and the pass stops without
/// attempting any later feature; a backend failure stops the pass with its
/// cause. The caller performs each demanded action and hands back the
/// reply.
pub struct MergeRun {
    features: Vec<QualifiedPath>,
    next: usize,
    state: MergeRunState,
    error: Option<GitError>,
}

impl MergeRun {
    /// The views of the features the pass was asked to merge, in order.
    pub closed spec fn features_view(&self) -> Seq<Seq<Seq<char>>> {
        self.features@.map_values(|p: QualifiedPath| p@)
    }

    /// How many features merged successfully so far: always a prefix count,
    /// because the pass never skips ahead.
    pub closed spec fn merged_count(&self) -> int {
        self.next as int
    }

    pub closed spec fn state_view(&self) -> MergeRunState {
        self.state
    }

    /// Whether the backend itself failed during the pass.
    pub closed spec fn has_error(&self) -> bool {
        self.error is Some
    }

    /// The bookkeeping invariant: the merged prefix never outruns the
    /// feature list, an abort is only ever owed for an actual feature, and
    /// a recorded backend failure means the pass has stopped.
    pub open spec fn wf(&self) -> bool {
        &&& 0 <= self.merged_count() <= self.features_view().len()
        &&& self.state_view() == MergeRunState::Aborting ==> self.merged_count()
            < self.features_view().len()
        &&& self.has_error() ==> self.state_view() == MergeRunState::Stopped
    }

    /// The pass is over: every feature merged, or it stopped at the first
    /// failure.
    pub open spec fn done(&self) -> bool {
        self.state_view() == MergeRunState::Stopped || (self.state_view()
            == MergeRunState::Merging && self.merged_count() == self.features_view().len())
    }

    /// Every feature merged cleanly.
    pub open spec fn fully_merged(&self) -> bool {
        self.merged_count() == self.features_view().len() && !self.has_error()
    }

    /// A fresh pass over the given features.
    pub fn new(features: Vec<QualifiedPath>) -> (r: Self)
        ensures
            r.wf(),
            r.features_view() == features@.map_values(|p: QualifiedPath| p@),
            r.merged_count() == 0,
            r.state_view() == MergeRunState::Merging,
            !r.has_error(),
    {
        Self { features, next: 0, state: MergeRunState::Merging, error: None }
    }

    /// The next backend action to perform: always the merge of the first
    /// not-yet-merged feature, or the abort of the one failed merge;
    /// nothing once the pass is over.
    pub fn next_action(&self) -> (r: Option<MergeAction>)
        requires
            self.wf(),
        ensures
            r is None <==> self.done(),
            self.state_view() == MergeRunState::Merging && !self.done() ==> (r matches Some(a)
                && a matches MergeAction::Merge(p) && p@ == self.features_view()[
                self.merged_count()
            ]),
            self.state_view() == MergeRunState::Aborting ==> (r matches Some(a) && a matches
                MergeAction::AbortMerge),
    {
        match self.state {
            MergeRunState::Merging => {
                if self.next < self.features.len() {
                    Some(MergeAction::Merge(self.features[self.next].clone()))
                } else {
                    None
                }
            },
            MergeRunState::Aborting => Some(MergeAction::AbortMerge),
            MergeRunState::Stopped => None,
        }
    }

    /// Feeds the backend's reply to the last action into the pass: a clean
    /// merge extends the merged prefix by one, a failed merge demands its
    /// abort and then stops the pass, and a backend failure stops it with
    /// its cause. No later feature is ever attempted after a failure.
    pub fn absorb(&mut self, ev: MergeEvent)
        requires
            old(self).wf(),
            !old(self).done(),
        ensures
            final(self).wf(),
            final(self).features_view() == old(self).features_view(),
            old(self).state_view() == MergeRunState::Merging ==> match ev {
                MergeEvent::Completed(true) => final(self).merged_count()
                    == old(self).merged_count() + 1 && final(self).state_view()
                    == MergeRunState::Merging && !final(self).has_error(),
                MergeEvent::Completed(false) => final(self).merged_count()
                    == old(self).merged_count() && final(self).state_view()
                    == MergeRunState::Aborting && !final(self).has_error(),
                MergeEvent::Fatal(_) => final(self).merged_count() == old(self).merged_count()
                    && final(self).state_view() == MergeRunState::Stopped
                    && final(self).has_error(),
            },
            old(self).state_view() == MergeRunState::Aborting ==> (final(self).merged_count()
                == old(self).merged_count() && final(self).state_view() == MergeRunState::Stopped
                && (final(self).has_error() <==> ev is Fatal)),
    {
        match self.state {
            MergeRunState::Merging => {
                match ev {
                    MergeEvent::Completed(true) => {
                        let total = self.features.len();
                        proof {
                            assert(self.next < total);
                        }
                        self.next = self.next + 1;
                    },
                    MergeEvent::Completed(false) => {
                        self.state = MergeRunState::Aborting;
                    },
                    MergeEvent::Fatal(e) => {
                        self.error = Some(e);
                        self.state = MergeRunState::Stopped;
                    },
                }
            },
            MergeRunState::Aborting => {
                match ev {
                    MergeEvent::Completed(_) => {
                        self.state = MergeRunState::Stopped;
                    },
                    MergeEvent::Fatal(e) => {
                        self.error = Some(e);
                        self.state = MergeRunState::Stopped;
                    },
                }
            },
            MergeRunState::Stopped => {},
        }
    }

    /// The features the pass has merged so far: exactly the clean prefix.
    pub fn merged_features(&self) -> (r: Vec<QualifiedPath>)
        requires
            self.wf(),
        ensures
            r@.map_values(|p: QualifiedPath| p@) == self.features_view().take(
                self.merged_count(),
            ),
    {
        let n = self.next;
        let mut r: Vec<QualifiedPath> = Vec::new();
        let mut i: usize = 0;
        while i < n
            invariant
                0 <= i <= n,
                n <= self.features@.len(),
                r@.len() == i,
                forall|k: int| 0 <= k < i ==> (#[trigger] r@[k])@ == self.features@[k]@,
            decreases n - i,
        {
            r.push(self.features[i].clone());
            i = i + 1;
        }
        proof {
            assert(r@.map_values(|p: QualifiedPath| p@) =~= self.features_view().take(
                self.merged_count(),
            ));
        }
        r
    }

    /// The cause of the backend failure that stopped the pass, if one did.
    pub fn failure(&self) -> (r: &Option<GitError>)
        ensures
            r is Some <==> self.has_error(),
    {
        &self.error
    }
}

} // verus!
