use vstd::prelude::*;

use crate::qualified_path::{parse_segments, QualifiedPath};

verus! {

/// One feature taking part in a derivation, stored by its raw path text.
#[derive(Debug)]
pub struct FeatureMetadata {
    path: String,
}

impl FeatureMetadata {
    pub closed spec fn spec_path(&self) -> Seq<char> {
        self.path@
    }

    pub fn new(path: &str) -> (r: Self)
        ensures
            r.spec_path() == path@,
    {
        Self { path: path.to_owned() }
    }

    pub fn get_raw_path(&self) -> (r: &String)
        ensures
            r@ == self.spec_path(),
    {
        &self.path
    }

    /// The stored text parsed as a qualified path.
    pub fn get_qualified_path(&self) -> (r: QualifiedPath)
        ensures
            r@ == parse_segments(self.spec_path()),
    {
        QualifiedPath::from_raw(self.path.as_str())
    }
}

impl Clone for FeatureMetadata {
    fn clone(&self) -> (r: Self)
        ensures
            r.spec_path() == self.spec_path(),
    {
        FeatureMetadata { path: self.path.clone() }
    }
}

impl PartialEq for FeatureMetadata {
    fn eq(&self, other: &Self) -> (r: bool) {
        self.path == other.path
    }
}

impl vstd::std_specs::cmp::PartialEqSpecImpl for FeatureMetadata {
    open spec fn obeys_eq_spec() -> bool {
        true
    }

    open spec fn eq_spec(&self, other: &Self) -> bool {
        self.spec_path() == other.spec_path()
    }
}

/// Where a derivation stands: freshly begun, partly merged, or complete.
#[derive(Clone, Copy, PartialEq, Eq, Structural, Debug)]
pub enum DerivationState {
    Starting,
    InProgress,
    Finished,
}

/// The wire text of each state.
pub open spec fn state_text(st: DerivationState) -> Seq<char> {
    match st {
        DerivationState::Starting => seq!['s', 't', 'a', 'r', 't', 'i', 'n', 'g'],
        DerivationState::InProgress => seq![
            'i',
            'n',
            '_',
            'p',
            'r',
            'o',
            'g',
            'r',
            'e',
            's',
            's',
        ],
        DerivationState::Finished => seq!['f', 'i', 'n', 'i', 's', 'h', 'e', 'd'],
    }
}

impl DerivationState {
    /// Reads a state back from its wire text; any other text is outside
    /// this function's domain.
    pub fn from_string(from: &str) -> (r: Self)
        requires
            from@ == state_text(DerivationState::Starting) || from@ == state_text(
                DerivationState::InProgress,
            ) || from@ == state_text(DerivationState::Finished),
        ensures
            state_text(r) == from@,
    {
        proof {
            reveal_strlit("starting");
            reveal_strlit("in_progress");
            reveal_strlit("finished");
            assert("starting"@ =~= state_text(DerivationState::Starting));
            assert("in_progress"@ =~= state_text(DerivationState::InProgress));
            assert("finished"@ =~= state_text(DerivationState::Finished));
        }
        let text = String::from_str(from);
        if text == String::from_str("starting") {
            DerivationState::Starting
        } else if text == String::from_str("in_progress") {
            DerivationState::InProgress
        } else {
            proof {
                assert(from@ == state_text(DerivationState::Finished));
            }
            DerivationState::Finished
        }
    }

    /// The wire text of this state.
    pub fn to_text(&self) -> (r: String)
        ensures
            r@ == state_text(*self),
    {
        proof {
            reveal_strlit("starting");
            reveal_strlit("in_progress");
            reveal_strlit("finished");
            assert("starting"@ =~= state_text(DerivationState::Starting));
            assert("in_progress"@ =~= state_text(DerivationState::InProgress));
            assert("finished"@ =~= state_text(DerivationState::Finished));
        }
        match self {
            DerivationState::Starting => String::from_str("starting"),
            DerivationState::InProgress => String::from_str("in_progress"),
            DerivationState::Finished => String::from_str("finished"),
        }
    }
}

/// A misuse of the derivation state machine, or a batch refused because of
/// backend errors, with a plain description.
#[derive(Debug)]
pub struct DerivationFlowError {
    message: String,
}

impl DerivationFlowError {
    pub closed spec fn spec_message(&self) -> Seq<char> {
        self.message@
    }

    pub fn new(message: &str) -> (r: Self)
        ensures
            r.spec_message() == message@,
    {
        Self { message: message.to_owned() }
    }

    pub fn get_message(&self) -> (r: &String)
        ensures
            r@ == self.spec_message(),
    {
        &self.message
    }
}

/// The mathematical content of a persisted derivation record.
pub struct MetadataView {
    pub id: Seq<char>,
    pub state: DerivationState,
    pub completed: Seq<Seq<char>>,
    pub missing: Seq<Seq<char>>,
    pub total: Seq<Seq<char>>,
}

/// The persisted record of one derivation: its identifier, its state, and
/// which features are completed, missing and intended in total.
#[derive(Debug)]
pub struct DerivationMetadata {
    id: String,
    state: DerivationState,
    completed: Vec<FeatureMetadata>,
    missing: Vec<FeatureMetadata>,
    total: Vec<FeatureMetadata>,
}

/// The invariant every record keeps: nothing is both completed and missing,
/// and everything completed or missing was intended.
pub open spec fn metadata_inv(v: MetadataView) -> bool {
    &&& forall|i: int|
        0 <= i < v.completed.len() ==> !v.missing.contains(#[trigger] v.completed[i])
    &&& forall|i: int| 0 <= i < v.completed.len() ==> v.total.contains(#[trigger] v.completed[i])
    &&& forall|i: int| 0 <= i < v.missing.len() ==> v.total.contains(#[trigger] v.missing[i])
}

impl View for DerivationMetadata {
    type V = MetadataView;

    closed spec fn view(&self) -> MetadataView {
        MetadataView {
            id: self.id@,
            state: self.state,
            completed: self.completed@.map_values(|f: FeatureMetadata| f.spec_path()),
            missing: self.missing@.map_values(|f: FeatureMetadata| f.spec_path()),
            total: self.total@.map_values(|f: FeatureMetadata| f.spec_path()),
        }
    }
}

/// Relies on uuid's Uuid::new_v4 and its hyphenated Display form: the text
/// of a fresh random identifier, 36 characters of lowercase hex digits and
/// hyphens. Nothing can be promised about which identifier comes back.
#[verifier::external_body]
fn new_derivation_id() -> (r: String)
    ensures
        r@.len() == 36,
        forall|i: int|
            0 <= i < r@.len() ==> (#[trigger] r@[i] == '-' || ('0' <= r@[i] <= '9') || ('a' <= r@[i]
                <= 'f')),
{
    uuid::Uuid::new_v4().to_string()
}

fn clone_features(v: &Vec<FeatureMetadata>) -> (r: Vec<FeatureMetadata>)
    ensures
        r@.map_values(|f: FeatureMetadata| f.spec_path()) == v@.map_values(
            |f: FeatureMetadata| f.spec_path(),
        ),
{
    let n = v.len();
    let mut r: Vec<FeatureMetadata> = Vec::new();
    let mut i: usize = 0;
    while i < n
        invariant
            0 <= i <= n,
            n == v@.len(),
            r@.len() == i,
            forall|k: int| 0 <= k < i ==> (#[trigger] r@[k]).spec_path() == v@[k].spec_path(),
        decreases n - i,
    {
        r.push(v[i].clone());
        i = i + 1;
    }
    proof {
        assert(r@.map_values(|f: FeatureMetadata| f.spec_path()) =~= v@.map_values(
            |f: FeatureMetadata| f.spec_path(),
        ));
    }
    r
}

/// Whether a feature with this path text is in the list.
pub open spec fn features_contain(v: Seq<Seq<char>>, p: Seq<char>) -> bool {
    v.contains(p)
}

fn contains_feature(v: &Vec<FeatureMetadata>, f: &FeatureMetadata) -> (r: bool)
    ensures
        r == features_contain(
            v@.map_values(|x: FeatureMetadata| x.spec_path()),
            f.spec_path(),
        ),
{
    let n = v.len();
    let mut i: usize = 0;
    while i < n
        invariant
            0 <= i <= n,
            n == v@.len(),
            forall|k: int| 0 <= k < i ==> (#[trigger] v@[k]).spec_path() != f.spec_path(),
        decreases n - i,
    {
        if v[i] == *f {
            proof {
                let m = v@.map_values(|x: FeatureMetadata| x.spec_path());
                assert(m[i as int] == f.spec_path());
            }
            return true;
        }
        i = i + 1;
    }
    proof {
        let m = v@.map_values(|x: FeatureMetadata| x.spec_path());
        assert forall|k: int| 0 <= k < m.len() implies m[k] != f.spec_path() by {
            assert(m[k] == v@[k].spec_path());
        }
    }
    false
}

impl DerivationMetadata {
    pub(crate) fn new(
        id: String,
        state: DerivationState,
        completed: Vec<FeatureMetadata>,
        missing: Vec<FeatureMetadata>,
        total: Vec<FeatureMetadata>,
    ) -> (r: Self)
        ensures
            r@.id == id@,
            r@.state == state,
            r@.completed == completed@.map_values(|f: FeatureMetadata| f.spec_path()),
            r@.missing == missing@.map_values(|f: FeatureMetadata| f.spec_path()),
            r@.total == total@.map_values(|f: FeatureMetadata| f.spec_path()),
    {
        Self { id, state, completed, missing, total }
    }

    /// A fresh record for a derivation that begins now: nothing completed,
    /// all given features missing and intended, under a new identifier.
    pub fn new_initial(features: Vec<FeatureMetadata>) -> (r: Self)
        ensures
            r@.id.len() == 36,
            r@.state == DerivationState::Starting,
            r@.completed.len() == 0,
            r@.missing == features@.map_values(|f: FeatureMetadata| f.spec_path()),
            r@.total == features@.map_values(|f: FeatureMetadata| f.spec_path()),
            metadata_inv(r@),
    {
        let id = new_derivation_id();
        let copy = clone_features(&features);
        let r = Self::new(id, DerivationState::Starting, Vec::new(), copy, features);
        proof {
            assert(r@.completed =~= Seq::<Seq<char>>::empty());
        }
        r
    }

    /// A fresh record continuing from a finished one: the new features are
    /// the missing set, and the intended total carries the old total
    /// forward, extended by whatever is new. Deriving from a record that is
    /// not finished is outside this function's domain.
    pub fn new_from_previously_finished(previous: &Self, features: Vec<FeatureMetadata>) -> (r:
        Self)
        requires
            previous@.state == DerivationState::Finished,
        ensures
            r@.id.len() == 36,
            r@.state == DerivationState::Starting,
            r@.completed.len() == 0,
            r@.missing == features@.map_values(|f: FeatureMetadata| f.spec_path()),
            r@.total == extended_total(
                previous@.total,
                features@.map_values(|f: FeatureMetadata| f.spec_path()),
            ),
            metadata_inv(r@),
    {
        let id = new_derivation_id();
        let mut total = clone_features(&previous.total);
        let n = features.len();
        let ghost fs = features@.map_values(|f: FeatureMetadata| f.spec_path());
        let mut i: usize = 0;
        proof {
            assert(fs.take(0) =~= Seq::<Seq<char>>::empty());
            assert(total@.map_values(|f: FeatureMetadata| f.spec_path()) =~= extended_total(
                previous@.total,
                fs.take(0),
            ));
        }
        while i < n
            invariant
                0 <= i <= n,
                n == fs.len(),
                features@.map_values(|f: FeatureMetadata| f.spec_path()) == fs,
                features@.len() == n,
                total@.map_values(|f: FeatureMetadata| f.spec_path()) == extended_total(
                    previous@.total,
                    fs.take(i as int),
                ),
            decreases n - i,
        {
            let ghost before = total@.map_values(|f: FeatureMetadata| f.spec_path());
            proof {
                assert(fs[i as int] == features@[i as int].spec_path());
            }
            let present = contains_feature(&total, &features[i]);
            if !present {
                total.push(features[i].clone());
                proof {
                    assert(total@.map_values(|f: FeatureMetadata| f.spec_path()) =~= before.push(
                        fs[i as int],
                    ));
                }
            }
            proof {
                assert(fs.take(i + 1 as int).drop_last() =~= fs.take(i as int));
                assert(fs.take(i + 1 as int).last() == fs[i as int]);
            }
            i = i + 1;
        }
        proof {
            assert(fs.take(n as int) =~= fs);
        }
        let missing = clone_features(&features);
        let r = Self::new(id, DerivationState::Starting, Vec::new(), missing, total);
        proof {
            assert(r@.completed =~= Seq::<Seq<char>>::empty());
            lemma_extended_total_keeps(previous@.total, fs);
            assert forall|k: int| 0 <= k < r@.missing.len() implies r@.total.contains(
                #[trigger] r@.missing[k],
            ) by {
                lemma_extended_total_has_new(previous@.total, fs, k);
            }
        }
        r
    }

    /// Marks the record finished.
    pub fn as_finished(&mut self)
        ensures
            final(self)@.state == DerivationState::Finished,
            final(self)@.id == old(self)@.id,
            final(self)@.completed == old(self)@.completed,
            final(self)@.missing == old(self)@.missing,
            final(self)@.total == old(self)@.total,
    {
        self.state = DerivationState::Finished;
    }

    /// Marks the record as having made progress with work remaining.
    pub fn as_in_progress(&mut self)
        ensures
            final(self)@.state == DerivationState::InProgress,
            final(self)@.id == old(self)@.id,
            final(self)@.completed == old(self)@.completed,
            final(self)@.missing == old(self)@.missing,
            final(self)@.total == old(self)@.total,
    {
        self.state = DerivationState::InProgress;
    }

    /// Moves every listed feature that is still missing over to the
    /// completed list, in listing order, each matched entry appended behind
    /// the already completed ones and the unmatched entries keeping their
    /// order; features matching nothing are left alone.
    pub fn mark_as_completed(&mut self, features: &Vec<QualifiedPath>)
        ensures
            final(self)@.id == old(self)@.id,
            final(self)@.state == old(self)@.state,
            final(self)@.total == old(self)@.total,
            final(self)@.missing == missing_after(old(self)@.missing, features@),
            final(self)@.completed == completed_after(
                old(self)@.completed,
                old(self)@.missing,
                features@,
            ),
            metadata_inv(old(self)@) ==> metadata_inv(final(self)@),
            forall|p: Seq<char>|
                final(self)@.missing.contains(p) <==> (old(self)@.missing.contains(p)
                    && !marked_for_completion(old(self)@.missing, features@, p)),
            forall|p: Seq<char>|
                #[trigger] final(self)@.completed.contains(p) <==> (old(
                    self,
                )@.completed.contains(p) || (old(self)@.missing.contains(p)
                    && marked_for_completion(old(self)@.missing, features@, p))),
    {
        let n = features.len();
        let mut i: usize = 0;
        proof {
            assert(features@.skip(0) =~= features@);
        }
        while i < n
            invariant
                0 <= i <= n,
                n == features@.len(),
                self@.id == old(self)@.id,
                self@.state == old(self)@.state,
                self@.total == old(self)@.total,
                missing_after(old(self)@.missing, features@) == missing_after(
                    self@.missing,
                    features@.skip(i as int),
                ),
                completed_after(old(self)@.completed, old(self)@.missing, features@)
                    == completed_after(self@.completed, self@.missing, features@.skip(i as int)),
                forall|p: Seq<char>|
                    self@.missing.contains(p) <==> (old(self)@.missing.contains(p)
                        && !marked_for_completion(
                        old(self)@.missing,
                        features@.take(i as int),
                        p,
                    )),
                forall|p: Seq<char>|
                    #[trigger] self@.completed.contains(p) <==> (old(self)@.completed.contains(p)
                        || (old(self)@.missing.contains(p) && marked_for_completion(
                        old(self)@.missing,
                        features@.take(i as int),
                        p,
                    ))),
            decreases n - i,
        {
            let target = &features[i];
            let mut kept: Vec<FeatureMetadata> = Vec::new();
            let mut moved: Vec<FeatureMetadata> = Vec::new();
            let m = self.missing.len();
            let mut k: usize = 0;
            let ghost pre_missing = self@.missing;
            let ghost pre_completed = self@.completed;
            while k < m
                invariant
                    0 <= k <= m,
                    m == self.missing@.len(),
                    self@.missing == pre_missing,
                    kept@.map_values(|f: FeatureMetadata| f.spec_path()) == remaining_after(
                        pre_missing.take(k as int),
                        target@,
                    ),
                    moved@.map_values(|f: FeatureMetadata| f.spec_path()) == matched_of(
                        pre_missing.take(k as int),
                        target@,
                    ),
                decreases m - k,
            {
                let ghost before_kept = kept@.map_values(|f: FeatureMetadata| f.spec_path());
                let ghost before_moved = moved@.map_values(|f: FeatureMetadata| f.spec_path());
                let f = self.missing[k].clone();
                let fq = f.get_qualified_path();
                proof {
                    assert(pre_missing[k as int] == self.missing@[k as int].spec_path());
                }
                if fq == *target {
                    proof {
                        assert(path_is(pre_missing[k as int], target@));
                    }
                    moved.push(f);
                    proof {
                        assert(moved@.map_values(|x: FeatureMetadata| x.spec_path())
                            =~= before_moved.push(pre_missing[k as int]));
                    }
                } else {
                    proof {
                        assert(!path_is(pre_missing[k as int], target@));
                    }
                    kept.push(f);
                    proof {
                        assert(kept@.map_values(|x: FeatureMetadata| x.spec_path())
                            =~= before_kept.push(pre_missing[k as int]));
                    }
                }
                proof {
                    reveal(Seq::filter);
                    assert(pre_missing.take(k + 1 as int).drop_last() =~= pre_missing.take(
                        k as int,
                    ));
                    assert(pre_missing.take(k + 1 as int).last() == pre_missing[k as int]);
                }
                k = k + 1;
            }
            proof {
                assert(pre_missing.take(m as int) =~= pre_missing);
            }
            let ghost moved_view = moved@.map_values(|f: FeatureMetadata| f.spec_path());
            self.missing = kept;
            self.completed.append(&mut moved);
            proof {
                assert(self@.missing == remaining_after(pre_missing, target@));
                assert(self@.completed =~= pre_completed + moved_view);
                lemma_filter_membership(pre_missing, target@);
                lemma_matched_membership(pre_missing, target@);
                assert forall|p: Seq<char>| #[trigger] self@.completed.contains(p) implies (
                pre_completed.contains(p) || moved_view.contains(p)) by {
                    let j = choose|j: int|
                        0 <= j < self@.completed.len() && self@.completed[j] == p;
                    if j < pre_completed.len() {
                        assert(pre_completed[j] == p);
                    } else {
                        assert(moved_view[j - pre_completed.len()] == p);
                    }
                }
                assert forall|p: Seq<char>| (pre_completed.contains(p) || moved_view.contains(
                    p,
                )) implies #[trigger] self@.completed.contains(p) by {
                    if pre_completed.contains(p) {
                        let j = choose|j: int|
                            0 <= j < pre_completed.len() && pre_completed[j] == p;
                        assert(self@.completed[j] == p);
                    } else {
                        let j = choose|j: int| 0 <= j < moved_view.len() && moved_view[j] == p;
                        assert(self@.completed[pre_completed.len() + j] == p);
                    }
                }
                let ghost_old = old(self)@.missing;
                assert(features@.take(i + 1 as int).drop_last() =~= features@.take(i as int));
                assert(features@.take(i + 1 as int).last() == features@[i as int]);
                lemma_marked_step(ghost_old, features@, i as int);
                assert(features@.skip(i as int)[0] == features@[i as int]);
                assert(features@.skip(i as int).drop_first() =~= features@.skip(i + 1 as int));
                assert(missing_after(pre_missing, features@.skip(i as int)) == missing_after(
                    self@.missing,
                    features@.skip(i + 1 as int),
                ));
                assert(completed_after(pre_completed, pre_missing, features@.skip(i as int))
                    == completed_after(
                    self@.completed,
                    self@.missing,
                    features@.skip(i + 1 as int),
                ));
            }
            i = i + 1;
        }
        proof {
            assert(features@.take(n as int) =~= features@);
            assert(features@.skip(n as int) =~= Seq::<QualifiedPath>::empty());
            if metadata_inv(old(self)@) {
                assert forall|q: int|
                    0 <= q < self@.completed.len() implies !self@.missing.contains(
                    #[trigger] self@.completed[q],
                ) by {
                    let p = self@.completed[q];
                    assert(self@.completed.contains(p));
                    if self@.missing.contains(p) {
                        assert(old(self)@.missing.contains(p) && !marked_for_completion(
                            old(self)@.missing,
                            features@,
                            p,
                        ));
                        assert(old(self)@.completed.contains(p) || (old(self)@.missing.contains(p)
                            && marked_for_completion(old(self)@.missing, features@, p)));
                        assert(false);
                    }
                }
                assert forall|q: int|
                    0 <= q < self@.completed.len() implies self@.total.contains(
                    #[trigger] self@.completed[q],
                ) by {
                    let p = self@.completed[q];
                    assert(self@.completed.contains(p));
                    assert(old(self)@.completed.contains(p) || old(self)@.missing.contains(p));
                }
                assert forall|q: int|
                    0 <= q < self@.missing.len() implies self@.total.contains(
                    #[trigger] self@.missing[q],
                ) by {
                    let p = self@.missing[q];
                    assert(self@.missing.contains(p));
                    assert(old(self)@.missing.contains(p));
                }
            }
        }
    }

    pub fn get_completed(&self) -> (r: &Vec<FeatureMetadata>)
        ensures
            r@.map_values(|f: FeatureMetadata| f.spec_path()) == self@.completed,
    {
        &self.completed
    }

    pub fn get_missing(&self) -> (r: &Vec<FeatureMetadata>)
        ensures
            r@.map_values(|f: FeatureMetadata| f.spec_path()) == self@.missing,
    {
        &self.missing
    }

    pub fn get_total(&self) -> (r: &Vec<FeatureMetadata>)
        ensures
            r@.map_values(|f: FeatureMetadata| f.spec_path()) == self@.total,
    {
        &self.total
    }

    pub fn get_state(&self) -> (r: DerivationState)
        ensures
            r == self@.state,
    {
        self.state
    }

    pub fn get_id(&self) -> (r: &String)
        ensures
            r@ == self@.id,
    {
        &self.id
    }
}

impl Clone for DerivationMetadata {
    fn clone(&self) -> (r: Self)
        ensures
            r@.id == self@.id,
            r@.state == self@.state,
            r@.completed == self@.completed,
            r@.missing == self@.missing,
            r@.total == self@.total,
    {
        DerivationMetadata {
            id: self.id.clone(),
            state: self.state,
            completed: clone_features(&self.completed),
            missing: clone_features(&self.missing),
            total: clone_features(&self.total),
        }
    }
}

/// Whether the path text `p`, parsed, names the same path as `q`.
pub open spec fn path_is(p: Seq<char>, q: Seq<Seq<char>>) -> bool {
    parse_segments(p) == q
}

/// Whether some listed feature marks the missing entry `p` for completion.
pub open spec fn marked_for_completion(
    missing: Seq<Seq<char>>,
    features: Seq<QualifiedPath>,
    p: Seq<char>,
) -> bool {
    exists|i: int| 0 <= i < features.len() && path_is(p, (#[trigger] features[i])@)
}

/// The previous total extended, in order, by the new features not already
/// present.
pub open spec fn extended_total(total: Seq<Seq<char>>, features: Seq<Seq<char>>) -> Seq<Seq<char>>
    decreases features.len(),
{
    if features.len() == 0 {
        total
    } else {
        let rest = extended_total(total, features.drop_last());
        if rest.contains(features.last()) {
            rest
        } else {
            rest.push(features.last())
        }
    }
}

proof fn lemma_extended_total_keeps(total: Seq<Seq<char>>, features: Seq<Seq<char>>)
    ensures
        forall|p: Seq<char>|
            total.contains(p) ==> #[trigger] extended_total(total, features).contains(p),
    decreases features.len(),
{
    if features.len() > 0 {
        lemma_extended_total_keeps(total, features.drop_last());
        let rest = extended_total(total, features.drop_last());
        assert forall|p: Seq<char>| total.contains(p) implies #[trigger] extended_total(
            total,
            features,
        ).contains(p) by {
            assert(rest.contains(p));
            if !rest.contains(features.last()) {
                let j = choose|j: int| 0 <= j < rest.len() && rest[j] == p;
                assert(rest.push(features.last())[j] == p);
            }
        }
    }
}

proof fn lemma_extended_total_has_new(total: Seq<Seq<char>>, features: Seq<Seq<char>>, k: int)
    requires
        0 <= k < features.len(),
    ensures
        extended_total(total, features).contains(features[k]),
    decreases features.len(),
{
    if k == features.len() - 1 {
        let rest = extended_total(total, features.drop_last());
        if rest.contains(features.last()) {
            lemma_extended_prefix_kept(total, features, features.last());
        } else {
            assert(rest.push(features.last())[rest.len() as int] == features.last());
        }
    } else {
        lemma_extended_total_has_new(total, features.drop_last(), k);
        assert(features.drop_last()[k] == features[k]);
        lemma_extended_prefix_kept(total, features, features[k]);
    }
}

proof fn lemma_extended_prefix_kept(total: Seq<Seq<char>>, features: Seq<Seq<char>>, p: Seq<char>)
    requires
        features.len() > 0,
        extended_total(total, features.drop_last()).contains(p),
    ensures
        extended_total(total, features).contains(p),
{
    let rest = extended_total(total, features.drop_last());
    if !rest.contains(features.last()) {
        let j = choose|j: int| 0 <= j < rest.len() && rest[j] == p;
        assert(rest.push(features.last())[j] == p);
    }
}

/// What is left of the missing list once every entry naming `target` is
/// taken out.
pub open spec fn remaining_after(missing: Seq<Seq<char>>, target: Seq<Seq<char>>) -> Seq<Seq<char>> {
    missing.filter(|x: Seq<char>| !path_is(x, target))
}

/// Filtering keeps exactly the entries the predicate admits.
proof fn lemma_filter_keeps_exactly(s: Seq<Seq<char>>, pred: spec_fn(Seq<char>) -> bool)
    ensures
        forall|p: Seq<char>| #[trigger] s.filter(pred).contains(p) <==> (s.contains(p) && pred(p)),
    decreases s.len(),
{
    reveal(Seq::filter);
    if s.len() == 0 {
        assert(s.filter(pred) =~= Seq::<Seq<char>>::empty());
    } else {
        lemma_filter_keeps_exactly(s.drop_last(), pred);
        let sub = s.drop_last().filter(pred);
        assert forall|p: Seq<char>| #[trigger] s.filter(pred).contains(p) implies (s.contains(p)
            && pred(p)) by {
            if pred(s.last()) {
                assert(s.filter(pred) == sub.push(s.last()));
                let j = choose|j: int| 0 <= j < s.filter(pred).len() && s.filter(pred)[j] == p;
                if j < sub.len() {
                    assert(sub.contains(p));
                    assert(s.drop_last().contains(p));
                    let t = choose|t: int|
                        0 <= t < s.drop_last().len() && s.drop_last()[t] == p;
                    assert(s[t] == p);
                } else {
                    assert(p == s.last());
                    assert(s[s.len() - 1] == p);
                }
            } else {
                assert(s.filter(pred) == sub);
                assert(s.drop_last().contains(p));
                let t = choose|t: int| 0 <= t < s.drop_last().len() && s.drop_last()[t] == p;
                assert(s[t] == p);
            }
        }
        assert forall|p: Seq<char>| (s.contains(p) && pred(p)) implies #[trigger] s.filter(
            pred,
        ).contains(p) by {
            let t = choose|t: int| 0 <= t < s.len() && s[t] == p;
            if t < s.len() - 1 {
                assert(s.drop_last()[t] == p);
                assert(s.drop_last().contains(p));
                assert(sub.contains(p));
                let j = choose|j: int| 0 <= j < sub.len() && sub[j] == p;
                assert(s.filter(pred)[j] == p);
            } else {
                assert(s.last() == p);
                assert(s.filter(pred) == sub.push(p));
                assert(s.filter(pred)[sub.len() as int] == p);
            }
        }
    }
}

proof fn lemma_filter_membership(missing: Seq<Seq<char>>, target: Seq<Seq<char>>)
    ensures
        forall|p: Seq<char>|
            #[trigger] remaining_after(missing, target).contains(p) <==> (missing.contains(p)
                && !path_is(p, target)),
{
    lemma_filter_keeps_exactly(missing, |x: Seq<char>| !path_is(x, target));
}

/// The missing entries that do name `target`.
pub open spec fn matched_of(missing: Seq<Seq<char>>, target: Seq<Seq<char>>) -> Seq<Seq<char>> {
    missing.filter(|x: Seq<char>| path_is(x, target))
}

proof fn lemma_matched_membership(missing: Seq<Seq<char>>, target: Seq<Seq<char>>)
    ensures
        forall|p: Seq<char>|
            #[trigger] matched_of(missing, target).contains(p) <==> (missing.contains(p)
                && path_is(p, target)),
{
    lemma_filter_keeps_exactly(missing, |x: Seq<char>| path_is(x, target));
}

/// The missing list after the whole pass: each listed feature's matching
/// entries are taken out in turn.
pub open spec fn missing_after(missing: Seq<Seq<char>>, features: Seq<QualifiedPath>) -> Seq<
    Seq<char>,
>
    decreases features.len(),
{
    if features.len() == 0 {
        missing
    } else {
        missing_after(remaining_after(missing, features[0]@), features.drop_first())
    }
}

/// The completed list after the whole pass: each listed feature's matching
/// missing entries are appended in turn, in their missing-list order.
pub open spec fn completed_after(
    completed: Seq<Seq<char>>,
    missing: Seq<Seq<char>>,
    features: Seq<QualifiedPath>,
) -> Seq<Seq<char>>
    decreases features.len(),
{
    if features.len() == 0 {
        completed
    } else {
        completed_after(
            completed + matched_of(missing, features[0]@),
            remaining_after(missing, features[0]@),
            features.drop_first(),
        )
    }
}

proof fn lemma_marked_step(missing: Seq<Seq<char>>, features: Seq<QualifiedPath>, i: int)
    requires
        0 <= i < features.len(),
    ensures
        forall|p: Seq<char>|
            #[trigger] marked_for_completion(missing, features.take(i + 1), p) <==> (
            marked_for_completion(missing, features.take(i), p) || path_is(p, features[i]@)),
{
    assert forall|p: Seq<char>|
        #[trigger] marked_for_completion(missing, features.take(i + 1), p) implies (
    marked_for_completion(missing, features.take(i), p) || path_is(p, features[i]@)) by {
        let j = choose|j: int|
            0 <= j < features.take(i + 1).len() && path_is(p, (#[trigger] features.take(i + 1)[j])@);
        if j < i {
            assert(features.take(i)[j] == features[j]);
            assert(path_is(p, (features.take(i)[j])@));
        } else {
            assert(features.take(i + 1)[j] == features[i]);
        }
    }
    assert forall|p: Seq<char>|
        (marked_for_completion(missing, features.take(i), p) || path_is(
            p,
            features[i]@,
        )) implies #[trigger] marked_for_completion(missing, features.take(i + 1), p) by {
        if marked_for_completion(missing, features.take(i), p) {
            let j = choose|j: int|
                0 <= j < features.take(i).len() && path_is(p, (#[trigger] features.take(i)[j])@);
            assert(features.take(i + 1)[j] == features[j]);
            assert(path_is(p, (features.take(i + 1)[j])@));
        } else {
            assert(features.take(i + 1)[i] == features[i]);
            assert(path_is(p, (features.take(i + 1)[i])@));
        }
    }
}

} // verus!
