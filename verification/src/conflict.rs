use vstd::prelude::*;

use crate::qualified_path::{lemma_parse_segments_plain, parse_segments, QualifiedPath};

verus! {

/// A failure of the version-control backend itself, with its cause.
#[derive(Debug)]
pub struct GitError {
    message: String,
}

impl GitError {
    pub closed spec fn spec_message(&self) -> Seq<char> {
        self.message@
    }

    pub fn new(message: &str) -> (r: Self)
        ensures
            r.spec_message() == message@,
    {
        Self { message: message.to_owned() }
    }

    pub fn get_message(&self) -> (r: &String)
        ensures
            r@ == self.spec_message(),
    {
        &self.message
    }
}

impl Clone for GitError {
    fn clone(&self) -> (r: Self)
        ensures
            r.spec_message() == self.spec_message(),
    {
        GitError { message: self.message.clone() }
    }
}

/// The classification a conflict experiment ends with.
#[derive(Clone, Copy, PartialEq, Eq, Structural, Debug)]
pub enum ConflictKind {
    Clean,
    Conflicting,
    Failed,
}

/// The outcome of testing one set of paths together: they merge cleanly,
/// they conflict, or the backend itself failed with a cause.
#[derive(Debug)]
pub enum ConflictStatistic {
    OK(Vec<QualifiedPath>),
    CONFLICT(Vec<QualifiedPath>),
    ERROR(Vec<QualifiedPath>, GitError),
}

/// The classification of a statistic.
pub open spec fn stat_kind(s: ConflictStatistic) -> ConflictKind {
    match s {
        ConflictStatistic::OK(_) => ConflictKind::Clean,
        ConflictStatistic::CONFLICT(_) => ConflictKind::Conflicting,
        ConflictStatistic::ERROR(_, _) => ConflictKind::Failed,
    }
}

/// The underlying backend cause a statistic carries: present exactly on an
/// error.
pub open spec fn stat_cause(s: ConflictStatistic) -> Option<Seq<char>> {
    match s {
        ConflictStatistic::ERROR(_, e) => Some(e.spec_message()),
        _ => None,
    }
}

/// The set of paths a statistic speaks of.
pub open spec fn stat_paths(s: ConflictStatistic) -> Seq<Seq<Seq<char>>> {
    match s {
        ConflictStatistic::OK(ps) => ps@.map_values(|p: QualifiedPath| p@),
        ConflictStatistic::CONFLICT(ps) => ps@.map_values(|p: QualifiedPath| p@),
        ConflictStatistic::ERROR(ps, _) => ps@.map_values(|p: QualifiedPath| p@),
    }
}

fn clone_paths(v: &Vec<QualifiedPath>) -> (r: Vec<QualifiedPath>)
    ensures
        r@.map_values(|p: QualifiedPath| p@) == v@.map_values(|p: QualifiedPath| p@),
        r@.len() == v@.len(),
{
    let n = v.len();
    let mut r: Vec<QualifiedPath> = Vec::new();
    let mut i: usize = 0;
    while i < n
        invariant
            0 <= i <= n,
            n == v@.len(),
            r@.len() == i,
            forall|k: int| 0 <= k < i ==> (#[trigger] r@[k])@ == v@[k]@,
        decreases n - i,
    {
        r.push(v[i].clone());
        i = i + 1;
    }
    proof {
        assert(r@.map_values(|p: QualifiedPath| p@) =~= v@.map_values(|p: QualifiedPath| p@));
    }
    r
}

fn paths_eq(a: &Vec<QualifiedPath>, b: &Vec<QualifiedPath>) -> (r: bool)
    ensures
        r == (a@.map_values(|p: QualifiedPath| p@) == b@.map_values(|p: QualifiedPath| p@)),
{
    if a.len() != b.len() {
        proof {
            assert(a@.map_values(|p: QualifiedPath| p@).len() != b@.map_values(
                |p: QualifiedPath| p@,
            ).len());
        }
        return false;
    }
    let n = a.len();
    let mut i: usize = 0;
    while i < n
        invariant
            0 <= i <= n,
            n == a@.len(),
            n == b@.len(),
            forall|k: int| 0 <= k < i ==> a@[k]@ == b@[k]@,
        decreases n - i,
    {
        if !(a[i] == b[i]) {
            proof {
                assert(a@.map_values(|p: QualifiedPath| p@)[i as int] != b@.map_values(
                    |p: QualifiedPath| p@,
                )[i as int]);
            }
            return false;
        }
        i = i + 1;
    }
    proof {
        assert(a@.map_values(|p: QualifiedPath| p@) =~= b@.map_values(|p: QualifiedPath| p@));
    }
    true
}

impl Clone for ConflictStatistic {
    fn clone(&self) -> (r: Self)
        ensures
            stat_kind(r) == stat_kind(*self),
            stat_paths(r) == stat_paths(*self),
            stat_cause(r) == stat_cause(*self),
    {
        match self {
            ConflictStatistic::OK(ps) => ConflictStatistic::OK(clone_paths(ps)),
            ConflictStatistic::CONFLICT(ps) => ConflictStatistic::CONFLICT(clone_paths(ps)),
            ConflictStatistic::ERROR(ps, e) => ConflictStatistic::ERROR(clone_paths(ps), e.clone()),
        }
    }
}

/// Two statistics are equal when their classification and their path sets
/// agree; an error's cause is carried content, not identity.
impl PartialEq for ConflictStatistic {
    fn eq(&self, other: &Self) -> (r: bool) {
        match (self, other) {
            (ConflictStatistic::OK(a), ConflictStatistic::OK(b)) => paths_eq(a, b),
            (ConflictStatistic::CONFLICT(a), ConflictStatistic::CONFLICT(b)) => paths_eq(a, b),
            (ConflictStatistic::ERROR(a, _), ConflictStatistic::ERROR(b, _)) => paths_eq(a, b),
            _ => false,
        }
    }
}

impl vstd::std_specs::cmp::PartialEqSpecImpl for ConflictStatistic {
    open spec fn obeys_eq_spec() -> bool {
        true
    }

    open spec fn eq_spec(&self, other: &Self) -> bool {
        stat_kind(*self) == stat_kind(*other) && stat_paths(*self) == stat_paths(*other)
    }
}

/// A partitioned, append-only collection of conflict statistics, queryable
/// by classification.
pub struct ConflictStatistics {
    ok: Vec<ConflictStatistic>,
    conflict: Vec<ConflictStatistic>,
    error: Vec<ConflictStatistic>,
}

impl ConflictStatistics {
    pub closed spec fn oks(&self) -> Seq<ConflictStatistic> {
        self.ok@
    }

    pub closed spec fn conflicts(&self) -> Seq<ConflictStatistic> {
        self.conflict@
    }

    pub closed spec fn errors(&self) -> Seq<ConflictStatistic> {
        self.error@
    }

    /// Every statistic sits in the partition of its own classification.
    pub open spec fn wf(&self) -> bool {
        &&& forall|i: int|
            0 <= i < self.oks().len() ==> stat_kind(#[trigger] self.oks()[i]) == ConflictKind::Clean
        &&& forall|i: int|
            0 <= i < self.conflicts().len() ==> stat_kind(#[trigger] self.conflicts()[i])
                == ConflictKind::Conflicting
        &&& forall|i: int|
            0 <= i < self.errors().len() ==> stat_kind(#[trigger] self.errors()[i])
                == ConflictKind::Failed
    }

    pub fn new() -> (r: Self)
        ensures
            r.wf(),
            r.oks().len() == 0,
            r.conflicts().len() == 0,
            r.errors().len() == 0,
    {
        Self { ok: Vec::new(), conflict: Vec::new(), error: Vec::new() }
    }

    /// Collects a batch of statistics into their partitions: each partition
    /// holds exactly the statistics of its classification, in input order.
    #[verifier::loop_isolation(false)]
    pub fn from_iter(statistics: Vec<ConflictStatistic>) -> (r: Self)
        ensures
            r.wf(),
            stats_like(
                r.oks(),
                statistics@.filter(|s: ConflictStatistic| stat_kind(s) == ConflictKind::Clean),
            ),
            stats_like(
                r.conflicts(),
                statistics@.filter(
                    |s: ConflictStatistic| stat_kind(s) == ConflictKind::Conflicting,
                ),
            ),
            stats_like(
                r.errors(),
                statistics@.filter(|s: ConflictStatistic| stat_kind(s) == ConflictKind::Failed),
            ),
            r.oks().len() + r.conflicts().len() + r.errors().len() == statistics@.len(),
    {
        let ghost clean = |s: ConflictStatistic| stat_kind(s) == ConflictKind::Clean;
        let ghost conflicting = |s: ConflictStatistic| stat_kind(s) == ConflictKind::Conflicting;
        let ghost failed = |s: ConflictStatistic| stat_kind(s) == ConflictKind::Failed;
        let mut new = Self::new();
        let n = statistics.len();
        let mut i: usize = 0;
        proof {
            reveal(Seq::filter);
            assert(statistics@.take(0).filter(clean) =~= Seq::<ConflictStatistic>::empty());
            assert(statistics@.take(0).filter(conflicting) =~= Seq::<ConflictStatistic>::empty());
            assert(statistics@.take(0).filter(failed) =~= Seq::<ConflictStatistic>::empty());
        }
        while i < n
            invariant
                0 <= i <= n,
                n == statistics@.len(),
                new.wf(),
                stats_like(new.oks(), statistics@.take(i as int).filter(clean)),
                stats_like(new.conflicts(), statistics@.take(i as int).filter(conflicting)),
                stats_like(new.errors(), statistics@.take(i as int).filter(failed)),
                new.oks().len() + new.conflicts().len() + new.errors().len() == i,
            decreases n - i,
        {
            let ghost cur = statistics@[i as int];
            let ghost pre = new;
            let s = statistics[i].clone();
            proof {
                assert(stat_like(s, cur));
            }
            new.push(s);
            proof {
                reveal(Seq::filter);
                assert(statistics@.take(i + 1 as int).drop_last() =~= statistics@.take(i as int));
                assert(statistics@.take(i + 1 as int).last() == cur);
                if stat_kind(cur) == ConflictKind::Clean {
                    assert(statistics@.take(i + 1 as int).filter(clean) == statistics@.take(
                        i as int,
                    ).filter(clean).push(cur));
                    lemma_stats_like_push(
                        pre.oks(),
                        statistics@.take(i as int).filter(clean),
                        new.oks().last(),
                        cur,
                    );
                    assert(new.oks() =~= pre.oks().push(new.oks().last()));
                } else if stat_kind(cur) == ConflictKind::Conflicting {
                    assert(statistics@.take(i + 1 as int).filter(conflicting) == statistics@.take(
                        i as int,
                    ).filter(conflicting).push(cur));
                    lemma_stats_like_push(
                        pre.conflicts(),
                        statistics@.take(i as int).filter(conflicting),
                        new.conflicts().last(),
                        cur,
                    );
                    assert(new.conflicts() =~= pre.conflicts().push(new.conflicts().last()));
                } else {
                    assert(statistics@.take(i + 1 as int).filter(failed) == statistics@.take(
                        i as int,
                    ).filter(failed).push(cur));
                    lemma_stats_like_push(
                        pre.errors(),
                        statistics@.take(i as int).filter(failed),
                        new.errors().last(),
                        cur,
                    );
                    assert(new.errors() =~= pre.errors().push(new.errors().last()));
                }
            }
            i = i + 1;
        }
        proof {
            assert(statistics@.take(n as int) =~= statistics@);
        }
        new
    }

    /// Appends one statistic to the partition of its classification.
    pub fn push(&mut self, statistic: ConflictStatistic)
        requires
            old(self).wf(),
        ensures
            final(self).wf(),
            stat_kind(statistic) == ConflictKind::Clean ==> (final(self).oks() == old(self).oks().push(statistic)
                && final(self).conflicts() == old(self).conflicts()
                && final(self).errors() == old(self).errors()),
            stat_kind(statistic) == ConflictKind::Conflicting ==> (final(self).conflicts() == old(self).conflicts().push(statistic)
                && final(self).oks() == old(self).oks()
                && final(self).errors() == old(self).errors()),
            stat_kind(statistic) == ConflictKind::Failed ==> (final(self).errors() == old(self).errors().push(statistic)
                && final(self).oks() == old(self).oks()
                && final(self).conflicts() == old(self).conflicts()),
    {
        match statistic {
            ConflictStatistic::OK(_) => self.ok.push(statistic),
            ConflictStatistic::CONFLICT(_) => self.conflict.push(statistic),
            ConflictStatistic::ERROR(_, _) => self.error.push(statistic),
        }
    }

    /// All statistics: the clean merges, then the conflicts, then the
    /// errors.
    pub fn iter_all(&self) -> (r: Vec<ConflictStatistic>)
        ensures
            stats_like(r@, self.oks() + self.conflicts() + self.errors()),
    {
        let mut r: Vec<ConflictStatistic> = Vec::new();
        append_clones(&mut r, &self.ok);
        let ghost r1 = r@;
        append_clones(&mut r, &self.conflict);
        let ghost r2 = r@;
        append_clones(&mut r, &self.error);
        proof {
            assert(self.oks() == self.ok@);
            assert(self.conflicts() == self.conflict@);
            assert(self.errors() == self.error@);
            let whole = self.oks() + self.conflicts() + self.errors();
            let n1 = self.ok@.len() as int;
            let n2 = self.conflict@.len() as int;
            assert forall|i: int| 0 <= i < r@.len() implies stat_like(
                #[trigger] r@[i],
                whole[i],
            ) by {
                if i < n1 {
                    assert(stat_like(r1[0 + i], self.ok@[i]));
                    assert(r2[i] == r1[i]);
                    assert(r@[i] == r2[i]);
                    assert(whole[i] == self.ok@[i]);
                } else if i < n1 + n2 {
                    assert(stat_like(r2[r1.len() + (i - n1)], self.conflict@[i - n1]));
                    assert(r@[i] == r2[i]);
                    assert(whole[i] == self.conflict@[i - n1]);
                } else {
                    assert(stat_like(r@[r2.len() + (i - n1 - n2)], self.error@[i - n1 - n2]));
                    assert(whole[i] == self.error@[i - n1 - n2]);
                }
            }
        }
        r
    }

    pub fn iter_ok(&self) -> (r: &Vec<ConflictStatistic>)
        ensures
            r@ == self.oks(),
    {
        &self.ok
    }

    pub fn iter_conflicts(&self) -> (r: &Vec<ConflictStatistic>)
        ensures
            r@ == self.conflicts(),
    {
        &self.conflict
    }

    pub fn iter_errors(&self) -> (r: &Vec<ConflictStatistic>)
        ensures
            r@ == self.errors(),
    {
        &self.error
    }

    pub fn n_ok(&self) -> (r: usize)
        ensures
            r == self.oks().len(),
    {
        self.ok.len()
    }

    pub fn n_conflict(&self) -> (r: usize)
        ensures
            r == self.conflicts().len(),
    {
        self.conflict.len()
    }

    pub fn n_errors(&self) -> (r: usize)
        ensures
            r == self.errors().len(),
    {
        self.error.len()
    }

    /// Whether an equal statistic (same classification and path set) was
    /// collected.
    pub fn contains(&self, statistic: &ConflictStatistic) -> (r: bool)
        ensures
            r == (exists|i: int|
                0 <= i < self.oks().len() && stat_matches(#[trigger] self.oks()[i], *statistic))
                || (exists|i: int|
                0 <= i < self.conflicts().len() && stat_matches(
                    #[trigger] self.conflicts()[i],
                    *statistic,
                )) || (exists|i: int|
                0 <= i < self.errors().len() && stat_matches(
                    #[trigger] self.errors()[i],
                    *statistic,
                )),
    {
        let in_ok = contains_stat(&self.ok, statistic);
        let in_conflict = contains_stat(&self.conflict, statistic);
        let in_error = contains_stat(&self.error, statistic);
        proof {
            assert(self.oks() == self.ok@);
            assert(self.conflicts() == self.conflict@);
            assert(self.errors() == self.error@);
        }
        in_ok || in_conflict || in_error
    }
}

/// Same classification and the same path set.
pub open spec fn stat_matches(a: ConflictStatistic, b: ConflictStatistic) -> bool {
    stat_kind(a) == stat_kind(b) && stat_paths(a) == stat_paths(b)
}

fn contains_stat(v: &Vec<ConflictStatistic>, s: &ConflictStatistic) -> (r: bool)
    ensures
        r == exists|i: int| 0 <= i < v@.len() && stat_matches(#[trigger] v@[i], *s),
{
    let n = v.len();
    let mut i: usize = 0;
    while i < n
        invariant
            0 <= i <= n,
            n == v@.len(),
            forall|k: int| 0 <= k < i ==> !stat_matches(#[trigger] v@[k], *s),
        decreases n - i,
    {
        if &v[i] == s {
            proof {
                assert(stat_matches(v@[i as int], *s));
            }
            return true;
        }
        i = i + 1;
    }
    false
}

fn append_clones(out: &mut Vec<ConflictStatistic>, v: &Vec<ConflictStatistic>)
    ensures
        final(out)@.len() == old(out)@.len() + v@.len(),
        forall|i: int| 0 <= i < old(out)@.len() ==> #[trigger] final(out)@[i] == old(out)@[i],
        forall|i: int|
            0 <= i < v@.len() ==> stat_like(#[trigger] final(out)@[old(out)@.len() + i], v@[i]),
{
    let n = v.len();
    let mut i: usize = 0;
    while i < n
        invariant
            0 <= i <= n,
            n == v@.len(),
            out@.len() == old(out)@.len() + i,
            forall|k: int| 0 <= k < old(out)@.len() ==> #[trigger] out@[k] == old(out)@[k],
            forall|k: int|
                0 <= k < i ==> stat_like(#[trigger] out@[old(out)@.len() + k], v@[k]),
        decreases n - i,
    {
        out.push(v[i].clone());
        i = i + 1;
    }
}

/// Same classification, path set and carried cause.
pub open spec fn stat_like(a: ConflictStatistic, b: ConflictStatistic) -> bool {
    stat_matches(a, b) && stat_cause(a) == stat_cause(b)
}

/// Element-wise agreement of classification, path sets and causes.
pub open spec fn stats_like(a: Seq<ConflictStatistic>, b: Seq<ConflictStatistic>) -> bool {
    a.len() == b.len() && forall|i: int| 0 <= i < a.len() ==> stat_like(#[trigger] a[i], b[i])
}

proof fn lemma_stats_like_push(
    a: Seq<ConflictStatistic>,
    b: Seq<ConflictStatistic>,
    x: ConflictStatistic,
    y: ConflictStatistic,
)
    requires
        stats_like(a, b),
        stat_like(x, y),
    ensures
        stats_like(a.push(x), b.push(y)),
{
    assert forall|i: int| 0 <= i < a.push(x).len() implies stat_like(
        #[trigger] a.push(x)[i],
        b.push(y)[i],
    ) by {
        if i < a.len() {
            assert(a.push(x)[i] == a[i]);
            assert(b.push(y)[i] == b[i]);
        }
    }
}

/// Where the disposable merge experiments start: the checked-out branch, or
/// a configured one.
pub enum ConflictCheckBaseBranch {
    Current,
    Custom(QualifiedPath),
}

/// The view of the configured base, if one is configured.
pub open spec fn base_view_of(b: &ConflictCheckBaseBranch) -> Option<Seq<Seq<char>>> {
    match b {
        ConflictCheckBaseBranch::Current => None,
        ConflictCheckBaseBranch::Custom(p) => Some(p@),
    }
}

impl Clone for ConflictCheckBaseBranch {
    fn clone(&self) -> (r: Self)
        ensures
            base_view_of(&r) == base_view_of(self),
    {
        match self {
            ConflictCheckBaseBranch::Current => ConflictCheckBaseBranch::Current,
            ConflictCheckBaseBranch::Custom(p) => ConflictCheckBaseBranch::Custom(p.clone()),
        }
    }
}

/// One backend command a conflict probe asks for.
#[derive(Debug)]
pub enum ProbeAction {
    /// Read the name of the currently checked-out branch.
    ReadCurrentBranch,
    /// Check out an existing branch.
    Checkout(QualifiedPath),
    /// Check out the disposable branch without validation.
    CheckoutTemporary(QualifiedPath),
    /// Create a branch at the current tip.
    CreateBranch(QualifiedPath),
    /// Attempt to merge both paths into the checked-out branch.
    Merge(QualifiedPath, QualifiedPath),
    /// Abort the in-progress merge.
    AbortMerge,
    /// Delete a branch.
    DeleteBranch(QualifiedPath),
}

/// What the backend replied to the last action.
#[derive(Debug)]
pub enum ProbeEvent {
    /// The current branch, as a reply to `ReadCurrentBranch`.
    Current(QualifiedPath),
    /// The command ran; the flag is its exit status, the text its output.
    Completed(bool, String),
    /// The backend invocation itself failed.
    Fatal(GitError),
}

/// The position of a probe in its fixed experiment sequence.
#[derive(Clone, Copy, PartialEq, Eq, Structural, Debug)]
pub enum ProbeState {
    ReadCurrent,
    CheckoutBase,
    CreateTemp,
    CheckoutTemp,
    Merge,
    AbortMerge,
    RestoreCheckout,
    DeleteTemp,
    Done,
}

/// The name of the disposable branch every probe uses.
pub open spec fn temp_branch_name() -> Seq<Seq<char>> {
    seq![seq!['t', 'm', 'p']]
}

/// The set holding only the disposable branch.
pub open spec fn temp_set() -> Set<Seq<Seq<char>>> {
    Set::<Seq<Seq<char>>>::empty().insert(temp_branch_name())
}

/// The modeled effect of a probe on the backend: its control state, what it
/// learned, and what the repository would look like if every command it was
/// answered for took effect.
pub struct ProbeAbs {
    pub state: ProbeState,
    pub original: Option<Seq<Seq<char>>>,
    pub merge_ok: bool,
    pub has_error: bool,
    pub temp_created: bool,
    pub checkout: Option<Seq<Seq<char>>>,
    pub temps: Set<Seq<Seq<char>>>,
}

pub open spec fn probe_init() -> ProbeAbs {
    ProbeAbs {
        state: ProbeState::ReadCurrent,
        original: None,
        merge_ok: false,
        has_error: false,
        temp_created: false,
        checkout: None,
        temps: Set::<Seq<Seq<char>>>::empty(),
    }
}

/// One transition of the probe: a successful command takes effect, a failed
/// or fatal one records the error, and cleanup is reached on every route.
pub open spec fn probe_step(a: ProbeAbs, base: Option<Seq<Seq<char>>>, ev: ProbeEvent) -> ProbeAbs {
    match a.state {
        ProbeState::ReadCurrent => match ev {
            ProbeEvent::Current(p) => ProbeAbs {
                state: if base is Some {
                    ProbeState::CheckoutBase
                } else {
                    ProbeState::CreateTemp
                },
                original: Some(p@),
                checkout: Some(p@),
                ..a
            },
            ProbeEvent::Fatal(_) => ProbeAbs { state: ProbeState::Done, has_error: true, ..a },
            ProbeEvent::Completed(_, _) => a,
        },
        ProbeState::CheckoutBase => match ev {
            ProbeEvent::Completed(true, _) => ProbeAbs {
                state: ProbeState::CreateTemp,
                checkout: base,
                ..a
            },
            ProbeEvent::Current(_) => a,
            _ => ProbeAbs { state: ProbeState::RestoreCheckout, has_error: true, ..a },
        },
        ProbeState::CreateTemp => match ev {
            ProbeEvent::Completed(true, _) => ProbeAbs {
                state: ProbeState::CheckoutTemp,
                temp_created: true,
                temps: a.temps.insert(temp_branch_name()),
                ..a
            },
            ProbeEvent::Current(_) => a,
            _ => ProbeAbs { state: ProbeState::RestoreCheckout, has_error: true, ..a },
        },
        ProbeState::CheckoutTemp => match ev {
            ProbeEvent::Completed(true, _) => ProbeAbs {
                state: ProbeState::Merge,
                checkout: Some(temp_branch_name()),
                ..a
            },
            ProbeEvent::Current(_) => a,
            _ => ProbeAbs { state: ProbeState::RestoreCheckout, has_error: true, ..a },
        },
        ProbeState::Merge => match ev {
            ProbeEvent::Completed(true, _) => ProbeAbs {
                state: ProbeState::RestoreCheckout,
                merge_ok: true,
                ..a
            },
            ProbeEvent::Completed(false, _) => ProbeAbs { state: ProbeState::AbortMerge, ..a },
            ProbeEvent::Current(_) => a,
            _ => ProbeAbs { state: ProbeState::RestoreCheckout, has_error: true, ..a },
        },
        ProbeState::AbortMerge => match ev {
            ProbeEvent::Completed(_, _) => ProbeAbs { state: ProbeState::RestoreCheckout, ..a },
            ProbeEvent::Current(_) => a,
            _ => ProbeAbs { state: ProbeState::RestoreCheckout, has_error: true, ..a },
        },
        ProbeState::RestoreCheckout => {
            let next = if a.temp_created {
                ProbeState::DeleteTemp
            } else {
                ProbeState::Done
            };
            match ev {
                ProbeEvent::Completed(true, _) => ProbeAbs {
                    state: next,
                    checkout: a.original,
                    ..a
                },
                ProbeEvent::Current(_) => a,
                // failure to restore the checkout is an error to propagate
                _ => ProbeAbs { state: next, has_error: true, ..a },
            }
        },
        ProbeState::DeleteTemp => match ev {
            ProbeEvent::Completed(true, _) => ProbeAbs {
                state: ProbeState::Done,
                temps: a.temps.remove(temp_branch_name()),
                ..a
            },
            ProbeEvent::Current(_) => a,
            _ => ProbeAbs { state: ProbeState::Done, has_error: true, ..a },
        },
        ProbeState::Done => a,
    }
}

/// The probe's modeled effect after a whole reply history.
pub open spec fn probe_run(base: Option<Seq<Seq<char>>>, events: Seq<ProbeEvent>) -> ProbeAbs
    decreases events.len(),
{
    if events.len() == 0 {
        probe_init()
    } else {
        probe_step(probe_run(base, events.drop_last()), base, events.last())
    }
}

/// Which reply kinds fit which state.
pub open spec fn event_fits(state: ProbeState, ev: ProbeEvent) -> bool {
    if state == ProbeState::ReadCurrent {
        ev matches ProbeEvent::Current(_) || ev matches ProbeEvent::Fatal(_)
    } else {
        ev matches ProbeEvent::Completed(_, _) || ev matches ProbeEvent::Fatal(_)
    }
}

/// The per-state facts that hold after any reply history.
pub open spec fn probe_inv(base: Option<Seq<Seq<char>>>, a: ProbeAbs) -> bool {
    &&& (a.state != ProbeState::ReadCurrent && a.state != ProbeState::Done) ==> a.original is Some
    &&& a.state == ProbeState::ReadCurrent ==> a == probe_init()
    &&& a.state == ProbeState::CheckoutBase ==> (!a.temp_created && a.temps == Set::<
        Seq<Seq<char>>,
    >::empty() && a.checkout == a.original && !a.has_error && !a.merge_ok && base is Some)
    &&& a.state == ProbeState::CreateTemp ==> (!a.temp_created && a.temps == Set::<
        Seq<Seq<char>>,
    >::empty() && !a.has_error && !a.merge_ok && (a.checkout == a.original || a.checkout == base))
    &&& a.state == ProbeState::CheckoutTemp ==> (a.temp_created && a.temps == temp_set()
        && !a.has_error && !a.merge_ok)
    &&& a.state == ProbeState::Merge ==> (a.temp_created && a.temps == temp_set() && !a.has_error
        && !a.merge_ok)
    &&& a.state == ProbeState::AbortMerge ==> (a.temp_created && a.temps == temp_set()
        && !a.has_error && !a.merge_ok)
    &&& a.state == ProbeState::RestoreCheckout ==> (a.temps == if a.temp_created {
        temp_set()
    } else {
        Set::<Seq<Seq<char>>>::empty()
    })
    &&& a.state == ProbeState::DeleteTemp ==> (a.temp_created && a.temps == temp_set() && (
    !a.has_error ==> a.checkout == a.original))
    &&& a.state == ProbeState::Done ==> (!a.has_error ==> (a.checkout == a.original && a.temps
        == Set::<Seq<Seq<char>>>::empty() && a.original is Some))
}

/// The per-state facts hold of every reachable probe effect.
pub proof fn lemma_probe_run_invariant(base: Option<Seq<Seq<char>>>, events: Seq<ProbeEvent>)
    ensures
        probe_inv(base, probe_run(base, events)),
    decreases events.len(),
{
    if events.len() > 0 {
        lemma_probe_run_invariant(base, events.drop_last());
        let a = probe_run(base, events.drop_last());
        let ev = events.last();
        assert(Set::<Seq<Seq<char>>>::empty().insert(temp_branch_name()) =~= temp_set());
        assert(temp_set().remove(temp_branch_name()) =~= Set::<Seq<Seq<char>>>::empty());
    }
}

/// How a modeled probe effect classifies: a backend error wins, then a
/// clean merge, else a conflict.
pub open spec fn abs_kind(a: ProbeAbs) -> ConflictKind {
    if a.has_error {
        ConflictKind::Failed
    } else if a.merge_ok {
        ConflictKind::Clean
    } else {
        ConflictKind::Conflicting
    }
}

/// The one backend action a probe whose modeled effect is `a` demands for
/// the pair `left`/`right` against `base`.
pub open spec fn action_matches(
    act: ProbeAction,
    a: ProbeAbs,
    base: Option<Seq<Seq<char>>>,
    left: Seq<Seq<char>>,
    right: Seq<Seq<char>>,
) -> bool {
    match a.state {
        ProbeState::ReadCurrent => act is ReadCurrentBranch,
        ProbeState::CheckoutBase => act matches ProbeAction::Checkout(p) && Some(p@) == base,
        ProbeState::CreateTemp => act matches ProbeAction::CreateBranch(p) && p@
            == temp_branch_name(),
        ProbeState::CheckoutTemp => act matches ProbeAction::CheckoutTemporary(p) && p@
            == temp_branch_name(),
        ProbeState::Merge => act matches ProbeAction::Merge(l, r) && l@ == left && r@ == right,
        ProbeState::AbortMerge => act is AbortMerge,
        ProbeState::RestoreCheckout => act matches ProbeAction::Checkout(p) && Some(p@)
            == a.original,
        ProbeState::DeleteTemp => act matches ProbeAction::DeleteBranch(p) && p@
            == temp_branch_name(),
        ProbeState::Done => false,
    }
}

/// One disposable merge experiment for a pair of paths, as a state machine:
/// the caller performs each demanded backend action and hands back the
/// reply; the probe decides, classifies, and always routes through the
/// cleanup steps.
pub struct ConflictProbe {
    left: QualifiedPath,
    right: QualifiedPath,
    base: ConflictCheckBaseBranch,
    state: ProbeState,
    original: Option<QualifiedPath>,
    merge_ok: bool,
    error: Option<GitError>,
    temp_created: bool,
    events: Ghost<Seq<ProbeEvent>>,
}

impl ConflictProbe {
    pub closed spec fn left_view(&self) -> Seq<Seq<char>> {
        self.left@
    }

    pub closed spec fn right_view(&self) -> Seq<Seq<char>> {
        self.right@
    }

    pub closed spec fn base_view(&self) -> Option<Seq<Seq<char>>> {
        base_view_of(&self.base)
    }

    pub closed spec fn events_view(&self) -> Seq<ProbeEvent> {
        self.events@
    }

    /// The probe's modeled effect so far.
    pub open spec fn abs(&self) -> ProbeAbs {
        probe_run(self.base_view(), self.events_view())
    }

    /// The stored fields agree with the modeled effect.
    pub closed spec fn wf(&self) -> bool {
        &&& self.state == self.abs().state
        &&& self.merge_ok == self.abs().merge_ok
        &&& (self.error is Some) == self.abs().has_error
        &&& self.temp_created == self.abs().temp_created
        &&& match (self.original, self.abs().original) {
            (Some(p), Some(v)) => p@ == v,
            (None, None) => true,
            _ => false,
        }
    }

    pub open spec fn done(&self) -> bool {
        self.abs().state == ProbeState::Done
    }

    /// How the experiment classifies once it is done.
    pub open spec fn classification_kind(&self) -> ConflictKind {
        abs_kind(self.abs())
    }

    /// A fresh probe for one unordered pair.
    pub fn new(left: QualifiedPath, right: QualifiedPath, base: ConflictCheckBaseBranch) -> (r:
        Self)
        ensures
            r.wf(),
            !r.done(),
            r.events_view() == Seq::<ProbeEvent>::empty(),
            r.left_view() == left@,
            r.right_view() == right@,
            r.base_view() == base_view_of(&base),
    {
        Self {
            left,
            right,
            base,
            state: ProbeState::ReadCurrent,
            original: None,
            merge_ok: false,
            error: None,
            temp_created: false,
            events: Ghost(Seq::empty()),
        }
    }

    /// The next backend action to perform; nothing once the probe is done.
    pub fn next_action(&self) -> (r: Option<ProbeAction>)
        requires
            self.wf(),
        ensures
            r is None <==> self.done(),
            self.abs().state == ProbeState::ReadCurrent ==> (r matches Some(a) && a matches
                ProbeAction::ReadCurrentBranch),
            self.abs().state == ProbeState::CheckoutBase ==> (r matches Some(a) && a matches
                ProbeAction::Checkout(p) && Some(p@) == self.base_view()),
            self.abs().state == ProbeState::CreateTemp ==> (r matches Some(a) && a matches
                ProbeAction::CreateBranch(p) && p@ == temp_branch_name()),
            self.abs().state == ProbeState::CheckoutTemp ==> (r matches Some(a) && a matches
                ProbeAction::CheckoutTemporary(p) && p@ == temp_branch_name()),
            self.abs().state == ProbeState::Merge ==> (r matches Some(a) && a matches
                ProbeAction::Merge(l, rr) && l@ == self.left_view() && rr@ == self.right_view()),
            self.abs().state == ProbeState::AbortMerge ==> (r matches Some(a) && a matches
                ProbeAction::AbortMerge),
            self.abs().state == ProbeState::RestoreCheckout ==> (r matches Some(a) && a matches
                ProbeAction::Checkout(p) && Some(p@) == self.abs().original),
            self.abs().state == ProbeState::DeleteTemp ==> (r matches Some(a) && a matches
                ProbeAction::DeleteBranch(p) && p@ == temp_branch_name()),
            r matches Some(a) ==> action_matches(
                a,
                self.abs(),
                self.base_view(),
                self.left_view(),
                self.right_view(),
            ),
    {
        proof {
            lemma_probe_run_invariant(self.base_view(), self.events_view());
        }
        match self.state {
            ProbeState::ReadCurrent => Some(ProbeAction::ReadCurrentBranch),
            ProbeState::CheckoutBase => {
                match &self.base {
                    ConflictCheckBaseBranch::Custom(p) => Some(ProbeAction::Checkout(p.clone())),
                    ConflictCheckBaseBranch::Current => {
                        proof {
                            assert(false);
                        }
                        Some(ProbeAction::ReadCurrentBranch)
                    },
                }
            },
            ProbeState::CreateTemp => Some(ProbeAction::CreateBranch(temp_branch())),
            ProbeState::CheckoutTemp => Some(ProbeAction::CheckoutTemporary(temp_branch())),
            ProbeState::Merge => Some(
                ProbeAction::Merge(self.left.clone(), self.right.clone()),
            ),
            ProbeState::AbortMerge => Some(ProbeAction::AbortMerge),
            ProbeState::RestoreCheckout => {
                match &self.original {
                    Some(p) => Some(ProbeAction::Checkout(p.clone())),
                    None => {
                        proof {
                            assert(false);
                        }
                        Some(ProbeAction::ReadCurrentBranch)
                    },
                }
            },
            ProbeState::DeleteTemp => Some(ProbeAction::DeleteBranch(temp_branch())),
            ProbeState::Done => None,
        }
    }

    /// Feeds the backend's reply to the last action into the probe.
    pub fn absorb(&mut self, ev: ProbeEvent)
        requires
            old(self).wf(),
            !old(self).done(),
            event_fits(old(self).abs().state, ev),
        ensures
            final(self).wf(),
            final(self).events_view() == old(self).events_view().push(ev),
            final(self).left_view() == old(self).left_view(),
            final(self).right_view() == old(self).right_view(),
            final(self).base_view() == old(self).base_view(),
    {
        let ghost evg = ev;
        let ghost old_events = self.events@;
        let ghost pre = self.abs();
        let has_base = match &self.base {
            ConflictCheckBaseBranch::Current => false,
            ConflictCheckBaseBranch::Custom(_) => true,
        };
        match self.state {
            ProbeState::ReadCurrent => {
                match ev {
                    ProbeEvent::Current(p) => {
                        self.original = Some(p);
                        self.state = if has_base {
                            ProbeState::CheckoutBase
                        } else {
                            ProbeState::CreateTemp
                        };
                    },
                    ProbeEvent::Fatal(e) => {
                        self.error = Some(e);
                        self.state = ProbeState::Done;
                    },
                    ProbeEvent::Completed(_, _) => {},
                }
            },
            ProbeState::CheckoutBase => {
                match ev {
                    ProbeEvent::Completed(true, _) => {
                        self.state = ProbeState::CreateTemp;
                    },
                    ProbeEvent::Completed(false, _) => {
                        self.error = Some(GitError::new("base checkout failed"));
                        self.state = ProbeState::RestoreCheckout;
                    },
                    ProbeEvent::Fatal(e) => {
                        self.error = Some(e);
                        self.state = ProbeState::RestoreCheckout;
                    },
                    ProbeEvent::Current(_) => {},
                }
            },
            ProbeState::CreateTemp => {
                match ev {
                    ProbeEvent::Completed(true, _) => {
                        self.temp_created = true;
                        self.state = ProbeState::CheckoutTemp;
                    },
                    ProbeEvent::Completed(false, _) => {
                        self.error = Some(GitError::new("could not create the disposable branch"));
                        self.state = ProbeState::RestoreCheckout;
                    },
                    ProbeEvent::Fatal(e) => {
                        self.error = Some(e);
                        self.state = ProbeState::RestoreCheckout;
                    },
                    ProbeEvent::Current(_) => {},
                }
            },
            ProbeState::CheckoutTemp => {
                match ev {
                    ProbeEvent::Completed(true, _) => {
                        self.state = ProbeState::Merge;
                    },
                    ProbeEvent::Completed(false, _) => {
                        self.error = Some(
                            GitError::new("could not check out the disposable branch"),
                        );
                        self.state = ProbeState::RestoreCheckout;
                    },
                    ProbeEvent::Fatal(e) => {
                        self.error = Some(e);
                        self.state = ProbeState::RestoreCheckout;
                    },
                    ProbeEvent::Current(_) => {},
                }
            },
            ProbeState::Merge => {
                match ev {
                    ProbeEvent::Completed(true, _) => {
                        self.merge_ok = true;
                        self.state = ProbeState::RestoreCheckout;
                    },
                    ProbeEvent::Completed(false, _) => {
                        self.state = ProbeState::AbortMerge;
                    },
                    ProbeEvent::Fatal(e) => {
                        self.error = Some(e);
                        self.state = ProbeState::RestoreCheckout;
                    },
                    ProbeEvent::Current(_) => {},
                }
            },
            ProbeState::AbortMerge => {
                match ev {
                    ProbeEvent::Completed(_, _) => {
                        self.state = ProbeState::RestoreCheckout;
                    },
                    ProbeEvent::Fatal(e) => {
                        self.error = Some(e);
                        self.state = ProbeState::RestoreCheckout;
                    },
                    ProbeEvent::Current(_) => {},
                }
            },
            ProbeState::RestoreCheckout => {
                let next = if self.temp_created {
                    ProbeState::DeleteTemp
                } else {
                    ProbeState::Done
                };
                match ev {
                    ProbeEvent::Completed(true, _) => {
                        self.state = next;
                    },
                    ProbeEvent::Completed(false, _) => {
                        self.error = Some(GitError::new("could not restore the original checkout"));
                        self.state = next;
                    },
                    ProbeEvent::Fatal(e) => {
                        self.error = Some(e);
                        self.state = next;
                    },
                    ProbeEvent::Current(_) => {},
                }
            },
            ProbeState::DeleteTemp => {
                match ev {
                    ProbeEvent::Completed(true, _) => {
                        self.state = ProbeState::Done;
                    },
                    ProbeEvent::Completed(false, _) => {
                        self.error = Some(GitError::new("could not delete the disposable branch"));
                        self.state = ProbeState::Done;
                    },
                    ProbeEvent::Fatal(e) => {
                        self.error = Some(e);
                        self.state = ProbeState::Done;
                    },
                    ProbeEvent::Current(_) => {},
                }
            },
            ProbeState::Done => {},
        }
        proof {
            self.events@ = old_events.push(evg);
            assert(self.events@.drop_last() =~= old_events);
            assert(self.events@.last() == evg);
            assert(self.abs() == probe_step(pre, self.base_view(), evg));
        }
    }

    /// The statistic the finished experiment yields: the tested pair, under
    /// its classification, with the backend cause on an error.
    pub fn classification(&self) -> (r: ConflictStatistic)
        requires
            self.wf(),
            self.done(),
        ensures
            stat_kind(r) == self.classification_kind(),
            stat_paths(r) == seq![self.left_view(), self.right_view()],
            stat_cause(r) is Some <==> self.classification_kind() == ConflictKind::Failed,
    {
        let mut ps: Vec<QualifiedPath> = Vec::new();
        ps.push(self.left.clone());
        ps.push(self.right.clone());
        proof {
            assert(ps@.map_values(|p: QualifiedPath| p@) =~= seq![
                self.left_view(),
                self.right_view(),
            ]);
        }
        match &self.error {
            Some(e) => ConflictStatistic::ERROR(ps, e.clone()),
            None => {
                if self.merge_ok {
                    ConflictStatistic::OK(ps)
                } else {
                    ConflictStatistic::CONFLICT(ps)
                }
            },
        }
    }
}

/// The disposable branch as a path value.
fn temp_branch() -> (r: QualifiedPath)
    ensures
        r@ == temp_branch_name(),
{
    let r = QualifiedPath::from_raw("tmp");
    proof {
        reveal_strlit("tmp");
        assert("tmp"@ =~= seq!['t', 'm', 'p']);
        lemma_parse_segments_plain("tmp"@);
        assert(parse_segments("tmp"@) =~= temp_branch_name());
    }
    r
}

/// Law of the cleanup invariant: after a conflict probe has run to
/// completion without reporting a backend error, the modeled checkout is
/// the branch read at the start, and no disposable branch remains.
pub proof fn lemma_probe_cleanup(p: &ConflictProbe)
    requires
        p.wf(),
        p.done(),
        p.classification_kind() != ConflictKind::Failed,
    ensures
        p.abs().original is Some,
        p.abs().checkout == p.abs().original,
        p.abs().temps == Set::<Seq<Seq<char>>>::empty(),
{
    lemma_probe_run_invariant(p.base_view(), p.events_view());
}

/// Every unordered pair of the given paths, each pair in input order: the
/// row of pairs anchored at position `i`, then the rows after it.
pub open spec fn pair_rows(ps: Seq<Seq<Seq<char>>>, i: int) -> Seq<
    (Seq<Seq<char>>, Seq<Seq<char>>),
>
    decreases ps.len() - i,
{
    if i < 0 || i >= ps.len() {
        Seq::empty()
    } else {
        Seq::new((ps.len() - i - 1) as nat, |j: int| (ps[i], ps[i + 1 + j])) + pair_rows(ps, i + 1)
    }
}

pub open spec fn all_pairs(ps: Seq<Seq<Seq<char>>>) -> Seq<(Seq<Seq<char>>, Seq<Seq<char>>)> {
    pair_rows(ps, 0)
}

/// Performs disposable merge experiments for a batch of pairs, one probe at
/// a time, against a fixed base branch.
pub struct ConflictChecker {
    base_branch: ConflictCheckBaseBranch,
}

impl ConflictChecker {
    pub closed spec fn base_view(&self) -> Option<Seq<Seq<char>>> {
        base_view_of(&self.base_branch)
    }

    pub fn new(base_branch: ConflictCheckBaseBranch) -> (r: Self)
        ensures
            r.base_view() == base_view_of(&base_branch),
    {
        Self { base_branch }
    }

    /// A run testing every unordered pair of the given paths.
    #[verifier::loop_isolation(false)]
    pub fn check_n_to_n_pairwise(&self, paths: &Vec<QualifiedPath>) -> (r: ConflictCheckRun)
        ensures
            r.wf(),
            r.base_view() == self.base_view(),
            r.pairs_view() == all_pairs(paths@.map_values(|p: QualifiedPath| p@)),
            r.results_view().len() == 0,
    {
        let ghost ps = paths@.map_values(|p: QualifiedPath| p@);
        let n = paths.len();
        let mut pairs: Vec<(QualifiedPath, QualifiedPath)> = Vec::new();
        let mut i: usize = 0;
        proof {
            assert(pairs_of(pairs@) + pair_rows(ps, 0) =~= all_pairs(ps));
        }
        while i < n
            invariant
                0 <= i <= n,
                n == ps.len(),
                all_pairs(ps) == pairs_of(pairs@) + pair_rows(ps, i as int),
            decreases n - i,
        {
            let mut j: usize = i + 1;
            let ghost row_start = pairs_of(pairs@);
            while j < n
                invariant
                    i < j <= n,
                    pairs_of(pairs@) == row_start + Seq::new((j - i - 1) as nat, |t: int| (ps[
                        i as int], ps[i + 1 + t])),
                decreases n - j,
            {
                let ghost before = pairs_of(pairs@);
                pairs.push((paths[i].clone(), paths[j].clone()));
                proof {
                    assert(pairs_of(pairs@) =~= before.push((ps[i as int], ps[j as int])));
                    assert(row_start + Seq::new((j + 1 - i - 1) as nat, |t: int| (ps[i as int], ps[
                        i + 1 + t])) =~= before.push((ps[i as int], ps[j as int])));
                }
                j = j + 1;
            }
            proof {
                assert(pair_rows(ps, i as int) == Seq::new((n - i - 1) as nat, |t: int| (ps[
                    i as int], ps[i + 1 + t])) + pair_rows(ps, i + 1 as int));
                assert(pairs_of(pairs@) + pair_rows(ps, i + 1 as int) =~= all_pairs(ps));
            }
            i = i + 1;
        }
        proof {
            assert(pair_rows(ps, n as int) =~= Seq::empty());
            assert(pairs_of(pairs@) + Seq::empty() =~= pairs_of(pairs@));
        }
        ConflictCheckRun::new(pairs, self.base_branch.clone())
    }

    /// A run testing a fixed source against each target in turn.
    #[verifier::loop_isolation(false)]
    pub fn check_1_to_n_pairwise(&self, source: &QualifiedPath, targets: &Vec<QualifiedPath>) -> (r:
        ConflictCheckRun)
        ensures
            r.wf(),
            r.base_view() == self.base_view(),
            r.pairs_view().len() == targets@.len(),
            forall|i: int|
                0 <= i < targets@.len() ==> #[trigger] r.pairs_view()[i] == (source@, targets@[i]@),
            r.results_view().len() == 0,
    {
        let n = targets.len();
        let mut pairs: Vec<(QualifiedPath, QualifiedPath)> = Vec::new();
        let mut i: usize = 0;
        while i < n
            invariant
                0 <= i <= n,
                pairs@.len() == i,
                forall|k: int|
                    0 <= k < i ==> #[trigger] pairs_of(pairs@)[k] == (source@, targets@[k]@),
            decreases n - i,
        {
            let ghost before = pairs@;
            pairs.push((source.clone(), targets[i].clone()));
            proof {
                assert(pairs_of(pairs@)[i as int] == (source@, targets@[i as int]@));
                assert(forall|k: int|
                    0 <= k < i ==> #[trigger] pairs_of(pairs@)[k] == pairs_of(before)[k]);
            }
            i = i + 1;
        }
        ConflictCheckRun::new(pairs, self.base_branch.clone())
    }
}

/// The views of a pair list.
pub open spec fn pairs_of(v: Seq<(QualifiedPath, QualifiedPath)>) -> Seq<
    (Seq<Seq<char>>, Seq<Seq<char>>),
> {
    v.map_values(|p: (QualifiedPath, QualifiedPath)| (p.0@, p.1@))
}

/// A batch of conflict experiments in flight: the caller performs the
/// demanded backend actions one by one and hands back each reply; every
/// finished probe's classification is collected in pair order.
pub struct ConflictCheckRun {
    pairs: Vec<(QualifiedPath, QualifiedPath)>,
    base: ConflictCheckBaseBranch,
    next: usize,
    probe: Option<ConflictProbe>,
    results: Vec<ConflictStatistic>,
}

impl ConflictCheckRun {
    pub closed spec fn pairs_view(&self) -> Seq<(Seq<Seq<char>>, Seq<Seq<char>>)> {
        pairs_of(self.pairs@)
    }

    pub closed spec fn base_view(&self) -> Option<Seq<Seq<char>>> {
        base_view_of(&self.base)
    }

    pub closed spec fn results_view(&self) -> Seq<ConflictStatistic> {
        self.results@
    }

    pub closed spec fn in_flight(&self) -> bool {
        self.probe is Some
    }

    /// The reply history of the in-flight probe.
    pub closed spec fn probe_events(&self) -> Seq<ProbeEvent> {
        self.probe->Some_0.events_view()
    }

    /// The modeled effect of the in-flight probe so far.
    pub open spec fn probe_abs(&self) -> ProbeAbs {
        probe_run(self.base_view(), self.probe_events())
    }

    /// The state the in-flight probe awaits a reply for.
    pub open spec fn awaited_state(&self) -> ProbeState {
        self.probe_abs().state
    }

    /// Bookkeeping well-formedness: one statistic per finished pair, each
    /// over exactly its pair, and an in-flight probe working on the next
    /// pair.
    pub closed spec fn wf(&self) -> bool {
        &&& self.results@.len() == self.next
        &&& self.next <= self.pairs@.len()
        &&& match self.probe {
            Some(p) => {
                &&& p.wf()
                &&& !p.done()
                &&& self.next < self.pairs@.len()
                &&& p.left_view() == self.pairs@[self.next as int].0@
                &&& p.right_view() == self.pairs@[self.next as int].1@
                &&& p.base_view() == base_view_of(&self.base)
            },
            None => true,
        }
        &&& forall|i: int|
            0 <= i < self.results@.len() ==> stat_paths(#[trigger] self.results@[i]) == seq![
                self.pairs_view()[i].0,
                self.pairs_view()[i].1,
            ]
    }

    /// Whether every pair has been tested.
    pub open spec fn finished(&self) -> bool {
        self.results_view().len() == self.pairs_view().len() && !self.in_flight()
    }

    fn new(pairs: Vec<(QualifiedPath, QualifiedPath)>, base: ConflictCheckBaseBranch) -> (r: Self)
        ensures
            r.wf(),
            r.pairs_view() == pairs_of(pairs@),
            r.base_view() == base_view_of(&base),
            r.results_view().len() == 0,
            !r.in_flight(),
    {
        Self { pairs, base, next: 0, probe: None, results: Vec::new() }
    }

    /// The next backend action to perform, starting the next pair's probe
    /// when none is in flight; nothing once every pair is tested.
    pub fn next_action(&mut self) -> (r: Option<ProbeAction>)
        requires
            old(self).wf(),
        ensures
            final(self).wf(),
            final(self).pairs_view() == old(self).pairs_view(),
            final(self).base_view() == old(self).base_view(),
            final(self).results_view() == old(self).results_view(),
            r is None <==> old(self).results_view().len() == old(self).pairs_view().len()
                && !old(self).in_flight(),
            r is Some ==> final(self).in_flight(),
            old(self).in_flight() ==> *final(self) == *old(self),
            !old(self).in_flight() && old(self).results_view().len() < old(
                self,
            ).pairs_view().len() ==> (final(self).in_flight() && final(self).probe_events()
                == Seq::<ProbeEvent>::empty()),
            r matches Some(act) ==> action_matches(
                act,
                final(self).probe_abs(),
                final(self).base_view(),
                final(self).pairs_view()[old(self).results_view().len() as int].0,
                final(self).pairs_view()[old(self).results_view().len() as int].1,
            ),
    {
        match &self.probe {
            Some(p) => {
                let a = p.next_action();
                match a {
                    Some(act) => Some(act),
                    None => {
                        proof {
                            assert(false);
                        }
                        None
                    },
                }
            },
            None => {
                if self.next < self.pairs.len() {
                    let l = self.pairs[self.next].0.clone();
                    let rr = self.pairs[self.next].1.clone();
                    let probe = ConflictProbe::new(l, rr, self.base.clone());
                    let act = probe.next_action();
                    self.probe = Some(probe);
                    match act {
                        Some(act) => Some(act),
                        None => {
                            proof {
                                assert(false);
                            }
                            None
                        },
                    }
                } else {
                    None
                }
            },
        }
    }

    /// Feeds the backend's reply into the in-flight probe; a finished probe
    /// is classified and recorded at once.
    pub fn absorb(&mut self, ev: ProbeEvent)
        requires
            old(self).wf(),
            old(self).in_flight(),
            event_fits(old(self).awaited_state(), ev),
        ensures
            final(self).wf(),
            final(self).pairs_view() == old(self).pairs_view(),
            final(self).base_view() == old(self).base_view(),
            final(self).results_view().len() >= old(self).results_view().len(),
            forall|i: int|
                0 <= i < old(self).results_view().len() ==> #[trigger] final(self).results_view()[i]
                    == old(self).results_view()[i],
            ({
                let a = probe_step(old(self).probe_abs(), old(self).base_view(), ev);
                if a.state == ProbeState::Done {
                    &&& !final(self).in_flight()
                    &&& final(self).results_view().len() == old(self).results_view().len() + 1
                    &&& stat_kind(final(self).results_view().last()) == abs_kind(a)
                    &&& (stat_cause(final(self).results_view().last()) is Some <==> abs_kind(a)
                        == ConflictKind::Failed)
                    &&& stat_paths(final(self).results_view().last()) == seq![
                        old(self).pairs_view()[old(self).results_view().len() as int].0,
                        old(self).pairs_view()[old(self).results_view().len() as int].1,
                    ]
                } else {
                    &&& final(self).in_flight()
                    &&& final(self).probe_events() == old(self).probe_events().push(ev)
                    &&& final(self).results_view() == old(self).results_view()
                }
            }),
    {
        let ghost pre_abs = self.probe_abs();
        let mut probe = self.probe.take().unwrap();
        proof {
            assert(probe.abs() == pre_abs);
        }
        let ghost e0 = probe.events_view();
        probe.absorb(ev);
        let total = self.pairs.len();
        proof {
            assert(self.next < total);
            assert(probe.events_view().drop_last() =~= e0);
            assert(probe.events_view().last() == ev);
            assert(probe.abs() == probe_step(pre_abs, old(self).base_view(), ev));
        }
        if probe.next_action().is_none() {
            let stat = probe.classification();
            proof {
                assert(stat_paths(stat) == seq![
                    self.pairs_view()[self.next as int].0,
                    self.pairs_view()[self.next as int].1,
                ]);
            }
            self.results.push(stat);
            self.next = self.next + 1;
        } else {
            self.probe = Some(probe);
        }
    }

    /// The collected statistics, partitioned by classification: each
    /// partition holds exactly the recorded outcomes of its kind, in pair
    /// order.
    pub fn into_statistics(self) -> (r: ConflictStatistics)
        requires
            self.wf(),
        ensures
            r.wf(),
            stats_like(
                r.oks(),
                self.results_view().filter(
                    |s: ConflictStatistic| stat_kind(s) == ConflictKind::Clean,
                ),
            ),
            stats_like(
                r.conflicts(),
                self.results_view().filter(
                    |s: ConflictStatistic| stat_kind(s) == ConflictKind::Conflicting,
                ),
            ),
            stats_like(
                r.errors(),
                self.results_view().filter(
                    |s: ConflictStatistic| stat_kind(s) == ConflictKind::Failed,
                ),
            ),
            r.oks().len() + r.conflicts().len() + r.errors().len() == self.results_view().len(),
    {
        ConflictStatistics::from_iter(self.results)
    }
}

/// Law of conflict symmetry: two probes given the same backend replies
/// classify the same, whichever order the pair was given in, and they speak
/// of the same set of paths.
pub proof fn lemma_check_symmetric(p1: &ConflictProbe, p2: &ConflictProbe)
    requires
        p1.wf(),
        p2.wf(),
        p1.left_view() == p2.right_view(),
        p1.right_view() == p2.left_view(),
        p1.base_view() == p2.base_view(),
        p1.events_view() == p2.events_view(),
    ensures
        p1.classification_kind() == p2.classification_kind(),
        seq![p1.left_view(), p1.right_view()].to_set() == seq![
            p2.left_view(),
            p2.right_view(),
        ].to_set(),
{
    assert(seq![p1.left_view(), p1.right_view()].to_set() =~= seq![
        p2.left_view(),
        p2.right_view(),
    ].to_set());
}

} // verus!
