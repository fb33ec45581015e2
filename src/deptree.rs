//! The dependency tree: targets addressed by handles, their edges, their
//! lifecycle, and the readiness query.

use vstd::prelude::*;
use std::collections::HashSet;
use crate::graph::{adjacency, closed_over, reduce, reduced_successors, lemma_keys_cover, lemma_reduce_idempotent};
use vstd::std_specs::hash::spec_hash_keys_iter;
use vstd::std_specs::iter::IteratorSpec;
use vstd::string::StringExecFns;

verus! {

broadcast use vstd::std_specs::hash::group_hash_axioms, vstd::string::group_string_axioms;

/// Why a lifecycle transition was refused; each carries the target's name.
#[derive(Debug, PartialEq, Eq)]
pub enum DeptreeError {
    /// `start` on a started target.
    AlreadyStarted(String),
    /// `start` on a failed target.
    StartedFailed(String),
    /// `start` on a finished target.
    StartedFinished(String),
    /// `finish` on a target that was never started.
    NotYetStarted(String),
    /// `finish` on a finished target.
    AlreadyFinished(String),
    /// `finish` or `fail` on a failed or finished target respectively.
    FinishFailed(String),
    /// `fail` on a failed target.
    AlreadyFailed(String),
    /// `fail` on a target that was never started.
    UnstartedFailed(String),
}

impl DeptreeError {
    /// The text that `message` returns.
    pub open spec fn message_spec(&self) -> Seq<char> {
        match self {
            DeptreeError::AlreadyStarted(n) => "Target "@ + n@ + " already started, tried to start"@,
            DeptreeError::StartedFailed(n) => "Target "@ + n@ + " failed, tried to start"@,
            DeptreeError::StartedFinished(n) => "Target "@ + n@ + " finished, tried to start"@,
            DeptreeError::NotYetStarted(n) => "Target "@ + n@ + " not yet started, tried to finish"@,
            DeptreeError::AlreadyFinished(n) => "Target "@ + n@ + " already finished, tried to finish"@,
            DeptreeError::FinishFailed(n) => "Target "@ + n@ + " already failed, tried to finish"@,
            DeptreeError::AlreadyFailed(n) => "Target "@ + n@ + " already failed, tried to fail"@,
            DeptreeError::UnstartedFailed(n) => "Target "@ + n@ + " not yet started, tried to fail"@,
        }
    }

    /// A sentence naming the target and the refused transition.
    pub fn message(&self) -> (r: String)
        ensures
            r@ == self.message_spec(),
    {
        let (name, tail): (&String, &str) = match self {
            DeptreeError::AlreadyStarted(n) => (n, " already started, tried to start"),
            DeptreeError::StartedFailed(n) => (n, " failed, tried to start"),
            DeptreeError::StartedFinished(n) => (n, " finished, tried to start"),
            DeptreeError::NotYetStarted(n) => (n, " not yet started, tried to finish"),
            DeptreeError::AlreadyFinished(n) => (n, " already finished, tried to finish"),
            DeptreeError::FinishFailed(n) => (n, " already failed, tried to finish"),
            DeptreeError::AlreadyFailed(n) => (n, " already failed, tried to fail"),
            DeptreeError::UnstartedFailed(n) => (n, " not yet started, tried to fail"),
        };
        String::from_str("Target ").concat(name.as_str()).concat(tail)
    }
}

/// Where a target is in its lifecycle: it only moves from `Unstarted` to
/// `Started`, and from there to `Finished` or `Failed`.
#[derive(Clone, Copy, PartialEq, Eq, Structural, Debug)]
pub enum TargetState {
    Unstarted,
    Started,
    Failed,
    Finished,
}

/// A stable handle to a target of one tree.
#[derive(Clone, Copy, PartialEq, Eq, Structural, Debug, Hash)]
pub struct TargetIndex(pub usize);

struct TargetData<Attribs> {
    name: String,
    state: TargetState,
    attribs: Option<Attribs>,
}

impl<Attribs> TargetData<Attribs> {
    fn new(name: String, attribs: Option<Attribs>) -> (r: Self)
        ensures
            r.name@ == name@,
            r.state == TargetState::Unstarted,
            r.attribs == attribs,
    {
        TargetData { name, state: TargetState::Unstarted, attribs }
    }
}

/// A target as the contracts see it.
pub struct TargetView<Attribs> {
    pub name: Seq<char>,
    pub state: TargetState,
    pub attribs: Option<Attribs>,
}

/// A tree as the contracts see it: the targets by handle, the direct
/// dependencies (`up`) and direct dependents (`down`) of each, the root set, and
/// whether the edges are known to be reduced.
pub struct DeptreeView<Attribs> {
    pub targets: Seq<TargetView<Attribs>>,
    pub up: Seq<Set<usize>>,
    pub down: Seq<Set<usize>>,
    pub roots: Set<usize>,
    pub reduced: bool,
}

/// The edges reversed: `u` is in entry `d` exactly when `d` is in entry `u`.
pub open spec fn transpose(g: Seq<Set<usize>>) -> Seq<Set<usize>> {
    Seq::new(g.len(), |d: int| Set::new(|u: usize| (u as int) < g.len() && g[u as int].contains(d as usize)))
}

/// The number of started targets.
pub open spec fn started_count<A>(s: Seq<TargetView<A>>) -> nat
    decreases s.len(),
{
    if s.len() == 0 {
        0
    } else {
        started_count(s.drop_last()) + if s.last().state == TargetState::Started { 1nat } else { 0nat }
    }
}

/// The lists handed out by queries: each handle once, exactly the members of `s`.
pub open spec fn lists(r: Seq<TargetIndex>, s: Set<usize>) -> bool {
    &&& forall|i: int| 0 <= i < r.len() ==> s.contains(#[trigger] r[i].0)
    &&& forall|x: usize| s.contains(x) ==> exists|i: int| 0 <= i < r.len() && #[trigger] r[i].0 == x
    &&& forall|i: int, j: int| 0 <= i < r.len() && 0 <= j < r.len() && i != j ==> r[i] != r[j]
}

impl<A> DeptreeView<A> {
    pub open spec fn len(self) -> nat {
        self.targets.len()
    }

    pub open spec fn state(self, h: usize) -> TargetState {
        self.targets[h as int].state
    }

    /// Every direct dependency of `h` has finished.
    pub open spec fn deps_finished(self, h: usize) -> bool {
        forall|u: usize| #[trigger] self.up[h as int].contains(u) ==> self.state(u) == TargetState::Finished
    }

    /// `h` may start now: it has not started and all it depends on has finished.
    pub open spec fn unblocked(self, h: usize) -> bool {
        self.state(h) == TargetState::Unstarted && self.deps_finished(h)
    }

    /// The handles that `ready` reports.
    pub open spec fn ready_set(self) -> Set<usize> {
        self.roots.filter(|h: usize| self.state(h) == TargetState::Unstarted)
    }

    /// The invariant of every tree.
    pub open spec fn wf(self) -> bool {
        &&& self.len() <= usize::MAX
        &&& self.up.len() == self.len()
        &&& self.down.len() == self.len()
        &&& closed_over(self.down)
        &&& self.up == transpose(self.down)
        &&& forall|r: usize| #[trigger] self.roots.contains(r) ==> (r as int) < self.len()
            && self.deps_finished(r)
        &&& self.reduced ==> reduce(self.down) == self.down
    }

    /// The same tree with `h` in state `s`.
    pub open spec fn with_state(self, h: usize, s: TargetState) -> DeptreeView<A> {
        DeptreeView {
            targets: self.targets.update(
                h as int,
                TargetView { name: self.targets[h as int].name, state: s, attribs: self.targets[h as int].attribs },
            ),
            up: self.up,
            down: self.down,
            roots: self.roots,
            reduced: self.reduced,
        }
    }

    /// The same tree with `h` out of the root set and in state `s`.
    pub open spec fn settled(self, h: usize, s: TargetState) -> DeptreeView<A> {
        let t = self.with_state(h, s);
        DeptreeView { targets: t.targets, up: t.up, down: t.down, roots: self.roots.remove(h), reduced: t.reduced }
    }

    /// The tree once `h` has finished: each direct dependent whose dependencies
    /// have now all finished joins the root set, whatever its own state.
    pub open spec fn finished(self, h: usize) -> DeptreeView<A> {
        let t = self.settled(h, TargetState::Finished);
        DeptreeView {
            targets: t.targets,
            up: t.up,
            down: t.down,
            roots: t.roots.union(self.down[h as int].filter(|d: usize| t.deps_finished(d))),
            reduced: t.reduced,
        }
    }

    /// What `start(h)` does, from this tree to `w` with result `r`.
    pub open spec fn start_spec(self, h: usize, r: Result<(), DeptreeError>, w: DeptreeView<A>) -> bool {
        let name = self.targets[h as int].name;
        match self.state(h) {
            TargetState::Unstarted => r is Ok && w == self.with_state(h, TargetState::Started),
            TargetState::Started => w == self && (r matches Err(DeptreeError::AlreadyStarted(e)) && e@ == name),
            TargetState::Failed => w == self && (r matches Err(DeptreeError::StartedFailed(e)) && e@ == name),
            TargetState::Finished => w == self && (r matches Err(DeptreeError::StartedFinished(e)) && e@ == name),
        }
    }

    /// What `finish(h)` does, from this tree to `w` with result `r`: the edges are
    /// reduced first, whatever the outcome.
    pub open spec fn finish_spec(self, h: usize, r: Result<(), DeptreeError>, w: DeptreeView<A>) -> bool {
        let name = self.targets[h as int].name;
        let s = self.simplified();
        match self.state(h) {
            TargetState::Started => r is Ok && w == s.finished(h),
            TargetState::Unstarted => w == s && (r matches Err(DeptreeError::NotYetStarted(e)) && e@ == name),
            TargetState::Finished => w == s && (r matches Err(DeptreeError::AlreadyFinished(e)) && e@ == name),
            TargetState::Failed => w == s && (r matches Err(DeptreeError::FinishFailed(e)) && e@ == name),
        }
    }

    /// What `fail(h)` does, from this tree to `w` with result `r`.
    pub open spec fn fail_spec(self, h: usize, r: Result<(), DeptreeError>, w: DeptreeView<A>) -> bool {
        let name = self.targets[h as int].name;
        match self.state(h) {
            TargetState::Started => r is Ok && w == self.settled(h, TargetState::Failed),
            TargetState::Unstarted => w == self && (r matches Err(DeptreeError::UnstartedFailed(e)) && e@ == name),
            TargetState::Finished => w == self && (r matches Err(DeptreeError::FinishFailed(e)) && e@ == name),
            TargetState::Failed => w == self && (r matches Err(DeptreeError::AlreadyFailed(e)) && e@ == name),
        }
    }

    /// The same tree with its edges reduced.
    pub open spec fn simplified(self) -> DeptreeView<A> {
        DeptreeView {
            targets: self.targets,
            up: transpose(reduce(self.down)),
            down: reduce(self.down),
            roots: self.roots,
            reduced: true,
        }
    }
}

/// A dependency tree over targets that carry an optional payload of type `Attribs`.
pub struct Deptree<Attribs> {
    targets: Vec<TargetData<Attribs>>,
    up: Vec<HashSet<usize>>,
    down: Vec<HashSet<usize>>,
    roots: HashSet<usize>,
    running: usize,
    simple: bool,
}

spec fn view_target<A>(t: TargetData<A>) -> TargetView<A> {
    TargetView { name: t.name@, state: t.state, attribs: t.attribs }
}

impl<A> View for Deptree<A> {
    type V = DeptreeView<A>;

    closed spec fn view(&self) -> DeptreeView<A> {
        DeptreeView {
            targets: self.targets@.map_values(|t: TargetData<A>| view_target(t)),
            up: adjacency(self.up@),
            down: adjacency(self.down@),
            roots: self.roots@,
            reduced: self.simple,
        }
    }
}

proof fn lemma_started_count_push<A>(s: Seq<TargetView<A>>, v: TargetView<A>)
    ensures
        started_count(s.push(v)) == started_count(s) + if v.state == TargetState::Started { 1nat } else { 0nat },
{
    assert(s.push(v).drop_last() =~= s);
}

proof fn lemma_started_count_update<A>(s: Seq<TargetView<A>>, i: int, v: TargetView<A>)
    requires
        0 <= i < s.len(),
    ensures
        started_count(s.update(i, v)) + (if s[i].state == TargetState::Started { 1nat } else { 0nat })
            == started_count(s) + (if v.state == TargetState::Started { 1nat } else { 0nat }),
    decreases s.len(),
{
    if i == s.len() - 1 {
        assert(s.update(i, v).drop_last() =~= s.drop_last());
    } else {
        assert(s.update(i, v).drop_last() =~= s.drop_last().update(i, v));
        lemma_started_count_update(s.drop_last(), i, v);
    }
}

proof fn lemma_started_count_bound<A>(s: Seq<TargetView<A>>)
    ensures
        started_count(s) <= s.len(),
    decreases s.len(),
{
    if s.len() > 0 {
        lemma_started_count_bound(s.drop_last());
    }
}

proof fn lemma_started_count_zero<A>(s: Seq<TargetView<A>>)
    ensures
        started_count(s) == 0 <==> forall|i: int| 0 <= i < s.len() ==> #[trigger] s[i].state != TargetState::Started,
    decreases s.len(),
{
    if s.len() > 0 {
        lemma_started_count_zero(s.drop_last());
        if started_count(s) == 0 {
            assert forall|i: int| 0 <= i < s.len() implies #[trigger] s[i].state != TargetState::Started by {
                if i < s.len() - 1 {
                    assert(s.drop_last()[i] == s[i]);
                }
            }
        } else if forall|i: int| 0 <= i < s.len() ==> #[trigger] s[i].state != TargetState::Started {
            assert forall|i: int| 0 <= i < s.drop_last().len() implies #[trigger] s.drop_last()[i].state
                != TargetState::Started by {
                assert(s.drop_last()[i] == s[i]);
            }
        }
    }
}

/// The members of `s` as handles, each once.
fn handles_of(s: &HashSet<usize>) -> (r: Vec<TargetIndex>)
    ensures
        lists(r@, s@),
{
    let ghost ks = spec_hash_keys_iter(s).remaining();
    proof {
        lemma_keys_cover(s);
    }
    let mut r: Vec<TargetIndex> = Vec::new();
    let ghost mut k: int = 0;
    for xr in it: s.iter()
        invariant
            it.seq() == ks,
            ks == spec_hash_keys_iter(s).remaining(),
            k == it.index(),
            r@.len() == k,
            forall|j: int| 0 <= j < k ==> #[trigger] r@[j].0 == *ks[j],
    {
        assert(*xr == *ks[k]);
        r.push(TargetIndex(*xr));
        proof {
            k = k + 1;
        }
    }
    proof {
        assert(ks.no_duplicates());
        assert forall|x: usize| s@.contains(x) implies exists|i: int| 0 <= i < r@.len() && #[trigger] r@[i].0 == x by {
            let j = choose|j: int| 0 <= j < ks.len() && *ks[j] == x;
            assert(r@[j].0 == *ks[j]);
        }
        assert forall|i: int| 0 <= i < r@.len() implies s@.contains(#[trigger] r@[i].0) by {
            assert(r@[i].0 == *ks[i]);
        }
        assert forall|i: int, j: int| 0 <= i < r@.len() && 0 <= j < r@.len() && i != j implies r@[i] != r@[j] by {
            assert(r@[i].0 == *ks[i]);
            assert(r@[j].0 == *ks[j]);
        }
    }
    r
}

/// A state change keeps the invariant, as long as a finished target stays
/// finished.
proof fn lemma_with_state_wf<A>(v: DeptreeView<A>, h: usize, s: TargetState)
    requires
        v.wf(),
        (h as int) < v.len(),
        v.state(h) != TargetState::Finished || s == TargetState::Finished,
    ensures
        v.with_state(h, s).wf(),
{
    let w = v.with_state(h, s);
    assert forall|r: usize| #[trigger] w.roots.contains(r) implies (r as int) < w.len()
        && w.deps_finished(r) by {
        assert(v.roots.contains(r));
        assert forall|u: usize| #[trigger] w.up[r as int].contains(u) implies w.state(u) == TargetState::Finished by {
            assert(v.up[r as int].contains(u));
        }
    }
}

/// Dropping a root keeps the invariant.
proof fn lemma_remove_root_wf<A>(v: DeptreeView<A>, h: usize)
    requires
        v.wf(),
    ensures
        (DeptreeView { targets: v.targets, up: v.up, down: v.down, roots: v.roots.remove(h), reduced: v.reduced }).wf(),
{
}

impl<Attribs> Deptree<Attribs> {
    /// The invariant: that of the view, and the running count matches the
    /// started targets.
    pub closed spec fn wf(&self) -> bool {
        &&& self@.wf()
        &&& self.running as nat == started_count(self@.targets)
    }

    /// Every tree that meets the invariant has a view that meets the view's
    /// invariant.
    pub proof fn lemma_wf(&self)
        requires
            self.wf(),
        ensures
            self@.wf(),
    {
    }

    /// An empty tree.
    pub fn new() -> (r: Deptree<Attribs>)
        ensures
            r.wf(),
            r@.wf(),
            r@.len() == 0,
            r@.up == Seq::<Set<usize>>::empty(),
            r@.down == Seq::<Set<usize>>::empty(),
            r@.roots.is_empty(),
            r@.reduced,
    {
        let r = Deptree {
            targets: Vec::new(),
            up: Vec::new(),
            down: Vec::new(),
            roots: HashSet::new(),
            running: 0,
            simple: true,
        };
        assert(r@.up =~= transpose(r@.down));
        assert(r@.up =~= Seq::<Set<usize>>::empty());
        assert(r@.down =~= Seq::<Set<usize>>::empty());
        assert(reduce(r@.down) =~= r@.down);
        r
    }

    /// Adds an unstarted target without edges; it becomes a root.
    pub fn add_target_attribs(&mut self, name: &str, attribs: Option<Attribs>) -> (h: TargetIndex)
        requires
            old(self).wf(),
        ensures
            final(self).wf(),
            final(self)@.wf(),
            h.0 == old(self)@.len(),
            final(self)@.targets == old(self)@.targets.push(
                TargetView { name: name@, state: TargetState::Unstarted, attribs },
            ),
            final(self)@.down == old(self)@.down.push(Set::empty()),
            final(self)@.up == old(self)@.up.push(Set::empty()),
            final(self)@.roots == old(self)@.roots.insert(h.0),
            !final(self)@.reduced,
    {
        let ghost v0 = self@;
        self.targets.push(TargetData::new(name.to_string(), attribs));
        self.up.push(HashSet::new());
        self.down.push(HashSet::new());
        let index = self.targets.len() - 1;
        self.roots.insert(index);
        self.simple = false;
        proof {
            let tv = TargetView { name: name@, state: TargetState::Unstarted, attribs };
            assert(self@.targets =~= v0.targets.push(tv));
            assert(self@.down =~= v0.down.push(Set::empty()));
            assert(self@.up =~= v0.up.push(Set::empty()));
            lemma_started_count_push(v0.targets, tv);
            let v = self@;
            assert forall|d: int| 0 <= d < v.len() implies #[trigger] v.up[d] == transpose(v.down)[d] by {
                if d < v0.len() {
                    assert(v.up[d] == v0.up[d]);
                    assert(v0.up[d] == transpose(v0.down)[d]);
                    assert(transpose(v.down)[d] =~= transpose(v0.down)[d]);
                } else {
                    assert(transpose(v.down)[d] =~= Set::empty());
                }
            }
            assert(v.up =~= transpose(v.down));
            assert forall|r: usize| #[trigger] v.roots.contains(r) implies (r as int) < v.len()
                && v.deps_finished(r) by {
                if r != index {
                    assert(v0.roots.contains(r));
                    assert(v.targets[r as int] == v0.targets[r as int]);
                    assert(v.up[r as int] == v0.up[r as int]);
                }
            }
        }
        TargetIndex(index)
    }

    /// Adds an unstarted target without payload or edges; it becomes a root.
    pub fn add_target(&mut self, name: &str) -> (h: TargetIndex)
        requires
            old(self).wf(),
        ensures
            final(self).wf(),
            final(self)@.wf(),
            h.0 == old(self)@.len(),
            final(self)@.targets == old(self)@.targets.push(
                TargetView { name: name@, state: TargetState::Unstarted, attribs: None },
            ),
            final(self)@.down == old(self)@.down.push(Set::empty()),
            final(self)@.up == old(self)@.up.push(Set::empty()),
            final(self)@.roots == old(self)@.roots.insert(h.0),
            !final(self)@.reduced,
    {
        self.add_target_attribs(name, None)
    }

    /// Records that `one` depends on `two`; `one` stops being a root.
    pub fn depend(&mut self, one: TargetIndex, two: TargetIndex)
        requires
            old(self).wf(),
            (one.0 as int) < old(self)@.len(),
            (two.0 as int) < old(self)@.len(),
        ensures
            final(self).wf(),
            final(self)@.wf(),
            final(self)@.targets == old(self)@.targets,
            final(self)@.up == old(self)@.up.update(one.0 as int, old(self)@.up[one.0 as int].insert(two.0)),
            final(self)@.down == old(self)@.down.update(
                two.0 as int,
                old(self)@.down[two.0 as int].insert(one.0),
            ),
            final(self)@.roots == old(self)@.roots.remove(one.0),
            !final(self)@.reduced,
    {
        let ghost v0 = self@;
        self.up[one.0].insert(two.0);
        self.down[two.0].insert(one.0);
        self.roots.remove(&one.0);
        self.simple = false;
        proof {
            let v = self@;
            assert(v.targets =~= v0.targets);
            assert(v.up =~= v0.up.update(one.0 as int, v0.up[one.0 as int].insert(two.0)));
            assert(v.down =~= v0.down.update(two.0 as int, v0.down[two.0 as int].insert(one.0)));
            assert forall|d: int| 0 <= d < v.len() implies #[trigger] v.up[d] == transpose(v.down)[d] by {
                assert(v0.up[d] == transpose(v0.down)[d]);
                assert forall|u: usize| v.up[d].contains(u) == transpose(v.down)[d].contains(u) by {
                    if (u as int) < v.len() {
                        assert(v.down[u as int].contains(d as usize) == (v0.down[u as int].contains(
                            d as usize,
                        ) || (u == two.0 && d == one.0 as int)));
                    }
                }
                assert(v.up[d] =~= transpose(v.down)[d]);
            }
            assert(v.up =~= transpose(v.down));
            assert forall|r: usize| #[trigger] v.roots.contains(r) implies (r as int) < v.len()
                && v.deps_finished(r) by {
                assert(v0.roots.contains(r));
                assert(v.up[r as int] == v0.up[r as int]);
            }
        }
    }

    /// The name given to `target`.
    pub fn name(&self, target: TargetIndex) -> (r: &String)
        requires
            self.wf(),
            (target.0 as int) < self@.len(),
        ensures
            r@ == self@.targets[target.0 as int].name,
    {
        &self.targets[target.0].name
    }

    /// The payload given to `target`.
    pub fn attribs(&self, target: TargetIndex) -> (r: &Option<Attribs>)
        requires
            self.wf(),
            (target.0 as int) < self@.len(),
        ensures
            *r == self@.targets[target.0 as int].attribs,
    {
        &self.targets[target.0].attribs
    }

    /// Where `target` is in its lifecycle.
    pub fn state(&self, target: TargetIndex) -> (r: TargetState)
        requires
            self.wf(),
            (target.0 as int) < self@.len(),
        ensures
            r == self@.state(target.0),
    {
        self.targets[target.0].state
    }

    /// Starts an unstarted target; any other state is refused.
    pub fn start(&mut self, target: TargetIndex) -> (r: Result<(), DeptreeError>)
        requires
            old(self).wf(),
            (target.0 as int) < old(self)@.len(),
        ensures
            final(self).wf(),
            final(self)@.wf(),
            old(self)@.start_spec(target.0, r, final(self)@),
    {
        let i = target.0;
        match self.targets[i].state {
            TargetState::Started => Err(DeptreeError::AlreadyStarted(self.targets[i].name.clone())),
            TargetState::Failed => Err(DeptreeError::StartedFailed(self.targets[i].name.clone())),
            TargetState::Finished => Err(DeptreeError::StartedFinished(self.targets[i].name.clone())),
            TargetState::Unstarted => {
                let ghost v0 = self@;
                self.targets[i].state = TargetState::Started;
                proof {
                    let w = v0.with_state(i, TargetState::Started);
                    assert(self@.targets =~= w.targets);
                    assert(self@ == w);
                    lemma_with_state_wf(v0, i, TargetState::Started);
                    lemma_started_count_update(v0.targets, i as int, w.targets[i as int]);
                    lemma_started_count_bound(w.targets);
                }
                self.running = self.running + 1;
                Ok(())
            }
        }
    }

    /// Marks a started target failed and drops it from the roots; its dependents
    /// are left waiting. Any other state is refused.
    pub fn fail(&mut self, target: TargetIndex) -> (r: Result<(), DeptreeError>)
        requires
            old(self).wf(),
            (target.0 as int) < old(self)@.len(),
        ensures
            final(self).wf(),
            final(self)@.wf(),
            old(self)@.fail_spec(target.0, r, final(self)@),
    {
        let i = target.0;
        match self.targets[i].state {
            TargetState::Unstarted => Err(DeptreeError::UnstartedFailed(self.targets[i].name.clone())),
            TargetState::Finished => Err(DeptreeError::FinishFailed(self.targets[i].name.clone())),
            TargetState::Failed => Err(DeptreeError::AlreadyFailed(self.targets[i].name.clone())),
            TargetState::Started => {
                let ghost v0 = self@;
                self.roots.remove(&i);
                let ghost v1 = self@;
                self.targets[i].state = TargetState::Failed;
                proof {
                    lemma_remove_root_wf(v0, i);
                    assert(v1 == (DeptreeView { targets: v0.targets, up: v0.up, down: v0.down, roots: v0.roots.remove(i), reduced: v0.reduced }));
                    let w = v1.with_state(i, TargetState::Failed);
                    assert(self@.targets =~= w.targets);
                    assert(self@ == w);
                    lemma_with_state_wf(v1, i, TargetState::Failed);
                    lemma_started_count_update(v0.targets, i as int, w.targets[i as int]);
                }
                self.running = self.running - 1;
                Ok(())
            }
        }
    }

    /// Whether every direct dependency of `h` has finished.
    fn deps_done(&self, h: usize) -> (r: bool)
        requires
            self.wf(),
            (h as int) < self@.len(),
        ensures
            r == self@.deps_finished(h),
    {
        let deps: &HashSet<usize> = &self.up[h];
        assert(deps@ == self@.up[h as int]);
        let ghost ks = spec_hash_keys_iter(deps).remaining();
        proof {
            lemma_keys_cover(deps);
        }
        let mut ok = true;
        let ghost mut k: int = 0;
        for ur in it: deps.iter()
            invariant
                it.seq() == ks,
                ks == spec_hash_keys_iter(deps).remaining(),
                k == it.index(),
                self.wf(),
                (h as int) < self@.len(),
                deps@ == self@.up[h as int],
                forall|j: int| 0 <= j < ks.len() ==> deps@.contains(*#[trigger] ks[j]),
                ok == forall|j: int| 0 <= j < k ==> self@.state(*#[trigger] ks[j]) == TargetState::Finished,
        {
            let u: usize = *ur;
            assert(u == *ks[k]);
            assert(self@.up[h as int].contains(u));
            assert(transpose(self@.down)[h as int].contains(u));
            if self.targets[u].state != TargetState::Finished {
                ok = false;
            }
            proof {
                k = k + 1;
            }
        }
        proof {
            if ok {
                assert forall|u: usize| #[trigger] self@.up[h as int].contains(u) implies self@.state(u)
                    == TargetState::Finished by {
                    let j = choose|j: int| 0 <= j < ks.len() && *ks[j] == u;
                }
            }
        }
        ok
    }

    /// The direct dependents of `h` whose dependencies have all finished.
    fn freed_dependents(&self, h: usize) -> (r: Vec<usize>)
        requires
            self.wf(),
            (h as int) < self@.len(),
        ensures
            forall|i: int| 0 <= i < r@.len() ==> self@.down[h as int].contains(#[trigger] r@[i]) && self@.deps_finished(r@[i]),
            forall|d: usize| self@.down[h as int].contains(d) && self@.deps_finished(d) ==> r@.contains(d),
    {
        let succ: &HashSet<usize> = &self.down[h];
        assert(succ@ == self@.down[h as int]);
        let ghost ks = spec_hash_keys_iter(succ).remaining();
        proof {
            lemma_keys_cover(succ);
        }
        let mut r: Vec<usize> = Vec::new();
        let ghost mut k: int = 0;
        for dr in it: succ.iter()
            invariant
                it.seq() == ks,
                ks == spec_hash_keys_iter(succ).remaining(),
                k == it.index(),
                self.wf(),
                (h as int) < self@.len(),
                succ@ == self@.down[h as int],
                forall|j: int| 0 <= j < ks.len() ==> succ@.contains(*#[trigger] ks[j]),
                forall|i: int| 0 <= i < r@.len() ==> self@.down[h as int].contains(#[trigger] r@[i]) && self@.deps_finished(r@[i]),
                forall|j: int| 0 <= j < k && self@.deps_finished(*#[trigger] ks[j]) ==> r@.contains(*ks[j]),
        {
            let d: usize = *dr;
            assert(d == *ks[k]);
            assert(self@.down[h as int].contains(d));
            let ghost r0 = r@;
            if self.deps_done(d) {
                r.push(d);
                proof {
                    assert forall|j: int| 0 <= j < k && self@.deps_finished(*#[trigger] ks[j]) implies r@.contains(*ks[j]) by {
                        let i = choose|i: int| 0 <= i < r0.len() && r0[i] == *ks[j];
                        assert(r@[i] == r0[i]);
                    }
                    assert(r@[r@.len() - 1] == d);
                }
            }
            proof {
                k = k + 1;
            }
        }
        proof {
            assert forall|d: usize| self@.down[h as int].contains(d) && self@.deps_finished(d) implies r@.contains(d) by {
                let j = choose|j: int| 0 <= j < ks.len() && *ks[j] == d;
            }
        }
        r
    }

    /// The direct dependencies of `d` that the reduced edges `reduced` keep.
    fn reduced_dependencies(&self, reduced: &Vec<HashSet<usize>>, d: usize) -> (r: HashSet<usize>)
        requires
            self.wf(),
            (d as int) < self@.len(),
            adjacency(reduced@) == reduce(self@.down),
        ensures
            r@ == transpose(reduce(self@.down))[d as int],
    {
        let ghost rd = reduce(self@.down);
        let deps: &HashSet<usize> = &self.up[d];
        assert(deps@ == self@.up[d as int]);
        let ghost ks = spec_hash_keys_iter(deps).remaining();
        proof {
            lemma_keys_cover(deps);
        }
        let mut r: HashSet<usize> = HashSet::new();
        let ghost mut k: int = 0;
        for ur in it: deps.iter()
            invariant
                it.seq() == ks,
                ks == spec_hash_keys_iter(deps).remaining(),
                k == it.index(),
                self.wf(),
                (d as int) < self@.len(),
                rd == reduce(self@.down),
                adjacency(reduced@) == rd,
                deps@ == self@.up[d as int],
                forall|j: int| 0 <= j < ks.len() ==> deps@.contains(*#[trigger] ks[j]),
                forall|x: usize| r@.contains(x) ==> (x as int) < self@.len() && rd[x as int].contains(d),
                forall|j: int| 0 <= j < k && (*#[trigger] ks[j] as int) < self@.len() && rd[*ks[j] as int].contains(d) ==> r@.contains(*ks[j]),
        {
            let u: usize = *ur;
            assert(u == *ks[k]);
            assert(transpose(self@.down)[d as int].contains(u));
            assert(reduced@.len() == rd.len());
            assert((u as int) < self@.len());
            assert(adjacency(reduced@)[u as int] == reduced@[u as int]@);
            if reduced[u].contains(&d) {
                r.insert(u);
            }
            proof {
                k = k + 1;
            }
        }
        proof {
            assert forall|x: usize| #[trigger] r@.contains(x) == transpose(rd)[d as int].contains(x) by {
                if (x as int) < self@.len() && rd[x as int].contains(d) {
                    assert(self@.down[x as int].contains(d));
                    assert(transpose(self@.down)[d as int].contains(x));
                    let j = choose|j: int| 0 <= j < ks.len() && *ks[j] == x;
                }
            }
            assert(r@ =~= transpose(rd)[d as int]);
        }
        r
    }

    /// Removes every edge that a longer path implies, and records that the edges
    /// are reduced; nothing to do when no target or edge was added since the
    /// last pass. A pass searches below the dependents of each target in turn,
    /// so it costs O(n * (n + e)) time for n targets and e edges, and O(n)
    /// space besides the new edge sets.
    pub fn simplify(&mut self)
        requires
            old(self).wf(),
        ensures
            final(self).wf(),
            final(self)@.wf(),
            final(self)@ == old(self)@.simplified(),
    {
        if self.simple {
            proof {
                let v = self@;
                assert(v.simplified().down == v.down);
                assert(v.simplified() == v);
            }
            return;
        }
        let ghost v0 = self@;
        let n = self.down.len();
        let mut new_down: Vec<HashSet<usize>> = Vec::new();
        for t in 0..n
            invariant
                self@ == v0,
                self.wf(),
                n == v0.len(),
                new_down@.len() == t,
                forall|j: int| 0 <= j < t ==> #[trigger] new_down@[j]@ == reduce(v0.down)[j],
        {
            let s = reduced_successors(&self.down, t);
            new_down.push(s);
            proof {
                assert(new_down@[t as int]@ == reduce(v0.down)[t as int]);
            }
        }
        assert(adjacency(new_down@) =~= reduce(v0.down));
        let mut new_up: Vec<HashSet<usize>> = Vec::new();
        for d in 0..n
            invariant
                self@ == v0,
                self.wf(),
                n == v0.len(),
                adjacency(new_down@) == reduce(v0.down),
                new_up@.len() == d,
                forall|j: int| 0 <= j < d ==> #[trigger] new_up@[j]@ == transpose(reduce(v0.down))[j],
        {
            let s = self.reduced_dependencies(&new_down, d);
            new_up.push(s);
            proof {
                assert(new_up@[d as int]@ == transpose(reduce(v0.down))[d as int]);
            }
        }
        self.down = new_down;
        self.up = new_up;
        self.simple = true;
        proof {
            let v = self@;
            assert(v.down =~= reduce(v0.down));
            assert(v.up =~= transpose(reduce(v0.down)));
            assert(v.targets =~= v0.targets);
            assert(v == v0.simplified());
            lemma_reduce_idempotent(v0.down);
            assert forall|r: usize| #[trigger] v.roots.contains(r) implies (r as int) < v.len()
                && v.deps_finished(r) by {
                assert(v0.roots.contains(r));
                assert forall|u: usize| #[trigger] v.up[r as int].contains(u) implies v.state(u) == TargetState::Finished by {
                    assert(v0.down[u as int].contains(r));
                    assert(v0.up[r as int].contains(u));
                }
            }
        }
    }

    /// Finishes a started target, after reducing the edges: it leaves the roots,
    /// and each direct dependent that may now start joins them. Any other state is
    /// refused, the edges reduced all the same.
    pub fn finish(&mut self, target: TargetIndex) -> (r: Result<(), DeptreeError>)
        requires
            old(self).wf(),
            (target.0 as int) < old(self)@.len(),
        ensures
            final(self).wf(),
            final(self)@.wf(),
            old(self)@.finish_spec(target.0, r, final(self)@),
    {
        self.simplify();
        let i = target.0;
        match self.targets[i].state {
            TargetState::Unstarted => Err(DeptreeError::NotYetStarted(self.targets[i].name.clone())),
            TargetState::Finished => Err(DeptreeError::AlreadyFinished(self.targets[i].name.clone())),
            TargetState::Failed => Err(DeptreeError::FinishFailed(self.targets[i].name.clone())),
            TargetState::Started => {
                let ghost v0 = self@;
                self.roots.remove(&i);
                let ghost v1 = self@;
                self.targets[i].state = TargetState::Finished;
                proof {
                    lemma_remove_root_wf(v0, i);
                    assert(v1 == (DeptreeView { targets: v0.targets, up: v0.up, down: v0.down, roots: v0.roots.remove(i), reduced: v0.reduced }));
                    let w = v1.with_state(i, TargetState::Finished);
                    assert(self@.targets =~= w.targets);
                    assert(self@ == w);
                    assert(w == v0.settled(i, TargetState::Finished));
                    lemma_with_state_wf(v1, i, TargetState::Finished);
                    lemma_started_count_update(v0.targets, i as int, w.targets[i as int]);
                }
                self.running = self.running - 1;
                let freed = self.freed_dependents(i);
                let ghost v2 = self@;
                let mut k: usize = 0;
                while k < freed.len()
                    invariant
                        self.wf(),
                        0 <= k <= freed@.len(),
                        (i as int) < v2.len(),
                        self@.targets == v2.targets,
                        self@.up == v2.up,
                        self@.down == v2.down,
                        self@.reduced == v2.reduced,
                        forall|x: usize| #[trigger] self@.roots.contains(x) <==> v2.roots.contains(x)
                            || exists|j: int| 0 <= j < k && freed@[j] == x,
                        forall|j: int| 0 <= j < freed@.len() ==> v2.down[i as int].contains(#[trigger] freed@[j]) && v2.deps_finished(freed@[j]),
                    decreases freed@.len() - k,
                {
                    let d = freed[k];
                    let ghost v3 = self@;
                    self.roots.insert(d);
                    proof {
                        assert forall|x: usize| #[trigger] self@.roots.contains(x) <==> v2.roots.contains(x)
                            || exists|j: int| 0 <= j < k + 1 && freed@[j] == x by {
                            if x == d {
                                assert(freed@[k as int] == x);
                            } else {
                                assert(self@.roots.contains(x) == v3.roots.contains(x));
                                if exists|j: int| 0 <= j < k + 1 && freed@[j] == x {
                                    let j = choose|j: int| 0 <= j < k + 1 && freed@[j] == x;
                                    assert(j < k);
                                }
                            }
                        }
                        assert(v2.down[i as int].contains(d));
                        assert forall|r: usize| #[trigger] self@.roots.contains(r) implies (r as int) < self@.len()
                            && self@.deps_finished(r) by {
                            if r != d {
                                assert(v3.roots.contains(r));
                            }
                        }
                    }
                    k = k + 1;
                }
                proof {
                    let f = v0.finished(i);
                    assert(self@.roots =~= f.roots) by {
                        assert forall|x: usize| self@.roots.contains(x) == f.roots.contains(x) by {
                            if exists|j: int| 0 <= j < freed@.len() && freed@[j] == x {
                                let j = choose|j: int| 0 <= j < freed@.len() && freed@[j] == x;
                                assert(v2.down[i as int].contains(freed@[j]));
                            }
                            if v2.down[i as int].contains(x) && v2.deps_finished(x) {
                                assert(freed@.contains(x));
                            }
                        }
                    }
                    assert(self@ == f);
                }
                Ok(())
            }
        }
    }

    /// The handles that may start now: roots that have not started yet.
    pub fn ready(&self) -> (r: Vec<TargetIndex>)
        requires
            self.wf(),
        ensures
            lists(r@, self@.ready_set()),
            forall|i: int| 0 <= i < r@.len() ==> self@.unblocked(#[trigger] r@[i].0),
    {
        let all = handles_of(&self.roots);
        let mut r: Vec<TargetIndex> = Vec::new();
        let mut k: usize = 0;
        while k < all.len()
            invariant
                self.wf(),
                0 <= k <= all@.len(),
                lists(all@, self@.roots),
                forall|i: int| 0 <= i < r@.len() ==> self@.ready_set().contains(#[trigger] r@[i].0),
                forall|i: int| #![trigger r@[i]] 0 <= i < r@.len() ==> exists|j: int| 0 <= j < k && #[trigger] all@[j] == r@[i],
                forall|j: int| 0 <= j < k && self@.ready_set().contains(#[trigger] all@[j].0) ==> r@.contains(all@[j]),
                forall|i: int, j: int| 0 <= i < r@.len() && 0 <= j < r@.len() && i != j ==> r@[i] != r@[j],
            decreases all@.len() - k,
        {
            let h = all[k];
            assert(self@.roots.contains(all@[k as int].0));
            if self.targets[h.0].state == TargetState::Unstarted {
                let ghost r0 = r@;
                r.push(h);
                proof {
                    assert(r@[r@.len() - 1] == h);
                    assert forall|i: int| #![trigger r@[i]] 0 <= i < r@.len() implies exists|j: int| 0 <= j < k + 1 && #[trigger] all@[j] == r@[i] by {
                        if i < r0.len() {
                            assert(r@[i] == r0[i]);
                        } else {
                            assert(all@[k as int] == r@[i]);
                        }
                    }
                    assert forall|j: int| 0 <= j < k + 1 && self@.ready_set().contains(#[trigger] all@[j].0) implies r@.contains(all@[j]) by {
                        if j < k {
                            let i = choose|i: int| 0 <= i < r0.len() && r0[i] == all@[j];
                            assert(r@[i] == r0[i]);
                        } else {
                            assert(r@[r@.len() - 1] == all@[j]);
                        }
                    }
                    assert forall|i: int, i2: int| 0 <= i < r@.len() && 0 <= i2 < r@.len() && i != i2 implies r@[i] != r@[i2] by {
                        if i < r0.len() && i2 < r0.len() {
                            assert(r@[i] == r0[i] && r@[i2] == r0[i2]);
                        } else if i < r0.len() {
                            assert(r@[i] == r0[i]);
                            let j = choose|j: int| 0 <= j < k && #[trigger] all@[j] == r0[i];
                        } else if i2 < r0.len() {
                            assert(r@[i2] == r0[i2]);
                            let j = choose|j: int| 0 <= j < k && #[trigger] all@[j] == r0[i2];
                        }
                    }
                }
            }
            k = k + 1;
        }
        proof {
            assert forall|x: usize| self@.ready_set().contains(x) implies exists|i: int| 0 <= i < r@.len() && #[trigger] r@[i].0 == x by {
                let j = choose|j: int| 0 <= j < all@.len() && #[trigger] all@[j].0 == x;
                assert(r@.contains(all@[j]));
                let i = choose|i: int| 0 <= i < r@.len() && r@[i] == all@[j];
            }
            assert forall|i: int| 0 <= i < r@.len() implies self@.unblocked(#[trigger] r@[i].0) by {
                assert(self@.ready_set().contains(r@[i].0));
                assert(self@.roots.contains(r@[i].0));
            }
        }
        r
    }

    /// The direct dependents of `target`.
    pub fn depended_by(&self, target: TargetIndex) -> (r: Vec<TargetIndex>)
        requires
            self.wf(),
            (target.0 as int) < self@.len(),
        ensures
            lists(r@, self@.down[target.0 as int]),
    {
        assert(self.down@[target.0 as int]@ == self@.down[target.0 as int]);
        handles_of(&self.down[target.0])
    }

    /// The direct dependencies of `target`.
    pub fn depends_on(&self, target: TargetIndex) -> (r: Vec<TargetIndex>)
        requires
            self.wf(),
            (target.0 as int) < self@.len(),
        ensures
            lists(r@, self@.up[target.0 as int]),
    {
        assert(self.up@[target.0 as int]@ == self@.up[target.0 as int]);
        handles_of(&self.up[target.0])
    }

    /// Nothing is running and no target is waiting as a root.
    pub fn done(&self) -> (r: bool)
        requires
            self.wf(),
        ensures
            r == (self@.roots.is_empty() && forall|i: int|
                0 <= i < self@.len() ==> #[trigger] self@.targets[i].state != TargetState::Started),
    {
        proof {
            lemma_started_count_zero(self@.targets);
        }
        self.running == 0 && self.roots.is_empty()
    }
}

} // verus!
