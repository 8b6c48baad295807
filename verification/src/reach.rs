//! Reachability over editor entries: the mathematical closure of a step relation, and the
//! membership set the walks keep of where they have been.
use vstd::prelude::*;

use crate::commits::CommitIndex;
use crate::store::{EditorIndex, RefIndex, StoreModel};

verus! {

/// `path` walks from `start` by `step`, every entry on it outside `excl`.
pub open spec fn is_walk(
    step: spec_fn(EditorIndex, EditorIndex) -> bool,
    excl: Set<EditorIndex>,
    start: EditorIndex,
    path: Seq<EditorIndex>,
) -> bool {
    &&& path.len() > 0
    &&& path[0] == start
    &&& forall|i: int| 0 <= i < path.len() ==> !excl.contains(#[trigger] path[i])
    &&& forall|i: int| 0 <= i < path.len() - 1 ==> #[trigger] step(path[i], path[i + 1])
}

/// `x` is reachable from `start` by `step` through entries outside `excl`.
pub open spec fn reaches(
    step: spec_fn(EditorIndex, EditorIndex) -> bool,
    excl: Set<EditorIndex>,
    start: EditorIndex,
    x: EditorIndex,
) -> bool {
    exists|path: Seq<EditorIndex>| #[trigger] is_walk(step, excl, start, path) && path.last() == x
}

/// Everything reachable from `start` by `step` through entries outside `excl`.
pub open spec fn reach_set(
    step: spec_fn(EditorIndex, EditorIndex) -> bool,
    excl: Set<EditorIndex>,
    start: EditorIndex,
) -> Set<EditorIndex> {
    Set::new(|x: EditorIndex| reaches(step, excl, start, x))
}

/// One step down a parent entry: `x` is a commit (or tombstone) that `p` lists as a parent.
pub open spec fn parent_step(m: StoreModel) -> spec_fn(EditorIndex, EditorIndex) -> bool {
    |p: EditorIndex, x: EditorIndex| x is Commit && m.parents(p).contains(x->Commit_0)
}

/// A set closed under `step` (up to `excl`) that holds `start` holds every entry of a walk.
pub proof fn lemma_closed_set_covers_walk(
    step: spec_fn(EditorIndex, EditorIndex) -> bool,
    excl: Set<EditorIndex>,
    start: EditorIndex,
    s: Set<EditorIndex>,
    path: Seq<EditorIndex>,
)
    requires
        excl.contains(start) || s.contains(start),
        forall|p: EditorIndex, y: EditorIndex| #[trigger] s.contains(p) && #[trigger] step(p, y)
            ==> s.contains(y) || excl.contains(y),
        is_walk(step, excl, start, path),
    ensures
        s.contains(path.last()),
    decreases path.len(),
{
    if path.len() > 1 {
        let prefix = path.drop_last();
        assert(is_walk(step, excl, start, prefix)) by {
            assert forall|i: int| 0 <= i < prefix.len() - 1 implies #[trigger] step(prefix[i], prefix[i + 1]) by {
                assert(step(path[i], path[i + 1]));
            }
        }
        lemma_closed_set_covers_walk(step, excl, start, s, prefix);
        let j = path.len() - 2;
        assert(step(path[j], path[j + 1]));
        assert(prefix.last() == path[j]);
        assert(!excl.contains(path[j + 1]));
    }
}

/// A set closed under `step` (up to `excl`) that holds `start` holds everything reachable.
pub proof fn lemma_closed_set_covers(
    step: spec_fn(EditorIndex, EditorIndex) -> bool,
    excl: Set<EditorIndex>,
    start: EditorIndex,
    s: Set<EditorIndex>,
    x: EditorIndex,
)
    requires
        excl.contains(start) || s.contains(start),
        forall|p: EditorIndex, y: EditorIndex| #[trigger] s.contains(p) && #[trigger] step(p, y)
            ==> s.contains(y) || excl.contains(y),
        reaches(step, excl, start, x),
    ensures
        s.contains(x),
{
    let path = choose|path: Seq<EditorIndex>| #[trigger] is_walk(step, excl, start, path) && path.last() == x;
    lemma_closed_set_covers_walk(step, excl, start, s, path);
}

/// A step from a reachable entry to an entry outside `excl` reaches.
pub proof fn lemma_reach_step(
    step: spec_fn(EditorIndex, EditorIndex) -> bool,
    excl: Set<EditorIndex>,
    start: EditorIndex,
    p: EditorIndex,
    x: EditorIndex,
)
    requires
        reaches(step, excl, start, p),
        step(p, x),
        !excl.contains(x),
    ensures
        reaches(step, excl, start, x),
{
    let path = choose|path: Seq<EditorIndex>| #[trigger] is_walk(step, excl, start, path) && path.last() == p;
    let longer = path.push(x);
    assert(is_walk(step, excl, start, longer)) by {
        assert forall|i: int| 0 <= i < longer.len() implies !excl.contains(#[trigger] longer[i]) by {
            if i < path.len() {
                assert(longer[i] == path[i]);
            }
        }
        assert forall|i: int| 0 <= i < longer.len() - 1 implies #[trigger] step(longer[i], longer[i + 1]) by {
            if i < path.len() - 1 {
                assert(longer[i] == path[i] && longer[i + 1] == path[i + 1]);
            }
        }
    }
    assert(longer.last() == x);
}

/// The start reaches itself unless it is excluded.
pub proof fn lemma_reach_start(
    step: spec_fn(EditorIndex, EditorIndex) -> bool,
    excl: Set<EditorIndex>,
    start: EditorIndex,
)
    requires
        !excl.contains(start),
    ensures
        reaches(step, excl, start, start),
{
    let path = seq![start];
    assert(is_walk(step, excl, start, path));
}

/// `e` is never a parent: a reference, or an index the arena does not hold. Such an entry has
/// no parents of its own either.
pub open spec fn never_a_parent(m: StoreModel, e: EditorIndex) -> bool {
    match e {
        EditorIndex::Ref(_) => true,
        EditorIndex::Commit(c) => !m.arena.valid(c),
    }
}

/// A walk from an entry without parents goes nowhere: it reaches itself, unless it is excluded,
/// and nothing else.
pub proof fn lemma_parentless_reaches_only_itself(m: StoreModel, excl: Set<EditorIndex>, start: EditorIndex, x: EditorIndex)
    requires
        m.parents(start).len() == 0,
    ensures
        reaches(parent_step(m), excl, start, x) <==> (x == start && !excl.contains(x)),
{
    let step = parent_step(m);
    if reaches(step, excl, start, x) {
        let path = choose|path: Seq<EditorIndex>| #[trigger] is_walk(step, excl, start, path) && path.last() == x;
        if path.len() > 1 {
            let z: int = 0;
            assert(step(path[z], path[z + 1]));
        }
        assert(!excl.contains(path[0]));
    }
    if x == start && !excl.contains(x) {
        lemma_reach_start(step, excl, start);
    }
}

/// A step lands only on a node the arena holds.
proof fn lemma_step_lands_in_arena(m: StoreModel, p: EditorIndex, y: EditorIndex)
    requires
        m.arena.wf(),
        parent_step(m)(p, y),
    ensures
        !never_a_parent(m, y),
{
    let k = choose|k: int| 0 <= k < m.parents(p).len() && m.parents(p)[k] == y->Commit_0;
    assert(m.arena.nodes[p->Commit_0.0 as int].parents[k] == y->Commit_0);
}

/// An entry that is never a parent is reached only as the start of a walk.
pub proof fn lemma_reached_only_as_start(m: StoreModel, excl: Set<EditorIndex>, start: EditorIndex, e: EditorIndex)
    requires
        m.arena.wf(),
        never_a_parent(m, e),
        reaches(parent_step(m), excl, start, e),
    ensures
        start == e,
{
    let step = parent_step(m);
    let path = choose|path: Seq<EditorIndex>| #[trigger] is_walk(step, excl, start, path) && path.last() == e;
    if path.len() > 1 {
        assert(step(path[path.len() - 2], path[path.len() - 2 + 1]));
        lemma_step_lands_in_arena(m, path[path.len() - 2], e);
    }
}

/// Excluding an entry that is never a parent, other than the start, changes no walk.
pub proof fn lemma_excluding_never_a_parent(m: StoreModel, start: EditorIndex, e: EditorIndex, x: EditorIndex)
    requires
        m.arena.wf(),
        never_a_parent(m, e),
        start != e,
    ensures
        reaches(parent_step(m), set![e], start, x) == reaches(parent_step(m), Set::empty(), start, x),
{
    let step = parent_step(m);
    let one = set![e];
    if reaches(step, one, start, x) {
        let path = choose|path: Seq<EditorIndex>| #[trigger] is_walk(step, one, start, path) && path.last() == x;
        assert(is_walk(step, Set::empty(), start, path));
    }
    if reaches(step, Set::empty(), start, x) {
        let path = choose|path: Seq<EditorIndex>| #[trigger] is_walk(step, Set::empty(), start, path) && path.last() == x;
        assert forall|i: int| 0 <= i < path.len() implies !one.contains(#[trigger] path[i]) by {
            if i > 0 {
                assert(step(path[i - 1], path[i - 1 + 1]));
                lemma_step_lands_in_arena(m, path[i - 1], path[i]);
            }
        }
        assert(is_walk(step, one, start, path));
    }
}

/// Walking from `a` while avoiding everything `b` reaches finds exactly what `a` reaches and
/// `b` does not: the rev-set `a ^b`.
pub proof fn lemma_avoiding_reach_set(
    step: spec_fn(EditorIndex, EditorIndex) -> bool,
    a: EditorIndex,
    b: EditorIndex,
)
    ensures
        reach_set(step, reach_set(step, Set::empty(), b), a)
            == reach_set(step, Set::empty(), a).difference(reach_set(step, Set::empty(), b)),
{
    let rb = reach_set(step, Set::empty(), b);
    assert forall|x: EditorIndex| #[trigger] reach_set(step, rb, a).contains(x)
        <==> reach_set(step, Set::empty(), a).difference(rb).contains(x) by {
        if reaches(step, rb, a, x) {
            let path = choose|path: Seq<EditorIndex>| #[trigger] is_walk(step, rb, a, path) && path.last() == x;
            assert(is_walk(step, Set::empty(), a, path));
            assert(!rb.contains(path[path.len() - 1]));
        }
        if reaches(step, Set::empty(), a, x) && !rb.contains(x) {
            let path = choose|path: Seq<EditorIndex>| #[trigger] is_walk(step, Set::empty(), a, path) && path.last() == x;
            assert forall|i: int| 0 <= i < path.len() implies !rb.contains(#[trigger] path[i]) by {
                if rb.contains(path[i]) {
                    lemma_reach_set_tail(step, b, path, i);
                }
            }
            assert(is_walk(step, rb, a, path));
        }
    }
    assert(reach_set(step, rb, a) =~= reach_set(step, Set::empty(), a).difference(rb));
}

/// Once a walk enters what `b` reaches, it stays there.
proof fn lemma_reach_set_tail(
    step: spec_fn(EditorIndex, EditorIndex) -> bool,
    b: EditorIndex,
    path: Seq<EditorIndex>,
    i: int,
)
    requires
        0 <= i < path.len(),
        forall|j: int| 0 <= j < path.len() - 1 ==> #[trigger] step(path[j], path[j + 1]),
        reach_set(step, Set::empty(), b).contains(path[i]),
    ensures
        reach_set(step, Set::empty(), b).contains(path.last()),
    decreases path.len() - i,
{
    if i < path.len() - 1 {
        assert(step(path[i], path[i + 1]));
        lemma_reach_step(step, Set::empty(), b, path[i], path[i + 1]);
        lemma_reach_set_tail(step, b, path, i + 1);
    }
}

/// The number of `false` flags in `s`.
pub open spec fn count_unset(s: Seq<bool>) -> nat
    decreases s.len(),
{
    if s.len() == 0 {
        0
    } else {
        count_unset(s.drop_last()) + if s.last() { 0nat } else { 1nat }
    }
}

proof fn lemma_count_unset_set(s: Seq<bool>, i: int)
    requires
        0 <= i < s.len(),
        !s[i],
    ensures
        count_unset(s.update(i, true)) + 1 == count_unset(s),
    decreases s.len(),
{
    let t = s.update(i, true);
    if i < s.len() - 1 {
        assert(t.drop_last() =~= s.drop_last().update(i, true));
        lemma_count_unset_set(s.drop_last(), i);
    } else {
        assert(t.drop_last() =~= s.drop_last());
    }
}

/// A set of editor entries over a store of fixed size, one flag per entry.
pub struct VisitSet {
    commits: Vec<bool>,
    refs: Vec<bool>,
}

impl View for VisitSet {
    type V = Set<EditorIndex>;

    closed spec fn view(&self) -> Set<EditorIndex> {
        Set::new(
            |e: EditorIndex|
                match e {
                    EditorIndex::Commit(c) => c.0 < self.commits@.len() && self.commits@[c.0 as int],
                    EditorIndex::Ref(r) => r.0 < self.refs@.len() && self.refs@[r.0 as int],
                },
        )
    }
}

impl VisitSet {
    /// How many commit entries the set has room for.
    pub closed spec fn commit_slots(&self) -> nat {
        self.commits@.len()
    }

    /// How many reference entries the set has room for.
    pub closed spec fn ref_slots(&self) -> nat {
        self.refs@.len()
    }

    /// The set has room for exactly the entries of `m`.
    pub open spec fn covers(&self, m: StoreModel) -> bool {
        self.commit_slots() == m.arena.nodes.len() && self.ref_slots() == m.refs.len()
    }

    /// The set has room for `e`.
    pub open spec fn has_slot(&self, e: EditorIndex) -> bool {
        match e {
            EditorIndex::Commit(c) => c.0 < self.commit_slots(),
            EditorIndex::Ref(r) => r.0 < self.ref_slots(),
        }
    }

    /// How many entries of the store the set does not hold yet.
    pub closed spec fn room(&self) -> nat {
        count_unset(self.commits@) + count_unset(self.refs@)
    }

    /// An empty set with room for `commits` commit entries and `refs` reference entries.
    pub fn with_room(commits: usize, refs: usize) -> (set: VisitSet)
        ensures
            set@ == Set::<EditorIndex>::empty(),
            set.commit_slots() == commits,
            set.ref_slots() == refs,
    {
        let mut c: Vec<bool> = Vec::new();
        let mut i: usize = 0;
        while i < commits
            invariant
                i <= commits,
                c@.len() == i,
                forall|j: int| 0 <= j < i ==> !(#[trigger] c@[j]),
            decreases commits - i,
        {
            c.push(false);
            i = i + 1;
        }
        let mut r: Vec<bool> = Vec::new();
        let mut j: usize = 0;
        while j < refs
            invariant
                j <= refs,
                r@.len() == j,
                forall|k: int| 0 <= k < j ==> !(#[trigger] r@[k]),
            decreases refs - j,
        {
            r.push(false);
            j = j + 1;
        }
        let set = VisitSet { commits: c, refs: r };
        assert(set@ =~= Set::<EditorIndex>::empty());
        set
    }

    /// Whether `e` is in the set.
    pub fn contains(&self, e: EditorIndex) -> (r: bool)
        ensures
            r == self@.contains(e),
    {
        match e {
            EditorIndex::Commit(c) => c.0 < self.commits.len() && self.commits[c.0],
            EditorIndex::Ref(r) => r.0 < self.refs.len() && self.refs[r.0],
        }
    }

    /// Add `e`, which the set has room for; returns whether it was new.
    pub fn insert(&mut self, e: EditorIndex) -> (added: bool)
        requires
            old(self).has_slot(e),
        ensures
            final(self).commit_slots() == old(self).commit_slots(),
            final(self).ref_slots() == old(self).ref_slots(),
            final(self)@ == old(self)@.insert(e),
            added == !old(self)@.contains(e),
            added ==> final(self).room() + 1 == old(self).room(),
            !added ==> final(self).room() == old(self).room(),
    {
        let ghost before = *self;
        if self.contains(e) {
            return false;
        }
        match e {
            EditorIndex::Commit(c) => {
                proof { lemma_count_unset_set(self.commits@, c.0 as int); }
                self.commits.set(c.0, true);
            },
            EditorIndex::Ref(r) => {
                proof { lemma_count_unset_set(self.refs@, r.0 as int); }
                self.refs.set(r.0, true);
            },
        }
        assert(self@ =~= before@.insert(e));
        true
    }
}

} // verus!
