//! Commit graph traversal helpers, and the editor's position-aware views of the graph.
use vstd::prelude::*;

use crate::commits::{entries_ascending, CommitIndex, ParentEntry};
use crate::editor::{commit_entry, Editor, EditorError};
use crate::positions::{
    depth, entering, entering_set, enters, ref_depth, refs_reachable_with, refs_resolving_to,
    resolve, resolve_key, resolve_to_commit,
};
use crate::reach::{VisitSet, is_walk, parent_step, reach_set, reaches};
use crate::store::{EditorIndex, EditorStore, RefIndex, StoreModel};

verus! {

/// How far `a` is ahead of and behind `b`, counted in commits.
#[derive(Debug, Clone, Copy, PartialEq, Eq, Structural)]
pub struct AheadBehind {
    /// Commits reachable from `a` but not `b` (the rev-set `a ^b`).
    pub ahead: usize,
    /// Commits reachable from `b` but not `a` (the rev-set `b ^a`).
    pub behind: usize,
}

/// The number of commits in the rev-set `a ^b` of commit-graph entries.
pub open spec fn commits_ahead(m: StoreModel, a: CommitIndex, b: CommitIndex) -> nat {
    reach_set(parent_step(m), Set::empty(), EditorIndex::Commit(a)).difference(
        reach_set(parent_step(m), Set::empty(), EditorIndex::Commit(b)),
    ).filter(is_commit_in(m)).len()
}

/// Entries known to the store are the ones a visit set sized for it has room for.
proof fn lemma_slots_cover(set: &VisitSet, m: StoreModel, e: EditorIndex)
    requires
        set.covers(m),
    ensures
        set.has_slot(e) == m.contains(e),
{
}

/// A depth-first walk down parent entries from `start`, never entering `excluded`.
struct Traversal<'graph> {
    graph: &'graph EditorStore,
    excluded: VisitSet,
    seen: VisitSet,
    tips: Vec<EditorIndex>,
    start: Ghost<EditorIndex>,
}

impl<'graph> Traversal<'graph> {
    /// The walk's invariant: everything seen is reachable, everything pending was met as a
    /// parent of something seen (or is the start), and the seen set is closed under parents
    /// up to what is pending or excluded.
    spec fn inv(&self) -> bool {
        let m = self.graph@;
        let step = parent_step(m);
        let ex = self.excluded@;
        let start = self.start@;
        &&& self.graph.valid()
        &&& self.seen.covers(m)
        &&& self.excluded.covers(m)
        &&& m.contains(start)
        &&& forall|i: int| 0 <= i < self.tips@.len() ==> m.contains(#[trigger] self.tips@[i])
        &&& forall|x: EditorIndex| #[trigger] self.seen@.contains(x) ==> reaches(step, ex, start, x)
        &&& forall|x: EditorIndex| #[trigger] self.tips@.contains(x) ==> x == start || exists|p: EditorIndex|
            #[trigger] self.seen@.contains(p) && step(p, x)
        &&& self.seen@.contains(start) || self.tips@.contains(start) || ex.contains(start)
        &&& forall|p: EditorIndex, y: EditorIndex| #[trigger] self.seen@.contains(p) && #[trigger] step(p, y)
            ==> self.seen@.contains(y) || self.tips@.contains(y) || ex.contains(y)
    }

    fn new(graph: &'graph EditorStore, start: EditorIndex, excluded: VisitSet) -> (t: Traversal<'graph>)
        requires
            graph.valid(),
            graph@.contains(start),
            excluded.covers(graph@),
        ensures
            t.inv(),
            t.graph == graph,
            t.start@ == start,
            t.excluded@ == excluded@,
            t.seen@ == Set::<EditorIndex>::empty(),
            t@ == Set::<EditorIndex>::empty(),
            t.tips@ == seq![start],
    {
        let seen = VisitSet::with_room(graph.commit_count(), graph.ref_count());
        let mut tips: Vec<EditorIndex> = Vec::new();
        tips.push(start);
        let t = Traversal { graph, excluded, seen, tips, start: Ghost(start) };
        assert(t.tips@[0] == start);
        assert(t.tips@ =~= seq![start]);
        t
    }

    /// The next entry of the walk, or `None` when it is done.
    fn next(&mut self) -> (n: Option<EditorIndex>)
        requires
            old(self).inv(),
        ensures
            final(self).inv(),
            final(self).graph == old(self).graph,
            final(self).start == old(self).start,
            final(self).excluded@ == old(self).excluded@,
            match n {
                Some(x) => {
                    &&& !old(self)@.contains(x)
                    &&& final(self)@ == old(self)@.insert(x)
                    &&& final(self).seen.room() + 1 == old(self).seen.room()
                },
                None => final(self)@ == old(self)@ && final(self).tips@.len() == 0,
            },
            old(self).tips@.len() == 0 ==> n is None,
            n matches Some(x) ==> x == old(self).start@ || (x is Commit && old(self).graph@.arena.valid(x->Commit_0)),
            // The first step of a fresh walk: the start, or nothing at all when it is excluded.
            old(self).tips@ == seq![old(self).start@] && old(self)@ == Set::<EditorIndex>::empty() ==> n == (
                if old(self).excluded@.contains(old(self).start@) { None::<EditorIndex> } else { Some(old(self).start@) }),
    {
        let ghost m = self.graph@;
        let ghost step = parent_step(m);
        let ghost ex = self.excluded@;
        let ghost start = self.start@;
        let ghost fresh = self.tips@ == seq![start] && self.seen@ == Set::<EditorIndex>::empty();
        while self.tips.len() > 0
            invariant
                fresh ==> (self.tips@ == seq![start] || (self.tips@.len() == 0 && ex.contains(start))),
                old(self).tips@.len() == 0 ==> self.tips@.len() == 0,
                fresh == (old(self).tips@ == seq![start] && old(self).seen@ == Set::<EditorIndex>::empty()),
                self.inv(),
                self.graph == old(self).graph,
                self.start == old(self).start,
                self.excluded@ == old(self).excluded@,
                self.seen@ == old(self).seen@,
                self.seen.room() == old(self).seen.room(),
                m == self.graph@,
                step == parent_step(m),
                ex == self.excluded@,
                start == self.start@,
            decreases self.tips.len(),
        {
            let ghost before_tips = self.tips@;
            let n = self.tips.pop().unwrap();
            assert(fresh ==> n == start && self.tips@.len() == 0) by {
                if fresh {
                    assert(before_tips[before_tips.len() - 1] == n);
                }
            }
            assert(before_tips.contains(n)) by {
                assert(before_tips[before_tips.len() - 1] == n);
            }
            assert(m.contains(n)) by {
                assert(before_tips[before_tips.len() - 1] == n);
            }
            proof {
                lemma_slots_cover(&self.excluded, m, n);
                lemma_slots_cover(&self.seen, m, n);
            }
            if self.excluded.contains(n) || self.seen.contains(n) {
                // Dropping a tip that is already seen or excluded keeps every fact.
                assert forall|x: EditorIndex| #[trigger] self.tips@.contains(x) implies x == start || exists|p: EditorIndex|
                    #[trigger] self.seen@.contains(p) && step(p, x) by {
                    let k = choose|k: int| 0 <= k < self.tips@.len() && self.tips@[k] == x;
                    assert(before_tips[k] == x);
                    assert(before_tips.contains(x));
                }
                assert forall|p: EditorIndex, y: EditorIndex| #[trigger] self.seen@.contains(p) && #[trigger] step(p, y)
                    implies self.seen@.contains(y) || self.tips@.contains(y) || ex.contains(y) by {
                    if before_tips.contains(y) && y != n {
                        let k = choose|k: int| 0 <= k < before_tips.len() && before_tips[k] == y;
                        assert(self.tips@[k] == y);
                    }
                }
                assert(self.seen@.contains(start) || self.tips@.contains(start) || ex.contains(start)) by {
                    if before_tips.contains(start) && start != n {
                        let k = choose|k: int| 0 <= k < before_tips.len() && before_tips[k] == start;
                        assert(self.tips@[k] == start);
                    }
                }
                assert forall|i: int| 0 <= i < self.tips@.len() implies m.contains(#[trigger] self.tips@[i]) by {
                    assert(self.tips@[i] == before_tips[i]);
                }
            } else {
                assert(n == start || (n is Commit && m.arena.valid(n->Commit_0))) by {
                    if n != start {
                        let p = choose|p: EditorIndex| #[trigger] self.seen@.contains(p) && step(p, n);
                    }
                }
                let ghost old_seen = self.seen@;
                let ghost popped_tips = self.tips@;
                // `n` is reachable: it is the start, or a parent of something seen.
                proof {
                    if n == start {
                        crate::reach::lemma_reach_start(step, ex, start);
                    } else {
                        let p = choose|p: EditorIndex| #[trigger] old_seen.contains(p) && step(p, n);
                        crate::reach::lemma_reach_step(step, ex, start, p, n);
                    }
                }
                self.seen.insert(n);
                let parents = self.graph.parents(n);
                let mut k: usize = 0;
                while k < parents.len()
                    invariant
                        self.graph.valid(),
                        self.graph == old(self).graph,
                        self.start == old(self).start,
                        self.excluded@ == ex,
                        self.seen@ == old_seen.insert(n),
                        self.seen.covers(m),
                        self.excluded.covers(m),
                        self.seen.room() + 1 == old(self).seen.room(),
                        m == self.graph@,
                        parents@ == m.parents(n),
                        k <= parents.len(),
                        self.tips@ == popped_tips + parents@.take(k as int).map_values(|c: CommitIndex| EditorIndex::Commit(c)),
                    decreases parents.len() - k,
                {
                    self.tips.push(EditorIndex::Commit(parents[k]));
                    k = k + 1;
                    assert(self.tips@ =~= popped_tips + parents@.take(k as int).map_values(|c: CommitIndex| EditorIndex::Commit(c)));
                }
                assert(parents@.take(parents@.len() as int) =~= parents@);
                let ghost pushed = parents@.map_values(|c: CommitIndex| EditorIndex::Commit(c));
                assert(self.tips@ == popped_tips + pushed);
                assert forall|y: EditorIndex| #[trigger] pushed.contains(y) implies step(n, y) by {
                    let j = choose|j: int| 0 <= j < pushed.len() && pushed[j] == y;
                    assert(m.parents(n)[j] == y->Commit_0);
                }
                assert forall|y: EditorIndex| step(n, y) implies #[trigger] self.tips@.contains(y) by {
                    let c = y->Commit_0;
                    let j = choose|j: int| 0 <= j < m.parents(n).len() && m.parents(n)[j] == c;
                    assert(pushed[j] == y);
                    assert(self.tips@[popped_tips.len() + j] == y);
                }
                assert forall|i: int| 0 <= i < self.tips@.len() implies m.contains(#[trigger] self.tips@[i]) by {
                    if i < popped_tips.len() {
                        assert(self.tips@[i] == before_tips[i]);
                    } else {
                        let j = i - popped_tips.len();
                        assert(self.tips@[i] == pushed[j]);
                        assert(m.arena.wf());
                        assert(m.arena.valid(m.parents(n)[j]));
                    }
                }
                assert forall|x: EditorIndex| #[trigger] self.tips@.contains(x) implies x == start || exists|p: EditorIndex|
                    #[trigger] self.seen@.contains(p) && step(p, x) by {
                    let i = choose|i: int| 0 <= i < self.tips@.len() && self.tips@[i] == x;
                    if i < popped_tips.len() {
                        assert(before_tips[i] == x);
                        assert(before_tips.contains(x));
                        if x != start {
                            let p = choose|p: EditorIndex| #[trigger] old_seen.contains(p) && step(p, x);
                            assert(self.seen@.contains(p));
                        }
                    } else {
                        assert(pushed.contains(x));
                        assert(self.seen@.contains(n));
                    }
                }
                assert forall|p: EditorIndex, y: EditorIndex| #[trigger] self.seen@.contains(p) && #[trigger] step(p, y)
                    implies self.seen@.contains(y) || self.tips@.contains(y) || ex.contains(y) by {
                    if p != n {
                        assert(old_seen.contains(p));
                        if before_tips.contains(y) && y != n {
                            let i = choose|i: int| 0 <= i < before_tips.len() && before_tips[i] == y;
                            assert(self.tips@[i] == y);
                        }
                    }
                }
                assert(self.seen@.contains(start) || self.tips@.contains(start) || ex.contains(start)) by {
                    if before_tips.contains(start) && start != n {
                        let i = choose|i: int| 0 <= i < before_tips.len() && before_tips[i] == start;
                        assert(self.tips@[i] == start);
                    }
                }
                return Some(n);
            }
        }
        None
    }
}

impl<'graph> Traversal<'graph> {
    /// Run the walk to its end: every entry it yields, in order.
    fn collect(self) -> (out: Vec<EditorIndex>)
        requires
            self.inv(),
            self.seen@ == Set::<EditorIndex>::empty(),
            self.tips@ == seq![self.start@],
        ensures
            self.excluded@.contains(self.start@) ==> out@.len() == 0,
            !self.excluded@.contains(self.start@) ==> out@.len() > 0 && out@[0] == self.start@,
            forall|k: int| 0 <= k < out@.len() ==> #[trigger] out@[k] == self.start@
                || (out@[k] is Commit && self.graph@.arena.valid(out@[k]->Commit_0)),
            out@.no_duplicates(),
            forall|x: EditorIndex| #[trigger] out@.contains(x) <==> reaches(
                parent_step(self.graph@),
                self.excluded@,
                self.start@,
                x,
            ),
    {
        let mut walk = self;
        let ghost m = walk.graph@;
        let ghost step = parent_step(m);
        let ghost ex = walk.excluded@;
        let ghost start = walk.start@;
        let ghost graph = walk.graph;
        let mut out: Vec<EditorIndex> = Vec::new();
        loop
            invariant_except_break
                out@.len() == 0 ==> walk.tips@ == seq![start] && walk.seen@ == Set::<EditorIndex>::empty(),
            invariant
                walk.inv(),
                walk.graph == graph,
                m == graph@,
                step == parent_step(m),
                walk.excluded@ == ex,
                walk.start@ == start,
                out@.no_duplicates(),
                forall|x: EditorIndex| #[trigger] out@.contains(x) <==> walk.seen@.contains(x),
                out@.len() > 0 ==> out@[0] == start && !ex.contains(start),
                forall|k: int| 0 <= k < out@.len() ==> #[trigger] out@[k] == start
                    || (out@[k] is Commit && m.arena.valid(out@[k]->Commit_0)),
            ensures
                walk.inv(),
                walk.graph == graph,
                walk.excluded@ == ex,
                walk.start@ == start,
                walk.tips@.len() == 0,
                out@.no_duplicates(),
                forall|x: EditorIndex| #[trigger] out@.contains(x) <==> walk.seen@.contains(x),
                out@.len() == 0 ==> ex.contains(start),
                out@.len() > 0 ==> out@[0] == start && !ex.contains(start),
                forall|k: int| 0 <= k < out@.len() ==> #[trigger] out@[k] == start
                    || (out@[k] is Commit && m.arena.valid(out@[k]->Commit_0)),
            decreases walk.seen.room(),
        {
            match walk.next() {
                Some(n) => {
                    let ghost prev = out@;
                    out.push(n);
                    assert forall|x: EditorIndex| #[trigger] out@.contains(x) <==> walk.seen@.contains(x) by {
                        if out@.contains(x) && x != n {
                            let k = choose|k: int| 0 <= k < out@.len() && out@[k] == x;
                            assert(prev[k] == x);
                            assert(prev.contains(x));
                        }
                        if walk.seen@.contains(x) && x != n {
                            assert(prev.contains(x));
                            let k = choose|k: int| 0 <= k < prev.len() && prev[k] == x;
                            assert(out@[k] == x);
                        }
                        if x == n {
                            assert(out@[prev.len() as int] == n);
                        }
                    }
                    assert(out@.no_duplicates()) by {
                        assert forall|i: int, j: int| 0 <= i < out@.len() && 0 <= j < out@.len() && i != j
                            implies out@[i] != out@[j] by {
                            if i < prev.len() && j < prev.len() {
                                assert(prev[i] != prev[j]);
                            } else if i < prev.len() {
                                assert(prev.contains(prev[i]));
                            } else if j < prev.len() {
                                assert(prev.contains(prev[j]));
                            }
                        }
                    }
                },
                None => {
                    break;
                },
            }
        }
        assert forall|p: EditorIndex, y: EditorIndex| #[trigger] walk.seen@.contains(p) && #[trigger] step(p, y)
            implies walk.seen@.contains(y) || ex.contains(y) by {
            assert(!walk.tips@.contains(y));
        }
        assert(walk.seen@.contains(start) || ex.contains(start)) by {
            assert(!walk.tips@.contains(start));
        }
        assert forall|x: EditorIndex| #[trigger] out@.contains(x) <==> reaches(step, ex, start, x) by {
            if reaches(step, ex, start, x) {
                crate::reach::lemma_closed_set_covers(step, ex, start, walk.seen@, x);
            }
        }
        out
    }
}

impl<'graph> View for Traversal<'graph> {
    type V = Set<EditorIndex>;

    closed spec fn view(&self) -> Set<EditorIndex> {
        self.seen@
    }
}

/// Everything reachable from an entry of a valid store is an entry of it.
proof fn lemma_reached_in_store(m: StoreModel, excl: Set<EditorIndex>, start: EditorIndex, x: EditorIndex)
    requires
        m.wf(),
        m.contains(start),
        reaches(parent_step(m), excl, start, x),
    ensures
        m.contains(x),
{
    let known = Set::new(|e: EditorIndex| m.contains(e));
    assert forall|p: EditorIndex, y: EditorIndex| #[trigger] known.contains(p) && #[trigger] parent_step(m)(p, y)
        implies known.contains(y) || excl.contains(y) by {
        let c = y->Commit_0;
        let k = choose|k: int| 0 <= k < m.parents(p).len() && m.parents(p)[k] == c;
        assert(m.arena.nodes[p->Commit_0.0 as int].parents[k] == c);
    }
    crate::reach::lemma_closed_set_covers(parent_step(m), excl, start, known, x);
}

/// The entries of `m` that hold a commit.
pub open spec fn is_commit_in(m: StoreModel) -> spec_fn(EditorIndex) -> bool {
    |e: EditorIndex| m.is_commit(e)
}

/// Filtering a list without duplicates counts its set's members that pass the filter.
proof fn lemma_filter_count(s: Seq<EditorIndex>, p: spec_fn(EditorIndex) -> bool)
    requires
        s.no_duplicates(),
    ensures
        s.to_set().filter(p).finite(),
        s.filter(p).len() == s.to_set().filter(p).len(),
    decreases s.len(),
{
    broadcast use vstd::set::group_set_axioms, vstd::seq_lib::group_seq_properties;
    if s.len() == 0 {
        assert(s.to_set().filter(p) =~= Set::<EditorIndex>::empty());
        assert(s.filter(p) =~= Seq::<EditorIndex>::empty());
    } else {
        let r = s.drop_last();
        let x = s.last();
        assert(r.no_duplicates()) by {
            assert forall|i: int, j: int| 0 <= i < r.len() && 0 <= j < r.len() && i != j implies r[i] != r[j] by {
                assert(s[i] != s[j]);
            }
        }
        lemma_filter_count(r, p);
        assert(s =~= r.push(x));
        r.lemma_filter_len_push(p, x);
        assert(s.to_set() =~= r.to_set().insert(x));
        assert(!r.to_set().contains(x)) by {
            if r.contains(x) {
                let i = choose|i: int| 0 <= i < r.len() && r[i] == x;
                assert(s[i] == s[s.len() - 1]);
            }
        }
        if p(x) {
            assert(s.to_set().filter(p) =~= r.to_set().filter(p).insert(x));
        } else {
            assert(s.to_set().filter(p) =~= r.to_set().filter(p));
        }
    }
}

/// Count the commits (not tombstones, not references) among `steps`.
pub fn count_commits(graph: &EditorStore, steps: &Vec<EditorIndex>) -> (n: usize)
    ensures
        n == steps@.filter(is_commit_in(graph@)).len(),
{
    let ghost keep = is_commit_in(graph@);
    let mut n: usize = 0;
    let mut i: usize = 0;
    while i < steps.len()
        invariant
            i <= steps.len(),
            keep == is_commit_in(graph@),
            n == steps@.take(i as int).filter(keep).len(),
            n <= i,
        decreases steps.len() - i,
    {
        proof {
            assert(steps@.take(i + 1).drop_last() =~= steps@.take(i as int));
            steps@.take(i as int).lemma_filter_len_push(keep, steps@[i as int]);
            assert(steps@.take(i + 1) =~= steps@.take(i as int).push(steps@[i as int]));
            steps@.take(i as int).lemma_filter_len(keep);
        }
        if graph.is_commit(steps[i]) {
            n = n + 1;
        }
        i = i + 1;
    }
    assert(steps@.take(steps.len() as int) =~= steps@);
    n
}

/// Whether `e` is never a parent in `graph`: a reference, or an index its arena does not hold.
fn is_never_a_parent(graph: &EditorStore, e: EditorIndex) -> (r: bool)
    ensures
        r == crate::reach::never_a_parent(graph@, e),
{
    match e {
        EditorIndex::Ref(_) => true,
        EditorIndex::Commit(c) => c.0 >= graph.commit_count(),
    }
}

/// Every entry reachable from `start` following parent entries, `start` first, each once: the
/// start, then commits and tombstones of the store. An entry without parents — a reference, or
/// an index the store does not hold — reaches only itself.
pub fn reachable_from(graph: &EditorStore, start: EditorIndex) -> (out: Vec<EditorIndex>)
    requires
        graph.valid(),
    ensures
        out@.no_duplicates(),
        out@.len() > 0 && out@[0] == start,
        forall|k: int| 0 <= k < out@.len() ==> #[trigger] out@[k] == start
            || (out@[k] is Commit && graph@.arena.valid(out@[k]->Commit_0)),
        forall|x: EditorIndex| #[trigger] out@.contains(x) <==> reaches(parent_step(graph@), Set::empty(), start, x),
{
    all_until_optional_limit(graph, start, None)
}

/// The rev-set `start ^excluded`: entries reachable from `start` but not from `excluded`,
/// `start` first; nothing at all when `excluded` reaches `start`.
pub fn a_not_b(graph: &EditorStore, start: EditorIndex, excluded: EditorIndex) -> (out: Vec<EditorIndex>)
    requires
        graph.valid(),
    ensures
        out@.no_duplicates(),
        forall|x: EditorIndex| #[trigger] out@.contains(x) <==> reach_set(parent_step(graph@), Set::empty(), start).difference(
            reach_set(parent_step(graph@), Set::empty(), excluded),
        ).contains(x),
        reach_set(parent_step(graph@), Set::empty(), excluded).contains(start) ==> out@.len() == 0,
        !reach_set(parent_step(graph@), Set::empty(), excluded).contains(start) ==> out@.len() > 0 && out@[0] == start,
        forall|k: int| 0 <= k < out@.len() ==> #[trigger] out@[k] == start
            || (out@[k] is Commit && graph@.arena.valid(out@[k]->Commit_0)),
{
    let out = all_until_optional_limit(graph, start, Some(excluded));
    proof {
        crate::reach::lemma_avoiding_reach_set(parent_step(graph@), start, excluded);
    }
    out
}

/// The set of entries a limit excludes from a walk: everything it reaches, or nothing.
pub open spec fn limit_set(m: StoreModel, limit: Option<EditorIndex>) -> Set<EditorIndex> {
    match limit {
        Some(l) => reach_set(parent_step(m), Set::empty(), l),
        None => Set::empty(),
    }
}

/// All entries in `start ^limit`, or everything reachable from `start` when there is no
/// `limit`; `start` first, then commits and tombstones of the store, and nothing at all when
/// the limit reaches `start`.
pub fn all_until_optional_limit(graph: &EditorStore, start: EditorIndex, limit: Option<EditorIndex>) -> (out: Vec<EditorIndex>)
    requires
        graph.valid(),
    ensures
        out@.no_duplicates(),
        forall|x: EditorIndex| #[trigger] out@.contains(x) <==> reaches(parent_step(graph@), limit_set(graph@, limit), start, x),
        limit_set(graph@, limit).contains(start) ==> out@.len() == 0,
        !limit_set(graph@, limit).contains(start) ==> out@.len() > 0 && out@[0] == start,
        forall|k: int| 0 <= k < out@.len() ==> #[trigger] out@[k] == start
            || (out@[k] is Commit && graph@.arena.valid(out@[k]->Commit_0)),
{
    let ghost m = graph@;
    let ghost step = parent_step(graph@);
    let ghost lim = limit_set(graph@, limit);
    // What a limit in the arena reaches; any other limit reaches only itself, and a walk meets
    // such an entry only at its start, so it needs no entries here.
    let mut excluded = VisitSet::with_room(graph.commit_count(), graph.ref_count());
    let limit_walks = match limit {
        Some(l) => !is_never_a_parent(graph, l),
        None => false,
    };
    if limit_walks {
        let l = limit.unwrap();
        let excl_start = VisitSet::with_room(graph.commit_count(), graph.ref_count());
        let below = Traversal::new(graph, l, excl_start).collect();
        assert forall|j: int| 0 <= j < below@.len() implies graph@.contains(#[trigger] below@[j]) by {
            assert(below@.contains(below@[j]));
            lemma_reached_in_store(graph@, Set::empty(), l, below@[j]);
        }
        let mut i: usize = 0;
        while i < below.len()
            invariant
                graph.valid(),
                excluded.covers(graph@),
                i <= below.len(),
                forall|x: EditorIndex| #[trigger] below@.contains(x) <==> reaches(step, Set::empty(), l, x),
                forall|x: EditorIndex| #[trigger] excluded@.contains(x) <==> exists|j: int| 0 <= j < i && below@[j] == x,
                forall|j: int| 0 <= j < below@.len() ==> graph@.contains(#[trigger] below@[j]),
                step == parent_step(graph@),
            decreases below.len() - i,
        {
            let x = below[i];
            proof { lemma_slots_cover(&excluded, graph@, x); }
            let ghost prev = excluded@;
            excluded.insert(x);
            assert forall|y: EditorIndex| #[trigger] excluded@.contains(y) <==> exists|j: int| 0 <= j < i + 1 && below@[j] == y by {
                if y != x && excluded@.contains(y) {
                    assert(prev.contains(y));
                }
            }
            i = i + 1;
        }
        assert(excluded@ =~= lim) by {
            assert forall|x: EditorIndex| excluded@.contains(x) <==> lim.contains(x) by {
                if lim.contains(x) {
                    assert(below@.contains(x));
                    let j = choose|j: int| 0 <= j < below@.len() && below@[j] == x;
                }
                if excluded@.contains(x) {
                    let j = choose|j: int| 0 <= j < below@.len() && below@[j] == x;
                    assert(below@.contains(x));
                }
            }
        }
    }
    proof {
        if let Some(l) = limit {
            if crate::reach::never_a_parent(m, l) {
                assert(lim =~= set![l]) by {
                    assert forall|x: EditorIndex| lim.contains(x) <==> x == l by {
                        crate::reach::lemma_parentless_reaches_only_itself(m, Set::empty(), l, x);
                    }
                }
            }
        }
    }
    if is_never_a_parent(graph, start) {
        let blocked = match limit {
            Some(l) => l == start,
            None => false,
        };
        proof {
            if let Some(l) = limit {
                if lim.contains(start) {
                    if !crate::reach::never_a_parent(m, l) {
                        crate::reach::lemma_reached_only_as_start(m, Set::empty(), l, start);
                    }
                }
            }
        }
        assert(blocked == lim.contains(start));
        let mut out: Vec<EditorIndex> = Vec::new();
        if !blocked {
            out.push(start);
        }
        assert forall|x: EditorIndex| #[trigger] out@.contains(x) <==> reaches(step, lim, start, x) by {
            crate::reach::lemma_parentless_reaches_only_itself(m, lim, start, x);
            if out@.contains(x) {
                assert(out@[0] == x);
            }
            if x == start && !blocked {
                assert(out@[0] == x);
            }
        }
        out
    } else {
        proof {
            if let Some(l) = limit {
                if crate::reach::never_a_parent(m, l) {
                    assert(l != start);
                    assert forall|x: EditorIndex| reaches(step, lim, start, x) == reaches(step, excluded@, start, x) by {
                        crate::reach::lemma_excluding_never_a_parent(m, start, l, x);
                    }
                }
            }
        }
        let out = Traversal::new(graph, start, excluded).collect();
        proof {
            if let Some(l) = limit {
                if crate::reach::never_a_parent(m, l) {
                    assert forall|x: EditorIndex| #[trigger] out@.contains(x) <==> reaches(step, lim, start, x) by {
                        crate::reach::lemma_excluding_never_a_parent(m, start, l, x);
                    }
                }
            }
        }
        out
    }
}

/// `e` comes into `target` as a direct child: for a positioned reference, an entry entering
/// through it; for a commit, any entry naming it as a parent.
pub open spec fn is_direct_child(m: StoreModel, target: EditorIndex, e: ParentEntry) -> bool {
    match target {
        EditorIndex::Ref(r) => m.is_positioned(r) && entering_set(m, target).contains(e),
        EditorIndex::Commit(c) => m.arena.is_incoming(c, e),
    }
}

/// The parent entries behind a list of `(child, parent number)` pairs.
pub open spec fn pair_entries(v: Seq<(EditorIndex, usize)>) -> Seq<ParentEntry> {
    v.map_values(|p: (EditorIndex, usize)| ParentEntry { child: p.0->Commit_0, number: p.1 })
}

/// The `(child, parent number)` pair of an entry.
pub open spec fn entry_pair(e: ParentEntry) -> (EditorIndex, usize) {
    (EditorIndex::Commit(e.child), e.number)
}

/// The pairs of a list of entries, in order.
fn pairs_of(entries: &Vec<ParentEntry>) -> (v: Vec<(EditorIndex, usize)>)
    ensures
        v@ == entries@.map_values(|e: ParentEntry| entry_pair(e)),
{
    let mut v: Vec<(EditorIndex, usize)> = Vec::new();
    let mut i: usize = 0;
    while i < entries.len()
        invariant
            i <= entries.len(),
            v@ == entries@.take(i as int).map_values(|e: ParentEntry| entry_pair(e)),
        decreases entries.len() - i,
    {
        v.push((EditorIndex::Commit(entries[i].child), entries[i].number));
        i = i + 1;
        assert(v@ =~= entries@.take(i as int).map_values(|e: ParentEntry| entry_pair(e)));
    }
    assert(entries@.take(entries.len() as int) =~= entries@);
    v
}

/// The pairs of a list of entries give the entries back.
proof fn lemma_pairs_entries(s: Seq<ParentEntry>)
    ensures
        pair_entries(s.map_values(|e: ParentEntry| entry_pair(e))) == s,
{
    assert(pair_entries(s.map_values(|e: ParentEntry| entry_pair(e))) =~= s);
}

/// The reference `e` carries the parent entry `(node, number)` into `commit`: it holds a
/// position resolving to `commit` and the entry enters through it.
pub open spec fn carries(m: StoreModel, node: CommitIndex, number: usize, commit: CommitIndex, e: RefIndex) -> bool {
    &&& m.is_positioned(e)
    &&& enters(m, e, ParentEntry { child: node, number })
    &&& resolve(m, EditorIndex::Ref(e)) == Some(commit)
}

/// `a` sits lower than `b`: smaller depth, or the same depth and a smaller index.
pub open spec fn ranks_below(m: StoreModel, a: RefIndex, b: RefIndex) -> bool {
    depth(m, EditorIndex::Ref(a)) < depth(m, EditorIndex::Ref(b)) || (depth(m, EditorIndex::Ref(a))
        == depth(m, EditorIndex::Ref(b)) && a.0 < b.0)
}

/// `e` is the highest of the references carrying `(node, number)` into `commit`.
pub open spec fn is_top_carrier(m: StoreModel, node: CommitIndex, number: usize, commit: CommitIndex, e: RefIndex) -> bool {
    &&& carries(m, node, number, commit, e)
    &&& forall|f: RefIndex| #[trigger] carries(m, node, number, commit, f) && f != e ==> ranks_below(m, f, e)
}

/// What a walk from the commit `node` meets through its parent entry `number`: the top of the
/// reference group carrying that entry into the parent, or the parent itself.
pub open spec fn parent_view(m: StoreModel, node: CommitIndex, number: usize) -> EditorIndex {
    let c = m.arena.parents(node)[number as int];
    if exists|e: RefIndex| #[trigger] is_top_carrier(m, node, number, c, e) {
        EditorIndex::Ref(choose|e: RefIndex| #[trigger] is_top_carrier(m, node, number, c, e))
    } else {
        EditorIndex::Commit(c)
    }
}

/// The position-aware parents of `target`, or `None` when `target` is a reference whose
/// stored position leads to no commit.
pub open spec fn position_parents_of(m: StoreModel, target: EditorIndex) -> Option<Seq<EditorIndex>> {
    match target {
        EditorIndex::Ref(r) => match m.positioned_on(r) {
            Some(on) => match resolve_key(m, on) {
                Some(c) => Some(seq![
                    match m.below_of(r) {
                        Some(b) => EditorIndex::Ref(b),
                        None => EditorIndex::Commit(c),
                    },
                ]),
                None => None,
            },
            None => Some(Seq::empty()),
        },
        EditorIndex::Commit(node) => Some(
            Seq::new(m.arena.parents(node).len(), |n: int| parent_view(m, node, n as usize)),
        ),
    }
}

/// One step of a position-aware walk.
pub open spec fn position_step(m: StoreModel) -> spec_fn(EditorIndex, EditorIndex) -> bool {
    |p: EditorIndex, x: EditorIndex| position_parents_of(m, p) matches Some(s) && s.contains(x)
}

/// Two distinct top carriers cannot both be the highest.
proof fn lemma_top_carrier_unique(m: StoreModel, node: CommitIndex, number: usize, commit: CommitIndex, a: RefIndex, b: RefIndex)
    requires
        is_top_carrier(m, node, number, commit, a),
        is_top_carrier(m, node, number, commit, b),
    ensures
        a == b,
{
    if a != b {
        assert(ranks_below(m, a, b));
        assert(ranks_below(m, b, a));
    }
}

/// The top of the group carrying `(node, number)` into `commit`, if any reference carries it.
fn top_carrier(graph: &EditorStore, node: CommitIndex, number: usize, commit: CommitIndex) -> (top: Option<RefIndex>)
    requires
        graph.valid(),
    ensures
        match top {
            Some(e) => is_top_carrier(graph@, node, number, commit, e),
            None => forall|f: RefIndex| !(#[trigger] carries(graph@, node, number, commit, f)),
        },
{
    let all = graph.positioned_refs();
    let entry = ParentEntry { child: node, number };
    let mut best: Option<(RefIndex, usize)> = None;
    let mut i: usize = 0;
    while i < all.len()
        invariant
            graph.valid(),
            i <= all.len(),
            forall|x: RefIndex| #[trigger] all@.contains(x) <==> graph@.is_positioned(x),
            entry == (ParentEntry { child: node, number }),
            match best {
                Some((e, d)) => {
                    &&& carries(graph@, node, number, commit, e)
                    &&& d == depth(graph@, EditorIndex::Ref(e))
                    &&& exists|j: int| 0 <= j < i && all@[j] == e
                    &&& forall|j: int| 0 <= j < i && carries(graph@, node, number, commit, #[trigger] all@[j]) && all@[j] != e
                        ==> ranks_below(graph@, all@[j], e)
                },
                None => forall|j: int| 0 <= j < i ==> !carries(graph@, node, number, commit, #[trigger] all@[j]),
            },
        decreases all.len() - i,
    {
        let x = all[i];
        assert(all@.contains(x));
        let ex = entering(graph, EditorIndex::Ref(x));
        if crate::positions::holds_entry(&ex, entry) && resolve_to_commit(graph, EditorIndex::Ref(x)) == Some(commit) {
            let d = ref_depth(graph, EditorIndex::Ref(x));
            let ghost old_best = best;
            match best {
                Some((e, bd)) => {
                    if d > bd || (d == bd && x.0 > e.0) {
                        best = Some((x, d));
                        assert forall|j: int| 0 <= j < i + 1 && carries(graph@, node, number, commit, #[trigger] all@[j]) && all@[j] != x
                            implies ranks_below(graph@, all@[j], x) by {
                            if all@[j] != e && j < i {
                                assert(ranks_below(graph@, all@[j], e));
                            }
                        }
                    } else {
                        assert(x != e ==> ranks_below(graph@, x, e));
                    }
                },
                None => {
                    best = Some((x, d));
                },
            }
        }
        i = i + 1;
    }
    match best {
        Some((e, _)) => {
            assert forall|f: RefIndex| #[trigger] carries(graph@, node, number, commit, f) && f != e implies ranks_below(graph@, f, e) by {
                assert(all@.contains(f));
                let j = choose|j: int| 0 <= j < all@.len() && all@[j] == f;
            }
            Some(e)
        },
        None => {
            assert forall|f: RefIndex| !(#[trigger] carries(graph@, node, number, commit, f)) by {
                if carries(graph@, node, number, commit, f) {
                    assert(all@.contains(f));
                    let j = choose|j: int| 0 <= j < all@.len() && all@[j] == f;
                }
            }
            None
        },
    }
}

/// Position-aware parents of an entry of a valid store are entries of it.
proof fn lemma_position_parents_in_store(m: StoreModel, p: EditorIndex, x: EditorIndex)
    requires
        m.wf(),
        m.contains(p),
        position_parents_of(m, p) matches Some(s) && s.contains(x),
    ensures
        m.contains(x),
{
    let s = position_parents_of(m, p)->0;
    let k = choose|k: int| 0 <= k < s.len() && s[k] == x;
    match p {
        EditorIndex::Ref(r) => {
            let on = m.positioned_on(r)->0;
            crate::positions::lemma_descend_is_commit(m.arena, on, crate::positions::WALK_LIMIT as nat);
            assert(m.refs[r.0 as int].position is Some);
        },
        EditorIndex::Commit(node) => {
            assert(x == parent_view(m, node, k as usize));
            let c = m.arena.parents(node)[k];
            if exists|e: RefIndex| #[trigger] is_top_carrier(m, node, k as usize, c, e) {
            } else {
                assert(m.arena.nodes[node.0 as int].parents[k] == c);
            }
        },
    }
}

/// `e` sits higher than `t` in `t`'s group: same commit, same entering entries, more depth.
pub open spec fn overshadows(m: StoreModel, e: RefIndex, t: RefIndex) -> bool {
    &&& m.is_positioned(e)
    &&& e != t
    &&& entering_set(m, EditorIndex::Ref(e)) == entering_set(m, EditorIndex::Ref(t))
    &&& depth(m, EditorIndex::Ref(e)) > depth(m, EditorIndex::Ref(t))
    &&& resolve(m, EditorIndex::Ref(e)) == resolve(m, EditorIndex::Ref(t))
}

/// `t` is the top of its group: nothing sits higher in it.
pub open spec fn is_group_top(m: StoreModel, t: RefIndex) -> bool {
    !exists|e: RefIndex| #[trigger] overshadows(m, e, t)
}

/// `e` is stacked directly on `t`.
pub open spec fn stacked_on(m: StoreModel, e: RefIndex, t: RefIndex) -> bool {
    m.is_positioned(e) && e != t && m.below_of(e) == Some(t)
}

/// Some entry from `child` enters through `t`.
pub open spec fn enters_from(m: StoreModel, t: RefIndex, child: CommitIndex) -> bool {
    exists|n: usize| #[trigger] entering_set(m, EditorIndex::Ref(t)).contains(ParentEntry { child, number: n })
}

/// `e` sits directly on the commit `c`, at the bottom of its stack.
pub open spec fn sits_on(m: StoreModel, e: RefIndex, c: CommitIndex) -> bool {
    m.is_positioned(e) && m.below_of(e) is None && resolve(m, EditorIndex::Ref(e)) == Some(c)
}

/// The entry `e` reaches `c` through a reference group rather than plainly.
pub open spec fn carried(m: StoreModel, e: ParentEntry, c: CommitIndex) -> bool {
    exists|r: RefIndex| #[trigger] m.is_positioned(r) && enters(m, r, e) && resolve(m, EditorIndex::Ref(r)) == Some(c)
}

/// Some entry from `child` comes into `c` plainly.
pub open spec fn plain_child(m: StoreModel, c: CommitIndex, child: CommitIndex) -> bool {
    exists|n: usize| #[trigger] m.arena.is_incoming(c, ParentEntry { child, number: n })
        && !carried(m, ParentEntry { child, number: n }, c)
}

/// `x` is a position-aware child of `target`: for a positioned reference, the references
/// stacked on it, plus — when it tops its group — the children whose entries enter it; for a
/// commit, the references sitting directly on it plus the children coming in plainly.
pub open spec fn is_position_child(m: StoreModel, target: EditorIndex, x: EditorIndex) -> bool {
    match target {
        EditorIndex::Ref(t) => m.is_positioned(t) && match x {
            EditorIndex::Ref(e) => stacked_on(m, e, t),
            EditorIndex::Commit(c) => is_group_top(m, t) && enters_from(m, t, c),
        },
        EditorIndex::Commit(c) => match x {
            EditorIndex::Ref(e) => sits_on(m, e, c),
            EditorIndex::Commit(child) => plain_child(m, c, child),
        },
    }
}

/// Where a walk from `start` begins: a commit or tombstone of the store is its own seed, a
/// reference descends from the commit it resolves to.
pub open spec fn walk_seed(m: StoreModel, start: EditorIndex) -> Option<CommitIndex> {
    match start {
        EditorIndex::Commit(c) => if m.arena.valid(c) { Some(c) } else { None },
        EditorIndex::Ref(_) => resolve(m, start),
    }
}

/// The commits and tombstones a walk from `start` reaches: everything reachable by parent
/// entries from its seed (see [`walk_seed`]), the seed included.
pub open spec fn reached_commits(m: StoreModel, start: EditorIndex) -> Set<CommitIndex> {
    match walk_seed(m, start) {
        Some(s) => Set::new(|c: CommitIndex| reaches(parent_step(m), Set::empty(), EditorIndex::Commit(s), EditorIndex::Commit(c))),
        None => Set::empty(),
    }
}

/// The commit `c` counts as reached by `reached`: it is in it, or holds the same commit id as
/// a commit in it.
pub open spec fn reached_by(m: StoreModel, reached: Set<CommitIndex>, c: CommitIndex) -> bool {
    reached.contains(c) || (m.arena.is_commit(c) && exists|d: CommitIndex|
        #[trigger] reached.contains(d) && m.arena.is_commit(d) && crate::positions::id_at(m, d) == crate::positions::id_at(m, c))
}

/// `x` is reachable from `start`, references included: a commit or tombstone the walk from
/// `start`'s seed reaches (`start` itself, for a commit or tombstone), or a reference whose
/// commit was reached (or `start` itself).
pub open spec fn is_reachable_id(m: StoreModel, start: EditorIndex, x: EditorIndex) -> bool {
    match x {
        EditorIndex::Commit(c) => reached_commits(m, start).contains(c),
        EditorIndex::Ref(r) => m.is_positioned(r) && ((match resolve(m, EditorIndex::Ref(r)) {
            Some(c) => reached_by(m, reached_commits(m, start), c),
            None => false,
        }) || x == start),
    }
}

/// `a` sorts before `b`: commits before references, then by index.
pub open spec fn editor_before(a: EditorIndex, b: EditorIndex) -> bool {
    match (a, b) {
        (EditorIndex::Commit(x), EditorIndex::Commit(y)) => x.0 < y.0,
        (EditorIndex::Commit(_), EditorIndex::Ref(_)) => true,
        (EditorIndex::Ref(_), EditorIndex::Commit(_)) => false,
        (EditorIndex::Ref(x), EditorIndex::Ref(y)) => x.0 < y.0,
    }
}

/// `s` is strictly ascending — sorted, without duplicates.
pub open spec fn editor_ascending(s: Seq<EditorIndex>) -> bool {
    forall|i: int, j: int| 0 <= i < j < s.len() ==> editor_before(#[trigger] s[i], #[trigger] s[j])
}

fn before(a: EditorIndex, b: EditorIndex) -> (r: bool)
    ensures
        r == editor_before(a, b),
{
    match (a, b) {
        (EditorIndex::Commit(x), EditorIndex::Commit(y)) => x.0 < y.0,
        (EditorIndex::Commit(_), EditorIndex::Ref(_)) => true,
        (EditorIndex::Ref(_), EditorIndex::Commit(_)) => false,
        (EditorIndex::Ref(x), EditorIndex::Ref(y)) => x.0 < y.0,
    }
}

/// Add `x` to the ascending list `v`, keeping it ascending and without duplicates.
fn insert_ascending(v: &mut Vec<EditorIndex>, x: EditorIndex)
    requires
        editor_ascending(old(v)@),
    ensures
        editor_ascending(final(v)@),
        forall|y: EditorIndex| #[trigger] final(v)@.contains(y) <==> (old(v)@.contains(y) || y == x),
{
    let mut i: usize = 0;
    while i < v.len() && before(v[i], x)
        invariant
            i <= v.len(),
            v@ == old(v)@,
            editor_ascending(v@),
            forall|j: int| 0 <= j < i ==> editor_before(#[trigger] v@[j], x),
        decreases v.len() - i,
    {
        i = i + 1;
    }
    if i < v.len() && v[i] == x {
        return;
    }
    let ghost prev = v@;
    v.insert(i, x);
    assert(v@ == prev.insert(i as int, x));
    assert forall|a: int, b: int| 0 <= a < b < v@.len() implies editor_before(#[trigger] v@[a], #[trigger] v@[b]) by {
        if b < i {
            assert(editor_before(prev[a], prev[b]));
        } else if b == i {
            assert(editor_before(prev[a], x));
        } else if a < i {
            assert(editor_before(prev[a], prev[b - 1]));
        } else if a == i {
            // prev[i] is not before x and differs from it, so x is before it; and prev is ascending.
            assert(!editor_before(prev[i as int], x));
            assert(prev[i as int] != x);
            if b - 1 > i {
                assert(editor_before(prev[i as int], prev[b - 1]));
            }
        } else {
            assert(editor_before(prev[a - 1], prev[b - 1]));
        }
    }
    assert forall|y: EditorIndex| #[trigger] v@.contains(y) <==> (prev.contains(y) || y == x) by {
        if v@.contains(y) {
            let k = choose|k: int| 0 <= k < v@.len() && v@[k] == y;
            if k < i {
                assert(prev[k] == y);
            } else if k > i {
                assert(prev[k - 1] == y);
            }
        }
        if prev.contains(y) {
            let k = choose|k: int| 0 <= k < prev.len() && prev[k] == y;
            if k < i {
                assert(v@[k] == y);
            } else {
                assert(v@[k + 1] == y);
            }
        }
        if y == x {
            assert(v@[i as int] == x);
        }
    }
}

impl Editor {
    /// All direct children of `target` with their parent numbers: the parent entries coming into
    /// it — for a reference, those entering through its position — ascending by child, then
    /// parent number.
    pub fn direct_children(&self, target: EditorIndex) -> (r: Result<Vec<(EditorIndex, usize)>, EditorError>)
        ensures
            match r {
                Ok(v) => {
                    &&& self@.contains(target)
                    &&& forall|k: int| 0 <= k < v@.len() ==> (#[trigger] v@[k]).0 is Commit
                    &&& entries_ascending(pair_entries(v@))
                    &&& forall|e: ParentEntry| #[trigger] pair_entries(v@).contains(e) <==> is_direct_child(self@, target, e)
                },
                Err(e) => !self@.contains(target) && e == EditorError::UnknownEntry(target),
            },
    {
        let target = self.resolve_anchor(target)?;
        let graph = self.graph();
        let entries = if graph.is_positioned(target) {
            entering(graph, target)
        } else {
            graph.children_of(target)
        };
        let v = pairs_of(&entries);
        proof {
            lemma_pairs_entries(entries@);
        }
        assert forall|e: ParentEntry| #[trigger] pair_entries(v@).contains(e) <==> is_direct_child(self@, target, e) by {
            assert(pair_entries(v@).contains(e) == entries@.contains(e));
        }
        Ok(v)
    }

    /// All direct parents of `target` with their parent numbers: a reference's one downward link
    /// is its commit; a commit's are its parent entries, in order.
    pub fn direct_parents(&self, target: EditorIndex) -> (r: Result<Vec<(EditorIndex, usize)>, EditorError>)
        ensures
            match r {
                Ok(v) => self@.contains(target) && match target {
                    EditorIndex::Ref(t) if self@.is_positioned(t) =>
                        resolve_key(self@, self@.positioned_on(t)->0) == Some(v@[0].0->Commit_0)
                            && v@ == seq![v@[0]] && v@[0].1 == 0 && v@[0].0 is Commit,
                    _ => v@ == Seq::new(self@.parents(target).len(), |i: int| (EditorIndex::Commit(self@.parents(target)[i]), i as usize)),
                },
                Err(e) => if !self@.contains(target) {
                    e == EditorError::UnknownEntry(target)
                } else {
                    &&& target is Ref
                    &&& self@.is_positioned(target->Ref_0)
                    &&& resolve_key(self@, self@.positioned_on(target->Ref_0)->0) is None
                    &&& e == EditorError::Unresolved(self@.positioned_on(target->Ref_0)->0)
                },
            },
    {
        let target = self.resolve_anchor(target)?;
        let graph = self.graph();
        if let Some(on) = graph.positioned_on(target) {
            let commit = self.resolved_commit(on)?;
            let mut v: Vec<(EditorIndex, usize)> = Vec::new();
            v.push((EditorIndex::Commit(commit), 0));
            return Ok(v);
        }
        let parents = graph.parents(target);
        let mut v: Vec<(EditorIndex, usize)> = Vec::new();
        let mut i: usize = 0;
        while i < parents.len()
            invariant
                i <= parents.len(),
                v@ == Seq::new(i as nat, |j: int| (EditorIndex::Commit(parents@[j]), j as usize)),
            decreases parents.len() - i,
        {
            v.push((EditorIndex::Commit(parents[i]), i));
            i = i + 1;
            assert(v@ =~= Seq::new(i as nat, |j: int| (EditorIndex::Commit(parents@[j]), j as usize)));
        }
        Ok(v)
    }

    /// The position-aware parent view of `target`: reference groups sit between a commit and
    /// its parent, so the view shows the branch names a walk would pass through. For a commit,
    /// each parent entry resolves to the top of the group it carries (falling back to the
    /// parent commit); for a reference, the next group member below, then the commit.
    pub fn position_parents(&self, target: EditorIndex) -> (r: Result<Vec<EditorIndex>, EditorError>)
        ensures
            match r {
                Ok(v) => self@.contains(target) && position_parents_of(self@, target) == Some(v@),
                Err(e) => if !self@.contains(target) {
                    e == EditorError::UnknownEntry(target)
                } else {
                    &&& position_parents_of(self@, target) is None
                    &&& e == EditorError::Unresolved(self@.positioned_on(target->Ref_0)->0)
                },
            },
    {
        let target = self.resolve_anchor(target)?;
        self.position_parents_known(target)
    }

    /// [`Self::position_parents`] of an entry known to the editor.
    fn position_parents_known(&self, target: EditorIndex) -> (r: Result<Vec<EditorIndex>, EditorError>)
        requires
            self@.contains(target),
        ensures
            match r {
                Ok(v) => position_parents_of(self@, target) == Some(v@),
                Err(e) => {
                    &&& position_parents_of(self@, target) is None
                    &&& e == EditorError::Unresolved(self@.positioned_on(target->Ref_0)->0)
                },
            },
    {
        let graph = self.graph();
        if let Some(on) = graph.positioned_on(target) {
            let commit = self.resolved_commit(on)?;
            let mut v: Vec<EditorIndex> = Vec::new();
            match graph.below_of(target) {
                Some(below) => v.push(EditorIndex::Ref(below)),
                None => v.push(EditorIndex::Commit(commit)),
            }
            assert(v@ =~= position_parents_of(self@, target)->0);
            return Ok(v);
        }
        let node = match target.as_commit() {
            Some(node) => node,
            None => {
                let v: Vec<EditorIndex> = Vec::new();
                assert(v@ =~= position_parents_of(self@, target)->0);
                return Ok(v);
            },
        };
        let parents = graph.parents(target);
        let mut v: Vec<EditorIndex> = Vec::new();
        let mut n: usize = 0;
        while n < parents.len()
            invariant
                graph.valid(),
                graph@ == self@,
                target == EditorIndex::Commit(node),
                parents@ == self@.arena.parents(node),
                n <= parents.len(),
                v@ == Seq::new(n as nat, |k: int| parent_view(self@, node, k as usize)),
            decreases parents.len() - n,
        {
            let commit = parents[n];
            let view = match top_carrier(graph, node, n, commit) {
                Some(top) => {
                    proof {
                        let chosen = choose|e: RefIndex| #[trigger] is_top_carrier(self@, node, n, commit, e);
                        lemma_top_carrier_unique(self@, node, n, commit, top, chosen);
                    }
                    EditorIndex::Ref(top)
                },
                None => {
                    assert(!exists|e: RefIndex| #[trigger] is_top_carrier(self@, node, n, commit, e));
                    EditorIndex::Commit(commit)
                },
            };
            assert(view == parent_view(self@, node, n));
            v.push(view);
            n = n + 1;
            assert(v@ =~= Seq::new(n as nat, |k: int| parent_view(self@, node, k as usize)));
        }
        Ok(v)
    }

    /// Everything a position-aware walk from `tip` passes through, `tip` included: the closure
    /// of [`Self::position_parents`], each entry once. Fails when the walk meets a reference
    /// whose stored position leads to no commit.
    pub fn position_reachable(&self, tip: EditorIndex) -> (r: Result<Vec<EditorIndex>, EditorError>)
        ensures
            match r {
                Ok(v) => {
                    &&& self@.contains(tip)
                    &&& v@.no_duplicates()
                    &&& forall|x: EditorIndex| #[trigger] v@.contains(x) <==> reaches(position_step(self@), Set::empty(), tip, x)
                    &&& forall|x: EditorIndex| #[trigger] reaches(position_step(self@), Set::empty(), tip, x)
                        ==> position_parents_of(self@, x) is Some
                },
                Err(e) => if !self@.contains(tip) {
                    e == EditorError::UnknownEntry(tip)
                } else {
                    exists|x: EditorIndex| #[trigger] reaches(position_step(self@), Set::empty(), tip, x)
                        && position_parents_of(self@, x) is None
                        && e == EditorError::Unresolved(self@.positioned_on(x->Ref_0)->0)
                },
            },
            r is Ok <==> (self@.contains(tip) && forall|x: EditorIndex| #[trigger] reaches(position_step(self@), Set::empty(), tip, x)
                ==> position_parents_of(self@, x) is Some),
            self@.contains(tip) ==> forall|x: EditorIndex| #[trigger] reaches(position_step(self@), Set::empty(), tip, x)
                ==> self@.contains(x),
    {
        let graph = self.graph();
        proof {
            if self@.contains(tip) {
                assert forall|x: EditorIndex| #[trigger] reaches(position_step(self@), Set::empty(), tip, x)
                    implies self@.contains(x) by {
                    law_position_reach_stays_in_store(self@, tip, x);
                }
            }
        }
        self.resolve_anchor(tip)?;
        let ghost m = self@;
        let ghost step = position_step(m);
        let ghost none = Set::<EditorIndex>::empty();
        let mut seen = VisitSet::with_room(graph.commit_count(), graph.ref_count());
        seen.insert(tip);
        let mut out: Vec<EditorIndex> = Vec::new();
        out.push(tip);
        let mut tips: Vec<EditorIndex> = Vec::new();
        tips.push(tip);
        proof {
            crate::reach::lemma_reach_start(step, none, tip);
            assert(out@[0] == tip);
            assert(tips@[0] == tip);
            assert(out@.no_duplicates());
        }
        while tips.len() > 0
            invariant
                graph.valid(),
                graph@ == m,
                m == self@,
                step == position_step(m),
                none == Set::<EditorIndex>::empty(),
                m.contains(tip),
                seen.covers(m),
                seen@.contains(tip),
                out@.no_duplicates(),
                tips@.no_duplicates(),
                forall|x: EditorIndex| #[trigger] out@.contains(x) <==> seen@.contains(x),
                forall|x: EditorIndex| #[trigger] tips@.contains(x) ==> seen@.contains(x),
                forall|x: EditorIndex| #[trigger] seen@.contains(x) ==> reaches(step, none, tip, x) && m.contains(x),
                forall|p: EditorIndex, y: EditorIndex| #[trigger] seen@.contains(p) && #[trigger] step(p, y)
                    ==> seen@.contains(y) || tips@.contains(p),
                forall|p: EditorIndex| #[trigger] seen@.contains(p) && !tips@.contains(p) ==> position_parents_of(m, p) is Some,
                forall|x: EditorIndex| #[trigger] reaches(position_step(m), Set::empty(), tip, x) ==> m.contains(x),
            decreases seen.room(), tips.len(),
        {
            let ghost before_tips = tips@;
            let t = tips.pop().unwrap();
            assert(before_tips[before_tips.len() - 1] == t);
            assert(before_tips.contains(t));
            assert(tips@ == before_tips.drop_last());
            let parents = match self.position_parents_known(t) {
                Ok(v) => v,
                Err(e) => {
                    assert(reaches(step, none, tip, t) && position_parents_of(m, t) is None
                        && e == EditorError::Unresolved(self@.positioned_on(t->Ref_0)->0));
                    assert(reaches(position_step(self@), Set::empty(), tip, t));
                    assert(self@.contains(tip));
                    assert(exists|x: EditorIndex| #[trigger] reaches(position_step(self@), Set::empty(), tip, x)
                        && position_parents_of(self@, x) is None
                        && e == EditorError::Unresolved(self@.positioned_on(x->Ref_0)->0));
                    return Err(e);
                },
            };
            let ghost popped = tips@;
            assert forall|x: EditorIndex| #[trigger] popped.contains(x) implies seen@.contains(x) && x != t by {
                let j = choose|j: int| 0 <= j < popped.len() && popped[j] == x;
                assert(before_tips[j] == x);
                assert(before_tips.contains(x));
                assert(before_tips[j] != before_tips[before_tips.len() - 1]);
            }
            assert(popped.no_duplicates()) by {
                assert forall|a: int, b: int| 0 <= a < popped.len() && 0 <= b < popped.len() && a != b
                    implies popped[a] != popped[b] by {
                    assert(before_tips[a] != before_tips[b]);
                }
            }
            assert forall|p: EditorIndex| #[trigger] seen@.contains(p) && !popped.contains(p) && p != t
                implies position_parents_of(m, p) is Some by {
                if before_tips.contains(p) {
                    let j = choose|j: int| 0 <= j < before_tips.len() && before_tips[j] == p;
                    assert(popped[j] == p);
                }
            }
            assert forall|p: EditorIndex, y: EditorIndex| #[trigger] seen@.contains(p) && #[trigger] step(p, y) && p != t
                implies seen@.contains(y) || popped.contains(p) by {
                if before_tips.contains(p) {
                    let j = choose|j: int| 0 <= j < before_tips.len() && before_tips[j] == p;
                    assert(popped[j] == p);
                }
            }
            let ghost seen_before = seen@;
            let ghost room_before = seen.room();
            let mut k: usize = 0;
            while k < parents.len()
                invariant
                    graph.valid(),
                    graph@ == m,
                    m == self@,
                    step == position_step(m),
                    none == Set::<EditorIndex>::empty(),
                    position_parents_of(m, t) == Some(parents@),
                    seen@.contains(t),
                    !popped.contains(t),
                    !tips@.contains(t),
                    k <= parents.len(),
                    seen.covers(m),
                    seen@.contains(tip),
                    seen.room() <= room_before,
                    tips@.len() >= popped.len(),
                    seen.room() < room_before || tips@ == popped,
                    tips@.len() - popped.len() <= room_before - seen.room(),
                    out@.no_duplicates(),
                    tips@.no_duplicates(),
                    forall|j: int| 0 <= j < popped.len() ==> tips@[j] == popped[j],
                    forall|x: EditorIndex| #[trigger] out@.contains(x) <==> seen@.contains(x),
                    forall|x: EditorIndex| #[trigger] tips@.contains(x) ==> seen@.contains(x),
                    forall|x: EditorIndex| #[trigger] seen@.contains(x) ==> reaches(step, none, tip, x) && m.contains(x),
                    forall|x: EditorIndex| #[trigger] seen_before.contains(x) ==> seen@.contains(x),
                    forall|x: EditorIndex| #[trigger] seen@.contains(x) && !seen_before.contains(x) ==> tips@.contains(x),
                    forall|p: EditorIndex, y: EditorIndex| #[trigger] seen@.contains(p) && #[trigger] step(p, y) && p != t
                        ==> seen@.contains(y) || tips@.contains(p),
                    forall|j: int| 0 <= j < k ==> seen@.contains(#[trigger] parents@[j]),
                    forall|p: EditorIndex| #[trigger] seen@.contains(p) && !tips@.contains(p) && p != t ==> position_parents_of(m, p) is Some,
                decreases parents.len() - k,
            {
                let x = parents[k];
                assert(parents@.contains(x));
                proof {
                    lemma_position_parents_in_store(m, t, x);
                    lemma_slots_cover(&seen, m, x);
                    crate::reach::lemma_reach_step(step, none, tip, t, x);
                }
                let ghost prev_seen = seen@;
                let ghost prev_tips = tips@;
                let ghost prev_out = out@;
                if seen.insert(x) {
                    tips.push(x);
                    out.push(x);
                    assert forall|y: EditorIndex| #[trigger] out@.contains(y) <==> seen@.contains(y) by {
                        if out@.contains(y) && y != x {
                            let j = choose|j: int| 0 <= j < out@.len() && out@[j] == y;
                            assert(prev_out[j] == y);
                            assert(prev_out.contains(y));
                        }
                        if seen@.contains(y) && y != x {
                            assert(prev_out.contains(y));
                            let j = choose|j: int| 0 <= j < prev_out.len() && prev_out[j] == y;
                            assert(out@[j] == y);
                        }
                        if y == x {
                            assert(out@[prev_out.len() as int] == x);
                        }
                    }
                    assert forall|y: EditorIndex| #[trigger] tips@.contains(y) implies seen@.contains(y) by {
                        let j = choose|j: int| 0 <= j < tips@.len() && tips@[j] == y;
                        if j < prev_tips.len() {
                            assert(prev_tips[j] == y);
                            assert(prev_tips.contains(y));
                        }
                    }
                    assert(out@.no_duplicates()) by {
                        assert forall|a: int, b: int| 0 <= a < out@.len() && 0 <= b < out@.len() && a != b
                            implies out@[a] != out@[b] by {
                            if a < prev_out.len() && b < prev_out.len() {
                                assert(prev_out[a] != prev_out[b]);
                            } else if a < prev_out.len() {
                                assert(prev_out.contains(prev_out[a]));
                            } else if b < prev_out.len() {
                                assert(prev_out.contains(prev_out[b]));
                            }
                        }
                    }
                    assert(tips@.no_duplicates()) by {
                        assert forall|a: int, b: int| 0 <= a < tips@.len() && 0 <= b < tips@.len() && a != b
                            implies tips@[a] != tips@[b] by {
                            if a < prev_tips.len() && b < prev_tips.len() {
                                assert(prev_tips[a] != prev_tips[b]);
                            } else if a < prev_tips.len() {
                                assert(prev_tips.contains(prev_tips[a]));
                            } else if b < prev_tips.len() {
                                assert(prev_tips.contains(prev_tips[b]));
                            }
                        }
                    }
                    assert forall|p: EditorIndex, y: EditorIndex| #[trigger] seen@.contains(p) && #[trigger] step(p, y) && p != t
                        implies seen@.contains(y) || tips@.contains(p) by {
                        if p != x {
                            assert(prev_seen.contains(p));
                            if prev_tips.contains(p) {
                                let j = choose|j: int| 0 <= j < prev_tips.len() && prev_tips[j] == p;
                                assert(tips@[j] == p);
                            }
                        } else {
                            assert(tips@[prev_tips.len() as int] == x);
                        }
                    }
                    assert forall|p: EditorIndex| #[trigger] seen@.contains(p) && !tips@.contains(p) && p != t implies position_parents_of(m, p) is Some by {
                        if p == x {
                            assert(tips@[prev_tips.len() as int] == x);
                        } else {
                            assert(prev_seen.contains(p));
                            if prev_tips.contains(p) {
                                let j = choose|j: int| 0 <= j < prev_tips.len() && prev_tips[j] == p;
                                assert(tips@[j] == p);
                            }
                        }
                    }
                    assert forall|y: EditorIndex| #[trigger] seen@.contains(y) && !seen_before.contains(y) implies tips@.contains(y) by {
                        if y == x {
                            assert(tips@[prev_tips.len() as int] == x);
                        } else {
                            assert(prev_seen.contains(y));
                            assert(prev_tips.contains(y));
                            let j = choose|j: int| 0 <= j < prev_tips.len() && prev_tips[j] == y;
                            assert(tips@[j] == y);
                        }
                    }
                    assert(!tips@.contains(t)) by {
                        if tips@.contains(t) {
                            let j = choose|j: int| 0 <= j < tips@.len() && tips@[j] == t;
                            if j < prev_tips.len() {
                                assert(prev_tips[j] == t);
                                assert(prev_tips.contains(t));
                            }
                        }
                    }
                }
                k = k + 1;
            }
            assert forall|p: EditorIndex, y: EditorIndex| #[trigger] seen@.contains(p) && #[trigger] step(p, y)
                implies seen@.contains(y) || tips@.contains(p) by {
                if p == t {
                    let j = choose|j: int| 0 <= j < parents@.len() && parents@[j] == y;
                }
            }
        }
        assert forall|x: EditorIndex| #[trigger] out@.contains(x) <==> reaches(step, none, tip, x) by {
            if reaches(step, none, tip, x) {
                assert forall|p: EditorIndex, y: EditorIndex| #[trigger] seen@.contains(p) && #[trigger] step(p, y)
                    implies seen@.contains(y) || none.contains(y) by {
                    assert(!tips@.contains(p));
                }
                crate::reach::lemma_closed_set_covers(step, none, tip, seen@, x);
            }
        }
        assert forall|x: EditorIndex| #[trigger] reaches(step, none, tip, x) implies position_parents_of(m, x) is Some by {
            assert(out@.contains(x));
            assert(!tips@.contains(x));
        }
        Ok(out)
    }

    /// The position-aware child view of `target` — the inverse of [`Self::position_parents`]:
    /// for a commit, the bottom members of the groups sitting on it plus the plain parent
    /// entries into it; for a reference, the next group member above, else its entering
    /// entries. Ascending, each once.
    pub fn position_children(&self, target: EditorIndex) -> (r: Result<Vec<EditorIndex>, EditorError>)
        ensures
            match r {
                Ok(v) => {
                    &&& self@.contains(target)
                    &&& editor_ascending(v@)
                    &&& forall|x: EditorIndex| #[trigger] v@.contains(x) <==> is_position_child(self@, target, x)
                },
                Err(e) => !self@.contains(target) && e == EditorError::UnknownEntry(target),
            },
    {
        self.resolve_anchor(target)?;
        let graph = self.graph();
        let ghost m = self@;
        let all = graph.positioned_refs();
        let mut out: Vec<EditorIndex> = Vec::new();
        if graph.is_positioned(target) {
            let t = target.as_ref().unwrap();
            let commit = resolve_to_commit(graph, target);
            // The references stacked directly on it.
            let mut i: usize = 0;
            while i < all.len()
                invariant
                    graph.valid(),
                    graph@ == m,
                    target == EditorIndex::Ref(t),
                    i <= all.len(),
                    forall|x: RefIndex| #[trigger] all@.contains(x) <==> m.is_positioned(x),
                    editor_ascending(out@),
                    forall|y: EditorIndex| #[trigger] out@.contains(y) <==> (y is Ref && stacked_on(m, y->Ref_0, t)
                        && exists|j: int| 0 <= j < i && all@[j] == y->Ref_0),
                decreases all.len() - i,
            {
                let e = all[i];
                assert(all@.contains(e));
                let ghost prev = out@;
                if EditorIndex::Ref(e) != target && graph.below_of(EditorIndex::Ref(e)) == Some(t) {
                    insert_ascending(&mut out, EditorIndex::Ref(e));
                }
                assert forall|y: EditorIndex| #[trigger] out@.contains(y) <==> (y is Ref && stacked_on(m, y->Ref_0, t)
                    && exists|j: int| 0 <= j < i + 1 && all@[j] == y->Ref_0) by {
                    if y is Ref && stacked_on(m, y->Ref_0, t) && exists|j: int| 0 <= j < i + 1 && all@[j] == y->Ref_0 {
                        let j = choose|j: int| 0 <= j < i + 1 && all@[j] == y->Ref_0;
                        if j < i {
                            assert(prev.contains(y));
                        }
                    }
                    if prev.contains(y) {
                        let j = choose|j: int| 0 <= j < i && all@[j] == y->Ref_0;
                        assert(exists|j: int| 0 <= j < i + 1 && all@[j] == y->Ref_0);
                    }
                }
                i = i + 1;
            }
            let target_entries = entering(graph, target);
            let target_depth = ref_depth(graph, target);
            // Whether it tops its group.
            let mut top = true;
            let mut k: usize = 0;
            while k < all.len()
                invariant
                    graph.valid(),
                    graph@ == m,
                    target == EditorIndex::Ref(t),
                    k <= all.len(),
                    forall|x: RefIndex| #[trigger] all@.contains(x) <==> m.is_positioned(x),
                    commit == resolve(m, target),
                    target_depth == depth(m, target),
                    entries_ascending(target_entries@),
                    forall|e: ParentEntry| #[trigger] target_entries@.contains(e) <==> entering_set(m, target).contains(e),
                    top == forall|j: int| 0 <= j < k ==> !overshadows(m, #[trigger] all@[j], t),
                decreases all.len() - k,
            {
                let e = all[k];
                assert(all@.contains(e));
                let ee = entering(graph, EditorIndex::Ref(e));
                proof {
                    crate::positions::lemma_entering_lists_equal(m, EditorIndex::Ref(e), target, ee@, target_entries@);
                }
                if EditorIndex::Ref(e) != target && crate::positions::same_entries(&ee, &target_entries)
                    && ref_depth(graph, EditorIndex::Ref(e)) > target_depth
                    && resolve_to_commit(graph, EditorIndex::Ref(e)) == commit {
                    top = false;
                }
                k = k + 1;
            }
            assert(top == is_group_top(m, t)) by {
                if !top {
                    let j = choose|j: int| 0 <= j < all@.len() && overshadows(m, #[trigger] all@[j], t);
                }
                if !is_group_top(m, t) {
                    let e = choose|e: RefIndex| #[trigger] overshadows(m, e, t);
                    assert(all@.contains(e));
                    let j = choose|j: int| 0 <= j < all@.len() && all@[j] == e;
                }
            }
            let ghost stacked = out@;
            if top {
                // The top of its group also leads to the children whose entries enter it.
                let mut l: usize = 0;
                while l < target_entries.len()
                    invariant
                        target == EditorIndex::Ref(t),
                        l <= target_entries.len(),
                        editor_ascending(out@),
                        forall|e: ParentEntry| #[trigger] target_entries@.contains(e) <==> entering_set(m, target).contains(e),
                        forall|y: EditorIndex| #[trigger] out@.contains(y) <==> (stacked.contains(y) || (y is Commit
                            && exists|j: int| 0 <= j < l && target_entries@[j].child == y->Commit_0)),
                    decreases target_entries.len() - l,
                {
                    let ghost prev = out@;
                    let c = target_entries[l].child;
                    insert_ascending(&mut out, EditorIndex::Commit(c));
                    assert forall|y: EditorIndex| #[trigger] out@.contains(y) <==> (stacked.contains(y) || (y is Commit
                        && exists|j: int| 0 <= j < l + 1 && target_entries@[j].child == y->Commit_0)) by {
                        if y is Commit && exists|j: int| 0 <= j < l + 1 && target_entries@[j].child == y->Commit_0 {
                            let j = choose|j: int| 0 <= j < l + 1 && target_entries@[j].child == y->Commit_0;
                            if j < l {
                                assert(prev.contains(y));
                            }
                        }
                        if prev.contains(y) && !stacked.contains(y) {
                            let j = choose|j: int| 0 <= j < l && target_entries@[j].child == y->Commit_0;
                            assert(exists|j: int| 0 <= j < l + 1 && target_entries@[j].child == y->Commit_0);
                        }
                    }
                    l = l + 1;
                }
            }
            assert forall|x: EditorIndex| #[trigger] out@.contains(x) <==> is_position_child(m, target, x) by {
                match x {
                    EditorIndex::Ref(e) => {
                        if stacked_on(m, e, t) {
                            assert(all@.contains(e));
                            let j = choose|j: int| 0 <= j < all@.len() && all@[j] == e;
                            assert(stacked.contains(x));
                        }
                    },
                    EditorIndex::Commit(c) => {
                        if top && enters_from(m, t, c) {
                            let n = choose|n: usize| #[trigger] entering_set(m, EditorIndex::Ref(t)).contains(ParentEntry { child: c, number: n });
                            assert(target_entries@.contains(ParentEntry { child: c, number: n }));
                            let j = choose|j: int| 0 <= j < target_entries@.len() && target_entries@[j] == ParentEntry { child: c, number: n };
                        }
                        if out@.contains(x) {
                            assert(!stacked.contains(x));
                            let j = choose|j: int| 0 <= j < target_entries@.len() && target_entries@[j].child == c;
                            assert(target_entries@.contains(target_entries@[j]));
                            assert(entering_set(m, EditorIndex::Ref(t)).contains(ParentEntry { child: c, number: target_entries@[j].number }));
                        }
                    },
                }
            }
            return Ok(out);
        }
        // The references sitting directly on the commit.
        let mut i: usize = 0;
        while i < all.len()
            invariant
                graph.valid(),
                graph@ == m,
                i <= all.len(),
                forall|x: RefIndex| #[trigger] all@.contains(x) <==> m.is_positioned(x),
                editor_ascending(out@),
                forall|y: EditorIndex| #[trigger] out@.contains(y) <==> (y is Ref && target is Commit && sits_on(m, y->Ref_0, target->Commit_0)
                    && exists|j: int| 0 <= j < i && all@[j] == y->Ref_0),
            decreases all.len() - i,
        {
            let e = all[i];
            assert(all@.contains(e));
            let ghost prev = out@;
            if graph.below_of(EditorIndex::Ref(e)).is_none() && match resolve_to_commit(graph, EditorIndex::Ref(e)) {
                Some(c) => EditorIndex::Commit(c) == target,
                None => false,
            } {
                insert_ascending(&mut out, EditorIndex::Ref(e));
            }
            assert forall|y: EditorIndex| #[trigger] out@.contains(y) <==> (y is Ref && target is Commit && sits_on(m, y->Ref_0, target->Commit_0)
                && exists|j: int| 0 <= j < i + 1 && all@[j] == y->Ref_0) by {
                if y is Ref && target is Commit && sits_on(m, y->Ref_0, target->Commit_0) && exists|j: int| 0 <= j < i + 1 && all@[j] == y->Ref_0 {
                    let j = choose|j: int| 0 <= j < i + 1 && all@[j] == y->Ref_0;
                    if j < i {
                        assert(prev.contains(y));
                    }
                }
                if prev.contains(y) {
                    let j = choose|j: int| 0 <= j < i && all@[j] == y->Ref_0;
                    assert(exists|j: int| 0 <= j < i + 1 && all@[j] == y->Ref_0);
                }
            }
            i = i + 1;
        }
        let ghost sitting = out@;
        // The children coming in plainly.
        let children = graph.children_of(target);
        let mut l: usize = 0;
        while l < children.len()
            invariant
                graph.valid(),
                graph@ == m,
                l <= children.len(),
                editor_ascending(out@),
                match target {
                    EditorIndex::Commit(c) => m.arena.is_children_list(c, children@),
                    EditorIndex::Ref(_) => children@.len() == 0,
                },
                forall|y: EditorIndex| #[trigger] out@.contains(y) <==> (sitting.contains(y) || (y is Commit && exists|j: int|
                    0 <= j < l && children@[j].child == y->Commit_0 && !carried(m, children@[j], target->Commit_0))),
            decreases children.len() - l,
        {
            let entry = children[l];
            let c = target.as_commit().unwrap();
            let ghost prev = out@;
            let carrying = crate::positions::enters_group_resolving_to(graph, entry, c);
            if !carrying {
                insert_ascending(&mut out, EditorIndex::Commit(entry.child));
            }
            assert forall|y: EditorIndex| #[trigger] out@.contains(y) <==> (sitting.contains(y) || (y is Commit && exists|j: int|
                0 <= j < l + 1 && children@[j].child == y->Commit_0 && !carried(m, children@[j], target->Commit_0))) by {
                if y is Commit && exists|j: int| 0 <= j < l + 1 && children@[j].child == y->Commit_0 && !carried(m, children@[j], target->Commit_0) {
                    let j = choose|j: int| 0 <= j < l + 1 && children@[j].child == y->Commit_0 && !carried(m, children@[j], target->Commit_0);
                    if j < l {
                        assert(prev.contains(y));
                    }
                }
                if prev.contains(y) && !sitting.contains(y) {
                    let j = choose|j: int| 0 <= j < l && children@[j].child == y->Commit_0 && !carried(m, children@[j], target->Commit_0);
                    assert(exists|j: int| 0 <= j < l + 1 && children@[j].child == y->Commit_0 && !carried(m, children@[j], target->Commit_0));
                }
            }
            l = l + 1;
        }
        assert forall|x: EditorIndex| #[trigger] out@.contains(x) <==> is_position_child(m, target, x) by {
            match x {
                EditorIndex::Ref(e) => {
                    if target is Commit && sits_on(m, e, target->Commit_0) {
                        assert(all@.contains(e));
                        let j = choose|j: int| 0 <= j < all@.len() && all@[j] == e;
                        assert(sitting.contains(x));
                    }
                },
                EditorIndex::Commit(child) => {
                    if let EditorIndex::Commit(c) = target {
                        if plain_child(m, c, child) {
                            let n = choose|n: usize| #[trigger] m.arena.is_incoming(c, ParentEntry { child, number: n })
                                && !carried(m, ParentEntry { child, number: n }, c);
                            assert(children@.contains(ParentEntry { child, number: n }));
                            let j = choose|j: int| 0 <= j < children@.len() && children@[j] == ParentEntry { child, number: n };
                        }
                        if out@.contains(x) {
                            assert(!sitting.contains(x));
                            let j = choose|j: int| 0 <= j < children@.len() && children@[j].child == child && !carried(m, children@[j], c);
                            assert(children@.contains(children@[j]));
                            assert(m.arena.is_incoming(c, ParentEntry { child, number: children@[j].number }));
                        }
                    } else {
                        assert(!sitting.contains(x));
                    }
                },
            }
        }
        Ok(out)
    }

    /// All the references that point to the commit or tombstone `target`, ascending.
    pub fn references_of(&self, target: EditorIndex) -> (r: Result<Vec<EditorIndex>, EditorError>)
        ensures
            match r {
                Ok(v) => {
                    &&& self@.contains(target)
                    &&& target is Commit
                    &&& editor_ascending(v@)
                    &&& forall|x: EditorIndex| #[trigger] v@.contains(x) <==> (x is Ref && self@.is_positioned(x->Ref_0)
                        && resolve(self@, x) == Some(target->Commit_0))
                },
                Err(e) => if !self@.contains(target) {
                    e == EditorError::UnknownEntry(target)
                } else {
                    target is Ref && e == EditorError::NotACommit(target)
                },
            },
    {
        self.resolve_anchor(target)?;
        let commit = commit_entry(target)?;
        let refs = refs_resolving_to(self.graph(), commit);
        let mut out: Vec<EditorIndex> = Vec::new();
        let mut i: usize = 0;
        while i < refs.len()
            invariant
                i <= refs.len(),
                crate::store::refs_ascending(refs@),
                out@ == refs@.take(i as int).map_values(|x: RefIndex| EditorIndex::Ref(x)),
            decreases refs.len() - i,
        {
            out.push(EditorIndex::Ref(refs[i]));
            i = i + 1;
            assert(out@ =~= refs@.take(i as int).map_values(|x: RefIndex| EditorIndex::Ref(x)));
        }
        assert(refs@.take(refs.len() as int) =~= refs@);
        assert forall|a: int, b: int| 0 <= a < b < out@.len() implies editor_before(#[trigger] out@[a], #[trigger] out@[b]) by {
            assert(refs@[a].0 < refs@[b].0);
        }
        assert forall|x: EditorIndex| #[trigger] out@.contains(x) <==> (x is Ref && self@.is_positioned(x->Ref_0)
            && resolve(self@, x) == Some(commit)) by {
            if out@.contains(x) {
                let k = choose|k: int| 0 <= k < out@.len() && out@[k] == x;
                assert(refs@.contains(refs@[k]));
            }
            if x is Ref && refs@.contains(x->Ref_0) {
                let k = choose|k: int| 0 <= k < refs@.len() && refs@[k] == x->Ref_0;
                assert(out@[k] == x);
            }
        }
        Ok(out)
    }

    /// Reachability including references: commits and tombstones by parent entries (a
    /// reference start descends from its commit), plus every reference group the walk
    /// reached. Each entry once.
    fn reachable_ids(&self, start: EditorIndex) -> (all: Vec<EditorIndex>)
        ensures
            all@.no_duplicates(),
            forall|x: EditorIndex| #[trigger] all@.contains(x) <==> is_reachable_id(self@, start, x),
            forall|x: EditorIndex| #[trigger] all@.contains(x) ==> self@.contains(x),
    {
        let graph = self.graph();
        let ghost m = self@;
        let seed = match start {
            EditorIndex::Commit(c) => if c.0 < graph.commit_count() { Some(c) } else { None },
            EditorIndex::Ref(_) => resolve_to_commit(graph, start),
        };
        let mut commits: Vec<CommitIndex> = Vec::new();
        let mut all: Vec<EditorIndex> = Vec::new();
        match seed {
            Some(s) => {
                proof {
                    if start is Ref {
                        crate::positions::lemma_resolve_is_commit(m, start);
                    }
                }
                let walk = reachable_from(graph, EditorIndex::Commit(s));
                let mut i: usize = 0;
                while i < walk.len()
                    invariant
                        graph.valid(),
                        graph@ == m,
                        i <= walk.len(),
                        walk@.no_duplicates(),
                        m.contains(EditorIndex::Commit(s)),
                        forall|x: EditorIndex| #[trigger] walk@.contains(x) <==> reaches(parent_step(m), Set::empty(), EditorIndex::Commit(s), x),
                        commits@.len() == all@.len(),
                        forall|k: int| 0 <= k < all@.len() ==> #[trigger] all@[k] == EditorIndex::Commit(commits@[k]),
                        all@.no_duplicates(),
                        forall|x: EditorIndex| #[trigger] all@.contains(x) <==> (x is Commit && exists|j: int| 0 <= j < i && walk@[j] == x),
                    decreases walk.len() - i,
                {
                    let x = walk[i];
                    let ghost prev = all@;
                    if let Some(c) = x.as_commit() {
                        commits.push(c);
                        all.push(x);
                        assert(all@.no_duplicates()) by {
                            assert forall|a: int, b: int| 0 <= a < all@.len() && 0 <= b < all@.len() && a != b
                                implies all@[a] != all@[b] by {
                                if a < prev.len() && b < prev.len() {
                                    assert(prev[a] != prev[b]);
                                } else if a < prev.len() {
                                    assert(prev.contains(prev[a]));
                                    let j = choose|j: int| 0 <= j < i && walk@[j] == prev[a];
                                    assert(walk@[j] != walk@[i as int]);
                                } else if b < prev.len() {
                                    assert(prev.contains(prev[b]));
                                    let j = choose|j: int| 0 <= j < i && walk@[j] == prev[b];
                                    assert(walk@[j] != walk@[i as int]);
                                }
                            }
                        }
                    }
                    assert forall|y: EditorIndex| #[trigger] all@.contains(y) <==> (y is Commit && exists|j: int| 0 <= j < i + 1 && walk@[j] == y) by {
                        if all@.contains(y) && y != x {
                            let k = choose|k: int| 0 <= k < all@.len() && all@[k] == y;
                            assert(prev[k] == y);
                            assert(prev.contains(y));
                        }
                        if y == x && y is Commit {
                            assert(all@[all@.len() - 1] == y);
                        }
                        if y is Commit && y != x && exists|j: int| 0 <= j < i + 1 && walk@[j] == y {
                            assert(prev.contains(y));
                            let k = choose|k: int| 0 <= k < prev.len() && prev[k] == y;
                            assert(all@[k] == y);
                        }
                    }
                    i = i + 1;
                }
                assert forall|c: CommitIndex| #[trigger] commits@.contains(c) <==> reached_commits(m, start).contains(c) by {
                    if commits@.contains(c) {
                        let k = choose|k: int| 0 <= k < commits@.len() && commits@[k] == c;
                        assert(all@[k] == EditorIndex::Commit(c));
                        assert(all@.contains(EditorIndex::Commit(c)));
                        let j = choose|j: int| 0 <= j < i && walk@[j] == EditorIndex::Commit(c);
                        assert(walk@.contains(EditorIndex::Commit(c)));
                    }
                    if reached_commits(m, start).contains(c) {
                        assert(walk@.contains(EditorIndex::Commit(c)));
                        let j = choose|j: int| 0 <= j < walk@.len() && walk@[j] == EditorIndex::Commit(c);
                        assert(all@.contains(EditorIndex::Commit(c)));
                        let k = choose|k: int| 0 <= k < all@.len() && all@[k] == EditorIndex::Commit(c);
                        assert(commits@[k] == c);
                    }
                }
                assert forall|x: EditorIndex| #[trigger] all@.contains(x) implies m.contains(x) by {
                    if all@.contains(x) {
                        let j = choose|j: int| 0 <= j < walk@.len() && walk@[j] == x;
                        assert(walk@.contains(x));
                        lemma_reached_in_store(m, Set::empty(), EditorIndex::Commit(s), x);
                    }
                }
            },
            None => {
                assert forall|c: CommitIndex| #[trigger] commits@.contains(c) <==> reached_commits(m, start).contains(c) by {}
            },
        }
        let ghost commit_part = all@;
        let refs = refs_reachable_with(graph, start, &commits);
        proof {
            assert forall|c: CommitIndex| crate::positions::commit_reached(m, commits@, c) == reached_by(m, reached_commits(m, start), c) by {
                if crate::positions::commit_reached(m, commits@, c) && !commits@.contains(c) {
                    let k = choose|k: int| 0 <= k < commits@.len() && m.arena.is_commit(#[trigger] commits@[k])
                        && crate::positions::id_at(m, commits@[k]) == crate::positions::id_at(m, c);
                    assert(commits@.contains(commits@[k]));
                    assert(reached_commits(m, start).contains(commits@[k]));
                }
                if reached_by(m, reached_commits(m, start), c) && !reached_commits(m, start).contains(c) {
                    let d = choose|d: CommitIndex| #[trigger] reached_commits(m, start).contains(d) && m.arena.is_commit(d)
                        && crate::positions::id_at(m, d) == crate::positions::id_at(m, c);
                    assert(commits@.contains(d));
                    let k = choose|k: int| 0 <= k < commits@.len() && commits@[k] == d;
                }
            }
        }
        let mut i: usize = 0;
        while i < refs.len()
            invariant
                i <= refs.len(),
                crate::store::refs_ascending(refs@),
                all@ == commit_part + refs@.take(i as int).map_values(|x: RefIndex| EditorIndex::Ref(x)),
                commit_part.no_duplicates(),
                forall|x: EditorIndex| #[trigger] commit_part.contains(x) ==> x is Commit,
            decreases refs.len() - i,
        {
            all.push(EditorIndex::Ref(refs[i]));
            i = i + 1;
            assert(all@ =~= commit_part + refs@.take(i as int).map_values(|x: RefIndex| EditorIndex::Ref(x)));
        }
        assert(refs@.take(refs.len() as int) =~= refs@);
        let ghost ref_part = refs@.map_values(|x: RefIndex| EditorIndex::Ref(x));
        assert(all@ == commit_part + ref_part);
        assert forall|x: EditorIndex| #[trigger] all@.contains(x) <==> (commit_part.contains(x) || ref_part.contains(x)) by {
            if all@.contains(x) {
                let k = choose|k: int| 0 <= k < all@.len() && all@[k] == x;
                if k < commit_part.len() {
                    assert(commit_part[k] == x);
                } else {
                    assert(ref_part[k - commit_part.len()] == x);
                }
            }
            if commit_part.contains(x) {
                let k = choose|k: int| 0 <= k < commit_part.len() && commit_part[k] == x;
                assert(all@[k] == x);
            }
            if ref_part.contains(x) {
                let k = choose|k: int| 0 <= k < ref_part.len() && ref_part[k] == x;
                assert(all@[k + commit_part.len()] == x);
            }
        }
        assert forall|x: EditorIndex| #[trigger] ref_part.contains(x) <==> (x is Ref && refs@.contains(x->Ref_0)) by {
            if ref_part.contains(x) {
                let k = choose|k: int| 0 <= k < ref_part.len() && ref_part[k] == x;
                assert(refs@[k] == x->Ref_0);
            }
            if x is Ref && refs@.contains(x->Ref_0) {
                let k = choose|k: int| 0 <= k < refs@.len() && refs@[k] == x->Ref_0;
                assert(ref_part[k] == x);
            }
        }
        assert(all@.no_duplicates()) by {
            assert forall|a: int, b: int| 0 <= a < all@.len() && 0 <= b < all@.len() && a != b implies all@[a] != all@[b] by {
                if a < commit_part.len() && b < commit_part.len() {
                    assert(commit_part[a] != commit_part[b]);
                } else if a >= commit_part.len() && b >= commit_part.len() {
                    let (i1, i2) = (a - commit_part.len(), b - commit_part.len());
                    if i1 < i2 {
                        assert(refs@[i1].0 < refs@[i2].0);
                    } else {
                        assert(refs@[i2].0 < refs@[i1].0);
                    }
                } else if a < commit_part.len() {
                    assert(commit_part.contains(all@[a]));
                } else {
                    assert(commit_part.contains(all@[b]));
                }
            }
        }
        assert forall|x: EditorIndex| #[trigger] all@.contains(x) <==> is_reachable_id(m, start, x) by {
            match x {
                EditorIndex::Commit(c) => {
                    assert(!ref_part.contains(x));
                    if commit_part.contains(x) {
                        let k = choose|k: int| 0 <= k < commit_part.len() && commit_part[k] == x;
                        assert(commits@[k] == c);
                        assert(commits@.contains(c));
                    }
                    if reached_commits(m, start).contains(c) {
                        assert(commits@.contains(c));
                        let k = choose|k: int| 0 <= k < commits@.len() && commits@[k] == c;
                        assert(commit_part[k] == x);
                    }
                },
                EditorIndex::Ref(r) => {
                    assert(!commit_part.contains(x));
                },
            }
        }
        assert forall|x: EditorIndex| #[trigger] all@.contains(x) implies m.contains(x) by {
            if commit_part.contains(x) {
            } else {
                assert(ref_part.contains(x));
                assert(refs@.contains(x->Ref_0));
            }
        }
        all
    }

    /// Every entry reachable from `start` following parent entries, references included (see
    /// [`is_reachable_id`]), each once.
    pub fn reachable_from(&self, start: EditorIndex) -> (r: Result<Vec<EditorIndex>, EditorError>)
        ensures
            match r {
                Ok(v) => {
                    &&& self@.contains(start)
                    &&& v@.no_duplicates()
                    &&& forall|x: EditorIndex| #[trigger] v@.contains(x) <==> is_reachable_id(self@, start, x)
                },
                Err(e) => !self@.contains(start) && e == EditorError::UnknownEntry(start),
            },
    {
        self.resolve_anchor(start)?;
        Ok(self.reachable_ids(start))
    }

    /// How far `a` is ahead of and behind `b`, counted in commits: `ahead` is the number of
    /// commits in the rev-set `a ^b`, `behind` the number in `b ^a`, where references stand
    /// for their commits. Tombstones and references are not counted; when either end resolves
    /// to no commit, both counts are zero. All parents count, matching Git's fast-forward rule.
    pub fn ahead_behind(&self, a: EditorIndex, b: EditorIndex) -> (r: Result<AheadBehind, EditorError>)
        ensures
            match r {
                Ok(ab) => {
                    &&& self@.contains(a)
                    &&& self@.contains(b)
                    &&& match (resolve(self@, a), resolve(self@, b)) {
                        (Some(x), Some(y)) => ab.ahead == commits_ahead(self@, x, y) && ab.behind == commits_ahead(self@, y, x),
                        _ => ab.ahead == 0 && ab.behind == 0,
                    }
                },
                Err(e) => if !self@.contains(a) {
                    e == EditorError::UnknownEntry(a)
                } else {
                    !self@.contains(b) && e == EditorError::UnknownEntry(b)
                },
            },
    {
        self.resolve_anchor(a)?;
        self.resolve_anchor(b)?;
        let graph = self.graph();
        let ra = resolve_to_commit(graph, a);
        let rb = resolve_to_commit(graph, b);
        let (x, y) = match (ra, rb) {
            (Some(x), Some(y)) => (x, y),
            _ => return Ok(AheadBehind { ahead: 0, behind: 0 }),
        };
        proof {
            crate::positions::lemma_resolve_is_commit(self@, a);
            crate::positions::lemma_resolve_is_commit(self@, b);
        }
        let forward = a_not_b(graph, EditorIndex::Commit(x), EditorIndex::Commit(y));
        let backward = a_not_b(graph, EditorIndex::Commit(y), EditorIndex::Commit(x));
        let ahead = count_commits(graph, &forward);
        let behind = count_commits(graph, &backward);
        proof {
            let step = parent_step(self@);
            let d1 = reach_set(step, Set::empty(), EditorIndex::Commit(x)).difference(reach_set(step, Set::empty(), EditorIndex::Commit(y)));
            let d2 = reach_set(step, Set::empty(), EditorIndex::Commit(y)).difference(reach_set(step, Set::empty(), EditorIndex::Commit(x)));
            lemma_filter_count(forward@, is_commit_in(self@));
            lemma_filter_count(backward@, is_commit_in(self@));
            assert(forward@.to_set() =~= d1);
            assert(backward@.to_set() =~= d2);
        }
        Ok(AheadBehind { ahead, behind })
    }

    /// All entries in `start ^limit` (both taken with references, see [`is_reachable_id`]),
    /// or everything reachable from `start` when there is no `limit`; each once.
    pub fn all_until_optional_limit(&self, start: EditorIndex, limit: Option<EditorIndex>) -> (r: Result<Vec<EditorIndex>, EditorError>)
        ensures
            match r {
                Ok(v) => {
                    &&& self@.contains(start)
                    &&& v@.no_duplicates()
                    &&& forall|x: EditorIndex| #[trigger] v@.contains(x) <==> (is_reachable_id(self@, start, x) && match limit {
                        Some(l) => !is_reachable_id(self@, l, x),
                        None => true,
                    })
                },
                Err(e) => !self@.contains(start) && e == EditorError::UnknownEntry(start),
            },
    {
        self.resolve_anchor(start)?;
        let graph = self.graph();
        let mut excluded = VisitSet::with_room(graph.commit_count(), graph.ref_count());
        match limit {
            Some(l) => {
                let below = self.reachable_ids(l);
                let mut i: usize = 0;
                while i < below.len()
                    invariant
                        graph.valid(),
                        graph@ == self@,
                        excluded.covers(self@),
                        i <= below.len(),
                        forall|x: EditorIndex| #[trigger] below@.contains(x) ==> self@.contains(x),
                        forall|x: EditorIndex| #[trigger] below@.contains(x) <==> is_reachable_id(self@, l, x),
                        forall|x: EditorIndex| #[trigger] excluded@.contains(x) <==> exists|j: int| 0 <= j < i && below@[j] == x,
                    decreases below.len() - i,
                {
                    let x = below[i];
                    assert(below@.contains(x));
                    proof { lemma_slots_cover(&excluded, self@, x); }
                    let ghost prev = excluded@;
                    excluded.insert(x);
                    assert forall|y: EditorIndex| #[trigger] excluded@.contains(y) <==> exists|j: int| 0 <= j < i + 1 && below@[j] == y by {
                        if y != x && excluded@.contains(y) {
                            assert(prev.contains(y));
                        }
                    }
                    i = i + 1;
                }
                assert forall|x: EditorIndex| #[trigger] excluded@.contains(x) <==> is_reachable_id(self@, l, x) by {
                    if is_reachable_id(self@, l, x) {
                        assert(below@.contains(x));
                        let j = choose|j: int| 0 <= j < below@.len() && below@[j] == x;
                    }
                    if excluded@.contains(x) {
                        let j = choose|j: int| 0 <= j < below@.len() && below@[j] == x;
                        assert(below@.contains(x));
                    }
                }
            },
            None => {},
        }
        let reached = self.reachable_ids(start);
        let mut out: Vec<EditorIndex> = Vec::new();
        let mut i: usize = 0;
        while i < reached.len()
            invariant
                i <= reached.len(),
                reached@.no_duplicates(),
                forall|x: EditorIndex| #[trigger] reached@.contains(x) <==> is_reachable_id(self@, start, x),
                forall|x: EditorIndex| #[trigger] excluded@.contains(x) <==> match limit {
                    Some(l) => is_reachable_id(self@, l, x),
                    None => false,
                },
                out@.no_duplicates(),
                forall|x: EditorIndex| #[trigger] out@.contains(x) <==> (!excluded@.contains(x) && exists|j: int| 0 <= j < i && reached@[j] == x),
            decreases reached.len() - i,
        {
            let x = reached[i];
            let ghost prev = out@;
            if !excluded.contains(x) {
                out.push(x);
                assert(out@.no_duplicates()) by {
                    assert forall|a: int, b: int| 0 <= a < out@.len() && 0 <= b < out@.len() && a != b implies out@[a] != out@[b] by {
                        if a < prev.len() && b < prev.len() {
                            assert(prev[a] != prev[b]);
                        } else if a < prev.len() {
                            assert(prev.contains(prev[a]));
                            let j = choose|j: int| 0 <= j < i && reached@[j] == prev[a];
                            assert(reached@[j] != reached@[i as int]);
                        } else if b < prev.len() {
                            assert(prev.contains(prev[b]));
                            let j = choose|j: int| 0 <= j < i && reached@[j] == prev[b];
                            assert(reached@[j] != reached@[i as int]);
                        }
                    }
                }
            }
            assert forall|y: EditorIndex| #[trigger] out@.contains(y) <==> (!excluded@.contains(y) && exists|j: int| 0 <= j < i + 1 && reached@[j] == y) by {
                if out@.contains(y) && y != x {
                    let k = choose|k: int| 0 <= k < out@.len() && out@[k] == y;
                    assert(prev[k] == y);
                    assert(prev.contains(y));
                }
                if y == x && !excluded@.contains(y) {
                    assert(out@[out@.len() - 1] == y);
                }
                if y != x && !excluded@.contains(y) && exists|j: int| 0 <= j < i + 1 && reached@[j] == y {
                    assert(prev.contains(y));
                    let k = choose|k: int| 0 <= k < prev.len() && prev[k] == y;
                    assert(out@[k] == y);
                }
            }
            i = i + 1;
        }
        assert forall|x: EditorIndex| #[trigger] out@.contains(x) <==> (is_reachable_id(self@, start, x) && match limit {
            Some(l) => !is_reachable_id(self@, l, x),
            None => true,
        }) by {
            if is_reachable_id(self@, start, x) {
                assert(reached@.contains(x));
                let j = choose|j: int| 0 <= j < reached@.len() && reached@[j] == x;
            }
            if out@.contains(x) {
                let j = choose|j: int| 0 <= j < reached@.len() && reached@[j] == x;
                assert(reached@.contains(x));
            }
        }
        Ok(out)
    }
}

/// A below walk counts at most one step past its fuel.
proof fn lemma_walk_len_bounded(m: StoreModel, cursor: Option<RefIndex>, fuel: nat)
    ensures
        crate::positions::below_walk_len(m, cursor, fuel) <= fuel + 1,
    decreases fuel,
{
    if let Some(b) = cursor {
        if fuel > 0 {
            lemma_walk_len_bounded(m, m.below_of(b), (fuel - 1) as nat);
        }
    }
}

/// When some reference carries an entry into a commit, one of the carriers is the highest.
proof fn lemma_top_carrier_exists(m: StoreModel, node: CommitIndex, number: usize, commit: CommitIndex, f: RefIndex)
    requires
        carries(m, node, number, commit, f),
    ensures
        exists|e: RefIndex| #[trigger] is_top_carrier(m, node, number, commit, e),
    decreases (crate::positions::WALK_LIMIT + 1) - depth(m, EditorIndex::Ref(f)), m.refs.len() - f.0,
{
    lemma_walk_len_bounded(m, m.below_of(f), crate::positions::WALK_LIMIT as nat);
    if is_top_carrier(m, node, number, commit, f) {
    } else {
        let g = choose|g: RefIndex| #[trigger] carries(m, node, number, commit, g) && g != f && !ranks_below(m, g, f);
        lemma_walk_len_bounded(m, m.below_of(g), crate::positions::WALK_LIMIT as nat);
        assert(m.ref_valid(g));
        lemma_top_carrier_exists(m, node, number, commit, g);
    }
}

/// The position-aware child view inverts the parent view: `x` is a position child of `target`
/// exactly when `target` is among `x`'s position parents. It holds wherever the stack under a
/// reference is sound (what a reference stands on is another, positioned reference) and
/// wherever the references carrying one entry form one group with distinct ranks.
pub proof fn law_position_children_invert_parents(m: StoreModel, target: EditorIndex, x: EditorIndex)
    requires
        m.wf(),
        position_parents_of(m, x) is Some,
        x matches EditorIndex::Commit(c) ==> m.arena.parents(c).len() <= usize::MAX,
        x matches EditorIndex::Ref(e) ==> (m.below_of(e) matches Some(b) ==> m.is_positioned(b) && b != e),
        (target matches EditorIndex::Ref(t) && x matches EditorIndex::Commit(c)) ==> forall|n: usize, f: RefIndex, g: RefIndex|
            #[trigger] carries(m, x->Commit_0, n, m.arena.parents(x->Commit_0)[n as int], f)
                && #[trigger] carries(m, x->Commit_0, n, m.arena.parents(x->Commit_0)[n as int], g)
                ==> entering_set(m, EditorIndex::Ref(f)) == entering_set(m, EditorIndex::Ref(g))
                    && (f != g ==> depth(m, EditorIndex::Ref(f)) != depth(m, EditorIndex::Ref(g))),
    ensures
        is_position_child(m, target, x) <==> position_parents_of(m, x)->0.contains(target),
{
    let ps = position_parents_of(m, x)->0;
    match x {
        EditorIndex::Ref(e) => {
            if ps.contains(target) {
                assert(ps[0] == target);
            }
            if is_position_child(m, target, x) {
                assert(ps[0] == target);
            }
        },
        EditorIndex::Commit(c) => {
            // From the parent view to the child view.
            if ps.contains(target) {
                let n = choose|n: int| 0 <= n < ps.len() && ps[n] == target;
                let p = m.arena.parents(c)[n];
                assert(target == parent_view(m, c, n as usize));
                if exists|e: RefIndex| #[trigger] is_top_carrier(m, c, n as usize, p, e) {
                    let t = choose|e: RefIndex| #[trigger] is_top_carrier(m, c, n as usize, p, e);
                    assert(target == EditorIndex::Ref(t));
                    assert(entering_set(m, EditorIndex::Ref(t)).contains(ParentEntry { child: c, number: n as usize }));
                    assert(enters_from(m, t, c));
                    assert forall|e: RefIndex| !#[trigger] overshadows(m, e, t) by {
                        if overshadows(m, e, t) {
                            assert(entering_set(m, EditorIndex::Ref(e)).contains(ParentEntry { child: c, number: n as usize }));
                            assert(carries(m, c, n as usize, p, e));
                            assert(ranks_below(m, e, t));
                        }
                    }
                } else {
                    assert(target == EditorIndex::Commit(p));
                    assert(m.arena.is_incoming(p, ParentEntry { child: c, number: n as usize }));
                    if carried(m, ParentEntry { child: c, number: n as usize }, p) {
                        let r = choose|r: RefIndex| #[trigger] m.is_positioned(r)
                            && enters(m, r, ParentEntry { child: c, number: n as usize }) && resolve(m, EditorIndex::Ref(r)) == Some(p);
                        assert(carries(m, c, n as usize, p, r));
                        lemma_top_carrier_exists(m, c, n as usize, p, r);
                    }
                    assert(plain_child(m, p, c));
                }
            }
            // From the child view to the parent view.
            if is_position_child(m, target, x) {
                match target {
                    EditorIndex::Ref(t) => {
                        let n = choose|n: usize| #[trigger] entering_set(m, EditorIndex::Ref(t)).contains(ParentEntry { child: c, number: n });
                        let e = ParentEntry { child: c, number: n };
                        assert(enters(m, t, e));
                        let p = resolve(m, EditorIndex::Ref(t))->0;
                        assert(m.arena.parents(c)[n as int] == p);
                        assert(carries(m, c, n, p, t));
                        assert forall|f: RefIndex| #[trigger] carries(m, c, n, p, f) && f != t implies ranks_below(m, f, t) by {
                            assert(carries(m, c, n, m.arena.parents(c)[n as int], f));
                            assert(carries(m, c, n, m.arena.parents(c)[n as int], t));
                            if !ranks_below(m, f, t) {
                                assert(overshadows(m, f, t));
                            }
                        }
                        assert(is_top_carrier(m, c, n, p, t));
                        lemma_top_carrier_exists(m, c, n, p, t);
                        let top = choose|e: RefIndex| #[trigger] is_top_carrier(m, c, n, p, e);
                        lemma_top_carrier_unique(m, c, n, p, top, t);
                        assert(ps[n as int] == target);
                    },
                    EditorIndex::Commit(p) => {
                        let n = choose|n: usize| #[trigger] m.arena.is_incoming(p, ParentEntry { child: c, number: n })
                            && !carried(m, ParentEntry { child: c, number: n }, p);
                        if exists|e: RefIndex| #[trigger] is_top_carrier(m, c, n, p, e) {
                            let t = choose|e: RefIndex| #[trigger] is_top_carrier(m, c, n, p, e);
                            assert(m.is_positioned(t) && enters(m, t, ParentEntry { child: c, number: n })
                                && resolve(m, EditorIndex::Ref(t)) == Some(p));
                        }
                        assert(ps[n as int] == target);
                    },
                }
            }
        },
    }
}

/// A push fast-forwards exactly when nothing is behind: for commits `a` and `b`, no commit of
/// `b ^a` exists — `b` is zero commits ahead of `a` — iff `b` is reachable from `a`, all
/// parents followed.
pub proof fn law_behind_zero_iff_reachable(m: StoreModel, a: CommitIndex, b: CommitIndex)
    requires
        m.wf(),
        m.arena.is_commit(a),
        m.arena.is_commit(b),
    ensures
        (commits_ahead(m, b, a) == 0) <==> reaches(parent_step(m), Set::empty(), EditorIndex::Commit(a), EditorIndex::Commit(b)),
{
    let step = parent_step(m);
    let ra = reach_set(step, Set::empty(), EditorIndex::Commit(a));
    let rb = reach_set(step, Set::empty(), EditorIndex::Commit(b));
    let behind = rb.difference(ra).filter(is_commit_in(m));
    let nodes = Seq::new(m.arena.nodes.len(), |i: int| EditorIndex::Commit(CommitIndex(i as usize))).to_set();
    assert forall|p: EditorIndex, y: EditorIndex| #[trigger] nodes.contains(p) && #[trigger] step(p, y)
        implies nodes.contains(y) || Set::<EditorIndex>::empty().contains(y) by {
        let q = p->Commit_0;
        let k = choose|k: int| 0 <= k < m.parents(p).len() && m.parents(p)[k] == y->Commit_0;
        assert(m.arena.nodes[q.0 as int].parents[k].0 < m.arena.nodes.len());
        let i = (y->Commit_0).0 as int;
        assert(Seq::new(m.arena.nodes.len(), |i: int| EditorIndex::Commit(CommitIndex(i as usize)))[i] == y);
    }
    assert(nodes.contains(EditorIndex::Commit(b))) by {
        assert(Seq::new(m.arena.nodes.len(), |i: int| EditorIndex::Commit(CommitIndex(i as usize)))[b.0 as int] == EditorIndex::Commit(b));
    }
    assert forall|y: EditorIndex| #[trigger] behind.contains(y) implies nodes.contains(y) by {
        crate::reach::lemma_closed_set_covers(step, Set::empty(), EditorIndex::Commit(b), nodes, y);
    }
    assert(behind.subset_of(nodes));
    vstd::seq_lib::seq_to_set_is_finite(Seq::new(m.arena.nodes.len(), |i: int| EditorIndex::Commit(CommitIndex(i as usize))));
    vstd::set_lib::lemma_set_subset_finite(nodes, behind);
    if reaches(step, Set::empty(), EditorIndex::Commit(a), EditorIndex::Commit(b)) {
        assert forall|p: EditorIndex, y: EditorIndex| #[trigger] ra.contains(p) && #[trigger] step(p, y)
            implies ra.contains(y) || Set::<EditorIndex>::empty().contains(y) by {
            crate::reach::lemma_reach_step(step, Set::empty(), EditorIndex::Commit(a), p, y);
        }
        assert forall|y: EditorIndex| !#[trigger] behind.contains(y) by {
            if rb.contains(y) {
                crate::reach::lemma_closed_set_covers(step, Set::empty(), EditorIndex::Commit(b), ra, y);
            }
        }
        assert(behind =~= Set::<EditorIndex>::empty());
    } else {
        crate::reach::lemma_reach_start(step, Set::empty(), EditorIndex::Commit(b));
        assert(behind.contains(EditorIndex::Commit(b)));
        assert(behind.len() > 0) by {
            if behind.len() == 0 {
                assert(behind =~= Set::<EditorIndex>::empty());
            }
        }
    }
}

/// Position reachability is transitive: whatever a walk from an entry reached by `tip`
/// reaches, the walk from `tip` reaches too — the walk from a reached entry is contained in
/// the walk from `tip`.
pub proof fn law_position_reach_transitive(m: StoreModel, tip: EditorIndex, y: EditorIndex)
    requires
        reaches(position_step(m), Set::empty(), tip, y),
    ensures
        reach_set(position_step(m), Set::empty(), y).subset_of(reach_set(position_step(m), Set::empty(), tip)),
{
    let step = position_step(m);
    let s = reach_set(step, Set::empty(), tip);
    assert forall|p: EditorIndex, q: EditorIndex| #[trigger] s.contains(p) && #[trigger] step(p, q)
        implies s.contains(q) || Set::<EditorIndex>::empty().contains(q) by {
        crate::reach::lemma_reach_step(step, Set::empty(), tip, p, q);
    }
    assert forall|z: EditorIndex| reach_set(step, Set::empty(), y).contains(z) implies s.contains(z) by {
        crate::reach::lemma_closed_set_covers(step, Set::empty(), y, s, z);
    }
}

/// A below-fault-free table grades every one of its first `n` records clean.
proof fn lemma_no_below_fault_entry(m: StoreModel, n: nat, i: nat)
    requires
        crate::positions::below_fault(m, n) is None,
        i < n,
    ensures
        crate::positions::entry_fault(m, RefIndex(i as usize)) is None,
    decreases n,
{
    if i < n - 1 {
        lemma_no_below_fault_entry(m, (n - 1) as nat, i);
    }
}

/// A positioned reference standing on itself never ends its walk: grading it finds a cycle.
proof fn lemma_self_stack_faults(m: StoreModel, e: RefIndex, steps: nat)
    requires
        m.is_positioned(e),
        m.below_of(e) == Some(e),
        steps <= crate::positions::WALK_LIMIT,
    ensures
        crate::positions::walk_fault(m, e, resolve(m, EditorIndex::Ref(e)), Some(e), steps) is Some,
    decreases crate::positions::WALK_LIMIT - steps,
{
    if steps + 1 <= crate::positions::WALK_LIMIT {
        lemma_self_stack_faults(m, e, steps + 1);
    }
}

/// In a layout the well-formedness check accepts, the position-aware child view inverts the
/// parent view: `x` is a position child of `target` exactly when `target` is among `x`'s
/// position parents — for a live (or commit) `x`, wherever the references carrying one entry
/// into a commit are live and take the same entering entries.
pub proof fn law_checked_layout_children_invert_parents(m: StoreModel, target: EditorIndex, x: EditorIndex)
    requires
        m.wf(),
        crate::positions::below_fault(m, m.refs.len()) is None,
        crate::positions::collision_free(m, m.refs.len() as int),
        position_parents_of(m, x) is Some,
        x matches EditorIndex::Commit(c) ==> m.arena.parents(c).len() <= usize::MAX,
        x matches EditorIndex::Ref(e) ==> (m.is_positioned(e) ==> m.refs[e.0 as int].live),
        forall|e: ParentEntry, f: RefIndex| #[trigger] enters(m, f, e) ==> m.refs[f.0 as int].live,
        forall|e: ParentEntry, f: RefIndex, g: RefIndex| #[trigger] enters(m, f, e) && #[trigger] enters(m, g, e)
            && resolve(m, EditorIndex::Ref(f)) == resolve(m, EditorIndex::Ref(g))
            ==> entering_set(m, EditorIndex::Ref(f)) == entering_set(m, EditorIndex::Ref(g)),
    ensures
        is_position_child(m, target, x) <==> position_parents_of(m, x)->0.contains(target),
{
    if let EditorIndex::Ref(e) = x {
        if let Some(b) = m.below_of(e) {
            lemma_no_below_fault_entry(m, m.refs.len(), e.0 as nat);
            assert(RefIndex(e.0 as nat as usize) == e);
            if b == e {
                lemma_self_stack_faults(m, e, 0);
            }
        }
    }
    if let (EditorIndex::Ref(t), EditorIndex::Commit(c)) = (target, x) {
        assert forall|n: usize, f: RefIndex, g: RefIndex|
            #[trigger] carries(m, c, n, m.arena.parents(c)[n as int], f)
                && #[trigger] carries(m, c, n, m.arena.parents(c)[n as int], g)
                implies entering_set(m, EditorIndex::Ref(f)) == entering_set(m, EditorIndex::Ref(g))
                    && (f != g ==> depth(m, EditorIndex::Ref(f)) != depth(m, EditorIndex::Ref(g))) by {
            let en = ParentEntry { child: c, number: n };
            assert(enters(m, f, en) && enters(m, g, en));
            if f != g && depth(m, EditorIndex::Ref(f)) == depth(m, EditorIndex::Ref(g)) {
                assert(entering_set(m, EditorIndex::Ref(f)).contains(en));
                assert(entering_set(m, EditorIndex::Ref(g)).contains(en));
                assert(crate::positions::ordered(m, f));
                assert(crate::positions::ordered(m, g));
                assert(RefIndex(f.0 as int as usize) == f);
                assert(RefIndex(g.0 as int as usize) == g);
                if f.0 < g.0 {
                    assert(crate::positions::collides(m, f, g));
                    assert(!crate::positions::collides(m, RefIndex(f.0 as int as usize), RefIndex(g.0 as int as usize)));
                } else {
                    assert(crate::positions::collides(m, g, f));
                    assert(!crate::positions::collides(m, RefIndex(g.0 as int as usize), RefIndex(f.0 as int as usize)));
                }
            }
        }
    }
    law_position_children_invert_parents(m, target, x);
}

/// A position-aware walk from an entry of a valid store stays among its entries.
pub proof fn law_position_reach_stays_in_store(m: StoreModel, tip: EditorIndex, x: EditorIndex)
    requires
        m.wf(),
        m.contains(tip),
        reaches(position_step(m), Set::empty(), tip, x),
    ensures
        m.contains(x),
{
    let step = position_step(m);
    let known = Set::new(|e: EditorIndex| m.contains(e));
    assert forall|p: EditorIndex, y: EditorIndex| #[trigger] known.contains(p) && #[trigger] step(p, y)
        implies known.contains(y) || Set::<EditorIndex>::empty().contains(y) by {
        lemma_position_parents_in_store(m, p, y);
    }
    crate::reach::lemma_closed_set_covers(step, Set::empty(), tip, known, x);
}

/// A reference's position-aware parent is the reference directly below it, and the commit it
/// resolves to only when nothing is below: a walk passes every member of a stack.
pub proof fn law_reference_parent_is_next_below(m: StoreModel, r: RefIndex)
    requires
        m.positioned_on(r) is Some,
        resolve_key(m, m.positioned_on(r)->0) is Some,
    ensures
        m.below_of(r) matches Some(b) ==> position_parents_of(m, EditorIndex::Ref(r)) == Some(seq![EditorIndex::Ref(b)]),
        m.below_of(r) is None ==> position_parents_of(m, EditorIndex::Ref(r))
            == Some(seq![EditorIndex::Commit(resolve_key(m, m.positioned_on(r)->0)->0)]),
        m.below_of(r) matches Some(b) ==> position_step(m)(EditorIndex::Ref(r), EditorIndex::Ref(b)),
{
    if let Some(b) = m.below_of(r) {
        assert(seq![EditorIndex::Ref(b)][0] == EditorIndex::Ref(b));
    }
}

/// A reference whose commit holds the id of a commit the walk from `start` reached is reached
/// too: a commit held under two nodes counts as reached under either.
pub proof fn law_reference_reached_through_commit_id(m: StoreModel, start: EditorIndex, r: RefIndex, c: CommitIndex, d: CommitIndex)
    requires
        m.is_positioned(r),
        resolve(m, EditorIndex::Ref(r)) == Some(c),
        m.arena.is_commit(c),
        reached_commits(m, start).contains(d),
        m.arena.is_commit(d),
        m.arena.nodes[d.0 as int].commit->0.id == m.arena.nodes[c.0 as int].commit->0.id,
    ensures
        is_reachable_id(m, start, EditorIndex::Ref(r)),
{
}

} // verus!
