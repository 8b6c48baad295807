//! Where each reference sits, stored as position data rather than as graph parent entries.
//!
//! A commit carries parent entries; a reference carries none. Instead every reference stands
//! in the layout: a stored key (`on` — a commit, or its tombstone after deletion), the
//! reference directly underneath it (`below`; `None` means directly on the commit), and the
//! carry of its group — its claim over the parent entries coming into the commit.
//!
//! Everything here reads; nothing here writes. Vocabulary:
//! - **parent entry** — one entry of a commit's parent list, named from the child side as
//!   `(child, parent number)`.
//! - **enters through** — an incoming entry of a commit enters through a reference when it
//!   descends into that reference's position (see [`entering`]).
//! - **group** — references stacked on one commit sharing one carry, ordered by their below
//!   walk ([`ref_depth`]).
use vstd::prelude::*;

use crate::commits::{entries_ascending, ArenaModel, CommitId, CommitIndex, ParentEntry, ParentEntryId};
use crate::store::{CarryModel, EditorIndex, EditorStore, GroupCarry, RefIndex, StoreModel};

verus! {

/// How many tombstones (or stacked references) a walk follows before it gives up: the bound
/// guards the acyclic invariant, so a broken graph ends a walk instead of looping.
pub const WALK_LIMIT: usize = 10000;

/// Follow tombstones down their first parent from `node`, checking at most `fuel` nodes:
/// the first commit met, or `None` at a dead end or when the fuel runs out.
pub open spec fn descend(m: ArenaModel, node: CommitIndex, fuel: nat) -> Option<CommitIndex>
    decreases fuel,
{
    if m.is_commit(node) {
        Some(node)
    } else if m.parents(node).len() == 0 || fuel <= 1 {
        None
    } else {
        descend(m, m.parents(node)[0], (fuel - 1) as nat)
    }
}

/// The commit a stored key stands for.
pub open spec fn resolve_key(m: StoreModel, key: CommitIndex) -> Option<CommitIndex> {
    descend(m.arena, key, WALK_LIMIT as nat)
}

/// The commit `entry` stands for: a commit is itself, a tombstone follows its first parent
/// downward, a reference goes via its stored position (unborn references resolve to nothing).
pub open spec fn resolve(m: StoreModel, entry: EditorIndex) -> Option<CommitIndex> {
    match entry {
        EditorIndex::Commit(c) => resolve_key(m, c),
        EditorIndex::Ref(r) => match m.positioned_on(r) {
            Some(on) => resolve_key(m, on),
            None => None,
        },
    }
}

/// Resolve `entry` to the commit it stands for: a commit is itself, a tombstone follows its
/// preserved first parent entry downward, a reference goes via its stored position — dead
/// references via their retained position (unborn references carry none and resolve to
/// nothing).
pub fn resolve_to_commit(graph: &EditorStore, entry: EditorIndex) -> (commit: Option<CommitIndex>)
    requires
        graph.valid(),
    ensures
        commit == resolve(graph@, entry),
{
    let start = match entry {
        EditorIndex::Commit(i) => i,
        EditorIndex::Ref(_) => match graph.positioned_on(entry) {
            Some(on) => on,
            None => return None,
        },
    };
    let mut node = start;
    let mut steps: usize = 0;
    loop
        invariant
            graph.valid(),
            steps < WALK_LIMIT,
            resolve(graph@, entry) == descend(graph@.arena, node, (WALK_LIMIT - steps) as nat),
        decreases WALK_LIMIT - steps,
    {
        if graph.is_commit(EditorIndex::Commit(node)) {
            return Some(node);
        }
        let parents = graph.parents(EditorIndex::Commit(node));
        if parents.len() == 0 {
            return None;
        }
        node = parents[0];
        steps = steps + 1;
        if steps >= WALK_LIMIT {
            return None;
        }
    }
}

/// `e` is an incoming entry of `commit` whose child is a commit (not a tombstone).
pub open spec fn is_live_child(m: StoreModel, commit: CommitIndex, e: ParentEntry) -> bool {
    m.arena.is_incoming(commit, e) && m.arena.is_commit(e.child)
}

/// A commit's incoming parent entries from live children, as ascending `(child, parent
/// number)` pairs. The groups on the commit divide these among themselves.
pub fn live_children_of(graph: &EditorStore, commit: CommitIndex) -> (live: Vec<ParentEntry>)
    ensures
        entries_ascending(live@),
        forall|e: ParentEntry| #[trigger] live@.contains(e) <==> is_live_child(graph@, commit, e),
{
    let all = graph.children_of(EditorIndex::Commit(commit));
    let mut out: Vec<ParentEntry> = Vec::new();
    let mut i: usize = 0;
    while i < all.len()
        invariant
            i <= all.len(),
            graph@.arena.is_children_list(commit, all@),
            entries_ascending(out@),
            forall|k: int| 0 <= k < out@.len() ==> exists|j: int| 0 <= j < i && all@[j] == #[trigger] out@[k],
            forall|e: ParentEntry| #[trigger] out@.contains(e) <==> (is_live_child(graph@, commit, e)
                && exists|j: int| 0 <= j < i && all@[j] == e),
        decreases all.len() - i,
    {
        let e = all[i];
        if graph.is_commit(EditorIndex::Commit(e.child)) {
            let ghost prev = out@;
            assert(all@.contains(e));
            assert forall|k: int| 0 <= k < prev.len() implies crate::commits::entry_before(#[trigger] prev[k], e) by {
                let j = choose|j: int| 0 <= j < i && all@[j] == prev[k];
                assert(crate::commits::entry_before(all@[j], all@[i as int]));
            }
            out.push(e);
            assert forall|f: ParentEntry| #[trigger] out@.contains(f) <==> (is_live_child(graph@, commit, f)
                && exists|j: int| 0 <= j < i + 1 && all@[j] == f) by {
                if out@.contains(f) {
                    let k = choose|k: int| 0 <= k < out@.len() && out@[k] == f;
                    if k < prev.len() {
                        assert(prev.contains(f));
                    } else {
                        assert(all@.contains(f));
                    }
                }
                if is_live_child(graph@, commit, f) && exists|j: int| 0 <= j < i + 1 && all@[j] == f {
                    if f != e {
                        let j = choose|j: int| 0 <= j < i + 1 && all@[j] == f;
                        assert(prev.contains(f));
                        let k = choose|k: int| 0 <= k < prev.len() && prev[k] == f;
                        assert(out@[k] == f);
                    } else {
                        assert(out@[prev.len() as int] == f);
                    }
                }
            }
            assert forall|k: int| 0 <= k < out@.len() implies exists|j: int| 0 <= j < i + 1 && all@[j] == #[trigger] out@[k] by {
                if k < prev.len() {
                    assert(out@[k] == prev[k]);
                } else {
                    assert(all@[i as int] == out@[k]);
                }
            }
        } else {
            assert forall|f: ParentEntry| #[trigger] out@.contains(f) <==> (is_live_child(graph@, commit, f)
                && exists|j: int| 0 <= j < i + 1 && all@[j] == f) by {
                if is_live_child(graph@, commit, f) && exists|j: int| 0 <= j < i + 1 && all@[j] == f {
                    let j = choose|j: int| 0 <= j < i + 1 && all@[j] == f;
                    if j == i {
                        assert(f == e);
                    }
                }
            }
        }
        i = i + 1;
    }
    assert forall|e: ParentEntry| #[trigger] out@.contains(e) <==> is_live_child(graph@, commit, e) by {
        if is_live_child(graph@, commit, e) {
            assert(all@.contains(e));
        }
    }
    out
}

/// Whether `id` is among `ids`.
pub fn holds_id(ids: &Vec<ParentEntryId>, id: ParentEntryId) -> (r: bool)
    ensures
        r == ids@.contains(id),
{
    let mut i: usize = 0;
    while i < ids.len()
        invariant
            i <= ids.len(),
            forall|j: int| 0 <= j < i ==> ids@[j] != id,
        decreases ids.len() - i,
    {
        if ids[i] == id {
            return true;
        }
        i = i + 1;
    }
    false
}

/// The carry `carry` claims the parent entry `e` (whose stable id is looked up in `m`).
pub open spec fn carry_claims(m: StoreModel, carry: CarryModel, e: ParentEntry) -> bool {
    match carry {
        CarryModel::Root => false,
        CarryModel::All => true,
        CarryModel::Entries(stated) => match m.arena.entry_id_at(e.child, e.number as int) {
            Some(id) => stated.contains(id),
            None => false,
        },
    }
}

/// The parent entry `e` currently enters through the reference `r`: `r` holds a position,
/// `e` comes into the commit that position resolves to from a live child, and `r`'s group
/// carry claims it.
pub open spec fn enters(m: StoreModel, r: RefIndex, e: ParentEntry) -> bool {
    match m.position(r) {
        Some(p) => match resolve_key(m, p.on) {
            Some(c) => is_live_child(m, c, e) && carry_claims(m, p.carry, e),
            None => false,
        },
        None => false,
    }
}

/// The set of parent entries entering through `entry` (none for a commit).
pub open spec fn entering_set(m: StoreModel, entry: EditorIndex) -> Set<ParentEntry> {
    match entry {
        EditorIndex::Ref(r) => Set::new(|e: ParentEntry| enters(m, r, e)),
        EditorIndex::Commit(_) => Set::empty(),
    }
}

/// The parent entries currently entering through the reference at `entry`, ascending: the
/// group's own carry statement, filtered by the resolved commit's live incoming entries, so a
/// stale carry entry never reaches a consumer.
pub fn entering(graph: &EditorStore, entry: EditorIndex) -> (entries: Vec<ParentEntry>)
    requires
        graph.valid(),
    ensures
        entries_ascending(entries@),
        forall|e: ParentEntry| #[trigger] entries@.contains(e) <==> entering_set(graph@, entry).contains(e),
{
    let r = match entry.as_ref() {
        Some(r) => r,
        None => {
            let empty: Vec<ParentEntry> = Vec::new();
            assert forall|e: ParentEntry| #[trigger] empty@.contains(e) <==> entering_set(graph@, entry).contains(e) by {}
            return empty;
        },
    };
    let on = match graph.positioned_on(entry) {
        Some(on) => on,
        None => return Vec::new(),
    };
    let carry = match graph.carry_of(entry) {
        Some(c) => c,
        None => return Vec::new(),
    };
    let live = match resolve_to_commit(graph, EditorIndex::Commit(on)) {
        Some(commit) => live_children_of(graph, commit),
        None => Vec::new(),
    };
    let ghost m = graph@;
    match carry {
        GroupCarry::Root => {
            let empty: Vec<ParentEntry> = Vec::new();
            assert forall|e: ParentEntry| #[trigger] empty@.contains(e) <==> entering_set(m, entry).contains(e) by {}
            empty
        },
        GroupCarry::All => {
            assert forall|e: ParentEntry| #[trigger] live@.contains(e) <==> entering_set(m, entry).contains(e) by {}
            live
        },
        GroupCarry::Entries(stated) => {
            let mut out: Vec<ParentEntry> = Vec::new();
            let mut i: usize = 0;
            while i < live.len()
                invariant
                    m == graph@,
                    i <= live.len(),
                    entries_ascending(live@),
                    entries_ascending(out@),
                    forall|k: int| 0 <= k < out@.len() ==> exists|j: int| 0 <= j < i && live@[j] == #[trigger] out@[k],
                    forall|e: ParentEntry| #[trigger] out@.contains(e) <==> (live@.contains(e)
                        && carry_claims(m, CarryModel::Entries(stated@), e)
                        && exists|j: int| 0 <= j < i && live@[j] == e),
                decreases live.len() - i,
            {
                let e = live[i];
                let keep = match graph.entry_id_at(e.child, e.number) {
                    Some(id) => holds_id(stated, id),
                    None => false,
                };
                if keep {
                    let ghost prev = out@;
                    assert forall|k: int| 0 <= k < prev.len() implies crate::commits::entry_before(#[trigger] prev[k], e) by {
                        let j = choose|j: int| 0 <= j < i && live@[j] == prev[k];
                        assert(crate::commits::entry_before(live@[j], live@[i as int]));
                    }
                    out.push(e);
                    assert forall|f: ParentEntry| #[trigger] out@.contains(f) <==> (live@.contains(f)
                        && carry_claims(m, CarryModel::Entries(stated@), f)
                        && exists|j: int| 0 <= j < i + 1 && live@[j] == f) by {
                        if out@.contains(f) {
                            let k = choose|k: int| 0 <= k < out@.len() && out@[k] == f;
                            if k < prev.len() {
                                assert(prev.contains(f));
                            } else {
                                assert(live@.contains(f));
                            }
                        }
                        if live@.contains(f) && carry_claims(m, CarryModel::Entries(stated@), f)
                            && exists|j: int| 0 <= j < i + 1 && live@[j] == f {
                            if f != e {
                                assert(prev.contains(f));
                                let k = choose|k: int| 0 <= k < prev.len() && prev[k] == f;
                                assert(out@[k] == f);
                            } else {
                                assert(out@[prev.len() as int] == f);
                            }
                        }
                    }
                    assert forall|k: int| 0 <= k < out@.len() implies exists|j: int| 0 <= j < i + 1 && live@[j] == #[trigger] out@[k] by {
                        if k < prev.len() {
                            assert(out@[k] == prev[k]);
                        } else {
                            assert(live@[i as int] == out@[k]);
                        }
                    }
                } else {
                    assert forall|f: ParentEntry| #[trigger] out@.contains(f) <==> (live@.contains(f)
                        && carry_claims(m, CarryModel::Entries(stated@), f)
                        && exists|j: int| 0 <= j < i + 1 && live@[j] == f) by {
                        if live@.contains(f) && carry_claims(m, CarryModel::Entries(stated@), f)
                            && exists|j: int| 0 <= j < i + 1 && live@[j] == f {
                            let j = choose|j: int| 0 <= j < i + 1 && live@[j] == f;
                            if j == i {
                                assert(f == e);
                            }
                        }
                    }
                }
                i = i + 1;
            }
            assert forall|e: ParentEntry| #[trigger] out@.contains(e) <==> entering_set(m, entry).contains(e) by {
                if entering_set(m, entry).contains(e) {
                    assert(live@.contains(e));
                    let j = choose|j: int| 0 <= j < live@.len() && live@[j] == e;
                }
            }
            out
        },
    }
}

/// Two ascending entry lists with the same members are the same list.
pub proof fn lemma_ascending_unique(a: Seq<ParentEntry>, b: Seq<ParentEntry>)
    requires
        entries_ascending(a),
        entries_ascending(b),
        forall|e: ParentEntry| a.contains(e) <==> b.contains(e),
    ensures
        a == b,
    decreases a.len() + b.len(),
{
    if a.len() == 0 || b.len() == 0 {
        if a.len() > 0 {
            assert(a.contains(a[0]));
        }
        if b.len() > 0 {
            assert(b.contains(b[0]));
        }
        assert(a =~= b);
    } else {
        let x = a.last();
        let y = b.last();
        assert(a.contains(x));
        assert(b.contains(y));
        assert(b.contains(x));
        assert(a.contains(y));
        let i = choose|i: int| 0 <= i < b.len() && b[i] == x;
        let j = choose|j: int| 0 <= j < a.len() && a[j] == y;
        if i < b.len() - 1 {
            assert(crate::commits::entry_before(b[i], b[b.len() - 1]));
            assert(crate::commits::entry_before(a[j], a[a.len() - 1]) || j == a.len() - 1);
        }
        assert(x == y);
        let a2 = a.drop_last();
        let b2 = b.drop_last();
        assert forall|e: ParentEntry| a2.contains(e) <==> b2.contains(e) by {
            if a2.contains(e) {
                let k = choose|k: int| 0 <= k < a2.len() && a2[k] == e;
                assert(crate::commits::entry_before(a[k], a[a.len() - 1]));
                assert(a.contains(e));
                let l = choose|l: int| 0 <= l < b.len() && b[l] == e;
                if l == b.len() - 1 {
                    assert(false);
                }
                assert(b2[l] == e);
            }
            if b2.contains(e) {
                let k = choose|k: int| 0 <= k < b2.len() && b2[k] == e;
                assert(crate::commits::entry_before(b[k], b[b.len() - 1]));
                assert(b.contains(e));
                let l = choose|l: int| 0 <= l < a.len() && a[l] == e;
                if l == a.len() - 1 {
                    assert(false);
                }
                assert(a2[l] == e);
            }
        }
        lemma_ascending_unique(a2, b2);
        assert(a =~= a2.push(x));
        assert(b =~= b2.push(y));
    }
}

/// The live incoming entries of `commit`, ascending.
pub open spec fn live_children_seq(m: StoreModel, commit: CommitIndex) -> Seq<ParentEntry> {
    choose|s: Seq<ParentEntry>| entries_ascending(s) && forall|e: ParentEntry| #[trigger] s.contains(e) <==> is_live_child(m, commit, e)
}

/// Any ascending list of exactly the live incoming entries is [`live_children_seq`].
pub proof fn lemma_live_children_seq(m: StoreModel, commit: CommitIndex, s: Seq<ParentEntry>)
    requires
        entries_ascending(s),
        forall|e: ParentEntry| #[trigger] s.contains(e) <==> is_live_child(m, commit, e),
    ensures
        s == live_children_seq(m, commit),
{
    let t = live_children_seq(m, commit);
    assert(entries_ascending(t) && forall|e: ParentEntry| #[trigger] t.contains(e) <==> is_live_child(m, commit, e));
    assert forall|e: ParentEntry| s.contains(e) <==> t.contains(e) by {
        assert(s.contains(e) <==> is_live_child(m, commit, e));
        assert(t.contains(e) <==> is_live_child(m, commit, e));
    }
    lemma_ascending_unique(s, t);
}

/// The stable ids of the live incoming entries of `commit`, in entry order.
pub open spec fn live_ids(m: StoreModel, commit: CommitIndex) -> Seq<ParentEntryId> {
    live_children_seq(m, commit).map_values(|e: ParentEntry| m.arena.entry_id_at(e.child, e.number as int)->0)
}

/// The stable ids of the live incoming entries of `commit`, in entry order.
pub fn live_ids_of(graph: &EditorStore, commit: CommitIndex) -> (ids: Vec<ParentEntryId>)
    requires
        graph.valid(),
    ensures
        ids@ == live_ids(graph@, commit),
{
    let live = live_children_of(graph, commit);
    proof {
        lemma_live_children_seq(graph@, commit, live@);
    }
    let mut ids: Vec<ParentEntryId> = Vec::new();
    let mut i: usize = 0;
    while i < live.len()
        invariant
            graph.valid(),
            i <= live.len(),
            live@ == live_children_seq(graph@, commit),
            forall|e: ParentEntry| #[trigger] live@.contains(e) <==> is_live_child(graph@, commit, e),
            ids@ == live@.take(i as int).map_values(|e: ParentEntry| graph@.arena.entry_id_at(e.child, e.number as int)->0),
        decreases live.len() - i,
    {
        let e = live[i];
        assert(live@.contains(e));
        assert(graph@.arena.wf());
        assert(graph@.arena.nodes[e.child.0 as int].parents.len() == graph@.arena.nodes[e.child.0 as int].entries.len());
        let id = graph.entry_id_at(e.child, e.number).unwrap();
        ids.push(id);
        i = i + 1;
        assert(ids@ =~= live@.take(i as int).map_values(|e: ParentEntry| graph@.arena.entry_id_at(e.child, e.number as int)->0));
    }
    assert(live@.take(live.len() as int) =~= live@);
    ids
}

/// Whether two entry lists are the same list.
pub fn same_entries(a: &Vec<ParentEntry>, b: &Vec<ParentEntry>) -> (r: bool)
    ensures
        r == (a@ == b@),
{
    if a.len() != b.len() {
        return false;
    }
    let mut i: usize = 0;
    while i < a.len()
        invariant
            a.len() == b.len(),
            i <= a.len(),
            forall|j: int| 0 <= j < i ==> a@[j] == b@[j],
        decreases a.len() - i,
    {
        if a[i] != b[i] {
            return false;
        }
        i = i + 1;
    }
    assert(a@ =~= b@);
    true
}

/// Whether `e` is among `entries`.
pub fn holds_entry(entries: &Vec<ParentEntry>, e: ParentEntry) -> (r: bool)
    ensures
        r == entries@.contains(e),
{
    let mut i: usize = 0;
    while i < entries.len()
        invariant
            i <= entries.len(),
            forall|j: int| 0 <= j < i ==> entries@[j] != e,
        decreases entries.len() - i,
    {
        if entries[i] == e {
            return true;
        }
        i = i + 1;
    }
    false
}

/// Whether two entering lists (as [`entering`] returns them) say the same thing.
pub proof fn lemma_entering_lists_equal(m: StoreModel, a: EditorIndex, b: EditorIndex, la: Seq<ParentEntry>, lb: Seq<ParentEntry>)
    requires
        entries_ascending(la),
        entries_ascending(lb),
        forall|e: ParentEntry| #[trigger] la.contains(e) <==> entering_set(m, a).contains(e),
        forall|e: ParentEntry| #[trigger] lb.contains(e) <==> entering_set(m, b).contains(e),
    ensures
        (la == lb) == (entering_set(m, a) == entering_set(m, b)),
{
    if entering_set(m, a) == entering_set(m, b) {
        assert forall|e: ParentEntry| la.contains(e) <==> lb.contains(e) by {
            assert(la.contains(e) <==> entering_set(m, a).contains(e));
            assert(lb.contains(e) <==> entering_set(m, b).contains(e));
        }
        lemma_ascending_unique(la, lb);
    }
    if la == lb {
        assert forall|e: ParentEntry| entering_set(m, a).contains(e) <==> entering_set(m, b).contains(e) by {
            assert(la.contains(e) <==> entering_set(m, a).contains(e));
            assert(lb.contains(e) <==> entering_set(m, b).contains(e));
        }
        assert(entering_set(m, a) =~= entering_set(m, b));
    }
}

/// The length of the below walk starting at `cursor`, giving up after `fuel` further steps
/// (the step that gives up still counts).
pub open spec fn below_walk_len(m: StoreModel, cursor: Option<RefIndex>, fuel: nat) -> nat
    decreases fuel,
{
    match cursor {
        None => 0,
        Some(b) => if fuel == 0 {
            1
        } else {
            1 + below_walk_len(m, m.below_of(b), (fuel - 1) as nat)
        },
    }
}

/// A reference's depth above its commit: the length of its below walk (0 = directly on the
/// commit); a commit has depth 0.
pub open spec fn depth(m: StoreModel, entry: EditorIndex) -> nat {
    match entry {
        EditorIndex::Ref(r) => below_walk_len(m, m.below_of(r), WALK_LIMIT as nat),
        EditorIndex::Commit(_) => 0,
    }
}

/// The reference's depth above its commit — the length of its below walk (0 = directly on
/// the commit). This is the rank: order among co-located references is adjacency, not a
/// number. A walk longer than the limit (a cycle) ends at one past the limit.
pub fn ref_depth(graph: &EditorStore, entry: EditorIndex) -> (d: usize)
    requires
        graph.valid(),
    ensures
        d == depth(graph@, entry),
        d <= WALK_LIMIT + 1,
{
    if entry.as_ref().is_none() {
        return 0;
    }
    let mut d: usize = 0;
    let mut cursor = graph.below_of(entry);
    while cursor.is_some()
        invariant
            graph.valid(),
            d <= WALK_LIMIT,
            depth(graph@, entry) == d + below_walk_len(graph@, cursor, (WALK_LIMIT - d) as nat),
        decreases WALK_LIMIT - d,
    {
        let b = cursor.unwrap();
        d = d + 1;
        if d > WALK_LIMIT {
            return d;
        }
        cursor = graph.below_of(EditorIndex::Ref(b));
    }
    d
}

/// `x` resolves to the same commit and takes the same entering entries as `r`.
pub open spec fn same_group(m: StoreModel, x: RefIndex, r: RefIndex) -> bool {
    &&& entering_set(m, EditorIndex::Ref(x)) == entering_set(m, EditorIndex::Ref(r))
    &&& resolve(m, EditorIndex::Ref(x)) == resolve(m, EditorIndex::Ref(r))
}

/// The members of `ref_node`'s group — every positioned reference with the same resolved
/// commit and the same entering parent entries — ascending; none for a commit or an unplaced
/// reference.
pub fn group_members(graph: &EditorStore, ref_node: EditorIndex) -> (members: Vec<RefIndex>)
    requires
        graph.valid(),
    ensures
        crate::store::refs_ascending(members@),
        forall|x: RefIndex| #[trigger] members@.contains(x) <==> match ref_node {
            EditorIndex::Ref(r) => graph@.is_positioned(r) && graph@.is_positioned(x) && same_group(graph@, x, r),
            EditorIndex::Commit(_) => false,
        },
{
    let r = match ref_node.as_ref() {
        Some(r) => r,
        None => {
            let empty: Vec<RefIndex> = Vec::new();
            assert forall|x: RefIndex| #[trigger] empty@.contains(x) <==> false by {}
            return empty;
        },
    };
    if !graph.is_positioned(ref_node) {
        let empty: Vec<RefIndex> = Vec::new();
        assert forall|x: RefIndex| #[trigger] empty@.contains(x) <==> false by {}
        return empty;
    }
    let commit = resolve_to_commit(graph, ref_node);
    let entering_here = entering(graph, ref_node);
    let all = graph.positioned_refs();
    let mut out: Vec<RefIndex> = Vec::new();
    let mut i: usize = 0;
    while i < all.len()
        invariant
            graph.valid(),
            i <= all.len(),
            crate::store::refs_ascending(all@),
            forall|x: RefIndex| #[trigger] all@.contains(x) <==> graph@.is_positioned(x),
            ref_node == EditorIndex::Ref(r),
            commit == resolve(graph@, ref_node),
            entries_ascending(entering_here@),
            forall|e: ParentEntry| #[trigger] entering_here@.contains(e) <==> entering_set(graph@, ref_node).contains(e),
            crate::store::refs_ascending(out@),
            forall|k: int| 0 <= k < out@.len() ==> exists|j: int| 0 <= j < i && all@[j] == #[trigger] out@[k],
            forall|x: RefIndex| #[trigger] out@.contains(x) <==> (graph@.is_positioned(x) && same_group(graph@, x, r)
                && exists|j: int| 0 <= j < i && all@[j] == x),
        decreases all.len() - i,
    {
        let x = all[i];
        let ex = entering(graph, EditorIndex::Ref(x));
        proof {
            lemma_entering_lists_equal(graph@, EditorIndex::Ref(x), ref_node, ex@, entering_here@);
        }
        let keep = same_entries(&ex, &entering_here) && resolve_to_commit(graph, EditorIndex::Ref(x)) == commit;
        assert(all@.contains(x));
        if keep {
            let ghost prev = out@;
            assert forall|k: int| 0 <= k < prev.len() implies (#[trigger] prev[k]).0 < x.0 by {
                let j = choose|j: int| 0 <= j < i && all@[j] == prev[k];
            }
            out.push(x);
            assert forall|y: RefIndex| #[trigger] out@.contains(y) <==> (graph@.is_positioned(y) && same_group(graph@, y, r)
                && exists|j: int| 0 <= j < i + 1 && all@[j] == y) by {
                if out@.contains(y) {
                    let k = choose|k: int| 0 <= k < out@.len() && out@[k] == y;
                    if k < prev.len() {
                        assert(prev.contains(y));
                    }
                }
                if graph@.is_positioned(y) && same_group(graph@, y, r) && exists|j: int| 0 <= j < i + 1 && all@[j] == y {
                    if y != x {
                        assert(prev.contains(y));
                        let k = choose|k: int| 0 <= k < prev.len() && prev[k] == y;
                        assert(out@[k] == y);
                    } else {
                        assert(out@[prev.len() as int] == y);
                    }
                }
            }
            assert forall|k: int| 0 <= k < out@.len() implies exists|j: int| 0 <= j < i + 1 && all@[j] == #[trigger] out@[k] by {
                if k < prev.len() {
                    assert(out@[k] == prev[k]);
                } else {
                    assert(all@[i as int] == out@[k]);
                }
            }
        } else {
            assert forall|y: RefIndex| #[trigger] out@.contains(y) <==> (graph@.is_positioned(y) && same_group(graph@, y, r)
                && exists|j: int| 0 <= j < i + 1 && all@[j] == y) by {
                if graph@.is_positioned(y) && same_group(graph@, y, r) && exists|j: int| 0 <= j < i + 1 && all@[j] == y {
                    let j = choose|j: int| 0 <= j < i + 1 && all@[j] == y;
                    if j == i {
                        assert(y == x);
                    }
                }
            }
        }
        i = i + 1;
    }
    assert forall|x: RefIndex| #[trigger] out@.contains(x) <==> (graph@.is_positioned(r) && graph@.is_positioned(x) && same_group(graph@, x, r)) by {
        if graph@.is_positioned(x) {
            assert(all@.contains(x));
        }
    }
    out
}

/// Does the parent entry `entry` enter a positioned group resolving to `commit` — does it
/// reach the commit through a reference's group rather than plainly?
pub fn enters_group_resolving_to(graph: &EditorStore, entry: ParentEntry, commit: CommitIndex) -> (r: bool)
    requires
        graph.valid(),
    ensures
        r == exists|x: RefIndex| #[trigger] graph@.is_positioned(x) && enters(graph@, x, entry)
            && resolve(graph@, EditorIndex::Ref(x)) == Some(commit),
{
    let all = graph.positioned_refs();
    let mut i: usize = 0;
    while i < all.len()
        invariant
            graph.valid(),
            i <= all.len(),
            forall|x: RefIndex| #[trigger] all@.contains(x) <==> graph@.is_positioned(x),
            forall|j: int| 0 <= j < i ==> !(enters(graph@, #[trigger] all@[j], entry)
                && resolve(graph@, EditorIndex::Ref(all@[j])) == Some(commit)),
        decreases all.len() - i,
    {
        let x = all[i];
        assert(all@.contains(x));
        let ex = entering(graph, EditorIndex::Ref(x));
        if holds_entry(&ex, entry) && resolve_to_commit(graph, EditorIndex::Ref(x)) == Some(commit) {
            return true;
        }
        i = i + 1;
    }
    assert forall|x: RefIndex| #[trigger] graph@.is_positioned(x) implies !(enters(graph@, x, entry)
        && resolve(graph@, EditorIndex::Ref(x)) == Some(commit)) by {
        assert(all@.contains(x));
        let j = choose|j: int| 0 <= j < all@.len() && all@[j] == x;
    }
    false
}

/// Every reference whose stored position, followed through tombstones, resolves to `commit`,
/// ascending.
pub fn refs_resolving_to(graph: &EditorStore, commit: CommitIndex) -> (refs: Vec<RefIndex>)
    requires
        graph.valid(),
    ensures
        crate::store::refs_ascending(refs@),
        forall|x: RefIndex| #[trigger] refs@.contains(x) <==> (graph@.is_positioned(x)
            && resolve(graph@, EditorIndex::Ref(x)) == Some(commit)),
{
    let all = graph.positioned_refs();
    let mut out: Vec<RefIndex> = Vec::new();
    let mut i: usize = 0;
    while i < all.len()
        invariant
            graph.valid(),
            i <= all.len(),
            crate::store::refs_ascending(all@),
            forall|x: RefIndex| #[trigger] all@.contains(x) <==> graph@.is_positioned(x),
            crate::store::refs_ascending(out@),
            forall|k: int| 0 <= k < out@.len() ==> exists|j: int| 0 <= j < i && all@[j] == #[trigger] out@[k],
            forall|x: RefIndex| #[trigger] out@.contains(x) <==> (graph@.is_positioned(x)
                && resolve(graph@, EditorIndex::Ref(x)) == Some(commit) && exists|j: int| 0 <= j < i && all@[j] == x),
        decreases all.len() - i,
    {
        let x = all[i];
        assert(all@.contains(x));
        if resolve_to_commit(graph, EditorIndex::Ref(x)) == Some(commit) {
            let ghost prev = out@;
            assert forall|k: int| 0 <= k < prev.len() implies (#[trigger] prev[k]).0 < x.0 by {
                let j = choose|j: int| 0 <= j < i && all@[j] == prev[k];
            }
            out.push(x);
            assert forall|y: RefIndex| #[trigger] out@.contains(y) <==> (graph@.is_positioned(y)
                && resolve(graph@, EditorIndex::Ref(y)) == Some(commit) && exists|j: int| 0 <= j < i + 1 && all@[j] == y) by {
                if out@.contains(y) {
                    let k = choose|k: int| 0 <= k < out@.len() && out@[k] == y;
                    if k < prev.len() {
                        assert(prev.contains(y));
                    }
                }
                if graph@.is_positioned(y) && resolve(graph@, EditorIndex::Ref(y)) == Some(commit)
                    && exists|j: int| 0 <= j < i + 1 && all@[j] == y {
                    if y != x {
                        assert(prev.contains(y));
                        let k = choose|k: int| 0 <= k < prev.len() && prev[k] == y;
                        assert(out@[k] == y);
                    } else {
                        assert(out@[prev.len() as int] == y);
                    }
                }
            }
            assert forall|k: int| 0 <= k < out@.len() implies exists|j: int| 0 <= j < i + 1 && all@[j] == #[trigger] out@[k] by {
                if k < prev.len() {
                    assert(out@[k] == prev[k]);
                } else {
                    assert(all@[i as int] == out@[k]);
                }
            }
        } else {
            assert forall|y: RefIndex| #[trigger] out@.contains(y) <==> (graph@.is_positioned(y)
                && resolve(graph@, EditorIndex::Ref(y)) == Some(commit) && exists|j: int| 0 <= j < i + 1 && all@[j] == y) by {
                if graph@.is_positioned(y) && resolve(graph@, EditorIndex::Ref(y)) == Some(commit)
                    && exists|j: int| 0 <= j < i + 1 && all@[j] == y {
                    let j = choose|j: int| 0 <= j < i + 1 && all@[j] == y;
                    if j == i {
                        assert(y == x);
                    }
                }
            }
        }
        i = i + 1;
    }
    assert forall|x: RefIndex| #[trigger] out@.contains(x) <==> (graph@.is_positioned(x)
        && resolve(graph@, EditorIndex::Ref(x)) == Some(commit)) by {
        if graph@.is_positioned(x) {
            assert(all@.contains(x));
        }
    }
    out
}

/// The object id of the commit held at `c`.
pub open spec fn id_at(m: StoreModel, c: CommitIndex) -> Seq<u8> {
    m.arena.nodes[c.0 as int].commit->0.id
}

/// A walk down tombstones only ever stops at a commit.
pub proof fn lemma_descend_is_commit(m: ArenaModel, node: CommitIndex, fuel: nat)
    ensures
        descend(m, node, fuel) matches Some(c) ==> m.is_commit(c),
    decreases fuel,
{
    if !m.is_commit(node) && m.parents(node).len() > 0 && fuel > 1 {
        lemma_descend_is_commit(m, m.parents(node)[0], (fuel - 1) as nat);
    }
}

/// What an entry resolves to is a commit.
pub proof fn lemma_resolve_is_commit(m: StoreModel, entry: EditorIndex)
    ensures
        resolve(m, entry) matches Some(c) ==> m.arena.is_commit(c),
{
    match entry {
        EditorIndex::Commit(c) => lemma_descend_is_commit(m.arena, c, WALK_LIMIT as nat),
        EditorIndex::Ref(r) => if let Some(on) = m.positioned_on(r) {
            lemma_descend_is_commit(m.arena, on, WALK_LIMIT as nat);
        },
    }
}

/// Some id in `ids` holds the bytes `x`.
pub open spec fn ids_hold(ids: Seq<CommitId>, x: Seq<u8>) -> bool {
    exists|k: int| 0 <= k < ids.len() && (#[trigger] ids[k])@ == x
}

/// Some commit among the first `upto` of `commits` has the id `x`.
pub open spec fn commits_hold_id(m: StoreModel, commits: Seq<CommitIndex>, upto: int, x: Seq<u8>) -> bool {
    exists|k: int| 0 <= k < upto && m.arena.is_commit(#[trigger] commits[k]) && id_at(m, commits[k]) == x
}

/// The commit `c` counts as reached by the commit set `commits`: it is in the set, or it
/// holds the same commit id as a commit in the set (a graph can hold one commit twice).
pub open spec fn commit_reached(m: StoreModel, commits: Seq<CommitIndex>, c: CommitIndex) -> bool {
    commits.contains(c) || (m.arena.is_commit(c) && exists|k: int|
        0 <= k < commits.len() && m.arena.is_commit(#[trigger] commits[k]) && id_at(m, commits[k]) == id_at(m, c))
}

/// The references reachable given the commit set `commits` a walk from `start` reached:
/// those whose commit was reached, by index or by commit id; when `start` is itself a
/// reference, it counts too. Ascending.
pub fn refs_reachable_with(graph: &EditorStore, start: EditorIndex, commits: &Vec<CommitIndex>) -> (refs: Vec<RefIndex>)
    requires
        graph.valid(),
    ensures
        crate::store::refs_ascending(refs@),
        forall|x: RefIndex| #[trigger] refs@.contains(x) <==> (graph@.is_positioned(x) && (
            (match resolve(graph@, EditorIndex::Ref(x)) {
                Some(c) => commit_reached(graph@, commits@, c),
                None => false,
            }) || EditorIndex::Ref(x) == start)),
{
    // The ids of every reached commit.
    let mut reached_ids: Vec<CommitId> = Vec::new();
    let mut i: usize = 0;
    while i < commits.len()
        invariant
            i <= commits.len(),
            forall|x: Seq<u8>| #[trigger] ids_hold(reached_ids@, x) <==> commits_hold_id(graph@, commits@, i as int, x),
        decreases commits.len() - i,
    {
        let ghost prev = reached_ids@;
        match graph.commit_id(EditorIndex::Commit(commits[i])) {
            Some(id) => {
                reached_ids.push(id);
                assert forall|x: Seq<u8>| #[trigger] ids_hold(reached_ids@, x) <==> commits_hold_id(graph@, commits@, i + 1, x) by {
                    assert(ids_hold(prev, x) == commits_hold_id(graph@, commits@, i as int, x));
                    if ids_hold(reached_ids@, x) {
                        let k = choose|k: int| 0 <= k < reached_ids@.len() && (#[trigger] reached_ids@[k])@ == x;
                        if k < prev.len() {
                            assert(prev[k] == reached_ids@[k]);
                            assert(ids_hold(prev, x));
                            let l = choose|l: int| 0 <= l < i && graph@.arena.is_commit(#[trigger] commits@[l]) && id_at(graph@, commits@[l]) == x;
                            assert(commits_hold_id(graph@, commits@, i + 1, x));
                        } else {
                            assert(graph@.arena.is_commit(commits@[i as int]));
                            assert(commits_hold_id(graph@, commits@, i + 1, x));
                        }
                    }
                    if commits_hold_id(graph@, commits@, i + 1, x) {
                        let k = choose|k: int| 0 <= k < i + 1 && graph@.arena.is_commit(#[trigger] commits@[k]) && id_at(graph@, commits@[k]) == x;
                        if k < i {
                            assert(commits_hold_id(graph@, commits@, i as int, x));
                            let l = choose|l: int| 0 <= l < prev.len() && (#[trigger] prev[l])@ == x;
                            assert(reached_ids@[l] == prev[l]);
                        } else {
                            assert(reached_ids@[prev.len() as int]@ == x);
                        }
                    }
                }
            },
            None => {
                assert forall|x: Seq<u8>| #[trigger] ids_hold(reached_ids@, x) <==> commits_hold_id(graph@, commits@, i + 1, x) by {
                    if exists|k: int| 0 <= k < i + 1 && graph@.arena.is_commit(#[trigger] commits@[k]) && id_at(graph@, commits@[k]) == x {
                        let k = choose|k: int| 0 <= k < i + 1 && graph@.arena.is_commit(#[trigger] commits@[k]) && id_at(graph@, commits@[k]) == x;
                        assert(k < i);
                    }
                }
            },
        }
        i = i + 1;
    }
    let all = graph.positioned_refs();
    let mut out: Vec<RefIndex> = Vec::new();
    let mut j: usize = 0;
    while j < all.len()
        invariant
            graph.valid(),
            j <= all.len(),
            crate::store::refs_ascending(all@),
            forall|x: RefIndex| #[trigger] all@.contains(x) <==> graph@.is_positioned(x),
            forall|x: Seq<u8>| #[trigger] ids_hold(reached_ids@, x) <==> commits_hold_id(graph@, commits@, commits@.len() as int, x),
            crate::store::refs_ascending(out@),
            forall|k: int| 0 <= k < out@.len() ==> exists|l: int| 0 <= l < j && all@[l] == #[trigger] out@[k],
            forall|x: RefIndex| #[trigger] out@.contains(x) <==> (graph@.is_positioned(x) && (
                (match resolve(graph@, EditorIndex::Ref(x)) {
                    Some(c) => commit_reached(graph@, commits@, c),
                    None => false,
                }) || EditorIndex::Ref(x) == start) && exists|l: int| 0 <= l < j && all@[l] == x),
        decreases all.len() - j,
    {
        let x = all[j];
        assert(all@.contains(x));
        let resolved = resolve_to_commit(graph, EditorIndex::Ref(x));
        proof {
            if let Some(c) = resolved {
                lemma_resolve_is_commit(graph@, EditorIndex::Ref(x));
                assert(ids_hold(reached_ids@, id_at(graph@, c)) == commits_hold_id(graph@, commits@, commits@.len() as int, id_at(graph@, c)));
            }
        }
        let reached = match resolved {
            Some(c) => holds_commit(commits, c) || match graph.commit_id(EditorIndex::Commit(c)) {
                Some(id) => holds_commit_id(&reached_ids, &id),
                None => false,
            },
            None => false,
        };
        assert(reached == match resolve(graph@, EditorIndex::Ref(x)) {
            Some(c) => commit_reached(graph@, commits@, c),
            None => false,
        });
        if reached || EditorIndex::Ref(x) == start {
            let ghost prev = out@;
            assert forall|k: int| 0 <= k < prev.len() implies (#[trigger] prev[k]).0 < x.0 by {
                let l = choose|l: int| 0 <= l < j && all@[l] == prev[k];
            }
            out.push(x);
            assert forall|y: RefIndex| #[trigger] out@.contains(y) <==> (graph@.is_positioned(y) && (
                (match resolve(graph@, EditorIndex::Ref(y)) {
                    Some(c) => commit_reached(graph@, commits@, c),
                    None => false,
                }) || EditorIndex::Ref(y) == start) && exists|l: int| 0 <= l < j + 1 && all@[l] == y) by {
                if out@.contains(y) {
                    let k = choose|k: int| 0 <= k < out@.len() && out@[k] == y;
                    if k < prev.len() {
                        assert(prev.contains(y));
                    }
                }
                if y != x && graph@.is_positioned(y) && exists|l: int| 0 <= l < j + 1 && all@[l] == y {
                    let l = choose|l: int| 0 <= l < j + 1 && all@[l] == y;
                    if (match resolve(graph@, EditorIndex::Ref(y)) {
                        Some(c) => commit_reached(graph@, commits@, c),
                        None => false,
                    }) || EditorIndex::Ref(y) == start {
                        assert(prev.contains(y));
                        let k = choose|k: int| 0 <= k < prev.len() && prev[k] == y;
                        assert(out@[k] == y);
                    }
                }
                if y == x {
                    assert(out@[prev.len() as int] == y);
                }
            }
            assert forall|k: int| 0 <= k < out@.len() implies exists|l: int| 0 <= l < j + 1 && all@[l] == #[trigger] out@[k] by {
                if k < prev.len() {
                    assert(out@[k] == prev[k]);
                } else {
                    assert(all@[j as int] == out@[k]);
                }
            }
        } else {
            assert forall|y: RefIndex| #[trigger] out@.contains(y) <==> (graph@.is_positioned(y) && (
                (match resolve(graph@, EditorIndex::Ref(y)) {
                    Some(c) => commit_reached(graph@, commits@, c),
                    None => false,
                }) || EditorIndex::Ref(y) == start) && exists|l: int| 0 <= l < j + 1 && all@[l] == y) by {
                if graph@.is_positioned(y) && exists|l: int| 0 <= l < j + 1 && all@[l] == y {
                    let l = choose|l: int| 0 <= l < j + 1 && all@[l] == y;
                    if l == j {
                        assert(y == x);
                    }
                }
            }
        }
        j = j + 1;
    }
    assert forall|x: RefIndex| #[trigger] out@.contains(x) <==> (graph@.is_positioned(x) && (
        (match resolve(graph@, EditorIndex::Ref(x)) {
            Some(c) => commit_reached(graph@, commits@, c),
            None => false,
        }) || EditorIndex::Ref(x) == start)) by {
        if graph@.is_positioned(x) {
            assert(all@.contains(x));
        }
    }
    out
}

/// Whether `c` is among `commits`.
pub fn holds_commit(commits: &Vec<CommitIndex>, c: CommitIndex) -> (r: bool)
    ensures
        r == commits@.contains(c),
{
    let mut i: usize = 0;
    while i < commits.len()
        invariant
            i <= commits.len(),
            forall|j: int| 0 <= j < i ==> commits@[j] != c,
        decreases commits.len() - i,
    {
        if commits[i] == c {
            return true;
        }
        i = i + 1;
    }
    false
}

/// Whether some id in `ids` holds the same bytes as `id`.
fn holds_commit_id(ids: &Vec<CommitId>, id: &CommitId) -> (r: bool)
    ensures
        r == exists|k: int| 0 <= k < ids@.len() && (#[trigger] ids@[k])@ == id@,
{
    let mut i: usize = 0;
    while i < ids.len()
        invariant
            i <= ids.len(),
            forall|j: int| 0 <= j < i ==> (#[trigger] ids@[j])@ != id@,
        decreases ids.len() - i,
    {
        if ids[i].same_as(id) {
            return true;
        }
        i = i + 1;
    }
    false
}

/// A reference's position as a group join captures it: `(reference, on, below, ambiguous)`.
pub open spec fn capture(m: StoreModel, r: RefIndex) -> (RefIndex, CommitIndex, Option<RefIndex>, bool) {
    (r, m.positioned_on(r)->0, m.below_of(r), m.refs[r.0 as int].ambiguous)
}

/// The below walk from `cursor` ends — at nothing below, or at a reference that holds no
/// position — within `fuel` steps.
pub open spec fn walk_ends(m: StoreModel, cursor: Option<RefIndex>, fuel: nat) -> bool
    decreases fuel,
{
    match cursor {
        None => true,
        Some(b) => !m.is_positioned(b) || (fuel > 0 && walk_ends(m, m.below_of(b), (fuel - 1) as nat)),
    }
}

/// The members of `r`'s group met on the below walk from `cursor`, captured, in walk order,
/// looking at most `fuel` steps down.
pub open spec fn mates_below(m: StoreModel, r: RefIndex, cursor: Option<RefIndex>, fuel: nat) -> Seq<(RefIndex, CommitIndex, Option<RefIndex>, bool)>
    decreases fuel,
{
    match cursor {
        None => Seq::empty(),
        Some(b) => if !m.is_positioned(b) || fuel == 0 {
            Seq::empty()
        } else {
            let rest = mates_below(m, r, m.below_of(b), (fuel - 1) as nat);
            if same_group(m, b, r) {
                seq![capture(m, b)] + rest
            } else {
                rest
            }
        },
    }
}

/// Once a walk has ended, looking further changes nothing.
pub proof fn lemma_mates_fuel(m: StoreModel, r: RefIndex, cursor: Option<RefIndex>, f1: nat, f2: nat)
    requires
        walk_ends(m, cursor, f1),
        f1 <= f2,
    ensures
        walk_ends(m, cursor, f2),
        mates_below(m, r, cursor, f1) == mates_below(m, r, cursor, f2),
    decreases f1,
{
    if let Some(b) = cursor {
        if m.is_positioned(b) {
            lemma_mates_fuel(m, r, m.below_of(b), (f1 - 1) as nat, (f2 - 1) as nat);
        }
    }
}

/// A group about to be entered by a new parent entry, captured before that entry exists so
/// the join never reads a half-updated store.
pub struct GroupJoin {
    /// The joining members: the reference and the group-mates its below walk rests on, each
    /// with its position captured as `(reference, on, below, ambiguous)`. Root groups on one
    /// commit are distinct siblings, so for a root only the reference itself joins.
    pub members: Vec<(RefIndex, CommitIndex, Option<RefIndex>, bool)>,
    /// The parent entries entering the group at capture time, ascending.
    pub entering: Vec<ParentEntry>,
}

/// Whether `r` is among `refs`.
fn holds_ref(refs: &Vec<RefIndex>, r: RefIndex) -> (found: bool)
    ensures
        found == refs@.contains(r),
{
    let mut i: usize = 0;
    while i < refs.len()
        invariant
            i <= refs.len(),
            forall|j: int| 0 <= j < i ==> refs@[j] != r,
        decreases refs.len() - i,
    {
        if refs[i] == r {
            return true;
        }
        i = i + 1;
    }
    false
}

/// Capture `ref_node`'s group for a coming join — call before the joining parent entry is
/// added. An unplaced reference captures nothing; the below walk of a non-root reference must
/// end.
pub fn prepare_group_join(graph: &EditorStore, ref_node: RefIndex) -> (join: GroupJoin)
    requires
        graph.valid(),
        graph@.is_positioned(ref_node) && !(graph@.carry_of(ref_node)->0 is Root)
            ==> exists|fuel: nat| walk_ends(graph@, graph@.below_of(ref_node), fuel),
    ensures
        entries_ascending(join.entering@),
        forall|e: ParentEntry| #[trigger] join.entering@.contains(e) <==> entering_set(graph@, EditorIndex::Ref(ref_node)).contains(e),
        !graph@.is_positioned(ref_node) ==> join.members@.len() == 0,
        graph@.is_positioned(ref_node) && graph@.carry_of(ref_node)->0 is Root
            ==> join.members@ == seq![capture(graph@, ref_node)],
        graph@.is_positioned(ref_node) && !(graph@.carry_of(ref_node)->0 is Root) ==> forall|fuel: nat|
            #[trigger] walk_ends(graph@, graph@.below_of(ref_node), fuel) ==> join.members@
                == seq![capture(graph@, ref_node)] + mates_below(graph@, ref_node, graph@.below_of(ref_node), fuel),
{
    let ghost m = graph@;
    let entering_now = entering(graph, EditorIndex::Ref(ref_node));
    let on = match graph.positioned_on(EditorIndex::Ref(ref_node)) {
        Some(on) => on,
        None => return GroupJoin { members: Vec::new(), entering: entering_now },
    };
    let captured = (ref_node, on, graph.below_of(EditorIndex::Ref(ref_node)), graph.ambiguous_of(ref_node));
    let is_root = match graph.carry_of(EditorIndex::Ref(ref_node)) {
        Some(GroupCarry::Root) => true,
        _ => false,
    };
    let mut members: Vec<(RefIndex, CommitIndex, Option<RefIndex>, bool)> = Vec::new();
    members.push(captured);
    if is_root {
        assert(members@ =~= seq![capture(m, ref_node)]);
        return GroupJoin { members, entering: entering_now };
    }
    let group = group_members(graph, EditorIndex::Ref(ref_node));
    let ghost fuel = choose|fuel: nat| walk_ends(m, m.below_of(ref_node), fuel);
    let ghost mut f: nat = fuel;
    let mut cursor = graph.below_of(EditorIndex::Ref(ref_node));
    while cursor.is_some()
        invariant
            graph.valid(),
            m == graph@,
            m.is_positioned(ref_node),
            forall|x: RefIndex| #[trigger] group@.contains(x) <==> (m.is_positioned(x) && same_group(m, x, ref_node)),
            walk_ends(m, cursor, f),
            members@ + mates_below(m, ref_node, cursor, f) == seq![capture(m, ref_node)]
                + mates_below(m, ref_node, m.below_of(ref_node), fuel),
        ensures
            members@ + mates_below(m, ref_node, cursor, f) == seq![capture(m, ref_node)]
                + mates_below(m, ref_node, m.below_of(ref_node), fuel),
            cursor matches Some(b) ==> !m.is_positioned(b),
        decreases f,
    {
        let b = cursor.unwrap();
        if !graph.is_positioned(EditorIndex::Ref(b)) {
            break;
        }
        let ghost rest = mates_below(m, ref_node, m.below_of(b), (f - 1) as nat);
        if holds_ref(&group, b) {
            let cb = (b, graph.positioned_on(EditorIndex::Ref(b)).unwrap(), graph.below_of(EditorIndex::Ref(b)), graph.ambiguous_of(b));
            let ghost prev = members@;
            members.push(cb);
            assert(members@ + rest =~= prev + (seq![capture(m, b)] + rest));
        }
        cursor = graph.below_of(EditorIndex::Ref(b));
        proof {
            f = (f - 1) as nat;
        }
    }
    proof {
        assert(mates_below(m, ref_node, cursor, f) =~= Seq::empty());
        assert(members@ =~= seq![capture(m, ref_node)] + mates_below(m, ref_node, m.below_of(ref_node), fuel));
        assert forall|g: nat| #[trigger] walk_ends(m, m.below_of(ref_node), g) implies members@
            == seq![capture(m, ref_node)] + mates_below(m, ref_node, m.below_of(ref_node), g) by {
            if g <= fuel {
                lemma_mates_fuel(m, ref_node, m.below_of(ref_node), g, fuel);
            } else {
                lemma_mates_fuel(m, ref_node, m.below_of(ref_node), fuel, g);
            }
        }
    }
    GroupJoin { members, entering: entering_now }
}

/// Why the layout fails its well-formedness law.
#[derive(Debug, Clone, Copy, PartialEq, Eq, Structural)]
pub enum PositionError {
    /// The live reference `entry` has, on its below walk, `below`, which holds no position.
    BelowUnplaced { entry: RefIndex, below: RefIndex },
    /// The live reference `entry` has, on its below walk, `below`, which resolves to another
    /// commit.
    BelowElsewhere { entry: RefIndex, below: RefIndex },
    /// The below walk of the live reference `entry` does not end within the walk limit.
    BelowCycle { entry: RefIndex },
    /// Two live references entered by a child entry share one position: the same commit, the
    /// same entering entries, the same rank.
    Collision { previous: RefIndex, entry: RefIndex },
}

/// The first fault on the below walk of `entry` from `cursor`, `steps` steps taken: a reference
/// on it that holds no position or resolves elsewhere than `commit`, or a walk past the limit.
pub open spec fn walk_fault(m: StoreModel, entry: RefIndex, commit: Option<CommitIndex>, cursor: Option<RefIndex>, steps: nat) -> Option<PositionError>
    decreases WALK_LIMIT - steps,
{
    match cursor {
        None => None,
        Some(b) => if !m.is_positioned(b) {
            Some(PositionError::BelowUnplaced { entry, below: b })
        } else if resolve(m, EditorIndex::Ref(b)) != commit {
            Some(PositionError::BelowElsewhere { entry, below: b })
        } else if steps + 1 > WALK_LIMIT {
            Some(PositionError::BelowCycle { entry })
        } else {
            walk_fault(m, entry, commit, m.below_of(b), steps + 1)
        },
    }
}

/// The fault of the reference `r`'s below walk; only live, positioned references are graded
/// (deleted ones keep their position for stale indices but are spliced out of every stack).
pub open spec fn entry_fault(m: StoreModel, r: RefIndex) -> Option<PositionError> {
    if m.is_positioned(r) && m.refs[r.0 as int].live {
        walk_fault(m, r, resolve(m, EditorIndex::Ref(r)), m.below_of(r), 0)
    } else {
        None
    }
}

/// The first below-walk fault among the first `n` records.
pub open spec fn below_fault(m: StoreModel, n: nat) -> Option<PositionError>
    decreases n,
{
    if n == 0 {
        None
    } else {
        match below_fault(m, (n - 1) as nat) {
            Some(e) => Some(e),
            None => entry_fault(m, RefIndex((n - 1) as usize)),
        }
    }
}

/// `r` is a live, positioned reference entered by some child entry — where order matters.
pub open spec fn ordered(m: StoreModel, r: RefIndex) -> bool {
    &&& m.is_reference(EditorIndex::Ref(r))
    &&& m.is_positioned(r)
    &&& exists|e: ParentEntry| #[trigger] entering_set(m, EditorIndex::Ref(r)).contains(e)
}

/// `a` and `b` are ordered references at one position: the same commit, the same entering
/// entries, the same rank.
pub open spec fn collides(m: StoreModel, a: RefIndex, b: RefIndex) -> bool {
    &&& ordered(m, a)
    &&& ordered(m, b)
    &&& resolve(m, EditorIndex::Ref(a)) == resolve(m, EditorIndex::Ref(b))
    &&& entering_set(m, EditorIndex::Ref(a)) == entering_set(m, EditorIndex::Ref(b))
    &&& depth(m, EditorIndex::Ref(a)) == depth(m, EditorIndex::Ref(b))
}

/// No two of the first `n` records collide.
pub open spec fn collision_free(m: StoreModel, n: int) -> bool {
    forall|i: int, j: int| 0 <= i < j < n ==> !#[trigger] collides(m, RefIndex(i as usize), RefIndex(j as usize))
}

/// The below-walk fault of `entry`, as [`entry_fault`] states it.
fn check_below_walk(graph: &EditorStore, entry: RefIndex) -> (fault: Option<PositionError>)
    requires
        graph.valid(),
        graph@.ref_valid(entry),
    ensures
        fault == entry_fault(graph@, entry),
{
    if !graph.is_positioned(EditorIndex::Ref(entry)) || !graph.is_reference(EditorIndex::Ref(entry)) {
        return None;
    }
    let commit = resolve_to_commit(graph, EditorIndex::Ref(entry));
    let mut steps: usize = 0;
    let mut cursor = graph.below_of(EditorIndex::Ref(entry));
    while cursor.is_some()
        invariant
            graph.valid(),
            steps <= WALK_LIMIT,
            entry_fault(graph@, entry) == walk_fault(graph@, entry, commit, cursor, steps as nat),
        decreases WALK_LIMIT - steps,
    {
        let b = cursor.unwrap();
        if !graph.is_positioned(EditorIndex::Ref(b)) {
            return Some(PositionError::BelowUnplaced { entry, below: b });
        }
        if resolve_to_commit(graph, EditorIndex::Ref(b)) != commit {
            return Some(PositionError::BelowElsewhere { entry, below: b });
        }
        steps = steps + 1;
        if steps > WALK_LIMIT {
            return Some(PositionError::BelowCycle { entry });
        }
        cursor = graph.below_of(EditorIndex::Ref(b));
    }
    None
}

/// Every live positioned reference's below walk names positioned references resolving to the
/// same commit, and ends. Deleted references keep their position for stale indices but are
/// spliced out of the stacks, so only live ones are graded. The error names the first fault,
/// by ascending reference and then along its walk.
pub fn assert_below_wellformed(graph: &EditorStore) -> (r: Result<(), PositionError>)
    requires
        graph.valid(),
    ensures
        r == match below_fault(graph@, graph@.refs.len()) {
            Some(e) => Err(e),
            None => Ok(()),
        },
{
    let n = graph.ref_count();
    let mut i: usize = 0;
    while i < n
        invariant
            graph.valid(),
            n == graph@.refs.len(),
            i <= n,
            below_fault(graph@, i as nat) is None,
        decreases n - i,
    {
        match check_below_walk(graph, RefIndex(i)) {
            Some(e) => {
                proof {
                    lemma_below_fault_prefix(graph@, (i + 1) as nat, n as nat);
                }
                return Err(e);
            },
            None => {},
        }
        i = i + 1;
    }
    Ok(())
}

/// Once a fault is found among the first `a` records, it stays the first among more.
proof fn lemma_below_fault_prefix(m: StoreModel, a: nat, b: nat)
    requires
        a <= b,
        below_fault(m, a) is Some,
    ensures
        below_fault(m, b) == below_fault(m, a),
    decreases b - a,
{
    if a < b {
        lemma_below_fault_prefix(m, a, (b - 1) as nat);
    }
}

/// What keys a reference's position for the collision check: its commit, its entering entries
/// (ascending), its rank.
type PositionKey = (Option<CommitIndex>, Vec<ParentEntry>, usize);

/// Every reference has a well-formed position, and positions are unique wherever order matters
/// topologically — among live references entered by a child entry. Several root groups on one
/// commit are fine: they have no meaningful order. Below walks are graded first (see
/// [`assert_below_wellformed`]); a collision names the later reference and the earlier one it
/// collides with.
pub fn assert_positions_total(graph: &EditorStore) -> (r: Result<(), PositionError>)
    requires
        graph.valid(),
    ensures
        below_fault(graph@, graph@.refs.len()) matches Some(e) ==> r == Err::<(), PositionError>(e),
        below_fault(graph@, graph@.refs.len()) is None ==> match r {
            Ok(()) => collision_free(graph@, graph@.refs.len() as int),
            Err(e) => e matches PositionError::Collision { previous, entry } && {
                &&& previous.0 < entry.0 < graph@.refs.len()
                &&& collision_free(graph@, entry.0 as int)
                &&& collides(graph@, previous, entry)
            },
        },
{
    assert_below_wellformed(graph)?;
    let n = graph.ref_count();
    let mut keys: Vec<Option<PositionKey>> = Vec::new();
    let mut j: usize = 0;
    while j < n
        invariant
            graph.valid(),
            n == graph@.refs.len(),
            j <= n,
            keys@.len() == j,
            below_fault(graph@, n as nat) is None,
            collision_free(graph@, j as int),
            forall|t: int| 0 <= t < j ==> match #[trigger] keys@[t] {
                Some(k) => {
                    &&& ordered(graph@, RefIndex(t as usize))
                    &&& k.0 == resolve(graph@, EditorIndex::Ref(RefIndex(t as usize)))
                    &&& entries_ascending(k.1@)
                    &&& forall|e: ParentEntry| #[trigger] k.1@.contains(e) <==> entering_set(graph@, EditorIndex::Ref(RefIndex(t as usize))).contains(e)
                    &&& k.2 == depth(graph@, EditorIndex::Ref(RefIndex(t as usize)))
                },
                None => !ordered(graph@, RefIndex(t as usize)),
            },
        decreases n - j,
    {
        let entry = RefIndex(j);
        let key: Option<PositionKey> = if graph.is_reference(EditorIndex::Ref(entry)) && graph.is_positioned(EditorIndex::Ref(entry)) {
            let ent = entering(graph, EditorIndex::Ref(entry));
            if ent.len() == 0 {
                assert forall|e: ParentEntry| !#[trigger] entering_set(graph@, EditorIndex::Ref(entry)).contains(e) by {
                    assert(!ent@.contains(e));
                }
                None
            } else {
                assert(ent@.contains(ent@[0]));
                Some((resolve_to_commit(graph, EditorIndex::Ref(entry)), ent, ref_depth(graph, EditorIndex::Ref(entry))))
            }
        } else {
            None
        };
        match &key {
            Some(kj) => {
                let mut i: usize = 0;
                while i < j
                    invariant
                        graph.valid(),
                        i <= j,
                        j < n,
                        n == graph@.refs.len(),
                        below_fault(graph@, n as nat) is None,
                        collision_free(graph@, j as int),
                        keys@.len() == j,
                        entry == RefIndex(j),
                        ordered(graph@, entry),
                        kj.0 == resolve(graph@, EditorIndex::Ref(entry)),
                        entries_ascending(kj.1@),
                        forall|e: ParentEntry| #[trigger] kj.1@.contains(e) <==> entering_set(graph@, EditorIndex::Ref(entry)).contains(e),
                        kj.2 == depth(graph@, EditorIndex::Ref(entry)),
                        forall|t: int| 0 <= t < j ==> match #[trigger] keys@[t] {
                            Some(k) => {
                                &&& ordered(graph@, RefIndex(t as usize))
                                &&& k.0 == resolve(graph@, EditorIndex::Ref(RefIndex(t as usize)))
                                &&& entries_ascending(k.1@)
                                &&& forall|e: ParentEntry| #[trigger] k.1@.contains(e) <==> entering_set(graph@, EditorIndex::Ref(RefIndex(t as usize))).contains(e)
                                &&& k.2 == depth(graph@, EditorIndex::Ref(RefIndex(t as usize)))
                            },
                            None => !ordered(graph@, RefIndex(t as usize)),
                        },
                        forall|t: int| 0 <= t < i ==> !#[trigger] collides(graph@, RefIndex(t as usize), entry),
                    decreases j - i,
                {
                    match &keys[i] {
                        Some(ki) => {
                            proof {
                                lemma_entering_lists_equal(graph@, EditorIndex::Ref(RefIndex(i)), EditorIndex::Ref(entry), ki.1@, kj.1@);
                            }
                            if ki.0 == kj.0 && ki.2 == kj.2 && same_entries(&ki.1, &kj.1) {
                                assert(collides(graph@, RefIndex(i), entry));
                                return Err(PositionError::Collision { previous: RefIndex(i), entry });
                            }
                        },
                        None => {},
                    }
                    i = i + 1;
                }
            },
            None => {},
        }
        assert(collision_free(graph@, j + 1)) by {
            assert forall|a: int, b: int| 0 <= a < b < j + 1 implies !#[trigger] collides(graph@, RefIndex(a as usize), RefIndex(b as usize)) by {
                if b == j {
                    if key is None {
                        assert(!ordered(graph@, entry));
                    }
                }
            }
        }
        keys.push(key);
        j = j + 1;
    }
    Ok(())
}

/// A group's carry decides which incoming entries enter through a reference: a root lets none
/// in, `All` lets in every entry a live child makes into the commit the reference resolves to,
/// and a list lets in exactly those of them whose stable id it states.
pub proof fn law_carry_decides_entering(m: StoreModel, r: RefIndex, e: ParentEntry)
    requires
        m.is_positioned(r),
    ensures
        ({
            let into = match resolve(m, EditorIndex::Ref(r)) {
                Some(c) => m.arena.is_incoming(c, e) && m.arena.is_commit(e.child),
                None => false,
            };
            match m.carry_of(r)->0 {
                CarryModel::Root => !enters(m, r, e),
                CarryModel::All => enters(m, r, e) == into,
                CarryModel::Entries(s) => enters(m, r, e) == (into
                    && m.arena.entry_id_at(e.child, e.number as int) is Some
                    && s.contains(m.arena.entry_id_at(e.child, e.number as int)->0)),
            }
        }),
{
}

/// Only stated entries enter through a listed carry: every entry entering through a reference
/// whose group states a list has a stable id, and the list holds it.
pub proof fn law_listed_carry_admits_only_its_list(m: StoreModel, r: RefIndex, s: Seq<ParentEntryId>, e: ParentEntry)
    requires
        m.carry_of(r) == Some(CarryModel::Entries(s)),
        enters(m, r, e),
    ensures
        m.arena.entry_id_at(e.child, e.number as int) is Some,
        s.contains(m.arena.entry_id_at(e.child, e.number as int)->0),
{
}

/// Resolution descends tombstones by their first parent, as far as the walk limit: along a
/// chain of tombstones, each the first parent of the one before, that ends at a commit, the
/// first tombstone resolves to that commit.
pub proof fn law_tombstones_resolve_down_first_parents(m: StoreModel, chain: Seq<CommitIndex>)
    requires
        1 <= chain.len() <= WALK_LIMIT,
        forall|i: int| 0 <= i < chain.len() - 1 ==> {
            &&& !m.arena.is_commit(#[trigger] chain[i])
            &&& m.arena.parents(chain[i]).len() > 0
            &&& m.arena.parents(chain[i])[0] == chain[i + 1]
        },
        m.arena.is_commit(chain.last()),
    ensures
        resolve_key(m, chain[0]) == Some(chain.last()),
        resolve(m, EditorIndex::Commit(chain[0])) == Some(chain.last()),
{
    lemma_chain_descends(m, chain, 0, WALK_LIMIT as nat);
}

/// The chain from `i` on descends to its last commit with `fuel` to spare beyond its length.
proof fn lemma_chain_descends(m: StoreModel, chain: Seq<CommitIndex>, i: int, fuel: nat)
    requires
        0 <= i < chain.len(),
        chain.len() - i <= fuel,
        forall|j: int| 0 <= j < chain.len() - 1 ==> {
            &&& !m.arena.is_commit(#[trigger] chain[j])
            &&& m.arena.parents(chain[j]).len() > 0
            &&& m.arena.parents(chain[j])[0] == chain[j + 1]
        },
        m.arena.is_commit(chain.last()),
    ensures
        descend(m.arena, chain[i], fuel) == Some(chain.last()),
    decreases chain.len() - i,
{
    if i < chain.len() - 1 {
        assert(!m.arena.is_commit(chain[i]) && m.arena.parents(chain[i])[0] == chain[i + 1]);
        lemma_chain_descends(m, chain, i + 1, (fuel - 1) as nat);
    }
}

/// A commit held twice counts as reached under either node: a commit whose id is the id of a
/// reached commit is reached.
pub proof fn law_commit_reached_by_id(m: StoreModel, commits: Seq<CommitIndex>, c: CommitIndex, k: int)
    requires
        m.arena.is_commit(c),
        0 <= k < commits.len(),
        m.arena.is_commit(commits[k]),
        m.arena.nodes[commits[k].0 as int].commit->0.id == m.arena.nodes[c.0 as int].commit->0.id,
    ensures
        commit_reached(m, commits, c),
{
}

} // verus!
