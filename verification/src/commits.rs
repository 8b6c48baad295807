//! The commit half of the editor's store: an arena of commit nodes, each with an ordered
//! parent array. A node either holds a commit or is a tombstone; nothing is ever removed,
//! so a [`CommitIndex`] stays valid for the arena's whole life. Every parent entry carries a
//! stable [`ParentEntryId`] that survives renumbering and re-pointing and is never reused.
use vstd::prelude::*;

verus! {

/// A node of the commit arena: a commit, or its tombstone.
#[derive(Debug, Clone, Copy, PartialEq, Eq, Structural, Hash, PartialOrd, Ord)]
pub struct CommitIndex(pub usize);

/// The stable identity of one parent entry. Issued once, never reused.
#[derive(Debug, Clone, Copy, PartialEq, Eq, Structural, Hash, PartialOrd, Ord)]
pub struct ParentEntryId(pub usize);

/// One entry of a commit's parent list, named from the child side.
#[derive(Debug, Clone, Copy, PartialEq, Eq, Structural, Hash, PartialOrd, Ord)]
pub struct ParentEntry {
    /// The commit whose parent list holds the entry.
    pub child: CommitIndex,
    /// The entry's position in that list.
    pub number: usize,
}

/// The raw bytes of a commit's object id.
#[derive(Debug, Clone, PartialEq, Eq, Hash)]
pub struct CommitId {
    pub bytes: Vec<u8>,
}

impl View for CommitId {
    type V = Seq<u8>;

    open spec fn view(&self) -> Seq<u8> {
        self.bytes@
    }
}

/// A copy of `bytes`, element by element.
pub fn copy_bytes(bytes: &Vec<u8>) -> (out: Vec<u8>)
    ensures
        out@ == bytes@,
{
    let mut out: Vec<u8> = Vec::new();
    let mut i: usize = 0;
    while i < bytes.len()
        invariant
            i <= bytes.len(),
            out@ == bytes@.take(i as int),
        decreases bytes.len() - i,
    {
        out.push(bytes[i]);
        i = i + 1;
        assert(out@ =~= bytes@.take(i as int));
    }
    assert(out@ =~= bytes@);
    out
}

impl CommitId {
    /// A commit id with the given bytes.
    pub fn from_bytes(bytes: Vec<u8>) -> (id: CommitId)
        ensures
            id@ == bytes@,
    {
        CommitId { bytes }
    }

    /// An independent copy of this id.
    pub fn duplicate(&self) -> (id: CommitId)
        ensures
            id@ == self@,
    {
        CommitId { bytes: copy_bytes(&self.bytes) }
    }

    /// Whether both ids hold the same bytes.
    pub fn same_as(&self, other: &CommitId) -> (r: bool)
        ensures
            r == (self@ == other@),
    {
        let r = self.bytes == other.bytes;
        proof {
            if r {
                assert(self@ =~= other@);
            }
        }
        r
    }
}

/// The mathematical value of a commit held by the arena.
pub struct CommitModel {
    pub id: Seq<u8>,
    pub preserved_parents: Option<Seq<Seq<u8>>>,
}

/// What a commit node is made from at the API boundary: its id and, when the parents it was made with
/// must be kept, their ids.
#[derive(Debug, Clone, PartialEq, Eq)]
pub struct CommitSpec {
    pub id: CommitId,
    pub preserved_parents: Option<Vec<CommitId>>,
}

/// The model of a list of commit ids.
pub open spec fn ids_model(ids: Seq<CommitId>) -> Seq<Seq<u8>> {
    ids.map_values(|c: CommitId| c@)
}

/// A copy of a list of commit ids.
pub fn duplicate_ids(ids: &Vec<CommitId>) -> (out: Vec<CommitId>)
    ensures
        ids_model(out@) == ids_model(ids@),
{
    let mut out: Vec<CommitId> = Vec::new();
    let mut i: usize = 0;
    while i < ids.len()
        invariant
            i <= ids.len(),
            out@.len() == i,
            ids_model(out@) == ids_model(ids@.take(i as int)),
        decreases ids.len() - i,
    {
        let ghost prev = out@;
        let d = ids[i].duplicate();
        out.push(d);
        assert forall|k: int| 0 <= k < i + 1 implies #[trigger] ids_model(out@)[k] == ids_model(
            ids@.take(i + 1),
        )[k] by {
            if k < i {
                assert(out@[k] == prev[k]);
                assert(ids_model(prev)[k] == ids_model(ids@.take(i as int))[k]);
            }
        }
        assert(ids_model(out@) =~= ids_model(ids@.take(i + 1)));
        i = i + 1;
    }
    assert(ids@.take(ids.len() as int) =~= ids@);
    out
}

impl CommitSpec {
    /// A spec for a commit with `id` and no preserved parents.
    pub fn new(id: CommitId) -> (spec: CommitSpec)
        ensures
            spec.model() == (CommitModel { id: id@, preserved_parents: None }),
    {
        CommitSpec { id, preserved_parents: None }
    }

    pub open spec fn model(&self) -> CommitModel {
        CommitModel {
            id: self.id@,
            preserved_parents: match self.preserved_parents {
                Some(v) => Some(ids_model(v@)),
                None => None,
            },
        }
    }

    /// An independent copy of this spec.
    pub fn duplicate(&self) -> (spec: CommitSpec)
        ensures
            spec.model() == self.model(),
    {
        let preserved_parents = match &self.preserved_parents {
            Some(v) => Some(duplicate_ids(v)),
            None => None,
        };
        CommitSpec { id: self.id.duplicate(), preserved_parents }
    }
}

/// The model of one arena node: the commit it holds (`None` for a tombstone), and its
/// parent array as targets and the parallel stable entry ids.
pub struct NodeModel {
    pub commit: Option<CommitModel>,
    pub parents: Seq<CommitIndex>,
    pub entries: Seq<ParentEntryId>,
}

/// The model of the whole arena.
pub struct ArenaModel {
    pub nodes: Seq<NodeModel>,
    /// Every entry id below this has been issued; none at or above it has.
    pub next_entry: nat,
}

/// `a` sorts strictly before `b`: by child, then parent number.
pub open spec fn entry_before(a: ParentEntry, b: ParentEntry) -> bool {
    a.child.0 < b.child.0 || (a.child.0 == b.child.0 && a.number < b.number)
}

/// `s` is strictly ascending by [`entry_before`] — sorted, without duplicates.
pub open spec fn entries_ascending(s: Seq<ParentEntry>) -> bool {
    forall|i: int, j: int| 0 <= i < j < s.len() ==> entry_before(#[trigger] s[i], #[trigger] s[j])
}

impl ArenaModel {
    pub open spec fn valid(self, i: CommitIndex) -> bool {
        i.0 < self.nodes.len()
    }

    pub open spec fn is_commit(self, i: CommitIndex) -> bool {
        self.valid(i) && self.nodes[i.0 as int].commit is Some
    }

    /// The ordered parents of `i`; none for an index outside the arena.
    pub open spec fn parents(self, i: CommitIndex) -> Seq<CommitIndex> {
        if self.valid(i) {
            self.nodes[i.0 as int].parents
        } else {
            Seq::empty()
        }
    }

    pub open spec fn entries(self, i: CommitIndex) -> Seq<ParentEntryId> {
        if self.valid(i) {
            self.nodes[i.0 as int].entries
        } else {
            Seq::empty()
        }
    }

    /// The id of the live parent entry at `(child, number)`, if there is one.
    pub open spec fn entry_id_at(self, child: CommitIndex, number: int) -> Option<ParentEntryId> {
        if 0 <= number < self.entries(child).len() {
            Some(self.entries(child)[number])
        } else {
            None
        }
    }

    /// `e` is a parent entry that names `target` as its parent.
    pub open spec fn is_incoming(self, target: CommitIndex, e: ParentEntry) -> bool {
        &&& self.valid(e.child)
        &&& e.number < self.parents(e.child).len()
        &&& self.parents(e.child)[e.number as int] == target
    }

    /// `s` is exactly the parent entries naming `target`, ascending.
    pub open spec fn is_children_list(self, target: CommitIndex, s: Seq<ParentEntry>) -> bool {
        &&& entries_ascending(s)
        &&& forall|e: ParentEntry| #[trigger] s.contains(e) <==> self.is_incoming(target, e)
    }

    /// Some entry of the arena holds the id `id`.
    pub open spec fn holds_entry_id(self, id: ParentEntryId) -> bool {
        exists|i: int, k: int|
            0 <= i < self.nodes.len() && 0 <= k < self.nodes[i].entries.len()
                && #[trigger] self.nodes[i].entries[k] == id
    }

    /// The arena with one more node, holding `commit` and no parents.
    pub open spec fn node_added(self, commit: Option<CommitModel>) -> ArenaModel {
        ArenaModel {
            nodes: self.nodes.push(NodeModel { commit, parents: Seq::empty(), entries: Seq::empty() }),
            ..self
        }
    }

    /// The arena with node `i` holding `commit`, its parents kept.
    pub open spec fn commit_set(self, i: CommitIndex, commit: Option<CommitModel>) -> ArenaModel {
        ArenaModel { nodes: self.nodes.update(i.0 as int, NodeModel { commit, ..self.nodes[i.0 as int] }), ..self }
    }

    /// The arena with the commit at `i` renamed to `id`; a tombstone stays as it is.
    pub open spec fn commit_id_set(self, i: CommitIndex, id: Seq<u8>) -> ArenaModel {
        match self.nodes[i.0 as int].commit {
            Some(c) => self.commit_set(i, Some(CommitModel { id, ..c })),
            None => self,
        }
    }

    /// The arena with the preserved parents of the commit at `i` replaced; a tombstone stays.
    pub open spec fn preserved_parents_set(self, i: CommitIndex, p: Option<Seq<Seq<u8>>>) -> ArenaModel {
        match self.nodes[i.0 as int].commit {
            Some(c) => self.commit_set(i, Some(CommitModel { preserved_parents: p, ..c })),
            None => self,
        }
    }

    /// The arena with node `i`'s parent array replaced by `parents` and `entries`.
    pub open spec fn parents_set(self, i: CommitIndex, parents: Seq<CommitIndex>, entries: Seq<ParentEntryId>) -> ArenaModel {
        ArenaModel {
            nodes: self.nodes.update(i.0 as int, NodeModel { parents, entries, ..self.nodes[i.0 as int] }),
            ..self
        }
    }

    /// The next entry id to be issued.
    pub open spec fn fresh_id(self) -> ParentEntryId {
        ParentEntryId(self.next_entry as usize)
    }

    /// `parent` appended to `child`'s parents under a fresh id.
    pub open spec fn parent_pushed(self, child: CommitIndex, parent: CommitIndex) -> ArenaModel {
        ArenaModel {
            next_entry: self.next_entry + 1,
            ..self.parents_set(child, self.parents(child).push(parent), self.entries(child).push(self.fresh_id()))
        }
    }

    /// `parent` inserted at `at` of `child`'s parents under a fresh id.
    pub open spec fn parent_inserted(self, child: CommitIndex, at: int, parent: CommitIndex) -> ArenaModel {
        ArenaModel {
            next_entry: self.next_entry + 1,
            ..self.parents_set(
                child,
                self.parents(child).insert(at, parent),
                self.entries(child).insert(at, self.fresh_id()),
            )
        }
    }

    /// `child`'s parent at `at` removed.
    pub open spec fn parent_removed(self, child: CommitIndex, at: int) -> ArenaModel {
        self.parents_set(child, self.parents(child).remove(at), self.entries(child).remove(at))
    }

    /// `child`'s parent at `at` re-pointed to `target`, its id kept.
    pub open spec fn parent_replaced(self, child: CommitIndex, at: int, target: CommitIndex) -> ArenaModel {
        self.parents_set(child, self.parents(child).update(at, target), self.entries(child))
    }

    /// `from`'s parent array moved onto `to`.
    pub open spec fn parents_transplanted(self, from: CommitIndex, to: CommitIndex) -> ArenaModel {
        self.parents_set(to, self.parents(from), self.entries(from)).parents_set(from, Seq::empty(), Seq::empty())
    }

    /// `after` is this arena with every parent entry naming `from` re-pointed to `to`.
    pub open spec fn children_redirected(self, after: ArenaModel, from: CommitIndex, to: CommitIndex) -> bool {
        &&& after.next_entry == self.next_entry
        &&& after.nodes.len() == self.nodes.len()
        &&& forall|i: int| #![trigger after.nodes[i]] 0 <= i < self.nodes.len() ==> {
            &&& after.nodes[i].commit == self.nodes[i].commit
            &&& after.nodes[i].entries == self.nodes[i].entries
            &&& after.nodes[i].parents.len() == self.nodes[i].parents.len()
            &&& forall|k: int| 0 <= k < self.nodes[i].parents.len() ==> #[trigger] after.nodes[i].parents[k] == if
                self.nodes[i].parents[k] == from { to } else { self.nodes[i].parents[k] }
        }
    }

    /// The arena's own invariant: parent arrays and id arrays line up, every parent is a node
    /// of the arena, every id was issued, and no id is held twice.
    pub open spec fn wf(self) -> bool {
        &&& forall|i: int| #![trigger self.nodes[i]] 0 <= i < self.nodes.len()
            ==> self.nodes[i].parents.len() == self.nodes[i].entries.len()
        &&& forall|i: int, k: int| #![trigger self.nodes[i].parents[k]]
            0 <= i < self.nodes.len() && 0 <= k < self.nodes[i].parents.len()
                ==> self.nodes[i].parents[k].0 < self.nodes.len()
        &&& forall|i: int, k: int| #![trigger self.nodes[i].entries[k]]
            0 <= i < self.nodes.len() && 0 <= k < self.nodes[i].entries.len()
                ==> self.nodes[i].entries[k].0 < self.next_entry
        &&& forall|i: int, k: int, j: int, l: int|
            0 <= i < self.nodes.len() && 0 <= k < self.nodes[i].entries.len()
                && 0 <= j < self.nodes.len() && 0 <= l < self.nodes[j].entries.len()
                && #[trigger] self.nodes[i].entries[k] == #[trigger] self.nodes[j].entries[l]
                ==> i == j && k == l
    }
}

struct ParentSlot {
    target: CommitIndex,
    entry: ParentEntryId,
}

struct CommitNode {
    commit: Option<CommitSpec>,
    parents: Vec<ParentSlot>,
}

impl CommitNode {
    spec fn model(&self) -> NodeModel {
        NodeModel {
            commit: match self.commit {
                Some(c) => Some(c.model()),
                None => None,
            },
            parents: self.parents@.map_values(|s: ParentSlot| s.target),
            entries: self.parents@.map_values(|s: ParentSlot| s.entry),
        }
    }
}

/// The owned commit graph.
pub struct CommitArena {
    nodes: Vec<CommitNode>,
    next_entry: usize,
}

impl View for CommitArena {
    type V = ArenaModel;

    closed spec fn view(&self) -> ArenaModel {
        ArenaModel {
            nodes: self.nodes@.map_values(|n: CommitNode| n.model()),
            next_entry: self.next_entry as nat,
        }
    }
}

impl CommitArena {
    /// An arena with no nodes.
    pub fn new() -> (arena: CommitArena)
        ensures
            arena@.nodes.len() == 0,
            arena@.next_entry == 0,
            arena@.wf(),
    {
        let arena = CommitArena { nodes: Vec::new(), next_entry: 0 };
        assert(arena@.nodes =~= Seq::<NodeModel>::empty());
        arena
    }

    /// How many nodes (commits and tombstones) the arena holds.
    pub fn len(&self) -> (n: usize)
        ensures
            n == self@.nodes.len(),
    {
        self.nodes.len()
    }

    fn push_node(&mut self, commit: Option<CommitSpec>) -> (index: CommitIndex)
        requires
            old(self)@.nodes.len() < usize::MAX,
        ensures
            index.0 == old(self)@.nodes.len(),
            final(self)@.next_entry == old(self)@.next_entry,
            final(self)@.nodes == old(self)@.nodes.push(NodeModel {
                commit: match commit {
                    Some(c) => Some(c.model()),
                    None => None,
                },
                parents: Seq::empty(),
                entries: Seq::empty(),
            }),
            old(self)@.wf() ==> final(self)@.wf(),
    {
        let index = CommitIndex(self.nodes.len());
        let node = CommitNode { commit, parents: Vec::new() };
        assert(node.model().parents =~= Seq::<CommitIndex>::empty());
        assert(node.model().entries =~= Seq::<ParentEntryId>::empty());
        self.nodes.push(node);
        assert(self@.nodes =~= old(self)@.nodes.push(node.model()));
        index
    }

    /// Add a node holding the commit `spec`.
    pub fn add_commit(&mut self, spec: CommitSpec) -> (index: CommitIndex)
        requires
            old(self)@.nodes.len() < usize::MAX,
        ensures
            index.0 == old(self)@.nodes.len(),
            final(self)@ == old(self)@.node_added(Some(spec.model())),
            old(self)@.wf() ==> final(self)@.wf(),
    {
        self.push_node(Some(spec))
    }

    /// Add a node born tombstoned.
    pub fn add_tombstone(&mut self) -> (index: CommitIndex)
        requires
            old(self)@.nodes.len() < usize::MAX,
        ensures
            index.0 == old(self)@.nodes.len(),
            final(self)@ == old(self)@.node_added(None),
            old(self)@.wf() ==> final(self)@.wf(),
    {
        self.push_node(None)
    }

    /// Overwrite what the node at `entry` holds (`None` tombstones it); its parents stay.
    fn set_node_commit(&mut self, entry: CommitIndex, commit: Option<CommitSpec>)
        requires
            old(self)@.valid(entry),
        ensures
            final(self)@.next_entry == old(self)@.next_entry,
            final(self)@.nodes == old(self)@.nodes.update(
                entry.0 as int,
                NodeModel {
                    commit: match commit {
                        Some(c) => Some(c.model()),
                        None => None,
                    },
                    ..old(self)@.nodes[entry.0 as int]
                },
            ),
            old(self)@.wf() ==> final(self)@.wf(),
    {
        let ghost before = self@;
        self.nodes[entry.0].commit = commit;
        assert(self@.nodes =~= before.nodes.update(
            entry.0 as int,
            NodeModel {
                commit: match commit {
                    Some(c) => Some(c.model()),
                    None => None,
                },
                ..before.nodes[entry.0 as int]
            },
        ));
    }

    /// Overwrite the node at `entry` with the commit `spec`; revives a tombstone.
    pub fn set_commit(&mut self, entry: CommitIndex, spec: CommitSpec)
        requires
            old(self)@.valid(entry),
        ensures
            final(self)@ == old(self)@.commit_set(entry, Some(spec.model())),
            old(self)@.wf() ==> final(self)@.wf(),
    {
        self.set_node_commit(entry, Some(spec));
    }

    /// Tombstone the node at `entry`: it stops holding a commit; its parents stay.
    pub fn tombstone_commit(&mut self, entry: CommitIndex)
        requires
            old(self)@.valid(entry),
        ensures
            final(self)@ == old(self)@.commit_set(entry, None),
            old(self)@.wf() ==> final(self)@.wf(),
    {
        self.set_node_commit(entry, None);
    }

    /// Whether `entry` holds a commit (not a tombstone, and inside the arena).
    pub fn is_commit(&self, entry: CommitIndex) -> (r: bool)
        ensures
            r == self@.is_commit(entry),
    {
        entry.0 < self.nodes.len() && self.nodes[entry.0].commit.is_some()
    }

    /// The id of the commit at `entry`; `None` for a tombstone or an index outside the arena.
    pub fn commit_id(&self, entry: CommitIndex) -> (id: Option<CommitId>)
        ensures
            id is Some == self@.is_commit(entry),
            id is Some ==> id->0@ == self@.nodes[entry.0 as int].commit->0.id,
    {
        if entry.0 < self.nodes.len() {
            match &self.nodes[entry.0].commit {
                Some(c) => Some(c.id.duplicate()),
                None => None,
            }
        } else {
            None
        }
    }

    /// The spec of the commit at `entry`; `None` for a tombstone or an index outside the arena.
    pub fn commit_spec(&self, entry: CommitIndex) -> (spec: Option<CommitSpec>)
        ensures
            spec is Some == self@.is_commit(entry),
            spec is Some ==> spec->0.model() == self@.nodes[entry.0 as int].commit->0,
    {
        if entry.0 < self.nodes.len() {
            match &self.nodes[entry.0].commit {
                Some(c) => Some(c.duplicate()),
                None => None,
            }
        } else {
            None
        }
    }

    /// Rewrite the id of the commit at `entry` in place; a tombstone is left as it is.
    pub fn set_commit_id(&mut self, entry: CommitIndex, id: CommitId)
        requires
            old(self)@.valid(entry),
        ensures
            final(self)@ == old(self)@.commit_id_set(entry, id@),
            old(self)@.wf() ==> final(self)@.wf(),
    {
        match &self.nodes[entry.0].commit {
            Some(c) => {
                let spec = CommitSpec { id, preserved_parents: match &c.preserved_parents {
                    Some(v) => Some(duplicate_ids(v)),
                    None => None,
                } };
                self.set_node_commit(entry, Some(spec));
            },
            None => {},
        }
    }

    /// Overwrite the preserved parents of the commit at `entry`; a tombstone is left as it is.
    pub fn set_preserved_parents(&mut self, entry: CommitIndex, parents: Option<Vec<CommitId>>)
        requires
            old(self)@.valid(entry),
        ensures
            final(self)@ == old(self)@.preserved_parents_set(entry, match parents {
                Some(v) => Some(ids_model(v@)),
                None => None,
            }),
            old(self)@.wf() ==> final(self)@.wf(),
    {
        match &self.nodes[entry.0].commit {
            Some(c) => {
                let spec = CommitSpec { id: c.id.duplicate(), preserved_parents: parents };
                self.set_node_commit(entry, Some(spec));
            },
            None => {},
        }
    }

    /// The ordered parents of `entry`; none for an index outside the arena.
    pub fn parents(&self, entry: CommitIndex) -> (parents: Vec<CommitIndex>)
        ensures
            parents@ == self@.parents(entry),
    {
        let mut out: Vec<CommitIndex> = Vec::new();
        if entry.0 < self.nodes.len() {
            let slots = &self.nodes[entry.0].parents;
            let mut k: usize = 0;
            while k < slots.len()
                invariant
                    k <= slots.len(),
                    slots@ == self.nodes@[entry.0 as int].parents@,
                    out@ == slots@.map_values(|s: ParentSlot| s.target).take(k as int),
                decreases slots.len() - k,
            {
                out.push(slots[k].target);
                k = k + 1;
                assert(out@ =~= slots@.map_values(|s: ParentSlot| s.target).take(k as int));
            }
            assert(out@ =~= slots@.map_values(|s: ParentSlot| s.target));
        } else {
            assert(out@ =~= Seq::<CommitIndex>::empty());
        }
        out
    }

    /// Every parent entry naming `target` as its parent, as ascending `(child, parent number)`
    /// pairs.
    pub fn children_of(&self, target: CommitIndex) -> (children: Vec<ParentEntry>)
        ensures
            self@.is_children_list(target, children@),
    {
        let mut out: Vec<ParentEntry> = Vec::new();
        let mut c: usize = 0;
        while c < self.nodes.len()
            invariant
                c <= self.nodes.len(),
                entries_ascending(out@),
                forall|e: ParentEntry| #[trigger] out@.contains(e) <==> (self@.is_incoming(target, e) && e.child.0 < c),
            decreases self.nodes.len() - c,
        {
            let slots = &self.nodes[c].parents;
            let mut k: usize = 0;
            while k < slots.len()
                invariant
                    c < self.nodes.len(),
                    k <= slots.len(),
                    slots@ == self.nodes@[c as int].parents@,
                    self@.parents(CommitIndex(c)) == slots@.map_values(|s: ParentSlot| s.target),
                    entries_ascending(out@),
                    forall|e: ParentEntry| #[trigger] out@.contains(e) <==> (self@.is_incoming(target, e) && (
                        e.child.0 < c || (e.child.0 == c && e.number < k))),
                decreases slots.len() - k,
            {
                if slots[k].target == target {
                    let e = ParentEntry { child: CommitIndex(c), number: k };
                    let ghost prev = out@;
                    assert forall|i: int| 0 <= i < prev.len() implies entry_before(#[trigger] prev[i], e) by {
                        assert(prev.contains(prev[i]));
                    }
                    out.push(e);
                    assert forall|f: ParentEntry| #[trigger] out@.contains(f) <==> (self@.is_incoming(target, f) && (
                        f.child.0 < c || (f.child.0 == c && f.number < k + 1))) by {
                        if out@.contains(f) && f != e {
                            let j = choose|j: int| 0 <= j < out@.len() && out@[j] == f;
                            assert(prev.contains(f));
                        }
                        if f == e {
                            assert(out@[out@.len() - 1] == e);
                        } else if self@.is_incoming(target, f) && (f.child.0 < c || (f.child.0 == c && f.number < k)) {
                            assert(prev.contains(f));
                            let j = choose|j: int| 0 <= j < prev.len() && prev[j] == f;
                            assert(out@[j] == f);
                        }
                    }
                } else {
                    assert forall|f: ParentEntry| #[trigger] out@.contains(f) <==> (self@.is_incoming(target, f) && (
                        f.child.0 < c || (f.child.0 == c && f.number < k + 1))) by {
                        if f.child.0 == c && f.number == k {
                            assert(self@.parents(CommitIndex(c))[k as int] == slots@[k as int].target);
                        }
                    }
                }
                k = k + 1;
            }
            c = c + 1;
        }
        out
    }

    /// Append `parent` as `child`'s last parent under a freshly issued entry id; returns its
    /// parent number.
    pub fn push_parent(&mut self, child: CommitIndex, parent: CommitIndex) -> (number: usize)
        requires
            old(self)@.valid(child),
            old(self)@.next_entry < usize::MAX,
        ensures
            number == old(self)@.parents(child).len(),
            final(self)@ == old(self)@.parent_pushed(child, parent),
            old(self)@.wf() && old(self)@.valid(parent) ==> final(self)@.wf(),
    {
        let ghost before = self@;
        let id = ParentEntryId(self.next_entry);
        let number = self.nodes[child.0].parents.len();
        self.nodes[child.0].parents.push(ParentSlot { target: parent, entry: id });
        self.next_entry = self.next_entry + 1;
        let ghost expected = before.nodes.update(
            child.0 as int,
            NodeModel {
                parents: before.parents(child).push(parent),
                entries: before.entries(child).push(id),
                ..before.nodes[child.0 as int]
            },
        );
        assert(self@.nodes[child.0 as int].parents =~= expected[child.0 as int].parents);
        assert(self@.nodes[child.0 as int].entries =~= expected[child.0 as int].entries);
        assert(self@.nodes =~= expected);
        number
    }

    /// Insert `parent` at parent number `number` of `child` (clamped to the array end) under a
    /// freshly issued entry id; later parent numbers shift up. Returns the number used.
    pub fn insert_parent(&mut self, child: CommitIndex, number: usize, parent: CommitIndex) -> (used: usize)
        requires
            old(self)@.valid(child),
            old(self)@.next_entry < usize::MAX,
        ensures
            used == (if number <= old(self)@.parents(child).len() { number as int } else { old(self)@.parents(child).len() as int }),
            final(self)@ == old(self)@.parent_inserted(child, used as int, parent),
            old(self)@.wf() && old(self)@.valid(parent) ==> final(self)@.wf(),
    {
        let ghost before = self@;
        let id = ParentEntryId(self.next_entry);
        let len = self.nodes[child.0].parents.len();
        let used = if number <= len { number } else { len };
        self.nodes[child.0].parents.insert(used, ParentSlot { target: parent, entry: id });
        self.next_entry = self.next_entry + 1;
        let ghost expected = before.nodes.update(
            child.0 as int,
            NodeModel {
                parents: before.parents(child).insert(used as int, parent),
                entries: before.entries(child).insert(used as int, id),
                ..before.nodes[child.0 as int]
            },
        );
        assert(self@.nodes[child.0 as int].parents =~= expected[child.0 as int].parents);
        assert(self@.nodes[child.0 as int].entries =~= expected[child.0 as int].entries);
        assert(self@.nodes =~= expected);
        proof {
            if before.wf() && before.valid(parent) {
                let n = self@.nodes;
                let ci = child.0 as int;
                assert forall|i: int, k: int, j: int, l: int|
                    0 <= i < n.len() && 0 <= k < n[i].entries.len()
                        && 0 <= j < n.len() && 0 <= l < n[j].entries.len()
                        && #[trigger] n[i].entries[k] == #[trigger] n[j].entries[l]
                        implies i == j && k == l by {
                    let bk = if i == ci && k > used { k - 1 } else { k };
                    let bl = if j == ci && l > used { l - 1 } else { l };
                    if !(i == ci && k == used) && !(j == ci && l == used) {
                        assert(n[i].entries[k] == before.nodes[i].entries[bk]);
                        assert(n[j].entries[l] == before.nodes[j].entries[bl]);
                    } else if i == ci && k == used && !(j == ci && l == used) {
                        assert(n[j].entries[l] == before.nodes[j].entries[bl]);
                    } else if !(i == ci && k == used) {
                        assert(n[i].entries[k] == before.nodes[i].entries[bk]);
                    }
                }
                assert forall|i: int, k: int| #![trigger n[i].parents[k]]
                    0 <= i < n.len() && 0 <= k < n[i].parents.len() implies n[i].parents[k].0 < n.len() by {
                    if i == ci && k != used {
                        let bk = if k > used { k - 1 } else { k };
                        assert(n[i].parents[k] == before.nodes[i].parents[bk]);
                    }
                }
                assert forall|i: int, k: int| #![trigger n[i].entries[k]]
                    0 <= i < n.len() && 0 <= k < n[i].entries.len() implies n[i].entries[k].0 < self@.next_entry by {
                    if i == ci && k != used {
                        let bk = if k > used { k - 1 } else { k };
                        assert(n[i].entries[k] == before.nodes[i].entries[bk]);
                    }
                }
            }
        }
        used
    }

    /// Remove `child`'s parent at `number`, returning its target and retired entry id; later
    /// parent numbers shift down. `None`, and nothing changes, when there is no such entry.
    pub fn remove_parent(&mut self, child: CommitIndex, number: usize) -> (removed: Option<(CommitIndex, ParentEntryId)>)
        ensures
            removed is Some <==> (old(self)@.valid(child) && number < old(self)@.parents(child).len()),
            removed is None ==> final(self)@ == old(self)@,
            removed is Some ==> {
                &&& (removed->0).0 == old(self)@.parents(child)[number as int]
                &&& (removed->0).1 == old(self)@.entries(child)[number as int]
                &&& final(self)@ == old(self)@.parent_removed(child, number as int)
            },
            old(self)@.wf() ==> final(self)@.wf(),
    {
        if child.0 >= self.nodes.len() || number >= self.nodes[child.0].parents.len() {
            return None;
        }
        let ghost before = self@;
        let slot = self.nodes[child.0].parents.remove(number);
        let ghost expected = before.nodes.update(
            child.0 as int,
            NodeModel {
                parents: before.parents(child).remove(number as int),
                entries: before.entries(child).remove(number as int),
                ..before.nodes[child.0 as int]
            },
        );
        assert(self@.nodes[child.0 as int].parents =~= expected[child.0 as int].parents);
        assert(self@.nodes[child.0 as int].entries =~= expected[child.0 as int].entries);
        assert(self@.nodes =~= expected);
        proof {
            if before.wf() {
                let n = self@.nodes;
                let ci = child.0 as int;
                assert forall|i: int, k: int, j: int, l: int|
                    0 <= i < n.len() && 0 <= k < n[i].entries.len()
                        && 0 <= j < n.len() && 0 <= l < n[j].entries.len()
                        && #[trigger] n[i].entries[k] == #[trigger] n[j].entries[l]
                        implies i == j && k == l by {
                    let bk = if i == ci && k >= number { k + 1 } else { k };
                    let bl = if j == ci && l >= number { l + 1 } else { l };
                    assert(n[i].entries[k] == before.nodes[i].entries[bk]);
                    assert(n[j].entries[l] == before.nodes[j].entries[bl]);
                }
                assert forall|i: int, k: int| #![trigger n[i].parents[k]]
                    0 <= i < n.len() && 0 <= k < n[i].parents.len() implies n[i].parents[k].0 < n.len() by {
                    let bk = if i == ci && k >= number { k + 1 } else { k };
                    assert(n[i].parents[k] == before.nodes[i].parents[bk]);
                }
                assert forall|i: int, k: int| #![trigger n[i].entries[k]]
                    0 <= i < n.len() && 0 <= k < n[i].entries.len() implies n[i].entries[k].0 < self@.next_entry by {
                    let bk = if i == ci && k >= number { k + 1 } else { k };
                    assert(n[i].entries[k] == before.nodes[i].entries[bk]);
                }
            }
        }
        Some((slot.target, slot.entry))
    }

    /// Re-point `child`'s parent at `number` onto `new_parent`; the entry keeps its id. Nothing
    /// changes when there is no such entry.
    pub fn replace_parent(&mut self, child: CommitIndex, number: usize, new_parent: CommitIndex)
        ensures
            final(self)@ == (if old(self)@.valid(child) && number < old(self)@.parents(child).len() {
                old(self)@.parent_replaced(child, number as int, new_parent)
            } else {
                old(self)@
            }),
            old(self)@.wf() && old(self)@.valid(new_parent) ==> final(self)@.wf(),
    {
        if child.0 >= self.nodes.len() || number >= self.nodes[child.0].parents.len() {
            return;
        }
        let ghost before = self@;
        self.nodes[child.0].parents[number].target = new_parent;
        let ghost expected = before.nodes.update(
            child.0 as int,
            NodeModel {
                parents: before.parents(child).update(number as int, new_parent),
                ..before.nodes[child.0 as int]
            },
        );
        assert(self@.nodes[child.0 as int].parents =~= expected[child.0 as int].parents);
        assert(self@.nodes[child.0 as int].entries =~= expected[child.0 as int].entries);
        assert(self@.nodes =~= expected);
    }

    /// Empty `child`'s parent array, returning each parent with its retired entry id, in order.
    pub fn drain_parents(&mut self, child: CommitIndex) -> (drained: Vec<(CommitIndex, ParentEntryId)>)
        requires
            old(self)@.valid(child),
        ensures
            drained@.len() == old(self)@.parents(child).len(),
            forall|k: int| 0 <= k < drained@.len() ==> #[trigger] drained@[k] == (
                old(self)@.parents(child)[k],
                old(self)@.entries(child)[k],
            ),
            final(self)@ == old(self)@.parents_set(child, Seq::empty(), Seq::empty()),
            old(self)@.wf() ==> final(self)@.wf(),
    {
        let ghost before = self@;
        let mut out: Vec<(CommitIndex, ParentEntryId)> = Vec::new();
        let len = self.nodes[child.0].parents.len();
        let mut k: usize = 0;
        while k < len
            invariant
                self@ == before,
                child.0 < self.nodes.len(),
                len == self.nodes@[child.0 as int].parents.len(),
                k <= len,
                out@.len() == k,
                forall|j: int| 0 <= j < k ==> #[trigger] out@[j] == (before.parents(child)[j], before.entries(child)[j]),
            decreases len - k,
        {
            let slot = &self.nodes[child.0].parents[k];
            out.push((slot.target, slot.entry));
            k = k + 1;
        }
        self.nodes[child.0].parents = Vec::new();
        let ghost expected = before.nodes.update(
            child.0 as int,
            NodeModel { parents: Seq::empty(), entries: Seq::empty(), ..before.nodes[child.0 as int] },
        );
        assert(self@.nodes[child.0 as int].parents =~= expected[child.0 as int].parents);
        assert(self@.nodes[child.0 as int].entries =~= expected[child.0 as int].entries);
        assert(self@.nodes =~= expected);
        out
    }

    /// Move `from`'s whole parent array onto `to`, which has none; the entries keep their ids.
    pub fn transplant_parents(&mut self, from: CommitIndex, to: CommitIndex)
        requires
            old(self)@.valid(from),
            old(self)@.valid(to),
            from != to,
            old(self)@.parents(to).len() == 0,
        ensures
            final(self)@ == old(self)@.parents_transplanted(from, to),
            old(self)@.wf() ==> final(self)@.wf(),
    {
        let ghost before = self@;
        let mut moved: Vec<ParentSlot> = Vec::new();
        std::mem::swap(&mut moved, &mut self.nodes[from.0].parents);
        self.nodes[to.0].parents = moved;
        let ghost expected = before.nodes.update(
            to.0 as int,
            NodeModel { parents: before.parents(from), entries: before.entries(from), ..before.nodes[to.0 as int] },
        ).update(
            from.0 as int,
            NodeModel { parents: Seq::empty(), entries: Seq::empty(), ..before.nodes[from.0 as int] },
        );
        assert(self@.nodes[from.0 as int].parents =~= expected[from.0 as int].parents);
        assert(self@.nodes[from.0 as int].entries =~= expected[from.0 as int].entries);
        assert(self@.nodes =~= expected);
        proof {
            if before.wf() {
                let n = self@.nodes;
                let fi = from.0 as int;
                let ti = to.0 as int;
                assert forall|i: int, k: int, j: int, l: int|
                    0 <= i < n.len() && 0 <= k < n[i].entries.len()
                        && 0 <= j < n.len() && 0 <= l < n[j].entries.len()
                        && #[trigger] n[i].entries[k] == #[trigger] n[j].entries[l]
                        implies i == j && k == l by {
                    let bi = if i == ti { fi } else { i };
                    let bj = if j == ti { fi } else { j };
                    assert(n[i].entries[k] == before.nodes[bi].entries[k]);
                    assert(n[j].entries[l] == before.nodes[bj].entries[l]);
                }
                assert forall|i: int, k: int| #![trigger n[i].parents[k]]
                    0 <= i < n.len() && 0 <= k < n[i].parents.len() implies n[i].parents[k].0 < n.len() by {
                    let bi = if i == ti { fi } else { i };
                    assert(n[i].parents[k] == before.nodes[bi].parents[k]);
                }
                assert forall|i: int, k: int| #![trigger n[i].entries[k]]
                    0 <= i < n.len() && 0 <= k < n[i].entries.len() implies n[i].entries[k].0 < self@.next_entry by {
                    let bi = if i == ti { fi } else { i };
                    assert(n[i].entries[k] == before.nodes[bi].entries[k]);
                }
            }
        }
    }

    /// Re-target every parent entry naming `from` onto `to`; parent numbers and entry ids stay.
    pub fn redirect_children(&mut self, from: CommitIndex, to: CommitIndex)
        ensures
            old(self)@.children_redirected(final(self)@, from, to),
            old(self)@.wf() && old(self)@.valid(to) ==> final(self)@.wf(),
    {
        let ghost before = self@;
        let mut i: usize = 0;
        while i < self.nodes.len()
            invariant
                i <= self.nodes.len(),
                self@.next_entry == before.next_entry,
                self@.nodes.len() == before.nodes.len(),
                forall|j: int| #![trigger self@.nodes[j]] 0 <= j < self@.nodes.len() ==> {
                    &&& self@.nodes[j].commit == before.nodes[j].commit
                    &&& self@.nodes[j].entries == before.nodes[j].entries
                    &&& self@.nodes[j].parents == if j < i {
                        before.nodes[j].parents.map_values(|p: CommitIndex| if p == from { to } else { p })
                    } else {
                        before.nodes[j].parents
                    }
                },
            decreases self.nodes.len() - i,
        {
            let len = self.nodes[i].parents.len();
            let mut k: usize = 0;
            while k < len
                invariant
                    i < self.nodes.len(),
                    k <= len,
                    len == self.nodes@[i as int].parents.len(),
                    self@.next_entry == before.next_entry,
                    self@.nodes.len() == before.nodes.len(),
                    self@.nodes[i as int].commit == before.nodes[i as int].commit,
                    self@.nodes[i as int].entries == before.nodes[i as int].entries,
                    self@.nodes[i as int].parents.len() == before.nodes[i as int].parents.len(),
                    forall|l: int| 0 <= l < len ==> #[trigger] self@.nodes[i as int].parents[l] == if l < k {
                        if before.nodes[i as int].parents[l] == from { to } else { before.nodes[i as int].parents[l] }
                    } else {
                        before.nodes[i as int].parents[l]
                    },
                    forall|j: int| #![trigger self@.nodes[j]] 0 <= j < self@.nodes.len() && j != i ==> {
                        &&& self@.nodes[j].commit == before.nodes[j].commit
                        &&& self@.nodes[j].entries == before.nodes[j].entries
                        &&& self@.nodes[j].parents == if j < i {
                            before.nodes[j].parents.map_values(|p: CommitIndex| if p == from { to } else { p })
                        } else {
                            before.nodes[j].parents
                        }
                    },
                decreases len - k,
            {
                let ghost mid = self@;
                if self.nodes[i].parents[k].target == from {
                    self.nodes[i].parents[k].target = to;
                    assert(self@.nodes[i as int].parents =~= mid.nodes[i as int].parents.update(k as int, to));
                }
                assert(forall|j: int| 0 <= j < self@.nodes.len() && j != i ==> #[trigger] self@.nodes[j] == mid.nodes[j]);
                assert(self@.nodes[i as int].entries =~= mid.nodes[i as int].entries);
                assert forall|l: int| 0 <= l < len implies #[trigger] self@.nodes[i as int].parents[l] == if l < k + 1 {
                    if before.nodes[i as int].parents[l] == from { to } else { before.nodes[i as int].parents[l] }
                } else {
                    before.nodes[i as int].parents[l]
                } by {
                    assert(mid.nodes[i as int].parents[l] == if l < k {
                        if before.nodes[i as int].parents[l] == from { to } else { before.nodes[i as int].parents[l] }
                    } else {
                        before.nodes[i as int].parents[l]
                    });
                }
                k = k + 1;
            }
            assert(self@.nodes[i as int].parents =~= before.nodes[i as int].parents.map_values(
                |p: CommitIndex| if p == from { to } else { p }));
            i = i + 1;
        }
        proof {
            if before.wf() && before.valid(to) {
                let n = self@.nodes;
                assert forall|i: int, k: int, j: int, l: int|
                    0 <= i < n.len() && 0 <= k < n[i].entries.len()
                        && 0 <= j < n.len() && 0 <= l < n[j].entries.len()
                        && #[trigger] n[i].entries[k] == #[trigger] n[j].entries[l]
                        implies i == j && k == l by {
                    assert(n[i].entries == before.nodes[i].entries);
                    assert(n[j].entries == before.nodes[j].entries);
                }
                assert forall|i: int, k: int| #![trigger n[i].parents[k]]
                    0 <= i < n.len() && 0 <= k < n[i].parents.len() implies n[i].parents[k].0 < n.len() by {
                    assert(n[i] == self@.nodes[i]);
                    assert(before.nodes[i].parents.len() == before.nodes[i].entries.len());
                }
                assert forall|i: int| #![trigger n[i]] 0 <= i < n.len() implies n[i].parents.len() == n[i].entries.len() by {
                    assert(before.nodes[i].parents.len() == before.nodes[i].entries.len());
                }
                assert forall|i: int, k: int| #![trigger n[i].entries[k]]
                    0 <= i < n.len() && 0 <= k < n[i].entries.len() implies n[i].entries[k].0 < self@.next_entry by {
                    assert(n[i].entries == before.nodes[i].entries);
                }
            }
        }
    }

    /// All node indices (commits and tombstones), ascending.
    pub fn commit_indices(&self) -> (indices: Vec<CommitIndex>)
        ensures
            indices@ == Seq::new(self@.nodes.len(), |i: int| CommitIndex(i as usize)),
    {
        let mut out: Vec<CommitIndex> = Vec::new();
        let mut i: usize = 0;
        while i < self.nodes.len()
            invariant
                i <= self.nodes.len(),
                out@ == Seq::new(i as nat, |j: int| CommitIndex(j as usize)),
            decreases self.nodes.len() - i,
        {
            out.push(CommitIndex(i));
            i = i + 1;
            assert(out@ =~= Seq::new(i as nat, |j: int| CommitIndex(j as usize)));
        }
        out
    }

    /// The nodes that no node lists as a parent — the childless tips, ascending.
    pub fn tips(&self) -> (tips: Vec<CommitIndex>)
        ensures
            forall|i: int, j: int| 0 <= i < j < tips@.len() ==> (#[trigger] tips@[i]).0 < (#[trigger] tips@[j]).0,
            forall|c: CommitIndex| #[trigger] tips@.contains(c) <==> (self@.valid(c) && forall|e: ParentEntry|
                !(#[trigger] self@.is_incoming(c, e))),
    {
        let n = self.nodes.len();
        let mut has_child: Vec<bool> = Vec::new();
        let mut i: usize = 0;
        while i < n
            invariant
                n == self.nodes.len(),
                i <= n,
                has_child@.len() == i,
                forall|j: int| 0 <= j < i ==> !(#[trigger] has_child@[j]),
            decreases n - i,
        {
            has_child.push(false);
            i = i + 1;
        }
        let mut c: usize = 0;
        while c < n
            invariant
                n == self.nodes.len(),
                c <= n,
                has_child@.len() == n,
                forall|t: int| 0 <= t < n ==> (#[trigger] has_child@[t] <==> exists|e: ParentEntry|
                    #[trigger] self@.is_incoming(CommitIndex(t as usize), e) && e.child.0 < c),
            decreases n - c,
        {
            let len = self.nodes[c].parents.len();
            let mut k: usize = 0;
            while k < len
                invariant
                    n == self.nodes.len(),
                    c < n,
                    k <= len,
                    len == self.nodes@[c as int].parents.len(),
                    self@.parents(CommitIndex(c)) == self.nodes@[c as int].parents@.map_values(|s: ParentSlot| s.target),
                    has_child@.len() == n,
                    forall|t: int| 0 <= t < n ==> (#[trigger] has_child@[t] <==> exists|e: ParentEntry|
                        #[trigger] self@.is_incoming(CommitIndex(t as usize), e) && (e.child.0 < c || (e.child.0 == c && e.number < k))),
                decreases len - k,
            {
                let target = self.nodes[c].parents[k].target;
                let ghost prev = has_child@;
                let ghost witness = ParentEntry { child: CommitIndex(c), number: k };
                assert(self@.is_incoming(target, witness));
                if target.0 < n {
                    has_child.set(target.0, true);
                }
                assert forall|t: int| 0 <= t < n implies (#[trigger] has_child@[t] <==> exists|e: ParentEntry|
                    #[trigger] self@.is_incoming(CommitIndex(t as usize), e) && (e.child.0 < c || (e.child.0 == c && e.number < k + 1))) by {
                    if t == target.0 {
                        assert(CommitIndex(t as usize) == target);
                    } else {
                        assert(has_child@[t] == prev[t]);
                        if exists|e: ParentEntry| #[trigger] self@.is_incoming(CommitIndex(t as usize), e) && (e.child.0 < c || (e.child.0 == c && e.number < k + 1)) {
                            let e = choose|e: ParentEntry| #[trigger] self@.is_incoming(CommitIndex(t as usize), e) && (e.child.0 < c || (e.child.0 == c && e.number < k + 1));
                            if e.child.0 == c && e.number == k {
                                assert(self@.parents(CommitIndex(c))[k as int] == target);
                            }
                        }
                    }
                }
                k = k + 1;
            }
            c = c + 1;
        }
        let mut out: Vec<CommitIndex> = Vec::new();
        let mut t: usize = 0;
        while t < n
            invariant
                n == self.nodes.len(),
                t <= n,
                has_child@.len() == n,
                forall|u: int| 0 <= u < n ==> (#[trigger] has_child@[u] <==> exists|e: ParentEntry|
                    #[trigger] self@.is_incoming(CommitIndex(u as usize), e)),
                forall|i: int, j: int| 0 <= i < j < out@.len() ==> (#[trigger] out@[i]).0 < (#[trigger] out@[j]).0,
                forall|i: int| 0 <= i < out@.len() ==> (#[trigger] out@[i]).0 < t,
                forall|x: CommitIndex| #[trigger] out@.contains(x) <==> (x.0 < t && !has_child@[x.0 as int]),
            decreases n - t,
        {
            if !has_child[t] {
                let ghost prev = out@;
                out.push(CommitIndex(t));
                assert forall|x: CommitIndex| #[trigger] out@.contains(x) <==> (x.0 < t + 1 && !has_child@[x.0 as int]) by {
                    if x == CommitIndex(t) {
                        assert(out@[prev.len() as int] == x);
                    } else if out@.contains(x) {
                        let j = choose|j: int| 0 <= j < out@.len() && out@[j] == x;
                        assert(prev.contains(x));
                    } else if x.0 < t && !has_child@[x.0 as int] {
                        assert(prev.contains(x));
                        let j = choose|j: int| 0 <= j < prev.len() && prev[j] == x;
                        assert(out@[j] == x);
                    }
                }
            }
            t = t + 1;
        }
        assert forall|x: CommitIndex| #[trigger] out@.contains(x) <==> (self@.valid(x) && forall|e: ParentEntry|
            !(#[trigger] self@.is_incoming(x, e))) by {
            if self@.valid(x) {
                assert(CommitIndex(x.0 as usize) == x);
                assert(has_child@[x.0 as int] <==> exists|e: ParentEntry| #[trigger] self@.is_incoming(x, e));
            }
        }
        out
    }

    /// The stable id of the live parent entry at `(child, number)`, if it exists.
    pub fn entry_id_at(&self, child: CommitIndex, number: usize) -> (id: Option<ParentEntryId>)
        ensures
            id == self@.entry_id_at(child, number as int),
    {
        if child.0 < self.nodes.len() && number < self.nodes[child.0].parents.len() {
            Some(self.nodes[child.0].parents[number].entry)
        } else {
            None
        }
    }
}

/// Carry statements name parent entries by stable id, so renumbering never touches them:
/// inserting a parent shifts the later entries up with their ids, removing one shifts them down
/// with their ids, re-pointing one keeps its id, and an inserted entry takes a fresh id that no
/// entry held before — an unrelated entry at old coordinates cannot revive a statement.
pub proof fn law_entry_ids_follow_renumbering(m: ArenaModel, child: CommitIndex, at: int, target: CommitIndex, k: int)
    requires
        m.wf(),
        m.valid(child),
        m.next_entry <= usize::MAX,
        0 <= at <= m.parents(child).len(),
        0 <= k < m.parents(child).len(),
    ensures
        ({
            let ins = m.parent_inserted(child, at, target);
            let shifted = if k < at { k } else { k + 1 };
            &&& ins.entries(child)[shifted] == m.entries(child)[k]
            &&& ins.parents(child)[shifted] == m.parents(child)[k]
            &&& ins.entries(child)[at] == m.fresh_id()
            &&& !m.holds_entry_id(m.fresh_id())
        }),
        at < m.parents(child).len() && k != at ==> ({
            let rem = m.parent_removed(child, at);
            let shifted = if k < at { k } else { k - 1 };
            &&& rem.entries(child)[shifted] == m.entries(child)[k]
            &&& rem.parents(child)[shifted] == m.parents(child)[k]
        }),
        at < m.parents(child).len() ==> ({
            let rep = m.parent_replaced(child, at, target);
            &&& rep.entries(child) == m.entries(child)
            &&& rep.parents(child)[at] == target
        }),
{
    if m.holds_entry_id(m.fresh_id()) {
        let (i, j) = choose|i: int, j: int|
            0 <= i < m.nodes.len() && 0 <= j < m.nodes[i].entries.len() && #[trigger] m.nodes[i].entries[j] == m.fresh_id();
        assert(m.nodes[i].entries[j].0 < m.next_entry);
    }
    assert(m.nodes[child.0 as int].parents.len() == m.nodes[child.0 as int].entries.len());
}

} // verus!
