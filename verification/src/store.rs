//! The editor's store, in two halves. The commit half is the [`CommitArena`]: the owned
//! commit graph with ordered parent arrays and stable parent-entry ids, knowing nothing of
//! references. This module holds the reference half — the reference table and the position
//! layout — plus [`EditorStore`], which composes the two and owns every method that reads
//! across them. Nothing is ever deleted on either side (commits and references tombstone in
//! place), so indices stay valid for the store's whole life.
use vstd::prelude::*;

use crate::commits::{
    ArenaModel, CommitArena, CommitId, CommitIndex, CommitModel, CommitSpec, NodeModel,
    ParentEntry, ParentEntryId, copy_bytes,
};

verus! {

/// The stable identifier of an editor-graph entry, in one of two namespaces: `Commit` points
/// into the commit arena (its parent list is its truth), `Ref` into the reference table (a
/// position is its truth).
#[derive(Debug, Clone, Copy, PartialEq, Eq, Structural, Hash, PartialOrd, Ord)]
pub enum EditorIndex {
    /// A commit or its tombstone in the commit arena.
    Commit(CommitIndex),
    /// A reference (live or tombstoned) in the reference table.
    Ref(RefIndex),
}

/// An entry in the reference table, live or tombstoned.
#[derive(Debug, Clone, Copy, PartialEq, Eq, Structural, Hash, PartialOrd, Ord)]
pub struct RefIndex(pub usize);

impl EditorIndex {
    /// The commit-arena index, when this addresses a commit or tombstone.
    pub fn as_commit(self) -> (r: Option<CommitIndex>)
        ensures
            r == (match self {
                EditorIndex::Commit(i) => Some(i),
                EditorIndex::Ref(_) => None::<CommitIndex>,
            }),
    {
        match self {
            EditorIndex::Commit(i) => Some(i),
            EditorIndex::Ref(_) => None,
        }
    }

    /// The reference-table index, when this addresses a reference.
    pub fn as_ref(self) -> (r: Option<RefIndex>)
        ensures
            r == (match self {
                EditorIndex::Ref(i) => Some(i),
                EditorIndex::Commit(_) => None::<RefIndex>,
            }),
    {
        match self {
            EditorIndex::Ref(i) => Some(i),
            EditorIndex::Commit(_) => None,
        }
    }

    /// The commit index `n` as an editor index.
    pub fn from_commit(n: CommitIndex) -> (r: EditorIndex)
        ensures
            r == EditorIndex::Commit(n),
    {
        EditorIndex::Commit(n)
    }

    /// The reference index `r` as an editor index.
    pub fn from_ref(r: RefIndex) -> (e: EditorIndex)
        ensures
            e == EditorIndex::Ref(r),
    {
        EditorIndex::Ref(r)
    }

    /// A short label: `r` and the number for a reference, the number alone for a commit.
    pub fn label(self) -> (s: String)
        ensures
            s@ == match self {
                EditorIndex::Commit(i) => decimal(i.0 as nat),
                EditorIndex::Ref(i) => seq!['r'] + decimal(i.0 as nat),
            },
    {
        match self {
            EditorIndex::Commit(i) => decimal_text(i.0),
            EditorIndex::Ref(i) => {
                let digits = decimal_text(i.0);
                let mut label = String::from_str("r");
                proof {
                    reveal_strlit("r");
                }
                label.append(digits.as_str());
                label
            },
        }
    }
}

impl From<CommitIndex> for EditorIndex {
    fn from(n: CommitIndex) -> (e: EditorIndex) {
        EditorIndex::Commit(n)
    }
}

impl vstd::std_specs::convert::FromSpecImpl<CommitIndex> for EditorIndex {
    open spec fn obeys_from_spec() -> bool {
        true
    }

    open spec fn from_spec(n: CommitIndex) -> EditorIndex {
        EditorIndex::Commit(n)
    }
}

impl From<RefIndex> for EditorIndex {
    fn from(r: RefIndex) -> (e: EditorIndex) {
        EditorIndex::Ref(r)
    }
}

impl vstd::std_specs::convert::FromSpecImpl<RefIndex> for EditorIndex {
    open spec fn obeys_from_spec() -> bool {
        true
    }

    open spec fn from_spec(r: RefIndex) -> EditorIndex {
        EditorIndex::Ref(r)
    }
}

/// The character of the decimal digit `d`.
pub open spec fn digit(d: nat) -> char {
    if d == 0 { '0' }
    else if d == 1 { '1' }
    else if d == 2 { '2' }
    else if d == 3 { '3' }
    else if d == 4 { '4' }
    else if d == 5 { '5' }
    else if d == 6 { '6' }
    else if d == 7 { '7' }
    else if d == 8 { '8' }
    else { '9' }
}

/// `n` written in decimal, without leading zeros.
pub open spec fn decimal(n: nat) -> Seq<char>
    decreases n,
{
    if n < 10 {
        seq![digit(n)]
    } else {
        decimal(n / 10).push(digit(n % 10))
    }
}

/// `n` in decimal, as `std::fmt` writes a `usize` (`format!("{n}")`): its digits, most
/// significant first, without leading zeros.
#[verifier::external_body]
fn decimal_text(n: usize) -> (s: String)
    ensures
        s@ == decimal(n as nat),
{
    format!("{n}")
}

/// The full name of a reference, as bytes.
#[derive(Debug, Clone, PartialEq, Eq, Hash)]
pub struct RefName {
    pub bytes: Vec<u8>,
}

impl View for RefName {
    type V = Seq<u8>;

    open spec fn view(&self) -> Seq<u8> {
        self.bytes@
    }
}

impl RefName {
    /// A reference name with the given bytes.
    pub fn from_bytes(bytes: Vec<u8>) -> (name: RefName)
        ensures
            name@ == bytes@,
    {
        RefName { bytes }
    }

    /// An independent copy of this name.
    pub fn duplicate(&self) -> (name: RefName)
        ensures
            name@ == self@,
    {
        RefName { bytes: copy_bytes(&self.bytes) }
    }

    /// Whether both names hold the same bytes.
    pub fn same_as(&self, other: &RefName) -> (r: bool)
        ensures
            r == (self@ == other@),
    {
        let r = self.bytes == other.bytes;
        proof {
            if r {
                assert(self@ =~= other@);
            }
        }
        r
    }
}

/// A group's claim over the parent entries coming into the commit it stands on.
#[derive(Debug, Clone, PartialEq, Eq)]
pub enum GroupCarry {
    /// A root group: nothing enters through it.
    Root,
    /// Every entry into the commit, present and future.
    All,
    /// Exactly the listed parent entries, by stable id.
    Entries(Vec<ParentEntryId>),
}

/// The mathematical value of a [`GroupCarry`].
pub enum CarryModel {
    Root,
    All,
    Entries(Seq<ParentEntryId>),
}

impl GroupCarry {
    pub open spec fn model(&self) -> CarryModel {
        match self {
            GroupCarry::Root => CarryModel::Root,
            GroupCarry::All => CarryModel::All,
            GroupCarry::Entries(v) => CarryModel::Entries(v@),
        }
    }

    /// An independent copy of this carry.
    pub fn duplicate(&self) -> (c: GroupCarry)
        ensures
            c.model() == self.model(),
    {
        match self {
            GroupCarry::Root => GroupCarry::Root,
            GroupCarry::All => GroupCarry::All,
            GroupCarry::Entries(v) => GroupCarry::Entries(copy_entry_ids(v)),
        }
    }
}

/// A copy of a list of entry ids.
pub fn copy_entry_ids(ids: &Vec<ParentEntryId>) -> (out: Vec<ParentEntryId>)
    ensures
        out@ == ids@,
{
    let mut out: Vec<ParentEntryId> = Vec::new();
    let mut i: usize = 0;
    while i < ids.len()
        invariant
            i <= ids.len(),
            out@ == ids@.take(i as int),
        decreases ids.len() - i,
    {
        out.push(ids[i]);
        i = i + 1;
        assert(out@ =~= ids@.take(i as int));
    }
    assert(out@ =~= ids@);
    out
}

/// Where a reference stands: the stored key (a commit, or its tombstone after deletion), the
/// reference directly underneath it (`None` when it sits directly on the commit), and the
/// carry of its group.
#[derive(Debug, Clone, PartialEq, Eq)]
pub struct RefPosition {
    pub on: CommitIndex,
    pub below: Option<RefIndex>,
    pub carry: GroupCarry,
}

/// The mathematical value of a [`RefPosition`].
pub struct PositionModel {
    pub on: CommitIndex,
    pub below: Option<RefIndex>,
    pub carry: CarryModel,
}

impl RefPosition {
    pub open spec fn model(&self) -> PositionModel {
        PositionModel { on: self.on, below: self.below, carry: self.carry.model() }
    }
}

/// A run of references on one key sharing one carry, bottom to top; the bottom member sits on
/// `attach` (`None`: directly on the commit), every other member on the one before it.
pub struct RefGroup {
    pub members: Vec<RefIndex>,
    pub carry: GroupCarry,
    pub attach: Option<RefIndex>,
}

impl RefGroup {
    pub open spec fn model(&self) -> GroupModel {
        GroupModel { members: self.members@, carry: self.carry.model(), attach: self.attach }
    }
}

/// The models of `groups`, in order.
pub open spec fn groups_model(groups: Seq<RefGroup>) -> Seq<GroupModel> {
    Seq::new(groups.len(), |g: int| groups[g].model())
}

/// One reference's editor state: name, the name it had on disk when the editor was created
/// (`None` for references created mid-session and for immutable ones), mutability, liveness,
/// and whether more than one thing converged on its position.
#[derive(Debug, Clone, PartialEq, Eq)]
pub struct RefState {
    pub refname: RefName,
    pub created_as: Option<RefName>,
    pub mutable: bool,
    pub live: bool,
    pub ambiguous: bool,
}

/// The model of one reference record together with its position.
pub struct RefModel {
    pub name: Seq<u8>,
    pub created_as: Option<Seq<u8>>,
    pub mutable: bool,
    pub live: bool,
    pub ambiguous: bool,
    pub position: Option<PositionModel>,
}

pub open spec fn name_model(n: Option<RefName>) -> Option<Seq<u8>> {
    match n {
        Some(n) => Some(n@),
        None => None,
    }
}

pub open spec fn position_model(p: Option<RefPosition>) -> Option<PositionModel> {
    match p {
        Some(p) => Some(p.model()),
        None => None,
    }
}

/// What a live parent of the managed workspace commit is, for the write rule.
#[derive(Debug, Clone, Copy, PartialEq, Eq, Structural)]
pub enum WsParentKind {
    /// An ingested on-disk parent whose entry is untouched — written verbatim.
    Faithful,
    /// An ingested amended entry declaring an empty lane, entry untouched — never written.
    Minted,
    /// Produced or re-hung by surgery.
    Surgical,
}

/// The model of the whole store.
pub struct StoreModel {
    pub arena: ArenaModel,
    pub refs: Seq<RefModel>,
    pub ws_real_parents: Seq<(ParentEntryId, CommitIndex)>,
    pub ws_minted_parents: Seq<(ParentEntryId, CommitIndex)>,
}

impl StoreModel {
    pub open spec fn ref_valid(self, r: RefIndex) -> bool {
        r.0 < self.refs.len()
    }

    /// The entry is known to the store (live or tombstoned).
    pub open spec fn contains(self, e: EditorIndex) -> bool {
        match e {
            EditorIndex::Commit(c) => self.arena.valid(c),
            EditorIndex::Ref(r) => self.ref_valid(r),
        }
    }

    pub open spec fn is_commit(self, e: EditorIndex) -> bool {
        match e {
            EditorIndex::Commit(c) => self.arena.is_commit(c),
            EditorIndex::Ref(_) => false,
        }
    }

    /// `e` names a live (not deleted) reference.
    pub open spec fn is_reference(self, e: EditorIndex) -> bool {
        match e {
            EditorIndex::Ref(r) => self.ref_valid(r) && self.refs[r.0 as int].live,
            EditorIndex::Commit(_) => false,
        }
    }

    /// The ordered parents of `e`; references have none.
    pub open spec fn parents(self, e: EditorIndex) -> Seq<CommitIndex> {
        match e {
            EditorIndex::Commit(c) => self.arena.parents(c),
            EditorIndex::Ref(_) => Seq::empty(),
        }
    }

    pub open spec fn position(self, r: RefIndex) -> Option<PositionModel> {
        if self.ref_valid(r) {
            self.refs[r.0 as int].position
        } else {
            None
        }
    }

    /// The stored key the reference stands on; `None` until placed.
    pub open spec fn positioned_on(self, r: RefIndex) -> Option<CommitIndex> {
        match self.position(r) {
            Some(p) => Some(p.on),
            None => None,
        }
    }

    pub open spec fn is_positioned(self, r: RefIndex) -> bool {
        self.position(r) is Some
    }

    /// The reference directly underneath `r` in its stack.
    pub open spec fn below_of(self, r: RefIndex) -> Option<RefIndex> {
        match self.position(r) {
            Some(p) => p.below,
            None => None,
        }
    }

    pub open spec fn carry_of(self, r: RefIndex) -> Option<CarryModel> {
        match self.position(r) {
            Some(p) => Some(p.carry),
            None => None,
        }
    }

    /// No two records, live or dead, share a name.
    pub open spec fn names_unique(self) -> bool {
        forall|i: int, j: int|
            0 <= i < self.refs.len() && 0 <= j < self.refs.len() && i != j
                ==> #[trigger] self.refs[i].name != #[trigger] self.refs[j].name
    }

    /// Every stored position names a node of the arena, and every stored `below` a record.
    pub open spec fn positions_in_range(self) -> bool {
        forall|i: int| #![trigger self.refs[i]] 0 <= i < self.refs.len() && self.refs[i].position is Some ==> {
            &&& self.arena.valid(self.refs[i].position->0.on)
            &&& match self.refs[i].position->0.below {
                Some(b) => self.ref_valid(b),
                None => true,
            }
        }
    }

    /// The store's invariant.
    pub open spec fn wf(self) -> bool {
        &&& self.arena.wf()
        &&& self.names_unique()
        &&& self.positions_in_range()
    }

    /// This store with its commit half replaced by `arena`.
    pub open spec fn with_arena(self, arena: ArenaModel) -> StoreModel {
        StoreModel { arena, ..self }
    }

    /// This store with the record at `r` replaced.
    pub open spec fn with_ref(self, r: RefIndex, m: RefModel) -> StoreModel {
        StoreModel { refs: self.refs.update(r.0 as int, m), ..self }
    }

    /// The below walk from `cursor` meets `target` within `fuel` further steps.
    pub open spec fn chain_hits(self, cursor: Option<RefIndex>, target: RefIndex, fuel: nat) -> bool
        decreases fuel,
    {
        match cursor {
            None => false,
            Some(b) => b == target || (fuel > 0 && self.chain_hits(self.below_of(b), target, (fuel - 1) as nat)),
        }
    }

    /// `r` rides on `entry`: its below walk passes through `entry`.
    pub open spec fn rides_on(self, r: RefIndex, entry: RefIndex) -> bool {
        self.chain_hits(self.below_of(r), entry, crate::positions::WALK_LIMIT as nat)
    }

    /// The position of record `i` once `entry` is placed at `p`: `entry` takes `p`, and every
    /// reference riding on it moves to the same key, keeping the rest of its position.
    pub open spec fn placed_position(self, i: int, entry: RefIndex, p: PositionModel) -> Option<PositionModel> {
        if i == entry.0 {
            Some(p)
        } else {
            match self.refs[i].position {
                Some(q) => if self.rides_on(RefIndex(i as usize), entry) {
                    Some(PositionModel { on: p.on, ..q })
                } else {
                    Some(q)
                },
                None => None,
            }
        }
    }

    /// This store with `entry` placed at `p`, its riders following it.
    pub open spec fn placed(self, entry: RefIndex, p: PositionModel) -> StoreModel {
        StoreModel {
            refs: Seq::new(
                self.refs.len(),
                |i: int| RefModel { position: self.placed_position(i, entry, p), ..self.refs[i] },
            ),
            ..self
        }
    }

    /// This store with the convergence flag of `r` set to `ambiguous`.
    pub open spec fn with_ambiguous(self, r: RefIndex, ambiguous: bool) -> StoreModel {
        self.with_ref(r, RefModel { ambiguous, ..self.refs[r.0 as int] })
    }

    /// This store with `entry` spliced out of its stack: everything stacked directly on it
    /// re-hangs onto what it sat on; `entry` keeps its own position. Nothing changes for an
    /// unplaced `entry`.
    pub open spec fn spliced(self, entry: RefIndex) -> StoreModel {
        if !self.is_positioned(entry) {
            self
        } else {
            StoreModel {
                refs: Seq::new(
                    self.refs.len(),
                    |i: int| RefModel {
                        position: match self.refs[i].position {
                            Some(q) => if i != entry.0 && q.below == Some(entry) {
                                Some(PositionModel { below: self.below_of(entry), ..q })
                            } else {
                                Some(q)
                            },
                            None => None,
                        },
                        ..self.refs[i]
                    },
                ),
                ..self
            }
        }
    }

    /// The record carrying `name`, if any.
    pub open spec fn has_name(self, name: Seq<u8>) -> bool {
        exists|i: int| 0 <= i < self.refs.len() && #[trigger] self.refs[i].name == name
    }
}

/// `s` is strictly ascending by index — sorted, without duplicates.
pub open spec fn refs_ascending(s: Seq<RefIndex>) -> bool {
    forall|i: int, j: int| 0 <= i < j < s.len() ==> (#[trigger] s[i]).0 < (#[trigger] s[j]).0
}

/// The record a fresh reference starts with.
pub open spec fn fresh_record(name: Seq<u8>, mutable: bool, existed_at_creation: bool) -> RefModel {
    RefModel {
        name,
        created_as: if existed_at_creation && mutable { Some(name) } else { None },
        mutable,
        live: true,
        ambiguous: false,
        position: None,
    }
}

/// The creation-time names held by `refs`, in order.
pub open spec fn creation_names(refs: Seq<RefModel>) -> Seq<Seq<u8>>
    decreases refs.len(),
{
    if refs.len() == 0 {
        Seq::empty()
    } else {
        let rest = creation_names(refs.drop_last());
        match refs.last().created_as {
            Some(n) => rest.push(n),
            None => rest,
        }
    }
}

/// `carry` with a statement naming exactly the whole live entry set of `key`'s commit
/// re-stated as `All`; any other carry as it is.
pub open spec fn normalized(m: StoreModel, key: CommitIndex, carry: CarryModel) -> CarryModel {
    match carry {
        CarryModel::Entries(s) => match crate::positions::resolve_key(m, key) {
            Some(c) => if crate::positions::live_ids(m, c).len() > 0 && s == crate::positions::live_ids(m, c) {
                CarryModel::All
            } else {
                carry
            },
            None => carry,
        },
        _ => carry,
    }
}

/// `s` is strictly ascending by id.
pub open spec fn ids_ascending(s: Seq<ParentEntryId>) -> bool {
    forall|i: int, j: int| 0 <= i < j < s.len() ==> (#[trigger] s[i]).0 < (#[trigger] s[j]).0
}

/// The stable ids of the entries in `entering` that are live parent entries of `m`.
pub open spec fn stated_ids(m: StoreModel, entering: Seq<ParentEntry>) -> Set<ParentEntryId> {
    Set::new(|id: ParentEntryId| exists|k: int| 0 <= k < entering.len()
        && #[trigger] m.arena.entry_id_at(entering[k].child, entering[k].number as int) == Some(id))
}

/// The live incoming entries of what `on` resolves to.
pub open spec fn live_set(m: StoreModel, on: CommitIndex) -> Set<ParentEntry> {
    match crate::positions::resolve_key(m, on) {
        Some(c) => Set::new(|e: ParentEntry| crate::positions::is_live_child(m, c, e)),
        None => Set::empty(),
    }
}

/// `c` is the carry that authoring a position on `on` with the entering intent `entering`
/// states: none entering is a root, the whole live set is `All`, anything else lists exactly
/// the stated entries' ids, ascending.
pub open spec fn classifies(m: StoreModel, on: CommitIndex, entering: Seq<ParentEntry>, c: CarryModel) -> bool {
    if entering.len() == 0 {
        c == CarryModel::Root
    } else if entering.to_set() == live_set(m, on) {
        c == CarryModel::All
    } else {
        c is Entries && ids_ascending(c->Entries_0) && c->Entries_0.to_set() == stated_ids(m, entering)
    }
}

/// The carry authored for `entering` on `on` (see [`classifies`]).
pub open spec fn classified(m: StoreModel, on: CommitIndex, entering: Seq<ParentEntry>) -> CarryModel {
    choose|c: CarryModel| classifies(m, on, entering, c)
}

/// Keeps every id but `id`.
pub open spec fn other_than(id: ParentEntryId) -> spec_fn(ParentEntryId) -> bool {
    |x: ParentEntryId| x != id
}

/// `carry` with any statement naming `id` dropped.
pub open spec fn carry_without(carry: CarryModel, id: ParentEntryId) -> CarryModel {
    match carry {
        CarryModel::Entries(s) => CarryModel::Entries(s.filter(other_than(id))),
        _ => carry,
    }
}

/// The successor the first restatement of `x` in `restates` names, if any.
pub open spec fn restate_of(restates: Seq<(ParentEntryId, ParentEntryId)>, x: ParentEntryId) -> Option<ParentEntryId>
    decreases restates.len(),
{
    if restates.len() == 0 {
        None
    } else if restates[0].0 == x {
        Some(restates[0].1)
    } else {
        restate_of(restates.subrange(1, restates.len() as int), x)
    }
}

/// Each id of `s` replaced by its restatement, where it has one.
pub open spec fn restated_ids(s: Seq<ParentEntryId>, restates: Seq<(ParentEntryId, ParentEntryId)>) -> Seq<ParentEntryId> {
    Seq::new(s.len(), |k: int| match restate_of(restates, s[k]) {
        Some(n) => n,
        None => s[k],
    })
}

/// Some id of `s` has a restatement.
pub open spec fn statement_touched(s: Seq<ParentEntryId>, restates: Seq<(ParentEntryId, ParentEntryId)>) -> bool {
    exists|k: int| 0 <= k < s.len() && (#[trigger] restate_of(restates, s[k])) is Some
}

/// `after` is `before` with its statements re-stated: a list that names a restated id is
/// rewritten with the successors, ascending and without duplicates; any other carry stays.
pub open spec fn restates_carry(before: CarryModel, restates: Seq<(ParentEntryId, ParentEntryId)>, after: CarryModel) -> bool {
    match before {
        CarryModel::Entries(s) => if statement_touched(s, restates) {
            &&& after is Entries
            &&& ids_ascending(after->Entries_0)
            &&& after->Entries_0.to_set() == restated_ids(s, restates).to_set()
        } else {
            after == before
        },
        _ => after == before,
    }
}

/// The model of a [`RefGroup`].
pub struct GroupModel {
    pub members: Seq<RefIndex>,
    pub carry: CarryModel,
    pub attach: Option<RefIndex>,
}

/// `r` is member `k` of group `g`.
pub open spec fn member_at(groups: Seq<GroupModel>, g: int, k: int, r: RefIndex) -> bool {
    0 <= g < groups.len() && 0 <= k < groups[g].members.len() && groups[g].members[k] == r
}

/// `r` is a member of one of `groups`.
pub open spec fn in_groups(groups: Seq<GroupModel>, r: RefIndex) -> bool {
    exists|g: int, k: int| #[trigger] member_at(groups, g, k, r)
}

/// No reference is a member twice.
pub open spec fn members_distinct(groups: Seq<GroupModel>) -> bool {
    forall|g1: int, k1: int, g2: int, k2: int, r: RefIndex|
        #[trigger] member_at(groups, g1, k1, r) && #[trigger] member_at(groups, g2, k2, r) ==> g1 == g2 && k1 == k2
}

/// The position the member `k` of group `g` takes at `key`: on the member below it, the bottom
/// one on the group's attachment.
pub open spec fn member_position(groups: Seq<GroupModel>, key: CommitIndex, g: int, k: int) -> PositionModel {
    PositionModel {
        on: key,
        below: if k == 0 { groups[g].attach } else { Some(groups[g].members[k - 1]) },
        carry: groups[g].carry,
    }
}

/// The kind of the workspace commit's parent at `k`: minted or faithful while its entry still
/// holds the target it was ingested with, surgical otherwise.
pub open spec fn ws_kind(m: StoreModel, ws: CommitIndex, k: int) -> WsParentKind {
    let target = m.arena.parents(ws)[k];
    match m.arena.entry_id_at(ws, k) {
        Some(entry) => if m.ws_minted_parents.contains((entry, target)) {
            WsParentKind::Minted
        } else if m.ws_real_parents.contains((entry, target)) {
            WsParentKind::Faithful
        } else {
            WsParentKind::Surgical
        },
        None => WsParentKind::Surgical,
    }
}

impl StoreModel {
    /// This store with every carry statement naming `id` dropped.
    pub open spec fn statements_dropped(self, id: ParentEntryId) -> StoreModel {
        StoreModel {
            refs: Seq::new(
                self.refs.len(),
                |i: int| RefModel {
                    position: match self.refs[i].position {
                        Some(p) => Some(PositionModel { carry: carry_without(p.carry, id), ..p }),
                        None => None,
                    },
                    ..self.refs[i]
                },
            ),
            ..self
        }
    }

    /// `e` is stacked directly on `r` within `r`'s group: same key, same carry.
    pub open spec fn group_above(self, e: RefIndex, r: RefIndex) -> bool {
        &&& self.is_positioned(e)
        &&& self.is_positioned(r)
        &&& e != r
        &&& self.below_of(e) == Some(r)
        &&& self.positioned_on(e) == self.positioned_on(r)
        &&& self.carry_of(e) == self.carry_of(r)
    }

    /// `r` tops its group: nothing of its group is stacked on it.
    pub open spec fn tops_group(self, r: RefIndex) -> bool {
        !exists|e: RefIndex| #[trigger] self.group_above(e, r)
    }

    /// `r` answers for its group as a carrier of `entry` into the stored key `parent`: it stands
    /// on `parent`, its group's carry claims the entry, and it tops the group.
    pub open spec fn carries_entry(self, parent: CommitIndex, entry: ParentEntry, r: RefIndex) -> bool {
        &&& self.positioned_on(r) == Some(parent)
        &&& crate::positions::carry_claims(self, self.carry_of(r)->0, entry)
        &&& self.tops_group(r)
    }

    /// The position record `i` holds once `groups` are adopted wholesale as `key`'s groups:
    /// members take their place in them, others standing on `key` lose their position.
    pub open spec fn adopted_position(self, key: CommitIndex, groups: Seq<GroupModel>, i: int) -> Option<PositionModel> {
        if in_groups(groups, RefIndex(i as usize)) {
            let (g, k) = choose|g: int, k: int| #[trigger] member_at(groups, g, k, RefIndex(i as usize));
            Some(member_position(groups, key, g, k))
        } else if self.positioned_on(RefIndex(i as usize)) == Some(key) {
            None
        } else {
            self.refs[i].position
        }
    }

    /// Record `i`'s position with its stand on `key` cleared.
    pub open spec fn cleared_position(self, key: CommitIndex, i: int) -> Option<PositionModel> {
        if self.positioned_on(RefIndex(i as usize)) == Some(key) {
            None
        } else {
            self.refs[i].position
        }
    }

    /// Record `i`'s position part way through adopting `groups` on `key`: the members before
    /// member `k` of group `g` are placed, the rest of the table is cleared of `key`.
    pub open spec fn staged_position(self, key: CommitIndex, groups: Seq<GroupModel>, g: int, k: int, i: int) -> Option<PositionModel> {
        if exists|g2: int, k2: int| #[trigger] member_at(groups, g2, k2, RefIndex(i as usize)) && staged_before(g, k, g2, k2) {
            let (g2, k2) = choose|g2: int, k2: int| #[trigger] member_at(groups, g2, k2, RefIndex(i as usize)) && staged_before(g, k, g2, k2);
            Some(member_position(groups, key, g2, k2))
        } else {
            self.cleared_position(key, i)
        }
    }
}

/// Member `k2` of group `g2` comes before member `k` of group `g`.
pub open spec fn staged_before(g: int, k: int, g2: int, k2: int) -> bool {
    g2 < g || (g2 == g && k2 < k)
}

/// Two staging points that agree on every member of `i` stage it alike.
proof fn lemma_staged_same(m: StoreModel, key: CommitIndex, gm: Seq<GroupModel>, g1: int, k1: int, g2: int, k2: int, i: int)
    requires
        members_distinct(gm),
        forall|a: int, b: int| #[trigger] member_at(gm, a, b, RefIndex(i as usize)) ==> staged_before(g1, k1, a, b) == staged_before(g2, k2, a, b),
    ensures
        m.staged_position(key, gm, g1, k1, i) == m.staged_position(key, gm, g2, k2, i),
{
    let r = RefIndex(i as usize);
    if exists|a: int, b: int| #[trigger] member_at(gm, a, b, r) && staged_before(g1, k1, a, b) {
        let (a, b) = choose|a: int, b: int| #[trigger] member_at(gm, a, b, r) && staged_before(g1, k1, a, b);
        assert(member_at(gm, a, b, r) && staged_before(g2, k2, a, b));
        let (c, d) = choose|c: int, d: int| #[trigger] member_at(gm, c, d, r) && staged_before(g2, k2, c, d);
        assert(member_at(gm, c, d, r));
        assert(a == c && b == d);
    } else {
        if exists|c: int, d: int| #[trigger] member_at(gm, c, d, r) && staged_before(g2, k2, c, d) {
            let (c, d) = choose|c: int, d: int| #[trigger] member_at(gm, c, d, r) && staged_before(g2, k2, c, d);
            assert(member_at(gm, c, d, r) && staged_before(g1, k1, c, d));
        }
    }
}

/// Placing member `k` of group `g` stages exactly that member.
proof fn lemma_staged_step(m: StoreModel, key: CommitIndex, gm: Seq<GroupModel>, g: int, k: int, i: int)
    requires
        members_distinct(gm),
        0 <= g < gm.len(),
        0 <= k < gm[g].members.len(),
        0 <= i,
        i <= usize::MAX,
    ensures
        i == gm[g].members[k].0 ==> m.staged_position(key, gm, g, k + 1, i) == Some(member_position(gm, key, g, k)),
        i != gm[g].members[k].0 ==> m.staged_position(key, gm, g, k + 1, i) == m.staged_position(key, gm, g, k, i),
{
    let r = RefIndex(i as usize);
    if i == gm[g].members[k].0 {
        assert(member_at(gm, g, k, r) && staged_before(g, k + 1, g, k));
        let (a, b) = choose|a: int, b: int| #[trigger] member_at(gm, a, b, r) && staged_before(g, k + 1, a, b);
        assert(member_at(gm, a, b, r));
        assert(a == g && b == k);
    } else {
        assert forall|a: int, b: int| #[trigger] member_at(gm, a, b, r) implies staged_before(g, k + 1, a, b) == staged_before(g, k, a, b) by {
            if a == g && b == k {
                assert(gm[g].members[k] == r);
            }
        }
        lemma_staged_same(m, key, gm, g, k + 1, g, k, i);
    }
}

/// Two ascending id lists with the same members are the same list.
proof fn lemma_ids_ascending_unique(a: Seq<ParentEntryId>, b: Seq<ParentEntryId>)
    requires
        ids_ascending(a),
        ids_ascending(b),
        a.to_set() == b.to_set(),
    ensures
        a == b,
    decreases a.len() + b.len(),
{
    assert forall|x: ParentEntryId| a.contains(x) <==> b.contains(x) by {
        assert(a.to_set().contains(x) == a.contains(x));
        assert(b.to_set().contains(x) == b.contains(x));
    }
    if a.len() == 0 || b.len() == 0 {
        if a.len() > 0 {
            assert(a.contains(a[0]));
        }
        if b.len() > 0 {
            assert(b.contains(b[0]));
        }
        assert(a =~= b);
    } else {
        let x = a.last();
        let y = b.last();
        assert(a.contains(x));
        assert(b.contains(y));
        assert(b.contains(x));
        assert(a.contains(y));
        let i = choose|i: int| 0 <= i < b.len() && b[i] == x;
        let j = choose|j: int| 0 <= j < a.len() && a[j] == y;
        if i < b.len() - 1 {
            assert(b[i].0 < b[b.len() - 1].0);
        }
        if j < a.len() - 1 {
            assert(a[j].0 < a[a.len() - 1].0);
        }
        assert(x == y);
        let a2 = a.drop_last();
        let b2 = b.drop_last();
        assert forall|e: ParentEntryId| a2.contains(e) <==> b2.contains(e) by {
            if a2.contains(e) {
                let k = choose|k: int| 0 <= k < a2.len() && a2[k] == e;
                assert(a[k].0 < a[a.len() - 1].0);
                assert(a.contains(e));
                let l = choose|l: int| 0 <= l < b.len() && b[l] == e;
                assert(b2[l] == e);
            }
            if b2.contains(e) {
                let k = choose|k: int| 0 <= k < b2.len() && b2[k] == e;
                assert(b[k].0 < b[b.len() - 1].0);
                assert(b.contains(e));
                let l = choose|l: int| 0 <= l < a.len() && a[l] == e;
                assert(a2[l] == e);
            }
        }
        assert(a2.to_set() =~= b2.to_set()) by {
            assert forall|e: ParentEntryId| a2.to_set().contains(e) <==> b2.to_set().contains(e) by {
                assert(a2.contains(e) <==> b2.contains(e));
            }
        }
        lemma_ids_ascending_unique(a2, b2);
        assert(a =~= a2.push(x));
        assert(b =~= b2.push(y));
    }
}

/// Add `x` to the ascending id list `v`, keeping it ascending and without duplicates.
fn insert_id_ascending(v: &mut Vec<ParentEntryId>, x: ParentEntryId)
    requires
        ids_ascending(old(v)@),
    ensures
        ids_ascending(final(v)@),
        forall|y: ParentEntryId| #[trigger] final(v)@.contains(y) <==> (old(v)@.contains(y) || y == x),
{
    let mut i: usize = 0;
    while i < v.len() && v[i].0 < x.0
        invariant
            i <= v.len(),
            v@ == old(v)@,
            ids_ascending(v@),
            forall|j: int| 0 <= j < i ==> (#[trigger] v@[j]).0 < x.0,
        decreases v.len() - i,
    {
        i = i + 1;
    }
    if i < v.len() && v[i] == x {
        return;
    }
    let ghost prev = v@;
    v.insert(i, x);
    assert(v@ == prev.insert(i as int, x));
    assert forall|a: int, b: int| 0 <= a < b < v@.len() implies (#[trigger] v@[a]).0 < (#[trigger] v@[b]).0 by {
        if b < i {
            assert(prev[a].0 < prev[b].0);
        } else if b == i {
            assert(prev[a].0 < x.0);
        } else if a < i {
            assert(prev[a].0 < prev[b - 1].0);
        } else if a == i {
            assert(prev[i as int] != x);
            if b - 1 > i {
                assert(prev[i as int].0 < prev[b - 1].0);
            }
        } else {
            assert(prev[a - 1].0 < prev[b - 1].0);
        }
    }
    assert forall|y: ParentEntryId| #[trigger] v@.contains(y) <==> (prev.contains(y) || y == x) by {
        if v@.contains(y) {
            let k = choose|k: int| 0 <= k < v@.len() && v@[k] == y;
            if k < i {
                assert(prev[k] == y);
            } else if k > i {
                assert(prev[k - 1] == y);
            }
        }
        if prev.contains(y) {
            let k = choose|k: int| 0 <= k < prev.len() && prev[k] == y;
            if k < i {
                assert(v@[k] == y);
            } else {
                assert(v@[k + 1] == y);
            }
        }
        if y == x {
            assert(v@[i as int] == x);
        }
    }
}

/// Whether two id lists are the same list.
fn same_ids(a: &Vec<ParentEntryId>, b: &Vec<ParentEntryId>) -> (r: bool)
    ensures
        r == (a@ == b@),
{
    if a.len() != b.len() {
        return false;
    }
    let mut i: usize = 0;
    while i < a.len()
        invariant
            a.len() == b.len(),
            i <= a.len(),
            forall|j: int| 0 <= j < i ==> a@[j] == b@[j],
        decreases a.len() - i,
    {
        if a[i] != b[i] {
            return false;
        }
        i = i + 1;
    }
    assert(a@ =~= b@);
    true
}

/// `ids` without `id`, order kept.
fn ids_without(ids: &Vec<ParentEntryId>, id: ParentEntryId) -> (out: Vec<ParentEntryId>)
    ensures
        out@ == ids@.filter(other_than(id)),
{
    let mut out: Vec<ParentEntryId> = Vec::new();
    let mut i: usize = 0;
    while i < ids.len()
        invariant
            i <= ids.len(),
            out@ == ids@.take(i as int).filter(other_than(id)),
        decreases ids.len() - i,
    {
        proof {
            assert(ids@.take(i + 1) =~= ids@.take(i as int).push(ids@[i as int]));
            ids@.take(i as int).lemma_filter_push(ids@[i as int], other_than(id));
        }
        if ids[i] != id {
            out.push(ids[i]);
        }
        i = i + 1;
    }
    assert(ids@.take(ids.len() as int) =~= ids@);
    out
}

/// The successor the first restatement of `x` names, if any.
fn find_restate(restates: &Vec<(ParentEntryId, ParentEntryId)>, x: ParentEntryId) -> (found: Option<ParentEntryId>)
    ensures
        found == restate_of(restates@, x),
{
    let mut j: usize = 0;
    assert(restates@.subrange(0, restates@.len() as int) =~= restates@);
    while j < restates.len()
        invariant
            j <= restates.len(),
            restate_of(restates@, x) == restate_of(restates@.subrange(j as int, restates@.len() as int), x),
        decreases restates.len() - j,
    {
        let ghost rest = restates@.subrange(j as int, restates@.len() as int);
        assert(rest[0] == restates@[j as int]);
        if restates[j].0 == x {
            return Some(restates[j].1);
        }
        assert(rest.subrange(1, rest.len() as int) =~= restates@.subrange(j + 1, restates@.len() as int));
        j = j + 1;
    }
    None
}

/// The statement list `ids` re-stated: `None` when no id of it has a restatement, else the
/// successors, ascending and without duplicates.
fn restate_list(ids: &Vec<ParentEntryId>, restates: &Vec<(ParentEntryId, ParentEntryId)>) -> (r: Option<Vec<ParentEntryId>>)
    ensures
        r is None <==> !statement_touched(ids@, restates@),
        r matches Some(out) ==> ids_ascending(out@) && out@.to_set() == restated_ids(ids@, restates@).to_set(),
{
    let ghost mapped = restated_ids(ids@, restates@);
    let mut out: Vec<ParentEntryId> = Vec::new();
    let mut changed = false;
    let mut k: usize = 0;
    while k < ids.len()
        invariant
            k <= ids.len(),
            mapped == restated_ids(ids@, restates@),
            ids_ascending(out@),
            forall|y: ParentEntryId| #[trigger] out@.contains(y) <==> exists|l: int| 0 <= l < k && mapped[l] == y,
            changed <==> exists|l: int| 0 <= l < k && (#[trigger] restate_of(restates@, ids@[l])) is Some,
        decreases ids.len() - k,
    {
        let x = ids[k];
        let y = match find_restate(restates, x) {
            Some(n) => {
                changed = true;
                n
            },
            None => x,
        };
        assert(mapped[k as int] == y);
        let ghost prev = out@;
        insert_id_ascending(&mut out, y);
        assert forall|z: ParentEntryId| #[trigger] out@.contains(z) <==> exists|l: int| 0 <= l < k + 1 && mapped[l] == z by {
            if out@.contains(z) && z != y {
                assert(prev.contains(z));
            }
            if exists|l: int| 0 <= l < k + 1 && mapped[l] == z {
                let l = choose|l: int| 0 <= l < k + 1 && mapped[l] == z;
                if l < k {
                    assert(prev.contains(z));
                }
            }
        }
        k = k + 1;
    }
    if changed {
        assert(out@.to_set() =~= mapped.to_set()) by {
            assert forall|z: ParentEntryId| out@.to_set().contains(z) <==> mapped.to_set().contains(z) by {
                if mapped.contains(z) {
                    let l = choose|l: int| 0 <= l < mapped.len() && mapped[l] == z;
                    assert(exists|l: int| 0 <= l < ids@.len() && mapped[l] == z);
                }
                if out@.contains(z) {
                    let l = choose|l: int| 0 <= l < ids@.len() && mapped[l] == z;
                    assert(mapped.contains(z));
                }
            }
        }
        Some(out)
    } else {
        None
    }
}

/// Whether two carries say the same thing.
fn same_carry(a: &GroupCarry, b: &GroupCarry) -> (r: bool)
    ensures
        r == (a.model() == b.model()),
{
    match (a, b) {
        (GroupCarry::Root, GroupCarry::Root) => true,
        (GroupCarry::All, GroupCarry::All) => true,
        (GroupCarry::Entries(x), GroupCarry::Entries(y)) => same_ids(x, y),
        _ => false,
    }
}

/// Whether `(entry, target)` is among `pairs`.
fn holds_pair(pairs: &Vec<(ParentEntryId, CommitIndex)>, entry: ParentEntryId, target: CommitIndex) -> (r: bool)
    ensures
        r == pairs@.contains((entry, target)),
{
    let mut i: usize = 0;
    while i < pairs.len()
        invariant
            i <= pairs.len(),
            forall|j: int| 0 <= j < i ==> pairs@[j] != (entry, target),
        decreases pairs.len() - i,
    {
        if pairs[i].0 == entry && pairs[i].1 == target {
            assert(pairs@[i as int] == (entry, target));
            return true;
        }
        i = i + 1;
    }
    false
}

/// Below-walks read only the `below` pointers, so rewriting keys leaves them alone.
proof fn lemma_chain_hits_below_only(a: StoreModel, b: StoreModel, cursor: Option<RefIndex>, target: RefIndex, fuel: nat)
    requires
        forall|r: RefIndex| a.below_of(r) == b.below_of(r),
    ensures
        a.chain_hits(cursor, target, fuel) == b.chain_hits(cursor, target, fuel),
    decreases fuel,
{
    if let Some(x) = cursor {
        if fuel > 0 {
            lemma_chain_hits_below_only(a, b, a.below_of(x), target, (fuel - 1) as nat);
        }
    }
}

/// Riding is decided by the `below` pointers alone.
proof fn lemma_rides_on_below_only(a: StoreModel, b: StoreModel, r: RefIndex, entry: RefIndex)
    requires
        forall|x: RefIndex| a.below_of(x) == b.below_of(x),
    ensures
        a.rides_on(r, entry) == b.rides_on(r, entry),
{
    lemma_chain_hits_below_only(a, b, a.below_of(r), entry, crate::positions::WALK_LIMIT as nat);
}

/// The editor's graph: the commit arena, where commits carry ordered parent arrays, plus the
/// reference table, where references carry explicit positions.
pub struct EditorStore {
    commits: CommitArena,
    refs: Vec<RefState>,
    layout: Vec<Option<RefPosition>>,
    ws_real_parents: Vec<(ParentEntryId, CommitIndex)>,
    ws_minted_parents: Vec<(ParentEntryId, CommitIndex)>,
}

impl View for EditorStore {
    type V = StoreModel;

    closed spec fn view(&self) -> StoreModel {
        StoreModel {
            arena: self.commits@,
            refs: Seq::new(
                self.refs@.len(),
                |i: int|
                    RefModel {
                        name: self.refs@[i].refname@,
                        created_as: name_model(self.refs@[i].created_as),
                        mutable: self.refs@[i].mutable,
                        live: self.refs@[i].live,
                        ambiguous: self.refs@[i].ambiguous,
                        position: position_model(self.layout@[i]),
                    },
            ),
            ws_real_parents: self.ws_real_parents@,
            ws_minted_parents: self.ws_minted_parents@,
        }
    }
}

impl EditorStore {
    /// The layout column runs alongside the reference table.
    pub closed spec fn columns_aligned(&self) -> bool {
        self.refs@.len() == self.layout@.len()
    }

    /// The store's full invariant.
    pub open spec fn valid(&self) -> bool {
        self.columns_aligned() && self@.wf()
    }

    /// Adopt `arena` as the editor's commit half, with no references yet.
    pub fn adopt(arena: CommitArena) -> (store: EditorStore)
        ensures
            store@.arena == arena@,
            store@.refs.len() == 0,
            store@.ws_real_parents.len() == 0,
            store@.ws_minted_parents.len() == 0,
            arena@.wf() ==> store.valid(),
    {
        let store = EditorStore {
            commits: arena,
            refs: Vec::new(),
            layout: Vec::new(),
            ws_real_parents: Vec::new(),
            ws_minted_parents: Vec::new(),
        };
        assert(store@.refs =~= Seq::<RefModel>::empty());
        store
    }

    /// An empty store.
    pub fn new() -> (store: EditorStore)
        ensures
            store@.arena.nodes.len() == 0,
            store@.arena.next_entry == 0,
            store@.refs.len() == 0,
            store@.ws_real_parents.len() == 0,
            store@.ws_minted_parents.len() == 0,
            store.valid(),
    {
        EditorStore::adopt(CommitArena::new())
    }

    /// The commit half, read-only.
    pub fn arena(&self) -> (arena: &CommitArena)
        ensures
            arena@ == self@.arena,
    {
        &self.commits
    }

    /// Surrender the commit half — the editor's final product.
    pub fn into_arena(self) -> (arena: CommitArena)
        ensures
            arena@ == self@.arena,
    {
        self.commits
    }

    /// The stable id of the live parent entry at `(child, parent_number)`, if it exists.
    pub fn entry_id_at(&self, child: CommitIndex, parent_number: usize) -> (id: Option<ParentEntryId>)
        ensures
            id == self@.arena.entry_id_at(child, parent_number as int),
    {
        self.commits.entry_id_at(child, parent_number)
    }

    /// Add the commit `spec` describes to the arena and return its index.
    pub fn add_commit(&mut self, spec: CommitSpec) -> (index: CommitIndex)
        requires
            old(self)@.arena.nodes.len() < usize::MAX,
        ensures
            index.0 == old(self)@.arena.nodes.len(),
            final(self)@ == old(self)@.with_arena(old(self)@.arena.node_added(Some(spec.model()))),
            old(self).valid() ==> final(self).valid(),
    {
        self.commits.add_commit(spec)
    }

    /// Add an entry born tombstoned: a placeholder that holds no commit.
    pub fn add_tombstone(&mut self) -> (index: CommitIndex)
        requires
            old(self)@.arena.nodes.len() < usize::MAX,
        ensures
            index.0 == old(self)@.arena.nodes.len(),
            final(self)@ == old(self)@.with_arena(old(self)@.arena.node_added(None)),
            old(self).valid() ==> final(self).valid(),
    {
        self.commits.add_tombstone()
    }

    /// Overwrite the commit at `entry` per `spec`; revives a tombstone.
    pub fn set_commit(&mut self, entry: CommitIndex, spec: CommitSpec)
        requires
            old(self)@.arena.valid(entry),
        ensures
            final(self)@ == old(self)@.with_arena(old(self)@.arena.commit_set(entry, Some(spec.model()))),
            old(self).valid() ==> final(self).valid(),
    {
        self.commits.set_commit(entry, spec)
    }

    /// Tombstone the node at `entry`: it stops holding a commit.
    pub fn tombstone_commit(&mut self, entry: CommitIndex)
        requires
            old(self)@.arena.valid(entry),
        ensures
            final(self)@ == old(self)@.with_arena(old(self)@.arena.commit_set(entry, None)),
            old(self).valid() ==> final(self).valid(),
    {
        self.commits.tombstone_commit(entry)
    }

    /// The commit id of the commit at `entry` — `None` for tombstones and references.
    pub fn commit_id(&self, entry: EditorIndex) -> (id: Option<CommitId>)
        ensures
            id is Some == self@.is_commit(entry),
            id is Some ==> id->0@ == self@.arena.nodes[entry->Commit_0.0 as int].commit->0.id,
    {
        match entry {
            EditorIndex::Commit(i) => self.commits.commit_id(i),
            EditorIndex::Ref(_) => None,
        }
    }

    /// The spec of the commit at `entry`; `None` for a tombstone.
    pub fn commit_spec(&self, entry: CommitIndex) -> (spec: Option<CommitSpec>)
        ensures
            spec is Some == self@.arena.is_commit(entry),
            spec is Some ==> spec->0.model() == self@.arena.nodes[entry.0 as int].commit->0,
    {
        self.commits.commit_spec(entry)
    }

    /// Rewrite the commit id of the commit at `entry` in place: its node, parent array and
    /// every position naming it survive unchanged.
    pub fn set_commit_id(&mut self, entry: CommitIndex, id: CommitId)
        requires
            old(self)@.arena.valid(entry),
        ensures
            final(self)@ == old(self)@.with_arena(old(self)@.arena.commit_id_set(entry, id@)),
            old(self).valid() ==> final(self).valid(),
    {
        self.commits.set_commit_id(entry, id)
    }

    /// Overwrite the preserved parents of the commit at `entry`.
    pub fn set_preserved_parents(&mut self, entry: CommitIndex, parents: Option<Vec<CommitId>>)
        requires
            old(self)@.arena.valid(entry),
        ensures
            final(self)@ == old(self)@.with_arena(old(self)@.arena.preserved_parents_set(entry, match parents {
                Some(v) => Some(crate::commits::ids_model(v@)),
                None => None,
            })),
            old(self).valid() ==> final(self).valid(),
    {
        self.commits.set_preserved_parents(entry, parents)
    }

    /// `true` iff `entry` is a commit — `false` for tombstones and references.
    pub fn is_commit(&self, entry: EditorIndex) -> (r: bool)
        ensures
            r == self@.is_commit(entry),
    {
        match entry {
            EditorIndex::Commit(i) => self.commits.is_commit(i),
            EditorIndex::Ref(_) => false,
        }
    }

    /// All arena indices (commits and tombstones), ascending.
    pub fn commit_indices(&self) -> (indices: Vec<CommitIndex>)
        ensures
            indices@ == Seq::new(self@.arena.nodes.len(), |i: int| CommitIndex(i as usize)),
    {
        self.commits.commit_indices()
    }

    /// The nodes that no node lists as a parent — the childless tips, ascending.
    pub fn tips(&self) -> (tips: Vec<CommitIndex>)
        ensures
            forall|i: int, j: int| 0 <= i < j < tips@.len() ==> (#[trigger] tips@[i]).0 < (#[trigger] tips@[j]).0,
            forall|c: CommitIndex| #[trigger] tips@.contains(c) <==> (self@.arena.valid(c) && forall|e: ParentEntry|
                !(#[trigger] self@.arena.is_incoming(c, e))),
    {
        self.commits.tips()
    }

    /// The ordered parents of `entry`; references have none.
    pub fn parents(&self, entry: EditorIndex) -> (parents: Vec<CommitIndex>)
        ensures
            parents@ == self@.parents(entry),
    {
        match entry {
            EditorIndex::Commit(i) => self.commits.parents(i),
            EditorIndex::Ref(_) => Vec::new(),
        }
    }

    /// How many parents `entry` has.
    pub fn parent_count(&self, entry: EditorIndex) -> (n: usize)
        ensures
            n == self@.parents(entry).len(),
    {
        self.parents(entry).len()
    }

    /// Every parent entry naming `entry` as a parent, as ascending `(child, parent number)`
    /// pairs; references have none.
    pub fn children_of(&self, entry: EditorIndex) -> (children: Vec<ParentEntry>)
        ensures
            match entry {
                EditorIndex::Commit(c) => self@.arena.is_children_list(c, children@),
                EditorIndex::Ref(_) => children@.len() == 0,
            },
    {
        match entry {
            EditorIndex::Commit(i) => self.commits.children_of(i),
            EditorIndex::Ref(_) => Vec::new(),
        }
    }

    /// Append `parent` as `child`'s last parent; returns its parent number.
    pub fn push_parent(&mut self, child: CommitIndex, parent: CommitIndex) -> (number: usize)
        requires
            old(self)@.arena.valid(child),
            old(self)@.arena.next_entry < usize::MAX,
        ensures
            number == old(self)@.arena.parents(child).len(),
            final(self)@ == old(self)@.with_arena(old(self)@.arena.parent_pushed(child, parent)),
            old(self).valid() && old(self)@.arena.valid(parent) ==> final(self).valid(),
    {
        self.commits.push_parent(child, parent)
    }

    /// Insert `parent` at `parent_number` of `child` (clamped to the array end); later parent
    /// numbers shift up, their statements untouched. Returns the parent number used.
    pub fn insert_parent(&mut self, child: CommitIndex, parent_number: usize, parent: CommitIndex) -> (used: usize)
        requires
            old(self)@.arena.valid(child),
            old(self)@.arena.next_entry < usize::MAX,
        ensures
            used == (if parent_number <= old(self)@.arena.parents(child).len() {
                parent_number as int
            } else {
                old(self)@.arena.parents(child).len() as int
            }),
            final(self)@ == old(self)@.with_arena(old(self)@.arena.parent_inserted(child, used as int, parent)),
            old(self).valid() && old(self)@.arena.valid(parent) ==> final(self).valid(),
    {
        self.commits.insert_parent(child, parent_number, parent)
    }

    /// Re-point `child`'s parent at `parent_number` onto `new_parent`; the entry keeps its id,
    /// so groups stated on it follow it to its new target.
    pub fn replace_parent(&mut self, child: CommitIndex, parent_number: usize, new_parent: CommitIndex)
        ensures
            final(self)@ == (if old(self)@.arena.valid(child) && parent_number < old(self)@.arena.parents(child).len() {
                old(self)@.with_arena(old(self)@.arena.parent_replaced(child, parent_number as int, new_parent))
            } else {
                old(self)@
            }),
            old(self).valid() && old(self)@.arena.valid(new_parent) ==> final(self).valid(),
    {
        self.commits.replace_parent(child, parent_number, new_parent)
    }

    /// Move `from`'s whole parent array onto `to` (which has none); the entries keep their ids,
    /// so statements follow without any rewrite.
    pub fn transplant_parents(&mut self, from: CommitIndex, to: CommitIndex)
        requires
            old(self)@.arena.valid(from),
            old(self)@.arena.valid(to),
            from != to,
            old(self)@.arena.parents(to).len() == 0,
        ensures
            final(self)@ == old(self)@.with_arena(old(self)@.arena.parents_transplanted(from, to)),
            old(self).valid() ==> final(self).valid(),
    {
        self.commits.transplant_parents(from, to)
    }

    /// Re-target every parent entry naming `from` onto `to`, parent numbers and ids preserved.
    pub fn redirect_children(&mut self, from: CommitIndex, to: CommitIndex)
        ensures
            final(self)@ == old(self)@.with_arena(final(self)@.arena),
            old(self)@.arena.children_redirected(final(self)@.arena, from, to),
            old(self).valid() && old(self)@.arena.valid(to) ==> final(self).valid(),
    {
        self.commits.redirect_children(from, to)
    }

    /// Empty `child`'s parent array, returning each parent with its retired entry id. Carry
    /// statements naming the drained entries are deliberately left for the caller to re-state
    /// (see [`Self::restate_entries`]).
    pub fn drain_parents(&mut self, child: CommitIndex) -> (drained: Vec<(CommitIndex, ParentEntryId)>)
        requires
            old(self)@.arena.valid(child),
        ensures
            drained@.len() == old(self)@.arena.parents(child).len(),
            forall|k: int| 0 <= k < drained@.len() ==> #[trigger] drained@[k] == (
                old(self)@.arena.parents(child)[k],
                old(self)@.arena.entries(child)[k],
            ),
            final(self)@ == old(self)@.with_arena(old(self)@.arena.parents_set(child, Seq::empty(), Seq::empty())),
            old(self).valid() ==> final(self).valid(),
    {
        self.commits.drain_parents(child)
    }

    /// The record registered under `name`, live or dead.
    pub fn entry_of(&self, name: &RefName) -> (entry: Option<RefIndex>)
        ensures
            match entry {
                Some(r) => self@.ref_valid(r) && self@.refs[r.0 as int].name == name@,
                None => !self@.has_name(name@),
            },
    {
        let mut i: usize = 0;
        while i < self.refs.len()
            invariant
                i <= self.refs.len(),
                forall|j: int| 0 <= j < i ==> #[trigger] self@.refs[j].name != name@,
            decreases self.refs.len() - i,
        {
            if self.refs[i].refname.same_as(name) {
                return Some(RefIndex(i));
            }
            i = i + 1;
        }
        None
    }

    /// How many reference records (live and dead) the store holds.
    pub fn ref_count(&self) -> (n: usize)
        requires
            self.valid(),
        ensures
            n == self@.refs.len(),
    {
        self.refs.len()
    }

    /// How many arena nodes (commits and tombstones) the store holds.
    pub fn commit_count(&self) -> (n: usize)
        ensures
            n == self@.arena.nodes.len(),
    {
        self.commits.len()
    }

    /// Add a reference and return its index. Names are identity: adding a name that already
    /// has a record — a re-created deleted reference, say — revives that record in place, its
    /// retained position standing until the caller re-places it.
    pub fn add_reference(&mut self, refname: RefName, mutable: bool, existed_at_creation: bool) -> (entry: RefIndex)
        requires
            old(self).valid(),
            old(self)@.refs.len() < usize::MAX,
        ensures
            final(self).valid(),
            if old(self)@.has_name(refname@) {
                &&& old(self)@.ref_valid(entry)
                &&& old(self)@.refs[entry.0 as int].name == refname@
                &&& final(self)@ == old(self)@.with_ref(
                    entry,
                    RefModel { mutable, live: true, ..old(self)@.refs[entry.0 as int] },
                )
            } else {
                &&& entry.0 == old(self)@.refs.len()
                &&& final(self)@ == StoreModel {
                    refs: old(self)@.refs.push(fresh_record(refname@, mutable, existed_at_creation)),
                    ..old(self)@
                }
            },
    {
        let ghost before = self@;
        match self.entry_of(&refname) {
            Some(existing) => {
                self.refs[existing.0].mutable = mutable;
                self.refs[existing.0].live = true;
                assert(self@.refs =~= before.refs.update(
                    existing.0 as int,
                    RefModel { mutable, live: true, ..before.refs[existing.0 as int] },
                ));
                existing
            },
            None => {
                let created_as = if existed_at_creation && mutable {
                    Some(refname.duplicate())
                } else {
                    None
                };
                let entry = RefIndex(self.refs.len());
                self.refs.push(RefState { refname, created_as, mutable, live: true, ambiguous: false });
                self.layout.push(None);
                assert(self@.refs =~= before.refs.push(fresh_record(refname@, mutable, existed_at_creation)));
                entry
            },
        }
    }

    /// Drop `entry`'s creation mark — for references that existed but are not ours to delete.
    pub fn clear_existed_at_creation(&mut self, entry: RefIndex)
        requires
            old(self)@.ref_valid(entry),
        ensures
            final(self)@ == old(self)@.with_ref(entry, RefModel { created_as: None, ..old(self)@.refs[entry.0 as int] }),
            old(self).valid() ==> final(self).valid(),
    {
        let ghost before = self@;
        self.refs[entry.0].created_as = None;
        assert(self@.refs =~= before.refs.update(
            entry.0 as int,
            RefModel { created_as: None, ..before.refs[entry.0 as int] },
        ));
    }

    /// The creation-time names of mutable references, live, dead, or since renamed — the
    /// deletion universe — in record order.
    pub fn creation_references(&self) -> (names: Vec<&RefName>)
        ensures
            names@.map_values(|n: &RefName| n@) == creation_names(self@.refs),
    {
        let mut out: Vec<&RefName> = Vec::new();
        let mut i: usize = 0;
        while i < self.refs.len()
            invariant
                i <= self.refs.len(),
                out@.map_values(|n: &RefName| n@) == creation_names(self@.refs.take(i as int)),
            decreases self.refs.len() - i,
        {
            let ghost prev = out@;
            assert(self@.refs.take(i + 1).drop_last() =~= self@.refs.take(i as int));
            match &self.refs[i].created_as {
                Some(n) => {
                    out.push(n);
                    assert(out@.map_values(|n: &RefName| n@) =~= prev.map_values(|n: &RefName| n@).push(n@));
                },
                None => {},
            }
            i = i + 1;
        }
        assert(self@.refs.take(self@.refs.len() as int) =~= self@.refs);
        out
    }

    /// The reference payload at `entry` — `Some` iff it names a live (not deleted) reference.
    pub fn reference(&self, entry: EditorIndex) -> (payload: Option<(&RefName, bool)>)
        ensures
            payload is Some == self@.is_reference(entry),
            payload is Some ==> {
                &&& (payload->0).0@ == self@.refs[entry->Ref_0.0 as int].name
                &&& (payload->0).1 == self@.refs[entry->Ref_0.0 as int].mutable
            },
    {
        match entry {
            EditorIndex::Ref(i) => {
                if i.0 < self.refs.len() && self.refs[i.0].live {
                    Some((&self.refs[i.0].refname, self.refs[i.0].mutable))
                } else {
                    None
                }
            },
            EditorIndex::Commit(_) => None,
        }
    }

    /// `true` iff `entry` is a live reference.
    pub fn is_reference(&self, entry: EditorIndex) -> (r: bool)
        ensures
            r == self@.is_reference(entry),
    {
        self.reference(entry).is_some()
    }

    /// All live references with their names and mutability, ascending by index.
    pub fn references(&self) -> (refs: Vec<(RefIndex, &RefName, bool)>)
        ensures
            forall|i: int, j: int| 0 <= i < j < refs@.len() ==> (#[trigger] refs@[i]).0.0 < (#[trigger] refs@[j]).0.0,
            forall|k: int| 0 <= k < refs@.len() ==> {
                &&& self@.is_reference(EditorIndex::Ref((#[trigger] refs@[k]).0))
                &&& refs@[k].1@ == self@.refs[refs@[k].0.0 as int].name
                &&& refs@[k].2 == self@.refs[refs@[k].0.0 as int].mutable
            },
            forall|r: RefIndex| self@.is_reference(EditorIndex::Ref(r)) ==> exists|k: int|
                0 <= k < refs@.len() && (#[trigger] refs@[k]).0 == r,
    {
        let mut out: Vec<(RefIndex, &RefName, bool)> = Vec::new();
        let mut i: usize = 0;
        while i < self.refs.len()
            invariant
                i <= self.refs.len(),
                forall|a: int, b: int| 0 <= a < b < out@.len() ==> (#[trigger] out@[a]).0.0 < (#[trigger] out@[b]).0.0,
                forall|k: int| 0 <= k < out@.len() ==> (#[trigger] out@[k]).0.0 < i,
                forall|k: int| 0 <= k < out@.len() ==> {
                    &&& self@.is_reference(EditorIndex::Ref((#[trigger] out@[k]).0))
                    &&& out@[k].1@ == self@.refs[out@[k].0.0 as int].name
                    &&& out@[k].2 == self@.refs[out@[k].0.0 as int].mutable
                },
                forall|r: RefIndex| r.0 < i && self@.is_reference(EditorIndex::Ref(r)) ==> exists|k: int|
                    0 <= k < out@.len() && (#[trigger] out@[k]).0 == r,
            decreases self.refs.len() - i,
        {
            if self.refs[i].live {
                let ghost prev = out@;
                out.push((RefIndex(i), &self.refs[i].refname, self.refs[i].mutable));
                assert forall|r: RefIndex| r.0 < i + 1 && self@.is_reference(EditorIndex::Ref(r)) implies exists|k: int|
                    0 <= k < out@.len() && (#[trigger] out@[k]).0 == r by {
                    if r.0 == i {
                        assert(out@[prev.len() as int].0 == r);
                    } else {
                        let k = choose|k: int| 0 <= k < prev.len() && (#[trigger] prev[k]).0 == r;
                        assert(out@[k] == prev[k]);
                    }
                }
            }
            i = i + 1;
        }
        out
    }

    /// All reference indices — live and dead — ascending.
    pub fn ref_indices(&self) -> (indices: Vec<RefIndex>)
        ensures
            indices@ == Seq::new(self@.refs.len(), |i: int| RefIndex(i as usize)),
    {
        let mut out: Vec<RefIndex> = Vec::new();
        let mut i: usize = 0;
        while i < self.refs.len()
            invariant
                i <= self.refs.len(),
                out@ == Seq::new(i as nat, |j: int| RefIndex(j as usize)),
            decreases self.refs.len() - i,
        {
            out.push(RefIndex(i));
            i = i + 1;
            assert(out@ =~= Seq::new(i as nat, |j: int| RefIndex(j as usize)));
        }
        out
    }

    /// The full record of the reference at `entry`, dead ones included.
    pub fn state_of(&self, entry: EditorIndex) -> (state: Option<&RefState>)
        ensures
            state is Some == (entry is Ref && self@.ref_valid(entry->Ref_0)),
            state is Some ==> {
                let m = self@.refs[entry->Ref_0.0 as int];
                &&& state->0.refname@ == m.name
                &&& name_model(state->0.created_as) == m.created_as
                &&& state->0.mutable == m.mutable
                &&& state->0.live == m.live
                &&& state->0.ambiguous == m.ambiguous
            },
    {
        match entry {
            EditorIndex::Ref(i) => {
                if i.0 < self.refs.len() {
                    Some(&self.refs[i.0])
                } else {
                    None
                }
            },
            EditorIndex::Commit(_) => None,
        }
    }

    /// Rename (or resurrect) the reference at `entry` in place; its position is untouched. No
    /// other record may already carry the new name.
    pub fn set_reference(&mut self, entry: RefIndex, refname: RefName, mutable: bool)
        requires
            old(self)@.ref_valid(entry),
            forall|j: int| 0 <= j < old(self)@.refs.len() && j != entry.0 ==> #[trigger] old(self)@.refs[j].name != refname@,
        ensures
            final(self)@ == old(self)@.with_ref(
                entry,
                RefModel { name: refname@, mutable, live: true, ..old(self)@.refs[entry.0 as int] },
            ),
            old(self).valid() ==> final(self).valid(),
    {
        let ghost before = self@;
        self.refs[entry.0].refname = refname;
        self.refs[entry.0].mutable = mutable;
        self.refs[entry.0].live = true;
        assert(self@.refs =~= before.refs.update(
            entry.0 as int,
            RefModel { name: refname@, mutable, live: true, ..before.refs[entry.0 as int] },
        ));
    }

    /// Delete the reference at `entry`: it goes dead in place, keeping name and position.
    pub fn tombstone_reference(&mut self, entry: RefIndex)
        requires
            old(self)@.ref_valid(entry),
        ensures
            final(self)@ == old(self)@.with_ref(entry, RefModel { live: false, ..old(self)@.refs[entry.0 as int] }),
            old(self).valid() ==> final(self).valid(),
    {
        let ghost before = self@;
        self.refs[entry.0].live = false;
        assert(self@.refs =~= before.refs.update(
            entry.0 as int,
            RefModel { live: false, ..before.refs[entry.0 as int] },
        ));
    }

    /// The stored position of the reference at `entry`, if it holds one.
    fn position_of(&self, entry: RefIndex) -> (p: Option<&RefPosition>)
        requires
            self.columns_aligned(),
        ensures
            position_model(match p {
                Some(q) => Some(*q),
                None => None,
            }) == self@.position(entry),
    {
        if entry.0 < self.layout.len() {
            match &self.layout[entry.0] {
                Some(p) => Some(p),
                None => None,
            }
        } else {
            None
        }
    }

    /// The stored key the reference at `entry` stands on (a commit, or its tombstone after
    /// deletion), live or dead — `None` until placed, and for commits.
    pub fn positioned_on(&self, entry: EditorIndex) -> (on: Option<CommitIndex>)
        requires
            self.valid(),
        ensures
            on == match entry {
                EditorIndex::Ref(r) => self@.positioned_on(r),
                EditorIndex::Commit(_) => None,
            },
    {
        match entry {
            EditorIndex::Ref(r) => match self.position_of(r) {
                Some(p) => Some(p.on),
                None => None,
            },
            EditorIndex::Commit(_) => None,
        }
    }

    /// The reference directly underneath `entry` in its stack — `None` when it sits directly on
    /// its commit, holds no position, or is a commit.
    pub fn below_of(&self, entry: EditorIndex) -> (below: Option<RefIndex>)
        requires
            self.valid(),
        ensures
            below == match entry {
                EditorIndex::Ref(r) => self@.below_of(r),
                EditorIndex::Commit(_) => None,
            },
    {
        match entry {
            EditorIndex::Ref(r) => match self.position_of(r) {
                Some(p) => p.below,
                None => None,
            },
            EditorIndex::Commit(_) => None,
        }
    }

    /// Whether `entry` is a reference holding a position — only unborn references don't.
    pub fn is_positioned(&self, entry: EditorIndex) -> (r: bool)
        requires
            self.valid(),
        ensures
            r == match entry {
                EditorIndex::Ref(r) => self@.is_positioned(r),
                EditorIndex::Commit(_) => false,
            },
    {
        self.positioned_on(entry).is_some()
    }

    /// The carry of the group holding the reference at `entry`, if it holds a position.
    pub fn carry_of(&self, entry: EditorIndex) -> (carry: Option<&GroupCarry>)
        requires
            self.valid(),
        ensures
            match entry {
                EditorIndex::Ref(r) => match carry {
                    Some(c) => self@.carry_of(r) == Some(c.model()),
                    None => self@.carry_of(r) is None,
                },
                EditorIndex::Commit(_) => carry is None,
            },
    {
        match entry {
            EditorIndex::Ref(r) => match self.position_of(r) {
                Some(p) => Some(&p.carry),
                None => None,
            },
            EditorIndex::Commit(_) => None,
        }
    }

    /// The preserved convergence flag of the reference at `entry`.
    pub fn ambiguous_of(&self, entry: RefIndex) -> (ambiguous: bool)
        requires
            self@.ref_valid(entry),
        ensures
            ambiguous == self@.refs[entry.0 as int].ambiguous,
    {
        self.refs[entry.0].ambiguous
    }

    /// All positioned references — live and dead — ascending.
    pub fn positioned_refs(&self) -> (refs: Vec<RefIndex>)
        requires
            self.valid(),
        ensures
            refs_ascending(refs@),
            forall|r: RefIndex| #[trigger] refs@.contains(r) <==> self@.is_positioned(r),
    {
        let mut out: Vec<RefIndex> = Vec::new();
        let mut i: usize = 0;
        while i < self.refs.len()
            invariant
                self.valid(),
                i <= self.refs.len(),
                refs_ascending(out@),
                forall|k: int| 0 <= k < out@.len() ==> (#[trigger] out@[k]).0 < i,
                forall|r: RefIndex| #[trigger] out@.contains(r) <==> (r.0 < i && self@.is_positioned(r)),
            decreases self.refs.len() - i,
        {
            if self.position_of(RefIndex(i)).is_some() {
                let ghost prev = out@;
                out.push(RefIndex(i));
                assert forall|r: RefIndex| #[trigger] out@.contains(r) <==> (r.0 < i + 1 && self@.is_positioned(r)) by {
                    if r == RefIndex(i) {
                        assert(out@[prev.len() as int] == r);
                    } else if out@.contains(r) {
                        let k = choose|k: int| 0 <= k < out@.len() && out@[k] == r;
                        assert(prev.contains(r));
                    } else if r.0 < i && self@.is_positioned(r) {
                        assert(prev.contains(r));
                        let k = choose|k: int| 0 <= k < prev.len() && prev[k] == r;
                        assert(out@[k] == r);
                    }
                }
            }
            i = i + 1;
        }
        out
    }

    /// An `Entries` carry naming the key's entire live entry set re-states as `All` — the same
    /// normalization [`Self::classify`] applies at authoring — so a statement that says
    /// "everything" is always written the one way.
    fn normalize_carry(&self, key: CommitIndex, carry: GroupCarry) -> (c: GroupCarry)
        requires
            self.valid(),
        ensures
            c.model() == normalized(self@, key, carry.model()),
    {
        match &carry {
            GroupCarry::Entries(entries) => {
                let commit = match crate::positions::resolve_to_commit(self, EditorIndex::Commit(key)) {
                    Some(c) => c,
                    None => return carry,
                };
                let live = crate::positions::live_ids_of(self, commit);
                if live.len() > 0 && same_ids(entries, &live) {
                    GroupCarry::All
                } else {
                    carry
                }
            },
            _ => carry,
        }
    }

    /// Classify a position's entering-entry intent against `on`'s current live entries: empty
    /// is a root, the whole live set the shared `All` carry, any other set an `Entries` carry
    /// stating exactly those entries by stable id.
    fn classify(&self, on: CommitIndex, entering: &Vec<ParentEntry>) -> (carry: GroupCarry)
        requires
            self.valid(),
        ensures
            classifies(self@, on, entering@, carry.model()),
            carry.model() == classified(self@, on, entering@),
    {
        let ghost m = self@;
        if entering.len() == 0 {
            return GroupCarry::Root;
        }
        let live = match crate::positions::resolve_to_commit(self, EditorIndex::Commit(on)) {
            Some(c) => crate::positions::live_children_of(self, c),
            None => Vec::new(),
        };
        assert forall|e: ParentEntry| #[trigger] live@.contains(e) <==> live_set(m, on).contains(e) by {}
        // Whether the intent names exactly the live set.
        let mut same = true;
        let mut i: usize = 0;
        while i < entering.len()
            invariant
                i <= entering.len(),
                same == forall|k: int| 0 <= k < i ==> live@.contains(#[trigger] entering@[k]),
            decreases entering.len() - i,
        {
            if !crate::positions::holds_entry(&live, entering[i]) {
                same = false;
            }
            i = i + 1;
        }
        let mut j: usize = 0;
        while j < live.len()
            invariant
                j <= live.len(),
                same == ((forall|k: int| 0 <= k < entering@.len() ==> live@.contains(#[trigger] entering@[k]))
                    && forall|k: int| 0 <= k < j ==> entering@.contains(#[trigger] live@[k])),
            decreases live.len() - j,
        {
            if !crate::positions::holds_entry(entering, live[j]) {
                same = false;
            }
            j = j + 1;
        }
        assert(same == (entering@.to_set() == live_set(m, on))) by {
            if same {
                assert forall|e: ParentEntry| entering@.to_set().contains(e) <==> live_set(m, on).contains(e) by {
                    if entering@.contains(e) {
                        let k = choose|k: int| 0 <= k < entering@.len() && entering@[k] == e;
                        assert(live@.contains(entering@[k]));
                    }
                    if live@.contains(e) {
                        let k = choose|k: int| 0 <= k < live@.len() && live@[k] == e;
                        assert(entering@.contains(live@[k]));
                    }
                }
                assert(entering@.to_set() =~= live_set(m, on));
            }
            if entering@.to_set() == live_set(m, on) {
                assert forall|k: int| 0 <= k < entering@.len() implies live@.contains(#[trigger] entering@[k]) by {
                    assert(entering@.to_set().contains(entering@[k]));
                }
                assert forall|k: int| 0 <= k < live@.len() implies entering@.contains(#[trigger] live@[k]) by {
                    assert(live@.contains(live@[k]));
                    assert(entering@.to_set().contains(live@[k]));
                }
            }
        }
        if same {
            proof {
                assert(classifies(m, on, entering@, CarryModel::All));
            }
            return GroupCarry::All;
        }
        let mut ids: Vec<ParentEntryId> = Vec::new();
        let mut k: usize = 0;
        while k < entering.len()
            invariant
                m == self@,
                k <= entering.len(),
                ids_ascending(ids@),
                forall|id: ParentEntryId| #[trigger] ids@.contains(id) <==> exists|l: int| 0 <= l < k
                    && #[trigger] m.arena.entry_id_at(entering@[l].child, entering@[l].number as int) == Some(id),
            decreases entering.len() - k,
        {
            let e = entering[k];
            let ghost prev = ids@;
            match self.entry_id_at(e.child, e.number) {
                Some(id) => {
                    insert_id_ascending(&mut ids, id);
                },
                None => {},
            }
            assert forall|id: ParentEntryId| #[trigger] ids@.contains(id) <==> exists|l: int| 0 <= l < k + 1
                && #[trigger] m.arena.entry_id_at(entering@[l].child, entering@[l].number as int) == Some(id) by {
                if exists|l: int| 0 <= l < k + 1 && #[trigger] m.arena.entry_id_at(entering@[l].child, entering@[l].number as int) == Some(id) {
                    let l = choose|l: int| 0 <= l < k + 1 && #[trigger] m.arena.entry_id_at(entering@[l].child, entering@[l].number as int) == Some(id);
                    if l < k {
                        assert(prev.contains(id));
                    }
                }
                if prev.contains(id) {
                    let l = choose|l: int| 0 <= l < k && #[trigger] m.arena.entry_id_at(entering@[l].child, entering@[l].number as int) == Some(id);
                    assert(exists|l: int| 0 <= l < k + 1 && #[trigger] m.arena.entry_id_at(entering@[l].child, entering@[l].number as int) == Some(id));
                }
            }
            k = k + 1;
        }
        assert(ids@.to_set() =~= stated_ids(m, entering@)) by {
            assert forall|id: ParentEntryId| ids@.to_set().contains(id) <==> stated_ids(m, entering@).contains(id) by {
                assert(ids@.to_set().contains(id) == ids@.contains(id));
            }
        }
        let carry = GroupCarry::Entries(ids);
        proof {
            assert(classifies(m, on, entering@, carry.model()));
            let c = classified(m, on, entering@);
            assert(classifies(m, on, entering@, c));
            lemma_ids_ascending_unique(c->Entries_0, ids@);
        }
        carry
    }

    /// Whether `r` rides on `entry`: its below walk passes through `entry`.
    fn rides_on(&self, r: RefIndex, entry: RefIndex) -> (rides: bool)
        requires
            self.valid(),
        ensures
            rides == self@.rides_on(r, entry),
    {
        let mut cursor = self.below_of(EditorIndex::Ref(r));
        let mut fuel: usize = crate::positions::WALK_LIMIT;
        loop
            invariant
                self.valid(),
                self@.rides_on(r, entry) == self@.chain_hits(cursor, entry, fuel as nat),
            decreases fuel,
        {
            match cursor {
                None => return false,
                Some(b) => {
                    if b == entry {
                        return true;
                    }
                    if fuel == 0 {
                        return false;
                    }
                    cursor = self.below_of(EditorIndex::Ref(b));
                    fuel = fuel - 1;
                },
            }
        }
    }

    /// Put `entry` at `key` with `carry` (normalized) on top of `below`; every reference riding
    /// on it follows it to `key`.
    fn place(&mut self, entry: RefIndex, key: CommitIndex, carry: GroupCarry, below: Option<RefIndex>)
        requires
            old(self).valid(),
            old(self)@.ref_valid(entry),
            old(self)@.arena.valid(key),
            below matches Some(b) ==> old(self)@.ref_valid(b),
        ensures
            final(self).valid(),
            final(self)@ == old(self)@.placed(
                entry,
                PositionModel { on: key, below, carry: normalized(old(self)@, key, carry.model()) },
            ),
    {
        let ghost before = self@;
        let carry = self.normalize_carry(key, carry);
        let n = self.layout.len();
        let mut i: usize = 0;
        while i < n
            invariant
                self.valid(),
                n == self.layout@.len(),
                n == before.refs.len(),
                i <= n,
                self@.arena == before.arena,
                self@.ws_real_parents == before.ws_real_parents,
                self@.ws_minted_parents == before.ws_minted_parents,
                before.wf(),
                before.ref_valid(entry),
                before.arena.valid(key),
                forall|x: RefIndex| #[trigger] self@.below_of(x) == before.below_of(x),
                forall|j: int| 0 <= j < n ==> #[trigger] self@.refs[j] == (RefModel {
                    position: if j < i && j != entry.0 {
                        before.placed_position(j, entry, PositionModel { on: key, below, carry: carry.model() })
                    } else {
                        before.refs[j].position
                    },
                    ..before.refs[j]
                }),
            decreases n - i,
        {
            proof {
                lemma_rides_on_below_only(before, self@, RefIndex(i), entry);
            }
            if i != entry.0 && self.layout[i].is_some() && self.rides_on(RefIndex(i), entry) {
                let ghost mid = self@;
                let moved = match &self.layout[i] {
                    Some(p) => RefPosition { on: key, below: p.below, carry: p.carry.duplicate() },
                    None => RefPosition { on: key, below: None, carry: GroupCarry::Root },
                };
                self.layout.set(i, Some(moved));
                assert(self@.refs =~= mid.refs.update(i as int, RefModel { position: Some(moved.model()), ..mid.refs[i as int] }));
            }
            i = i + 1;
        }
        let ghost mid = self@;
        let ghost target = before.placed(entry, PositionModel { on: key, below, carry: carry.model() });
        let placed = RefPosition { on: key, below, carry };
        self.layout.set(entry.0, Some(placed));
        assert(self@.refs =~= mid.refs.update(entry.0 as int, RefModel { position: Some(placed.model()), ..mid.refs[entry.0 as int] }));
        assert forall|j: int| 0 <= j < n implies #[trigger] self@.refs[j] == target.refs[j] by {
            assert(mid.refs[j] == (RefModel {
                position: if j < n && j != entry.0 {
                    before.placed_position(j, entry, PositionModel { on: key, below, carry: carry.model() })
                } else {
                    before.refs[j].position
                },
                ..before.refs[j]
            }));
        }
        assert(self@.refs =~= target.refs);
    }

    fn set_ambiguous(&mut self, entry: RefIndex, ambiguous: bool)
        requires
            old(self).valid(),
            old(self)@.ref_valid(entry),
        ensures
            final(self).valid(),
            final(self)@ == old(self)@.with_ambiguous(entry, ambiguous),
    {
        let ghost before = self@;
        self.refs[entry.0].ambiguous = ambiguous;
        assert(self@.refs =~= before.refs.update(entry.0 as int, RefModel { ambiguous, ..before.refs[entry.0 as int] }));
    }

    /// Author a position for `entry` on `on`: `entering` is the carry intent — the parent
    /// entries meant to enter through it — classified against `on`'s current entries; the
    /// references riding on `entry` come along.
    pub fn set_position(
        &mut self,
        entry: RefIndex,
        on: CommitIndex,
        entering: &Vec<ParentEntry>,
        ambiguous: bool,
        below: Option<RefIndex>,
    )
        requires
            old(self).valid(),
            old(self)@.ref_valid(entry),
            old(self)@.arena.valid(on),
            below matches Some(b) ==> old(self)@.ref_valid(b),
        ensures
            final(self).valid(),
            final(self)@ == old(self)@.placed(
                entry,
                PositionModel {
                    on,
                    below,
                    carry: normalized(old(self)@, on, classified(old(self)@, on, entering@)),
                },
            ).with_ambiguous(entry, ambiguous),
    {
        let carry = self.classify(on, entering);
        self.place(entry, on, carry, below);
        self.set_ambiguous(entry, ambiguous);
    }

    /// Splice `entry` out of its stack, dependents healing past it: everything stacked
    /// directly on it re-hangs onto what it sat on. `entry` itself keeps its position — the
    /// retained position a deletion leaves behind.
    pub fn splice(&mut self, entry: RefIndex)
        requires
            old(self).valid(),
        ensures
            final(self).valid(),
            final(self)@ == old(self)@.spliced(entry),
    {
        let ghost before = self@;
        let heal_to = match self.position_of(entry) {
            Some(p) => p.below,
            None => return,
        };
        let n = self.layout.len();
        let mut i: usize = 0;
        while i < n
            invariant
                self.valid(),
                n == self.layout@.len(),
                n == before.refs.len(),
                i <= n,
                before.is_positioned(entry),
                before.wf(),
                heal_to == before.below_of(entry),
                self@.arena == before.arena,
                self@.ws_real_parents == before.ws_real_parents,
                self@.ws_minted_parents == before.ws_minted_parents,
                forall|j: int| 0 <= j < n ==> #[trigger] self@.refs[j] == if j < i {
                    before.spliced(entry).refs[j]
                } else {
                    before.refs[j]
                },
            decreases n - i,
        {
            let ghost mid = self@;
            let healed = match &self.layout[i] {
                Some(p) => if i != entry.0 && p.below == Some(entry) {
                    Some(RefPosition { on: p.on, below: heal_to, carry: p.carry.duplicate() })
                } else {
                    None
                },
                None => None,
            };
            if let Some(h) = healed {
                self.layout.set(i, Some(h));
                assert(self@.refs =~= mid.refs.update(i as int, RefModel { position: Some(h.model()), ..mid.refs[i as int] }));
            }
            i = i + 1;
        }
        assert(self@.refs =~= before.spliced(entry).refs);
    }

    /// Join `entry` into the group of `mate` — copying the mate's key, carry and convergence
    /// flag — on top of `below`. Nothing changes when `mate` holds no position.
    pub fn join_group_of(&mut self, entry: RefIndex, mate: RefIndex, below: Option<RefIndex>)
        requires
            old(self).valid(),
            old(self)@.ref_valid(entry),
            below matches Some(b) ==> old(self)@.ref_valid(b),
        ensures
            final(self).valid(),
            final(self)@ == match old(self)@.position(mate) {
                Some(p) => old(self)@.placed(
                    entry,
                    PositionModel { on: p.on, below, carry: normalized(old(self)@, p.on, p.carry) },
                ).with_ambiguous(entry, old(self)@.refs[mate.0 as int].ambiguous),
                None => old(self)@,
            },
    {
        let (key, carry) = match self.position_of(mate) {
            Some(p) => (p.on, p.carry.duplicate()),
            None => return,
        };
        let ambiguous = self.refs[mate.0].ambiguous;
        self.place(entry, key, carry, below);
        self.set_ambiguous(entry, ambiguous);
    }

    /// Re-key `entry`'s position onto `onto`, keeping its below and carry; the references
    /// riding on it come along. Nothing changes for an unplaced reference or one already there.
    pub fn rekey_position(&mut self, entry: RefIndex, onto: CommitIndex)
        requires
            old(self).valid(),
            old(self)@.arena.valid(onto),
        ensures
            final(self).valid(),
            final(self)@ == match old(self)@.position(entry) {
                Some(p) => if p.on == onto {
                    old(self)@
                } else {
                    old(self)@.placed(entry, PositionModel { on: onto, below: p.below, carry: normalized(old(self)@, onto, p.carry) })
                },
                None => old(self)@,
            },
    {
        let (on, below, carry) = match self.position_of(entry) {
            Some(p) => (p.on, p.below, p.carry.duplicate()),
            None => return,
        };
        if on == onto {
            return;
        }
        self.place(entry, onto, carry, below);
    }

    /// Re-hang `entry` onto `below` — an adjacency statement only: its key and carry stay, and
    /// the references riding on it come along. Nothing changes for an unplaced reference or
    /// one already there.
    pub fn set_below(&mut self, entry: RefIndex, below: Option<RefIndex>)
        requires
            old(self).valid(),
            below matches Some(b) ==> old(self)@.ref_valid(b),
        ensures
            final(self).valid(),
            final(self)@ == match old(self)@.position(entry) {
                Some(p) => if p.below == below {
                    old(self)@
                } else {
                    old(self)@.placed(entry, PositionModel { on: p.on, below, carry: normalized(old(self)@, p.on, p.carry) })
                },
                None => old(self)@,
            },
    {
        let (on, current, carry) = match self.position_of(entry) {
            Some(p) => (p.on, p.below, p.carry.duplicate()),
            None => return,
        };
        if current == below {
            return;
        }
        self.place(entry, on, carry, below);
    }

    /// Point a dead reference's kept position at `on` — the bare pointer stale indices resolve
    /// through. Its old spot heals (dependents re-hang past it) and it lands as a bare root.
    pub fn set_retained_position(&mut self, entry: RefIndex, on: CommitIndex)
        requires
            old(self).valid(),
            old(self)@.ref_valid(entry),
            old(self)@.arena.valid(on),
        ensures
            final(self).valid(),
            final(self)@ == old(self)@.spliced(entry).placed(
                entry,
                PositionModel { on, below: None, carry: CarryModel::Root },
            ).with_ambiguous(entry, false),
    {
        self.splice(entry);
        self.place(entry, on, GroupCarry::Root, None);
        self.set_ambiguous(entry, false);
    }

    /// Overwrite whether the rebase may move the reference at `entry`.
    pub fn set_ref_mutable(&mut self, entry: RefIndex, mutable: bool)
        requires
            old(self)@.ref_valid(entry),
        ensures
            final(self)@ == old(self)@.with_ref(entry, RefModel { mutable, ..old(self)@.refs[entry.0 as int] }),
            old(self).valid() ==> final(self).valid(),
    {
        let ghost before = self@;
        self.refs[entry.0].mutable = mutable;
        assert(self@.refs =~= before.refs.update(entry.0 as int, RefModel { mutable, ..before.refs[entry.0 as int] }));
    }

    /// Overwrite the convergence flag of the reference at `entry`.
    pub fn set_ref_ambiguous(&mut self, entry: RefIndex, ambiguous: bool)
        requires
            old(self)@.ref_valid(entry),
        ensures
            final(self)@ == old(self)@.with_ref(entry, RefModel { ambiguous, ..old(self)@.refs[entry.0 as int] }),
            old(self).valid() ==> final(self).valid(),
    {
        let ghost before = self@;
        self.refs[entry.0].ambiguous = ambiguous;
        assert(self@.refs =~= before.refs.update(entry.0 as int, RefModel { ambiguous, ..before.refs[entry.0 as int] }));
    }

    /// Drop every carry statement naming `id`.
    fn drop_statements(&mut self, id: ParentEntryId)
        requires
            old(self).valid(),
        ensures
            final(self).valid(),
            final(self)@ == old(self)@.statements_dropped(id),
    {
        let ghost before = self@;
        let ghost target = before.statements_dropped(id);
        let n = self.layout.len();
        let mut i: usize = 0;
        while i < n
            invariant
                self.valid(),
                before.wf(),
                target == before.statements_dropped(id),
                n == self.layout@.len(),
                n == before.refs.len(),
                i <= n,
                self@.arena == before.arena,
                self@.ws_real_parents == before.ws_real_parents,
                self@.ws_minted_parents == before.ws_minted_parents,
                self@.refs.len() == n,
                forall|j: int| 0 <= j < n ==> #[trigger] self@.refs[j] == if j < i { target.refs[j] } else { before.refs[j] },
            decreases n - i,
        {
            let updated = match &self.layout[i] {
                Some(p) => match &p.carry {
                    GroupCarry::Entries(v) => Some(RefPosition { on: p.on, below: p.below, carry: GroupCarry::Entries(ids_without(v, id)) }),
                    _ => None,
                },
                None => None,
            };
            match updated {
                Some(q) => {
                    let ghost mid = self@;
                    self.layout.set(i, Some(q));
                    assert(self@.refs =~= mid.refs.update(i as int, RefModel { position: Some(q.model()), ..mid.refs[i as int] }));
                    assert(self@.refs[i as int] == target.refs[i as int]);
                },
                None => {
                    assert(self@.refs[i as int] == target.refs[i as int]);
                },
            }
            i = i + 1;
        }
        assert(self@.refs =~= target.refs);
    }

    /// Remove `child`'s parent at `parent_number`, returning it; later parent numbers shift
    /// down, and carry statements naming the removed entry are dropped for good — an operation
    /// that wants them back must state them again. `None` (nothing changes) when there is no
    /// such parent.
    pub fn remove_parent(&mut self, child: CommitIndex, parent_number: usize) -> (target: Option<CommitIndex>)
        requires
            old(self).valid(),
        ensures
            target is Some <==> (old(self)@.arena.valid(child) && parent_number < old(self)@.arena.parents(child).len()),
            target is None ==> final(self)@ == old(self)@,
            target matches Some(t) ==> {
                &&& t == old(self)@.arena.parents(child)[parent_number as int]
                &&& final(self)@ == old(self)@.with_arena(old(self)@.arena.parent_removed(child, parent_number as int))
                    .statements_dropped(old(self)@.arena.entries(child)[parent_number as int])
            },
            final(self).valid(),
    {
        let ghost before = self@;
        let (target, removed) = match self.commits.remove_parent(child, parent_number) {
            Some(pair) => pair,
            None => return None,
        };
        assert(self@ == before.with_arena(self@.arena));
        assert(self.valid()) by {
            assert(self@.arena.nodes.len() == before.arena.nodes.len());
        }
        self.drop_statements(removed);
        Some(target)
    }

    /// Re-state carry statements from retired entry ids onto their successors: a statement list
    /// naming a retired id takes the successor of the first restatement of it, re-sorted and
    /// without duplicates; other lists stay as they are.
    pub fn restate_entries(&mut self, restates: &Vec<(ParentEntryId, ParentEntryId)>)
        requires
            old(self).valid(),
        ensures
            final(self).valid(),
            final(self)@.arena == old(self)@.arena,
            final(self)@.ws_real_parents == old(self)@.ws_real_parents,
            final(self)@.ws_minted_parents == old(self)@.ws_minted_parents,
            final(self)@.refs.len() == old(self)@.refs.len(),
            forall|i: int| #![trigger final(self)@.refs[i]] 0 <= i < old(self)@.refs.len() ==> {
                let b = old(self)@.refs[i];
                let a = final(self)@.refs[i];
                &&& a.name == b.name
                &&& a.created_as == b.created_as
                &&& a.mutable == b.mutable
                &&& a.live == b.live
                &&& a.ambiguous == b.ambiguous
                &&& match b.position {
                    Some(p) => a.position matches Some(q) && q.on == p.on && q.below == p.below
                        && restates_carry(p.carry, restates@, q.carry),
                    None => a.position is None,
                }
            },
    {
        let ghost before = self@;
        let n = self.layout.len();
        let mut i: usize = 0;
        while i < n
            invariant
                self.valid(),
                before.wf(),
                n == self.layout@.len(),
                n == before.refs.len(),
                i <= n,
                self@.arena == before.arena,
                self@.ws_real_parents == before.ws_real_parents,
                self@.ws_minted_parents == before.ws_minted_parents,
                self@.refs.len() == n,
                forall|j: int| #![trigger self@.refs[j]] 0 <= j < n ==> {
                    let b = before.refs[j];
                    let a = self@.refs[j];
                    &&& a.name == b.name
                    &&& a.created_as == b.created_as
                    &&& a.mutable == b.mutable
                    &&& a.live == b.live
                    &&& a.ambiguous == b.ambiguous
                    &&& if j < i {
                        match b.position {
                            Some(p) => a.position matches Some(q) && q.on == p.on && q.below == p.below
                                && restates_carry(p.carry, restates@, q.carry),
                            None => a.position is None,
                        }
                    } else {
                        a.position == b.position
                    }
                },
            decreases n - i,
        {
            let updated = match &self.layout[i] {
                Some(p) => match &p.carry {
                    GroupCarry::Entries(v) => match restate_list(v, restates) {
                        Some(out) => Some(RefPosition { on: p.on, below: p.below, carry: GroupCarry::Entries(out) }),
                        None => None,
                    },
                    _ => None,
                },
                None => None,
            };
            match updated {
                Some(q) => {
                    let ghost mid = self@;
                    self.layout.set(i, Some(q));
                    assert(self@.refs =~= mid.refs.update(i as int, RefModel { position: Some(q.model()), ..mid.refs[i as int] }));
                },
                None => {},
            }
            i = i + 1;
        }
    }


    /// Whether `carry` claims the parent entry `entry`.
    fn claims(&self, carry: &GroupCarry, entry: ParentEntry) -> (r: bool)
        ensures
            r == crate::positions::carry_claims(self@, carry.model(), entry),
    {
        match carry {
            GroupCarry::Root => false,
            GroupCarry::All => true,
            GroupCarry::Entries(stated) => match self.entry_id_at(entry.child, entry.number) {
                Some(id) => crate::positions::holds_id(stated, id),
                None => false,
            },
        }
    }

    /// Whether the positioned `r` tops its group.
    fn tops_group_at(&self, r: RefIndex, p: &RefPosition) -> (top: bool)
        requires
            self.valid(),
            self@.position(r) == Some(p.model()),
        ensures
            top == self@.tops_group(r),
    {
        let mut j: usize = 0;
        while j < self.layout.len()
            invariant
                self.valid(),
                self@.position(r) == Some(p.model()),
                j <= self.layout@.len(),
                forall|e: RefIndex| e.0 < j ==> !#[trigger] self@.group_above(e, r),
            decreases self.layout.len() - j,
        {
            match &self.layout[j] {
                Some(q) => {
                    if j != r.0 && q.below == Some(r) && q.on == p.on && same_carry(&q.carry, &p.carry) {
                        assert(self@.group_above(RefIndex(j), r));
                        return false;
                    }
                },
                None => {},
            }
            j = j + 1;
        }
        assert forall|e: RefIndex| !#[trigger] self@.group_above(e, r) by {
            if e.0 >= j {
                assert(!self@.is_positioned(e));
            }
        }
        true
    }

    /// The references carrying the parent entry `entry` into the stored key `parent`: each
    /// carrying group answers with its top member — the below walk covers the rest. Ascending.
    pub fn entry_carriers(&self, parent: CommitIndex, entry: ParentEntry) -> (carriers: Vec<RefIndex>)
        requires
            self.valid(),
        ensures
            refs_ascending(carriers@),
            forall|r: RefIndex| #[trigger] carriers@.contains(r) <==> self@.carries_entry(parent, entry, r),
    {
        let mut out: Vec<RefIndex> = Vec::new();
        let mut i: usize = 0;
        while i < self.layout.len()
            invariant
                self.valid(),
                i <= self.layout@.len(),
                refs_ascending(out@),
                forall|k: int| 0 <= k < out@.len() ==> (#[trigger] out@[k]).0 < i,
                forall|r: RefIndex| #[trigger] out@.contains(r) <==> (r.0 < i && self@.carries_entry(parent, entry, r)),
            decreases self.layout.len() - i,
        {
            let r = RefIndex(i);
            let hit = match &self.layout[i] {
                Some(p) => p.on == parent && self.claims(&p.carry, entry) && self.tops_group_at(r, p),
                None => false,
            };
            assert(hit == self@.carries_entry(parent, entry, r));
            if hit {
                let ghost prev = out@;
                out.push(r);
                assert forall|x: RefIndex| #[trigger] out@.contains(x) <==> (x.0 < i + 1 && self@.carries_entry(parent, entry, x)) by {
                    if x == r {
                        assert(out@[prev.len() as int] == x);
                    } else {
                        if out@.contains(x) {
                            let k = choose|k: int| 0 <= k < out@.len() && out@[k] == x;
                            assert(prev[k] == x);
                            assert(prev.contains(x));
                        }
                        if x.0 < i + 1 && self@.carries_entry(parent, entry, x) {
                            assert(x.0 < i);
                            assert(prev.contains(x));
                            let k = choose|k: int| 0 <= k < prev.len() && prev[k] == x;
                            assert(out@[k] == x);
                        }
                    }
                }
            }
            i = i + 1;
        }
        assert forall|r: RefIndex| #[trigger] out@.contains(r) <==> self@.carries_entry(parent, entry, r) by {
            if r.0 >= i {
                assert(!self@.is_positioned(r));
            }
        }
        out
    }

    /// Classify each live parent of the workspace commit `ws`, by parent number: a real parent and
    /// the mint declaring an empty lane can name the same commit, so the kind is read per entry,
    /// never per target.
    pub fn ws_parent_kinds(&self, ws: CommitIndex) -> (kinds: Vec<WsParentKind>)
        requires
            self.valid(),
        ensures
            kinds@.len() == self@.arena.parents(ws).len(),
            forall|k: int| 0 <= k < kinds@.len() ==> #[trigger] kinds@[k] == ws_kind(self@, ws, k),
    {
        let parents = self.parents(EditorIndex::Commit(ws));
        let mut kinds: Vec<WsParentKind> = Vec::new();
        let mut k: usize = 0;
        while k < parents.len()
            invariant
                self.valid(),
                parents@ == self@.arena.parents(ws),
                k <= parents@.len(),
                kinds@.len() == k,
                forall|l: int| 0 <= l < k ==> #[trigger] kinds@[l] == ws_kind(self@, ws, l),
            decreases parents.len() - k,
        {
            let target = parents[k];
            let kind = match self.entry_id_at(ws, k) {
                Some(entry) => if holds_pair(&self.ws_minted_parents, entry, target) {
                    WsParentKind::Minted
                } else if holds_pair(&self.ws_real_parents, entry, target) {
                    WsParentKind::Faithful
                } else {
                    WsParentKind::Surgical
                },
                None => WsParentKind::Surgical,
            };
            kinds.push(kind);
            k = k + 1;
        }
        kinds
    }

    /// Record the workspace commit's ingested parents: `on_disk` — the entries backed by an on-disk
    /// parent, with the target each held — and `minted` — the entries that exist only in the
    /// declaration, one per empty lane.
    pub fn set_workspace_parents(
        &mut self,
        on_disk: Vec<(ParentEntryId, CommitIndex)>,
        minted: Vec<(ParentEntryId, CommitIndex)>,
    )
        ensures
            final(self)@ == (StoreModel { ws_real_parents: on_disk@, ws_minted_parents: minted@, ..old(self)@ }),
            old(self).valid() ==> final(self).valid(),
    {
        self.ws_real_parents = on_disk;
        self.ws_minted_parents = minted;
    }


    /// Adopt `groups` wholesale as the reference groups standing on `key` — creation's copy of a
    /// stored layout: each member takes its place in its group, and any other reference that
    /// stood on `key` loses its position. Members and attachments must be records, and no
    /// reference may be a member twice.
    pub fn insert_groups(&mut self, key: CommitIndex, groups: Vec<RefGroup>)
        requires
            old(self).valid(),
            old(self)@.arena.valid(key),
            members_distinct(groups_model(groups@)),
            forall|g: int, k: int, r: RefIndex| #[trigger] member_at(groups_model(groups@), g, k, r) ==> old(self)@.ref_valid(r),
            forall|g: int| 0 <= g < groups@.len() ==> ((#[trigger] groups@[g]).attach matches Some(b) ==> old(self)@.ref_valid(b)),
        ensures
            final(self).valid(),
            final(self)@ == (StoreModel {
                refs: Seq::new(
                    old(self)@.refs.len(),
                    |i: int| RefModel { position: old(self)@.adopted_position(key, groups_model(groups@), i), ..old(self)@.refs[i] },
                ),
                ..old(self)@
            }),
    {
        let ghost before = self@;
        let ghost gm = groups_model(groups@);
        let n = self.layout.len();
        let mut i: usize = 0;
        while i < n
            invariant
                self.valid(),
                before.wf(),
                n == self.layout@.len(),
                n == before.refs.len(),
                i <= n,
                self@.arena == before.arena,
                self@.ws_real_parents == before.ws_real_parents,
                self@.ws_minted_parents == before.ws_minted_parents,
                self@.refs.len() == n,
                forall|j: int| 0 <= j < n ==> #[trigger] self@.refs[j] == (RefModel {
                    position: if j < i { before.cleared_position(key, j) } else { before.refs[j].position },
                    ..before.refs[j]
                }),
            decreases n - i,
        {
            let clear = match &self.layout[i] {
                Some(p) => p.on == key,
                None => false,
            };
            if clear {
                let ghost mid = self@;
                self.layout.set(i, None);
                assert(self@.refs =~= mid.refs.update(i as int, RefModel { position: None, ..mid.refs[i as int] }));
            }
            i = i + 1;
        }
        proof {
            assert forall|j: int| 0 <= j < n implies before.staged_position(key, gm, 0, 0, j) == before.cleared_position(key, j) by {
                if exists|g2: int, k2: int| #[trigger] member_at(gm, g2, k2, RefIndex(j as usize)) && staged_before(0, 0, g2, k2) {
                    let (g2, k2) = choose|g2: int, k2: int| #[trigger] member_at(gm, g2, k2, RefIndex(j as usize)) && staged_before(0, 0, g2, k2);
                    assert(member_at(gm, g2, k2, RefIndex(j as usize)));
                }
            }
        }
        let mut g: usize = 0;
        while g < groups.len()
            invariant
                self.valid(),
                before.wf(),
                before.arena.valid(key),
                gm == groups_model(groups@),
                members_distinct(gm),
                forall|a: int, b: int, r: RefIndex| #[trigger] member_at(gm, a, b, r) ==> before.ref_valid(r),
                forall|a: int| 0 <= a < groups@.len() ==> ((#[trigger] groups@[a]).attach matches Some(x) ==> before.ref_valid(x)),
                n == self.layout@.len(),
                n == before.refs.len(),
                g <= groups@.len(),
                self@.arena == before.arena,
                self@.ws_real_parents == before.ws_real_parents,
                self@.ws_minted_parents == before.ws_minted_parents,
                self@.refs.len() == n,
                forall|j: int| 0 <= j < n ==> #[trigger] self@.refs[j] == (RefModel {
                    position: before.staged_position(key, gm, g as int, 0, j),
                    ..before.refs[j]
                }),
            decreases groups.len() - g,
        {
            let group = &groups[g];
            assert(gm[g as int] == group.model());
            let mut k: usize = 0;
            while k < group.members.len()
                invariant
                    self.valid(),
                    before.wf(),
                    before.arena.valid(key),
                    gm == groups_model(groups@),
                    members_distinct(gm),
                    forall|a: int, b: int, r: RefIndex| #[trigger] member_at(gm, a, b, r) ==> before.ref_valid(r),
                    forall|a: int| 0 <= a < groups@.len() ==> ((#[trigger] groups@[a]).attach matches Some(x) ==> before.ref_valid(x)),
                    g < groups@.len(),
                    *group == groups@[g as int],
                    gm[g as int] == group.model(),
                    n == self.layout@.len(),
                    n == before.refs.len(),
                    k <= group.members@.len(),
                    self@.arena == before.arena,
                    self@.ws_real_parents == before.ws_real_parents,
                    self@.ws_minted_parents == before.ws_minted_parents,
                    self@.refs.len() == n,
                    forall|j: int| 0 <= j < n ==> #[trigger] self@.refs[j] == (RefModel {
                        position: before.staged_position(key, gm, g as int, k as int, j),
                        ..before.refs[j]
                    }),
                decreases group.members.len() - k,
            {
                let m = group.members[k];
                assert(member_at(gm, g as int, k as int, m));
                let below = if k == 0 {
                    group.attach
                } else {
                    assert(member_at(gm, g as int, k - 1, group.members@[k - 1]));
                    Some(group.members[k - 1])
                };
                let pos = RefPosition { on: key, below, carry: group.carry.duplicate() };
                assert(pos.model() == member_position(gm, key, g as int, k as int));
                let ghost mid = self@;
                self.layout.set(m.0, Some(pos));
                assert(self@.refs =~= mid.refs.update(m.0 as int, RefModel { position: Some(pos.model()), ..mid.refs[m.0 as int] }));
                proof {
                    assert forall|j: int| 0 <= j < n implies #[trigger] self@.refs[j] == (RefModel {
                        position: before.staged_position(key, gm, g as int, k + 1, j),
                        ..before.refs[j]
                    }) by {
                        lemma_staged_step(before, key, gm, g as int, k as int, j);
                    }
                }
                k = k + 1;
            }
            proof {
                assert forall|j: int| 0 <= j < n implies before.staged_position(key, gm, g as int, k as int, j)
                    == before.staged_position(key, gm, g + 1, 0, j) by {
                    assert forall|a: int, b: int| #[trigger] member_at(gm, a, b, RefIndex(j as usize))
                        implies staged_before(g as int, k as int, a, b) == staged_before(g + 1, 0, a, b) by {}
                    lemma_staged_same(before, key, gm, g as int, k as int, g + 1, 0, j);
                }
            }
            g = g + 1;
        }
        proof {
            let target = Seq::new(n as nat, |i: int| RefModel { position: before.adopted_position(key, gm, i), ..before.refs[i] });
            assert forall|j: int| 0 <= j < n implies #[trigger] self@.refs[j] == target[j] by {
                let r = RefIndex(j as usize);
                if in_groups(gm, r) {
                    let (a, b) = choose|a: int, b: int| #[trigger] member_at(gm, a, b, r);
                    assert(member_at(gm, a, b, r) && staged_before(g as int, 0, a, b));
                    let (c, d) = choose|c: int, d: int| #[trigger] member_at(gm, c, d, r) && staged_before(g as int, 0, c, d);
                    assert(member_at(gm, c, d, r));
                } else {
                    if exists|c: int, d: int| #[trigger] member_at(gm, c, d, r) && staged_before(g as int, 0, c, d) {
                        let (c, d) = choose|c: int, d: int| #[trigger] member_at(gm, c, d, r) && staged_before(g as int, 0, c, d);
                        assert(in_groups(gm, r));
                    }
                }
            }
            assert(self@.refs =~= target);
        }
    }

}

/// Tombstoning descends alike through two arenas that agree on which nodes are commits and on
/// every parent array.
proof fn lemma_descend_agrees(a: ArenaModel, b: ArenaModel, node: CommitIndex, fuel: nat)
    requires
        forall|i: CommitIndex| #[trigger] a.is_commit(i) == b.is_commit(i) && a.parents(i) == b.parents(i),
    ensures
        crate::positions::descend(a, node, fuel) == crate::positions::descend(b, node, fuel),
    decreases fuel,
{
    assert(a.is_commit(node) == b.is_commit(node) && a.parents(node) == b.parents(node));
    if !a.is_commit(node) && a.parents(node).len() > 0 && fuel > 1 {
        lemma_descend_agrees(a, b, a.parents(node)[0], (fuel - 1) as nat);
    }
}

/// Indices issued by the store stay valid for its whole life: no edit of either half removes a
/// commit-arena node or a reference record — commits and references tombstone in place.
pub proof fn law_indices_outlive_edits(
    m: StoreModel,
    e: EditorIndex,
    r: RefIndex,
    record: RefModel,
    p: PositionModel,
    id: ParentEntryId,
    c: CommitIndex,
    k: int,
    target: CommitIndex,
)
    requires
        m.contains(e),
        m.ref_valid(r),
        m.arena.valid(c),
    ensures
        m.with_ref(r, record).contains(e),
        m.placed(r, p).contains(e),
        m.spliced(r).contains(e),
        m.statements_dropped(id).contains(e),
        m.with_arena(m.arena.parent_pushed(c, target)).contains(e),
        m.with_arena(m.arena.parent_inserted(c, k, target)).contains(e),
        m.with_arena(m.arena.parent_removed(c, k)).contains(e),
        m.with_arena(m.arena.parent_replaced(c, k, target)).contains(e),
        m.with_arena(m.arena.commit_set(c, None)).contains(e),
{
}

/// Deleting a reference keeps its record: the name and the position stay, so an index taken
/// before the deletion still resolves to the same commit through the tombstoned record.
pub proof fn law_tombstone_keeps_record(m: StoreModel, r: RefIndex, e: EditorIndex)
    requires
        m.wf(),
        m.ref_valid(r),
    ensures
        ({
            let d = m.with_ref(r, RefModel { live: false, ..m.refs[r.0 as int] });
            &&& d.wf()
            &&& !d.is_reference(EditorIndex::Ref(r))
            &&& d.refs[r.0 as int].name == m.refs[r.0 as int].name
            &&& d.position(r) == m.position(r)
            &&& crate::positions::resolve(d, e) == crate::positions::resolve(m, e)
        }),
{
    let d = m.with_ref(r, RefModel { live: false, ..m.refs[r.0 as int] });
    assert(d.names_unique()) by {
        assert forall|i: int, j: int| 0 <= i < d.refs.len() && 0 <= j < d.refs.len() && i != j
            implies #[trigger] d.refs[i].name != #[trigger] d.refs[j].name by {
            assert(m.refs[i].name != m.refs[j].name);
        }
    }
    assert(d.positions_in_range()) by {
        assert forall|i: int| #![trigger d.refs[i]] 0 <= i < d.refs.len() && d.refs[i].position is Some implies {
            &&& d.arena.valid(d.refs[i].position->0.on)
            &&& match d.refs[i].position->0.below {
                Some(b) => d.ref_valid(b),
                None => true,
            }
        } by {
            assert(m.refs[i].position == d.refs[i].position);
        }
    }
    match e {
        EditorIndex::Ref(x) => {
            assert(d.positioned_on(x) == m.positioned_on(x));
        },
        EditorIndex::Commit(_) => {},
    }
}

/// Re-creating a deleted reference revives its record: the deleted record is the only one with
/// its name — the one re-adding the name comes back to — and once live again it stands where
/// it stood before the deletion.
pub proof fn law_recreate_revives(m: StoreModel, r: RefIndex, mutable: bool)
    requires
        m.wf(),
        m.ref_valid(r),
    ensures
        ({
            let d = m.with_ref(r, RefModel { live: false, ..m.refs[r.0 as int] });
            let back = d.with_ref(r, RefModel { mutable, live: true, ..d.refs[r.0 as int] });
            &&& d.has_name(m.refs[r.0 as int].name)
            &&& forall|j: int| 0 <= j < d.refs.len() && #[trigger] d.refs[j].name == m.refs[r.0 as int].name ==> j == r.0
            &&& back.is_reference(EditorIndex::Ref(r))
            &&& back.refs[r.0 as int].name == m.refs[r.0 as int].name
            &&& back.position(r) == m.position(r)
        }),
{
    let d = m.with_ref(r, RefModel { live: false, ..m.refs[r.0 as int] });
    assert(d.refs[r.0 as int].name == m.refs[r.0 as int].name);
    assert forall|j: int| 0 <= j < d.refs.len() && #[trigger] d.refs[j].name == m.refs[r.0 as int].name implies j == r.0 by {
        if j != r.0 {
            assert(m.refs[j].name != m.refs[r.0 as int].name);
        }
    }
}

/// The rebase write: rewriting a commit's id in place leaves every parent array and every
/// reference position untouched, and every entry resolves to the commit it resolved to before.
pub proof fn law_id_rewrite_keeps_positions(m: StoreModel, c: CommitIndex, id: Seq<u8>, e: EditorIndex, r: RefIndex)
    requires
        m.arena.valid(c),
    ensures
        ({
            let w = m.with_arena(m.arena.commit_id_set(c, id));
            &&& w.arena.is_commit(c) == m.arena.is_commit(c)
            &&& m.arena.is_commit(c) ==> w.arena.nodes[c.0 as int].commit->0.id == id
                && w.arena.nodes[c.0 as int].commit->0.preserved_parents == m.arena.nodes[c.0 as int].commit->0.preserved_parents
            &&& w.parents(e) == m.parents(e)
            &&& w.position(r) == m.position(r)
            &&& crate::positions::resolve(w, e) == crate::positions::resolve(m, e)
        }),
{
    let w = m.with_arena(m.arena.commit_id_set(c, id));
    assert forall|i: CommitIndex| #[trigger] w.arena.is_commit(i) == m.arena.is_commit(i) && w.arena.parents(i) == m.arena.parents(i) by {
        if i == c {
        }
    }
    let key = match e {
        EditorIndex::Commit(x) => x,
        EditorIndex::Ref(x) => match m.positioned_on(x) {
            Some(on) => on,
            None => c,
        },
    };
    lemma_descend_agrees(w.arena, m.arena, key, crate::positions::WALK_LIMIT as nat);
    match e {
        EditorIndex::Commit(x) => {
            assert(w.arena.parents(x) == m.arena.parents(x));
        },
        EditorIndex::Ref(x) => {},
    }
}

/// Removing a parent entry drops its statements for good: no carry names the removed id
/// afterwards, and every position otherwise stands where it stood.
pub proof fn law_removed_entry_unstated(m: StoreModel, id: ParentEntryId, r: RefIndex)
    ensures
        ({
            let d = m.statements_dropped(id);
            &&& d.positioned_on(r) == m.positioned_on(r)
            &&& d.below_of(r) == m.below_of(r)
            &&& d.carry_of(r) matches Some(CarryModel::Entries(s)) ==> !s.contains(id)
        }),
{
    broadcast use vstd::seq_lib::group_filter_ensures;
    let d = m.statements_dropped(id);
    if let Some(CarryModel::Entries(s)) = d.carry_of(r) {
        let before = m.carry_of(r)->0->Entries_0;
        assert(s == before.filter(other_than(id)));
        if s.contains(id) {
            let k = choose|k: int| 0 <= k < s.len() && s[k] == id;
            assert(other_than(id)(s[k]));
        }
    }
}

/// Splicing heals the stack: nothing stays stacked on the spliced reference — what stood on it
/// now stands on what it stood on — while it keeps its own position, and no reference changes
/// key or carry.
pub proof fn law_splice_heals(m: StoreModel, entry: RefIndex, r: RefIndex)
    requires
        m.is_positioned(entry),
        m.below_of(entry) != Some(entry),
    ensures
        ({
            let s = m.spliced(entry);
            &&& r != entry ==> s.below_of(r) != Some(entry)
            &&& r != entry && m.below_of(r) == Some(entry) ==> s.below_of(r) == m.below_of(entry)
            &&& s.position(entry) == m.position(entry)
            &&& s.positioned_on(r) == m.positioned_on(r)
            &&& s.carry_of(r) == m.carry_of(r)
        }),
{
}

/// Renaming a reference moves nothing: it keeps its position, and every entry resolves where it
/// resolved before.
pub proof fn law_rename_keeps_position(m: StoreModel, r: RefIndex, name: Seq<u8>, mutable: bool, e: EditorIndex)
    requires
        m.ref_valid(r),
    ensures
        ({
            let n = m.with_ref(r, RefModel { name, mutable, live: true, ..m.refs[r.0 as int] });
            &&& n.position(r) == m.position(r)
            &&& crate::positions::resolve(n, e) == crate::positions::resolve(m, e)
        }),
{
    let n = m.with_ref(r, RefModel { name, mutable, live: true, ..m.refs[r.0 as int] });
    if let EditorIndex::Ref(x) = e {
        assert(n.positioned_on(x) == m.positioned_on(x));
    }
}

/// Placement writes "everything" one way only: a carry that placement has normalized never
/// lists exactly the whole (non-empty) live entry set of the key's commit — that is `All` —
/// and normalizing again changes nothing.
pub proof fn law_placed_carry_is_normal(m: StoreModel, key: CommitIndex, carry: CarryModel)
    ensures
        ({
            let c = normalized(m, key, carry);
            &&& normalized(m, key, c) == c
            &&& (c is Entries && crate::positions::resolve_key(m, key) is Some) ==> {
                let live = crate::positions::live_ids(m, crate::positions::resolve_key(m, key)->0);
                !(live.len() > 0 && c->Entries_0 == live)
            }
        }),
{
}

} // verus!
