use but_rebase::commits::{CommitId, CommitIndex, CommitSpec, ParentEntry};
use but_rebase::positions::resolve_to_commit;
use but_rebase::store::{
    EditorIndex, EditorStore, GroupCarry, RefGroup, RefIndex, RefName, WsParentKind,
};

fn commit(graph: &mut EditorStore, first: u8) -> CommitIndex {
    let mut id = vec![0u8; 20];
    id[0] = first;
    graph.add_commit(CommitSpec::new(CommitId::from_bytes(id)))
}

fn name(text: &str) -> RefName {
    RefName::from_bytes(text.as_bytes().to_vec())
}

#[test]
fn labels_write_indices_in_decimal() {
    assert_eq!(EditorIndex::Commit(CommitIndex(12)).label(), "12");
    assert_eq!(EditorIndex::Commit(CommitIndex(0)).label(), "0");
    assert_eq!(EditorIndex::Ref(RefIndex(3)).label(), "r3");
    assert_eq!(EditorIndex::Ref(RefIndex(40)).label(), "r40");
}

#[test]
fn index_kinds_are_told_apart() {
    let c = EditorIndex::Commit(CommitIndex(2));
    let r = EditorIndex::Ref(RefIndex(5));
    assert_eq!(c.as_commit(), Some(CommitIndex(2)));
    assert_eq!(c.as_ref(), None);
    assert_eq!(r.as_ref(), Some(RefIndex(5)));
    assert_eq!(r.as_commit(), None);
    assert_eq!(EditorIndex::from_commit(CommitIndex(2)), c);
    assert_eq!(EditorIndex::from_ref(RefIndex(5)), r);
    let converted: EditorIndex = CommitIndex(2).into();
    assert_eq!(converted, c);
    assert_eq!(EditorIndex::from(RefIndex(5)), r);
}

/// Deleting a reference keeps its name and position; re-creating the name revives the same
/// record where it stood.
#[test]
fn delete_then_recreate_revives_the_record() {
    let mut g = EditorStore::new();
    let base = commit(&mut g, 1);
    let a = g.add_reference(name("refs/heads/a"), true, true);
    let b = g.add_reference(name("refs/heads/b"), true, false);
    g.set_position(a, base, &vec![], false, None);
    g.tombstone_reference(a);
    assert!(!g.is_reference(EditorIndex::Ref(a)));
    assert_eq!(g.positioned_on(EditorIndex::Ref(a)), Some(base));
    assert_eq!(resolve_to_commit(&g, EditorIndex::Ref(a)), Some(base));
    assert_eq!(g.entry_of(&name("refs/heads/a")), Some(a));

    let again = g.add_reference(name("refs/heads/a"), false, false);
    assert_eq!(again, a);
    assert!(g.is_reference(EditorIndex::Ref(a)));
    assert_eq!(g.positioned_on(EditorIndex::Ref(a)), Some(base));
    assert_eq!(g.reference(EditorIndex::Ref(a)), Some((&name("refs/heads/a"), false)));
    assert_eq!(g.ref_count(), 2);
    assert_ne!(a, b);
}

#[test]
fn creation_names_are_kept_for_mutable_refs_that_existed() {
    let mut g = EditorStore::new();
    let kept = g.add_reference(name("refs/heads/kept"), true, true);
    g.add_reference(name("refs/heads/fresh"), true, false);
    g.add_reference(name("refs/remotes/origin/main"), false, true);
    g.set_reference(kept, name("refs/heads/renamed"), true);
    let names: Vec<RefName> = g.creation_references().into_iter().cloned().collect();
    assert_eq!(names, vec![name("refs/heads/kept")]);
    g.clear_existed_at_creation(kept);
    assert!(g.creation_references().is_empty());
}

#[test]
fn rename_keeps_the_position() {
    let mut g = EditorStore::new();
    let base = commit(&mut g, 1);
    let r = g.add_reference(name("refs/heads/old"), true, false);
    g.set_position(r, base, &vec![], false, None);
    g.set_reference(r, name("refs/heads/new"), true);
    assert_eq!(g.entry_of(&name("refs/heads/new")), Some(r));
    assert_eq!(g.entry_of(&name("refs/heads/old")), None);
    assert_eq!(g.positioned_on(EditorIndex::Ref(r)), Some(base));
}

/// Rewriting a commit id in place leaves positions and resolution alone.
#[test]
fn id_rewrite_keeps_positions() {
    let mut g = EditorStore::new();
    let tip = commit(&mut g, 1);
    let base = commit(&mut g, 2);
    g.push_parent(tip, base);
    let r = g.add_reference(name("refs/heads/r"), true, false);
    g.set_position(r, base, &vec![ParentEntry { child: tip, number: 0 }], false, None);
    let mut fresh = vec![0u8; 20];
    fresh[0] = 9;
    g.set_commit_id(base, CommitId::from_bytes(fresh.clone()));
    assert_eq!(g.commit_id(EditorIndex::Commit(base)), Some(CommitId::from_bytes(fresh)));
    assert_eq!(g.positioned_on(EditorIndex::Ref(r)), Some(base));
    assert_eq!(resolve_to_commit(&g, EditorIndex::Ref(r)), Some(base));
    assert_eq!(g.carry_of(EditorIndex::Ref(r)), Some(&GroupCarry::All));
    assert_eq!(g.parents(EditorIndex::Commit(tip)), vec![base]);
}

/// `left -> base` and `right -> base`; a reference stating only the entry from `left`.
fn two_children() -> (EditorStore, CommitIndex, CommitIndex, CommitIndex, RefIndex) {
    let mut g = EditorStore::new();
    let left = commit(&mut g, 1);
    let right = commit(&mut g, 2);
    let base = commit(&mut g, 3);
    g.push_parent(left, base);
    g.push_parent(right, base);
    let r = g.add_reference(name("refs/heads/left"), true, false);
    g.set_position(r, base, &vec![ParentEntry { child: left, number: 0 }], false, None);
    (g, left, right, base, r)
}

#[test]
fn a_partial_intent_is_stated_by_entry_id() {
    let (g, left, right, base, r) = two_children();
    let id = g.entry_id_at(left, 0).unwrap();
    assert_eq!(g.carry_of(EditorIndex::Ref(r)), Some(&GroupCarry::Entries(vec![id])));
    assert_eq!(g.entry_carriers(base, ParentEntry { child: left, number: 0 }), vec![r]);
    assert!(g.entry_carriers(base, ParentEntry { child: right, number: 0 }).is_empty());
}

/// Removing a parent entry drops the statements naming it.
#[test]
fn removing_a_parent_drops_its_statements() {
    let (mut g, left, _right, base, r) = two_children();
    assert_eq!(g.remove_parent(left, 0), Some(base));
    assert_eq!(g.carry_of(EditorIndex::Ref(r)), Some(&GroupCarry::Entries(vec![])));
    assert_eq!(g.positioned_on(EditorIndex::Ref(r)), Some(base));
    assert_eq!(g.remove_parent(left, 0), None);
    assert!(g.parents(EditorIndex::Commit(left)).is_empty());
}

#[test]
fn restating_moves_statements_to_successors() {
    let (mut g, left, right, _base, r) = two_children();
    let old = g.entry_id_at(left, 0).unwrap();
    let new = g.entry_id_at(right, 0).unwrap();
    g.restate_entries(&vec![(old, new)]);
    assert_eq!(g.carry_of(EditorIndex::Ref(r)), Some(&GroupCarry::Entries(vec![new])));
    // A list naming no restated id stays as it is.
    g.restate_entries(&vec![(old, old)]);
    assert_eq!(g.carry_of(EditorIndex::Ref(r)), Some(&GroupCarry::Entries(vec![new])));
}

/// Only the top of a carrying group answers for it.
#[test]
fn entry_carriers_answer_with_group_tops() {
    let mut g = EditorStore::new();
    let tip = commit(&mut g, 1);
    let base = commit(&mut g, 2);
    g.push_parent(tip, base);
    let lower = g.add_reference(name("refs/heads/lower"), true, false);
    let upper = g.add_reference(name("refs/heads/upper"), true, false);
    let entering = vec![ParentEntry { child: tip, number: 0 }];
    g.set_position(lower, base, &entering, false, None);
    g.set_position(upper, base, &entering, false, Some(lower));
    assert_eq!(g.entry_carriers(base, ParentEntry { child: tip, number: 0 }), vec![upper]);
}

/// Splicing re-hangs what stood on a reference onto what it stood on.
#[test]
fn splice_heals_the_stack() {
    let mut g = EditorStore::new();
    let base = commit(&mut g, 1);
    let x = g.add_reference(name("refs/heads/x"), true, false);
    let y = g.add_reference(name("refs/heads/y"), true, false);
    let z = g.add_reference(name("refs/heads/z"), true, false);
    g.set_position(x, base, &vec![], false, None);
    g.set_position(y, base, &vec![], false, Some(x));
    g.set_position(z, base, &vec![], false, Some(y));
    g.splice(y);
    assert_eq!(g.below_of(EditorIndex::Ref(z)), Some(x));
    assert_eq!(g.below_of(EditorIndex::Ref(y)), Some(x));
    assert_eq!(g.positioned_on(EditorIndex::Ref(y)), Some(base));
}

/// Moving a reference takes what rides on it along.
#[test]
fn riders_follow_a_moved_reference() {
    let mut g = EditorStore::new();
    let one = commit(&mut g, 1);
    let two = commit(&mut g, 2);
    let x = g.add_reference(name("refs/heads/x"), true, false);
    let y = g.add_reference(name("refs/heads/y"), true, false);
    g.set_position(x, one, &vec![], false, None);
    g.set_position(y, one, &vec![], true, Some(x));
    g.rekey_position(x, two);
    assert_eq!(g.positioned_on(EditorIndex::Ref(x)), Some(two));
    assert_eq!(g.positioned_on(EditorIndex::Ref(y)), Some(two));
    assert_eq!(g.below_of(EditorIndex::Ref(y)), Some(x));
    assert!(g.ambiguous_of(y));
}

#[test]
fn retained_positions_land_as_bare_roots() {
    let mut g = EditorStore::new();
    let one = commit(&mut g, 1);
    let two = commit(&mut g, 2);
    let x = g.add_reference(name("refs/heads/x"), true, false);
    let y = g.add_reference(name("refs/heads/y"), true, false);
    g.set_position(x, one, &vec![], true, None);
    g.set_position(y, one, &vec![], false, Some(x));
    g.tombstone_reference(x);
    g.set_retained_position(x, two);
    assert_eq!(g.positioned_on(EditorIndex::Ref(x)), Some(two));
    assert_eq!(g.carry_of(EditorIndex::Ref(x)), Some(&GroupCarry::Root));
    assert!(!g.ambiguous_of(x));
    assert_eq!(g.below_of(EditorIndex::Ref(y)), None);
    assert_eq!(g.positioned_on(EditorIndex::Ref(y)), Some(one));
}

#[test]
fn joining_a_group_copies_its_key_and_carry() {
    let (mut g, left, _right, base, r) = two_children();
    let mate = g.add_reference(name("refs/heads/mate"), true, false);
    g.set_ref_ambiguous(r, true);
    g.join_group_of(mate, r, Some(r));
    assert_eq!(g.positioned_on(EditorIndex::Ref(mate)), Some(base));
    assert_eq!(g.below_of(EditorIndex::Ref(mate)), Some(r));
    let id = g.entry_id_at(left, 0).unwrap();
    assert_eq!(g.carry_of(EditorIndex::Ref(mate)), Some(&GroupCarry::Entries(vec![id])));
    assert!(g.ambiguous_of(mate));
}

/// Groups adopted wholesale replace whatever stood on the key.
#[test]
fn inserted_groups_replace_the_key() {
    let mut g = EditorStore::new();
    let base = commit(&mut g, 1);
    let x = g.add_reference(name("refs/heads/x"), true, false);
    let y = g.add_reference(name("refs/heads/y"), true, false);
    let stale = g.add_reference(name("refs/heads/stale"), true, false);
    g.set_position(stale, base, &vec![], false, None);
    g.insert_groups(base, vec![RefGroup { members: vec![x, y], carry: GroupCarry::All, attach: None }]);
    assert_eq!(g.positioned_on(EditorIndex::Ref(x)), Some(base));
    assert_eq!(g.below_of(EditorIndex::Ref(x)), None);
    assert_eq!(g.below_of(EditorIndex::Ref(y)), Some(x));
    assert_eq!(g.carry_of(EditorIndex::Ref(y)), Some(&GroupCarry::All));
    assert!(!g.is_positioned(EditorIndex::Ref(stale)));
    assert_eq!(g.positioned_refs(), vec![x, y]);
}

/// The workspace commit's parents are classified per entry: a mint and a real parent can name
/// the same commit.
#[test]
fn workspace_parents_are_classified_per_entry() {
    let mut g = EditorStore::new();
    let ws = commit(&mut g, 1);
    let real = commit(&mut g, 2);
    let lane = commit(&mut g, 3);
    let other = commit(&mut g, 4);
    g.push_parent(ws, real);
    g.push_parent(ws, real);
    g.push_parent(ws, lane);
    let first = g.entry_id_at(ws, 0).unwrap();
    let second = g.entry_id_at(ws, 1).unwrap();
    g.set_workspace_parents(vec![(first, real)], vec![(second, real)]);
    assert_eq!(
        g.ws_parent_kinds(ws),
        vec![WsParentKind::Faithful, WsParentKind::Minted, WsParentKind::Surgical]
    );
    g.replace_parent(ws, 0, other);
    assert_eq!(g.ws_parent_kinds(ws)[0], WsParentKind::Surgical);
}

/// Commits and references tombstone in place; every index issued stays known.
#[test]
fn indices_outlive_edits() {
    let mut g = EditorStore::new();
    let a = commit(&mut g, 1);
    let b = commit(&mut g, 2);
    g.push_parent(a, b);
    let r = g.add_reference(name("refs/heads/r"), true, false);
    g.set_position(r, b, &vec![], false, None);
    g.tombstone_commit(b);
    g.tombstone_reference(r);
    assert_eq!(g.commit_count(), 2);
    assert_eq!(g.ref_count(), 1);
    assert!(!g.is_commit(EditorIndex::Commit(b)));
    assert_eq!(g.commit_indices(), vec![a, b]);
    assert_eq!(g.ref_indices(), vec![r]);
    assert!(g.state_of(EditorIndex::Ref(r)).is_some());
    assert_eq!(g.tips(), vec![a]);
}
