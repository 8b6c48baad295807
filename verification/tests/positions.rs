use but_rebase::commits::{CommitId, CommitIndex, CommitSpec, ParentEntry};
use but_rebase::positions::{
    assert_below_wellformed, assert_positions_total, entering, group_members, prepare_group_join,
    ref_depth, refs_resolving_to, resolve_to_commit, PositionError,
};
use but_rebase::store::{EditorIndex, EditorStore, RefIndex, RefName};

fn commit(graph: &mut EditorStore, first: u8) -> CommitIndex {
    let mut id = vec![0u8; 20];
    id[0] = first;
    graph.add_commit(CommitSpec::new(CommitId::from_bytes(id)))
}

fn reference(graph: &mut EditorStore, text: &str) -> RefIndex {
    graph.add_reference(RefName::from_bytes(text.as_bytes().to_vec()), true, false)
}

/// `tip -> base`, with `lower` and `upper` stacked on `base` in one group carrying the entry
/// from `tip`.
fn stacked() -> (EditorStore, CommitIndex, CommitIndex, RefIndex, RefIndex) {
    let mut g = EditorStore::new();
    let tip = commit(&mut g, 1);
    let base = commit(&mut g, 2);
    g.push_parent(tip, base);
    let lower = reference(&mut g, "refs/heads/lower");
    let upper = reference(&mut g, "refs/heads/upper");
    let entering = vec![ParentEntry { child: tip, number: 0 }];
    g.set_position(lower, base, &entering, false, None);
    g.set_position(upper, base, &entering, true, Some(lower));
    (g, tip, base, lower, upper)
}

#[test]
fn tombstones_resolve_down_their_first_parent() {
    let mut g = EditorStore::new();
    let gone = g.add_tombstone();
    let base = commit(&mut g, 1);
    g.push_parent(gone, base);
    let r = reference(&mut g, "refs/heads/r");
    g.set_position(r, gone, &vec![], false, None);
    assert_eq!(resolve_to_commit(&g, EditorIndex::Commit(gone)), Some(base));
    assert_eq!(resolve_to_commit(&g, EditorIndex::Ref(r)), Some(base));
    assert_eq!(refs_resolving_to(&g, base), vec![r]);
    let unborn = reference(&mut g, "refs/heads/unborn");
    assert_eq!(resolve_to_commit(&g, EditorIndex::Ref(unborn)), None);
}

#[test]
fn a_group_shares_its_entering_entries() {
    let (g, tip, _base, lower, upper) = stacked();
    let both = vec![ParentEntry { child: tip, number: 0 }];
    assert_eq!(entering(&g, EditorIndex::Ref(lower)), both);
    assert_eq!(entering(&g, EditorIndex::Ref(upper)), both);
    assert_eq!(group_members(&g, EditorIndex::Ref(upper)), vec![lower, upper]);
    assert_eq!(ref_depth(&g, EditorIndex::Ref(lower)), 0);
    assert_eq!(ref_depth(&g, EditorIndex::Ref(upper)), 1);
}

#[test]
fn a_join_captures_the_group_down_the_walk() {
    let (g, tip, base, lower, upper) = stacked();
    let join = prepare_group_join(&g, upper);
    assert_eq!(join.members, vec![(upper, base, Some(lower), true), (lower, base, None, false)]);
    assert_eq!(join.entering, vec![ParentEntry { child: tip, number: 0 }]);
}

#[test]
fn a_root_joins_alone() {
    let mut g = EditorStore::new();
    let base = commit(&mut g, 1);
    let root = reference(&mut g, "refs/heads/root");
    let above = reference(&mut g, "refs/heads/above");
    g.set_position(root, base, &vec![], false, None);
    g.set_position(above, base, &vec![], false, Some(root));
    let join = prepare_group_join(&g, above);
    assert_eq!(join.members, vec![(above, base, Some(root), false)]);
    assert!(join.entering.is_empty());
    let unplaced = reference(&mut g, "refs/heads/unplaced");
    assert!(prepare_group_join(&g, unplaced).members.is_empty());
}

#[test]
fn a_stacked_group_is_well_formed() {
    let (g, ..) = stacked();
    assert_eq!(assert_below_wellformed(&g), Ok(()));
    assert_eq!(assert_positions_total(&g), Ok(()));
}

#[test]
fn a_below_without_a_position_is_refused() {
    let mut g = EditorStore::new();
    let base = commit(&mut g, 1);
    let floating = reference(&mut g, "refs/heads/floating");
    let x = reference(&mut g, "refs/heads/x");
    g.set_position(x, base, &vec![], false, Some(floating));
    assert_eq!(
        assert_below_wellformed(&g),
        Err(PositionError::BelowUnplaced { entry: x, below: floating })
    );
    assert_eq!(
        assert_positions_total(&g),
        Err(PositionError::BelowUnplaced { entry: x, below: floating })
    );
}

#[test]
fn a_below_on_another_commit_is_refused() {
    let mut g = EditorStore::new();
    let one = commit(&mut g, 1);
    let two = commit(&mut g, 2);
    let x = reference(&mut g, "refs/heads/x");
    let y = reference(&mut g, "refs/heads/y");
    g.set_position(y, two, &vec![], false, None);
    g.set_position(x, one, &vec![], false, Some(y));
    assert_eq!(
        assert_below_wellformed(&g),
        Err(PositionError::BelowElsewhere { entry: x, below: y })
    );
}

#[test]
fn a_below_cycle_is_refused() {
    let mut g = EditorStore::new();
    let base = commit(&mut g, 1);
    let x = reference(&mut g, "refs/heads/x");
    let y = reference(&mut g, "refs/heads/y");
    g.set_position(x, base, &vec![], false, None);
    g.set_position(y, base, &vec![], false, Some(x));
    g.set_below(x, Some(y));
    assert_eq!(assert_below_wellformed(&g), Err(PositionError::BelowCycle { entry: x }));
}

/// Deleted references keep their position but are not graded.
#[test]
fn deleted_references_are_not_graded() {
    let mut g = EditorStore::new();
    let base = commit(&mut g, 1);
    let floating = reference(&mut g, "refs/heads/floating");
    let x = reference(&mut g, "refs/heads/x");
    g.set_position(x, base, &vec![], false, Some(floating));
    g.tombstone_reference(x);
    assert_eq!(assert_positions_total(&g), Ok(()));
}

/// Two references entered by the same entry at the same rank collide.
#[test]
fn colliding_positions_are_refused() {
    let mut g = EditorStore::new();
    let tip = commit(&mut g, 1);
    let base = commit(&mut g, 2);
    g.push_parent(tip, base);
    let a = reference(&mut g, "refs/heads/a");
    let b = reference(&mut g, "refs/heads/b");
    let entering = vec![ParentEntry { child: tip, number: 0 }];
    g.set_position(a, base, &entering, false, None);
    g.set_position(b, base, &entering, false, None);
    assert_eq!(assert_below_wellformed(&g), Ok(()));
    assert_eq!(assert_positions_total(&g), Err(PositionError::Collision { previous: a, entry: b }));
}

/// Root groups on one commit have no order, so they never collide.
#[test]
fn root_siblings_do_not_collide() {
    let mut g = EditorStore::new();
    let base = commit(&mut g, 1);
    let a = reference(&mut g, "refs/heads/a");
    let b = reference(&mut g, "refs/heads/b");
    g.set_position(a, base, &vec![], false, None);
    g.set_position(b, base, &vec![], false, None);
    assert_eq!(assert_positions_total(&g), Ok(()));
}
