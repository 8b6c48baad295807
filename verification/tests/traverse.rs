use std::collections::HashSet;

use but_rebase::commits::{CommitId, CommitIndex, CommitSpec, ParentEntry};
use but_rebase::editor::{Editor, EditorError};
use but_rebase::store::{EditorIndex, EditorStore, RefIndex, RefName};
use but_rebase::traverse::{a_not_b, all_until_optional_limit, count_commits, reachable_from};

fn commit(graph: &mut EditorStore) -> CommitIndex {
    let mut id = vec![0u8; 20];
    id[0] = 0x10;
    graph.add_commit(CommitSpec::new(CommitId::from_bytes(id)))
}

fn commit_with(graph: &mut EditorStore, first: u8) -> CommitIndex {
    let mut id = vec![0u8; 20];
    id[0] = first;
    graph.add_commit(CommitSpec::new(CommitId::from_bytes(id)))
}

fn name(text: &str) -> RefName {
    RefName::from_bytes(text.as_bytes().to_vec())
}

fn set_of(v: Vec<EditorIndex>) -> HashSet<EditorIndex> {
    v.into_iter().collect()
}

/// `a -> b -> base` and `c -> base` (parent entries point child -> parent).
/// `a ^c` must drop `base` (shared with `c`) but keep `a`, `b`.
#[test]
fn a_not_b_excludes_shared_ancestry() {
    let mut g = EditorStore::new();
    let a = commit(&mut g);
    let b = commit(&mut g);
    let base = commit(&mut g);
    let c = commit(&mut g);
    g.push_parent(a, b);
    g.push_parent(b, base);
    g.push_parent(c, base);

    assert_eq!(
        set_of(a_not_b(&g, EditorIndex::Commit(a), EditorIndex::Commit(c))),
        [EditorIndex::Commit(a), EditorIndex::Commit(b)].into_iter().collect()
    );
    assert_eq!(
        set_of(reachable_from(&g, EditorIndex::Commit(a))),
        [EditorIndex::Commit(a), EditorIndex::Commit(b), EditorIndex::Commit(base)]
            .into_iter()
            .collect()
    );
    assert_eq!(
        set_of(all_until_optional_limit(&g, EditorIndex::Commit(a), Some(EditorIndex::Commit(c)))),
        [EditorIndex::Commit(a), EditorIndex::Commit(b)].into_iter().collect()
    );
}

/// `count_commits` over `a_not_b` ignores non-commit steps. `a -> none -> b -> base` and
/// `c -> base`: `a ^c` reaches a tombstone plus commits `a`, `b`; only the two commits count.
/// `c ^a` reaches `c`.
#[test]
fn count_picks_ignores_non_pick_steps() {
    let mut g = EditorStore::new();
    let a = commit(&mut g);
    let none = g.add_tombstone();
    let b = commit(&mut g);
    let base = commit(&mut g);
    let c = commit(&mut g);
    g.push_parent(a, none);
    g.push_parent(none, b);
    g.push_parent(b, base);
    g.push_parent(c, base);

    assert_eq!(count_commits(&g, &a_not_b(&g, EditorIndex::Commit(a), EditorIndex::Commit(c))), 2);
    assert_eq!(count_commits(&g, &a_not_b(&g, EditorIndex::Commit(c), EditorIndex::Commit(a))), 1);
}

#[test]
fn reachable_from_holds_each_entry_once() {
    let mut g = EditorStore::new();
    let top = commit(&mut g);
    let left = commit(&mut g);
    let right = commit(&mut g);
    let base = commit(&mut g);
    g.push_parent(top, left);
    g.push_parent(top, right);
    g.push_parent(left, base);
    g.push_parent(right, base);
    let walk = reachable_from(&g, EditorIndex::Commit(top));
    assert_eq!(walk.len(), 4);
    assert_eq!(set_of(walk).len(), 4);
    assert_eq!(
        set_of(all_until_optional_limit(&g, EditorIndex::Commit(left), None)),
        [EditorIndex::Commit(left), EditorIndex::Commit(base)].into_iter().collect()
    );
}

#[test]
fn a_not_b_is_empty_against_itself() {
    let mut g = EditorStore::new();
    let a = commit(&mut g);
    let b = commit(&mut g);
    g.push_parent(a, b);
    assert!(a_not_b(&g, EditorIndex::Commit(a), EditorIndex::Commit(a)).is_empty());
    assert_eq!(
        set_of(a_not_b(&g, EditorIndex::Commit(a), EditorIndex::Commit(b))),
        [EditorIndex::Commit(a)].into_iter().collect()
    );
}

/// `local -> remote`: the local tip is one ahead and none behind — a fast-forward.
#[test]
fn ahead_behind_counts_commits_both_ways() {
    let mut g = EditorStore::new();
    let local = commit(&mut g);
    let remote = commit(&mut g);
    let gap = g.add_tombstone();
    let base = commit(&mut g);
    let other = commit(&mut g);
    g.push_parent(local, remote);
    g.push_parent(remote, gap);
    g.push_parent(gap, base);
    g.push_parent(other, base);
    let editor = Editor::new(g);
    let ab = editor.ahead_behind(EditorIndex::Commit(local), EditorIndex::Commit(remote)).unwrap();
    assert_eq!((ab.ahead, ab.behind), (1, 0));
    let ba = editor.ahead_behind(EditorIndex::Commit(remote), EditorIndex::Commit(local)).unwrap();
    assert_eq!((ba.ahead, ba.behind), (0, 1));
    let diverged = editor.ahead_behind(EditorIndex::Commit(local), EditorIndex::Commit(other)).unwrap();
    assert_eq!((diverged.ahead, diverged.behind), (2, 1));
}

#[test]
fn ahead_behind_refuses_an_unknown_entry() {
    let mut g = EditorStore::new();
    let a = commit(&mut g);
    let editor = Editor::new(g);
    let unknown = EditorIndex::Commit(CommitIndex(7));
    assert_eq!(
        editor.ahead_behind(EditorIndex::Commit(a), unknown).unwrap_err(),
        EditorError::UnknownEntry(unknown)
    );
}

/// `tip -> base` with `feature` standing on `base`, carrying the entry from `tip`.
fn feature_graph() -> (Editor, CommitIndex, CommitIndex, RefIndex) {
    let mut g = EditorStore::new();
    let tip = commit_with(&mut g, 1);
    let base = commit_with(&mut g, 2);
    g.push_parent(tip, base);
    let feature = g.add_reference(name("refs/heads/feature"), true, true);
    g.set_position(feature, base, &vec![ParentEntry { child: tip, number: 0 }], false, None);
    (Editor::new(g), tip, base, feature)
}

#[test]
fn position_views_interleave_references() {
    let (editor, tip, base, feature) = feature_graph();
    let f = EditorIndex::Ref(feature);
    assert_eq!(editor.position_parents(EditorIndex::Commit(tip)).unwrap(), vec![f]);
    assert_eq!(editor.position_parents(f).unwrap(), vec![EditorIndex::Commit(base)]);
    assert_eq!(editor.position_children(EditorIndex::Commit(base)).unwrap(), vec![f]);
    assert_eq!(editor.position_children(f).unwrap(), vec![EditorIndex::Commit(tip)]);
    assert_eq!(
        set_of(editor.position_reachable(EditorIndex::Commit(tip)).unwrap()),
        [EditorIndex::Commit(tip), f, EditorIndex::Commit(base)].into_iter().collect()
    );
}

/// Wherever `t` is a position parent of `x`, `x` is a position child of `t`, and back.
#[test]
fn position_children_invert_position_parents() {
    let (editor, tip, base, feature) = feature_graph();
    let all = [EditorIndex::Commit(tip), EditorIndex::Commit(base), EditorIndex::Ref(feature)];
    for x in all {
        let parents = editor.position_parents(x).unwrap();
        for t in all {
            let children = editor.position_children(t).unwrap();
            assert_eq!(parents.contains(&t), children.contains(&x), "x = {x:?}, t = {t:?}");
        }
    }
}

#[test]
fn direct_views_of_a_reference() {
    let (editor, tip, base, feature) = feature_graph();
    let f = EditorIndex::Ref(feature);
    assert_eq!(editor.direct_children(f).unwrap(), vec![(EditorIndex::Commit(tip), 0)]);
    assert_eq!(editor.direct_parents(f).unwrap(), vec![(EditorIndex::Commit(base), 0)]);
    assert_eq!(editor.direct_children(EditorIndex::Commit(base)).unwrap(), vec![(EditorIndex::Commit(tip), 0)]);
    assert_eq!(editor.direct_parents(EditorIndex::Commit(tip)).unwrap(), vec![(EditorIndex::Commit(base), 0)]);
}

#[test]
fn references_of_names_the_references_on_a_commit() {
    let (editor, tip, base, feature) = feature_graph();
    assert_eq!(editor.references_of(EditorIndex::Commit(base)).unwrap(), vec![EditorIndex::Ref(feature)]);
    assert!(editor.references_of(EditorIndex::Commit(tip)).unwrap().is_empty());
    assert_eq!(
        editor.references_of(EditorIndex::Ref(feature)).unwrap_err(),
        EditorError::NotACommit(EditorIndex::Ref(feature))
    );
}

#[test]
fn reachable_ids_include_references_of_reached_commits() {
    let (editor, tip, base, feature) = feature_graph();
    assert_eq!(
        set_of(editor.reachable_from(EditorIndex::Commit(tip)).unwrap()),
        [EditorIndex::Commit(tip), EditorIndex::Commit(base), EditorIndex::Ref(feature)].into_iter().collect()
    );
    assert_eq!(
        set_of(editor.all_until_optional_limit(EditorIndex::Commit(tip), Some(EditorIndex::Ref(feature))).unwrap()),
        [EditorIndex::Commit(tip)].into_iter().collect()
    );
}

#[test]
fn unknown_entries_are_refused() {
    let (editor, _, _, _) = feature_graph();
    let unknown = EditorIndex::Ref(RefIndex(9));
    assert_eq!(editor.position_parents(unknown).unwrap_err(), EditorError::UnknownEntry(unknown));
    assert_eq!(editor.position_children(unknown).unwrap_err(), EditorError::UnknownEntry(unknown));
    assert_eq!(editor.direct_children(unknown).unwrap_err(), EditorError::UnknownEntry(unknown));
    assert_eq!(editor.reachable_from(unknown).unwrap_err(), EditorError::UnknownEntry(unknown));
}

/// A reference standing on a tombstone with nothing below it leads to no commit.
#[test]
fn a_reference_on_a_dead_end_is_unresolved() {
    let mut g = EditorStore::new();
    let gone = g.add_tombstone();
    let orphan = g.add_reference(name("refs/heads/orphan"), true, false);
    g.set_position(orphan, gone, &vec![], false, None);
    let editor = Editor::new(g);
    assert_eq!(
        editor.direct_parents(EditorIndex::Ref(orphan)).unwrap_err(),
        EditorError::Unresolved(gone)
    );
    assert_eq!(
        editor.position_parents(EditorIndex::Ref(orphan)).unwrap_err(),
        EditorError::Unresolved(gone)
    );
}

/// A walk from a tombstone holds the tombstone itself, then what lies below it.
#[test]
fn a_tombstone_start_is_reachable_from_itself() {
    let mut g = EditorStore::new();
    let p = commit(&mut g);
    let k = g.add_tombstone();
    g.push_parent(k, p);
    let editor = Editor::new(g);
    assert_eq!(
        set_of(editor.reachable_from(EditorIndex::Commit(k)).unwrap()),
        [EditorIndex::Commit(k), EditorIndex::Commit(p)].into_iter().collect()
    );
    assert_eq!(
        set_of(editor.all_until_optional_limit(EditorIndex::Commit(k), Some(EditorIndex::Commit(p))).unwrap()),
        [EditorIndex::Commit(k)].into_iter().collect()
    );
}

/// A walk yields its start first; a reference, known or not, reaches only itself.
#[test]
fn walks_start_with_their_start() {
    let mut g = EditorStore::new();
    let a = commit(&mut g);
    let b = commit(&mut g);
    g.push_parent(a, b);
    assert_eq!(reachable_from(&g, EditorIndex::Commit(a))[0], EditorIndex::Commit(a));
    let stranger = EditorIndex::Ref(RefIndex(5));
    assert_eq!(reachable_from(&g, stranger), vec![stranger]);
    assert_eq!(a_not_b(&g, stranger, EditorIndex::Commit(a)), vec![stranger]);
    assert!(a_not_b(&g, stranger, stranger).is_empty());
    assert!(a_not_b(&g, EditorIndex::Commit(b), EditorIndex::Commit(a)).is_empty());
    assert_eq!(
        set_of(all_until_optional_limit(&g, EditorIndex::Commit(a), Some(stranger))),
        [EditorIndex::Commit(a), EditorIndex::Commit(b)].into_iter().collect()
    );
    assert_eq!(a_not_b(&g, EditorIndex::Commit(a), EditorIndex::Commit(b)), vec![EditorIndex::Commit(a)]);
    // An index the store does not hold has no parents: it reaches only itself.
    let beyond = EditorIndex::Commit(CommitIndex(40));
    assert_eq!(reachable_from(&g, beyond), vec![beyond]);
    assert!(a_not_b(&g, beyond, beyond).is_empty());
    assert_eq!(
        set_of(a_not_b(&g, EditorIndex::Commit(a), beyond)),
        [EditorIndex::Commit(a), EditorIndex::Commit(b)].into_iter().collect()
    );
}
