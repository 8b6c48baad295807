//! The rebase editor: a store whose invariant always holds, and the resolution of the
//! entries callers hand it.
use vstd::prelude::*;

use crate::commits::CommitIndex;
use crate::positions::{resolve_key, resolve_to_commit};
use crate::store::{EditorIndex, EditorStore, StoreModel};

verus! {

/// Why the editor refused a request.
#[derive(Debug, Clone, Copy, PartialEq, Eq, Structural)]
pub enum EditorError {
    /// The entry is not one this editor issued.
    UnknownEntry(EditorIndex),
    /// A reference's stored position leads to no commit.
    Unresolved(CommitIndex),
    /// The entry is a reference where a commit was needed.
    NotACommit(EditorIndex),
}

/// The editor over one store.
pub struct Editor {
    graph: EditorStore,
}

impl View for Editor {
    type V = StoreModel;

    closed spec fn view(&self) -> StoreModel {
        self.graph@
    }
}

impl Editor {
    #[verifier::type_invariant]
    spec fn graph_valid(&self) -> bool {
        self.graph.valid()
    }

    /// The editor over `graph`.
    pub fn new(graph: EditorStore) -> (editor: Editor)
        requires
            graph.valid(),
        ensures
            editor@ == graph@,
    {
        Editor { graph }
    }

    /// The editor's store, read-only.
    pub fn graph(&self) -> (graph: &EditorStore)
        ensures
            graph@ == self@,
            graph.valid(),
    {
        proof {
            use_type_invariant(self);
        }
        &self.graph
    }

    /// Surrender the store.
    pub fn into_graph(self) -> (graph: EditorStore)
        ensures
            graph@ == self@,
            graph.valid(),
    {
        proof {
            use_type_invariant(&self);
        }
        self.graph
    }

    /// `target` itself when this editor knows it, else an error naming it.
    pub fn resolve_anchor(&self, target: EditorIndex) -> (r: Result<EditorIndex, EditorError>)
        ensures
            self@.contains(target) ==> r == Ok::<EditorIndex, EditorError>(target),
            !self@.contains(target) ==> r == Err::<EditorIndex, EditorError>(EditorError::UnknownEntry(target)),
    {
        let known = match target {
            EditorIndex::Commit(c) => c.0 < self.graph.commit_count(),
            EditorIndex::Ref(r) => {
                proof {
                    use_type_invariant(self);
                }
                r.0 < self.graph.ref_count()
            },
        };
        if known {
            Ok(target)
        } else {
            Err(EditorError::UnknownEntry(target))
        }
    }

    /// The commit the stored key `on` stands for, through tombstones.
    pub fn resolved_commit(&self, on: CommitIndex) -> (r: Result<CommitIndex, EditorError>)
        ensures
            r == match resolve_key(self@, on) {
                Some(c) => Ok::<CommitIndex, EditorError>(c),
                None => Err(EditorError::Unresolved(on)),
            },
    {
        proof {
            use_type_invariant(self);
        }
        match resolve_to_commit(&self.graph, EditorIndex::Commit(on)) {
            Some(c) => Ok(c),
            None => Err(EditorError::Unresolved(on)),
        }
    }
}

/// The arena index of `target` when it addresses a commit or tombstone.
pub fn commit_entry(target: EditorIndex) -> (r: Result<CommitIndex, EditorError>)
    ensures
        r == match target {
            EditorIndex::Commit(c) => Ok::<CommitIndex, EditorError>(c),
            EditorIndex::Ref(_) => Err(EditorError::NotACommit(target)),
        },
{
    match target {
        EditorIndex::Commit(c) => Ok(c),
        EditorIndex::Ref(_) => Err(EditorError::NotACommit(target)),
    }
}

} // verus!
