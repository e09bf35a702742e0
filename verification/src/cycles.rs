//! Keeps a search for partial paths from running in circles.
//!
//! A graph with a cycle has no end of paths, and a search that follows every
//! edge would not end either. The detector remembers each path that the
//! search has gone on from, and refuses a path that is in the order `Equal`
//! with a remembered one. It remembers a bounded number of paths and refuses
//! every path once it is full, so a search that asks it before each step
//! comes to an end.

use vstd::prelude::*;
use std::cmp::Ordering;
use crate::graph::{position, StackGraph, StackGraphView};
use crate::model::PathModel;
use crate::partial::{PartialPath, PartialPaths};

verus! {

/// The number of paths that a detector remembers.
pub const MAX_REMEMBERED_PATHS: usize = 0x3fff_ffff;

/// What each of `paths` stands for in `partials`.
pub open spec fn path_models(paths: Seq<PartialPath>, partials: PartialPaths) -> Seq<PathModel> {
    Seq::new(paths.len(), |i: int| paths[i].model(partials))
}

/// Whether each of `paths` was made in `partials`.
pub open spec fn paths_valid_in(paths: Seq<PartialPath>, partials: PartialPaths) -> bool {
    forall|i: int| 0 <= i < paths.len() ==> (#[trigger] paths[i]).valid_in(partials)
}

/// Whether each of `paths` lies in `graph`.
pub open spec fn paths_fit(paths: Seq<PathModel>, graph: StackGraphView) -> bool {
    forall|i: int| 0 <= i < paths.len() ==> (#[trigger] paths[i]).fits(graph)
}

/// Whether a detector that remembers `seen` lets the search go on from
/// `path`: it has room, and none of `seen` is in the order `Equal` with `path`.
pub open spec fn is_new_path(seen: Seq<PathModel>, graph: StackGraphView, path: PathModel) -> bool {
    &&& seen.len() < MAX_REMEMBERED_PATHS
    &&& forall|i: int| 0 <= i < seen.len() ==> (#[trigger] seen[i]).order(graph, path)
        != Ordering::Equal
}

/// Paths that were made in some arenas are made in what the arenas grow to,
/// and stand for the same there.
pub proof fn lemma_paths_kept(paths: Seq<PartialPath>, before: PartialPaths, after: PartialPaths)
    requires
        paths_valid_in(paths, before),
        before.extended_by(after),
    ensures
        paths_valid_in(paths, after),
        path_models(paths, after) == path_models(paths, before),
{
    assert forall|i: int| 0 <= i < paths.len() implies (#[trigger] paths[i]).valid_in(after)
        && paths[i].model(after) == paths[i].model(before) by {
        assert(paths[i].valid_in(before));
    }
    assert(path_models(paths, after) =~= path_models(paths, before));
}

/// Remembers the paths that a search has gone on from.
pub struct CycleDetector {
    paths: Vec<PartialPath>,
}

impl CycleDetector {
    /// The remembered paths, oldest first.
    pub closed spec fn remembered(self) -> Seq<PartialPath> {
        self.paths@
    }

    /// A detector that remembers no path yet.
    pub fn new() -> (detector: CycleDetector)
        ensures
            detector.remembered().len() == 0,
    {
        CycleDetector { paths: Vec::new() }
    }

    /// The number of remembered paths.
    pub fn len(&self) -> (count: usize)
        ensures
            count == self.remembered().len(),
    {
        self.paths.len()
    }

    /// Whether the search should go on from `path`. Where it should, the
    /// detector remembers the path.
    pub fn should_process_path(
        &mut self,
        graph: &StackGraph,
        partials: &mut PartialPaths,
        path: &PartialPath,
    ) -> (process: bool)
        requires
            old(partials).wf(),
            path.valid_in(*old(partials)),
            path.model(*old(partials)).fits(graph@),
            paths_valid_in(old(self).remembered(), *old(partials)),
            paths_fit(path_models(old(self).remembered(), *old(partials)), graph@),
        ensures
            final(partials).wf(),
            old(partials).extended_by(*final(partials)),
            process == is_new_path(
                path_models(old(self).remembered(), *old(partials)),
                graph@,
                path.model(*old(partials)),
            ),
            process ==> final(self).remembered() == old(self).remembered().push(*path),
            !process ==> final(self).remembered() == old(self).remembered(),
    {
        if self.paths.len() >= MAX_REMEMBERED_PATHS {
            return false;
        }
        let ghost seen = path_models(self.remembered(), *partials);
        let ghost model = path.model(*partials);
        let mut i: usize = 0;
        while i < self.paths.len()
            invariant
                i <= self.paths@.len(),
                *self == *old(self),
                partials.wf(),
                old(partials).extended_by(*partials),
                path.valid_in(*old(partials)),
                paths_valid_in(self.remembered(), *old(partials)),
                seen == path_models(self.remembered(), *old(partials)),
                model == path.model(*old(partials)),
                paths_fit(seen, graph@),
                model.fits(graph@),
                forall|k: int| 0 <= k < i ==> (#[trigger] seen[k]).order(graph@, model)
                    != Ordering::Equal,
            decreases self.paths@.len() - i,
        {
            let probe = self.paths[i];
            proof {
                assert(self.remembered()[position(i)] == probe);
                assert(probe.valid_in(*old(partials)));
                assert(seen[position(i)] == probe.model(*old(partials)));
                assert(seen[position(i)].fits(graph@));
            }
            match probe.cmp(graph, partials, path) {
                Ordering::Equal => {
                    return false;
                },
                _ => {},
            }
            i += 1;
        }
        self.paths.push(*path);
        true
    }
}

} // verus!
