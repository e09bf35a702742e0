//! The search for all partial paths of a file.
//!
//! The search starts with the path without edges at the root node and at
//! each node of the file that pushes a symbol or is an exported scope. It
//! takes the paths in the order in which it found them, asks the cycle
//! detector whether to go on from a path, and if so extends the path along
//! every edge that stays within the file.

use vstd::prelude::*;
use std::collections::VecDeque;
use crate::cycles::{
    is_new_path, lemma_paths_kept, path_models, paths_fit, paths_valid_in, CycleDetector,
    MAX_REMEMBERED_PATHS,
};
use crate::graph::{position, Edge, FileHandle, Node, NodeHandle, StackGraph, StackGraphView};
use crate::model::{
    lemma_append_keeps_sound, lemma_from_node_is_sound, lemma_resolve_keeps_sound, PathModel,
};
use crate::partial::{PartialPath, PartialPaths};
use crate::paths::Extend;

verus! {

/// The path that `path` becomes along `edge`, where the edge stays within
/// `file`, can be appended, and a jump at its end can be taken.
pub open spec fn extension_along(
    graph: StackGraphView,
    file: FileHandle,
    path: PathModel,
    edge: Edge,
) -> Option<PathModel> {
    let sink = graph.node(edge.sink);
    if !sink.is_in_file_spec(file) {
        None
    } else {
        match path.append(edge, sink) {
            Err(_) => None,
            Ok(longer) => match longer.resolve(graph.node(longer.end_node)) {
                Err(_) => None,
                Ok(resolved) => Some(resolved),
            },
        }
    }
}

/// The extensions of `path` along the first `upto` edges that leave its end.
pub open spec fn extensions_upto(
    graph: StackGraphView,
    file: FileHandle,
    path: PathModel,
    upto: nat,
) -> Seq<PathModel>
    decreases upto,
{
    if upto == 0 {
        Seq::empty()
    } else {
        let before = extensions_upto(graph, file, path, (upto - 1) as nat);
        match extension_along(graph, file, path, graph.outgoing_edges(path.end_node)[upto - 1]) {
            Some(longer) => before.push(longer),
            None => before,
        }
    }
}

/// The extensions of `path` within `file`, in the order of the edges that
/// leave its end.
pub open spec fn extensions(graph: StackGraphView, file: FileHandle, path: PathModel) -> Seq<
    PathModel,
> {
    extensions_upto(graph, file, path, graph.outgoing_edges(path.end_node).len())
}

/// The paths without edges at those of `nodes` at which a search starts.
pub open spec fn seed_paths(graph: StackGraphView, nodes: Seq<NodeHandle>) -> Seq<PathModel>
    decreases nodes.len(),
{
    if nodes.len() == 0 {
        Seq::empty()
    } else {
        let before = seed_paths(graph, nodes.drop_last());
        if graph.node(nodes.last()).is_seed_spec() {
            before.push(PathModel::from_node(nodes.last(), graph.node(nodes.last())))
        } else {
            before
        }
    }
}

/// A search under way: the paths that wait, oldest first, and the paths
/// that the search has gone on from, in the order in which it did.
pub struct SearchState {
    pub queue: Seq<PathModel>,
    pub visited: Seq<PathModel>,
}

/// The search for the paths of `file` before its first step.
pub open spec fn search_start(graph: StackGraphView, file: FileHandle) -> SearchState {
    SearchState {
        queue: seq![PathModel::from_node(NodeHandle { index: 0 }, Node::Root)] + seed_paths(
            graph,
            graph.nodes_in_file(file),
        ),
        visited: Seq::empty(),
    }
}

/// One step of the search: the oldest waiting path is taken; where the
/// cycle detector lets it pass, it is visited and its extensions wait behind
/// the others.
pub open spec fn search_step(graph: StackGraphView, file: FileHandle, state: SearchState)
    -> SearchState {
    if state.queue.len() == 0 {
        state
    } else {
        let path = state.queue[0];
        let rest = state.queue.subrange(1, state.queue.len() as int);
        if is_new_path(state.visited, graph, path) {
            SearchState {
                queue: rest + extensions(graph, file, path),
                visited: state.visited.push(path),
            }
        } else {
            SearchState { queue: rest, visited: state.visited }
        }
    }
}

/// The search after `steps` steps.
pub open spec fn search_steps(graph: StackGraphView, file: FileHandle, steps: nat) -> SearchState
    decreases steps,
{
    if steps == 0 {
        search_start(graph, file)
    } else {
        search_step(graph, file, search_steps(graph, file, (steps - 1) as nat))
    }
}

/// Whether the search has nothing left to do after `steps` steps, and has
/// visited `visited`.
pub open spec fn search_ends_with(
    graph: StackGraphView,
    file: FileHandle,
    steps: nat,
    visited: Seq<PathModel>,
) -> bool {
    search_steps(graph, file, steps).queue.len() == 0 && search_steps(graph, file, steps).visited
        == visited
}

/// Whether each of `paths` is sound, lies in `graph`, and has at most
/// `edges` edges.
pub open spec fn paths_sound(paths: Seq<PathModel>, graph: StackGraphView, edges: nat) -> bool {
    forall|i: int|
        0 <= i < paths.len() ==> (#[trigger] paths[i]).inv() && paths[i].fits(graph)
            && paths[i].edge_count <= edges
}

/// An extension of a sound path is sound, and has at most two edges more:
/// the edge, and the jump at its end.
pub proof fn lemma_extension_sound(
    graph: StackGraphView,
    file: FileHandle,
    path: PathModel,
    edge: Edge,
)
    requires
        graph.wf(),
        path.inv(),
        path.fits(graph),
        graph.contains_node(edge.sink),
        extension_along(graph, file, path, edge).is_some(),
    ensures
        extension_along(graph, file, path, edge).unwrap().inv(),
        extension_along(graph, file, path, edge).unwrap().fits(graph),
        extension_along(graph, file, path, edge).unwrap().edge_count <= path.edge_count + 2,
        extension_along(graph, file, path, edge).unwrap().start_node == path.start_node,
{
    lemma_append_keeps_sound(graph, path, edge);
    let longer = path.append(edge, graph.node(edge.sink)).unwrap();
    lemma_resolve_keeps_sound(graph, longer);
}

/// Every extension of a sound path is sound, and has at most two edges more.
pub proof fn lemma_extensions_sound(
    graph: StackGraphView,
    file: FileHandle,
    path: PathModel,
    upto: nat,
)
    requires
        graph.wf(),
        path.inv(),
        path.fits(graph),
        upto <= graph.outgoing_edges(path.end_node).len(),
    ensures
        paths_sound(extensions_upto(graph, file, path, upto), graph, path.edge_count + 2),
    decreases upto,
{
    if upto > 0 {
        lemma_extensions_sound(graph, file, path, (upto - 1) as nat);
        let edge = graph.outgoing_edges(path.end_node)[upto - 1];
        assert(graph.outgoing[position(path.end_node.index)][upto - 1] == edge);
        if extension_along(graph, file, path, edge).is_some() {
            lemma_extension_sound(graph, file, path, edge);
        }
    }
}

/// Every path that a search starts with is sound, and has no edge.
pub proof fn lemma_seed_paths_sound(graph: StackGraphView, nodes: Seq<NodeHandle>)
    requires
        graph.wf(),
        forall|i: int| 0 <= i < nodes.len() ==> graph.contains_node(#[trigger] nodes[i]),
    ensures
        paths_sound(seed_paths(graph, nodes), graph, 0),
    decreases nodes.len(),
{
    if nodes.len() > 0 {
        assert forall|i: int| 0 <= i < nodes.drop_last().len() implies graph.contains_node(
            #[trigger] nodes.drop_last()[i],
        ) by {
            assert(graph.contains_node(nodes[i]));
        }
        lemma_seed_paths_sound(graph, nodes.drop_last());
        assert(graph.contains_node(nodes[nodes.len() - 1]));
        lemma_from_node_is_sound(graph, nodes.last());
    }
}

impl PartialPath {
    /// Puts into `result` what the path becomes along each edge that leaves
    /// its end and stays within `file`, in the order of the edges. An edge
    /// that cannot be appended, or that ends in a jump that cannot be taken,
    /// gives no path.
    pub fn extend_from_file<R: Extend<PartialPath>>(
        &self,
        graph: &StackGraph,
        partials: &mut PartialPaths,
        file: FileHandle,
        result: &mut R,
    )
        requires
            old(partials).wf(),
            graph@.wf(),
            self.valid_in(*old(partials)),
            graph@.contains_node(self.end_node),
            self.edge_count <= usize::MAX - 2,
            self.model(*old(partials)).max_precondition_variable() < u32::MAX,
        ensures
            final(partials).wf(),
            old(partials).extended_by(*final(partials)),
            final(result).items().len() == old(result).items().len() + extensions(
                graph@,
                file,
                self.model(*old(partials)),
            ).len(),
            forall|i: int|
                0 <= i < old(result).items().len() ==> (#[trigger] final(result).items()[i]) == old(result).items()[i],
            forall|i: int|
                old(result).items().len() <= i < final(result).items().len() ==> (
                #[trigger] final(result).items()[i]).valid_in(*final(partials)) && final(result).items()[i].model(*final(partials)) == extensions(
                    graph@,
                    file,
                    self.model(*old(partials)),
                )[i - old(result).items().len()],
    {
        let extensions = graph.outgoing_edges(self.end_node);
        result.reserve(extensions.len());
        let ghost model = self.model(*partials);
        let ghost kept = old(result).items();
        let mut i: usize = 0;
        while i < extensions.len()
            invariant
                i <= extensions@.len(),
                extensions@ == graph@.outgoing_edges(self.end_node),
                graph@.wf(),
                graph@.contains_node(self.end_node),
                partials.wf(),
                old(partials).extended_by(*partials),
                self.valid_in(*old(partials)),
                model == self.model(*old(partials)),
                self.edge_count <= usize::MAX - 2,
                model.max_precondition_variable() < u32::MAX,
                kept == old(result).items(),
                result.items().len() == kept.len() + extensions_upto(
                    graph@,
                    file,
                    model,
                    i as nat,
                ).len(),
                forall|k: int| 0 <= k < kept.len() ==> (#[trigger] result.items()[k]) == kept[k],
                forall|k: int|
                    kept.len() <= k < result.items().len() ==> (#[trigger] result.items()[k]).valid_in(
                        *partials,
                    ) && result.items()[k].model(*partials) == extensions_upto(
                        graph@,
                        file,
                        model,
                        i as nat,
                    )[k - kept.len()],
            decreases extensions@.len() - i,
        {
            let extension = extensions[i];
            let ghost found = result.items();
            let ghost partials_before = *partials;
            proof {
                assert(graph@.outgoing[position(self.end_node.index)][position(i)] == extension);
            }
            let mut extended: Option<PartialPath> = None;
            if graph.node(extension.sink).is_in_file(file) {
                let mut new_path = *self;
                if new_path.append(graph, partials, extension).is_ok() {
                    if new_path.resolve(graph, partials).is_ok() {
                        extended = Some(new_path);
                    }
                }
            }
            proof {
                assert(match extended {
                    Some(new_path) => new_path.valid_in(*partials) && Some(
                        new_path.model(*partials),
                    ) == extension_along(graph@, file, model, extension),
                    None => extension_along(graph@, file, model, extension).is_none(),
                });
                assert forall|k: int| kept.len() <= k < found.len() implies (
                #[trigger] found[k]).valid_in(*partials) && found[k].model(*partials)
                    == found[k].model(partials_before) by {
                    assert(found[k].valid_in(partials_before));
                }
            }
            match extended {
                Some(new_path) => {
                    result.push(new_path);
                },
                None => {},
            }
            i += 1;
        }
    }
}

/// What a queue of paths stands for once its oldest path has been taken.
proof fn lemma_models_after_pop(waiting: Seq<PartialPath>, partials: PartialPaths)
    requires
        waiting.len() > 0,
        paths_valid_in(waiting, partials),
    ensures
        waiting[0].valid_in(partials),
        path_models(waiting, partials)[0] == waiting[0].model(partials),
        paths_valid_in(waiting.subrange(1, waiting.len() as int), partials),
        path_models(waiting.subrange(1, waiting.len() as int), partials) == path_models(
            waiting,
            partials,
        ).subrange(1, waiting.len() as int),
{
    let rest = waiting.subrange(1, waiting.len() as int);
    assert forall|k: int| 0 <= k < rest.len() implies (#[trigger] rest[k]).valid_in(partials) by {
        assert(rest[k] == waiting[k + 1]);
        assert(waiting[k + 1].valid_in(partials));
    }
    assert(path_models(rest, partials) =~= path_models(waiting, partials).subrange(
        1,
        waiting.len() as int,
    ));
}

/// What a list of paths stands for once a path has been put behind it.
proof fn lemma_models_after_push(paths: Seq<PartialPath>, path: PartialPath, partials: PartialPaths)
    requires
        paths_valid_in(paths, partials),
        path.valid_in(partials),
    ensures
        paths_valid_in(paths.push(path), partials),
        path_models(paths.push(path), partials) == path_models(paths, partials).push(
            path.model(partials),
        ),
{
    let longer = paths.push(path);
    assert forall|k: int| 0 <= k < longer.len() implies (#[trigger] longer[k]).valid_in(partials) by {
        if k < paths.len() {
            assert(longer[k] == paths[k]);
            assert(paths[k].valid_in(partials));
        }
    }
    assert(path_models(longer, partials) =~= path_models(paths, partials).push(
        path.model(partials),
    ));
}

/// What a queue stands for once paths that stand for `added` have been put
/// behind the paths `rest`.
proof fn lemma_models_after_extend(
    rest: Seq<PartialPath>,
    queue: Seq<PartialPath>,
    added: Seq<PathModel>,
    partials: PartialPaths,
)
    requires
        paths_valid_in(rest, partials),
        queue.len() == rest.len() + added.len(),
        forall|k: int| 0 <= k < rest.len() ==> (#[trigger] queue[k]) == rest[k],
        forall|k: int|
            rest.len() <= k < queue.len() ==> (#[trigger] queue[k]).valid_in(partials)
                && queue[k].model(partials) == added[k - rest.len()],
    ensures
        paths_valid_in(queue, partials),
        path_models(queue, partials) == path_models(rest, partials) + added,
{
    assert forall|k: int| 0 <= k < queue.len() implies (#[trigger] queue[k]).valid_in(partials) by {
        if k < rest.len() {
            assert(queue[k] == rest[k]);
            assert(rest[k].valid_in(partials));
        }
    }
    assert forall|k: int| 0 <= k < queue.len() implies path_models(queue, partials)[k] == (
    path_models(rest, partials) + added)[k] by {
        if k < rest.len() {
            assert(queue[k] == rest[k]);
        }
    }
    assert(path_models(queue, partials) =~= path_models(rest, partials) + added);
}

/// A step of the search keeps the waiting and the visited paths sound, and
/// no path has more than two edges for each visited path.
pub proof fn lemma_step_keeps_sound(graph: StackGraphView, file: FileHandle, state: SearchState)
    requires
        graph.wf(),
        paths_sound(state.queue, graph, 2 * state.visited.len()),
        paths_sound(state.visited, graph, 2 * state.visited.len()),
    ensures
        paths_sound(
            search_step(graph, file, state).queue,
            graph,
            2 * search_step(graph, file, state).visited.len(),
        ),
        paths_sound(
            search_step(graph, file, state).visited,
            graph,
            2 * search_step(graph, file, state).visited.len(),
        ),
{
    if state.queue.len() > 0 {
        let path = state.queue[0];
        let rest = state.queue.subrange(1, state.queue.len() as int);
        let next = search_step(graph, file, state);
        let bound = 2 * next.visited.len();
        assert(path.inv() && path.fits(graph));
        assert forall|k: int| 0 <= k < rest.len() implies (#[trigger] rest[k]).inv() && rest[k].fits(
            graph,
        ) && rest[k].edge_count <= 2 * state.visited.len() by {
            assert(rest[k] == state.queue[k + 1]);
        }
        if is_new_path(state.visited, graph, path) {
            let longer = extensions(graph, file, path);
            lemma_extensions_sound(graph, file, path, graph.outgoing_edges(path.end_node).len());
            assert forall|k: int| 0 <= k < next.queue.len() implies (#[trigger] next.queue[k]).inv()
                && next.queue[k].fits(graph) && next.queue[k].edge_count <= bound by {
                if k < rest.len() {
                    assert(next.queue[k] == rest[k]);
                } else {
                    assert(next.queue[k] == longer[k - rest.len()]);
                }
            }
            assert forall|k: int| 0 <= k < next.visited.len() implies (
            #[trigger] next.visited[k]).inv() && next.visited[k].fits(graph)
                && next.visited[k].edge_count <= bound by {
                if k < state.visited.len() {
                    assert(next.visited[k] == state.visited[k]);
                }
            }
        }
    }
}

/// The members of a list of paths one by one.
proof fn lemma_models_members(paths: Seq<PartialPath>, partials: PartialPaths, graph: StackGraphView)
    requires
        paths_sound(path_models(paths, partials), graph, 2 * paths.len()),
    ensures
        paths_fit(path_models(paths, partials), graph),
        forall|i: int|
            0 <= i < paths.len() ==> (#[trigger] paths[i]).model(partials).inv() && paths[i].model(
                partials,
            ).fits(graph),
{
    assert forall|i: int| 0 <= i < paths.len() implies (#[trigger] paths[i]).model(partials).inv()
        && paths[i].model(partials).fits(graph) by {
        assert(path_models(paths, partials)[i].inv());
    }
    assert forall|i: int| 0 <= i < paths.len() implies (#[trigger] path_models(
        paths,
        partials,
    )[i]).fits(graph) by {}
}

impl PartialPaths {
    /// The queue that a search for the paths of `file` starts with.
    fn seed_queue(&mut self, graph: &StackGraph, file: FileHandle) -> (queue: VecDeque<PartialPath>)
        requires
            old(self).wf(),
            graph@.wf(),
        ensures
            final(self).wf(),
            old(self).extended_by(*final(self)),
            paths_valid_in(queue@, *final(self)),
            path_models(queue@, *final(self)) == search_start(graph@, file).queue,
    {
        let mut queue: VecDeque<PartialPath> = VecDeque::new();
        let root = graph.root_node();
        let node_count: usize = graph.node_count();
        let root_path = PartialPath::from_node(graph, self, root);
        queue.push_back(root_path);
        let nodes = graph.nodes_for_file(file);
        proof {
            graph@.lemma_nodes_in_file(file, graph@.nodes.len());
            assert(path_models(queue@, *self) =~= seq![
                PathModel::from_node(NodeHandle { index: 0 }, Node::Root),
            ] + seed_paths(graph@, nodes@.take(0)));
        }
        let mut i: usize = 0;
        while i < nodes.len()
            invariant
                i <= nodes@.len(),
                graph@.wf(),
                nodes@ == graph@.nodes_in_file(file),
                forall|k: int| 0 <= k < nodes@.len() ==> graph@.contains_node(#[trigger] nodes@[k]),
                self.wf(),
                old(self).extended_by(*self),
                paths_valid_in(queue@, *self),
                path_models(queue@, *self) == seq![
                    PathModel::from_node(NodeHandle { index: 0 }, Node::Root),
                ] + seed_paths(graph@, nodes@.take(i as int)),
            decreases nodes@.len() - i,
        {
            let node = nodes[i];
            let ghost waiting = queue@;
            let ghost before = *self;
            proof {
                assert(nodes@.take(i + 1).drop_last() =~= nodes@.take(i as int));
                assert(nodes@.take(i + 1).last() == node);
            }
            if graph.node(node).is_seed() {
                let path = PartialPath::from_node(graph, self, node);
                queue.push_back(path);
                proof {
                    lemma_paths_kept(waiting, before, *self);
                    lemma_models_after_push(waiting, path, *self);
                }
            }
            i += 1;
        }
        proof {
            assert(nodes@.take(nodes@.len() as int) =~= nodes@);
        }
        queue
    }

    /// One step of the search: takes the oldest path of `queue`, which must
    /// not be empty, and visits and extends it where the detector lets it pass.
    fn take_step(
        &mut self,
        graph: &StackGraph,
        file: FileHandle,
        queue: &mut VecDeque<PartialPath>,
        cycle_detector: &mut CycleDetector,
        visited: &mut Vec<PartialPath>,
    )
        requires
            old(self).wf(),
            graph@.wf(),
            old(queue)@.len() > 0,
            paths_valid_in(old(queue)@, *old(self)),
            paths_valid_in(old(visited)@, *old(self)),
            old(cycle_detector).remembered() == old(visited)@,
            paths_sound(path_models(old(queue)@, *old(self)), graph@, 2 * old(visited)@.len()),
            paths_sound(path_models(old(visited)@, *old(self)), graph@, 2 * old(visited)@.len()),
            old(visited)@.len() <= MAX_REMEMBERED_PATHS,
        ensures
            final(self).wf(),
            old(self).extended_by(*final(self)),
            paths_valid_in(final(queue)@, *final(self)),
            paths_valid_in(final(visited)@, *final(self)),
            final(cycle_detector).remembered() == final(visited)@,
            final(visited)@.len() <= MAX_REMEMBERED_PATHS,
            (SearchState {
                queue: path_models(final(queue)@, *final(self)),
                visited: path_models(final(visited)@, *final(self)),
            }) == search_step(
                graph@,
                file,
                SearchState {
                    queue: path_models(old(queue)@, *old(self)),
                    visited: path_models(old(visited)@, *old(self)),
                },
            ),
            final(visited)@.len() == old(visited)@.len() + 1 || (final(visited)@.len() == old(
                visited,
            )@.len() && final(queue)@.len() < old(queue)@.len()),
    {
        let ghost before = *self;
        let ghost waiting = queue@;
        let ghost seen = visited@;
        let ghost state = SearchState {
            queue: path_models(waiting, before),
            visited: path_models(seen, before),
        };
        proof {
            lemma_models_after_pop(waiting, before);
            lemma_models_members(seen, before, graph@);
        }
        let path = match queue.pop_front() {
            Some(path) => path,
            None => {
                return ;
            },
        };
        let ghost rest = queue@;
        let ghost model = path.model(before);
        proof {
            assert(rest =~= waiting.subrange(1, waiting.len() as int));
            assert(model == state.queue[0]);
            assert(model.inv() && model.fits(graph@));
            assert(model.edge_count <= 2 * seen.len());
        }
        if cycle_detector.should_process_path(graph, self, &path) {
            let ghost middle = *self;
            proof {
                lemma_paths_kept(rest, before, middle);
                lemma_paths_kept(seen, before, middle);
            }
            path.extend_from_file(graph, self, file, queue);
            visited.push(path);
            proof {
                lemma_paths_kept(rest, middle, *self);
                lemma_paths_kept(seen, middle, *self);
                lemma_models_after_extend(rest, queue@, extensions(graph@, file, model), *self);
                lemma_models_after_push(seen, path, *self);
            }
        } else {
            proof {
                lemma_paths_kept(rest, before, *self);
                lemma_paths_kept(seen, before, *self);
            }
        }
    }

    /// All partial paths of `file`, in the order in which the search goes on
    /// from them.
    ///
    /// The search visits every path that it takes from the queue and that
    /// the cycle detector lets pass, also a path that can still grow; ask
    /// `is_complete_as_possible` for those that cannot. The detector passes
    /// a bounded number of paths, so the search ends on every graph.
    pub fn find_all_partial_paths_in_file(&mut self, graph: &StackGraph, file: FileHandle) -> (visited:
        Vec<PartialPath>)
        requires
            old(self).wf(),
            graph@.wf(),
        ensures
            final(self).wf(),
            old(self).extended_by(*final(self)),
            paths_valid_in(visited@, *final(self)),
            visited@.len() <= MAX_REMEMBERED_PATHS,
            exists|steps: nat|
                search_ends_with(graph@, file, steps, path_models(visited@, *final(self))),
            forall|i: int|
                0 <= i < visited@.len() ==> (#[trigger] visited@[i]).model(*final(self)).inv()
                    && visited@[i].model(*final(self)).fits(graph@),
    {
        let mut cycle_detector = CycleDetector::new();
        let node_count: usize = graph.node_count();
        let mut queue = self.seed_queue(graph, file);
        let mut visited: Vec<PartialPath> = Vec::new();
        let ghost mut steps: nat = 0;
        proof {
            lemma_search_start_sound(graph@, file);
            assert(path_models(visited@, *self) =~= Seq::empty());
            assert(cycle_detector.remembered() =~= visited@);
        }
        while queue.len() > 0
            invariant
                graph@.wf(),
                self.wf(),
                old(self).extended_by(*self),
                paths_valid_in(queue@, *self),
                paths_valid_in(visited@, *self),
                cycle_detector.remembered() == visited@,
                visited@.len() <= MAX_REMEMBERED_PATHS,
                search_steps(graph@, file, steps) == (SearchState {
                    queue: path_models(queue@, *self),
                    visited: path_models(visited@, *self),
                }),
                paths_sound(path_models(queue@, *self), graph@, 2 * visited@.len()),
                paths_sound(path_models(visited@, *self), graph@, 2 * visited@.len()),
            decreases MAX_REMEMBERED_PATHS - visited@.len(), queue@.len(),
        {
            proof {
                lemma_step_keeps_sound(graph@, file, search_steps(graph@, file, steps));
                steps = steps + 1;
            }
            self.take_step(graph, file, &mut queue, &mut cycle_detector, &mut visited);
        }
        proof {
            assert(search_ends_with(graph@, file, steps, path_models(visited@, *self)));
            lemma_models_members(visited@, *self, graph@);
        }
        visited
    }
}

/// The paths that a search starts with are sound and have no edge.
pub proof fn lemma_search_start_sound(graph: StackGraphView, file: FileHandle)
    requires
        graph.wf(),
        graph.nodes.len() <= usize::MAX,
    ensures
        paths_sound(search_start(graph, file).queue, graph, 0),
{
    let nodes = graph.nodes_in_file(file);
    graph.lemma_nodes_in_file(file, graph.nodes.len());
    lemma_seed_paths_sound(graph, nodes);
    lemma_from_node_is_sound(graph, NodeHandle { index: 0 });
    let seeds = seed_paths(graph, nodes);
    let queue = search_start(graph, file).queue;
    assert forall|i: int| 0 <= i < queue.len() implies (#[trigger] queue[i]).inv() && queue[i].fits(
        graph,
    ) && queue[i].edge_count <= 0 by {
        if i > 0 {
            assert(queue[i] == seeds[i - 1]);
        }
    }
}

} // verus!
