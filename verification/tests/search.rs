use partial_paths::cycles::{CycleDetector, MAX_REMEMBERED_PATHS};
use partial_paths::graph::{Edge, FileHandle, Node, NodeHandle, StackGraph};
use partial_paths::partial::{PartialPath, PartialPaths};
use partial_paths::paths::Extend;
use std::collections::VecDeque;

fn texts(graph: &StackGraph, partials: &mut PartialPaths, paths: &[PartialPath]) -> Vec<String> {
    let mut out = Vec::new();
    for path in paths {
        out.push(path.display(graph, partials));
    }
    out
}

fn reference_and_definition() -> (StackGraph, FileHandle, NodeHandle, NodeHandle, NodeHandle) {
    let mut graph = StackGraph::new();
    let file = graph.add_file("f");
    let a = graph.add_symbol("a");
    let exported = graph.add_node(Node::ExportedScope { file }).unwrap();
    let reference =
        graph.add_node(Node::PushSymbol { file, symbol: a, is_reference: true }).unwrap();
    let definition =
        graph.add_node(Node::PopSymbol { file, symbol: a, is_definition: true }).unwrap();
    assert!(graph.add_edge(exported, definition, 0));
    assert!(graph.add_edge(reference, definition, 0));
    (graph, file, exported, reference, definition)
}

#[test]
fn search_visits_seeds_first_and_then_their_extensions() {
    let (graph, file, _, _, _) = reference_and_definition();
    let mut partials = PartialPaths::new();
    let visited = partials.find_all_partial_paths_in_file(&graph, file);
    assert_eq!(
        texts(&graph, &mut partials, &visited),
        vec![
            "<> ($1) [root] -> [root] <> ($1)",
            "<> ($1) [f(2)] -> [f(2)] <> ($1)",
            "<> () [f(3)] -> [f(3)] <a> ()",
            "<a> ($1) [f(2)] -> [f(4)] <> ($1)",
            "<> () [f(3)] -> [f(4)] <> ()",
        ]
    );
    let edges: Vec<usize> = visited.iter().map(|path| path.edge_count).collect();
    assert_eq!(edges, vec![0, 0, 0, 1, 1]);
}

#[test]
fn search_results_can_be_filtered_for_complete_and_productive_paths() {
    let (graph, file, _, _, _) = reference_and_definition();
    let mut partials = PartialPaths::new();
    let visited = partials.find_all_partial_paths_in_file(&graph, file);
    let complete: Vec<bool> =
        visited.iter().map(|path| path.is_complete_as_possible(&graph)).collect();
    assert_eq!(complete, vec![true, false, false, true, true]);
    let mut productive = Vec::new();
    for path in &visited {
        productive.push(path.is_productive(&mut partials));
    }
    assert_eq!(productive, vec![false, false, true, true, true]);
}

#[test]
fn search_ends_on_a_cycle_that_leaves_the_stacks_alone() {
    let mut graph = StackGraph::new();
    let file = graph.add_file("f");
    let exported = graph.add_node(Node::ExportedScope { file }).unwrap();
    let first = graph.add_node(Node::InternalScope { file }).unwrap();
    let second = graph.add_node(Node::InternalScope { file }).unwrap();
    assert!(graph.add_edge(exported, first, 0));
    assert!(graph.add_edge(first, second, 0));
    assert!(graph.add_edge(second, first, 0));
    let mut partials = PartialPaths::new();
    let visited = partials.find_all_partial_paths_in_file(&graph, file);
    assert_eq!(
        texts(&graph, &mut partials, &visited),
        vec![
            "<> ($1) [root] -> [root] <> ($1)",
            "<> ($1) [f(2)] -> [f(2)] <> ($1)",
            "<> ($1) [f(2)] -> [f(3)] <> ($1)",
            "<> ($1) [f(2)] -> [f(4)] <> ($1)",
        ]
    );
    assert!(visited.len() <= MAX_REMEMBERED_PATHS);
}

#[test]
fn search_stays_within_the_file_but_passes_through_the_root() {
    let mut graph = StackGraph::new();
    let file = graph.add_file("f");
    let other = graph.add_file("g");
    let root = graph.root_node();
    let exported = graph.add_node(Node::ExportedScope { file }).unwrap();
    let inside = graph.add_node(Node::InternalScope { file }).unwrap();
    let outside = graph.add_node(Node::InternalScope { file: other }).unwrap();
    assert!(graph.add_edge(exported, outside, 0));
    assert!(graph.add_edge(exported, root, 0));
    assert!(graph.add_edge(root, inside, 0));
    assert!(graph.add_edge(root, outside, 0));
    let mut partials = PartialPaths::new();
    let visited = partials.find_all_partial_paths_in_file(&graph, file);
    assert_eq!(
        texts(&graph, &mut partials, &visited),
        vec![
            "<> ($1) [root] -> [root] <> ($1)",
            "<> ($1) [f(2)] -> [f(2)] <> ($1)",
            "<> ($1) [root] -> [f(3)] <> ($1)",
            "<> ($1) [f(2)] -> [root] <> ($1)",
            "<> ($1) [f(2)] -> [f(3)] <> ($1)",
        ]
    );
    for path in &visited {
        assert_ne!(path.end_node, outside);
    }
    let in_other = partials.find_all_partial_paths_in_file(&graph, other);
    assert_eq!(
        texts(&graph, &mut partials, &in_other),
        vec!["<> ($1) [root] -> [root] <> ($1)", "<> ($1) [root] -> [g(4)] <> ($1)"]
    );
}

#[test]
fn search_drops_edges_that_cannot_be_appended_or_resolved() {
    let mut graph = StackGraph::new();
    let file = graph.add_file("f");
    let a = graph.add_symbol("a");
    let b = graph.add_symbol("b");
    let jump = graph.jump_to_node();
    let push_a = graph.add_node(Node::PushSymbol { file, symbol: a, is_reference: true }).unwrap();
    let pop_b = graph.add_node(Node::PopSymbol { file, symbol: b, is_definition: true }).unwrap();
    assert!(graph.add_edge(push_a, pop_b, 0));
    assert!(graph.add_edge(push_a, jump, 0));
    let mut partials = PartialPaths::new();
    let visited = partials.find_all_partial_paths_in_file(&graph, file);
    assert_eq!(
        texts(&graph, &mut partials, &visited),
        vec!["<> ($1) [root] -> [root] <> ($1)", "<> () [f(2)] -> [f(2)] <a> ()"]
    );
}

#[test]
fn search_takes_the_jump_at_the_end_of_an_edge() {
    let mut graph = StackGraph::new();
    let file = graph.add_file("f");
    let a = graph.add_symbol("a");
    let jump = graph.jump_to_node();
    let scope = graph.add_node(Node::ExportedScope { file }).unwrap();
    let push = graph
        .add_node(Node::PushScopedSymbol { file, symbol: a, scope, is_reference: true })
        .unwrap();
    assert!(graph.add_edge(push, jump, 0));
    let mut partials = PartialPaths::new();
    let visited = partials.find_all_partial_paths_in_file(&graph, file);
    assert_eq!(
        texts(&graph, &mut partials, &visited),
        vec![
            "<> ($1) [root] -> [root] <> ($1)",
            "<> ($1) [f(2)] -> [f(2)] <> ($1)",
            "<> () [f(3)] -> [f(3)] <a/[f(2)]> ([f(2)])",
            "<> () [f(3)] -> [f(2)] <a/[f(2)]> ()",
        ]
    );
    assert_eq!(visited[3].edge_count, 2);
    assert_eq!(visited[3].end_node, scope);
}

#[test]
fn search_mints_variables_that_are_held_by_a_precondition() {
    let mut graph = StackGraph::new();
    let file = graph.add_file("f");
    let a = graph.add_symbol("a");
    let exported = graph.add_node(Node::ExportedScope { file }).unwrap();
    let pop = graph
        .add_node(Node::PopScopedSymbol { file, symbol: a, is_definition: true })
        .unwrap();
    let second = graph
        .add_node(Node::PopScopedSymbol { file, symbol: a, is_definition: true })
        .unwrap();
    assert!(graph.add_edge(exported, pop, 0));
    assert!(graph.add_edge(pop, second, 0));
    let mut partials = PartialPaths::new();
    let visited = partials.find_all_partial_paths_in_file(&graph, file);
    assert_eq!(
        texts(&graph, &mut partials, &visited),
        vec![
            "<> ($1) [root] -> [root] <> ($1)",
            "<> ($1) [f(2)] -> [f(2)] <> ($1)",
            "<a/$2> ($1) [f(2)] -> [f(3)] <> ($2)",
            "<a/$2a/$3> ($1) [f(2)] -> [f(4)] <> ($3)",
        ]
    );
    for path in &visited {
        let mut held = Vec::new();
        if let Some(variable) = path.scope_stack_precondition.variable() {
            held.push(variable.as_u32());
        }
        for symbol in path.symbol_stack_precondition.iter(&mut partials) {
            if let Some(variable) = symbol.scopes.and_then(|scopes| scopes.variable()) {
                held.push(variable.as_u32());
            }
        }
        if let Some(variable) = path.scope_stack_postcondition.variable() {
            assert!(held.contains(&variable.as_u32()));
        }
        for symbol in path.symbol_stack_postcondition.iter(&mut partials) {
            if let Some(variable) = symbol.scopes.and_then(|scopes| scopes.variable()) {
                assert!(held.contains(&variable.as_u32()));
            }
        }
        let fresh = path.fresh_scope_stack_variable(&mut partials).as_u32();
        for number in held {
            assert!(number < fresh);
        }
    }
}

#[test]
fn extend_from_file_puts_the_extensions_behind_what_is_there() {
    let (graph, file, exported, reference, definition) = reference_and_definition();
    let mut partials = PartialPaths::new();
    let at_reference = PartialPath::from_node(&graph, &mut partials, reference);
    let at_exported = PartialPath::from_node(&graph, &mut partials, exported);
    let mut found: Vec<PartialPath> = vec![at_exported.clone()];
    at_reference.extend_from_file(&graph, &mut partials, file, &mut found);
    assert_eq!(found.len(), 2);
    assert_eq!(found[0].end_node, exported);
    assert_eq!(found[1].start_node, reference);
    assert_eq!(found[1].end_node, definition);
    assert_eq!(found[1].edge_count, 1);
    assert!(found[1].symbol_stack_postcondition.is_empty());
    assert_eq!(at_reference.edge_count, 0);
    assert_eq!(at_reference.end_node, reference);

    let mut queue: VecDeque<PartialPath> = VecDeque::new();
    at_exported.extend_from_file(&graph, &mut partials, file, &mut queue);
    assert_eq!(queue.len(), 1);
    assert_eq!(queue[0].end_node, definition);
    let at_definition = PartialPath::from_node(&graph, &mut partials, definition);
    at_definition.extend_from_file(&graph, &mut partials, file, &mut queue);
    assert_eq!(queue.len(), 1);
}

#[test]
fn extend_from_file_follows_the_edges_in_their_order() {
    let mut graph = StackGraph::new();
    let file = graph.add_file("f");
    let exported = graph.add_node(Node::ExportedScope { file }).unwrap();
    let first = graph.add_node(Node::InternalScope { file }).unwrap();
    let second = graph.add_node(Node::InternalScope { file }).unwrap();
    assert!(graph.add_edge(exported, second, 0));
    assert!(graph.add_edge(exported, first, 1));
    let mut partials = PartialPaths::new();
    let path = PartialPath::from_node(&graph, &mut partials, exported);
    let mut found: Vec<PartialPath> = Vec::new();
    path.extend_from_file(&graph, &mut partials, file, &mut found);
    let ends: Vec<NodeHandle> = found.iter().map(|path| path.end_node).collect();
    assert_eq!(ends, vec![second, first]);
}

#[test]
fn sinks_keep_what_they_hold() {
    let (graph, _, exported, reference, _) = reference_and_definition();
    let mut partials = PartialPaths::new();
    let first = PartialPath::from_node(&graph, &mut partials, exported);
    let second = PartialPath::from_node(&graph, &mut partials, reference);
    let mut list: Vec<PartialPath> = Vec::new();
    Extend::reserve(&mut list, 4);
    Extend::push(&mut list, first.clone());
    Extend::push(&mut list, second.clone());
    assert_eq!(list.len(), 2);
    assert_eq!(list[0].start_node, exported);
    assert_eq!(list[1].start_node, reference);
    let mut queue: VecDeque<PartialPath> = VecDeque::new();
    Extend::push(&mut queue, first);
    Extend::reserve(&mut queue, 4);
    Extend::push(&mut queue, second);
    assert_eq!(queue.len(), 2);
    assert_eq!(queue[0].start_node, exported);
    assert_eq!(queue[1].start_node, reference);
}

#[test]
fn detector_lets_a_path_pass_once() {
    let (graph, _, exported, reference, definition) = reference_and_definition();
    let mut partials = PartialPaths::new();
    let mut detector = CycleDetector::new();
    let at_exported = PartialPath::from_node(&graph, &mut partials, exported);
    let at_reference = PartialPath::from_node(&graph, &mut partials, reference);
    assert_eq!(detector.len(), 0);
    assert!(detector.should_process_path(&graph, &mut partials, &at_exported));
    assert_eq!(detector.len(), 1);
    assert!(!detector.should_process_path(&graph, &mut partials, &at_exported));
    assert_eq!(detector.len(), 1);
    assert!(detector.should_process_path(&graph, &mut partials, &at_reference));
    assert_eq!(detector.len(), 2);

    let again = PartialPath::from_node(&graph, &mut partials, exported);
    assert!(!detector.should_process_path(&graph, &mut partials, &again));

    let mut longer = at_exported.clone();
    let edge = Edge { source: exported, sink: definition, precedence: 0 };
    assert_eq!(longer.append(&graph, &mut partials, edge), Ok(()));
    assert!(detector.should_process_path(&graph, &mut partials, &longer));
    assert!(!detector.should_process_path(&graph, &mut partials, &longer));
    assert_eq!(detector.len(), 3);
}
