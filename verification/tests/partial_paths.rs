use partial_paths::graph::{Edge, FileHandle, Node, NodeHandle, StackGraph, SymbolHandle};
use partial_paths::partial::{
    PartialPath, PartialPaths, PartialScopeStack, PartialScopedSymbol, PartialSymbolStack,
    ScopeStackVariable,
};
use partial_paths::paths::PathResolutionError;
use std::cmp::Ordering;

struct Fixture {
    graph: StackGraph,
    file: FileHandle,
    a: SymbolHandle,
    b: SymbolHandle,
    exported: NodeHandle,
    scope: NodeHandle,
    push_a: NodeHandle,
    push_scoped_a: NodeHandle,
    pop_a: NodeHandle,
    pop_b: NodeHandle,
    pop_scoped_a: NodeHandle,
    drop_scopes: NodeHandle,
    internal: NodeHandle,
}

fn fixture() -> Fixture {
    let mut graph = StackGraph::new();
    let file = graph.add_file("test.py");
    let a = graph.add_symbol("a");
    let b = graph.add_symbol("b");
    let exported = graph.add_node(Node::ExportedScope { file }).unwrap();
    let scope = graph.add_node(Node::ExportedScope { file }).unwrap();
    let push_a =
        graph.add_node(Node::PushSymbol { file, symbol: a, is_reference: true }).unwrap();
    let push_scoped_a = graph
        .add_node(Node::PushScopedSymbol { file, symbol: a, scope, is_reference: true })
        .unwrap();
    let pop_a =
        graph.add_node(Node::PopSymbol { file, symbol: a, is_definition: true }).unwrap();
    let pop_b =
        graph.add_node(Node::PopSymbol { file, symbol: b, is_definition: true }).unwrap();
    let pop_scoped_a =
        graph.add_node(Node::PopScopedSymbol { file, symbol: a, is_definition: true }).unwrap();
    let drop_scopes = graph.add_node(Node::DropScopes { file }).unwrap();
    let internal = graph.add_node(Node::InternalScope { file }).unwrap();
    Fixture {
        graph,
        file,
        a,
        b,
        exported,
        scope,
        push_a,
        push_scoped_a,
        pop_a,
        pop_b,
        pop_scoped_a,
        drop_scopes,
        internal,
    }
}

fn edge(source: NodeHandle, sink: NodeHandle) -> Edge {
    Edge { source, sink, precedence: 0 }
}

fn variable_of(stack: &PartialScopeStack) -> Option<u32> {
    stack.variable().map(|variable| variable.as_u32())
}

fn symbols_of(stack: &PartialSymbolStack, partials: &mut PartialPaths) -> Vec<PartialScopedSymbol> {
    stack.iter(partials)
}

#[test]
fn trivial_seed_at_root() {
    let f = fixture();
    let mut partials = PartialPaths::new();
    let root = f.graph.root_node();
    let path = PartialPath::from_node(&f.graph, &mut partials, root);
    assert_eq!(path.start_node, root);
    assert_eq!(path.end_node, root);
    assert!(path.symbol_stack_precondition.is_empty());
    assert!(path.symbol_stack_postcondition.is_empty());
    assert_eq!(variable_of(&path.scope_stack_precondition), Some(1));
    assert_eq!(variable_of(&path.scope_stack_postcondition), Some(1));
    assert!(!path.scope_stack_precondition.contains_scopes());
    assert!(!path.scope_stack_postcondition.contains_scopes());
    assert_eq!(path.edge_count, 0);
    assert!(!path.is_productive(&mut partials));
    assert_eq!(path.display(&f.graph, &mut partials), "<> ($1) [root] -> [root] <> ($1)");
}

#[test]
fn push_then_pop_leaves_both_symbol_stacks_empty() {
    let f = fixture();
    let mut partials = PartialPaths::new();
    let mut path = PartialPath::from_node(&f.graph, &mut partials, f.exported);
    assert_eq!(path.append(&f.graph, &mut partials, edge(f.exported, f.push_a)), Ok(()));
    assert_eq!(symbols_of(&path.symbol_stack_postcondition, &mut partials).len(), 1);
    assert_eq!(path.append(&f.graph, &mut partials, edge(f.push_a, f.pop_a)), Ok(()));
    assert!(path.symbol_stack_postcondition.is_empty());
    assert!(path.symbol_stack_precondition.is_empty());
    assert_eq!(path.edge_count, 2);
    assert_eq!(path.start_node, f.exported);
    assert_eq!(path.end_node, f.pop_a);
    assert_eq!(variable_of(&path.scope_stack_postcondition), Some(1));
}

#[test]
fn pop_below_empty_extends_the_precondition() {
    let f = fixture();
    let mut partials = PartialPaths::new();
    let mut path = PartialPath::from_node(&f.graph, &mut partials, f.exported);
    assert_eq!(path.append(&f.graph, &mut partials, edge(f.exported, f.pop_a)), Ok(()));
    let asked = symbols_of(&path.symbol_stack_precondition, &mut partials);
    assert_eq!(asked.len(), 1);
    assert_eq!(asked[0].symbol, f.a);
    assert!(asked[0].scopes.is_none());
    assert!(path.symbol_stack_postcondition.is_empty());
    assert_eq!(path.edge_count, 1);
    assert_eq!(
        path.display(&f.graph, &mut partials),
        "<a> ($1) [test.py(2)] -> [test.py(6)] <> ($1)"
    );
}

#[test]
fn pop_below_empty_twice_asks_in_the_order_of_the_pops() {
    let f = fixture();
    let mut partials = PartialPaths::new();
    let mut path = PartialPath::from_node(&f.graph, &mut partials, f.exported);
    assert_eq!(path.append(&f.graph, &mut partials, edge(f.exported, f.pop_a)), Ok(()));
    assert_eq!(path.append(&f.graph, &mut partials, edge(f.pop_a, f.pop_b)), Ok(()));
    let asked = symbols_of(&path.symbol_stack_precondition, &mut partials);
    assert_eq!(asked.len(), 2);
    assert_eq!(asked[0].symbol, f.a);
    assert_eq!(asked[1].symbol, f.b);
    assert_eq!(path.symbol_stack_precondition.display(&f.graph, &mut partials), "ab");
}

#[test]
fn scoped_pop_below_empty_mints_the_second_variable() {
    let f = fixture();
    let mut partials = PartialPaths::new();
    let mut path = PartialPath::from_node(&f.graph, &mut partials, f.exported);
    assert_eq!(path.fresh_scope_stack_variable(&mut partials).as_u32(), 2);
    assert_eq!(path.append(&f.graph, &mut partials, edge(f.exported, f.pop_scoped_a)), Ok(()));
    let asked = symbols_of(&path.symbol_stack_precondition, &mut partials);
    assert_eq!(asked.len(), 1);
    assert_eq!(asked[0].symbol, f.a);
    let attached = asked[0].scopes.unwrap();
    assert_eq!(variable_of(&attached), Some(2));
    assert!(!attached.contains_scopes());
    assert_eq!(variable_of(&path.scope_stack_postcondition), Some(2));
    assert!(!path.scope_stack_postcondition.contains_scopes());
    assert_eq!(variable_of(&path.scope_stack_precondition), Some(1));
    assert_eq!(path.fresh_scope_stack_variable(&mut partials).as_u32(), 3);
    assert_eq!(
        path.display(&f.graph, &mut partials),
        "<a/$2> ($1) [test.py(2)] -> [test.py(8)] <> ($2)"
    );
}

#[test]
fn jump_to_with_a_scope_on_top_goes_on_at_that_scope() {
    let f = fixture();
    let mut partials = PartialPaths::new();
    let jump = f.graph.jump_to_node();
    let mut path = PartialPath::from_node(&f.graph, &mut partials, f.push_scoped_a);
    assert_eq!(path.scope_stack_postcondition.iter_scopes(&mut partials), vec![f.scope]);
    assert_eq!(path.append(&f.graph, &mut partials, edge(f.push_scoped_a, jump)), Ok(()));
    assert_eq!(path.end_node, jump);
    assert_eq!(path.resolve(&f.graph, &mut partials), Ok(()));
    assert_eq!(path.end_node, f.scope);
    assert_eq!(path.edge_count, 2);
    assert!(!path.scope_stack_postcondition.contains_scopes());
    assert!(path.scope_stack_postcondition.can_only_match_empty());
    let left = symbols_of(&path.symbol_stack_postcondition, &mut partials);
    assert_eq!(left.len(), 1);
    assert_eq!(left[0].scopes.unwrap().iter_scopes(&mut partials), vec![f.scope]);
}

#[test]
fn jump_to_with_a_variable_alone_is_left_for_later() {
    let f = fixture();
    let mut partials = PartialPaths::new();
    let jump = f.graph.jump_to_node();
    let mut path = PartialPath::from_node(&f.graph, &mut partials, f.exported);
    assert_eq!(path.append(&f.graph, &mut partials, edge(f.exported, jump)), Ok(()));
    assert_eq!(path.resolve(&f.graph, &mut partials), Ok(()));
    assert_eq!(path.end_node, jump);
    assert_eq!(path.edge_count, 1);
    assert_eq!(variable_of(&path.scope_stack_postcondition), Some(1));
}

#[test]
fn jump_to_with_an_empty_scope_stack_fails() {
    let f = fixture();
    let mut partials = PartialPaths::new();
    let jump = f.graph.jump_to_node();
    let mut path = PartialPath::from_node(&f.graph, &mut partials, f.push_a);
    assert!(path.scope_stack_postcondition.can_only_match_empty());
    assert_eq!(path.append(&f.graph, &mut partials, edge(f.push_a, jump)), Ok(()));
    assert_eq!(
        path.resolve(&f.graph, &mut partials),
        Err(PathResolutionError::EmptyScopeStack)
    );
    assert_eq!(path.end_node, jump);
    assert_eq!(path.edge_count, 1);
}

#[test]
fn resolve_away_from_the_jump_node_changes_nothing() {
    let f = fixture();
    let mut partials = PartialPaths::new();
    let mut path = PartialPath::from_node(&f.graph, &mut partials, f.push_scoped_a);
    assert_eq!(path.resolve(&f.graph, &mut partials), Ok(()));
    assert_eq!(path.end_node, f.push_scoped_a);
    assert_eq!(path.edge_count, 0);
    assert!(path.scope_stack_postcondition.contains_scopes());
}

#[test]
fn mismatched_pop_is_an_error_and_the_clone_is_untouched() {
    let f = fixture();
    let mut partials = PartialPaths::new();
    let mut path = PartialPath::from_node(&f.graph, &mut partials, f.exported);
    assert_eq!(path.append(&f.graph, &mut partials, edge(f.exported, f.push_a)), Ok(()));
    let kept = path.clone();
    assert_eq!(
        path.append(&f.graph, &mut partials, edge(f.push_a, f.pop_b)),
        Err(PathResolutionError::IncorrectPoppedSymbol)
    );
    assert_eq!(kept.end_node, f.push_a);
    assert_eq!(kept.edge_count, 1);
    let left = symbols_of(&kept.symbol_stack_postcondition, &mut partials);
    assert_eq!(left.len(), 1);
    assert_eq!(left[0].symbol, f.a);
    assert!(left[0].scopes.is_none());
    assert!(kept.symbol_stack_precondition.is_empty());
}

#[test]
fn edge_from_another_node_is_an_error() {
    let f = fixture();
    let mut partials = PartialPaths::new();
    let mut path = PartialPath::from_node(&f.graph, &mut partials, f.exported);
    assert_eq!(
        path.append(&f.graph, &mut partials, edge(f.push_a, f.pop_a)),
        Err(PathResolutionError::IncorrectSourceNode)
    );
    assert_eq!(path.end_node, f.exported);
    assert_eq!(path.edge_count, 0);
    assert!(path.symbol_stack_postcondition.is_empty());
}

#[test]
fn plain_pop_of_a_scoped_symbol_is_an_error() {
    let f = fixture();
    let mut partials = PartialPaths::new();
    let mut path = PartialPath::from_node(&f.graph, &mut partials, f.push_scoped_a);
    assert_eq!(
        path.append(&f.graph, &mut partials, edge(f.push_scoped_a, f.pop_a)),
        Err(PathResolutionError::UnexpectedAttachedScopeList)
    );
}

#[test]
fn scoped_pop_of_a_plain_symbol_is_an_error() {
    let f = fixture();
    let mut partials = PartialPaths::new();
    let mut path = PartialPath::from_node(&f.graph, &mut partials, f.push_a);
    assert_eq!(
        path.append(&f.graph, &mut partials, edge(f.push_a, f.pop_scoped_a)),
        Err(PathResolutionError::MissingAttachedScopeList)
    );
}

#[test]
fn scoped_pop_of_another_symbol_is_an_error() {
    let mut f = fixture();
    let pop_scoped_b = f
        .graph
        .add_node(Node::PopScopedSymbol { file: f.file, symbol: f.b, is_definition: true })
        .unwrap();
    let mut partials = PartialPaths::new();
    let mut path = PartialPath::from_node(&f.graph, &mut partials, f.push_scoped_a);
    assert_eq!(
        path.append(&f.graph, &mut partials, edge(f.push_scoped_a, pop_scoped_b)),
        Err(PathResolutionError::IncorrectPoppedSymbol)
    );
}

#[test]
fn from_node_at_a_push_node_has_pushed() {
    let f = fixture();
    let mut partials = PartialPaths::new();
    let path = PartialPath::from_node(&f.graph, &mut partials, f.push_a);
    assert_eq!(path.edge_count, 0);
    assert_eq!(path.start_node, f.push_a);
    assert_eq!(path.end_node, f.push_a);
    let left = symbols_of(&path.symbol_stack_postcondition, &mut partials);
    assert_eq!(left.len(), 1);
    assert_eq!(left[0].symbol, f.a);
    assert!(left[0].scopes.is_none());
    assert!(path.symbol_stack_precondition.is_empty());
    assert!(path.scope_stack_precondition.can_only_match_empty());
    assert!(path.scope_stack_postcondition.can_only_match_empty());
    assert!(path.is_productive(&mut partials));
    assert_eq!(path.fresh_scope_stack_variable(&mut partials).as_u32(), 1);
}

#[test]
fn from_node_at_a_scoped_push_node_attaches_the_scope() {
    let f = fixture();
    let mut partials = PartialPaths::new();
    let path = PartialPath::from_node(&f.graph, &mut partials, f.push_scoped_a);
    let left = symbols_of(&path.symbol_stack_postcondition, &mut partials);
    assert_eq!(left.len(), 1);
    assert_eq!(left[0].symbol, f.a);
    let attached = left[0].scopes.unwrap();
    assert_eq!(attached.iter_scopes(&mut partials), vec![f.scope]);
    assert_eq!(variable_of(&attached), None);
    assert_eq!(path.scope_stack_postcondition.iter_scopes(&mut partials), vec![f.scope]);
    assert!(path.scope_stack_precondition.can_only_match_empty());
    assert_eq!(
        path.display(&f.graph, &mut partials),
        "<> () [test.py(5)] -> [test.py(5)] <a/[test.py(3)]> ([test.py(3)])"
    );
}

#[test]
fn scoped_push_attaches_the_scope_stack_and_leaves_it_alone() {
    let f = fixture();
    let mut partials = PartialPaths::new();
    let mut path = PartialPath::from_node(&f.graph, &mut partials, f.exported);
    assert_eq!(path.append(&f.graph, &mut partials, edge(f.exported, f.push_scoped_a)), Ok(()));
    assert!(!path.scope_stack_postcondition.contains_scopes());
    assert_eq!(variable_of(&path.scope_stack_postcondition), Some(1));
    let left = symbols_of(&path.symbol_stack_postcondition, &mut partials);
    let attached = left[0].scopes.unwrap();
    assert_eq!(attached.iter_scopes(&mut partials), vec![f.scope]);
    assert_eq!(variable_of(&attached), Some(1));
    assert_eq!(
        path.display(&f.graph, &mut partials),
        "<> ($1) [test.py(2)] -> [test.py(5)] <a/[test.py(3)],$1> ($1)"
    );
}

#[test]
fn scoped_push_then_scoped_pop_puts_the_scope_on_the_scope_stack() {
    let f = fixture();
    let mut partials = PartialPaths::new();
    let mut path = PartialPath::from_node(&f.graph, &mut partials, f.exported);
    assert_eq!(path.append(&f.graph, &mut partials, edge(f.exported, f.push_scoped_a)), Ok(()));
    assert_eq!(path.append(&f.graph, &mut partials, edge(f.push_scoped_a, f.pop_scoped_a)), Ok(()));
    assert!(path.symbol_stack_postcondition.is_empty());
    assert!(path.symbol_stack_precondition.is_empty());
    assert_eq!(path.scope_stack_postcondition.iter_scopes(&mut partials), vec![f.scope]);
    assert_eq!(variable_of(&path.scope_stack_postcondition), Some(1));
    assert_eq!(path.edge_count, 2);
}

#[test]
fn drop_scopes_empties_the_scope_stack() {
    let f = fixture();
    let mut partials = PartialPaths::new();
    let mut path = PartialPath::from_node(&f.graph, &mut partials, f.exported);
    assert_eq!(path.append(&f.graph, &mut partials, edge(f.exported, f.drop_scopes)), Ok(()));
    assert!(path.scope_stack_postcondition.can_only_match_empty());
    assert_eq!(variable_of(&path.scope_stack_precondition), Some(1));
    assert!(path.is_productive(&mut partials));
}

#[test]
fn other_nodes_only_move_the_end() {
    let f = fixture();
    let mut partials = PartialPaths::new();
    let mut path = PartialPath::from_node(&f.graph, &mut partials, f.exported);
    assert_eq!(path.append(&f.graph, &mut partials, edge(f.exported, f.internal)), Ok(()));
    assert_eq!(path.end_node, f.internal);
    assert_eq!(path.edge_count, 1);
    assert!(path.symbol_stack_precondition.is_empty());
    assert!(path.symbol_stack_postcondition.is_empty());
    assert_eq!(variable_of(&path.scope_stack_postcondition), Some(1));
    assert!(path.is_productive(&mut partials));
}

#[test]
fn a_path_back_at_its_start_with_the_same_stacks_is_not_productive() {
    let f = fixture();
    let mut partials = PartialPaths::new();
    let mut path = PartialPath::from_node(&f.graph, &mut partials, f.exported);
    assert_eq!(path.append(&f.graph, &mut partials, edge(f.exported, f.internal)), Ok(()));
    assert_eq!(path.append(&f.graph, &mut partials, edge(f.internal, f.exported)), Ok(()));
    assert_eq!(path.edge_count, 2);
    assert!(!path.is_productive(&mut partials));
}

#[test]
fn complete_as_possible_looks_at_both_ends() {
    let mut f = fixture();
    let push_plain = f
        .graph
        .add_node(Node::PushSymbol { file: f.file, symbol: f.a, is_reference: false })
        .unwrap();
    let pop_plain = f
        .graph
        .add_node(Node::PopSymbol { file: f.file, symbol: f.a, is_definition: false })
        .unwrap();
    let mut partials = PartialPaths::new();
    let root = f.graph.root_node();
    let jump = f.graph.jump_to_node();

    let at_root = PartialPath::from_node(&f.graph, &mut partials, root);
    assert!(at_root.is_complete_as_possible(&f.graph));

    let at_exported = PartialPath::from_node(&f.graph, &mut partials, f.exported);
    assert!(!at_exported.is_complete_as_possible(&f.graph));

    let mut to_jump = at_exported.clone();
    assert_eq!(to_jump.append(&f.graph, &mut partials, edge(f.exported, jump)), Ok(()));
    assert!(to_jump.is_complete_as_possible(&f.graph));

    let mut to_definition = at_exported.clone();
    assert_eq!(to_definition.append(&f.graph, &mut partials, edge(f.exported, f.pop_a)), Ok(()));
    assert!(to_definition.is_complete_as_possible(&f.graph));

    let mut reference = PartialPath::from_node(&f.graph, &mut partials, f.push_a);
    assert!(!reference.is_complete_as_possible(&f.graph));
    assert_eq!(reference.append(&f.graph, &mut partials, edge(f.push_a, f.pop_a)), Ok(()));
    assert!(reference.is_complete_as_possible(&f.graph));

    let mut stack_left = PartialPath::from_node(&f.graph, &mut partials, f.push_a);
    assert_eq!(stack_left.append(&f.graph, &mut partials, edge(f.push_a, f.push_a)), Ok(()));
    assert_eq!(stack_left.append(&f.graph, &mut partials, edge(f.push_a, f.pop_a)), Ok(()));
    assert!(!stack_left.is_complete_as_possible(&f.graph));

    let mut not_a_reference = PartialPath::from_node(&f.graph, &mut partials, push_plain);
    assert_eq!(not_a_reference.append(&f.graph, &mut partials, edge(push_plain, f.pop_a)), Ok(()));
    assert!(!not_a_reference.is_complete_as_possible(&f.graph));

    let mut not_a_definition = PartialPath::from_node(&f.graph, &mut partials, f.push_a);
    assert_eq!(not_a_definition.append(&f.graph, &mut partials, edge(f.push_a, pop_plain)), Ok(()));
    assert!(!not_a_definition.is_complete_as_possible(&f.graph));

    let mut asks_for_a_symbol = PartialPath::from_node(&f.graph, &mut partials, f.push_a);
    assert_eq!(asks_for_a_symbol.append(&f.graph, &mut partials, edge(f.push_a, f.pop_a)), Ok(()));
    assert_eq!(asks_for_a_symbol.append(&f.graph, &mut partials, edge(f.pop_a, f.pop_a)), Ok(()));
    assert!(!asks_for_a_symbol.is_complete_as_possible(&f.graph));

    let mut to_root = PartialPath::from_node(&f.graph, &mut partials, root);
    assert_eq!(to_root.append(&f.graph, &mut partials, edge(root, f.internal)), Ok(()));
    assert!(!to_root.is_complete_as_possible(&f.graph));
    assert_eq!(to_root.append(&f.graph, &mut partials, edge(f.internal, root)), Ok(()));
    assert!(to_root.is_complete_as_possible(&f.graph));
}

#[test]
fn every_stack_matches_and_equals_itself() {
    let f = fixture();
    let mut partials = PartialPaths::new();
    let mut path = PartialPath::from_node(&f.graph, &mut partials, f.exported);
    assert_eq!(path.append(&f.graph, &mut partials, edge(f.exported, f.push_scoped_a)), Ok(()));
    assert_eq!(path.append(&f.graph, &mut partials, edge(f.push_scoped_a, f.push_a)), Ok(()));
    let symbols = path.symbol_stack_postcondition;
    let scopes = path.scope_stack_postcondition;
    assert!(symbols.matches(&mut partials, symbols));
    assert!(symbols.equals(&mut partials, symbols));
    assert_eq!(symbols.cmp(&f.graph, &mut partials, symbols), Ordering::Equal);
    assert!(scopes.matches(&mut partials, scopes));
    assert!(scopes.equals(&mut partials, scopes));
    assert_eq!(scopes.cmp(&mut partials, scopes), Ordering::Equal);
    let items = symbols_of(&symbols, &mut partials);
    for item in items {
        assert!(item.matches(&mut partials, item));
        assert!(item.equals(&mut partials, &item));
        assert_eq!(item.cmp(&f.graph, &mut partials, &item), Ordering::Equal);
    }
    assert!(path.equals(&mut partials, &path));
    assert_eq!(path.cmp(&f.graph, &mut partials, &path), Ordering::Equal);
}

#[test]
fn symbol_stacks_of_unequal_length_do_not_match() {
    let f = fixture();
    let mut partials = PartialPaths::new();
    let plain = PartialScopedSymbol { symbol: f.a, scopes: None };
    let mut one = PartialSymbolStack::empty();
    one.push_front(&mut partials, plain);
    let mut two = one;
    two.push_front(&mut partials, plain);
    assert!(!one.matches(&mut partials, two));
    assert!(!two.matches(&mut partials, one));
    assert!(!one.equals(&mut partials, two));
    assert!(!two.equals(&mut partials, one));
    assert_eq!(one.cmp(&f.graph, &mut partials, two), Ordering::Less);
    assert_eq!(two.cmp(&f.graph, &mut partials, one), Ordering::Greater);
    let empty = PartialSymbolStack::empty();
    assert!(!empty.matches(&mut partials, one));
    assert!(empty.matches(&mut partials, PartialSymbolStack::empty()));
    assert_eq!(empty.cmp(&f.graph, &mut partials, one), Ordering::Less);
}

#[test]
fn symbol_stacks_are_ordered_by_the_first_symbol_that_differs() {
    let f = fixture();
    let mut partials = PartialPaths::new();
    let a = PartialScopedSymbol { symbol: f.a, scopes: None };
    let b = PartialScopedSymbol { symbol: f.b, scopes: None };
    let mut ab = PartialSymbolStack::empty();
    ab.push_back(&mut partials, a);
    ab.push_back(&mut partials, b);
    let mut b_alone = PartialSymbolStack::empty();
    b_alone.push_back(&mut partials, b);
    assert_eq!(ab.cmp(&f.graph, &mut partials, b_alone), Ordering::Less);
    assert_eq!(b_alone.cmp(&f.graph, &mut partials, ab), Ordering::Greater);
    assert!(!ab.matches(&mut partials, b_alone));
}

#[test]
fn scope_stacks_match_only_when_scopes_and_variable_are_the_same() {
    let f = fixture();
    let mut partials = PartialPaths::new();
    let first = ScopeStackVariable::new(1).unwrap();
    let second = ScopeStackVariable::new(2).unwrap();
    let with_first = PartialScopeStack::from_variable(first);
    let with_second = PartialScopeStack::from_variable(second);
    let empty = PartialScopeStack::empty();
    assert!(with_first.matches(&mut partials, PartialScopeStack::from_variable(first)));
    assert!(!with_first.matches(&mut partials, with_second));
    assert!(!with_first.matches(&mut partials, empty));
    assert!(!empty.matches(&mut partials, with_first));
    assert!(empty.matches(&mut partials, PartialScopeStack::empty()));

    let mut one_scope = with_first;
    one_scope.push_front(&mut partials, f.scope);
    let mut same_scope = with_first;
    same_scope.push_back(&mut partials, f.scope);
    let mut other_scope = with_first;
    other_scope.push_front(&mut partials, f.exported);
    let mut two_scopes = one_scope;
    two_scopes.push_front(&mut partials, f.exported);
    assert!(one_scope.matches(&mut partials, same_scope));
    assert!(one_scope.equals(&mut partials, same_scope));
    assert!(!one_scope.matches(&mut partials, other_scope));
    assert!(!one_scope.matches(&mut partials, two_scopes));
    assert!(!one_scope.matches(&mut partials, with_first));
    assert!(!one_scope.equals(&mut partials, two_scopes));
}

#[test]
fn scope_stacks_are_ordered_by_scopes_and_then_by_variable() {
    let f = fixture();
    let mut partials = PartialPaths::new();
    let first = ScopeStackVariable::new(1).unwrap();
    let second = ScopeStackVariable::new(2).unwrap();
    let empty = PartialScopeStack::empty();
    let with_first = PartialScopeStack::from_variable(first);
    let with_second = PartialScopeStack::from_variable(second);
    assert_eq!(empty.cmp(&mut partials, with_first), Ordering::Less);
    assert_eq!(with_first.cmp(&mut partials, empty), Ordering::Greater);
    assert_eq!(with_first.cmp(&mut partials, with_second), Ordering::Less);
    assert_eq!(with_second.cmp(&mut partials, with_first), Ordering::Greater);
    let mut low = empty;
    low.push_front(&mut partials, f.exported);
    let mut high = empty;
    high.push_front(&mut partials, f.scope);
    assert_eq!(low.cmp(&mut partials, high), Ordering::Less);
    assert_eq!(high.cmp(&mut partials, low), Ordering::Greater);
    assert_eq!(with_second.cmp(&mut partials, low), Ordering::Less);
    let mut longer = low;
    longer.push_back(&mut partials, f.scope);
    assert_eq!(low.cmp(&mut partials, longer), Ordering::Less);
    assert_eq!(longer.cmp(&mut partials, high), Ordering::Less);
}

#[test]
fn scoped_symbols_compare_symbol_first_and_scopes_second() {
    let f = fixture();
    let mut partials = PartialPaths::new();
    let first = ScopeStackVariable::new(1).unwrap();
    let plain_a = PartialScopedSymbol { symbol: f.a, scopes: None };
    let plain_b = PartialScopedSymbol { symbol: f.b, scopes: None };
    let empty_a = PartialScopedSymbol { symbol: f.a, scopes: Some(PartialScopeStack::empty()) };
    let open_a =
        PartialScopedSymbol { symbol: f.a, scopes: Some(PartialScopeStack::from_variable(first)) };
    assert!(!plain_a.matches(&mut partials, plain_b));
    assert!(!plain_a.matches(&mut partials, empty_a));
    assert!(!empty_a.matches(&mut partials, plain_a));
    assert!(!empty_a.matches(&mut partials, open_a));
    assert!(open_a.matches(&mut partials, open_a));
    assert!(!plain_a.equals(&mut partials, &empty_a));
    assert!(empty_a.equals(&mut partials, &empty_a));
    assert_eq!(plain_a.cmp(&f.graph, &mut partials, &plain_b), Ordering::Less);
    assert_eq!(plain_b.cmp(&f.graph, &mut partials, &open_a), Ordering::Greater);
    assert_eq!(plain_a.cmp(&f.graph, &mut partials, &empty_a), Ordering::Less);
    assert_eq!(empty_a.cmp(&f.graph, &mut partials, &plain_a), Ordering::Greater);
    assert_eq!(empty_a.cmp(&f.graph, &mut partials, &open_a), Ordering::Less);
    assert_eq!(plain_a.display(&f.graph, &mut partials), "a");
    assert_eq!(empty_a.display(&f.graph, &mut partials), "a/");
    assert_eq!(open_a.display(&f.graph, &mut partials), "a/$1");
}

#[test]
fn symbols_are_ordered_by_name_not_by_handle() {
    let mut graph = StackGraph::new();
    let zebra = graph.add_symbol("zebra");
    let apple = graph.add_symbol("apple");
    let app = graph.add_symbol("app");
    let mut partials = PartialPaths::new();
    let z = PartialScopedSymbol { symbol: zebra, scopes: None };
    let a = PartialScopedSymbol { symbol: apple, scopes: None };
    let p = PartialScopedSymbol { symbol: app, scopes: None };
    assert_eq!(z.cmp(&graph, &mut partials, &a), Ordering::Greater);
    assert_eq!(a.cmp(&graph, &mut partials, &z), Ordering::Less);
    assert_eq!(p.cmp(&graph, &mut partials, &a), Ordering::Less);
    assert_eq!(a.cmp(&graph, &mut partials, &p), Ordering::Greater);
}

#[test]
fn paths_compare_by_nodes_before_stacks_and_ignore_the_edge_count() {
    let f = fixture();
    let mut partials = PartialPaths::new();
    let at_exported = PartialPath::from_node(&f.graph, &mut partials, f.exported);
    let at_scope = PartialPath::from_node(&f.graph, &mut partials, f.scope);
    assert_eq!(at_exported.cmp(&f.graph, &mut partials, &at_scope), Ordering::Less);
    assert_eq!(at_scope.cmp(&f.graph, &mut partials, &at_exported), Ordering::Greater);
    assert!(!at_exported.equals(&mut partials, &at_scope));

    let mut round_trip = at_exported.clone();
    assert_eq!(round_trip.append(&f.graph, &mut partials, edge(f.exported, f.internal)), Ok(()));
    assert_eq!(round_trip.append(&f.graph, &mut partials, edge(f.internal, f.exported)), Ok(()));
    assert_eq!(round_trip.edge_count, 2);
    assert!(round_trip.equals(&mut partials, &at_exported));
    assert_eq!(round_trip.cmp(&f.graph, &mut partials, &at_exported), Ordering::Equal);

    let mut popped = at_exported.clone();
    assert_eq!(popped.append(&f.graph, &mut partials, edge(f.exported, f.pop_a)), Ok(()));
    let mut moved = at_exported.clone();
    assert_eq!(moved.append(&f.graph, &mut partials, edge(f.exported, f.pop_a)), Ok(()));
    assert!(popped.equals(&mut partials, &moved));
    let mut dropped = at_exported.clone();
    assert_eq!(dropped.append(&f.graph, &mut partials, edge(f.exported, f.drop_scopes)), Ok(()));
    assert!(!dropped.equals(&mut partials, &popped));
    assert_eq!(popped.cmp(&f.graph, &mut partials, &dropped), Ordering::Less);
}

#[test]
fn stacks_are_values() {
    let f = fixture();
    let mut partials = PartialPaths::new();
    let plain_a = PartialScopedSymbol { symbol: f.a, scopes: None };
    let plain_b = PartialScopedSymbol { symbol: f.b, scopes: None };
    let mut stack = PartialSymbolStack::empty();
    stack.push_front(&mut partials, plain_a);
    let copy = stack;
    stack.push_front(&mut partials, plain_b);
    stack.push_back(&mut partials, plain_b);
    assert_eq!(symbols_of(&copy, &mut partials).len(), 1);
    let all = symbols_of(&stack, &mut partials);
    assert_eq!(all.len(), 3);
    assert_eq!(all[0].symbol, f.b);
    assert_eq!(all[1].symbol, f.a);
    assert_eq!(all[2].symbol, f.b);
    assert_eq!(stack.pop_back(&mut partials).unwrap().symbol, f.b);
    assert_eq!(stack.pop_front(&mut partials).unwrap().symbol, f.b);
    assert!(stack.matches(&mut partials, copy));
    assert_eq!(stack.pop_front(&mut partials).unwrap().symbol, f.a);
    assert!(stack.pop_front(&mut partials).is_none());
    assert!(stack.pop_back(&mut partials).is_none());
    assert!(stack.is_empty());
    assert!(!copy.is_empty());
    assert_eq!(symbols_of(&copy, &mut partials)[0].symbol, f.a);
}

#[test]
fn scope_stack_pushes_and_pops_at_both_ends() {
    let f = fixture();
    let mut partials = PartialPaths::new();
    let mut stack = PartialScopeStack::from_variable(ScopeStackVariable::initial());
    stack.push_back(&mut partials, f.exported);
    stack.push_back(&mut partials, f.scope);
    stack.push_front(&mut partials, f.internal);
    assert_eq!(stack.iter_scopes(&mut partials), vec![f.internal, f.exported, f.scope]);
    let unordered = stack.iter_unordered(&partials);
    assert_eq!(unordered.len(), 3);
    assert!(unordered.contains(&f.internal));
    assert!(unordered.contains(&f.exported));
    assert!(unordered.contains(&f.scope));
    assert!(
        unordered == vec![f.internal, f.exported, f.scope]
            || unordered == vec![f.scope, f.exported, f.internal]
    );
    assert_eq!(
        stack.display(&f.graph, &mut partials),
        "[test.py(10)],[test.py(2)],[test.py(3)],$1"
    );
    assert_eq!(stack.pop_back(&mut partials), Some(f.scope));
    assert_eq!(stack.pop_front(&mut partials), Some(f.internal));
    assert_eq!(stack.pop_front(&mut partials), Some(f.exported));
    assert_eq!(stack.pop_front(&mut partials), None);
    assert_eq!(stack.pop_back(&mut partials), None);
    assert_eq!(variable_of(&stack), Some(1));
    assert!(!stack.can_only_match_empty());
    assert!(!stack.contains_scopes());
}

#[test]
fn symbol_stack_iter_unordered_yields_every_symbol_once() {
    let f = fixture();
    let mut partials = PartialPaths::new();
    let plain_a = PartialScopedSymbol { symbol: f.a, scopes: None };
    let plain_b = PartialScopedSymbol { symbol: f.b, scopes: None };
    let mut stack = PartialSymbolStack::empty();
    stack.push_back(&mut partials, plain_a);
    stack.push_back(&mut partials, plain_b);
    let unordered = stack.iter_unordered(&partials);
    assert_eq!(unordered.len(), 2);
    let names: Vec<SymbolHandle> = unordered.iter().map(|symbol| symbol.symbol).collect();
    assert!(names == vec![f.a, f.b] || names == vec![f.b, f.a]);
    let ordered = stack.iter(&mut partials);
    assert_eq!(ordered[0].symbol, f.a);
    assert_eq!(ordered[1].symbol, f.b);
}

#[test]
fn variables_are_numbered_from_one() {
    assert_eq!(ScopeStackVariable::initial().as_u32(), 1);
    assert_eq!(ScopeStackVariable::fresher_than(0).as_u32(), 1);
    assert_eq!(ScopeStackVariable::fresher_than(41).as_u32(), 42);
    assert!(ScopeStackVariable::new(0).is_none());
    assert_eq!(ScopeStackVariable::new(7).unwrap().as_u32(), 7);
    assert_eq!(ScopeStackVariable::new(1).unwrap(), ScopeStackVariable::initial());
}

#[test]
fn fresh_variable_exceeds_every_variable_of_the_preconditions() {
    let f = fixture();
    let mut partials = PartialPaths::new();
    let mut path = PartialPath::from_node(&f.graph, &mut partials, f.exported);
    for expected in 2..6u32 {
        let end = path.end_node;
        assert_eq!(path.append(&f.graph, &mut partials, edge(end, f.pop_scoped_a)), Ok(()));
        assert_eq!(variable_of(&path.scope_stack_postcondition), Some(expected));
        let fresh = path.fresh_scope_stack_variable(&mut partials).as_u32();
        assert_eq!(fresh, expected + 1);
        let asked = symbols_of(&path.symbol_stack_precondition, &mut partials);
        for symbol in asked {
            assert!(variable_of(&symbol.scopes.unwrap()).unwrap() < fresh);
        }
        assert!(variable_of(&path.scope_stack_precondition).unwrap() < fresh);
    }
    assert_eq!(
        path.symbol_stack_precondition.display(&f.graph, &mut partials),
        "a/$2a/$3a/$4a/$5"
    );
}

#[test]
fn display_prints_large_numbers_in_decimal() {
    let f = fixture();
    let mut partials = PartialPaths::new();
    let stack = PartialScopeStack::from_variable(ScopeStackVariable::new(4_294_967_295).unwrap());
    assert_eq!(stack.display(&f.graph, &mut partials), "$4294967295");
    let ten = PartialScopeStack::from_variable(ScopeStackVariable::new(10).unwrap());
    assert_eq!(ten.display(&f.graph, &mut partials), "$10");
    let mut jump = PartialScopeStack::empty();
    jump.push_front(&mut partials, f.graph.jump_to_node());
    jump.push_front(&mut partials, f.graph.root_node());
    assert_eq!(jump.display(&f.graph, &mut partials), "[root],[jump to scope]");
}

#[test]
fn stacks_know_the_arenas_and_the_graph_they_were_made_for() {
    let f = fixture();
    let mut partials = PartialPaths::new();
    let empty_arenas = PartialPaths::new();
    let small_graph = StackGraph::new();
    let mut path = PartialPath::from_node(&f.graph, &mut partials, f.push_scoped_a);
    assert_eq!(path.append(&f.graph, &mut partials, edge(f.push_scoped_a, f.pop_a)).is_ok(), false);
    let path = PartialPath::from_node(&f.graph, &mut partials, f.push_scoped_a);
    assert!(path.is_valid_in(&partials));
    assert!(path.lies_in(&f.graph, &partials));
    assert!(!path.is_valid_in(&empty_arenas));
    assert!(!path.lies_in(&small_graph, &partials));
    assert!(path.symbol_stack_postcondition.is_valid_in(&partials));
    assert!(!path.symbol_stack_postcondition.is_valid_in(&empty_arenas));
    assert!(path.symbol_stack_precondition.is_valid_in(&empty_arenas));
    assert!(path.scope_stack_postcondition.is_valid_in(&partials));
    assert!(!path.scope_stack_postcondition.is_valid_in(&empty_arenas));
    assert!(path.scope_stack_postcondition.lies_in(&f.graph, &partials));
    assert!(!path.scope_stack_postcondition.lies_in(&small_graph, &partials));
    assert!(path.symbol_stack_postcondition.lies_in(&f.graph, &partials));
    assert!(!path.symbol_stack_postcondition.lies_in(&small_graph, &partials));
    let top = path.symbol_stack_postcondition.iter_unordered(&partials)[0];
    assert!(top.is_valid_in(&partials));
    assert!(!top.is_valid_in(&empty_arenas));
    assert!(top.lies_in(&f.graph, &partials));
    assert!(!top.lies_in(&small_graph, &partials));
    let plain = PartialScopedSymbol { symbol: f.a, scopes: None };
    assert!(plain.is_valid_in(&empty_arenas));
    assert!(plain.lies_in(&f.graph, &empty_arenas));
    assert!(!plain.lies_in(&small_graph, &empty_arenas));
    let at_root = PartialPath::from_node(&small_graph, &mut partials, small_graph.root_node());
    assert!(at_root.is_valid_in(&empty_arenas));
    assert!(at_root.lies_in(&small_graph, &empty_arenas));
    assert!(small_graph.holds_node(small_graph.jump_to_node()));
    assert!(!small_graph.holds_node(f.exported));
    assert!(!small_graph.holds_symbol(f.a));
    assert!(!small_graph.holds_file(f.file));
    assert!(f.graph.holds_file(f.file));
}

#[test]
fn new_arenas_hold_no_stack() {
    let f = fixture();
    let mut used = PartialPaths::new();
    let mut scopes = PartialScopeStack::empty();
    scopes.push_front(&mut used, f.scope);
    let mut symbols = PartialSymbolStack::empty();
    symbols.push_front(&mut used, PartialScopedSymbol { symbol: f.a, scopes: None });

    let fresh = PartialPaths::new();
    assert!(!scopes.is_valid_in(&fresh));
    assert!(!symbols.is_valid_in(&fresh));
    let empty_scopes = PartialScopeStack::empty();
    let empty_symbols = PartialSymbolStack::empty();
    assert!(empty_scopes.is_valid_in(&fresh));
    assert!(empty_symbols.is_valid_in(&fresh));
    assert!(empty_scopes.iter_unordered(&fresh).is_empty());
    assert!(empty_symbols.iter_unordered(&fresh).is_empty());
    assert!(!empty_scopes.contains_scopes());
    assert!(empty_symbols.is_empty());
}
