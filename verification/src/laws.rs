//! What holds of partial paths in general.
//!
//! The functions of this crate are specified by the model of a path; the
//! laws below are proved of the model, and so hold of every path that the
//! functions make.

use vstd::prelude::*;
use std::cmp::Ordering;
use crate::graph::{lemma_byte_order_equal, position, Edge, Node, NodeHandle, StackGraphView};
use crate::model::{
    lemma_max_variable_bounds, scopes_order, symbols_match, symbols_mention, symbols_order,
    PathModel, ScopeStackModel, ScopedSymbolModel,
};
use crate::paths::PathResolutionError;
use vstd::utf8::encode_utf8;

verus! {

/// A fresh variable is greater than every variable in the preconditions of
/// the path.
pub proof fn lemma_fresh_variable_is_fresh(path: PathModel, variable: nat)
    requires
        path.precondition_mentions(variable),
    ensures
        variable < path.fresh_variable(),
{
    let symbols = path.symbol_stack_precondition;
    lemma_max_variable_bounds(symbols);
    if symbols_mention(symbols, variable) {
        let i = choose|i: int|
            0 <= i < symbols.len() && (#[trigger] symbols[i]).scopes.is_some()
                && symbols[i].scopes.unwrap().variable == Some(variable);
        assert(symbols[i].variable_number() == variable);
    }
}

/// Every pattern for a scope stack matches itself, and is in the order
/// `Equal` with itself.
pub proof fn lemma_scope_stack_reflexive(stack: ScopeStackModel)
    ensures
        stack.matches(stack),
        stack.order(stack) == Ordering::Equal,
{
    lemma_scopes_order_reflexive(stack.scopes);
}

/// A list of scopes is in the order `Equal` with itself.
pub proof fn lemma_scopes_order_reflexive(scopes: Seq<NodeHandle>)
    ensures
        scopes_order(scopes, scopes) == Ordering::Equal,
    decreases scopes.len(),
{
    if scopes.len() > 0 {
        lemma_scopes_order_reflexive(scopes.drop_first());
    }
}

/// Every scoped symbol matches itself, and is in the order `Equal` with
/// itself.
pub proof fn lemma_scoped_symbol_reflexive(graph: StackGraphView, symbol: ScopedSymbolModel)
    ensures
        symbol.matches(symbol),
        symbol.order(graph, symbol) == Ordering::Equal,
{
    let name = encode_utf8(graph.symbols[position(symbol.symbol.index)]);
    lemma_byte_order_equal(name, name);
    if symbol.scopes.is_some() {
        lemma_scope_stack_reflexive(symbol.scopes.unwrap());
    }
}

/// Every symbol stack matches itself, and is in the order `Equal` with
/// itself.
pub proof fn lemma_symbol_stack_reflexive(graph: StackGraphView, symbols: Seq<ScopedSymbolModel>)
    ensures
        symbols_match(symbols, symbols),
        symbols_order(graph, symbols, symbols) == Ordering::Equal,
    decreases symbols.len(),
{
    assert forall|i: int| 0 <= i < symbols.len() implies (#[trigger] symbols[i]).matches(
        symbols[i],
    ) by {
        lemma_scoped_symbol_reflexive(graph, symbols[i]);
    }
    if symbols.len() > 0 {
        lemma_scoped_symbol_reflexive(graph, symbols[0]);
        lemma_symbol_stack_reflexive(graph, symbols.drop_first());
    }
}

/// Every path equals itself, and is in the order `Equal` with itself.
pub proof fn lemma_path_reflexive(graph: StackGraphView, path: PathModel)
    ensures
        path.equals(path),
        path.order(graph, path) == Ordering::Equal,
{
    lemma_symbol_stack_reflexive(graph, path.symbol_stack_precondition);
    lemma_symbol_stack_reflexive(graph, path.symbol_stack_postcondition);
    lemma_scope_stack_reflexive(path.scope_stack_precondition);
    lemma_scope_stack_reflexive(path.scope_stack_postcondition);
}

/// Symbol stacks that match are equally long.
pub proof fn lemma_matching_symbol_stacks_are_equally_long(
    a: Seq<ScopedSymbolModel>,
    b: Seq<ScopedSymbolModel>,
)
    requires
        symbols_match(a, b),
    ensures
        a.len() == b.len(),
{
}

/// Patterns for scope stacks match exactly when they are the same: the same
/// scopes in the same order, and the same variable.
pub proof fn lemma_scope_stacks_match_when_same(a: ScopeStackModel, b: ScopeStackModel)
    ensures
        a.matches(b) <==> a == b,
        a.matches(b) <==> (a.scopes.len() == b.scopes.len() && (forall|i: int|
            0 <= i < a.scopes.len() ==> a.scopes[i] == b.scopes[i]) && a.variable == b.variable),
{
}

/// Symbol stacks match exactly when they are the same.
pub proof fn lemma_symbol_stacks_match_when_same(
    a: Seq<ScopedSymbolModel>,
    b: Seq<ScopedSymbolModel>,
)
    ensures
        symbols_match(a, b) <==> a == b,
{
    if symbols_match(a, b) {
        assert forall|i: int| 0 <= i < a.len() implies a[i] == b[i] by {
            assert(a[i].matches(b[i]));
            if a[i].scopes.is_some() {
                lemma_scope_stacks_match_when_same(a[i].scopes.unwrap(), b[i].scopes.unwrap());
            }
        }
        assert(a =~= b);
    }
    if a == b {
        assert forall|i: int| 0 <= i < a.len() implies (#[trigger] a[i]).matches(b[i]) by {}
    }
}

/// A path without edges starts and ends at its node. At a push node the
/// symbol of the node is on top of the symbol stack that the path leaves.
pub proof fn lemma_from_node_shape(node: NodeHandle, kind: Node)
    ensures
        PathModel::from_node(node, kind).edge_count == 0,
        PathModel::from_node(node, kind).start_node == node,
        PathModel::from_node(node, kind).end_node == node,
        PathModel::from_node(node, kind).symbol_stack_precondition.len() == 0,
        (kind is PushSymbol || kind is PushScopedSymbol) ==> PathModel::from_node(
            node,
            kind,
        ).symbol_stack_postcondition.len() > 0 && Some(
            PathModel::from_node(node, kind).symbol_stack_postcondition[0].symbol,
        ) == kind.symbol_spec(),
        !(kind is PushSymbol || kind is PushScopedSymbol) ==> PathModel::from_node(
            node,
            kind,
        ).symbol_stack_postcondition.len() == 0 && PathModel::from_node(
            node,
            kind,
        ).scope_stack_precondition == ScopeStackModel::from_variable(1)
            && PathModel::from_node(node, kind).scope_stack_postcondition
            == ScopeStackModel::from_variable(1),
{
}

/// After an edge and the jump at its end, the path ends at the sink of the
/// edge, or at the scope that was on top of its scope stack.
pub proof fn lemma_end_after_append_and_resolve(
    path: PathModel,
    edge: Edge,
    sink: Node,
    longer: PathModel,
    resolved: PathModel,
)
    requires
        path.append(edge, sink) == Ok::<PathModel, PathResolutionError>(longer),
        longer.resolve(sink) == Ok::<PathModel, PathResolutionError>(resolved),
    ensures
        longer.end_node == edge.sink,
        resolved.end_node == edge.sink || (sink == Node::JumpTo
            && longer.scope_stack_postcondition.contains_scopes() && resolved.end_node
            == longer.scope_stack_postcondition.scopes[0]
            && resolved.scope_stack_postcondition
            == longer.scope_stack_postcondition.drop_front() && resolved.edge_count
            == path.edge_count + 2),
        !(sink == Node::JumpTo && longer.scope_stack_postcondition.contains_scopes()) ==> resolved
            == longer && resolved.edge_count == path.edge_count + 1,
{
}

/// A path without edges that does not start at a push node is not
/// productive.
pub proof fn lemma_path_without_edges_is_not_productive(node: NodeHandle, kind: Node)
    requires
        !(kind is PushSymbol),
        !(kind is PushScopedSymbol),
    ensures
        !PathModel::from_node(node, kind).is_productive(),
{
    let path = PathModel::from_node(node, kind);
    assert(symbols_match(path.symbol_stack_precondition, path.symbol_stack_postcondition));
}

/// A path without edges at a push node is productive: it has pushed.
pub proof fn lemma_path_without_edges_at_push_is_productive(node: NodeHandle, kind: Node)
    requires
        kind is PushSymbol || kind is PushScopedSymbol,
    ensures
        PathModel::from_node(node, kind).is_productive(),
{
}

/// Pushing a symbol and popping it again leaves both postconditions as they
/// were.
pub proof fn lemma_push_then_pop(
    path: PathModel,
    push_edge: Edge,
    push: Node,
    pop_edge: Edge,
    pop: Node,
)
    requires
        push_edge.source == path.end_node,
        pop_edge.source == push_edge.sink,
        push is PushSymbol,
        pop is PopSymbol,
        push.symbol_spec() == pop.symbol_spec(),
    ensures
        path.append(push_edge, push).is_ok(),
        path.append(push_edge, push).unwrap().append(pop_edge, pop).is_ok(),
        path.append(push_edge, push).unwrap().append(
            pop_edge,
            pop,
        ).unwrap().symbol_stack_postcondition == path.symbol_stack_postcondition,
        path.append(push_edge, push).unwrap().append(
            pop_edge,
            pop,
        ).unwrap().scope_stack_postcondition == path.scope_stack_postcondition,
        path.append(push_edge, push).unwrap().append(
            pop_edge,
            pop,
        ).unwrap().symbol_stack_precondition == path.symbol_stack_precondition,
        path.append(push_edge, push).unwrap().append(
            pop_edge,
            pop,
        ).unwrap().scope_stack_precondition == path.scope_stack_precondition,
        path.append(push_edge, push).unwrap().append(pop_edge, pop).unwrap().edge_count
            == path.edge_count + 2,
{
    let pushed = path.append(push_edge, push).unwrap();
    let popped = pushed.append(pop_edge, pop).unwrap();
    assert(pushed.symbol_stack_postcondition.drop_first() =~= path.symbol_stack_postcondition);
}

/// Pushing a scoped symbol and popping it again leaves the symbol stack as
/// it was, and puts the scope of the push node on top of the scope stack.
pub proof fn lemma_scoped_push_then_scoped_pop(
    path: PathModel,
    push_edge: Edge,
    push: Node,
    pop_edge: Edge,
    pop: Node,
)
    requires
        push_edge.source == path.end_node,
        pop_edge.source == push_edge.sink,
        push is PushScopedSymbol,
        pop is PopScopedSymbol,
        push.symbol_spec() == pop.symbol_spec(),
    ensures
        path.append(push_edge, push).is_ok(),
        path.append(push_edge, push).unwrap().append(pop_edge, pop).is_ok(),
        path.append(push_edge, push).unwrap().append(
            pop_edge,
            pop,
        ).unwrap().symbol_stack_postcondition == path.symbol_stack_postcondition,
        path.append(push_edge, push).unwrap().append(
            pop_edge,
            pop,
        ).unwrap().scope_stack_postcondition == path.scope_stack_postcondition.push_front(
            push->PushScopedSymbol_scope,
        ),
        path.append(push_edge, push).unwrap().append(
            pop_edge,
            pop,
        ).unwrap().symbol_stack_precondition == path.symbol_stack_precondition,
{
    let pushed = path.append(push_edge, push).unwrap();
    assert(pushed.symbol_stack_postcondition.drop_first() =~= path.symbol_stack_postcondition);
}

/// A pop with nothing on the symbol stack does not fail: the symbol is
/// asked of the stack that the path starts from, below what is asked
/// already.
pub proof fn lemma_pop_below_empty(path: PathModel, edge: Edge, sink: Node)
    requires
        edge.source == path.end_node,
        path.symbol_stack_postcondition.len() == 0,
        sink is PopSymbol || sink is PopScopedSymbol,
    ensures
        path.append(edge, sink).is_ok(),
        path.append(edge, sink).unwrap().symbol_stack_precondition.len()
            == path.symbol_stack_precondition.len() + 1,
        path.append(edge, sink).unwrap().symbol_stack_precondition.drop_last()
            == path.symbol_stack_precondition,
        Some(path.append(edge, sink).unwrap().symbol_stack_precondition.last().symbol)
            == sink.symbol_spec(),
        sink is PopSymbol ==> path.append(
            edge,
            sink,
        ).unwrap().symbol_stack_precondition.last().scopes.is_none(),
        sink is PopScopedSymbol ==> path.append(
            edge,
            sink,
        ).unwrap().symbol_stack_precondition.last().scopes == Some(
            ScopeStackModel::from_variable(path.fresh_variable()),
        ) && path.append(edge, sink).unwrap().scope_stack_postcondition
            == ScopeStackModel::from_variable(path.fresh_variable()),
        path.append(edge, sink).unwrap().symbol_stack_postcondition.len() == 0,
{
    let next = path.append(edge, sink).unwrap();
    assert(next.symbol_stack_precondition.drop_last() =~= path.symbol_stack_precondition);
}

/// At the jump-to-scope node, a path whose scope stack is a variable alone
/// stays as it is.
pub proof fn lemma_jump_with_variable_alone(path: PathModel)
    requires
        path.scope_stack_postcondition.variable.is_some(),
        !path.scope_stack_postcondition.contains_scopes(),
    ensures
        path.resolve(Node::JumpTo) == Ok::<PathModel, PathResolutionError>(path),
{
}

/// At the jump-to-scope node, a path whose scope stack can only be empty
/// cannot go on.
pub proof fn lemma_jump_with_empty_scope_stack(path: PathModel)
    requires
        path.scope_stack_postcondition.can_only_match_empty(),
    ensures
        path.resolve(Node::JumpTo) == Err::<PathModel, PathResolutionError>(
            PathResolutionError::EmptyScopeStack,
        ),
{
}

/// Two lists of scopes are in the order `Equal` exactly when they are the
/// same.
pub proof fn lemma_scopes_order_equal(a: Seq<NodeHandle>, b: Seq<NodeHandle>)
    ensures
        (scopes_order(a, b) == Ordering::Equal) <==> a == b,
    decreases a.len(),
{
    if a.len() > 0 && b.len() > 0 {
        lemma_scopes_order_equal(a.drop_first(), b.drop_first());
        if a[0] == b[0] && a.drop_first() == b.drop_first() {
            assert(a =~= seq![a[0]] + a.drop_first());
            assert(b =~= seq![b[0]] + b.drop_first());
        }
    } else if a.len() == 0 && b.len() == 0 {
        assert(a =~= b);
    }
}

/// Two symbol stacks of a well-formed graph are in the order `Equal`
/// exactly when they are the same.
pub proof fn lemma_symbols_order_equal(
    graph: StackGraphView,
    a: Seq<ScopedSymbolModel>,
    b: Seq<ScopedSymbolModel>,
)
    requires
        graph.wf(),
        forall|i: int| 0 <= i < a.len() ==> graph.contains_symbol(#[trigger] a[i].symbol),
        forall|i: int| 0 <= i < b.len() ==> graph.contains_symbol(#[trigger] b[i].symbol),
    ensures
        (symbols_order(graph, a, b) == Ordering::Equal) <==> a == b,
    decreases a.len(),
{
    if a.len() > 0 && b.len() > 0 {
        assert forall|i: int| 0 <= i < a.drop_first().len() implies graph.contains_symbol(
            #[trigger] a.drop_first()[i].symbol,
        ) by {
            assert(graph.contains_symbol(a[i + 1].symbol));
        }
        assert forall|i: int| 0 <= i < b.drop_first().len() implies graph.contains_symbol(
            #[trigger] b.drop_first()[i].symbol,
        ) by {
            assert(graph.contains_symbol(b[i + 1].symbol));
        }
        lemma_symbols_order_equal(graph, a.drop_first(), b.drop_first());
        assert(graph.contains_symbol(a[0].symbol));
        assert(graph.contains_symbol(b[0].symbol));
        graph.lemma_symbol_order_equal(a[0].symbol, b[0].symbol);
        if a[0].scopes.is_some() && b[0].scopes.is_some() {
            lemma_scopes_order_equal(a[0].scopes.unwrap().scopes, b[0].scopes.unwrap().scopes);
        }
        if a[0] == b[0] && a.drop_first() == b.drop_first() {
            assert(a =~= seq![a[0]] + a.drop_first());
            assert(b =~= seq![b[0]] + b.drop_first());
        }
    } else if a.len() == 0 && b.len() == 0 {
        assert(a =~= b);
    }
}

/// Two paths of a well-formed graph are in the order `Equal` exactly when
/// they are equal: the cycle detector lets a path pass exactly when no path
/// that it remembers is equal to it.
pub proof fn lemma_path_order_equal(graph: StackGraphView, a: PathModel, b: PathModel)
    requires
        graph.wf(),
        a.fits(graph),
        b.fits(graph),
    ensures
        (a.order(graph, b) == Ordering::Equal) <==> a.equals(b),
{
    lemma_symbols_order_equal(graph, a.symbol_stack_precondition, b.symbol_stack_precondition);
    lemma_symbols_order_equal(graph, a.symbol_stack_postcondition, b.symbol_stack_postcondition);
    lemma_scopes_order_equal(a.scope_stack_precondition.scopes, b.scope_stack_precondition.scopes);
    lemma_scopes_order_equal(
        a.scope_stack_postcondition.scopes,
        b.scope_stack_postcondition.scopes,
    );
}

} // verus!
