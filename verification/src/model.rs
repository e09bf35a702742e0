//! The mathematical model of partial paths.
//!
//! A stack that lives in an arena is a handle; what it stands for is a
//! sequence. The contracts of this crate speak of these sequences, and the
//! rules of path extension are stated here, on plain values, once.

use vstd::prelude::*;
use std::cmp::Ordering;
use crate::graph::{position, Edge, Node, NodeHandle, StackGraphView, SymbolHandle};
use crate::paths::PathResolutionError;

verus! {

/// A pattern for a scope stack: the scopes on top, and the variable that
/// stands for the unknown rest, by its number.
pub struct ScopeStackModel {
    pub scopes: Seq<NodeHandle>,
    pub variable: Option<nat>,
}

/// A symbol, with the pattern for its attached scope list where it has one.
pub struct ScopedSymbolModel {
    pub symbol: SymbolHandle,
    pub scopes: Option<ScopeStackModel>,
}

/// A partial path: where it starts and ends, what it asks of the two stacks
/// and what it leaves on them, and how many edges it runs along.
pub struct PathModel {
    pub start_node: NodeHandle,
    pub end_node: NodeHandle,
    pub symbol_stack_precondition: Seq<ScopedSymbolModel>,
    pub symbol_stack_postcondition: Seq<ScopedSymbolModel>,
    pub scope_stack_precondition: ScopeStackModel,
    pub scope_stack_postcondition: ScopeStackModel,
    pub edge_count: nat,
}

/// A natural number as an integer.
#[verifier::inline]
pub open spec fn whole(n: nat) -> int {
    n as int
}

/// The first order where it decides, else the second.
pub open spec fn refine(first: Ordering, second: Ordering) -> Ordering {
    if first == Ordering::Equal {
        second
    } else {
        first
    }
}

/// The order of two numbers.
pub open spec fn number_order(a: int, b: int) -> Ordering {
    if a < b {
        Ordering::Less
    } else if a > b {
        Ordering::Greater
    } else {
        Ordering::Equal
    }
}

/// The order of two lists of scopes: the first position at which the nodes
/// differ decides, by the nodes' handles, and a proper prefix comes first.
pub open spec fn scopes_order(a: Seq<NodeHandle>, b: Seq<NodeHandle>) -> Ordering
    decreases a.len(),
{
    if a.len() == 0 {
        if b.len() == 0 {
            Ordering::Equal
        } else {
            Ordering::Less
        }
    } else if b.len() == 0 {
        Ordering::Greater
    } else {
        refine(
            number_order(position(a[0].index), position(b[0].index)),
            scopes_order(a.drop_first(), b.drop_first()),
        )
    }
}

/// The order of two optional variables: none comes before any.
pub open spec fn variable_order(a: Option<nat>, b: Option<nat>) -> Ordering {
    match (a, b) {
        (None, None) => Ordering::Equal,
        (None, Some(_)) => Ordering::Less,
        (Some(_), None) => Ordering::Greater,
        (Some(x), Some(y)) => number_order(whole(x), whole(y)),
    }
}

impl ScopeStackModel {
    /// The pattern that only the empty scope stack matches.
    pub open spec fn empty() -> ScopeStackModel {
        ScopeStackModel { scopes: Seq::empty(), variable: None }
    }

    /// The pattern that every scope stack matches: a variable alone.
    pub open spec fn from_variable(variable: nat) -> ScopeStackModel {
        ScopeStackModel { scopes: Seq::empty(), variable: Some(variable) }
    }

    /// Whether only the empty scope stack matches.
    pub open spec fn can_only_match_empty(self) -> bool {
        self.scopes.len() == 0 && self.variable.is_none()
    }

    /// Whether the pattern names at least one scope.
    pub open spec fn contains_scopes(self) -> bool {
        self.scopes.len() > 0
    }

    /// The pattern with `node` on top.
    pub open spec fn push_front(self, node: NodeHandle) -> ScopeStackModel {
        ScopeStackModel { scopes: seq![node] + self.scopes, variable: self.variable }
    }

    /// The pattern with `node` below the other scopes.
    pub open spec fn push_back(self, node: NodeHandle) -> ScopeStackModel {
        ScopeStackModel { scopes: self.scopes.push(node), variable: self.variable }
    }

    /// The pattern without its top scope.
    pub open spec fn drop_front(self) -> ScopeStackModel {
        ScopeStackModel { scopes: self.scopes.drop_first(), variable: self.variable }
    }

    /// The pattern without its bottom scope.
    pub open spec fn drop_back(self) -> ScopeStackModel {
        ScopeStackModel { scopes: self.scopes.drop_last(), variable: self.variable }
    }

    /// Two patterns match when they name the same scopes and the same
    /// variable: patterns are compared, not unified.
    pub open spec fn matches(self, other: ScopeStackModel) -> bool {
        self.scopes =~= other.scopes && self.variable == other.variable
    }

    /// The order of two patterns: by their scopes, then by their variables.
    pub open spec fn order(self, other: ScopeStackModel) -> Ordering {
        refine(
            scopes_order(self.scopes, other.scopes),
            variable_order(self.variable, other.variable),
        )
    }

    /// The number of the variable, and 0 where there is none.
    pub open spec fn variable_number(self) -> nat {
        match self.variable {
            Some(number) => number,
            None => 0,
        }
    }

    /// Whether every scope is a node of `graph`.
    pub open spec fn fits(self, graph: StackGraphView) -> bool {
        forall|i: int| 0 <= i < self.scopes.len() ==> graph.contains_node(#[trigger] self.scopes[i])
    }
}

/// The order of two optional scope lists: none comes before any.
pub open spec fn attached_order(a: Option<ScopeStackModel>, b: Option<ScopeStackModel>)
    -> Ordering {
    match (a, b) {
        (None, None) => Ordering::Equal,
        (None, Some(_)) => Ordering::Less,
        (Some(_), None) => Ordering::Greater,
        (Some(x), Some(y)) => x.order(y),
    }
}

impl ScopedSymbolModel {
    /// Two scoped symbols match when the symbols are the same, both or
    /// neither has a scope list, and the scope lists match.
    pub open spec fn matches(self, other: ScopedSymbolModel) -> bool {
        &&& self.symbol == other.symbol
        &&& self.scopes.is_some() == other.scopes.is_some()
        &&& (self.scopes.is_some() && other.scopes.is_some() ==> self.scopes.unwrap().matches(
            other.scopes.unwrap(),
        ))
    }

    /// The order of two scoped symbols: by the symbols' names, then by the
    /// scope lists, where a symbol without one comes first.
    pub open spec fn order(self, graph: StackGraphView, other: ScopedSymbolModel) -> Ordering {
        refine(
            graph.symbol_order(self.symbol, other.symbol),
            attached_order(self.scopes, other.scopes),
        )
    }

    /// The number of the variable in the scope list, and 0 where there is none.
    pub open spec fn variable_number(self) -> nat {
        match self.scopes {
            Some(scopes) => scopes.variable_number(),
            None => 0,
        }
    }

    /// Whether the symbol and every attached scope are in `graph`.
    pub open spec fn fits(self, graph: StackGraphView) -> bool {
        &&& graph.contains_symbol(self.symbol)
        &&& match self.scopes {
            Some(scopes) => scopes.fits(graph),
            None => true,
        }
    }
}

/// Two symbol stacks match when they are equally long and match item by item.
pub open spec fn symbols_match(a: Seq<ScopedSymbolModel>, b: Seq<ScopedSymbolModel>) -> bool {
    &&& a.len() == b.len()
    &&& forall|i: int| 0 <= i < a.len() ==> (#[trigger] a[i]).matches(b[i])
}

/// The order of two symbol stacks: the first pair of symbols that are not in
/// the order `Equal` decides, and a proper prefix comes first.
pub open spec fn symbols_order(
    graph: StackGraphView,
    a: Seq<ScopedSymbolModel>,
    b: Seq<ScopedSymbolModel>,
) -> Ordering
    decreases a.len(),
{
    if a.len() == 0 {
        if b.len() == 0 {
            Ordering::Equal
        } else {
            Ordering::Less
        }
    } else if b.len() == 0 {
        Ordering::Greater
    } else {
        refine(a[0].order(graph, b[0]), symbols_order(graph, a.drop_first(), b.drop_first()))
    }
}

/// Two sequences that are not empty are the same exactly when their first
/// items are, and what follows them.
pub proof fn lemma_same_by_parts<T>(a: Seq<T>, b: Seq<T>)
    requires
        a.len() > 0,
        b.len() > 0,
    ensures
        (a == b) <==> (a[0] == b[0] && a.drop_first() == b.drop_first()),
{
    if a[0] == b[0] && a.drop_first() == b.drop_first() {
        assert(a =~= seq![a[0]] + a.drop_first());
        assert(b =~= seq![b[0]] + b.drop_first());
    }
}

/// Two symbol stacks that are not empty match exactly when their top
/// symbols do, and what lies below them.
pub proof fn lemma_match_by_parts(a: Seq<ScopedSymbolModel>, b: Seq<ScopedSymbolModel>)
    requires
        a.len() > 0,
        b.len() > 0,
    ensures
        symbols_match(a, b) <==> (a[0].matches(b[0]) && symbols_match(
            a.drop_first(),
            b.drop_first(),
        )),
{
    if symbols_match(a, b) {
        assert(a[0].matches(b[0]));
        assert forall|i: int| 0 <= i < a.drop_first().len() implies (#[trigger] a.drop_first()[i]).matches(
            b.drop_first()[i],
        ) by {
            assert(a[i + 1].matches(b[i + 1]));
        }
    }
    if a[0].matches(b[0]) && symbols_match(a.drop_first(), b.drop_first()) {
        assert forall|i: int| 0 <= i < a.len() implies (#[trigger] a[i]).matches(b[i]) by {
            if i > 0 {
                assert(a.drop_first()[i - 1].matches(b.drop_first()[i - 1]));
            }
        }
    }
}

/// The highest variable number in the scope lists of `symbols`, and 0 where
/// none has a variable.
pub open spec fn symbols_max_variable(symbols: Seq<ScopedSymbolModel>) -> nat
    decreases symbols.len(),
{
    if symbols.len() == 0 {
        0
    } else {
        let rest = symbols_max_variable(symbols.drop_last());
        let last = symbols.last().variable_number();
        if last > rest {
            last
        } else {
            rest
        }
    }
}

/// Whether the scope list of some symbol in `symbols` ends in `variable`.
pub open spec fn symbols_mention(symbols: Seq<ScopedSymbolModel>, variable: nat) -> bool {
    exists|i: int|
        0 <= i < symbols.len() && (#[trigger] symbols[i]).scopes.is_some()
            && symbols[i].scopes.unwrap().variable == Some(variable)
}

/// Whether every symbol of `symbols` fits `graph`.
pub open spec fn symbols_fit(symbols: Seq<ScopedSymbolModel>, graph: StackGraphView) -> bool {
    forall|i: int| 0 <= i < symbols.len() ==> (#[trigger] symbols[i]).fits(graph)
}

impl PathModel {
    /// The path without edges at `node`, whose kind is `kind`.
    ///
    /// At a push node the path has pushed already: the symbol is on the
    /// symbol stack that the path leaves, and the path does not care about
    /// the scope stack. Elsewhere the path hands the scope stack on as it
    /// finds it, which the first variable says.
    pub open spec fn from_node(node: NodeHandle, kind: Node) -> PathModel {
        let plain = PathModel {
            start_node: node,
            end_node: node,
            symbol_stack_precondition: Seq::empty(),
            symbol_stack_postcondition: Seq::empty(),
            scope_stack_precondition: ScopeStackModel::empty(),
            scope_stack_postcondition: ScopeStackModel::empty(),
            edge_count: 0,
        };
        match kind {
            Node::PushScopedSymbol { symbol, scope, .. } => {
                let attached = ScopeStackModel::empty().push_front(scope);
                PathModel {
                    symbol_stack_postcondition: seq![
                        ScopedSymbolModel { symbol, scopes: Some(attached) },
                    ],
                    scope_stack_postcondition: attached,
                    ..plain
                }
            },
            Node::PushSymbol { symbol, .. } => PathModel {
                symbol_stack_postcondition: seq![ScopedSymbolModel { symbol, scopes: None }],
                ..plain
            },
            _ => PathModel {
                scope_stack_precondition: ScopeStackModel::from_variable(1),
                scope_stack_postcondition: ScopeStackModel::from_variable(1),
                ..plain
            },
        }
    }

    /// The highest variable number in the two preconditions, and 0 where
    /// they hold no variable.
    pub open spec fn max_precondition_variable(self) -> nat {
        let in_symbols = symbols_max_variable(self.symbol_stack_precondition);
        let in_scopes = self.scope_stack_precondition.variable_number();
        if in_symbols > in_scopes {
            in_symbols
        } else {
            in_scopes
        }
    }

    /// The number of a variable that no precondition holds.
    pub open spec fn fresh_variable(self) -> nat {
        self.max_precondition_variable() + 1
    }

    /// Whether a precondition holds `variable`.
    pub open spec fn precondition_mentions(self, variable: nat) -> bool {
        self.scope_stack_precondition.variable == Some(variable) || symbols_mention(
            self.symbol_stack_precondition,
            variable,
        )
    }

    /// Whether a postcondition holds `variable`.
    pub open spec fn postcondition_mentions(self, variable: nat) -> bool {
        self.scope_stack_postcondition.variable == Some(variable) || symbols_mention(
            self.symbol_stack_postcondition,
            variable,
        )
    }

    /// The path with the sink of `edge` behind it, where `sink` is the kind
    /// of that node; or why the edge does not extend the path.
    pub open spec fn append(self, edge: Edge, sink: Node) -> Result<
        PathModel,
        PathResolutionError,
    > {
        let moved = PathModel { end_node: edge.sink, edge_count: self.edge_count + 1, ..self };
        let post = self.symbol_stack_postcondition;
        if edge.source != self.end_node {
            Err(PathResolutionError::IncorrectSourceNode)
        } else {
            match sink {
                Node::PushSymbol { symbol, .. } => Ok(
                    PathModel {
                        symbol_stack_postcondition: seq![ScopedSymbolModel { symbol, scopes: None }]
                            + post,
                        ..moved
                    },
                ),
                Node::PushScopedSymbol { symbol, scope, .. } => {
                    let attached = self.scope_stack_postcondition.push_front(scope);
                    Ok(
                        PathModel {
                            symbol_stack_postcondition: seq![
                                ScopedSymbolModel { symbol, scopes: Some(attached) },
                            ] + post,
                            ..moved
                        },
                    )
                },
                Node::PopSymbol { symbol, .. } => {
                    if post.len() > 0 {
                        if post[0].symbol != symbol {
                            Err(PathResolutionError::IncorrectPoppedSymbol)
                        } else if post[0].scopes.is_some() {
                            Err(PathResolutionError::UnexpectedAttachedScopeList)
                        } else {
                            Ok(PathModel { symbol_stack_postcondition: post.drop_first(), ..moved })
                        }
                    } else {
                        Ok(
                            PathModel {
                                symbol_stack_precondition: self.symbol_stack_precondition.push(
                                    ScopedSymbolModel { symbol, scopes: None },
                                ),
                                ..moved
                            },
                        )
                    }
                },
                Node::PopScopedSymbol { symbol, .. } => {
                    if post.len() > 0 {
                        if post[0].symbol != symbol {
                            Err(PathResolutionError::IncorrectPoppedSymbol)
                        } else if post[0].scopes.is_none() {
                            Err(PathResolutionError::MissingAttachedScopeList)
                        } else {
                            Ok(
                                PathModel {
                                    symbol_stack_postcondition: post.drop_first(),
                                    scope_stack_postcondition: post[0].scopes.unwrap(),
                                    ..moved
                                },
                            )
                        }
                    } else {
                        let rest = ScopeStackModel::from_variable(self.fresh_variable());
                        Ok(
                            PathModel {
                                symbol_stack_precondition: self.symbol_stack_precondition.push(
                                    ScopedSymbolModel { symbol, scopes: Some(rest) },
                                ),
                                scope_stack_postcondition: rest,
                                ..moved
                            },
                        )
                    }
                },
                Node::DropScopes { .. } => Ok(
                    PathModel { scope_stack_postcondition: ScopeStackModel::empty(), ..moved },
                ),
                _ => Ok(moved),
            }
        }
    }

    /// What is left of the path where `append` gives an error: the symbol
    /// that did not fit has been taken off the symbol stack.
    pub open spec fn after_failed_append(self, edge: Edge) -> PathModel {
        if edge.source != self.end_node {
            self
        } else {
            PathModel {
                symbol_stack_postcondition: self.symbol_stack_postcondition.drop_first(),
                ..self
            }
        }
    }

    /// The path after a jump to scope at its end has been taken, where `end`
    /// is the kind of its end node; or why the jump cannot be taken.
    ///
    /// A path that does not end at the jump-to-scope node stays as it is. So
    /// does one whose scope stack is a variable alone: where it jumps to is
    /// known only when the path is joined to another.
    pub open spec fn resolve(self, end: Node) -> Result<PathModel, PathResolutionError> {
        if end != Node::JumpTo {
            Ok(self)
        } else if self.scope_stack_postcondition.can_only_match_empty() {
            Err(PathResolutionError::EmptyScopeStack)
        } else if !self.scope_stack_postcondition.contains_scopes() {
            Ok(self)
        } else {
            Ok(
                PathModel {
                    end_node: self.scope_stack_postcondition.scopes[0],
                    scope_stack_postcondition: self.scope_stack_postcondition.drop_front(),
                    edge_count: self.edge_count + 1,
                    ..self
                },
            )
        }
    }

    /// Whether the path cannot grow within its file, where `start` and `end`
    /// are the kinds of its two ends.
    pub open spec fn is_complete_as_possible(self, start: Node, end: Node) -> bool {
        let start_done = match start {
            Node::Root => true,
            Node::ExportedScope { .. } => true,
            Node::PushScopedSymbol { is_reference, .. } => is_reference
                && self.symbol_stack_precondition.len() == 0,
            Node::PushSymbol { is_reference, .. } => is_reference
                && self.symbol_stack_precondition.len() == 0,
            _ => false,
        };
        let end_done = match end {
            Node::Root => true,
            Node::JumpTo => true,
            Node::PopScopedSymbol { is_definition, .. } => is_definition
                && self.symbol_stack_postcondition.len() == 0,
            Node::PopSymbol { is_definition, .. } => is_definition
                && self.symbol_stack_postcondition.len() == 0,
            _ => false,
        };
        start_done && end_done
    }

    /// Whether the path changes anything: it moves to another node, or it
    /// leaves a stack other than it asks for it.
    pub open spec fn is_productive(self) -> bool {
        ||| self.start_node != self.end_node
        ||| !symbols_match(self.symbol_stack_precondition, self.symbol_stack_postcondition)
        ||| !self.scope_stack_precondition.matches(self.scope_stack_postcondition)
    }

    /// The order of two paths: by start node, end node, the two symbol
    /// stacks and the two scope stacks, in this order.
    pub open spec fn order(self, graph: StackGraphView, other: PathModel) -> Ordering {
        refine(
            number_order(position(self.start_node.index), position(other.start_node.index)),
            refine(
                number_order(position(self.end_node.index), position(other.end_node.index)),
                refine(
                    symbols_order(
                        graph,
                        self.symbol_stack_precondition,
                        other.symbol_stack_precondition,
                    ),
                    refine(
                        symbols_order(
                            graph,
                            self.symbol_stack_postcondition,
                            other.symbol_stack_postcondition,
                        ),
                        refine(
                            self.scope_stack_precondition.order(other.scope_stack_precondition),
                            self.scope_stack_postcondition.order(other.scope_stack_postcondition),
                        ),
                    ),
                ),
            ),
        )
    }

    /// Whether two paths are the same but for the number of their edges.
    pub open spec fn equals(self, other: PathModel) -> bool {
        &&& self.start_node == other.start_node
        &&& self.end_node == other.end_node
        &&& self.symbol_stack_precondition == other.symbol_stack_precondition
        &&& self.symbol_stack_postcondition == other.symbol_stack_postcondition
        &&& self.scope_stack_precondition == other.scope_stack_precondition
        &&& self.scope_stack_postcondition == other.scope_stack_postcondition
    }

    /// Whether every node, symbol and scope of the path is in `graph`.
    pub open spec fn fits(self, graph: StackGraphView) -> bool {
        &&& graph.contains_node(self.start_node)
        &&& graph.contains_node(self.end_node)
        &&& symbols_fit(self.symbol_stack_precondition, graph)
        &&& symbols_fit(self.symbol_stack_postcondition, graph)
        &&& self.scope_stack_precondition.fits(graph)
        &&& self.scope_stack_postcondition.fits(graph)
    }

    /// What holds of every path that is made by `from_node`, `append` and
    /// `resolve`:
    ///
    /// - a variable that a postcondition holds is held by a precondition;
    /// - a scope list that the symbol-stack precondition asks for is not the
    ///   pattern of the empty list;
    /// - a variable was minted for the start or for an edge, so no variable
    ///   number exceeds the number of edges by more than one.
    pub open spec fn inv(self) -> bool {
        &&& forall|variable: nat| #[trigger]
            self.postcondition_mentions(variable) ==> self.precondition_mentions(variable)
        &&& forall|i: int|
            0 <= i < self.symbol_stack_precondition.len() && (
            #[trigger] self.symbol_stack_precondition[i]).scopes.is_some()
                ==> !self.symbol_stack_precondition[i].scopes.unwrap().can_only_match_empty()
        &&& self.max_precondition_variable() <= self.edge_count + 1
    }
}

/// The highest variable number of a symbol stack is the number of one of its
/// symbols, or 0, and no symbol has a higher one.
pub proof fn lemma_max_variable_bounds(symbols: Seq<ScopedSymbolModel>)
    ensures
        forall|i: int|
            0 <= i < symbols.len() ==> (#[trigger] symbols[i]).variable_number()
                <= symbols_max_variable(symbols),
        symbols_max_variable(symbols) == 0 || exists|i: int|
            0 <= i < symbols.len() && (#[trigger] symbols[i]).variable_number()
                == symbols_max_variable(symbols),
    decreases symbols.len(),
{
    if symbols.len() > 0 {
        let rest = symbols.drop_last();
        lemma_max_variable_bounds(rest);
        assert forall|i: int| 0 <= i < symbols.len() implies (#[trigger] symbols[i]).variable_number()
            <= symbols_max_variable(symbols) by {
            if i < rest.len() {
                assert(rest[i].variable_number() <= symbols_max_variable(rest));
            }
        }
        if symbols_max_variable(symbols) != 0 {
            if symbols.last().variable_number() > symbols_max_variable(rest) {
                assert(symbols[symbols.len() - 1].variable_number() == symbols_max_variable(
                    symbols,
                ));
            } else {
                let i = choose|i: int|
                    0 <= i < rest.len() && (#[trigger] rest[i]).variable_number()
                        == symbols_max_variable(rest);
                assert(symbols[i].variable_number() == symbols_max_variable(symbols));
            }
        }
    }
}

/// A number that bounds the variable numbers of a symbol stack, and is one
/// of them or 0, is the highest variable number of the stack.
pub proof fn lemma_max_variable_unique(symbols: Seq<ScopedSymbolModel>, bound: nat)
    requires
        forall|i: int| 0 <= i < symbols.len() ==> (#[trigger] symbols[i]).variable_number() <= bound,
        bound == 0 || exists|i: int|
            0 <= i < symbols.len() && (#[trigger] symbols[i]).variable_number() == bound,
    ensures
        bound == symbols_max_variable(symbols),
{
    lemma_max_variable_bounds(symbols);
    if bound != 0 {
        let i = choose|i: int|
            0 <= i < symbols.len() && (#[trigger] symbols[i]).variable_number() == bound;
        assert(symbols[i].variable_number() <= symbols_max_variable(symbols));
    }
    if symbols_max_variable(symbols) != 0 {
        let j = choose|j: int|
            0 <= j < symbols.len() && (#[trigger] symbols[j]).variable_number()
                == symbols_max_variable(symbols);
        assert(symbols[j].variable_number() <= bound);
    }
}

impl ScopedSymbolModel {
    /// Whether the scope list of the symbol ends in `variable`.
    pub open spec fn mentions(self, variable: nat) -> bool {
        self.scopes.is_some() && self.scopes.unwrap().variable == Some(variable)
    }
}

/// A stack with one more symbol on top mentions what the symbol or the stack
/// below it mentions.
pub proof fn lemma_mention_on_top(
    symbols: Seq<ScopedSymbolModel>,
    top: ScopedSymbolModel,
    variable: nat,
)
    ensures
        symbols_mention(seq![top] + symbols, variable) <==> (top.mentions(variable)
            || symbols_mention(symbols, variable)),
{
    let longer = seq![top] + symbols;
    if symbols_mention(longer, variable) {
        let i = choose|i: int|
            0 <= i < longer.len() && (#[trigger] longer[i]).scopes.is_some()
                && longer[i].scopes.unwrap().variable == Some(variable);
        if i > 0 {
            assert(symbols[i - 1] == longer[i]);
        }
    }
    if top.mentions(variable) {
        assert(longer[0] == top);
    }
    if symbols_mention(symbols, variable) {
        let i = choose|i: int|
            0 <= i < symbols.len() && (#[trigger] symbols[i]).scopes.is_some()
                && symbols[i].scopes.unwrap().variable == Some(variable);
        assert(longer[i + 1] == symbols[i]);
    }
}

/// A stack with one more symbol at the bottom mentions what the symbol or
/// the stack above it mentions.
pub proof fn lemma_mention_at_bottom(
    symbols: Seq<ScopedSymbolModel>,
    bottom: ScopedSymbolModel,
    variable: nat,
)
    ensures
        symbols_mention(symbols.push(bottom), variable) <==> (bottom.mentions(variable)
            || symbols_mention(symbols, variable)),
{
    let longer = symbols.push(bottom);
    if symbols_mention(longer, variable) {
        let i = choose|i: int|
            0 <= i < longer.len() && (#[trigger] longer[i]).scopes.is_some()
                && longer[i].scopes.unwrap().variable == Some(variable);
        if i < symbols.len() {
            assert(symbols[i] == longer[i]);
        }
    }
    if bottom.mentions(variable) {
        assert(longer[symbols.len() as int] == bottom);
    }
    if symbols_mention(symbols, variable) {
        let i = choose|i: int|
            0 <= i < symbols.len() && (#[trigger] symbols[i]).scopes.is_some()
                && symbols[i].scopes.unwrap().variable == Some(variable);
        assert(longer[i] == symbols[i]);
    }
}

/// A path at a node of a well-formed graph is sound, and everything in it is
/// in the graph.
pub proof fn lemma_from_node_is_sound(graph: StackGraphView, node: NodeHandle)
    requires
        graph.wf(),
        graph.contains_node(node),
    ensures
        PathModel::from_node(node, graph.node(node)).inv(),
        PathModel::from_node(node, graph.node(node)).fits(graph),
{
    let kind = graph.node(node);
    let path = PathModel::from_node(node, kind);
    if node.index >= 2 {
        assert(graph.admits(graph.nodes[position(node.index)]));
    }
    reveal_with_fuel(symbols_max_variable, 2);
    assert(path.symbol_stack_precondition.len() == 0);
    assert forall|variable: nat| #[trigger]
        path.postcondition_mentions(variable) implies path.precondition_mentions(variable) by {
        if symbols_mention(path.symbol_stack_postcondition, variable) {
            let i = choose|i: int|
                0 <= i < path.symbol_stack_postcondition.len() && (
                #[trigger] path.symbol_stack_postcondition[i]).scopes.is_some()
                    && path.symbol_stack_postcondition[i].scopes.unwrap().variable == Some(
                    variable,
                );
        }
    }
}

/// An edge keeps a sound path sound: what `append` gives on success is
/// sound again, lies in the graph, and has one edge more.
pub proof fn lemma_append_keeps_sound(graph: StackGraphView, path: PathModel, edge: Edge)
    requires
        graph.wf(),
        graph.contains_node(edge.sink),
        path.inv(),
        path.fits(graph),
        path.append(edge, graph.node(edge.sink)).is_ok(),
    ensures
        path.append(edge, graph.node(edge.sink)).unwrap().inv(),
        path.append(edge, graph.node(edge.sink)).unwrap().fits(graph),
        path.append(edge, graph.node(edge.sink)).unwrap().edge_count == path.edge_count + 1,
        path.append(edge, graph.node(edge.sink)).unwrap().end_node == edge.sink,
        path.append(edge, graph.node(edge.sink)).unwrap().start_node == path.start_node,
{
    let sink = graph.node(edge.sink);
    let next = path.append(edge, sink).unwrap();
    let pre = path.symbol_stack_precondition;
    let post = path.symbol_stack_postcondition;
    if edge.sink.index >= 2 {
        assert(graph.admits(graph.nodes[position(edge.sink.index)]));
    }
    // What the new path asks for still bounds what it leaves.
    assert forall|variable: nat| #[trigger]
        next.postcondition_mentions(variable) implies next.precondition_mentions(variable) by {
        match sink {
            Node::PushSymbol { symbol, .. } => {
                lemma_mention_on_top(post, ScopedSymbolModel { symbol, scopes: None }, variable);
                assert(path.postcondition_mentions(variable));
            },
            Node::PushScopedSymbol { symbol, scope, .. } => {
                let attached = path.scope_stack_postcondition.push_front(scope);
                lemma_mention_on_top(
                    post,
                    ScopedSymbolModel { symbol, scopes: Some(attached) },
                    variable,
                );
                assert(path.postcondition_mentions(variable));
            },
            Node::PopSymbol { symbol, .. } => {
                if post.len() > 0 {
                    assert(post =~= seq![post[0]] + post.drop_first());
                    lemma_mention_on_top(post.drop_first(), post[0], variable);
                    assert(path.postcondition_mentions(variable));
                } else {
                    lemma_mention_at_bottom(
                        pre,
                        ScopedSymbolModel { symbol, scopes: None },
                        variable,
                    );
                    assert(path.postcondition_mentions(variable));
                }
            },
            Node::PopScopedSymbol { symbol, .. } => {
                if post.len() > 0 {
                    assert(post =~= seq![post[0]] + post.drop_first());
                    lemma_mention_on_top(post.drop_first(), post[0], variable);
                    assert(path.postcondition_mentions(variable));
                } else {
                    let rest = ScopeStackModel::from_variable(path.fresh_variable());
                    lemma_mention_at_bottom(
                        pre,
                        ScopedSymbolModel { symbol, scopes: Some(rest) },
                        variable,
                    );
                    if symbols_mention(post, variable) {
                        let i = choose|i: int|
                            0 <= i < post.len() && (#[trigger] post[i]).scopes.is_some()
                                && post[i].scopes.unwrap().variable == Some(variable);
                    }
                }
            },
            Node::DropScopes { .. } => {
                assert(path.postcondition_mentions(variable));
            },
            _ => {
                assert(path.postcondition_mentions(variable));
            },
        }
    }
    // No scope list that is asked for is the pattern of the empty list.
    assert forall|i: int|
        0 <= i < next.symbol_stack_precondition.len() && (
        #[trigger] next.symbol_stack_precondition[i]).scopes.is_some()
            implies !next.symbol_stack_precondition[i].scopes.unwrap().can_only_match_empty() by {
        if i < pre.len() {
            assert(next.symbol_stack_precondition[i] == pre[i]);
        }
    }
    // The variables are numbered no faster than the edges.
    if next.symbol_stack_precondition != pre {
        assert(next.symbol_stack_precondition.drop_last() =~= pre);
    }
    // Everything new comes from a node of the graph.
    assert forall|i: int| 0 <= i < next.symbol_stack_precondition.len() implies (
    #[trigger] next.symbol_stack_precondition[i]).fits(graph) by {
        if i < pre.len() {
            assert(pre[i].fits(graph));
        }
    }
    assert forall|i: int| 0 <= i < next.symbol_stack_postcondition.len() implies (
    #[trigger] next.symbol_stack_postcondition[i]).fits(graph) by {
        match sink {
            Node::PushSymbol { .. } => {
                if i > 0 {
                    assert(post[i - 1].fits(graph));
                }
            },
            Node::PushScopedSymbol { scope, .. } => {
                if i > 0 {
                    assert(post[i - 1].fits(graph));
                } else {
                    let attached = path.scope_stack_postcondition.push_front(scope);
                    assert forall|k: int| 0 <= k < attached.scopes.len() implies graph.contains_node(
                        #[trigger] attached.scopes[k],
                    ) by {
                        if k > 0 {
                            assert(attached.scopes[k] == path.scope_stack_postcondition.scopes[k
                                - 1]);
                        }
                    }
                }
            },
            Node::PopSymbol { .. } => {
                if post.len() > 0 {
                    assert(post[i + 1].fits(graph));
                } else {
                    assert(post[i].fits(graph));
                }
            },
            Node::PopScopedSymbol { .. } => {
                if post.len() > 0 {
                    assert(post[i + 1].fits(graph));
                } else {
                    assert(post[i].fits(graph));
                }
            },
            _ => {
                assert(post[i].fits(graph));
            },
        }
    }
    match sink {
        Node::PopScopedSymbol { .. } => {
            if post.len() > 0 {
                assert(post[0].fits(graph));
            }
        },
        _ => {},
    }
}

/// A jump keeps a sound path sound: what `resolve` gives on success is sound
/// again and lies in the graph, and the jump counts as at most one edge.
pub proof fn lemma_resolve_keeps_sound(graph: StackGraphView, path: PathModel)
    requires
        graph.wf(),
        path.inv(),
        path.fits(graph),
        path.resolve(graph.node(path.end_node)).is_ok(),
    ensures
        path.resolve(graph.node(path.end_node)).unwrap().inv(),
        path.resolve(graph.node(path.end_node)).unwrap().fits(graph),
        path.resolve(graph.node(path.end_node)).unwrap().edge_count <= path.edge_count + 1,
        path.resolve(graph.node(path.end_node)).unwrap().start_node == path.start_node,
{
    let next = path.resolve(graph.node(path.end_node)).unwrap();
    if next != path {
        let scopes = path.scope_stack_postcondition.scopes;
        assert(graph.contains_node(scopes[0]));
        assert forall|k: int| 0 <= k < scopes.drop_first().len() implies graph.contains_node(
            #[trigger] scopes.drop_first()[k],
        ) by {
            assert(graph.contains_node(scopes[k + 1]));
        }
        assert forall|variable: nat| #[trigger]
            next.postcondition_mentions(variable) implies next.precondition_mentions(variable) by {
            assert(path.postcondition_mentions(variable));
        }
    }
}

} // verus!
