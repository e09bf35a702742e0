//! Partial paths as text, for people to read.
//!
//! A path prints as `<symbols> (scopes) start -> end <symbols> (scopes)`,
//! the precondition before the nodes and the postcondition behind them. A
//! symbol with a scope list prints as `symbol/scopes`, the scopes of a scope
//! stack are set apart by commas, and variable 1 prints as `$1`.

use vstd::prelude::*;
use vstd::string::*;
use crate::graph::{position, Node, NodeHandle, StackGraph, StackGraphView};
use crate::model::{symbols_fit, PathModel, ScopeStackModel, ScopedSymbolModel};
use crate::partial::{
    all_valid_in, models_of, PartialPath, PartialPaths, PartialScopeStack, PartialScopedSymbol,
    PartialSymbolStack, ScopeStackVariable,
};

verus! {

/// The character for a digit.
pub open spec fn digit_char(digit: nat) -> char {
    if digit == 0 {
        '0'
    } else if digit == 1 {
        '1'
    } else if digit == 2 {
        '2'
    } else if digit == 3 {
        '3'
    } else if digit == 4 {
        '4'
    } else if digit == 5 {
        '5'
    } else if digit == 6 {
        '6'
    } else if digit == 7 {
        '7'
    } else if digit == 8 {
        '8'
    } else {
        '9'
    }
}

/// A number in decimal, without leading zeros.
pub open spec fn decimal(number: nat) -> Seq<char>
    decreases number,
{
    if number < 10 {
        seq![digit_char(number)]
    } else {
        decimal(number / 10).push(digit_char(number % 10))
    }
}

/// A node as text: `[root]`, `[jump to scope]`, or the name of the node's
/// file and the node's number, as in `[lib.py(7)]`.
pub open spec fn node_text(graph: StackGraphView, node: NodeHandle) -> Seq<char> {
    match graph.node(node).file_spec() {
        Some(file) => "["@ + graph.files[position(file.index)] + "("@ + decimal(node.index as nat)
            + ")]"@,
        None => if graph.node(node) == Node::Root {
            "[root]"@
        } else {
            "[jump to scope]"@
        },
    }
}

/// Scopes as text, set apart by commas.
pub open spec fn scopes_text(graph: StackGraphView, scopes: Seq<NodeHandle>) -> Seq<char>
    decreases scopes.len(),
{
    if scopes.len() == 0 {
        Seq::empty()
    } else if scopes.len() == 1 {
        node_text(graph, scopes[0])
    } else {
        scopes_text(graph, scopes.drop_last()) + ","@ + node_text(graph, scopes.last())
    }
}

/// A pattern for a scope stack as text: the scopes, then the variable.
pub open spec fn scope_stack_text(graph: StackGraphView, stack: ScopeStackModel) -> Seq<char> {
    scopes_text(graph, stack.scopes) + match stack.variable {
        Some(variable) => if stack.scopes.len() == 0 {
            "$"@ + decimal(variable)
        } else {
            ",$"@ + decimal(variable)
        },
        None => Seq::empty(),
    }
}

/// A scoped symbol as text: the symbol's name, then a slash and the scope
/// list where there is one.
pub open spec fn scoped_symbol_text(graph: StackGraphView, symbol: ScopedSymbolModel) -> Seq<char> {
    graph.symbols[position(symbol.symbol.index)] + match symbol.scopes {
        Some(scopes) => "/"@ + scope_stack_text(graph, scopes),
        None => Seq::empty(),
    }
}

/// A symbol stack as text: its symbols, top first, with nothing between them.
pub open spec fn symbol_stack_text(graph: StackGraphView, symbols: Seq<ScopedSymbolModel>) -> Seq<
    char,
>
    decreases symbols.len(),
{
    if symbols.len() == 0 {
        Seq::empty()
    } else {
        symbol_stack_text(graph, symbols.drop_last()) + scoped_symbol_text(graph, symbols.last())
    }
}

/// A path as text.
pub open spec fn path_text(graph: StackGraphView, path: PathModel) -> Seq<char> {
    "<"@ + symbol_stack_text(graph, path.symbol_stack_precondition) + "> ("@ + scope_stack_text(
        graph,
        path.scope_stack_precondition,
    ) + ") "@ + node_text(graph, path.start_node) + " -> "@ + node_text(graph, path.end_node)
        + " <"@ + symbol_stack_text(graph, path.symbol_stack_postcondition) + "> ("@
        + scope_stack_text(graph, path.scope_stack_postcondition) + ")"@
}

/// The text of a digit.
fn digit_text(digit: usize) -> (text: &'static str)
    requires
        digit < 10,
    ensures
        text@ == seq![digit_char(digit as nat)],
{
    proof {
        reveal_strlit("0");
        reveal_strlit("1");
        reveal_strlit("2");
        reveal_strlit("3");
        reveal_strlit("4");
        reveal_strlit("5");
        reveal_strlit("6");
        reveal_strlit("7");
        reveal_strlit("8");
        reveal_strlit("9");
    }
    let text = if digit == 0 {
        "0"
    } else if digit == 1 {
        "1"
    } else if digit == 2 {
        "2"
    } else if digit == 3 {
        "3"
    } else if digit == 4 {
        "4"
    } else if digit == 5 {
        "5"
    } else if digit == 6 {
        "6"
    } else if digit == 7 {
        "7"
    } else if digit == 8 {
        "8"
    } else {
        "9"
    };
    proof {
        assert(text@ =~= seq![digit_char(digit as nat)]);
    }
    text
}

/// Puts `number` in decimal behind `text`.
fn append_decimal(text: &mut String, number: usize)
    ensures
        final(text)@ == old(text)@ + decimal(number as nat),
    decreases number,
{
    if number >= 10 {
        append_decimal(text, number / 10);
    }
    text.append(digit_text(number % 10));
    proof {
        if number >= 10 {
            assert(text@ =~= old(text)@ + decimal((number / 10) as nat).push(
                digit_char((number % 10) as nat),
            ));
        }
    }
}

/// Puts a node behind `text`.
fn append_node(text: &mut String, graph: &StackGraph, node: NodeHandle)
    requires
        graph@.wf(),
        graph@.contains_node(node),
    ensures
        final(text)@ == old(text)@ + node_text(graph@, node),
{
    let kind = graph.node(node);
    proof {
        if node.index >= 2 {
            assert(graph@.admits(graph@.nodes[position(node.index)]));
        }
    }
    match kind.file() {
        Some(file) => {
            text.append("[");
            text.append(graph.file_name(file));
            text.append("(");
            append_decimal(text, node.index);
            text.append(")]");
            proof {
                assert(text@ =~= old(text)@ + node_text(graph@, node));
            }
        },
        None => {
            if kind.is_root() {
                text.append("[root]");
            } else {
                text.append("[jump to scope]");
            }
        },
    }
}

/// Puts a pattern for a scope stack behind `text`.
fn append_scope_stack(
    text: &mut String,
    graph: &StackGraph,
    partials: &mut PartialPaths,
    stack: PartialScopeStack,
)
    requires
        graph@.wf(),
        old(partials).wf(),
        stack.valid_in(*old(partials)),
        stack.model(*old(partials)).fits(graph@),
    ensures
        final(partials).wf(),
        old(partials).extended_by(*final(partials)),
        final(text)@ == old(text)@ + scope_stack_text(graph@, stack.model(*old(partials))),
{
    let ghost model = stack.model(*partials);
    let scopes = stack.iter_scopes(partials);
    let mut i: usize = 0;
    proof {
        assert(scopes@.take(0) =~= Seq::empty());
        assert(text@ =~= old(text)@ + scopes_text(graph@, scopes@.take(0)));
    }
    while i < scopes.len()
        invariant
            i <= scopes@.len(),
            graph@.wf(),
            scopes@ == model.scopes,
            model.fits(graph@),
            text@ == old(text)@ + scopes_text(graph@, scopes@.take(i as int)),
        decreases scopes@.len() - i,
    {
        proof {
            assert(scopes@.take(i + 1).drop_last() =~= scopes@.take(i as int));
            assert(scopes@.take(i + 1).last() == scopes@[i as int]);
            assert(graph@.contains_node(model.scopes[i as int]));
        }
        let ghost so_far = text@;
        if i > 0 {
            text.append(",");
        }
        append_node(text, graph, scopes[i]);
        proof {
            let node = node_text(graph@, scopes@[i as int]);
            if i > 0 {
                assert(text@ =~= old(text)@ + (scopes_text(graph@, scopes@.take(i as int)) + ","@
                    + node));
            } else {
                assert(scopes_text(graph@, scopes@.take(0)) =~= Seq::empty());
                assert(text@ =~= old(text)@ + node);
            }
        }
        i += 1;
    }
    proof {
        assert(scopes@.take(scopes@.len() as int) =~= scopes@);
    }
    let ghost listed = text@;
    match stack.variable() {
        Some(variable) => {
            if scopes.len() == 0 {
                text.append("$");
            } else {
                text.append(",$");
            }
            append_decimal(text, variable.as_u32() as usize);
            proof {
                assert(model.variable == Some(variable@));
                assert(text@ =~= old(text)@ + scope_stack_text(graph@, model));
            }
        },
        None => {
            proof {
                assert(model.variable.is_none());
                assert(text@ =~= old(text)@ + scope_stack_text(graph@, model));
            }
        },
    }
}

/// Puts a scoped symbol behind `text`.
fn append_scoped_symbol(
    text: &mut String,
    graph: &StackGraph,
    partials: &mut PartialPaths,
    symbol: PartialScopedSymbol,
)
    requires
        graph@.wf(),
        old(partials).wf(),
        symbol.valid_in(*old(partials)),
        symbol.model(*old(partials)).fits(graph@),
    ensures
        final(partials).wf(),
        old(partials).extended_by(*final(partials)),
        final(text)@ == old(text)@ + scoped_symbol_text(graph@, symbol.model(*old(partials))),
{
    text.append(graph.symbol_name(symbol.symbol));
    match symbol.scopes {
        Some(scopes) => {
            text.append("/");
            append_scope_stack(text, graph, partials, scopes);
            proof {
                assert(text@ =~= old(text)@ + scoped_symbol_text(
                    graph@,
                    symbol.model(*old(partials)),
                ));
            }
        },
        None => {
            proof {
                assert(text@ =~= old(text)@ + scoped_symbol_text(
                    graph@,
                    symbol.model(*old(partials)),
                ));
            }
        },
    }
}

/// Puts a symbol stack behind `text`.
fn append_symbol_stack(
    text: &mut String,
    graph: &StackGraph,
    partials: &mut PartialPaths,
    stack: PartialSymbolStack,
)
    requires
        graph@.wf(),
        old(partials).wf(),
        stack.valid_in(*old(partials)),
        symbols_fit(stack.model(*old(partials)), graph@),
    ensures
        final(partials).wf(),
        old(partials).extended_by(*final(partials)),
        final(text)@ == old(text)@ + symbol_stack_text(graph@, stack.model(*old(partials))),
{
    let ghost model = stack.model(*partials);
    let symbols = stack.iter(partials);
    let mut i: usize = 0;
    proof {
        assert(model.take(0) =~= Seq::empty());
        assert(text@ =~= old(text)@ + symbol_stack_text(graph@, model.take(0)));
    }
    while i < symbols.len()
        invariant
            i <= symbols@.len(),
            graph@.wf(),
            partials.wf(),
            old(partials).extended_by(*partials),
            all_valid_in(symbols@, *partials),
            models_of(symbols@, *partials) == model,
            symbols_fit(model, graph@),
            text@ == old(text)@ + symbol_stack_text(graph@, model.take(i as int)),
        decreases symbols@.len() - i,
    {
        let ghost before = *partials;
        proof {
            assert(model.take(i + 1).drop_last() =~= model.take(i as int));
            assert(model.take(i + 1).last() == model[i as int]);
            assert(symbols@[i as int].valid_in(before));
            assert(model[i as int] == symbols@[i as int].model(before));
            assert(model[i as int].fits(graph@));
        }
        append_scoped_symbol(text, graph, partials, symbols[i]);
        proof {
            assert forall|k: int| 0 <= k < symbols@.len() implies (#[trigger] symbols@[k]).valid_in(
                *partials,
            ) && symbols@[k].model(*partials) == model[k] by {
                assert(symbols@[k].valid_in(before));
                assert(models_of(symbols@, before)[k] == symbols@[k].model(before));
            }
            assert(models_of(symbols@, *partials) =~= model);
            assert(text@ =~= old(text)@ + (symbol_stack_text(graph@, model.take(i as int))
                + scoped_symbol_text(graph@, model[i as int])));
        }
        i += 1;
    }
    proof {
        assert(model.take(model.len() as int) =~= model);
    }
}

impl ScopeStackVariable {
    /// The variable as text: a dollar sign and its number, as in `$1`.
    pub fn display(self) -> (text: String)
        ensures
            text@ == "$"@ + decimal(self@),
    {
        let mut text = String::new();
        text.append("$");
        append_decimal(&mut text, self.as_u32() as usize);
        proof {
            assert(text@ =~= "$"@ + decimal(self@));
        }
        text
    }
}

impl PartialScopeStack {
    /// The pattern as text, as in `[lib.py(7)],$1`.
    pub fn display(self, graph: &StackGraph, partials: &mut PartialPaths) -> (text: String)
        requires
            graph@.wf(),
            old(partials).wf(),
            self.valid_in(*old(partials)),
            self.model(*old(partials)).fits(graph@),
        ensures
            final(partials).wf(),
            old(partials).extended_by(*final(partials)),
            text@ == scope_stack_text(graph@, self.model(*old(partials))),
    {
        let mut text = String::new();
        append_scope_stack(&mut text, graph, partials, self);
        proof {
            assert(text@ =~= scope_stack_text(graph@, self.model(*old(partials))));
        }
        text
    }
}

impl PartialScopedSymbol {
    /// The scoped symbol as text, as in `name/[lib.py(7)]`.
    pub fn display(self, graph: &StackGraph, partials: &mut PartialPaths) -> (text: String)
        requires
            graph@.wf(),
            old(partials).wf(),
            self.valid_in(*old(partials)),
            self.model(*old(partials)).fits(graph@),
        ensures
            final(partials).wf(),
            old(partials).extended_by(*final(partials)),
            text@ == scoped_symbol_text(graph@, self.model(*old(partials))),
    {
        let mut text = String::new();
        append_scoped_symbol(&mut text, graph, partials, self);
        proof {
            assert(text@ =~= scoped_symbol_text(graph@, self.model(*old(partials))));
        }
        text
    }
}

impl PartialSymbolStack {
    /// The symbols as text, top first.
    pub fn display(self, graph: &StackGraph, partials: &mut PartialPaths) -> (text: String)
        requires
            graph@.wf(),
            old(partials).wf(),
            self.valid_in(*old(partials)),
            symbols_fit(self.model(*old(partials)), graph@),
        ensures
            final(partials).wf(),
            old(partials).extended_by(*final(partials)),
            text@ == symbol_stack_text(graph@, self.model(*old(partials))),
    {
        let mut text = String::new();
        append_symbol_stack(&mut text, graph, partials, self);
        proof {
            assert(text@ =~= symbol_stack_text(graph@, self.model(*old(partials))));
        }
        text
    }
}

impl PartialPath {
    /// The path as text: what it asks of the two stacks, its two ends, and
    /// what it leaves on the stacks.
    pub fn display(&self, graph: &StackGraph, partials: &mut PartialPaths) -> (text: String)
        requires
            graph@.wf(),
            old(partials).wf(),
            self.valid_in(*old(partials)),
            self.model(*old(partials)).fits(graph@),
        ensures
            final(partials).wf(),
            old(partials).extended_by(*final(partials)),
            text@ == path_text(graph@, self.model(*old(partials))),
    {
        let ghost model = self.model(*partials);
        let mut text = String::new();
        text.append("<");
        append_symbol_stack(&mut text, graph, partials, self.symbol_stack_precondition);
        text.append("> (");
        append_scope_stack(&mut text, graph, partials, self.scope_stack_precondition);
        text.append(") ");
        append_node(&mut text, graph, self.start_node);
        text.append(" -> ");
        append_node(&mut text, graph, self.end_node);
        text.append(" <");
        append_symbol_stack(&mut text, graph, partials, self.symbol_stack_postcondition);
        text.append("> (");
        append_scope_stack(&mut text, graph, partials, self.scope_stack_postcondition);
        text.append(")");
        proof {
            assert(text@ =~= path_text(graph@, model));
        }
        text
    }
}

} // verus!
