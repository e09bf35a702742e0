//! Partial paths, and the stacks that they are made of.
//!
//! A partial path is a piece of a name-binding path that lies within one
//! file. It has a precondition and a postcondition for each of the two
//! stacks: what the stack must look like for the piece to continue a path,
//! and what the piece leaves behind. Pieces are computed once per file and
//! joined when a name is looked up.
//!
//! The stacks are handles into the arenas of a [`PartialPaths`]. What a
//! handle stands for there is its `model`; every function says what it does
//! to the models, and that it leaves the model of every other stack alone.

use vstd::prelude::*;
use std::cmp::Ordering;
use crate::arena::{ordered_after, Deque, DequeArena};
use crate::graph::{position, Edge, Node, NodeHandle, StackGraph, SymbolHandle};
use crate::model::{
    lemma_match_by_parts, lemma_max_variable_unique, lemma_same_by_parts, number_order, refine,
    scopes_order,
    symbols_fit, symbols_match, symbols_order, PathModel, ScopeStackModel, ScopedSymbolModel,
};
use crate::paths::PathResolutionError;

verus! {

/// Stands for the unknown rest of a scope stack. Variables are numbered from 1.
#[derive(Clone, Copy, Debug, PartialEq, Eq, Structural, Hash, PartialOrd, Ord)]
pub struct ScopeStackVariable {
    number: u32,
}

impl View for ScopeStackVariable {
    type V = nat;

    closed spec fn view(&self) -> nat {
        self.number as nat
    }
}

impl ScopeStackVariable {
    #[verifier::type_invariant]
    spec fn is_positive(self) -> bool {
        self.number > 0
    }

    /// The first variable of a path.
    pub fn initial() -> (variable: ScopeStackVariable)
        ensures
            variable@ == 1,
    {
        ScopeStackVariable { number: 1 }
    }

    /// The variable after `max_used`: fresher than every variable of a path
    /// whose highest variable number is `max_used`.
    pub fn fresher_than(max_used: u32) -> (variable: ScopeStackVariable)
        requires
            max_used < u32::MAX,
        ensures
            variable@ == max_used + 1,
    {
        ScopeStackVariable { number: max_used + 1 }
    }

    /// The variable with the given number; there is none with the number 0.
    pub fn new(number: u32) -> (variable: Option<ScopeStackVariable>)
        ensures
            variable.is_none() <==> number == 0,
            variable.is_some() ==> variable.unwrap()@ == number,
    {
        if number == 0 {
            None
        } else {
            Some(ScopeStackVariable { number })
        }
    }

    /// The variable's number.
    pub fn as_u32(self) -> (number: u32)
        ensures
            number == self@,
            number > 0,
    {
        proof {
            use_type_invariant(&self);
        }
        self.number
    }

    /// Two variables are the same exactly when their numbers are.
    pub proof fn lemma_same_number(self, other: ScopeStackVariable)
        ensures
            (self@ == other@) <==> self == other,
    {
    }
}

impl vstd::std_specs::convert::FromSpecImpl<ScopeStackVariable> for u32 {
    open spec fn obeys_from_spec() -> bool {
        true
    }

    open spec fn from_spec(variable: ScopeStackVariable) -> u32 {
        variable@ as u32
    }
}

impl From<ScopeStackVariable> for u32 {
    /// The variable's number.
    fn from(variable: ScopeStackVariable) -> (number: u32) {
        variable.as_u32()
    }
}

impl vstd::std_specs::convert::TryFromSpecImpl<u32> for ScopeStackVariable {
    open spec fn obeys_try_from_spec() -> bool {
        true
    }

    closed spec fn try_from_spec(value: u32) -> Result<ScopeStackVariable, ()> {
        if value == 0 {
            Err(())
        } else {
            Ok(ScopeStackVariable { number: value })
        }
    }
}

impl TryFrom<u32> for ScopeStackVariable {
    type Error = ();

    /// The variable with the given number; 0 is the number of no variable.
    fn try_from(value: u32) -> (variable: Result<ScopeStackVariable, ()>)
        ensures
            variable.is_err() <==> value == 0,
            variable.is_ok() ==> variable.unwrap()@ == value,
    {
        match ScopeStackVariable::new(value) {
            Some(variable) => Ok(variable),
            None => Err(()),
        }
    }
}

/// The order of two lists of scopes that are the same at the first `agreed`
/// places is decided by what follows.
proof fn lemma_scopes_order_from_prefix(
    a: Seq<NodeHandle>,
    b: Seq<NodeHandle>,
    order: Ordering,
    agreed: int,
)
    requires
        0 <= agreed <= a.len(),
        agreed <= b.len(),
        forall|i: int| 0 <= i < agreed ==> a[i] == b[i],
        if agreed == a.len() && agreed == b.len() {
            order == Ordering::Equal
        } else if agreed == a.len() {
            order == Ordering::Less
        } else if agreed == b.len() {
            order == Ordering::Greater
        } else {
            order != Ordering::Equal && order == number_order(
                position(a[agreed].index),
                position(b[agreed].index),
            )
        },
    ensures
        scopes_order(a, b) == order,
    decreases agreed,
{
    if agreed > 0 {
        assert(a[0] == b[0]);
        assert forall|i: int| 0 <= i < agreed - 1 implies a.drop_first()[i] == b.drop_first()[i] by {
            assert(a[i + 1] == b[i + 1]);
        }
        lemma_scopes_order_from_prefix(a.drop_first(), b.drop_first(), order, agreed - 1);
    }
}

/// The number of an optional variable.
pub open spec fn variable_number(variable: Option<ScopeStackVariable>) -> Option<nat> {
    match variable {
        Some(variable) => Some(variable@),
        None => None,
    }
}

/// The arenas that the stacks of partial paths live in.
///
/// Stacks are made and changed through a `PartialPaths`, and a stack means
/// something only together with the one it was made in.
pub struct PartialPaths {
    partial_symbol_stacks: DequeArena<PartialScopedSymbol>,
    partial_scope_stacks: DequeArena<NodeHandle>,
}

/// A pattern for a scope stack: some scopes on top, and perhaps a variable
/// for the rest.
#[derive(Clone, Copy, Debug)]
pub struct PartialScopeStack {
    scopes: Deque,
    variable: Option<ScopeStackVariable>,
}

/// A symbol, with the pattern for its attached scope list where it has one.
/// To have no scope list is not the same as to have an empty one.
#[derive(Clone, Copy, Debug)]
pub struct PartialScopedSymbol {
    pub symbol: SymbolHandle,
    pub scopes: Option<PartialScopeStack>,
}

/// A pattern for a symbol stack: the scoped symbols on top of it.
#[derive(Clone, Copy, Debug)]
pub struct PartialSymbolStack {
    deque: Deque,
}

/// A piece of a name-binding path.
#[derive(Clone, Copy, Debug)]
pub struct PartialPath {
    pub start_node: NodeHandle,
    pub end_node: NodeHandle,
    pub symbol_stack_precondition: PartialSymbolStack,
    pub symbol_stack_postcondition: PartialSymbolStack,
    pub scope_stack_precondition: PartialScopeStack,
    pub scope_stack_postcondition: PartialScopeStack,
    pub edge_count: usize,
}

impl PartialPaths {
    /// The invariant of the arenas.
    pub closed spec fn wf(self) -> bool {
        self.partial_symbol_stacks.wf() && self.partial_scope_stacks.wf()
    }

    /// `other` holds every cell of `self`.
    spec fn grows_to(self, other: PartialPaths) -> bool {
        &&& self.partial_symbol_stacks.grows_to(other.partial_symbol_stacks)
        &&& self.partial_scope_stacks.grows_to(other.partial_scope_stacks)
    }

    /// Every stack and path of `self` is one of `other`, and stands for the
    /// same there. This is what every function that works in a `PartialPaths`
    /// promises of it.
    pub open spec fn extended_by(self, other: PartialPaths) -> bool {
        &&& forall|stack: PartialScopeStack| #[trigger]
            stack.valid_in(self) ==> stack.valid_in(other) && stack.model(other) == stack.model(
                self,
            )
        &&& forall|symbol: PartialScopedSymbol| #[trigger]
            symbol.valid_in(self) ==> symbol.valid_in(other) && symbol.model(other)
                == symbol.model(self)
        &&& forall|stack: PartialSymbolStack| #[trigger]
            stack.valid_in(self) ==> stack.valid_in(other) && stack.model(other) == stack.model(
                self,
            )
        &&& forall|path: PartialPath| #[trigger]
            path.valid_in(self) ==> path.valid_in(other) && path.model(other) == path.model(self)
    }

    /// Growth keeps every stack and path.
    proof fn lemma_growth(self, other: PartialPaths)
        requires
            self.wf(),
            self.grows_to(other),
        ensures
            self.extended_by(other),
    {
        self.partial_symbol_stacks.lemma_grow_extends(other.partial_symbol_stacks);
        self.partial_scope_stacks.lemma_grow_extends(other.partial_scope_stacks);
        assert forall|stack: PartialScopeStack| #[trigger] stack.valid_in(self) implies stack.valid_in(
            other,
        ) && stack.model(other) == stack.model(self) by {
            assert(self.partial_scope_stacks.contains(stack.scopes));
        }
        assert forall|symbol: PartialScopedSymbol| #[trigger] symbol.valid_in(self) implies symbol.valid_in(
            other,
        ) && symbol.model(other) == symbol.model(self) by {
            if symbol.scopes.is_some() {
                assert(symbol.scopes.unwrap().valid_in(self));
            }
        }
        assert forall|stack: PartialSymbolStack| #[trigger] stack.valid_in(self) implies stack.valid_in(
            other,
        ) && stack.model(other) == stack.model(self) by {
            assert(self.partial_symbol_stacks.contains(stack.deque));
            let items = self.partial_symbol_stacks.items(stack.deque);
            assert forall|i: int| 0 <= i < items.len() implies (#[trigger] items[i]).valid_in(other)
                && items[i].model(other) == items[i].model(self) by {
                assert(items[i].valid_in(self));
            }
            assert(stack.model(other) =~= stack.model(self));
        }
        assert forall|path: PartialPath| #[trigger] path.valid_in(self) implies path.valid_in(other)
            && path.model(other) == path.model(self) by {
            assert(path.symbol_stack_precondition.valid_in(self));
            assert(path.symbol_stack_postcondition.valid_in(self));
            assert(path.scope_stack_precondition.valid_in(self));
            assert(path.scope_stack_postcondition.valid_in(self));
        }
    }

    /// Arenas that hold no stack yet: a stack that is valid in them holds
    /// neither a scope nor a symbol.
    pub fn new() -> (partials: PartialPaths)
        ensures
            partials.wf(),
            forall|stack: PartialScopeStack| #[trigger]
                stack.valid_in(partials) ==> !stack.model(partials).contains_scopes(),
            forall|stack: PartialSymbolStack| #[trigger]
                stack.valid_in(partials) ==> stack.model(partials).len() == 0,
    {
        let partials = PartialPaths {
            partial_symbol_stacks: DequeArena::new(),
            partial_scope_stacks: DequeArena::new(),
        };
        proof {
            assert forall|stack: PartialScopeStack| #[trigger]
                stack.valid_in(partials) implies !stack.model(partials).contains_scopes() by {
                partials.partial_scope_stacks.lemma_nothing_in_empty_arena(stack.scopes);
            }
            assert forall|stack: PartialSymbolStack| #[trigger]
                stack.valid_in(partials) implies stack.model(partials).len() == 0 by {
                partials.partial_symbol_stacks.lemma_nothing_in_empty_arena(stack.deque);
            }
        }
        partials
    }
}

impl PartialScopeStack {
    /// Whether the stack was made in `partials`.
    pub closed spec fn valid_in(self, partials: PartialPaths) -> bool {
        partials.partial_scope_stacks.contains(self.scopes)
    }

    /// What the stack stands for in `partials`.
    pub closed spec fn model(self, partials: PartialPaths) -> ScopeStackModel {
        ScopeStackModel {
            scopes: partials.partial_scope_stacks.items(self.scopes),
            variable: variable_number(self.variable),
        }
    }

    /// Whether only the empty scope stack matches: the pattern holds neither
    /// a scope nor a variable.
    pub fn can_only_match_empty(&self) -> (only_empty: bool)
        ensures
            forall|partials: PartialPaths|
                partials.wf() && self.valid_in(partials) ==> only_empty == (#[trigger] self.model(
                    partials,
                )).can_only_match_empty(),
    {
        proof {
            assert forall|partials: PartialPaths|
                partials.wf() && self.valid_in(partials) implies (self.scopes.is_empty_spec() <==> (
            #[trigger] self.model(partials)).scopes.len() == 0) by {
                partials.partial_scope_stacks.lemma_items_of_empty(self.scopes);
            }
        }
        self.scopes.is_empty() && self.variable.is_none()
    }

    /// Whether the pattern holds at least one scope.
    pub fn contains_scopes(&self) -> (some: bool)
        ensures
            forall|partials: PartialPaths|
                partials.wf() && self.valid_in(partials) ==> some == (#[trigger] self.model(
                    partials,
                )).contains_scopes(),
    {
        proof {
            assert forall|partials: PartialPaths|
                partials.wf() && self.valid_in(partials) implies (self.scopes.is_empty_spec() <==> (
            #[trigger] self.model(partials)).scopes.len() == 0) by {
                partials.partial_scope_stacks.lemma_items_of_empty(self.scopes);
            }
        }
        !self.scopes.is_empty()
    }

    /// The pattern that only the empty scope stack matches.
    pub fn empty() -> (stack: PartialScopeStack)
        ensures
            forall|partials: PartialPaths|
                #![trigger stack.valid_in(partials)]
                #![trigger stack.model(partials)]
                stack.valid_in(partials) && stack.model(partials) == ScopeStackModel::empty(),
    {
        let stack = PartialScopeStack { scopes: Deque::empty(), variable: None };
        proof {
            assert forall|partials: PartialPaths|
                #![trigger stack.valid_in(partials)]
                #![trigger stack.model(partials)]
                stack.valid_in(partials) && stack.model(partials)
                    == ScopeStackModel::empty() by {
                partials.partial_scope_stacks.lemma_items_of_empty(stack.scopes);
                assert(stack.model(partials).scopes =~= Seq::empty());
            }
        }
        stack
    }

    /// The pattern that every scope stack matches: a variable alone.
    pub fn from_variable(variable: ScopeStackVariable) -> (stack: PartialScopeStack)
        ensures
            forall|partials: PartialPaths|
                #![trigger stack.valid_in(partials)]
                #![trigger stack.model(partials)]
                stack.valid_in(partials) && stack.model(partials) == ScopeStackModel::from_variable(
                    variable@,
                ),
    {
        let stack = PartialScopeStack { scopes: Deque::empty(), variable: Some(variable) };
        proof {
            assert forall|partials: PartialPaths|
                #![trigger stack.valid_in(partials)]
                #![trigger stack.model(partials)]
                stack.valid_in(partials) && stack.model(partials)
                    == ScopeStackModel::from_variable(variable@) by {
                partials.partial_scope_stacks.lemma_items_of_empty(stack.scopes);
                assert(stack.model(partials).scopes =~= Seq::empty());
            }
        }
        stack
    }

    /// Puts a scope on top. The node should be an exported scope.
    pub fn push_front(&mut self, partials: &mut PartialPaths, node: NodeHandle)
        requires
            old(partials).wf(),
            old(self).valid_in(*old(partials)),
        ensures
            final(partials).wf(),
            old(partials).extended_by(*final(partials)),
            final(self).valid_in(*final(partials)),
            final(self).model(*final(partials)) == old(self).model(*old(partials)).push_front(node),
    {
        let mut scopes = self.scopes;
        scopes.push_front(&mut partials.partial_scope_stacks, node);
        self.scopes = scopes;
        proof {
            old(partials).partial_symbol_stacks.lemma_grow_reflexive();
            old(partials).lemma_growth(*partials);
        }
    }

    /// Puts a scope below the others. The node should be an exported scope.
    pub fn push_back(&mut self, partials: &mut PartialPaths, node: NodeHandle)
        requires
            old(partials).wf(),
            old(self).valid_in(*old(partials)),
        ensures
            final(partials).wf(),
            old(partials).extended_by(*final(partials)),
            final(self).valid_in(*final(partials)),
            final(self).model(*final(partials)) == old(self).model(*old(partials)).push_back(node),
    {
        let mut scopes = self.scopes;
        scopes.push_back(&mut partials.partial_scope_stacks, node);
        self.scopes = scopes;
        proof {
            old(partials).partial_symbol_stacks.lemma_grow_reflexive();
            old(partials).lemma_growth(*partials);
        }
    }

    /// Takes the top scope off. `None`, and the pattern stays as it is, where
    /// it holds no scope.
    pub fn pop_front(&mut self, partials: &mut PartialPaths) -> (node: Option<NodeHandle>)
        requires
            old(partials).wf(),
            old(self).valid_in(*old(partials)),
        ensures
            final(partials).wf(),
            old(partials).extended_by(*final(partials)),
            final(self).valid_in(*final(partials)),
            match node {
                Some(top) => old(self).model(*old(partials)).contains_scopes() && top == old(
                    self,
                ).model(*old(partials)).scopes.first() && final(self).model(*final(partials))
                    == old(self).model(*old(partials)).drop_front(),
                None => !old(self).model(*old(partials)).contains_scopes() && final(self).model(
                    *final(partials),
                ) == old(self).model(*old(partials)),
            },
    {
        let mut scopes = self.scopes;
        let node = scopes.pop_front(&mut partials.partial_scope_stacks);
        self.scopes = scopes;
        proof {
            old(partials).partial_symbol_stacks.lemma_grow_reflexive();
            old(partials).lemma_growth(*partials);
            if node.is_none() {
                assert(self.model(*partials).scopes =~= old(self).model(*old(partials)).scopes);
            }
        }
        node
    }

    /// Takes the bottom scope off. `None`, and the pattern stays as it is,
    /// where it holds no scope.
    pub fn pop_back(&mut self, partials: &mut PartialPaths) -> (node: Option<NodeHandle>)
        requires
            old(partials).wf(),
            old(self).valid_in(*old(partials)),
        ensures
            final(partials).wf(),
            old(partials).extended_by(*final(partials)),
            final(self).valid_in(*final(partials)),
            match node {
                Some(bottom) => old(self).model(*old(partials)).contains_scopes() && bottom == old(
                    self,
                ).model(*old(partials)).scopes.last() && final(self).model(*final(partials))
                    == old(self).model(*old(partials)).drop_back(),
                None => !old(self).model(*old(partials)).contains_scopes() && final(self).model(
                    *final(partials),
                ) == old(self).model(*old(partials)),
            },
    {
        let mut scopes = self.scopes;
        let node = scopes.pop_back(&mut partials.partial_scope_stacks);
        self.scopes = scopes;
        proof {
            old(partials).partial_symbol_stacks.lemma_grow_reflexive();
            old(partials).lemma_growth(*partials);
            if node.is_none() {
                assert(self.model(*partials).scopes =~= old(self).model(*old(partials)).scopes);
            }
        }
        node
    }

    /// Whether two patterns match the same scope stacks: they hold the same
    /// scopes and the same variable.
    pub fn matches(self, partials: &mut PartialPaths, other: PartialScopeStack) -> (matched: bool)
        requires
            old(partials).wf(),
            self.valid_in(*old(partials)),
            other.valid_in(*old(partials)),
        ensures
            final(partials).wf(),
            old(partials).extended_by(*final(partials)),
            matched == self.model(*old(partials)).matches(other.model(*old(partials))),
    {
        self.equals(partials, other)
    }

    /// Whether two patterns are the same.
    pub fn equals(self, partials: &mut PartialPaths, other: PartialScopeStack) -> (equal: bool)
        requires
            old(partials).wf(),
            self.valid_in(*old(partials)),
            other.valid_in(*old(partials)),
        ensures
            final(partials).wf(),
            old(partials).extended_by(*final(partials)),
            equal == (self.model(*old(partials)) == other.model(*old(partials))),
    {
        let same_node = |a: NodeHandle, b: NodeHandle| -> (same: bool)
            ensures
                same == (a == b),
            { a.index == b.index };
        let same_scopes = self.scopes.equals_with(
            &mut partials.partial_scope_stacks,
            other.scopes,
            same_node,
        );
        proof {
            old(partials).partial_symbol_stacks.lemma_grow_reflexive();
            old(partials).lemma_growth(*partials);
            let first = self.model(*old(partials)).scopes;
            let second = other.model(*old(partials)).scopes;
            if same_scopes {
                assert forall|i: int| 0 <= i < first.len() implies first[i] == second[i] by {
                    assert(same_node.ensures((first[i], second[i]), true));
                }
                assert(first =~= second);
            } else {
                assert(first != second);
            }
        }
        same_scopes && match (self.variable, other.variable) {
            (None, None) => true,
            (Some(a), Some(b)) => a.as_u32() == b.as_u32(),
            _ => false,
        }
    }

    /// The order of two patterns: by their scopes, where the first that
    /// differs decides and a proper prefix comes first, then by their
    /// variables, where none comes before any.
    pub fn cmp(self, partials: &mut PartialPaths, other: PartialScopeStack) -> (order: Ordering)
        requires
            old(partials).wf(),
            self.valid_in(*old(partials)),
            other.valid_in(*old(partials)),
        ensures
            final(partials).wf(),
            old(partials).extended_by(*final(partials)),
            order == self.model(*old(partials)).order(other.model(*old(partials))),
    {
        let node_order = |a: NodeHandle, b: NodeHandle| -> (order: Ordering)
            ensures
                order == number_order(position(a.index), position(b.index)),
            {
                if a.index < b.index {
                    Ordering::Less
                } else if a.index > b.index {
                    Ordering::Greater
                } else {
                    Ordering::Equal
                }
            };
        let by_scopes = self.scopes.cmp_with(
            &mut partials.partial_scope_stacks,
            other.scopes,
            node_order,
        );
        proof {
            old(partials).partial_symbol_stacks.lemma_grow_reflexive();
            old(partials).lemma_growth(*partials);
            let first = self.model(*old(partials)).scopes;
            let second = other.model(*old(partials)).scopes;
            let agreed = choose|agreed: int|
                ordered_after(first, second, node_order, by_scopes, agreed);
            assert forall|i: int| 0 <= i < agreed implies first[i] == second[i] by {
                assert(node_order.ensures((first[i], second[i]), Ordering::Equal));
            }
            lemma_scopes_order_from_prefix(first, second, by_scopes, agreed);
        }
        match by_scopes {
            Ordering::Less => Ordering::Less,
            Ordering::Greater => Ordering::Greater,
            Ordering::Equal => match (self.variable, other.variable) {
                (None, None) => Ordering::Equal,
                (None, Some(_)) => Ordering::Less,
                (Some(_), None) => Ordering::Greater,
                (Some(a), Some(b)) => {
                    if a.as_u32() < b.as_u32() {
                        Ordering::Less
                    } else if a.as_u32() > b.as_u32() {
                        Ordering::Greater
                    } else {
                        Ordering::Equal
                    }
                },
            },
        }
    }

    /// The variable at the end of the pattern, where it has one.
    pub fn variable(&self) -> (variable: Option<ScopeStackVariable>)
        ensures
            forall|partials: PartialPaths|
                (#[trigger] self.model(partials)).variable == variable_number(variable),
    {
        self.variable
    }

    /// The scopes, top first.
    pub fn iter_scopes(&self, partials: &mut PartialPaths) -> (scopes: Vec<NodeHandle>)
        requires
            old(partials).wf(),
            self.valid_in(*old(partials)),
        ensures
            final(partials).wf(),
            old(partials).extended_by(*final(partials)),
            scopes@ == self.model(*old(partials)).scopes,
    {
        let scopes = self.scopes.iter(&mut partials.partial_scope_stacks);
        proof {
            old(partials).partial_symbol_stacks.lemma_grow_reflexive();
            old(partials).lemma_growth(*partials);
        }
        scopes
    }

    /// The scopes, top first or bottom first, whichever can be had without
    /// relinking the stack.
    pub fn iter_unordered(&self, partials: &PartialPaths) -> (scopes: Vec<NodeHandle>)
        requires
            partials.wf(),
            self.valid_in(*partials),
        ensures
            scopes@ == self.model(*partials).scopes || scopes@ == self.model(
                *partials,
            ).scopes.reverse(),
    {
        self.scopes.iter_unordered(&partials.partial_scope_stacks)
    }
}

impl PartialScopedSymbol {
    /// Whether the scope list, if there is one, was made in `partials`.
    pub open spec fn valid_in(self, partials: PartialPaths) -> bool {
        match self.scopes {
            Some(scopes) => scopes.valid_in(partials),
            None => true,
        }
    }

    /// What the scoped symbol stands for in `partials`.
    pub open spec fn model(self, partials: PartialPaths) -> ScopedSymbolModel {
        ScopedSymbolModel {
            symbol: self.symbol,
            scopes: match self.scopes {
                Some(scopes) => Some(scopes.model(partials)),
                None => None,
            },
        }
    }
}

impl PartialScopedSymbol {
    /// Whether two scoped symbols match: the symbols are the same, both or
    /// neither has a scope list, and the scope lists match.
    pub fn matches(self, partials: &mut PartialPaths, postcondition: PartialScopedSymbol) -> (matched:
        bool)
        requires
            old(partials).wf(),
            self.valid_in(*old(partials)),
            postcondition.valid_in(*old(partials)),
        ensures
            final(partials).wf(),
            old(partials).extended_by(*final(partials)),
            matched == self.model(*old(partials)).matches(postcondition.model(*old(partials))),
    {
        if self.symbol.index != postcondition.symbol.index {
            return false;
        }
        match (self.scopes, postcondition.scopes) {
            (Some(precondition_scopes), Some(postcondition_scopes)) => precondition_scopes.matches(
                partials,
                postcondition_scopes,
            ),
            (None, None) => true,
            _ => false,
        }
    }

    /// Whether two scoped symbols are the same.
    pub fn equals(&self, partials: &mut PartialPaths, other: &PartialScopedSymbol) -> (equal: bool)
        requires
            old(partials).wf(),
            self.valid_in(*old(partials)),
            other.valid_in(*old(partials)),
        ensures
            final(partials).wf(),
            old(partials).extended_by(*final(partials)),
            equal == (self.model(*old(partials)) == other.model(*old(partials))),
    {
        if self.symbol.index != other.symbol.index {
            return false;
        }
        match (self.scopes, other.scopes) {
            (Some(mine), Some(theirs)) => mine.equals(partials, theirs),
            (None, None) => true,
            _ => false,
        }
    }

    /// The order of two scoped symbols: by the symbols' names, then by the
    /// scope lists, where a symbol without one comes first.
    pub fn cmp(&self, graph: &StackGraph, partials: &mut PartialPaths, other: &PartialScopedSymbol)
        -> (order: Ordering)
        requires
            old(partials).wf(),
            self.valid_in(*old(partials)),
            other.valid_in(*old(partials)),
            graph@.contains_symbol(self.symbol),
            graph@.contains_symbol(other.symbol),
        ensures
            final(partials).wf(),
            old(partials).extended_by(*final(partials)),
            order == self.model(*old(partials)).order(graph@, other.model(*old(partials))),
    {
        match graph.order_of_symbols(self.symbol, other.symbol) {
            Ordering::Less => Ordering::Less,
            Ordering::Greater => Ordering::Greater,
            Ordering::Equal => match (self.scopes, other.scopes) {
                (None, None) => Ordering::Equal,
                (None, Some(_)) => Ordering::Less,
                (Some(_), None) => Ordering::Greater,
                (Some(mine), Some(theirs)) => mine.cmp(partials, theirs),
            },
        }
    }
}

/// What each of `symbols` stands for in `partials`.
pub open spec fn models_of(symbols: Seq<PartialScopedSymbol>, partials: PartialPaths) -> Seq<
    ScopedSymbolModel,
> {
    Seq::new(symbols.len(), |i: int| symbols[i].model(partials))
}

/// Whether each of `symbols` was made in `partials`.
pub open spec fn all_valid_in(symbols: Seq<PartialScopedSymbol>, partials: PartialPaths) -> bool {
    forall|i: int| 0 <= i < symbols.len() ==> (#[trigger] symbols[i]).valid_in(partials)
}

impl PartialSymbolStack {
    /// Whether the stack, with the scope lists of its symbols, was made in
    /// `partials`.
    pub closed spec fn valid_in(self, partials: PartialPaths) -> bool {
        &&& partials.partial_symbol_stacks.contains(self.deque)
        &&& forall|i: int|
            0 <= i < partials.partial_symbol_stacks.items(self.deque).len() ==> (
            #[trigger] partials.partial_symbol_stacks.items(self.deque)[i]).valid_in(partials)
    }

    /// What the stack stands for in `partials`: its symbols, top first.
    pub closed spec fn model(self, partials: PartialPaths) -> Seq<ScopedSymbolModel> {
        Seq::new(
            partials.partial_symbol_stacks.items(self.deque).len(),
            |i: int| partials.partial_symbol_stacks.items(self.deque)[i].model(partials),
        )
    }

    /// Whether the stack holds no symbol.
    #[inline(always)]
    pub fn is_empty(&self) -> (empty: bool)
        ensures
            forall|partials: PartialPaths|
                partials.wf() && self.valid_in(partials) ==> empty == ((#[trigger] self.model(
                    partials,
                )).len() == 0),
    {
        proof {
            assert forall|partials: PartialPaths|
                partials.wf() && self.valid_in(partials) implies (self.deque.is_empty_spec() == ((
            #[trigger] self.model(partials)).len() == 0)) by {
                partials.partial_symbol_stacks.lemma_items_of_empty(self.deque);
            }
        }
        self.deque.is_empty()
    }

    /// The stack without symbols.
    pub fn empty() -> (stack: PartialSymbolStack)
        ensures
            forall|partials: PartialPaths|
                #![trigger stack.valid_in(partials)]
                #![trigger stack.model(partials)]
                stack.valid_in(partials) && stack.model(partials).len() == 0,
    {
        let stack = PartialSymbolStack { deque: Deque::empty() };
        proof {
            assert forall|partials: PartialPaths|
                #![trigger stack.valid_in(partials)]
                #![trigger stack.model(partials)]
                stack.valid_in(partials) && stack.model(partials).len() == 0 by {
                partials.partial_symbol_stacks.lemma_items_of_empty(stack.deque);
            }
        }
        stack
    }

    /// Puts a symbol on top.
    pub fn push_front(&mut self, partials: &mut PartialPaths, symbol: PartialScopedSymbol)
        requires
            old(partials).wf(),
            old(self).valid_in(*old(partials)),
            symbol.valid_in(*old(partials)),
        ensures
            final(partials).wf(),
            old(partials).extended_by(*final(partials)),
            final(self).valid_in(*final(partials)),
            final(self).model(*final(partials)) == seq![symbol.model(*old(partials))] + old(
                self,
            ).model(*old(partials)),
    {
        let mut deque = self.deque;
        deque.push_front(&mut partials.partial_symbol_stacks, symbol);
        self.deque = deque;
        proof {
            old(partials).partial_scope_stacks.lemma_grow_reflexive();
            old(partials).lemma_growth(*partials);
            let before = old(partials).partial_symbol_stacks.items(old(self).deque);
            let after = partials.partial_symbol_stacks.items(self.deque);
            assert(after == seq![symbol] + before);
            assert forall|i: int| 0 <= i < after.len() implies (#[trigger] after[i]).valid_in(
                *partials,
            ) && after[i].model(*partials) == (seq![symbol.model(*old(partials))] + old(
                self,
            ).model(*old(partials)))[i] by {
                if i > 0 {
                    assert(before[i - 1].valid_in(*old(partials)));
                }
            }
            assert(self.model(*partials) =~= seq![symbol.model(*old(partials))] + old(self).model(
                *old(partials),
            ));
        }
    }

    /// Puts a symbol below the others.
    pub fn push_back(&mut self, partials: &mut PartialPaths, symbol: PartialScopedSymbol)
        requires
            old(partials).wf(),
            old(self).valid_in(*old(partials)),
            symbol.valid_in(*old(partials)),
        ensures
            final(partials).wf(),
            old(partials).extended_by(*final(partials)),
            final(self).valid_in(*final(partials)),
            final(self).model(*final(partials)) == old(self).model(*old(partials)).push(
                symbol.model(*old(partials)),
            ),
    {
        let mut deque = self.deque;
        deque.push_back(&mut partials.partial_symbol_stacks, symbol);
        self.deque = deque;
        proof {
            old(partials).partial_scope_stacks.lemma_grow_reflexive();
            old(partials).lemma_growth(*partials);
            let before = old(partials).partial_symbol_stacks.items(old(self).deque);
            let after = partials.partial_symbol_stacks.items(self.deque);
            assert(after == before.push(symbol));
            assert forall|i: int| 0 <= i < after.len() implies (#[trigger] after[i]).valid_in(
                *partials,
            ) && after[i].model(*partials) == old(self).model(*old(partials)).push(
                symbol.model(*old(partials)),
            )[i] by {
                if i < before.len() {
                    assert(before[i].valid_in(*old(partials)));
                }
            }
            assert(self.model(*partials) =~= old(self).model(*old(partials)).push(
                symbol.model(*old(partials)),
            ));
        }
    }

    /// Takes the top symbol off. `None`, and the stack stays as it is, where
    /// it holds no symbol.
    pub fn pop_front(&mut self, partials: &mut PartialPaths) -> (symbol: Option<
        PartialScopedSymbol,
    >)
        requires
            old(partials).wf(),
            old(self).valid_in(*old(partials)),
        ensures
            final(partials).wf(),
            old(partials).extended_by(*final(partials)),
            final(self).valid_in(*final(partials)),
            match symbol {
                Some(top) => old(self).model(*old(partials)).len() > 0 && top.valid_in(
                    *final(partials),
                ) && top.model(*final(partials)) == old(self).model(*old(partials)).first()
                    && final(self).model(*final(partials)) == old(self).model(
                    *old(partials),
                ).drop_first(),
                None => old(self).model(*old(partials)).len() == 0 && final(self).model(
                    *final(partials),
                ) == old(self).model(*old(partials)),
            },
    {
        let mut deque = self.deque;
        let symbol = deque.pop_front(&mut partials.partial_symbol_stacks);
        self.deque = deque;
        proof {
            old(partials).partial_scope_stacks.lemma_grow_reflexive();
            old(partials).lemma_growth(*partials);
            let before = old(partials).partial_symbol_stacks.items(old(self).deque);
            let after = partials.partial_symbol_stacks.items(self.deque);
            if symbol.is_some() {
                assert(before[0].valid_in(*old(partials)));
                assert forall|i: int| 0 <= i < after.len() implies (#[trigger] after[i]).valid_in(
                    *partials,
                ) && after[i].model(*partials) == old(self).model(*old(partials)).drop_first()[i] by {
                    assert(before[i + 1].valid_in(*old(partials)));
                }
                assert(self.model(*partials) =~= old(self).model(*old(partials)).drop_first());
            } else {
                assert(self.model(*partials) =~= old(self).model(*old(partials)));
            }
        }
        symbol
    }

    /// Takes the bottom symbol off. `None`, and the stack stays as it is,
    /// where it holds no symbol.
    pub fn pop_back(&mut self, partials: &mut PartialPaths) -> (symbol: Option<PartialScopedSymbol>)
        requires
            old(partials).wf(),
            old(self).valid_in(*old(partials)),
        ensures
            final(partials).wf(),
            old(partials).extended_by(*final(partials)),
            final(self).valid_in(*final(partials)),
            match symbol {
                Some(bottom) => old(self).model(*old(partials)).len() > 0 && bottom.valid_in(
                    *final(partials),
                ) && bottom.model(*final(partials)) == old(self).model(*old(partials)).last()
                    && final(self).model(*final(partials)) == old(self).model(
                    *old(partials),
                ).drop_last(),
                None => old(self).model(*old(partials)).len() == 0 && final(self).model(
                    *final(partials),
                ) == old(self).model(*old(partials)),
            },
    {
        let mut deque = self.deque;
        let symbol = deque.pop_back(&mut partials.partial_symbol_stacks);
        self.deque = deque;
        proof {
            old(partials).partial_scope_stacks.lemma_grow_reflexive();
            old(partials).lemma_growth(*partials);
            let before = old(partials).partial_symbol_stacks.items(old(self).deque);
            let after = partials.partial_symbol_stacks.items(self.deque);
            if symbol.is_some() {
                assert(before[before.len() - 1].valid_in(*old(partials)));
                assert forall|i: int| 0 <= i < after.len() implies (#[trigger] after[i]).valid_in(
                    *partials,
                ) && after[i].model(*partials) == old(self).model(*old(partials)).drop_last()[i] by {
                    assert(before[i].valid_in(*old(partials)));
                }
                assert(self.model(*partials) =~= old(self).model(*old(partials)).drop_last());
            } else {
                assert(self.model(*partials) =~= old(self).model(*old(partials)));
            }
        }
        symbol
    }
}

impl PartialSymbolStack {
    /// Whether two symbol stacks match: they are equally long, and match
    /// symbol by symbol.
    pub fn matches(self, partials: &mut PartialPaths, other: PartialSymbolStack) -> (matched: bool)
        requires
            old(partials).wf(),
            self.valid_in(*old(partials)),
            other.valid_in(*old(partials)),
        ensures
            final(partials).wf(),
            old(partials).extended_by(*final(partials)),
            matched == symbols_match(self.model(*old(partials)), other.model(*old(partials))),
    {
        let mut mine = self;
        let mut theirs = other;
        let ghost first = self.model(*old(partials));
        let ghost second = other.model(*old(partials));
        loop
            invariant
                partials.wf(),
                old(partials).extended_by(*partials),
                mine.valid_in(*partials),
                theirs.valid_in(*partials),
                first == self.model(*old(partials)),
                second == other.model(*old(partials)),
                symbols_match(first, second) == symbols_match(
                    mine.model(*partials),
                    theirs.model(*partials),
                ),
            decreases mine.model(*partials).len(),
        {
            let ghost left = mine.model(*partials);
            let ghost right = theirs.model(*partials);
            match mine.pop_front(partials) {
                Some(self_element) => {
                    match theirs.pop_front(partials) {
                        Some(other_element) => {
                            proof {
                                lemma_match_by_parts(left, right);
                            }
                            if !self_element.matches(partials, other_element) {
                                return false;
                            }
                        },
                        None => {
                            proof {
                                assert(left.len() > 0 && right.len() == 0);
                            }
                            return false;
                        },
                    }
                },
                None => {
                    proof {
                        assert(left.len() == 0);
                    }
                    return theirs.is_empty();
                },
            }
        }
    }

    /// Whether two symbol stacks are the same.
    pub fn equals(self, partials: &mut PartialPaths, other: PartialSymbolStack) -> (equal: bool)
        requires
            old(partials).wf(),
            self.valid_in(*old(partials)),
            other.valid_in(*old(partials)),
        ensures
            final(partials).wf(),
            old(partials).extended_by(*final(partials)),
            equal == (self.model(*old(partials)) == other.model(*old(partials))),
    {
        let mut mine = self;
        let mut theirs = other;
        let ghost first = self.model(*old(partials));
        let ghost second = other.model(*old(partials));
        loop
            invariant
                partials.wf(),
                old(partials).extended_by(*partials),
                mine.valid_in(*partials),
                theirs.valid_in(*partials),
                first == self.model(*old(partials)),
                second == other.model(*old(partials)),
                (first == second) == (mine.model(*partials) == theirs.model(*partials)),
            decreases mine.model(*partials).len(),
        {
            let ghost left = mine.model(*partials);
            let ghost right = theirs.model(*partials);
            match mine.pop_front(partials) {
                Some(self_symbol) => {
                    match theirs.pop_front(partials) {
                        Some(other_symbol) => {
                            proof {
                                lemma_same_by_parts(left, right);
                            }
                            if !self_symbol.equals(partials, &other_symbol) {
                                return false;
                            }
                        },
                        None => {
                            proof {
                                assert(left.len() > 0 && right.len() == 0);
                                assert(left != right);
                            }
                            return false;
                        },
                    }
                },
                None => {
                    let rest_empty = theirs.is_empty();
                    proof {
                        assert(left.len() == 0);
                        if rest_empty {
                            assert(left =~= right);
                        } else {
                            assert(left != right);
                        }
                    }
                    return rest_empty;
                },
            }
        }
    }

    /// The order of two symbol stacks: the first pair of symbols that are
    /// not in the order `Equal` decides, and a proper prefix comes first.
    pub fn cmp(self, graph: &StackGraph, partials: &mut PartialPaths, other: PartialSymbolStack)
        -> (order: Ordering)
        requires
            old(partials).wf(),
            self.valid_in(*old(partials)),
            other.valid_in(*old(partials)),
            symbols_fit(self.model(*old(partials)), graph@),
            symbols_fit(other.model(*old(partials)), graph@),
        ensures
            final(partials).wf(),
            old(partials).extended_by(*final(partials)),
            order == symbols_order(graph@, self.model(*old(partials)), other.model(*old(partials))),
    {
        let mut mine = self;
        let mut theirs = other;
        let ghost first = self.model(*old(partials));
        let ghost second = other.model(*old(partials));
        loop
            invariant
                partials.wf(),
                old(partials).extended_by(*partials),
                mine.valid_in(*partials),
                theirs.valid_in(*partials),
                first == self.model(*old(partials)),
                second == other.model(*old(partials)),
                symbols_fit(mine.model(*partials), graph@),
                symbols_fit(theirs.model(*partials), graph@),
                symbols_order(graph@, first, second) == symbols_order(
                    graph@,
                    mine.model(*partials),
                    theirs.model(*partials),
                ),
            decreases mine.model(*partials).len(),
        {
            let ghost left = mine.model(*partials);
            let ghost right = theirs.model(*partials);
            match mine.pop_front(partials) {
                Some(self_symbol) => {
                    match theirs.pop_front(partials) {
                        Some(other_symbol) => {
                            proof {
                                assert(left[0].fits(graph@));
                                assert(right[0].fits(graph@));
                                assert(symbols_order(graph@, left, right) == refine(
                                    left[0].order(graph@, right[0]),
                                    symbols_order(graph@, left.drop_first(), right.drop_first()),
                                ));
                                assert forall|i: int|
                                    0 <= i < left.drop_first().len() implies (
                                #[trigger] left.drop_first()[i]).fits(graph@) by {
                                    assert(left[i + 1].fits(graph@));
                                }
                                assert forall|i: int|
                                    0 <= i < right.drop_first().len() implies (
                                #[trigger] right.drop_first()[i]).fits(graph@) by {
                                    assert(right[i + 1].fits(graph@));
                                }
                            }
                            match self_symbol.cmp(graph, partials, &other_symbol) {
                                Ordering::Equal => {},
                                Ordering::Less => {
                                    return Ordering::Less;
                                },
                                Ordering::Greater => {
                                    return Ordering::Greater;
                                },
                            }
                        },
                        None => {
                            proof {
                                assert(left.len() > 0 && right.len() == 0);
                                assert(symbols_order(graph@, left, right) == Ordering::Greater);
                            }
                            return Ordering::Greater;
                        },
                    }
                },
                None => {
                    let rest_empty = theirs.is_empty();
                    proof {
                        assert(left.len() == 0);
                        assert(rest_empty == (right.len() == 0));
                    }
                    if rest_empty {
                        return Ordering::Equal;
                    } else {
                        return Ordering::Less;
                    }
                },
            }
        }
    }

    /// The symbols, top first.
    pub fn iter(&self, partials: &mut PartialPaths) -> (symbols: Vec<PartialScopedSymbol>)
        requires
            old(partials).wf(),
            self.valid_in(*old(partials)),
        ensures
            final(partials).wf(),
            old(partials).extended_by(*final(partials)),
            all_valid_in(symbols@, *final(partials)),
            models_of(symbols@, *final(partials)) == self.model(*old(partials)),
    {
        let symbols = self.deque.iter(&mut partials.partial_symbol_stacks);
        proof {
            old(partials).partial_scope_stacks.lemma_grow_reflexive();
            old(partials).lemma_growth(*partials);
            let items = old(partials).partial_symbol_stacks.items(self.deque);
            assert forall|i: int| 0 <= i < symbols@.len() implies (#[trigger] symbols@[i]).valid_in(
                *partials,
            ) && symbols@[i].model(*partials) == self.model(*old(partials))[i] by {
                assert(items[i].valid_in(*old(partials)));
            }
            assert(models_of(symbols@, *partials) =~= self.model(*old(partials)));
        }
        symbols
    }

    /// The symbols, top first or bottom first, whichever can be had without
    /// relinking the stack.
    pub fn iter_unordered(&self, partials: &PartialPaths) -> (symbols: Vec<PartialScopedSymbol>)
        requires
            partials.wf(),
            self.valid_in(*partials),
        ensures
            all_valid_in(symbols@, *partials),
            models_of(symbols@, *partials) == self.model(*partials) || models_of(
                symbols@,
                *partials,
            ) == self.model(*partials).reverse(),
    {
        let symbols = self.deque.iter_unordered(&partials.partial_symbol_stacks);
        proof {
            let items = partials.partial_symbol_stacks.items(self.deque);
            if symbols@ == items {
                assert(models_of(symbols@, *partials) =~= self.model(*partials));
            } else {
                assert(symbols@ == items.reverse());
                assert forall|i: int| 0 <= i < symbols@.len() implies (
                #[trigger] symbols@[i]).valid_in(*partials) by {
                    assert(items[items.len() - 1 - i].valid_in(*partials));
                }
                assert(models_of(symbols@, *partials) =~= self.model(*partials).reverse());
            }
        }
        symbols
    }
}

impl PartialPath {
    /// Whether the four stacks of the path were made in `partials`.
    pub open spec fn valid_in(self, partials: PartialPaths) -> bool {
        &&& self.symbol_stack_precondition.valid_in(partials)
        &&& self.symbol_stack_postcondition.valid_in(partials)
        &&& self.scope_stack_precondition.valid_in(partials)
        &&& self.scope_stack_postcondition.valid_in(partials)
    }

    /// What the path stands for in `partials`.
    pub open spec fn model(self, partials: PartialPaths) -> PathModel {
        PathModel {
            start_node: self.start_node,
            end_node: self.end_node,
            symbol_stack_precondition: self.symbol_stack_precondition.model(partials),
            symbol_stack_postcondition: self.symbol_stack_postcondition.model(partials),
            scope_stack_precondition: self.scope_stack_precondition.model(partials),
            scope_stack_postcondition: self.scope_stack_postcondition.model(partials),
            edge_count: self.edge_count as nat,
        }
    }

    /// The path without edges at `node`.
    ///
    /// Where the node pushes a symbol, the path has pushed it. Elsewhere the
    /// path hands the scope stack on as it finds it.
    pub fn from_node(graph: &StackGraph, partials: &mut PartialPaths, node: NodeHandle) -> (path:
        PartialPath)
        requires
            old(partials).wf(),
            graph@.contains_node(node),
        ensures
            final(partials).wf(),
            old(partials).extended_by(*final(partials)),
            path.valid_in(*final(partials)),
            path.model(*final(partials)) == PathModel::from_node(node, graph@.node(node)),
    {
        let initial_scope_stack = ScopeStackVariable::initial();
        let symbol_stack_precondition = PartialSymbolStack::empty();
        let mut symbol_stack_postcondition = PartialSymbolStack::empty();
        let mut scope_stack_precondition = PartialScopeStack::from_variable(initial_scope_stack);
        let mut scope_stack_postcondition = PartialScopeStack::from_variable(initial_scope_stack);
        proof {
            assert(symbol_stack_precondition.valid_in(*partials));
            assert(symbol_stack_postcondition.valid_in(*partials));
            assert(symbol_stack_postcondition.model(*partials) =~= Seq::empty());
        }
        match graph.node(node) {
            Node::PushScopedSymbol { symbol, scope, .. } => {
                scope_stack_precondition = PartialScopeStack::empty();
                scope_stack_postcondition = PartialScopeStack::empty();
                proof {
                    assert(scope_stack_postcondition.valid_in(*partials));
                }
                scope_stack_postcondition.push_front(partials, scope);
                let initial_symbol = PartialScopedSymbol {
                    symbol,
                    scopes: Some(scope_stack_postcondition),
                };
                symbol_stack_postcondition.push_front(partials, initial_symbol);
            },
            Node::PushSymbol { symbol, .. } => {
                scope_stack_precondition = PartialScopeStack::empty();
                scope_stack_postcondition = PartialScopeStack::empty();
                let initial_symbol = PartialScopedSymbol { symbol, scopes: None };
                symbol_stack_postcondition.push_front(partials, initial_symbol);
            },
            _ => {},
        }
        let path = PartialPath {
            start_node: node,
            end_node: node,
            symbol_stack_precondition,
            symbol_stack_postcondition,
            scope_stack_precondition,
            scope_stack_postcondition,
            edge_count: 0,
        };
        proof {
            let expected = PathModel::from_node(node, graph@.node(node));
            let got = path.model(*partials);
            assert(symbol_stack_precondition.valid_in(*partials));
            assert(scope_stack_precondition.valid_in(*partials));
            assert(scope_stack_postcondition.valid_in(*partials));
            assert(got.symbol_stack_precondition =~= expected.symbol_stack_precondition);
            assert(got.symbol_stack_postcondition =~= expected.symbol_stack_postcondition);
            assert(got.scope_stack_precondition == expected.scope_stack_precondition);
            assert(got.scope_stack_postcondition.scopes =~= expected.scope_stack_postcondition.scopes);
        }
        path
    }

    /// Whether two paths are the same, but for the number of their edges.
    pub fn equals(&self, partials: &mut PartialPaths, other: &PartialPath) -> (equal: bool)
        requires
            old(partials).wf(),
            self.valid_in(*old(partials)),
            other.valid_in(*old(partials)),
        ensures
            final(partials).wf(),
            old(partials).extended_by(*final(partials)),
            equal == self.model(*old(partials)).equals(other.model(*old(partials))),
    {
        self.start_node.index == other.start_node.index && self.end_node.index
            == other.end_node.index && self.symbol_stack_precondition.equals(
            partials,
            other.symbol_stack_precondition,
        ) && self.symbol_stack_postcondition.equals(partials, other.symbol_stack_postcondition)
            && self.scope_stack_precondition.equals(partials, other.scope_stack_precondition)
            && self.scope_stack_postcondition.equals(partials, other.scope_stack_postcondition)
    }

    /// The order of two paths: by start node, end node, the two symbol
    /// stacks and the two scope stacks, in this order. The number of edges
    /// does not count.
    pub fn cmp(&self, graph: &StackGraph, partials: &mut PartialPaths, other: &PartialPath) -> (order:
        Ordering)
        requires
            old(partials).wf(),
            self.valid_in(*old(partials)),
            other.valid_in(*old(partials)),
            self.model(*old(partials)).fits(graph@),
            other.model(*old(partials)).fits(graph@),
        ensures
            final(partials).wf(),
            old(partials).extended_by(*final(partials)),
            order == self.model(*old(partials)).order(graph@, other.model(*old(partials))),
    {
        if self.start_node.index < other.start_node.index {
            return Ordering::Less;
        }
        if self.start_node.index > other.start_node.index {
            return Ordering::Greater;
        }
        if self.end_node.index < other.end_node.index {
            return Ordering::Less;
        }
        if self.end_node.index > other.end_node.index {
            return Ordering::Greater;
        }
        match self.symbol_stack_precondition.cmp(graph, partials, other.symbol_stack_precondition) {
            Ordering::Less => {
                return Ordering::Less;
            },
            Ordering::Greater => {
                return Ordering::Greater;
            },
            Ordering::Equal => {},
        }
        match self.symbol_stack_postcondition.cmp(graph, partials, other.symbol_stack_postcondition) {
            Ordering::Less => {
                return Ordering::Less;
            },
            Ordering::Greater => {
                return Ordering::Greater;
            },
            Ordering::Equal => {},
        }
        match self.scope_stack_precondition.cmp(partials, other.scope_stack_precondition) {
            Ordering::Less => {
                return Ordering::Less;
            },
            Ordering::Greater => {
                return Ordering::Greater;
            },
            Ordering::Equal => {},
        }
        self.scope_stack_postcondition.cmp(partials, other.scope_stack_postcondition)
    }

    /// Whether the path cannot grow within its file: it starts at the root,
    /// at an exported scope, or at a reference with nothing asked of the
    /// symbol stack, and it ends at the root, at the jump-to-scope node, or
    /// at a definition with nothing left on the symbol stack.
    pub fn is_complete_as_possible(&self, graph: &StackGraph) -> (complete: bool)
        requires
            graph@.contains_node(self.start_node),
            graph@.contains_node(self.end_node),
        ensures
            forall|partials: PartialPaths|
                partials.wf() && self.valid_in(partials) ==> complete == (#[trigger] self.model(
                    partials,
                )).is_complete_as_possible(
                    graph@.node(self.start_node),
                    graph@.node(self.end_node),
                ),
    {
        let precondition_empty = self.symbol_stack_precondition.is_empty();
        let postcondition_empty = self.symbol_stack_postcondition.is_empty();
        let start = graph.node(self.start_node);
        match start {
            Node::Root => {},
            Node::ExportedScope { .. } => {},
            Node::PushScopedSymbol { .. } | Node::PushSymbol { .. } => {
                if !start.is_reference() {
                    return false;
                } else if !precondition_empty {
                    return false;
                }
            },
            _ => {
                return false;
            },
        }
        let end = graph.node(self.end_node);
        match end {
            Node::Root => {},
            Node::JumpTo => {},
            Node::PopScopedSymbol { .. } | Node::PopSymbol { .. } => {
                if !end.is_definition() {
                    return false;
                } else if !postcondition_empty {
                    return false;
                }
            },
            _ => {
                return false;
            },
        }
        true
    }

    /// Whether the path changes anything: it moves to another node, or it
    /// leaves a stack other than it asks for it.
    pub fn is_productive(&self, partials: &mut PartialPaths) -> (productive: bool)
        requires
            old(partials).wf(),
            self.valid_in(*old(partials)),
        ensures
            final(partials).wf(),
            old(partials).extended_by(*final(partials)),
            productive == self.model(*old(partials)).is_productive(),
    {
        if self.start_node.index != self.end_node.index {
            return true;
        }
        if !self.symbol_stack_precondition.matches(partials, self.symbol_stack_postcondition) {
            return true;
        }
        if !self.scope_stack_precondition.matches(partials, self.scope_stack_postcondition) {
            return true;
        }
        false
    }

    /// The highest variable number in the two preconditions, and 0 where
    /// they hold no variable.
    fn max_precondition_variable(&self, partials: &PartialPaths) -> (max_used: u32)
        requires
            partials.wf(),
            self.valid_in(*partials),
        ensures
            max_used == self.model(*partials).max_precondition_variable(),
    {
        let symbols = self.symbol_stack_precondition.iter_unordered(partials);
        let ghost models = models_of(symbols@, *partials);
        let mut max_used: u32 = 0;
        let mut i: usize = 0;
        while i < symbols.len()
            invariant
                i <= symbols@.len(),
                models == models_of(symbols@, *partials),
                forall|k: int| 0 <= k < i ==> (#[trigger] models[k]).variable_number() <= max_used,
                max_used == 0 || exists|k: int|
                    0 <= k < i && (#[trigger] models[k]).variable_number() == max_used,
            decreases symbols@.len() - i,
        {
            proof {
                assert(models[i as int] == symbols@[i as int].model(*partials));
            }
            if let Some(scopes) = symbols[i].scopes {
                if let Some(variable) = scopes.variable() {
                    let number: u32 = variable.as_u32();
                    if number > max_used {
                        max_used = number;
                    }
                }
            }
            i += 1;
        }
        proof {
            let stack = self.model(*partials).symbol_stack_precondition;
            if models == stack {
                lemma_max_variable_unique(stack, max_used as nat);
            } else {
                assert(models == stack.reverse());
                assert forall|k: int| 0 <= k < stack.len() implies (
                #[trigger] stack[k]).variable_number() <= max_used by {
                    assert(models[stack.len() - 1 - k] == stack[k]);
                }
                if max_used != 0 {
                    let k = choose|k: int|
                        0 <= k < models.len() && (#[trigger] models[k]).variable_number()
                            == max_used;
                    assert(stack[stack.len() - 1 - k] == models[k]);
                }
                lemma_max_variable_unique(stack, max_used as nat);
            }
        }
        if let Some(variable) = self.scope_stack_precondition.variable() {
            let number: u32 = variable.as_u32();
            if number > max_used {
                max_used = number;
            }
        }
        max_used
    }

    /// A variable that is fresher than every variable of the path: its
    /// number is one more than the highest in the two preconditions. The
    /// postconditions hold no other variables, so they are not looked at.
    pub fn fresh_scope_stack_variable(&self, partials: &mut PartialPaths) -> (variable:
        ScopeStackVariable)
        requires
            old(partials).wf(),
            self.valid_in(*old(partials)),
            self.model(*old(partials)).max_precondition_variable() < u32::MAX,
        ensures
            *final(partials) == *old(partials),
            variable@ == self.model(*old(partials)).fresh_variable(),
    {
        let max_used_variable: u32 = self.max_precondition_variable(partials);
        ScopeStackVariable::fresher_than(max_used_variable)
    }
}

impl PartialPath {
    /// Lets the path run on along `edge`.
    ///
    /// The edge must start where the path ends. A push node puts its symbol
    /// on the symbol stack that the path leaves; a scoped push attaches the
    /// scope stack of the moment, with the node's scope on top. A pop node
    /// takes its symbol off that stack, and a scoped pop makes the attached
    /// scope list the scope stack; where the stack is empty, the symbol is
    /// asked of the stack that the path starts from instead, which is the
    /// precondition. On an error the symbol that did not fit has been taken
    /// off, and the path is of no further use.
    pub fn append(&mut self, graph: &StackGraph, partials: &mut PartialPaths, edge: Edge) -> (result:
        Result<(), PathResolutionError>)
        requires
            old(partials).wf(),
            old(self).valid_in(*old(partials)),
            graph@.contains_node(edge.sink),
            old(self).edge_count < usize::MAX,
            old(self).model(*old(partials)).max_precondition_variable() < u32::MAX,
        ensures
            final(partials).wf(),
            old(partials).extended_by(*final(partials)),
            final(self).valid_in(*final(partials)),
            match old(self).model(*old(partials)).append(edge, graph@.node(edge.sink)) {
                Ok(next) => result.is_ok() && final(self).model(*final(partials)) == next,
                Err(error) => result == Err::<(), PathResolutionError>(error) && final(self).model(
                    *final(partials),
                ) == old(self).model(*old(partials)).after_failed_append(edge),
            },
    {
        let ghost before = self.model(*partials);
        let ghost expected = before.append(edge, graph@.node(edge.sink));
        if edge.source.index != self.end_node.index {
            return Err(PathResolutionError::IncorrectSourceNode);
        }
        match graph.node(edge.sink) {
            Node::PushSymbol { symbol, .. } => {
                let postcondition_symbol = PartialScopedSymbol { symbol, scopes: None };
                let mut postcondition = self.symbol_stack_postcondition;
                postcondition.push_front(partials, postcondition_symbol);
                self.symbol_stack_postcondition = postcondition;
            },
            Node::PushScopedSymbol { symbol, scope, .. } => {
                let mut attached_scopes = self.scope_stack_postcondition;
                attached_scopes.push_front(partials, scope);
                let postcondition_symbol = PartialScopedSymbol {
                    symbol,
                    scopes: Some(attached_scopes),
                };
                let mut postcondition = self.symbol_stack_postcondition;
                postcondition.push_front(partials, postcondition_symbol);
                self.symbol_stack_postcondition = postcondition;
            },
            Node::PopSymbol { symbol, .. } => {
                let mut postcondition = self.symbol_stack_postcondition;
                let popped = postcondition.pop_front(partials);
                self.symbol_stack_postcondition = postcondition;
                match popped {
                    Some(top) => {
                        if top.symbol.index != symbol.index {
                            return Err(PathResolutionError::IncorrectPoppedSymbol);
                        }
                        if top.scopes.is_some() {
                            return Err(PathResolutionError::UnexpectedAttachedScopeList);
                        }
                    },
                    None => {
                        let precondition_symbol = PartialScopedSymbol { symbol, scopes: None };
                        let mut precondition = self.symbol_stack_precondition;
                        precondition.push_back(partials, precondition_symbol);
                        self.symbol_stack_precondition = precondition;
                    },
                }
            },
            Node::PopScopedSymbol { symbol, .. } => {
                let mut postcondition = self.symbol_stack_postcondition;
                let popped = postcondition.pop_front(partials);
                self.symbol_stack_postcondition = postcondition;
                match popped {
                    Some(top) => {
                        if top.symbol.index != symbol.index {
                            return Err(PathResolutionError::IncorrectPoppedSymbol);
                        }
                        match top.scopes {
                            Some(scopes) => {
                                self.scope_stack_postcondition = scopes;
                            },
                            None => {
                                return Err(PathResolutionError::MissingAttachedScopeList);
                            },
                        }
                    },
                    None => {
                        let scope_stack_variable = self.fresh_scope_stack_variable(partials);
                        let rest = PartialScopeStack::from_variable(scope_stack_variable);
                        proof {
                            assert(rest.valid_in(*partials));
                            assert(rest.model(*partials) == ScopeStackModel::from_variable(
                                before.fresh_variable(),
                            ));
                        }
                        let precondition_symbol = PartialScopedSymbol { symbol, scopes: Some(rest) };
                        let mut precondition = self.symbol_stack_precondition;
                        precondition.push_back(partials, precondition_symbol);
                        self.symbol_stack_precondition = precondition;
                        self.scope_stack_postcondition = rest;
                    },
                }
            },
            Node::DropScopes { .. } => {
                self.scope_stack_postcondition = PartialScopeStack::empty();
            },
            _ => {},
        }
        self.end_node = edge.sink;
        self.edge_count += 1;
        proof {
            let got = self.model(*partials);
            let next = expected.unwrap();
            assert(got.symbol_stack_precondition =~= next.symbol_stack_precondition);
            assert(got.symbol_stack_postcondition =~= next.symbol_stack_postcondition);
            assert(got.scope_stack_precondition == next.scope_stack_precondition);
            assert(got.scope_stack_postcondition == next.scope_stack_postcondition);
        }
        Ok(())
    }

    /// Takes the jump at the end of the path, where there is one to take.
    ///
    /// A path that ends at the jump-to-scope node goes on at the scope on
    /// top of its scope stack, which counts as one more edge. Where the
    /// scope stack is a variable alone the path stays as it is, and where it
    /// can only be empty there is nowhere to jump to.
    pub fn resolve(&mut self, graph: &StackGraph, partials: &mut PartialPaths) -> (result: Result<
        (),
        PathResolutionError,
    >)
        requires
            old(partials).wf(),
            old(self).valid_in(*old(partials)),
            graph@.contains_node(old(self).end_node),
            old(self).edge_count < usize::MAX,
        ensures
            final(partials).wf(),
            old(partials).extended_by(*final(partials)),
            final(self).valid_in(*final(partials)),
            match old(self).model(*old(partials)).resolve(graph@.node(old(self).end_node)) {
                Ok(next) => result.is_ok() && final(self).model(*final(partials)) == next,
                Err(error) => result == Err::<(), PathResolutionError>(error) && final(self).model(
                    *final(partials),
                ) == old(self).model(*old(partials)),
            },
    {
        if !graph.node(self.end_node).is_jump_to() {
            return Ok(());
        }
        if self.scope_stack_postcondition.can_only_match_empty() {
            return Err(PathResolutionError::EmptyScopeStack);
        }
        if !self.scope_stack_postcondition.contains_scopes() {
            return Ok(());
        }
        let mut postcondition = self.scope_stack_postcondition;
        let popped = postcondition.pop_front(partials);
        self.scope_stack_postcondition = postcondition;
        match popped {
            Some(top_scope) => {
                self.end_node = top_scope;
                self.edge_count += 1;
            },
            None => {},
        }
        Ok(())
    }
}

impl PartialScopeStack {
    /// Whether the stack was made in `partials`.
    pub fn is_valid_in(&self, partials: &PartialPaths) -> (valid: bool)
        ensures
            valid == self.valid_in(*partials),
    {
        partials.partial_scope_stacks.holds(&self.scopes)
    }

    /// Whether every scope of the stack is a node of `graph`.
    pub fn lies_in(&self, graph: &StackGraph, partials: &PartialPaths) -> (inside: bool)
        requires
            partials.wf(),
            self.valid_in(*partials),
        ensures
            inside == self.model(*partials).fits(graph@),
    {
        let scopes = self.iter_unordered(partials);
        let ghost model = self.model(*partials).scopes;
        let node_count: usize = graph.node_count();
        let mut i: usize = 0;
        while i < scopes.len()
            invariant
                i <= scopes@.len(),
                node_count == graph@.nodes.len(),
                model == self.model(*partials).scopes,
                scopes@ == model || scopes@ == model.reverse(),
                forall|k: int| 0 <= k < i ==> graph@.contains_node(#[trigger] scopes@[k]),
            decreases scopes@.len() - i,
        {
            if scopes[i].index >= node_count {
                proof {
                    if scopes@ == model {
                        assert(!graph@.contains_node(model[i as int]));
                    } else {
                        assert(scopes@[i as int] == model[model.len() - 1 - i]);
                        assert(!graph@.contains_node(model[model.len() - 1 - i]));
                    }
                }
                return false;
            }
            i += 1;
        }
        proof {
            assert forall|k: int| 0 <= k < model.len() implies graph@.contains_node(
                #[trigger] model[k],
            ) by {
                if scopes@ == model {
                    assert(graph@.contains_node(scopes@[k]));
                } else {
                    assert(model[k] == scopes@[model.len() - 1 - k]);
                    assert(graph@.contains_node(scopes@[model.len() - 1 - k]));
                }
            }
        }
        true
    }
}

impl PartialScopedSymbol {
    /// Whether the scope list, if there is one, was made in `partials`.
    pub fn is_valid_in(&self, partials: &PartialPaths) -> (valid: bool)
        ensures
            valid == self.valid_in(*partials),
    {
        match self.scopes {
            Some(scopes) => scopes.is_valid_in(partials),
            None => true,
        }
    }

    /// Whether the symbol and every attached scope are in `graph`.
    pub fn lies_in(&self, graph: &StackGraph, partials: &PartialPaths) -> (inside: bool)
        requires
            partials.wf(),
            self.valid_in(*partials),
        ensures
            inside == self.model(*partials).fits(graph@),
    {
        if !graph.holds_symbol(self.symbol) {
            return false;
        }
        match self.scopes {
            Some(scopes) => scopes.lies_in(graph, partials),
            None => true,
        }
    }
}

impl PartialSymbolStack {
    /// Whether the stack, with the scope lists of its symbols, was made in
    /// `partials`.
    pub fn is_valid_in(&self, partials: &PartialPaths) -> (valid: bool)
        requires
            partials.wf(),
        ensures
            valid == self.valid_in(*partials),
    {
        if !partials.partial_symbol_stacks.holds(&self.deque) {
            return false;
        }
        let symbols = self.deque.iter_unordered(&partials.partial_symbol_stacks);
        let ghost items = partials.partial_symbol_stacks.items(self.deque);
        let mut i: usize = 0;
        while i < symbols.len()
            invariant
                i <= symbols@.len(),
                partials.partial_symbol_stacks.contains(self.deque),
                items == partials.partial_symbol_stacks.items(self.deque),
                symbols@ == items || symbols@ == items.reverse(),
                forall|k: int| 0 <= k < i ==> (#[trigger] symbols@[k]).valid_in(*partials),
            decreases symbols@.len() - i,
        {
            if !symbols[i].is_valid_in(partials) {
                proof {
                    if symbols@ == items {
                        assert(!items[i as int].valid_in(*partials));
                    } else {
                        assert(symbols@[i as int] == items[items.len() - 1 - i]);
                        assert(!items[items.len() - 1 - i].valid_in(*partials));
                    }
                }
                return false;
            }
            i += 1;
        }
        proof {
            assert forall|k: int| 0 <= k < items.len() implies (#[trigger] items[k]).valid_in(
                *partials,
            ) by {
                if symbols@ == items {
                    assert(symbols@[k].valid_in(*partials));
                } else {
                    assert(items[k] == symbols@[items.len() - 1 - k]);
                    assert(symbols@[items.len() - 1 - k].valid_in(*partials));
                }
            }
        }
        true
    }

    /// Whether every symbol of the stack, and every scope attached to one,
    /// is in `graph`.
    pub fn lies_in(&self, graph: &StackGraph, partials: &PartialPaths) -> (inside: bool)
        requires
            partials.wf(),
            self.valid_in(*partials),
        ensures
            inside == symbols_fit(self.model(*partials), graph@),
    {
        let symbols = self.iter_unordered(partials);
        let ghost model = self.model(*partials);
        let ghost models = models_of(symbols@, *partials);
        let mut i: usize = 0;
        while i < symbols.len()
            invariant
                i <= symbols@.len(),
                partials.wf(),
                all_valid_in(symbols@, *partials),
                models == models_of(symbols@, *partials),
                model == self.model(*partials),
                models == model || models == model.reverse(),
                forall|k: int| 0 <= k < i ==> (#[trigger] models[k]).fits(graph@),
            decreases symbols@.len() - i,
        {
            proof {
                assert(symbols@[i as int].valid_in(*partials));
                assert(models[i as int] == symbols@[i as int].model(*partials));
            }
            if !symbols[i].lies_in(graph, partials) {
                proof {
                    if models == model {
                        assert(!model[i as int].fits(graph@));
                    } else {
                        assert(models[i as int] == model[model.len() - 1 - i]);
                        assert(!model[model.len() - 1 - i].fits(graph@));
                    }
                }
                return false;
            }
            i += 1;
        }
        proof {
            assert forall|k: int| 0 <= k < model.len() implies (#[trigger] model[k]).fits(
                graph@,
            ) by {
                assert(models.len() == symbols@.len());
                if models == model {
                    assert(models[k].fits(graph@));
                } else {
                    let mirrored = model.len() - 1 - k;
                    assert(model[k] == models[mirrored]);
                    assert(0 <= mirrored < i);
                    assert(models[mirrored].fits(graph@));
                }
            }
        }
        true
    }
}

impl PartialPath {
    /// Whether the four stacks of the path were made in `partials`.
    pub fn is_valid_in(&self, partials: &PartialPaths) -> (valid: bool)
        requires
            partials.wf(),
        ensures
            valid == self.valid_in(*partials),
    {
        self.symbol_stack_precondition.is_valid_in(partials)
            && self.symbol_stack_postcondition.is_valid_in(partials)
            && self.scope_stack_precondition.is_valid_in(partials)
            && self.scope_stack_postcondition.is_valid_in(partials)
    }

    /// Whether every node, symbol and scope of the path is in `graph`.
    pub fn lies_in(&self, graph: &StackGraph, partials: &PartialPaths) -> (inside: bool)
        requires
            partials.wf(),
            self.valid_in(*partials),
        ensures
            inside == self.model(*partials).fits(graph@),
    {
        graph.holds_node(self.start_node) && graph.holds_node(self.end_node)
            && self.symbol_stack_precondition.lies_in(graph, partials)
            && self.symbol_stack_postcondition.lies_in(graph, partials)
            && self.scope_stack_precondition.lies_in(graph, partials)
            && self.scope_stack_postcondition.lies_in(graph, partials)
    }
}

} // verus!
