//! The stack graph that partial paths run through: interned symbols, files,
//! nodes and edges. The graph is built once and then only read.

use vstd::prelude::*;
use vstd::string::*;
use vstd::utf8::*;
use std::cmp::Ordering;

verus! {

/// An interned symbol of a [`StackGraph`].
#[derive(Clone, Copy, PartialEq, Eq, Structural, Debug, Hash)]
pub struct SymbolHandle {
    pub index: usize,
}

/// A file of a [`StackGraph`].
#[derive(Clone, Copy, PartialEq, Eq, Structural, Debug, Hash)]
pub struct FileHandle {
    pub index: usize,
}

/// A node of a [`StackGraph`].
#[derive(Clone, Copy, PartialEq, Eq, Structural, Debug, Hash)]
pub struct NodeHandle {
    pub index: usize,
}

/// What a node does to the two stacks of a path that reaches it.
#[derive(Clone, Copy, PartialEq, Eq, Structural, Debug)]
pub enum Node {
    /// The one root node, through which paths pass from file to file.
    Root,
    /// The one jump-to-scope node: the path goes on from the scope on top of
    /// the scope stack.
    JumpTo,
    /// A scope that other files can reach through the scope stack.
    ExportedScope { file: FileHandle },
    /// A scope that is only reached along edges.
    InternalScope { file: FileHandle },
    /// Empties the scope stack.
    DropScopes { file: FileHandle },
    /// Pushes a symbol onto the symbol stack.
    PushSymbol { file: FileHandle, symbol: SymbolHandle, is_reference: bool },
    /// Pushes a symbol with an attached scope list onto the symbol stack.
    PushScopedSymbol {
        file: FileHandle,
        symbol: SymbolHandle,
        scope: NodeHandle,
        is_reference: bool,
    },
    /// Pops a symbol without attached scope list off the symbol stack.
    PopSymbol { file: FileHandle, symbol: SymbolHandle, is_definition: bool },
    /// Pops a symbol with attached scope list off the symbol stack, and makes
    /// that list the scope stack.
    PopScopedSymbol { file: FileHandle, symbol: SymbolHandle, is_definition: bool },
}

/// A directed edge. Among the edges that leave one node, a higher precedence
/// shadows a lower one when paths are chosen.
#[derive(Clone, Copy, PartialEq, Eq, Structural, Debug)]
pub struct Edge {
    pub source: NodeHandle,
    pub sink: NodeHandle,
    pub precedence: i32,
}

impl Node {
    /// The file that the node belongs to; the root and the jump-to-scope node
    /// belong to none.
    pub open spec fn file_spec(self) -> Option<FileHandle> {
        match self {
            Node::Root => None,
            Node::JumpTo => None,
            Node::ExportedScope { file } => Some(file),
            Node::InternalScope { file } => Some(file),
            Node::DropScopes { file } => Some(file),
            Node::PushSymbol { file, .. } => Some(file),
            Node::PushScopedSymbol { file, .. } => Some(file),
            Node::PopSymbol { file, .. } => Some(file),
            Node::PopScopedSymbol { file, .. } => Some(file),
        }
    }

    /// The symbol that the node pushes or pops.
    pub open spec fn symbol_spec(self) -> Option<SymbolHandle> {
        match self {
            Node::PushSymbol { symbol, .. } => Some(symbol),
            Node::PushScopedSymbol { symbol, .. } => Some(symbol),
            Node::PopSymbol { symbol, .. } => Some(symbol),
            Node::PopScopedSymbol { symbol, .. } => Some(symbol),
            _ => None,
        }
    }

    /// Whether the node is a push node that stands for a reference.
    pub open spec fn is_reference_spec(self) -> bool {
        match self {
            Node::PushSymbol { is_reference, .. } => is_reference,
            Node::PushScopedSymbol { is_reference, .. } => is_reference,
            _ => false,
        }
    }

    /// Whether the node is a pop node that stands for a definition.
    pub open spec fn is_definition_spec(self) -> bool {
        match self {
            Node::PopSymbol { is_definition, .. } => is_definition,
            Node::PopScopedSymbol { is_definition, .. } => is_definition,
            _ => false,
        }
    }

    /// Whether a path that stays in `file` may pass through the node: the
    /// node belongs to `file`, or to no file at all.
    pub open spec fn is_in_file_spec(self, file: FileHandle) -> bool {
        match self.file_spec() {
            Some(own) => own == file,
            None => true,
        }
    }

    /// Whether the node is a seed of the search for partial paths in its file.
    pub open spec fn is_seed_spec(self) -> bool {
        match self {
            Node::PushScopedSymbol { .. } => true,
            Node::PushSymbol { .. } => true,
            Node::ExportedScope { .. } => true,
            _ => false,
        }
    }

    /// The file that the node belongs to.
    pub fn file(&self) -> (file: Option<FileHandle>)
        ensures
            file == self.file_spec(),
    {
        match *self {
            Node::Root => None,
            Node::JumpTo => None,
            Node::ExportedScope { file } => Some(file),
            Node::InternalScope { file } => Some(file),
            Node::DropScopes { file } => Some(file),
            Node::PushSymbol { file, .. } => Some(file),
            Node::PushScopedSymbol { file, .. } => Some(file),
            Node::PopSymbol { file, .. } => Some(file),
            Node::PopScopedSymbol { file, .. } => Some(file),
        }
    }

    /// The symbol that the node pushes or pops.
    pub fn symbol(&self) -> (symbol: Option<SymbolHandle>)
        ensures
            symbol == self.symbol_spec(),
    {
        match *self {
            Node::PushSymbol { symbol, .. } => Some(symbol),
            Node::PushScopedSymbol { symbol, .. } => Some(symbol),
            Node::PopSymbol { symbol, .. } => Some(symbol),
            Node::PopScopedSymbol { symbol, .. } => Some(symbol),
            _ => None,
        }
    }

    /// Whether a path that stays in `file` may pass through the node: the
    /// root and the jump-to-scope node lie on the paths of every file.
    pub fn is_in_file(&self, file: FileHandle) -> (inside: bool)
        ensures
            inside == self.is_in_file_spec(file),
    {
        match self.file() {
            Some(own) => own.index == file.index,
            None => true,
        }
    }

    /// Whether the node belongs to `file`.
    pub fn belongs_to(&self, file: FileHandle) -> (inside: bool)
        ensures
            inside == (self.file_spec() == Some(file)),
    {
        match self.file() {
            Some(own) => own.index == file.index,
            None => false,
        }
    }

    /// Whether the node is the jump-to-scope node.
    pub fn is_jump_to(&self) -> (jump: bool)
        ensures
            jump == (*self == Node::JumpTo),
    {
        match *self {
            Node::JumpTo => true,
            _ => false,
        }
    }

    /// Whether the node is the root node.
    pub fn is_root(&self) -> (root: bool)
        ensures
            root == (*self == Node::Root),
    {
        match *self {
            Node::Root => true,
            _ => false,
        }
    }

    /// Whether the node is a push node that stands for a reference.
    pub fn is_reference(&self) -> (reference: bool)
        ensures
            reference == self.is_reference_spec(),
    {
        match *self {
            Node::PushSymbol { is_reference, .. } => is_reference,
            Node::PushScopedSymbol { is_reference, .. } => is_reference,
            _ => false,
        }
    }

    /// Whether the node is a pop node that stands for a definition.
    pub fn is_definition(&self) -> (definition: bool)
        ensures
            definition == self.is_definition_spec(),
    {
        match *self {
            Node::PopSymbol { is_definition, .. } => is_definition,
            Node::PopScopedSymbol { is_definition, .. } => is_definition,
            _ => false,
        }
    }

    /// Whether the search for partial paths in a file starts at this node.
    pub fn is_seed(&self) -> (seed: bool)
        ensures
            seed == self.is_seed_spec(),
    {
        match *self {
            Node::PushScopedSymbol { .. } => true,
            Node::PushSymbol { .. } => true,
            Node::ExportedScope { .. } => true,
            _ => false,
        }
    }
}

/// The integer that stands for a position in contracts.
#[verifier::inline]
pub open spec fn position(i: usize) -> int {
    i as int
}

/// The order of two byte strings: the first byte that differs decides, and a
/// proper prefix comes first.
pub open spec fn byte_order(a: Seq<u8>, b: Seq<u8>) -> Ordering
    decreases a.len(),
{
    if a.len() == 0 {
        if b.len() == 0 {
            Ordering::Equal
        } else {
            Ordering::Less
        }
    } else if b.len() == 0 {
        Ordering::Greater
    } else if a[0] < b[0] {
        Ordering::Less
    } else if a[0] > b[0] {
        Ordering::Greater
    } else {
        byte_order(a.drop_first(), b.drop_first())
    }
}

/// Two byte strings are in the order `Equal` exactly when they are the same.
pub proof fn lemma_byte_order_equal(a: Seq<u8>, b: Seq<u8>)
    ensures
        (byte_order(a, b) == Ordering::Equal) <==> a == b,
    decreases a.len(),
{
    if a.len() > 0 && b.len() > 0 {
        lemma_byte_order_equal(a.drop_first(), b.drop_first());
        if a[0] == b[0] && a.drop_first() == b.drop_first() {
            assert(a =~= seq![a[0]] + a.drop_first());
            assert(b =~= seq![b[0]] + b.drop_first());
        }
    } else if a.len() == 0 && b.len() == 0 {
        assert(a =~= b);
    }
}

/// Computes [`byte_order`].
pub fn order_of_bytes(a: &[u8], b: &[u8]) -> (order: Ordering)
    ensures
        order == byte_order(a@, b@),
{
    let mut i: usize = 0;
    proof {
        assert(a@.skip(0) =~= a@);
        assert(b@.skip(0) =~= b@);
    }
    while i < a.len() && i < b.len()
        invariant
            i <= a@.len(),
            i <= b@.len(),
            byte_order(a@, b@) == byte_order(a@.skip(position(i)), b@.skip(position(i))),
        decreases a@.len() - i,
    {
        proof {
            let rest_a = a@.skip(position(i));
            let rest_b = b@.skip(position(i));
            assert(rest_a[0] == a@[position(i)]);
            assert(rest_b[0] == b@[position(i)]);
            assert(rest_a.drop_first() =~= a@.skip(position(i) + 1));
            assert(rest_b.drop_first() =~= b@.skip(position(i) + 1));
        }
        if a[i] < b[i] {
            return Ordering::Less;
        }
        if a[i] > b[i] {
            return Ordering::Greater;
        }
        i += 1;
    }
    proof {
        assert(a@.skip(position(i)).len() == a@.len() - i);
        assert(b@.skip(position(i)).len() == b@.len() - i);
    }
    if i < a.len() {
        Ordering::Greater
    } else if i < b.len() {
        Ordering::Less
    } else {
        Ordering::Equal
    }
}

/// What a [`StackGraph`] holds, as plain values.
pub struct StackGraphView {
    /// The name of each symbol, by handle.
    pub symbols: Seq<Seq<char>>,
    /// The name of each file, by handle.
    pub files: Seq<Seq<char>>,
    /// Each node, by handle.
    pub nodes: Seq<Node>,
    /// The edges that leave each node, in the order in which they were added.
    pub outgoing: Seq<Seq<Edge>>,
}

/// Whether no name stands twice in `names`.
pub open spec fn distinct_names(names: Seq<Seq<char>>) -> bool {
    forall|i: int, j: int|
        0 <= i < names.len() && 0 <= j < names.len() && #[trigger] names[i] == #[trigger] names[j]
            ==> i == j
}

impl StackGraphView {
    /// Whether `node` is a node of the graph.
    pub open spec fn contains_node(self, node: NodeHandle) -> bool {
        node.index < self.nodes.len()
    }

    /// Whether `symbol` is a symbol of the graph.
    pub open spec fn contains_symbol(self, symbol: SymbolHandle) -> bool {
        symbol.index < self.symbols.len()
    }

    /// Whether `file` is a file of the graph.
    pub open spec fn contains_file(self, file: FileHandle) -> bool {
        file.index < self.files.len()
    }

    /// The node behind a handle.
    pub open spec fn node(self, node: NodeHandle) -> Node {
        self.nodes[node.index as int]
    }

    /// Whether a node could be added: it is neither of the two nodes that
    /// every graph has once, and what it names is in the graph.
    pub open spec fn admits(self, node: Node) -> bool {
        &&& node != Node::Root
        &&& node != Node::JumpTo
        &&& match node.file_spec() {
            Some(file) => self.contains_file(file),
            None => true,
        }
        &&& match node.symbol_spec() {
            Some(symbol) => self.contains_symbol(symbol),
            None => true,
        }
        &&& match node {
            Node::PushScopedSymbol { scope, .. } => self.contains_node(scope),
            _ => true,
        }
    }

    /// The graph's invariant: the root is node 0 and the jump-to-scope node
    /// is node 1, every other node names things of the graph, every edge lies
    /// with its source and ends at a node, and no name is interned twice.
    pub open spec fn wf(self) -> bool {
        &&& self.nodes.len() >= 2
        &&& self.nodes[0] == Node::Root
        &&& self.nodes[1] == Node::JumpTo
        &&& forall|i: int| 2 <= i < self.nodes.len() ==> self.admits(#[trigger] self.nodes[i])
        &&& self.outgoing.len() == self.nodes.len()
        &&& forall|i: int, j: int|
            0 <= i < self.outgoing.len() && 0 <= j < self.outgoing[i].len() ==> (
            #[trigger] self.outgoing[i][j]).source.index == i && self.contains_node(
                self.outgoing[i][j].sink,
            )
        &&& distinct_names(self.symbols)
        &&& distinct_names(self.files)
    }

    /// The order of two symbols: that of their names as UTF-8 bytes.
    pub open spec fn symbol_order(self, a: SymbolHandle, b: SymbolHandle) -> Ordering {
        byte_order(
            encode_utf8(self.symbols[position(a.index)]),
            encode_utf8(self.symbols[position(b.index)]),
        )
    }

    /// The edges that leave `node`.
    pub open spec fn outgoing_edges(self, node: NodeHandle) -> Seq<Edge> {
        self.outgoing[node.index as int]
    }

    /// The nodes of `file` among the first `upto` nodes, by rising handle.
    pub open spec fn nodes_in_file_upto(self, file: FileHandle, upto: nat) -> Seq<NodeHandle>
        decreases upto,
    {
        if upto == 0 {
            Seq::empty()
        } else {
            let before = self.nodes_in_file_upto(file, (upto - 1) as nat);
            if self.nodes[upto - 1].file_spec() == Some(file) {
                before.push(NodeHandle { index: (upto - 1) as usize })
            } else {
                before
            }
        }
    }

    /// The nodes of `file`, by rising handle.
    pub open spec fn nodes_in_file(self, file: FileHandle) -> Seq<NodeHandle> {
        self.nodes_in_file_upto(file, self.nodes.len())
    }

    /// Two symbols of a well-formed graph are in the order `Equal` exactly
    /// when they are the same symbol.
    pub proof fn lemma_symbol_order_equal(self, a: SymbolHandle, b: SymbolHandle)
        requires
            self.wf(),
            self.contains_symbol(a),
            self.contains_symbol(b),
        ensures
            (self.symbol_order(a, b) == Ordering::Equal) <==> a == b,
    {
        let name_a = self.symbols[position(a.index)];
        let name_b = self.symbols[position(b.index)];
        lemma_byte_order_equal(encode_utf8(name_a), encode_utf8(name_b));
        encode_utf8_decode_utf8(name_a);
        encode_utf8_decode_utf8(name_b);
    }

    /// Every node in the list of a file's nodes is a node of that file.
    pub proof fn lemma_nodes_in_file(self, file: FileHandle, upto: nat)
        requires
            upto <= self.nodes.len() <= usize::MAX,
        ensures
            forall|k: int|
                0 <= k < self.nodes_in_file_upto(file, upto).len() ==> {
                    let node = #[trigger] self.nodes_in_file_upto(file, upto)[k];
                    node.index < upto && self.node(node).file_spec() == Some(file)
                },
        decreases upto,
    {
        if upto > 0 {
            self.lemma_nodes_in_file(file, (upto - 1) as nat);
        }
    }
}

/// A stack graph: symbols, files, nodes, and the edges between the nodes.
pub struct StackGraph {
    symbols: Vec<String>,
    files: Vec<String>,
    nodes: Vec<Node>,
    outgoing: Vec<Vec<Edge>>,
}

/// The names behind a list of strings.
pub open spec fn names_of(strings: Seq<String>) -> Seq<Seq<char>> {
    Seq::new(strings.len(), |i: int| strings[i]@)
}

/// The position of `name` in `names`, where it stands there; else `name` is
/// added at the end, and that position is returned.
fn intern(names: &mut Vec<String>, name: &str) -> (index: usize)
    requires
        distinct_names(names_of(old(names)@)),
    ensures
        distinct_names(names_of(final(names)@)),
        index < final(names)@.len(),
        names_of(final(names)@)[position(index)] == name@,
        names_of(old(names)@).contains(name@) ==> names_of(final(names)@) == names_of(
            old(names)@,
        ),
        !names_of(old(names)@).contains(name@) ==> names_of(final(names)@) == names_of(
            old(names)@,
        ).push(name@),
{
    let mut i: usize = 0;
    while i < names.len()
        invariant
            i <= names@.len(),
            *names == *old(names),
            distinct_names(names_of(names@)),
            forall|k: int| 0 <= k < i ==> (#[trigger] names_of(names@)[k]) != name@,
        decreases names@.len() - i,
    {
        let order = order_of_bytes(names[i].as_str().as_bytes(), name.as_bytes());
        proof {
            let known = names@[position(i)]@;
            lemma_byte_order_equal(encode_utf8(known), encode_utf8(name@));
            encode_utf8_decode_utf8(known);
            encode_utf8_decode_utf8(name@);
            assert(names_of(names@)[position(i)] == known);
        }
        match order {
            Ordering::Equal => {
                proof {
                    assert(names_of(names@).contains(name@));
                }
                return i;
            },
            _ => {},
        }
        i += 1;
    }
    let index: usize = names.len();
    names.push(String::from_str(name));
    proof {
        let before = names_of(old(names)@);
        let after = names_of(names@);
        assert(after =~= before.push(name@));
        assert(!before.contains(name@)) by {
            if before.contains(name@) {
                let k = choose|k: int| 0 <= k < before.len() && before[k] == name@;
                assert(before[k] != name@);
            }
        }
    }
    index
}

impl View for StackGraph {
    type V = StackGraphView;

    closed spec fn view(&self) -> StackGraphView {
        StackGraphView {
            symbols: names_of(self.symbols@),
            files: names_of(self.files@),
            nodes: self.nodes@,
            outgoing: Seq::new(self.outgoing@.len(), |i: int| self.outgoing@[i]@),
        }
    }
}

impl StackGraph {
    /// A graph that holds the root node and the jump-to-scope node, and
    /// nothing else.
    pub fn new() -> (graph: StackGraph)
        ensures
            graph@.wf(),
            graph@.nodes == seq![Node::Root, Node::JumpTo],
            graph@.symbols.len() == 0,
            graph@.files.len() == 0,
            graph@.outgoing == seq![Seq::<Edge>::empty(), Seq::<Edge>::empty()],
    {
        let mut nodes: Vec<Node> = Vec::new();
        nodes.push(Node::Root);
        nodes.push(Node::JumpTo);
        let mut outgoing: Vec<Vec<Edge>> = Vec::new();
        outgoing.push(Vec::new());
        outgoing.push(Vec::new());
        let graph = StackGraph { symbols: Vec::new(), files: Vec::new(), nodes, outgoing };
        proof {
            assert(graph@.nodes =~= seq![Node::Root, Node::JumpTo]);
            assert(graph@.outgoing =~= seq![Seq::<Edge>::empty(), Seq::<Edge>::empty()]);
        }
        graph
    }

    /// The root node.
    pub fn root_node(&self) -> (node: NodeHandle)
        ensures
            node.index == 0,
    {
        NodeHandle { index: 0 }
    }

    /// The jump-to-scope node.
    pub fn jump_to_node(&self) -> (node: NodeHandle)
        ensures
            node.index == 1,
    {
        NodeHandle { index: 1 }
    }

    /// The handle of the symbol named `name`, which is interned first where
    /// the graph does not know it.
    pub fn add_symbol(&mut self, name: &str) -> (symbol: SymbolHandle)
        requires
            old(self)@.wf(),
        ensures
            final(self)@.wf(),
            final(self)@.contains_symbol(symbol),
            final(self)@.symbols[position(symbol.index)] == name@,
            old(self)@.symbols.contains(name@) ==> final(self)@ == old(self)@,
            !old(self)@.symbols.contains(name@) ==> final(self)@ == (StackGraphView {
                symbols: old(self)@.symbols.push(name@),
                ..old(self)@
            }),
    {
        let index: usize = intern(&mut self.symbols, name);
        SymbolHandle { index }
    }

    /// The handle of the file named `name`, which is added first where the
    /// graph does not know it.
    pub fn add_file(&mut self, name: &str) -> (file: FileHandle)
        requires
            old(self)@.wf(),
        ensures
            final(self)@.wf(),
            final(self)@.contains_file(file),
            final(self)@.files[position(file.index)] == name@,
            old(self)@.files.contains(name@) ==> final(self)@ == old(self)@,
            !old(self)@.files.contains(name@) ==> final(self)@ == (StackGraphView {
                files: old(self)@.files.push(name@),
                ..old(self)@
            }),
    {
        let index: usize = intern(&mut self.files, name);
        FileHandle { index }
    }

    /// Whether `node` could be added to the graph.
    fn admits(&self, node: &Node) -> (admitted: bool)
        ensures
            admitted == self@.admits(*node),
    {
        if node.is_root() || node.is_jump_to() {
            return false;
        }
        let file_known = match node.file() {
            Some(file) => file.index < self.files.len(),
            None => true,
        };
        let symbol_known = match node.symbol() {
            Some(symbol) => symbol.index < self.symbols.len(),
            None => true,
        };
        let scope_known = match *node {
            Node::PushScopedSymbol { scope, .. } => scope.index < self.nodes.len(),
            _ => true,
        };
        file_known && symbol_known && scope_known
    }

    /// Adds a node. `None`, and the graph is unchanged, where the node is a
    /// second root or jump-to-scope node, or names a file, symbol or scope
    /// that the graph does not hold.
    pub fn add_node(&mut self, node: Node) -> (handle: Option<NodeHandle>)
        requires
            old(self)@.wf(),
        ensures
            final(self)@.wf(),
            handle.is_some() == old(self)@.admits(node),
            handle.is_none() ==> final(self)@ == old(self)@,
            handle.is_some() ==> handle.unwrap().index == old(self)@.nodes.len() && final(self)@
                == (StackGraphView {
                nodes: old(self)@.nodes.push(node),
                outgoing: old(self)@.outgoing.push(Seq::empty()),
                ..old(self)@
            }),
    {
        if !self.admits(&node) {
            return None;
        }
        let index: usize = self.nodes.len();
        self.nodes.push(node);
        self.outgoing.push(Vec::new());
        proof {
            assert(self@.outgoing =~= old(self)@.outgoing.push(Seq::empty()));
            assert forall|i: int| 2 <= i < self@.nodes.len() implies self@.admits(
                #[trigger] self@.nodes[i],
            ) by {
                if i < old(self)@.nodes.len() {
                    assert(old(self)@.admits(old(self)@.nodes[i]));
                }
            }
            assert forall|i: int, j: int|
                0 <= i < self@.outgoing.len() && 0 <= j < self@.outgoing[i].len() implies (
            #[trigger] self@.outgoing[i][j]).source.index == i && self@.contains_node(
                self@.outgoing[i][j].sink,
            ) by {
                assert(old(self)@.outgoing[i][j].source.index == i);
            }
        }
        Some(NodeHandle { index })
    }

    /// Adds an edge behind the edges that leave `source` already. `false`,
    /// and the graph is unchanged, where either end is no node of the graph.
    pub fn add_edge(&mut self, source: NodeHandle, sink: NodeHandle, precedence: i32) -> (added:
        bool)
        requires
            old(self)@.wf(),
        ensures
            final(self)@.wf(),
            added == (old(self)@.contains_node(source) && old(self)@.contains_node(sink)),
            !added ==> final(self)@ == old(self)@,
            added ==> final(self)@ == (StackGraphView {
                outgoing: old(self)@.outgoing.update(
                    position(source.index),
                    old(self)@.outgoing[position(source.index)].push(
                        Edge { source, sink, precedence },
                    ),
                ),
                ..old(self)@
            }),
    {
        if source.index >= self.nodes.len() || sink.index >= self.nodes.len() {
            return false;
        }
        let edge = Edge { source, sink, precedence };
        self.outgoing[source.index].push(edge);
        proof {
            let before = old(self)@;
            let row = position(source.index);
            assert(self@.outgoing =~= before.outgoing.update(row, before.outgoing[row].push(edge)));
            assert forall|i: int, j: int|
                0 <= i < self@.outgoing.len() && 0 <= j < self@.outgoing[i].len() implies (
            #[trigger] self@.outgoing[i][j]).source.index == i && self@.contains_node(
                self@.outgoing[i][j].sink,
            ) by {
                if i != row || j < before.outgoing[row].len() {
                    assert(before.outgoing[i][j].source.index == i);
                }
            }
            assert forall|i: int| 2 <= i < self@.nodes.len() implies self@.admits(
                #[trigger] self@.nodes[i],
            ) by {
                assert(before.admits(before.nodes[i]));
            }
        }
        true
    }

    /// The node behind a handle.
    pub fn node(&self, node: NodeHandle) -> (found: Node)
        requires
            self@.contains_node(node),
        ensures
            found == self@.node(node),
    {
        self.nodes[node.index]
    }

    /// Whether `node` is a node of the graph.
    pub fn holds_node(&self, node: NodeHandle) -> (held: bool)
        ensures
            held == self@.contains_node(node),
    {
        node.index < self.nodes.len()
    }

    /// Whether `symbol` is a symbol of the graph.
    pub fn holds_symbol(&self, symbol: SymbolHandle) -> (held: bool)
        ensures
            held == self@.contains_symbol(symbol),
    {
        symbol.index < self.symbols.len()
    }

    /// Whether `file` is a file of the graph.
    pub fn holds_file(&self, file: FileHandle) -> (held: bool)
        ensures
            held == self@.contains_file(file),
    {
        file.index < self.files.len()
    }

    /// The number of nodes.
    pub fn node_count(&self) -> (count: usize)
        ensures
            count == self@.nodes.len(),
    {
        self.nodes.len()
    }

    /// The edges that leave `node`, in the order in which they were added.
    pub fn outgoing_edges(&self, node: NodeHandle) -> (edges: &Vec<Edge>)
        requires
            self@.wf(),
            self@.contains_node(node),
        ensures
            edges@ == self@.outgoing_edges(node),
    {
        &self.outgoing[node.index]
    }

    /// The nodes of `file`, by rising handle.
    pub fn nodes_for_file(&self, file: FileHandle) -> (nodes: Vec<NodeHandle>)
        ensures
            nodes@ == self@.nodes_in_file(file),
    {
        let mut nodes: Vec<NodeHandle> = Vec::new();
        let mut i: usize = 0;
        while i < self.nodes.len()
            invariant
                i <= self.nodes@.len(),
                nodes@ == self@.nodes_in_file_upto(file, i as nat),
            decreases self.nodes@.len() - i,
        {
            if self.nodes[i].belongs_to(file) {
                nodes.push(NodeHandle { index: i });
            }
            i += 1;
        }
        nodes
    }

    /// The name of a symbol.
    pub fn symbol_name(&self, symbol: SymbolHandle) -> (name: &str)
        requires
            self@.contains_symbol(symbol),
        ensures
            name@ == self@.symbols[position(symbol.index)],
    {
        self.symbols[symbol.index].as_str()
    }

    /// The name of a file.
    pub fn file_name(&self, file: FileHandle) -> (name: &str)
        requires
            self@.contains_file(file),
        ensures
            name@ == self@.files[position(file.index)],
    {
        self.files[file.index].as_str()
    }

    /// The order of two symbols: that of their names as UTF-8 bytes.
    pub fn order_of_symbols(&self, a: SymbolHandle, b: SymbolHandle) -> (order: Ordering)
        requires
            self@.contains_symbol(a),
            self@.contains_symbol(b),
        ensures
            order == self@.symbol_order(a, b),
    {
        order_of_bytes(
            self.symbols[a.index].as_str().as_bytes(),
            self.symbols[b.index].as_str().as_bytes(),
        )
    }
}

} // verus!
