//! The lock graph as data: edges, nodes and the lock file that owns them.

use crate::assoc::{begins_with, distinct_keys, has_key, key_index, value_of};
use crate::model::{
    follow, hop, idle, lemma_idle_push, resolve, resolve_edge, EdgeView, GraphError, GraphView,
    NodeView, MAX_SUPPORTED_LOCK_VERSION, MIN_SUPPORTED_LOCK_VERSION,
};
use crate::names::{clone_names, contains_pair, names_of, pairs_of, same_names};
use crate::ordered_map::OrderedMap;
use vstd::prelude::*;

verus! {

/// A reference from one node's input to another node.
#[derive(Debug)]
pub enum NodeEdge {
    /// The identifier of the node referred to.
    Indexed(String),
    /// A path of input names, walked from the root node.
    Follows(Vec<String>),
}

impl View for NodeEdge {
    type V = EdgeView;

    open spec fn view(&self) -> EdgeView {
        match self {
            NodeEdge::Indexed(id) => EdgeView::Indexed(id@),
            NodeEdge::Follows(path) => EdgeView::Follows(names_of(path@)),
        }
    }
}

impl Clone for NodeEdge {
    fn clone(&self) -> (r: Self)
        ensures
            r@ == self@,
    {
        match self {
            NodeEdge::Indexed(id) => NodeEdge::Indexed(id.clone()),
            NodeEdge::Follows(path) => NodeEdge::Follows(clone_names(path)),
        }
    }
}

impl NodeEdge {
    /// The identifier that an indexed edge holds; `None` for a follows-path.
    pub fn index(&self) -> (r: Option<&String>)
        ensures
            match r {
                Some(id) => self@ == EdgeView::Indexed(id@),
                None => self@ is Follows,
            },
    {
        match self {
            NodeEdge::Indexed(id) => Some(id),
            NodeEdge::Follows(_) => None,
        }
    }

    /// Whether two edges are the same: both indexed with the same
    /// identifier, or both follows-paths of the same names.
    pub fn same_as(&self, other: &NodeEdge) -> (same: bool)
        ensures
            same == (self@ == other@),
    {
        match (self, other) {
            (NodeEdge::Indexed(a), NodeEdge::Indexed(b)) => *a == *b,
            (NodeEdge::Follows(a), NodeEdge::Follows(b)) => same_names(a, b),
            _ => false,
        }
    }

    /// The follows-path of one name: the root's own input `name`.
    pub fn follows_root_input(name: &str) -> (r: Self)
        ensures
            r@ == EdgeView::Follows(seq![name@]),
    {
        let mut path: Vec<String> = Vec::new();
        path.push(name.to_owned());
        assert(names_of(path@) =~= seq![name@]);
        NodeEdge::Follows(path)
    }
}

/// A node of the graph: its inputs by name, in the order they were given.
#[derive(Debug)]
pub struct Node {
    edges: OrderedMap<NodeEdge>,
}

impl View for Node {
    type V = NodeView;

    /// The named edges, in order.
    closed spec fn view(&self) -> NodeView {
        Seq::new(self.edges@.len(), |i: int| (self.edges@[i].0, self.edges@[i].1@))
    }
}

impl Node {
    /// Well-formedness: no input name occurs twice.
    pub closed spec fn wf(&self) -> bool {
        self.edges.wf()
    }

    /// A well-formed node has distinct input names.
    pub proof fn lemma_wf(&self)
        requires
            self.wf(),
        ensures
            distinct_keys(self@),
    {
        crate::assoc::lemma_keys_agree(self.edges@, self@);
    }

    /// A node without inputs.
    pub fn new() -> (node: Self)
        ensures
            node.wf(),
            node@ == NodeView::empty(),
    {
        let node = Node { edges: OrderedMap::new() };
        assert(node@ =~= NodeView::empty());
        node
    }

    /// The number of inputs.
    pub fn len(&self) -> (n: usize)
        requires
            self.wf(),
        ensures
            n == self@.len(),
    {
        self.edges.len()
    }

    /// The name of the input at a position.
    pub fn name_at(&self, i: usize) -> (name: &String)
        requires
            self.wf(),
            i < self@.len(),
        ensures
            name@ == self@[i as int].0,
    {
        self.edges.key_at(i)
    }

    /// The edge of the input at a position.
    pub fn edge_at(&self, i: usize) -> (edge: &NodeEdge)
        requires
            self.wf(),
            i < self@.len(),
        ensures
            edge@ == self@[i as int].1,
    {
        self.edges.value_at(i)
    }

    /// The position of the input `name`, if the node has it.
    pub fn index_of_edge(&self, name: &str) -> (r: Option<usize>)
        requires
            self.wf(),
        ensures
            r is Some <==> has_key(self@, name@),
            r matches Some(i) ==> i == key_index(self@, name@) && i < self@.len()
                && self@[i as int].0 == name@,
    {
        proof {
            crate::assoc::lemma_keys_agree(self.edges@, self@);
        }
        let r = self.edges.index_of(name);
        proof {
            if r is Some {
                assert(key_index(self.edges@, name@) == key_index(self@, name@));
            }
        }
        r
    }

    /// The edge of the input `name`, if the node has it.
    pub fn get_edge(&self, name: &str) -> (r: Option<&NodeEdge>)
        requires
            self.wf(),
        ensures
            r is Some <==> has_key(self@, name@),
            r matches Some(edge) ==> edge@ == value_of(self@, name@),
    {
        match self.index_of_edge(name) {
            Some(i) => Some(self.edges.value_at(i)),
            None => None,
        }
    }

    /// Gives the input `name` the edge `edge`. An input that the node already
    /// has keeps its position and gives its former edge back; a new input
    /// goes to the end.
    pub fn insert_edge(&mut self, name: String, edge: NodeEdge) -> (former: Option<NodeEdge>)
        requires
            old(self).wf(),
        ensures
            final(self).wf(),
            former is Some <==> has_key(old(self)@, name@),
            former matches Some(e) ==> e@ == value_of(old(self)@, name@) && final(self)@ == old(
                self,
            )@.update(key_index(old(self)@, name@), (name@, edge@)),
            former is None ==> final(self)@ == old(self)@.push((name@, edge@)),
    {
        proof {
            crate::assoc::lemma_keys_agree(self.edges@, self@);
        }
        let ghost before = self.edges@;
        let ghost k = name@;
        let former = self.edges.insert(name, edge);
        proof {
            if former is Some {
                assert(key_index(before, k) == key_index(old(self)@, k));
                assert(self@ =~= old(self)@.update(key_index(old(self)@, k), (k, edge@)));
            } else {
                assert(self@ =~= old(self)@.push((k, edge@)));
            }
        }
        former
    }

    /// Replaces the edge at a position; the name and every other input stay.
    pub fn set_edge_at(&mut self, i: usize, edge: NodeEdge)
        requires
            old(self).wf(),
            i < old(self)@.len(),
        ensures
            final(self).wf(),
            final(self)@ == old(self)@.update(i as int, (old(self)@[i as int].0, edge@)),
    {
        let ghost before = self.edges@;
        let slot = self.edges.value_at_mut(i);
        *slot = edge;
        proof {
            crate::assoc::lemma_keys_agree(before, self.edges@);
            assert(self@ =~= old(self)@.update(i as int, (old(self)@[i as int].0, edge@)));
        }
    }

    /// Whether two nodes are the same: the same inputs with the same
    /// edges, in the same order.
    pub fn same_as(&self, other: &Node) -> (same: bool)
        requires
            self.wf(),
            other.wf(),
        ensures
            same == (self@ == other@),
    {
        let n = self.len();
        if n != other.len() {
            return false;
        }
        let mut i: usize = 0;
        while i < n
            invariant
                self.wf(),
                other.wf(),
                n == self@.len(),
                n == other@.len(),
                i <= n,
                forall|j: int| 0 <= j < i ==> self@[j] == other@[j],
            decreases n - i,
        {
            if *self.name_at(i) != *other.name_at(i) || !self.edge_at(i).same_as(other.edge_at(i)) {
                assert(self@[i as int] != other@[i as int]);
                return false;
            }
            i += 1;
        }
        assert(self@ =~= other@);
        true
    }

    /// The edge of the input at a position, to be changed in place; the
    /// name and every other input stay.
    pub fn edge_at_mut(&mut self, i: usize) -> (edge: &mut NodeEdge)
        requires
            old(self).wf(),
            i < old(self)@.len(),
        ensures
            edge@ == old(self)@[i as int].1,
            final(self).wf(),
            final(self)@ == old(self)@.update(i as int, (old(self)@[i as int].0, final(edge)@)),
    {
        let ghost before = self.edges@;
        let edge = self.edges.value_at_mut(i);
        proof {
            let after = before.update(i as int, (before[i as int].0, *final(edge)));
            assert(Seq::new(after.len(), |j: int| (after[j].0, after[j].1@)) =~= Seq::new(
                before.len(),
                |j: int| (before[j].0, before[j].1@),
            ).update(i as int, (before[i as int].0, final(edge)@)));
        }
        edge
    }

    /// A copy of the node: the same inputs with the same edges, in order.
    pub fn duplicate(&self) -> (r: Self)
        requires
            self.wf(),
        ensures
            r.wf(),
            r@ == self@,
    {
        let mut r = Node::new();
        let n = self.len();
        let mut i: usize = 0;
        proof {
            self.lemma_wf();
        }
        while i < n
            invariant
                self.wf(),
                distinct_keys(self@),
                n == self@.len(),
                i <= n,
                r.wf(),
                r@ == self@.take(i as int),
            decreases n - i,
        {
            let name = self.name_at(i).clone();
            let edge = self.edge_at(i).clone();
            proof {
                if has_key(r@, name@) {
                    let j = key_index(r@, name@);
                    assert(self@[j].0 == name@);
                    assert(self@[i as int].0 == name@);
                }
            }
            r.insert_edge(name, edge);
            i += 1;
            proof {
                assert(r@ =~= self@.take(i as int));
            }
        }
        proof {
            assert(self@.take(n as int) =~= self@);
        }
        r
    }
}

/// A lock file: the nodes by identifier, in the order they were given, the
/// identifier of the root node and the schema version.
#[derive(Debug)]
pub struct LockFile {
    nodes: OrderedMap<Node>,
    root: String,
    version: u32,
}

impl View for LockFile {
    type V = GraphView;

    closed spec fn view(&self) -> GraphView {
        GraphView {
            nodes: Seq::new(self.nodes@.len(), |i: int| (self.nodes@[i].0, self.nodes@[i].1@)),
            root: self.root@,
            version: self.version,
        }
    }
}

impl LockFile {
    /// Well-formedness: identifiers are distinct, every node is well-formed,
    /// the root exists and the schema version is supported.
    pub closed spec fn wf(&self) -> bool {
        &&& self.nodes.wf()
        &&& forall|i: int| 0 <= i < self.nodes@.len() ==> (#[trigger] self.nodes@[i]).1.wf()
        &&& has_key(self.nodes@, self.root@)
        &&& MIN_SUPPORTED_LOCK_VERSION <= self.version <= MAX_SUPPORTED_LOCK_VERSION
    }

    /// The model of a well-formed lock file is a well-formed graph.
    pub proof fn lemma_wf(&self)
        requires
            self.wf(),
        ensures
            self@.wf(),
    {
        crate::assoc::lemma_keys_agree(self.nodes@, self@.nodes);
        assert forall|i: int| 0 <= i < self@.nodes.len() implies distinct_keys(
            (#[trigger] self@.nodes[i]).1,
        ) by {
            self.nodes@[i].1.lemma_wf();
        }
    }

    /// A lock file that holds the root node alone. A schema version outside
    /// the supported range is refused.
    pub fn new(root_index: String, root: Node, version: u32) -> (r: Result<Self, GraphError>)
        requires
            root.wf(),
        ensures
            match r {
                Ok(lock) => lock.wf() && lock@ == (GraphView {
                    nodes: seq![(root_index@, root@)],
                    root: root_index@,
                    version,
                }) && MIN_SUPPORTED_LOCK_VERSION <= version <= MAX_SUPPORTED_LOCK_VERSION,
                Err(e) => e == GraphError::SchemaVersionUnsupported && !(MIN_SUPPORTED_LOCK_VERSION
                    <= version <= MAX_SUPPORTED_LOCK_VERSION),
            },
    {
        if version < MIN_SUPPORTED_LOCK_VERSION || version > MAX_SUPPORTED_LOCK_VERSION {
            return Err(GraphError::SchemaVersionUnsupported);
        }
        let mut nodes: OrderedMap<Node> = OrderedMap::new();
        let key = root_index.clone();
        nodes.insert(key, root);
        let lock = LockFile { nodes, root: root_index, version };
        proof {
            assert(lock.nodes@[0].0 == root_index@);
            assert(lock@.nodes =~= seq![(root_index@, root@)]);
        }
        Ok(lock)
    }

    /// A lock file that holds `nodes`, in their order. A schema version
    /// outside the supported range is refused with
    /// `SchemaVersionUnsupported`, and else a root that is not among the
    /// nodes with `DanglingReference`.
    pub fn from_nodes(root_index: String, nodes: OrderedMap<Node>, version: u32) -> (r: Result<
        Self,
        GraphError,
    >)
        requires
            nodes.wf(),
            forall|i: int| 0 <= i < nodes@.len() ==> (#[trigger] nodes@[i]).1.wf(),
        ensures
            match r {
                Ok(lock) => {
                    &&& lock.wf()
                    &&& lock@ == (GraphView {
                        nodes: Seq::new(nodes@.len(), |i: int| (nodes@[i].0, nodes@[i].1@)),
                        root: root_index@,
                        version,
                    })
                    &&& MIN_SUPPORTED_LOCK_VERSION <= version <= MAX_SUPPORTED_LOCK_VERSION
                    &&& has_key(nodes@, root_index@)
                },
                Err(e) => if MIN_SUPPORTED_LOCK_VERSION <= version <= MAX_SUPPORTED_LOCK_VERSION {
                    e == GraphError::DanglingReference && !has_key(nodes@, root_index@)
                } else {
                    e == GraphError::SchemaVersionUnsupported
                },
            },
    {
        if version < MIN_SUPPORTED_LOCK_VERSION || version > MAX_SUPPORTED_LOCK_VERSION {
            return Err(GraphError::SchemaVersionUnsupported);
        }
        if !nodes.contains_key(root_index.as_str()) {
            return Err(GraphError::DanglingReference);
        }
        Ok(LockFile { nodes, root: root_index, version })
    }

    /// The schema version.
    pub fn version(&self) -> (v: u32)
        ensures
            v == self@.version,
    {
        self.version
    }

    /// The identifier of the root node.
    pub fn root_index(&self) -> (id: &String)
        ensures
            id@ == self@.root,
    {
        &self.root
    }

    /// The number of nodes.
    pub fn len(&self) -> (n: usize)
        requires
            self.wf(),
        ensures
            n == self@.nodes.len(),
    {
        self.nodes.len()
    }

    /// The identifier of the node at a position.
    pub fn index_at(&self, i: usize) -> (id: &String)
        requires
            self.wf(),
            i < self@.nodes.len(),
        ensures
            id@ == self@.nodes[i as int].0,
    {
        self.nodes.key_at(i)
    }

    /// The node at a position.
    pub fn node_at(&self, i: usize) -> (node: &Node)
        requires
            self.wf(),
            i < self@.nodes.len(),
        ensures
            node.wf(),
            node@ == self@.nodes[i as int].1,
    {
        self.nodes.value_at(i)
    }

    /// The position of the node `index`, if the graph has it.
    pub fn position(&self, index: &str) -> (r: Option<usize>)
        requires
            self.wf(),
        ensures
            r is Some <==> has_key(self@.nodes, index@),
            r matches Some(i) ==> i == key_index(self@.nodes, index@) && i < self@.nodes.len()
                && self@.nodes[i as int].0 == index@,
    {
        proof {
            crate::assoc::lemma_keys_agree(self.nodes@, self@.nodes);
        }
        let r = self.nodes.index_of(index);
        proof {
            if r is Some {
                assert(key_index(self.nodes@, index@) == key_index(self@.nodes, index@));
            }
        }
        r
    }

    /// The node `index`, if the graph has it.
    pub fn get_node(&self, index: &str) -> (r: Option<&Node>)
        requires
            self.wf(),
        ensures
            r is Some <==> has_key(self@.nodes, index@),
            r matches Some(node) ==> node.wf() && node@ == self@.node(index@),
    {
        match self.position(index) {
            Some(i) => Some(self.nodes.value_at(i)),
            None => None,
        }
    }

    /// The root node.
    pub fn root(&self) -> (node: &Node)
        requires
            self.wf(),
        ensures
            node.wf(),
            node@ == self@.root_node(),
    {
        proof {
            crate::assoc::lemma_keys_agree(self.nodes@, self@.nodes);
        }
        match self.position(self.root.as_str()) {
            Some(i) => self.nodes.value_at(i),
            None => self.nodes.value_at(0),
        }
    }

    /// The node at a position, to be changed in place. The graph stays
    /// well-formed as long as the node does.
    pub fn node_at_mut(&mut self, i: usize) -> (node: &mut Node)
        requires
            old(self).wf(),
            i < old(self)@.nodes.len(),
        ensures
            node.wf(),
            node@ == old(self)@.nodes[i as int].1,
            final(node).wf() ==> final(self).wf(),
            final(self)@ == (GraphView {
                nodes: old(self)@.nodes.update(
                    i as int,
                    (old(self)@.nodes[i as int].0, final(node)@),
                ),
                ..old(self)@
            }),
    {
        let ghost before = self.nodes@;
        let ghost root = self.root@;
        let node = self.nodes.value_at_mut(i);
        proof {
            let after = before.update(i as int, (before[i as int].0, *final(node)));
            crate::assoc::lemma_keys_agree(before, after);
            assert(Seq::new(after.len(), |j: int| (after[j].0, after[j].1@)) =~= Seq::new(
                before.len(),
                |j: int| (before[j].0, before[j].1@),
            ).update(i as int, (before[i as int].0, final(node)@)));
            assert forall|j: int| 0 <= j < after.len() && final(node).wf() implies (
            #[trigger] after[j]).1.wf() by {
                if j != i {
                    assert(before[j].1.wf());
                }
            }
            assert(has_key(after, root));
        }
        node
    }

    /// The node `index`, to be changed in place, if the graph has it.
    pub fn get_node_mut(&mut self, index: &str) -> (r: Option<&mut Node>)
        requires
            old(self).wf(),
        ensures
            r is Some <==> has_key(old(self)@.nodes, index@),
            r matches Some(node) ==> {
                &&& node.wf()
                &&& node@ == old(self)@.node(index@)
                &&& final(node).wf() ==> final(self).wf()
                &&& final(self)@ == (GraphView {
                    nodes: old(self)@.nodes.update(
                        key_index(old(self)@.nodes, index@),
                        (index@, final(node)@),
                    ),
                    ..old(self)@
                })
            },
            r is None ==> *final(self) == *old(self),
    {
        match self.position(index) {
            Some(i) => Some(self.node_at_mut(i)),
            None => None,
        }
    }

    /// Adds the node `node` under `index`. An identifier that the graph
    /// already has keeps its position and gives its former node back; a new
    /// one goes to the end.
    pub fn insert_node(&mut self, index: String, node: Node) -> (former: Option<Node>)
        requires
            old(self).wf(),
            node.wf(),
        ensures
            final(self).wf(),
            former is Some <==> has_key(old(self)@.nodes, index@),
            former matches Some(n) ==> n.wf() && n@ == old(self)@.node(index@) && final(self)@ == (
            GraphView {
                nodes: old(self)@.nodes.update(
                    key_index(old(self)@.nodes, index@),
                    (index@, node@),
                ),
                ..old(self)@
            }),
            former is None ==> final(self)@ == (GraphView {
                nodes: old(self)@.nodes.push((index@, node@)),
                ..old(self)@
            }),
    {
        proof {
            crate::assoc::lemma_keys_agree(self.nodes@, self@.nodes);
        }
        let ghost before = self.nodes@;
        let ghost k = index@;
        let former = self.nodes.insert(index, node);
        proof {
            let r = key_index(before, self.root@);
            if former is Some {
                let i = key_index(before, k);
                assert(i == key_index(old(self)@.nodes, k));
                assert(self@.nodes =~= old(self)@.nodes.update(i, (k, node@)));
                assert forall|j: int| 0 <= j < self.nodes@.len() implies (
                #[trigger] self.nodes@[j]).1.wf() by {
                    if j != i {
                        assert(before[j].1.wf());
                    }
                }
                assert(before[i].1.wf());
                assert(self.nodes@[r].0 == self.root@);
            } else {
                assert(self@.nodes =~= old(self)@.nodes.push((k, node@)));
                assert forall|j: int| 0 <= j < self.nodes@.len() implies (
                #[trigger] self.nodes@[j]).1.wf() by {
                    if j < before.len() {
                        assert(before[j].1.wf());
                    }
                }
                assert(self.nodes@[r].0 == self.root@);
            }
        }
        former
    }

    /// Takes the node `index` out, keeping the order of the rest; nothing
    /// happens when the graph has no such node. The root is never taken out.
    pub fn remove_node(&mut self, index: &str) -> (taken: Option<Node>)
        requires
            old(self).wf(),
            index@ != old(self)@.root,
        ensures
            final(self).wf(),
            taken is Some <==> has_key(old(self)@.nodes, index@),
            taken matches Some(n) ==> n.wf() && n@ == old(self)@.node(index@) && final(self)@ == (
            GraphView {
                nodes: old(self)@.nodes.remove(key_index(old(self)@.nodes, index@)),
                ..old(self)@
            }),
            taken is None ==> final(self)@ == old(self)@,
    {
        proof {
            crate::assoc::lemma_keys_agree(self.nodes@, self@.nodes);
        }
        let ghost before = self.nodes@;
        let taken = self.nodes.remove(index);
        proof {
            if taken is Some {
                let i = key_index(before, index@);
                assert(i == key_index(old(self)@.nodes, index@));
                assert(self@.nodes =~= old(self)@.nodes.remove(i));
                assert forall|j: int| 0 <= j < self.nodes@.len() implies (
                #[trigger] self.nodes@[j]).1.wf() by {
                    if j < i {
                        assert(before[j].1.wf());
                    } else {
                        assert(before[j + 1].1.wf());
                    }
                }
                assert(before[i].1.wf());
                let r = key_index(before, self.root@);
                assert(r != i);
                if r < i {
                    assert(self.nodes@[r].0 == self.root@);
                } else {
                    assert(self.nodes@[r - 1].0 == self.root@);
                }
            } else {
                assert(self@.nodes =~= old(self)@.nodes);
            }
        }
        taken
    }

    /// The identifiers of all nodes, in order.
    pub fn node_indices(&self) -> (ids: Vec<String>)
        requires
            self.wf(),
        ensures
            names_of(ids@) == crate::assoc::keys_of(self@.nodes),
    {
        let mut ids: Vec<String> = Vec::new();
        let n = self.len();
        let mut i: usize = 0;
        while i < n
            invariant
                self.wf(),
                n == self@.nodes.len(),
                i <= n,
                ids@.len() == i,
                forall|j: int| 0 <= j < i ==> ids@[j]@ == self@.nodes[j].0,
            decreases n - i,
        {
            ids.push(self.index_at(i).clone());
            i += 1;
        }
        assert(names_of(ids@) =~= crate::assoc::keys_of(self@.nodes));
        ids
    }

    /// Whether two lock files are the same: the same nodes in the same
    /// order, the same root and the same schema version.
    pub fn same_as(&self, other: &LockFile) -> (same: bool)
        requires
            self.wf(),
            other.wf(),
        ensures
            same == (self@ == other@),
    {
        if self.version != other.version || self.root != other.root {
            return false;
        }
        let n = self.len();
        if n != other.len() {
            return false;
        }
        let mut i: usize = 0;
        while i < n
            invariant
                self.wf(),
                other.wf(),
                n == self@.nodes.len(),
                n == other@.nodes.len(),
                i <= n,
                forall|j: int| 0 <= j < i ==> self@.nodes[j] == other@.nodes[j],
            decreases n - i,
        {
            if *self.index_at(i) != *other.index_at(i) || !self.node_at(i).same_as(
                other.node_at(i),
            ) {
                assert(self@.nodes[i as int] != other@.nodes[i as int]);
                return false;
            }
            i += 1;
        }
        assert(self@.nodes =~= other@.nodes);
        true
    }

    /// The node that `edge` leads to, `busy` being the inputs whose edges
    /// are being resolved already. After a failure `busy` begins as it did
    /// and holds what the resolution left.
    pub fn resolve_from(&self, edge: &NodeEdge, busy: &mut Vec<(String, String)>) -> (r: Result<
        String,
        GraphError,
    >)
        requires
            self.wf(),
        ensures
            named(r) == resolve(self@, edge@, pairs_of(old(busy)@)),
            r is Ok ==> pairs_of(final(busy)@) == pairs_of(old(busy)@),
            begins_with(pairs_of(final(busy)@), pairs_of(old(busy)@)),
        decreases idle(self@, pairs_of(old(busy)@)),
    {
        let ghost taken = pairs_of(busy@);
        match edge {
            NodeEdge::Indexed(id) => {
                if self.position(id.as_str()).is_some() {
                    Ok(id.clone())
                } else {
                    Err(GraphError::DanglingReference)
                }
            },
            NodeEdge::Follows(path) => {
                let mut cur: String = self.root.clone();
                let mut k: usize = 0;
                while k < path.len()
                    invariant
                        self.wf(),
                        k <= path.len(),
                        taken == pairs_of(old(busy)@),
                        pairs_of(busy@) == taken,
                        resolve(self@, edge@, taken) == follow(
                            self@,
                            cur@,
                            names_of(path@),
                            k as int,
                            taken,
                        ),
                    decreases path.len() - k,
                {
                    let ghost here = hop(self@, cur@, names_of(path@)[k as int], taken);
                    let node = match self.get_node(cur.as_str()) {
                        Some(node) => node,
                        None => {
                            return Err(GraphError::DanglingReference);
                        },
                    };
                    let next = match node.get_edge(path[k].as_str()) {
                        Some(next) => next,
                        None => {
                            return Err(GraphError::UnresolvableFollowsPath);
                        },
                    };
                    if contains_pair(busy, &cur, &path[k]) {
                        return Err(GraphError::FollowsCycle);
                    }
                    proof {
                        lemma_idle_push(self@, taken, cur@, path@[k as int]@);
                    }
                    busy.push((cur, path[k].clone()));
                    proof {
                        assert(pairs_of(busy@) =~= taken.push((cur@, path@[k as int]@)));
                    }
                    match self.resolve_from(next, busy) {
                        Ok(id) => {
                            assert(here == Ok::<Seq<char>, GraphError>(id@));
                            cur = id;
                        },
                        Err(e) => {
                            assert(here == Err::<Seq<char>, GraphError>(e));
                            return Err(e);
                        },
                    }
                    let ghost full = busy@;
                    busy.pop();
                    proof {
                        assert(pairs_of(full).len() == taken.len() + 1);
                        assert forall|j: int| 0 <= j < taken.len() implies pairs_of(busy@)[j]
                            == taken[j] by {
                            assert(pairs_of(full)[j] == taken[j]);
                        }
                        assert(pairs_of(busy@) =~= taken);
                    }
                    k += 1;
                }
                Ok(cur)
            },
        }
    }

    /// The node that `edge` leads to.
    ///
    /// An indexed edge leads to the node it names; `DanglingReference` where
    /// the graph has no such node. A follows-path is walked from the root,
    /// each name picking an input of the node reached so far, whose edge is
    /// resolved in its turn; `UnresolvableFollowsPath` where a node lacks the
    /// input named, and `FollowsCycle` where resolving the edge of an input
    /// comes back to that input.
    pub fn resolve_edge(&self, edge: &NodeEdge) -> (r: Result<String, GraphError>)
        requires
            self.wf(),
        ensures
            named(r) == resolve_edge(self@, edge@),
    {
        let mut busy: Vec<(String, String)> = Vec::new();
        proof {
            assert(pairs_of(busy@) =~= Seq::<(Seq<char>, Seq<char>)>::empty());
        }
        self.resolve_from(edge, &mut busy)
    }
}

/// The outcome of a resolution, with the identifier as its characters.
pub open spec fn named(r: Result<String, GraphError>) -> Result<Seq<char>, GraphError> {
    match r {
        Ok(id) => Ok(id@),
        Err(e) => Err(e),
    }
}

} // verus!
