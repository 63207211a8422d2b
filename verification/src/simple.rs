//! A second shape of the tree model: besides the flat parent reference, each
//! node embeds its children directly, and a depth-first search over that
//! embedded subtree finds a record by id.

use vstd::prelude::*;

verus! {

/// One tree element carrying its subtree: the flat parent reference of the
/// plain model, plus the node's children embedded in the record itself.
#[derive(Debug, PartialEq, Eq, Hash)]
pub struct Node {
    pub id: i32,
    pub parent_id: Option<i32>,
    pub name: String,
    pub children: Vec<Node>,
}

impl Clone for Node {
    /// A clone is the same record, embedded subtree included.
    fn clone(&self) -> (r: Self)
        ensures
            same_node(r, *self),
        decreases *self,
    {
        let n: usize = self.children.len();
        let mut children: Vec<Node> = Vec::new();
        let mut i: usize = 0;
        while i < n
            invariant
                i <= n,
                n == self.children@.len(),
                same_nodes(children@, self.children@.take(i as int)),
            decreases n - i,
        {
            proof {
                assert(decreases_to!(*self => self.children@[i as int]));
            }
            children.push(self.children[i].clone());
            proof {
                assert(self.children@.take(i as int + 1) =~= self.children@.take(i as int).push(
                    self.children@[i as int],
                ));
            }
            i += 1;
        }
        proof {
            assert(self.children@.take(n as int) =~= self.children@);
        }
        Node { id: self.id, parent_id: self.parent_id, name: self.name.clone(), children }
    }
}

/// A root node: one with no parent reference.
pub open spec fn is_root(n: Node) -> bool {
    n.parent_id is None
}

/// A node whose parent reference is `pid`.
pub open spec fn is_child_of(n: Node, pid: i32) -> bool {
    n.parent_id == Some(pid)
}

/// The subsequence of `s` with absent parent reference, in `s`'s order.
pub open spec fn roots_of(s: Seq<Node>) -> Seq<Node> {
    s.filter(|n: Node| is_root(n))
}

/// The subsequence of `s` whose parent reference equals `pid`, in `s`'s order.
pub open spec fn children_of(s: Seq<Node>, pid: i32) -> Seq<Node> {
    s.filter(|n: Node| is_child_of(n, pid))
}

/// Some node of `s` refers to `pid` as its parent.
pub open spec fn has_child_in(s: Seq<Node>, pid: i32) -> bool {
    exists|k: int| 0 <= k < s.len() && is_child_of(s[k], pid)
}

/// Field-for-field sameness of two records, embedded subtrees included.
/// (Two separately built `Vec`s are never spec-equal, so sameness of the
/// subtrees is stated element by element.)
pub open spec fn same_node(a: Node, b: Node) -> bool
    decreases a,
{
    &&& a.id == b.id
    &&& a.parent_id == b.parent_id
    &&& a.name == b.name
    &&& a.children@.len() == b.children@.len()
    &&& forall|i: int|
        0 <= i < a.children@.len() ==> same_node(#[trigger] a.children@[i], b.children@[i])
}

/// Element-for-element sameness of two sequences of records.
pub open spec fn same_nodes(a: Seq<Node>, b: Seq<Node>) -> bool {
    a.len() == b.len() && forall|i: int| 0 <= i < a.len() ==> same_node(#[trigger] a[i], b[i])
}

/// Every record is the same as itself.
pub proof fn lemma_same_node_refl(n: Node)
    ensures
        same_node(n, n),
    decreases n,
{
    assert forall|i: int| 0 <= i < n.children@.len() implies same_node(
        #[trigger] n.children@[i],
        n.children@[i],
    ) by {
        lemma_same_node_refl(n.children@[i]);
    }
}

/// The first record carrying `id` in a depth-first walk of `s`: each node's
/// own id is checked before its embedded subtree, and a node's subtree before
/// the nodes after it.
pub open spec fn find_in_nodes(s: Seq<Node>, id: i32) -> Option<Node>
    decreases s,
{
    if s.len() == 0 {
        None
    } else if s[0].id == id {
        Some(s[0])
    } else {
        match find_in_nodes(s[0].children@, id) {
            Some(m) => Some(m),
            None => find_in_nodes(s.drop_first(), id),
        }
    }
}

impl Node {
    /// Builds a record from its parts, with no children embedded yet.
    pub fn new(id: i32, parent_id: Option<i32>, name: &str) -> (r: Node)
        ensures
            r.id == id,
            r.parent_id == parent_id,
            r.name@ == name@,
            r.children@ == Seq::<Node>::empty(),
    {
        let children: Vec<Node> = Vec::new();
        proof {
            assert(children@ =~= Seq::<Node>::empty());
        }
        Node { id, parent_id, name: name.to_owned(), children }
    }

    /// True iff some node of `nodes` refers to this node as its parent.
    pub fn has_child(&self, nodes: &[Node]) -> (r: bool)
        ensures
            r == has_child_in(nodes@, self.id),
    {
        let n = nodes.len();
        let mut i: usize = 0;
        while i < n
            invariant
                i <= n,
                n == nodes@.len(),
                forall|k: int| 0 <= k < i ==> !is_child_of(nodes@[k], self.id),
            decreases n - i,
        {
            let hit = match nodes[i].parent_id {
                Some(p) => p == self.id,
                None => false,
            };
            if hit {
                return true;
            }
            i += 1;
        }
        false
    }

    /// Searches this node's embedded subtree, depth first, for the record
    /// carrying `id`; this node's own id is not considered.
    pub fn get_child_node(&self, id: i32) -> (r: Option<Node>)
        ensures
            (r is Some) == (find_in_nodes(self.children@, id) is Some),
            r is Some ==> same_node(r->0, find_in_nodes(self.children@, id)->0),
        decreases *self,
    {
        let n: usize = self.children.len();
        let mut i: usize = 0;
        proof {
            assert(self.children@.subrange(0, n as int) =~= self.children@);
        }
        while i < n
            invariant
                i <= n,
                n == self.children@.len(),
                find_in_nodes(self.children@, id) == find_in_nodes(
                    self.children@.subrange(i as int, n as int),
                    id,
                ),
            decreases n - i,
        {
            let child = &self.children[i];
            proof {
                assert(self.children@.subrange(i as int, n as int)[0] == self.children@[i as int]);
            }
            if child.id == id {
                return Some(child.clone());
            }
            proof {
                assert(decreases_to!(*self => self.children@[i as int]));
            }
            let sub = child.get_child_node(id);
            if let Some(m) = sub {
                return Some(m);
            }
            proof {
                assert(self.children@.subrange(i as int, n as int).drop_first()
                    =~= self.children@.subrange(i as int + 1, n as int));
            }
            i += 1;
        }
        proof {
            assert(self.children@.subrange(n as int, n as int) =~= Seq::<Node>::empty());
        }
        None
    }

    /// All nodes of `nodes` whose parent reference equals this node's id, in
    /// the list's order.
    pub fn get_immediate_children(&self, nodes: &[Node]) -> (r: Vec<Node>)
        ensures
            same_nodes(r@, children_of(nodes@, self.id)),
    {
        let n = nodes.len();
        let mut r: Vec<Node> = Vec::new();
        let mut i: usize = 0;
        while i < n
            invariant
                i <= n,
                n == nodes@.len(),
                same_nodes(r@, children_of(nodes@.take(i as int), self.id)),
            decreases n - i,
        {
            let hit = match nodes[i].parent_id {
                Some(p) => p == self.id,
                None => false,
            };
            if hit {
                r.push(nodes[i].clone());
            }
            proof {
                broadcast use Seq::lemma_filter_push;

                assert(nodes@.take(i as int + 1) =~= nodes@.take(i as int).push(
                    nodes@[i as int],
                ));
                assert(children_of(nodes@.take(i as int).push(nodes@[i as int]), self.id)
                    == children_of(nodes@.take(i as int + 1), self.id));
            }
            i += 1;
        }
        proof {
            assert(nodes@.take(n as int) =~= nodes@);
        }
        r
    }
}

/// The flat ordered collection of all nodes of one tree instance.
#[derive(Debug)]
pub struct NodeList {
    pub list: Vec<Node>,
}

impl Clone for NodeList {
    /// A clone holds the same records in the same order.
    fn clone(&self) -> (r: Self)
        ensures
            same_nodes(r.list@, self.list@),
    {
        let list = self.list.clone();
        proof {
            assert forall|i: int| 0 <= i < list@.len() implies same_node(
                #[trigger] list@[i],
                self.list@[i],
            ) by {
                if list@[i] == self.list@[i] {
                    lemma_same_node_refl(list@[i]);
                }
            }
        }
        NodeList { list }
    }
}

impl Default for NodeList {
    /// The empty list.
    fn default() -> (r: Self)
        ensures
            r.list@ == Seq::<Node>::empty(),
    {
        let list: Vec<Node> = Vec::new();
        proof {
            assert(list@ =~= Seq::<Node>::empty());
        }
        NodeList { list }
    }
}

impl NodeList {
    /// All nodes with absent parent reference, in the list's order.
    pub fn get_root_nodes(&self) -> (r: Vec<Node>)
        ensures
            same_nodes(r@, roots_of(self.list@)),
    {
        let n = self.list.len();
        let mut r: Vec<Node> = Vec::new();
        let mut i: usize = 0;
        while i < n
            invariant
                i <= n,
                n == self.list@.len(),
                same_nodes(r@, roots_of(self.list@.take(i as int))),
            decreases n - i,
        {
            let hit = match self.list[i].parent_id {
                Some(_) => false,
                None => true,
            };
            if hit {
                r.push(self.list[i].clone());
            }
            proof {
                broadcast use Seq::lemma_filter_push;

                assert(self.list@.take(i as int + 1) =~= self.list@.take(i as int).push(
                    self.list@[i as int],
                ));
                assert(roots_of(self.list@.take(i as int).push(self.list@[i as int])) == roots_of(
                    self.list@.take(i as int + 1),
                ));
            }
            i += 1;
        }
        proof {
            assert(self.list@.take(n as int) =~= self.list@);
        }
        r
    }
}

/// The shared tree state for this node shape.
#[derive(Debug)]
pub struct NodeState {
    pub nodes: NodeList,
}

impl Clone for NodeState {
    /// A clone holds the same records in the same order.
    fn clone(&self) -> (r: Self)
        ensures
            same_nodes(r.nodes.list@, self.nodes.list@),
    {
        NodeState { nodes: self.nodes.clone() }
    }
}

impl Default for NodeState {
    /// The empty state.
    fn default() -> (r: Self)
        ensures
            r.nodes.list@ == Seq::<Node>::empty(),
    {
        NodeState { nodes: NodeList::default() }
    }
}

} // verus!
