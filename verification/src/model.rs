//! The flat parent-pointer tree model. A node refers to its parent by id;
//! roots and immediate children are derived by scanning the list, never
//! stored.

use vstd::prelude::*;

verus! {

/// One tree element. A node `b` is a child of a node `a` iff
/// `b.parent_id == Some(a.id)`; no child list is stored.
#[derive(Debug, PartialEq, Eq, Hash)]
pub struct Node {
    pub id: i32,
    pub parent_id: Option<i32>,
    pub name: String,
}

impl Clone for Node {
    /// A clone is the same record.
    fn clone(&self) -> (r: Self)
        ensures
            r == *self,
    {
        Node { id: self.id, parent_id: self.parent_id, name: self.name.clone() }
    }
}

/// A root node: one with no parent reference.
pub open spec fn is_root(n: Node) -> bool {
    n.parent_id is None
}

/// A node whose parent reference is `pid`.
pub open spec fn is_child_of(n: Node, pid: i32) -> bool {
    n.parent_id == Some(pid)
}

/// The subsequence of `s` with absent parent reference, in `s`'s order.
pub open spec fn roots_of(s: Seq<Node>) -> Seq<Node> {
    s.filter(|n: Node| is_root(n))
}

/// The subsequence of `s` whose parent reference equals `pid`, in `s`'s order.
pub open spec fn children_of(s: Seq<Node>, pid: i32) -> Seq<Node> {
    s.filter(|n: Node| is_child_of(n, pid))
}

/// Some node of `s` refers to `pid` as its parent.
pub open spec fn has_child_in(s: Seq<Node>, pid: i32) -> bool {
    exists|k: int| 0 <= k < s.len() && is_child_of(s[k], pid)
}

/// Some node of `s` carries the id `id`.
pub open spec fn contains_id(s: Seq<Node>, id: i32) -> bool {
    exists|k: int| 0 <= k < s.len() && s[k].id == id
}

/// No two nodes of `s` share an id.
pub open spec fn unique_ids(s: Seq<Node>) -> bool {
    forall|k: int, l: int| 0 <= k < s.len() && 0 <= l < s.len() && k != l ==> s[k].id != s[l].id
}

/// The position of the first node of `s` whose id is `id`, or -1 when none
/// carries it.
pub open spec fn first_index_of(s: Seq<Node>, id: i32) -> int
    decreases s.len(),
{
    if s.len() == 0 {
        -1
    } else if s[0].id == id {
        0
    } else {
        let r = first_index_of(s.subrange(1, s.len() as int), id);
        if r < 0 {
            -1
        } else {
            r + 1
        }
    }
}

/// `first_index_of` finds exactly the first occurrence: it is in range and
/// carries `id`, nothing before it does, and it is -1 iff `id` is absent.
pub proof fn lemma_first_index_of(s: Seq<Node>, id: i32)
    ensures
        contains_id(s, id) <==> first_index_of(s, id) >= 0,
        first_index_of(s, id) >= 0 ==> first_index_of(s, id) < s.len() && s[first_index_of(
            s,
            id,
        )].id == id,
        forall|k: int| 0 <= k < first_index_of(s, id) ==> s[k].id != id,
    decreases s.len(),
{
    if s.len() == 0 {
    } else if s[0].id == id {
    } else {
        let rest = s.subrange(1, s.len() as int);
        lemma_first_index_of(rest, id);
        assert forall|k: int| 0 <= k < s.len() && s[k].id == id implies first_index_of(s, id)
            >= 0 by {
            if k > 0 {
                assert(rest[k - 1].id == id);
            }
        }
        assert forall|k: int| 0 <= k < first_index_of(s, id) implies s[k].id != id by {
            if k > 0 {
                assert(s[k] == rest[k - 1]);
            }
        }
    }
}

impl Node {
    /// Builds a record from its parts.
    pub fn new(id: i32, parent_id: Option<i32>, name: &str) -> (r: Node)
        ensures
            r.id == id,
            r.parent_id == parent_id,
            r.name@ == name@,
    {
        Node { id, parent_id, name: name.to_owned() }
    }

    /// True iff some node of `nodes` refers to this node as its parent.
    pub fn has_child(&self, nodes: &[Node]) -> (r: bool)
        ensures
            r == has_child_in(nodes@, self.id),
    {
        let n = nodes.len();
        let mut i: usize = 0;
        while i < n
            invariant
                i <= n,
                n == nodes@.len(),
                forall|k: int| 0 <= k < i ==> !is_child_of(nodes@[k], self.id),
            decreases n - i,
        {
            let hit = match nodes[i].parent_id {
                Some(p) => p == self.id,
                None => false,
            };
            if hit {
                return true;
            }
            i += 1;
        }
        false
    }

    /// All nodes of `nodes` whose parent reference equals this node's id, in
    /// the list's order.
    pub fn get_immediate_children(&self, nodes: &[Node]) -> (r: Vec<Node>)
        ensures
            r@ == children_of(nodes@, self.id),
    {
        let n = nodes.len();
        let mut r: Vec<Node> = Vec::new();
        let mut i: usize = 0;
        while i < n
            invariant
                i <= n,
                n == nodes@.len(),
                r@ == children_of(nodes@.take(i as int), self.id),
            decreases n - i,
        {
            let hit = match nodes[i].parent_id {
                Some(p) => p == self.id,
                None => false,
            };
            if hit {
                r.push(nodes[i].clone());
            }
            proof {
                broadcast use Seq::lemma_filter_push;

                assert(nodes@.take(i as int + 1) =~= nodes@.take(i as int).push(
                    nodes@[i as int],
                ));
                assert(children_of(nodes@.take(i as int).push(nodes@[i as int]), self.id)
                    == children_of(nodes@.take(i as int + 1), self.id));
            }
            i += 1;
        }
        proof {
            assert(nodes@.take(n as int) =~= nodes@);
        }
        r
    }
}

/// The flat ordered collection of all nodes of one tree instance.
#[derive(Debug)]
pub struct NodeList {
    pub list: Vec<Node>,
}

impl Clone for NodeList {
    /// A clone holds the same records in the same order.
    fn clone(&self) -> (r: Self)
        ensures
            r.list@ == self.list@,
    {
        let list = self.list.clone();
        proof {
            assert(list@ =~= self.list@);
        }
        NodeList { list }
    }
}

impl Default for NodeList {
    /// The empty list.
    fn default() -> (r: Self)
        ensures
            r.list@ == Seq::<Node>::empty(),
    {
        let list: Vec<Node> = Vec::new();
        proof {
            assert(list@ =~= Seq::<Node>::empty());
        }
        NodeList { list }
    }
}

impl NodeList {
    /// All nodes with absent parent reference, in the list's order.
    pub fn get_root_nodes(&self) -> (r: Vec<Node>)
        ensures
            r@ == roots_of(self.list@),
    {
        let n = self.list.len();
        let mut r: Vec<Node> = Vec::new();
        let mut i: usize = 0;
        while i < n
            invariant
                i <= n,
                n == self.list@.len(),
                r@ == roots_of(self.list@.take(i as int)),
            decreases n - i,
        {
            let hit = match self.list[i].parent_id {
                Some(_) => false,
                None => true,
            };
            if hit {
                r.push(self.list[i].clone());
            }
            proof {
                broadcast use Seq::lemma_filter_push;

                assert(self.list@.take(i as int + 1) =~= self.list@.take(i as int).push(
                    self.list@[i as int],
                ));
                assert(roots_of(self.list@.take(i as int).push(self.list@[i as int])) == roots_of(
                    self.list@.take(i as int + 1),
                ));
            }
            i += 1;
        }
        proof {
            assert(self.list@.take(n as int) =~= self.list@);
        }
        r
    }
}

/// The shared tree state: the one mutable list of all nodes. The reactive
/// wrapper that re-renders the UI on change lives outside the library; here
/// the state is the plain list itself.
#[derive(Debug)]
pub struct NodeState {
    pub nodes: Vec<Node>,
}

impl Clone for NodeState {
    /// A clone holds the same records in the same order.
    fn clone(&self) -> (r: Self)
        ensures
            r.nodes@ == self.nodes@,
    {
        let nodes = self.nodes.clone();
        proof {
            assert(nodes@ =~= self.nodes@);
        }
        NodeState { nodes }
    }
}

impl Default for NodeState {
    /// The empty state.
    fn default() -> (r: Self)
        ensures
            r.nodes@ == Seq::<Node>::empty(),
    {
        let nodes: Vec<Node> = Vec::new();
        proof {
            assert(nodes@ =~= Seq::<Node>::empty());
        }
        NodeState { nodes }
    }
}

/// The immediate children of `pid` are exactly the members of `s` whose
/// parent reference is `pid`, in `s`'s relative order: every entry of
/// `children_of` satisfies the predicate, every matching member of `s`
/// appears in it, and it never grows past `s`.
pub proof fn lemma_children_of_exact(s: Seq<Node>, pid: i32)
    ensures
        forall|i: int|
            0 <= i < children_of(s, pid).len() ==> is_child_of(
                #[trigger] children_of(s, pid)[i],
                pid,
            ),
        forall|i: int|
            0 <= i < s.len() && is_child_of(s[i], pid) ==> children_of(s, pid).contains(s[i]),
        children_of(s, pid).len() <= s.len(),
{
    broadcast use vstd::seq_lib::group_filter_ensures;

    assert(children_of(s, pid) == s.filter(|n: Node| is_child_of(n, pid)));
}

/// The root nodes are exactly the members of `s` with absent parent
/// reference, in `s`'s relative order.
pub proof fn lemma_roots_of_exact(s: Seq<Node>)
    ensures
        forall|i: int| 0 <= i < roots_of(s).len() ==> is_root(#[trigger] roots_of(s)[i]),
        forall|i: int| 0 <= i < s.len() && is_root(s[i]) ==> roots_of(s).contains(s[i]),
        roots_of(s).len() <= s.len(),
{
    broadcast use vstd::seq_lib::group_filter_ensures;

    assert(roots_of(s) == s.filter(|n: Node| is_root(n)));
}

/// The index reached from `i` after walking `k` steps up the parent chain,
/// each step moving to the (first) node the parent reference resolves to;
/// nothing when a step has no parent or does not resolve.
pub open spec fn chain_up(s: Seq<Node>, i: int, k: nat) -> Option<int>
    decreases k,
{
    if k == 0 {
        Some(i)
    } else if 0 <= i < s.len() {
        match s[i].parent_id {
            Some(p) => if contains_id(s, p) {
                chain_up(s, first_index_of(s, p), (k - 1) as nat)
            } else {
                None
            },
            None => None,
        }
    } else {
        None
    }
}

/// The node at `i` lies in the subtree under the node at `rt`: repeatedly
/// expanding immediate children from `rt` reaches it. Since a child's parent
/// reference points back at its parent, that is the same as following parent
/// references upward from `i` and arriving at `rt`.
pub open spec fn in_subtree(s: Seq<Node>, rt: int, i: int) -> bool {
    exists|k: nat| chain_up(s, i, k) == Some(rt)
}

/// The number of steps from `i` up the parent chain to a root, when one is
/// reached within `fuel` steps.
pub open spec fn steps_to_root(s: Seq<Node>, i: int, fuel: nat) -> Option<nat>
    decreases fuel,
{
    if !(0 <= i < s.len()) {
        None
    } else {
        match s[i].parent_id {
            None => Some(0),
            Some(p) => {
                if fuel == 0 || !contains_id(s, p) {
                    None
                } else {
                    match steps_to_root(s, first_index_of(s, p), (fuel - 1) as nat) {
                        Some(d) => Some((d + 1) as nat),
                        None => None,
                    }
                }
            },
        }
    }
}

/// A well-formed list: no two nodes share an id, and every parent chain
/// reaches a root — so every parent reference resolves and no chain cycles.
pub open spec fn well_formed(s: Seq<Node>) -> bool {
    &&& unique_ids(s)
    &&& forall|i: int| 0 <= i < s.len() ==> steps_to_root(s, i, s.len() as nat) is Some
}

/// One upward step is exactly the immediate-children relation: walking one
/// step up from `i` lands on `q` iff the node at `i` is one of the immediate
/// children of the node at `q`.
pub proof fn lemma_one_step_is_child(s: Seq<Node>, q: int, i: int)
    requires
        unique_ids(s),
        0 <= i < s.len(),
        0 <= q < s.len(),
    ensures
        chain_up(s, i, 1) == Some(q) <==> is_child_of(s[i], s[q].id),
{
    match s[i].parent_id {
        Some(p) => {
            lemma_first_index_of(s, p);
            if s[q].id == p {
                assert(contains_id(s, p)) by {
                    assert(s[q].id == p);
                }
            }
            if contains_id(s, p) {
                let f = first_index_of(s, p);
                assert(chain_up(s, f, 0) == Some(f));
                assert(chain_up(s, i, 1) == Some(f));
                if f != q && s[q].id == p {
                    assert(s[f].id == s[q].id);
                    assert(false);
                }
            } else {
                assert(forall|k: int| 0 <= k < s.len() ==> s[k].id != p);
                assert(!is_child_of(s[i], s[q].id));
            }
        },
        None => {},
    }
}

proof fn lemma_chain_reaches_root(s: Seq<Node>, i: int, fuel: nat)
    requires
        steps_to_root(s, i, fuel) is Some,
    ensures
        ({
            let d = steps_to_root(s, i, fuel)->0;
            exists|rt: int| 0 <= rt < s.len() && is_root(s[rt]) && chain_up(s, i, d as nat)
                == Some(rt)
        }),
    decreases fuel,
{
    let d = steps_to_root(s, i, fuel)->0;
    match s[i].parent_id {
        None => {
            assert(chain_up(s, i, 0) == Some(i));
        },
        Some(p) => {
            let j = first_index_of(s, p);
            lemma_chain_reaches_root(s, j, (fuel - 1) as nat);
            let d1 = steps_to_root(s, j, (fuel - 1) as nat)->0;
            let rt = choose|rt: int|
                0 <= rt < s.len() && is_root(s[rt]) && chain_up(s, j, d1 as nat) == Some(rt);
            assert(chain_up(s, i, d as nat) == chain_up(s, j, d1 as nat));
        },
    }
}

/// In a well-formed list every node lies in the subtree of some root node:
/// the reachable descendants of the roots together cover the whole list.
pub proof fn lemma_root_subtrees_cover(s: Seq<Node>, i: int)
    requires
        well_formed(s),
        0 <= i < s.len(),
    ensures
        exists|rt: int| 0 <= rt < s.len() && is_root(s[rt]) && in_subtree(s, rt, i),
{
    lemma_chain_reaches_root(s, i, s.len() as nat);
    let d = steps_to_root(s, i, s.len() as nat)->0;
    let rt = choose|rt: int|
        0 <= rt < s.len() && is_root(s[rt]) && chain_up(s, i, d as nat) == Some(rt);
    assert(in_subtree(s, rt, i)) by {
        assert(chain_up(s, i, d as nat) == Some(rt));
    }
}

/// A node that no member of `s` refers to as its parent has no immediate
/// children at all.
pub proof fn lemma_no_child_no_children(s: Seq<Node>, pid: i32)
    requires
        !has_child_in(s, pid),
    ensures
        children_of(s, pid) == Seq::<Node>::empty(),
    decreases s.len(),
{
    reveal(Seq::filter);
    if s.len() == 0 {
        assert(children_of(s, pid) =~= Seq::<Node>::empty());
    } else {
        assert(forall|k: int|
            0 <= k < s.drop_last().len() ==> !is_child_of(#[trigger] s.drop_last()[k], pid));
        lemma_no_child_no_children(s.drop_last(), pid);
        assert(!is_child_of(s.last(), pid));
        assert(children_of(s, pid) =~= Seq::<Node>::empty());
    }
}

} // verus!

