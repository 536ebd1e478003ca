//! A directory tree of named, sized nodes.  A directory is a node of size
//! zero; a node's total is its own size plus the totals of all nodes
//! below it.  Parent navigation is left to the builder of the tree, so a
//! node owns its children outright.

use vstd::prelude::*;

verus! {

/// One file or directory: files carry their size, directories have size
/// zero and carry children.
pub struct Node {
    pub name: String,
    pub size: usize,
    pub children: Vec<Node>,
}

/// The total size of a node: its own plus everything below it.
pub open spec fn node_total(n: Node) -> nat
    decreases n, 0int,
{
    (n.size + children_total_from(n.children@, 0)) as nat
}

/// The combined totals of the children from index `i` on.
pub open spec fn children_total_from(s: Seq<Node>, i: int) -> nat
    decreases s, s.len() - i,
{
    if i < 0 || i >= s.len() {
        0
    } else {
        node_total(s[i]) + children_total_from(s, i + 1)
    }
}

/// The totals that a traversal reports: the node's own total, followed by
/// the reported totals of its directory children, in order.
pub open spec fn visit_totals(n: Node) -> Seq<nat>
    decreases n, 0int,
{
    seq![node_total(n)] + visit_children_from(n.children@, 0)
}

/// The reported totals of the directory children from index `i` on.
pub open spec fn visit_children_from(s: Seq<Node>, i: int) -> Seq<nat>
    decreases s, s.len() - i,
{
    if i < 0 || i >= s.len() {
        Seq::empty()
    } else {
        (if s[i].size == 0 {
            visit_totals(s[i])
        } else {
            Seq::empty()
        }) + visit_children_from(s, i + 1)
    }
}

impl Node {
    /// A fresh leaf node with no children yet.
    pub fn new(name: &str, size: usize) -> (n: Node)
        ensures
            n.name@ == name@,
            n.size == size,
            n.children@.len() == 0,
    {
        Node { name: name.to_owned(), size, children: Vec::new() }
    }

    /// Appends a child below this node.
    pub fn add_child(&mut self, new_node: Node)
        ensures
            final(self).name == old(self).name,
            final(self).size == old(self).size,
            final(self).children@ == old(self).children@.push(new_node),
    {
        self.children.push(new_node);
    }

    /// The total size of this node and everything below it.
    #[verifier::loop_isolation(false)]
    pub fn sum(&self) -> (r: usize)
        requires
            node_total(*self) <= usize::MAX,
        ensures
            r == node_total(*self),
        decreases *self,
    {
        let mut sum: usize = self.size;
        let mut i: usize = 0;
        while i < self.children.len()
            invariant
                i <= self.children@.len(),
                sum + children_total_from(self.children@, i as int) == node_total(*self),
            decreases self.children@.len() - i,
        {
            let child = &self.children[i];
            proof {
                assert(children_total_from(self.children@, i as int) == node_total(
                    self.children@[i as int],
                ) + children_total_from(self.children@, i + 1));
            }
            sum = sum + child.sum();
            i = i + 1;
        }
        sum
    }

    /// Whether this node is a directory: exactly the nodes of size zero.
    pub fn is_dir(&self) -> (b: bool)
        ensures
            b == (self.size == 0),
    {
        self.size == 0
    }

    /// Reports this node's total and, below it, the totals of every
    /// directory in the subtree, appending them to `acc` in visit order.
    #[verifier::loop_isolation(false)]
    pub fn visit(&self, acc: &mut Vec<usize>)
        requires
            node_total(*self) <= usize::MAX,
        ensures
            final(acc)@.len() == old(acc)@.len() + visit_totals(*self).len(),
            forall|k: int|
                0 <= k < old(acc)@.len() ==> final(acc)@[k] == old(acc)@[k],
            forall|k: int|
                0 <= k < visit_totals(*self).len() ==> final(acc)@[old(acc)@.len() + k]
                    == visit_totals(*self)[k],
        decreases *self,
    {
        let own = self.sum();
        acc.push(own);
        let ghost base = old(acc)@.push(own);
        let ghost s = self.children@;
        let ghost full = visit_children_from(s, 0);
        let mut i: usize = 0;
        while i < self.children.len()
            invariant
                i <= s.len(),
                visit_children_from(s, i as int).len() <= full.len(),
                acc@.len() - base.len() == full.len() - visit_children_from(s, i as int).len(),
                forall|k: int| 0 <= k < base.len() ==> acc@[k] == base[k],
                forall|k: int|
                    0 <= k < acc@.len() - base.len() ==> acc@[base.len() + k] == full[k],
                forall|k: int|
                    0 <= k < visit_children_from(s, i as int).len()
                        ==> visit_children_from(s, i as int)[k] == full[acc@.len() - base.len()
                        + k],
            decreases s.len() - i,
        {
            let ghost emitted = acc@.len() - base.len();
            let child = &self.children[i];
            proof {
                lemma_visit_children_decompose(s, i as int);
                assert(children_total_from(s, i as int) == node_total(s[i as int])
                    + children_total_from(s, i + 1));
                assert(node_total(*self) == self.size + children_total_from(s, 0));
                lemma_children_total_prefix(s, 0, i as int);
            }
            if child.is_dir() {
                let ghost before = acc@;
                child.visit(acc);
                proof {
                    let vt = visit_totals(s[i as int]);
                    assert(visit_children_from(s, i as int) == vt + visit_children_from(
                        s,
                        i + 1,
                    ));
                    assert forall|k: int| 0 <= k < acc@.len() - base.len() implies acc@[base.len()
                        + k] == full[k] by {
                        if k < emitted {
                            assert(acc@[base.len() + k] == before[base.len() + k]);
                        } else {
                            assert(acc@[base.len() + k] == vt[k - emitted]);
                            assert(vt[k - emitted] == visit_children_from(s, i as int)[k
                                - emitted]);
                        }
                    }
                    assert forall|k: int| 0 <= k < visit_children_from(s, i + 1).len() implies #[trigger] visit_children_from(
                        s,
                        i + 1,
                    )[k] == full[acc@.len() - base.len() + k] by {
                        assert(visit_children_from(s, i + 1)[k] == visit_children_from(
                            s,
                            i as int,
                        )[vt.len() + k]);
                    }
                }
            } else {
                proof {
                    assert(visit_children_from(s, i as int) == visit_children_from(s, i + 1));
                }
            }
            i = i + 1;
        }
        proof {
            assert(visit_children_from(s, s.len() as int).len() == 0);
            assert(visit_totals(*self) == seq![node_total(*self)] + full);
            assert forall|k: int| 0 <= k < old(acc)@.len() implies acc@[k] == old(acc)@[k] by {
                assert(acc@[k] == base[k]);
                assert(base[k] == old(acc)@[k]);
            }
            assert forall|k: int| 0 <= k < visit_totals(*self).len() implies acc@[old(acc)@.len()
                + k] == visit_totals(*self)[k] by {
                if k == 0 {
                    assert(acc@[base.len() - 1] == base[base.len() - 1]);
                } else {
                    assert(acc@[base.len() + (k - 1)] == full[k - 1]);
                }
            }
        }
    }
}

/// The reported totals from `i` on are the directory child's own report
/// followed by the reports from `i + 1` on.
proof fn lemma_visit_children_decompose(s: Seq<Node>, i: int)
    requires
        0 <= i < s.len(),
    ensures
        visit_children_from(s, i) == (if s[i].size == 0 {
            visit_totals(s[i])
        } else {
            Seq::<nat>::empty()
        }) + visit_children_from(s, i + 1),
{
}

/// The total of any one child is no more than the combined total of a
/// range that contains it.
proof fn lemma_children_total_prefix(s: Seq<Node>, j: int, i: int)
    requires
        0 <= j <= i < s.len(),
    ensures
        node_total(s[i]) <= children_total_from(s, j),
    decreases i - j,
{
    if j < i {
        lemma_children_total_prefix(s, j + 1, i);
    }
}

} // verus!
