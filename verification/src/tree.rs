use vstd::prelude::*;

verus! {

/// The mathematical shape of the graph below one node: its label and the
/// shapes of its successors, in successor order.
///
/// A value of this type is the view of an executable node.  The type is
/// inductive, so every node that has a view is the root of a finite walk;
/// that is what lets the layout walk terminate.
pub struct Tree {
    pub label: Seq<char>,
    pub kids: Seq<Tree>,
}

/// One visited node of the walk: the row it lands in (the depth of the
/// visit) and its label.
pub struct Step {
    pub y: nat,
    pub label: Seq<char>,
}

/// What a drawable node offers: a text label and an ordered sequence of
/// successor nodes.  `tree` is the node's mathematical view, and `label`
/// and `next` must agree with it.
pub trait Graph: Sized {
    spec fn tree(&self) -> Tree;

    fn label(&self) -> (s: String)
        ensures
            s@ == self.tree().label,
    ;

    fn next(&self) -> (kids: Vec<Self>)
        ensures
            kids@.len() == self.tree().kids.len(),
            forall|i: int|
                0 <= i < kids@.len() ==> (#[trigger] kids@[i]).tree() == self.tree().kids[i],
    ;
}

/// The depth-first visit order of the walk rooted at `t`, whose own row is
/// `d`: the node itself first, then the subtree of each successor, the
/// last-listed successor first (the work list is last-in-first-out).
pub open spec fn visit(t: Tree, d: nat) -> Seq<Step>
    decreases t, 0int,
{
    seq![Step { y: d, label: t.label }] + visit_list(t.kids, t.kids.len() as int, (d + 1) as nat)
}

/// The visits of the first `n` trees of `ks`, each rooted at row `d`, in
/// reverse order: the subtree of `ks[n-1]` first, then `ks[n-2]`, and so on.
pub open spec fn visit_list(ks: Seq<Tree>, n: int, d: nat) -> Seq<Step>
    decreases ks, n,
{
    if n <= 0 || n > ks.len() {
        Seq::empty()
    } else {
        visit(ks[n - 1], d) + visit_list(ks, n - 1, d)
    }
}

pub open spec fn nat_max(a: nat, b: nat) -> nat {
    if a >= b {
        a
    } else {
        b
    }
}

/// The number of rows the tree occupies: the greatest depth of any node
/// reachable from `t`, plus one.
pub open spec fn height(t: Tree) -> nat
    decreases t, 0int,
{
    1 + height_list(t.kids, t.kids.len() as int)
}

/// The greatest height among the first `n` trees of `ks`; zero when there
/// are none.
pub open spec fn height_list(ks: Seq<Tree>, n: int) -> nat
    decreases ks, n,
{
    if n <= 0 || n > ks.len() {
        0
    } else {
        nat_max(height(ks[n - 1]), height_list(ks, n - 1))
    }
}

/// Every node that sits `r` levels below `t` has no successors.
pub open spec fn all_leaves_at(t: Tree, r: nat) -> bool
    decreases r,
{
    if r == 0 {
        t.kids.len() == 0
    } else {
        forall|i: int|
            0 <= i < t.kids.len() ==> all_leaves_at(#[trigger] t.kids[i], (r - 1) as nat)
    }
}

/// A ready-made drawable node: it owns its label text and its successors.
pub struct Node {
    pub text: String,
    pub kids: Vec<Node>,
}

/// The views of the first `n` nodes of `ns`, in order.
pub open spec fn subtrees(ns: Seq<Node>, n: int) -> Seq<Tree>
    decreases ns, n,
{
    if n <= 0 || n > ns.len() {
        Seq::empty()
    } else {
        subtrees(ns, n - 1).push(ns[n - 1].tree())
    }
}

/// `subtrees(ns, n)` holds exactly the views of `ns[0]` through `ns[n-1]`.
pub proof fn lemma_subtrees(ns: Seq<Node>, n: int)
    requires
        0 <= n <= ns.len(),
    ensures
        subtrees(ns, n).len() == n,
        forall|i: int| 0 <= i < n ==> subtrees(ns, n)[i] == ns[i].tree(),
    decreases n,
{
    if n > 0 {
        lemma_subtrees(ns, n - 1);
        assert(subtrees(ns, n) == subtrees(ns, n - 1).push(ns[n - 1].tree()));
        assert forall|i: int| 0 <= i < n implies subtrees(ns, n)[i] == ns[i].tree() by {
            if i < n - 1 {
                assert(subtrees(ns, n)[i] == subtrees(ns, n - 1)[i]);
            }
        }
    }
}

impl Clone for Node {
    /// A deep copy; the copy has the same view as the node it copies.
    fn clone(&self) -> (res: Node)
        ensures
            res.tree() == self.tree(),
        decreases self,
    {
        let mut kids: Vec<Node> = Vec::new();
        let mut i: usize = 0;
        while i < self.kids.len()
            invariant
                i <= self.kids@.len(),
                kids@.len() == i,
                forall|j: int|
                    0 <= j < i ==> (#[trigger] kids@[j]).tree() == self.kids@[j].tree(),
            decreases self.kids@.len() - i,
        {
            kids.push(self.kids[i].clone());
            i = i + 1;
        }
        let res = Node { text: self.text.clone(), kids };
        proof {
            lemma_subtrees(res.kids@, res.kids@.len() as int);
            lemma_subtrees(self.kids@, self.kids@.len() as int);
            assert(res.tree().kids =~= self.tree().kids);
        }
        res
    }
}

impl Graph for Node {
    open spec fn tree(&self) -> Tree
        decreases self, 0int,
    {
        Tree { label: self.text@, kids: subtrees(self.kids@, self.kids@.len() as int) }
    }

    fn label(&self) -> (s: String) {
        self.text.clone()
    }

    fn next(&self) -> (kids: Vec<Node>) {
        let mut kids: Vec<Node> = Vec::new();
        let mut i: usize = 0;
        while i < self.kids.len()
            invariant
                i <= self.kids@.len(),
                kids@.len() == i,
                forall|j: int|
                    0 <= j < i ==> (#[trigger] kids@[j]).tree() == self.kids@[j].tree(),
            decreases self.kids@.len() - i,
        {
            kids.push(self.kids[i].clone());
            i = i + 1;
        }
        proof {
            lemma_subtrees(self.kids@, self.kids@.len() as int);
        }
        kids
    }
}

} // verus!
