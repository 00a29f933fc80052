use vstd::prelude::*;

verus! {

/// One node of the tree. Links are indices into the arena of a [`BstTree`].
#[derive(Clone, Copy, Debug)]
pub struct BstNode {
    pub key: Option<i32>,
    pub parent: Option<usize>,
    pub left: Option<usize>,
    pub right: Option<usize>,
}

/// An arena of nodes and the root of the tree built from some of them.
///
/// Ghost state describes the tree: `order` lists the nodes of the tree in
/// order, `pos[i]` is the place of node `i` in it, and node `i`'s subtree
/// occupies exactly the places `lo[i] .. hi[i]`.
pub struct BstTree {
    nodes: Vec<BstNode>,
    root: Option<usize>,
    order: Ghost<Seq<usize>>,
    pos: Ghost<Seq<int>>,
    lo: Ghost<Seq<int>>,
    hi: Ghost<Seq<int>>,
}

impl BstTree {
    /// The nodes of the arena, indexed by handle.
    pub closed spec fn nodes(&self) -> Seq<BstNode> {
        self.nodes@
    }

    /// The handle of the root, if the tree is not empty.
    pub closed spec fn root_spec(&self) -> Option<usize> {
        self.root
    }

    /// The handles of the nodes of the tree, in order.
    pub closed spec fn order(&self) -> Seq<usize> {
        self.order@
    }

    /// The place of node `i` in `order()`.
    pub closed spec fn pos(&self, i: usize) -> int {
        self.pos@[i as int]
    }

    /// The key held by node `i` (nodes of the tree always hold one).
    pub open spec fn key(&self, i: usize) -> int {
        match self.nodes()[i as int].key {
            Some(k) => k as int,
            None => 0,
        }
    }

    /// The keys of the tree, in order.
    pub open spec fn inorder(&self) -> Seq<int> {
        self.order().map_values(|i: usize| self.key(i))
    }

    /// The node that follows node `i` in order, if any.
    pub open spec fn next_in_order(&self, i: usize) -> Option<usize> {
        let p = self.pos(i);
        if p + 1 < self.order().len() {
            Some(self.order()[p + 1])
        } else {
            None
        }
    }

    /// `r` is what a search for `v` below `node` gives: the first node of
    /// that subtree, in order, holding `v`, or nothing when no node there
    /// holds it. Since left subtrees hold only smaller keys, the first such
    /// node in order is the first one met on the way down from `node`.
    pub open spec fn search_result(&self, node: usize, v: int, r: Option<usize>) -> bool {
        match r {
            Some(x) => self.in_tree(x) && self.key(x) == v && exists|j: int|
                0 <= j < self.subtree(node).len() && self.subtree(node)[j] == x
                && forall|j2: int| 0 <= j2 < j ==> #[trigger] self.key(self.subtree(node)[j2]) != v,
            None => forall|x: usize| #[trigger] self.subtree(node).contains(x) ==> self.key(x) != v,
        }
    }

    /// Node `z` is in the arena but not in the tree, holds a key and has no
    /// children: it may be inserted.
    pub open spec fn is_fresh(&self, z: usize) -> bool {
        &&& (z as int) < self.nodes().len()
        &&& !self.in_tree(z)
        &&& self.nodes()[z as int].key is Some
        &&& self.nodes()[z as int].left is None
        &&& self.nodes()[z as int].right is None
    }

    /// Inserting key `v` at place `q` of `order()` keeps the keys in order,
    /// with `v` after every key equal to it.
    pub open spec fn insert_place(&self, q: int, v: int) -> bool {
        &&& 0 <= q <= self.order().len()
        &&& forall|k: int| 0 <= k < q ==> #[trigger] self.key(self.order()[k]) <= v
        &&& forall|k: int| q <= k < self.order().len() ==> v < #[trigger] self.key(self.order()[k])
    }

    /// Node `i` is part of the tree.
    pub closed spec fn in_tree(&self, i: usize) -> bool {
        &&& (i as int) < self.nodes@.len()
        &&& 0 <= self.pos@[i as int] < self.order@.len()
        &&& self.order@[self.pos@[i as int]] == i
    }

    /// The nodes of the subtree rooted at `i`, in order.
    pub closed spec fn subtree(&self, i: usize) -> Seq<usize> {
        self.order@.subrange(self.lo@[i as int], self.hi@[i as int])
    }

    /// The local conditions on a node of the tree: it holds a key, its
    /// children and parent are nodes of the tree linked back to it, and the
    /// places of its subtrees fit around its own place.
    closed spec fn node_ok(&self, i: usize) -> bool {
        let n = self.nodes@[i as int];
        let p = self.pos@[i as int];
        let lo = self.lo@[i as int];
        let hi = self.hi@[i as int];
        &&& n.key is Some
        &&& 0 <= lo <= p < hi <= self.order@.len()
        &&& n.left is Some ==> self.key(self.order@[p - 1]) < self.key(i)
        &&& match n.left {
            Some(c) => self.in_tree(c) && self.nodes@[c as int].parent == Some(i)
                && self.lo@[c as int] == lo && self.hi@[c as int] == p,
            None => lo == p,
        }
        &&& match n.right {
            Some(c) => self.in_tree(c) && self.nodes@[c as int].parent == Some(i)
                && self.lo@[c as int] == p + 1 && self.hi@[c as int] == hi,
            None => hi == p + 1,
        }
        &&& match n.parent {
            Some(q) => self.in_tree(q) && (self.nodes@[q as int].left == Some(i)
                || self.nodes@[q as int].right == Some(i)),
            None => self.root == Some(i),
        }
    }

    /// The arena and the ghost description agree, and the keys are in order.
    #[verifier::opaque]
    pub closed spec fn wf(&self) -> bool {
        let len = self.order@.len();
        &&& self.pos@.len() == self.nodes@.len()
        &&& self.lo@.len() == self.nodes@.len()
        &&& self.hi@.len() == self.nodes@.len()
        &&& forall|k: int| #![trigger self.order@[k]] 0 <= k < len ==> self.in_tree(self.order@[k])
            && self.pos@[self.order@[k] as int] == k
        &&& forall|i: usize| #[trigger] self.in_tree(i) ==> self.node_ok(i)
        &&& match self.root {
            Some(r) => self.in_tree(r) && self.nodes@[r as int].parent is None
                && self.lo@[r as int] == 0 && self.hi@[r as int] == len,
            None => len == 0,
        }
        &&& forall|a: int, b: int| 0 <= a <= b < len
            ==> self.key(self.order@[a]) <= self.key(self.order@[b])
    }

    /// Each node of a well-formed tree meets the local conditions.
    proof fn lemma_node(&self, i: usize)
        requires
            self.wf(),
            self.in_tree(i),
        ensures
            self.node_ok(i),
    {
        reveal(BstTree::wf);
    }

    /// Each place of `order()` holds a node of the tree that knows its place.
    proof fn lemma_order(&self, k: int)
        requires
            self.wf(),
            0 <= k < self.order@.len(),
        ensures
            self.in_tree(self.order@[k]),
            self.pos@[self.order@[k] as int] == k,
    {
        reveal(BstTree::wf);
    }

    /// Keys do not decrease along `order()`.
    proof fn lemma_sorted(&self, a: int, b: int)
        requires
            self.wf(),
            0 <= a <= b < self.order@.len(),
        ensures
            self.key(self.order@[a]) <= self.key(self.order@[b]),
    {
        reveal(BstTree::wf);
    }

    /// The root, if any, spans the whole order and has no parent.
    proof fn lemma_root(&self)
        requires
            self.wf(),
        ensures
            match self.root {
                Some(r) => self.in_tree(r) && self.nodes@[r as int].parent is None
                    && self.lo@[r as int] == 0 && self.hi@[r as int] == self.order@.len(),
                None => self.order@.len() == 0,
            },
            self.pos@.len() == self.nodes@.len(),
            self.lo@.len() == self.nodes@.len(),
            self.hi@.len() == self.nodes@.len(),
    {
        reveal(BstTree::wf);
    }

    /// A node added to the arena outside the tree leaves the tree as it was.
    proof fn lemma_pushed(&self, s: BstTree)
        requires
            self.wf(),
            self.nodes@.len() < usize::MAX,
            s.nodes@.len() == self.nodes@.len() + 1,
            forall|i: int| 0 <= i < self.nodes@.len() ==> #[trigger] s.nodes@[i] == self.nodes@[i],
            s.root == self.root,
            s.order@ == self.order@,
            s.pos@ == self.pos@.push(-1),
            s.lo@ == self.lo@.push(0),
            s.hi@ == self.hi@.push(0),
        ensures
            s.wf(),
            !s.in_tree(self.nodes@.len() as usize),
            forall|i: usize| i != self.nodes@.len() ==> #[trigger] s.in_tree(i) == self.in_tree(i),
            forall|i: usize| #[trigger] self.in_tree(i) ==> s.subtree(i) == self.subtree(i)
                && s.pos(i) == self.pos(i),
    {
        let n = self.nodes@.len();
        self.lemma_root();
        assert forall|i: usize| i != n implies #[trigger] s.in_tree(i) == self.in_tree(i) by {
            if (i as int) < n {
                assert(s.pos@[i as int] == self.pos@[i as int]);
            }
        }
        assert(s.pos@[n as int] == -1);
        assert forall|k: int| 0 <= k < s.order@.len() implies
            #[trigger] s.key(s.order@[k]) == self.key(self.order@[k]) by {
            self.lemma_order(k);
        }
        assert forall|i: usize| #[trigger] s.in_tree(i) implies s.node_ok(i) by {
            assert(s.in_tree(i) == self.in_tree(i));
            self.lemma_node(i);
            let on = self.nodes@[i as int];
            if let Some(c) = on.left {
                self.lemma_node(c);
                self.lemma_order(self.pos@[i as int] - 1);
            }
            if let Some(c) = on.right {
                self.lemma_node(c);
            }
            if let Some(c) = on.parent {
                self.lemma_node(c);
            }
        }
        assert forall|a: int, b: int| 0 <= a <= b < s.order@.len() implies
            s.key(s.order@[a]) <= s.key(s.order@[b]) by {
            self.lemma_sorted(a, b);
            self.lemma_order(a);
            self.lemma_order(b);
        }
        assert forall|k: int| #![trigger s.order@[k]] 0 <= k < s.order@.len() implies s.in_tree(s.order@[k])
            && s.pos@[s.order@[k] as int] == k by {
            self.lemma_order(k);
        }
        self.lemma_root();
        assert forall|i: usize| #[trigger] self.in_tree(i) implies s.subtree(i) == self.subtree(i)
            && s.pos(i) == self.pos(i) by {
            assert(s.lo@[i as int] == self.lo@[i as int]);
            assert(s.hi@[i as int] == self.hi@[i as int]);
        }
        reveal(BstTree::wf);
    }

    /// An empty tree over an empty arena.
    pub fn new() -> (r: BstTree)
        ensures
            r.wf(),
            r.nodes().len() == 0,
            r.order().len() == 0,
            r.root_spec() is None,
    {
        let r = BstTree {
            nodes: Vec::new(),
            root: None,
            order: Ghost(Seq::empty()),
            pos: Ghost(Seq::empty()),
            lo: Ghost(Seq::empty()),
            hi: Ghost(Seq::empty()),
        };
        proof {
            reveal(BstTree::wf);
        }
        r
    }
}

impl BstNode {
    fn new(key: i32) -> (r: BstNode)
        ensures
            r == (BstNode { key: Some(key), parent: None, left: None, right: None }),
    {
        BstNode { key: Some(key), left: None, right: None, parent: None }
    }

    /// Adds a node holding `value` to the arena, outside the tree, and
    /// returns its handle.
    pub fn new_bst_nodelink(tree: &mut BstTree, value: i32) -> (r: usize)
        requires
            old(tree).wf(),
            old(tree).nodes().len() < usize::MAX,
        ensures
            final(tree).wf(),
            r == old(tree).nodes().len(),
            final(tree).nodes() == old(tree).nodes().push(
                (BstNode { key: Some(value), parent: None, left: None, right: None }),
            ),
            final(tree).order() == old(tree).order(),
            final(tree).root_spec() == old(tree).root_spec(),
            final(tree).is_fresh(r),
            forall|i: usize| i != r ==> #[trigger] final(tree).in_tree(i) == old(tree).in_tree(i),
            forall|i: usize| #[trigger] old(tree).in_tree(i) ==> final(tree).subtree(i) == old(tree).subtree(i)
                && final(tree).pos(i) == old(tree).pos(i),
    {
        BstNode::push_node(tree, BstNode::new(value))
    }

    /// A new node holding `value` whose parent link names `parent`; it is
    /// not yet a child of `parent`.
    fn new_with_parent(tree: &mut BstTree, parent: usize, value: i32) -> (r: usize)
        requires
            old(tree).wf(),
            old(tree).nodes().len() < usize::MAX,
        ensures
            final(tree).wf(),
            r == old(tree).nodes().len(),
            final(tree).nodes() == old(tree).nodes().push(
                (BstNode { key: Some(value), parent: Some(parent), left: None, right: None }),
            ),
            final(tree).order() == old(tree).order(),
            final(tree).root_spec() == old(tree).root_spec(),
            !final(tree).in_tree(r),
            forall|i: usize| i != r ==> #[trigger] final(tree).in_tree(i) == old(tree).in_tree(i),
            forall|i: usize| #[trigger] old(tree).in_tree(i) ==> final(tree).subtree(i) == old(tree).subtree(i)
                && final(tree).pos(i) == old(tree).pos(i),
    {
        let mut currentnode = BstNode::new(value);
        currentnode.parent = Some(parent);
        BstNode::push_node(tree, currentnode)
    }

    /// Adds `node` to the arena, outside the tree.
    #[verifier::rlimit(100)]
    fn push_node(tree: &mut BstTree, node: BstNode) -> (r: usize)
        requires
            old(tree).wf(),
            old(tree).nodes().len() < usize::MAX,
        ensures
            final(tree).wf(),
            r == old(tree).nodes().len(),
            final(tree).nodes() == old(tree).nodes().push(node),
            final(tree).order() == old(tree).order(),
            final(tree).root_spec() == old(tree).root_spec(),
            !final(tree).in_tree(r),
            forall|i: usize| i != r ==> #[trigger] final(tree).in_tree(i) == old(tree).in_tree(i),
            forall|i: usize| #[trigger] old(tree).in_tree(i) ==> final(tree).subtree(i) == old(tree).subtree(i)
                && final(tree).pos(i) == old(tree).pos(i),
    {
        let r = tree.nodes.len();
        tree.nodes.push(node);
        tree.pos = Ghost(tree.pos@.push(-1));
        tree.lo = Ghost(tree.lo@.push(0));
        tree.hi = Ghost(tree.hi@.push(0));
        proof {
            old(tree).lemma_pushed(*tree);
        }
        r
    }
}

impl BstNode {
    /// Follows left children from `node`: the first node of its subtree,
    /// which holds the least key there.
    pub fn minimum(tree: &BstTree, node: usize) -> (r: usize)
        requires
            tree.wf(),
            tree.in_tree(node),
        ensures
            tree.in_tree(r),
            tree.subtree(node).len() > 0,
            r == tree.subtree(node)[0],
            tree.nodes()[r as int].left is None,
            forall|k: int| 0 <= k < tree.subtree(node).len()
                ==> tree.key(r) <= #[trigger] tree.key(tree.subtree(node)[k]),
    {
        proof {
            tree.lemma_node(node);
        }
        let mut x = node;
        loop
            invariant
                tree.wf(),
                tree.in_tree(x),
                tree.in_tree(node),
                tree.lo@[x as int] == tree.lo@[node as int],
                tree.hi@[x as int] <= tree.hi@[node as int],
            decreases tree.hi@[x as int] - tree.lo@[x as int],
        {
            proof {
                tree.lemma_node(x);
            }
            match tree.nodes[x].left {
                Some(l) => {
                    proof {
                        tree.lemma_node(l);
                    }
                    x = l;
                },
                None => {
                    proof {
                        tree.lemma_node(node);
                        let lo = tree.lo@[node as int];
                        assert forall|k: int| 0 <= k < tree.subtree(node).len()
                            implies tree.key(x) <= #[trigger] tree.key(tree.subtree(node)[k]) by {
                            assert(tree.subtree(node)[k] == tree.order@[lo + k]);
                            tree.lemma_sorted(lo, lo + k);
                        }
                    }
                    return x;
                },
            }
        }
    }

    /// Follows right children from `node`: the last node of its subtree,
    /// which holds the greatest key there.
    pub fn maximum(tree: &BstTree, node: usize) -> (r: usize)
        requires
            tree.wf(),
            tree.in_tree(node),
        ensures
            tree.in_tree(r),
            tree.subtree(node).len() > 0,
            r == tree.subtree(node).last(),
            tree.nodes()[r as int].right is None,
            forall|k: int| 0 <= k < tree.subtree(node).len()
                ==> #[trigger] tree.key(tree.subtree(node)[k]) <= tree.key(r),
    {
        proof {
            tree.lemma_node(node);
        }
        let mut x = node;
        loop
            invariant
                tree.wf(),
                tree.in_tree(x),
                tree.in_tree(node),
                tree.hi@[x as int] == tree.hi@[node as int],
                tree.lo@[x as int] >= tree.lo@[node as int],
            decreases tree.hi@[x as int] - tree.lo@[x as int],
        {
            proof {
                tree.lemma_node(x);
            }
            match tree.nodes[x].right {
                Some(c) => {
                    proof {
                        tree.lemma_node(c);
                    }
                    x = c;
                },
                None => {
                    proof {
                        tree.lemma_node(node);
                        let lo = tree.lo@[node as int];
                        assert forall|k: int| 0 <= k < tree.subtree(node).len()
                            implies #[trigger] tree.key(tree.subtree(node)[k]) <= tree.key(x) by {
                            assert(tree.subtree(node)[k] == tree.order@[lo + k]);
                            tree.lemma_sorted(lo + k, tree.hi@[node as int] - 1);
                        }
                    }
                    return x;
                },
            }
        }
    }

    /// Searches the subtree of `node` for a node holding `value`: smaller
    /// values are sought on the left, others on the right.
    pub fn tree_search(tree: &BstTree, node: usize, value: &i32) -> (r: Option<usize>)
        requires
            tree.wf(),
            tree.in_tree(node),
        ensures
            tree.search_result(node, *value as int, r),
    {
        let ghost lo0 = tree.lo@[node as int];
        let ghost hi0 = tree.hi@[node as int];
        proof {
            tree.lemma_node(node);
        }
        let mut x = node;
        loop
            invariant
                tree.wf(),
                tree.in_tree(x),
                lo0 <= tree.lo@[x as int],
                tree.hi@[x as int] <= hi0,
                lo0 == tree.lo@[node as int],
                hi0 == tree.hi@[node as int],
                0 <= lo0 <= hi0 <= tree.order@.len(),
                forall|k: int| lo0 <= k < hi0 && !(tree.lo@[x as int] <= k < tree.hi@[x as int])
                    ==> tree.key(tree.order@[k]) != *value as int,
            decreases tree.hi@[x as int] - tree.lo@[x as int],
        {
            proof {
                tree.lemma_node(x);
            }
            let n = tree.nodes[x];
            let key = match n.key {
                Some(k) => k,
                None => {
                    return None;
                },
            };
            if key == *value {
                proof {
                    let p = tree.pos@[x as int];
                    assert(tree.subtree(node)[p - lo0] == x);
                    if n.left is Some {
                        let l = n.left.unwrap();
                        tree.lemma_node(l);
                    }
                    assert forall|j2: int| 0 <= j2 < p - lo0 implies
                        #[trigger] tree.key(tree.subtree(node)[j2]) != *value as int by {
                        assert(tree.subtree(node)[j2] == tree.order@[lo0 + j2]);
                        if lo0 + j2 >= tree.lo@[x as int] {
                            tree.lemma_sorted(lo0 + j2, p - 1);
                        }
                    }
                }
                return Some(x);
            }
            let ghost p = tree.pos@[x as int];
            let ghost v = *value as int;
            proof {
                assert(tree.key(tree.order@[p]) == key as int);
                if v < key as int {
                    assert forall|k: int| p <= k < hi0 implies tree.key(tree.order@[k]) != v by {
                        tree.lemma_sorted(p, k);
                    }
                } else {
                    assert forall|k: int| lo0 <= k <= p implies tree.key(tree.order@[k]) != v by {
                        tree.lemma_sorted(k, p);
                    }
                }
            }
            if *value < key && n.left.is_some() {
                let l = n.left.unwrap();
                proof {
                    tree.lemma_node(l);
                }
                x = l;
            } else if n.right.is_some() {
                let c = n.right.unwrap();
                proof {
                    tree.lemma_node(c);
                }
                x = c;
            } else {
                proof {
                    assert forall|y: usize| #[trigger] tree.subtree(node).contains(y)
                        implies tree.key(y) != *value as int by {
                        let k = choose|k: int| 0 <= k < tree.subtree(node).len()
                            && tree.subtree(node)[k] == y;
                        assert(tree.order@[lo0 + k] == y);
                    }
                }
                return None;
            }
        }
    }

    /// Walks parent links up from `node` to the root of its tree.
    pub fn get_root(tree: &BstTree, node: usize) -> (r: usize)
        requires
            tree.wf(),
            tree.in_tree(node),
        ensures
            tree.root_spec() == Some(r),
            tree.nodes()[r as int].parent is None,
    {
        let mut x = node;
        loop
            invariant
                tree.wf(),
                tree.in_tree(x),
            decreases tree.order@.len() - (tree.hi@[x as int] - tree.lo@[x as int]),
        {
            proof {
                tree.lemma_node(x);
            }
            match tree.nodes[x].parent {
                Some(p) => {
                    proof {
                        tree.lemma_node(p);
                    }
                    x = p;
                },
                None => {
                    return x;
                },
            }
        }
    }

    /// The in-order successor of `x_node`: the least node of its right
    /// subtree if it has one, else the first ancestor reached by a step up
    /// from a left child. Ancestry is told by handle, never by key.
    pub fn tree_successor(tree: &BstTree, x_node: usize) -> (r: Option<usize>)
        requires
            tree.wf(),
            tree.in_tree(x_node),
        ensures
            r == tree.next_in_order(x_node),
    {
        proof {
            tree.lemma_node(x_node);
        }
        if let Some(right_node) = tree.nodes[x_node].right {
            return Some(BstNode::minimum(tree, right_node));
        }
        let ghost target = tree.pos@[x_node as int] + 1;
        let mut x = x_node;
        let mut y = tree.nodes[x].parent;
        loop
            invariant
                tree.wf(),
                tree.in_tree(x),
                tree.in_tree(x_node),
                target == tree.pos@[x_node as int] + 1,
                tree.hi@[x as int] == target,
                y == tree.nodes@[x as int].parent,
            decreases tree.order@.len() - (tree.hi@[x as int] - tree.lo@[x as int]),
        {
            proof {
                tree.lemma_node(x);
            }
            match y {
                None => {
                    proof {
                        tree.lemma_root();
                    }
                    return None;
                },
                Some(exist) => {
                    proof {
                        tree.lemma_node(exist);
                    }
                    if let Some(left_child) = tree.nodes[exist].left {
                        if BstNode::is_node_match(left_child, x) {
                            return Some(exist);
                        }
                    }
                    x = exist;
                    y = tree.nodes[x].parent;
                },
            }
        }
    }

    /// The in-order successor of `x_node`, as `tree_successor`, written with
    /// a direct test of whether the node walked from is a left child.
    pub fn tree_successor_simpler(tree: &BstTree, x_node: usize) -> (r: Option<usize>)
        requires
            tree.wf(),
            tree.in_tree(x_node),
        ensures
            r == tree.next_in_order(x_node),
    {
        proof {
            tree.lemma_node(x_node);
        }
        let x_ref = tree.nodes[x_node];
        if let Some(right) = x_ref.right {
            return Some(BstNode::minimum(tree, right));
        }
        let mut current = x_node;
        let mut parent_opt = x_ref.parent;
        while parent_opt.is_some()
            invariant
                tree.wf(),
                tree.in_tree(current),
                tree.in_tree(x_node),
                tree.hi@[current as int] == tree.pos@[x_node as int] + 1,
                parent_opt == tree.nodes@[current as int].parent,
            decreases tree.order@.len() - (tree.hi@[current as int] - tree.lo@[current as int]),
        {
            let parent = parent_opt.unwrap();
            proof {
                tree.lemma_node(current);
                tree.lemma_node(parent);
            }
            let is_left_child = match tree.nodes[parent].left {
                Some(left) => left == current,
                None => false,
            };
            if is_left_child {
                return Some(parent);
            }
            current = parent;
            parent_opt = tree.nodes[current].parent;
        }
        proof {
            tree.lemma_node(current);
            tree.lemma_root();
        }
        None
    }

    /// Tells whether `node` is absent or lacks its parent or one of its
    /// children.
    #[allow(dead_code)]
    fn is_nil(tree: &BstTree, node: Option<usize>) -> (r: bool)
        requires
            node matches Some(x) ==> x < tree.nodes().len(),
        ensures
            r == match node {
                None => true,
                Some(x) => tree.nodes()[x as int].parent is None
                    || tree.nodes()[x as int].left is None
                    || tree.nodes()[x as int].right is None,
            },
    {
        match node {
            None => true,
            Some(x) => {
                let n = tree.nodes[x];
                if n.parent.is_none() || n.left.is_none() || n.right.is_none() {
                    return true;
                }
                false
            },
        }
    }

    /// Whether two optional handles name the same node, or are both absent.
    #[allow(dead_code)]
    fn is_node_match_option(node1: Option<usize>, node2: Option<usize>) -> (r: bool)
        ensures
            r == (node1 == node2),
    {
        match (node1, node2) {
            (None, None) => true,
            (Some(a), Some(b)) => BstNode::is_node_match(a, b),
            _ => false,
        }
    }

    /// Whether two handles name the same node.
    fn is_node_match(anode: usize, bnode: usize) -> (r: bool)
        ensures
            r == (anode == bnode),
    {
        anode == bnode
    }
}

impl BstTree {
    /// The place in `order()` that a new leaf takes as a child of `y` (on the
    /// left when `as_left`), or as the root of an empty tree.
    pub closed spec fn slot(&self, y: Option<usize>, as_left: bool) -> int {
        match y {
            None => 0,
            Some(y) => if as_left {
                self.pos@[y as int]
            } else {
                self.pos@[y as int] + 1
            },
        }
    }

    /// A new leaf `z` may hang from `y` on the given side, or be the root.
    pub closed spec fn can_attach(&self, y: Option<usize>, z: usize, as_left: bool) -> bool {
        let q = self.slot(y, as_left);
        &&& (z as int) < self.nodes@.len()
        &&& !self.in_tree(z)
        &&& self.nodes@[z as int].key is Some
        &&& self.nodes@[z as int].left is None
        &&& self.nodes@[z as int].right is None
        &&& match y {
            None => self.root is None,
            Some(y) => self.in_tree(y) && if as_left {
                self.nodes@[y as int].left is None
            } else {
                self.nodes@[y as int].right is None
            },
        }
        &&& forall|k: int| 0 <= k < q ==> self.key(self.order@[k]) <= self.key(z)
        &&& forall|k: int| q <= k < self.order@.len() ==> self.key(z) < self.key(self.order@[k])
    }

    /// `s` is `self` with the leaf `z` hung from `y`, ghost state included.
    closed spec fn attached_as(&self, s: BstTree, y: Option<usize>, z: usize, as_left: bool) -> bool {
        let q = self.slot(y, as_left);
        let b = if as_left { q } else { q - 1 };
        let n = self.nodes@.len();
        &&& s.nodes@.len() == n
        &&& forall|i: int| 0 <= i < n && i != z && Some(i as usize) != y
            ==> #[trigger] s.nodes@[i] == self.nodes@[i]
        &&& s.nodes@[z as int] == (BstNode { parent: y, ..self.nodes@[z as int] })
        &&& match y {
            Some(yy) => s.root == self.root && s.nodes@[yy as int] == if as_left {
                BstNode { left: Some(z), ..self.nodes@[yy as int] }
            } else {
                BstNode { right: Some(z), ..self.nodes@[yy as int] }
            },
            None => s.root == Some(z),
        }
        &&& s.order@ == self.order@.insert(q, z)
        &&& s.pos@.len() == n && s.lo@.len() == n && s.hi@.len() == n
        &&& forall|i: int| 0 <= i < n ==> #[trigger] s.pos@[i] == if i == z as int {
            q
        } else if self.pos@[i] < q {
            self.pos@[i]
        } else {
            self.pos@[i] + 1
        }
        &&& forall|i: int| 0 <= i < n ==> #[trigger] s.lo@[i] == if i == z as int {
            q
        } else if self.lo@[i] <= b {
            self.lo@[i]
        } else {
            self.lo@[i] + 1
        }
        &&& forall|i: int| 0 <= i < n ==> #[trigger] s.hi@[i] == if i == z as int {
            q + 1
        } else if self.hi@[i] <= b {
            self.hi@[i]
        } else {
            self.hi@[i] + 1
        }
    }

    /// Hanging `z` adds it, and only it, to the tree.
    proof fn lemma_attach_in_tree(&self, s: BstTree, y: Option<usize>, z: usize, as_left: bool, i: usize)
        requires
            self.wf(),
            self.can_attach(y, z, as_left),
            self.attached_as(s, y, z, as_left),
        ensures
            s.in_tree(i) == (i == z || self.in_tree(i)),
    {
        let q = self.slot(y, as_left);
        let n = self.nodes@.len();
        let len = self.order@.len();
        if let Some(yy) = y {
            self.lemma_node(yy);
        }
        if i == z {
        } else if (i as int) < n {
            let p = self.pos@[i as int];
            if 0 <= p < q {
                assert(s.order@[p] == self.order@[p]);
            } else if q <= p < len {
                assert(s.order@[p + 1] == self.order@[p]);
            }
        }
    }

    /// Hanging `z` keeps the local conditions of every node of the tree.
    proof fn lemma_attach_node(&self, s: BstTree, y: Option<usize>, z: usize, as_left: bool, i: usize)
        requires
            self.wf(),
            self.can_attach(y, z, as_left),
            self.attached_as(s, y, z, as_left),
            s.in_tree(i),
        ensures
            s.node_ok(i),
    {
        if let Some(yy) = y {
            self.lemma_node(yy);
            self.lemma_attach_in_tree(s, y, z, as_left, yy);
        }
        self.lemma_attach_in_tree(s, y, z, as_left, i);
        self.lemma_attach_in_tree(s, y, z, as_left, z);
        self.lemma_root();
        if i != z {
            self.lemma_node(i);
            let on = self.nodes@[i as int];
            if let Some(c) = on.left {
                self.lemma_attach_in_tree(s, y, z, as_left, c);
                self.lemma_node(c);
            }
            if let Some(c) = on.right {
                self.lemma_attach_in_tree(s, y, z, as_left, c);
                self.lemma_node(c);
            }
            if let Some(pp) = on.parent {
                self.lemma_attach_in_tree(s, y, z, as_left, pp);
            }
            if let Some(yy) = y {
                // distinct nodes of the tree stand at distinct places
                assert(yy == i || self.pos@[i as int] != self.pos@[yy as int]);
            }
            let q = self.slot(y, as_left);
            let pi = self.pos@[i as int];
            if s.nodes@[i as int].left is Some {
                if on.left is Some {
                    self.lemma_order(pi - 1);
                }
                if pi < q {
                    assert(s.order@[pi - 1] == self.order@[pi - 1]);
                } else if pi > q {
                    assert(s.order@[pi] == self.order@[pi - 1]);
                } else {
                    assert(s.order@[pi] == z);
                }
            }
        }
    }

    /// Hanging `z` at its slot keeps the keys in order.
    proof fn lemma_attach_sorted(&self, s: BstTree, y: Option<usize>, z: usize, as_left: bool, a: int, b2: int)
        requires
            self.wf(),
            self.can_attach(y, z, as_left),
            self.attached_as(s, y, z, as_left),
            0 <= a <= b2 < self.order@.len() + 1,
        ensures
            s.key(s.order@[a]) <= s.key(s.order@[b2]),
    {
        let q = self.slot(y, as_left);
        if let Some(yy) = y {
            self.lemma_node(yy);
        }
        if a < q {
            self.lemma_order(a);
            assert(s.order@[a] == self.order@[a]);
        } else if a > q {
            self.lemma_order(a - 1);
            assert(s.order@[a] == self.order@[a - 1]);
        }
        if b2 < q {
            self.lemma_order(b2);
            assert(s.order@[b2] == self.order@[b2]);
        } else if b2 > q {
            self.lemma_order(b2 - 1);
            assert(s.order@[b2] == self.order@[b2 - 1]);
        }
        if a < q && b2 < q {
            self.lemma_sorted(a, b2);
        } else if a > q && b2 > q {
            self.lemma_sorted(a - 1, b2 - 1);
        } else if a < q && b2 > q {
            self.lemma_sorted(a, b2 - 1);
        }
    }

    /// Hanging `z` keeps the tree well formed.
    proof fn lemma_attach(&self, s: BstTree, y: Option<usize>, z: usize, as_left: bool)
        requires
            self.wf(),
            self.can_attach(y, z, as_left),
            self.attached_as(s, y, z, as_left),
        ensures
            s.wf(),
            s.in_tree(z),
            forall|i: usize| self.in_tree(i) ==> #[trigger] s.in_tree(i),
    {
        let q = self.slot(y, as_left);
        let len = self.order@.len();
        if let Some(yy) = y {
            self.lemma_node(yy);
        }
        assert forall|i: usize| self.in_tree(i) implies #[trigger] s.in_tree(i) by {
            self.lemma_attach_in_tree(s, y, z, as_left, i);
        }
        self.lemma_attach_in_tree(s, y, z, as_left, z);
        assert forall|k: int| #![trigger s.order@[k]] 0 <= k < len + 1 implies s.in_tree(s.order@[k])
            && s.pos@[s.order@[k] as int] == k by {
            if k < q {
                assert(s.order@[k] == self.order@[k]);
                self.lemma_order(k);
            } else if k > q {
                assert(s.order@[k] == self.order@[k - 1]);
                self.lemma_order(k - 1);
            }
        }
        assert forall|i: usize| #[trigger] s.in_tree(i) implies s.node_ok(i) by {
            self.lemma_attach_node(s, y, z, as_left, i);
        }
        assert forall|a: int, b2: int| 0 <= a <= b2 < len + 1 implies
            s.key(s.order@[a]) <= s.key(s.order@[b2]) by {
            self.lemma_attach_sorted(s, y, z, as_left, a, b2);
        }
        self.lemma_root();
        if let Some(r) = self.root {
            self.lemma_attach_in_tree(s, y, z, as_left, r);
        }
        reveal(BstTree::wf);
    }

    /// Hangs the leaf `z` from `y`, or makes it the root; `z` takes the place
    /// `slot(y, as_left)` in order.
    fn attach(&mut self, y: Option<usize>, z: usize, as_left: bool)
        requires
            old(self).wf(),
            old(self).can_attach(y, z, as_left),
        ensures
            final(self).wf(),
            old(self).attached_as(*final(self), y, z, as_left),
            final(self).order() == old(self).order().insert(old(self).slot(y, as_left), z),
            final(self).nodes().len() == old(self).nodes().len(),
            forall|i: int| 0 <= i < old(self).nodes().len()
                ==> #[trigger] final(self).nodes()[i].key == old(self).nodes()[i].key,
            final(self).in_tree(z),
            forall|i: usize| old(self).in_tree(i) ==> #[trigger] final(self).in_tree(i),
            y is Some ==> final(self).root_spec() == old(self).root_spec(),
            y is None ==> final(self).root_spec() == Some(z),
    {
        let ghost q = self.slot(y, as_left);
        let ghost b = if as_left { q } else { q - 1 };
        let ghost n = self.nodes@.len();
        let ghost old_t = *self;
        let mut zn = self.nodes[z];
        zn.parent = y;
        self.nodes.set(z, zn);
        match y {
            Some(yy) => {
                let mut yn = self.nodes[yy];
                if as_left {
                    yn.left = Some(z);
                } else {
                    yn.right = Some(z);
                }
                self.nodes.set(yy, yn);
            },
            None => {
                self.root = Some(z);
            },
        }
        self.order = Ghost(old_t.order@.insert(q, z));
        self.pos = Ghost(Seq::new(n as nat, |i: int|
            if i == z as int { q } else if old_t.pos@[i] < q { old_t.pos@[i] } else { old_t.pos@[i] + 1 }));
        self.lo = Ghost(Seq::new(n as nat, |i: int|
            if i == z as int { q } else if old_t.lo@[i] <= b { old_t.lo@[i] } else { old_t.lo@[i] + 1 }));
        self.hi = Ghost(Seq::new(n as nat, |i: int|
            if i == z as int { q + 1 } else if old_t.hi@[i] <= b { old_t.hi@[i] } else { old_t.hi@[i] + 1 }));
        proof {
            if let Some(yy) = y {
                old_t.lemma_node(yy);
            }
            assert(old_t.attached_as(*self, y, z, as_left));
            old_t.lemma_attach(*self, y, z, as_left);
        }
    }
}

impl BstNode {
    /// Inserts the fresh node `z`: descends from the root, left where the
    /// new key is smaller and right otherwise, and hangs `z` from the last
    /// node visited, or makes it the root of an empty tree.
    pub fn tree_insert(tree: &mut BstTree, z: usize)
        requires
            old(tree).wf(),
            old(tree).is_fresh(z),
        ensures
            final(tree).wf(),
            final(tree).in_tree(z),
            old(tree).root_spec() is None ==> final(tree).root_spec() == Some(z),
            old(tree).root_spec() is Some ==> final(tree).root_spec() == old(tree).root_spec(),
            exists|q: int| old(tree).insert_place(q, old(tree).key(z))
                && final(tree).order() == old(tree).order().insert(q, z),
            final(tree).nodes()[z as int] == (BstNode {
                parent: final(tree).nodes()[z as int].parent,
                ..old(tree).nodes()[z as int]
            }),
            match final(tree).nodes()[z as int].parent {
                Some(y) => final(tree).root_spec() == old(tree).root_spec() && old(tree).in_tree(y)
                    && if old(tree).key(z) < old(tree).key(y) {
                    old(tree).nodes()[y as int].left is None
                    && final(tree).nodes()[y as int] == (BstNode { left: Some(z), ..old(tree).nodes()[y as int] })
                } else {
                    old(tree).nodes()[y as int].right is None
                    && final(tree).nodes()[y as int] == (BstNode { right: Some(z), ..old(tree).nodes()[y as int] })
                },
                None => old(tree).root_spec() is None && final(tree).root_spec() == Some(z),
            },
            forall|i: usize| (i as int) < old(tree).nodes().len() && i != z
                && final(tree).nodes()[z as int].parent != Some(i)
                ==> #[trigger] final(tree).nodes()[i as int] == old(tree).nodes()[i as int],
            final(tree).nodes().len() == old(tree).nodes().len(),
            forall|i: int| 0 <= i < old(tree).nodes().len()
                ==> #[trigger] final(tree).nodes()[i].key == old(tree).nodes()[i].key,
            forall|i: usize| #[trigger] old(tree).in_tree(i) ==> final(tree).in_tree(i),
    {
        let kz = match tree.nodes[z].key {
            Some(k) => k,
            None => {
                return;
            },
        };
        let ghost len: int = tree.order@.len() as int;
        let mut y: Option<usize> = None;
        let mut as_left = false;
        let mut x = tree.root;
        let ghost mut clo: int = 0;
        let ghost mut chi: int = len;
        proof {
            tree.lemma_root();
        }
        while x.is_some()
            invariant
                tree.wf(),
                tree.is_fresh(z),
                tree.key(z) == kz as int,
                len == tree.order@.len(),
                0 <= clo <= chi <= len,
                forall|k: int| 0 <= k < clo ==> tree.key(tree.order@[k]) <= kz as int,
                forall|k: int| chi <= k < len ==> (kz as int) < tree.key(tree.order@[k]),
                match x {
                    Some(xx) => tree.in_tree(xx) && tree.lo@[xx as int] == clo
                        && tree.hi@[xx as int] == chi && (y is None ==> tree.root == x),
                    None => clo == chi && tree.slot(y, as_left) == clo && match y {
                        None => tree.root is None,
                        Some(yy) => tree.in_tree(yy) && as_left == (tree.key(z) < tree.key(yy)) && if as_left {
                            tree.nodes@[yy as int].left is None
                        } else {
                            tree.nodes@[yy as int].right is None
                        },
                    },
                },
            decreases
                if x is Some { chi - clo + 1 } else { 0 },
        {
            let current = x.unwrap();
            proof {
                tree.lemma_node(current);
            }
            y = Some(current);
            let ck = match tree.nodes[current].key {
                Some(k) => k,
                None => 0,
            };
            let ghost p = tree.pos@[current as int];
            proof {
                assert(tree.key(tree.order@[p]) == ck as int);
            }
            if kz < ck {
                as_left = true;
                x = tree.nodes[current].left;
                proof {
                    assert forall|k: int| p <= k < len implies (kz as int) < tree.key(tree.order@[k]) by {
                        tree.lemma_sorted(p, k);
                    }
                    chi = p;
                    if let Some(l) = x {
                        tree.lemma_node(l);
                    }
                }
            } else {
                as_left = false;
                x = tree.nodes[current].right;
                proof {
                    assert forall|k: int| 0 <= k <= p implies tree.key(tree.order@[k]) <= kz as int by {
                        tree.lemma_sorted(k, p);
                    }
                    clo = p + 1;
                    if let Some(c) = x {
                        tree.lemma_node(c);
                    }
                }
            }
        }
        proof {
            assert(tree.can_attach(y, z, as_left));
        }
        tree.attach(y, z, as_left);
        proof {
            assert(old(tree).insert_place(clo, kz as int));
        }
    }

    /// Hangs a new node holding `value` as the left child of `node`, which
    /// has none; the value must fit there in order.
    pub fn add_left_child(tree: &mut BstTree, node: usize, value: i32)
        requires
            old(tree).wf(),
            old(tree).nodes().len() < usize::MAX,
            old(tree).in_tree(node),
            old(tree).nodes()[node as int].left is None,
            value < old(tree).key(node),
            forall|k: int| 0 <= k < old(tree).pos(node)
                ==> #[trigger] old(tree).key(old(tree).order()[k]) <= value,
        ensures
            final(tree).wf(),
            final(tree).nodes().len() == old(tree).nodes().len() + 1,
            final(tree).in_tree(old(tree).nodes().len() as usize),
            final(tree).nodes()[node as int].left == Some(old(tree).nodes().len() as usize),
            final(tree).order() == old(tree).order().insert(
                old(tree).pos(node),
                old(tree).nodes().len() as usize,
            ),
            final(tree).key(old(tree).nodes().len() as usize) == value,
            forall|i: int| 0 <= i < old(tree).nodes().len()
                ==> #[trigger] final(tree).nodes()[i].key == old(tree).nodes()[i].key,
    {
        let new_node = BstNode::new_with_parent(tree, node, value);
        proof {
            tree.lemma_node(node);
            let q = tree.pos@[node as int];
            assert forall|k: int| q <= k < tree.order@.len()
                implies value < tree.key(tree.order@[k]) by {
                tree.lemma_sorted(q, k);
            }
            assert forall|k: int| 0 <= k < tree.order@.len()
                implies #[trigger] tree.key(tree.order@[k]) == old(tree).key(old(tree).order@[k]) by {
                old(tree).lemma_order(k);
            }
            assert(tree.can_attach(Some(node), new_node, true));
        }
        tree.attach(Some(node), new_node, true);
    }

    /// Hangs a new node holding `value` as the right child of `node`, which
    /// has none; the value must fit there in order.
    pub fn add_right_child(tree: &mut BstTree, node: usize, value: i32)
        requires
            old(tree).wf(),
            old(tree).nodes().len() < usize::MAX,
            old(tree).in_tree(node),
            old(tree).nodes()[node as int].right is None,
            old(tree).key(node) <= value,
            forall|k: int| old(tree).pos(node) < k < old(tree).order().len()
                ==> value < #[trigger] old(tree).key(old(tree).order()[k]),
        ensures
            final(tree).wf(),
            final(tree).nodes().len() == old(tree).nodes().len() + 1,
            final(tree).in_tree(old(tree).nodes().len() as usize),
            final(tree).nodes()[node as int].right == Some(old(tree).nodes().len() as usize),
            final(tree).order() == old(tree).order().insert(
                old(tree).pos(node) + 1,
                old(tree).nodes().len() as usize,
            ),
            final(tree).key(old(tree).nodes().len() as usize) == value,
            forall|i: int| 0 <= i < old(tree).nodes().len()
                ==> #[trigger] final(tree).nodes()[i].key == old(tree).nodes()[i].key,
    {
        let new_node = BstNode::new_with_parent(tree, node, value);
        proof {
            tree.lemma_node(node);
            let q = tree.pos@[node as int];
            assert forall|k: int| 0 <= k <= q
                implies tree.key(tree.order@[k]) <= value by {
                tree.lemma_sorted(k, q);
            }
            assert forall|k: int| 0 <= k < tree.order@.len()
                implies #[trigger] tree.key(tree.order@[k]) == old(tree).key(old(tree).order@[k]) by {
                old(tree).lemma_order(k);
            }
            assert(tree.can_attach(Some(node), new_node, false));
        }
        tree.attach(Some(node), new_node, false);
    }
}

/// `nodes` after the node `v` (or nothing) takes the place of node `u` as
/// a child of `u`'s parent, and `v`'s parent link is set to that parent.
pub open spec fn transplanted(nodes: Seq<BstNode>, u: usize, v: Option<usize>) -> Seq<BstNode> {
    let parent = nodes[u as int].parent;
    let linked = match parent {
        Some(p) => if nodes[p as int].left == Some(u) {
            nodes.update(p as int, BstNode { left: v, ..nodes[p as int] })
        } else {
            nodes.update(p as int, BstNode { right: v, ..nodes[p as int] })
        },
        None => nodes,
    };
    match v {
        Some(c) => linked.update(c as int, BstNode { parent: parent, ..linked[c as int] }),
        None => linked,
    }
}

impl BstTree {
    /// `self` and `other` carry the same ghost description of the tree.
    pub closed spec fn same_shape(&self, other: BstTree) -> bool {
        &&& self.order@ == other.order@
        &&& self.pos@ == other.pos@
        &&& self.lo@ == other.lo@
        &&& self.hi@ == other.hi@
    }

    /// Points the left link of node `i` at `c`.
    fn set_left(&mut self, i: usize, c: Option<usize>)
        requires
            i < old(self).nodes@.len(),
        ensures
            final(self).nodes@ == old(self).nodes@.update(i as int, BstNode { left: c, ..old(self).nodes@[i as int] }),
            final(self).root == old(self).root,
            final(self).same_shape(*old(self)),
    {
        let mut n = self.nodes[i];
        n.left = c;
        self.nodes.set(i, n);
    }

    /// Points the right link of node `i` at `c`.
    fn set_right(&mut self, i: usize, c: Option<usize>)
        requires
            i < old(self).nodes@.len(),
        ensures
            final(self).nodes@ == old(self).nodes@.update(i as int, BstNode { right: c, ..old(self).nodes@[i as int] }),
            final(self).root == old(self).root,
            final(self).same_shape(*old(self)),
    {
        let mut n = self.nodes[i];
        n.right = c;
        self.nodes.set(i, n);
    }

    /// Points the parent link of node `i` at `p`.
    fn set_parent(&mut self, i: usize, p: Option<usize>)
        requires
            i < old(self).nodes@.len(),
        ensures
            final(self).nodes@ == old(self).nodes@.update(i as int, BstNode { parent: p, ..old(self).nodes@[i as int] }),
            final(self).root == old(self).root,
            final(self).same_shape(*old(self)),
    {
        let mut n = self.nodes[i];
        n.parent = p;
        self.nodes.set(i, n);
    }
}

impl BstNode {
    /// Puts `v` (or nothing) in the place of `u` as seen from `u`'s parent,
    /// or as the root where `u` has no parent, and points `v`'s parent link
    /// at that parent. The slot is chosen by handle. `u`'s own links and
    /// `v`'s children are left as they were.
    pub fn transplant(tree: &mut BstTree, u: usize, v: Option<usize>)
        requires
            (u as int) < old(tree).nodes().len(),
            v matches Some(c) ==> (c as int) < old(tree).nodes().len(),
            old(tree).nodes()[u as int].parent matches Some(p) ==> (p as int) < old(tree).nodes().len(),
        ensures
            final(tree).nodes() == transplanted(old(tree).nodes(), u, v),
            final(tree).nodes().len() == old(tree).nodes().len(),
            final(tree).root_spec() == if old(tree).nodes()[u as int].parent is None {
                v
            } else {
                old(tree).root_spec()
            },
            final(tree).same_shape(*old(tree)),
    {
        let parent = tree.nodes[u].parent;
        match parent {
            Some(parent_node) => {
                let is_left = match tree.nodes[parent_node].left {
                    Some(l) => BstNode::is_node_match(l, u),
                    None => false,
                };
                if is_left {
                    tree.set_left(parent_node, v);
                } else {
                    tree.set_right(parent_node, v);
                }
            },
            None => {
                tree.root = v;
            },
        }
        if let Some(v_node) = v {
            tree.set_parent(v_node, parent);
        }
    }
}

impl BstTree {
    /// Node `z` has two children; its successor then takes its place.
    pub open spec fn two_children(&self, z: usize) -> bool {
        self.nodes()[z as int].left is Some && self.nodes()[z as int].right is Some
    }

    /// The in-order successor of `z` when `z` has two children.
    pub open spec fn heir(&self, z: usize) -> usize {
        self.order()[self.pos(z) + 1]
    }

    /// The parent of the heir of `z`.
    pub open spec fn heir_parent(&self, z: usize) -> usize {
        match self.nodes()[self.heir(z) as int].parent {
            Some(q) => q,
            None => z,
        }
    }

    /// The heir of `z` is not `z`'s own right child.
    pub open spec fn heir_deep(&self, z: usize) -> bool {
        self.nodes()[z as int].right != Some(self.heir(z))
    }

    /// The only child of `z`, if it has at most one.
    pub open spec fn lone_child(&self, z: usize) -> Option<usize> {
        if self.nodes()[z as int].left is None {
            self.nodes()[z as int].right
        } else {
            self.nodes()[z as int].left
        }
    }

    /// What takes `z`'s place when `z` is removed.
    pub open spec fn stand_in(&self, z: usize) -> Option<usize> {
        if self.two_children(z) {
            Some(self.heir(z))
        } else {
            self.lone_child(z)
        }
    }

    /// The left link of node `i` once `z` is taken out.
    pub open spec fn del_left(&self, z: usize, i: usize) -> Option<usize> {
        let o = self.nodes();
        let zn = o[z as int];
        if self.two_children(z) && i == self.heir(z) {
            zn.left
        } else if zn.parent == Some(i) && o[i as int].left == Some(z) {
            self.stand_in(z)
        } else if self.two_children(z) && self.heir_deep(z) && i == self.heir_parent(z) {
            o[self.heir(z) as int].right
        } else {
            o[i as int].left
        }
    }

    /// The right link of node `i` once `z` is taken out.
    pub open spec fn del_right(&self, z: usize, i: usize) -> Option<usize> {
        let o = self.nodes();
        let zn = o[z as int];
        if self.two_children(z) && i == self.heir(z) {
            if self.heir_deep(z) {
                zn.right
            } else {
                o[i as int].right
            }
        } else if zn.parent == Some(i) && o[i as int].left != Some(z) {
            self.stand_in(z)
        } else {
            o[i as int].right
        }
    }

    /// The parent link of node `i` once `z` is taken out.
    pub open spec fn del_parent(&self, z: usize, i: usize) -> Option<usize> {
        let o = self.nodes();
        let zn = o[z as int];
        if self.stand_in(z) == Some(i) {
            zn.parent
        } else if self.two_children(z) && (zn.left == Some(i) || (self.heir_deep(z)
            && zn.right == Some(i))) {
            Some(self.heir(z))
        } else if self.two_children(z) && self.heir_deep(z) && o[self.heir(z) as int].right
            == Some(i) {
            Some(self.heir_parent(z))
        } else {
            o[i as int].parent
        }
    }

    /// The links of `s` are those of `self` with `z` taken out: the node
    /// that stands in for `z` (its only child, or its successor when it has
    /// two) takes its place under `z`'s parent or as the root, the successor
    /// also takes both of `z`'s subtrees, and no other link changes.
    pub open spec fn unlinked_as(&self, s: BstTree, z: usize) -> bool {
        let n = self.nodes().len();
        &&& s.nodes().len() == n
        &&& forall|i: int| 0 <= i < n ==> #[trigger] s.nodes()[i].key == self.nodes()[i].key
        &&& forall|i: usize| (i as int) < n && i != z ==> #[trigger] s.nodes()[i as int].left
            == self.del_left(z, i)
        &&& forall|i: usize| (i as int) < n && i != z ==> #[trigger] s.nodes()[i as int].right
            == self.del_right(z, i)
        &&& forall|i: usize| (i as int) < n && i != z ==> #[trigger] s.nodes()[i as int].parent
            == self.del_parent(z, i)
        &&& s.root_spec() == if self.nodes()[z as int].parent is None {
            self.stand_in(z)
        } else {
            self.root_spec()
        }
    }

    /// The ghost description of `s` is that of `self` with `z` taken out.
    closed spec fn reshaped_as(&self, s: BstTree, z: usize) -> bool {
        let n = self.nodes@.len();
        let p = self.pos@[z as int];
        let two = self.two_children(z);
        let y = self.heir(z);
        let lcut = if two { p + 1 } else { p };
        &&& s.order@ == self.order@.remove(p)
        &&& s.nodes@.len() == n
        &&& s.pos@.len() == n && s.lo@.len() == n && s.hi@.len() == n
        &&& forall|i: int| 0 <= i < n ==> #[trigger] s.pos@[i] == if i == z as int {
            -1
        } else if self.pos@[i] <= p {
            self.pos@[i]
        } else {
            self.pos@[i] - 1
        }
        &&& forall|i: int| 0 <= i < n ==> #[trigger] s.lo@[i] == if two && i == y as int {
            self.lo@[z as int]
        } else if self.lo@[i] <= lcut {
            self.lo@[i]
        } else {
            self.lo@[i] - 1
        }
        &&& forall|i: int| 0 <= i < n ==> #[trigger] s.hi@[i] == if two && i == y as int {
            self.hi@[z as int] - 1
        } else if self.hi@[i] <= p {
            self.hi@[i]
        } else {
            self.hi@[i] - 1
        }
    }
}

impl BstNode {
    /// Removes node `z` from the tree. With at most one child, that child
    /// takes `z`'s place. With two, `z`'s in-order successor `y` does: `y`
    /// is first replaced by its right child if it lies deeper than `z`'s
    /// right child, then takes `z`'s place and both of `z`'s subtrees.
    #[verifier::rlimit(100)]
    pub fn tree_delete(tree: &mut BstTree, z: usize)
        requires
            old(tree).wf(),
            old(tree).in_tree(z),
        ensures
            final(tree).wf(),
            final(tree).order() == old(tree).order().remove(old(tree).pos(z)),
            old(tree).unlinked_as(*final(tree), z),
            !final(tree).in_tree(z),
            final(tree).nodes().len() == old(tree).nodes().len(),
            forall|i: int| 0 <= i < old(tree).nodes().len()
                ==> #[trigger] final(tree).nodes()[i].key == old(tree).nodes()[i].key,
            forall|i: usize| i != z && #[trigger] old(tree).in_tree(i) ==> final(tree).in_tree(i),
            old(tree).two_children(z) ==> old(tree).heir(z) == old(tree).subtree(
                old(tree).nodes()[z as int].right.unwrap(),
            )[0] && old(tree).nodes()[old(tree).heir(z) as int].left is None,
    {
        let ghost old_t = *tree;
        proof {
            tree.lemma_node(z);
            if let Some(c) = tree.nodes@[z as int].left {
                tree.lemma_node(c);
            }
            if let Some(c) = tree.nodes@[z as int].right {
                tree.lemma_node(c);
            }
            if let Some(c) = tree.nodes@[z as int].parent {
                tree.lemma_node(c);
            }
        }
        let zn = tree.nodes[z];
        if zn.left.is_none() {
            BstNode::transplant(tree, z, zn.right);
        } else if zn.right.is_none() {
            BstNode::transplant(tree, z, zn.left);
        } else {
            let zr = zn.right.unwrap();
            let y = BstNode::minimum(tree, zr);
            proof {
                assert(y == old_t.heir(z));
                old_t.lemma_heir(z);
                old_t.lemma_node(y);
                if let Some(c) = old_t.nodes@[y as int].right {
                    old_t.lemma_node(c);
                }
                if old_t.heir_deep(z) {
                    old_t.lemma_node(old_t.heir_parent(z));
                }
            }
            if !BstNode::is_node_match(y, zr) {
                let y_right = tree.nodes[y].right;
                BstNode::transplant(tree, y, y_right);
                let z_right = tree.nodes[z].right;
                tree.set_right(y, z_right);
                tree.set_parent(zr, Some(y));
            }
            BstNode::transplant(tree, z, Some(y));
            let z_left = tree.nodes[z].left;
            tree.set_left(y, z_left);
            if let Some(l) = z_left {
                tree.set_parent(l, Some(y));
            }
        }
        proof {
            assert(old_t.unlinked_as(*tree, z));
        }
        let ghost n = old_t.nodes@.len();
        let ghost p = old_t.pos@[z as int];
        let ghost two = old_t.two_children(z);
        let ghost y = old_t.heir(z);
        let ghost lcut = if two { p + 1 } else { p };
        tree.order = Ghost(old_t.order@.remove(p));
        tree.pos = Ghost(Seq::new(n, |i: int| if i == z as int {
            -1
        } else if old_t.pos@[i] <= p {
            old_t.pos@[i]
        } else {
            old_t.pos@[i] - 1
        }));
        tree.lo = Ghost(Seq::new(n, |i: int| if two && i == y as int {
            old_t.lo@[z as int]
        } else if old_t.lo@[i] <= lcut {
            old_t.lo@[i]
        } else {
            old_t.lo@[i] - 1
        }));
        tree.hi = Ghost(Seq::new(n, |i: int| if two && i == y as int {
            old_t.hi@[z as int] - 1
        } else if old_t.hi@[i] <= p {
            old_t.hi@[i]
        } else {
            old_t.hi@[i] - 1
        }));
        proof {
            assert(old_t.unlinked_as(*tree, z));
            assert(old_t.reshaped_as(*tree, z));
            old_t.lemma_remove(*tree, z);
        }
    }
}

impl BstTree {
    /// Where the place of `z` was, and how its heir hangs, when `z` has two
    /// children.
    proof fn lemma_heir(&self, z: usize)
        requires
            self.wf(),
            self.in_tree(z),
            self.two_children(z),
            self.nodes@[self.heir(z) as int].left is None,
        ensures
            self.pos@[z as int] + 1 < self.order@.len(),
            self.in_tree(self.heir(z)),
            self.pos@[self.heir(z) as int] == self.pos@[z as int] + 1,
            self.lo@[self.heir(z) as int] == self.pos@[z as int] + 1,
            self.heir(z) != z,
            self.heir_deep(z) ==> {
                let hp = self.heir_parent(z);
                &&& self.nodes@[self.heir(z) as int].parent == Some(hp)
                &&& self.in_tree(hp)
                &&& self.nodes@[hp as int].left == Some(self.heir(z))
                &&& self.lo@[hp as int] == self.pos@[z as int] + 1
                &&& self.pos@[hp as int] == self.hi@[self.heir(z) as int]
                &&& hp != z
            },
            !self.heir_deep(z) ==> self.nodes@[self.heir(z) as int].parent == Some(z),
    {
        let p = self.pos@[z as int];
        let y = self.heir(z);
        self.lemma_node(z);
        let zr = self.nodes@[z as int].right.unwrap();
        self.lemma_node(zr);
        self.lemma_order(p + 1);
        self.lemma_node(y);
        self.lemma_root();
        if self.heir_deep(z) {
            let hp = self.heir_parent(z);
            self.lemma_node(hp);
            if self.nodes@[hp as int].right == Some(y) {
                self.lemma_order(p);
                assert(hp == z);
            }
        }
    }

    /// Taking `z` out removes it, and only it, from the tree.
    proof fn lemma_remove_in_tree(&self, s: BstTree, z: usize, i: usize)
        requires
            self.wf(),
            self.in_tree(z),
            self.reshaped_as(s, z),
        ensures
            s.in_tree(i) == (i != z && self.in_tree(i)),
    {
        let p = self.pos@[z as int];
        let len = self.order@.len();
        let n = self.nodes@.len();
        self.lemma_order(p);
        assert(s.order@.len() == len - 1);
        if i == z {
            assert(s.pos@[z as int] == -1);
        } else if (i as int) < n {
            let k = self.pos@[i as int];
            assert(s.pos@[i as int] == if k <= p { k } else { k - 1 });
            if 0 <= k < p {
                assert(s.order@[k] == self.order@[k]);
            } else if k == p {
                if p + 1 < len {
                    self.lemma_order(p + 1);
                    assert(s.order@[p] == self.order@[p + 1]);
                }
            } else if p < k < len {
                assert(s.order@[k - 1] == self.order@[k]);
            }
        }
    }

    /// Taking `z` out keeps the local conditions of every remaining node.
    #[verifier::rlimit(100)]
    proof fn lemma_remove_node(&self, s: BstTree, z: usize, i: usize)
        requires
            self.wf(),
            self.in_tree(z),
            self.two_children(z) ==> self.nodes@[self.heir(z) as int].left is None,
            self.unlinked_as(s, z),
            self.reshaped_as(s, z),
            s.in_tree(i),
        ensures
            s.node_ok(i),
    {
        let o = self.nodes@;
        let zn = o[z as int];
        self.lemma_remove_in_tree(s, z, i);
        self.lemma_node(i);
        self.lemma_node(z);
        self.lemma_root();
        let on = o[i as int];
        if let Some(c) = on.left {
            self.lemma_remove_in_tree(s, z, c);
            self.lemma_node(c);
        }
        if let Some(c) = on.right {
            self.lemma_remove_in_tree(s, z, c);
            self.lemma_node(c);
        }
        if let Some(c) = on.parent {
            self.lemma_remove_in_tree(s, z, c);
            self.lemma_node(c);
        }
        if let Some(c) = zn.left {
            self.lemma_remove_in_tree(s, z, c);
            self.lemma_node(c);
        }
        if let Some(c) = zn.right {
            self.lemma_remove_in_tree(s, z, c);
            self.lemma_node(c);
        }
        if let Some(c) = zn.parent {
            self.lemma_remove_in_tree(s, z, c);
            self.lemma_node(c);
        }
        if self.two_children(z) {
            self.lemma_heir(z);
            let y = self.heir(z);
            self.lemma_remove_in_tree(s, z, y);
            self.lemma_node(y);
            if let Some(c) = o[y as int].right {
                self.lemma_remove_in_tree(s, z, c);
                self.lemma_node(c);
            }
            if self.heir_deep(z) {
                let hp = self.heir_parent(z);
                self.lemma_remove_in_tree(s, z, hp);
                self.lemma_node(hp);
            }
        }
        let p = self.pos@[z as int];
        let pi = self.pos@[i as int];
        if s.nodes@[i as int].left is Some {
            assert(forall|j: usize| (j as int) < o.len() ==> #[trigger] s.key(j) == self.key(j));
            if pi < p {
                self.lemma_order(pi - 1);
                assert(s.order@[pi - 1] == self.order@[pi - 1]);
            } else if pi > p + 1 {
                self.lemma_order(pi - 1);
                assert(s.order@[pi - 2] == self.order@[pi - 1]);
            } else if pi == p + 1 {
                if p >= 1 {
                    self.lemma_order(p - 1);
                    assert(s.order@[p - 1] == self.order@[p - 1]);
                    self.lemma_sorted(p - 1, p);
                }
                self.lemma_sorted(p, p + 1);
                self.lemma_order(p);
            }
        }
        assert(s.node_ok(i));
    }

    /// Taking `z` out keeps the keys in order.
    proof fn lemma_remove_sorted(&self, s: BstTree, z: usize, a: int, b: int)
        requires
            self.wf(),
            self.in_tree(z),
            self.unlinked_as(s, z),
            self.reshaped_as(s, z),
            0 <= a <= b < self.order@.len() - 1,
        ensures
            s.key(s.order@[a]) <= s.key(s.order@[b]),
    {
        let p = self.pos@[z as int];
        let a0 = if a < p { a } else { a + 1 };
        let b0 = if b < p { b } else { b + 1 };
        assert(s.order@[a] == self.order@[a0]);
        assert(s.order@[b] == self.order@[b0]);
        self.lemma_order(a0);
        self.lemma_order(b0);
        self.lemma_sorted(a0, b0);
    }

    /// After `z` is taken out the root spans the whole order.
    proof fn lemma_remove_root(&self, s: BstTree, z: usize)
        requires
            self.wf(),
            self.in_tree(z),
            self.two_children(z) ==> self.nodes@[self.heir(z) as int].left is None,
            self.unlinked_as(s, z),
            self.reshaped_as(s, z),
        ensures
            match s.root {
                Some(r) => s.in_tree(r) && s.nodes@[r as int].parent is None
                    && s.lo@[r as int] == 0 && s.hi@[r as int] == s.order@.len(),
                None => s.order@.len() == 0,
            },
    {
        self.lemma_root();
        self.lemma_node(z);
        if self.two_children(z) {
            self.lemma_heir(z);
            self.lemma_node(self.heir(z));
            if let Some(c) = self.nodes@[self.heir(z) as int].right {
                self.lemma_node(c);
            }
        }
        if let Some(c) = self.nodes@[z as int].left {
            self.lemma_node(c);
        }
        if let Some(c) = self.nodes@[z as int].right {
            self.lemma_node(c);
        }
        if let Some(c) = self.nodes@[z as int].parent {
            self.lemma_node(c);
        }
        if let Some(r) = self.root {
            self.lemma_node(r);
        }
        if let Some(r) = s.root {
            self.lemma_remove_in_tree(s, z, r);
        }
    }

    /// Taking `z` out keeps the tree well formed.
    proof fn lemma_remove(&self, s: BstTree, z: usize)
        requires
            self.wf(),
            self.in_tree(z),
            self.two_children(z) ==> self.nodes@[self.heir(z) as int].left is None,
            self.unlinked_as(s, z),
            self.reshaped_as(s, z),
        ensures
            s.wf(),
            !s.in_tree(z),
            forall|i: usize| i != z && #[trigger] self.in_tree(i) ==> s.in_tree(i),
    {
        let p = self.pos@[z as int];
        let len = self.order@.len();
        self.lemma_remove_in_tree(s, z, z);
        assert forall|i: usize| i != z && #[trigger] self.in_tree(i) implies s.in_tree(i) by {
            self.lemma_remove_in_tree(s, z, i);
        }
        assert forall|k: int| #![trigger s.order@[k]] 0 <= k < len - 1 implies s.in_tree(s.order@[k])
            && s.pos@[s.order@[k] as int] == k by {
            if k < p {
                assert(s.order@[k] == self.order@[k]);
                self.lemma_order(k);
                self.lemma_remove_in_tree(s, z, self.order@[k]);
            } else {
                assert(s.order@[k] == self.order@[k + 1]);
                self.lemma_order(k + 1);
                self.lemma_remove_in_tree(s, z, self.order@[k + 1]);
            }
        }
        assert forall|i: usize| #[trigger] s.in_tree(i) implies s.node_ok(i) by {
            self.lemma_remove_node(s, z, i);
        }
        assert forall|a: int, b: int| 0 <= a <= b < len - 1 implies
            s.key(s.order@[a]) <= s.key(s.order@[b]) by {
            self.lemma_remove_sorted(s, z, a, b);
        }
        self.lemma_remove_root(s, z);
        reveal(BstTree::wf);
    }
}

impl BstTree {
    /// The subtree of the root is the whole tree.
    pub proof fn lemma_root_subtree(&self)
        requires
            self.wf(),
            self.root_spec() is Some,
        ensures
            self.subtree(self.root_spec().unwrap()) == self.order(),
            self.in_tree(self.root_spec().unwrap()),
    {
        self.lemma_root();
        assert(self.subtree(self.root.unwrap()) =~= self.order@);
    }

    /// A tree has a root exactly when it has nodes.
    pub proof fn lemma_root_iff_nonempty(&self)
        requires
            self.wf(),
        ensures
            self.root_spec() is None <==> self.order().len() == 0,
    {
        self.lemma_root();
        if let Some(r) = self.root {
            self.lemma_node(r);
        }
    }

    /// A node of the tree stands at its place in `order()` and holds a key.
    pub proof fn lemma_in_tree_order(&self, x: usize)
        requires
            self.wf(),
            self.in_tree(x),
        ensures
            self.order().contains(x),
            self.order()[self.pos(x)] == x,
            0 <= self.pos(x) < self.order().len(),
            (x as int) < self.nodes().len(),
            self.nodes()[x as int].key is Some,
            self.nodes()[x as int].parent != Some(x),
    {
        self.lemma_node(x);
    }

    /// An in-order walk of a tree reads its keys in non-decreasing order.
    pub proof fn lemma_inorder_sorted(&self)
        requires
            self.wf(),
        ensures
            forall|a: int, b: int| 0 <= a <= b < self.inorder().len()
                ==> #[trigger] self.inorder()[a] <= #[trigger] self.inorder()[b],
    {
        assert forall|a: int, b: int| 0 <= a <= b < self.inorder().len()
            implies #[trigger] self.inorder()[a] <= #[trigger] self.inorder()[b] by {
            self.lemma_sorted(a, b);
        }
    }

    /// Every node's parent link names the node that holds it as a child, and
    /// its children's parent links name it.
    pub proof fn lemma_parent_links(&self, i: usize)
        requires
            self.wf(),
            self.in_tree(i),
        ensures
            self.nodes()[i as int].parent matches Some(p) ==> self.in_tree(p) && (
                self.nodes()[p as int].left == Some(i) || self.nodes()[p as int].right == Some(i)),
            self.nodes()[i as int].parent is None ==> self.root_spec() == Some(i),
            self.root_spec() matches Some(r) ==> self.in_tree(r) && self.nodes()[r as int].parent is None,
            self.nodes()[i as int].left matches Some(c) ==> self.in_tree(c)
                && self.nodes()[c as int].parent == Some(i),
            self.nodes()[i as int].right matches Some(c) ==> self.in_tree(c)
                && self.nodes()[c as int].parent == Some(i),
    {
        self.lemma_node(i);
        self.lemma_root();
    }

    /// Keys in a node's left subtree are below its key; keys in its right
    /// subtree are not.
    pub proof fn lemma_subtree_keys(&self, i: usize)
        requires
            self.wf(),
            self.in_tree(i),
        ensures
            self.subtree(i).contains(i),
            self.nodes()[i as int].left matches Some(c) ==> forall|x: usize|
                #[trigger] self.subtree(c).contains(x) ==> self.key(x) < self.key(i),
            self.nodes()[i as int].right matches Some(c) ==> forall|x: usize|
                #[trigger] self.subtree(c).contains(x) ==> self.key(i) <= self.key(x),
    {
        self.lemma_node(i);
        let p = self.pos@[i as int];
        assert(self.subtree(i)[p - self.lo@[i as int]] == i);
        if let Some(c) = self.nodes@[i as int].left {
            self.lemma_node(c);
            assert forall|x: usize| #[trigger] self.subtree(c).contains(x) implies self.key(x) < self.key(i) by {
                let j = choose|j: int| 0 <= j < self.subtree(c).len() && self.subtree(c)[j] == x;
                let lo = self.lo@[c as int];
                assert(self.order@[lo + j] == x);
                self.lemma_sorted(lo + j, p - 1);
            }
        }
        if let Some(c) = self.nodes@[i as int].right {
            self.lemma_node(c);
            assert forall|x: usize| #[trigger] self.subtree(c).contains(x) implies self.key(i) <= self.key(x) by {
                let j = choose|j: int| 0 <= j < self.subtree(c).len() && self.subtree(c)[j] == x;
                assert(self.order@[p + 1 + j] == x);
                self.lemma_sorted(p, p + 1 + j);
            }
        }
    }

    /// A search from the root finds a node holding `v` exactly when some
    /// node of the tree holds `v`.
    pub proof fn lemma_search_from_root(&self, v: int, r: Option<usize>)
        requires
            self.wf(),
            self.root_spec() is Some,
            self.search_result(self.root_spec().unwrap(), v, r),
        ensures
            self.inorder().contains(v) ==> r is Some && self.key(r.unwrap()) == v,
            !self.inorder().contains(v) ==> r is None,
    {
        self.lemma_root_subtree();
        if self.inorder().contains(v) {
            let k = choose|k: int| 0 <= k < self.inorder().len() && self.inorder()[k] == v;
            assert(self.subtree(self.root.unwrap()).contains(self.order@[k]));
        }
        if let Some(x) = r {
            let k = choose|k: int| 0 <= k < self.order().len() && self.order()[k] == x;
            assert(self.inorder()[k] == v);
        }
    }

    /// The least node below the root holds the least key of the tree and the
    /// greatest node the greatest; in a tree of one node both are the root.
    pub proof fn lemma_min_max_of_tree(&self, lo_node: usize, hi_node: usize)
        requires
            self.wf(),
            self.root_spec() is Some,
            lo_node == self.subtree(self.root_spec().unwrap())[0],
            hi_node == self.subtree(self.root_spec().unwrap()).last(),
        ensures
            self.inorder().contains(self.key(lo_node)),
            self.inorder().contains(self.key(hi_node)),
            forall|k: int| 0 <= k < self.inorder().len()
                ==> self.key(lo_node) <= #[trigger] self.inorder()[k] <= self.key(hi_node),
            self.order().len() == 1 ==> lo_node == self.root_spec().unwrap()
                && hi_node == self.root_spec().unwrap(),
    {
        self.lemma_root_subtree();
        let len = self.order@.len();
        self.lemma_node(self.root.unwrap());
        assert(self.inorder()[0] == self.key(lo_node));
        assert(self.inorder()[len - 1] == self.key(hi_node));
        assert forall|k: int| 0 <= k < self.inorder().len()
            implies self.key(lo_node) <= #[trigger] self.inorder()[k] <= self.key(hi_node) by {
            self.lemma_sorted(0, k);
            self.lemma_sorted(k, len - 1);
        }
        if len == 1 {
            self.lemma_order(0);
        }
    }

    /// Where no other node holds `x`'s key, the node after `x` in order holds
    /// the least key greater than it, and there is none exactly when `x`
    /// holds the greatest key.
    pub proof fn lemma_successor_key(&self, x: usize)
        requires
            self.wf(),
            self.in_tree(x),
            forall|w: usize| #[trigger] self.in_tree(w) && w != x ==> self.key(w) != self.key(x),
        ensures
            self.next_in_order(x) matches Some(y) ==> self.in_tree(y) && self.key(x) < self.key(y)
                && forall|w: usize| #[trigger] self.in_tree(w) && self.key(x) < self.key(w)
                    ==> self.key(y) <= self.key(w),
            self.next_in_order(x) is None <==> forall|w: usize| #[trigger] self.in_tree(w)
                ==> self.key(w) <= self.key(x),
    {
        let p = self.pos@[x as int];
        let len = self.order@.len();
        if p + 1 < len {
            let y = self.order@[p + 1];
            self.lemma_order(p + 1);
            self.lemma_sorted(p, p + 1);
            assert forall|w: usize| #[trigger] self.in_tree(w) && self.key(x) < self.key(w)
                implies self.key(y) <= self.key(w) by {
                let q = self.pos@[w as int];
                if q <= p {
                    self.lemma_sorted(q, p);
                } else {
                    self.lemma_sorted(p + 1, q);
                }
            }
            assert(!(self.key(y) <= self.key(x)));
        } else {
            assert forall|w: usize| #[trigger] self.in_tree(w) implies self.key(w) <= self.key(x) by {
                self.lemma_sorted(self.pos@[w as int], p);
            }
        }
    }

    /// Removing node `z` from the order, with every key kept, removes `z`'s
    /// key, once, from the in-order keys.
    pub proof fn lemma_delete_inorder(&self, after: BstTree, z: usize)
        requires
            self.wf(),
            self.in_tree(z),
            after.order() == self.order().remove(self.pos(z)),
            after.nodes().len() == self.nodes().len(),
            forall|i: int| 0 <= i < self.nodes().len()
                ==> #[trigger] after.nodes()[i].key == self.nodes()[i].key,
        ensures
            self.inorder()[self.pos(z)] == self.key(z),
            after.inorder() == self.inorder().remove(self.pos(z)),
    {
        assert forall|k: int| 0 <= k < after.order().len() implies
            #[trigger] after.key(after.order()[k]) == self.key(after.order()[k]) by {
            let k0 = if k < self.pos(z) { k } else { k + 1 };
            assert(after.order()[k] == self.order()[k0]);
            self.lemma_order(k0);
        }
        assert(after.inorder() =~= self.inorder().remove(self.pos(z)));
    }

    /// After a fresh node with key `v` is inserted, a search from the root
    /// finds a node holding `v`; if `v` was absent before and that node is
    /// then deleted, a search for `v` finds nothing.
    pub proof fn lemma_insert_search_delete(
        &self,
        mid: BstTree,
        fin: BstTree,
        z: usize,
        q: int,
        found: Option<usize>,
        lost: Option<usize>,
    )
        requires
            self.wf(),
            self.is_fresh(z),
            mid.wf(),
            self.insert_place(q, self.key(z)),
            mid.order() == self.order().insert(q, z),
            mid.nodes().len() == self.nodes().len(),
            forall|i: int| 0 <= i < self.nodes().len()
                ==> #[trigger] mid.nodes()[i].key == self.nodes()[i].key,
            mid.search_result(mid.root_spec().unwrap(), self.key(z), found),
            mid.in_tree(z),
            fin.wf(),
            fin.order() == mid.order().remove(mid.pos(z)),
            fin.nodes().len() == mid.nodes().len(),
            forall|i: int| 0 <= i < mid.nodes().len()
                ==> #[trigger] fin.nodes()[i].key == mid.nodes()[i].key,
            fin.root_spec() is Some ==> fin.search_result(fin.root_spec().unwrap(), self.key(z), lost),
        ensures
            found is Some && mid.key(found.unwrap()) == self.key(z),
            !self.inorder().contains(self.key(z)) ==> fin.root_spec() is None || lost is None,
    {
        mid.lemma_root();
        assert(mid.order()[q] == z);
        mid.lemma_in_tree_order(z);
        assert(mid.inorder()[q] == self.key(z));
        mid.lemma_search_from_root(self.key(z), found);
        mid.lemma_order(q);
        assert(fin.order() =~= self.order());
        if fin.root_spec() is Some {
            assert forall|k: int| 0 <= k < fin.order().len() implies
                #[trigger] fin.key(fin.order()[k]) == self.key(self.order()[k]) by {
                self.lemma_order(k);
            }
            assert(fin.inorder() =~= self.inorder());
            fin.lemma_search_from_root(self.key(z), lost);
        }
    }
}

impl BstTree {
    /// The handle of the root, if the tree is not empty.
    pub fn root(&self) -> (r: Option<usize>)
        ensures
            r == self.root_spec(),
    {
        self.root
    }

    /// The number of nodes in the arena, in the tree or not.
    pub fn node_count(&self) -> (r: usize)
        ensures
            r == self.nodes().len(),
    {
        self.nodes.len()
    }

    /// A copy of node `i`.
    pub fn node(&self, i: usize) -> (r: BstNode)
        requires
            (i as int) < self.nodes().len(),
        ensures
            r == self.nodes()[i as int],
    {
        self.nodes[i]
    }

    /// The keys of the tree in order, read by walking from the least node
    /// through successors.
    pub fn inorder_keys(&self) -> (r: Vec<i32>)
        requires
            self.wf(),
        ensures
            r@.map_values(|k: i32| k as int) == self.inorder(),
    {
        let mut out: Vec<i32> = Vec::new();
        let r = match self.root {
            None => {
                proof {
                    self.lemma_root();
                    assert(out@.map_values(|k: i32| k as int) =~= self.inorder());
                }
                return out;
            },
            Some(r) => r,
        };
        proof {
            self.lemma_root_subtree();
        }
        let mut x = BstNode::minimum(self, r);
        proof {
            self.lemma_order(0);
        }
        loop
            invariant
                self.wf(),
                self.in_tree(x),
                self.pos@[x as int] == out@.len(),
                out@.map_values(|k: i32| k as int) =~= self.inorder().take(out@.len() as int),
            decreases self.order@.len() - out@.len(),
        {
            proof {
                self.lemma_node(x);
            }
            let k = match self.nodes[x].key {
                Some(k) => k,
                None => 0,
            };
            let ghost before = out@;
            out.push(k);
            proof {
                assert(out@.map_values(|k: i32| k as int) =~= self.inorder().take(out@.len() as int));
            }
            match BstNode::tree_successor(self, x) {
                None => {
                    proof {
                        assert(out@.map_values(|k: i32| k as int) =~= self.inorder());
                    }
                    return out;
                },
                Some(next) => {
                    proof {
                        self.lemma_order(self.pos@[x as int] + 1);
                    }
                    x = next;
                },
            }
        }
    }
}

impl BstNode {
    /// A copy of this node, links included.
    pub fn get_bst_nodelink_copy(&self) -> (r: BstNode)
        ensures
            r == *self,
    {
        *self
    }
}

} // verus!