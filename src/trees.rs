//! Binary trees: depth-first traversals and binary-search-tree lookup and
//! insertion.
use vstd::prelude::*;
use crate::linked_lists::Queue;

verus! {

/// A node of a binary tree, owning its two subtrees.
pub struct BinaryNode<T> {
    pub value: T,
    pub left: Option<Box<BinaryNode<T>>>,
    pub right: Option<Box<BinaryNode<T>>>,
}

impl<T: Clone> BinaryNode<T> {
    /// A leaf holding `value`.
    pub fn new(value: T) -> (r: BinaryNode<T>)
        ensures
            r.value == value,
            r.left is None,
            r.right is None,
    {
        BinaryNode { value, left: None, right: None }
    }

    /// A copy of the value held in this node.
    pub fn get_value(&self) -> (r: T)
        ensures
            cloned(self.value, r),
    {
        self.value.clone()
    }
}

impl BinaryNode<i64> {
    /// Looks for `value` by the search-tree rule: left when it is at most the
    /// node's value, right when it is greater.
    ///
    /// `true` means that the tree holds `value`; on a search tree, `false`
    /// means that it does not.
    pub fn search(&self, value: i64) -> (r: bool)
        ensures
            r ==> in_order(rooted(*self)).contains(value),
            is_search_tree(rooted(*self)) ==> (r <==> in_order(rooted(*self)).contains(value)),
        decreases *self,
    {
        let node_value = self.get_value();
        if node_value == value {
            proof {
                let s = in_order(rooted(*self));
                assert(s[in_order(self.left).len() as int] == value);
            }
            true
        } else if value <= node_value {
            match &self.left {
                Some(l) => {
                    let r = l.search(value);
                    proof {
                        let s = in_order(rooted(*self));
                        let a = in_order(self.left);
                        assert(self.left == rooted(**l));
                        if r {
                            let i = choose|i: int| 0 <= i < a.len() && a[i] == value;
                            assert(s[i] == value);
                        }
                        lemma_not_right(*self, value);
                        if s.contains(value) {
                            let j = choose|j: int| 0 <= j < s.len() && s[j] == value;
                            if j < a.len() {
                                assert(a[j] == value);
                            }
                        }
                    }
                    r
                },
                None => {
                    proof {
                        lemma_not_right(*self, value);
                    }
                    false
                },
            }
        } else {
            match &self.right {
                Some(rt) => {
                    let r = rt.search(value);
                    proof {
                        let s = in_order(rooted(*self));
                        let a = in_order(self.left);
                        let b = in_order(self.right);
                        assert(self.right == rooted(**rt));
                        if r {
                            let i = choose|i: int| 0 <= i < b.len() && b[i] == value;
                            assert(s[a.len() + 1 + i] == value);
                        }
                        lemma_not_left(*self, value);
                        if s.contains(value) {
                            let j = choose|j: int| 0 <= j < s.len() && s[j] == value;
                            if j > a.len() {
                                assert(b[j - a.len() - 1] == value);
                            }
                        }
                    }
                    r
                },
                None => {
                    proof {
                        lemma_not_left(*self, value);
                    }
                    false
                },
            }
        }
    }

    /// Adds `value` as a new leaf where the search-tree rule leads: into the
    /// left subtree when it is at most the node's value, else into the right.
    pub fn insert(&mut self, value: i64)
        ensures
            in_order(rooted(*final(self))).to_multiset() == in_order(rooted(*old(self))).to_multiset().insert(value),
            is_search_tree(rooted(*old(self))) ==> is_search_tree(rooted(*final(self))),
        decreases *old(self),
    {
        let current_value = self.get_value();
        proof {
            broadcast use vstd::seq_lib::group_to_multiset_ensures;
        }
        if value <= current_value {
            let taken = self.left.take();
            match taken {
                Some(b) => {
                    let mut child = *b;
                    child.insert(value);
                    self.left = Some(Box::new(child));
                },
                None => {
                    let leaf = BinaryNode::new(value);
                    proof {
                        assert(in_order(leaf.left) == Seq::<i64>::empty());
                        assert(in_order(leaf.right) == Seq::<i64>::empty());
                        assert(is_search_tree(leaf.left) && is_search_tree(leaf.right));
                        assert(in_order(rooted(leaf)) =~= seq![value]);
                        assert(is_search_tree(rooted(leaf)));
                    }
                    self.left = Some(Box::new(leaf));
                    assert(in_order(self.left) =~= seq![value]);
                },
            }
        } else {
            let taken = self.right.take();
            match taken {
                Some(b) => {
                    let mut child = *b;
                    child.insert(value);
                    self.right = Some(Box::new(child));
                },
                None => {
                    let leaf = BinaryNode::new(value);
                    proof {
                        assert(in_order(leaf.left) == Seq::<i64>::empty());
                        assert(in_order(leaf.right) == Seq::<i64>::empty());
                        assert(is_search_tree(leaf.left) && is_search_tree(leaf.right));
                        assert(in_order(rooted(leaf)) =~= seq![value]);
                        assert(is_search_tree(rooted(leaf)));
                    }
                    self.right = Some(Box::new(leaf));
                    assert(in_order(self.right) =~= seq![value]);
                },
            }
        }
        proof {
            let o = *old(self);
            let n = *self;
            assert(in_order(rooted(n)) == in_order(n.left) + seq![n.value] + in_order(n.right));
            assert(in_order(rooted(o)) == in_order(o.left) + seq![o.value] + in_order(o.right));
            vstd::seq_lib::lemma_multiset_commutative(in_order(n.left) + seq![n.value], in_order(n.right));
            vstd::seq_lib::lemma_multiset_commutative(in_order(n.left), seq![n.value]);
            vstd::seq_lib::lemma_multiset_commutative(in_order(o.left) + seq![o.value], in_order(o.right));
            vstd::seq_lib::lemma_multiset_commutative(in_order(o.left), seq![o.value]);
            assert(in_order(rooted(n)).to_multiset() =~= in_order(rooted(o)).to_multiset().insert(value));
            if is_search_tree(rooted(o)) {
                assert(is_search_tree(o.left) && is_search_tree(o.right));
                if value <= o.value {
                    lemma_bound_kept(in_order(o.left), in_order(n.left), value, o.value, true);
                } else {
                    lemma_bound_kept(in_order(o.right), in_order(n.right), value, o.value, false);
                }
            }
        }
    }
}

/// A value at most the root's is not in the right subtree of a search tree.
proof fn lemma_not_right(n: BinaryNode<i64>, value: i64)
    requires
        value <= n.value,
    ensures
        is_search_tree(rooted(n)) ==> !in_order(n.right).contains(value),
{
}

/// A value greater than the root's is not in the left subtree of a search tree.
proof fn lemma_not_left(n: BinaryNode<i64>, value: i64)
    requires
        value > n.value,
    ensures
        is_search_tree(rooted(n)) ==> !in_order(n.left).contains(value),
{
}

/// Adding `v` to a sequence whose elements all lie on one side of `bound`,
/// with `v` on that side too, keeps them all on that side.
proof fn lemma_bound_kept(a: Seq<i64>, b: Seq<i64>, v: i64, bound: i64, at_most: bool)
    requires
        b.to_multiset() == a.to_multiset().insert(v),
        at_most ==> v <= bound,
        !at_most ==> v > bound,
        at_most ==> forall|i: int| 0 <= i < a.len() ==> #[trigger] a[i] <= bound,
        !at_most ==> forall|i: int| 0 <= i < a.len() ==> #[trigger] a[i] > bound,
    ensures
        at_most ==> forall|i: int| 0 <= i < b.len() ==> #[trigger] b[i] <= bound,
        !at_most ==> forall|i: int| 0 <= i < b.len() ==> #[trigger] b[i] > bound,
{
    broadcast use vstd::seq_lib::group_to_multiset_ensures;

    assert forall|i: int| 0 <= i < b.len() implies (at_most ==> b[i] <= bound) && (!at_most ==> b[i]
        > bound) by {
        assert(b.contains(b[i]));
        assert(b.to_multiset().count(b[i]) > 0);
        if b[i] != v {
            assert(a.to_multiset().count(b[i]) > 0);
            assert(a.contains(b[i]));
        }
    }
}

/// The values held in a tree.
pub open spec fn tree_values(t: Option<Box<BinaryNode<i64>>>) -> Set<i64>
    decreases t,
{
    match t {
        None => Set::empty(),
        Some(n) => tree_values(n.left).union(tree_values(n.right)).insert(n.value),
    }
}

/// The number of nodes of a tree.
pub open spec fn tree_count(t: Option<Box<BinaryNode<i64>>>) -> nat
    decreases t,
{
    match t {
        None => 0,
        Some(n) => tree_count(n.left) + tree_count(n.right) + 1,
    }
}

/// The values held in a list of trees.
pub open spec fn forest_values(f: Seq<Box<BinaryNode<i64>>>) -> Set<i64>
    decreases f.len(),
{
    if f.len() == 0 {
        Set::empty()
    } else {
        tree_values(Some(f[0])).union(forest_values(f.drop_first()))
    }
}

/// The number of nodes of a list of trees.
pub open spec fn forest_count(f: Seq<Box<BinaryNode<i64>>>) -> nat
    decreases f.len(),
{
    if f.len() == 0 {
        0
    } else {
        tree_count(Some(f[0])) + forest_count(f.drop_first())
    }
}

proof fn lemma_forest_push(f: Seq<Box<BinaryNode<i64>>>, t: Box<BinaryNode<i64>>)
    ensures
        forest_values(f.push(t)) == forest_values(f).union(tree_values(Some(t))),
        forest_count(f.push(t)) == forest_count(f) + tree_count(Some(t)),
    decreases f.len(),
{
    if f.len() == 0 {
        let e = Seq::<Box<BinaryNode<i64>>>::empty();
        assert(f.push(t).drop_first() =~= e);
        assert(f.push(t)[0] == t);
        assert(forest_values(e) == Set::<i64>::empty());
        assert(forest_count(e) == 0);
        assert(forest_values(f.push(t)) =~= forest_values(f).union(tree_values(Some(t))));
    } else {
        assert(f.push(t).drop_first() =~= f.drop_first().push(t));
        lemma_forest_push(f.drop_first(), t);
        assert(forest_values(f.push(t)) =~= forest_values(f).union(tree_values(Some(t))));
    }
}

/// Searches the trees of `queue` level by level for `target`: looks at the
/// node at the head, and unless it holds `target` replaces it by its
/// children at the tail. Whether `target` is found does not depend on the
/// order; on success the node holding it is left at the head, otherwise the
/// queue ends empty.
pub fn breadth_first_search(queue: &mut Queue<Box<BinaryNode<i64>>>, target: i64) -> (r: bool)
    ensures
        r == forest_values(old(queue)@).contains(target),
        r ==> final(queue)@.len() > 0 && final(queue)@[0].value == target,
        !r ==> final(queue)@.len() == 0,
    decreases forest_count(old(queue)@),
{
    let found = match queue.peek() {
        None => {
            return false;
        },
        Some(node) => node.get_value() == target,
    };
    if found {
        return true;
    }
    let ghost f = queue@;
    let node = queue.deque();
    let ghost boxed = node;
    let n = *node;
    proof {
        assert(f.drop_first() == queue@);
        assert(tree_values(Some(boxed)) == tree_values(n.left).union(tree_values(n.right)).insert(
            n.value,
        ));
        assert(tree_count(Some(boxed)) == tree_count(n.left) + tree_count(n.right) + 1);
    }
    if let Some(l) = n.left {
        proof {
            lemma_forest_push(queue@, l);
        }
        queue.enque(l);
    }
    if let Some(rt) = n.right {
        proof {
            lemma_forest_push(queue@, rt);
        }
        queue.enque(rt);
    }
    proof {
        assert(f[0] == boxed);
        assert(forest_values(f) =~= forest_values(queue@).insert(n.value));
    }
    breadth_first_search(queue, target)
}

/// Node first, then the left subtree, then the right one.
pub open spec fn pre_order(t: Option<Box<BinaryNode<i64>>>) -> Seq<i64>
    decreases t,
{
    match t {
        None => Seq::empty(),
        Some(n) => seq![n.value] + pre_order(n.left) + pre_order(n.right),
    }
}

/// The left subtree, then the right one, then the node.
pub open spec fn post_order(t: Option<Box<BinaryNode<i64>>>) -> Seq<i64>
    decreases t,
{
    match t {
        None => Seq::empty(),
        Some(n) => post_order(n.left) + post_order(n.right) + seq![n.value],
    }
}

/// The left subtree, then the node, then the right subtree.
pub open spec fn in_order(t: Option<Box<BinaryNode<i64>>>) -> Seq<i64>
    decreases t,
{
    match t {
        None => Seq::empty(),
        Some(n) => in_order(n.left) + seq![n.value] + in_order(n.right),
    }
}

/// Every value of the left subtree is at most the node's, every value of the
/// right subtree is greater, and both subtrees are search trees too.
pub open spec fn is_search_tree(t: Option<Box<BinaryNode<i64>>>) -> bool
    decreases t,
{
    match t {
        None => true,
        Some(n) => {
            &&& is_search_tree(n.left)
            &&& is_search_tree(n.right)
            &&& forall|i: int| 0 <= i < in_order(n.left).len() ==> #[trigger] in_order(n.left)[i] <= n.value
            &&& forall|i: int| 0 <= i < in_order(n.right).len() ==> #[trigger] in_order(n.right)[i] > n.value
        },
    }
}

/// The tree whose root is `n`.
pub open spec fn rooted(n: BinaryNode<i64>) -> Option<Box<BinaryNode<i64>>> {
    Some(Box::new(n))
}

/// Appends the values of the tree to `path`, each node before its subtrees.
pub fn pre_order_traverse(node: &Option<Box<BinaryNode<i64>>>, path: &mut Vec<i64>)
    ensures
        final(path)@ == old(path)@ + pre_order(*node),
    decreases *node,
{
    match node {
        None => {
            assert(old(path)@ + pre_order(*node) =~= old(path)@);
        },
        Some(n) => {
            path.push(n.value);
            pre_order_traverse(&n.left, path);
            pre_order_traverse(&n.right, path);
            assert(final(path)@ =~= old(path)@ + pre_order(*node));
        },
    }
}

/// Appends the values of the tree to `path`, each node after its subtrees.
pub fn post_order_traverse(node: &Option<Box<BinaryNode<i64>>>, path: &mut Vec<i64>)
    ensures
        final(path)@ == old(path)@ + post_order(*node),
    decreases *node,
{
    match node {
        None => {
            assert(old(path)@ + post_order(*node) =~= old(path)@);
        },
        Some(n) => {
            post_order_traverse(&n.left, path);
            post_order_traverse(&n.right, path);
            path.push(n.value);
            assert(final(path)@ =~= old(path)@ + post_order(*node));
        },
    }
}

/// Appends the values of the tree to `path`, each node between its subtrees.
pub fn in_order_traverse(node: &Option<Box<BinaryNode<i64>>>, path: &mut Vec<i64>)
    ensures
        final(path)@ == old(path)@ + in_order(*node),
    decreases *node,
{
    match node {
        None => {
            assert(old(path)@ + in_order(*node) =~= old(path)@);
        },
        Some(n) => {
            in_order_traverse(&n.left, path);
            path.push(n.value);
            in_order_traverse(&n.right, path);
            assert(final(path)@ =~= old(path)@ + in_order(*node));
        },
    }
}

} // verus!
