//! A binary search tree whose nodes record their height, with a left
//! rotation.

use vstd::prelude::*;
use crate::text::{decimal, push_char, push_decimal, push_repeat, repeat};
use crate::linked_list::{
    all_ge, all_lt, insert_sorted, lemma_insert_sorted_after, lemma_insert_sorted_before,
    lemma_insert_sorted_bounds,
};

verus! {

/// A binary search tree whose nodes record the height of their subtree.
pub struct BinaryTree<T> {
    node: Option<Box<Node<T>>>,
}

/// A node: a value, its recorded height, and two subtrees.
pub struct Node<T> {
    data: T,
    height: i8,
    left: BinaryTree<T>,
    right: BinaryTree<T>,
}

pub open spec fn max_nat(a: nat, b: nat) -> nat {
    if a >= b {
        a
    } else {
        b
    }
}

impl<T> BinaryTree<T> {
    /// The values in order: left subtree, node, right subtree.
    pub closed spec fn inorder(&self) -> Seq<T>
        decreases self,
    {
        match self.node {
            None => Seq::empty(),
            Some(n) => n.left.inorder() + seq![n.data] + n.right.inorder(),
        }
    }

    /// The number of nodes on the longest path from the root down.
    pub closed spec fn height_spec(&self) -> nat
        decreases self,
    {
        match self.node {
            None => 0,
            Some(n) => 1 + max_nat(n.left.height_spec(), n.right.height_spec()),
        }
    }

    /// Every node records the height of its subtree.
    pub closed spec fn heights_ok(&self) -> bool
        decreases self,
    {
        match self.node {
            None => true,
            Some(n) => {
                &&& n.left.heights_ok()
                &&& n.right.heights_ok()
                &&& n.height as int == self.height_spec()
            },
        }
    }

    /// An empty tree.
    pub fn new() -> (r: Self)
        ensures
            r.inorder() == Seq::<T>::empty(),
            r.height_spec() == 0,
            r.heights_ok(),
    {
        BinaryTree { node: None }
    }

    /// The recorded height of the root (zero for an empty tree).
    pub fn height(&self) -> (r: i8)
        requires
            self.heights_ok(),
        ensures
            r as int == self.height_spec(),
    {
        match &self.node {
            Some(node) => node.height,
            None => 0,
        }
    }

    /// Rotates left: the right child becomes the root and the old root its
    /// left child, taking over the right child's left subtree. The order of
    /// the values is unchanged.
    pub fn rotate_left(&mut self)
        requires
            old(self).heights_ok(),
            old(self).height_spec() < 127,
            old(self).has_right_child(),
        ensures
            final(self).heights_ok(),
            final(self).inorder() == old(self).inorder(),
            final(self).height_spec() <= old(self).height_spec() + 1,
            ({
                let p = old(self).root_node();
                let q = p.right_tree().root_node();
                let r = final(self).root_node();
                let p2 = r.left_tree().root_node();
                &&& final(self).has_root()
                &&& r.value() == q.value()
                &&& r.right_tree() == q.right_tree()
                &&& r.left_tree().has_root()
                &&& p2.value() == p.value()
                &&& p2.left_tree() == p.left_tree()
                &&& p2.right_tree() == q.left_tree()
                &&& p2.recorded_height() == 1 + max_nat(
                    p.left_tree().height_spec(),
                    q.left_tree().height_spec(),
                )
                &&& r.recorded_height() == 1 + max_nat(
                    r.left_tree().height_spec(),
                    q.right_tree().height_spec(),
                )
            }),
    {
        let ghost t0 = *self;
        let mut p = self.node.take().unwrap();
        let ghost pr = p.right;
        let ghost a = p.left;
        assert(t0.inorder() == a.inorder() + seq![p.data] + pr.inorder());
        assert(t0.height_spec() == 1 + max_nat(a.height_spec(), pr.height_spec()));
        assert(a.heights_ok() && pr.heights_ok());
        let mut q = p.right.node.take().unwrap();
        let ghost b = q.left;
        let ghost c = q.right;
        assert(pr.inorder() == b.inorder() + seq![q.data] + c.inorder());
        assert(pr.height_spec() == 1 + max_nat(b.height_spec(), c.height_spec()));
        assert(b.heights_ok() && c.heights_ok());
        p.right = BinaryTree { node: q.left.node.take() };
        p.compute_and_set_height();
        let ghost pd = p.data;
        let ghost qd = q.data;
        assert(p.left == a && p.right.inorder() == b.inorder() && p.right.heights_ok());
        let pt = BinaryTree { node: Some(p) };
        assert(pt.inorder() == a.inorder() + seq![pd] + b.inorder());
        assert(pt.heights_ok());
        assert(pt.height_spec() == 1 + max_nat(a.height_spec(), b.height_spec()));
        q.left = pt;
        q.compute_and_set_height();
        assert(q.right == c);
        self.node = Some(q);
        assert(self.inorder() == pt.inorder() + seq![qd] + c.inorder());
        assert(self.inorder() =~= t0.inorder());
        assert(self.heights_ok());
    }
}

impl<T> BinaryTree<T> {
    /// Whether the tree has a root.
    pub closed spec fn has_root(&self) -> bool {
        self.node.is_some()
    }

    /// The root node (meaningful where there is one).
    pub closed spec fn root_node(&self) -> Node<T> {
        *self.node.unwrap()
    }

    /// The root exists and has a right child.
    pub closed spec fn has_right_child(&self) -> bool {
        self.node.is_some() && self.node.unwrap().right.node.is_some()
    }
}

impl<T> Node<T> {
    pub closed spec fn left_tree(&self) -> BinaryTree<T> {
        self.left
    }

    pub closed spec fn right_tree(&self) -> BinaryTree<T> {
        self.right
    }

    pub closed spec fn value(&self) -> T {
        self.data
    }

    pub closed spec fn recorded_height(&self) -> int {
        self.height as int
    }

    /// Records the node's height from its children's recorded heights.
    pub fn compute_and_set_height(&mut self)
        requires
            old(self).left_tree().heights_ok(),
            old(self).right_tree().heights_ok(),
            1 + max_nat(old(self).left_tree().height_spec(), old(self).right_tree().height_spec())
                <= 127,
        ensures
            final(self).recorded_height() == 1 + max_nat(
                old(self).left_tree().height_spec(),
                old(self).right_tree().height_spec(),
            ),
            final(self).value() == old(self).value(),
            final(self).left_tree() == old(self).left_tree(),
            final(self).right_tree() == old(self).right_tree(),
    {
        let l = self.left.height();
        let r = self.right.height();
        self.height = 1 + if l >= r {
            l
        } else {
            r
        };
    }
}

impl BinaryTree<i32> {
    /// Every node's left subtree holds smaller values, its right subtree
    /// values at least as large.
    pub closed spec fn bst(&self) -> bool
        decreases self,
    {
        match self.node {
            None => true,
            Some(n) => {
                &&& n.left.bst()
                &&& n.right.bst()
                &&& all_lt(n.left.inorder(), n.data)
                &&& all_ge(n.right.inorder(), n.data)
            },
        }
    }

    /// An empty tree is a search tree.
    pub proof fn lemma_empty_bst(t: BinaryTree<i32>)
        requires
            t.inorder().len() == 0,
        ensures
            t.bst(),
    {
        if t.node.is_some() {
            let n = t.node.unwrap();
            assert(t.inorder() == n.left.inorder() + seq![n.data] + n.right.inorder());
        }
    }

    /// Adds `data` as a new leaf (an equal value goes to the right) and
    /// updates the heights on the way back up.
    #[verifier::rlimit(60)]
    pub fn add(&mut self, data: i32)
        requires
            old(self).bst(),
            old(self).heights_ok(),
            old(self).height_spec() < 127,
        ensures
            final(self).bst(),
            final(self).heights_ok(),
            final(self).inorder() == insert_sorted(old(self).inorder(), data),
            old(self).height_spec() <= final(self).height_spec() <= old(self).height_spec() + 1,
        decreases old(self).inorder().len(),
    {
        let ghost t0 = *self;
        match self.node {
            Some(ref mut node) => {
                let ghost l0 = node.left.inorder();
                let ghost r0 = node.right.inorder();
                let ghost d = node.data;
                proof {
                    assert(t0.inorder() == l0 + seq![d] + r0);
                    lemma_insert_sorted_bounds(l0, data, d);
                    lemma_insert_sorted_bounds(r0, data, d);
                }
                if data < node.data {
                    node.left.add(data);
                    assert(all_lt(node.left.inorder(), d));
                    assert(node.left.inorder() == insert_sorted(l0, data));
                    proof {
                        lemma_insert_sorted_before(l0, seq![d] + r0, data);
                        assert(l0 + seq![d] + r0 =~= l0 + (seq![d] + r0));
                        assert(insert_sorted(l0, data) + (seq![d] + r0) =~= insert_sorted(l0, data)
                            + seq![d] + r0);
                    }
                } else {
                    node.right.add(data);
                    assert(all_ge(node.right.inorder(), d));
                    assert(node.right.inorder() == insert_sorted(r0, data));
                    proof {
                        assert forall|i: int| 0 <= i < l0.len() implies l0[i] <= data by {
                            assert(l0[i] < d);
                        }
                        lemma_insert_sorted_after(l0, seq![d] + r0, data);
                        assert(l0 + seq![d] + r0 =~= l0 + (seq![d] + r0));
                        assert(insert_sorted(seq![d] + r0, data) =~= seq![d] + insert_sorted(r0, data)) by {
                            assert((seq![d] + r0).drop_first() =~= r0);
                        }
                        assert(l0 + (seq![d] + insert_sorted(r0, data)) =~= l0 + seq![d]
                            + insert_sorted(r0, data));
                    }
                }
                node.compute_and_set_height();
            },
            None => {
                self.node = Some(
                    Box::new(
                        Node { data, height: 1, left: BinaryTree::new(), right: BinaryTree::new() },
                    ),
                );
                assert(insert_sorted(Seq::<i32>::empty(), data) =~= seq![data]);
                assert(Seq::<i32>::empty() + seq![data] + Seq::<i32>::empty() =~= seq![data]);
            },
        }
    }
}

impl BinaryTree<i32> {
    /// One line per value, in order: the node's recorded height, a colon, a
    /// dot per level below `depth`'s root, then the value.
    pub closed spec fn render(&self, depth: nat) -> Seq<char>
        decreases self,
    {
        match self.node {
            None => Seq::empty(),
            Some(n) => n.left.render(depth + 1) + decimal(n.height as int) + seq![':'] + repeat(
                '.',
                depth,
            ) + decimal(n.data as int) + seq!['\n'] + n.right.render(depth + 1),
        }
    }

    /// Appends the rendering of the tree, its root at `depth`, to `buffer`.
    pub fn print_lfirst(&self, depth: usize, buffer: String) -> (r: String)
        requires
            depth + self.height_spec() <= usize::MAX,
        ensures
            r@ == buffer@ + self.render(depth as nat),
        decreases self.height_spec(),
    {
        match &self.node {
            Some(node) => {
                let ghost b0 = buffer@;
                let mut buffer = node.left.print_lfirst(depth + 1, buffer);
                push_decimal(&mut buffer, node.height as i64);
                push_char(&mut buffer, ':');
                push_repeat(&mut buffer, '.', depth);
                push_decimal(&mut buffer, node.data as i64);
                push_char(&mut buffer, '\n');
                let buffer = node.right.print_lfirst(depth + 1, buffer);
                assert(buffer@ =~= b0 + self.render(depth as nat));
                buffer
            },
            None => {
                assert(buffer@ + self.render(depth as nat) =~= buffer@);
                buffer
            },
        }
    }
}

impl<T> BinaryTree<T> {
    /// Appends references to the values, in order, to `out`.
    pub fn sorted_values<'a>(&'a self, out: Vec<&'a T>) -> (r: Vec<&'a T>)
        ensures
            r@.len() == out@.len() + self.inorder().len(),
            forall|i: int| 0 <= i < out@.len() ==> r@[i] == out@[i],
            forall|i: int|
                0 <= i < self.inorder().len() ==> *r@[out@.len() + i] == self.inorder()[i],
        decreases self.inorder().len(),
    {
        match &self.node {
            Some(node) => {
                let ghost s = self.inorder();
                let ghost ln = node.left.inorder().len();
                assert(s == node.left.inorder() + seq![node.data] + node.right.inorder());
                let ghost o = out@;
                let mut out = node.left.sorted_values(out);
                out.push(&node.data);
                let out = node.right.sorted_values(out);
                assert forall|i: int| 0 <= i < s.len() implies *out@[o.len() + i] == s[i] by {
                    if i < ln {
                    } else if i == ln {
                    } else {
                    }
                }
                out
            },
            None => out,
        }
    }
}

} // verus!
