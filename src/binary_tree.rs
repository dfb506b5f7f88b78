//! An unbalanced binary search tree: smaller values go left, the others right.

use vstd::prelude::*;
use crate::text::{decimal, push_char, push_decimal, push_repeat, repeat};
use crate::linked_list::{
    all_ge, all_lt, insert_sorted, lemma_insert_sorted_after, lemma_insert_sorted_before,
    lemma_insert_sorted_bounds,
};

verus! {

/// A binary search tree: empty, or a node with two subtrees.
pub struct BinaryTree<T> {
    node: Option<Box<Node<T>>>,
}

struct Node<T> {
    data: T,
    left: BinaryTree<T>,
    right: BinaryTree<T>,
}

impl<T> BinaryTree<T> {
    /// The values in order: left subtree, node, right subtree.
    pub closed spec fn inorder(&self) -> Seq<T>
        decreases self,
    {
        match self.node {
            None => Seq::empty(),
            Some(n) => n.left.inorder() + seq![n.data] + n.right.inorder(),
        }
    }

    /// The number of nodes on the longest path from the root down.
    pub closed spec fn levels(&self) -> nat
        decreases self,
    {
        match self.node {
            None => 0,
            Some(n) => 1 + if n.left.levels() >= n.right.levels() {
                n.left.levels()
            } else {
                n.right.levels()
            },
        }
    }

    /// An empty tree.
    pub fn new() -> (r: Self)
        ensures
            r.inorder() == Seq::<T>::empty(),
            r.levels() == 0,
    {
        BinaryTree { node: None }
    }
}

impl BinaryTree<i32> {
    /// Every node's left subtree holds smaller values, its right subtree
    /// values at least as large.
    pub closed spec fn bst(&self) -> bool
        decreases self,
    {
        match self.node {
            None => true,
            Some(n) => {
                &&& n.left.bst()
                &&& n.right.bst()
                &&& all_lt(n.left.inorder(), n.data)
                &&& all_ge(n.right.inorder(), n.data)
            },
        }
    }

    /// An empty tree is a search tree.
    pub proof fn lemma_empty_bst(t: BinaryTree<i32>)
        requires
            t.inorder().len() == 0,
        ensures
            t.bst(),
    {
        if t.node.is_some() {
            let n = t.node.unwrap();
            assert(t.inorder() == n.left.inorder() + seq![n.data] + n.right.inorder());
        }
    }

    /// Adds `data` as a new leaf; an equal value goes to the right.
    #[verifier::rlimit(40)]
    pub fn add(&mut self, data: i32)
        requires
            old(self).bst(),
        ensures
            final(self).bst(),
            final(self).inorder() == insert_sorted(old(self).inorder(), data),
        decreases old(self).inorder().len(),
    {
        let ghost t0 = *self;
        match self.node {
            Some(ref mut node) => {
                let ghost l0 = node.left.inorder();
                let ghost r0 = node.right.inorder();
                let ghost d = node.data;
                proof {
                    assert(t0.inorder() == l0 + seq![d] + r0);
                    lemma_insert_sorted_bounds(l0, data, d);
                    lemma_insert_sorted_bounds(r0, data, d);
                }
                if data < node.data {
                    node.left.add(data);
                    assert(all_lt(node.left.inorder(), d));
                    assert(node.left.inorder() == insert_sorted(l0, data));
                    proof {
                        lemma_insert_sorted_before(l0, seq![d] + r0, data);
                        assert(l0 + seq![d] + r0 =~= l0 + (seq![d] + r0));
                        assert(insert_sorted(l0, data) + (seq![d] + r0) =~= insert_sorted(l0, data)
                            + seq![d] + r0);
                    }
                } else {
                    node.right.add(data);
                    assert(all_ge(node.right.inorder(), d));
                    assert(node.right.inorder() == insert_sorted(r0, data));
                    proof {
                        assert forall|i: int| 0 <= i < l0.len() implies l0[i] <= data by {
                            assert(l0[i] < d);
                        }
                        lemma_insert_sorted_after(l0, seq![d] + r0, data);
                        assert(l0 + seq![d] + r0 =~= l0 + (seq![d] + r0));
                        assert(insert_sorted(seq![d] + r0, data) =~= seq![d] + insert_sorted(r0, data)) by {
                            assert((seq![d] + r0).drop_first() =~= r0);
                        }
                        assert(l0 + (seq![d] + insert_sorted(r0, data)) =~= l0 + seq![d]
                            + insert_sorted(r0, data));
                    }
                }
            },
            None => {
                self.node = Some(Box::new(Node { data, left: BinaryTree::new(), right: BinaryTree::new() }));
                assert(insert_sorted(Seq::<i32>::empty(), data) =~= seq![data]);
                assert(Seq::<i32>::empty() + seq![data] + Seq::<i32>::empty() =~= seq![data]);
            },
        }
    }
}

impl BinaryTree<i32> {
    /// One line per value, in order: a dot per level below `depth`'s root,
    /// then the value.
    pub closed spec fn render(&self, depth: nat) -> Seq<char>
        decreases self,
    {
        match self.node {
            None => Seq::empty(),
            Some(n) => n.left.render(depth + 1) + repeat('.', depth) + decimal(n.data as int)
                + seq!['\n'] + n.right.render(depth + 1),
        }
    }

    /// Appends the rendering of the tree, its root at `depth`, to `buffer`.
    pub fn print_lfirst(&self, depth: usize, buffer: String) -> (r: String)
        requires
            depth + self.levels() <= usize::MAX,
        ensures
            r@ == buffer@ + self.render(depth as nat),
        decreases self.levels(),
    {
        match &self.node {
            Some(node) => {
                let ghost b0 = buffer@;
                let mut buffer = node.left.print_lfirst(depth + 1, buffer);
                push_repeat(&mut buffer, '.', depth);
                push_decimal(&mut buffer, node.data as i64);
                push_char(&mut buffer, '\n');
                let buffer = node.right.print_lfirst(depth + 1, buffer);
                assert(buffer@ =~= b0 + self.render(depth as nat));
                buffer
            },
            None => {
                assert(buffer@ + self.render(depth as nat) =~= buffer@);
                buffer
            },
        }
    }
}

impl<T: Copy> BinaryTree<T> {
    /// Appends the values in order to `out`.
    pub fn sorted_values(&self, out: Vec<T>) -> (r: Vec<T>)
        ensures
            r@ == out@ + self.inorder(),
        decreases self.inorder().len(),
    {
        match &self.node {
            Some(node) => {
                assert(self.inorder() == node.left.inorder() + seq![node.data] + node.right.inorder());
                let ghost o = out@;
                let mut out = node.left.sorted_values(out);
                out.push(node.data);
                let out = node.right.sorted_values(out);
                assert(out@ =~= o + self.inorder());
                out
            },
            None => {
                assert(out@ + self.inorder() =~= out@);
                out
            },
        }
    }
}

} // verus!
