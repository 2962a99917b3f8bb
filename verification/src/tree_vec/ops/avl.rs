//! A rank-indexed AVL tree: a sequence of pairs with logarithmic insertion
//! and lookup by position.

use crate::tree_vec::types::Pair;
use vstd::prelude::*;

verus! {

/// A node of the tree, caching the height and the size of its subtree.
pub struct Node {
    value: Pair,
    height: usize,
    size: usize,
    left: Option<Box<Node>>,
    right: Option<Box<Node>>,
}

/// A sequence of pairs held in a height-balanced binary tree whose in-order
/// traversal is the sequence.
pub struct AVLTree {
    root: Option<Box<Node>>,
}

/// The shape of a binary tree, without what its nodes hold.
pub enum Shape {
    Empty,
    Fork(Box<Shape>, Box<Shape>),
}

impl Shape {
    /// The number of nodes on the longest path from the root down.
    pub open spec fn height(self) -> nat
        decreases self,
    {
        match self {
            Shape::Empty => 0,
            Shape::Fork(left, right) => 1 + if left.height() >= right.height() {
                left.height()
            } else {
                right.height()
            },
        }
    }

    /// The number of nodes.
    pub open spec fn size(self) -> nat
        decreases self,
    {
        match self {
            Shape::Empty => 0,
            Shape::Fork(left, right) => left.size() + 1 + right.size(),
        }
    }

    /// At every node the heights of the two subtrees differ by at most one.
    pub open spec fn balanced(self) -> bool
        decreases self,
    {
        match self {
            Shape::Empty => true,
            Shape::Fork(left, right) => {
                &&& left.balanced()
                &&& right.balanced()
                &&& left.height() <= right.height() + 1
                &&& right.height() <= left.height() + 1
            },
        }
    }
}

spec fn max_nat(a: nat, b: nat) -> nat {
    if a >= b {
        a
    } else {
        b
    }
}

/// Two to the power `e`.
pub open spec fn power_of_two(e: nat) -> nat
    decreases e,
{
    if e == 0 {
        1
    } else {
        2 * power_of_two((e - 1) as nat)
    }
}

proof fn lemma_power_of_two_grows(a: nat, b: nat)
    requires
        a <= b,
    ensures
        power_of_two(a) <= power_of_two(b),
    decreases b,
{
    if a < b {
        lemma_power_of_two_grows(a, (b - 1) as nat);
    }
}

/// Inserting into the left part of `l + [v] + r`.
proof fn lemma_insert_left(l: Seq<Pair>, v: Pair, r: Seq<Pair>, i: int, x: Pair)
    requires
        0 <= i <= l.len(),
    ensures
        (l.push(v) + r).insert(i, x) == l.insert(i, x).push(v) + r,
{
    assert((l.push(v) + r).insert(i, x) =~= l.insert(i, x).push(v) + r);
}

/// Inserting into the right part of `l + [v] + r`.
proof fn lemma_insert_right(l: Seq<Pair>, v: Pair, r: Seq<Pair>, i: int, x: Pair)
    requires
        l.len() < i <= l.len() + 1 + r.len(),
    ensures
        (l.push(v) + r).insert(i, x) == l.push(v) + r.insert(i - l.len() - 1, x),
{
    assert((l.push(v) + r).insert(i, x) =~= l.push(v) + r.insert(i - l.len() - 1, x));
}

impl Node {
    /// The in-order sequence of an optional subtree.
    spec fn opt_seq(node: Option<Box<Node>>) -> Seq<Pair>
        decreases node,
    {
        match node {
            None => Seq::empty(),
            Some(n) => Node::opt_seq(n.left).push(n.value) + Node::opt_seq(n.right),
        }
    }

    /// The true height of an optional subtree: the number of nodes on its
    /// longest path from the root down.
    spec fn opt_height(node: Option<Box<Node>>) -> nat
        decreases node,
    {
        match node {
            None => 0,
            Some(n) => 1 + max_nat(Node::opt_height(n.left), Node::opt_height(n.right)),
        }
    }

    /// Every node of an optional subtree is balanced and caches its true
    /// height and size.
    spec fn opt_wf(node: Option<Box<Node>>) -> bool
        decreases node,
    {
        match node {
            None => true,
            Some(n) => {
                &&& Node::opt_wf(n.left)
                &&& Node::opt_wf(n.right)
                &&& n.fields_ok()
                &&& n.balanced_here()
            },
        }
    }

    /// The in-order sequence of the subtree rooted here.
    spec fn seq(self) -> Seq<Pair> {
        Node::opt_seq(self.left).push(self.value) + Node::opt_seq(self.right)
    }

    spec fn true_height(self) -> nat {
        1 + max_nat(Node::opt_height(self.left), Node::opt_height(self.right))
    }

    /// The cached height and size agree with the shape of the subtree.
    spec fn fields_ok(self) -> bool {
        &&& self.height == self.true_height()
        &&& self.size == self.seq().len()
    }

    /// The root of an optional subtree, if there is one, caches its true
    /// height and size.
    spec fn opt_cached(node: Option<Box<Node>>) -> bool {
        match node {
            None => true,
            Some(n) => n.fields_ok(),
        }
    }

    /// The heights of the two children differ by at most one.
    spec fn balanced_here(self) -> bool {
        &&& Node::opt_height(self.left) <= Node::opt_height(self.right) + 1
        &&& Node::opt_height(self.right) <= Node::opt_height(self.left) + 1
    }

    spec fn wf(self) -> bool {
        &&& Node::opt_wf(self.left)
        &&& Node::opt_wf(self.right)
        &&& self.fields_ok()
        &&& self.balanced_here()
    }

    /// A subtree whose children are well formed and whose cached fields are
    /// right, but whose root may lean by two.
    spec fn almost_wf(self) -> bool {
        &&& Node::opt_wf(self.left)
        &&& Node::opt_wf(self.right)
        &&& self.fields_ok()
        &&& Node::opt_height(self.left) <= Node::opt_height(self.right) + 2
        &&& Node::opt_height(self.right) <= Node::opt_height(self.left) + 2
    }

    /// `r` is the subtree `y` turned to the right about its left child `x`:
    /// `x` on top, `y` below it on the right, the three outer subtrees in
    /// their old order, and both caches recomputed.
    spec fn rotated_right(y: Node, x: Node, r: Option<Box<Node>>) -> bool {
        match r {
            Some(top) => match top.right {
                Some(low) => {
                    &&& top.value == x.value
                    &&& top.left == x.left
                    &&& low.value == y.value
                    &&& low.left == x.right
                    &&& low.right == y.right
                    &&& low.fields_ok()
                    &&& top.fields_ok()
                },
                None => false,
            },
            None => false,
        }
    }

    /// `r` is the subtree `x` turned to the left about its right child `y`.
    spec fn rotated_left(x: Node, y: Node, r: Option<Box<Node>>) -> bool {
        match r {
            Some(top) => match top.left {
                Some(low) => {
                    &&& top.value == y.value
                    &&& top.right == y.right
                    &&& low.value == x.value
                    &&& low.left == x.left
                    &&& low.right == y.left
                    &&& low.fields_ok()
                    &&& top.fields_ok()
                },
                None => false,
            },
            None => false,
        }
    }

    fn new(value: Pair) -> (n: Node)
        ensures
            n.wf(),
            n.seq() == seq![value],
            n.true_height() == 1,
    {
        let n = Node { value, height: 1, size: 1, left: None, right: None };
        proof {
            assert(Node::opt_seq(n.left) == Seq::<Pair>::empty());
            assert(Node::opt_seq(n.right) == Seq::<Pair>::empty());
            assert(n.seq() =~= seq![value]);
        }
        n
    }

    /// What the recursive definitions say of a subtree that is not empty.
    proof fn lemma_unfold(n: Box<Node>)
        ensures
            Node::opt_wf(Some(n)) == n.wf(),
            Node::opt_height(Some(n)) == n.true_height(),
            Node::opt_seq(Some(n)) == n.seq(),
            Node::opt_cached(Some(n)) == n.fields_ok(),
            n.seq().len() == Node::opt_seq(n.left).len() + 1 + Node::opt_seq(n.right).len(),
            n.wf() ==> n.almost_wf(),
            n.wf() ==> Node::opt_cached(n.left) && Node::opt_cached(n.right),
    {
        match n.left {
            None => {},
            Some(l) => {},
        }
        match n.right {
            None => {},
            Some(r) => {},
        }
    }

    /// `lemma_unfold` for a subtree that may be empty.
    proof fn lemma_unfold_opt(node: Option<Box<Node>>)
        ensures
            match node {
                Some(n) => {
                    &&& Node::opt_wf(node) == n.wf()
                    &&& Node::opt_height(node) == n.true_height()
                    &&& Node::opt_seq(node) == n.seq()
                    &&& Node::opt_cached(node) == n.fields_ok()
                    &&& n.seq().len() == Node::opt_seq(n.left).len() + 1 + Node::opt_seq(
                        n.right,
                    ).len()
                    &&& n.wf() ==> n.almost_wf()
                    &&& n.wf() ==> Node::opt_cached(n.left) && Node::opt_cached(n.right)
                },
                None => {
                    &&& Node::opt_wf(node)
                    &&& Node::opt_height(node) == 0
                    &&& Node::opt_seq(node) == Seq::<Pair>::empty()
                    &&& Node::opt_cached(node)
                },
            },
    {
        if let Some(n) = node {
            Node::lemma_unfold(n);
        }
    }

    /// Turning a left-heavy subtree to the right restores the balance when
    /// its left child does not lean to the right.
    proof fn lemma_right_single(y: Node, x: Node, r: Option<Box<Node>>)
        requires
            y.almost_wf(),
            y.left == Some(Box::new(x)),
            Node::opt_height(y.left) == Node::opt_height(y.right) + 2,
            Node::opt_height(x.left) >= Node::opt_height(x.right),
            Node::rotated_right(y, x, r),
        ensures
            Node::opt_wf(r),
            Node::opt_seq(r) == y.seq(),
            Node::opt_height(r) <= y.true_height() <= Node::opt_height(r) + 1,
    {
        let top = r.unwrap();
        let low = top.right.unwrap();
        Node::lemma_unfold(Box::new(x));
        Node::lemma_unfold(top);
        Node::lemma_unfold(low);
        assert(low.wf());
        assert(top.wf());
        assert(top.seq() =~= y.seq());
    }

    /// The mirror image of `lemma_right_single`.
    proof fn lemma_left_single(x: Node, y: Node, r: Option<Box<Node>>)
        requires
            x.almost_wf(),
            x.right == Some(Box::new(y)),
            Node::opt_height(x.right) == Node::opt_height(x.left) + 2,
            Node::opt_height(y.right) >= Node::opt_height(y.left),
            Node::rotated_left(x, y, r),
        ensures
            Node::opt_wf(r),
            Node::opt_seq(r) == x.seq(),
            Node::opt_height(r) <= x.true_height() <= Node::opt_height(r) + 1,
    {
        let top = r.unwrap();
        let low = top.left.unwrap();
        Node::lemma_unfold(Box::new(y));
        Node::lemma_unfold(top);
        Node::lemma_unfold(low);
        assert(low.wf());
        assert(top.wf());
        assert(top.seq() =~= x.seq());
    }

    /// Turning the left child to the left and then the subtree to the right
    /// restores the balance when the left child leans to the right.
    proof fn lemma_right_double(
        y: Node,
        x: Node,
        b: Node,
        mid: Option<Box<Node>>,
        y2: Node,
        r: Option<Box<Node>>,
    )
        requires
            y.almost_wf(),
            y.left == Some(Box::new(x)),
            x.right == Some(Box::new(b)),
            Node::opt_height(y.left) == Node::opt_height(y.right) + 2,
            Node::opt_height(x.left) < Node::opt_height(x.right),
            Node::rotated_left(x, b, mid),
            mid is Some,
            y2.left == mid,
            y2.right == y.right,
            y2.value == y.value,
            Node::rotated_right(y2, *mid.unwrap(), r),
        ensures
            Node::opt_wf(r),
            Node::opt_seq(r) == y.seq(),
            Node::opt_height(r) + 1 == y.true_height(),
    {
        let m = mid.unwrap();
        let xl = m.left.unwrap();
        let top = r.unwrap();
        let low = top.right.unwrap();
        Node::lemma_unfold(Box::new(x));
        Node::lemma_unfold(Box::new(b));
        Node::lemma_unfold(m);
        Node::lemma_unfold(xl);
        Node::lemma_unfold(top);
        Node::lemma_unfold(low);
        assert(xl.wf());
        assert(low.wf());
        assert(top.wf());
        assert(xl.seq() =~= Node::opt_seq(x.left).push(x.value) + Node::opt_seq(b.left));
        assert(top.seq() =~= y.seq());
    }

    /// The mirror image of `lemma_right_double`.
    proof fn lemma_left_double(
        x: Node,
        y: Node,
        b: Node,
        mid: Option<Box<Node>>,
        x2: Node,
        r: Option<Box<Node>>,
    )
        requires
            x.almost_wf(),
            x.right == Some(Box::new(y)),
            y.left == Some(Box::new(b)),
            Node::opt_height(x.right) == Node::opt_height(x.left) + 2,
            Node::opt_height(y.right) < Node::opt_height(y.left),
            Node::rotated_right(y, b, mid),
            mid is Some,
            x2.right == mid,
            x2.left == x.left,
            x2.value == x.value,
            Node::rotated_left(x2, *mid.unwrap(), r),
        ensures
            Node::opt_wf(r),
            Node::opt_seq(r) == x.seq(),
            Node::opt_height(r) + 1 == x.true_height(),
    {
        let m = mid.unwrap();
        let yl = m.right.unwrap();
        let top = r.unwrap();
        let low = top.left.unwrap();
        Node::lemma_unfold(Box::new(y));
        Node::lemma_unfold(Box::new(b));
        Node::lemma_unfold(m);
        Node::lemma_unfold(yl);
        Node::lemma_unfold(top);
        Node::lemma_unfold(low);
        assert(yl.wf());
        assert(low.wf());
        assert(top.wf());
        assert(yl.seq() =~= Node::opt_seq(b.right).push(y.value) + Node::opt_seq(y.right));
        assert(top.seq() =~= x.seq());
    }

    /// A balanced subtree of height `h` holds at least `2^(h/2) - 1` nodes.
    proof fn lemma_height_logarithmic(node: Option<Box<Node>>)
        requires
            Node::opt_wf(node),
        ensures
            power_of_two(Node::opt_height(node) / 2) <= Node::opt_seq(node).len() + 1,
        decreases node,
    {
        match node {
            None => {},
            Some(n) => {
                Node::lemma_height_logarithmic(n.left);
                Node::lemma_height_logarithmic(n.right);
                let h = Node::opt_height(node);
                let hl = Node::opt_height(n.left);
                let hr = Node::opt_height(n.right);
                assert(n.seq().len() == Node::opt_seq(n.left).len() + 1 + Node::opt_seq(
                    n.right,
                ).len());
                if h >= 2 {
                    let low = ((h - 2) / 2) as nat;
                    lemma_power_of_two_grows(low, hl / 2);
                    lemma_power_of_two_grows(low, hr / 2);
                    assert(h / 2 == low + 1);
                    assert(power_of_two(h / 2) == 2 * power_of_two(low));
                }
            },
        }
    }

    /// What a stack of postponed nodes has still to yield: from the top of
    /// the stack down, each node's value and then its right subtree.
    spec fn pending(stack: Seq<&Node>) -> Seq<Pair>
        decreases stack.len(),
    {
        if stack.len() == 0 {
            Seq::empty()
        } else {
            (seq![stack.last().value] + Node::opt_seq(stack.last().right)) + Node::pending(
                stack.drop_last(),
            )
        }
    }

    /// The shape of an optional subtree.
    spec fn opt_shape(node: Option<Box<Node>>) -> Shape
        decreases node,
    {
        match node {
            None => Shape::Empty,
            Some(n) => Shape::Fork(
                Box::new(Node::opt_shape(n.left)),
                Box::new(Node::opt_shape(n.right)),
            ),
        }
    }

    /// The shape of a well-formed subtree is balanced, as high as the
    /// subtree and of as many nodes as it holds pairs.
    proof fn lemma_shape(node: Option<Box<Node>>)
        requires
            Node::opt_wf(node),
        ensures
            Node::opt_shape(node).balanced(),
            Node::opt_shape(node).height() == Node::opt_height(node),
            Node::opt_shape(node).size() == Node::opt_seq(node).len(),
        decreases node,
    {
        match node {
            None => {},
            Some(n) => {
                Node::lemma_shape(n.left);
                Node::lemma_shape(n.right);
                assert(n.seq().len() == Node::opt_seq(n.left).len() + 1 + Node::opt_seq(
                    n.right,
                ).len());
            },
        }
    }

    /// No subtree is higher than it has nodes.
    proof fn lemma_height_le_len(node: Option<Box<Node>>)
        ensures
            Node::opt_height(node) <= Node::opt_seq(node).len(),
        decreases node,
    {
        match node {
            None => {},
            Some(n) => {
                Node::lemma_height_le_len(n.left);
                Node::lemma_height_le_len(n.right);
            },
        }
    }

    /// A balanced subtree of height `h` holds at least `3h - 5` nodes, so
    /// heights stay far below the machine's word size.
    proof fn lemma_height_bound(node: Option<Box<Node>>)
        requires
            Node::opt_wf(node),
        ensures
            3 * Node::opt_height(node) <= Node::opt_seq(node).len() + 5,
        decreases node,
    {
        match node {
            None => {},
            Some(n) => {
                Node::lemma_height_bound(n.left);
                Node::lemma_height_bound(n.right);
                Node::lemma_height_le_len(n.left);
                Node::lemma_height_le_len(n.right);
                assert(n.seq().len() == Node::opt_seq(n.left).len() + 1 + Node::opt_seq(
                    n.right,
                ).len());
            },
        }
    }
}

impl View for AVLTree {
    type V = Seq<Pair>;

    /// The pairs of the tree in rank order.
    closed spec fn view(&self) -> Seq<Pair> {
        Node::opt_seq(self.root)
    }
}

impl AVLTree {
    /// Every node caches its true height and subtree size, and at every node
    /// the heights of the two children differ by at most one.
    pub closed spec fn wf(&self) -> bool {
        Node::opt_wf(self.root)
    }

    /// The height of the tree: the number of nodes on its longest path
    /// from the root down, 0 when it is empty.
    pub closed spec fn spec_height(&self) -> nat {
        Node::opt_height(self.root)
    }

    /// The number of pairs in the tree.
    pub fn len(&self) -> (n: usize)
        requires
            self.wf(),
        ensures
            n == self@.len(),
    {
        proof {
            Node::lemma_unfold_opt(self.root);
        }
        Self::get_size(&self.root)
    }

    /// The height of the tree: the number of nodes on its longest path
    /// from the root down, 0 when it is empty.
    pub fn height(&self) -> (h: usize)
        requires
            self.wf(),
        ensures
            h == self.spec_height(),
    {
        proof {
            Node::lemma_unfold_opt(self.root);
        }
        Self::get_height(&self.root)
    }

    /// The shape of the tree.
    pub closed spec fn shape(&self) -> Shape {
        Node::opt_shape(self.root)
    }

    /// In a well-formed tree the heights of the two subtrees of every node
    /// differ by at most one, and the tree has one node for each pair.
    pub proof fn lemma_wf_is_balanced(&self)
        requires
            self.wf(),
        ensures
            self.shape().balanced(),
            self.shape().height() == self.spec_height(),
            self.shape().size() == self@.len(),
    {
        Node::lemma_shape(self.root);
    }

    /// A well-formed tree is balanced: its height is at most twice the
    /// logarithm of its length plus one.
    pub proof fn lemma_height_is_logarithmic(&self)
        requires
            self.wf(),
        ensures
            power_of_two(self.spec_height() / 2) <= self@.len() + 1,
    {
        Node::lemma_height_logarithmic(self.root);
    }

    pub fn new() -> (tree: Self)
        ensures
            tree.wf(),
            tree@ == Seq::<Pair>::empty(),
            tree.shape() == Shape::Empty,
            tree.spec_height() == 0,
    {
        AVLTree { root: None }
    }

    fn get_height(node: &Option<Box<Node>>) -> (h: usize)
        ensures
            h == match *node {
                Some(n) => n.height,
                None => 0usize,
            },
    {
        match node {
            Some(n) => n.height,
            None => 0,
        }
    }

    fn get_size(node: &Option<Box<Node>>) -> (s: usize)
        ensures
            s == match *node {
                Some(n) => n.size,
                None => 0usize,
            },
    {
        match node {
            Some(n) => n.size,
            None => 0,
        }
    }

    fn update_height_and_size(n: &mut Node)
        requires
            Node::opt_cached(old(n).left),
            Node::opt_cached(old(n).right),
            Node::opt_seq(old(n).left).len() + Node::opt_seq(old(n).right).len() < usize::MAX,
        ensures
            final(n).value == old(n).value,
            final(n).left == old(n).left,
            final(n).right == old(n).right,
            final(n).fields_ok(),
    {
        proof {
            Node::lemma_height_le_len(n.left);
            Node::lemma_height_le_len(n.right);
        }
        let hl = Self::get_height(&n.left);
        let hr = Self::get_height(&n.right);
        n.height = 1 + if hl > hr {
            hl
        } else {
            hr
        };
        n.size = 1 + Self::get_size(&n.left) + Self::get_size(&n.right);
    }

    fn right_rotate(y: &mut Option<Box<Node>>) -> (r: Option<Box<Node>>)
        requires
            match *old(y) {
                Some(yn) => match yn.left {
                    Some(x) => {
                        &&& Node::opt_cached(x.left)
                        &&& Node::opt_cached(x.right)
                        &&& Node::opt_cached(yn.right)
                        &&& Node::opt_seq(x.left).len() + Node::opt_seq(x.right).len()
                            + Node::opt_seq(yn.right).len() + 1 < usize::MAX
                    },
                    None => true,
                },
                None => true,
            },
        ensures
            match *old(y) {
                Some(yn) => match yn.left {
                    Some(x) => *final(y) is None && Node::rotated_right(*yn, *x, r),
                    None => r is None && *final(y) == *old(y),
                },
                None => r is None && *final(y) is None,
            },
    {
        match y.take() {
            Some(mut y_node) => match y_node.left.take() {
                Some(mut x) => {
                    let t2 = x.right.take();
                    y_node.left = t2;
                    Self::update_height_and_size(&mut *y_node);
                    proof {
                        assert(Node::opt_seq(Some(y_node)).len() == Node::opt_seq(
                            y_node.left,
                        ).len() + 1 + Node::opt_seq(y_node.right).len());
                    }
                    x.right = Some(y_node);
                    Self::update_height_and_size(&mut *x);
                    Some(x)
                },
                None => {
                    *y = Some(y_node);
                    None
                },
            },
            None => None,
        }
    }

    fn left_rotate(x: &mut Option<Box<Node>>) -> (r: Option<Box<Node>>)
        requires
            match *old(x) {
                Some(xn) => match xn.right {
                    Some(y) => {
                        &&& Node::opt_cached(xn.left)
                        &&& Node::opt_cached(y.left)
                        &&& Node::opt_cached(y.right)
                        &&& Node::opt_seq(xn.left).len() + Node::opt_seq(y.left).len()
                            + Node::opt_seq(y.right).len() + 1 < usize::MAX
                    },
                    None => true,
                },
                None => true,
            },
        ensures
            match *old(x) {
                Some(xn) => match xn.right {
                    Some(y) => *final(x) is None && Node::rotated_left(*xn, *y, r),
                    None => r is None && *final(x) == *old(x),
                },
                None => r is None && *final(x) is None,
            },
    {
        match x.take() {
            Some(mut x_node) => match x_node.right.take() {
                Some(mut y) => {
                    let t2 = y.left.take();
                    x_node.right = t2;
                    Self::update_height_and_size(&mut *x_node);
                    proof {
                        assert(Node::opt_seq(Some(x_node)).len() == Node::opt_seq(
                            x_node.left,
                        ).len() + 1 + Node::opt_seq(x_node.right).len());
                    }
                    y.left = Some(x_node);
                    Self::update_height_and_size(&mut *y);
                    Some(y)
                },
                None => {
                    *x = Some(x_node);
                    None
                },
            },
            None => None,
        }
    }

    fn get_balance_factor(node: &Option<Box<Node>>) -> (bf: isize)
        requires
            match *node {
                Some(n) => Node::opt_wf(n.left) && Node::opt_wf(n.right),
                None => true,
            },
        ensures
            bf == match *node {
                Some(n) => Node::opt_height(n.left) - Node::opt_height(n.right),
                None => 0,
            },
    {
        match node {
            Some(n) => {
                proof {
                    Node::lemma_height_bound(n.left);
                    Node::lemma_height_bound(n.right);
                }
                Self::get_height(&n.left) as isize - Self::get_height(&n.right) as isize
            },
            None => 0,
        }
    }

    fn balance(node: &mut Option<Box<Node>>) -> (r: Option<Box<Node>>)
        requires
            match *old(node) {
                Some(n) => n.almost_wf(),
                None => true,
            },
        ensures
            *final(node) is None,
            *old(node) is None ==> r is None,
            *old(node) is Some ==> {
                &&& r is Some
                &&& Node::opt_wf(r)
                &&& Node::opt_seq(r) == Node::opt_seq(*old(node))
                &&& Node::opt_height(r) <= Node::opt_height(*old(node)) <= Node::opt_height(r) + 1
                &&& old(node).unwrap().balanced_here() ==> r == *old(node)
            },
    {
        let ghost before = *node;
        proof {
            if let Some(n) = before {
                Node::lemma_unfold(n);
                if let Some(l) = n.left {
                    Node::lemma_unfold(l);
                    if let Some(lr) = l.right {
                        Node::lemma_unfold(lr);
                    }
                }
                if let Some(rt) = n.right {
                    Node::lemma_unfold(rt);
                    if let Some(rl) = rt.left {
                        Node::lemma_unfold(rl);
                    }
                }
            }
        }
        let balance_factor = Self::get_balance_factor(node);
        if balance_factor > 1 {
            if Self::get_balance_factor(&node.as_ref().unwrap().left) >= 0 {
                let r = Self::right_rotate(node);
                proof {
                    let y = before.unwrap();
                    Node::lemma_right_single(*y, *y.left.unwrap(), r);
                }
                return r;
            } else {
                if let Some(n) = node {
                    let rotated = Self::left_rotate(&mut n.left);
                    n.left = rotated;
                }
                let ghost mid = node.unwrap().left;
                let ghost y2 = *node.unwrap();
                let r = Self::right_rotate(node);
                proof {
                    let y = before.unwrap();
                    let x = y.left.unwrap();
                    Node::lemma_right_double(*y, *x, *x.right.unwrap(), mid, y2, r);
                }
                return r;
            }
        }
        if balance_factor < -1 {
            if Self::get_balance_factor(&node.as_ref().unwrap().right) <= 0 {
                let r = Self::left_rotate(node);
                proof {
                    let x = before.unwrap();
                    Node::lemma_left_single(*x, *x.right.unwrap(), r);
                }
                return r;
            } else {
                if let Some(n) = node {
                    let rotated = Self::right_rotate(&mut n.right);
                    n.right = rotated;
                }
                let ghost mid = node.unwrap().right;
                let ghost x2 = *node.unwrap();
                let r = Self::left_rotate(node);
                proof {
                    let x = before.unwrap();
                    let y = x.right.unwrap();
                    Node::lemma_left_double(*x, *y, *y.left.unwrap(), mid, x2, r);
                }
                return r;
            }
        }
        node.take()
    }

    /// Inserts `value` so that it becomes the element at position `index`;
    /// the elements from that position on move one place to the right.
    pub fn insert_by_index(&mut self, index: usize, value: Pair)
        requires
            old(self).wf(),
            index <= old(self)@.len(),
            old(self)@.len() < usize::MAX,
        ensures
            final(self).wf(),
            final(self)@ == old(self)@.insert(index as int, value),
            final(self)@.len() == old(self)@.len() + 1,
            final(self).shape().balanced(),
            final(self).shape().size() == old(self)@.len() + 1,
            old(self).spec_height() <= final(self).spec_height() <= old(self).spec_height() + 1,
    {
        self.root = Self::insert_by_index_helper(self.root.take(), value, index);
        proof {
            self.lemma_wf_is_balanced();
        }
    }

    /// The same as `insert_by_index`.
    pub fn insert(&mut self, index: usize, value: Pair)
        requires
            old(self).wf(),
            index <= old(self)@.len(),
            old(self)@.len() < usize::MAX,
        ensures
            final(self).wf(),
            final(self)@ == old(self)@.insert(index as int, value),
            final(self)@.len() == old(self)@.len() + 1,
            final(self).shape().balanced(),
            final(self).shape().size() == old(self)@.len() + 1,
            old(self).spec_height() <= final(self).spec_height() <= old(self).spec_height() + 1,
    {
        self.insert_by_index(index, value)
    }

    fn insert_by_index_helper(node: Option<Box<Node>>, value: Pair, index: usize) -> (r: Option<
        Box<Node>,
    >)
        requires
            Node::opt_wf(node),
            index <= Node::opt_seq(node).len(),
            Node::opt_seq(node).len() < usize::MAX,
        ensures
            r is Some,
            Node::opt_wf(r),
            Node::opt_seq(r) == Node::opt_seq(node).insert(index as int, value),
            Node::opt_height(node) <= Node::opt_height(r) <= Node::opt_height(node) + 1,
        decreases node,
    {
        let mut n: Box<Node> = match node {
            Some(n) => n,
            None => {
                let leaf = Box::new(Node::new(value));
                proof {
                    Node::lemma_unfold(leaf);
                    assert(Node::opt_seq(node).insert(index as int, value) =~= seq![value]);
                }
                return Some(leaf);
            },
        };
        proof {
            Node::lemma_unfold(n);
        }
        let ghost before = *n;
        let left_size = Self::get_size(&n.left);
        proof {
            Node::lemma_unfold_opt(before.left);
            Node::lemma_unfold_opt(before.right);
        }
        if index <= left_size {
            n.left = Self::insert_by_index_helper(n.left.take(), value, index);
            proof {
                lemma_insert_left(
                    Node::opt_seq(before.left),
                    before.value,
                    Node::opt_seq(before.right),
                    index as int,
                    value,
                );
            }
        } else {
            n.right = Self::insert_by_index_helper(n.right.take(), value, index - left_size - 1);
            proof {
                lemma_insert_right(
                    Node::opt_seq(before.left),
                    before.value,
                    Node::opt_seq(before.right),
                    index as int,
                    value,
                );
            }
        }
        proof {
            Node::lemma_unfold_opt(n.left);
            Node::lemma_unfold_opt(n.right);
        }
        Self::update_height_and_size(&mut *n);
        proof {
            Node::lemma_unfold(n);
            assert(n.seq() == before.seq().insert(index as int, value));
            assert(n.almost_wf());
        }
        let mut grown = Some(n);
        return Self::balance(&mut grown);
    }

    /// The element at position `index`, or `(0, 0)` when the tree holds no
    /// such position.
    pub fn lookup(&self, index: usize) -> (pair: Pair)
        requires
            self.wf(),
        ensures
            index < self@.len() ==> pair == self@[index as int],
            index >= self@.len() ==> pair == (0usize, 0usize),
    {
        match Self::lookup_node(&self.root, index) {
            Some(pair) => pair,
            None => (0, 0),
        }
    }

    fn lookup_node(node: &Option<Box<Node>>, index: usize) -> (r: Option<Pair>)
        requires
            Node::opt_wf(*node),
        ensures
            r == if index < Node::opt_seq(*node).len() {
                Some(Node::opt_seq(*node)[index as int])
            } else {
                None
            },
        decreases *node,
    {
        match node {
            Some(n) => {
                proof {
                    Node::lemma_unfold(*n);
                    Node::lemma_unfold_opt(n.left);
                }
                let left_size = Self::get_size(&n.left);
                if index < left_size {
                    Self::lookup_node(&n.left, index)
                } else if index == left_size {
                    Some(n.value)
                } else {
                    Self::lookup_node(&n.right, index - left_size - 1)
                }
            },
            None => None,
        }
    }

    /// The pairs of the tree in rank order.
    pub fn inorder_traversal(&self) -> (result: Vec<Pair>)
        ensures
            result@ == self@,
    {
        let mut result: Vec<Pair> = Vec::new();
        let mut stack: Vec<&Node> = Vec::new();
        let mut current: &Option<Box<Node>> = &self.root;
        proof {
            assert(result@ + Node::opt_seq(*current) + Node::pending(stack@) =~= self@);
        }
        while current.is_some() || stack.len() > 0
            invariant
                result@ + Node::opt_seq(*current) + Node::pending(stack@) == self@,
            decreases self@.len() - result@.len(),
        {
            loop
                invariant
                    result@ + Node::opt_seq(*current) + Node::pending(stack@) == self@,
                    *current is Some || stack@.len() > 0,
                ensures
                    result@ + Node::pending(stack@) == self@,
                    *current is None,
                    stack@.len() > 0,
                decreases *current,
            {
                match current {
                    Some(n) => {
                        proof {
                            Node::lemma_unfold(*n);
                            let pushed = stack@.push(&**n);
                            assert(pushed.drop_last() =~= stack@);
                            assert(result@ + Node::opt_seq(n.left) + Node::pending(pushed)
                                =~= result@ + Node::opt_seq(*current) + Node::pending(stack@));
                        }
                        stack.push(&**n);
                        current = &n.left;
                    },
                    None => {
                        proof {
                            assert(result@ + Node::opt_seq(*current) + Node::pending(stack@)
                                =~= result@ + Node::pending(stack@));
                        }
                        break ;
                    },
                }
            }
            let ghost stacked = stack@;
            let node = stack.pop().unwrap();
            result.push(node.value);
            current = &node.right;
            proof {
                assert(stacked.drop_last() =~= stack@);
                assert(result@ + Node::opt_seq(*current) + Node::pending(stack@) =~= self@);
            }
        }
        proof {
            assert(result@ + Node::opt_seq(*current) + Node::pending(stack@) =~= result@);
        }
        result
    }

    /// The pairs of the tree in rank order.
    pub fn get_pairs(&self) -> (result: Vec<Pair>)
        ensures
            result@ == self@,
    {
        self.inorder_traversal()
    }
}

} // verus!
