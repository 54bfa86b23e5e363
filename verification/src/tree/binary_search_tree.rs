use vstd::prelude::*;

use std::collections::VecDeque;

verus! {

/// One node of the search tree: smaller values go to the left subtree, equal
/// and larger ones to the right.
#[derive(Debug)]
pub struct BinarySearchTreeNode {
    pub value: i32,
    pub left: Option<Box<BinarySearchTreeNode>>,
    pub right: Option<Box<BinarySearchTreeNode>>,
}

/// A binary search tree over machine integers.
pub struct BinarySearchTree {
    pub root: Option<BinarySearchTreeNode>,
}

/// The values of an optional subtree, in symmetric (sorted) order.
pub open spec fn inorder_of(o: Option<Box<BinarySearchTreeNode>>) -> Seq<i32>
    decreases o,
{
    match o {
        Option::None => Seq::empty(),
        Option::Some(b) => inorder_of(b.left) + seq![b.value] + inorder_of(b.right),
    }
}

/// The values of an optional subtree, parents before children.
pub open spec fn preorder_of(o: Option<Box<BinarySearchTreeNode>>) -> Seq<i32>
    decreases o,
{
    match o {
        Option::None => Seq::empty(),
        Option::Some(b) => seq![b.value] + preorder_of(b.left) + preorder_of(b.right),
    }
}

/// The values of an optional subtree, children before parents.
pub open spec fn postorder_of(o: Option<Box<BinarySearchTreeNode>>) -> Seq<i32>
    decreases o,
{
    match o {
        Option::None => Seq::empty(),
        Option::Some(b) => postorder_of(b.left) + postorder_of(b.right) + seq![b.value],
    }
}

/// The number of nodes of an optional subtree.
pub open spec fn size_of(o: Option<Box<BinarySearchTreeNode>>) -> nat
    decreases o,
{
    match o {
        Option::None => 0,
        Option::Some(b) => 1 + size_of(b.left) + size_of(b.right),
    }
}

/// The search-tree ordering: everything on the left is below the node's
/// value, everything on the right is at least it.
pub open spec fn bst_ordered(o: Option<Box<BinarySearchTreeNode>>) -> bool
    decreases o,
{
    match o {
        Option::None => true,
        Option::Some(b) => {
            &&& (forall|j: int|
                0 <= j < inorder_of(b.left).len() ==> #[trigger] inorder_of(b.left)[j] < b.value)
            &&& (forall|j: int|
                0 <= j < inorder_of(b.right).len() ==> #[trigger] inorder_of(b.right)[j]
                    >= b.value)
            &&& bst_ordered(b.left)
            &&& bst_ordered(b.right)
        },
    }
}

/// Where a value lands among already-placed values: after every entry that is
/// at most the new value, before every entry above it.
pub open spec fn sorted_insert(s: Seq<i32>, v: i32) -> Seq<i32>
    decreases s.len(),
{
    if s.len() > 0 && s.last() > v {
        sorted_insert(s.drop_last(), v).push(s.last())
    } else {
        s.push(v)
    }
}

proof fn lemma_sorted_insert_high(s: Seq<i32>, t: Seq<i32>, v: i32)
    requires
        forall|j: int| 0 <= j < t.len() ==> #[trigger] t[j] > v,
    ensures
        sorted_insert(s + t, v) == sorted_insert(s, v) + t,
    decreases t.len(),
{
    if t.len() == 0 {
        assert(s + t =~= s);
        assert(sorted_insert(s, v) + t =~= sorted_insert(s, v));
    } else {
        let u = s + t;
        assert(u.last() == t.last());
        assert(u.drop_last() =~= s + t.drop_last());
        lemma_sorted_insert_high(s, t.drop_last(), v);
        assert(sorted_insert(s + t, v) == (sorted_insert(s, v) + t.drop_last()).push(t.last()));
        assert((sorted_insert(s, v) + t.drop_last()).push(t.last()) =~= sorted_insert(s, v) + t);
    }
}

proof fn lemma_sorted_insert_low(s: Seq<i32>, t: Seq<i32>, v: i32)
    requires
        forall|j: int| 0 <= j < s.len() ==> #[trigger] s[j] <= v,
    ensures
        sorted_insert(s + t, v) == s + sorted_insert(t, v),
    decreases t.len(),
{
    if t.len() == 0 {
        assert(s + t =~= s);
        if s.len() > 0 {
            assert(!(s.last() > v));
        }
        assert(s + sorted_insert(t, v) =~= s.push(v));
        assert(Seq::<i32>::empty().push(v) =~= seq![v]);
    } else {
        let u = s + t;
        assert(u.last() == t.last());
        if t.last() > v {
            assert(u.drop_last() =~= s + t.drop_last());
            lemma_sorted_insert_low(s, t.drop_last(), v);
            assert((s + sorted_insert(t.drop_last(), v)).push(t.last()) =~= s + sorted_insert(
                t.drop_last(),
                v,
            ).push(t.last()));
        } else {
            assert(sorted_insert(u, v) == u.push(v));
            assert(sorted_insert(t, v) == t.push(v));
            assert(u.push(v) =~= s + t.push(v));
        }
    }
}

/// The values added by an insertion are the old ones plus the new one.
proof fn lemma_sorted_insert_elems(s: Seq<i32>, v: i32)
    ensures
        sorted_insert(s, v).len() == s.len() + 1,
        forall|j: int|
            0 <= j < sorted_insert(s, v).len() ==> (#[trigger] sorted_insert(s, v)[j] == v
                || s.contains(sorted_insert(s, v)[j])),
    decreases s.len(),
{
    if s.len() > 0 && s.last() > v {
        lemma_sorted_insert_elems(s.drop_last(), v);
        assert forall|j: int|
            0 <= j < sorted_insert(s, v).len() implies (#[trigger] sorted_insert(s, v)[j] == v
            || s.contains(sorted_insert(s, v)[j])) by {
            let r = sorted_insert(s, v);
            if j == r.len() - 1 {
                assert(r[j] == s.last());
            } else {
                let q = sorted_insert(s.drop_last(), v);
                assert(r[j] == q[j]);
                if q[j] != v {
                    let k = choose|k: int| 0 <= k < s.drop_last().len() && s.drop_last()[k] == q[j];
                    assert(s[k] == q[j]);
                }
            }
        }
    }
}

/// The symmetric-order values of an ordered subtree come out ascending.
proof fn lemma_ordered_inorder_sorted(o: Option<Box<BinarySearchTreeNode>>)
    requires
        bst_ordered(o),
    ensures
        forall|a: int, b: int|
            #![trigger inorder_of(o)[a], inorder_of(o)[b]]
            0 <= a <= b < inorder_of(o).len() ==> inorder_of(o)[a] <= inorder_of(o)[b],
    decreases o,
{
    match o {
        Option::None => {},
        Option::Some(n) => {
            lemma_ordered_inorder_sorted(n.left);
            lemma_ordered_inorder_sorted(n.right);
            let l = inorder_of(n.left);
            let r = inorder_of(n.right);
            let s = l + seq![n.value] + r;
            assert forall|a: int, b: int|
                #![trigger s[a], s[b]]
                0 <= a <= b < s.len() implies s[a] <= s[b] by {
                if b < l.len() {
                    assert(s[a] == l[a] && s[b] == l[b]);
                } else if a > l.len() {
                    assert(s[a] == r[a - l.len() - 1] && s[b] == r[b - l.len() - 1]);
                } else {
                    if a < l.len() {
                        assert(s[a] == l[a] && l[a] < n.value);
                    } else {
                        assert(s[a] == n.value);
                    }
                    if b > l.len() {
                        assert(s[b] == r[b - l.len() - 1] && r[b - l.len() - 1] >= n.value);
                    } else {
                        assert(s[b] == n.value);
                    }
                }
            }
        },
    }
}

/// In a well-formed tree the symmetric-order traversal is ascending, so
/// `traverse_inorder` returns the stored values in sorted order.
pub proof fn lemma_inorder_sorted(t: BinarySearchTree)
    requires
        t.well_formed(),
    ensures
        forall|a: int, b: int|
            #![trigger t.inorder()[a], t.inorder()[b]]
            0 <= a <= b < t.inorder().len() ==> t.inorder()[a] <= t.inorder()[b],
{
    match t.root {
        Option::None => {},
        Option::Some(n) => {
            lemma_ordered_inorder_sorted(n.left);
            lemma_ordered_inorder_sorted(n.right);
            let l = inorder_of(n.left);
            let r = inorder_of(n.right);
            let s = l + seq![n.value] + r;
            assert(t.inorder() == s);
            assert forall|a: int, b: int|
                #![trigger s[a], s[b]]
                0 <= a <= b < s.len() implies s[a] <= s[b] by {
                if b < l.len() {
                    assert(s[a] == l[a] && s[b] == l[b]);
                } else if a > l.len() {
                    assert(s[a] == r[a - l.len() - 1] && s[b] == r[b - l.len() - 1]);
                } else {
                    if a < l.len() {
                        assert(s[a] == l[a] && l[a] < n.value);
                    } else {
                        assert(s[a] == n.value);
                    }
                    if b > l.len() {
                        assert(s[b] == r[b - l.len() - 1] && r[b - l.len() - 1] >= n.value);
                    } else {
                        assert(s[b] == n.value);
                    }
                }
            }
        },
    }
}

impl BinarySearchTreeNode {
    /// Builds a leaf holding one value.
    pub fn new(value: i32) -> (r: Self)
        ensures
            r.value == value,
            r.left is None,
            r.right is None,
    {
        BinarySearchTreeNode { value, left: None, right: None }
    }
}

/// Inserts a value into an optional subtree, keeping the search ordering; in
/// sorted order the value lands after every entry that is at most it.
fn insert_into(node: &mut Option<Box<BinarySearchTreeNode>>, value: i32)
    requires
        bst_ordered(*old(node)),
    ensures
        bst_ordered(*final(node)),
        inorder_of(*final(node)) == sorted_insert(inorder_of(*old(node)), value),
    decreases *old(node),
{
    match node.take() {
        None => {
            *node = Some(Box::new(BinarySearchTreeNode::new(value)));
            proof {
                let b = (*node)->Some_0;
                assert(inorder_of(b.left) =~= Seq::<i32>::empty());
                assert(inorder_of(b.right) =~= Seq::<i32>::empty());
                assert(inorder_of(*node) =~= seq![value]);
                assert(sorted_insert(Seq::<i32>::empty(), value) =~= seq![value]);
            }
        },
        Some(mut boxed) => {
            let ghost l0 = inorder_of(boxed.left);
            let ghost r0 = inorder_of(boxed.right);
            let ghost m = boxed.value;
            if value < boxed.value {
                insert_into(&mut boxed.left, value);
                proof {
                    let l1 = inorder_of(boxed.left);
                    lemma_sorted_insert_elems(l0, value);
                    assert(forall|j: int| 0 <= j < l1.len() ==> #[trigger] l1[j] < m);
                    lemma_sorted_insert_high(l0, seq![m] + r0, value);
                    assert(l0 + (seq![m] + r0) =~= l0 + seq![m] + r0);
                    assert(l1 + (seq![m] + r0) =~= l1 + seq![m] + r0);
                }
            } else {
                insert_into(&mut boxed.right, value);
                proof {
                    let r1 = inorder_of(boxed.right);
                    lemma_sorted_insert_elems(r0, value);
                    assert(forall|j: int| 0 <= j < r1.len() ==> #[trigger] r1[j] >= m);
                    lemma_sorted_insert_low(l0 + seq![m], r0, value);
                    assert(forall|j: int| 0 <= j < l0.len() ==> #[trigger] l0[j] < m);
                    assert(forall|j: int|
                        0 <= j < (l0 + seq![m]).len() ==> #[trigger] (l0 + seq![m])[j] <= value);
                    assert((l0 + seq![m]) + r0 =~= l0 + seq![m] + r0);
                    assert((l0 + seq![m]) + r1 =~= l0 + seq![m] + r1);
                }
            }
            *node = Some(boxed);
        },
    }
}

impl BinarySearchTree {
    /// The values of the tree in symmetric (sorted) order.
    pub open spec fn inorder(self) -> Seq<i32> {
        match self.root {
            Option::None => Seq::empty(),
            Option::Some(n) => inorder_of(n.left) + seq![n.value] + inorder_of(n.right),
        }
    }

    /// The search ordering holds everywhere in the tree.
    pub open spec fn well_formed(self) -> bool {
        match self.root {
            Option::None => true,
            Option::Some(n) => {
                &&& (forall|j: int|
                    0 <= j < inorder_of(n.left).len() ==> #[trigger] inorder_of(n.left)[j]
                        < n.value)
                &&& (forall|j: int|
                    0 <= j < inorder_of(n.right).len() ==> #[trigger] inorder_of(n.right)[j]
                        >= n.value)
                &&& bst_ordered(n.left)
                &&& bst_ordered(n.right)
            },
        }
    }

    /// Creates a new empty tree.
    pub fn new() -> (r: Self)
        ensures
            r.well_formed(),
            r.inorder() == Seq::<i32>::empty(),
            r.root is None,
    {
        BinarySearchTree { root: None }
    }

    /// Inserts a value: smaller values descend left, equal and larger ones
    /// right, so in sorted order the value lands after every entry that is at
    /// most it.
    pub fn insert(&mut self, value: i32)
        requires
            old(self).well_formed(),
        ensures
            final(self).well_formed(),
            final(self).inorder() == sorted_insert(old(self).inorder(), value),
    {
        let ghost pre = *self;
        let mut root = self.root.take();
        proof {
            match pre.root {
                Option::None => {
                    assert(opt_root_inorder(root) =~= pre.inorder());
                },
                Option::Some(_) => {
                    assert(opt_root_inorder(root) =~= pre.inorder());
                },
            }
        }
        match root {
            None => {
                self.root = Some(BinarySearchTreeNode::new(value));
                proof {
                    assert(self.inorder() =~= seq![value]);
                    assert(sorted_insert(Seq::<i32>::empty(), value) =~= seq![value]);
                }
            },
            Some(node) => {
                let mut boxed = Some(Box::new(node));
                proof {
                    assert(inorder_of(boxed) =~= pre.inorder());
                }
                insert_into(&mut boxed, value);
                match boxed {
                    Some(b) => {
                        self.root = Some(*b);
                        proof {
                            assert(self.inorder() =~= inorder_of(Some(b)));
                        }
                    },
                    None => {
                        proof {
                            assert(inorder_of(boxed).len() == sorted_insert(
                                pre.inorder(),
                                value,
                            ).len());
                            lemma_sorted_insert_elems(pre.inorder(), value);
                            assert(false);
                        }
                        self.root = None;
                    },
                }
            },
        }
    }

    /// Returns the values in symmetric order: for a well-formed tree, in
    /// ascending order.
    pub fn traverse_inorder(&self) -> (r: Vec<i32>)
        ensures
            r@ == self.inorder(),
    {
        let mut nodes: Vec<i32> = Vec::new();
        if let Some(root) = &self.root {
            traverse_inorder_node(root, &mut nodes);
            proof {
                assert(Seq::<i32>::empty() + (inorder_of(root.left) + seq![root.value]
                    + inorder_of(root.right)) =~= self.inorder());
            }
        } else {
            proof {
                assert(nodes@ =~= self.inorder());
            }
        }
        nodes
    }

    /// Returns the values with every parent before its children's values.
    pub fn traverse_preorder(&self) -> (r: Vec<i32>)
        ensures
            r@ == opt_root_preorder(self.root),
    {
        let mut nodes: Vec<i32> = Vec::new();
        if let Some(root) = &self.root {
            traverse_preorder_node(root, &mut nodes);
            proof {
                assert(Seq::<i32>::empty() + (seq![root.value] + preorder_of(root.left)
                    + preorder_of(root.right)) =~= opt_root_preorder(self.root));
            }
        } else {
            proof {
                assert(nodes@ =~= opt_root_preorder(self.root));
            }
        }
        nodes
    }

    /// The values of the whole tree in breadth-first order.
    pub open spec fn levelorder(self) -> Seq<i32> {
        match self.root {
            Option::None => Seq::empty(),
            Option::Some(n) => levels_of(seq![n]),
        }
    }

    /// Returns the values level by level, top first, left to right inside
    /// each level.
    pub fn traverse_levelorder(&self) -> (r: Vec<i32>)
        ensures
            r@ == self.levelorder(),
    {
        let mut result: Vec<i32> = Vec::new();
        let mut queue: VecDeque<&BinarySearchTreeNode> = VecDeque::new();
        if let Some(root) = &self.root {
            queue.push_back(root);
            proof {
                assert(queue@.map_values(|p: &BinarySearchTreeNode| *p) =~= seq![*root]);
            }
        } else {
            proof {
                assert(queue@.map_values(|p: &BinarySearchTreeNode| *p)
                    =~= Seq::<BinarySearchTreeNode>::empty());
            }
        }
        while queue.len() > 0
            invariant
                result@ + levels_of(queue@.map_values(|p: &BinarySearchTreeNode| *p))
                    == self.levelorder(),
            decreases total_size(queue@.map_values(|p: &BinarySearchTreeNode| *p)),
        {
            let ghost qs = queue@.map_values(|p: &BinarySearchTreeNode| *p);
            let ghost pre_result = result@;
            let front = queue.pop_front().unwrap();
            result.push(front.value);
            if let Some(left) = &front.left {
                queue.push_back(&**left);
            }
            if let Some(right) = &front.right {
                queue.push_back(&**right);
            }
            proof {
                let qs2 = queue@.map_values(|p: &BinarySearchTreeNode| *p);
                assert(qs[0] == *front);
                assert(qs2 =~= qs.drop_first() + children_of(*front));
                assert(levels_of(qs) == seq![front.value] + levels_of(qs2));
                assert(result@ =~= pre_result.push(front.value));
                assert(result@ + levels_of(qs2) =~= (pre_result + levels_of(qs)));
                lemma_total_size_concat(qs.drop_first(), children_of(*front));
                lemma_total_size_children(*front);
            }
        }
        proof {
            let qs = queue@.map_values(|p: &BinarySearchTreeNode| *p);
            assert(qs.len() == 0);
            assert(levels_of(qs) =~= Seq::<i32>::empty());
            assert(result@ + levels_of(qs) =~= result@);
        }
        result
    }

    /// Returns the values with every parent after its children's values.
    pub fn traverse_postorder(&self) -> (r: Vec<i32>)
        ensures
            r@ == opt_root_postorder(self.root),
    {
        let mut nodes: Vec<i32> = Vec::new();
        if let Some(root) = &self.root {
            traverse_postorder_node(root, &mut nodes);
            proof {
                assert(Seq::<i32>::empty() + (postorder_of(root.left) + postorder_of(root.right)
                    + seq![root.value]) =~= opt_root_postorder(self.root));
            }
        } else {
            proof {
                assert(nodes@ =~= opt_root_postorder(self.root));
            }
        }
        nodes
    }
}

/// The node counts of a queue of subtrees, added up.
pub open spec fn total_size(ns: Seq<BinarySearchTreeNode>) -> nat
    decreases ns.len(),
{
    if ns.len() == 0 {
        0
    } else {
        (1 + size_of(ns[0].left) + size_of(ns[0].right)) + total_size(ns.drop_first())
    }
}

/// The children of a node, left before right, as queue entries.
pub open spec fn children_of(n: BinarySearchTreeNode) -> Seq<BinarySearchTreeNode> {
    (match n.left {
        Option::None => Seq::empty(),
        Option::Some(b) => seq![*b],
    }) + (match n.right {
        Option::None => Seq::empty(),
        Option::Some(b) => seq![*b],
    })
}

proof fn lemma_total_size_concat(a: Seq<BinarySearchTreeNode>, b: Seq<BinarySearchTreeNode>)
    ensures
        total_size(a + b) == total_size(a) + total_size(b),
    decreases a.len(),
{
    if a.len() == 0 {
        assert(a + b =~= b);
    } else {
        assert((a + b).drop_first() =~= a.drop_first() + b);
        lemma_total_size_concat(a.drop_first(), b);
    }
}

proof fn lemma_total_size_children(n: BinarySearchTreeNode)
    ensures
        total_size(children_of(n)) == size_of(n.left) + size_of(n.right),
{
    let ls: Seq<BinarySearchTreeNode> = match n.left {
        Option::None => Seq::empty(),
        Option::Some(b) => seq![*b],
    };
    let rs: Seq<BinarySearchTreeNode> = match n.right {
        Option::None => Seq::empty(),
        Option::Some(b) => seq![*b],
    };
    lemma_total_size_concat(ls, rs);
    assert(children_of(n) == ls + rs);
    assert(total_size(Seq::<BinarySearchTreeNode>::empty()) == 0);
    if n.left is Some {
        assert(ls.drop_first() =~= Seq::<BinarySearchTreeNode>::empty());
        assert(total_size(ls) == (1 + size_of(ls[0].left) + size_of(ls[0].right)) + total_size(
            ls.drop_first(),
        ));
        assert(total_size(ls) == size_of(n.left));
    }
    if n.right is Some {
        assert(rs.drop_first() =~= Seq::<BinarySearchTreeNode>::empty());
        assert(total_size(rs) == (1 + size_of(rs[0].left) + size_of(rs[0].right)) + total_size(
            rs.drop_first(),
        ));
        assert(total_size(rs) == size_of(n.right));
    }
}

/// Breadth-first order over a queue of subtrees: the front node's value, then
/// the rest of the queue with the front node's children appended.
pub open spec fn levels_of(ns: Seq<BinarySearchTreeNode>) -> Seq<i32>
    decreases total_size(ns),
    via levels_of_decreases
{
    if ns.len() == 0 {
        Seq::empty()
    } else {
        seq![ns[0].value] + levels_of(ns.drop_first() + children_of(ns[0]))
    }
}

#[via_fn]
proof fn levels_of_decreases(ns: Seq<BinarySearchTreeNode>) {
    if ns.len() > 0 {
        lemma_total_size_concat(ns.drop_first(), children_of(ns[0]));
        lemma_total_size_children(ns[0]);
    }
}

/// The symmetric-order values of an optional unboxed root.
pub open spec fn opt_root_inorder(o: Option<BinarySearchTreeNode>) -> Seq<i32> {
    match o {
        Option::None => Seq::empty(),
        Option::Some(n) => inorder_of(n.left) + seq![n.value] + inorder_of(n.right),
    }
}

/// The preorder values of an optional unboxed root.
pub open spec fn opt_root_preorder(o: Option<BinarySearchTreeNode>) -> Seq<i32> {
    match o {
        Option::None => Seq::empty(),
        Option::Some(n) => seq![n.value] + preorder_of(n.left) + preorder_of(n.right),
    }
}

/// The postorder values of an optional unboxed root.
pub open spec fn opt_root_postorder(o: Option<BinarySearchTreeNode>) -> Seq<i32> {
    match o {
        Option::None => Seq::empty(),
        Option::Some(n) => postorder_of(n.left) + postorder_of(n.right) + seq![n.value],
    }
}

fn traverse_inorder_node(node: &BinarySearchTreeNode, nodes: &mut Vec<i32>)
    ensures
        final(nodes)@ == old(nodes)@ + (inorder_of(node.left) + seq![node.value] + inorder_of(
            node.right,
        )),
    decreases *node,
{
    let ghost pre = nodes@;
    if let Some(left) = &node.left {
        traverse_inorder_node(left, nodes);
    }
    nodes.push(node.value);
    if let Some(right) = &node.right {
        traverse_inorder_node(right, nodes);
    }
    proof {
        assert(nodes@ =~= pre + (inorder_of(node.left) + seq![node.value] + inorder_of(
            node.right,
        )));
    }
}

fn traverse_preorder_node(node: &BinarySearchTreeNode, nodes: &mut Vec<i32>)
    ensures
        final(nodes)@ == old(nodes)@ + (seq![node.value] + preorder_of(node.left) + preorder_of(
            node.right,
        )),
    decreases *node,
{
    let ghost pre = nodes@;
    nodes.push(node.value);
    if let Some(left) = &node.left {
        traverse_preorder_node(left, nodes);
    }
    if let Some(right) = &node.right {
        traverse_preorder_node(right, nodes);
    }
    proof {
        assert(nodes@ =~= pre + (seq![node.value] + preorder_of(node.left) + preorder_of(
            node.right,
        )));
    }
}

fn traverse_postorder_node(node: &BinarySearchTreeNode, nodes: &mut Vec<i32>)
    ensures
        final(nodes)@ == old(nodes)@ + (postorder_of(node.left) + postorder_of(node.right) + seq![
            node.value,
        ]),
    decreases *node,
{
    let ghost pre = nodes@;
    if let Some(left) = &node.left {
        traverse_postorder_node(left, nodes);
    }
    if let Some(right) = &node.right {
        traverse_postorder_node(right, nodes);
    }
    nodes.push(node.value);
    proof {
        assert(nodes@ =~= pre + (postorder_of(node.left) + postorder_of(node.right) + seq![
            node.value,
        ]));
    }
}

} // verus!
