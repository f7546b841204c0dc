use vstd::prelude::*;

verus! {

/// The key of a node of a tree. It names the node for as long as the node is in the tree,
/// whatever is moved round it, and no other node after that.
#[derive(Clone, Copy, PartialEq, Eq, Structural, Debug, Hash)]
pub struct NodeKey {
    pub slot: usize,
}

/// The least number of nodes that a balanced tree of so many levels holds.
pub open spec fn least_size(levels: nat) -> nat
    decreases levels,
{
    if levels == 0 {
        0
    } else if levels == 1 {
        1
    } else {
        least_size((levels - 1) as nat) + least_size((levels - 2) as nat) + 1
    }
}

/// With each level more a balanced tree holds at least as many nodes, and with two
/// levels more over twice as many.
pub proof fn lemma_least_size_grows(levels: nat)
    ensures
        least_size(levels) <= least_size(levels + 1),
        2 * least_size(levels) + 1 <= least_size(levels + 2),
    decreases levels,
{
    if levels >= 1 {
        lemma_least_size_grows((levels - 1) as nat);
    }
    assert(least_size(levels + 2) == least_size(levels + 1) + least_size(levels) + 1);
}

/// The option holds the slot `k`.
pub open spec fn is_slot(slot: Option<usize>, k: int) -> bool {
    slot.is_some() && slot.unwrap() == k
}

/// A node of the tree, in its slot.
pub struct Node<T> {
    contents: T,
    parent: Option<usize>,
    left: Option<usize>,
    right: Option<usize>,
    height: usize,
    alive: bool,
}

/// Where a node stands: its place in the order, and the stretch of the order that the
/// subtree below it fills, from `lo` up to but without `hi`.
pub struct Span {
    pub rank: int,
    pub lo: int,
    pub hi: int,
}

/// A binary tree that keeps its nodes in an order given by where they were put in:
/// before or behind a node that was there. Walking it in order gives that order. It is kept
/// balanced by rotations, which leave the order and the keys as they are.
///
/// Nodes live in slots of a vector; the slot of a node that was taken out is not used
/// again, so that a key never comes to name another node.
pub struct Tree<T> {
    nodes: Vec<Node<T>>,
    root: Option<usize>,
    order: Ghost<Seq<usize>>,
    spans: Ghost<Seq<Span>>,
}

impl<T> Tree<T> {
    /// The keys of the nodes, in order.
    pub closed spec fn order(&self) -> Seq<NodeKey> {
        self.order@.map_values(|slot: usize| NodeKey { slot })
    }

    /// What the nodes of the tree hold, each under its key.
    pub closed spec fn entries(&self) -> Map<NodeKey, T> {
        Map::new(
            |key: NodeKey| key.slot < self.nodes@.len() && self.nodes@[key.slot as int].alive,
            |key: NodeKey| self.nodes@[key.slot as int].contents,
        )
    }

    /// The key names a node of the tree.
    #[verifier::inline]
    pub open spec fn has(&self, key: NodeKey) -> bool {
        self.entries().contains_key(key)
    }

    /// The place of a node in the order.
    pub closed spec fn rank(&self, key: NodeKey) -> int {
        self.spans@[key.slot as int].rank
    }

    /// What the node holds.
    #[verifier::inline]
    pub open spec fn contents(&self, key: NodeKey) -> T {
        self.entries()[key]
    }

    /// The node at the top of the tree.
    pub closed spec fn root_key(&self) -> Option<NodeKey> {
        match self.root {
            Some(slot) => Some(NodeKey { slot }),
            None => None,
        }
    }

    /// The left child of a node.
    pub closed spec fn left_of(&self, key: NodeKey) -> Option<NodeKey> {
        match self.nodes@[key.slot as int].left {
            Some(slot) => Some(NodeKey { slot }),
            None => None,
        }
    }

    /// The right child of a node.
    pub closed spec fn right_of(&self, key: NodeKey) -> Option<NodeKey> {
        match self.nodes@[key.slot as int].right {
            Some(slot) => Some(NodeKey { slot }),
            None => None,
        }
    }

    /// The first place of the order that the subtree of a node fills.
    pub closed spec fn first_below(&self, key: NodeKey) -> int {
        self.spans@[key.slot as int].lo
    }

    /// The place behind the last one that the subtree of a node fills.
    pub closed spec fn end_below(&self, key: NodeKey) -> int {
        self.spans@[key.slot as int].hi
    }

    /// The number of slots, used or not.
    pub closed spec fn slots(&self) -> nat {
        self.nodes@.len()
    }

    spec fn node_ok(&self, k: int) -> bool {
        let node = self.nodes@[k];
        let s = self.spans@[k];
        node.alive ==> {
            &&& 0 <= s.lo <= s.rank < s.hi <= self.order@.len()
            &&& self.order@[s.rank] == k
            &&& match node.left {
                Some(l) => l < self.nodes@.len() && self.nodes@[l as int].alive && is_slot(
                    self.nodes@[l as int].parent,
                    k,
                ) && self.spans@[l as int].lo == s.lo && self.spans@[l as int].hi == s.rank,
                None => s.lo == s.rank,
            }
            &&& match node.right {
                Some(r) => r < self.nodes@.len() && self.nodes@[r as int].alive && is_slot(
                    self.nodes@[r as int].parent,
                    k,
                ) && self.spans@[r as int].lo == s.rank + 1 && self.spans@[r as int].hi == s.hi,
                None => s.hi == s.rank + 1,
            }
            &&& match node.parent {
                Some(p) => p < self.nodes@.len() && self.nodes@[p as int].alive && (is_slot(
                    self.nodes@[p as int].left,
                    k,
                ) || is_slot(self.nodes@[p as int].right, k)),
                None => is_slot(self.root, k) && s.lo == 0 && s.hi == self.order@.len(),
            }
        }
    }

    /// The tree is in order: the links between its nodes agree with each other and with
    /// the order.
    pub closed spec fn wf(&self) -> bool {
        &&& self.spans@.len() == self.nodes@.len()
        &&& forall|k: int| 0 <= k < self.nodes@.len() ==> #[trigger] self.node_ok(k)
        &&& forall|i: int|
            0 <= i < self.order@.len() ==> (#[trigger] self.order@[i]) < self.nodes@.len()
                && self.nodes@[self.order@[i] as int].alive && self.spans@[self.order@[i] as int].rank
                == i
        &&& match self.root {
            Some(r) => r < self.nodes@.len() && self.nodes@[r as int].alive && self.nodes@[r as int].parent.is_none(),
            None => self.order@.len() == 0,
        }
    }

    /// The nodes of the tree are those of its order, each at its rank, and the children
    /// of a node fill the stretches on either side of it.
    pub proof fn lemma_order(&self)
        requires
            self.wf(),
        ensures
            self.order().no_duplicates(),
            forall|key: NodeKey| self.has(key) <==> self.order().contains(key),
            forall|key: NodeKey| #[trigger]
                self.has(key) ==> 0 <= self.rank(key) < self.order().len() && self.order()[self.rank(
                    key,
                )] == key && self.first_below(key) <= self.rank(key) < self.end_below(key),
            forall|i: int|
                0 <= i < self.order().len() ==> self.has(#[trigger] self.order()[i]) && self.rank(
                    self.order()[i],
                ) == i,
            forall|key: NodeKey| #[trigger]
                self.has(key) ==> match self.left_of(key) {
                    Some(l) => self.has(l) && self.first_below(l) == self.first_below(key)
                        && self.end_below(l) == self.rank(key),
                    None => self.first_below(key) == self.rank(key),
                },
            forall|key: NodeKey| #[trigger]
                self.has(key) ==> match self.right_of(key) {
                    Some(r) => self.has(r) && self.first_below(r) == self.rank(key) + 1
                        && self.end_below(r) == self.end_below(key),
                    None => self.end_below(key) == self.rank(key) + 1,
                },
            match self.root_key() {
                Some(r) => self.has(r) && self.first_below(r) == 0 && self.end_below(r)
                    == self.order().len(),
                None => self.order().len() == 0,
            },
    {
        assert forall|key: NodeKey| #[trigger] self.has(key) implies 0 <= self.rank(key)
            < self.order().len() && self.order()[self.rank(key)] == key && self.first_below(key)
            <= self.rank(key) < self.end_below(key) by {
            assert(self.node_ok(key.slot as int));
        }
        assert forall|key: NodeKey| self.has(key) <==> self.order().contains(key) by {
            if self.has(key) {
                assert(self.node_ok(key.slot as int));
                assert(self.order()[self.rank(key)] == key);
            }
            if self.order().contains(key) {
                let i = choose|i: int| 0 <= i < self.order().len() && self.order()[i] == key;
                assert(self.order@[i] == key.slot);
            }
        }
        assert forall|a: int, b: int|
            0 <= a < self.order().len() && 0 <= b < self.order().len() && a != b implies self.order()[a]
            != self.order()[b] by {
            assert(self.spans@[self.order@[a] as int].rank == a);
            assert(self.spans@[self.order@[b] as int].rank == b);
        }
        assert forall|key: NodeKey| #[trigger] self.has(key) implies match self.left_of(key) {
            Some(l) => self.has(l) && self.first_below(l) == self.first_below(key)
                && self.end_below(l) == self.rank(key),
            None => self.first_below(key) == self.rank(key),
        } by {
            assert(self.node_ok(key.slot as int));
        }
        assert forall|key: NodeKey| #[trigger] self.has(key) implies match self.right_of(key) {
            Some(r) => self.has(r) && self.first_below(r) == self.rank(key) + 1
                && self.end_below(r) == self.end_below(key),
            None => self.end_below(key) == self.rank(key) + 1,
        } by {
            assert(self.node_ok(key.slot as int));
        }
        match self.root {
            Some(r) => {
                assert(self.node_ok(r as int));
            },
            None => {},
        }
    }

    /// A node of the tree stands in the order at its rank.
    pub proof fn lemma_rank(&self, key: NodeKey)
        requires
            self.wf(),
            self.has(key),
        ensures
            0 <= self.rank(key) < self.order().len(),
            self.order()[self.rank(key)] == key,
    {
        assert(self.node_ok(key.slot as int));
    }

    /// The subtree of a child fills a stretch of the order inside that of its parent, on
    /// its side of the parent.
    pub proof fn lemma_children(&self, key: NodeKey)
        requires
            self.wf(),
            self.has(key),
        ensures
            0 <= self.first_below(key) <= self.rank(key) < self.end_below(key) <= self.order().len(),
            match self.left_of(key) {
                Some(l) => self.has(l) && self.first_below(l) == self.first_below(key)
                    && self.end_below(l) == self.rank(key),
                None => self.first_below(key) == self.rank(key),
            },
            match self.right_of(key) {
                Some(r) => self.has(r) && self.first_below(r) == self.rank(key) + 1
                    && self.end_below(r) == self.end_below(key),
                None => self.end_below(key) == self.rank(key) + 1,
            },
            self.root_key().is_some() && self.has(self.root_key().unwrap()),
    {
        assert(self.node_ok(key.slot as int));
        if self.root.is_none() {
            assert(self.order@.len() == 0);
        }
    }

    /// The node at a place of the order has that place for its rank.
    pub proof fn lemma_rank_at(&self, i: int, key: NodeKey)
        requires
            self.wf(),
            0 <= i < self.order().len(),
            self.order()[i] == key,
        ensures
            self.has(key),
            self.rank(key) == i,
    {
        assert(self.order@[i] == key.slot);
    }

    /// A tree without nodes.
    pub fn new() -> (r: Self)
        ensures
            r.wf(),
            r.order() == Seq::<NodeKey>::empty(),
            r.root_key().is_none(),
            r.slots() == 0,
            r.balanced(),
    {
        let r = Tree { nodes: Vec::new(), root: None, order: Ghost(Seq::empty()), spans: Ghost(Seq::empty()) };
        assert(r.order() =~= Seq::<NodeKey>::empty());
        r
    }

    pub fn has_root(&self) -> (r: bool)
        ensures
            r == self.root_key().is_some(),
    {
        self.root.is_some()
    }

    /// The node at the top of the tree, if the tree has any node.
    pub fn root(&self) -> (r: Option<NodeKey>)
        ensures
            r == self.root_key(),
    {
        match self.root {
            Some(slot) => Some(NodeKey { slot }),
            None => None,
        }
    }

    /// Whether the key names a node of the tree.
    pub fn contains(&self, node: NodeKey) -> (r: bool)
        ensures
            r == self.has(node),
    {
        node.slot < self.nodes.len() && self.nodes[node.slot].alive
    }

    pub fn get_contents(&self, node: NodeKey) -> (r: &T)
        requires
            self.has(node),
        ensures
            *r == self.contents(node),
    {
        &self.nodes[node.slot].contents
    }

    pub fn get_left(&self, node: NodeKey) -> (r: Option<NodeKey>)
        requires
            self.has(node),
        ensures
            r == self.left_of(node),
    {
        match self.nodes[node.slot].left {
            Some(slot) => Some(NodeKey { slot }),
            None => None,
        }
    }

    pub fn get_right(&self, node: NodeKey) -> (r: Option<NodeKey>)
        requires
            self.has(node),
        ensures
            r == self.right_of(node),
    {
        match self.nodes[node.slot].right {
            Some(slot) => Some(NodeKey { slot }),
            None => None,
        }
    }

    fn set_left(&mut self, k: usize, v: Option<usize>)
        requires
            k < old(self).nodes@.len(),
        ensures
            final(self).nodes@ == old(self).nodes@.update(
                k as int,
                Node { left: v, ..old(self).nodes@[k as int] },
            ),
            final(self).root == old(self).root,
            final(self).order == old(self).order,
            final(self).spans == old(self).spans,
    {
        let node = &mut self.nodes[k];
        node.left = v;
    }

    fn set_right(&mut self, k: usize, v: Option<usize>)
        requires
            k < old(self).nodes@.len(),
        ensures
            final(self).nodes@ == old(self).nodes@.update(
                k as int,
                Node { right: v, ..old(self).nodes@[k as int] },
            ),
            final(self).root == old(self).root,
            final(self).order == old(self).order,
            final(self).spans == old(self).spans,
    {
        let node = &mut self.nodes[k];
        node.right = v;
    }

    fn set_parent(&mut self, k: usize, v: Option<usize>)
        requires
            k < old(self).nodes@.len(),
        ensures
            final(self).nodes@ == old(self).nodes@.update(
                k as int,
                Node { parent: v, ..old(self).nodes@[k as int] },
            ),
            final(self).root == old(self).root,
            final(self).order == old(self).order,
            final(self).spans == old(self).spans,
    {
        let node = &mut self.nodes[k];
        node.parent = v;
    }

    fn set_height(&mut self, k: usize, v: usize)
        requires
            k < old(self).nodes@.len(),
        ensures
            final(self).nodes@ == old(self).nodes@.update(
                k as int,
                Node { height: v, ..old(self).nodes@[k as int] },
            ),
            final(self).root == old(self).root,
            final(self).order == old(self).order,
            final(self).spans == old(self).spans,
    {
        let node = &mut self.nodes[k];
        node.height = v;
    }

    fn set_alive(&mut self, k: usize, v: bool)
        requires
            k < old(self).nodes@.len(),
        ensures
            final(self).nodes@ == old(self).nodes@.update(
                k as int,
                Node { alive: v, ..old(self).nodes@[k as int] },
            ),
            final(self).root == old(self).root,
            final(self).order == old(self).order,
            final(self).spans == old(self).spans,
    {
        let node = &mut self.nodes[k];
        node.alive = v;
    }

    /// Replaces what the node holds. The tree is otherwise as it was.
    pub fn set_contents(&mut self, node: NodeKey, contents: T)
        requires
            old(self).wf(),
            old(self).has(node),
        ensures
            final(self).wf(),
            final(self).same_shape(old(self)),
            final(self).entries() == old(self).entries().insert(node, contents),
            old(self).balanced() ==> final(self).balanced(),
    {
        let slot = &mut self.nodes[node.slot];
        slot.contents = contents;
        proof {
            assert forall|k: int| 0 <= k < self.nodes@.len() && old(self).avl_ok(k) implies #[trigger] self.avl_ok(
                k,
            ) by {
                Self::lemma_height_stays(old(self), self, k);
            }
            assert forall|k: int| 0 <= k < self.nodes@.len() implies #[trigger] self.node_ok(k) by {
                assert(old(self).node_ok(k));
            }
            assert(self.entries() =~= old(self).entries().insert(node, contents));
        }
    }

    /// The two trees have the same nodes in the same order, linked in the same way.
    pub closed spec fn same_shape(&self, other: &Tree<T>) -> bool {
        &&& self.order@ == other.order@
        &&& self.spans@ == other.spans@
        &&& self.root == other.root
        &&& self.nodes@.len() == other.nodes@.len()
        &&& forall|k: int|
            0 <= k < self.nodes@.len() ==> {
                &&& (#[trigger] self.nodes@[k]).alive == other.nodes@[k].alive
                &&& self.nodes@[k].left == other.nodes@[k].left
                &&& self.nodes@[k].right == other.nodes@[k].right
                &&& self.nodes@[k].parent == other.nodes@[k].parent
            }
    }

    /// A tree with nothing in its order holds nothing.
    pub proof fn lemma_empty(&self)
        requires
            self.wf(),
            self.order().len() == 0,
        ensures
            self.entries() == Map::<NodeKey, T>::empty(),
    {
        assert forall|other: NodeKey| !self.has(other) by {
            if other.slot < self.nodes@.len() {
                assert(self.node_ok(other.slot as int));
            }
        }
        assert(self.entries() =~= Map::<NodeKey, T>::empty());
    }

    /// A tree has its own shape.
    pub proof fn lemma_shape_refl(&self)
        ensures
            self.same_shape(self),
    {
    }

    /// Having the same shape carries over.
    pub proof fn lemma_shape_trans(&self, middle: &Tree<T>, other: &Tree<T>)
        requires
            self.same_shape(middle),
            middle.same_shape(other),
        ensures
            self.same_shape(other),
    {
    }

    /// Trees of the same shape agree on all but what their nodes hold.
    pub proof fn lemma_same_shape(&self, other: &Tree<T>)
        requires
            self.same_shape(other),
        ensures
            self.order() == other.order(),
            self.root_key() == other.root_key(),
            self.slots() == other.slots(),
            self.entries().dom() == other.entries().dom(),
            forall|key: NodeKey| #[trigger] self.has(key) == other.has(key),
            forall|key: NodeKey| #[trigger] self.rank(key) == other.rank(key),
            forall|key: NodeKey| #[trigger] self.has(key) ==> self.left_of(key) == other.left_of(key),
            forall|key: NodeKey| #[trigger] self.has(key) ==> self.right_of(key) == other.right_of(key),
    {
        assert(self.entries().dom() =~= other.entries().dom());
    }

    /// The nodes are those of `before`, and hold what they held.
    spec fn kept(&self, before: &Tree<T>) -> bool {
        &&& self.nodes@.len() == before.nodes@.len()
        &&& forall|k: int|
            0 <= k < self.nodes@.len() ==> (#[trigger] self.nodes@[k]).alive == before.nodes@[k].alive
                && self.nodes@[k].contents == before.nodes@[k].contents
    }

    /// The height that is noted at a node, or 0 for no node.
    spec fn ht(&self, slot: Option<usize>) -> int {
        match slot {
            Some(k) => self.nodes@[k as int].height as int,
            None => 0,
        }
    }

    /// One more than `below`, as far as a `usize` holds it.
    spec fn above(below: int) -> int {
        if below < usize::MAX {
            below + 1
        } else {
            below
        }
    }

    /// The larger of the heights noted at the two children of a node.
    spec fn below(&self, k: int) -> int {
        let l = self.ht(self.nodes@[k].left);
        let r = self.ht(self.nodes@[k].right);
        if l < r {
            r
        } else {
            l
        }
    }

    /// The node has the height of the higher of its children and one more, and its
    /// children differ in height by one at most.
    spec fn avl_ok(&self, k: int) -> bool {
        let node = self.nodes@[k];
        let l = self.ht(node.left);
        let r = self.ht(node.right);
        node.alive ==> node.height == self.below(k) + 1 && l <= r + 1 && r <= l + 1
    }

    /// The node was in balance when the child on one of its sides had the height `was`:
    /// its own height is the one that follows from `was` and the other child.
    spec fn leaned(&self, k: int, on_left: bool, was: int) -> bool {
        let node = self.nodes@[k];
        let other = if on_left {
            self.ht(node.right)
        } else {
            self.ht(node.left)
        };
        &&& node.height == (if was < other {
            other
        } else {
            was
        }) + 1
        &&& was <= other + 1
        &&& other <= was + 1
    }

    /// The node was in balance when the child on one of its sides had the height `was`,
    /// and that child has since grown or shrunk by one level at most.
    spec fn almost(&self, k: int, on_left: bool, was: int) -> bool {
        let node = self.nodes@[k];
        let changed = if on_left {
            self.ht(node.left)
        } else {
            self.ht(node.right)
        };
        &&& changed - 1 <= was <= changed + 1
        &&& self.leaned(k, on_left, was)
    }

    /// The heights are in order but for the node `next`, if there is one, below which a
    /// subtree has grown or shrunk: see `almost`.
    spec fn pending(&self, next: Option<usize>, on_left: bool, was: int) -> bool {
        &&& self.order@.len() <= self.nodes@.len()
        &&& forall|k: int| 0 <= k < self.nodes@.len() && !is_slot(next, k) ==> #[trigger] self.avl_ok(k)
        &&& match next {
            Some(p) => p < self.nodes@.len() && self.nodes@[p as int].alive && self.almost(
                p as int,
                on_left,
                was,
            ),
            None => true,
        }
    }

    /// The tree is in balance: at every node the subtrees on the two sides differ in
    /// height by one at most.
    pub closed spec fn balanced(&self) -> bool {
        self.pending(None, true, 0)
    }

    /// The heights that are noted at the nodes are those of `before`, but for the nodes
    /// `x` and `y`.
    spec fn heights_kept(&self, before: &Tree<T>, x: int, y: int) -> bool {
        forall|k: int|
            0 <= k < self.nodes@.len() && k != x && k != y ==> (#[trigger] self.nodes@[k]).height
                == before.nodes@[k].height
    }

    /// The height that is noted at a node, or 0 for no node.
    fn height_of(&self, slot: Option<usize>) -> (r: usize)
        requires
            slot.is_some() ==> slot.unwrap() < self.nodes@.len(),
        ensures
            slot.is_none() ==> r == 0,
            slot.is_some() ==> r == self.nodes@[slot.unwrap() as int].height,
    {
        match slot {
            Some(k) => self.nodes[k].height,
            None => 0,
        }
    }

    /// Notes at a node the height that follows from those noted at its children.
    fn fix_height(&mut self, k: usize)
        requires
            old(self).wf(),
            k < old(self).nodes@.len(),
            old(self).nodes@[k as int].alive,
        ensures
            final(self).wf(),
            final(self).same_shape(old(self)),
            final(self).kept(old(self)),
            final(self).heights_kept(old(self), k as int, k as int),
            final(self).nodes@[k as int].height == Self::above(old(self).below(k as int)),
    {
        proof {
            assert(self.node_ok(k as int));
        }
        let left = self.height_of(self.nodes[k].left);
        let right = self.height_of(self.nodes[k].right);
        let below = if left < right {
            right
        } else {
            left
        };
        let height = if below < usize::MAX {
            below + 1
        } else {
            below
        };
        self.set_height(k, height);
        proof {
            assert forall|j: int| 0 <= j < self.nodes@.len() implies #[trigger] self.node_ok(j) by {
                assert(old(self).node_ok(j));
            }
        }
    }

    /// `after` is `before` with the link between `x` and its right child turned round.
    spec fn rotated_left(before: &Tree<T>, after: &Tree<T>, x: usize) -> bool {
        let y = before.nodes@[x as int].right.unwrap();
        let b = before.nodes@[y as int].left;
        let p = before.nodes@[x as int].parent;
        let sx = before.spans@[x as int];
        let sy = before.spans@[y as int];
        &&& after.nodes@.len() == before.nodes@.len()
        &&& after.spans@.len() == before.spans@.len()
        &&& after.order@ == before.order@
        &&& after.root == (if p.is_none() {
            Some(y)
        } else {
            before.root
        })
        &&& forall|k: int|
            0 <= k < before.nodes@.len() ==> {
                let o = before.nodes@[k];
                let n = #[trigger] after.nodes@[k];
                &&& n.alive == o.alive
                &&& n.contents == o.contents
                &&& n.left == (if k == y {
                    Some(x)
                } else if is_slot(p, k) && is_slot(o.left, x as int) {
                    Some(y)
                } else {
                    o.left
                })
                &&& n.right == (if k == x {
                    b
                } else if is_slot(p, k) && !is_slot(o.left, x as int) {
                    Some(y)
                } else {
                    o.right
                })
                &&& n.parent == (if k == x {
                    Some(y)
                } else if k == y {
                    p
                } else if is_slot(b, k) {
                    Some(x)
                } else {
                    o.parent
                })
            }
        &&& forall|k: int|
            0 <= k < before.spans@.len() ==> #[trigger] after.spans@[k] == (if k == x {
                Span { rank: sx.rank, lo: sx.lo, hi: sy.rank }
            } else if k == y {
                Span { rank: sy.rank, lo: sx.lo, hi: sx.hi }
            } else {
                before.spans@[k]
            })
    }

    proof fn lemma_rotated_left(before: &Tree<T>, after: &Tree<T>, x: usize)
        requires
            before.wf(),
            x < before.nodes@.len(),
            before.nodes@[x as int].alive,
            before.nodes@[x as int].right.is_some(),
            Self::rotated_left(before, after, x),
        ensures
            after.wf(),
    {
        let y = before.nodes@[x as int].right.unwrap();
        let b = before.nodes@[y as int].left;
        let p = before.nodes@[x as int].parent;
        assert(before.node_ok(x as int));
        assert(before.node_ok(y as int));
        if b.is_some() {
            assert(before.node_ok(b.unwrap() as int));
        }
        if p.is_some() {
            assert(before.node_ok(p.unwrap() as int));
        }
        assert forall|k: int| 0 <= k < after.nodes@.len() implies #[trigger] after.node_ok(k) by {
            assert(before.node_ok(k));
            let o = before.nodes@[k];
            let n = after.nodes@[k];
            if o.alive {
                if o.left.is_some() {
                    let l = o.left.unwrap() as int;
                    assert(before.node_ok(l));
                    assert(after.nodes@[l].alive == before.nodes@[l].alive);
                }
                if o.right.is_some() {
                    let r = o.right.unwrap() as int;
                    assert(before.node_ok(r));
                    assert(after.nodes@[r].alive == before.nodes@[r].alive);
                }
                if o.parent.is_some() {
                    let q = o.parent.unwrap() as int;
                    assert(before.node_ok(q));
                    assert(after.nodes@[q].alive == before.nodes@[q].alive);
                }
                assert(after.nodes@[x as int].alive && after.nodes@[y as int].alive);
            }
        }
        assert forall|i: int| 0 <= i < after.order@.len() implies (#[trigger] after.order@[i])
            < after.nodes@.len() && after.nodes@[after.order@[i] as int].alive
            && after.spans@[after.order@[i] as int].rank == i by {
            let k = before.order@[i] as int;
            assert(before.spans@[k].rank == i);
            assert(after.nodes@[k].alive == before.nodes@[k].alive);
        }
    }

    /// Turns the link between `x` and its right child `y` round: `y` takes the place of `x`,
    /// and `x` becomes the left child of `y`. The order stays as it is.
    fn rotate_left(&mut self, x: usize) -> (y: usize)
        requires
            old(self).wf(),
            x < old(self).nodes@.len(),
            old(self).nodes@[x as int].alive,
            old(self).nodes@[x as int].right.is_some(),
        ensures
            final(self).wf(),
            final(self).order@ == old(self).order@,
            final(self).kept(old(self)),
            Some(y) == old(self).nodes@[x as int].right,
            final(self).nodes@[y as int].parent == old(self).nodes@[x as int].parent,
            final(self).spans@[y as int].lo == old(self).spans@[x as int].lo,
            final(self).spans@[y as int].hi == old(self).spans@[x as int].hi,
            Self::rotated_left(old(self), final(self), x),
            final(self).heights_kept(old(self), x as int, y as int),
            final(self).nodes@[x as int].height == Self::above(final(self).below(x as int)),
            final(self).nodes@[y as int].height == Self::above(final(self).below(y as int)),
    {
        proof {
            assert(self.node_ok(x as int));
        }
        let y = self.nodes[x].right.unwrap();
        proof {
            assert(self.node_ok(y as int));
        }
        let b = self.nodes[y].left;
        let p = self.nodes[x].parent;
        proof {
            if b.is_some() {
                assert(self.node_ok(b.unwrap() as int));
            }
            if p.is_some() {
                assert(self.node_ok(p.unwrap() as int));
            }
        }
        self.set_right(x, b);
        match b {
            Some(inner) => {
                self.set_parent(inner, Some(x));
            },
            None => {},
        }
        self.set_left(y, Some(x));
        self.set_parent(x, Some(y));
        self.set_parent(y, p);
        match p {
            None => {
                self.root = Some(y);
            },
            Some(above) => {
                if self.nodes[above].left == Some(x) {
                    self.set_left(above, Some(y));
                } else {
                    self.set_right(above, Some(y));
                }
            },
        }
        proof {
            let sx = old(self).spans@[x as int];
            let sy = old(self).spans@[y as int];
            self.spans@ = old(self).spans@.update(
                x as int,
                Span { rank: sx.rank, lo: sx.lo, hi: sy.rank },
            ).update(y as int, Span { rank: sy.rank, lo: sx.lo, hi: sx.hi });
            Self::lemma_rotated_left(old(self), self, x);
        }
        let ghost turned = *self;
        self.fix_height(x);
        let ghost fixed = *self;
        self.fix_height(y);
        proof {
            assert(turned.node_ok(x as int));
            assert(turned.node_ok(y as int));
            assert(self.nodes@[x as int].left == fixed.nodes@[x as int].left);
            assert(self.nodes@[x as int].right == fixed.nodes@[x as int].right);
            assert(fixed.nodes@[x as int].left == turned.nodes@[x as int].left);
            assert(fixed.nodes@[x as int].right == turned.nodes@[x as int].right);
            assert(self.below(x as int) == turned.below(x as int));
        }
        y
    }

    /// `after` is `before` with the link between `x` and its left child turned round.
    spec fn rotated_right(before: &Tree<T>, after: &Tree<T>, x: usize) -> bool {
        let y = before.nodes@[x as int].left.unwrap();
        let b = before.nodes@[y as int].right;
        let p = before.nodes@[x as int].parent;
        let sx = before.spans@[x as int];
        let sy = before.spans@[y as int];
        &&& after.nodes@.len() == before.nodes@.len()
        &&& after.spans@.len() == before.spans@.len()
        &&& after.order@ == before.order@
        &&& after.root == (if p.is_none() {
            Some(y)
        } else {
            before.root
        })
        &&& forall|k: int|
            0 <= k < before.nodes@.len() ==> {
                let o = before.nodes@[k];
                let n = #[trigger] after.nodes@[k];
                &&& n.alive == o.alive
                &&& n.contents == o.contents
                &&& n.right == (if k == y {
                    Some(x)
                } else if is_slot(p, k) && is_slot(o.right, x as int) {
                    Some(y)
                } else {
                    o.right
                })
                &&& n.left == (if k == x {
                    b
                } else if is_slot(p, k) && !is_slot(o.right, x as int) {
                    Some(y)
                } else {
                    o.left
                })
                &&& n.parent == (if k == x {
                    Some(y)
                } else if k == y {
                    p
                } else if is_slot(b, k) {
                    Some(x)
                } else {
                    o.parent
                })
            }
        &&& forall|k: int|
            0 <= k < before.spans@.len() ==> #[trigger] after.spans@[k] == (if k == x {
                Span { rank: sx.rank, lo: sy.rank + 1, hi: sx.hi }
            } else if k == y {
                Span { rank: sy.rank, lo: sx.lo, hi: sx.hi }
            } else {
                before.spans@[k]
            })
    }

    proof fn lemma_rotated_right(before: &Tree<T>, after: &Tree<T>, x: usize)
        requires
            before.wf(),
            x < before.nodes@.len(),
            before.nodes@[x as int].alive,
            before.nodes@[x as int].left.is_some(),
            Self::rotated_right(before, after, x),
        ensures
            after.wf(),
    {
        let y = before.nodes@[x as int].left.unwrap();
        let b = before.nodes@[y as int].right;
        let p = before.nodes@[x as int].parent;
        assert(before.node_ok(x as int));
        assert(before.node_ok(y as int));
        if b.is_some() {
            assert(before.node_ok(b.unwrap() as int));
        }
        if p.is_some() {
            assert(before.node_ok(p.unwrap() as int));
        }
        assert forall|k: int| 0 <= k < after.nodes@.len() implies #[trigger] after.node_ok(k) by {
            assert(before.node_ok(k));
            let o = before.nodes@[k];
            let n = after.nodes@[k];
            if o.alive {
                if o.right.is_some() {
                    let l = o.right.unwrap() as int;
                    assert(before.node_ok(l));
                    assert(after.nodes@[l].alive == before.nodes@[l].alive);
                }
                if o.left.is_some() {
                    let r = o.left.unwrap() as int;
                    assert(before.node_ok(r));
                    assert(after.nodes@[r].alive == before.nodes@[r].alive);
                }
                if o.parent.is_some() {
                    let q = o.parent.unwrap() as int;
                    assert(before.node_ok(q));
                    assert(after.nodes@[q].alive == before.nodes@[q].alive);
                }
                assert(after.nodes@[x as int].alive && after.nodes@[y as int].alive);
            }
        }
        assert forall|i: int| 0 <= i < after.order@.len() implies (#[trigger] after.order@[i])
            < after.nodes@.len() && after.nodes@[after.order@[i] as int].alive
            && after.spans@[after.order@[i] as int].rank == i by {
            let k = before.order@[i] as int;
            assert(before.spans@[k].rank == i);
            assert(after.nodes@[k].alive == before.nodes@[k].alive);
        }
    }

    /// Turns the link between `x` and its left child `y` round: `y` takes the place of `x`,
    /// and `x` becomes the right child of `y`. The order stays as it is.
    fn rotate_right(&mut self, x: usize) -> (y: usize)
        requires
            old(self).wf(),
            x < old(self).nodes@.len(),
            old(self).nodes@[x as int].alive,
            old(self).nodes@[x as int].left.is_some(),
        ensures
            final(self).wf(),
            final(self).order@ == old(self).order@,
            final(self).kept(old(self)),
            Some(y) == old(self).nodes@[x as int].left,
            final(self).nodes@[y as int].parent == old(self).nodes@[x as int].parent,
            final(self).spans@[y as int].lo == old(self).spans@[x as int].lo,
            final(self).spans@[y as int].hi == old(self).spans@[x as int].hi,
            Self::rotated_right(old(self), final(self), x),
            final(self).heights_kept(old(self), x as int, y as int),
            final(self).nodes@[x as int].height == Self::above(final(self).below(x as int)),
            final(self).nodes@[y as int].height == Self::above(final(self).below(y as int)),
    {
        proof {
            assert(self.node_ok(x as int));
        }
        let y = self.nodes[x].left.unwrap();
        proof {
            assert(self.node_ok(y as int));
        }
        let b = self.nodes[y].right;
        let p = self.nodes[x].parent;
        proof {
            if b.is_some() {
                assert(self.node_ok(b.unwrap() as int));
            }
            if p.is_some() {
                assert(self.node_ok(p.unwrap() as int));
            }
        }
        self.set_left(x, b);
        match b {
            Some(inner) => {
                self.set_parent(inner, Some(x));
            },
            None => {},
        }
        self.set_right(y, Some(x));
        self.set_parent(x, Some(y));
        self.set_parent(y, p);
        match p {
            None => {
                self.root = Some(y);
            },
            Some(above) => {
                if self.nodes[above].right == Some(x) {
                    self.set_right(above, Some(y));
                } else {
                    self.set_left(above, Some(y));
                }
            },
        }
        proof {
            let sx = old(self).spans@[x as int];
            let sy = old(self).spans@[y as int];
            self.spans@ = old(self).spans@.update(
                x as int,
                Span { rank: sx.rank, lo: sy.rank + 1, hi: sx.hi },
            ).update(y as int, Span { rank: sy.rank, lo: sx.lo, hi: sx.hi });
            Self::lemma_rotated_right(old(self), self, x);
        }
        let ghost turned = *self;
        self.fix_height(x);
        let ghost fixed = *self;
        self.fix_height(y);
        proof {
            assert(turned.node_ok(x as int));
            assert(turned.node_ok(y as int));
            assert(self.nodes@[x as int].left == fixed.nodes@[x as int].left);
            assert(self.nodes@[x as int].right == fixed.nodes@[x as int].right);
            assert(fixed.nodes@[x as int].left == turned.nodes@[x as int].left);
            assert(fixed.nodes@[x as int].right == turned.nodes@[x as int].right);
            assert(self.below(x as int) == turned.below(x as int));
        }
        y
    }

    /// Where a node stands after a node was put in at place `p`: as the left child of the
    /// node that stood at `p`, or as the right child of the node before `p`.
    spec fn shifted(s: Span, p: int, as_left: bool) -> Span {
        Span {
            rank: if s.rank >= p {
                s.rank + 1
            } else {
                s.rank
            },
            lo: if (as_left && s.lo > p) || (!as_left && s.lo >= p) {
                s.lo + 1
            } else {
                s.lo
            },
            hi: if (as_left && s.hi > p) || (!as_left && s.hi >= p) {
                s.hi + 1
            } else {
                s.hi
            },
        }
    }

    /// `after` is `before` with a new node hung below `parent`, on the left or the right.
    spec fn attached(before: &Tree<T>, after: &Tree<T>, parent: usize, as_left: bool) -> bool {
        let fresh = before.nodes@.len() as int;
        let p = if as_left {
            before.spans@[parent as int].rank
        } else {
            before.spans@[parent as int].rank + 1
        };
        &&& after.nodes@.len() == fresh + 1
        &&& after.spans@.len() == fresh + 1
        &&& after.order@.len() == before.order@.len() + 1
        &&& forall|i: int|
            0 <= i < after.order@.len() ==> #[trigger] after.order@[i] == (if i < p {
                before.order@[i]
            } else if i == p {
                fresh as usize
            } else {
                before.order@[i - 1]
            })
        &&& after.root == before.root
        &&& forall|k: int|
            0 <= k < fresh ==> {
                let o = before.nodes@[k];
                let n = #[trigger] after.nodes@[k];
                &&& n.alive == o.alive
                &&& n.contents == o.contents
                &&& n.parent == o.parent
                &&& if k == parent && as_left {
                    is_slot(n.left, fresh)
                } else {
                    n.left == o.left
                }
                &&& if k == parent && !as_left {
                    is_slot(n.right, fresh)
                } else {
                    n.right == o.right
                }
            }
        &&& after.nodes@[fresh].alive
        &&& after.nodes@[fresh].left.is_none()
        &&& after.nodes@[fresh].right.is_none()
        &&& after.nodes@[fresh].parent == Some(parent)
        &&& forall|k: int|
            0 <= k < fresh ==> #[trigger] after.spans@[k] == Self::shifted(
                before.spans@[k],
                p,
                as_left,
            )
        &&& after.spans@[fresh] == (Span { rank: p, lo: p, hi: p + 1 })
    }

    proof fn lemma_attached(before: &Tree<T>, after: &Tree<T>, parent: usize, as_left: bool)
        requires
            before.wf(),
            parent < before.nodes@.len(),
            before.nodes@[parent as int].alive,
            as_left ==> before.nodes@[parent as int].left.is_none(),
            !as_left ==> before.nodes@[parent as int].right.is_none(),
            Self::attached(before, after, parent, as_left),
        ensures
            after.wf(),
    {
        let fresh = before.nodes@.len() as int;
        let p = if as_left {
            before.spans@[parent as int].rank
        } else {
            before.spans@[parent as int].rank + 1
        };
        assert(before.node_ok(parent as int));
        assert forall|k: int| 0 <= k < after.nodes@.len() implies #[trigger] after.node_ok(k) by {
            if k < fresh {
                assert(before.node_ok(k));
                let o = before.nodes@[k];
                if o.alive {
                    assert(before.spans@[before.order@[before.spans@[k].rank] as int].rank
                        == before.spans@[k].rank);
                    if o.left.is_some() {
                        let l = o.left.unwrap() as int;
                        assert(before.node_ok(l));
                        assert(after.nodes@[l].alive == before.nodes@[l].alive);
                    }
                    if o.right.is_some() {
                        let r = o.right.unwrap() as int;
                        assert(before.node_ok(r));
                        assert(after.nodes@[r].alive == before.nodes@[r].alive);
                    }
                    if o.parent.is_some() {
                        let q = o.parent.unwrap() as int;
                        assert(before.node_ok(q));
                        assert(after.nodes@[q].alive == before.nodes@[q].alive);
                    }
                }
            } else {
                assert(after.nodes@[parent as int].alive);
            }
        }
        assert forall|i: int| 0 <= i < after.order@.len() implies (#[trigger] after.order@[i])
            < after.nodes@.len() && after.nodes@[after.order@[i] as int].alive
            && after.spans@[after.order@[i] as int].rank == i by {
            if i < p {
                let k = before.order@[i] as int;
                assert(before.spans@[k].rank == i);
                assert(after.nodes@[k].alive == before.nodes@[k].alive);
            } else if i > p {
                let k = before.order@[i - 1] as int;
                assert(before.spans@[k].rank == i - 1);
                assert(after.nodes@[k].alive == before.nodes@[k].alive);
            }
        }
        match before.root {
            Some(r) => {
                assert(after.nodes@[r as int].alive == before.nodes@[r as int].alive);
            },
            None => {},
        }
    }

    /// Hangs a new node below `parent`, on the side that is free.
    fn attach(&mut self, parent: usize, as_left: bool, contents: T) -> (fresh: usize)
        requires
            old(self).wf(),
            parent < old(self).nodes@.len(),
            old(self).nodes@[parent as int].alive,
            as_left ==> old(self).nodes@[parent as int].left.is_none(),
            !as_left ==> old(self).nodes@[parent as int].right.is_none(),
        ensures
            final(self).wf(),
            fresh == old(self).nodes@.len(),
            final(self).nodes@[fresh as int].contents == contents,
            final(self).nodes@[fresh as int].parent == Some(parent),
            Self::attached(old(self), final(self), parent, as_left),
            final(self).heights_kept(old(self), fresh as int, fresh as int),
            final(self).nodes@[fresh as int].height == 1,
    {
        let fresh = self.nodes.len();
        self.nodes.push(
            Node { contents, parent: Some(parent), left: None, right: None, height: 1, alive: true },
        );
        if as_left {
            self.set_left(parent, Some(fresh));
        } else {
            self.set_right(parent, Some(fresh));
        }
        proof {
            let p = if as_left {
                old(self).spans@[parent as int].rank
            } else {
                old(self).spans@[parent as int].rank + 1
            };
            assert(old(self).node_ok(parent as int));
            self.order@ = old(self).order@.insert(p, fresh);
            self.spans@ = Seq::new(
                (fresh + 1) as nat,
                |k: int|
                    if k < fresh {
                        Self::shifted(old(self).spans@[k], p, as_left)
                    } else {
                        Span { rank: p, lo: p, hi: p + 1 }
                    },
            );
            Self::lemma_attached(old(self), self, parent, as_left);
        }
        fresh
    }

    /// Where a node stands after the node at place `q` was taken out.
    spec fn unshifted(s: Span, q: int) -> Span {
        Span {
            rank: if s.rank > q {
                s.rank - 1
            } else {
                s.rank
            },
            lo: if s.lo > q {
                s.lo - 1
            } else {
                s.lo
            },
            hi: if s.hi > q {
                s.hi - 1
            } else {
                s.hi
            },
        }
    }

    /// `after` is `before` without the node `k`, whose only child, if it had one, has
    /// taken its place.
    spec fn unlinked(before: &Tree<T>, after: &Tree<T>, k: usize) -> bool {
        let node = before.nodes@[k as int];
        let c = if node.left.is_some() {
            node.left
        } else {
            node.right
        };
        let p = node.parent;
        let q = before.spans@[k as int].rank;
        &&& after.nodes@.len() == before.nodes@.len()
        &&& after.spans@.len() == before.spans@.len()
        &&& after.order@.len() == before.order@.len() - 1
        &&& forall|i: int|
            0 <= i < after.order@.len() ==> #[trigger] after.order@[i] == (if i < q {
                before.order@[i]
            } else {
                before.order@[i + 1]
            })
        &&& after.root == (if p.is_none() {
            c
        } else {
            before.root
        })
        &&& forall|j: int|
            0 <= j < before.nodes@.len() ==> {
                let o = before.nodes@[j];
                let n = #[trigger] after.nodes@[j];
                &&& n.alive == (j != k && o.alive)
                &&& n.contents == o.contents
                &&& j != k ==> n.left == (if is_slot(p, j) && is_slot(o.left, k as int) {
                    c
                } else {
                    o.left
                })
                &&& j != k ==> n.right == (if is_slot(p, j) && !is_slot(o.left, k as int) {
                    c
                } else {
                    o.right
                })
                &&& j != k ==> n.parent == (if is_slot(c, j) {
                    p
                } else {
                    o.parent
                })
            }
        &&& forall|j: int|
            0 <= j < before.spans@.len() && j != k ==> #[trigger] after.spans@[j]
                == Self::unshifted(before.spans@[j], q)
    }

    proof fn lemma_unlinked(before: &Tree<T>, after: &Tree<T>, k: usize)
        requires
            before.wf(),
            k < before.nodes@.len(),
            before.nodes@[k as int].alive,
            before.nodes@[k as int].left.is_none() || before.nodes@[k as int].right.is_none(),
            Self::unlinked(before, after, k),
        ensures
            after.wf(),
    {
        let node = before.nodes@[k as int];
        let c = if node.left.is_some() {
            node.left
        } else {
            node.right
        };
        let p = node.parent;
        let q = before.spans@[k as int].rank;
        assert(before.node_ok(k as int));
        if c.is_some() {
            assert(before.node_ok(c.unwrap() as int));
        }
        if p.is_some() {
            assert(before.node_ok(p.unwrap() as int));
        }
        assert forall|j: int| 0 <= j < after.nodes@.len() implies #[trigger] after.node_ok(j) by {
            assert(before.node_ok(j));
            let o = before.nodes@[j];
            if o.alive && j != k {
                assert(before.spans@[before.order@[before.spans@[j].rank] as int].rank
                    == before.spans@[j].rank);
                if o.left.is_some() {
                    let l = o.left.unwrap() as int;
                    assert(before.node_ok(l));
                    assert(after.nodes@[l].alive == (l != k && before.nodes@[l].alive));
                }
                if o.right.is_some() {
                    let r = o.right.unwrap() as int;
                    assert(before.node_ok(r));
                    assert(after.nodes@[r].alive == (r != k && before.nodes@[r].alive));
                }
                if o.parent.is_some() {
                    let u = o.parent.unwrap() as int;
                    assert(before.node_ok(u));
                    assert(after.nodes@[u].alive == (u != k && before.nodes@[u].alive));
                }
                if c.is_some() {
                    assert(after.nodes@[c.unwrap() as int].alive);
                }
                if p.is_some() {
                    assert(after.nodes@[p.unwrap() as int].alive);
                }
            }
        }
        assert forall|i: int| 0 <= i < after.order@.len() implies (#[trigger] after.order@[i])
            < after.nodes@.len() && after.nodes@[after.order@[i] as int].alive
            && after.spans@[after.order@[i] as int].rank == i by {
            if i < q {
                let j = before.order@[i] as int;
                assert(before.spans@[j].rank == i);
                assert(after.nodes@[j].alive == (j != k && before.nodes@[j].alive));
            } else {
                let j = before.order@[i + 1] as int;
                assert(before.spans@[j].rank == i + 1);
                assert(after.nodes@[j].alive == (j != k && before.nodes@[j].alive));
            }
        }
        match after.root {
            Some(r) => {
                assert(after.nodes@[r as int].alive == (r != k && before.nodes@[r as int].alive));
            },
            None => {
                if before.order@.len() > 1 {
                    let other = before.order@[if q == 0 { 1int } else { 0int }] as int;
                    assert(before.spans@[other].rank != q);
                    assert(before.node_ok(other));
                }
            },
        }
    }

    /// Takes a node with at most one child out of the tree; the child, if there is one,
    /// takes its place.
    fn unlink(&mut self, k: usize)
        requires
            old(self).wf(),
            k < old(self).nodes@.len(),
            old(self).nodes@[k as int].alive,
            old(self).nodes@[k as int].left.is_none() || old(self).nodes@[k as int].right.is_none(),
        ensures
            final(self).wf(),
            Self::unlinked(old(self), final(self), k),
            final(self).heights_kept(old(self), k as int, k as int),
    {
        proof {
            assert(self.node_ok(k as int));
        }
        let c = if self.nodes[k].left.is_some() {
            self.nodes[k].left
        } else {
            self.nodes[k].right
        };
        let p = self.nodes[k].parent;
        proof {
            if c.is_some() {
                assert(self.node_ok(c.unwrap() as int));
            }
            if p.is_some() {
                assert(self.node_ok(p.unwrap() as int));
            }
        }
        match c {
            Some(child) => {
                self.set_parent(child, p);
            },
            None => {},
        }
        match p {
            None => {
                self.root = c;
            },
            Some(above) => {
                if self.nodes[above].left == Some(k) {
                    self.set_left(above, c);
                } else {
                    self.set_right(above, c);
                }
            },
        }
        self.set_alive(k, false);
        proof {
            let q = old(self).spans@[k as int].rank;
            self.order@ = old(self).order@.remove(q);
            self.spans@ = Seq::new(
                old(self).spans@.len(),
                |j: int| Self::unshifted(old(self).spans@[j], q),
            );
            Self::lemma_unlinked(old(self), self, k);
        }
    }

    /// `after` is `before` with the node `s`, which was not in the tree, in the place of
    /// the node `k`, which no longer is.
    spec fn replaced(before: &Tree<T>, after: &Tree<T>, k: usize, s: usize) -> bool {
        let node = before.nodes@[k as int];
        &&& after.nodes@.len() == before.nodes@.len()
        &&& after.spans@.len() == before.spans@.len()
        &&& after.order@ == before.order@.update(before.spans@[k as int].rank, s)
        &&& after.root == (if is_slot(before.root, k as int) {
            Some(s)
        } else {
            before.root
        })
        &&& forall|j: int|
            0 <= j < before.nodes@.len() ==> {
                let o = before.nodes@[j];
                let n = #[trigger] after.nodes@[j];
                &&& n.alive == (j == s || (j != k && o.alive))
                &&& n.contents == o.contents
                &&& j != k && j != s && o.alive ==> n.left == (if is_slot(o.left, k as int) {
                    Some(s)
                } else {
                    o.left
                })
                &&& j != k && j != s && o.alive ==> n.right == (if is_slot(o.right, k as int) {
                    Some(s)
                } else {
                    o.right
                })
                &&& j != k && j != s && o.alive ==> n.parent == (if is_slot(o.parent, k as int) {
                    Some(s)
                } else {
                    o.parent
                })
            }
        &&& after.nodes@[s as int].left == node.left
        &&& after.nodes@[s as int].right == node.right
        &&& after.nodes@[s as int].parent == node.parent
        &&& forall|j: int|
            0 <= j < before.spans@.len() && j != k ==> #[trigger] after.spans@[j] == (if j == s {
                before.spans@[k as int]
            } else {
                before.spans@[j]
            })
    }

    proof fn lemma_replaced(before: &Tree<T>, after: &Tree<T>, k: usize, s: usize)
        requires
            before.wf(),
            k < before.nodes@.len(),
            s < before.nodes@.len(),
            before.nodes@[k as int].alive,
            !before.nodes@[s as int].alive,
            Self::replaced(before, after, k, s),
        ensures
            after.wf(),
    {
        let node = before.nodes@[k as int];
        assert(before.node_ok(k as int));
        assert forall|j: int| 0 <= j < after.nodes@.len() implies #[trigger] after.node_ok(j) by {
            assert(before.node_ok(j));
            let o = if j == s {
                node
            } else {
                before.nodes@[j]
            };
            if after.nodes@[j].alive {
                if o.left.is_some() {
                    let l = o.left.unwrap() as int;
                    assert(before.node_ok(l));
                    assert(after.nodes@[l].alive == (l == s || (l != k && before.nodes@[l].alive)));
                }
                if o.right.is_some() {
                    let r = o.right.unwrap() as int;
                    assert(before.node_ok(r));
                    assert(after.nodes@[r].alive == (r == s || (r != k && before.nodes@[r].alive)));
                }
                if o.parent.is_some() {
                    let u = o.parent.unwrap() as int;
                    assert(before.node_ok(u));
                    assert(after.nodes@[u].alive == (u == s || (u != k && before.nodes@[u].alive)));
                }
            }
        }
        assert forall|i: int| 0 <= i < after.order@.len() implies (#[trigger] after.order@[i])
            < after.nodes@.len() && after.nodes@[after.order@[i] as int].alive
            && after.spans@[after.order@[i] as int].rank == i by {
            let j = before.order@[i] as int;
            assert(before.spans@[j].rank == i);
            assert(after.nodes@[j].alive == (j == s || (j != k && before.nodes@[j].alive)));
        }
        match before.root {
            Some(r) => {
                assert(after.nodes@[r as int].alive == (r == s || (r != k
                    && before.nodes@[r as int].alive)));
            },
            None => {},
        }
    }

    /// Puts the node `s`, which is not in the tree, into the place of the node `k`, which
    /// leaves the tree.
    fn replace(&mut self, k: usize, s: usize)
        requires
            old(self).wf(),
            k < old(self).nodes@.len(),
            s < old(self).nodes@.len(),
            old(self).nodes@[k as int].alive,
            !old(self).nodes@[s as int].alive,
        ensures
            final(self).wf(),
            Self::replaced(old(self), final(self), k, s),
            final(self).heights_kept(old(self), s as int, s as int),
            final(self).nodes@[s as int].height == old(self).nodes@[k as int].height,
    {
        proof {
            assert(self.node_ok(k as int));
        }
        let left = self.nodes[k].left;
        let right = self.nodes[k].right;
        let parent = self.nodes[k].parent;
        let height = self.nodes[k].height;
        proof {
            if left.is_some() {
                assert(self.node_ok(left.unwrap() as int));
            }
            if right.is_some() {
                assert(self.node_ok(right.unwrap() as int));
            }
            if parent.is_some() {
                assert(self.node_ok(parent.unwrap() as int));
            }
        }
        self.set_left(s, left);
        self.set_right(s, right);
        self.set_parent(s, parent);
        self.set_height(s, height);
        self.set_alive(s, true);
        self.set_alive(k, false);
        match left {
            Some(child) => {
                self.set_parent(child, Some(s));
            },
            None => {},
        }
        match right {
            Some(child) => {
                self.set_parent(child, Some(s));
            },
            None => {},
        }
        match parent {
            None => {
                self.root = Some(s);
            },
            Some(above) => {
                if self.nodes[above].left == Some(k) {
                    self.set_left(above, Some(s));
                } else {
                    self.set_right(above, Some(s));
                }
            },
        }
        proof {
            self.order@ = old(self).order@.update(old(self).spans@[k as int].rank, s);
            self.spans@ = old(self).spans@.update(s as int, old(self).spans@[k as int]);
            assert forall|j: int|
                0 <= j < self.nodes@.len() && j != k && j != s && old(self).nodes@[j].alive implies {
                let o = old(self).nodes@[j];
                let n = #[trigger] self.nodes@[j];
                &&& n.left == (if is_slot(o.left, k as int) {
                    Some(s)
                } else {
                    o.left
                })
                &&& n.right == (if is_slot(o.right, k as int) {
                    Some(s)
                } else {
                    o.right
                })
                &&& n.parent == (if is_slot(o.parent, k as int) {
                    Some(s)
                } else {
                    o.parent
                })
            } by {
                assert(old(self).node_ok(j));
            }
            Self::lemma_replaced(old(self), self, k, s);
        }
    }

    /// Every node in the subtree below `k` is in balance.
    spec fn sound_below(&self, k: int) -> bool {
        forall|j: int|
            0 <= j < self.nodes@.len() && self.nodes@[j].alive && self.spans@[k].lo
                <= self.spans@[j].rank < self.spans@[k].hi ==> #[trigger] self.avl_ok(j)
    }

    /// A subtree that is in balance is no higher than it has nodes.
    proof fn lemma_height_le_size(&self, k: int)
        requires
            self.wf(),
            0 <= k < self.nodes@.len(),
            self.nodes@[k].alive,
            self.sound_below(k),
        ensures
            self.nodes@[k].height <= self.spans@[k].hi - self.spans@[k].lo,
            self.spans@[k].hi - self.spans@[k].lo <= self.order@.len(),
        decreases self.spans@[k].hi - self.spans@[k].lo,
    {
        assert(self.node_ok(k));
        assert(self.avl_ok(k));
        let node = self.nodes@[k];
        match node.left {
            Some(l) => {
                assert(self.node_ok(l as int));
                assert forall|j: int|
                    0 <= j < self.nodes@.len() && self.nodes@[j].alive && self.spans@[l as int].lo
                        <= self.spans@[j].rank < self.spans@[l as int].hi implies #[trigger] self.avl_ok(
                    j,
                ) by {}
                self.lemma_height_le_size(l as int);
            },
            None => {},
        }
        match node.right {
            Some(r) => {
                assert(self.node_ok(r as int));
                assert forall|j: int|
                    0 <= j < self.nodes@.len() && self.nodes@[j].alive && self.spans@[r as int].lo
                        <= self.spans@[j].rank < self.spans@[r as int].hi implies #[trigger] self.avl_ok(
                    j,
                ) by {}
                self.lemma_height_le_size(r as int);
            },
            None => {},
        }
    }

    /// In a tree whose heights are in order but for one node, the subtrees below the
    /// children of that node are in balance, and so is each subtree below them.
    proof fn lemma_sound_beside(&self, x: int, k: int)
        requires
            self.wf(),
            0 <= x < self.nodes@.len(),
            self.nodes@[x].alive,
            forall|j: int|
                0 <= j < self.nodes@.len() && j != x && !is_slot(self.nodes@[x].parent, j)
                    ==> #[trigger] self.avl_ok(j),
            0 <= k < self.nodes@.len(),
            self.nodes@[k].alive,
            self.spans@[x].lo <= self.spans@[k].lo,
            self.spans@[k].hi <= self.spans@[x].hi,
            self.spans@[k].hi <= self.spans@[x].rank || self.spans@[x].rank < self.spans@[k].lo,
        ensures
            self.sound_below(k),
            self.nodes@[k].height <= self.spans@[k].hi - self.spans@[k].lo,
            self.nodes@[k].height < self.spans@[x].hi - self.spans@[x].lo,
            self.spans@[x].hi - self.spans@[x].lo <= self.order@.len(),
    {
        assert(self.node_ok(x));
        assert(self.node_ok(k));
        assert forall|j: int|
            0 <= j < self.nodes@.len() && self.nodes@[j].alive && self.spans@[k].lo
                <= self.spans@[j].rank < self.spans@[k].hi implies #[trigger] self.avl_ok(j) by {
            assert(self.node_ok(j));
            if self.nodes@[x].parent.is_some() {
                let g = self.nodes@[x].parent.unwrap() as int;
                assert(self.node_ok(g));
            }
        }
        self.lemma_height_le_size(k);
    }

    /// Whether the node `x` hangs on the left of its parent.
    spec fn side_of(&self, x: int) -> bool {
        match self.nodes@[x].parent {
            Some(g) => is_slot(self.nodes@[g as int].left, x),
            None => true,
        }
    }

    /// The height that is noted at the parent of `x` is the one that follows where `x`
    /// has the height `was`, and with that height the parent is in balance.
    spec fn propped(&self, x: int, was: int) -> bool {
        match self.nodes@[x].parent {
            Some(g) => self.leaned(g as int, self.side_of(x), was),
            None => true,
        }
    }

    /// The heights are in order at every node but `x`, `y` and the parent of `x`.
    spec fn sound_beside(&self, x: int, y: int) -> bool {
        forall|k: int|
            0 <= k < self.nodes@.len() && k != x && k != y && !is_slot(self.nodes@[x].parent, k)
                ==> #[trigger] self.avl_ok(k)
    }

    /// The heights are in order at every node but `g`.
    spec fn sound_under(&self, g: Option<usize>) -> bool {
        forall|k: int| 0 <= k < self.nodes@.len() && !is_slot(g, k) ==> #[trigger] self.avl_ok(k)
    }

    /// A live node, its children and its parent are four different nodes.
    proof fn lemma_apart(tree: &Tree<T>, k: int)
        requires
            tree.wf(),
            0 <= k < tree.nodes@.len(),
            tree.nodes@[k].alive,
        ensures
            !is_slot(tree.nodes@[k].left, k),
            !is_slot(tree.nodes@[k].right, k),
            !is_slot(tree.nodes@[k].parent, k),
            tree.nodes@[k].left.is_some() ==> tree.nodes@[k].left != tree.nodes@[k].right
                && tree.nodes@[k].left != tree.nodes@[k].parent,
            tree.nodes@[k].right.is_some() ==> tree.nodes@[k].right != tree.nodes@[k].parent,
    {
        let node = tree.nodes@[k];
        assert(tree.node_ok(k));
        if node.left.is_some() {
            assert(tree.node_ok(node.left.unwrap() as int));
        }
        if node.right.is_some() {
            assert(tree.node_ok(node.right.unwrap() as int));
        }
        if node.parent.is_some() {
            assert(tree.node_ok(node.parent.unwrap() as int));
        }
    }

    /// Turning the link between `x` and its child `y` round leaves the heights in order
    /// at every node that stands away from the two.
    proof fn lemma_turn_aside(before: &Tree<T>, after: &Tree<T>, x: int, y: int, k: int)
        requires
            before.wf(),
            0 <= x < before.nodes@.len(),
            before.nodes@[x].alive,
            (is_slot(before.nodes@[x].right, y) && Self::rotated_left(before, after, x as usize)) || (
            is_slot(before.nodes@[x].left, y) && Self::rotated_right(before, after, x as usize)),
            after.heights_kept(before, x, y),
            0 <= k < before.nodes@.len(),
            k != x,
            k != y,
            !is_slot(before.nodes@[x].parent, k),
            before.avl_ok(k),
        ensures
            after.avl_ok(k),
    {
        assert(before.node_ok(x));
        assert(before.node_ok(k));
        let o = before.nodes@[k];
        let n = after.nodes@[k];
        assert(n.left == o.left);
        assert(n.right == o.right);
        assert(n.alive == o.alive);
        assert(n.height == o.height);
        if o.alive {
            if o.left.is_some() {
                let c = o.left.unwrap() as int;
                assert(after.nodes@[c].height == before.nodes@[c].height);
            }
            if o.right.is_some() {
                let c = o.right.unwrap() as int;
                assert(after.nodes@[c].height == before.nodes@[c].height);
            }
        }
    }

    /// The node `x` has the height that follows from its children, which differ by two
    /// levels at most; its parent was in balance when `x` had the height `was`; and all
    /// other nodes are in order.
    spec fn settled(&self, x: int, was: int) -> bool {
        let node = self.nodes@[x];
        let l = self.ht(node.left);
        let r = self.ht(node.right);
        &&& self.order@.len() <= self.nodes@.len()
        &&& self.sound_beside(x, x)
        &&& self.propped(x, was)
        &&& node.height == self.below(x) + 1
        &&& l < usize::MAX
        &&& r < usize::MAX
        &&& l <= r + 2
        &&& r <= l + 2
        &&& l <= r + 1 && r <= l + 1 ==> node.height - 1 <= was <= node.height + 1
        &&& l == r + 2 || r == l + 2 ==> node.height - 1 <= was <= node.height
        &&& node.left.is_some() ==> self.avl_ok(node.left.unwrap() as int)
        &&& node.right.is_some() ==> self.avl_ok(node.right.unwrap() as int)
    }

    /// Once its height is noted anew, the node below which a subtree grew or shrank has
    /// the height that follows from its children, which differ by two levels at most;
    /// all other nodes but its parent are in order as they were.
    proof fn lemma_settled(before: &Tree<T>, after: &Tree<T>, x: usize, on_left: bool, was: int)
        requires
            before.wf(),
            after.wf(),
            x < before.nodes@.len(),
            after.same_shape(before),
            after.heights_kept(before, x as int, x as int),
            after.nodes@[x as int].height == Self::above(before.below(x as int)),
            before.pending(Some(x), on_left, was),
        ensures
            after.settled(x as int, before.nodes@[x as int].height as int),
    {
        let k = x as int;
        let node = before.nodes@[k];
        assert(before.node_ok(k));
        Self::lemma_apart(before, k);
        assert(after.nodes@[k].left == node.left);
        assert(after.nodes@[k].right == node.right);
        assert(after.ht(node.left) == before.ht(node.left)) by {
            if node.left.is_some() {
                assert(after.nodes@[node.left.unwrap() as int].height == before.nodes@[node.left.unwrap() as int].height);
            }
        }
        assert(after.ht(node.right) == before.ht(node.right)) by {
            if node.right.is_some() {
                assert(after.nodes@[node.right.unwrap() as int].height == before.nodes@[node.right.unwrap() as int].height);
            }
        }
        assert(before.spans@[k].hi - before.spans@[k].lo <= before.order@.len());
        if node.left.is_some() {
            let c = node.left.unwrap() as int;
            assert(before.node_ok(c));
            before.lemma_sound_beside(k, c);
        }
        if node.right.is_some() {
            let c = node.right.unwrap() as int;
            assert(before.node_ok(c));
            before.lemma_sound_beside(k, c);
        }
        assert(after.below(k) == before.below(k));
        assert(before.nodes@.len() <= usize::MAX) by {
            assert(before.nodes.len() == before.nodes@.len());
        }
        assert(before.below(k) < usize::MAX);
        assert(after.nodes@[k].height == after.below(k) + 1);
        assert forall|j: int|
            0 <= j < after.nodes@.len() && j != k && !is_slot(
                after.nodes@[k].parent,
                j,
            ) implies #[trigger] after.avl_ok(j) by {
            assert(before.avl_ok(j));
            assert(before.node_ok(j));
            let o = before.nodes@[j];
            assert(after.nodes@[j].left == o.left);
            assert(after.nodes@[j].right == o.right);
            assert(after.nodes@[j].height == o.height);
            if o.alive {
                if o.left.is_some() {
                    assert(after.nodes@[o.left.unwrap() as int].height == before.nodes@[o.left.unwrap() as int].height);
                }
                if o.right.is_some() {
                    assert(after.nodes@[o.right.unwrap() as int].height == before.nodes@[o.right.unwrap() as int].height);
                }
            }
        }
        if node.parent.is_some() {
            let g = node.parent.unwrap() as int;
            assert(before.node_ok(g));
            assert(before.avl_ok(g));
            Self::lemma_apart(before, g);
            let o = before.nodes@[g];
            assert(after.nodes@[g].left == o.left);
            assert(after.nodes@[g].right == o.right);
            assert(after.nodes@[g].height == o.height);
            if o.left.is_some() {
                assert(after.nodes@[o.left.unwrap() as int].height == before.nodes@[o.left.unwrap() as int].height
                    || o.left.unwrap() == x);
            }
            if o.right.is_some() {
                assert(after.nodes@[o.right.unwrap() as int].height == before.nodes@[o.right.unwrap() as int].height
                    || o.right.unwrap() == x);
            }
        }
    }

    /// Turning the link between `x` and its left child round, where the left side of `x`
    /// is two levels higher than the right and the child leans to the left if at all,
    /// puts the heights in order at both.
    proof fn lemma_turned_right(before: &Tree<T>, after: &Tree<T>, x: usize, was: int)
        requires
            before.wf(),
            after.wf(),
            x < before.nodes@.len(),
            before.nodes@[x as int].alive,
            before.nodes@[x as int].left.is_some(),
            Self::rotated_right(before, after, x),
            ({
                let y = before.nodes@[x as int].left.unwrap();
                let node = before.nodes@[y as int];
                &&& after.heights_kept(before, x as int, y as int)
                &&& after.nodes@[x as int].height == Self::above(after.below(x as int))
                &&& after.nodes@[y as int].height == Self::above(after.below(y as int))
                &&& before.sound_beside(x as int, y as int)
                &&& node.height == before.below(y as int) + 1
                &&& node.height < usize::MAX
                &&& before.ht(node.right) <= before.ht(node.left) <= before.ht(node.right) + 2
                &&& node.height == before.ht(before.nodes@[x as int].right) + 2
                &&& before.nodes@[x as int].height == node.height + 1
            }),
            before.propped(x as int, was),
        ensures
            ({
                let y = before.nodes@[x as int].left.unwrap();
                &&& after.sound_under(before.nodes@[x as int].parent)
                &&& after.nodes@[y as int].parent == before.nodes@[x as int].parent
                &&& before.nodes@[x as int].height - 1 <= after.nodes@[y as int].height
                    <= before.nodes@[x as int].height
                &&& after.propped(y as int, was)
            }),
    {
        let y = before.nodes@[x as int].left.unwrap();
        let p = before.nodes@[x as int].parent;
        let inner = before.nodes@[y as int].right;
        let outer = before.nodes@[y as int].left;
        let far = before.nodes@[x as int].right;
        assert(before.node_ok(x as int));
        assert(before.node_ok(y as int));
        Self::lemma_apart(before, x as int);
        Self::lemma_apart(before, y as int);
        assert(after.nodes@[x as int].left == inner);
        assert(after.nodes@[x as int].right == far);
        assert(after.nodes@[y as int].right == Some(x));
        assert(after.nodes@[y as int].left == outer);
        assert(after.ht(inner) == before.ht(inner)) by {
            if inner.is_some() {
                assert(after.nodes@[inner.unwrap() as int].height == before.nodes@[inner.unwrap() as int].height);
            }
        }
        assert(after.ht(outer) == before.ht(outer)) by {
            if outer.is_some() {
                assert(after.nodes@[outer.unwrap() as int].height == before.nodes@[outer.unwrap() as int].height);
            }
        }
        assert(after.ht(far) == before.ht(far)) by {
            if far.is_some() {
                assert(after.nodes@[far.unwrap() as int].height == before.nodes@[far.unwrap() as int].height);
            }
        }
        assert(after.avl_ok(x as int));
        assert(after.avl_ok(y as int));
        assert forall|k: int| 0 <= k < after.nodes@.len() && !is_slot(p, k) implies #[trigger] after.avl_ok(
            k,
        ) by {
            if k != x && k != y {
                Self::lemma_turn_aside(before, after, x as int, y as int, k);
            }
        }
        if p.is_some() {
            let g = p.unwrap() as int;
            assert(before.node_ok(g));
            Self::lemma_apart(before, g);
            let o = before.nodes@[g];
            let n = after.nodes@[g];
            assert(n.height == o.height);
            if is_slot(o.left, x as int) {
                assert(is_slot(n.left, y as int));
                assert(n.right == o.right);
                if o.right.is_some() {
                    assert(before.node_ok(o.right.unwrap() as int));
                    assert(after.nodes@[o.right.unwrap() as int].height == before.nodes@[o.right.unwrap() as int].height);
                }
            } else {
                assert(is_slot(n.right, y as int));
                assert(n.left == o.left);
                if o.left.is_some() {
                    assert(before.node_ok(o.left.unwrap() as int));
                    assert(after.nodes@[o.left.unwrap() as int].height == before.nodes@[o.left.unwrap() as int].height);
                }
                assert(!is_slot(n.left, y as int));
            }
        }
    }

    /// Turning the link between the left child of `x` and that child's right child
    /// round, where the left side of `x` is two levels higher than the right and the
    /// child leans to the right, leaves a left child that leans to the left.
    proof fn lemma_turned_in_left(before: &Tree<T>, after: &Tree<T>, x: usize, was: int)
        requires
            before.wf(),
            after.wf(),
            x < before.nodes@.len(),
            before.nodes@[x as int].alive,
            before.nodes@[x as int].left.is_some(),
            before.nodes@[before.nodes@[x as int].left.unwrap() as int].right.is_some(),
            Self::rotated_left(before, after, before.nodes@[x as int].left.unwrap()),
            ({
                let y = before.nodes@[x as int].left.unwrap();
                let z = before.nodes@[y as int].right.unwrap();
                let node = before.nodes@[y as int];
                &&& after.heights_kept(before, y as int, z as int)
                &&& after.nodes@[y as int].height == Self::above(after.below(y as int))
                &&& after.nodes@[z as int].height == Self::above(after.below(z as int))
                &&& before.sound_beside(x as int, x as int)
                &&& node.height < usize::MAX
                &&& before.ht(node.left) < before.ht(node.right)
                &&& node.height == before.ht(before.nodes@[x as int].right) + 2
                &&& before.nodes@[x as int].height == node.height + 1
            }),
            before.propped(x as int, was),
        ensures
            ({
                let y = before.nodes@[x as int].left.unwrap();
                let z = before.nodes@[y as int].right.unwrap();
                let node = after.nodes@[z as int];
                &&& after.nodes@[x as int].left == Some(z)
                &&& after.nodes@[x as int].right == before.nodes@[x as int].right
                &&& after.nodes@[x as int].parent == before.nodes@[x as int].parent
                &&& after.nodes@[x as int].height == before.nodes@[x as int].height
                &&& after.sound_beside(x as int, z as int)
                &&& node.height == after.below(z as int) + 1
                &&& node.height < usize::MAX
                &&& after.ht(node.right) <= after.ht(node.left) <= after.ht(node.right) + 2
                &&& node.height == after.ht(after.nodes@[x as int].right) + 2
                &&& after.nodes@[x as int].height == node.height + 1
            }),
            after.propped(x as int, was),
    {
        let y = before.nodes@[x as int].left.unwrap();
        let z = before.nodes@[y as int].right.unwrap();
        let p = before.nodes@[x as int].parent;
        let outer = before.nodes@[y as int].left;
        let near = before.nodes@[z as int].left;
        let off = before.nodes@[z as int].right;
        let far = before.nodes@[x as int].right;
        assert(before.node_ok(x as int));
        assert(before.node_ok(y as int));
        assert(before.node_ok(z as int));
        Self::lemma_apart(before, x as int);
        Self::lemma_apart(before, y as int);
        Self::lemma_apart(before, z as int);
        assert(before.avl_ok(y as int));
        assert(before.avl_ok(z as int));
        assert(after.nodes@[y as int].left == outer);
        assert(after.nodes@[y as int].right == near);
        assert(after.nodes@[z as int].left == Some(y));
        assert(after.nodes@[z as int].right == off);
        assert(after.nodes@[x as int].left == Some(z));
        assert(after.nodes@[x as int].right == far);
        assert(after.ht(near) == before.ht(near)) by {
            if near.is_some() {
                assert(after.nodes@[near.unwrap() as int].height == before.nodes@[near.unwrap() as int].height);
            }
        }
        assert(after.ht(outer) == before.ht(outer)) by {
            if outer.is_some() {
                assert(after.nodes@[outer.unwrap() as int].height == before.nodes@[outer.unwrap() as int].height);
            }
        }
        assert(after.ht(off) == before.ht(off)) by {
            if off.is_some() {
                assert(after.nodes@[off.unwrap() as int].height == before.nodes@[off.unwrap() as int].height);
            }
        }
        assert(after.ht(far) == before.ht(far)) by {
            if far.is_some() {
                assert(before.node_ok(far.unwrap() as int));
                assert(after.nodes@[far.unwrap() as int].height == before.nodes@[far.unwrap() as int].height);
            }
        }
        assert(after.nodes@[x as int].height == before.nodes@[x as int].height);
        assert(after.avl_ok(y as int));
        assert forall|k: int|
            0 <= k < after.nodes@.len() && k != x && k != z && !is_slot(
                after.nodes@[x as int].parent,
                k,
            ) implies #[trigger] after.avl_ok(k) by {
            if k != y {
                Self::lemma_turn_aside(before, after, y as int, z as int, k);
            }
        }
        if p.is_some() {
            let g = p.unwrap() as int;
            assert(before.node_ok(g));
            Self::lemma_apart(before, g);
            let o = before.nodes@[g];
            let n = after.nodes@[g];
            assert(n.height == o.height);
            assert(n.left == o.left);
            assert(n.right == o.right);
            if o.right.is_some() {
                assert(before.node_ok(o.right.unwrap() as int));
                assert(after.nodes@[o.right.unwrap() as int].height == before.nodes@[
                    o.right.unwrap() as int].height || o.right.unwrap() == x);
            }
            if o.left.is_some() {
                assert(before.node_ok(o.left.unwrap() as int));
                assert(after.nodes@[o.left.unwrap() as int].height == before.nodes@[o.left.unwrap() as int].height
                    || o.left.unwrap() == x);
            }
        }
    }

    /// Turning the link between `x` and its right child round, where the right side of `x`
    /// is two levels higher than the left and the child leans to the right if at all,
    /// puts the heights in order at both.
    proof fn lemma_turned_left(before: &Tree<T>, after: &Tree<T>, x: usize, was: int)
        requires
            before.wf(),
            after.wf(),
            x < before.nodes@.len(),
            before.nodes@[x as int].alive,
            before.nodes@[x as int].right.is_some(),
            Self::rotated_left(before, after, x),
            ({
                let y = before.nodes@[x as int].right.unwrap();
                let node = before.nodes@[y as int];
                &&& after.heights_kept(before, x as int, y as int)
                &&& after.nodes@[x as int].height == Self::above(after.below(x as int))
                &&& after.nodes@[y as int].height == Self::above(after.below(y as int))
                &&& before.sound_beside(x as int, y as int)
                &&& node.height == before.below(y as int) + 1
                &&& node.height < usize::MAX
                &&& before.ht(node.left) <= before.ht(node.right) <= before.ht(node.left) + 2
                &&& node.height == before.ht(before.nodes@[x as int].left) + 2
                &&& before.nodes@[x as int].height == node.height + 1
            }),
            before.propped(x as int, was),
        ensures
            ({
                let y = before.nodes@[x as int].right.unwrap();
                &&& after.sound_under(before.nodes@[x as int].parent)
                &&& after.nodes@[y as int].parent == before.nodes@[x as int].parent
                &&& before.nodes@[x as int].height - 1 <= after.nodes@[y as int].height
                    <= before.nodes@[x as int].height
                &&& after.propped(y as int, was)
            }),
    {
        let y = before.nodes@[x as int].right.unwrap();
        let p = before.nodes@[x as int].parent;
        let inner = before.nodes@[y as int].left;
        let outer = before.nodes@[y as int].right;
        let far = before.nodes@[x as int].left;
        assert(before.node_ok(x as int));
        assert(before.node_ok(y as int));
        Self::lemma_apart(before, x as int);
        Self::lemma_apart(before, y as int);
        assert(after.nodes@[x as int].right == inner);
        assert(after.nodes@[x as int].left == far);
        assert(after.nodes@[y as int].left == Some(x));
        assert(after.nodes@[y as int].right == outer);
        assert(after.ht(inner) == before.ht(inner)) by {
            if inner.is_some() {
                assert(after.nodes@[inner.unwrap() as int].height == before.nodes@[inner.unwrap() as int].height);
            }
        }
        assert(after.ht(outer) == before.ht(outer)) by {
            if outer.is_some() {
                assert(after.nodes@[outer.unwrap() as int].height == before.nodes@[outer.unwrap() as int].height);
            }
        }
        assert(after.ht(far) == before.ht(far)) by {
            if far.is_some() {
                assert(after.nodes@[far.unwrap() as int].height == before.nodes@[far.unwrap() as int].height);
            }
        }
        assert(after.avl_ok(x as int));
        assert(after.avl_ok(y as int));
        assert forall|k: int| 0 <= k < after.nodes@.len() && !is_slot(p, k) implies #[trigger] after.avl_ok(
            k,
        ) by {
            if k != x && k != y {
                Self::lemma_turn_aside(before, after, x as int, y as int, k);
            }
        }
        if p.is_some() {
            let g = p.unwrap() as int;
            assert(before.node_ok(g));
            Self::lemma_apart(before, g);
            let o = before.nodes@[g];
            let n = after.nodes@[g];
            assert(n.height == o.height);
            if is_slot(o.right, x as int) {
                assert(is_slot(n.right, y as int));
                assert(n.left == o.left);
                if o.left.is_some() {
                    assert(before.node_ok(o.left.unwrap() as int));
                    assert(after.nodes@[o.left.unwrap() as int].height == before.nodes@[o.left.unwrap() as int].height);
                }
            } else {
                assert(is_slot(n.left, y as int));
                assert(n.right == o.right);
                if o.right.is_some() {
                    assert(before.node_ok(o.right.unwrap() as int));
                    assert(after.nodes@[o.right.unwrap() as int].height == before.nodes@[o.right.unwrap() as int].height);
                }
                assert(!is_slot(n.right, y as int));
            }
        }
    }

    /// Turning the link between the right child of `x` and that child's left child
    /// round, where the right side of `x` is two levels higher than the left and the
    /// child leans to the left, leaves a right child that leans to the right.
    proof fn lemma_turned_in_right(before: &Tree<T>, after: &Tree<T>, x: usize, was: int)
        requires
            before.wf(),
            after.wf(),
            x < before.nodes@.len(),
            before.nodes@[x as int].alive,
            before.nodes@[x as int].right.is_some(),
            before.nodes@[before.nodes@[x as int].right.unwrap() as int].left.is_some(),
            Self::rotated_right(before, after, before.nodes@[x as int].right.unwrap()),
            ({
                let y = before.nodes@[x as int].right.unwrap();
                let z = before.nodes@[y as int].left.unwrap();
                let node = before.nodes@[y as int];
                &&& after.heights_kept(before, y as int, z as int)
                &&& after.nodes@[y as int].height == Self::above(after.below(y as int))
                &&& after.nodes@[z as int].height == Self::above(after.below(z as int))
                &&& before.sound_beside(x as int, x as int)
                &&& node.height < usize::MAX
                &&& before.ht(node.right) < before.ht(node.left)
                &&& node.height == before.ht(before.nodes@[x as int].left) + 2
                &&& before.nodes@[x as int].height == node.height + 1
            }),
            before.propped(x as int, was),
        ensures
            ({
                let y = before.nodes@[x as int].right.unwrap();
                let z = before.nodes@[y as int].left.unwrap();
                let node = after.nodes@[z as int];
                &&& after.nodes@[x as int].right == Some(z)
                &&& after.nodes@[x as int].left == before.nodes@[x as int].left
                &&& after.nodes@[x as int].parent == before.nodes@[x as int].parent
                &&& after.nodes@[x as int].height == before.nodes@[x as int].height
                &&& after.sound_beside(x as int, z as int)
                &&& node.height == after.below(z as int) + 1
                &&& node.height < usize::MAX
                &&& after.ht(node.left) <= after.ht(node.right) <= after.ht(node.left) + 2
                &&& node.height == after.ht(after.nodes@[x as int].left) + 2
                &&& after.nodes@[x as int].height == node.height + 1
            }),
            after.propped(x as int, was),
    {
        let y = before.nodes@[x as int].right.unwrap();
        let z = before.nodes@[y as int].left.unwrap();
        let p = before.nodes@[x as int].parent;
        let outer = before.nodes@[y as int].right;
        let near = before.nodes@[z as int].right;
        let off = before.nodes@[z as int].left;
        let far = before.nodes@[x as int].left;
        assert(before.node_ok(x as int));
        assert(before.node_ok(y as int));
        assert(before.node_ok(z as int));
        Self::lemma_apart(before, x as int);
        Self::lemma_apart(before, y as int);
        Self::lemma_apart(before, z as int);
        assert(before.avl_ok(y as int));
        assert(before.avl_ok(z as int));
        assert(after.nodes@[y as int].right == outer);
        assert(after.nodes@[y as int].left == near);
        assert(after.nodes@[z as int].right == Some(y));
        assert(after.nodes@[z as int].left == off);
        assert(after.nodes@[x as int].right == Some(z));
        assert(after.nodes@[x as int].left == far);
        assert(after.ht(near) == before.ht(near)) by {
            if near.is_some() {
                assert(after.nodes@[near.unwrap() as int].height == before.nodes@[near.unwrap() as int].height);
            }
        }
        assert(after.ht(outer) == before.ht(outer)) by {
            if outer.is_some() {
                assert(after.nodes@[outer.unwrap() as int].height == before.nodes@[outer.unwrap() as int].height);
            }
        }
        assert(after.ht(off) == before.ht(off)) by {
            if off.is_some() {
                assert(after.nodes@[off.unwrap() as int].height == before.nodes@[off.unwrap() as int].height);
            }
        }
        assert(after.ht(far) == before.ht(far)) by {
            if far.is_some() {
                assert(before.node_ok(far.unwrap() as int));
                assert(after.nodes@[far.unwrap() as int].height == before.nodes@[far.unwrap() as int].height);
            }
        }
        assert(after.nodes@[x as int].height == before.nodes@[x as int].height);
        assert(after.avl_ok(y as int));
        assert forall|k: int|
            0 <= k < after.nodes@.len() && k != x && k != z && !is_slot(
                after.nodes@[x as int].parent,
                k,
            ) implies #[trigger] after.avl_ok(k) by {
            if k != y {
                Self::lemma_turn_aside(before, after, y as int, z as int, k);
            }
        }
        if p.is_some() {
            let g = p.unwrap() as int;
            assert(before.node_ok(g));
            Self::lemma_apart(before, g);
            let o = before.nodes@[g];
            let n = after.nodes@[g];
            assert(n.height == o.height);
            assert(n.right == o.right);
            assert(n.left == o.left);
            if o.left.is_some() {
                assert(before.node_ok(o.left.unwrap() as int));
                assert(after.nodes@[o.left.unwrap() as int].height == before.nodes@[
                    o.left.unwrap() as int].height || o.left.unwrap() == x);
            }
            if o.right.is_some() {
                assert(before.node_ok(o.right.unwrap() as int));
                assert(after.nodes@[o.right.unwrap() as int].height == before.nodes@[o.right.unwrap() as int].height
                    || o.right.unwrap() == x);
            }
        }
    }

    /// Turns links round at `x`, whose left side is higher than the right by more than one
    /// level. Gives the node that stands where `x` stood.
    fn lean_right(&mut self, x: usize, Ghost(sound): Ghost<bool>, Ghost(was): Ghost<int>) -> (top:
        usize)
        requires
            old(self).wf(),
            x < old(self).nodes@.len(),
            old(self).nodes@[x as int].alive,
            old(self).nodes@[x as int].left.is_some(),
            sound ==> old(self).settled(x as int, was) && old(self).ht(old(self).nodes@[x as int].left)
                == old(self).ht(old(self).nodes@[x as int].right) + 2,
        ensures
            final(self).wf(),
            final(self).order@ == old(self).order@,
            final(self).kept(old(self)),
            top < final(self).nodes@.len(),
            final(self).nodes@[top as int].alive,
            final(self).spans@[top as int].lo == old(self).spans@[x as int].lo,
            final(self).spans@[top as int].hi == old(self).spans@[x as int].hi,
            sound ==> final(self).pending(
                final(self).nodes@[top as int].parent,
                final(self).side_of(top as int),
                was,
            ),
    {
        proof {
            assert(self.node_ok(x as int));
        }
        let l = self.nodes[x].left.unwrap();
        proof {
            assert(self.node_ok(l as int));
        }
        let inner = self.height_of(self.nodes[l].right);
        let outer = self.height_of(self.nodes[l].left);
        if outer < inner {
            self.rotate_left(l);
            proof {
                assert(old(self).node_ok(old(self).nodes@[l as int].right.unwrap() as int));
                assert(self.nodes@[x as int].left.is_some());
                if sound {
                    Self::lemma_turned_in_left(old(self), self, x, was);
                }
            }
        }
        let ghost mid = *self;
        let top = self.rotate_right(x);
        proof {
            if sound {
                Self::lemma_turned_right(&mid, self, x, was);
                Self::lemma_raised(self, top as int, was);
            }
        }
        top
    }

    /// Turns links round at `x`, whose right side is higher than the left by more than one
    /// level. Gives the node that stands where `x` stood.
    fn lean_left(&mut self, x: usize, Ghost(sound): Ghost<bool>, Ghost(was): Ghost<int>) -> (top:
        usize)
        requires
            old(self).wf(),
            x < old(self).nodes@.len(),
            old(self).nodes@[x as int].alive,
            old(self).nodes@[x as int].right.is_some(),
            sound ==> old(self).settled(x as int, was) && old(self).ht(old(self).nodes@[x as int].right)
                == old(self).ht(old(self).nodes@[x as int].left) + 2,
        ensures
            final(self).wf(),
            final(self).order@ == old(self).order@,
            final(self).kept(old(self)),
            top < final(self).nodes@.len(),
            final(self).nodes@[top as int].alive,
            final(self).spans@[top as int].lo == old(self).spans@[x as int].lo,
            final(self).spans@[top as int].hi == old(self).spans@[x as int].hi,
            sound ==> final(self).pending(
                final(self).nodes@[top as int].parent,
                final(self).side_of(top as int),
                was,
            ),
    {
        proof {
            assert(self.node_ok(x as int));
        }
        let l = self.nodes[x].right.unwrap();
        proof {
            assert(self.node_ok(l as int));
        }
        let inner = self.height_of(self.nodes[l].left);
        let outer = self.height_of(self.nodes[l].right);
        if outer < inner {
            self.rotate_right(l);
            proof {
                assert(old(self).node_ok(old(self).nodes@[l as int].left.unwrap() as int));
                assert(self.nodes@[x as int].right.is_some());
                if sound {
                    Self::lemma_turned_in_right(old(self), self, x, was);
                }
            }
        }
        let ghost mid = *self;
        let top = self.rotate_left(x);
        proof {
            if sound {
                Self::lemma_turned_left(&mid, self, x, was);
                Self::lemma_raised(self, top as int, was);
            }
        }
        top
    }

    /// Notes the height of `x` anew and, where one side below it has grown more than one
    /// level higher than the other, turns links round until the two differ by one level at
    /// most. Gives the node that stands where `x` stood.
    fn rebalance(&mut self, x: usize, Ghost(on_left): Ghost<bool>, Ghost(was): Ghost<int>) -> (top:
        usize)
        requires
            old(self).wf(),
            x < old(self).nodes@.len(),
            old(self).nodes@[x as int].alive,
        ensures
            final(self).wf(),
            final(self).order@ == old(self).order@,
            final(self).kept(old(self)),
            top < final(self).nodes@.len(),
            final(self).nodes@[top as int].alive,
            final(self).spans@[top as int].lo == old(self).spans@[x as int].lo,
            final(self).spans@[top as int].hi == old(self).spans@[x as int].hi,
            old(self).pending(Some(x), on_left, was) ==> final(self).pending(
                final(self).nodes@[top as int].parent,
                final(self).side_of(top as int),
                old(self).nodes@[x as int].height as int,
            ),
    {
        let ghost sound = self.pending(Some(x), on_left, was);
        let ghost height = self.nodes@[x as int].height as int;
        self.fix_height(x);
        proof {
            assert(self.node_ok(x as int));
            if sound {
                Self::lemma_settled(old(self), self, x, on_left, was);
            }
        }
        let hl = self.height_of(self.nodes[x].left);
        let hr = self.height_of(self.nodes[x].right);
        if hl > hr && hl - hr > 1 {
            self.lean_right(x, Ghost(sound), Ghost(height))
        } else if hr > hl && hr - hl > 1 {
            self.lean_left(x, Ghost(sound), Ghost(height))
        } else {
            proof {
                if sound {
                    assert(self.avl_ok(x as int));
                    Self::lemma_raised(self, x as int, height);
                }
            }
            x
        }
    }

    /// Where the heights are in order at every node but the parent of `top`, and that
    /// parent was in balance when `top` had a height one level off at most, the tree
    /// waits for that parent alone.
    proof fn lemma_raised(tree: &Tree<T>, top: int, was: int)
        requires
            tree.wf(),
            0 <= top < tree.nodes@.len(),
            tree.nodes@[top].alive,
            tree.order@.len() <= tree.nodes@.len(),
            tree.sound_under(tree.nodes@[top].parent),
            tree.propped(top, was),
            tree.nodes@[top].height - 1 <= was <= tree.nodes@[top].height + 1,
        ensures
            tree.pending(tree.nodes@[top].parent, tree.side_of(top), was),
    {
        assert(tree.node_ok(top));
    }

    /// Goes up from `start` to the root and puts each node on the way in balance.
    fn retrace(&mut self, start: Option<usize>, Ghost(on_left): Ghost<bool>, Ghost(was): Ghost<int>)
        requires
            old(self).wf(),
            start.is_some() ==> start.unwrap() < old(self).nodes@.len() && old(self).nodes@[start.unwrap() as int].alive,
        ensures
            final(self).wf(),
            final(self).order@ == old(self).order@,
            final(self).kept(old(self)),
            old(self).pending(start, on_left, was) ==> final(self).balanced(),
    {
        let mut current = start;
        let ghost sound = self.pending(start, on_left, was);
        let ghost side = on_left;
        let ghost height = was;
        while current.is_some()
            invariant
                self.wf(),
                self.order@ == old(self).order@,
                self.kept(old(self)),
                current.is_some() ==> current.unwrap() < self.nodes@.len() && self.nodes@[current.unwrap() as int].alive,
                sound ==> self.pending(current, side, height),
            decreases
                    if current.is_some() {
                        self.order@.len() - (self.spans@[current.unwrap() as int].hi
                            - self.spans@[current.unwrap() as int].lo) + 1
                    } else {
                        0
                    },
        {
            let x = current.unwrap();
            proof {
                assert(self.node_ok(x as int));
            }
            let ghost before = *self;
            let top = self.rebalance(x, Ghost(side), Ghost(height));
            proof {
                assert(self.node_ok(top as int));
                if self.nodes@[top as int].parent.is_some() {
                    assert(self.node_ok(self.nodes@[top as int].parent.unwrap() as int));
                }
                side = self.side_of(top as int);
                height = before.nodes@[x as int].height as int;
            }
            current = self.nodes[top].parent;
        }
    }

    /// A tree in balance into which a node was hung waits for the parent of that node.
    proof fn lemma_attached_pending(before: &Tree<T>, after: &Tree<T>, parent: usize, as_left: bool)
        requires
            before.wf(),
            after.wf(),
            parent < before.nodes@.len(),
            before.nodes@[parent as int].alive,
            as_left ==> before.nodes@[parent as int].left.is_none(),
            !as_left ==> before.nodes@[parent as int].right.is_none(),
            Self::attached(before, after, parent, as_left),
            after.heights_kept(before, before.nodes@.len() as int, before.nodes@.len() as int),
            after.nodes@[before.nodes@.len() as int].height == 1,
            before.balanced(),
        ensures
            after.pending(Some(parent), as_left, 0),
    {
        let fresh = before.nodes@.len() as int;
        assert forall|k: int| 0 <= k < after.nodes@.len() && k != parent implies #[trigger] after.avl_ok(
            k,
        ) by {
            if k < fresh {
                Self::lemma_height_stays(before, after, k);
            }
        }
        let o = before.nodes@[parent as int];
        let n = after.nodes@[parent as int];
        assert(before.avl_ok(parent as int));
        assert(before.node_ok(parent as int));
        assert(n.height == o.height);
        if as_left {
            assert(n.right == o.right);
            if o.right.is_some() {
                assert(after.nodes@[o.right.unwrap() as int].height == before.nodes@[o.right.unwrap() as int].height);
            }
        } else {
            assert(n.left == o.left);
            if o.left.is_some() {
                assert(after.nodes@[o.left.unwrap() as int].height == before.nodes@[o.left.unwrap() as int].height);
            }
        }
    }

    /// A node that has its children and the heights noted at them and at itself as in
    /// `before`, where its height was in order, has it in order.
    proof fn lemma_height_stays(before: &Tree<T>, after: &Tree<T>, k: int)
        requires
            before.wf(),
            0 <= k < before.nodes@.len(),
            before.nodes@.len() <= after.nodes@.len(),
            before.avl_ok(k),
            after.nodes@[k].alive ==> before.nodes@[k].alive,
            after.nodes@[k].left == before.nodes@[k].left,
            after.nodes@[k].right == before.nodes@[k].right,
            after.nodes@[k].height == before.nodes@[k].height,
            forall|j: int|
                0 <= j < before.nodes@.len() && (is_slot(before.nodes@[k].left, j) || is_slot(
                    before.nodes@[k].right,
                    j,
                )) ==> (#[trigger] after.nodes@[j]).height == before.nodes@[j].height,
        ensures
            after.avl_ok(k),
    {
        let o = before.nodes@[k];
        if o.alive {
            assert(before.node_ok(k));
            if o.left.is_some() {
                assert(after.nodes@[o.left.unwrap() as int].height == before.nodes@[o.left.unwrap() as int].height);
            }
            if o.right.is_some() {
                assert(after.nodes@[o.right.unwrap() as int].height == before.nodes@[o.right.unwrap() as int].height);
            }
        }
    }

    /// A tree in balance out of which a node was taken waits for the parent of that node.
    proof fn lemma_unlinked_pending(before: &Tree<T>, after: &Tree<T>, k: usize)
        requires
            before.wf(),
            after.wf(),
            k < before.nodes@.len(),
            before.nodes@[k as int].alive,
            before.nodes@[k as int].left.is_none() || before.nodes@[k as int].right.is_none(),
            Self::unlinked(before, after, k),
            after.heights_kept(before, k as int, k as int),
            before.balanced(),
        ensures
            after.pending(
                before.nodes@[k as int].parent,
                before.side_of(k as int),
                before.nodes@[k as int].height as int,
            ),
    {
        let node = before.nodes@[k as int];
        let p = node.parent;
        let c = if node.left.is_some() {
            node.left
        } else {
            node.right
        };
        assert(before.node_ok(k as int));
        assert(before.avl_ok(k as int));
        Self::lemma_apart(before, k as int);
        assert forall|j: int| 0 <= j < after.nodes@.len() && !is_slot(p, j) implies #[trigger] after.avl_ok(
            j,
        ) by {
            if j != k {
                assert(before.avl_ok(j));
                if before.nodes@[j].alive {
                    assert(before.node_ok(j));
                    Self::lemma_height_stays(before, after, j);
                }
            }
        }
        if p.is_some() {
            let g = p.unwrap() as int;
            assert(before.node_ok(g));
            assert(before.avl_ok(g));
            Self::lemma_apart(before, g);
            let o = before.nodes@[g];
            let n = after.nodes@[g];
            assert(n.height == o.height);
            assert(n.alive);
            if c.is_some() {
                assert(before.node_ok(c.unwrap() as int));
                assert(after.nodes@[c.unwrap() as int].height == before.nodes@[c.unwrap() as int].height);
            }
            if is_slot(o.left, k as int) {
                assert(n.left == c);
                assert(n.right == o.right);
                if o.right.is_some() {
                    assert(after.nodes@[o.right.unwrap() as int].height == before.nodes@[o.right.unwrap() as int].height);
                }
            } else {
                assert(n.right == c);
                assert(n.left == o.left);
                if o.left.is_some() {
                    assert(after.nodes@[o.left.unwrap() as int].height == before.nodes@[o.left.unwrap() as int].height);
                }
            }
        }
    }

    /// Where a node takes the place of another, with its height, the tree waits for the
    /// node that it waited for, or for the one that took its place.
    proof fn lemma_replaced_pending(
        before: &Tree<T>,
        after: &Tree<T>,
        k: usize,
        s: usize,
        next: usize,
        on_left: bool,
        was: int,
    )
        requires
            before.wf(),
            after.wf(),
            k < before.nodes@.len(),
            s < before.nodes@.len(),
            before.nodes@[k as int].alive,
            !before.nodes@[s as int].alive,
            Self::replaced(before, after, k, s),
            after.heights_kept(before, s as int, s as int),
            after.nodes@[s as int].height == before.nodes@[k as int].height,
            before.pending(Some(next), on_left, was),
        ensures
            after.pending(
                Some(
                    if next == k {
                        s
                    } else {
                        next
                    },
                ),
                on_left,
                was,
            ),
    {
        let node = before.nodes@[k as int];
        assert(before.node_ok(k as int));
        Self::lemma_apart(before, k as int);
        assert forall|j: int| 0 <= j < before.nodes@.len() && j != k && before.nodes@[j].alive implies {
            &&& after.ht(after.nodes@[j].left) == before.ht(before.nodes@[j].left)
            &&& after.ht(after.nodes@[j].right) == before.ht(before.nodes@[j].right)
            &&& (#[trigger] after.nodes@[j]).height == before.nodes@[j].height
        } by {
            assert(before.node_ok(j));
            let o = before.nodes@[j];
            if o.left.is_some() && !is_slot(o.left, k as int) {
                assert(after.nodes@[o.left.unwrap() as int].height == before.nodes@[o.left.unwrap() as int].height);
            }
            if o.right.is_some() && !is_slot(o.right, k as int) {
                assert(after.nodes@[o.right.unwrap() as int].height == before.nodes@[o.right.unwrap() as int].height);
            }
        }
        assert(after.ht(after.nodes@[s as int].left) == before.ht(node.left)) by {
            if node.left.is_some() {
                assert(after.nodes@[node.left.unwrap() as int].height == before.nodes@[node.left.unwrap() as int].height);
            }
        }
        assert(after.ht(after.nodes@[s as int].right) == before.ht(node.right)) by {
            if node.right.is_some() {
                assert(after.nodes@[node.right.unwrap() as int].height == before.nodes@[node.right.unwrap() as int].height);
            }
        }
        let waits = if next == k {
            s
        } else {
            next
        };
        assert forall|j: int| 0 <= j < after.nodes@.len() && j != waits implies #[trigger] after.avl_ok(
            j,
        ) by {
            if j == s {
                assert(before.avl_ok(k as int));
            } else if j != k {
                assert(before.avl_ok(j));
                assert(after.nodes@[j].alive == before.nodes@[j].alive);
            }
        }
    }

    /// The number of levels of the tree, as noted at its root: 0 for a tree without nodes.
    pub closed spec fn levels(&self) -> nat {
        self.ht(self.root) as nat
    }

    /// The number of links between a node and the root.
    pub closed spec fn depth(&self, key: NodeKey) -> nat {
        self.depth_at(key.slot as int)
    }

    spec fn depth_at(&self, k: int) -> nat
        decreases self.order@.len() - (self.spans@[k].hi - self.spans@[k].lo),
    {
        match self.nodes@[k].parent {
            Some(g) => if self.spans@[k].hi - self.spans@[k].lo < self.spans@[g as int].hi
                - self.spans@[g as int].lo <= self.order@.len() {
                self.depth_at(g as int) + 1
            } else {
                0
            },
            None => 0,
        }
    }

    /// The root has depth 0, and a child stands one link below its parent.
    pub proof fn lemma_depth(&self, key: NodeKey)
        requires
            self.wf(),
            self.has(key),
        ensures
            self.root_key() == Some(key) ==> self.depth(key) == 0,
            self.left_of(key).is_some() ==> self.depth(self.left_of(key).unwrap()) == self.depth(key) + 1,
            self.right_of(key).is_some() ==> self.depth(self.right_of(key).unwrap()) == self.depth(key)
                + 1,
    {
        let k = key.slot as int;
        assert(self.node_ok(k));
        let node = self.nodes@[k];
        if node.left.is_some() {
            assert(self.node_ok(node.left.unwrap() as int));
        }
        if node.right.is_some() {
            assert(self.node_ok(node.right.unwrap() as int));
        }
    }

    proof fn lemma_depth_at(&self, k: int)
        requires
            self.wf(),
            self.balanced(),
            0 <= k < self.nodes@.len(),
            self.nodes@[k].alive,
        ensures
            self.depth_at(k) + self.nodes@[k].height <= self.ht(self.root),
        decreases self.order@.len() - (self.spans@[k].hi - self.spans@[k].lo),
    {
        assert(self.node_ok(k));
        match self.nodes@[k].parent {
            Some(g) => {
                assert(self.node_ok(g as int));
                assert(self.avl_ok(g as int));
                self.lemma_depth_at(g as int);
            },
            None => {},
        }
    }

    /// In a balanced tree every node stands fewer links below the root than the tree has
    /// levels.
    pub proof fn lemma_depth_bounded(&self, key: NodeKey)
        requires
            self.wf(),
            self.balanced(),
            self.has(key),
        ensures
            self.depth(key) < self.levels(),
    {
        let k = key.slot as int;
        self.lemma_depth_at(k);
        assert(self.avl_ok(k));
    }

    proof fn lemma_size_at(&self, k: int)
        requires
            self.wf(),
            0 <= k < self.nodes@.len(),
            self.nodes@[k].alive,
            self.sound_below(k),
        ensures
            least_size(self.nodes@[k].height as nat) <= self.spans@[k].hi - self.spans@[k].lo,
            self.spans@[k].hi - self.spans@[k].lo <= self.order@.len(),
        decreases self.spans@[k].hi - self.spans@[k].lo,
    {
        assert(self.node_ok(k));
        assert(self.avl_ok(k));
        let node = self.nodes@[k];
        match node.left {
            Some(l) => {
                assert(self.node_ok(l as int));
                assert forall|j: int|
                    0 <= j < self.nodes@.len() && self.nodes@[j].alive && self.spans@[l as int].lo
                        <= self.spans@[j].rank < self.spans@[l as int].hi implies #[trigger] self.avl_ok(
                    j,
                ) by {}
                self.lemma_size_at(l as int);
            },
            None => {},
        }
        match node.right {
            Some(r) => {
                assert(self.node_ok(r as int));
                assert forall|j: int|
                    0 <= j < self.nodes@.len() && self.nodes@[j].alive && self.spans@[r as int].lo
                        <= self.spans@[j].rank < self.spans@[r as int].hi implies #[trigger] self.avl_ok(
                    j,
                ) by {}
                self.lemma_size_at(r as int);
            },
            None => {},
        }
        let h = node.height as nat;
        let hl = self.ht(node.left) as nat;
        let hr = self.ht(node.right) as nat;
        assert(least_size(hl) <= self.spans@[k].rank - self.spans@[k].lo);
        assert(least_size(hr) <= self.spans@[k].hi - self.spans@[k].rank - 1);
        if h >= 2 {
            lemma_least_size_grows((h - 2) as nat);
            if hl < hr {
                assert(hr == h - 1);
                if hl != h - 1 {
                    assert(hl == h - 2);
                }
            } else {
                assert(hl == h - 1);
                if hr != h - 1 {
                    assert(hr == h - 2);
                }
            }
        }
    }

    /// A balanced tree of so many levels holds at least `least_size` of them nodes: the
    /// number of levels grows with the logarithm of the number of nodes.
    pub proof fn lemma_levels_bounded(&self)
        requires
            self.wf(),
            self.balanced(),
        ensures
            least_size(self.levels()) <= self.order().len(),
    {
        match self.root {
            Some(r) => {
                assert(self.node_ok(r as int));
                self.lemma_size_at(r as int);
            },
            None => {},
        }
    }

    /// Makes the first node of a tree that has none.
    pub fn create_root(&mut self, contents: T) -> (r: NodeKey)
        requires
            old(self).wf(),
            old(self).order().len() == 0,
        ensures
            final(self).wf(),
            r.slot == old(self).slots(),
            final(self).slots() == old(self).slots() + 1,
            final(self).order() == seq![r],
            final(self).root_key() == Some(r),
            old(self).entries() == Map::<NodeKey, T>::empty(),
            final(self).entries() == Map::<NodeKey, T>::empty().insert(r, contents),
            old(self).balanced() ==> final(self).balanced(),
    {
        let fresh = self.nodes.len();
        self.nodes.push(
            Node { contents, parent: None, left: None, right: None, height: 1, alive: true },
        );
        self.root = Some(fresh);
        proof {
            self.order@ = seq![fresh];
            self.spans@ = old(self).spans@.push(Span { rank: 0, lo: 0, hi: 1 });
            assert forall|k: int| 0 <= k < self.nodes@.len() implies #[trigger] self.node_ok(k) by {
                if k < fresh {
                    assert(old(self).node_ok(k));
                }
            }
            assert forall|k: int| 0 <= k < fresh && old(self).avl_ok(k) implies #[trigger] self.avl_ok(
                k,
            ) by {
                if old(self).nodes@[k].alive {
                    assert(old(self).node_ok(k));
                }
            }
            assert(self.order() =~= seq![NodeKey { slot: fresh }]);
            assert forall|other: NodeKey| !old(self).has(other) by {
                if other.slot < fresh {
                    assert(old(self).node_ok(other.slot as int));
                }
            }
            assert(old(self).entries() =~= Map::<NodeKey, T>::empty());
            assert(self.entries() =~= Map::<NodeKey, T>::empty().insert(
                NodeKey { slot: fresh },
                contents,
            ));
        }
        NodeKey { slot: fresh }
    }

    /// Puts a new node into the order right before `node`.
    pub fn insert_before(&mut self, node: NodeKey, contents: T) -> (r: NodeKey)
        requires
            old(self).wf(),
            old(self).has(node),
        ensures
            final(self).wf(),
            r.slot == old(self).slots(),
            !old(self).has(r),
            final(self).slots() == old(self).slots() + 1,
            final(self).order() == old(self).order().insert(old(self).rank(node), r),
            final(self).entries() == old(self).entries().insert(r, contents),
            old(self).balanced() ==> final(self).balanced(),
    {
        proof {
            assert(self.node_ok(node.slot as int));
        }
        let as_left = self.nodes[node.slot].left.is_none();
        let parent = match self.nodes[node.slot].left {
            None => node.slot,
            Some(left) => self.last_in(left),
        };
        let fresh = self.attach(parent, as_left, contents);
        proof {
            if old(self).balanced() {
                Self::lemma_attached_pending(old(self), self, parent, as_left);
            }
        }
        self.retrace(Some(parent), Ghost(as_left), Ghost(0));
        proof {
            assert(self.order() =~= old(self).order().insert(
                old(self).rank(node),
                NodeKey { slot: fresh },
            ));
            assert(self.entries() =~= old(self).entries().insert(NodeKey { slot: fresh }, contents));
        }
        NodeKey { slot: fresh }
    }

    /// Puts a new node into the order right behind `node`.
    pub fn insert_after(&mut self, node: NodeKey, contents: T) -> (r: NodeKey)
        requires
            old(self).wf(),
            old(self).has(node),
        ensures
            final(self).wf(),
            r.slot == old(self).slots(),
            !old(self).has(r),
            final(self).slots() == old(self).slots() + 1,
            final(self).order() == old(self).order().insert(old(self).rank(node) + 1, r),
            final(self).entries() == old(self).entries().insert(r, contents),
            old(self).balanced() ==> final(self).balanced(),
    {
        proof {
            assert(self.node_ok(node.slot as int));
        }
        let as_left = self.nodes[node.slot].right.is_some();
        let parent = match self.nodes[node.slot].right {
            None => node.slot,
            Some(right) => self.first_in(right),
        };
        let fresh = self.attach(parent, as_left, contents);
        proof {
            if old(self).balanced() {
                Self::lemma_attached_pending(old(self), self, parent, as_left);
            }
        }
        self.retrace(Some(parent), Ghost(as_left), Ghost(0));
        proof {
            assert(self.order() =~= old(self).order().insert(
                old(self).rank(node) + 1,
                NodeKey { slot: fresh },
            ));
            assert(self.entries() =~= old(self).entries().insert(NodeKey { slot: fresh }, contents));
        }
        NodeKey { slot: fresh }
    }

    /// Takes the node out of the tree. The others keep their order and their keys.
    pub fn delete_node(&mut self, node: NodeKey)
        requires
            old(self).wf(),
            old(self).has(node),
        ensures
            final(self).wf(),
            final(self).slots() == old(self).slots(),
            final(self).order() == old(self).order().remove(old(self).rank(node)),
            final(self).entries() == old(self).entries().remove(node),
            old(self).balanced() ==> final(self).balanced(),
    {
        let k = node.slot;
        proof {
            assert(self.node_ok(k as int));
        }
        if self.nodes[k].left.is_none() || self.nodes[k].right.is_none() {
            let above = self.nodes[k].parent;
            proof {
                if above.is_some() {
                    assert(self.node_ok(above.unwrap() as int));
                }
            }
            self.unlink(k);
            proof {
                if old(self).balanced() {
                    Self::lemma_unlinked_pending(old(self), self, k);
                }
            }
            self.retrace(
                above,
                Ghost(old(self).side_of(k as int)),
                Ghost(old(self).nodes@[k as int].height as int),
            );
            proof {
                assert(self.order() =~= old(self).order().remove(old(self).rank(node)));
                assert(self.entries() =~= old(self).entries().remove(node));
            }
        } else {
            let right = self.nodes[k].right.unwrap();
            let s = self.first_in(right);
            proof {
                assert(self.node_ok(s as int));
                assert(self.node_ok(right as int));
            }
            let above = self.nodes[s].parent.unwrap();
            proof {
                assert(self.node_ok(above as int));
            }
            self.unlink(s);
            let ghost mid = *self;
            proof {
                if old(self).balanced() {
                    Self::lemma_unlinked_pending(old(self), self, s);
                }
            }
            self.replace(k, s);
            let start = if above == k {
                s
            } else {
                above
            };
            let ghost side = old(self).side_of(s as int);
            let ghost height = old(self).nodes@[s as int].height as int;
            proof {
                if old(self).balanced() {
                    Self::lemma_replaced_pending(&mid, self, k, s, above, side, height);
                }
            }
            self.retrace(Some(start), Ghost(side), Ghost(height));
            proof {
                let q = old(self).spans@[k as int].rank;
                assert(old(self).spans@[s as int].rank == q + 1);
                assert(mid.spans@[k as int].rank == q);
                assert(self.order@ =~= old(self).order@.remove(q));
                assert(self.order() =~= old(self).order().remove(old(self).rank(node)));
                assert(self.entries() =~= old(self).entries().remove(node));
            }
        }
    }

    /// The first node of the subtree below `slot`.
    fn first_in(&self, slot: usize) -> (r: usize)
        requires
            self.wf(),
            slot < self.nodes@.len(),
            self.nodes@[slot as int].alive,
        ensures
            r < self.nodes@.len(),
            self.nodes@[r as int].alive,
            self.spans@[r as int].rank == self.spans@[slot as int].lo,
            self.nodes@[r as int].left.is_none(),
    {
        let mut current = slot;
        proof {
            assert(self.node_ok(current as int));
        }
        while self.nodes[current].left.is_some()
            invariant
                self.wf(),
                current < self.nodes@.len(),
                self.nodes@[current as int].alive,
                self.spans@[current as int].lo == self.spans@[slot as int].lo,
                self.node_ok(current as int),
            decreases self.spans@[current as int].hi - self.spans@[current as int].lo,
        {
            let next = self.nodes[current].left.unwrap();
            proof {
                assert(self.node_ok(next as int));
            }
            current = next;
        }
        current
    }

    /// The last node of the subtree below `slot`.
    fn last_in(&self, slot: usize) -> (r: usize)
        requires
            self.wf(),
            slot < self.nodes@.len(),
            self.nodes@[slot as int].alive,
        ensures
            r < self.nodes@.len(),
            self.nodes@[r as int].alive,
            self.spans@[r as int].rank + 1 == self.spans@[slot as int].hi,
            self.nodes@[r as int].right.is_none(),
    {
        let mut current = slot;
        proof {
            assert(self.node_ok(current as int));
        }
        while self.nodes[current].right.is_some()
            invariant
                self.wf(),
                current < self.nodes@.len(),
                self.nodes@[current as int].alive,
                self.spans@[current as int].hi == self.spans@[slot as int].hi,
                self.node_ok(current as int),
            decreases self.spans@[current as int].hi - self.spans@[current as int].lo,
        {
            let next = self.nodes[current].right.unwrap();
            proof {
                assert(self.node_ok(next as int));
            }
            current = next;
        }
        current
    }

    /// The first node of the order, if the tree has any node.
    pub fn get_leftmost_node(&self) -> (r: Option<NodeKey>)
        requires
            self.wf(),
        ensures
            self.order().len() == 0 ==> r.is_none(),
            self.order().len() > 0 ==> r == Some(self.order()[0]),
            r.is_some() ==> self.has(r.unwrap()) && self.rank(r.unwrap()) == 0,
    {
        match self.root {
            None => None,
            Some(root) => {
                proof {
                    assert(self.node_ok(root as int));
                }
                let first = self.first_in(root);
                proof {
                    assert(self.node_ok(first as int));
                }
                Some(NodeKey { slot: first })
            },
        }
    }

    /// The node behind `node` in the order, if `node` is not the last.
    pub fn get_next(&self, node: NodeKey) -> (r: Option<NodeKey>)
        requires
            self.wf(),
            self.has(node),
        ensures
            self.rank(node) + 1 == self.order().len() ==> r.is_none(),
            self.rank(node) + 1 < self.order().len() ==> r == Some(self.order()[self.rank(node) + 1]),
            r.is_some() ==> self.has(r.unwrap()) && self.rank(r.unwrap()) == self.rank(node) + 1,
    {
        proof {
            assert(self.node_ok(node.slot as int));
        }
        match self.nodes[node.slot].right {
            Some(right) => {
                let first = self.first_in(right);
                proof {
                    assert(self.node_ok(first as int));
                }
                Some(NodeKey { slot: first })
            },
            None => {
                let mut current = node.slot;
                let mut found: Option<NodeKey> = None;
                let mut done = false;
                while !done
                    invariant
                        self.wf(),
                        current < self.nodes@.len(),
                        self.nodes@[current as int].alive,
                        self.node_ok(current as int),
                        !done ==> self.spans@[current as int].hi == self.spans@[node.slot as int].rank + 1,
                        !done ==> found.is_none(),
                        done ==> (self.rank(node) + 1 == self.order().len() ==> found.is_none()),
                        done ==> (self.rank(node) + 1 < self.order().len() ==> found == Some(
                            self.order()[self.rank(node) + 1],
                        )),
                    decreases
                            self.order@.len() - (self.spans@[current as int].hi
                                - self.spans@[current as int].lo) + (if done {
                                0int
                            } else {
                                1int
                            }),
                {
                    match self.nodes[current].parent {
                        None => {
                            done = true;
                        },
                        Some(parent) => {
                            proof {
                                assert(self.node_ok(parent as int));
                            }
                            if self.nodes[parent].left == Some(current) {
                                found = Some(NodeKey { slot: parent });
                                done = true;
                            } else {
                                current = parent;
                            }
                        },
                    }
                }
                found
            },
        }
    }

    /// The node before `node` in the order, if `node` is not the first.
    pub fn get_prev(&self, node: NodeKey) -> (r: Option<NodeKey>)
        requires
            self.wf(),
            self.has(node),
        ensures
            self.rank(node) == 0 ==> r.is_none(),
            self.rank(node) > 0 ==> r == Some(self.order()[self.rank(node) - 1]),
            r.is_some() ==> self.has(r.unwrap()) && self.rank(r.unwrap()) == self.rank(node) - 1,
    {
        proof {
            assert(self.node_ok(node.slot as int));
        }
        match self.nodes[node.slot].left {
            Some(left) => {
                let last = self.last_in(left);
                proof {
                    assert(self.node_ok(last as int));
                }
                Some(NodeKey { slot: last })
            },
            None => {
                let mut current = node.slot;
                let mut found: Option<NodeKey> = None;
                let mut done = false;
                while !done
                    invariant
                        self.wf(),
                        current < self.nodes@.len(),
                        self.nodes@[current as int].alive,
                        self.node_ok(current as int),
                        !done ==> self.spans@[current as int].lo == self.spans@[node.slot as int].rank,
                        !done ==> found.is_none(),
                        done ==> (self.rank(node) == 0 ==> found.is_none()),
                        done ==> (self.rank(node) > 0 ==> found == Some(
                            self.order()[self.rank(node) - 1],
                        )),
                    decreases
                            self.order@.len() - (self.spans@[current as int].hi
                                - self.spans@[current as int].lo) + (if done {
                                0int
                            } else {
                                1int
                            }),
                {
                    match self.nodes[current].parent {
                        None => {
                            done = true;
                        },
                        Some(parent) => {
                            proof {
                                assert(self.node_ok(parent as int));
                            }
                            if self.nodes[parent].right == Some(current) {
                                found = Some(NodeKey { slot: parent });
                                done = true;
                            } else {
                                current = parent;
                            }
                        },
                    }
                }
                found
            },
        }
    }
}

} // verus!
