use vstd::multiset::Multiset;
use vstd::prelude::*;

verus! {

/// A node of the binary search tree: values equal to or below `value` go
/// left, larger ones go right.
pub struct Node {
    pub value: i64,
    pub left: Option<Box<Node>>,
    pub right: Option<Box<Node>>,
}

/// Error type of the tree operations; none of them fails on a valid tree.
#[derive(Debug, Clone, Copy, PartialEq, Eq, Structural)]
pub struct TreeOperationError;

/// Multiset of the values stored under a link.
pub open spec fn link_values(l: Option<Box<Node>>) -> Multiset<i64>
    decreases l,
{
    match l {
        None => Multiset::empty(),
        Some(n) => link_values(n.left).add(link_values(n.right)).insert(n.value),
    }
}

/// The search-tree order holds at every node under a link.
pub open spec fn link_ordered(l: Option<Box<Node>>) -> bool
    decreases l,
{
    match l {
        None => true,
        Some(n) => {
            &&& forall|x: i64| link_values(n.left).contains(x) ==> x <= n.value
            &&& forall|x: i64| link_values(n.right).contains(x) ==> x > n.value
            &&& link_ordered(n.left)
            &&& link_ordered(n.right)
        },
    }
}

proof fn lemma_unfold(n: Box<Node>)
    ensures
        link_values(Some(n)) == link_values(n.left).add(link_values(n.right)).insert(n.value),
        link_values(None::<Box<Node>>) =~= Multiset::<i64>::empty(),
        link_ordered(Some(n)) == {
            &&& forall|x: i64| link_values(n.left).contains(x) ==> x <= n.value
            &&& forall|x: i64| link_values(n.right).contains(x) ==> x > n.value
            &&& link_ordered(n.left)
            &&& link_ordered(n.right)
        },
{
}

/// The tree under `l` after `v` is hung as a new leaf at the end of its
/// search path: left at a node whose value is `v` or more, right otherwise.
pub open spec fn inserted(l: Option<Box<Node>>, v: i64) -> Option<Box<Node>>
    decreases l,
{
    match l {
        None => Some(Box::new(Node { value: v, left: None, right: None })),
        Some(n) => if n.value >= v {
            Some(Box::new(Node { value: n.value, left: inserted(n.left, v), right: n.right }))
        } else {
            Some(Box::new(Node { value: n.value, left: n.left, right: inserted(n.right, v) }))
        },
    }
}

impl Node {
    pub open spec fn spec_value(&self) -> i64 {
        self.value
    }

    pub open spec fn spec_left(&self) -> Option<Box<Node>> {
        self.left
    }

    pub open spec fn spec_right(&self) -> Option<Box<Node>> {
        self.right
    }

    /// A leaf holding `value`.
    pub fn new(value: i64) -> (r: Node)
        ensures
            r.spec_value() == value,
            r.spec_left() is None,
            r.spec_right() is None,
    {
        Node { value, left: None, right: None }
    }

    pub fn value(&self) -> (r: i64)
        ensures
            r == self.spec_value(),
    {
        self.value
    }

    pub fn left(&self) -> (r: Option<&Node>)
        ensures
            r matches Some(n) ==> *n == *self.spec_left()->Some_0,
            r is None <==> self.spec_left() is None,
    {
        match &self.left {
            Some(b) => Some(&**b),
            None => None,
        }
    }

    pub fn right(&self) -> (r: Option<&Node>)
        ensures
            r matches Some(n) ==> *n == *self.spec_right()->Some_0,
            r is None <==> self.spec_right() is None,
    {
        match &self.right {
            Some(b) => Some(&**b),
            None => None,
        }
    }
}

/// An unbalanced binary search tree of `i64` values; a value may occur more
/// than once.
pub struct Tree {
    root: Option<Box<Node>>,
}

impl View for Tree {
    type V = Multiset<i64>;

    closed spec fn view(&self) -> Multiset<i64> {
        link_values(self.root)
    }
}

impl Tree {
    pub closed spec fn wf(&self) -> bool {
        link_ordered(self.root)
    }

    pub closed spec fn spec_root(&self) -> Option<Box<Node>> {
        self.root
    }

    /// The view is the multiset of values under the root, and the tree is
    /// well formed exactly when the search-tree order holds under the root.
    pub proof fn lemma_view_root(&self)
        ensures
            self@ == link_values(self.spec_root()),
            self.wf() == link_ordered(self.spec_root()),
    {
    }

    pub fn new() -> (t: Tree)
        ensures
            t.wf(),
            t@ == Multiset::<i64>::empty(),
            t.spec_root() is None,
    {
        Tree { root: None }
    }

    /// The root node, if the tree is not empty.
    pub fn root(&self) -> (r: Option<&Node>)
        ensures
            r matches Some(n) ==> *n == *self.spec_root()->Some_0,
            r is None <==> self.spec_root() is None,
    {
        match &self.root {
            Some(b) => Some(&**b),
            None => None,
        }
    }

    fn insert_node(link: &mut Option<Box<Node>>, value: i64)
        requires
            link_ordered(*old(link)),
        ensures
            link_ordered(*final(link)),
            link_values(*final(link)) =~= link_values(*old(link)).insert(value),
            *final(link) == inserted(*old(link), value),
        decreases *old(link),
    {
        match link.take() {
            None => {
                let node = Box::new(Node::new(value));
                proof {
                    lemma_unfold(node);
                }
                *link = Some(node);
            },
            Some(mut node) => {
                let ghost old_node = node;
                proof {
                    lemma_unfold(old_node);
                }
                if node.value >= value {
                    Self::insert_node(&mut node.left, value);
                    assert forall|x: i64| link_values(node.left).contains(x) implies x <= node.value by {
                        if x != value {
                            assert(link_values(old_node.left).contains(x));
                        }
                    }
                } else {
                    Self::insert_node(&mut node.right, value);
                    assert forall|x: i64| link_values(node.right).contains(x) implies x > node.value by {
                        if x != value {
                            assert(link_values(old_node.right).contains(x));
                        }
                    }
                }
                proof {
                    lemma_unfold(node);
                }
                *link = Some(node);
            },
        }
    }

    fn find_node(link: &Option<Box<Node>>, value: i64) -> (r: bool)
        requires
            link_ordered(*link),
        ensures
            r == link_values(*link).contains(value),
        decreases *link,
    {
        match link {
            None => {
                assert(link_values(*link) =~= Multiset::<i64>::empty());
                false
            },
            Some(node) => {
                proof {
                    lemma_unfold(*node);
                    assert(*link == Some(*node));
                }
                if node.value == value {
                    true
                } else if node.value > value {
                    let r = Self::find_node(&node.left, value);
                    assert(!link_values(node.right).contains(value));
                    r
                } else {
                    let r = Self::find_node(&node.right, value);
                    assert(!link_values(node.left).contains(value));
                    r
                }
            },
        }
    }

    fn find_value(link: &Option<Box<Node>>, value: i64) -> (r: Option<i64>)
        requires
            link_ordered(*link),
        ensures
            r is Some <==> link_values(*link).contains(value),
            r matches Some(v) ==> v == value,
    {
        if Self::find_node(link, value) {
            Some(value)
        } else {
            None
        }
    }

    /// Removes the largest value under a non-empty link and returns it.
    fn remove_max(link: &mut Option<Box<Node>>) -> (r: i64)
        requires
            link_ordered(*old(link)),
            *old(link) is Some,
        ensures
            link_ordered(*final(link)),
            link_values(*old(link)).contains(r),
            link_values(*final(link)) =~= link_values(*old(link)).remove(r),
            forall|x: i64| link_values(*old(link)).contains(x) ==> x <= r,
        decreases *old(link),
    {
        let mut node = link.take().unwrap();
        let ghost old_node = node;
        proof {
            lemma_unfold(old_node);
        }
        if node.right.is_none() {
            let v = node.value;
            assert(link_values(node.right) =~= Multiset::<i64>::empty());
            *link = node.left;
            assert(link_values(*old(link)) =~= link_values(*link).insert(v));
            assert forall|x: i64| link_values(*old(link)).contains(x) implies x <= v by {
                if x != v {
                    assert(link_values(old_node.left).contains(x));
                }
            }
            v
        } else {
            let v = Self::remove_max(&mut node.right);
            assert forall|x: i64| link_values(node.right).contains(x) implies x > node.value by {
                assert(link_values(old_node.right).contains(x));
            }
            proof {
                lemma_unfold(node);
            }
            *link = Some(node);
            assert(link_values(*link) =~= link_values(*old(link)).remove(v));
            assert forall|x: i64| link_values(*old(link)).contains(x) implies x <= v by {
                assert(link_values(old_node.right).contains(v));
                if link_values(old_node.left).contains(x) {
                } else if x != old_node.value {
                    assert(link_values(old_node.right).contains(x));
                }
            }
            v
        }
    }

    fn remove_node(link: &mut Option<Box<Node>>, value: i64) -> (r: Option<i64>)
        requires
            link_ordered(*old(link)),
        ensures
            link_ordered(*final(link)),
            r is Some <==> link_values(*old(link)).contains(value),
            r matches Some(v) ==> v == value,
            link_values(*final(link)) =~= link_values(*old(link)).remove(value),
            !link_values(*old(link)).contains(value) ==> *final(link) == *old(link),
        decreases *old(link),
    {
        match link.take() {
            None => None,
            Some(mut node) => {
                let ghost old_node = node;
                proof {
                    lemma_unfold(old_node);
                }
                if node.value == value {
                    if node.left.is_none() {
                        assert(link_values(node.left) =~= Multiset::<i64>::empty());
                        *link = node.right;
                        assert(link_values(*old(link)) =~= link_values(*link).insert(value));
                    } else {
                        let p = Self::remove_max(&mut node.left);
                        node.value = p;
                        assert forall|x: i64| link_values(node.left).contains(x) implies x <= node.value by {
                            assert(link_values(old_node.left).contains(x));
                        }
                        assert forall|x: i64| link_values(node.right).contains(x) implies x > node.value by {
                            assert(link_values(old_node.left).contains(p));
                        }
                        proof {
                            lemma_unfold(node);
                        }
                        *link = Some(node);
                        assert(link_values(*link) =~= link_values(*old(link)).remove(value));
                    }
                    Some(value)
                } else if node.value > value {
                    let r = Self::remove_node(&mut node.left, value);
                    assert(!link_values(node.right).contains(value));
                    assert forall|x: i64| link_values(node.left).contains(x) implies x <= node.value by {
                        assert(link_values(old_node.left).contains(x));
                    }
                    proof {
                        lemma_unfold(node);
                    }
                    *link = Some(node);
                    assert(link_values(*link) =~= link_values(*old(link)).remove(value));
                    r
                } else {
                    let r = Self::remove_node(&mut node.right, value);
                    assert(!link_values(node.left).contains(value));
                    assert forall|x: i64| link_values(node.right).contains(x) implies x > node.value by {
                        assert(link_values(old_node.right).contains(x));
                    }
                    proof {
                        lemma_unfold(node);
                    }
                    *link = Some(node);
                    assert(link_values(*link) =~= link_values(*old(link)).remove(value));
                    r
                }
            },
        }
    }

    /// Adds `value`; it never fails.
    pub fn insert(&mut self, value: i64) -> (r: Result<(), TreeOperationError>)
        requires
            old(self).wf(),
        ensures
            final(self).wf(),
            r is Ok,
            final(self)@ == old(self)@.insert(value),
            final(self).spec_root() == inserted(old(self).spec_root(), value),
    {
        Self::insert_node(&mut self.root, value);
        Ok(())
    }

    /// `Some(value)` if the tree holds `value`.
    pub fn find(&self, value: i64) -> (r: Result<Option<i64>, TreeOperationError>)
        requires
            self.wf(),
        ensures
            r matches Ok(o) && (o is Some <==> self@.contains(value)) && (o matches Some(v) ==> v
                == value),
    {
        Ok(Self::find_value(&self.root, value))
    }

    /// Removes one occurrence of `value`, returning it if it was there.
    pub fn remove(&mut self, value: i64) -> (r: Result<Option<i64>, TreeOperationError>)
        requires
            old(self).wf(),
        ensures
            final(self).wf(),
            r matches Ok(o) && (o is Some <==> old(self)@.contains(value)) && (o matches Some(v) ==> v
                == value),
            final(self)@ == old(self)@.remove(value),
            !old(self)@.contains(value) ==> *final(self) == *old(self),
    {
        Ok(Self::remove_node(&mut self.root, value))
    }
}

} // verus!
