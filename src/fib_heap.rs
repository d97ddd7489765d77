use vstd::multiset::Multiset;
use vstd::prelude::*;

verus! {

/// Errors reported by the heap operations.
#[derive(Debug, Clone, Copy, PartialEq, Eq, Structural)]
pub enum HeapError {
    /// The heap holds no key.
    EmptyHeap,
    /// `decrease_key` was asked to raise a key.
    KeyIncreaseRejected,
}

/// Multiset of the keys held in the live slots of an arena view.
pub open spec fn keys_of(s: Seq<Option<u64>>) -> Multiset<u64>
    decreases s.len(),
{
    if s.len() == 0 {
        Multiset::empty()
    } else {
        let rest = keys_of(s.drop_last());
        match s.last() {
            Some(k) => rest.insert(k),
            None => rest,
        }
    }
}

/// True iff `k` is no larger than any key held in `s`.
pub open spec fn is_lower_bound(s: Seq<Option<u64>>, k: u64) -> bool {
    forall|j: int| 0 <= j < s.len() && s[j] is Some ==> k <= #[trigger] s[j]->Some_0
}

/// True iff some slot of `s` is live.
pub open spec fn has_live(s: Seq<Option<u64>>) -> bool {
    exists|j: int| 0 <= j < s.len() && #[trigger] s[j] is Some
}

pub proof fn lemma_keys_of_push(s: Seq<Option<u64>>, v: Option<u64>)
    ensures
        keys_of(s.push(v)) == (match v {
            Some(k) => keys_of(s).insert(k),
            None => keys_of(s),
        }),
{
    assert(s.push(v).drop_last() =~= s);
}

pub proof fn lemma_keys_of_len(s: Seq<Option<u64>>)
    ensures
        keys_of(s).len() <= s.len(),
        keys_of(s).len() == 0 <==> !has_live(s),
    decreases s.len(),
{
    if s.len() > 0 {
        lemma_keys_of_len(s.drop_last());
        if has_live(s) && s.last() is None {
            let j = choose|j: int| 0 <= j < s.len() && #[trigger] s[j] is Some;
            assert(s.drop_last()[j] is Some);
        }
        if has_live(s.drop_last()) {
            let j = choose|j: int| 0 <= j < s.len() - 1 && #[trigger] s.drop_last()[j] is Some;
            assert(s[j] is Some);
        }
        if s.last() is Some {
            assert(s[s.len() - 1] is Some);
        }
    }
}

/// Replacing a live slot changes the multiset by that one key.
pub proof fn lemma_keys_of_update(s: Seq<Option<u64>>, i: int, v: Option<u64>)
    requires
        0 <= i < s.len(),
        s[i] is Some,
    ensures
        keys_of(s.update(i, v)) == (match v {
            Some(k) => keys_of(s).remove(s[i]->Some_0).insert(k),
            None => keys_of(s).remove(s[i]->Some_0),
        }),
        keys_of(s).contains(s[i]->Some_0),
    decreases s.len(),
{
    let t = s.update(i, v);
    if i == s.len() - 1 {
        assert(t.drop_last() =~= s.drop_last());
        assert(keys_of(s) == keys_of(s.drop_last()).insert(s[i]->Some_0));
        assert(keys_of(s).remove(s[i]->Some_0) =~= keys_of(s.drop_last()));
    } else {
        lemma_keys_of_update(s.drop_last(), i, v);
        assert(t.drop_last() =~= s.drop_last().update(i, v));
        let r = keys_of(s.drop_last());
        let x = s[i]->Some_0;
        match s.last() {
            Some(k) => {
                assert(keys_of(s) == r.insert(k));
                assert(keys_of(t) == keys_of(t.drop_last()).insert(k));
                match v {
                    Some(k2) => {
                        assert(r.remove(x).insert(k2).insert(k) =~= r.insert(k).remove(x).insert(k2));
                    }
                    None => {
                        assert(r.remove(x).insert(k) =~= r.insert(k).remove(x));
                    }
                }
            }
            None => {}
        }
    }
}

/// The keys of two arenas laid end to end are the union of their keys; with
/// `meld`, whose result views as that concatenation, the melded heap holds
/// exactly the keys of both inputs.
pub proof fn lemma_keys_of_concat(a: Seq<Option<u64>>, b: Seq<Option<u64>>)
    ensures
        keys_of(a + b) == keys_of(a).add(keys_of(b)),
    decreases b.len(),
{
    if b.len() == 0 {
        assert(a + b =~= a);
        assert(keys_of(a).add(keys_of(b)) =~= keys_of(a));
    } else {
        lemma_keys_of_concat(a, b.drop_last());
        assert((a + b).drop_last() =~= a + b.drop_last());
        match b.last() {
            Some(k) => {
                assert((a + b).last() == b.last());
                assert(keys_of(a).add(keys_of(b.drop_last())).insert(k) =~= keys_of(a).add(
                    keys_of(b.drop_last()).insert(k),
                ));
            }
            None => {
                assert((a + b).last() == b.last());
            }
        }
    }
}


/// A key held in `s` sits in some live slot.
pub proof fn lemma_keys_of_contains(s: Seq<Option<u64>>, k: u64)
    requires
        keys_of(s).contains(k),
    ensures
        exists|j: int| 0 <= j < s.len() && s[j] == Some(k),
    decreases s.len(),
{
    if s.len() > 0 {
        if s.last() == Some(k) {
            assert(s[s.len() - 1] == Some(k));
        } else {
            lemma_keys_of_contains(s.drop_last(), k);
            let j = choose|j: int| 0 <= j < s.len() - 1 && s.drop_last()[j] == Some(k);
            assert(s[j] == Some(k));
        }
    }
}

/// A key extracted as the minimum is no larger than any key that stays
/// behind, so successive extractions come out in non-decreasing order.
pub proof fn lemma_extraction_sorted(s: Seq<Option<u64>>, h: int, k1: u64, k2: u64)
    requires
        0 <= h < s.len(),
        s[h] == Some(k1),
        is_lower_bound(s, k1),
        keys_of(s.update(h, None)).contains(k2),
    ensures
        k1 <= k2,
{
    lemma_keys_of_contains(s.update(h, None), k2);
    let j = choose|j: int| 0 <= j < s.len() && s.update(h, None)[j] == Some(k2);
    assert(s[j] == Some(k2));
}

/// Removing one entry of a list without repeats leaves exactly the others.
pub proof fn lemma_remove_facts(s: Seq<usize>, pos: int)
    requires
        0 <= pos < s.len(),
        s.no_duplicates(),
    ensures
        s.remove(pos).no_duplicates(),
        forall|x: usize| s.remove(pos).contains(x) <==> (s.contains(x) && x != s[pos]),
{
    let t = s.remove(pos);
    assert forall|a: int, b: int| 0 <= a < t.len() && 0 <= b < t.len() && a != b implies t[a]
        != t[b] by {
        let ia = if a < pos { a } else { a + 1 };
        let ib = if b < pos { b } else { b + 1 };
        assert(t[a] == s[ia] && t[b] == s[ib]);
    }
    assert forall|x: usize| t.contains(x) <==> (s.contains(x) && x != s[pos]) by {
        if t.contains(x) {
            let a = choose|a: int| 0 <= a < t.len() && t[a] == x;
            let ia = if a < pos { a } else { a + 1 };
            assert(s[ia] == x);
        }
        if s.contains(x) && x != s[pos] {
            let a = choose|a: int| 0 <= a < s.len() && s[a] == x;
            let ta = if a < pos { a } else { a - 1 };
            assert(t[ta] == x);
        }
    }
}

/// Number of filled slots of a degree table.
pub open spec fn occupied(t: Seq<Option<usize>>) -> nat
    decreases t.len(),
{
    if t.len() == 0 {
        0
    } else {
        occupied(t.drop_last()) + if t.last() is Some {
            1nat
        } else {
            0nat
        }
    }
}

pub proof fn lemma_occupied_push_none(t: Seq<Option<usize>>)
    ensures
        occupied(t.push(None)) == occupied(t),
{
    assert(t.push(None).drop_last() =~= t);
}

pub proof fn lemma_occupied_clear(t: Seq<Option<usize>>, d: int)
    requires
        0 <= d < t.len(),
        t[d] is Some,
    ensures
        occupied(t.update(d, None)) + 1 == occupied(t),
    decreases t.len(),
{
    if d < t.len() - 1 {
        lemma_occupied_clear(t.drop_last(), d);
        assert(t.update(d, None).drop_last() =~= t.drop_last().update(d, None));
    } else {
        assert(t.update(d, None).drop_last() =~= t.drop_last());
    }
}

/// `v` occurs in `s` at a position in `lo..hi`.
pub open spec fn occurs_in(s: Seq<usize>, lo: int, hi: int, v: usize) -> bool {
    exists|k: int| lo <= k < hi && 0 <= k < s.len() && #[trigger] s[k] == v
}

/// `v` fills some slot of the degree table `t`.
pub open spec fn in_table(t: Seq<Option<usize>>, v: usize) -> bool {
    exists|d: int| 0 <= d < t.len() && #[trigger] t[d] == Some(v)
}

/// Index of the first occurrence of `x` in `v`.
fn position_of(v: &Vec<usize>, x: usize) -> (pos: usize)
    requires
        v@.contains(x),
    ensures
        pos < v@.len(),
        v@[pos as int] == x,
{
    let n = v.len();
    let mut i: usize = 0;
    while i < n
        invariant
            n == v@.len(),
            v@.contains(x),
            i <= n,
            forall|k: int| 0 <= k < i ==> v@[k] != x,
        decreases n - i,
    {
        if v[i] == x {
            return i;
        }
        i = i + 1;
    }
    proof {
        let k = choose|k: int| 0 <= k < v@.len() && v@[k] == x;
        assert(v@[k] == x);
    }
    0
}

/// One key of the heap, stored in the heap's arena and linked by index.
pub struct Item {
    pub key: u64,
    pub parent: Option<usize>,
    pub children: Vec<usize>,
    pub degree: usize,
    pub mark: bool,
    pub live: bool,
}

impl Item {
    pub open spec fn spec_key(&self) -> u64 {
        self.key
    }

    /// True iff the record is a fresh root: no parent, no children, unmarked.
    pub open spec fn is_singleton(&self) -> bool {
        &&& self.parent is None
        &&& self.children@.len() == 0
        &&& self.degree == 0
        &&& !self.mark
        &&& self.live
    }

    pub fn new(value: u64) -> (r: Item)
        ensures
            r.spec_key() == value,
            r.is_singleton(),
    {
        Item { key: value, parent: None, children: Vec::new(), degree: 0, mark: false, live: true }
    }

    pub fn key(&self) -> (r: u64)
        ensures
            r == self.spec_key(),
    {
        self.key
    }
}

/// A Fibonacci heap of `u64` keys. Nodes live in an arena and are named by
/// their slot index, which `insert` hands back for use with `decrease_key`.
/// The slot of an extracted node is emptied but not reused, so that every
/// handle names one node for the heap's whole life.
pub struct FibonacciHeap {
    nodes: Vec<Item>,
    roots: Vec<usize>,
    min: Option<usize>,
    count: usize,
    rank: Ghost<Seq<nat>>,
    bound: Ghost<nat>,
}

impl View for FibonacciHeap {
    type V = Seq<Option<u64>>;

    /// Slot `i` holds `Some(key)` while node `i` is in the heap.
    closed spec fn view(&self) -> Seq<Option<u64>> {
        Seq::new(
            self.nodes@.len(),
            |i: int|
                if self.nodes@[i].live {
                    Some(self.nodes@[i].key)
                } else {
                    None
                },
        )
    }
}

impl FibonacciHeap {
    /// Node `i` is in the heap.
    pub closed spec fn live(&self, i: int) -> bool {
        0 <= i < self.nodes@.len() && self.nodes@[i].live
    }

    pub closed spec fn key_at(&self, i: int) -> u64 {
        self.nodes@[i].key
    }

    pub closed spec fn parent_of(&self, i: int) -> Option<usize> {
        self.nodes@[i].parent
    }

    pub closed spec fn children_of(&self, i: int) -> Seq<usize> {
        self.nodes@[i].children@
    }

    pub closed spec fn degree_of(&self, i: int) -> usize {
        self.nodes@[i].degree
    }

    pub closed spec fn is_marked(&self, i: int) -> bool {
        self.nodes@[i].mark
    }

    /// The root list, in order.
    pub closed spec fn root_list(&self) -> Seq<usize> {
        self.roots@
    }

    /// Node `i` is in the heap and has no parent.
    pub closed spec fn is_root(&self, i: int) -> bool {
        self.live(i) && self.nodes@[i].parent is None
    }

    /// `c` is a child of `p`: both live, heap-ordered, and `p` ranks above `c`.
    closed spec fn child_link(&self, p: int, c: int) -> bool {
        &&& self.live(p)
        &&& self.live(c)
        &&& self.nodes@[c].parent == Some(p as usize)
        &&& self.nodes@[p].key <= self.nodes@[c].key
        &&& self.rank@[p] > self.rank@[c]
    }

    closed spec fn node_ok(&self, i: int) -> bool {
        let nd = self.nodes@[i];
        &&& nd.degree == nd.children@.len()
        &&& nd.children@.no_duplicates()
        &&& forall|k: int|
            0 <= k < nd.children@.len() ==> self.child_link(i, #[trigger] nd.children@[k] as int)
        &&& match nd.parent {
            None => !nd.mark,
            Some(p) => self.child_link(p as int, i) && self.nodes@[p as int].children@.contains(
                i as usize,
            ),
        }
        &&& self.rank@[i] < self.bound@
    }

    /// The forest is well linked and heap-ordered, and `count` is the number of keys.
    closed spec fn forest_ok(&self) -> bool {
        &&& self.rank@.len() == self.nodes@.len()
        &&& self.nodes@.len() <= usize::MAX
        &&& forall|i: int| #[trigger] self.live(i) ==> self.node_ok(i)
        &&& self.count == keys_of(self@).len()
    }

    /// The root list holds each root exactly once and nothing else.
    closed spec fn roots_ok(&self) -> bool {
        &&& self.roots@.no_duplicates()
        &&& forall|k: int| 0 <= k < self.roots@.len() ==> self.is_root(#[trigger] self.roots@[k] as int)
        &&& forall|i: int| #[trigger] self.is_root(i) ==> self.roots@.contains(i as usize)
    }

    closed spec fn min_ok(&self) -> bool {
        match self.min {
            None => !has_live(self@),
            Some(m) => self.is_root(m as int) && is_lower_bound(self@, self.nodes@[m as int].key),
        }
    }

    /// No two entries of the root list have the same degree.
    pub open spec fn root_degrees_distinct(&self) -> bool {
        forall|x: int, y: int|
            0 <= x < self.root_list().len() && 0 <= y < self.root_list().len() && x != y ==> self.degree_of(
                #[trigger] self.root_list()[x] as int,
            ) != self.degree_of(#[trigger] self.root_list()[y] as int)
    }

    /// Node `i` has the same parent, children, degree and mark here as in `o`.
    pub open spec fn same_links(&self, o: &FibonacciHeap, i: int) -> bool {
        &&& self.parent_of(i) == o.parent_of(i)
        &&& self.children_of(i) == o.children_of(i)
        &&& self.degree_of(i) == o.degree_of(i)
        &&& self.is_marked(i) == o.is_marked(i)
    }

    /// Node `j + off` here has the links of node `j` of `o`, every index moved
    /// up by `off`.
    pub open spec fn links_shifted(&self, o: &FibonacciHeap, j: int, off: int) -> bool {
        &&& self.parent_of(j + off) == match o.parent_of(j) {
            None => None,
            Some(p) => Some((p + off) as usize),
        }
        &&& self.children_of(j + off) == o.children_of(j).map_values(|c: usize| (c + off) as usize)
        &&& self.degree_of(j + off) == o.degree_of(j)
        &&& self.is_marked(j + off) == o.is_marked(j)
    }

    /// Node `i` has a different parent here than in `o`.
    pub open spec fn detached(&self, o: &FibonacciHeap, i: int) -> bool {
        self.parent_of(i) != o.parent_of(i)
    }

    /// Node `i` is marked here and was not in `o`.
    pub open spec fn newly_marked(&self, o: &FibonacciHeap, i: int) -> bool {
        !o.is_marked(i) && self.is_marked(i)
    }

    /// The cascading cut that went from `o` to this heap, starting at node `p`
    /// (node `skip` aside): each node that changed parent was a marked non-root
    /// and is now an unmarked root, reached from `p` through such nodes; the
    /// walk stopped at a root or at a non-root it marked; no other node changed
    /// parent or mark.
    pub open spec fn cut_chain(&self, o: &FibonacciHeap, p: int, skip: int) -> bool {
        let n = o@.len();
        &&& self.detached(o, p) || o.is_root(p) || self.newly_marked(o, p)
        &&& forall|i: int|
            0 <= i < n && i != skip && #[trigger] self.detached(o, i) ==> {
                &&& o.is_marked(i)
                &&& o.parent_of(i) is Some
                &&& self.parent_of(i) is None
                &&& !self.is_marked(i)
                &&& self.detached(o, o.parent_of(i)->Some_0 as int) || o.is_root(
                    o.parent_of(i)->Some_0 as int,
                ) || self.newly_marked(o, o.parent_of(i)->Some_0 as int)
                &&& i == p || exists|j: int|
                    0 <= j < n && j != skip && #[trigger] self.detached(o, j) && o.parent_of(j) == Some(
                        i as usize,
                    )
            }
        &&& forall|i: int|
            0 <= i < n && i != skip && !self.detached(o, i) && #[trigger] self.is_marked(i)
                != o.is_marked(i) ==> self.newly_marked(o, i) && (i == p || exists|j: int|
                0 <= j < n && j != skip && #[trigger] self.detached(o, j) && o.parent_of(j) == Some(
                    i as usize,
                ))
    }

    /// The cascade from `p` so far, with the walk standing at `y`.
    #[verifier::opaque]
    closed spec fn chain_so_far(&self, o: Self, p: int, y: int) -> bool {
        let n = o.nodes@.len();
        &&& forall|i: int|
            0 <= i < n && #[trigger] self.detached(&o, i) ==> {
                &&& o.is_marked(i)
                &&& o.live(i)
                &&& o.parent_of(i) is Some
                &&& self.parent_of(i) is None
                &&& !self.is_marked(i)
                &&& o.rank@[i] >= o.rank@[p]
                &&& o.rank@[i] < o.rank@[y]
                &&& o.parent_of(i)->Some_0 < n
                &&& self.detached(&o, o.parent_of(i)->Some_0 as int) || o.parent_of(i)->Some_0 == y as usize
                &&& i == p || exists|j: int|
                    0 <= j < n && #[trigger] self.detached(&o, j) && o.parent_of(j) == Some(i as usize)
            }
        &&& forall|i: int| 0 <= i < n && #[trigger] self.is_marked(i) != o.is_marked(i) ==> self.detached(&o, i)
        &&& y == p || exists|j: int| 0 <= j < n && #[trigger] self.detached(&o, j) && o.parent_of(j) == Some(y as usize)
    }

    proof fn lemma_chain_start(o: Self, p: int)
        ensures
            o.chain_so_far(o, p, p),
    {
        reveal(FibonacciHeap::chain_so_far);
    }

    proof fn lemma_chain_step(o: Self, before: Self, after: Self, p: int, y: int, q: int)
        requires
            before.chain_so_far(o, p, y),
            0 <= y < o.nodes@.len(),
            before.nodes@.len() == o.nodes@.len(),
            after.nodes@.len() == o.nodes@.len(),
            before.parent_of(y) == Some(q as usize),
            before.is_marked(y),
            after.parent_of(y) is None,
            !after.is_marked(y),
            forall|i: int|
                0 <= i < o.nodes@.len() && i != y ==> #[trigger] after.nodes@[i].parent == before.nodes@[i].parent
                    && after.nodes@[i].mark == before.nodes@[i].mark,
            o.rank@[q] > o.rank@[y],
            o.live(y),
            0 <= q < o.nodes@.len(),
            o.nodes@.len() <= usize::MAX,
        ensures
            after.chain_so_far(o, p, q),
            before.parent_of(y) == o.parent_of(y),
            before.is_marked(y) == o.is_marked(y),
    {
        reveal(FibonacciHeap::chain_so_far);
        let n = o.nodes@.len();
        assert(!before.detached(&o, y));
        assert forall|i: int| 0 <= i < n && #[trigger] after.detached(&o, i) implies {
            &&& o.is_marked(i)
            &&& o.live(i)
            &&& o.parent_of(i) is Some
            &&& after.parent_of(i) is None
            &&& !after.is_marked(i)
            &&& o.rank@[i] >= o.rank@[p]
            &&& o.rank@[i] < o.rank@[q]
            &&& o.parent_of(i)->Some_0 < n
            &&& after.detached(&o, o.parent_of(i)->Some_0 as int) || o.parent_of(i)->Some_0 == q as usize
            &&& i == p || exists|j: int|
                0 <= j < n && #[trigger] after.detached(&o, j) && o.parent_of(j) == Some(i as usize)
        } by {
            if i == y {
                if y != p {
                    let j = choose|j: int| 0 <= j < n && #[trigger] before.detached(&o, j) && o.parent_of(j) == Some(y as usize);
                    assert(after.nodes@[j].parent == before.nodes@[j].parent);
                    assert(after.detached(&o, j));
                }
            } else {
                assert(after.nodes@[i].parent == before.nodes@[i].parent);
                assert(before.detached(&o, i));
                let pi = o.parent_of(i)->Some_0 as int;
                if pi != y {
                    assert(before.detached(&o, pi));
                    assert(after.nodes@[pi].parent == before.nodes@[pi].parent);
                }
                if i != p {
                    let j = choose|j: int| 0 <= j < n && #[trigger] before.detached(&o, j) && o.parent_of(j) == Some(i as usize);
                    if j != y {
                        assert(after.nodes@[j].parent == before.nodes@[j].parent);
                    }
                    assert(after.detached(&o, j));
                }
            }
        }
        assert forall|i: int| 0 <= i < n && #[trigger] after.is_marked(i) != o.is_marked(i) implies after.detached(&o, i) by {
            if i != y {
                assert(after.nodes@[i].mark == before.nodes@[i].mark);
                assert(before.is_marked(i) != o.is_marked(i));
                assert(after.nodes@[i].parent == before.nodes@[i].parent);
            }
        }
        if y != p {
            let j = choose|j: int| 0 <= j < n && #[trigger] before.detached(&o, j) && o.parent_of(j) == Some(y as usize);
        }
    }

    /// The walk stopped at `y`, which is a root, or which `after` newly marks.
    proof fn lemma_chain_end(o: Self, before: Self, after: Self, p: int, y: int)
        requires
            before.chain_so_far(o, p, y),
            0 <= y < o.nodes@.len(),
            0 <= p < o.nodes@.len(),
            o@.len() == o.nodes@.len(),
            before.nodes@.len() == o.nodes@.len(),
            after.nodes@.len() == o.nodes@.len(),
            y == p || before.detached(&o, p),
            forall|i: int|
                0 <= i < o.nodes@.len() && i != y ==> #[trigger] after.nodes@[i].parent == before.nodes@[i].parent
                    && after.nodes@[i].mark == before.nodes@[i].mark,
            after.parent_of(y) == before.parent_of(y),
            o.nodes@.len() <= usize::MAX,
            before.parent_of(y) is None ==> o.live(y) && after.is_marked(y) == before.is_marked(y),
            before.parent_of(y) is Some ==> !before.is_marked(y) && after.is_marked(y),
        ensures
            after.cut_chain(&o, p, -1),
            forall|i: int| 0 <= i < o.nodes@.len() && #[trigger] after.detached(&o, i) ==> o.rank@[i] >= o.rank@[p] && o.live(i),
    {
        reveal(FibonacciHeap::chain_so_far);
        let n = o.nodes@.len();
        assert(!before.detached(&o, y));
        assert(before.is_marked(y) == o.is_marked(y));
        assert forall|i: int| 0 <= i < n && i != -1 && #[trigger] after.detached(&o, i) implies {
            &&& o.is_marked(i)
            &&& o.parent_of(i) is Some
            &&& after.parent_of(i) is None
            &&& !after.is_marked(i)
            &&& after.detached(&o, o.parent_of(i)->Some_0 as int) || o.is_root(o.parent_of(i)->Some_0 as int)
                || after.newly_marked(&o, o.parent_of(i)->Some_0 as int)
            &&& i == p || exists|j: int|
                0 <= j < n && j != -1 && #[trigger] after.detached(&o, j) && o.parent_of(j) == Some(i as usize)
        } by {
            assert(after.nodes@[i].parent == before.nodes@[i].parent);
            assert(before.detached(&o, i));
            let pi = o.parent_of(i)->Some_0 as int;
            if pi != y {
                assert(before.detached(&o, pi));
                assert(after.nodes@[pi].parent == before.nodes@[pi].parent);
            }
            if i != p {
                let j = choose|j: int| 0 <= j < n && #[trigger] before.detached(&o, j) && o.parent_of(j) == Some(i as usize);
                assert(after.nodes@[j].parent == before.nodes@[j].parent);
                assert(after.detached(&o, j));
            }
        }
        assert forall|i: int|
            0 <= i < n && i != -1 && !after.detached(&o, i) && #[trigger] after.is_marked(i) != o.is_marked(i) implies after.newly_marked(&o, i)
            && (i == p || exists|j: int| 0 <= j < n && j != -1 && #[trigger] after.detached(&o, j) && o.parent_of(j) == Some(i as usize)) by {
            if i != y {
                assert(after.nodes@[i].mark == before.nodes@[i].mark);
                assert(after.nodes@[i].parent == before.nodes@[i].parent);
                assert(before.is_marked(i) != o.is_marked(i));
            } else if y != p {
                let j = choose|j: int| 0 <= j < n && #[trigger] before.detached(&o, j) && o.parent_of(j) == Some(y as usize);
                assert(after.nodes@[j].parent == before.nodes@[j].parent);
                assert(after.detached(&o, j));
            }
        }
        if y != p {
            assert(after.nodes@[p].parent == before.nodes@[p].parent);
        }
        assert forall|i: int| 0 <= i < o.nodes@.len() && #[trigger] after.detached(&o, i) implies o.rank@[i] >= o.rank@[p] && o.live(i) by {
            assert(after.nodes@[i].parent == before.nodes@[i].parent || i == y);
            assert(before.detached(&o, i));
        }
    }

    /// A cascade from `p` after `h` was cut, seen from the heap before the cut.
    proof fn lemma_chain_translate(old_h: Self, keyed: Self, fin: Self, p: int, h: int)
        requires
            fin.cut_chain(&keyed, p, -1),
            forall|i: int|
                0 <= i < keyed.nodes@.len() && #[trigger] fin.detached(&keyed, i) ==> keyed.rank@[i] >= keyed.rank@[p]
                    && keyed.live(i),
            old_h.forest_ok(),
            keyed.rank == old_h.rank,
            old_h.child_link(p, h),
            keyed.nodes@.len() == old_h.nodes@.len(),
            keyed@ == old_h@.update(h, keyed@[h]),
            0 <= h < old_h.nodes@.len(),
            keyed.parent_of(h) is None,
            forall|i: int|
                0 <= i < old_h.nodes@.len() && i != h ==> #[trigger] keyed.nodes@[i].parent == old_h.nodes@[i].parent
                    && keyed.nodes@[i].mark == old_h.nodes@[i].mark,
            forall|i: int| #[trigger] keyed.live(i) == old_h.live(i),
        ensures
            fin.cut_chain(&old_h, p, h),
    {
        let n = old_h@.len();
        assert(keyed@.len() == n);
        assert(p != h);
        assert(keyed.nodes@[p].parent == old_h.nodes@[p].parent);
        assert(keyed.nodes@[p].mark == old_h.nodes@[p].mark);
        assert forall|i: int| 0 <= i < n && i != h && #[trigger] fin.detached(&old_h, i) implies {
            &&& old_h.is_marked(i)
            &&& old_h.parent_of(i) is Some
            &&& fin.parent_of(i) is None
            &&& !fin.is_marked(i)
            &&& fin.detached(&old_h, old_h.parent_of(i)->Some_0 as int) || old_h.is_root(
                old_h.parent_of(i)->Some_0 as int,
            ) || fin.newly_marked(&old_h, old_h.parent_of(i)->Some_0 as int)
            &&& i == p || exists|j: int|
                0 <= j < n && j != h && #[trigger] fin.detached(&old_h, j) && old_h.parent_of(j) == Some(i as usize)
        } by {
            assert(keyed.nodes@[i].parent == old_h.nodes@[i].parent);
            assert(keyed.nodes@[i].mark == old_h.nodes@[i].mark);
            assert(fin.detached(&keyed, i));
            assert(old_h.live(i));
            assert(old_h.node_ok(i));
            let q = old_h.parent_of(i)->Some_0 as int;
            assert(old_h.child_link(q, i));
            assert(q != h);
            assert(keyed.nodes@[q].parent == old_h.nodes@[q].parent);
            assert(keyed.nodes@[q].mark == old_h.nodes@[q].mark);
            if i != p {
                let j = choose|j: int|
                    0 <= j < n && j != -1 && #[trigger] fin.detached(&keyed, j) && keyed.parent_of(j) == Some(i as usize);
                assert(j != h);
                assert(keyed.nodes@[j].parent == old_h.nodes@[j].parent);
                assert(fin.detached(&old_h, j));
            }
        }
        assert forall|i: int|
            0 <= i < n && i != h && !fin.detached(&old_h, i) && #[trigger] fin.is_marked(i) != old_h.is_marked(i) implies fin.newly_marked(&old_h, i)
            && (i == p || exists|j: int|
            0 <= j < n && j != h && #[trigger] fin.detached(&old_h, j) && old_h.parent_of(j) == Some(i as usize)) by {
            assert(keyed.nodes@[i].parent == old_h.nodes@[i].parent);
            assert(keyed.nodes@[i].mark == old_h.nodes@[i].mark);
            assert(fin.is_marked(i) != keyed.is_marked(i));
            if i != p {
                let j = choose|j: int|
                    0 <= j < n && j != -1 && #[trigger] fin.detached(&keyed, j) && keyed.parent_of(j) == Some(i as usize);
                assert(j != h);
                assert(keyed.nodes@[j].parent == old_h.nodes@[j].parent);
                assert(fin.detached(&old_h, j));
            }
        }
    }

    /// Node `h` has a parent whose key is larger than `key`.
    pub open spec fn parent_key_above(&self, h: int, key: u64) -> bool {
        self.parent_of(h) is Some && key < self.key_at(self.parent_of(h)->Some_0 as int)
    }

    /// The node cached as the minimum, if any.
    pub closed spec fn min_node(&self) -> Option<usize> {
        self.min
    }

    /// The heap's invariant, established by `new` and kept by every operation.
    pub closed spec fn wf(&self) -> bool {
        self.forest_ok() && self.roots_ok() && self.min_ok()
    }

    proof fn lemma_view_facts(&self, i: int)
        requires
            0 <= i < self.nodes@.len(),
        ensures
            self@.len() == self.nodes@.len(),
            self@[i] is Some <==> self.live(i),
            self.live(i) ==> self@[i] == Some(self.key_at(i)),
    {
    }

    /// Every live node sits below some root whose key is no larger.
    proof fn lemma_root_above(&self, i: int) -> (r: int)
        requires
            self.forest_ok(),
            self.live(i),
        ensures
            self.is_root(r),
            self.nodes@[r].key <= self.nodes@[i].key,
        decreases self.bound@ - self.rank@[i],
    {
        assert(self.node_ok(i));
        match self.nodes@[i].parent {
            None => i,
            Some(p) => {
                assert(self.node_ok(p as int));
                self.lemma_root_above(p as int)
            }
        }
    }

    /// A key below every root key is below every key.
    proof fn lemma_min_of_roots(&self, m: int)
        requires
            self.forest_ok(),
            forall|r: int| #[trigger] self.is_root(r) ==> self.nodes@[m].key <= self.nodes@[r].key,
        ensures
            is_lower_bound(self@, self.nodes@[m].key),
    {
        assert forall|j: int| 0 <= j < self@.len() && self@[j] is Some implies self.nodes@[m].key
            <= #[trigger] self@[j]->Some_0 by {
            let r = self.lemma_root_above(j);
        }
    }

    proof fn lemma_no_root_empty(&self)
        requires
            self.forest_ok(),
            forall|r: int| !#[trigger] self.is_root(r),
        ensures
            !has_live(self@),
    {
        if has_live(self@) {
            let j = choose|j: int| 0 <= j < self@.len() && #[trigger] self@[j] is Some;
            let r = self.lemma_root_above(j);
        }
    }

    /// Makes root `y` a child of root `x`; `x` must not have the larger key.
    fn link(&mut self, y: usize, x: usize)
        requires
            old(self).forest_ok(),
            old(self).is_root(x as int),
            old(self).is_root(y as int),
            x != y,
            old(self).nodes@[x as int].key <= old(self).nodes@[y as int].key,
        ensures
            final(self).forest_ok(),
            final(self)@ == old(self)@,
            final(self).roots == old(self).roots,
            final(self).min == old(self).min,
            final(self).nodes@.len() == old(self).nodes@.len(),
            final(self).nodes@[y as int].parent == Some(x),
            final(self).nodes@[x as int].degree == old(self).nodes@[x as int].degree + 1,
            forall|i: int| i != y ==> (#[trigger] final(self).is_root(i) <==> old(self).is_root(i)),
            forall|i: int|
                0 <= i < final(self).nodes@.len() && i != x ==> #[trigger] final(self).nodes@[i].degree
                    == old(self).nodes@[i].degree,
            forall|i: int|
                0 <= i < final(self).nodes@.len() ==> #[trigger] final(self).nodes@[i].key
                    == old(self).nodes@[i].key,
    {
        assert(old(self).node_ok(x as int));
        assert(old(self).node_ok(y as int));
        let ghost rx = if self.rank@[x as int] > self.rank@[y as int] {
            self.rank@[x as int]
        } else {
            self.rank@[y as int] + 1
        };
        self.nodes[y].parent = Some(x);
        self.nodes[y].mark = false;
        self.nodes[x].children.push(y);
        self.nodes[x].degree = self.nodes[x].children.len();
        self.rank = Ghost(self.rank@.update(x as int, rx));
        self.bound = Ghost(if rx + 1 > self.bound@ { (rx + 1) as nat } else { self.bound@ });
        assert(self@ =~= old(self)@);
        assert forall|i: int| #[trigger] self.live(i) implies self.node_ok(i) by {
            assert(old(self).live(i));
            assert(old(self).node_ok(i));
            let nd = self.nodes@[i];
            let od = old(self).nodes@[i];
            assert forall|k: int| 0 <= k < nd.children@.len() implies self.child_link(
                i,
                #[trigger] nd.children@[k] as int,
            ) by {
                if i == x && k == nd.children@.len() - 1 {
                } else {
                    assert(nd.children@[k] == od.children@[k]);
                    assert(old(self).child_link(i, od.children@[k] as int));
                }
            }
            if i == x {
                assert forall|a: int, b: int|
                    0 <= a < nd.children@.len() && 0 <= b < nd.children@.len() && a != b implies nd.children@[a]
                    != nd.children@[b] by {
                    if a == nd.children@.len() - 1 {
                        assert(old(self).child_link(x as int, od.children@[b] as int));
                    }
                    if b == nd.children@.len() - 1 {
                        assert(old(self).child_link(x as int, od.children@[a] as int));
                    }
                }
            }
            if i == y {
                assert(self.nodes@[x as int].children@[self.nodes@[x as int].children@.len() - 1] == y);
            } else if let Some(p) = nd.parent {
                assert(old(self).child_link(p as int, i));
                let k = choose|k: int| 0 <= k < old(self).nodes@[p as int].children@.len()
                    && old(self).nodes@[p as int].children@[k] == i as usize;
                assert(self.nodes@[p as int].children@[k] == i as usize);
            }
        }
    }

    /// Detaches child `pos` of `p` and makes it an unmarked root at the end of
    /// the root list.
    fn cut_to_root(&mut self, p: usize, pos: usize) -> (c: usize)
        requires
            old(self).forest_ok(),
            old(self).roots_ok(),
            old(self).live(p as int),
            pos < old(self).nodes@[p as int].children@.len(),
        ensures
            final(self).forest_ok(),
            final(self).roots_ok(),
            final(self)@ == old(self)@,
            final(self).min == old(self).min,
            final(self).rank == old(self).rank,
            final(self).bound == old(self).bound,
            final(self).nodes@.len() == old(self).nodes@.len(),
            c == old(self).nodes@[p as int].children@[pos as int],
            final(self).roots@ == old(self).roots@.push(c),
            forall|i: int| #[trigger] old(self).is_root(i) ==> final(self).is_root(i),
            forall|i: int|
                0 <= i < final(self).nodes@.len() && i != c ==> #[trigger] final(self).nodes@[i].parent
                    == old(self).nodes@[i].parent && final(self).nodes@[i].mark
                    == old(self).nodes@[i].mark,
            final(self).is_root(c as int),
            final(self).nodes@[p as int].children@ == old(self).nodes@[p as int].children@.remove(
                pos as int,
            ),
            forall|i: int|
                0 <= i < final(self).nodes@.len() && i != p ==> #[trigger] final(self).nodes@[i].children
                    == old(self).nodes@[i].children && final(self).nodes@[i].degree
                    == old(self).nodes@[i].degree,
    {
        assert(old(self).node_ok(p as int));
        let c = self.nodes[p].children[pos];
        assert(old(self).child_link(p as int, c as int));
        assert(old(self).node_ok(c as int));
        proof {
            lemma_remove_facts(old(self).nodes@[p as int].children@, pos as int);
        }
        self.nodes[p].children.remove(pos);
        self.nodes[p].degree = self.nodes[p].children.len();
        self.nodes[c].parent = None;
        self.nodes[c].mark = false;
        self.roots.push(c);
        assert(self@ =~= old(self)@);
        assert forall|i: int| #[trigger] self.live(i) implies self.node_ok(i) by {
            assert(old(self).live(i));
            assert(old(self).node_ok(i));
            let nd = self.nodes@[i];
            let od = old(self).nodes@[i];
            assert forall|k: int| 0 <= k < nd.children@.len() implies self.child_link(
                i,
                #[trigger] nd.children@[k] as int,
            ) by {
                if i == p as int {
                    let ok = if k < pos { k } else { k + 1 };
                    assert(nd.children@[k] == od.children@[ok]);
                    assert(od.children@[ok] != c);
                    assert(old(self).child_link(i, od.children@[ok] as int));
                } else {
                    assert(nd.children@[k] == od.children@[k]);
                    assert(old(self).child_link(i, od.children@[k] as int));
                    assert(old(self).nodes@[c as int].parent == Some(p));
                    assert(old(self).nodes@[od.children@[k] as int].parent == Some(i as usize));
                    assert(od.children@[k] != c);
                }
            }
            if i != c as int {
                if let Some(q) = nd.parent {
                    assert(old(self).child_link(q as int, i));
                    if q == p {
                        assert(self.nodes@[p as int].children@ == old(self).nodes@[p as int].children@.remove(pos as int));
                        assert(old(self).nodes@[p as int].children@.contains(i as usize));
                    } else {
                        assert(self.nodes@[q as int].children@ == old(self).nodes@[q as int].children@);
                    }
                }
            }
        }
        assert forall|k: int| 0 <= k < self.roots@.len() implies self.is_root(
            #[trigger] self.roots@[k] as int,
        ) by {
            if k < self.roots@.len() - 1 {
                assert(old(self).is_root(old(self).roots@[k] as int));
            }
        }
        assert forall|i: int| #[trigger] self.is_root(i) implies self.roots@.contains(i as usize) by {
            if i != c {
                assert(old(self).is_root(i));
                let k = choose|k: int| 0 <= k < old(self).roots@.len() && old(self).roots@[k] == i as usize;
                assert(self.roots@[k] == i as usize);
            } else {
                assert(self.roots@[self.roots@.len() - 1] == c);
            }
        }
        assert forall|a: int, b: int|
            0 <= a < self.roots@.len() && 0 <= b < self.roots@.len() && a != b implies self.roots@[a]
            != self.roots@[b] by {
            if a == self.roots@.len() - 1 {
                assert(old(self).is_root(old(self).roots@[b] as int));
            }
            if b == self.roots@.len() - 1 {
                assert(old(self).is_root(old(self).roots@[a] as int));
            }
        }
        assert forall|i: int| #[trigger] old(self).is_root(i) implies self.is_root(i) by {
            assert(old(self).node_ok(i));
        }
        c
    }

    /// The forest invariant does not look at the root list or the minimum.
    proof fn lemma_forest_frame(a: Self, b: Self)
        requires
            a.forest_ok(),
            a.nodes == b.nodes,
            a.rank == b.rank,
            a.bound == b.bound,
            a.count == b.count,
        ensures
            b.forest_ok(),
            b@ == a@,
            forall|i: int| a.is_root(i) == #[trigger] b.is_root(i),
    {
        assert(b@ =~= a@);
        assert forall|i: int| #[trigger] b.live(i) implies b.node_ok(i) by {
            assert(a.live(i));
            assert(a.node_ok(i));
            let nd = b.nodes@[i];
            assert forall|k: int| 0 <= k < nd.children@.len() implies b.child_link(
                i,
                #[trigger] nd.children@[k] as int,
            ) by {
                assert(a.child_link(i, nd.children@[k] as int));
            }
            if let Some(p) = nd.parent {
                assert(a.child_link(p as int, i));
            }
        }
    }

    /// Slot `d` of the degree table holds a root of degree `d` taken from the
    /// first `hi` roots of the snapshot, or nothing.
    closed spec fn table_slot_ok(&self, t: Seq<Option<usize>>, d: int, snap: Seq<usize>, hi: int) -> bool {
        match t[d] {
            None => true,
            Some(r) => self.is_root(r as int) && self.nodes@[r as int].degree == d && occurs_in(
                snap,
                0,
                hi,
                r,
            ),
        }
    }

    /// Merges roots of equal degree until all root degrees differ, then rebuilds
    /// the root list from the degree table and sets the minimum.
    fn consolidate(&mut self)
        requires
            old(self).forest_ok(),
            old(self).roots_ok(),
        ensures
            final(self).wf(),
            final(self)@ == old(self)@,
            final(self).root_degrees_distinct(),
    {
        let mut snapshot: Vec<usize> = Vec::new();
        std::mem::swap(&mut snapshot, &mut self.roots);
        let ghost snap = snapshot@;
        proof {
            Self::lemma_forest_frame(*old(self), *self);
            assert forall|i: int| #[trigger] self.is_root(i) implies occurs_in(snap, 0, snap.len() as int, i as usize) by {
                assert(old(self).is_root(i));
                let k = choose|k: int| 0 <= k < snap.len() && snap[k] == i as usize;
                assert(snap[k] == i as usize);
            }
            assert forall|k: int| 0 <= k < snap.len() implies self.is_root(#[trigger] snap[k] as int) by {
                assert(old(self).is_root(old(self).roots@[k] as int));
            }
        }
        let mut table: Vec<Option<usize>> = Vec::new();
        let n = snapshot.len();
        let mut j: usize = 0;
        while j < n
            invariant
                self.forest_ok(),
                self@ == old(self)@,
                self.roots@ == Seq::<usize>::empty(),
                self.nodes@.len() == old(self).nodes@.len(),
                snapshot@ == snap,
                n == snap.len(),
                snap.no_duplicates(),
                j <= n,
                forall|k: int| j <= k < n ==> self.is_root(#[trigger] snap[k] as int),
                forall|d: int| 0 <= d < table@.len() ==> #[trigger] self.table_slot_ok(table@, d, snap, j as int),
                forall|i: int| #[trigger] self.is_root(i) ==> in_table(table@, i as usize) || occurs_in(snap, j as int, n as int, i as usize),
            decreases n - j,
        {
            let mut x = snapshot[j];
            assert forall|d: int| 0 <= d < table@.len() implies #[trigger] self.table_slot_ok(table@, d, snap, j + 1) && table@[d] != Some(x) by {
                assert(self.table_slot_ok(table@, d, snap, j as int));
                if let Some(r) = table@[d] {
                    let k = choose|k: int| 0 <= k < j && 0 <= k < snap.len() && #[trigger] snap[k] == r;
                    assert(snap[k] == r);
                }
            }
            assert(snap[j as int] == x);
            assert forall|d: int| 0 <= d < table@.len() implies #[trigger] table@[d] != Some(x) by {
                assert(self.table_slot_ok(table@, d, snap, j + 1) && table@[d] != Some(x));
            }
            loop
                invariant_except_break
                    forall|d: int| 0 <= d < table@.len() ==> #[trigger] table@[d] != Some(x),
                invariant
                    self.forest_ok(),
                    self@ == old(self)@,
                    self.roots@ == Seq::<usize>::empty(),
                    self.nodes@.len() == old(self).nodes@.len(),
                    snapshot@ == snap,
                    n == snap.len(),
                    snap.no_duplicates(),
                    j < n,
                    self.is_root(x as int),
                    occurs_in(snap, 0, j + 1, x),
                    forall|k: int| j < k < n ==> self.is_root(#[trigger] snap[k] as int),
                    forall|d: int| 0 <= d < table@.len() ==> #[trigger] self.table_slot_ok(table@, d, snap, j + 1),
                    forall|i: int| #[trigger] self.is_root(i) ==> in_table(table@, i as usize) || i == x || occurs_in(snap, j + 1, n as int, i as usize),
                ensures
                    in_table(table@, x),
                decreases occupied(table@),
            {
                let d = self.nodes[x].degree;
                let ghost t0 = table@;
                while table.len() <= d
                    invariant
                        t0.len() <= table@.len(),
                        forall|e: int| 0 <= e < table@.len() ==> #[trigger] table@[e] == if e < t0.len() { t0[e] } else { None },
                        occupied(table@) == occupied(t0),
                    decreases d + 1 - table@.len(),
                {
                    proof {
                        lemma_occupied_push_none(table@);
                    }
                    table.push(None);
                }
                assert forall|i: usize| in_table(t0, i) implies in_table(table@, i) by {
                    let e = choose|e: int| 0 <= e < t0.len() && #[trigger] t0[e] == Some(i);
                    assert(table@[e] == Some(i));
                }
                assert forall|e: int| 0 <= e < table@.len() implies #[trigger] self.table_slot_ok(table@, e, snap, j + 1) by {
                    if e < t0.len() {
                        assert(self.table_slot_ok(t0, e, snap, j + 1));
                    }
                }
                match table[d] {
                    None => {
                        let ghost t1 = table@;
                        table[d] = Some(x);
                        assert(table@[d as int] == Some(x));
                        assert forall|e: int| 0 <= e < table@.len() implies #[trigger] self.table_slot_ok(table@, e, snap, j + 1) by {
                            assert(self.table_slot_ok(t1, e, snap, j + 1));
                        }
                        assert forall|i: int| #[trigger] self.is_root(i) implies in_table(table@, i as usize) || i == x || occurs_in(snap, j + 1, n as int, i as usize) by {
                            if in_table(t1, i as usize) {
                                let e = choose|e: int| 0 <= e < t1.len() && #[trigger] t1[e] == Some(i as usize);
                                assert(table@[e] == Some(i as usize));
                            }
                        }
                        break;
                    },
                    Some(y) => {
                        let ghost t1 = table@;
                        assert(self.table_slot_ok(t1, d as int, snap, j + 1));
                        proof {
                            lemma_occupied_clear(t1, d as int);
                        }
                        table[d] = None;
                        let ghost before = *self;
                        if self.nodes[x].key < self.nodes[y].key {
                            self.link(y, x);
                        } else {
                            self.link(x, y);
                            x = y;
                        }
                        assert forall|e: int| 0 <= e < table@.len() implies #[trigger] self.table_slot_ok(table@, e, snap, j + 1) by {
                            assert(before.table_slot_ok(t1, e, snap, j + 1));
                            if let Some(r) = table@[e] {
                                assert(before.is_root(r as int));
                            }
                        }
                        assert forall|e: int| 0 <= e < table@.len() implies #[trigger] table@[e] != Some(x) by {
                            assert(before.table_slot_ok(t1, e, snap, j + 1));
                        }
                        assert forall|i: int| #[trigger] self.is_root(i) implies in_table(table@, i as usize) || i == x || occurs_in(snap, j + 1, n as int, i as usize) by {
                            assert(before.is_root(i));
                            if in_table(t1, i as usize) {
                                let e = choose|e: int| 0 <= e < t1.len() && #[trigger] t1[e] == Some(i as usize);
                                if e != d {
                                    assert(table@[e] == Some(i as usize));
                                }
                            }
                        }
                        assert forall|k: int| j < k < n implies self.is_root(#[trigger] snap[k] as int) by {
                            assert(before.is_root(snap[k] as int));
                        }
                    },
                }
            }
            assert forall|d: int| 0 <= d < table@.len() implies #[trigger] self.table_slot_ok(table@, d, snap, j + 1) by {}
            j = j + 1;
        }
        let mut m: Option<usize> = None;
        let mut new_roots: Vec<usize> = Vec::new();
        let tn = table.len();
        let mut d: usize = 0;
        assert forall|i: int| #[trigger] self.is_root(i) implies in_table(table@, i as usize) by {
            if occurs_in(snap, n as int, n as int, i as usize) {
            }
        }
        while d < tn
            invariant
                self.forest_ok(),
                self@ == old(self)@,
                tn == table@.len(),
                d <= tn,
                forall|e: int| 0 <= e < table@.len() ==> #[trigger] self.table_slot_ok(table@, e, snap, n as int),
                forall|i: int| #[trigger] self.is_root(i) ==> in_table(table@, i as usize),
                new_roots@.no_duplicates(),
                forall|k: int| 0 <= k < new_roots@.len() ==> self.is_root(#[trigger] new_roots@[k] as int) && self.nodes@[new_roots@[k] as int].degree < d,
                forall|x: int, y: int| 0 <= x < y < new_roots@.len() ==> self.nodes@[#[trigger] new_roots@[x] as int].degree < self.nodes@[#[trigger] new_roots@[y] as int].degree,
                forall|e: int| 0 <= e < d && #[trigger] table@[e] is Some ==> new_roots@.contains(table@[e]->Some_0),
                match m {
                    None => new_roots@.len() == 0,
                    Some(mm) => new_roots@.contains(mm) && forall|k: int| 0 <= k < new_roots@.len() ==> self.nodes@[mm as int].key <= self.nodes@[#[trigger] new_roots@[k] as int].key,
                },
            decreases tn - d,
        {
            if let Some(r) = table[d] {
                assert(self.table_slot_ok(table@, d as int, snap, n as int));
                let ghost r0 = new_roots@;
                new_roots.push(r);
                let better = match m {
                    None => true,
                    Some(mm) => self.nodes[r].key < self.nodes[mm].key,
                };
                if better {
                    m = Some(r);
                }
                assert(new_roots@[r0.len() as int] == r);
                assert forall|x: int, y: int| 0 <= x < y < new_roots@.len() implies self.nodes@[#[trigger] new_roots@[x] as int].degree < self.nodes@[#[trigger] new_roots@[y] as int].degree by {
                    assert(self.is_root(r0[x] as int) && self.nodes@[r0[x] as int].degree < d);
                    if y < r0.len() {
                        assert(new_roots@[y] == r0[y]);
                    }
                }
                assert forall|e: int| 0 <= e < d + 1 && #[trigger] table@[e] is Some implies new_roots@.contains(table@[e]->Some_0) by {
                    if e < d {
                        let k = choose|k: int| 0 <= k < r0.len() && r0[k] == table@[e]->Some_0;
                        assert(new_roots@[k] == r0[k]);
                    }
                }
                assert forall|a: int, b: int| 0 <= a < new_roots@.len() && 0 <= b < new_roots@.len() && a != b implies new_roots@[a] != new_roots@[b] by {
                    if a < r0.len() {
                        assert(self.is_root(r0[a] as int) && self.nodes@[r0[a] as int].degree < d);
                    }
                    if b < r0.len() {
                        assert(self.is_root(r0[b] as int) && self.nodes@[r0[b] as int].degree < d);
                    }
                }
                proof {
                    if !better {
                        let mm = m.unwrap();
                        let k = choose|k: int| 0 <= k < r0.len() && r0[k] == mm;
                        assert(new_roots@[k] == mm);
                    }
                }
            }
            d = d + 1;
        }
        let ghost mid = *self;
        self.roots = new_roots;
        self.min = m;
        proof {
            assert forall|x: int, y: int|
                0 <= x < self.roots@.len() && 0 <= y < self.roots@.len() && x != y implies self.degree_of(#[trigger] self.roots@[x] as int)
                    != self.degree_of(#[trigger] self.roots@[y] as int) by {
                if x < y {
                    assert(mid.nodes@[self.roots@[x] as int].degree < mid.nodes@[self.roots@[y] as int].degree);
                } else {
                    assert(mid.nodes@[self.roots@[y] as int].degree < mid.nodes@[self.roots@[x] as int].degree);
                }
            }
            Self::lemma_forest_frame(mid, *self);
            assert forall|k: int| 0 <= k < self.roots@.len() implies self.is_root(#[trigger] self.roots@[k] as int) by {
                assert(mid.is_root(self.roots@[k] as int));
            }
            assert forall|i: int| #[trigger] self.is_root(i) implies self.roots@.contains(i as usize) by {
                assert(mid.is_root(i));
                let e = choose|e: int| 0 <= e < table@.len() && #[trigger] table@[e] == Some(i as usize);
                assert(table@[e] is Some);
            }
            match m {
                None => {
                    assert forall|r: int| !#[trigger] self.is_root(r) by {
                        if self.is_root(r) {
                            assert(self.roots@.contains(r as usize));
                        }
                    }
                    self.lemma_no_root_empty();
                },
                Some(mm) => {
                    assert forall|r: int| #[trigger] self.is_root(r) implies self.nodes@[mm as int].key <= self.nodes@[r].key by {
                        assert(self.roots@.contains(r as usize));
                        let k = choose|k: int| 0 <= k < self.roots@.len() && self.roots@[k] == r as usize;
                        assert(self.roots@[k] == r as usize);
                    }
                    let k = choose|k: int| 0 <= k < self.roots@.len() && self.roots@[k] == mm;
                    assert(self.is_root(self.roots@[k] as int));
                    self.lemma_min_of_roots(mm as int);
                },
            }
        }
    }

    /// The minimum stays valid when the keys are unchanged and no root stops
    /// being one.
    proof fn lemma_min_kept(a: Self, b: Self)
        requires
            a.min_ok(),
            b.min == a.min,
            b@ == a@,
            b.nodes@.len() == a.nodes@.len(),
            forall|i: int| #[trigger] a.is_root(i) ==> b.is_root(i),
        ensures
            b.min_ok(),
    {
        if let Some(m) = a.min {
            assert(a.is_root(m as int));
            assert(a@[m as int] == b@[m as int]);
        }
    }

    /// Position of `c` in the child list of its parent `p`.
    fn child_pos(&self, p: usize, c: usize) -> (pos: usize)
        requires
            self.forest_ok(),
            self.live(c as int),
            self.nodes@[c as int].parent == Some(p),
        ensures
            pos < self.nodes@[p as int].children@.len(),
            self.nodes@[p as int].children@[pos as int] == c,
    {
        assert(self.node_ok(c as int));
        assert(self.child_link(p as int, c as int));
        position_of(&self.nodes[p].children, c)
    }

    /// Gives node `h` the smaller key `key`; its parent, if any, must not have
    /// a larger one.
    fn set_key(&mut self, h: usize, key: u64)
        requires
            old(self).wf(),
            old(self).live(h as int),
            key <= old(self).nodes@[h as int].key,
            match old(self).nodes@[h as int].parent {
                None => true,
                Some(p) => old(self).nodes@[p as int].key <= key,
            },
        ensures
            final(self).wf(),
            final(self)@ == old(self)@.update(h as int, Some(key)),
            final(self).rank == old(self).rank,
            final(self).bound == old(self).bound,
            final(self).nodes@.len() == old(self).nodes@.len(),
            forall|i: int| #[trigger] final(self).is_root(i) == old(self).is_root(i),
            forall|i: int|
                0 <= i < final(self).nodes@.len() ==> #[trigger] final(self).nodes@[i].parent
                    == old(self).nodes@[i].parent && final(self).nodes@[i].mark
                    == old(self).nodes@[i].mark && final(self).nodes@[i].children
                    == old(self).nodes@[i].children && final(self).nodes@[i].degree
                    == old(self).nodes@[i].degree,
            final(self).roots == old(self).roots,
            final(self).min == if old(self).nodes@[h as int].parent is None && old(self).min is Some
                && key < old(self).nodes@[old(self).min->Some_0 as int].key {
                Some(h)
            } else {
                old(self).min
            },
    {
        let ghost v0 = self@;
        proof {
            self.lemma_view_facts(h as int);
            lemma_keys_of_update(v0, h as int, Some(key));
        }
        let is_root = self.nodes[h].parent.is_none();
        let better = match self.min {
            None => true,
            Some(m) => key < self.nodes[m].key,
        };
        self.nodes[h].key = key;
        if is_root && better {
            self.min = Some(h);
        }
        assert(self@ =~= v0.update(h as int, Some(key)));
        assert forall|i: int| #[trigger] self.live(i) implies self.node_ok(i) by {
            assert(old(self).live(i));
            assert(old(self).node_ok(i));
            let nd = self.nodes@[i];
            assert forall|k: int| 0 <= k < nd.children@.len() implies self.child_link(
                i,
                #[trigger] nd.children@[k] as int,
            ) by {
                assert(old(self).child_link(i, nd.children@[k] as int));
            }
            if let Some(p) = nd.parent {
                assert(old(self).child_link(p as int, i));
            }
        }
        assert forall|k: int| 0 <= k < self.roots@.len() implies self.is_root(
            #[trigger] self.roots@[k] as int,
        ) by {
            assert(old(self).is_root(old(self).roots@[k] as int));
        }
        assert forall|i: int| #[trigger] self.is_root(i) implies self.roots@.contains(i as usize) by {
            assert(old(self).is_root(i));
        }
        proof {
            let m = old(self).min.unwrap() as int;
            assert(v0[h as int] is Some);
            assert(old(self).is_root(m));
            assert(v0[m] is Some);
            if !(is_root && better) {
                if let Some(p) = old(self).nodes@[h as int].parent {
                    assert(old(self).node_ok(h as int));
                    assert(v0[p as int] is Some);
                }
            }
            assert forall|j: int| 0 <= j < self@.len() && self@[j] is Some implies self.nodes@[self.min.unwrap() as int].key
                <= #[trigger] self@[j]->Some_0 by {
                assert(v0[j] is Some);
            }
        }
    }

    /// Walks up from `p`, cutting marked ancestors, and marks the first
    /// unmarked non-root it meets.
    #[verifier::rlimit(60)]
    fn cascade(&mut self, p: usize)
        requires
            old(self).wf(),
            old(self).live(p as int),
        ensures
            final(self).wf(),
            final(self)@ == old(self)@,
            final(self).detached(&*old(self), p as int) || old(self).is_root(p as int)
                || final(self).newly_marked(&*old(self), p as int),
            forall|i: int|
                #[trigger] old(self).is_root(i) ==> final(self).is_root(i) && final(self).is_marked(i)
                    == old(self).is_marked(i),
            final(self).children_of(p as int) == old(self).children_of(p as int),
            final(self).degree_of(p as int) == old(self).degree_of(p as int),
            final(self).min == old(self).min,
            final(self).rank == old(self).rank,
            final(self).nodes@.len() == old(self).nodes@.len(),
            forall|i: int|
                0 <= i < final(self).nodes@.len() && final(self).rank@[i] <= final(self).rank@[p as int] ==> #[trigger] final(self).nodes@[i].children
                    == old(self).nodes@[i].children,
            final(self).cut_chain(&*old(self), p as int, -1),
            forall|i: int|
                0 <= i < old(self).nodes@.len() && #[trigger] final(self).detached(&*old(self), i) ==> old(self).rank@[i]
                    >= old(self).rank@[p as int] && old(self).live(i),
    {
        let ghost o = *old(self);
        proof {
            Self::lemma_chain_start(o, p as int);
        }
        let mut y = p;
        loop
            invariant_except_break
                y == p ==> self.is_marked(p as int) == old(self).is_marked(p as int),
                self.chain_so_far(o, p as int, y as int),
            invariant
                self.wf(),
                self@ == old(self)@,
                self.live(y as int),
                self.bound == old(self).bound,
                self.rank == old(self).rank,
                self.nodes@.len() == old(self).nodes@.len(),
                old(self).live(p as int),
                self.rank@[y as int] >= self.rank@[p as int],
                y == p ==> self.parent_of(p as int) == old(self).parent_of(p as int),
                y != p ==> self.detached(&*old(self), p as int),
                forall|i: int|
                    #[trigger] old(self).is_root(i) ==> self.is_root(i) && self.is_marked(i) == old(self).is_marked(i),
                self.nodes@[p as int].children == old(self).nodes@[p as int].children,
                self.nodes@[p as int].degree == old(self).nodes@[p as int].degree,
                self.min == old(self).min,
                forall|i: int|
                    0 <= i < self.nodes@.len() && self.rank@[i] <= self.rank@[p as int] ==> #[trigger] self.nodes@[i].children
                        == old(self).nodes@[i].children,
                o == *old(self),
            ensures
                self.cut_chain(&o, p as int, -1),
                forall|i: int|
                    0 <= i < o.nodes@.len() && #[trigger] self.detached(&o, i) ==> o.rank@[i] >= o.rank@[p as int] && o.live(i),
                y == p ==> self.parent_of(p as int) is None || self.newly_marked(&*old(self), p as int),
            decreases self.bound@ - self.rank@[y as int],
        {
            assert(self.node_ok(y as int));
            match self.nodes[y].parent {
                None => {
                    proof {
                        old(self).lemma_view_facts(p as int);
                        old(self).lemma_view_facts(y as int);
                        self.lemma_view_facts(y as int);
                        Self::lemma_chain_end(o, *self, *self, p as int, y as int);
                    }
                    break;
                },
                Some(q) => {
                    if !self.nodes[y].mark {
                        let ghost before = *self;
                        self.nodes[y].mark = true;
                        assert(self@ =~= before@);
                        assert forall|i: int| #[trigger] self.live(i) implies self.node_ok(i) by {
                            assert(before.live(i));
                            assert(before.node_ok(i));
                            let nd = self.nodes@[i];
                            assert forall|k: int| 0 <= k < nd.children@.len() implies self.child_link(
                                i,
                                #[trigger] nd.children@[k] as int,
                            ) by {
                                assert(before.child_link(i, nd.children@[k] as int));
                            }
                            if let Some(r) = nd.parent {
                                assert(before.child_link(r as int, i));
                            }
                        }
                        assert forall|k: int| 0 <= k < self.roots@.len() implies self.is_root(
                            #[trigger] self.roots@[k] as int,
                        ) by {
                            assert(before.is_root(before.roots@[k] as int));
                        }
                        assert forall|i: int| #[trigger] self.is_root(i) implies self.roots@.contains(i as usize) by {
                            assert(before.is_root(i));
                        }
                        proof {
                            Self::lemma_min_kept(before, *self);
                            assert(self.nodes@[p as int].parent == before.nodes@[p as int].parent);
                            assert forall|i: int| #[trigger] old(self).is_root(i) implies self.is_root(i)
                                && self.is_marked(i) == old(self).is_marked(i) by {
                                assert(before.is_root(i));
                            }
                            old(self).lemma_view_facts(y as int);
                            Self::lemma_chain_end(o, before, *self, p as int, y as int);
                        }
                        break;
                    } else {
                        assert(self.child_link(q as int, y as int));
                        let ghost before = *self;
                        let pos = self.child_pos(q, y);
                        self.cut_to_root(q, pos);
                        proof {
                            Self::lemma_min_kept(before, *self);
                            before.lemma_view_facts(q as int);
                            self.lemma_view_facts(q as int);
                            assert(self.rank@[q as int] > self.rank@[y as int]);
                            assert(q != p);
                            assert(self.nodes@[p as int].children == before.nodes@[p as int].children);
                            assert forall|i: int|
                                0 <= i < self.nodes@.len() && self.rank@[i] <= self.rank@[p as int] implies #[trigger] self.nodes@[i].children
                                    == old(self).nodes@[i].children by {
                                assert(before.nodes@[i].children == old(self).nodes@[i].children);
                            }
                            assert forall|i: int| #[trigger] old(self).is_root(i) implies self.is_root(i)
                                && self.is_marked(i) == old(self).is_marked(i) by {
                                assert(before.is_root(i));
                                if i != y {
                                    assert(self.nodes@[i].mark == before.nodes@[i].mark);
                                }
                            }
                            if y != p {
                                assert(self.nodes@[p as int].parent == before.nodes@[p as int].parent);
                            }
                            old(self).lemma_view_facts(y as int);
                            before.lemma_view_facts(y as int);
                            Self::lemma_chain_step(o, before, *self, p as int, y as int, q as int);
                        }
                        y = q;
                    }
                },
            }
        }
    }

    /// Removes the cached minimum node and returns its key.
    ///
    /// Ties are broken by fixed rules: when two roots of equal key are linked,
    /// the one already in the degree table (met earlier) stays on top; the new
    /// minimum is the first root of smallest key in degree order; and `insert`
    /// moves the minimum only to a strictly smaller key.
    pub fn delete_min(&mut self) -> (r: Result<u64, HeapError>)
        requires
            old(self).wf(),
        ensures
            final(self).wf(),
            r is Err <==> !has_live(old(self)@),
            r is Err ==> r == Err::<u64, HeapError>(HeapError::EmptyHeap) && final(self)@ == old(self)@,
            r matches Ok(k) ==> is_lower_bound(old(self)@, k) && exists|h: int|
                0 <= h < old(self)@.len() && old(self)@[h] == Some(k) && final(self)@ == old(self)@.update(h, None),
            r matches Ok(k) ==> old(self).min_node() matches Some(m) && old(self)@[m as int] == Some(k)
                && final(self)@ == old(self)@.update(m as int, None),
            r is Ok ==> final(self).root_degrees_distinct(),
    {
        let z = match self.min {
            None => return Err(HeapError::EmptyHeap),
            Some(z) => z,
        };
        let ghost v0 = self@;
        proof {
            self.lemma_view_facts(z as int);
        }
        while self.nodes[z].children.len() > 0
            invariant
                self.wf(),
                self.min == Some(z),
                self@ == v0,
            decreases self.nodes@[z as int].children@.len(),
        {
            let ghost before = *self;
            let last = self.nodes[z].children.len() - 1;
            self.cut_to_root(z, last);
            proof {
                Self::lemma_min_kept(before, *self);
            }
        }
        let key = self.nodes[z].key;
        let pos = position_of(&self.roots, z);
        let ghost before = *self;
        proof {
            lemma_remove_facts(self.roots@, pos as int);
            lemma_keys_of_update(v0, z as int, None);
            lemma_keys_of_len(v0);
            assert(self.node_ok(z as int));
        }
        self.roots.remove(pos);
        self.nodes[z].live = false;
        self.count = self.count - 1;
        assert(self@ =~= v0.update(z as int, None));
        assert forall|i: int| #[trigger] self.live(i) implies self.node_ok(i) by {
            assert(before.live(i));
            assert(before.node_ok(i));
            let nd = self.nodes@[i];
            assert forall|k: int| 0 <= k < nd.children@.len() implies self.child_link(
                i,
                #[trigger] nd.children@[k] as int,
            ) by {
                assert(before.child_link(i, nd.children@[k] as int));
            }
            if let Some(p) = nd.parent {
                assert(before.child_link(p as int, i));
                if p == z {
                    assert(before.nodes@[z as int].children@.contains(i as usize));
                }
            }
        }
        assert forall|k: int| 0 <= k < self.roots@.len() implies self.is_root(
            #[trigger] self.roots@[k] as int,
        ) by {
            assert(self.roots@.contains(self.roots@[k]));
            assert(before.roots@.contains(self.roots@[k]));
            let k2 = choose|k2: int| 0 <= k2 < before.roots@.len() && before.roots@[k2] == self.roots@[k];
            assert(before.is_root(before.roots@[k2] as int));
        }
        assert forall|i: int| #[trigger] self.is_root(i) implies self.roots@.contains(i as usize) by {
            assert(before.is_root(i));
        }
        self.consolidate();
        proof {
            assert(v0[z as int] == Some(key));
        }
        Ok(key)
    }

    /// Lowers the key of node `h` to `key`. A larger key is refused and the
    /// heap is left as it was.
    pub fn decrease_key(&mut self, h: usize, key: u64) -> (r: Result<(), HeapError>)
        requires
            old(self).wf(),
            h < old(self)@.len(),
            old(self)@[h as int] is Some,
        ensures
            final(self).wf(),
            r is Err <==> key > old(self)@[h as int]->Some_0,
            r is Err ==> r == Err::<(), HeapError>(HeapError::KeyIncreaseRejected) && *final(self) == *old(self),
            r is Ok ==> final(self)@ == old(self)@.update(h as int, Some(key)),
            r is Ok && !old(self).parent_key_above(h as int, key) ==> final(self).root_list()
                == old(self).root_list() && forall|i: int|
                0 <= i < old(self)@.len() ==> #[trigger] final(self).same_links(&*old(self), i),
            r is Ok && old(self).parent_key_above(h as int, key) ==> final(self).detached(
                &*old(self),
                old(self).parent_of(h as int)->Some_0 as int,
            ) || old(self).is_root(old(self).parent_of(h as int)->Some_0 as int) || final(self).newly_marked(
                &*old(self),
                old(self).parent_of(h as int)->Some_0 as int,
            ),
            r is Ok ==> final(self).min_node() == if old(self).parent_of(h as int) is Some
                && !old(self).parent_key_above(h as int, key) {
                old(self).min_node()
            } else if key < old(self).key_at(old(self).min_node()->Some_0 as int) {
                Some(h)
            } else {
                old(self).min_node()
            },
            r is Ok && old(self).parent_key_above(h as int, key) ==> final(self).parent_of(h as int) is None
                && final(self).children_of(h as int) == old(self).children_of(h as int),
            r is Ok && old(self).parent_key_above(h as int, key) ==> final(self).cut_chain(
                &*old(self),
                old(self).parent_of(h as int)->Some_0 as int,
                h as int,
            ),
            r is Ok && old(self).parent_key_above(h as int, key) ==> final(self).is_root(h as int)
                && !final(self).is_marked(h as int) && !final(self).children_of(
                old(self).parent_of(h as int)->Some_0 as int,
            ).contains(h) && final(self).degree_of(old(self).parent_of(h as int)->Some_0 as int)
                == old(self).degree_of(old(self).parent_of(h as int)->Some_0 as int) - 1,
    {
        proof {
            self.lemma_view_facts(h as int);
        }
        if key > self.nodes[h].key {
            return Err(HeapError::KeyIncreaseRejected);
        }
        assert(self.node_ok(h as int));
        proof {
            self.lemma_min_node();
            assert(self@[h as int] is Some);
            self.lemma_view_facts(self.min.unwrap() as int);
        }
        let cut_from = match self.nodes[h].parent {
            None => None,
            Some(p) => if key < self.nodes[p].key {
                Some(p)
            } else {
                None
            },
        };
        match cut_from {
            None => {
                self.set_key(h, key);
                assert forall|i: int| 0 <= i < old(self)@.len() implies #[trigger] self.same_links(&*old(self), i) by {
                    assert(self.nodes@[i].parent == old(self).nodes@[i].parent);
                }
            },
            Some(p) => {
                assert(self.child_link(p as int, h as int));
                let ghost before = *self;
                let pos = self.child_pos(p, h);
                self.cut_to_root(p, pos);
                proof {
                    Self::lemma_min_kept(before, *self);
                    self.lemma_view_facts(h as int);
                }
                let ghost mid = self@;
                let ghost mid_heap = *self;
                proof {
                    self.lemma_view_facts(p as int);
                    assert(self.nodes@[p as int].parent == before.nodes@[p as int].parent);
                }
                self.set_key(h, key);
                proof {
                    self.lemma_view_facts(p as int);
                }
                let ghost keyed = *self;
                self.cascade(p);
                assert(mid == old(self)@);
                proof {
                    old(self).lemma_view_facts(p as int);
                    keyed.lemma_view_facts(p as int);
                    assert(keyed.is_root(h as int));
                    lemma_remove_facts(old(self).nodes@[p as int].children@, pos as int);
                    assert(old(self).node_ok(p as int));
                    assert(keyed.nodes@[p as int].children@ == before.nodes@[p as int].children@.remove(pos as int));
                    let m = old(self).min.unwrap() as int;
                    mid_heap.lemma_view_facts(m);
                    assert(mid_heap.nodes@[m].key == old(self).nodes@[m].key);
                    assert(old(self).rank@[h as int] < old(self).rank@[p as int]);
                    assert(keyed.nodes@[h as int].children == old(self).nodes@[h as int].children);
                    assert(self.nodes@[h as int].children == keyed.nodes@[h as int].children);
                    assert forall|i: int|
                        0 <= i < old(self).nodes@.len() && i != h implies #[trigger] keyed.nodes@[i].parent == old(self).nodes@[i].parent
                            && keyed.nodes@[i].mark == old(self).nodes@[i].mark by {
                        assert(mid_heap.nodes@[i].parent == old(self).nodes@[i].parent);
                    }
                    assert forall|i: int| #[trigger] keyed.live(i) == old(self).live(i) by {
                        if 0 <= i < old(self).nodes@.len() {
                            keyed.lemma_view_facts(i);
                            old(self).lemma_view_facts(i);
                        }
                    }
                    assert(keyed@ =~= old(self)@.update(h as int, keyed@[h as int]));
                    Self::lemma_chain_translate(*old(self), keyed, *self, p as int, h as int);
                }
            },
        }
        Ok(())
    }

    /// `it` is the record `src` moved up by `off` slots.
    closed spec fn shifted(it: Item, src: Item, off: int) -> bool {
        &&& it.live == src.live
        &&& src.live ==> {
            &&& it.key == src.key
            &&& it.mark == src.mark
            &&& it.degree == src.degree
            &&& it.parent == match src.parent {
                None => None,
                Some(p) => Some((p + off) as usize),
            }
            &&& it.children@.len() == src.children@.len()
            &&& forall|k: int| 0 <= k < it.children@.len() ==> #[trigger] it.children@[k] == src.children@[k] + off
        }
    }

    /// Copy of live record `src` with every index moved up by `off`; a dead
    /// record becomes an empty dead one.
    fn shift_item(src: &Item, off: usize, bound: usize) -> (it: Item)
        requires
            src.live ==> forall|k: int| 0 <= k < src.children@.len() ==> #[trigger] src.children@[k] < bound,
            src.live ==> (src.parent matches Some(p) ==> p < bound),
            off + bound <= usize::MAX,
        ensures
            Self::shifted(it, *src, off as int),
    {
        if !src.live {
            return Item { key: 0, parent: None, children: Vec::new(), degree: 0, mark: false, live: false };
        }
        let mut kids: Vec<usize> = Vec::new();
        let n = src.children.len();
        let mut k: usize = 0;
        while k < n
            invariant
                n == src.children@.len(),
                k <= n,
                kids@.len() == k,
                forall|t: int| 0 <= t < k ==> #[trigger] kids@[t] == src.children@[t] + off,
                forall|t: int| 0 <= t < src.children@.len() ==> #[trigger] src.children@[t] < bound,
                off + bound <= usize::MAX,
            decreases n - k,
        {
            kids.push(src.children[k] + off);
            k = k + 1;
        }
        let parent = match src.parent {
            None => None,
            Some(p) => Some(p + off),
        };
        Item { key: src.key, parent, children: kids, degree: src.degree, mark: src.mark, live: true }
    }

    /// Combines two heaps into one. The nodes of `other` move up by the
    /// number of slots of `self`.
    pub fn meld(self, other: FibonacciHeap) -> (r: FibonacciHeap)
        requires
            self.wf(),
            other.wf(),
            self@.len() + other@.len() <= usize::MAX,
        ensures
            r.wf(),
            r@ == self@ + other@,
            r.min_node() == if other.min_node() is None {
                self.min_node()
            } else if self.min_node() is None || other.key_at(other.min_node()->Some_0 as int)
                < self.key_at(self.min_node()->Some_0 as int) {
                Some((other.min_node()->Some_0 + self@.len()) as usize)
            } else {
                self.min_node()
            },
            r.root_list() == self.root_list() + other.root_list().map_values(
                |x: usize| (x + self@.len()) as usize,
            ),
            forall|i: int| 0 <= i < self@.len() && self@[i] is Some ==> #[trigger] r.same_links(&self, i),
            forall|j: int|
                0 <= j < other@.len() && other@[j] is Some ==> #[trigger] r.links_shifted(&other, j, self@.len() as int),
    {
        let ghost sa = self;
        let ghost sb = other;
        let mut a = self;
        let off = a.nodes.len();
        let bn = other.nodes.len();
        let mut i: usize = 0;
        while i < bn
            invariant
                sb == other,
                sb.forest_ok(),
                bn == sb.nodes@.len(),
                off == sa.nodes@.len(),
                off + bn <= usize::MAX,
                i <= bn,
                a.nodes@.len() == off + i,
                a.roots == sa.roots,
                a.min == sa.min,
                a.count == sa.count,
                a.rank == sa.rank,
                a.bound == sa.bound,
                forall|j: int| 0 <= j < off ==> #[trigger] a.nodes@[j] == sa.nodes@[j],
                forall|j: int| 0 <= j < i ==> Self::shifted(#[trigger] a.nodes@[off + j], sb.nodes@[j], off as int),
            decreases bn - i,
        {
            proof {
                if sb.nodes@[i as int].live {
                    assert(sb.live(i as int));
                    assert(sb.node_ok(i as int));
                    let nd = sb.nodes@[i as int];
                    assert forall|k: int| 0 <= k < nd.children@.len() implies #[trigger] nd.children@[k] < bn by {
                        assert(sb.child_link(i as int, nd.children@[k] as int));
                    }
                    if let Some(p) = nd.parent {
                        assert(sb.child_link(p as int, i as int));
                    }
                }
            }
            let it = Self::shift_item(&other.nodes[i], off, bn);
            a.nodes.push(it);
            proof {
                assert(a.nodes@[off + i] == it);
            }
            i = i + 1;
        }
        let rn = other.roots.len();
        let mut k: usize = 0;
        let ghost an = a.nodes@;
        while k < rn
            invariant
                a.nodes@ == an,
                a.min == sa.min,
                a.count == sa.count,
                sb == other,
                sb.roots_ok(),
                rn == sb.roots@.len(),
                bn == sb.nodes@.len(),
                off + bn <= usize::MAX,
                k <= rn,
                a.roots@.len() == sa.roots@.len() + k,
                forall|t: int| 0 <= t < sa.roots@.len() ==> #[trigger] a.roots@[t] == sa.roots@[t],
                forall|t: int| 0 <= t < k ==> #[trigger] a.roots@[sa.roots@.len() + t] == sb.roots@[t] + off,
            decreases rn - k,
        {
            assert(sb.is_root(sb.roots@[k as int] as int));
            a.roots.push(other.roots[k] + off);
            k = k + 1;
        }
        proof {
            lemma_keys_of_len(sa@);
            lemma_keys_of_len(sb@);
            assert(sa@.len() == sa.nodes@.len());
            assert(sb@.len() == sb.nodes@.len());
            if let Some(ma) = sa.min {
                assert(sa.is_root(ma as int));
            }
            if let Some(mb) = sb.min {
                assert(sb.is_root(mb as int));
            }
        }
        a.count = a.count + other.count;
        a.rank = Ghost(sa.rank@ + sb.rank@);
        a.bound = Ghost(if sa.bound@ > sb.bound@ { sa.bound@ } else { sb.bound@ });
        let take_other = match (a.min, other.min) {
            (_, None) => false,
            (None, Some(_)) => true,
            (Some(ma), Some(mb)) => other.nodes[mb].key < a.nodes[ma].key,
        };
        if take_other {
            a.min = Some(other.min.unwrap() + off);
        }
        proof {
            if let Some(ma) = sa.min {
                assert(a.nodes@[ma as int] == sa.nodes@[ma as int]);
            }
            Self::lemma_meld_wf(sa, sb, a, take_other);
            let offi = off as int;
            assert forall|i: int| 0 <= i < sa@.len() && sa@[i] is Some implies #[trigger] a.same_links(&sa, i) by {
                assert(a.nodes@[i] == sa.nodes@[i]);
            }
            assert forall|j: int| 0 <= j < sb@.len() && sb@[j] is Some implies #[trigger] a.links_shifted(&sb, j, offi) by {
                assert(Self::shifted(a.nodes@[offi + j], sb.nodes@[j], offi));
                assert(a.children_of(j + offi) =~= sb.children_of(j).map_values(|c: usize| (c + offi) as usize));
            }
            let ra = sa.roots@.len() as int;
            let rhs = sa.root_list() + sb.root_list().map_values(|x: usize| (x + offi) as usize);
            assert forall|k: int| 0 <= k < a.roots@.len() implies a.roots@[k] == rhs[k] by {
                if k >= ra {
                    assert(a.roots@[ra + (k - ra)] == sb.roots@[k - ra] + off);
                }
            }
            assert(a.root_list() =~= rhs);
        }
        a
    }

    proof fn lemma_meld_wf(sa: Self, sb: Self, a: Self, take_other: bool)
        requires
            sa.wf(),
            sb.wf(),
            sa.nodes@.len() + sb.nodes@.len() <= usize::MAX,
            a.nodes@.len() == sa.nodes@.len() + sb.nodes@.len(),
            forall|j: int| 0 <= j < sa.nodes@.len() ==> #[trigger] a.nodes@[j] == sa.nodes@[j],
            forall|j: int| 0 <= j < sb.nodes@.len() ==> Self::shifted(#[trigger] a.nodes@[sa.nodes@.len() + j], sb.nodes@[j], sa.nodes@.len() as int),
            a.roots@.len() == sa.roots@.len() + sb.roots@.len(),
            forall|t: int| 0 <= t < sa.roots@.len() ==> #[trigger] a.roots@[t] == sa.roots@[t],
            forall|t: int| 0 <= t < sb.roots@.len() ==> #[trigger] a.roots@[sa.roots@.len() + t] == sb.roots@[t] + sa.nodes@.len(),
            a.count == sa.count + sb.count,
            a.rank@ == sa.rank@ + sb.rank@,
            a.bound@ == if sa.bound@ > sb.bound@ { sa.bound@ } else { sb.bound@ },
            take_other ==> sb.min is Some && a.min == Some((sb.min.unwrap() + sa.nodes@.len()) as usize)
                && (sa.min is Some ==> sb.nodes@[sb.min.unwrap() as int].key < sa.nodes@[sa.min.unwrap() as int].key),
            !take_other ==> a.min == sa.min && (sa.min is None ==> sb.min is None)
                && (sa.min is Some && sb.min is Some ==> sa.nodes@[sa.min.unwrap() as int].key <= sb.nodes@[sb.min.unwrap() as int].key),
        ensures
            a.wf(),
            a@ == sa@ + sb@,
    {
        let off = sa.nodes@.len() as int;
        assert forall|j: int| 0 <= j < a@.len() implies a@[j] == (sa@ + sb@)[j] by {
            if j >= off {
                assert(Self::shifted(a.nodes@[off + (j - off)], sb.nodes@[j - off], off));
            }
        }
        assert(a@ =~= sa@ + sb@);
        lemma_keys_of_concat(sa@, sb@);
        assert forall|i: int| #[trigger] a.live(i) implies a.node_ok(i) by {
            let nd = a.nodes@[i];
            if i < off {
                assert(sa.live(i));
                assert(sa.node_ok(i));
                assert forall|k: int| 0 <= k < nd.children@.len() implies a.child_link(i, #[trigger] nd.children@[k] as int) by {
                    assert(sa.child_link(i, nd.children@[k] as int));
                }
                if let Some(p) = nd.parent {
                    assert(sa.child_link(p as int, i));
                }
            } else {
                let j = i - off;
                assert(Self::shifted(a.nodes@[off + j], sb.nodes@[j], off));
                assert(sb.live(j));
                assert(sb.node_ok(j));
                let sd = sb.nodes@[j];
                assert forall|k: int| 0 <= k < nd.children@.len() implies a.child_link(i, #[trigger] nd.children@[k] as int) by {
                    let c = sd.children@[k] as int;
                    assert(sb.child_link(j, c));
                    assert(nd.children@[k] == c + off);
                    assert(Self::shifted(a.nodes@[off + c], sb.nodes@[c], off));
                }
                assert forall|x: int, y: int| 0 <= x < nd.children@.len() && 0 <= y < nd.children@.len() && x != y implies nd.children@[x] != nd.children@[y] by {
                    assert(nd.children@[x] == sd.children@[x] + off);
                    assert(nd.children@[y] == sd.children@[y] + off);
                }
                if let Some(p) = sd.parent {
                    assert(sb.child_link(p as int, j));
                    assert(Self::shifted(a.nodes@[off + p], sb.nodes@[p as int], off));
                    let k = choose|k: int| 0 <= k < sb.nodes@[p as int].children@.len() && sb.nodes@[p as int].children@[k] == j as usize;
                    assert(a.nodes@[off + p].children@[k] == i as usize);
                }
            }
        }
        let ra = sa.roots@.len() as int;
        assert forall|k: int| 0 <= k < a.roots@.len() implies a.is_root(#[trigger] a.roots@[k] as int) by {
            if k < ra {
                assert(sa.is_root(sa.roots@[k] as int));
            } else {
                let r = sb.roots@[k - ra] as int;
                assert(a.roots@[ra + (k - ra)] == r + off);
                assert(sb.is_root(r));
                assert(Self::shifted(a.nodes@[off + r], sb.nodes@[r], off));
            }
        }
        assert forall|x: int, y: int| 0 <= x < a.roots@.len() && 0 <= y < a.roots@.len() && x != y implies a.roots@[x] != a.roots@[y] by {
            if x < ra {
                assert(sa.is_root(sa.roots@[x] as int));
            } else {
                assert(a.roots@[ra + (x - ra)] == sb.roots@[x - ra] + off);
                assert(sb.is_root(sb.roots@[x - ra] as int));
            }
            if y < ra {
                assert(sa.is_root(sa.roots@[y] as int));
            } else {
                assert(a.roots@[ra + (y - ra)] == sb.roots@[y - ra] + off);
                assert(sb.is_root(sb.roots@[y - ra] as int));
            }
        }
        assert forall|i: int| #[trigger] a.is_root(i) implies a.roots@.contains(i as usize) by {
            if i < off {
                assert(sa.is_root(i));
                let k = choose|k: int| 0 <= k < sa.roots@.len() && sa.roots@[k] == i as usize;
                assert(a.roots@[k] == i as usize);
            } else {
                let j = i - off;
                assert(Self::shifted(a.nodes@[off + j], sb.nodes@[j], off));
                assert(sb.is_root(j));
                let k = choose|k: int| 0 <= k < sb.roots@.len() && sb.roots@[k] == j as usize;
                assert(a.roots@[ra + k] == i as usize);
            }
        }
        let v = a@;
        match a.min {
            None => {
                assert(!has_live(sa@));
                assert(!has_live(sb@));
                if has_live(v) {
                    let j = choose|j: int| 0 <= j < v.len() && #[trigger] v[j] is Some;
                    if j < off {
                        assert(sa@[j] is Some);
                    } else {
                        assert(sb@[j - off] is Some);
                    }
                }
            },
            Some(m) => {
                if take_other {
                    let mb = sb.min.unwrap() as int;
                    assert(sb.is_root(mb));
                    assert(Self::shifted(a.nodes@[off + mb], sb.nodes@[mb], off));
                    assert forall|j: int| 0 <= j < v.len() && v[j] is Some implies a.nodes@[m as int].key <= #[trigger] v[j]->Some_0 by {
                        if j < off {
                            assert(sa@[j] is Some);
                            let ma = sa.min.unwrap() as int;
                            assert(sa.is_root(ma));
                            assert(sa@[ma] is Some);
                        } else {
                            assert(sb@[j - off] is Some);
                            assert(sb@[mb] is Some);
                        }
                    }
                } else {
                    let ma = m as int;
                    assert(sa.is_root(ma));
                    assert forall|j: int| 0 <= j < v.len() && v[j] is Some implies a.nodes@[ma].key <= #[trigger] v[j]->Some_0 by {
                        if j < off {
                            assert(sa@[j] is Some);
                        } else {
                            assert(sb@[j - off] is Some);
                            let mb = sb.min.unwrap() as int;
                            assert(sb.is_root(mb));
                            assert(sb@[mb] is Some);
                        }
                    }
                }
            },
        }
    }

    /// The keys of a heap are ordered along every parent-child edge.
    pub proof fn lemma_heap_ordered(&self)
        requires
            self.wf(),
        ensures
            forall|i: int, k: int|
                self.live(i) && 0 <= k < self.children_of(i).len() ==> self.key_at(i) <= self.key_at(
                    #[trigger] self.children_of(i)[k] as int,
                ),
    {
        assert forall|i: int, k: int|
            self.live(i) && 0 <= k < self.children_of(i).len() implies self.key_at(i) <= self.key_at(
            #[trigger] self.children_of(i)[k] as int,
        ) by {
            assert(self.node_ok(i));
            assert(self.child_link(i, self.children_of(i)[k] as int));
        }
    }

    /// The cached minimum is absent exactly when the heap is empty; otherwise it
    /// is a root on the root list whose key is no larger than any key held.
    pub proof fn lemma_min_node(&self)
        requires
            self.wf(),
        ensures
            self.min_node() is None <==> !has_live(self@),
            self.min_node() is Some ==> {
                let m = self.min_node()->Some_0 as int;
                &&& self.is_root(m)
                &&& self.parent_of(m) is None
                &&& self.root_list().contains(m as usize)
                &&& self@[m] == Some(self.key_at(m))
                &&& is_lower_bound(self@, self.key_at(m))
            },
    {
        if let Some(m) = self.min {
            self.lemma_view_facts(m as int);
        }
    }

    /// Each node's degree is the length of its child list; child lists and the
    /// root list have no repeats; parent and child links agree both ways; the
    /// root list holds exactly the nodes without a parent, and none is marked.
    pub proof fn lemma_structure(&self)
        requires
            self.wf(),
        ensures
            forall|i: int|
                #[trigger] self.live(i) ==> self.degree_of(i) == self.children_of(i).len()
                    && self.children_of(i).no_duplicates(),
            forall|i: int, k: int|
                self.live(i) && 0 <= k < self.children_of(i).len() ==> self.live(
                    #[trigger] self.children_of(i)[k] as int,
                ) && self.parent_of(self.children_of(i)[k] as int) == Some(i as usize),
            forall|i: int|
                #[trigger] self.live(i) && self.parent_of(i) is Some ==> self.children_of(
                    self.parent_of(i)->Some_0 as int,
                ).contains(i as usize),
            self.root_list().no_duplicates(),
            forall|u: usize| #[trigger] self.is_root(u as int) <==> self.root_list().contains(u),
            forall|i: int| #[trigger] self.is_root(i) ==> !self.is_marked(i),
            forall|i: int| #[trigger] self.is_root(i) <==> self.live(i) && self.parent_of(i) is None,
            forall|i: int| #[trigger] self.live(i) <==> 0 <= i < self@.len() && self@[i] is Some,
    {
        assert forall|i: int| #[trigger] self.live(i) implies self.degree_of(i) == self.children_of(i).len()
            && self.children_of(i).no_duplicates() by {
            assert(self.node_ok(i));
        }
        assert forall|i: int, k: int|
            self.live(i) && 0 <= k < self.children_of(i).len() implies self.live(
            #[trigger] self.children_of(i)[k] as int,
        ) && self.parent_of(self.children_of(i)[k] as int) == Some(i as usize) by {
            assert(self.node_ok(i));
            assert(self.child_link(i, self.children_of(i)[k] as int));
        }
        assert forall|i: int|
            #[trigger] self.live(i) && self.parent_of(i) is Some implies self.children_of(
            self.parent_of(i)->Some_0 as int,
        ).contains(i as usize) by {
            assert(self.node_ok(i));
        }
        assert forall|u: usize| #[trigger] self.is_root(u as int) <==> self.root_list().contains(u) by {
            if self.root_list().contains(u) {
                let k = choose|k: int| 0 <= k < self.roots@.len() && self.roots@[k] == u;
                assert(self.is_root(self.roots@[k] as int));
            }
        }
        assert forall|i: int| #[trigger] self.is_root(i) implies !self.is_marked(i) by {
            assert(self.node_ok(i));
        }
    }

    /// The node slots of the root list, in order.
    pub fn root_nodes(&self) -> (r: Vec<usize>)
        ensures
            r@ == self.root_list(),
    {
        let mut r: Vec<usize> = Vec::new();
        let n = self.roots.len();
        let mut k: usize = 0;
        while k < n
            invariant
                n == self.roots@.len(),
                k <= n,
                r@ == self.roots@.subrange(0, k as int),
            decreases n - k,
        {
            r.push(self.roots[k]);
            k = k + 1;
            assert(r@ =~= self.roots@.subrange(0, k as int));
        }
        assert(r@ =~= self.roots@);
        r
    }

    /// Degree of node `h`.
    pub fn degree(&self, h: usize) -> (r: usize)
        requires
            h < self@.len(),
        ensures
            r == self.degree_of(h as int),
    {
        self.nodes[h].degree
    }

    /// Key of node `h`, or `None` if `h` is not in the heap.
    pub fn key_of(&self, h: usize) -> (r: Option<u64>)
        ensures
            r == if h < self@.len() {
                self@[h as int]
            } else {
                None
            },
    {
        if h < self.nodes.len() && self.nodes[h].live {
            Some(self.nodes[h].key)
        } else {
            None
        }
    }

    pub fn new() -> (h: FibonacciHeap)
        ensures
            h.wf(),
            h@ == Seq::<Option<u64>>::empty(),
            h.min_node() is None,
    {
        let h = FibonacciHeap {
            nodes: Vec::new(),
            roots: Vec::new(),
            min: None,
            count: 0,
            rank: Ghost(Seq::empty()),
            bound: Ghost(1),
        };
        assert(h@ =~= Seq::<Option<u64>>::empty());
        h
    }

    /// Number of keys in the heap.
    pub fn len(&self) -> (r: usize)
        requires
            self.wf(),
        ensures
            r == keys_of(self@).len(),
    {
        self.count
    }

    pub fn is_empty(&self) -> (r: bool)
        requires
            self.wf(),
        ensures
            r <==> !has_live(self@),
    {
        proof {
            lemma_keys_of_len(self@);
        }
        self.count == 0
    }

    /// Node `h` is in the heap.
    pub fn contains(&self, h: usize) -> (r: bool)
        ensures
            r <==> (h < self@.len() && self@[h as int] is Some),
    {
        h < self.nodes.len() && self.nodes[h].live
    }

    /// Adds `key` as a new singleton root and returns its node.
    pub fn insert(&mut self, key: u64) -> (h: usize)
        requires
            old(self).wf(),
            old(self)@.len() < usize::MAX,
        ensures
            final(self).wf(),
            h == old(self)@.len(),
            final(self)@ == old(self)@.push(Some(key)),
            final(self).is_root(h as int),
            final(self).children_of(h as int).len() == 0,
            final(self).degree_of(h as int) == 0,
            !final(self).is_marked(h as int),
            final(self).root_list() == old(self).root_list().push(h),
            final(self).min_node() == if old(self).min_node() is Some && !(key < old(self).key_at(
                old(self).min_node()->Some_0 as int,
            )) {
                old(self).min_node()
            } else {
                Some(h)
            },
            forall|i: int| 0 <= i < old(self)@.len() ==> #[trigger] final(self).same_links(&*old(self), i),
    {
        let ghost old_view = self@;
        let n = self.nodes.len();
        proof {
            lemma_keys_of_len(old_view);
            lemma_keys_of_push(old_view, Some(key));
        }
        self.nodes.push(Item::new(key));
        self.roots.push(n);
        self.rank = Ghost(self.rank@.push(0));
        self.bound = Ghost(self.bound@ + 1);
        self.count = self.count + 1;
        let new_min = match self.min {
            None => true,
            Some(m) => key < self.nodes[m].key,
        };
        if new_min {
            self.min = Some(n);
        }
        assert(self@ =~= old_view.push(Some(key)));
        assert forall|i: int| #[trigger] self.live(i) implies self.node_ok(i) by {
            if i < n {
                assert(old(self).live(i));
                assert(old(self).node_ok(i));
                let nd = self.nodes@[i];
                assert forall|k: int| 0 <= k < nd.children@.len() implies self.child_link(
                    i,
                    #[trigger] nd.children@[k] as int,
                ) by {
                    assert(old(self).child_link(i, nd.children@[k] as int));
                }
                if let Some(p) = nd.parent {
                    assert(old(self).child_link(p as int, i));
                }
            } else {
                assert(self.nodes@[i].children@ =~= Seq::<usize>::empty());
            }
        }
        assert forall|k: int| 0 <= k < self.roots@.len() implies self.is_root(
            #[trigger] self.roots@[k] as int,
        ) by {
            if k < self.roots@.len() - 1 {
                assert(old(self).is_root(old(self).roots@[k] as int));
            }
        }
        assert forall|i: int| #[trigger] self.is_root(i) implies self.roots@.contains(i as usize) by {
            if i < n {
                assert(old(self).is_root(i));
                let k = choose|k: int| 0 <= k < old(self).roots@.len() && old(self).roots@[k] == i as usize;
                assert(self.roots@[k] == i as usize);
            } else {
                assert(self.roots@[self.roots@.len() - 1] == n);
            }
        }
        proof {
            if !new_min {
                let m = self.min.unwrap() as int;
                assert(old(self).is_root(m));
            }
        }
        n
    }

    /// The smallest key in the heap.
    pub fn find_min(&self) -> (r: Result<u64, HeapError>)
        requires
            self.wf(),
        ensures
            r is Err <==> !has_live(self@),
            r is Err ==> r == Err::<u64, HeapError>(HeapError::EmptyHeap),
            r matches Ok(k) ==> is_lower_bound(self@, k) && keys_of(self@).contains(k),
    {
        match self.min {
            None => Err(HeapError::EmptyHeap),
            Some(m) => {
                proof {
                    self.lemma_view_facts(m as int);
                    lemma_keys_of_update(self@, m as int, None);
                }
                Ok(self.nodes[m].key)
            }
        }
    }
}

} // verus!
