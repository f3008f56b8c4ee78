//! An arena-allocated tree: nodes live in one vector and refer to each
//! other by their position in it.
use vstd::prelude::*;
use vstd::std_specs::cmp::PartialEqSpec;
use crate::text::{owned, str_eq};

verus! {

/// One node of an [`ArenaTree`]: its own position, its value, the position
/// of its parent and the positions of its children.
pub struct TreeNode<T> where T: PartialEq {
    pub(crate) index: usize,
    pub value: T,
    pub(crate) parent: Option<usize>,
    pub(crate) children: Vec<usize>,
}

impl<T> TreeNode<T> where T: PartialEq {
    /// The value held by the node.
    pub closed spec fn val(&self) -> T {
        self.value
    }

    /// The position this node records for itself.
    pub closed spec fn idx(&self) -> usize {
        self.index
    }

    /// The position of the parent, if the node has one.
    pub closed spec fn parent_link(&self) -> Option<usize> {
        self.parent
    }

    /// The positions of the children, in insertion order.
    pub closed spec fn child_list(&self) -> Seq<usize> {
        self.children@
    }

    pub fn new(index: usize, value: T) -> (res: Self)
        ensures
            res.idx() == index,
            res.val() == value,
            res.parent_link() is None,
            res.child_list() == Seq::<usize>::empty(),
    {
        Self { index, value, parent: None, children: Vec::new() }
    }

    pub fn value(&self) -> (res: &T)
        ensures
            *res == self.val(),
    {
        &self.value
    }

    pub fn parent(&self) -> (res: Option<usize>)
        ensures
            res == self.parent_link(),
    {
        self.parent
    }

    pub fn children(&self) -> (res: &[usize])
        ensures
            res@ == self.child_list(),
    {
        self.children.as_slice()
    }
}

/// A node of an arena tree as plain values: its value, the position of its
/// parent and the positions of its children.
pub struct NodeModel<T> {
    pub value: T,
    pub parent: Option<usize>,
    pub children: Seq<usize>,
}

/// The first position at or after `j` whose value equals `v`.
pub open spec fn find_value<T: PartialEq>(m: Seq<NodeModel<T>>, v: T, j: int) -> Option<int>
    decreases m.len() - j,
{
    if j < 0 || j >= m.len() {
        None
    } else if m[j].value.eq_spec(&v) {
        Some(j)
    } else {
        find_value(m, v, j + 1)
    }
}

/// What `node(v)` makes of the nodes `m`: the position of the first node
/// equal to `v`, or a new parentless leaf for `v` at the end.
pub open spec fn add_value<T: PartialEq>(m: Seq<NodeModel<T>>, v: T) -> (Seq<NodeModel<T>>, int) {
    match find_value(m, v, 0) {
        Some(i) => (m, i),
        None => (m.push(NodeModel { value: v, parent: None, children: Seq::empty() }), m.len() as int),
    }
}

/// What `insert(p, c)` makes of the nodes `m`: `c`'s parent becomes `p`,
/// then `c` is appended to `p`'s children.
pub open spec fn link<T>(m: Seq<NodeModel<T>>, p: int, c: int) -> Seq<NodeModel<T>> {
    let m1 = m.update(c, NodeModel { parent: Some(p as usize), ..m[c] });
    m1.update(p, NodeModel { children: m1[p].children.push(c as usize), ..m1[p] })
}

/// The model of a node.
pub open spec fn model_of<T: PartialEq>(n: TreeNode<T>) -> NodeModel<T> {
    NodeModel { value: n.val(), parent: n.parent_link(), children: n.child_list() }
}

proof fn lemma_link_model<T: PartialEq>(o: Seq<TreeNode<T>>, n: Seq<TreeNode<T>>, p: int, c: int)
    requires
        n.len() == o.len(),
        0 <= p < o.len(),
        0 <= c < o.len(),
        n[c].parent_link() == Some(p as usize),
        n[c].val() == o[c].val(),
        n[p].child_list() == o[p].child_list().push(c as usize),
        c != p ==> n[c].child_list() == o[c].child_list(),
        c != p ==> n[p].parent_link() == o[p].parent_link(),
        n[p].val() == o[p].val(),
        forall|i: int| 0 <= i < n.len() && i != p && i != c ==> n[i] == o[i],
    ensures
        n.map_values(|x: TreeNode<T>| model_of(x)) == link(
            o.map_values(|x: TreeNode<T>| model_of(x)),
            p,
            c,
        ),
{
    let mo = o.map_values(|x: TreeNode<T>| model_of(x));
    let mn = n.map_values(|x: TreeNode<T>| model_of(x));
    let l = link(mo, p, c);
    assert forall|i: int| 0 <= i < mn.len() implies mn[i] == l[i] by {
        if i != p && i != c {
            assert(n[i] == o[i]);
        }
    }
    assert(mn =~= l);
}

proof fn lemma_find_value<T: PartialEq>(m: Seq<NodeModel<T>>, v: T, j: int, i: int)
    requires
        0 <= j <= i <= m.len(),
        forall|k: int| j <= k < i ==> !(#[trigger] m[k].value).eq_spec(&v),
    ensures
        i < m.len() && m[i].value.eq_spec(&v) ==> find_value(m, v, j) == Some(i),
        i == m.len() ==> find_value(m, v, j) is None,
    decreases i - j,
{
    if j < i {
        lemma_find_value(m, v, j + 1, i);
    }
}

/// A tree (or forest) whose nodes are stored in a vector and linked by
/// position.
pub struct ArenaTree<T> where T: PartialEq {
    arena: Vec<TreeNode<T>>,
}

impl<T> ArenaTree<T> where T: PartialEq {
    /// The nodes, in allocation order.
    pub closed spec fn nodes(&self) -> Seq<TreeNode<T>> {
        self.arena@
    }

    /// The nodes as plain values.
    pub open spec fn model(&self) -> Seq<NodeModel<T>> {
        self.nodes().map_values(|n: TreeNode<T>| model_of(n))
    }

    /// Every node records its own position, and every link points at an
    /// allocated node.
    pub closed spec fn wf(&self) -> bool {
        forall|i: int|
            0 <= i < self.arena@.len() ==> {
                &&& (#[trigger] self.arena@[i]).index == i
                &&& (self.arena@[i].parent matches Some(p) ==> p < self.arena@.len())
                &&& forall|j: int|
                    0 <= j < self.arena@[i].children@.len() ==> (
                    #[trigger] self.arena@[i].children@[j]) < self.arena@.len()
            }
    }

    /// The parent of node `i`, when `i` is a node that has one.
    pub open spec fn parent_of(&self, i: int) -> Option<int> {
        if 0 <= i < self.nodes().len() {
            match self.nodes()[i].parent_link() {
                Some(p) => Some(p as int),
                None => None,
            }
        } else {
            None
        }
    }

    /// The node reached from `i` by following `k` parent links, if the chain
    /// is that long.
    pub open spec fn nth_ancestor(&self, i: int, k: nat) -> Option<int>
        decreases k,
    {
        if k == 0 {
            Some(i)
        } else {
            match self.parent_of(i) {
                Some(p) => self.nth_ancestor(p, (k - 1) as nat),
                None => None,
            }
        }
    }

    /// Following `k` parent links from `i` ends at a node without a parent.
    pub open spec fn is_root_at(&self, i: int, k: nat) -> bool {
        &&& self.nth_ancestor(i, k) matches Some(r)
        &&& 0 <= r < self.nodes().len()
        &&& self.parent_of(r) is None
    }

    /// The chain of parents above `i` ends (it has no cycle).
    pub open spec fn reaches_root(&self, i: int) -> bool {
        exists|k: nat| k < self.nodes().len() && self.is_root_at(i, k)
    }

    /// Every path down from `i` through child links is at most `h` long
    /// (so no cycle is reachable from `i` through children).
    pub open spec fn bounded(&self, i: int, h: nat) -> bool
        decreases h,
    {
        &&& 0 <= i < self.nodes().len()
        &&& if h == 0 {
            self.nodes()[i].child_list().len() == 0
        } else {
            forall|j: int|
                0 <= j < self.nodes()[i].child_list().len() ==> self.bounded(
                    #[trigger] self.nodes()[i].child_list()[j] as int,
                    (h - 1) as nat,
                )
        }
    }

    /// Depth-first search below `i` for the first node equal to `target`;
    /// the result is its distance from `i`. `h` bounds the search depth.
    pub open spec fn search(&self, i: int, target: T, h: nat) -> Option<nat>
        decreases h, 0int, 0int,
    {
        if !(0 <= i < self.nodes().len()) {
            None
        } else if target.eq_spec(&self.nodes()[i].val()) {
            Some(0)
        } else if h == 0 {
            None
        } else {
            self.search_from(self.nodes()[i].child_list(), 0, target, (h - 1) as nat)
        }
    }

    /// The search over the children `cs[j..]`, in order; a hit in child `c`
    /// at distance `d` is a hit at distance `d + 1`.
    pub open spec fn search_from(&self, cs: Seq<usize>, j: int, target: T, h: nat) -> Option<nat>
        decreases h, 1int, cs.len() - j,
    {
        if j < 0 || j >= cs.len() {
            None
        } else {
            match self.search(cs[j] as int, target, h) {
                Some(d) => Some(d + 1),
                None => self.search_from(cs, j + 1, target, h),
            }
        }
    }

    /// The result of `depth_to_target(i, target)`.
    pub open spec fn depth_to_target_spec(&self, i: int, target: T) -> Option<nat> {
        self.search(i, target, self.nodes().len())
    }

    /// `v` equals the value of node `s` and of no node before it.
    pub open spec fn is_first_match(&self, v: T, s: int) -> bool {
        &&& 0 <= s < self.nodes().len()
        &&& self.nodes()[s].val().eq_spec(&v)
        &&& forall|j: int| 0 <= j < s ==> !(#[trigger] self.nodes()[j].val()).eq_spec(&v)
    }

    /// The walk of `distance_between` from node `t` upwards terminates
    /// within `k` steps, with every subtree it searches free of cycles.
    pub open spec fn climb_ok(&self, t: int, target: T, k: nat) -> bool
        decreases k,
    {
        &&& 0 <= t < self.nodes().len()
        &&& match self.parent_of(t) {
            None => true,
            Some(p) => {
                &&& self.bounded(p, self.nodes().len())
                &&& (self.depth_to_target_spec(p, target) is Some || (k > 0 && self.climb_ok(
                    p,
                    target,
                    (k - 1) as nat,
                )))
            },
        }
    }

    /// The distance that walk accumulates: one per parent passed, plus the
    /// depth of the target below the first ancestor that has it.
    pub open spec fn climb(&self, t: int, target: T, k: nat) -> nat
        decreases k,
    {
        match self.parent_of(t) {
            None => 0,
            Some(p) => match self.depth_to_target_spec(p, target) {
                Some(d) => d,
                None => if k == 0 {
                    0
                } else {
                    1 + self.climb(p, target, (k - 1) as nat)
                },
            },
        }
    }

    /// The sum of the numbers of children of the nodes `0..n`.
    pub open spec fn edges_upto(&self, n: int) -> int
        decreases n,
    {
        if n <= 0 {
            0
        } else {
            self.edges_upto(n - 1) + self.nodes()[n - 1].child_list().len()
        }
    }

    pub fn new() -> (res: Self)
        ensures
            res.wf(),
            res.nodes() == Seq::<TreeNode<T>>::empty(),
    {
        Self { arena: Vec::new() }
    }

    pub fn size(&self) -> (res: usize)
        ensures
            res == self.nodes().len(),
    {
        self.arena.len()
    }

    /// Returns the position of the first node whose value equals `value`,
    /// allocating a new parentless node for it when there is none.
    pub fn node(&mut self, value: T) -> (res: usize)
        requires
            old(self).wf(),
        ensures
            final(self).wf(),
            res < final(self).nodes().len(),
            // the arena either stays or grows by the one new node
            (*final(self) == *old(self) && res < old(self).nodes().len()) || ({
                &&& res == old(self).nodes().len()
                &&& final(self).nodes().len() == old(self).nodes().len() + 1
                &&& final(self).nodes().drop_last() == old(self).nodes()
                &&& final(self).nodes()[res as int].val() == value
                &&& final(self).nodes()[res as int].idx() == res
                &&& final(self).nodes()[res as int].parent_link() is None
                &&& final(self).nodes()[res as int].child_list().len() == 0
            }),
            T::obeys_eq_spec() ==> (res < old(self).nodes().len() <==> old(self).is_first_match(
                value,
                res as int,
            )),
            T::obeys_eq_spec() ==> (res == old(self).nodes().len() <==> forall|j: int|
                0 <= j < old(self).nodes().len() ==> !(
                #[trigger] old(self).nodes()[j].val()).eq_spec(&value)),
            T::obeys_eq_spec() ==> (final(self).model(), res as int) == add_value(
                old(self).model(),
                value,
            ),
    {
        let mut i: usize = 0;
        while i < self.arena.len()
            invariant
                0 <= i <= self.arena.len(),
                *self == *old(self),
                self.wf(),
                T::obeys_eq_spec() ==> forall|j: int|
                    0 <= j < i ==> !(#[trigger] self.arena@[j].value).eq_spec(&value),
            decreases self.arena.len() - i,
        {
            if self.arena[i].value == value {
                proof {
                    if T::obeys_eq_spec() {
                        lemma_find_value(self.model(), value, 0, i as int);
                    }
                }
                return self.arena[i].index;
            }
            i += 1;
        }
        let index = self.arena.len();
        self.arena.push(TreeNode::new(index, value));
        proof {
            assert(self.arena@.drop_last() =~= old(self).arena@);
            if T::obeys_eq_spec() {
                lemma_find_value(old(self).model(), value, 0, index as int);
                assert(self.model() =~= old(self).model().push(
                    NodeModel { value, parent: None, children: Seq::empty() },
                ));
            }
        }
        index
    }

    /// Makes `child` a child of `parent`: sets its parent link and appends it
    /// to the parent's children.
    pub fn insert(&mut self, parent: usize, child: usize)
        requires
            old(self).wf(),
            parent < old(self).nodes().len(),
            child < old(self).nodes().len(),
        ensures
            final(self).wf(),
            final(self).nodes().len() == old(self).nodes().len(),
            final(self).nodes()[child as int].parent_link() == Some(parent),
            final(self).nodes()[child as int].val() == old(self).nodes()[child as int].val(),
            final(self).nodes()[parent as int].child_list() == old(self).nodes()[parent as int].child_list().push(child),
            child != parent ==> final(self).nodes()[child as int].child_list() == old(self).nodes()[child as int].child_list(),
            child != parent ==> final(self).nodes()[parent as int].parent_link() == old(self).nodes()[parent as int].parent_link(),
            final(self).nodes()[parent as int].val() == old(self).nodes()[parent as int].val(),
            forall|i: int|
                0 <= i < final(self).nodes().len() && i != parent && i != child ==> final(self).nodes()[i]
                    == old(self).nodes()[i],
            final(self).model() == link(old(self).model(), parent as int, child as int),
    {
        let mut c = self.arena.remove(child);
        c.parent = Some(parent);
        self.arena.insert(child, c);
        let mut p = self.arena.remove(parent);
        p.children.push(child);
        self.arena.insert(parent, p);
        proof {
            lemma_link_model(old(self).nodes(), self.nodes(), parent as int, child as int);
        }
    }

    /// Replaces the value of node `target`.
    pub fn set(&mut self, target: usize, value: T)
        requires
            old(self).wf(),
            target < old(self).nodes().len(),
        ensures
            final(self).wf(),
            final(self).nodes().len() == old(self).nodes().len(),
            final(self).nodes()[target as int].val() == value,
            final(self).nodes()[target as int].idx() == old(self).nodes()[target as int].idx(),
            final(self).nodes()[target as int].parent_link() == old(self).nodes()[target as int].parent_link(),
            final(self).nodes()[target as int].child_list() == old(self).nodes()[target as int].child_list(),
            forall|i: int|
                0 <= i < final(self).nodes().len() && i != target ==> final(self).nodes()[i] == old(self).nodes()[i],
    {
        let mut n = self.arena.remove(target);
        n.value = value;
        self.arena.insert(target, n);
    }

    pub fn get(&self, index: usize) -> (res: &TreeNode<T>)
        requires
            index < self.nodes().len(),
        ensures
            *res == self.nodes()[index as int],
    {
        &self.arena[index]
    }

    /// The positions of all nodes without a parent, in increasing order.
    pub fn root_children(&self) -> (res: Vec<usize>)
        requires
            self.wf(),
        ensures
            forall|k: int|
                0 <= k < res@.len() ==> (#[trigger] res@[k]) < self.nodes().len()
                    && self.parent_of(res@[k] as int) is None,
            forall|k1: int, k2: int| 0 <= k1 < k2 < res@.len() ==> res@[k1] < res@[k2],
            forall|i: int|
                0 <= i < self.nodes().len() && self.parent_of(i) is None ==> res@.contains(
                    i as usize,
                ),
    {
        let mut res: Vec<usize> = Vec::new();
        let mut i: usize = 0;
        while i < self.arena.len()
            invariant
                0 <= i <= self.arena.len(),
                self.wf(),
                forall|k: int|
                    0 <= k < res@.len() ==> (#[trigger] res@[k]) < i && self.parent_of(
                        res@[k] as int,
                    ) is None,
                forall|k1: int, k2: int| 0 <= k1 < k2 < res@.len() ==> res@[k1] < res@[k2],
                forall|j: int|
                    0 <= j < i && self.parent_of(j) is None ==> res@.contains(j as usize),
            decreases self.arena.len() - i,
        {
            if self.arena[i].parent.is_none() {
                proof {
                    assert(self.arena@[i as int].index == i);
                }
                let ghost old_res = res@;
                res.push(self.arena[i].index);
                proof {
                    assert forall|j: int|
                        0 <= j < i + 1 && self.parent_of(j) is None implies res@.contains(
                        j as usize,
                    ) by {
                        if j < i {
                            let k = choose|k: int| 0 <= k < old_res.len() && old_res[k] == j;
                            assert(res@[k] == j);
                        } else {
                            assert(res@[res@.len() - 1] == j);
                        }
                    }
                }
            }
            i += 1;
        }
        res
    }

    /// The total number of child links in the arena.
    pub fn edges(&self) -> (res: usize)
        requires
            self.edges_upto(self.nodes().len() as int) <= usize::MAX,
        ensures
            res == self.edges_upto(self.nodes().len() as int),
    {
        let mut acc: usize = 0;
        let mut i: usize = 0;
        while i < self.arena.len()
            invariant
                0 <= i <= self.arena.len(),
                acc == self.edges_upto(i as int),
                self.edges_upto(self.nodes().len() as int) <= usize::MAX,
            decreases self.arena.len() - i,
        {
            proof {
                self.lemma_edges_monotone(i as int + 1, self.nodes().len() as int);
            }
            acc = acc + self.arena[i].children.len();
            i += 1;
        }
        acc
    }

    proof fn lemma_edges_monotone(&self, a: int, b: int)
        requires
            0 <= a <= b <= self.nodes().len(),
        ensures
            self.edges_upto(a) <= self.edges_upto(b),
        decreases b - a,
    {
        if a < b {
            self.lemma_edges_monotone(a, b - 1);
        }
    }

    /// The number of parent links between `index` and the root above it.
    pub fn depth(&self, index: usize) -> (res: usize)
        requires
            self.wf(),
            index < self.nodes().len(),
            self.reaches_root(index as int),
        ensures
            self.is_root_at(index as int, res as nat),
    {
        let ghost k = choose|k: nat| k < self.nodes().len() && self.is_root_at(index as int, k);
        self.depth_rec(index, Ghost(k))
    }

    fn depth_rec(&self, index: usize, Ghost(k): Ghost<nat>) -> (res: usize)
        requires
            self.wf(),
            index < self.nodes().len(),
            k < self.nodes().len(),
            self.is_root_at(index as int, k),
        ensures
            res == k,
        decreases k,
    {
        let total = self.arena.len();
        match self.arena[index].parent {
            Some(id) => {
                proof {
                    if k == 0 {
                        assert(self.parent_of(index as int) is None);
                    }
                }
                let d = self.depth_rec(id, Ghost((k - 1) as nat));
                1 + d
            },
            None => {
                proof {
                    if k > 0 {
                        assert(self.nth_ancestor(index as int, k) is None);
                    }
                }
                0
            },
        }
    }

    proof fn lemma_search_bounded_result(&self, i: int, target: T, h: nat)
        requires
            self.bounded(i, h),
        ensures
            self.search(i, target, h) matches Some(d) ==> d <= h,
        decreases h, 0int, 0int,
    {
        if h > 0 && !target.eq_spec(&self.nodes()[i].val()) {
            self.lemma_search_from_bounded_result(
                self.nodes()[i].child_list(),
                0,
                target,
                (h - 1) as nat,
                i,
            );
        }
    }

    proof fn lemma_search_from_bounded_result(
        &self,
        cs: Seq<usize>,
        j: int,
        target: T,
        h: nat,
        parent: int,
    )
        requires
            0 <= parent < self.nodes().len(),
            cs == self.nodes()[parent].child_list(),
            forall|m: int| 0 <= m < cs.len() ==> self.bounded(#[trigger] cs[m] as int, h),
        ensures
            self.search_from(cs, j, target, h) matches Some(d) ==> d <= h + 1,
        decreases h, 1int, cs.len() - j,
    {
        if 0 <= j < cs.len() {
            self.lemma_search_bounded_result(cs[j] as int, target, h);
            self.lemma_search_from_bounded_result(cs, j + 1, target, h, parent);
        }
    }

    /// How far below `index` the first node equal to `target` lies in a
    /// depth-first search, if there is one.
    pub fn depth_to_target(&self, index: usize, target: &T) -> (res: Option<usize>)
        requires
            self.wf(),
            self.bounded(index as int, self.nodes().len()),
        ensures
            T::obeys_eq_spec() ==> match self.depth_to_target_spec(index as int, *target) {
                Some(d) => res == Some(d as usize),
                None => res is None,
            },
    {
        proof {
            self.lemma_search_bounded_result(index as int, *target, self.nodes().len());
        }
        self.depth_to_target_rec(index, target, Ghost(self.nodes().len()))
    }

    fn depth_to_target_rec(&self, index: usize, target: &T, Ghost(h): Ghost<nat>) -> (res: Option<usize>)
        requires
            self.wf(),
            self.bounded(index as int, h),
            h <= self.nodes().len(),
        ensures
            T::obeys_eq_spec() ==> match self.search(index as int, *target, h) {
                Some(d) => res == Some(d as usize),
                None => res is None,
            },
            res matches Some(d) ==> d <= h,
        decreases h,
    {
        if target.eq(&self.arena[index].value) {
            return Some(0);
        }
        let total = self.arena.len();
        let n = self.arena[index].children.len();
        if n == 0 {
            proof {
                if h > 0 {
                    assert(self.search_from(self.nodes()[index as int].child_list(), 0, *target, (h - 1) as nat) is None);
                }
            }
            return None;
        }
        let ghost cs = self.nodes()[index as int].child_list();
        let mut j: usize = 0;
        while j < n
            invariant
                0 <= j <= n,
                self.wf(),
                total == self.nodes().len(),
                h > 0,
                n == cs.len(),
                cs == self.nodes()[index as int].child_list(),
                self.bounded(index as int, h),
                h <= self.nodes().len(),
                T::obeys_eq_spec() ==> !target.eq_spec(&self.nodes()[index as int].val()),
                T::obeys_eq_spec() ==> self.search_from(cs, 0, *target, (h - 1) as nat)
                    == self.search_from(cs, j as int, *target, (h - 1) as nat),
            decreases n - j,
        {
            let child = self.arena[index].children[j];
            proof {
                assert(self.bounded(cs[j as int] as int, (h - 1) as nat));
            }
            if let Some(depth) = self.depth_to_target_rec(child, target, Ghost((h - 1) as nat)) {
                proof {
                    self.lemma_search_bounded_result(child as int, *target, (h - 1) as nat);
                    if T::obeys_eq_spec() {
                        assert(self.search_from(cs, j as int, *target, (h - 1) as nat) == Some(
                            (depth + 1) as nat,
                        ));
                    }
                }
                return Some(depth + 1);
            }
            j += 1;
        }
        None
    }

    /// The number of steps between the node holding `from` and the node
    /// holding `target`: climbing from `from` to the first ancestor below
    /// which `target` lies, then down to it, less one.
    pub fn distance_between(&mut self, from: T, target: T) -> (res: usize)
        requires
            old(self).wf(),
            T::obeys_eq_spec(),
            exists|s: int| old(self).is_first_match(from, s),
            forall|s: int|
                #![trigger old(self).is_first_match(from, s)]
                old(self).is_first_match(from, s) ==> {
                    &&& old(self).climb_ok(s, target, old(self).nodes().len())
                    &&& old(self).climb(s, target, old(self).nodes().len()) >= 1
                    &&& old(self).climb(s, target, old(self).nodes().len()) <= usize::MAX
                },
        ensures
            final(self).wf(),
            *final(self) == *old(self),
            forall|s: int|
                #![trigger old(self).is_first_match(from, s)]
                old(self).is_first_match(from, s) ==> res + 1 == old(self).climb(
                    s,
                    target,
                    old(self).nodes().len(),
                ),
    {
        let ghost s0 = choose|s: int| old(self).is_first_match(from, s);
        let start_node = self.node(from);
        proof {
                        assert(start_node == s0) by {
                if start_node < s0 {
                    assert(!(self.nodes()[start_node as int].val()).eq_spec(&from));
                } else if start_node > s0 {
                    assert(!(self.nodes()[s0].val()).eq_spec(&from));
                }
            }
        }
        let ghost len = self.nodes().len();
        let mut distance: usize = 0;
        let mut traversal: usize = start_node;
        let ghost mut k: nat = len;
        loop
            invariant
                *self == *old(self),
                self.wf(),
                len == self.nodes().len(),
                T::obeys_eq_spec(),
                traversal < len,
                k <= len,
                self.climb_ok(traversal as int, target, k),
                distance + self.climb(traversal as int, target, k) == self.climb(s0, target, len),
                self.climb(s0, target, len) >= 1,
                self.climb(s0, target, len) <= usize::MAX,
                old(self).is_first_match(from, s0),
                distance <= len - k,
            decreases k,
        {
            match self.arena[traversal].parent {
                Some(inner) => {
                    match self.depth_to_target(inner, &target) {
                        Some(depth) => {
                            proof {
                                self.lemma_search_bounded_result(inner as int, target, len);
                            }
                            return distance + depth - 1;
                        },
                        None => {
                            traversal = inner;
                            distance = distance + 1;
                            proof {
                                k = (k - 1) as nat;
                            }
                        },
                    }
                },
                None => {
                    return distance - 1;
                },
            }
        }
    }
}

} // verus!

verus! {

/// The first position at or after `j` whose string value has the
/// characters `v`.
pub open spec fn find_name(m: Seq<NodeModel<String>>, v: Seq<char>, j: int) -> Option<int>
    decreases m.len() - j,
{
    if j < 0 || j >= m.len() {
        None
    } else if m[j].value@ == v {
        Some(j)
    } else {
        find_name(m, v, j + 1)
    }
}

/// What `node_named(v)` makes of the nodes `m`: the position of the first
/// node whose value has the characters of `v`, or a new parentless leaf for
/// `v` at the end.
pub open spec fn add_name(m: Seq<NodeModel<String>>, v: String) -> (Seq<NodeModel<String>>, int) {
    match find_name(m, v@, 0) {
        Some(i) => (m, i),
        None => (m.push(NodeModel { value: v, parent: None, children: Seq::empty() }), m.len() as int),
    }
}

proof fn lemma_find_name(m: Seq<NodeModel<String>>, v: Seq<char>, j: int, i: int)
    requires
        0 <= j <= i <= m.len(),
        forall|k: int| j <= k < i ==> (#[trigger] m[k].value)@ != v,
    ensures
        i < m.len() && m[i].value@ == v ==> find_name(m, v, j) == Some(i),
        i == m.len() ==> find_name(m, v, j) is None,
    decreases i - j,
{
    if j < i {
        lemma_find_name(m, v, j + 1, i);
    }
}

impl ArenaTree<String> {
    /// `v` is the value, by its characters, of node `s` and of no node
    /// before it.
    pub open spec fn is_first_name(&self, v: Seq<char>, s: int) -> bool {
        &&& 0 <= s < self.nodes().len()
        &&& self.nodes()[s].val()@ == v
        &&& forall|j: int| 0 <= j < s ==> (#[trigger] self.nodes()[j].val())@ != v
    }

    /// Depth-first search below `i` for the first node whose value has the
    /// characters `target`; the result is its distance from `i`. `h` bounds
    /// the search depth.
    pub open spec fn search_name(&self, i: int, target: Seq<char>, h: nat) -> Option<nat>
        decreases h, 0int, 0int,
    {
        if !(0 <= i < self.nodes().len()) {
            None
        } else if self.nodes()[i].val()@ == target {
            Some(0)
        } else if h == 0 {
            None
        } else {
            self.search_name_from(self.nodes()[i].child_list(), 0, target, (h - 1) as nat)
        }
    }

    /// The search over the children `cs[j..]`, in order.
    pub open spec fn search_name_from(&self, cs: Seq<usize>, j: int, target: Seq<char>, h: nat) -> Option<nat>
        decreases h, 1int, cs.len() - j,
    {
        if j < 0 || j >= cs.len() {
            None
        } else {
            match self.search_name(cs[j] as int, target, h) {
                Some(d) => Some(d + 1),
                None => self.search_name_from(cs, j + 1, target, h),
            }
        }
    }

    /// The result of `depth_to_name(i, target)`.
    pub open spec fn depth_to_name_spec(&self, i: int, target: Seq<char>) -> Option<nat> {
        self.search_name(i, target, self.nodes().len())
    }

    /// The walk of `distance_between_names` from node `t` upwards ends
    /// within `k` steps, with every subtree it searches free of cycles.
    pub open spec fn climb_name_ok(&self, t: int, target: Seq<char>, k: nat) -> bool
        decreases k,
    {
        &&& 0 <= t < self.nodes().len()
        &&& match self.parent_of(t) {
            None => true,
            Some(p) => {
                &&& self.bounded(p, self.nodes().len())
                &&& (self.depth_to_name_spec(p, target) is Some || (k > 0 && self.climb_name_ok(
                    p,
                    target,
                    (k - 1) as nat,
                )))
            },
        }
    }

    /// The distance that walk accumulates: one per parent passed, plus the
    /// depth of the target below the first ancestor that has it.
    pub open spec fn climb_name(&self, t: int, target: Seq<char>, k: nat) -> nat
        decreases k,
    {
        match self.parent_of(t) {
            None => 0,
            Some(p) => match self.depth_to_name_spec(p, target) {
                Some(d) => d,
                None => if k == 0 {
                    0
                } else {
                    1 + self.climb_name(p, target, (k - 1) as nat)
                },
            },
        }
    }

    /// Returns the position of the first node whose value has the
    /// characters of `value`, allocating a new parentless node for it when
    /// there is none.
    pub fn node_named(&mut self, value: String) -> (res: usize)
        requires
            old(self).wf(),
        ensures
            final(self).wf(),
            (final(self).model(), res as int) == add_name(old(self).model(), value),
            res < old(self).nodes().len() ==> *final(self) == *old(self) && old(self).is_first_name(
                value@,
                res as int,
            ),
            res == old(self).nodes().len() ==> final(self).nodes()[res as int].idx() == res,
    {
        let ghost m = self.model();
        let mut i: usize = 0;
        while i < self.arena.len()
            invariant
                0 <= i <= self.arena.len(),
                *self == *old(self),
                self.wf(),
                m == self.model(),
                forall|j: int| 0 <= j < i ==> (#[trigger] self.arena@[j].value)@ != value@,
            decreases self.arena.len() - i,
        {
            if str_eq(self.arena[i].value.as_str(), value.as_str()) {
                proof {
                    assert forall|k: int| 0 <= k < i implies (#[trigger] m[k].value)@ != value@ by {
                        assert(m[k].value == self.arena@[k].value);
                    }
                    assert(m[i as int].value == self.arena@[i as int].value);
                    lemma_find_name(m, value@, 0, i as int);
                    assert forall|j: int| 0 <= j < i implies (#[trigger] self.nodes()[j].val())@ != value@ by {
                        assert(self.nodes()[j].val() == self.arena@[j].value);
                    }
                }
                return self.arena[i].index;
            }
            i += 1;
        }
        let index = self.arena.len();
        proof {
            assert forall|k: int| 0 <= k < index implies (#[trigger] m[k].value)@ != value@ by {
                assert(m[k].value == self.arena@[k].value);
            }
            lemma_find_name(m, value@, 0, index as int);
        }
        self.arena.push(TreeNode::new(index, value));
        proof {
            assert(self.model() =~= m.push(NodeModel { value, parent: None, children: Seq::empty() }));
        }
        index
    }

    proof fn lemma_search_name_bounded(&self, i: int, target: Seq<char>, h: nat)
        requires
            self.bounded(i, h),
        ensures
            self.search_name(i, target, h) matches Some(d) ==> d <= h,
        decreases h, 0int, 0int,
    {
        if h > 0 && self.nodes()[i].val()@ != target {
            self.lemma_search_name_from_bounded(self.nodes()[i].child_list(), 0, target, (h - 1) as nat, i);
        }
    }

    proof fn lemma_search_name_from_bounded(
        &self,
        cs: Seq<usize>,
        j: int,
        target: Seq<char>,
        h: nat,
        parent: int,
    )
        requires
            0 <= parent < self.nodes().len(),
            cs == self.nodes()[parent].child_list(),
            forall|m: int| 0 <= m < cs.len() ==> self.bounded(#[trigger] cs[m] as int, h),
        ensures
            self.search_name_from(cs, j, target, h) matches Some(d) ==> d <= h + 1,
        decreases h, 1int, cs.len() - j,
    {
        if 0 <= j < cs.len() {
            self.lemma_search_name_bounded(cs[j] as int, target, h);
            self.lemma_search_name_from_bounded(cs, j + 1, target, h, parent);
        }
    }

    /// How far below `index` the first node whose value is `target` lies in
    /// a depth-first search, if there is one.
    pub fn depth_to_name(&self, index: usize, target: &str) -> (res: Option<usize>)
        requires
            self.wf(),
            self.bounded(index as int, self.nodes().len()),
        ensures
            match self.depth_to_name_spec(index as int, target@) {
                Some(d) => res == Some(d as usize),
                None => res is None,
            },
    {
        self.depth_to_name_rec(index, target, Ghost(self.nodes().len()))
    }

    fn depth_to_name_rec(&self, index: usize, target: &str, Ghost(h): Ghost<nat>) -> (res: Option<usize>)
        requires
            self.wf(),
            self.bounded(index as int, h),
            h <= self.nodes().len(),
        ensures
            match self.search_name(index as int, target@, h) {
                Some(d) => res == Some(d as usize),
                None => res is None,
            },
            res matches Some(d) ==> d <= h,
        decreases h,
    {
        if str_eq(self.arena[index].value.as_str(), target) {
            return Some(0);
        }
        let n = self.arena[index].children.len();
        if n == 0 {
            proof {
                if h > 0 {
                    assert(self.search_name_from(self.nodes()[index as int].child_list(), 0, target@, (h - 1) as nat) is None);
                }
            }
            return None;
        }
        let total = self.arena.len();
        let ghost cs = self.nodes()[index as int].child_list();
        let mut j: usize = 0;
        while j < n
            invariant
                0 <= j <= n,
                self.wf(),
                total == self.nodes().len(),
                h > 0,
                n == cs.len(),
                cs == self.nodes()[index as int].child_list(),
                self.bounded(index as int, h),
                h <= self.nodes().len(),
                self.nodes()[index as int].val()@ != target@,
                self.search_name_from(cs, 0, target@, (h - 1) as nat) == self.search_name_from(
                    cs,
                    j as int,
                    target@,
                    (h - 1) as nat,
                ),
            decreases n - j,
        {
            let child = self.arena[index].children[j];
            proof {
                assert(self.bounded(cs[j as int] as int, (h - 1) as nat));
            }
            proof {
                assert(child == cs[j as int]);
            }
            if let Some(depth) = self.depth_to_name_rec(child, target, Ghost((h - 1) as nat)) {
                proof {
                    self.lemma_search_name_bounded(child as int, target@, (h - 1) as nat);
                    assert(self.search_name_from(cs, j as int, target@, (h - 1) as nat) == Some(
                        (depth + 1) as nat,
                    ));
                }
                return Some(depth + 1);
            }
            j += 1;
        }
        None
    }

    /// The number of steps between the node named `from` and the node named
    /// `target`: climbing from `from` to the first ancestor below which
    /// `target` lies, then down to it, less one.
    pub fn distance_between_names(&mut self, from: &str, target: &str) -> (res: usize)
        requires
            old(self).wf(),
            exists|s: int| old(self).is_first_name(from@, s),
            forall|s: int|
                #![trigger old(self).is_first_name(from@, s)]
                old(self).is_first_name(from@, s) ==> {
                    &&& old(self).climb_name_ok(s, target@, old(self).nodes().len())
                    &&& old(self).climb_name(s, target@, old(self).nodes().len()) >= 1
                    &&& old(self).climb_name(s, target@, old(self).nodes().len()) <= usize::MAX
                },
        ensures
            final(self).wf(),
            *final(self) == *old(self),
            forall|s: int|
                #![trigger old(self).is_first_name(from@, s)]
                old(self).is_first_name(from@, s) ==> res + 1 == old(self).climb_name(
                    s,
                    target@,
                    old(self).nodes().len(),
                ),
    {
        let ghost s0 = choose|s: int| old(self).is_first_name(from@, s);
        let start_node = self.node_named(owned(from));
        proof {
            assert forall|k: int| 0 <= k < s0 implies (#[trigger] old(self).model()[k].value)@ != from@ by {
                assert(old(self).model()[k].value == old(self).nodes()[k].val());
            }
            assert(old(self).model()[s0].value == old(self).nodes()[s0].val());
            lemma_find_name(old(self).model(), from@, 0, s0);
            assert(start_node == s0);
        }
        let ghost len = self.nodes().len();
        let mut distance: usize = 0;
        let mut traversal: usize = start_node;
        let ghost mut k: nat = len;
        loop
            invariant
                *self == *old(self),
                self.wf(),
                len == self.nodes().len(),
                traversal < len,
                k <= len,
                self.climb_name_ok(traversal as int, target@, k),
                distance + self.climb_name(traversal as int, target@, k) == self.climb_name(s0, target@, len),
                self.climb_name(s0, target@, len) >= 1,
                self.climb_name(s0, target@, len) <= usize::MAX,
                old(self).is_first_name(from@, s0),
                distance <= len - k,
            decreases k,
        {
            match self.arena[traversal].parent {
                Some(inner) => {
                    match self.depth_to_name(inner, target) {
                        Some(depth) => {
                            proof {
                                self.lemma_search_name_bounded(inner as int, target@, len);
                            }
                            return distance + depth - 1;
                        },
                        None => {
                            traversal = inner;
                            distance = distance + 1;
                            proof {
                                k = (k - 1) as nat;
                            }
                        },
                    }
                },
                None => {
                    return distance - 1;
                },
            }
        }
    }
}

} // verus!
