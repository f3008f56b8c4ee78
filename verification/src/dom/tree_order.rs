//! Ancestors, children and tree order: the relations of the DOM standard
//! between two nodes of one arena.
use vstd::prelude::*;
use super::arena::NodeRef;
use super::node::{
    ancestor_in, has_root, index_of, lemma_ancestor_step, lemma_root_unique, lemma_root_unique_at,
    parent_in, root_at, root_of, tree_wf, Arena, Node,
};

verus! {

/// `a` is an ancestor of `b`: one or more parent links lead from `b` to `a`.
pub open spec fn is_ancestor_spec(ns: Seq<Node>, a: int, b: int) -> bool {
    exists|k: nat| k >= 1 && #[trigger] ancestor_in(ns, b, k) == Some(a)
}

/// `x` and `y` are children of one parent, `x` before `y`.
pub open spec fn earlier_sibling(ns: Seq<Node>, x: int, y: int) -> bool {
    &&& parent_in(ns, x) is Some
    &&& parent_in(ns, x) == parent_in(ns, y)
    &&& index_of(ns, x) < index_of(ns, y)
}

/// `a` comes before `b` in tree order (depth first, parents before their
/// children): `a` is an ancestor of `b`, or an inclusive ancestor of `a` is
/// an earlier sibling of an inclusive ancestor of `b`. Two such nodes are
/// always in the same tree.
pub open spec fn precedes_spec(ns: Seq<Node>, a: int, b: int) -> bool {
    ||| is_ancestor_spec(ns, a, b)
    ||| exists|ka: nat, kb: nat|
        #[trigger] ancestor_in(ns, a, ka) is Some && #[trigger] ancestor_in(ns, b, kb) is Some
            && earlier_sibling(ns, ancestor_in(ns, a, ka)->0, ancestor_in(ns, b, kb)->0)
}

/// Going up `k1` and then `k2` links is going up `k1 + k2` links.
pub proof fn lemma_ancestor_add(ns: Seq<Node>, i: int, k1: nat, k2: nat)
    ensures
        ancestor_in(ns, i, k1 + k2) == match ancestor_in(ns, i, k1) {
            Some(x) => ancestor_in(ns, x, k2),
            None => None,
        },
    decreases k1,
{
    if k1 > 0 {
        match parent_in(ns, i) {
            Some(p) => {
                lemma_ancestor_add(ns, p, (k1 - 1) as nat, k2);
                assert((k1 + k2 - 1) as nat == ((k1 - 1) as nat + k2) as nat);
            },
            None => {},
        }
    }
}

/// Below a root at distance `d`, the node `k <= d` links up exists, sits
/// in the store, and has its root at distance `d - k`; further up there is
/// nothing.
pub proof fn lemma_ancestor_depth(ns: Seq<Node>, i: int, d: nat, k: nat)
    requires
        tree_wf(ns),
        0 <= i < ns.len(),
        root_at(ns, i, d),
    ensures
        k <= d ==> (ancestor_in(ns, i, k) matches Some(x) && 0 <= x < ns.len() && root_at(
            ns,
            x,
            (d - k) as nat,
        )),
        k > d ==> ancestor_in(ns, i, k) is None,
    decreases k,
{
    if k > 0 {
        lemma_ancestor_depth(ns, i, d, (k - 1) as nat);
        lemma_ancestor_step(ns, i, (k - 1) as nat);
        if k <= d {
            let y = ancestor_in(ns, i, (k - 1) as nat)->0;
            assert(root_at(ns, y, (d - k + 1) as nat));
            assert(super::node::node_ok(ns, y));
            assert(parent_in(ns, y) is Some);
            let x = parent_in(ns, y)->0;
            assert(ancestor_in(ns, y, (d - k + 1) as nat) == ancestor_in(ns, x, (d - k) as nat));
        } else if k == d + 1 {
            lemma_ancestor_depth(ns, i, d, d);
        }
    }
}

/// The distance from a node to its root is unique.
pub proof fn lemma_depth_unique(ns: Seq<Node>, i: int, d1: nat, d2: nat)
    requires
        root_at(ns, i, d1),
        root_at(ns, i, d2),
    ensures
        d1 == d2,
{
    lemma_root_unique_at(ns, i, d1, d2);
}

/// Where two chains meet at some height, they meet at every height above.
pub proof fn lemma_agree_above(ns: Seq<Node>, a: int, da: nat, b: int, db: nat, t: nat, t2: nat)
    requires
        t <= da,
        t <= db,
        t2 <= t,
        ancestor_in(ns, a, (da - t) as nat) is Some,
        ancestor_in(ns, a, (da - t) as nat) == ancestor_in(ns, b, (db - t) as nat),
    ensures
        ancestor_in(ns, a, (da - t2) as nat) == ancestor_in(ns, b, (db - t2) as nat),
{
    let x = ancestor_in(ns, a, (da - t) as nat)->0;
    lemma_ancestor_add(ns, a, (da - t) as nat, (t - t2) as nat);
    lemma_ancestor_add(ns, b, (db - t) as nat, (t - t2) as nat);
    assert((da - t2) as nat == ((da - t) as nat + (t - t2) as nat) as nat);
    assert((db - t2) as nat == ((db - t) as nat + (t - t2) as nat) as nat);
}

/// An ancestor `k` links up from a node of depth `db` has depth `db - k`.
pub proof fn lemma_ancestor_at_depth(ns: Seq<Node>, a: int, da: nat, b: int, db: nat, k: nat)
    requires
        tree_wf(ns),
        0 <= b < ns.len(),
        root_at(ns, a, da),
        root_at(ns, b, db),
        ancestor_in(ns, b, k) == Some(a),
    ensures
        k <= db,
        da == db - k,
{
    lemma_ancestor_depth(ns, b, db, k);
    if k <= db {
        lemma_depth_unique(ns, a, da, (db - k) as nat);
    }
}

/// Two earlier-sibling ancestors of `a` and `b` sit at one depth, and
/// their common parent is an ancestor of both.
pub proof fn lemma_sibling_witness(
    ns: Seq<Node>,
    a: int,
    da: nat,
    b: int,
    db: nat,
    ka: nat,
    kb: nat,
)
    requires
        tree_wf(ns),
        0 <= a < ns.len(),
        0 <= b < ns.len(),
        root_at(ns, a, da),
        root_at(ns, b, db),
        ancestor_in(ns, a, ka) is Some,
        ancestor_in(ns, b, kb) is Some,
        earlier_sibling(ns, ancestor_in(ns, a, ka)->0, ancestor_in(ns, b, kb)->0),
    ensures
        ka < da,
        kb < db,
        da - ka == db - kb,
        ancestor_in(ns, a, (ka + 1) as nat) is Some,
        ancestor_in(ns, a, (ka + 1) as nat) == ancestor_in(ns, b, (kb + 1) as nat),
        ancestor_in(ns, a, ka) != ancestor_in(ns, b, kb),
{
    let x = ancestor_in(ns, a, ka)->0;
    let y = ancestor_in(ns, b, kb)->0;
    lemma_ancestor_depth(ns, a, da, ka);
    lemma_ancestor_depth(ns, b, db, kb);
    let p = parent_in(ns, x)->0;
    assert(ka < da) by {
        if ka == da {
            assert(root_at(ns, x, 0));
        }
    }
    assert(kb < db) by {
        if kb == db {
            assert(root_at(ns, y, 0));
        }
    }
    lemma_ancestor_depth(ns, x, (da - ka) as nat, 1);
    lemma_ancestor_depth(ns, y, (db - kb) as nat, 1);
    assert(ancestor_in(ns, x, 1) == Some(p)) by {
        reveal_with_fuel(ancestor_in, 2);
    }
    assert(ancestor_in(ns, y, 1) == Some(p)) by {
        reveal_with_fuel(ancestor_in, 2);
    }
    lemma_depth_unique(ns, p, (da - ka - 1) as nat, (db - kb - 1) as nat);
    lemma_ancestor_add(ns, a, ka, 1);
    lemma_ancestor_add(ns, b, kb, 1);
}

/// Where the chains of `a` and `b` differ at every height up to `m`
/// (the smaller depth), `a` does not come before `b`.
pub proof fn lemma_no_meeting(ns: Seq<Node>, a: int, da: nat, b: int, db: nat, m: nat)
    requires
        tree_wf(ns),
        0 <= a < ns.len(),
        0 <= b < ns.len(),
        root_at(ns, a, da),
        root_at(ns, b, db),
        m <= da,
        m <= db,
        m == da || m == db,
        forall|t: nat|
            0 <= t <= m ==> #[trigger] ancestor_in(ns, a, (da - t) as nat) != ancestor_in(
                ns,
                b,
                (db - t) as nat,
            ),
    ensures
        !precedes_spec(ns, a, b),
{
    if is_ancestor_spec(ns, a, b) {
        let k = choose|k: nat| k >= 1 && #[trigger] ancestor_in(ns, b, k) == Some(a);
        lemma_ancestor_at_depth(ns, a, da, b, db, k);
        assert(ancestor_in(ns, a, (da - da) as nat) == Some(a));
        assert((db - da) as nat == k);
    }
    if exists|ka: nat, kb: nat|
        #[trigger] ancestor_in(ns, a, ka) is Some && #[trigger] ancestor_in(ns, b, kb) is Some
            && earlier_sibling(ns, ancestor_in(ns, a, ka)->0, ancestor_in(ns, b, kb)->0) {
        let (ka, kb) = choose|ka: nat, kb: nat|
            #[trigger] ancestor_in(ns, a, ka) is Some && #[trigger] ancestor_in(ns, b, kb) is Some
                && earlier_sibling(ns, ancestor_in(ns, a, ka)->0, ancestor_in(ns, b, kb)->0);
        lemma_sibling_witness(ns, a, da, b, db, ka, kb);
        let t = (da - ka - 1) as nat;
        assert((da - t) as nat == ka + 1);
        assert((db - t) as nat == kb + 1);
    }
}

/// Where the chains of `a` and `b` differ at every height from `d` to `m`
/// (the smaller depth), and the nodes at height `d` are siblings, `a`
/// comes before `b` only through those two siblings.
pub proof fn lemma_last_meeting(ns: Seq<Node>, a: int, da: nat, b: int, db: nat, m: nat, d: nat)
    requires
        tree_wf(ns),
        0 <= a < ns.len(),
        0 <= b < ns.len(),
        root_at(ns, a, da),
        root_at(ns, b, db),
        m <= da,
        m <= db,
        m == da || m == db,
        1 <= d <= m,
        ancestor_in(ns, a, (da - d + 1) as nat) is Some,
        ancestor_in(ns, a, (da - d + 1) as nat) == ancestor_in(ns, b, (db - d + 1) as nat),
        forall|t: nat|
            d <= t <= m ==> #[trigger] ancestor_in(ns, a, (da - t) as nat) != ancestor_in(
                ns,
                b,
                (db - t) as nat,
            ),
        precedes_spec(ns, a, b),
    ensures
        ancestor_in(ns, a, (da - d) as nat) is Some,
        ancestor_in(ns, b, (db - d) as nat) is Some,
        earlier_sibling(ns, ancestor_in(ns, a, (da - d) as nat)->0, ancestor_in(ns, b, (db - d) as nat)->0),
{
    if is_ancestor_spec(ns, a, b) {
        let k = choose|k: nat| k >= 1 && #[trigger] ancestor_in(ns, b, k) == Some(a);
        lemma_ancestor_at_depth(ns, a, da, b, db, k);
        assert(ancestor_in(ns, a, (da - da) as nat) == Some(a));
        assert((db - da) as nat == k);
        assert(false);
    }
    let (ka, kb) = choose|ka: nat, kb: nat|
        #[trigger] ancestor_in(ns, a, ka) is Some && #[trigger] ancestor_in(ns, b, kb) is Some
            && earlier_sibling(ns, ancestor_in(ns, a, ka)->0, ancestor_in(ns, b, kb)->0);
    lemma_sibling_witness(ns, a, da, b, db, ka, kb);
    let e = (da - ka) as nat;
    if e < d {
        lemma_agree_above(ns, a, da, b, db, (d - 1) as nat, e);
        assert((da - (d - 1)) as nat == (da - d + 1) as nat);
        assert((db - (d - 1)) as nat == (db - d + 1) as nat);
        assert((da - e) as nat == ka);
        assert((db - e) as nat == kb);
        assert(false);
    } else if e > d {
        let t = (e - 1) as nat;
        assert((da - t) as nat == ka + 1);
        assert((db - t) as nat == kb + 1);
        assert(false);
    }
    assert(ka == (da - d) as nat);
    assert(kb == (db - d) as nat);
}

/// Tree order is strict: no node comes before itself, and of two nodes at
/// most one comes before the other.
pub proof fn lemma_tree_order_strict(ns: Seq<Node>, a: int, b: int)
    requires
        tree_wf(ns),
        0 <= a < ns.len(),
        0 <= b < ns.len(),
        has_root(ns, a),
        has_root(ns, b),
    ensures
        !(precedes_spec(ns, a, b) && precedes_spec(ns, b, a)),
        !precedes_spec(ns, a, a),
{
    let da = choose|k: nat| k < ns.len() && root_at(ns, a, k);
    let db = choose|k: nat| k < ns.len() && root_at(ns, b, k);
    lemma_precedes_one_way(ns, a, da, b, db);
    lemma_precedes_one_way(ns, a, da, a, da);
}

/// The heights at which a comparison of `a` and `b` in tree order is
/// decided.
proof fn lemma_precedes_one_way(ns: Seq<Node>, a: int, da: nat, b: int, db: nat)
    requires
        tree_wf(ns),
        0 <= a < ns.len(),
        0 <= b < ns.len(),
        root_at(ns, a, da),
        root_at(ns, b, db),
    ensures
        !(precedes_spec(ns, a, b) && precedes_spec(ns, b, a)),
{
    if precedes_spec(ns, a, b) && precedes_spec(ns, b, a) {
        if is_ancestor_spec(ns, a, b) {
            let k = choose|k: nat| k >= 1 && #[trigger] ancestor_in(ns, b, k) == Some(a);
            lemma_ancestor_at_depth(ns, a, da, b, db, k);
            assert(ancestor_in(ns, a, (da - da) as nat) == Some(a));
            assert((db - da) as nat == k);
            lemma_earlier_meets_later(ns, b, db, a, da, da);
            if is_ancestor_spec(ns, b, a) {
                let k2 = choose|k: nat| k >= 1 && #[trigger] ancestor_in(ns, a, k) == Some(b);
                lemma_ancestor_at_depth(ns, b, db, a, da, k2);
            }
            assert(false);
        } else {
            let (ka, kb) = choose|ka: nat, kb: nat|
                #[trigger] ancestor_in(ns, a, ka) is Some && #[trigger] ancestor_in(ns, b, kb) is Some
                    && earlier_sibling(ns, ancestor_in(ns, a, ka)->0, ancestor_in(ns, b, kb)->0);
            lemma_sibling_witness(ns, a, da, b, db, ka, kb);
            let e = (da - ka) as nat;
            assert((da - e) as nat == ka);
            assert((db - e) as nat == kb);
            if is_ancestor_spec(ns, b, a) {
                let k = choose|k: nat| k >= 1 && #[trigger] ancestor_in(ns, a, k) == Some(b);
                lemma_ancestor_at_depth(ns, b, db, a, da, k);
                assert(ancestor_in(ns, b, (db - db) as nat) == Some(b));
                assert((da - db) as nat == k);
                lemma_agree_above(ns, a, da, b, db, db, e);
            } else {
                let (kb2, ka2) = choose|kb2: nat, ka2: nat|
                    #[trigger] ancestor_in(ns, b, kb2) is Some && #[trigger] ancestor_in(ns, a, ka2) is Some
                        && earlier_sibling(ns, ancestor_in(ns, b, kb2)->0, ancestor_in(ns, a, ka2)->0);
                lemma_sibling_witness(ns, b, db, a, da, kb2, ka2);
                let e2 = (db - kb2) as nat;
                assert((da - e2) as nat == ka2);
                assert((db - e2) as nat == kb2);
                if e2 < e {
                    lemma_agree_above(ns, a, da, b, db, (e - 1) as nat, e2);
                    assert((da - (e - 1)) as nat == ka + 1);
                    assert((db - (e - 1)) as nat == kb + 1);
                } else if e < e2 {
                    lemma_agree_above(ns, a, da, b, db, (e2 - 1) as nat, e);
                    assert((da - (e2 - 1)) as nat == ka2 + 1);
                    assert((db - (e2 - 1)) as nat == kb2 + 1);
                }
            }
        }
    }
}

/// Where the chain of `b` passes through `a` at height `t`, no ancestor of
/// `a` at or below that height is an earlier sibling of one of `b`'s.
proof fn lemma_earlier_meets_later(ns: Seq<Node>, a: int, da: nat, b: int, db: nat, t: nat)
    requires
        tree_wf(ns),
        0 <= a < ns.len(),
        0 <= b < ns.len(),
        root_at(ns, a, da),
        root_at(ns, b, db),
        t <= da,
        t <= db,
        ancestor_in(ns, a, (da - t) as nat) is Some,
        ancestor_in(ns, a, (da - t) as nat) == ancestor_in(ns, b, (db - t) as nat),
        da == t || db == t,
    ensures
        !(exists|ka: nat, kb: nat|
            #[trigger] ancestor_in(ns, a, ka) is Some && #[trigger] ancestor_in(ns, b, kb) is Some
                && earlier_sibling(ns, ancestor_in(ns, a, ka)->0, ancestor_in(ns, b, kb)->0)),
{
    if exists|ka: nat, kb: nat|
        #[trigger] ancestor_in(ns, a, ka) is Some && #[trigger] ancestor_in(ns, b, kb) is Some
            && earlier_sibling(ns, ancestor_in(ns, a, ka)->0, ancestor_in(ns, b, kb)->0) {
        let (ka, kb) = choose|ka: nat, kb: nat|
            #[trigger] ancestor_in(ns, a, ka) is Some && #[trigger] ancestor_in(ns, b, kb) is Some
                && earlier_sibling(ns, ancestor_in(ns, a, ka)->0, ancestor_in(ns, b, kb)->0);
        lemma_sibling_witness(ns, a, da, b, db, ka, kb);
        let e = (da - ka) as nat;
        lemma_agree_above(ns, a, da, b, db, t, e);
        assert((da - e) as nat == ka);
        assert((db - e) as nat == kb);
    }
}

/// Tree order is total on a tree: of two different nodes with the same
/// root, one comes before the other.
pub proof fn lemma_tree_order_total(ns: Seq<Node>, a: int, b: int)
    requires
        tree_wf(ns),
        0 <= a < ns.len(),
        0 <= b < ns.len(),
        has_root(ns, a),
        has_root(ns, b),
        a != b,
        root_of(ns, a) == root_of(ns, b),
    ensures
        precedes_spec(ns, a, b) || precedes_spec(ns, b, a),
{
    let da = choose|k: nat| k < ns.len() && root_at(ns, a, k);
    let db = choose|k: nat| k < ns.len() && root_at(ns, b, k);
    lemma_root_unique(ns, a, da);
    lemma_root_unique(ns, b, db);
    let m = if da < db { da } else { db };
    lemma_ancestor_depth(ns, a, da, (da - m) as nat);
    lemma_ancestor_depth(ns, b, db, (db - m) as nat);
    assert(ancestor_in(ns, a, (da - 0) as nat) == ancestor_in(ns, b, (db - 0) as nat));
    if ancestor_in(ns, a, (da - m) as nat) == ancestor_in(ns, b, (db - m) as nat) {
        if da < db {
            assert(ancestor_in(ns, b, (db - da) as nat) == Some(a));
        } else if db < da {
            assert(ancestor_in(ns, a, (da - db) as nat) == Some(b));
        } else {
            assert(ancestor_in(ns, a, 0) == Some(a));
            assert(ancestor_in(ns, b, 0) == Some(b));
        }
    } else {
        let t = lemma_divergence(ns, a, da, b, db, m);
        let x = ancestor_in(ns, a, (da - t) as nat)->0;
        let y = ancestor_in(ns, b, (db - t) as nat)->0;
        lemma_ancestor_depth(ns, a, da, (da - t) as nat);
        lemma_ancestor_depth(ns, b, db, (db - t) as nat);
        lemma_ancestor_step(ns, a, (da - t) as nat);
        lemma_ancestor_step(ns, b, (db - t) as nat);
        assert((da - t + 1) as nat == (da - (t - 1)) as nat);
        assert((db - t + 1) as nat == (db - (t - 1)) as nat);
        assert(parent_in(ns, x) == parent_in(ns, y));
        assert(parent_in(ns, x) is Some);
        super::node::lemma_index_facts(ns, x);
        super::node::lemma_index_facts(ns, y);
        if index_of(ns, x) < index_of(ns, y) {
            assert(earlier_sibling(ns, x, y));
        } else {
            assert(index_of(ns, x) != index_of(ns, y));
            assert(earlier_sibling(ns, y, x));
        }
    }
}

/// Between the height where two chains meet (0, their common root) and a
/// height `d` where they differ lies a height `t` where they differ and
/// meet just above.
proof fn lemma_divergence(ns: Seq<Node>, a: int, da: nat, b: int, db: nat, d: nat) -> (t: nat)
    requires
        d <= da,
        d <= db,
        ancestor_in(ns, a, (da - 0) as nat) == ancestor_in(ns, b, (db - 0) as nat),
        ancestor_in(ns, a, (da - d) as nat) != ancestor_in(ns, b, (db - d) as nat),
    ensures
        1 <= t <= d,
        ancestor_in(ns, a, (da - t) as nat) != ancestor_in(ns, b, (db - t) as nat),
        ancestor_in(ns, a, (da - (t - 1)) as nat) == ancestor_in(ns, b, (db - (t - 1)) as nat),
    decreases d,
{
    if ancestor_in(ns, a, (da - (d - 1)) as nat) == ancestor_in(ns, b, (db - (d - 1)) as nat) {
        d
    } else {
        lemma_divergence(ns, a, da, b, db, (d - 1) as nat)
    }
}

/// The number of parent links from `this` up to its root.
pub(crate) fn depth(arena: &Arena, this: NodeRef) -> (res: usize)
    requires
        arena.wf(),
        arena.valid(this),
        has_root(arena.nodes(), this as int),
    ensures
        root_at(arena.nodes(), this as int, res as nat),
{
    let ghost ns = arena.nodes();
    let ghost k = choose|k: nat| k < ns.len() && root_at(ns, this as int, k);
    let mut current = this;
    let mut d: usize = 0;
    let mut up = arena.get(current).parent();
    while up.is_some()
        invariant
            arena.wf(),
            ns == arena.nodes(),
            arena.valid(current),
            up == ns[current as int].parent_link(),
            d <= k,
            k < ns.len(),
            root_at(ns, this as int, k),
            ancestor_in(ns, this as int, d as nat) == Some(current as int),
        decreases k - d,
    {
        proof {
            assert(super::node::node_ok(ns, current as int));
            lemma_ancestor_step(ns, this as int, d as nat);
            if d == k {
                assert(parent_in(ns, current as int) is None);
            }
        }
        current = up.unwrap();
        d += 1;
        up = arena.get(current).parent();
    }
    proof {
        lemma_ancestor_add(ns, this as int, d as nat, 0);
        assert(root_at(ns, this as int, d as nat));
    }
    d
}

/// The node `k` parent links above `this`, whose root is `d` links up.
fn lift(arena: &Arena, this: NodeRef, d: usize, k: usize) -> (res: NodeRef)
    requires
        arena.wf(),
        arena.valid(this),
        root_at(arena.nodes(), this as int, d as nat),
        k <= d,
    ensures
        ancestor_in(arena.nodes(), this as int, k as nat) == Some(res as int),
        arena.valid(res),
        root_at(arena.nodes(), res as int, (d - k) as nat),
{
    let ghost ns = arena.nodes();
    let mut current = this;
    let mut i: usize = 0;
    while i < k
        invariant
            arena.wf(),
            ns == arena.nodes(),
            0 <= this < ns.len(),
            root_at(ns, this as int, d as nat),
            i <= k,
            k <= d,
            ancestor_in(ns, this as int, i as nat) == Some(current as int),
            arena.valid(current),
            root_at(ns, current as int, (d - i) as nat),
        decreases k - i,
    {
        proof {
            lemma_ancestor_step(ns, this as int, i as nat);
            lemma_ancestor_depth(ns, this as int, d as nat, (i + 1) as nat);
        }
        current = arena.get(current).parent().unwrap();
        i += 1;
    }
    current
}

/// Whether `a` comes before `b` in tree order.
fn precedes(arena: &Arena, a: NodeRef, b: NodeRef) -> (res: bool)
    requires
        arena.wf(),
        arena.valid(a),
        arena.valid(b),
        has_root(arena.nodes(), a as int),
        has_root(arena.nodes(), b as int),
    ensures
        res == precedes_spec(arena.nodes(), a as int, b as int),
{
    let ghost ns = arena.nodes();
    let da = depth(arena, a);
    let db = depth(arena, b);
    let m = if da < db { da } else { db };
    let mut x = lift(arena, a, da, da - m);
    let mut y = lift(arena, b, db, db - m);
    if x == y {
        proof {
            if da < db {
                assert(ancestor_in(ns, b as int, (db - da) as nat) == Some(a as int));
            } else {
                if is_ancestor_spec(ns, a as int, b as int) {
                    let k = choose|k: nat| k >= 1 && #[trigger] ancestor_in(ns, b as int, k) == Some(a as int);
                    lemma_ancestor_at_depth(ns, a as int, da as nat, b as int, db as nat, k);
                }
                if exists|ka: nat, kb: nat|
                    #[trigger] ancestor_in(ns, a as int, ka) is Some && #[trigger] ancestor_in(ns, b as int, kb) is Some
                        && earlier_sibling(ns, ancestor_in(ns, a as int, ka)->0, ancestor_in(ns, b as int, kb)->0) {
                    let (ka, kb) = choose|ka: nat, kb: nat|
                        #[trigger] ancestor_in(ns, a as int, ka) is Some && #[trigger] ancestor_in(ns, b as int, kb) is Some
                            && earlier_sibling(ns, ancestor_in(ns, a as int, ka)->0, ancestor_in(ns, b as int, kb)->0);
                    lemma_sibling_witness(ns, a as int, da as nat, b as int, db as nat, ka, kb);
                    lemma_agree_above(ns, a as int, da as nat, b as int, db as nat, m as nat, (da - ka) as nat);
                    assert((da - (da - ka)) as nat == ka);
                    assert((db - (da - ka)) as nat == kb);
                }
            }
        }
        return da < db;
    }
    let mut d: usize = m;
    loop
        invariant
            arena.wf(),
            ns == arena.nodes(),
            arena.valid(x),
            arena.valid(y),
            0 <= a < ns.len(),
            0 <= b < ns.len(),
            root_at(ns, a as int, da as nat),
            root_at(ns, b as int, db as nat),
            m <= da,
            m <= db,
            m == da || m == db,
            d <= m,
            ancestor_in(ns, a as int, (da - d) as nat) == Some(x as int),
            ancestor_in(ns, b as int, (db - d) as nat) == Some(y as int),
            root_at(ns, x as int, d as nat),
            root_at(ns, y as int, d as nat),
            forall|t: nat|
                d <= t <= m ==> #[trigger] ancestor_in(ns, a as int, (da - t) as nat) != ancestor_in(
                    ns,
                    b as int,
                    (db - t) as nat,
                ),
        decreases d,
    {
        let px = arena.get(x).parent();
        let py = arena.get(y).parent();
        if px.is_none() || py.is_none() {
            proof {
                assert(d == 0) by {
                    if d > 0 {
                        assert(ancestor_in(ns, x as int, d as nat) is None);
                        assert(ancestor_in(ns, y as int, d as nat) is None);
                    }
                }
                lemma_no_meeting(ns, a as int, da as nat, b as int, db as nat, m as nat);
            }
            return false;
        }
        let p = px.unwrap();
        let q = py.unwrap();
        proof {
            lemma_ancestor_step(ns, a as int, (da - d) as nat);
            lemma_ancestor_step(ns, b as int, (db - d) as nat);
            assert(d > 0) by {
                if d == 0 {
                    assert(parent_in(ns, x as int) is None);
                }
            }
            assert((da - d + 1) as nat == (da - (d - 1)) as nat);
            assert((db - d + 1) as nat == (db - (d - 1)) as nat);
            lemma_ancestor_depth(ns, x as int, d as nat, 1);
            lemma_ancestor_depth(ns, y as int, d as nat, 1);
            assert(ancestor_in(ns, x as int, 1) == Some(p as int)) by {
                reveal_with_fuel(ancestor_in, 2);
            }
            assert(ancestor_in(ns, y as int, 1) == Some(q as int)) by {
                reveal_with_fuel(ancestor_in, 2);
            }
        }
        if p == q {
            let res = Node::index(arena, x) < Node::index(arena, y);
            proof {
                if res {
                    assert(earlier_sibling(ns, x as int, y as int));
                    assert(ancestor_in(ns, a as int, (da - d) as nat) is Some);
                    assert(ancestor_in(ns, b as int, (db - d) as nat) is Some);
                } else {
                    if precedes_spec(ns, a as int, b as int) {
                        lemma_last_meeting(ns, a as int, da as nat, b as int, db as nat, m as nat, d as nat);
                    }
                }
            }
            return res;
        }
        x = p;
        y = q;
        d -= 1;
    }
}


impl Node {
    /// Whether `this` comes after `other` in tree order; such nodes are in
    /// the same tree.
    pub fn is_following(arena: &Arena, this: NodeRef, other: NodeRef) -> (res: bool)
        requires
            arena.wf(),
            arena.valid(this),
            arena.valid(other),
            has_root(arena.nodes(), this as int),
            has_root(arena.nodes(), other as int),
        ensures
            res == precedes_spec(arena.nodes(), other as int, this as int),
    {
        precedes(arena, other, this)
    }

    /// Whether `this` comes before `other` in tree order; such nodes are in
    /// the same tree.
    pub fn is_preceding(arena: &Arena, this: NodeRef, other: NodeRef) -> (res: bool)
        requires
            arena.wf(),
            arena.valid(this),
            arena.valid(other),
            has_root(arena.nodes(), this as int),
            has_root(arena.nodes(), other as int),
        ensures
            res == precedes_spec(arena.nodes(), this as int, other as int),
    {
        precedes(arena, this, other)
    }

    /// Whether `this` is an ancestor of `other`.
    pub fn is_ancestor_of(arena: &Arena, this: NodeRef, other: NodeRef) -> (res: bool)
        requires
            arena.wf(),
            arena.valid(this),
            arena.valid(other),
            has_root(arena.nodes(), this as int),
            has_root(arena.nodes(), other as int),
        ensures
            res == is_ancestor_spec(arena.nodes(), this as int, other as int),
    {
        let ghost ns = arena.nodes();
        let dt = depth(arena, this);
        let dother = depth(arena, other);
        if dt >= dother {
            proof {
                if is_ancestor_spec(ns, this as int, other as int) {
                    let k = choose|k: nat| k >= 1 && #[trigger] ancestor_in(ns, other as int, k) == Some(this as int);
                    lemma_ancestor_at_depth(ns, this as int, dt as nat, other as int, dother as nat, k);
                }
            }
            return false;
        }
        let up = lift(arena, other, dother, dother - dt);
        proof {
            if is_ancestor_spec(ns, this as int, other as int) {
                let k = choose|k: nat| k >= 1 && #[trigger] ancestor_in(ns, other as int, k) == Some(this as int);
                lemma_ancestor_at_depth(ns, this as int, dt as nat, other as int, dother as nat, k);
                assert(k == (dother - dt) as nat);
            }
            if up == this {
                assert(ancestor_in(ns, other as int, (dother - dt) as nat) == Some(this as int));
            }
        }
        up == this
    }

    /// Whether `this` is a child of `other`.
    pub fn is_child_of(arena: &Arena, this: NodeRef, other: NodeRef) -> (res: bool)
        requires
            arena.valid(this),
        ensures
            res == (parent_in(arena.nodes(), this as int) == Some(other as int)),
    {
        match arena.get(this).parent() {
            Some(p) => p == other,
            None => false,
        }
    }
}

} // verus!
