//! The relocation buffer.
//!
//! A rotation cannot rewire links in the slot array, because a child address
//! is computed from the parent address: every node whose depth changes must
//! physically move to a new slot. The tree therefore reshapes itself by
//! lifting the affected subtree out of the array into this temporary buffer
//! (one heap node per occupied slot), rotating the buffer, and writing every
//! node back to the slot its new position implies. This module holds the
//! buffer type and the verified AVL insert/remove/rotation logic on it.

use vstd::prelude::*;

verus! {

/// One buffered node: a value together with its cached subtree height and
/// its two child subtrees.
pub(crate) struct BufNode {
    pub(crate) value: u64,
    pub(crate) height: u8,
    pub(crate) left: Option<Box<BufNode>>,
    pub(crate) right: Option<Box<BufNode>>,
}

/// Height of a buffered subtree (0 when empty, 1 for a leaf).
pub(crate) open spec fn t_height(t: Option<Box<BufNode>>) -> nat
    decreases t,
{
    match t {
        None => 0,
        Some(n) => {
            let lh = t_height(n.left);
            let rh = t_height(n.right);
            if lh >= rh {
                lh + 1
            } else {
                rh + 1
            }
        },
    }
}

/// Number of nodes of a buffered subtree.
pub(crate) open spec fn t_size(t: Option<Box<BufNode>>) -> nat
    decreases t,
{
    match t {
        None => 0,
        Some(n) => 1 + t_size(n.left) + t_size(n.right),
    }
}

/// Set of values of a buffered subtree.
pub(crate) open spec fn t_values(t: Option<Box<BufNode>>) -> Set<u64>
    decreases t,
{
    match t {
        None => Set::empty(),
        Some(n) => t_values(n.left).union(t_values(n.right)).insert(n.value),
    }
}

/// The buffered subtree is a well-formed AVL tree: binary-search-tree order,
/// child heights within one of each other, and every cached height correct.
pub(crate) open spec fn t_wf(t: Option<Box<BufNode>>) -> bool
    decreases t,
{
    match t {
        None => true,
        Some(n) => {
            let lh = t_height(n.left);
            let rh = t_height(n.right);
            &&& t_wf(n.left)
            &&& t_wf(n.right)
            &&& (forall|x: u64| t_values(n.left).contains(x) ==> x < n.value)
            &&& (forall|x: u64| t_values(n.right).contains(x) ==> x > n.value)
            &&& lh <= rh + 1
            &&& rh <= lh + 1
            &&& n.height as nat == (if lh >= rh { lh + 1 } else { rh + 1 })
        },
    }
}

/// Cached height of a possibly empty buffered subtree.
pub(crate) fn opt_height(t: &Option<Box<BufNode>>) -> (h: u8)
    requires
        t_wf(*t),
    ensures
        h as nat == t_height(*t),
{
    match t {
        None => 0,
        Some(n) => n.height,
    }
}

/// Join two subtrees under a fresh node, recomputing the cached height.
/// The child heights must already differ by at most one.
pub(crate) fn mk_node(value: u64, left: Option<Box<BufNode>>, right: Option<Box<BufNode>>) -> (t:
    Option<Box<BufNode>>)
    requires
        t_wf(left),
        t_wf(right),
        forall|x: u64| t_values(left).contains(x) ==> x < value,
        forall|x: u64| t_values(right).contains(x) ==> x > value,
        t_height(left) <= t_height(right) + 1,
        t_height(right) <= t_height(left) + 1,
        t_height(left) <= 100,
        t_height(right) <= 100,
    ensures
        t_wf(t),
        t_values(t) == t_values(left).union(t_values(right)).insert(value),
        t_size(t) == t_size(left) + t_size(right) + 1,
        t_height(t) == 1 + (if t_height(left) >= t_height(right) {
            t_height(left)
        } else {
            t_height(right)
        }),
        t is Some,
{
    let lh = opt_height(&left);
    let rh = opt_height(&right);
    let h = (if lh >= rh {
        lh
    } else {
        rh
    }) + 1;
    Some(Box::new(BufNode { value, height: h, left, right }))
}

} // verus!

verus! {

/// Restore the AVL balance at one node whose child heights have come to
/// differ by two, with the single and double rotations of the classical AVL
/// scheme; double rotations are two single rotations with the intermediate
/// tree fully materialized. Keeps the value set, and the resulting height is
/// the taller child's height or one more; when the children were already
/// within one of each other, no rotation happens and the height is exactly
/// one more than the taller child's.
pub(crate) fn rebalance(value: u64, left: Option<Box<BufNode>>, right: Option<Box<BufNode>>) -> (t:
    Option<Box<BufNode>>)
    requires
        t_wf(left),
        t_wf(right),
        forall|x: u64| t_values(left).contains(x) ==> x < value,
        forall|x: u64| t_values(right).contains(x) ==> x > value,
        t_height(left) <= t_height(right) + 2,
        t_height(right) <= t_height(left) + 2,
        t_height(left) <= 90,
        t_height(right) <= 90,
    ensures
        t_wf(t),
        t is Some,
        t_values(t) == t_values(left).union(t_values(right)).insert(value),
        t_size(t) == t_size(left) + t_size(right) + 1,
        ({
            let m = if t_height(left) >= t_height(right) {
                t_height(left)
            } else {
                t_height(right)
            };
            &&& m <= t_height(t)
            &&& t_height(t) <= m + 1
            &&& ((t_height(left) <= t_height(right) + 1 && t_height(right) <= t_height(left) + 1)
                ==> t_height(t) == m + 1)
        }),
{
    let ghost left0 = left;
    let ghost right0 = right;
    let lh = opt_height(&left);
    let rh = opt_height(&right);
    if lh >= 2 && lh == rh + 2 {
        let l = left.unwrap();
        let ghost lbox = l;
        let llh = opt_height(&l.left);
        let lrh = opt_height(&l.right);
        let BufNode { value: lv, height: _, left: ll, right: lr } = *l;
        proof {
            assert(t_values(left0) == t_values(ll).union(t_values(lr)).insert(lv));
            assert(t_values(left0).contains(lv));
        }
        if llh >= lrh {
            // Left-left: one right rotation centred on this node.
            proof {
                assert forall|x: u64| t_values(lr).contains(x) implies x < value by {
                    assert(t_values(left0).contains(x));
                }
            }
            let inner = mk_node(value, lr, right);
            proof {
                assert forall|x: u64| t_values(inner).contains(x) implies x > lv by {
                    assert(t_values(lr).contains(x) || t_values(right0).contains(x) || x == value);
                }
            }
            let t = mk_node(lv, ll, inner);
            proof {
                assert(t_values(t) =~= t_values(left0).union(t_values(right0)).insert(value));
            }
            t
        } else {
            // Left-right: rotate the left child left, then this node right.
            let lrn = lr.unwrap();
            let ghost lrbox = lrn;
            let BufNode { value: lrv, height: _, left: lrl, right: lrr } = *lrn;
            proof {
                assert(t_values(lr) == t_values(lrl).union(t_values(lrr)).insert(lrv));
                assert(t_values(lr).contains(lrv));
                assert(t_height(lr) == 1 + (if t_height(lrl) >= t_height(lrr) {
                    t_height(lrl)
                } else {
                    t_height(lrr)
                }));
            }
            proof {
                assert(left0 == Some(lbox) && lr == lbox.right && ll == lbox.left);
                assert(t_wf(ll) && t_wf(lr));
                assert(lr == Some(lrbox) && lrl == lrbox.left && lrr == lrbox.right);
                assert(t_wf(lrl) && t_wf(lrr));
                assert forall|x: u64| t_values(lrl).contains(x) implies x > lv by {
                    assert(t_values(lr).contains(x));
                }
                assert forall|x: u64| t_values(lrr).contains(x) implies x < value by {
                    assert(t_values(lr).contains(x));
                    assert(t_values(left0).contains(x));
                }
                assert(lv < lrv) by {
                    assert(t_values(lr).contains(lrv));
                }
                assert(lrv < value) by {
                    assert(t_values(left0).contains(lrv));
                }
            }
            let a = mk_node(lv, ll, lrl);
            let b = mk_node(value, lrr, right);
            proof {
                assert forall|x: u64| t_values(a).contains(x) implies x < lrv by {
                    assert(t_values(ll).contains(x) || t_values(lrl).contains(x) || x == lv);
                    if t_values(ll).contains(x) {
                        assert(x < lv);
                    }
                }
                assert forall|x: u64| t_values(b).contains(x) implies x > lrv by {
                    assert(t_values(lrr).contains(x) || t_values(right0).contains(x) || x == value);
                    if t_values(right0).contains(x) {
                        assert(x > value);
                    }
                }
            }
            let t = mk_node(lrv, a, b);
            proof {
                assert(t_values(t) =~= t_values(left0).union(t_values(right0)).insert(value));
            }
            t
        }
    } else if rh >= 2 && rh == lh + 2 {
        let r = right.unwrap();
        let ghost rbox = r;
        let rlh = opt_height(&r.left);
        let rrh = opt_height(&r.right);
        let BufNode { value: rv, height: _, left: rl, right: rr } = *r;
        proof {
            assert(t_values(right0) == t_values(rl).union(t_values(rr)).insert(rv));
            assert(t_values(right0).contains(rv));
        }
        if rrh >= rlh {
            // Right-right: one left rotation centred on this node.
            proof {
                assert forall|x: u64| t_values(rl).contains(x) implies x > value by {
                    assert(t_values(right0).contains(x));
                }
            }
            let inner = mk_node(value, left, rl);
            proof {
                assert forall|x: u64| t_values(inner).contains(x) implies x < rv by {
                    assert(t_values(rl).contains(x) || t_values(left0).contains(x) || x == value);
                    if t_values(left0).contains(x) {
                        assert(x < value);
                        assert(t_values(right0).contains(rv));
                    }
                }
            }
            let t = mk_node(rv, inner, rr);
            proof {
                assert(t_values(t) =~= t_values(left0).union(t_values(right0)).insert(value));
            }
            t
        } else {
            // Right-left: rotate the right child right, then this node left.
            let rln = rl.unwrap();
            let ghost rlbox = rln;
            let BufNode { value: rlv, height: _, left: rll, right: rlr } = *rln;
            proof {
                assert(t_values(rl) == t_values(rll).union(t_values(rlr)).insert(rlv));
                assert(t_values(rl).contains(rlv));
                assert(t_height(rl) == 1 + (if t_height(rll) >= t_height(rlr) {
                    t_height(rll)
                } else {
                    t_height(rlr)
                }));
            }
            proof {
                assert(right0 == Some(rbox) && rl == rbox.left && rr == rbox.right);
                assert(t_wf(rl) && t_wf(rr));
                assert(rl == Some(rlbox) && rll == rlbox.left && rlr == rlbox.right);
                assert(t_wf(rll) && t_wf(rlr));
                assert forall|x: u64| t_values(rll).contains(x) implies x > value by {
                    assert(t_values(rl).contains(x));
                    assert(t_values(right0).contains(x));
                }
                assert forall|x: u64| t_values(rlr).contains(x) implies x < rv by {
                    assert(t_values(rl).contains(x));
                }
                assert(rlv < rv) by {
                    assert(t_values(rl).contains(rlv));
                }
                assert(value < rlv) by {
                    assert(t_values(right0).contains(rlv));
                }
            }
            let a = mk_node(value, left, rll);
            let b = mk_node(rv, rlr, rr);
            proof {
                assert forall|x: u64| t_values(a).contains(x) implies x < rlv by {
                    assert(t_values(left0).contains(x) || t_values(rll).contains(x) || x == value);
                    if t_values(left0).contains(x) {
                        assert(x < value);
                    }
                }
                assert forall|x: u64| t_values(b).contains(x) implies x > rlv by {
                    assert(t_values(rlr).contains(x) || t_values(rr).contains(x) || x == rv);
                    if t_values(rr).contains(x) {
                        assert(x > rv);
                    }
                }
            }
            let t = mk_node(rlv, a, b);
            proof {
                assert(t_values(t) =~= t_values(left0).union(t_values(right0)).insert(value));
            }
            t
        }
    } else {
        mk_node(value, left, right)
    }
}

} // verus!

verus! {

/// Insert a value that is not yet present, rebalancing on the way back up.
/// The height grows by at most one and never shrinks.
pub(crate) fn t_insert(t: Option<Box<BufNode>>, v: u64) -> (r: Option<Box<BufNode>>)
    requires
        t_wf(t),
        !t_values(t).contains(v),
        t_height(t) <= 80,
    ensures
        t_wf(r),
        t_values(r) == t_values(t).insert(v),
        t_size(r) == t_size(t) + 1,
        t_height(t) <= t_height(r),
        t_height(r) <= t_height(t) + 1,
    decreases t,
{
    let ghost t0 = t;
    match t {
        None => {
            let r = mk_node(v, None, None);
            proof {
                assert(t_values(r) =~= t_values(t0).insert(v));
            }
            r
        },
        Some(n) => {
            let ghost nbox = n;
            let BufNode { value: nv, height: _, left, right } = *n;
            proof {
                assert(t0 == Some(nbox) && left == nbox.left && right == nbox.right);
                assert(t_values(t0).contains(nv));
            }
            if v < nv {
                let nl = t_insert(left, v);
                proof {
                    assert forall|x: u64| t_values(nl).contains(x) implies x < nv by {
                        assert(t_values(left).contains(x) || x == v);
                    }
                }
                let r = rebalance(nv, nl, right);
                proof {
                    assert(t_values(r) =~= t_values(t0).insert(v));
                }
                r
            } else {
                proof {
                    assert(v != nv);
                    assert(!t_values(right).contains(v)) by {
                        assert(!t_values(t0).contains(v));
                    }
                }
                let nr = t_insert(right, v);
                proof {
                    assert forall|x: u64| t_values(nr).contains(x) implies x > nv by {
                        assert(t_values(right).contains(x) || x == v);
                    }
                }
                let r = rebalance(nv, left, nr);
                proof {
                    assert(t_values(r) =~= t_values(t0).insert(v));
                }
                r
            }
        },
    }
}

/// Remove and return the smallest value of a non-empty subtree, rebalancing
/// on the way back up. The height shrinks by at most one.
pub(crate) fn t_pop_min(n: Box<BufNode>) -> (res: (u64, Option<Box<BufNode>>))
    requires
        t_wf(Some(n)),
        t_height(Some(n)) <= 80,
    ensures
        t_wf(res.1),
        t_values(Some(n)).contains(res.0),
        t_values(res.1) == t_values(Some(n)).remove(res.0),
        t_size(res.1) + 1 == t_size(Some(n)),
        forall|x: u64| t_values(Some(n)).contains(x) && x != res.0 ==> x > res.0,
        t_height(Some(n)) <= t_height(res.1) + 1,
        t_height(res.1) <= t_height(Some(n)),
    decreases n,
{
    let ghost t0 = Some(n);
    let ghost nbox = n;
    let BufNode { value: nv, height: _, left, right } = *n;
    proof {
        assert(t0 == Some(nbox) && left == nbox.left && right == nbox.right);
        assert(t_values(t0).contains(nv));
    }
    match left {
        None => {
            proof {
                assert(t_values(Some(nbox)) == t_values(nbox.left).union(t_values(nbox.right)).insert(nbox.value));
                assert(t_size(Some(nbox)) == 1 + t_size(nbox.left) + t_size(nbox.right));
                assert(nbox.left is None);
                assert(t_values(nbox.left) =~= Set::<u64>::empty());
                assert(t_size(nbox.left) == 0);
                assert(t_values(t0) =~= t_values(right).insert(nv));
                assert(t_size(t0) == 1 + t_size(right));
                assert(!t_values(right).contains(nv));
                assert(t_values(right) =~= t_values(t0).remove(nv));
            }
            (nv, right)
        },
        Some(ln) => {
            let (m, nl) = t_pop_min(ln);
            proof {
                assert(t_values(left).contains(m));
                assert(m < nv);
                assert forall|x: u64| t_values(nl).contains(x) implies x < nv by {
                    assert(t_values(left).contains(x));
                }
            }
            let r = rebalance(nv, nl, right);
            proof {
                assert(t_values(r) =~= t_values(t0).remove(m));
                assert forall|x: u64| t_values(t0).contains(x) && x != m implies x > m by {
                    if t_values(left).contains(x) {
                    } else if x == nv {
                    } else {
                        assert(t_values(right).contains(x));
                        assert(x > nv);
                    }
                }
            }
            (m, r)
        },
    }
}

/// Remove a value that is present, rebalancing every node on the way back
/// up. The height shrinks by at most one.
pub(crate) fn t_remove(t: Option<Box<BufNode>>, v: u64) -> (r: Option<Box<BufNode>>)
    requires
        t_wf(t),
        t_values(t).contains(v),
        t_height(t) <= 80,
    ensures
        t_wf(r),
        t_values(r) == t_values(t).remove(v),
        t_size(r) + 1 == t_size(t),
        t_height(t) <= t_height(r) + 1,
        t_height(r) <= t_height(t),
    decreases t,
{
    let ghost t0 = t;
    let n = t.unwrap();
    let ghost nbox = n;
    let BufNode { value: nv, height: _, left, right } = *n;
    proof {
        assert(t0 == Some(nbox) && left == nbox.left && right == nbox.right);
        assert(t_values(t0).contains(nv));
    }
    if v < nv {
        proof {
            assert(t_values(left).contains(v)) by {
                assert(!t_values(right).contains(v));
            }
        }
        let nl = t_remove(left, v);
        proof {
            assert forall|x: u64| t_values(nl).contains(x) implies x < nv by {
                assert(t_values(left).contains(x));
            }
        }
        let r = rebalance(nv, nl, right);
        proof {
            assert(t_values(r) =~= t_values(t0).remove(v));
        }
        r
    } else if v > nv {
        proof {
            assert(t_values(right).contains(v)) by {
                assert(!t_values(left).contains(v));
            }
        }
        let nr = t_remove(right, v);
        proof {
            assert forall|x: u64| t_values(nr).contains(x) implies x > nv by {
                assert(t_values(right).contains(x));
            }
        }
        let r = rebalance(nv, left, nr);
        proof {
            assert(t_values(r) =~= t_values(t0).remove(v));
        }
        r
    } else {
        match right {
            None => {
                proof {
                    assert(t_values(Some(nbox)) == t_values(nbox.left).union(t_values(nbox.right)).insert(nbox.value));
                    assert(t_size(Some(nbox)) == 1 + t_size(nbox.left) + t_size(nbox.right));
                    assert(nbox.right is None);
                    assert(t_values(nbox.right) =~= Set::<u64>::empty());
                    assert(t_size(nbox.right) == 0);
                    assert(!t_values(left).contains(nv));
                    assert(t_values(left) =~= t_values(t0).remove(v));
                }
                left
            },
            Some(rn) => {
                // Two children: pull up the in-order successor, the leftmost
                // value of the right subtree.
                let (m, nr) = t_pop_min(rn);
                proof {
                    assert(t_values(right).contains(m));
                    assert(m > nv);
                    assert forall|x: u64| t_values(left).contains(x) implies x < m by {
                        assert(x < nv);
                    }
                    assert forall|x: u64| t_values(nr).contains(x) implies x > m by {
                        assert(t_values(right).contains(x) && x != m);
                    }
                }
                let r = rebalance(m, left, nr);
                proof {
                    assert(t_values(r) =~= t_values(t0).remove(v));
                }
                r
            },
        }
    }
}

} // verus!

verus! {

use crate::slots::fib;
use crate::slots::lemma_fib_mono;

/// The AVL balance invariant forces at least `fib(h + 2) - 1` nodes into a
/// buffered subtree of height `h`.
pub(crate) proof fn lemma_t_fib(t: Option<Box<BufNode>>)
    requires
        t_wf(t),
    ensures
        fib(t_height(t) + 2) <= t_size(t) + 1,
    decreases t,
{
    match t {
        None => {
            assert(fib(2) == 1) by {
                reveal_with_fuel(fib, 3);
            }
        },
        Some(n) => {
            let lh = t_height(n.left);
            let rh = t_height(n.right);
            let h = t_height(t);
            lemma_t_fib(n.left);
            lemma_t_fib(n.right);
            if lh >= rh {
                lemma_fib_mono(h, rh + 2);
            } else {
                lemma_fib_mono(h, lh + 2);
            }
            assert(fib(h + 2) == fib(h + 1) + fib(h));
        },
    }
}

} // verus!

verus! {

use crate::slots::lemma_fib_34;

/// A buffered tree of at most [`crate::avl_tree::max_size`] nodes stays
/// within the height the slot addressing can serve.
pub(crate) proof fn lemma_t_height_cap(t: Option<Box<BufNode>>)
    requires
        t_wf(t),
        t_size(t) <= 5702885,
    ensures
        t_height(t) <= 31,
{
    lemma_t_fib(t);
    lemma_fib_34();
    if t_height(t) > 31 {
        lemma_fib_mono(34, t_height(t) + 2);
    }
}

} // verus!
