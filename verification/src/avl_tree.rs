//! A self-balancing (AVL) binary search tree with set semantics, stored in
//! one contiguous growable array.
//!
//! The node in slot `i` keeps its left child in slot `2*i + 1` and its right
//! child in slot `2*i + 2`, so a child link is a computed address, never a
//! stored reference. The price of that layout is paid by rebalancing: a
//! rotation changes the depth of whole subtrees, and a node's address is
//! determined by its depth and branch path, so every affected node must be
//! relocated to the slot its new position implies. Mutating operations
//! therefore lift the affected nodes into a temporary buffer
//! ([`crate::buffer`]), reshape it there, and write every node back to its
//! new address in a single consistent pass, which also re-sizes the array to
//! exactly the addresses the new height can use. This is a deliberate
//! space/rotation-cost tradeoff: index arithmetic and cache-friendly storage
//! in exchange for O(subtree size) relocation instead of O(1) pointer
//! rewiring.

use vstd::prelude::*;

use crate::buffer::BufNode;
use crate::buffer::opt_height;
use crate::buffer::t_height;
use crate::buffer::t_insert;
use crate::buffer::t_remove;
use crate::buffer::t_size;
use crate::buffer::t_values;
use crate::buffer::t_wf;
use crate::slots::clear_below;
use crate::slots::desc;
use crate::slots::fib;
use crate::slots::fits;
use crate::slots::full_len;
use crate::slots::left_of;
use crate::slots::lemma_clear_props;
use crate::slots::lemma_desc_child;
use crate::slots::lemma_desc_root;
use crate::slots::lemma_desc_split;
use crate::slots::lemma_desc_trans;
use crate::slots::lemma_fits_mono;
use crate::slots::lemma_fits_root;
use crate::slots::lemma_frame;
use crate::slots::lemma_full_len_mono;
use crate::slots::lemma_search_step;
use crate::slots::lemma_sibling_disjoint;
use crate::slots::occupied;
use crate::slots::right_of;
use crate::slots::strictly_sorted;
use crate::slots::sub_cap;
use crate::slots::sub_height;
use crate::slots::sub_inorder;
use crate::slots::sub_size;
use crate::slots::sub_values;
use crate::slots::valid_at;

verus! {

/// One slot of the backing array: empty, or a value together with the cached
/// height of the subtree rooted at the slot.
#[derive(Clone, Copy)]
struct Node {
    value: Option<u64>,
    height: u8,
}

/// Insertion error: the value already compares equal to a stored value; the
/// tree is left unchanged.
#[derive(Clone, Copy, Debug, PartialEq, Eq)]
pub struct DuplicateValue;

/// Removal error: no stored value compares equal to the one given; the tree
/// is left unchanged.
#[derive(Clone, Copy, Debug, PartialEq, Eq)]
pub struct NotFound;

/// The slot contents of a node array, with cached heights stripped.
spec fn vals(d: Seq<Node>) -> Seq<Option<u64>> {
    d.map(|i: int, n: Node| n.value)
}

/// Every occupied slot caches the height of the subtree rooted at it.
spec fn heights_ok(d: Seq<Node>) -> bool {
    forall|j: int|
        0 <= j < d.len() && d[j].value is Some ==> d[j].height as nat == sub_height(vals(d), j)
}

/// Most elements the tree accepts; with more, the address of a slot on the
/// lowest admissible level could exceed the index range a 32-bit `usize`
/// offers. It keeps the tree height at most 31 (see [`crate::slots::fib`]
/// and `AvlTree::lemma_height_bound`): the smallest AVL tree of height 32
/// has `fib(34) - 1` nodes, one more than this.
pub open spec fn max_size() -> nat {
    5702885
}

/// An AVL tree over `u64` values, with set semantics (no duplicates), whose
/// nodes live at computed addresses in one backing array.
pub struct AvlTree {
    data: Vec<Node>,
    count: usize,
}

impl View for AvlTree {
    type V = Set<u64>;

    /// A tree abstracts to the set of values it stores.
    closed spec fn view(&self) -> Set<u64> {
        sub_values(vals(self.data@), 0)
    }
}

impl AvlTree {
    /// The slot contents, root at index 0.
    pub closed spec fn slots(self) -> Seq<Option<u64>> {
        vals(self.data@)
    }

    /// The in-order sequence of the stored values.
    pub closed spec fn in_order_seq(self) -> Seq<u64> {
        sub_inorder(vals(self.data@), 0)
    }

    /// Height of the whole tree (0 when empty).
    pub closed spec fn spec_height(self) -> nat {
        sub_height(vals(self.data@), 0)
    }

    /// Well-formedness: the slot array is a valid AVL tree rooted at slot 0,
    /// every cached height is right, the stored count matches the number of
    /// occupied slots, and the array is sized exactly for the tree's height,
    /// which stays within the addressable range.
    pub closed spec fn wf(self) -> bool {
        &&& valid_at(vals(self.data@), 0)
        &&& heights_ok(self.data@)
        &&& self.count as nat == sub_size(vals(self.data@), 0)
        &&& sub_height(vals(self.data@), 0) <= 31
        &&& self.data@.len() == full_len(sub_height(vals(self.data@), 0))
    }

    /// Creates a new, empty AVL tree.
    pub fn new() -> (tree: Self)
        ensures
            tree.wf(),
            tree@ == Set::<u64>::empty(),
            tree@.len() == 0,
    {
        let tree = AvlTree { data: Vec::new(), count: 0 };
        proof {
            assert(vals(tree.data@).len() == 0);
            assert(!occupied(vals(tree.data@), 0));
            assert(clear_below(vals(tree.data@), 0));
            lemma_clear_props(vals(tree.data@), 0);
        }
        tree
    }

    /// Index of the left child of the slot at `parent_index`.
    fn get_left_child_index(parent_index: usize) -> (i: usize)
        requires
            parent_index <= 0x7fff_fffe,
        ensures
            i as int == left_of(parent_index as int),
    {
        2 * parent_index + 1
    }

    /// Index of the right child of the slot at `parent_index`.
    fn get_right_child_index(parent_index: usize) -> (i: usize)
        requires
            parent_index <= 0x7fff_fffe,
        ensures
            i as int == right_of(parent_index as int),
    {
        2 * parent_index + 2
    }
}

/// Array length that exactly covers every address of a tree of height `h`.
fn full_len_exec(h: u8) -> (n: usize)
    requires
        h <= 31,
    ensures
        n as nat == full_len(h as nat),
        n <= 0x7fff_ffff,
{
    let mut n: usize = 0;
    let mut k: u8 = 0;
    proof {
        reveal_with_fuel(full_len, 32);
        assert(full_len(30) == 0x3fff_ffff);
        assert(full_len(31) == 0x7fff_ffff);
    }
    while k < h
        invariant
            k <= h,
            h <= 31,
            n as nat == full_len(k as nat),
        decreases h - k,
    {
        proof {
            lemma_full_len_mono(k as nat, 30);
            reveal_with_fuel(full_len, 32);
            assert(full_len(30) == 0x3fff_ffff);
        }
        n = 2 * n + 1;
        k = k + 1;
    }
    proof {
        lemma_full_len_mono(h as nat, 31);
        reveal_with_fuel(full_len, 32);
        assert(full_len(31) == 0x7fff_ffff);
    }
    n
}

/// Lift the subtree rooted at slot `i` out of the array into the relocation
/// buffer, one buffer node per occupied slot.
fn build_subtree(data: &Vec<Node>, i: usize) -> (t: Option<Box<BufNode>>)
    requires
        valid_at(vals(data@), i as int),
        heights_ok(data@),
        data@.len() <= 0x7fff_ffff,
    ensures
        t_wf(t),
        t_values(t) == sub_values(vals(data@), i as int),
        t_height(t) == sub_height(vals(data@), i as int),
        t_size(t) == sub_size(vals(data@), i as int),
    decreases sub_cap(data@.len() as int, i as int),
{
    if i >= data.len() {
        proof {
            assert(!occupied(vals(data@), i as int));
        }
        return None;
    }
    let slot = data[i];
    match slot.value {
        None => {
            proof {
                assert(vals(data@)[i as int] == data@[i as int].value);
                assert(!occupied(vals(data@), i as int));
            }
            None
        },
        Some(v) => {
            proof {
                assert(vals(data@)[i as int] == data@[i as int].value);
                assert(occupied(vals(data@), i as int));
            }
            let l = build_subtree(data, 2 * i + 1);
            let r = build_subtree(data, 2 * i + 2);
            let t = Some(Box::new(BufNode { value: v, height: slot.height, left: l, right: r }));
            proof {
                let s = vals(data@);
                let ii = i as int;
                assert(s[ii]->Some_0 == v);
                assert(sub_values(s, ii) == sub_values(s, left_of(ii)).union(
                    sub_values(s, right_of(ii)),
                ).insert(v));
                assert(t_values(t) == t_values(l).union(t_values(r)).insert(v));
                assert(slot.height as nat == sub_height(s, ii));
            }
            t
        },
    }
}

/// Write a buffered subtree back into the array, rooted at slot `i`: every
/// buffer node goes to the slot its position implies, and nothing outside
/// the address subtree of `i` is touched.
fn write_subtree(data: &mut Vec<Node>, i: usize, t: Option<Box<BufNode>>)
    requires
        t_wf(t),
        fits(i as int, t_height(t), old(data)@.len() as int),
        clear_below(vals(old(data)@), i as int),
        old(data)@.len() <= 0x7fff_ffff,
    ensures
        final(data)@.len() == old(data)@.len(),
        forall|j: int|
            0 <= j < final(data)@.len() && !desc(i as int, j) ==> final(data)@[j] == old(data)@[j],
        valid_at(vals(final(data)@), i as int),
        sub_values(vals(final(data)@), i as int) == t_values(t),
        sub_height(vals(final(data)@), i as int) == t_height(t),
        sub_size(vals(final(data)@), i as int) == t_size(t),
        forall|j: int|
            0 <= j < final(data)@.len() && desc(i as int, j) && final(data)@[j].value is Some
                ==> final(data)@[j].height as nat == sub_height(vals(final(data)@), j),
    decreases t,
{
    let ghost d0 = data@;
    let ghost s0 = vals(d0);
    match t {
        None => {
            proof {
                lemma_clear_props(s0, i as int);
                assert forall|j: int|
                    0 <= j < data@.len() && desc(i as int, j) && data@[j].value is Some
                        implies data@[j].height as nat == sub_height(vals(data@), j) by {
                    assert(s0[j] == d0[j].value);
                    assert(false);
                }
            }
        },
        Some(n) => {
            let ghost t0 = Some(n);
            let ghost nbox = n;
            let BufNode { value: v, height: h, left, right } = *n;
            let ghost lt = left;
            let ghost rt = right;
            proof {
                assert(t0 == Some(nbox) && left == nbox.left && right == nbox.right);
                assert(h as nat == t_height(t0));
                assert(t_height(t0) >= 1);
                assert(fits(left_of(i as int), (t_height(t0) - 1) as nat, d0.len() as int));
                assert(fits(right_of(i as int), (t_height(t0) - 1) as nat, d0.len() as int));
                lemma_fits_mono(left_of(i as int), t_height(lt), (t_height(t0) - 1) as nat,
                    d0.len() as int);
                lemma_fits_mono(right_of(i as int), t_height(rt), (t_height(t0) - 1) as nat,
                    d0.len() as int);
                lemma_desc_child(i as int);
                assert forall|j: int|
                    0 <= j < s0.len() && desc(left_of(i as int), j) implies s0[j] is None by {
                    lemma_desc_trans(i as int, left_of(i as int), j);
                }
            }
            let li = AvlTree::get_left_child_index(i);
            let ri = AvlTree::get_right_child_index(i);
            write_subtree(data, li, left);
            let ghost d1 = data@;
            let ghost s1 = vals(d1);
            proof {
                assert forall|j: int|
                    0 <= j < s1.len() && desc(right_of(i as int), j) implies s1[j] is None by {
                    lemma_sibling_disjoint(i as int, j);
                    assert(d1[j] == d0[j]);
                    lemma_desc_trans(i as int, right_of(i as int), j);
                    assert(s0[j] == d0[j].value);
                    assert(s1[j] == d1[j].value);
                }
            }
            write_subtree(data, ri, right);
            let ghost d2 = data@;
            let ghost s2 = vals(d2);
            data.set(i, Node { value: Some(v), height: h });
            let ghost d3 = data@;
            let ghost s3 = vals(d3);
            proof {
                let ii = i as int;
                let il = left_of(ii);
                let ir = right_of(ii);
                let len = d0.len() as int;
                assert(d3 == d2.update(ii, Node { value: Some(v), height: h }));
                // Slots outside the subtree of `i` never change.
                assert forall|j: int| 0 <= j < len && !desc(ii, j) implies d3[j] == d0[j] by {
                    assert(desc(ii, ii));
                    assert(j != ii);
                    if desc(il, j) {
                        lemma_desc_trans(ii, il, j);
                    }
                    if desc(ir, j) {
                        lemma_desc_trans(ii, ir, j);
                    }
                }
                // The left subtree's slots are untouched after its write.
                assert forall|j: int| 0 <= j < len && desc(il, j) implies s1[j] == s3[j] by {
                    lemma_sibling_disjoint(ii, j);
                    assert(j != ii);
                    assert(d3[j] == d1[j]);
                    assert(s1[j] == d1[j].value);
                    assert(s3[j] == d3[j].value);
                }
                lemma_frame(s1, s3, il);
                // The right subtree's slots are untouched after its write.
                assert forall|j: int| 0 <= j < len && desc(ir, j) implies s2[j] == s3[j] by {
                    assert(j != ii);
                    assert(d3[j] == d2[j]);
                    assert(s2[j] == d2[j].value);
                    assert(s3[j] == d3[j].value);
                }
                lemma_frame(s2, s3, ir);
                assert(s3[ii] == d3[ii].value);
                assert(occupied(s3, ii));
                assert(s3[ii]->Some_0 == v);
                assert(sub_values(s3, il) == t_values(lt));
                assert(sub_values(s3, ir) == t_values(rt));
                assert(sub_height(s3, il) == t_height(lt));
                assert(sub_height(s3, ir) == t_height(rt));
                assert(valid_at(s3, il));
                assert(valid_at(s3, ir));
                assert(valid_at(s3, ii));
                assert(sub_values(s3, ii) =~= t_values(t0));
                assert(sub_height(s3, ii) == t_height(t0));
                assert(sub_size(s3, ii) == t_size(t0));
                // Every cached height inside the subtree is right.
                assert forall|j: int|
                    0 <= j < len && desc(ii, j) && d3[j].value is Some implies d3[j].height as nat
                    == sub_height(s3, j) by {
                    if j == ii {
                        assert(d3[ii].height == h);
                    } else {
                        lemma_desc_split(ii, j);
                        if desc(il, j) {
                            assert(d3[j] == d1[j]);
                            assert(d1[j].height as nat == sub_height(s1, j));
                            assert forall|k: int|
                                0 <= k < len && desc(j, k) implies s1[k] == s3[k] by {
                                lemma_desc_trans(il, j, k);
                                lemma_sibling_disjoint(ii, k);
                                assert(k != ii);
                                assert(d3[k] == d1[k]);
                                assert(s1[k] == d1[k].value);
                                assert(s3[k] == d3[k].value);
                            }
                            lemma_frame(s1, s3, j);
                        } else {
                            assert(d3[j] == d2[j]);
                            assert(d2[j].height as nat == sub_height(s2, j));
                            assert forall|k: int|
                                0 <= k < len && desc(j, k) implies s2[k] == s3[k] by {
                                lemma_desc_trans(ir, j, k);
                                assert(k != ii);
                                assert(d3[k] == d2[k]);
                                assert(s2[k] == d2[k].value);
                                assert(s3[k] == d3[k].value);
                            }
                            lemma_frame(s2, s3, j);
                        }
                    }
                }
            }
        },
    }
}

/// Lay a buffered tree out as a fresh slot array sized exactly for its
/// height.
fn from_subtree(t: Option<Box<BufNode>>) -> (data: Vec<Node>)
    requires
        t_wf(t),
        t_height(t) <= 31,
    ensures
        data@.len() == full_len(t_height(t)),
        valid_at(vals(data@), 0),
        heights_ok(data@),
        sub_values(vals(data@), 0) == t_values(t),
        sub_height(vals(data@), 0) == t_height(t),
        sub_size(vals(data@), 0) == t_size(t),
{
    let h = opt_height(&t);
    let n = full_len_exec(h);
    let mut data: Vec<Node> = Vec::new();
    while data.len() < n
        invariant
            data@.len() <= n,
            forall|k: int| 0 <= k < data@.len() ==> data@[k].value is None,
        decreases n - data@.len(),
    {
        data.push(Node { value: None, height: 0 });
    }
    proof {
        assert(data@.len() == n);
        assert(clear_below(vals(data@), 0)) by {
            assert forall|j: int| 0 <= j < data@.len() && desc(0, j) implies vals(data@)[j]
                is None by {
                assert(vals(data@)[j] == data@[j].value);
            }
        }
        lemma_fits_root(h as nat);
    }
    write_subtree(&mut data, 0, t);
    proof {
        assert forall|j: int|
            0 <= j < data@.len() && data@[j].value is Some implies data@[j].height as nat
            == sub_height(vals(data@), j) by {
            lemma_desc_root(j);
        }
    }
    data
}

} // verus!

verus! {

use crate::buffer::lemma_t_height_cap;
use crate::slots::lemma_balance_below;
use crate::slots::lemma_card;
use crate::slots::lemma_fib_bound;
use crate::slots::lemma_inorder_props;

impl AvlTree {
    /// The backing array addresses at most `full_len(31)` slots.
    proof fn lemma_len_bound(self)
        requires
            self.wf(),
        ensures
            self.data@.len() <= 0x7fff_ffff,
    {
        lemma_full_len_mono(sub_height(vals(self.data@), 0), 31);
        assert(full_len(31) == 0x7fff_ffff) by {
            reveal_with_fuel(full_len, 32);
        }
    }

    /// A non-empty backing array has its root slot occupied.
    proof fn lemma_root_occupied(self)
        requires
            self.wf(),
            self.data@.len() > 0,
        ensures
            occupied(vals(self.data@), 0),
    {
        if !occupied(vals(self.data@), 0) {
            assert(sub_height(vals(self.data@), 0) == 0);
            assert(full_len(0) == 0);
        }
    }

    /// Walks from the root exactly as a search does, comparing `value` at
    /// each occupied slot: `None` when a stored value compares equal (the
    /// value is present), otherwise the address of the empty slot where a
    /// leaf holding `value` would belong.
    fn find_insert_index(&self, value: &u64) -> (r: Option<usize>)
        requires
            self.wf(),
        ensures
            (r is None) == self@.contains(*value),
            r is Some && (r->Some_0 as int) < self.slots().len() ==> self.slots()[r->Some_0 as int]
                is None,
    {
        proof {
            self.lemma_len_bound();
        }
        if self.data.len() == 0 {
            proof {
                assert(!occupied(vals(self.data@), 0));
            }
            return Some(0);
        }
        proof {
            self.lemma_root_occupied();
        }
        let ghost s = vals(self.data@);
        let mut index: usize = 0;
        loop
            invariant
                self.wf(),
                s == vals(self.data@),
                index < self.data@.len(),
                self.data@.len() <= 0x7fff_ffff,
                occupied(s, index as int),
                valid_at(s, index as int),
                self@.contains(*value) == sub_values(s, index as int).contains(*value),
            decreases self.data@.len() - index,
        {
            let ghost pi = index as int;
            proof {
                assert(s[pi] == self.data@[pi].value);
                lemma_search_step(s, pi, *value);
            }
            let tree_value = self.data[index].value.unwrap();
            if *value < tree_value {
                index = Self::get_left_child_index(index);
            } else if *value > tree_value {
                index = Self::get_right_child_index(index);
            } else {
                proof {
                    assert(sub_values(s, pi).contains(*value));
                }
                return None;
            }
            if index >= self.data.len() {
                proof {
                    assert(!occupied(s, index as int));
                }
                return Some(index);
            }
            proof {
                assert(s[index as int] == self.data@[index as int].value);
            }
            if self.data[index].value.is_none() {
                proof {
                    assert(!occupied(s, index as int));
                }
                return Some(index);
            }
        }
    }

    /// Is `value` stored in the tree? Runs in O(height) comparisons.
    pub fn contains(&self, value: u64) -> (r: bool)
        requires
            self.wf(),
        ensures
            r == self@.contains(value),
    {
        self.find_insert_index(&value).is_none()
    }

    /// Inserts the value into the tree, rejecting a value that compares
    /// equal to a stored one, and rebalancing so that every slot keeps the
    /// AVL invariant. The size bound is what the address space of the slot
    /// array forces: see [`max_size`].
    pub fn insert(&mut self, value: u64) -> (r: Result<(), DuplicateValue>)
        requires
            old(self).wf(),
            old(self)@.len() < max_size(),
        ensures
            final(self).wf(),
            (r is Ok) == !old(self)@.contains(value),
            r is Ok ==> final(self)@ == old(self)@.insert(value),
            r is Ok ==> final(self)@.len() == old(self)@.len() + 1,
            old(self).spec_height() <= final(self).spec_height(),
            final(self).spec_height() <= old(self).spec_height() + 1,
            r is Err ==> *final(self) == *old(self),
    {
        match self.find_insert_index(&value) {
            None => Err(DuplicateValue),
            Some(_) => {
                proof {
                    self.lemma_len_bound();
                    lemma_card(vals(self.data@), 0);
                }
                let t = build_subtree(&self.data, 0);
                let t2 = t_insert(t, value);
                proof {
                    lemma_t_height_cap(t2);
                }
                let new_data = from_subtree(t2);
                self.data = new_data;
                self.count = self.count + 1;
                proof {
                    lemma_card(vals(self.data@), 0);
                }
                Ok(())
            },
        }
    }

    /// Removes the value from the tree, reporting `NotFound` when no stored
    /// value compares equal; every slot keeps the AVL invariant.
    pub fn remove(&mut self, value: u64) -> (r: Result<(), NotFound>)
        requires
            old(self).wf(),
        ensures
            final(self).wf(),
            (r is Ok) == old(self)@.contains(value),
            r is Ok ==> final(self)@ == old(self)@.remove(value),
            r is Ok ==> final(self)@.len() + 1 == old(self)@.len(),
            final(self).spec_height() <= old(self).spec_height(),
            old(self).spec_height() <= final(self).spec_height() + 1,
            r is Err ==> *final(self) == *old(self),
    {
        if !self.contains(value) {
            return Err(NotFound);
        }
        proof {
            self.lemma_len_bound();
            lemma_card(vals(self.data@), 0);
            assert(occupied(vals(self.data@), 0));
        }
        let t = build_subtree(&self.data, 0);
        let t2 = t_remove(t, value);
        let new_data = from_subtree(t2);
        self.data = new_data;
        self.count = self.count - 1;
        proof {
            lemma_card(vals(self.data@), 0);
        }
        Ok(())
    }

    /// Number of stored values.
    pub fn len(&self) -> (n: usize)
        requires
            self.wf(),
        ensures
            n == self@.len(),
    {
        proof {
            lemma_card(vals(self.data@), 0);
        }
        self.count
    }

    /// Does the tree store nothing?
    pub fn is_empty(&self) -> (r: bool)
        requires
            self.wf(),
        ensures
            r == (self@.len() == 0),
    {
        proof {
            lemma_card(vals(self.data@), 0);
        }
        self.count == 0
    }

    /// Height of the tree: 0 when empty, and a single value gives height 1.
    pub fn height(&self) -> (h: usize)
        requires
            self.wf(),
        ensures
            h == self.spec_height(),
    {
        if self.data.len() == 0 {
            proof {
                assert(!occupied(vals(self.data@), 0));
            }
            0
        } else {
            proof {
                assert(vals(self.data@)[0] == self.data@[0].value);
                self.lemma_root_occupied();
            }
            self.data[0].height as usize
        }
    }

    /// The stored values in ascending order. Re-traversing after a mutation
    /// reflects the new state: the walk reads the current slots.
    pub fn in_order(&self) -> (r: Vec<u64>)
        requires
            self.wf(),
        ensures
            r@ == self.in_order_seq(),
            strictly_sorted(r@),
            r@.to_set() == self@,
            r@.len() == self@.len(),
    {
        proof {
            self.lemma_len_bound();
            lemma_inorder_props(vals(self.data@), 0);
            lemma_card(vals(self.data@), 0);
        }
        let mut out: Vec<u64> = Vec::new();
        collect_in_order(&self.data, 0, &mut out);
        out
    }

    /// BST order, stated for every well-formed tree — hence after any
    /// sequence of inserts and removes: the in-order traversal is strictly
    /// ascending and visits exactly the stored set, once per value.
    pub proof fn lemma_in_order_ascending(self)
        requires
            self.wf(),
        ensures
            strictly_sorted(self.in_order_seq()),
            self.in_order_seq().to_set() == self@,
            self.in_order_seq().len() == self@.len(),
    {
        lemma_inorder_props(vals(self.data@), 0);
        lemma_card(vals(self.data@), 0);
    }

    /// AVL balance, stated for every well-formed tree — hence after any
    /// sequence of inserts and removes: at every occupied slot the two
    /// child subtree heights differ by at most one.
    pub proof fn lemma_balanced(self, j: int)
        requires
            self.wf(),
            occupied(self.slots(), j),
        ensures
            sub_height(self.slots(), left_of(j)) <= sub_height(self.slots(), right_of(j)) + 1,
            sub_height(self.slots(), right_of(j)) <= sub_height(self.slots(), left_of(j)) + 1,
    {
        lemma_desc_root(j);
        lemma_balance_below(vals(self.data@), 0, j);
    }

    /// The AVL height guarantee: a tree of height `h` stores at least
    /// `fib(h + 2) - 1` values, so the height is at most `log(n + 2)` in
    /// base the golden ratio — about `1.44 * log2(n + 2)` — for `n` stored
    /// values.
    pub proof fn lemma_height_bound(self)
        requires
            self.wf(),
        ensures
            fib(self.spec_height() + 2) <= self@.len() + 1,
    {
        lemma_fib_bound(vals(self.data@), 0);
        lemma_card(vals(self.data@), 0);
    }
}

/// Append the in-order traversal of the subtree rooted at slot `i` to
/// `out`.
fn collect_in_order(data: &Vec<Node>, i: usize, out: &mut Vec<u64>)
    requires
        valid_at(vals(data@), i as int),
        data@.len() <= 0x7fff_ffff,
    ensures
        final(out)@ == old(out)@ + sub_inorder(vals(data@), i as int),
    decreases sub_cap(data@.len() as int, i as int),
{
    if i >= data.len() {
        proof {
            assert(!occupied(vals(data@), i as int));
            assert(out@ =~= out@ + sub_inorder(vals(data@), i as int));
        }
        return ;
    }
    proof {
        assert(vals(data@)[i as int] == data@[i as int].value);
    }
    let slot = data[i];
    match slot.value {
        None => {
            proof {
                assert(!occupied(vals(data@), i as int));
                assert(out@ =~= out@ + sub_inorder(vals(data@), i as int));
            }
        },
        Some(v) => {
            let ghost out0 = out@;
            collect_in_order(data, 2 * i + 1, out);
            out.push(v);
            collect_in_order(data, 2 * i + 2, out);
            proof {
                let s = vals(data@);
                let ii = i as int;
                assert(s[ii]->Some_0 == v);
                assert(out@ =~= out0 + sub_inorder(s, ii));
            }
        },
    }
}

} // verus!
