//! The addressing scheme of the slot array and the specification functions
//! that read a subtree out of it.
//!
//! A slot either holds a value or is empty; the slot array is abstracted as a
//! `Seq<Option<u64>>`. The node in slot `i` has its left child in slot
//! `2*i + 1` and its right child in slot `2*i + 2`, so every structural
//! notion (height, the value set, the in-order sequence, validity) is a
//! recursive function of the sequence and a root index.

use vstd::prelude::*;

verus! {

/// Address of the left child of slot `i`.
pub open spec fn left_of(i: int) -> int {
    2 * i + 1
}

/// Address of the right child of slot `i`.
pub open spec fn right_of(i: int) -> int {
    2 * i + 2
}

/// Slot `j` lies in the address subtree rooted at slot `i`: walking parents
/// from `j` reaches `i`.
pub open spec fn desc(i: int, j: int) -> bool
    decreases j,
{
    if i < 0 || j < i {
        false
    } else if j == i {
        true
    } else {
        desc(i, (j - 1) / 2)
    }
}

/// Termination measure for recursions that walk from slot `i` toward the
/// children: the number of slots at or after `i`.
pub open spec fn sub_cap(len: int, i: int) -> nat {
    if 0 <= i < len {
        (len - i) as nat
    } else {
        0
    }
}

/// Slot `i` exists and holds a value.
pub open spec fn occupied(s: Seq<Option<u64>>, i: int) -> bool {
    0 <= i < s.len() && s[i] is Some
}

/// Height of the subtree rooted at slot `i`: 0 for an empty subtree, and a
/// leaf has height 1.
pub open spec fn sub_height(s: Seq<Option<u64>>, i: int) -> nat
    decreases sub_cap(s.len() as int, i),
{
    if !occupied(s, i) {
        0
    } else {
        let lh = sub_height(s, left_of(i));
        let rh = sub_height(s, right_of(i));
        if lh >= rh {
            lh + 1
        } else {
            rh + 1
        }
    }
}

/// Number of occupied slots in the subtree rooted at slot `i`.
pub open spec fn sub_size(s: Seq<Option<u64>>, i: int) -> nat
    decreases sub_cap(s.len() as int, i),
{
    if !occupied(s, i) {
        0
    } else {
        1 + sub_size(s, left_of(i)) + sub_size(s, right_of(i))
    }
}

/// Set of values held by the subtree rooted at slot `i`.
pub open spec fn sub_values(s: Seq<Option<u64>>, i: int) -> Set<u64>
    decreases sub_cap(s.len() as int, i),
{
    if !occupied(s, i) {
        Set::empty()
    } else {
        sub_values(s, left_of(i)).union(sub_values(s, right_of(i))).insert(s[i]->Some_0)
    }
}

/// In-order sequence of the subtree rooted at slot `i`: left subtree, then
/// the slot's own value, then the right subtree.
pub open spec fn sub_inorder(s: Seq<Option<u64>>, i: int) -> Seq<u64>
    decreases sub_cap(s.len() as int, i),
{
    if !occupied(s, i) {
        Seq::empty()
    } else {
        sub_inorder(s, left_of(i)) + seq![s[i]->Some_0] + sub_inorder(s, right_of(i))
    }
}

/// Every slot of the address subtree rooted at `i` is empty.
pub open spec fn clear_below(s: Seq<Option<u64>>, i: int) -> bool {
    forall|j: int| 0 <= j < s.len() && desc(i, j) ==> s[j] is None
}

/// The subtree rooted at slot `i` is a well-formed AVL tree fragment:
/// an empty slot has an entirely empty subtree (so every occupied slot is
/// reachable from the root through occupied slots), values obey the
/// binary-search-tree order, and the two child heights of every occupied
/// slot differ by at most one.
pub open spec fn valid_at(s: Seq<Option<u64>>, i: int) -> bool
    decreases sub_cap(s.len() as int, i),
{
    if !occupied(s, i) {
        clear_below(s, i)
    } else {
        let v = s[i]->Some_0;
        &&& valid_at(s, left_of(i))
        &&& valid_at(s, right_of(i))
        &&& (forall|x: u64| sub_values(s, left_of(i)).contains(x) ==> x < v)
        &&& (forall|x: u64| sub_values(s, right_of(i)).contains(x) ==> x > v)
        &&& sub_height(s, left_of(i)) <= sub_height(s, right_of(i)) + 1
        &&& sub_height(s, right_of(i)) <= sub_height(s, left_of(i)) + 1
    }
}

/// The sequence is strictly ascending.
pub open spec fn strictly_sorted(q: Seq<u64>) -> bool {
    forall|a: int, b: int| 0 <= a < b < q.len() ==> q[a] < q[b]
}

/// The Fibonacci numbers, used to state the AVL height guarantee.
pub open spec fn fib(n: nat) -> nat
    decreases n,
{
    if n == 0 {
        0
    } else if n == 1 {
        1
    } else {
        fib((n - 1) as nat) + fib((n - 2) as nat)
    }
}

} // verus!

verus! {

/// Walking parents is transitive: a subtree of a subtree of `a` lies in the
/// subtree of `a`.
pub proof fn lemma_desc_trans(a: int, b: int, c: int)
    requires
        desc(a, b),
        desc(b, c),
    ensures
        desc(a, c),
    decreases c,
{
    if c != b {
        lemma_desc_trans(a, b, (c - 1) / 2);
    }
}

/// A strict descendant of slot `i` is a descendant of one of its children.
pub proof fn lemma_desc_split(i: int, j: int)
    requires
        0 <= i,
        desc(i, j),
        j != i,
    ensures
        desc(left_of(i), j) || desc(right_of(i), j),
    decreases j,
{
    let p = (j - 1) / 2;
    if p == i {
        assert(j == 2 * i + 1 || j == 2 * i + 2);
    } else {
        lemma_desc_split(i, p);
    }
}

/// The two child subtrees of a slot are disjoint address regions.
pub proof fn lemma_sibling_disjoint(i: int, j: int)
    requires
        0 <= i,
    ensures
        !(desc(left_of(i), j) && desc(right_of(i), j)),
    decreases j,
{
    if j == 2 * i + 2 {
        assert((j - 1) / 2 == i);
        assert(!desc(left_of(i), i));
        assert(!desc(left_of(i), j));
    } else if j > 2 * i + 2 {
        lemma_sibling_disjoint(i, (j - 1) / 2);
        assert(desc(left_of(i), j) ==> desc(left_of(i), (j - 1) / 2));
        assert(desc(right_of(i), j) ==> desc(right_of(i), (j - 1) / 2));
    }
}

/// Every slot lies in the subtree of the root slot 0.
pub proof fn lemma_desc_root(j: int)
    requires
        0 <= j,
    ensures
        desc(0, j),
    decreases j,
{
    if j > 0 {
        lemma_desc_root((j - 1) / 2);
    }
}

/// Everything a subtree specification says about slot `i` depends only on
/// the slots of the address subtree of `i`.
pub proof fn lemma_frame(s1: Seq<Option<u64>>, s2: Seq<Option<u64>>, i: int)
    requires
        s1.len() == s2.len(),
        forall|j: int| 0 <= j < s1.len() && desc(i, j) ==> s1[j] == s2[j],
    ensures
        sub_height(s1, i) == sub_height(s2, i),
        sub_size(s1, i) == sub_size(s2, i),
        sub_values(s1, i) == sub_values(s2, i),
        sub_inorder(s1, i) == sub_inorder(s2, i),
        clear_below(s1, i) == clear_below(s2, i),
        valid_at(s1, i) == valid_at(s2, i),
    decreases sub_cap(s1.len() as int, i),
{
    if 0 <= i < s1.len() {
        assert(desc(i, i));
        assert(s1[i] == s2[i]);
        assert forall|j: int| 0 <= j < s1.len() && desc(left_of(i), j) implies s1[j] == s2[j] by {
            assert(desc(i, left_of(i)));
            lemma_desc_trans(i, left_of(i), j);
        }
        assert forall|j: int| 0 <= j < s1.len() && desc(right_of(i), j) implies s1[j] == s2[j] by {
            assert(desc(i, right_of(i)));
            lemma_desc_trans(i, right_of(i), j);
        }
        lemma_frame(s1, s2, left_of(i));
        lemma_frame(s1, s2, right_of(i));
        assert(clear_below(s1, i) ==> clear_below(s2, i));
        assert(clear_below(s2, i) ==> clear_below(s1, i));
    } else {
        assert(!occupied(s1, i));
        assert(!occupied(s2, i));
        assert(clear_below(s1, i)) by {
            assert forall|j: int| 0 <= j < s1.len() && desc(i, j) implies s1[j] is None by {
                assert(j >= i || !desc(i, j));
            }
        }
        assert(clear_below(s2, i));
    }
}

/// A fully empty address subtree is a valid empty tree fragment.
pub proof fn lemma_clear_props(s: Seq<Option<u64>>, i: int)
    requires
        clear_below(s, i),
    ensures
        sub_height(s, i) == 0,
        sub_size(s, i) == 0,
        sub_values(s, i) == Set::<u64>::empty(),
        sub_inorder(s, i) == Seq::<u64>::empty(),
        valid_at(s, i),
{
    if occupied(s, i) {
        assert(desc(i, i));
        assert(false);
    }
}

/// One comparison step of a search: under the binary-search-tree order the
/// sought value can only live on the side its comparison selects.
pub proof fn lemma_search_step(s: Seq<Option<u64>>, i: int, x: u64)
    requires
        valid_at(s, i),
        occupied(s, i),
    ensures
        x < s[i]->Some_0 ==> sub_values(s, i).contains(x) == sub_values(s, left_of(i)).contains(x),
        x > s[i]->Some_0 ==> sub_values(s, i).contains(x) == sub_values(s, right_of(i)).contains(x),
        sub_values(s, i).contains(s[i]->Some_0),
{
    let v = s[i]->Some_0;
    if x < v {
        assert(!sub_values(s, right_of(i)).contains(x));
    }
    if x > v {
        assert(!sub_values(s, left_of(i)).contains(x));
    }
}

} // verus!

verus! {

/// Length of the slot array that exactly holds every address of a tree of
/// height `h`: 0, 1, 3, 7, ... (one less than a power of two).
pub open spec fn full_len(h: nat) -> nat
    decreases h,
{
    if h == 0 {
        0
    } else {
        2 * full_len((h - 1) as nat) + 1
    }
}

/// Every address a subtree of height `h` rooted at slot `i` can occupy lies
/// below `len`.
pub open spec fn fits(i: int, h: nat, len: int) -> bool
    decreases h,
{
    h == 0 || (0 <= i < len && fits(left_of(i), (h - 1) as nat, len) && fits(
        right_of(i),
        (h - 1) as nat,
        len,
    ))
}

/// A shorter subtree fits wherever a taller one does.
pub proof fn lemma_fits_mono(i: int, h1: nat, h2: nat, len: int)
    requires
        h1 <= h2,
        fits(i, h2, len),
    ensures
        fits(i, h1, len),
    decreases h2,
{
    if h1 > 0 {
        lemma_fits_mono(left_of(i), (h1 - 1) as nat, (h2 - 1) as nat, len);
        lemma_fits_mono(right_of(i), (h1 - 1) as nat, (h2 - 1) as nat, len);
    }
}

/// Moving a fitting subtree one level down (to either child address) still
/// fits once the array grows from `len` to `2 * len + 1`.
pub proof fn lemma_fits_grow(i: int, h: nat, len: int)
    requires
        fits(i, h, len),
    ensures
        fits(left_of(i), h, 2 * len + 1),
        fits(right_of(i), h, 2 * len + 1),
    decreases h,
{
    if h > 0 {
        lemma_fits_grow(left_of(i), (h - 1) as nat, len);
        lemma_fits_grow(right_of(i), (h - 1) as nat, len);
    }
}

/// A tree of height `h` fits at the root of an array of length `full_len(h)`.
pub proof fn lemma_fits_root(h: nat)
    ensures
        fits(0, h, full_len(h) as int),
    decreases h,
{
    if h > 0 {
        lemma_fits_root((h - 1) as nat);
        lemma_fits_grow(0, (h - 1) as nat, full_len((h - 1) as nat) as int);
    }
}

/// `full_len` never shrinks as the height grows.
pub proof fn lemma_full_len_mono(h1: nat, h2: nat)
    requires
        h1 <= h2,
    ensures
        full_len(h1) <= full_len(h2),
    decreases h2,
{
    if h1 > 0 && h2 > 0 {
        lemma_full_len_mono((h1 - 1) as nat, (h2 - 1) as nat);
    }
}

} // verus!

verus! {

/// A slot's children lie in its subtree.
pub proof fn lemma_desc_child(i: int)
    requires
        0 <= i,
    ensures
        desc(i, left_of(i)),
        desc(i, right_of(i)),
{
    assert((2 * i + 1 - 1) / 2 == i);
    assert((2 * i + 2 - 1) / 2 == i);
    assert(desc(i, i));
}

} // verus!

verus! {

use vstd::seq_lib::seq_to_set_distributes_over_add;
use vstd::seq_lib::seq_to_set_is_finite;

/// The in-order sequence of a valid subtree is strictly ascending, visits
/// exactly the subtree's value set, and has one entry per occupied slot.
pub proof fn lemma_inorder_props(s: Seq<Option<u64>>, i: int)
    requires
        valid_at(s, i),
    ensures
        strictly_sorted(sub_inorder(s, i)),
        sub_inorder(s, i).to_set() == sub_values(s, i),
        sub_inorder(s, i).len() == sub_size(s, i),
    decreases sub_cap(s.len() as int, i),
{
    if !occupied(s, i) {
        assert(sub_inorder(s, i).to_set() =~= Set::<u64>::empty());
    } else {
        let v = s[i]->Some_0;
        let ql = sub_inorder(s, left_of(i));
        let qm = seq![v];
        let qr = sub_inorder(s, right_of(i));
        let q = ql + qm + qr;
        lemma_inorder_props(s, left_of(i));
        lemma_inorder_props(s, right_of(i));
        seq_to_set_distributes_over_add(ql, qm);
        seq_to_set_distributes_over_add(ql + qm, qr);
        assert(qm.to_set() =~= Set::<u64>::empty().insert(v)) by {
            assert(qm[0] == v);
            assert forall|x: u64| qm.to_set().contains(x) implies x == v by {
                assert(qm.contains(x));
            }
            assert(qm.contains(v));
        }
        assert(q.to_set() =~= sub_values(s, i));
        assert(strictly_sorted(q)) by {
            assert forall|a: int, b: int| 0 <= a < b < q.len() implies q[a] < q[b] by {
                let nl = ql.len() as int;
                if a < nl {
                    assert(q[a] == ql[a]);
                    assert(ql.to_set().contains(ql[a])) by {
                        assert(ql.contains(ql[a]));
                    }
                    assert(ql[a] < v);
                }
                if b < nl {
                    assert(q[b] == ql[b]);
                }
                if b > nl {
                    assert(q[b] == qr[b - nl - 1]);
                    assert(qr.to_set().contains(qr[b - nl - 1])) by {
                        assert(qr.contains(qr[b - nl - 1]));
                    }
                    assert(qr[b - nl - 1] > v);
                }
                if a > nl {
                    assert(q[a] == qr[a - nl - 1]);
                }
                if a == nl {
                    assert(q[a] == v);
                }
                if b == nl {
                    assert(q[b] == v);
                }
            }
        }
    }
}

/// A valid subtree holds as many distinct values as occupied slots.
pub proof fn lemma_card(s: Seq<Option<u64>>, i: int)
    requires
        valid_at(s, i),
    ensures
        sub_values(s, i).finite(),
        sub_values(s, i).len() == sub_size(s, i),
{
    let q = sub_inorder(s, i);
    lemma_inorder_props(s, i);
    assert(q.no_duplicates()) by {
        assert forall|a: int, b: int|
            0 <= a < q.len() && 0 <= b < q.len() && a != b implies q[a] != q[b] by {
            if a < b {
                assert(q[a] < q[b]);
            } else {
                assert(q[b] < q[a]);
            }
        }
    }
    q.unique_seq_to_set();
    seq_to_set_is_finite(q);
}

/// Every occupied slot of a valid tree keeps its two child heights within
/// one of each other.
pub proof fn lemma_balance_below(s: Seq<Option<u64>>, r: int, j: int)
    requires
        valid_at(s, r),
        0 <= r,
        desc(r, j),
        occupied(s, j),
    ensures
        sub_height(s, left_of(j)) <= sub_height(s, right_of(j)) + 1,
        sub_height(s, right_of(j)) <= sub_height(s, left_of(j)) + 1,
    decreases sub_cap(s.len() as int, r),
{
    if j == r {
    } else {
        lemma_desc_split(r, j);
        if !occupied(s, r) {
            assert(s[j] is None);
            assert(false);
        }
        if desc(left_of(r), j) {
            lemma_balance_below(s, left_of(r), j);
        } else {
            lemma_balance_below(s, right_of(r), j);
        }
    }
}

/// Fibonacci numbers never decrease.
pub proof fn lemma_fib_mono(a: nat, b: nat)
    requires
        a <= b,
    ensures
        fib(a) <= fib(b),
    decreases b,
{
    if a < b && b >= 2 {
        lemma_fib_mono(a, (b - 1) as nat);
    }
}

/// The AVL balance invariant forces a minimal number of nodes for a given
/// height: a valid subtree of height `h` has at least `fib(h + 2) - 1`
/// occupied slots. This is the classical AVL height guarantee; since
/// `fib(h)` grows as the golden ratio to the `h`-th power, it bounds the
/// height by roughly `1.44 * log2(n + 2)` for `n` stored values.
pub proof fn lemma_fib_bound(s: Seq<Option<u64>>, i: int)
    requires
        valid_at(s, i),
    ensures
        fib(sub_height(s, i) + 2) <= sub_size(s, i) + 1,
    decreases sub_cap(s.len() as int, i),
{
    if !occupied(s, i) {
        assert(fib(2) == 1) by {
            reveal_with_fuel(fib, 3);
        }
    } else {
        let lh = sub_height(s, left_of(i));
        let rh = sub_height(s, right_of(i));
        let h = sub_height(s, i);
        lemma_fib_bound(s, left_of(i));
        lemma_fib_bound(s, right_of(i));
        if lh >= rh {
            assert(h == lh + 1);
            lemma_fib_mono(h, rh + 2);
        } else {
            assert(h == rh + 1);
            lemma_fib_mono(h, lh + 2);
        }
        assert(fib(h + 2) == fib(h + 1) + fib(h));
    }
}

} // verus!

verus! {

/// The Fibonacci number the capacity argument compares against.
pub proof fn lemma_fib_34()
    ensures
        fib(34) == 5702887,
{
    assert(fib(0) == 0);
    assert(fib(1) == 1);
    assert(fib(2) == 1);
    assert(fib(3) == 2);
    assert(fib(4) == 3);
    assert(fib(5) == 5);
    assert(fib(6) == 8);
    assert(fib(7) == 13);
    assert(fib(8) == 21);
    assert(fib(9) == 34);
    assert(fib(10) == 55);
    assert(fib(11) == 89);
    assert(fib(12) == 144);
    assert(fib(13) == 233);
    assert(fib(14) == 377);
    assert(fib(15) == 610);
    assert(fib(16) == 987);
    assert(fib(17) == 1597);
    assert(fib(18) == 2584);
    assert(fib(19) == 4181);
    assert(fib(20) == 6765);
    assert(fib(21) == 10946);
    assert(fib(22) == 17711);
    assert(fib(23) == 28657);
    assert(fib(24) == 46368);
    assert(fib(25) == 75025);
    assert(fib(26) == 121393);
    assert(fib(27) == 196418);
    assert(fib(28) == 317811);
    assert(fib(29) == 514229);
    assert(fib(30) == 832040);
    assert(fib(31) == 1346269);
    assert(fib(32) == 2178309);
    assert(fib(33) == 3524578);
    assert(fib(34) == 5702887);
}

} // verus!
