//! The red-black index that a tree bin keeps over its entries.
//!
//! A tree cell owns nothing but its two subtrees: it names its entry by the
//! entry's position in the bin's linked ordering, and is there for navigation
//! only. All order comparisons go through that ordering.
use vstd::prelude::*;
use crate::order::above;
use crate::order::below;
use crate::order::key_laws;
use crate::order::lemma_slot_lt_transitive;
use crate::order::slot_lt;

verus! {

/// One cell of the red-black tree.
pub struct TreeNode {
    /// Position of this cell's entry in the bin's ordering.
    pub entry: usize,
    pub red: bool,
    pub left: Option<Box<TreeNode>>,
    pub right: Option<Box<TreeNode>>,
}

/// The positions that the cells of `t` name.
pub open spec fn members(t: Option<Box<TreeNode>>) -> Set<usize>
    decreases t,
{
    match t {
        None => Set::empty(),
        Some(n) => members(n.left).union(members(n.right)).insert(n.entry),
    }
}

/// The colour of a subtree's root; the empty subtree counts as black.
pub open spec fn is_red(t: Option<Box<TreeNode>>) -> bool {
    match t {
        None => false,
        Some(n) => n.red,
    }
}

/// Number of black cells on the leftmost path of `t`.
pub open spec fn black_height(t: Option<Box<TreeNode>>) -> nat
    decreases t,
{
    match t {
        None => 0,
        Some(n) => black_height(n.left) + if n.red { 0nat } else { 1nat },
    }
}

/// Every path from the root of `t` to an empty subtree passes the same number
/// of black cells.
pub open spec fn balanced(t: Option<Box<TreeNode>>) -> bool
    decreases t,
{
    match t {
        None => true,
        Some(n) => balanced(n.left) && balanced(n.right) && black_height(n.left) == black_height(
            n.right,
        ),
    }
}

/// No red cell of `t` has a red child.
pub open spec fn no_red_red(t: Option<Box<TreeNode>>) -> bool
    decreases t,
{
    match t {
        None => true,
        Some(n) => (n.red ==> !is_red(n.left) && !is_red(n.right)) && no_red_red(n.left)
            && no_red_red(n.right),
    }
}

/// `t` is a search tree over the pairs `s`, all of them strictly between `lo`
/// and `hi`.
pub open spec fn ordered<K: Ord>(
    t: Option<Box<TreeNode>>,
    s: Seq<(u64, K)>,
    lo: Option<(u64, K)>,
    hi: Option<(u64, K)>,
) -> bool
    decreases t,
{
    match t {
        None => true,
        Some(n) => {
            &&& n.entry < s.len()
            &&& above(lo, s[n.entry as int])
            &&& below(s[n.entry as int], hi)
            &&& ordered(n.left, s, lo, Some(s[n.entry as int]))
            &&& ordered(n.right, s, Some(s[n.entry as int]), hi)
        }
    }
}

/// The red-black invariants of a whole tree: black root, no red cell with a
/// red child, equal black height on every path.
pub open spec fn red_black(t: Option<Box<TreeNode>>) -> bool {
    !is_red(t) && no_red_red(t) && balanced(t)
}

/// The subtrees of `t` are free of red-red edges, and a red root of `t` has
/// at most one red child: what an insertion may leave behind one level up.
pub open spec fn nearly_red_black(t: Option<Box<TreeNode>>) -> bool {
    match t {
        None => true,
        Some(n) => no_red_red(n.left) && no_red_red(n.right) && (n.red ==> !(is_red(n.left)
            && is_red(n.right))),
    }
}

/// Every position named in an ordered subtree lies strictly inside its bounds.
pub proof fn lemma_member_bounds<K: Ord>(
    t: Option<Box<TreeNode>>,
    s: Seq<(u64, K)>,
    lo: Option<(u64, K)>,
    hi: Option<(u64, K)>,
    i: usize,
)
    requires
        key_laws::<K>(),
        ordered(t, s, lo, hi),
        members(t).contains(i),
    ensures
        i < s.len(),
        above(lo, s[i as int]),
        below(s[i as int], hi),
    decreases t,
{
    let n = t.unwrap();
    let mid = s[n.entry as int];
    if i == n.entry {
    } else if members(n.left).contains(i) {
        lemma_member_bounds(n.left, s, lo, Some(mid), i);
        if hi.is_some() {
            lemma_slot_lt_transitive(s[i as int], mid, hi.unwrap());
        }
    } else {
        lemma_member_bounds(n.right, s, Some(mid), hi, i);
        if lo.is_some() {
            lemma_slot_lt_transitive(lo.unwrap(), mid, s[i as int]);
        }
    }
}

/// An ordered subtree stays ordered under wider bounds.
pub proof fn lemma_ordered_widen<K: Ord>(
    t: Option<Box<TreeNode>>,
    s: Seq<(u64, K)>,
    lo: Option<(u64, K)>,
    hi: Option<(u64, K)>,
    lo2: Option<(u64, K)>,
    hi2: Option<(u64, K)>,
)
    requires
        key_laws::<K>(),
        ordered(t, s, lo, hi),
        lo2.is_some() ==> lo.is_some() && (lo2 == lo || slot_lt(lo2.unwrap(), lo.unwrap())),
        hi2.is_some() ==> hi.is_some() && (hi2 == hi || slot_lt(hi.unwrap(), hi2.unwrap())),
    ensures
        ordered(t, s, lo2, hi2),
    decreases t,
{
    if t.is_some() {
        let n = t.unwrap();
        let mid = s[n.entry as int];
        if lo2.is_some() && lo2 != lo {
            lemma_slot_lt_transitive(lo2.unwrap(), lo.unwrap(), mid);
        }
        if hi2.is_some() && hi2 != hi {
            lemma_slot_lt_transitive(mid, hi.unwrap(), hi2.unwrap());
        }
        lemma_ordered_widen(n.left, s, lo, Some(mid), lo2, Some(mid));
        lemma_ordered_widen(n.right, s, Some(mid), hi, Some(mid), hi2);
    }
}

/// Order depends only on the pairs that the subtree names: appending pairs
/// behind them changes nothing.
pub proof fn lemma_ordered_extend<K: Ord>(
    t: Option<Box<TreeNode>>,
    s: Seq<(u64, K)>,
    s2: Seq<(u64, K)>,
    lo: Option<(u64, K)>,
    hi: Option<(u64, K)>,
)
    requires
        ordered(t, s, lo, hi),
        s.len() <= s2.len(),
        forall|i: int| 0 <= i < s.len() ==> s[i] == s2[i],
    ensures
        ordered(t, s2, lo, hi),
    decreases t,
{
    if t.is_some() {
        let n = t.unwrap();
        let mid = s[n.entry as int];
        lemma_ordered_extend(n.left, s, s2, lo, Some(mid));
        lemma_ordered_extend(n.right, s, s2, Some(mid), hi);
    }
}

/// Lifts the right child of `p` into its place; `p` becomes the left child.
pub fn rotate_left(p: Box<TreeNode>) -> (r: Box<TreeNode>)
    requires
        p.right.is_some(),
    ensures
        r.entry == p.right.unwrap().entry,
        r.red == p.right.unwrap().red,
        r.right == p.right.unwrap().right,
        r.left == Some(
            Box::new(
                TreeNode {
                    entry: p.entry,
                    red: p.red,
                    left: p.left,
                    right: p.right.unwrap().left,
                },
            ),
        ),
{
    let mut p = p;
    let mut r = p.right.take().unwrap();
    p.right = r.left.take();
    r.left = Some(p);
    r
}

/// Lifts the left child of `p` into its place; `p` becomes the right child.
pub fn rotate_right(p: Box<TreeNode>) -> (r: Box<TreeNode>)
    requires
        p.left.is_some(),
    ensures
        r.entry == p.left.unwrap().entry,
        r.red == p.left.unwrap().red,
        r.left == p.left.unwrap().left,
        r.right == Some(
            Box::new(
                TreeNode {
                    entry: p.entry,
                    red: p.red,
                    left: p.left.unwrap().right,
                    right: p.right,
                },
            ),
        ),
{
    let mut p = p;
    let mut l = p.left.take().unwrap();
    p.left = l.right.take();
    l.right = Some(p);
    l
}

/// A left rotation keeps the positions named and the search order.
pub proof fn lemma_rotate_left<K: Ord>(
    p: Box<TreeNode>,
    r: Box<TreeNode>,
    s: Seq<(u64, K)>,
    lo: Option<(u64, K)>,
    hi: Option<(u64, K)>,
)
    requires
        key_laws::<K>(),
        p.right.is_some(),
        r.entry == p.right.unwrap().entry,
        r.right == p.right.unwrap().right,
        r.left.is_some(),
        r.left.unwrap().entry == p.entry,
        r.left.unwrap().left == p.left,
        r.left.unwrap().right == p.right.unwrap().left,
    ensures
        members(Some(r)) == members(Some(p)),
        ordered(Some(p), s, lo, hi) ==> ordered(Some(r), s, lo, hi),
{
    reveal_with_fuel(members, 3);
    reveal_with_fuel(ordered, 3);
    assert(members(Some(r)) =~= members(Some(p)));
    if ordered(Some(p), s, lo, hi) {
        let sp = s[p.entry as int];
        let sr = s[r.entry as int];
        if lo.is_some() {
            lemma_slot_lt_transitive(lo.unwrap(), sp, sr);
        }
        if hi.is_some() {
            lemma_slot_lt_transitive(sp, sr, hi.unwrap());
        }
        lemma_ordered_widen(p.left, s, lo, Some(sp), lo, Some(sp));
    }
}

/// A right rotation keeps the positions named and the search order.
pub proof fn lemma_rotate_right<K: Ord>(
    p: Box<TreeNode>,
    r: Box<TreeNode>,
    s: Seq<(u64, K)>,
    lo: Option<(u64, K)>,
    hi: Option<(u64, K)>,
)
    requires
        key_laws::<K>(),
        p.left.is_some(),
        r.entry == p.left.unwrap().entry,
        r.left == p.left.unwrap().left,
        r.right.is_some(),
        r.right.unwrap().entry == p.entry,
        r.right.unwrap().right == p.right,
        r.right.unwrap().left == p.left.unwrap().right,
    ensures
        members(Some(r)) == members(Some(p)),
        ordered(Some(p), s, lo, hi) ==> ordered(Some(r), s, lo, hi),
{
    reveal_with_fuel(members, 3);
    reveal_with_fuel(ordered, 3);
    assert(members(Some(r)) =~= members(Some(p)));
    if ordered(Some(p), s, lo, hi) {
        let sp = s[p.entry as int];
        let sr = s[r.entry as int];
        if lo.is_some() {
            lemma_slot_lt_transitive(lo.unwrap(), sr, sp);
        }
        if hi.is_some() {
            lemma_slot_lt_transitive(sr, sp, hi.unwrap());
        }
    }
}

} // verus!
