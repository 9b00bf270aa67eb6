//! Checking the red-black index of a tree bin at run time.
use vstd::prelude::*;
use vstd::set_lib::lemma_len_subset;
use crate::node::slots;
use crate::node::Node;
use crate::order::below;
use crate::order::key_laws;
use crate::order::lemma_slot_lt_total;
use crate::order::slot_less;
use crate::tree::balanced;
use crate::tree::black_height;
use crate::tree::lemma_member_bounds;
use crate::tree::members;
use crate::tree::no_red_red;
use crate::tree::ordered;
use crate::tree::red_black;
use crate::tree::TreeNode;
use crate::tree_bin::TreeBin;
use crate::tree_insert::color_red;

verus! {

/// The positions below `n`.
pub open spec fn below_set(n: usize) -> Set<usize> {
    Set::new(|i: usize| i < n)
}

/// There are `n` positions below `n`.
pub proof fn lemma_below_set_len(n: usize)
    ensures
        below_set(n).finite(),
        below_set(n).len() == n,
    decreases n,
{
    if n == 0 {
        assert(below_set(n) =~= Set::<usize>::empty());
    } else {
        let m = (n - 1) as usize;
        lemma_below_set_len(m);
        assert(below_set(n) =~= below_set(m).insert(m));
    }
}

/// An ordered subtree names each position once, so that its black height
/// is at most the number of positions that it names.
pub proof fn lemma_black_height_bound<K: Ord>(
    t: Option<Box<TreeNode>>,
    s: Seq<(u64, K)>,
    lo: Option<(u64, K)>,
    hi: Option<(u64, K)>,
)
    requires
        key_laws::<K>(),
        ordered(t, s, lo, hi),
        s.len() <= usize::MAX,
    ensures
        members(t).finite(),
        members(t).subset_of(below_set(s.len() as usize)),
        black_height(t) <= members(t).len(),
        members(t).len() <= s.len(),
    decreases t,
{
    lemma_below_set_len(s.len() as usize);
    match t {
        None => {},
        Some(n) => {
            let mid = s[n.entry as int];
            lemma_black_height_bound(n.left, s, lo, Some(mid));
            lemma_black_height_bound(n.right, s, Some(mid), hi);
            assert forall|i: usize| members(n.left).contains(i) implies i != n.entry by {
                lemma_member_bounds(n.left, s, lo, Some(mid), i);
                lemma_slot_lt_total(s[i as int], mid);
            }
            let rest = members(n.left).union(members(n.right));
            assert(members(n.left).subset_of(rest));
            lemma_len_subset(members(n.left), rest);
            assert forall|i: usize| members(n.right).contains(i) implies i != n.entry by {
                lemma_member_bounds(n.right, s, Some(mid), hi, i);
                lemma_slot_lt_total(mid, s[i as int]);
            }
            assert(!rest.contains(n.entry));
            assert(members(t) =~= rest.insert(n.entry));
            lemma_len_subset(members(t), below_set(s.len() as usize));
        },
    }
}

/// Checks a subtree: that it is a search tree between the entries at `lo`
/// and `hi`, that no red cell has a red child, and that every path passes
/// the same number of black cells. Returns that number for a subtree that
/// passes.
pub fn check_subtree<K: Ord, V>(
    t: &Option<Box<TreeNode>>,
    nodes: &Vec<Node<K, V>>,
    lo: Option<usize>,
    hi: Option<usize>,
) -> (r: Option<usize>)
    requires
        key_laws::<K>(),
        lo.is_some() ==> lo.unwrap() < nodes.len(),
        hi.is_some() ==> hi.unwrap() < nodes.len(),
    ensures
        r.is_some() == (ordered(*t, slots(nodes@), bound_of(nodes@, lo), bound_of(nodes@, hi))
            && balanced(*t) && no_red_red(*t)),
        r.is_some() ==> r.unwrap() == black_height(*t),
    decreases *t,
{
    let ghost s = slots(nodes@);
    match t {
        None => Some(0),
        Some(n) => {
            let e = n.entry;
            if e >= nodes.len() {
                return None;
            }
            if let Some(l) = lo {
                if !slot_less(nodes[l].hash, &nodes[l].key, nodes[e].hash, &nodes[e].key) {
                    return None;
                }
            }
            if let Some(h) = hi {
                if !slot_less(nodes[e].hash, &nodes[e].key, nodes[h].hash, &nodes[h].key) {
                    return None;
                }
            }
            if n.red && (color_red(&n.left) || color_red(&n.right)) {
                return None;
            }
            let left = check_subtree(&n.left, nodes, lo, Some(e));
            let right = check_subtree(&n.right, nodes, Some(e), hi);
            match (left, right) {
                (Some(a), Some(b)) => {
                    if a != b {
                        return None;
                    }
                    proof {
                        lemma_black_height_bound(
                            *t,
                            s,
                            bound_of(nodes@, lo),
                            bound_of(nodes@, hi),
                        );
                    }
                    if n.red {
                        Some(a)
                    } else {
                        Some(a + 1)
                    }
                },
                _ => None,
            }
        },
    }
}

/// The pair of the entry at an optional position.
pub open spec fn bound_of<K, V>(nodes: Seq<Node<K, V>>, at: Option<usize>) -> Option<(u64, K)> {
    match at {
        None => None,
        Some(i) => Some(slots(nodes)[i as int]),
    }
}

impl<K: Ord, V> TreeBin<K, V> {
    /// Checks the index: that it is a search tree in hash-then-key order,
    /// that its root is black, that no red cell has a red child, and that
    /// every path from the root down passes the same number of black
    /// cells.
    pub fn check_invariants(&self) -> (r: bool)
        requires
            key_laws::<K>(),
        ensures
            r == (ordered(self.root, slots(self.nodes@), None, None) && red_black(self.root)),
    {
        if color_red(&self.root) {
            return false;
        }
        check_subtree(&self.root, &self.nodes, None, None).is_some()
    }
}

} // verus!
