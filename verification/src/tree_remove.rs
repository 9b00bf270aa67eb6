//! Removal from the red-black index, with rebalancing.
use vstd::prelude::*;
use crate::node::Node;
use crate::node::slots;
use crate::order::above;
use crate::order::below;
use crate::order::key_laws;
use crate::order::lemma_slot_lt_total;
use crate::order::lemma_slot_lt_transitive;
use crate::order::slot_less;
use crate::order::slot_lt;
use crate::tree::balanced;
use crate::tree::black_height;
use crate::tree::is_red;
use crate::tree::lemma_member_bounds;
use crate::tree::lemma_ordered_widen;
use crate::tree::lemma_rotate_left;
use crate::tree::lemma_rotate_right;
use crate::tree::members;
use crate::tree::no_red_red;
use crate::tree::ordered;
use crate::tree::rotate_left;
use crate::tree::rotate_right;
use crate::tree::TreeNode;
use crate::tree_insert::color_red;

verus! {

/// What `balance_deletion` asks of the cell `p` whose left (`left_short`) or
/// right subtree has lost one black cell on every path.
pub open spec fn one_side_short(p: Box<TreeNode>, left_short: bool) -> bool {
    &&& balanced(p.left)
    &&& balanced(p.right)
    &&& no_red_red(p.left)
    &&& no_red_red(p.right)
    &&& if left_short {
        black_height(p.left) + 1 == black_height(p.right) && !is_red(p.left) && (p.red ==> !is_red(
            p.right,
        ))
    } else {
        black_height(p.right) + 1 == black_height(p.left) && !is_red(p.right) && (p.red
            ==> !is_red(p.left))
    }
}

/// The black height that the subtree at `p` had before one side fell short.
pub open spec fn height_before(p: Box<TreeNode>, left_short: bool) -> nat {
    (if left_short {
        black_height(p.right)
    } else {
        black_height(p.left)
    }) + if p.red {
        0nat
    } else {
        1nat
    }
}

/// The result `r` of rebalancing below `p`: a red-black subtree over the same
/// entries, which is one black cell short (`short`) only where recolouring
/// could not make up for the loss.
pub open spec fn rebalanced<K: Ord>(
    p: Box<TreeNode>,
    left_short: bool,
    r: Box<TreeNode>,
    short: bool,
    s: Seq<(u64, K)>,
    lo: Option<(u64, K)>,
    hi: Option<(u64, K)>,
) -> bool {
    &&& members(Some(r)) == members(Some(p))
    &&& ordered(Some(r), s, lo, hi)
    &&& balanced(Some(r))
    &&& no_red_red(Some(r))
    &&& black_height(Some(r)) + (if short {
        1nat
    } else {
        0nat
    }) == height_before(p, left_short)
    &&& (!p.red ==> !is_red(Some(r)))
    &&& (short ==> !p.red)
}

/// Rebalances below `p` when its left subtree is short and its right child
/// is black.
fn balance_short_left<K: Ord>(
    p: Box<TreeNode>,
    Ghost(s): Ghost<Seq<(u64, K)>>,
    Ghost(lo): Ghost<Option<(u64, K)>>,
    Ghost(hi): Ghost<Option<(u64, K)>>,
) -> (r: (Box<TreeNode>, bool))
    requires
        key_laws::<K>(),
        ordered(Some(p), s, lo, hi),
        one_side_short(p, true),
        !is_red(p.right),
    ensures
        rebalanced(p, true, r.0, r.1, s, lo, hi),
{
    let mut p = p;
    let ghost p0 = p;
    let ghost mid = s[p0.entry as int];
    proof {
        reveal_with_fuel(balanced, 3);
        reveal_with_fuel(black_height, 3);
        reveal_with_fuel(no_red_red, 3);
    }
    let mut sib = p.right.take().unwrap();
    if !color_red(&sib.left) && !color_red(&sib.right) {
        sib.red = true;
        p.right = Some(sib);
        let short = !p.red;
        p.red = false;
        proof {
            reveal_with_fuel(members, 2);
            reveal_with_fuel(ordered, 2);
            assert(members(Some(p)) =~= members(Some(p0)));
        }
        (p, short)
    } else {
        if !color_red(&sib.right) {
            let ghost sib0 = sib;
            let mut near = sib.left.take().unwrap();
            near.red = false;
            sib.left = Some(near);
            sib.red = true;
            let ghost sib1 = sib;
            sib = rotate_right(sib);
            proof {
                reveal_with_fuel(members, 3);
                reveal_with_fuel(ordered, 3);
                assert(ordered(Some(sib0), s, Some(mid), hi));
                assert(members(Some(sib1)) =~= members(Some(sib0)));
                assert(ordered(Some(sib1), s, Some(mid), hi));
                lemma_rotate_right(sib1, sib, s, Some(mid), hi);
            }
        }
        let ghost sib2 = sib;
        sib.red = p.red;
        p.red = false;
        let mut far = sib.right.take().unwrap();
        far.red = false;
        sib.right = Some(far);
        p.right = Some(sib);
        let ghost p1 = p;
        proof {
            reveal_with_fuel(members, 3);
            reveal_with_fuel(ordered, 3);
            assert(members(Some(sib)) =~= members(Some(sib2)));
            assert(ordered(Some(sib), s, Some(mid), hi));
            assert(members(Some(p1)) =~= members(Some(p0)));
            assert(ordered(Some(p1), s, lo, hi));
        }
        let r = rotate_left(p);
        proof {
            lemma_rotate_left(p1, r, s, lo, hi);
        }
        (r, false)
    }
}

/// Rebalances below `p` when its right subtree is short and its left child
/// is black.
fn balance_short_right<K: Ord>(
    p: Box<TreeNode>,
    Ghost(s): Ghost<Seq<(u64, K)>>,
    Ghost(lo): Ghost<Option<(u64, K)>>,
    Ghost(hi): Ghost<Option<(u64, K)>>,
) -> (r: (Box<TreeNode>, bool))
    requires
        key_laws::<K>(),
        ordered(Some(p), s, lo, hi),
        one_side_short(p, false),
        !is_red(p.left),
    ensures
        rebalanced(p, false, r.0, r.1, s, lo, hi),
{
    let mut p = p;
    let ghost p0 = p;
    let ghost mid = s[p0.entry as int];
    proof {
        reveal_with_fuel(balanced, 3);
        reveal_with_fuel(black_height, 3);
        reveal_with_fuel(no_red_red, 3);
    }
    let mut sib = p.left.take().unwrap();
    if !color_red(&sib.left) && !color_red(&sib.right) {
        sib.red = true;
        p.left = Some(sib);
        let short = !p.red;
        p.red = false;
        proof {
            reveal_with_fuel(members, 2);
            reveal_with_fuel(ordered, 2);
            assert(members(Some(p)) =~= members(Some(p0)));
        }
        (p, short)
    } else {
        if !color_red(&sib.left) {
            let ghost sib0 = sib;
            let mut near = sib.right.take().unwrap();
            near.red = false;
            sib.right = Some(near);
            sib.red = true;
            let ghost sib1 = sib;
            sib = rotate_left(sib);
            proof {
                reveal_with_fuel(members, 3);
                reveal_with_fuel(ordered, 3);
                assert(ordered(Some(sib0), s, lo, Some(mid)));
                assert(members(Some(sib1)) =~= members(Some(sib0)));
                assert(ordered(Some(sib1), s, lo, Some(mid)));
                lemma_rotate_left(sib1, sib, s, lo, Some(mid));
            }
        }
        let ghost sib2 = sib;
        sib.red = p.red;
        p.red = false;
        let mut far = sib.left.take().unwrap();
        far.red = false;
        sib.left = Some(far);
        p.left = Some(sib);
        let ghost p1 = p;
        proof {
            reveal_with_fuel(members, 3);
            reveal_with_fuel(ordered, 3);
            assert(members(Some(sib)) =~= members(Some(sib2)));
            assert(ordered(Some(sib), s, lo, Some(mid)));
            assert(members(Some(p1)) =~= members(Some(p0)));
            assert(ordered(Some(p1), s, lo, hi));
        }
        let r = rotate_right(p);
        proof {
            lemma_rotate_right(p1, r, s, lo, hi);
        }
        (r, false)
    }
}

/// Restores the red-black invariants below `p` after a removal left one of
/// its subtrees one black cell short. A red sibling is first rotated above
/// `p`; then the sibling is black, and is recoloured or rotated according to
/// the colours of its children. Returns the new subtree, and whether it is
/// itself one black cell short.
pub fn balance_deletion<K: Ord>(
    p: Box<TreeNode>,
    left_short: bool,
    Ghost(s): Ghost<Seq<(u64, K)>>,
    Ghost(lo): Ghost<Option<(u64, K)>>,
    Ghost(hi): Ghost<Option<(u64, K)>>,
) -> (r: (Box<TreeNode>, bool))
    requires
        key_laws::<K>(),
        ordered(Some(p), s, lo, hi),
        one_side_short(p, left_short),
    ensures
        rebalanced(p, left_short, r.0, r.1, s, lo, hi),
{
    let mut p = p;
    let ghost p0 = p;
    proof {
        reveal_with_fuel(balanced, 3);
        reveal_with_fuel(black_height, 3);
        reveal_with_fuel(no_red_red, 3);
    }
    if left_short {
        if color_red(&p.right) {
            let mut sib = p.right.take().unwrap();
            sib.red = false;
            p.right = Some(sib);
            p.red = true;
            let ghost p1 = p;
            proof {
                reveal_with_fuel(members, 2);
                reveal_with_fuel(ordered, 2);
                assert(members(Some(p1)) =~= members(Some(p0)));
                assert(ordered(Some(p1), s, lo, hi));
            }
            let mut top = rotate_left(p);
            proof {
                lemma_rotate_left(p1, top, s, lo, hi);
            }
            let ghost top0 = top;
            let ghost tmid = s[top0.entry as int];
            let low = top.left.take().unwrap();
            let fixed = balance_short_left::<K>(low, Ghost(s), Ghost(lo), Ghost(Some(tmid)));
            top.left = Some(fixed.0);
            proof {
                assert(members(Some(top)) =~= members(Some(top0)));
            }
            (top, false)
        } else {
            balance_short_left::<K>(p, Ghost(s), Ghost(lo), Ghost(hi))
        }
    } else {
        if color_red(&p.left) {
            let mut sib = p.left.take().unwrap();
            sib.red = false;
            p.left = Some(sib);
            p.red = true;
            let ghost p1 = p;
            proof {
                reveal_with_fuel(members, 2);
                reveal_with_fuel(ordered, 2);
                assert(members(Some(p1)) =~= members(Some(p0)));
                assert(ordered(Some(p1), s, lo, hi));
            }
            let mut top = rotate_right(p);
            proof {
                lemma_rotate_right(p1, top, s, lo, hi);
            }
            let ghost top0 = top;
            let ghost tmid = s[top0.entry as int];
            let low = top.right.take().unwrap();
            let fixed = balance_short_right::<K>(low, Ghost(s), Ghost(Some(tmid)), Ghost(hi));
            top.right = Some(fixed.0);
            proof {
                assert(members(Some(top)) =~= members(Some(top0)));
            }
            (top, false)
        } else {
            balance_short_right::<K>(p, Ghost(s), Ghost(lo), Ghost(hi))
        }
    }
}

/// Unlinks the smallest cell of the subtree at `t`. Returns what is left of
/// the subtree, the position that the cell named, and whether the subtree is
/// now one black cell short.
pub fn remove_min<K: Ord>(
    t: Box<TreeNode>,
    Ghost(s): Ghost<Seq<(u64, K)>>,
    Ghost(lo): Ghost<Option<(u64, K)>>,
    Ghost(hi): Ghost<Option<(u64, K)>>,
) -> (r: (Option<Box<TreeNode>>, usize, bool))
    requires
        key_laws::<K>(),
        ordered(Some(t), s, lo, hi),
        balanced(Some(t)),
        no_red_red(Some(t)),
    ensures
        members(Some(t)).contains(r.1),
        r.1 < s.len(),
        above(lo, s[r.1 as int]),
        members(r.0) == members(Some(t)).remove(r.1),
        ordered(r.0, s, Some(s[r.1 as int]), hi),
        balanced(r.0),
        no_red_red(r.0),
        black_height(r.0) + (if r.2 { 1nat } else { 0nat }) == black_height(Some(t)),
        !t.red ==> !is_red(r.0),
        r.2 ==> !t.red,
    decreases t,
{
    let mut t = t;
    let ghost t0 = t;
    let ghost mid = s[t0.entry as int];
    proof {
        reveal_with_fuel(balanced, 3);
        reveal_with_fuel(black_height, 3);
        reveal_with_fuel(no_red_red, 3);
    }
    match t.left.take() {
        None => {
            let m = t.entry;
            match t.right.take() {
                Some(c) => {
                    let mut c = c;
                    let ghost c0 = c;
                    c.red = false;
                    proof {
                        reveal_with_fuel(members, 2);
                        reveal_with_fuel(ordered, 2);
                        assert(members(Some(c)) =~= members(Some(c0)));
                        assert forall|i: usize| members(Some(c0)).contains(i) implies i != m by {
                            lemma_member_bounds(Some(c0), s, Some(mid), hi, i);
                            lemma_slot_lt_total(mid, s[i as int]);
                        }
                        assert(members(Some(c)) =~= members(Some(t0)).remove(m));
                    }
                    (Some(c), m, false)
                },
                None => {
                    proof {
                        assert(members(None) =~= members(Some(t0)).remove(m));
                    }
                    (None, m, !t.red)
                },
            }
        },
        Some(l) => {
            let sub = remove_min::<K>(l, Ghost(s), Ghost(lo), Ghost(Some(mid)));
            let m = sub.1;
            t.left = sub.0;
            proof {
                lemma_member_bounds(t0.left, s, lo, Some(mid), m);
                lemma_slot_lt_total(s[m as int], mid);
                assert forall|i: usize| members(t0.right).contains(i) implies i != m by {
                    lemma_member_bounds(t0.right, s, Some(mid), hi, i);
                    lemma_slot_lt_total(mid, s[i as int]);
                    if i == m {
                        lemma_slot_lt_transitive(s[m as int], mid, s[m as int]);
                    }
                }
                assert(t0.entry != m);
                assert(members(Some(t0)) =~= members(t0.left).union(members(t0.right)).insert(
                    t0.entry,
                ));
                assert(members(Some(t)) =~= members(sub.0).union(members(t0.right)).insert(
                    t0.entry,
                ));
                assert(!members(t0.right).contains(m));
                assert(members(Some(t)) =~= members(Some(t0)).remove(m));
            }
            if sub.2 {
                let fixed = balance_deletion::<K>(
                    t,
                    true,
                    Ghost(s),
                    Ghost(Some(s[m as int])),
                    Ghost(hi),
                );
                (Some(fixed.0), m, fixed.1)
            } else {
                (Some(t), m, false)
            }
        },
    }
}

/// Unlinks the cell that names position `p` from the subtree `t`, in which it
/// occurs. A cell with two children first gives its place to its in-order
/// successor. Returns what is left of the subtree, and whether it is now one
/// black cell short.
pub fn remove_rec<K: Ord, V>(
    t: Option<Box<TreeNode>>,
    nodes: &Vec<Node<K, V>>,
    p: usize,
    Ghost(lo): Ghost<Option<(u64, K)>>,
    Ghost(hi): Ghost<Option<(u64, K)>>,
) -> (r: (Option<Box<TreeNode>>, bool))
    requires
        key_laws::<K>(),
        ordered(t, slots(nodes@), lo, hi),
        members(t).contains(p),
        balanced(t),
        no_red_red(t),
    ensures
        members(r.0) == members(t).remove(p),
        ordered(r.0, slots(nodes@), lo, hi),
        balanced(r.0),
        no_red_red(r.0),
        black_height(r.0) + (if r.1 { 1nat } else { 0nat }) == black_height(t),
        !is_red(t) ==> !is_red(r.0),
        r.1 ==> !is_red(t),
    decreases t,
{
    let ghost s = slots(nodes@);
    let mut n = t.unwrap();
    let ghost n0 = n;
    let ghost mid = s[n0.entry as int];
    let e = n.entry;
    proof {
        reveal_with_fuel(balanced, 3);
        reveal_with_fuel(black_height, 3);
        reveal_with_fuel(no_red_red, 3);
        lemma_member_bounds(t, s, lo, hi, p);
        lemma_slot_lt_total(s[p as int], mid);
        assert(t == Some(n0));
        assert(members(t) =~= members(n0.left).union(members(n0.right)).insert(n0.entry));
        assert forall|i: usize| members(n0.right).contains(i) implies slot_lt(mid, s[i as int]) by {
            lemma_member_bounds(n0.right, s, Some(mid), hi, i);
        }
        assert forall|i: usize| members(n0.left).contains(i) implies slot_lt(s[i as int], mid) by {
            lemma_member_bounds(n0.left, s, lo, Some(mid), i);
        }
        if members(n0.left).contains(p) {
            assert(slot_lt(s[p as int], mid));
        }
        if members(n0.right).contains(p) {
            assert(slot_lt(mid, s[p as int]));
        }
    }
    if e == p {
        if n.left.is_some() && n.right.is_some() {
            let right = n.right.take().unwrap();
            let sub = remove_min::<K>(right, Ghost(s), Ghost(Some(mid)), Ghost(hi));
            let m = sub.1;
            n.entry = m;
            n.right = sub.0;
            proof {
                let sm = s[m as int];
                lemma_member_bounds(n0.right, s, Some(mid), hi, m);
                lemma_ordered_widen(n0.left, s, lo, Some(mid), lo, Some(sm));
                if lo.is_some() {
                    lemma_slot_lt_transitive(lo.unwrap(), mid, sm);
                }
                assert(members(Some(n)) =~= members(t).remove(p));
            }
            if sub.2 {
                let fixed = balance_deletion::<K>(n, false, Ghost(s), Ghost(lo), Ghost(hi));
                (Some(fixed.0), fixed.1)
            } else {
                (Some(n), false)
            }
        } else if n.left.is_some() {
            let mut c = n.left.take().unwrap();
            let ghost c0 = c;
            c.red = false;
            proof {
                reveal_with_fuel(members, 2);
                reveal_with_fuel(ordered, 2);
                lemma_ordered_widen(Some(c0), s, lo, Some(mid), lo, hi);
                assert(members(Some(c)) =~= members(t).remove(p));
            }
            (Some(c), false)
        } else if n.right.is_some() {
            let mut c = n.right.take().unwrap();
            let ghost c0 = c;
            c.red = false;
            proof {
                reveal_with_fuel(members, 2);
                reveal_with_fuel(ordered, 2);
                lemma_ordered_widen(Some(c0), s, Some(mid), hi, lo, hi);
                assert(members(Some(c)) =~= members(t).remove(p));
            }
            (Some(c), false)
        } else {
            proof {
                assert(members(None) =~= members(t).remove(p));
            }
            (None, !n.red)
        }
    } else if slot_less(nodes[p].hash, &nodes[p].key, nodes[e].hash, &nodes[e].key) {
        let sub = remove_rec(n.left.take(), nodes, p, Ghost(lo), Ghost(Some(mid)));
        n.left = sub.0;
        proof {
            assert(members(Some(n)) =~= members(t).remove(p));
        }
        if sub.1 {
            let fixed = balance_deletion::<K>(n, true, Ghost(s), Ghost(lo), Ghost(hi));
            (Some(fixed.0), fixed.1)
        } else {
            (Some(n), false)
        }
    } else {
        let sub = remove_rec(n.right.take(), nodes, p, Ghost(Some(mid)), Ghost(hi));
        n.right = sub.0;
        proof {
            assert(members(Some(n)) =~= members(t).remove(p));
        }
        if sub.1 {
            let fixed = balance_deletion::<K>(n, false, Ghost(s), Ghost(lo), Ghost(hi));
            (Some(fixed.0), fixed.1)
        } else {
            (Some(n), false)
        }
    }
}

/// The position that `i` has once the entry at position `p` is gone.
pub open spec fn shifted(i: usize, p: usize) -> usize {
    if i > p {
        (i - 1) as usize
    } else {
        i
    }
}

/// Renumbers the cells of `t` for an ordering that has lost its entry at
/// position `p`: every position behind `p` moves down by one.
pub fn shift_entries<K: Ord>(
    t: Option<Box<TreeNode>>,
    p: usize,
    Ghost(s): Ghost<Seq<(u64, K)>>,
    Ghost(lo): Ghost<Option<(u64, K)>>,
    Ghost(hi): Ghost<Option<(u64, K)>>,
) -> (r: Option<Box<TreeNode>>)
    requires
        !members(t).contains(p),
        p < s.len(),
        ordered(t, s, lo, hi),
    ensures
        ordered(r, s.remove(p as int), lo, hi),
        forall|j: usize| members(r).contains(j) <==> exists|i: usize| #[trigger] members(t).contains(i) && shifted(i, p) == j,
        balanced(r) == balanced(t),
        no_red_red(r) == no_red_red(t),
        black_height(r) == black_height(t),
        is_red(r) == is_red(t),
    decreases t,
{
    match t {
        None => None,
        Some(n) => {
            let mut n = n;
            let ghost n0 = n;
            let ghost mid = s[n0.entry as int];
            let l = shift_entries::<K>(n.left.take(), p, Ghost(s), Ghost(lo), Ghost(Some(mid)));
            let r = shift_entries::<K>(n.right.take(), p, Ghost(s), Ghost(Some(mid)), Ghost(hi));
            if n.entry > p {
                n.entry = n.entry - 1;
            }
            n.left = l;
            n.right = r;
            proof {
                assert(t == Some(n0));
                assert(members(t) =~= members(n0.left).union(members(n0.right)).insert(n0.entry));
                assert(members(Some(n)) =~= members(l).union(members(r)).insert(n.entry));
                assert(members(t).contains(n0.entry));
                assert(s.remove(p as int)[n.entry as int] == mid);
                assert forall|j: usize| members(Some(n)).contains(j) implies exists|i: usize| #[trigger] members(t).contains(i) && shifted(i, p) == j by {
                    if j == n.entry {
                        assert(members(t).contains(n0.entry) && shifted(n0.entry, p) == j);
                    } else if members(l).contains(j) {
                        let i = choose|i: usize| #[trigger] members(n0.left).contains(i) && shifted(i, p) == j;
                        assert(members(t).contains(i));
                    } else {
                        let i = choose|i: usize| #[trigger] members(n0.right).contains(i) && shifted(i, p) == j;
                        assert(members(t).contains(i));
                    }
                }
                assert forall|j: usize| (exists|i: usize| #[trigger] members(t).contains(i) && shifted(i, p) == j) implies members(Some(n)).contains(j) by {
                    let i = choose|i: usize| #[trigger] members(t).contains(i) && shifted(i, p) == j;
                    if i == n0.entry {
                    } else if members(n0.left).contains(i) {
                        assert(members(l).contains(j));
                    } else {
                        assert(members(n0.right).contains(i));
                        assert(members(r).contains(j));
                    }
                }
            }
            Some(n)
        },
    }
}

} // verus!
