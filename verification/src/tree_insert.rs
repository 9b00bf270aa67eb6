//! Search in the red-black index, and insertion with rebalancing.
use vstd::prelude::*;
use crate::node::Node;
use crate::node::slots;
use crate::order::above;
use crate::order::below;
use crate::order::key_laws;
use crate::order::lemma_slot_lt_total;
use crate::order::slot_less;
use crate::order::slot_lt;
use crate::order::slot_same;
use crate::tree::balanced;
use crate::tree::black_height;
use crate::tree::is_red;
use crate::tree::lemma_member_bounds;
use crate::tree::lemma_rotate_left;
use crate::tree::lemma_rotate_right;
use crate::tree::members;
use crate::tree::nearly_red_black;
use crate::tree::no_red_red;
use crate::tree::ordered;
use crate::tree::rotate_left;
use crate::tree::rotate_right;
use crate::tree::TreeNode;

verus! {

/// Reads the colour of a subtree's root.
pub fn color_red(t: &Option<Box<TreeNode>>) -> (r: bool)
    ensures
        r == is_red(*t),
{
    match t {
        None => false,
        Some(n) => n.red,
    }
}

/// Whether the root of `t` is red and has a red child.
pub open spec fn red_with_red_child(t: Option<Box<TreeNode>>) -> bool {
    match t {
        None => false,
        Some(n) => n.red && (is_red(n.left) || is_red(n.right)),
    }
}

fn has_red_red(t: &Option<Box<TreeNode>>) -> (r: bool)
    ensures
        r == red_with_red_child(*t),
{
    match t {
        None => false,
        Some(n) => n.red && (color_red(&n.left) || color_red(&n.right)),
    }
}

/// Restores the red-black invariants below a black cell `g` after an
/// insertion into one of its subtrees left a red child with a red child:
/// recolours where the other child of `g` is red too, rotates otherwise.
pub fn balance_insertion<K: Ord>(
    g: Box<TreeNode>,
    Ghost(s): Ghost<Seq<(u64, K)>>,
    Ghost(lo): Ghost<Option<(u64, K)>>,
    Ghost(hi): Ghost<Option<(u64, K)>>,
) -> (r: Box<TreeNode>)
    requires
        key_laws::<K>(),
        !g.red,
        ordered(Some(g), s, lo, hi),
        balanced(Some(g)),
        nearly_red_black(g.left),
        nearly_red_black(g.right),
        no_red_red(g.left) || no_red_red(g.right),
    ensures
        members(Some(r)) == members(Some(g)),
        ordered(Some(r), s, lo, hi),
        balanced(Some(r)),
        black_height(Some(r)) == black_height(Some(g)),
        no_red_red(Some(r)),
{
    let mut g = g;
    proof {
        reveal_with_fuel(no_red_red, 2);
    }
    if has_red_red(&g.left) {
        if color_red(&g.right) {
            let ghost g0 = g;
            let mut l = g.left.take().unwrap();
            let mut u = g.right.take().unwrap();
            l.red = false;
            u.red = false;
            g.left = Some(l);
            g.right = Some(u);
            g.red = true;
            proof {
                reveal_with_fuel(members, 2);
                reveal_with_fuel(ordered, 2);
                reveal_with_fuel(balanced, 2);
                reveal_with_fuel(black_height, 2);
                assert(members(Some(g)) =~= members(Some(g0)));
            }
            g
        } else {
            let ghost g0 = g;
            let mut l = g.left.take().unwrap();
            let ghost mid = s[g0.entry as int];
            if color_red(&l.right) {
                let ghost l0 = l;
                l = rotate_left(l);
                proof {
                    lemma_rotate_left(l0, l, s, lo, Some(mid));
                    reveal_with_fuel(balanced, 3);
                    reveal_with_fuel(black_height, 3);
                    reveal_with_fuel(no_red_red, 3);
                }
            }
            l.red = false;
            g.red = true;
            g.left = Some(l);
            let ghost g1 = g;
            proof {
                reveal_with_fuel(members, 2);
                reveal_with_fuel(ordered, 2);
                assert(members(Some(g1)) =~= members(Some(g0)));
                assert(ordered(Some(g1), s, lo, hi));
            }
            let r = rotate_right(g);
            proof {
                lemma_rotate_right(g1, r, s, lo, hi);
                reveal_with_fuel(balanced, 3);
                reveal_with_fuel(black_height, 3);
                reveal_with_fuel(no_red_red, 3);
            }
            r
        }
    } else if has_red_red(&g.right) {
        if color_red(&g.left) {
            let ghost g0 = g;
            let mut l = g.left.take().unwrap();
            let mut u = g.right.take().unwrap();
            l.red = false;
            u.red = false;
            g.left = Some(l);
            g.right = Some(u);
            g.red = true;
            proof {
                reveal_with_fuel(members, 2);
                reveal_with_fuel(ordered, 2);
                reveal_with_fuel(balanced, 2);
                reveal_with_fuel(black_height, 2);
                assert(members(Some(g)) =~= members(Some(g0)));
            }
            g
        } else {
            let ghost g0 = g;
            let mut u = g.right.take().unwrap();
            let ghost mid = s[g0.entry as int];
            if color_red(&u.left) {
                let ghost u0 = u;
                u = rotate_right(u);
                proof {
                    lemma_rotate_right(u0, u, s, Some(mid), hi);
                    reveal_with_fuel(balanced, 3);
                    reveal_with_fuel(black_height, 3);
                    reveal_with_fuel(no_red_red, 3);
                }
            }
            u.red = false;
            g.red = true;
            g.right = Some(u);
            let ghost g1 = g;
            proof {
                reveal_with_fuel(members, 2);
                reveal_with_fuel(ordered, 2);
                assert(members(Some(g1)) =~= members(Some(g0)));
                assert(ordered(Some(g1), s, lo, hi));
            }
            let r = rotate_left(g);
            proof {
                lemma_rotate_left(g1, r, s, lo, hi);
                reveal_with_fuel(balanced, 3);
                reveal_with_fuel(black_height, 3);
                reveal_with_fuel(no_red_red, 3);
            }
            r
        }
    } else {
        g
    }
}

/// Adds a red cell for entry `x` at the leaf that its pair sorts to, and
/// rebalances on the way back up. The root may come back red.
pub fn put_rec<K: Ord, V>(
    t: Option<Box<TreeNode>>,
    nodes: &Vec<Node<K, V>>,
    x: usize,
    Ghost(lo): Ghost<Option<(u64, K)>>,
    Ghost(hi): Ghost<Option<(u64, K)>>,
) -> (r: Option<Box<TreeNode>>)
    requires
        key_laws::<K>(),
        x < nodes.len(),
        ordered(t, slots(nodes@), lo, hi),
        above(lo, slots(nodes@)[x as int]),
        below(slots(nodes@)[x as int], hi),
        forall|i: usize| members(t).contains(i) ==> slots(nodes@)[i as int] != slots(nodes@)[x as int],
        balanced(t),
        no_red_red(t),
    ensures
        r.is_some(),
        members(r) == members(t).insert(x),
        ordered(r, slots(nodes@), lo, hi),
        balanced(r),
        black_height(r) == black_height(t),
        nearly_red_black(r),
        !is_red(t) ==> no_red_red(r),
    decreases t,
{
    let ghost s = slots(nodes@);
    match t {
        None => {
            let r = Some(Box::new(TreeNode { entry: x, red: true, left: None, right: None }));
            proof {
                reveal_with_fuel(members, 2);
                reveal_with_fuel(ordered, 2);
                reveal_with_fuel(balanced, 2);
                reveal_with_fuel(black_height, 2);
                reveal_with_fuel(no_red_red, 2);
                assert(members(r) =~= members(t).insert(x));
            }
            r
        },
        Some(n) => {
            let mut n = n;
            let ghost n0 = n;
            let ghost mid = s[n0.entry as int];
            let e = n.entry;
            proof {
                assert(members(t).contains(e));
                lemma_slot_lt_total(s[x as int], mid);
                assert forall|i: usize| members(n0.left).contains(i) implies s[i as int] != s[x as int] by {
                    assert(members(t).contains(i));
                }
                assert forall|i: usize| members(n0.right).contains(i) implies s[i as int] != s[x as int] by {
                    assert(members(t).contains(i));
                }
            }
            if slot_less(nodes[x].hash, &nodes[x].key, nodes[e].hash, &nodes[e].key) {
                let sub = put_rec(n.left.take(), nodes, x, Ghost(lo), Ghost(Some(mid)));
                n.left = sub;
            } else {
                let sub = put_rec(n.right.take(), nodes, x, Ghost(Some(mid)), Ghost(hi));
                n.right = sub;
            }
            proof {
                reveal_with_fuel(no_red_red, 2);
                assert(members(Some(n)) =~= members(t).insert(x));
            }
            if n.red {
                Some(n)
            } else {
                Some(balance_insertion::<K>(n, Ghost(s), Ghost(lo), Ghost(hi)))
            }
        },
    }
}

/// Finds the position of the entry stored under `(hash, key)` by descending
/// from `root` in hash-then-key order.
pub fn find_tree_node<K: Ord, V>(
    root: &Option<Box<TreeNode>>,
    nodes: &Vec<Node<K, V>>,
    hash: u64,
    key: &K,
) -> (r: Option<usize>)
    requires
        key_laws::<K>(),
        ordered(*root, slots(nodes@), None, None),
    ensures
        match r {
            Some(i) => members(*root).contains(i) && i < nodes.len() && nodes[i as int].slot() == (
                hash,
                *key,
            ),
            None => forall|i: usize|
                members(*root).contains(i) ==> slots(nodes@)[i as int] != (hash, *key),
        },
{
    let ghost s = slots(nodes@);
    let ghost target = (hash, *key);
    let ghost mut lo: Option<(u64, K)> = None;
    let ghost mut hi: Option<(u64, K)> = None;
    let mut p = root;
    loop
        invariant
            key_laws::<K>(),
            s == slots(nodes@),
            target == (hash, *key),
            ordered(*p, s, lo, hi),
            forall|i: usize| members(*p).contains(i) ==> members(*root).contains(i),
            forall|i: usize|
                members(*root).contains(i) && s[i as int] == target ==> members(*p).contains(i),
        decreases *p,
    {
        match p {
            None => {
                return None;
            },
            Some(n) => {
                let e = n.entry;
                let ghost mid = s[e as int];
                proof {
                    lemma_slot_lt_total(target, mid);
                    assert forall|i: usize| members(n.right).contains(i) implies slot_lt(
                        mid,
                        s[i as int],
                    ) by {
                        lemma_member_bounds(n.right, s, Some(mid), hi, i);
                    }
                    assert forall|i: usize| members(n.left).contains(i) implies slot_lt(
                        s[i as int],
                        mid,
                    ) by {
                        lemma_member_bounds(n.left, s, lo, Some(mid), i);
                    }
                }
                let ghost p0 = *p;
                proof {
                    assert forall|i: usize|
                        members(*root).contains(i) && s[i as int] == target implies (i == e
                        || members(n.left).contains(i) || members(n.right).contains(i)) by {
                        assert(members(p0).contains(i));
                    }
                    assert forall|i: usize| members(n.left).contains(i) implies members(
                        *root,
                    ).contains(i) by {
                        assert(members(p0).contains(i));
                    }
                    assert forall|i: usize| members(n.right).contains(i) implies members(
                        *root,
                    ).contains(i) by {
                        assert(members(p0).contains(i));
                    }
                }
                let ph = nodes[e].hash;
                if ph > hash {
                    p = &n.left;
                    proof {
                        hi = Some(mid);
                    }
                } else if ph < hash {
                    p = &n.right;
                    proof {
                        lo = Some(mid);
                    }
                } else if slot_same(ph, &nodes[e].key, hash, key) {
                    return Some(e);
                } else if n.left.is_none() {
                    p = &n.right;
                    proof {
                        lo = Some(mid);
                    }
                } else if n.right.is_none() {
                    p = &n.left;
                    proof {
                        hi = Some(mid);
                    }
                } else if slot_less(hash, key, ph, &nodes[e].key) {
                    p = &n.left;
                    proof {
                        hi = Some(mid);
                    }
                } else {
                    p = &n.right;
                    proof {
                        lo = Some(mid);
                    }
                }
            },
        }
    }
}

} // verus!
