//! The tree bin: the entries of one table slot in their linked ordering,
//! with a red-black index over them for lookups under heavy collision.
use vstd::prelude::*;
use crate::node::distinct_slots;
use crate::node::has_slot;
use crate::node::lemma_entries_map_remove;
use crate::node::lemma_entries_map_reverse;
use crate::node::lemma_entries_map_update;
use crate::node::lemma_entries_map_push;
use crate::node::reversed;
use crate::node::slots;
use crate::node::Node;
use crate::lock_state::reader_must_walk;
use crate::order::key_laws;
use crate::order::slot_same;
use crate::sizing::UNTREEIFY_THRESHOLD;
use crate::tree::balanced;
use crate::tree::is_red;
use crate::tree::lemma_ordered_extend;
use crate::tree::members;
use crate::tree::nearly_red_black;
use crate::tree::no_red_red;
use crate::tree::ordered;
use crate::tree::red_black;
use crate::tree::TreeNode;
use crate::tree_insert::find_tree_node;
use crate::tree_insert::put_rec;
use crate::tree_remove::remove_rec;
use crate::tree_remove::shift_entries;
use crate::tree_remove::shifted;

verus! {

/// A bin in tree form.
///
/// `nodes` owns the entries and is the linked ordering, newest entry last:
/// the head of the ordering is the last element. `root` is the red-black
/// index over the positions of `nodes`.
pub struct TreeBin<K, V> {
    pub root: Option<Box<TreeNode>>,
    pub nodes: Vec<Node<K, V>>,
}

/// Colours the root of `t` black.
pub fn blacken<K: Ord>(
    t: Option<Box<TreeNode>>,
    Ghost(s): Ghost<Seq<(u64, K)>>,
) -> (r: Option<Box<TreeNode>>)
    ensures
        !is_red(r),
        members(r) == members(t),
        ordered(t, s, None, None) ==> ordered(r, s, None, None),
        balanced(t) ==> balanced(r),
        nearly_red_black(t) ==> no_red_red(r),
{
    match t {
        None => None,
        Some(n) => {
            let mut n = n;
            let ghost n0 = n;
            n.red = false;
            proof {
                assert(members(Some(n)) =~= members(Some(n0)));
            }
            Some(n)
        },
    }
}

impl<K: Ord, V> TreeBin<K, V> {
    /// The red-black index is a search tree in hash-then-key order over
    /// exactly the entries of the bin, its root is black, no red cell has a
    /// red child, and every path from the root down passes the same number of
    /// black cells.
    pub open spec fn wf(&self) -> bool {
        &&& key_laws::<K>()
        &&& distinct_slots(self.nodes@)
        &&& ordered(self.root, slots(self.nodes@), None, None)
        &&& red_black(self.root)
        &&& forall|i: usize| members(self.root).contains(i) <==> i < self.nodes.len()
    }

    /// The entries in their linked ordering, head first.
    pub open spec fn view(&self) -> Seq<Node<K, V>> {
        self.nodes@.reverse()
    }

    /// Builds a tree bin from entries given in their linked ordering,
    /// inserting them into the index one by one from the head on.
    pub fn new(bin: Vec<Node<K, V>>) -> (r: Self)
        requires
            key_laws::<K>(),
            distinct_slots(bin@),
        ensures
            r.wf(),
            r@ == bin@,
    {
        let nodes = reversed(bin);
        proof {
            lemma_entries_map_reverse(bin@);
            assert(nodes@.reverse() =~= bin@);
        }
        let n = nodes.len();
        let mut root: Option<Box<TreeNode>> = None;
        let mut i = n;
        while i > 0
            invariant
                i <= n,
                n == nodes.len(),
                key_laws::<K>(),
                distinct_slots(nodes@),
                ordered(root, slots(nodes@), None, None),
                red_black(root),
                forall|j: usize| members(root).contains(j) <==> i <= j < n,
            decreases i,
        {
            i = i - 1;
            proof {
                assert forall|j: usize| members(root).contains(j) implies slots(nodes@)[j as int]
                    != slots(nodes@)[i as int] by {
                    assert(nodes@[j as int].slot() != nodes@[i as int].slot());
                }
            }
            let grown = put_rec(root, &nodes, i, Ghost(None), Ghost(None));
            root = blacken::<K>(grown, Ghost(slots(nodes@)));
        }
        TreeBin { root, nodes }
    }

    /// Number of entries in the bin.
    pub fn len(&self) -> (r: usize)
        ensures
            r == self@.len(),
    {
        self.nodes.len()
    }

    /// Looks `(hash, key)` up through the index. Returns the position in
    /// `nodes` of its entry.
    pub fn find(&self, hash: u64, key: &K) -> (r: Option<usize>)
        requires
            self.wf(),
        ensures
            match r {
                Some(i) => i < self.nodes.len() && self.nodes[i as int].slot() == (hash, *key),
                None => !has_slot(self.nodes@, (hash, *key)),
            },
    {
        let r = find_tree_node(&self.root, &self.nodes, hash, key);
        proof {
            if r.is_none() {
                assert forall|i: int| 0 <= i < self.nodes.len() implies #[trigger] self.nodes[i].slot()
                    != (hash, *key) by {
                    assert(members(self.root).contains(i as usize));
                    assert(slots(self.nodes@)[i] == self.nodes[i].slot());
                }
            }
        }
        r
    }

    /// Looks `(hash, key)` up by a walk along the linked ordering, from
    /// its head on.
    pub fn find_linear(&self, hash: u64, key: &K) -> (r: Option<usize>)
        requires
            key_laws::<K>(),
        ensures
            match r {
                Some(i) => i < self.nodes.len() && self.nodes[i as int].slot() == (hash, *key),
                None => !has_slot(self.nodes@, (hash, *key)),
            },
    {
        let mut i = self.nodes.len();
        while i > 0
            invariant
                key_laws::<K>(),
                i <= self.nodes.len(),
                forall|j: int| i <= j < self.nodes.len() ==> #[trigger] self.nodes[j].slot() != (
                    hash,
                    *key,
                ),
            decreases i,
        {
            i = i - 1;
            if slot_same(self.nodes[i].hash, &self.nodes[i].key, hash, key) {
                return Some(i);
            }
        }
        None
    }

    /// Looks `(hash, key)` up as a reader that has seen the lock word
    /// `lock_state`: by a walk along the linked ordering while a writer
    /// holds the lock or waits for it, through the index otherwise. Both
    /// ways find the same entry.
    pub fn find_as_reader(&self, lock_state: u64, hash: u64, key: &K) -> (r: Option<usize>)
        requires
            self.wf(),
        ensures
            match r {
                Some(i) => i < self.nodes.len() && self.nodes[i as int].slot() == (hash, *key),
                None => !has_slot(self.nodes@, (hash, *key)),
            },
    {
        if reader_must_walk(lock_state) {
            self.find_linear(hash, key)
        } else {
            self.find(hash, key)
        }
    }

    /// Looks `(hash, key)` up and, where the bin has no such entry, adds one
    /// at the head of the linked ordering and in the index. Where it has
    /// one, the bin stays as it is and the entry's position comes back
    /// together with the key and the value that were not stored.
    pub fn find_or_put_tree_val(&mut self, hash: u64, key: K, value: V) -> (r: Option<
        (usize, K, V),
    >)
        requires
            old(self).wf(),
        ensures
            final(self).wf(),
            match r {
                Some((i, k, v)) => {
                    &&& *final(self) == *old(self)
                    &&& i < old(self).nodes.len()
                    &&& old(self).nodes[i as int].slot() == (hash, key)
                    &&& k == key
                    &&& v == value
                },
                None => {
                    &&& !has_slot(old(self).nodes@, (hash, key))
                    &&& final(self).nodes@ == old(self).nodes@.push(Node { hash, key, value })
                },
            },
    {
        let found = self.find(hash, &key);
        match found {
            Some(i) => Some((i, key, value)),
            None => {
                let ghost s0 = slots(self.nodes@);
                let ghost fresh = Node { hash, key, value };
                let x = self.nodes.len();
                self.nodes.push(Node::new(hash, key, value));
                let ghost s1 = slots(self.nodes@);
                proof {
                    lemma_entries_map_push(old(self).nodes@, fresh);
                    lemma_ordered_extend(self.root, s0, s1, None, None);
                    assert forall|j: usize| members(self.root).contains(j) implies s1[j as int]
                        != s1[x as int] by {
                        assert(self.nodes@[j as int].slot() != self.nodes@[x as int].slot());
                    }
                }
                let root = self.root.take();
                let grown = put_rec(root, &self.nodes, x, Ghost(None), Ghost(None));
                self.root = blacken::<K>(grown, Ghost(s1));
                None
            },
        }
    }

    /// Stores `value` in the entry at position `i` and returns the value
    /// that it replaces.
    pub fn replace_value(&mut self, i: usize, value: V) -> (r: V)
        requires
            old(self).wf(),
            i < old(self).nodes.len(),
        ensures
            final(self).wf(),
            r == old(self).nodes[i as int].value,
            final(self).root == old(self).root,
            final(self).nodes@ == old(self).nodes@.update(
                i as int,
                Node {
                    hash: old(self).nodes[i as int].hash,
                    key: old(self).nodes[i as int].key,
                    value,
                },
            ),
    {
        let mut v = value;
        core::mem::swap(&mut self.nodes[i].value, &mut v);
        proof {
            let n = Node {
                hash: old(self).nodes[i as int].hash,
                key: old(self).nodes[i as int].key,
                value,
            };
            assert(self.nodes@ =~= old(self).nodes@.update(i as int, n));
            lemma_entries_map_update(old(self).nodes@, i as int, n);
        }
        v
    }

    /// Takes the entry at position `p` out of the linked ordering. Where at
    /// most `UNTREEIFY_THRESHOLD` entries are left, the bin is too small to
    /// stay a tree: the index is then left alone and `true` comes back, and
    /// the caller turns the bin into a list. Otherwise the entry's cell is
    /// removed from the index, which is rebalanced and renumbered.
    pub fn remove_tree_node(&mut self, p: usize) -> (r: (bool, Node<K, V>))
        requires
            old(self).wf(),
            p < old(self).nodes.len(),
        ensures
            r.1 == old(self).nodes[p as int],
            final(self).nodes@ == old(self).nodes@.remove(p as int),
            distinct_slots(final(self).nodes@),
            r.0 == (final(self).nodes.len() <= UNTREEIFY_THRESHOLD),
            !r.0 ==> final(self).wf(),
    {
        proof {
            lemma_entries_map_remove(self.nodes@, p as int);
        }
        if self.nodes.len() - 1 <= UNTREEIFY_THRESHOLD {
            let n = self.nodes.remove(p);
            return (true, n);
        }
        let ghost s0 = slots(self.nodes@);
        let root = self.root.take();
        let cut = remove_rec(root, &self.nodes, p, Ghost(None), Ghost(None));
        let renumbered = shift_entries::<K>(cut.0, p, Ghost(s0), Ghost(None), Ghost(None));
        let n = self.nodes.remove(p);
        self.root = renumbered;
        proof {
            assert(slots(self.nodes@) =~= s0.remove(p as int));
            assert forall|j: usize| members(self.root).contains(j) <==> j < self.nodes.len() by {
                if members(self.root).contains(j) {
                    let i = choose|i: usize| #[trigger] members(cut.0).contains(i) && shifted(i, p) == j;
                    assert(members(old(self).root).contains(i));
                }
                if j < self.nodes.len() {
                    let i = if j >= p { (j + 1) as usize } else { j };
                    assert(members(old(self).root).contains(i));
                    assert(members(cut.0).contains(i) && shifted(i, p) == j);
                }
            }
        }
        (false, n)
    }

    /// Gives the entries up as a list in their linked ordering, head first.
    pub fn untreeify(self) -> (r: Vec<Node<K, V>>)
        ensures
            r@ == self@,
    {
        reversed(self.nodes)
    }
}

} // verus!
