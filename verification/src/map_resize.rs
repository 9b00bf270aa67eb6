//! Sizing the map's table: creating it, growing it, and moving the bins of
//! a full table into a table of twice the size.
use vstd::prelude::*;
use crate::bin::BinEntry;
use crate::map::default_hash_builder;
use crate::map::HashMap;
use crate::node::lemma_entries_map_reverse;
use crate::order::key_laws;
use crate::raw::bin_in_place;
use crate::raw::lemma_bins_map_same;
use crate::raw::Table;
use crate::sizing::is_capacity;
use crate::sizing::is_last_resizer;
use crate::sizing::requested_for;
use crate::sizing::lemma_capacity_doubles;
use crate::sizing::load_factor;
use crate::sizing::load_factor_spec;
use crate::sizing::may_help;
use crate::sizing::next_bound;
use crate::sizing::requested_capacity;
use crate::sizing::requested_capacity_spec;
use crate::sizing::resize_action;
use crate::sizing::resize_base;
use crate::sizing::resize_base_spec;
use crate::sizing::transfer_stride;
use crate::sizing::ResizeAction;
use crate::sizing::DEFAULT_CAPACITY;
use crate::sizing::MAXIMUM_CAPACITY;
use crate::sizing::MAX_RESIZERS;
use crate::sizing::MIN_TRANSFER_STRIDE;
use crate::sizing::MIN_TREEIFY_CAPACITY;
use crate::transfer::halves;
use crate::transfer::halves_in_order;
use crate::transfer::lemma_transfer_end;
use crate::transfer::lemma_transfer_start;
use crate::transfer::lemma_transfer_step;
use crate::transfer::settled;
use crate::transfer::split_bin;
use crate::transfer::transferring;
use crate::tree_bin::TreeBin;

verus! {

/// The number of processors of this machine. Calls
/// `num_cpus::get_physical`; nothing is stated of the result, which is the
/// machine's.
#[verifier::external_body]
pub(crate) fn num_cpus() -> (n: usize) {
    num_cpus::get_physical()
}

impl<K: Ord, V, S> HashMap<K, V, S> {
    /// The state in which a resize starts: the table is well formed and not
    /// at its largest, and the size control word holds the stamp of the
    /// table's size and counts one thread.
    pub open spec fn ready_to_transfer(&self) -> bool {
        &&& key_laws::<K>()
        &&& self.next_table is None
        &&& self.transfer_index == 0
        &&& self@.dom().finite()
        &&& self.table.wf()
        &&& self.table.bins.len() < MAXIMUM_CAPACITY
        &&& self.size_ctl == resize_base_spec(self.table.bins.len()) + 2
    }

    /// Creates the bins of a map that has none: as many as the size control
    /// word asks for, or `DEFAULT_CAPACITY`.
    pub fn init_table(&mut self)
        requires
            old(self).inv(),
        ensures
            final(self).inv(),
            final(self)@ == old(self)@,
            final(self).count == old(self).count,
            final(self).build_hasher == old(self).build_hasher,
            final(self).capacity() > 0,
            old(self).capacity() > 0 ==> final(self).table == old(self).table,
            old(self).capacity() == 0 ==> final(self).capacity() == if old(self).size_ctl > 0 {
                old(self).size_ctl as usize
            } else {
                DEFAULT_CAPACITY
            },
    {
        if !self.table.is_empty() {
            return ;
        }
        let sc = self.size_ctl;
        assert(16u64 & 15u64 == 0) by (bit_vector);
        let n = if sc > 0 {
            sc as usize
        } else {
            DEFAULT_CAPACITY
        };
        self.size_ctl = -1;
        proof {
            assert(self@ =~= Map::<(u64, K), V>::empty());
        }
        self.table = Table::new(n);
        self.size_ctl = load_factor(n);
    }

    /// Gives a map without bins a table for `size` entries.
    pub fn presize(&mut self, size: usize)
        requires
            old(self).inv(),
            old(self).capacity() == 0,
            old(self).size_ctl == 0,
        ensures
            final(self).inv(),
            final(self)@ == old(self)@,
            final(self).count == old(self).count,
            final(self).build_hasher == old(self).build_hasher,
            requested_capacity_spec(size, final(self).capacity()),
    {
        let capacity = requested_capacity(size);
        proof {
            assert(self@ =~= Map::<(u64, K), V>::empty());
        }
        self.table = Table::new(capacity);
        self.size_ctl = load_factor(capacity);
    }

    /// A map that hashes with `hash_builder` and has room for `capacity`
    /// entries.
    pub fn with_capacity_and_hasher(capacity: usize, hash_builder: S) -> (m: Self)
        requires
            key_laws::<K>(),
        ensures
            m.wf(),
            m@ == Map::<(u64, K), V>::empty(),
            capacity == 0 ==> m.capacity() == 0,
            capacity > 0 ==> requested_capacity_spec(capacity, m.capacity()),
            m.build_hasher == hash_builder,
    {
        let mut m = Self::with_hasher(hash_builder);
        if capacity == 0 {
            return m;
        }
        m.presize(capacity);
        m
    }

    /// Moves every bin of the table into a table of twice the size, which
    /// then takes its place.
    ///
    /// Bins are claimed from the upper end of the table down, a stride at a
    /// time. Each claimed bin is split between the bin at its own index and
    /// the bin `n` above in the new table, and is marked as moved. When no
    /// bin is left to claim the table is swept once more, the new table is
    /// installed, and the size control word is set to its load threshold.
    pub fn transfer(&mut self)
        requires
            old(self).ready_to_transfer(),
        ensures
            final(self).inv(),
            final(self)@ == old(self)@,
            final(self).count == old(self).count,
            final(self).build_hasher == old(self).build_hasher,
            final(self).capacity() == 2 * old(self).capacity(),
            forall|i: int|
                0 <= i < old(self).capacity() ==> halves(
                    #[trigger] old(self).table.bins[i],
                    old(self).capacity(),
                    final(self).table.bins[i],
                    final(self).table.bins[i + old(self).capacity()],
                ) && halves_in_order(
                    old(self).table.bins[i],
                    old(self).capacity(),
                    final(self).table.bins[i],
                    final(self).table.bins[i + old(self).capacity()],
                ),
    {
        let n = self.table.len();
        let ncpu = num_cpus();
        let stride = transfer_stride(n, ncpu);
        let rs = resize_base(n);
        let ghost m0 = self@;
        let ghost bins0 = self.table.bins@;
        proof {
            lemma_capacity_doubles(n);
        }
        if self.next_table.is_none() {
            self.next_table = Some(Table::new(n * 2));
            self.transfer_index = n as i64;
        }
        let next_n = n * 2;
        let mut advance = true;
        let mut finishing = false;
        let mut i: i64 = 0;
        let mut bound: i64 = 0;
        let ghost mut done: int = n as int;
        proof {
            lemma_transfer_start(self.table.bins@, self.next_table.unwrap().bins@);
        }
        loop
            invariant
                n == self.table.bins.len(),
                n == old(self).table.bins.len(),
                next_n == 2 * n,
                key_laws::<K>(),
                self.next_table is Some,
                transferring(self.table.bins@, self.next_table.unwrap().bins@, n, done, m0),
                forall|i: int| 0 <= i < done ==> #[trigger] self.table.bins[i] == bins0[i],
                forall|i: int|
                    done <= i < n ==> halves(
                        #[trigger] bins0[i],
                        n,
                        self.next_table.unwrap().bins[i],
                        self.next_table.unwrap().bins[i + n],
                    ) && halves_in_order(
                        bins0[i],
                        n,
                        self.next_table.unwrap().bins[i],
                        self.next_table.unwrap().bins[i + n],
                    ),
                bins0 == old(self).table.bins@,
                m0 == old(self)@,
                m0.dom().finite(),
                advance,
                stride >= MIN_TRANSFER_STRIDE,
                self.count == old(self).count,
                self.build_hasher == old(self).build_hasher,
                rs == resize_base_spec(n),
                finishing ==> done == 0 && 0 <= i <= n && self.transfer_index == 0 && self.size_ctl
                    == rs + 1,
                !finishing ==> self.size_ctl == rs + 2 && ((i == 0 && bound == 0 && done == n
                    && self.transfer_index == n) || (done == i && bound == self.transfer_index && 0
                    <= bound <= i <= n)),
            decreases (if finishing { 0int } else { 1int }), (if finishing { i + 1 } else { done + 1 }),
        {
            let ghost head_finishing = finishing;
            let ghost head_i = i;
            let ghost head_done = done;
            let mut claimed = self.transfer_index;
            while advance
                invariant_except_break
                    advance,
                    0 < n < MAXIMUM_CAPACITY,
                    0 <= done <= n,
                    stride >= MIN_TRANSFER_STRIDE,
                    finishing ==> done == 0 && 0 <= i <= n && claimed == 0 && i == head_i,
                    !finishing ==> ((i == 0 && bound == 0 && done == n && claimed == n) || (done
                        == i && bound == claimed && 0 <= bound <= i <= n)),
                ensures
                    !advance,
                    finishing ==> done == 0 && -1 <= i < n && claimed == 0 && i == head_i - 1,
                    !finishing ==> ((i == -1 && done == 0 && claimed == 0) || (i == done - 1
                        && bound == claimed && 0 <= bound <= i < n)),
                decreases 0int,
            {
                i = i - 1;
                if i >= bound || finishing {
                    advance = false;
                    break ;
                }
                let next_index = claimed;
                if next_index <= 0 {
                    i = -1;
                    advance = false;
                    break ;
                }
                let lower = next_bound(next_index, stride);
                claimed = lower;
                bound = lower;
                i = next_index - 1;
                advance = false;
                break ;
            }
            self.transfer_index = claimed;
            if i < 0 || i as usize >= n || i as usize + n >= next_n {
                if finishing {
                    let mut installed = self.next_table.take().unwrap();
                    proof {
                        lemma_transfer_end(self.table.bins@, installed.bins@, n, m0);
                        assert forall|i: int| 0 <= i < n implies halves(
                            #[trigger] bins0[i],
                            n,
                            installed.bins[i],
                            installed.bins[i + n],
                        ) && halves_in_order(
                            bins0[i],
                            n,
                            installed.bins[i],
                            installed.bins[i + n],
                        ) by {}
                    }
                    core::mem::swap(&mut self.table, &mut installed);
                    self.size_ctl = load_factor(next_n);
                    return ;
                }
                let sc = self.size_ctl;
                self.size_ctl = sc - 1;
                if !is_last_resizer(sc, rs) {
                    return ;
                }
                finishing = true;
                advance = true;
                i = n as i64;
                continue ;
            }
            let at = i as usize;
            let ghost old_bins = self.table.bins@;
            let ghost new_bins = self.next_table.unwrap().bins@;
            let bin = self.table.store_bin(at, BinEntry::Moved);
            match bin {
                BinEntry::Moved => {
                    proof {
                        assert(old_bins[at as int] is Moved);
                        assert(finishing);
                        assert(self.table.bins@ =~= old_bins);
                    }
                    advance = true;
                    assert(head_finishing && i == head_i - 1);
                },
                other => {
                    proof {
                        assert(!(old_bins[at as int] is Moved));
                        assert(!finishing);
                        assert(settled(old_bins[at as int], at as int, n));
                    }
                    let parts = split_bin(other, n);
                    let ghost low = parts.0;
                    let ghost high = parts.1;
                    let mut next = self.next_table.take().unwrap();
                    next.store_bin(at, parts.0);
                    next.store_bin(at + n, parts.1);
                    self.next_table = Some(next);
                    advance = true;
                    proof {
                        lemma_transfer_step(old_bins, new_bins, n, done, m0, low, high);
                        assert(old_bins[at as int] == bins0[at as int]);
                        assert forall|i: int| done <= i < n implies halves(
                            #[trigger] bins0[i],
                            n,
                            self.next_table.unwrap().bins[i],
                            self.next_table.unwrap().bins[i + n],
                        ) && halves_in_order(
                            bins0[i],
                            n,
                            self.next_table.unwrap().bins[i],
                            self.next_table.unwrap().bins[i + n],
                        ) by {
                            assert(self.next_table.unwrap().bins[i] == new_bins[i]);
                            assert(self.next_table.unwrap().bins[i + n] == new_bins[i + n]);
                        }
                        done = done - 1;
                        assert(!head_finishing && done == head_done - 1);
                    }
                },
            }
        }
    }

    /// Grows the table until its load threshold is at least the capacity
    /// that `size` entries ask for, or until it is of the largest size. A
    /// map without bins gets its table here.
    pub fn try_presize(&mut self, size: usize)
        requires
            old(self).inv(),
        ensures
            final(self).inv(),
            final(self)@ == old(self)@,
            final(self).count == old(self).count,
            final(self).build_hasher == old(self).build_hasher,
            final(self).capacity() >= old(self).capacity(),
            final(self).capacity() > 0,
            final(self).size_ctl > size || final(self).capacity() == MAXIMUM_CAPACITY,
            final(self).size_ctl > 0,
            old(self).capacity() > 0 ==> final(self).size_ctl >= old(self).size_ctl,
            old(self).capacity() > 0 && final(self).capacity() > old(self).capacity()
                ==> load_factor_spec(final(self).capacity() as int / 2) < requested_for(size),
            final(self).size_ctl >= requested_for(size) || final(self).capacity()
                == MAXIMUM_CAPACITY,
            final(self).capacity() == old(self).capacity() ==> final(self).table == old(self).table,
    {
        let requested = requested_capacity(size) as i64;
        loop
            invariant
                self.inv(),
                self@ == old(self)@,
                self.count == old(self).count,
                self.build_hasher == old(self).build_hasher,
                self.capacity() >= old(self).capacity(),
                old(self).capacity() > 0 ==> self.capacity() > 0 && self.size_ctl >= old(
                    self,
                ).size_ctl,
                0 < requested <= MAXIMUM_CAPACITY,
                is_capacity(requested as usize),
                requested > size || requested == MAXIMUM_CAPACITY,
                requested == requested_for(size),
                old(self).capacity() > 0 && self.capacity() > old(self).capacity()
                    ==> load_factor_spec(self.capacity() as int / 2) < requested,
                self.capacity() == old(self).capacity() ==> self.table == old(self).table,
            ensures
                self.inv(),
                self@ == old(self)@,
                self.count == old(self).count,
                self.build_hasher == old(self).build_hasher,
                self.capacity() >= old(self).capacity(),
                self.capacity() > 0,
                self.size_ctl > size || self.capacity() == MAXIMUM_CAPACITY,
                self.size_ctl > 0,
                old(self).capacity() > 0 ==> self.size_ctl >= old(self).size_ctl,
                self.size_ctl >= requested || self.capacity() == MAXIMUM_CAPACITY,
            decreases MAXIMUM_CAPACITY - self.table.bins.len(),
        {
            let size_ctl = self.size_ctl;
            let current = self.table.len();
            if current == 0 {
                let initial = size_ctl;
                let new_capacity = if requested > initial {
                    requested as usize
                } else {
                    initial as usize
                };
                self.size_ctl = -1;
                proof {
                    assert(self@ =~= Map::<(u64, K), V>::empty());
                }
                self.table = Table::new(new_capacity);
                self.size_ctl = load_factor(new_capacity);
            } else if requested <= size_ctl || current >= MAXIMUM_CAPACITY {
                break ;
            } else {
                let rs = resize_base(current);
                self.size_ctl = rs + 2;
                self.transfer();
            }
        }
    }

    /// Makes room for `additional` more entries.
    pub fn reserve(&mut self, additional: usize)
        requires
            old(self).wf(),
            old(self)@.len() + additional <= usize::MAX,
        ensures
            final(self).wf(),
            final(self)@ == old(self)@,
            final(self).build_hasher == old(self).build_hasher,
            final(self).capacity() >= old(self).capacity(),
            final(self).size_ctl > old(self)@.len() + additional || final(self).capacity()
                == MAXIMUM_CAPACITY,
            final(self).size_ctl >= requested_for((old(self)@.len() + additional) as usize)
                || final(self).capacity() == MAXIMUM_CAPACITY,
            final(self).capacity() > 0,
            final(self).capacity() == old(self).capacity() ==> final(self).table == old(self).table,
            old(self).capacity() > 0 && final(self).capacity() > old(self).capacity()
                ==> load_factor_spec(final(self).capacity() as int / 2) < requested_for(
                (old(self)@.len() + additional) as usize,
            ),
    {
        let absolute = self.len() + additional;
        self.try_presize(absolute);
    }

    /// Adds `n` to the size counter. With a `resize_hint`, the table is then
    /// doubled for as long as the counter has reached the load threshold
    /// and the table is not of the largest size.
    pub fn add_count(&mut self, n: isize, resize_hint: Option<usize>)
        requires
            old(self).inv(),
            isize::MIN <= old(self).count + n <= isize::MAX,
        ensures
            final(self).inv(),
            final(self)@ == old(self)@,
            final(self).count == old(self).count + n,
            final(self).build_hasher == old(self).build_hasher,
            final(self).capacity() >= old(self).capacity(),
            resize_hint.is_none() ==> final(self).table == old(self).table && final(self).size_ctl
                == old(self).size_ctl,
            resize_hint.is_some() && old(self).count + n < old(self).size_ctl ==> final(self).table
                == old(self).table && final(self).size_ctl == old(self).size_ctl,
            resize_hint.is_some() ==> final(self).within_load(),
            final(self).capacity() > old(self).capacity() ==> old(self).count + n
                >= load_factor_spec(final(self).capacity() as int / 2),
            final(self).capacity() == old(self).capacity() ==> final(self).table == old(self).table,
    {
        self.count = self.count + n;
        let count = self.count;
        if resize_hint.is_none() {
            return ;
        }
        loop
            invariant
                self.inv(),
                self@ == old(self)@,
                self.count == count,
                count == old(self).count + n,
                self.build_hasher == old(self).build_hasher,
                self.capacity() >= old(self).capacity(),
                old(self).count + n < old(self).size_ctl ==> self.table == old(self).table
                    && self.size_ctl == old(self).size_ctl,
                self.capacity() > old(self).capacity() ==> count >= load_factor_spec(
                    self.capacity() as int / 2,
                ),
                self.capacity() == old(self).capacity() ==> self.table == old(self).table,
            ensures
                self.within_load(),
            decreases MAXIMUM_CAPACITY - self.table.bins.len(),
        {
            let sc = self.size_ctl;
            let bins = self.table.len();
            match resize_action(count, sc, bins, self.next_table.is_some(), self.transfer_index) {
                ResizeAction::Start { size_ctl } => {
                    self.size_ctl = size_ctl;
                    self.transfer();
                },
                _ => {
                    break ;
                },
            }
        }
    }

    /// Whether a thread that finds a bin marked as moved may join the
    /// resize that moved it: there is a successor table, and the size
    /// control word shows a resize of this table that is under way, has
    /// room for another thread, and has bins left to claim.
    pub fn help_transfer(&self) -> (r: bool)
        ensures
            r == (self.table.bins.len() > 0 && self.next_table is Some && self.size_ctl < 0
                && self.size_ctl != resize_base_spec(self.table.bins.len()) + MAX_RESIZERS
                && self.size_ctl != resize_base_spec(self.table.bins.len()) + 1
                && self.transfer_index > 0),
            self.inv() ==> !r,
    {
        if self.table.is_empty() || self.next_table.is_none() {
            return false;
        }
        let rs = resize_base(self.table.len());
        may_help(self.size_ctl, rs, self.transfer_index)
    }

    /// Deals with a bin that has grown to `TREEIFY_THRESHOLD` entries: in a
    /// table of fewer than `MIN_TREEIFY_CAPACITY` bins the table is grown;
    /// in a larger one a chain at `index` is turned into a tree bin, which
    /// keeps the chain's order as its linked ordering.
    pub fn treeify_bin(&mut self, index: usize)
        requires
            old(self).inv(),
            index < old(self).capacity(),
        ensures
            final(self).inv(),
            final(self)@ == old(self)@,
            final(self).count == old(self).count,
            final(self).build_hasher == old(self).build_hasher,
            final(self).capacity() >= old(self).capacity(),
            old(self).capacity() >= MIN_TREEIFY_CAPACITY ==> final(self).capacity() == old(
                self,
            ).capacity() && final(self).size_ctl == old(self).size_ctl,
            final(self).size_ctl >= old(self).size_ctl,
            final(self).capacity() == old(self).capacity() ==> forall|j: int|
                0 <= j < old(self).capacity() ==> (#[trigger] final(self).table.bins[j])@ == old(
                    self,
                ).table.bins[j]@,
            old(self).capacity() >= MIN_TREEIFY_CAPACITY && old(self).table.bins[index as int] is Node
                ==> final(self).table.bins[index as int] is Tree,
    {
        let n = self.table.len();
        if n < MIN_TREEIFY_CAPACITY {
            self.try_presize(n * 2);
        } else {
            let is_chain = match self.table.bin(index) {
                BinEntry::Node(_) => true,
                _ => false,
            };
            if is_chain {
                let ghost bins0 = self.table.bins@;
                let bin = self.table.store_bin(index, BinEntry::Empty);
                match bin {
                    BinEntry::Node(chain) => {
                        let ghost c = chain@;
                        let tree = TreeBin::new(chain);
                        let ghost made = BinEntry::Tree(tree);
                        self.table.store_bin(index, BinEntry::Tree(tree));
                        proof {
                            lemma_entries_map_reverse(tree.nodes@);
                            assert(self.table.bins@ =~= bins0.update(index as int, made));
                            lemma_bins_map_same(bins0, index as int, made);
                            assert forall|j: int| 0 <= j < made.stored().len() implies crate::raw::bin_index(
                                #[trigger] made.stored()[j].hash,
                                n,
                            ) == index by {
                                assert(made.stored()[j] == c[c.len() - 1 - j]);
                                assert(bins0[index as int].stored()[c.len() - 1 - j] == c[c.len() - 1
                                    - j]);
                            }
                            assert forall|i: int| 0 <= i < self.table.bins.len() implies {
                                &&& (#[trigger] self.table.bins[i]).wf()
                                &&& !(self.table.bins[i] is Moved)
                                &&& bin_in_place(self.table.bins[i], i, self.table.bins.len())
                            } by {
                                if i != index {
                                    assert(self.table.bins[i] == bins0[i]);
                                }
                            }
                        }
                    },
                    _ => {},
                }
            }
        }
    }
}

impl<K: Ord, V> HashMap<K, V, ahash::RandomState> {
    /// A map with the default hasher and room for `capacity` entries.
    pub fn with_capacity(capacity: usize) -> (m: Self)
        requires
            key_laws::<K>(),
        ensures
            m.wf(),
            m@ == Map::<(u64, K), V>::empty(),
            capacity == 0 ==> m.capacity() == 0,
            capacity > 0 ==> requested_capacity_spec(capacity, m.capacity()),
    {
        Self::with_capacity_and_hasher(capacity, default_hash_builder())
    }
}

} // verus!
