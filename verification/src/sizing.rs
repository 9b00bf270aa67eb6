//! The constants and the arithmetic that size the table, its bins and its
//! resizes.
use vstd::prelude::*;
use vstd::std_specs::bits::axiom_u64_leading_zeros;
use vstd::std_specs::bits::u64_leading_zeros;

verus! {

/// Largest number of bins a table will ever have.
pub const MAXIMUM_CAPACITY: usize = 1073741824;

/// Number of bins of a table that is created without a sizing hint.
pub const DEFAULT_CAPACITY: usize = 16;

/// Length at which a list bin is turned into a tree bin.
pub const TREEIFY_THRESHOLD: usize = 8;

/// Size at or below which a tree bin is turned back into a list bin.
pub const UNTREEIFY_THRESHOLD: usize = 6;

/// Smallest table in which bins are turned into trees; in a smaller table a
/// long bin makes the table grow instead.
pub const MIN_TREEIFY_CAPACITY: usize = 64;

/// Smallest number of bins that one claim of a transfer covers.
pub const MIN_TRANSFER_STRIDE: i64 = 16;

/// Number of bits of the size control word that hold the resize stamp.
pub const RESIZE_STAMP_BITS: u32 = 32;

/// Largest number of threads that a resize can count.
pub const MAX_RESIZERS: i64 = 4294967295;

/// `n` is a power of two no greater than `MAXIMUM_CAPACITY`.
pub open spec fn is_capacity(n: usize) -> bool {
    0 < n <= MAXIMUM_CAPACITY && (n as u64) & ((n - 1) as u64) == 0
}

/// The load at which a table of `n` bins is resized: three quarters of `n`.
pub open spec fn load_factor_spec(n: int) -> int {
    n - n / 4
}

/// Computes the load at which a table of `n` bins is resized.
pub fn load_factor(n: usize) -> (r: i64)
    requires
        n <= MAXIMUM_CAPACITY,
    ensures
        r == load_factor_spec(n as int),
{
    let q = n / 4;
    (n - q) as i64
}

/// Twice a capacity below the maximum is a capacity.
pub proof fn lemma_capacity_doubles(n: usize)
    requires
        is_capacity(n),
        n < MAXIMUM_CAPACITY,
    ensures
        is_capacity((2 * n) as usize),
{
    let a = n as u64;
    assert(a & ((a - 1) as u64) == 0 && 0 < a < 1073741824 ==> ((2 * a) as u64) & ((2 * a
        - 1) as u64) == 0 && ((2 * a) as u64) <= 1073741824) by (bit_vector);
}

/// The capacities from `p` up that are at least `x`: the least of them.
pub open spec fn least_capacity_from(p: int, x: int) -> int
    decreases 1073741824 - p,
{
    if p >= x || 2 * p > 1073741824 || p <= 0 {
        p
    } else {
        least_capacity_from(2 * p, x)
    }
}

/// The smallest power of two that is at least `x`.
pub open spec fn least_capacity(x: int) -> int {
    least_capacity_from(1, x)
}

/// The smallest power of two that is at least `x`.
pub fn power_of_two_at_least(x: usize) -> (r: usize)
    requires
        x <= MAXIMUM_CAPACITY,
    ensures
        r == least_capacity(x as int),
        is_capacity(r),
        r >= x,
        r == 1 || r / 2 < x,
{
    let mut p: usize = 1;
    assert(1u64 & 0u64 == 0) by (bit_vector);
    while p < x
        invariant
            is_capacity(p),
            x <= MAXIMUM_CAPACITY,
            p == 1 || p / 2 < x,
            least_capacity_from(p as int, x as int) == least_capacity(x as int),
        decreases MAXIMUM_CAPACITY - p,
    {
        proof {
            lemma_capacity_doubles(p);
        }
        p = p * 2;
    }
    p
}

/// The capacity that a table needs for `size` entries: the smallest power
/// of two above one and a half times `size`, capped at `MAXIMUM_CAPACITY`.
pub open spec fn requested_capacity_spec(size: usize, r: usize) -> bool {
    if size >= MAXIMUM_CAPACITY / 2 {
        r == MAXIMUM_CAPACITY
    } else {
        &&& r == least_capacity(size + size / 2 + 1)
        &&& is_capacity(r)
        &&& r >= size + size / 2 + 1
        &&& (r == 1 || r / 2 < size + size / 2 + 1)
    }
}

/// The capacity that a table needs for `size` entries.
pub open spec fn requested_for(size: usize) -> int {
    if size >= MAXIMUM_CAPACITY / 2 {
        MAXIMUM_CAPACITY as int
    } else {
        least_capacity(size + size / 2 + 1)
    }
}

/// Computes the capacity that a table needs for `size` entries.
pub fn requested_capacity(size: usize) -> (r: usize)
    ensures
        r == requested_for(size),
        requested_capacity_spec(size, r),
        is_capacity(r),
        load_factor_spec(r as int) > size || r == MAXIMUM_CAPACITY,
{
    assert(1073741824u64 & 1073741823u64 == 0) by (bit_vector);
    if size >= MAXIMUM_CAPACITY / 2 {
        MAXIMUM_CAPACITY
    } else {
        let want = size + size / 2 + 1;
        power_of_two_at_least(want)
    }
}

/// The stamp that marks a resize of a table of `n` bins: the number of
/// leading zero bits of `n`, with the top bit of the stamp's width set.
pub open spec fn resize_stamp_spec(n: usize) -> int {
    u64_leading_zeros(n as u64) + 2147483648
}

/// Computes the resize stamp of a table of `n` bins.
pub fn resize_stamp(n: usize) -> (r: i64)
    ensures
        r == resize_stamp_spec(n),
        2147483648 <= r <= 2147483648 + 64,
{
    proof {
        axiom_u64_leading_zeros(n as u64);
    }
    let lz = (n as u64).leading_zeros();
    lz as i64 + 2147483648
}

/// The size control word of a resize that no thread works on: the stamp in
/// the upper half of the word, which makes the word negative, and zero in
/// the lower half.
pub open spec fn resize_base_spec(n: usize) -> int {
    (resize_stamp_spec(n) - 4294967296) * 4294967296
}

/// Computes the stamp of a table of `n` bins, shifted into the upper half of
/// the size control word.
pub fn resize_base(n: usize) -> (r: i64)
    ensures
        r == resize_base_spec(n),
        r + MAX_RESIZERS < -1,
{
    let stamp = resize_stamp(n);
    (stamp - 4294967296) * 4294967296
}

/// The number of bins that one claim of a transfer covers: an eighth of the
/// table shared among the processors, at least `MIN_TRANSFER_STRIDE`; on
/// one processor the whole table.
pub open spec fn transfer_stride_spec(n: usize, ncpu: usize) -> int {
    let share: int = if ncpu > 1 {
        ((n as int) / 8) / (ncpu as int)
    } else {
        n as int
    };
    if share < MIN_TRANSFER_STRIDE {
        MIN_TRANSFER_STRIDE as int
    } else {
        share
    }
}

/// Computes the stride of a transfer out of a table of `n` bins on `ncpu`
/// processors.
pub fn transfer_stride(n: usize, ncpu: usize) -> (r: i64)
    requires
        n <= MAXIMUM_CAPACITY,
    ensures
        r == transfer_stride_spec(n, ncpu),
        r >= MIN_TRANSFER_STRIDE,
{
    let share = if ncpu > 1 {
        (n / 8) / ncpu
    } else {
        n
    };
    if (share as i64) < MIN_TRANSFER_STRIDE {
        MIN_TRANSFER_STRIDE
    } else {
        share as i64
    }
}

/// The lower end of the next claim below `next_index`.
pub fn next_bound(next_index: i64, stride: i64) -> (r: i64)
    requires
        next_index > 0,
        stride > 0,
    ensures
        r == if next_index > stride { next_index - stride } else { 0 },
        0 <= r < next_index,
{
    if next_index > stride {
        next_index - stride
    } else {
        0
    }
}

/// Whether a thread that meets a resize may join it: the resize is under
/// way, has room for another thread, is not finishing, and has bins left to
/// claim.
pub fn may_help(size_ctl: i64, base: i64, transfer_index: i64) -> (r: bool)
    requires
        base + MAX_RESIZERS < -1,
    ensures
        r == (size_ctl < 0 && size_ctl != base + MAX_RESIZERS && size_ctl != base + 1
            && transfer_index > 0),
{
    !(size_ctl >= 0 || size_ctl == base + MAX_RESIZERS || size_ctl == base + 1 || transfer_index
        <= 0)
}

/// What a thread does about the size of the table after it has counted
/// new entries.
#[derive(Debug, Clone, Copy, PartialEq, Eq, Structural)]
pub enum ResizeAction {
    /// Nothing: the table has room, cannot grow, or is being resized by as
    /// many threads as it takes.
    Stay,
    /// It starts a resize, with this size control word.
    Start { size_ctl: i64 },
    /// It joins the resize under way, with this size control word.
    Help { size_ctl: i64 },
}

/// The action that `resize_action` decides on.
pub open spec fn resize_action_spec(
    count: int,
    size_ctl: i64,
    n: usize,
    has_next_table: bool,
    transfer_index: i64,
) -> ResizeAction {
    let base = resize_base_spec(n);
    if count < size_ctl || n == 0 || n >= MAXIMUM_CAPACITY {
        ResizeAction::Stay
    } else if size_ctl < 0 {
        if size_ctl == base + MAX_RESIZERS || size_ctl == base + 1 || !has_next_table
            || transfer_index <= 0 {
            ResizeAction::Stay
        } else {
            ResizeAction::Help { size_ctl: (size_ctl + 1) as i64 }
        }
    } else {
        ResizeAction::Start { size_ctl: (base + 2) as i64 }
    }
}

/// Decides what a thread does about the size of a table of `n` bins that
/// holds `count` entries: it starts a resize where the count has reached
/// the load threshold, joins one that is under way and has work left, and
/// else leaves the table alone.
pub fn resize_action(
    count: isize,
    size_ctl: i64,
    n: usize,
    has_next_table: bool,
    transfer_index: i64,
) -> (r: ResizeAction)
    ensures
        r == resize_action_spec(count as int, size_ctl, n, has_next_table, transfer_index),
{
    if (count as i64) < size_ctl || n == 0 || n >= MAXIMUM_CAPACITY {
        return ResizeAction::Stay;
    }
    let base = resize_base(n);
    if size_ctl < 0 {
        if !may_help(size_ctl, base, transfer_index) || !has_next_table {
            ResizeAction::Stay
        } else {
            ResizeAction::Help { size_ctl: size_ctl + 1 }
        }
    } else {
        ResizeAction::Start { size_ctl: base + 2 }
    }
}

/// Whether the thread that leaves a resize with the size control word at
/// `size_ctl` is the last one, which finishes the resize.
pub fn is_last_resizer(size_ctl: i64, base: i64) -> (r: bool)
    requires
        base + MAX_RESIZERS < -1,
        size_ctl < 0,
    ensures
        r == (size_ctl - 2 == base),
{
    size_ctl == base + 2
}

} // verus!
