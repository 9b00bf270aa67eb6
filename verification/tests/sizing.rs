use chashmap::sizing::is_last_resizer;
use chashmap::sizing::load_factor;
use chashmap::sizing::resize_action;
use chashmap::sizing::ResizeAction;
use chashmap::sizing::may_help;
use chashmap::sizing::next_bound;
use chashmap::sizing::power_of_two_at_least;
use chashmap::sizing::requested_capacity;
use chashmap::sizing::resize_base;
use chashmap::sizing::resize_stamp;
use chashmap::sizing::transfer_stride;
use chashmap::sizing::MAXIMUM_CAPACITY;
use chashmap::sizing::MAX_RESIZERS;
use chashmap::raw::Table;
use chashmap::split::split_chain;
use chashmap::node::Node;

#[test]
fn load_factor_is_three_quarters() {
    assert_eq!(load_factor(16), 12);
    assert_eq!(load_factor(64), 48);
    assert_eq!(load_factor(1), 1);
    assert_eq!(load_factor(2), 2);
    assert_eq!(load_factor(MAXIMUM_CAPACITY), 805306368);
}

#[test]
fn powers_of_two() {
    assert_eq!(power_of_two_at_least(0), 1);
    assert_eq!(power_of_two_at_least(1), 1);
    assert_eq!(power_of_two_at_least(2), 2);
    assert_eq!(power_of_two_at_least(3), 4);
    assert_eq!(power_of_two_at_least(17), 32);
    assert_eq!(power_of_two_at_least(1 << 30), 1 << 30);
}

#[test]
fn requested_capacity_leaves_room() {
    assert_eq!(requested_capacity(0), 1);
    assert_eq!(requested_capacity(1), 2);
    assert_eq!(requested_capacity(10), 16);
    assert_eq!(requested_capacity(11), 32);
    assert_eq!(requested_capacity(42), 64);
    assert_eq!(requested_capacity(MAXIMUM_CAPACITY / 2), MAXIMUM_CAPACITY);
    assert_eq!(requested_capacity(MAXIMUM_CAPACITY / 2 - 1), MAXIMUM_CAPACITY);
    assert_eq!(requested_capacity(usize::MAX), MAXIMUM_CAPACITY);
}

#[test]
fn resize_stamp_counts_leading_zeros() {
    assert_eq!(resize_stamp(16), 59 + (1 << 31));
    assert_eq!(resize_stamp(1 << 30), 33 + (1 << 31));
    assert_eq!(resize_stamp(16) as u64, (16u64.leading_zeros() | (1 << 31)) as u64);
}

#[test]
fn resize_base_is_the_stamp_in_the_upper_half() {
    let n = 16usize;
    let stamp = (n as u64).leading_zeros() as u64 | (1 << 31);
    assert_eq!(resize_base(n), (stamp << 32) as i64);
    assert!(resize_base(n) < 0);
    assert_eq!(resize_base(1 << 30), ((33u64 | (1 << 31)) << 32) as i64);
}

#[test]
fn stride_is_at_least_sixteen() {
    assert_eq!(transfer_stride(16, 1), 16);
    assert_eq!(transfer_stride(64, 1), 64);
    assert_eq!(transfer_stride(64, 0), 64);
    assert_eq!(transfer_stride(64, 4), 16);
    assert_eq!(transfer_stride(1 << 20, 4), 32768);
    assert_eq!(transfer_stride(1 << 20, 8), 16384);
}

#[test]
fn claims_go_down_by_strides() {
    assert_eq!(next_bound(64, 16), 48);
    assert_eq!(next_bound(16, 16), 0);
    assert_eq!(next_bound(10, 16), 0);
    assert_eq!(next_bound(17, 16), 1);
}

#[test]
fn helpers_join_only_a_running_resize() {
    let base = resize_base(64);
    assert!(may_help(base + 2, base, 64));
    assert!(!may_help(base + 2, base, 0));
    assert!(!may_help(base + 1, base, 64));
    assert!(!may_help(base + MAX_RESIZERS, base, 64));
    assert!(!may_help(48, base, 64));
}

#[test]
fn table_indexes_by_low_bits() {
    let table: Table<u64, u64> = Table::new(16);
    assert_eq!(table.len(), 16);
    assert!(!table.is_empty());
    assert_eq!(table.bini(0), 0);
    assert_eq!(table.bini(17), 1);
    assert_eq!(table.bini(0xffff_ffff_ffff_ffff), 15);
    let empty: Table<u64, u64> = Table::new(0);
    assert!(empty.is_empty());
}

#[test]
fn a_chain_is_split_by_the_deciding_bit() {
    let mut chain = Vec::new();
    for (hash, key) in [(0u64, 0u64), (16, 1), (32, 2), (48, 3), (16, 4), (80, 5)] {
        chain.push(Node::new(hash, key, key));
    }
    let (low, high) = split_chain(chain, 16);
    let low: Vec<u64> = low.into_iter().map(|n| n.key).collect();
    let high: Vec<u64> = high.into_iter().map(|n| n.key).collect();
    assert_eq!(low, vec![2, 0]);
    assert_eq!(high, vec![1, 3, 4, 5]);
}

#[test]
fn resize_actions() {
    let base = resize_base(16);
    assert_eq!(resize_action(11, 12, 16, false, 0), ResizeAction::Stay);
    assert_eq!(resize_action(12, 12, 16, false, 0), ResizeAction::Start { size_ctl: base + 2 });
    assert_eq!(resize_action(12, 12, 0, false, 0), ResizeAction::Stay);
    assert_eq!(
        resize_action(805306368, 805306368, MAXIMUM_CAPACITY, false, 0),
        ResizeAction::Stay
    );
    assert_eq!(resize_action(12, base + 2, 16, true, 16), ResizeAction::Help { size_ctl: base + 3 });
    assert_eq!(resize_action(12, base + 2, 16, false, 16), ResizeAction::Stay);
    assert_eq!(resize_action(12, base + 2, 16, true, 0), ResizeAction::Stay);
    assert_eq!(resize_action(12, base + 1, 16, true, 16), ResizeAction::Stay);
    assert_eq!(resize_action(12, base + MAX_RESIZERS, 16, true, 16), ResizeAction::Stay);
    assert!(is_last_resizer(base + 2, base));
    assert!(!is_last_resizer(base + 3, base));
}
