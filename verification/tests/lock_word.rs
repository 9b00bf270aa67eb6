use chashmap::lock_state::after_step;
use chashmap::lock_state::contended_step;
use chashmap::lock_state::reader_enters;
use chashmap::lock_state::reader_leaves;
use chashmap::lock_state::reader_must_walk;
use chashmap::lock_state::LockStep;
use chashmap::lock_state::READER;
use chashmap::lock_state::WAITER;
use chashmap::lock_state::WRITER;
use chashmap::node::Node;
use chashmap::tree_bin::TreeBin;

#[test]
fn readers_walk_while_a_writer_is_about() {
    assert!(!reader_must_walk(0));
    assert!(!reader_must_walk(READER * 3));
    assert!(reader_must_walk(WRITER));
    assert!(reader_must_walk(WAITER));
    assert!(reader_must_walk(READER | WAITER));
}

#[test]
fn readers_count_in_and_out() {
    assert_eq!(reader_enters(0), 4);
    assert_eq!(reader_enters(8), 12);
    assert_eq!(reader_leaves(4), (0, false));
    assert_eq!(reader_leaves(READER | WAITER), (WAITER, true));
    assert_eq!(reader_leaves(2 * READER | WAITER), (READER | WAITER, false));
}

#[test]
fn a_writer_acquires_announces_parks_or_spins() {
    assert_eq!(contended_step(0, false), LockStep::Acquire);
    assert_eq!(contended_step(WAITER, true), LockStep::Acquire);
    assert_eq!(contended_step(READER, false), LockStep::Announce);
    assert_eq!(contended_step(WRITER, false), LockStep::Announce);
    assert_eq!(contended_step(READER | WAITER, true), LockStep::Park);
    assert_eq!(contended_step(READER | WAITER, false), LockStep::Spin);
    assert_eq!(after_step(WAITER, LockStep::Acquire), WRITER);
    assert_eq!(after_step(READER, LockStep::Announce), READER | WAITER);
    assert_eq!(after_step(READER | WAITER, LockStep::Park), READER | WAITER);
}

#[test]
fn both_ways_of_reading_find_the_same_entry() {
    let mut list = Vec::new();
    for i in 0..12u64 {
        list.push(Node::new(i % 4, i, i + 100));
    }
    let bin: TreeBin<u64, u64> = TreeBin::new(list);
    for i in 0..14u64 {
        let by_tree = bin.find_as_reader(0, i % 4, &i);
        let by_walk = bin.find_as_reader(WRITER, i % 4, &i);
        assert_eq!(by_tree, by_walk);
        assert_eq!(by_tree.is_some(), i < 12);
        assert_eq!(bin.find_linear(i % 4, &i), by_tree);
        if let Some(at) = by_tree {
            assert_eq!(bin.nodes[at].value, i + 100);
        }
    }
}
