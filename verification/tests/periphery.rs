use chashmap::crdts::ctx::ReadCtx;
use chashmap::crdts::dot::Dot;
use chashmap::crdts::dot::OrdDot;
use chashmap::crdts::gcounter::GCounter;
use chashmap::crdts::gset::GSet;
use chashmap::crdts::lwwreg::LWWReg;
use chashmap::crdts::lwwreg::Validation;
use chashmap::crdts::mvreg::MVReg;
use chashmap::crdts::pncounter::Dir;
use chashmap::crdts::pncounter::PNCounter;
use chashmap::crdts::vclock::VClock;
use chashmap::message::HeaderMessage;
use chashmap::message::MessageType;
use chashmap::message::NoopMessage;
use chashmap::metrics::MetricType;
use chashmap::metrics::Metrics;
use chashmap::murmur::murmur_hash64a;
use chashmap::set::HashSet;
use chashmap::stack::Stack;
use chashmap::store::Item;
use chashmap::store::OnEvict;
use chashmap::store::SampleItem;
use chashmap::store::VoidEvict;

#[test]
fn murmur_known_values() {
    assert_eq!(murmur_hash64a(b"", 0), 0);
    assert_eq!(murmur_hash64a(b"hello", 0), 2191231550387646743);
    assert_eq!(murmur_hash64a(b"hello, world!", 42), 8047924930333006405);
    assert_eq!(murmur_hash64a(b"12345678", 1), 9871996032675327904);
    assert_eq!(murmur_hash64a(b"123456789abcdefg", 7), 14730963853460623563);
}

#[test]
fn metrics_count_by_kind() {
    let mut m = Metrics::new();
    assert_eq!(m.hits(), 0);
    m.insert(MetricType::Hit, &7, 3);
    m.insert(MetricType::Hit, &32, 2);
    m.insert(MetricType::Miss, &7, 1);
    m.insert(MetricType::KeyInsert, &1, 4);
    m.insert(MetricType::KeyUpdate, &2, 5);
    m.insert(MetricType::KeyEvict, &3, 6);
    assert_eq!(m.all[0][70], 5);
    assert_eq!(m.hits(), 5);
    assert_eq!(m.misses(), 1);
    assert_eq!(m.keys_inserted(), 4);
    assert_eq!(m.keys_updated(), 5);
    assert_eq!(m.keys_evicted(), 6);
    assert_eq!(m.get(MetricType::Hit), 5);
    m.clear();
    assert_eq!(m.hits(), 0);
    assert_eq!(m.keys_evicted(), 0);
}

#[test]
fn stack_is_last_in_first_out() {
    let mut s: Stack<u64> = Stack::new();
    assert_eq!(s.size(), 0);
    assert_eq!(s.peek(), None);
    assert_eq!(s.pop(), None);
    assert_eq!(s.push(1), 1);
    assert_eq!(s.push(2), 2);
    assert_eq!(s.peek(), Some(2));
    assert_eq!(s.size(), 2);
    assert_eq!(s.pop(), Some(2));
    assert_eq!(s.pop(), Some(1));
    assert_eq!(s.pop(), None);
}

#[test]
fn dots_move_on() {
    let mut d = Dot::new("a".to_string(), 3);
    d.apply_inc();
    assert_eq!(d.counter, 4);
    let e = d.inc();
    assert_eq!(e.actor, "a");
    assert_eq!(e.counter, 5);
    let o = OrdDot::from_dot(e);
    assert_eq!(o.counter, 5);
    assert_eq!(o.into_dot().actor, "a");
}

#[test]
fn vclock_counts_and_compares() {
    let mut a: VClock<u8> = VClock::new();
    assert!(a.is_empty());
    assert_eq!(a.get(&1), 0);
    let d = a.inc(1);
    assert_eq!((d.actor, d.counter), (1, 1));
    a.apply(Dot::new(1, 1));
    a.apply(Dot::new(2, 5));
    a.apply(Dot::new(2, 3));
    assert_eq!(a.get(&2), 5);
    assert_eq!(a.dot(2).counter, 5);
    assert!(!a.is_empty());
    let mut b: VClock<u8> = VClock::new();
    b.apply(Dot::new(1, 1));
    assert!(a.covers(&b));
    assert!(!b.covers(&a));
    assert!(!a.concurrent(&b));
    b.apply(Dot::new(3, 1));
    assert!(a.concurrent(&b));
    assert!(!a.concurrent(&a));
}

#[test]
fn counters_hand_out_dots() {
    let mut c: GCounter<u8> = GCounter::new();
    let d = c.inc(9);
    assert_eq!((d.actor, d.counter), (9, 1));
    c.apply(Dot::new(9, 1));
    assert_eq!(c.inc(9).counter, 2);
    assert_eq!(c.inc_many(9, 10).counter, 11);
    let p: PNCounter<u8> = PNCounter::new();
    let up = p.inc(1);
    assert_eq!(up.dir, Dir::Pos);
    assert_eq!(up.dot.counter, 1);
    let down = p.dec_many(1, 4);
    assert_eq!(down.dir, Dir::Neg);
    assert_eq!(down.dot.counter, 4);
    assert_eq!(p.dec(1).dot.counter, 1);
    assert_eq!(p.inc_many(2, 3).dot.counter, 3);
}

#[test]
fn gset_grows() {
    let mut s: GSet<u8> = GSet::new();
    assert!(!s.contains(&1));
    s.insert(1);
    s.insert(1);
    s.insert(2);
    assert!(s.contains(&1));
    assert_eq!(s.read().len(), 2);
}

#[test]
fn lwwreg_takes_the_later_write() {
    let mut r = LWWReg { val: 1u8, marker: 10u64 };
    r.update(2, 9);
    assert_eq!(r.val, 1);
    r.update(3, 11);
    assert_eq!((r.val, r.marker), (3, 11));
    assert_eq!(r.validate_update(&3, &11), Ok(()));
    assert_eq!(r.validate_update(&4, &12), Ok(()));
    assert_eq!(r.validate_update(&4, &11), Err(Validation::ConflictingMarker));
}

#[test]
fn read_ctx_derives_contexts() {
    let mut clock: VClock<u8> = VClock::new();
    clock.apply(Dot::new(1, 4));
    let mut rm: VClock<u8> = VClock::new();
    rm.apply(Dot::new(2, 2));
    let ctx = ReadCtx { add_clock: clock, rm_clock: rm, val: 7u8 };
    let (val, rest) = ctx.split();
    assert_eq!(val, 7);
    assert_eq!(rest.add_clock.get(&1), 4);
    let mut clock: VClock<u8> = VClock::new();
    clock.apply(Dot::new(1, 4));
    let mut rm: VClock<u8> = VClock::new();
    rm.apply(Dot::new(2, 2));
    let add = ReadCtx { add_clock: clock, rm_clock: rm, val: () }.derive_add_ctx(1);
    assert_eq!((add.dot.actor, add.dot.counter), (1, 5));
    assert_eq!(add.clock.get(&1), 5);
    let mut rm: VClock<u8> = VClock::new();
    rm.apply(Dot::new(2, 2));
    let ctx = ReadCtx { add_clock: VClock::new(), rm_clock: rm, val: () };
    assert_eq!(ctx.derive_rm_ctx().clock.get(&2), 2);
    let reg: MVReg<u8, u8> = MVReg::new();
    assert!(reg.vals.is_empty());
}

#[test]
fn header_messages_carry_their_sender() {
    let mut m = HeaderMessage::new_request("peer".to_string());
    assert_eq!(m.sender(), "peer");
    assert_eq!(*m.message_type(), MessageType::Request);
    assert!(m.headers().is_empty());
    m.set_headers(vec!["a".to_string(), "b".to_string()]);
    assert_eq!(m.headers().len(), 2);
    assert_eq!(m.protocol(), 0x20);
    let r = HeaderMessage::new_response("peer".to_string());
    assert_eq!(*r.message_type(), MessageType::Response);
    assert_eq!(NoopMessage.protocol(), 0x80);
}

#[test]
fn store_items() {
    let s = SampleItem::new(3, -4);
    assert_eq!((s.key, s.estimate), (3, -4));
    assert!(s.before(&SampleItem::new(1, 0)));
    assert!(s.before(&SampleItem::new(4, -4)));
    assert!(!s.before(&SampleItem::new(2, -4)));
    let i = Item::new(1u8, 2u8);
    assert!(i.expiration_time.is_none());
    assert_eq!((i.k, i.v), (1, 2));
    let e: VoidEvict<u8, u8> =
        VoidEvict { _k: std::marker::PhantomData, _v: std::marker::PhantomData };
    e.evict(&1, &2);
}

#[test]
fn set_members() {
    let mut s: HashSet<u64> = HashSet::new();
    assert!(s.is_empty());
    assert!(s.insert(1));
    assert!(!s.insert(1));
    assert!(s.insert(2));
    assert_eq!(s.len(), 2);
    assert!(s.contains(&1));
    assert_eq!(s.get(&2), Some(&2));
    assert_eq!(s.get(&3), None);
    assert!(s.remove(&1));
    assert!(!s.remove(&1));
    assert_eq!(s.take(&2), Some(2));
    assert_eq!(s.take(&2), None);
    s.reserve(10);
    for i in 0..10u64 {
        s.insert(i);
    }
    let mut it = s.iter();
    let mut n = 0;
    while let Some(_) = it.next() {
        n += 1;
    }
    assert_eq!(n, 10);
    s.clear();
    assert_eq!(s.len(), 0);
    let t: HashSet<u64> = HashSet::with_capacity(5);
    assert_eq!(t.map.table.len(), 8);
}

fn clock_of(dots: &[(u8, u64)]) -> VClock<u8> {
    let mut c: VClock<u8> = VClock::new();
    for (a, n) in dots {
        c.apply(Dot::new(*a, *n));
    }
    c
}

fn dots_of(c: &VClock<u8>) -> Vec<(u8, u64)> {
    c.iter().into_iter().map(|d| (*d.actor, d.counter)).collect()
}

#[test]
fn vclock_merge_takes_the_larger_counters() {
    let mut a = clock_of(&[(1, 4), (2, 1)]);
    a.merge(clock_of(&[(1, 2), (2, 5), (3, 7)]));
    assert_eq!(dots_of(&a), vec![(1, 4), (2, 5), (3, 7)]);
}

#[test]
fn vclock_reset_remove_forgets_what_was_seen() {
    let mut a = clock_of(&[(1, 4), (2, 1), (3, 3)]);
    a.reset_remove(&clock_of(&[(1, 4), (2, 0), (3, 2), (4, 9)]));
    assert_eq!(dots_of(&a), vec![(2, 1), (3, 3)]);
    a.reset_remove(&clock_of(&[(2, 7)]));
    assert_eq!(dots_of(&a), vec![(3, 3)]);
    let b = clock_of(&[(1, 4), (2, 1)]);
    let c = b.clone_without(&clock_of(&[(2, 1)]));
    assert_eq!(dots_of(&c), vec![(1, 4)]);
    assert_eq!(dots_of(&b), vec![(1, 4), (2, 1)]);
}

#[test]
fn vclock_intersection_and_glb() {
    let a = clock_of(&[(1, 4), (2, 1), (3, 3)]);
    let b = clock_of(&[(1, 4), (2, 2), (4, 3)]);
    assert_eq!(dots_of(&VClock::intersection(&a, &b)), vec![(1, 4)]);
    let mut c = clock_of(&[(1, 4), (2, 1), (3, 3)]);
    c.glb(&b);
    assert_eq!(dots_of(&c), vec![(1, 4), (2, 1)]);
}

#[test]
fn mvreg_reads_the_joined_clock() {
    let mut reg: MVReg<u8, u8> = MVReg::new();
    reg.vals.push((clock_of(&[(1, 2)]), 10));
    reg.vals.push((clock_of(&[(1, 1), (2, 3)]), 20));
    assert_eq!(dots_of(&reg.clock()), vec![(1, 2), (2, 3)]);
    let read = reg.read();
    assert_eq!(read.val, vec![10, 20]);
    assert_eq!(dots_of(&read.add_clock), vec![(1, 2), (2, 3)]);
    assert_eq!(dots_of(&read.rm_clock), vec![(1, 2), (2, 3)]);
    let ctx = reg.read_ctx().derive_add_ctx(1);
    assert_eq!((ctx.dot.actor, ctx.dot.counter), (1, 3));
    match reg.write(30, ctx) {
        chashmap::crdts::mvreg::Op::Put { clock, val } => {
            assert_eq!(val, 30);
            assert_eq!(dots_of(&clock), vec![(1, 3), (2, 3)]);
        }
    }
}

#[test]
fn set_relations() {
    let mut small: HashSet<u64> = HashSet::new();
    let mut large: HashSet<u64> = HashSet::new();
    for i in 0..10u64 {
        large.insert(i);
    }
    for i in 3..6u64 {
        small.insert(i);
    }
    assert!(small.is_subset(&large));
    assert!(!large.is_subset(&small));
    assert!(large.is_superset(&small));
    assert!(!small.is_disjoint(&large));
    let mut other: HashSet<u64> = HashSet::new();
    other.insert(100);
    assert!(small.is_disjoint(&other));
    assert!(other.is_disjoint(&small));
    let empty: HashSet<u64> = HashSet::new();
    assert!(empty.is_subset(&small));
    assert!(empty.is_disjoint(&small));
    large.retain(|v| *v % 3 == 0);
    assert_eq!(large.len(), 4);
    assert!(large.contains(&9));
    assert!(!large.contains(&4));
}

#[test]
fn set_reserve_makes_room() {
    let mut s: HashSet<u64> = HashSet::with_capacity(10);
    assert_eq!(s.map.table.len(), 16);
    assert_eq!(s.map.size_ctl, 12);
    for i in 0..5u64 {
        s.insert(i);
    }
    s.reserve(3);
    assert_eq!(s.map.table.len(), 32);
    assert_eq!(s.map.size_ctl, 24);
    s.reserve(3);
    assert_eq!(s.map.table.len(), 32);
    s.reserve(100);
    assert_eq!(s.map.table.len(), 512);
    assert_eq!(s.map.size_ctl, 384);
    assert_eq!(s.len(), 5);
    for i in 0..5u64 {
        assert!(s.contains(&i));
    }
    let none: HashSet<u64> = HashSet::with_capacity(0);
    assert_eq!(none.map.table.len(), 0);
}
