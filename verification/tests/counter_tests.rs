use counter::Counter;

#[test]
fn it_works() {}

#[test]
fn new_is_empty() {
    let c: Counter<u64> = Counter::new();
    assert!(c.is_empty());
    assert_eq!(c.len(), 0);
    assert_eq!(c.get_count(&7), 0);
    assert_eq!(c.get(&7), None);
    assert!(!c.contains(&7));
}

#[test]
fn init_counts_occurrences() {
    let c = Counter::init(vec![1u64, 2, 1, 3, 1, 2]);
    assert_eq!(c.get_count(&1), 3);
    assert_eq!(c.get_count(&2), 2);
    assert_eq!(c.get_count(&3), 1);
    assert_eq!(c.get_count(&4), 0);
    assert_eq!(c.len(), 3);
    assert_eq!(c.get(&1), Some(3));
    assert!(c.contains(&3));
    assert!(!c.contains(&4));
}

#[test]
fn init_empty_iterable() {
    let c: Counter<u64> = Counter::init(Vec::new());
    assert!(c.is_empty());
}

#[test]
fn update_increments() {
    let mut c = Counter::init(vec![5u64, 5]);
    c.update(vec![5u64, 6]);
    assert_eq!(c.get_count(&5), 3);
    assert_eq!(c.get_count(&6), 1);
}

#[test]
fn update_then_subtract_restores() {
    let mut c = Counter::init(vec![1u64, 1, 2, 3]);
    let items = vec![1u64, 3, 3, 4];
    c.update(items.clone());
    c.subtract(&items);
    assert_eq!(c.get_count(&1), 2);
    assert_eq!(c.get_count(&2), 1);
    assert_eq!(c.get_count(&3), 1);
    assert_eq!(c.get_count(&4), 0);
    assert!(!c.contains(&4));
    assert_eq!(c.len(), 3);
}

#[test]
fn subtract_clamps_and_removes() {
    let mut c = Counter::init(vec![1u64, 1, 2]);
    c.subtract(&vec![1u64, 1, 1, 2, 9]);
    assert!(c.is_empty());
    assert_eq!(c.get_count(&1), 0);
    assert_eq!(c.get_count(&2), 0);
    assert_eq!(c.get_count(&9), 0);
    assert!(!c.contains(&9));
}

#[test]
fn subtract_absent_is_noop() {
    let mut c = Counter::init(vec![1u64, 1]);
    c.subtract(&vec![2u64]);
    assert_eq!(c.get_count(&1), 2);
    assert_eq!(c.get_count(&2), 0);
    assert!(!c.contains(&2));
    assert_eq!(c.len(), 1);
}

#[test]
fn sum_adds_counts() {
    let c = Counter::init(vec![1u64, 1, 2]);
    let d = Counter::init(vec![1u64, 3]);
    let e = c.sum(d);
    assert_eq!(e.get_count(&1), 3);
    assert_eq!(e.get_count(&2), 1);
    assert_eq!(e.get_count(&3), 1);
    assert_eq!(e.len(), 3);
}

#[test]
fn sum_then_subtracting_rhs() {
    // d has key 3, absent from c; after summing and subtracting d's elements
    // the counts agree with c again, key 3 included (clamped back to absent).
    let c = Counter::init(vec![1u64, 1, 2]);
    let d = Counter::init(vec![1u64, 3]);
    let e = c.sum(d);
    let f = e.difference(Counter::init(vec![1u64, 3]));
    assert_eq!(f.get_count(&1), 2);
    assert_eq!(f.get_count(&2), 1);
    assert_eq!(f.get_count(&3), 0);
    assert!(!f.contains(&3));
}

#[test]
fn difference_clamps_to_absence() {
    // c = {10: 3, 20: 1}, d = {10: 3, 20: 5}: equal counts vanish, and a
    // larger right-hand count clamps to absence, so the difference is empty.
    let c = Counter::init(vec![10u64, 10, 10, 20]);
    let d = Counter::init(vec![10u64, 10, 10, 20, 20, 20, 20, 20]);
    let e = c.difference(d);
    assert!(e.is_empty());
    assert_eq!(e.get_count(&10), 0);
    assert_eq!(e.get_count(&20), 0);
}

#[test]
fn difference_keeps_positive_remainder() {
    let c = Counter::init(vec![1u64, 1, 1, 2]);
    let d = Counter::init(vec![1u64, 9]);
    let e = c.difference(d);
    assert_eq!(e.get_count(&1), 2);
    assert_eq!(e.get_count(&2), 1);
    assert_eq!(e.get_count(&9), 0);
    assert_eq!(e.len(), 2);
}

#[test]
fn intersection_takes_minimum_over_shared_keys() {
    // c = {1: 3, 2: 2}, d = {2: 5, 3: 7}: only the shared key 2 survives,
    // with the smaller count.
    let c = Counter::init(vec![1u64, 1, 1, 2, 2]);
    let d = Counter::init(vec![2u64, 2, 2, 2, 2, 3, 3, 3, 3, 3, 3, 3]);
    let e = c.intersect(d);
    assert_eq!(e.get_count(&2), 2);
    assert_eq!(e.get_count(&1), 0);
    assert_eq!(e.get_count(&3), 0);
    assert!(!e.contains(&1));
    assert!(!e.contains(&3));
    assert_eq!(e.len(), 1);
}

#[test]
fn union_takes_maximum_with_identity_for_lone_keys() {
    // c = {1: 3, 2: 2}, d = {2: 5, 3: 7}: all keys appear, each with the
    // larger of its counts; a key in one operand keeps its count.
    let c = Counter::init(vec![1u64, 1, 1, 2, 2]);
    let d = Counter::init(vec![2u64, 2, 2, 2, 2, 3, 3, 3, 3, 3, 3, 3]);
    let e = c.union(d);
    assert_eq!(e.get_count(&1), 3);
    assert_eq!(e.get_count(&2), 5);
    assert_eq!(e.get_count(&3), 7);
    assert_eq!(e.len(), 3);
}

#[test]
fn most_common_orders_by_descending_count() {
    // {100: 5, 200: 5, 300: 1}: 300 comes last; 100 and 200 both precede it,
    // in an unspecified relative order.
    let c = Counter::init(vec![100u64, 100, 100, 100, 100, 200, 200, 200, 200, 200, 300]);
    let mc = c.most_common();
    assert_eq!(mc.len(), 3);
    assert_eq!(*mc[2].0, 300);
    assert_eq!(mc[2].1, 1);
    assert_eq!(mc[0].1, 5);
    assert_eq!(mc[1].1, 5);
    let firsts = [*mc[0].0, *mc[1].0];
    assert!(firsts.contains(&100));
    assert!(firsts.contains(&200));
}

#[test]
fn most_common_is_a_snapshot_and_deterministic() {
    let c = Counter::init(vec![1u64, 1, 2, 2, 2, 3]);
    let first = c.most_common();
    let second = c.most_common();
    assert_eq!(first.len(), second.len());
    for i in 0..first.len() {
        assert_eq!(*first[i].0, *second[i].0);
        assert_eq!(first[i].1, second[i].1);
    }
}

#[test]
fn most_common_on_empty_counter() {
    let c: Counter<u64> = Counter::new();
    assert_eq!(c.most_common().len(), 0);
}

#[test]
fn set_count_inserts_overwrites_and_removes() {
    let mut c: Counter<u64> = Counter::new();
    c.set_count(4, 9);
    assert_eq!(c.get_count(&4), 9);
    c.set_count(4, 2);
    assert_eq!(c.get_count(&4), 2);
    c.set_count(4, 0);
    assert_eq!(c.get_count(&4), 0);
    assert!(!c.contains(&4));
    assert!(c.is_empty());
}

#[test]
fn reduce_lowers_and_removes() {
    let mut c = Counter::init(vec![8u64, 8, 8]);
    c.reduce(&8, 1);
    assert_eq!(c.get_count(&8), 2);
    c.reduce(&8, 5);
    assert_eq!(c.get_count(&8), 0);
    c.reduce(&8, 1);
    assert_eq!(c.get_count(&8), 0);
}

#[test]
fn entries_cover_every_element_once() {
    let c = Counter::init(vec![1u64, 2, 2, 3, 3, 3]);
    let mut seen: Vec<(u64, usize)> = c.entries().iter().map(|p| (*p.0, p.1)).collect();
    seen.sort();
    assert_eq!(seen, vec![(1, 1), (2, 2), (3, 3)]);
}

#[test]
fn remove_returns_prior_count() {
    let mut c = Counter::init(vec![5u64, 5, 6]);
    assert_eq!(c.remove(&5), Some(2));
    assert_eq!(c.remove(&5), None);
    assert_eq!(c.remove(&7), None);
    assert_eq!(c.get_count(&6), 1);
    assert_eq!(c.len(), 1);
}
