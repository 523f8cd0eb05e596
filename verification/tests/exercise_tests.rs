use exercises::counters::{AtomicCounter, LockCounter, ThreadSafetyCounter};
use exercises::digits::{cmp, slice_add, slice_div_by_2, slice_mul, slice_sub, Cmp};
use exercises::downcast::{AnyValue, Downcaster, SelfType, TryDowncast};
use exercises::numbers::{squares_sum, squares_sum_of_sequence, xor_ith};
use exercises::seqops::{bin_search, intersection, merge, remove_at};

#[test]
fn lock_counter_counts() {
    let mut c = LockCounter::new();
    assert_eq!(c.get(), 0);
    c.add();
    c.add();
    assert_eq!(c.get(), 2);
}

#[test]
fn atomic_counter_counts() {
    let mut c = AtomicCounter::new();
    c.add();
    assert_eq!(c.get(), 1);
}

#[test]
fn add_many_counts() {
    let mut c = LockCounter::new();
    let total = exercises::counters::add_many(&mut c, 1_000_000);
    assert_eq!(total, 1_000_000);
    let mut a = AtomicCounter::new();
    let total = exercises::counters::add_many(&mut a, 1_000_000);
    assert_eq!(total, 1_000_000);
}

#[test]
fn downcaster_first_match_wins() {
    let mut d = Downcaster::new();
    d.push(SelfType::new(7, String::from("seven")));
    d.push(SelfType::new(7, String::from("seven-again")));
    d.push(SelfType::new(9, String::from("nine")));
    let hit = d.try_get_type(&AnyValue { type_id: 7 }).unwrap();
    assert_eq!(hit, (String::from("seven"), 7));
    let hit = d.try_get_type(&AnyValue { type_id: 9 }).unwrap();
    assert_eq!(hit.1, 9);
    assert!(d.try_get_type(&AnyValue { type_id: 8 }).is_none());
}

#[test]
fn downcaster_default_registry() {
    let v = AnyValue { type_id: 4 };
    let (name, id) = v.try_get_type().unwrap();
    assert_eq!(name, "i32");
    assert_eq!(id, 4);
    assert!(AnyValue { type_id: 77 }.try_get_type().is_none());
    let st = SelfType::default();
    assert_eq!(st.get_type_id(), 0);
    assert_eq!(st.get_type_name(), "");
    assert!(SelfType::new(4, String::from("i32")).is_downcasted(&v));
}

#[test]
fn xor_ith_flips_bit() {
    assert_eq!(xor_ith(0b101, 0), 0b100);
    assert_eq!(xor_ith(0b101, 2), 0b001);
}

#[test]
fn squares_sums_agree() {
    for n in [0usize, 1, 2, 10, 1000] {
        assert_eq!(squares_sum_of_sequence(n), squares_sum(n));
    }
    assert_eq!(squares_sum_of_sequence(3), 14);
    assert_eq!(squares_sum_of_sequence(10), 385);
}

#[test]
fn merge_interleaves() {
    let a = vec![1, 3, 5, 7];
    let b = vec![2, 4, 6, 8];
    assert_eq!(merge(&a, &b), vec![1, 2, 3, 4, 5, 6, 7, 8]);
    let a = vec![1, 3];
    let b = vec![2, 4, 6, 8];
    assert_eq!(merge(&a, &b), vec![1, 2, 3, 4, 6, 8]);
    assert_eq!(merge(&Vec::new(), &b), b);
}

#[test]
fn intersection_keeps_order_of_other() {
    let a = vec![1, 2, 3, 5];
    let b = vec![8, 9, 5, 2];
    assert_eq!(intersection(&a, &b), vec![5, 2]);
    let b = vec![2, 2, 7];
    assert_eq!(intersection(&a, &b), vec![2, 2]);
}

#[test]
fn remove_at_keeps_order() {
    let v = vec![1, 2, 4];
    assert_eq!(remove_at(&v, 0), vec![2, 4]);
    assert_eq!(remove_at(&v, 1), vec![1, 4]);
    assert_eq!(remove_at(&v, 9), vec![1, 2, 4]);
}

#[test]
fn bin_search_finds() {
    let x = vec![0, 1, 2];
    assert_eq!(bin_search(&x, 0, x.len(), 1), Ok(1));
    let x = vec![1, 2, 3, 4, 5, 6];
    assert_eq!(bin_search(&x, 0, x.len(), 3), Ok(2));
    let x = vec![1, 2, 3];
    assert_eq!(bin_search(&x, 0, x.len(), 0), Err(0));
}

#[test]
fn digit_primitives_are_canonical() {
    // least-significant digit first
    assert_eq!(slice_sub(&vec![5], &vec![5]), vec![0]);
    assert_eq!(slice_sub(&vec![0, 0, 1], &vec![9, 9]), vec![1]);
    assert_eq!(slice_add(&vec![9, 9], &vec![1]), vec![0, 0, 1]);
    assert_eq!(slice_add(&vec![0], &vec![0]), vec![0]);
    assert_eq!(slice_mul(&vec![5, 1], &vec![0]), vec![0]);
    assert_eq!(slice_mul(&vec![3], &vec![2, 0, 1]), vec![6, 0, 3]);
    // most-significant digit first
    assert_eq!(slice_div_by_2(&vec![1, 0, 1]), vec![5, 0]);
    assert_eq!(cmp(&vec![9, 9], &vec![1, 0, 0]), Cmp::Less);
}
