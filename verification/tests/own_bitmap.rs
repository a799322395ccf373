use ordered_sets::{Iter, RangeLimit, RoaringBitmap};

struct Values<'a>(Iter<'a>);

impl<'a> Iterator for Values<'a> {
    type Item = u32;

    fn next(&mut self) -> Option<u32> {
        self.0.next()
    }
}

fn values(bitmap: &RoaringBitmap) -> Vec<u32> {
    Values(bitmap.iter()).collect()
}

fn bitmap_from(values: &[u32]) -> RoaringBitmap {
    let mut bitmap = RoaringBitmap::new();
    for &v in values {
        bitmap.insert(v);
    }
    bitmap
}

#[test]
fn iteration_is_strictly_increasing() {
    let bitmap = bitmap_from(&[70000, 5, 3, 65536, 4_000_000_000, 65535, 0, 5]);
    let got = values(&bitmap);
    assert_eq!(got, vec![0, 3, 5, 65535, 65536, 70000, 4_000_000_000]);
    for pair in got.windows(2) {
        assert!(pair[0] < pair[1]);
    }
}

#[test]
fn len_equals_iteration_count() {
    let mut bitmap = RoaringBitmap::new();
    bitmap.extend_consecutive(10..5000);
    bitmap.insert(1_000_000);
    bitmap.insert(12);
    assert_eq!(bitmap.len(), 4991);
    assert_eq!(values(&bitmap).len() as u64, bitmap.len());
}

#[test]
fn contains_agrees_with_iteration() {
    let bitmap = bitmap_from(&[1, 9, 65536, 131071]);
    let got = values(&bitmap);
    for v in [0u32, 1, 2, 9, 10, 65535, 65536, 65537, 131070, 131071, 131072] {
        assert_eq!(bitmap.contains(v), got.contains(&v));
    }
}

#[test]
fn containers_are_never_empty_and_keys_increase() {
    let mut bitmap = bitmap_from(&[1, 65536, 200000]);
    bitmap.remove(65536);
    let stats = bitmap.container_stats();
    assert_eq!(stats.len(), 2);
    assert_eq!(stats[0].0, 0);
    assert_eq!(stats[1].0, 3);
    for (_, _, count) in &stats {
        assert!(*count > 0);
    }
    assert_eq!(bitmap.container_type(1), None);
}

#[test]
fn set_operations_agree_with_plain_sets() {
    let a = bitmap_from(&[1, 2, 3, 65536, 70000]);
    let b = bitmap_from(&[3, 4, 5, 70000, 200000]);
    assert_eq!(values(&a.union(&b)), vec![1, 2, 3, 4, 5, 65536, 70000, 200000]);
    assert_eq!(values(&a.intersection(&b)), vec![3, 70000]);
    assert_eq!(values(&a.difference(&b)), vec![1, 2, 65536]);
    assert_eq!(values(&a.symmetric_difference(&b)), vec![1, 2, 4, 5, 65536, 200000]);
}

#[test]
fn set_algebra_laws_on_values() {
    let a = bitmap_from(&[1, 2, 3, 100000]);
    let b = bitmap_from(&[3, 4, 100000, 100001]);
    let c = bitmap_from(&[2, 3, 7]);
    assert_eq!(values(&a.union(&b)), values(&b.union(&a)));
    assert_eq!(values(&a.intersection(&b)), values(&b.intersection(&a)));
    assert_eq!(values(&a.union(&b).union(&c)), values(&a.union(&b.union(&c))));
    assert_eq!(
        values(&a.intersection(&b).intersection(&c)),
        values(&a.intersection(&b.intersection(&c)))
    );
    assert_eq!(values(&a.union(&a)), values(&a));
    assert_eq!(values(&a.intersection(&a)), values(&a));
    assert!(a.difference(&a).is_empty());
    assert_eq!(values(&a.symmetric_difference(&b)), values(&b.symmetric_difference(&a)));
    assert!(a.symmetric_difference(&a).is_empty());
}

#[test]
fn optimize_keeps_the_values() {
    let mut bitmap = RoaringBitmap::new();
    for v in 0..5000 {
        bitmap.insert(v);
    }
    for v in (100000..100200).step_by(2) {
        bitmap.insert(v);
    }
    let before = values(&bitmap);
    bitmap.optimize();
    assert_eq!(values(&bitmap), before);
    assert_eq!(bitmap.container_type(0), Some("Run"));
    assert_eq!(bitmap.container_type(1), Some("Array"));
}

#[test]
fn memory_total_is_stack_plus_heap() {
    let mut bitmap = RoaringBitmap::new();
    bitmap.extend_consecutive(0..10);
    for v in (65536..80000).step_by(2) {
        bitmap.insert(v);
    }
    let usage = bitmap.memory_usage_detailed();
    assert_eq!(usage.total, usage.stack + usage.heap);
    assert_eq!(usage.containers.len(), 2);
    assert_eq!(usage.containers[1].container_type, "Bitmap");
    assert_eq!(usage.containers[1].memory_bytes, 8192);
    assert_eq!(usage.total, bitmap.memory_usage());
}

#[test]
fn array_reports_at_least_two_bytes_per_value() {
    let bitmap = bitmap_from(&[1, 2, 3, 4, 5, 6, 7]);
    let usage = bitmap.memory_usage_detailed();
    assert_eq!(usage.containers[0].container_type, "Array");
    assert!(usage.containers[0].memory_bytes >= 14);
    assert_eq!(usage.containers[0].memory_bytes % 2, 0);
}

#[test]
fn boundary_values() {
    let mut bitmap = RoaringBitmap::new();
    for v in [0u32, 65535, 65536, u32::MAX] {
        assert!(bitmap.insert(v));
    }
    assert_eq!(values(&bitmap), vec![0, 65535, 65536, u32::MAX]);
    assert_eq!(bitmap.container_stats().len(), 3);
    assert!(bitmap.remove(u32::MAX));
    assert!(!bitmap.contains(u32::MAX));
    assert_eq!(bitmap.len(), 3);
}

#[test]
fn range_across_one_and_many_boundaries() {
    let mut one = RoaringBitmap::new();
    one.extend_consecutive(65530..65540);
    assert_eq!(one.len(), 10);
    assert_eq!(one.container_stats().len(), 2);
    assert!(one.contains(65535) && one.contains(65536));

    let mut many = RoaringBitmap::new();
    many.extend_consecutive(65530..=200000);
    assert_eq!(many.len(), 200000 - 65530 + 1);
    assert_eq!(many.container_stats().len(), 4);
    assert_eq!(many.container_type(1), Some("Run"));
    assert!(many.contains(131072) && many.contains(200000) && !many.contains(200001));
}

#[test]
fn full_container_is_one_run() {
    let mut bitmap = RoaringBitmap::new();
    bitmap.extend_consecutive(0..=65535);
    assert_eq!(bitmap.len(), 65536);
    assert_eq!(bitmap.container_stats(), vec![(0, "Run", 65536)]);
    assert!(bitmap.contains(0) && bitmap.contains(65535));
    assert!(!bitmap.contains(65536));
}

#[test]
fn full_container_survives_conversion_to_runs() {
    let mut low = RoaringBitmap::new();
    low.extend_consecutive(0..=40000);
    let mut high = RoaringBitmap::new();
    high.extend_consecutive(30000..=65535);
    let mut all = low.union(&high);
    assert_eq!(all.len(), 65536);
    assert!(all.contains(65535));
    all.optimize();
    assert_eq!(all.len(), 65536);
    assert!(all.contains(0) && all.contains(65535));
    assert_eq!(all.container_type(0), Some("Run"));
}

#[test]
fn array_turns_bitmap_at_threshold_and_back() {
    let mut bitmap = RoaringBitmap::new();
    for v in (0..8190).step_by(2) {
        bitmap.insert(v);
    }
    assert_eq!(bitmap.len(), 4095);
    assert_eq!(bitmap.container_type(0), Some("Array"));
    bitmap.insert(8190);
    assert_eq!(bitmap.container_type(0), Some("Bitmap"));
    bitmap.remove(0);
    assert_eq!(bitmap.container_type(0), Some("Array"));
    assert_eq!(bitmap.len(), 4095);
    assert!(bitmap.contains(8190) && bitmap.contains(2) && !bitmap.contains(0));
}

#[test]
fn consecutive_values_turn_runs_at_threshold() {
    let mut bitmap = RoaringBitmap::new();
    for v in 0..4096 {
        bitmap.insert(v);
    }
    assert_eq!(bitmap.container_type(0), Some("Run"));
    assert_eq!(bitmap.len(), 4096);
}

#[test]
fn run_merge_across_gap() {
    let mut bitmap = RoaringBitmap::new();
    for v in [0u32, 1, 2, 4, 5, 10, 11, 12, 13, 14] {
        bitmap.insert(v);
    }
    bitmap.optimize();
    assert_eq!(bitmap.container_type(0), Some("Run"));
    assert!(bitmap.insert(3));
    assert_eq!(values(&bitmap), vec![0, 1, 2, 3, 4, 5, 10, 11, 12, 13, 14]);
    assert_eq!(bitmap.len(), 11);
}

#[test]
fn run_removal_drops_shrinks_and_splits() {
    let mut bitmap = RoaringBitmap::new();
    bitmap.extend_consecutive(10..=20);
    bitmap.extend_consecutive(30..=30);
    assert!(bitmap.remove(30));
    assert!(bitmap.remove(10));
    assert!(bitmap.remove(20));
    assert!(bitmap.remove(15));
    assert!(!bitmap.remove(15));
    assert_eq!(values(&bitmap), vec![11, 12, 13, 14, 16, 17, 18, 19]);
    assert_eq!(bitmap.container_type(0), Some("Run"));
}

#[test]
fn iteration_over_mixed_containers() {
    let mut bitmap = RoaringBitmap::new();
    for v in [3u32, 9, 27] {
        bitmap.insert(v);
    }
    for v in (0..16000).step_by(2) {
        bitmap.insert(65536 + 128 + v);
    }
    bitmap.extend_consecutive(131072 + 5..131072 + 10);
    assert_eq!(bitmap.container_type(0), Some("Array"));
    assert_eq!(bitmap.container_type(1), Some("Bitmap"));
    assert_eq!(bitmap.container_type(2), Some("Run"));
    let got = values(&bitmap);
    assert_eq!(got.len(), 3 + 8000 + 5);
    assert_eq!(&got[..4], &[3, 9, 27, 65536 + 128]);
    assert_eq!(&got[got.len() - 5..], &[131077, 131078, 131079, 131080, 131081]);
    for pair in got.windows(2) {
        assert!(pair[0] < pair[1]);
    }
}

#[test]
fn empty_ranges_change_nothing() {
    let mut bitmap = bitmap_from(&[0, 7]);
    bitmap.extend_consecutive(0..0);
    bitmap.extend_consecutive(5..5);
    bitmap.extend_consecutive(9..3);
    bitmap.extend_between(RangeLimit::Excluded(u32::MAX), RangeLimit::Unbounded);
    bitmap.remove_range(0..0);
    bitmap.remove_range(8..2);
    bitmap.remove_between(RangeLimit::Unbounded, RangeLimit::Excluded(0));
    assert_eq!(values(&bitmap), vec![0, 7]);
}

#[test]
fn range_limits_of_every_kind() {
    let mut bitmap = RoaringBitmap::new();
    bitmap.extend_between(RangeLimit::Excluded(4), RangeLimit::Excluded(8));
    assert_eq!(values(&bitmap), vec![5, 6, 7]);
    bitmap.extend_between(RangeLimit::Included(10), RangeLimit::Included(11));
    bitmap.extend_between(RangeLimit::Unbounded, RangeLimit::Included(1));
    assert_eq!(values(&bitmap), vec![0, 1, 5, 6, 7, 10, 11]);
    bitmap.remove_between(RangeLimit::Excluded(5), RangeLimit::Unbounded);
    assert_eq!(values(&bitmap), vec![0, 1, 5]);
    bitmap.extend_consecutive(u32::MAX - 1..);
    assert_eq!(values(&bitmap), vec![0, 1, 5, u32::MAX - 1, u32::MAX]);
}

#[test]
fn bulk_lists_insert_and_remove_each_value() {
    let mut bitmap = RoaringBitmap::new();
    bitmap.insert_each(&vec![9, 1, 9, 70000]);
    assert_eq!(values(&bitmap), vec![1, 9, 70000]);
    bitmap.extend_dense([2u32, 3].into_iter());
    bitmap.remove_each(&vec![9, 10]);
    assert_eq!(values(&bitmap), vec![1, 2, 3, 70000]);
    bitmap.remove_sparse(vec![70000u32].into_iter());
    assert_eq!(values(&bitmap), vec![1, 2, 3]);
}

#[test]
fn bitmap_words_are_counted_bit_by_bit() {
    let mut a = RoaringBitmap::new();
    let mut b = RoaringBitmap::new();
    for v in (0..10000).step_by(2) {
        a.insert(v);
    }
    for v in (0..10000).step_by(3) {
        b.insert(v);
    }
    assert_eq!(a.container_type(0), Some("Bitmap"));
    assert_eq!(b.container_type(0), Some("Array"));
    let mut c = RoaringBitmap::new();
    for v in (1..10000).step_by(2) {
        c.insert(v);
    }
    assert_eq!(a.union(&c).len(), 10000);
    assert_eq!(a.intersection(&c).len(), 0);
    assert_eq!(a.symmetric_difference(&c).len(), 10000);
    assert_eq!(a.difference(&c).len(), 5000);
    assert_eq!(a.intersection(&b).len(), 1667);
}

#[test]
fn clear_and_default_are_empty() {
    let mut bitmap = bitmap_from(&[1, 2, 3]);
    bitmap.clear();
    assert!(bitmap.is_empty());
    assert_eq!(bitmap.len(), 0);
    assert!(RoaringBitmap::default().is_empty());
    let copy = bitmap_from(&[4, 5]).clone();
    assert_eq!(values(&copy), vec![4, 5]);
}
