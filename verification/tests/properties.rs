use sketchy::indexes;
use sketchy::BloomFilter;
use sketchy::CountMinSketch;
use sketchy::ReservoirSample;
use sketchy::TopK;

#[test]
fn insert_then_bulk_insert_adds_up() {
    let mut cms = CountMinSketch::new(10, 10);
    cms.insert("A");
    cms.insert_n("A", 100);

    assert_eq!(cms.estimate(&"A"), 101);
}

#[test]
fn estimate_is_monotone_over_inserts() {
    let mut cms = CountMinSketch::new(4, 64);
    cms.insert("A");
    let first = cms.estimate(&"A");
    cms.insert("B");
    let second = cms.estimate(&"A");
    cms.insert_n("A", 100);
    let third = cms.estimate(&"A");

    assert!(first <= second);
    assert!(second <= third);
    assert_eq!(first, 1);
    assert_eq!(third, 101);
}

#[test]
fn no_false_negative_survives_later_inserts() {
    let mut bf = BloomFilter::new(50, 100_000);
    bf.insert(-1i32);
    for i in 0..50i32 {
        bf.insert(i);
    }
    assert_eq!(bf.contains(&-1i32), true);
}

#[test]
fn estimate_never_undercounts_with_collisions() {
    // One row, one column: every element shares the single counter, so the
    // estimate is the whole stream's weight -- above each true count.
    let mut cms = CountMinSketch::new(1, 1);
    cms.insert_n("a", 2);
    cms.insert_n("b", 3);

    assert_eq!(cms.estimate(&"a"), 5);
    assert_eq!(cms.estimate(&"b"), 5);
    assert!(cms.estimate(&"a") >= 2);
}

#[test]
fn merge_with_equal_filter_changes_nothing() {
    let mut bf1 = BloomFilter::new(100, 100_000);
    bf1.insert(7);

    let mut bf2 = BloomFilter::new(100, 100_000);
    bf2.insert(7);

    assert_eq!(bf1.merge(&bf2), false);
    assert_eq!(bf1.contains(&7), true);
}

#[test]
fn merged_sketch_counts_both_streams() {
    let mut one = CountMinSketch::new(1, 1);
    one.insert_n("x", 4);

    let mut two = CountMinSketch::new(1, 1);
    two.insert_n("y", 6);

    one.merge(&two);

    // With a single shared counter the merged sketch holds the exact sum.
    assert_eq!(one.estimate(&"x"), 10);
}

#[test]
fn index_generator_is_deterministic() {
    let mut a = indexes(&"whee", 100);
    let mut b = indexes(&"whee", 100);
    for _ in 0..32 {
        assert_eq!(a.next(), b.next());
    }
}

#[test]
fn index_generator_respects_bound() {
    let mut gen = indexes(&12345u64, 7);
    for _ in 0..1000 {
        assert!(gen.next() < 7);
    }
}

#[test]
fn estimate_mean_without_noise_is_exact() {
    let mut cms = CountMinSketch::new(3, 2);
    cms.insert_n("x", 6);

    // The stream holds only `x`, so no row carries collision noise.
    assert_eq!(cms.estimate_mean("x", 6), 6);
}

#[test]
fn heavy_hitter_is_reported_after_shrink() {
    let cms = CountMinSketch::new(5, 1000);
    let mut topk = TopK::new(3, 1, 10, cms);

    for i in 0..300i32 {
        topk.insert(-5);
        topk.insert(i % 30);
    }
    topk.shrink_to_fit();

    let top = topk.elements();
    assert!(top.contains(&-5));
    assert!(top.len() <= 3);
}

#[test]
fn elements_come_most_frequent_first() {
    let cms = CountMinSketch::new(5, 1000);
    let mut topk = TopK::new(5, 1, 100, cms);

    for _ in 0..600 {
        topk.insert(-5);
    }
    for _ in 0..300 {
        topk.insert(-7);
    }

    assert_eq!(topk.elements(), vec![-5, -7]);
}

#[test]
fn reservoir_keeps_everything_while_filling() {
    let mut sample = ReservoirSample::new(5);
    sample.insert("one");
    sample.insert("two");
    sample.insert("three");

    assert_eq!(sample.elements(), vec!["one", "two", "three"]);
}

#[test]
fn saturating_bloom_parameters_still_work() {
    // A ceiling above the table's best row and one below its worst both
    // saturate to the nearest boundary instead of failing.
    let mut loose = BloomFilter::new(10, 5_000_000);
    loose.insert(1);
    assert_eq!(loose.contains(&1), true);

    let mut tight = BloomFilter::new(10, 1);
    tight.insert(2);
    assert_eq!(tight.contains(&2), true);
}
