use sketchy::indexes;
use sketchy::BloomFilter;
use sketchy::CountMinSketch;
use sketchy::ReservoirSample;
use sketchy::TopK;

#[test]
fn insert_and_query() {
    let mut bf = BloomFilter::new(100, 100_000);
    bf.insert(100);
    bf.insert(400);

    assert_eq!(bf.contains(&100), true);
}

#[test]
fn merge() {
    let mut bf1 = BloomFilter::new(100, 100_000);
    bf1.insert(100);

    let mut bf2 = BloomFilter::new(100, 100_000);
    bf2.insert(400);

    if !bf1.merge(&bf2) {
        panic!("merge made no changes");
    }

    assert_eq!(bf1.contains(&400), true);
}

#[test]
fn insert_and_estimate() {
    let mut cms = CountMinSketch::new(100, 100);
    for i in 0..100 {
        cms.insert(i)
    }

    assert_eq!(cms.estimate(&20), 1);
}

#[test]
fn insert_and_estimate_mean() {
    let mut cms = CountMinSketch::new(10, 100);
    cms.insert("one hundred");
    cms.insert("two hundred");
    cms.insert("three hundred");
    cms.insert("four hundred");
    cms.insert("five hundred");

    assert_eq!(cms.estimate(&"one hundred"), 1);
    assert_eq!(cms.estimate_mean("one hundred", 5), 1);
}

#[test]
fn countmin_merge() {
    let mut one = CountMinSketch::new(10, 1000);
    one.insert("one hundred");

    let mut two = CountMinSketch::new(10, 1000);
    two.insert("two hundred");

    one.merge(&two);

    assert_eq!(one.estimate(&"two hundred"), 1);
}

#[test]
fn double_hashing() {
    let mut gen = indexes(&"whee", 100);
    let mut v: Vec<usize> = Vec::new();
    for _ in 0..10 {
        v.push(gen.next());
    }

    assert_eq!(v, vec![3, 67, 15, 79, 43, 7, 71, 19, 83, 47]);
}

#[test]
fn insert() {
    let mut sample = ReservoirSample::new(10);

    for i in 0..100i32 {
        sample.insert(i);
    }

    let elements = sample.elements();

    assert_eq!(elements.len(), 10);

    for &i in elements.iter() {
        assert!(i >= 0 && i < 100);
    }
}

#[test]
fn topk_insert_and_query() {
    let cms = CountMinSketch::new(5, 27183);
    let mut topk = TopK::new(5, 1, 20, cms);

    for i in 1..10000 {
        topk.insert(i % 1000);
        topk.insert(-100);
    }

    assert_eq!(topk.elements(), vec![-100]);
}
