use rateless_iblt::digest::hash;
use rateless_iblt::encoder::{Encoder, EncoderIter};
use rateless_iblt::index::IndexGenerator;
use rateless_iblt::stream::{SetStream, SetStreamIter};
use rateless_iblt::symbol::Symbol;

fn items(range: std::ops::Range<u64>) -> Vec<[u8; 8]> {
    range.map(|x| (x * 0x9e37_79b9 + 11).to_le_bytes()).collect()
}

fn same(a: &Symbol<8>, b: &Symbol<8>) -> bool {
    a.sum == b.sum && a.checksum == b.checksum && a.count == b.count
}

/// Cell `k` summed item by item, each with a schedule of its own.
fn baseline(items: &[[u8; 8]], cells: u64) -> Vec<Symbol<8>> {
    let mut out: Vec<Symbol<8>> = (0..cells).map(|_| Symbol::default()).collect();
    for item in items {
        let checksum = hash(item);
        let mut gen = IndexGenerator::new(checksum);
        while gen.current() < cells {
            out[gen.current() as usize].add_entry(item, &checksum);
            gen.next();
        }
    }
    out
}

fn stream(items: &[[u8; 8]], cells: usize) -> Vec<Symbol<8>> {
    let mut e = Encoder::default();
    e.extend(items);
    let mut it = e.into_iter();
    (0..cells).map(|_| it.must_next()).collect()
}

#[test]
fn first_cell_holds_every_item() {
    let set = items(0..37);
    let mut e = Encoder::default();
    e.extend(&set);
    let first = e.into_iter().must_next();
    let mut sum = [0u8; 8];
    let mut checksum = [0u8; 16];
    for item in &set {
        for (a, b) in sum.iter_mut().zip(item) {
            *a ^= *b;
        }
        for (a, b) in checksum.iter_mut().zip(hash(item)) {
            *a ^= b;
        }
    }
    assert_eq!(first.count, 37);
    assert_eq!(first.sum, sum);
    assert_eq!(first.checksum, checksum);
}

#[test]
fn empty_encoder_streams_zeros() {
    let mut it = Encoder::<8>::default().into_iter();
    for _ in 0..20 {
        let s = it.next().unwrap();
        assert!(same(&s, &Symbol::default()));
    }
    let mut it = EncoderIter::<8>::default();
    assert!(same(&it.must_next(), &Symbol::default()));
}

#[test]
fn stream_is_the_sum_of_the_schedules() {
    for n in [0u64, 1, 2, 3, 5, 16, 100, 300] {
        let set = items(0..n);
        let expected = baseline(&set, 200);
        let got = stream(&set, 200);
        for k in 0..200 {
            assert!(same(&got[k], &expected[k]), "n = {}, k = {}", n, k);
        }
    }
}

#[test]
fn stream_ignores_insertion_order() {
    let set = items(0..64);
    let mut reversed = set.clone();
    reversed.reverse();
    let mut shuffled = set.clone();
    shuffled.rotate_left(17);
    shuffled.swap(3, 40);
    let a = stream(&set, 100);
    let b = stream(&reversed, 100);
    let c = stream(&shuffled, 100);
    for k in 0..100 {
        assert!(same(&a[k], &b[k]));
        assert!(same(&a[k], &c[k]));
    }
}

#[test]
fn extend_appends() {
    let set = items(0..10);
    let mut one = Encoder::default();
    one.extend(&set);
    let mut two = Encoder::default();
    two.extend(&set[..4]);
    two.extend(&[]);
    two.extend(&set[4..]);
    let mut a = one.into_iter();
    let mut b = two.clone().into_iter();
    for _ in 0..50 {
        assert!(same(&a.must_next(), &b.must_next()));
    }
    assert_eq!(two.into_iter().into_entries(), set);
}

#[test]
fn difference_of_streams_is_stream_of_difference() {
    let common = items(100..180);
    let a_only = items(0..7);
    let b_only = items(50..55);
    let a: Vec<[u8; 8]> = common.iter().chain(&a_only).copied().collect();
    let b: Vec<[u8; 8]> = b_only.iter().chain(&common).copied().collect();
    let sa = stream(&a, 60);
    let sb = stream(&b, 60);
    let pa = stream(&a_only, 60);
    let pb = stream(&b_only, 60);
    for k in 0..60 {
        assert!(same(&sa[k].sub(sb[k]), &pa[k].sub(pb[k])), "k = {}", k);
    }
}

#[test]
fn threshold_is_twice_the_logarithm() {
    for (n, t) in [(0u64, 0u64), (1, 0), (2, 2), (3, 2), (4, 4), (7, 4), (8, 6), (1000, 18), (1024, 20)] {
        let mut e = Encoder::default();
        e.extend(&items(0..n));
        assert_eq!(e.into_iter().threshold(), t, "n = {}", n);
    }
}

#[test]
fn recovered_items_join_the_stream() {
    // an item pushed with a cursor that was advanced past the output index
    // gives what it would have given from the start
    let set = items(0..20);
    let late = 777u64.to_le_bytes();
    let mut all = set.clone();
    all.push(late);
    let expected = baseline(&all, 120);
    let without = baseline(&set, 120);

    let mut e = Encoder::default();
    e.extend(&set);
    let mut it = e.into_iter();
    for k in 0..30 {
        assert!(same(&it.must_next(), &without[k]));
    }
    let checksum = hash(&late);
    let mut gen = IndexGenerator::new(checksum);
    while gen.current() < 30 {
        gen.next();
    }
    it.push_unchecked(late, checksum, gen);
    for k in 30..120 {
        assert!(same(&it.must_next(), &expected[k]), "k = {}", k);
    }
    assert_eq!(it.into_entries(), all);
}

#[test]
fn priority_queue_stream_is_the_same_stream() {
    for n in [0u64, 1, 4, 33, 200] {
        let set = items(0..n);
        let expected = stream(&set, 150);
        let mut s = SetStream::default();
        s.extend(&set[..(n as usize) / 2]);
        s.extend(&set[(n as usize) / 2..]);
        let mut it = s.into_iter();
        for k in 0..150 {
            assert!(same(&it.next().unwrap(), &expected[k]), "n = {}, k = {}", n, k);
        }
        assert_eq!(it.into_entries(), set);
    }
}

#[test]
fn priority_queue_stream_takes_recovered_items() {
    let late = 5u64.to_le_bytes();
    let expected = baseline(&[late], 40);
    let mut it = SetStreamIter::<8>::default();
    for _ in 0..10 {
        assert!(same(&it.must_next(), &Symbol::default()));
    }
    let checksum = hash(&late);
    let mut gen = IndexGenerator::new(checksum);
    while gen.current() < 10 {
        gen.next();
    }
    it.push_unchecked(late, checksum, gen);
    for k in 10..40 {
        assert!(same(&it.must_next(), &expected[k]));
    }
}
