use rand_core::{RngCore, SeedableRng};
use rateless_iblt::digest::hash;
use rateless_iblt::index::{next_index, IndexGenerator};
use rateless_iblt::rng::Xoroshiro128Plus;
use rateless_iblt::wide::Wide;

fn float_gap(i: u64, r: u64) -> u64 {
    let u = (1u64 << 32) as f64;
    libm::ceil((i as f64 + 1.5) * (u / libm::sqrt(r as f64) - 1.0)) as u64
}

#[test]
fn xoroshiro_reference_values() {
    let mut rng = Xoroshiro128Plus::from_seed([1, 0, 0, 0, 0, 0, 0, 0, 2, 0, 0, 0, 0, 0, 0, 0]);
    let expected: [u64; 10] = [
        3,
        412333834243,
        2360170716294286339,
        9295852285959843169,
        2797080929874688578,
        6019711933173041966,
        3076529664176959358,
        3521761819100106140,
        7493067640054542992,
        920801338098114767,
    ];
    for e in expected {
        assert_eq!(rng.next_u64(), e);
    }
}

#[test]
fn xoroshiro_agrees_with_rand_xoshiro() {
    for n in 0u64..200 {
        let seed = hash(&n.to_le_bytes());
        let mut ours = Xoroshiro128Plus::from_seed(seed);
        let mut theirs = rand_xoshiro::Xoroshiro128Plus::from_seed(seed);
        for _ in 0..50 {
            assert_eq!(ours.next_u64(), theirs.next_u64());
        }
    }
}

#[test]
fn xoroshiro_zero_seed_agrees_with_rand_xoshiro() {
    let mut ours = Xoroshiro128Plus::from_seed([0; 16]);
    let mut theirs = rand_xoshiro::Xoroshiro128Plus::from_seed([0; 16]);
    for _ in 0..50 {
        assert_eq!(ours.next_u64(), theirs.next_u64());
    }
}

#[test]
fn hash_is_leading_half_of_blake3() {
    let data = b"rateless";
    let full = blake3::hash(data);
    assert_eq!(hash(data), full.as_bytes()[..16]);
    assert_ne!(hash(b"a"), hash(b"b"));
}

#[test]
fn gap_exact_values() {
    // r = 2^62: 2^32 / sqrt(r) = 2, so the gap is ceil(i + 1.5).
    assert_eq!(next_index(0, 1 << 62), 2);
    assert_eq!(next_index(1, 1 << 62), 1 + 3);
    assert_eq!(next_index(10, 1 << 62), 10 + 12);
    // r = 2^60: 2^32 / sqrt(r) = 4, so the gap is ceil(3 * (i + 1.5)).
    assert_eq!(next_index(0, 1 << 60), 5);
    assert_eq!(next_index(1, 1 << 60), 1 + 8);
    // r = 2^64 - 1: the factor is just above zero, the gap is 1.
    assert_eq!(next_index(0, u64::MAX), 1);
    assert_eq!(next_index(7, u64::MAX), 8);
}

#[test]
fn gap_treats_zero_draw_as_one() {
    assert_eq!(next_index(0, 0), next_index(0, 1));
    assert_eq!(next_index(5, 0), next_index(5, 1));
    // r = 1: the gap is ceil((i + 1.5) * (2^32 - 1)).
    assert_eq!(next_index(0, 1), 6442450943);
    assert_eq!(next_index(1, 1), 1 + 10737418238);
}

#[test]
fn gap_saturates_at_the_end_of_the_range() {
    assert_eq!(next_index(u64::MAX, 12345), u64::MAX);
    assert_eq!(next_index(u64::MAX - 1, u64::MAX), u64::MAX);
    assert_eq!(next_index(u64::MAX - 2, u64::MAX), u64::MAX - 1);
    assert_eq!(next_index(1 << 40, 1), u64::MAX);
}

#[test]
fn gap_agrees_with_double_precision_formula() {
    let mut rng = rand_xoshiro::Xoroshiro128Plus::seed_from_u64(7);
    for i in 0u64..2000 {
        let r = rng.next_u64();
        assert_eq!(next_index(i, r), i + float_gap(i, r), "i = {}, r = {}", i, r);
    }
}

#[test]
fn generator_is_strictly_increasing_from_zero() {
    for n in 0u64..100 {
        let mut gen = IndexGenerator::new(hash(&n.to_le_bytes()));
        assert_eq!(gen.current(), 0);
        let mut last = 0;
        for _ in 0..40 {
            gen.next();
            assert!(gen.current() > last || gen.current() == u64::MAX);
            last = gen.current();
        }
    }
}

#[test]
fn generator_follows_the_double_precision_schedule() {
    for n in 0u64..100 {
        let seed = hash(&n.to_le_bytes());
        let mut gen = IndexGenerator::new(seed);
        let mut rng = rand_xoshiro::Xoroshiro128Plus::from_seed(seed);
        let mut index = 0u64;
        for _ in 0..12 {
            assert_eq!(gen.current(), index);
            index += float_gap(index, rng.next_u64());
            gen.next();
        }
    }
}

#[test]
fn test_distribution() {
    let mut map = std::collections::BTreeMap::<u64, u64>::new();
    const N: u64 = 100000;
    const L: u64 = 1000;

    for i in 0..N {
        let mut gen = IndexGenerator::new(hash(&i.to_ne_bytes()));
        while gen.current() < L {
            *map.entry(gen.current()).or_default() += 1;
            gen.next();
        }
    }

    let mut ecdf = 0;
    let mut cdf = 0.0;
    let mut max = 0.0;
    for (j, c) in map {
        ecdf += c;
        cdf += (1.0 + 0.5 * (j as f64)).recip() * (N as f64);
        max = f64::max(max, (cdf - ecdf as f64).abs());
    }

    let p = max / (N as f64);
    assert!(p < 0.06, "{p}");
}

#[test]
fn wide_products() {
    let p = Wide::product(u128::MAX, u128::MAX);
    assert_eq!((p.hi, p.lo), (u128::MAX - 1, 1));
    let p = Wide::product(1 << 64, 1 << 64);
    assert_eq!((p.hi, p.lo), (1, 0));
    let p = Wide::product(0xffff_ffff_ffff_ffff, 0xffff_ffff_ffff_ffff);
    assert_eq!((p.hi, p.lo), (0, 0xffff_ffff_ffff_fffe_0000_0000_0000_0001));
    let p = Wide::product(12345, 0);
    assert_eq!((p.hi, p.lo), (0, 0));
    let p = Wide::product((1 << 100) + 7, (1 << 90) + 3);
    assert_eq!((p.hi, p.lo), (1 << 62, 3 * (1u128 << 100) + 7 * (1u128 << 90) + 21));
}

#[test]
fn wide_times_and_order() {
    let w = Wide { hi: 5, lo: u128::MAX };
    let p = w.times(3);
    assert_eq!((p.hi, p.lo), (17, u128::MAX - 2));
    let z = w.times(0);
    assert_eq!((z.hi, z.lo), (0, 0));
    assert!(p.ge(&w));
    assert!(!w.ge(&p));
    assert!(w.ge(&w));
    assert!(Wide { hi: 1, lo: 0 }.ge(&Wide { hi: 0, lo: u128::MAX }));
    assert!(!Wide { hi: 0, lo: u128::MAX }.ge(&Wide { hi: 1, lo: 0 }));
}
