use rand_core::{RngCore, SeedableRng};
use rateless_iblt::decoder::{set_difference, Decoder};
use rateless_iblt::diff::Delta;
use rateless_iblt::digest::hash;
use rateless_iblt::encoder::Encoder;
use rateless_iblt::index::IndexGenerator;
use rateless_iblt::symbol::Symbol;
use zerocopy::{FromBytes, IntoBytes};

fn item(x: i32) -> [u8; 4] {
    x.as_bytes().try_into().unwrap()
}

fn value(x: &[u8; 4]) -> i32 {
    i32::read_from_bytes(x).unwrap()
}

fn encoder(items: &[i32]) -> Encoder<4> {
    let mut e = Encoder::default();
    let items: Vec<[u8; 4]> = items.iter().map(|x| item(*x)).collect();
    e.extend(&items);
    e
}

fn take(e: Encoder<4>, n: usize) -> Vec<Symbol<4>> {
    let mut it = e.into_iter();
    (0..n).map(|_| it.next().unwrap()).collect()
}

fn values(items: Vec<[u8; 4]>) -> Vec<i32> {
    items.iter().map(value).collect()
}

#[test]
fn works() {
    let remote = encoder(&[1, 2, 3, 4]);
    let local = encoder(&[1, 2, 3, 5]);

    let (remote, local) = set_difference(&take(remote, 4), &take(local, 4)).unwrap();
    assert_eq!(values(remote), vec![4]);
    assert_eq!(values(local), vec![5]);
}

#[test]
fn works_bigger() {
    let remote = encoder(&[1, 2, 3, 4, 7, 8, 10]);
    let local = encoder(&[1, 2, 3, 5, 6, 8, 9]);

    let (remote, local) = set_difference(&take(remote, 12), &take(local, 12)).unwrap();
    assert_eq!(values(remote), vec![7, 4, 10]);
    assert_eq!(values(local), vec![5, 9, 6])
}

#[test]
fn works_bigger_less_diff() {
    let remote = encoder(&[1, 2, 3, 4, 6, 7, 8, 9, 10]);
    let local = encoder(&[1, 2, 3, 4, 5, 6, 7, 8, 10]);

    let (remote, local) = set_difference(&take(remote, 4), &take(local, 4)).unwrap();
    assert_eq!(values(remote), vec![9]);
    assert_eq!(values(local), vec![5]);
}

#[test]
fn decoder_driven_by_hand() {
    let mut bob = encoder(&[1, 2, 3, 5]).into_iter();
    let mut alice = encoder(&[1, 2, 3, 4]).into_iter();
    let mut decoder = Decoder::<4>::default();
    let mut steps = 0;
    while !decoder.is_complete() {
        decoder.push(alice.next().unwrap(), bob.next().unwrap());
        steps += 1;
        assert!(steps <= 4);
    }
    let (alice_new, bob_new) = decoder.consume();
    assert_eq!(values(alice_new), vec![4]);
    assert_eq!(values(bob_new), vec![5]);
}

fn sorted(mut v: Vec<i32>) -> Vec<i32> {
    v.sort();
    v
}

fn wide(items: &[u64]) -> Encoder<8> {
    let mut e = Encoder::default();
    let items: Vec<[u8; 8]> = items.iter().map(|x| x.to_le_bytes()).collect();
    e.extend(&items);
    e
}

fn take_wide(e: Encoder<8>, n: usize) -> Vec<Symbol<8>> {
    let mut it = e.into_iter();
    (0..n).map(|_| it.next().unwrap()).collect()
}

fn sorted_wide(items: Vec<[u8; 8]>) -> Vec<u64> {
    let mut v: Vec<u64> = items.iter().map(|x| u64::from_le_bytes(*x)).collect();
    v.sort();
    v
}

#[test]
fn equal_sets_are_done_after_one_symbol() {
    let set: Vec<i32> = (0..1000).collect();
    let (remote, local) = set_difference(&take(encoder(&set), 1), &take(encoder(&set), 1)).unwrap();
    assert!(remote.is_empty());
    assert!(local.is_empty());
}

#[test]
fn empty_against_one_item() {
    let (remote, local) = set_difference(&take(encoder(&[]), 3), &take(encoder(&[42]), 3)).unwrap();
    assert!(remote.is_empty());
    assert_eq!(values(local), vec![42]);
    let (remote, local) = set_difference(&take(encoder(&[42]), 3), &take(encoder(&[]), 3)).unwrap();
    assert_eq!(values(remote), vec![42]);
    assert!(local.is_empty());
}

#[test]
fn streams_that_end_too_early_give_none() {
    let remote = take(encoder(&[1, 2, 3, 4, 7, 8, 10]), 11);
    let local = take(encoder(&[1, 2, 3, 5, 6, 8, 9]), 12);
    assert!(set_difference(&remote, &local).is_none());
    assert!(set_difference(&local, &remote).is_none());
    assert!(set_difference::<4>(&[], &[]).is_none());
    assert!(set_difference(&[], &local).is_none());
}

#[test]
fn symbols_after_completion_are_not_read() {
    let remote = take(encoder(&[1, 2, 3, 4]), 10);
    let mut local = take(encoder(&[1, 2, 3, 5]), 10);
    let expected = set_difference(&remote, &local).unwrap();
    let steps = (1..=10).find(|k| set_difference(&remote[..*k], &local[..*k]).is_some()).unwrap();
    assert_eq!(steps, 4);
    local[4].count = 77;
    local[4].sum = [9; 4];
    assert_eq!(set_difference(&remote, &local).unwrap(), expected);
    assert_eq!(set_difference(&remote[..4], &local[..4]).unwrap(), expected);
}

#[test]
fn fresh_decoder_is_not_complete() {
    let decoder = Decoder::<4>::default();
    assert!(!decoder.is_complete());
    let (remote, local) = decoder.consume();
    assert!(remote.is_empty() && local.is_empty());
}

#[test]
fn decoder_driven_past_completion_stays_complete() {
    let mut alice = encoder(&[1, 2, 3, 4, 7, 8, 10]).into_iter();
    let mut bob = encoder(&[1, 2, 3, 5, 6, 8, 9]).into_iter();
    let mut decoder = Decoder::<4>::default();
    while !decoder.is_complete() {
        decoder.push(alice.must_next(), bob.must_next());
    }
    for _ in 0..50 {
        decoder.push(alice.must_next(), bob.must_next());
        assert!(decoder.is_complete());
    }
    let (remote, local) = decoder.consume();
    assert_eq!(values(remote), vec![7, 4, 10]);
    assert_eq!(values(local), vec![5, 9, 6]);
}

#[test]
fn round_trip_on_random_sets() {
    let mut rng = rand_xoshiro::Xoshiro256StarStar::seed_from_u64(1);
    for round in 0..20u64 {
        let common: Vec<u64> = (0..500).map(|_| rng.next_u64() | 1 << 63).collect();
        let a_only: Vec<u64> = (0..round).map(|i| 1000 * round + i).collect();
        let b_only: Vec<u64> = (0..2 * round).map(|i| 1000 * round + 500 + i).collect();
        let a: Vec<u64> = a_only.iter().chain(&common).copied().collect();
        let b: Vec<u64> = common.iter().chain(&b_only).copied().collect();
        let n = 20 + 5 * 3 * round as usize;
        let (remote, local) = set_difference(&take_wide(wide(&a), n), &take_wide(wide(&b), n)).unwrap();
        assert_eq!(sorted_wide(remote), a_only);
        assert_eq!(sorted_wide(local), b_only);
    }
}

#[test]
fn result_ignores_insertion_order() {
    let a = [1, 2, 3, 4, 7, 8, 10];
    let b = [1, 2, 3, 5, 6, 8, 9];
    let a2 = [10, 8, 7, 4, 3, 2, 1];
    let b2 = [5, 1, 9, 2, 8, 3, 6];
    let one = set_difference(&take(encoder(&a), 12), &take(encoder(&b), 12)).unwrap();
    let two = set_difference(&take(encoder(&a2), 12), &take(encoder(&b2), 12)).unwrap();
    assert_eq!(one, two);
}

#[test]
fn large_common_part_small_difference() {
    const M: u64 = 8;
    let mut rng = rand_xoshiro::Xoshiro256StarStar::seed_from_u64(0);
    let mut a = vec![];
    let mut b = vec![];
    for _ in 0..100_000 {
        let i = rng.next_u64();
        if i < M * 2 {
            continue;
        }
        a.push(i);
        b.push(i);
    }
    a.extend(0..M);
    b.extend(M..2 * M);
    let n = 5 * M as usize;
    let (remote, local) = set_difference(&take_wide(wide(&a), n), &take_wide(wide(&b), n)).unwrap();
    assert_eq!(remote.len(), M as usize);
    assert_eq!(local.len(), M as usize);
    assert_eq!(sorted_wide(remote), (0..M).collect::<Vec<u64>>());
    assert_eq!(sorted_wide(local), (M..2 * M).collect::<Vec<u64>>());
}

#[test]
fn symbols_needed_grow_with_the_difference() {
    let mut rng = rand_xoshiro::Xoshiro256StarStar::seed_from_u64(3);
    let mut total = 0;
    let d = 100usize;
    for _ in 0..10 {
        let a: Vec<u64> = (0..d).map(|_| rng.next_u64()).collect();
        let mut alice = wide(&a).into_iter();
        let mut bob = wide(&[]).into_iter();
        let mut decoder = Decoder::<8>::default();
        let mut steps = 0;
        while !decoder.is_complete() {
            decoder.push(alice.must_next(), bob.must_next());
            steps += 1;
            assert!(steps <= 4 * d);
        }
        total += steps;
        let (remote, local) = decoder.consume();
        assert_eq!(sorted_wide(remote), { let mut s = a.clone(); s.sort(); s });
        assert!(local.is_empty());
    }
    assert!(total <= 2 * d * 10, "{}", total);
}

#[test]
fn tagged_difference() {
    let remote = take(encoder(&[1, 2, 3, 4, 7, 8, 10]), 12);
    let local = take(encoder(&[1, 2, 3, 5, 6, 8, 9]), 12);
    let deltas = rateless_iblt::diff::set_difference(&remote, &local).unwrap();
    assert_eq!(
        deltas,
        vec![
            Delta::InRemote(item(7)),
            Delta::InRemote(item(4)),
            Delta::InRemote(item(10)),
            Delta::InLocal(item(5)),
            Delta::InLocal(item(9)),
            Delta::InLocal(item(6)),
        ]
    );
    assert!(rateless_iblt::diff::set_difference(&remote[..5], &local).is_none());
}

#[test]
fn differences_as_multisets() {
    let (r, l) = set_difference(&take(encoder(&[1, 2, 3, 4]), 4), &take(encoder(&[1, 2, 3, 5]), 4)).unwrap();
    assert_eq!((sorted(values(r)), sorted(values(l))), (vec![4], vec![5]));
    let (r, l) = set_difference(
        &take(encoder(&[1, 2, 3, 4, 7, 8, 10]), 12),
        &take(encoder(&[1, 2, 3, 5, 6, 8, 9]), 12),
    )
    .unwrap();
    assert_eq!((sorted(values(r)), sorted(values(l))), (vec![4, 7, 10], vec![5, 6, 9]));
}

#[test]
fn peeling_ends_on_a_stream_that_no_encoder_gives() {
    // an item whose schedule contains the cells 0, 1 and 2
    let x = (0u64..)
        .find(|x| {
            let mut gen = IndexGenerator::new(hash(&x.to_le_bytes()));
            gen.next();
            let one = gen.current() == 1;
            gen.next();
            one && gen.current() == 2
        })
        .unwrap();
    let mut s = Symbol::<8>::default();
    s.add_entry(&x.to_le_bytes(), &hash(&x.to_le_bytes()));
    let zero = Symbol::<8>::default();
    // the item stands in cell 1 alone: peeling it makes cell 0 pure with the
    // opposite sign, and peeling that makes cell 1 pure again; the second
    // call takes two indices off the list and drops the third
    let mut decoder = Decoder::<8>::default();
    decoder.push(zero, zero);
    assert!(decoder.is_complete());
    decoder.push(s, zero);
    assert!(decoder.is_complete());
    decoder.push(zero, zero);
    decoder.push(zero, zero);
    assert!(decoder.is_complete());
    assert_eq!(decoder.len(), 4);
    let (remote, local) = decoder.consume();
    assert_eq!(remote, vec![x.to_le_bytes()]);
    assert_eq!(local, vec![x.to_le_bytes()]);
}

#[test]
fn a_cell_that_its_own_schedule_misses_is_peeled_once() {
    // an item whose schedule does not contain cell 1
    let x = (0u64..)
        .find(|x| {
            let mut gen = IndexGenerator::new(hash(&x.to_le_bytes()));
            gen.next();
            gen.current() > 1
        })
        .unwrap();
    let mut s = Symbol::<8>::default();
    s.add_entry(&x.to_le_bytes(), &hash(&x.to_le_bytes()));
    let zero = Symbol::<8>::default();
    let mut decoder = Decoder::<8>::default();
    decoder.push(zero, zero);
    // cell 1 arrives pure; peeling it makes cell 0 pure with the opposite
    // sign and leaves cell 1 as it is, which is not listed again
    decoder.push(s, zero);
    assert!(decoder.is_complete());
    // the cells of the pairs that follow are not pure: nothing changes
    for _ in 0..20 {
        decoder.push(zero, zero);
        assert!(decoder.is_complete());
    }
    let (remote, local) = decoder.consume();
    assert_eq!(remote, vec![x.to_le_bytes()]);
    assert_eq!(local, vec![x.to_le_bytes()]);
}

#[test]
fn a_pair_whose_cell_is_not_pure_changes_nothing_else() {
    // two items against none: the cells stay mixed until one of the items
    // stands alone
    let mut alice = wide(&[11, 22]).into_iter();
    let mut bob = wide(&[]).into_iter();
    let mut decoder = Decoder::<8>::default();
    let mut mixed = 0;
    loop {
        let a = alice.must_next();
        let pure = a.is_pure_cell();
        decoder.push(a, bob.must_next());
        if pure {
            break;
        }
        mixed += 1;
        assert!(!decoder.is_complete());
    }
    assert!(mixed >= 1);
    assert!(decoder.is_complete());
    let (remote, local) = decoder.consume();
    assert_eq!(sorted_wide(remote), vec![11, 22]);
    assert!(local.is_empty());
}

#[test]
fn decoder_counts_its_pairs() {
    let mut alice = encoder(&[1, 2]).into_iter();
    let mut bob = encoder(&[3]).into_iter();
    let mut decoder = Decoder::<4>::default();
    assert_eq!(decoder.len(), 0);
    for k in 1..=7 {
        decoder.push(alice.must_next(), bob.must_next());
        assert_eq!(decoder.len(), k);
    }
}

#[test]
fn repeated_items_are_not_reconciled() {
    // an item held twice by one party cancels in sum and checksum, not in count
    let mut alice = encoder(&[1, 2, 3, 3]).into_iter();
    let mut bob = encoder(&[1, 2]).into_iter();
    let mut decoder = Decoder::<4>::default();
    for _ in 0..60 {
        decoder.push(alice.must_next(), bob.must_next());
        assert!(!decoder.is_complete());
    }
    assert_eq!(decoder.len(), 60);
}
