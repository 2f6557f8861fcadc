use std::sync::atomic::{AtomicI32, Ordering};
use std::sync::Arc;
use ze_engine::jobs::{
    ring_slot, Enumerate, EnumerateProducer, IndexedParallelIterator, IntoParallelIterator, Iter,
    IterProducer, ParallelSlice, Producer, Splitter, Zip, ZipProducer,
};

/// Calls `f` on each item, splitting the work as the splitter decides; the parts run
/// one after the other here.
fn for_each_in_parts<P: Producer, F: Fn(P::Item)>(len: usize, mut splitter: Splitter, producer: P, f: &F) {
    if splitter.try_split() {
        let mid = len / 2;
        let (left, right) = producer.split_at(mid);
        for_each_in_parts(mid, splitter, left, f);
        for_each_in_parts(len - mid, splitter, right, f);
    } else {
        for item in producer.into_items() {
            f(item);
        }
    }
}

#[test]
fn for_each() {
    let v = vec![1, 2, 3, 4, 5, 6, 7, 8, 9, 10];
    let sum = Arc::new(AtomicI32::new(0));
    let iter = v.par_iter();
    let len = iter.len();
    for_each_in_parts(len, Splitter::default(), iter.producer(), &|x: &i32| {
        sum.fetch_add(*x, Ordering::SeqCst);
    });
    assert_eq!(sum.load(Ordering::SeqCst), v.iter().sum());
}

#[test]
fn into_par_iter_of_a_vec_and_a_slice() {
    let v = vec![4, 5, 6];
    let from_vec = (&v).into_par_iter();
    assert_eq!(from_vec.len(), 3);
    assert_eq!(from_vec.producer().into_items(), vec![&4, &5, &6]);
    let from_slice = v[1..].into_par_iter();
    assert_eq!(from_slice.producer().into_items(), vec![&5, &6]);
    let array = [7, 8];
    assert_eq!(array[..].par_iter().producer().into_items(), vec![&7, &8]);
}

#[test]
fn splitter_halves_down_to_its_minimum() {
    let mut splitter = Splitter::default();
    let mut splits = 0;
    while splitter.try_split() {
        splits += 1;
        assert!(splits < 64);
    }
    assert!(!splitter.try_split());
}

#[test]
fn iter_producer_splits_a_slice() {
    let v = [1, 2, 3, 4, 5];
    let producer = IterProducer::new(&v);
    assert_eq!(producer.len(), 5);
    let (left, right) = producer.split_at(2);
    assert_eq!(left.into_items(), vec![&1, &2]);
    assert_eq!(right.into_items(), vec![&3, &4, &5]);
}

#[test]
fn enumerate_keeps_positions_across_splits() {
    let v = ['a', 'b', 'c', 'd'];
    let producer = Enumerate::new(Iter::new(&v)).producer();
    let (left, right) = producer.split_at(1);
    let (middle, last) = right.split_at(2);
    assert_eq!(left.into_items(), vec![(0, &'a')]);
    assert_eq!(middle.into_items(), vec![(1, &'b'), (2, &'c')]);
    assert_eq!(last.into_items(), vec![(3, &'d')]);
}

#[test]
fn split_parts_cover_every_item() {
    let v = vec![1, 2, 3, 4, 5, 6, 7, 8, 9, 10];
    let mut sum = 0;
    let producer = Iter::new(&v).producer();
    let (left, right) = producer.split_at(v.len() / 2);
    for part in [left, right] {
        for x in part.into_items() {
            sum += *x;
        }
    }
    assert_eq!(sum, v.iter().sum::<i32>());
}

#[test]
fn zip_pairs_up_to_the_shorter_side() {
    let a = [1, 2, 3, 4, 5, 6, 7, 8, 9, 10];
    let b = [11, 12, 13];
    let zip = Zip::new(Iter::new(&a), Iter::new(&b));
    assert_eq!(zip.len(), 3);
    let producer = zip.producer();
    let (left, right) = producer.split_at(1);
    assert_eq!(left.into_items(), vec![(&1, &11)]);
    assert_eq!(right.into_items(), vec![(&2, &12), (&3, &13)]);

    let pairs = ZipProducer::new(IterProducer::new(&a), EnumerateProducer::new(IterProducer::new(&b)));
    assert_eq!(pairs.into_items(), vec![(&1, (0, &11)), (&2, (1, &12)), (&3, (2, &13))]);
}

#[test]
fn ring_slots_wrap_around() {
    assert_eq!(ring_slot(0, 2048), 0);
    assert_eq!(ring_slot(2047, 2048), 2047);
    assert_eq!(ring_slot(2048, 2048), 0);
    assert_eq!(ring_slot(5000, 2048), 5000 % 2048);
    assert_eq!(ring_slot(7, 1), 0);
}
