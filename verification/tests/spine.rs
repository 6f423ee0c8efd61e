use spine::batch::{Description, FuelingMerge, HollowBatch, SpineBatch};
use spine::frontier::Frontier;
use spine::layer::{MergeState, MergeVariant};
use spine::levels::{capacity, fuel_units, level_for};
use spine::trace::Spine;
use timely::progress::frontier::AntichainRef;
use timely::progress::Antichain;

fn time(f: &Frontier) -> Vec<u64> {
    f.clone().into_antichain().elements().to_vec()
}

fn hollow(lower: u64, upper: u64, len: usize) -> HollowBatch {
    HollowBatch {
        desc: Description::new(
            Frontier::from_elem(lower),
            Frontier::from_elem(upper),
            Frontier::from_elem(0),
        ),
        len,
    }
}

fn batch(lower: u64, upper: u64, len: usize) -> SpineBatch {
    SpineBatch::Merged(hollow(lower, upper, len))
}

fn spans(spine: &Spine) -> Vec<(u64, u64, usize)> {
    spine
        .map_batches()
        .iter()
        .map(|b| (time(b.lower())[0], time(b.upper())[0], b.len()))
        .collect()
}

fn part_count(b: &SpineBatch) -> usize {
    match b {
        SpineBatch::Merged(_) => 1,
        SpineBatch::Fueled { parts, .. } => parts.len(),
    }
}

fn insert_checked(spine: &mut Spine, b: SpineBatch) {
    assert!(spine.accepts(&b));
    spine.insert(b);
}

fn check_invariants(spine: &Spine, inserted: usize, upper: u64) {
    let found = spans(spine);
    let mut at = 0;
    let mut total = 0;
    for (lo, hi, len) in &found {
        assert_eq!(*lo, at);
        at = *hi;
        total += *len;
    }
    assert_eq!(at, upper);
    assert_eq!(total, inserted);
    assert_eq!(spine.len(), inserted);
    assert_eq!(time(spine.upper()), vec![upper]);
    let layers = spine.describe();
    let mut below: u128 = 0;
    for (k, (kind, len)) in layers.iter().enumerate() {
        let cap: u128 = 1u128 << k;
        if *kind == 2 {
            assert!(below < cap);
        }
        assert!((*len as u128) <= (*kind as u128) * cap);
        below += (*kind as u128) * cap;
    }
}

#[test]
fn four_unit_batches_end_as_one_batch() {
    let mut spine = Spine::new();
    for t in 0..4u64 {
        insert_checked(&mut spine, batch(t, t + 1, 1));
    }
    assert_eq!(spine.describe(), vec![(2, 2), (1, 2)]);
    assert!(!spine.reduced());
    assert_eq!(spans(&spine), vec![(0, 2, 2), (2, 3, 1), (3, 4, 1)]);
    let mut calls = 0;
    while !spine.reduced() {
        let mut effort: isize = 1;
        spine.exert(&mut effort);
        assert_eq!(effort, 1);
        calls += 1;
        assert!(calls <= 5);
    }
    assert_eq!(calls, 5);
    assert!(spine.reduced());
    assert_eq!(spine.describe(), vec![(0, 0), (0, 0), (1, 4)]);
    let found = spine.map_batches();
    assert_eq!(found.len(), 1);
    assert_eq!(time(found[0].lower()), vec![0]);
    assert_eq!(time(found[0].upper()), vec![4]);
    assert_eq!(found[0].len(), 4);
    assert_eq!(part_count(found[0]), 4);
}

#[test]
fn unit_batches_layer_by_layer() {
    let mut spine = Spine::new();
    assert!(spine.reduced());
    assert_eq!(spine.describe(), vec![]);
    insert_checked(&mut spine, batch(0, 1, 1));
    assert_eq!(spine.describe(), vec![(1, 1)]);
    assert!(spine.reduced());
    insert_checked(&mut spine, batch(1, 2, 1));
    assert_eq!(spine.describe(), vec![(2, 2)]);
    assert!(!spine.reduced());
    assert_eq!(spans(&spine), vec![(0, 1, 1), (1, 2, 1)]);
    insert_checked(&mut spine, batch(2, 3, 1));
    assert_eq!(spine.describe(), vec![(1, 1), (1, 2)]);
    assert_eq!(spans(&spine), vec![(0, 2, 2), (2, 3, 1)]);
}

#[test]
fn empty_batches_fuse_in_place() {
    let mut spine = Spine::new();
    insert_checked(&mut spine, batch(0, 1, 0));
    assert_eq!(spine.describe(), vec![(1, 0)]);
    insert_checked(&mut spine, batch(1, 2, 0));
    assert_eq!(spine.describe(), vec![(1, 0)]);
    assert_eq!(spans(&spine), vec![(0, 2, 0)]);
    insert_checked(&mut spine, batch(2, 3, 0));
    assert_eq!(spine.describe(), vec![(1, 0)]);
    assert_eq!(spans(&spine), vec![(0, 3, 0)]);
    assert_eq!(part_count(spine.map_batches()[0]), 3);
    assert!(spine.reduced());
}

#[test]
fn empty_batch_replaces_a_batch_without_content() {
    let mut spine = Spine::new();
    insert_checked(&mut spine, batch(0, 1, 3));
    insert_checked(&mut spine, batch(1, 2, 1));
    let mut effort: isize = 1;
    spine.exert(&mut effort);
    let before = spine.describe();
    insert_checked(&mut spine, batch(2, 3, 0));
    check_invariants(&spine, 4, 3);
    assert_eq!(spine.describe().len() >= before.len(), true);
}

#[test]
fn batch_that_does_not_start_at_the_upper_frontier_is_not_accepted() {
    let mut spine = Spine::new();
    insert_checked(&mut spine, batch(0, 1, 1));
    let before = spine.describe();
    let gap = batch(2, 3, 1);
    assert!(!spine.accepts(&gap));
    let overlap = batch(0, 1, 1);
    assert!(!spine.accepts(&overlap));
    assert_eq!(spine.describe(), before);
    assert_eq!(time(spine.upper()), vec![1]);
    assert_eq!(spans(&spine), vec![(0, 1, 1)]);
}

#[test]
fn batch_over_no_time_is_not_accepted() {
    let mut spine = Spine::new();
    insert_checked(&mut spine, batch(0, 1, 1));
    let trivial = batch(1, 1, 0);
    assert!(!spine.accepts(&trivial));
    assert!(spine.accepts(&batch(1, 2, 0)));
}

#[test]
fn batch_too_long_for_the_machine_is_not_accepted() {
    let mut spine = Spine::new();
    insert_checked(&mut spine, batch(0, 1, 2));
    assert!(!spine.accepts(&batch(1, 2, usize::MAX - 1)));
    assert!(spine.accepts(&batch(1, 2, usize::MAX - 2)));
}

#[test]
fn mixed_operations_follow_the_layers() {
    let mut spine = Spine::new();
    let mut t = 0u64;
    let mut inserted = 0usize;
    let mut insert = |spine: &mut Spine, len: usize, t: &mut u64, inserted: &mut usize| {
        insert_checked(spine, batch(*t, *t + 1, len));
        *t += 1;
        *inserted += len;
    };
    insert(&mut spine, 5, &mut t, &mut inserted);
    assert_eq!(spine.describe(), vec![(0, 0), (0, 0), (0, 0), (1, 5)]);
    insert(&mut spine, 1, &mut t, &mut inserted);
    assert_eq!(spine.describe(), vec![(1, 1), (0, 0), (0, 0), (1, 5)]);
    insert(&mut spine, 0, &mut t, &mut inserted);
    assert_eq!(spine.describe(), vec![(2, 1), (0, 0), (0, 0), (1, 5)]);
    insert(&mut spine, 0, &mut t, &mut inserted);
    assert_eq!(spine.describe(), vec![(1, 0), (1, 1), (0, 0), (1, 5)]);
    assert_eq!(spans(&spine), vec![(0, 1, 5), (1, 3, 1), (3, 4, 0)]);
    let mut effort: isize = 4;
    spine.exert(&mut effort);
    assert_eq!(spine.describe(), vec![(0, 0), (0, 0), (2, 1), (1, 5)]);
    assert_eq!(spans(&spine), vec![(0, 1, 5), (1, 4, 1)]);
    insert(&mut spine, 3, &mut t, &mut inserted);
    assert_eq!(spine.describe(), vec![(0, 0), (0, 0), (1, 3), (1, 6)]);
    insert(&mut spine, 8, &mut t, &mut inserted);
    assert_eq!(spine.describe(), vec![(0, 0), (0, 0), (0, 0), (1, 8), (1, 9)]);
    let mut fuel: isize = 3;
    spine.apply_fuel(&mut fuel);
    assert_eq!(fuel, 3);
    assert_eq!(spine.describe(), vec![(0, 0), (0, 0), (0, 0), (1, 8), (1, 9)]);
    insert(&mut spine, 1, &mut t, &mut inserted);
    insert(&mut spine, 1, &mut t, &mut inserted);
    assert_eq!(spine.describe(), vec![(2, 2), (0, 0), (0, 0), (1, 8), (1, 9)]);
    let mut effort: isize = 1;
    spine.exert(&mut effort);
    assert_eq!(spine.describe(), vec![(2, 2), (0, 0), (0, 0), (1, 8), (1, 9)]);
    insert(&mut spine, 2, &mut t, &mut inserted);
    assert_eq!(spine.describe(), vec![(0, 0), (2, 4), (0, 0), (1, 8), (1, 9)]);
    assert_eq!(spans(&spine), vec![(0, 5, 9), (5, 6, 8), (6, 8, 2), (8, 9, 2)]);
    insert(&mut spine, 16, &mut t, &mut inserted);
    assert_eq!(
        spine.describe(),
        vec![(0, 0), (0, 0), (0, 0), (0, 0), (1, 16), (1, 21)]
    );
    insert(&mut spine, 1, &mut t, &mut inserted);
    let mut effort: isize = 100;
    spine.exert(&mut effort);
    assert_eq!(
        spine.describe(),
        vec![(0, 0), (0, 0), (0, 0), (0, 0), (0, 0), (0, 0), (0, 0), (2, 38)]
    );
    assert!(!spine.reduced());
    spine.exert(&mut effort);
    assert_eq!(
        spine.describe(),
        vec![(0, 0), (0, 0), (0, 0), (0, 0), (0, 0), (0, 0), (0, 0), (0, 0), (1, 38)]
    );
    assert!(spine.reduced());
    insert(&mut spine, 0, &mut t, &mut inserted);
    assert_eq!(
        spine.describe(),
        vec![(1, 0), (0, 0), (0, 0), (0, 0), (0, 0), (0, 0), (1, 38)]
    );
    assert_eq!(spans(&spine), vec![(0, 11, 38), (11, 12, 0)]);
    check_invariants(&spine, inserted, t);
}

#[test]
fn exert_on_a_fresh_spine_does_nothing() {
    let mut spine = Spine::new();
    let mut effort: isize = 5;
    spine.exert(&mut effort);
    assert_eq!(spine.describe(), vec![]);
    assert_eq!(time(spine.upper()), vec![0]);
    assert_eq!(time(spine.since()), vec![0]);
}

#[test]
fn negative_effort_counts_as_none() {
    let mut spine = Spine::new();
    insert_checked(&mut spine, batch(0, 1, 3));
    let mut none: isize = 0;
    spine.exert(&mut none);
    assert_eq!(spine.describe(), vec![(0, 0), (0, 0), (1, 3)]);
    insert_checked(&mut spine, batch(1, 2, 3));
    assert_eq!(spine.describe(), vec![(0, 0), (0, 0), (2, 6)]);
    let mut negative: isize = -4;
    spine.exert(&mut negative);
    assert_eq!(negative, -4);
    assert_eq!(spine.describe(), vec![(0, 0), (0, 0), (2, 6)]);
    assert!(!spine.reduced());
    let mut two: isize = 2;
    spine.exert(&mut two);
    spine.exert(&mut two);
    assert_eq!(spine.describe(), vec![(0, 0), (0, 0), (2, 6)]);
    spine.exert(&mut two);
    assert_eq!(spine.describe(), vec![(0, 0), (0, 0), (0, 0), (1, 6)]);
    assert!(spine.reduced());
}

#[test]
fn batches_stay_contiguous_and_lengths_are_conserved() {
    let mut spine = Spine::new();
    let lens = [3usize, 0, 7, 1, 1, 0, 0, 12, 2, 5, 1, 64, 1, 0, 9, 33, 1, 1, 1, 4];
    let mut inserted = 0;
    for (t, len) in lens.iter().enumerate() {
        insert_checked(&mut spine, batch(t as u64, t as u64 + 1, *len));
        inserted += *len;
        check_invariants(&spine, inserted, t as u64 + 1);
        if t % 3 == 0 {
            let mut effort: isize = (t as isize) % 5;
            spine.exert(&mut effort);
            check_invariants(&spine, inserted, t as u64 + 1);
        }
        if t % 4 == 1 {
            let mut fuel: isize = 2;
            spine.apply_fuel(&mut fuel);
            check_invariants(&spine, inserted, t as u64 + 1);
        }
    }
    let parts: usize = spine.map_batches().iter().map(|b| part_count(b)).sum();
    assert_eq!(parts, lens.len());
}

#[test]
fn exertion_reduces_the_spine_in_boundedly_many_calls() {
    let mut spine = Spine::new();
    let lens = [5usize, 1, 1, 9, 2, 2, 1, 30, 1, 1, 1];
    let mut inserted = 0;
    for (t, len) in lens.iter().enumerate() {
        insert_checked(&mut spine, batch(t as u64, t as u64 + 1, *len));
        inserted += *len;
    }
    let mut calls = 0;
    while !spine.reduced() {
        let mut effort: isize = 1;
        spine.exert(&mut effort);
        calls += 1;
        assert!(calls < 1000);
    }
    check_invariants(&spine, inserted, lens.len() as u64);
    assert_eq!(spine.map_batches().len(), 1);
    let found = spans(&spine);
    let mut again: isize = 1;
    spine.exert(&mut again);
    assert!(spine.reduced());
    assert_eq!(spans(&spine), found);
}

#[test]
fn fueled_batch_is_as_long_as_its_parts() {
    let fueled = SpineBatch::Fueled {
        desc: Description::new(
            Frontier::from_elem(2),
            Frontier::from_elem(9),
            Frontier::from_elem(1),
        ),
        parts: vec![hollow(2, 4, 10), hollow(4, 5, 0), hollow(5, 9, 32)],
    };
    assert_eq!(fueled.len(), 42);
    assert_eq!(time(fueled.lower()), vec![2]);
    assert_eq!(time(fueled.upper()), vec![9]);
    assert_eq!(time(fueled.desc().since()), vec![1]);
    let copy = fueled.clone();
    assert_eq!(copy.len(), 42);
    assert_eq!(part_count(&copy), 3);
    assert_eq!(batch(0, 1, 7).len(), 7);
}

#[test]
fn fueled_batch_can_be_inserted() {
    let mut spine = Spine::new();
    let fueled = SpineBatch::Fueled {
        desc: Description::new(
            Frontier::from_elem(0),
            Frontier::from_elem(2),
            Frontier::from_elem(0),
        ),
        parts: vec![hollow(0, 1, 2), hollow(1, 2, 1)],
    };
    insert_checked(&mut spine, fueled);
    assert_eq!(spine.describe(), vec![(0, 0), (0, 0), (1, 3)]);
    assert_eq!(spine.len(), 3);
}

#[test]
fn merge_takes_fuel_until_it_is_complete() {
    let b1 = batch(0, 3, 5);
    let b2 = batch(3, 4, 2);
    let mut merge: FuelingMerge = SpineBatch::begin_merge(&b1, &b2, None);
    assert_eq!(merge.progress(), 0);
    assert!(!merge.is_complete());
    let mut fuel: usize = 3;
    merge.work(&mut fuel);
    assert_eq!(fuel, 0);
    assert_eq!(merge.progress(), 3);
    assert!(!merge.is_complete());
    let mut fuel: usize = 10;
    merge.work(&mut fuel);
    assert_eq!(fuel, 6);
    assert_eq!(merge.progress(), 7);
    assert!(merge.is_complete());
    let mut fuel: usize = 10;
    merge.work(&mut fuel);
    assert_eq!(fuel, 10);
    assert_eq!(merge.progress(), 7);
    let done = merge.done();
    assert_eq!(done.len(), 7);
    assert_eq!(time(done.lower()), vec![0]);
    assert_eq!(time(done.upper()), vec![4]);
    assert_eq!(part_count(&done), 2);
}

#[test]
fn merge_result_does_not_depend_on_progress() {
    let b1 = batch(0, 3, 5);
    let b2 = batch(3, 4, 2);
    let fresh = SpineBatch::begin_merge(&b1, &b2, None).done();
    let mut worked = SpineBatch::begin_merge(&b1, &b2, None);
    let mut fuel: usize = 100;
    worked.work(&mut fuel);
    worked.work(&mut fuel);
    let complete = worked.done();
    assert_eq!(fresh.len(), complete.len());
    assert_eq!(time(fresh.lower()), time(complete.lower()));
    assert_eq!(time(fresh.upper()), time(complete.upper()));
    assert_eq!(time(fresh.desc().since()), time(complete.desc().since()));
    assert_eq!(part_count(&fresh), part_count(&complete));
}

#[test]
fn merge_of_grouped_batches_keeps_the_parts_flat() {
    let b1 = SpineBatch::begin_merge(&batch(0, 1, 1), &batch(1, 2, 1), None).done();
    let b2 = SpineBatch::begin_merge(&batch(2, 3, 1), &batch(3, 4, 1), None).done();
    let all = SpineBatch::begin_merge(&b1, &b2, None).done();
    match &all {
        SpineBatch::Fueled { parts, .. } => {
            let bounds: Vec<(u64, u64)> = parts
                .iter()
                .map(|p| (time(p.desc.lower())[0], time(p.desc.upper())[0]))
                .collect();
            assert_eq!(bounds, vec![(0, 1), (1, 2), (2, 3), (3, 4)]);
        }
        SpineBatch::Merged(_) => panic!("a merge hands out a group"),
    }
}

#[test]
fn since_of_a_merge_is_the_join() {
    let mk = |lo: u64, hi: u64, since: u64| {
        SpineBatch::Merged(HollowBatch {
            desc: Description::new(
                Frontier::from_elem(lo),
                Frontier::from_elem(hi),
                Frontier::from_elem(since),
            ),
            len: 1,
        })
    };
    let b1 = mk(0, 5, 3);
    let b2 = mk(5, 9, 7);
    let plain = SpineBatch::begin_merge(&b1, &b2, None).done();
    assert_eq!(time(plain.desc().since()), vec![7]);
    let swapped = SpineBatch::begin_merge(&b2, &b1, None).done();
    assert_eq!(time(swapped.desc().since()), vec![7]);
    let frontier = Frontier::from_elem(8);
    let advanced = SpineBatch::begin_merge(&b1, &b2, Some(&frontier)).done();
    assert_eq!(time(advanced.desc().since()), vec![8]);
    let behind = Frontier::from_elem(2);
    let kept = SpineBatch::begin_merge(&b1, &b2, Some(&behind)).done();
    assert_eq!(time(kept.desc().since()), vec![7]);
    let closed = Frontier::new();
    let none = SpineBatch::begin_merge(&b1, &b2, Some(&closed)).done();
    assert_eq!(time(none.desc().since()), Vec::<u64>::new());
}

#[test]
fn frontier_operations() {
    let three = Frontier::from_elem(3);
    let five = Frontier::from_elem(5);
    let empty = Frontier::new();
    assert_eq!(time(&three), vec![3]);
    assert_eq!(time(&empty), Vec::<u64>::new());
    assert!(empty.is_empty());
    assert!(!three.is_empty());
    assert!(three.eq(&Frontier::from_elem(3)));
    assert!(!three.eq(&five));
    assert!(!three.eq(&empty));
    assert!(empty.eq(&Frontier::new()));
    assert_eq!(time(&three.join(&five)), vec![5]);
    assert_eq!(time(&five.join(&three)), vec![5]);
    assert_eq!(time(&three.join(&three)), vec![3]);
    assert_eq!(time(&three.join(&empty)), Vec::<u64>::new());
    assert_eq!(time(&empty.join(&five)), Vec::<u64>::new());
    let copy = five.clone();
    assert!(copy.eq(&five));
    assert_eq!(time(&copy), vec![5]);
}

#[test]
fn frontier_from_an_antichain() {
    let one = Frontier::from_antichain(Antichain::from_elem(4u64));
    assert!(one.is_some());
    assert_eq!(time(&one.unwrap()), vec![4]);
    let none = Frontier::from_antichain(Antichain::<u64>::new());
    assert!(none.unwrap().is_empty());
    let two = AntichainRef::new(&[1u64, 2u64]).to_owned();
    assert!(Frontier::from_antichain(two).is_none());
    let least = Antichain::from(vec![7u64, 3, 9]);
    assert_eq!(time(&Frontier::from_antichain(least).unwrap()), vec![3]);
}

#[test]
fn levels_of_lengths() {
    assert_eq!(level_for(0), 0);
    assert_eq!(level_for(1), 0);
    assert_eq!(level_for(2), 1);
    assert_eq!(level_for(3), 2);
    assert_eq!(level_for(4), 2);
    assert_eq!(level_for(5), 3);
    assert_eq!(level_for(8), 3);
    assert_eq!(level_for(9), 4);
    assert_eq!(level_for(1 << 20), 20);
    assert_eq!(level_for((1 << 20) + 1), 21);
    assert_eq!(level_for(usize::MAX), usize::BITS as usize);
}

#[test]
fn fuel_of_levels() {
    assert_eq!(capacity(0), 1);
    assert_eq!(capacity(10), 1024);
    assert_eq!(capacity(64), 1u128 << 64);
    assert_eq!(fuel_units(0, 1), 8);
    assert_eq!(fuel_units(3, 1), 64);
    assert_eq!(fuel_units(3, 5), 320);
    assert_eq!(fuel_units(10, 3), 24576);
    assert_eq!(fuel_units(7, 0), 0);
    assert_eq!(fuel_units(64, 1), usize::MAX);
    assert_eq!(fuel_units(200, 1), usize::MAX);
    assert_eq!(fuel_units(1, usize::MAX), usize::MAX);
}

fn describe_after(lens: &[usize]) -> Vec<(usize, usize)> {
    let mut spine = Spine::new();
    for (t, len) in lens.iter().enumerate() {
        insert_checked(&mut spine, batch(t as u64, t as u64 + 1, *len));
    }
    spine.describe()
}

#[test]
fn tidying_takes_out_layers_without_batches() {
    assert_eq!(describe_after(&[0, 2, 1]), vec![(1, 1), (1, 2)]);
}

#[test]
fn tidying_draws_the_top_batch_into_a_merge() {
    assert_eq!(describe_after(&[3, 1, 3]), vec![(0, 0), (0, 0), (2, 7)]);
    assert_eq!(describe_after(&[5, 2, 5]), vec![(0, 0), (0, 0), (0, 0), (2, 12)]);
}

#[test]
fn tidying_stops_at_a_merge() {
    assert_eq!(
        describe_after(&[3, 9, 1, 9]),
        vec![(0, 0), (0, 0), (0, 0), (0, 0), (2, 10), (1, 12)]
    );
}

#[test]
fn layers_never_hold_more_than_two_batches() {
    let mut spine = Spine::new();
    for t in 0..200u64 {
        insert_checked(&mut spine, batch(t, t + 1, (t % 7) as usize));
        for (kind, _) in spine.describe() {
            assert!(kind <= 2);
        }
        assert!(spine.describe().len() <= 12);
    }
    assert_eq!(time(spine.since()), vec![0]);
}

#[test]
fn long_run_of_mixed_operations() {
    let expected: [(usize, Vec<(usize, usize)>, Vec<(u64, u64, usize)>); 4] = [
        (
            49,
            vec![
                (0, 0),
                (0, 0),
                (0, 0),
                (0, 0),
                (0, 0),
                (2, 32),
                (1, 36),
                (0, 0),
                (0, 0),
                (1, 333),
            ],
            vec![(0, 22, 333), (22, 26, 36), (26, 29, 1), (29, 30, 31)],
        ),
        (
            149,
            vec![
                (0, 0),
                (0, 0),
                (0, 0),
                (0, 0),
                (0, 0),
                (0, 0),
                (2, 61),
                (0, 0),
                (0, 0),
                (2, 487),
                (1, 587),
            ],
            vec![(0, 45, 587), (45, 65, 203), (65, 83, 284), (83, 85, 26), (85, 89, 35)],
        ),
        (
            249,
            vec![
                (1, 0),
                (0, 0),
                (0, 0),
                (0, 0),
                (1, 11),
                (1, 23),
                (1, 33),
                (1, 71),
                (0, 0),
                (1, 228),
                (1, 565),
                (1, 1074),
            ],
            vec![
                (0, 83, 1074),
                (83, 122, 565),
                (122, 137, 228),
                (137, 142, 71),
                (142, 146, 33),
                (146, 149, 23),
                (149, 150, 11),
            ],
        ),
        (
            399,
            vec![
                (1, 0),
                (0, 0),
                (0, 0),
                (0, 0),
                (0, 0),
                (0, 0),
                (2, 86),
                (0, 0),
                (0, 0),
                (0, 0),
                (2, 953),
                (0, 0),
                (1, 2151),
            ],
            vec![
                (0, 158, 2151),
                (158, 201, 467),
                (201, 234, 486),
                (234, 237, 52),
                (237, 238, 34),
                (238, 240, 0),
            ],
        ),
    ];
    let mut spine = Spine::new();
    let mut x: u64 = 2024;
    let mut t: u64 = 0;
    let mut inserted: usize = 0;
    let mut next = 0;
    for step in 0..400usize {
        x = x
            .wrapping_mul(6364136223846793005)
            .wrapping_add(1442695040888963407);
        let op = (x >> 33) % 10;
        let arg = ((x >> 40) % 37) as usize;
        if op < 6 {
            let len = if arg % 5 == 0 { 0 } else { arg };
            insert_checked(&mut spine, batch(t, t + 1, len));
            t += 1;
            inserted += len;
        } else if op < 9 {
            let mut effort = (arg % 9) as isize;
            spine.exert(&mut effort);
        } else {
            let mut fuel = arg as isize;
            spine.apply_fuel(&mut fuel);
        }
        check_invariants(&spine, inserted, t);
        if next < expected.len() && expected[next].0 == step {
            assert_eq!(spine.describe(), expected[next].1);
            assert_eq!(spans(&spine), expected[next].2);
            next += 1;
        }
    }
    assert_eq!(next, expected.len());
}

#[test]
fn work_on_a_pair_takes_what_it_spends_from_the_fuel() {
    let b1 = batch(0, 1, 1);
    let b2 = batch(1, 2, 1);
    let merge = SpineBatch::begin_merge(&b1, &b2, None);
    let mut pair = MergeVariant::InProgress(b1, b2, merge);
    let mut fuel: usize = 2;
    pair.work(&mut fuel);
    assert_eq!(fuel, 0);
    match &pair {
        MergeVariant::Complete(Some((merged, Some((first, second))))) => {
            assert_eq!(time(merged.lower()), vec![0]);
            assert_eq!(time(merged.upper()), vec![2]);
            assert_eq!(merged.len(), 2);
            assert_eq!(time(first.upper()), vec![1]);
            assert_eq!(time(second.lower()), vec![1]);
        }
        _ => panic!("two units of fuel complete the merge"),
    }
    let mut more: usize = 5;
    pair.work(&mut more);
    assert_eq!(more, 5);
}

#[test]
fn work_on_a_pair_in_progress_spends_all_of_a_small_fuel() {
    let b1 = batch(0, 1, 4);
    let b2 = batch(1, 2, 3);
    let merge = SpineBatch::begin_merge(&b1, &b2, None);
    let mut pair = MergeVariant::InProgress(b1, b2, merge);
    let mut fuel: usize = 5;
    pair.work(&mut fuel);
    assert_eq!(fuel, 0);
    assert!(matches!(pair, MergeVariant::InProgress(..)));
    let mut fuel: usize = 5;
    pair.work(&mut fuel);
    assert_eq!(fuel, 3);
    assert!(matches!(pair, MergeVariant::Complete(Some(_))));
}

#[test]
fn work_on_a_layer_takes_fuel_only_for_a_merge_in_progress() {
    let mut vacant = MergeState::Vacant;
    let mut fuel: usize = 7;
    vacant.work(&mut fuel);
    assert_eq!(fuel, 7);
    assert!(vacant.is_vacant());
    let mut single = MergeState::Single(Some(batch(0, 1, 3)));
    single.work(&mut fuel);
    assert_eq!(fuel, 7);
    assert!(single.is_single());
    let mut double = MergeState::begin_merge(Some(batch(0, 1, 3)), Some(batch(1, 2, 2)), None);
    assert!(double.is_double());
    assert!(!double.is_complete());
    double.work(&mut fuel);
    assert_eq!(fuel, 2);
    assert!(double.is_complete());
    double.work(&mut fuel);
    assert_eq!(fuel, 2);
    let mut done = MergeState::begin_merge(Some(batch(0, 1, 3)), None, None);
    assert!(done.is_complete());
    done.work(&mut fuel);
    assert_eq!(fuel, 2);
}

#[test]
fn lengths_that_cannot_be_summed_do_not_fit() {
    let fits = SpineBatch::Fueled {
        desc: Description::new(
            Frontier::from_elem(0),
            Frontier::from_elem(2),
            Frontier::from_elem(0),
        ),
        parts: vec![hollow(0, 1, usize::MAX - 1), hollow(1, 2, 1)],
    };
    assert!(fits.len_fits());
    assert!(fits.is_valid());
    assert_eq!(fits.len(), usize::MAX);
    let overflows = SpineBatch::Fueled {
        desc: Description::new(
            Frontier::from_elem(0),
            Frontier::from_elem(3),
            Frontier::from_elem(0),
        ),
        parts: vec![hollow(0, 1, usize::MAX - 1), hollow(1, 2, 1), hollow(2, 3, 1)],
    };
    assert!(!overflows.len_fits());
    assert!(!overflows.is_valid());
    assert!(batch(0, 1, usize::MAX).len_fits());
    let spine = Spine::new();
    assert!(!spine.accepts(&overflows));
    assert!(spine.accepts(&fits));
}

#[test]
fn descriptions_are_valid_with_one_lower_time() {
    let closed = Description::new(Frontier::from_elem(3), Frontier::new(), Frontier::new());
    assert!(closed.is_valid());
    assert_eq!(Frontier::from_elem(3).len(), 1);
    assert_eq!(Frontier::new().len(), 0);
    assert!(batch(0, 1, 0).is_valid());
}

#[test]
fn refused_batch_comes_back_and_leaves_the_spine_alone() {
    let mut spine = Spine::new();
    assert!(spine.try_insert(batch(0, 1, 2)).is_ok());
    assert!(spine.try_insert(batch(1, 2, 1)).is_ok());
    let layers = spine.describe();
    let found = spans(&spine);
    let gap = spine.try_insert(batch(3, 4, 1));
    match gap {
        Err(back) => {
            assert_eq!(time(back.lower()), vec![3]);
            assert_eq!(time(back.upper()), vec![4]);
            assert_eq!(back.len(), 1);
        }
        Ok(()) => panic!("a batch after a gap is refused"),
    }
    assert!(spine.try_insert(batch(2, 2, 0)).is_err());
    assert!(spine.try_insert(batch(2, 3, usize::MAX)).is_err());
    assert_eq!(spine.describe(), layers);
    assert_eq!(spans(&spine), found);
    assert_eq!(time(spine.upper()), vec![2]);
    assert_eq!(time(spine.since()), vec![0]);
    assert_eq!(spine.len(), 3);
    assert!(spine.try_insert(batch(2, 3, 1)).is_ok());
    assert_eq!(time(spine.upper()), vec![3]);
    assert_eq!(spine.len(), 4);
}

#[test]
fn first_batch_starts_at_the_first_time() {
    let mut spine = Spine::new();
    assert_eq!(spine.map_batches().len(), 0);
    for t in 0..30u64 {
        insert_checked(&mut spine, batch(t, t + 1, (t % 4) as usize));
        let mut effort: isize = (t % 3) as isize;
        spine.exert(&mut effort);
        let found = spine.map_batches();
        assert!(!found.is_empty());
        assert_eq!(time(found[0].lower()), vec![0]);
        assert_eq!(time(found[found.len() - 1].upper()), vec![t + 1]);
    }
}
