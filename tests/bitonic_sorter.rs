use limne::solvers::bitonic_network::Record;
use limne::solvers::bitonic_sorter::{
    check_count, compare_exchange, disperse_local, is_sorted, log2_exact, pack, reference_sort,
    run_stage, schedule, sort, sort_local, SortError, Stage, LOCAL_ARRAY_SIZE,
};
use rand::rngs::StdRng;
use rand::{Rng, SeedableRng};

fn random_records(count: usize, min: u32, max: u32, seed: u64) -> Vec<Record> {
    let mut rng = StdRng::seed_from_u64(seed);
    (0..count)
        .map(|i| Record {
            key: rng.random_range(min..=max),
            payload: i as u64,
        })
        .collect()
}

fn by_key_then_payload(v: &[Record]) -> Vec<(u32, u64)> {
    let mut out: Vec<(u32, u64)> = v.iter().map(|r| (r.key, r.payload)).collect();
    out.sort();
    out
}

fn keys(v: &[Record]) -> Vec<u32> {
    v.iter().map(|r| r.key).collect()
}

fn run_schedule(v: &mut Vec<Record>) {
    let stages = schedule(v.len() as u32).expect("valid length");
    for st in stages {
        run_stage(v, st);
    }
}

#[test]
fn gpu_bitonic_sort_1024() {
    let mut v = random_records(1024, 20, 500, 48);
    let before = by_key_then_payload(&v);
    assert_eq!(sort(&mut v), Ok(()));
    if let Err(fail) = is_sorted(&v) {
        panic!("Array is not sorted. First element out of order has index {fail}");
    }
    assert_eq!(by_key_then_payload(&v), before);
}

#[test]
fn gpu_bitonic_sort_local_x2() {
    let mut v = random_records(2048, 0, 2048, 48);
    sort_local(&mut v, 2);
    if let Err(fail) = is_sorted(&v[..1024]) {
        panic!("First half is not sorted. First element out of order has index {fail}");
    }
    if let Err(fail) = is_sorted(&v[1024..]) {
        panic!("Second half is not sorted. First element out of order has index {fail}");
    }
}

#[test]
fn gpu_bitonic_sort_16384() {
    let mut v = random_records(16384, 42, 8192, 48);
    let before = by_key_then_payload(&v);
    assert_eq!(sort(&mut v), Ok(()));
    if let Err(fail) = is_sorted(&v) {
        panic!("The array is not sorted. First element out of order has index {fail}");
    }
    assert_eq!(by_key_then_payload(&v), before);
}

#[test]
fn sort_orders_keys_at_many_sizes() {
    for (k, seed) in [(10u32, 1u64), (11, 2), (12, 3), (13, 4), (15, 5)] {
        let mut v = random_records(1 << k, 0, 1000, seed);
        assert_eq!(sort(&mut v), Ok(()));
        assert_eq!(is_sorted(&v), Ok(()));
    }
}

#[test]
fn sort_rejects_invalid_lengths() {
    for n in [0usize, 1, 2, 512, 1000, 1023, 1536, 3072] {
        let mut v = random_records(n, 0, 100, 7);
        let before = v.clone();
        assert_eq!(sort(&mut v), Err(SortError::InvalidLength));
        assert_eq!(v, before);
        assert_eq!(schedule(n as u32), Err(SortError::InvalidLength));
    }
}

#[test]
fn check_count_gives_exponent() {
    assert_eq!(check_count(1024), Ok(10));
    assert_eq!(check_count(1 << 31), Ok(31));
    assert_eq!(check_count(512), Err(SortError::InvalidLength));
    assert_eq!(check_count(3 << 10), Err(SortError::InvalidLength));
    assert_eq!(check_count(u32::MAX), Err(SortError::InvalidLength));
}

#[test]
fn log2_exact_on_powers_and_others() {
    assert_eq!(log2_exact(1), Some(0));
    assert_eq!(log2_exact(2), Some(1));
    assert_eq!(log2_exact(4096), Some(12));
    assert_eq!(log2_exact(0), None);
    assert_eq!(log2_exact(6), None);
    assert_eq!(log2_exact(u32::MAX), None);
}

#[test]
fn local_phase_alone_sorts_one_chunk() {
    let mut v = random_records(1024, 0, 1 << 20, 11);
    sort_local(&mut v, 1);
    assert_eq!(is_sorted(&v), Ok(()));
}

#[test]
fn two_chunks_need_the_global_round() {
    let mut v: Vec<Record> = (0..2048u32)
        .map(|i| Record {
            key: 4096 - i,
            payload: i as u64,
        })
        .collect();
    let mut local = v.clone();
    sort_local(&mut local, 2);
    assert_eq!(is_sorted(&local[..1024]), Ok(()));
    assert_eq!(is_sorted(&local[1024..]), Ok(()));
    assert_eq!(is_sorted(&local), Err(1024));
    assert_eq!(sort(&mut v), Ok(()));
    assert_eq!(is_sorted(&v), Ok(()));
}

#[test]
fn device_route_and_reference_agree() {
    for (k, seed) in [(10u32, 21u64), (11, 22), (12, 23), (14, 24)] {
        let input = random_records(1 << k, 0, 300, seed);
        let mut device = input.clone();
        let mut staged = input.clone();
        let mut reference = input.clone();
        assert_eq!(sort(&mut device), Ok(()));
        run_schedule(&mut staged);
        assert_eq!(reference_sort(&mut reference), Ok(()));
        assert_eq!(is_sorted(&device), Ok(()));
        assert_eq!(is_sorted(&reference), Ok(()));
        assert_eq!(staged, device);
        assert_eq!(keys(&device), keys(&reference));
    }
}

#[test]
fn reference_sort_takes_small_powers_of_two() {
    let mut v = random_records(8, 0, 9, 5);
    assert_eq!(reference_sort(&mut v), Ok(()));
    assert_eq!(is_sorted(&v), Ok(()));
    let mut w = random_records(6, 0, 9, 5);
    let before = w.clone();
    assert_eq!(reference_sort(&mut w), Err(SortError::InvalidLength));
    assert_eq!(w, before);
}

#[test]
fn sorting_sorted_input_changes_nothing() {
    let v: Vec<Record> = (0..4096u32)
        .map(|i| Record {
            key: i / 7,
            payload: (4096 - i) as u64,
        })
        .collect();
    let mut w = v.clone();
    assert_eq!(sort(&mut w), Ok(()));
    assert_eq!(w, v);
    let mut r = v.clone();
    assert_eq!(reference_sort(&mut r), Ok(()));
    assert_eq!(r, v);
}

#[test]
fn sort_keeps_every_record() {
    let mut v = random_records(8192, 0, 15, 99);
    let before = by_key_then_payload(&v);
    assert_eq!(sort(&mut v), Ok(()));
    assert_eq!(by_key_then_payload(&v), before);
}

#[test]
fn schedule_of_one_chunk() {
    assert_eq!(
        schedule(1024),
        Ok(vec![
            Stage::SortLocal { groups: 1 },
            Stage::FlipGlobal { k: 10, t: 0, groups: 8 },
            Stage::DisperseLocal { groups: 1 },
        ])
    );
}

#[test]
fn schedule_of_four_chunks() {
    assert_eq!(
        schedule(4096),
        Ok(vec![
            Stage::SortLocal { groups: 4 },
            Stage::FlipGlobal { k: 12, t: 2, groups: 32 },
            Stage::DisperseLocal { groups: 4 },
            Stage::FlipGlobal { k: 12, t: 1, groups: 32 },
            Stage::DisperseGlobal { k: 12, q: 11, groups: 32 },
            Stage::DisperseLocal { groups: 4 },
            Stage::FlipGlobal { k: 12, t: 0, groups: 32 },
            Stage::DisperseGlobal { k: 12, q: 12, groups: 32 },
            Stage::DisperseGlobal { k: 12, q: 11, groups: 32 },
            Stage::DisperseLocal { groups: 4 },
        ])
    );
}

#[test]
fn pack_is_little_endian() {
    assert_eq!(pack(1, 2), [1, 0, 0, 0, 2, 0, 0, 0]);
    assert_eq!(
        pack(0x0102_0304, 0xAABB_CCDD),
        [0x04, 0x03, 0x02, 0x01, 0xDD, 0xCC, 0xBB, 0xAA]
    );
}

#[test]
fn is_sorted_reports_first_descent() {
    let r = |key: u32| Record { key, payload: 0 };
    assert_eq!(is_sorted(&[]), Ok(()));
    assert_eq!(is_sorted(&[r(5)]), Ok(()));
    assert_eq!(is_sorted(&[r(1), r(1), r(2)]), Ok(()));
    assert_eq!(is_sorted(&[r(1), r(3), r(2), r(0)]), Err(2));
}

#[test]
fn compare_exchange_swaps_only_descents() {
    let mut v = vec![
        Record { key: 9, payload: 1 },
        Record { key: 4, payload: 2 },
        Record { key: 4, payload: 3 },
    ];
    compare_exchange(&mut v, 0, 1);
    assert_eq!(v[0], Record { key: 4, payload: 2 });
    assert_eq!(v[1], Record { key: 9, payload: 1 });
    compare_exchange(&mut v, 0, 2);
    assert_eq!(v[0], Record { key: 4, payload: 2 });
    assert_eq!(v[2], Record { key: 4, payload: 3 });
}

#[test]
fn disperse_local_sorts_bitonic_chunks() {
    let half = LOCAL_ARRAY_SIZE / 2;
    let mut v: Vec<Record> = (0..LOCAL_ARRAY_SIZE)
        .map(|i| Record {
            key: if i < half { i } else { LOCAL_ARRAY_SIZE - i },
            payload: i as u64,
        })
        .collect();
    disperse_local(&mut v, 1);
    assert_eq!(is_sorted(&v), Ok(()));
}
