use data_aggregator::aggregate::{aggregate_records, same_key, update_data_map, ClauseMap};
use data_aggregator::clause::ClauseData;
use data_aggregator::stats::ClauseStats;

fn record(literals: &[i32], lbd: i32) -> ClauseData {
    ClauseData { literals: literals.to_vec(), lbd }
}

fn feed(values: &[i32]) -> ClauseStats {
    let mut stats = ClauseStats::new(values[0]);
    for v in &values[1..] {
        stats.update(*v);
    }
    stats
}

#[test]
fn three_five_seven() {
    let stats = feed(&[3, 5, 7]);
    assert_eq!(stats.final_count(), 3);
    let mean = stats.final_mean();
    assert_eq!(mean.num, 15);
    assert_eq!(mean.den, 3);
    assert_eq!(mean.num as f64 / mean.den as f64, 5.0);
    let variance = stats.final_variance();
    assert_eq!(variance.num, 24);
    assert_eq!(variance.den, 6);
    assert_eq!(variance.num as f64 / variance.den as f64, 4.0);
    assert!(stats.is_informative());
}

#[test]
fn single_value_has_no_variance() {
    let stats = ClauseStats::new(42);
    assert_eq!(stats.final_count(), 1);
    assert_eq!(stats.final_mean().num, 42);
    assert_eq!(stats.final_mean().den, 1);
    assert_eq!(stats.final_variance().num, 0);
    assert_eq!(stats.final_variance().den, 1);
    assert!(!stats.is_informative());
}

#[test]
fn equal_values_have_no_variance() {
    let stats = feed(&[6, 6, 6, 6]);
    assert_eq!(stats.final_count(), 4);
    assert_eq!(stats.final_variance().num, 0);
    assert_eq!(stats.final_variance().den, 12);
    assert!(!stats.is_informative());
}

#[test]
fn variance_of_two_values() {
    let stats = feed(&[1, 4]);
    let variance = stats.final_variance();
    assert_eq!(variance.num, 9);
    assert_eq!(variance.den, 2);
    assert_eq!(variance.num as f64 / variance.den as f64, 4.5);
    assert_eq!(stats.final_mean().num, 5);
    assert_eq!(stats.final_mean().den, 2);
}

#[test]
fn negative_and_extreme_values() {
    let stats = feed(&[i32::MIN, i32::MAX, i32::MIN, i32::MAX]);
    assert_eq!(stats.final_count(), 4);
    assert_eq!(stats.final_mean().num, -2);
    let variance = stats.final_variance();
    let expected = (i32::MAX as f64 - i32::MIN as f64).powi(2) / 3.0;
    let got = variance.num as f64 / variance.den as f64;
    assert!((got - expected).abs() / expected < 1e-12);
}

#[test]
fn statistics_do_not_depend_on_the_order() {
    let a = feed(&[3, -8, 12, 5, 5, 0]);
    let b = feed(&[5, 0, 5, 12, -8, 3]);
    assert_eq!(a.final_count(), b.final_count());
    assert_eq!(a.final_mean().num, b.final_mean().num);
    assert_eq!(a.final_mean().den, b.final_mean().den);
    assert_eq!(a.final_variance().num, b.final_variance().num);
    assert_eq!(a.final_variance().den, b.final_variance().den);
}

#[test]
fn exact_statistics_match_the_online_update_in_floating_point() {
    let values = [2, 4, 4, 4, 5, 5, 7, 9];
    let stats = feed(&values);
    let mut count = 0.0f64;
    let mut mean = 0.0f64;
    let mut m2 = 0.0f64;
    for v in values {
        count += 1.0;
        let delta = v as f64 - mean;
        mean += delta / count;
        let delta2 = v as f64 - mean;
        m2 += delta * delta2;
    }
    let got_mean = stats.final_mean().num as f64 / stats.final_mean().den as f64;
    let got_variance = stats.final_variance().num as f64 / stats.final_variance().den as f64;
    assert!((got_mean - mean).abs() < 1e-12);
    assert!((got_variance - m2 / (count - 1.0)).abs() < 1e-12);
    assert_eq!(got_mean, 5.0);
    assert_eq!(got_variance, 32.0 / 7.0);
}

#[test]
fn room_for_more_values() {
    let stats = ClauseStats::new(1);
    assert!(stats.has_room());
}

#[test]
fn same_key_compares_literals_in_order() {
    assert!(same_key(&vec![], &vec![]));
    assert!(same_key(&vec![1, -2, 3], &vec![1, -2, 3]));
    assert!(!same_key(&vec![1, -2, 3], &vec![1, 2, 3]));
    assert!(!same_key(&vec![1, 2], &vec![1, 2, 3]));
    assert!(!same_key(&vec![1, 2, 3], &vec![1, 2]));
}

#[test]
fn map_keeps_one_summary_per_key() {
    let mut map = ClauseMap::new();
    assert_eq!(map.len(), 0);
    update_data_map(&mut map, &record(&[1, 2], 3));
    update_data_map(&mut map, &record(&[-1, 2], 10));
    update_data_map(&mut map, &record(&[1, 2], 5));
    update_data_map(&mut map, &record(&[1, 2], 7));
    assert_eq!(map.len(), 2);
    let first = map.get(&vec![1, 2]).unwrap();
    assert_eq!(first.final_count(), 3);
    assert_eq!(first.final_mean().num, 15);
    assert_eq!(first.final_variance().num, 24);
    let second = map.get(&vec![-1, 2]).unwrap();
    assert_eq!(second.final_count(), 1);
    assert_eq!(second.final_mean().num, 10);
    assert!(map.get(&vec![2, 1]).is_none());
    assert!(map.has_room_for(&vec![1, 2]));
    assert!(map.has_room_for(&vec![8]));
}

#[test]
fn map_does_not_depend_on_the_order_of_arrival() {
    let records = vec![
        record(&[1, 2], 3),
        record(&[4], 1),
        record(&[1, 2], 5),
        record(&[], 9),
        record(&[4], 2),
        record(&[1, 2], 7),
        record(&[], 9),
    ];
    let orders: Vec<Vec<usize>> = vec![
        vec![0, 1, 2, 3, 4, 5, 6],
        vec![6, 5, 4, 3, 2, 1, 0],
        vec![1, 4, 0, 2, 5, 3, 6],
        vec![3, 0, 6, 1, 5, 4, 2],
    ];
    let mut results = Vec::new();
    for order in &orders {
        let mut map = ClauseMap::new();
        for i in order {
            update_data_map(&mut map, &records[*i]);
        }
        results.push(map);
    }
    let keys: Vec<Vec<i32>> = vec![vec![1, 2], vec![4], vec![]];
    for map in &results {
        assert_eq!(map.len(), 3);
        for key in &keys {
            let got = map.get(key).unwrap();
            let want = results[0].get(key).unwrap();
            assert_eq!(got.final_count(), want.final_count());
            assert_eq!(got.final_mean().num, want.final_mean().num);
            assert_eq!(got.final_variance().num, want.final_variance().num);
            assert_eq!(got.final_variance().den, want.final_variance().den);
        }
    }
    let twelve = results[2].get(&vec![1, 2]).unwrap();
    assert_eq!(twelve.final_count(), 3);
    assert_eq!(twelve.final_variance().num, 24);
}

#[test]
fn report_leaves_out_uninformative_keys() {
    let mut map = ClauseMap::new();
    update_data_map(&mut map, &record(&[1, 2, 3], 3));
    update_data_map(&mut map, &record(&[9], 4));
    update_data_map(&mut map, &record(&[5, 6], 8));
    update_data_map(&mut map, &record(&[1, 2, 3], 5));
    update_data_map(&mut map, &record(&[5, 6], 8));
    update_data_map(&mut map, &record(&[1, 2, 3], 7));
    update_data_map(&mut map, &record(&[-7, 8], 1));
    update_data_map(&mut map, &record(&[-7, 8], 2));
    let rows = map.report();
    assert_eq!(rows.len(), 2);
    assert_eq!(rows[0].count, 3);
    assert_eq!(rows[0].mean.num, 15);
    assert_eq!(rows[0].mean.den, 3);
    assert_eq!(rows[0].variance.num, 24);
    assert_eq!(rows[0].variance.den, 6);
    assert_eq!(rows[0].clause_len, 3);
    assert_eq!(rows[1].count, 2);
    assert_eq!(rows[1].mean.num, 3);
    assert_eq!(rows[1].mean.den, 2);
    assert_eq!(rows[1].variance.num, 1);
    assert_eq!(rows[1].variance.den, 2);
    assert_eq!(rows[1].clause_len, 2);
}

#[test]
fn empty_map_reports_nothing() {
    let map = ClauseMap::new();
    assert!(map.report().is_empty());
}

#[test]
fn keys_that_hash_alike_are_kept_apart() {
    let keys: Vec<Vec<i32>> = vec![
        vec![],
        vec![i32::MIN],
        vec![i32::MIN, i32::MIN],
        vec![5],
        vec![i32::MIN, 5],
        vec![i32::MIN, i32::MIN, 5],
    ];
    let mut map = ClauseMap::new();
    for (n, key) in keys.iter().enumerate() {
        for round in 0..=n {
            update_data_map(&mut map, &record(key, 10 * n as i32 + round as i32));
        }
    }
    assert_eq!(map.len(), keys.len());
    for (n, key) in keys.iter().enumerate() {
        let stats = map.get(key).unwrap();
        assert_eq!(stats.final_count() as usize, n + 1);
        let sum: i128 = (0..=n as i128).map(|round| 10 * n as i128 + round).sum();
        assert_eq!(stats.final_mean().num, sum);
    }
    assert!(map.get(&vec![5, i32::MIN]).is_none());
    assert!(map.get(&vec![0]).is_none());
}

#[test]
fn many_keys_are_found_again() {
    let mut map = ClauseMap::new();
    for round in 0..3 {
        for n in 0..2000i32 {
            let key = vec![n - 1000, 2 * n + 1, -n];
            update_data_map(&mut map, &record(&key, n + round));
        }
    }
    assert_eq!(map.len(), 2000);
    for n in 0..2000i32 {
        let stats = map.get(&vec![n - 1000, 2 * n + 1, -n]).unwrap();
        assert_eq!(stats.final_count(), 3);
        assert_eq!(stats.final_mean().num, 3 * n as i128 + 3);
        assert_eq!(stats.final_variance().num, 6);
        assert_eq!(stats.final_variance().den, 6);
    }
    let rows = map.report();
    assert_eq!(rows.len(), 2000);
    assert_eq!(rows[0].mean.num, 3);
    assert_eq!(rows[1999].mean.num, 3 * 1999 + 3);
}

#[test]
fn batch_is_the_fold_of_its_records() {
    let records = vec![
        record(&[1, 2], 3),
        record(&[4], 1),
        record(&[1, 2], 5),
        record(&[], 9),
        record(&[1, 2], 7),
    ];
    let map = aggregate_records(&records).unwrap();
    assert_eq!(map.len(), 3);
    let stats = map.get(&vec![1, 2]).unwrap();
    assert_eq!(stats.final_count(), 3);
    assert_eq!(stats.final_mean().num, 15);
    assert_eq!(stats.final_variance().num, 24);
    assert_eq!(map.get(&vec![4]).unwrap().final_count(), 1);
    assert_eq!(map.get(&vec![]).unwrap().final_mean().num, 9);
    let rows = map.report();
    assert_eq!(rows.len(), 1);
    assert_eq!(rows[0].clause_len, 2);
    assert_eq!(aggregate_records(&[]).unwrap().len(), 0);
}

#[test]
fn batches_of_the_same_records_agree_in_any_order() {
    let records = vec![
        record(&[1, 2], 3),
        record(&[4], 1),
        record(&[1, 2], 5),
        record(&[4], -6),
        record(&[1, 2], 7),
        record(&[-3], 0),
    ];
    let reference = aggregate_records(&records).unwrap();
    let keys: Vec<Vec<i32>> = vec![vec![1, 2], vec![4], vec![-3]];
    let mut state: u64 = 12345;
    for _ in 0..50 {
        let mut shuffled = records.clone();
        for i in (1..shuffled.len()).rev() {
            state = state.wrapping_mul(6364136223846793005).wrapping_add(1442695040888963407);
            let j = (state >> 33) as usize % (i + 1);
            shuffled.swap(i, j);
        }
        let map = aggregate_records(&shuffled).unwrap();
        assert_eq!(map.len(), reference.len());
        for key in &keys {
            let got = map.get(key).unwrap();
            let want = reference.get(key).unwrap();
            assert_eq!(got.final_count(), want.final_count());
            assert_eq!(got.final_mean().num, want.final_mean().num);
            assert_eq!(got.final_variance().num, want.final_variance().num);
            assert_eq!(got.final_variance().den, want.final_variance().den);
        }
    }
}
