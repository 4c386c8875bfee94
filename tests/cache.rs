use timeseries_plot::{DownsamplingMethod, Entry, PlotBounds, Sample, TimeseriesLineMemory, TimeseriesPlotMemory};

fn bounds(min_x: i128, max_x: i128) -> PlotBounds {
    PlotBounds { min_x, max_x, min_y: 0, max_y: 0 }
}

fn ramp(n: i64) -> Vec<Sample> {
    (0..n).map(|i| (i, Some(i))).collect()
}

fn wavy(n: i64) -> Vec<Sample> {
    (0..n).map(|i| (i, Some((i * 7919) % 1013 - 500))).collect()
}

fn all_levels(l: &TimeseriesLineMemory) -> Vec<Vec<Entry>> {
    (0..l.num_levels()).map(|k| l.level(k)).collect()
}

#[test]
fn downsample_min_max_distinct_positions() {
    let b: Vec<Entry> = vec![(0, 5), (1, 3), (2, 9), (3, 4), (4, 6), (5, -2), (6, 1), (7, 0)];
    assert_eq!(DownsamplingMethod::MinMax.downsample(&b), ((2, 9), (5, -2)));
}

#[test]
fn downsample_min_before_max() {
    let b: Vec<Entry> = vec![(0, 1), (1, -7), (2, 0), (3, 2), (4, 8), (5, 3), (6, 3), (7, 4)];
    assert_eq!(DownsamplingMethod::MinMax.downsample(&b), ((1, -7), (4, 8)));
}

#[test]
fn downsample_ties_take_first_occurrence() {
    let b: Vec<Entry> = vec![(0, 2), (1, 1), (2, 5), (3, 1), (4, 5), (5, 3)];
    assert_eq!(DownsamplingMethod::MinMax.downsample(&b), ((1, 1), (2, 5)));
}

#[test]
fn downsample_all_equal_gives_first_twice() {
    let b: Vec<Entry> = vec![(0, 7), (1, 7), (2, 7)];
    assert_eq!(DownsamplingMethod::MinMax.downsample(&b), ((0, 7), (0, 7)));
}

#[test]
fn downsample_single_entry() {
    let b: Vec<Entry> = vec![(4, -1)];
    assert_eq!(DownsamplingMethod::MinMax.downsample(&b), ((4, -1), (4, -1)));
}

#[test]
fn downsample_reserved_modes_give_zeros() {
    let b: Vec<Entry> = vec![(0, 5), (1, 3)];
    assert_eq!(DownsamplingMethod::Off.downsample(&b), ((0, 0), (0, 0)));
    assert_eq!(DownsamplingMethod::Mean.downsample(&b), ((0, 0), (0, 0)));
}

#[test]
fn gaps_are_dropped_and_origin_is_first_value() {
    let mut l = TimeseriesLineMemory::new(DownsamplingMethod::MinMax);
    l.update_cache(&vec![(10, None), (12, Some(3)), (15, Some(4)), (16, None)]);
    assert_eq!(l.level(0), vec![(0, 3), (3, 4)]);
    assert_eq!(l.end(), Some(3));
    assert_eq!(l.num_levels(), 1);
}

#[test]
fn extreme_positions_do_not_overflow() {
    let mut l = TimeseriesLineMemory::new(DownsamplingMethod::MinMax);
    l.update_cache(&vec![(i64::MIN, Some(1)), (i64::MAX, Some(2))]);
    assert_eq!(l.level(0), vec![(0, 1), (u64::MAX as i128, 2)]);
}

#[test]
fn append_only_growth_keeps_old_entries() {
    let full = wavy(9000);
    let s: Vec<Sample> = full[..6000].to_vec();
    let mut l = TimeseriesLineMemory::new(DownsamplingMethod::MinMax);
    l.update_cache(&s);
    let before = l.level(0);
    l.update_cache(&full);
    let after = l.level(0);
    assert_eq!(after.len(), 9000);
    assert_eq!(&after[..6000], &before[..]);
    let tail: Vec<Entry> = full[6000..].iter().map(|&(x, y)| (x as i128, y.unwrap())).collect();
    assert_eq!(&after[6000..], &tail[..]);
    let mut fresh = TimeseriesLineMemory::new(DownsamplingMethod::MinMax);
    fresh.update_cache(&full);
    assert_eq!(all_levels(&l), all_levels(&fresh));
}

#[test]
fn append_in_small_steps_matches_full_build() {
    let full = wavy(20011);
    let mut l = TimeseriesLineMemory::new(DownsamplingMethod::MinMax);
    let mut n = 1;
    while n < full.len() {
        l.update_cache(&full[..n].to_vec());
        n += 997;
    }
    l.update_cache(&full);
    let mut fresh = TimeseriesLineMemory::new(DownsamplingMethod::MinMax);
    fresh.update_cache(&full);
    assert_eq!(all_levels(&l), all_levels(&fresh));
}

#[test]
fn prepend_triggers_full_rebuild() {
    let s = wavy(5000);
    let mut changed = s.clone();
    changed[0] = (0, Some(100));
    let mut l = TimeseriesLineMemory::new(DownsamplingMethod::MinMax);
    l.update_cache(&s);
    let _ = l.plot(bounds(0, 4999));
    l.update_cache(&changed);
    let mut fresh = TimeseriesLineMemory::new(DownsamplingMethod::MinMax);
    fresh.update_cache(&changed);
    assert_eq!(all_levels(&l), all_levels(&fresh));
    for b in [bounds(0, 4999), bounds(100, 200), bounds(-50, 10)] {
        assert_eq!(l.plot(b), fresh.plot(b));
    }
    assert_eq!(l.level(0)[0], (0, 100));
}

#[test]
fn inserted_front_sample_rebuilds_with_new_origin() {
    let mut l = TimeseriesLineMemory::new(DownsamplingMethod::MinMax);
    l.update_cache(&vec![(5, Some(1)), (6, Some(2))]);
    l.update_cache(&vec![(3, Some(9)), (5, Some(1)), (6, Some(2))]);
    assert_eq!(l.level(0), vec![(0, 9), (2, 1), (3, 2)]);
}

#[test]
fn shorter_sequence_rebuilds() {
    let mut l = TimeseriesLineMemory::new(DownsamplingMethod::MinMax);
    l.update_cache(&ramp(10));
    l.update_cache(&ramp(4));
    assert_eq!(l.level(0), vec![(0, 0), (1, 1), (2, 2), (3, 3)]);
}

#[test]
fn same_length_edit_goes_unnoticed_until_cleared() {
    let s = ramp(50);
    let mut edited = s.clone();
    edited[10] = (10, Some(-99));
    let mut l = TimeseriesLineMemory::new(DownsamplingMethod::MinMax);
    l.update_cache(&s);
    l.update_cache(&edited);
    assert_eq!(l.level(0)[10], (10, 10));
    l.clear_caches();
    assert_eq!(l.num_levels(), 1);
    assert_eq!(l.level(0), Vec::<Entry>::new());
    l.update_cache(&edited);
    assert_eq!(l.level(0)[10], (10, -99));
}

#[test]
fn level_monotonicity() {
    let mut l = TimeseriesLineMemory::new(DownsamplingMethod::MinMax);
    l.update_cache(&wavy(100_000));
    let lens: Vec<usize> = all_levels(&l).iter().map(|v| v.len()).collect();
    assert_eq!(lens, vec![100_000, 25_000, 6_250, 1_564]);
    for k in 1..lens.len() {
        assert!(lens[k] <= lens[k - 1]);
        assert!(lens[k - 1] > 4000);
    }
}

#[test]
fn small_line_has_one_level() {
    let mut l = TimeseriesLineMemory::new(DownsamplingMethod::MinMax);
    l.update_cache(&ramp(4000));
    assert_eq!(l.num_levels(), 1);
    l.update_cache(&ramp(4001));
    assert_eq!(l.num_levels(), 2);
    assert_eq!(l.level(1).len(), 2 * 501);
}

#[test]
fn second_level_reduces_buckets_of_eight() {
    let mut data: Vec<Sample> = (0..4008).map(|i| (i, Some(0))).collect();
    data[3] = (3, Some(-5));
    data[6] = (6, Some(8));
    data[9] = (9, Some(4));
    let mut l = TimeseriesLineMemory::new(DownsamplingMethod::MinMax);
    l.update_cache(&data);
    let l1 = l.level(1);
    assert_eq!(l1.len(), 1002);
    assert_eq!(&l1[..4], &[(3, -5), (6, 8), (8, 0), (9, 4)]);
}

#[test]
fn wide_view_picks_coarse_level() {
    let mut l = TimeseriesLineMemory::new(DownsamplingMethod::MinMax);
    l.update_cache(&wavy(100_000));
    let r = l.plot(bounds(0, 99_999));
    assert_eq!(r.len(), 1_564);
    assert_eq!(r, l.level(3));
}

#[test]
fn narrow_view_picks_full_resolution() {
    let mut l = TimeseriesLineMemory::new(DownsamplingMethod::MinMax);
    l.update_cache(&ramp(100_000));
    let r = l.plot(bounds(50_000, 50_009));
    let mut expected: Vec<Entry> = vec![(0, 49_999)];
    expected.extend((49_999..=50_010).map(|i| (i as i128, i)));
    expected.push((99_999, 50_010));
    assert_eq!(r, expected);
}

#[test]
fn viewport_memo_idempotence() {
    let mut l = TimeseriesLineMemory::new(DownsamplingMethod::MinMax);
    l.update_cache(&wavy(30_000));
    let before = all_levels(&l);
    let first = l.plot(bounds(1000, 9000));
    let second = l.plot(bounds(1000, 9000));
    assert_eq!(first, second);
    assert_eq!(all_levels(&l), before);
}

#[test]
fn memo_follows_new_data() {
    let mut l = TimeseriesLineMemory::new(DownsamplingMethod::MinMax);
    l.update_cache(&ramp(10));
    let first = l.plot(bounds(0, 100));
    assert_eq!(first.len(), 10);
    l.update_cache(&ramp(12));
    assert_eq!(l.plot(bounds(0, 100)).len(), 12);
}

#[test]
fn edge_anchoring_uses_slice_values() {
    let data: Vec<Sample> = (0..20).map(|i| (i, Some(10 * i))).collect();
    let mut l = TimeseriesLineMemory::new(DownsamplingMethod::MinMax);
    l.update_cache(&data);
    let r = l.plot(bounds(5, 10));
    let mut expected: Vec<Entry> = vec![(0, 40)];
    expected.extend((4..12).map(|i| (i as i128, 10 * i)));
    expected.push((19, 110));
    assert_eq!(r, expected);
}

#[test]
fn edge_anchoring_tail_one_short() {
    let data: Vec<Sample> = (0..20).map(|i| (i, Some(10 * i))).collect();
    let mut l = TimeseriesLineMemory::new(DownsamplingMethod::MinMax);
    l.update_cache(&data);
    let r = l.plot(bounds(0, 17));
    assert_eq!(r.len(), 20);
    assert_eq!(r[18], (18, 180));
    assert_eq!(r[19], (19, 180));
}

#[test]
fn registry_last_known_end_of_ten_thousand_points() {
    let mut m = TimeseriesPlotMemory::new();
    let data: Vec<Sample> = (0..10_000).map(|i| (2 * i, Some(i))).collect();
    m.update_cache(&"a".to_string(), &data);
    assert_eq!(m.end(), Some(19_998));
}

#[test]
fn registry_five_points_unaggregated() {
    let mut m = TimeseriesPlotMemory::new();
    let data: Vec<Sample> = vec![(0, Some(0)), (1, Some(5)), (2, Some(-3)), (3, Some(1)), (4, Some(2))];
    m.update_cache(&"a".to_string(), &data);
    let r = m.plot(&"a".to_string(), bounds(0, 4));
    assert_eq!(r, vec![(0, 0), (1, 5), (2, -3), (3, 1), (4, 2)]);
}

#[test]
fn registry_identical_reingest_is_noop() {
    let mut m = TimeseriesPlotMemory::new();
    let id = "a".to_string();
    let data = wavy(100_000);
    m.update_cache(&id, &data);
    let before = all_levels(m.line(&id).unwrap());
    let view = m.plot(&id, bounds(0, 99_999));
    m.update_cache(&id, &data);
    assert_eq!(all_levels(m.line(&id).unwrap()), before);
    assert_eq!(m.plot(&id, bounds(0, 99_999)), view);
}

#[test]
fn registry_empty_line() {
    let mut m = TimeseriesPlotMemory::new();
    m.update_cache(&"a".to_string(), &Vec::new());
    assert_eq!(m.plot(&"a".to_string(), bounds(0, 100)), Vec::<Entry>::new());
    assert_eq!(m.end(), None);
}

#[test]
fn registry_unknown_line_gives_nothing() {
    let mut m = TimeseriesPlotMemory::new();
    m.update_cache(&"a".to_string(), &ramp(5));
    assert_eq!(m.plot(&"b".to_string(), bounds(0, 100)), Vec::<Entry>::new());
    assert!(m.line(&"b".to_string()).is_none());
}

#[test]
fn registry_end_is_max_over_lines() {
    let mut m = TimeseriesPlotMemory::new();
    m.update_cache(&"a".to_string(), &ramp(10));
    m.update_cache(&"b".to_string(), &(5..30).map(|i| (i, Some(i))).collect());
    m.update_cache(&"c".to_string(), &Vec::new());
    assert_eq!(m.end(), Some(24));
}

#[test]
fn registry_clear_caches_forces_rebuild() {
    let mut m = TimeseriesPlotMemory::new();
    let id = "a".to_string();
    let s = ramp(8);
    let mut edited = s.clone();
    edited[4] = (4, Some(40));
    m.update_cache(&id, &s);
    m.update_cache(&id, &edited);
    assert_eq!(m.line(&id).unwrap().level(0)[4], (4, 4));
    m.clear_caches();
    assert_eq!(m.end(), None);
    m.update_cache(&id, &edited);
    assert_eq!(m.line(&id).unwrap().level(0)[4], (4, 40));
}

#[test]
fn ingest_start_follows_length_and_first_sample() {
    let mut l = TimeseriesLineMemory::new(DownsamplingMethod::MinMax);
    assert_eq!(l.ingest_start(10, Some((0, Some(0)))), Some(0));
    l.update_cache(&ramp(10));
    assert_eq!(l.ingest_start(15, Some((0, Some(0)))), Some(10));
    assert_eq!(l.ingest_start(10, Some((0, Some(0)))), None);
    assert_eq!(l.ingest_start(10, Some((0, Some(1)))), Some(0));
    assert_eq!(l.ingest_start(9, Some((0, Some(0)))), Some(0));
    assert_eq!(l.ingest_start(0, None), Some(0));
}

#[test]
fn tail_ingest_matches_full_ingest() {
    let full = wavy(12_345);
    let mut by_tail = TimeseriesLineMemory::new(DownsamplingMethod::MinMax);
    let mut by_full = TimeseriesLineMemory::new(DownsamplingMethod::MinMax);
    for n in [0usize, 1, 4000, 4001, 9000, 9000, 12_345] {
        let data: Vec<Sample> = full[..n].to_vec();
        let first = data.first().copied();
        let tail: Vec<Sample> = match by_tail.ingest_start(n, first) {
            Some(k) => data[k..].to_vec(),
            None => Vec::new(),
        };
        by_tail.update_cache_tail(n, first, &tail);
        by_full.update_cache(&data);
        assert_eq!(all_levels(&by_tail), all_levels(&by_full));
    }
}

#[test]
fn registry_tail_ingest_creates_line() {
    let mut m = TimeseriesPlotMemory::new();
    let id = "t".to_string();
    assert_eq!(m.ingest_start(&id, 3, Some((4, Some(1)))), Some(0));
    m.update_cache_tail(&id, 3, Some((4, Some(1))), &vec![(4, Some(1)), (6, None), (9, Some(2))]);
    assert_eq!(m.line(&id).unwrap().level(0), vec![(0, 1), (5, 2)]);
    assert_eq!(m.ingest_start(&id, 5, Some((4, Some(1)))), Some(3));
    m.update_cache_tail(&id, 5, Some((4, Some(1))), &vec![(10, Some(3)), (11, Some(4))]);
    assert_eq!(m.end(), Some(7));
    assert_eq!(m.ingest_start(&id, 5, Some((4, Some(1)))), None);
}

#[test]
fn append_keeps_coarse_levels_but_last_two() {
    let full = wavy(30_000);
    let mut l = TimeseriesLineMemory::new(DownsamplingMethod::MinMax);
    l.update_cache(&full[..20_003].to_vec());
    let before = all_levels(&l);
    l.update_cache(&full);
    let after = all_levels(&l);
    assert!(after.len() >= before.len());
    for k in 1..before.len() {
        let keep = before[k].len() - 2;
        assert_eq!(&after[k][..keep], &before[k][..keep]);
    }
}
