use minikv::strmap::StrMap;
use minikv::timeseries::{
    group_points, points_deltas_computable, returned_fits, ScannedSeries, Aggregation, DataPoint, Resolution, TimeSeries, TimeseriesConfig, TimeseriesEngine,
    TimeseriesQuery,
};

#[test]
fn test_resolution_align() {
    let ts = 1706788234567i64;

    assert_eq!(Resolution::Minute.align(ts), 1706788200000);
    assert_eq!(Resolution::Hour.align(ts), 1706785200000);
}

#[test]
fn test_series_key() {
    let engine = TimeseriesEngine::new(TimeseriesConfig::default());

    let mut tags = StrMap::new();
    tags.insert("host".to_string(), "server1".to_string());
    tags.insert("region".to_string(), "us-east".to_string());

    let key = engine.series_key("cpu.usage", &tags);
    assert!(key.contains("cpu.usage"));
    assert!(key.contains("host=server1"));
    assert!(key.contains("region=us-east"));
}

#[test]
fn test_wildcard_matching() {
    let engine = TimeseriesEngine::new(TimeseriesConfig::default());

    assert!(engine.matches_metric("cpu.usage", "cpu.*"));
    assert!(engine.matches_metric("cpu.usage", "*.usage"));
    assert!(engine.matches_metric("cpu.usage", "cpu.usage"));
    assert!(!engine.matches_metric("memory.free", "cpu.*"));
}

fn now_ms() -> i64 {
    std::time::SystemTime::now().duration_since(std::time::UNIX_EPOCH).unwrap().as_millis() as i64
}

#[test]
fn test_write_and_query() {
    let mut engine = TimeseriesEngine::new(TimeseriesConfig::default());

    let mut series = TimeSeries::new("cpu.usage");
    series = series.with_tag("host", "server1");

    let now = now_ms();
    for i in 0..100 {
        series.add_point(DataPoint::new(now + i * 1000, (50.0 + (i as f64) * 0.1).to_bits()));
    }

    engine.write(&series).unwrap();

    let query = TimeseriesQuery {
        metric: "cpu.usage".to_string(),
        start: now_ms() - 3_600_000,
        end: now_ms() + 3_600_000,
        tags: StrMap::new(),
        aggregation: None,
        resolution: None,
        limit: None,
    };
    let (scanned, points_scanned) = engine.query_scan(&query);
    let result = engine.finish_query(&scanned, query.limit, points_scanned, 0);

    assert_eq!(result.series.len(), 1);
    assert_eq!(result.series[0].points.len(), 100);
}

#[test]
fn timeseries_key_is_sorted_and_parsed_back() {
    let engine = TimeseriesEngine::new(TimeseriesConfig::default());
    let mut tags = StrMap::new();
    tags.insert("region".to_string(), "us-east".to_string());
    tags.insert("host".to_string(), "server1".to_string());
    let key = engine.series_key("cpu.usage", &tags);
    assert_eq!(key, "cpu.usage|host=server1,region=us-east");
    let back = engine.extract_tags(&key);
    assert_eq!(back.len(), 2);
    assert_eq!(back.get("host").unwrap(), "server1");
    assert_eq!(back.get("region").unwrap(), "us-east");
    assert_eq!(engine.series_key("mem", &StrMap::new()), "mem");
    assert_eq!(engine.extract_tags("mem").len(), 0);
}

#[test]
fn timeseries_metric_patterns() {
    let engine = TimeseriesEngine::new(TimeseriesConfig::default());
    assert!(engine.matches_metric("cpu.usage|host=a", "cpu.usage"));
    assert!(engine.matches_metric("cpu.user.time", "cpu.*.time"));
    assert!(!engine.matches_metric("cpu.user.load", "cpu.*.time"));
    // With two stars only the first part counts.
    assert!(engine.matches_metric("cpu.user.load", "cpu.*.*time"));
    assert!(!engine.matches_metric("cpu", "cpu.usage"));
}

#[test]
fn timeseries_tag_filters() {
    let engine = TimeseriesEngine::new(TimeseriesConfig::default());
    let mut filters = StrMap::new();
    assert!(engine.matches_tags("cpu|host=a", &filters));
    filters.insert("host".to_string(), "a".to_string());
    assert!(engine.matches_tags("cpu|host=a,dc=x", &filters));
    assert!(!engine.matches_tags("cpu|host=b", &filters));
    assert!(!engine.matches_tags("cpu", &filters));
}

#[test]
fn timeseries_align_rounds_down_before_the_epoch() {
    assert_eq!(Resolution::Second.align(-1500), -2000);
    assert_eq!(Resolution::Day.align(86_400_000 * 3 + 5), 86_400_000 * 3);
    assert_eq!(Resolution::Month.as_millis(), 2_592_000_000);
}

#[test]
fn timeseries_blocks_round_trip_both_encodings() {
    let points = vec![
        DataPoint::new(1000, 1.5f64.to_bits()),
        DataPoint::new(2500, (-2.0f64).to_bits()),
        DataPoint::new(2400, 0.0f64.to_bits()),
    ];
    let delta = TimeseriesEngine::new(TimeseriesConfig::default());
    let block = delta.compress_points(&points).unwrap();
    assert_eq!(block.count, 3);
    assert_eq!(block.data.len(), 36);
    assert_eq!(block.start_ts, 1000);
    assert_eq!(block.end_ts, 2400);
    assert_eq!(delta.decompress_block(&block).unwrap(), points);

    let mut raw_config = TimeseriesConfig::default();
    raw_config.compression.delta_encoding = false;
    let raw = TimeseriesEngine::new(raw_config);
    let block = raw.compress_points(&points).unwrap();
    assert_eq!(block.data.len(), 48);
    assert_eq!(raw.decompress_block(&block).unwrap(), points);
    assert!(raw.compress_points(&[]).is_err());
}

#[test]
fn timeseries_group_points_by_bucket() {
    let points = vec![
        DataPoint::new(61_000, 1),
        DataPoint::new(1_000, 2),
        DataPoint::new(59_999, 3),
        DataPoint::new(120_000, 4),
    ];
    let groups = group_points(&points, Resolution::Minute);
    assert_eq!(groups, vec![(0, vec![2, 3]), (60_000, vec![1]), (120_000, vec![4])]);
    assert!(group_points(&[], Resolution::Minute).is_empty());
}

#[test]
fn timeseries_query_limits_and_ranges() {
    let mut engine = TimeseriesEngine::new(TimeseriesConfig::default());
    let mut series = TimeSeries::new("disk").with_tag("dev", "sda");
    for i in 0..10 {
        series.add_point(DataPoint::new(3_600_000 + i * 10, i as u64));
    }
    engine.write(&series).unwrap();
    let mut query = TimeseriesQuery {
        metric: "disk".to_string(),
        start: 3_600_000,
        end: 3_600_040,
        tags: StrMap::new(),
        aggregation: Some(Aggregation::Sum),
        resolution: None,
        limit: Some(3),
    };
    let (scanned, count) = engine.query_scan(&query);
    assert_eq!(count, 10);
    assert_eq!(scanned.len(), 1);
    assert_eq!(scanned[0].points.len(), 4);
    let result = engine.finish_query(&scanned, query.limit, count, 7);
    assert_eq!(result.points_returned, 3);
    assert_eq!(result.points_scanned, 10);
    assert_eq!(result.execution_time_ms, 7);
    assert_eq!(result.series[0].metric, "disk");
    assert_eq!(result.series[0].tags.get("dev").unwrap(), "sda");
    query.tags.insert("dev".to_string(), "sdb".to_string());
    let (none, _) = engine.query_scan(&query);
    assert!(none.is_empty());
}

#[test]
fn timeseries_retention_and_stats() {
    let mut engine = TimeseriesEngine::new(TimeseriesConfig::default());
    let mut old = TimeSeries::new("m");
    old.add_point(DataPoint::new(0, 1));
    old.add_point(DataPoint::new(1, 2));
    engine.write(&old).unwrap();
    let mut recent = TimeSeries::new("m");
    recent.add_point(DataPoint::new(40 * 86_400_000, 3));
    engine.write(&recent).unwrap();
    let stats = engine.stats();
    assert_eq!(stats.total_series, 1);
    assert_eq!(stats.total_points, 3);
    assert_eq!(stats.total_bytes, 36);
    assert_eq!(stats.retention_days, 30);
    assert_eq!(stats.downsample_rules, 2);
    // Downsampling counts blocks of more than one point older than each rule.
    assert_eq!(engine.run_downsampling_at(40 * 86_400_000).unwrap(), 4);
    // Retention drops what is older than 30 days.
    assert_eq!(engine.run_retention_at(40 * 86_400_000).unwrap(), 2);
    assert_eq!(engine.stats().total_points, 1);
}

fn cpu_series(start: i64, n: i64, step: i64) -> TimeSeries {
    let mut series = TimeSeries::new("cpu.usage");
    for i in 0..n {
        series.add_point(DataPoint::new(start + i * step, (i as f64).to_bits()));
    }
    series
}

fn cpu_query(start: i64, end: i64) -> TimeseriesQuery {
    TimeseriesQuery {
        metric: "cpu.usage".to_string(),
        start,
        end,
        tags: StrMap::new(),
        aggregation: None,
        resolution: None,
        limit: None,
    }
}

#[test]
fn timeseries_guards_accept_an_ordinary_store() {
    let mut engine = TimeseriesEngine::new(TimeseriesConfig::default());
    let series = cpu_series(7_200_000, 10, 1000);
    assert!(points_deltas_computable(&series.points));
    engine.write(&series).unwrap();
    let query = cpu_query(0, 100_000_000);
    assert!(engine.is_decodable_for(&query));
    assert!(engine.scan_fits(&query));
    assert!(engine.stats_fit());
    assert!(engine.retention_fits(100_000_000));
    assert!(engine.downsampling_fits(100_000_000));
    let (scanned, count) = engine.query_scan(&query);
    assert_eq!(count, 10);
    assert!(returned_fits(&scanned, Some(3)));
}

#[test]
fn timeseries_reversed_range_returns_nothing() {
    let mut engine = TimeseriesEngine::new(TimeseriesConfig::default());
    engine.write(&cpu_series(7_200_000, 3, 1000)).unwrap();
    let (scanned, _) = engine.query_scan(&cpu_query(10, 5));
    assert_eq!(scanned.len(), 1);
    assert!(scanned[0].points.is_empty());
}

#[test]
fn timeseries_query_reads_points_of_an_earlier_bucket() {
    let mut engine = TimeseriesEngine::new(TimeseriesConfig::default());
    let mut series = TimeSeries::new("cpu.usage");
    series.add_point(DataPoint::new(1_800_000, 1));
    series.add_point(DataPoint::new(3_000_000, 2));
    engine.write(&series).unwrap();
    let (scanned, count) = engine.query_scan(&cpu_query(2_000_000, 4_000_000));
    // The block is keyed at hour 0, outside 2_000_000..=4_000_000: it is read
    // for its points but not counted as scanned.
    assert_eq!(count, 0);
    assert_eq!(scanned.len(), 1);
    assert_eq!(scanned[0].points, vec![DataPoint::new(3_000_000, 2)]);
    let (edge, _) = engine.query_scan(&cpu_query(1_800_000, 3_000_000));
    assert_eq!(edge[0].points, vec![DataPoint::new(1_800_000, 1)]);
    let (_, from_zero) = engine.query_scan(&cpu_query(0, 4_000_000));
    assert_eq!(from_zero, 2);
}

#[test]
fn timeseries_align_rounds_down() {
    assert_eq!(Resolution::Second.align(-1), -1000);
    assert_eq!(Resolution::Second.align(-1000), -1000);
    assert_eq!(Resolution::Minute.align(-60_001), -120_000);
    assert_eq!(Resolution::Hour.align(0), 0);
}

#[test]
fn timeseries_deltas_overflow_is_detected() {
    let points = vec![DataPoint::new(i64::MIN, 0), DataPoint::new(i64::MAX, 0)];
    assert!(!points_deltas_computable(&points));
    let near = vec![DataPoint::new(-5, 0), DataPoint::new(5, 0), DataPoint::new(-5, 0)];
    assert!(points_deltas_computable(&near));
}

#[test]
fn timeseries_undecodable_block_is_detected() {
    let mut engine = TimeseriesEngine::new(TimeseriesConfig::default());
    // The second point lies 2^32 - 5 ms before the first: stored in 32 bits
    // the delta reads back as +5, and decoding from a start near i64::MAX overflows.
    let start = i64::MAX - 10;
    let series = {
        let mut s = TimeSeries::new("cpu.usage");
        s.add_point(DataPoint::new(start, 0));
        s.add_point(DataPoint::new(start + 5, 0));
        s
    };
    engine.write(&series).unwrap();
    let cpu = cpu_query(0, 10);
    assert!(engine.is_decodable_for(&cpu));
    let mut far = TimeSeries::new("disk.io");
    far.add_point(DataPoint::new(i64::MAX - 1, 0));
    far.add_point(DataPoint::new(i64::MAX - 1 - 0x1_0000_0000 + 5, 0));
    engine.write(&far).unwrap();
    let mut disk = cpu_query(0, 10);
    disk.metric = "disk.io".to_string();
    assert!(!engine.is_decodable_for(&disk));
    // A query that does not select the undecodable series can still run.
    assert!(engine.is_decodable_for(&cpu));
}

#[test]
fn timeseries_returned_fits_counts_limited_points() {
    let scanned = vec![
        ScannedSeries { key: "a".to_string(), points: vec![DataPoint::new(1, 0); 4] },
        ScannedSeries { key: "b".to_string(), points: vec![DataPoint::new(2, 0); 2] },
    ];
    assert!(returned_fits(&scanned, None));
    assert!(returned_fits(&scanned, Some(1)));
}
