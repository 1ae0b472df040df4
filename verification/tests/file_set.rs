use commitlog::file_set::FileSet;
use commitlog::file_set::LogError;
use commitlog::index::Index;
use commitlog::options::LogOptions;
use commitlog::segment::Segment;

fn options() -> LogOptions {
    LogOptions { log_dir: String::from("testlog"), log_max_bytes: 1024, index_max_bytes: 512 }
}

#[test]
fn load_empty_directory_starts_at_zero() {
    let fs = FileSet::load_log(options(), vec![], vec![]).unwrap();
    assert_eq!(fs.active_index().starting_offset(), 0);
    assert_eq!(fs.active_index().next_offset(), 0);
    assert!(!fs.active_index().is_read_only());
    assert_eq!(fs.closed_count(), 0);
    assert_eq!(fs.log_options().log_max_bytes, 1024);
    assert_eq!(fs.log_options().index_max_bytes, 512);
    assert_eq!(fs.log_options().log_dir, "testlog");
}

#[test]
fn load_recovers_pairs_in_any_order() {
    // discovered out of order: the pair with the greatest offset becomes active
    let segments = vec![
        Segment::new(100, 1024),
        Segment::new(0, 1024),
        Segment::new(30, 1024),
    ];
    let indexes = vec![
        Index::open_existing(0, 30, 512),
        Index::open_existing(100, 150, 512),
        Index::open_existing(30, 100, 512),
    ];
    let fs = FileSet::load_log(options(), segments, indexes).unwrap();
    assert_eq!(fs.active_index().starting_offset(), 100);
    assert_eq!(fs.active_index().next_offset(), 150);
    assert!(!fs.active_index().is_read_only());
    assert_eq!(fs.closed_count(), 2);

    let p0 = fs.find(10).unwrap();
    assert_eq!(p0.0.starting_offset(), 0);
    assert_eq!(p0.1.starting_offset(), 0);
    assert!(p0.0.is_read_only());
    assert_eq!(p0.0.next_offset(), 30);

    let p30 = fs.find(99).unwrap();
    assert_eq!(p30.0.starting_offset(), 30);
    assert!(p30.0.is_read_only());
}

#[test]
fn load_missing_index_fails_with_smallest_offset() {
    let segments = vec![Segment::new(0, 1024), Segment::new(100, 1024), Segment::new(50, 1024)];
    let indexes = vec![Index::open_existing(0, 50, 512), Index::open_existing(100, 120, 512)];
    match FileSet::load_log(options(), segments, indexes) {
        Ok(_) => panic!("load must fail when a segment has no index"),
        Err(err) => assert_eq!(err, LogError::MissingIndex(50)),
    }
}

#[test]
fn load_discards_orphan_indexes() {
    let segments = vec![Segment::new(0, 1024)];
    let indexes = vec![Index::open_existing(0, 10, 512), Index::open_existing(40, 60, 512)];
    let fs = FileSet::load_log(options(), segments, indexes).unwrap();
    assert_eq!(fs.active_index().starting_offset(), 0);
    assert_eq!(fs.closed_count(), 0);
}

#[test]
fn find_routes_each_offset_to_its_pair() {
    let segments = vec![Segment::new(0, 1024), Segment::new(100, 1024)];
    let indexes = vec![Index::open_existing(0, 100, 512), Index::open_existing(100, 140, 512)];
    let fs = FileSet::load_log(options(), segments, indexes).unwrap();

    assert_eq!(fs.find(0).unwrap().0.starting_offset(), 0);
    assert_eq!(fs.find(50).unwrap().0.starting_offset(), 0);
    assert_eq!(fs.find(99).unwrap().0.starting_offset(), 0);
    // at or past the active pair's start, the active pair is authoritative,
    // written or not
    assert_eq!(fs.find(100).unwrap().0.starting_offset(), 100);
    assert!(!fs.find(100).unwrap().0.is_read_only());
    assert_eq!(fs.find(150).unwrap().0.starting_offset(), 100);
    assert_eq!(fs.find(u64::MAX).unwrap().0.starting_offset(), 100);
}

#[test]
fn find_before_earliest_data_is_none() {
    let segments = vec![Segment::new(10, 1024), Segment::new(100, 1024)];
    let indexes = vec![Index::open_existing(10, 100, 512), Index::open_existing(100, 130, 512)];
    let fs = FileSet::load_log(options(), segments, indexes).unwrap();
    assert!(fs.find(9).is_none());
    assert!(fs.find(0).is_none());
    assert_eq!(fs.find(10).unwrap().0.starting_offset(), 10);
}

#[test]
fn find_with_no_closed_history_below_active_is_none() {
    // a single recovered pair starting past zero: nothing covers earlier offsets
    let segments = vec![Segment::new(10, 1024)];
    let indexes = vec![Index::open_existing(10, 40, 512)];
    let fs = FileSet::load_log(options(), segments, indexes).unwrap();
    assert_eq!(fs.closed_count(), 0);
    assert!(fs.find(5).is_none());
    assert_eq!(fs.find(10).unwrap().0.starting_offset(), 10);
}

#[test]
fn find_is_idempotent() {
    let segments = vec![Segment::new(0, 1024), Segment::new(100, 1024)];
    let indexes = vec![Index::open_existing(0, 100, 512), Index::open_existing(100, 140, 512)];
    let fs = FileSet::load_log(options(), segments, indexes).unwrap();
    assert_eq!(fs.find(50), fs.find(50));
    assert_eq!(fs.find(120), fs.find(120));
    assert_eq!(fs.find(50).unwrap().0.starting_offset(), fs.find(50).unwrap().0.starting_offset());
}

#[test]
fn roll_retires_active_pair_at_next_offset() {
    let mut fs = FileSet::load_log(options(), vec![], vec![]).unwrap();
    fs.active_index_mut().advance_next_offset(75);
    fs.roll_segment();

    assert_eq!(fs.active_index().starting_offset(), 75);
    assert_eq!(fs.active_index().next_offset(), 75);
    assert!(!fs.active_index().is_read_only());
    assert_eq!(fs.active_segment_mut().starting_offset(), 75);
    assert_eq!(fs.closed_count(), 1);

    let retired = fs.find(10).unwrap();
    assert_eq!(retired.0.starting_offset(), 0);
    assert_eq!(retired.1.starting_offset(), 0);
    assert_eq!(retired.0.next_offset(), 75);
    assert!(retired.0.is_read_only());
}

#[test]
fn rolls_keep_offsets_ordered() {
    let mut fs = FileSet::load_log(options(), vec![], vec![]).unwrap();
    fs.active_index_mut().advance_next_offset(50);
    fs.roll_segment();
    fs.active_index_mut().advance_next_offset(120);
    fs.roll_segment();

    assert_eq!(fs.active_index().starting_offset(), 120);
    assert_eq!(fs.closed_count(), 2);
    assert_eq!(fs.find(0).unwrap().0.starting_offset(), 0);
    assert_eq!(fs.find(49).unwrap().0.starting_offset(), 0);
    assert_eq!(fs.find(50).unwrap().0.starting_offset(), 50);
    assert_eq!(fs.find(119).unwrap().0.starting_offset(), 50);
    assert_eq!(fs.find(120).unwrap().0.starting_offset(), 120);
    // every closed pair sits strictly below the active pair
    assert_ne!(fs.find(0).unwrap().0.starting_offset(), fs.active_index().starting_offset());
    assert_ne!(fs.find(50).unwrap().0.starting_offset(), fs.active_index().starting_offset());
}

#[test]
fn example_scenario() {
    // directory has pairs at offsets 0 and 100, nothing beyond
    let segments = vec![Segment::new(0, 1024), Segment::new(100, 1024)];
    let indexes = vec![Index::open_existing(0, 100, 512), Index::open_existing(100, 180, 512)];
    let mut fs = FileSet::load_log(options(), segments, indexes).unwrap();

    assert_eq!(fs.active_index().starting_offset(), 100);
    assert_eq!(fs.closed_count(), 1);
    assert_eq!(fs.find(50).unwrap().0.starting_offset(), 0);
    assert_eq!(fs.find(150).unwrap().0.starting_offset(), 100);
    assert!(!fs.find(150).unwrap().0.is_read_only());

    // roll while the active pair's next expected offset is 180
    fs.roll_segment();
    assert_eq!(fs.active_index().starting_offset(), 180);
    assert_eq!(fs.closed_count(), 2);
    let old_active = fs.find(100).unwrap();
    assert_eq!(old_active.0.starting_offset(), 100);
    assert!(old_active.0.is_read_only());
    assert_eq!(fs.find(179).unwrap().0.starting_offset(), 100);
    assert_eq!(fs.find(180).unwrap().0.starting_offset(), 180);
}

#[test]
fn mut_accessors_reach_the_active_pair() {
    let mut fs = FileSet::load_log(options(), vec![], vec![]).unwrap();
    assert_eq!(fs.active_segment_mut().starting_offset(), 0);
    assert_eq!(fs.active_index_mut().starting_offset(), 0);
    fs.active_index_mut().advance_next_offset(7);
    assert_eq!(fs.active_index().next_offset(), 7);
    fs.active_index_mut().set_readonly();
    assert!(fs.active_index().is_read_only());
}
