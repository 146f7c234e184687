use rustdirstat::throttle::Throttle;
use rustdirstat::units::{ByteUnit, SizeText};
use rustdirstat::walk::{ByteFormat, ByteFormatDisplay, Parallelism, TraversalSorting, WalkOptions, WalkResult};
use std::sync::atomic::AtomicBool;
use std::sync::Arc;

#[test]
fn display_pairs_format_and_size() {
    let shown = ByteFormat::GiB.display(42);
    assert_eq!(shown, ByteFormatDisplay { format: ByteFormat::GiB, bytes: 42 });
}

#[test]
fn fixed_formats_use_their_unit() {
    assert_eq!(ByteFormat::Bytes.display(5).text(), SizeText::Exact);
    assert_eq!(
        ByteFormat::GB.display(5).text(),
        SizeText::Scaled { divisor: 1_000_000_000, unit: ByteUnit::GB }
    );
    assert_eq!(
        ByteFormat::MiB.display(5).text(),
        SizeText::Scaled { divisor: 1_048_576, unit: ByteUnit::MiB }
    );
}

#[test]
fn automatic_formats_pick_the_largest_unit() {
    assert_eq!(ByteFormat::Metric.display(0).text(), SizeText::Exact);
    assert_eq!(ByteFormat::Metric.display(999).text(), SizeText::Scaled { divisor: 1, unit: ByteUnit::B });
    assert_eq!(
        ByteFormat::Metric.display(1_500_000).text(),
        SizeText::Scaled { divisor: 1_000_000, unit: ByteUnit::MB }
    );
    assert_eq!(
        ByteFormat::Binary.display(1536).text(),
        SizeText::Scaled { divisor: 1024, unit: ByteUnit::KiB }
    );
    assert_eq!(
        ByteFormat::Binary.display(1_099_511_627_776).text(),
        SizeText::Scaled { divisor: 1_099_511_627_776, unit: ByteUnit::TiB }
    );
}

#[test]
fn exit_code_tells_whether_errors_occurred() {
    assert_eq!(WalkResult { num_errors: 0 }.to_exit_code(), 0);
    assert_eq!(WalkResult { num_errors: 3 }.to_exit_code(), 1);
    assert_eq!(WalkResult::default().to_exit_code(), 0);
}

#[test]
fn default_walk_options() {
    let opts = WalkOptions::default();
    assert!(opts.threads >= 1);
    assert!(!opts.count_hard_links);
    assert!(!opts.apparent_size);
    assert_eq!(opts.sorting, TraversalSorting::Unsorted);
    assert!(!opts.cross_filesystems);
    assert!(opts.ignore_dirs.is_empty());
}

#[test]
fn walk_plan_follows_the_options() {
    let mut opts = WalkOptions::default();
    opts.threads = 0;
    let plan = opts.walk_plan(true);
    assert_eq!(plan.min_depth, 1);
    assert!(!plan.sort);
    assert!(!plan.follow_links);
    assert!(!plan.skip_hidden);
    assert_eq!(plan.parallelism, Parallelism::SharedPool { busy_timeout_secs: 1 });

    opts.threads = 1;
    opts.sorting = TraversalSorting::AlphabeticalByFileName;
    let plan = opts.walk_plan(false);
    assert_eq!(plan.min_depth, 0);
    assert!(plan.sort);
    assert_eq!(plan.parallelism, Parallelism::Serial);

    opts.threads = 4;
    assert_eq!(opts.walk_plan(false).parallelism, Parallelism::OwnPool { threads: 4, stack_size: 131072 });
}

#[test]
fn walk_stays_on_its_device_unless_told_otherwise() {
    let mut opts = WalkOptions::default();
    assert!(opts.descends_into(Some(true), false));
    assert!(!opts.descends_into(Some(false), false));
    assert!(opts.descends_into(None, false));
    assert!(!opts.descends_into(Some(true), true));
    opts.cross_filesystems = true;
    assert!(opts.descends_into(Some(false), false));
    assert!(!opts.descends_into(Some(false), true));
}

#[test]
fn throttle_takes_the_flag_down() {
    let throttle = Throttle { trigger: Arc::new(AtomicBool::new(true)) };
    assert!(throttle.can_update());
    assert!(!throttle.can_update());
}
