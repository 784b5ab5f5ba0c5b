use pprof::{
    cycles_per_second, elapsed_ticks, init, init_at, Anchor, Block, Profiler, CALIBRATION_MILLIS, NANOS_PER_SECOND,
};

const MS: u64 = 1_000_000;

#[test]
fn anchor_new_starts_at_zero() {
    let a = Anchor::new("parse");
    assert_eq!(a.name(), "parse");
    assert_eq!(a.calls(), 0);
    assert_eq!(a.elapsed_exclusive(), 0);
    assert_eq!(a.elapsed_inclusive(), 0);
    assert_eq!(a.bytes(), 0);
}

#[test]
fn profiler_new_holds_only_the_root() {
    let p = Profiler::new();
    assert_eq!(p.anchor_count(), 1);
    assert_eq!(p.anchor(0).name(), "");
    assert_eq!(p.active_id(), 0);
}

#[test]
fn same_name_gives_same_id_and_one_entry() {
    let mut p = Profiler::new();
    let a = p.get_anchor_id("main::work");
    let b = p.get_anchor_id("main::work");
    assert_eq!(a, 1);
    assert_eq!(a, b);
    assert_eq!(p.anchor_count(), 2);
    let c = p.get_anchor_id("main::other");
    assert_eq!(c, 2);
    assert_eq!(p.get_anchor_id("main::work"), 1);
    assert_eq!(p.anchor_count(), 3);
    let named = (0..p.anchor_count()).filter(|&i| p.anchor(i).name() == "main::work").count();
    assert_eq!(named, 1);
}

#[test]
fn empty_name_never_matches_the_root() {
    let mut p = Profiler::new();
    let id = p.get_anchor_id("");
    assert_eq!(id, 1);
    assert_eq!(p.get_anchor_id(""), 1);
    assert_eq!(p.anchor_count(), 2);
}

#[test]
fn from_id_records_parent_and_snapshot() {
    let mut p = Profiler::new();
    let id = p.get_anchor_id("f");
    let b = Block::from_id(&mut p, id);
    assert_eq!(b.anchor_id(), id);
    assert_eq!(b.parent_id(), 0);
    assert_eq!(p.active_id(), id);
    p.end_scope_after(b, 7);
    let b2 = Block::from_id(&mut p, id);
    p.end_scope_after(b2, 3);
    assert_eq!(p.anchor(id).elapsed_inclusive(), 10);
    assert_eq!(p.anchor(id).calls(), 2);
}

#[test]
fn block_new_keeps_its_fields() {
    let b = Block::new(3, 1, 42, 100);
    assert_eq!(b.anchor_id(), 3);
    assert_eq!(b.parent_id(), 1);
    assert_eq!(b.elapsed(130), 30);
    assert_eq!(b.elapsed(100), 0);
    assert_eq!(b.elapsed(50), 0);
}

#[test]
fn from_id_at_times_from_the_given_reading() {
    let mut p = Profiler::new();
    let id = p.get_anchor_id("counted");
    let b = Block::from_id_at(&mut p, id, 1_000);
    let e = b.elapsed(1_750);
    assert_eq!(e, 750);
    p.end_scope_after(b, e);
    assert_eq!(p.anchor(id).elapsed_inclusive(), 750);
    assert_eq!(p.active_id(), 0);
}

#[test]
fn init_at_sets_the_session_start() {
    let mut p = Profiler::new();
    let b = p.begin_scope("kept");
    p.end_scope_after(b, 5);
    init_at(&mut p, 500);
    assert_eq!(p.session_elapsed_at(800), 300);
    assert_eq!(p.session_elapsed_at(100), 0);
    assert_eq!(p.anchor(1).calls(), 1);
}

#[test]
fn outer_and_inner_split_time() {
    let mut p = Profiler::new();
    let outer = p.begin_scope("outer");
    let inner = p.begin_scope("inner");
    assert_eq!(p.active_id(), 2);
    p.end_scope_after(inner, 5 * MS);
    assert_eq!(p.active_id(), 1);
    p.end_scope_after(outer, 15 * MS);
    assert_eq!(p.active_id(), 0);
    let o = p.anchor(1);
    let i = p.anchor(2);
    assert_eq!((o.name(), o.calls(), o.elapsed_exclusive(), o.elapsed_inclusive()), ("outer", 1, 10 * MS, 15 * MS));
    assert_eq!((i.name(), i.calls(), i.elapsed_exclusive(), i.elapsed_inclusive()), ("inner", 1, 5 * MS, 5 * MS));
}

#[test]
fn recursion_counts_outermost_span_once() {
    let mut p = Profiler::new();
    let b1 = p.begin_scope("rec");
    let b2 = p.begin_scope("rec");
    let b3 = p.begin_scope("rec");
    p.end_scope_after(b3, 10);
    p.end_scope_after(b2, 20);
    p.end_scope_after(b1, 30);
    let a = p.anchor(1);
    assert_eq!(a.calls(), 3);
    assert_eq!(a.elapsed_inclusive(), 30);
    assert_eq!(a.elapsed_exclusive(), 30);
    assert_eq!(p.anchor_count(), 2);
}

#[test]
fn recursion_through_another_anchor() {
    let mut p = Profiler::new();
    let a1 = p.begin_scope("a");
    let b = p.begin_scope("b");
    let a2 = p.begin_scope("a");
    p.end_scope_after(a2, 4);
    p.end_scope_after(b, 6);
    p.end_scope_after(a1, 10);
    let a = p.anchor(1);
    let bb = p.anchor(2);
    assert_eq!((a.calls(), a.elapsed_exclusive(), a.elapsed_inclusive()), (2, 8, 10));
    assert_eq!((bb.calls(), bb.elapsed_exclusive(), bb.elapsed_inclusive()), (1, 2, 6));
    assert!(a.elapsed_exclusive() <= a.elapsed_inclusive());
    assert!(bb.elapsed_exclusive() <= bb.elapsed_inclusive());
}

#[test]
fn exclusive_times_partition_top_level_time() {
    let mut p = Profiler::new();
    let outer = p.begin_scope("outer");
    let inner = p.begin_scope("inner");
    p.end_scope_after(inner, 5);
    p.end_scope_after(outer, 15);
    let other = p.begin_scope("other");
    p.end_scope_after(other, 7);
    let user: u64 = (1..p.anchor_count()).map(|i| p.anchor(i).elapsed_exclusive()).sum();
    assert_eq!(user, 22);
    assert_eq!(p.anchor(0).elapsed_exclusive(), 0u64.wrapping_sub(22));
    assert_eq!(p.anchor(0).calls(), 0);
}

#[test]
fn self_time_stays_within_total_for_leaf_blocks() {
    let mut p = Profiler::new();
    for span in [3u64, 9, 1] {
        let b = p.begin_scope("leaf");
        p.end_scope_after(b, span);
        let a = p.anchor(1);
        assert!(a.elapsed_exclusive() <= a.elapsed_inclusive());
    }
    assert_eq!(p.anchor(1).elapsed_inclusive(), 13);
}

#[test]
fn add_bytes_accumulates() {
    let mut p = Profiler::new();
    let id = p.get_anchor_id("copy");
    p.add_bytes(id, 100);
    p.add_bytes(id, 28);
    assert_eq!(p.anchor(id).bytes(), 128);
    assert_eq!(p.anchor(id).calls(), 0);
}

#[test]
fn throughput_of_one_mebibyte_in_half_a_second() {
    let mut p = Profiler::new();
    let b = p.begin_scope("read");
    p.add_bytes(b.anchor_id(), 1_048_576);
    p.end_scope_after(b, 500_000_000);
    let lines = p.report_at(1_000_000_000, NANOS_PER_SECOND);
    assert_eq!(lines.len(), 1);
    assert_eq!(lines[0].bytes, 1_048_576);
    assert_eq!(lines[0].bytes_per_second, Some(2 * 1_048_576));
    assert_eq!(lines[0].inclusive_ppm, 500_000);
}

#[test]
fn report_lists_only_anchors_with_calls_in_order() {
    let mut p = Profiler::new();
    let unused = p.get_anchor_id("unused");
    let outer = p.begin_scope("outer");
    let inner = p.begin_scope("inner");
    p.end_scope_after(inner, 5 * MS);
    p.end_scope_after(outer, 15 * MS);
    let lines = p.report_at(30 * MS, NANOS_PER_SECOND);
    assert_eq!(lines.len(), 2);
    assert!(lines.iter().all(|l| l.anchor_id != unused && l.anchor_id != 0));
    let (o, i) = (&lines[0], &lines[1]);
    assert_eq!((o.anchor_id, o.calls, o.inclusive, o.exclusive), (2, 1, 15 * MS, 10 * MS));
    assert_eq!((o.inclusive_ppm, o.exclusive_ppm), (500_000, 333_333));
    assert_eq!((i.anchor_id, i.calls, i.inclusive, i.exclusive), (3, 1, 5 * MS, 5 * MS));
    assert_eq!((i.inclusive_ppm, i.exclusive_ppm), (166_666, 166_666));
    assert_eq!(o.bytes_per_second, None);
}

#[test]
fn report_twice_gives_identical_figures() {
    let mut p = Profiler::new();
    let b = p.begin_scope("work");
    p.end_scope_after(b, 40);
    let first = p.report_at(80, NANOS_PER_SECOND);
    let second = p.report_at(80, NANOS_PER_SECOND);
    assert_eq!(first.len(), second.len());
    for (x, y) in first.iter().zip(second.iter()) {
        assert_eq!(
            (x.anchor_id, x.calls, x.inclusive, x.inclusive_ppm, x.exclusive, x.exclusive_ppm, x.bytes, x.bytes_per_second),
            (y.anchor_id, y.calls, y.inclusive, y.inclusive_ppm, y.exclusive, y.exclusive_ppm, y.bytes, y.bytes_per_second)
        );
    }
    assert_eq!(first[0].inclusive_ppm, 500_000);
    let later = p.report_at(160, NANOS_PER_SECOND);
    assert_eq!((later[0].inclusive, later[0].exclusive), (40, 40));
    assert_eq!(later[0].inclusive_ppm, 250_000);
}

#[test]
fn empty_session_counts_as_one_tick() {
    let mut p = Profiler::new();
    let b = p.begin_scope("instant");
    p.end_scope_after(b, 0);
    let lines = p.report_at(0, NANOS_PER_SECOND);
    assert_eq!(lines.len(), 1);
    assert_eq!(lines[0].inclusive_ppm, 0);
    let b = p.begin_scope("instant");
    p.add_bytes(b.anchor_id(), 10);
    p.end_scope_after(b, 0);
    let lines = p.report_at(0, NANOS_PER_SECOND);
    assert_eq!(lines[0].calls, 2);
    assert_eq!(lines[0].bytes_per_second, Some(10_000_000_000));
}

#[test]
fn clock_timed_scope_counts_one_call() {
    let mut p = Profiler::new();
    let b = p.begin_scope("timed");
    let mut x: u64 = 0;
    for i in 0..1000u64 {
        x = x.wrapping_add(i * i);
    }
    assert!(x > 0);
    p.end_scope(b);
    let a = p.anchor(1);
    assert_eq!(a.calls(), 1);
    assert_eq!(a.elapsed_exclusive(), a.elapsed_inclusive());
    assert_eq!(p.active_id(), 0);
    let r = p.report();
    assert_eq!(r.lines.len(), 1);
    assert!(r.total >= a.elapsed_inclusive());
}

#[test]
fn clock_readings_never_go_back() {
    let mut p = Profiler::new();
    let id = p.get_anchor_id("clocked");
    let b = Block::from_id(&mut p, id);
    let first = p.clock_ticks();
    let second = p.clock_ticks();
    assert!(second >= first);
    assert!(b.elapsed(second) <= second);
    p.end_scope(b);
    assert_eq!(p.anchor(id).calls(), 1);
}

#[test]
fn init_keeps_statistics() {
    let mut p = Profiler::new();
    let b = p.begin_scope("kept");
    p.end_scope_after(b, 12);
    init(&mut p);
    assert_eq!(p.anchor_count(), 2);
    assert_eq!(p.anchor(1).calls(), 1);
    assert_eq!(p.anchor(1).elapsed_inclusive(), 12);
    assert!(p.session_elapsed() <= p.report().total);
}

#[test]
fn calibration_scales_a_hundred_milliseconds_to_a_second() {
    assert_eq!(CALIBRATION_MILLIS, 100);
    assert_eq!(cycles_per_second(1_000, 301_000), 3_000_000);
    assert_eq!(cycles_per_second(0, 250_000_000), 2_500_000_000);
}

#[test]
fn calibration_never_gives_zero() {
    assert_eq!(cycles_per_second(500, 500), 1);
    assert_eq!(cycles_per_second(900, 100), 1);
    assert_eq!(cycles_per_second(0, u64::MAX), u64::MAX);
    assert_eq!(cycles_per_second(0, u64::MAX / 10), (u64::MAX / 10) * 10);
}

#[test]
fn elapsed_ticks_never_negative() {
    assert_eq!(elapsed_ticks(10, 25), 15);
    assert_eq!(elapsed_ticks(25, 10), 0);
    assert_eq!(elapsed_ticks(7, 7), 0);
}

#[test]
fn throughput_uses_the_tick_rate() {
    let mut p = Profiler::new();
    let b = p.begin_scope("copy");
    p.add_bytes(b.anchor_id(), 1_048_576);
    let rate = cycles_per_second(0, 300_000_000);
    assert_eq!(rate, 3_000_000_000);
    p.end_scope_after(b, rate / 2);
    let lines = p.report_at(rate, rate);
    assert_eq!(lines[0].bytes_per_second, Some(2 * 1_048_576));
    assert_eq!(lines[0].inclusive_ppm, 500_000);
}

#[test]
fn report_never_lists_the_root() {
    let mut p = Profiler::new();
    let b = p.begin_scope("top");
    p.end_scope_after(b, 9);
    let lines = p.report_at(9, NANOS_PER_SECOND);
    assert_eq!(lines.len(), 1);
    assert_eq!(lines[0].anchor_id, 1);
    assert_eq!(p.anchor(0).calls(), 0);
    assert_eq!(p.report().lines.iter().filter(|l| l.anchor_id == 0).count(), 0);
}

#[test]
fn many_lookups_keep_one_entry() {
    let mut p = Profiler::new();
    p.get_anchor_id("first");
    for _ in 0..5 {
        assert_eq!(p.get_anchor_id("again"), 2);
    }
    assert_eq!(p.anchor_count(), 3);
}
