//! The summary of accumulated statistics, in registry order.
use vstd::prelude::*;
use crate::model::AnchorView;
use crate::clock::NANOS_PER_SECOND;
use crate::profiler::Profiler;

verus! {

/// Parts per million: a share of 1_000_000 is the whole session.
pub const PPM: u64 = 1_000_000;

/// One report line: an anchor's statistics and their share of the session.
pub struct ReportLine {
    pub anchor_id: usize,
    pub calls: usize,
    /// Inclusive ticks and their share of the session in parts per million.
    pub inclusive: u64,
    pub inclusive_ppm: u128,
    /// Exclusive ticks and their share of the session in parts per million.
    pub exclusive: u64,
    pub exclusive_ppm: u128,
    pub bytes: usize,
    /// Bytes per second over the inclusive time; none when no bytes were added.
    pub bytes_per_second: Option<u128>,
}

/// The session's length in ticks and one line per anchor that has calls.
pub struct Report {
    pub total: u64,
    pub lines: Vec<ReportLine>,
}

/// `part` as parts per million of `total`, rounded down; a session of zero
/// ticks counts as one tick.
pub open spec fn share_ppm(part: u64, total: u64) -> u128 {
    (part * PPM / (if total == 0 { 1 } else { total as int })) as u128
}

/// Bytes per second moved in `inclusive` ticks of a timer running at
/// `ticks_per_second`, rounded down; an interval of zero ticks counts as one
/// tick. None when no bytes were counted.
pub open spec fn throughput(bytes: usize, inclusive: u64, ticks_per_second: u64) -> Option<u128> {
    if bytes == 0 {
        None
    } else {
        Some((bytes * ticks_per_second / (if inclusive == 0 { 1 } else { inclusive as int })) as u128)
    }
}

/// The report line of anchor `id` in a session of `total` ticks.
pub open spec fn line_of(id: int, a: AnchorView, total: u64, ticks_per_second: u64) -> ReportLine {
    ReportLine {
        anchor_id: id as usize,
        calls: a.calls,
        inclusive: a.elapsed_inclusive,
        inclusive_ppm: share_ppm(a.elapsed_inclusive, total),
        exclusive: a.elapsed_exclusive,
        exclusive_ppm: share_ppm(a.elapsed_exclusive, total),
        bytes: a.bytes,
        bytes_per_second: throughput(a.bytes, a.elapsed_inclusive, ticks_per_second),
    }
}

/// The lines of the first `n` anchors: one for each that has calls, in order.
pub open spec fn report_lines(
    anchors: Seq<AnchorView>,
    total: u64,
    ticks_per_second: u64,
    n: int,
) -> Seq<ReportLine>
    decreases n,
{
    if n <= 0 {
        Seq::empty()
    } else {
        let prev = report_lines(anchors, total, ticks_per_second, n - 1);
        if anchors[n - 1].calls > 0 {
            prev.push(line_of(n - 1, anchors[n - 1], total, ticks_per_second))
        } else {
            prev
        }
    }
}

fn share_of(part: u64, total: u64) -> (r: u128)
    ensures
        r == share_ppm(part, total),
{
    let d: u64 = if total == 0 { 1 } else { total };
    (part as u128) * (PPM as u128) / (d as u128)
}

fn throughput_of(bytes: usize, inclusive: u64, ticks_per_second: u64) -> (r: Option<u128>)
    ensures
        r == throughput(bytes, inclusive, ticks_per_second),
{
    if bytes == 0 {
        None
    } else {
        let d: u64 = if inclusive == 0 { 1 } else { inclusive };
        let b = bytes as u128;
        let t = ticks_per_second as u128;
        assert(b * t <= u128::MAX) by (nonlinear_arith)
            requires
                b <= u64::MAX,
                t <= u64::MAX,
        ;
        Some(b * t / (d as u128))
    }
}

/// The report never lists an anchor that has no calls, so never the root.
pub proof fn lemma_report_skips_root(anchors: Seq<AnchorView>, total: u64, ticks_per_second: u64, n: int)
    requires
        1 <= anchors.len() <= usize::MAX,
        anchors[0].calls == 0,
        n <= anchors.len(),
    ensures
        forall|i: int|
            0 <= i < report_lines(anchors, total, ticks_per_second, n).len() ==> {
                let l = #[trigger] report_lines(anchors, total, ticks_per_second, n)[i];
                &&& 1 <= l.anchor_id < n
                &&& l.calls > 0
            },
    decreases n,
{
    if n > 0 {
        lemma_report_skips_root(anchors, total, ticks_per_second, n - 1);
        let prev = report_lines(anchors, total, ticks_per_second, n - 1);
        let cur = report_lines(anchors, total, ticks_per_second, n);
        assert forall|i: int| 0 <= i < cur.len() implies 1 <= #[trigger] cur[i].anchor_id < n
            && cur[i].calls > 0 by {
            if i < prev.len() {
                assert(cur[i] == prev[i]);
            }
        }
    }
}

impl Profiler {
    /// The report lines for a session of `total` ticks of a timer running at
    /// `ticks_per_second`; the root is never listed.
    pub fn report_at(&self, total: u64, ticks_per_second: u64) -> (r: Vec<ReportLine>)
        requires
            self@.wf(),
            ticks_per_second >= 1,
        ensures
            r@ == report_lines(self@.anchors, total, ticks_per_second, self@.anchors.len() as int),
            forall|i: int| 0 <= i < r@.len() ==> 1 <= #[trigger] r@[i].anchor_id < self@.anchors.len(),
    {
        let mut lines: Vec<ReportLine> = Vec::new();
        let n = self.anchor_count();
        let mut i: usize = 0;
        while i < n
            invariant
                n == self@.anchors.len(),
                0 <= i <= n,
                lines@ == report_lines(self@.anchors, total, ticks_per_second, i as int),
            decreases n - i,
        {
            let a = self.anchor(i);
            if a.calls() > 0 {
                let inclusive = a.elapsed_inclusive();
                let exclusive = a.elapsed_exclusive();
                let line = ReportLine {
                    anchor_id: i,
                    calls: a.calls(),
                    inclusive,
                    inclusive_ppm: share_of(inclusive, total),
                    exclusive,
                    exclusive_ppm: share_of(exclusive, total),
                    bytes: a.bytes(),
                    bytes_per_second: throughput_of(a.bytes(), inclusive, ticks_per_second),
                };
                lines.push(line);
            }
            i += 1;
        }
        proof {
            lemma_report_skips_root(self@.anchors, total, ticks_per_second, n as int);
        }
        lines
    }

    /// The report for the session up to now, timed with the wall clock, whose
    /// rate is `NANOS_PER_SECOND`; the profiler is left unchanged. A session
    /// timed with the cycle counter is reported with `report_at`.
    pub fn report(&self) -> (r: Report)
        requires
            self@.wf(),
        ensures
            r.lines@ == report_lines(
                self@.anchors,
                r.total,
                NANOS_PER_SECOND,
                self@.anchors.len() as int,
            ),
            forall|i: int|
                0 <= i < r.lines@.len() ==> 1 <= #[trigger] r.lines@[i].anchor_id
                    < self@.anchors.len(),
    {
        let total = self.session_elapsed();
        Report { total, lines: self.report_at(total, NANOS_PER_SECOND) }
    }
}

} // verus!
