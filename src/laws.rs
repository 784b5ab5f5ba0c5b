//! Properties of the attribution engine, stated over the model and proved.
use vstd::prelude::*;
use vstd::arithmetic::div_mod::lemma_mod_multiples_vanish;
use crate::model::{AnchorView, BlockView, ProfilerView, begin, finish, register};
use crate::report::report_lines;

verus! {

/// The number of values a 64-bit counter takes before it wraps around.
pub open spec fn wrap() -> int {
    u64::MAX as int + 1
}

/// `k` times the wrap-around modulus.
pub open spec fn wraps(k: int) -> int {
    k * wrap()
}

/// The sum of the exclusive times of `anchors`, as an unbounded integer.
pub open spec fn exclusive_sum(anchors: Seq<AnchorView>) -> int
    decreases anchors.len(),
{
    if anchors.len() == 0 {
        0
    } else {
        exclusive_sum(anchors.drop_last()) + anchors.last().elapsed_exclusive
    }
}

/// The sum of the exclusive times of the user anchors: all but the root.
pub open spec fn user_exclusive_sum(anchors: Seq<AnchorView>) -> int {
    exclusive_sum(anchors) - anchors[0].elapsed_exclusive
}

proof fn lemma_exclusive_sum_update(s: Seq<AnchorView>, k: int, v: AnchorView)
    requires
        0 <= k < s.len(),
    ensures
        exclusive_sum(s.update(k, v)) == exclusive_sum(s) - s[k].elapsed_exclusive
            + v.elapsed_exclusive,
    decreases s.len(),
{
    let t = s.update(k, v);
    if k == s.len() - 1 {
        assert(t.drop_last() =~= s.drop_last());
    } else {
        lemma_exclusive_sum_update(s.drop_last(), k, v);
        assert(t.drop_last() =~= s.drop_last().update(k, v));
    }
}

/// Looking the same name up twice gives the same id both times, leaves the
/// registry as the first lookup left it, and that id is the only user anchor
/// with the name.
pub proof fn lemma_lookup_is_stable(p: ProfilerView, name: Seq<char>)
    requires
        p.wf(),
        p.anchors.len() < usize::MAX,
    ensures
        register(p, name).0.wf(),
        register(register(p, name).0, name) == register(p, name),
        forall|i: int|
            1 <= i < register(p, name).0.anchors.len() ==> (
            #[trigger] register(p, name).0.anchors[i].name == name <==> i == register(p, name).1),
{
    let (q, id) = register(p, name);
    if p.has_name(name) {
        assert(1 <= id < q.anchors.len() && q.anchors[id as int].name == name);
    } else {
        assert(q.anchors[p.anchors.len() as int] == crate::model::fresh_anchor(name));
        assert(q.anchors[0] == p.anchors[0]);
        assert forall|i: int, j: int|
            1 <= i < j < q.anchors.len() implies q.anchors[i].name != q.anchors[j].name by {
            if j == p.anchors.len() {
                assert(p.anchors[i].name != name);
            }
        }
        assert(q.anchors[id as int].name == name);
        assert(q.has_name(name));
    }
    assert forall|i: int| 1 <= i < q.anchors.len() && #[trigger] q.anchors[i].name == name implies i
        == id by {
        if i < id {
            assert(q.anchors[i].name != q.anchors[id as int].name);
        } else if i > id {
            assert(q.anchors[id as int].name != q.anchors[i].name);
        }
    }
}

proof fn lemma_close_shift(p: ProfilerView, b: BlockView, elapsed: u64)
    requires
        p.wf(),
        1 <= b.anchor_id < p.anchors.len(),
        b.parent_id < p.anchors.len(),
    ensures
        finish(p, b, elapsed).wf(),
        ({
            let before = exclusive_sum(p.anchors);
            let after = exclusive_sum(finish(p, b, elapsed).anchors);
            after == before || after == before + wrap() || after == before - wrap()
        }),
        ({
            let ub = user_exclusive_sum(p.anchors);
            let ua = user_exclusive_sum(finish(p, b, elapsed).anchors);
            let step: int = if b.parent_id == 0 { elapsed as int } else { 0 };
            ua == ub + step || ua == ub + step + wrap() || ua == ub + step - wrap()
        }),
{
    let r = finish(p, b, elapsed);
    let par = p.anchors[b.parent_id as int];
    let a1 = p.anchors.update(
        b.parent_id as int,
        AnchorView { elapsed_exclusive: par.elapsed_exclusive.wrapping_sub(elapsed), ..par },
    );
    let a2 = r.anchors;
    lemma_exclusive_sum_update(p.anchors, b.parent_id as int, a1[b.parent_id as int]);
    lemma_exclusive_sum_update(a1, b.anchor_id as int, a2[b.anchor_id as int]);
    assert(a2 =~= a1.update(b.anchor_id as int, a2[b.anchor_id as int]));
    assert forall|i: int| 0 <= i < r.anchors.len() implies #[trigger] r.anchors[i].name
        == p.anchors[i].name by {}
}

/// The state and id after looking `name` up `k` times in a row.
pub open spec fn lookup_times(p: ProfilerView, name: Seq<char>, k: nat) -> (ProfilerView, usize)
    decreases k,
{
    if k <= 1 {
        register(p, name)
    } else {
        register(lookup_times(p, name, (k - 1) as nat).0, name)
    }
}

/// Looking a name up any number of times in a row gives what the first
/// lookup gave: one id, exactly one user anchor with the name, and a registry
/// that grew by one entry only if the name was new.
pub proof fn lemma_repeated_lookup(p: ProfilerView, name: Seq<char>, k: nat)
    requires
        p.wf(),
        p.anchors.len() < usize::MAX,
        k >= 1,
    ensures
        lookup_times(p, name, k) == register(p, name),
        lookup_times(p, name, k).0.anchors.len() == p.anchors.len() + (if p.has_name(name) {
            0int
        } else {
            1int
        }),
        forall|i: int|
            1 <= i < lookup_times(p, name, k).0.anchors.len() ==> (
            #[trigger] lookup_times(p, name, k).0.anchors[i].name == name <==> i == lookup_times(
                p,
                name,
                k,
            ).1),
    decreases k,
{
    lemma_lookup_is_stable(p, name);
    if k > 1 {
        lemma_repeated_lookup(p, name, (k - 1) as nat);
    }
}

/// One step of a single-threaded session: open a block on an anchor, or close
/// the innermost open block after it ran for the given ticks.
pub enum Step {
    Open(usize),
    Close(u64),
}

/// Runs `steps` from state `p` with the blocks `open` still open, innermost
/// last. None when a step opens a block on the root or on an unknown anchor,
/// or closes a block when none is open.
pub open spec fn run_steps(p: ProfilerView, open: Seq<BlockView>, steps: Seq<Step>) -> Option<
    (ProfilerView, Seq<BlockView>),
>
    decreases steps.len(),
{
    if steps.len() == 0 {
        Some((p, open))
    } else {
        match steps[0] {
            Step::Open(id) => if 1 <= id < p.anchors.len() {
                run_steps(begin(p, id).0, open.push(begin(p, id).1), steps.drop_first())
            } else {
                None
            },
            Step::Close(elapsed) => if open.len() > 0 {
                run_steps(finish(p, open.last(), elapsed), open.drop_last(), steps.drop_first())
            } else {
                None
            },
        }
    }
}

/// The ticks of the blocks in `steps` that close with no other block open
/// around them, `depth` blocks being open before the first step.
pub open spec fn top_level_time(depth: int, steps: Seq<Step>) -> int
    decreases steps.len(),
{
    if steps.len() == 0 {
        0
    } else {
        match steps[0] {
            Step::Open(_) => top_level_time(depth + 1, steps.drop_first()),
            Step::Close(elapsed) => (if depth == 1 {
                elapsed as int
            } else {
                0
            }) + top_level_time(depth - 1, steps.drop_first()),
        }
    }
}

/// The open blocks form a chain from the root: the outermost one's parent is
/// the root, each other's parent is the anchor of the block around it, and the
/// active id is the innermost block's anchor, or the root when none is open.
pub open spec fn open_chain(p: ProfilerView, open: Seq<BlockView>) -> bool {
    &&& p.wf()
    &&& forall|k: int| 0 <= k < open.len() ==> 1 <= #[trigger] open[k].anchor_id < p.anchors.len()
    &&& forall|k: int|
        0 <= k < open.len() ==> #[trigger] open[k].parent_id == (if k == 0 {
            0
        } else {
            open[k - 1].anchor_id
        })
    &&& p.active == (if open.len() == 0 {
        0
    } else {
        open.last().anchor_id
    })
}

proof fn lemma_run_shift(p: ProfilerView, open: Seq<BlockView>, steps: Seq<Step>)
    requires
        open_chain(p, open),
        run_steps(p, open, steps) is Some,
    ensures
        ({
            let q = run_steps(p, open, steps).unwrap().0;
            &&& exists|k: int|
                exclusive_sum(q.anchors) == exclusive_sum(p.anchors) + #[trigger] wraps(k)
            &&& exists|k: int|
                user_exclusive_sum(q.anchors) == user_exclusive_sum(p.anchors) + top_level_time(
                    open.len() as int,
                    steps,
                ) + #[trigger] wraps(k)
        }),
    decreases steps.len(),
{
    let rest = steps.drop_first();
    if steps.len() == 0 {
        assert(exclusive_sum(p.anchors) == exclusive_sum(p.anchors) + wraps(0));
        assert(user_exclusive_sum(p.anchors) == user_exclusive_sum(p.anchors) + top_level_time(
            open.len() as int,
            steps,
        ) + wraps(0));
    } else {
        let q = run_steps(p, open, steps).unwrap().0;
        match steps[0] {
            Step::Open(id) => {
                let (p1, b) = begin(p, id);
                let open1 = open.push(b);
                assert(open_chain(p1, open1)) by {
                    assert forall|k: int| 0 <= k < open1.len() implies #[trigger] open1[k].parent_id
                        == (if k == 0 {
                        0
                    } else {
                        open1[k - 1].anchor_id
                    }) by {
                        if k < open.len() {
                            assert(open1[k] == open[k]);
                        }
                    }
                }
                lemma_run_shift(p1, open1, rest);
            },
            Step::Close(elapsed) => {
                let b = open.last();
                let p1 = finish(p, b, elapsed);
                let open1 = open.drop_last();
                lemma_close_shift(p, b, elapsed);
                assert(b.parent_id == 0 <==> open.len() == 1) by {
                    if open.len() > 1 {
                        assert(open[open.len() - 1].parent_id == open[open.len() - 2].anchor_id);
                    }
                }
                assert(open_chain(p1, open1)) by {
                    assert forall|k: int| 0 <= k < open1.len() implies #[trigger] open1[k].parent_id
                        == (if k == 0 {
                        0
                    } else {
                        open1[k - 1].anchor_id
                    }) by {
                        assert(open1[k] == open[k]);
                    }
                    if open1.len() > 0 {
                        assert(open[open.len() - 1].parent_id == open[open.len() - 2].anchor_id);
                    }
                }
                lemma_run_shift(p1, open1, rest);
                let k1 = choose|k: int|
                    exclusive_sum(q.anchors) == exclusive_sum(p1.anchors) + wraps(k);
                let k2 = choose|k: int|
                    user_exclusive_sum(q.anchors) == user_exclusive_sum(p1.anchors)
                        + top_level_time(open1.len() as int, rest) + wraps(k);
                let before = exclusive_sum(p.anchors);
                let after = exclusive_sum(p1.anchors);
                if after == before {
                    assert(exclusive_sum(q.anchors) == before + wraps(k1));
                } else if after == before + wrap() {
                    assert(exclusive_sum(q.anchors) == before + wraps(k1 + 1));
                } else {
                    assert(exclusive_sum(q.anchors) == before + wraps(k1 - 1));
                }
                let ub = user_exclusive_sum(p.anchors);
                let ua = user_exclusive_sum(p1.anchors);
                let t = top_level_time(open.len() as int, steps);
                let step: int = if b.parent_id == 0 { elapsed as int } else { 0 };
                assert(t == step + top_level_time(open1.len() as int, rest));
                if ua == ub + step {
                    assert(user_exclusive_sum(q.anchors) == ub + t + wraps(k2));
                } else if ua == ub + step + wrap() {
                    assert(user_exclusive_sum(q.anchors) == ub + t + wraps(k2 + 1));
                } else {
                    assert(user_exclusive_sum(q.anchors) == ub + t + wraps(k2 - 1));
                }
            },
        }
    }
}

/// Exclusive time partitions a whole session: for any sequence of properly
/// nested block openings and closings on one thread, starting with no block
/// open, the exclusive times of all anchors keep their sum, and the user
/// anchors' exclusive times grow by exactly the time spent in top-level
/// blocks, which is the session's length when top-level blocks cover it.
/// Counters wrap, so sums are compared modulo 2^64.
pub proof fn lemma_session_partition(p: ProfilerView, steps: Seq<Step>)
    requires
        p.wf(),
        p.active == 0,
        run_steps(p, Seq::empty(), steps) is Some,
    ensures
        ({
            let q = run_steps(p, Seq::empty(), steps).unwrap().0;
            &&& exclusive_sum(q.anchors) % wrap() == exclusive_sum(p.anchors) % wrap()
            &&& user_exclusive_sum(q.anchors) % wrap() == (user_exclusive_sum(p.anchors)
                + top_level_time(0, steps)) % wrap()
        }),
{
    let q = run_steps(p, Seq::empty(), steps).unwrap().0;
    lemma_run_shift(p, Seq::empty(), steps);
    let k1 = choose|k: int| exclusive_sum(q.anchors) == exclusive_sum(p.anchors) + wraps(k);
    let k2 = choose|k: int|
        user_exclusive_sum(q.anchors) == user_exclusive_sum(p.anchors) + top_level_time(0, steps)
            + wraps(k);
    lemma_mod_multiples_vanish(k1, exclusive_sum(p.anchors), wrap());
    lemma_mod_multiples_vanish(
        k2,
        user_exclusive_sum(p.anchors) + top_level_time(0, steps),
        wrap(),
    );
    assert(wrap() * k1 + exclusive_sum(p.anchors) == exclusive_sum(q.anchors)) by (nonlinear_arith)
        requires
            exclusive_sum(q.anchors) == exclusive_sum(p.anchors) + k1 * wrap(),
    ;
    assert(wrap() * k2 + (user_exclusive_sum(p.anchors) + top_level_time(0, steps))
        == user_exclusive_sum(q.anchors)) by (nonlinear_arith)
        requires
            user_exclusive_sum(q.anchors) == user_exclusive_sum(p.anchors) + top_level_time(0, steps)
                + k2 * wrap(),
    ;
}

/// Runs `spans.len()` blocks on anchor `id`, each opened inside the one
/// before it and closed before it, the block at depth `k` running for
/// `spans[k]` ticks.
pub open spec fn run_nested(p: ProfilerView, id: usize, spans: Seq<u64>) -> ProfilerView
    decreases spans.len(),
{
    if spans.len() == 0 {
        p
    } else {
        let (q, b) = begin(p, id);
        finish(run_nested(q, id, spans.drop_first()), b, spans[0])
    }
}

proof fn lemma_nested_inside_itself(p: ProfilerView, id: usize, spans: Seq<u64>)
    requires
        1 <= id < p.anchors.len(),
        p.active == id,
        p.anchors[id as int].calls + spans.len() <= usize::MAX,
    ensures
        ({
            let r = run_nested(p, id, spans);
            &&& r.active == id
            &&& r.anchors.len() == p.anchors.len()
            &&& forall|j: int|
                0 <= j < p.anchors.len() && j != id ==> #[trigger] r.anchors[j] == p.anchors[j]
            &&& r.anchors[id as int].name == p.anchors[id as int].name
            &&& r.anchors[id as int].elapsed_exclusive == p.anchors[id as int].elapsed_exclusive
            &&& r.anchors[id as int].calls == p.anchors[id as int].calls + spans.len()
        }),
    decreases spans.len(),
{
    if spans.len() > 0 {
        let (q, b) = begin(p, id);
        assert(q == p);
        lemma_nested_inside_itself(q, id, spans.drop_first());
    }
}

/// Recursion: a block on anchor `id` that re-enters itself to depth
/// `spans.len()` before unwinding counts that many calls. The anchor's
/// inclusive time grows by the outermost block's span only, not by the sum of
/// all spans, and its exclusive time grows by the same amount: the self-time
/// slices of all levels together. That time is taken from the block that was
/// active before, which becomes active again.
pub proof fn lemma_recursion(p: ProfilerView, id: usize, spans: Seq<u64>)
    requires
        p.wf(),
        1 <= id < p.anchors.len(),
        p.active != id,
        spans.len() >= 1,
        p.anchors[id as int].calls + spans.len() <= usize::MAX,
        p.anchors[id as int].elapsed_exclusive + spans[0] <= u64::MAX,
        p.anchors[id as int].elapsed_inclusive + spans[0] <= u64::MAX,
    ensures
        ({
            let r = run_nested(p, id, spans);
            &&& r.wf()
            &&& r.active == p.active
            &&& r.anchors[id as int].calls == p.anchors[id as int].calls + spans.len()
            &&& r.anchors[id as int].elapsed_inclusive == p.anchors[id as int].elapsed_inclusive
                + spans[0]
            &&& r.anchors[id as int].elapsed_exclusive == p.anchors[id as int].elapsed_exclusive
                + spans[0]
            &&& r.anchors[p.active as int].elapsed_exclusive == p.anchors[p.active as int].elapsed_exclusive.wrapping_sub(spans[0])
        }),
{
    let (q, b) = begin(p, id);
    let inner = run_nested(q, id, spans.drop_first());
    lemma_nested_inside_itself(q, id, spans.drop_first());
    let r = run_nested(p, id, spans);
    assert(r == finish(inner, b, spans[0]));
    assert(inner.anchors[p.active as int] == p.anchors[p.active as int]);
    assert forall|i: int| 0 <= i < r.anchors.len() implies #[trigger] r.anchors[i].name
        == p.anchors[i].name by {
        if i != id {
            assert(inner.anchors[i] == p.anchors[i]);
        }
    }
}

/// An anchor's exclusive time stays within its inclusive time: a block on a
/// user anchor that closes with no other block opened inside it, or that only
/// re-enters itself, keeps exclusive time at most inclusive time.
pub proof fn lemma_self_time_within_total(p: ProfilerView, id: usize, spans: Seq<u64>)
    requires
        p.wf(),
        1 <= id < p.anchors.len(),
        p.active != id,
        spans.len() >= 1,
        p.anchors[id as int].calls + spans.len() <= usize::MAX,
        p.anchors[id as int].elapsed_exclusive <= p.anchors[id as int].elapsed_inclusive,
        p.anchors[id as int].elapsed_inclusive + spans[0] <= u64::MAX,
    ensures
        run_nested(p, id, spans).anchors[id as int].elapsed_exclusive <= run_nested(
            p,
            id,
            spans,
        ).anchors[id as int].elapsed_inclusive,
{
    lemma_recursion(p, id, spans);
}

/// Reporting is repeatable: two reports of one state list the same anchors
/// with the same call counts, durations, byte counts and throughput whatever
/// the session lengths, and are identical when the session lengths are equal.
pub proof fn lemma_report_repeatable(
    anchors: Seq<AnchorView>,
    rate: u64,
    t1: u64,
    t2: u64,
    n: int,
)
    ensures
        report_lines(anchors, t1, rate, n).len() == report_lines(anchors, t2, rate, n).len(),
        forall|i: int|
            0 <= i < report_lines(anchors, t1, rate, n).len() ==> {
                let a = #[trigger] report_lines(anchors, t1, rate, n)[i];
                let b = report_lines(anchors, t2, rate, n)[i];
                &&& a.anchor_id == b.anchor_id
                &&& a.calls == b.calls
                &&& a.inclusive == b.inclusive
                &&& a.exclusive == b.exclusive
                &&& a.bytes == b.bytes
                &&& a.bytes_per_second == b.bytes_per_second
            },
        t1 == t2 ==> report_lines(anchors, t1, rate, n) == report_lines(anchors, t2, rate, n),
    decreases n,
{
    if n > 0 {
        lemma_report_repeatable(anchors, rate, t1, t2, n - 1);
    }
}

/// The anchor of the block that encloses the innermost open block of
/// `stack` (anchor ids, innermost last): the root when there is none.
pub open spec fn enclosing(stack: Seq<usize>) -> usize {
    if stack.len() >= 2 {
        stack[stack.len() - 2]
    } else {
        0
    }
}

/// How many blocks on anchor `a` close during `steps`, the anchors of the
/// blocks open before the first step being `stack`, innermost last.
pub open spec fn closes_on(a: usize, stack: Seq<usize>, steps: Seq<Step>) -> int
    decreases steps.len(),
{
    if steps.len() == 0 {
        0
    } else {
        match steps[0] {
            Step::Open(id) => closes_on(a, stack.push(id), steps.drop_first()),
            Step::Close(_) => (if stack.len() > 0 && stack.last() == a {
                1int
            } else {
                0
            }) + closes_on(a, stack.drop_last(), steps.drop_first()),
        }
    }
}

/// The self time of anchor `a` during `steps`: the spans of its blocks that
/// close, less the spans of the blocks that close directly inside one of them.
pub open spec fn self_slices(a: usize, stack: Seq<usize>, steps: Seq<Step>) -> int
    decreases steps.len(),
{
    if steps.len() == 0 {
        0
    } else {
        match steps[0] {
            Step::Open(id) => self_slices(a, stack.push(id), steps.drop_first()),
            Step::Close(elapsed) => (if stack.len() > 0 && stack.last() == a {
                elapsed as int
            } else {
                0
            }) - (if stack.len() > 0 && enclosing(stack) == a {
                elapsed as int
            } else {
                0
            }) + self_slices(a, stack.drop_last(), steps.drop_first()),
        }
    }
}

/// The anchor ids of the open blocks, innermost last.
pub open spec fn anchors_of(open: Seq<BlockView>) -> Seq<usize> {
    open.map_values(|b: BlockView| b.anchor_id)
}

proof fn lemma_run_accounts(p: ProfilerView, open: Seq<BlockView>, steps: Seq<Step>, a: usize)
    requires
        open_chain(p, open),
        run_steps(p, open, steps) is Some,
        1 <= a < p.anchors.len(),
        p.anchors[a as int].calls + closes_on(a, anchors_of(open), steps) <= usize::MAX,
    ensures
        ({
            let q = run_steps(p, open, steps).unwrap().0;
            &&& q.anchors.len() == p.anchors.len()
            &&& q.anchors[a as int].calls == p.anchors[a as int].calls + closes_on(
                a,
                anchors_of(open),
                steps,
            )
            &&& exists|k: int|
                q.anchors[a as int].elapsed_exclusive == p.anchors[a as int].elapsed_exclusive
                    + self_slices(a, anchors_of(open), steps) + #[trigger] wraps(k)
        }),
    decreases steps.len(),
{
    let stack = anchors_of(open);
    let rest = steps.drop_first();
    let x0 = p.anchors[a as int].elapsed_exclusive;
    if steps.len() == 0 {
        assert(x0 == x0 + self_slices(a, stack, steps) + wraps(0));
    } else {
        let q = run_steps(p, open, steps).unwrap().0;
        match steps[0] {
            Step::Open(id) => {
                let (p1, b) = begin(p, id);
                let open1 = open.push(b);
                assert(anchors_of(open1) =~= stack.push(id));
                assert(open_chain(p1, open1)) by {
                    assert forall|k: int| 0 <= k < open1.len() implies #[trigger] open1[k].parent_id
                        == (if k == 0 {
                        0
                    } else {
                        open1[k - 1].anchor_id
                    }) by {
                        if k < open.len() {
                            assert(open1[k] == open[k]);
                        }
                    }
                }
                lemma_run_accounts(p1, open1, rest, a);
                let k = choose|k: int|
                    q.anchors[a as int].elapsed_exclusive == p1.anchors[a as int].elapsed_exclusive
                        + self_slices(a, anchors_of(open1), rest) + wraps(k);
                assert(q.anchors[a as int].elapsed_exclusive == x0 + self_slices(a, stack, steps)
                    + wraps(k));
            },
            Step::Close(elapsed) => {
                let b = open.last();
                let p1 = finish(p, b, elapsed);
                let open1 = open.drop_last();
                lemma_close_shift(p, b, elapsed);
                assert(anchors_of(open1) =~= stack.drop_last());
                assert(stack.last() == b.anchor_id);
                assert(enclosing(stack) == b.parent_id) by {
                    if open.len() > 1 {
                        assert(open[open.len() - 1].parent_id == open[open.len() - 2].anchor_id);
                    }
                }
                assert(open_chain(p1, open1)) by {
                    assert forall|k: int| 0 <= k < open1.len() implies #[trigger] open1[k].parent_id
                        == (if k == 0 {
                        0
                    } else {
                        open1[k - 1].anchor_id
                    }) by {
                        assert(open1[k] == open[k]);
                    }
                    if open1.len() > 0 {
                        assert(open[open.len() - 1].parent_id == open[open.len() - 2].anchor_id);
                    }
                }
                lemma_run_accounts(p1, open1, rest, a);
                let k = choose|k: int|
                    q.anchors[a as int].elapsed_exclusive == p1.anchors[a as int].elapsed_exclusive
                        + self_slices(a, anchors_of(open1), rest) + wraps(k);
                let x1 = p1.anchors[a as int].elapsed_exclusive;
                let gain: int = (if b.anchor_id == a {
                    elapsed as int
                } else {
                    0
                }) - (if b.parent_id == a {
                    elapsed as int
                } else {
                    0
                });
                assert(x1 == x0 + gain || x1 == x0 + gain + wrap() || x1 == x0 + gain - wrap()
                    || x1 == x0 + gain + 2 * wrap() || x1 == x0 + gain - 2 * wrap());
                let t = self_slices(a, stack, steps);
                assert(t == gain + self_slices(a, anchors_of(open1), rest));
                if x1 == x0 + gain {
                    assert(q.anchors[a as int].elapsed_exclusive == x0 + t + wraps(k));
                } else if x1 == x0 + gain + wrap() {
                    assert(q.anchors[a as int].elapsed_exclusive == x0 + t + wraps(k + 1));
                } else if x1 == x0 + gain - wrap() {
                    assert(q.anchors[a as int].elapsed_exclusive == x0 + t + wraps(k - 1));
                } else if x1 == x0 + gain + 2 * wrap() {
                    assert(q.anchors[a as int].elapsed_exclusive == x0 + t + wraps(k + 2));
                } else {
                    assert(q.anchors[a as int].elapsed_exclusive == x0 + t + wraps(k - 2));
                }
            },
        }
    }
}

/// Per-anchor accounting over a whole session, recursion and other anchors
/// nested alike: for any properly nested sequence of openings and closings on
/// one thread, starting with no block open, each user anchor counts one call
/// per block of its own that closes, whatever its depth, and its exclusive
/// time grows by the self-time slices of those blocks: their spans less the
/// spans of the blocks that closed directly inside them. Exclusive times wrap,
/// so they are compared modulo 2^64.
pub proof fn lemma_session_accounting(p: ProfilerView, steps: Seq<Step>, a: usize)
    requires
        p.wf(),
        p.active == 0,
        run_steps(p, Seq::empty(), steps) is Some,
        1 <= a < p.anchors.len(),
        p.anchors[a as int].calls + closes_on(a, Seq::empty(), steps) <= usize::MAX,
    ensures
        ({
            let q = run_steps(p, Seq::empty(), steps).unwrap().0;
            &&& q.anchors[a as int].calls == p.anchors[a as int].calls + closes_on(
                a,
                Seq::empty(),
                steps,
            )
            &&& (q.anchors[a as int].elapsed_exclusive as int) % wrap() == (
            p.anchors[a as int].elapsed_exclusive + self_slices(a, Seq::empty(), steps)) % wrap()
        }),
{
    let q = run_steps(p, Seq::empty(), steps).unwrap().0;
    assert(anchors_of(Seq::<BlockView>::empty()) =~= Seq::<usize>::empty());
    lemma_run_accounts(p, Seq::empty(), steps, a);
    let x = p.anchors[a as int].elapsed_exclusive + self_slices(a, Seq::empty(), steps);
    let k = choose|k: int| q.anchors[a as int].elapsed_exclusive == x + wraps(k);
    lemma_mod_multiples_vanish(k, x, wrap());
    assert(wrap() * k + x == q.anchors[a as int].elapsed_exclusive) by (nonlinear_arith)
        requires
            q.anchors[a as int].elapsed_exclusive == x + k * wrap(),
    ;
}

/// Recursion, with any blocks nested inside: when the outermost block on
/// anchor `a` closes, the anchor's inclusive time is what it was when that
/// block opened plus the block's own span, whatever closed inside it, the
/// anchor's own inner blocks included.
pub proof fn lemma_outermost_inclusive(p: ProfilerView, a: usize, inside: ProfilerView, elapsed: u64)
    requires
        p.wf(),
        1 <= a < p.anchors.len(),
        inside.wf(),
        a < inside.anchors.len(),
        begin(p, a).1.parent_id < inside.anchors.len(),
    ensures
        finish(inside, begin(p, a).1, elapsed).anchors[a as int].elapsed_inclusive
            == p.anchors[a as int].elapsed_inclusive.wrapping_add(elapsed),
{
}

} // verus!
