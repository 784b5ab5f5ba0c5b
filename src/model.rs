//! The mathematical model of the profiler state and of its operations.
use vstd::prelude::*;

verus! {

/// What an anchor holds: its name and its counters.
pub struct AnchorView {
    pub name: Seq<char>,
    pub elapsed_exclusive: u64,
    pub elapsed_inclusive: u64,
    pub calls: usize,
    pub bytes: usize,
}

/// What an open block remembers: its anchor, the anchor that was active when
/// it opened, and its anchor's inclusive time at that moment.
pub struct BlockView {
    pub anchor_id: usize,
    pub parent_id: usize,
    pub snapshot_inclusive: u64,
}

/// The profiler's registry, in first-use order, and the active anchor id.
pub struct ProfilerView {
    pub anchors: Seq<AnchorView>,
    pub active: usize,
}

/// An anchor with the given name and all counters at zero.
pub open spec fn fresh_anchor(name: Seq<char>) -> AnchorView {
    AnchorView { name, elapsed_exclusive: 0, elapsed_inclusive: 0, calls: 0, bytes: 0 }
}

/// The state of a profiler that has just been made: only the root anchor.
pub open spec fn initial_state() -> ProfilerView {
    ProfilerView { anchors: seq![fresh_anchor(Seq::empty())], active: 0 }
}

impl ProfilerView {
    /// The root anchor (id 0, empty name, never called) exists, the active id
    /// names an anchor, and no two user anchors share a name.
    pub open spec fn wf(self) -> bool {
        &&& 1 <= self.anchors.len() <= usize::MAX
        &&& self.anchors[0].name == Seq::<char>::empty()
        &&& self.anchors[0].calls == 0
        &&& self.active < self.anchors.len()
        &&& forall|i: int, j: int|
            1 <= i < j < self.anchors.len() ==> self.anchors[i].name != self.anchors[j].name
    }

    /// A user anchor (never the root) is named `name`.
    pub open spec fn has_name(self, name: Seq<char>) -> bool {
        exists|i: int| 1 <= i < self.anchors.len() && self.anchors[i].name == name
    }
}

/// Looking a name up: the id of the user anchor with that name, appended at
/// the end of the registry when there is none yet.
pub open spec fn register(p: ProfilerView, name: Seq<char>) -> (ProfilerView, usize) {
    if p.has_name(name) {
        (p, (choose|i: int| 1 <= i < p.anchors.len() && p.anchors[i].name == name) as usize)
    } else {
        (
            ProfilerView { anchors: p.anchors.push(fresh_anchor(name)), active: p.active },
            p.anchors.len() as usize,
        )
    }
}

/// Opening a block on anchor `id`: the block records the active id and the
/// anchor's inclusive time, and `id` becomes active.
pub open spec fn begin(p: ProfilerView, id: usize) -> (ProfilerView, BlockView) {
    (
        ProfilerView { anchors: p.anchors, active: id },
        BlockView {
            anchor_id: id,
            parent_id: p.active,
            snapshot_inclusive: p.anchors[id as int].elapsed_inclusive,
        },
    )
}

/// Closing block `b` after `elapsed` ticks: the parent becomes active again
/// and loses `elapsed` of its self time, the anchor gains it, the anchor's
/// inclusive time becomes the snapshot plus `elapsed`, and one more call is
/// counted. Counters wrap around at their type's bound.
pub open spec fn finish(p: ProfilerView, b: BlockView, elapsed: u64) -> ProfilerView {
    let par = p.anchors[b.parent_id as int];
    let a1 = p.anchors.update(
        b.parent_id as int,
        AnchorView { elapsed_exclusive: par.elapsed_exclusive.wrapping_sub(elapsed), ..par },
    );
    let x = a1[b.anchor_id as int];
    let a2 = a1.update(
        b.anchor_id as int,
        AnchorView {
            elapsed_exclusive: x.elapsed_exclusive.wrapping_add(elapsed),
            elapsed_inclusive: b.snapshot_inclusive.wrapping_add(elapsed),
            calls: x.calls.wrapping_add(1),
            ..x
        },
    );
    ProfilerView { anchors: a2, active: b.parent_id }
}

/// Adding `n` bytes to anchor `id`'s throughput count.
pub open spec fn add_bytes(p: ProfilerView, id: usize, n: usize) -> ProfilerView {
    let x = p.anchors[id as int];
    ProfilerView {
        anchors: p.anchors.update(id as int, AnchorView { bytes: (x.bytes + n) as usize, ..x }),
        active: p.active,
    }
}

} // verus!
