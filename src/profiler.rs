//! Anchors, the profiler that owns them, and the blocks that time them.
use vstd::prelude::*;
use crate::clock::{clock_now, elapsed_ticks, nanos_since, ticks_between};
use crate::model::{AnchorView, BlockView, ProfilerView};
use crate::model;

verus! {

/// A named accumulator of timing statistics for one instrumentation site.
pub struct Anchor {
    name: String,
    elapsed_exclusive: u64,
    elapsed_inclusive: u64,
    calls: usize,
    bytes: usize,
}

impl View for Anchor {
    type V = AnchorView;

    closed spec fn view(&self) -> AnchorView {
        AnchorView {
            name: self.name@,
            elapsed_exclusive: self.elapsed_exclusive,
            elapsed_inclusive: self.elapsed_inclusive,
            calls: self.calls,
            bytes: self.bytes,
        }
    }
}

impl Anchor {
    /// A fresh anchor with the given name and all counters at zero.
    pub fn new(name: &str) -> (r: Anchor)
        ensures
            r@ == model::fresh_anchor(name@),
    {
        Anchor { name: name.to_owned(), elapsed_exclusive: 0, elapsed_inclusive: 0, calls: 0, bytes: 0 }
    }

    pub fn name(&self) -> (r: &str)
        ensures
            r@ == self@.name,
    {
        self.name.as_str()
    }

    pub fn calls(&self) -> (r: usize)
        ensures
            r == self@.calls,
    {
        self.calls
    }

    pub fn elapsed_exclusive(&self) -> (r: u64)
        ensures
            r == self@.elapsed_exclusive,
    {
        self.elapsed_exclusive
    }

    pub fn elapsed_inclusive(&self) -> (r: u64)
        ensures
            r == self@.elapsed_inclusive,
    {
        self.elapsed_inclusive
    }

    pub fn bytes(&self) -> (r: usize)
        ensures
            r == self@.bytes,
    {
        self.bytes
    }

    /// Gives up `elapsed` of self time to a block that ran inside this one.
    fn yield_time(&mut self, elapsed: u64)
        ensures
            final(self)@ == (AnchorView {
                elapsed_exclusive: old(self)@.elapsed_exclusive.wrapping_sub(elapsed),
                ..old(self)@
            }),
    {
        self.elapsed_exclusive = self.elapsed_exclusive.wrapping_sub(elapsed);
    }

    /// Counts one completed block of `elapsed` ticks that opened when the
    /// inclusive time was `snapshot`.
    fn complete(&mut self, elapsed: u64, snapshot: u64)
        ensures
            final(self)@ == (AnchorView {
                elapsed_exclusive: old(self)@.elapsed_exclusive.wrapping_add(elapsed),
                elapsed_inclusive: snapshot.wrapping_add(elapsed),
                calls: old(self)@.calls.wrapping_add(1),
                ..old(self)@
            }),
    {
        self.elapsed_exclusive = self.elapsed_exclusive.wrapping_add(elapsed);
        self.elapsed_inclusive = snapshot.wrapping_add(elapsed);
        self.calls = self.calls.wrapping_add(1);
    }

    fn add_byte_count(&mut self, n: usize)
        requires
            old(self)@.bytes + n <= usize::MAX,
        ensures
            final(self)@ == (AnchorView { bytes: (old(self)@.bytes + n) as usize, ..old(self)@ }),
    {
        self.bytes = self.bytes + n;
    }
}

/// The profiler: the anchor registry, the active anchor id, and the start of
/// the measured session.
pub struct Profiler {
    anchors: Vec<Anchor>,
    origin: std::time::Instant,
    start: u64,
    parent_id: usize,
}

impl View for Profiler {
    type V = ProfilerView;

    closed spec fn view(&self) -> ProfilerView {
        ProfilerView { anchors: self.anchors@.map_values(|a: Anchor| a@), active: self.parent_id }
    }
}

impl Profiler {
    /// The clock reading, in ticks, at which the measured session started.
    pub closed spec fn session_start(&self) -> u64 {
        self.start
    }

    /// A profiler holding only the root anchor. Its clock's origin is now, and
    /// the session starts at that origin.
    pub fn new() -> (r: Profiler)
        ensures
            r@ == model::initial_state(),
            r@.wf(),
            r.session_start() == 0,
    {
        let mut anchors: Vec<Anchor> = Vec::new();
        anchors.push(Anchor::new(""));
        let r = Profiler { anchors, origin: clock_now(), start: 0, parent_id: 0 };
        proof {
            reveal_strlit("");
            assert(r.anchors@[0]@.name =~= Seq::<char>::empty());
            assert(r@.anchors =~= model::initial_state().anchors);
        }
        r
    }

    /// The id of the user anchor named `key`, if there is one.
    fn position(&self, key: &String) -> (r: Option<usize>)
        requires
            self@.wf(),
        ensures
            match r {
                Some(i) => 1 <= i < self@.anchors.len() && self@.anchors[i as int].name == key@,
                None => !self@.has_name(key@),
            },
    {
        let mut i: usize = 1;
        while i < self.anchors.len()
            invariant
                self@.wf(),
                1 <= i <= self@.anchors.len(),
                forall|j: int| 1 <= j < i ==> #[trigger] self@.anchors[j].name != key@,
            decreases self@.anchors.len() - i,
        {
            if self.anchors[i].name == *key {
                return Some(i);
            }
            i += 1;
        }
        None
    }

    /// The id of the anchor named `name`, registering a new anchor at the end
    /// of the registry when the name is new. The root is never matched.
    pub fn get_anchor_id(&mut self, name: &str) -> (r: usize)
        requires
            old(self)@.wf(),
        ensures
            final(self)@.wf(),
            (final(self)@, r) == model::register(old(self)@, name@),
            final(self).session_start() == old(self).session_start(),
    {
        let key = name.to_owned();
        match self.position(&key) {
            Some(i) => {
                proof {
                    let p = self@;
                    let c = choose|c: int| 1 <= c < p.anchors.len() && p.anchors[c].name == name@;
                    assert(p.has_name(name@));
                    if c != i {
                        if c < i {
                            assert(p.anchors[c].name != p.anchors[i as int].name);
                        } else {
                            assert(p.anchors[i as int].name != p.anchors[c].name);
                        }
                    }
                }
                i
            },
            None => {
                let ghost before = self@;
                self.anchors.push(Anchor::new(name));
                let id = self.anchors.len() - 1;
                proof {
                    assert(self@.anchors =~= before.anchors.push(model::fresh_anchor(name@)));
                    assert forall|i: int, j: int|
                        1 <= i < j < self@.anchors.len() implies self@.anchors[i].name
                        != self@.anchors[j].name by {
                        if j == before.anchors.len() {
                            assert(before.anchors[i].name != name@);
                        }
                    }
                    assert(self@.anchors[0].name == before.anchors[0].name);
                }
                id
            },
        }
    }

    /// Adds `bytes` to the throughput count of anchor `anchor_id`.
    pub fn add_bytes(&mut self, anchor_id: usize, bytes: usize)
        requires
            old(self)@.wf(),
            anchor_id < old(self)@.anchors.len(),
            old(self)@.anchors[anchor_id as int].bytes + bytes <= usize::MAX,
        ensures
            final(self)@.wf(),
            final(self)@ == model::add_bytes(old(self)@, anchor_id, bytes),
            final(self).session_start() == old(self).session_start(),
    {
        let ghost before = self@;
        self.anchors[anchor_id].add_byte_count(bytes);
        proof {
            assert(self@.anchors =~= model::add_bytes(before, anchor_id, bytes).anchors);
            assert forall|i: int| 0 <= i < self@.anchors.len() implies #[trigger] self@.anchors[i].name
                == before.anchors[i].name by {}
        }
    }

    /// Opens a block on the anchor named `name`, registering it if it is new.
    pub fn begin_scope(&mut self, name: &str) -> (r: Block)
        requires
            old(self)@.wf(),
        ensures
            final(self)@.wf(),
            (final(self)@, r@) == model::begin(model::register(old(self)@, name@).0, model::register(old(self)@, name@).1),
            final(self).session_start() == old(self).session_start(),
    {
        let id = self.get_anchor_id(name);
        Block::from_id(self, id)
    }

    /// Closes block `b`, timing it with the profiler's clock.
    pub fn end_scope(&mut self, b: Block)
        requires
            old(self)@.wf(),
            1 <= b@.anchor_id < old(self)@.anchors.len(),
            b@.parent_id < old(self)@.anchors.len(),
        ensures
            final(self)@.wf(),
            exists|now: u64|
                final(self)@ == model::finish(old(self)@, b@, #[trigger] ticks_between(b.start_tick(), now)),
            final(self).session_start() == old(self).session_start(),
    {
        let now = self.clock_ticks();
        let elapsed = b.elapsed(now);
        self.end_scope_after(b, elapsed);
    }

    /// Closes block `b`, which ran for `elapsed` ticks.
    pub fn end_scope_after(&mut self, b: Block, elapsed: u64)
        requires
            old(self)@.wf(),
            1 <= b@.anchor_id < old(self)@.anchors.len(),
            b@.parent_id < old(self)@.anchors.len(),
        ensures
            final(self)@.wf(),
            final(self)@ == model::finish(old(self)@, b@, elapsed),
            final(self).session_start() == old(self).session_start(),
    {
        let ghost before = self@;
        self.parent_id = b.parent_id;
        self.anchors[b.parent_id].yield_time(elapsed);
        self.anchors[b.anchor_id].complete(elapsed, b.old_elapsed_inclusive);
        proof {
            let f = model::finish(before, b@, elapsed);
            assert(self@.anchors =~= f.anchors);
            assert forall|i: int| 0 <= i < self@.anchors.len() implies #[trigger] self@.anchors[i].name
                == before.anchors[i].name by {}
        }
    }

    /// The number of anchors, the root included.
    pub fn anchor_count(&self) -> (r: usize)
        ensures
            r == self@.anchors.len(),
    {
        self.anchors.len()
    }

    /// The anchor with id `id`.
    pub fn anchor(&self, id: usize) -> (r: &Anchor)
        requires
            id < self@.anchors.len(),
        ensures
            r@ == self@.anchors[id as int],
    {
        &self.anchors[id]
    }

    /// The id of the anchor whose block is innermost, 0 when none is open.
    pub fn active_id(&self) -> (r: usize)
        ensures
            r == self@.active,
    {
        self.parent_id
    }

    /// A reading of the profiler's clock: nanoseconds since its origin.
    pub fn clock_ticks(&self) -> u64 {
        nanos_since(&self.origin)
    }

    /// The ticks from the session's start to the reading `now`, none when
    /// `now` is earlier.
    pub fn session_elapsed_at(&self, now: u64) -> (r: u64)
        ensures
            r == ticks_between(self.session_start(), now),
    {
        elapsed_ticks(self.start, now)
    }

    /// The ticks from the session's start to a reading of the clock taken now.
    pub fn session_elapsed(&self) -> (r: u64)
        ensures
            exists|now: u64| r == #[trigger] ticks_between(self.session_start(), now),
    {
        self.session_elapsed_at(self.clock_ticks())
    }
}

/// Starts a fresh measured session on `p` at the clock reading `now`; the
/// anchors keep their statistics.
pub fn init_at(p: &mut Profiler, now: u64)
    ensures
        final(p)@ == old(p)@,
        final(p).session_start() == now,
{
    p.start = now;
}

/// Starts a fresh measured session on `p` at a reading of its clock taken
/// now; the anchors keep their statistics.
pub fn init(p: &mut Profiler)
    ensures
        final(p)@ == old(p)@,
{
    let now = p.clock_ticks();
    init_at(p, now);
}

/// One timed interval on an anchor, from its opening to its closing.
pub struct Block {
    start: u64,
    anchor_id: usize,
    parent_id: usize,
    old_elapsed_inclusive: u64,
}

impl View for Block {
    type V = BlockView;

    closed spec fn view(&self) -> BlockView {
        BlockView {
            anchor_id: self.anchor_id,
            parent_id: self.parent_id,
            snapshot_inclusive: self.old_elapsed_inclusive,
        }
    }
}

impl Block {
    /// The clock reading, in ticks, at which the block opened.
    pub closed spec fn start_tick(&self) -> u64 {
        self.start
    }

    /// A block on `anchor_id` whose parent is `parent_id`, whose anchor had
    /// `old_elapsed_inclusive` inclusive ticks, and which opened at the clock
    /// reading `start`.
    pub fn new(anchor_id: usize, parent_id: usize, old_elapsed_inclusive: u64, start: u64) -> (r:
        Block)
        ensures
            r@ == (BlockView { anchor_id, parent_id, snapshot_inclusive: old_elapsed_inclusive }),
            r.start_tick() == start,
    {
        Block { start, anchor_id, parent_id, old_elapsed_inclusive }
    }

    /// The ticks from the block's opening to the clock reading `now`, none
    /// when `now` is earlier.
    pub fn elapsed(&self, now: u64) -> (r: u64)
        ensures
            r == ticks_between(self.start_tick(), now),
    {
        elapsed_ticks(self.start, now)
    }

    /// Opens a block on user anchor `id` of `p` at the clock reading `now`: it
    /// records the active id and the anchor's inclusive time, and `id` becomes
    /// the active id.
    pub fn from_id_at(p: &mut Profiler, id: usize, now: u64) -> (r: Block)
        requires
            old(p)@.wf(),
            1 <= id < old(p)@.anchors.len(),
        ensures
            final(p)@.wf(),
            (final(p)@, r@) == model::begin(old(p)@, id),
            r.start_tick() == now,
            final(p).session_start() == old(p).session_start(),
    {
        let parent_id = p.parent_id;
        let old_elapsed_inclusive = p.anchors[id].elapsed_inclusive;
        p.parent_id = id;
        Block::new(id, parent_id, old_elapsed_inclusive, now)
    }

    /// Opens a block on user anchor `id` of `p` at a reading of `p`'s clock
    /// taken now.
    pub fn from_id(p: &mut Profiler, id: usize) -> (r: Block)
        requires
            old(p)@.wf(),
            1 <= id < old(p)@.anchors.len(),
        ensures
            final(p)@.wf(),
            (final(p)@, r@) == model::begin(old(p)@, id),
            final(p).session_start() == old(p).session_start(),
    {
        let now = p.clock_ticks();
        Block::from_id_at(p, id, now)
    }

    pub fn anchor_id(&self) -> (r: usize)
        ensures
            r == self@.anchor_id,
    {
        self.anchor_id
    }

    pub fn parent_id(&self) -> (r: usize)
        ensures
            r == self@.parent_id,
    {
        self.parent_id
    }
}

} // verus!
