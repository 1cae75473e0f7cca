//! A window in which code may be written.
//!
//! While a guard is open the thread may write to code. When it closes, code is executable again
//! first; only then are the instruction caches of what was written invalidated, range by range. The
//! guard says what is to be done to the machine; the caller does it, in that order.
use smallvec::SmallVec;
use vstd::prelude::*;

verus! {

// ── Ranges ──────────────────────────────────────────────────────────────

/// A `smallvec::SmallVec` of ranges: the start and the length of each.
#[verifier::external_body]
pub struct Ranges {
    inner: SmallVec<[(usize, usize); 2]>,
}

/// What a vector of ranges holds, in order.
pub uninterp spec fn ranges_of(v: Ranges) -> Seq<(usize, usize)>;

/// `SmallVec::new`: the vector is empty.
#[verifier::external_body]
fn no_ranges() -> (v: Ranges)
    ensures
        ranges_of(v) == Seq::<(usize, usize)>::empty(),
{
    Ranges { inner: SmallVec::new() }
}

/// `SmallVec::push`: the range is appended.
#[verifier::external_body]
fn push_range(v: &mut Ranges, range: (usize, usize))
    ensures
        ranges_of(*final(v)) == ranges_of(*old(v)).push(range),
{
    v.inner.push(range);
}

/// `SmallVec::into_vec`: the same ranges in the same order.
#[verifier::external_body]
fn all_ranges(v: Ranges) -> (r: Vec<(usize, usize)>)
    ensures
        r@ == ranges_of(v),
{
    v.inner.into_vec()
}

// ── Guards ──────────────────────────────────────────────────────────────

/// What is to be done to the machine.
#[derive(Clone, Copy, Debug, PartialEq, Eq, Structural)]
pub enum JitAction {
    /// Make code executable, or writable.
    WriteProtect(bool),
    /// Invalidate the instruction cache over a range.
    Invalidate { start: usize, len: usize },
}

/// How many guards a thread has open, and what guards have done so far.
#[derive(Clone, Copy, Debug, PartialEq, Eq, Structural)]
pub struct GuardState {
    pub depth: u32,
    pub acquires: u64,
    pub icache_bytes: u64,
}

/// A sum as a counter keeps it.
pub open spec fn wrapped(n: int) -> u64 {
    (n % 0x1_0000_0000_0000_0000) as u64
}

/// The bytes of all ranges.
pub open spec fn total_len(ranges: Seq<(usize, usize)>) -> nat
    decreases ranges.len(),
{
    if ranges.len() == 0 {
        0
    } else {
        total_len(ranges.drop_last()) + ranges.last().1 as nat
    }
}

/// An open window. A thread has at most one.
pub struct JitWriteGuard {
    ranges: Ranges,
}

impl View for JitWriteGuard {
    type V = Seq<(usize, usize)>;

    /// The ranges noted so far.
    closed spec fn view(&self) -> Seq<(usize, usize)> {
        ranges_of(self.ranges)
    }
}

impl JitWriteGuard {
    /// Opens a window: code is to be made writable.
    pub fn new(state: &mut GuardState, actions: &mut Vec<JitAction>) -> (g: JitWriteGuard)
        requires
            old(state).depth == 0,
        ensures
            g@ == Seq::<(usize, usize)>::empty(),
            final(state).depth == 1,
            final(state).acquires == wrapped(old(state).acquires + 1),
            final(state).icache_bytes == old(state).icache_bytes,
            final(actions)@ == old(actions)@.push(JitAction::WriteProtect(false)),
    {
        state.depth = 1;
        state.acquires = state.acquires.wrapping_add(1);
        actions.push(JitAction::WriteProtect(false));
        JitWriteGuard { ranges: no_ranges() }
    }

    /// Notes a range that is going to be written.
    pub fn note(&mut self, start: usize, len: usize)
        ensures
            final(self)@ == old(self)@.push((start, len)),
    {
        push_range(&mut self.ranges, (start, len));
    }

    /// Closes the window: code is to be made executable, and then the caches of the noted ranges
    /// invalidated, in the order they were noted.
    pub fn close(self, state: &mut GuardState, actions: &mut Vec<JitAction>)
        requires
            old(state).depth > 0,
        ensures
            final(state).depth == old(state).depth - 1,
            final(state).acquires == old(state).acquires,
            final(state).icache_bytes == wrapped(old(state).icache_bytes + total_len(self@)),
            final(actions)@ == old(actions)@.push(JitAction::WriteProtect(true)) + invalidations(self@),
    {
        let ghost noted = self@;
        let ranges: Vec<(usize, usize)> = all_ranges(self.ranges);
        actions.push(JitAction::WriteProtect(true));
        let ghost opened = actions@;
        let mut bytes: u64 = state.icache_bytes;
        let mut i: usize = 0;
        assert(noted.take(0) =~= Seq::<(usize, usize)>::empty());
        assert(opened + invalidations(noted).take(0) =~= opened);
        while i < ranges.len()
            invariant
                i <= ranges@.len(),
                ranges@ == noted,
                bytes == wrapped(old(state).icache_bytes + total_len(noted.take(i as int))),
                actions@ == opened + invalidations(noted).take(i as int),
            decreases ranges@.len() - i,
        {
            let (start, len): (usize, usize) = ranges[i];
            bytes = bytes.wrapping_add(len as u64);
            actions.push(JitAction::Invalidate { start, len });
            i += 1;
            proof {
                assert(noted.take(i as int).drop_last() =~= noted.take(i - 1));
                assert(actions@ =~= opened + invalidations(noted).take(i as int));
            }
        }
        proof {
            assert(noted.take(i as int) =~= noted);
            assert(invalidations(noted).take(i as int) =~= invalidations(noted));
        }
        state.icache_bytes = bytes;
        state.depth = state.depth - 1;
    }
}

/// The invalidation of each range.
pub open spec fn invalidations(ranges: Seq<(usize, usize)>) -> Seq<JitAction> {
    Seq::new(ranges.len(), |i: int| JitAction::Invalidate { start: ranges[i].0, len: ranges[i].1 })
}

/// What a window does to the machine: code becomes writable, then executable, and only then is each
/// noted range invalidated, in the order of the notes.
pub proof fn law_window_closes_in_order(noted: Seq<(usize, usize)>, actions: Seq<JitAction>)
    requires
        actions == seq![JitAction::WriteProtect(false)].push(JitAction::WriteProtect(true)) + invalidations(noted),
    ensures
        actions.len() == 2 + noted.len(),
        actions[0] == JitAction::WriteProtect(false),
        actions[1] == JitAction::WriteProtect(true),
        forall|i: int|
            0 <= i < noted.len() ==> #[trigger] actions[i + 2] == (JitAction::Invalidate {
                start: noted[i].0,
                len: noted[i].1,
            }),
{
}

} // verus!
