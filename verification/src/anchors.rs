//! The buffer/anchor model: buffer identities, edit-surviving positions
//! (anchors), spans between two anchors, and immutable buffer snapshots under
//! which anchors resolve to offsets and become comparable.

use vstd::prelude::*;

verus! {

/// Identity of a text buffer, unique for the lifetime of an editing session.
#[derive(Clone, Copy, PartialEq, Eq, Hash, Debug, Structural)]
pub struct BufferId(pub u64);

/// A buffer-scoped position that stays logically valid across edits. An
/// anchor carries no offset of its own: the snapshot taken of its buffer
/// decides which offset it denotes at that instant, so two anchors are only
/// comparable in the context of one snapshot, never directly.
#[derive(Clone, Copy, PartialEq, Eq, Hash, Debug, Structural)]
pub struct Anchor {
    /// Stable identity of the position within its buffer.
    pub id: u64,
}

/// A span in one buffer, as a start/end anchor pair.
#[derive(Clone, Copy, PartialEq, Eq, Hash, Debug, Structural)]
pub struct AnchorRange {
    pub start: Anchor,
    pub end: Anchor,
}

/// An immutable view of one buffer at one instant: it records, for each
/// anchor the buffer has handed out, the offset that anchor denotes at that
/// instant. Anchor `a` resolves to `offsets[a.id]`.
#[derive(Debug)]
pub struct BufferSnapshot {
    /// The buffer this snapshot was taken of.
    pub buffer: BufferId,
    /// Offset of each anchor of the buffer, indexed by anchor identity.
    pub offsets: Vec<u64>,
}

impl BufferSnapshot {
    /// The anchor belongs to this snapshot's buffer and resolves under it.
    pub open spec fn anchor_valid(self, a: Anchor) -> bool {
        a.id < self.offsets@.len()
    }

    pub open spec fn range_valid(self, r: AnchorRange) -> bool {
        self.anchor_valid(r.start) && self.anchor_valid(r.end)
    }

    /// The offset the anchor denotes under this snapshot.
    pub open spec fn spec_resolve(self, a: Anchor) -> u64
        recommends
            self.anchor_valid(a),
    {
        self.offsets@[a.id as int]
    }

    /// Resolves an anchor to the offset it denotes under this snapshot.
    pub fn resolve(&self, a: Anchor) -> (r: u64)
        requires
            self.anchor_valid(a),
        ensures
            r == self.spec_resolve(a),
    {
        let n: usize = self.offsets.len();
        assert(a.id < n as u64);
        self.offsets[a.id as usize]
    }

    /// Whether `a` starts at or before `b` under this snapshot, with the end
    /// anchor as tie-breaker: the order ranges are sorted by.
    pub fn range_le(&self, a: &AnchorRange, b: &AnchorRange) -> (r: bool)
        requires
            self.range_valid(*a),
            self.range_valid(*b),
        ensures
            r == spec_range_le(*self, *a, *b),
    {
        let a_start = self.resolve(a.start);
        let b_start = self.resolve(b.start);
        if a_start != b_start {
            a_start < b_start
        } else {
            self.resolve(a.end) <= self.resolve(b.end)
        }
    }

    /// Whether `outer` contains `inner` under this snapshot: it starts at or
    /// before `inner`'s start and ends at or after `inner`'s end.
    pub fn range_contains(&self, outer: &AnchorRange, inner: &AnchorRange) -> (r: bool)
        requires
            self.range_valid(*outer),
            self.range_valid(*inner),
        ensures
            r == spec_range_contains(*self, *outer, *inner),
    {
        self.resolve(outer.start) <= self.resolve(inner.start)
            && self.resolve(outer.end) >= self.resolve(inner.end)
    }
}

/// Range order under a snapshot: by start offset, the end offset breaking
/// ties.
pub open spec fn spec_range_le(snap: BufferSnapshot, a: AnchorRange, b: AnchorRange) -> bool {
    snap.spec_resolve(a.start) < snap.spec_resolve(b.start) || (snap.spec_resolve(a.start)
        == snap.spec_resolve(b.start) && snap.spec_resolve(a.end) <= snap.spec_resolve(b.end))
}

/// Containment of `inner` in `outer` under a snapshot.
pub open spec fn spec_range_contains(
    snap: BufferSnapshot,
    outer: AnchorRange,
    inner: AnchorRange,
) -> bool {
    snap.spec_resolve(outer.start) <= snap.spec_resolve(inner.start)
        && snap.spec_resolve(outer.end) >= snap.spec_resolve(inner.end)
}

} // verus!
