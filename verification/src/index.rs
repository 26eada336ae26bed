//! The linked-range index: for each buffer, a sorted sequence of linked-range
//! groups, with a binary-search point-containment lookup.

use vstd::prelude::*;

use crate::anchors::AnchorRange;
use crate::anchors::BufferId;
use crate::anchors::BufferSnapshot;
use crate::groups::GroupModel;
use crate::groups::LinkGroup;
use crate::groups::groups_valid;
use crate::groups::models_of;
use crate::order::group_le;
use crate::order::groups_sorted;

verus! {

/// Index of the first entry keyed by `id`, or `-1` when there is none.
pub open spec fn find_key_idx<T>(es: Seq<(BufferId, T)>, id: BufferId) -> int
    decreases es.len(),
{
    if es.len() == 0 {
        -1
    } else if es[0].0 == id {
        0
    } else if find_key_idx(es.drop_first(), id) < 0 {
        -1
    } else {
        1 + find_key_idx(es.drop_first(), id)
    }
}

pub proof fn lemma_find_key_idx<T>(es: Seq<(BufferId, T)>, id: BufferId)
    ensures
        -1 <= find_key_idx(es, id) < es.len(),
        find_key_idx(es, id) >= 0 ==> es[find_key_idx(es, id)].0 == id,
        forall|k: int|
            0 <= k < es.len() && k < find_key_idx(es, id) ==> (#[trigger] es[k]).0 != id,
        find_key_idx(es, id) == -1 ==> forall|k: int|
            0 <= k < es.len() ==> (#[trigger] es[k]).0 != id,
    decreases es.len(),
{
    if es.len() > 0 && es[0].0 != id {
        lemma_find_key_idx(es.drop_first(), id);
        assert forall|k: int|
            0 <= k < es.len() && k < find_key_idx(es, id) implies (#[trigger] es[k]).0
            != id by {
            if k > 0 {
                assert(es.drop_first()[k - 1] == es[k]);
            }
        }
        if find_key_idx(es, id) == -1 {
            assert forall|k: int| 0 <= k < es.len() implies (#[trigger] es[k]).0 != id by {
                if k > 0 {
                    assert(es.drop_first()[k - 1] == es[k]);
                }
            }
        }
        if find_key_idx(es.drop_first(), id) >= 0 {
            assert(es[find_key_idx(es, id)] == es.drop_first()[find_key_idx(
                es.drop_first(),
                id,
            )]);
        }
    }
}

/// Index of the rightmost group whose primary starts at or before offset
/// `qs`, or `-1` when every group starts after it.
pub open spec fn candidate_idx(snap: BufferSnapshot, gs: Seq<GroupModel>, qs: u64) -> int
    decreases gs.len(),
{
    if gs.len() == 0 {
        -1
    } else if snap.spec_resolve(gs.last().primary.start) <= qs {
        gs.len() - 1
    } else {
        candidate_idx(snap, gs.drop_last(), qs)
    }
}

pub proof fn lemma_candidate_idx(snap: BufferSnapshot, gs: Seq<GroupModel>, qs: u64)
    ensures
        -1 <= candidate_idx(snap, gs, qs) < gs.len(),
        candidate_idx(snap, gs, qs) >= 0 ==> snap.spec_resolve(
            gs[candidate_idx(snap, gs, qs)].primary.start,
        ) <= qs,
        forall|k: int|
            candidate_idx(snap, gs, qs) < k < gs.len() ==> snap.spec_resolve(
                (#[trigger] gs[k]).primary.start,
            ) > qs,
    decreases gs.len(),
{
    if gs.len() > 0 && !(snap.spec_resolve(gs.last().primary.start) <= qs) {
        lemma_candidate_idx(snap, gs.drop_last(), qs);
        assert forall|k: int|
            candidate_idx(snap, gs, qs) < k < gs.len() implies snap.spec_resolve(
            (#[trigger] gs[k]).primary.start,
        ) > qs by {
            if k < gs.len() - 1 {
                assert(gs.drop_last()[k] == gs[k]);
            }
        }
    }
}

/// What a lookup returns: the rightmost group whose primary starts at or
/// before the query's start, if its primary also ends at or after the
/// query's end; nothing otherwise. Under the sort/non-overlap invariant this
/// is the one group that can contain the query.
pub open spec fn lookup_model(
    snap: BufferSnapshot,
    gs: Seq<GroupModel>,
    q: AnchorRange,
) -> Option<GroupModel> {
    let c = candidate_idx(snap, gs, snap.spec_resolve(q.start));
    if c < 0 {
        None
    } else if snap.spec_resolve(gs[c].primary.end) >= snap.spec_resolve(q.end) {
        Some(gs[c])
    } else {
        None
    }
}

/// The groups a sequence of buffer entries holds for `id`: those of its
/// first entry keyed by `id`, or none when there is no such entry.
pub open spec fn entries_groups(
    es: Seq<(BufferId, Vec<LinkGroup>)>,
    id: BufferId,
) -> Seq<GroupModel> {
    let i = find_key_idx(es, id);
    if i < 0 {
        Seq::<GroupModel>::empty()
    } else {
        models_of(es[i].1@)
    }
}

/// The per-buffer index of linked-range groups. Each buffer's entry holds the
/// buffer's groups sorted by primary start under that buffer's snapshot at
/// install time; entries are never empty.
pub struct LinkedEditingRanges {
    pub entries: Vec<(BufferId, Vec<LinkGroup>)>,
}

impl LinkedEditingRanges {
    /// One entry per buffer, and no entry without groups.
    pub open spec fn wf(self) -> bool {
        &&& forall|i: int, j: int|
            0 <= i < j < self.entries@.len() ==> (#[trigger] self.entries@[i]).0 != (
            #[trigger] self.entries@[j]).0
        &&& forall|i: int| 0 <= i < self.entries@.len() ==> (#[trigger] self.entries@[i]).1@.len() > 0
    }

    /// The groups the index holds for a buffer; empty when the buffer has no
    /// entry.
    pub open spec fn groups_model(self, id: BufferId) -> Seq<GroupModel> {
        entries_groups(self.entries@, id)
    }

    /// An index holding no groups at all.
    pub fn new() -> (r: Self)
        ensures
            r.entries@.len() == 0,
            r.wf(),
            forall|id: BufferId| (#[trigger] r.groups_model(id)).len() == 0,
    {
        let r = LinkedEditingRanges { entries: Vec::new() };
        proof {
            assert forall|id: BufferId| (#[trigger] r.groups_model(id)).len() == 0 by {
                assert(find_key_idx(r.entries@, id) == -1);
            }
        }
        r
    }

    /// True exactly when no buffer holds any group.
    pub fn is_empty(&self) -> (r: bool)
        requires
            self.wf(),
        ensures
            r <==> forall|id: BufferId| (#[trigger] self.groups_model(id)).len() == 0,
    {
        let r = self.entries.len() == 0;
        proof {
            if self.entries@.len() == 0 {
                assert forall|id: BufferId| (#[trigger] self.groups_model(id)).len() == 0 by {
                    assert(find_key_idx(self.entries@, id) == -1);
                }
            } else {
                let id0 = self.entries@[0].0;
                lemma_find_key_idx(self.entries@, id0);
                assert(find_key_idx(self.entries@, id0) >= 0);
                assert(self.groups_model(id0).len() > 0);
            }
        }
        r
    }

    /// Empties the whole index: used when a rename begins, and before a
    /// refresh cycle installs a fresh set of results.
    pub fn clear(&mut self)
        ensures
            final(self).entries@.len() == 0,
            final(self).wf(),
            forall|id: BufferId| (#[trigger] final(self).groups_model(id)).len() == 0,
    {
        self.entries = Vec::new();
        proof {
            assert forall|id: BufferId| (#[trigger] self.groups_model(id)).len() == 0 by {
                assert(find_key_idx(self.entries@, id) == -1);
            }
        }
    }

    /// Looks up the group containing `query` in `id`'s buffer, under the
    /// snapshot the caller guarantees to be current for that buffer: a
    /// binary search for the rightmost group whose primary starts at or
    /// before the query, which the sort/non-overlap invariant makes the only
    /// candidate, then a check that it reaches the query's end.
    pub fn get<'a>(
        &'a self,
        id: BufferId,
        query: &AnchorRange,
        snapshot: &BufferSnapshot,
    ) -> (r: Option<&'a LinkGroup>)
        requires
            snapshot.buffer == id,
            snapshot.range_valid(*query),
            groups_valid(*snapshot, self.groups_model(id)),
            groups_sorted(*snapshot, self.groups_model(id)),
        ensures
            match r {
                Some(g) => lookup_model(*snapshot, self.groups_model(id), *query) == Some(g@),
                None => lookup_model(*snapshot, self.groups_model(id), *query) is None,
            },
    {
        let ghost gm = self.groups_model(id);
        let n = self.entries.len();
        let mut e: usize = 0;
        while e < n && !(self.entries[e].0 == id)
            invariant
                n == self.entries@.len(),
                e <= n,
                forall|k: int| 0 <= k < e ==> (#[trigger] self.entries@[k]).0 != id,
            decreases n - e,
        {
            e += 1;
        }
        proof {
            lemma_find_key_idx(self.entries@, id);
        }
        if e == n {
            proof {
                assert(find_key_idx(self.entries@, id) == -1);
                assert(gm.len() == 0);
                assert(candidate_idx(*snapshot, gm, snapshot.spec_resolve(query.start)) == -1);
            }
            return None;
        }
        proof {
            assert(self.entries@[e as int].0 == id);
            assert(find_key_idx(self.entries@, id) == e as int);
        }
        let groups: &Vec<LinkGroup> = &self.entries[e].1;
        proof {
            assert(gm == models_of(groups@));
            assert forall|k: int| 0 <= k < groups@.len() implies snapshot.range_valid(
                (#[trigger] groups@[k]).primary,
            ) by {
                assert(gm[k] == groups@[k]@);
            }
        }
        let qs = snapshot.resolve(query.start);
        let mut lo: usize = 0;
        let mut hi: usize = groups.len();
        while lo < hi
            invariant
                lo <= hi <= groups@.len(),
                gm == models_of(groups@),
                groups_sorted(*snapshot, gm),
                forall|k: int| 0 <= k < groups@.len() ==> snapshot.range_valid(
                    (#[trigger] groups@[k]).primary,
                ),
                forall|k: int|
                    0 <= k < lo ==> snapshot.spec_resolve((#[trigger] gm[k]).primary.start) <= qs,
                forall|k: int|
                    hi <= k < gm.len() ==> snapshot.spec_resolve((#[trigger] gm[k]).primary.start)
                        > qs,
            decreases hi - lo,
        {
            let mid = lo + (hi - lo) / 2;
            proof {
                assert(gm[mid as int] == groups@[mid as int]@);
            }
            if snapshot.resolve(groups[mid].primary.start) <= qs {
                proof {
                    assert forall|k: int|
                        0 <= k < mid + 1 implies snapshot.spec_resolve(
                        (#[trigger] gm[k]).primary.start,
                    ) <= qs by {
                        assert(group_le(*snapshot, gm[k], gm[mid as int]));
                    }
                }
                lo = mid + 1;
            } else {
                proof {
                    assert forall|k: int|
                        mid <= k < gm.len() implies snapshot.spec_resolve(
                        (#[trigger] gm[k]).primary.start,
                    ) > qs by {
                        assert(group_le(*snapshot, gm[mid as int], gm[k]));
                    }
                }
                hi = mid;
            }
        }
        proof {
            lemma_candidate_idx(*snapshot, gm, qs);
            let c = candidate_idx(*snapshot, gm, qs);
            if c >= lo as int {
                assert(snapshot.spec_resolve(gm[c].primary.start) <= qs);
                assert(snapshot.spec_resolve(gm[c].primary.start) > qs);
            }
            if c < lo as int - 1 {
                assert(snapshot.spec_resolve(gm[lo as int - 1].primary.start) <= qs);
                assert(snapshot.spec_resolve(gm[lo as int - 1].primary.start) > qs);
            }
            assert(c == lo as int - 1);
        }
        if lo == 0 {
            return None;
        }
        let cand: usize = lo - 1;
        proof {
            assert(gm[cand as int] == groups@[cand as int]@);
        }
        if snapshot.resolve(groups[cand].primary.end) >= snapshot.resolve(query.end) {
            Some(&groups[cand])
        } else {
            None
        }
    }
}

} // verus!
