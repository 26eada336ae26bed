//! The refresh pipeline: collects the applicable selections of a cycle,
//! turns each provider response into a sorted batch of sibling groups, and
//! installs the merged result into the index — unless a rename is pending or
//! a newer cycle has superseded this one.
//!
//! The provider calls themselves, and the suspension while they are awaited,
//! live outside this module: a caller collects the queries a cycle begins
//! with, obtains one response per query, and hands responses and fresh
//! snapshots back to the merge step.

use vstd::prelude::*;

use crate::anchors::Anchor;
use crate::anchors::AnchorRange;
use crate::anchors::BufferId;
use crate::anchors::BufferSnapshot;
use crate::anchors::spec_range_contains;
use crate::groups::GroupModel;
use crate::groups::LinkGroup;
use crate::groups::group_valid;
use crate::groups::groups_valid;
use crate::groups::models_of;
use crate::index::LinkedEditingRanges;
use crate::index::entries_groups;
use crate::index::find_key_idx;
use crate::index::lemma_find_key_idx;
use crate::order::lemma_sort_groups_props;
use crate::order::lemma_sort_preserves_valid;
use crate::order::sort_groups;
use crate::order::sort_groups_spec;

verus! {

/// A selection endpoint resolved to a buffer-scoped anchor.
#[derive(Clone, Copy, PartialEq, Eq, Debug, Structural)]
pub struct AnchorPoint {
    pub buffer: BufferId,
    pub anchor: Anchor,
}

/// One editor selection with its head and tail resolved to anchors, where
/// resolution succeeded. The head is the cursor end of the selection.
#[derive(Clone, Copy, PartialEq, Eq, Debug, Structural)]
pub struct SelectionResolution {
    pub head: Option<AnchorPoint>,
    pub tail: Option<AnchorPoint>,
}

/// One provider query a cycle issues: a buffer and the selection span in it,
/// head anchor as start and tail anchor as end.
#[derive(Clone, Copy, PartialEq, Eq, Debug, Structural)]
pub struct LinkQuery {
    pub buffer: BufferId,
    pub range: AnchorRange,
}

/// What begins when a refresh cycle starts: the cycle's generation number and
/// the provider queries to issue, one per applicable selection.
pub struct CycleStart {
    pub generation: u64,
    pub queries: Vec<LinkQuery>,
}

/// The queries of the applicable selections, in selection order: a selection
/// is applicable when both its head and its tail resolved, to the same
/// buffer. Cross-buffer selections and failed resolutions contribute
/// nothing.
pub open spec fn applicable_queries(sels: Seq<SelectionResolution>) -> Seq<LinkQuery>
    decreases sels.len(),
{
    if sels.len() == 0 {
        Seq::<LinkQuery>::empty()
    } else {
        let rest = applicable_queries(sels.drop_last());
        match (sels.last().head, sels.last().tail) {
            (Some(h), Some(t)) => if h.buffer == t.buffer {
                rest.push(
                    LinkQuery {
                        buffer: h.buffer,
                        range: AnchorRange { start: h.anchor, end: t.anchor },
                    },
                )
            } else {
                rest
            },
            _ => rest,
        }
    }
}

/// The complete sibling graph of a provider response: when the response
/// holds at least two spans, one group per span, whose siblings are all the
/// other spans in response order; a response of fewer than two spans links
/// nothing.
pub open spec fn clique_model(s: Seq<AnchorRange>) -> Seq<GroupModel> {
    if s.len() < 2 {
        Seq::<GroupModel>::empty()
    } else {
        Seq::new(s.len(), |i: int| GroupModel { primary: s[i], siblings: s.remove(i) })
    }
}

/// The batch a verified provider response yields: its complete sibling
/// graph, sorted by primary span under the snapshot.
pub open spec fn batch_groups(snap: BufferSnapshot, s: Seq<AnchorRange>) -> Seq<GroupModel> {
    sort_groups_spec(snap, clique_model(s))
}

/// Turns one provider response into this cycle's batch of groups for the
/// queried buffer: the response is discarded when none of its spans contains
/// the original query span (the provider answered about an unrelated
/// construct); otherwise every span becomes a group whose siblings are all
/// the other spans, and the batch is sorted by primary span under the
/// snapshot.
pub fn build_batch(
    query: &LinkQuery,
    snapshot: &BufferSnapshot,
    response: &Vec<AnchorRange>,
) -> (r: Option<Vec<LinkGroup>>)
    requires
        snapshot.buffer == query.buffer,
        snapshot.range_valid(query.range),
        forall|k: int| 0 <= k < response@.len() ==> snapshot.range_valid(#[trigger] response@[k]),
    ensures
        (r is Some) <==> exists|k: int|
            0 <= k < response@.len() && spec_range_contains(
                *snapshot,
                #[trigger] response@[k],
                query.range,
            ),
        match r {
            Some(b) => models_of(b@) == batch_groups(*snapshot, response@),
            None => true,
        },
{
    let n = response.len();
    let mut contains_any = false;
    let mut i: usize = 0;
    while i < n
        invariant
            n == response@.len(),
            i <= n,
            snapshot.range_valid(query.range),
            forall|k: int| 0 <= k < response@.len() ==> snapshot.range_valid(
                #[trigger] response@[k],
            ),
            contains_any <==> exists|k: int|
                0 <= k < i && spec_range_contains(*snapshot, #[trigger] response@[k], query.range),
        decreases n - i,
    {
        if snapshot.range_contains(&response[i], &query.range) {
            contains_any = true;
        }
        i += 1;
    }
    if !contains_any {
        return None;
    }
    let mut groups: Vec<LinkGroup> = Vec::new();
    if n >= 2 {
        let mut i: usize = 0;
        while i < n
            invariant
                2 <= n == response@.len(),
                i <= n,
                forall|k: int| 0 <= k < response@.len() ==> snapshot.range_valid(
                    #[trigger] response@[k],
                ),
                groups@.len() == i,
                forall|t: int| 0 <= t < i ==> (#[trigger] groups@[t])@ == clique_model(
                    response@,
                )[t],
            decreases n - i,
        {
            let mut sib: Vec<AnchorRange> = Vec::new();
            let mut j: usize = 0;
            while j < n
                invariant
                    i < n == response@.len(),
                    j <= n,
                    sib@ == if j <= i {
                        response@.subrange(0, j as int)
                    } else {
                        response@.subrange(0, i as int) + response@.subrange(i as int + 1, j as int)
                    },
                decreases n - j,
            {
                if j != i {
                    sib.push(response[j]);
                    proof {
                        if j < i {
                            assert(sib@ =~= response@.subrange(0, j + 1));
                        } else {
                            assert(sib@ =~= response@.subrange(0, i as int) + response@.subrange(
                                i as int + 1,
                                j + 1,
                            ));
                        }
                    }
                } else {
                    proof {
                        assert(sib@ =~= response@.subrange(0, i as int) + response@.subrange(
                            i as int + 1,
                            i as int + 1,
                        ));
                    }
                }
                j += 1;
            }
            proof {
                assert(sib@ =~= response@.remove(i as int));
            }
            groups.push(LinkGroup { primary: response[i], siblings: sib });
            i += 1;
        }
    }
    proof {
        assert(models_of(groups@) =~= clique_model(response@));
        assert forall|t: int| 0 <= t < clique_model(response@).len() implies group_valid(
            *snapshot,
            #[trigger] clique_model(response@)[t],
        ) by {
            assert forall|j: int|
                0 <= j < clique_model(response@)[t].siblings.len() implies snapshot.range_valid(
                #[trigger] clique_model(response@)[t].siblings[j],
            ) by {
                assert(clique_model(response@)[t].siblings == response@.remove(t));
            }
        }
    }
    let sorted = sort_groups(groups, snapshot);
    Some(sorted)
}

/// The batches as their models: buffer id and group models of each.
pub open spec fn batches_model(bs: Seq<(BufferId, Vec<LinkGroup>)>) -> Seq<
    (BufferId, Seq<GroupModel>),
> {
    bs.map_values(|b: (BufferId, Vec<LinkGroup>)| (b.0, models_of(b.1@)))
}

/// All groups the cycle's batches produced for one buffer, in batch order.
pub open spec fn combined_for(
    bm: Seq<(BufferId, Seq<GroupModel>)>,
    id: BufferId,
) -> Seq<GroupModel>
    decreases bm.len(),
{
    if bm.len() == 0 {
        Seq::<GroupModel>::empty()
    } else {
        combined_for(bm.drop_last(), id) + (if bm.last().0 == id {
            bm.last().1
        } else {
            Seq::<GroupModel>::empty()
        })
    }
}

/// What an install leaves in the index for one buffer: the buffer's combined
/// batch groups sorted under the buffer's fresh snapshot; nothing when the
/// cycle produced no group for it, or when it could not be snapshotted.
pub open spec fn merged_groups(
    bm: Seq<(BufferId, Seq<GroupModel>)>,
    sm: Seq<(BufferId, BufferSnapshot)>,
    id: BufferId,
) -> Seq<GroupModel> {
    let si = find_key_idx(sm, id);
    if si < 0 {
        Seq::<GroupModel>::empty()
    } else if combined_for(bm, id).len() == 0 {
        Seq::<GroupModel>::empty()
    } else {
        sort_groups_spec(sm[si].1, combined_for(bm, id))
    }
}

proof fn lemma_find_key_idx_push<T>(es: Seq<(BufferId, T)>, e: (BufferId, T), id: BufferId)
    ensures
        find_key_idx(es.push(e), id) == if find_key_idx(es, id) >= 0 {
            find_key_idx(es, id)
        } else if e.0 == id {
            es.len() as int
        } else {
            -1
        },
    decreases es.len(),
{
    if es.len() == 0 {
        assert(es.push(e)[0] == e);
        assert(es.push(e).drop_first() =~= Seq::<(BufferId, T)>::empty());
        assert(find_key_idx(es.push(e).drop_first(), id) == -1);
        if e.0 == id {
            assert(find_key_idx(es.push(e), id) == 0);
        } else {
            assert(find_key_idx(es.push(e), id) == -1);
        }
    } else {
        assert(es.push(e)[0] == es[0]);
        assert(es.push(e).drop_first() =~= es.drop_first().push(e));
        lemma_find_key_idx_push(es.drop_first(), e, id);
        assert(find_key_idx(es.push(e).drop_first(), id) == find_key_idx(
            es.drop_first().push(e),
            id,
        ));
        if es[0].0 == id {
            assert(find_key_idx(es.push(e), id) == 0);
            assert(find_key_idx(es, id) == 0);
        } else if find_key_idx(es.drop_first(), id) >= 0 {
            assert(find_key_idx(es, id) == 1 + find_key_idx(es.drop_first(), id));
            assert(find_key_idx(es.push(e), id) == 1 + find_key_idx(es.drop_first(), id));
        } else if e.0 == id {
            assert(find_key_idx(es, id) == -1);
            assert(find_key_idx(es.drop_first().push(e), id) == es.drop_first().len() as int);
            assert(find_key_idx(es.push(e), id) == 1 + es.drop_first().len() as int);
            assert(find_key_idx(es.push(e), id) == es.len() as int);
        } else {
            assert(find_key_idx(es, id) == -1);
            assert(find_key_idx(es.push(e), id) == -1);
        }
    }
}

proof fn lemma_contains_push<T>(s: Seq<T>, x: T, y: T)
    ensures
        s.push(x).contains(y) <==> (s.contains(y) || x == y),
{
    if s.push(x).contains(y) {
        let b = choose|b: int| 0 <= b < s.push(x).len() && s.push(x)[b] == y;
        if b < s.len() {
            assert(s[b] == y);
        }
    }
    if s.contains(y) {
        let b = choose|b: int| 0 <= b < s.len() && s[b] == y;
        assert(s.push(x)[b] == y);
    }
    if x == y {
        assert(s.push(x)[s.len() as int] == y);
    }
}

/// A buffer no batch names gets no combined groups.
proof fn lemma_combined_absent(bm: Seq<(BufferId, Seq<GroupModel>)>, id: BufferId)
    requires
        forall|t: int| 0 <= t < bm.len() ==> (#[trigger] bm[t]).0 != id,
    ensures
        combined_for(bm, id).len() == 0,
    decreases bm.len(),
{
    if bm.len() > 0 {
        assert forall|t: int| 0 <= t < bm.drop_last().len() implies (#[trigger] bm.drop_last()[t]).0
            != id by {
            assert(bm.drop_last()[t] == bm[t]);
        }
        lemma_combined_absent(bm.drop_last(), id);
    }
}

/// The combined groups of a buffer are valid under a snapshot when each
/// batch's groups for that buffer are.
proof fn lemma_combined_valid(
    bm: Seq<(BufferId, Seq<GroupModel>)>,
    snap: BufferSnapshot,
    id: BufferId,
)
    requires
        forall|t: int|
            0 <= t < bm.len() && (#[trigger] bm[t]).0 == id ==> groups_valid(snap, bm[t].1),
    ensures
        groups_valid(snap, combined_for(bm, id)),
    decreases bm.len(),
{
    if bm.len() > 0 {
        assert forall|t: int|
            0 <= t < bm.drop_last().len() && (#[trigger] bm.drop_last()[t]).0
            == id implies groups_valid(snap, bm.drop_last()[t].1) by {
            assert(bm.drop_last()[t] == bm[t]);
        }
        lemma_combined_valid(bm.drop_last(), snap, id);
        let a = combined_for(bm.drop_last(), id);
        let b = if bm.last().0 == id {
            bm.last().1
        } else {
            Seq::<GroupModel>::empty()
        };
        assert forall|i: int| 0 <= i < (a + b).len() implies group_valid(
            snap,
            #[trigger] (a + b)[i],
        ) by {
            if i < a.len() {
                assert((a + b)[i] == a[i]);
            } else {
                assert((a + b)[i] == b[i - a.len()]);
                assert(bm.last() == bm[bm.len() - 1]);
            }
        }
    }
}

/// The refresh pipeline: the index it owns, and the generation of the latest
/// cycle it has issued. A cycle whose generation is no longer the latest has
/// been superseded, and its results are discarded at merge time.
pub struct RefreshPipeline {
    pub index: LinkedEditingRanges,
    pub latest_generation: u64,
}

impl RefreshPipeline {
    pub open spec fn wf(self) -> bool {
        self.index.wf()
    }

    /// A pipeline with an empty index and no cycle issued yet.
    pub fn new() -> (r: Self)
        ensures
            r.wf(),
            r.latest_generation == 0,
            r.index.entries@.len() == 0,
            forall|id: BufferId| (#[trigger] r.index.groups_model(id)).len() == 0,
    {
        RefreshPipeline { index: LinkedEditingRanges::new(), latest_generation: 0 }
    }

    /// Starts a refresh cycle. A pending rename blocks the cycle outright:
    /// nothing is issued and nothing changes. Otherwise the new cycle
    /// supersedes any cycle in flight by taking the next generation, and its
    /// queries are the applicable selections: those whose head and tail both
    /// resolved, to the same buffer. The index is never touched here.
    pub fn begin_cycle(
        &mut self,
        rename_pending: bool,
        selections: &Vec<SelectionResolution>,
    ) -> (r: Option<CycleStart>)
        requires
            old(self).latest_generation < u64::MAX,
        ensures
            final(self).index == old(self).index,
            final(self).wf() == old(self).wf(),
            rename_pending ==> r is None && final(self).latest_generation == old(
                self,
            ).latest_generation,
            !rename_pending ==> final(self).latest_generation == old(self).latest_generation + 1,
            !rename_pending ==> match r {
                Some(c) => c.generation == final(self).latest_generation && c.queries@
                    == applicable_queries(selections@),
                None => false,
            },
    {
        if rename_pending {
            return None;
        }
        self.latest_generation = self.latest_generation + 1;
        let mut queries: Vec<LinkQuery> = Vec::new();
        let mut i: usize = 0;
        proof {
            assert(selections@.subrange(0, 0) =~= Seq::<SelectionResolution>::empty());
        }
        while i < selections.len()
            invariant
                i <= selections@.len(),
                queries@ == applicable_queries(selections@.subrange(0, i as int)),
            decreases selections@.len() - i,
        {
            let s = selections[i];
            match (s.head, s.tail) {
                (Some(h), Some(t)) => {
                    if h.buffer == t.buffer {
                        queries.push(
                            LinkQuery {
                                buffer: h.buffer,
                                range: AnchorRange { start: h.anchor, end: t.anchor },
                            },
                        );
                    }
                },
                _ => {},
            }
            proof {
                let pre = selections@.subrange(0, i as int);
                let post = selections@.subrange(0, i + 1);
                assert(post.drop_last() =~= pre);
                assert(post.last() == selections@[i as int]);
            }
            i += 1;
        }
        proof {
            assert(selections@.subrange(0, selections@.len() as int) =~= selections@);
        }
        Some(CycleStart { generation: self.latest_generation, queries })
    }

    /// A rename supersedes the linked ranges: the whole index is cleared.
    /// Cycles already in flight are invalidated at merge time by the
    /// rename-pending flag, which the rename feature keeps set.
    /// Installs a cycle's results: the merge step. A cycle whose generation
    /// is no longer the latest has been superseded, and a rename that became
    /// pending while the cycle was in flight invalidates it: in both cases
    /// the index is left untouched. Otherwise the whole index is replaced:
    /// each buffer a batch named holds its combined batch groups re-sorted
    /// under the fresh snapshot supplied for it, a buffer that could not be
    /// snapshotted (for example, since closed) is dropped rather than left
    /// mis-sorted, and every other buffer holds nothing. Returns whether an
    /// install happened, so the caller can signal a redraw.
    #[verifier::rlimit(50)]
    pub fn merge_cycle(
        &mut self,
        generation: u64,
        rename_pending: bool,
        batches: &Vec<(BufferId, Vec<LinkGroup>)>,
        snapshots: &Vec<(BufferId, BufferSnapshot)>,
    ) -> (installed: bool)
        requires
            forall|k: int|
                0 <= k < snapshots@.len() ==> (#[trigger] snapshots@[k]).1.buffer
                    == snapshots@[k].0,
            forall|t: int|
                0 <= t < batches@.len() ==> {
                    let si = find_key_idx(snapshots@, (#[trigger] batches@[t]).0);
                    si >= 0 ==> groups_valid(snapshots@[si].1, models_of(batches@[t].1@))
                },
        ensures
            installed <==> (!rename_pending && generation == old(self).latest_generation),
            final(self).latest_generation == old(self).latest_generation,
            !installed ==> *final(self) == *old(self),
            installed ==> final(self).wf(),
            installed ==> forall|id: BufferId| #[trigger] final(self).index.groups_model(id)
                == merged_groups(batches_model(batches@), snapshots@, id),
    {
        if rename_pending {
            return false;
        }
        if generation != self.latest_generation {
            return false;
        }
        let ghost bm = batches_model(batches@);
        let nb = batches.len();

        // the distinct buffers the batches name, in first-appearance order
        let mut ids: Vec<BufferId> = Vec::new();
        let mut t: usize = 0;
        while t < nb
            invariant
                nb == batches@.len(),
                bm == batches_model(batches@),
                t <= nb,
                forall|a: int, b: int| 0 <= a < b < ids@.len() ==> ids@[a] != ids@[b],
                forall|u: int| 0 <= u < t ==> ids@.contains((#[trigger] bm[u]).0),
            decreases nb - t,
        {
            let key = batches[t].0;
            proof {
                assert(bm[t as int] == (batches@[t as int].0, models_of(batches@[t as int].1@)));
            }
            let mut seen = false;
            let mut a: usize = 0;
            while a < ids.len()
                invariant
                    a <= ids@.len(),
                    seen <==> exists|b: int| 0 <= b < a && ids@[b] == key,
                decreases ids@.len() - a,
            {
                if ids[a] == key {
                    seen = true;
                }
                a += 1;
            }
            let ghost ids0 = ids@;
            if !seen {
                ids.push(key);
            }
            proof {
                if !seen {
                    assert forall|u: int| 0 <= u < t + 1 implies ids@.contains(
                        (#[trigger] bm[u]).0,
                    ) by {
                        if u < t {
                            let b = choose|b: int| 0 <= b < ids0.len() && ids0[b] == bm[u].0;
                            assert(ids@[b] == bm[u].0);
                        } else {
                            assert(ids@[ids0.len() as int] == key);
                        }
                    }
                    assert forall|x: int, y: int| 0 <= x < y < ids@.len() implies ids@[x]
                        != ids@[y] by {
                        if y < ids0.len() {
                            assert(ids@[x] == ids0[x] && ids@[y] == ids0[y]);
                        } else {
                            assert(ids@[y] == key);
                            assert(ids@[x] == ids0[x]);
                        }
                    }
                } else {
                    let b = choose|b: int| 0 <= b < ids0.len() && ids0[b] == key;
                    assert forall|u: int| 0 <= u < t + 1 implies ids@.contains(
                        (#[trigger] bm[u]).0,
                    ) by {
                        if u == t {
                            assert(ids@[b] == key);
                        }
                    }
                }
            }
            t += 1;
        }

        // one entry per buffer that produced groups and can be snapshotted
        let mut entries: Vec<(BufferId, Vec<LinkGroup>)> = Vec::new();
        let ghost idseq = ids@;
        let mut w: usize = 0;
        proof {
            assert(idseq.subrange(0, 0) =~= Seq::<BufferId>::empty());
        }
        while w < ids.len()
            invariant
                w <= ids@.len(),
                ids@ == idseq,
                nb == batches@.len(),
                bm == batches_model(batches@),
                forall|a: int, b: int| 0 <= a < b < idseq.len() ==> idseq[a] != idseq[b],
                forall|u: int| 0 <= u < nb ==> idseq.contains((#[trigger] bm[u]).0),
                forall|k: int|
                    0 <= k < snapshots@.len() ==> (#[trigger] snapshots@[k]).1.buffer
                        == snapshots@[k].0,
                forall|t2: int|
                    0 <= t2 < batches@.len() ==> {
                        let si = find_key_idx(snapshots@, (#[trigger] batches@[t2]).0);
                        si >= 0 ==> groups_valid(snapshots@[si].1, models_of(batches@[t2].1@))
                    },
                forall|a2: int, b2: int|
                    0 <= a2 < b2 < entries@.len() ==> (#[trigger] entries@[a2]).0 != (
                    #[trigger] entries@[b2]).0,
                forall|a2: int| 0 <= a2 < entries@.len() ==> (#[trigger] entries@[a2]).1@.len() > 0,
                forall|id: BufferId| #[trigger] entries_groups(entries@, id) == (
                if idseq.subrange(0, w as int).contains(id) {
                    merged_groups(bm, snapshots@, id)
                } else {
                    Seq::<GroupModel>::empty()
                }),
                forall|id: BufferId|
                    !idseq.subrange(0, w as int).contains(id) ==> #[trigger] find_key_idx(
                        entries@,
                        id,
                    ) == -1,
            decreases ids@.len() - w,
        {
            let id = ids[w];
            proof {
                assert(!idseq.subrange(0, w as int).contains(id)) by {
                    if idseq.subrange(0, w as int).contains(id) {
                        let x = choose|x: int|
                            0 <= x < w && idseq.subrange(0, w as int)[x] == id;
                        assert(idseq[x] == id);
                        assert(idseq[w as int] == id);
                    }
                };
            }
            // gather the combined groups for this buffer, in batch order
            let mut combined: Vec<LinkGroup> = Vec::new();
            let mut t2: usize = 0;
            proof {
                assert(bm.subrange(0, 0) =~= Seq::<(BufferId, Seq<GroupModel>)>::empty());
            }
            while t2 < nb
                invariant
                    t2 <= nb,
                    nb == batches@.len(),
                    bm == batches_model(batches@),
                    models_of(combined@) == combined_for(bm.subrange(0, t2 as int), id),
                decreases nb - t2,
            {
                let ghost pre = combined_for(bm.subrange(0, t2 as int), id);
                if batches[t2].0 == id {
                    let mut u: usize = 0;
                    while u < batches[t2].1.len()
                        invariant
                            t2 < nb,
                            nb == batches@.len(),
                            bm == batches_model(batches@),
                            u <= batches@[t2 as int].1@.len(),
                            models_of(combined@) == pre + models_of(
                                batches@[t2 as int].1@,
                            ).subrange(0, u as int),
                            pre == combined_for(bm.subrange(0, t2 as int), id),
                        decreases batches@[t2 as int].1@.len() - u,
                    {
                        let g = batches[t2].1[u].duplicate();
                        let ghost c0 = combined@;
                        combined.push(g);
                        proof {
                            let m = models_of(batches@[t2 as int].1@);
                            assert(m[u as int] == batches@[t2 as int].1@[u as int]@);
                            assert(models_of(c0).len() == c0.len());
                            assert(c0.len() == pre.len() + u);
                            assert forall|i: int|
                                0 <= i < combined@.len() implies models_of(combined@)[i] == (pre
                                + m.subrange(0, u + 1))[i] by {
                                assert(models_of(combined@)[i] == combined@[i]@);
                                if i < c0.len() {
                                    assert(combined@[i] == c0[i]);
                                    assert(models_of(c0)[i] == c0[i]@);
                                    assert(models_of(c0)[i] == (pre + m.subrange(0, u as int))[i]);
                                } else {
                                    assert(combined@[i] == g);
                                    assert((pre + m.subrange(0, u + 1))[i] == m.subrange(
                                        0,
                                        u + 1,
                                    )[u as int]);
                                }
                            }
                            assert(models_of(combined@) =~= pre + m.subrange(0, u + 1));
                        }
                        u += 1;
                    }
                    proof {
                        assert(models_of(batches@[t2 as int].1@).subrange(
                            0,
                            models_of(batches@[t2 as int].1@).len() as int,
                        ) =~= models_of(batches@[t2 as int].1@));
                    }
                }
                proof {
                    let post = bm.subrange(0, t2 + 1);
                    assert(post.drop_last() =~= bm.subrange(0, t2 as int));
                    assert(post.last() == bm[t2 as int]);
                    assert(bm[t2 as int] == (batches@[t2 as int].0, models_of(
                        batches@[t2 as int].1@,
                    )));
                    if batches@[t2 as int].0 != id {
                        assert(pre + Seq::<GroupModel>::empty() =~= pre);
                    }
                }
                t2 += 1;
            }
            proof {
                assert(bm.subrange(0, nb as int) =~= bm);
            }
            // a buffer that cannot be snapshotted, or for which the cycle
            // produced nothing, is left absent
            let mut si: usize = 0;
            while si < snapshots.len() && !(snapshots[si].0 == id)
                invariant
                    si <= snapshots@.len(),
                    forall|k: int| 0 <= k < si ==> (#[trigger] snapshots@[k]).0 != id,
                decreases snapshots@.len() - si,
            {
                si += 1;
            }
            proof {
                lemma_find_key_idx(snapshots@, id);
            }
            let ghost entries0 = entries@;
            let ghost prefix = idseq.subrange(0, w as int);
            if si < snapshots.len() && combined.len() > 0 {
                proof {
                    assert(snapshots@[si as int].0 == id);
                    assert(find_key_idx(snapshots@, id) == si as int);
                    assert forall|t3: int|
                        0 <= t3 < bm.len() && (#[trigger] bm[t3]).0 == id implies groups_valid(
                        snapshots@[si as int].1,
                        bm[t3].1,
                    ) by {
                        assert(bm[t3] == (batches@[t3].0, models_of(batches@[t3].1@)));
                        assert(batches@[t3].0 == id);
                    }
                    lemma_combined_valid(bm, snapshots@[si as int].1, id);
                }
                let snap = &snapshots[si].1;
                let ghost comb = models_of(combined@);
                let sorted = sort_groups(combined, snap);
                proof {
                    lemma_sort_groups_props(snapshots@[si as int].1, comb);
                    assert(models_of(sorted@).len() == comb.len());
                    assert(comb.len() > 0);
                }
                entries.push((id, sorted));
                proof {
                    let e = (id, sorted);
                    assert(find_key_idx(entries0, id) == -1);
                    lemma_find_key_idx(entries0, id);
                    assert forall|a2: int, b2: int|
                        0 <= a2 < b2 < entries@.len() implies (#[trigger] entries@[a2]).0 != (
                    #[trigger] entries@[b2]).0 by {
                        if b2 < entries0.len() {
                            assert(entries@[a2] == entries0[a2] && entries@[b2] == entries0[b2]);
                        } else {
                            assert(entries@[b2] == e);
                            assert(entries@[a2] == entries0[a2]);
                            assert(entries0[a2].0 != id);
                        }
                    }
                    assert forall|a2: int|
                        0 <= a2 < entries@.len() implies (#[trigger] entries@[a2]).1@.len()
                        > 0 by {
                        if a2 < entries0.len() {
                            assert(entries@[a2] == entries0[a2]);
                        } else {
                            assert(entries@[a2] == e);
                            assert(sorted@.len() == models_of(sorted@).len());
                        }
                    }
                    assert forall|id2: BufferId| #[trigger] entries_groups(entries@, id2) == (
                    if idseq.subrange(0, w + 1).contains(id2) {
                        merged_groups(bm, snapshots@, id2)
                    } else {
                        Seq::<GroupModel>::empty()
                    }) by {
                        lemma_find_key_idx_push(entries0, e, id2);
                        lemma_contains_push(prefix, idseq[w as int], id2);
                        assert(idseq.subrange(0, w + 1) =~= prefix.push(idseq[w as int]));
                        if id2 == id {
                            assert(find_key_idx(entries@, id2) == entries0.len() as int);
                            assert(entries@[entries0.len() as int] == e);
                            assert(entries_groups(entries@, id2) == models_of(sorted@));
                            assert(merged_groups(bm, snapshots@, id2) == sort_groups_spec(
                                snapshots@[si as int].1,
                                combined_for(bm, id),
                            ));
                        } else {
                            lemma_find_key_idx(entries0, id2);
                            if find_key_idx(entries0, id2) >= 0 {
                                assert(find_key_idx(entries@, id2) == find_key_idx(entries0, id2));
                                assert(entries@[find_key_idx(entries0, id2)] == entries0[
                                    find_key_idx(entries0, id2)]);
                            } else {
                                assert(find_key_idx(entries@, id2) == -1);
                            }
                            assert(entries_groups(entries@, id2) == entries_groups(entries0, id2));
                        }
                    }
                    assert forall|id2: BufferId|
                        !idseq.subrange(0, w + 1).contains(id2) implies #[trigger] find_key_idx(
                        entries@,
                        id2,
                    ) == -1 by {
                        lemma_find_key_idx_push(entries0, e, id2);
                        lemma_contains_push(prefix, idseq[w as int], id2);
                        assert(idseq.subrange(0, w + 1) =~= prefix.push(idseq[w as int]));
                    }
                }
            } else {
                proof {
                    if si >= snapshots.len() {
                        assert(find_key_idx(snapshots@, id) == -1);
                    } else {
                        assert(combined_for(bm, id).len() == 0);
                    }
                    assert(merged_groups(bm, snapshots@, id) =~= Seq::<GroupModel>::empty());
                    assert forall|id2: BufferId| #[trigger] entries_groups(entries@, id2) == (
                    if idseq.subrange(0, w + 1).contains(id2) {
                        merged_groups(bm, snapshots@, id2)
                    } else {
                        Seq::<GroupModel>::empty()
                    }) by {
                        lemma_contains_push(prefix, idseq[w as int], id2);
                        assert(idseq.subrange(0, w + 1) =~= prefix.push(idseq[w as int]));
                        if id2 == id {
                            assert(find_key_idx(entries@, id2) == -1);
                        }
                    }
                    assert forall|id2: BufferId|
                        !idseq.subrange(0, w + 1).contains(id2) implies #[trigger] find_key_idx(
                        entries@,
                        id2,
                    ) == -1 by {
                        lemma_contains_push(prefix, idseq[w as int], id2);
                        assert(idseq.subrange(0, w + 1) =~= prefix.push(idseq[w as int]));
                    }
                }
            }
            w += 1;
        }
        let ghost installed_entries = entries@;
        proof {
            assert(idseq.subrange(0, idseq.len() as int) =~= idseq);
        }
        self.index.entries = entries;
        proof {
            assert(self.index.entries@ == installed_entries);
            assert forall|id: BufferId| #[trigger] self.index.groups_model(id) == merged_groups(
                bm,
                snapshots@,
                id,
            ) by {
                if !idseq.contains(id) {
                    assert forall|u: int| 0 <= u < bm.len() implies (#[trigger] bm[u]).0 != id by {
                        if bm[u].0 == id {
                            assert(idseq.contains(bm[u].0));
                        }
                    }
                    lemma_combined_absent(bm, id);
                    assert(merged_groups(bm, snapshots@, id) =~= Seq::<GroupModel>::empty());
                }
            }
        }
        true
    }

    pub fn rename_started(&mut self)
        ensures
            final(self).latest_generation == old(self).latest_generation,
            final(self).wf(),
            final(self).index.entries@.len() == 0,
            forall|id: BufferId| (#[trigger] final(self).index.groups_model(id)).len() == 0,
    {
        self.index.clear();
    }
}

} // verus!
