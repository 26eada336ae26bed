//! The laws the engine obeys, stated and proved over the same spec functions
//! the executable contracts use.

use vstd::prelude::*;
use vstd::seq_lib::group_to_multiset_ensures;

use crate::anchors::AnchorRange;
use crate::anchors::BufferId;
use crate::anchors::BufferSnapshot;
use crate::anchors::spec_range_contains;
use crate::groups::GroupModel;
use crate::index::candidate_idx;
use crate::index::lemma_candidate_idx;
use crate::index::lookup_model;
use crate::order::group_le;
use crate::order::lemma_sort_groups_props;
use crate::order::sort_groups_spec;
use crate::pipeline::SelectionResolution;
use crate::pipeline::applicable_queries;
use crate::pipeline::batch_groups;
use crate::pipeline::clique_model;
use crate::pipeline::merged_groups;

verus! {

/// Each group's primary span starts at or before it ends.
pub open spec fn ranges_wf(snap: BufferSnapshot, ms: Seq<GroupModel>) -> bool {
    forall|i: int|
        0 <= i < ms.len() ==> snap.spec_resolve((#[trigger] ms[i]).primary.start)
            <= snap.spec_resolve(ms[i].primary.end)
}

/// The groups' primary spans have pairwise distinct starts and do not
/// overlap, in whatever order they stand.
pub open spec fn pairwise_disjoint(snap: BufferSnapshot, ms: Seq<GroupModel>) -> bool {
    forall|i: int, j: int|
        0 <= i < j < ms.len() ==> {
            &&& snap.spec_resolve((#[trigger] ms[i]).primary.start) != snap.spec_resolve(
                (#[trigger] ms[j]).primary.start,
            )
            &&& (snap.spec_resolve(ms[i].primary.end) <= snap.spec_resolve(ms[j].primary.start)
                || snap.spec_resolve(ms[j].primary.end) <= snap.spec_resolve(ms[i].primary.start))
        }
}

/// The sort/non-overlap invariant of an installed buffer entry: strictly
/// sorted by primary start, and each primary ends at or before the next one
/// starts.
pub open spec fn sorted_disjoint(snap: BufferSnapshot, ms: Seq<GroupModel>) -> bool {
    forall|i: int, j: int|
        0 <= i < j < ms.len() ==> {
            &&& snap.spec_resolve((#[trigger] ms[i]).primary.start) < snap.spec_resolve(
                (#[trigger] ms[j]).primary.start,
            )
            &&& snap.spec_resolve(ms[i].primary.end) <= snap.spec_resolve(ms[j].primary.start)
        }
}

/// Stronger than the install invariant: each primary ends strictly before
/// the next one starts, so no two primaries even touch.
pub open spec fn strictly_separated(snap: BufferSnapshot, ms: Seq<GroupModel>) -> bool {
    forall|i: int, j: int|
        0 <= i < j < ms.len() ==> snap.spec_resolve((#[trigger] ms[i]).primary.end)
            < snap.spec_resolve((#[trigger] ms[j]).primary.start)
}

proof fn lemma_count_two<T>(s: Seq<T>, i: int, j: int)
    requires
        0 <= i < j < s.len(),
        s[i] == s[j],
    ensures
        s.to_multiset().count(s[i]) >= 2,
{
    broadcast use group_to_multiset_ensures;
    broadcast use vstd::multiset::group_multiset_axioms;

    let s2 = s.remove(j);
    assert(s2.to_multiset() == s.to_multiset().remove(s[j]));
    assert(s2[i] == s[i]);
    assert(s2.contains(s[i]));
    assert(s2.to_multiset().count(s[i]) > 0);
}

proof fn lemma_second_index<T>(s: Seq<T>, a: int)
    requires
        0 <= a < s.len(),
        s.to_multiset().count(s[a]) >= 2,
    ensures
        exists|b: int| 0 <= b < s.len() && b != a && s[b] == s[a],
{
    broadcast use group_to_multiset_ensures;
    broadcast use vstd::multiset::group_multiset_axioms;

    let s2 = s.remove(a);
    assert(s2.to_multiset() == s.to_multiset().remove(s[a]));
    assert(s2.to_multiset().count(s[a]) >= 1);
    assert(s2.contains(s[a]));
    let v = choose|v: int| 0 <= v < s2.len() && s2[v] == s[a];
    if v < a {
        assert(s2[v] == s[v]);
        assert(s[v] == s[a] && v != a);
    } else {
        assert(s2[v] == s[v + 1]);
        assert(s[v + 1] == s[a] && v + 1 != a);
    }
}

/// Sort/non-overlap invariant: when the groups a cycle merges for one
/// buffer have pairwise distinct, non-overlapping primary spans, the entry
/// the install leaves for that buffer is strictly sorted by primary start
/// and each primary ends at or before the next one starts.
pub proof fn lemma_install_invariant(snap: BufferSnapshot, ms: Seq<GroupModel>)
    requires
        ranges_wf(snap, ms),
        pairwise_disjoint(snap, ms),
    ensures
        sorted_disjoint(snap, sort_groups_spec(snap, ms)),
{
    broadcast use group_to_multiset_ensures;
    broadcast use vstd::multiset::group_multiset_axioms;

    lemma_sort_groups_props(snap, ms);
    let r = sort_groups_spec(snap, ms);
    assert forall|i: int, j: int| 0 <= i < j < r.len() implies {
        &&& snap.spec_resolve((#[trigger] r[i]).primary.start) < snap.spec_resolve(
            (#[trigger] r[j]).primary.start,
        )
        &&& snap.spec_resolve(r[i].primary.end) <= snap.spec_resolve(r[j].primary.start)
    } by {
        assert(r.contains(r[i]));
        assert(r.contains(r[j]));
        assert(ms.contains(r[i]));
        assert(ms.contains(r[j]));
        if r[i] == r[j] {
            lemma_count_two(r, i, j);
            assert(ms.to_multiset().count(r[i]) >= 2);
            let a = choose|a: int| 0 <= a < ms.len() && ms[a] == r[i];
            lemma_second_index(ms, a);
            let b = choose|b: int| 0 <= b < ms.len() && b != a && ms[b] == ms[a];
            if a < b {
                assert(snap.spec_resolve(ms[a].primary.start) != snap.spec_resolve(
                    ms[b].primary.start,
                ));
            } else {
                assert(snap.spec_resolve(ms[b].primary.start) != snap.spec_resolve(
                    ms[a].primary.start,
                ));
            }
        } else {
            let a = choose|a: int| 0 <= a < ms.len() && ms[a] == r[i];
            let b = choose|b: int| 0 <= b < ms.len() && ms[b] == r[j];
            assert(a != b);
            assert(group_le(snap, r[i], r[j]));
            if a < b {
                assert(snap.spec_resolve(ms[a].primary.start) != snap.spec_resolve(
                    ms[b].primary.start,
                ));
            } else {
                assert(snap.spec_resolve(ms[b].primary.start) != snap.spec_resolve(
                    ms[a].primary.start,
                ));
            }
            assert(snap.spec_resolve(r[i].primary.start) < snap.spec_resolve(r[j].primary.start));
            if snap.spec_resolve(r[j].primary.end) <= snap.spec_resolve(r[i].primary.start) {
                assert(snap.spec_resolve(r[j].primary.start) <= snap.spec_resolve(
                    r[j].primary.end,
                ));
            }
        }
    }
}

/// Containment correctness, positive half: under well-formed, strictly
/// separated primaries, a lookup whose query span lies inside group `k`'s
/// primary returns exactly that group. Two primaries that touch (one's end
/// equal to the next one's start) are excluded: an empty query collapsed on
/// the shared boundary would lie in both.
pub proof fn lemma_lookup_finds_containing(
    snap: BufferSnapshot,
    gs: Seq<GroupModel>,
    q: AnchorRange,
    k: int,
)
    requires
        ranges_wf(snap, gs),
        strictly_separated(snap, gs),
        snap.spec_resolve(q.start) <= snap.spec_resolve(q.end),
        0 <= k < gs.len(),
        spec_range_contains(snap, gs[k].primary, q),
    ensures
        lookup_model(snap, gs, q) == Some(gs[k]),
{
    let qs = snap.spec_resolve(q.start);
    let qe = snap.spec_resolve(q.end);
    lemma_candidate_idx(snap, gs, qs);
    let c = candidate_idx(snap, gs, qs);
    assert(snap.spec_resolve(gs[k].primary.start) <= qs);
    assert(k <= c);
    if k < c {
        assert(snap.spec_resolve(gs[k].primary.end) < snap.spec_resolve(gs[c].primary.start));
        assert(snap.spec_resolve(gs[c].primary.start) <= qs);
        assert(snap.spec_resolve(gs[k].primary.end) >= qe);
        assert(false);
    }
    assert(c == k);
    assert(snap.spec_resolve(gs[c].primary.end) >= qe);
}

/// Containment correctness, negative half: when the query span lies inside
/// no group's primary, the lookup returns nothing.
pub proof fn lemma_lookup_misses(snap: BufferSnapshot, gs: Seq<GroupModel>, q: AnchorRange)
    requires
        forall|k: int|
            0 <= k < gs.len() ==> !spec_range_contains(snap, (#[trigger] gs[k]).primary, q),
    ensures
        lookup_model(snap, gs, q) is None,
{
    let qs = snap.spec_resolve(q.start);
    lemma_candidate_idx(snap, gs, qs);
    let c = candidate_idx(snap, gs, qs);
    if c >= 0 {
        assert(!spec_range_contains(snap, gs[c].primary, q));
    }
}

/// Clique completeness: a provider response of `n >= 2` pairwise distinct
/// spans yields a batch in which every span appears as primary exactly
/// once, each with the other `n - 1` spans as its siblings — so any two
/// response spans stand in each other's sibling list — and no span among
/// its own siblings.
pub proof fn lemma_clique_complete(snap: BufferSnapshot, s: Seq<AnchorRange>)
    requires
        s.len() >= 2,
        forall|i: int, j: int| 0 <= i < j < s.len() ==> s[i] != s[j],
    ensures
        batch_groups(snap, s).len() == s.len(),
        forall|t: int|
            0 <= t < s.len() ==> exists|i: int|
                0 <= i < batch_groups(snap, s).len() && (#[trigger] batch_groups(snap, s)[i]).primary
                    == #[trigger] s[t],
        forall|i: int|
            0 <= i < batch_groups(snap, s).len() ==> s.contains(
                (#[trigger] batch_groups(snap, s)[i]).primary,
            ) && batch_groups(snap, s)[i].siblings.len() == s.len() - 1,
        forall|i: int, t: int|
            0 <= i < batch_groups(snap, s).len() && 0 <= t < s.len() && s[t] != (
            #[trigger] batch_groups(snap, s)[i]).primary ==> batch_groups(snap, s)[i].siblings.contains(
                #[trigger] s[t],
            ),
        forall|i: int|
            0 <= i < batch_groups(snap, s).len() ==> !(#[trigger] batch_groups(
                snap,
                s,
            )[i]).siblings.contains(batch_groups(snap, s)[i].primary),
        forall|i: int, j: int|
            0 <= i < j < batch_groups(snap, s).len() ==> (#[trigger] batch_groups(
                snap,
                s,
            )[i]).primary != (#[trigger] batch_groups(snap, s)[j]).primary,
{
    broadcast use group_to_multiset_ensures;
    broadcast use vstd::multiset::group_multiset_axioms;

    let cm = clique_model(s);
    let batch = batch_groups(snap, s);
    lemma_sort_groups_props(snap, cm);
    assert(cm.len() == s.len());
    assert forall|t: int| 0 <= t < s.len() implies (#[trigger] cm[t]).primary == s[t]
        && cm[t].siblings == s.remove(t) by {}
    assert forall|t: int, u: int|
        #![trigger s.remove(t), s[u]]
        0 <= t < s.len() && 0 <= u < s.len() && u != t implies s.remove(t).contains(s[u]) by {
        if u < t {
            assert(s.remove(t)[u] == s[u]);
        } else {
            assert(s.remove(t)[u - 1] == s[u]);
        }
    }
    assert forall|t: int| 0 <= t < s.len() implies !s.remove(t).contains(#[trigger] s[t]) by {
        if s.remove(t).contains(s[t]) {
            let v = choose|v: int| 0 <= v < s.remove(t).len() && s.remove(t)[v] == s[t];
            if v < t {
                assert(s.remove(t)[v] == s[v]);
            } else {
                assert(s.remove(t)[v] == s[v + 1]);
            }
        }
    }
    assert forall|i: int| 0 <= i < batch.len() implies cm.contains(#[trigger] batch[i]) by {
        assert(batch.contains(batch[i]));
    }
    assert forall|t: int| #![trigger s[t]] 0 <= t < s.len() implies exists|i: int|
        0 <= i < batch.len() && (#[trigger] batch[i]).primary == s[t] by {
        assert(cm.contains(cm[t]));
        assert(batch.contains(cm[t]));
        let i = choose|i: int| 0 <= i < batch.len() && batch[i] == cm[t];
        assert(batch[i].primary == s[t]);
    }
    assert forall|i: int| 0 <= i < batch.len() implies s.contains((#[trigger] batch[i]).primary)
        && batch[i].siblings.len() == s.len() - 1 by {
        let t = choose|t: int| 0 <= t < cm.len() && cm[t] == batch[i];
        assert(batch[i].primary == s[t]);
        assert(batch[i].siblings == s.remove(t));
    }
    assert forall|i: int, t: int|
        0 <= i < batch.len() && 0 <= t < s.len() && s[t] != (
    #[trigger] batch[i]).primary implies batch[i].siblings.contains(#[trigger] s[t]) by {
        let t2 = choose|t2: int| 0 <= t2 < cm.len() && cm[t2] == batch[i];
        assert(batch[i].primary == s[t2]);
        assert(t != t2);
        assert(s.remove(t2).contains(s[t]));
    }
    assert forall|i: int| 0 <= i < batch.len() implies !(#[trigger] batch[i]).siblings.contains(
        batch[i].primary,
    ) by {
        let t = choose|t: int| 0 <= t < cm.len() && cm[t] == batch[i];
        assert(!s.remove(t).contains(s[t]));
    }
    assert forall|i: int, j: int| 0 <= i < j < batch.len() implies (#[trigger] batch[i]).primary
        != (#[trigger] batch[j]).primary by {
        if batch[i] == batch[j] {
            lemma_count_two(batch, i, j);
            assert(cm.to_multiset().count(batch[i]) >= 2);
            assert(cm.contains(batch[i]));
            let a = choose|a: int| 0 <= a < cm.len() && cm[a] == batch[i];
            lemma_second_index(cm, a);
            let b = choose|b: int| 0 <= b < cm.len() && b != a && cm[b] == cm[a];
            assert(s[a] == s[b]);
            assert(false);
        } else if batch[i].primary == batch[j].primary {
            let a = choose|a: int| 0 <= a < cm.len() && cm[a] == batch[i];
            let b = choose|b: int| 0 <= b < cm.len() && cm[b] == batch[j];
            assert(s[a] == batch[i].primary);
            assert(s[b] == batch[j].primary);
            assert(a == b);
            assert(false);
        }
    }
}

/// Cross-buffer selection exclusion: a selection whose endpoints did not
/// both resolve, to one and the same buffer, contributes nothing — removing
/// it from the cycle leaves the cycle's queries unchanged.
pub proof fn lemma_cross_buffer_excluded(sels: Seq<SelectionResolution>, i: int)
    requires
        0 <= i < sels.len(),
        match (sels[i].head, sels[i].tail) {
            (Some(h), Some(t)) => h.buffer != t.buffer,
            _ => true,
        },
    ensures
        applicable_queries(sels) == applicable_queries(sels.remove(i)),
    decreases sels.len(),
{
    if i == sels.len() - 1 {
        assert(sels.remove(i) =~= sels.drop_last());
    } else {
        assert(sels.remove(i).drop_last() =~= sels.drop_last().remove(i));
        assert(sels.remove(i).last() == sels.last());
        assert(sels.drop_last()[i] == sels[i]);
        lemma_cross_buffer_excluded(sels.drop_last(), i);
    }
}

/// Idempotent re-run: what a cycle installs for a buffer is a function of
/// the cycle's batches and merge snapshots alone — the index's prior
/// content does not appear — so re-running a cycle over identical batches
/// and snapshots reproduces the same groups for every buffer.
pub proof fn lemma_rerun_idempotent(
    bm1: Seq<(BufferId, Seq<GroupModel>)>,
    sm1: Seq<(BufferId, BufferSnapshot)>,
    bm2: Seq<(BufferId, Seq<GroupModel>)>,
    sm2: Seq<(BufferId, BufferSnapshot)>,
    id: BufferId,
)
    requires
        bm1 == bm2,
        sm1 == sm2,
    ensures
        merged_groups(bm1, sm1, id) == merged_groups(bm2, sm2, id),
{
}

} // verus!
