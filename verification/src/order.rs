//! Snapshot-relative ordering of linked-range groups, and a verified sort:
//! groups are ordered by their primary's start offset under an explicit
//! snapshot, the end offset breaking ties. The sort is pinned to a
//! deterministic specification so that re-running a cycle over the same data
//! reproduces the same index.

use vstd::prelude::*;
use vstd::seq_lib::group_to_multiset_ensures;

use crate::anchors::BufferSnapshot;
use crate::anchors::spec_range_le;
use crate::groups::GroupModel;
use crate::groups::LinkGroup;
use crate::groups::models_of;
use crate::groups::groups_valid;
use crate::groups::group_valid;

verus! {

/// Group order under a snapshot: by the primary span.
pub open spec fn group_le(snap: BufferSnapshot, a: GroupModel, b: GroupModel) -> bool {
    spec_range_le(snap, a.primary, b.primary)
}

/// The groups are sorted by their primary span under the snapshot.
pub open spec fn groups_sorted(snap: BufferSnapshot, gs: Seq<GroupModel>) -> bool {
    forall|i: int, j: int|
        0 <= i <= j < gs.len() ==> #[trigger] group_le(snap, gs[i], gs[j])
}

/// Where a group is inserted into a sorted sequence: after every group at or
/// before it in the order.
pub open spec fn insert_pos(snap: BufferSnapshot, s: Seq<GroupModel>, g: GroupModel) -> int
    decreases s.len(),
{
    if s.len() == 0 {
        0
    } else if group_le(snap, s[0], g) {
        1 + insert_pos(snap, s.drop_first(), g)
    } else {
        0
    }
}

/// Insertion of one group into a sequence, keeping the order.
pub open spec fn insert_ordered(
    snap: BufferSnapshot,
    s: Seq<GroupModel>,
    g: GroupModel,
) -> Seq<GroupModel> {
    s.insert(insert_pos(snap, s, g), g)
}

/// The sorted rearrangement of a group sequence under a snapshot: groups are
/// inserted one by one, in order of appearance. This is a total function of
/// its arguments, so equal inputs sort to equal outputs.
pub open spec fn sort_groups_spec(snap: BufferSnapshot, s: Seq<GroupModel>) -> Seq<GroupModel>
    decreases s.len(),
{
    if s.len() == 0 {
        Seq::<GroupModel>::empty()
    } else {
        insert_ordered(snap, sort_groups_spec(snap, s.drop_last()), s.last())
    }
}

pub proof fn lemma_insert_pos_props(snap: BufferSnapshot, s: Seq<GroupModel>, g: GroupModel)
    ensures
        0 <= insert_pos(snap, s, g) <= s.len(),
        forall|k: int| 0 <= k < insert_pos(snap, s, g) ==> group_le(snap, #[trigger] s[k], g),
        insert_pos(snap, s, g) < s.len() ==> !group_le(snap, s[insert_pos(snap, s, g)], g),
    decreases s.len(),
{
    if s.len() > 0 && group_le(snap, s[0], g) {
        lemma_insert_pos_props(snap, s.drop_first(), g);
        assert forall|k: int| 0 <= k < insert_pos(snap, s, g) implies group_le(
            snap,
            #[trigger] s[k],
            g,
        ) by {
            if k > 0 {
                assert(s.drop_first()[k - 1] == s[k]);
            }
        }
        if insert_pos(snap, s, g) < s.len() {
            assert(s.drop_first()[insert_pos(snap, s.drop_first(), g)] == s[insert_pos(
                snap,
                s,
                g,
            )]);
        }
    }
}

pub proof fn lemma_insert_ordered_props(snap: BufferSnapshot, s: Seq<GroupModel>, g: GroupModel)
    requires
        groups_sorted(snap, s),
    ensures
        groups_sorted(snap, insert_ordered(snap, s, g)),
        insert_ordered(snap, s, g).to_multiset() == s.to_multiset().insert(g),
        insert_ordered(snap, s, g).len() == s.len() + 1,
        forall|x: GroupModel|
            insert_ordered(snap, s, g).contains(x) ==> s.contains(x) || x == g,
{
    broadcast use group_to_multiset_ensures;
    broadcast use vstd::multiset::group_multiset_axioms;

    lemma_insert_pos_props(snap, s, g);
    let p = insert_pos(snap, s, g);
    let r = insert_ordered(snap, s, g);
    assert(r.to_multiset() == s.to_multiset().insert(g));
    assert forall|i: int, j: int| 0 <= i <= j < r.len() implies #[trigger] group_le(
        snap,
        r[i],
        r[j],
    ) by {
        if i < p && j < p {
            assert(r[i] == s[i] && r[j] == s[j]);
        } else if i < p && j == p {
            assert(r[i] == s[i] && r[j] == g);
        } else if i < p && j > p {
            assert(r[i] == s[i] && r[j] == s[j - 1]);
        } else if i == p && j == p {
            assert(group_le(snap, g, g));
        } else if i == p && j > p {
            assert(r[j] == s[j - 1] && j - 1 >= p);
            assert(!group_le(snap, s[p], g));
            assert(group_le(snap, g, s[p]));
            assert(group_le(snap, s[p], s[j - 1]));
        } else {
            assert(r[i] == s[i - 1] && r[j] == s[j - 1]);
        }
    }
    assert forall|x: GroupModel| r.contains(x) implies s.contains(x) || x == g by {
        assert(r.to_multiset().count(x) > 0);
        if x != g {
            assert(s.to_multiset().count(x) > 0);
        }
    }
}

pub proof fn lemma_sort_groups_props(snap: BufferSnapshot, s: Seq<GroupModel>)
    ensures
        groups_sorted(snap, sort_groups_spec(snap, s)),
        sort_groups_spec(snap, s).to_multiset() == s.to_multiset(),
        sort_groups_spec(snap, s).len() == s.len(),
        forall|x: GroupModel| sort_groups_spec(snap, s).contains(x) <==> s.contains(x),
    decreases s.len(),
{
    broadcast use group_to_multiset_ensures;
    broadcast use vstd::multiset::group_multiset_axioms;

    if s.len() == 0 {
        assert(sort_groups_spec(snap, s).to_multiset() =~= s.to_multiset());
    } else {
        let prefix = s.drop_last();
        lemma_sort_groups_props(snap, prefix);
        lemma_insert_ordered_props(snap, sort_groups_spec(snap, prefix), s.last());
        assert(s =~= prefix.push(s.last()));
        assert(s.to_multiset() == prefix.to_multiset().insert(s.last()));
        assert(sort_groups_spec(snap, s).to_multiset() == s.to_multiset());
    }
    assert forall|x: GroupModel| sort_groups_spec(snap, s).contains(x) <==> s.contains(x) by {
        assert(s.contains(x) <==> s.to_multiset().count(x) > 0);
        assert(sort_groups_spec(snap, s).contains(x) <==> sort_groups_spec(
            snap,
            s,
        ).to_multiset().count(x) > 0);
    }
}

/// Sorting keeps every anchor of the groups resolvable: the sorted sequence
/// holds the same groups.
pub proof fn lemma_sort_preserves_valid(snap: BufferSnapshot, s: Seq<GroupModel>)
    requires
        groups_valid(snap, s),
    ensures
        groups_valid(snap, sort_groups_spec(snap, s)),
{
    lemma_sort_groups_props(snap, s);
    let r = sort_groups_spec(snap, s);
    assert forall|i: int| 0 <= i < r.len() implies group_valid(snap, #[trigger] r[i]) by {
        assert(r.contains(r[i]));
        assert(s.contains(r[i]));
        let k = choose|k: int| 0 <= k < s.len() && s[k] == r[i];
        assert(group_valid(snap, s[k]));
    }
}

/// Inserts `g` into the sorted `gs`, keeping it sorted.
fn insert_group(gs: &mut Vec<LinkGroup>, g: LinkGroup, snap: &BufferSnapshot)
    requires
        groups_sorted(*snap, models_of(old(gs)@)),
        groups_valid(*snap, models_of(old(gs)@)),
        group_valid(*snap, g@),
    ensures
        models_of(final(gs)@) == insert_ordered(*snap, models_of(old(gs)@), g@),
{
    let ghost ms = models_of(gs@);
    proof {
        assert forall|k: int| 0 <= k < gs@.len() implies snap.range_valid(
            (#[trigger] gs@[k]).primary,
        ) by {
            assert(ms[k] == gs@[k]@);
        }
    }
    let mut i: usize = 0;
    while i < gs.len() && snap.range_le(&gs[i].primary, &g.primary)
        invariant
            gs@ == old(gs)@,
            i <= gs@.len(),
            forall|k: int| 0 <= k < gs@.len() ==> snap.range_valid((#[trigger] gs@[k]).primary),
            forall|k: int| 0 <= k < i ==> group_le(*snap, #[trigger] ms[k], g@),
            groups_valid(*snap, ms),
            group_valid(*snap, g@),
            ms == models_of(gs@),
        decreases gs@.len() - i,
    {
        assert(ms[i as int] == gs@[i as int]@);
        i += 1;
    }
    proof {
        lemma_insert_pos_props(*snap, ms, g@);
        let p = insert_pos(*snap, ms, g@);
        if i < gs.len() {
            assert(ms[i as int] == gs@[i as int]@);
            assert(!group_le(*snap, ms[i as int], g@));
        }
        // `i` satisfies the same characterisation as `insert_pos`, which pins it.
        if p < i {
            assert(group_le(*snap, ms[p], g@));
        }
        if i < p {
            assert(group_le(*snap, ms[i as int], g@));
        }
        assert(p == i);
    }
    gs.insert(i, g);
    proof {
        assert(models_of(gs@) =~= ms.insert(i as int, g@));
    }
}

/// Sorts the groups by their primary span under the snapshot, by insertion in
/// order of appearance.
pub fn sort_groups(groups: Vec<LinkGroup>, snap: &BufferSnapshot) -> (r: Vec<LinkGroup>)
    requires
        groups_valid(*snap, models_of(groups@)),
    ensures
        models_of(r@) == sort_groups_spec(*snap, models_of(groups@)),
{
    let ghost orig = models_of(groups@);
    let mut rest = groups;
    let mut acc: Vec<LinkGroup> = Vec::new();
    proof {
        assert(models_of(rest@) =~= orig.subrange(0, orig.len() as int));
        assert(orig.subrange(0, 0) =~= Seq::<GroupModel>::empty());
        assert(models_of(acc@) =~= Seq::<GroupModel>::empty());
    }
    while rest.len() > 0
        invariant
            rest@.len() <= orig.len(),
            groups_valid(*snap, orig),
            models_of(rest@) == orig.subrange(
                orig.len() - rest@.len(),
                orig.len() as int,
            ),
            models_of(acc@) == sort_groups_spec(
                *snap,
                orig.subrange(0, orig.len() - rest@.len()),
            ),
        decreases rest@.len(),
    {
        let ghost k = orig.len() - rest@.len();
        let ghost done = orig.subrange(0, k);
        let ghost rest0 = rest@;
        let g = rest.remove(0);
        proof {
            assert(g == rest0[0]);
            assert(models_of(rest0)[0] == rest0[0]@);
            assert(g@ == orig.subrange(k, orig.len() as int)[0]);
            assert(g@ == orig[k]);
            assert forall|i: int| 0 <= i < rest@.len() implies models_of(rest@)[i]
                == orig.subrange(k + 1, orig.len() as int)[i] by {
                assert(rest@[i] == rest0[i + 1]);
                assert(models_of(rest0)[i + 1] == rest0[i + 1]@);
                assert(models_of(rest0)[i + 1] == orig.subrange(k, orig.len() as int)[i + 1]);
            }
            assert(models_of(rest@) =~= orig.subrange(k + 1, orig.len() as int));
            lemma_sort_groups_props(*snap, done);
            lemma_sort_preserves_valid(*snap, done);
            assert forall|i: int| 0 <= i < done.len() implies group_valid(
                *snap,
                #[trigger] done[i],
            ) by {
                assert(done[i] == orig[i]);
            }
            assert(group_valid(*snap, orig[k]));
        }
        insert_group(&mut acc, g, snap);
        proof {
            let done2 = orig.subrange(0, k + 1);
            assert(done2.drop_last() =~= done);
            assert(done2.last() == orig[k]);
            assert(models_of(acc@) == sort_groups_spec(*snap, done2));
        }
    }
    proof {
        assert(orig.subrange(0, orig.len() as int) =~= orig);
    }
    acc
}

} // verus!
