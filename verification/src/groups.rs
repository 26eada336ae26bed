//! Linked-range groups: one primary span together with the sibling spans it
//! is linked to, and the mathematical model the contracts speak of.

use vstd::prelude::*;

use crate::anchors::AnchorRange;
use crate::anchors::BufferSnapshot;

verus! {

/// One linked-range group: a primary span and the ordered sibling spans
/// linked to it. The siblings of a primary never include the primary itself.
#[derive(PartialEq, Eq, Debug)]
pub struct LinkGroup {
    pub primary: AnchorRange,
    pub siblings: Vec<AnchorRange>,
}

/// Mathematical model of a [`LinkGroup`]: the primary span and the sibling
/// spans as a sequence.
pub ghost struct GroupModel {
    pub primary: AnchorRange,
    pub siblings: Seq<AnchorRange>,
}

impl LinkGroup {
    /// A copy of the group: same primary, same siblings.
    pub fn duplicate(&self) -> (r: LinkGroup)
        ensures
            r@ == self@,
    {
        let mut sib: Vec<AnchorRange> = Vec::new();
        let mut i: usize = 0;
        while i < self.siblings.len()
            invariant
                i <= self.siblings@.len(),
                sib@ == self.siblings@.subrange(0, i as int),
            decreases self.siblings@.len() - i,
        {
            sib.push(self.siblings[i]);
            proof {
                assert(sib@ =~= self.siblings@.subrange(0, i + 1));
            }
            i += 1;
        }
        proof {
            assert(sib@ =~= self.siblings@);
        }
        LinkGroup { primary: self.primary, siblings: sib }
    }
}

impl View for LinkGroup {
    type V = GroupModel;

    open spec fn view(&self) -> GroupModel {
        GroupModel { primary: self.primary, siblings: self.siblings@ }
    }
}

/// The models of a sequence of groups, element by element.
pub open spec fn models_of(gs: Seq<LinkGroup>) -> Seq<GroupModel> {
    gs.map_values(|g: LinkGroup| g@)
}

/// Every anchor the group mentions resolves under the snapshot.
pub open spec fn group_valid(snap: BufferSnapshot, m: GroupModel) -> bool {
    &&& snap.range_valid(m.primary)
    &&& forall|j: int| 0 <= j < m.siblings.len() ==> snap.range_valid(#[trigger] m.siblings[j])
}

/// Every anchor the groups mention resolves under the snapshot.
pub open spec fn groups_valid(snap: BufferSnapshot, ms: Seq<GroupModel>) -> bool {
    forall|i: int| 0 <= i < ms.len() ==> group_valid(snap, #[trigger] ms[i])
}

} // verus!
