//! SyncGroup request validation: generation and member-epoch checks, the
//! pending-member set, and leadership.
use vstd::prelude::*;
use crate::text::str_eq;
use crate::consumer_group::group::{ConsumerGroup, SyncGroupResponse, find_member, member_index};

verus! {

/// Ids of a list of member names.
pub open spec fn ids_view(s: Seq<String>) -> Seq<Seq<char>> {
    s.map_values(|x: String| x@)
}

/// Every field of the two groups but `pending_members` is the same.
pub open spec fn same_but_pending(a: ConsumerGroup, b: ConsumerGroup) -> bool {
    &&& a.group_id == b.group_id
    &&& a.state == b.state
    &&& a.generation_id == b.generation_id
    &&& a.leader_id == b.leader_id
    &&& a.members == b.members
    &&& a.rebalance_start_time == b.rebalance_start_time
    &&& a.assignment_strategy == b.assignment_strategy
    &&& a.completed_assignments == b.completed_assignments
    &&& a.completed_generation == b.completed_generation
}

/// SyncGroup validation.
pub struct SyncValidator;

impl SyncValidator {
    /// An ILLEGAL_GENERATION (27) reply when `generation_id` is not the
    /// group's generation; `None` when it is.
    pub fn validate_generation(group: &ConsumerGroup, generation_id: i32) -> (r: Option<
        SyncGroupResponse,
    >)
        ensures
            (r is None) == (group.generation_id == generation_id),
            r is Some ==> r->0.error_code == 27 && r->0.assignment@.len() == 0
                && r->0.member_epoch == 0,
    {
        if group.generation_id != generation_id {
            return Some(SyncGroupResponse { error_code: 27, assignment: Vec::new(), member_epoch: 0 });
        }
        None
    }

    /// A FENCED_MEMBER_EPOCH (78) reply, carrying the member's current epoch,
    /// when the member is known and `member_epoch` differs from it; `None`
    /// otherwise.
    pub fn validate_member_epoch(group: &ConsumerGroup, member_id: &str, member_epoch: i32) -> (r:
        Option<SyncGroupResponse>)
        ensures
            ({
                let i = member_index(group.members@, member_id@);
                &&& (r is Some) == (i >= 0 && group.members@[i].member_epoch != member_epoch)
                &&& r is Some ==> r->0.error_code == 78 && r->0.assignment@.len() == 0
                    && r->0.member_epoch == group.members@[i].member_epoch
            }),
    {
        if let Some(i) = find_member(&group.members, member_id) {
            let current = group.members[i].member_epoch;
            if current != member_epoch {
                return Some(
                    SyncGroupResponse { error_code: 78, assignment: Vec::new(), member_epoch: current },
                );
            }
        }
        None
    }

    /// Removes `member_id` from the pending set; nothing else changes.
    pub fn remove_from_pending(group: &mut ConsumerGroup, member_id: &str)
        ensures
            ids_view(final(group).pending_members@) == ids_view(old(group).pending_members@).filter(
                |x: Seq<char>| x != member_id@,
            ),
            same_but_pending(*final(group), *old(group)),
    {
        let ghost pred = |x: Seq<char>| x != member_id@;
        let mut kept: Vec<String> = Vec::new();
        let mut i: usize = 0;
        while i < group.pending_members.len()
            invariant
                i <= group.pending_members@.len(),
                ids_view(kept@) == ids_view(group.pending_members@).take(i as int).filter(pred),
                pred == (|x: Seq<char>| x != member_id@),
            decreases group.pending_members.len() - i,
        {
            let ghost before = kept@;
            let ghost all = ids_view(group.pending_members@);
            assert(all.len() == group.pending_members@.len());
            assert(all.take(i as int + 1).len() == i + 1);
            assert(all.take(i as int + 1).drop_last() =~= all.take(i as int));
            assert(all.take(i as int + 1).last() == group.pending_members@[i as int]@);
            let ghost last = group.pending_members@[i as int]@;
            reveal(Seq::filter);
            assert(all.take(i as int + 1).filter(pred) == (if pred(last) {
                all.take(i as int).filter(pred).push(last)
            } else {
                all.take(i as int).filter(pred)
            }));
            if !str_eq(group.pending_members[i].as_str(), member_id) {
                kept.push(group.pending_members[i].clone());
                assert(ids_view(kept@) =~= ids_view(before).push(group.pending_members@[i as int]@));
            }
            i += 1;
        }
        assert(ids_view(group.pending_members@).take(group.pending_members@.len() as int)
            == ids_view(group.pending_members@));
        group.pending_members = kept;
    }

    /// Whether `member_id` is the group's leader.
    pub fn is_leader(group: &ConsumerGroup, member_id: &str) -> (r: bool)
        ensures
            r == (group.leader_id is Some && group.leader_id->0@ == member_id@),
    {
        match &group.leader_id {
            Some(l) => str_eq(l.as_str(), member_id),
            None => false,
        }
    }
}

} // verus!
