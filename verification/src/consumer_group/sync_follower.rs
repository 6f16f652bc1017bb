//! The follower's side of SyncGroup: whether to wait for the leader, when
//! the coordinator takes over assignment, and what it then sends.
use vstd::prelude::*;
use crate::consumer_group::group::{ConsumerGroup, GroupState, MemberAssignment, SyncGroupResponse};
use crate::consumer_group::sync_leader::{
    apply_to_members, assignments_applied, replies, replies_for, replies_view,
};

verus! {

/// Follower-side SyncGroup logic.
pub struct FollowerSync;

impl FollowerSync {
    /// A follower waits for the leader's assignment while the group is
    /// rebalancing (preparing or completing).
    pub fn should_wait_for_leader(group: &ConsumerGroup, is_leader: bool) -> (r: bool)
        ensures
            r == (!is_leader && (group.state == GroupState::CompletingRebalance || group.state
                == GroupState::PreparingRebalance)),
    {
        !is_leader && (group.state == GroupState::CompletingRebalance || group.state
            == GroupState::PreparingRebalance)
    }

    /// The coordinator's fallback timer is armed once every follower is
    /// waiting, and there is at least one.
    pub fn should_arm_fallback(follower_count: usize, pending_count: usize) -> (r: bool)
        ensures
            r == (pending_count == follower_count && follower_count != 0),
    {
        !(pending_count != follower_count || follower_count == 0)
    }

    /// Applies coordinator-computed assignments (the group becomes Stable)
    /// and returns the reply owed to every member in `computed`.
    pub fn apply_fallback_assignments(
        group: &mut ConsumerGroup,
        computed_assignments: &Vec<MemberAssignment>,
    ) -> (r: Vec<(String, SyncGroupResponse)>)
        ensures
            assignments_applied(*old(group), *final(group), computed_assignments@),
            replies_view(r@) == replies_for(*final(group), computed_assignments@, None),
            forall|i: int| 0 <= i < r@.len() ==> (#[trigger] r@[i]).1.error_code == 0,
    {
        apply_to_members(group, computed_assignments);
        replies(group, computed_assignments, None)
    }
}

} // verus!
