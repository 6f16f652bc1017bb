//! SyncGroup replies built from what the group already holds.
use vstd::prelude::*;
use crate::consumer_group::group::{
    Assignment, AssignmentStrategy, ConsumerGroup, SyncGroupResponse, assignment_for,
    find_assignment, find_member, member_index,
};
use crate::consumer_group::assignment::{encode_assignment, encoded_assignment};

verus! {

/// The assignment the fallback path serves to member `i`: the target
/// assignment under cooperative-sticky when there is one, else the working
/// assignment; if that is empty and the group's recorded assignments are for
/// the current generation, the non-empty record for the member instead.
pub open spec fn fallback_assignment(g: ConsumerGroup, id: Seq<char>, i: int) -> Seq<(Seq<char>, Seq<i32>)> {
    let m = g.members@[i];
    let base = if g.assignment_strategy == AssignmentStrategy::CooperativeSticky
        && m.target_assignment is Some {
        m.target_assignment->0@
    } else {
        m.assignment@
    };
    if base.len() == 0 && g.completed_generation == g.generation_id {
        match assignment_for(g.completed_assignments@, id) {
            Some(rec) => if rec.len() > 0 { rec } else { base },
            None => base,
        }
    } else {
        base
    }
}

/// Which assignment a known member is handed, in terms of its fields:
/// under CooperativeSticky a non-empty target assignment; otherwise (other
/// strategies, or no target) a non-empty working assignment; an empty one
/// gives way to a non-empty record of the current generation.
pub open spec fn fallback_law(g: ConsumerGroup, id: Seq<char>, i: int, handed: Seq<(Seq<char>, Seq<i32>)>) -> bool {
    let m = g.members@[i];
    &&& (g.assignment_strategy == AssignmentStrategy::CooperativeSticky && m.target_assignment is Some
        && m.target_assignment->0@.len() > 0) ==> handed == m.target_assignment->0@
    &&& (g.assignment_strategy != AssignmentStrategy::CooperativeSticky && m.assignment@.len() > 0)
        ==> handed == m.assignment@
    &&& (m.target_assignment is None && m.assignment@.len() > 0) ==> handed == m.assignment@
    &&& (g.assignment_strategy != AssignmentStrategy::CooperativeSticky && m.assignment@.len() == 0
        && g.completed_generation == g.generation_id
        && assignment_for(g.completed_assignments@, id) is Some
        && assignment_for(g.completed_assignments@, id)->0.len() > 0)
        ==> handed == assignment_for(g.completed_assignments@, id)->0
}

/// A member is handed its target assignment under CooperativeSticky, its
/// working assignment otherwise, and a recorded one only in place of an
/// empty one.
pub proof fn lemma_fallback_choice(g: ConsumerGroup, id: Seq<char>, i: int)
    requires
        0 <= i < g.members@.len(),
    ensures
        fallback_law(g, id, i, fallback_assignment(g, id, i)),
{
}

/// SyncGroup reply construction.
pub struct SyncResponseBuilder;

impl SyncResponseBuilder {
    /// The reply to a member from the group's own records: error 0, the
    /// encoded `fallback_assignment` and the member's epoch; an unknown
    /// member gets an empty assignment and epoch 0.
    pub fn build_fallback_response(group: &ConsumerGroup, member_id: &str) -> (r: SyncGroupResponse)
        ensures
            r.error_code == 0,
            ({
                let i = member_index(group.members@, member_id@);
                if i < 0 {
                    r.assignment@.len() == 0 && r.member_epoch == 0
                } else {
                    r.assignment@ == encoded_assignment(fallback_assignment(*group, member_id@, i))
                        && r.member_epoch == group.members@[i].member_epoch
                }
            }),
            ({
                let i = member_index(group.members@, member_id@);
                let m = group.members@[i];
                i >= 0 && group.assignment_strategy == AssignmentStrategy::CooperativeSticky
                    && m.target_assignment is Some && m.target_assignment->0@.len() > 0
                    ==> r.assignment@ == encoded_assignment(m.target_assignment->0@)
            }),
    {
        proof {
            let i = member_index(group.members@, member_id@);
            if 0 <= i < group.members@.len() {
                lemma_fallback_choice(*group, member_id@, i);
            }
        }
        match find_member(&group.members, member_id) {
            None => SyncGroupResponse { error_code: 0, assignment: Vec::new(), member_epoch: 0 },
            Some(i) => {
                let member = &group.members[i];
                let base: &Assignment = if group.assignment_strategy == AssignmentStrategy::CooperativeSticky {
                    match &member.target_assignment {
                        Some(t) => t,
                        None => &member.assignment,
                    }
                } else {
                    &member.assignment
                };
                let chosen: &Assignment = if base.is_empty() && group.completed_generation
                    == group.generation_id {
                    match find_assignment(&group.completed_assignments, member_id) {
                        Some(rec) => if !rec.is_empty() { rec } else { base },
                        None => base,
                    }
                } else {
                    base
                };
                SyncGroupResponse {
                    error_code: 0,
                    assignment: encode_assignment(chosen),
                    member_epoch: member.member_epoch,
                }
            },
        }
    }

    /// A reply carrying only an error code and an epoch.
    pub fn build_error_response(error_code: i16, member_epoch: i32) -> (r: SyncGroupResponse)
        ensures
            r.error_code == error_code,
            r.assignment@.len() == 0,
            r.member_epoch == member_epoch,
    {
        SyncGroupResponse { error_code, assignment: Vec::new(), member_epoch }
    }
}

} // verus!
