//! The group leader's side of SyncGroup: choosing the assignment source,
//! applying assignments, and the replies owed to leader and followers.
use vstd::prelude::*;
use crate::text::str_eq;
use crate::consumer_group::group::{
    Assignment, ConsumerGroup, GroupMember, GroupState, MemberAssignment, SyncGroupResponse,
    assignment_for, assignments_by_id, find_assignment, find_member, key_index, key_insert,
    keys_unique, lemma_key_index, member_index,
};
use crate::consumer_group::assignment::{
    DecodeError, decode_assignment, decode_assignment_outcome, decode_outcome, encode_assignment, encoded_assignment,
};

verus! {

/// The epoch of member `id`, or 0 for an unknown member.
pub open spec fn epoch_of(g: ConsumerGroup, id: Seq<char>) -> i32 {
    let i = member_index(g.members@, id);
    if i < 0 { 0 } else { g.members@[i].member_epoch }
}

/// Every field of the two groups but `members`, `state` and
/// `rebalance_start_time` is the same.
pub open spec fn same_identity(a: ConsumerGroup, b: ConsumerGroup) -> bool {
    &&& a.group_id == b.group_id
    &&& a.generation_id == b.generation_id
    &&& a.leader_id == b.leader_id
    &&& a.pending_members == b.pending_members
    &&& a.assignment_strategy == b.assignment_strategy
    &&& a.completed_assignments == b.completed_assignments
    &&& a.completed_generation == b.completed_generation
}

/// Member `new` is member `old` with its working assignment replaced by the
/// computed one for its id, if there is one.
pub open spec fn member_applied(old: GroupMember, new: GroupMember, computed: Seq<MemberAssignment>) -> bool {
    &&& new.member_id@ == old.member_id@
    &&& new.member_epoch == old.member_epoch
    &&& new.target_assignment.is_some() == old.target_assignment.is_some()
    &&& (old.target_assignment is Some ==> new.target_assignment->0@ == old.target_assignment->0@)
    &&& new.assignment@ == match assignment_for(computed, old.member_id@) {
        Some(a) => a,
        None => old.assignment@,
    }
}

/// `g` after applying `computed`: members updated, state Stable, no
/// rebalance running.
pub open spec fn assignments_applied(old: ConsumerGroup, new: ConsumerGroup, computed: Seq<MemberAssignment>) -> bool {
    &&& new.state == GroupState::Stable
    &&& new.rebalance_start_time is None
    &&& same_identity(new, old)
    &&& new.members@.len() == old.members@.len()
    &&& forall|i: int|
        0 <= i < old.members@.len() ==> member_applied(
            old.members@[i],
            #[trigger] new.members@[i],
            computed,
        )
}

/// The replies owed for `computed`, in order, skipping member `skip`:
/// (member id, encoded assignment, member epoch).
pub open spec fn replies_for(g: ConsumerGroup, computed: Seq<MemberAssignment>, skip: Option<Seq<char>>) -> Seq<(Seq<char>, Seq<u8>, i32)>
    decreases computed.len(),
{
    if computed.len() == 0 {
        Seq::empty()
    } else {
        let sub = replies_for(g, computed.drop_last(), skip);
        let m = computed.last();
        if skip == Some(m.member_id@) {
            sub
        } else {
            sub.push((m.member_id@, encoded_assignment(m.assignment@), epoch_of(g, m.member_id@)))
        }
    }
}

/// The view of planned replies.
pub open spec fn replies_view(r: Seq<(String, SyncGroupResponse)>) -> Seq<(Seq<char>, Seq<u8>, i32)> {
    r.map_values(|p: (String, SyncGroupResponse)| (p.0@, p.1.assignment@, p.1.member_epoch))
}

/// A copy of an optional assignment.
pub fn duplicate_opt(a: &Option<Assignment>) -> (r: Option<Assignment>)
    ensures
        r.is_some() == a.is_some(),
        a is Some ==> r->0@ == a->0@,
{
    match a {
        Some(x) => Some(x.duplicate()),
        None => None,
    }
}

/// The member's epoch, or 0 if the group has no such member.
pub fn member_epoch_of(group: &ConsumerGroup, member_id: &str) -> (e: i32)
    ensures
        e == epoch_of(*group, member_id@),
{
    match find_member(&group.members, member_id) {
        Some(i) => group.members[i].member_epoch,
        None => 0,
    }
}

/// The success replies for `computed`, skipping member `skip`.
pub fn replies(group: &ConsumerGroup, computed: &Vec<MemberAssignment>, skip: Option<&str>) -> (r: Vec<
    (String, SyncGroupResponse),
>)
    ensures
        replies_view(r@) == replies_for(*group, computed@, match skip {
            Some(s) => Some(s@),
            None => None,
        }),
        forall|i: int| 0 <= i < r@.len() ==> (#[trigger] r@[i]).1.error_code == 0,
{
    let ghost sk = match skip {
        Some(s) => Some(s@),
        None => None::<Seq<char>>,
    };
    let mut r: Vec<(String, SyncGroupResponse)> = Vec::new();
    let mut i: usize = 0;
    while i < computed.len()
        invariant
            i <= computed@.len(),
            replies_view(r@) == replies_for(*group, computed@.take(i as int), sk),
            forall|k: int| 0 <= k < r@.len() ==> (#[trigger] r@[k]).1.error_code == 0,
            sk == match skip {
                Some(s) => Some(s@),
                None => None::<Seq<char>>,
            },
        decreases computed.len() - i,
    {
        let m = &computed[i];
        assert(computed@.take(i as int + 1).drop_last() =~= computed@.take(i as int));
        assert(computed@.take(i as int + 1).last() == computed@[i as int]);
        let skipped = match skip {
            Some(s) => str_eq(m.member_id.as_str(), s),
            None => false,
        };
        if !skipped {
            let ghost before = r@;
            let reply = SyncGroupResponse {
                error_code: 0,
                assignment: encode_assignment(&m.assignment),
                member_epoch: member_epoch_of(group, m.member_id.as_str()),
            };
            r.push((m.member_id.clone(), reply));
            assert(replies_view(r@) =~= replies_view(before).push(
                (m.member_id@, encoded_assignment(m.assignment@), epoch_of(*group, m.member_id@)),
            ));
        }
        i += 1;
    }
    assert(computed@.take(computed@.len() as int) =~= computed@);
    r
}

/// Gives each member the computed assignment for its id and moves the
/// group to Stable.
pub fn apply_to_members(group: &mut ConsumerGroup, computed: &Vec<MemberAssignment>)
    ensures
        assignments_applied(*old(group), *final(group), computed@),
{
    let mut i: usize = 0;
    while i < group.members.len()
        invariant
            i <= group.members@.len(),
            group.members@.len() == old(group).members@.len(),
            same_identity(*group, *old(group)),
            forall|k: int|
                0 <= k < i ==> member_applied(old(group).members@[k], #[trigger] group.members@[k], computed@),
            forall|k: int|
                i <= k < group.members@.len() ==> #[trigger] group.members@[k] == old(group).members@[k],
        decreases group.members.len() - i,
    {
        let found = find_assignment(computed, group.members[i].member_id.as_str());
        let new_assignment = match found {
            Some(a) => a.duplicate(),
            None => group.members[i].assignment.duplicate(),
        };
        let member = GroupMember {
            member_id: group.members[i].member_id.clone(),
            member_epoch: group.members[i].member_epoch,
            assignment: new_assignment,
            target_assignment: duplicate_opt(&group.members[i].target_assignment),
        };
        group.members.set(i, member);
        i += 1;
    }
    group.state = GroupState::Stable;
    group.rebalance_start_time = None;
}

/// Client-supplied assignments as (member id, bytes).
pub open spec fn client_view(s: Seq<(String, Vec<u8>)>) -> Seq<(Seq<char>, Seq<u8>)> {
    s.map_values(|p: (String, Vec<u8>)| (p.0@, p.1@))
}

/// The leader's assignments cover every member: present, non-empty, one per
/// member.
pub open spec fn client_complete(g: ConsumerGroup, client: Option<Seq<(Seq<char>, Seq<u8>)>>) -> bool {
    client is Some && client->0.len() > 0 && client->0.len() == g.members@.len()
}

/// Decoding each client assignment in order, a later entry for a member
/// replacing an earlier one; the first failure ends it.
pub open spec fn decode_all(entries: Seq<(Seq<char>, Seq<u8>)>) -> Result<Seq<(Seq<char>, Seq<(Seq<char>, Seq<i32>)>)>, Option<DecodeError>>
    decreases entries.len(),
{
    if entries.len() == 0 {
        Ok(Seq::empty())
    } else {
        match decode_all(entries.drop_last()) {
            Err(e) => Err(e),
            Ok(acc) => match decode_outcome(entries.last().1) {
                Ok(a) => Ok(key_insert(acc, entries.last().0, a)),
                Err(e) => Err(e),
            },
        }
    }
}

proof fn lemma_decode_all_error_stays(c: Seq<(Seq<char>, Seq<u8>)>, i: int, j: int)
    requires
        0 <= i <= j <= c.len(),
        decode_all(c.take(i)) is Err,
    ensures
        decode_all(c.take(j)) == decode_all(c.take(i)),
    decreases j - i,
{
    if j > i {
        lemma_decode_all_error_stays(c, i, j - 1);
        assert(c.take(j).drop_last() =~= c.take(j - 1));
    }
}

/// Whether decoding the leader's assignments, in order, reaches a negative
/// topic-name length before any other error: where
/// `resolve_client_assignments` cannot proceed.
pub fn client_assignments_decode_stop(entries: &Vec<(String, Vec<u8>)>) -> (b: bool)
    ensures
        b == (decode_all(client_view(entries@)) == Err::<Seq<(Seq<char>, Seq<(Seq<char>, Seq<i32>)>)>, Option<DecodeError>>(None)),
{
    let ghost c = client_view(entries@);
    let mut i: usize = 0;
    assert(c.take(0) =~= Seq::<(Seq<char>, Seq<u8>)>::empty());
    while i < entries.len()
        invariant
            i <= entries@.len(),
            c == client_view(entries@),
            c.len() == entries@.len(),
            decode_all(c.take(i as int)) is Ok,
        decreases entries.len() - i,
    {
        assert(c.take(i as int + 1).drop_last() =~= c.take(i as int));
        assert(c.take(i as int + 1).last() == c[i as int]);
        assert(c[i as int].1 == entries@[i as int].1@);
        match decode_assignment_outcome(entries[i].1.as_slice()) {
            Ok(_) => {},
            Err(e) => {
                proof {
                    lemma_decode_all_error_stays(c, i as int + 1, c.len() as int);
                    assert(c.take(c.len() as int) =~= c);
                }
                return e.is_none();
            },
        }
        i += 1;
    }
    assert(c.take(c.len() as int) =~= c);
    false
}

/// Sets the recorded assignment of `member_id`, replacing what it had.
pub fn insert_member_assignment(v: &mut Vec<MemberAssignment>, member_id: String, assignment: Assignment)
    ensures
        assignments_by_id(final(v)@) == key_insert(assignments_by_id(old(v)@), member_id@, assignment@),
{
    let ghost s = assignments_by_id(v@);
    let ghost k = member_id@;
    let ghost a = assignment@;
    proof {
        lemma_key_index(s, k);
    }
    let mut i: usize = 0;
    while i < v.len()
        invariant
            i <= v@.len(),
            s == assignments_by_id(v@),
            s == assignments_by_id(old(v)@),
            v@ == old(v)@,
            s.len() == v@.len(),
            forall|j: int| 0 <= j < i ==> s[j].0 != k,
            -1 <= key_index(s, k) < s.len(),
            key_index(s, k) >= 0 ==> s[key_index(s, k)].0 == k,
            key_index(s, k) >= 0 ==> forall|j: int| 0 <= j < key_index(s, k) ==> s[j].0 != k,
            key_index(s, k) < 0 ==> forall|j: int| 0 <= j < s.len() ==> s[j].0 != k,
            k == member_id@,
            a == assignment@,
        decreases v.len() - i,
    {
        assert(s[i as int] == (v@[i as int].member_id@, v@[i as int].assignment@));
        if str_eq(v[i].member_id.as_str(), member_id.as_str()) {
            assert(key_index(s, k) == i as int);
            v.set(i, MemberAssignment { member_id, assignment });
            assert(assignments_by_id(v@) =~= s.update(i as int, (k, a)));
            return;
        }
        i += 1;
    }
    v.push(MemberAssignment { member_id, assignment });
    assert(assignments_by_id(v@) =~= s.push((k, a)));
}

/// Chooses the assignment source for the leader's SyncGroup: `None` when the
/// leader's own assignments are missing, empty or do not cover every member
/// (the coordinator then computes them); otherwise the decoded assignments
/// or the first decoding error.
pub fn resolve_client_assignments(
    group: &ConsumerGroup,
    client_assignments: Option<Vec<(String, Vec<u8>)>>,
) -> (r: Option<Result<Vec<MemberAssignment>, DecodeError>>)
    requires
        client_assignments is Some && client_complete(*group, Some(client_view(client_assignments->0@)))
            ==> decode_all(client_view(client_assignments->0@)) != Err::<Seq<(Seq<char>, Seq<(Seq<char>, Seq<i32>)>)>, Option<DecodeError>>(None),
    ensures
        ({
            let c = match client_assignments {
                Some(v) => Some(client_view(v@)),
                None => None,
            };
            &&& (r is None) == !client_complete(*group, c)
            &&& r is Some ==> match r->0 {
                Ok(v) => decode_all(c->0) == Ok::<_, Option<DecodeError>>(assignments_by_id(v@)),
                Err(e) => decode_all(c->0) == Err::<Seq<(Seq<char>, Seq<(Seq<char>, Seq<i32>)>)>, _>(Some(e)),
            }
        }),
{
    let entries = match client_assignments {
        Some(v) => v,
        None => {
            return None;
        },
    };
    if entries.len() == 0 || entries.len() != group.members.len() {
        return None;
    }
    let ghost c = client_view(entries@);
    let mut parsed: Vec<MemberAssignment> = Vec::new();
    assert(c.take(0) =~= Seq::<(Seq<char>, Seq<u8>)>::empty());
    assert(assignments_by_id(parsed@) =~= Seq::<(Seq<char>, Seq<(Seq<char>, Seq<i32>)>)>::empty());
    let mut i: usize = 0;
    while i < entries.len()
        invariant
            i <= entries@.len(),
            c == client_view(entries@),
            c.len() == entries@.len(),
            entries@.len() > 0,
            entries@.len() == group.members@.len(),
            client_assignments == Some(entries),
            decode_all(c) != Err::<Seq<(Seq<char>, Seq<(Seq<char>, Seq<i32>)>)>, Option<DecodeError>>(None),
            decode_all(c.take(i as int)) == Ok::<_, Option<DecodeError>>(assignments_by_id(parsed@)),
        decreases entries.len() - i,
    {
        assert(c.take(i as int + 1).drop_last() =~= c.take(i as int));
        assert(c.take(i as int + 1).last() == (entries@[i as int].0@, entries@[i as int].1@));
        proof {
            lemma_decode_all_prefix(c, i as int + 1);
        }
        let (member_id, bytes) = (&entries[i].0, &entries[i].1);
        match decode_assignment(bytes.as_slice()) {
            Ok(a) => {
                insert_member_assignment(&mut parsed, member_id.clone(), a);
            },
            Err(e) => {
                proof {
                    assert(decode_all(c.take(i as int + 1)) == Err::<Seq<(Seq<char>, Seq<(Seq<char>, Seq<i32>)>)>, _>(Some(e)));
                    lemma_decode_all_error(c, i as int + 1);
                    assert(decode_all(c) == Err::<Seq<(Seq<char>, Seq<(Seq<char>, Seq<i32>)>)>, _>(Some(e)));
                }
                return Some(Err(e));
            },
        }
        i += 1;
    }
    assert(c.take(c.len() as int) =~= c);
    Some(Ok(parsed))
}

/// A prefix whose decoding stops would make the whole decoding stop.
proof fn lemma_decode_all_prefix(c: Seq<(Seq<char>, Seq<u8>)>, k: int)
    requires
        0 <= k <= c.len(),
        decode_all(c) != Err::<Seq<(Seq<char>, Seq<(Seq<char>, Seq<i32>)>)>, Option<DecodeError>>(None),
    ensures
        decode_all(c.take(k)) != Err::<Seq<(Seq<char>, Seq<(Seq<char>, Seq<i32>)>)>, Option<DecodeError>>(None),
    decreases c.len() - k,
{
    if k < c.len() {
        lemma_decode_all_prefix(c, k + 1);
        assert(c.take(k + 1).drop_last() =~= c.take(k));
    } else {
        assert(c.take(k) =~= c);
    }
}

/// An error in a prefix is the error of the whole.
proof fn lemma_decode_all_error(c: Seq<(Seq<char>, Seq<u8>)>, k: int)
    requires
        0 <= k <= c.len(),
        decode_all(c.take(k)) is Err,
    ensures
        decode_all(c) == decode_all(c.take(k)),
    decreases c.len() - k,
{
    if k < c.len() {
        assert(c.take(k + 1).drop_last() =~= c.take(k));
        lemma_decode_all_error(c, k + 1);
    } else {
        assert(c.take(k) =~= c);
    }
}

/// Leader-side SyncGroup logic.
pub struct LeaderAssignment;

impl LeaderAssignment {
    /// Gives each member the computed assignment for its id, moves the group
    /// to Stable and ends the rebalance.
    pub fn apply_assignments(group: &mut ConsumerGroup, computed_assignments: &Vec<MemberAssignment>)
        ensures
            assignments_applied(*old(group), *final(group), computed_assignments@),
    {
        apply_to_members(group, computed_assignments);
    }

    /// The replies owed to the followers waiting on the leader: one per
    /// computed assignment other than the leader's own, each carrying the
    /// encoded assignment and the member's epoch (0 if unknown).
    pub fn follower_responses(
        group: &ConsumerGroup,
        computed_assignments: &Vec<MemberAssignment>,
        leader_member_id: &str,
    ) -> (r: Vec<(String, SyncGroupResponse)>)
        ensures
            replies_view(r@) == replies_for(*group, computed_assignments@, Some(leader_member_id@)),
            forall|i: int| 0 <= i < r@.len() ==> (#[trigger] r@[i]).1.error_code == 0,
    {
        replies(group, computed_assignments, Some(leader_member_id))
    }

    /// The leader's own reply: its computed assignment (empty if none) and
    /// its epoch (0 if unknown).
    pub fn build_leader_response(
        group: &ConsumerGroup,
        computed_assignments: &Vec<MemberAssignment>,
        member_id: &str,
    ) -> (r: SyncGroupResponse)
        ensures
            r.error_code == 0,
            r.assignment@ == encoded_assignment(match assignment_for(computed_assignments@, member_id@) {
                Some(a) => a,
                None => Seq::empty(),
            }),
            r.member_epoch == epoch_of(*group, member_id@),
    {
        let encoded = match find_assignment(computed_assignments, member_id) {
            Some(a) => encode_assignment(a),
            None => encode_assignment(&Assignment::new()),
        };
        SyncGroupResponse {
            error_code: 0,
            assignment: encoded,
            member_epoch: member_epoch_of(group, member_id),
        }
    }
}

} // verus!
