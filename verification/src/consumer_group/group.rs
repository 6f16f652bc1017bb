//! The consumer-group model that the SyncGroup logic reads and updates.
use vstd::prelude::*;
use crate::text::str_eq;

verus! {

/// Position of the first pair whose key is `k`, or -1.
pub open spec fn key_index<K, V>(s: Seq<(K, V)>, k: K) -> int
    decreases s.len(),
{
    if s.len() == 0 {
        -1
    } else if s[0].0 == k {
        0
    } else {
        let r = key_index(s.drop_first(), k);
        if r < 0 { -1 } else { r + 1 }
    }
}

/// The value paired with the first occurrence of `k`, if any.
pub open spec fn key_lookup<K, V>(s: Seq<(K, V)>, k: K) -> Option<V> {
    let i = key_index(s, k);
    if i < 0 { None } else { Some(s[i].1) }
}

/// No key occurs twice.
pub open spec fn keys_unique<K, V>(s: Seq<(K, V)>) -> bool {
    forall|i: int, j: int| 0 <= i < j < s.len() ==> s[i].0 != s[j].0
}

/// Map insertion on an association list: replace the value of an existing
/// key in place, or append a new pair.
pub open spec fn key_insert<K, V>(s: Seq<(K, V)>, k: K, v: V) -> Seq<(K, V)> {
    let i = key_index(s, k);
    if i < 0 { s.push((k, v)) } else { s.update(i, (k, v)) }
}

pub proof fn lemma_key_index<K, V>(s: Seq<(K, V)>, k: K)
    ensures
        -1 <= key_index(s, k) < s.len(),
        key_index(s, k) >= 0 ==> s[key_index(s, k)].0 == k,
        key_index(s, k) >= 0 ==> forall|j: int| 0 <= j < key_index(s, k) ==> s[j].0 != k,
        key_index(s, k) < 0 ==> forall|j: int| 0 <= j < s.len() ==> s[j].0 != k,
    decreases s.len(),
{
    if s.len() > 0 {
        lemma_key_index(s.drop_first(), k);
        if s[0].0 != k {
            assert forall|j: int| 1 <= j < s.len() implies s[j] == s.drop_first()[j - 1] by {}
        }
    }
}

pub proof fn lemma_key_insert_unique<K, V>(s: Seq<(K, V)>, k: K, v: V)
    requires
        keys_unique(s),
    ensures
        keys_unique(key_insert(s, k, v)),
{
    lemma_key_index(s, k);
}

/// Lifecycle state of a consumer group.
#[derive(Clone, Copy, Debug, PartialEq, Eq, Structural)]
pub enum GroupState {
    Empty,
    PreparingRebalance,
    CompletingRebalance,
    Stable,
    Dead,
}

/// Partition assignment strategy a group runs with.
#[derive(Clone, Copy, Debug, PartialEq, Eq, Structural)]
pub enum AssignmentStrategy {
    Range,
    RoundRobin,
    Sticky,
    CooperativeSticky,
}

/// The partitions of one topic owned by a member.
#[derive(Debug)]
pub struct TopicPartitions {
    pub topic: String,
    pub partitions: Vec<i32>,
}

/// A member's partition assignment: topics, each with its partitions, each
/// topic once.
#[derive(Debug)]
pub struct Assignment {
    pub(crate) topics: Vec<TopicPartitions>,
}

pub open spec fn topic_view(t: TopicPartitions) -> (Seq<char>, Seq<i32>) {
    (t.topic@, t.partitions@)
}

impl View for Assignment {
    type V = Seq<(Seq<char>, Seq<i32>)>;

    closed spec fn view(&self) -> Seq<(Seq<char>, Seq<i32>)> {
        self.topics_view()
    }
}

impl Assignment {
    /// The topics, in order, as plain values.
    pub(crate) open spec fn topics_view(&self) -> Seq<(Seq<char>, Seq<i32>)> {
        self.topics@.map_values(|t: TopicPartitions| topic_view(t))
    }

    pub(crate) proof fn lemma_view(&self)
        ensures
            self@ == self.topics_view(),
    {
    }
}

/// A copy of a partition list.
pub fn copy_i32s(v: &Vec<i32>) -> (r: Vec<i32>)
    ensures
        r@ == v@,
{
    let mut r: Vec<i32> = Vec::new();
    let mut i: usize = 0;
    while i < v.len()
        invariant
            i <= v.len(),
            r@ == v@.take(i as int),
        decreases v.len() - i,
    {
        r.push(v[i]);
        i += 1;
        assert(r@ == v@.take(i as int));
    }
    assert(v@.take(v@.len() as int) == v@);
    r
}

impl Assignment {
    /// Each topic occurs once.
    #[verifier::type_invariant]
    pub(crate) open spec fn topics_unique(self) -> bool {
        keys_unique(self@)
    }

    /// The empty assignment.
    pub fn new() -> (r: Assignment)
        ensures
            r@ == Seq::<(Seq<char>, Seq<i32>)>::empty(),
    {
        Assignment { topics: Vec::new() }
    }

    /// Number of topics.
    pub fn len(&self) -> (n: usize)
        ensures
            n == self@.len(),
    {
        self.topics.len()
    }

    /// Whether no topic is assigned.
    pub fn is_empty(&self) -> (b: bool)
        ensures
            b == (self@.len() == 0),
    {
        self.topics.len() == 0
    }

    /// Position of `topic`, if it is assigned.
    pub fn position(&self, topic: &str) -> (r: Option<usize>)
        ensures
            match r {
                Some(i) => key_index(self@, topic@) == i as int && i < self@.len(),
                None => key_index(self@, topic@) < 0,
            },
    {
        proof {
            lemma_key_index(self@, topic@);
        }
        let mut i: usize = 0;
        while i < self.topics.len()
            invariant
                i <= self.topics@.len(),
                self@.len() == self.topics@.len(),
                forall|j: int| 0 <= j < i ==> self@[j].0 != topic@,
                -1 <= key_index(self@, topic@) < self@.len(),
                key_index(self@, topic@) >= 0 ==> self@[key_index(self@, topic@)].0 == topic@,
                key_index(self@, topic@) >= 0 ==> forall|j: int|
                    0 <= j < key_index(self@, topic@) ==> self@[j].0 != topic@,
                key_index(self@, topic@) < 0 ==> forall|j: int|
                    0 <= j < self@.len() ==> self@[j].0 != topic@,
            decreases self.topics.len() - i,
        {
            assert(self@[i as int] == topic_view(self.topics@[i as int]));
            if str_eq(self.topics[i].topic.as_str(), topic) {
                return Some(i);
            }
            i += 1;
        }
        None
    }

    /// The partitions assigned for `topic`.
    pub fn get(&self, topic: &str) -> (r: Option<&Vec<i32>>)
        ensures
            match r {
                Some(p) => key_lookup(self@, topic@) == Some(p@),
                None => key_lookup(self@, topic@) is None,
            },
    {
        match self.position(topic) {
            Some(i) => {
                assert(self@[i as int] == topic_view(self.topics@[i as int]));
                Some(&self.topics[i].partitions)
            },
            None => None,
        }
    }

    /// Sets the partitions of `topic`, replacing what it had.
    pub fn insert(&mut self, topic: String, partitions: Vec<i32>)
        ensures
            final(self)@ == key_insert(old(self)@, topic@, partitions@),
    {
        proof {
            use_type_invariant(&*self);
            lemma_key_index(old(self)@, topic@);
            lemma_key_insert_unique(old(self)@, topic@, partitions@);
        }
        let ghost t = topic@;
        let ghost p = partitions@;
        let pos = self.position(topic.as_str());
        let mut topics: Vec<TopicPartitions> = Vec::new();
        std::mem::swap(&mut topics, &mut self.topics);
        assert(topics@.map_values(|t: TopicPartitions| topic_view(t)) == old(self)@);
        match pos {
            Some(i) => {
                topics.set(i, TopicPartitions { topic, partitions });
                assert(topics@.map_values(|t: TopicPartitions| topic_view(t)) =~= old(self)@.update(i as int, (t, p)));
            },
            None => {
                topics.push(TopicPartitions { topic, partitions });
                assert(topics@.map_values(|t: TopicPartitions| topic_view(t)) =~= old(self)@.push((t, p)));
            },
        }
        self.topics = topics;
    }

    /// A copy of this assignment.
    pub fn duplicate(&self) -> (r: Assignment)
        ensures
            r@ == self@,
    {
        proof {
            use_type_invariant(self);
        }
        let mut topics: Vec<TopicPartitions> = Vec::new();
        let mut i: usize = 0;
        while i < self.topics.len()
            invariant
                i <= self.topics@.len(),
                topics@.map_values(|t: TopicPartitions| topic_view(t)) == self@.take(i as int),
                topics@.len() == i,
                self@.len() == self.topics@.len(),
            decreases self.topics.len() - i,
        {
            let t = &self.topics[i];
            assert(self@[i as int] == topic_view(self.topics@[i as int]));
            let ghost before = topics@;
            topics.push(TopicPartitions { topic: t.topic.clone(), partitions: copy_i32s(&t.partitions) });
            assert(before.len() == i);
            assert(topic_view(topics@[before.len() as int]) == self@[i as int]);
            assert(topics@.map_values(|t: TopicPartitions| topic_view(t)) =~= before.map_values(|t: TopicPartitions| topic_view(t)).push(self@[i as int]));
            i += 1;
            assert(topics@.map_values(|t: TopicPartitions| topic_view(t)) =~= self@.take(i as int));
        }
        assert(self@.take(self@.len() as int) == self@);
        Assignment { topics }
    }
}


/// One member of a consumer group.
#[derive(Debug)]
pub struct GroupMember {
    pub member_id: String,
    pub member_epoch: i32,
    pub assignment: Assignment,
    pub target_assignment: Option<Assignment>,
}

/// The assignment recorded for one member.
#[derive(Debug)]
pub struct MemberAssignment {
    pub member_id: String,
    pub assignment: Assignment,
}

/// A consumer group as the coordinator holds it.
///
/// `members` and `completed_assignments` are keyed by member id; a lookup
/// takes the first entry with the id.
#[derive(Debug)]
pub struct ConsumerGroup {
    pub group_id: String,
    pub state: GroupState,
    pub generation_id: i32,
    pub leader_id: Option<String>,
    pub members: Vec<GroupMember>,
    pub pending_members: Vec<String>,
    /// When the current rebalance began, in milliseconds, if one is running.
    pub rebalance_start_time: Option<u64>,
    pub assignment_strategy: AssignmentStrategy,
    /// The assignments the leader made for `completed_generation`.
    pub completed_assignments: Vec<MemberAssignment>,
    pub completed_generation: i32,
}

/// A SyncGroup reply to one member.
#[derive(Debug)]
pub struct SyncGroupResponse {
    pub error_code: i16,
    pub assignment: Vec<u8>,
    pub member_epoch: i32,
}

/// Members keyed by id.
pub open spec fn members_by_id(ms: Seq<GroupMember>) -> Seq<(Seq<char>, GroupMember)> {
    ms.map_values(|m: GroupMember| (m.member_id@, m))
}

/// Position of the member with id `id` (the first such), or -1.
pub open spec fn member_index(ms: Seq<GroupMember>, id: Seq<char>) -> int {
    key_index(members_by_id(ms), id)
}

/// Recorded assignments keyed by member id.
pub open spec fn assignments_by_id(s: Seq<MemberAssignment>) -> Seq<(Seq<char>, Seq<(Seq<char>, Seq<i32>)>)> {
    s.map_values(|m: MemberAssignment| (m.member_id@, m.assignment@))
}

/// The assignment recorded for `id`, if any.
pub open spec fn assignment_for(s: Seq<MemberAssignment>, id: Seq<char>) -> Option<Seq<(Seq<char>, Seq<i32>)>> {
    key_lookup(assignments_by_id(s), id)
}

/// Finds the member with id `id`.
pub fn find_member(ms: &Vec<GroupMember>, id: &str) -> (r: Option<usize>)
    ensures
        match r {
            Some(i) => member_index(ms@, id@) == i as int && i < ms@.len(),
            None => member_index(ms@, id@) < 0,
        },
{
    proof {
        lemma_key_index(members_by_id(ms@), id@);
    }
    let mut i: usize = 0;
    while i < ms.len()
        invariant
            i <= ms@.len(),
            forall|j: int| 0 <= j < i ==> members_by_id(ms@)[j].0 != id@,
            -1 <= member_index(ms@, id@) < ms@.len(),
            member_index(ms@, id@) >= 0 ==> members_by_id(ms@)[member_index(ms@, id@)].0 == id@,
            member_index(ms@, id@) >= 0 ==> forall|j: int|
                0 <= j < member_index(ms@, id@) ==> members_by_id(ms@)[j].0 != id@,
            member_index(ms@, id@) < 0 ==> forall|j: int|
                0 <= j < ms@.len() ==> members_by_id(ms@)[j].0 != id@,
        decreases ms.len() - i,
    {
        assert(members_by_id(ms@)[i as int].0 == ms@[i as int].member_id@);
        if str_eq(ms[i].member_id.as_str(), id) {
            return Some(i);
        }
        i += 1;
    }
    None
}

/// Finds the recorded assignment for `id`.
pub fn find_assignment<'a>(s: &'a Vec<MemberAssignment>, id: &str) -> (r: Option<&'a Assignment>)
    ensures
        match r {
            Some(a) => assignment_for(s@, id@) == Some(a@),
            None => assignment_for(s@, id@) is None,
        },
{
    proof {
        lemma_key_index(assignments_by_id(s@), id@);
    }
    let mut i: usize = 0;
    while i < s.len()
        invariant
            i <= s@.len(),
            forall|j: int| 0 <= j < i ==> assignments_by_id(s@)[j].0 != id@,
            -1 <= key_index(assignments_by_id(s@), id@) < s@.len(),
            key_index(assignments_by_id(s@), id@) >= 0 ==> assignments_by_id(s@)[key_index(
                assignments_by_id(s@),
                id@,
            )].0 == id@,
            key_index(assignments_by_id(s@), id@) >= 0 ==> forall|j: int|
                0 <= j < key_index(assignments_by_id(s@), id@) ==> assignments_by_id(s@)[j].0
                    != id@,
            key_index(assignments_by_id(s@), id@) < 0 ==> forall|j: int|
                0 <= j < s@.len() ==> assignments_by_id(s@)[j].0 != id@,
        decreases s.len() - i,
    {
        assert(assignments_by_id(s@)[i as int] == (s@[i as int].member_id@, s@[i as int].assignment@));
        if str_eq(s[i].member_id.as_str(), id) {
            return Some(&s[i].assignment);
        }
        i += 1;
    }
    None
}

impl Default for ConsumerGroup {
    /// An empty group: no members, generation 0, range strategy.
    fn default() -> (g: Self)
        ensures
            g.group_id@ == Seq::<char>::empty(),
            g.state == GroupState::Empty,
            g.generation_id == 0,
            g.leader_id is None,
            g.members@ == Seq::<GroupMember>::empty(),
            g.pending_members@ == Seq::<String>::empty(),
            g.rebalance_start_time is None,
            g.assignment_strategy == AssignmentStrategy::Range,
            g.completed_assignments@ == Seq::<MemberAssignment>::empty(),
            g.completed_generation == 0,
    {
        ConsumerGroup {
            group_id: String::new(),
            state: GroupState::Empty,
            generation_id: 0,
            leader_id: None,
            members: Vec::new(),
            pending_members: Vec::new(),
            rebalance_start_time: None,
            assignment_strategy: AssignmentStrategy::Range,
            completed_assignments: Vec::new(),
            completed_generation: 0,
        }
    }
}

impl Default for GroupMember {
    /// A member with an empty id, epoch 0 and nothing assigned.
    fn default() -> (m: Self)
        ensures
            m.member_id@ == Seq::<char>::empty(),
            m.member_epoch == 0,
            m.assignment@ == Seq::<(Seq<char>, Seq<i32>)>::empty(),
            m.target_assignment is None,
    {
        GroupMember {
            member_id: String::new(),
            member_epoch: 0,
            assignment: Assignment::new(),
            target_assignment: None,
        }
    }
}

} // verus!

