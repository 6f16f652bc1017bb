//! OffsetCommit and OffsetFetch: which commits are stored and which are
//! refused with what code, and how the per-partition answers are grouped by
//! topic (topics in order of first mention, partitions in order).
use vstd::prelude::*;
use vstd::utf8::encode_utf8;
use crate::text::{str_eq, text_is_empty};
use crate::consumer_group::group::{key_index, key_insert, key_lookup, lemma_key_index};

verus! {

/// OFFSET_OUT_OF_RANGE.
pub const OFFSET_OUT_OF_RANGE: i16 = 1;
/// OFFSET_METADATA_TOO_LARGE.
pub const OFFSET_METADATA_TOO_LARGE: i16 = 12;
/// INVALID_TOPIC_EXCEPTION.
pub const INVALID_TOPIC: i16 = 17;
/// INVALID_PARTITIONS.
pub const INVALID_PARTITION: i16 = 37;
/// INVALID_GROUP_ID (answered for a generation below -1).
pub const INVALID_GROUP_ID: i16 = 42;
/// The largest commit metadata accepted, in bytes.
pub const MAX_METADATA_BYTES: usize = 4096;

/// One partition of a commit request.
#[derive(Debug)]
pub struct CommitPartition {
    pub partition_index: i32,
    pub committed_offset: i64,
    pub committed_metadata: Option<String>,
}

/// One topic of a commit request.
#[derive(Debug)]
pub struct CommitTopic {
    pub name: String,
    pub partitions: Vec<CommitPartition>,
}

/// A commit to store.
#[derive(Debug)]
pub struct StoredOffset {
    pub topic: String,
    pub partition: u32,
    pub offset: i64,
    pub metadata: Option<String>,
}

/// What storing one commit gave.
#[derive(Debug)]
pub struct CommitResult {
    pub topic: String,
    pub partition: u32,
    pub error_code: i16,
}

/// A refused commit: topic, partition, error code.
#[derive(Debug)]
pub struct CommitError {
    pub topic: String,
    pub partition: i32,
    pub error_code: i16,
}

/// One partition of a commit answer.
#[derive(Clone, Copy, Debug, PartialEq, Eq, Structural)]
pub struct CommitResponsePartition {
    pub partition_index: i32,
    pub error_code: i16,
}

/// One topic of a commit answer.
#[derive(Debug)]
pub struct CommitResponseTopic {
    pub name: String,
    pub partitions: Vec<CommitResponsePartition>,
}

/// What to do with a commit request.
#[derive(Debug)]
pub enum CommitPlan {
    /// No group id: answer with no topics.
    EmptyGroup,
    /// A generation below -1: answer every partition INVALID_GROUP_ID.
    InvalidGeneration(Vec<CommitResponseTopic>),
    /// Every commit refused: answer with the refusals.
    Rejected(Vec<CommitResponseTopic>),
    /// Store `offsets`, then answer with the results and `errors`.
    Store { offsets: Vec<StoredOffset>, errors: Vec<CommitError> },
}

pub open spec fn opt_text(m: Option<String>) -> Option<Seq<char>> {
    match m {
        Some(s) => Some(s@),
        None => None,
    }
}

pub open spec fn part_view(p: CommitPartition) -> (i32, i64, Option<Seq<char>>) {
    (p.partition_index, p.committed_offset, opt_text(p.committed_metadata))
}

pub open spec fn commit_topic_view(t: CommitTopic) -> (Seq<char>, Seq<(i32, i64, Option<Seq<char>>)>) {
    (t.name@, t.partitions@.map_values(|p: CommitPartition| part_view(p)))
}

pub open spec fn commit_topics_view(ts: Seq<CommitTopic>) -> Seq<(Seq<char>, Seq<(i32, i64, Option<Seq<char>>)>)> {
    ts.map_values(|t: CommitTopic| commit_topic_view(t))
}

pub open spec fn stored_view(s: StoredOffset) -> (Seq<char>, u32, i64, Option<Seq<char>>) {
    (s.topic@, s.partition, s.offset, opt_text(s.metadata))
}

pub open spec fn error_view(e: CommitError) -> (Seq<char>, i32, i16) {
    (e.topic@, e.partition, e.error_code)
}

pub open spec fn response_parts(ps: Seq<CommitResponsePartition>) -> Seq<(i32, i16)> {
    ps.map_values(|p: CommitResponsePartition| (p.partition_index, p.error_code))
}

pub open spec fn response_view(t: CommitResponseTopic) -> (Seq<char>, Seq<(i32, i16)>) {
    (t.name@, response_parts(t.partitions@))
}

pub open spec fn errors_view(es: Seq<CommitError>) -> Seq<(Seq<char>, i32, i16)> {
    es.map_values(|e: CommitError| error_view(e))
}

pub open spec fn stores_view(ss: Seq<StoredOffset>) -> Seq<(Seq<char>, u32, i64, Option<Seq<char>>)> {
    ss.map_values(|s: StoredOffset| stored_view(s))
}

/// Stored commits' results as answers.
pub open spec fn result_entries(rs: Seq<CommitResult>) -> Seq<(Seq<char>, i32, i16)> {
    rs.map_values(|c: CommitResult| (c.topic@, c.partition as i32, c.error_code))
}

/// Every partition of `ps` answered with `code`.
pub open spec fn codes_for(ps: Seq<(i32, i64, Option<Seq<char>>)>, code: i16) -> Seq<(i32, i16)> {
    ps.map_values(|p: (i32, i64, Option<Seq<char>>)| (p.0, code))
}

pub open spec fn responses_view(ts: Seq<CommitResponseTopic>) -> Seq<(Seq<char>, Seq<(i32, i16)>)> {
    ts.map_values(|t: CommitResponseTopic| response_view(t))
}

/// Why a partition's commit is refused, if it is: a negative partition, an
/// offset below -1, metadata over 4096 bytes.
pub open spec fn partition_error(p: (i32, i64, Option<Seq<char>>)) -> Option<i16> {
    if p.0 < 0 {
        Some(INVALID_PARTITION)
    } else if p.1 < -1 {
        Some(OFFSET_OUT_OF_RANGE)
    } else if match p.2 {
        Some(m) => encode_utf8(m).len() > MAX_METADATA_BYTES,
        None => false,
    } {
        Some(OFFSET_METADATA_TOO_LARGE)
    } else {
        None
    }
}

/// The refusals among a topic's partitions: all of them, INVALID_TOPIC,
/// when the name is empty.
pub open spec fn part_errors(name: Seq<char>, ps: Seq<(i32, i64, Option<Seq<char>>)>) -> Seq<(Seq<char>, i32, i16)>
    decreases ps.len(),
{
    if ps.len() == 0 {
        Seq::empty()
    } else {
        let prev = part_errors(name, ps.drop_last());
        let p = ps.last();
        if name.len() == 0 {
            prev.push((name, p.0, INVALID_TOPIC))
        } else {
            match partition_error(p) {
                Some(e) => prev.push((name, p.0, e)),
                None => prev,
            }
        }
    }
}

/// The commits of a topic's partitions to store.
pub open spec fn part_stores(name: Seq<char>, ps: Seq<(i32, i64, Option<Seq<char>>)>) -> Seq<(Seq<char>, u32, i64, Option<Seq<char>>)>
    decreases ps.len(),
{
    if ps.len() == 0 {
        Seq::empty()
    } else {
        let prev = part_stores(name, ps.drop_last());
        let p = ps.last();
        if name.len() > 0 && partition_error(p) is None {
            prev.push((name, p.0 as u32, p.1, p.2))
        } else {
            prev
        }
    }
}

/// The refusals of a request, topic by topic.
pub open spec fn commit_errors(ts: Seq<(Seq<char>, Seq<(i32, i64, Option<Seq<char>>)>)>) -> Seq<(Seq<char>, i32, i16)>
    decreases ts.len(),
{
    if ts.len() == 0 {
        Seq::empty()
    } else {
        commit_errors(ts.drop_last()) + part_errors(ts.last().0, ts.last().1)
    }
}

/// The commits of a request to store, topic by topic.
pub open spec fn commit_stores(ts: Seq<(Seq<char>, Seq<(i32, i64, Option<Seq<char>>)>)>) -> Seq<(Seq<char>, u32, i64, Option<Seq<char>>)>
    decreases ts.len(),
{
    if ts.len() == 0 {
        Seq::empty()
    } else {
        commit_stores(ts.drop_last()) + part_stores(ts.last().0, ts.last().1)
    }
}

/// Per-partition answers grouped by topic: topics in order of first
/// mention, each topic's partitions in order.
pub open spec fn group_entries(es: Seq<(Seq<char>, i32, i16)>) -> Seq<(Seq<char>, Seq<(i32, i16)>)>
    decreases es.len(),
{
    if es.len() == 0 {
        Seq::empty()
    } else {
        let g = group_entries(es.drop_last());
        let e = es.last();
        let prev = match key_lookup(g, e.0) {
            Some(ps) => ps,
            None => Seq::empty(),
        };
        key_insert(g, e.0, prev.push((e.1, e.2)))
    }
}

/// Every partition of every topic answered with `code`.
pub open spec fn all_with_code(ts: Seq<(Seq<char>, Seq<(i32, i64, Option<Seq<char>>)>)>, code: i16) -> Seq<(Seq<char>, Seq<(i32, i16)>)> {
    ts.map_values(|t: (Seq<char>, Seq<(i32, i64, Option<Seq<char>>)>)| (t.0, codes_for(t.1, code)))
}

fn copy_text(m: &Option<String>) -> (r: Option<String>)
    ensures
        opt_text(r) == opt_text(*m),
{
    match m {
        Some(s) => Some(s.clone()),
        None => None,
    }
}

/// Why a partition's commit is refused, if it is.
fn check_partition(p: &CommitPartition) -> (r: Option<i16>)
    ensures
        r == partition_error(part_view(*p)),
{
    if p.partition_index < 0 {
        Some(INVALID_PARTITION)
    } else if p.committed_offset < -1 {
        Some(OFFSET_OUT_OF_RANGE)
    } else {
        match &p.committed_metadata {
            Some(m) => {
                if m.as_str().as_bytes().len() > MAX_METADATA_BYTES {
                    Some(OFFSET_METADATA_TOO_LARGE)
                } else {
                    None
                }
            },
            None => None,
        }
    }
}

/// Adds the answer `(partition, code)` for `topic` to `groups`.
fn add_to_group(groups: &mut Vec<CommitResponseTopic>, topic: &String, partition: i32, code: i16)
    ensures
        responses_view(final(groups)@) == key_insert(
            responses_view(old(groups)@),
            topic@,
            match key_lookup(responses_view(old(groups)@), topic@) {
                Some(ps) => ps,
                None => Seq::empty(),
            }.push((partition, code)),
        ),
{
    let ghost g0 = responses_view(groups@);
    proof {
        lemma_key_index(g0, topic@);
    }
    let mut i: usize = 0;
    while i < groups.len()
        invariant
            i <= groups@.len(),
            g0 == responses_view(groups@),
            g0 == responses_view(old(groups)@),
            forall|j: int| 0 <= j < i ==> g0[j].0 != topic@,
            -1 <= key_index(g0, topic@) < g0.len(),
            key_index(g0, topic@) >= 0 ==> g0[key_index(g0, topic@)].0 == topic@,
            key_index(g0, topic@) >= 0 ==> forall|j: int| 0 <= j < key_index(g0, topic@) ==> g0[j].0 != topic@,
            key_index(g0, topic@) < 0 ==> forall|j: int| 0 <= j < g0.len() ==> g0[j].0 != topic@,
        decreases groups.len() - i,
    {
        assert(g0[i as int] == response_view(groups@[i as int]));
        if str_eq(groups[i].name.as_str(), topic.as_str()) {
            assert(key_index(g0, topic@) == i as int);
            let ghost before = groups@[i as int];
            groups[i].partitions.push(CommitResponsePartition { partition_index: partition, error_code: code });
            assert(response_view(groups@[i as int]) =~= (before.name@, response_view(before).1.push((partition, code))));
            assert(responses_view(groups@) =~= g0.update(i as int, response_view(groups@[i as int])));
            return;
        }
        i += 1;
    }
    let mut ps: Vec<CommitResponsePartition> = Vec::new();
    ps.push(CommitResponsePartition { partition_index: partition, error_code: code });
    let t = CommitResponseTopic { name: topic.clone(), partitions: ps };
    assert(response_view(t) =~= (topic@, Seq::<(i32, i16)>::empty().push((partition, code))));
    groups.push(t);
    assert(responses_view(groups@) =~= g0.push(response_view(t)));
}

/// Answers grouped by topic, for `entries` in order.
pub fn group_by_topic(entries: &Vec<CommitError>) -> (r: Vec<CommitResponseTopic>)
    ensures
        responses_view(r@) == group_entries(errors_view(entries@)),
{
    let ghost es = errors_view(entries@);
    let mut groups: Vec<CommitResponseTopic> = Vec::new();
    let mut i: usize = 0;
    assert(responses_view(groups@) =~= Seq::empty());
    while i < entries.len()
        invariant
            i <= entries@.len(),
            es == errors_view(entries@),
            responses_view(groups@) == group_entries(es.take(i as int)),
        decreases entries.len() - i,
    {
        assert(es.take(i as int + 1).drop_last() =~= es.take(i as int));
        assert(es.take(i as int + 1).last() == error_view(entries@[i as int]));
        add_to_group(&mut groups, &entries[i].topic, entries[i].partition, entries[i].error_code);
        i += 1;
    }
    assert(es.take(es.len() as int) =~= es);
    groups
}

/// Decides what to do with an OffsetCommit request for `group_id` at
/// `generation_id`: no group id answers nothing; a generation below -1
/// answers INVALID_GROUP_ID everywhere; otherwise each partition is checked
/// (see `partition_error`, and INVALID_TOPIC for an empty topic name), and
/// if nothing passes but something was refused, the refusals are the
/// answer; else the passing commits are to be stored.
pub fn plan_offset_commit(group_id: &str, generation_id: i32, topics: &Vec<CommitTopic>) -> (plan: CommitPlan)
    ensures
        ({
            let ts = commit_topics_view(topics@);
            if group_id@.len() == 0 {
                plan is EmptyGroup
            } else if generation_id < -1 {
                plan matches CommitPlan::InvalidGeneration(r) && responses_view(r@) == all_with_code(ts, INVALID_GROUP_ID)
            } else if commit_errors(ts).len() > 0 && commit_stores(ts).len() == 0 {
                plan matches CommitPlan::Rejected(r) && responses_view(r@) == group_entries(commit_errors(ts))
            } else {
                plan matches CommitPlan::Store { offsets, errors }
                    && stores_view(offsets@) == commit_stores(ts)
                    && errors_view(errors@) == commit_errors(ts)
            }
        }),
{
    let ghost ts = commit_topics_view(topics@);
    if text_is_empty(group_id) {
        return CommitPlan::EmptyGroup;
    }
    if generation_id < -1 {
        let mut out: Vec<CommitResponseTopic> = Vec::new();
        let mut i: usize = 0;
        while i < topics.len()
            invariant
                i <= topics@.len(),
                ts == commit_topics_view(topics@),
                responses_view(out@) == all_with_code(ts, INVALID_GROUP_ID).take(i as int),
            decreases topics.len() - i,
        {
            let t = &topics[i];
            let mut ps: Vec<CommitResponsePartition> = Vec::new();
            let mut j: usize = 0;
            while j < t.partitions.len()
                invariant
                    j <= t.partitions@.len(),
                    response_parts(ps@)
                        == codes_for(commit_topic_view(*t).1, INVALID_GROUP_ID).take(j as int),
                decreases t.partitions.len() - j,
            {
                let ghost before = ps@;
                let np = CommitResponsePartition { partition_index: t.partitions[j].partition_index, error_code: INVALID_GROUP_ID };
                ps.push(np);
                proof {
                    let target = codes_for(commit_topic_view(*t).1, INVALID_GROUP_ID);
                    assert(response_parts(ps@) =~= response_parts(before).push((np.partition_index, np.error_code)));
                    assert(target.take(j as int + 1) =~= target.take(j as int).push(target[j as int]));
                    assert(commit_topic_view(*t).1[j as int] == part_view(t.partitions@[j as int]));
                }
                j += 1;
            }
            let rt = CommitResponseTopic { name: t.name.clone(), partitions: ps };
            let ghost before = out@;
            assert(response_view(rt).1 =~= codes_for(commit_topic_view(*t).1, INVALID_GROUP_ID));
            let ghost rv = response_view(rt);
            out.push(rt);
            proof {
                let target = all_with_code(ts, INVALID_GROUP_ID);
                assert(responses_view(out@) =~= responses_view(before).push(rv));
                assert(target.take(i as int + 1) =~= target.take(i as int).push(target[i as int]));
                assert(ts[i as int] == commit_topic_view(topics@[i as int]));
            }
            i += 1;
        }
        assert(all_with_code(ts, INVALID_GROUP_ID).take(topics@.len() as int) =~= all_with_code(ts, INVALID_GROUP_ID));
        return CommitPlan::InvalidGeneration(out);
    }
    let mut stores: Vec<StoredOffset> = Vec::new();
    let mut errors: Vec<CommitError> = Vec::new();
    let mut i: usize = 0;
    assert(stores_view(stores@) =~= Seq::empty());
    assert(errors_view(errors@) =~= Seq::empty());
    while i < topics.len()
        invariant
            i <= topics@.len(),
            ts == commit_topics_view(topics@),
            stores_view(stores@) == commit_stores(ts.take(i as int)),
            errors_view(errors@) == commit_errors(ts.take(i as int)),
        decreases topics.len() - i,
    {
        let t = &topics[i];
        let ghost tv = commit_topic_view(*t);
        let ghost s0 = stores_view(stores@);
        let ghost e0 = errors_view(errors@);
        let empty_name = text_is_empty(t.name.as_str());
        let mut j: usize = 0;
        assert(tv.1.take(0) =~= Seq::<(i32, i64, Option<Seq<char>>)>::empty());
        assert(s0 + part_stores(tv.0, tv.1.take(0)) =~= s0);
        assert(e0 + part_errors(tv.0, tv.1.take(0)) =~= e0);
        while j < t.partitions.len()
            invariant
                j <= t.partitions@.len(),
                tv == commit_topic_view(*t),
                empty_name == (tv.0.len() == 0),
                stores_view(stores@) == s0 + part_stores(tv.0, tv.1.take(j as int)),
                errors_view(errors@) == e0 + part_errors(tv.0, tv.1.take(j as int)),
            decreases t.partitions.len() - j,
        {
            let p = &t.partitions[j];
            proof {
                assert(tv.1.take(j as int + 1).drop_last() =~= tv.1.take(j as int));
                assert(tv.1.take(j as int + 1).last() == part_view(*p));
            }
            let ghost sb = stores@;
            let ghost eb = errors@;
            if empty_name {
                errors.push(CommitError { topic: t.name.clone(), partition: p.partition_index, error_code: INVALID_TOPIC });
                assert(errors_view(errors@) =~= errors_view(eb).push((tv.0, p.partition_index, INVALID_TOPIC)));
            } else {
                match check_partition(p) {
                    Some(code) => {
                        errors.push(CommitError { topic: t.name.clone(), partition: p.partition_index, error_code: code });
                        assert(errors_view(errors@) =~= errors_view(eb).push((tv.0, p.partition_index, code)));
                    },
                    None => {
                        let s = StoredOffset {
                            topic: t.name.clone(),
                            partition: p.partition_index as u32,
                            offset: p.committed_offset,
                            metadata: copy_text(&p.committed_metadata),
                        };
                        stores.push(s);
                        assert(stores_view(stores@) =~= stores_view(sb).push(stored_view(s)));
                    },
                }
            }
            assert(stores_view(stores@) =~= s0 + part_stores(tv.0, tv.1.take(j as int + 1)));
            assert(errors_view(errors@) =~= e0 + part_errors(tv.0, tv.1.take(j as int + 1)));
            j += 1;
        }
        proof {
            assert(tv.1.take(tv.1.len() as int) =~= tv.1);
            assert(ts.take(i as int + 1).drop_last() =~= ts.take(i as int));
            assert(ts.take(i as int + 1).last() == tv);
        }
        i += 1;
    }
    assert(ts.take(ts.len() as int) =~= ts);
    if errors.len() > 0 && stores.len() == 0 {
        let r = group_by_topic(&errors);
        return CommitPlan::Rejected(r);
    }
    CommitPlan::Store { offsets: stores, errors }
}

/// The answer after storing: each stored commit's result, then each
/// refusal, grouped by topic.
pub fn build_commit_response(results: &Vec<CommitResult>, errors: &Vec<CommitError>) -> (r: Vec<CommitResponseTopic>)
    ensures
        responses_view(r@) == group_entries(
            result_entries(results@)
                + errors_view(errors@),
        ),
{
    let mut all: Vec<CommitError> = Vec::new();
    let mut i: usize = 0;
    while i < results.len()
        invariant
            i <= results@.len(),
            errors_view(all@)
                == result_entries(results@).take(i as int),
        decreases results.len() - i,
    {
        let ghost before = all@;
        let e = CommitError { topic: results[i].topic.clone(), partition: results[i].partition as i32, error_code: results[i].error_code };
        let ghost ev = error_view(e);
        all.push(e);
        proof {
            let target = result_entries(results@);
            assert(errors_view(all@) =~= errors_view(before).push(ev));
            assert(target.take(i as int + 1) =~= target.take(i as int).push(target[i as int]));
        }
        i += 1;
    }
    let ghost head = errors_view(all@);
    let mut j: usize = 0;
    while j < errors.len()
        invariant
            j <= errors@.len(),
            errors_view(all@) == head + errors_view(errors@).take(j as int),
        decreases errors.len() - j,
    {
        let e = CommitError { topic: errors[j].topic.clone(), partition: errors[j].partition, error_code: errors[j].error_code };
        let ghost before = all@;
        let ghost ev = error_view(e);
        all.push(e);
        proof {
            let target = errors_view(errors@);
            assert(errors_view(all@) =~= errors_view(before).push(ev));
            assert(target.take(j as int + 1) =~= target.take(j as int).push(target[j as int]));
            assert(head + target.take(j as int + 1) =~= (head + target.take(j as int)).push(target[j as int]));
        }
        j += 1;
    }
    assert(result_entries(results@).take(results@.len() as int)
        =~= result_entries(results@));
    assert(errors_view(errors@).take(errors@.len() as int) =~= errors_view(errors@));
    group_by_topic(&all)
}

/// One topic of an OffsetFetch request: its name and the partitions asked
/// for (none meaning all).
#[derive(Debug)]
pub struct FetchTopicRequest {
    pub name: String,
    pub partitions: Vec<i32>,
}

/// A committed offset as read back.
#[derive(Debug)]
pub struct FetchedOffset {
    pub topic: String,
    pub partition: u32,
    pub offset: i64,
    pub metadata: Option<String>,
}

/// One partition of an OffsetFetch answer.
#[derive(Debug)]
pub struct OffsetFetchResponsePartition {
    pub partition_index: i32,
    pub committed_offset: i64,
    pub metadata: Option<String>,
    pub error_code: i16,
}

/// One topic of an OffsetFetch answer.
#[derive(Debug)]
pub struct OffsetFetchResponseTopic {
    pub name: String,
    pub partitions: Vec<OffsetFetchResponsePartition>,
}

pub open spec fn fetch_request_view(t: FetchTopicRequest) -> (Seq<char>, Seq<i32>) {
    (t.name@, t.partitions@)
}

pub open spec fn fetch_requests_view(ts: Seq<FetchTopicRequest>) -> Seq<(Seq<char>, Seq<i32>)> {
    ts.map_values(|t: FetchTopicRequest| fetch_request_view(t))
}

pub open spec fn fetched_view(f: FetchedOffset) -> (Seq<char>, (i32, i64, Option<Seq<char>>)) {
    (f.topic@, (f.partition as i32, f.offset, opt_text(f.metadata)))
}

pub open spec fn fetched_views(fs: Seq<FetchedOffset>) -> Seq<(Seq<char>, (i32, i64, Option<Seq<char>>))> {
    fs.map_values(|f: FetchedOffset| fetched_view(f))
}

pub open spec fn fetch_part_view(p: OffsetFetchResponsePartition) -> (i32, i64, Option<Seq<char>>, i16) {
    (p.partition_index, p.committed_offset, opt_text(p.metadata), p.error_code)
}

pub open spec fn fetch_parts_view(ps: Seq<OffsetFetchResponsePartition>) -> Seq<(i32, i64, Option<Seq<char>>, i16)> {
    ps.map_values(|p: OffsetFetchResponsePartition| fetch_part_view(p))
}

pub open spec fn fetch_topic_view(t: OffsetFetchResponseTopic) -> (Seq<char>, Seq<(i32, i64, Option<Seq<char>>, i16)>) {
    (t.name@, fetch_parts_view(t.partitions@))
}

pub open spec fn fetch_topics_view(ts: Seq<OffsetFetchResponseTopic>) -> Seq<(Seq<char>, Seq<(i32, i64, Option<Seq<char>>, i16)>)> {
    ts.map_values(|t: OffsetFetchResponseTopic| fetch_topic_view(t))
}

/// The (topic, partition) pairs to read for a topic: none for an empty
/// name; the listed partitions (as `u32`); else every partition the topic
/// has, or partition 0 when the topic is unknown.
pub open spec fn topic_targets(t: (Seq<char>, Seq<i32>), known: Option<u32>) -> Seq<(Seq<char>, u32)> {
    if t.0.len() == 0 {
        Seq::empty()
    } else if t.1.len() > 0 {
        t.1.map_values(|p: i32| (t.0, p as u32))
    } else {
        match known {
            Some(c) => Seq::new(c as nat, |i: int| (t.0, i as u32)),
            None => seq![(t.0, 0u32)],
        }
    }
}

/// The pairs to read for a request, topic by topic.
pub open spec fn fetch_targets(ts: Seq<(Seq<char>, Seq<i32>)>, known: Seq<Option<u32>>) -> Seq<(Seq<char>, u32)>
    decreases ts.len(),
{
    if ts.len() == 0 {
        Seq::empty()
    } else {
        fetch_targets(ts.drop_last(), known) + topic_targets(ts.last(), known[ts.len() - 1])
    }
}

/// Values grouped by topic: topics in order of first mention, each topic's
/// values in order.
pub open spec fn group_pairs<V>(es: Seq<(Seq<char>, V)>) -> Seq<(Seq<char>, Seq<V>)>
    decreases es.len(),
{
    if es.len() == 0 {
        Seq::empty()
    } else {
        let g = group_pairs(es.drop_last());
        let e = es.last();
        let prev = match key_lookup(g, e.0) {
            Some(vs) => vs,
            None => Seq::empty(),
        };
        key_insert(g, e.0, prev.push(e.1))
    }
}

/// A read-back offset as an answer partition, no error.
pub open spec fn as_answer(v: (i32, i64, Option<Seq<char>>)) -> (i32, i64, Option<Seq<char>>, i16) {
    (v.0, v.1, v.2, 0i16)
}

pub open spec fn as_answers(vs: Seq<(i32, i64, Option<Seq<char>>)>) -> Seq<(i32, i64, Option<Seq<char>>, i16)> {
    vs.map_values(|v: (i32, i64, Option<Seq<char>>)| as_answer(v))
}

/// The answer for a requested topic: its read-back offsets, or partition 0
/// at offset -1 when there are none.
pub open spec fn requested_answer(name: Seq<char>, groups: Seq<(Seq<char>, Seq<(i32, i64, Option<Seq<char>>)>)>) -> (Seq<char>, Seq<(i32, i64, Option<Seq<char>>, i16)>) {
    match key_lookup(groups, name) {
        Some(vs) => (name, as_answers(vs)),
        None => (name, seq![(0i32, -1i64, None::<Seq<char>>, 0i16)]),
    }
}

/// The pairs an OffsetFetch reads: see `topic_targets`. `known[i]` is the
/// partition count of topic `i` if it exists (read only for a topic listing
/// no partitions).
pub fn offset_fetch_targets(topics: &Vec<FetchTopicRequest>, known: &Vec<Option<u32>>) -> (r: Vec<(String, u32)>)
    requires
        known@.len() == topics@.len(),
    ensures
        r@.map_values(|x: (String, u32)| (x.0@, x.1)) == fetch_targets(fetch_requests_view(topics@), known@),
{
    let ghost ts = fetch_requests_view(topics@);
    let mut out: Vec<(String, u32)> = Vec::new();
    let mut i: usize = 0;
    assert(out@.map_values(|x: (String, u32)| (x.0@, x.1)) =~= Seq::empty());
    while i < topics.len()
        invariant
            i <= topics@.len(),
            known@.len() == topics@.len(),
            ts == fetch_requests_view(topics@),
            out@.map_values(|x: (String, u32)| (x.0@, x.1)) == fetch_targets(ts.take(i as int), known@),
        decreases topics.len() - i,
    {
        let t = &topics[i];
        let ghost o0 = out@.map_values(|x: (String, u32)| (x.0@, x.1));
        let ghost tt = topic_targets(ts[i as int], known@[i as int]);
        assert(ts[i as int] == fetch_request_view(*t));
        if text_is_empty(t.name.as_str()) {
            assert(tt =~= Seq::<(Seq<char>, u32)>::empty());
            assert(o0 + tt =~= o0);
        } else if t.partitions.len() > 0 {
            let mut j: usize = 0;
            while j < t.partitions.len()
                invariant
                    j <= t.partitions@.len(),
                    t.partitions@.len() > 0,
                    t.name@.len() > 0,
                    tt == topic_targets(fetch_request_view(*t), known@[i as int]),
                    out@.map_values(|x: (String, u32)| (x.0@, x.1)) == o0 + tt.take(j as int),
                decreases t.partitions.len() - j,
            {
                let ghost before = out@;
                let x = (t.name.clone(), t.partitions[j] as u32);
                let ghost xv = (x.0@, x.1);
                out.push(x);
                proof {
                    assert(out@.map_values(|x: (String, u32)| (x.0@, x.1)) =~= before.map_values(|x: (String, u32)| (x.0@, x.1)).push(xv));
                    assert(tt.take(j as int + 1) =~= tt.take(j as int).push(tt[j as int]));
                    assert(o0 + tt.take(j as int + 1) =~= (o0 + tt.take(j as int)).push(tt[j as int]));
                }
                j += 1;
            }
            assert(tt.take(tt.len() as int) =~= tt);
        } else {
            match known[i] {
                Some(c) => {
                    let mut k: u32 = 0;
                    while k < c
                        invariant
                            k <= c,
                            t.name@.len() > 0,
                            t.partitions@.len() == 0,
                            known@[i as int] == Some(c),
                            tt == topic_targets(fetch_request_view(*t), known@[i as int]),
                            out@.map_values(|x: (String, u32)| (x.0@, x.1)) == o0 + tt.take(k as int),
                        decreases c - k,
                    {
                        let ghost before = out@;
                        let x = (t.name.clone(), k);
                        let ghost xv = (x.0@, x.1);
                        out.push(x);
                        proof {
                            assert(out@.map_values(|x: (String, u32)| (x.0@, x.1)) =~= before.map_values(|x: (String, u32)| (x.0@, x.1)).push(xv));
                            assert(tt.take(k as int + 1) =~= tt.take(k as int).push(tt[k as int]));
                            assert(o0 + tt.take(k as int + 1) =~= (o0 + tt.take(k as int)).push(tt[k as int]));
                        }
                        k += 1;
                    }
                    assert(tt.take(tt.len() as int) =~= tt);
                },
                None => {
                    let ghost before = out@;
                    let x = (t.name.clone(), 0u32);
                    let ghost xv = (x.0@, x.1);
                    out.push(x);
                    assert(out@.map_values(|x: (String, u32)| (x.0@, x.1)) =~= before.map_values(|x: (String, u32)| (x.0@, x.1)).push(xv));
                    assert(o0 + tt =~= o0.push(xv));
                },
            }
        }
        proof {
            assert(ts.take(i as int + 1).drop_last() =~= ts.take(i as int));
            assert(ts.take(i as int + 1).last() == ts[i as int]);
        }
        i += 1;
    }
    assert(ts.take(ts.len() as int) =~= ts);
    out
}

/// Where topic `name` sits among `groups`.
fn find_group(groups: &Vec<OffsetFetchResponseTopic>, name: &str) -> (r: Option<usize>)
    ensures
        match r {
            Some(j) => key_index(fetch_topics_view(groups@), name@) == j && j < groups@.len(),
            None => key_index(fetch_topics_view(groups@), name@) < 0,
        },
{
    let ghost gv = fetch_topics_view(groups@);
    proof {
        lemma_key_index(gv, name@);
    }
    let mut j: usize = 0;
    while j < groups.len()
        invariant
            j <= groups@.len(),
            gv == fetch_topics_view(groups@),
            forall|x: int| 0 <= x < j ==> gv[x].0 != name@,
            -1 <= key_index(gv, name@) < gv.len(),
            key_index(gv, name@) >= 0 ==> gv[key_index(gv, name@)].0 == name@,
            key_index(gv, name@) >= 0 ==> forall|x: int| 0 <= x < key_index(gv, name@) ==> gv[x].0 != name@,
            key_index(gv, name@) < 0 ==> forall|x: int| 0 <= x < gv.len() ==> gv[x].0 != name@,
        decreases groups.len() - j,
    {
        assert(gv[j as int] == fetch_topic_view(groups@[j as int]));
        if str_eq(groups[j].name.as_str(), name) {
            assert(key_index(gv, name@) == j as int);
            return Some(j);
        }
        j += 1;
    }
    None
}

fn copy_answer(vs: &Vec<OffsetFetchResponsePartition>) -> (r: Vec<OffsetFetchResponsePartition>)
    ensures
        fetch_parts_view(r@) == fetch_parts_view(vs@),
{
    let mut r: Vec<OffsetFetchResponsePartition> = Vec::new();
    let mut i: usize = 0;
    while i < vs.len()
        invariant
            i <= vs@.len(),
            fetch_parts_view(r@) == fetch_parts_view(vs@).take(i as int),
        decreases vs.len() - i,
    {
        let ghost before = r@;
        let p = OffsetFetchResponsePartition {
            partition_index: vs[i].partition_index,
            committed_offset: vs[i].committed_offset,
            metadata: copy_text(&vs[i].metadata),
            error_code: vs[i].error_code,
        };
        let ghost pv = fetch_part_view(p);
        r.push(p);
        proof {
            assert(fetch_parts_view(r@) =~= fetch_parts_view(before).push(pv));
            assert(fetch_parts_view(vs@).take(i as int + 1) =~= fetch_parts_view(vs@).take(i as int).push(fetch_parts_view(vs@)[i as int]));
        }
        i += 1;
    }
    assert(fetch_parts_view(vs@).take(vs@.len() as int) =~= fetch_parts_view(vs@));
    r
}

/// Read-back offsets grouped by topic, as answers with no error.
pub fn group_fetched(fetched: &Vec<FetchedOffset>) -> (r: Vec<OffsetFetchResponseTopic>)
    ensures
        fetch_topics_view(r@) == group_pairs(fetched_views(fetched@)).map_values(
            |g: (Seq<char>, Seq<(i32, i64, Option<Seq<char>>)>)| (g.0, as_answers(g.1))),
{
    let ghost fs = fetched_views(fetched@);
    let mut groups: Vec<OffsetFetchResponseTopic> = Vec::new();
    let mut i: usize = 0;
    assert(fetch_topics_view(groups@) =~= Seq::empty());
    while i < fetched.len()
        invariant
            i <= fetched@.len(),
            fs == fetched_views(fetched@),
            fetch_topics_view(groups@) == group_pairs(fs.take(i as int)).map_values(
                |g: (Seq<char>, Seq<(i32, i64, Option<Seq<char>>)>)| (g.0, as_answers(g.1))),
        decreases fetched.len() - i,
    {
        let f = &fetched[i];
        let ghost g0 = group_pairs(fs.take(i as int));
        let ghost gv = fetch_topics_view(groups@);
        proof {
            assert(fs.take(i as int + 1).drop_last() =~= fs.take(i as int));
            assert(fs.take(i as int + 1).last() == fetched_view(*f));
            lemma_key_index(g0, f.topic@);
            lemma_key_index(gv, f.topic@);
            assert forall|x: int| 0 <= x < g0.len() implies (#[trigger] g0[x]).0 == gv[x].0 by {}
            lemma_same_keys_index(g0, gv, f.topic@);
        }
        let part = OffsetFetchResponsePartition {
            partition_index: f.partition as i32,
            committed_offset: f.offset,
            metadata: copy_text(&f.metadata),
            error_code: 0,
        };
        let ghost pv = fetch_part_view(part);
        assert(pv == as_answer(fetched_view(*f).1));
        let found = find_group(&groups, f.topic.as_str());
        match found {
            Some(j) => {
                let ghost before = groups@[j as int];
                groups[j].partitions.push(part);
                assert(fetch_topic_view(groups@[j as int]) =~= (before.name@, fetch_parts_view(before.partitions@).push(pv)));
                assert(fetch_topics_view(groups@) =~= gv.update(j as int, fetch_topic_view(groups@[j as int])));
            },
            None => {
                let mut ps: Vec<OffsetFetchResponsePartition> = Vec::new();
                ps.push(part);
                let t = OffsetFetchResponseTopic { name: f.topic.clone(), partitions: ps };
                let ghost tv = fetch_topic_view(t);
                assert(tv =~= (f.topic@, Seq::<(i32, i64, Option<Seq<char>>, i16)>::empty().push(pv)));
                groups.push(t);
                assert(fetch_topics_view(groups@) =~= gv.push(tv));
            },
        }
        proof {
            let g1 = group_pairs(fs.take(i as int + 1));
            let want = g1.map_values(|g: (Seq<char>, Seq<(i32, i64, Option<Seq<char>>)>)| (g.0, as_answers(g.1)));
            let prev = match key_lookup(g0, f.topic@) {
                Some(vs) => vs,
                None => Seq::empty(),
            };
            let idx = key_index(g0, f.topic@);
            assert(as_answers(prev.push(fetched_view(*f).1)) =~= as_answers(prev).push(pv));
            if idx >= 0 {
                assert(gv[idx].1 == as_answers(g0[idx].1));
                assert(gv[idx].0 == f.topic@);
                assert(want =~= gv.update(idx, (f.topic@, as_answers(prev).push(pv))));
                assert(found == Some(idx as usize));
                assert(fetch_topics_view(groups@) == gv.update(idx, (f.topic@, as_answers(prev).push(pv))));
            } else {
                assert(as_answers(prev) =~= Seq::<(i32, i64, Option<Seq<char>>, i16)>::empty());
                assert(want =~= gv.push((f.topic@, as_answers(prev).push(pv))));
                assert(fetch_topics_view(groups@) == gv.push((f.topic@, as_answers(prev).push(pv))));
            }
        }
        i += 1;
    }
    assert(fs.take(fs.len() as int) =~= fs);
    groups
}

/// Two groupings with the same topics in the same places find a topic at
/// the same place.
proof fn lemma_same_keys_index<A, B>(a: Seq<(Seq<char>, A)>, b: Seq<(Seq<char>, B)>, k: Seq<char>)
    requires
        a.len() == b.len(),
        forall|i: int| 0 <= i < a.len() ==> (#[trigger] a[i]).0 == b[i].0,
    ensures
        key_index(a, k) == key_index(b, k),
    decreases a.len(),
{
    if a.len() > 0 && a[0].0 != k {
        assert forall|i: int| 0 <= i < a.drop_first().len() implies (#[trigger] a.drop_first()[i]).0 == b.drop_first()[i].0 by {
            assert(a.drop_first()[i] == a[i + 1]);
            assert(b.drop_first()[i] == b[i + 1]);
        }
        lemma_same_keys_index(a.drop_first(), b.drop_first(), k);
    }
}

/// The topics of an OffsetFetch answer: for requested topics, each in
/// request order with its read-back offsets (or partition 0 at -1); else
/// every topic read back, grouped.
pub fn build_offset_fetch_topics(requested: Option<&Vec<String>>, fetched: &Vec<FetchedOffset>) -> (r: Vec<OffsetFetchResponseTopic>)
    ensures
        ({
            let groups = group_pairs(fetched_views(fetched@));
            match requested {
                Some(names) => fetch_topics_view(r@) == names@.map_values(|n: String| requested_answer(n@, groups)),
                None => fetch_topics_view(r@) == groups.map_values(
                    |g: (Seq<char>, Seq<(i32, i64, Option<Seq<char>>)>)| (g.0, as_answers(g.1))),
            }
        }),
{
    let grouped = group_fetched(fetched);
    let ghost groups = group_pairs(fetched_views(fetched@));
    match requested {
        None => grouped,
        Some(names) => {
            let ghost gv = fetch_topics_view(grouped@);
            let mut out: Vec<OffsetFetchResponseTopic> = Vec::new();
            let mut i: usize = 0;
            assert(fetch_topics_view(out@) =~= Seq::empty());
            while i < names.len()
                invariant
                    i <= names@.len(),
                    gv == fetch_topics_view(grouped@),
                    gv == groups.map_values(|g: (Seq<char>, Seq<(i32, i64, Option<Seq<char>>)>)| (g.0, as_answers(g.1))),
                    fetch_topics_view(out@) == names@.map_values(|n: String| requested_answer(n@, groups)).take(i as int),
                decreases names.len() - i,
            {
                let name = &names[i];
                proof {
                    lemma_key_index(groups, name@);
                    lemma_key_index(gv, name@);
                    assert forall|x: int| 0 <= x < groups.len() implies (#[trigger] groups[x]).0 == gv[x].0 by {}
                    lemma_same_keys_index(groups, gv, name@);
                }
                let found = find_group(&grouped, name.as_str());
                let parts = match found {
                    Some(j) => {
                        assert(gv[j as int] == fetch_topic_view(grouped@[j as int]));
                        copy_answer(&grouped[j].partitions)
                    },
                    None => {
                        let mut ps: Vec<OffsetFetchResponsePartition> = Vec::new();
                        ps.push(OffsetFetchResponsePartition { partition_index: 0, committed_offset: -1, metadata: None, error_code: 0 });
                        assert(fetch_parts_view(ps@) =~= seq![(0i32, -1i64, None::<Seq<char>>, 0i16)]);
                        ps
                    },
                };
                let t = OffsetFetchResponseTopic { name: name.clone(), partitions: parts };
                let ghost before = out@;
                let ghost tv = fetch_topic_view(t);
                out.push(t);
                proof {
                    let target = names@.map_values(|n: String| requested_answer(n@, groups));
                    assert(tv == requested_answer(names@[i as int]@, groups));
                    assert(fetch_topics_view(out@) =~= fetch_topics_view(before).push(tv));
                    assert(target.take(i as int + 1) =~= target.take(i as int).push(target[i as int]));
                }
                i += 1;
            }
            assert(names@.map_values(|n: String| requested_answer(n@, groups)).take(names@.len() as int)
                =~= names@.map_values(|n: String| requested_answer(n@, groups)));
            out
        },
    }
}

} // verus!
