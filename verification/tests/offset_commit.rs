use chronik_server::offset_commit::{
    build_commit_response, build_offset_fetch_topics, offset_fetch_targets, plan_offset_commit,
    CommitError, CommitPartition, CommitPlan, CommitResult, CommitTopic, FetchTopicRequest,
    FetchedOffset,
};

fn part(index: i32, offset: i64, metadata: Option<&str>) -> CommitPartition {
    CommitPartition {
        partition_index: index,
        committed_offset: offset,
        committed_metadata: metadata.map(|m| m.to_string()),
    }
}

fn topic(name: &str, parts: Vec<CommitPartition>) -> CommitTopic {
    CommitTopic { name: name.to_string(), partitions: parts }
}

fn answers(ts: &[chronik_server::offset_commit::CommitResponseTopic]) -> Vec<(String, Vec<(i32, i16)>)> {
    ts.iter()
        .map(|t| (t.name.clone(), t.partitions.iter().map(|p| (p.partition_index, p.error_code)).collect()))
        .collect()
}

#[test]
fn a_commit_without_group_answers_nothing() {
    let plan = plan_offset_commit("", 1, &vec![topic("t", vec![part(0, 5, None)])]);
    assert!(matches!(plan, CommitPlan::EmptyGroup));
}

#[test]
fn a_generation_below_minus_one_is_refused_everywhere() {
    let plan = plan_offset_commit("g", -2, &vec![topic("t", vec![part(0, 5, None), part(1, 6, None)])]);
    match plan {
        CommitPlan::InvalidGeneration(r) => assert_eq!(answers(&r), vec![("t".to_string(), vec![(0, 42), (1, 42)])]),
        other => panic!("unexpected {:?}", other),
    }
}

#[test]
fn each_invalid_commit_gets_its_code() {
    let big = "m".repeat(4097);
    let plan = plan_offset_commit(
        "g",
        1,
        &vec![
            topic("", vec![part(0, 1, None)]),
            topic("t", vec![part(-1, 1, None), part(1, -2, None), part(2, 3, Some(&big))]),
        ],
    );
    match plan {
        CommitPlan::Rejected(r) => assert_eq!(
            answers(&r),
            vec![("".to_string(), vec![(0, 17)]), ("t".to_string(), vec![(-1, 37), (1, 1), (2, 12)])]
        ),
        other => panic!("unexpected {:?}", other),
    }
}

#[test]
fn valid_commits_are_stored_and_refusals_kept() {
    let exactly_limit = "m".repeat(4096);
    let plan = plan_offset_commit(
        "g",
        -1,
        &vec![topic("t", vec![part(0, -1, Some(&exactly_limit)), part(1, -5, None)]), topic("u", vec![part(3, 9, None)])],
    );
    match plan {
        CommitPlan::Store { offsets, errors } => {
            let stored: Vec<(String, u32, i64)> = offsets.iter().map(|s| (s.topic.clone(), s.partition, s.offset)).collect();
            assert_eq!(stored, vec![("t".to_string(), 0, -1), ("u".to_string(), 3, 9)]);
            assert_eq!(offsets[0].metadata.as_deref(), Some(exactly_limit.as_str()));
            assert_eq!(errors.len(), 1);
            assert_eq!((errors[0].topic.as_str(), errors[0].partition, errors[0].error_code), ("t", 1, 1));
        }
        other => panic!("unexpected {:?}", other),
    }
}

#[test]
fn the_commit_answer_groups_results_then_refusals_by_topic() {
    let results = vec![
        CommitResult { topic: "a".to_string(), partition: 0, error_code: 0 },
        CommitResult { topic: "b".to_string(), partition: 1, error_code: 0 },
        CommitResult { topic: "a".to_string(), partition: 2, error_code: 0 },
    ];
    let errors = vec![CommitError { topic: "b".to_string(), partition: -1, error_code: 37 }];
    let r = build_commit_response(&results, &errors);
    assert_eq!(
        answers(&r),
        vec![("a".to_string(), vec![(0, 0), (2, 0)]), ("b".to_string(), vec![(1, 0), (-1, 37)])]
    );
}

#[test]
fn offset_fetch_targets_follow_the_request() {
    let topics = vec![
        FetchTopicRequest { name: "".to_string(), partitions: vec![1] },
        FetchTopicRequest { name: "a".to_string(), partitions: vec![2, 5] },
        FetchTopicRequest { name: "b".to_string(), partitions: vec![] },
        FetchTopicRequest { name: "c".to_string(), partitions: vec![] },
    ];
    let t = offset_fetch_targets(&topics, &vec![None, None, Some(3), None]);
    let pairs: Vec<(&str, u32)> = t.iter().map(|(n, p)| (n.as_str(), *p)).collect();
    assert_eq!(pairs, vec![("a", 2), ("a", 5), ("b", 0), ("b", 1), ("b", 2), ("c", 0)]);
}

fn fetched(topic: &str, partition: u32, offset: i64) -> FetchedOffset {
    FetchedOffset { topic: topic.to_string(), partition, offset, metadata: None }
}

#[test]
fn offset_fetch_answers_requested_topics_in_order() {
    let rows = vec![fetched("a", 1, 10), fetched("b", 0, 7), fetched("a", 0, 3)];
    let names = vec!["b".to_string(), "missing".to_string(), "a".to_string()];
    let r = build_offset_fetch_topics(Some(&names), &rows);
    let got: Vec<(String, Vec<(i32, i64, i16)>)> = r
        .iter()
        .map(|t| (t.name.clone(), t.partitions.iter().map(|p| (p.partition_index, p.committed_offset, p.error_code)).collect()))
        .collect();
    assert_eq!(
        got,
        vec![
            ("b".to_string(), vec![(0, 7, 0)]),
            ("missing".to_string(), vec![(0, -1, 0)]),
            ("a".to_string(), vec![(1, 10, 0), (0, 3, 0)]),
        ]
    );
    let all = build_offset_fetch_topics(None, &rows);
    let names: Vec<&str> = all.iter().map(|t| t.name.as_str()).collect();
    assert_eq!(names, vec!["a", "b"]);
}
