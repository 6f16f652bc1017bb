use chronik_server::error_handler::{
    extract_topic_name, io_kind_named, ErrorCode, ErrorHandler, ErrorRecovery, IoErrorKind, ServerError,
};

#[test]
fn test_error_code_conversion() {
    assert_eq!(ErrorCode::NoError.to_i16(), 0);
    assert_eq!(ErrorCode::UnknownTopicOrPartition.to_i16(), 3);
    assert_eq!(ErrorCode::NotController.to_i16(), 41);
}

#[test]
fn test_extract_topic_name() {
    assert_eq!(
        extract_topic_name("Topic \"test-topic\" not found"),
        Some("test-topic".to_string())
    );
    assert_eq!(
        extract_topic_name("Unknown topic my-topic in request"),
        Some("my-topic".to_string())
    );
}

#[test]
fn test_error_handler() {
    let handler = ErrorHandler::new();
    let error = ServerError::TopicNotFound { topic: "test".to_string() };
    let recovery = handler.handle_error(&error, "test context");
    match recovery {
        ErrorRecovery::ReturnError(code) => {
            assert_eq!(code.to_i16(), ErrorCode::UnknownTopicOrPartition.to_i16());
        }
        _ => panic!("Expected ReturnError recovery"),
    }
}

#[test]
fn no_topic_is_extracted_from_a_message_naming_none() {
    assert_eq!(extract_topic_name("connection refused"), None);
    assert_eq!(extract_topic_name("topic"), None);
}

#[test]
fn recoveries_follow_the_error() {
    let h = ErrorHandler::new();
    let would_block = ServerError::Io { kind: IoErrorKind::WouldBlock, message: "x".to_string() };
    let broken = ServerError::Io { kind: IoErrorKind::BrokenPipe, message: "x".to_string() };
    assert_eq!(h.handle_error(&would_block, "c"), ErrorRecovery::Retry);
    assert_eq!(h.handle_error(&broken, "c"), ErrorRecovery::CloseConnection);
    assert_eq!(h.handle_error(&ServerError::RateLimitExceeded, "c"), ErrorRecovery::Throttle(1000));
    assert_eq!(
        h.handle_error(&ServerError::ControllerNotAvailable, "c"),
        ErrorRecovery::ReturnError(ErrorCode::CoordinatorNotAvailable)
    );
    assert_eq!(
        h.handle_error(&ServerError::RequestTimeout { duration_ms: 5 }, "c"),
        ErrorRecovery::ReturnError(ErrorCode::RequestTimedOut)
    );
    assert_eq!(
        h.handle_error(&ServerError::Storage("disk".to_string()), "c"),
        ErrorRecovery::ReturnError(ErrorCode::KafkaStorageError)
    );
}

#[test]
fn error_response_frame_for_a_plain_api() {
    let h = ErrorHandler::new();
    let frame = h.build_error_response(ErrorCode::UnknownTopicOrPartition, 7, 3, 0);
    assert_eq!(frame, vec![0, 0, 0, 6, 0, 0, 0, 7, 0, 3]);
}

#[test]
fn error_response_frame_for_fetch_carries_throttle_and_no_topics() {
    let h = ErrorHandler::new();
    let frame = h.build_error_response(ErrorCode::UnknownTopicOrPartition, 1, 1, 4);
    assert_eq!(frame, vec![0, 0, 0, 12, 0, 0, 0, 1, 0, 0, 0, 0, 0, 0, 0, 0]);
    let v0 = h.build_error_response(ErrorCode::UnknownTopicOrPartition, 1, 0, 0);
    assert_eq!(v0, vec![0, 0, 0, 8, 0, 0, 0, 1, 0, 0, 0, 0]);
}

#[test]
fn a_wrapped_io_error_keeps_its_kind() {
    let io = std::io::Error::new(std::io::ErrorKind::BrokenPipe, "pipe");
    let e = ErrorHandler::from_anyhow(anyhow::Error::new(io));
    match e {
        ServerError::Io { kind, .. } => assert_eq!(kind, IoErrorKind::BrokenPipe),
        other => panic!("expected an I/O error, got {:?}", other),
    }
}

#[test]
fn io_kind_names_map_to_their_kinds() {
    assert_eq!(io_kind_named("NotFound"), IoErrorKind::NotFound);
    assert_eq!(io_kind_named("StorageFull"), IoErrorKind::StorageFull);
    assert_eq!(io_kind_named("Uncategorized"), IoErrorKind::Other);
}

#[test]
fn every_io_error_kind_is_kept() {
    for (k, expected) in [
        (std::io::ErrorKind::NotFound, IoErrorKind::NotFound),
        (std::io::ErrorKind::PermissionDenied, IoErrorKind::PermissionDenied),
        (std::io::ErrorKind::UnexpectedEof, IoErrorKind::UnexpectedEof),
        (std::io::ErrorKind::Other, IoErrorKind::Other),
    ] {
        let e = ErrorHandler::from_anyhow(anyhow::Error::new(std::io::Error::new(k, "disk")));
        match e {
            ServerError::Io { kind, message } => {
                assert_eq!(kind, expected);
                assert_eq!(message, "disk");
            }
            other => panic!("expected an I/O error, got {:?}", other),
        }
    }
}

#[test]
fn error_descriptions() {
    assert_eq!(ErrorCode::NoError.description(), "No error");
    assert_eq!(ErrorCode::UnknownTopicOrPartition.to_i16(), 3);
}

#[test]
fn a_missing_topic_message_becomes_topic_not_found() {
    let e = ErrorHandler::from_anyhow(anyhow::Error::msg("Topic \"orders\" not found"));
    match e {
        ServerError::TopicNotFound { topic } => assert_eq!(topic, "orders"),
        other => panic!("expected TopicNotFound, got {:?}", other),
    }
    let c = ErrorHandler::from_anyhow(anyhow::Error::msg("no controller elected"));
    assert!(matches!(c, ServerError::ControllerNotAvailable));
    let i = ErrorHandler::from_anyhow(anyhow::Error::msg("boom"));
    match i {
        ServerError::Internal(m) => assert_eq!(m, "boom"),
        other => panic!("expected Internal, got {:?}", other),
    }
}
