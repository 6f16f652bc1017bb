//! Server errors, Kafka error codes, and how each error is answered.
use vstd::prelude::*;
use vstd::string::StrSliceExecFns;
use crate::text::{chars_of, contains_text, find_char, find_from, find_text, index_of_from, str_eq, text_contains};
use crate::wire::{be_i16, be_i32, push_be_i16, push_be_i32};

verus! {

/// Kafka protocol error codes.
#[derive(Clone, Copy, Debug, PartialEq, Eq, Structural)]
pub enum ErrorCode {
    NoError,
    OffsetOutOfRange,
    CorruptMessage,
    UnknownTopicOrPartition,
    InvalidFetchSize,
    LeaderNotAvailable,
    NotLeaderForPartition,
    RequestTimedOut,
    BrokerNotAvailable,
    ReplicaNotAvailable,
    MessageTooLarge,
    StaleControllerEpoch,
    OffsetMetadataTooLarge,
    NetworkException,
    CoordinatorNotAvailable,
    NotCoordinator,
    InvalidTopicException,
    RecordListTooLarge,
    NotEnoughReplicas,
    NotEnoughReplicasAfterAppend,
    InvalidRequiredAcks,
    IllegalGeneration,
    InconsistentGroupProtocol,
    InvalidGroupId,
    UnknownMemberId,
    InvalidSessionTimeout,
    InvalidCommitOffsetSize,
    TopicAuthorizationFailed,
    GroupAuthorizationFailed,
    ClusterAuthorizationFailed,
    InvalidTimestamp,
    UnsupportedSaslMechanism,
    IllegalSaslState,
    UnsupportedVersion,
    TopicAlreadyExists,
    InvalidPartitions,
    InvalidReplicationFactor,
    InvalidReplicaAssignment,
    InvalidConfig,
    NotController,
    InvalidRequest,
    UnsupportedForMessageFormat,
    PolicyViolation,
    OutOfOrderSequenceNumber,
    DuplicateSequenceNumber,
    InvalidProducerEpoch,
    InvalidTxnState,
    InvalidProducerIdMapping,
    InvalidTransactionTimeout,
    ConcurrentTransactions,
    TransactionCoordinatorFenced,
    TransactionalIdAuthorizationFailed,
    SecurityDisabled,
    OperationNotAttempted,
    KafkaStorageError,
    LogDirNotFound,
    SaslAuthenticationFailed,
    UnknownProducerId,
    DelegationTokenAuthDisabled,
    DelegationTokenNotFound,
    DelegationTokenOwnerMismatch,
    DelegationTokenRequestNotAllowed,
    DelegationTokenAuthorizationFailed,
    DelegationTokenExpired,
    InvalidPrincipalType,
    NonEmptyGroup,
    GroupIdNotFound,
    FetchSessionIdNotFound,
    InvalidFetchSessionEpoch,
    ListenerNotFound,
    TopicDeletionDisabled,
    FencedLeaderEpoch,
    UnknownLeaderEpoch,
    UnsupportedCompressionType,
    StaleBrokerEpoch,
    OffsetNotAvailable,
    MemberIdRequired,
    PreferredLeaderNotAvailable,
    GroupMaxSizeReached,
    FencedInstanceId,
    EligibleLeadersNotAvailable,
    ElectionNotNeeded,
    GroupSubscribedToTopic,
    InvalidRecord,
    UnstableOffsetCommit,
}

/// The wire value of each error code.
pub open spec fn error_code_value(c: ErrorCode) -> i16 {
    match c {
        ErrorCode::NoError => 0,
        ErrorCode::OffsetOutOfRange => 1,
        ErrorCode::CorruptMessage => 2,
        ErrorCode::UnknownTopicOrPartition => 3,
        ErrorCode::InvalidFetchSize => 4,
        ErrorCode::LeaderNotAvailable => 5,
        ErrorCode::NotLeaderForPartition => 6,
        ErrorCode::RequestTimedOut => 7,
        ErrorCode::BrokerNotAvailable => 8,
        ErrorCode::ReplicaNotAvailable => 9,
        ErrorCode::MessageTooLarge => 10,
        ErrorCode::StaleControllerEpoch => 11,
        ErrorCode::OffsetMetadataTooLarge => 12,
        ErrorCode::NetworkException => 13,
        ErrorCode::CoordinatorNotAvailable => 15,
        ErrorCode::NotCoordinator => 16,
        ErrorCode::InvalidTopicException => 17,
        ErrorCode::RecordListTooLarge => 18,
        ErrorCode::NotEnoughReplicas => 19,
        ErrorCode::NotEnoughReplicasAfterAppend => 20,
        ErrorCode::InvalidRequiredAcks => 21,
        ErrorCode::IllegalGeneration => 22,
        ErrorCode::InconsistentGroupProtocol => 23,
        ErrorCode::InvalidGroupId => 24,
        ErrorCode::UnknownMemberId => 25,
        ErrorCode::InvalidSessionTimeout => 26,
        ErrorCode::InvalidCommitOffsetSize => 28,
        ErrorCode::TopicAuthorizationFailed => 29,
        ErrorCode::GroupAuthorizationFailed => 30,
        ErrorCode::ClusterAuthorizationFailed => 31,
        ErrorCode::InvalidTimestamp => 32,
        ErrorCode::UnsupportedSaslMechanism => 33,
        ErrorCode::IllegalSaslState => 34,
        ErrorCode::UnsupportedVersion => 35,
        ErrorCode::TopicAlreadyExists => 36,
        ErrorCode::InvalidPartitions => 37,
        ErrorCode::InvalidReplicationFactor => 38,
        ErrorCode::InvalidReplicaAssignment => 39,
        ErrorCode::InvalidConfig => 40,
        ErrorCode::NotController => 41,
        ErrorCode::InvalidRequest => 42,
        ErrorCode::UnsupportedForMessageFormat => 43,
        ErrorCode::PolicyViolation => 44,
        ErrorCode::OutOfOrderSequenceNumber => 45,
        ErrorCode::DuplicateSequenceNumber => 46,
        ErrorCode::InvalidProducerEpoch => 47,
        ErrorCode::InvalidTxnState => 48,
        ErrorCode::InvalidProducerIdMapping => 49,
        ErrorCode::InvalidTransactionTimeout => 50,
        ErrorCode::ConcurrentTransactions => 51,
        ErrorCode::TransactionCoordinatorFenced => 52,
        ErrorCode::TransactionalIdAuthorizationFailed => 53,
        ErrorCode::SecurityDisabled => 54,
        ErrorCode::OperationNotAttempted => 55,
        ErrorCode::KafkaStorageError => 56,
        ErrorCode::LogDirNotFound => 57,
        ErrorCode::SaslAuthenticationFailed => 58,
        ErrorCode::UnknownProducerId => 59,
        ErrorCode::DelegationTokenAuthDisabled => 61,
        ErrorCode::DelegationTokenNotFound => 62,
        ErrorCode::DelegationTokenOwnerMismatch => 63,
        ErrorCode::DelegationTokenRequestNotAllowed => 64,
        ErrorCode::DelegationTokenAuthorizationFailed => 65,
        ErrorCode::DelegationTokenExpired => 66,
        ErrorCode::InvalidPrincipalType => 67,
        ErrorCode::NonEmptyGroup => 68,
        ErrorCode::GroupIdNotFound => 69,
        ErrorCode::FetchSessionIdNotFound => 70,
        ErrorCode::InvalidFetchSessionEpoch => 71,
        ErrorCode::ListenerNotFound => 72,
        ErrorCode::TopicDeletionDisabled => 73,
        ErrorCode::FencedLeaderEpoch => 74,
        ErrorCode::UnknownLeaderEpoch => 75,
        ErrorCode::UnsupportedCompressionType => 76,
        ErrorCode::StaleBrokerEpoch => 77,
        ErrorCode::OffsetNotAvailable => 78,
        ErrorCode::MemberIdRequired => 79,
        ErrorCode::PreferredLeaderNotAvailable => 80,
        ErrorCode::GroupMaxSizeReached => 81,
        ErrorCode::FencedInstanceId => 82,
        ErrorCode::EligibleLeadersNotAvailable => 83,
        ErrorCode::ElectionNotNeeded => 84,
        ErrorCode::GroupSubscribedToTopic => 86,
        ErrorCode::InvalidRecord => 87,
        ErrorCode::UnstableOffsetCommit => 88,
    }
}

impl ErrorCode {
    /// The code used for errors with no specific code.
    pub const UNKNOWN_SERVER_ERROR: ErrorCode = ErrorCode::KafkaStorageError;

    /// The code's wire value.
    pub fn to_i16(self) -> (r: i16)
        ensures
            r == error_code_value(self),
    {
        match self {
            ErrorCode::NoError => 0,
            ErrorCode::OffsetOutOfRange => 1,
            ErrorCode::CorruptMessage => 2,
            ErrorCode::UnknownTopicOrPartition => 3,
            ErrorCode::InvalidFetchSize => 4,
            ErrorCode::LeaderNotAvailable => 5,
            ErrorCode::NotLeaderForPartition => 6,
            ErrorCode::RequestTimedOut => 7,
            ErrorCode::BrokerNotAvailable => 8,
            ErrorCode::ReplicaNotAvailable => 9,
            ErrorCode::MessageTooLarge => 10,
            ErrorCode::StaleControllerEpoch => 11,
            ErrorCode::OffsetMetadataTooLarge => 12,
            ErrorCode::NetworkException => 13,
            ErrorCode::CoordinatorNotAvailable => 15,
            ErrorCode::NotCoordinator => 16,
            ErrorCode::InvalidTopicException => 17,
            ErrorCode::RecordListTooLarge => 18,
            ErrorCode::NotEnoughReplicas => 19,
            ErrorCode::NotEnoughReplicasAfterAppend => 20,
            ErrorCode::InvalidRequiredAcks => 21,
            ErrorCode::IllegalGeneration => 22,
            ErrorCode::InconsistentGroupProtocol => 23,
            ErrorCode::InvalidGroupId => 24,
            ErrorCode::UnknownMemberId => 25,
            ErrorCode::InvalidSessionTimeout => 26,
            ErrorCode::InvalidCommitOffsetSize => 28,
            ErrorCode::TopicAuthorizationFailed => 29,
            ErrorCode::GroupAuthorizationFailed => 30,
            ErrorCode::ClusterAuthorizationFailed => 31,
            ErrorCode::InvalidTimestamp => 32,
            ErrorCode::UnsupportedSaslMechanism => 33,
            ErrorCode::IllegalSaslState => 34,
            ErrorCode::UnsupportedVersion => 35,
            ErrorCode::TopicAlreadyExists => 36,
            ErrorCode::InvalidPartitions => 37,
            ErrorCode::InvalidReplicationFactor => 38,
            ErrorCode::InvalidReplicaAssignment => 39,
            ErrorCode::InvalidConfig => 40,
            ErrorCode::NotController => 41,
            ErrorCode::InvalidRequest => 42,
            ErrorCode::UnsupportedForMessageFormat => 43,
            ErrorCode::PolicyViolation => 44,
            ErrorCode::OutOfOrderSequenceNumber => 45,
            ErrorCode::DuplicateSequenceNumber => 46,
            ErrorCode::InvalidProducerEpoch => 47,
            ErrorCode::InvalidTxnState => 48,
            ErrorCode::InvalidProducerIdMapping => 49,
            ErrorCode::InvalidTransactionTimeout => 50,
            ErrorCode::ConcurrentTransactions => 51,
            ErrorCode::TransactionCoordinatorFenced => 52,
            ErrorCode::TransactionalIdAuthorizationFailed => 53,
            ErrorCode::SecurityDisabled => 54,
            ErrorCode::OperationNotAttempted => 55,
            ErrorCode::KafkaStorageError => 56,
            ErrorCode::LogDirNotFound => 57,
            ErrorCode::SaslAuthenticationFailed => 58,
            ErrorCode::UnknownProducerId => 59,
            ErrorCode::DelegationTokenAuthDisabled => 61,
            ErrorCode::DelegationTokenNotFound => 62,
            ErrorCode::DelegationTokenOwnerMismatch => 63,
            ErrorCode::DelegationTokenRequestNotAllowed => 64,
            ErrorCode::DelegationTokenAuthorizationFailed => 65,
            ErrorCode::DelegationTokenExpired => 66,
            ErrorCode::InvalidPrincipalType => 67,
            ErrorCode::NonEmptyGroup => 68,
            ErrorCode::GroupIdNotFound => 69,
            ErrorCode::FetchSessionIdNotFound => 70,
            ErrorCode::InvalidFetchSessionEpoch => 71,
            ErrorCode::ListenerNotFound => 72,
            ErrorCode::TopicDeletionDisabled => 73,
            ErrorCode::FencedLeaderEpoch => 74,
            ErrorCode::UnknownLeaderEpoch => 75,
            ErrorCode::UnsupportedCompressionType => 76,
            ErrorCode::StaleBrokerEpoch => 77,
            ErrorCode::OffsetNotAvailable => 78,
            ErrorCode::MemberIdRequired => 79,
            ErrorCode::PreferredLeaderNotAvailable => 80,
            ErrorCode::GroupMaxSizeReached => 81,
            ErrorCode::FencedInstanceId => 82,
            ErrorCode::EligibleLeadersNotAvailable => 83,
            ErrorCode::ElectionNotNeeded => 84,
            ErrorCode::GroupSubscribedToTopic => 86,
            ErrorCode::InvalidRecord => 87,
            ErrorCode::UnstableOffsetCommit => 88,
        }
    }
}


/// The description of each error code.
pub open spec fn error_code_description(c: ErrorCode) -> Seq<char> {
    match c {
        ErrorCode::NoError => "No error"@,
        ErrorCode::UnknownTopicOrPartition => "Topic or partition does not exist"@,
        ErrorCode::NotController => "This broker is not the controller"@,
        ErrorCode::TopicAlreadyExists => "Topic already exists"@,
        ErrorCode::InvalidPartitions => "Invalid number of partitions"@,
        ErrorCode::InvalidReplicationFactor => "Invalid replication factor"@,
        ErrorCode::CoordinatorNotAvailable => "Coordinator is not available"@,
        ErrorCode::UnsupportedVersion => "Unsupported API version"@,
        ErrorCode::InvalidRequest => "Invalid request format"@,
        _ => "Unknown error"@,
    }
}

impl ErrorCode {
    /// A human-readable description.
    pub fn description(&self) -> (r: &'static str)
        ensures
            r@ == error_code_description(*self),
    {
        match self {
            ErrorCode::NoError => "No error",
            ErrorCode::UnknownTopicOrPartition => "Topic or partition does not exist",
            ErrorCode::NotController => "This broker is not the controller",
            ErrorCode::TopicAlreadyExists => "Topic already exists",
            ErrorCode::InvalidPartitions => "Invalid number of partitions",
            ErrorCode::InvalidReplicationFactor => "Invalid replication factor",
            ErrorCode::CoordinatorNotAvailable => "Coordinator is not available",
            ErrorCode::UnsupportedVersion => "Unsupported API version",
            ErrorCode::InvalidRequest => "Invalid request format",
            _ => "Unknown error",
        }
    }
}

/// The kind of an I/O failure: the kinds std documents; `Other` also
/// stands for any kind std adds or has not stabilised.
#[derive(Clone, Copy, Debug, PartialEq, Eq, Structural)]
pub enum IoErrorKind {
    NotFound,
    PermissionDenied,
    ConnectionRefused,
    ConnectionReset,
    HostUnreachable,
    NetworkUnreachable,
    ConnectionAborted,
    NotConnected,
    AddrInUse,
    AddrNotAvailable,
    NetworkDown,
    BrokenPipe,
    AlreadyExists,
    WouldBlock,
    NotADirectory,
    IsADirectory,
    DirectoryNotEmpty,
    ReadOnlyFilesystem,
    StaleNetworkFileHandle,
    InvalidInput,
    InvalidData,
    TimedOut,
    WriteZero,
    StorageFull,
    NotSeekable,
    QuotaExceeded,
    FileTooLarge,
    ResourceBusy,
    ExecutableFileBusy,
    Deadlock,
    CrossesDevices,
    TooManyLinks,
    InvalidFilename,
    ArgumentListTooLong,
    Interrupted,
    Unsupported,
    UnexpectedEof,
    OutOfMemory,
    Other,
}

/// Errors of the server.
#[derive(Debug)]
pub enum ServerError {
    Io { kind: IoErrorKind, message: String },
    Protocol { message: String, correlation_id: Option<i32> },
    Storage(String),
    Metadata(String),
    TopicNotFound { topic: String },
    PartitionNotFound { topic: String, partition: i32 },
    ControllerNotAvailable,
    InvalidRequest(String),
    AuthorizationFailed(String),
    RateLimitExceeded,
    RequestTimeout { duration_ms: u64 },
    Internal(String),
}

/// How an error is recovered from.
#[derive(Clone, Copy, Debug, PartialEq, Eq, Structural)]
pub enum ErrorRecovery {
    /// Retry the operation.
    Retry,
    /// Answer the client with this error code.
    ReturnError(ErrorCode),
    /// Close the connection.
    CloseConnection,
    /// Throttle the client for this many milliseconds.
    Throttle(u64),
    /// Carry on.
    Continue,
}

/// The recovery for each error.
pub open spec fn recovery_for(e: ServerError) -> ErrorRecovery {
    match e {
        ServerError::Io { kind, .. } => if kind == IoErrorKind::WouldBlock {
            ErrorRecovery::Retry
        } else if kind == IoErrorKind::BrokenPipe {
            ErrorRecovery::CloseConnection
        } else {
            ErrorRecovery::ReturnError(ErrorCode::KafkaStorageError)
        },
        ServerError::TopicNotFound { .. } => ErrorRecovery::ReturnError(ErrorCode::UnknownTopicOrPartition),
        ServerError::ControllerNotAvailable => ErrorRecovery::ReturnError(ErrorCode::CoordinatorNotAvailable),
        ServerError::Protocol { .. } => ErrorRecovery::ReturnError(ErrorCode::InvalidRequest),
        ServerError::RequestTimeout { .. } => ErrorRecovery::ReturnError(ErrorCode::RequestTimedOut),
        ServerError::RateLimitExceeded => ErrorRecovery::Throttle(1000),
        ServerError::AuthorizationFailed(_) => ErrorRecovery::ReturnError(ErrorCode::TopicAuthorizationFailed),
        ServerError::Internal(_) => ErrorRecovery::ReturnError(ErrorCode::KafkaStorageError),
        _ => ErrorRecovery::ReturnError(ErrorCode::KafkaStorageError),
    }
}

/// How each kind of server error is answered, written out per kind: an
/// I/O error that would block is retried, one on a broken pipe closes the
/// connection, any other I/O error is a storage error (56); a missing topic
/// is UNKNOWN_TOPIC_OR_PARTITION (3); a missing controller is
/// COORDINATOR_NOT_AVAILABLE (15); a protocol error is INVALID_REQUEST (42);
/// a timeout is REQUEST_TIMED_OUT (7); a rate limit throttles for a second;
/// a refused authorization is TOPIC_AUTHORIZATION_FAILED (29); an internal
/// error and every other kind are a storage error (56).
pub open spec fn error_answer_law(e: ServerError, r: ErrorRecovery) -> bool {
    &&& (e matches ServerError::Io { kind, .. } && kind == IoErrorKind::WouldBlock) ==> r == ErrorRecovery::Retry
    &&& (e matches ServerError::Io { kind, .. } && kind == IoErrorKind::BrokenPipe) ==> r == ErrorRecovery::CloseConnection
    &&& (e matches ServerError::Io { kind, .. } && kind != IoErrorKind::WouldBlock && kind != IoErrorKind::BrokenPipe)
        ==> r == ErrorRecovery::ReturnError(ErrorCode::KafkaStorageError)
    &&& e is TopicNotFound ==> r == ErrorRecovery::ReturnError(ErrorCode::UnknownTopicOrPartition)
    &&& e is ControllerNotAvailable ==> r == ErrorRecovery::ReturnError(ErrorCode::CoordinatorNotAvailable)
    &&& e is Protocol ==> r == ErrorRecovery::ReturnError(ErrorCode::InvalidRequest)
    &&& e is RequestTimeout ==> r == ErrorRecovery::ReturnError(ErrorCode::RequestTimedOut)
    &&& e is RateLimitExceeded ==> r == ErrorRecovery::Throttle(1000)
    &&& e is AuthorizationFailed ==> r == ErrorRecovery::ReturnError(ErrorCode::TopicAuthorizationFailed)
    &&& (e is Internal || e is Storage || e is Metadata || e is PartitionNotFound || e is InvalidRequest)
        ==> r == ErrorRecovery::ReturnError(ErrorCode::KafkaStorageError)
}

/// Every kind of server error is answered as `error_answer_law` writes
/// out, and the codes carry their Kafka wire values.
pub proof fn lemma_error_answers(e: ServerError)
    ensures
        error_answer_law(e, recovery_for(e)),
        error_code_value(ErrorCode::InvalidRequest) == 42,
        error_code_value(ErrorCode::UnknownTopicOrPartition) == 3,
        error_code_value(ErrorCode::CoordinatorNotAvailable) == 15,
        error_code_value(ErrorCode::RequestTimedOut) == 7,
        error_code_value(ErrorCode::TopicAuthorizationFailed) == 29,
        error_code_value(ErrorCode::KafkaStorageError) == 56,
{
}

/// Error handling policy.
pub struct ErrorHandler {
    pub max_retries: u32,
    pub retry_delay_ms: u64,
    pub detailed_logging: bool,
}

impl Default for ErrorHandler {
    /// Three retries, 100 ms apart, with detailed logging.
    fn default() -> (h: Self)
        ensures
            h.max_retries == 3,
            h.retry_delay_ms == 100,
            h.detailed_logging,
    {
        ErrorHandler { max_retries: 3, retry_delay_ms: 100, detailed_logging: true }
    }
}

/// The characters "topic ".
pub open spec fn topic_word() -> Seq<char> {
    seq!['t', 'o', 'p', 'i', 'c', ' ']
}

/// The topic named in an error message: the text between the first two
/// double quotes; failing that, the word after the first "topic ", up to
/// the next space.
pub open spec fn extracted_topic(s: Seq<char>) -> Option<Seq<char>> {
    let quoted = match index_of_from(s, '"', 0) {
        Some(a) => match index_of_from(s, '"', a + 1) {
            Some(b) => Some(s.subrange(a + 1, b)),
            None => None,
        },
        None => None,
    };
    if quoted is Some {
        quoted
    } else {
        match find_from(s, topic_word(), 0) {
            Some(p) => match index_of_from(s, ' ', p + 6) {
                Some(e) => Some(s.subrange(p + 6, e)),
                None => None,
            },
            None => None,
        }
    }
}

pub proof fn lemma_index_of_from_bounds(s: Seq<char>, c: char, from: int)
    ensures
        index_of_from(s, c, from) is Some ==> from <= index_of_from(s, c, from)->0 < s.len()
            && s[index_of_from(s, c, from)->0] == c,
    decreases s.len() - from,
{
    if 0 <= from < s.len() && s[from] != c {
        lemma_index_of_from_bounds(s, c, from + 1);
    }
}

pub proof fn lemma_find_from_bounds(s: Seq<char>, pat: Seq<char>, from: int)
    ensures
        find_from(s, pat, from) is Some ==> from <= find_from(s, pat, from)->0 && find_from(
            s,
            pat,
            from,
        )->0 + pat.len() <= s.len(),
    decreases s.len() + 1 - from,
{
    if 0 <= from && from + pat.len() <= s.len() && s.subrange(from, from + pat.len()) != pat {
        lemma_find_from_bounds(s, pat, from + 1);
    }
}

/// The topic named in an error message (see `extracted_topic`).
pub fn extract_topic_name(error_msg: &str) -> (r: Option<String>)
    ensures
        match r {
            Some(t) => extracted_topic(error_msg@) == Some(t@),
            None => extracted_topic(error_msg@) is None,
        },
{
    let v = chars_of(error_msg);
    if let Some(start) = find_char(&v, '"', 0) {
        proof {
            lemma_index_of_from_bounds(v@, '"', 0);
            lemma_index_of_from_bounds(v@, '"', start as int + 1);
        }
        if let Some(end) = find_char(&v, '"', start + 1) {
            return Some(error_msg.substring_char(start + 1, end).to_owned());
        }
    }
    let word: Vec<char> = vec!['t', 'o', 'p', 'i', 'c', ' '];
    assert(word@ =~= topic_word());
    if let Some(pos) = find_text(&v, &word, 0) {
        proof {
            lemma_index_of_from_bounds(v@, ' ', pos as int + 6);
        }
        assert(word@.len() == 6);
        assert(pos + 6 <= v.len());
        if let Some(end) = find_char(&v, ' ', pos + 6) {
            return Some(error_msg.substring_char(pos + 6, end).to_owned());
        }
    }
    None
}

/// The server error for a failure with this I/O kind (if it is an I/O
/// failure) and message: I/O errors keep their kind; a message naming a
/// topic ("topic"/"Topic") as missing ("not found"/"does not exist") is
/// TopicNotFound with the extracted topic (empty if none); one naming the
/// controller ("controller"/"Controller") is ControllerNotAvailable; any
/// other is Internal.
pub open spec fn classified_error(io_kind: Option<IoErrorKind>, message: Seq<char>) -> (Option<IoErrorKind>, u8, Seq<char>) {
    if io_kind is Some {
        (io_kind, 0, message)
    } else if (contains_text(message, "topic"@) || contains_text(message, "Topic"@)) && (contains_text(message, "not found"@) || contains_text(message, "does not exist"@)) {
        (None, 1, match extracted_topic(message) { Some(t) => t, None => Seq::empty() })
    } else if contains_text(message, "controller"@) || contains_text(message, "Controller"@) {
        (None, 2, Seq::empty())
    } else {
        (None, 3, message)
    }
}

/// The view of a server error produced from a generic failure:
/// (I/O kind, which variant: 0 I/O, 1 topic not found, 2 controller, 3
/// internal, 4 other, payload text).
pub open spec fn server_error_summary(e: ServerError) -> (Option<IoErrorKind>, u8, Seq<char>) {
    match e {
        ServerError::Io { kind, message } => (Some(kind), 0, message@),
        ServerError::TopicNotFound { topic } => (None, 1, topic@),
        ServerError::ControllerNotAvailable => (None, 2, Seq::empty()),
        ServerError::Internal(m) => (None, 3, m@),
        _ => (None, 4, Seq::empty()),
    }
}

fn chars_vec(s: &str) -> (v: Vec<char>)
    ensures
        v@ == s@,
{
    chars_of(s)
}

/// Classifies a failure given its I/O kind (when it is an I/O error) and its
/// message (see `classified_error`).
pub fn server_error_from_parts(io_kind: Option<IoErrorKind>, message: String) -> (e: ServerError)
    ensures
        server_error_summary(e) == classified_error(io_kind, message@),
{
    if let Some(kind) = io_kind {
        return ServerError::Io { kind, message };
    }
    let v = chars_of(message.as_str());
    proof {
        reveal_strlit("topic");
        reveal_strlit("Topic");
        reveal_strlit("not found");
        reveal_strlit("does not exist");
        reveal_strlit("controller");
        reveal_strlit("Controller");
    }
    let mentions_topic = text_contains(&v, &chars_vec("topic")) || text_contains(&v, &chars_vec("Topic"));
    let says_missing = text_contains(&v, &chars_vec("not found")) || text_contains(&v, &chars_vec("does not exist"));
    if mentions_topic && says_missing {
        let topic = match extract_topic_name(message.as_str()) {
            Some(t) => t,
            None => String::new(),
        };
        return ServerError::TopicNotFound { topic };
    }
    if text_contains(&v, &chars_vec("controller")) || text_contains(&v, &chars_vec("Controller")) {
        return ServerError::ControllerNotAvailable;
    }
    ServerError::Internal(message)
}

#[verifier::external_type_specification]
#[verifier::external_body]
pub struct ExAnyhowError(anyhow::Error);

/// The name of a failure's I/O kind, if it wraps an I/O error: the `Debug`
/// text of the `kind()` of what `anyhow::Error::downcast_ref::<std::io::Error>`
/// finds.
pub uninterp spec fn io_kind_name_of(error: anyhow::Error) -> Option<Seq<char>>;

/// The kind a std `ErrorKind` variant name stands for: the variant of that
/// name, `Other` for a name std adds later.
pub open spec fn kind_named(name: Seq<char>) -> IoErrorKind {
    if name == "NotFound"@ {
        IoErrorKind::NotFound
    } else if name == "PermissionDenied"@ {
        IoErrorKind::PermissionDenied
    } else if name == "ConnectionRefused"@ {
        IoErrorKind::ConnectionRefused
    } else if name == "ConnectionReset"@ {
        IoErrorKind::ConnectionReset
    } else if name == "HostUnreachable"@ {
        IoErrorKind::HostUnreachable
    } else if name == "NetworkUnreachable"@ {
        IoErrorKind::NetworkUnreachable
    } else if name == "ConnectionAborted"@ {
        IoErrorKind::ConnectionAborted
    } else if name == "NotConnected"@ {
        IoErrorKind::NotConnected
    } else if name == "AddrInUse"@ {
        IoErrorKind::AddrInUse
    } else if name == "AddrNotAvailable"@ {
        IoErrorKind::AddrNotAvailable
    } else if name == "NetworkDown"@ {
        IoErrorKind::NetworkDown
    } else if name == "BrokenPipe"@ {
        IoErrorKind::BrokenPipe
    } else if name == "AlreadyExists"@ {
        IoErrorKind::AlreadyExists
    } else if name == "WouldBlock"@ {
        IoErrorKind::WouldBlock
    } else if name == "NotADirectory"@ {
        IoErrorKind::NotADirectory
    } else if name == "IsADirectory"@ {
        IoErrorKind::IsADirectory
    } else if name == "DirectoryNotEmpty"@ {
        IoErrorKind::DirectoryNotEmpty
    } else if name == "ReadOnlyFilesystem"@ {
        IoErrorKind::ReadOnlyFilesystem
    } else if name == "StaleNetworkFileHandle"@ {
        IoErrorKind::StaleNetworkFileHandle
    } else if name == "InvalidInput"@ {
        IoErrorKind::InvalidInput
    } else if name == "InvalidData"@ {
        IoErrorKind::InvalidData
    } else if name == "TimedOut"@ {
        IoErrorKind::TimedOut
    } else if name == "WriteZero"@ {
        IoErrorKind::WriteZero
    } else if name == "StorageFull"@ {
        IoErrorKind::StorageFull
    } else if name == "NotSeekable"@ {
        IoErrorKind::NotSeekable
    } else if name == "QuotaExceeded"@ {
        IoErrorKind::QuotaExceeded
    } else if name == "FileTooLarge"@ {
        IoErrorKind::FileTooLarge
    } else if name == "ResourceBusy"@ {
        IoErrorKind::ResourceBusy
    } else if name == "ExecutableFileBusy"@ {
        IoErrorKind::ExecutableFileBusy
    } else if name == "Deadlock"@ {
        IoErrorKind::Deadlock
    } else if name == "CrossesDevices"@ {
        IoErrorKind::CrossesDevices
    } else if name == "TooManyLinks"@ {
        IoErrorKind::TooManyLinks
    } else if name == "InvalidFilename"@ {
        IoErrorKind::InvalidFilename
    } else if name == "ArgumentListTooLong"@ {
        IoErrorKind::ArgumentListTooLong
    } else if name == "Interrupted"@ {
        IoErrorKind::Interrupted
    } else if name == "Unsupported"@ {
        IoErrorKind::Unsupported
    } else if name == "UnexpectedEof"@ {
        IoErrorKind::UnexpectedEof
    } else if name == "OutOfMemory"@ {
        IoErrorKind::OutOfMemory
    } else {
        IoErrorKind::Other
    }
}

/// The I/O kind of a failure, if it wraps an I/O error.
pub open spec fn io_kind_of(error: anyhow::Error) -> Option<IoErrorKind> {
    match io_kind_name_of(error) {
        Some(n) => Some(kind_named(n)),
        None => None,
    }
}

/// The text of a failure: its `Display`.
pub uninterp spec fn message_of(error: anyhow::Error) -> Seq<char>;

/// The name of a failure's I/O kind, if it wraps an I/O error.
///
/// Calls `anyhow::Error::downcast_ref::<std::io::Error>` and formats the
/// error's `kind()` with `Debug`, which a derived `Debug` writes as the
/// variant's name. The result depends on the error alone, and is named
/// `io_kind_name_of`; what it is for a given error is not spelled out.
#[verifier::external_body]
fn anyhow_io_kind_name(error: &anyhow::Error) -> (k: Option<String>)
    ensures
        match k {
            Some(n) => io_kind_name_of(*error) == Some(n@),
            None => io_kind_name_of(*error) is None,
        },
{
    error.downcast_ref::<std::io::Error>().map(|e| format!("{:?}", e.kind()))
}

/// The kind a std `ErrorKind` variant name stands for (see `kind_named`).
pub fn io_kind_named(name: &str) -> (k: IoErrorKind)
    ensures
        k == kind_named(name@),
{
    if str_eq(name, "NotFound") {
        IoErrorKind::NotFound
    } else if str_eq(name, "PermissionDenied") {
        IoErrorKind::PermissionDenied
    } else if str_eq(name, "ConnectionRefused") {
        IoErrorKind::ConnectionRefused
    } else if str_eq(name, "ConnectionReset") {
        IoErrorKind::ConnectionReset
    } else if str_eq(name, "HostUnreachable") {
        IoErrorKind::HostUnreachable
    } else if str_eq(name, "NetworkUnreachable") {
        IoErrorKind::NetworkUnreachable
    } else if str_eq(name, "ConnectionAborted") {
        IoErrorKind::ConnectionAborted
    } else if str_eq(name, "NotConnected") {
        IoErrorKind::NotConnected
    } else if str_eq(name, "AddrInUse") {
        IoErrorKind::AddrInUse
    } else if str_eq(name, "AddrNotAvailable") {
        IoErrorKind::AddrNotAvailable
    } else if str_eq(name, "NetworkDown") {
        IoErrorKind::NetworkDown
    } else if str_eq(name, "BrokenPipe") {
        IoErrorKind::BrokenPipe
    } else if str_eq(name, "AlreadyExists") {
        IoErrorKind::AlreadyExists
    } else if str_eq(name, "WouldBlock") {
        IoErrorKind::WouldBlock
    } else if str_eq(name, "NotADirectory") {
        IoErrorKind::NotADirectory
    } else if str_eq(name, "IsADirectory") {
        IoErrorKind::IsADirectory
    } else if str_eq(name, "DirectoryNotEmpty") {
        IoErrorKind::DirectoryNotEmpty
    } else if str_eq(name, "ReadOnlyFilesystem") {
        IoErrorKind::ReadOnlyFilesystem
    } else if str_eq(name, "StaleNetworkFileHandle") {
        IoErrorKind::StaleNetworkFileHandle
    } else if str_eq(name, "InvalidInput") {
        IoErrorKind::InvalidInput
    } else if str_eq(name, "InvalidData") {
        IoErrorKind::InvalidData
    } else if str_eq(name, "TimedOut") {
        IoErrorKind::TimedOut
    } else if str_eq(name, "WriteZero") {
        IoErrorKind::WriteZero
    } else if str_eq(name, "StorageFull") {
        IoErrorKind::StorageFull
    } else if str_eq(name, "NotSeekable") {
        IoErrorKind::NotSeekable
    } else if str_eq(name, "QuotaExceeded") {
        IoErrorKind::QuotaExceeded
    } else if str_eq(name, "FileTooLarge") {
        IoErrorKind::FileTooLarge
    } else if str_eq(name, "ResourceBusy") {
        IoErrorKind::ResourceBusy
    } else if str_eq(name, "ExecutableFileBusy") {
        IoErrorKind::ExecutableFileBusy
    } else if str_eq(name, "Deadlock") {
        IoErrorKind::Deadlock
    } else if str_eq(name, "CrossesDevices") {
        IoErrorKind::CrossesDevices
    } else if str_eq(name, "TooManyLinks") {
        IoErrorKind::TooManyLinks
    } else if str_eq(name, "InvalidFilename") {
        IoErrorKind::InvalidFilename
    } else if str_eq(name, "ArgumentListTooLong") {
        IoErrorKind::ArgumentListTooLong
    } else if str_eq(name, "Interrupted") {
        IoErrorKind::Interrupted
    } else if str_eq(name, "Unsupported") {
        IoErrorKind::Unsupported
    } else if str_eq(name, "UnexpectedEof") {
        IoErrorKind::UnexpectedEof
    } else if str_eq(name, "OutOfMemory") {
        IoErrorKind::OutOfMemory
    } else {
        IoErrorKind::Other
    }
}

/// The message of a failure.
///
/// Calls `ToString::to_string` (the error's `Display`). The text depends on
/// the error alone, and is named `message_of`; it is not spelled out.
#[verifier::external_body]
fn anyhow_message(error: &anyhow::Error) -> (m: String)
    ensures
        m@ == message_of(*error),
{
    error.to_string()
}

impl ErrorHandler {
    /// A handler with the default policy.
    pub fn new() -> (h: Self)
        ensures
            h.max_retries == 3,
            h.retry_delay_ms == 100,
            h.detailed_logging,
    {
        ErrorHandler::default()
    }

    /// How to recover from `error`: retry a would-block, close on a broken
    /// pipe, throttle rate-limited clients for a second, and otherwise answer
    /// with the matching error code.
    pub fn handle_error(&self, error: &ServerError, context: &str) -> (r: ErrorRecovery)
        ensures
            r == recovery_for(*error),
            error_answer_law(*error, r),
            error is Protocol ==> r == ErrorRecovery::ReturnError(ErrorCode::InvalidRequest),
    {
        proof {
            lemma_error_answers(*error);
        }
        match error {
            ServerError::Io { kind, .. } => {
                if *kind == IoErrorKind::WouldBlock {
                    ErrorRecovery::Retry
                } else if *kind == IoErrorKind::BrokenPipe {
                    ErrorRecovery::CloseConnection
                } else {
                    ErrorRecovery::ReturnError(ErrorCode::UNKNOWN_SERVER_ERROR)
                }
            },
            ServerError::TopicNotFound { .. } => ErrorRecovery::ReturnError(ErrorCode::UnknownTopicOrPartition),
            ServerError::ControllerNotAvailable => ErrorRecovery::ReturnError(ErrorCode::CoordinatorNotAvailable),
            ServerError::Protocol { .. } => ErrorRecovery::ReturnError(ErrorCode::InvalidRequest),
            ServerError::RequestTimeout { .. } => ErrorRecovery::ReturnError(ErrorCode::RequestTimedOut),
            ServerError::RateLimitExceeded => ErrorRecovery::Throttle(1000),
            ServerError::AuthorizationFailed(_) => ErrorRecovery::ReturnError(ErrorCode::TopicAuthorizationFailed),
            ServerError::Internal(_) => ErrorRecovery::ReturnError(ErrorCode::KafkaStorageError),
            _ => ErrorRecovery::ReturnError(ErrorCode::UNKNOWN_SERVER_ERROR),
        }
    }

    /// Converts a generic failure into a server error, by its I/O kind and
    /// message (see `server_error_from_parts`).
    pub fn from_anyhow(error: anyhow::Error) -> (e: ServerError)
        ensures
            server_error_summary(e) == classified_error(io_kind_of(error), message_of(error)),
    {
        let kind = match anyhow_io_kind_name(&error) {
            Some(n) => Some(io_kind_named(n.as_str())),
            None => None,
        };
        let message = anyhow_message(&error);
        server_error_from_parts(kind, message)
    }
}

/// The body of an error response after the correlation id: for CreateTopics
/// (19), Produce (0) and Fetch (1) an empty topic array, preceded from
/// version 1 by a zero throttle time; for any other API the error code.
pub open spec fn error_body(error_code: ErrorCode, api_key: i16, api_version: i16) -> Seq<u8> {
    if api_key == 19 || api_key == 0 || api_key == 1 {
        if api_version >= 1 { be_i32(0) + be_i32(0) } else { be_i32(0) }
    } else {
        be_i16(error_code_value(error_code))
    }
}

/// A complete error response: size, correlation id, body.
pub open spec fn error_response(error_code: ErrorCode, correlation_id: i32, api_key: i16, api_version: i16) -> Seq<u8> {
    let body = be_i32(correlation_id) + error_body(error_code, api_key, api_version);
    be_i32(body.len() as i32) + body
}

impl ErrorHandler {
    /// A Kafka error response frame for the given API.
    pub fn build_error_response(&self, error_code: ErrorCode, correlation_id: i32, api_key: i16, api_version: i16) -> (r: Vec<u8>)
        ensures
            r@ == error_response(error_code, correlation_id, api_key, api_version),
    {
        let mut body: Vec<u8> = Vec::new();
        push_be_i32(&mut body, correlation_id);
        if api_key == 19 || api_key == 0 || api_key == 1 {
            if api_version >= 1 {
                push_be_i32(&mut body, 0);
            }
            push_be_i32(&mut body, 0);
        } else {
            push_be_i16(&mut body, error_code.to_i16());
        }
        let mut response: Vec<u8> = Vec::new();
        push_be_i32(&mut response, body.len() as i32);
        let ghost head = response@;
        let mut i: usize = 0;
        while i < body.len()
            invariant
                i <= body@.len(),
                response@ == head + body@.take(i as int),
            decreases body.len() - i,
        {
            response.push(body[i]);
            i += 1;
            assert(response@ =~= head + body@.take(i as int));
        }
        assert(body@.take(body@.len() as int) =~= body@);
        response
    }
}

} // verus!

