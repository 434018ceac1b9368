use kvs::compaction_policy::{
    CompactionContext, CompactionPolicy, MaxDeadRecordPolicy, MaxFilePolicy, NeverPolicy,
};
use kvs::engine::{
    choose_engine, compacted_file_name, is_log_file_name, is_sled_marker_name, log_file_name,
    previous_engine, EngineType, PreviousEngine,
};
use kvs::error::Error;
use kvs::response::Response;
use kvs::server::{get_outcome, get_response, rm_outcome, rm_response, set_outcome, set_response};

fn ctx(files: usize, dead: usize) -> CompactionContext {
    CompactionContext { open_immutable_files: files, dead_commands: dead }
}

#[test]
fn max_file_policy_fires_past_limit() {
    let p = MaxFilePolicy::default();
    assert!(!p.should_compact(ctx(8, 0)));
    assert!(p.should_compact(ctx(9, 0)));
    assert!(MaxFilePolicy::new(2).should_compact(ctx(3, 0)));
    assert!(!MaxFilePolicy::new(2).should_compact(ctx(2, 5000)));
}

#[test]
fn dead_record_policy_fires_past_limit() {
    let p = MaxDeadRecordPolicy::default();
    assert!(!p.should_compact(ctx(100, 1024)));
    assert!(p.should_compact(ctx(0, 1025)));
}

#[test]
fn never_policy_never_fires() {
    assert!(!NeverPolicy.should_compact(ctx(usize::MAX, usize::MAX)));
}

#[test]
fn engine_names() {
    assert_eq!(EngineType::Kvs.name(), "kvs");
    assert_eq!(EngineType::Sled.name(), "sled");
    assert_eq!(EngineType::from_name("kvs").unwrap(), EngineType::Kvs);
    assert_eq!(EngineType::from_name("sled").unwrap(), EngineType::Sled);
    assert!(matches!(EngineType::from_name("redis"), Err(Error::UnknownEngine)));
}

#[test]
fn directory_markers() {
    assert!(is_sled_marker_name("conf"));
    assert!(is_sled_marker_name("db"));
    assert!(!is_sled_marker_name("dbx"));
    assert!(is_log_file_name("2024-01-01T00:00:00Z.pingcap"));
    assert!(!is_log_file_name("pingcap"));
    assert!(!is_log_file_name("notes.txt"));
}

#[test]
fn engine_mismatch() {
    let both = vec!["conf".to_owned(), "x.pingcap".to_owned()];
    let prev = previous_engine(&both);
    assert_eq!(prev, PreviousEngine { kvs: true, sled: true });
    assert!(matches!(choose_engine(prev, Some(EngineType::Kvs)), Err(Error::EngineMismatch)));
    assert!(matches!(choose_engine(prev, Some(EngineType::Sled)), Err(Error::EngineMismatch)));
    assert!(matches!(choose_engine(prev, None), Err(Error::EngineMismatch)));
    let sled_dir = vec!["db".to_owned(), "notes".to_owned()];
    let prev = previous_engine(&sled_dir);
    assert_eq!(prev, PreviousEngine { kvs: false, sled: true });
    assert!(matches!(choose_engine(prev, Some(EngineType::Kvs)), Err(Error::EngineMismatch)));
    assert_eq!(choose_engine(prev, Some(EngineType::Sled)).unwrap(), EngineType::Sled);
    assert_eq!(choose_engine(prev, None).unwrap(), EngineType::Sled);
    let kvs_dir = vec!["readme".to_owned(), "a.pingcap".to_owned()];
    let prev = previous_engine(&kvs_dir);
    assert_eq!(prev, PreviousEngine { kvs: true, sled: false });
    assert!(matches!(choose_engine(prev, Some(EngineType::Sled)), Err(Error::EngineMismatch)));
    assert_eq!(choose_engine(prev, None).unwrap(), EngineType::Kvs);
    let fresh = previous_engine(&vec![]);
    assert_eq!(fresh, PreviousEngine { kvs: false, sled: false });
    assert_eq!(choose_engine(fresh, None).unwrap(), EngineType::Kvs);
    assert_eq!(choose_engine(fresh, Some(EngineType::Sled)).unwrap(), EngineType::Sled);
}

#[test]
fn file_names() {
    let ts = "2024-05-06T07:08:09.123Z";
    assert_eq!(log_file_name(ts), "2024-05-06T07:08:09.123Z.pingcap");
    let compacted = compacted_file_name(ts);
    assert_eq!(compacted, "0000-2024-05-06T07:08:09.123Z.pingcap");
    assert!(compacted < log_file_name(ts));
    assert!(is_log_file_name(&compacted));
}

#[test]
fn responses_for_engine_results() {
    assert_eq!(set_response(Ok(())), Response::SuccessfulSet);
    assert_eq!(set_response(Err(Error::Io("disk".to_owned()))), Response::Error("disk".to_owned()));
    assert_eq!(get_response(Ok(Some("v".to_owned()))), Response::SuccessfulGet("v".to_owned()));
    assert_eq!(get_response(Ok(None)), Response::KeyNotFound);
    assert_eq!(rm_response(Ok(())), Response::SuccessfulRm);
    assert_eq!(rm_response(Err(Error::KeyNotFound)), Response::KeyNotFound);
    assert_eq!(rm_response(Err(Error::CorruptLog)), Response::Error("Corrupt log".to_owned()));
}

#[test]
fn client_outcomes() {
    assert!(set_outcome(Response::SuccessfulSet).is_ok());
    assert!(matches!(set_outcome(Response::KeyNotFound), Err(Error::UnexpectedResponse)));
    assert_eq!(get_outcome(Response::SuccessfulGet("v".to_owned())).unwrap(), Some("v".to_owned()));
    assert_eq!(get_outcome(Response::KeyNotFound).unwrap(), None);
    assert!(rm_outcome(Response::SuccessfulRm).is_ok());
    let err = rm_outcome(Response::KeyNotFound).unwrap_err();
    assert!(err.message().contains("Key not found"));
    match get_outcome(Response::Error("boom".to_owned())) {
        Err(Error::Server(m)) => assert_eq!(m, "boom"),
        other => panic!("unexpected {other:?}"),
    }
}
