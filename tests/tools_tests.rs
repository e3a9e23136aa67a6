use kvs::engine::{embedded_removal, embedded_value};
use kvs::cli::{client_report, decimal_string, log_file_name, log_generation, Verb};
use kvs::pool::{next_worker, Dispatcher, PoolAction, PoolMessage};
use kvs::protocol::{get_response, mutation_response, unreadable_response};
use kvs::{compatible_engine, format_log_path, valid_engine, valid_ip, KvError, KvResponse};

fn success(v: Option<&str>) -> KvResponse {
    KvResponse::Success(v.map(|s| s.to_string()))
}

#[test]
fn client_prints_value_found() {
    let r = client_report(Verb::Get, get_response(Ok(Some("1".to_string()))));
    assert_eq!(r.stdout, Some("1".to_string()));
    assert_eq!(r.stderr, None);
    assert_eq!(r.exit_code, 0);
}

#[test]
fn client_get_missing_prints_key_not_found_and_succeeds() {
    let r = client_report(Verb::Get, get_response(Ok(None)));
    assert_eq!(r.stdout, Some("Key not found".to_string()));
    assert_eq!(r.exit_code, 0);
}

#[test]
fn client_rm_missing_fails_on_stderr() {
    let r = client_report(Verb::Rm, mutation_response(Err(KvError::KeyNotFound)));
    assert!(r.stderr.unwrap().contains("Key not found"));
    assert_eq!(r.stdout, None);
    assert_eq!(r.exit_code, 1);
}

#[test]
fn client_set_reports_nothing_on_success() {
    let r = client_report(Verb::Put, mutation_response(Ok(())));
    assert_eq!(r.stdout, None);
    assert_eq!(r.stderr, None);
    assert_eq!(r.exit_code, 0);
    let r = client_report(Verb::Put, KvResponse::Error("Internal error".to_string()));
    assert_eq!(r.stdout, Some("Internal error".to_string()));
    assert_eq!(r.exit_code, 1);
}

#[test]
fn responses_follow_engine_results() {
    assert!(matches!(get_response(Ok(Some("v".to_string()))), KvResponse::Success(Some(ref v)) if v == "v"));
    assert!(matches!(get_response(Ok(None)), KvResponse::Success(None)));
    assert!(matches!(get_response(Err(KvError::InternalError)), KvResponse::Error(ref m) if m == "Internal error"));
    assert!(matches!(mutation_response(Ok(())), KvResponse::Success(None)));
    assert!(matches!(mutation_response(Err(KvError::KeyNotFound)), KvResponse::Error(ref m) if m == "Key not found"));
    assert!(matches!(unreadable_response(None), KvResponse::Error(ref m) if m == "Unable to parse request"));
    assert!(matches!(unreadable_response(Some(KvError::Serde("EOF".to_string()))), KvResponse::Error(ref m) if m == "EOF"));
    let _ = success(None);
}

#[test]
fn error_descriptions() {
    assert_eq!(KvError::KeyNotFound.description(), "Key not found");
    assert_eq!(KvError::InternalError.description(), "Internal error");
    assert_eq!(KvError::MissingLogFile.description(), "Missing log file");
    assert_eq!(KvError::MalformedRequest.description(), "MalformedRequest");
    assert_eq!(KvError::Io("disk full".to_string()).description(), "disk full");
    assert!(KvError::KeyNotFound.is_key_not_found());
    assert!(!KvError::InternalError.is_key_not_found());
}

#[test]
fn engine_names() {
    assert!(valid_engine("kvs".to_string()).is_ok());
    assert!(valid_engine("sled".to_string()).is_ok());
    assert_eq!(
        valid_engine("rocks".to_string()),
        Err("The server only supports kvs or sled as an engine".to_string())
    );
}

#[test]
fn addresses() {
    assert_eq!(valid_ip(true), Ok(()));
    assert_eq!(valid_ip(false), Err("Invalid address provided".to_string()));
}

#[test]
fn engine_compatibility() {
    assert!(compatible_engine("kvs", false, false));
    assert!(compatible_engine("sled", false, false));
    assert!(compatible_engine("sled", true, true));
    assert!(!compatible_engine("kvs", true, true));
    assert!(compatible_engine("kvs", true, false));
    assert!(!compatible_engine("sled", true, false));
}

#[test]
fn log_file_names() {
    assert_eq!(decimal_string(0), "0");
    assert_eq!(decimal_string(1907), "1907");
    assert_eq!(decimal_string(u64::MAX), "18446744073709551615");
    assert_eq!(log_file_name(12), "12.log");
    assert_eq!(format_log_path("./log", 3), "./log/3.log");
    assert_eq!(format_log_path("data/", 3), "data/3.log");
    assert_eq!(format_log_path("", 7), "7.log");
}

#[test]
fn log_generations_from_names() {
    assert_eq!(log_generation("12.log"), Some(12));
    assert_eq!(log_generation("0.log"), Some(0));
    assert_eq!(log_generation("18446744073709551615.log"), Some(u64::MAX));
    assert_eq!(log_generation("18446744073709551616.log"), None);
    assert_eq!(log_generation(".log"), None);
    assert_eq!(log_generation("1a.log"), None);
    assert_eq!(log_generation("12.txt"), None);
    assert_eq!(log_generation("db"), None);
}

#[test]
fn dispatcher_hands_jobs_to_idle_workers_in_order() {
    let mut d = Dispatcher::new(2);
    assert_eq!(d.handle(PoolMessage::RunJob(10)), PoolAction::Run { worker: 0, job: 10 });
    assert_eq!(d.handle(PoolMessage::RunJob(11)), PoolAction::Run { worker: 1, job: 11 });
    assert_eq!(d.handle(PoolMessage::RunJob(12)), PoolAction::Wait);
    assert_eq!(d.handle(PoolMessage::RunJob(13)), PoolAction::Wait);
    assert_eq!(d.handle(PoolMessage::JobComplete(1)), PoolAction::Run { worker: 1, job: 12 });
    assert_eq!(d.handle(PoolMessage::JobComplete(0)), PoolAction::Run { worker: 0, job: 13 });
    assert_eq!(d.handle(PoolMessage::JobComplete(0)), PoolAction::Wait);
    assert_eq!(d.handle(PoolMessage::JobComplete(0)), PoolAction::Ignore);
    assert_eq!(d.handle(PoolMessage::JobComplete(7)), PoolAction::Ignore);
    assert_eq!(d.handle(PoolMessage::RunJob(14)), PoolAction::Run { worker: 0, job: 14 });
    assert_eq!(d.handle(PoolMessage::Shutdown), PoolAction::StopAll(2));
    assert_eq!(d.handle(PoolMessage::RunJob(15)), PoolAction::Ignore);
}

#[test]
fn workers_survive_panicking_jobs() {
    // Half of the jobs panic; a caught panic is reported as a completion like any other.
    let n = 8u64;
    let mut d = Dispatcher::new(2);
    let mut running: Vec<(usize, u64)> = Vec::new();
    let mut done: Vec<u64> = Vec::new();
    for job in 0..n {
        if let PoolAction::Run { worker, job } = d.handle(PoolMessage::RunJob(job)) {
            running.push((worker, job));
        }
    }
    while let Some((worker, job)) = running.pop() {
        if job % 2 == 1 {
            done.push(job);
        }
        if let PoolAction::Run { worker, job } = d.handle(PoolMessage::JobComplete(worker)) {
            running.push((worker, job));
        }
    }
    done.sort();
    assert_eq!(done, vec![1, 3, 5, 7]);
    assert!(matches!(d.handle(PoolMessage::RunJob(99)), PoolAction::Run { job: 99, .. }));
}

#[test]
fn round_robin() {
    assert_eq!(next_worker(0, 4), 1);
    assert_eq!(next_worker(3, 4), 0);
    assert_eq!(next_worker(0, 1), 0);
}

#[test]
fn embedded_values_decode_utf8() {
    assert_eq!(embedded_value(Some("h\u{e9}llo".as_bytes().to_vec())), Some("h\u{e9}llo".to_string()));
    assert_eq!(embedded_value(Some(vec![0x68, 0xff])), None);
    assert_eq!(embedded_value(None), None);
}

#[test]
fn embedded_removal_of_missing_key() {
    assert!(embedded_removal(true).is_ok());
    assert!(matches!(embedded_removal(false), Err(KvError::KeyNotFound)));
}
