use kvs::{
    handle_request, next_accept_step, AcceptOutcome, AcceptStep, KvsEngine, Request,
    choose_engine, into_response, log_file_name, log_pathe, parse_log_file_name, segment_ids,
    select_engine, split_records, value_of_record, Cmd, EngineKind, KeyDir, KvsError, LogPointer,
    Response,
};
use std::path::PathBuf;

#[test]
fn segment_file_names() {
    assert_eq!(log_file_name(0), "0.log");
    assert_eq!(log_file_name(7), "7.log");
    assert_eq!(log_file_name(1203), "1203.log");
    assert_eq!(log_file_name(u64::MAX), "18446744073709551615.log");
}

#[test]
fn segment_file_names_parse_back() {
    assert_eq!(parse_log_file_name("5.log"), Some(5));
    assert_eq!(parse_log_file_name("0.log"), Some(0));
    assert_eq!(parse_log_file_name("1203.log"), Some(1203));
    assert_eq!(parse_log_file_name("18446744073709551615.log"), Some(u64::MAX));
    for id in [1u64, 10, 99, 100, 123456789, u64::MAX - 1] {
        assert_eq!(parse_log_file_name(&log_file_name(id)), Some(id));
    }
}

#[test]
fn other_names_are_not_segments() {
    for name in [
        "05.log", "5.LOG", "5.log.log", ".log", "log", "abc.log", "-1.log", "+1.log", "1 .log",
        "18446744073709551616.log", "99999999999999999999.log", "engine", "", "5.lo",
    ] {
        assert_eq!(parse_log_file_name(name), None, "{}", name);
    }
}

#[test]
fn segment_ids_are_sorted_and_filtered() {
    let names: Vec<String> = ["10.log", "engine", "2.log", "x.log", "1.log", "02.log", "10.log"]
        .iter()
        .map(|s| s.to_string())
        .collect();
    assert_eq!(segment_ids(&names), vec![1, 2, 10]);
    assert_eq!(segment_ids(&Vec::new()), Vec::<u64>::new());
}

#[test]
fn segment_path_is_in_directory() {
    let dir = PathBuf::from("data");
    assert_eq!(log_pathe(&dir, 7), PathBuf::from("data").join("7.log"));
}

#[test]
fn records_are_split_at_newlines() {
    assert_eq!(split_records(b"a\nbb\nccc\n"), vec![2, 3, 4]);
    assert_eq!(split_records(b"a\nbb"), vec![2, 2]);
    assert_eq!(split_records(b"\n\n"), vec![1, 1]);
    assert_eq!(split_records(b""), Vec::<u64>::new());
    assert_eq!(split_records(b"{\"Set\":{\"key\":\"a\",\"value\":\"1\"}}\n"), vec![32]);
}

#[test]
fn record_values() {
    let put = Cmd::Put { key: "k".to_string(), value: "v".to_string() };
    assert_eq!(value_of_record(put).ok(), Some("v".to_string()));
    let rm = Cmd::Rm { key: "k".to_string() };
    assert!(matches!(value_of_record(rm), Err(KvsError::Corruption(_))));
}

#[test]
fn responses_carry_values_and_messages() {
    match into_response(Ok(Some("v".to_string()))) {
        Response::Success(Some(v)) => assert_eq!(v, "v"),
        _ => panic!("wrong response"),
    }
    assert!(matches!(into_response(Ok(None)), Response::Success(None)));
    match into_response(Err(KvsError::KeyNotFound)) {
        Response::Failure(m) => assert_eq!(m, "Key not found"),
        _ => panic!("wrong response"),
    }
    match into_response(Err(KvsError::Io("disk full".to_string()))) {
        Response::Failure(m) => assert_eq!(m, "disk full"),
        _ => panic!("wrong response"),
    }
    assert_eq!(KvsError::KeyNotFound.message(), "Key not found");
}

#[test]
fn engine_names() {
    assert_eq!(EngineKind::Kvs.name(), "kvs");
    assert_eq!(EngineKind::Sled.name(), "sled");
    assert_eq!(select_engine("kvs", None).ok(), Some(EngineKind::Kvs));
    assert_eq!(select_engine("sled", Some("sled")).ok(), Some(EngineKind::Sled));
    assert!(matches!(select_engine("sled", Some("kvs")), Err(KvsError::InvalidConfig(_))));
    assert!(matches!(select_engine("rocks", None), Err(KvsError::InvalidConfig(_))));
}

#[test]
fn engine_choice_ignores_case_and_marker_whitespace() {
    assert_eq!(choose_engine("KVS", None).ok(), Some(EngineKind::Kvs));
    assert_eq!(choose_engine("Sled", Some("sled\n")).ok(), Some(EngineKind::Sled));
    assert!(matches!(choose_engine("kvs", Some(" sled ")), Err(KvsError::InvalidConfig(_))));
    assert!(matches!(choose_engine("Rocks", None), Err(KvsError::InvalidConfig(_))));
    assert_eq!(choose_engine("kvs", Some("\t kvs \r\n")).ok(), Some(EngineKind::Kvs));
    assert_eq!(choose_engine("kvs", Some("\u{3000}kvs\u{a0}")).ok(), Some(EngineKind::Kvs));
    assert!(matches!(choose_engine("kvs", Some("k vs")), Err(KvsError::InvalidConfig(_))));
}

#[test]
fn accept_loop_steps() {
    assert_eq!(next_accept_step(AcceptOutcome::Connection, false), AcceptStep::Dispatch);
    assert_eq!(next_accept_step(AcceptOutcome::Connection, true), AcceptStep::Dispatch);
    assert_eq!(next_accept_step(AcceptOutcome::WouldBlock, false), AcceptStep::Sleep(1));
    assert_eq!(next_accept_step(AcceptOutcome::WouldBlock, true), AcceptStep::Stop);
    assert_eq!(next_accept_step(AcceptOutcome::Failed, false), AcceptStep::Continue);
    assert_eq!(next_accept_step(AcceptOutcome::Failed, true), AcceptStep::Continue);
}

#[derive(Clone)]
struct MemoryEngine {
    map: std::sync::Arc<std::sync::Mutex<std::collections::BTreeMap<String, String>>>,
}

impl KvsEngine for MemoryEngine {
    fn set(&self, key: String, value: String) -> Result<(), KvsError> {
        self.map.lock().unwrap().insert(key, value);
        Ok(())
    }

    fn get(&self, key: String) -> Result<Option<String>, KvsError> {
        Ok(self.map.lock().unwrap().get(&key).cloned())
    }

    fn remove(&self, key: String) -> Result<(), KvsError> {
        match self.map.lock().unwrap().remove(&key) {
            Some(_) => Ok(()),
            None => Err(KvsError::KeyNotFound),
        }
    }
}

#[test]
fn requests_are_dispatched_to_the_engine() {
    let engine = MemoryEngine { map: Default::default() };
    let put = Request::Put { key: "k".to_string(), value: "v".to_string() };
    assert!(matches!(handle_request(&engine, put), Response::Success(None)));
    match handle_request(&engine, Request::Get { key: "k".to_string() }) {
        Response::Success(Some(v)) => assert_eq!(v, "v"),
        _ => panic!("wrong response"),
    }
    assert!(matches!(handle_request(&engine, Request::Remove { key: "k".to_string() }), Response::Success(None)));
    assert!(matches!(handle_request(&engine, Request::Get { key: "k".to_string() }), Response::Success(None)));
    match handle_request(&engine, Request::Remove { key: "k".to_string() }) {
        Response::Failure(m) => assert_eq!(m, "Key not found"),
        _ => panic!("wrong response"),
    }
}

#[test]
fn keydir_keeps_slots_consistent() {
    let p = |f: u64, o: u64, l: u64| LogPointer { file_id: f, offset: o, length: l };
    let mut dir = KeyDir::new();
    assert_eq!(dir.insert("a".to_string(), p(1, 0, 5)), None);
    assert_eq!(dir.insert("b".to_string(), p(1, 5, 6)), None);
    assert_eq!(dir.insert("c".to_string(), p(1, 11, 7)), None);
    assert_eq!(dir.insert("a".to_string(), p(1, 18, 8)), Some(p(1, 0, 5)));
    assert_eq!(dir.remove("a"), Some(p(1, 18, 8)));
    assert_eq!(dir.remove("a"), None);
    assert_eq!(dir.len(), 2);
    assert_eq!(dir.get("c"), Some(p(1, 11, 7)));
    assert_eq!(dir.get("b"), Some(p(1, 5, 6)));
    assert!(dir.contains_key("c"));
    assert!(!dir.contains_key("a"));
    dir.set_pointer_at(0, p(9, 0, 7));
    assert_eq!(dir.pointer_at(0), p(9, 0, 7));
}
