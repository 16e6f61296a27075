use std::collections::BTreeMap;
use vapor_diagnostics_server::api::{
    download_report_v2, run_access, upload_report_v2, upload_report_v2_reply, ReplyBody,
};
use vapor_diagnostics_server::report::DiagnosticsReportV2;
use vapor_diagnostics_server::runs::{valid_run_id, RunMetadata};
use vapor_diagnostics_server::store::{
    choosing, directory_size, EntrySize, StoreAction, StoreError, StoreEvent, StorePhase, StoreSession,
    StoredRun, Upload,
};

fn upload(text: &str) -> Upload {
    Upload {
        source_format: "legacy-text".to_string(),
        client_version: Some("1.0".to_string()),
        platform: None,
        raw_text: text.to_string(),
        original_bytes: text.len(),
    }
}

/// The directory that holds the runs, kept in memory.
struct Disk {
    size: u64,
    dirs: BTreeMap<String, BTreeMap<String, String>>,
    latest: Option<String>,
    taken: usize,
    steps: usize,
    fail_at: Option<usize>,
}

impl Disk {
    fn new() -> Disk {
        Disk { size: 0, dirs: BTreeMap::new(), latest: None, taken: 0, steps: 0, fail_at: None }
    }

    fn perform(&mut self, action: StoreAction) -> StoreEvent {
        self.steps += 1;
        if self.fail_at == Some(self.steps) {
            return StoreEvent::Failed("disk full".to_string());
        }
        match action {
            StoreAction::CreateRunsDir => StoreEvent::Done,
            StoreAction::MeasureRunsDir => StoreEvent::Measured(self.stored_bytes()),
            StoreAction::FindRun { run_id } => {
                assert!(valid_run_id(&run_id));
                if self.taken > 0 {
                    self.taken -= 1;
                    return StoreEvent::RunFound(true);
                }
                StoreEvent::RunFound(self.dirs.contains_key(&run_id))
            }
            StoreAction::CreateStagingDir { dir } => {
                self.dirs.insert(dir, BTreeMap::new());
                StoreEvent::Done
            }
            StoreAction::EncodeMetadata => StoreEvent::Encoded("{}".to_string()),
            StoreAction::WriteStagedFile { dir, file, content } => {
                self.dirs.get_mut(&dir).unwrap().insert(file, content);
                StoreEvent::Done
            }
            StoreAction::Promote { dir, run_id } => {
                let files = self.dirs.remove(&dir).unwrap();
                self.dirs.insert(run_id, files);
                StoreEvent::Done
            }
            StoreAction::WriteLatest { content } => {
                self.latest = Some(content);
                StoreEvent::Done
            }
            StoreAction::Finish => unreachable!(),
        }
    }

    fn stored_bytes(&self) -> u64 {
        let files = self.dirs.values().flat_map(|files| files.values());
        self.size + files.map(|content| content.len() as u64).sum::<u64>()
    }

    fn listed(&self) -> Vec<String> {
        self.dirs.keys().filter(|name| valid_run_id(name)).cloned().collect()
    }

    fn store(&mut self, upload: Upload, max: u64) -> Result<StoredRun, StoreError> {
        let mut session = StoreSession::start(upload, max);
        while !matches!(session.pending(), StoreAction::Finish) {
            let event = self.perform(session.pending());
            session = session.advance(event);
        }
        session.outcome().unwrap()
    }
}

#[test]
fn a_stored_run_has_its_files() {
    let mut disk = Disk::new();
    let stored = disk.store(upload("token=abc\r\n"), 1000).ok().unwrap();
    assert_eq!(stored.stored_bytes, "token=<redacted>\n".len());
    assert_eq!(stored.redaction_count, 1);
    assert_eq!(disk.listed(), vec![stored.run_id.clone()]);
    let files = &disk.dirs[&stored.run_id];
    assert_eq!(files.len(), 3);
    assert_eq!(files["vapor.log"], "token=<redacted>\n");
    assert_eq!(files["metadata.json"], "{}");
    assert!(files["metadata.toml"].starts_with(&format!(
        "schema_version = 2\nrun_id = \"{}\"\n",
        stored.run_id
    )));
    assert!(files["metadata.toml"].contains("\nclient_version = \"1.0\"\noriginal_bytes = 11\nstored_bytes = 17\nredaction_count = 1\n"));
    assert_eq!(disk.latest, Some(format!("{}\n", stored.run_id)));
}

#[test]
fn a_stored_report_downloads_with_its_metadata() {
    let report = DiagnosticsReportV2 {
        schema_version: 2,
        consent: true,
        client_version: Some("7.1".to_string()),
        platform: None,
        log: Some("token=abc".to_string()),
        artifacts: vec![],
    };
    let upload = upload_report_v2("{..}".as_bytes(), Ok(report)).ok().unwrap();
    let mut disk = Disk::new();
    let mut recorded = None;
    let mut session = StoreSession::start(upload, 1000);
    while !matches!(session.pending(), StoreAction::Finish) {
        if let Some(metadata) = session.metadata() {
            recorded = Some(RunMetadata {
                schema_version: metadata.schema_version,
                run_id: metadata.run_id.clone(),
                received_at_unix: metadata.received_at_unix,
                received_at_unix_ms: metadata.received_at_unix_ms,
                source_format: metadata.source_format.clone(),
                client_version: metadata.client_version.clone(),
                platform: metadata.platform,
                original_bytes: metadata.original_bytes,
                stored_bytes: metadata.stored_bytes,
                redaction_count: metadata.redaction_count,
                hostname_collected: metadata.hostname_collected,
                persistent_machine_id_collected: metadata.persistent_machine_id_collected,
            });
        }
        let event = disk.perform(session.pending());
        session = session.advance(event);
    }
    let reply = upload_report_v2_reply(session.outcome().unwrap());
    assert_eq!(reply.status, 201);
    let ReplyBody::Stored(response) = reply.body else {
        panic!("the report was not stored");
    };

    let token = Some("t".to_string());
    let access = run_access(Some("Bearer t".as_bytes()), &token, response.run_id.clone());
    let log = disk.dirs[&response.run_id]["vapor.log"].clone();
    let reply = download_report_v2(&access.ok().unwrap(), recorded.unwrap(), Some(log));
    assert_eq!(reply.status, 200);
    let ReplyBody::Run(detail) = reply.body else {
        panic!("the report was not found");
    };
    let expected = "client_version = \"7.1\"\n\n--- vapor.log ---\ntoken=<redacted>\n";
    assert_eq!(detail.vapor_log, expected);
    assert_eq!(detail.metadata.run_id, response.run_id);
    assert_eq!(detail.metadata.source_format, "diagnostics-report-v2");
    assert_eq!(detail.metadata.client_version, Some("7.1".to_string()));
    assert!(detail.metadata.platform.is_none());
    assert_eq!(detail.metadata.original_bytes, 4);
    assert_eq!(detail.metadata.stored_bytes, expected.len());
    assert_eq!(detail.metadata.redaction_count, 1);
}

#[test]
fn the_run_id_names_the_time_of_receipt() {
    let mut session = StoreSession::start(upload("x"), 1000);
    session = session.advance(StoreEvent::Done);
    session = session.advance(StoreEvent::Measured(0));
    session = session.advance(StoreEvent::RunFound(false));
    let metadata = session.metadata().unwrap();
    assert_eq!(metadata.schema_version, 2);
    assert!(metadata.run_id.starts_with(&format!("diag-{}-", metadata.received_at_unix_ms)));
    assert_eq!(metadata.received_at_unix as u128, metadata.received_at_unix_ms / 1000);
    assert_eq!(metadata.source_format, "legacy-text");
    assert_eq!(metadata.client_version, Some("1.0".to_string()));
    assert_eq!(metadata.original_bytes, 1);
    assert_eq!(metadata.stored_bytes, 2);
    assert_eq!(metadata.redaction_count, 0);
    assert!(!metadata.hostname_collected);
    assert!(!metadata.persistent_machine_id_collected);
}

#[test]
fn the_record_of_a_run_follows_its_upload() {
    let session = StoreSession::start(upload("x"), 1000);
    let metadata = session.record(1700000000999, "r".to_string());
    assert_eq!(metadata.run_id, "r");
    assert_eq!(metadata.received_at_unix, 1700000000);
    assert_eq!(metadata.received_at_unix_ms, 1700000000999);
    let wrapped = session.record((1u128 << 64) * 1000 + 5000, "r".to_string());
    assert_eq!(wrapped.received_at_unix, 5);
}

/// The files of a run whose log is `x` and whose metadata encodes as `{}`.
fn one_run_bytes() -> u64 {
    let mut disk = Disk::new();
    assert!(disk.store(upload("x"), 1000).is_ok());
    disk.stored_bytes()
}

#[test]
fn the_quota_counts_every_file_of_a_run() {
    let run = one_run_bytes();
    assert!(run > "x\n{}".len() as u64);
    let mut disk = Disk::new();
    disk.size = 50;
    assert!(disk.store(upload("x"), 50 + run).is_ok());
    assert_eq!(disk.stored_bytes(), 50 + run);

    let mut disk = Disk::new();
    disk.size = 51;
    let refused = disk.store(upload("x"), 50 + run);
    let expected = format!(
        "diagnostics storage quota exceeded: current=51 attempted={} max={}",
        run,
        50 + run
    );
    assert!(matches!(refused, Err(StoreError::QuotaExceeded(message)) if message == expected));
    assert!(disk.dirs.is_empty());
    assert_eq!(disk.latest, None);
}

#[test]
fn a_log_that_fits_alone_may_exceed_the_quota() {
    let mut disk = Disk::new();
    assert!(matches!(disk.store(upload("a"), 2), Err(StoreError::QuotaExceeded(_))));
    assert!(disk.dirs.is_empty());
    assert_eq!(disk.stored_bytes(), 0);
}

#[test]
fn a_log_beyond_the_quota_is_refused_before_anything_else() {
    let mut disk = Disk::new();
    disk.size = 99;
    disk.taken = 10;
    let refused = disk.store(upload("x"), 100);
    assert!(matches!(
        refused,
        Err(StoreError::QuotaExceeded(message))
            if message == "diagnostics storage quota exceeded: current=99 attempted=2 max=100"
    ));
    assert_eq!(disk.steps, 2);
    assert_eq!(disk.taken, 10);
    assert!(disk.dirs.is_empty());

    let session = StoreSession::start(upload("x"), 100);
    assert!(session.check_log(98).is_ok());
    assert!(session.check_log(99).is_err());
    let session = StoreSession::start(upload("x"), u64::MAX - 1);
    assert!(session.check_log(u64::MAX - 3).is_ok());
    assert!(session.check_log(u64::MAX).is_err());
}

#[test]
fn accepted_uploads_never_exceed_the_quota() {
    let run = one_run_bytes();
    for max in [run - 1, run, 2 * run - 1, 2 * run, 3 * run + 5] {
        let mut disk = Disk::new();
        for _ in 0..4 {
            let before = disk.dirs.clone();
            match disk.store(upload("x"), max) {
                Ok(_) => assert!(disk.stored_bytes() <= max),
                Err(_) => assert_eq!(disk.dirs, before),
            }
        }
        assert_eq!(disk.listed().len() as u64, max / run);
    }
}

#[test]
fn sizes_beyond_counting_exceed_every_smaller_quota() {
    let session = StoreSession::start(upload("x"), u64::MAX - 1);
    let metadata = session.record(0, "r".to_string());
    assert!(session.check_quota(0, &metadata, "{}").is_ok());
    assert!(session.check_quota(u64::MAX, &metadata, "{}").is_err());
    let session = StoreSession::start(upload("x"), u64::MAX);
    assert!(session.check_quota(u64::MAX, &metadata, "{}").is_ok());
}

#[test]
fn drawn_run_ids_are_valid_and_differ() {
    let mut seen = Vec::new();
    for _ in 0..2 {
        let session = StoreSession::start(upload("x"), 1000).advance(StoreEvent::Done);
        let session = session.advance(StoreEvent::Measured(0));
        let StoreAction::FindRun { run_id } = session.pending() else {
            panic!("no identifier was drawn");
        };
        let session = session.advance(StoreEvent::RunFound(true));
        let StoreAction::FindRun { run_id: redrawn } = session.pending() else {
            panic!("no identifier was drawn again");
        };
        seen.push(run_id);
        seen.push(redrawn);
    }
    for (i, run_id) in seen.iter().enumerate() {
        assert!(valid_run_id(run_id));
        assert!(!seen[..i].contains(run_id));
        let (millis, uuid) = run_id.strip_prefix("diag-").unwrap().split_once('-').unwrap();
        assert!(millis.parse::<u128>().is_ok());
        let parsed = uuid::Uuid::parse_str(uuid).unwrap();
        assert_eq!(parsed.get_version_num(), 4);
        assert_eq!(parsed.to_string(), uuid);
        assert!(matches!(uuid.as_bytes()[19], b'8' | b'9' | b'a' | b'b'));
    }
}

#[test]
fn an_identifier_comes_of_time_and_uuid() {
    match choosing(5, 1700000000123, "u-u", 3) {
        StorePhase::ChoosingRunId { current, received_at_unix_ms, run_id, attempts } => {
            assert_eq!(current, 5);
            assert_eq!(received_at_unix_ms, 1700000000123);
            assert_eq!(run_id, "diag-1700000000123-u-u");
            assert_eq!(attempts, 3);
        }
        _ => panic!("no identifier is tried"),
    }
}

#[test]
fn ten_taken_identifiers_end_the_search() {
    let mut disk = Disk::new();
    disk.taken = 9;
    assert!(disk.store(upload("x"), 1000).is_ok());
    disk.taken = 10;
    assert!(matches!(
        disk.store(upload("x"), 1000),
        Err(StoreError::Io(message)) if message == "failed to allocate unique diagnostics run id"
    ));
}

#[test]
fn a_failure_leaves_no_partial_run() {
    for fail_at in 1..=10usize {
        let mut disk = Disk::new();
        let first = disk.store(upload("one"), 2000).ok().unwrap();
        disk.steps = 0;
        disk.fail_at = Some(fail_at);
        let outcome = disk.store(upload("two"), 2000);
        if fail_at == 3 || fail_at == 4 {
            continue;
        }
        assert!(matches!(outcome, Err(StoreError::Io(message)) if message == "disk full"));
        if fail_at <= 8 {
            assert_eq!(disk.latest, Some(format!("{}\n", first.run_id)));
            let unlisted = disk.dirs.keys().filter(|name| !valid_run_id(name)).count();
            assert!(unlisted <= 1);
        }
        for run_id in disk.listed() {
            assert_eq!(disk.dirs[&run_id].len(), 3);
        }
        assert!(disk.dirs.contains_key(&first.run_id));
        assert_eq!(disk.listed().len(), if fail_at == 10 { 2 } else { 1 });
    }
}

#[test]
fn metadata_that_cannot_be_encoded_ends_the_session() {
    let mut session = StoreSession::start(upload("x"), 1000);
    session = session.advance(StoreEvent::Done);
    session = session.advance(StoreEvent::Measured(0));
    session = session.advance(StoreEvent::RunFound(false));
    session = session.advance(StoreEvent::EncodeFailed("no".to_string()));
    assert!(matches!(
        session.outcome(),
        Some(Err(StoreError::Serialize(message))) if message == "no"
    ));
}

#[test]
fn an_event_out_of_turn_changes_nothing() {
    let mut session = StoreSession::start(upload("x"), 1000);
    session = session.advance(StoreEvent::Measured(0));
    assert!(matches!(session.phase, StorePhase::CreatingRunsDir));
    session = session.advance(StoreEvent::Done);
    session = session.advance(StoreEvent::RunFound(false));
    assert!(matches!(session.phase, StorePhase::MeasuringRunsDir));
    assert!(session.metadata().is_none());
    assert!(session.outcome().is_none());
}

#[test]
fn directory_sizes_add_up() {
    assert_eq!(directory_size(&vec![]), 0);
    let entries = vec![EntrySize::File(5), EntrySize::Directory(7), EntrySize::Other];
    assert_eq!(directory_size(&entries), 12);
    let huge = vec![EntrySize::File(u64::MAX), EntrySize::File(5)];
    assert_eq!(directory_size(&huge), u64::MAX);
    let nested = vec![EntrySize::File(3), EntrySize::Directory(directory_size(&entries))];
    assert_eq!(directory_size(&nested), 15);
}
