use vapor_diagnostics_server::api::{
    admin_access, authorized, download_report_v2, download_run, export_order, export_runs,
    find_report_v2, healthz, list_limit, list_reports_v2, list_runs, run_access, status,
    store_error_response, upload_report_v2, upload_report_v2_reply, upload_run, upload_run_reply,
    AdminAccess, Reply, ReplyBody, RunAccess,
};
use vapor_diagnostics_server::report::{DiagnosticsReportV2, TextArtifact};
use vapor_diagnostics_server::runs::{RunMetadata, RunSummary};
use vapor_diagnostics_server::store::{StoreError, StoredRun};

fn text(reply: Reply) -> (u16, String) {
    match reply.body {
        ReplyBody::Text(body) => (reply.status, body),
        _ => panic!("not a text"),
    }
}

fn answer(status: u16, body: &str) -> (u16, String) {
    (status, body.to_string())
}

fn token() -> Option<String> {
    Some("t0ken".to_string())
}

fn admin() -> AdminAccess {
    admin_access(Some("Bearer t0ken".as_bytes()), &token()).ok().unwrap()
}

fn run(run_id: &str) -> RunAccess {
    run_access(Some("Bearer t0ken".as_bytes()), &token(), run_id.to_string()).ok().unwrap()
}

fn stored() -> StoredRun {
    StoredRun { run_id: "diag-1-a".to_string(), stored_bytes: 7, redaction_count: 3 }
}

fn metadata() -> RunMetadata {
    RunMetadata {
        schema_version: 2,
        run_id: "diag-1-a".to_string(),
        received_at_unix: 1,
        received_at_unix_ms: 1000,
        source_format: "legacy-text".to_string(),
        client_version: None,
        platform: None,
        original_bytes: 1,
        stored_bytes: 2,
        redaction_count: 0,
        hostname_collected: false,
        persistent_machine_id_collected: false,
    }
}

fn report(log: &str) -> DiagnosticsReportV2 {
    DiagnosticsReportV2 {
        schema_version: 2,
        consent: true,
        client_version: Some("v".to_string()),
        platform: None,
        log: Some(log.to_string()),
        artifacts: vec![],
    }
}

#[test]
fn the_service_says_it_is_up() {
    assert_eq!(text(healthz()), answer(200, "ok\n"));
}

#[test]
fn status_reports_limits_and_counts() {
    let reply = status("s/d", 4096, Ok(vec!["a".to_string(), "b".to_string()]), Some(17));
    assert_eq!(
        text(reply),
        answer(
            200,
            "service = \"vapor-diagnostics-server\"\nstate = \"s/d\"\nruns = 2\nmax_upload_bytes = 2097152\nmax_stored_bytes = 4096\nstored_bytes = 17\nschema_versions = [1, 2]\nupload_auth_model = \"explicit-opt-in-unauthenticated\"\nread_auth_model = \"admin-token-scaffold\"\nhostname_collected = false\npersistent_machine_id_collected = false\n"
        )
    );
    let unknown = text(status("s", 1, Ok(vec![]), None)).1;
    assert!(unknown.contains("\nruns = 0\n"));
    assert!(unknown.contains("\nstored_bytes = 0\n"));
    assert_eq!(
        text(status("s", 1, Err("gone".to_string()), None)),
        answer(500, "diagnostics: failed to list runs: gone\n")
    );
}

#[test]
fn plain_text_uploads_are_taken_as_text() {
    let upload = upload_run("héllo".as_bytes()).ok().unwrap();
    assert_eq!(upload.source_format, "legacy-text");
    assert_eq!(upload.raw_text, "héllo");
    assert_eq!(upload.original_bytes, 6);
    assert!(upload.client_version.is_none());
    assert!(upload.platform.is_none());
    let upload = upload_run(&[b'a', 0xff, b'b']).ok().unwrap();
    assert_eq!(upload.raw_text, "a\u{fffd}b");
    assert_eq!(upload.original_bytes, 3);
}

#[test]
fn empty_uploads_are_refused() {
    let refused = upload_run(&[]).err().unwrap();
    assert_eq!(text(refused), answer(400, "empty diagnostics upload\n"));
    let refused = upload_report_v2(&[], Ok(report("x"))).err().unwrap();
    assert_eq!(text(refused), answer(400, "empty diagnostics upload\n"));
}

#[test]
fn reports_are_checked_before_they_are_taken() {
    let refused = upload_report_v2(&[b'{'], Err("EOF".to_string())).err().unwrap();
    assert_eq!(text(refused), answer(400, "invalid diagnostics v2 JSON: EOF\n"));
    let mut hostname = report("x");
    hostname.artifacts =
        vec![TextArtifact { name: "hostname.txt".to_string(), content: "h".to_string() }];
    let refused = upload_report_v2(&[b'{'], Ok(hostname)).err().unwrap();
    assert_eq!(
        text(refused),
        answer(400, "diagnostics v2 artifact 'hostname.txt' is not allowlisted\n")
    );
    let upload = upload_report_v2("{...}".as_bytes(), Ok(report("x"))).ok().unwrap();
    assert_eq!(upload.source_format, "diagnostics-report-v2");
    assert_eq!(upload.client_version, Some("v".to_string()));
    assert_eq!(upload.raw_text, "client_version = \"v\"\n\n--- vapor.log ---\nx\n");
    assert_eq!(upload.original_bytes, 5);
}

#[test]
fn stored_uploads_are_confirmed() {
    assert_eq!(
        text(upload_run_reply(Ok(stored()))),
        answer(201, "diagnostics: uploaded run diag-1-a\n")
    );
    let reply = upload_report_v2_reply(Ok(stored()));
    assert_eq!(reply.status, 201);
    match reply.body {
        ReplyBody::Stored(response) => {
            assert_eq!(response.schema_version, 2);
            assert_eq!(response.run_id, "diag-1-a");
            assert_eq!(response.stored_bytes, 7);
            assert_eq!(response.redaction_count, 3);
        }
        _ => panic!("not a confirmation"),
    }
}

#[test]
fn failed_uploads_are_told_why() {
    let quota = || StoreError::QuotaExceeded("full".to_string());
    assert_eq!(text(store_error_response(quota())), answer(413, "full\n"));
    assert_eq!(text(upload_run_reply(Err(quota()))), answer(413, "full\n"));
    assert_eq!(text(upload_report_v2_reply(Err(quota()))), answer(413, "full\n"));
    assert_eq!(
        text(store_error_response(StoreError::Io("e".to_string()))),
        answer(500, "diagnostics: storage error: e\n")
    );
    assert_eq!(
        text(store_error_response(StoreError::Serialize("e".to_string()))),
        answer(500, "diagnostics: metadata error: e\n")
    );
}

#[test]
fn only_the_admin_token_opens() {
    assert!(authorized(Some("Bearer t0ken".as_bytes()), &token()));
    for value in ["", "Bearer", "Bearer ", "bearer t0ken", "Bearer t0ken ", "Bearer  t0ken", "t0ken"] {
        assert!(!authorized(Some(value.as_bytes()), &token()), "{}", value);
    }
    assert!(!authorized(None, &token()));
    assert!(!authorized(Some("Bearer t0ken".as_bytes()), &None));
    assert!(!authorized(Some("Bearer ".as_bytes()), &None));
    let accented = Some("tokén".to_string());
    assert!(!authorized(Some("Bearer tokén".as_bytes()), &accented));
}

#[test]
fn reading_asks_for_the_admin_token() {
    let refused = admin_access(None, &token()).err().unwrap();
    assert_eq!(text(refused), answer(401, "missing or invalid admin token\n"));
    let refused = run_access(None, &token(), "bad id".to_string()).err().unwrap();
    assert_eq!(text(refused), answer(401, "missing or invalid admin token\n"));
    let value = Some("Bearer t0ken".as_bytes());
    let refused = run_access(value, &token(), "../x".to_string()).err().unwrap();
    assert_eq!(text(refused), answer(400, "invalid diagnostics run id\n"));
    assert_eq!(run("diag-1-a").run_id(), "diag-1-a");
}

#[test]
fn run_listings_are_sorted_lines() {
    let run_ids = vec!["b".to_string(), "c".to_string(), "a".to_string()];
    assert_eq!(text(list_runs(&admin(), Ok(run_ids))), answer(200, "a\nb\nc\n"));
    assert_eq!(text(list_runs(&admin(), Ok(vec![]))), answer(200, "\n"));
    assert_eq!(
        text(list_runs(&admin(), Err("gone".to_string()))),
        answer(500, "diagnostics: failed to list runs: gone\n")
    );
}

#[test]
fn report_listings_are_limited() {
    assert_eq!(list_limit(None), 50);
    assert_eq!(list_limit(Some(0)), 0);
    assert_eq!(list_limit(Some(199)), 199);
    assert_eq!(list_limit(Some(200)), 200);
    assert_eq!(list_limit(Some(usize::MAX)), 200);
}

#[test]
fn report_listings_carry_the_summaries() {
    let summary = RunSummary {
        run_id: "a".to_string(),
        received_at_unix: None,
        source_format: None,
        stored_bytes: None,
        redaction_count: None,
    };
    let reply = list_reports_v2(&admin(), Ok(vec![summary]));
    assert_eq!(reply.status, 200);
    match reply.body {
        ReplyBody::Runs(response) => {
            assert_eq!(response.schema_version, 2);
            assert_eq!(response.runs.len(), 1);
            assert_eq!(response.runs[0].run_id, "a");
        }
        _ => panic!("not a listing"),
    }
    assert_eq!(
        text(list_reports_v2(&admin(), Err("gone".to_string()))),
        answer(500, "diagnostics: failed to list reports: gone\n")
    );
}

#[test]
fn runs_download_as_text() {
    let access = run("diag-1-a");
    assert_eq!(
        text(download_run(&access, Some("m = 1\n".to_string()), Some("log\n".to_string()))),
        answer(200, "# diag-1-a\n\n--- metadata.toml ---\nm = 1\n\n--- vapor.log ---\nlog\n")
    );
    assert_eq!(
        text(download_run(&access, None, Some("log\n".to_string()))),
        answer(200, "# diag-1-a\n\n--- metadata.toml ---\n\n--- vapor.log ---\nlog\n")
    );
    assert_eq!(
        text(download_run(&access, None, Some(String::new()))),
        answer(404, "diagnostics run not found\n")
    );
}

#[test]
fn reports_download_with_their_metadata() {
    let access = run("diag-1-a");
    let missing = find_report_v2(&access, Ok(None)).err().unwrap();
    assert_eq!(text(missing), answer(404, "diagnostics run not found\n"));
    let broken = find_report_v2(&access, Err("bad".to_string())).err().unwrap();
    assert_eq!(text(broken), answer(500, "diagnostics: failed to read metadata: bad\n"));
    let found = find_report_v2(&access, Ok(Some(metadata()))).ok().unwrap();
    let reply = download_report_v2(&access, found, Some("log\n".to_string()));
    assert_eq!(reply.status, 200);
    match reply.body {
        ReplyBody::Run(detail) => {
            assert_eq!(detail.schema_version, 2);
            assert_eq!(detail.metadata.run_id, "diag-1-a");
            assert_eq!(detail.vapor_log, "log\n");
        }
        _ => panic!("not a report"),
    }
    match download_report_v2(&access, metadata(), None).body {
        ReplyBody::Run(detail) => assert_eq!(detail.vapor_log, ""),
        _ => panic!("not a report"),
    }
}

#[test]
fn exports_go_through_all_runs_in_order() {
    let ordered = export_order(&admin(), Ok(vec!["b".to_string(), "a".to_string()])).ok().unwrap();
    assert_eq!(ordered, vec!["a".to_string(), "b".to_string()]);
    let failed = export_order(&admin(), Err("gone".to_string())).err().unwrap();
    assert_eq!(text(failed), answer(500, "diagnostics: failed to list runs: gone\n"));
    let runs = vec![("a".to_string(), Some("m = 1\n".to_string())), ("b".to_string(), None)];
    assert_eq!(
        text(export_runs(&admin(), &runs)),
        answer(200, "# Vapor diagnostics export scaffold\n\n## a\nm = 1\n\n## b\n\n")
    );
    assert_eq!(
        text(export_runs(&admin(), &vec![])),
        answer(200, "# Vapor diagnostics export scaffold\n\n")
    );
}
