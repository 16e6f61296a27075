use vapor_diagnostics_server::report::{
    allowed_artifact_name, platform_summary_text, safe_inline, Architecture, DiagnosticsReportV2,
    MemoryBucket, OsFamily, PlatformSummary, TextArtifact,
};

fn artifact(name: &str, content: &str) -> TextArtifact {
    TextArtifact { name: name.to_string(), content: content.to_string() }
}

fn report(log: Option<&str>, artifacts: Vec<TextArtifact>) -> DiagnosticsReportV2 {
    DiagnosticsReportV2 {
        schema_version: 2,
        consent: true,
        client_version: None,
        platform: None,
        log: log.map(|log| log.to_string()),
        artifacts,
    }
}

fn refusal(report: DiagnosticsReportV2) -> String {
    match report.into_prepared_report() {
        Ok(_) => panic!("the report was accepted"),
        Err(message) => message,
    }
}

#[test]
fn rejects_non_allowlisted_artifact_names() {
    let report = DiagnosticsReportV2 {
        schema_version: 2,
        consent: true,
        client_version: None,
        platform: None,
        log: None,
        artifacts: vec![TextArtifact {
            name: "hostname.txt".to_string(),
            content: "host = \"nope\"".to_string(),
        }],
    };
    assert!(report.into_prepared_report().is_err());
}

#[test]
fn refusals_say_why() {
    let mut wrong_schema = report(Some("x"), vec![]);
    wrong_schema.schema_version = 1;
    wrong_schema.consent = false;
    assert_eq!(refusal(wrong_schema), "diagnostics v2 upload requires schema_version = 2");

    let mut no_consent = report(Some("x"), vec![artifact("bad", "x")]);
    no_consent.consent = false;
    assert_eq!(refusal(no_consent), "diagnostics v2 upload requires consent = true");

    let bad_names = report(
        Some("x"),
        vec![artifact("steps.txt", "x"), artifact("a.txt", ""), artifact("b.txt", "x")],
    );
    assert_eq!(refusal(bad_names), "diagnostics v2 artifact 'a.txt' is not allowlisted");

    let nothing = "diagnostics v2 upload must include log text or artifacts";
    assert_eq!(refusal(report(None, vec![])), nothing);
    assert_eq!(refusal(report(Some(" \n\t"), vec![artifact("errors.txt", "\u{2003}")])), nothing);
}

#[test]
fn sections_stand_in_name_order() {
    let prepared = report(
        Some("log"),
        vec![
            artifact("steps.txt", "steps"),
            artifact("launcher.log", "launcher"),
            artifact("errors.txt", "errors"),
        ],
    )
    .into_prepared_report()
    .ok()
    .unwrap();
    assert_eq!(
        prepared.log_text,
        "\n--- errors.txt ---\nerrors\n\n--- launcher.log ---\nlauncher\n\n--- steps.txt ---\nsteps\n\n--- vapor.log ---\nlog\n"
    );
    assert!(prepared.client_version.is_none());
    assert!(prepared.platform.is_none());
}

#[test]
fn the_last_artifact_with_text_wins() {
    let prepared = report(
        Some("from log"),
        vec![
            artifact("vapor.log", "first"),
            artifact("vapor.log", "second"),
            artifact("vapor.log", "  "),
        ],
    )
    .into_prepared_report()
    .ok()
    .unwrap();
    assert_eq!(prepared.log_text, "\n--- vapor.log ---\nsecond\n");
    let prepared = report(Some("from log"), vec![artifact("vapor.log", " ")])
        .into_prepared_report()
        .ok()
        .unwrap();
    assert_eq!(prepared.log_text, "\n--- vapor.log ---\nfrom log\n");
}

#[test]
fn the_heading_names_client_and_platform() {
    let mut full = report(Some("x"), vec![]);
    full.client_version = Some("local\n-build\r-id\0".to_string());
    full.platform = Some(PlatformSummary {
        os_family: Some(OsFamily::Linux),
        arch: Some(Architecture::X86_64),
        memory_mb_bucket: Some(MemoryBucket::Mb8192To16383),
        steam_deck: Some(false),
    });
    let prepared = full.into_prepared_report().ok().unwrap();
    assert_eq!(
        prepared.log_text,
        "client_version = \"local-build-id\"\nplatform = {\"os_family\":\"linux\",\"arch\":\"x86_64\",\"memory_mb_bucket\":\"8192-16383\",\"steam_deck\":false}\n\n--- vapor.log ---\nx\n"
    );
    assert_eq!(prepared.client_version, Some("local\n-build\r-id\0".to_string()));
    assert!(prepared.platform.is_some());
}

#[test]
fn only_four_artifact_names_are_allowed() {
    for name in ["vapor.log", "launcher.log", "steps.txt", "errors.txt"] {
        assert!(allowed_artifact_name(name));
    }
    for name in ["", "vapor.log ", "Vapor.log", "hostname.txt", "../vapor.log"] {
        assert!(!allowed_artifact_name(name));
    }
}

#[test]
fn platform_summaries_are_json_objects() {
    let empty = PlatformSummary {
        os_family: None,
        arch: None,
        memory_mb_bucket: None,
        steam_deck: None,
    };
    assert_eq!(
        platform_summary_text(&empty),
        "{\"os_family\":null,\"arch\":null,\"memory_mb_bucket\":null,\"steam_deck\":null}"
    );
    let families = [
        (OsFamily::Windows, "windows"),
        (OsFamily::Linux, "linux"),
        (OsFamily::Macos, "macos"),
        (OsFamily::SteamOs, "steam-os"),
        (OsFamily::Other, "other"),
    ];
    let architectures = [
        (Architecture::X86_64, "x86_64"),
        (Architecture::Aarch64, "aarch64"),
        (Architecture::Other, "other"),
    ];
    let buckets = [
        (MemoryBucket::Lt4096, "lt-4096"),
        (MemoryBucket::Mb4096To8191, "4096-8191"),
        (MemoryBucket::Mb8192To16383, "8192-16383"),
        (MemoryBucket::Mb16384To32767, "16384-32767"),
        (MemoryBucket::Ge32768, "ge-32768"),
        (MemoryBucket::Unknown, "unknown"),
    ];
    for (family, family_name) in families {
        for (arch, arch_name) in architectures {
            for (bucket, bucket_name) in buckets {
                for steam_deck in [true, false] {
                    let platform = PlatformSummary {
                        os_family: Some(family),
                        arch: Some(arch),
                        memory_mb_bucket: Some(bucket),
                        steam_deck: Some(steam_deck),
                    };
                    let text = platform_summary_text(&platform);
                    let value: serde_json::Value = serde_json::from_str(&text).unwrap();
                    assert_eq!(value["os_family"], family_name);
                    assert_eq!(value["arch"], arch_name);
                    assert_eq!(value["memory_mb_bucket"], bucket_name);
                    assert_eq!(value["steam_deck"], steam_deck);
                    assert_eq!(value.as_object().unwrap().len(), 4);
                    assert!(!text.contains(' '));
                }
            }
        }
    }
}

#[test]
fn inline_text_fits_a_line() {
    assert_eq!(safe_inline("plain"), "plain");
    assert_eq!(safe_inline("a\nb\rc\0d\te"), "abcd\te");
    let long = "é".repeat(119) + "\n\nxyz";
    assert_eq!(safe_inline(&long), "é".repeat(119) + "x");
    assert_eq!(safe_inline(&"y".repeat(121)).len(), 120);
}
