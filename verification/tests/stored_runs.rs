use vapor_diagnostics_server::clock::{elapsed_millis, unix_now_millis};
use vapor_diagnostics_server::order::{comes_before, reversed, sort_ascending};
use vapor_diagnostics_server::report::PlatformSummary;
use vapor_diagnostics_server::runs::{
    compose_run_id, metadata_toml, newest_run_ids, read_run_ids, read_run_summaries,
    valid_run_id, DirEntry, RunMetadata,
};

fn strings(items: &[&str]) -> Vec<String> {
    items.iter().map(|item| item.to_string()).collect()
}

fn metadata() -> RunMetadata {
    RunMetadata {
        schema_version: 2,
        run_id: "diag-1-x".to_string(),
        received_at_unix: 1700000000,
        received_at_unix_ms: 1700000000123,
        source_format: "legacy-text".to_string(),
        client_version: None,
        platform: None,
        original_bytes: 12,
        stored_bytes: 13,
        redaction_count: 1,
        hostname_collected: false,
        persistent_machine_id_collected: false,
    }
}

#[test]
fn run_ids_are_ascii_words() {
    for run_id in ["a", "Z9-_", "diag-1700000000123-0f8fad5b-d9cb-469f-a165-70867728950e"] {
        assert!(valid_run_id(run_id));
    }
    for run_id in ["", ".", "..", "a/b", "a b", "a.b", ".upload-a", "é", "a\n", "a\0"] {
        assert!(!valid_run_id(run_id));
    }
}

#[test]
fn run_ids_are_composed_of_time_and_uuid() {
    assert_eq!(compose_run_id(1700000000123, "u-u"), "diag-1700000000123-u-u");
    assert_eq!(compose_run_id(0, ""), "diag-0-");
}

#[test]
fn later_runs_have_greater_ids() {
    let earlier = compose_run_id(1699999999999, "ffffffff-ffff-4fff-bfff-ffffffffffff");
    let later = compose_run_id(1700000000000, "00000000-0000-4000-8000-000000000000");
    assert!(comes_before(&earlier, &later));
    assert!(!comes_before(&later, &earlier));
}

#[test]
fn the_clock_counts_milliseconds() {
    assert_eq!(elapsed_millis(None), 0);
    assert_eq!(elapsed_millis(Some((0, 999_999))), 0);
    assert_eq!(elapsed_millis(Some((1700000000, 123_999_999))), 1700000000123);
    let before = std::time::SystemTime::now()
        .duration_since(std::time::UNIX_EPOCH)
        .unwrap()
        .as_millis();
    let now = unix_now_millis();
    let after = std::time::SystemTime::now()
        .duration_since(std::time::UNIX_EPOCH)
        .unwrap()
        .as_millis();
    assert!(before <= now && now <= after);
}

#[test]
fn metadata_is_written_line_by_line() {
    let mut metadata = metadata();
    assert_eq!(
        metadata_toml(&metadata),
        "schema_version = 2\nrun_id = \"diag-1-x\"\nreceived_at_unix = 1700000000\nreceived_at_unix_ms = 1700000000123\nsource_format = \"legacy-text\"\nclient_version = \"\"\noriginal_bytes = 12\nstored_bytes = 13\nredaction_count = 1\nhostname_collected = false\npersistent_machine_id_collected = false\n"
    );
    metadata.client_version = Some("1.\n0".to_string());
    metadata.platform = Some(PlatformSummary {
        os_family: None,
        arch: None,
        memory_mb_bucket: None,
        steam_deck: None,
    });
    assert!(metadata_toml(&metadata).contains("\nclient_version = \"1.0\"\noriginal_bytes = 12\n"));
}

#[test]
fn only_named_directories_are_runs() {
    let entry = |name: &str, is_dir: bool| DirEntry { name: name.to_string(), is_dir };
    let entries = vec![
        entry("diag-2-b", true),
        entry("notes", false),
        entry(".upload-diag-3-c", true),
        entry("diag-1-a", true),
    ];
    assert_eq!(read_run_ids(&entries), strings(&["diag-2-b", "diag-1-a"]));
    assert!(read_run_ids(&vec![]).is_empty());
}

#[test]
fn texts_are_ordered_as_std_orders_them() {
    let items = ["", "a", "ab", "b", "B", "-", "_", "é", "z", "\u{ffff}", "\u{10000}", "a-1", "a_1"];
    for a in items {
        for b in items {
            assert_eq!(comes_before(a, b), a <= b, "{:?} {:?}", a, b);
        }
    }
}

#[test]
fn sorting_puts_every_text_in_its_place() {
    let items = strings(&["d", "a", "c", "b", "a", "", "é", "ab", "B", "zz", "z"]);
    let mut expected = items.clone();
    expected.sort();
    assert_eq!(sort_ascending(items), expected);
    assert_eq!(sort_ascending(vec![]), strings(&[]));
    assert_eq!(sort_ascending(strings(&["x"])), strings(&["x"]));
    assert_eq!(reversed(strings(&["a", "b", "c"])), strings(&["c", "b", "a"]));
    let many: Vec<String> = (0..2000u32).map(|i| (i * 7919 % 2003).to_string()).collect();
    let mut expected = many.clone();
    expected.sort();
    assert_eq!(sort_ascending(many), expected);
}

#[test]
fn the_newest_runs_come_first() {
    let run_ids = strings(&["diag-2", "diag-5", "diag-1", "diag-4", "diag-3"]);
    assert_eq!(newest_run_ids(run_ids.clone(), 2), strings(&["diag-5", "diag-4"]));
    assert_eq!(newest_run_ids(run_ids.clone(), 0), strings(&[]));
    assert_eq!(
        newest_run_ids(run_ids, 9),
        strings(&["diag-5", "diag-4", "diag-3", "diag-2", "diag-1"])
    );
}

#[test]
fn summaries_repeat_the_metadata() {
    let summaries = read_run_summaries(vec![
        ("one".to_string(), Some(metadata())),
        ("two".to_string(), None),
    ]);
    assert_eq!(summaries.len(), 2);
    assert_eq!(summaries[0].run_id, "one");
    assert_eq!(summaries[0].received_at_unix, Some(1700000000));
    assert_eq!(summaries[0].source_format, Some("legacy-text".to_string()));
    assert_eq!(summaries[0].stored_bytes, Some(13));
    assert_eq!(summaries[0].redaction_count, Some(1));
    assert_eq!(summaries[1].run_id, "two");
    assert_eq!(summaries[1].received_at_unix, None);
    assert_eq!(summaries[1].source_format, None);
    assert_eq!(summaries[1].stored_bytes, None);
    assert_eq!(summaries[1].redaction_count, None);
}
