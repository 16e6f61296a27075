//! Stored runs: their identifiers, what is recorded of them, and listings.

use crate::order;
use crate::order::{reversed, sort_ascending};
use crate::report;
use crate::report::{safe_inline, PlatformSummary};
use crate::text;
use crate::text::push_decimal;
use uuid::Uuid;
use vstd::prelude::*;
use vstd::relations::*;
use vstd::string::*;
use vstd::utf8::*;

verus! {

/// A character that a run identifier may hold.
pub open spec fn is_run_id_char(c: char) -> bool {
    ||| 'a' <= c <= 'z'
    ||| 'A' <= c <= 'Z'
    ||| '0' <= c <= '9'
    ||| c == '-'
    ||| c == '_'
}

/// A text that can name a run: ASCII letters, digits, `-` and `_`, at least one.
pub open spec fn is_run_id(s: Seq<char>) -> bool {
    &&& s.len() > 0
    &&& forall|i: int| 0 <= i < s.len() ==> is_run_id_char(#[trigger] s[i])
}

/// Whether `run_id` can name a run.
pub fn valid_run_id(run_id: &str) -> (valid: bool)
    ensures
        valid == is_run_id(run_id@),
{
    if run_id.is_empty() {
        return false;
    }
    for c in it: run_id.chars()
        invariant
            it.seq() == run_id@,
            forall|i: int| 0 <= i < it.index() ==> is_run_id_char(#[trigger] run_id@[i]),
    {
        let fits = ('a' <= c && c <= 'z') || ('A' <= c && c <= 'Z') || ('0' <= c && c <= '9') || c
            == '-' || c == '_';
        if !fits {
            assert(!is_run_id_char(run_id@[it.index()]));
            return false;
        }
    }
    true
}

/// The places of the hyphens in the text of a UUID.
pub open spec fn is_uuid_hyphen(i: int) -> bool {
    i == 8 || i == 13 || i == 18 || i == 23
}

/// The text of a random UUID: groups of lower-case hexadecimal digits joined by
/// hyphens, with the version digit and the variant digit of random UUIDs.
pub open spec fn is_uuid_v4_text(s: Seq<char>) -> bool {
    &&& s.len() == 36
    &&& forall|i: int|
        0 <= i < 36 ==> if is_uuid_hyphen(i) {
            #[trigger] s[i] == '-'
        } else {
            '0' <= s[i] <= '9' || 'a' <= s[i] <= 'f'
        }
    &&& s[14] == '4'
    &&& s[19] == '8' || s[19] == '9' || s[19] == 'a' || s[19] == 'b'
}

/// Calls `uuid::Uuid::new_v4` and gives its text.
///
/// Believed: the text has the hyphenated lower-case form, with version 4 and
/// the variant of RFC 9562. Which UUID it is is up to chance, and so is whether
/// it was given before: nothing is said of either.
#[verifier::external_body]
pub(crate) fn random_uuid() -> (uuid: String)
    ensures
        is_uuid_v4_text(uuid@),
{
    Uuid::new_v4().to_string()
}

/// The identifier of a run that was received at `millis` and drew `uuid`.
pub open spec fn run_id_text(millis: nat, uuid: Seq<char>) -> Seq<char> {
    "diag-"@ + text::decimal(millis) + "-"@ + uuid
}

/// Composes a run identifier.
pub fn compose_run_id(millis: u128, uuid: &str) -> (run_id: String)
    ensures
        run_id@ == run_id_text(millis as nat, uuid@),
{
    let mut run_id = "diag-".to_owned();
    push_decimal(&mut run_id, millis);
    run_id.append("-");
    run_id.append(uuid);
    run_id
}

/// An identifier that this service gives to a run received at `millis`.
pub open spec fn is_generated_run_id(millis: nat, run_id: Seq<char>) -> bool {
    exists|uuid: Seq<char>| is_uuid_v4_text(uuid) && run_id == #[trigger] run_id_text(millis, uuid)
}

/// Every identifier that the service gives can name a run.
pub proof fn law_generated_run_ids_are_valid(millis: nat, run_id: Seq<char>)
    requires
        is_generated_run_id(millis, run_id),
    ensures
        is_run_id(run_id),
{
    let uuid = choose|uuid: Seq<char>|
        is_uuid_v4_text(uuid) && run_id == #[trigger] run_id_text(millis, uuid);
    text::lemma_decimal(millis);
    reveal_strlit("diag-");
    reveal_strlit("-");
    assert forall|i: int| 0 <= i < run_id.len() implies is_run_id_char(#[trigger] run_id[i]) by {
        let digits = text::decimal(millis);
        if 5 <= i < 5 + digits.len() {
            assert(run_id[i] == digits[i - 5]);
            assert(text::is_digit(digits[i - 5]));
        } else if i >= 6 + digits.len() {
            assert(run_id[i] == uuid[i - 6 - digits.len()]);
        }
    }
}

/// What is recorded of a stored run.
pub struct RunMetadata {
    pub schema_version: u32,
    pub run_id: String,
    pub received_at_unix: u64,
    pub received_at_unix_ms: u128,
    pub source_format: String,
    pub client_version: Option<String>,
    pub platform: Option<PlatformSummary>,
    pub original_bytes: usize,
    pub stored_bytes: usize,
    pub redaction_count: usize,
    pub hostname_collected: bool,
    pub persistent_machine_id_collected: bool,
}

/// The metadata file of a run.
pub open spec fn metadata_toml_text(metadata: RunMetadata) -> Seq<char> {
    "schema_version = "@ + text::decimal(metadata.schema_version as nat) + "\nrun_id = \""@
        + metadata.run_id@ + "\"\nreceived_at_unix = "@ + text::decimal(
        metadata.received_at_unix as nat,
    ) + "\nreceived_at_unix_ms = "@ + text::decimal(metadata.received_at_unix_ms as nat)
        + "\nsource_format = \""@ + metadata.source_format@ + "\"\nclient_version = \""@ + (
    match metadata.client_version {
        Some(version) => report::inline_text(version@),
        None => Seq::empty(),
    }) + "\"\noriginal_bytes = "@ + text::decimal(metadata.original_bytes as nat)
        + "\nstored_bytes = "@ + text::decimal(metadata.stored_bytes as nat)
        + "\nredaction_count = "@ + text::decimal(metadata.redaction_count as nat)
        + "\nhostname_collected = false\npersistent_machine_id_collected = false\n"@
}

/// Writes the metadata file of a run.
pub fn metadata_toml(metadata: &RunMetadata) -> (toml: String)
    ensures
        toml@ == metadata_toml_text(*metadata),
{
    let mut toml = "schema_version = ".to_owned();
    push_decimal(&mut toml, metadata.schema_version as u128);
    toml.append("\nrun_id = \"");
    toml.append(metadata.run_id.as_str());
    toml.append("\"\nreceived_at_unix = ");
    push_decimal(&mut toml, metadata.received_at_unix as u128);
    toml.append("\nreceived_at_unix_ms = ");
    push_decimal(&mut toml, metadata.received_at_unix_ms);
    toml.append("\nsource_format = \"");
    toml.append(metadata.source_format.as_str());
    toml.append("\"\nclient_version = \"");
    if let Some(version) = &metadata.client_version {
        toml.append(safe_inline(version.as_str()).as_str());
    }
    toml.append("\"\noriginal_bytes = ");
    push_decimal(&mut toml, metadata.original_bytes as u128);
    toml.append("\nstored_bytes = ");
    push_decimal(&mut toml, metadata.stored_bytes as u128);
    toml.append("\nredaction_count = ");
    push_decimal(&mut toml, metadata.redaction_count as u128);
    toml.append("\nhostname_collected = false\npersistent_machine_id_collected = false\n");
    toml
}

/// An entry of the directory that holds the runs.
pub struct DirEntry {
    pub name: String,
    pub is_dir: bool,
}

/// The runs among the entries of the directory that holds them: the
/// subdirectories whose names can name a run, in the order of the entries.
pub open spec fn run_ids_among(entries: Seq<DirEntry>) -> Seq<Seq<char>>
    decreases entries.len(),
{
    if entries.len() == 0 {
        Seq::empty()
    } else if entries.last().is_dir && is_run_id(entries.last().name@) {
        run_ids_among(entries.drop_last()).push(entries.last().name@)
    } else {
        run_ids_among(entries.drop_last())
    }
}

/// Picks the runs from the entries of the directory that holds them.
pub fn read_run_ids(entries: &Vec<DirEntry>) -> (run_ids: Vec<String>)
    ensures
        order::texts(run_ids@) == run_ids_among(entries@),
{
    let mut run_ids: Vec<String> = Vec::new();
    let mut k: usize = 0;
    while k < entries.len()
        invariant
            k <= entries.len(),
            order::texts(run_ids@) == run_ids_among(entries@.take(k as int)),
        decreases entries.len() - k,
    {
        let entry = &entries[k];
        assert(entries@.take(k + 1).drop_last() == entries@.take(k as int));
        let ghost before = run_ids@;
        if entry.is_dir && valid_run_id(entry.name.as_str()) {
            run_ids.push(entry.name.clone());
            assert(order::texts(run_ids@) == order::texts(before).push(entry.name@));
        }
        k += 1;
    }
    assert(entries@.take(k as int) == entries@);
    run_ids
}

/// The runs that are picked are the subdirectories whose names can name a run,
/// and no others.
pub proof fn law_picked_runs(entries: Seq<DirEntry>, run_id: Seq<char>)
    ensures
        run_ids_among(entries).contains(run_id) <==> {
            &&& is_run_id(run_id)
            &&& exists|i: int|
                0 <= i < entries.len() && (#[trigger] entries[i]).is_dir && entries[i].name@
                    == run_id
        },
    decreases entries.len(),
{
    if entries.len() > 0 {
        let before = run_ids_among(entries.drop_last());
        law_picked_runs(entries.drop_last(), run_id);
        if entries.last().is_dir && is_run_id(entries.last().name@) {
            let now = before.push(entries.last().name@);
            assert(now[before.len() as int] == entries.last().name@);
            if before.contains(run_id) {
                let j = choose|j: int| 0 <= j < before.len() && before[j] == run_id;
                assert(now[j] == run_id);
            }
        }
        if exists|i: int|
            0 <= i < entries.len() && (#[trigger] entries[i]).is_dir && entries[i].name@ == run_id {
            let i = choose|i: int|
                0 <= i < entries.len() && (#[trigger] entries[i]).is_dir && entries[i].name@
                    == run_id;
            if i < entries.len() - 1 {
                assert(entries.drop_last()[i] == entries[i]);
            }
        }
    }
}

/// The last `limit` runs in the order of their identifiers, the last one first.
pub open spec fn newest(run_ids: Seq<Seq<char>>, limit: nat) -> Seq<Seq<char>> {
    let descending = order::ascending(run_ids).reverse();
    if limit <= descending.len() {
        descending.take(limit as int)
    } else {
        descending
    }
}

/// Picks the last `limit` runs in the order of their identifiers, the last one
/// first.
pub fn newest_run_ids(run_ids: Vec<String>, limit: usize) -> (picked: Vec<String>)
    ensures
        order::texts(picked@) == newest(order::texts(run_ids@), limit as nat),
{
    let mut picked = reversed(sort_ascending(run_ids));
    picked.truncate(limit);
    assert(order::texts(picked@) == newest(order::texts(run_ids@), limit as nat));
    picked
}

/// A line of a listing of runs.
pub struct RunSummary {
    pub run_id: String,
    pub received_at_unix: Option<u64>,
    pub source_format: Option<String>,
    pub stored_bytes: Option<usize>,
    pub redaction_count: Option<usize>,
}

/// The line that stands for a run in a listing; a run without metadata is
/// listed by its identifier alone.
pub open spec fn summary_of(run_id: String, metadata: Option<RunMetadata>) -> RunSummary {
    match metadata {
        Some(metadata) => RunSummary {
            run_id,
            received_at_unix: Some(metadata.received_at_unix),
            source_format: Some(metadata.source_format),
            stored_bytes: Some(metadata.stored_bytes),
            redaction_count: Some(metadata.redaction_count),
        },
        None => RunSummary {
            run_id,
            received_at_unix: None,
            source_format: None,
            stored_bytes: None,
            redaction_count: None,
        },
    }
}

/// The lines of a listing of runs, in their order.
pub open spec fn summaries_of(runs: Seq<(String, Option<RunMetadata>)>) -> Seq<RunSummary> {
    runs.map_values(|run: (String, Option<RunMetadata>)| summary_of(run.0, run.1))
}

/// Lists runs from their identifiers and what was read of their metadata.
pub fn read_run_summaries(runs: Vec<(String, Option<RunMetadata>)>) -> (summaries: Vec<RunSummary>)
    ensures
        summaries@ == summaries_of(runs@),
        summaries@.len() == runs@.len(),
        forall|i: int|
            0 <= i < runs@.len() ==> #[trigger] summaries@[i] == summary_of(runs@[i].0, runs@[i].1),
{
    let mut summaries: Vec<RunSummary> = Vec::with_capacity(runs.len());
    for run in it: runs.into_iter()
        invariant
            it.seq() == runs@,
            summaries@.len() == it.index(),
            forall|i: int|
                0 <= i < it.index() ==> #[trigger] summaries@[i] == summary_of(
                    runs@[i].0,
                    runs@[i].1,
                ),
    {
        let (run_id, metadata) = run;
        summaries.push(
            match metadata {
                Some(metadata) => RunSummary {
                    run_id,
                    received_at_unix: Some(metadata.received_at_unix),
                    source_format: Some(metadata.source_format),
                    stored_bytes: Some(metadata.stored_bytes),
                    redaction_count: Some(metadata.redaction_count),
                },
                None => RunSummary {
                    run_id,
                    received_at_unix: None,
                    source_format: None,
                    stored_bytes: None,
                    redaction_count: None,
                },
            },
        );
    }
    summaries
}

/// A listing holds as many runs as it may, and those it leaves out come before
/// those it holds: listed and left out are together all runs, in descending
/// order.
pub proof fn law_listings_hold_the_newest(run_ids: Seq<Seq<char>>, limit: nat)
    ensures
        newest(run_ids, limit).len() == if limit < run_ids.len() {
            limit
        } else {
            run_ids.len()
        },
        exists|rest: Seq<Seq<char>>|
            (#[trigger] (newest(run_ids, limit) + rest)).to_multiset() == run_ids.to_multiset()
                && sorted_by((newest(run_ids, limit) + rest).reverse(), order::text_order()),
{
    order::law_ascending_is_sorted(run_ids);
    let ascending = order::ascending(run_ids);
    let descending = ascending.reverse();
    let listed = newest(run_ids, limit);
    let rest = descending.skip(listed.len() as int);
    ascending.lemma_reverse_to_multiset();
    assert(listed + rest == descending);
    assert(descending.reverse() == ascending);
}

/// Of two numbers written with as many digits, the smaller has the smaller digit
/// where they first differ.
proof fn lemma_first_smaller_digit(a: Seq<char>, b: Seq<char>) -> (i: int)
    requires
        a.len() == b.len(),
        text::all_digits(a),
        text::all_digits(b),
        text::decimal_value(a) < text::decimal_value(b),
    ensures
        0 <= i < a.len(),
        a.take(i) == b.take(i),
        a[i] < b[i],
    decreases a.len(),
{
    let n = a.len() - 1;
    let a0 = a.drop_last();
    let b0 = b.drop_last();
    assert(text::is_digit(a[n]) && text::is_digit(b[n]));
    assert forall|i: int| 0 <= i < n implies text::is_digit(#[trigger] a0[i]) by {
        assert(text::is_digit(a[i]));
    }
    assert forall|i: int| 0 <= i < n implies text::is_digit(#[trigger] b0[i]) by {
        assert(text::is_digit(b[i]));
    }
    if text::decimal_value(a0) < text::decimal_value(b0) {
        let i = lemma_first_smaller_digit(a0, b0);
        assert(a0.take(i) == a.take(i));
        assert(b0.take(i) == b.take(i));
        i
    } else {
        if text::decimal_value(b0) < text::decimal_value(a0) {
            assert(false);
        }
        lemma_same_digits(a0, b0);
        assert(a.take(n as int) == a0);
        assert(b.take(n as int) == b0);
        n as int
    }
}

/// A number has one notation with a given number of digits.
proof fn lemma_same_digits(a: Seq<char>, b: Seq<char>)
    requires
        a.len() == b.len(),
        text::all_digits(a),
        text::all_digits(b),
        text::decimal_value(a) == text::decimal_value(b),
    ensures
        a == b,
    decreases a.len(),
{
    if a.len() > 0 {
        let n = a.len() - 1;
        let a0 = a.drop_last();
        let b0 = b.drop_last();
        assert(text::is_digit(a[n]) && text::is_digit(b[n]));
        assert forall|i: int| 0 <= i < n implies text::is_digit(#[trigger] a0[i]) by {
            assert(text::is_digit(a[i]));
        }
        assert forall|i: int| 0 <= i < n implies text::is_digit(#[trigger] b0[i]) by {
            assert(text::is_digit(b[i]));
        }
        lemma_same_digits(a0, b0);
        assert(a == a0.push(a.last()));
        assert(b == b0.push(b.last()));
    }
}

/// The identifier of a run that was received later comes later, as long as both
/// times have as many digits.
pub proof fn law_run_ids_follow_time(
    earlier: nat,
    later: nat,
    earlier_id: Seq<char>,
    later_id: Seq<char>,
)
    requires
        earlier < later,
        text::decimal(earlier).len() == text::decimal(later).len(),
        is_generated_run_id(earlier, earlier_id),
        is_generated_run_id(later, later_id),
    ensures
        order::text_le(earlier_id, later_id),
        earlier_id != later_id,
{
    let a = text::decimal(earlier);
    let b = text::decimal(later);
    text::lemma_decimal(earlier);
    text::lemma_decimal(later);
    let i = lemma_first_smaller_digit(a, b);
    let at = i + 5;
    reveal_strlit("diag-");
    law_generated_run_ids_are_valid(earlier, earlier_id);
    law_generated_run_ids_are_valid(later, later_id);
    lemma_run_id_is_ascii(earlier_id);
    lemma_run_id_is_ascii(later_id);
    is_ascii_chars_encode_utf8(earlier_id);
    is_ascii_chars_encode_utf8(later_id);
    let x = encode_utf8(earlier_id);
    let y = encode_utf8(later_id);
    assert(earlier_id[at] == a[i]);
    assert(later_id[at] == b[i]);
    assert forall|j: int| 0 <= j < at implies earlier_id[j] == later_id[j] by {
        if j >= 5 {
            assert(a.take(i)[j - 5] == b.take(i)[j - 5]);
            assert(earlier_id[j] == a[j - 5]);
            assert(later_id[j] == b[j - 5]);
        }
    }
    assert(text::is_digit(a[i]) && text::is_digit(b[i]));
    assert(x[at] == a[i] as u8);
    assert(y[at] == b[i] as u8);
    assert forall|j: int| 0 <= j < at implies x[j] == y[j] by {
        assert(earlier_id[j] == later_id[j]);
    }
    order::lemma_first_difference(x, y, at);
}

proof fn lemma_run_id_is_ascii(run_id: Seq<char>)
    requires
        is_run_id(run_id),
    ensures
        is_ascii_chars(run_id),
{
    assert forall|i: int| 0 <= i < run_id.len() implies '\0' <= #[trigger] run_id[i] <= '\u{7f}' by {
        assert(is_run_id_char(run_id[i]));
    }
}

/// The metadata file of a run is made of one line for each field, with the name of
/// the field and the value that the record has there, and of nothing else.
pub proof fn law_metadata_file_tells_every_field(metadata: RunMetadata)
    ensures
        ({
            let file = metadata_toml_text(metadata);
            let number = |n: nat| text::decimal(n);
            let version = match metadata.client_version {
                Some(version) => report::inline_text(version@),
                None => Seq::<char>::empty(),
            };
            &&& file == text::lines(
                seq![
                    "schema_version = "@ + number(metadata.schema_version as nat),
                    "run_id = \""@ + metadata.run_id@ + "\""@,
                    "received_at_unix = "@ + number(metadata.received_at_unix as nat),
                    "received_at_unix_ms = "@ + number(metadata.received_at_unix_ms as nat),
                    "source_format = \""@ + metadata.source_format@ + "\""@,
                    "client_version = \""@ + version + "\""@,
                    "original_bytes = "@ + number(metadata.original_bytes as nat),
                    "stored_bytes = "@ + number(metadata.stored_bytes as nat),
                    "redaction_count = "@ + number(metadata.redaction_count as nat),
                    "hostname_collected = false"@,
                    "persistent_machine_id_collected = false"@,
                ],
            )
            &&& text::holds_line(file, "schema_version = "@ + number(metadata.schema_version as nat))
            &&& text::holds_line(file, "run_id = \""@ + metadata.run_id@ + "\""@)
            &&& text::holds_line(
                file,
                "received_at_unix = "@ + number(metadata.received_at_unix as nat),
            )
            &&& text::holds_line(
                file,
                "received_at_unix_ms = "@ + number(metadata.received_at_unix_ms as nat),
            )
            &&& text::holds_line(file, "source_format = \""@ + metadata.source_format@ + "\""@)
            &&& text::holds_line(file, "client_version = \""@ + version + "\""@)
            &&& text::holds_line(file, "original_bytes = "@ + number(metadata.original_bytes as nat))
            &&& text::holds_line(file, "stored_bytes = "@ + number(metadata.stored_bytes as nat))
            &&& text::holds_line(
                file,
                "redaction_count = "@ + number(metadata.redaction_count as nat),
            )
            &&& text::holds_line(file, "hostname_collected = false"@)
            &&& text::holds_line(file, "persistent_machine_id_collected = false"@)
        }),
{
    let number = |n: nat| text::decimal(n);
    let version = match metadata.client_version {
        Some(version) => report::inline_text(version@),
        None => Seq::<char>::empty(),
    };
    let none = Seq::<Seq<char>>::empty();
    let s1 = none.push("schema_version = "@ + number(metadata.schema_version as nat));
    let s2 = s1.push("run_id = \""@ + metadata.run_id@ + "\""@);
    let s3 = s2.push("received_at_unix = "@ + number(metadata.received_at_unix as nat));
    let s4 = s3.push("received_at_unix_ms = "@ + number(metadata.received_at_unix_ms as nat));
    let s5 = s4.push("source_format = \""@ + metadata.source_format@ + "\""@);
    let s6 = s5.push("client_version = \""@ + version + "\""@);
    let s7 = s6.push("original_bytes = "@ + number(metadata.original_bytes as nat));
    let s8 = s7.push("stored_bytes = "@ + number(metadata.stored_bytes as nat));
    let s9 = s8.push("redaction_count = "@ + number(metadata.redaction_count as nat));
    let s10 = s9.push("hostname_collected = false"@);
    let all = s10.push("persistent_machine_id_collected = false"@);
    lemma_metadata_pieces();
    text::lemma_first_line("schema_version = "@, number(metadata.schema_version as nat));
    let t1 = "schema_version = "@ + number(metadata.schema_version as nat);
    text::lemma_next_line(none, t1, t1, "\nrun_id = \""@, "run_id = \""@, metadata.run_id@);
    let t2 = t1 + "\nrun_id = \""@ + metadata.run_id@;
    text::lemma_next_quoted_line(
        s1,
        "run_id = \""@ + metadata.run_id@,
        t2,
        "\"\nreceived_at_unix = "@,
        "received_at_unix = "@,
        number(metadata.received_at_unix as nat),
    );
    let t3 = t2 + "\"\nreceived_at_unix = "@ + number(metadata.received_at_unix as nat);
    text::lemma_next_line(
        s2,
        "received_at_unix = "@ + number(metadata.received_at_unix as nat),
        t3,
        "\nreceived_at_unix_ms = "@,
        "received_at_unix_ms = "@,
        number(metadata.received_at_unix_ms as nat),
    );
    let t4 = t3 + "\nreceived_at_unix_ms = "@ + number(metadata.received_at_unix_ms as nat);
    text::lemma_next_line(
        s3,
        "received_at_unix_ms = "@ + number(metadata.received_at_unix_ms as nat),
        t4,
        "\nsource_format = \""@,
        "source_format = \""@,
        metadata.source_format@,
    );
    let t5 = t4 + "\nsource_format = \""@ + metadata.source_format@;
    text::lemma_next_quoted_line(
        s4,
        "source_format = \""@ + metadata.source_format@,
        t5,
        "\"\nclient_version = \""@,
        "client_version = \""@,
        version,
    );
    let t6 = t5 + "\"\nclient_version = \""@ + version;
    text::lemma_next_quoted_line(
        s5,
        "client_version = \""@ + version,
        t6,
        "\"\noriginal_bytes = "@,
        "original_bytes = "@,
        number(metadata.original_bytes as nat),
    );
    let t7 = t6 + "\"\noriginal_bytes = "@ + number(metadata.original_bytes as nat);
    text::lemma_next_line(
        s6,
        "original_bytes = "@ + number(metadata.original_bytes as nat),
        t7,
        "\nstored_bytes = "@,
        "stored_bytes = "@,
        number(metadata.stored_bytes as nat),
    );
    let t8 = t7 + "\nstored_bytes = "@ + number(metadata.stored_bytes as nat);
    text::lemma_next_line(
        s7,
        "stored_bytes = "@ + number(metadata.stored_bytes as nat),
        t8,
        "\nredaction_count = "@,
        "redaction_count = "@,
        number(metadata.redaction_count as nat),
    );
    let t9 = t8 + "\nredaction_count = "@ + number(metadata.redaction_count as nat);
    let end = "\nhostname_collected = false\npersistent_machine_id_collected = false\n"@;
    assert(metadata_toml_text(metadata) == t9 + end);
    text::lemma_lines_push(s8, s9.last());
    text::lemma_lines_push(s9, s10.last());
    text::lemma_lines_push(s10, all.last());
    assert(text::is_open_line(s8, t9, s9.last()));
    assert(t9 + end =~= text::lines(all));
    assert(all =~= seq![
        "schema_version = "@ + number(metadata.schema_version as nat),
        "run_id = \""@ + metadata.run_id@ + "\""@,
        "received_at_unix = "@ + number(metadata.received_at_unix as nat),
        "received_at_unix_ms = "@ + number(metadata.received_at_unix_ms as nat),
        "source_format = \""@ + metadata.source_format@ + "\""@,
        "client_version = \""@ + version + "\""@,
        "original_bytes = "@ + number(metadata.original_bytes as nat),
        "stored_bytes = "@ + number(metadata.stored_bytes as nat),
        "redaction_count = "@ + number(metadata.redaction_count as nat),
        "hostname_collected = false"@,
        "persistent_machine_id_collected = false"@,
    ]);
    assert forall|k: int| 0 <= k < all.len() implies text::holds_line(
        text::lines(all),
        #[trigger] all[k],
    ) by {
        text::lemma_holds_each_line(all, k);
    }
    assert(text::holds_line(text::lines(all), all[0]));
    assert(text::holds_line(text::lines(all), all[1]));
    assert(text::holds_line(text::lines(all), all[2]));
    assert(text::holds_line(text::lines(all), all[3]));
    assert(text::holds_line(text::lines(all), all[4]));
    assert(text::holds_line(text::lines(all), all[5]));
    assert(text::holds_line(text::lines(all), all[6]));
    assert(text::holds_line(text::lines(all), all[7]));
    assert(text::holds_line(text::lines(all), all[8]));
    assert(text::holds_line(text::lines(all), all[9]));
    assert(text::holds_line(text::lines(all), all[10]));
}

/// The pieces of the metadata file, split at the line breaks.
proof fn lemma_metadata_pieces()
    ensures
        "\nrun_id = \""@ == seq!['\n'] + "run_id = \""@,
        "\"\nreceived_at_unix = "@ == "\""@ + seq!['\n'] + "received_at_unix = "@,
        "\nreceived_at_unix_ms = "@ == seq!['\n'] + "received_at_unix_ms = "@,
        "\nsource_format = \""@ == seq!['\n'] + "source_format = \""@,
        "\"\nclient_version = \""@ == "\""@ + seq!['\n'] + "client_version = \""@,
        "\"\noriginal_bytes = "@ == "\""@ + seq!['\n'] + "original_bytes = "@,
        "\nstored_bytes = "@ == seq!['\n'] + "stored_bytes = "@,
        "\nredaction_count = "@ == seq!['\n'] + "redaction_count = "@,
        "\nhostname_collected = false\npersistent_machine_id_collected = false\n"@ == seq!['\n']
            + "hostname_collected = false"@ + seq!['\n']
            + "persistent_machine_id_collected = false"@ + seq!['\n'],
{
    reveal_strlit("\"");
    reveal_strlit("\nrun_id = \"");
    reveal_strlit("run_id = \"");
    reveal_strlit("\"\nreceived_at_unix = ");
    reveal_strlit("received_at_unix = ");
    reveal_strlit("\nreceived_at_unix_ms = ");
    reveal_strlit("received_at_unix_ms = ");
    reveal_strlit("\nsource_format = \"");
    reveal_strlit("source_format = \"");
    reveal_strlit("\"\nclient_version = \"");
    reveal_strlit("client_version = \"");
    reveal_strlit("\"\noriginal_bytes = ");
    reveal_strlit("original_bytes = ");
    reveal_strlit("\nstored_bytes = ");
    reveal_strlit("stored_bytes = ");
    reveal_strlit("\nredaction_count = ");
    reveal_strlit("redaction_count = ");
    reveal_strlit("hostname_collected = false");
    reveal_strlit("persistent_machine_id_collected = false");
    reveal_strlit("\nhostname_collected = false\npersistent_machine_id_collected = false\n");
}

/// Two records that differ in their source format alone have different metadata
/// files.
pub proof fn law_metadata_file_tells_the_format(a: RunMetadata, b: RunMetadata)
    requires
        a.schema_version == b.schema_version,
        a.run_id@ == b.run_id@,
        a.received_at_unix == b.received_at_unix,
        a.received_at_unix_ms == b.received_at_unix_ms,
        text::optional_text(a.client_version) == text::optional_text(b.client_version),
        a.original_bytes == b.original_bytes,
        a.stored_bytes == b.stored_bytes,
        a.redaction_count == b.redaction_count,
        metadata_toml_text(a) == metadata_toml_text(b),
    ensures
        a.source_format@ == b.source_format@,
{
    let head = "schema_version = "@ + text::decimal(a.schema_version as nat) + "\nrun_id = \""@
        + a.run_id@ + "\"\nreceived_at_unix = "@ + text::decimal(a.received_at_unix as nat)
        + "\nreceived_at_unix_ms = "@ + text::decimal(a.received_at_unix_ms as nat)
        + "\nsource_format = \""@;
    let version = match a.client_version {
        Some(version) => report::inline_text(version@),
        None => Seq::<char>::empty(),
    };
    assert(version == (match b.client_version {
        Some(version) => report::inline_text(version@),
        None => Seq::<char>::empty(),
    }));
    let x = head + a.source_format@;
    let y = head + b.source_format@;
    let tail = "\"\nclient_version = \""@ + version + "\"\noriginal_bytes = "@ + text::decimal(
        a.original_bytes as nat,
    ) + "\nstored_bytes = "@ + text::decimal(a.stored_bytes as nat) + "\nredaction_count = "@
        + text::decimal(a.redaction_count as nat)
        + "\nhostname_collected = false\npersistent_machine_id_collected = false\n"@;
    assert(metadata_toml_text(a) =~= x + tail);
    assert(metadata_toml_text(b) =~= y + tail);
    assert((x + tail).len() == (y + tail).len());
    assert(x =~= y) by {
        assert forall|i: int| 0 <= i < x.len() implies x[i] == y[i] by {
            assert((x + tail)[i] == (y + tail)[i]);
        }
    }
    assert(x.skip(head.len() as int) =~= a.source_format@);
    assert(y.skip(head.len() as int) =~= b.source_format@);
}

/// A text names a run just if both of its parts do, where it has two that are not
/// empty; the empty text names none; and a single character does if it is an ASCII
/// letter or digit, a hyphen or an underscore.
pub proof fn law_run_ids_are_made_of_characters(a: Seq<char>, b: Seq<char>, c: char)
    ensures
        a.len() > 0 && b.len() > 0 ==> is_run_id(a + b) == (is_run_id(a) && is_run_id(b)),
        !is_run_id(Seq::empty()),
        is_run_id(seq![c]) <==> {
            let n = c as u32;
            48 <= n <= 57 || 65 <= n <= 90 || 97 <= n <= 122 || n == 45 || n == 95
        },
{
    let all = a + b;
    if a.len() > 0 && b.len() > 0 && is_run_id(all) {
        assert forall|i: int| 0 <= i < a.len() implies is_run_id_char(#[trigger] a[i]) by {
            assert(all[i] == a[i]);
        }
        assert forall|i: int| 0 <= i < b.len() implies is_run_id_char(#[trigger] b[i]) by {
            assert(all[a.len() + i] == b[i]);
        }
    }
    assert(seq![c][0] == c);
    if is_run_id_char(c) {
        assert(is_run_id(seq![c]));
    }
}

/// A run identifier tells the time of receipt and the UUID, in this order: it is
/// `diag-`, the digits of the time, a hyphen and the UUID.
pub proof fn law_run_ids_tell_time_and_uuid(millis: nat, uuid: Seq<char>) -> (digits: Seq<char>)
    ensures
        run_id_text(millis, uuid) == seq!['d', 'i', 'a', 'g', '-'] + digits + seq!['-'] + uuid,
        digits.len() > 0,
        forall|i: int| 0 <= i < digits.len() ==> '0' <= #[trigger] digits[i] <= '9',
        digits.len() > 1 ==> digits[0] != '0',
        text::read_from_left(digits) == millis,
{
    text::law_decimal_notation(millis);
    reveal_strlit("diag-");
    reveal_strlit("-");
    assert(run_id_text(millis, uuid) =~= seq!['d', 'i', 'a', 'g', '-'] + text::decimal(millis)
        + seq!['-'] + uuid);
    text::decimal(millis)
}

/// An entry more in the directory is a run more at the end if it is a directory
/// whose name can name a run, and changes nothing else; an empty directory holds no
/// runs.
pub proof fn law_runs_are_picked_in_order(entries: Seq<DirEntry>, entry: DirEntry)
    ensures
        run_ids_among(entries.push(entry)) == if entry.is_dir && is_run_id(entry.name@) {
            run_ids_among(entries) + seq![entry.name@]
        } else {
            run_ids_among(entries)
        },
        run_ids_among(Seq::empty()).len() == 0,
{
    assert(entries.push(entry).drop_last() =~= entries);
    assert(run_ids_among(entries).push(entry.name@) =~= run_ids_among(entries) + seq![entry.name@]);
}

/// A line of a listing names its run and repeats what is recorded of it; of a run
/// without metadata it tells nothing else.
pub proof fn law_summaries_repeat_the_record(run_id: String, metadata: RunMetadata)
    ensures
        ({
            let summary = summary_of(run_id, Some(metadata));
            &&& summary.run_id == run_id
            &&& summary.received_at_unix == Some(metadata.received_at_unix)
            &&& summary.source_format == Some(metadata.source_format)
            &&& summary.stored_bytes == Some(metadata.stored_bytes)
            &&& summary.redaction_count == Some(metadata.redaction_count)
        }),
        ({
            let summary = summary_of(run_id, None);
            &&& summary.run_id == run_id
            &&& summary.received_at_unix is None
            &&& summary.source_format is None
            &&& summary.stored_bytes is None
            &&& summary.redaction_count is None
        }),
{
}

/// A listing has a line for each run, in the order of the runs, under the identifier
/// of the run and with what is recorded of it.
pub proof fn law_listings_follow_the_runs(runs: Seq<(String, Option<RunMetadata>)>, i: int)
    requires
        0 <= i < runs.len(),
    ensures
        summaries_of(runs).len() == runs.len(),
        summaries_of(runs)[i].run_id == runs[i].0,
        runs[i].1 matches Some(metadata) ==> {
            &&& summaries_of(runs)[i].received_at_unix == Some(metadata.received_at_unix)
            &&& summaries_of(runs)[i].source_format == Some(metadata.source_format)
            &&& summaries_of(runs)[i].stored_bytes == Some(metadata.stored_bytes)
            &&& summaries_of(runs)[i].redaction_count == Some(metadata.redaction_count)
        },
        runs[i].1 is None ==> {
            &&& summaries_of(runs)[i].received_at_unix is None
            &&& summaries_of(runs)[i].source_format is None
            &&& summaries_of(runs)[i].stored_bytes is None
            &&& summaries_of(runs)[i].redaction_count is None
        },
{
}

} // verus!
