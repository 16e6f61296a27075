//! Requests and replies.
//!
//! What each route answers, as a function of what was asked and of what the
//! storage had to say. Listings, downloads and the export ask for a proof of
//! access that only the admin token opens.

use crate::config::MAX_UPLOAD_BYTES;
use crate::order;
use crate::order::sort_ascending;
use crate::report::DiagnosticsReportV2;
use crate::runs;
use crate::runs::{valid_run_id, RunMetadata, RunSummary};
use crate::store::{StoreError, StoredRun, Upload};
use crate::text;
use crate::text::push_decimal;
use vstd::prelude::*;
use vstd::relations::*;
use vstd::string::*;
use vstd::utf8::*;

verus! {

/// The request was served.
pub const OK: u16 = 200;

/// The upload was stored.
pub const CREATED: u16 = 201;

/// The request is malformed.
pub const BAD_REQUEST: u16 = 400;

/// The request lacks the admin token.
pub const UNAUTHORIZED: u16 = 401;

/// There is no such run.
pub const NOT_FOUND: u16 = 404;

/// The upload does not fit the quota.
pub const PAYLOAD_TOO_LARGE: u16 = 413;

/// Storage failed.
pub const INTERNAL_SERVER_ERROR: u16 = 500;

/// How many reports a listing holds if the request does not say.
pub const DEFAULT_LIST_LIMIT: usize = 50;

/// The most reports that a listing holds.
pub const MAX_LIST_LIMIT: usize = 200;

/// The answer to a stored report.
pub struct UploadRunResponse {
    pub schema_version: u32,
    pub run_id: String,
    pub stored_bytes: usize,
    pub redaction_count: usize,
}

/// The answer to a listing of reports.
pub struct ListRunsResponse {
    pub schema_version: u32,
    pub runs: Vec<RunSummary>,
}

/// The answer to the download of a report.
pub struct RunDetail {
    pub schema_version: u32,
    pub metadata: RunMetadata,
    pub vapor_log: String,
}

/// What a reply carries: text, or a value that goes out as JSON.
pub enum ReplyBody {
    Text(String),
    Stored(UploadRunResponse),
    Runs(ListRunsResponse),
    Run(RunDetail),
}

/// A reply: a status code and a body.
pub struct Reply {
    pub status: u16,
    pub body: ReplyBody,
}

impl Reply {
    /// The reply carries this text under this status.
    pub open spec fn is_text(self, status: u16, text: Seq<char>) -> bool {
        &&& self.status == status
        &&& self.body matches ReplyBody::Text(body) && body@ == text
    }
}

/// A reply with a text.
fn text_reply(status: u16, text: &str) -> (reply: Reply)
    ensures
        reply.is_text(status, text@),
{
    Reply { status, body: ReplyBody::Text(text.to_owned()) }
}

/// A reply with a text that ends in a message and a line break.
fn message_reply(status: u16, before: &str, message: &str) -> (reply: Reply)
    ensures
        reply.is_text(status, before@ + message@ + "\n"@),
{
    let mut text = before.to_owned();
    text.append(message);
    text.append("\n");
    Reply { status, body: ReplyBody::Text(text) }
}

/// The text of a string, empty if there is none.
pub open spec fn text_or_empty(value: Option<String>) -> Seq<char> {
    match value {
        Some(value) => value@,
        None => Seq::empty(),
    }
}

/// Answers that the service is up.
pub fn healthz() -> (reply: Reply)
    ensures
        reply.is_text(OK, "ok\n"@),
{
    text_reply(OK, "ok\n")
}

/// The public report on the service.
pub open spec fn status_text(
    state_dir: Seq<char>,
    runs: nat,
    max_stored_bytes: u64,
    stored_bytes: u64,
) -> Seq<char> {
    "service = \"vapor-diagnostics-server\"\nstate = \""@ + state_dir + "\"\nruns = "@
        + text::decimal(runs) + "\nmax_upload_bytes = "@ + text::decimal(MAX_UPLOAD_BYTES as nat)
        + "\nmax_stored_bytes = "@ + text::decimal(max_stored_bytes as nat) + "\nstored_bytes = "@
        + text::decimal(stored_bytes as nat)
        + "\nschema_versions = [1, 2]\nupload_auth_model = \"explicit-opt-in-unauthenticated\"\nread_auth_model = \"admin-token-scaffold\"\nhostname_collected = false\npersistent_machine_id_collected = false\n"@
}

/// The status and the text that answer a question for the service's status, given
/// how many runs there are or why that cannot be told.
pub open spec fn status_answer(
    state_dir: Seq<char>,
    max_stored_bytes: u64,
    runs: Result<nat, Seq<char>>,
    stored_bytes: Option<u64>,
) -> (u16, Seq<char>) {
    match runs {
        Ok(runs) => (
            OK,
            status_text(
                state_dir,
                runs,
                max_stored_bytes,
                match stored_bytes {
                    Some(size) => size,
                    None => 0,
                },
            ),
        ),
        Err(error) => (
            INTERNAL_SERVER_ERROR,
            "diagnostics: failed to list runs: "@ + error + "\n"@,
        ),
    }
}

/// How many runs a listing gave, or why it failed.
pub open spec fn listed_count(run_ids: Result<Vec<String>, String>) -> Result<nat, Seq<char>> {
    match run_ids {
        Ok(run_ids) => Ok(run_ids@.len()),
        Err(error) => Err(error@),
    }
}

/// Reports on the service. `run_ids` is what the listing of the runs gave, and
/// `stored_bytes` the size of what is stored, if it could be told.
pub fn status(
    state_dir: &str,
    max_stored_bytes: u64,
    run_ids: Result<Vec<String>, String>,
    stored_bytes: Option<u64>,
) -> (reply: Reply)
    ensures
        ({
            let (status, text) = status_answer(
                state_dir@,
                max_stored_bytes,
                listed_count(run_ids),
                stored_bytes,
            );
            reply.is_text(status, text)
        }),
{
    let run_ids = match run_ids {
        Ok(run_ids) => run_ids,
        Err(error) => {
            return message_reply(
                INTERNAL_SERVER_ERROR,
                "diagnostics: failed to list runs: ",
                error.as_str(),
            );
        },
    };
    let stored_bytes: u64 = match stored_bytes {
        Some(size) => size,
        None => 0,
    };
    let mut text = "service = \"vapor-diagnostics-server\"\nstate = \"".to_owned();
    text.append(state_dir);
    text.append("\"\nruns = ");
    push_decimal(&mut text, run_ids.len() as u128);
    text.append("\nmax_upload_bytes = ");
    push_decimal(&mut text, MAX_UPLOAD_BYTES as u128);
    text.append("\nmax_stored_bytes = ");
    push_decimal(&mut text, max_stored_bytes as u128);
    text.append("\nstored_bytes = ");
    push_decimal(&mut text, stored_bytes as u128);
    text.append(
        "\nschema_versions = [1, 2]\nupload_auth_model = \"explicit-opt-in-unauthenticated\"\nread_auth_model = \"admin-token-scaffold\"\nhostname_collected = false\npersistent_machine_id_collected = false\n",
    );
    Reply { status: OK, body: ReplyBody::Text(text) }
}

/// The text that `String::from_utf8_lossy` makes of bytes.
pub uninterp spec fn lossy_text(bytes: Seq<u8>) -> Seq<char>;

/// Calls `String::from_utf8_lossy`.
///
/// Believed: the text depends on the bytes alone, and bytes that are UTF-8 come
/// out as the text they encode. What stands where they are not is left unsaid.
#[verifier::external_body]
fn decode_lossily(bytes: &[u8]) -> (text: String)
    ensures
        text@ == lossy_text(bytes@),
        valid_utf8(bytes@) ==> text@ == decode_utf8(bytes@),
{
    String::from_utf8_lossy(bytes).into_owned()
}

/// The reply that refuses an upload for its body, if it is refused for that.
pub open spec fn body_refusal(body: Seq<u8>) -> Option<(u16, Seq<char>)> {
    if body.len() == 0 {
        Some((BAD_REQUEST, "empty diagnostics upload\n"@))
    } else {
        None
    }
}

/// What a plain-text body is taken up as.
pub open spec fn is_plain_upload(body: Seq<u8>, upload: Upload) -> bool {
    &&& upload.source_format@ == "legacy-text"@
    &&& upload.client_version is None
    &&& upload.platform is None
    &&& upload.raw_text@ == lossy_text(body)
    &&& valid_utf8(body) ==> upload.raw_text@ == decode_utf8(body)
    &&& upload.original_bytes == body.len()
}

/// Takes up a plain-text upload, or refuses it.
pub fn upload_run(body: &[u8]) -> (taken: Result<Upload, Reply>)
    ensures
        match body_refusal(body@) {
            Some((status, text)) => taken matches Err(reply) && reply.is_text(status, text),
            None => taken matches Ok(upload) && is_plain_upload(body@, upload),
        },
{
    if body.is_empty() {
        return Err(text_reply(BAD_REQUEST, "empty diagnostics upload\n"));
    }
    Ok(
        Upload {
            source_format: "legacy-text".to_owned(),
            client_version: None,
            platform: None,
            raw_text: decode_lossily(body),
            original_bytes: body.len(),
        },
    )
}

/// What an accepted report in a body of `body_bytes` bytes is taken up as.
pub open spec fn is_report_upload(
    report: DiagnosticsReportV2,
    body_bytes: nat,
    upload: Upload,
) -> bool {
    &&& upload.source_format@ == "diagnostics-report-v2"@
    &&& upload.client_version == report.client_version
    &&& upload.platform == report.platform
    &&& upload.raw_text@ == report.prepared_text()
    &&& upload.original_bytes == body_bytes
}

/// The reply that refuses an uploaded report, if it is refused.
pub open spec fn report_refusal(
    body: Seq<u8>,
    report: Result<DiagnosticsReportV2, String>,
) -> Option<(u16, Seq<char>)> {
    match body_refusal(body) {
        Some(refusal) => Some(refusal),
        None => match report {
            Err(error) => Some((BAD_REQUEST, "invalid diagnostics v2 JSON: "@ + error@ + "\n"@)),
            Ok(report) => match report.refusal() {
                Some(message) => Some((BAD_REQUEST, message + "\n"@)),
                None => None,
            },
        },
    }
}

/// Takes up an uploaded report, or refuses it. `report` is what the body parses
/// as, or what is wrong with it.
pub fn upload_report_v2(body: &[u8], report: Result<DiagnosticsReportV2, String>) -> (taken: Result<
    Upload,
    Reply,
>)
    ensures
        match report_refusal(body@, report) {
            Some((status, text)) => taken matches Err(reply) && reply.is_text(status, text),
            None => taken matches Ok(upload) && report matches Ok(report) && is_report_upload(
                report,
                body@.len(),
                upload,
            ),
        },
{
    if body.is_empty() {
        return Err(text_reply(BAD_REQUEST, "empty diagnostics upload\n"));
    }
    let report = match report {
        Ok(report) => report,
        Err(error) => {
            return Err(
                message_reply(BAD_REQUEST, "invalid diagnostics v2 JSON: ", error.as_str()),
            );
        },
    };
    match report.into_prepared_report() {
        Ok(prepared) => Ok(
            Upload {
                source_format: "diagnostics-report-v2".to_owned(),
                client_version: prepared.client_version,
                platform: prepared.platform,
                raw_text: prepared.log_text,
                original_bytes: body.len(),
            },
        ),
        Err(error) => {
            let reply = message_reply(BAD_REQUEST, "", error.as_str());
            proof {
                reveal_strlit("");
                assert(""@ + error@ + "\n"@ == error@ + "\n"@);
            }
            Err(reply)
        },
    }
}

/// The reply to an upload that could not be stored.
pub open spec fn is_store_error_reply(error: StoreError, reply: Reply) -> bool {
    match error {
        StoreError::QuotaExceeded(message) => reply.is_text(
            PAYLOAD_TOO_LARGE,
            message@ + "\n"@,
        ),
        StoreError::Io(error) => reply.is_text(
            INTERNAL_SERVER_ERROR,
            "diagnostics: storage error: "@ + error@ + "\n"@,
        ),
        StoreError::Serialize(error) => reply.is_text(
            INTERNAL_SERVER_ERROR,
            "diagnostics: metadata error: "@ + error@ + "\n"@,
        ),
    }
}

/// Answers an upload that could not be stored.
pub fn store_error_response(error: StoreError) -> (reply: Reply)
    ensures
        is_store_error_reply(error, reply),
{
    match error {
        StoreError::QuotaExceeded(message) => {
            let reply = message_reply(PAYLOAD_TOO_LARGE, "", message.as_str());
            proof {
                reveal_strlit("");
                assert(""@ + message@ + "\n"@ == message@ + "\n"@);
            }
            reply
        },
        StoreError::Io(error) => message_reply(
            INTERNAL_SERVER_ERROR,
            "diagnostics: storage error: ",
            error.as_str(),
        ),
        StoreError::Serialize(error) => message_reply(
            INTERNAL_SERVER_ERROR,
            "diagnostics: metadata error: ",
            error.as_str(),
        ),
    }
}

/// The reply to a plain-text upload.
pub open spec fn is_upload_reply(outcome: Result<StoredRun, StoreError>, reply: Reply) -> bool {
    match outcome {
        Ok(stored) => reply.is_text(
            CREATED,
            "diagnostics: uploaded run "@ + stored.run_id@ + "\n"@,
        ),
        Err(error) => is_store_error_reply(error, reply),
    }
}

/// The reply to an uploaded report.
pub open spec fn is_report_upload_reply(
    outcome: Result<StoredRun, StoreError>,
    reply: Reply,
) -> bool {
    match outcome {
        Ok(stored) => {
            &&& reply.status == CREATED
            &&& reply.body matches ReplyBody::Stored(response) && {
                &&& response.schema_version == 2
                &&& response.run_id == stored.run_id
                &&& response.stored_bytes == stored.stored_bytes
                &&& response.redaction_count == stored.redaction_count
            }
        },
        Err(error) => is_store_error_reply(error, reply),
    }
}

/// Answers a plain-text upload.
pub fn upload_run_reply(outcome: Result<StoredRun, StoreError>) -> (reply: Reply)
    ensures
        is_upload_reply(outcome, reply),
{
    match outcome {
        Ok(stored) => message_reply(CREATED, "diagnostics: uploaded run ", stored.run_id.as_str()),
        Err(error) => store_error_response(error),
    }
}

/// Answers an uploaded report.
pub fn upload_report_v2_reply(outcome: Result<StoredRun, StoreError>) -> (reply: Reply)
    ensures
        is_report_upload_reply(outcome, reply),
{
    match outcome {
        Ok(stored) => Reply {
            status: CREATED,
            body: ReplyBody::Stored(
                UploadRunResponse {
                    schema_version: 2,
                    run_id: stored.run_id,
                    stored_bytes: stored.stored_bytes,
                    redaction_count: stored.redaction_count,
                },
            ),
        },
        Err(error) => store_error_response(error),
    }
}

/// A byte that may stand in the text of a header: visible ASCII, a space or a tab.
pub open spec fn is_header_text_byte(b: u8) -> bool {
    32 <= b < 127 || b == 9
}

/// The value of the `Authorization` header opens the service to an
/// administrator: an admin token is set, and the value is the text `Bearer`, a
/// space and that token.
pub open spec fn opens(authorization: Option<Seq<u8>>, admin_token: Option<Seq<char>>) -> bool {
    match (authorization, admin_token) {
        (Some(value), Some(token)) => {
            &&& value == encode_utf8("Bearer "@ + token)
            &&& forall|i: int| 0 <= i < value.len() ==> is_header_text_byte(#[trigger] value[i])
        },
        _ => false,
    }
}

/// The bytes of an optional header value.
pub open spec fn header_bytes(value: Option<&[u8]>) -> Option<Seq<u8>> {
    match value {
        Some(value) => Some(value@),
        None => None,
    }
}

/// Whether the value of the `Authorization` header, if there is one, opens the
/// service to an administrator.
pub fn authorized(authorization: Option<&[u8]>, expected: &Option<String>) -> (granted: bool)
    ensures
        granted == opens(header_bytes(authorization), text::optional_text(*expected)),
{
    let (Some(value), Some(token)) = (authorization, expected) else {
        return false;
    };
    let mut wanted = "Bearer ".to_owned();
    wanted.append(token.as_str());
    let wanted = wanted.as_str().as_bytes();
    if value.len() != wanted.len() {
        return false;
    }
    let mut i: usize = 0;
    while i < value.len()
        invariant
            header_bytes(authorization) == Some(value@),
            text::optional_text(*expected) == Some(token@),
            value.len() == wanted.len(),
            wanted@ == encode_utf8("Bearer "@ + token@),
            i <= value.len(),
            forall|j: int| 0 <= j < i ==> value@[j] == wanted@[j],
            forall|j: int| 0 <= j < i ==> is_header_text_byte(#[trigger] value@[j]),
        decreases value.len() - i,
    {
        let b = value[i];
        if b != wanted[i] || !((32 <= b && b < 127) || b == 9) {
            assert(value@[i as int] != wanted@[i as int] || !is_header_text_byte(value@[i as int]));
            return false;
        }
        i += 1;
    }
    assert(value@ == wanted@);
    true
}

/// A grant of the admin token. Nothing but a check of that token makes one.
pub struct AdminAccess {
    granted: (),
}

/// The reply that refuses a request without the admin token, if it is refused.
pub open spec fn admin_refusal(
    authorization: Option<Seq<u8>>,
    admin_token: Option<Seq<char>>,
) -> Option<(u16, Seq<char>)> {
    if opens(authorization, admin_token) {
        None
    } else {
        Some((UNAUTHORIZED, "missing or invalid admin token\n"@))
    }
}

/// The reply that refuses a request for a run, if it is refused.
pub open spec fn run_refusal(
    authorization: Option<Seq<u8>>,
    admin_token: Option<Seq<char>>,
    run_id: Seq<char>,
) -> Option<(u16, Seq<char>)> {
    match admin_refusal(authorization, admin_token) {
        Some(refusal) => Some(refusal),
        None => if runs::is_run_id(run_id) {
            None
        } else {
            Some((BAD_REQUEST, "invalid diagnostics run id\n"@))
        },
    }
}

/// Asks for the admin token.
pub fn admin_access(authorization: Option<&[u8]>, expected: &Option<String>) -> (access: Result<
    AdminAccess,
    Reply,
>)
    ensures
        match admin_refusal(header_bytes(authorization), text::optional_text(*expected)) {
            Some((status, text)) => access matches Err(reply) && reply.is_text(status, text),
            None => access is Ok,
        },
{
    if !authorized(authorization, expected) {
        return Err(text_reply(UNAUTHORIZED, "missing or invalid admin token\n"));
    }
    Ok(AdminAccess { granted: () })
}

/// A grant of the admin token for one run. Nothing but a check of that token
/// and of the run's identifier makes one.
pub struct RunAccess {
    run_id: String,
}

impl RunAccess {
    #[verifier::type_invariant]
    closed spec fn names_a_run(self) -> bool {
        runs::is_run_id(self.run_id@)
    }

    /// The identifier of the run.
    pub closed spec fn id(self) -> Seq<char> {
        self.run_id@
    }

    /// The identifier of the run. It can name a run, and so nothing outside the
    /// directory that holds the runs.
    pub fn run_id(&self) -> (run_id: &str)
        ensures
            run_id@ == self.id(),
            runs::is_run_id(run_id@),
    {
        proof {
            use_type_invariant(self);
        }
        self.run_id.as_str()
    }
}

/// Asks for the admin token, and then for an identifier that can name a run.
pub fn run_access(
    authorization: Option<&[u8]>,
    expected: &Option<String>,
    run_id: String,
) -> (access: Result<RunAccess, Reply>)
    ensures
        match run_refusal(
            header_bytes(authorization),
            text::optional_text(*expected),
            run_id@,
        ) {
            Some((status, text)) => access matches Err(reply) && reply.is_text(status, text),
            None => access matches Ok(access) && access.id() == run_id@,
        },
{
    if !authorized(authorization, expected) {
        return Err(text_reply(UNAUTHORIZED, "missing or invalid admin token\n"));
    }
    if !valid_run_id(run_id.as_str()) {
        return Err(text_reply(BAD_REQUEST, "invalid diagnostics run id\n"));
    }
    Ok(RunAccess { run_id })
}

/// The lines, each of them ended by a line break but for the last.
pub open spec fn joined_lines(lines: Seq<Seq<char>>) -> Seq<char>
    decreases lines.len(),
{
    if lines.len() == 0 {
        Seq::empty()
    } else if lines.len() == 1 {
        lines[0]
    } else {
        joined_lines(lines.drop_last()) + "\n"@ + lines.last()
    }
}

/// The identifiers that a listing gave, or why it failed.
pub open spec fn listed_ids(run_ids: Result<Vec<String>, String>) -> Result<
    Seq<Seq<char>>,
    Seq<char>,
> {
    match run_ids {
        Ok(run_ids) => Ok(order::texts(run_ids@)),
        Err(error) => Err(error@),
    }
}

/// The status and the text that answer a listing of runs.
pub open spec fn list_answer(run_ids: Result<Seq<Seq<char>>, Seq<char>>) -> (u16, Seq<char>) {
    match run_ids {
        Ok(run_ids) => (OK, joined_lines(order::ascending(run_ids)) + "\n"@),
        Err(error) => (
            INTERNAL_SERVER_ERROR,
            "diagnostics: failed to list runs: "@ + error + "\n"@,
        ),
    }
}

/// Lists the identifiers of all runs, in ascending order, one on a line.
pub fn list_runs(_access: &AdminAccess, run_ids: Result<Vec<String>, String>) -> (reply: Reply)
    ensures
        ({
            let (status, text) = list_answer(listed_ids(run_ids));
            reply.is_text(status, text)
        }),
{
    let run_ids = match run_ids {
        Ok(run_ids) => sort_ascending(run_ids),
        Err(error) => {
            return message_reply(
                INTERNAL_SERVER_ERROR,
                "diagnostics: failed to list runs: ",
                error.as_str(),
            );
        },
    };
    let ghost lines = order::texts(run_ids@);
    let mut text = String::new();
    let mut k: usize = 0;
    while k < run_ids.len()
        invariant
            lines == order::texts(run_ids@),
            k <= run_ids.len(),
            text@ == joined_lines(lines.take(k as int)),
        decreases run_ids.len() - k,
    {
        assert(lines.take(k + 1).drop_last() == lines.take(k as int));
        if k > 0 {
            text.append("\n");
        }
        text.append(run_ids[k].as_str());
        k += 1;
        assert(text@ == joined_lines(lines.take(k as int)));
    }
    assert(lines.take(k as int) == lines);
    text.append("\n");
    Reply { status: OK, body: ReplyBody::Text(text) }
}

/// How many reports a listing holds, given what was asked for.
pub open spec fn limit_for(requested: Option<usize>) -> usize {
    match requested {
        Some(n) => if n < MAX_LIST_LIMIT {
            n
        } else {
            MAX_LIST_LIMIT
        },
        None => DEFAULT_LIST_LIMIT,
    }
}

/// How many reports a listing holds, given what was asked for.
pub fn list_limit(requested: Option<usize>) -> (limit: usize)
    ensures
        limit == limit_for(requested),
{
    let limit: usize = match requested {
        Some(n) => n,
        None => DEFAULT_LIST_LIMIT,
    };
    if limit < MAX_LIST_LIMIT {
        limit
    } else {
        MAX_LIST_LIMIT
    }
}

/// The reply to a listing of reports.
pub open spec fn is_reports_reply(
    summaries: Result<Vec<RunSummary>, String>,
    reply: Reply,
) -> bool {
    match summaries {
        Ok(summaries) => {
            &&& reply.status == OK
            &&& reply.body matches ReplyBody::Runs(response) && {
                &&& response.schema_version == 2
                &&& response.runs == summaries
            }
        },
        Err(error) => reply.is_text(
            INTERNAL_SERVER_ERROR,
            "diagnostics: failed to list reports: "@ + error@ + "\n"@,
        ),
    }
}

/// Answers a listing of reports.
pub fn list_reports_v2(_access: &AdminAccess, summaries: Result<Vec<RunSummary>, String>) -> (reply:
    Reply)
    ensures
        is_reports_reply(summaries, reply),
{
    match summaries {
        Ok(runs) => Reply {
            status: OK,
            body: ReplyBody::Runs(ListRunsResponse { schema_version: 2, runs }),
        },
        Err(error) => message_reply(
            INTERNAL_SERVER_ERROR,
            "diagnostics: failed to list reports: ",
            error.as_str(),
        ),
    }
}

/// A run as plain text.
pub open spec fn run_text(run_id: Seq<char>, metadata: Seq<char>, log: Seq<char>) -> Seq<char> {
    "# "@ + run_id + "\n\n--- metadata.toml ---\n"@ + metadata + "\n--- vapor.log ---\n"@ + log
}

/// The status and the text that answer the download of a run as plain text.
pub open spec fn download_answer(
    run_id: Seq<char>,
    metadata: Seq<char>,
    log: Seq<char>,
) -> (u16, Seq<char>) {
    if metadata.len() == 0 && log.len() == 0 {
        (NOT_FOUND, "diagnostics run not found\n"@)
    } else {
        (OK, run_text(run_id, metadata, log))
    }
}

/// Answers the download of a run as plain text, given what could be read of its
/// metadata file and its log.
pub fn download_run(access: &RunAccess, metadata: Option<String>, log: Option<String>) -> (reply:
    Reply)
    ensures
        ({
            let (status, text) = download_answer(
                access.id(),
                text_or_empty(metadata),
                text_or_empty(log),
            );
            reply.is_text(status, text)
        }),
{
    let metadata = match metadata {
        Some(metadata) => metadata,
        None => String::new(),
    };
    let log = match log {
        Some(log) => log,
        None => String::new(),
    };
    if metadata.as_str().is_empty() && log.as_str().is_empty() {
        return text_reply(NOT_FOUND, "diagnostics run not found\n");
    }
    let mut text = "# ".to_owned();
    text.append(access.run_id());
    text.append("\n\n--- metadata.toml ---\n");
    text.append(metadata.as_str());
    text.append("\n--- vapor.log ---\n");
    text.append(log.as_str());
    Reply { status: OK, body: ReplyBody::Text(text) }
}

/// The reply that refuses the download of a report for its metadata, if it is
/// refused for that.
pub open spec fn metadata_refusal(metadata: Result<Option<RunMetadata>, String>) -> Option<
    (u16, Seq<char>),
> {
    match metadata {
        Ok(Some(_)) => None,
        Ok(None) => Some((NOT_FOUND, "diagnostics run not found\n"@)),
        Err(error) => Some(
            (INTERNAL_SERVER_ERROR, "diagnostics: failed to read metadata: "@ + error@ + "\n"@),
        ),
    }
}

/// Settles the metadata of a report that is to be downloaded, given what could
/// be read of it.
pub fn find_report_v2(_access: &RunAccess, metadata: Result<Option<RunMetadata>, String>) -> (found:
    Result<RunMetadata, Reply>)
    ensures
        match metadata_refusal(metadata) {
            Some((status, text)) => found matches Err(reply) && reply.is_text(status, text),
            None => metadata matches Ok(Some(metadata)) && found == Ok::<RunMetadata, Reply>(
                metadata,
            ),
        },
{
    match metadata {
        Ok(Some(metadata)) => Ok(metadata),
        Ok(None) => Err(text_reply(NOT_FOUND, "diagnostics run not found\n")),
        Err(error) => Err(
            message_reply(
                INTERNAL_SERVER_ERROR,
                "diagnostics: failed to read metadata: ",
                error.as_str(),
            ),
        ),
    }
}

/// The reply to the download of a report.
pub open spec fn is_report_reply(metadata: RunMetadata, log: Seq<char>, reply: Reply) -> bool {
    &&& reply.status == OK
    &&& reply.body matches ReplyBody::Run(detail) && {
        &&& detail.schema_version == 2
        &&& detail.metadata == metadata
        &&& detail.vapor_log@ == log
    }
}

/// Answers the download of a report, given what could be read of its log.
pub fn download_report_v2(_access: &RunAccess, metadata: RunMetadata, log: Option<String>) -> (reply:
    Reply)
    ensures
        is_report_reply(metadata, text_or_empty(log), reply),
{
    let vapor_log = match log {
        Some(log) => log,
        None => String::new(),
    };
    Reply { status: OK, body: ReplyBody::Run(RunDetail { schema_version: 2, metadata, vapor_log }) }
}

/// The order in which runs are exported, or the reply if they cannot be listed.
pub open spec fn export_sequence(run_ids: Result<Seq<Seq<char>>, Seq<char>>) -> Result<
    Seq<Seq<char>>,
    (u16, Seq<char>),
> {
    match run_ids {
        Ok(run_ids) => Ok(order::ascending(run_ids)),
        Err(error) => Err(
            (INTERNAL_SERVER_ERROR, "diagnostics: failed to list runs: "@ + error + "\n"@),
        ),
    }
}

/// Puts the runs in the order in which they are exported.
pub fn export_order(_access: &AdminAccess, run_ids: Result<Vec<String>, String>) -> (ordered: Result<
    Vec<String>,
    Reply,
>)
    ensures
        match export_sequence(listed_ids(run_ids)) {
            Ok(sequence) => ordered matches Ok(ordered) && order::texts(ordered@) == sequence,
            Err((status, text)) => ordered matches Err(reply) && reply.is_text(status, text),
        },
{
    match run_ids {
        Ok(run_ids) => Ok(sort_ascending(run_ids)),
        Err(error) => Err(
            message_reply(
                INTERNAL_SERVER_ERROR,
                "diagnostics: failed to list runs: ",
                error.as_str(),
            ),
        ),
    }
}

/// The export of runs, each given by its identifier and what could be read of
/// its metadata file.
pub open spec fn export_text(runs: Seq<(String, Option<String>)>) -> Seq<char>
    decreases runs.len(),
{
    if runs.len() == 0 {
        "# Vapor diagnostics export scaffold\n\n"@
    } else {
        export_text(runs.drop_last()) + "## "@ + runs.last().0@ + "\n"@ + text_or_empty(
            runs.last().1,
        ) + "\n"@
    }
}

/// Answers an export of runs.
pub fn export_runs(_access: &AdminAccess, runs: &Vec<(String, Option<String>)>) -> (reply: Reply)
    ensures
        reply.is_text(OK, export_text(runs@)),
{
    let mut text = "# Vapor diagnostics export scaffold\n\n".to_owned();
    let mut k: usize = 0;
    while k < runs.len()
        invariant
            k <= runs.len(),
            text@ == export_text(runs@.take(k as int)),
        decreases runs.len() - k,
    {
        assert(runs@.take(k + 1).drop_last() == runs@.take(k as int));
        let (run_id, metadata) = &runs[k];
        text.append("## ");
        text.append(run_id.as_str());
        text.append("\n");
        if let Some(metadata) = metadata {
            text.append(metadata.as_str());
        }
        text.append("\n");
        k += 1;
        assert(text@ == export_text(runs@.take(k as int)));
    }
    assert(runs@.take(k as int) == runs@);
    Reply { status: OK, body: ReplyBody::Text(text) }
}

/// Without an admin token nobody is let in; with one, a single header value
/// lets in, and it tells the token.
pub proof fn law_only_the_token_opens(
    value: Seq<u8>,
    other: Seq<u8>,
    token: Seq<char>,
    other_token: Seq<char>,
)
    ensures
        !opens(None, Some(token)),
        !opens(Some(value), None),
        opens(Some(value), Some(token)) && opens(Some(other), Some(token)) ==> value == other,
        opens(Some(value), Some(token)) && opens(Some(value), Some(other_token)) ==> token
            == other_token,
{
    broadcast use encode_utf8_decode_utf8;

    if opens(Some(value), Some(token)) && opens(Some(value), Some(other_token)) {
        assert(decode_utf8(value) == "Bearer "@ + token);
        assert(decode_utf8(value) == "Bearer "@ + other_token);
        let n = "Bearer "@.len() as int;
        assert(("Bearer "@ + token).skip(n) == token);
        assert(("Bearer "@ + other_token).skip(n) == other_token);
    }
}

/// A token of visible ASCII characters lets in whoever sends it.
pub proof fn law_the_token_opens(token: Seq<char>)
    requires
        forall|i: int| 0 <= i < token.len() ==> ' ' <= #[trigger] token[i] <= '~',
    ensures
        opens(Some(encode_utf8("Bearer "@ + token)), Some(token)),
{
    reveal_strlit("Bearer ");
    let text = "Bearer "@ + token;
    assert(is_ascii_chars(text));
    is_ascii_chars_encode_utf8(text);
    let value = encode_utf8(text);
    assert forall|i: int| 0 <= i < value.len() implies is_header_text_byte(#[trigger] value[i]) by {
        assert(text[i] as u8 == value[i]);
        if i >= 7 {
            assert(text[i] == token[i - 7]);
        }
    }
}

/// A reply that carries a text under a status has that status and that text, and
/// no other.
pub proof fn law_text_replies(reply: Reply, status: u16, text: Seq<char>)
    ensures
        reply.is_text(status, text) <==> reply.status == status && (
        reply.body matches ReplyBody::Text(body) && body@ == text),
{
}

/// The service's status tells, one on a line, where it keeps what is stored, how many
/// runs there are, its limits, how much is stored, and its policies; it is served
/// whenever the runs can be listed, and what is stored counts as nothing when it
/// cannot be told.
pub proof fn law_status_tells_everything(
    state_dir: Seq<char>,
    max_stored_bytes: u64,
    runs: nat,
    stored_bytes: Option<u64>,
    error: Seq<char>,
)
    ensures
        ({
            let stored = match stored_bytes {
                Some(size) => size as nat,
                None => 0,
            };
            status_answer(state_dir, max_stored_bytes, Ok(runs), stored_bytes) == (
                200u16,
                text::lines(
                    seq![
                        "service = \"vapor-diagnostics-server\""@,
                        "state = \""@ + state_dir + "\""@,
                        "runs = "@ + text::decimal(runs),
                        "max_upload_bytes = "@ + text::decimal(2097152),
                        "max_stored_bytes = "@ + text::decimal(max_stored_bytes as nat),
                        "stored_bytes = "@ + text::decimal(stored),
                        "schema_versions = [1, 2]"@,
                        "upload_auth_model = \"explicit-opt-in-unauthenticated\""@,
                        "read_auth_model = \"admin-token-scaffold\""@,
                        "hostname_collected = false"@,
                        "persistent_machine_id_collected = false"@,
                    ],
                ),
            )
        }),
        status_answer(state_dir, max_stored_bytes, Err(error), stored_bytes) == (
            500u16,
            "diagnostics: failed to list runs: "@ + error + "\n"@,
        ),
{
    let stored = match stored_bytes {
        Some(size) => size,
        None => 0,
    };
    let none = Seq::<Seq<char>>::empty();
    let s1 = none.push("service = \"vapor-diagnostics-server\""@);
    let s2 = s1.push("state = \""@ + state_dir + "\""@);
    let s3 = s2.push("runs = "@ + text::decimal(runs));
    let s4 = s3.push("max_upload_bytes = "@ + text::decimal(2097152));
    let s5 = s4.push("max_stored_bytes = "@ + text::decimal(max_stored_bytes as nat));
    let s6 = s5.push("stored_bytes = "@ + text::decimal(stored as nat));
    let s7 = s6.push("schema_versions = [1, 2]"@);
    let s8 = s7.push("upload_auth_model = \"explicit-opt-in-unauthenticated\""@);
    let s9 = s8.push("read_auth_model = \"admin-token-scaffold\""@);
    let s10 = s9.push("hostname_collected = false"@);
    let all = s10.push("persistent_machine_id_collected = false"@);
    lemma_status_pieces();
    text::lemma_first_line("service = \"vapor-diagnostics-server\""@, Seq::empty());
    let service = "service = \"vapor-diagnostics-server\""@;
    assert(service + Seq::<char>::empty() =~= service);
    text::lemma_next_line(
        none,
        service,
        service,
        seq!['\n'] + "state = \""@,
        "state = \""@,
        state_dir,
    );
    let t2 = "service = \"vapor-diagnostics-server\"\nstate = \""@ + state_dir;
    assert(service + (seq!['\n'] + "state = \""@) + state_dir =~= t2);
    text::lemma_next_quoted_line(
        s1,
        "state = \""@ + state_dir,
        t2,
        "\"\nruns = "@,
        "runs = "@,
        text::decimal(runs),
    );
    let t3 = t2 + "\"\nruns = "@ + text::decimal(runs);
    text::lemma_next_line(
        s2,
        "runs = "@ + text::decimal(runs),
        t3,
        "\nmax_upload_bytes = "@,
        "max_upload_bytes = "@,
        text::decimal(2097152),
    );
    let t4 = t3 + "\nmax_upload_bytes = "@ + text::decimal(2097152);
    text::lemma_next_line(
        s3,
        "max_upload_bytes = "@ + text::decimal(2097152),
        t4,
        "\nmax_stored_bytes = "@,
        "max_stored_bytes = "@,
        text::decimal(max_stored_bytes as nat),
    );
    let t5 = t4 + "\nmax_stored_bytes = "@ + text::decimal(max_stored_bytes as nat);
    text::lemma_next_line(
        s4,
        "max_stored_bytes = "@ + text::decimal(max_stored_bytes as nat),
        t5,
        "\nstored_bytes = "@,
        "stored_bytes = "@,
        text::decimal(stored as nat),
    );
    let t6 = t5 + "\nstored_bytes = "@ + text::decimal(stored as nat);
    let end =
        "\nschema_versions = [1, 2]\nupload_auth_model = \"explicit-opt-in-unauthenticated\"\nread_auth_model = \"admin-token-scaffold\"\nhostname_collected = false\npersistent_machine_id_collected = false\n"@;
    assert(status_text(state_dir, runs, max_stored_bytes, stored) == t6 + end);
    text::lemma_lines_push(s5, s6.last());
    text::lemma_lines_push(s6, s7.last());
    text::lemma_lines_push(s7, s8.last());
    text::lemma_lines_push(s8, s9.last());
    text::lemma_lines_push(s9, s10.last());
    text::lemma_lines_push(s10, all.last());
    assert(text::is_open_line(s5, t6, s6.last()));
    assert(t6 + end =~= text::lines(all));
    assert(all =~= seq![
        "service = \"vapor-diagnostics-server\""@,
        "state = \""@ + state_dir + "\""@,
        "runs = "@ + text::decimal(runs),
        "max_upload_bytes = "@ + text::decimal(2097152),
        "max_stored_bytes = "@ + text::decimal(max_stored_bytes as nat),
        "stored_bytes = "@ + text::decimal(stored as nat),
        "schema_versions = [1, 2]"@,
        "upload_auth_model = \"explicit-opt-in-unauthenticated\""@,
        "read_auth_model = \"admin-token-scaffold\""@,
        "hostname_collected = false"@,
        "persistent_machine_id_collected = false"@,
    ]);
}

/// The pieces of the status, split at the line breaks.
proof fn lemma_status_pieces()
    ensures
        "service = \"vapor-diagnostics-server\"\nstate = \""@
            == "service = \"vapor-diagnostics-server\""@ + seq!['\n'] + "state = \""@,
        "\"\nruns = "@ == "\""@ + seq!['\n'] + "runs = "@,
        "\nmax_upload_bytes = "@ == seq!['\n'] + "max_upload_bytes = "@,
        "\nmax_stored_bytes = "@ == seq!['\n'] + "max_stored_bytes = "@,
        "\nstored_bytes = "@ == seq!['\n'] + "stored_bytes = "@,
        "\nschema_versions = [1, 2]\nupload_auth_model = \"explicit-opt-in-unauthenticated\"\nread_auth_model = \"admin-token-scaffold\"\nhostname_collected = false\npersistent_machine_id_collected = false\n"@
            == seq!['\n'] + "schema_versions = [1, 2]"@ + seq!['\n']
            + "upload_auth_model = \"explicit-opt-in-unauthenticated\""@ + seq!['\n']
            + "read_auth_model = \"admin-token-scaffold\""@ + seq!['\n']
            + "hostname_collected = false"@ + seq!['\n']
            + "persistent_machine_id_collected = false"@ + seq!['\n'],
{
    reveal_strlit("\"");
    reveal_strlit("service = \"vapor-diagnostics-server\"\nstate = \"");
    reveal_strlit("service = \"vapor-diagnostics-server\"");
    reveal_strlit("state = \"");
    reveal_strlit("\"\nruns = ");
    reveal_strlit("runs = ");
    reveal_strlit("\nmax_upload_bytes = ");
    reveal_strlit("max_upload_bytes = ");
    reveal_strlit("\nmax_stored_bytes = ");
    reveal_strlit("max_stored_bytes = ");
    reveal_strlit("\nstored_bytes = ");
    reveal_strlit("stored_bytes = ");
    reveal_strlit("schema_versions = [1, 2]");
    reveal_strlit("upload_auth_model = \"explicit-opt-in-unauthenticated\"");
    reveal_strlit("read_auth_model = \"admin-token-scaffold\"");
    reveal_strlit("hostname_collected = false");
    reveal_strlit("persistent_machine_id_collected = false");
    reveal_strlit(
        "\nschema_versions = [1, 2]\nupload_auth_model = \"explicit-opt-in-unauthenticated\"\nread_auth_model = \"admin-token-scaffold\"\nhostname_collected = false\npersistent_machine_id_collected = false\n",
    );
}

/// A listing of runs holds the identifier of every run on a line of its own, in
/// ascending order, and nothing else; without runs it is an empty line.
pub proof fn law_listings_have_a_line_for_each_run(run_ids: Seq<Seq<char>>, error: Seq<char>)
    ensures
        run_ids.len() > 0 ==> list_answer(Ok(run_ids)) == (
            200u16,
            text::lines(order::ascending(run_ids)),
        ),
        run_ids.len() == 0 ==> list_answer(Ok(run_ids)) == (200u16, "\n"@),
        forall|i: int|
            0 <= i < run_ids.len() ==> text::holds_line(
                list_answer(Ok(run_ids)).1,
                #[trigger] run_ids[i],
            ),
        list_answer(Err(error)) == (
            500u16,
            "diagnostics: failed to list runs: "@ + error + "\n"@,
        ),
{
    let sorted = order::ascending(run_ids);
    order::law_ascending_is_sorted(run_ids);
    reveal_strlit("\n");
    if run_ids.len() > 0 {
        lemma_joined_lines(sorted);
        assert forall|i: int| 0 <= i < run_ids.len() implies text::holds_line(
            list_answer(Ok(run_ids)).1,
            #[trigger] run_ids[i],
        ) by {
            broadcast use vstd::seq_lib::group_to_multiset_ensures;

            assert(run_ids.contains(run_ids[i]));
            assert(run_ids.to_multiset().contains(run_ids[i]));
            assert(sorted.to_multiset().contains(run_ids[i]));
            assert(sorted.contains(run_ids[i]));
            let k = choose|k: int| 0 <= k < sorted.len() && sorted[k] == run_ids[i];
            text::lemma_holds_each_line(sorted, k);
        }
    } else {
        assert(joined_lines(sorted) + "\n"@ =~= "\n"@);
    }
}

proof fn lemma_joined_lines(items: Seq<Seq<char>>)
    requires
        items.len() > 0,
    ensures
        joined_lines(items) + "\n"@ == text::lines(items),
    decreases items.len(),
{
    reveal_strlit("\n");
    assert("\n"@ =~= seq!['\n']);
    if items.len() == 1 {
        assert(text::lines(items.drop_last()) =~= Seq::<char>::empty());
        assert(joined_lines(items) + "\n"@ =~= text::lines(items));
    } else {
        lemma_joined_lines(items.drop_last());
    }
}

/// The export of runs is that of all but the last, followed by the identifier of the
/// last under a heading and all that could be read of its metadata; without runs it
/// is a title.
pub proof fn law_exports_grow_by_each_run(
    runs: Seq<(String, Option<String>)>,
    run_id: String,
    metadata: String,
)
    ensures
        export_text(runs.push((run_id, Some(metadata)))) == export_text(runs) + (
        "## "@ + run_id@ + "\n"@ + metadata@ + "\n"@),
        export_text(runs.push((run_id, None))) == export_text(runs) + ("## "@ + run_id@ + "\n"@
            + "\n"@),
        export_text(Seq::empty()) == "# Vapor diagnostics export scaffold\n\n"@,
{
    let with = runs.push((run_id, Some(metadata)));
    let without = runs.push((run_id, None));
    assert(with.drop_last() =~= runs);
    assert(without.drop_last() =~= runs);
    assert(export_text(with) =~= export_text(runs) + ("## "@ + run_id@ + "\n"@ + metadata@
        + "\n"@));
    assert(export_text(without) =~= export_text(runs) + ("## "@ + run_id@ + "\n"@ + "\n"@));
}

/// Every run that is exported has its place: behind the export of the runs before it
/// stand its identifier under a heading and all of its metadata, and `rest` follows.
pub proof fn law_exports_hold_every_run(
    runs: Seq<(String, Option<String>)>,
    i: int,
) -> (rest: Seq<char>)
    requires
        0 <= i < runs.len(),
    ensures
        export_text(runs) == export_text(runs.take(i)) + ("## "@ + runs[i].0@ + "\n"@ + (
        match runs[i].1 {
            Some(metadata) => metadata@,
            None => Seq::empty(),
        }) + "\n"@) + rest,
    decreases runs.len(),
{
    let part = |k: int|
        "## "@ + runs[k].0@ + "\n"@ + (match runs[k].1 {
            Some(metadata) => metadata@,
            None => Seq::<char>::empty(),
        }) + "\n"@;
    let n = runs.len() - 1;
    assert(export_text(runs) =~= export_text(runs.drop_last()) + part(n));
    assert(runs.take(n) =~= runs.drop_last());
    if i == n {
        assert(export_text(runs) =~= export_text(runs.take(i)) + part(i) + Seq::<char>::empty());
        Seq::empty()
    } else {
        let rest = law_exports_hold_every_run(runs.drop_last(), i);
        assert(runs.drop_last().take(i) =~= runs.take(i));
        assert(runs.drop_last()[i] == runs[i]);
        assert(export_text(runs) =~= export_text(runs.take(i)) + part(i) + (rest + part(n)));
        rest + part(n)
    }
}

/// Runs are exported in ascending order; a listing that fails is answered.
pub proof fn law_exports_are_ordered(run_ids: Seq<Seq<char>>, error: Seq<char>)
    ensures
        export_sequence(Ok(run_ids)) matches Ok(sequence) && {
            &&& sorted_by(sequence, order::text_order())
            &&& sequence.to_multiset() == run_ids.to_multiset()
        },
        export_sequence(Err(error)) == Err::<Seq<Seq<char>>, (u16, Seq<char>)>(
            (500u16, "diagnostics: failed to list runs: "@ + error + "\n"@),
        ),
{
    order::law_ascending_is_sorted(run_ids);
}

/// What a listing gave is handed on as it is.
pub proof fn law_listings_are_handed_on(run_ids: Vec<String>, error: String)
    ensures
        listed_ids(Ok(run_ids)) == Ok::<Seq<Seq<char>>, Seq<char>>(
            run_ids@.map_values(|run_id: String| run_id@),
        ),
        listed_ids(Err(error)) == Err::<Seq<Seq<char>>, Seq<char>>(error@),
        listed_count(Ok(run_ids)) == Ok::<nat, Seq<char>>(run_ids@.len()),
        listed_count(Err(error)) == Err::<nat, Seq<char>>(error@),
{
}

/// A run of which neither metadata nor log hold anything is not found; any other is
/// given with its identifier and with both, whole.
pub proof fn law_downloads_give_the_run(run_id: Seq<char>, metadata: Seq<char>, log: Seq<char>)
    ensures
        metadata.len() == 0 && log.len() == 0 ==> download_answer(run_id, metadata, log) == (
            404u16,
            "diagnostics run not found\n"@,
        ),
        metadata.len() > 0 || log.len() > 0 ==> download_answer(run_id, metadata, log) == (
            200u16,
            seq!['#', ' '] + run_id + ("\n\n--- metadata.toml ---\n"@ + metadata) + (
            "\n--- vapor.log ---\n"@ + log),
        ),
{
    reveal_strlit("# ");
    assert(run_text(run_id, metadata, log) =~= seq!['#', ' '] + run_id + (
    "\n\n--- metadata.toml ---\n"@ + metadata) + ("\n--- vapor.log ---\n"@ + log));
}

/// What could not be read counts as empty, and what could as it is.
pub proof fn law_unread_text_is_empty(value: String)
    ensures
        text_or_empty(Some(value)) == value@,
        text_or_empty(None).len() == 0,
{
}

/// A request without the admin token is refused, whatever run it asks for; one with
/// it is refused only where it asks for a run by a name that no run can have.
pub proof fn law_readers_are_refused(
    authorization: Option<Seq<u8>>,
    admin_token: Option<Seq<char>>,
    run_id: Seq<char>,
)
    ensures
        !opens(authorization, admin_token) ==> admin_refusal(authorization, admin_token) == Some(
            (401u16, "missing or invalid admin token\n"@),
        ) && run_refusal(authorization, admin_token, run_id) == Some(
            (401u16, "missing or invalid admin token\n"@),
        ),
        opens(authorization, admin_token) ==> admin_refusal(authorization, admin_token) is None,
        opens(authorization, admin_token) && !runs::is_run_id(run_id) ==> run_refusal(
            authorization,
            admin_token,
            run_id,
        ) == Some((400u16, "invalid diagnostics run id\n"@)),
        opens(authorization, admin_token) && runs::is_run_id(run_id) ==> run_refusal(
            authorization,
            admin_token,
            run_id,
        ) is None,
{
}

/// A token opens the service just if every character of it is visible ASCII, a space
/// or a tab, and then by one header value alone: `Bearer`, a space and the token.
pub proof fn law_tokens_that_open(token: Seq<char>, other: Seq<u8>)
    ensures
        opens(Some(other), Some(token)) ==> other == encode_utf8("Bearer "@ + token),
        opens(Some(encode_utf8("Bearer "@ + token)), Some(token)) <==> forall|i: int|
            0 <= i < token.len() ==> ' ' <= #[trigger] token[i] <= '~' || token[i] == '\t',
{
    reveal_strlit("Bearer ");
    let text = "Bearer "@ + token;
    let value = encode_utf8(text);
    if forall|i: int| 0 <= i < token.len() ==> ' ' <= #[trigger] token[i] <= '~' || token[i] == '\t' {
        assert(is_ascii_chars(text)) by {
            assert forall|i: int| 0 <= i < text.len() implies '\0' <= #[trigger] text[i]
                <= '\u{7f}' by {
                if i >= 7 {
                    assert(text[i] == token[i - 7]);
                }
            }
        }
        is_ascii_chars_encode_utf8(text);
        assert forall|i: int| 0 <= i < value.len() implies is_header_text_byte(
            #[trigger] value[i],
        ) by {
            assert(text[i] as u8 == value[i]);
            if i >= 7 {
                assert(text[i] == token[i - 7]);
            }
        }
    }
    if opens(Some(value), Some(token)) {
        lemma_ascii_bytes(text);
        is_ascii_chars_encode_utf8(text);
        assert forall|i: int| 0 <= i < token.len() implies ' ' <= #[trigger] token[i] <= '~'
            || token[i] == '\t' by {
            assert(text[i + 7] == token[i]);
            assert(text[i + 7] as u8 == value[i + 7]);
            assert(is_header_text_byte(value[i + 7]));
        }
    }
}

/// A text whose encoding has only bytes of header texts is ASCII.
proof fn lemma_ascii_bytes(text: Seq<char>)
    requires
        forall|i: int|
            0 <= i < encode_utf8(text).len() ==> is_header_text_byte(
                #[trigger] encode_utf8(text)[i],
            ),
    ensures
        is_ascii_chars(text),
    decreases text.len(),
{
    if text.len() > 0 {
        let first = encode_scalar(text[0] as u32);
        let rest = text.drop_first();
        let bytes = encode_utf8(text);
        assert(bytes == first + encode_utf8(rest));
        assert forall|i: int| 0 <= i < encode_utf8(rest).len() implies is_header_text_byte(
            #[trigger] encode_utf8(rest)[i],
        ) by {
            assert(bytes[first.len() + i] == encode_utf8(rest)[i]);
        }
        lemma_ascii_bytes(rest);
        lemma_ascii_scalar(text[0]);
        assert(bytes[0] == first[0]);
        assert(is_header_text_byte(bytes[0]));
        assert('\0' <= text[0] <= '\u{7f}');
        assert forall|i: int| 0 <= i < text.len() implies '\0' <= #[trigger] text[i]
            <= '\u{7f}' by {
            if i > 0 {
                let before = rest[i - 1];
                assert('\0' <= before <= '\u{7f}');
                assert(text[i] == before);
            } else {
                assert(text[i] == text[0]);
            }
        }
    }
}

/// The encoding of a character begins with a byte below 128 only if the character is
/// ASCII.
proof fn lemma_ascii_scalar(c: char)
    ensures
        encode_scalar(c as u32).len() > 0,
        encode_scalar(c as u32)[0] < 128 ==> '\0' <= c <= '\u{7f}',
{
    broadcast use char_is_scalar;

    let scalar = c as u32;
    assert(0xc0u8 | ((scalar >> 6) & 0x1f) as u8 >= 0xc0u8) by (bit_vector);
    assert(0xe0u8 | ((scalar >> 12) & 0x0f) as u8 >= 0xe0u8) by (bit_vector);
    assert(0xf0u8 | ((scalar >> 18) & 0x07) as u8 >= 0xf0u8) by (bit_vector);
}

/// An upload without a body is refused, and any other plain-text upload is taken up
/// with its text and its size.
pub proof fn law_plain_uploads_are_taken_up(body: Seq<u8>, upload: Upload)
    ensures
        body.len() == 0 ==> body_refusal(body) == Some((400u16, "empty diagnostics upload\n"@)),
        body.len() > 0 ==> body_refusal(body) is None,
        is_plain_upload(body, upload) ==> {
            &&& upload.source_format@ == "legacy-text"@
            &&& upload.client_version is None
            &&& upload.platform is None
            &&& upload.raw_text@ == lossy_text(body)
            &&& upload.original_bytes == body.len()
        },
{
}

/// An uploaded report is refused for the first of these that holds: it has no body,
/// the body is not the JSON of a report, or the report is refused; each is told why.
pub proof fn law_reports_are_refused_with_a_reason(
    body: Seq<u8>,
    report: DiagnosticsReportV2,
    error: String,
)
    ensures
        body.len() == 0 ==> report_refusal(body, Ok(report)) == Some(
            (400u16, "empty diagnostics upload\n"@),
        ) && report_refusal(body, Err(error)) == Some((400u16, "empty diagnostics upload\n"@)),
        body.len() > 0 ==> report_refusal(body, Err(error)) == Some(
            (400u16, "invalid diagnostics v2 JSON: "@ + error@ + "\n"@),
        ),
        body.len() > 0 ==> match report.refusal() {
            Some(message) => report_refusal(body, Ok(report)) == Some((400u16, message + "\n"@)),
            None => report_refusal(body, Ok(report)) is None,
        },
{
}

/// An uploader is told the identifier of a stored run, and of one that was not stored
/// why: that it exceeds the quota, or what failed.
pub proof fn law_uploaders_are_told(
    stored: StoredRun,
    message: String,
    plain: Reply,
    report: Reply,
)
    ensures
        is_upload_reply(Ok(stored), plain) ==> plain.status == 201 && (
        plain.body matches ReplyBody::Text(text) && text@ == "diagnostics: uploaded run "@
            + stored.run_id@ + "\n"@),
        is_report_upload_reply(Ok(stored), report) ==> report.status == 201 && (
        report.body matches ReplyBody::Stored(response) && response.schema_version == 2
            && response.run_id == stored.run_id && response.stored_bytes == stored.stored_bytes
            && response.redaction_count == stored.redaction_count),
        is_upload_reply(Err(StoreError::QuotaExceeded(message)), plain) ==> plain.is_text(
            413,
            message@ + "\n"@,
        ),
        is_upload_reply(Err(StoreError::Io(message)), plain) ==> plain.is_text(
            500,
            "diagnostics: storage error: "@ + message@ + "\n"@,
        ),
        is_upload_reply(Err(StoreError::Serialize(message)), plain) ==> plain.is_text(
            500,
            "diagnostics: metadata error: "@ + message@ + "\n"@,
        ),
        is_report_upload_reply(Err(StoreError::QuotaExceeded(message)), report) ==> report.is_text(
            413,
            message@ + "\n"@,
        ),
        is_report_upload_reply(Err(StoreError::Io(message)), report) ==> report.is_text(
            500,
            "diagnostics: storage error: "@ + message@ + "\n"@,
        ),
        is_report_upload_reply(Err(StoreError::Serialize(message)), report) ==> report.is_text(
            500,
            "diagnostics: metadata error: "@ + message@ + "\n"@,
        ),
{
}

/// A listing of reports holds as many as were asked for, up to 200, and 50 if nothing
/// was asked for.
pub proof fn law_listings_are_limited(n: usize)
    ensures
        n <= 200 ==> limit_for(Some(n)) == n,
        n > 200 ==> limit_for(Some(n)) == 200,
        limit_for(None) == 50,
{
}

/// A listing of reports carries all of the summaries; one that fails is answered.
pub proof fn law_report_listings_carry_the_summaries(
    summaries: Vec<RunSummary>,
    error: String,
    reply: Reply,
)
    ensures
        is_reports_reply(Ok(summaries), reply) ==> reply.status == 200 && (
        reply.body matches ReplyBody::Runs(response) && response.schema_version == 2
            && response.runs == summaries),
        is_reports_reply(Err(error), reply) ==> reply.is_text(
            500,
            "diagnostics: failed to list reports: "@ + error@ + "\n"@,
        ),
{
}

/// The download of a report is refused where its metadata is not there or cannot be
/// read, and nowhere else.
pub proof fn law_report_downloads_need_metadata(metadata: RunMetadata, error: String)
    ensures
        metadata_refusal(Ok(Some(metadata))) is None,
        metadata_refusal(Ok(None)) == Some((404u16, "diagnostics run not found\n"@)),
        metadata_refusal(Err(error)) == Some(
            (500u16, "diagnostics: failed to read metadata: "@ + error@ + "\n"@),
        ),
{
}

/// The bytes of a header value are those that were sent.
pub proof fn law_header_bytes(value: &[u8])
    ensures
        header_bytes(Some(value)) == Some(value@),
        header_bytes(None) is None,
{
}

/// The reply to the download of a report carries its metadata and its log.
pub proof fn law_report_downloads_carry_the_run(
    metadata: RunMetadata,
    log: Seq<char>,
    reply: Reply,
)
    requires
        is_report_reply(metadata, log, reply),
    ensures
        reply.status == 200,
        reply.body matches ReplyBody::Run(detail) && detail.schema_version == 2 && detail.metadata
            == metadata && detail.vapor_log@ == log,
{
}

} // verus!
