//! Storing an upload, step by step.
//!
//! A session says what to do next, and is told how that went. It redacts the
//! upload, holds its log against the quota, finds a free identifier, holds all that
//! it would store against the quota, stages the run and promotes it.

use crate::clock::unix_now_millis;
use crate::redact;
use crate::redact::redact_text;
use crate::report::PlatformSummary;
use crate::runs;
use crate::runs::{compose_run_id, metadata_toml, random_uuid, RunMetadata};
use crate::text;
use crate::text::push_decimal;
use vstd::prelude::*;
use vstd::string::*;
use vstd::utf8::*;

verus! {

/// How many identifiers are tried before an upload is given up.
pub const MAX_RUN_ID_ATTEMPTS: usize = 10;

/// An upload that was accepted for storage.
pub struct Upload {
    pub source_format: String,
    pub client_version: Option<String>,
    pub platform: Option<PlatformSummary>,
    pub raw_text: String,
    pub original_bytes: usize,
}

/// What an uploader is told of a stored run.
pub struct StoredRun {
    pub run_id: String,
    pub stored_bytes: usize,
    pub redaction_count: usize,
}

/// Why an upload was not stored.
pub enum StoreError {
    QuotaExceeded(String),
    Io(String),
    Serialize(String),
}

/// How far a session has come, and what it waits for. `current` is the size of
/// what was stored when the session measured it.
pub enum StorePhase {
    CreatingRunsDir,
    MeasuringRunsDir,
    ChoosingRunId { current: u64, received_at_unix_ms: u128, run_id: String, attempts: usize },
    EncodingMetadata { current: u64, metadata: RunMetadata },
    CreatingStagingDir(RunMetadata, String),
    WritingMetadataJson(RunMetadata, String),
    WritingMetadataToml(RunMetadata),
    WritingLog(RunMetadata),
    Promoting(RunMetadata),
    RecordingLatest(RunMetadata),
    Finished(Result<StoredRun, StoreError>),
}

/// An upload on its way into storage.
pub struct StoreSession {
    pub source_format: String,
    pub client_version: Option<String>,
    pub platform: Option<PlatformSummary>,
    pub log_text: String,
    pub redaction_count: usize,
    pub original_bytes: usize,
    pub max_stored_bytes: u64,
    pub phase: StorePhase,
}

/// What a session wants done next. Directories and files are named relative to
/// the directory that holds the runs, but for the record of the latest run,
/// which lies beside that directory.
pub enum StoreAction {
    /// Make sure the directory that holds the runs is there.
    CreateRunsDir,
    /// Add up the sizes of all files below the directory that holds the runs.
    MeasureRunsDir,
    /// Find out whether anything of this name is there.
    FindRun { run_id: String },
    /// Encode the session's metadata as JSON.
    EncodeMetadata,
    /// Create the directory in which the run is staged.
    CreateStagingDir { dir: String },
    /// Write a file of the staged run.
    WriteStagedFile { dir: String, file: String, content: String },
    /// Rename the staged run to its identifier.
    Promote { dir: String, run_id: String },
    /// Write the record of the latest run.
    WriteLatest { content: String },
    /// Nothing: the session has ended.
    Finish,
}

/// How an action went.
pub enum StoreEvent {
    Done,
    Measured(u64),
    RunFound(bool),
    Encoded(String),
    Failed(String),
    EncodeFailed(String),
}

/// The text of an action.
pub enum ActionText {
    CreateRunsDir,
    MeasureRunsDir,
    FindRun { run_id: Seq<char> },
    EncodeMetadata,
    CreateStagingDir { dir: Seq<char> },
    WriteStagedFile { dir: Seq<char>, file: Seq<char>, content: Seq<char> },
    Promote { dir: Seq<char>, run_id: Seq<char> },
    WriteLatest { content: Seq<char> },
    Finish,
}

impl View for StoreAction {
    type V = ActionText;

    open spec fn view(&self) -> ActionText {
        match *self {
            StoreAction::CreateRunsDir => ActionText::CreateRunsDir,
            StoreAction::MeasureRunsDir => ActionText::MeasureRunsDir,
            StoreAction::FindRun { run_id } => ActionText::FindRun { run_id: run_id@ },
            StoreAction::EncodeMetadata => ActionText::EncodeMetadata,
            StoreAction::CreateStagingDir { dir } => ActionText::CreateStagingDir { dir: dir@ },
            StoreAction::WriteStagedFile { dir, file, content } => ActionText::WriteStagedFile {
                dir: dir@,
                file: file@,
                content: content@,
            },
            StoreAction::Promote { dir, run_id } => ActionText::Promote {
                dir: dir@,
                run_id: run_id@,
            },
            StoreAction::WriteLatest { content } => ActionText::WriteLatest { content: content@ },
            StoreAction::Finish => ActionText::Finish,
        }
    }
}

/// The name of the directory in which a run is staged.
pub open spec fn staging_name(run_id: Seq<char>) -> Seq<char> {
    ".upload-"@ + run_id
}

/// Composes the name of the directory in which a run is staged.
fn compose_staging_name(run_id: &str) -> (dir: String)
    ensures
        dir@ == staging_name(run_id@),
{
    let mut dir = ".upload-".to_owned();
    dir.append(run_id);
    dir
}

/// The size of what is stored once `added` bytes join `current`, as far as it
/// can be counted.
pub open spec fn size_after(current: u64, added: nat) -> nat {
    capped(current as nat + added)
}

/// The message of an upload that does not fit the quota.
pub open spec fn quota_message(current: u64, attempted: nat, max: u64) -> Seq<char> {
    "diagnostics storage quota exceeded: current="@ + text::decimal(current as nat)
        + " attempted="@ + text::decimal(attempted) + " max="@ + text::decimal(max as nat)
}

/// The whole seconds in a time in milliseconds, in 64 bits.
pub open spec fn unix_seconds(millis: u128) -> nat {
    (millis / 1000) as nat % 0x1_0000_0000_0000_0000
}

impl StoreSession {
    /// The size of the log as it is stored.
    pub open spec fn log_bytes(self) -> nat {
        encode_utf8(self.log_text@).len()
    }

    /// The size of all files of the run when its metadata is `metadata`, encoded
    /// as `json`.
    pub open spec fn run_bytes(self, metadata: RunMetadata, json: Seq<char>) -> nat {
        self.log_bytes() + encode_utf8(runs::metadata_toml_text(metadata)).len() + encode_utf8(
            json,
        ).len()
    }

    /// The run would take what is stored beyond the quota.
    pub open spec fn exceeds_quota(
        self,
        current: u64,
        metadata: RunMetadata,
        json: Seq<char>,
    ) -> bool {
        size_after(current, self.run_bytes(metadata, json)) > self.max_stored_bytes
    }

    /// The session deals with the same upload as another, perhaps in another phase.
    pub open spec fn same_upload(self, other: StoreSession) -> bool {
        &&& self.source_format == other.source_format
        &&& self.client_version == other.client_version
        &&& self.platform == other.platform
        &&& self.log_text == other.log_text
        &&& self.redaction_count == other.redaction_count
        &&& self.original_bytes == other.original_bytes
        &&& self.max_stored_bytes == other.max_stored_bytes
    }

    /// The session begins with an upload: only the redacted text of it is kept.
    pub open spec fn takes_up(self, upload: Upload, max_stored_bytes: u64) -> bool {
        &&& self.phase is CreatingRunsDir
        &&& self.source_format == upload.source_format
        &&& self.client_version == upload.client_version
        &&& self.platform == upload.platform
        &&& self.log_text@ == redact::redacted_text(upload.raw_text@)
        &&& self.redaction_count == redact::redaction_count(upload.raw_text@)
        &&& self.original_bytes == upload.original_bytes
        &&& self.max_stored_bytes == max_stored_bytes
    }

    /// `metadata` is what gets recorded of the session's upload when it is
    /// received at `millis` and stored as `run_id`.
    pub open spec fn records(self, metadata: RunMetadata, millis: u128, run_id: Seq<char>) -> bool {
        &&& metadata.schema_version == 2
        &&& metadata.run_id@ == run_id
        &&& metadata.received_at_unix == unix_seconds(millis)
        &&& metadata.received_at_unix_ms == millis
        &&& metadata.source_format == self.source_format
        &&& metadata.client_version == self.client_version
        &&& metadata.platform == self.platform
        &&& metadata.original_bytes == self.original_bytes
        &&& metadata.stored_bytes == self.log_bytes()
        &&& metadata.redaction_count == self.redaction_count
        &&& !metadata.hostname_collected
        &&& !metadata.persistent_machine_id_collected
    }

    /// The action that the session waits for.
    pub open spec fn pending_action(self) -> ActionText {
        match self.phase {
            StorePhase::CreatingRunsDir => ActionText::CreateRunsDir,
            StorePhase::MeasuringRunsDir => ActionText::MeasureRunsDir,
            StorePhase::ChoosingRunId { run_id, .. } => ActionText::FindRun { run_id: run_id@ },
            StorePhase::EncodingMetadata { .. } => ActionText::EncodeMetadata,
            StorePhase::CreatingStagingDir(metadata, _) => ActionText::CreateStagingDir {
                dir: staging_name(metadata.run_id@),
            },
            StorePhase::WritingMetadataJson(metadata, json) => ActionText::WriteStagedFile {
                dir: staging_name(metadata.run_id@),
                file: "metadata.json"@,
                content: json@,
            },
            StorePhase::WritingMetadataToml(metadata) => ActionText::WriteStagedFile {
                dir: staging_name(metadata.run_id@),
                file: "metadata.toml"@,
                content: runs::metadata_toml_text(metadata),
            },
            StorePhase::WritingLog(metadata) => ActionText::WriteStagedFile {
                dir: staging_name(metadata.run_id@),
                file: "vapor.log"@,
                content: self.log_text@,
            },
            StorePhase::Promoting(metadata) => ActionText::Promote {
                dir: staging_name(metadata.run_id@),
                run_id: metadata.run_id@,
            },
            StorePhase::RecordingLatest(metadata) => ActionText::WriteLatest {
                content: metadata.run_id@ + "\n"@,
            },
            StorePhase::Finished(_) => ActionText::Finish,
        }
    }

    /// How the session goes on from `event`: `next` is a phase it may be in
    /// then. An event that does not answer the pending action changes nothing.
    pub open spec fn goes_on(self, event: StoreEvent, next: StorePhase) -> bool {
        match (self.phase, event) {
            (StorePhase::CreatingRunsDir, StoreEvent::Done) => next is MeasuringRunsDir,
            (StorePhase::CreatingRunsDir, StoreEvent::Failed(e)) => failed_with(next, e),
            (StorePhase::MeasuringRunsDir, StoreEvent::Measured(size)) => if size_after(
                size,
                self.log_bytes(),
            ) > self.max_stored_bytes {
                next matches StorePhase::Finished(Err(StoreError::QuotaExceeded(message)))
                    && message@ == quota_message(size, self.log_bytes(), self.max_stored_bytes)
            } else {
                next matches StorePhase::ChoosingRunId {
                    current,
                    received_at_unix_ms,
                    run_id,
                    attempts,
                } && {
                    &&& current == size
                    &&& runs::is_generated_run_id(received_at_unix_ms as nat, run_id@)
                    &&& received_at_unix_ms / 1000 <= u64::MAX
                    &&& attempts == 1
                }
            },
            (StorePhase::MeasuringRunsDir, StoreEvent::Failed(e)) => failed_with(next, e),
            (
                StorePhase::ChoosingRunId { current, received_at_unix_ms, run_id, attempts },
                StoreEvent::RunFound(found),
            ) => if !found {
                next matches StorePhase::EncodingMetadata { current: same_size, metadata } && {
                    &&& same_size == current
                    &&& self.records(metadata, received_at_unix_ms, run_id@)
                }
            } else if attempts >= MAX_RUN_ID_ATTEMPTS {
                next matches StorePhase::Finished(Err(StoreError::Io(message))) && message@
                    == "failed to allocate unique diagnostics run id"@
            } else {
                next matches StorePhase::ChoosingRunId {
                    current: same_size,
                    received_at_unix_ms: same_ms,
                    run_id: redrawn,
                    attempts: now,
                } && {
                    &&& same_size == current
                    &&& same_ms == received_at_unix_ms
                    &&& runs::is_generated_run_id(received_at_unix_ms as nat, redrawn@)
                    &&& now == attempts + 1
                }
            },
            (
                StorePhase::EncodingMetadata { current, metadata },
                StoreEvent::Encoded(json),
            ) => if self.exceeds_quota(current, metadata, json@) {
                next matches StorePhase::Finished(Err(StoreError::QuotaExceeded(message)))
                    && message@ == quota_message(
                    current,
                    self.run_bytes(metadata, json@),
                    self.max_stored_bytes,
                )
            } else {
                next == StorePhase::CreatingStagingDir(metadata, json)
            },
            (StorePhase::EncodingMetadata { .. }, StoreEvent::EncodeFailed(e)) => next
                == StorePhase::Finished(Err(StoreError::Serialize(e))),
            (StorePhase::CreatingStagingDir(metadata, json), StoreEvent::Done) => next
                == StorePhase::WritingMetadataJson(metadata, json),
            (StorePhase::CreatingStagingDir(_, _), StoreEvent::Failed(e)) => failed_with(next, e),
            (StorePhase::WritingMetadataJson(metadata, _), StoreEvent::Done) => next
                == StorePhase::WritingMetadataToml(metadata),
            (StorePhase::WritingMetadataJson(_, _), StoreEvent::Failed(e)) => failed_with(next, e),
            (StorePhase::WritingMetadataToml(metadata), StoreEvent::Done) => next
                == StorePhase::WritingLog(metadata),
            (StorePhase::WritingMetadataToml(_), StoreEvent::Failed(e)) => failed_with(next, e),
            (StorePhase::WritingLog(metadata), StoreEvent::Done) => next == StorePhase::Promoting(
                metadata,
            ),
            (StorePhase::WritingLog(_), StoreEvent::Failed(e)) => failed_with(next, e),
            (StorePhase::Promoting(metadata), StoreEvent::Done) => next
                == StorePhase::RecordingLatest(metadata),
            (StorePhase::Promoting(_), StoreEvent::Failed(e)) => failed_with(next, e),
            (StorePhase::RecordingLatest(metadata), StoreEvent::Done) => next
                matches StorePhase::Finished(Ok(stored)) && {
                &&& stored.run_id == metadata.run_id
                &&& stored.stored_bytes == metadata.stored_bytes
                &&& stored.redaction_count == metadata.redaction_count
            },
            (StorePhase::RecordingLatest(_), StoreEvent::Failed(e)) => failed_with(next, e),
            _ => next == self.phase,
        }
    }

    /// Takes up an upload: its text is redacted at once, and only the redacted
    /// text is kept.
    pub fn start(upload: Upload, max_stored_bytes: u64) -> (session: StoreSession)
        ensures
            session.takes_up(upload, max_stored_bytes),
            !session.log_text@.contains('\r'),
            session.log_text@.len() > 0,
            session.log_text@.last() == '\n',
    {
        let redacted = redact_text(upload.raw_text.as_str());
        StoreSession {
            source_format: upload.source_format,
            client_version: upload.client_version,
            platform: upload.platform,
            log_text: redacted.text,
            redaction_count: redacted.replacements,
            original_bytes: upload.original_bytes,
            max_stored_bytes,
            phase: StorePhase::CreatingRunsDir,
        }
    }

    /// The action that the session waits for.
    pub fn pending(&self) -> (action: StoreAction)
        ensures
            action@ == self.pending_action(),
    {
        match &self.phase {
            StorePhase::CreatingRunsDir => StoreAction::CreateRunsDir,
            StorePhase::MeasuringRunsDir => StoreAction::MeasureRunsDir,
            StorePhase::ChoosingRunId { run_id, .. } => StoreAction::FindRun {
                run_id: run_id.clone(),
            },
            StorePhase::EncodingMetadata { .. } => StoreAction::EncodeMetadata,
            StorePhase::CreatingStagingDir(metadata, _) => StoreAction::CreateStagingDir {
                dir: compose_staging_name(metadata.run_id.as_str()),
            },
            StorePhase::WritingMetadataJson(metadata, json) => StoreAction::WriteStagedFile {
                dir: compose_staging_name(metadata.run_id.as_str()),
                file: "metadata.json".to_owned(),
                content: json.clone(),
            },
            StorePhase::WritingMetadataToml(metadata) => StoreAction::WriteStagedFile {
                dir: compose_staging_name(metadata.run_id.as_str()),
                file: "metadata.toml".to_owned(),
                content: metadata_toml(metadata),
            },
            StorePhase::WritingLog(metadata) => StoreAction::WriteStagedFile {
                dir: compose_staging_name(metadata.run_id.as_str()),
                file: "vapor.log".to_owned(),
                content: self.log_text.clone(),
            },
            StorePhase::Promoting(metadata) => StoreAction::Promote {
                dir: compose_staging_name(metadata.run_id.as_str()),
                run_id: metadata.run_id.clone(),
            },
            StorePhase::RecordingLatest(metadata) => {
                let mut content = metadata.run_id.clone();
                content.append("\n");
                StoreAction::WriteLatest { content }
            },
            StorePhase::Finished(_) => StoreAction::Finish,
        }
    }

    /// The metadata of the run, while it is being stored.
    pub open spec fn recorded(self) -> Option<RunMetadata> {
        match self.phase {
            StorePhase::EncodingMetadata { metadata, .. } => Some(metadata),
            StorePhase::CreatingStagingDir(metadata, _) => Some(metadata),
            StorePhase::WritingMetadataJson(metadata, _) => Some(metadata),
            StorePhase::WritingMetadataToml(metadata) => Some(metadata),
            StorePhase::WritingLog(metadata) => Some(metadata),
            StorePhase::Promoting(metadata) => Some(metadata),
            StorePhase::RecordingLatest(metadata) => Some(metadata),
            _ => None,
        }
    }

    /// How the session ended, if it did.
    pub open spec fn ended_as(self) -> Option<Result<StoredRun, StoreError>> {
        match self.phase {
            StorePhase::Finished(result) => Some(result),
            _ => None,
        }
    }

    /// The metadata of the run, while it is being stored.
    pub fn metadata(&self) -> (metadata: Option<&RunMetadata>)
        ensures
            match self.recorded() {
                Some(recorded) => metadata == Some(&recorded),
                None => metadata is None,
            },
    {
        match &self.phase {
            StorePhase::EncodingMetadata { metadata, .. } => Some(metadata),
            StorePhase::CreatingStagingDir(metadata, _) => Some(metadata),
            StorePhase::WritingMetadataJson(metadata, _) => Some(metadata),
            StorePhase::WritingMetadataToml(metadata) => Some(metadata),
            StorePhase::WritingLog(metadata) => Some(metadata),
            StorePhase::Promoting(metadata) => Some(metadata),
            StorePhase::RecordingLatest(metadata) => Some(metadata),
            _ => None,
        }
    }

    /// How the session ended, if it did.
    pub fn outcome(self) -> (outcome: Option<Result<StoredRun, StoreError>>)
        ensures
            outcome == self.ended_as(),
    {
        match self.phase {
            StorePhase::Finished(result) => Some(result),
            _ => None,
        }
    }

    /// Writes down what is recorded of the upload.
    pub fn record(&self, millis: u128, run_id: String) -> (metadata: RunMetadata)
        ensures
            self.records(metadata, millis, run_id@),
    {
        let seconds: u128 = millis / 1000;
        assert(#[verifier::truncate] (seconds as u64) as u128 == seconds % 0x1_0000_0000_0000_0000)
            by (bit_vector);
        let client_version = match &self.client_version {
            Some(version) => Some(version.clone()),
            None => None,
        };
        RunMetadata {
            schema_version: 2,
            run_id,
            received_at_unix: #[verifier::truncate] (seconds as u64),
            received_at_unix_ms: millis,
            source_format: self.source_format.clone(),
            client_version,
            platform: self.platform,
            original_bytes: self.original_bytes,
            stored_bytes: self.log_text.as_str().as_bytes().len(),
            redaction_count: self.redaction_count,
            hostname_collected: false,
            persistent_machine_id_collected: false,
        }
    }

    /// Holds `attempted` bytes on top of what was stored against the quota.
    fn hold_against_quota(&self, current: u64, attempted: u128) -> (held: Result<(), StoreError>)
        requires
            current + attempted <= u128::MAX,
        ensures
            if size_after(current, attempted as nat) > self.max_stored_bytes {
                held matches Err(StoreError::QuotaExceeded(message)) && message@
                    == quota_message(current, attempted as nat, self.max_stored_bytes)
            } else {
                held is Ok
            },
    {
        let total: u128 = current as u128 + attempted;
        let counted: u128 = if total > u64::MAX as u128 {
            u64::MAX as u128
        } else {
            total
        };
        if counted > self.max_stored_bytes as u128 {
            let mut message = "diagnostics storage quota exceeded: current=".to_owned();
            push_decimal(&mut message, current as u128);
            message.append(" attempted=");
            push_decimal(&mut message, attempted);
            message.append(" max=");
            push_decimal(&mut message, self.max_stored_bytes as u128);
            return Err(StoreError::QuotaExceeded(message));
        }
        Ok(())
    }

    /// Holds the log alone against the quota.
    pub fn check_log(&self, current: u64) -> (checked: Result<(), StoreError>)
        ensures
            if size_after(current, self.log_bytes()) > self.max_stored_bytes {
                checked matches Err(StoreError::QuotaExceeded(message)) && message@
                    == quota_message(current, self.log_bytes(), self.max_stored_bytes)
            } else {
                checked is Ok
            },
    {
        self.hold_against_quota(current, self.log_text.as_str().as_bytes().len() as u128)
    }

    /// Holds the run against the quota: all of its files, the log and both forms
    /// of the metadata, on top of what was stored.
    pub fn check_quota(&self, current: u64, metadata: &RunMetadata, json: &str) -> (checked: Result<
        (),
        StoreError,
    >)
        ensures
            if self.exceeds_quota(current, *metadata, json@) {
                checked matches Err(StoreError::QuotaExceeded(message)) && message@
                    == quota_message(
                    current,
                    self.run_bytes(*metadata, json@),
                    self.max_stored_bytes,
                )
            } else {
                checked is Ok
            },
    {
        let toml = metadata_toml(metadata);
        let attempted: u128 = self.log_text.as_str().as_bytes().len() as u128
            + toml.as_str().as_bytes().len() as u128 + json.as_bytes().len() as u128;
        self.hold_against_quota(current, attempted)
    }

    /// Goes on from how the pending action went.
    pub fn advance(self, event: StoreEvent) -> (next: StoreSession)
        ensures
            next.same_upload(self),
            self.goes_on(event, next.phase),
    {
        let mut session = self;
        let mut phase = StorePhase::Finished(Err(StoreError::Io(String::new())));
        std::mem::swap(&mut phase, &mut session.phase);
        session.phase = match (phase, event) {
            (StorePhase::CreatingRunsDir, StoreEvent::Done) => StorePhase::MeasuringRunsDir,
            (StorePhase::CreatingRunsDir, StoreEvent::Failed(e)) => io_failure(e),
            (StorePhase::MeasuringRunsDir, StoreEvent::Measured(size)) => {
                match session.check_log(size) {
                    Err(error) => StorePhase::Finished(Err(error)),
                    Ok(()) => choosing(size, unix_now_millis(), random_uuid().as_str(), 1),
                }
            },
            (StorePhase::MeasuringRunsDir, StoreEvent::Failed(e)) => io_failure(e),
            (
                StorePhase::ChoosingRunId { current, received_at_unix_ms, run_id, attempts },
                StoreEvent::RunFound(found),
            ) => if !found {
                StorePhase::EncodingMetadata {
                    current,
                    metadata: session.record(received_at_unix_ms, run_id),
                }
            } else if attempts >= MAX_RUN_ID_ATTEMPTS {
                io_failure("failed to allocate unique diagnostics run id".to_owned())
            } else {
                choosing(current, received_at_unix_ms, random_uuid().as_str(), attempts + 1)
            },
            (
                StorePhase::EncodingMetadata { current, metadata },
                StoreEvent::Encoded(json),
            ) => match session.check_quota(current, &metadata, json.as_str()) {
                Err(error) => StorePhase::Finished(Err(error)),
                Ok(()) => StorePhase::CreatingStagingDir(metadata, json),
            },
            (StorePhase::EncodingMetadata { .. }, StoreEvent::EncodeFailed(e)) => {
                StorePhase::Finished(Err(StoreError::Serialize(e)))
            },
            (StorePhase::CreatingStagingDir(metadata, json), StoreEvent::Done) => {
                StorePhase::WritingMetadataJson(metadata, json)
            },
            (StorePhase::CreatingStagingDir(_, _), StoreEvent::Failed(e)) => io_failure(e),
            (StorePhase::WritingMetadataJson(metadata, _), StoreEvent::Done) => {
                StorePhase::WritingMetadataToml(metadata)
            },
            (StorePhase::WritingMetadataJson(_, _), StoreEvent::Failed(e)) => io_failure(e),
            (StorePhase::WritingMetadataToml(metadata), StoreEvent::Done) => {
                StorePhase::WritingLog(metadata)
            },
            (StorePhase::WritingMetadataToml(_), StoreEvent::Failed(e)) => io_failure(e),
            (StorePhase::WritingLog(metadata), StoreEvent::Done) => StorePhase::Promoting(metadata),
            (StorePhase::WritingLog(_), StoreEvent::Failed(e)) => io_failure(e),
            (StorePhase::Promoting(metadata), StoreEvent::Done) => {
                StorePhase::RecordingLatest(metadata)
            },
            (StorePhase::Promoting(_), StoreEvent::Failed(e)) => io_failure(e),
            (StorePhase::RecordingLatest(metadata), StoreEvent::Done) => {
                StorePhase::Finished(
                    Ok(
                        StoredRun {
                            run_id: metadata.run_id,
                            stored_bytes: metadata.stored_bytes,
                            redaction_count: metadata.redaction_count,
                        },
                    ),
                )
            },
            (StorePhase::RecordingLatest(_), StoreEvent::Failed(e)) => io_failure(e),
            (phase, _) => phase,
        };
        session
    }
}

/// The phase in which the identifier is tried that comes of the time of receipt
/// and of the UUID that was drawn.
pub fn choosing(current: u64, received_at_unix_ms: u128, uuid: &str, attempts: usize) -> (next:
    StorePhase)
    ensures
        next matches StorePhase::ChoosingRunId {
            current: size,
            received_at_unix_ms: millis,
            run_id,
            attempts: tries,
        } && {
            &&& size == current
            &&& millis == received_at_unix_ms
            &&& run_id@ == runs::run_id_text(received_at_unix_ms as nat, uuid@)
            &&& tries == attempts
        },
{
    let run_id = compose_run_id(received_at_unix_ms, uuid);
    StorePhase::ChoosingRunId { current, received_at_unix_ms, run_id, attempts }
}

/// The session ended because storage failed with this message.
pub open spec fn failed_with(phase: StorePhase, message: String) -> bool {
    phase == StorePhase::Finished(Err(StoreError::Io(message)))
}

/// The end of a session whose storage failed with this message.
fn io_failure(message: String) -> (phase: StorePhase)
    ensures
        failed_with(phase, message),
{
    StorePhase::Finished(Err(StoreError::Io(message)))
}

/// An entry of a directory, with the size that counts for it.
pub enum EntrySize {
    /// A directory, with the size of what is below it.
    Directory(u64),
    /// A regular file, with its length.
    File(u64),
    /// Anything else, which does not count.
    Other,
}

impl EntrySize {
    /// The size that counts for the entry.
    pub open spec fn bytes(self) -> nat {
        match self {
            EntrySize::Directory(size) => size as nat,
            EntrySize::File(size) => size as nat,
            EntrySize::Other => 0,
        }
    }
}

/// The sizes of a directory's entries together.
pub open spec fn total_bytes(entries: Seq<EntrySize>) -> nat
    decreases entries.len(),
{
    if entries.len() == 0 {
        0
    } else {
        total_bytes(entries.drop_last()) + entries.last().bytes()
    }
}

/// A size, as far as it can be counted.
pub open spec fn capped(size: nat) -> nat {
    if size > u64::MAX {
        u64::MAX as nat
    } else {
        size
    }
}

/// Adds up the sizes of a directory's entries, as far as they can be counted.
pub fn directory_size(entries: &Vec<EntrySize>) -> (total: u64)
    ensures
        total == capped(total_bytes(entries@)),
{
    let mut total: u64 = 0;
    let mut k: usize = 0;
    while k < entries.len()
        invariant
            k <= entries.len(),
            total == capped(total_bytes(entries@.take(k as int))),
        decreases entries.len() - k,
    {
        assert(entries@.take(k + 1).drop_last() == entries@.take(k as int));
        total = match &entries[k] {
            EntrySize::Directory(size) => total.saturating_add(*size),
            EntrySize::File(size) => total.saturating_add(*size),
            EntrySize::Other => total,
        };
        k += 1;
    }
    assert(entries@.take(k as int) == entries@);
    total
}

/// The size of a directory counts what is below its subdirectories in full, as
/// far as sizes can be counted at all.
pub proof fn law_directory_sizes_nest(entries: Seq<EntrySize>, inner: Seq<EntrySize>)
    ensures
        capped(total_bytes(entries.push(EntrySize::Directory(capped(total_bytes(inner)) as u64))))
            == capped(total_bytes(entries) + total_bytes(inner)),
{
    let nested = entries.push(EntrySize::Directory(capped(total_bytes(inner)) as u64));
    assert(nested.drop_last() == entries);
}

/// Once the size of what is stored is known, an upload is refused for the quota just
/// if its log alone would take what is stored beyond it. This holds of every quota
/// but the largest number there is, beyond which sizes cannot be counted.
pub proof fn law_log_quota_is_exact(session: StoreSession, current: u64, next: StorePhase)
    requires
        session.phase is MeasuringRunsDir,
        session.goes_on(StoreEvent::Measured(current), next),
        session.max_stored_bytes < u64::MAX,
    ensures
        next matches StorePhase::Finished(Err(StoreError::QuotaExceeded(_))) <==> current
            + session.log_bytes() > session.max_stored_bytes,
        next is ChoosingRunId <==> current + session.log_bytes() <= session.max_stored_bytes,
{
}

/// Once its metadata is encoded, an upload is refused for the quota just if its run,
/// with all of its files, would take what is stored beyond it. This holds of every quota but the largest
/// number there is, beyond which sizes cannot be counted.
pub proof fn law_quota_is_exact(
    session: StoreSession,
    current: u64,
    metadata: RunMetadata,
    json: String,
    next: StorePhase,
)
    requires
        session.phase == (StorePhase::EncodingMetadata { current, metadata }),
        session.goes_on(StoreEvent::Encoded(json), next),
        session.max_stored_bytes < u64::MAX,
    ensures
        next matches StorePhase::Finished(Err(StoreError::QuotaExceeded(_))) <==> current
            + session.run_bytes(metadata, json@) > session.max_stored_bytes,
        next is CreatingStagingDir <==> current + session.run_bytes(metadata, json@)
            <= session.max_stored_bytes,
{
}

/// The time of receipt in seconds is that in milliseconds without the part of a
/// second, for any time that the clock can show.
pub proof fn law_receipt_seconds_are_exact(millis: u128)
    requires
        millis / 1000 <= u64::MAX,
    ensures
        unix_seconds(millis) == millis / 1000,
{
}

/// Every entry of a directory adds what counts for it, wherever it stands: a file
/// its length, a subdirectory its size, and anything else nothing; an empty directory
/// has no size.
pub proof fn law_each_entry_adds_its_size(entries: Seq<EntrySize>, more: Seq<EntrySize>, size: u64)
    ensures
        total_bytes(entries.push(EntrySize::File(size))) == total_bytes(entries) + size,
        total_bytes(entries.push(EntrySize::Directory(size))) == total_bytes(entries) + size,
        total_bytes(entries.push(EntrySize::Other)) == total_bytes(entries),
        capped(total_bytes(entries.push(EntrySize::File(size)))) == capped(
            (total_bytes(entries) + size) as nat,
        ),
        total_bytes(entries + more) == total_bytes(entries) + total_bytes(more),
        total_bytes(Seq::empty()) == 0,
    decreases more.len(),
{
    assert(entries.push(EntrySize::File(size)).drop_last() =~= entries);
    assert(entries.push(EntrySize::Directory(size)).drop_last() =~= entries);
    assert(entries.push(EntrySize::Other).drop_last() =~= entries);
    if more.len() == 0 {
        assert(entries + more =~= entries);
    } else {
        law_each_entry_adds_its_size(entries, more.drop_last(), size);
        assert((entries + more).drop_last() =~= entries + more.drop_last());
        assert((entries + more).last() == more.last());
    }
}

/// A size is counted in full as long as it fits in 64 bits, and as the largest
/// number there is beyond that; so is the size that is held against the quota.
pub proof fn law_sizes_are_counted_in_full(size: nat, current: u64, added: nat)
    ensures
        size < 0x1_0000_0000_0000_0000 ==> capped(size) == size,
        size >= 0x1_0000_0000_0000_0000 ==> capped(size) == 0xffff_ffff_ffff_ffff,
        current + added < 0x1_0000_0000_0000_0000 ==> size_after(current, added) == current + added,
        current + added >= 0x1_0000_0000_0000_0000 ==> size_after(current, added)
            == 0xffff_ffff_ffff_ffff,
{
}

/// The name of a staging directory is `.upload-` and the identifier of its run, and
/// so tells the run.
pub proof fn law_staging_names_tell_the_run(a: Seq<char>, b: Seq<char>)
    ensures
        staging_name(a) == seq!['.', 'u', 'p', 'l', 'o', 'a', 'd', '-'] + a,
        staging_name(a) == staging_name(b) ==> a == b,
{
    reveal_strlit(".upload-");
    assert(staging_name(a) =~= seq!['.', 'u', 'p', 'l', 'o', 'a', 'd', '-'] + a);
    assert(staging_name(a).skip(8) =~= a);
    assert(staging_name(b).skip(8) =~= b);
}

/// The message of an upload that exceeds the quota gives three numbers, each under
/// its name: the size of what is stored, that of what was to be added, and the
/// quota.
pub proof fn law_quota_messages_give_the_sizes(current: u64, attempted: nat, max: u64) -> (numbers: (
    Seq<char>,
    Seq<char>,
    Seq<char>,
))
    ensures
        quota_message(current, attempted, max) == "diagnostics storage quota exceeded: current="@
            + numbers.0 + " attempted="@ + numbers.1 + " max="@ + numbers.2,
        numbers.0 == text::decimal(current as nat),
        numbers.1 == text::decimal(attempted),
        numbers.2 == text::decimal(max as nat),
        text::read_from_left(numbers.0) == current,
        text::read_from_left(numbers.1) == attempted,
        text::read_from_left(numbers.2) == max,
{
    text::law_decimal_notation(current as nat);
    text::law_decimal_notation(attempted);
    text::law_decimal_notation(max as nat);
    (text::decimal(current as nat), text::decimal(attempted), text::decimal(max as nat))
}

/// The time of receipt in seconds has 64 bits, and differs from the whole seconds in
/// the time in milliseconds by what does not fit in them.
pub proof fn law_receipt_seconds_wrap(millis: u128)
    ensures
        unix_seconds(millis) < 0x1_0000_0000_0000_0000,
        exists|n: int|
            (millis as int) / 1000 == unix_seconds(millis) + #[trigger] (n
                * 0x1_0000_0000_0000_0000),
{
    let whole = (millis as int) / 1000;
    let n = whole / 0x1_0000_0000_0000_0000;
    assert(whole == unix_seconds(millis) + n * 0x1_0000_0000_0000_0000);
}

/// A session that asks for its metadata to be encoded has some to encode, and one
/// that asks for nothing has ended.
pub proof fn law_sessions_have_what_they_ask_for(session: StoreSession)
    ensures
        session.pending_action() is EncodeMetadata ==> session.recorded() is Some,
        session.pending_action() is Finish <==> session.ended_as() is Some,
        session.ended_as() matches Some(result) ==> session.phase == StorePhase::Finished(result),
{
}

/// What a session is told of a failure it ends with: that of storage with its
/// message, and that of the encoding with its own.
pub proof fn law_failures_are_told(session: StoreSession, message: String, next: StorePhase)
    ensures
        session.goes_on(StoreEvent::Failed(message), next) && (session.phase is CreatingRunsDir
            || session.phase is MeasuringRunsDir || session.phase is CreatingStagingDir
            || session.phase is WritingMetadataJson || session.phase is WritingMetadataToml
            || session.phase is WritingLog || session.phase is Promoting
            || session.phase is RecordingLatest) ==> next == StorePhase::Finished(
            Err(StoreError::Io(message)),
        ),
        session.goes_on(StoreEvent::EncodeFailed(message), next)
            && session.phase is EncodingMetadata ==> next == StorePhase::Finished(
            Err(StoreError::Serialize(message)),
        ),
{
}

/// When one identifier after another is taken, ten are tried, all for the same time
/// of receipt, and then the upload is given up with a message. `sessions` goes from
/// the measurement on, through `n` identifiers that were found taken.
pub proof fn law_ten_identifiers_are_tried(sessions: Seq<StoreSession>, current: u64, n: nat)
    requires
        n <= 10,
        sessions.len() == n + 2,
        sessions[0].phase is MeasuringRunsDir,
        sessions[0].goes_on(StoreEvent::Measured(current), sessions[1].phase),
        sessions[1].phase is ChoosingRunId,
        forall|i: int|
            1 <= i <= n ==> (#[trigger] sessions[i]).goes_on(
                StoreEvent::RunFound(true),
                sessions[i + 1].phase,
            ),
    ensures
        n < 10 ==> (sessions.last().phase matches StorePhase::ChoosingRunId {
            current: size,
            received_at_unix_ms,
            run_id,
            attempts,
        } && {
            &&& size == current
            &&& sessions[1].phase->received_at_unix_ms == received_at_unix_ms
            &&& runs::is_generated_run_id(received_at_unix_ms as nat, run_id@)
            &&& attempts == n + 1
        }),
        n == 10 ==> (sessions.last().phase matches StorePhase::Finished(
            Err(StoreError::Io(message)),
        ) && message@ == "failed to allocate unique diagnostics run id"@),
    decreases n,
{
    if n > 0 {
        let before = sessions.drop_last();
        assert forall|i: int| 1 <= i <= n - 1 implies (#[trigger] before[i]).goes_on(
            StoreEvent::RunFound(true),
            before[i + 1].phase,
        ) by {
            assert(sessions[i].goes_on(StoreEvent::RunFound(true), sessions[i + 1].phase));
        }
        law_ten_identifiers_are_tried(before, current, (n - 1) as nat);
        assert(before.last() == sessions[n as int]);
        assert(sessions[n as int].goes_on(StoreEvent::RunFound(true), sessions[(n + 1) as int].phase));
    }
}

/// When nothing fails, the first identifier is free and the run fits the quota, a
/// session asks for ten things in turn and ends with the run stored: the directory,
/// its size, the identifier, the metadata as JSON, a staging directory, the three
/// files in it, their promotion under the identifier, and the record of it.
pub proof fn law_undisturbed_sessions_store(
    sessions: Seq<StoreSession>,
    current: u64,
    json: String,
)
    requires
        sessions.len() == 11,
        sessions[0].phase is CreatingRunsDir,
        forall|i: int| 0 <= i <= 10 ==> (#[trigger] sessions[i]).same_upload(sessions[0]),
        sessions[0].goes_on(StoreEvent::Done, sessions[1].phase),
        sessions[1].goes_on(StoreEvent::Measured(current), sessions[2].phase),
        sessions[2].goes_on(StoreEvent::RunFound(false), sessions[3].phase),
        sessions[3].goes_on(StoreEvent::Encoded(json), sessions[4].phase),
        sessions[4].goes_on(StoreEvent::Done, sessions[5].phase),
        sessions[5].goes_on(StoreEvent::Done, sessions[6].phase),
        sessions[6].goes_on(StoreEvent::Done, sessions[7].phase),
        sessions[7].goes_on(StoreEvent::Done, sessions[8].phase),
        sessions[8].goes_on(StoreEvent::Done, sessions[9].phase),
        sessions[9].goes_on(StoreEvent::Done, sessions[10].phase),
        sessions[3].recorded() matches Some(metadata) ==> current + encode_utf8(
            sessions[0].log_text@,
        ).len() + encode_utf8(runs::metadata_toml_text(metadata)).len() + encode_utf8(json@).len()
            <= sessions[0].max_stored_bytes,
        current + encode_utf8(sessions[0].log_text@).len() <= sessions[0].max_stored_bytes,
    ensures
        sessions[3].recorded() matches Some(metadata) && {
            let run_id = metadata.run_id@;
            let dir = ".upload-"@ + run_id;
            &&& sessions[0].pending_action() == ActionText::CreateRunsDir
            &&& sessions[1].pending_action() == ActionText::MeasureRunsDir
            &&& sessions[2].pending_action() == (ActionText::FindRun { run_id })
            &&& sessions[3].pending_action() == ActionText::EncodeMetadata
            &&& sessions[4].pending_action() == (ActionText::CreateStagingDir { dir })
            &&& sessions[5].pending_action() == (ActionText::WriteStagedFile {
                dir,
                file: "metadata.json"@,
                content: json@,
            })
            &&& sessions[6].pending_action() == (ActionText::WriteStagedFile {
                dir,
                file: "metadata.toml"@,
                content: runs::metadata_toml_text(metadata),
            })
            &&& sessions[7].pending_action() == (ActionText::WriteStagedFile {
                dir,
                file: "vapor.log"@,
                content: sessions[0].log_text@,
            })
            &&& sessions[8].pending_action() == (ActionText::Promote { dir, run_id })
            &&& sessions[9].pending_action() == (ActionText::WriteLatest {
                content: run_id + "\n"@,
            })
            &&& sessions[10].pending_action() == ActionText::Finish
            &&& sessions[10].ended_as() matches Some(Ok(stored)) && {
                &&& stored.run_id@ == run_id
                &&& stored.stored_bytes == encode_utf8(sessions[0].log_text@).len()
                &&& stored.redaction_count == sessions[0].redaction_count
            }
        },
{
    assert(sessions[1].same_upload(sessions[0]));
    assert(sessions[2].same_upload(sessions[0]));
    assert(sessions[3].same_upload(sessions[0]));
    assert(sessions[4].same_upload(sessions[0]));
    assert(sessions[5].same_upload(sessions[0]));
    assert(sessions[6].same_upload(sessions[0]));
    assert(sessions[7].same_upload(sessions[0]));
    assert(sessions[8].same_upload(sessions[0]));
    assert(sessions[9].same_upload(sessions[0]));
    assert(sessions[10].same_upload(sessions[0]));
}

/// A session goes on only from an answer to what it asks for: anything else that it
/// is told leaves it as it is.
pub proof fn law_sessions_go_on_from_answers(
    session: StoreSession,
    event: StoreEvent,
    next: StorePhase,
)
    requires
        session.goes_on(event, next),
        match session.pending_action() {
            ActionText::MeasureRunsDir => !(event is Measured) && !(event is Failed),
            ActionText::FindRun { .. } => !(event is RunFound),
            ActionText::EncodeMetadata => !(event is Encoded) && !(event is EncodeFailed),
            ActionText::Finish => true,
            _ => !(event is Done) && !(event is Failed),
        },
    ensures
        next == session.phase,
{
}

/// A session begins with what was uploaded, with the quota that it is given, and with
/// nothing done yet.
pub proof fn law_sessions_begin_with_the_upload(
    session: StoreSession,
    upload: Upload,
    max_stored_bytes: u64,
)
    requires
        session.takes_up(upload, max_stored_bytes),
    ensures
        session.pending_action() == ActionText::CreateRunsDir,
        session.source_format == upload.source_format,
        session.client_version == upload.client_version,
        session.platform == upload.platform,
        session.log_text@ == redact::redacted_text(upload.raw_text@),
        session.redaction_count == redact::redaction_count(upload.raw_text@),
        session.original_bytes == upload.original_bytes,
        session.max_stored_bytes == max_stored_bytes,
{
}

/// The first identifier that is free is taken, whichever attempt it is: the upload is
/// recorded under it, with the time of receipt that it was drawn for.
pub proof fn law_free_identifiers_are_taken(
    session: StoreSession,
    current: u64,
    millis: u128,
    run_id: String,
    attempts: usize,
    next: StorePhase,
)
    requires
        session.phase == (StorePhase::ChoosingRunId {
            current,
            received_at_unix_ms: millis,
            run_id,
            attempts,
        }),
        session.goes_on(StoreEvent::RunFound(false), next),
    ensures
        next matches StorePhase::EncodingMetadata { current: size, metadata } && {
            &&& size == current
            &&& metadata.schema_version == 2
            &&& metadata.run_id@ == run_id@
            &&& metadata.received_at_unix_ms == millis
            &&& millis / 1000 <= u64::MAX ==> metadata.received_at_unix == millis / 1000
            &&& metadata.source_format == session.source_format
            &&& metadata.client_version == session.client_version
            &&& metadata.platform == session.platform
            &&& metadata.original_bytes == session.original_bytes
            &&& metadata.stored_bytes == encode_utf8(session.log_text@).len()
            &&& metadata.redaction_count == session.redaction_count
            &&& !metadata.hostname_collected
            &&& !metadata.persistent_machine_id_collected
        },
{
}

/// The largest quota there is refuses nothing.
pub proof fn law_the_largest_quota_refuses_nothing(
    session: StoreSession,
    current: u64,
    json: String,
    next: StorePhase,
)
    requires
        session.max_stored_bytes == u64::MAX,
    ensures
        session.phase is MeasuringRunsDir && session.goes_on(StoreEvent::Measured(current), next)
            ==> next is ChoosingRunId,
        session.phase is EncodingMetadata && session.goes_on(StoreEvent::Encoded(json), next)
            ==> next is CreatingStagingDir,
{
}

/// An action says what is to be done: every name and content in it is as it is
/// written there.
pub proof fn law_actions_say_what_they_hold(a: String, b: String, c: String)
    ensures
        StoreAction::CreateRunsDir@ == ActionText::CreateRunsDir,
        StoreAction::MeasureRunsDir@ == ActionText::MeasureRunsDir,
        (StoreAction::FindRun { run_id: a })@ == (ActionText::FindRun { run_id: a@ }),
        StoreAction::EncodeMetadata@ == ActionText::EncodeMetadata,
        (StoreAction::CreateStagingDir { dir: a })@ == (ActionText::CreateStagingDir { dir: a@ }),
        (StoreAction::WriteStagedFile { dir: a, file: b, content: c })@ == (
        ActionText::WriteStagedFile { dir: a@, file: b@, content: c@ }),
        (StoreAction::Promote { dir: a, run_id: b })@ == (ActionText::Promote {
            dir: a@,
            run_id: b@,
        }),
        (StoreAction::WriteLatest { content: a })@ == (ActionText::WriteLatest { content: a@ }),
        StoreAction::Finish@ == ActionText::Finish,
{
}

} // verus!
