//! What storing an upload does to the disk.
//!
//! The disk is modelled as the directory that holds the runs and the record of
//! the latest one. Whatever fails on the way, the runs that can be listed are
//! those from before, or those and the new one, complete.

use crate::api;
use crate::api::{Reply, ReplyBody};
use crate::redact;
use crate::report::DiagnosticsReportV2;
use crate::runs;
use crate::runs::{DirEntry, RunMetadata};
use crate::store;
use crate::store::{
    ActionText, EntrySize, StoreError, StoreEvent, StorePhase, StoreSession, StoredRun, Upload,
};
use vstd::prelude::*;
use vstd::utf8::*;

verus! {

/// The directory that holds the runs, as the files of each subdirectory and the
/// size of whatever else lies below it, and the record of the latest run.
#[verifier::ext_equal]
pub struct Disk {
    pub dirs: Map<Seq<char>, Map<Seq<char>, Seq<char>>>,
    pub others: nat,
    pub latest: Option<Seq<char>>,
}

/// The sum of named sizes.
pub open spec fn sum(sizes: Map<Seq<char>, nat>) -> nat
    decreases sizes.dom().len(),
{
    if sizes.dom().finite() && sizes.dom().len() > 0 {
        let name = sizes.dom().choose();
        sizes[name] + sum(sizes.remove(name))
    } else {
        0
    }
}

/// The size of files together.
pub open spec fn file_bytes(files: Map<Seq<char>, Seq<char>>) -> nat {
    sum(files.map_values(|content: Seq<char>| encode_utf8(content).len()))
}

/// The size of the files of several directories together.
pub open spec fn dir_bytes(dirs: Map<Seq<char>, Map<Seq<char>, Seq<char>>>) -> nat {
    sum(dirs.map_values(|files: Map<Seq<char>, Seq<char>>| file_bytes(files)))
}

impl Disk {
    /// The runs that can be listed and downloaded.
    pub open spec fn listed(self) -> Map<Seq<char>, Map<Seq<char>, Seq<char>>> {
        Map::new(
            |name: Seq<char>| self.dirs.contains_key(name) && runs::is_run_id(name),
            |name: Seq<char>| self.dirs[name],
        )
    }

    /// The disk holds finitely many directories and files.
    pub open spec fn is_finite(self) -> bool {
        &&& self.dirs.dom().finite()
        &&& forall|name: Seq<char>| #[trigger]
            self.dirs.contains_key(name) ==> self.dirs[name].dom().finite()
    }

    /// The size of all files below the directory that holds the runs.
    pub open spec fn size(self) -> nat {
        dir_bytes(self.dirs) + self.others
    }

    /// `entries` are the entries of the directory that holds the runs, among
    /// which there may be files too.
    pub open spec fn shows(self, entries: Seq<DirEntry>) -> bool {
        forall|name: Seq<char>| #[trigger]
            self.dirs.contains_key(name) <==> exists|i: int|
                0 <= i < entries.len() && (#[trigger] entries[i]).is_dir && entries[i].name@ == name
    }

    /// The disk after an action that succeeded.
    pub open spec fn after(self, action: ActionText) -> Disk {
        match action {
            ActionText::CreateStagingDir { dir } => Disk {
                dirs: self.dirs.insert(dir, Map::empty()),
                others: self.others,
                latest: self.latest,
            },
            ActionText::WriteStagedFile { dir, file, content } => Disk {
                dirs: self.dirs.insert(dir, self.dirs[dir].insert(file, content)),
                others: self.others,
                latest: self.latest,
            },
            ActionText::Promote { dir, run_id } => Disk {
                dirs: self.dirs.remove(dir).insert(run_id, self.dirs[dir]),
                others: self.others,
                latest: self.latest,
            },
            ActionText::WriteLatest { content } => Disk {
                dirs: self.dirs,
                others: self.others,
                latest: Some(content),
            },
            _ => self,
        }
    }

    /// A disk that an action may leave behind when it fails: a staged file may
    /// be half written, and so may the record of the latest run, but a rename
    /// happens as a whole or not at all.
    pub open spec fn may_fail_as(self, action: ActionText, left: Disk) -> bool {
        match action {
            ActionText::CreateStagingDir { dir } => {
                &&& left.others == self.others
                &&& left.latest == self.latest
                &&& left.dirs.remove(dir) == self.dirs.remove(dir)
            },
            ActionText::WriteStagedFile { dir, .. } => {
                &&& left.others == self.others
                &&& left.latest == self.latest
                &&& left.dirs.remove(dir) == self.dirs.remove(dir)
            },
            ActionText::Promote { .. } => left == self || left == self.after(action),
            ActionText::WriteLatest { .. } => {
                &&& left.dirs == self.dirs
                &&& left.others == self.others
            },
            _ => left == self,
        }
    }

    /// `event` is a true account of how `action` went on this disk, and `left`
    /// is the disk then. A search for a name finds every directory, and may find
    /// something else; a directory is created only where there is none.
    pub open spec fn answers(self, action: ActionText, event: StoreEvent, left: Disk) -> bool {
        match event {
            StoreEvent::Failed(_) => self.may_fail_as(action, left),
            StoreEvent::EncodeFailed(_) => left == self,
            StoreEvent::RunFound(found) => {
                &&& action matches ActionText::FindRun { run_id } ==> (self.dirs.contains_key(
                    run_id,
                ) ==> found)
                &&& left == self
            },
            StoreEvent::Measured(size) => {
                &&& action is MeasureRunsDir ==> size == store::capped(self.size())
                &&& left == self
            },
            StoreEvent::Done => {
                &&& action matches ActionText::CreateStagingDir { dir }
                    ==> !self.dirs.contains_key(dir)
                &&& left == self.after(action)
            },
            _ => left == self,
        }
    }
}

/// The files of a stored run.
pub open spec fn run_files(
    session: StoreSession,
    metadata: RunMetadata,
    json: Seq<char>,
) -> Map<Seq<char>, Seq<char>> {
    map!["metadata.json"@ => json].insert(
        "metadata.toml"@,
        runs::metadata_toml_text(metadata),
    ).insert("vapor.log"@, session.log_text@)
}

/// The disk with a directory added.
pub open spec fn with_dir(
    base: Disk,
    name: Seq<char>,
    files: Map<Seq<char>, Seq<char>>,
) -> Disk {
    Disk { dirs: base.dirs.insert(name, files), others: base.others, latest: base.latest }
}

/// `metadata` belongs to a run of the session that found its place free on `base`.
pub open spec fn is_placed(session: StoreSession, base: Disk, metadata: RunMetadata) -> bool {
    &&& session.records(metadata, metadata.received_at_unix_ms, metadata.run_id@)
    &&& runs::is_generated_run_id(metadata.received_at_unix_ms as nat, metadata.run_id@)
    &&& !base.dirs.contains_key(metadata.run_id@)
}

/// The run, with its metadata encoded as `json`, fits the quota beside what is on
/// `base`, as far as sizes can be counted.
pub open spec fn fits(
    session: StoreSession,
    base: Disk,
    metadata: RunMetadata,
    json: Seq<char>,
) -> bool {
    store::capped(base.size() + session.run_bytes(metadata, json)) <= session.max_stored_bytes
}

/// The disk is `base` with the run staged as far as `files`.
pub open spec fn is_staged(
    session: StoreSession,
    base: Disk,
    disk: Disk,
    metadata: RunMetadata,
    json: Seq<char>,
    files: Map<Seq<char>, Seq<char>>,
) -> bool {
    let dir = store::staging_name(metadata.run_id@);
    &&& is_placed(session, base, metadata)
    &&& fits(session, base, metadata, json)
    &&& !base.dirs.contains_key(dir)
    &&& disk == with_dir(base, dir, files)
}

/// The directories on `disk` are those on `base` and, complete, that of the
/// session's own run, which is listed beside the others.
pub open spec fn has_added_run(
    session: StoreSession,
    base: Disk,
    disk: Disk,
    metadata: RunMetadata,
    encode: spec_fn(RunMetadata) -> Seq<char>,
) -> bool {
    let files = run_files(session, metadata, encode(metadata));
    &&& is_placed(session, base, metadata)
    &&& disk.dirs == base.dirs.insert(metadata.run_id@, files)
    &&& disk.others == base.others
    &&& disk.listed() == base.listed().insert(metadata.run_id@, files)
}

/// Nothing on `disk` differs from `base` but the directory in which `run_id` is
/// staged.
pub open spec fn stages_only(base: Disk, disk: Disk, run_id: Seq<char>) -> bool {
    let dir = store::staging_name(run_id);
    &&& disk.dirs.remove(dir) == base.dirs.remove(dir)
    &&& disk.others == base.others
    &&& disk.latest == base.latest
}

/// The disk is `base` with the run of `metadata` stored, and the uploader is told so.
pub open spec fn is_stored(
    session: StoreSession,
    base: Disk,
    disk: Disk,
    metadata: RunMetadata,
    encode: spec_fn(RunMetadata) -> Seq<char>,
    stored: StoredRun,
) -> bool {
    let json = encode(metadata);
    &&& is_placed(session, base, metadata)
    &&& fits(session, base, metadata, json)
    &&& stored.run_id == metadata.run_id
    &&& stored.stored_bytes == session.log_bytes()
    &&& stored.redaction_count == session.redaction_count
    &&& disk == (Disk {
        latest: Some(metadata.run_id@ + "\n"@),
        ..with_dir(base, metadata.run_id@, run_files(session, metadata, json))
    })
}

/// How the disk stands to `base`, on which the session began, in each phase, when
/// metadata is encoded by `encode`.
pub open spec fn storing(
    session: StoreSession,
    base: Disk,
    disk: Disk,
    encode: spec_fn(RunMetadata) -> Seq<char>,
) -> bool {
    match session.phase {
        StorePhase::CreatingRunsDir => disk == base,
        StorePhase::MeasuringRunsDir => disk == base,
        StorePhase::ChoosingRunId { current, received_at_unix_ms, run_id, .. } => {
            &&& disk == base
            &&& current == store::capped(base.size())
            &&& runs::is_generated_run_id(received_at_unix_ms as nat, run_id@)
        },
        StorePhase::EncodingMetadata { current, metadata } => {
            &&& disk == base
            &&& current == store::capped(base.size())
            &&& is_placed(session, base, metadata)
        },
        StorePhase::CreatingStagingDir(metadata, encoded) => {
            &&& disk == base
            &&& is_placed(session, base, metadata)
            &&& fits(session, base, metadata, encode(metadata))
            &&& encoded@ == encode(metadata)
        },
        StorePhase::WritingMetadataJson(metadata, encoded) => {
            &&& is_staged(session, base, disk, metadata, encode(metadata), Map::empty())
            &&& encoded@ == encode(metadata)
        },
        StorePhase::WritingMetadataToml(metadata) => is_staged(
            session,
            base,
            disk,
            metadata,
            encode(metadata),
            map!["metadata.json"@ => encode(metadata)],
        ),
        StorePhase::WritingLog(metadata) => is_staged(
            session,
            base,
            disk,
            metadata,
            encode(metadata),
            map!["metadata.json"@ => encode(metadata)].insert(
                "metadata.toml"@,
                runs::metadata_toml_text(metadata),
            ),
        ),
        StorePhase::Promoting(metadata) => is_staged(
            session,
            base,
            disk,
            metadata,
            encode(metadata),
            run_files(session, metadata, encode(metadata)),
        ),
        StorePhase::RecordingLatest(metadata) => {
            &&& is_placed(session, base, metadata)
            &&& fits(session, base, metadata, encode(metadata))
            &&& disk == with_dir(
                base,
                metadata.run_id@,
                run_files(session, metadata, encode(metadata)),
            )
        },
        StorePhase::Finished(Ok(stored)) => exists|metadata: RunMetadata| #[trigger]
            is_stored(session, base, disk, metadata, encode, stored),
        StorePhase::Finished(Err(StoreError::QuotaExceeded(_))) => disk == base,
        StorePhase::Finished(Err(_)) => {
            ||| exists|run_id: Seq<char>| #[trigger] stages_only(base, disk, run_id)
            ||| exists|metadata: RunMetadata| #[trigger]
                has_added_run(session, base, disk, metadata, encode)
        },
    }
}

/// A staging directory cannot be mistaken for a run.
pub proof fn law_staged_runs_are_not_listed(run_id: Seq<char>)
    ensures
        !runs::is_run_id(store::staging_name(run_id)),
{
    reveal_strlit(".upload-");
    assert(store::staging_name(run_id)[0] == '.');
    assert(!runs::is_run_id_char('.'));
}

/// The runs that a listing picks from the directory are those that can be listed.
pub proof fn law_listings_show_the_runs(disk: Disk, entries: Seq<DirEntry>, run_id: Seq<char>)
    requires
        disk.shows(entries),
    ensures
        runs::run_ids_among(entries).contains(run_id) <==> disk.listed().contains_key(run_id),
{
    runs::law_picked_runs(entries, run_id);
}

/// Changing a directory that is no run leaves the runs alone.
proof fn lemma_unlisted_dir(before: Disk, after: Disk, dir: Seq<char>)
    requires
        !runs::is_run_id(dir),
        before.dirs.remove(dir) == after.dirs.remove(dir),
    ensures
        before.listed() == after.listed(),
{
    assert forall|name: Seq<char>| name != dir implies {
        &&& #[trigger] before.dirs.contains_key(name) == after.dirs.contains_key(name)
        &&& before.dirs.contains_key(name) ==> before.dirs[name] == after.dirs[name]
    } by {
        let same = before.dirs.remove(dir);
        assert(same.contains_key(name) == before.dirs.contains_key(name));
        assert(same.contains_key(name) == after.dirs.contains_key(name));
        if same.contains_key(name) {
            assert(same[name] == before.dirs[name]);
            assert(same[name] == after.dirs[name]);
        }
    }
    assert(before.listed() =~= after.listed());
}

/// A promoted run is listed beside the others.
proof fn lemma_listed_run(base: Disk, run_id: Seq<char>, files: Map<Seq<char>, Seq<char>>)
    requires
        runs::is_run_id(run_id),
    ensures
        with_dir(base, run_id, files).listed() == base.listed().insert(run_id, files),
{
    assert(with_dir(base, run_id, files).listed() =~= base.listed().insert(run_id, files));
}

/// Each step of a session keeps the disk in order, whether it succeeds or
/// fails: from the start to the end, the disk stands to the one that the session
/// began on as the phase says.
pub proof fn law_storing_keeps_order(
    session: StoreSession,
    event: StoreEvent,
    next: StoreSession,
    base: Disk,
    disk: Disk,
    left: Disk,
    encode: spec_fn(RunMetadata) -> Seq<char>,
)
    requires
        storing(session, base, disk, encode),
        is_step(session, disk, event, next, left, encode),
    ensures
        storing(next, base, left, encode),
{
    match session.phase {
        StorePhase::CreatingRunsDir => {
            assert(stages_only(base, disk, Seq::empty()));
        },
        StorePhase::MeasuringRunsDir => {
            assert(stages_only(base, disk, Seq::empty()));
        },
        StorePhase::ChoosingRunId { .. } => {
            assert(stages_only(base, disk, Seq::empty()));
        },
        StorePhase::EncodingMetadata { .. } => {
            assert(stages_only(base, disk, Seq::empty()));
        },
        StorePhase::CreatingStagingDir(metadata, _) => {
            let dir = store::staging_name(metadata.run_id@);
            if event is Done {
                assert(left == with_dir(base, dir, Map::empty()));
            } else if event is Failed {
                assert(stages_only(base, left, metadata.run_id@));
            }
        },
        StorePhase::WritingMetadataJson(metadata, encoded) => {
            let json = encode(metadata);
            let files = Map::<Seq<char>, Seq<char>>::empty();
            lemma_staged_write(session, event, base, disk, left, metadata, json, files);
            assert(files.insert("metadata.json"@, json) =~= map!["metadata.json"@ => json]);
        },
        StorePhase::WritingMetadataToml(metadata) => {
            let json = encode(metadata);
            let files = map!["metadata.json"@ => json];
            lemma_staged_write(session, event, base, disk, left, metadata, json, files);
        },
        StorePhase::WritingLog(metadata) => {
            let json = encode(metadata);
            let files = map!["metadata.json"@ => json].insert(
                "metadata.toml"@,
                runs::metadata_toml_text(metadata),
            );
            lemma_staged_write(session, event, base, disk, left, metadata, json, files);
        },
        StorePhase::Promoting(metadata) => {
            let json = encode(metadata);
            let files = run_files(session, metadata, json);
            lemma_staging_is_only_staged(session, base, disk, metadata, json, files);
            let promoted = disk.after(session.pending_action());
            assert(promoted.dirs =~= base.dirs.insert(metadata.run_id@, files));
            assert(promoted == with_dir(base, metadata.run_id@, files));
            lemma_promoted_run_is_listed(session, base, promoted, metadata, json);
            assert(has_added_run(next, base, promoted, metadata, encode));
        },
        StorePhase::RecordingLatest(metadata) => {
            let json = encode(metadata);
            lemma_promoted_run_is_listed(session, base, left, metadata, json);
            assert(has_added_run(next, base, left, metadata, encode));
            if let StorePhase::Finished(Ok(stored)) = next.phase {
                assert(is_stored(next, base, left, metadata, encode, stored));
            }
        },
        StorePhase::Finished(_) => {
            lemma_finished_keeps(session, next, base, disk, encode);
        },
    }
}

/// What holds of a finished session holds of it with the same upload and phase.
proof fn lemma_finished_keeps(
    session: StoreSession,
    next: StoreSession,
    base: Disk,
    disk: Disk,
    encode: spec_fn(RunMetadata) -> Seq<char>,
)
    requires
        storing(session, base, disk, encode),
        session.phase is Finished,
        next.same_upload(session),
        next.phase == session.phase,
    ensures
        storing(next, base, disk, encode),
{
    match session.phase {
        StorePhase::Finished(Ok(stored)) => {
            let metadata = choose|metadata: RunMetadata| #[trigger]
                is_stored(session, base, disk, metadata, encode, stored);
            assert(is_stored(next, base, disk, metadata, encode, stored));
        },
        StorePhase::Finished(Err(_)) => {
            if exists|metadata: RunMetadata| #[trigger]
                has_added_run(session, base, disk, metadata, encode) {
                let metadata = choose|metadata: RunMetadata| #[trigger]
                    has_added_run(session, base, disk, metadata, encode);
                assert(has_added_run(next, base, disk, metadata, encode));
            }
        },
        _ => {},
    }
}

/// A staged run differs from what was there in its staging directory alone.
proof fn lemma_staging_is_only_staged(
    session: StoreSession,
    base: Disk,
    disk: Disk,
    metadata: RunMetadata,
    json: Seq<char>,
    files: Map<Seq<char>, Seq<char>>,
)
    requires
        is_staged(session, base, disk, metadata, json, files),
    ensures
        stages_only(base, disk, metadata.run_id@),
{
    let dir = store::staging_name(metadata.run_id@);
    assert(base.dirs.remove(dir) =~= disk.dirs.remove(dir));
}

/// What is only staged does not show among the listed runs.
proof fn lemma_staging_is_unlisted(base: Disk, disk: Disk, run_id: Seq<char>)
    requires
        stages_only(base, disk, run_id),
    ensures
        disk.listed() == base.listed(),
{
    law_staged_runs_are_not_listed(run_id);
    lemma_unlisted_dir(base, disk, store::staging_name(run_id));
}

/// Writing a staged file adds it to the staged run, or fails within it.
proof fn lemma_staged_write(
    session: StoreSession,
    event: StoreEvent,
    base: Disk,
    disk: Disk,
    left: Disk,
    metadata: RunMetadata,
    json: Seq<char>,
    files: Map<Seq<char>, Seq<char>>,
)
    requires
        is_staged(session, base, disk, metadata, json, files),
        disk.answers(session.pending_action(), event, left),
        session.pending_action() matches ActionText::WriteStagedFile { dir, .. } && dir
            == store::staging_name(metadata.run_id@),
    ensures
        event is Done ==> (session.pending_action() matches ActionText::WriteStagedFile {
            file,
            content,
            ..
        } ==> is_staged(session, base, left, metadata, json, files.insert(file, content))),
        stages_only(base, left, metadata.run_id@),
{
    let dir = store::staging_name(metadata.run_id@);
    lemma_staging_is_only_staged(session, base, disk, metadata, json, files);
    if let ActionText::WriteStagedFile { file, content, .. } = session.pending_action() {
        if event is Done {
            assert(left.dirs =~= base.dirs.insert(dir, files.insert(file, content)));
            assert(left == with_dir(base, dir, files.insert(file, content)));
        }
    }
    assert(disk.dirs.remove(dir) =~= left.dirs.remove(dir));
}

/// One step of a session on a disk: the session goes on from how its pending
/// action went. Metadata is encoded by `encode`.
pub open spec fn is_step(
    session: StoreSession,
    disk: Disk,
    event: StoreEvent,
    next: StoreSession,
    left: Disk,
    encode: spec_fn(RunMetadata) -> Seq<char>,
) -> bool {
    &&& disk.answers(session.pending_action(), event, left)
    &&& event matches StoreEvent::Encoded(json) ==> (
    session.phase matches StorePhase::EncodingMetadata { metadata, .. } ==> json@ == encode(
        metadata,
    ))
    &&& next.same_upload(session)
    &&& session.goes_on(event, next.phase)
}

/// The steps of a session from its start, with the disk before and after each.
pub open spec fn is_history(
    sessions: Seq<StoreSession>,
    disks: Seq<Disk>,
    events: Seq<StoreEvent>,
    encode: spec_fn(RunMetadata) -> Seq<char>,
) -> bool {
    &&& sessions.len() == events.len() + 1
    &&& disks.len() == events.len() + 1
    &&& sessions[0].phase is CreatingRunsDir
    &&& forall|i: int|
        0 <= i < events.len() ==> is_step(
            sessions[i],
            disks[i],
            #[trigger] events[i],
            sessions[i + 1],
            disks[i + 1],
            encode,
        )
}

/// However many steps a session has taken from its start, and whatever failed, the
/// disk stands to the one that the session began on as the phase says, and the
/// session deals with the same upload.
pub proof fn law_sessions_keep_order(
    sessions: Seq<StoreSession>,
    disks: Seq<Disk>,
    events: Seq<StoreEvent>,
    encode: spec_fn(RunMetadata) -> Seq<char>,
    i: int,
)
    requires
        is_history(sessions, disks, events, encode),
        0 <= i < sessions.len(),
    ensures
        storing(sessions[i], disks[0], disks[i], encode),
        sessions[i].same_upload(sessions[0]),
    decreases i,
{
    if i > 0 {
        law_sessions_keep_order(sessions, disks, events, encode, i - 1);
        let event = events[i - 1];
        law_storing_keeps_order(
            sessions[i - 1],
            event,
            sessions[i],
            disks[0],
            disks[i - 1],
            disks[i],
            encode,
        );
    }
}

/// A session that has ended stays as it is, and so does the disk.
proof fn lemma_finished_stays(
    sessions: Seq<StoreSession>,
    disks: Seq<Disk>,
    events: Seq<StoreEvent>,
    encode: spec_fn(RunMetadata) -> Seq<char>,
    i: int,
)
    requires
        is_history(sessions, disks, events, encode),
        0 <= i < sessions.len(),
        sessions[i].phase is Finished,
    ensures
        sessions.last().phase == sessions[i].phase,
        disks.last() == disks[i],
    decreases sessions.len() - i,
{
    if i < events.len() {
        let event = events[i];
        assert(is_step(sessions[i], disks[i], event, sessions[i + 1], disks[i + 1], encode));
        lemma_finished_stays(sessions, disks, events, encode, i + 1);
    }
}

/// A session that fails before its run is promoted changes nothing but its staging
/// directory: the other directories, the runs among them, and the record of the
/// latest run are as they were, for good.
pub proof fn law_failures_before_promotion_only_stage(
    sessions: Seq<StoreSession>,
    disks: Seq<Disk>,
    events: Seq<StoreEvent>,
    encode: spec_fn(RunMetadata) -> Seq<char>,
    i: int,
)
    requires
        is_history(sessions, disks, events, encode),
        0 <= i < events.len(),
        !(sessions[i].phase is Promoting),
        !(sessions[i].phase is RecordingLatest),
        !(sessions[i].phase is Finished),
        sessions[i + 1].phase matches StorePhase::Finished(Err(_)),
    ensures
        exists|run_id: Seq<char>| #[trigger] stages_only(disks[0], disks.last(), run_id),
        disks.last().listed() == disks[0].listed(),
        sessions.last().phase == sessions[i + 1].phase,
{
    law_sessions_keep_order(sessions, disks, events, encode, i);
    let session = sessions[i];
    let event = events[i];
    let base = disks[0];
    let disk = disks[i];
    let left = disks[i + 1];
    assert(is_step(session, disk, event, sessions[i + 1], left, encode));
    let run_id = match session.phase {
        StorePhase::CreatingStagingDir(metadata, _) => metadata.run_id@,
        StorePhase::WritingMetadataJson(metadata, _) => {
            let files = Map::empty();
            let json = encode(metadata);
            lemma_staged_write(session, event, base, disk, left, metadata, json, files);
            metadata.run_id@
        },
        StorePhase::WritingMetadataToml(metadata) => {
            let json = encode(metadata);
            let files = map!["metadata.json"@ => json];
            lemma_staged_write(session, event, base, disk, left, metadata, json, files);
            metadata.run_id@
        },
        StorePhase::WritingLog(metadata) => {
            let json = encode(metadata);
            let files = map!["metadata.json"@ => json].insert(
                "metadata.toml"@,
                runs::metadata_toml_text(metadata),
            );
            lemma_staged_write(session, event, base, disk, left, metadata, json, files);
            metadata.run_id@
        },
        _ => Seq::empty(),
    };
    assert(stages_only(base, left, run_id));
    lemma_staging_is_unlisted(base, left, run_id);
    lemma_finished_stays(sessions, disks, events, encode, i + 1);
}

/// At every moment the runs that can be listed are those from before the
/// session, or those and the session's own run with all of its files.
pub proof fn law_runs_appear_whole(
    session: StoreSession,
    base: Disk,
    disk: Disk,
    encode: spec_fn(RunMetadata) -> Seq<char>,
)
    requires
        storing(session, base, disk, encode),
    ensures
        disk.listed() == base.listed() || exists|metadata: RunMetadata| #[trigger]
            has_added_run(session, base, disk, metadata, encode),
{
    match session.phase {
        StorePhase::WritingMetadataJson(metadata, _) => {
            let files = Map::empty();
            lemma_staging_is_only_staged(session, base, disk, metadata, encode(metadata), files);
            lemma_staging_is_unlisted(base, disk, metadata.run_id@);
        },
        StorePhase::WritingMetadataToml(metadata) => {
            let files = map!["metadata.json"@ => encode(metadata)];
            lemma_staging_is_only_staged(session, base, disk, metadata, encode(metadata), files);
            lemma_staging_is_unlisted(base, disk, metadata.run_id@);
        },
        StorePhase::WritingLog(metadata) => {
            let files = map!["metadata.json"@ => encode(metadata)].insert(
                "metadata.toml"@,
                runs::metadata_toml_text(metadata),
            );
            lemma_staging_is_only_staged(session, base, disk, metadata, encode(metadata), files);
            lemma_staging_is_unlisted(base, disk, metadata.run_id@);
        },
        StorePhase::Promoting(metadata) => {
            let files = run_files(session, metadata, encode(metadata));
            lemma_staging_is_only_staged(session, base, disk, metadata, encode(metadata), files);
            lemma_staging_is_unlisted(base, disk, metadata.run_id@);
        },
        StorePhase::RecordingLatest(metadata) => {
            lemma_promoted_run_is_listed(session, base, disk, metadata, encode(metadata));
            assert(has_added_run(session, base, disk, metadata, encode));
        },
        StorePhase::Finished(Ok(stored)) => {
            law_stored_run_reads_back(session, stored, base, disk, encode);
        },
        StorePhase::Finished(Err(StoreError::QuotaExceeded(_))) => {},
        StorePhase::Finished(Err(_)) => {
            if exists|run_id: Seq<char>| #[trigger] stages_only(base, disk, run_id) {
                let run_id = choose|run_id: Seq<char>| #[trigger] stages_only(base, disk, run_id);
                lemma_staging_is_unlisted(base, disk, run_id);
            }
        },
        _ => {},
    }
}

/// A promoted run is listed with its files.
proof fn lemma_promoted_run_is_listed(
    session: StoreSession,
    base: Disk,
    disk: Disk,
    metadata: RunMetadata,
    json: Seq<char>,
)
    requires
        is_placed(session, base, metadata),
        disk.dirs == base.dirs.insert(metadata.run_id@, run_files(session, metadata, json)),
    ensures
        disk.listed() == base.listed().insert(
            metadata.run_id@,
            run_files(session, metadata, json),
        ),
{
    let files = run_files(session, metadata, json);
    runs::law_generated_run_ids_are_valid(metadata.received_at_unix_ms as nat, metadata.run_id@);
    lemma_listed_run(base, metadata.run_id@, files);
    assert(disk.listed() =~= with_dir(base, metadata.run_id@, files).listed());
}

/// A run that the uploader is told was stored can be listed under the
/// identifier that the uploader is given; its files are the redacted log, the
/// metadata as text and the metadata as JSON, and no others; the runs from
/// before are as they were; and the record of the latest run names it.
pub proof fn law_stored_run_reads_back(
    session: StoreSession,
    stored: StoredRun,
    base: Disk,
    disk: Disk,
    encode: spec_fn(RunMetadata) -> Seq<char>,
)
    requires
        storing(session, base, disk, encode),
        session.phase == StorePhase::Finished(Ok(stored)),
    ensures
        exists|metadata: RunMetadata| #[trigger]
            has_added_run(session, base, disk, metadata, encode) && metadata.run_id == stored.run_id
                && disk.listed()[stored.run_id@] == run_files(session, metadata, encode(metadata))
                && disk.listed()[stored.run_id@]["metadata.toml"@] == runs::metadata_toml_text(
                metadata,
            ) && disk.listed()[stored.run_id@]["metadata.json"@] == encode(metadata),
        runs::is_run_id(stored.run_id@),
        !base.listed().contains_key(stored.run_id@),
        disk.listed().contains_key(stored.run_id@),
        disk.listed()[stored.run_id@].dom() == set![
            "metadata.json"@,
            "metadata.toml"@,
            "vapor.log"@,
        ],
        disk.listed()[stored.run_id@]["vapor.log"@] == session.log_text@,
        forall|other: Seq<char>| #[trigger]
            base.listed().contains_key(other) ==> disk.listed().contains_key(other)
                && disk.listed()[other] == base.listed()[other],
        disk.latest == Some(stored.run_id@ + "\n"@),
        stored.stored_bytes == session.log_bytes(),
        stored.redaction_count == session.redaction_count,
{
    let metadata = choose|metadata: RunMetadata| #[trigger]
        is_stored(session, base, disk, metadata, encode, stored);
    lemma_promoted_run_is_listed(session, base, disk, metadata, encode(metadata));
    runs::law_generated_run_ids_are_valid(metadata.received_at_unix_ms as nat, metadata.run_id@);
    assert(has_added_run(session, base, disk, metadata, encode));
    lemma_file_names_differ();
    assert(disk.listed()[stored.run_id@].dom() =~= set![
        "metadata.json"@,
        "metadata.toml"@,
        "vapor.log"@,
    ]);
}

/// The metadata that was recorded of a stored run.
proof fn lemma_recorded(
    session: StoreSession,
    stored: StoredRun,
    base: Disk,
    disk: Disk,
    encode: spec_fn(RunMetadata) -> Seq<char>,
) -> (metadata: RunMetadata)
    requires
        storing(session, base, disk, encode),
        session.phase == StorePhase::Finished(Ok(stored)),
    ensures
        is_placed(session, base, metadata),
        metadata.run_id == stored.run_id,
        disk.listed()[stored.run_id@]["metadata.toml"@] == runs::metadata_toml_text(metadata),
        disk.listed()[stored.run_id@]["metadata.json"@] == encode(metadata),
{
    law_stored_run_reads_back(session, stored, base, disk, encode);
    choose|metadata: RunMetadata| #[trigger]
        has_added_run(session, base, disk, metadata, encode) && metadata.run_id == stored.run_id
            && disk.listed()[stored.run_id@] == run_files(session, metadata, encode(metadata))
            && disk.listed()[stored.run_id@]["metadata.toml"@] == runs::metadata_toml_text(metadata)
            && disk.listed()[stored.run_id@]["metadata.json"@] == encode(metadata)
}

/// A run that the uploader is told was stored is found when it is downloaded as
/// plain text, with the text of its metadata and its redacted log.
pub proof fn law_stored_run_is_found(
    session: StoreSession,
    stored: StoredRun,
    base: Disk,
    disk: Disk,
    encode: spec_fn(RunMetadata) -> Seq<char>,
)
    requires
        storing(session, base, disk, encode),
        session.phase == StorePhase::Finished(Ok(stored)),
    ensures
        ({
            let files = disk.listed()[stored.run_id@];
            api::download_answer(stored.run_id@, files["metadata.toml"@], files["vapor.log"@]) == (
                api::OK,
                api::run_text(stored.run_id@, files["metadata.toml"@], session.log_text@),
            )
        }),
{
    law_stored_run_reads_back(session, stored, base, disk, encode);
    let metadata = lemma_recorded(session, stored, base, disk, encode);
    reveal_strlit("schema_version = ");
    assert(runs::metadata_toml_text(metadata).len() > 0);
}

/// A report that the uploader is told was stored is found when it is downloaded as
/// a report: under the identifier that the uploader is given, with its redacted log,
/// and with metadata that names this identifier, the size of that log and the
/// format, and the client version and platform of the report. `decode` is how the
/// JSON of metadata is read, which gives back what `encode` wrote.
pub proof fn law_stored_report_is_found(
    report: DiagnosticsReportV2,
    body_bytes: nat,
    upload: Upload,
    max_stored_bytes: u64,
    sessions: Seq<StoreSession>,
    disks: Seq<Disk>,
    events: Seq<StoreEvent>,
    encode: spec_fn(RunMetadata) -> Seq<char>,
    decode: spec_fn(Seq<char>) -> Option<RunMetadata>,
    stored: StoredRun,
    reply: Reply,
)
    requires
        api::is_report_upload(report, body_bytes, upload),
        sessions[0].takes_up(upload, max_stored_bytes),
        is_history(sessions, disks, events, encode),
        sessions.last().phase == StorePhase::Finished(Ok(stored)),
        forall|metadata: RunMetadata| decode(#[trigger] encode(metadata)) == Some(metadata),
    ensures
        runs::is_run_id(stored.run_id@),
        disks.last().listed().contains_key(stored.run_id@),
        ({
            let files = disks.last().listed()[stored.run_id@];
            let log = redact::redacted_text(report.prepared_text());
            &&& files["vapor.log"@] == log
            &&& decode(files["metadata.json"@]) matches Some(metadata) && {
                &&& metadata.run_id == stored.run_id
                &&& metadata.source_format@ == "diagnostics-report-v2"@
                &&& metadata.client_version == report.client_version
                &&& metadata.platform == report.platform
                &&& metadata.original_bytes == body_bytes
                &&& metadata.stored_bytes == encode_utf8(log).len()
                &&& metadata.redaction_count == redact::redaction_count(report.prepared_text())
                &&& api::is_report_reply(metadata, files["vapor.log"@], reply) ==> {
                    &&& reply.status == api::OK
                    &&& reply.body matches ReplyBody::Run(detail) && {
                        &&& detail.metadata == metadata
                        &&& detail.vapor_log@ == log
                    }
                }
            }
        }),
{
    let session = sessions.last();
    law_sessions_keep_order(sessions, disks, events, encode, sessions.len() - 1);
    law_stored_run_reads_back(session, stored, disks[0], disks.last(), encode);
    let metadata = lemma_recorded(session, stored, disks[0], disks.last(), encode);
    assert(decode(encode(metadata)) == Some(metadata));
}

/// Of an upload only the redacted text is stored: a session that took up the upload
/// and ended well left just that as the log of its run.
pub proof fn law_stored_logs_are_redacted(
    upload: Upload,
    max_stored_bytes: u64,
    sessions: Seq<StoreSession>,
    disks: Seq<Disk>,
    events: Seq<StoreEvent>,
    encode: spec_fn(RunMetadata) -> Seq<char>,
    stored: StoredRun,
)
    requires
        sessions[0].takes_up(upload, max_stored_bytes),
        is_history(sessions, disks, events, encode),
        sessions.last().phase == StorePhase::Finished(Ok(stored)),
    ensures
        disks.last().listed().contains_key(stored.run_id@),
        disks.last().listed()[stored.run_id@]["vapor.log"@] == redact::redacted_text(
            upload.raw_text@,
        ),
        stored.redaction_count == redact::redaction_count(upload.raw_text@),
{
    law_sessions_keep_order(sessions, disks, events, encode, sessions.len() - 1);
    law_stored_run_reads_back(sessions.last(), stored, disks[0], disks.last(), encode);
}

/// The sum of named sizes does not depend on the order in which they are added.
proof fn lemma_sum_remove(sizes: Map<Seq<char>, nat>, name: Seq<char>)
    requires
        sizes.dom().finite(),
        sizes.contains_key(name),
    ensures
        sum(sizes) == sizes[name] + sum(sizes.remove(name)),
    decreases sizes.dom().len(),
{
    let first = sizes.dom().choose();
    if first != name {
        lemma_sum_remove(sizes.remove(first), name);
        lemma_sum_remove(sizes.remove(name), first);
        assert(sizes.remove(first).remove(name) =~= sizes.remove(name).remove(first));
    }
}

/// A size under a new name adds to the sum.
proof fn lemma_sum_insert(sizes: Map<Seq<char>, nat>, name: Seq<char>, size: nat)
    requires
        sizes.dom().finite(),
        !sizes.contains_key(name),
    ensures
        sum(sizes.insert(name, size)) == sum(sizes) + size,
{
    lemma_sum_remove(sizes.insert(name, size), name);
    assert(sizes.insert(name, size).remove(name) =~= sizes);
}

/// A file of a new name adds its size.
proof fn lemma_file_bytes_insert(
    files: Map<Seq<char>, Seq<char>>,
    name: Seq<char>,
    content: Seq<char>,
)
    requires
        files.dom().finite(),
        !files.contains_key(name),
    ensures
        file_bytes(files.insert(name, content)) == file_bytes(files) + encode_utf8(content).len(),
{
    let size = |content: Seq<char>| encode_utf8(content).len();
    assert(files.map_values(size).dom() =~= files.dom());
    lemma_sum_insert(files.map_values(size), name, encode_utf8(content).len());
    assert(files.insert(name, content).map_values(size) =~= files.map_values(size).insert(
        name,
        encode_utf8(content).len(),
    ));
}

/// A directory of a new name adds the size of its files.
proof fn lemma_size_with_dir(base: Disk, name: Seq<char>, files: Map<Seq<char>, Seq<char>>)
    requires
        base.dirs.dom().finite(),
        !base.dirs.contains_key(name),
    ensures
        with_dir(base, name, files).size() == base.size() + file_bytes(files),
{
    let size = |files: Map<Seq<char>, Seq<char>>| file_bytes(files);
    assert(base.dirs.map_values(size).dom() =~= base.dirs.dom());
    lemma_sum_insert(base.dirs.map_values(size), name, file_bytes(files));
    assert(base.dirs.insert(name, files).map_values(size) =~= base.dirs.map_values(size).insert(
        name,
        file_bytes(files),
    ));
}

/// The files of a run have the size that is held against the quota.
proof fn lemma_run_bytes(session: StoreSession, metadata: RunMetadata, json: Seq<char>)
    ensures
        file_bytes(run_files(session, metadata, json)) == session.run_bytes(metadata, json),
{
    lemma_file_names_differ();
    let none = Map::<Seq<char>, Seq<char>>::empty();
    let one = none.insert("metadata.json"@, json);
    let two = one.insert("metadata.toml"@, runs::metadata_toml_text(metadata));
    lemma_file_bytes_insert(none, "metadata.json"@, json);
    lemma_file_bytes_insert(one, "metadata.toml"@, runs::metadata_toml_text(metadata));
    lemma_file_bytes_insert(two, "vapor.log"@, session.log_text@);
    assert(none.map_values(|content: Seq<char>| encode_utf8(content).len()).dom() =~= Set::empty());
    assert(run_files(session, metadata, json) =~= two.insert("vapor.log"@, session.log_text@));
}

/// The files of a run have three different names.
proof fn lemma_file_names_differ()
    ensures
        "metadata.json"@ != "metadata.toml"@,
        "metadata.json"@ != "vapor.log"@,
        "metadata.toml"@ != "vapor.log"@,
{
    reveal_strlit("metadata.json");
    reveal_strlit("metadata.toml");
    reveal_strlit("vapor.log");
    assert("metadata.json"@[9] == 'j' && "metadata.toml"@[9] == 't');
    assert("vapor.log"@.len() == 9 && "metadata.json"@.len() == 13 && "metadata.toml"@.len() == 13);
}

/// When an upload was stored, everything that is stored then, the new run with
/// all of its files included, is within the quota. This holds of every quota but
/// the largest number there is, beyond which sizes cannot be counted.
pub proof fn law_stored_bytes_stay_within_the_quota(
    sessions: Seq<StoreSession>,
    disks: Seq<Disk>,
    events: Seq<StoreEvent>,
    encode: spec_fn(RunMetadata) -> Seq<char>,
    stored: StoredRun,
)
    requires
        is_history(sessions, disks, events, encode),
        disks[0].is_finite(),
        sessions[0].max_stored_bytes < u64::MAX,
        sessions.last().phase == StorePhase::Finished(Ok(stored)),
    ensures
        disks.last().size() <= sessions[0].max_stored_bytes,
{
    law_sessions_keep_order(sessions, disks, events, encode, sessions.len() - 1);
    let session = sessions.last();
    let base = disks[0];
    let metadata = choose|metadata: RunMetadata| #[trigger]
        is_stored(session, base, disks.last(), metadata, encode, stored);
    let json = encode(metadata);
    lemma_size_with_dir(base, metadata.run_id@, run_files(session, metadata, json));
    lemma_run_bytes(session, metadata, json);
}

/// An upload that is refused for the quota changes nothing on the disk, whatever
/// the session did before it was refused.
pub proof fn law_exceeding_the_quota_changes_nothing(
    sessions: Seq<StoreSession>,
    disks: Seq<Disk>,
    events: Seq<StoreEvent>,
    encode: spec_fn(RunMetadata) -> Seq<char>,
)
    requires
        is_history(sessions, disks, events, encode),
        sessions.last().phase matches StorePhase::Finished(Err(StoreError::QuotaExceeded(_))),
    ensures
        disks.last() == disks[0],
{
    law_sessions_keep_order(sessions, disks, events, encode, sessions.len() - 1);
}

/// An upload whose log does not fit the quota beside what is stored is refused for
/// that, whatever happens after the size became known, and changes nothing.
pub proof fn law_oversized_logs_are_refused(
    sessions: Seq<StoreSession>,
    disks: Seq<Disk>,
    events: Seq<StoreEvent>,
    encode: spec_fn(RunMetadata) -> Seq<char>,
    i: int,
    current: u64,
)
    requires
        is_history(sessions, disks, events, encode),
        0 <= i < events.len(),
        sessions[i].phase is MeasuringRunsDir,
        events[i] == StoreEvent::Measured(current),
        store::size_after(current, sessions[0].log_bytes()) > sessions[0].max_stored_bytes,
    ensures
        sessions.last().phase matches StorePhase::Finished(
            Err(StoreError::QuotaExceeded(message)),
        ) && message@ == store::quota_message(
            current,
            sessions[0].log_bytes(),
            sessions[0].max_stored_bytes,
        ),
        disks.last() == disks[0],
{
    law_sessions_keep_order(sessions, disks, events, encode, i);
    assert(is_step(sessions[i], disks[i], events[i], sessions[i + 1], disks[i + 1], encode));
    lemma_finished_stays(sessions, disks, events, encode, i + 1);
    law_exceeding_the_quota_changes_nothing(sessions, disks, events, encode);
}

/// The sizes of the files of a directory, taken one by one, add up to the size of
/// its files.
pub proof fn law_measured_files_add_up(
    files: Map<Seq<char>, Seq<char>>,
    names: Seq<Seq<char>>,
    entries: Seq<EntrySize>,
)
    requires
        names.no_duplicates(),
        names.len() == entries.len(),
        forall|name: Seq<char>| #[trigger] files.contains_key(name) <==> names.contains(name),
        forall|i: int|
            0 <= i < entries.len() ==> (#[trigger] entries[i] matches EntrySize::File(size) && size
                == encode_utf8(files[names[i]]).len()),
    ensures
        files.dom().finite(),
        store::total_bytes(entries) == file_bytes(files),
    decreases names.len(),
{
    let size = |content: Seq<char>| encode_utf8(content).len();
    if names.len() == 0 {
        assert(files.dom() =~= Set::empty()) by {
            assert forall|name: Seq<char>| !files.dom().contains(name) by {
                assert(files.contains_key(name) <==> names.contains(name));
            }
        }
        assert(files.map_values(size).dom() =~= Set::empty());
    } else {
        let last = names.last();
        let rest = files.remove(last);
        assert(names[names.len() - 1] == last);
        assert(names.contains(last));
        assert forall|name: Seq<char>| #[trigger]
            rest.contains_key(name) <==> names.drop_last().contains(name) by {
            assert(files.contains_key(name) <==> names.contains(name));
            lemma_contains_drop_last(names, name);
        }
        assert forall|i: int| 0 <= i < entries.drop_last().len() implies (
        #[trigger] entries.drop_last()[i] matches EntrySize::File(size) && size == encode_utf8(
            rest[names.drop_last()[i]],
        ).len()) by {
            assert(entries[i] matches EntrySize::File(size) && size == encode_utf8(
                files[names[i]],
            ).len());
            assert(names[i] != last);
        }
        law_measured_files_add_up(rest, names.drop_last(), entries.drop_last());
        assert(files =~= rest.insert(last, files[last]));
        lemma_file_bytes_insert(rest, last, files[last]);
        assert(entries[entries.len() - 1] matches EntrySize::File(size) && size == encode_utf8(
            files[last],
        ).len());
        assert(files.dom() =~= rest.dom().insert(last));
    }
}

proof fn lemma_contains_drop_last(names: Seq<Seq<char>>, name: Seq<char>)
    requires
        names.len() > 0,
        names.no_duplicates(),
    ensures
        names.drop_last().contains(name) <==> names.contains(name) && name != names.last(),
{
    if names.drop_last().contains(name) {
        let i = choose|i: int| 0 <= i < names.drop_last().len() && names.drop_last()[i] == name;
        assert(names[i] == name);
        assert(names[i] != names[names.len() - 1]);
    }
    if names.contains(name) && name != names.last() {
        let i = choose|i: int| 0 <= i < names.len() && names[i] == name;
        assert(names.drop_last()[i] == name);
    }
}

/// The size that is measured of the directory that holds the runs, from the sizes
/// of its subdirectories and of whatever else lies there, is the size of the disk, as
/// far as sizes can be counted.
pub proof fn law_measured_size_is_that_of_the_disk(
    disk: Disk,
    names: Seq<Seq<char>>,
    entries: Seq<EntrySize>,
    others: Seq<EntrySize>,
)
    requires
        names.no_duplicates(),
        names.len() == entries.len(),
        forall|name: Seq<char>| #[trigger] disk.dirs.contains_key(name) <==> names.contains(name),
        forall|i: int|
            0 <= i < entries.len() ==> (#[trigger] entries[i] matches EntrySize::Directory(size)
                && size == store::capped(file_bytes(disk.dirs[names[i]]))),
        store::total_bytes(others) == disk.others,
    ensures
        store::capped(store::total_bytes(entries + others)) == store::capped(disk.size()),
{
    lemma_measured_dirs_add_up(disk.dirs, names, entries);
    store::law_each_entry_adds_its_size(entries, others, 0);
}

proof fn lemma_measured_dirs_add_up(
    dirs: Map<Seq<char>, Map<Seq<char>, Seq<char>>>,
    names: Seq<Seq<char>>,
    entries: Seq<EntrySize>,
)
    requires
        names.no_duplicates(),
        names.len() == entries.len(),
        forall|name: Seq<char>| #[trigger] dirs.contains_key(name) <==> names.contains(name),
        forall|i: int|
            0 <= i < entries.len() ==> (#[trigger] entries[i] matches EntrySize::Directory(size)
                && size == store::capped(file_bytes(dirs[names[i]]))),
    ensures
        dirs.dom().finite(),
        store::capped(store::total_bytes(entries)) == store::capped(dir_bytes(dirs)),
    decreases names.len(),
{
    let size = |files: Map<Seq<char>, Seq<char>>| file_bytes(files);
    if names.len() == 0 {
        assert(dirs.dom() =~= Set::empty()) by {
            assert forall|name: Seq<char>| !dirs.dom().contains(name) by {
                assert(dirs.contains_key(name) <==> names.contains(name));
            }
        }
        assert(dirs.map_values(size).dom() =~= Set::empty());
    } else {
        let last = names.last();
        let rest = dirs.remove(last);
        assert(names[names.len() - 1] == last);
        assert(names.contains(last));
        assert forall|name: Seq<char>| #[trigger]
            rest.contains_key(name) <==> names.drop_last().contains(name) by {
            assert(dirs.contains_key(name) <==> names.contains(name));
            lemma_contains_drop_last(names, name);
        }
        assert forall|i: int| 0 <= i < entries.drop_last().len() implies (
        #[trigger] entries.drop_last()[i] matches EntrySize::Directory(size) && size
            == store::capped(file_bytes(rest[names.drop_last()[i]]))) by {
            assert(entries[i] matches EntrySize::Directory(size) && size == store::capped(
                file_bytes(dirs[names[i]]),
            ));
            assert(names[i] != last);
        }
        lemma_measured_dirs_add_up(rest, names.drop_last(), entries.drop_last());
        assert(dirs =~= rest.insert(last, dirs[last]));
        assert(rest.map_values(size).dom() =~= rest.dom());
        lemma_sum_insert(rest.map_values(size), last, file_bytes(dirs[last]));
        assert(dirs.map_values(size) =~= rest.map_values(size).insert(last, file_bytes(dirs[last])));
        assert(entries[entries.len() - 1] matches EntrySize::Directory(size) && size
            == store::capped(file_bytes(dirs[last])));
        assert(dirs.dom() =~= rest.dom().insert(last));
    }
}

/// What is recorded of a stored run is what was uploaded and when: the format, the
/// client version, the platform and the size of the upload, the size and the number
/// of redactions of its redacted text, an identifier made of the time of receipt, and
/// that neither hostname nor machine were collected. The metadata file of the run is
/// made from this record.
pub proof fn law_stored_runs_record_the_upload(
    upload: Upload,
    max_stored_bytes: u64,
    sessions: Seq<StoreSession>,
    disks: Seq<Disk>,
    events: Seq<StoreEvent>,
    encode: spec_fn(RunMetadata) -> Seq<char>,
    stored: StoredRun,
) -> (metadata: RunMetadata)
    requires
        sessions[0].takes_up(upload, max_stored_bytes),
        is_history(sessions, disks, events, encode),
        sessions.last().phase == StorePhase::Finished(Ok(stored)),
    ensures
        disks.last().listed()[stored.run_id@]["metadata.json"@] == encode(metadata),
        disks.last().listed()[stored.run_id@]["metadata.toml"@] == runs::metadata_toml_text(
            metadata,
        ),
        metadata.schema_version == 2,
        metadata.run_id == stored.run_id,
        metadata.source_format == upload.source_format,
        metadata.client_version == upload.client_version,
        metadata.platform == upload.platform,
        metadata.original_bytes == upload.original_bytes,
        metadata.stored_bytes == encode_utf8(redact::redacted_text(upload.raw_text@)).len(),
        metadata.redaction_count == redact::redaction_count(upload.raw_text@),
        metadata.received_at_unix_ms / 1000 <= u64::MAX ==> metadata.received_at_unix
            == metadata.received_at_unix_ms / 1000,
        exists|uuid: Seq<char>|
            runs::is_uuid_v4_text(uuid) && stored.run_id@ == #[trigger] runs::run_id_text(
                metadata.received_at_unix_ms as nat,
                uuid,
            ),
        !metadata.hostname_collected,
        !metadata.persistent_machine_id_collected,
        stored.stored_bytes == metadata.stored_bytes,
        stored.redaction_count == metadata.redaction_count,
{
    law_sessions_keep_order(sessions, disks, events, encode, sessions.len() - 1);
    law_stored_run_reads_back(sessions.last(), stored, disks[0], disks.last(), encode);
    lemma_recorded(sessions.last(), stored, disks[0], disks.last(), encode)
}

} // verus!
