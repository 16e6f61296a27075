//! Reports of the second schema: what one may hold, and the log text it becomes.

use crate::order;
use crate::text;
use crate::text::{is_blank, same};
use vstd::prelude::*;
use vstd::string::*;
use vstd::utf8::*;

verus! {

/// The operating system family that a report names.
#[derive(Clone, Copy, Debug, PartialEq, Eq, Structural)]
pub enum OsFamily {
    Windows,
    Linux,
    Macos,
    SteamOs,
    Other,
}

/// The processor architecture that a report names.
#[derive(Clone, Copy, Debug, PartialEq, Eq, Structural)]
pub enum Architecture {
    X86_64,
    Aarch64,
    Other,
}

/// The rough memory size that a report names.
#[derive(Clone, Copy, Debug, PartialEq, Eq, Structural)]
pub enum MemoryBucket {
    Lt4096,
    Mb4096To8191,
    Mb8192To16383,
    Mb16384To32767,
    Ge32768,
    Unknown,
}

/// Rough system specs that identify nobody.
#[derive(Clone, Copy, Debug, PartialEq, Eq, Structural)]
pub struct PlatformSummary {
    pub os_family: Option<OsFamily>,
    pub arch: Option<Architecture>,
    pub memory_mb_bucket: Option<MemoryBucket>,
    pub steam_deck: Option<bool>,
}

/// A named text in a report.
pub struct TextArtifact {
    pub name: String,
    pub content: String,
}

/// An uploaded report.
pub struct DiagnosticsReportV2 {
    pub schema_version: u32,
    pub consent: bool,
    pub client_version: Option<String>,
    pub platform: Option<PlatformSummary>,
    pub log: Option<String>,
    pub artifacts: Vec<TextArtifact>,
}

/// A report that passed all checks, as it goes to redaction and storage.
pub struct PreparedReport {
    pub log_text: String,
    pub client_version: Option<String>,
    pub platform: Option<PlatformSummary>,
}

/// The artifact names that a report may use.
pub open spec fn is_allowed_name(name: Seq<char>) -> bool {
    ||| name == "vapor.log"@
    ||| name == "launcher.log"@
    ||| name == "steps.txt"@
    ||| name == "errors.txt"@
}

/// Whether a report may use `name` for an artifact.
pub fn allowed_artifact_name(name: &str) -> (allowed: bool)
    ensures
        allowed == is_allowed_name(name@),
{
    same(name, "vapor.log") || same(name, "launcher.log") || same(name, "steps.txt") || same(
        name,
        "errors.txt",
    )
}

impl OsFamily {
    /// The JSON string that stands for the family.
    pub open spec fn json_text(self) -> Seq<char> {
        match self {
            OsFamily::Windows => "\"windows\""@,
            OsFamily::Linux => "\"linux\""@,
            OsFamily::Macos => "\"macos\""@,
            OsFamily::SteamOs => "\"steam-os\""@,
            OsFamily::Other => "\"other\""@,
        }
    }

    /// The JSON string that stands for the family.
    pub fn json(self) -> (json: &'static str)
        ensures
            json@ == self.json_text(),
    {
        match self {
            OsFamily::Windows => "\"windows\"",
            OsFamily::Linux => "\"linux\"",
            OsFamily::Macos => "\"macos\"",
            OsFamily::SteamOs => "\"steam-os\"",
            OsFamily::Other => "\"other\"",
        }
    }
}

impl Architecture {
    /// The JSON string that stands for the architecture.
    pub open spec fn json_text(self) -> Seq<char> {
        match self {
            Architecture::X86_64 => "\"x86_64\""@,
            Architecture::Aarch64 => "\"aarch64\""@,
            Architecture::Other => "\"other\""@,
        }
    }

    /// The JSON string that stands for the architecture.
    pub fn json(self) -> (json: &'static str)
        ensures
            json@ == self.json_text(),
    {
        match self {
            Architecture::X86_64 => "\"x86_64\"",
            Architecture::Aarch64 => "\"aarch64\"",
            Architecture::Other => "\"other\"",
        }
    }
}

impl MemoryBucket {
    /// The JSON string that stands for the bucket.
    pub open spec fn json_text(self) -> Seq<char> {
        match self {
            MemoryBucket::Lt4096 => "\"lt-4096\""@,
            MemoryBucket::Mb4096To8191 => "\"4096-8191\""@,
            MemoryBucket::Mb8192To16383 => "\"8192-16383\""@,
            MemoryBucket::Mb16384To32767 => "\"16384-32767\""@,
            MemoryBucket::Ge32768 => "\"ge-32768\""@,
            MemoryBucket::Unknown => "\"unknown\""@,
        }
    }

    /// The JSON string that stands for the bucket.
    pub fn json(self) -> (json: &'static str)
        ensures
            json@ == self.json_text(),
    {
        match self {
            MemoryBucket::Lt4096 => "\"lt-4096\"",
            MemoryBucket::Mb4096To8191 => "\"4096-8191\"",
            MemoryBucket::Mb8192To16383 => "\"8192-16383\"",
            MemoryBucket::Mb16384To32767 => "\"16384-32767\"",
            MemoryBucket::Ge32768 => "\"ge-32768\"",
            MemoryBucket::Unknown => "\"unknown\"",
        }
    }
}

/// The JSON object that stands for a platform summary: one line, the fields in
/// their declared order, `null` for a field that is not given.
pub open spec fn platform_json(platform: PlatformSummary) -> Seq<char> {
    "{\"os_family\":"@ + (match platform.os_family {
        Some(family) => family.json_text(),
        None => "null"@,
    }) + ",\"arch\":"@ + (match platform.arch {
        Some(arch) => arch.json_text(),
        None => "null"@,
    }) + ",\"memory_mb_bucket\":"@ + (match platform.memory_mb_bucket {
        Some(bucket) => bucket.json_text(),
        None => "null"@,
    }) + ",\"steam_deck\":"@ + (match platform.steam_deck {
        Some(true) => "true"@,
        Some(false) => "false"@,
        None => "null"@,
    }) + "}"@
}

/// Writes a platform summary as a JSON object on one line.
pub fn platform_summary_text(platform: &PlatformSummary) -> (json: String)
    ensures
        json@ == platform_json(*platform),
{
    let mut json = "{\"os_family\":".to_owned();
    json.append(match platform.os_family {
        Some(family) => family.json(),
        None => "null",
    });
    json.append(",\"arch\":");
    json.append(match platform.arch {
        Some(arch) => arch.json(),
        None => "null",
    });
    json.append(",\"memory_mb_bucket\":");
    json.append(match platform.memory_mb_bucket {
        Some(bucket) => bucket.json(),
        None => "null",
    });
    json.append(",\"steam_deck\":");
    json.append(match platform.steam_deck {
        Some(true) => "true",
        Some(false) => "false",
        None => "null",
    });
    json.append("}");
    json
}

/// The most characters of a client-supplied string that go on a line.
pub const MAX_INLINE_CHARS: usize = 120;

/// A character that does not break a line.
pub open spec fn is_inline_char(c: char) -> bool {
    c != '\n' && c != '\r' && c != '\0'
}

/// `s` without the characters that break a line.
pub open spec fn inline_chars(s: Seq<char>) -> Seq<char> {
    s.filter(|c: char| is_inline_char(c))
}

/// What goes on a line of a client-supplied string: its first characters among
/// those that do not break a line.
pub open spec fn inline_text(s: Seq<char>) -> Seq<char> {
    let kept = inline_chars(s);
    if kept.len() <= MAX_INLINE_CHARS {
        kept
    } else {
        kept.take(MAX_INLINE_CHARS as int)
    }
}

/// Fits a client-supplied string on a line.
pub fn safe_inline(input: &str) -> (inline: String)
    ensures
        inline@ == inline_text(input@),
{
    let mut inline = String::new();
    let mut count: usize = 0;
    for c in it: input.chars()
        invariant
            it.seq() == input@,
            inline@ == inline_text(input@.take(it.index())),
            count == inline@.len(),
            count <= MAX_INLINE_CHARS,
    {
        proof {
            reveal(Seq::filter);
            assert(input@.take(it.index() + 1).drop_last() == input@.take(it.index()));
        }
        if c != '\n' && c != '\r' && c != '\0' && count < MAX_INLINE_CHARS {
            inline.push(c);
            count += 1;
        }
        assert(inline@ == inline_text(input@.take(it.index() + 1)));
    }
    proof {
        assert(input@.take(input@.len() as int) == input@);
    }
    inline
}

/// The content that the last non-blank artifact called `name` gives, among the
/// first `k`.
pub open spec fn artifact_content(
    artifacts: Seq<TextArtifact>,
    name: Seq<char>,
    k: nat,
) -> Option<Seq<char>>
    decreases k,
{
    if k == 0 {
        None
    } else if artifacts[k - 1].name@ == name && !text::is_blank_text(artifacts[k - 1].content@) {
        Some(artifacts[k - 1].content@)
    } else {
        artifact_content(artifacts, name, (k - 1) as nat)
    }
}

/// The first artifact name that is not allowed.
pub open spec fn first_rejected_name(artifacts: Seq<TextArtifact>) -> Option<Seq<char>>
    decreases artifacts.len(),
{
    if artifacts.len() == 0 {
        None
    } else if !is_allowed_name(artifacts[0].name@) {
        Some(artifacts[0].name@)
    } else {
        first_rejected_name(artifacts.drop_first())
    }
}

/// A section of the log text; nothing for a section without content.
pub open spec fn section_text(name: Seq<char>, content: Option<Seq<char>>) -> Seq<char> {
    match content {
        Some(content) => "\n--- "@ + name + " ---\n"@ + content + "\n"@,
        None => Seq::empty(),
    }
}

impl DiagnosticsReportV2 {
    /// The content of the section `name`: the last non-blank artifact of that
    /// name, or else, for `vapor.log`, the log if that is not blank.
    pub open spec fn section(self, name: Seq<char>) -> Option<Seq<char>> {
        match artifact_content(self.artifacts@, name, self.artifacts@.len()) {
            Some(content) => Some(content),
            None => match self.log {
                Some(log) if name == "vapor.log"@ && !text::is_blank_text(log@) => Some(log@),
                _ => None,
            },
        }
    }

    /// No section has any content.
    pub open spec fn is_empty(self) -> bool {
        &&& self.section("errors.txt"@) is None
        &&& self.section("launcher.log"@) is None
        &&& self.section("steps.txt"@) is None
        &&& self.section("vapor.log"@) is None
    }

    /// Why the report is refused, if it is.
    pub open spec fn refusal(self) -> Option<Seq<char>> {
        if self.schema_version != 2 {
            Some("diagnostics v2 upload requires schema_version = 2"@)
        } else if !self.consent {
            Some("diagnostics v2 upload requires consent = true"@)
        } else {
            match first_rejected_name(self.artifacts@) {
                Some(name) => Some(
                    "diagnostics v2 artifact '"@ + name + "' is not allowlisted"@,
                ),
                None => if self.is_empty() {
                    Some("diagnostics v2 upload must include log text or artifacts"@)
                } else {
                    None
                },
            }
        }
    }

    /// The lines before the sections.
    pub open spec fn heading(self) -> Seq<char> {
        (match self.client_version {
            Some(version) => "client_version = \""@ + inline_text(version@) + "\"\n"@,
            None => Seq::empty(),
        }) + (match self.platform {
            Some(platform) => "platform = "@ + platform_json(platform) + "\n"@,
            None => Seq::empty(),
        })
    }

    /// The log text that an accepted report becomes: the heading, then the
    /// sections in the order of their names.
    pub open spec fn prepared_text(self) -> Seq<char> {
        self.heading() + section_text("errors.txt"@, self.section("errors.txt"@)) + section_text(
            "launcher.log"@,
            self.section("launcher.log"@),
        ) + section_text("steps.txt"@, self.section("steps.txt"@)) + section_text(
            "vapor.log"@,
            self.section("vapor.log"@),
        )
    }

    /// Gathers the sections; the message if an artifact name is not allowed.
    fn collect_sections(&self) -> (collected: Result<Sections, String>)
        ensures
            match first_rejected_name(self.artifacts@) {
                Some(name) => collected matches Err(e) && e@ == "diagnostics v2 artifact '"@ + name
                    + "' is not allowlisted"@,
                None => collected matches Ok(sections) && {
                    &&& text::optional_text(sections.errors) == self.section("errors.txt"@)
                    &&& text::optional_text(sections.launcher) == self.section("launcher.log"@)
                    &&& text::optional_text(sections.steps) == self.section("steps.txt"@)
                    &&& text::optional_text(sections.log) == self.section("vapor.log"@)
                },
            },
    {
        let mut sections = Sections { errors: None, launcher: None, steps: None, log: None };
        if let Some(log) = &self.log {
            if !is_blank(log.as_str()) {
                sections.log = Some(log.clone());
            }
        }
        proof {
            lemma_names_differ();
            assert(self.artifacts@.skip(0) == self.artifacts@);
        }
        let mut k: usize = 0;
        while k < self.artifacts.len()
            invariant
                k <= self.artifacts.len(),
                first_rejected_name(self.artifacts@) == first_rejected_name(
                    self.artifacts@.skip(k as int),
                ),
                sections.holds(*self, k as nat),
            decreases self.artifacts.len() - k,
        {
            let artifact = &self.artifacts[k];
            proof {
                let rest = self.artifacts@.skip(k as int);
                assert(rest[0] == self.artifacts@[k as int]);
                assert(rest.drop_first() == self.artifacts@.skip(k + 1));
            }
            if !allowed_artifact_name(artifact.name.as_str()) {
                let mut message = "diagnostics v2 artifact '".to_owned();
                message.append(artifact.name.as_str());
                message.append("' is not allowlisted");
                return Err(message);
            }
            if !is_blank(artifact.content.as_str()) {
                sections.insert(artifact.name.as_str(), artifact.content.clone());
            }
            k += 1;
        }
        proof {
            assert(self.artifacts@.skip(k as int).len() == 0);
            assert(is_allowed_name("errors.txt"@));
            assert(is_allowed_name("launcher.log"@));
            assert(is_allowed_name("steps.txt"@));
            assert(is_allowed_name("vapor.log"@));
        }
        Ok(sections)
    }

    /// Writes the lines before the sections.
    fn write_heading(&self) -> (text: String)
        ensures
            text@ == self.heading(),
    {
        let mut text = String::new();
        if let Some(client_version) = &self.client_version {
            text.append("client_version = \"");
            text.append(safe_inline(client_version.as_str()).as_str());
            text.append("\"\n");
        }
        if let Some(platform) = &self.platform {
            text.append("platform = ");
            text.append(platform_summary_text(platform).as_str());
            text.append("\n");
        }
        text
    }

    /// Checks the report and writes it as one log text.
    pub fn into_prepared_report(self) -> (prepared: Result<PreparedReport, String>)
        ensures
            match self.refusal() {
                Some(message) => prepared matches Err(e) && e@ == message,
                None => prepared matches Ok(report) && {
                    &&& report.log_text@ == self.prepared_text()
                    &&& report.client_version == self.client_version
                    &&& report.platform == self.platform
                },
            },
    {
        if self.schema_version != 2 {
            return Err("diagnostics v2 upload requires schema_version = 2".to_owned());
        }
        if !self.consent {
            return Err("diagnostics v2 upload requires consent = true".to_owned());
        }
        let sections = match self.collect_sections() {
            Ok(sections) => sections,
            Err(message) => return Err(message),
        };
        if sections.errors.is_none() && sections.launcher.is_none() && sections.steps.is_none()
            && sections.log.is_none() {
            return Err("diagnostics v2 upload must include log text or artifacts".to_owned());
        }
        let mut text = self.write_heading();
        push_section(&mut text, "errors.txt", &sections.errors);
        push_section(&mut text, "launcher.log", &sections.launcher);
        push_section(&mut text, "steps.txt", &sections.steps);
        push_section(&mut text, "vapor.log", &sections.log);
        Ok(
            PreparedReport {
                log_text: text,
                client_version: self.client_version,
                platform: self.platform,
            },
        )
    }
}

/// The allowed artifact names are four different names.
proof fn lemma_names_differ()
    ensures
        "errors.txt"@ != "launcher.log"@,
        "errors.txt"@ != "steps.txt"@,
        "errors.txt"@ != "vapor.log"@,
        "launcher.log"@ != "steps.txt"@,
        "launcher.log"@ != "vapor.log"@,
        "steps.txt"@ != "vapor.log"@,
{
    reveal_strlit("errors.txt");
    reveal_strlit("launcher.log");
    reveal_strlit("steps.txt");
    reveal_strlit("vapor.log");
    assert("errors.txt"@.len() == 10 && "launcher.log"@.len() == 12);
    assert("steps.txt"@.len() == 9 && "vapor.log"@.len() == 9);
    assert("steps.txt"@[0] == 's' && "vapor.log"@[0] == 'v');
}

/// The sections collected so far, one place for each allowed name.
struct Sections {
    errors: Option<String>,
    launcher: Option<String>,
    steps: Option<String>,
    log: Option<String>,
}

impl Sections {
    /// The content collected for `name`.
    spec fn content(self, name: Seq<char>) -> Option<Seq<char>> {
        if name == "errors.txt"@ {
            text::optional_text(self.errors)
        } else if name == "launcher.log"@ {
            text::optional_text(self.launcher)
        } else if name == "steps.txt"@ {
            text::optional_text(self.steps)
        } else if name == "vapor.log"@ {
            text::optional_text(self.log)
        } else {
            None
        }
    }

    /// The sections hold what the log and the first `k` artifacts give.
    spec fn holds(self, report: DiagnosticsReportV2, k: nat) -> bool {
        forall|name: Seq<char>| #[trigger]
            is_allowed_name(name) ==> self.content(name) == (match artifact_content(
                report.artifacts@,
                name,
                k,
            ) {
                Some(content) => Some(content),
                None => match report.log {
                    Some(log) if name == "vapor.log"@ && !text::is_blank_text(log@) => Some(log@),
                    _ => None,
                },
            })
    }

    /// Gives `name` the content, in place of what it had.
    fn insert(&mut self, name: &str, content: String)
        requires
            is_allowed_name(name@),
        ensures
            forall|other: Seq<char>| #[trigger]
                is_allowed_name(other) ==> final(self).content(other) == (if other == name@ {
                    Some(content@)
                } else {
                    old(self).content(other)
                }),
    {
        if same(name, "errors.txt") {
            self.errors = Some(content);
        } else if same(name, "launcher.log") {
            self.launcher = Some(content);
        } else if same(name, "steps.txt") {
            self.steps = Some(content);
        } else {
            self.log = Some(content);
        }
    }
}

/// Appends a section, if it has content.
fn push_section(out: &mut String, name: &str, content: &Option<String>)
    ensures
        final(out)@ == old(out)@ + section_text(name@, text::optional_text(*content)),
{
    if let Some(content) = content {
        out.append("\n--- ");
        out.append(name);
        out.append(" ---\n");
        out.append(content.as_str());
        out.append("\n");
    }
}

impl DiagnosticsReportV2 {
    /// The report holds text: a log or an artifact that is not blank.
    pub open spec fn has_text(self) -> bool {
        ||| self.log matches Some(log) && !text::is_blank_text(log@)
        ||| exists|i: int|
            0 <= i < self.artifacts@.len() && !text::is_blank_text(
                (#[trigger] self.artifacts@[i]).content@,
            )
    }
}

proof fn lemma_rejected_name(artifacts: Seq<TextArtifact>)
    ensures
        first_rejected_name(artifacts) is None <==> forall|i: int|
            0 <= i < artifacts.len() ==> is_allowed_name((#[trigger] artifacts[i]).name@),
    decreases artifacts.len(),
{
    if artifacts.len() > 0 {
        let rest = artifacts.drop_first();
        lemma_rejected_name(rest);
        if is_allowed_name(artifacts[0].name@) {
            if first_rejected_name(rest) is None {
                assert forall|i: int| 0 <= i < artifacts.len() implies is_allowed_name(
                    (#[trigger] artifacts[i]).name@,
                ) by {
                    if i > 0 {
                        assert(artifacts[i] == rest[i - 1]);
                    }
                }
            } else {
                let i = choose|i: int|
                    0 <= i < rest.len() && !is_allowed_name((#[trigger] rest[i]).name@);
                assert(artifacts[i + 1] == rest[i]);
            }
        }
    }
}

proof fn lemma_artifact_content(artifacts: Seq<TextArtifact>, name: Seq<char>, k: nat)
    requires
        k <= artifacts.len(),
    ensures
        artifact_content(artifacts, name, k) is Some <==> exists|i: int|
            0 <= i < k && (#[trigger] artifacts[i]).name@ == name && !text::is_blank_text(
                artifacts[i].content@,
            ),
    decreases k,
{
    if k > 0 {
        lemma_artifact_content(artifacts, name, (k - 1) as nat);
    }
}

/// A report is accepted just if it is of the second schema, consent was given,
/// all of its artifacts have allowed names, and it holds text.
pub proof fn law_accepted_reports(report: DiagnosticsReportV2)
    ensures
        report.refusal() is None <==> {
            &&& report.schema_version == 2
            &&& report.consent
            &&& forall|i: int|
                0 <= i < report.artifacts@.len() ==> is_allowed_name(
                    (#[trigger] report.artifacts@[i]).name@,
                )
            &&& {
                ||| report.log matches Some(log) && !text::is_blank_text(log@)
                ||| exists|i: int|
                    0 <= i < report.artifacts@.len() && !text::is_blank_text(
                        (#[trigger] report.artifacts@[i]).content@,
                    )
            }
        },
{
    let artifacts = report.artifacts@;
    lemma_rejected_name(artifacts);
    lemma_names_differ();
    lemma_artifact_content(artifacts, "errors.txt"@, artifacts.len());
    lemma_artifact_content(artifacts, "launcher.log"@, artifacts.len());
    lemma_artifact_content(artifacts, "steps.txt"@, artifacts.len());
    lemma_artifact_content(artifacts, "vapor.log"@, artifacts.len());
    if first_rejected_name(artifacts) is None && report.has_text() {
        if exists|i: int|
            0 <= i < artifacts.len() && !text::is_blank_text((#[trigger] artifacts[i]).content@) {
            let i = choose|i: int|
                0 <= i < artifacts.len() && !text::is_blank_text((#[trigger] artifacts[i]).content@);
            assert(is_allowed_name(artifacts[i].name@));
        }
    }
}

/// What goes on a line of a client-supplied string has no character that breaks
/// a line and is no longer than a line may be; a string that is so already is
/// not changed.
pub proof fn law_inline_text_fits_a_line(s: Seq<char>)
    ensures
        inline_text(s).len() <= MAX_INLINE_CHARS,
        forall|i: int| 0 <= i < inline_text(s).len() ==> is_inline_char(#[trigger] inline_text(s)[i]),
        s.len() <= MAX_INLINE_CHARS && (forall|i: int|
            0 <= i < s.len() ==> is_inline_char(#[trigger] s[i])) ==> inline_text(s) == s,
{
    lemma_inline_chars(s);
}

proof fn lemma_inline_chars(s: Seq<char>)
    ensures
        forall|i: int|
            0 <= i < inline_chars(s).len() ==> is_inline_char(#[trigger] inline_chars(s)[i]),
        (forall|i: int| 0 <= i < s.len() ==> is_inline_char(#[trigger] s[i])) ==> inline_chars(s)
            == s,
    decreases s.len(),
{
    reveal(Seq::filter);
    if s.len() > 0 {
        lemma_inline_chars(s.drop_last());
        if forall|i: int| 0 <= i < s.len() ==> is_inline_char(#[trigger] s[i]) {
            assert forall|i: int| 0 <= i < s.drop_last().len() implies is_inline_char(
                #[trigger] s.drop_last()[i],
            ) by {
                assert(s[i] == s.drop_last()[i]);
            }
            assert(s.drop_last().push(s.last()) == s);
        }
    }
}

/// The sections of a prepared report stand in the order of their names.
pub proof fn law_sections_stand_in_name_order()
    ensures
        order::text_le("errors.txt"@, "launcher.log"@),
        order::text_le("launcher.log"@, "steps.txt"@),
        order::text_le("steps.txt"@, "vapor.log"@),
{
    reveal_strlit("errors.txt");
    reveal_strlit("launcher.log");
    reveal_strlit("steps.txt");
    reveal_strlit("vapor.log");
    is_ascii_chars_encode_utf8("errors.txt"@);
    is_ascii_chars_encode_utf8("launcher.log"@);
    is_ascii_chars_encode_utf8("steps.txt"@);
    is_ascii_chars_encode_utf8("vapor.log"@);
    assert("errors.txt"@[0] == 'e' && "launcher.log"@[0] == 'l');
    assert("steps.txt"@[0] == 's' && "vapor.log"@[0] == 'v');
}

/// A report may use four artifact names, and no others.
pub proof fn law_four_names_are_allowed(name: Seq<char>)
    ensures
        is_allowed_name(name) <==> seq![
            "vapor.log"@,
            "launcher.log"@,
            "steps.txt"@,
            "errors.txt"@,
        ].contains(name),
{
    let names = seq!["vapor.log"@, "launcher.log"@, "steps.txt"@, "errors.txt"@];
    assert(names[0] == "vapor.log"@ && names[1] == "launcher.log"@);
    assert(names[2] == "steps.txt"@ && names[3] == "errors.txt"@);
}

/// Leaving out a character that breaks a line changes nothing of what goes on the
/// line, and a text without such characters goes there up to its first 120.
pub proof fn law_inline_text_leaves_out_line_breaks(a: Seq<char>, b: Seq<char>, c: char)
    ensures
        c == '\n' || c == '\r' || c == '\0' ==> inline_text(a + seq![c] + b) == inline_text(a + b),
        (forall|i: int|
            0 <= i < a.len() ==> #[trigger] a[i] != '\n' && a[i] != '\r' && a[i] != '\0')
            ==> inline_text(a) == if a.len() <= 120 {
            a
        } else {
            a.take(120)
        },
{
    let keep = |c: char| is_inline_char(c);
    Seq::filter_distributes_over_add(a + seq![c], b, keep);
    Seq::filter_distributes_over_add(a, seq![c], keep);
    Seq::filter_distributes_over_add(a, b, keep);
    reveal(Seq::filter);
    if !is_inline_char(c) {
        assert(seq![c].drop_last() == Seq::<char>::empty());
        assert(seq![c].drop_last().filter(keep) == Seq::<char>::empty());
        assert(seq![c].filter(keep) == Seq::<char>::empty());
        assert(a.filter(keep) + Seq::<char>::empty() == a.filter(keep));
    }
    if forall|i: int| 0 <= i < a.len() ==> #[trigger] a[i] != '\n' && a[i] != '\r' && a[i] != '\0' {
        assert forall|i: int| 0 <= i < a.len() implies is_inline_char(#[trigger] a[i]) by {}
        lemma_inline_chars(a);
    }
}

/// A member of a JSON object.
pub open spec fn json_member(name: Seq<char>, value: Seq<char>) -> Seq<char> {
    "\""@ + name + "\":"@ + value
}

/// Four members as a JSON object on one line.
pub open spec fn json_object(
    first: Seq<char>,
    second: Seq<char>,
    third: Seq<char>,
    fourth: Seq<char>,
) -> Seq<char> {
    "{"@ + first + ","@ + second + ","@ + third + ","@ + fourth + "}"@
}

/// A text as a JSON string, for texts that need no escapes.
pub open spec fn json_string(s: Seq<char>) -> Seq<char> {
    "\""@ + s + "\""@
}

/// A platform summary is written as a JSON object with its four members, whichever
/// of them are given: each has the value of its own field, or `null`.
pub proof fn law_platform_json_has_every_member(
    platform: PlatformSummary,
    os_family: Seq<char>,
    arch: Seq<char>,
    memory: Seq<char>,
    steam_deck: Seq<char>,
)
    requires
        os_family == (match platform.os_family {
            Some(OsFamily::Windows) => json_string("windows"@),
            Some(OsFamily::Linux) => json_string("linux"@),
            Some(OsFamily::Macos) => json_string("macos"@),
            Some(OsFamily::SteamOs) => json_string("steam-os"@),
            Some(OsFamily::Other) => json_string("other"@),
            None => "null"@,
        }),
        arch == (match platform.arch {
            Some(Architecture::X86_64) => json_string("x86_64"@),
            Some(Architecture::Aarch64) => json_string("aarch64"@),
            Some(Architecture::Other) => json_string("other"@),
            None => "null"@,
        }),
        memory == (match platform.memory_mb_bucket {
            Some(MemoryBucket::Lt4096) => json_string("lt-4096"@),
            Some(MemoryBucket::Mb4096To8191) => json_string("4096-8191"@),
            Some(MemoryBucket::Mb8192To16383) => json_string("8192-16383"@),
            Some(MemoryBucket::Mb16384To32767) => json_string("16384-32767"@),
            Some(MemoryBucket::Ge32768) => json_string("ge-32768"@),
            Some(MemoryBucket::Unknown) => json_string("unknown"@),
            None => "null"@,
        }),
        steam_deck == (match platform.steam_deck {
            Some(true) => "true"@,
            Some(false) => "false"@,
            None => "null"@,
        }),
    ensures
        platform_json(platform) == json_object(
            json_member("os_family"@, os_family),
            json_member("arch"@, arch),
            json_member("memory_mb_bucket"@, memory),
            json_member("steam_deck"@, steam_deck),
        ),
{
    lemma_json_values();
    lemma_json_first_member(os_family);
    let a = "{\"os_family\":"@ + os_family;
    lemma_json_arch(a, arch);
    let b = a + ",\"arch\":"@ + arch;
    lemma_json_memory(b, memory);
    let c = b + ",\"memory_mb_bucket\":"@ + memory;
    lemma_json_steam_deck(c, steam_deck);
    assert(platform_json(platform) == c + ",\"steam_deck\":"@ + steam_deck + "}"@);
}

proof fn lemma_json_first_member(value: Seq<char>)
    ensures
        "{"@ + json_member("os_family"@, value) == "{\"os_family\":"@ + value,
{
    reveal_strlit("{");
    reveal_strlit("\"");
    reveal_strlit("\":");
    reveal_strlit("os_family");
    reveal_strlit("{\"os_family\":");
    assert("{\"os_family\":"@ =~= "{"@ + "\""@ + "os_family"@ + "\":"@);
    assert("{"@ + json_member("os_family"@, value) =~= "{"@ + "\""@ + "os_family"@ + "\":"@ + value);
}

proof fn lemma_json_arch(before: Seq<char>, value: Seq<char>)
    ensures
        before + ","@ + json_member("arch"@, value) == before + ",\"arch\":"@ + value,
{
    reveal_strlit(",");
    reveal_strlit("\"");
    reveal_strlit("\":");
    reveal_strlit("arch");
    reveal_strlit(",\"arch\":");
    assert(",\"arch\":"@ =~= ","@ + "\""@ + "arch"@ + "\":"@);
    lemma_json_next_member(before, "arch"@, value);
}

proof fn lemma_json_memory(before: Seq<char>, value: Seq<char>)
    ensures
        before + ","@ + json_member("memory_mb_bucket"@, value) == before
            + ",\"memory_mb_bucket\":"@ + value,
{
    reveal_strlit(",");
    reveal_strlit("\"");
    reveal_strlit("\":");
    reveal_strlit("memory_mb_bucket");
    reveal_strlit(",\"memory_mb_bucket\":");
    assert(",\"memory_mb_bucket\":"@ =~= ","@ + "\""@ + "memory_mb_bucket"@ + "\":"@);
    lemma_json_next_member(before, "memory_mb_bucket"@, value);
}

proof fn lemma_json_steam_deck(before: Seq<char>, value: Seq<char>)
    ensures
        before + ","@ + json_member("steam_deck"@, value) == before + ",\"steam_deck\":"@ + value,
{
    reveal_strlit(",");
    reveal_strlit("\"");
    reveal_strlit("\":");
    reveal_strlit("steam_deck");
    reveal_strlit(",\"steam_deck\":");
    assert(",\"steam_deck\":"@ =~= ","@ + "\""@ + "steam_deck"@ + "\":"@);
    lemma_json_next_member(before, "steam_deck"@, value);
}

/// A member more goes behind a comma.
proof fn lemma_json_next_member(before: Seq<char>, name: Seq<char>, value: Seq<char>)
    ensures
        before + ","@ + json_member(name, value) == before + (","@ + "\""@ + name + "\":"@) + value,
{
    assert(before + ","@ + json_member(name, value) =~= before + (","@ + "\""@ + name + "\":"@)
        + value);
}

/// The values of a platform summary are JSON strings.
proof fn lemma_json_values()
    ensures
        OsFamily::Windows.json_text() == json_string("windows"@),
        OsFamily::Linux.json_text() == json_string("linux"@),
        OsFamily::Macos.json_text() == json_string("macos"@),
        OsFamily::SteamOs.json_text() == json_string("steam-os"@),
        OsFamily::Other.json_text() == json_string("other"@),
        Architecture::X86_64.json_text() == json_string("x86_64"@),
        Architecture::Aarch64.json_text() == json_string("aarch64"@),
        Architecture::Other.json_text() == json_string("other"@),
        MemoryBucket::Lt4096.json_text() == json_string("lt-4096"@),
        MemoryBucket::Mb4096To8191.json_text() == json_string("4096-8191"@),
        MemoryBucket::Mb8192To16383.json_text() == json_string("8192-16383"@),
        MemoryBucket::Mb16384To32767.json_text() == json_string("16384-32767"@),
        MemoryBucket::Ge32768.json_text() == json_string("ge-32768"@),
        MemoryBucket::Unknown.json_text() == json_string("unknown"@),
{
    reveal_strlit("\"");
    reveal_strlit("windows");
    reveal_strlit("\"windows\"");
    reveal_strlit("linux");
    reveal_strlit("\"linux\"");
    reveal_strlit("macos");
    reveal_strlit("\"macos\"");
    reveal_strlit("steam-os");
    reveal_strlit("\"steam-os\"");
    reveal_strlit("other");
    reveal_strlit("\"other\"");
    reveal_strlit("x86_64");
    reveal_strlit("\"x86_64\"");
    reveal_strlit("aarch64");
    reveal_strlit("\"aarch64\"");
    reveal_strlit("lt-4096");
    reveal_strlit("\"lt-4096\"");
    reveal_strlit("4096-8191");
    reveal_strlit("\"4096-8191\"");
    reveal_strlit("8192-16383");
    reveal_strlit("\"8192-16383\"");
    reveal_strlit("16384-32767");
    reveal_strlit("\"16384-32767\"");
    reveal_strlit("ge-32768");
    reveal_strlit("\"ge-32768\"");
    reveal_strlit("unknown");
    reveal_strlit("\"unknown\"");
}

/// Without artifacts a report has one section, `vapor.log`, if its log is not blank.
pub proof fn law_the_log_is_a_section(report: DiagnosticsReportV2, name: Seq<char>)
    requires
        report.artifacts@.len() == 0,
    ensures
        report.section(name) == (match report.log {
            Some(log) => if name == "vapor.log"@ && !text::is_blank_text(log@) {
                Some(log@)
            } else {
                None
            },
            None => None,
        }),
{
}

/// An artifact more gives the section of its name its content if it is not blank,
/// whatever stood there, and changes no other section; a blank one changes none.
pub proof fn law_artifacts_fill_sections(
    report: DiagnosticsReportV2,
    longer: DiagnosticsReportV2,
    artifact: TextArtifact,
    name: Seq<char>,
)
    requires
        longer.artifacts@ == report.artifacts@.push(artifact),
        longer.log == report.log,
    ensures
        longer.section(name) == if name == artifact.name@ && !text::is_blank_text(
            artifact.content@,
        ) {
            Some(artifact.content@)
        } else {
            report.section(name)
        },
{
    lemma_earlier_artifacts(
        report.artifacts@,
        longer.artifacts@,
        name,
        report.artifacts@.len(),
    );
}

proof fn lemma_earlier_artifacts(
    artifacts: Seq<TextArtifact>,
    longer: Seq<TextArtifact>,
    name: Seq<char>,
    k: nat,
)
    requires
        k <= artifacts.len() <= longer.len(),
        forall|i: int| 0 <= i < artifacts.len() ==> #[trigger] longer[i] == artifacts[i],
    ensures
        artifact_content(longer, name, k) == artifact_content(artifacts, name, k),
    decreases k,
{
    if k > 0 {
        lemma_earlier_artifacts(artifacts, longer, name, (k - 1) as nat);
        assert(longer[k - 1] == artifacts[k - 1]);
    }
}

/// A report is refused for the first of these that holds of it: another schema, no
/// consent, an artifact name that is not allowed, of which the first is named, and
/// no text; each has its message.
pub proof fn law_refusals_name_the_first_fault(report: DiagnosticsReportV2, i: int)
    ensures
        report.schema_version != 2 ==> report.refusal() == Some(
            "diagnostics v2 upload requires schema_version = 2"@,
        ),
        report.schema_version == 2 && !report.consent ==> report.refusal() == Some(
            "diagnostics v2 upload requires consent = true"@,
        ),
        report.schema_version == 2 && report.consent && 0 <= i < report.artifacts@.len()
            && !is_allowed_name(report.artifacts@[i].name@) && (forall|j: int|
            0 <= j < i ==> is_allowed_name((#[trigger] report.artifacts@[j]).name@))
            ==> report.refusal() == Some(
            "diagnostics v2 artifact '"@ + report.artifacts@[i].name@ + "' is not allowlisted"@,
        ),
        report.schema_version == 2 && report.consent && (forall|j: int|
            0 <= j < report.artifacts@.len() ==> is_allowed_name(
                (#[trigger] report.artifacts@[j]).name@,
            )) && (report.log matches Some(log) ==> text::is_blank_text(log@)) && (forall|j: int|
            0 <= j < report.artifacts@.len() ==> text::is_blank_text(
                (#[trigger] report.artifacts@[j]).content@,
            )) ==> report.refusal() == Some(
            "diagnostics v2 upload must include log text or artifacts"@,
        ),
{
    let artifacts = report.artifacts@;
    law_accepted_reports(report);
    lemma_rejected_name(artifacts);
    if 0 <= i < artifacts.len() && !is_allowed_name(artifacts[i].name@) && (forall|j: int|
        0 <= j < i ==> is_allowed_name((#[trigger] artifacts[j]).name@)) {
        lemma_first_rejected(artifacts, i);
    }
}

proof fn lemma_first_rejected(artifacts: Seq<TextArtifact>, i: int)
    requires
        0 <= i < artifacts.len(),
        !is_allowed_name(artifacts[i].name@),
        forall|j: int| 0 <= j < i ==> is_allowed_name((#[trigger] artifacts[j]).name@),
    ensures
        first_rejected_name(artifacts) == Some(artifacts[i].name@),
    decreases i,
{
    if i > 0 {
        let rest = artifacts.drop_first();
        assert(is_allowed_name(artifacts[0].name@));
        assert forall|j: int| 0 <= j < i - 1 implies is_allowed_name((#[trigger] rest[j]).name@) by {
            assert(rest[j] == artifacts[j + 1]);
        }
        lemma_first_rejected(rest, i - 1);
    }
}

/// A report that names its client is written as one that does not, with a line in
/// front that names it; this holds with or without a platform.
pub proof fn law_the_client_is_named_first(
    report: DiagnosticsReportV2,
    unnamed: DiagnosticsReportV2,
    version: String,
)
    requires
        report.client_version == Some(version),
        unnamed.client_version is None,
        report.platform == unnamed.platform,
        report.log == unnamed.log,
        report.artifacts@ == unnamed.artifacts@,
    ensures
        report.prepared_text() == "client_version = \""@ + inline_text(version@) + "\"\n"@
            + unnamed.prepared_text(),
{
    let line = "client_version = \""@ + inline_text(version@) + "\"\n"@;
    lemma_sections_follow(report);
    lemma_sections_follow(unnamed);
    lemma_same_sections(report, unnamed);
    assert(report.heading() =~= line + unnamed.heading());
    lemma_regroup(line, unnamed.heading(), sections_text(unnamed));
}

/// A report that gives a platform and no client is written as one that gives
/// neither, with a line in front that holds the platform as JSON.
pub proof fn law_the_platform_is_given_next(
    report: DiagnosticsReportV2,
    bare: DiagnosticsReportV2,
    platform: PlatformSummary,
)
    requires
        report.client_version is None,
        bare.client_version is None,
        report.platform == Some(platform),
        bare.platform is None,
        report.log == bare.log,
        report.artifacts@ == bare.artifacts@,
    ensures
        report.prepared_text() == "platform = "@ + platform_json(platform) + "\n"@
            + bare.prepared_text(),
{
    let line = "platform = "@ + platform_json(platform) + "\n"@;
    lemma_sections_follow(report);
    lemma_sections_follow(bare);
    lemma_same_sections(report, bare);
    assert(report.heading() =~= line);
    assert(bare.heading() =~= Seq::<char>::empty());
    lemma_regroup(line, Seq::empty(), sections_text(bare));
    assert(line + Seq::<char>::empty() =~= line);
}

/// A report that gives neither client nor platform is written as its sections, those
/// that it has, in the order of their names, each under a line with its name.
pub proof fn law_sections_are_all_written(report: DiagnosticsReportV2)
    requires
        report.client_version is None,
        report.platform is None,
    ensures
        ({
            let part = |name: Seq<char>|
                match report.section(name) {
                    Some(content) => "\n--- "@ + name + " ---\n"@ + content + "\n"@,
                    None => Seq::<char>::empty(),
                };
            report.prepared_text() == part("errors.txt"@) + part("launcher.log"@) + part(
                "steps.txt"@,
            ) + part("vapor.log"@)
        }),
{
    assert(report.heading() =~= Seq::<char>::empty());
    lemma_sections_follow(report);
}

/// Every accepted report that gives a platform has a line with it in its text, and
/// every one that names a client a line that names it, whatever else it gives.
pub proof fn law_client_and_platform_have_their_lines(report: DiagnosticsReportV2)
    ensures
        report.platform matches Some(platform) ==> text::holds_line(
            report.prepared_text(),
            "platform = "@ + platform_json(platform),
        ),
        report.client_version matches Some(version) ==> text::holds_line(
            report.prepared_text(),
            "client_version = \""@ + inline_text(version@) + "\""@,
        ),
{
    let text = report.prepared_text();
    reveal_strlit("\"\n");
    reveal_strlit("\"");
    reveal_strlit("\n");
    lemma_sections_follow(report);
    let heading = report.heading();
    let client = match report.client_version {
        Some(version) => "client_version = \""@ + inline_text(version@) + "\"\n"@,
        None => Seq::empty(),
    };
    if let Some(version) = report.client_version {
        let line = "client_version = \""@ + inline_text(version@) + "\""@;
        assert(client =~= line + seq!['\n']);
        assert(text.subrange(0, line.len() as int) =~= line);
        assert(text::is_line_at(text, line, 0));
    }
    if let Some(platform) = report.platform {
        let line = "platform = "@ + platform_json(platform);
        let i = client.len() as int;
        assert(heading =~= client + line + seq!['\n']);
        assert(text.subrange(i, i + line.len()) =~= line);
        assert(text::is_line_at(text, line, i));
    }
}

/// The sections of a report as text.
spec fn sections_text(report: DiagnosticsReportV2) -> Seq<char> {
    section_text("errors.txt"@, report.section("errors.txt"@)) + section_text(
        "launcher.log"@,
        report.section("launcher.log"@),
    ) + section_text("steps.txt"@, report.section("steps.txt"@)) + section_text(
        "vapor.log"@,
        report.section("vapor.log"@),
    )
}

proof fn lemma_sections_follow(report: DiagnosticsReportV2)
    ensures
        report.prepared_text() == report.heading() + sections_text(report),
{
    assert(report.prepared_text() =~= report.heading() + sections_text(report));
}

proof fn lemma_regroup(a: Seq<char>, b: Seq<char>, c: Seq<char>)
    ensures
        a + b + c == a + (b + c),
{
    assert(a + b + c =~= a + (b + c));
}

/// Reports with the same log and artifacts have the same sections.
proof fn lemma_same_sections(a: DiagnosticsReportV2, b: DiagnosticsReportV2)
    requires
        a.log == b.log,
        a.artifacts@ == b.artifacts@,
    ensures
        sections_text(a) == sections_text(b),
{
    assert(a.section("errors.txt"@) == b.section("errors.txt"@));
    assert(a.section("launcher.log"@) == b.section("launcher.log"@));
    assert(a.section("steps.txt"@) == b.section("steps.txt"@));
    assert(a.section("vapor.log"@) == b.section("vapor.log"@));
}

} // verus!
