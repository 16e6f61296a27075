//! Log normalisation and redaction of sensitive values.

use regex::Regex;
use vstd::prelude::*;
use vstd::string::*;
use vstd::utf8::*;

verus! {

/// What stands in the stored log where a sensitive value stood.
pub const REDACTION_MARKER: &'static str = "<redacted>";

/// Sensitive keys assigned with `=`, with optional spacing and quotes.
pub const ASSIGNMENT_PATTERN: &'static str =
    r#"(?i)\b((?:password|passwd|token|secret|credential|ticket|auth)\b\s*=\s*)("[^"]*"|'[^']*'|[^\s&]+)"#;

/// `Authorization` and `Cookie` header lines.
pub const HEADER_PATTERN: &'static str = r#"(?im)^(\s*(authorization|cookie)\s*:\s*).+$"#;

/// Sensitive keys given a value with `:`, with optional spacing and quotes.
pub const FIELD_PATTERN: &'static str =
    r#"(?i)\b((?:password|passwd|token|secret|credential|ticket|auth)\b\s*:\s*)("[^"]*"|'[^']*'|[^\s&]+)"#;

/// Sensitive parameters of a URL query.
pub const QUERY_PATTERN: &'static str = r#"(?i)([?&](?:token|secret|password|ticket|auth)=)[^&\s]+"#;

/// GitHub tokens, known by their prefixes.
pub const GITHUB_TOKEN_PATTERN: &'static str = r#"\bgh[pousr]_[A-Za-z0-9_]{16,}\b"#;

/// How many patterns a log is searched for.
pub const PATTERN_COUNT: usize = 5;

/// How often a log is gone through: once for the headers that an assignment
/// would swallow, then once for each pattern.
pub const PASS_COUNT: usize = 6;

/// The patterns in the order in which they are applied.
pub open spec fn redaction_pattern(i: int) -> Seq<char> {
    if i == 0 {
        ASSIGNMENT_PATTERN@
    } else if i == 1 {
        HEADER_PATTERN@
    } else if i == 2 {
        FIELD_PATTERN@
    } else if i == 3 {
        QUERY_PATTERN@
    } else {
        GITHUB_TOKEN_PATTERN@
    }
}

/// The pattern at place `i`.
fn pattern_for(i: usize) -> (pattern: &'static str)
    requires
        i < PATTERN_COUNT,
    ensures
        pattern@ == redaction_pattern(i as int),
{
    if i == 0 {
        ASSIGNMENT_PATTERN
    } else if i == 1 {
        HEADER_PATTERN
    } else if i == 2 {
        FIELD_PATTERN
    } else if i == 3 {
        QUERY_PATTERN
    } else {
        GITHUB_TOKEN_PATTERN
    }
}

/// One match of a pattern, in byte offsets into the searched text: the whole
/// match, and what its first capture group covers if that group took part.
pub struct MatchSpan {
    pub start: usize,
    pub end: usize,
    pub prefix: Option<(usize, usize)>,
}

/// A range of bytes that lies in `text` and cuts no character.
pub open spec fn range_fits(text: Seq<char>, from: int, to: int) -> bool {
    let bytes = encode_utf8(text);
    &&& 0 <= from <= to <= bytes.len()
    &&& is_char_boundary(bytes, from)
    &&& is_char_boundary(bytes, to)
}

impl MatchSpan {
    /// The span lies in `text`, cuts no character, and its group lies within it.
    pub open spec fn fits(self, text: Seq<char>) -> bool {
        &&& range_fits(text, self.start as int, self.end as int)
        &&& self.prefix matches Some((from, to)) ==> {
            &&& range_fits(text, from as int, to as int)
            &&& self.start <= from
            &&& to <= self.end
        }
    }
}

/// Spans that fit `text` and follow one another without overlap.
pub open spec fn spans_fit(text: Seq<char>, spans: Seq<MatchSpan>) -> bool {
    &&& forall|i: int| 0 <= i < spans.len() ==> (#[trigger] spans[i]).fits(text)
    &&& forall|i: int, j: int|
        0 <= i < j < spans.len() ==> (#[trigger] spans[i]).end <= (#[trigger] spans[j]).start
}

/// The fewest bytes that any of the patterns matches: those of `auth=x`.
pub const MIN_MATCH_BYTES: usize = 6;

/// None of the spans is shorter than the shortest text that a pattern matches.
pub open spec fn spans_are_long(spans: Seq<MatchSpan>) -> bool {
    forall|i: int|
        0 <= i < spans.len() ==> (#[trigger] spans[i]).start + MIN_MATCH_BYTES <= spans[i].end
}

/// The matches that `regex::Regex::captures_iter` reports for a pattern in a text.
pub uninterp spec fn regex_matches(pattern: Seq<char>, text: Seq<char>) -> Seq<MatchSpan>;

/// Calls `regex::Regex::captures_iter` on `text`, with `pattern` turned into a
/// regex by `regex::Regex::new`.
///
/// Believed of the regex crate: each of the redaction patterns compiles; the
/// matches depend on the pattern and the text alone; they come in order and do
/// not overlap; every offset lies in the text, on a character boundary; a group
/// lies within its match. The shortest text that any of the patterns matches
/// (`auth=x`) has six bytes.
#[verifier::external_body]
fn find_matches(pattern: &str, text: &str) -> (spans: Vec<MatchSpan>)
    requires
        exists|i: int| 0 <= i < PATTERN_COUNT && pattern@ == #[trigger] redaction_pattern(i),
    ensures
        spans@ == regex_matches(pattern@, text@),
        spans_fit(text@, spans@),
        spans_are_long(spans@),
{
    let regex = Regex::new(pattern).expect("redaction regex compiles");
    regex
        .captures_iter(text)
        .map(|found| MatchSpan {
            start: found.get_match().start(),
            end: found.get_match().end(),
            prefix: found.get(1).map(|group| (group.start(), group.end())),
        })
        .collect()
}

/// The characters of `text` between two byte offsets.
pub open spec fn piece(text: Seq<char>, from: int, to: int) -> Seq<char> {
    decode_utf8(encode_utf8(text).subrange(from, to))
}

/// The characters of `text` between two byte offsets.
fn slice<'a>(text: &'a str, from: usize, to: usize) -> (part: &'a str)
    requires
        range_fits(text@, from as int, to as int),
    ensures
        part@ == piece(text@, from as int, to as int),
{
    broadcast use {
        encode_utf8_valid_utf8,
        encode_utf8_decode_utf8,
        is_char_boundary_start_end_of_seq,
        is_char_boundary_iff_not_is_continuation_byte,
    };

    let (_, rest) = text.split_at(from);
    let ghost bytes = encode_utf8(text@);
    assert(rest.spec_bytes() == bytes.subrange(from as int, bytes.len() as int));
    assert(is_char_boundary(rest.spec_bytes(), to - from)) by {
        if to < bytes.len() {
            assert(rest.spec_bytes()[to - from] == bytes[to as int]);
            assert(!is_continuation_byte(bytes[to as int]));
            assert(!is_continuation_byte(rest.spec_bytes()[to - from]));
        }
    }
    let (part, _) = rest.split_at(to - from);
    assert(part.spec_bytes() == bytes.subrange(from as int, to as int));
    assert(part@ == decode_utf8(encode_utf8(part@)));
    part
}

/// What a redacted match keeps of itself.
pub open spec fn kept_prefix(text: Seq<char>, span: MatchSpan) -> Seq<char> {
    match span.prefix {
        Some((from, to)) => piece(text, from as int, to as int),
        None => Seq::empty(),
    }
}

/// Where the text after the first `k` matches begins.
pub open spec fn resume_at(spans: Seq<MatchSpan>, k: int) -> int {
    if k <= 0 {
        0
    } else {
        spans[k - 1].end as int
    }
}

/// The redacted text up to the end of the first `k` matches.
pub open spec fn rewritten_upto(text: Seq<char>, spans: Seq<MatchSpan>, k: nat) -> Seq<char>
    decreases k,
{
    if k == 0 {
        Seq::empty()
    } else {
        let span = spans[k - 1];
        rewritten_upto(text, spans, (k - 1) as nat)
            + piece(text, resume_at(spans, k - 1), span.start as int)
            + kept_prefix(text, span)
            + REDACTION_MARKER@
    }
}

/// The text with every match cut down to its first group and the marker, and
/// everything outside the matches as it was.
pub open spec fn rewritten(text: Seq<char>, spans: Seq<MatchSpan>) -> Seq<char> {
    rewritten_upto(text, spans, spans.len())
        + piece(text, resume_at(spans, spans.len() as int), encode_utf8(text).len() as int)
}

/// The end of the `k`th match is a place where the text can be cut.
proof fn lemma_resume_fits(text: Seq<char>, spans: Seq<MatchSpan>, k: int)
    requires
        spans_fit(text, spans),
        0 <= k <= spans.len(),
    ensures
        0 <= resume_at(spans, k) <= encode_utf8(text).len(),
        is_char_boundary(encode_utf8(text), resume_at(spans, k)),
        is_char_boundary(encode_utf8(text), encode_utf8(text).len() as int),
        k < spans.len() ==> resume_at(spans, k) <= spans[k].start,
{
    broadcast use {encode_utf8_valid_utf8, is_char_boundary_start_end_of_seq};

    if k > 0 {
        assert(spans[k - 1].fits(text));
    }
}

/// Cuts every match in `text` down to its first group and the marker.
pub fn redact_matches(text: &str, spans: &Vec<MatchSpan>) -> (redacted: String)
    requires
        spans_fit(text@, spans@),
    ensures
        redacted@ == rewritten(text@, spans@),
{
    let mut redacted = String::new();
    let mut resume: usize = 0;
    let mut k: usize = 0;
    while k < spans.len()
        invariant
            spans_fit(text@, spans@),
            k <= spans.len(),
            resume == resume_at(spans@, k as int),
            redacted@ == rewritten_upto(text@, spans@, k as nat),
        decreases spans.len() - k,
    {
        proof {
            lemma_resume_fits(text@, spans@, k as int);
            assert(spans@[k as int].fits(text@));
        }
        let span = &spans[k];
        redacted.append(slice(text, resume, span.start));
        if let Some((from, to)) = span.prefix {
            redacted.append(slice(text, from, to));
        }
        redacted.append(REDACTION_MARKER);
        resume = span.end;
        k += 1;
        assert(redacted@ == rewritten_upto(text@, spans@, k as nat));
    }
    proof {
        lemma_resume_fits(text@, spans@, k as int);
    }
    redacted.append(slice(text, resume, text.as_bytes().len()));
    redacted
}

/// Matches that are not too short fill the text up to the end of the last.
proof fn lemma_matches_fill(text: Seq<char>, spans: Seq<MatchSpan>, k: int)
    requires
        spans_fit(text, spans),
        spans_are_long(spans),
        0 <= k <= spans.len(),
    ensures
        MIN_MATCH_BYTES * k <= resume_at(spans, k) <= encode_utf8(text).len(),
    decreases k,
{
    lemma_resume_fits(text, spans, k);
    if k > 0 {
        lemma_matches_fill(text, spans, k - 1);
        lemma_resume_fits(text, spans, k - 1);
    }
}

impl MatchSpan {
    /// Where the value begins that the match drops.
    pub open spec fn value_start(self) -> int {
        match self.prefix {
            Some((_, to)) => to as int,
            None => self.start as int,
        }
    }
}

/// Spans that follow one another without overlap.
pub open spec fn in_order(spans: Seq<MatchSpan>) -> bool {
    &&& forall|i: int| 0 <= i < spans.len() ==> (#[trigger] spans[i]).start <= spans[i].end
    &&& forall|i: int, j: int|
        0 <= i < j < spans.len() ==> (#[trigger] spans[i]).end <= (#[trigger] spans[j]).start
}

/// The first span from the `i`th on that ends after `offset`; the number of spans
/// if there is none.
pub open spec fn first_ending_after(spans: Seq<MatchSpan>, offset: int, i: int) -> int
    decreases spans.len() - i,
{
    if i >= spans.len() {
        spans.len() as int
    } else if spans[i].end > offset {
        i
    } else {
        first_ending_after(spans, offset, i + 1)
    }
}

/// An assignment swallows a header: the value of the first assignment that reaches
/// into the header takes in the header's name, so that no header is seen there any
/// more, but it ends before the header does.
pub open spec fn is_swallowed(assignments: Seq<MatchSpan>, header: MatchSpan) -> bool {
    let i = first_ending_after(assignments, header.start as int, 0);
    &&& i < assignments.len()
    &&& assignments[i].value_start() < header.value_start()
    &&& assignments[i].end < header.end
}

/// What the assignment leaves of the value of a header that it swallows, together
/// with the rest of an assignment that begins there and goes on after the header.
pub open spec fn remainder(assignments: Seq<MatchSpan>, header: MatchSpan) -> (int, int) {
    let i = first_ending_after(assignments, header.start as int, 0);
    let j = first_ending_after(assignments, header.end as int, 0);
    let from = if assignments[i].end < header.value_start() {
        header.value_start()
    } else {
        assignments[i].end as int
    };
    let to = if j < assignments.len() && assignments[j].start < header.end {
        assignments[j].end as int
    } else {
        header.end as int
    };
    (from, to)
}

/// What assignments leave of the first `k` headers where they swallow them.
pub open spec fn remainders_upto(
    assignments: Seq<MatchSpan>,
    headers: Seq<MatchSpan>,
    k: nat,
) -> Seq<MatchSpan>
    decreases k,
{
    if k == 0 {
        Seq::empty()
    } else {
        let before = remainders_upto(assignments, headers, (k - 1) as nat);
        if is_swallowed(assignments, headers[k - 1]) {
            let (from, to) = remainder(assignments, headers[k - 1]);
            before.push(MatchSpan { start: from as usize, end: to as usize, prefix: None })
        } else {
            before
        }
    }
}

/// What assignments leave of the headers that they swallow.
pub open spec fn remainders(
    assignments: Seq<MatchSpan>,
    headers: Seq<MatchSpan>,
) -> Seq<MatchSpan> {
    remainders_upto(assignments, headers, headers.len())
}

/// What is found is the first, and the search may begin at any span before it.
proof fn lemma_first_ending_after(spans: Seq<MatchSpan>, offset: int, i: int)
    requires
        0 <= i <= spans.len(),
    ensures
        i <= first_ending_after(spans, offset, i) <= spans.len(),
        forall|q: int|
            i <= q < first_ending_after(spans, offset, i) ==> (#[trigger] spans[q]).end <= offset,
        first_ending_after(spans, offset, i) < spans.len() ==> spans[first_ending_after(
            spans,
            offset,
            i,
        )].end > offset,
    decreases spans.len() - i,
{
    if i < spans.len() && spans[i].end <= offset {
        lemma_first_ending_after(spans, offset, i + 1);
    }
}

/// Spans that end no later than `offset` may be skipped in the search.
proof fn lemma_search_skips(spans: Seq<MatchSpan>, offset: int, i: int)
    requires
        0 <= i <= spans.len(),
        forall|q: int| 0 <= q < i ==> (#[trigger] spans[q]).end <= offset,
    ensures
        first_ending_after(spans, offset, 0) == first_ending_after(spans, offset, i),
    decreases i,
{
    if i > 0 {
        lemma_search_skips(spans, offset, i - 1);
        assert(spans[i - 1].end <= offset);
    }
}

/// Finds what assignments leave of the headers that they swallow.
pub fn swallowed_headers(assignments: &Vec<MatchSpan>, headers: &Vec<MatchSpan>) -> (found: Vec<
    MatchSpan,
>)
    requires
        in_order(assignments@),
        in_order(headers@),
    ensures
        found@ == remainders(assignments@, headers@),
        found@.len() <= headers@.len(),
{
    let mut found: Vec<MatchSpan> = Vec::new();
    let mut i: usize = 0;
    let mut k: usize = 0;
    while k < headers.len()
        invariant
            in_order(assignments@),
            in_order(headers@),
            k <= headers.len(),
            i <= assignments.len(),
            k < headers.len() ==> forall|q: int|
                0 <= q < i ==> (#[trigger] assignments@[q]).end <= headers@[k as int].start,
            found@ == remainders_upto(assignments@, headers@, k as nat),
            found@.len() <= k,
        decreases headers.len() - k,
    {
        let header = &headers[k];
        i = find_ending_after(assignments, header.start, i);
        proof {
            lemma_first_ending_after(assignments@, header.start as int, 0);
            lemma_first_ending_after(assignments@, header.end as int, 0);
            assert(header.start <= header.end);
        }
        let j: usize = find_ending_after(assignments, header.end, i);
        if i < assignments.len() {
            let header_value: usize = match header.prefix {
                Some((_, to)) => to,
                None => header.start,
            };
            let assigned_value: usize = match assignments[i].prefix {
                Some((_, to)) => to,
                None => assignments[i].start,
            };
            if assigned_value < header_value && assignments[i].end < header.end {
                let from: usize = if assignments[i].end < header_value {
                    header_value
                } else {
                    assignments[i].end
                };
                let to: usize = if j < assignments.len() && assignments[j].start < header.end {
                    assignments[j].end
                } else {
                    header.end
                };
                found.push(MatchSpan { start: from, end: to, prefix: None });
            }
        }
        i = j;
        k += 1;
    }
    found
}

/// Finds the first span from the `i`th on that ends after `offset`, where those
/// before the `i`th do not.
fn find_ending_after(spans: &Vec<MatchSpan>, offset: usize, i: usize) -> (found: usize)
    requires
        i <= spans.len(),
        forall|q: int| 0 <= q < i ==> (#[trigger] spans@[q]).end <= offset,
    ensures
        found == first_ending_after(spans@, offset as int, 0),
        i <= found <= spans.len(),
{
    let mut found: usize = i;
    while found < spans.len() && spans[found].end <= offset
        invariant
            i <= found <= spans.len(),
            forall|q: int| 0 <= q < found ==> (#[trigger] spans@[q]).end <= offset,
        decreases spans.len() - found,
    {
        found += 1;
    }
    proof {
        lemma_search_skips(spans@, offset as int, found as int);
    }
    found
}

/// Remainders of two headers do not overlap.
proof fn lemma_remainders_apart(
    assignments: Seq<MatchSpan>,
    headers: Seq<MatchSpan>,
    k: int,
    m: int,
)
    requires
        in_order(assignments),
        in_order(headers),
        0 <= k < m < headers.len(),
        headers[m].start <= headers[m].value_start(),
        is_swallowed(assignments, headers[k]),
        is_swallowed(assignments, headers[m]),
    ensures
        remainder(assignments, headers[k]).1 <= remainder(assignments, headers[m]).0,
{
    let first = headers[k];
    let second = headers[m];
    let j = first_ending_after(assignments, first.end as int, 0);
    let i = first_ending_after(assignments, second.start as int, 0);
    lemma_first_ending_after(assignments, first.end as int, 0);
    lemma_first_ending_after(assignments, second.start as int, 0);
    assert(first.end <= second.start);
    if j < assignments.len() && assignments[j].start < first.end && assignments[j].end
        > second.start {
        if j < i {
            assert(assignments[j].end <= second.start);
        }
        if i < j {
            assert(assignments[i].end <= assignments[j].start);
        }
        assert(i == j);
    }
}

/// Remainders fit the text, one after another.
proof fn lemma_remainders_fit(
    text: Seq<char>,
    assignments: Seq<MatchSpan>,
    headers: Seq<MatchSpan>,
    k: nat,
)
    requires
        spans_fit(text, assignments),
        spans_fit(text, headers),
        encode_utf8(text).len() <= usize::MAX,
        k <= headers.len(),
    ensures
        spans_fit(text, remainders_upto(assignments, headers, k)),
        forall|q: int|
            0 <= q < remainders_upto(assignments, headers, k).len() ==> exists|p: int|
                0 <= p < k && is_swallowed(assignments, #[trigger] headers[p]) && remainder(
                    assignments,
                    headers[p],
                ).1 == (#[trigger] remainders_upto(assignments, headers, k)[q]).end,
    decreases k,
{
    if k > 0 {
        let before = remainders_upto(assignments, headers, (k - 1) as nat);
        let now = remainders_upto(assignments, headers, k);
        let header = headers[k - 1];
        lemma_remainders_fit(text, assignments, headers, (k - 1) as nat);
        lemma_fitting_spans_are_in_order(text, assignments);
        lemma_fitting_spans_are_in_order(text, headers);
        if is_swallowed(assignments, header) {
            let (from, to) = remainder(assignments, header);
            let i = first_ending_after(assignments, header.start as int, 0);
            let j = first_ending_after(assignments, header.end as int, 0);
            lemma_first_ending_after(assignments, header.start as int, 0);
            lemma_first_ending_after(assignments, header.end as int, 0);
            assert(assignments[i].fits(text));
            assert(header.fits(text));
            if j < assignments.len() {
                assert(assignments[j].fits(text));
            }
            assert(range_fits(text, from, to));
            assert(now == before.push(now.last()));
            assert(now.last().fits(text));
            assert forall|q: int| 0 <= q < before.len() implies (#[trigger] before[q]).end
                <= from by {
                let p = choose|p: int|
                    0 <= p < k - 1 && is_swallowed(assignments, #[trigger] headers[p])
                        && remainder(assignments, headers[p]).1 == before[q].end;
                lemma_remainders_apart(assignments, headers, p, k - 1);
            }
            assert forall|q: int| 0 <= q < now.len() implies exists|p: int|
                0 <= p < k && is_swallowed(assignments, #[trigger] headers[p]) && remainder(
                    assignments,
                    headers[p],
                ).1 == (#[trigger] now[q]).end by {
                if q < before.len() {
                    assert(now[q] == before[q]);
                    let p = choose|p: int|
                        0 <= p < k - 1 && is_swallowed(assignments, #[trigger] headers[p])
                            && remainder(assignments, headers[p]).1 == before[q].end;
                    assert(is_swallowed(assignments, headers[p]));
                } else {
                    assert(is_swallowed(assignments, headers[k - 1]));
                }
            }
        } else {
            assert forall|q: int| 0 <= q < now.len() implies exists|p: int|
                0 <= p < k && is_swallowed(assignments, #[trigger] headers[p]) && remainder(
                    assignments,
                    headers[p],
                ).1 == (#[trigger] now[q]).end by {
                let p = choose|p: int|
                    0 <= p < k - 1 && is_swallowed(assignments, #[trigger] headers[p])
                        && remainder(assignments, headers[p]).1 == before[q].end;
                assert(is_swallowed(assignments, headers[p]));
            }
        }
    }
}

proof fn lemma_fitting_spans_are_in_order(text: Seq<char>, spans: Seq<MatchSpan>)
    requires
        spans_fit(text, spans),
    ensures
        in_order(spans),
{
    assert forall|i: int| 0 <= i < spans.len() implies (#[trigger] spans[i]).start
        <= spans[i].end by {
        assert(spans[i].fits(text));
    }
}

/// No byte of the value of a swallowed header is kept: each is part of the value of
/// the assignment, or of a remainder.
pub proof fn law_swallowed_headers_are_dropped(
    text: Seq<char>,
    assignments: Seq<MatchSpan>,
    headers: Seq<MatchSpan>,
    k: int,
    offset: int,
)
    requires
        spans_fit(text, assignments),
        spans_fit(text, headers),
        encode_utf8(text).len() <= usize::MAX,
        0 <= k < headers.len(),
        is_swallowed(assignments, headers[k]),
        headers[k].value_start() <= offset < headers[k].end,
    ensures
        is_dropped(assignments, offset) || is_dropped(remainders(assignments, headers), offset),
{
    let header = headers[k];
    let i = first_ending_after(assignments, header.start as int, 0);
    lemma_first_ending_after(assignments, header.start as int, 0);
    assert(assignments[i].fits(text));
    if offset < assignments[i].end {
        assert(assignments[i].drops(offset));
    } else {
        lemma_remainder_is_kept(text, assignments, headers, k, headers.len());
        let found = remainders(assignments, headers);
        let q = choose|q: int|
            0 <= q < found.len() && (#[trigger] found[q]).start == remainder(assignments, header).0
                && found[q].end == remainder(assignments, header).1 && found[q].prefix is None;
        lemma_first_ending_after(assignments, header.end as int, 0);
        assert(found[q].drops(offset));
    }
}

/// The remainder of a header stands among all of them.
proof fn lemma_remainder_is_kept(
    text: Seq<char>,
    assignments: Seq<MatchSpan>,
    headers: Seq<MatchSpan>,
    k: int,
    n: nat,
)
    requires
        spans_fit(text, assignments),
        spans_fit(text, headers),
        encode_utf8(text).len() <= usize::MAX,
        0 <= k < n <= headers.len(),
        is_swallowed(assignments, headers[k]),
    ensures
        exists|q: int|
            0 <= q < remainders_upto(assignments, headers, n).len() && (
            #[trigger] remainders_upto(assignments, headers, n)[q]).start == remainder(
                assignments,
                headers[k],
            ).0 && remainders_upto(assignments, headers, n)[q].end == remainder(
                assignments,
                headers[k],
            ).1 && remainders_upto(assignments, headers, n)[q].prefix is None,
    decreases n,
{
    let now = remainders_upto(assignments, headers, n);
    let (from, to) = remainder(assignments, headers[k]);
    if k == n - 1 {
        let i = first_ending_after(assignments, headers[k].start as int, 0);
        let j = first_ending_after(assignments, headers[k].end as int, 0);
        lemma_first_ending_after(assignments, headers[k].start as int, 0);
        lemma_first_ending_after(assignments, headers[k].end as int, 0);
        assert(assignments[i].fits(text));
        assert(headers[k].fits(text));
        if j < assignments.len() {
            assert(assignments[j].fits(text));
        }
        assert(now[now.len() - 1].start == from);
    } else {
        lemma_remainder_is_kept(text, assignments, headers, k, (n - 1) as nat);
        let before = remainders_upto(assignments, headers, (n - 1) as nat);
        let q = choose|q: int|
            0 <= q < before.len() && (#[trigger] before[q]).start == from && before[q].end == to
                && before[q].prefix is None;
        assert(now[q] == before[q]);
    }
}

/// The text with every line break written as a single line feed: a carriage
/// return becomes a line feed, and a line feed right after one is dropped.
pub open spec fn normalized_newlines(s: Seq<char>) -> Seq<char>
    decreases s.len(),
{
    if s.len() == 0 {
        Seq::empty()
    } else {
        let before = normalized_newlines(s.drop_last());
        if s.last() == '\r' {
            before.push('\n')
        } else if s.last() == '\n' && s.len() > 1 && s[s.len() - 2] == '\r' {
            before
        } else {
            before.push(s.last())
        }
    }
}

/// Writes every line break of `input` as a single line feed.
pub fn normalize_newlines(input: &str) -> (text: String)
    ensures
        text@ == normalized_newlines(input@),
{
    let mut text = String::new();
    let mut after_return = false;
    for c in it: input.chars()
        invariant
            it.seq() == input@,
            text@ == normalized_newlines(input@.take(it.index())),
            after_return == (it.index() > 0 && input@[it.index() - 1] == '\r'),
    {
        proof {
            assert(input@.take(it.index() + 1).drop_last() == input@.take(it.index()));
        }
        if c == '\r' {
            text.push('\n');
        } else if c != '\n' || !after_return {
            text.push(c);
        }
        after_return = c == '\r';
    }
    proof {
        assert(input@.take(input@.len() as int) == input@);
    }
    text
}

/// The text of a log after its first `k` redaction passes.
pub open spec fn text_after_passes(input: Seq<char>, k: nat) -> Seq<char>
    decreases k,
{
    if k == 0 {
        normalized_newlines(input)
    } else {
        let text = text_after_passes(input, (k - 1) as nat);
        rewritten(text, spans_in_pass(text, k - 1))
    }
}

/// What redaction pass `k` cuts out of a text: the first pass what is left of the
/// headers that an assignment would swallow, the others what their pattern matches.
pub open spec fn spans_in_pass(text: Seq<char>, k: int) -> Seq<MatchSpan> {
    if k == 0 {
        remainders(
            regex_matches(ASSIGNMENT_PATTERN@, text),
            regex_matches(HEADER_PATTERN@, text),
        )
    } else {
        regex_matches(redaction_pattern(k - 1), text)
    }
}

/// What redaction pass `k` cuts out.
pub open spec fn pass_spans(input: Seq<char>, k: int) -> Seq<MatchSpan> {
    spans_in_pass(text_after_passes(input, k as nat), k)
}

/// How many places the first `k` redaction passes replace.
pub open spec fn matches_in_passes(input: Seq<char>, k: nat) -> nat
    decreases k,
{
    if k == 0 {
        0
    } else {
        matches_in_passes(input, (k - 1) as nat) + pass_spans(input, k - 1).len()
    }
}

/// What the patterns match fits the text, and is not too short.
pub open spec fn matches_fit(pattern: Seq<char>, text: Seq<char>) -> bool {
    &&& spans_fit(text, regex_matches(pattern, text))
    &&& spans_are_long(regex_matches(pattern, text))
}

/// What redaction pass `k` cuts out fits the text that is searched, and the
/// matches that it goes by are not too short.
pub open spec fn pass_fits(input: Seq<char>, k: int) -> bool {
    let text = text_after_passes(input, k as nat);
    &&& spans_fit(text, pass_spans(input, k))
    &&& if k == 0 {
        matches_fit(ASSIGNMENT_PATTERN@, text) && matches_fit(HEADER_PATTERN@, text)
    } else {
        matches_fit(redaction_pattern(k - 1), text)
    }
}

/// In every redaction pass what is cut out fits the text that is searched, and the
/// matches are not too short.
pub open spec fn passes_fit(input: Seq<char>) -> bool {
    forall|k: int| 0 <= k < PASS_COUNT ==> #[trigger] pass_fits(input, k)
}

/// The text, with a line feed at its end if it had none.
pub open spec fn ended_with_newline(s: Seq<char>) -> Seq<char> {
    if s.len() > 0 && s.last() == '\n' {
        s
    } else {
        s.push('\n')
    }
}

/// The log text that is stored for `input`.
pub open spec fn redacted_text(input: Seq<char>) -> Seq<char> {
    ended_with_newline(text_after_passes(input, PASS_COUNT as nat))
}

/// How many values are redacted from `input`.
pub open spec fn redaction_count(input: Seq<char>) -> nat {
    matches_in_passes(input, PASS_COUNT as nat)
}

/// Ends `text` with a line feed if it has none there.
fn end_with_newline(text: &mut String)
    ensures
        final(text)@ == ended_with_newline(old(text)@),
{
    let mut ended = false;
    for c in it: text.as_str().chars()
        invariant
            it.seq() == text@,
            ended == (it.index() > 0 && text@[it.index() - 1] == '\n'),
    {
        ended = c == '\n';
    }
    if !ended {
        text.push('\n');
    }
}

/// Encoding goes character by character.
proof fn lemma_encode_concat(a: Seq<char>, b: Seq<char>)
    ensures
        encode_utf8(a + b) == encode_utf8(a) + encode_utf8(b),
    decreases a.len(),
{
    if a.len() == 0 {
        assert(a + b == b);
    } else {
        assert((a + b).drop_first() == a.drop_first() + b);
        lemma_encode_concat(a.drop_first(), b);
    }
}

/// A cut-out piece is made of the very bytes it was cut from, and its
/// characters stand side by side in the text.
proof fn lemma_piece(text: Seq<char>, from: int, to: int)
    requires
        range_fits(text, from, to),
    ensures
        encode_utf8(piece(text, from, to)) == encode_utf8(text).subrange(from, to),
        exists|i: int, j: int|
            0 <= i <= j <= text.len() && piece(text, from, to) == #[trigger] text.subrange(i, j),
{
    broadcast use {
        encode_utf8_valid_utf8,
        encode_utf8_decode_utf8,
        decode_utf8_encode_utf8,
        is_char_boundary_start_end_of_seq,
        is_char_boundary_iff_not_is_continuation_byte,
    };

    let bytes = encode_utf8(text);
    let rest = bytes.subrange(from, bytes.len() as int);
    valid_utf8_split(bytes, from);
    decode_utf8_split(bytes, from);
    assert(is_char_boundary(rest, to - from)) by {
        if to < bytes.len() {
            assert(rest[to - from] == bytes[to]);
            assert(!is_continuation_byte(bytes[to]));
            assert(!is_continuation_byte(rest[to - from]));
        }
    }
    valid_utf8_split(rest, to - from);
    decode_utf8_split(rest, to - from);
    assert(rest.subrange(0, to - from) == bytes.subrange(from, to));
    let i = decode_utf8(bytes.subrange(0, from)).len() as int;
    let j = i + piece(text, from, to).len();
    assert(piece(text, from, to) == text.subrange(i, j));
}

/// A pass adds no carriage return to a text that has none.
pub proof fn law_pass_adds_no_carriage_return(text: Seq<char>, spans: Seq<MatchSpan>)
    requires
        spans_fit(text, spans),
        !text.contains('\r'),
    ensures
        !rewritten(text, spans).contains('\r'),
{
    let n = spans.len() as int;
    lemma_upto_has_no_return(text, spans, spans.len());
    lemma_resume_fits(text, spans, n);
    lemma_piece(text, resume_at(spans, n), encode_utf8(text).len() as int);
}

proof fn lemma_upto_has_no_return(text: Seq<char>, spans: Seq<MatchSpan>, k: nat)
    requires
        spans_fit(text, spans),
        !text.contains('\r'),
        k <= spans.len(),
    ensures
        !rewritten_upto(text, spans, k).contains('\r'),
    decreases k,
{
    if k > 0 {
        let span = spans[k - 1];
        lemma_upto_has_no_return(text, spans, (k - 1) as nat);
        lemma_resume_fits(text, spans, k - 1);
        assert(span.fits(text));
        lemma_piece(text, resume_at(spans, k - 1), span.start as int);
        if let Some((from, to)) = span.prefix {
            lemma_piece(text, from as int, to as int);
        }
        reveal_strlit("<redacted>");
        assert(!REDACTION_MARKER@.contains('\r'));
    }
}

/// Where each byte of a stretch of the searched text came from: its own offset.
pub open spec fn own_offsets(from: int, to: int) -> Seq<Option<int>> {
    Seq::new((to - from) as nat, |i: int| Some(from + i))
}

/// For each byte of the redacted text up to the end of the first `k` matches,
/// the offset in the searched text that it was copied from, or `None` if it
/// belongs to a marker.
pub open spec fn origins_upto(spans: Seq<MatchSpan>, k: nat) -> Seq<Option<int>>
    decreases k,
{
    if k == 0 {
        Seq::empty()
    } else {
        let span = spans[k - 1];
        origins_upto(spans, (k - 1) as nat)
            + own_offsets(resume_at(spans, k - 1), span.start as int)
            + (match span.prefix {
            Some((from, to)) => own_offsets(from as int, to as int),
            None => Seq::empty(),
        }) + Seq::new(encode_utf8(REDACTION_MARKER@).len(), |i: int| None)
    }
}

/// For each byte of the redacted text, the offset in the searched text that it
/// was copied from, or `None` if it belongs to a marker.
pub open spec fn origins(text: Seq<char>, spans: Seq<MatchSpan>) -> Seq<Option<int>> {
    origins_upto(spans, spans.len()) + own_offsets(
        resume_at(spans, spans.len() as int),
        encode_utf8(text).len() as int,
    )
}

impl MatchSpan {
    /// The byte at offset `j` is part of the match, but not of what it keeps.
    pub open spec fn drops(self, j: int) -> bool {
        &&& self.start <= j < self.end
        &&& !(self.prefix matches Some((from, to)) && from <= j < to)
    }
}

/// The byte at offset `j` is part of a value that gets redacted.
pub open spec fn is_dropped(spans: Seq<MatchSpan>, j: int) -> bool {
    exists|i: int| 0 <= i < spans.len() && (#[trigger] spans[i]).drops(j)
}

/// No byte of a redacted value gets into the redacted text, and every other
/// byte does: each byte of the result belongs to a marker or was copied from a
/// byte outside the values, and each byte outside the values was copied.
pub proof fn law_pass_drops_exactly_the_values(text: Seq<char>, spans: Seq<MatchSpan>)
    requires
        spans_fit(text, spans),
    ensures
        origins(text, spans).len() == encode_utf8(rewritten(text, spans)).len(),
        forall|i: int|
            0 <= i < origins(text, spans).len() ==> match #[trigger] origins(text, spans)[i] {
                Some(j) => {
                    &&& 0 <= j < encode_utf8(text).len()
                    &&& encode_utf8(rewritten(text, spans))[i] == encode_utf8(text)[j]
                    &&& !is_dropped(spans, j)
                },
                None => true,
            },
        forall|j: int|
            0 <= j < encode_utf8(text).len() && !is_dropped(spans, j)
                ==> #[trigger] origins(text, spans).contains(Some(j)),
{
    let n = spans.len();
    let bytes = encode_utf8(text);
    let resume = resume_at(spans, n as int);
    lemma_resume_fits(text, spans, n as int);
    lemma_piece(text, resume, bytes.len() as int);
    lemma_encode_concat(rewritten_upto(text, spans, n), piece(text, resume, bytes.len() as int));
    lemma_origins_upto(text, spans, n);
    let before = origins_upto(spans, n);
    let after = own_offsets(resume, bytes.len() as int);
    assert forall|j: int| resume <= j implies !is_dropped(spans, j) by {
        if is_dropped(spans, j) {
            let i = choose|i: int| 0 <= i < spans.len() && (#[trigger] spans[i]).drops(j);
            assert(spans[i].end <= resume);
        }
    }
    assert forall|j: int| 0 <= j < bytes.len() && !is_dropped(spans, j) implies #[trigger] origins(
        text,
        spans,
    ).contains(Some(j)) by {
        if j < resume {
            assert(before.contains(Some(j)));
            let i = choose|i: int| 0 <= i < before.len() && before[i] == Some(j);
            assert(origins(text, spans)[i] == Some(j));
        } else {
            assert(origins(text, spans)[before.len() + (j - resume)] == Some(j));
        }
    }
}

proof fn lemma_origins_upto(text: Seq<char>, spans: Seq<MatchSpan>, k: nat)
    requires
        spans_fit(text, spans),
        k <= spans.len(),
    ensures
        origins_upto(spans, k).len() == encode_utf8(rewritten_upto(text, spans, k)).len(),
        forall|i: int|
            0 <= i < origins_upto(spans, k).len() ==> match #[trigger] origins_upto(spans, k)[i] {
                Some(j) => {
                    &&& 0 <= j < resume_at(spans, k as int)
                    &&& encode_utf8(rewritten_upto(text, spans, k))[i] == encode_utf8(text)[j]
                    &&& !is_dropped(spans, j)
                },
                None => true,
            },
        forall|j: int|
            0 <= j < resume_at(spans, k as int) && !is_dropped(spans, j)
                ==> #[trigger] origins_upto(spans, k).contains(Some(j)),
    decreases k,
{
    if k > 0 {
        let bytes = encode_utf8(text);
        let span = spans[k - 1];
        let resume = resume_at(spans, k - 1);
        let before = origins_upto(spans, (k - 1) as nat);
        let gap = own_offsets(resume, span.start as int);
        let kept = match span.prefix {
            Some((from, to)) => own_offsets(from as int, to as int),
            None => Seq::empty(),
        };
        let marker: Seq<Option<int>> = Seq::new(encode_utf8(REDACTION_MARKER@).len(), |i: int| None);
        let all = origins_upto(spans, k);
        assert(all == before + gap + kept + marker);

        lemma_origins_upto(text, spans, (k - 1) as nat);
        lemma_resume_fits(text, spans, k - 1);
        lemma_resume_fits(text, spans, k as int);
        assert(span.fits(text));

        let t0 = rewritten_upto(text, spans, (k - 1) as nat);
        let t1 = piece(text, resume, span.start as int);
        let t2 = kept_prefix(text, span);
        lemma_piece(text, resume, span.start as int);
        if let Some((from, to)) = span.prefix {
            lemma_piece(text, from as int, to as int);
        }
        lemma_encode_concat(t0, t1);
        lemma_encode_concat(t0 + t1, t2);
        lemma_encode_concat(t0 + t1 + t2, REDACTION_MARKER@);
        let out = encode_utf8(rewritten_upto(text, spans, k));
        assert(out == encode_utf8(t0) + encode_utf8(t1) + encode_utf8(t2) + encode_utf8(
            REDACTION_MARKER@,
        ));
        assert(encode_utf8(t2).len() == kept.len());

        assert forall|j: int| resume <= j < span.start implies !is_dropped(spans, j) by {
            if is_dropped(spans, j) {
                let i = choose|i: int| 0 <= i < spans.len() && (#[trigger] spans[i]).drops(j);
                if i < k - 1 {
                    assert(spans[i].end <= resume);
                } else if i > k - 1 {
                    assert(span.end <= spans[i].start);
                }
            }
        }
        assert forall|j: int| span.start <= j < span.end && !span.drops(j) implies !is_dropped(
            spans,
            j,
        ) by {
            if is_dropped(spans, j) {
                let i = choose|i: int| 0 <= i < spans.len() && (#[trigger] spans[i]).drops(j);
                if i < k - 1 {
                    assert(spans[i].end <= span.start);
                } else if i > k - 1 {
                    assert(span.end <= spans[i].start);
                }
            }
        }
        assert forall|i: int| 0 <= i < all.len() implies match #[trigger] all[i] {
            Some(j) => {
                &&& 0 <= j < resume_at(spans, k as int)
                &&& out[i] == bytes[j]
                &&& !is_dropped(spans, j)
            },
            None => true,
        } by {
            if i < before.len() {
                assert(all[i] == before[i]);
            } else if i < before.len() + gap.len() {
                assert(all[i] == gap[i - before.len()]);
            } else if i < before.len() + gap.len() + kept.len() {
                let at = i - before.len() - gap.len();
                assert(all[i] == kept[at]);
                assert(out[i] == encode_utf8(t2)[at]);
            } else {
                assert(all[i] == marker[i - before.len() - gap.len() - kept.len()]);
            }
        }
        assert forall|j: int|
            0 <= j < resume_at(spans, k as int) && !is_dropped(
                spans,
                j,
            ) implies #[trigger] all.contains(Some(j)) by {
            if j < resume {
                assert(before.contains(Some(j)));
                let i = choose|i: int| 0 <= i < before.len() && before[i] == Some(j);
                assert(all[i] == Some(j));
            } else if j < span.start {
                assert(all[before.len() + (j - resume)] == Some(j));
            } else {
                assert(!span.drops(j));
                let from = match span.prefix {
                    Some((from, _)) => from as int,
                    None => 0,
                };
                assert(all[before.len() + gap.len() + (j - from)] == Some(j));
            }
        }
    }
}

/// What is copied keeps its order, so that no byte is copied twice.
proof fn lemma_origins_increase_upto(text: Seq<char>, spans: Seq<MatchSpan>, k: nat)
    requires
        spans_fit(text, spans),
        k <= spans.len(),
    ensures
        copies_in_order(origins_upto(spans, k)),
    decreases k,
{
    if k > 0 {
        let span = spans[k - 1];
        let resume = resume_at(spans, k - 1);
        let before = origins_upto(spans, (k - 1) as nat);
        let gap = own_offsets(resume, span.start as int);
        let kept = match span.prefix {
            Some((from, to)) => own_offsets(from as int, to as int),
            None => Seq::empty(),
        };
        let marker: Seq<Option<int>> = Seq::new(encode_utf8(REDACTION_MARKER@).len(), |i: int| None);
        lemma_origins_increase_upto(text, spans, (k - 1) as nat);
        lemma_origins_upto(text, spans, (k - 1) as nat);
        lemma_resume_fits(text, spans, k - 1);
        assert(span.fits(text));
        lemma_copies_in_order_concat(before, gap, resume);
        lemma_copies_in_order_concat(before + gap, kept, span.start as int);
        lemma_copies_in_order_concat(before + gap + kept, marker, span.end as int);
    }
}

/// The offsets that bytes were copied from go up.
pub open spec fn copies_in_order(offsets: Seq<Option<int>>) -> bool {
    forall|i: int, j: int|
        0 <= i < j < offsets.len() ==> match (#[trigger] offsets[i], #[trigger] offsets[j]) {
            (Some(a), Some(b)) => a < b,
            _ => true,
        }
}

/// Two stretches of copied bytes, one from before `middle` and one from there on,
/// make one.
proof fn lemma_copies_in_order_concat(a: Seq<Option<int>>, b: Seq<Option<int>>, middle: int)
    requires
        copies_in_order(a),
        copies_in_order(b),
        forall|i: int|
            0 <= i < a.len() ==> match #[trigger] a[i] {
                Some(x) => x < middle,
                None => true,
            },
        forall|i: int|
            0 <= i < b.len() ==> match #[trigger] b[i] {
                Some(x) => x >= middle,
                None => true,
            },
    ensures
        copies_in_order(a + b),
{
    let all = a + b;
    assert forall|i: int, j: int| 0 <= i < j < all.len() implies match (
        #[trigger] all[i],
        #[trigger] all[j],
    ) {
        (Some(x), Some(y)) => x < y,
        _ => true,
    } by {
        if j < a.len() {
            assert(all[i] == a[i] && all[j] == a[j]);
        } else if i < a.len() {
            assert(all[i] == a[i] && all[j] == b[j - a.len()]);
        } else {
            assert(all[i] == b[i - a.len()] && all[j] == b[j - a.len()]);
        }
    }
}

proof fn lemma_origins_increase(text: Seq<char>, spans: Seq<MatchSpan>)
    requires
        spans_fit(text, spans),
    ensures
        copies_in_order(origins(text, spans)),
{
    let n = spans.len();
    lemma_origins_increase_upto(text, spans, n);
    lemma_origins_upto(text, spans, n);
    lemma_resume_fits(text, spans, n as int);
    lemma_copies_in_order_concat(
        origins_upto(spans, n),
        own_offsets(resume_at(spans, n as int), encode_utf8(text).len() as int),
        resume_at(spans, n as int),
    );
}

/// For each byte of the log after its first `k` redaction passes, the offset in the
/// normalised log that it was copied from, or `None` if it belongs to a marker.
pub open spec fn trace(input: Seq<char>, k: nat) -> Seq<Option<int>>
    decreases k,
{
    if k == 0 {
        own_offsets(0, encode_utf8(normalized_newlines(input)).len() as int)
    } else {
        let before = trace(input, (k - 1) as nat);
        origins(text_after_passes(input, (k - 1) as nat), pass_spans(input, k - 1)).map_values(
            |origin: Option<int>|
                match origin {
                    Some(i) => before[i],
                    None => None,
                },
        )
    }
}

/// Redaction pass `k` drops the byte at offset `j` of the normalised log.
pub open spec fn dropped_in_pass(input: Seq<char>, k: int, j: int) -> bool {
    exists|i: int|
        0 <= i < trace(input, k as nat).len() && #[trigger] trace(input, k as nat)[i] == Some(j)
            && is_dropped(pass_spans(input, k), i)
}

/// One of the first `k` redaction passes drops the byte at offset `j` of the
/// normalised log.
pub open spec fn dropped_before(input: Seq<char>, k: int, j: int) -> bool {
    exists|pass: int| 0 <= pass < k && #[trigger] dropped_in_pass(input, pass, j)
}

/// For each byte of the stored log, the offset in the normalised log that it was
/// copied from, or `None` if it belongs to a marker or ends the log.
pub open spec fn stored_trace(input: Seq<char>) -> Seq<Option<int>> {
    let text = text_after_passes(input, PASS_COUNT as nat);
    if text.len() > 0 && text.last() == '\n' {
        trace(input, PASS_COUNT as nat)
    } else {
        trace(input, PASS_COUNT as nat).push(None)
    }
}

/// No byte of the normalised log that any pass drops gets into the stored log, and
/// every other byte does: each byte of the stored log belongs to a marker, ends the
/// log, or was copied from a byte that no pass drops, and each such byte was copied.
pub proof fn law_dropped_bytes_stay_out(input: Seq<char>)
    ensures
        passes_fit(input) ==> {
            let normalized = encode_utf8(normalized_newlines(input));
            let stored = encode_utf8(redacted_text(input));
            &&& stored_trace(input).len() == stored.len()
            &&& forall|i: int|
                0 <= i < stored.len() ==> match #[trigger] stored_trace(input)[i] {
                    Some(j) => {
                        &&& 0 <= j < normalized.len()
                        &&& stored[i] == normalized[j]
                        &&& !dropped_before(input, PASS_COUNT as int, j)
                    },
                    None => true,
                }
            &&& forall|j: int|
                0 <= j < normalized.len() && !dropped_before(input, PASS_COUNT as int, j)
                    ==> #[trigger] stored_trace(input).contains(Some(j))
        },
{
    if passes_fit(input) {
        let text = text_after_passes(input, PASS_COUNT as nat);
        let last = trace(input, PASS_COUNT as nat);
        let normalized = encode_utf8(normalized_newlines(input));
        lemma_trace(input, PASS_COUNT as nat);
        if !(text.len() > 0 && text.last() == '\n') {
            assert(text.push('\n') == text + seq!['\n']);
            lemma_encode_concat(text, seq!['\n']);
            is_ascii_chars_encode_utf8(seq!['\n']);
        }
        assert forall|i: int| 0 <= i < stored_trace(input).len() implies match #[trigger] stored_trace(
            input,
        )[i] {
            Some(j) => {
                &&& 0 <= j < normalized.len()
                &&& encode_utf8(redacted_text(input))[i] == normalized[j]
                &&& !dropped_before(input, PASS_COUNT as int, j)
            },
            None => true,
        } by {
            if i < last.len() {
                assert(stored_trace(input)[i] == last[i]);
                if let Some(j) = last[i] {
                    assert(last.contains(Some(j)));
                }
            }
        }
        assert forall|j: int|
            0 <= j < normalized.len() && !dropped_before(
                input,
                PASS_COUNT as int,
                j,
            ) implies #[trigger] stored_trace(input).contains(Some(j)) by {
            assert(last.contains(Some(j)));
            let i = choose|i: int| 0 <= i < last.len() && last[i] == Some(j);
            assert(stored_trace(input)[i] == Some(j));
        }
    }
}

proof fn lemma_trace(input: Seq<char>, k: nat)
    requires
        passes_fit(input),
        k <= PASS_COUNT,
    ensures
        trace(input, k).len() == encode_utf8(text_after_passes(input, k)).len(),
        copies_in_order(trace(input, k)),
        forall|i: int|
            0 <= i < trace(input, k).len() ==> match #[trigger] trace(input, k)[i] {
                Some(j) => {
                    &&& 0 <= j < encode_utf8(normalized_newlines(input)).len()
                    &&& encode_utf8(text_after_passes(input, k))[i] == encode_utf8(
                        normalized_newlines(input),
                    )[j]
                },
                None => true,
            },
        forall|j: int|
            0 <= j < encode_utf8(normalized_newlines(input)).len() ==> (
            #[trigger] trace(input, k).contains(Some(j)) <==> !dropped_before(input, k as int, j)),
    decreases k,
{
    let normalized = encode_utf8(normalized_newlines(input));
    let now = trace(input, k);
    if k == 0 {
        assert forall|j: int| 0 <= j < normalized.len() implies (#[trigger] now.contains(Some(j))
            <==> !dropped_before(input, k as int, j)) by {
            assert(now[j] == Some(j));
        }
    } else {
        let text = text_after_passes(input, (k - 1) as nat);
        let spans = pass_spans(input, k - 1);
        let before = trace(input, (k - 1) as nat);
        let copied = origins(text, spans);
        lemma_trace(input, (k - 1) as nat);
        assert(pass_fits(input, k - 1));
        law_pass_drops_exactly_the_values(text, spans);
        lemma_origins_increase(text, spans);
        assert forall|i: int, m: int| 0 <= i < m < now.len() implies match (
            #[trigger] now[i],
            #[trigger] now[m],
        ) {
            (Some(a), Some(b)) => a < b,
            _ => true,
        } by {
            if let (Some(a), Some(b)) = (copied[i], copied[m]) {
                assert(now[i] == before[a] && now[m] == before[b]);
            }
        }
        assert forall|i: int| 0 <= i < now.len() implies match #[trigger] now[i] {
            Some(j) => {
                &&& 0 <= j < normalized.len()
                &&& encode_utf8(text_after_passes(input, k))[i] == normalized[j]
            },
            None => true,
        } by {
            if let Some(a) = copied[i] {
                assert(now[i] == before[a]);
            }
        }
        assert forall|j: int| 0 <= j < normalized.len() implies (#[trigger] now.contains(Some(j))
            <==> !dropped_before(input, k as int, j)) by {
            lemma_trace_step(input, k, j);
        }
    }
}

/// A byte gets through the first `k` passes if it gets through those before the
/// last and the last does not drop it.
proof fn lemma_trace_step(input: Seq<char>, k: nat, j: int)
    requires
        passes_fit(input),
        0 < k <= PASS_COUNT,
        copies_in_order(trace(input, (k - 1) as nat)),
        trace(input, (k - 1) as nat).len() == encode_utf8(
            text_after_passes(input, (k - 1) as nat),
        ).len(),
        trace(input, (k - 1) as nat).contains(Some(j)) <==> !dropped_before(input, k - 1, j),
    ensures
        trace(input, k).contains(Some(j)) <==> !dropped_before(input, k as int, j),
{
    let now = trace(input, k);
    let text = text_after_passes(input, (k - 1) as nat);
    let spans = pass_spans(input, k - 1);
    let before = trace(input, (k - 1) as nat);
    let copied = origins(text, spans);
    assert(pass_fits(input, k - 1));
    law_pass_drops_exactly_the_values(text, spans);
    if now.contains(Some(j)) {
        let i = choose|i: int| 0 <= i < now.len() && now[i] == Some(j);
        assert(copied[i] is Some);
        let a = copied[i]->0;
        assert(now[i] == before[a]);
        assert(before.contains(Some(j)));
        if dropped_before(input, k as int, j) {
            let pass = choose|pass: int| 0 <= pass < k && #[trigger] dropped_in_pass(input, pass, j);
            if pass < k - 1 {
                assert(dropped_before(input, k - 1, j));
            } else {
                let b = choose|b: int|
                    0 <= b < before.len() && #[trigger] before[b] == Some(j) && is_dropped(spans, b);
                assert(a == b);
            }
        }
    } else if !dropped_before(input, k as int, j) {
        if dropped_before(input, k - 1, j) {
            let pass = choose|pass: int|
                0 <= pass < k - 1 && #[trigger] dropped_in_pass(input, pass, j);
            assert(dropped_in_pass(input, pass, j));
        }
        let a = choose|a: int| 0 <= a < before.len() && before[a] == Some(j);
        if is_dropped(spans, a) {
            assert(dropped_in_pass(input, k - 1, j));
        }
        assert(copied.contains(Some(a)));
        let i = choose|i: int| 0 <= i < copied.len() && copied[i] == Some(a);
        assert(now[i] == Some(j));
    }
}

/// Normalised text has no carriage return, and normalising it again changes
/// nothing.
pub proof fn law_newlines_normalized(s: Seq<char>)
    ensures
        !normalized_newlines(s).contains('\r'),
        normalized_newlines(normalized_newlines(s)) == normalized_newlines(s),
{
    lemma_normalized_has_no_return(s);
    lemma_normalizing_without_returns(normalized_newlines(s));
}

proof fn lemma_normalized_has_no_return(s: Seq<char>)
    ensures
        !normalized_newlines(s).contains('\r'),
    decreases s.len(),
{
    if s.len() > 0 {
        lemma_normalized_has_no_return(s.drop_last());
    }
}

proof fn lemma_normalizing_without_returns(s: Seq<char>)
    requires
        !s.contains('\r'),
    ensures
        normalized_newlines(s) == s,
    decreases s.len(),
{
    if s.len() > 0 {
        assert(s.contains(s.last()));
        if s.len() > 1 {
            assert(s.contains(s[s.len() - 2]));
        }
        assert(!s.drop_last().contains('\r')) by {
            if s.drop_last().contains('\r') {
                let i = choose|i: int| 0 <= i < s.drop_last().len() && s.drop_last()[i] == '\r';
                assert(s[i] == '\r');
            }
        }
        lemma_normalizing_without_returns(s.drop_last());
        assert(s.drop_last().push(s.last()) == s);
    }
}

/// Where no assignment swallows a header, the first pass changes nothing: the log
/// is redacted by the patterns alone, in their order.
pub proof fn law_only_swallowed_headers_add_a_pass(input: Seq<char>)
    ensures
        ({
            let text = normalized_newlines(input);
            let assignments = regex_matches(ASSIGNMENT_PATTERN@, text);
            let headers = regex_matches(HEADER_PATTERN@, text);
            (forall|k: int| 0 <= k < headers.len() ==> !is_swallowed(assignments, #[trigger] headers[k]))
                ==> text_after_passes(input, 1) == text && matches_in_passes(input, 1) == 0
        }),
{
    let text = normalized_newlines(input);
    let assignments = regex_matches(ASSIGNMENT_PATTERN@, text);
    let headers = regex_matches(HEADER_PATTERN@, text);
    assert(text_after_passes(input, 0) == text);
    assert(matches_in_passes(input, 0) == 0);
    if forall|k: int| 0 <= k < headers.len() ==> !is_swallowed(assignments, #[trigger] headers[k]) {
        lemma_no_remainders(assignments, headers, headers.len());
        lemma_nothing_rewritten(text, pass_spans(input, 0));
    }
}

proof fn lemma_no_remainders(assignments: Seq<MatchSpan>, headers: Seq<MatchSpan>, k: nat)
    requires
        k <= headers.len(),
        forall|i: int| 0 <= i < headers.len() ==> !is_swallowed(assignments, #[trigger] headers[i]),
    ensures
        remainders_upto(assignments, headers, k).len() == 0,
    decreases k,
{
    if k > 0 {
        lemma_no_remainders(assignments, headers, (k - 1) as nat);
        assert(!is_swallowed(assignments, headers[k - 1]));
    }
}

/// A log in which no pattern finds anything is stored as it came, but for its
/// line breaks, and nothing is counted.
pub proof fn law_clean_log_is_kept(input: Seq<char>)
    ensures
        finds_nothing(normalized_newlines(input)) ==> {
            &&& redacted_text(input) == ended_with_newline(normalized_newlines(input))
            &&& redaction_count(input) == 0
        },
{
    if finds_nothing(normalized_newlines(input)) {
        lemma_clean_passes(input, PASS_COUNT as nat);
    }
}

/// No pattern matches anywhere in `text`.
pub open spec fn finds_nothing(text: Seq<char>) -> bool {
    forall|i: int|
        0 <= i < PATTERN_COUNT ==> regex_matches(#[trigger] redaction_pattern(i), text).len() == 0
}

proof fn lemma_clean_passes(input: Seq<char>, k: nat)
    requires
        k <= PASS_COUNT,
        finds_nothing(normalized_newlines(input)),
    ensures
        text_after_passes(input, k) == normalized_newlines(input),
        matches_in_passes(input, k) == 0,
    decreases k,
{
    if k > 0 {
        lemma_clean_passes(input, (k - 1) as nat);
        let text = normalized_newlines(input);
        let spans = pass_spans(input, k - 1);
        assert(regex_matches(redaction_pattern(1), text).len() == 0);
        if k > 1 {
            assert(regex_matches(redaction_pattern(k - 2), text).len() == 0);
        }
        assert(spans.len() == 0);
        lemma_nothing_rewritten(text, spans);
    }
}

/// A text without matches stays as it is.
proof fn lemma_nothing_rewritten(text: Seq<char>, spans: Seq<MatchSpan>)
    requires
        spans.len() == 0,
    ensures
        rewritten(text, spans) == text,
{
    encode_utf8_decode_utf8(text);
    assert(encode_utf8(text).subrange(0, encode_utf8(text).len() as int) == encode_utf8(text));
}

/// A log that is too short for any match, such as an empty one, is stored as it
/// came, but for its line breaks, and nothing is counted.
pub proof fn law_short_log_is_kept(input: Seq<char>)
    ensures
        passes_fit(input) && encode_utf8(normalized_newlines(input)).len() < MIN_MATCH_BYTES ==> {
            &&& redacted_text(input) == ended_with_newline(normalized_newlines(input))
            &&& redaction_count(input) == 0
        },
{
    if passes_fit(input) && encode_utf8(normalized_newlines(input)).len() < MIN_MATCH_BYTES {
        lemma_short_passes(input, PASS_COUNT as nat);
    }
}

proof fn lemma_short_passes(input: Seq<char>, k: nat)
    requires
        k <= PASS_COUNT,
        passes_fit(input),
        encode_utf8(normalized_newlines(input)).len() < MIN_MATCH_BYTES,
    ensures
        text_after_passes(input, k) == normalized_newlines(input),
        matches_in_passes(input, k) == 0,
    decreases k,
{
    if k > 0 {
        lemma_short_passes(input, (k - 1) as nat);
        assert(pass_fits(input, k - 1));
        let text = normalized_newlines(input);
        let spans = pass_spans(input, k - 1);
        let matches = if k == 1 {
            regex_matches(HEADER_PATTERN@, text)
        } else {
            spans
        };
        lemma_matches_fill(text, matches, matches.len() as int);
        assert(spans.len() == 0);
        lemma_nothing_rewritten(text, spans);
    }
}

/// A redacted log and the number of values that were redacted.
pub struct RedactionResult {
    pub text: String,
    pub replacements: usize,
}

/// Redacts what an assignment would leave of a header that it swallows, so that the
/// name of the header is still there to go by.
fn redact_swallowed_headers(text: &str) -> (result: RedactionResult)
    ensures
        result.text@ == rewritten(text@, spans_in_pass(text@, 0)),
        result.replacements == spans_in_pass(text@, 0).len(),
        MIN_MATCH_BYTES * result.replacements <= usize::MAX,
        spans_fit(text@, spans_in_pass(text@, 0)),
        matches_fit(ASSIGNMENT_PATTERN@, text@),
        matches_fit(HEADER_PATTERN@, text@),
{
    assert(redaction_pattern(0) == ASSIGNMENT_PATTERN@);
    assert(redaction_pattern(1) == HEADER_PATTERN@);
    let assignments = find_matches(ASSIGNMENT_PATTERN, text);
    let headers = find_matches(HEADER_PATTERN, text);
    // The matches lie side by side in a text whose length fits in `usize`.
    let _text_bytes: usize = text.as_bytes().len();
    proof {
        lemma_fitting_spans_are_in_order(text@, assignments@);
        lemma_fitting_spans_are_in_order(text@, headers@);
        lemma_remainders_fit(text@, assignments@, headers@, headers@.len());
        lemma_matches_fill(text@, headers@, headers@.len() as int);
    }
    let spans = swallowed_headers(&assignments, &headers);
    RedactionResult { text: redact_matches(text, &spans), replacements: spans.len() }
}

/// Normalises the line breaks of a log, redacts it pass by pass, and ends it with
/// a line feed.
pub fn redact_text(input: &str) -> (result: RedactionResult)
    ensures
        result.text@ == redacted_text(input@),
        result.replacements == redaction_count(input@),
        passes_fit(input@),
        !result.text@.contains('\r'),
        result.text@.len() > 0,
        result.text@.last() == '\n',
{
    let normalized = normalize_newlines(input);
    let first = redact_swallowed_headers(normalized.as_str());
    proof {
        law_newlines_normalized(input@);
        law_pass_adds_no_carriage_return(normalized@, pass_spans(input@, 0));
        assert(text_after_passes(input@, 0) == normalized@);
        assert(pass_fits(input@, 0));
        assert(matches_in_passes(input@, 0) == 0);
    }
    let mut text = first.text;
    let mut replacements: usize = first.replacements;
    let mut pass: usize = 1;
    while pass < PASS_COUNT
        invariant
            1 <= pass <= PASS_COUNT,
            text@ == text_after_passes(input@, pass as nat),
            replacements == matches_in_passes(input@, pass as nat),
            MIN_MATCH_BYTES * replacements <= pass * usize::MAX,
            !text@.contains('\r'),
            forall|k: int| 0 <= k < pass ==> #[trigger] pass_fits(input@, k),
        decreases PASS_COUNT - pass,
    {
        let pattern = pattern_for(pass - 1);
        let spans = find_matches(pattern, text.as_str());
        // The matches lie side by side in a text whose length fits in `usize`.
        let _text_bytes: usize = text.as_str().as_bytes().len();
        proof {
            assert(pass_fits(input@, pass as int));
            lemma_matches_fill(text@, spans@, spans@.len() as int);
            law_pass_adds_no_carriage_return(text@, spans@);
        }
        text = redact_matches(text.as_str(), &spans);
        replacements += spans.len();
        pass += 1;
    }
    end_with_newline(&mut text);
    RedactionResult { text, replacements }
}

/// Cutting one match more, behind the others, changes the text from the end of the
/// match before it on: what lies between the two stays, then comes the first group of
/// the match if it has one, then the marker, and then all that follows the match.
/// `head` is what stands before.
pub proof fn law_each_match_is_cut_in_its_place(
    text: Seq<char>,
    spans: Seq<MatchSpan>,
    span: MatchSpan,
) -> (head: Seq<char>)
    requires
        spans_fit(text, spans.push(span)),
    ensures
        ({
            let bytes = encode_utf8(text);
            let resume = if spans.len() == 0 {
                0
            } else {
                spans.last().end as int
            };
            let kept = match span.prefix {
                Some((from, to)) => decode_utf8(bytes.subrange(from as int, to as int)),
                None => Seq::empty(),
            };
            &&& rewritten(text, spans) == head + decode_utf8(
                bytes.subrange(resume, bytes.len() as int),
            )
            &&& rewritten(text, spans.push(span)) == head + decode_utf8(
                bytes.subrange(resume, span.start as int),
            ) + kept + "<redacted>"@ + decode_utf8(
                bytes.subrange(span.end as int, bytes.len() as int),
            )
        }),
        rewritten(text, Seq::empty()) == text,
{
    let n = spans.len();
    let longer = spans.push(span);
    lemma_nothing_rewritten(text, Seq::empty());
    lemma_rewritten_upto_push(text, spans, span, n);
    assert(longer[n as int] == span);
    assert(resume_at(longer, n as int) == resume_at(spans, n as int));
    assert(resume_at(longer, (n + 1) as int) == span.end);
    rewritten_upto(text, spans, n)
}

proof fn lemma_rewritten_upto_push(
    text: Seq<char>,
    spans: Seq<MatchSpan>,
    span: MatchSpan,
    k: nat,
)
    requires
        k <= spans.len(),
    ensures
        rewritten_upto(text, spans.push(span), k) == rewritten_upto(text, spans, k),
    decreases k,
{
    if k > 0 {
        lemma_rewritten_upto_push(text, spans, span, (k - 1) as nat);
        assert(spans.push(span)[k - 1] == spans[k - 1]);
        assert(resume_at(spans.push(span), k - 1) == resume_at(spans, k - 1));
    }
}

/// `from` says of each byte of `new` which byte of `old` it was copied from, if any.
pub open spec fn is_copy(old_text: Seq<char>, new_text: Seq<char>, from: Seq<Option<int>>) -> bool {
    &&& from.len() == encode_utf8(new_text).len()
    &&& copies_in_order(from)
    &&& forall|q: int|
        0 <= q < from.len() ==> match #[trigger] from[q] {
            Some(j) => {
                &&& 0 <= j < encode_utf8(old_text).len()
                &&& encode_utf8(new_text)[q] == encode_utf8(old_text)[j]
            },
            None => true,
        }
}

/// Each of the five patterns is searched for in turn, and every match that the
/// search reports is cut: of each of them every byte outside its first group is
/// dropped, no other byte is, and each of them counts. `from` says where the bytes of
/// the text after the pass come from.
pub proof fn law_every_match_is_cut(input: Seq<char>, p: int) -> (from: Seq<Option<int>>)
    requires
        0 <= p < 5,
    ensures
        passes_fit(input) ==> {
            let pattern = seq![
                ASSIGNMENT_PATTERN@,
                HEADER_PATTERN@,
                FIELD_PATTERN@,
                QUERY_PATTERN@,
                GITHUB_TOKEN_PATTERN@,
            ][p];
            let text = text_after_passes(input, (p + 1) as nat);
            let matches = regex_matches(pattern, text);
            let after = text_after_passes(input, (p + 2) as nat);
            &&& is_copy(text, after, from)
            &&& forall|i: int, j: int|
                0 <= i < matches.len() && #[trigger] matches[i].drops(j) ==> !from.contains(Some(j))
            &&& forall|j: int|
                0 <= j < encode_utf8(text).len() && (forall|i: int|
                    0 <= i < matches.len() ==> !(#[trigger] matches[i]).drops(j))
                    ==> #[trigger] from.contains(Some(j))
            &&& after == rewritten(text, matches)
            &&& matches_in_passes(input, (p + 2) as nat) == matches_in_passes(
                input,
                (p + 1) as nat,
            ) + matches.len()
        },
{
    let text = text_after_passes(input, (p + 1) as nat);
    let matches = regex_matches(redaction_pattern(p), text);
    let after = text_after_passes(input, (p + 2) as nat);
    let from = origins(text, matches);
    if passes_fit(input) {
        assert(pass_fits(input, p + 1));
        law_pass_drops_exactly_the_values(text, matches);
        lemma_origins_increase(text, matches);
        assert(seq![
            ASSIGNMENT_PATTERN@,
            HEADER_PATTERN@,
            FIELD_PATTERN@,
            QUERY_PATTERN@,
            GITHUB_TOKEN_PATTERN@,
        ][p] == redaction_pattern(p));
        assert(pass_spans(input, p + 1) == matches);
        assert(after == rewritten(text, matches));
        assert(matches_in_passes(input, (p + 2) as nat) == matches_in_passes(input, (p + 1) as nat)
            + matches.len());
        assert forall|i: int, j: int|
            0 <= i < matches.len() && #[trigger] matches[i].drops(j) implies !from.contains(
            Some(j),
        ) by {
            if from.contains(Some(j)) {
                let q = choose|q: int| 0 <= q < from.len() && from[q] == Some(j);
                assert(from[q] == Some(j));
                assert(is_dropped(matches, j));
            }
        }
        assert forall|j: int|
            0 <= j < encode_utf8(text).len() && (forall|i: int|
                0 <= i < matches.len() ==> !(#[trigger] matches[i]).drops(
                    j,
                )) implies #[trigger] from.contains(Some(j)) by {
            assert(!is_dropped(matches, j));
        }
    }
    from
}

/// A log is redacted by what the first pass makes of it, and then by all matches of
/// each of the five patterns in turn, and nothing else is done to it but for a line
/// feed at its end where there is none; what is counted is every place that is cut.
pub proof fn law_redaction_goes_through_all_patterns(input: Seq<char>)
    ensures
        ({
            let t1 = text_after_passes(input, 1);
            let m1 = regex_matches(ASSIGNMENT_PATTERN@, t1);
            let t2 = rewritten(t1, m1);
            let m2 = regex_matches(HEADER_PATTERN@, t2);
            let t3 = rewritten(t2, m2);
            let m3 = regex_matches(FIELD_PATTERN@, t3);
            let t4 = rewritten(t3, m3);
            let m4 = regex_matches(QUERY_PATTERN@, t4);
            let t5 = rewritten(t4, m4);
            let m5 = regex_matches(GITHUB_TOKEN_PATTERN@, t5);
            let t6 = rewritten(t5, m5);
            &&& redaction_count(input) == matches_in_passes(input, 1) + m1.len() + m2.len()
                + m3.len() + m4.len() + m5.len()
            &&& t6.len() > 0 && t6.last() == '\n' ==> redacted_text(input) == t6
            &&& t6.len() == 0 || t6.last() != '\n' ==> redacted_text(input) == t6 + seq!['\n']
        }),
{
    assert(text_after_passes(input, 2) == rewritten(
        text_after_passes(input, 1),
        spans_in_pass(text_after_passes(input, 1), 1),
    ));
    assert(text_after_passes(input, 3) == rewritten(
        text_after_passes(input, 2),
        spans_in_pass(text_after_passes(input, 2), 2),
    ));
    assert(text_after_passes(input, 4) == rewritten(
        text_after_passes(input, 3),
        spans_in_pass(text_after_passes(input, 3), 3),
    ));
    assert(text_after_passes(input, 5) == rewritten(
        text_after_passes(input, 4),
        spans_in_pass(text_after_passes(input, 4), 4),
    ));
    assert(text_after_passes(input, 6) == rewritten(
        text_after_passes(input, 5),
        spans_in_pass(text_after_passes(input, 5), 5),
    ));
    assert(matches_in_passes(input, 2) == matches_in_passes(input, 1) + pass_spans(input, 1).len());
    assert(matches_in_passes(input, 3) == matches_in_passes(input, 2) + pass_spans(input, 2).len());
    assert(matches_in_passes(input, 4) == matches_in_passes(input, 3) + pass_spans(input, 3).len());
    assert(matches_in_passes(input, 5) == matches_in_passes(input, 4) + pass_spans(input, 4).len());
    assert(matches_in_passes(input, 6) == matches_in_passes(input, 5) + pass_spans(input, 5).len());
    let last = text_after_passes(input, 6);
    assert(last.push('\n') =~= last + seq!['\n']);
}

/// Where a match has its value: behind its first group, if it has one.
pub open spec fn behind_first_group(span: MatchSpan) -> int {
    match span.prefix {
        Some((_, to)) => to as int,
        None => span.start as int,
    }
}

/// The value of an assignment takes in the name of a header and ends within the
/// header.
pub open spec fn cuts_header(assignment: MatchSpan, header: MatchSpan) -> bool {
    &&& behind_first_group(assignment) < behind_first_group(header)
    &&& header.start < assignment.end < header.end
}

/// The first pass drops, of every header that any assignment cuts, what lies behind
/// the assignment; besides, at most the rest of such a header's value and of the
/// assignments that begin before its end. Where no assignment cuts a header it
/// changes nothing and counts nothing. `from` says where the bytes of the text after
/// the pass come from.
pub proof fn law_first_pass_drops_what_is_left_of_headers(input: Seq<char>) -> (from: Seq<
    Option<int>,
>)
    ensures
        passes_fit(input) && encode_utf8(normalized_newlines(input)).len() <= usize::MAX ==> {
            let text = normalized_newlines(input);
            let after = text_after_passes(input, 1);
            let assignments = regex_matches(ASSIGNMENT_PATTERN@, text);
            let headers = regex_matches(HEADER_PATTERN@, text);
            &&& is_copy(text, after, from)
            &&& forall|i: int, k: int, j: int|
                #![trigger assignments[i], headers[k], from.contains(Some(j))]
                0 <= i < assignments.len() && 0 <= k < headers.len() && cuts_header(
                    assignments[i],
                    headers[k],
                ) && assignments[i].end <= j < headers[k].end && behind_first_group(headers[k]) <= j
                    ==> !from.contains(Some(j))
            &&& forall|j: int|
                0 <= j < encode_utf8(text).len() && !(#[trigger] from.contains(Some(j)))
                    ==> exists|i: int, k: int|
                    0 <= i < assignments.len() && 0 <= k < headers.len() && cuts_header(
                        #[trigger] assignments[i],
                        #[trigger] headers[k],
                    ) && assignments[i].end <= j && behind_first_group(headers[k]) <= j && (j
                        < headers[k].end || exists|m: int|
                        0 <= m < assignments.len() && (#[trigger] assignments[m]).start
                            < headers[k].end && j < assignments[m].end)
            &&& (forall|i: int, k: int|
                0 <= i < assignments.len() && 0 <= k < headers.len() ==> !cuts_header(
                    #[trigger] assignments[i],
                    #[trigger] headers[k],
                )) ==> after == text && matches_in_passes(input, 1) == 0
        },
{
    let text = normalized_newlines(input);
    let assignments = regex_matches(ASSIGNMENT_PATTERN@, text);
    let headers = regex_matches(HEADER_PATTERN@, text);
    let spans = remainders(assignments, headers);
    let from = origins(text, spans);
    if passes_fit(input) && encode_utf8(text).len() <= usize::MAX {
        assert(text_after_passes(input, 0) == text);
        assert(pass_fits(input, 0));
        assert(pass_spans(input, 0) == spans);
        assert(text_after_passes(input, 1) == rewritten(text, spans));
        law_pass_drops_exactly_the_values(text, spans);
        lemma_origins_increase(text, spans);
        lemma_fitting_spans_are_in_order(text, assignments);
        lemma_fitting_spans_are_in_order(text, headers);
        assert forall|i: int, k: int, j: int|
            #![trigger assignments[i], headers[k], from.contains(Some(j))]
            0 <= i < assignments.len() && 0 <= k < headers.len() && cuts_header(
                assignments[i],
                headers[k],
            ) && assignments[i].end <= j < headers[k].end && behind_first_group(headers[k])
                <= j implies !from.contains(Some(j)) by {
            lemma_cut_is_swallowed(text, assignments, headers[k], i);
            let first = first_ending_after(assignments, headers[k].start as int, 0);
            lemma_remainder_is_kept(text, assignments, headers, k, headers.len());
            let q = choose|q: int|
                0 <= q < spans.len() && (#[trigger] spans[q]).start == remainder(
                    assignments,
                    headers[k],
                ).0 && spans[q].end == remainder(assignments, headers[k]).1
                    && spans[q].prefix is None;
            lemma_first_ending_after(assignments, headers[k].end as int, 0);
            assert(spans[q].drops(j));
            assert(is_dropped(spans, j));
            if from.contains(Some(j)) {
                let b = choose|b: int| 0 <= b < from.len() && from[b] == Some(j);
                assert(from[b] == Some(j));
            }
        }
        assert forall|j: int|
            0 <= j < encode_utf8(text).len() && !(#[trigger] from.contains(
                Some(j),
            )) implies exists|i: int, k: int|
            0 <= i < assignments.len() && 0 <= k < headers.len() && cuts_header(
                #[trigger] assignments[i],
                #[trigger] headers[k],
            ) && assignments[i].end <= j && behind_first_group(headers[k]) <= j && (j
                < headers[k].end || exists|m: int|
                0 <= m < assignments.len() && (#[trigger] assignments[m]).start < headers[k].end
                    && j < assignments[m].end) by {
            assert(is_dropped(spans, j));
            let q = choose|q: int| 0 <= q < spans.len() && (#[trigger] spans[q]).drops(j);
            let k = lemma_remainder_has_a_header(text, assignments, headers, headers.len(), q);
            let i = first_ending_after(assignments, headers[k].start as int, 0);
            let m = first_ending_after(assignments, headers[k].end as int, 0);
            lemma_first_ending_after(assignments, headers[k].start as int, 0);
            lemma_first_ending_after(assignments, headers[k].end as int, 0);
            assert(cuts_header(assignments[i], headers[k]));
            if j >= headers[k].end {
                assert(assignments[m].start < headers[k].end && j < assignments[m].end);
            }
        }
        if forall|i: int, k: int|
            0 <= i < assignments.len() && 0 <= k < headers.len() ==> !cuts_header(
                #[trigger] assignments[i],
                #[trigger] headers[k],
            ) {
            assert forall|k: int| 0 <= k < headers.len() implies !is_swallowed(
                assignments,
                #[trigger] headers[k],
            ) by {
                let i = first_ending_after(assignments, headers[k].start as int, 0);
                lemma_first_ending_after(assignments, headers[k].start as int, 0);
                if i < assignments.len() {
                    assert(!cuts_header(assignments[i], headers[k]));
                }
            }
            law_only_swallowed_headers_add_a_pass(input);
        }
    }
    from
}

/// A header that any assignment cuts is swallowed, and by one that ends no later.
proof fn lemma_cut_is_swallowed(
    text: Seq<char>,
    assignments: Seq<MatchSpan>,
    header: MatchSpan,
    i: int,
)
    requires
        spans_fit(text, assignments),
        0 <= i < assignments.len(),
        cuts_header(assignments[i], header),
    ensures
        is_swallowed(assignments, header),
        assignments[first_ending_after(assignments, header.start as int, 0)].end
            <= assignments[i].end,
{
    let first = first_ending_after(assignments, header.start as int, 0);
    lemma_first_ending_after(assignments, header.start as int, 0);
    assert(first <= i);
    assert(assignments[first].fits(text));
    assert(assignments[i].fits(text));
    if first < i {
        assert(assignments[first].end <= assignments[i].start);
    }
}

/// Each remainder is that of a header.
proof fn lemma_remainder_has_a_header(
    text: Seq<char>,
    assignments: Seq<MatchSpan>,
    headers: Seq<MatchSpan>,
    n: nat,
    q: int,
) -> (k: int)
    requires
        spans_fit(text, assignments),
        spans_fit(text, headers),
        encode_utf8(text).len() <= usize::MAX,
        n <= headers.len(),
        0 <= q < remainders_upto(assignments, headers, n).len(),
    ensures
        0 <= k < n,
        is_swallowed(assignments, headers[k]),
        remainders_upto(assignments, headers, n)[q].start == remainder(assignments, headers[k]).0,
        remainders_upto(assignments, headers, n)[q].end == remainder(assignments, headers[k]).1,
    decreases n,
{
    let header = headers[n - 1];
    let before = remainders_upto(assignments, headers, (n - 1) as nat);
    if q < before.len() {
        lemma_remainder_has_a_header(text, assignments, headers, (n - 1) as nat, q)
    } else {
        let i = first_ending_after(assignments, header.start as int, 0);
        let j = first_ending_after(assignments, header.end as int, 0);
        lemma_first_ending_after(assignments, header.start as int, 0);
        lemma_first_ending_after(assignments, header.end as int, 0);
        assert(assignments[i].fits(text));
        assert(header.fits(text));
        if j < assignments.len() {
            assert(assignments[j].fits(text));
        }
        n - 1
    }
}

/// A carriage return with the line feed behind it becomes a line feed, and so does
/// one without; whatever stands before and behind is normalised by itself, and a
/// text without carriage returns stays as it is.
pub proof fn law_newlines_are_normalized_one_by_one(a: Seq<char>, b: Seq<char>)
    ensures
        normalized_newlines(a + seq!['\r', '\n'] + b) == normalized_newlines(a) + seq!['\n']
            + normalized_newlines(b),
        b.len() == 0 || b[0] != '\n' ==> normalized_newlines(a + seq!['\r'] + b)
            == normalized_newlines(a) + seq!['\n'] + normalized_newlines(b),
        !a.contains('\r') ==> normalized_newlines(a) == a,
{
    let crlf = a + seq!['\r', '\n'];
    let cr = a + seq!['\r'];
    assert(crlf.drop_last() =~= cr);
    assert(cr.drop_last() =~= a);
    assert(normalized_newlines(cr) == normalized_newlines(a).push('\n'));
    assert(normalized_newlines(crlf) == normalized_newlines(cr));
    assert(normalized_newlines(a).push('\n') =~= normalized_newlines(a) + seq!['\n']);
    lemma_normalizing_splits(crlf, b);
    if b.len() == 0 || b[0] != '\n' {
        lemma_normalizing_splits(cr, b);
    }
    if !a.contains('\r') {
        lemma_normalizing_without_returns(a);
    }
}

proof fn lemma_normalizing_splits(a: Seq<char>, b: Seq<char>)
    requires
        a.len() == 0 || a.last() != '\r' || b.len() == 0 || b[0] != '\n',
    ensures
        normalized_newlines(a + b) == normalized_newlines(a) + normalized_newlines(b),
    decreases b.len(),
{
    let all = a + b;
    if b.len() == 0 {
        assert(all =~= a);
        assert(normalized_newlines(a) + normalized_newlines(b) =~= normalized_newlines(a));
    } else {
        lemma_normalizing_splits(a, b.drop_last());
        assert(all.drop_last() =~= a + b.drop_last());
        assert(all.last() == b.last());
        if b.len() > 1 {
            assert(all[all.len() - 2] == b[b.len() - 2]);
        } else if a.len() > 0 {
            assert(all[all.len() - 2] == a.last());
        }
        assert(normalized_newlines(all) =~= normalized_newlines(a) + normalized_newlines(b));
    }
}

/// The patterns as they are searched for: sensitive keys with `=`, header lines,
/// sensitive keys with `:`, parameters of a URL query, and GitHub tokens.
pub proof fn law_patterns()
    ensures
        ASSIGNMENT_PATTERN@
            == r#"(?i)\b((?:password|passwd|token|secret|credential|ticket|auth)\b\s*=\s*)("[^"]*"|'[^']*'|[^\s&]+)"#@,
        HEADER_PATTERN@ == r#"(?im)^(\s*(authorization|cookie)\s*:\s*).+$"#@,
        FIELD_PATTERN@
            == r#"(?i)\b((?:password|passwd|token|secret|credential|ticket|auth)\b\s*:\s*)("[^"]*"|'[^']*'|[^\s&]+)"#@,
        QUERY_PATTERN@ == r#"(?i)([?&](?:token|secret|password|ticket|auth)=)[^&\s]+"#@,
        GITHUB_TOKEN_PATTERN@ == r#"\bgh[pousr]_[A-Za-z0-9_]{16,}\b"#@,
        REDACTION_MARKER@ == "<redacted>"@,
{
}

/// The first pass cuts one place for each header that an assignment cuts: from where
/// the assignment or the header's name ends, whichever is later, to the end of the
/// header at least. It keeps nothing of it, and each place counts.
pub proof fn law_first_pass_cuts_one_place_for_each_header(input: Seq<char>) -> (spans: Seq<
    MatchSpan,
>)
    ensures
        passes_fit(input) && encode_utf8(normalized_newlines(input)).len() <= usize::MAX ==> {
            let text = normalized_newlines(input);
            let assignments = regex_matches(ASSIGNMENT_PATTERN@, text);
            let headers = regex_matches(HEADER_PATTERN@, text);
            &&& spans_fit(text, spans)
            &&& text_after_passes(input, 1) == rewritten(text, spans)
            &&& matches_in_passes(input, 1) == spans.len()
            &&& spans.len() <= headers.len()
            &&& forall|q: int|
                0 <= q < spans.len() ==> (#[trigger] spans[q]).prefix is None && exists|
                    i: int,
                    k: int,
                |
                    0 <= i < assignments.len() && 0 <= k < headers.len() && cuts_header(
                        #[trigger] assignments[i],
                        #[trigger] headers[k],
                    ) && headers[k].end <= spans[q].end && spans[q].start == if assignments[i].end
                        < behind_first_group(headers[k]) {
                        behind_first_group(headers[k])
                    } else {
                        assignments[i].end as int
                    }
        },
{
    let text = normalized_newlines(input);
    let assignments = regex_matches(ASSIGNMENT_PATTERN@, text);
    let headers = regex_matches(HEADER_PATTERN@, text);
    let spans = remainders(assignments, headers);
    if passes_fit(input) && encode_utf8(text).len() <= usize::MAX {
        assert(text_after_passes(input, 0) == text);
        assert(pass_fits(input, 0));
        assert(pass_spans(input, 0) == spans);
        assert(text_after_passes(input, 1) == rewritten(text, spans));
        assert(matches_in_passes(input, 0) == 0);
        assert(matches_in_passes(input, 1) == spans.len());
        lemma_remainders_are_few(assignments, headers, headers.len());
        assert forall|q: int| 0 <= q < spans.len() implies (#[trigger] spans[q]).prefix is None
            && exists|i: int, k: int|
            0 <= i < assignments.len() && 0 <= k < headers.len() && cuts_header(
                #[trigger] assignments[i],
                #[trigger] headers[k],
            ) && headers[k].end <= spans[q].end && spans[q].start == if assignments[i].end
                < behind_first_group(headers[k]) {
                behind_first_group(headers[k])
            } else {
                assignments[i].end as int
            } by {
            let k = lemma_remainder_has_a_header(text, assignments, headers, headers.len(), q);
            let i = first_ending_after(assignments, headers[k].start as int, 0);
            lemma_first_ending_after(assignments, headers[k].start as int, 0);
            lemma_first_ending_after(assignments, headers[k].end as int, 0);
            assert(cuts_header(assignments[i], headers[k]));
        }
    }
    spans
}

/// There are no more remainders than headers, and none of them keeps anything.
proof fn lemma_remainders_are_few(
    assignments: Seq<MatchSpan>,
    headers: Seq<MatchSpan>,
    k: nat,
)
    requires
        k <= headers.len(),
    ensures
        remainders_upto(assignments, headers, k).len() <= k,
        forall|q: int|
            0 <= q < remainders_upto(assignments, headers, k).len() ==> (
            #[trigger] remainders_upto(assignments, headers, k)[q]).prefix is None,
    decreases k,
{
    if k > 0 {
        lemma_remainders_are_few(assignments, headers, (k - 1) as nat);
    }
}

} // verus!
