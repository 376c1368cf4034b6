//! Ingestion: uploaded documents and the job state machine around them.
//!
//! The worker owns the machine stages (extraction, OCR, transcription); this
//! module owns everything a person does to a job: reviewing, verifying,
//! retrying, escalating and deleting it. Each of those is a decision made from
//! what is stored about the job, and each is stated here exactly.
//!
//! The invariant this module exists to protect: a note is only ever created
//! from text a human has accepted. Verification is the only door from machine
//! output to `VERIFIED`.
use vstd::prelude::*;
use vstd::pervasive::VecAdditionalExecFns;
use crate::text::{
    all_white, append_decimal, ascii_lowercase, chars_of, decimal, is_blank, is_only_spaces,
    join_with, lemma_join_push, lowercase_ascii_range, only_spaces, push_char, same_text,
    squash_spaces, squash_whitespace, string_from_chars,
};

verus! {

broadcast use vstd::string::group_string_axioms;

/// Where a job is in the pipeline.
#[derive(Debug, Clone, Copy, PartialEq, Eq, Structural)]
pub enum JobState {
    /// File is stored; nothing has read it yet.
    Uploaded,
    /// A worker has claimed it and is pulling text out.
    Extracting,
    /// Text exists and is waiting for a human to read it.
    NeedsReview,
    /// A human accepted the text. Only now may it become a note.
    Verified,
    /// The note exists.
    Done,
    /// A stage failed. Retryable.
    Error,
}

/// The name a state is stored under.
pub open spec fn state_name(s: JobState) -> Seq<char> {
    match s {
        JobState::Uploaded => "UPLOADED"@,
        JobState::Extracting => "EXTRACTING"@,
        JobState::NeedsReview => "NEEDS_REVIEW"@,
        JobState::Verified => "VERIFIED"@,
        JobState::Done => "DONE"@,
        JobState::Error => "ERROR"@,
    }
}

impl JobState {
    /// The stored name of this state.
    pub fn as_str(self) -> (r: &'static str)
        ensures
            r@ == state_name(self),
    {
        match self {
            JobState::Uploaded => "UPLOADED",
            JobState::Extracting => "EXTRACTING",
            JobState::NeedsReview => "NEEDS_REVIEW",
            JobState::Verified => "VERIFIED",
            JobState::Done => "DONE",
            JobState::Error => "ERROR",
        }
    }

    /// The state stored under `s`; any other text is refused.
    pub fn parse(s: &str) -> (r: Result<JobState, String>)
        ensures
            match r {
                Ok(st) => state_name(st) == s@,
                Err(e) => (forall|st: JobState| state_name(st) != s@) && e@ == "unknown job state '"@
                    + s@ + "'"@,
            },
    {
        if same_text(s, "UPLOADED") {
            Ok(JobState::Uploaded)
        } else if same_text(s, "EXTRACTING") {
            Ok(JobState::Extracting)
        } else if same_text(s, "NEEDS_REVIEW") {
            Ok(JobState::NeedsReview)
        } else if same_text(s, "VERIFIED") {
            Ok(JobState::Verified)
        } else if same_text(s, "DONE") {
            Ok(JobState::Done)
        } else if same_text(s, "ERROR") {
            Ok(JobState::Error)
        } else {
            let mut e = "unknown job state '".to_owned();
            e.append(s);
            e.append("'");
            Err(e)
        }
    }
}

/// Each state has a name of its own, so a stored name gives back the state
/// it was written from: `parse(as_str(s)) == Ok(s)`.
pub proof fn law_state_names_are_distinct(a: JobState, b: JobState)
    ensures
        state_name(a) == state_name(b) ==> a == b,
{
    reveal_strlit("UPLOADED");
    reveal_strlit("EXTRACTING");
    reveal_strlit("NEEDS_REVIEW");
    reveal_strlit("VERIFIED");
    reveal_strlit("DONE");
    reveal_strlit("ERROR");
    if state_name(a) == state_name(b) {
        assert(state_name(a).len() == state_name(b).len());
        assert(state_name(a)[0] == state_name(b)[0]);
    }
}


// ---------------------------------------------------------------------------
// Payloads
// ---------------------------------------------------------------------------

/// Metadata captured at upload, carried into the note and its citations.
#[derive(Debug)]
pub struct DocumentMeta {
    pub title: Option<String>,
    pub doc_date: Option<String>,
    pub speaker: Option<String>,
    pub context: Option<String>,
}

impl Default for DocumentMeta {
    fn default() -> (r: DocumentMeta)
        ensures
            r.title is None && r.doc_date is None && r.speaker is None && r.context is None,
    {
        DocumentMeta { title: None, doc_date: None, speaker: None, context: None }
    }
}

/// A page of a scanned document, as shown in review.
#[derive(Debug)]
pub struct Page {
    pub page_id: i64,
    pub page_no: i64,
    pub image_path: String,
    pub width: i64,
    pub height: i64,
}

// ---------------------------------------------------------------------------
// Formats
// ---------------------------------------------------------------------------

/// Typed documents: text comes straight out of the file.
pub const TYPED_FORMATS: [&'static str; 4] = ["txt", "md", "docx", "pdf"];

/// Scans and photos: text comes from OCR, with positions on the page.
pub const IMAGE_FORMATS: [&'static str; 6] = ["jpg", "jpeg", "png", "heic", "tiff", "tif"];

/// Recordings: text comes from transcription, with times and speakers.
pub const AUDIO_FORMATS: [&'static str; 5] = ["mp3", "m4a", "wav", "aiff", "flac"];

pub open spec fn typed_formats() -> Seq<Seq<char>> {
    seq!["txt"@, "md"@, "docx"@, "pdf"@]
}

pub open spec fn image_formats() -> Seq<Seq<char>> {
    seq!["jpg"@, "jpeg"@, "png"@, "heic"@, "tiff"@, "tif"@]
}

pub open spec fn audio_formats() -> Seq<Seq<char>> {
    seq!["mp3"@, "m4a"@, "wav"@, "aiff"@, "flac"@]
}

/// A format this library knows how to read.
pub open spec fn known_format(f: Seq<char>) -> bool {
    typed_formats().contains(f) || image_formats().contains(f) || audio_formats().contains(f)
}

/// What kind of source a format is: `"image"`, `"audio"`, or `"typed"`.
pub open spec fn spec_kind(f: Seq<char>) -> Seq<char> {
    if image_formats().contains(f) {
        "image"@
    } else if audio_formats().contains(f) {
        "audio"@
    } else {
        "typed"@
    }
}

/// Every listed format has the kind its list names: each image format is
/// read as an image, each audio format as a recording, each typed format as
/// typed text, and all of them are known.
pub proof fn law_formats_have_the_kind_of_their_list()
    ensures
        forall|i: int| 0 <= i < 6 ==> spec_kind(#[trigger] IMAGE_FORMATS@[i]@) == "image"@ && known_format(
            IMAGE_FORMATS@[i]@,
        ),
        forall|i: int| 0 <= i < 5 ==> spec_kind(#[trigger] AUDIO_FORMATS@[i]@) == "audio"@ && known_format(
            AUDIO_FORMATS@[i]@,
        ),
        forall|i: int| 0 <= i < 4 ==> spec_kind(#[trigger] TYPED_FORMATS@[i]@) == "typed"@ && known_format(
            TYPED_FORMATS@[i]@,
        ),
{
    reveal_strlit("txt");
    reveal_strlit("md");
    reveal_strlit("docx");
    reveal_strlit("pdf");
    reveal_strlit("jpg");
    reveal_strlit("jpeg");
    reveal_strlit("png");
    reveal_strlit("heic");
    reveal_strlit("tiff");
    reveal_strlit("tif");
    reveal_strlit("mp3");
    reveal_strlit("m4a");
    reveal_strlit("wav");
    reveal_strlit("aiff");
    reveal_strlit("flac");
    assert forall|i: int| 0 <= i < 6 implies spec_kind(#[trigger] IMAGE_FORMATS@[i]@) == "image"@
        && known_format(IMAGE_FORMATS@[i]@) by {
        assert(image_formats()[i] == IMAGE_FORMATS@[i]@);
    }
    assert forall|i: int| 0 <= i < 5 implies spec_kind(#[trigger] AUDIO_FORMATS@[i]@) == "audio"@
        && known_format(AUDIO_FORMATS@[i]@) by {
        let f = AUDIO_FORMATS@[i]@;
        assert(audio_formats()[i] == f);
        assert forall|j: int| 0 <= j < 6 implies #[trigger] image_formats()[j] != f by {
            assert(image_formats()[j][0] != f[0] || image_formats()[j].len() != f.len()
                || image_formats()[j][1] != f[1]);
        }
    }
    assert forall|i: int| 0 <= i < 4 implies spec_kind(#[trigger] TYPED_FORMATS@[i]@) == "typed"@
        && known_format(TYPED_FORMATS@[i]@) by {
        let f = TYPED_FORMATS@[i]@;
        assert(typed_formats()[i] == f);
        assert forall|j: int| 0 <= j < 6 implies #[trigger] image_formats()[j] != f by {
            assert(image_formats()[j][0] != f[0] || image_formats()[j].len() != f.len()
                || image_formats()[j][1] != f[1]);
        }
        assert forall|j: int| 0 <= j < 5 implies #[trigger] audio_formats()[j] != f by {
            assert(audio_formats()[j][0] != f[0] || audio_formats()[j].len() != f.len()
                || audio_formats()[j][1] != f[1]);
        }
    }
}

fn listed<const N: usize>(list: &[&str; N], f: &str) -> (r: bool)
    ensures
        r == exists|i: int| 0 <= i < N && #[trigger] list@[i]@ == f@,
{
    let mut i: usize = 0;
    while i < N
        invariant
            i <= N,
            list@.len() == N,
            forall|j: int| 0 <= j < i ==> #[trigger] list@[j]@ != f@,
        decreases N - i,
    {
        if same_text(list[i], f) {
            return true;
        }
        i = i + 1;
    }
    false
}

fn is_image_format(f: &str) -> (r: bool)
    ensures
        r == image_formats().contains(f@),
{
    let r = listed(&IMAGE_FORMATS, f);
    proof {
        reveal_strlit("jpg");
        reveal_strlit("jpeg");
        reveal_strlit("png");
        reveal_strlit("heic");
        reveal_strlit("tiff");
        reveal_strlit("tif");
        if r {
            let i = choose|i: int| 0 <= i < 6 && #[trigger] IMAGE_FORMATS@[i]@ == f@;
            assert(image_formats()[i] == f@);
        }
        if image_formats().contains(f@) {
            let i = choose|i: int| 0 <= i < 6 && image_formats()[i] == f@;
            assert(IMAGE_FORMATS@[i]@ == f@);
        }
    }
    r
}


fn is_typed_format(f: &str) -> (r: bool)
    ensures
        r == typed_formats().contains(f@),
{
    let r = listed(&TYPED_FORMATS, f);
    proof {
        if r {
            let i = choose|i: int| 0 <= i < 4 && #[trigger] TYPED_FORMATS@[i]@ == f@;
            assert(typed_formats()[i] == f@);
        }
        if typed_formats().contains(f@) {
            let i = choose|i: int| 0 <= i < 4 && typed_formats()[i] == f@;
            assert(TYPED_FORMATS@[i]@ == f@);
        }
    }
    r
}

fn is_audio_format(f: &str) -> (r: bool)
    ensures
        r == audio_formats().contains(f@),
{
    let r = listed(&AUDIO_FORMATS, f);
    proof {
        if r {
            let i = choose|i: int| 0 <= i < 5 && #[trigger] AUDIO_FORMATS@[i]@ == f@;
            assert(audio_formats()[i] == f@);
        }
        if audio_formats().contains(f@) {
            let i = choose|i: int| 0 <= i < 5 && audio_formats()[i] == f@;
            assert(AUDIO_FORMATS@[i]@ == f@);
        }
    }
    r
}

/// What kind of source a document is, which decides both the engine that
/// reads it and the shape of the review UI.
pub fn kind_of(format: &str) -> (r: &'static str)
    ensures
        r@ == spec_kind(format@),
{
    if is_image_format(format) {
        "image"
    } else if is_audio_format(format) {
        "audio"
    } else {
        "typed"
    }
}

/// Index of the last `.` in `s`, or -1 when there is none.
pub open spec fn last_dot(s: Seq<char>) -> int
    decreases s.len(),
{
    if s.len() == 0 {
        -1
    } else if s.last() == '.' {
        s.len() - 1
    } else {
        last_dot(s.drop_last())
    }
}

/// The lower-cased text after the last `.` of a file name; empty when the
/// name has no `.`.
pub open spec fn extension(name: Seq<char>) -> Seq<char> {
    let d = last_dot(name);
    if d < 0 {
        seq![]
    } else {
        ascii_lowercase(name.subrange(d + 1, name.len() as int))
    }
}

proof fn lemma_last_dot_before(base: Seq<char>, ext: Seq<char>)
    requires
        !ext.contains('.'),
    ensures
        last_dot(base + seq!['.'] + ext) == base.len(),
    decreases ext.len(),
{
    let x = base + seq!['.'] + ext;
    if ext.len() > 0 {
        assert(x.last() == ext.last());
        assert(ext.last() == ext[ext.len() - 1]);
        assert(x.drop_last() =~= base + seq!['.'] + ext.drop_last());
        assert(!ext.drop_last().contains('.')) by {
            if ext.drop_last().contains('.') {
                let k = choose|k: int| 0 <= k < ext.drop_last().len() && ext.drop_last()[k] == '.';
                assert(ext[k] == '.');
            }
        }
        lemma_last_dot_before(base, ext.drop_last());
    } else {
        assert(x =~= base.push('.'));
    }
}

proof fn lemma_no_dot(s: Seq<char>)
    requires
        !s.contains('.'),
    ensures
        last_dot(s) < 0,
    decreases s.len(),
{
    if s.len() > 0 {
        assert(s.last() == s[s.len() - 1]);
        assert(!s.drop_last().contains('.')) by {
            if s.drop_last().contains('.') {
                let k = choose|k: int| 0 <= k < s.drop_last().len() && s.drop_last()[k] == '.';
                assert(s[k] == '.');
            }
        }
        lemma_no_dot(s.drop_last());
    }
}

/// A file's format is what follows its last dot, lower-cased: a name ending
/// in `.ext`, where `ext` holds no dot, has format `ext` in lower case,
/// whatever comes before; a name without a dot has no format.
pub proof fn law_the_format_is_the_last_extension(base: Seq<char>, ext: Seq<char>)
    ensures
        !ext.contains('.') ==> extension(base + seq!['.'] + ext) == ascii_lowercase(ext),
        !base.contains('.') ==> extension(base) == Seq::<char>::empty(),
{
    if !ext.contains('.') {
        lemma_last_dot_before(base, ext);
        let x = base + seq!['.'] + ext;
        assert(x.subrange(base.len() + 1int, x.len() as int) =~= ext);
    }
    if !base.contains('.') {
        lemma_no_dot(base);
    }
}

/// The message that refuses a file of an unknown format.
pub open spec fn unknown_format_message(filename: Seq<char>) -> Seq<char> {
    "'"@ + filename
        + "' isn't a format Rooted can read (documents: txt, md, docx, pdf; scans: jpg, jpeg, png, heic, tiff, tif; audio: mp3, m4a, wav, aiff, flac)"@
}

/// The format of an uploaded file, from its extension (case-insensitive).
pub fn format_of(filename: &str) -> (r: Result<String, String>)
    ensures
        known_format(extension(filename@)) ==> r is Ok && r->Ok_0@ == extension(filename@),
        !known_format(extension(filename@)) ==> r is Err && r->Err_0@ == unknown_format_message(
            filename@,
        ),
{
    let v = chars_of(filename);
    let mut dot: Option<usize> = None;
    let mut i: usize = 0;
    while i < v.len()
        invariant
            v@ == filename@,
            i <= v@.len(),
            match dot {
                None => last_dot(v@.take(i as int)) == -1,
                Some(d) => last_dot(v@.take(i as int)) == d && d < i,
            },
        decreases v@.len() - i,
    {
        proof {
            assert(v@.take(i + 1).drop_last() =~= v@.take(i as int));
        }
        if v[i] == '.' {
            dot = Some(i);
        }
        i = i + 1;
    }
    assert(v@.take(v@.len() as int) =~= v@);
    let ext = match dot {
        None => String::new(),
        Some(d) => lowercase_ascii_range(&v, d + 1, v.len()),
    };
    assert(ext@ =~= extension(filename@));
    if is_typed_format(ext.as_str()) || is_image_format(ext.as_str()) || is_audio_format(
        ext.as_str(),
    ) {
        Ok(ext)
    } else {
        let mut e = "'".to_owned();
        e.append(filename);
        e.append(
            "' isn't a format Rooted can read (documents: txt, md, docx, pdf; scans: jpg, jpeg, png, heic, tiff, tif; audio: mp3, m4a, wav, aiff, flac)",
        );
        Err(e)
    }
}


// ---------------------------------------------------------------------------
// The job list
// ---------------------------------------------------------------------------

/// How much of a job's text the job list shows.
pub const PREVIEW_CHARS: usize = 140;

/// The first line or so of a job's text: its words on one line, cut to
/// `PREVIEW_CHARS` characters with an ellipsis when longer.
pub open spec fn preview(text: Seq<char>) -> Seq<char> {
    let flat = squash_whitespace(text);
    if flat.len() > PREVIEW_CHARS {
        flat.take(PREVIEW_CHARS as int).push('\u{2026}')
    } else {
        flat
    }
}

/// A preview is short and faithful: at most `PREVIEW_CHARS` characters of
/// the text with its whitespace squashed, plus an ellipsis only when
/// something was cut; a text that fits is shown whole.
pub proof fn law_previews_are_short_and_faithful(text: Seq<char>)
    ensures
        preview(text).len() <= PREVIEW_CHARS + 1,
        squash_whitespace(text).len() <= PREVIEW_CHARS ==> preview(text) == squash_whitespace(text),
        squash_whitespace(text).len() > PREVIEW_CHARS ==> preview(text).len() == PREVIEW_CHARS + 1
            && preview(text).last() == '\u{2026}' && squash_whitespace(text).take(PREVIEW_CHARS as int)
            == preview(text).take(PREVIEW_CHARS as int),
{
    let flat = squash_whitespace(text);
    if flat.len() > PREVIEW_CHARS {
        assert(preview(text).take(PREVIEW_CHARS as int) =~= flat.take(PREVIEW_CHARS as int));
    }
}

/// The job list's preview of a job's text.
pub fn preview_of(text: &str) -> (r: String)
    ensures
        r@ == preview(text@),
{
    let flat = squash_spaces(text);
    let v = chars_of(flat.as_str());
    if v.len() > PREVIEW_CHARS {
        let mut r = string_from_chars(&v, 0, PREVIEW_CHARS);
        push_char(&mut r, '\u{2026}');
        r
    } else {
        flat
    }
}

// ---------------------------------------------------------------------------
// Human transitions
// ---------------------------------------------------------------------------

/// What a person can do to a job.
#[derive(Debug)]
pub enum ReviewAction {
    /// Accept the extracted text, possibly corrected.
    Verify,
    /// Put a failed or unsatisfying job back in the queue.
    Retry,
    /// Ask for the page's lines to be re-read off the machine.
    Escalate,
}

/// A job whose text is waiting for (or has just had) a human's approval.
pub open spec fn awaiting_review(s: JobState) -> bool {
    s == JobState::NeedsReview || s == JobState::Verified
}

/// A job that may go back to the front of the queue.
pub open spec fn requeueable(s: JobState) -> bool {
    s == JobState::Error || s == JobState::NeedsReview
}

/// The state a person's action moves a job to, or `None` when the action is
/// refused in that state. `has_pages` says whether page images were stored.
pub open spec fn human_step(s: JobState, a: ReviewAction, has_pages: bool) -> Option<JobState> {
    match a {
        ReviewAction::Verify => if awaiting_review(s) {
            Some(JobState::Verified)
        } else {
            None
        },
        ReviewAction::Retry => if requeueable(s) {
            Some(JobState::Uploaded)
        } else {
            None
        },
        ReviewAction::Escalate => if requeueable(s) && has_pages {
            Some(JobState::Uploaded)
        } else {
            None
        },
    }
}

/// Which jobs a person may act on: text is accepted only from a job awaiting
/// review (`NEEDS_REVIEW`, or `VERIFIED` again), and only a failed job or one
/// awaiting review goes back to the queue; a finished, unread or already
/// verified job is never requeued.
pub proof fn law_who_may_be_verified_or_requeued(s: JobState, has_pages: bool)
    ensures
        awaiting_review(s) <==> (s == JobState::NeedsReview || s == JobState::Verified),
        requeueable(s) <==> (s == JobState::Error || s == JobState::NeedsReview),
        human_step(s, ReviewAction::Verify, has_pages) is Some <==> (s == JobState::NeedsReview || s
            == JobState::Verified),
        human_step(s, ReviewAction::Retry, has_pages) == (if s == JobState::Error || s
            == JobState::NeedsReview {
            Some(JobState::Uploaded)
        } else {
            None
        }),
        human_step(s, ReviewAction::Escalate, has_pages) == (if (s == JobState::Error || s
            == JobState::NeedsReview) && has_pages {
            Some(JobState::Uploaded)
        } else {
            None
        }),
{
}

/// Verification is the only door to `VERIFIED`.
pub proof fn law_only_verification_reaches_verified(s: JobState, a: ReviewAction, has_pages: bool)
    ensures
        human_step(s, a, has_pages) == Some(JobState::Verified) ==> a is Verify,
{
}

/// Nothing a person does moves a finished job, or a job nobody has read yet
/// into review.
pub proof fn law_finished_and_unread_jobs_cannot_be_verified(a: ReviewAction, has_pages: bool)
    ensures
        human_step(JobState::Done, a, has_pages) is None,
        human_step(JobState::Uploaded, ReviewAction::Verify, has_pages) is None,
        human_step(JobState::Extracting, ReviewAction::Verify, has_pages) is None,
{
}

/// `"job <id> <rest>"`.
pub open spec fn job_message(job_id: i64, rest: Seq<char>) -> Seq<char> {
    "job "@ + decimal(job_id as int) + rest
}

/// `"job <id> is <STATE>; <tail>"`.
pub open spec fn state_refusal(job_id: i64, s: JobState, tail: Seq<char>) -> Seq<char> {
    job_message(job_id, " is "@ + state_name(s) + "; "@ + tail)
}

fn job_text(job_id: i64, rest: &str) -> (r: String)
    ensures
        r@ == job_message(job_id, rest@),
{
    let mut r = "job ".to_owned();
    append_decimal(&mut r, job_id);
    r.append(rest);
    assert(r@ =~= job_message(job_id, rest@));
    r
}

fn refusal(job_id: i64, s: JobState, tail: &str) -> (r: String)
    ensures
        r@ == state_refusal(job_id, s, tail@),
{
    let mut r = "job ".to_owned();
    append_decimal(&mut r, job_id);
    r.append(" is ");
    r.append(s.as_str());
    r.append("; ");
    r.append(tail);
    assert(r@ =~= state_refusal(job_id, s, tail@));
    r
}

/// The job's state, from what is stored for it (`None`: no such job).
pub fn current_state(job_id: i64, stored: Option<String>) -> (r: Result<JobState, String>)
    ensures
        stored is None ==> r is Err && r->Err_0@ == job_message(job_id, " not found"@),
        stored is Some ==> match r {
            Ok(st) => state_name(st) == stored->Some_0@,
            Err(e) => (forall|st: JobState| state_name(st) != stored->Some_0@) && e@
                == "unknown job state '"@ + stored->Some_0@ + "'"@,
        },
{
    match stored {
        None => Err(job_text(job_id, " not found")),
        Some(raw) => JobState::parse(raw.as_str()),
    }
}

/// What accepting a job's text writes back.
#[derive(Debug)]
pub struct Verification {
    /// The accepted text.
    pub text: String,
    /// Whether the accepted text has ever differed from what was read.
    pub edited: bool,
    /// The job's new state.
    pub state: JobState,
}

pub open spec fn only_review_message() -> Seq<char> {
    "only a job awaiting review can be verified"@
}

pub open spec fn empty_verification_message() -> Seq<char> {
    "a verified document can't be empty"@
}

/// Accept the extracted text of a job, possibly after correcting it.
///
/// `extraction` is the stored extraction, if any: its text and whether it
/// was already marked edited. Refused unless the job awaits review, the text
/// is not blank and an extraction exists, in that order.
pub fn plan_verification(
    job_id: i64,
    state: JobState,
    text: &str,
    extraction: Option<(String, bool)>,
) -> (r: Result<Verification, String>)
    ensures
        !awaiting_review(state) ==> r is Err && r->Err_0@ == state_refusal(
            job_id,
            state,
            only_review_message(),
        ),
        awaiting_review(state) && all_white(text@) ==> r is Err && r->Err_0@
            == empty_verification_message(),
        awaiting_review(state) && !all_white(text@) && extraction is None ==> r is Err
            && r->Err_0@ == job_message(job_id, " has no extracted text"@),
        awaiting_review(state) && !all_white(text@) && extraction is Some ==> r is Ok && ({
            let v = r->Ok_0;
            let (original, was_edited) = extraction->Some_0;
            &&& v.text@ == text@
            &&& v.edited == (was_edited || text@ != original@)
            &&& Some(v.state) == human_step(state, ReviewAction::Verify, false)
        }),
{
    if !(state == JobState::NeedsReview || state == JobState::Verified) {
        return Err(refusal(job_id, state, "only a job awaiting review can be verified"));
    }
    if is_blank(text) {
        return Err("a verified document can't be empty".to_owned());
    }
    match extraction {
        None => Err(job_text(job_id, " has no extracted text")),
        Some((original, was_edited)) => {
            let changed = !same_text(text, original.as_str());
            Ok(Verification { text: text.to_owned(), edited: was_edited || changed, state: JobState::Verified })
        },
    }
}

/// What sending a job back to the queue writes.
#[derive(Debug)]
pub struct Requeue {
    /// The job's new state.
    pub state: JobState,
    /// Whether the job is now marked for re-reading off the machine. When
    /// false the stored mark is left as it is.
    pub escalate: bool,
}

/// Push a failed job, or one whose reading was unsatisfying, back to the
/// front of the queue, to be read again on this machine.
pub fn plan_retry(job_id: i64, state: JobState) -> (r: Result<Requeue, String>)
    ensures
        !requeueable(state) ==> r is Err && r->Err_0@ == state_refusal(job_id, state, "nothing to retry"@),
        requeueable(state) ==> r is Ok && Some(r->Ok_0.state) == human_step(state, ReviewAction::Retry, false)
            && !r->Ok_0.escalate,
{
    if !(state == JobState::Error || state == JobState::NeedsReview) {
        return Err(refusal(job_id, state, "nothing to retry"));
    }
    Ok(Requeue { state: JobState::Uploaded, escalate: false })
}

pub open spec fn no_pages_message() -> Seq<char> {
    "this was read as text on this machine; there are no page images to send"@
}

/// Ask for a scan's lines to be re-read off the machine. Only a page has
/// lines to crop, so a job whose document stored no page images is refused.
pub fn plan_escalation(job_id: i64, state: JobState, page_count: i64) -> (r: Result<Requeue, String>)
    ensures
        !requeueable(state) ==> r is Err && r->Err_0@ == state_refusal(job_id, state, "nothing to re-read"@),
        requeueable(state) && page_count == 0 ==> r is Err && r->Err_0@ == no_pages_message(),
        requeueable(state) && page_count != 0 ==> r is Ok && Some(r->Ok_0.state) == human_step(
            state,
            ReviewAction::Escalate,
            true,
        ) && r->Ok_0.escalate,
{
    if !(state == JobState::Error || state == JobState::NeedsReview) {
        return Err(refusal(job_id, state, "nothing to re-read"));
    }
    if page_count == 0 {
        return Err(
            "this was read as text on this machine; there are no page images to send".to_owned(),
        );
    }
    Ok(Requeue { state: JobState::Uploaded, escalate: true })
}

/// What deleting a job removes.
#[derive(Debug)]
pub struct JobDeletion {
    /// The job's document.
    pub doc_id: i64,
    /// The document (with its pages and spans) stays, because a note was made
    /// from it; only the job goes.
    pub keep_document: bool,
}

/// Delete a job. `job` is its stored `(doc_id, note_id)`, if it exists;
/// `doc_has_note` says whether some note names the document as its source.
///
/// A note already made is the user's, not the pipeline's: if it came from
/// this document, the document is kept and only the job is removed.
/// Otherwise the document goes with the job.
pub fn plan_job_deletion(job_id: i64, job: Option<(i64, Option<i64>)>, doc_has_note: bool) -> (r:
    Result<JobDeletion, String>)
    ensures
        job is None ==> r is Err && r->Err_0@ == job_message(job_id, " not found"@),
        job is Some ==> r is Ok && r->Ok_0.doc_id == job->Some_0.0 && r->Ok_0.keep_document == (
        job->Some_0.1 is Some && doc_has_note),
{
    match job {
        None => Err(job_text(job_id, " not found")),
        Some((doc_id, note_id)) => Ok(
            JobDeletion { doc_id, keep_document: note_id.is_some() && doc_has_note },
        ),
    }
}

/// The files a deletion leaves unreferenced: the stored upload and its page
/// images, unless the document is kept.
pub fn orphaned_files(deletion: &JobDeletion, stored: Vec<String>, pages: Vec<String>) -> (r: Vec<
    String,
>)
    ensures
        deletion.keep_document ==> r@.len() == 0,
        !deletion.keep_document ==> r@ == stored@ + pages@,
{
    if deletion.keep_document {
        Vec::new()
    } else {
        let mut r = stored;
        let mut p = pages;
        r.append(&mut p);
        r
    }
}


// ---------------------------------------------------------------------------
// Span-by-span review of scans and recordings
// ---------------------------------------------------------------------------

/// One span's text as the person correcting it left it.
#[derive(Debug)]
pub struct SpanEdit {
    pub span_id: i64,
    pub text: String,
}

/// A recognised span of a document, as stored: its id, its text and whether
/// a person has ever corrected it. A document's spans are kept in reading
/// order.
#[derive(Debug)]
pub struct ReviewSpan {
    pub span_id: i64,
    pub text: String,
    pub edited: bool,
}

pub ghost struct ReviewSpanView {
    pub span_id: i64,
    pub text: Seq<char>,
    pub edited: bool,
}

impl View for ReviewSpan {
    type V = ReviewSpanView;

    open spec fn view(&self) -> ReviewSpanView {
        ReviewSpanView { span_id: self.span_id, text: self.text@, edited: self.edited }
    }
}

pub open spec fn spans_view(v: Seq<ReviewSpan>) -> Seq<ReviewSpanView> {
    v.map_values(|s: ReviewSpan| s@)
}

/// Give every span numbered `id` the text `t`; a span whose text changes is
/// marked edited for good.
pub open spec fn apply_edit(spans: Seq<ReviewSpanView>, id: i64, t: Seq<char>) -> Seq<ReviewSpanView> {
    spans.map_values(
        |s: ReviewSpanView|
            if s.span_id == id {
                ReviewSpanView { span_id: id, text: t, edited: s.edited || s.text != t }
            } else {
                s
            },
    )
}

pub open spec fn holds_span(spans: Seq<ReviewSpanView>, id: i64) -> bool {
    exists|i: int| 0 <= i < spans.len() && #[trigger] spans[i].span_id == id
}

/// The document's spans after the edits, one after another; `None` when an
/// edit names a span the document does not have.
pub open spec fn apply_edits(spans: Seq<ReviewSpanView>, edits: Seq<SpanEdit>) -> Option<
    Seq<ReviewSpanView>,
>
    decreases edits.len(),
{
    if edits.len() == 0 {
        Some(spans)
    } else {
        match apply_edits(spans, edits.drop_last()) {
            Some(s) => if holds_span(s, edits.last().span_id) {
                Some(apply_edit(s, edits.last().span_id, edits.last().text@))
            } else {
                None
            },
            None => None,
        }
    }
}

/// The lines the reviewed text is made of: each span's text, in reading
/// order, leaving out spans that were emptied.
pub open spec fn review_lines(spans: Seq<ReviewSpanView>) -> Seq<Seq<char>> {
    spans.filter(|s: ReviewSpanView| !only_spaces(s.text)).map_values(|s: ReviewSpanView| s.text)
}

/// A correction stays in place: every span keeps its position and number;
/// the span with the edited number takes the new text and is marked edited
/// when the text changed (and stays marked once it was); every other span is
/// untouched.
pub proof fn law_a_correction_stays_in_place(spans: Seq<ReviewSpanView>, id: i64, t: Seq<char>)
    ensures
        apply_edit(spans, id, t).len() == spans.len(),
        forall|i: int|
            0 <= i < spans.len() ==> (#[trigger] apply_edit(spans, id, t)[i]).span_id == spans[i].span_id,
        forall|i: int|
            0 <= i < spans.len() && spans[i].span_id == id ==> (#[trigger] apply_edit(spans, id, t)[i]).text == t
                && apply_edit(spans, id, t)[i].edited == (spans[i].edited || spans[i].text != t),
        forall|i: int|
            0 <= i < spans.len() && spans[i].span_id != id ==> #[trigger] apply_edit(spans, id, t)[i]
                == spans[i],
{
}

/// The reviewed text is rebuilt line by line from the spans in reading
/// order: a span of plain spaces adds no line, any other span adds its text.
pub proof fn law_text_is_rebuilt_from_the_spans(spans: Seq<ReviewSpanView>, s: ReviewSpanView)
    ensures
        review_lines(Seq::<ReviewSpanView>::empty()) == Seq::<Seq<char>>::empty(),
        only_spaces(s.text) ==> review_lines(spans.push(s)) == review_lines(spans),
        !only_spaces(s.text) ==> review_lines(spans.push(s)) == review_lines(spans).push(s.text),
{
    let p = |x: ReviewSpanView| !only_spaces(x.text);
    let m = |x: ReviewSpanView| x.text;
    reveal(Seq::filter);
    assert(Seq::<ReviewSpanView>::empty().filter(p) =~= Seq::<ReviewSpanView>::empty());
    spans.lemma_filter_push(s, p);
    assert(spans.filter(p).push(s).map_values(m) =~= spans.filter(p).map_values(m).push(s.text));
}

pub open spec fn any_edited(spans: Seq<ReviewSpanView>) -> bool {
    exists|i: int| 0 <= i < spans.len() && #[trigger] spans[i].edited
}

pub open spec fn all_edits_blank(edits: Seq<SpanEdit>) -> bool {
    forall|i: int| 0 <= i < edits.len() ==> all_white(#[trigger] edits[i].text@)
}

/// What accepting a scan or recording span by span writes back.
#[derive(Debug)]
pub struct SpanVerification {
    /// The document's spans, corrected, in reading order.
    pub spans: Vec<ReviewSpan>,
    /// The reviewed text, rebuilt from the spans.
    pub text: String,
    /// Whether any span has ever been corrected.
    pub edited: bool,
    /// The job's new state.
    pub state: JobState,
}

/// The edit at `k` is the first one naming a span the document lacks.
pub open spec fn refused_at(spans: Seq<ReviewSpanView>, edits: Seq<SpanEdit>, k: int) -> bool {
    &&& 0 <= k < edits.len()
    &&& apply_edits(spans, edits.take(k)) is Some
    &&& apply_edits(spans, edits.take(k + 1)) is None
}

pub open spec fn foreign_span_message(span_id: i64) -> Seq<char> {
    "span "@ + decimal(span_id as int) + " does not belong to this document"@
}

proof fn lemma_apply_edits_stays_refused(spans: Seq<ReviewSpanView>, edits: Seq<SpanEdit>, k: int)
    requires
        0 <= k <= edits.len(),
        apply_edits(spans, edits.take(k)) is None,
    ensures
        apply_edits(spans, edits) is None,
    decreases edits.len() - k,
{
    if k < edits.len() {
        assert(edits.take(k + 1).drop_last() =~= edits.take(k));
        lemma_apply_edits_stays_refused(spans, edits, k + 1);
    } else {
        assert(edits.take(k) =~= edits);
    }
}

/// Only one edit can be the first refused one, so a refusal names one span.
pub proof fn lemma_refused_at_is_unique(
    spans: Seq<ReviewSpanView>,
    edits: Seq<SpanEdit>,
    j: int,
    k: int,
)
    requires
        refused_at(spans, edits, j),
        refused_at(spans, edits, k),
    ensures
        j == k,
{
    if j < k {
        assert(edits.take(k).take(j + 1) =~= edits.take(j + 1));
        lemma_apply_edits_stays_refused(spans, edits.take(k), j + 1);
    } else if k < j {
        assert(edits.take(j).take(k + 1) =~= edits.take(k + 1));
        lemma_apply_edits_stays_refused(spans, edits.take(j), k + 1);
    }
}

fn apply_one_edit(cur: &mut Vec<ReviewSpan>, edit: &SpanEdit) -> (found: bool)
    ensures
        found == holds_span(spans_view(old(cur)@), edit.span_id),
        spans_view(final(cur)@) == apply_edit(spans_view(old(cur)@), edit.span_id, edit.text@),
{
    let ghost before = spans_view(cur@);
    let mut found = false;
    let mut j: usize = 0;
    while j < cur.len()
        invariant
            before == spans_view(old(cur)@),
            cur@.len() == before.len(),
            j <= cur@.len(),
            forall|i: int| #![trigger cur@[i]] 0 <= i < j ==> cur@[i]@ == apply_edit(before, edit.span_id, edit.text@)[i],
            forall|i: int| #![trigger cur@[i]] j <= i < cur@.len() ==> cur@[i]@ == before[i],
            found == exists|i: int| 0 <= i < j && #[trigger] before[i].span_id == edit.span_id,
        decreases cur@.len() - j,
    {
        let ghost prev = cur@;
        if cur[j].span_id == edit.span_id {
            let changed = !same_text(cur[j].text.as_str(), edit.text.as_str());
            let edited = cur[j].edited || changed;
            let t = edit.text.clone();
            assert(changed == (before[j as int].text != edit.text@));
            assert(t@ == edit.text@);
            cur.set(j, ReviewSpan { span_id: edit.span_id, text: t, edited });
            found = true;
            assert(cur@[j as int]@ == ReviewSpanView { span_id: edit.span_id, text: edit.text@, edited: before[j as int].edited || before[j as int].text != edit.text@ });
            assert(cur@[j as int]@ == apply_edit(before, edit.span_id, edit.text@)[j as int]);
        } else {
            assert(cur@[j as int]@ == apply_edit(before, edit.span_id, edit.text@)[j as int]);
        }
        assert forall|i: int| #![trigger cur@[i]] 0 <= i < j + 1 implies cur@[i]@ == apply_edit(before, edit.span_id, edit.text@)[i] by {
            if i < j {
                assert(cur@[i] == prev[i]);
            }
        }
        j = j + 1;
    }
    assert(spans_view(cur@) =~= apply_edit(before, edit.span_id, edit.text@));
    found
}

/// Rebuild the reviewed text: the spans' texts joined with newlines.
pub fn review_text(spans: &Vec<ReviewSpan>) -> (r: String)
    ensures
        r@ == join_with(review_lines(spans_view(spans@)), "\n"@),
{
    let ghost all = spans_view(spans@);
    let mut r = String::new();
    let mut any = false;
    let mut i: usize = 0;
    while i < spans.len()
        invariant
            all == spans_view(spans@),
            i <= spans@.len(),
            r@ == join_with(review_lines(all.take(i as int)), "\n"@),
            any == (review_lines(all.take(i as int)).len() > 0),
        decreases spans@.len() - i,
    {
        let ghost prev = review_lines(all.take(i as int));
        proof {
            assert(all.take(i + 1) =~= all.take(i as int).push(all[i as int]));
            all.take(i as int).lemma_filter_push(all[i as int], |s: ReviewSpanView| !only_spaces(s.text));
        }
        if !is_only_spaces(spans[i].text.as_str()) {
            proof {
                let p = |s: ReviewSpanView| !only_spaces(s.text);
                let m = |s: ReviewSpanView| s.text;
                assert(all.take(i as int).filter(p).push(all[i as int]).map_values(m)
                    =~= all.take(i as int).filter(p).map_values(m).push(all[i as int].text));
                lemma_join_push(prev, "\n"@, spans@[i as int].text@);
            }
            if any {
                r.append("\n");
            }
            r.append(spans[i].text.as_str());
            any = true;
        }
        i = i + 1;
        assert(r@ =~= join_with(review_lines(all.take(i as int)), "\n"@));
    }
    assert(all.take(spans@.len() as int) =~= all);
    r
}

fn spans_any_edited(spans: &Vec<ReviewSpan>) -> (r: bool)
    ensures
        r == any_edited(spans_view(spans@)),
{
    let mut i: usize = 0;
    while i < spans.len()
        invariant
            i <= spans@.len(),
            forall|j: int| 0 <= j < i ==> !(#[trigger] spans@[j]).edited,
        decreases spans@.len() - i,
    {
        if spans[i].edited {
            assert(spans_view(spans@)[i as int].edited);
            return true;
        }
        i = i + 1;
    }
    assert forall|j: int| 0 <= j < spans_view(spans@).len() implies !(#[trigger] spans_view(spans@)[j]).edited by {
        assert(!spans@[j].edited);
    }
    false
}

fn edits_all_blank(edits: &[SpanEdit]) -> (r: bool)
    ensures
        r == all_edits_blank(edits@),
{
    let mut i: usize = 0;
    while i < edits.len()
        invariant
            i <= edits@.len(),
            forall|j: int| 0 <= j < i ==> all_white(#[trigger] edits@[j].text@),
        decreases edits@.len() - i,
    {
        if !is_blank(edits[i].text.as_str()) {
            return false;
        }
        i = i + 1;
    }
    true
}

/// Accept a scan or recording, span by span.
///
/// Each span keeps its own text, so corrections stay attached to the place
/// they belong on the page. A span may be emptied (a stray mark the engine
/// read as a word): it is kept, so the page's spans still line up, but
/// contributes nothing to the text. The text that becomes the note is rebuilt
/// from the spans in reading order, so it cannot drift from what the
/// person checking it saw.
///
/// Refused unless the job awaits review, some edit leaves text, and every
/// edit names a span of this document (`spans`, in reading order).
pub fn plan_span_verification(
    job_id: i64,
    state: JobState,
    spans: Vec<ReviewSpan>,
    edits: &[SpanEdit],
) -> (r: Result<SpanVerification, String>)
    ensures
        !awaiting_review(state) ==> r is Err && r->Err_0@ == state_refusal(
            job_id,
            state,
            only_review_message(),
        ),
        awaiting_review(state) && all_edits_blank(edits@) ==> r is Err && r->Err_0@
            == empty_verification_message(),
        awaiting_review(state) && !all_edits_blank(edits@) && apply_edits(
            spans_view(spans@),
            edits@,
        ) is None ==> r is Err && exists|k: int|
            #![trigger edits@[k]]
            refused_at(spans_view(spans@), edits@, k) && r->Err_0@ == foreign_span_message(
                edits@[k].span_id,
            ),
        awaiting_review(state) && !all_edits_blank(edits@) && apply_edits(
            spans_view(spans@),
            edits@,
        ) is Some ==> r is Ok && ({
            let v = r->Ok_0;
            let after = apply_edits(spans_view(spans@), edits@)->Some_0;
            &&& spans_view(v.spans@) == after
            &&& v.text@ == join_with(review_lines(after), "\n"@)
            &&& v.edited == any_edited(after)
            &&& Some(v.state) == human_step(state, ReviewAction::Verify, false)
        }),
{
    if !(state == JobState::NeedsReview || state == JobState::Verified) {
        return Err(refusal(job_id, state, "only a job awaiting review can be verified"));
    }
    if edits_all_blank(edits) {
        return Err("a verified document can't be empty".to_owned());
    }
    let ghost original = spans_view(spans@);
    let mut cur = spans;
    let mut k: usize = 0;
    while k < edits.len()
        invariant
            k <= edits@.len(),
            awaiting_review(state),
            !all_edits_blank(edits@),
            original == spans_view(spans@),
            apply_edits(original, edits@.take(k as int)) == Some(spans_view(cur@)),
        decreases edits@.len() - k,
    {
        proof {
            assert(edits@.take(k + 1).drop_last() =~= edits@.take(k as int));
            assert(edits@.take(k + 1).last() == edits@[k as int]);
        }
        let ghost cur_before = spans_view(cur@);
        let found = apply_one_edit(&mut cur, &edits[k]);
        if !found {
            proof {
                lemma_apply_edits_stays_refused(original, edits@, k + 1);
            }
            let mut e = "span ".to_owned();
            append_decimal(&mut e, edits[k].span_id);
            e.append(" does not belong to this document");
            assert(refused_at(original, edits@, k as int));
            assert(e@ =~= foreign_span_message(edits@[k as int].span_id));
            return Err(e);
        }
        k = k + 1;
    }
    assert(edits@.take(edits@.len() as int) =~= edits@);
    let text = review_text(&cur);
    let edited = spans_any_edited(&cur);
    Ok(SpanVerification { spans: cur, text, edited, state: JobState::Verified })
}

} // verus!
