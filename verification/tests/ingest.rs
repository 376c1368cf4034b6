use rooted::ingest::{
    current_state, format_of, kind_of, orphaned_files, plan_escalation, plan_job_deletion,
    plan_retry, plan_span_verification, plan_verification, preview_of, JobState, ReviewSpan,
    SpanEdit,
};

#[test]
fn formats_map_to_the_engine_and_review_ui_they_need() {
    assert_eq!(format_of("notes.TXT").unwrap(), "txt");
    assert_eq!(format_of("talk.docx").unwrap(), "docx");
    assert_eq!(format_of("scan.JPG").unwrap(), "jpg");
    assert_eq!(format_of("sermon.mp3").unwrap(), "mp3");

    assert_eq!(kind_of("txt"), "typed");
    assert_eq!(kind_of("pdf"), "typed");
    assert_eq!(kind_of("jpg"), "image");
    assert_eq!(kind_of("heic"), "image");
    assert_eq!(kind_of("mp3"), "audio");
    assert_eq!(kind_of("wav"), "audio");

    assert!(format_of("clip.mov").is_err(), "video isn't supported");
    assert!(format_of("noextension").is_err());
}

#[test]
fn states_round_trip() {
    for state in [
        JobState::Uploaded,
        JobState::Extracting,
        JobState::NeedsReview,
        JobState::Verified,
        JobState::Done,
        JobState::Error,
    ] {
        assert_eq!(JobState::parse(state.as_str()).unwrap(), state);
    }
    assert!(JobState::parse("SOMETHING_ELSE").is_err());
}

#[test]
fn an_unknown_format_names_what_can_be_read() {
    let err = format_of("clip.mov").unwrap_err();
    assert_eq!(
        err,
        "'clip.mov' isn't a format Rooted can read (documents: txt, md, docx, pdf; scans: jpg, jpeg, png, heic, tiff, tif; audio: mp3, m4a, wav, aiff, flac)"
    );
    assert_eq!(format_of("archive.tar.GZ").unwrap_err().starts_with("'archive.tar.GZ'"), true);
    assert_eq!(format_of("page.tar.Tif").unwrap(), "tif");
    assert!(format_of("trailing.").is_err());
}

#[test]
fn an_unknown_state_is_reported_by_name() {
    assert_eq!(JobState::parse("DONE ").unwrap_err(), "unknown job state 'DONE '");
    assert_eq!(current_state(7, None).unwrap_err(), "job 7 not found");
    assert_eq!(current_state(7, Some("ERROR".to_string())).unwrap(), JobState::Error);
}

#[test]
fn verification_is_the_only_route_to_verified() {
    // Straight from UPLOADED, there's nothing a human could have read.
    assert!(plan_verification(1, JobState::Uploaded, "anything", None).is_err());

    let v = plan_verification(
        1,
        JobState::NeedsReview,
        "In the beginning",
        Some(("In the beginning".to_string(), false)),
    )
    .unwrap();
    assert_eq!(v.state, JobState::Verified);
    assert!(!v.edited, "accepting unchanged text isn't an edit");
    assert_eq!(v.text, "In the beginning");
}

#[test]
fn corrections_are_recorded_as_edits() {
    let v = plan_verification(
        1,
        JobState::NeedsReview,
        "In the beginning",
        Some(("ln the beginnlng".to_string(), false)),
    )
    .unwrap();
    assert_eq!(v.text, "In the beginning");
    assert!(v.edited);

    // A second pass before the note is written is still allowed.
    let again = plan_verification(
        1,
        JobState::Verified,
        "In the beginning, God",
        Some((v.text, v.edited)),
    )
    .unwrap();
    assert_eq!(again.text, "In the beginning, God");
    assert!(again.edited);
}

#[test]
fn an_edit_is_never_forgotten() {
    // Putting the original words back does not erase the record of a correction.
    let v = plan_verification(3, JobState::Verified, "same", Some(("same".to_string(), true)))
        .unwrap();
    assert!(v.edited);
}

#[test]
fn empty_text_is_never_verifiable() {
    let err = plan_verification(
        1,
        JobState::NeedsReview,
        "   ",
        Some(("something".to_string(), false)),
    )
    .unwrap_err();
    assert_eq!(err, "a verified document can't be empty");
    assert!(plan_verification(1, JobState::NeedsReview, "\u{3000}\t\n", None).is_err());
}

#[test]
fn a_finished_job_cannot_be_re_verified() {
    let err = plan_verification(4, JobState::Done, "changed", Some(("text".to_string(), false)))
        .unwrap_err();
    assert!(err.contains("DONE"), "unexpected error: {err}");
    assert_eq!(err, "job 4 is DONE; only a job awaiting review can be verified");
}

#[test]
fn a_job_without_extracted_text_cannot_be_verified() {
    let err = plan_verification(12, JobState::NeedsReview, "text", None).unwrap_err();
    assert_eq!(err, "job 12 has no extracted text");
}

#[test]
fn failed_jobs_requeue_and_clear_their_claim() {
    let r = plan_retry(1, JobState::Error).unwrap();
    assert_eq!(r.state, JobState::Uploaded);
    assert!(plan_retry(1, JobState::NeedsReview).is_ok());
    assert_eq!(
        plan_retry(-3, JobState::Uploaded).unwrap_err(),
        "job -3 is UPLOADED; nothing to retry"
    );
}

fn scan_spans() -> Vec<ReviewSpan> {
    vec![
        ReviewSpan { span_id: 11, text: "Covenant — Abraham".into(), edited: false },
        ReviewSpan { span_id: 12, text: "promise repeated".into(), edited: false },
        ReviewSpan { span_id: 13, text: "see Galatians 3".into(), edited: false },
    ]
}

#[test]
fn span_corrections_stay_in_place_and_rebuild_the_text() {
    let edits = vec![
        SpanEdit { span_id: 11, text: "Covenant — Abraham".into() },
        SpanEdit { span_id: 12, text: "promise repeated to Isaac".into() },
        SpanEdit { span_id: 13, text: "see Galatians 3".into() },
    ];
    let v = plan_span_verification(1, JobState::NeedsReview, scan_spans(), &edits).unwrap();
    assert_eq!(v.state, JobState::Verified);
    // Only the changed span is marked edited; the others keep their history.
    assert!(!v.spans[0].edited);
    assert!(v.spans[1].edited);
    assert_eq!(v.spans[1].text, "promise repeated to Isaac");
    assert!(v.edited);
    // The note body is rebuilt from the spans, so it can't drift from them.
    assert_eq!(v.text, "Covenant — Abraham\npromise repeated to Isaac\nsee Galatians 3");
}

#[test]
fn an_emptied_span_is_kept_but_contributes_nothing() {
    // The engine read a stray mark as a word; the person correcting it clears it.
    let edits = vec![
        SpanEdit { span_id: 11, text: "Covenant — Abraham".into() },
        SpanEdit { span_id: 12, text: "".into() },
        SpanEdit { span_id: 13, text: "see Galatians 3".into() },
    ];
    let v = plan_span_verification(1, JobState::NeedsReview, scan_spans(), &edits).unwrap();
    assert_eq!(v.spans.len(), 3, "the span stays, so the page still lines up");
    assert_eq!(v.text, "Covenant — Abraham\nsee Galatians 3");
}

#[test]
fn spans_from_another_document_are_refused() {
    let edits = vec![SpanEdit { span_id: 99, text: "hijacked".into() }];
    let err = plan_span_verification(1, JobState::NeedsReview, scan_spans(), &edits).unwrap_err();
    assert_eq!(err, "span 99 does not belong to this document");
}

#[test]
fn clearing_every_span_is_not_a_verification() {
    let edits: Vec<SpanEdit> = [11, 12, 13]
        .iter()
        .map(|id| SpanEdit { span_id: *id, text: "  ".into() })
        .collect();
    assert!(plan_span_verification(1, JobState::NeedsReview, scan_spans(), &edits).is_err());
    assert!(plan_span_verification(1, JobState::NeedsReview, scan_spans(), &[]).is_err());
}

#[test]
fn a_finished_scan_cannot_be_re_verified() {
    let edits = vec![SpanEdit { span_id: 11, text: "x".into() }];
    let err = plan_span_verification(2, JobState::Done, scan_spans(), &edits).unwrap_err();
    assert_eq!(err, "job 2 is DONE; only a job awaiting review can be verified");
}

#[test]
fn escalation_is_only_offered_for_a_page() {
    // A typed document was never read by an engine that could be wrong
    // about it, so there is nothing to send.
    let refused = plan_escalation(1, JobState::NeedsReview, 0).unwrap_err();
    assert!(refused.contains("no page images"), "{refused}");
}

#[test]
fn escalating_queues_the_job_and_records_the_decision() {
    let r = plan_escalation(1, JobState::NeedsReview, 1).unwrap();
    assert_eq!(r.state, JobState::Uploaded);
    assert!(r.escalate);
}

#[test]
fn a_finished_job_is_not_sent_anywhere() {
    let err = plan_escalation(5, JobState::Done, 1).unwrap_err();
    assert_eq!(err, "job 5 is DONE; nothing to re-read");
}

#[test]
fn retrying_does_not_re_escalate() {
    let r = plan_retry(1, JobState::NeedsReview).unwrap();
    assert!(!r.escalate);
}

#[test]
fn deleting_a_job_keeps_the_note_it_produced() {
    // The note was written from the text; it does not name the document as
    // its source, so the document goes with the job.
    let d = plan_job_deletion(1, Some((8, Some(3))), false).unwrap();
    assert_eq!(d.doc_id, 8);
    assert!(!d.keep_document);
    let files = orphaned_files(&d, vec!["/tmp/talk.txt".into()], vec![]);
    assert_eq!(files, vec!["/tmp/talk.txt".to_string()]);
    assert_eq!(plan_job_deletion(2, None, false).unwrap_err(), "job 2 not found");
}

#[test]
fn deleting_a_job_keeps_the_page_its_note_was_read_from() {
    let d = plan_job_deletion(1, Some((8, Some(3))), true).unwrap();
    assert!(d.keep_document);
    let orphaned = orphaned_files(&d, vec!["/tmp/page.jpg".into()], vec!["/tmp/page1.png".into()]);
    assert!(orphaned.is_empty(), "nothing to delete: the note still needs the page");
    // Without a note, everything the document stored is released.
    let d = plan_job_deletion(1, Some((8, None)), true).unwrap();
    let orphaned = orphaned_files(&d, vec!["/tmp/page.jpg".into()], vec!["/tmp/page1.png".into()]);
    assert_eq!(orphaned, vec!["/tmp/page.jpg".to_string(), "/tmp/page1.png".to_string()]);
}

#[test]
fn previews_flatten_whitespace_and_cut_long_text() {
    assert_eq!(preview_of("  In the\n\tbeginning  God "), "In the beginning God");
    assert_eq!(preview_of(""), "");
    let long = "word ".repeat(40);
    let p = preview_of(&long);
    assert_eq!(p.chars().count(), 141);
    assert!(p.ends_with('…'));
    assert_eq!(&p[..10], "word word ");
    let exact = "x".repeat(140);
    assert_eq!(preview_of(&exact), exact);
}
