use rooted::db::{
    chapter_annotations, chapter_highlights, highlights_at, list_notes, list_translations,
    note_anchor, note_change, plan_highlight, Anchor, Highlight, HighlightChange, Note, Translation,
};

fn word(verse_id: &str, translation_id: i64, token_idx: i64, surface: &str) -> Anchor {
    Anchor {
        anchor_type: "word".into(),
        verse_id: verse_id.into(),
        translation_id: Some(translation_id),
        token_idx: Some(token_idx),
        surface: Some(surface.into()),
    }
}

fn verse(verse_id: &str) -> Anchor {
    Anchor {
        anchor_type: "verse".into(),
        verse_id: verse_id.into(),
        translation_id: None,
        token_idx: None,
        surface: None,
    }
}

/// A note as stored, with the abbreviation of its anchor's translation.
fn note(note_id: i64, anchor: &Anchor, body: &str, origin: Option<&str>) -> Note {
    Note {
        note_id,
        title: None,
        body: body.into(),
        created_at: "2026-01-01 00:00:00".into(),
        updated_at: "2026-01-01 00:00:00".into(),
        anchor_type: anchor.anchor_type.clone(),
        verse_id: anchor.verse_id.clone(),
        translation_id: anchor.translation_id,
        token_idx: anchor.token_idx,
        surface: anchor.surface.clone(),
        origin_abbrev: origin.map(|s| s.to_string()),
        degraded: false,
    }
}

fn chapter_one() -> Vec<String> {
    vec!["Gen.1.1".to_string(), "Gen.1.2".to_string()]
}

fn highlight(id: i64, anchor: &Anchor, color: &str) -> Highlight {
    Highlight {
        id,
        anchor_type: anchor.anchor_type.clone(),
        verse_id: anchor.verse_id.clone(),
        translation_id: anchor.translation_id,
        token_idx: anchor.token_idx,
        color: color.into(),
    }
}

#[test]
fn malformed_anchors_are_rejected() {
    let no_token = Anchor { token_idx: None, ..word("Gen.1.1", 1, 0, "In") };
    assert_eq!(note_anchor(Some(no_token)).unwrap_err(), "word anchor requires a token_idx");
    let no_translation = Anchor { translation_id: None, ..word("Gen.1.1", 1, 0, "In") };
    assert_eq!(
        note_anchor(Some(no_translation)).unwrap_err(),
        "word anchor requires a translation_id"
    );
    let bad_type = Anchor { anchor_type: "paragraph".into(), ..verse("Gen.1.1") };
    assert_eq!(note_anchor(Some(bad_type)).unwrap_err(), "unknown anchor_type 'paragraph'");
    // A general study note has no anchor at all.
    assert!(note_anchor(None).unwrap().is_none());
}

#[test]
fn verse_notes_are_translation_independent() {
    // Written while reading WEB: the translation must not be recorded.
    let anchor = Anchor { translation_id: Some(1), ..verse("Gen.1.1") };
    let stored = note_anchor(Some(anchor)).unwrap().unwrap();
    assert_eq!(stored.translation_id, None);

    // Visible from the KJV chapter view too.
    let ann = chapter_annotations(&vec!["Gen.1.1".to_string()], vec![], &vec![stored], 2).unwrap();
    assert_eq!(ann.note_marks.len(), 1);
    assert_eq!(ann.note_marks[0].token_idx, None);
}

#[test]
fn word_notes_are_scoped_to_their_translation() {
    let on_word = word("Gen.1.1", 1, 2, "beginning");
    let stored = vec![note(1, &on_word, "on the word", Some("WEB"))];
    let notes = list_notes(word("Gen.1.1", 1, 2, "beginning"), stored, 1).unwrap();
    assert_eq!(notes.len(), 1);
    assert_eq!(notes[0].surface.as_deref(), Some("beginning"));
    // A different token, and a different translation, are different anchors.
    let stored = vec![note(1, &on_word, "on the word", Some("WEB"))];
    assert!(list_notes(word("Gen.1.1", 1, 1, "the"), stored, 1).unwrap().is_empty());
    let stored = vec![note(1, &on_word, "on the word", Some("WEB"))];
    assert!(list_notes(word("Gen.1.1", 2, 2, "beginning"), stored, 2).unwrap().is_empty());

    // In WEB it marks the word itself.
    let marks = chapter_annotations(&vec!["Gen.1.1".to_string(), "Gen.1.2".to_string()], vec![], &vec![on_word], 1).unwrap().note_marks;
    assert_eq!(marks.len(), 1);
    assert_eq!(marks[0].token_idx, Some(2));
    assert_eq!((marks[0].count, marks[0].degraded), (1, 0));
}

#[test]
fn word_notes_degrade_to_verse_level_in_another_translation() {
    let on_word = word("Gen.1.1", 1, 2, "beginning");
    let on_verse = verse("Gen.1.1");
    let anchors = vec![word("Gen.1.1", 1, 2, "beginning"), verse("Gen.1.1")];
    let stored = || {
        vec![
            note(1, &on_word, "on the word", Some("WEB")),
            note(2, &on_verse, "on the verse", None),
        ]
    };

    // Reading KJV: the WEB word note must not point at any KJV word.
    let marks = chapter_annotations(&vec!["Gen.1.1".to_string()], vec![], &anchors, 2).unwrap().note_marks;
    assert_eq!(marks.len(), 1);
    assert_eq!(marks[0].token_idx, None, "must not re-anchor to a KJV word");
    assert_eq!((marks[0].count, marks[0].degraded), (1, 1));

    // It surfaces on the verse, flagged, and still knows its word + origin.
    let notes = list_notes(verse("Gen.1.1"), stored(), 2).unwrap();
    assert_eq!(notes.len(), 2);
    let word_note = notes.iter().find(|n| n.anchor_type == "word").unwrap();
    assert!(word_note.degraded);
    assert_eq!(word_note.surface.as_deref(), Some("beginning"));
    assert_eq!(word_note.origin_abbrev.as_deref(), Some("WEB"));
    let verse_note = notes.iter().find(|n| n.anchor_type == "verse").unwrap();
    assert!(!verse_note.degraded, "verse notes are translation-independent");

    // Back in WEB it belongs to the word again, not the verse.
    let notes = list_notes(verse("Gen.1.1"), stored(), 1).unwrap();
    assert_eq!(notes.len(), 1);
    assert_eq!(notes[0].anchor_type, "verse");
    let notes = list_notes(word("Gen.1.1", 1, 2, "beginning"), stored(), 1).unwrap();
    assert_eq!(notes.len(), 1);
    assert!(!notes[0].degraded);
}

#[test]
fn removed_packs_disappear_from_the_reader_but_keep_their_row() {
    let web = || Translation { id: 1, abbrev: "WEB".into(), name: "World English Bible".into(), language: "en".into() };
    let kjv = || Translation { id: 2, abbrev: "KJV".into(), name: "King James Version".into(), language: "en".into() };
    assert_eq!(list_translations(vec![(kjv(), 1), (web(), 2)]).len(), 2);

    let ts = list_translations(vec![(kjv(), 0), (web(), 2)]);
    assert_eq!(ts.len(), 1);
    assert_eq!(ts[0].abbrev, "WEB");
}

/// The table after a change is written: its rows deleted, its row inserted
/// under `new_id`.
fn written(table: &[Highlight], change: &HighlightChange, new_id: i64) -> Vec<Highlight> {
    let mut rows: Vec<Highlight> = table
        .iter()
        .filter(|h| !change.remove.contains(&h.id))
        .map(|h| Highlight {
            id: h.id,
            anchor_type: h.anchor_type.clone(),
            verse_id: h.verse_id.clone(),
            translation_id: h.translation_id,
            token_idx: h.token_idx,
            color: h.color.clone(),
        })
        .collect();
    rows.push(highlight(new_id, &change.anchor, &change.color));
    rows
}

#[test]
fn setting_a_highlight_replaces_the_previous_one() {
    let v = verse("Gen.1.1");
    // One yellow highlight is stored; setting green replaces it.
    let table = vec![highlight(1, &v, "yellow")];
    let change = plan_highlight(verse("Gen.1.1"), "green".into(), &table).unwrap();
    assert_eq!(change.remove, vec![1]);
    let table = written(&table, &change, 2);
    assert_eq!(table.len(), 1);
    assert_eq!(table[0].color, "green");
    assert_eq!(highlights_at(&v, &table), vec![2]);

    // A word highlight in the same verse is an independent anchor.
    let w = word("Gen.1.1", 1, 2, "beginning");
    let change = plan_highlight(word("Gen.1.1", 1, 2, "beginning"), "blue".into(), &table).unwrap();
    assert!(change.remove.is_empty());
    let table = written(&table, &change, 3);
    assert_eq!(highlights_at(&w, &table), vec![3]);
    assert_eq!(highlights_at(&v, &table), vec![2]);
    assert_eq!(chapter_highlights(&chapter_one(), written(&table, &plan_highlight(verse("Gen.1.1"), "green".into(), &table).unwrap(), 4), 1).len(), 2);

    // Setting the verse again leaves the word highlight where it was.
    let change = plan_highlight(verse("Gen.1.1"), "pink".into(), &table).unwrap();
    assert_eq!(change.remove, vec![2]);
    let table = written(&table, &change, 4);
    assert_eq!(table.iter().map(|h| h.id).collect::<Vec<_>>(), vec![3, 4]);
    assert_eq!(table[0].color, "blue");

    // A verse anchor written with a translation is stored without it.
    let mut tagged = verse("Gen.1.1");
    tagged.translation_id = Some(1);
    let change = plan_highlight(tagged, "red".into(), &table).unwrap();
    assert_eq!(change.anchor.translation_id, None);
    assert!(plan_highlight(Anchor { anchor_type: "paragraph".into(), ..verse("Gen.1.1") }, "red".into(), &table).is_err());
}

#[test]
fn annotations_are_scoped_to_the_requested_chapter() {
    let stored = vec![
        highlight(1, &verse("Gen.1.2"), "pink"),
        // A verse that isn't in this chapter must not leak in.
        highlight(2, &verse("Gen.2.1"), "pink"),
    ];
    let ann = chapter_annotations(&chapter_one(), stored, &vec![], 1).unwrap();
    assert_eq!(ann.highlights.len(), 1);
    assert_eq!(ann.highlights[0].verse_id, "Gen.1.2");
}

#[test]
fn word_highlights_show_only_in_their_translation() {
    let w = word("Gen.1.1", 1, 2, "beginning");
    assert!(chapter_highlights(&chapter_one(), vec![highlight(3, &w, "blue")], 2).is_empty());
}

#[test]
fn note_marks_group_by_position() {
    let anchors = vec![
        verse("Gen.1.1"),
        word("Gen.1.1", 1, 2, "beginning"),
        verse("Gen.1.1"),
        word("Gen.1.2", 2, 0, "And"),
        word("Gen.1.1", 1, 2, "beginning"),
        verse("Gen.3.1"),
    ];
    let marks = chapter_annotations(&chapter_one(), vec![], &anchors, 1).unwrap().note_marks;
    let summary: Vec<(String, Option<i64>, i64, i64)> = marks
        .iter()
        .map(|m| (m.verse_id.clone(), m.token_idx, m.count, m.degraded))
        .collect();
    assert_eq!(
        summary,
        vec![
            ("Gen.1.1".to_string(), None, 2, 0),
            ("Gen.1.1".to_string(), Some(2), 2, 0),
            ("Gen.1.2".to_string(), None, 0, 1),
        ]
    );
}

#[test]
fn updating_or_deleting_a_missing_note_errors() {
    assert_eq!(note_change(999, 0).unwrap_err(), "note 999 not found");
    assert!(note_change(999, 1).is_ok());
}

#[test]
fn note_crud_round_trips() {
    // Creating: the anchor is stored in its normal form.
    let stored = note_anchor(Some(verse("Gen.1.1"))).unwrap().unwrap();
    assert_eq!(stored.verse_id, "Gen.1.1");
    let mut n = note(1, &stored, "body", None);
    n.title = Some("Origins".into());
    let notes = list_notes(verse("Gen.1.1"), vec![n], 1).unwrap();
    assert_eq!(notes.len(), 1);
    assert_eq!(notes[0].title.as_deref(), Some("Origins"));
    assert_eq!(notes[0].body, "body");

    // Updating touched the note, so it succeeds and the new text is listed.
    assert!(note_change(1, 1).is_ok());
    let notes = list_notes(verse("Gen.1.1"), vec![note(1, &stored, "edited", None)], 1).unwrap();
    assert_eq!(notes[0].title, None);
    assert_eq!(notes[0].body, "edited");

    // Deleting touched it too; nothing is left to list.
    assert!(note_change(1, 1).is_ok());
    assert!(list_notes(verse("Gen.1.1"), vec![], 1).unwrap().is_empty());
}
