use rooted::packs::{
    book_rows, find_entry, pack_status, parse_book, removal_target, tokenize, tokens_from_matches, BookPayload, ChapterPayload,
    JsonScalar, PackEntry, VersePayload, BOOKS,
};

#[test]
fn tokenizer_keeps_words_whole_and_offsets_slice_back() {
    let text = "God's well-beloved Son, in whom I am well pleased.";
    let tokens = tokenize(text);
    let surfaces: Vec<&str> = tokens.iter().map(|t| t.1.as_str()).collect();
    assert_eq!(surfaces[0], "God's");
    assert_eq!(surfaces[1], "well-beloved");
    // Every offset pair slices back to exactly the recorded surface.
    let chars: Vec<char> = text.chars().collect();
    for (_, surface, start, end) in &tokens {
        let slice: String = chars[*start as usize..*end as usize].iter().collect();
        assert_eq!(&slice, surface);
    }
}

#[test]
fn tokenizer_offsets_are_characters_not_bytes() {
    // Curly apostrophe is 3 bytes but 1 character.
    let text = "the Lord\u{2019}s word";
    let tokens = tokenize(text);
    let chars: Vec<char> = text.chars().collect();
    for (_, surface, start, end) in &tokens {
        let slice: String = chars[*start as usize..*end as usize].iter().collect();
        assert_eq!(&slice, surface);
    }
    assert_eq!(tokens.last().unwrap().1, "word");
}

#[test]
fn tokens_are_numbered_in_order() {
    let tokens = tokenize("In the beginning, God");
    assert_eq!(
        tokens,
        vec![
            (0, "In".to_string(), 0, 2),
            (1, "the".to_string(), 3, 6),
            (2, "beginning".to_string(), 7, 16),
            (3, "God".to_string(), 18, 21),
        ]
    );
    assert!(tokenize("  -- , ").is_empty());
    assert_eq!(tokenize("Ἐν ἀρχῇ")[1], (1, "ἀρχῇ".to_string(), 3, 7));
}

fn number(n: i64) -> Option<JsonScalar> {
    Some(JsonScalar::Int(n))
}

fn text_field(s: &str) -> Option<JsonScalar> {
    Some(JsonScalar::Text(s.to_string()))
}

#[test]
fn parses_getbible_payloads_with_string_or_number_fields() {
    let payload = BookPayload {
        chapters: Some(vec![
            ChapterPayload {
                chapter: number(1),
                verses: Some(vec![VersePayload {
                    verse: number(1),
                    text: Some(" In the beginning ".to_string()),
                }]),
            },
            ChapterPayload {
                chapter: text_field("2"),
                verses: Some(vec![VersePayload { verse: text_field("3"), text: Some("Second".to_string()) }]),
            },
        ]),
    };
    let verses = parse_book(&payload).unwrap();
    assert_eq!(verses[0], (1, 1, "In the beginning".to_string()));
    assert_eq!(verses[1], (2, 3, "Second".to_string()));
}

#[test]
fn malformed_payloads_are_refused() {
    assert!(parse_book(&BookPayload { chapters: None }).is_none());
    let bad_number = BookPayload {
        chapters: Some(vec![ChapterPayload {
            chapter: text_field("two"),
            verses: Some(vec![]),
        }]),
    };
    assert!(parse_book(&bad_number).is_none());
    let missing_verse = BookPayload {
        chapters: Some(vec![ChapterPayload {
            chapter: number(1),
            verses: Some(vec![VersePayload { verse: Some(JsonScalar::Other), text: None }]),
        }]),
    };
    assert!(parse_book(&missing_verse).is_none());
    let no_text = BookPayload {
        chapters: Some(vec![ChapterPayload {
            chapter: text_field("+4"),
            verses: Some(vec![VersePayload { verse: text_field("-1"), text: None }]),
        }]),
    };
    assert_eq!(parse_book(&no_text).unwrap(), vec![(4, -1, String::new())]);
    let overflow = BookPayload {
        chapters: Some(vec![ChapterPayload {
            chapter: text_field("9223372036854775808"),
            verses: Some(vec![]),
        }]),
    };
    assert!(parse_book(&overflow).is_none());
}

fn entry(abbrev: &str, slug: &str) -> PackEntry {
    PackEntry {
        abbrev: abbrev.into(),
        name: format!("{abbrev} Bible"),
        slug: slug.into(),
        language: "en".into(),
        license: "Public Domain".into(),
        year: "1900".into(),
        versification: "KJV".into(),
        blurb: String::new(),
    }
}

#[test]
fn registry_entries_are_found_by_abbreviation() {
    let registry = vec![entry("KJV", "kjv"), entry("ASV", "asv"), entry("KJV", "other")];
    assert_eq!(find_entry(&registry, "ASV").unwrap().slug, "asv");
    assert_eq!(find_entry(&registry, "KJV").unwrap().slug, "kjv");
    assert_eq!(find_entry(&registry, "NIV").unwrap_err(), "no pack 'NIV' in the registry");
}

#[test]
fn a_pack_is_installed_exactly_when_it_has_text() {
    let p = pack_status(entry("KJV", "kjv"), Some((Some(3), 31102)));
    assert!(p.installed);
    assert_eq!(p.translation_id, Some(3));
    // Removed: the row (and id) is kept, the text is gone.
    let p = pack_status(entry("KJV", "kjv"), Some((Some(3), 0)));
    assert!(!p.installed);
    assert_eq!(p.translation_id, Some(3));
    let p = pack_status(entry("KJV", "kjv"), None);
    assert!(!p.installed);
    assert_eq!((p.translation_id, p.verse_count), (None, 0));
}

#[test]
fn installed_books_get_osis_ids_and_running_positions() {
    assert_eq!(BOOKS.len(), 66);
    assert_eq!(BOOKS[64].0, "Jude");
    let verses = vec![(1, 1, "In the beginning".to_string()), (1, 2, "The earth".to_string())];
    let mut canonical = 10;
    let rows = book_rows("Gen", &verses, &mut canonical);
    assert_eq!(canonical, 12);
    assert_eq!(rows[0].verse_id, "Gen.1.1");
    assert_eq!(rows[1].verse_id, "Gen.1.2");
    assert_eq!((rows[0].canonical_order, rows[1].canonical_order), (11, 12));
    assert_eq!(rows[0].tokens.len(), 3);
    assert_eq!(rows[1].tokens[1], (1, "earth".to_string(), 4, 9));
}

#[test]
fn removing_a_pack_that_was_never_installed_is_refused() {
    assert_eq!(removal_target("KJV", Some(2)), Ok(2));
    assert_eq!(removal_target("XYZ", None), Err("'XYZ' is not installed".to_string()));
}

#[test]
fn tokens_follow_their_matches_in_character_offsets() {
    // "é" takes two bytes: "é ab" has matches at bytes 0..2 and 3..5.
    let tokens = tokens_from_matches("é ab", &vec![(0, 2), (3, 5)]);
    assert_eq!(tokens, vec![(0, "é".to_string(), 0, 1), (1, "ab".to_string(), 2, 4)]);
}

#[test]
fn tokens_come_in_text_order_without_overlap() {
    let tokens = tokenize("In the beginning God created the heaven and the earth.");
    assert_eq!(tokens.len(), 10);
    for k in 1..tokens.len() {
        assert!(tokens[k - 1].3 < tokens[k].2);
        assert!(tokens[k].2 < tokens[k].3);
        assert_eq!(tokens[k].0, k as i64);
    }
}
